//! Resolution of imports to the files of the project.
//!
//! The registry comes first: it holds identity, stem, dotted Python module and
//! `crate::<module path>` keys. On top of it stand relative specifiers (`./foo`), expanded by
//! language with an `index` fallback, and Rust `crate::`, `self::` and `super::` paths, which are
//! probed as chains of keys and, where the crate root is known, as files under `src/`.
use vstd::prelude::*;

use crate::collections::ImportRegistry;
use crate::model::Language;
use crate::text;
use crate::text::Class;

verus! {

/// What a key stands for in a registry.
pub open spec fn lookup(registry: Map<Seq<char>, Seq<char>>, key: Seq<char>) -> Option<Seq<char>> {
    if registry.contains_key(key) {
        Some(registry[key])
    } else {
        None
    }
}

/// What the first registered one of some keys stands for.
pub open spec fn first_registered(
    registry: Map<Seq<char>, Seq<char>>,
    keys: Seq<Seq<char>>,
) -> Option<Seq<char>>
    decreases keys.len(),
{
    if keys.len() == 0 {
        None
    } else if registry.contains_key(keys[0]) {
        Some(registry[keys[0]])
    } else {
        first_registered(registry, keys.drop_first())
    }
}

fn find_registered(registry: &ImportRegistry, keys: &Vec<String>) -> (r: Option<String>)
    ensures
        text::opt_text(r) == first_registered(registry@, text::texts(keys@)),
{
    let ghost all = text::texts(keys@);
    assert(all.skip(0) =~= all);
    for i in 0..keys.len()
        invariant
            all == text::texts(keys@),
            first_registered(registry@, all) == first_registered(registry@, all.skip(i as int)),
    {
        match registry.get(keys[i].as_str()) {
            Some(found) => {
                return Some(found);
            },
            None => {},
        }
        assert(all.skip(i as int).drop_first() =~= all.skip(i + 1));
    }
    None
}

// ---------------------------------------------------------------------------
// Relative imports
// ---------------------------------------------------------------------------

/// What a relative specifier may lack to be the path of a file.
pub open spec fn extensions(lang: Language) -> Seq<Seq<char>> {
    match lang {
        Language::Python => seq![".py"@, "/__init__.py"@],
        Language::Rust => seq![".rs"@],
        Language::TypeScript => seq![".ts"@, ".tsx"@],
        Language::JavaScript => seq![".js"@, ".jsx"@, ".mjs"@, ".cjs"@],
        Language::Other => seq![],
    }
}

/// What a relative specifier may lack to be the path of a file.
pub fn relative_extensions(lang: Language) -> (r: Vec<&'static str>)
    ensures
        text::str_views(r@) == extensions(lang),
{
    let r: Vec<&'static str> = match lang {
        Language::Python => vec![".py", "/__init__.py"],
        Language::Rust => vec![".rs"],
        Language::TypeScript => vec![".ts", ".tsx"],
        Language::JavaScript => vec![".js", ".jsx", ".mjs", ".cjs"],
        Language::Other => vec![],
    };
    assert(text::str_views(r@) =~= extensions(lang));
    r
}

/// The components of a path after `.` and empty ones are dropped and each `..` has taken away the
/// component before it.
pub open spec fn clean_parts(parts: Seq<Seq<char>>) -> Seq<Seq<char>>
    decreases parts.len(),
{
    if parts.len() == 0 {
        seq![]
    } else {
        let front = clean_parts(parts.drop_last());
        let part = parts.last();
        if part.len() == 0 || part == "."@ {
            front
        } else if part == ".."@ {
            if front.len() > 0 {
                front.drop_last()
            } else {
                front
            }
        } else {
            front.push(part)
        }
    }
}

/// A path without `.`, `..` and empty components.
pub open spec fn cleaned(p: Seq<char>) -> Seq<char> {
    text::join(clean_parts(text::split(p, Class::Only('/'))), "/"@)
}

/// Collapses the `.`, `..` and empty components of a path.
pub fn clean_path(p: &str) -> (r: String)
    ensures
        r@ == cleaned(p@),
{
    let chars = text::chars_of(p);
    let parts = text::split_class(chars.as_slice(), Class::Only('/'));
    let ghost all = text::split(p@, Class::Only('/'));
    let mut out: Vec<&[char]> = Vec::new();
    assert(all.take(0) =~= seq![]);
    assert(text::pieces(out@) =~= seq![]);
    for i in 0..parts.len()
        invariant
            all == text::pieces(parts@),
            text::pieces(out@) == clean_parts(all.take(i as int)),
    {
        let part = parts[i];
        let ghost done = out@;
        proof {
            assert(all.take(i + 1).drop_last() =~= all.take(i as int));
            assert(all.take(i + 1).last() == part@);
        }
        if part.len() == 0 || text::is(part, ".") {
        } else if text::is(part, "..") {
            let _ = out.pop();
            assert(text::pieces(out@) =~= if done.len() > 0 {
                text::pieces(done).drop_last()
            } else {
                text::pieces(done)
            });
        } else {
            out.push(part);
            proof {
                text::lemma_pieces_push(done, part);
            }
        }
    }
    assert(all.take(parts@.len() as int) =~= all);
    let strings = text::strings_of(&out);
    text::join_strings(strings.as_slice(), "/")
}

/// The directory of a file: what stands before its last slash.
pub open spec fn directory(file: Seq<char>) -> Seq<char> {
    match text::before_last(file, Class::Only('/')) {
        Some(d) => d,
        None => seq![],
    }
}

/// The files that a relative import may mean, in the order in which they are tried.
pub open spec fn relative_candidates(cluster: Seq<char>, lang: Language) -> Seq<Seq<char>> {
    extensions(lang).map_values(|e: Seq<char>| cluster + e) + extensions(lang).map_values(
        |e: Seq<char>| cluster + "/index"@ + e,
    )
}

/// What a relative import stands for.
pub open spec fn relative_target(
    spec: Seq<char>,
    file: Seq<char>,
    lang: Language,
    registry: Map<Seq<char>, Seq<char>>,
) -> Option<Seq<char>> {
    let cluster = text::trim(cleaned(directory(file) + "/"@ + spec));
    if cluster.len() == 0 {
        None
    } else {
        first_registered(registry, relative_candidates(cluster, lang))
    }
}

/// Resolves a relative import against the directory of the file that holds it.
pub fn resolve_relative(
    spec: &str,
    current_file: &str,
    lang: Language,
    import_to_file: &ImportRegistry,
) -> (r: Option<String>)
    ensures
        text::opt_text(r) == relative_target(spec@, current_file@, lang, import_to_file@),
{
    broadcast use text::group_text;

    let file = text::chars_of(current_file);
    let mut path: String = match text::before_last_of(file.as_slice(), Class::Only('/')) {
        Some(d) => text::string_of(d),
        None => String::new(),
    };
    assert(path@ =~= directory(current_file@));
    path.append("/");
    path.append(spec);
    let clean = clean_path(path.as_str());
    let clean_chars = text::chars_of(clean.as_str());
    let cluster = text::string_of(text::trim_white(clean_chars.as_slice()));
    if cluster.as_str().is_empty() {
        return None;
    }
    let exts = relative_extensions(lang);
    let ghost views = extensions(lang);
    let ghost plain = views.map_values(|e: Seq<char>| cluster@ + e);
    let ghost indexed = views.map_values(|e: Seq<char>| cluster@ + "/index"@ + e);
    let mut candidates: Vec<String> = Vec::new();
    assert(text::texts(candidates@) =~= plain.take(0));
    for i in 0..exts.len()
        invariant
            text::str_views(exts@) == views,
            plain == views.map_values(|e: Seq<char>| cluster@ + e),
            text::texts(candidates@) == plain.take(i as int),
    {
        assert(views[i as int] == exts@[i as int]@);
        candidates.push(text::concat(cluster.as_str(), exts[i]));
        assert(plain.take(i as int).push(plain[i as int]) =~= plain.take(i + 1));
    }
    assert(plain.take(exts@.len() as int) =~= plain);
    assert(plain + indexed.take(0) =~= plain);
    for i in 0..exts.len()
        invariant
            text::str_views(exts@) == views,
            indexed == views.map_values(|e: Seq<char>| cluster@ + "/index"@ + e),
            text::texts(candidates@) == plain + indexed.take(i as int),
    {
        assert(views[i as int] == exts@[i as int]@);
        let base = text::concat(cluster.as_str(), "/index");
        candidates.push(text::concat(base.as_str(), exts[i]));
        assert((plain + indexed.take(i as int)).push(indexed[i as int]) =~= plain + indexed.take(
            i + 1,
        ));
    }
    assert(indexed.take(exts@.len() as int) =~= indexed);
    find_registered(import_to_file, &candidates)
}

// ---------------------------------------------------------------------------
// Rust: crate::, self:: and super:: paths, brace lists, and files under src/
// ---------------------------------------------------------------------------

/// The first place of a part in a list.
pub open spec fn first_part(parts: Seq<Seq<char>>, part: Seq<char>) -> Option<int>
    decreases parts.len(),
{
    if parts.len() == 0 {
        None
    } else if parts[0] == part {
        Some(0)
    } else {
        match first_part(parts.drop_first(), part) {
            Some(i) => Some(i + 1),
            None => None,
        }
    }
}

/// A part with no equal before it stands at the first place.
pub proof fn lemma_first_part(parts: Seq<Seq<char>>, part: Seq<char>)
    ensures
        match first_part(parts, part) {
            Some(i) => 0 <= i < parts.len() && parts[i] == part && forall|j: int|
                0 <= j < i ==> parts[j] != part,
            None => forall|j: int| 0 <= j < parts.len() ==> parts[j] != part,
        },
    decreases parts.len(),
{
    if parts.len() > 0 && parts[0] != part {
        let rest = parts.drop_first();
        lemma_first_part(rest, part);
        assert forall|j: int| 0 < j < parts.len() implies parts[j] == rest[j - 1] by {}
    }
}

/// The root of the crate that a Rust file belongs to: what stands before its first `src`
/// component.
pub open spec fn crate_root(file: Seq<char>) -> Option<Seq<char>> {
    let parts = text::split(file, Class::Only('/'));
    match first_part(parts, "src"@) {
        Some(i) => Some(text::join(parts.take(i), "/"@)),
        None => None,
    }
}

/// The root of the crate that a Rust file belongs to: `src/x.rs` has the empty root,
/// `crates/foo/src/x.rs` has `crates/foo`, a path without a `src` component has none.
pub fn rust_file_crate_root(file: &str) -> (r: Option<String>)
    ensures
        text::opt_text(r) == crate_root(file@),
{
    let chars = text::chars_of(file);
    let parts = text::split_class(chars.as_slice(), Class::Only('/'));
    let ghost all = text::split(file@, Class::Only('/'));
    for i in 0..parts.len()
        invariant
            all == text::pieces(parts@),
            all == text::split(file@, Class::Only('/')),
            forall|j: int| 0 <= j < i ==> all[j] != "src"@,
    {
        assert(all[i as int] == parts@[i as int]@);
        if text::is(parts[i], "src") {
            let strings = text::strings_of(&parts);
            let root = text::join_strings(&strings.as_slice()[0..i], "/");
            proof {
                lemma_first_part(all, "src"@);
                assert(text::texts(strings@.subrange(0, i as int)) =~= all.take(i as int));
            }
            return Some(root);
        }
    }
    proof {
        lemma_first_part(all, "src"@);
    }
    None
}

/// A crate root as the start of the paths below it.
pub open spec fn root_prefix(root: Seq<char>) -> Seq<char> {
    if root.len() == 0 {
        seq![]
    } else {
        root + "/"@
    }
}

fn prefix_of_root(root: &str) -> (r: String)
    ensures
        r@ == root_prefix(root@),
{
    if root.is_empty() {
        String::new()
    } else {
        text::concat(root, "/")
    }
}

/// The module path of a Rust file below its crate root.
pub open spec fn module_of(file: Seq<char>, root: Seq<char>) -> Option<Seq<Seq<char>>> {
    let prefix = root_prefix(root) + "src/"@;
    if !text::starts(file, prefix) {
        None
    } else {
        let rest = file.skip(prefix.len() as int);
        if !text::ends(rest, ".rs"@) {
            None
        } else {
            let parts = text::split(text::trim_end_text(rest, ".rs"@), Class::Only('/'));
            let name = parts.last();
            if name == "main"@ || name == "lib"@ || name == "mod"@ {
                Some(parts.drop_last())
            } else {
                Some(parts)
            }
        }
    }
}

/// The module path of a Rust file relative to its crate root: `crates/foo/src/app/models.rs` is
/// `app`, `models`. A file named `main.rs`, `lib.rs` or `mod.rs` stands for its directory. There
/// is none for a file outside of the `src/` directory of the root.
pub fn rust_module_path(file: &str, crate_root: &str) -> (r: Option<Vec<String>>)
    ensures
        match r {
            Some(p) => module_of(file@, crate_root@) == Some(text::texts(p@)),
            None => module_of(file@, crate_root@) is None,
        },
{
    let chars = text::chars_of(file);
    let prefix = text::concat(prefix_of_root(crate_root).as_str(), "src/");
    if !text::starts_with(chars.as_slice(), prefix.as_str()) {
        return None;
    }
    let width: usize = text::chars_of(prefix.as_str()).len();
    let n: usize = chars.len();
    let rest = &chars.as_slice()[width..n];
    assert(rest@ =~= file@.skip(prefix@.len() as int));
    if !text::ends_with(rest, ".rs") {
        return None;
    }
    let stem = text::trim_end_str(rest, ".rs");
    let mut parts = text::split_class(stem, Class::Only('/'));
    let ghost all = text::split(stem@, Class::Only('/'));
    assert(all.len() > 0);
    let last: usize = parts.len() - 1;
    let name = parts[last];
    assert(all.last() == name@);
    if text::is(name, "main") || text::is(name, "lib") || text::is(name, "mod") {
        let _ = parts.pop();
        assert(text::pieces(parts@) =~= all.drop_last());
    }
    Some(text::strings_of(&parts))
}

/// One item of a brace list behind its base, with what follows the list.
pub open spec fn expanded_item(base: Seq<char>, rest: Seq<char>, item: Seq<char>) -> Seq<char> {
    if item == "self"@ {
        base
    } else {
        let path = text::split_text(item, " as "@)[0];
        let candidate = if base.len() == 0 {
            path
        } else {
            base + "::"@ + path
        };
        if rest.len() > 0 {
            candidate + "::"@ + rest
        } else {
            candidate
        }
    }
}

/// The items of a brace list, each behind its base; empty items are left out.
pub open spec fn expanded_items(
    base: Seq<char>,
    rest: Seq<char>,
    items: Seq<Seq<char>>,
) -> Seq<Seq<char>>
    decreases items.len(),
{
    if items.len() == 0 {
        seq![]
    } else {
        let front = expanded_items(base, rest, items.drop_last());
        let item = text::trim(items.last());
        if item.len() == 0 {
            front
        } else {
            front.push(expanded_item(base, rest, item))
        }
    }
}

/// The paths that an import with a brace list stands for: the list from the first `{` to the
/// first `}` behind it is replaced by each of its items in turn. An import without such a list,
/// with one without items, or with a list inside of a list stands for itself.
pub open spec fn expanded(import: Seq<char>) -> Seq<Seq<char>> {
    match text::position(import, Class::Only('{')) {
        None => seq![import],
        Some(open) => match text::position(import.skip(open), Class::Only('}')) {
            None => seq![import],
            Some(width) => {
                let close = open + width;
                let base = text::trim_end_text(
                    text::trim_end(import.take(open), Class::Only(':')),
                    "::"@,
                );
                let rest = text::trim(import.skip(close + 1));
                let inner = import.subrange(open + 1, close);
                let nested = text::position(inner, Class::Only('{')) is Some;
                let out = expanded_items(base, rest, text::split(inner, Class::Only(',')));
                if nested || out.len() == 0 {
                    seq![import]
                } else {
                    out
                }
            },
        },
    }
}

fn expand_item(base: &[char], rest: &[char], item: &[char]) -> (r: String)
    ensures
        r@ == expanded_item(base@, rest@, item@),
{
    if text::is(item, "self") {
        return text::string_of(base);
    }
    proof {
        reveal_strlit(" as ");
    }
    let pieces = text::split_str(item, " as ");
    assert(text::split_text(item@, " as "@)[0] == pieces@[0]@);
    let mut out = String::new();
    if base.len() > 0 {
        out = text::string_of(base);
        out.append("::");
    }
    let path = text::string_of(pieces[0]);
    out.append(path.as_str());
    assert(out@ =~= if base@.len() == 0 {
        path@
    } else {
        base@ + "::"@ + path@
    });
    if rest.len() > 0 {
        out.append("::");
        out.append(text::string_of(rest).as_str());
    }
    out
}

fn one_string(s: &str) -> (r: Vec<String>)
    ensures
        text::texts(r@) == seq![s@],
{
    let mut out: Vec<String> = Vec::new();
    out.push(s.to_owned());
    assert(text::texts(out@) =~= seq![s@]);
    out
}

/// Expands `a::{b, c}` and `a::{self, b}` into the paths that they stand for. Only lists of one
/// level are expanded; everything else is handed back as it is.
pub fn expand_braces(import: &str) -> (r: Vec<String>)
    ensures
        text::texts(r@) == expanded(import@),
{
    broadcast use text::group_text;

    let chars = text::chars_of(import);
    let s = chars.as_slice();
    let n: usize = s.len();
    let open: usize = match text::position_of(s, Class::Only('{')) {
        Some(i) => i,
        None => {
            return one_string(import);
        },
    };
    let tail = &s[open..n];
    assert(tail@ =~= import@.skip(open as int));
    let width: usize = match text::position_of(tail, Class::Only('}')) {
        Some(i) => i,
        None => {
            return one_string(import);
        },
    };
    let close: usize = open + width;
    proof {
        text::lemma_position(import@, Class::Only('{'));
        text::lemma_position(tail@, Class::Only('}'));
    }
    assert(width > 0);
    let base = text::trim_end_str(
        text::trim_end_class(&s[0..open], Class::Only(':')),
        "::",
    );
    let rest = text::trim_white(&s[close + 1..n]);
    let inner = &s[open + 1..close];
    if text::position_of(inner, Class::Only('{')).is_some() {
        return one_string(import);
    }
    let items = text::split_class(inner, Class::Only(','));
    let ghost all = text::split(inner@, Class::Only(','));
    proof {
        assert(s@.subrange(0, open as int) =~= import@.take(open as int));
        assert(s@.subrange(close + 1, n as int) =~= import@.skip(close + 1));
    }
    let mut out: Vec<String> = Vec::new();
    assert(all.take(0) =~= seq![]);
    assert(text::texts(out@) =~= seq![]);
    for i in 0..items.len()
        invariant
            all == text::pieces(items@),
            text::texts(out@) == expanded_items(base@, rest@, all.take(i as int)),
    {
        proof {
            assert(all.take(i + 1).drop_last() =~= all.take(i as int));
            assert(all.take(i + 1).last() == items@[i as int]@);
        }
        let item = text::trim_white(items[i]);
        if item.len() > 0 {
            out.push(expand_item(base, rest, item));
        }
    }
    assert(all.take(items@.len() as int) =~= all);
    if out.len() == 0 {
        one_string(import)
    } else {
        out
    }
}

/// A Rust path without brace list, trailing `*` and `:`, and renaming.
pub open spec fn sanitized(path: Seq<char>) -> Seq<char> {
    let p = text::trim(path);
    let q = match text::position(p, Class::Only('{')) {
        Some(i) => text::trim(p.take(i)),
        None => text::trim(p),
    };
    let t = text::trim_end(q, Class::Either('*', ':'));
    text::trim(text::split_text(t, " as "@)[0])
}

/// Takes the brace list, a trailing `*` or `:` and a renaming off a Rust path.
pub fn sanitize_rust(path: &str) -> (r: String)
    ensures
        r@ == sanitized(path@),
{
    let chars = text::chars_of(path);
    let p = text::trim_white(chars.as_slice());
    let q = match text::position_of(p, Class::Only('{')) {
        Some(i) => {
            assert(p@.subrange(0, i as int) =~= p@.take(i as int));
            text::trim_white(&p[0..i])
        },
        None => text::trim_white(p),
    };
    let t = text::trim_end_class(q, Class::Either('*', ':'));
    proof {
        reveal_strlit(" as ");
    }
    let pieces = text::split_str(t, " as ");
    assert(text::split_text(t@, " as "@)[0] == pieces@[0]@);
    text::string_of(text::trim_white(pieces[0]))
}

/// The registry key of a module path.
pub open spec fn crate_key(segments: Seq<Seq<char>>) -> Seq<char> {
    "crate::"@ + text::join(segments, "::"@)
}

/// What the longest registered start of a module path stands for; a start has at least one
/// segment.
pub open spec fn key_chain_target(
    segments: Seq<Seq<char>>,
    registry: Map<Seq<char>, Seq<char>>,
) -> Option<Seq<char>>
    decreases segments.len(),
{
    if segments.len() == 0 {
        None
    } else if registry.contains_key(crate_key(segments)) {
        Some(registry[crate_key(segments)])
    } else {
        key_chain_target(segments.drop_last(), registry)
    }
}

/// Probes the registry for the longest start of a module path.
pub fn probe_key_chain(segments: &[String], import_to_file: &ImportRegistry) -> (r: Option<String>)
    ensures
        text::opt_text(r) == key_chain_target(text::texts(segments@), import_to_file@),
{
    let ghost all = text::texts(segments@);
    let mut n: usize = segments.len();
    assert(all.take(n as int) =~= all);
    while n > 0
        invariant
            n <= segments@.len(),
            all == text::texts(segments@),
            key_chain_target(all, import_to_file@) == key_chain_target(
                all.take(n as int),
                import_to_file@,
            ),
        decreases n,
    {
        assert(text::texts(segments@.subrange(0, n as int)) =~= all.take(n as int));
        let key = text::concat("crate::", text::join_strings(&segments[0..n], "::").as_str());
        match import_to_file.get(key.as_str()) {
            Some(found) => {
                return Some(found);
            },
            None => {},
        }
        assert(all.take(n as int).drop_last() =~= all.take(n - 1));
        n -= 1;
    }
    None
}

/// The files that a module path may mean under the `src/` directory of a crate.
pub open spec fn src_candidates(segments: Seq<Seq<char>>, root: Seq<char>) -> Seq<Seq<char>> {
    let stem = root_prefix(root) + "src/"@ + text::join(segments, "/"@);
    seq![stem + ".rs"@, stem + "/mod.rs"@]
}

/// What the longest start of a module path stands for that is a registered file under `src/`.
pub open spec fn src_chain_target(
    segments: Seq<Seq<char>>,
    root: Seq<char>,
    registry: Map<Seq<char>, Seq<char>>,
) -> Option<Seq<char>>
    decreases segments.len(),
{
    if segments.len() == 0 {
        None
    } else {
        match first_registered(registry, src_candidates(segments, root)) {
            Some(found) => Some(found),
            None => src_chain_target(segments.drop_last(), root, registry),
        }
    }
}

/// Probes the registry for the file of the longest start of a module path.
pub fn probe_src_chain(
    segments: &[String],
    crate_root: &str,
    import_to_file: &ImportRegistry,
) -> (r: Option<String>)
    ensures
        text::opt_text(r) == src_chain_target(
            text::texts(segments@),
            crate_root@,
            import_to_file@,
        ),
{
    broadcast use text::group_text;

    let ghost all = text::texts(segments@);
    let prefix = text::concat(prefix_of_root(crate_root).as_str(), "src/");
    let mut n: usize = segments.len();
    assert(all.take(n as int) =~= all);
    while n > 0
        invariant
            n <= segments@.len(),
            all == text::texts(segments@),
            prefix@ == root_prefix(crate_root@) + "src/"@,
            src_chain_target(all, crate_root@, import_to_file@) == src_chain_target(
                all.take(n as int),
                crate_root@,
                import_to_file@,
            ),
        decreases n,
    {
        assert(text::texts(segments@.subrange(0, n as int)) =~= all.take(n as int));
        let rel = text::join_strings(&segments[0..n], "/");
        let stem = text::concat(prefix.as_str(), rel.as_str());
        let mut candidates: Vec<String> = Vec::new();
        candidates.push(text::concat(stem.as_str(), ".rs"));
        candidates.push(text::concat(stem.as_str(), "/mod.rs"));
        assert(text::texts(candidates@) =~= src_candidates(all.take(n as int), crate_root@));
        match find_registered(import_to_file, &candidates) {
            Some(found) => {
                return Some(found);
            },
            None => {},
        }
        assert(all.take(n as int).drop_last() =~= all.take(n - 1));
        n -= 1;
    }
    None
}

/// What a module path stands for: a registered key chain comes before a file under `src/`.
pub open spec fn chain_target(
    segments: Seq<Seq<char>>,
    root: Option<Seq<char>>,
    registry: Map<Seq<char>, Seq<char>>,
) -> Option<Seq<char>> {
    match key_chain_target(segments, registry) {
        Some(found) => Some(found),
        None => match root {
            Some(root) => src_chain_target(segments, root, registry),
            None => None,
        },
    }
}

/// Resolves a module path by its key chain or, where the crate root is known, by its file.
pub fn probe_chains(
    segments: &[String],
    crate_root: Option<&str>,
    import_to_file: &ImportRegistry,
) -> (r: Option<String>)
    ensures
        text::opt_text(r) == chain_target(
            text::texts(segments@),
            text::opt_str(crate_root),
            import_to_file@,
        ),
{
    match probe_key_chain(segments, import_to_file) {
        Some(found) => Some(found),
        None => match crate_root {
            Some(root) => probe_src_chain(segments, root, import_to_file),
            None => None,
        },
    }
}

/// The module path of a file, or the path of the crate root where it cannot be told.
pub open spec fn own_module(file: Seq<char>, root: Option<Seq<char>>) -> Seq<Seq<char>> {
    match root {
        Some(root) => match module_of(file, root) {
            Some(path) => path,
            None => seq![],
        },
        None => seq![],
    }
}

/// The module path of a file, or the path of the crate root where it cannot be told, so that
/// `self::x` then means `crate::x`.
pub fn current_module_path(current_file: &str, crate_root: Option<&str>) -> (r: Vec<String>)
    ensures
        text::texts(r@) == own_module(current_file@, text::opt_str(crate_root)),
{
    if let Some(root) = crate_root {
        if let Some(path) = rust_module_path(current_file, root) {
            return path;
        }
    }
    let out: Vec<String> = Vec::new();
    assert(text::texts(out@) =~= seq![]);
    out
}

/// How many `super::` a path starts with, and what follows them.
pub open spec fn supers(path: Seq<char>) -> (nat, Seq<char>)
    decreases path.len(),
{
    if text::starts(path, "super::"@) && "super::"@.len() > 0 {
        let (n, rest) = supers(path.skip("super::"@.len() as int));
        (n + 1, rest)
    } else {
        (0, path)
    }
}

/// The segments of a Rust path from the crate root.
pub open spec fn segments_of(
    path: Seq<char>,
    file: Seq<char>,
    root: Option<Seq<char>>,
) -> Seq<Seq<char>> {
    let sep = "::"@;
    if text::starts(path, "crate::"@) {
        text::split_text(path.skip("crate::"@.len() as int), sep)
    } else if text::starts(path, "self::"@) {
        own_module(file, root) + text::split_text(path.skip("self::"@.len() as int), sep)
    } else if text::starts(path, sep) {
        text::split_text(path.skip(sep.len() as int), sep)
    } else {
        let (up, rest) = supers(path);
        if up > 0 {
            let own = own_module(file, root);
            let kept = if up < own.len() {
                own.take(own.len() - up)
            } else {
                seq![]
            };
            kept + text::split_text(rest, sep)
        } else {
            text::split_text(path, sep)
        }
    }
}

/// The strings of a list behind those of another.
fn extend_strings(head: Vec<String>, tail: &Vec<&[char]>) -> (r: Vec<String>)
    ensures
        text::texts(r@) == text::texts(head@) + text::pieces(tail@),
{
    broadcast use text::group_text;

    let mut out = head;
    let ghost all = text::pieces(tail@);
    assert(text::texts(out@) =~= text::texts(head@) + all.take(0));
    for i in 0..tail.len()
        invariant
            all == text::pieces(tail@),
            text::texts(out@) == text::texts(head@) + all.take(i as int),
    {
        out.push(text::string_of(tail[i]));
        assert((text::texts(head@) + all.take(i as int)).push(all[i as int]) =~= text::texts(head@)
            + all.take(i + 1));
    }
    assert(all.take(tail@.len() as int) =~= all);
    out
}

fn path_segments(path: &str, current_file: &str, crate_root: Option<&str>) -> (r: Vec<String>)
    ensures
        text::texts(r@) == segments_of(path@, current_file@, text::opt_str(crate_root)),
{
    proof {
        reveal_strlit("crate::");
        reveal_strlit("self::");
        reveal_strlit("super::");
        reveal_strlit("::");
    }
    let chars = text::chars_of(path);
    let s = chars.as_slice();
    let n: usize = s.len();
    if text::starts_with(s, "crate::") {
        assert(s@.subrange(7, n as int) =~= path@.skip(7));
        return text::strings_of(&text::split_str(&s[7..n], "::"));
    }
    if text::starts_with(s, "self::") {
        assert(s@.subrange(6, n as int) =~= path@.skip(6));
        let own = current_module_path(current_file, crate_root);
        return extend_strings(own, &text::split_str(&s[6..n], "::"));
    }
    if text::starts_with(s, "::") {
        assert(s@.subrange(2, n as int) =~= path@.skip(2));
        return text::strings_of(&text::split_str(&s[2..n], "::"));
    }
    let mut up: usize = 0;
    let mut rest = s;
    while text::starts_with(rest, "super::")
        invariant
            "super::"@.len() == 7,
            supers(path@).0 == up + supers(rest@).0,
            supers(path@).1 == supers(rest@).1,
            up + rest@.len() <= n,
        decreases rest@.len(),
    {
        let m: usize = rest.len();
        assert(rest@.subrange(7, m as int) =~= rest@.skip(7));
        rest = &rest[7..m];
        up += 1;
    }
    if up > 0 {
        let mut own = current_module_path(current_file, crate_root);
        let ghost whole = text::texts(own@);
        let keep: usize = if up < own.len() {
            own.len() - up
        } else {
            0
        };
        own.truncate(keep);
        assert(text::texts(own@) =~= whole.take(keep as int));
        assert(whole.take(0) =~= seq![]);
        extend_strings(own, &text::split_str(rest, "::"))
    } else {
        text::strings_of(&text::split_str(s, "::"))
    }
}

/// What the first of some paths stands for that stands for a file.
pub open spec fn paths_target(
    paths: Seq<Seq<char>>,
    file: Seq<char>,
    registry: Map<Seq<char>, Seq<char>>,
    root: Option<Seq<char>>,
) -> Option<Seq<char>>
    decreases paths.len(),
{
    if paths.len() == 0 {
        None
    } else {
        let path = sanitized(paths[0]);
        let found = if path.len() == 0 {
            None
        } else {
            chain_target(segments_of(path, file, root), root, registry)
        };
        match found {
            Some(f) => Some(f),
            None => paths_target(paths.drop_first(), file, registry, root),
        }
    }
}

/// What a Rust import stands for.
pub open spec fn rust_target(
    import: Seq<char>,
    file: Seq<char>,
    registry: Map<Seq<char>, Seq<char>>,
    root: Option<Seq<char>>,
) -> Option<Seq<char>> {
    paths_target(expanded(import), file, registry, root)
}

/// Resolves a Rust import: each path of a brace list is tried in turn.
pub fn resolve_rust(
    import: &str,
    current_file: &str,
    import_to_file: &ImportRegistry,
    crate_root: Option<&str>,
) -> (r: Option<String>)
    ensures
        text::opt_text(r) == rust_target(
            import@,
            current_file@,
            import_to_file@,
            text::opt_str(crate_root),
        ),
{
    let paths = expand_braces(import);
    let ghost all = expanded(import@);
    assert(all.skip(0) =~= all);
    for i in 0..paths.len()
        invariant
            all == text::texts(paths@),
            all == expanded(import@),
            paths_target(all, current_file@, import_to_file@, text::opt_str(crate_root)) == paths_target(
                all.skip(i as int),
                current_file@,
                import_to_file@,
                text::opt_str(crate_root),
            ),
    {
        assert(all.skip(i as int).drop_first() =~= all.skip(i + 1));
        assert(all.skip(i as int)[0] == paths@[i as int]@);
        let path = sanitize_rust(paths[i].as_str());
        if !path.as_str().is_empty() {
            let segments = path_segments(path.as_str(), current_file, crate_root);
            match probe_chains(segments.as_slice(), crate_root, import_to_file) {
                Some(found) => {
                    return Some(found);
                },
                None => {},
            }
        }
    }
    None
}

/// What an import stands for: the path of a file of the project, or nothing.
pub open spec fn target(
    import: Seq<char>,
    file: Seq<char>,
    lang: Language,
    registry: Map<Seq<char>, Seq<char>>,
    root: Option<Seq<char>>,
) -> Option<Seq<char>> {
    let name = text::trim(import);
    if name.len() == 0 {
        None
    } else if name[0] == '.' {
        relative_target(name, file, lang, registry)
    } else {
        let found = if lang == Language::Rust {
            rust_target(name, file, registry, root)
        } else {
            None
        };
        match found {
            Some(f) => Some(f),
            None => lookup(registry, name),
        }
    }
}

/// Resolves an import to a file of the project: a specifier with a leading dot is relative, a
/// Rust path is probed along its chain of modules, and anything else has to be a registered key.
pub fn resolve_import(
    import: &str,
    current_file: &str,
    lang: Language,
    import_to_file: &ImportRegistry,
    crate_root: Option<&str>,
) -> (r: Option<String>)
    ensures
        text::opt_text(r) == target(
            import@,
            current_file@,
            lang,
            import_to_file@,
            text::opt_str(crate_root),
        ),
{
    let chars = text::chars_of(import);
    let trimmed = text::trim_white(chars.as_slice());
    if trimmed.len() == 0 {
        return None;
    }
    let name = text::string_of(trimmed);
    if trimmed[0] == '.' {
        return resolve_relative(name.as_str(), current_file, lang, import_to_file);
    }
    if lang == Language::Rust {
        match resolve_rust(name.as_str(), current_file, import_to_file, crate_root) {
            Some(found) => {
                return Some(found);
            },
            None => {},
        }
    }
    import_to_file.get(name.as_str())
}

// ---------------------------------------------------------------------------
// Laws of cleaning
// ---------------------------------------------------------------------------

/// A component that stays in a path.
pub open spec fn lasting(part: Seq<char>) -> bool {
    part.len() > 0 && part != "."@ && part != ".."@
}

/// Of components without slashes those that last are left.
proof fn lemma_clean_parts(parts: Seq<Seq<char>>)
    requires
        forall|i: int, j: int|
            0 <= i < parts.len() && 0 <= j < parts[i].len() ==> #[trigger] parts[i][j] != '/',
    ensures
        forall|i: int| 0 <= i < clean_parts(parts).len() ==> lasting(#[trigger] clean_parts(parts)[i]),
        forall|i: int, j: int|
            0 <= i < clean_parts(parts).len() && 0 <= j < clean_parts(parts)[i].len()
                ==> #[trigger] clean_parts(parts)[i][j] != '/',
    decreases parts.len(),
{
    if parts.len() > 0 {
        let front = parts.drop_last();
        assert forall|i: int, j: int|
            0 <= i < front.len() && 0 <= j < front[i].len() implies #[trigger] front[i][j] != '/' by {
            assert(parts[i][j] != '/');
        }
        lemma_clean_parts(front);
        let c = clean_parts(front);
        let last = parts.last();
        assert forall|j: int| 0 <= j < last.len() implies #[trigger] last[j] != '/' by {
            assert(parts[parts.len() - 1][j] != '/');
        }
        let all = clean_parts(parts);
        assert forall|i: int| 0 <= i < all.len() implies lasting(#[trigger] all[i]) by {
            if i < c.len() {
                assert(all[i] == c[i]);
            }
        }
        assert forall|i: int, j: int|
            0 <= i < all.len() && 0 <= j < all[i].len() implies #[trigger] all[i][j] != '/' by {
            if i < c.len() {
                assert(all[i] == c[i]);
                assert(c[i][j] != '/');
            }
        }
    }
}

/// Components that last stay as they are.
proof fn lemma_lasting_parts_stay(parts: Seq<Seq<char>>)
    requires
        forall|i: int| 0 <= i < parts.len() ==> lasting(#[trigger] parts[i]),
    ensures
        clean_parts(parts) == parts,
    decreases parts.len(),
{
    if parts.len() > 0 {
        let front = parts.drop_last();
        assert forall|i: int| 0 <= i < front.len() implies lasting(#[trigger] front[i]) by {
            assert(lasting(parts[i]));
        }
        lemma_lasting_parts_stay(front);
        assert(lasting(parts[parts.len() - 1]));
        assert(front.push(parts.last()) =~= parts);
    }
}

proof fn lemma_components_of_cleaned(p: Seq<char>)
    ensures
        ({
            let parts = clean_parts(text::split(p, Class::Only('/')));
            &&& forall|i: int| 0 <= i < parts.len() ==> lasting(#[trigger] parts[i])
            &&& parts.len() > 0 ==> text::split(cleaned(p), Class::Only('/')) == parts
            &&& parts.len() == 0 ==> cleaned(p) == Seq::<char>::empty()
        }),
{
    let k = Class::Only('/');
    let all = text::split(p, k);
    text::lemma_pieces_are_free(p, k);
    assert forall|i: int, j: int|
        0 <= i < all.len() && 0 <= j < all[i].len() implies #[trigger] all[i][j] != '/' by {
        assert(!k.has(all[i][j]));
    }
    lemma_clean_parts(all);
    let parts = clean_parts(all);
    reveal_strlit("/");
    assert("/"@ =~= seq!['/']);
    if parts.len() > 0 {
        text::lemma_split_join(parts, '/');
    }
}

/// A cleaned path has no `.`, no `..` and no empty components, unless it is empty.
pub proof fn cleaned_paths_have_no_dots(p: Seq<char>)
    ensures
        cleaned(p).len() == 0 || forall|i: int|
            0 <= i < text::split(cleaned(p), Class::Only('/')).len() ==> lasting(
                #[trigger] text::split(cleaned(p), Class::Only('/'))[i],
            ),
{
    lemma_components_of_cleaned(p);
}

/// Cleaning a cleaned path changes nothing.
pub proof fn cleaning_is_idempotent(p: Seq<char>)
    ensures
        cleaned(cleaned(p)) == cleaned(p),
{
    let k = Class::Only('/');
    let parts = clean_parts(text::split(p, k));
    lemma_components_of_cleaned(p);
    if parts.len() > 0 {
        lemma_lasting_parts_stay(parts);
    } else {
        let none = Seq::<char>::empty();
        text::lemma_split_whole(none, k);
        assert(text::split(none, k).drop_last() =~= seq![]);
        reveal_with_fuel(clean_parts, 2);
        assert(clean_parts(text::split(none, k)) =~= seq![]);
    }
}

// ---------------------------------------------------------------------------
// Laws of resolution
// ---------------------------------------------------------------------------

/// A file with a relative path stands below the `src` component behind the root of its crate.
pub proof fn files_are_below_their_crate_root(file: Seq<char>)
    requires
        !text::starts(file, "/"@),
    ensures
        crate_root(file) matches Some(root) ==> text::starts(file, root_prefix(root) + "src"@),
{
    let parts = text::split(file, Class::Only('/'));
    reveal_strlit("/");
    reveal_strlit("src");
    assert("/"@ =~= seq!['/']);
    text::lemma_join_split(file, '/');
    lemma_first_part(parts, "src"@);
    if let Some(i) = first_part(parts, "src"@) {
        let root = text::join(parts.take(i), "/"@);
        let tail = parts.skip(i);
        let rest = text::join(tail, "/"@);
        assert(tail[0] == "src"@);
        if tail.len() > 1 {
            text::lemma_join_front(tail, "/"@);
        }
        assert(rest.subrange(0, 3) =~= "src"@);
        let head = root_prefix(root) + "src"@;
        if i == 0 {
            assert(tail =~= parts);
            assert(parts.take(0) =~= seq![]);
            assert(head =~= "src"@);
            assert(file.subrange(0, 3) =~= head);
        } else {
            text::lemma_join_at(parts, "/"@, i);
            assert(file == root + "/"@ + rest);
            if root.len() == 0 {
                assert(file.subrange(0, 1) =~= "/"@);
            }
            assert(file.subrange(0, head.len() as int) =~= head);
        }
    }
}


/// A brace list of one level between two places: the first `{` of an import and the first `}`
/// behind it, with no other `{` between them.
pub open spec fn flat_list(import: Seq<char>, open: int, close: int) -> bool {
    &&& 0 <= open < close < import.len()
    &&& import[open] == '{'
    &&& import[close] == '}'
    &&& forall|j: int| 0 <= j < open ==> import[j] != '{'
    &&& forall|j: int| open < j < close ==> import[j] != '{' && import[j] != '}'
}

/// An import with a brace list of one level.
pub open spec fn has_flat_list(import: Seq<char>) -> bool {
    exists|open: int, close: int| flat_list(import, open, close)
}

/// Only imports with a brace list of one level are expanded; all others stay as they are.
pub proof fn only_flat_lists_are_expanded(import: Seq<char>)
    requires
        !has_flat_list(import),
    ensures
        expanded(import) == seq![import],
{
    text::lemma_position(import, Class::Only('{'));
    if let Some(open) = text::position(import, Class::Only('{')) {
        let tail = import.skip(open);
        text::lemma_position(tail, Class::Only('}'));
        if let Some(width) = text::position(tail, Class::Only('}')) {
            let close = open + width;
            let inner = import.subrange(open + 1, close);
            assert(tail[width] == import[close]);
            assert(tail[0] == import[open]);
            text::lemma_position(inner, Class::Only('{'));
            if text::position(inner, Class::Only('{')) is None {
                assert forall|j: int| open < j < close implies import[j] != '{' && import[j]
                    != '}' by {
                    assert(inner[j - open - 1] == import[j]);
                    assert(tail[j - open] == import[j]);
                }
                assert(flat_list(import, open, close));
            }
        }
    }
}

/// A registered module path stands for its file, whatever files there are under `src/`.
pub proof fn registered_keys_come_first(
    segments: Seq<Seq<char>>,
    root: Option<Seq<char>>,
    registry: Map<Seq<char>, Seq<char>>,
)
    requires
        segments.len() > 0,
        registry.contains_key(crate_key(segments)),
    ensures
        chain_target(segments, root, registry) == Some(registry[crate_key(segments)]),
{
}

/// A segment that stands in a path as it is.
pub open spec fn plain_segment(s: Seq<char>) -> bool {
    s.len() > 0 && forall|j: int|
        0 <= j < s.len() ==> !text::white_space(#[trigger] s[j]) && s[j] != ':' && s[j] != '{'
            && s[j] != '*'
}

/// The characters of joined plain segments.
pub(crate) proof fn lemma_joined_segments(segments: Seq<Seq<char>>)
    requires
        segments.len() > 0,
        forall|i: int| 0 <= i < segments.len() ==> plain_segment(#[trigger] segments[i]),
    ensures
        ({
            let s = text::join(segments, "::"@);
            &&& s.len() > 0
            &&& s.last() != ':' && s.last() != '*'
            &&& forall|j: int|
                0 <= j < s.len() ==> !text::white_space(#[trigger] s[j]) && s[j] != '{'
        }),
    decreases segments.len(),
{
    let s = text::join(segments, "::"@);
    let last = segments.last();
    assert(plain_segment(segments[segments.len() - 1]));
    reveal_strlit("::");
    if segments.len() > 1 {
        let front = segments.drop_last();
        assert forall|i: int| 0 <= i < front.len() implies plain_segment(#[trigger] front[i]) by {
            assert(plain_segment(segments[i]));
        }
        lemma_joined_segments(front);
        let head = text::join(front, "::"@);
        assert(s == head + "::"@ + last);
        assert(s.last() == last.last());
        assert forall|j: int| 0 <= j < s.len() implies !text::white_space(#[trigger] s[j]) && s[j]
            != '{' by {
            if j < head.len() {
                assert(s[j] == head[j]);
            } else if j < head.len() + 2 {
                assert(s[j] == ':');
            } else {
                assert(s[j] == last[j - head.len() - 2]);
            }
        }
    }
}

/// A text that neither begins nor ends with a white character is not trimmed.
pub(crate) proof fn lemma_not_trimmed(s: Seq<char>)
    requires
        s.len() > 0,
        !text::white_space(s[0]),
        !text::white_space(s.last()),
    ensures
        text::trim(s) == s,
{
}

/// A text without a blank is not cut at ` as `.
pub(crate) proof fn lemma_not_renamed(s: Seq<char>)
    requires
        forall|j: int| 0 <= j < s.len() ==> !text::white_space(#[trigger] s[j]),
    ensures
        text::split_text(s, " as "@) == seq![s],
{
    let p = " as "@;
    reveal_strlit(" as ");
    text::lemma_find_from(s, p, 0);
    if let Some(i) = text::find(s, p) {
        assert(s.subrange(i, i + 4)[0] == p[0]);
        assert(text::white_space(s[i]));
    }
}

/// An import of a registered module by its `crate::` path stands for the file that the path is
/// registered for, in whatever file the import is.
pub proof fn registered_modules_resolve(
    segments: Seq<Seq<char>>,
    file: Seq<char>,
    registry: Map<Seq<char>, Seq<char>>,
    root: Option<Seq<char>>,
)
    requires
        segments.len() > 0,
        forall|i: int| 0 <= i < segments.len() ==> plain_segment(#[trigger] segments[i]),
        registry.contains_key(crate_key(segments)),
    ensures
        target(crate_key(segments), file, Language::Rust, registry, root) == Some(
            registry[crate_key(segments)],
        ),
{
    let import = crate_key(segments);
    let tail = text::join(segments, "::"@);
    reveal_strlit("crate::");
    reveal_strlit("::");
    lemma_joined_segments(segments);
    assert(import[0] == 'c');
    assert(import.last() == tail.last());
    assert forall|j: int| 0 <= j < import.len() implies !text::white_space(#[trigger] import[j])
        && import[j] != '{' by {
        if j >= 7 {
            assert(import[j] == tail[j - 7]);
        }
    }
    lemma_not_trimmed(import);
    assert(!has_flat_list(import)) by {
        assert forall|open: int, close: int| !flat_list(import, open, close) by {
            if 0 <= open < import.len() {
                assert(import[open] != '{');
            }
        }
    }
    only_flat_lists_are_expanded(import);
    text::lemma_position(import, Class::Only('{'));
    assert(text::trim_end(import, Class::Either('*', ':')) == import);
    lemma_not_renamed(import);
    assert(sanitized(import) == import);
    assert(import.skip(7) =~= tail);
    assert(import.subrange(0, 7) =~= "crate::"@);
    assert(text::starts(import, "crate::"@));
    assert("::"@ =~= seq![':', ':']);
    assert forall|i: int, j: int|
        0 <= i < segments.len() && 0 <= j < segments[i].len() implies #[trigger] segments[i][j]
        != ':' by {
        assert(plain_segment(segments[i]));
    }
    text::lemma_split_text_join(segments, ':');
    assert(segments_of(import, file, root) == segments);
    registered_keys_come_first(segments, root, registry);
    assert(seq![import][0] == import);
}

/// An import of a registered name in another language than Rust stands for the file that it is
/// registered for.
pub proof fn registered_names_resolve(
    name: Seq<char>,
    file: Seq<char>,
    lang: Language,
    registry: Map<Seq<char>, Seq<char>>,
    root: Option<Seq<char>>,
)
    requires
        lang != Language::Rust,
        name.len() > 0,
        text::trim(name) == name,
        name[0] != '.',
        registry.contains_key(name),
    ensures
        target(name, file, lang, registry, root) == Some(registry[name]),
{
}

/// A file that some name is registered for.
pub open spec fn is_registered_file(
    registry: Map<Seq<char>, Seq<char>>,
    path: Seq<char>,
) -> bool {
    exists|key: Seq<char>| #[trigger] registry.contains_key(key) && registry[key] == path
}

proof fn lemma_first_registered(registry: Map<Seq<char>, Seq<char>>, candidates: Seq<Seq<char>>)
    ensures
        first_registered(registry, candidates) matches Some(p) ==> is_registered_file(registry, p),
    decreases candidates.len(),
{
    if candidates.len() > 0 {
        lemma_first_registered(registry, candidates.drop_first());
    }
}

proof fn lemma_key_chain(segments: Seq<Seq<char>>, registry: Map<Seq<char>, Seq<char>>)
    ensures
        key_chain_target(segments, registry) matches Some(p) ==> is_registered_file(registry, p),
    decreases segments.len(),
{
    if segments.len() > 0 {
        lemma_key_chain(segments.drop_last(), registry);
    }
}

proof fn lemma_src_chain(
    segments: Seq<Seq<char>>,
    root: Seq<char>,
    registry: Map<Seq<char>, Seq<char>>,
)
    ensures
        src_chain_target(segments, root, registry) matches Some(p) ==> is_registered_file(
            registry,
            p,
        ),
    decreases segments.len(),
{
    if segments.len() > 0 {
        lemma_first_registered(registry, src_candidates(segments, root));
        lemma_src_chain(segments.drop_last(), root, registry);
    }
}

proof fn lemma_paths(
    paths: Seq<Seq<char>>,
    file: Seq<char>,
    registry: Map<Seq<char>, Seq<char>>,
    root: Option<Seq<char>>,
)
    ensures
        paths_target(paths, file, registry, root) matches Some(p) ==> is_registered_file(
            registry,
            p,
        ),
    decreases paths.len(),
{
    if paths.len() > 0 {
        let segments = segments_of(sanitized(paths[0]), file, root);
        lemma_key_chain(segments, registry);
        if let Some(r) = root {
            lemma_src_chain(segments, r, registry);
        }
        lemma_paths(paths.drop_first(), file, registry, root);
    }
}

/// Whatever an import stands for is a file that some name is registered for.
pub proof fn targets_are_registered(
    import: Seq<char>,
    file: Seq<char>,
    lang: Language,
    registry: Map<Seq<char>, Seq<char>>,
    root: Option<Seq<char>>,
)
    ensures
        target(import, file, lang, registry, root) matches Some(p) ==> is_registered_file(
            registry,
            p,
        ),
{
    let name = text::trim(import);
    if name.len() > 0 {
        let cluster = text::trim(cleaned(directory(file) + "/"@ + name));
        lemma_first_registered(registry, relative_candidates(cluster, lang));
        lemma_paths(expanded(name), file, registry, root);
        if lookup(registry, name) is Some {
            assert(registry.contains_key(name));
        }
    }
}

} // verus!
