//! The import registry: which importable names stand for which files.
//!
//! A file offers its path, its stem, the dotted names of a module of Python inside of packages,
//! and the `crate::` path of a module of Rust. Of several files that offer a name, the one with
//! the least path has it.
use vstd::prelude::*;

use crate::collections;
use crate::collections::{ImportRegistry, PathSet};
use crate::model;
use crate::model::{FileInfo, FileView, Language};
use crate::order;
use crate::order::Key;
use crate::resolve;
use crate::text;
use crate::text::Class;

verus! {

// ---------------------------------------------------------------------------
// Names of one file
// ---------------------------------------------------------------------------

/// A text without a suffix, where it has it.
pub open spec fn stripped(s: Seq<char>, suffix: Seq<char>) -> Option<Seq<char>> {
    if text::ends(s, suffix) {
        Some(s.take(s.len() - suffix.len()))
    } else {
        None
    }
}

fn strip<'a>(s: &'a [char], suffix: &str) -> (r: Option<&'a [char]>)
    ensures
        match r {
            Some(t) => stripped(s@, suffix@) == Some(t@),
            None => stripped(s@, suffix@) is None,
        },
{
    if text::ends_with(s, suffix) {
        let width: usize = text::chars_of(suffix).len();
        let n: usize = s.len() - width;
        assert(s@.subrange(0, n as int) =~= s@.take(n as int));
        Some(&s[0..n])
    } else {
        None
    }
}

/// A text without the first of some suffixes that it has.
pub open spec fn without_suffix(s: Seq<char>, suffixes: Seq<Seq<char>>) -> Seq<char>
    decreases suffixes.len(),
{
    if suffixes.len() == 0 {
        s
    } else {
        match stripped(s, suffixes[0]) {
            Some(t) => t,
            None => without_suffix(s, suffixes.drop_first()),
        }
    }
}

/// The suffixes of source files.
pub open spec fn source_suffixes() -> Seq<Seq<char>> {
    seq![".py"@, ".rs"@, ".tsx"@, ".ts"@, ".jsx"@, ".js"@, ".mjs"@, ".cjs"@]
}

/// The last component of a path.
pub open spec fn file_name(path: Seq<char>) -> Seq<char> {
    text::split(path, Class::Only('/')).last()
}

/// The name of a file without its suffix.
pub open spec fn stem(path: Seq<char>) -> Seq<char> {
    without_suffix(file_name(path), source_suffixes())
}

/// The name of a file without its suffix.
pub fn file_stem(path: &str) -> (r: Option<String>)
    ensures
        text::opt_text(r) == Some(stem(path@)),
{
    let chars = text::chars_of(path);
    let parts = text::split_class(chars.as_slice(), Class::Only('/'));
    let name = parts[parts.len() - 1];
    assert(text::split(path@, Class::Only('/')).last() == name@);
    let suffixes = vec![".py", ".rs", ".tsx", ".ts", ".jsx", ".js", ".mjs", ".cjs"];
    let ghost all = source_suffixes();
    assert(text::str_views(suffixes@) =~= all);
    assert(all.skip(0) =~= all);
    for i in 0..suffixes.len()
        invariant
            all == text::str_views(suffixes@),
            stem(path@) == without_suffix(name@, all),
            without_suffix(name@, all) == without_suffix(name@, all.skip(i as int)),
    {
        assert(all.skip(i as int)[0] == suffixes@[i as int]@);
        assert(all.skip(i as int).drop_first() =~= all.skip(i + 1));
        if let Some(s) = strip(name, suffixes[i]) {
            return Some(text::string_of(s));
        }
    }
    Some(text::string_of(name))
}

/// Whether a directory is a package of Python.
pub open spec fn package(dir: Seq<char>, paths: Set<Seq<char>>) -> bool {
    paths.contains(dir + "/__init__.py"@)
}

/// Tells whether a directory is a package of Python.
pub fn is_package_dir(dir: &str, files: &PathSet) -> (r: bool)
    ensures
        r == package(dir@, files@),
{
    files.contains(text::concat(dir, "/__init__.py").as_str())
}

/// Each directory from the one at a place down to the last is a package.
pub open spec fn package_chain(dirs: Seq<Seq<char>>, from: int, paths: Set<Seq<char>>) -> bool {
    forall|k: int|
        from <= k < dirs.len() ==> package(text::join(#[trigger] dirs.take(k + 1), "/"@), paths)
}

/// The dotted name of a module, from the directory at a place on.
pub open spec fn dotted_name(dirs: Seq<Seq<char>>, name: Seq<char>, from: int) -> Seq<char> {
    let base = text::join(dirs.skip(from), "."@);
    if name == "__init__.py"@ {
        base
    } else {
        base + "."@ + without_suffix(name, seq![".py"@])
    }
}

/// The dotted names of a module from the first directories on.
pub open spec fn dotted_names(
    dirs: Seq<Seq<char>>,
    name: Seq<char>,
    paths: Set<Seq<char>>,
    upto: int,
) -> Seq<Seq<char>>
    decreases upto,
{
    if upto <= 0 {
        seq![]
    } else {
        let front = dotted_names(dirs, name, paths, upto - 1);
        if package_chain(dirs, upto - 1, paths) {
            front.push(dotted_name(dirs, name, upto - 1))
        } else {
            front
        }
    }
}

/// The dotted names by which a file of Python can be imported: one for each directory from which
/// on all directories down to the file are packages.
pub open spec fn module_keys(file: Seq<char>, paths: Set<Seq<char>>) -> Seq<Seq<char>> {
    let parts = text::split(file, Class::Only('/'));
    if !text::ends(file, ".py"@) || parts.len() < 2 {
        seq![]
    } else {
        dotted_names(parts.drop_last(), parts.last(), paths, parts.len() - 1)
    }
}

fn is_package_chain(dirs: &[String], from: usize, files: &PathSet) -> (r: bool)
    ensures
        r == package_chain(text::texts(dirs@), from as int, files@),
{
    let ghost all = text::texts(dirs@);
    let mut k: usize = from;
    while k < dirs.len()
        invariant
            all == text::texts(dirs@),
            from <= k,
            forall|j: int|
                from <= j < k && j < dirs@.len() ==> package(
                    text::join(#[trigger] all.take(j + 1), "/"@),
                    files@,
                ),
        decreases dirs@.len() - k,
    {
        assert(text::texts(dirs@.subrange(0, k + 1)) =~= all.take(k + 1));
        let dir = text::join_strings(&dirs[0..k + 1], "/");
        if !is_package_dir(dir.as_str(), files) {
            return false;
        }
        k += 1;
    }
    true
}

/// The dotted names by which a file of Python can be imported: `app/models.py` inside of the
/// package `app` is `app.models`, and `app/views/__init__.py` is `app.views`. In nested packages
/// there is a name from every package on, so both the full and the local name are there.
pub fn python_module_keys(file: &str, files: &PathSet) -> (r: Vec<String>)
    ensures
        text::texts(r@) == module_keys(file@, files@),
{
    broadcast use text::group_text;

    let mut keys: Vec<String> = Vec::new();
    assert(text::texts(keys@) =~= seq![]);
    let chars = text::chars_of(file);
    if !text::ends_with(chars.as_slice(), ".py") {
        return keys;
    }
    let pieces = text::split_class(chars.as_slice(), Class::Only('/'));
    let ghost parts = text::split(file@, Class::Only('/'));
    if pieces.len() < 2 {
        return keys;
    }
    let n: usize = pieces.len() - 1;
    let name = pieces[n];
    let strings = text::strings_of(&pieces);
    assert(strings@.len() == text::texts(strings@).len());
    let dirs = &strings.as_slice()[0..n];
    assert(text::texts(dirs@) =~= parts.drop_last());
    assert(parts.last() == name@);
    let is_init = text::is(name, "__init__.py");
    proof {
        assert(seq![".py"@].drop_first() =~= seq![]);
        reveal_with_fuel(without_suffix, 2);
    }
    let bare = match strip(name, ".py") {
        Some(s) => s,
        None => name,
    };
    assert(bare@ == without_suffix(name@, seq![".py"@]));
    let tail = text::string_of(bare);
    for i in 0..n
        invariant
            n == dirs@.len(),
            tail@ == without_suffix(name@, seq![".py"@]),
            is_init == (name@ == "__init__.py"@),
            text::texts(keys@) == dotted_names(text::texts(dirs@), name@, files@, i as int),
    {
        if is_package_chain(dirs, i, files) {
            assert(text::texts(dirs@.subrange(i as int, n as int)) =~= text::texts(dirs@).skip(
                i as int,
            ));
            let mut key = text::join_strings(&dirs[i..n], ".");
            if !is_init {
                key.append(".");
                key.append(tail.as_str());
            }
            keys.push(key);
        }
    }
    keys
}

/// The registry key of a file of Rust: `crate` for the root of a crate, `crate::app::models` for a
/// module below it; nothing for a file outside of a crate.
pub open spec fn rust_key(path: Seq<char>) -> Option<Seq<char>> {
    match resolve::crate_root(path) {
        Some(root) => {
            let module = match resolve::module_of(path, root) {
                Some(m) => m,
                None => seq![],
            };
            if module.len() == 0 {
                Some("crate"@)
            } else {
                Some(resolve::crate_key(module))
            }
        },
        None => None,
    }
}

fn rust_module_key(path: &str) -> (r: Option<String>)
    ensures
        text::opt_text(r) == rust_key(path@),
{
    match resolve::rust_file_crate_root(path) {
        Some(root) => {
            let module = match resolve::rust_module_path(path, root.as_str()) {
                Some(m) => m,
                None => Vec::new(),
            };
            if module.len() == 0 {
                Some("crate".to_owned())
            } else {
                Some(
                    text::concat("crate::", text::join_strings(module.as_slice(), "::").as_str()),
                )
            }
        },
        None => None,
    }
}

/// The names that a file offers: its path and stem, the dotted names of a module of Python, and
/// the key of a module of Rust.
pub open spec fn offered(file: FileView, paths: Set<Seq<char>>) -> Seq<Seq<char>> {
    let python = if file.language == Language::Python {
        module_keys(file.path, paths)
    } else {
        seq![]
    };
    let rust = if file.language == Language::Rust {
        match rust_key(file.path) {
            Some(k) => seq![k],
            None => seq![],
        }
    } else {
        seq![]
    };
    seq![file.path, stem(file.path)] + python + rust
}

// ---------------------------------------------------------------------------
// The registry of all files
// ---------------------------------------------------------------------------

/// The paths of files.
pub open spec fn paths_of(files: Seq<FileView>) -> Set<Seq<char>> {
    Set::new(|p: Seq<char>| exists|i: int| 0 <= i < files.len() && (#[trigger] files[i]).path == p)
}

/// Whether a file is among those that offer a name.
pub open spec fn offers(files: Seq<FileView>, i: int, key: Seq<char>) -> bool {
    0 <= i < files.len() && offered(files[i], paths_of(files)).contains(key)
}

/// A path that no path of the files that offer a name comes before.
pub open spec fn least_offering(files: Seq<FileView>, key: Seq<char>, path: Seq<char>) -> bool {
    &&& exists|i: int| #[trigger] offers(files, i, key) && files[i].path == path
    &&& forall|i: int| #[trigger]
        offers(files, i, key) ==> !order::before(files[i].path, path)
}

/// A map is the registry of some files: it has the names that they offer, each with the least
/// path of those that offer it.
pub open spec fn is_registry(files: Seq<FileView>, m: Map<Seq<char>, Seq<char>>) -> bool {
    &&& forall|key: Seq<char>| #[trigger]
        m.contains_key(key) <==> exists|i: int| offers(files, i, key)
    &&& forall|key: Seq<char>| #[trigger]
        m.contains_key(key) ==> least_offering(files, key, m[key])
}

/// The registry of some files.
pub open spec fn registry(files: Seq<FileView>) -> Map<Seq<char>, Seq<char>> {
    choose|m: Map<Seq<char>, Seq<char>>| is_registry(files, m)
}

/// Files have one registry.
pub proof fn registry_is_unique(
    files: Seq<FileView>,
    a: Map<Seq<char>, Seq<char>>,
    b: Map<Seq<char>, Seq<char>>,
)
    requires
        is_registry(files, a),
        is_registry(files, b),
    ensures
        a == b,
{
    assert forall|key: Seq<char>| a.contains_key(key) <==> b.contains_key(key) by {}
    assert forall|key: Seq<char>| #[trigger] a.contains_key(key) implies a[key] == b[key] by {
        assert(b.contains_key(key));
        let i = choose|i: int| #[trigger] offers(files, i, key) && files[i].path == a[key];
        let j = choose|j: int| #[trigger] offers(files, j, key) && files[j].path == b[key];
        assert(!order::before(files[j].path, a[key]));
        assert(!order::before(files[i].path, b[key]));
        order::lemma_before_total(a[key], b[key]);
    }
    assert(a =~= b);
}

/// The registry does not depend on the order in which the files are found: a name stands for the
/// same file in whatever order they come.
pub proof fn registry_ignores_walk_order(files: Seq<FileView>, others: Seq<FileView>)
    requires
        forall|f: FileView| files.contains(f) <==> others.contains(f),
    ensures
        forall|m: Map<Seq<char>, Seq<char>>| is_registry(files, m) <==> is_registry(others, m),
        registry(files) == registry(others),
{
    assert forall|m: Map<Seq<char>, Seq<char>>| is_registry(files, m) implies is_registry(
        others,
        m,
    ) by {
        lemma_same_files(files, others, m);
    }
    assert forall|m: Map<Seq<char>, Seq<char>>| is_registry(others, m) implies is_registry(
        files,
        m,
    ) by {
        lemma_same_files(others, files, m);
    }
    registry_exists(files);
    registry_exists(others);
    registry_is_unique(others, registry(files), registry(others));
}

/// Of the first files that offer a name, one has the least path.
proof fn lemma_least_exists(files: Seq<FileView>, key: Seq<char>, n: int) -> (least: int)
    requires
        0 <= n <= files.len(),
        exists|i: int| i < n && #[trigger] offers(files, i, key),
    ensures
        least < n,
        offers(files, least, key),
        forall|i: int|
            i < n && #[trigger] offers(files, i, key) ==> !order::before(
                files[i].path,
                files[least].path,
            ),
    decreases n,
{
    if exists|i: int| i < n - 1 && #[trigger] offers(files, i, key) {
        let least = lemma_least_exists(files, key, n - 1);
        if offers(files, n - 1, key) && order::before(files[n - 1].path, files[least].path) {
            assert forall|i: int| i < n && #[trigger] offers(files, i, key) implies !order::before(
                files[i].path,
                files[n - 1].path,
            ) by {
                order::lemma_before_irreflexive(files[n - 1].path);
                if order::before(files[i].path, files[n - 1].path) {
                    order::lemma_before_transitive(
                        files[i].path,
                        files[n - 1].path,
                        files[least].path,
                    );
                }
            }
            n - 1
        } else {
            least
        }
    } else {
        order::lemma_before_irreflexive(files[n - 1].path);
        n - 1
    }
}

/// Files have a registry.
pub proof fn registry_exists(files: Seq<FileView>)
    ensures
        is_registry(files, registry(files)),
{
    let m = Map::<Seq<char>, Seq<char>>::new(
        |key: Seq<char>| exists|i: int| offers(files, i, key),
        |key: Seq<char>| choose|path: Seq<char>| least_offering(files, key, path),
    );
    assert forall|key: Seq<char>| #[trigger] m.contains_key(key) implies least_offering(
        files,
        key,
        m[key],
    ) by {
        let i = choose|i: int| offers(files, i, key);
        assert(i < files.len() && offers(files, i, key));
        let least = lemma_least_exists(files, key, files.len() as int);
        assert(least_offering(files, key, files[least].path));
    }
    assert(is_registry(files, m));
}

proof fn lemma_same_files(
    files: Seq<FileView>,
    others: Seq<FileView>,
    m: Map<Seq<char>, Seq<char>>,
)
    requires
        forall|f: FileView| files.contains(f) <==> others.contains(f),
        is_registry(files, m),
    ensures
        is_registry(others, m),
{
    assert(paths_of(files) =~= paths_of(others)) by {
        assert forall|p: Seq<char>| paths_of(files).contains(p) <==> paths_of(others).contains(
            p,
        ) by {
            if paths_of(files).contains(p) {
                let i = choose|i: int| 0 <= i < files.len() && (#[trigger] files[i]).path == p;
                assert(files.contains(files[i]));
                let j = choose|j: int| 0 <= j < others.len() && others[j] == files[i];
                assert(others[j].path == p);
            }
            if paths_of(others).contains(p) {
                let i = choose|i: int| 0 <= i < others.len() && (#[trigger] others[i]).path == p;
                assert(others.contains(others[i]));
                let j = choose|j: int| 0 <= j < files.len() && files[j] == others[i];
                assert(files[j].path == p);
            }
        }
    }
    assert forall|i: int, key: Seq<char>| #[trigger] offers(files, i, key) implies exists|j: int|
        offers(others, j, key) && others[j] == files[i] by {
        assert(files.contains(files[i]));
        let j = choose|j: int| 0 <= j < others.len() && others[j] == files[i];
        assert(offers(others, j, key));
    }
    assert forall|j: int, key: Seq<char>| #[trigger] offers(others, j, key) implies exists|i: int|
        offers(files, i, key) && others[j] == files[i] by {
        assert(others.contains(others[j]));
        let i = choose|i: int| 0 <= i < files.len() && files[i] == others[j];
        assert(offers(files, i, key));
    }
    assert forall|key: Seq<char>| #[trigger] m.contains_key(key) <==> exists|j: int|
        offers(others, j, key) by {
        if m.contains_key(key) {
            let i = choose|i: int| offers(files, i, key);
            let j = choose|j: int| offers(others, j, key) && others[j] == files[i];
            assert(offers(others, j, key));
        }
        if exists|j: int| offers(others, j, key) {
            let j = choose|j: int| offers(others, j, key);
            let i = choose|i: int| offers(files, i, key) && others[j] == files[i];
            assert(offers(files, i, key));
        }
    }
    assert forall|key: Seq<char>| #[trigger] m.contains_key(key) implies least_offering(
        others,
        key,
        m[key],
    ) by {
        let i = choose|i: int| #[trigger] offers(files, i, key) && files[i].path == m[key];
        let j = choose|j: int| offers(others, j, key) && others[j] == files[i];
        assert(offers(others, j, key) && others[j].path == m[key]);
        assert forall|j: int| #[trigger] offers(others, j, key) implies !order::before(
            others[j].path,
            m[key],
        ) by {
            let i = choose|i: int| offers(files, i, key) && others[j] == files[i];
            assert(offers(files, i, key));
        }
    }
}

fn path_set(files: &[FileInfo]) -> (r: PathSet)
    ensures
        r@ == paths_of(model::file_views(files@)),
{
    let ghost all = model::file_views(files@);
    let mut out = PathSet::new();
    assert(out@ =~= paths_of(all.take(0)));
    for i in 0..files.len()
        invariant
            all == model::file_views(files@),
            out@ == paths_of(all.take(i as int)),
    {
        let ghost front = all.take(i as int);
        let ghost longer = all.take(i + 1);
        assert(longer[i as int] == files@[i as int]@);
        out.insert(files[i].path.as_str());
        assert forall|p: Seq<char>| paths_of(longer).contains(p) <==> out@.contains(p) by {
            if paths_of(front).contains(p) {
                let j = choose|j: int| 0 <= j < front.len() && (#[trigger] front[j]).path == p;
                assert(longer[j].path == p);
            }
            if paths_of(longer).contains(p) && p != longer[i as int].path {
                let j = choose|j: int| 0 <= j < longer.len() && (#[trigger] longer[j]).path == p;
                assert(front[j].path == p);
            }
        }
        assert(out@ =~= paths_of(longer));
    }
    assert(all.take(files@.len() as int) =~= all);
    out
}

/// The names that a file offers.
fn offered_keys(file: &FileInfo, files: &PathSet) -> (r: Vec<String>)
    ensures
        text::texts(r@) == offered(file@, files@),
{
    let mut out: Vec<String> = Vec::new();
    out.push(file.path.clone());
    match file_stem(file.path.as_str()) {
        Some(s) => out.push(s),
        None => {},
    }
    let ghost first = seq![file@.path, stem(file@.path)];
    assert(text::texts(out@) =~= first);
    if file.language == Language::Python {
        let mut more = python_module_keys(file.path.as_str(), files);
        let ghost more_view = more@;
        out.append(&mut more);
        assert(text::texts(out@) =~= first + text::texts(more_view));
    } else {
        assert(first + seq![] =~= first);
    }
    let ghost second = text::texts(out@);
    assert(second + seq![] =~= second);
    if file.language == Language::Rust {
        if let Some(key) = rust_module_key(file.path.as_str()) {
            out.push(key);
            assert(text::texts(out@) =~= second + seq![key@]);
        }
    }
    out
}

/// Registers some names of one file.
fn register_all(map: &mut ImportRegistry, keys: &Vec<String>, path: &str)
    ensures
        forall|k: Seq<char>| #[trigger]
            final(map)@.contains_key(k) <==> old(map)@.contains_key(k) || text::texts(
                keys@,
            ).contains(k),
        forall|k: Seq<char>| #[trigger]
            final(map)@.contains_key(k) ==> final(map)@[k] == if old(map)@.contains_key(k) {
                old(map)@[k]
            } else {
                path@
            },
{
    let ghost all = text::texts(keys@);
    for j in 0..keys.len()
        invariant
            all == text::texts(keys@),
            forall|k: Seq<char>| #[trigger]
                map@.contains_key(k) <==> old(map)@.contains_key(k) || all.take(j as int).contains(
                    k,
                ),
            forall|k: Seq<char>| #[trigger]
                map@.contains_key(k) ==> map@[k] == if old(map)@.contains_key(k) {
                    old(map)@[k]
                } else {
                    path@
                },
    {
        let ghost before = map@;
        collections::register(map, keys[j].as_str(), path);
        proof {
            let front = all.take(j as int);
            let longer = all.take(j + 1);
            assert(longer =~= front.push(keys@[j as int]@));
            assert forall|k: Seq<char>| #[trigger] map@.contains_key(k) <==> old(
                map,
            )@.contains_key(k) || all.take(j + 1).contains(k) by {
                assert(before.contains_key(k) <==> old(map)@.contains_key(k) || all.take(
                    j as int,
                ).contains(k));
                if front.contains(k) {
                    let i = choose|i: int| 0 <= i < front.len() && front[i] == k;
                    assert(longer[i] == k);
                }
                if longer.contains(k) && k != keys@[j as int]@ {
                    let i = choose|i: int| 0 <= i < longer.len() && longer[i] == k;
                    assert(front[i] == k);
                }
                if k == keys@[j as int]@ {
                    assert(longer[j as int] == k);
                }
            }
            assert forall|k: Seq<char>| #[trigger] map@.contains_key(k) implies map@[k] == if old(
                map,
            )@.contains_key(k) {
                old(map)@[k]
            } else {
                path@
            } by {
                assert(old(map)@.contains_key(k) ==> before.contains_key(k));
            }
        }
    }
    assert(all.take(keys@.len() as int) =~= all);
}

/// Builds the registry of some files. The files are registered in the order of their paths, so
/// that it does not depend on the order in which they come.
pub fn build_import_registry(files: &[FileInfo]) -> (r: ImportRegistry)
    ensures
        is_registry(model::file_views(files@), r@),
        r@ == registry(model::file_views(files@)),
{
    let ghost all = model::file_views(files@);
    let set = path_set(files);
    let mut keys: Vec<Key> = Vec::new();
    for i in 0..files.len()
        invariant
            keys@.len() == i,
            forall|j: int|
                0 <= j < i ==> (#[trigger] keys@[j]).rank == 0 && keys@[j].name@ == files@[j].path@,
    {
        keys.push(Key { rank: 0, name: text::chars_of(files[i].path.as_str()) });
    }
    let sequence = order::sort_keys(&keys);
    let ghost ks = order::keys_of(keys@);
    let ghost ord = order::ints(sequence@);
    let mut map = ImportRegistry::new();
    for a in 0..sequence.len()
        invariant
            all == model::file_views(files@),
            set@ == paths_of(all),
            sequence@.len() == files@.len(),
            keys@.len() == files@.len(),
            ord == order::ints(sequence@),
            ks == order::keys_of(keys@),
            order::is_ordering(ks, ord),
            forall|j: int|
                0 <= j < files@.len() ==> (#[trigger] keys@[j]).rank == 0 && keys@[j].name@
                    == files@[j].path@,
            forall|b: int| 0 <= b < sequence@.len() ==> #[trigger] sequence@[b] < files@.len(),
            forall|k: Seq<char>| #[trigger]
                map@.contains_key(k) <==> exists|b: int|
                    0 <= b < a && offers(all, #[trigger] ord[b], k),
            forall|k: Seq<char>| #[trigger]
                map@.contains_key(k) ==> exists|b: int|
                    0 <= b < a && offers(all, #[trigger] ord[b], k) && map@[k] == all[ord[b]].path,
            forall|k: Seq<char>, b: int|
                0 <= b < a && offers(all, #[trigger] ord[b], k) && #[trigger] map@.contains_key(k)
                    ==> !order::before(all[ord[b]].path, map@[k]),
    {
        let at: usize = sequence[a];
        let ghost before = map@;
        let ghost now = ord[a as int];
        let names = offered_keys(&files[at], &set);
        assert(all[at as int] == files@[at as int]@);
        assert(now == at);
        assert(text::texts(names@) == offered(all[now], paths_of(all)));
        register_all(&mut map, &names, files[at].path.as_str());
        proof {
            assert forall|k: Seq<char>| #[trigger] map@.contains_key(k) <==> exists|b: int|
                0 <= b < a + 1 && offers(all, #[trigger] ord[b], k) by {
                if map@.contains_key(k) {
                    if before.contains_key(k) {
                        let b = choose|b: int| 0 <= b < a && offers(all, #[trigger] ord[b], k);
                        assert(offers(all, ord[b], k));
                    } else {
                        assert(offers(all, ord[a as int], k));
                    }
                }
                if exists|b: int| 0 <= b < a + 1 && offers(all, #[trigger] ord[b], k) {
                    let b = choose|b: int| 0 <= b < a + 1 && offers(all, #[trigger] ord[b], k);
                    if b < a {
                        assert(before.contains_key(k));
                    } else {
                        assert(text::texts(names@).contains(k));
                    }
                }
            }
            assert forall|k: Seq<char>| #[trigger] map@.contains_key(k) implies exists|b: int|
                0 <= b < a + 1 && offers(all, #[trigger] ord[b], k) && map@[k]
                    == all[ord[b]].path by {
                if before.contains_key(k) {
                    let b = choose|b: int|
                        0 <= b < a && offers(all, #[trigger] ord[b], k) && before[k]
                            == all[ord[b]].path;
                    assert(offers(all, ord[b], k) && map@[k] == all[ord[b]].path);
                } else {
                    assert(offers(all, ord[a as int], k) && map@[k] == all[ord[a as int]].path);
                }
            }
            assert forall|k: Seq<char>, b: int|
                0 <= b < a + 1 && offers(all, #[trigger] ord[b], k)
                    && #[trigger] map@.contains_key(k) implies !order::before(
                all[ord[b]].path,
                map@[k],
            ) by {
                if before.contains_key(k) {
                    if b == a {
                        let c = choose|c: int|
                            0 <= c < a && offers(all, #[trigger] ord[c], k) && before[k]
                                == all[ord[c]].path;
                        lemma_in_order(ks, ord, all, c, b);
                    }
                } else {
                    if b < a {
                        assert(before.contains_key(k));
                    }
                    order::lemma_before_irreflexive(all[now].path);
                }
            }
        }
    }
    proof {
        assert forall|k: Seq<char>| #[trigger] map@.contains_key(k) <==> exists|i: int|
            offers(all, i, k) by {
            if exists|i: int| offers(all, i, k) {
                let i = choose|i: int| offers(all, i, k);
                assert(ord.contains(i));
                let b = choose|b: int| 0 <= b < ord.len() && ord[b] == i;
                assert(offers(all, ord[b], k));
            }
        }
        assert forall|k: Seq<char>| #[trigger] map@.contains_key(k) implies least_offering(
            all,
            k,
            map@[k],
        ) by {
            let b = choose|b: int|
                0 <= b < ord.len() && offers(all, #[trigger] ord[b], k) && map@[k]
                    == all[ord[b]].path;
            assert(offers(all, ord[b], k));
            assert forall|i: int| #[trigger] offers(all, i, k) implies !order::before(
                all[i].path,
                map@[k],
            ) by {
                assert(ord.contains(i));
                let c = choose|c: int| 0 <= c < ord.len() && ord[c] == i;
                assert(offers(all, ord[c], k));
            }
        }
        registry_exists(all);
        registry_is_unique(all, map@, registry(all));
    }
    map
}

/// In the order of their paths no file comes after one with a greater path.
proof fn lemma_in_order(
    keys: Seq<(int, Seq<char>)>,
    ord: Seq<int>,
    files: Seq<FileView>,
    a: int,
    b: int,
)
    requires
        order::is_ordering(keys, ord),
        keys.len() == files.len(),
        forall|j: int|
            0 <= j < files.len() ==> (#[trigger] keys[j]).0 == 0 && keys[j].1 == files[j].path,
        0 <= a < b < ord.len(),
    ensures
        !order::before(files[ord[b]].path, files[ord[a]].path),
{
    let x = files[ord[a]].path;
    let y = files[ord[b]].path;
    assert(order::key_before(keys, ord[a], ord[b]));
    assert(keys[ord[a]].1 == x && keys[ord[b]].1 == y);
    order::lemma_before_irreflexive(x);
    if order::before(x, y) && order::before(y, x) {
        order::lemma_before_transitive(x, y, x);
    }
}

// ---------------------------------------------------------------------------
// Laws of the registry
// ---------------------------------------------------------------------------

/// Each name that a file offers is registered, for that file or for one with a lesser path.
pub proof fn offered_names_are_registered(files: Seq<FileView>, i: int, key: Seq<char>)
    requires
        0 <= i < files.len(),
        offered(files[i], paths_of(files)).contains(key),
    ensures
        registry(files).contains_key(key),
        registry(files)[key] == files[i].path || order::before(
            registry(files)[key],
            files[i].path,
        ),
{
    registry_exists(files);
    assert(offers(files, i, key));
    order::lemma_before_total(registry(files)[key], files[i].path);
}

/// The path and the stem of each file are registered.
pub proof fn paths_and_stems_are_registered(files: Seq<FileView>, i: int)
    requires
        0 <= i < files.len(),
    ensures
        registry(files).contains_key(files[i].path),
        registry(files).contains_key(stem(files[i].path)),
{
    let keys = offered(files[i], paths_of(files));
    assert(keys[0] == files[i].path);
    assert(keys[1] == stem(files[i].path));
    offered_names_are_registered(files, i, files[i].path);
    offered_names_are_registered(files, i, stem(files[i].path));
}

/// Each name is registered for the path of one of the files.
pub proof fn registered_files_are_given(files: Seq<FileView>, key: Seq<char>)
    requires
        registry(files).contains_key(key),
    ensures
        exists|i: int| 0 <= i < files.len() && (#[trigger] files[i]).path == registry(files)[key],
{
    registry_exists(files);
    let i = choose|i: int| #[trigger] offers(files, i, key) && files[i].path == registry(files)[key];
    assert(files[i].path == registry(files)[key]);
}

/// An import of a module of Rust by its `crate::` path stands for a file that has this path: of
/// several ones, for that with the least path.
pub proof fn modules_resolve_to_their_files(
    files: Seq<FileView>,
    i: int,
    segments: Seq<Seq<char>>,
    file: Seq<char>,
    root: Option<Seq<char>>,
)
    requires
        0 <= i < files.len(),
        files[i].language == Language::Rust,
        segments.len() > 0,
        forall|j: int| 0 <= j < segments.len() ==> resolve::plain_segment(#[trigger] segments[j]),
        rust_key(files[i].path) == Some(resolve::crate_key(segments)),
    ensures
        ({
            let key = resolve::crate_key(segments);
            resolve::target(key, file, Language::Rust, registry(files), root) matches Some(p)
                && least_offering(files, key, p)
        }),
{
    let key = resolve::crate_key(segments);
    registry_exists(files);
    let keys = offered(files[i], paths_of(files));
    assert(keys.last() == key);
    assert(keys[keys.len() - 1] == key);
    assert(offers(files, i, key));
    resolve::registered_modules_resolve(segments, file, registry(files), root);
}

/// A module that has a dotted name from one directory on has one from each directory further
/// down, so that it can be imported by its full and by its local name.
pub proof fn nested_packages_have_local_names(
    dirs: Seq<Seq<char>>,
    name: Seq<char>,
    paths: Set<Seq<char>>,
    from: int,
    to: int,
)
    requires
        0 <= from <= to < dirs.len(),
        package_chain(dirs, from, paths),
    ensures
        dotted_names(dirs, name, paths, dirs.len() as int).contains(dotted_name(dirs, name, to)),
{
    assert(package_chain(dirs, to, paths));
    lemma_dotted_name_stays(dirs, name, paths, to, dirs.len() as int);
}

proof fn lemma_dotted_name_stays(
    dirs: Seq<Seq<char>>,
    name: Seq<char>,
    paths: Set<Seq<char>>,
    at: int,
    upto: int,
)
    requires
        0 <= at < upto,
        package_chain(dirs, at, paths),
    ensures
        dotted_names(dirs, name, paths, upto).contains(dotted_name(dirs, name, at)),
    decreases upto,
{
    let all = dotted_names(dirs, name, paths, upto);
    if at == upto - 1 {
        assert(all.last() == dotted_name(dirs, name, at));
        assert(all[all.len() - 1] == dotted_name(dirs, name, at));
    } else {
        lemma_dotted_name_stays(dirs, name, paths, at, upto - 1);
        let front = dotted_names(dirs, name, paths, upto - 1);
        let i = choose|i: int| 0 <= i < front.len() && front[i] == dotted_name(dirs, name, at);
        assert(all[i] == front[i]);
    }
}

} // verus!
