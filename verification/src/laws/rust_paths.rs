//! Which file a path of Rust stands for.
use vstd::prelude::*;

use crate::model::Language;
use crate::resolve;
use crate::text;
use crate::text::Class;

verus! {

// ---------------------------------------------------------------------------
// Crates and modules
// ---------------------------------------------------------------------------

/// No component of a path is `src`.
pub open spec fn without_src(path: Seq<char>) -> bool {
    forall|i: int|
        0 <= i < text::split(path, Class::Only('/')).len() ==> #[trigger] text::split(
            path,
            Class::Only('/'),
        )[i] != "src"@
}

/// The root of the crate of a file is what stands before its first `src` directory; a file without
/// one has none.
pub proof fn crates_are_rooted_before_src(root: Seq<char>, rest: Seq<char>)
    ensures
        resolve::crate_root("src/"@ + rest) == Some(Seq::<char>::empty()),
        without_src(root) ==> resolve::crate_root(root + "/src/"@ + rest) == Some(root),
        without_src(root) ==> resolve::crate_root(root) is None,
{
    let k = Class::Only('/');
    reveal_strlit("src/");
    reveal_strlit("/src/");
    reveal_strlit("src");
    reveal_strlit("/");
    assert("/"@ =~= seq!['/']);
    let src = "src"@;
    let r = text::split(rest, k);
    text::lemma_split_whole(src, k);
    let short = "src/"@ + rest;
    assert(short =~= src.push('/') + rest);
    text::lemma_split_concat(src, '/', rest, k);
    let parts = text::split(short, k);
    assert(parts[0] == src);
    assert(parts.take(0) =~= seq![]);
    assert(resolve::first_part(parts, src) == Some(0int));
    assert(text::join(parts.take(0), "/"@) =~= seq![]);
    if without_src(root) {
        let d = text::split(root, k);
        let file = root + "/src/"@ + rest;
        assert(file =~= root.push('/') + (src.push('/') + rest));
        text::lemma_split_concat(root, '/', src.push('/') + rest, k);
        let all = text::split(file, k);
        assert(all =~= d + (seq![src] + r));
        let n = d.len() as int;
        assert(all[n] == src);
        resolve::lemma_first_part(all, src);
        assert forall|j: int| 0 <= j < n implies all[j] != src by {
            assert(all[j] == d[j]);
        }
        assert(resolve::first_part(all, src) == Some(n));
        assert(all.take(n) =~= d);
        text::lemma_join_split(root, '/');
        resolve::lemma_first_part(d, src);
    }
}

/// The module path of a file below the `src` directory of its crate are its directories and its
/// name without `.rs`; a file named `main`, `lib` or `mod` stands for its directory.
pub proof fn modules_are_named_by_their_files(
    root: Seq<char>,
    dirs: Seq<Seq<char>>,
    name: Seq<char>,
)
    requires
        forall|i: int, j: int|
            0 <= i < dirs.len() && 0 <= j < dirs[i].len() ==> #[trigger] dirs[i][j] != '/',
        forall|j: int| 0 <= j < name.len() ==> #[trigger] name[j] != '/',
        name.len() > 0,
        !text::ends(text::join(dirs.push(name), "/"@), ".rs"@),
    ensures
        ({
            let start = if root.len() == 0 {
                "src/"@
            } else {
                root + "/src/"@
            };
            let file = start + text::join(dirs.push(name), "/"@) + ".rs"@;
            if name == "main"@ || name == "lib"@ || name == "mod"@ {
                resolve::module_of(file, root) == Some(dirs)
            } else {
                resolve::module_of(file, root) == Some(dirs.push(name))
            }
        }),
{
    reveal_strlit("src/");
    reveal_strlit("/src/");
    reveal_strlit("/");
    reveal_strlit(".rs");
    assert("/"@ =~= seq!['/']);
    let start = if root.len() == 0 {
        "src/"@
    } else {
        root + "/src/"@
    };
    let parts = dirs.push(name);
    let stem = text::join(parts, "/"@);
    let file = start + stem + ".rs"@;
    let prefix = resolve::root_prefix(root) + "src/"@;
    assert(prefix =~= start);
    let n = prefix.len() as int;
    assert(file.subrange(0, n) =~= prefix);
    let rest = file.skip(n);
    assert(rest =~= stem + ".rs"@);
    let l = stem.len() as int;
    assert(rest.subrange(l, l + 3) =~= ".rs"@);
    assert(rest.take(l) =~= stem);
    assert(text::trim_end_text(stem, ".rs"@) == stem);
    assert(text::trim_end_text(rest, ".rs"@) == stem);
    assert forall|i: int, j: int|
        0 <= i < parts.len() && 0 <= j < parts[i].len() implies #[trigger] parts[i][j] != '/' by {
        if i < dirs.len() {
            assert(dirs[i][j] != '/');
        } else {
            assert(name[j] != '/');
        }
    }
    text::lemma_split_join(parts, '/');
    assert(parts.last() == name);
    assert(parts.drop_last() =~= dirs);
}

/// A file that is not below the `src` directory of a crate, or no `.rs` file, is no module of it.
pub proof fn other_files_are_no_modules(file: Seq<char>, root: Seq<char>)
    ensures
        root.len() == 0 && !text::starts(file, "src/"@) ==> resolve::module_of(file, root) is None,
        root.len() > 0 && !text::starts(file, root + "/src/"@) ==> resolve::module_of(
            file,
            root,
        ) is None,
        !text::ends(file, ".rs"@) ==> resolve::module_of(file, root) is None,
{
    reveal_strlit("src/");
    reveal_strlit("/src/");
    reveal_strlit("/");
    reveal_strlit(".rs");
    let prefix = resolve::root_prefix(root) + "src/"@;
    assert(root.len() == 0 ==> prefix =~= "src/"@);
    assert(root.len() > 0 ==> prefix =~= root + "/src/"@);
    if text::starts(file, prefix) {
        let n = prefix.len() as int;
        let rest = file.skip(n);
        if text::ends(rest, ".rs"@) {
            let l = rest.len() - 3;
            assert(rest.subrange(l, l + 3) == ".rs"@);
            assert(file.subrange(n + l, n + l + 3) =~= rest.subrange(l, l + 3));
            assert(text::ends(file, ".rs"@));
        }
    }
}

// ---------------------------------------------------------------------------
// Plain paths
// ---------------------------------------------------------------------------

/// A path without white space and without a brace list, and with nothing to take off its end.
pub open spec fn is_plain(path: Seq<char>) -> bool {
    &&& path.len() > 0
    &&& path.last() != ':' && path.last() != '*'
    &&& forall|j: int|
        0 <= j < path.len() ==> !text::white_space(#[trigger] path[j]) && path[j] != '{'
}

proof fn lemma_no_list(s: Seq<char>)
    requires
        forall|j: int| 0 <= j < s.len() ==> #[trigger] s[j] != '{',
    ensures
        text::position(s, Class::Only('{')) is None,
        resolve::expanded(s) == seq![s],
{
    text::lemma_position(s, Class::Only('{'));
}

proof fn lemma_plain(path: Seq<char>)
    requires
        is_plain(path),
    ensures
        text::trim(path) == path,
        text::trim_end(path, Class::Either('*', ':')) == path,
        resolve::sanitized(path) == path,
        resolve::expanded(path) == seq![path],
{
    assert(!text::white_space(path[0]) && !text::white_space(path[path.len() - 1]));
    resolve::lemma_not_trimmed(path);
    lemma_no_list(path);
    resolve::lemma_not_renamed(path);
}

proof fn lemma_trim_behind(a: Seq<char>, b: Seq<char>)
    requires
        a.len() > 0,
        !text::white_space(a.last()),
    ensures
        text::trim_end(a + b, Class::White) == a + text::trim_end(b, Class::White),
    decreases b.len(),
{
    if b.len() == 0 {
        assert(a + b =~= a);
        assert(a + text::trim_end(b, Class::White) =~= a);
    } else if text::white_space(b.last()) {
        assert((a + b).last() == b.last());
        assert((a + b).drop_last() =~= a + b.drop_last());
        lemma_trim_behind(a, b.drop_last());
    } else {
        assert((a + b).last() == b.last());
    }
}

/// A plain path stays as it is; a star, a brace list or another name behind it is taken off.
pub proof fn paths_are_freed_of_what_follows(path: Seq<char>, list: Seq<char>, alias: Seq<char>)
    requires
        is_plain(path),
        is_plain(alias),
    ensures
        resolve::sanitized(path) == path,
        resolve::sanitized(path + "::*"@) == path,
        resolve::sanitized(path + "::{"@ + list) == path,
        resolve::sanitized(path + " as "@ + alias) == path,
{
    lemma_plain(path);
    lemma_plain(alias);
    reveal_strlit("::*");
    reveal_strlit("::{");
    reveal_strlit(" as ");
    reveal_strlit("::");
    let either = Class::Either('*', ':');
    let brace = Class::Only('{');
    let double = path + "::"@;
    assert(!text::white_space(path[0]));
    assert(double.drop_last() =~= path.push(':'));
    assert(path.push(':').drop_last() =~= path);
    assert(text::trim_end(path.push(':'), either) == path);
    assert(text::trim_end(double, either) == path);
    assert(double[0] == path[0] && double.last() == ':');
    resolve::lemma_not_trimmed(double);
    resolve::lemma_not_renamed(path);
    assert(seq![path][0] == path);
    assert(resolve::sanitized(path + "::*"@) == path) by {
        let s = path + "::*"@;
        assert(s[0] == path[0] && s.last() == '*');
        resolve::lemma_not_trimmed(s);
        assert forall|j: int| 0 <= j < s.len() implies #[trigger] s[j] != '{' by {
            if j < path.len() {
                assert(s[j] == path[j]);
            }
        }
        lemma_no_list(s);
        assert(s.drop_last() =~= double);
        assert(text::trim_end(s, either) == path);
    }
    assert(resolve::sanitized(path + "::{"@ + list) == path) by {
        let head = path + "::{"@;
        let s = head + list;
        let tail = text::trim_end(list, Class::White);
        assert(head.last() == '{');
        assert(s[0] == path[0]);
        lemma_trim_behind(head, list);
        let t = head + tail;
        assert(text::trim(s) == t);
        let n = path.len() as int + 2;
        assert(t[n] == '{');
        assert forall|j: int| 0 <= j < n implies !brace.has(t[j]) by {
            if j < path.len() {
                assert(t[j] == path[j]);
            }
        }
        text::lemma_position_is(t, brace, n);
        assert(t.take(n) =~= double);
    }
    assert(resolve::sanitized(path + " as "@ + alias) == path) by {
        let s = path + " as "@ + alias;
        assert(s[0] == path[0] && s.last() == alias.last());
        assert(!text::white_space(alias[alias.len() - 1]));
        resolve::lemma_not_trimmed(s);
        assert forall|j: int| 0 <= j < s.len() implies #[trigger] s[j] != '{' by {
            if j < path.len() {
                assert(s[j] == path[j]);
            } else if j >= path.len() + 4 {
                assert(s[j] == alias[j - path.len() - 4]);
            }
        }
        lemma_no_list(s);
        assert(text::trim_end(s, either) == s);
        lemma_renamed(path, alias);
    }
}

proof fn lemma_renamed(path: Seq<char>, alias: Seq<char>)
    requires
        forall|j: int| 0 <= j < path.len() ==> !text::white_space(#[trigger] path[j]),
    ensures
        text::split_text(path + " as "@ + alias, " as "@)[0] == path,
{
    let p = " as "@;
    reveal_strlit(" as ");
    let s = path + p + alias;
    let n = path.len() as int;
    assert(s.subrange(n, n + 4) =~= p);
    assert(text::occurs_at(s, p, n));
    text::lemma_find_from(s, p, 0);
    if let Some(i) = text::find(s, p) {
        if i < n {
            assert(s.subrange(i, i + 4)[0] == p[0]);
            assert(s[i] == path[i]);
            assert(text::white_space(s[i]));
        }
    }
    assert(s.take(n) =~= path);
}

/// What a plain path stands for is what its segments stand for.
proof fn lemma_plain_target(
    path: Seq<char>,
    file: Seq<char>,
    registry: Map<Seq<char>, Seq<char>>,
    root: Option<Seq<char>>,
)
    requires
        is_plain(path),
    ensures
        resolve::rust_target(path, file, registry, root) == resolve::chain_target(
            resolve::segments_of(path, file, root),
            root,
            registry,
        ),
{
    lemma_plain(path);
    assert(seq![path][0] == path);
    reveal_with_fuel(resolve::paths_target, 2);
    assert(seq![path].drop_first() =~= seq![]);
}

/// Segments that stand in a path as they are.
pub open spec fn are_plain(segments: Seq<Seq<char>>) -> bool {
    forall|i: int| 0 <= i < segments.len() ==> resolve::plain_segment(#[trigger] segments[i])
}

proof fn lemma_joined(segments: Seq<Seq<char>>)
    requires
        segments.len() > 0,
        are_plain(segments),
    ensures
        is_plain(text::join(segments, "::"@)),
        text::split_text(text::join(segments, "::"@), "::"@) == segments,
{
    resolve::lemma_joined_segments(segments);
    reveal_strlit("::");
    assert("::"@ =~= seq![':', ':']);
    assert forall|i: int, j: int|
        0 <= i < segments.len() && 0 <= j < segments[i].len() implies #[trigger] segments[i][j]
        != ':' by {
        assert(resolve::plain_segment(segments[i]));
    }
    text::lemma_split_text_join(segments, ':');
}

proof fn lemma_plain_behind(prefix: Seq<char>, tail: Seq<char>)
    requires
        is_plain(tail),
        forall|j: int|
            0 <= j < prefix.len() ==> !text::white_space(#[trigger] prefix[j]) && prefix[j] != '{',
    ensures
        is_plain(prefix + tail),
        text::starts(prefix + tail, prefix),
        (prefix + tail).skip(prefix.len() as int) == tail,
{
    let s = prefix + tail;
    assert(s.last() == tail.last());
    assert forall|j: int| 0 <= j < s.len() implies !text::white_space(#[trigger] s[j]) && s[j]
        != '{' by {
        if j < prefix.len() {
            assert(s[j] == prefix[j]);
        } else {
            assert(s[j] == tail[j - prefix.len()]);
        }
    }
    assert(s.subrange(0, prefix.len() as int) =~= prefix);
    assert(s.skip(prefix.len() as int) =~= tail);
}

proof fn lemma_crate_path(
    segments: Seq<Seq<char>>,
    file: Seq<char>,
    registry: Map<Seq<char>, Seq<char>>,
    root: Option<Seq<char>>,
)
    requires
        segments.len() > 0,
        are_plain(segments),
    ensures
        is_plain("crate::"@ + text::join(segments, "::"@)),
        resolve::rust_target("crate::"@ + text::join(segments, "::"@), file, registry, root)
            == resolve::chain_target(segments, root, registry),
{
    reveal_strlit("crate::");
    lemma_joined(segments);
    let tail = text::join(segments, "::"@);
    lemma_plain_behind("crate::"@, tail);
    lemma_plain_target("crate::"@ + tail, file, registry, root);
}

/// A path from the crate root stands for what its longest registered start is registered for.
pub proof fn longest_registered_start_counts(
    segments: Seq<Seq<char>>,
    n: int,
    file: Seq<char>,
    registry: Map<Seq<char>, Seq<char>>,
    root: Option<Seq<char>>,
)
    requires
        0 < n <= segments.len(),
        are_plain(segments),
        registry.contains_key("crate::"@ + text::join(segments.take(n), "::"@)),
        forall|m: int|
            n < m <= segments.len() ==> !registry.contains_key(
                "crate::"@ + text::join(#[trigger] segments.take(m), "::"@),
            ),
    ensures
        resolve::target(
            "crate::"@ + text::join(segments, "::"@),
            file,
            Language::Rust,
            registry,
            root,
        ) == Some(registry["crate::"@ + text::join(segments.take(n), "::"@)]),
{
    lemma_crate_path(segments, file, registry, root);
    lemma_key_chain(segments, n, registry);
    let path = "crate::"@ + text::join(segments, "::"@);
    lemma_plain(path);
    reveal_strlit("crate::");
    assert(path[0] == 'c');
}

proof fn lemma_key_chain(
    segments: Seq<Seq<char>>,
    n: int,
    registry: Map<Seq<char>, Seq<char>>,
)
    requires
        0 < n <= segments.len(),
        registry.contains_key("crate::"@ + text::join(segments.take(n), "::"@)),
        forall|m: int|
            n < m <= segments.len() ==> !registry.contains_key(
                "crate::"@ + text::join(#[trigger] segments.take(m), "::"@),
            ),
    ensures
        resolve::key_chain_target(segments, registry) == Some(
            registry["crate::"@ + text::join(segments.take(n), "::"@)],
        ),
    decreases segments.len(),
{
    let l = segments.len() as int;
    assert(segments.take(l) =~= segments);
    if n < l {
        let front = segments.drop_last();
        assert(!registry.contains_key("crate::"@ + text::join(segments.take(l), "::"@)));
        assert(front.take(n) =~= segments.take(n));
        assert forall|m: int| n < m <= front.len() implies !registry.contains_key(
            "crate::"@ + text::join(#[trigger] front.take(m), "::"@),
        ) by {
            assert(front.take(m) =~= segments.take(m));
        }
        lemma_key_chain(front, n, registry);
    }
}

proof fn lemma_no_key(segments: Seq<Seq<char>>, registry: Map<Seq<char>, Seq<char>>)
    requires
        forall|m: int|
            0 < m <= segments.len() ==> !registry.contains_key(
                "crate::"@ + text::join(#[trigger] segments.take(m), "::"@),
            ),
    ensures
        resolve::key_chain_target(segments, registry) is None,
    decreases segments.len(),
{
    let l = segments.len() as int;
    assert(segments.take(l) =~= segments);
    if l > 0 {
        let front = segments.drop_last();
        assert(!registry.contains_key("crate::"@ + text::join(segments.take(l), "::"@)));
        assert forall|m: int| 0 < m <= front.len() implies !registry.contains_key(
            "crate::"@ + text::join(#[trigger] front.take(m), "::"@),
        ) by {
            assert(front.take(m) =~= segments.take(m));
        }
        lemma_no_key(front, registry);
    }
}

/// The file of a module below the `src` directory of a crate, without its suffix.
pub open spec fn module_stem(root: Seq<char>, segments: Seq<Seq<char>>) -> Seq<char> {
    if root.len() == 0 {
        "src/"@ + text::join(segments, "/"@)
    } else {
        root + "/src/"@ + text::join(segments, "/"@)
    }
}

proof fn lemma_stem(root: Seq<char>, segments: Seq<Seq<char>>)
    ensures
        resolve::src_candidates(segments, root) == seq![
            module_stem(root, segments) + ".rs"@,
            module_stem(root, segments) + "/mod.rs"@,
        ],
{
    reveal_strlit("src/");
    reveal_strlit("/src/");
    reveal_strlit("/");
    let j = text::join(segments, "/"@);
    assert(resolve::root_prefix(root) + "src/"@ + j =~= module_stem(root, segments));
}

proof fn lemma_two(registry: Map<Seq<char>, Seq<char>>, a: Seq<char>, b: Seq<char>)
    ensures
        resolve::first_registered(registry, seq![a, b]) == if registry.contains_key(a) {
            Some(registry[a])
        } else if registry.contains_key(b) {
            Some(registry[b])
        } else {
            None
        },
{
    reveal_with_fuel(resolve::first_registered, 3);
    let s = seq![a, b];
    assert(s[0] == a);
    assert(s.drop_first() =~= seq![b]);
    assert(seq![b][0] == b);
    assert(seq![b].drop_first() =~= seq![]);
}

/// Without a registered start, a path from the crate root stands for the file of its longest start
/// that has one: `a/b.rs` below the `src` directory of the crate, or else `a/b/mod.rs`.
pub proof fn module_files_are_found_below_src(
    segments: Seq<Seq<char>>,
    n: int,
    file: Seq<char>,
    registry: Map<Seq<char>, Seq<char>>,
    root: Seq<char>,
)
    requires
        0 < n <= segments.len(),
        are_plain(segments),
        forall|m: int|
            0 < m <= segments.len() ==> !registry.contains_key(
                "crate::"@ + text::join(#[trigger] segments.take(m), "::"@),
            ),
        registry.contains_key(module_stem(root, segments.take(n)) + ".rs"@)
            || registry.contains_key(module_stem(root, segments.take(n)) + "/mod.rs"@),
        forall|m: int|
            n < m <= segments.len() ==> !registry.contains_key(
                module_stem(root, #[trigger] segments.take(m)) + ".rs"@,
            ) && !registry.contains_key(module_stem(root, segments.take(m)) + "/mod.rs"@),
    ensures
        resolve::target(
            "crate::"@ + text::join(segments, "::"@),
            file,
            Language::Rust,
            registry,
            Some(root),
        ) == Some(
            if registry.contains_key(module_stem(root, segments.take(n)) + ".rs"@) {
                registry[module_stem(root, segments.take(n)) + ".rs"@]
            } else {
                registry[module_stem(root, segments.take(n)) + "/mod.rs"@]
            },
        ),
{
    lemma_crate_path(segments, file, registry, Some(root));
    lemma_no_key(segments, registry);
    lemma_src_chain(segments, n, registry, root);
    let path = "crate::"@ + text::join(segments, "::"@);
    lemma_plain(path);
    reveal_strlit("crate::");
    assert(path[0] == 'c');
}

proof fn lemma_src_chain(
    segments: Seq<Seq<char>>,
    n: int,
    registry: Map<Seq<char>, Seq<char>>,
    root: Seq<char>,
)
    requires
        0 < n <= segments.len(),
        registry.contains_key(module_stem(root, segments.take(n)) + ".rs"@)
            || registry.contains_key(module_stem(root, segments.take(n)) + "/mod.rs"@),
        forall|m: int|
            n < m <= segments.len() ==> !registry.contains_key(
                module_stem(root, #[trigger] segments.take(m)) + ".rs"@,
            ) && !registry.contains_key(module_stem(root, segments.take(m)) + "/mod.rs"@),
    ensures
        resolve::src_chain_target(segments, root, registry) == Some(
            if registry.contains_key(module_stem(root, segments.take(n)) + ".rs"@) {
                registry[module_stem(root, segments.take(n)) + ".rs"@]
            } else {
                registry[module_stem(root, segments.take(n)) + "/mod.rs"@]
            },
        ),
    decreases segments.len(),
{
    let l = segments.len() as int;
    assert(segments.take(l) =~= segments);
    lemma_stem(root, segments);
    lemma_two(
        registry,
        module_stem(root, segments) + ".rs"@,
        module_stem(root, segments) + "/mod.rs"@,
    );
    if n < l {
        let front = segments.drop_last();
        assert(!registry.contains_key(module_stem(root, segments.take(l)) + ".rs"@));
        assert(front.take(n) =~= segments.take(n));
        assert forall|m: int| n < m <= front.len() implies !registry.contains_key(
            module_stem(root, #[trigger] front.take(m)) + ".rs"@,
        ) && !registry.contains_key(module_stem(root, front.take(m)) + "/mod.rs"@) by {
            assert(front.take(m) =~= segments.take(m));
        }
        lemma_src_chain(front, n, registry, root);
    }
}

/// A path from the crate root of which no start is registered and none has a file stands for
/// nothing.
pub proof fn unknown_modules_stand_for_nothing(
    segments: Seq<Seq<char>>,
    file: Seq<char>,
    registry: Map<Seq<char>, Seq<char>>,
    root: Option<Seq<char>>,
)
    requires
        segments.len() > 0,
        are_plain(segments),
        forall|m: int|
            0 < m <= segments.len() ==> !registry.contains_key(
                "crate::"@ + text::join(#[trigger] segments.take(m), "::"@),
            ),
        root matches Some(r) ==> forall|m: int|
            0 < m <= segments.len() ==> !registry.contains_key(
                module_stem(r, #[trigger] segments.take(m)) + ".rs"@,
            ) && !registry.contains_key(module_stem(r, segments.take(m)) + "/mod.rs"@),
    ensures
        resolve::target(
            "crate::"@ + text::join(segments, "::"@),
            file,
            Language::Rust,
            registry,
            root,
        ) is None,
{
    lemma_crate_path(segments, file, registry, root);
    lemma_no_key(segments, registry);
    if let Some(r) = root {
        lemma_no_src(segments, registry, r);
    }
    let path = "crate::"@ + text::join(segments, "::"@);
    lemma_plain(path);
    reveal_strlit("crate::");
    assert(path[0] == 'c');
    let l = segments.len() as int;
    assert(segments.take(l) =~= segments);
    assert(!registry.contains_key("crate::"@ + text::join(segments.take(l), "::"@)));
}

proof fn lemma_no_src(
    segments: Seq<Seq<char>>,
    registry: Map<Seq<char>, Seq<char>>,
    root: Seq<char>,
)
    requires
        forall|m: int|
            0 < m <= segments.len() ==> !registry.contains_key(
                module_stem(root, #[trigger] segments.take(m)) + ".rs"@,
            ) && !registry.contains_key(module_stem(root, segments.take(m)) + "/mod.rs"@),
    ensures
        resolve::src_chain_target(segments, root, registry) is None,
    decreases segments.len(),
{
    let l = segments.len() as int;
    assert(segments.take(l) =~= segments);
    if l > 0 {
        lemma_stem(root, segments);
        lemma_two(
            registry,
            module_stem(root, segments) + ".rs"@,
            module_stem(root, segments) + "/mod.rs"@,
        );
        let front = segments.drop_last();
        assert(!registry.contains_key(module_stem(root, segments.take(l)) + ".rs"@));
        assert forall|m: int| 0 < m <= front.len() implies !registry.contains_key(
            module_stem(root, #[trigger] front.take(m)) + ".rs"@,
        ) && !registry.contains_key(module_stem(root, front.take(m)) + "/mod.rs"@) by {
            assert(front.take(m) =~= segments.take(m));
        }
        lemma_no_src(front, registry, root);
    }
}

// ---------------------------------------------------------------------------
// self, super and other starts
// ---------------------------------------------------------------------------

/// Text repeated.
pub open spec fn repeated(s: Seq<char>, n: nat) -> Seq<char>
    decreases n,
{
    if n == 0 {
        seq![]
    } else {
        s + repeated(s, (n - 1) as nat)
    }
}

proof fn lemma_supers(n: nat, rest: Seq<char>)
    requires
        !text::starts(rest, "super::"@),
    ensures
        resolve::supers(repeated("super::"@, n) + rest) == (n, rest),
    decreases n,
{
    reveal_strlit("super::");
    let s = repeated("super::"@, n) + rest;
    if n == 0 {
        assert(s =~= rest);
    } else {
        let tail = repeated("super::"@, (n - 1) as nat) + rest;
        assert(s =~= "super::"@ + tail);
        assert(s.subrange(0, 7) =~= "super::"@);
        assert(s.skip(7) =~= tail);
        lemma_supers((n - 1) as nat, rest);
    }
}

proof fn lemma_repeated_plain(n: nat, tail: Seq<char>)
    requires
        is_plain(tail),
    ensures
        is_plain(repeated("super::"@, n) + tail),
    decreases n,
{
    reveal_strlit("super::");
    if n == 0 {
        assert(repeated("super::"@, n) + tail =~= tail);
    } else {
        let rest = repeated("super::"@, (n - 1) as nat) + tail;
        lemma_repeated_plain((n - 1) as nat, tail);
        lemma_plain_behind("super::"@, rest);
        assert(repeated("super::"@, n) + tail =~= "super::"@ + rest);
    }
}

/// In the module `own`, `self::rest` stands for what `crate::own::rest` stands for.
pub proof fn self_is_the_module_of_the_file(
    own: Seq<Seq<char>>,
    rest: Seq<Seq<char>>,
    file: Seq<char>,
    registry: Map<Seq<char>, Seq<char>>,
    root: Seq<char>,
)
    requires
        resolve::module_of(file, root) == Some(own),
        are_plain(own),
        rest.len() > 0,
        are_plain(rest),
    ensures
        resolve::rust_target("self::"@ + text::join(rest, "::"@), file, registry, Some(root))
            == resolve::rust_target(
            "crate::"@ + text::join(own + rest, "::"@),
            file,
            registry,
            Some(root),
        ),
{
    reveal_strlit("self::");
    reveal_strlit("crate::");
    lemma_joined(rest);
    let tail = text::join(rest, "::"@);
    lemma_plain_behind("self::"@, tail);
    let path = "self::"@ + tail;
    lemma_plain_target(path, file, registry, Some(root));
    assert(path[0] == 's');
    assert(path.len() >= 7 ==> path.subrange(0, 7)[0] == 's');
    lemma_both_plain(own, rest);
    lemma_crate_path(own + rest, file, registry, Some(root));
}

proof fn lemma_both_plain(a: Seq<Seq<char>>, b: Seq<Seq<char>>)
    requires
        are_plain(a),
        are_plain(b),
    ensures
        are_plain(a + b),
{
    let all = a + b;
    assert forall|i: int| 0 <= i < all.len() implies resolve::plain_segment(#[trigger] all[i]) by {
        if i < a.len() {
            assert(all[i] == a[i]);
        } else {
            assert(all[i] == b[i - a.len()]);
        }
    }
}

/// In the module `own`, each `super::` leaves one module: what follows them is looked for in what
/// is left of `own`, which is the crate root where there are as many as segments or more.
pub proof fn super_leaves_modules(
    own: Seq<Seq<char>>,
    n: nat,
    rest: Seq<Seq<char>>,
    file: Seq<char>,
    registry: Map<Seq<char>, Seq<char>>,
    root: Seq<char>,
)
    requires
        resolve::module_of(file, root) == Some(own),
        are_plain(own),
        n > 0,
        rest.len() > 0,
        are_plain(rest),
        !text::starts(text::join(rest, "::"@), "super::"@),
    ensures
        n <= own.len() ==> resolve::rust_target(
            repeated("super::"@, n) + text::join(rest, "::"@),
            file,
            registry,
            Some(root),
        ) == resolve::rust_target(
            "crate::"@ + text::join(own.take(own.len() - n) + rest, "::"@),
            file,
            registry,
            Some(root),
        ),
        n >= own.len() ==> resolve::rust_target(
            repeated("super::"@, n) + text::join(rest, "::"@),
            file,
            registry,
            Some(root),
        ) == resolve::rust_target(
            "crate::"@ + text::join(rest, "::"@),
            file,
            registry,
            Some(root),
        ),
{
    reveal_strlit("super::");
    reveal_strlit("self::");
    reveal_strlit("crate::");
    reveal_strlit("::");
    lemma_joined(rest);
    let tail = text::join(rest, "::"@);
    let path = repeated("super::"@, n) + tail;
    lemma_repeated_plain(n, tail);
    lemma_supers(n, tail);
    lemma_plain_target(path, file, registry, Some(root));
    let more = repeated("super::"@, (n - 1) as nat) + tail;
    assert(path =~= "super::"@ + more);
    assert(path[0] == 's' && path[1] == 'u');
    assert(path.subrange(0, 7)[0] == 's');
    assert(path.subrange(0, 6)[1] == 'u');
    assert(path.subrange(0, 2)[0] == 's');
    if n <= own.len() {
        let kept = own.take(own.len() - n);
        assert forall|i: int| 0 <= i < kept.len() implies resolve::plain_segment(
            #[trigger] kept[i],
        ) by {
            assert(kept[i] == own[i]);
        }
        lemma_both_plain(kept, rest);
        lemma_crate_path(kept + rest, file, registry, Some(root));
        assert(own.take(0) =~= seq![]);
    }
    if n >= own.len() {
        lemma_crate_path(rest, file, registry, Some(root));
        assert(seq![] + rest =~= rest);
    }
}

/// A path that begins with `::`, or with none of `crate::`, `self::` and `super::`, is looked for
/// from the crate root.
pub proof fn other_paths_begin_at_the_crate_root(
    segments: Seq<Seq<char>>,
    file: Seq<char>,
    registry: Map<Seq<char>, Seq<char>>,
    root: Option<Seq<char>>,
)
    requires
        segments.len() > 0,
        are_plain(segments),
    ensures
        resolve::rust_target("::"@ + text::join(segments, "::"@), file, registry, root)
            == resolve::rust_target(
            "crate::"@ + text::join(segments, "::"@),
            file,
            registry,
            root,
        ),
        !text::starts(text::join(segments, "::"@), "crate::"@) && !text::starts(
            text::join(segments, "::"@),
            "self::"@,
        ) && !text::starts(text::join(segments, "::"@), "super::"@) ==> resolve::rust_target(
            text::join(segments, "::"@),
            file,
            registry,
            root,
        ) == resolve::rust_target(
            "crate::"@ + text::join(segments, "::"@),
            file,
            registry,
            root,
        ),
{
    reveal_strlit("crate::");
    reveal_strlit("self::");
    reveal_strlit("super::");
    reveal_strlit("::");
    lemma_joined(segments);
    lemma_crate_path(segments, file, registry, root);
    let tail = text::join(segments, "::"@);
    lemma_plain_behind("::"@, tail);
    let path = "::"@ + tail;
    lemma_plain_target(path, file, registry, root);
    assert(path[0] == ':');
    assert(path.len() >= 7 ==> path.subrange(0, 7)[0] == ':');
    assert(path.len() >= 6 ==> path.subrange(0, 6)[0] == ':');
    lemma_plain_target(tail, file, registry, root);
    lemma_join_starts(segments);
    assert(tail.len() >= 2 ==> tail.subrange(0, 2)[0] == tail[0]);
    assert("::"@[0] == ':');
}

/// Joined plain segments do not begin with a colon.
proof fn lemma_join_starts(segments: Seq<Seq<char>>)
    requires
        segments.len() > 0,
        are_plain(segments),
    ensures
        text::join(segments, "::"@).len() > 0,
        text::join(segments, "::"@)[0] != ':',
{
    assert(resolve::plain_segment(segments[0]));
    let s = text::join(segments, "::"@);
    if segments.len() > 1 {
        text::lemma_join_front(segments, "::"@);
        assert(s[0] == segments[0][0]);
    }
}

// ---------------------------------------------------------------------------
// Brace lists
// ---------------------------------------------------------------------------

/// An import with a brace list of items between commas behind a base, and a text behind the list.
pub open spec fn brace_import(base: Seq<char>, items: Seq<Seq<char>>, after: Seq<char>) -> Seq<
    char,
> {
    if base.len() == 0 {
        "{"@ + text::join(items, ","@) + "}"@ + after
    } else {
        base + "::{"@ + text::join(items, ","@) + "}"@ + after
    }
}

/// An item of a brace list that can stand there: it is not blank and has no comma and no brace.
pub open spec fn is_item(item: Seq<char>) -> bool {
    &&& text::trim(item).len() > 0
    &&& forall|j: int|
        0 <= j < item.len() ==> #[trigger] item[j] != ',' && item[j] != '{' && item[j] != '}'
}

proof fn lemma_joined_items(items: Seq<Seq<char>>)
    requires
        forall|i: int| 0 <= i < items.len() ==> is_part(#[trigger] items[i]),
    ensures
        forall|j: int|
            0 <= j < text::join(items, ","@).len() ==> #[trigger] text::join(items, ","@)[j] != '{'
                && text::join(items, ","@)[j] != '}',
    decreases items.len(),
{
    reveal_strlit(",");
    let s = text::join(items, ","@);
    if items.len() == 1 {
        assert(is_part(items[0]));
    } else if items.len() > 1 {
        let front = items.drop_last();
        assert forall|i: int| 0 <= i < front.len() implies is_part(#[trigger] front[i]) by {
            assert(items[i] == front[i]);
        }
        lemma_joined_items(front);
        let a = text::join(front, ","@);
        let last = items.last();
        assert(is_part(items[items.len() - 1]));
        assert forall|j: int| 0 <= j < s.len() implies #[trigger] s[j] != '{' && s[j] != '}' by {
            if j < a.len() {
                assert(s[j] == a[j]);
            } else if j > a.len() {
                assert(s[j] == last[j - a.len() - 1]);
            }
        }
    }
}

proof fn lemma_items(base: Seq<char>, rest: Seq<char>, items: Seq<Seq<char>>)
    requires
        forall|i: int| 0 <= i < items.len() ==> is_item(#[trigger] items[i]),
    ensures
        resolve::expanded_items(base, rest, items).len() == items.len(),
        forall|i: int|
            0 <= i < items.len() ==> #[trigger] resolve::expanded_items(base, rest, items)[i]
                == resolve::expanded_item(base, rest, text::trim(items[i])),
    decreases items.len(),
{
    if items.len() > 0 {
        let front = items.drop_last();
        assert forall|i: int| 0 <= i < front.len() implies is_item(#[trigger] front[i]) by {
            assert(items[i] == front[i]);
        }
        lemma_items(base, rest, front);
        assert(is_item(items[items.len() - 1]));
        let all = resolve::expanded_items(base, rest, items);
        let before = resolve::expanded_items(base, rest, front);
        assert forall|i: int| 0 <= i < items.len() implies #[trigger] all[i]
            == resolve::expanded_item(base, rest, text::trim(items[i])) by {
            if i < front.len() {
                assert(all[i] == before[i]);
                assert(front[i] == items[i]);
            }
        }
    }
}

/// A part of a brace list: it has no comma and no brace.
pub open spec fn is_part(item: Seq<char>) -> bool {
    forall|j: int|
        0 <= j < item.len() ==> #[trigger] item[j] != ',' && item[j] != '{' && item[j] != '}'
}

/// What a brace list stands for, by its parts.
proof fn lemma_list(base: Seq<char>, items: Seq<Seq<char>>, after: Seq<char>)
    requires
        items.len() > 0,
        forall|i: int| 0 <= i < items.len() ==> is_part(#[trigger] items[i]),
        base.len() == 0 || is_plain(base),
    ensures
        ({
            let out = resolve::expanded_items(base, text::trim(after), items);
            resolve::expanded(brace_import(base, items, after)) == if out.len() == 0 {
                seq![brace_import(base, items, after)]
            } else {
                out
            }
        }),
{
    reveal_strlit("{");
    reveal_strlit("}");
    reveal_strlit("::{");
    reveal_strlit("::");
    reveal_strlit(",");
    assert(","@ =~= seq![',']);
    let inner = text::join(items, ","@);
    let import = brace_import(base, items, after);
    lemma_joined_items(items);
    let open: int = if base.len() == 0 {
        0
    } else {
        base.len() as int + 2
    };
    let brace = Class::Only('{');
    let end = Class::Only('}');
    assert(import[open] == '{');
    assert forall|j: int| 0 <= j < open implies !brace.has(import[j]) by {
        if j < base.len() {
            assert(import[j] == base[j]);
        }
    }
    text::lemma_position_is(import, brace, open);
    let tail = import.skip(open);
    let width = inner.len() as int + 1;
    assert(tail =~= "{"@ + inner + "}"@ + after);
    assert(tail[width] == '}');
    assert forall|j: int| 0 <= j < width implies !end.has(tail[j]) by {
        if j > 0 {
            assert(tail[j] == inner[j - 1]);
        }
    }
    text::lemma_position_is(tail, end, width);
    let close = open + width;
    assert(import.subrange(open + 1, close) =~= inner);
    text::lemma_position(inner, brace);
    assert(import.skip(close + 1) =~= after);
    let head = import.take(open);
    let colon = Class::Only(':');
    if base.len() == 0 {
        assert(head =~= base);
        assert(text::trim_end(head, colon) == base);
    } else {
        assert(head =~= base + "::"@);
        assert(head.drop_last() =~= base.push(':'));
        assert(base.push(':').drop_last() =~= base);
        assert(text::trim_end(base, colon) == base);
        assert(text::trim_end(base.push(':'), colon) == base);
        assert(text::trim_end(head, colon) == base);
    }
    if text::ends(base, "::"@) {
        assert(base.subrange(base.len() - 2, base.len() as int)[1] == base.last());
        assert("::"@[1] == ':');
    }
    assert(text::trim_end_text(base, "::"@) == base);
    assert forall|i: int, j: int|
        0 <= i < items.len() && 0 <= j < items[i].len() implies #[trigger] items[i][j] != ',' by {
        assert(is_part(items[i]));
    }
    text::lemma_split_join(items, ',');
}

/// A brace list stands for its items, one for one, each trimmed and behind the base, with what
/// follows the list behind it.
pub proof fn lists_stand_for_their_items(
    base: Seq<char>,
    items: Seq<Seq<char>>,
    after: Seq<char>,
)
    requires
        items.len() > 0,
        forall|i: int| 0 <= i < items.len() ==> is_item(#[trigger] items[i]),
        base.len() == 0 || is_plain(base),
    ensures
        resolve::expanded(brace_import(base, items, after)).len() == items.len(),
        forall|i: int|
            0 <= i < items.len() ==> resolve::expanded(brace_import(base, items, after))[i]
                == resolve::expanded_item(
                base,
                text::trim(after),
                text::trim(#[trigger] items[i]),
            ),
{
    assert forall|i: int| 0 <= i < items.len() implies is_part(#[trigger] items[i]) by {
        assert(is_item(items[i]));
    }
    lemma_list(base, items, after);
    lemma_items(base, text::trim(after), items);
}

proof fn lemma_items_in_two(
    base: Seq<char>,
    rest: Seq<char>,
    a: Seq<Seq<char>>,
    b: Seq<Seq<char>>,
)
    ensures
        resolve::expanded_items(base, rest, a + b) == resolve::expanded_items(base, rest, a)
            + resolve::expanded_items(base, rest, b),
    decreases b.len(),
{
    if b.len() == 0 {
        assert(a + b =~= a);
        assert(resolve::expanded_items(base, rest, a) + resolve::expanded_items(base, rest, b)
            =~= resolve::expanded_items(base, rest, a));
    } else {
        let front = b.drop_last();
        lemma_items_in_two(base, rest, a, front);
        assert((a + b).drop_last() =~= a + front);
        assert((a + b).last() == b.last());
        let x = resolve::expanded_items(base, rest, a);
        let y = resolve::expanded_items(base, rest, front);
        let item = text::trim(b.last());
        assert((x + y).push(resolve::expanded_item(base, rest, item)) =~= x + y.push(
            resolve::expanded_item(base, rest, item),
        ));
    }
}

/// A blank part of a brace list is passed over.
pub proof fn blank_items_are_passed_over(
    base: Seq<char>,
    a: Seq<Seq<char>>,
    blank: Seq<char>,
    b: Seq<Seq<char>>,
    after: Seq<char>,
)
    requires
        (a + b).len() > 0,
        forall|i: int| 0 <= i < a.len() ==> is_item(#[trigger] a[i]),
        forall|i: int| 0 <= i < b.len() ==> is_item(#[trigger] b[i]),
        is_part(blank),
        text::trim(blank).len() == 0,
        base.len() == 0 || is_plain(base),
    ensures
        resolve::expanded(brace_import(base, a + seq![blank] + b, after)) == resolve::expanded(
            brace_import(base, a + b, after),
        ),
{
    let rest = text::trim(after);
    let with = a + seq![blank] + b;
    let without = a + b;
    assert forall|i: int| 0 <= i < with.len() implies is_part(#[trigger] with[i]) by {
        if i < a.len() {
            assert(is_item(a[i]));
        } else if i > a.len() {
            assert(is_item(b[i - a.len() - 1]));
        }
    }
    assert forall|i: int| 0 <= i < without.len() implies is_item(#[trigger] without[i]) by {
        if i < a.len() {
            assert(is_item(a[i]));
        } else {
            assert(is_item(b[i - a.len()]));
        }
    }
    assert forall|i: int| 0 <= i < without.len() implies is_part(#[trigger] without[i]) by {
        assert(is_item(without[i]));
    }
    lemma_list(base, with, after);
    lemma_list(base, without, after);
    lemma_items(base, rest, without);
    lemma_items_in_two(base, rest, a + seq![blank], b);
    lemma_items_in_two(base, rest, a, b);
    assert((a + seq![blank]).drop_last() =~= a);
    assert((a + seq![blank]).last() == blank);
}

/// An item of a brace list stands behind its base: `self` for the base itself, an item with another
/// name for the item without it, and any other for itself; what follows the list follows the
/// item, but not `self`.
pub proof fn items_stand_behind_their_base(
    base: Seq<char>,
    rest: Seq<char>,
    name: Seq<char>,
    alias: Seq<char>,
)
    requires
        is_plain(name),
        name != "self"@,
    ensures
        resolve::expanded_item(base, rest, "self"@) == base,
        base.len() > 0 && rest.len() == 0 ==> resolve::expanded_item(base, rest, name) == base
            + "::"@ + name,
        base.len() > 0 && rest.len() > 0 ==> resolve::expanded_item(base, rest, name) == base
            + "::"@ + name + "::"@ + rest,
        base.len() == 0 && rest.len() == 0 ==> resolve::expanded_item(base, rest, name) == name,
        base.len() == 0 && rest.len() > 0 ==> resolve::expanded_item(base, rest, name) == name
            + "::"@ + rest,
        resolve::expanded_item(base, rest, name + " as "@ + alias) == resolve::expanded_item(
            base,
            rest,
            name,
        ),
{
    resolve::lemma_not_renamed(name);
    assert(seq![name][0] == name);
    lemma_renamed(name, alias);
    reveal_strlit("self");
    reveal_strlit(" as ");
    let s = name + " as "@ + alias;
    assert(s[name.len() as int] == ' ');
    if s == "self"@ {
        assert("self"@[name.len() as int] == ' ');
    }
}

/// The paths that a brace list stands for are tried in turn: the list stands for what the first of
/// them stands for that stands for a file.
pub proof fn lists_are_tried_in_turn(
    import: Seq<char>,
    k: int,
    file: Seq<char>,
    registry: Map<Seq<char>, Seq<char>>,
    root: Option<Seq<char>>,
)
    requires
        forall|i: int|
            0 <= i < resolve::expanded(import).len() ==> is_plain(
                #[trigger] resolve::expanded(import)[i],
            ),
        0 <= k < resolve::expanded(import).len(),
        forall|i: int|
            0 <= i < k ==> resolve::rust_target(
                #[trigger] resolve::expanded(import)[i],
                file,
                registry,
                root,
            ) is None,
    ensures
        resolve::rust_target(resolve::expanded(import)[k], file, registry, root) is Some
            ==> resolve::rust_target(import, file, registry, root) == resolve::rust_target(
            resolve::expanded(import)[k],
            file,
            registry,
            root,
        ),
        k == resolve::expanded(import).len() - 1 ==> resolve::rust_target(
            import,
            file,
            registry,
            root,
        ) == resolve::rust_target(resolve::expanded(import)[k], file, registry, root),
{
    lemma_in_turn(resolve::expanded(import), k, file, registry, root);
}

/// What paths stand for is what the first stands for or, where that is nothing, what the others do.
proof fn lemma_first_path(
    paths: Seq<Seq<char>>,
    file: Seq<char>,
    registry: Map<Seq<char>, Seq<char>>,
    root: Option<Seq<char>>,
)
    requires
        paths.len() > 0,
        is_plain(paths[0]),
    ensures
        resolve::paths_target(paths, file, registry, root) == match resolve::rust_target(
            paths[0],
            file,
            registry,
            root,
        ) {
            Some(found) => Some(found),
            None => resolve::paths_target(paths.drop_first(), file, registry, root),
        },
{
    lemma_plain(paths[0]);
    lemma_plain_target(paths[0], file, registry, root);
    let found = resolve::chain_target(
        resolve::segments_of(paths[0], file, root),
        root,
        registry,
    );
    assert(resolve::sanitized(paths[0]) == paths[0]);
    assert(resolve::rust_target(paths[0], file, registry, root) == found);
}

proof fn lemma_in_turn(
    paths: Seq<Seq<char>>,
    k: int,
    file: Seq<char>,
    registry: Map<Seq<char>, Seq<char>>,
    root: Option<Seq<char>>,
)
    requires
        forall|i: int| 0 <= i < paths.len() ==> is_plain(#[trigger] paths[i]),
        0 <= k < paths.len(),
        forall|i: int|
            0 <= i < k ==> resolve::rust_target(#[trigger] paths[i], file, registry, root) is None,
    ensures
        resolve::rust_target(paths[k], file, registry, root) is Some || k == paths.len() - 1
            ==> resolve::paths_target(paths, file, registry, root) == resolve::rust_target(
            paths[k],
            file,
            registry,
            root,
        ),
    decreases k,
{
    assert(is_plain(paths[0]));
    lemma_first_path(paths, file, registry, root);
    let rest = paths.drop_first();
    if k > 0 {
        assert(resolve::rust_target(paths[0], file, registry, root) is None);
        assert forall|i: int| 0 <= i < rest.len() implies is_plain(#[trigger] rest[i]) by {
            assert(rest[i] == paths[i + 1]);
        }
        assert forall|i: int| 0 <= i < k - 1 implies resolve::rust_target(
            #[trigger] rest[i],
            file,
            registry,
            root,
        ) is None by {
            assert(rest[i] == paths[i + 1]);
        }
        assert(rest[k - 1] == paths[k]);
        lemma_in_turn(rest, k - 1, file, registry, root);
    } else if paths.len() == 1 {
        assert(rest.len() == 0);
        assert(resolve::paths_target(rest, file, registry, root) is None);
    }
}

// ---------------------------------------------------------------------------
// Imports
// ---------------------------------------------------------------------------

/// White space around an import does not matter, and an import of nothing else stands for nothing.
pub proof fn imports_are_trimmed(
    a: Seq<char>,
    b: Seq<char>,
    file: Seq<char>,
    lang: Language,
    registry: Map<Seq<char>, Seq<char>>,
    root: Option<Seq<char>>,
)
    requires
        text::trim(a) == text::trim(b),
    ensures
        resolve::target(a, file, lang, registry, root) == resolve::target(
            b,
            file,
            lang,
            registry,
            root,
        ),
        text::trim(a).len() == 0 ==> resolve::target(a, file, lang, registry, root) is None,
{
}

/// A name that is neither relative nor registered stands for nothing in another language than
/// Rust; in Rust it stands for what its path does or, where that is nothing, for what the name is
/// registered for.
pub proof fn names_are_looked_up(
    name: Seq<char>,
    file: Seq<char>,
    lang: Language,
    registry: Map<Seq<char>, Seq<char>>,
    root: Option<Seq<char>>,
)
    requires
        name.len() > 0,
        text::trim(name) == name,
        name[0] != '.',
    ensures
        lang != Language::Rust && !registry.contains_key(name) ==> resolve::target(
            name,
            file,
            lang,
            registry,
            root,
        ) is None,
        lang != Language::Rust && registry.contains_key(name) ==> resolve::target(
            name,
            file,
            lang,
            registry,
            root,
        ) == Some(registry[name]),
        lang == Language::Rust && resolve::rust_target(name, file, registry, root) is Some
            ==> resolve::target(name, file, lang, registry, root) == resolve::rust_target(
            name,
            file,
            registry,
            root,
        ),
        lang == Language::Rust && resolve::rust_target(name, file, registry, root) is None
            && registry.contains_key(name) ==> resolve::target(name, file, lang, registry, root)
            == Some(registry[name]),
        lang == Language::Rust && resolve::rust_target(name, file, registry, root) is None
            && !registry.contains_key(name) ==> resolve::target(
            name,
            file,
            lang,
            registry,
            root,
        ) is None,
{
}

/// In a file whose module is not known, `self::rest` and `super::rest` stand for what `crate::rest`
/// stands for.
pub proof fn unknown_modules_are_the_crate_root(
    rest: Seq<Seq<char>>,
    file: Seq<char>,
    registry: Map<Seq<char>, Seq<char>>,
    root: Option<Seq<char>>,
)
    requires
        root matches Some(r) ==> resolve::module_of(file, r) is None,
        rest.len() > 0,
        are_plain(rest),
        !text::starts(text::join(rest, "::"@), "super::"@),
    ensures
        resolve::rust_target("self::"@ + text::join(rest, "::"@), file, registry, root)
            == resolve::rust_target("crate::"@ + text::join(rest, "::"@), file, registry, root),
        resolve::rust_target("super::"@ + text::join(rest, "::"@), file, registry, root)
            == resolve::rust_target("crate::"@ + text::join(rest, "::"@), file, registry, root),
{
    reveal_strlit("super::");
    reveal_strlit("self::");
    reveal_strlit("crate::");
    reveal_strlit("::");
    lemma_joined(rest);
    lemma_crate_path(rest, file, registry, root);
    let tail = text::join(rest, "::"@);
    let own = "self::"@ + tail;
    let up = "super::"@ + tail;
    lemma_plain_behind("self::"@, tail);
    lemma_plain_behind("super::"@, tail);
    lemma_plain_target(own, file, registry, root);
    lemma_plain_target(up, file, registry, root);
    assert(own[0] == 's' && up[0] == 's' && up[1] == 'u');
    assert(own.len() >= 7 ==> own.subrange(0, 7)[0] == 's');
    assert(up.subrange(0, 7)[0] == 's');
    assert(up.subrange(0, 6)[1] == 'u');
    assert(up.subrange(0, 2)[0] == 's');
    lemma_supers(1, tail);
    assert(repeated("super::"@, 1) =~= "super::"@) by {
        reveal_with_fuel(repeated, 2);
    }
    let module = resolve::own_module(file, root);
    assert(module =~= seq![]);
    assert(module + rest =~= rest);
    assert(resolve::supers(up) == (1nat, tail));
    assert(resolve::segments_of(own, file, root) == module + rest);
    assert(resolve::segments_of(up, file, root) =~= rest);
}

} // verus!
