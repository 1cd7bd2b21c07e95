//! Which file a relative import stands for.
use vstd::prelude::*;

use crate::model::{FileView, Language};
use crate::registry;
use crate::resolve;
use crate::text;
use crate::text::Class;

verus! {

/// What stands at a path below a directory; the directory with the empty path is the project.
pub open spec fn below(dir: Seq<char>, path: Seq<char>) -> Seq<char> {
    if dir.len() == 0 {
        path
    } else {
        dir + "/"@ + path
    }
}

/// A path whose components all stay: none is empty, `.` or `..`.
pub open spec fn plain_path(path: Seq<char>) -> bool {
    forall|i: int|
        0 <= i < text::split(path, Class::Only('/')).len() ==> resolve::lasting(
            #[trigger] text::split(path, Class::Only('/'))[i],
        )
}

/// A text without a slash.
pub open spec fn no_slash(s: Seq<char>) -> bool {
    forall|j: int| 0 <= j < s.len() ==> #[trigger] s[j] != '/'
}

/// What is found is what the first registered one of some paths is registered for; nothing, where
/// none of them is registered.
pub open spec fn finds_first(
    found: Option<Seq<char>>,
    registry: Map<Seq<char>, Seq<char>>,
    paths: Seq<Seq<char>>,
) -> bool {
    &&& forall|i: int|
        0 <= i < paths.len() && registry.contains_key(#[trigger] paths[i]) && (forall|j: int|
            0 <= j < i ==> !registry.contains_key(#[trigger] paths[j])) ==> found == Some(
            registry[paths[i]],
        )
    &&& (forall|i: int| 0 <= i < paths.len() ==> !registry.contains_key(#[trigger] paths[i]))
        ==> found is None
}

/// What is found is the first one of some paths that a file has; nothing, where no file has one.
pub open spec fn finds_first_file(
    found: Option<Seq<char>>,
    files: Seq<FileView>,
    paths: Seq<Seq<char>>,
) -> bool {
    &&& forall|i: int|
        0 <= i < paths.len() && has_file(files, #[trigger] paths[i]) && (forall|j: int|
            0 <= j < i ==> !has_file(files, #[trigger] paths[j])) ==> found == Some(paths[i])
    &&& (forall|i: int| 0 <= i < paths.len() ==> !has_file(files, #[trigger] paths[i]))
        ==> found is None
}

/// Some file has a path.
pub open spec fn has_file(files: Seq<FileView>, path: Seq<char>) -> bool {
    exists|i: int| 0 <= i < files.len() && (#[trigger] files[i]).path == path
}

proof fn lemma_finds_first(registry: Map<Seq<char>, Seq<char>>, paths: Seq<Seq<char>>)
    ensures
        finds_first(resolve::first_registered(registry, paths), registry, paths),
    decreases paths.len(),
{
    let found = resolve::first_registered(registry, paths);
    if paths.len() > 0 {
        let rest = paths.drop_first();
        lemma_finds_first(registry, rest);
        assert forall|i: int| 0 <= i < rest.len() implies #[trigger] rest[i] == paths[i + 1] by {}
        assert forall|i: int|
            0 <= i < paths.len() && registry.contains_key(#[trigger] paths[i]) && (forall|j: int|
                0 <= j < i ==> !registry.contains_key(#[trigger] paths[j])) implies found == Some(
            registry[paths[i]],
        ) by {
            if i > 0 {
                assert(!registry.contains_key(paths[0]));
                assert(rest[i - 1] == paths[i]);
                assert forall|j: int| 0 <= j < i - 1 implies !registry.contains_key(
                    #[trigger] rest[j],
                ) by {
                    assert(!registry.contains_key(paths[j + 1]));
                }
            }
        }
        if forall|i: int| 0 <= i < paths.len() ==> !registry.contains_key(#[trigger] paths[i]) {
            assert(!registry.contains_key(paths[0]));
            assert forall|i: int| 0 <= i < rest.len() implies !registry.contains_key(
                #[trigger] rest[i],
            ) by {
                assert(!registry.contains_key(paths[i + 1]));
            }
        }
    }
}

proof fn lemma_directory(dir: Seq<char>, name: Seq<char>)
    requires
        no_slash(name),
    ensures
        resolve::directory(below(dir, name)) == dir,
    decreases name.len(),
{
    let k = Class::Only('/');
    reveal_strlit("/");
    let file = below(dir, name);
    if name.len() == 0 {
        if dir.len() > 0 {
            assert(file.last() == '/');
            assert(file.drop_last() =~= dir);
        } else {
            assert(dir =~= seq![]);
        }
    } else {
        let front = name.drop_last();
        assert(name[name.len() - 1] != '/');
        assert forall|j: int| 0 <= j < front.len() implies #[trigger] front[j] != '/' by {
            assert(name[j] != '/');
        }
        lemma_directory(dir, front);
        assert(file.last() == name.last());
        assert(file.drop_last() =~= below(dir, front));
    }
}

proof fn lemma_lasting_parts_follow(parts: Seq<Seq<char>>, more: Seq<Seq<char>>)
    requires
        forall|i: int| 0 <= i < more.len() ==> resolve::lasting(#[trigger] more[i]),
    ensures
        resolve::clean_parts(parts + more) == resolve::clean_parts(parts) + more,
    decreases more.len(),
{
    if more.len() == 0 {
        assert(parts + more =~= parts);
        assert(resolve::clean_parts(parts) + more =~= resolve::clean_parts(parts));
    } else {
        let front = more.drop_last();
        assert forall|i: int| 0 <= i < front.len() implies resolve::lasting(#[trigger] front[i]) by {
            assert(resolve::lasting(more[i]));
        }
        lemma_lasting_parts_follow(parts, front);
        assert((parts + more).drop_last() =~= parts + front);
        assert(resolve::lasting(more[more.len() - 1]));
        assert((parts + more).last() == more.last());
        assert(resolve::clean_parts(parts) + more =~= (resolve::clean_parts(parts) + front).push(
            more.last(),
        ));
    }
}

/// What follows a path is cleaned the same way behind all paths that clean to the same.
proof fn lemma_same_follows(a: Seq<Seq<char>>, b: Seq<Seq<char>>, more: Seq<Seq<char>>)
    requires
        resolve::clean_parts(a) == resolve::clean_parts(b),
    ensures
        resolve::clean_parts(a + more) == resolve::clean_parts(b + more),
    decreases more.len(),
{
    if more.len() == 0 {
        assert(a + more =~= a);
        assert(b + more =~= b);
    } else {
        lemma_same_follows(a, b, more.drop_last());
        assert((a + more).drop_last() =~= a + more.drop_last());
        assert((b + more).drop_last() =~= b + more.drop_last());
        assert((a + more).last() == more.last());
        assert((b + more).last() == more.last());
    }
}

/// The components of a directory: none for the project itself.
spec fn components(dir: Seq<char>) -> Seq<Seq<char>> {
    if dir.len() == 0 {
        seq![]
    } else {
        text::split(dir, Class::Only('/'))
    }
}

proof fn lemma_split_slash(a: Seq<char>, b: Seq<char>)
    ensures
        text::split(a + "/"@ + b, Class::Only('/')) == text::split(a, Class::Only('/'))
            + text::split(b, Class::Only('/')),
{
    reveal_strlit("/");
    assert(a + "/"@ + b =~= a.push('/') + b);
    text::lemma_split_concat(a, '/', b, Class::Only('/'));
}

/// The components of a specifier behind those of a directory clean to the specifier below it.
proof fn lemma_start(dir: Seq<char>, step: Seq<char>, rest: Seq<char>)
    requires
        no_slash(step),
    ensures
        resolve::clean_parts(text::split(dir + "/"@ + (step + "/"@ + rest), Class::Only('/')))
            == resolve::clean_parts(
            components(dir).push(step) + text::split(rest, Class::Only('/')),
        ),
{
    let k = Class::Only('/');
    let r = text::split(rest, k);
    lemma_split_slash(dir, step + "/"@ + rest);
    lemma_split_slash(step, rest);
    text::lemma_split_whole(step, k);
    let all = text::split(dir + "/"@ + (step + "/"@ + rest), k);
    assert(all =~= text::split(dir, k).push(step) + r);
    if dir.len() == 0 {
        text::lemma_split_whole(dir, k);
        let a = seq![dir].push(step);
        let b = Seq::<Seq<char>>::empty().push(step);
        assert(a.drop_last() =~= seq![dir]);
        assert(b.drop_last() =~= seq![]);
        assert(seq![dir].drop_last() =~= seq![]);
        assert(resolve::clean_parts(seq![dir]) =~= resolve::clean_parts(seq![])) by {
            reveal_with_fuel(resolve::clean_parts, 2);
        }
        lemma_same_follows(a, b, r);
    }
}

proof fn lemma_dot_is_lost(parts: Seq<Seq<char>>, rest: Seq<Seq<char>>)
    ensures
        resolve::clean_parts(parts.push("."@) + rest) == resolve::clean_parts(parts + rest),
{
    assert(parts.push("."@).drop_last() =~= parts);
    lemma_same_follows(parts.push("."@), parts, rest);
}

proof fn lemma_parent_is_left(parts: Seq<Seq<char>>, part: Seq<char>, rest: Seq<Seq<char>>)
    requires
        resolve::lasting(part),
    ensures
        resolve::clean_parts(parts.push(part).push(".."@) + rest) == resolve::clean_parts(
            parts + rest,
        ),
{
    let a = parts.push(part);
    let b = a.push(".."@);
    assert(b.drop_last() =~= a);
    assert(a.drop_last() =~= parts);
    reveal_strlit(".");
    reveal_strlit("..");
    let c = resolve::clean_parts(parts);
    assert(c.push(part).drop_last() =~= c);
    assert(".."@.len() == 2 && "."@.len() == 1);
    assert(resolve::clean_parts(a) == c.push(part));
    assert(b.last() == ".."@);
    assert(resolve::clean_parts(b) == c);
    lemma_same_follows(b, parts, rest);
}

proof fn lemma_trim_behind(a: Seq<char>, b: Seq<char>)
    requires
        a.len() > 0,
        !text::white_space(a.last()),
    ensures
        text::trim_end(a + b, Class::White) == a + text::trim_end(b, Class::White),
    decreases b.len(),
{
    if b.len() == 0 {
        assert(a + b =~= a);
        assert(a + text::trim_end(b, Class::White) =~= a);
    } else if text::white_space(b.last()) {
        assert((a + b).last() == b.last());
        assert((a + b).drop_last() =~= a + b.drop_last());
        lemma_trim_behind(a, b.drop_last());
    } else {
        assert((a + b).last() == b.last());
    }
}

/// A specifier below a directory cleans to the path below it.
proof fn lemma_cluster(dir: Seq<char>, name: Seq<char>)
    requires
        dir.len() > 0 ==> plain_path(dir),
        plain_path(name),
    ensures
        resolve::cleaned(dir + "/"@ + ("."@ + "/"@ + name)) == below(dir, name),
{
    let k = Class::Only('/');
    reveal_strlit("/");
    reveal_strlit(".");
    assert("/"@ =~= seq!['/']);
    let x = text::split(name, k);
    let d = components(dir);
    lemma_start(dir, "."@, name);
    lemma_dot_is_lost(d, x);
    assert forall|i: int| 0 <= i < d.len() implies resolve::lasting(#[trigger] d[i]) by {
        assert(d[i] == text::split(dir, k)[i]);
    }
    lemma_lasting_parts_follow(d, x);
    lemma_lasting_parts_follow(seq![], d);
    assert(seq![] + d =~= d);
    assert(resolve::clean_parts(seq![]) + d =~= d);
    assert(resolve::clean_parts(d + x) == d + x);
    text::lemma_join_split(name, '/');
    text::lemma_pieces_are_free(name, k);
    if dir.len() == 0 {
        assert(d + x =~= x);
    } else {
        text::lemma_join_split(dir, '/');
        text::lemma_pieces_are_free(dir, k);
        let all = d + x;
        let n = d.len() as int;
        assert(all.take(n) =~= d);
        assert(all.skip(n) =~= x);
        text::lemma_join_at(all, "/"@, n);
    }
}

proof fn lemma_not_trimmed(s: Seq<char>)
    requires
        s.len() > 0,
        !text::white_space(s[0]),
        !text::white_space(s.last()),
    ensures
        text::trim(s) == s,
{
}

proof fn lemma_relative(
    dir: Seq<char>,
    file: Seq<char>,
    name: Seq<char>,
    lang: Language,
    registry: Map<Seq<char>, Seq<char>>,
    root: Option<Seq<char>>,
)
    requires
        dir.len() > 0 ==> plain_path(dir),
        no_slash(file),
        plain_path(name),
        !text::white_space(below(dir, name)[0]),
        !text::white_space(name.last()),
    ensures
        name.len() > 0,
        resolve::target("./"@ + name, below(dir, file), lang, registry, root)
            == resolve::first_registered(
            registry,
            resolve::relative_candidates(below(dir, name), lang),
        ),
{
    let k = Class::Only('/');
    reveal_strlit("./");
    reveal_strlit(".");
    reveal_strlit("/");
    if name.len() == 0 {
        text::lemma_split_whole(name, k);
        assert(resolve::lasting(text::split(name, k)[0]));
    }
    let spec = "./"@ + name;
    assert(spec[0] == '.');
    assert(spec.last() == name.last());
    lemma_not_trimmed(spec);
    lemma_directory(dir, file);
    assert(spec =~= "."@ + "/"@ + name);
    lemma_cluster(dir, name);
    let b = below(dir, name);
    assert(b.last() == name.last());
    lemma_not_trimmed(b);
}

/// In a file of JavaScript, an import `./name` stands for the first of these files below the directory
/// of the file that is registered: `name.js`, `name.jsx`, `name.mjs` and `name.cjs`, and then the same
/// with `name/index` in place of `name`.
pub proof fn javascript_imports_find_their_files(
    dir: Seq<char>,
    file: Seq<char>,
    name: Seq<char>,
    registry: Map<Seq<char>, Seq<char>>,
    root: Option<Seq<char>>,
)
    requires
        dir.len() > 0 ==> plain_path(dir),
        no_slash(file),
        plain_path(name),
        !text::white_space(below(dir, name)[0]),
        !text::white_space(name.last()),
    ensures
        finds_first(
            resolve::target(
                "./"@ + name,
                below(dir, file),
                Language::JavaScript,
                registry,
                root,
            ),
            registry,
            seq![
                below(dir, name) + ".js"@,
                below(dir, name) + ".jsx"@,
                below(dir, name) + ".mjs"@,
                below(dir, name) + ".cjs"@,
                below(dir, name) + "/index.js"@,
                below(dir, name) + "/index.jsx"@,
                below(dir, name) + "/index.mjs"@,
                below(dir, name) + "/index.cjs"@,
            ],
        ),
{
    let b = below(dir, name);
    lemma_relative(dir, file, name, Language::JavaScript, registry, root);
    lemma_finds_first(registry, resolve::relative_candidates(b, Language::JavaScript));
    lemma_javascript(b);
}

/// In a file of TypeScript, an import `./name` stands for the first of these files below the directory
/// of the file that is registered: `name.ts` and `name.tsx`, and then the same
/// with `name/index` in place of `name`.
pub proof fn typescript_imports_find_their_files(
    dir: Seq<char>,
    file: Seq<char>,
    name: Seq<char>,
    registry: Map<Seq<char>, Seq<char>>,
    root: Option<Seq<char>>,
)
    requires
        dir.len() > 0 ==> plain_path(dir),
        no_slash(file),
        plain_path(name),
        !text::white_space(below(dir, name)[0]),
        !text::white_space(name.last()),
    ensures
        finds_first(
            resolve::target(
                "./"@ + name,
                below(dir, file),
                Language::TypeScript,
                registry,
                root,
            ),
            registry,
            seq![
                below(dir, name) + ".ts"@,
                below(dir, name) + ".tsx"@,
                below(dir, name) + "/index.ts"@,
                below(dir, name) + "/index.tsx"@,
            ],
        ),
{
    let b = below(dir, name);
    lemma_relative(dir, file, name, Language::TypeScript, registry, root);
    lemma_finds_first(registry, resolve::relative_candidates(b, Language::TypeScript));
    lemma_typescript(b);
}

/// In a file of Python, an import `./name` stands for the first of these files below the directory
/// of the file that is registered: `name.py` and `name/__init__.py`, and then the same
/// with `name/index` in place of `name`.
pub proof fn python_imports_find_their_files(
    dir: Seq<char>,
    file: Seq<char>,
    name: Seq<char>,
    registry: Map<Seq<char>, Seq<char>>,
    root: Option<Seq<char>>,
)
    requires
        dir.len() > 0 ==> plain_path(dir),
        no_slash(file),
        plain_path(name),
        !text::white_space(below(dir, name)[0]),
        !text::white_space(name.last()),
    ensures
        finds_first(
            resolve::target(
                "./"@ + name,
                below(dir, file),
                Language::Python,
                registry,
                root,
            ),
            registry,
            seq![
                below(dir, name) + ".py"@,
                below(dir, name) + "/__init__.py"@,
                below(dir, name) + "/index.py"@,
                below(dir, name) + "/index/__init__.py"@,
            ],
        ),
{
    let b = below(dir, name);
    lemma_relative(dir, file, name, Language::Python, registry, root);
    lemma_finds_first(registry, resolve::relative_candidates(b, Language::Python));
    lemma_python(b);
}

/// In a file of Rust, an import `./name` stands for the first of these files below the directory
/// of the file that is registered: `name.rs`, and then the same
/// with `name/index` in place of `name`.
pub proof fn rust_imports_find_their_files(
    dir: Seq<char>,
    file: Seq<char>,
    name: Seq<char>,
    registry: Map<Seq<char>, Seq<char>>,
    root: Option<Seq<char>>,
)
    requires
        dir.len() > 0 ==> plain_path(dir),
        no_slash(file),
        plain_path(name),
        !text::white_space(below(dir, name)[0]),
        !text::white_space(name.last()),
    ensures
        finds_first(
            resolve::target(
                "./"@ + name,
                below(dir, file),
                Language::Rust,
                registry,
                root,
            ),
            registry,
            seq![
                below(dir, name) + ".rs"@,
                below(dir, name) + "/index.rs"@,
            ],
        ),
{
    let b = below(dir, name);
    lemma_relative(dir, file, name, Language::Rust, registry, root);
    lemma_finds_first(registry, resolve::relative_candidates(b, Language::Rust));
    lemma_rust(b);
}

/// In a file of no known language, a relative import stands for nothing.
pub proof fn other_files_have_no_relative_imports(
    spec: Seq<char>,
    file: Seq<char>,
    registry: Map<Seq<char>, Seq<char>>,
    root: Option<Seq<char>>,
)
    requires
        text::trim(spec).len() > 0,
        text::trim(spec)[0] == '.',
    ensures
        resolve::target(spec, file, Language::Other, registry, root) is None,
{
    let name = text::trim(spec);
    let cluster = text::trim(resolve::cleaned(resolve::directory(file) + "/"@ + name));
    assert(resolve::relative_candidates(cluster, Language::Other) =~= seq![]);
}

proof fn lemma_index(b: Seq<char>, e: Seq<char>, all: Seq<char>)
    requires
        all == "/index"@ + e,
    ensures
        b + "/index"@ + e == b + all,
{
    assert(b + "/index"@ + e =~= b + all);
}

proof fn lemma_javascript(b: Seq<char>)
    ensures
        resolve::relative_candidates(b, Language::JavaScript) == seq![
            b + ".js"@,
            b + ".jsx"@,
            b + ".mjs"@,
            b + ".cjs"@,
            b + "/index.js"@,
            b + "/index.jsx"@,
            b + "/index.mjs"@,
            b + "/index.cjs"@,
        ],
{
    reveal_strlit("/index");
    reveal_strlit(".js");
    reveal_strlit(".jsx");
    reveal_strlit(".mjs");
    reveal_strlit(".cjs");
    reveal_strlit("/index.js");
    reveal_strlit("/index.jsx");
    reveal_strlit("/index.mjs");
    reveal_strlit("/index.cjs");
    assert("/index.js"@ =~= "/index"@ + ".js"@);
    assert("/index.jsx"@ =~= "/index"@ + ".jsx"@);
    assert("/index.mjs"@ =~= "/index"@ + ".mjs"@);
    assert("/index.cjs"@ =~= "/index"@ + ".cjs"@);
    lemma_index(b, ".js"@, "/index.js"@);
    lemma_index(b, ".jsx"@, "/index.jsx"@);
    lemma_index(b, ".mjs"@, "/index.mjs"@);
    lemma_index(b, ".cjs"@, "/index.cjs"@);
    assert(resolve::relative_candidates(b, Language::JavaScript) =~= seq![
        b + ".js"@,
        b + ".jsx"@,
        b + ".mjs"@,
        b + ".cjs"@,
        b + "/index.js"@,
        b + "/index.jsx"@,
        b + "/index.mjs"@,
        b + "/index.cjs"@,
    ]);
}

proof fn lemma_typescript(b: Seq<char>)
    ensures
        resolve::relative_candidates(b, Language::TypeScript) == seq![
            b + ".ts"@,
            b + ".tsx"@,
            b + "/index.ts"@,
            b + "/index.tsx"@,
        ],
{
    reveal_strlit("/index");
    reveal_strlit(".ts");
    reveal_strlit(".tsx");
    reveal_strlit("/index.ts");
    reveal_strlit("/index.tsx");
    assert("/index.ts"@ =~= "/index"@ + ".ts"@);
    assert("/index.tsx"@ =~= "/index"@ + ".tsx"@);
    lemma_index(b, ".ts"@, "/index.ts"@);
    lemma_index(b, ".tsx"@, "/index.tsx"@);
    assert(resolve::relative_candidates(b, Language::TypeScript) =~= seq![
        b + ".ts"@,
        b + ".tsx"@,
        b + "/index.ts"@,
        b + "/index.tsx"@,
    ]);
}

proof fn lemma_python(b: Seq<char>)
    ensures
        resolve::relative_candidates(b, Language::Python) == seq![
            b + ".py"@,
            b + "/__init__.py"@,
            b + "/index.py"@,
            b + "/index/__init__.py"@,
        ],
{
    reveal_strlit("/index");
    reveal_strlit(".py");
    reveal_strlit("/__init__.py");
    reveal_strlit("/index.py");
    reveal_strlit("/index/__init__.py");
    assert("/index.py"@ =~= "/index"@ + ".py"@);
    assert("/index/__init__.py"@ =~= "/index"@ + "/__init__.py"@);
    lemma_index(b, ".py"@, "/index.py"@);
    lemma_index(b, "/__init__.py"@, "/index/__init__.py"@);
    assert(resolve::relative_candidates(b, Language::Python) =~= seq![
        b + ".py"@,
        b + "/__init__.py"@,
        b + "/index.py"@,
        b + "/index/__init__.py"@,
    ]);
}

proof fn lemma_rust(b: Seq<char>)
    ensures
        resolve::relative_candidates(b, Language::Rust) == seq![b + ".rs"@, b + "/index.rs"@],
{
    reveal_strlit("/index");
    reveal_strlit(".rs");
    reveal_strlit("/index.rs");
    assert("/index.rs"@ =~= "/index"@ + ".rs"@);
    lemma_index(b, ".rs"@, "/index.rs"@);
    assert(resolve::relative_candidates(b, Language::Rust) =~= seq![b + ".rs"@, b + "/index.rs"@]);
}

/// An import `../rest` in a directory of a directory stands for what `./rest` stands for in the
/// latter.
pub proof fn two_dots_leave_a_directory(
    dir: Seq<char>,
    sub: Seq<char>,
    file: Seq<char>,
    rest: Seq<char>,
    lang: Language,
    registry: Map<Seq<char>, Seq<char>>,
    root: Option<Seq<char>>,
)
    requires
        resolve::lasting(sub),
        no_slash(sub),
        no_slash(file),
    ensures
        resolve::target("../"@ + rest, below(below(dir, sub), file), lang, registry, root)
            == resolve::target("./"@ + rest, below(dir, file), lang, registry, root),
{
    let k = Class::Only('/');
    reveal_strlit("../");
    reveal_strlit("./");
    reveal_strlit("/");
    reveal_strlit(".");
    reveal_strlit("..");
    let tail = text::trim_end(rest, Class::White);
    let up = "../"@ + rest;
    let here = "./"@ + rest;
    assert(up[0] == '.' && here[0] == '.');
    lemma_trim_behind("../"@, rest);
    lemma_trim_behind("./"@, rest);
    assert(text::trim(up) == "../"@ + tail);
    assert(text::trim(here) == "./"@ + tail);
    let inner = below(dir, sub);
    lemma_directory(inner, file);
    lemma_directory(dir, file);
    assert("../"@ + tail =~= ".."@ + "/"@ + tail);
    assert("./"@ + tail =~= "."@ + "/"@ + tail);
    let r = text::split(tail, k);
    lemma_start(inner, ".."@, tail);
    lemma_start(dir, "."@, tail);
    lemma_dot_is_lost(components(dir), r);
    text::lemma_split_whole(sub, k);
    if dir.len() > 0 {
        lemma_split_slash(dir, sub);
    }
    assert(components(inner) =~= components(dir).push(sub));
    lemma_parent_is_left(components(dir), sub, r);
}

// ---------------------------------------------------------------------------
// The files of a project
// ---------------------------------------------------------------------------

proof fn lemma_join_without(parts: Seq<Seq<char>>, sep: Seq<char>)
    requires
        forall|i: int| 0 <= i < parts.len() ==> no_slash(#[trigger] parts[i]),
        no_slash(sep),
    ensures
        no_slash(text::join(parts, sep)),
    decreases parts.len(),
{
    if parts.len() == 1 {
        assert(no_slash(parts[0]));
    } else if parts.len() > 1 {
        let front = parts.drop_last();
        assert forall|i: int| 0 <= i < front.len() implies no_slash(#[trigger] front[i]) by {
            assert(no_slash(parts[i]));
        }
        lemma_join_without(front, sep);
        assert(no_slash(parts[parts.len() - 1]));
        let s = text::join(parts, sep);
        let a = text::join(front, sep);
        assert forall|j: int| 0 <= j < s.len() implies #[trigger] s[j] != '/' by {
            if j < a.len() {
                assert(s[j] == a[j]);
            } else if j < a.len() + sep.len() {
                assert(s[j] == sep[j - a.len()]);
            } else {
                assert(s[j] == parts.last()[j - a.len() - sep.len()]);
            }
        }
    }
}

proof fn lemma_pieces_without(s: Seq<char>)
    ensures
        forall|i: int|
            0 <= i < text::split(s, Class::Only('/')).len() ==> no_slash(
                #[trigger] text::split(s, Class::Only('/'))[i],
            ),
{
    let k = Class::Only('/');
    text::lemma_pieces_are_free(s, k);
    let parts = text::split(s, k);
    assert forall|i: int| 0 <= i < parts.len() implies no_slash(#[trigger] parts[i]) by {
        assert forall|j: int| 0 <= j < parts[i].len() implies #[trigger] parts[i][j] != '/' by {
            assert(!k.has(parts[i][j]));
        }
    }
}

proof fn lemma_suffix_off(s: Seq<char>, suffixes: Seq<Seq<char>>)
    requires
        no_slash(s),
    ensures
        no_slash(registry::without_suffix(s, suffixes)),
    decreases suffixes.len(),
{
    if suffixes.len() > 0 {
        lemma_suffix_off(s, suffixes.drop_first());
        if let Some(t) = registry::stripped(s, suffixes[0]) {
            assert forall|j: int| 0 <= j < t.len() implies #[trigger] t[j] != '/' by {
                assert(t[j] == s[j]);
            }
        }
    }
}

proof fn lemma_dotted_without(
    dirs: Seq<Seq<char>>,
    name: Seq<char>,
    paths: Set<Seq<char>>,
    upto: int,
)
    requires
        0 <= upto <= dirs.len(),
        forall|i: int| 0 <= i < dirs.len() ==> no_slash(#[trigger] dirs[i]),
        no_slash(name),
    ensures
        forall|i: int|
            0 <= i < registry::dotted_names(dirs, name, paths, upto).len() ==> no_slash(
                #[trigger] registry::dotted_names(dirs, name, paths, upto)[i],
            ),
    decreases upto,
{
    if upto > 0 {
        lemma_dotted_without(dirs, name, paths, upto - 1);
        let tail = dirs.skip(upto - 1);
        assert forall|i: int| 0 <= i < tail.len() implies no_slash(#[trigger] tail[i]) by {
            assert(tail[i] == dirs[i + upto - 1]);
        }
        reveal_strlit(".");
        lemma_join_without(tail, "."@);
        lemma_suffix_off(name, seq![".py"@]);
        let base = text::join(tail, "."@);
        let last = registry::without_suffix(name, seq![".py"@]);
        let d = registry::dotted_name(dirs, name, upto - 1);
        assert(no_slash(d)) by {
            assert forall|j: int| 0 <= j < d.len() implies #[trigger] d[j] != '/' by {
                if name != "__init__.py"@ && j > base.len() {
                    assert(d[j] == last[j - base.len() - 1]);
                } else if j < base.len() {
                    assert(d[j] == base[j]);
                }
            }
        }
        let front = registry::dotted_names(dirs, name, paths, upto - 1);
        let all = registry::dotted_names(dirs, name, paths, upto);
        assert forall|i: int| 0 <= i < all.len() implies no_slash(#[trigger] all[i]) by {
            if i < front.len() {
                assert(all[i] == front[i]);
            }
        }
    }
}

proof fn lemma_rust_key_without(path: Seq<char>)
    ensures
        registry::rust_key(path) matches Some(key) ==> no_slash(key),
{
    reveal_strlit("crate");
    reveal_strlit("crate::");
    reveal_strlit("::");
    if let Some(root) = resolve::crate_root(path) {
        if let Some(m) = resolve::module_of(path, root) {
            let prefix = resolve::root_prefix(root) + "src/"@;
            let rest = path.skip(prefix.len() as int);
            let stem = text::trim_end_text(rest, ".rs"@);
            let parts = text::split(stem, Class::Only('/'));
            lemma_pieces_without(stem);
            assert forall|i: int| 0 <= i < m.len() implies no_slash(#[trigger] m[i]) by {
                assert(m[i] == parts[i]);
            }
            lemma_join_without(m, "::"@);
            let tail = text::join(m, "::"@);
            let key = resolve::crate_key(m);
            assert forall|j: int| 0 <= j < key.len() implies #[trigger] key[j] != '/' by {
                if j >= 7 {
                    assert(key[j] == tail[j - 7]);
                }
            }
        }
    }
}

/// The only name with a slash that a file offers is its path.
pub proof fn only_paths_have_slashes(file: FileView, paths: Set<Seq<char>>, key: Seq<char>)
    requires
        registry::offered(file, paths).contains(key),
        !no_slash(key),
    ensures
        key == file.path,
{
    let k = Class::Only('/');
    let all = registry::offered(file, paths);
    let parts = text::split(file.path, k);
    lemma_pieces_without(file.path);
    text::lemma_pieces_are_free(file.path, k);
    assert(no_slash(parts[parts.len() - 1]));
    lemma_suffix_off(parts.last(), registry::source_suffixes());
    lemma_rust_key_without(file.path);
    let dirs = parts.drop_last();
    assert forall|i: int| 0 <= i < dirs.len() implies no_slash(#[trigger] dirs[i]) by {
        assert(dirs[i] == parts[i]);
    }
    lemma_dotted_without(dirs, parts.last(), paths, parts.len() - 1);
    let i = all.index_of(key);
    let python = if file.language == Language::Python {
        registry::module_keys(file.path, paths)
    } else {
        seq![]
    };
    assert(all[i] == key);
    if i == 1 {
        assert(key == registry::stem(file.path));
    } else if i >= 2 && i < 2 + python.len() {
        assert(all[i] == python[i - 2]);
    } else if i >= 2 {
        assert(Some(all[i]) == registry::rust_key(file.path));
    }
}

/// A path with a slash is registered where a file has it, and stands for that file.
pub proof fn paths_with_slashes_are_their_own(files: Seq<FileView>, path: Seq<char>)
    requires
        !no_slash(path),
    ensures
        registry::registry(files).contains_key(path) <==> has_file(files, path),
        has_file(files, path) ==> registry::registry(files)[path] == path,
{
    registry::registry_exists(files);
    let m = registry::registry(files);
    if has_file(files, path) {
        let i = choose|i: int| 0 <= i < files.len() && (#[trigger] files[i]).path == path;
        registry::paths_and_stems_are_registered(files, i);
    }
    if m.contains_key(path) {
        assert(registry::least_offering(files, path, m[path]));
        let i = choose|i: int| #[trigger]
            registry::offers(files, i, path) && files[i].path == m[path];
        only_paths_have_slashes(files[i], registry::paths_of(files), path);
        assert(files[i].path == path);
    }
}

proof fn lemma_first_file(
    found: Option<Seq<char>>,
    files: Seq<FileView>,
    paths: Seq<Seq<char>>,
)
    requires
        finds_first(found, registry::registry(files), paths),
        forall|i: int| 0 <= i < paths.len() ==> !no_slash(#[trigger] paths[i]),
    ensures
        finds_first_file(found, files, paths),
{
    let m = registry::registry(files);
    assert forall|i: int| 0 <= i < paths.len() implies (m.contains_key(#[trigger] paths[i])
        <==> has_file(files, paths[i])) && (has_file(files, paths[i]) ==> m[paths[i]]
        == paths[i]) by {
        paths_with_slashes_are_their_own(files, paths[i]);
    }
    assert forall|i: int|
        0 <= i < paths.len() && has_file(files, #[trigger] paths[i]) && (forall|j: int|
            0 <= j < i ==> !has_file(files, #[trigger] paths[j])) implies found == Some(
        paths[i],
    ) by {
        assert(m.contains_key(paths[i]));
        assert forall|j: int| 0 <= j < i implies !m.contains_key(#[trigger] paths[j]) by {
            assert(!has_file(files, paths[j]));
        }
    }
}

proof fn lemma_slash(a: Seq<char>, b: Seq<char>, c: Seq<char>)
    ensures
        !no_slash(a + "/"@ + b + c),
{
    reveal_strlit("/");
    assert((a + "/"@ + b + c)[a.len() as int] == '/');
}

/// In a project, an import `./name` in a file of JavaScript in the directory `dir` stands for the file
/// `dir/name` with the first of the suffixes of the language that there is, or else for the file
/// `dir/name/index` with it.
pub proof fn javascript_imports_stand_for_project_files(
    dir: Seq<char>,
    file: Seq<char>,
    name: Seq<char>,
    files: Seq<FileView>,
    root: Option<Seq<char>>,
)
    requires
        dir.len() > 0,
        plain_path(dir),
        no_slash(file),
        plain_path(name),
        !text::white_space(dir[0]),
        !text::white_space(name.last()),
    ensures
        finds_first_file(
            resolve::target(
                "./"@ + name,
                dir + "/"@ + file,
                Language::JavaScript,
                registry::registry(files),
                root,
            ),
            files,
            seq![
                dir + "/"@ + name + ".js"@,
                dir + "/"@ + name + ".jsx"@,
                dir + "/"@ + name + ".mjs"@,
                dir + "/"@ + name + ".cjs"@,
                dir + "/"@ + name + "/index.js"@,
                dir + "/"@ + name + "/index.jsx"@,
                dir + "/"@ + name + "/index.mjs"@,
                dir + "/"@ + name + "/index.cjs"@,
            ],
        ),
{
    let m = registry::registry(files);
    assert(below(dir, name)[0] == dir[0]);
    javascript_imports_find_their_files(dir, file, name, m, root);
    assert forall|c: Seq<char>| !no_slash(#[trigger] (dir + "/"@ + name + c)) by {
        lemma_slash(dir, name, c);
    }
    let b = dir + "/"@ + name;
    lemma_first_file(
        resolve::target("./"@ + name, dir + "/"@ + file, Language::JavaScript, m, root),
        files,
        seq![
            b + ".js"@,
            b + ".jsx"@,
            b + ".mjs"@,
            b + ".cjs"@,
            b + "/index.js"@,
            b + "/index.jsx"@,
            b + "/index.mjs"@,
            b + "/index.cjs"@,
        ],
    );
}

/// In a project, an import `./name` in a file of TypeScript in the directory `dir` stands for the file
/// `dir/name` with the first of the suffixes of the language that there is, or else for the file
/// `dir/name/index` with it.
pub proof fn typescript_imports_stand_for_project_files(
    dir: Seq<char>,
    file: Seq<char>,
    name: Seq<char>,
    files: Seq<FileView>,
    root: Option<Seq<char>>,
)
    requires
        dir.len() > 0,
        plain_path(dir),
        no_slash(file),
        plain_path(name),
        !text::white_space(dir[0]),
        !text::white_space(name.last()),
    ensures
        finds_first_file(
            resolve::target(
                "./"@ + name,
                dir + "/"@ + file,
                Language::TypeScript,
                registry::registry(files),
                root,
            ),
            files,
            seq![
                dir + "/"@ + name + ".ts"@,
                dir + "/"@ + name + ".tsx"@,
                dir + "/"@ + name + "/index.ts"@,
                dir + "/"@ + name + "/index.tsx"@,
            ],
        ),
{
    let m = registry::registry(files);
    assert(below(dir, name)[0] == dir[0]);
    typescript_imports_find_their_files(dir, file, name, m, root);
    assert forall|c: Seq<char>| !no_slash(#[trigger] (dir + "/"@ + name + c)) by {
        lemma_slash(dir, name, c);
    }
    let b = dir + "/"@ + name;
    lemma_first_file(
        resolve::target("./"@ + name, dir + "/"@ + file, Language::TypeScript, m, root),
        files,
        seq![
            b + ".ts"@,
            b + ".tsx"@,
            b + "/index.ts"@,
            b + "/index.tsx"@,
        ],
    );
}

/// In a project, an import `./name` in a file of Python in the directory `dir` stands for the file
/// `dir/name` with the first of the suffixes of the language that there is, or else for the file
/// `dir/name/index` with it.
pub proof fn python_imports_stand_for_project_files(
    dir: Seq<char>,
    file: Seq<char>,
    name: Seq<char>,
    files: Seq<FileView>,
    root: Option<Seq<char>>,
)
    requires
        dir.len() > 0,
        plain_path(dir),
        no_slash(file),
        plain_path(name),
        !text::white_space(dir[0]),
        !text::white_space(name.last()),
    ensures
        finds_first_file(
            resolve::target(
                "./"@ + name,
                dir + "/"@ + file,
                Language::Python,
                registry::registry(files),
                root,
            ),
            files,
            seq![
                dir + "/"@ + name + ".py"@,
                dir + "/"@ + name + "/__init__.py"@,
                dir + "/"@ + name + "/index.py"@,
                dir + "/"@ + name + "/index/__init__.py"@,
            ],
        ),
{
    let m = registry::registry(files);
    assert(below(dir, name)[0] == dir[0]);
    python_imports_find_their_files(dir, file, name, m, root);
    assert forall|c: Seq<char>| !no_slash(#[trigger] (dir + "/"@ + name + c)) by {
        lemma_slash(dir, name, c);
    }
    let b = dir + "/"@ + name;
    lemma_first_file(
        resolve::target("./"@ + name, dir + "/"@ + file, Language::Python, m, root),
        files,
        seq![
            b + ".py"@,
            b + "/__init__.py"@,
            b + "/index.py"@,
            b + "/index/__init__.py"@,
        ],
    );
}

/// In a project, an import `./name` in a file of Rust in the directory `dir` stands for the file
/// `dir/name` with the first of the suffixes of the language that there is, or else for the file
/// `dir/name/index` with it.
pub proof fn rust_imports_stand_for_project_files(
    dir: Seq<char>,
    file: Seq<char>,
    name: Seq<char>,
    files: Seq<FileView>,
    root: Option<Seq<char>>,
)
    requires
        dir.len() > 0,
        plain_path(dir),
        no_slash(file),
        plain_path(name),
        !text::white_space(dir[0]),
        !text::white_space(name.last()),
    ensures
        finds_first_file(
            resolve::target(
                "./"@ + name,
                dir + "/"@ + file,
                Language::Rust,
                registry::registry(files),
                root,
            ),
            files,
            seq![
                dir + "/"@ + name + ".rs"@,
                dir + "/"@ + name + "/index.rs"@,
            ],
        ),
{
    let m = registry::registry(files);
    assert(below(dir, name)[0] == dir[0]);
    rust_imports_find_their_files(dir, file, name, m, root);
    assert forall|c: Seq<char>| !no_slash(#[trigger] (dir + "/"@ + name + c)) by {
        lemma_slash(dir, name, c);
    }
    let b = dir + "/"@ + name;
    lemma_first_file(
        resolve::target("./"@ + name, dir + "/"@ + file, Language::Rust, m, root),
        files,
        seq![
            b + ".rs"@,
            b + "/index.rs"@,
        ],
    );
}

/// A component that leaves no trace where there is nothing above: empty, `.` or `..`.
pub open spec fn is_step(part: Seq<char>) -> bool {
    part.len() == 0 || part == "."@ || part == ".."@
}

proof fn lemma_steps_vanish(parts: Seq<Seq<char>>)
    requires
        forall|i: int| 0 <= i < parts.len() ==> is_step(#[trigger] parts[i]),
    ensures
        resolve::clean_parts(parts).len() == 0,
    decreases parts.len(),
{
    if parts.len() > 0 {
        let front = parts.drop_last();
        assert forall|i: int| 0 <= i < front.len() implies is_step(#[trigger] front[i]) by {
            assert(front[i] == parts[i]);
        }
        lemma_steps_vanish(front);
        assert(is_step(parts[parts.len() - 1]));
    }
}

/// A relative import that leads to the directory of the project itself stands for nothing.
pub proof fn imports_of_the_project_stand_for_nothing(
    spec: Seq<char>,
    file: Seq<char>,
    lang: Language,
    registry: Map<Seq<char>, Seq<char>>,
    root: Option<Seq<char>>,
)
    requires
        no_slash(file),
        text::trim(spec) == spec,
        spec.len() > 0,
        spec[0] == '.',
        forall|i: int|
            0 <= i < text::split(spec, Class::Only('/')).len() ==> is_step(
                #[trigger] text::split(spec, Class::Only('/'))[i],
            ),
    ensures
        resolve::target(spec, file, lang, registry, root) is None,
{
    let k = Class::Only('/');
    let none = Seq::<char>::empty();
    lemma_directory(none, file);
    assert(below(none, file) =~= file);
    lemma_split_slash(none, spec);
    text::lemma_split_whole(none, k);
    let path = none + "/"@ + spec;
    let parts = text::split(path, k);
    let own = text::split(spec, k);
    assert(parts =~= seq![none] + own);
    assert forall|i: int| 0 <= i < parts.len() implies is_step(#[trigger] parts[i]) by {
        if i > 0 {
            assert(parts[i] == own[i - 1]);
        }
    }
    lemma_steps_vanish(parts);
    assert(resolve::cleaned(path) =~= none);
    assert(text::trim(none) =~= none);
}

/// An import `.` in a directory stands for what an import of the directory by its name from the one
/// above stands for.
pub proof fn one_dot_is_the_directory(
    dir: Seq<char>,
    sub: Seq<char>,
    file: Seq<char>,
    lang: Language,
    registry: Map<Seq<char>, Seq<char>>,
    root: Option<Seq<char>>,
)
    requires
        dir.len() > 0 ==> plain_path(dir),
        resolve::lasting(sub),
        no_slash(sub),
        no_slash(file),
        !text::white_space(below(dir, sub)[0]),
        !text::white_space(sub.last()),
    ensures
        resolve::target("."@, below(below(dir, sub), file), lang, registry, root)
            == resolve::target("./"@ + sub, below(dir, file), lang, registry, root),
{
    let k = Class::Only('/');
    reveal_strlit(".");
    reveal_strlit("/");
    assert("/"@ =~= seq!['/']);
    text::lemma_split_whole(sub, k);
    assert(plain_path(sub));
    lemma_relative(dir, file, sub, lang, registry, root);
    let inner = below(dir, sub);
    lemma_directory(inner, file);
    lemma_not_trimmed("."@);
    let path = inner + "/"@ + "."@;
    lemma_split_slash(inner, "."@);
    text::lemma_split_whole("."@, k);
    let parts = text::split(inner, k);
    if dir.len() > 0 {
        lemma_split_slash(dir, sub);
    }
    assert(text::split(path, k) =~= parts.push("."@));
    assert(parts.push("."@).drop_last() =~= parts);
    let d = components(dir);
    assert(parts =~= d + seq![sub]);
    assert forall|i: int| 0 <= i < parts.len() implies resolve::lasting(#[trigger] parts[i]) by {
        if i < d.len() {
            assert(parts[i] == text::split(dir, k)[i]);
        }
    }
    lemma_lasting_parts_follow(seq![], parts);
    assert(seq![] + parts =~= parts);
    assert(resolve::clean_parts(seq![]) + parts =~= parts);
    text::lemma_join_split(inner, '/');
    assert(resolve::cleaned(path) == inner);
    assert(inner.last() == sub.last());
    lemma_not_trimmed(inner);
}

} // verus!
