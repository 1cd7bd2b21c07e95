//! How the files of a project are put into directories and tied by their imports.
use vstd::prelude::*;

use crate::collections;
use crate::laws::relative_imports;
use crate::model::{FileView, Language};
use crate::order;
use crate::ranking;
use crate::registry;
use crate::resolve;
use crate::structure;
use crate::text;
use crate::text::Class;

verus! {

// ---------------------------------------------------------------------------
// The order of texts
// ---------------------------------------------------------------------------

/// The first character in which two texts differ decides which comes first, and a text comes
/// before all that continue it.
pub proof fn first_difference_decides(
    start: Seq<char>,
    x: char,
    y: char,
    s: Seq<char>,
    t: Seq<char>,
)
    ensures
        x != y ==> (order::before(start + seq![x] + s, start + seq![y] + t) <==> x < y),
        order::before(start, start + seq![x] + s),
        !order::before(start + seq![x] + s, start),
    decreases start.len(),
{
    let a = start + seq![x] + s;
    let b = start + seq![y] + t;
    if start.len() > 0 {
        let rest = start.drop_first();
        first_difference_decides(rest, x, y, s, t);
        assert(a[0] == start[0] && b[0] == start[0]);
        assert(a.drop_first() =~= rest + seq![x] + s);
        assert(b.drop_first() =~= rest + seq![y] + t);
    } else {
        assert(a[0] == x && b[0] == y);
    }
}

// ---------------------------------------------------------------------------
// Dependencies
// ---------------------------------------------------------------------------

/// A file has an import that stands for a path.
pub open spec fn imports_path(
    file: FileView,
    keys: Map<Seq<char>, Seq<char>>,
    path: Seq<char>,
) -> bool {
    exists|k: int|
        0 <= k < file.imports.len() && resolve::target(
            #[trigger] file.imports[k],
            file.path,
            file.language,
            keys,
            if file.language == Language::Rust {
                resolve::crate_root(file.path)
            } else {
                None
            },
        ) == Some(path)
}

proof fn lemma_resolved(
    file: FileView,
    keys: Map<Seq<char>, Seq<char>>,
    n: int,
    path: Seq<char>,
)
    requires
        0 <= n <= file.imports.len(),
    ensures
        structure::resolved(file, file.imports.take(n), keys).contains(path) <==> path != file.path
            && exists|k: int|
            0 <= k < n && resolve::target(
                #[trigger] file.imports[k],
                file.path,
                file.language,
                keys,
                structure::root_of(file),
            ) == Some(path),
    decreases n,
{
    let all = structure::resolved(file, file.imports.take(n), keys);
    if n > 0 {
        lemma_resolved(file, keys, n - 1, path);
        assert(file.imports.take(n).drop_last() =~= file.imports.take(n - 1));
        assert(file.imports.take(n).last() == file.imports[n - 1]);
        let front = structure::resolved(file, file.imports.take(n - 1), keys);
        let found = resolve::target(
            file.imports[n - 1],
            file.path,
            file.language,
            keys,
            structure::root_of(file),
        );
        if front.contains(path) {
            let i = front.index_of(path);
            assert(all[i] == path);
        }
        if all.contains(path) {
            let i = all.index_of(path);
            if i < front.len() {
                assert(front[i] == path);
            } else {
                assert(found == Some(path));
            }
        }
        if found == Some(path) && path != file.path {
            assert(all[front.len() as int] == path);
        }
    } else if all.contains(path) {
        let i = all.index_of(path);
    }
}

/// A file depends on the files that its imports stand for, but not on itself; in Rust its crate
/// root is known. Each of them counts once, and they are in the order of their paths.
pub proof fn files_depend_on_what_they_import(
    file: FileView,
    keys: Map<Seq<char>, Seq<char>>,
    path: Seq<char>,
)
    ensures
        structure::imports_from(file, keys).contains(path) <==> path != file.path && imports_path(
            file,
            keys,
            path,
        ),
        forall|a: int, b: int|
            0 <= a < b < structure::imports_from(file, keys).len() ==> order::before(
                #[trigger] structure::imports_from(file, keys)[a],
                #[trigger] structure::imports_from(file, keys)[b],
            ),
{
    let n = file.imports.len() as int;
    assert(file.imports.take(n) =~= file.imports);
    lemma_resolved(file, keys, n, path);
    order::distinct_is_increasing(structure::resolved(file, file.imports, keys));
}

proof fn lemma_recorded_in_order<B>(pairs: Seq<(Seq<char>, B)>)
    requires
        collections::distinct_keys(pairs),
    ensures
        collections::all_recorded(pairs) == pairs,
    decreases pairs.len(),
{
    if pairs.len() > 0 {
        let front = pairs.drop_last();
        lemma_recorded_in_order(front);
        let key = pairs.last().0;
        collections::lemma_key_place(front, key);
        if let Some(i) = collections::key_place(front, key) {
            assert(front[i] == pairs[i]);
            assert(pairs[i].0 != pairs[pairs.len() - 1].0);
        }
        assert(front.push((key, pairs.last().1)) =~= pairs);
    } else {
        assert(collections::all_recorded(pairs) =~= pairs);
    }
}

/// The graph has an entry for each file, in the order of the files: its path, and what it depends
/// on among the names that the files offer.
pub proof fn graphs_have_an_entry_for_each_file(files: Seq<FileView>)
    requires
        forall|i: int, j: int|
            0 <= i < j < files.len() ==> (#[trigger] files[i]).path != (#[trigger] files[j]).path,
    ensures
        structure::graph_of(files).len() == files.len(),
        forall|i: int|
            0 <= i < files.len() ==> (#[trigger] structure::graph_of(files)[i]).0 == files[i].path
                && structure::graph_of(files)[i].1 == structure::imports_from(
                files[i],
                registry::registry(files),
            ),
{
    let edges = structure::edges(files);
    assert forall|i: int, j: int| 0 <= i < j < edges.len() implies edges[i].0 != edges[j].0 by {
        assert(files[i].path != files[j].path);
    }
    lemma_recorded_in_order(edges);
}

/// One more entry of a graph that names a file is one more dependent of the file, and one that does
/// not is none; without entries a file has none.
pub proof fn dependents_are_counted_once(
    graph: Seq<(Seq<char>, Seq<Seq<char>>)>,
    file: Seq<char>,
    names: Seq<Seq<char>>,
    path: Seq<char>,
)
    requires
        names.no_duplicates(),
    ensures
        collections::dependents(seq![], path) == 0,
        names.contains(path) ==> collections::dependents(graph.push((file, names)), path)
            == collections::dependents(graph, path) + 1,
        !names.contains(path) ==> collections::dependents(graph.push((file, names)), path)
            == collections::dependents(graph, path),
{
    assert(graph.push((file, names)).drop_last() =~= graph);
    lemma_occurrences(names, path);
}

proof fn lemma_occurrences(names: Seq<Seq<char>>, path: Seq<char>)
    requires
        names.no_duplicates(),
    ensures
        collections::occurrences(names, path) == if names.contains(path) {
            1nat
        } else {
            0nat
        },
    decreases names.len(),
{
    if names.len() > 0 {
        let front = names.drop_last();
        let n = names.len() - 1;
        assert forall|i: int, j: int|
            0 <= i < front.len() && 0 <= j < front.len() && i != j implies front[i] != front[j] by {
            assert(names[i] != names[j]);
        }
        lemma_occurrences(front, path);
        assert(names[n] == names.last());
        if front.contains(path) {
            let i = front.index_of(path);
            assert(names[i] == path);
            assert(names[i] != names[n]);
        }
        if names.contains(path) {
            let i = names.index_of(path);
            if i < n {
                assert(front[i] == path);
            }
        }
    }
}

// ---------------------------------------------------------------------------
// Directories
// ---------------------------------------------------------------------------

proof fn lemma_before_last(a: Seq<char>, b: Seq<char>)
    requires
        relative_imports::no_slash(b),
    ensures
        text::before_last(a + "/"@ + b, Class::Only('/')) == Some(a),
        text::before_last(b, Class::Only('/')) is None,
    decreases b.len(),
{
    reveal_strlit("/");
    let s = a + "/"@ + b;
    if b.len() == 0 {
        assert(s.last() == '/');
        assert(s.drop_last() =~= a);
    } else {
        let front = b.drop_last();
        assert(b[b.len() - 1] != '/');
        assert forall|j: int| 0 <= j < front.len() implies #[trigger] front[j] != '/' by {
            assert(b[j] != '/');
        }
        lemma_before_last(a, front);
        assert(s.last() == b.last());
        assert(s.drop_last() =~= a + "/"@ + front);
    }
}

/// A path whose components stay has no empty start and no `.` in front.
proof fn lemma_plain_start(path: Seq<char>)
    requires
        path.len() > 0,
        relative_imports::plain_path(path),
    ensures
        structure::body_start(path) == 0,
{
    let k = Class::Only('/');
    let parts = text::split(path, k);
    reveal_strlit("/");
    reveal_strlit(".");
    text::lemma_pieces_are_free(path, k);
    assert(resolve::lasting(parts[0]));
    if path[0] == '/' {
        text::lemma_position_is(path, k, 0);
        assert(parts[0] =~= seq![]);
    }
    if path.len() > 1 && path[0] == '.' && path[1] == '/' {
        text::lemma_position_is(path, k, 1);
        assert(path.take(1) =~= "."@);
        assert(parts[0] == path.take(1));
    }
    if path.len() == 1 && path[0] == '.' {
        text::lemma_split_whole(path, k);
        assert(path =~= "."@);
    }
}

/// The directory and the name of a path whose components stay.
proof fn lemma_last_component(dir: Seq<char>, name: Seq<char>)
    requires
        relative_imports::plain_path(relative_imports::below(dir, name)),
        relative_imports::no_slash(name),
        resolve::lasting(name),
    ensures
        structure::trim_tail(relative_imports::below(dir, name)) == relative_imports::below(
            dir,
            name,
        ),
        structure::cut_component(relative_imports::below(dir, name)) == dir,
        structure::body_start(relative_imports::below(dir, name)) == 0,
{
    let path = relative_imports::below(dir, name);
    reveal_strlit("/");
    lemma_plain_start(path);
    lemma_before_last(dir, name);
    assert(path.skip(0) =~= path);
    assert(path.take(0) =~= seq![]);
    if dir.len() > 0 {
        assert(path.take(0) + dir =~= dir);
        assert(path.skip(dir.len() as int + 1) =~= name);
    } else {
        assert(dir =~= seq![]);
    }
}

/// The directory of a file is what stands before its name; a file that stands in none is in the
/// directory with the empty path.
pub proof fn files_are_in_their_directory(dir: Seq<char>, name: Seq<char>)
    requires
        dir.len() == 0 || relative_imports::plain_path(dir),
        relative_imports::no_slash(name),
        resolve::lasting(name),
    ensures
        dir.len() > 0 ==> structure::directory_of(dir + "/"@ + name) == dir,
        structure::directory_of(name) == Seq::<char>::empty(),
{
    let k = Class::Only('/');
    reveal_strlit("/");
    let none = Seq::<char>::empty();
    text::lemma_split_whole(name, k);
    assert(relative_imports::below(none, name) =~= name);
    lemma_last_component(none, name);
    assert(structure::trim_tail(none) == none);
    if dir.len() > 0 {
        let path = dir + "/"@ + name;
        assert(path =~= dir.push('/') + name);
        text::lemma_split_concat(dir, '/', name, k);
        let parts = text::split(path, k);
        let front = text::split(dir, k);
        assert forall|i: int| 0 <= i < parts.len() implies resolve::lasting(#[trigger] parts[i]) by {
            if i < front.len() {
                assert(parts[i] == front[i]);
            }
        }
        lemma_last_component(dir, name);
        lemma_directory_stays(dir);
    }
}

/// A path whose components stay keeps its end.
proof fn lemma_directory_stays(dir: Seq<char>)
    requires
        dir.len() > 0,
        relative_imports::plain_path(dir),
    ensures
        structure::trim_tail(dir) == dir,
{
    let k = Class::Only('/');
    reveal_strlit("/");
    assert("/"@ =~= seq!['/']);
    let parts = text::split(dir, k);
    text::lemma_pieces_are_free(dir, k);
    text::lemma_join_split(dir, '/');
    let name = parts.last();
    assert(resolve::lasting(parts[parts.len() - 1]));
    assert(relative_imports::no_slash(name)) by {
        assert forall|j: int| 0 <= j < name.len() implies #[trigger] name[j] != '/' by {
            assert(!k.has(parts[parts.len() - 1][j]));
        }
    }
    let front = text::join(parts.drop_last(), "/"@);
    if parts.len() == 1 {
        assert(parts.drop_last() =~= seq![]);
        assert(front =~= seq![]);
        assert(relative_imports::below(front, name) =~= dir);
    } else {
        assert(dir == front + "/"@ + name);
        if front.len() == 0 {
            lemma_plain_start(dir);
            assert(dir[0] == '/');
        }
    }
    lemma_last_component(front, name);
}

proof fn lemma_files_in(files: Seq<FileView>, dir: Seq<char>, path: Seq<char>)
    ensures
        structure::paths(structure::files_in(files, dir)).contains(path) <==> exists|i: int|
            0 <= i < files.len() && (#[trigger] files[i]).path == path && structure::directory_of(
                path,
            ) == dir,
    decreases files.len(),
{
    let inside = structure::files_in(files, dir);
    let all = structure::paths(inside);
    if files.len() > 0 {
        let rest = files.drop_last();
        let n = files.len() - 1;
        lemma_files_in(rest, dir, path);
        let before = structure::files_in(rest, dir);
        let front = structure::paths(before);
        assert(files[n] == files.last());
        if front.contains(path) {
            let i = front.index_of(path);
            assert(inside[i] == before[i]);
            assert(all[i] == path);
            let k = choose|k: int|
                0 <= k < rest.len() && (#[trigger] rest[k]).path == path
                    && structure::directory_of(path) == dir;
            assert(files[k] == rest[k]);
        }
        if all.contains(path) {
            let i = all.index_of(path);
            if i < before.len() {
                assert(inside[i] == before[i]);
                assert(front[i] == path);
            } else {
                assert(files[n].path == path);
            }
        }
        if exists|i: int|
            0 <= i < files.len() && (#[trigger] files[i]).path == path && structure::directory_of(
                path,
            ) == dir {
            let i = choose|i: int|
                0 <= i < files.len() && (#[trigger] files[i]).path == path
                    && structure::directory_of(path) == dir;
            if i < n {
                assert(rest[i] == files[i]);
            } else {
                assert(all[before.len() as int] == path);
            }
        }
    } else if all.contains(path) {
        let i = all.index_of(path);
    }
}

/// Each directory of the map is that of a file. It has as many files as it counts, and they are
/// those of the project that are in the directory, in the order of their paths.
pub proof fn directories_hold_their_files(files: Seq<FileView>, a: int, path: Seq<char>)
    requires
        0 <= a < structure::structure_of(files).len(),
    ensures
        exists|i: int|
            0 <= i < files.len() && structure::directory_of((#[trigger] files[i]).path)
                == structure::structure_of(files)[a].path,
        structure::structure_of(files)[a].file_count == structure::structure_of(
            files,
        )[a].files.len(),
        structure::structure_of(files)[a].files.contains(path) <==> relative_imports::has_file(
            files,
            path,
        ) && structure::directory_of(path) == structure::structure_of(files)[a].path,
        forall|i: int, j: int|
            0 <= i < j < structure::structure_of(files)[a].files.len() ==> structure::structure_of(
                files,
            )[a].files[i] == structure::structure_of(files)[a].files[j] || order::before(
                #[trigger] structure::structure_of(files)[a].files[i],
                #[trigger] structure::structure_of(files)[a].files[j],
            ),
{
    let names = structure::directories(files);
    let dirs = order::distinct(names);
    order::distinct_is_increasing(names);
    let dir = dirs[a];
    let d = structure::structure_of(files)[a];
    let inside = structure::files_in(files, dir);
    order::lemma_sorted(structure::paths(inside));
    lemma_files_in(files, dir, path);
    assert(dirs.contains(dir));
    assert(names.contains(dir));
    let i = names.index_of(dir);
    assert(structure::directory_of(files[i].path) == dir);
    assert(d.files.contains(path) <==> structure::paths(inside).contains(path));
}

// ---------------------------------------------------------------------------
// Roles
// ---------------------------------------------------------------------------

/// A text holds one of some words.
pub open spec fn holds_any(s: Seq<char>, words: Seq<Seq<char>>) -> bool {
    exists|i: int| 0 <= i < words.len() && text::contains(s, #[trigger] words[i])
}

proof fn lemma_holds_two(s: Seq<char>, a: Seq<char>, b: Seq<char>)
    ensures
        holds_any(s, seq![a, b]) <==> text::contains(s, a) || text::contains(s, b),
{
    let w = seq![a, b];
    assert(w[0] == a && w[1] == b);
}

proof fn lemma_holds_three(s: Seq<char>, a: Seq<char>, b: Seq<char>, c: Seq<char>)
    ensures
        holds_any(s, seq![a, b, c]) <==> text::contains(s, a) || text::contains(s, b)
            || text::contains(s, c),
{
    let w = seq![a, b, c];
    assert(w[0] == a && w[1] == b && w[2] == c);
}

proof fn lemma_holds_four(s: Seq<char>, a: Seq<char>, b: Seq<char>, c: Seq<char>, d: Seq<char>)
    ensures
        holds_any(s, seq![a, b, c, d]) <==> text::contains(s, a) || text::contains(s, b)
            || text::contains(s, c) || text::contains(s, d),
{
    let w = seq![a, b, c, d];
    assert(w[0] == a && w[1] == b && w[2] == c && w[3] == d);
}

/// A directory is one of tests: its path in lower case holds `test`, or that of one of its files
/// holds `test` or `spec`.
pub open spec fn is_of_tests(dir: Seq<char>, files: Seq<FileView>) -> bool {
    ||| text::contains(text::lowercase(dir), "test"@)
    ||| exists|i: int|
        0 <= i < files.len() && (text::contains(
            text::lowercase((#[trigger] files[i]).path),
            "test"@,
        ) || text::contains(text::lowercase(files[i].path), "spec"@))
}

proof fn lemma_of_tests(dir: Seq<char>, files: Seq<FileView>)
    ensures
        is_of_tests(dir, files) <==> text::contains(text::lowercase(dir), "test"@)
            || ranking::any_contains(ranking::lower_paths(files), "test"@)
            || ranking::any_contains(ranking::lower_paths(files), "spec"@),
{
    let names = ranking::lower_paths(files);
    assert forall|i: int| 0 <= i < files.len() implies #[trigger] names[i] == text::lowercase(
        files[i].path,
    ) by {}
    if ranking::any_contains(names, "test"@) {
        let i = choose|i: int| 0 <= i < names.len() && text::contains(#[trigger] names[i], "test"@);
        assert(text::contains(text::lowercase(files[i].path), "test"@));
    }
    if ranking::any_contains(names, "spec"@) {
        let i = choose|i: int| 0 <= i < names.len() && text::contains(#[trigger] names[i], "spec"@);
        assert(text::contains(text::lowercase(files[i].path), "spec"@));
    }
    if exists|i: int|
        0 <= i < files.len() && (text::contains(
            text::lowercase((#[trigger] files[i]).path),
            "test"@,
        ) || text::contains(text::lowercase(files[i].path), "spec"@)) {
        let i = choose|i: int|
            0 <= i < files.len() && (text::contains(
                text::lowercase((#[trigger] files[i]).path),
                "test"@,
            ) || text::contains(text::lowercase(files[i].path), "spec"@));
        assert(names[i] == text::lowercase(files[i].path));
    }
}

/// A directory of tests has the role `tests`. For any other the words in its path decide: the
/// first of the lists that has one of them gives the role.
pub proof fn words_in_paths_give_roles(dir: Seq<char>, files: Seq<FileView>)
    ensures
        ({
            let d = text::lowercase(dir);
            let r = ranking::directory_role(dir, files);
            let tests = is_of_tests(dir, files);
            let routes = holds_any(d, seq!["route"@, "controller"@, "handler"@]);
            let models = holds_any(d, seq!["model"@, "entity"@, "schema"@]);
            let views = holds_any(d, seq!["view"@, "template"@, "component"@]);
            let services = holds_any(d, seq!["service"@, "util"@, "helper"@, "lib"@]);
            let middleware = text::contains(d, "middleware"@);
            let config = holds_any(d, seq!["config"@, "setting"@]);
            let migrations = holds_any(d, seq!["migration"@, "seed"@]);
            &&& tests ==> r == "tests"@
            &&& !tests && routes ==> r == "routes"@
            &&& !tests && !routes && models ==> r == "models"@
            &&& !tests && !routes && !models && views ==> r == "views"@
            &&& !tests && !routes && !models && !views && services ==> r == "services"@
            &&& !tests && !routes && !models && !views && !services && middleware ==> r
                == "middleware"@
            &&& !tests && !routes && !models && !views && !services && !middleware && config ==> r
                == "config"@
            &&& !tests && !routes && !models && !views && !services && !middleware && !config
                && migrations ==> r == "migrations"@
            &&& !tests && !routes && !models && !views && !services && !middleware && !config
                && !migrations && (d.len() == 0 || d == "."@) ==> r == "root"@
        }),
{
    let d = text::lowercase(dir);
    lemma_of_tests(dir, files);
    lemma_holds_three(d, "route"@, "controller"@, "handler"@);
    lemma_holds_three(d, "model"@, "entity"@, "schema"@);
    lemma_holds_three(d, "view"@, "template"@, "component"@);
    lemma_holds_four(d, "service"@, "util"@, "helper"@, "lib"@);
    lemma_holds_two(d, "config"@, "setting"@);
    lemma_holds_two(d, "migration"@, "seed"@);
}

/// A directory whose path holds none of the words has the role of its language, where all of its
/// files are of Python, all of TypeScript or all of Rust; where one is of JavaScript, or two are
/// of different languages, its role is `other`.
pub proof fn languages_give_roles(dir: Seq<char>, files: Seq<FileView>, lang: Language)
    requires
        files.len() > 0,
        !is_of_tests(dir, files),
        !holds_any(text::lowercase(dir), seq!["route"@, "controller"@, "handler"@]),
        !holds_any(text::lowercase(dir), seq!["model"@, "entity"@, "schema"@]),
        !holds_any(text::lowercase(dir), seq!["view"@, "template"@, "component"@]),
        !holds_any(text::lowercase(dir), seq!["service"@, "util"@, "helper"@, "lib"@]),
        !text::contains(text::lowercase(dir), "middleware"@),
        !holds_any(text::lowercase(dir), seq!["config"@, "setting"@]),
        !holds_any(text::lowercase(dir), seq!["migration"@, "seed"@]),
        text::lowercase(dir).len() > 0,
        text::lowercase(dir) != "."@,
    ensures
        (forall|i: int| 0 <= i < files.len() ==> (#[trigger] files[i]).language == lang) ==> (
        ranking::directory_role(dir, files) == match lang {
            Language::Python => "python"@,
            Language::TypeScript => "typescript"@,
            Language::Rust => "rust"@,
            Language::JavaScript => "other"@,
            Language::Other => "other"@,
        }),
        forall|i: int|
            0 <= i < files.len() && (#[trigger] files[i]).language == Language::JavaScript
                ==> ranking::directory_role(dir, files) == "other"@,
        forall|i: int, j: int|
            0 <= i < files.len() && 0 <= j < files.len() && (#[trigger] files[i]).language != (
            #[trigger] files[j]).language && files[i].language != Language::Other
                && files[j].language != Language::Other ==> ranking::directory_role(dir, files)
                == "other"@,
{
    let d = text::lowercase(dir);
    lemma_of_tests(dir, files);
    lemma_holds_three(d, "route"@, "controller"@, "handler"@);
    lemma_holds_three(d, "model"@, "entity"@, "schema"@);
    lemma_holds_three(d, "view"@, "template"@, "component"@);
    lemma_holds_four(d, "service"@, "util"@, "helper"@, "lib"@);
    lemma_holds_two(d, "config"@, "setting"@);
    lemma_holds_two(d, "migration"@, "seed"@);
    let py = ranking::has_language(files, Language::Python);
    let ts = ranking::has_language(files, Language::TypeScript);
    let rs = ranking::has_language(files, Language::Rust);
    let js = ranking::has_language(files, Language::JavaScript);
    assert(ranking::directory_role(dir, files) == ranking::role_by_language(py, ts, rs, js));
    assert(files[0].language == files[0].language);
    if forall|i: int| 0 <= i < files.len() ==> (#[trigger] files[i]).language == lang {
        assert(files[0].language == lang);
    }
}

// ---------------------------------------------------------------------------
// Names of files
// ---------------------------------------------------------------------------

proof fn lemma_two_suffixes(a: Seq<char>, x: Seq<char>, b: Seq<char>)
    requires
        x.len() >= 1,
        b.len() >= 1,
        x.len() != b.len() || x != b,
        x.len() == 3 || x.len() == 4,
        b.len() == 3 || b.len() == 4,
        x[0] == '.' && b[0] == '.',
        x.len() != b.len() ==> x[x.len() - 3] != '.' || b[b.len() - 3] != '.',
        x.len() == 4 ==> x[1] != '.',
        b.len() == 4 ==> b[1] != '.',
    ensures
        !text::ends(a + x, b),
{
    let s = a + x;
    if text::ends(s, b) {
        let n = s.len() as int;
        assert(s.subrange(n - b.len(), n) == b);
        if x.len() == b.len() {
            assert(s.subrange(n - b.len(), n) =~= x);
        } else if x.len() == 4 {
            assert(s.subrange(n - 3, n)[0] == s[n - 3]);
            assert(s[n - 3] == x[1]);
        } else {
            assert(s.subrange(n - 4, n)[1] == s[n - 3]);
            assert(s[n - 3] == x[0]);
        }
    }
}

proof fn lemma_own_suffix(a: Seq<char>, x: Seq<char>)
    ensures
        registry::stripped(a + x, x) == Some(a),
{
    let s = a + x;
    let n = s.len() as int;
    assert(s.subrange(n - x.len(), n) =~= x);
    assert(s.take(n - x.len()) =~= a);
}

/// The suffixes that are taken off, one by one.
proof fn lemma_suffixes(s: Seq<char>)
    ensures
        registry::without_suffix(s, registry::source_suffixes()) == match registry::stripped(
            s,
            ".py"@,
        ) {
            Some(t) => t,
            None => match registry::stripped(s, ".rs"@) {
                Some(t) => t,
                None => match registry::stripped(s, ".tsx"@) {
                    Some(t) => t,
                    None => match registry::stripped(s, ".ts"@) {
                        Some(t) => t,
                        None => match registry::stripped(s, ".jsx"@) {
                            Some(t) => t,
                            None => match registry::stripped(s, ".js"@) {
                                Some(t) => t,
                                None => match registry::stripped(s, ".mjs"@) {
                                    Some(t) => t,
                                    None => match registry::stripped(s, ".cjs"@) {
                                        Some(t) => t,
                                        None => s,
                                    },
                                },
                            },
                        },
                    },
                },
            },
        },
{
    let a = registry::source_suffixes();
    let b = a.drop_first();
    let c = b.drop_first();
    let d = c.drop_first();
    let e = d.drop_first();
    let f = e.drop_first();
    let g = f.drop_first();
    let h = g.drop_first();
    let i = h.drop_first();
    assert(a[0] == ".py"@ && b[0] == ".rs"@ && c[0] == ".tsx"@ && d[0] == ".ts"@);
    assert(e[0] == ".jsx"@ && f[0] == ".js"@ && g[0] == ".mjs"@ && h[0] == ".cjs"@);
    assert(i.len() == 0);
    assert(registry::without_suffix(s, i) == s);
    assert(registry::without_suffix(s, h) == match registry::stripped(s, ".cjs"@) {
        Some(t) => t,
        None => s,
    });
    assert(registry::without_suffix(s, g) == match registry::stripped(s, ".mjs"@) {
        Some(t) => t,
        None => registry::without_suffix(s, h),
    });
    assert(registry::without_suffix(s, f) == match registry::stripped(s, ".js"@) {
        Some(t) => t,
        None => registry::without_suffix(s, g),
    });
    assert(registry::without_suffix(s, e) == match registry::stripped(s, ".jsx"@) {
        Some(t) => t,
        None => registry::without_suffix(s, f),
    });
    assert(registry::without_suffix(s, d) == match registry::stripped(s, ".ts"@) {
        Some(t) => t,
        None => registry::without_suffix(s, e),
    });
    assert(registry::without_suffix(s, c) == match registry::stripped(s, ".tsx"@) {
        Some(t) => t,
        None => registry::without_suffix(s, d),
    });
    assert(registry::without_suffix(s, b) == match registry::stripped(s, ".rs"@) {
        Some(t) => t,
        None => registry::without_suffix(s, c),
    });
}

proof fn lemma_file_name(dir: Seq<char>, name: Seq<char>)
    requires
        relative_imports::no_slash(name),
    ensures
        registry::file_name(relative_imports::below(dir, name)) == name,
{
    let k = Class::Only('/');
    reveal_strlit("/");
    text::lemma_split_whole(name, k);
    if dir.len() > 0 {
        let path = dir + "/"@ + name;
        assert(path =~= dir.push('/') + name);
        text::lemma_split_concat(dir, '/', name, k);
        assert((text::split(dir, k) + seq![name]).last() == name);
    }
}

/// The suffix of a source file: each of them.
pub open spec fn is_source_suffix(suffix: Seq<char>) -> bool {
    ||| suffix == ".py"@
    ||| suffix == ".rs"@
    ||| suffix == ".ts"@
    ||| suffix == ".tsx"@
    ||| suffix == ".js"@
    ||| suffix == ".jsx"@
    ||| suffix == ".mjs"@
    ||| suffix == ".cjs"@
}

proof fn lemma_suffix_off(name: Seq<char>, x: Seq<char>)
    requires
        is_source_suffix(x),
    ensures
        registry::without_suffix(name + x, registry::source_suffixes()) == name,
{
    reveal_strlit(".py");
    reveal_strlit(".rs");
    reveal_strlit(".ts");
    reveal_strlit(".tsx");
    reveal_strlit(".js");
    reveal_strlit(".jsx");
    reveal_strlit(".mjs");
    reveal_strlit(".cjs");
    lemma_suffixes(name + x);
    lemma_own_suffix(name, x);
    assert(".py"@[1] == 'p' && ".rs"@[1] == 'r' && ".ts"@[1] == 't' && ".tsx"@[1] == 't');
    assert(".js"@[1] == 'j' && ".jsx"@[1] == 'j' && ".mjs"@[1] == 'm' && ".cjs"@[1] == 'c');
    if x != ".py"@ {
        lemma_two_suffixes(name, x, ".py"@);
    }
    if x != ".rs"@ {
        lemma_two_suffixes(name, x, ".rs"@);
    }
    if x != ".ts"@ {
        lemma_two_suffixes(name, x, ".ts"@);
    }
    if x != ".tsx"@ {
        lemma_two_suffixes(name, x, ".tsx"@);
    }
    if x != ".js"@ {
        lemma_two_suffixes(name, x, ".js"@);
    }
    if x != ".jsx"@ {
        lemma_two_suffixes(name, x, ".jsx"@);
    }
    if x != ".mjs"@ {
        lemma_two_suffixes(name, x, ".mjs"@);
    }
}

/// A file is registered under its name without its directory and without the suffix of a source
/// file.
pub proof fn files_are_registered_by_name(
    files: Seq<FileView>,
    i: int,
    dir: Seq<char>,
    name: Seq<char>,
    suffix: Seq<char>,
)
    requires
        0 <= i < files.len(),
        is_source_suffix(suffix),
        relative_imports::no_slash(name),
        files[i].path == relative_imports::below(dir, name + suffix),
    ensures
        registry::stem(files[i].path) == name,
        registry::registry(files).contains_key(name),
        registry::registry(files)[name] == files[i].path || order::before(
            registry::registry(files)[name],
            files[i].path,
        ),
{
    reveal_strlit(".py");
    reveal_strlit(".rs");
    reveal_strlit(".ts");
    reveal_strlit(".tsx");
    reveal_strlit(".js");
    reveal_strlit(".jsx");
    reveal_strlit(".mjs");
    reveal_strlit(".cjs");
    let full = name + suffix;
    assert(relative_imports::no_slash(full)) by {
        assert forall|j: int| 0 <= j < full.len() implies #[trigger] full[j] != '/' by {
            if j < name.len() {
                assert(full[j] == name[j]);
            } else {
                assert(full[j] == suffix[j - name.len()]);
            }
        }
    }
    lemma_file_name(dir, full);
    lemma_suffix_off(name, suffix);
    let keys = registry::offered(files[i], registry::paths_of(files));
    assert(keys[1] == name);
    registry::offered_names_are_registered(files, i, name);
}

/// The directories from a place on are packages of Python: in each of them there is an
/// `__init__.py`.
pub open spec fn are_packages(files: Seq<FileView>, dirs: Seq<Seq<char>>, from: int) -> bool {
    forall|k: int|
        from <= k < dirs.len() ==> relative_imports::has_file(
            files,
            text::join(#[trigger] dirs.take(k + 1), "/"@) + "/__init__.py"@,
        )
}

/// A module of Python is registered under its dotted name from every directory on from which all
/// directories down to it are packages; an `__init__.py` under that of its package.
pub proof fn python_modules_are_registered_by_dotted_names(
    files: Seq<FileView>,
    i: int,
    dirs: Seq<Seq<char>>,
    name: Seq<char>,
    from: int,
)
    requires
        0 <= i < files.len(),
        files[i].language == Language::Python,
        0 <= from < dirs.len(),
        forall|k: int| 0 <= k < dirs.len() ==> relative_imports::no_slash(#[trigger] dirs[k]),
        relative_imports::no_slash(name),
        files[i].path == text::join(dirs, "/"@) + "/"@ + name + ".py"@,
        are_packages(files, dirs, from),
    ensures
        name == "__init__"@ ==> registry::registry(files).contains_key(
            text::join(dirs.skip(from), "."@),
        ),
        name != "__init__"@ ==> registry::registry(files).contains_key(
            text::join(dirs.skip(from), "."@) + "."@ + name,
        ),
{
    let k = Class::Only('/');
    reveal_strlit("/");
    reveal_strlit(".py");
    reveal_strlit("__init__");
    reveal_strlit("__init__.py");
    assert("/"@ =~= seq!['/']);
    let path = files[i].path;
    let full = name + ".py"@;
    let dir = text::join(dirs, "/"@);
    let paths = registry::paths_of(files);
    assert(path =~= dir + "/"@ + full);
    assert(relative_imports::no_slash(full)) by {
        assert forall|j: int| 0 <= j < full.len() implies #[trigger] full[j] != '/' by {
            if j < name.len() {
                assert(full[j] == name[j]);
            }
        }
    }
    assert forall|a: int, b: int|
        0 <= a < dirs.len() && 0 <= b < dirs[a].len() implies #[trigger] dirs[a][b] != '/' by {
        assert(relative_imports::no_slash(dirs[a]));
    }
    text::lemma_split_join(dirs, '/');
    text::lemma_split_whole(full, k);
    assert(path =~= dir.push('/') + full);
    text::lemma_split_concat(dir, '/', full, k);
    let parts = text::split(path, k);
    assert(parts =~= dirs.push(full));
    assert(parts.drop_last() =~= dirs);
    let n = path.len() as int;
    assert(path.subrange(n - 3, n) =~= ".py"@);
    assert(registry::package_chain(dirs, from, paths)) by {
        assert forall|m: int| from <= m < dirs.len() implies registry::package(
            text::join(#[trigger] dirs.take(m + 1), "/"@),
            paths,
        ) by {
            assert(relative_imports::has_file(
                files,
                text::join(dirs.take(m + 1), "/"@) + "/__init__.py"@,
            ));
        }
    }
    registry::nested_packages_have_local_names(dirs, full, paths, from, from);
    let key = registry::dotted_name(dirs, full, from);
    lemma_own_suffix(name, ".py"@);
    assert(registry::without_suffix(full, seq![".py"@]) == name) by {
        assert(seq![".py"@][0] == ".py"@);
    }
    if name == "__init__"@ {
        assert(full =~= "__init__.py"@);
    } else if full == "__init__.py"@ {
        assert(name =~= full.take(8));
        assert("__init__"@ =~= "__init__.py"@.take(8));
    }
    let dotted = registry::module_keys(path, paths);
    assert(dotted.contains(key));
    let m = dotted.index_of(key);
    let all = registry::offered(files[i], paths);
    assert(all[2 + m] == key);
    registry::offered_names_are_registered(files, i, key);
}

/// A module of Rust is registered under its path from the crate root, and the root of a crate
/// under `crate`.
pub proof fn rust_modules_are_registered_by_paths(files: Seq<FileView>, i: int)
    requires
        0 <= i < files.len(),
        files[i].language == Language::Rust,
    ensures
        resolve::crate_root(files[i].path) matches Some(root) ==> (resolve::module_of(
            files[i].path,
            root,
        ) matches Some(module) ==> registry::registry(files).contains_key(
            if module.len() == 0 {
                "crate"@
            } else {
                "crate::"@ + text::join(module, "::"@)
            },
        )),
{
    let paths = registry::paths_of(files);
    let all = registry::offered(files[i], paths);
    if let Some(root) = resolve::crate_root(files[i].path) {
        if let Some(module) = resolve::module_of(files[i].path, root) {
            let key = if module.len() == 0 {
                "crate"@
            } else {
                "crate::"@ + text::join(module, "::"@)
            };
            assert(all[2] == key);
            registry::offered_names_are_registered(files, i, key);
        }
    }
}

/// A file offers nothing but its path, its name without suffix, in Python the dotted names of a
/// module in packages and in Rust the path of a module.
pub proof fn files_offer_only_their_names(file: FileView, paths: Set<Seq<char>>, key: Seq<char>)
    requires
        registry::offered(file, paths).contains(key),
        key != file.path,
        key != registry::stem(file.path),
    ensures
        file.language == Language::Python || file.language == Language::Rust,
        file.language == Language::Python ==> text::ends(file.path, ".py"@),
        file.language == Language::Rust ==> resolve::crate_root(file.path) is Some && (key
            == "crate"@ || text::starts(key, "crate::"@)),
{
    let all = registry::offered(file, paths);
    let i = all.index_of(key);
    assert(all[i] == key);
    assert(all[0] == file.path && all[1] == registry::stem(file.path));
    if file.language == Language::Rust {
        if let Some(k) = registry::rust_key(file.path) {
            assert(all[2] == k);
            if k != "crate"@ {
                let n = "crate::"@.len() as int;
                assert(k.subrange(0, n) =~= "crate::"@);
            }
        }
    }
}

/// A dotted name that a file of Python offers is the one from a directory on from which all
/// directories down to the file are packages.
pub open spec fn is_dotted_name_of(
    dirs: Seq<Seq<char>>,
    name: Seq<char>,
    paths: Set<Seq<char>>,
    from: int,
    key: Seq<char>,
) -> bool {
    &&& 0 <= from < dirs.len()
    &&& forall|k: int|
        from <= k < dirs.len() ==> paths.contains(
            text::join(#[trigger] dirs.take(k + 1), "/"@) + "/__init__.py"@,
        )
    &&& name == "__init__.py"@ ==> key == text::join(dirs.skip(from), "."@)
    &&& name != "__init__.py"@ && text::ends(name, ".py"@) ==> key == text::join(
        dirs.skip(from),
        "."@,
    ) + "."@ + name.take(name.len() - 3)
}

proof fn lemma_dotted_names(
    dirs: Seq<Seq<char>>,
    name: Seq<char>,
    paths: Set<Seq<char>>,
    upto: int,
    key: Seq<char>,
)
    requires
        0 <= upto <= dirs.len(),
        registry::dotted_names(dirs, name, paths, upto).contains(key),
    ensures
        exists|from: int| #[trigger] is_dotted_name_of(dirs, name, paths, from, key),
    decreases upto,
{
    let all = registry::dotted_names(dirs, name, paths, upto);
    let i = all.index_of(key);
    if upto > 0 {
        let front = registry::dotted_names(dirs, name, paths, upto - 1);
        if i < front.len() {
            assert(front[i] == key);
            lemma_dotted_names(dirs, name, paths, upto - 1, key);
        } else {
            reveal_strlit(".py");
            assert(seq![".py"@][0] == ".py"@);
            assert(registry::package_chain(dirs, upto - 1, paths));
            assert forall|k: int| upto - 1 <= k < dirs.len() implies paths.contains(
                text::join(#[trigger] dirs.take(k + 1), "/"@) + "/__init__.py"@,
            ) by {
                assert(registry::package(text::join(dirs.take(k + 1), "/"@), paths));
            }
            assert(is_dotted_name_of(dirs, name, paths, upto - 1, key));
        }
    }
}

/// Only modules in packages have dotted names: each name that the module `name` in the directories
/// `dirs` has is that from a directory on from which all directories down to it are packages.
pub proof fn only_packages_give_dotted_names(
    file: Seq<char>,
    paths: Set<Seq<char>>,
    key: Seq<char>,
)
    requires
        registry::module_keys(file, paths).contains(key),
    ensures
        text::ends(file, ".py"@),
        exists|from: int| #[trigger]
            is_dotted_name_of(
                text::split(file, Class::Only('/')).drop_last(),
                text::split(file, Class::Only('/')).last(),
                paths,
                from,
                key,
            ),
{
    let parts = text::split(file, Class::Only('/'));
    let all = registry::module_keys(file, paths);
    let i = all.index_of(key);
    assert(all[i] == key);
    lemma_dotted_names(parts.drop_last(), parts.last(), paths, parts.len() - 1, key);
}

/// A file with an absolute path is in the directory before its name, which is the root for a file
/// that stands in no other; a slash at the end of a path does not matter.
pub proof fn absolute_files_are_in_their_directory(dir: Seq<char>, name: Seq<char>)
    requires
        dir.len() == 0 || relative_imports::plain_path(dir),
        relative_imports::no_slash(name),
        resolve::lasting(name),
    ensures
        dir.len() > 0 ==> structure::directory_of("/"@ + dir + "/"@ + name) == "/"@ + dir,
        structure::directory_of("/"@ + name) == "/"@,
        dir.len() > 0 ==> structure::directory_of(dir + "/"@ + name + "/"@) == dir,
{
    reveal_strlit("/");
    reveal_strlit(".");
    let none = Seq::<char>::empty();
    let top = "/"@ + name;
    lemma_before_last(none, name);
    assert(top.skip(1) =~= name);
    assert(top.take(1) =~= "/"@);
    assert(structure::last_component(top) == name);
    assert(structure::trim_tail(top) == top);
    assert(structure::cut_component(top) == "/"@);
    assert(structure::trim_tail("/"@) == "/"@);
    if dir.len() > 0 {
        let path = "/"@ + dir + "/"@ + name;
        lemma_before_last(dir, name);
        assert(path.skip(1) =~= dir + "/"@ + name);
        assert(path.take(1) =~= "/"@);
        assert(path.skip(1 + dir.len() as int + 1) =~= name);
        assert(structure::last_component(path) == name);
        assert(structure::trim_tail(path) == path);
        assert(structure::cut_component(path) == "/"@ + dir);
        lemma_absolute_stays(dir);
        files_are_in_their_directory(dir, name);
        lemma_trailing_slash(dir, name);
    }
}

proof fn lemma_trailing_slash(dir: Seq<char>, name: Seq<char>)
    requires
        dir.len() > 0,
        relative_imports::plain_path(dir),
        relative_imports::no_slash(name),
        resolve::lasting(name),
    ensures
        structure::directory_of(dir + "/"@ + name + "/"@) == structure::directory_of(
            dir + "/"@ + name,
        ),
{
    let k = Class::Only('/');
    reveal_strlit("/");
    reveal_strlit(".");
    let none = Seq::<char>::empty();
    let path = dir + "/"@ + name;
    let longer = path + "/"@;
    assert(path =~= dir.push('/') + name);
    text::lemma_split_concat(dir, '/', name, k);
    text::lemma_split_whole(name, k);
    let parts = text::split(path, k);
    let front = text::split(dir, k);
    assert forall|i: int| 0 <= i < parts.len() implies resolve::lasting(#[trigger] parts[i]) by {
        if i < front.len() {
            assert(parts[i] == front[i]);
        }
    }
    lemma_plain_start(path);
    assert(longer[0] == path[0] && longer[1] == path[1]);
    assert(structure::body_start(longer) == 0);
    lemma_before_last(path, none);
    assert(longer =~= path + "/"@ + none);
    assert(longer.skip(0) =~= longer);
    assert(longer.take(0) + path =~= path);
    assert(longer.skip(path.len() as int + 1) =~= none);
    assert(structure::last_component(longer) == none);
    assert(structure::cut_component(longer) == path);
    assert(structure::trim_tail(longer) == structure::trim_tail(path));
    lemma_directory_stays(path);
}

proof fn lemma_absolute_stays(dir: Seq<char>)
    requires
        dir.len() > 0,
        relative_imports::plain_path(dir),
    ensures
        structure::trim_tail("/"@ + dir) == "/"@ + dir,
{
    let k = Class::Only('/');
    reveal_strlit("/");
    assert("/"@ =~= seq!['/']);
    let path = "/"@ + dir;
    let parts = text::split(dir, k);
    text::lemma_pieces_are_free(dir, k);
    text::lemma_join_split(dir, '/');
    let name = parts.last();
    assert(resolve::lasting(parts[parts.len() - 1]));
    assert(relative_imports::no_slash(name)) by {
        assert forall|j: int| 0 <= j < name.len() implies #[trigger] name[j] != '/' by {
            assert(!k.has(parts[parts.len() - 1][j]));
        }
    }
    let front = text::join(parts.drop_last(), "/"@);
    lemma_before_last(front, name);
    assert(path.skip(1) =~= dir);
    if parts.len() == 1 {
        assert(dir == name);
    } else {
        assert(dir == front + "/"@ + name);
        assert(path.skip(1 + front.len() as int + 1) =~= name);
    }
    assert(structure::last_component(path) == name);
}

proof fn lemma_slashes(path: Seq<char>)
    requires
        forall|j: int| 0 <= j < path.len() ==> #[trigger] path[j] == '/',
    ensures
        structure::trim_tail(path).len() == structure::body_start(structure::trim_tail(path)),
        structure::trim_tail(path).len() > 0 ==> structure::trim_tail(path)[0] == '/',
    decreases path.len(),
{
    if path.len() > 1 {
        let tail = path.skip(1);
        assert(path[0] == '/');
        assert(path[path.len() - 1] == '/');
        assert(tail.last() == '/');
        let head = tail.drop_last();
        assert(text::before_last(tail, Class::Only('/')) == Some(head));
        let cut = path.take(1) + head;
        assert(structure::cut_component(path) == cut);
        assert(structure::last_component(path).len() == 0);
        assert forall|j: int| 0 <= j < cut.len() implies #[trigger] cut[j] == '/' by {
            if j > 0 {
                assert(cut[j] == path[j]);
            }
        }
        lemma_slashes(cut);
    } else if path.len() == 1 {
        assert(path[0] == '/');
    }
}

/// A path of nothing but slashes, or of nothing, has no directory and counts as being in `.`.
pub proof fn roots_are_in_the_current_directory(path: Seq<char>)
    requires
        forall|j: int| 0 <= j < path.len() ==> #[trigger] path[j] == '/',
    ensures
        structure::directory_of(path) == "."@,
{
    lemma_slashes(path);
    reveal_strlit(".");
}

} // verus!
