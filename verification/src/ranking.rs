//! Roles of directories and the ranking of files.
use vstd::prelude::*;

use crate::collections;
use crate::collections::DepGraph;
use crate::model;
use crate::model::{FileInfo, FileView, KeyFileInfo, KeyFileView, Language};
use crate::order;
use crate::order::Key;
use crate::text;

verus! {

// ---------------------------------------------------------------------------
// Roles of directories
// ---------------------------------------------------------------------------

/// Whether one of some texts holds another text.
pub open spec fn any_contains(names: Seq<Seq<char>>, p: Seq<char>) -> bool {
    exists|i: int| 0 <= i < names.len() && text::contains(#[trigger] names[i], p)
}

/// The role of a directory by the languages of its files: that of its only language, where this
/// is Python, TypeScript or Rust. A mixed group is other.
pub open spec fn role_by_language(
    python: bool,
    typescript: bool,
    rust: bool,
    javascript: bool,
) -> Seq<char> {
    if python && !typescript && !rust && !javascript {
        "python"@
    } else if typescript && !python && !rust && !javascript {
        "typescript"@
    } else if rust && !python && !typescript && !javascript {
        "rust"@
    } else {
        "other"@
    }
}

/// The role of a directory by its path and the paths of its files, all in lower case, and by
/// whether there are files of Python, TypeScript, Rust and JavaScript in it.
pub open spec fn role(
    dir: Seq<char>,
    names: Seq<Seq<char>>,
    python: bool,
    typescript: bool,
    rust: bool,
    javascript: bool,
) -> Seq<char> {
    if text::contains(dir, "test"@) || any_contains(names, "test"@) || any_contains(
        names,
        "spec"@,
    ) {
        "tests"@
    } else if text::contains(dir, "route"@) || text::contains(dir, "controller"@)
        || text::contains(dir, "handler"@) {
        "routes"@
    } else if text::contains(dir, "model"@) || text::contains(dir, "entity"@) || text::contains(
        dir,
        "schema"@,
    ) {
        "models"@
    } else if text::contains(dir, "view"@) || text::contains(dir, "template"@) || text::contains(
        dir,
        "component"@,
    ) {
        "views"@
    } else if text::contains(dir, "service"@) || text::contains(dir, "util"@) || text::contains(
        dir,
        "helper"@,
    ) || text::contains(dir, "lib"@) {
        "services"@
    } else if text::contains(dir, "middleware"@) {
        "middleware"@
    } else if text::contains(dir, "config"@) || text::contains(dir, "setting"@) {
        "config"@
    } else if text::contains(dir, "migration"@) || text::contains(dir, "seed"@) {
        "migrations"@
    } else if dir == "."@ || dir.len() == 0 {
        "root"@
    } else {
        role_by_language(python, typescript, rust, javascript)
    }
}

fn any_name_contains(names: &Vec<String>, p: &str) -> (r: bool)
    ensures
        r == any_contains(text::texts(names@), p@),
{
    let ghost all = text::texts(names@);
    for i in 0..names.len()
        invariant
            all == text::texts(names@),
            forall|j: int| 0 <= j < i ==> !text::contains(#[trigger] all[j], p@),
    {
        assert(all[i as int] == names@[i as int]@);
        let chars = text::chars_of(names[i].as_str());
        if text::contains_str(chars.as_slice(), p) {
            return true;
        }
    }
    false
}

/// The role of a directory, by texts that are in lower case already.
pub fn role_of_lower(
    dir: &str,
    names: &Vec<String>,
    python: bool,
    typescript: bool,
    rust: bool,
    javascript: bool,
) -> (r: &'static str)
    ensures
        r@ == role(dir@, text::texts(names@), python, typescript, rust, javascript),
{
    let chars = text::chars_of(dir);
    let d = chars.as_slice();
    if text::contains_str(d, "test") || any_name_contains(names, "test") || any_name_contains(
        names,
        "spec",
    ) {
        return "tests";
    }
    if text::contains_str(d, "route") || text::contains_str(d, "controller") || text::contains_str(
        d,
        "handler",
    ) {
        return "routes";
    }
    if text::contains_str(d, "model") || text::contains_str(d, "entity") || text::contains_str(
        d,
        "schema",
    ) {
        return "models";
    }
    if text::contains_str(d, "view") || text::contains_str(d, "template") || text::contains_str(
        d,
        "component",
    ) {
        return "views";
    }
    if text::contains_str(d, "service") || text::contains_str(d, "util") || text::contains_str(
        d,
        "helper",
    ) || text::contains_str(d, "lib") {
        return "services";
    }
    if text::contains_str(d, "middleware") {
        return "middleware";
    }
    if text::contains_str(d, "config") || text::contains_str(d, "setting") {
        return "config";
    }
    if text::contains_str(d, "migration") || text::contains_str(d, "seed") {
        return "migrations";
    }
    if text::is(d, ".") || d.len() == 0 {
        return "root";
    }
    if python && !typescript && !rust && !javascript {
        return "python";
    }
    if typescript && !python && !rust && !javascript {
        return "typescript";
    }
    if rust && !python && !typescript && !javascript {
        return "rust";
    }
    "other"
}

/// Whether there is a file of a language.
pub open spec fn has_language(files: Seq<FileView>, lang: Language) -> bool {
    exists|i: int| 0 <= i < files.len() && (#[trigger] files[i]).language == lang
}

/// The paths of files in lower case.
pub open spec fn lower_paths(files: Seq<FileView>) -> Seq<Seq<char>> {
    files.map_values(|f: FileView| text::lowercase(f.path))
}

/// The role of a directory with some files.
pub open spec fn directory_role(dir: Seq<char>, files: Seq<FileView>) -> Seq<char> {
    role(
        text::lowercase(dir),
        lower_paths(files),
        has_language(files, Language::Python),
        has_language(files, Language::TypeScript),
        has_language(files, Language::Rust),
        has_language(files, Language::JavaScript),
    )
}

/// Files behind references as plain values.
pub open spec fn ref_views(files: Seq<&FileInfo>) -> Seq<FileView> {
    files.map_values(|f: &FileInfo| f@)
}

fn any_of_language(files: &[&FileInfo], lang: Language) -> (r: bool)
    ensures
        r == has_language(ref_views(files@), lang),
{
    let ghost all = ref_views(files@);
    for i in 0..files.len()
        invariant
            all == ref_views(files@),
            forall|j: int| 0 <= j < i ==> (#[trigger] all[j]).language != lang,
    {
        assert(all[i as int] == files@[i as int]@);
        if files[i].language == lang {
            return true;
        }
    }
    false
}

/// Guesses the role of a directory from its path and its files.
pub fn guess_directory_role(dir: &str, files: &[&FileInfo]) -> (r: String)
    ensures
        r@ == directory_role(dir@, ref_views(files@)),
{
    broadcast use text::group_text;

    let lower = dir.to_lowercase();
    let mut names: Vec<String> = Vec::new();
    let ghost all = lower_paths(ref_views(files@));
    assert(text::texts(names@) =~= all.take(0));
    for i in 0..files.len()
        invariant
            all == lower_paths(ref_views(files@)),
            text::texts(names@) == all.take(i as int),
    {
        assert(ref_views(files@)[i as int] == files@[i as int]@);
        names.push(files[i].path.as_str().to_lowercase());
        assert(all.take(i as int).push(all[i as int]) =~= all.take(i + 1));
    }
    assert(all.take(files@.len() as int) =~= all);
    let python = any_of_language(files, Language::Python);
    let typescript = any_of_language(files, Language::TypeScript);
    let rust = any_of_language(files, Language::Rust);
    let javascript = any_of_language(files, Language::JavaScript);
    role_of_lower(lower.as_str(), &names, python, typescript, rust, javascript).to_owned()
}

// ---------------------------------------------------------------------------
// The ranking of files
// ---------------------------------------------------------------------------

/// What a file imports from, by a graph; nothing where the graph does not have it.
pub open spec fn dependencies(graph: Seq<(Seq<char>, Seq<Seq<char>>)>, path: Seq<char>) -> Seq<
    Seq<char>,
> {
    let map = collections::map_of(graph);
    if map.contains_key(path) {
        map[path]
    } else {
        seq![]
    }
}

/// A file with what it imports from and how many files depend on it.
pub open spec fn key_file(file: FileView, graph: Seq<(Seq<char>, Seq<Seq<char>>)>) -> KeyFileView {
    KeyFileView {
        path: file.path,
        purpose: file.purpose,
        symbols: file.symbols,
        dependencies: dependencies(graph, file.path),
        dependent_count: collections::dependents(graph, file.path) as int,
    }
}

/// The files with what they import from and how many files depend on them.
pub open spec fn key_file_entries(
    files: Seq<FileView>,
    graph: Seq<(Seq<char>, Seq<Seq<char>>)>,
) -> Seq<KeyFileView> {
    files.map_values(|f: FileView| key_file(f, graph))
}

/// What files are ranked by: the number of dependents first, the path next.
pub open spec fn rank_keys(entries: Seq<KeyFileView>) -> Seq<(int, Seq<char>)> {
    entries.map_values(|k: KeyFileView| (k.dependent_count, k.path))
}

/// The files by their rank.
pub open spec fn by_rank(files: Seq<FileView>, graph: Seq<(Seq<char>, Seq<Seq<char>>)>) -> Seq<
    KeyFileView,
> {
    let entries = key_file_entries(files, graph);
    order::arranged(entries, order::ordering(rank_keys(entries)))
}

/// The first files by their rank, as many as are asked for.
pub open spec fn ranked(
    files: Seq<FileView>,
    graph: Seq<(Seq<char>, Seq<Seq<char>>)>,
    max: int,
) -> Seq<KeyFileView> {
    let all = by_rank(files, graph);
    if max < all.len() {
        all.take(max)
    } else {
        all
    }
}

/// The dependents of each file can be counted.
pub open spec fn dependents_fit(graph: Seq<(Seq<char>, Seq<Seq<char>>)>) -> bool {
    forall|p: Seq<char>| #[trigger] collections::dependents(graph, p) <= usize::MAX
}

/// Key files as plain values.
pub open spec fn key_file_views(v: Seq<KeyFileInfo>) -> Seq<KeyFileView> {
    v.map_values(|k: KeyFileInfo| k@)
}

/// Ranks the files by how many files depend on them, equal ones by their path, and keeps the
/// first ones.
pub fn rank_key_files(files: &[FileInfo], dep_graph: &DepGraph, max: usize) -> (r: Vec<
    KeyFileInfo,
>)
    requires
        dep_graph.wf(),
        dependents_fit(dep_graph@),
    ensures
        key_file_views(r@) == ranked(model::file_views(files@), dep_graph@, max as int),
{
    let counts = collections::count_dependents(dep_graph);
    let ghost views = model::file_views(files@);
    let ghost graph = dep_graph@;
    let ghost entries = key_file_entries(views, graph);
    let mut keys: Vec<Key> = Vec::new();
    for i in 0..files.len()
        invariant
            views == model::file_views(files@),
            graph == dep_graph@,
            entries == key_file_entries(views, graph),
            forall|p: Seq<char>| #[trigger] counts.count(p) == collections::dependents(graph, p),
            keys@.len() == i,
            forall|j: int|
                0 <= j < i ==> (#[trigger] keys@[j]).rank == entries[j].dependent_count
                    && keys@[j].name@ == entries[j].path,
    {
        assert(views[i as int] == files@[i as int]@);
        let path = files[i].path.as_str();
        keys.push(Key { rank: counts.get(path), name: text::chars_of(path) });
    }
    assert(order::keys_of(keys@) =~= rank_keys(entries));
    let sequence = order::sort_keys(&keys);
    let ghost all = by_rank(views, graph);
    let count: usize = if max < sequence.len() {
        max
    } else {
        sequence.len()
    };
    let mut out: Vec<KeyFileInfo> = Vec::new();
    assert(key_file_views(out@) =~= all.take(0));
    for a in 0..count
        invariant
            views == model::file_views(files@),
            graph == dep_graph@,
            dep_graph.wf(),
            entries == key_file_entries(views, graph),
            all == order::arranged(entries, order::ints(sequence@)),
            sequence@.len() == files@.len(),
            count <= sequence@.len(),
            keys@.len() == files@.len(),
            forall|b: int| 0 <= b < sequence@.len() ==> #[trigger] sequence@[b] < files@.len(),
            forall|j: int|
                0 <= j < files@.len() ==> (#[trigger] keys@[j]).rank == entries[j].dependent_count
                    && keys@[j].name@ == entries[j].path,
            key_file_views(out@) == all.take(a as int),
    {
        let at: usize = sequence[a];
        let file = &files[at];
        assert(views[at as int] == file@);
        assert(all[a as int] == entries[at as int]);
        let deps = match dep_graph.get(file.path.as_str()) {
            Some(d) => text::clone_strings(d),
            None => Vec::new(),
        };
        assert(text::texts(deps@) =~= dependencies(graph, file.path@));
        let ghost before = out@;
        let info = KeyFileInfo {
            path: file.path.clone(),
            purpose: text::clone_option(&file.purpose),
            symbols: text::clone_strings(&file.symbols),
            dependencies: deps,
            dependent_count: keys[at].rank,
        };
        assert(info@ == entries[at as int]);
        out.push(info);
        assert(key_file_views(out@) =~= key_file_views(before).push(info@));
        assert(all.take(a as int).push(all[a as int]) =~= all.take(a + 1));
    }
    assert(all.take(sequence@.len() as int) =~= all);
    out
}

/// The ranking keeps as many files as are asked for, or all where there are fewer. A file comes
/// before another where more files depend on it, or as many and its path is the lesser one. No
/// file that is left out comes before one that is kept. Each file has an entry with its path, its
/// purpose and its symbols, and each entry is that of a file.
pub proof fn files_are_ranked(
    files: Seq<FileView>,
    graph: Seq<(Seq<char>, Seq<Seq<char>>)>,
    max: int,
)
    requires
        0 <= max,
    ensures
        ranked(files, graph, max).len() == if max < files.len() {
            max
        } else {
            files.len() as int
        },
        by_rank(files, graph).len() == files.len(),
        forall|a: int|
            0 <= a < ranked(files, graph, max).len() ==> #[trigger] ranked(files, graph, max)[a]
                == by_rank(files, graph)[a],
        forall|a: int, b: int|
            0 <= a < b < files.len() ==> {
                let x = #[trigger] by_rank(files, graph)[a];
                let y = #[trigger] by_rank(files, graph)[b];
                x.dependent_count > y.dependent_count || (x.dependent_count == y.dependent_count
                    && (x.path == y.path || order::before(x.path, y.path)))
            },
        forall|i: int|
            0 <= i < files.len() ==> by_rank(files, graph).contains(
                key_file(#[trigger] files[i], graph),
            ),
        forall|i: int|
            0 <= i < files.len() ==> exists|a: int|
                0 <= a < by_rank(files, graph).len() && (#[trigger] by_rank(files, graph)[a]).path
                    == (#[trigger] files[i]).path && by_rank(files, graph)[a].purpose
                    == files[i].purpose && by_rank(files, graph)[a].symbols == files[i].symbols,
        forall|a: int|
            0 <= a < by_rank(files, graph).len() ==> exists|i: int|
                0 <= i < files.len() && (#[trigger] by_rank(files, graph)[a]).path == (
                #[trigger] files[i]).path && by_rank(files, graph)[a].purpose == files[i].purpose
                    && by_rank(files, graph)[a].symbols == files[i].symbols,
{
    let entries = key_file_entries(files, graph);
    let keys = rank_keys(entries);
    let ord = order::ordering(keys);
    order::ordering_exists(keys);
    let all = by_rank(files, graph);
    assert forall|a: int, b: int| 0 <= a < b < files.len() implies {
        let x = #[trigger] all[a];
        let y = #[trigger] all[b];
        x.dependent_count > y.dependent_count || (x.dependent_count == y.dependent_count && (x.path
            == y.path || order::before(x.path, y.path)))
    } by {
        assert(order::key_before(keys, ord[a], ord[b]));
        assert(keys[ord[a]] == (all[a].dependent_count, all[a].path));
        assert(keys[ord[b]] == (all[b].dependent_count, all[b].path));
    }
    assert forall|i: int| 0 <= i < files.len() implies all.contains(
        key_file(#[trigger] files[i], graph),
    ) by {
        assert(ord.contains(i));
        let a = choose|a: int| 0 <= a < ord.len() && ord[a] == i;
        assert(all[a] == entries[i]);
    }
    assert forall|i: int| 0 <= i < files.len() implies exists|a: int|
        0 <= a < all.len() && (#[trigger] all[a]).path == (#[trigger] files[i]).path
            && all[a].purpose == files[i].purpose && all[a].symbols == files[i].symbols by {
        assert(ord.contains(i));
        let a = choose|a: int| 0 <= a < ord.len() && ord[a] == i;
        assert(all[a] == entries[i]);
        assert(all[a].path == files[i].path);
    }
    assert forall|a: int| 0 <= a < all.len() implies exists|i: int|
        0 <= i < files.len() && (#[trigger] all[a]).path == (#[trigger] files[i]).path
            && all[a].purpose == files[i].purpose && all[a].symbols == files[i].symbols by {
        assert(all[a] == entries[ord[a]]);
        assert(all[a].path == files[ord[a]].path);
    }
}

/// An entry of the ranking has what the graph says of its file: what the file imports from, where
/// the graph has it, and nothing where it does not; and it counts how often the files of the graph
/// name the file.
pub proof fn ranked_files_have_their_dependencies(
    files: Seq<FileView>,
    graph: Seq<(Seq<char>, Seq<Seq<char>>)>,
    a: int,
)
    requires
        collections::distinct_keys(graph),
        0 <= a < by_rank(files, graph).len(),
    ensures
        forall|j: int|
            0 <= j < graph.len() && (#[trigger] graph[j]).0 == by_rank(files, graph)[a].path
                ==> by_rank(files, graph)[a].dependencies == graph[j].1,
        (forall|j: int|
            0 <= j < graph.len() ==> (#[trigger] graph[j]).0 != by_rank(files, graph)[a].path)
            ==> by_rank(files, graph)[a].dependencies.len() == 0,
        by_rank(files, graph)[a].dependent_count == collections::dependents(
            graph,
            by_rank(files, graph)[a].path,
        ),
{
    let entries = key_file_entries(files, graph);
    let keys = rank_keys(entries);
    let ord = order::ordering(keys);
    order::ordering_exists(keys);
    let all = by_rank(files, graph);
    assert(all[a] == entries[ord[a]]);
    let path = all[a].path;
    collections::lemma_map_of_keys(graph, path);
    assert forall|j: int| 0 <= j < graph.len() && (#[trigger] graph[j]).0 == path implies all[a]
        .dependencies == graph[j].1 by {
        collections::lemma_map_of_entry(graph, j);
    }
}

} // verus!
