//! Directories and dependencies: which files stand together and which import from which.
use vstd::hash_map::StringHashMap;
use vstd::prelude::*;

use crate::collections;
use crate::collections::{DepGraph, ImportRegistry};
use crate::ranking;
use crate::model;
use crate::model::{DirectoryInfo, DirectoryView, FileInfo, FileView, Language};
use crate::order;
use crate::registry;
use crate::resolve;
use crate::text;
use crate::text::Class;

verus! {

// ---------------------------------------------------------------------------
// The directory of a file
// ---------------------------------------------------------------------------

/// How many characters at the start of a path are no components to be taken off: a root, or a
/// leading `.`.
pub open spec fn body_start(path: Seq<char>) -> int {
    if path.len() > 0 && path[0] == '/' {
        1
    } else if path.len() == 1 && path[0] == '.' {
        1
    } else if path.len() > 1 && path[0] == '.' && path[1] == '/' {
        1
    } else {
        0
    }
}

/// A path without its last component and the separator before it.
pub open spec fn cut_component(path: Seq<char>) -> Seq<char> {
    let start = body_start(path);
    match text::before_last(path.skip(start), Class::Only('/')) {
        Some(head) => path.take(start) + head,
        None => path.take(start),
    }
}

/// The last component of a path behind its start.
pub open spec fn last_component(path: Seq<char>) -> Seq<char> {
    let start = body_start(path);
    match text::before_last(path.skip(start), Class::Only('/')) {
        Some(head) => path.skip(start + head.len() + 1),
        None => path.skip(start),
    }
}

/// Cutting a component makes a path with a body shorter.
proof fn lemma_cut_shorter(path: Seq<char>)
    requires
        path.len() > body_start(path),
    ensures
        cut_component(path).len() < path.len(),
        cut_component(path).len() >= body_start(path),
        cut_component(path) == path.take(cut_component(path).len() as int),
{
    let rest = path.skip(body_start(path));
    lemma_before_last_shorter(rest, Class::Only('/'));
    match text::before_last(rest, Class::Only('/')) {
        Some(head) => {
            assert(path.take(body_start(path)) + head =~= path.take(body_start(path) + head.len()));
        },
        None => {},
    }
}

proof fn lemma_before_last_shorter(s: Seq<char>, k: Class)
    ensures
        text::before_last(s, k) matches Some(head) ==> head.len() < s.len() && head == s.take(
            head.len() as int,
        ),
    decreases s.len(),
{
    if s.len() > 0 {
        if k.has(s.last()) {
            assert(s.drop_last() =~= s.take(s.len() - 1));
        } else {
            lemma_before_last_shorter(s.drop_last(), k);
            if let Some(head) = text::before_last(s.drop_last(), k) {
                assert(s.drop_last().take(head.len() as int) =~= s.take(head.len() as int));
            }
        }
    }
}

/// A path without separators and `.` components at its end.
pub open spec fn trim_tail(path: Seq<char>) -> Seq<char>
    decreases path.len(),
{
    if path.len() > body_start(path) && (last_component(path).len() == 0 || last_component(path)
        == "."@) && cut_component(path).len() < path.len() {
        trim_tail(cut_component(path))
    } else {
        path
    }
}

/// The directory that a path names a file in: the path without its last component, with no
/// separators left at its end. A path of one component is in the directory with the empty path.
/// There is none for the empty path and for the root.
pub open spec fn parent(path: Seq<char>) -> Option<Seq<char>> {
    let t = trim_tail(path);
    if t.len() > body_start(t) {
        Some(trim_tail(cut_component(t)))
    } else if t == "."@ {
        Some(seq![])
    } else {
        None
    }
}

/// The directory that a file is listed under.
pub open spec fn directory_of(path: Seq<char>) -> Seq<char> {
    match parent(path) {
        Some(dir) => dir,
        None => "."@,
    }
}

fn start_of_body(path: &[char]) -> (r: usize)
    ensures
        r == body_start(path@),
        r <= path@.len(),
{
    let n: usize = path.len();
    if n > 0 && path[0] == '/' {
        1
    } else if n == 1 && path[0] == '.' {
        1
    } else if n > 1 && path[0] == '.' && path[1] == '/' {
        1
    } else {
        0
    }
}

/// The length of what is left of a path without its last component.
fn length_of_cut(path: &[char]) -> (r: usize)
    requires
        path@.len() > body_start(path@),
    ensures
        r == cut_component(path@).len(),
        r < path@.len(),
        path@.take(r as int) == cut_component(path@),
        body_start(path@) <= r,
{
    let start: usize = start_of_body(path);
    let n: usize = path.len();
    proof {
        lemma_cut_shorter(path@);
    }
    assert(path@.subrange(start as int, n as int) =~= path@.skip(start as int));
    match text::before_last_of(&path[start..n], Class::Only('/')) {
        Some(head) => {
            let m: usize = head.len();
            start + m
        },
        None => start,
    }
}

/// Whether the last component of a path is empty or `.`.
fn ends_in_nothing(path: &[char]) -> (r: bool)
    requires
        path@.len() > body_start(path@),
    ensures
        r == (last_component(path@).len() == 0 || last_component(path@) == "."@),
{
    let start: usize = start_of_body(path);
    let n: usize = path.len();
    assert(path@.subrange(start as int, n as int) =~= path@.skip(start as int));
    proof {
        lemma_before_last_shorter(path@.skip(start as int), Class::Only('/'));
    }
    let last = match text::before_last_of(&path[start..n], Class::Only('/')) {
        Some(head) => {
            let m: usize = head.len();
            &path[start + m + 1..n]
        },
        None => &path[start..n],
    };
    assert(last@ =~= last_component(path@));
    last.len() == 0 || text::is(last, ".")
}

fn without_tail(path: &[char]) -> (r: &[char])
    ensures
        r@ == trim_tail(path@),
{
    let mut rest = path;
    while rest.len() > start_of_body(rest) && ends_in_nothing(rest)
        invariant
            trim_tail(path@) == trim_tail(rest@),
        decreases rest@.len(),
    {
        let n: usize = length_of_cut(rest);
        assert(rest@.subrange(0, n as int) =~= rest@.take(n as int));
        rest = &rest[0..n];
    }
    rest
}

/// The directory that a file is listed under: `src` for `src/main.rs`, and the empty path for a
/// file in the root.
pub fn parent_directory(path: &str) -> (r: String)
    ensures
        r@ == directory_of(path@),
{
    let chars = text::chars_of(path);
    let t = without_tail(chars.as_slice());
    if t.len() > start_of_body(t) {
        let n: usize = length_of_cut(t);
        assert(t@.subrange(0, n as int) =~= t@.take(n as int));
        text::string_of(without_tail(&t[0..n]))
    } else if text::is(t, ".") {
        String::new()
    } else {
        ".".to_owned()
    }
}

// ---------------------------------------------------------------------------
// Dependencies
// ---------------------------------------------------------------------------

/// The root of the crate that a file belongs to.
pub open spec fn root_of(file: FileView) -> Option<Seq<char>> {
    if file.language == Language::Rust {
        resolve::crate_root(file.path)
    } else {
        None
    }
}

/// The other files that imports of a file stand for.
pub open spec fn resolved(
    file: FileView,
    imports: Seq<Seq<char>>,
    keys: Map<Seq<char>, Seq<char>>,
) -> Seq<Seq<char>>
    decreases imports.len(),
{
    if imports.len() == 0 {
        seq![]
    } else {
        let front = resolved(file, imports.drop_last(), keys);
        match resolve::target(imports.last(), file.path, file.language, keys, root_of(file)) {
            Some(target) => if target != file.path {
                front.push(target)
            } else {
                front
            },
            None => front,
        }
    }
}

/// What a file imports from: the other files that its imports stand for, in order and each once.
pub open spec fn imports_from(file: FileView, keys: Map<Seq<char>, Seq<char>>) -> Seq<Seq<char>> {
    order::distinct(resolved(file, file.imports, keys))
}

fn resolve_file(file: &FileInfo, keys: &ImportRegistry) -> (r: Vec<String>)
    ensures
        text::texts(r@) == imports_from(file@, keys@),
{
    broadcast use text::group_text;

    let root = if file.language == Language::Rust {
        resolve::rust_file_crate_root(file.path.as_str())
    } else {
        None
    };
    let root_str = match &root {
        Some(s) => Some(s.as_str()),
        None => None,
    };
    assert(text::opt_str(root_str) == root_of(file@));
    let ghost all = text::texts(file.imports@);
    let mut out: Vec<String> = Vec::new();
    assert(all.take(0) =~= seq![]);
    assert(text::texts(out@) =~= seq![]);
    for i in 0..file.imports.len()
        invariant
            all == text::texts(file.imports@),
            text::opt_str(root_str) == root_of(file@),
            text::texts(out@) == resolved(file@, all.take(i as int), keys@),
    {
        assert(all.take(i + 1).drop_last() =~= all.take(i as int));
        assert(all.take(i + 1).last() == file.imports@[i as int]@);
        let found = resolve::resolve_import(
            file.imports[i].as_str(),
            file.path.as_str(),
            file.language,
            keys,
            root_str,
        );
        if let Some(target) = found {
            if !text::str_same(target.as_str(), file.path.as_str()) {
                out.push(target);
            }
        }
    }
    assert(all.take(file.imports@.len() as int) =~= all);
    order::distinct_strings(&out)
}

/// The files with what they import from.
pub open spec fn edges(files: Seq<FileView>) -> Seq<(Seq<char>, Seq<Seq<char>>)> {
    files.map_values(|f: FileView| (f.path, imports_from(f, registry::registry(files))))
}

/// The dependency graph of some files. Of two files with one path the later counts.
pub open spec fn graph_of(files: Seq<FileView>) -> Seq<(Seq<char>, Seq<Seq<char>>)> {
    collections::all_recorded(edges(files))
}

fn build_graph(files: &[FileInfo]) -> (r: DepGraph)
    ensures
        r.wf(),
        r@ == graph_of(model::file_views(files@)),
        r.map() == collections::map_of(edges(model::file_views(files@))),
{
    let keys = registry::build_import_registry(files);
    let ghost views = model::file_views(files@);
    let ghost all = edges(views);
    let mut graph = DepGraph::new();
    assert(all.take(0) =~= seq![]);
    for i in 0..files.len()
        invariant
            views == model::file_views(files@),
            all == edges(views),
            keys@ == registry::registry(views),
            graph.wf(),
            graph@ == collections::all_recorded(all.take(i as int)),
            graph.map() == collections::map_of(all.take(i as int)),
    {
        assert(all.take(i + 1).drop_last() =~= all.take(i as int));
        assert(views[i as int] == files@[i as int]@);
        let deps = resolve_file(&files[i], &keys);
        assert(all.take(i + 1).last() == (files@[i as int].path@, text::texts(deps@)));
        graph.insert(files[i].path.clone(), deps);
    }
    assert(all.take(files@.len() as int) =~= all);
    graph
}

// ---------------------------------------------------------------------------
// Directories
// ---------------------------------------------------------------------------

/// The directories of files, one for each file.
pub open spec fn directories(files: Seq<FileView>) -> Seq<Seq<char>> {
    files.map_values(|f: FileView| directory_of(f.path))
}

/// The files that are listed under a directory.
pub open spec fn files_in(files: Seq<FileView>, dir: Seq<char>) -> Seq<FileView>
    decreases files.len(),
{
    if files.len() == 0 {
        seq![]
    } else {
        let front = files_in(files.drop_last(), dir);
        if directory_of(files.last().path) == dir {
            front.push(files.last())
        } else {
            front
        }
    }
}

/// The paths of files.
pub open spec fn paths(files: Seq<FileView>) -> Seq<Seq<char>> {
    files.map_values(|f: FileView| f.path)
}

/// A directory with its role and its files, these in the order of their paths.
pub open spec fn directory_entry(dir: Seq<char>, files: Seq<FileView>) -> DirectoryView {
    DirectoryView {
        path: dir,
        role: ranking::directory_role(dir, files),
        file_count: files.len() as int,
        files: order::sorted(paths(files)),
    }
}

/// The directories of some files in the order of their paths.
pub open spec fn structure_of(files: Seq<FileView>) -> Seq<DirectoryView> {
    order::distinct(directories(files)).map_values(
        |dir: Seq<char>| directory_entry(dir, files_in(files, dir)),
    )
}

/// Directories as plain values.
pub open spec fn directory_views(v: Seq<DirectoryInfo>) -> Seq<DirectoryView> {
    v.map_values(|d: DirectoryInfo| d@)
}

fn describe_directory(dir: &str, files: &Vec<&FileInfo>) -> (r: DirectoryInfo)
    ensures
        r@ == directory_entry(dir@, ranking::ref_views(files@)),
{
    broadcast use text::group_text;

    let role = ranking::guess_directory_role(dir, files.as_slice());
    let ghost all = paths(ranking::ref_views(files@));
    let mut names: Vec<String> = Vec::new();
    assert(text::texts(names@) =~= all.take(0));
    for i in 0..files.len()
        invariant
            all == paths(ranking::ref_views(files@)),
            text::texts(names@) == all.take(i as int),
    {
        assert(ranking::ref_views(files@)[i as int] == files@[i as int]@);
        names.push(files[i].path.clone());
        assert(all.take(i as int).push(all[i as int]) =~= all.take(i + 1));
    }
    assert(all.take(files@.len() as int) =~= all);
    DirectoryInfo {
        path: dir.to_owned(),
        role,
        file_count: files.len(),
        files: order::sort_strings(&names),
    }
}

fn directories_of(files: &[FileInfo]) -> (r: Vec<String>)
    ensures
        text::texts(r@) == directories(model::file_views(files@)),
{
    broadcast use text::group_text;

    let ghost all = directories(model::file_views(files@));
    let mut out: Vec<String> = Vec::new();
    assert(text::texts(out@) =~= all.take(0));
    for i in 0..files.len()
        invariant
            all == directories(model::file_views(files@)),
            text::texts(out@) == all.take(i as int),
    {
        assert(model::file_views(files@)[i as int] == files@[i as int]@);
        out.push(parent_directory(files[i].path.as_str()));
        assert(all.take(i as int).push(all[i as int]) =~= all.take(i + 1));
    }
    assert(all.take(files@.len() as int) =~= all);
    out
}

/// The places of names in a list without repetition.
fn places_of(names: &Vec<String>) -> (r: StringHashMap<usize>)
    requires
        order::increasing(text::texts(names@)),
    ensures
        forall|q: int|
            0 <= q < names@.len() ==> r@.contains_key((#[trigger] names@[q])@) && r@[names@[q]@]
                == q,
{
    let ghost all = text::texts(names@);
    let mut places: StringHashMap<usize> = StringHashMap::new();
    for p in 0..names.len()
        invariant
            all == text::texts(names@),
            order::increasing(all),
            forall|q: int|
                0 <= q < p ==> places@.contains_key((#[trigger] names@[q])@)
                    && places@[names@[q]@] == q,
    {
        let ghost before = places@;
        places.insert(names[p].clone(), p);
        assert forall|q: int| 0 <= q < p + 1 implies places@.contains_key((#[trigger] names@[q])@)
            && places@[names@[q]@] == q by {
            if q < p {
                assert(order::before(all[q], all[p as int]));
                order::lemma_before_irreflexive(all[q]);
            }
        }
    }
    places
}

/// Groups files by their directories.
fn group_files<'a>(files: &'a [FileInfo], dirs: &Vec<String>, names: &Vec<String>) -> (r: Vec<
    Vec<&'a FileInfo>,
>)
    requires
        text::texts(dirs@) == directories(model::file_views(files@)),
        text::texts(names@) == order::distinct(text::texts(dirs@)),
    ensures
        r@.len() == names@.len(),
        forall|p: int|
            0 <= p < names@.len() ==> ranking::ref_views((#[trigger] r@[p])@) == files_in(
                model::file_views(files@),
                names@[p]@,
            ),
{
    let ghost views = model::file_views(files@);
    let ghost folder = text::texts(dirs@);
    let ghost all = text::texts(names@);
    proof {
        order::distinct_is_increasing(folder);
    }
    let places = places_of(names);
    let mut groups: Vec<Vec<&'a FileInfo>> = Vec::new();
    assert(views.take(0) =~= seq![]);
    for p in 0..names.len()
        invariant
            groups@.len() == p,
            forall|q: int| 0 <= q < p ==> (#[trigger] groups@[q])@.len() == 0,
    {
        groups.push(Vec::new());
    }
    assert forall|p: int| 0 <= p < names@.len() implies ranking::ref_views((#[trigger] groups@[p])@)
        == files_in(views.take(0), names@[p]@) by {
        assert(ranking::ref_views(groups@[p]@) =~= seq![]);
    }
    for i in 0..files.len()
        invariant
            views == model::file_views(files@),
            folder == directories(views),
            folder == text::texts(dirs@),
            all == text::texts(names@),
            all == order::distinct(folder),
            order::increasing(all),
            forall|x: Seq<char>| #[trigger] all.contains(x) <==> folder.contains(x),
            forall|q: int|
                0 <= q < names@.len() ==> places@.contains_key((#[trigger] names@[q])@)
                    && places@[names@[q]@] == q,
            groups@.len() == names@.len(),
            forall|p: int|
                0 <= p < names@.len() ==> ranking::ref_views((#[trigger] groups@[p])@) == files_in(
                    views.take(i as int),
                    names@[p]@,
                ),
    {
        let ghost longer = views.take(i + 1);
        let ghost before = groups@;
        assert(dirs@.len() == folder.len());
        proof {
            assert(longer.drop_last() =~= views.take(i as int));
            assert(longer.last() == files@[i as int]@);
            assert(folder[i as int] == dirs@[i as int]@);
            assert(folder.contains(folder[i as int]));
            assert(all.contains(folder[i as int]));
            let q = choose|q: int| 0 <= q < all.len() && all[q] == folder[i as int];
            assert(names@[q]@ == folder[i as int]);
            assert(places@.contains_key(dirs@[i as int]@));
        }
        match places.get(dirs[i].as_str()) {
            Some(p) => {
                let at: usize = *p;
                groups[at].push(&files[i]);
                proof {
                    let q = choose|q: int| 0 <= q < all.len() && all[q] == folder[i as int];
                    assert(names@[q]@ == folder[i as int]);
                    assert(at == q);
                    assert forall|p: int| 0 <= p < names@.len() implies ranking::ref_views(
                        (#[trigger] groups@[p])@,
                    ) == files_in(longer, names@[p]@) by {
                        assert(ranking::ref_views(before[p]@) == files_in(
                            views.take(i as int),
                            names@[p]@,
                        ));
                        if p == at {
                            assert(groups@[p]@ == before[p]@.push(&files@[i as int]));
                            assert(ranking::ref_views(groups@[p]@) =~= ranking::ref_views(
                                before[p]@,
                            ).push(files@[i as int]@));
                        } else {
                            assert(all[p] != all[at as int]) by {
                                order::lemma_before_irreflexive(all[p]);
                                if p < at {
                                    assert(order::before(all[p], all[at as int]));
                                } else {
                                    assert(order::before(all[at as int], all[p]));
                                }
                            }
                            assert(names@[p]@ == all[p]);
                        }
                    }
                }
            },
            None => {},
        }
    }
    assert(views.take(files@.len() as int) =~= views);
    groups
}

fn list_directories(files: &[FileInfo]) -> (r: Vec<DirectoryInfo>)
    ensures
        directory_views(r@) == structure_of(model::file_views(files@)),
{
    let ghost views = model::file_views(files@);
    let dirs = directories_of(files);
    let names = order::distinct_strings(&dirs);
    let groups = group_files(files, &dirs, &names);
    let ghost all = structure_of(views);
    let mut out: Vec<DirectoryInfo> = Vec::new();
    assert(directory_views(out@) =~= all.take(0));
    for p in 0..names.len()
        invariant
            groups@.len() == names@.len(),
            text::texts(names@) == order::distinct(directories(views)),
            all == structure_of(views),
            forall|p: int|
                0 <= p < names@.len() ==> ranking::ref_views((#[trigger] groups@[p])@) == files_in(
                    views,
                    names@[p]@,
                ),
            directory_views(out@) == all.take(p as int),
    {
        let ghost before = out@;
        assert(text::texts(names@)[p as int] == names@[p as int]@);
        let info = describe_directory(names[p].as_str(), &groups[p]);
        assert(info@ == all[p as int]);
        out.push(info);
        assert(directory_views(out@) =~= directory_views(before).push(info@));
        assert(all.take(p as int).push(all[p as int]) =~= all.take(p + 1));
    }
    assert(text::texts(names@).len() == names@.len());
    assert(all.take(names@.len() as int) =~= all);
    out
}

/// Lists the directories of some files with their roles, and finds out which files import from
/// which.
pub fn analyze_structure(files: &[FileInfo]) -> (r: (Vec<DirectoryInfo>, DepGraph))
    ensures
        directory_views(r.0@) == structure_of(model::file_views(files@)),
        r.1.wf(),
        r.1@ == graph_of(model::file_views(files@)),
        r.1.map() == collections::map_of(edges(model::file_views(files@))),
{
    (list_directories(files), build_graph(files))
}

// ---------------------------------------------------------------------------
// Laws of dependencies and directories
// ---------------------------------------------------------------------------

proof fn lemma_resolved(
    file: FileView,
    imports: Seq<Seq<char>>,
    keys: Map<Seq<char>, Seq<char>>,
    d: Seq<char>,
)
    requires
        resolved(file, imports, keys).contains(d),
    ensures
        d != file.path,
        resolve::is_registered_file(keys, d),
    decreases imports.len(),
{
    let all = resolved(file, imports, keys);
    let at = choose|at: int| 0 <= at < all.len() && all[at] == d;
    let front = resolved(file, imports.drop_last(), keys);
    if at < front.len() {
        assert(front[at] == d);
        assert(front.contains(d));
        lemma_resolved(file, imports.drop_last(), keys, d);
    } else {
        resolve::targets_are_registered(
            imports.last(),
            file.path,
            file.language,
            keys,
            root_of(file),
        );
    }
}

/// What a file imports from is in order without repetition, and each of it is another file of the
/// project.
pub proof fn dependencies_are_other_files(files: Seq<FileView>, i: int)
    requires
        0 <= i < files.len(),
    ensures
        order::increasing(imports_from(files[i], registry::registry(files))),
        forall|d: Seq<char>| #[trigger]
            imports_from(files[i], registry::registry(files)).contains(d) ==> d != files[i].path
                && exists|j: int| 0 <= j < files.len() && (#[trigger] files[j]).path == d,
{
    let keys = registry::registry(files);
    let f = files[i];
    let all = resolved(f, f.imports, keys);
    order::distinct_is_increasing(all);
    assert forall|d: Seq<char>| #[trigger] imports_from(f, keys).contains(d) implies d != f.path
        && exists|j: int| 0 <= j < files.len() && (#[trigger] files[j]).path == d by {
        assert(all.contains(d));
        lemma_resolved(f, f.imports, keys, d);
        let key = choose|key: Seq<char>| #[trigger] keys.contains_key(key) && keys[key] == d;
        registry::registered_files_are_given(files, key);
    }
}

/// The number of files that directories list together.
pub open spec fn listed_files(dirs: Seq<DirectoryView>) -> int
    decreases dirs.len(),
{
    if dirs.len() == 0 {
        0
    } else {
        listed_files(dirs.drop_last()) + dirs.last().file_count
    }
}

/// The number of files in some directories.
spec fn files_in_all(names: Seq<Seq<char>>, files: Seq<FileView>) -> int
    decreases names.len(),
{
    if names.len() == 0 {
        0
    } else {
        files_in_all(names.drop_last(), files) + files_in(files, names.last()).len()
    }
}

proof fn lemma_one_more_file(names: Seq<Seq<char>>, files: Seq<FileView>)
    requires
        files.len() > 0,
        order::increasing(names),
    ensures
        files_in_all(names, files) == files_in_all(names, files.drop_last()) + if names.contains(
            directory_of(files.last().path),
        ) {
            1int
        } else {
            0int
        },
    decreases names.len(),
{
    let dir = directory_of(files.last().path);
    if names.len() > 0 {
        let front = names.drop_last();
        lemma_one_more_file(front, files);
        if names.last() == dir {
            assert(names[names.len() - 1] == dir);
            if front.contains(dir) {
                let i = choose|i: int| 0 <= i < front.len() && front[i] == dir;
                assert(order::before(names[i], names[names.len() - 1]));
                order::lemma_before_irreflexive(dir);
            }
        } else {
            if front.contains(dir) {
                let i = choose|i: int| 0 <= i < front.len() && front[i] == dir;
                assert(names[i] == dir);
            }
            if names.contains(dir) {
                let i = choose|i: int| 0 <= i < names.len() && names[i] == dir;
                assert(front[i] == dir);
            }
        }
    }
}

proof fn lemma_all_files_counted(names: Seq<Seq<char>>, files: Seq<FileView>)
    requires
        order::increasing(names),
        forall|i: int|
            0 <= i < files.len() ==> names.contains(directory_of((#[trigger] files[i]).path)),
    ensures
        files_in_all(names, files) == files.len(),
    decreases files.len(),
{
    if files.len() > 0 {
        let front = files.drop_last();
        assert forall|i: int| 0 <= i < front.len() implies names.contains(
            directory_of((#[trigger] front[i]).path),
        ) by {
            assert(front[i] == files[i]);
        }
        lemma_all_files_counted(names, front);
        lemma_one_more_file(names, files);
        assert(names.contains(directory_of(files[files.len() - 1].path)));
    } else {
        lemma_no_files(names);
        assert(files =~= seq![]);
    }
}

proof fn lemma_no_files(names: Seq<Seq<char>>)
    ensures
        files_in_all(names, seq![]) == 0,
    decreases names.len(),
{
    if names.len() > 0 {
        lemma_no_files(names.drop_last());
    }
}

proof fn lemma_listed_is_counted(names: Seq<Seq<char>>, files: Seq<FileView>)
    ensures
        listed_files(
            names.map_values(|dir: Seq<char>| directory_entry(dir, files_in(files, dir))),
        ) == files_in_all(names, files),
    decreases names.len(),
{
    let entry = |dir: Seq<char>| directory_entry(dir, files_in(files, dir));
    if names.len() > 0 {
        lemma_listed_is_counted(names.drop_last(), files);
        assert(names.map_values(entry).drop_last() =~= names.drop_last().map_values(entry));
    }
}

/// Each file is listed under one directory: the directories come in the order of their paths,
/// none twice, each file is listed under its own, and the counts of all directories make up the
/// number of files.
pub proof fn every_file_is_listed_once(files: Seq<FileView>)
    ensures
        listed_files(structure_of(files)) == files.len(),
        forall|a: int, b: int|
            0 <= a < b < structure_of(files).len() ==> order::before(
                structure_of(files)[a].path,
                structure_of(files)[b].path,
            ),
        forall|i: int|
            0 <= i < files.len() ==> exists|a: int|
                0 <= a < structure_of(files).len() && (#[trigger] structure_of(files)[a]).path
                    == directory_of((#[trigger] files[i]).path) && structure_of(
                    files,
                )[a].files.contains(files[i].path),
{
    let dirs = directories(files);
    let names = order::distinct(dirs);
    let all = structure_of(files);
    order::distinct_is_increasing(dirs);
    assert forall|i: int| 0 <= i < files.len() implies names.contains(
        directory_of((#[trigger] files[i]).path),
    ) by {
        assert(dirs[i] == directory_of(files[i].path));
        assert(dirs.contains(dirs[i]));
    }
    lemma_all_files_counted(names, files);
    lemma_listed_is_counted(names, files);
    assert forall|a: int, b: int| 0 <= a < b < all.len() implies order::before(
        all[a].path,
        all[b].path,
    ) by {
        assert(order::before(names[a], names[b]));
    }
    assert forall|i: int| 0 <= i < files.len() implies exists|a: int|
        0 <= a < all.len() && (#[trigger] all[a]).path == directory_of((#[trigger] files[i]).path)
            && all[a].files.contains(files[i].path) by {
        let dir = directory_of(files[i].path);
        assert(names.contains(dir));
        let a = choose|a: int| 0 <= a < names.len() && names[a] == dir;
        assert(all[a].path == dir);
        let group = files_in(files, dir);
        lemma_file_in_its_directory(files, i);
        let g = choose|g: int| 0 <= g < group.len() && group[g] == files[i];
        assert(paths(group)[g] == files[i].path);
        assert(paths(group).contains(files[i].path));
        order::lemma_sorted(paths(group));
    }
}

proof fn lemma_file_in_its_directory(files: Seq<FileView>, i: int)
    requires
        0 <= i < files.len(),
    ensures
        files_in(files, directory_of(files[i].path)).contains(files[i]),
    decreases files.len(),
{
    let dir = directory_of(files[i].path);
    let all = files_in(files, dir);
    let front = files_in(files.drop_last(), dir);
    if i == files.len() - 1 {
        assert(all[all.len() - 1] == files[i]);
    } else {
        assert(files.drop_last()[i] == files[i]);
        lemma_file_in_its_directory(files.drop_last(), i);
        let g = choose|g: int| 0 <= g < front.len() && front[g] == files[i];
        assert(all[g] == files[i]);
    }
}

} // verus!
