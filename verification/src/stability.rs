//! The map of a project does not depend on the order in which its files are found.
use vstd::prelude::*;

use crate::analyze;
use crate::collections;
use crate::model;
use crate::model::{FileView, KeyFileView, Language};
use crate::order;
use crate::project;
use crate::ranking;
use crate::registry;
use crate::structure;
use crate::text;

verus! {

// ---------------------------------------------------------------------------
// Lists with the same items
// ---------------------------------------------------------------------------

/// Two lists have the same items.
pub open spec fn same_items<A>(s: Seq<A>, t: Seq<A>) -> bool {
    forall|x: A| #[trigger] s.contains(x) <==> t.contains(x)
}

/// The sum of the values of the items of a list.
spec fn total<A>(s: Seq<A>, f: spec_fn(A) -> int) -> int
    decreases s.len(),
{
    if s.len() == 0 {
        0
    } else {
        total(s.drop_last(), f) + f(s.last())
    }
}

proof fn lemma_total_remove<A>(s: Seq<A>, j: int, f: spec_fn(A) -> int)
    requires
        0 <= j < s.len(),
    ensures
        total(s, f) == total(s.remove(j), f) + f(s[j]),
    decreases s.len(),
{
    if j == s.len() - 1 {
        assert(s.remove(j) =~= s.drop_last());
    } else {
        lemma_total_remove(s.drop_last(), j, f);
        assert(s.remove(j).drop_last() =~= s.drop_last().remove(j));
        assert(s.remove(j).last() == s.last());
    }
}

/// A list without one of its items, where none is there twice.
proof fn lemma_without<A>(s: Seq<A>, j: int)
    requires
        s.no_duplicates(),
        0 <= j < s.len(),
    ensures
        s.remove(j).no_duplicates(),
        forall|x: A| #[trigger] s.remove(j).contains(x) <==> s.contains(x) && x != s[j],
{
    let r = s.remove(j);
    assert forall|i: int| 0 <= i < r.len() implies #[trigger] r[i] == if i < j {
        s[i]
    } else {
        s[i + 1]
    } by {}
    assert forall|x: A| #[trigger] r.contains(x) <==> s.contains(x) && x != s[j] by {
        if r.contains(x) {
            let i = choose|i: int| 0 <= i < r.len() && r[i] == x;
            let k = if i < j {
                i
            } else {
                i + 1
            };
            assert(s[k] == x);
        }
        if s.contains(x) && x != s[j] {
            let i = choose|i: int| 0 <= i < s.len() && s[i] == x;
            let k = if i < j {
                i
            } else {
                i - 1
            };
            assert(r[k] == x);
        }
    }
}

/// The sum over a list without repetition depends on its items alone.
proof fn lemma_total_same<A>(s: Seq<A>, t: Seq<A>, f: spec_fn(A) -> int)
    requires
        s.no_duplicates(),
        t.no_duplicates(),
        same_items(s, t),
    ensures
        total(s, f) == total(t, f),
    decreases s.len(),
{
    if s.len() == 0 {
        if t.len() > 0 {
            assert(t.contains(t[0]));
            assert(s.contains(t[0]));
        }
    } else {
        let n = s.len() - 1;
        let x = s[n];
        assert(s.contains(x));
        let j = choose|j: int| 0 <= j < t.len() && t[j] == x;
        lemma_total_remove(t, j, f);
        lemma_total_remove(s, n, f);
        lemma_without(s, n);
        lemma_without(t, j);
        assert(same_items(s.remove(n), t.remove(j))) by {
            assert forall|y: A| #[trigger] s.remove(n).contains(y) <==> t.remove(j).contains(y) by {
                assert(s.contains(y) <==> t.contains(y));
            }
        }
        lemma_total_same(s.remove(n), t.remove(j), f);
    }
}

/// Each item of a list stands before all that follow it.
spec fn in_order<A>(s: Seq<A>, r: spec_fn(A, A) -> bool) -> bool {
    forall|a: int, b: int| 0 <= a < b < s.len() ==> #[trigger] r(s[a], s[b])
}

/// There is one way to put items in order.
proof fn lemma_one_order<A>(s: Seq<A>, t: Seq<A>, r: spec_fn(A, A) -> bool)
    requires
        in_order(s, r),
        in_order(t, r),
        same_items(s, t),
        forall|x: A, y: A| #[trigger] r(x, y) ==> !r(y, x),
    ensures
        s == t,
    decreases s.len(),
{
    if s.len() == 0 {
        if t.len() > 0 {
            assert(t.contains(t[0]));
            assert(s.contains(t[0]));
        }
        assert(s =~= t);
    } else {
        assert(s.contains(s[0]));
        assert(t.contains(s[0]));
        assert(t.contains(t[0]));
        assert(s.contains(t[0]));
        let j = choose|j: int| 0 <= j < t.len() && t[j] == s[0];
        let i = choose|i: int| 0 <= i < s.len() && s[i] == t[0];
        if j > 0 {
            assert(r(t[0], t[j]));
            if i > 0 {
                assert(r(s[0], s[i]));
            }
        }
        assert(s[0] == t[0]);
        let u = s.drop_first();
        let v = t.drop_first();
        assert(in_order(u, r)) by {
            assert forall|a: int, b: int| 0 <= a < b < u.len() implies #[trigger] r(u[a], u[b]) by {
                assert(r(s[a + 1], s[b + 1]));
            }
        }
        assert(in_order(v, r)) by {
            assert forall|a: int, b: int| 0 <= a < b < v.len() implies #[trigger] r(v[a], v[b]) by {
                assert(r(t[a + 1], t[b + 1]));
            }
        }
        assert(same_items(u, v)) by {
            assert forall|x: A| #[trigger] u.contains(x) <==> v.contains(x) by {
                lemma_drop_first_items(s, x, r);
                lemma_drop_first_items(t, x, r);
                assert(s.contains(x) <==> t.contains(x));
            }
        }
        lemma_one_order(u, v, r);
        assert(s =~= seq![s[0]] + u);
        assert(t =~= seq![t[0]] + v);
    }
}

proof fn lemma_drop_first_items<A>(s: Seq<A>, x: A, r: spec_fn(A, A) -> bool)
    requires
        s.len() > 0,
        in_order(s, r),
        forall|x: A, y: A| #[trigger] r(x, y) ==> !r(y, x),
    ensures
        s.drop_first().contains(x) <==> s.contains(x) && x != s[0],
{
    let u = s.drop_first();
    if u.contains(x) {
        let i = choose|i: int| 0 <= i < u.len() && u[i] == x;
        assert(s[i + 1] == x);
        assert(r(s[0], s[i + 1]));
    }
    if s.contains(x) && x != s[0] {
        let i = choose|i: int| 0 <= i < s.len() && s[i] == x;
        assert(u[i - 1] == x);
    }
}

spec fn text_order() -> spec_fn(Seq<char>, Seq<char>) -> bool {
    |x: Seq<char>, y: Seq<char>| order::before(x, y)
}

/// Texts in order without repetition are told by what they are.
proof fn lemma_one_increasing(s: Seq<Seq<char>>, t: Seq<Seq<char>>)
    requires
        order::increasing(s),
        order::increasing(t),
        same_items(s, t),
    ensures
        s == t,
{
    let r = text_order();
    assert forall|x: Seq<char>, y: Seq<char>| #[trigger] r(x, y) implies !r(y, x) by {
        if order::before(y, x) {
            order::lemma_before_transitive(x, y, x);
            order::lemma_before_irreflexive(x);
        }
    }
    assert forall|a: int, b: int| 0 <= a < b < s.len() implies #[trigger] r(s[a], s[b]) by {}
    assert forall|a: int, b: int| 0 <= a < b < t.len() implies #[trigger] r(t[a], t[b]) by {}
    lemma_one_order(s, t, r);
}

/// Texts of which none is there twice are sorted without repetition.
proof fn lemma_sorted_increasing(names: Seq<Seq<char>>)
    requires
        names.no_duplicates(),
    ensures
        order::increasing(order::sorted(names)),
{
    let keys = order::plain_keys(names);
    let ord = order::ordering(keys);
    let s = order::sorted(names);
    order::ordering_exists(keys);
    order::lemma_sorted(names);
    assert forall|a: int, b: int| 0 <= a < b < s.len() implies order::before(s[a], s[b]) by {
        assert(order::key_before(keys, ord[a], ord[b]));
        if ord[a] == ord[b] {
            order::lemma_before_irreflexive(names[ord[a]]);
        }
        assert(names[ord[a]] != names[ord[b]]);
        assert(s[a] == names[ord[a]] && s[b] == names[ord[b]]);
    }
}

// ---------------------------------------------------------------------------
// The same files in another order
// ---------------------------------------------------------------------------

/// No two files have the same path.
pub open spec fn distinct_paths(files: Seq<FileView>) -> bool {
    forall|i: int, j: int|
        0 <= i < j < files.len() ==> (#[trigger] files[i]).path != (#[trigger] files[j]).path
}

/// Two lists of files with distinct paths have the same files.
pub open spec fn same_files(files: Seq<FileView>, others: Seq<FileView>) -> bool {
    &&& distinct_paths(files)
    &&& distinct_paths(others)
    &&& same_items(files, others)
}

proof fn lemma_no_duplicates(files: Seq<FileView>)
    requires
        distinct_paths(files),
    ensures
        files.no_duplicates(),
        structure::paths(files).no_duplicates(),
{
    assert forall|i: int, j: int| 0 <= i < files.len() && 0 <= j < files.len() && i != j implies files[i]
        != files[j] && structure::paths(files)[i] != structure::paths(files)[j] by {
        if i < j {
            assert(files[i].path != files[j].path);
        } else {
            assert(files[j].path != files[i].path);
        }
    }
}

/// Where one of the files has a property, one of the others has it.
proof fn lemma_some_file(files: Seq<FileView>, others: Seq<FileView>, i: int) -> (j: int)
    requires
        same_items(files, others),
        0 <= i < files.len(),
    ensures
        0 <= j < others.len(),
        others[j] == files[i],
{
    assert(files.contains(files[i]));
    choose|j: int| 0 <= j < others.len() && others[j] == files[i]
}

// Directories

proof fn lemma_files_in(files: Seq<FileView>, dir: Seq<char>)
    requires
        distinct_paths(files),
    ensures
        distinct_paths(structure::files_in(files, dir)),
        forall|f: FileView| #[trigger]
            structure::files_in(files, dir).contains(f) <==> files.contains(f)
                && structure::directory_of(f.path) == dir,
    decreases files.len(),
{
    if files.len() > 0 {
        let front = files.drop_last();
        let last = files.last();
        assert forall|i: int, j: int| 0 <= i < j < front.len() implies (#[trigger] front[i]).path
            != (#[trigger] front[j]).path by {
            assert(files[i].path != files[j].path);
        }
        lemma_files_in(front, dir);
        let old = structure::files_in(front, dir);
        let all = structure::files_in(files, dir);
        assert forall|f: FileView| files.contains(f) <==> front.contains(f) || f == last by {
            if files.contains(f) {
                let i = choose|i: int| 0 <= i < files.len() && files[i] == f;
                if i < front.len() {
                    assert(front[i] == f);
                }
            }
            if front.contains(f) {
                let i = choose|i: int| 0 <= i < front.len() && front[i] == f;
                assert(files[i] == f);
            }
            if f == last {
                assert(files[files.len() - 1] == f);
            }
        }
        if structure::directory_of(last.path) == dir {
            assert(all == old.push(last));
            assert forall|f: FileView| #[trigger] all.contains(f) <==> old.contains(f) || f
                == last by {
                if all.contains(f) {
                    let i = choose|i: int| 0 <= i < all.len() && all[i] == f;
                    if i < old.len() {
                        assert(old[i] == f);
                    }
                }
                if old.contains(f) {
                    let i = choose|i: int| 0 <= i < old.len() && old[i] == f;
                    assert(all[i] == f);
                }
                if f == last {
                    assert(all[all.len() - 1] == f);
                }
            }
            assert forall|i: int, j: int| 0 <= i < j < all.len() implies (#[trigger] all[i]).path
                != (#[trigger] all[j]).path by {
                if j == old.len() {
                    assert(old[i] == all[i]);
                    assert(old.contains(old[i]));
                    assert(front.contains(old[i]));
                    let k = choose|k: int| 0 <= k < front.len() && front[k] == old[i];
                    assert(files[k].path != files[files.len() - 1].path);
                } else {
                    assert(old[i].path != old[j].path);
                }
            }
        }
    }
}

proof fn lemma_same_role(dir: Seq<char>, files: Seq<FileView>, others: Seq<FileView>)
    requires
        same_items(files, others),
    ensures
        ranking::directory_role(dir, files) == ranking::directory_role(dir, others),
{
    lemma_same_contains(files, others, "test"@);
    lemma_same_contains(others, files, "test"@);
    lemma_same_contains(files, others, "spec"@);
    lemma_same_contains(others, files, "spec"@);
    lemma_same_language(files, others, Language::Python);
    lemma_same_language(others, files, Language::Python);
    lemma_same_language(files, others, Language::TypeScript);
    lemma_same_language(others, files, Language::TypeScript);
    lemma_same_language(files, others, Language::Rust);
    lemma_same_language(others, files, Language::Rust);
    lemma_same_language(files, others, Language::JavaScript);
    lemma_same_language(others, files, Language::JavaScript);
}

proof fn lemma_same_contains(files: Seq<FileView>, others: Seq<FileView>, p: Seq<char>)
    requires
        same_items(files, others),
    ensures
        ranking::any_contains(ranking::lower_paths(files), p) ==> ranking::any_contains(
            ranking::lower_paths(others),
            p,
        ),
{
    let a = ranking::lower_paths(files);
    let b = ranking::lower_paths(others);
    if ranking::any_contains(a, p) {
        let i = choose|i: int| 0 <= i < a.len() && text::contains(#[trigger] a[i], p);
        let j = lemma_some_file(files, others, i);
        assert(b[j] == a[i]);
    }
}

proof fn lemma_same_language(files: Seq<FileView>, others: Seq<FileView>, lang: Language)
    requires
        same_items(files, others),
    ensures
        ranking::has_language(files, lang) ==> ranking::has_language(others, lang),
{
    if ranking::has_language(files, lang) {
        let i = choose|i: int| 0 <= i < files.len() && (#[trigger] files[i]).language == lang;
        let j = lemma_some_file(files, others, i);
        assert(others[j].language == lang);
    }
}

proof fn lemma_same_paths(files: Seq<FileView>, others: Seq<FileView>)
    requires
        same_items(files, others),
    ensures
        forall|p: Seq<char>|
            structure::paths(files).contains(p) ==> structure::paths(others).contains(p),
{
    let a = structure::paths(files);
    let b = structure::paths(others);
    assert forall|p: Seq<char>| a.contains(p) implies b.contains(p) by {
        let i = choose|i: int| 0 <= i < a.len() && a[i] == p;
        let j = lemma_some_file(files, others, i);
        assert(b[j] == p);
    }
}

proof fn lemma_same_directory(dir: Seq<char>, files: Seq<FileView>, others: Seq<FileView>)
    requires
        same_files(files, others),
    ensures
        structure::directory_entry(dir, files) == structure::directory_entry(dir, others),
{
    lemma_same_role(dir, files, others);
    lemma_no_duplicates(files);
    lemma_no_duplicates(others);
    let one = |f: FileView| 1int;
    lemma_total_same(files, others, one);
    lemma_total_of_ones(files);
    lemma_total_of_ones(others);
    let a = structure::paths(files);
    let b = structure::paths(others);
    lemma_sorted_increasing(a);
    lemma_sorted_increasing(b);
    order::lemma_sorted(a);
    order::lemma_sorted(b);
    lemma_same_paths(files, others);
    lemma_same_paths(others, files);
    assert(same_items(order::sorted(a), order::sorted(b))) by {
        assert forall|p: Seq<char>| #[trigger]
            order::sorted(a).contains(p) <==> order::sorted(b).contains(p) by {
            assert(order::sorted(a).contains(p) <==> a.contains(p));
            assert(order::sorted(b).contains(p) <==> b.contains(p));
        }
    }
    lemma_one_increasing(order::sorted(a), order::sorted(b));
}

proof fn lemma_total_of_ones(files: Seq<FileView>)
    ensures
        total(files, |f: FileView| 1int) == files.len(),
    decreases files.len(),
{
    if files.len() > 0 {
        lemma_total_of_ones(files.drop_last());
    }
}

proof fn lemma_same_directories(files: Seq<FileView>, others: Seq<FileView>)
    requires
        same_items(files, others),
    ensures
        forall|d: Seq<char>|
            structure::directories(files).contains(d) ==> structure::directories(others).contains(
                d,
            ),
{
    let a = structure::directories(files);
    let b = structure::directories(others);
    assert forall|d: Seq<char>| a.contains(d) implies b.contains(d) by {
        let i = choose|i: int| 0 <= i < a.len() && a[i] == d;
        let j = lemma_some_file(files, others, i);
        assert(b[j] == d);
    }
}

/// The directories of a project with their roles and files are the same in whatever order its
/// files are found.
pub proof fn structure_ignores_walk_order(files: Seq<FileView>, others: Seq<FileView>)
    requires
        same_files(files, others),
    ensures
        structure::structure_of(files) == structure::structure_of(others),
{
    let a = structure::directories(files);
    let b = structure::directories(others);
    lemma_same_directories(files, others);
    lemma_same_directories(others, files);
    order::distinct_is_increasing(a);
    order::distinct_is_increasing(b);
    let names = order::distinct(a);
    assert(same_items(names, order::distinct(b))) by {
        assert forall|d: Seq<char>| #[trigger] names.contains(d) <==> order::distinct(b).contains(
            d,
        ) by {
            assert(names.contains(d) <==> a.contains(d));
            assert(order::distinct(b).contains(d) <==> b.contains(d));
        }
    }
    lemma_one_increasing(names, order::distinct(b));
    assert forall|i: int| 0 <= i < names.len() implies structure::structure_of(files)[i]
        == structure::structure_of(others)[i] by {
        let dir = names[i];
        lemma_files_in(files, dir);
        lemma_files_in(others, dir);
        let x = structure::files_in(files, dir);
        let y = structure::files_in(others, dir);
        assert(same_items(x, y)) by {
            assert forall|f: FileView| #[trigger] x.contains(f) <==> y.contains(f) by {
                assert(x.contains(f) <==> files.contains(f) && structure::directory_of(f.path)
                    == dir);
                assert(y.contains(f) <==> others.contains(f) && structure::directory_of(f.path)
                    == dir);
                assert(files.contains(f) <==> others.contains(f));
            }
        }
        lemma_same_directory(dir, x, y);
    }
    assert(structure::structure_of(files) =~= structure::structure_of(others));
}

// Dependencies and ranks

proof fn lemma_recorded_distinct(pairs: Seq<(Seq<char>, Seq<Seq<char>>)>)
    requires
        collections::distinct_keys(pairs),
    ensures
        collections::all_recorded(pairs) == pairs,
    decreases pairs.len(),
{
    if pairs.len() > 0 {
        let front = pairs.drop_last();
        let last = pairs.last();
        assert(collections::distinct_keys(front));
        lemma_recorded_distinct(front);
        collections::lemma_key_place(front, last.0);
        if let Some(i) = collections::key_place(front, last.0) {
            assert(pairs[i].0 != pairs[pairs.len() - 1].0);
        }
        assert(front.push(last) =~= pairs);
    } else {
        assert(pairs =~= seq![]);
    }
}

/// The graph of files with distinct paths has an entry for each of them.
proof fn lemma_graph(files: Seq<FileView>)
    requires
        distinct_paths(files),
    ensures
        structure::graph_of(files) == structure::edges(files),
        collections::distinct_keys(structure::edges(files)),
        structure::edges(files).no_duplicates(),
{
    let edges = structure::edges(files);
    assert forall|i: int, j: int| 0 <= i < j < edges.len() implies edges[i].0 != edges[j].0 by {
        assert(files[i].path != files[j].path);
    }
    assert forall|i: int, j: int| 0 <= i < edges.len() && 0 <= j < edges.len() && i
        != j implies edges[i] != edges[j] by {
        if i < j {
            assert(edges[i].0 != edges[j].0);
        } else {
            assert(edges[j].0 != edges[i].0);
        }
    }
    lemma_recorded_distinct(edges);
}

proof fn lemma_same_edges(files: Seq<FileView>, others: Seq<FileView>)
    requires
        same_items(files, others),
        registry::registry(files) == registry::registry(others),
    ensures
        forall|e: (Seq<char>, Seq<Seq<char>>)|
            structure::edges(files).contains(e) ==> structure::edges(others).contains(e),
{
    let a = structure::edges(files);
    let b = structure::edges(others);
    assert forall|e: (Seq<char>, Seq<Seq<char>>)| a.contains(e) implies b.contains(e) by {
        let i = choose|i: int| 0 <= i < a.len() && a[i] == e;
        let j = lemma_some_file(files, others, i);
        assert(b[j] == e);
    }
}

spec fn imports_path(p: Seq<char>) -> spec_fn((Seq<char>, Seq<Seq<char>>)) -> int {
    |e: (Seq<char>, Seq<Seq<char>>)|
        if e.1.contains(p) {
            1int
        } else {
            0int
        }
}

proof fn lemma_importing_is_total(graph: Seq<(Seq<char>, Seq<Seq<char>>)>, p: Seq<char>)
    ensures
        project::importing_files(graph, p) == total(graph, imports_path(p)),
    decreases graph.len(),
{
    if graph.len() > 0 {
        lemma_importing_is_total(graph.drop_last(), p);
    }
}

proof fn lemma_same_map(
    a: Seq<(Seq<char>, Seq<Seq<char>>)>,
    b: Seq<(Seq<char>, Seq<Seq<char>>)>,
)
    requires
        collections::distinct_keys(a),
        collections::distinct_keys(b),
        same_items(a, b),
    ensures
        collections::map_of(a) == collections::map_of(b),
{
    let x = collections::map_of(a);
    let y = collections::map_of(b);
    assert forall|k: Seq<char>| #[trigger] x.contains_key(k) <==> y.contains_key(k) by {
        collections::lemma_map_of_keys(a, k);
        collections::lemma_map_of_keys(b, k);
        if x.contains_key(k) {
            let i = choose|i: int| 0 <= i < a.len() && (#[trigger] a[i]).0 == k;
            assert(a.contains(a[i]));
            let j = choose|j: int| 0 <= j < b.len() && b[j] == a[i];
            assert(b[j].0 == k);
        }
        if y.contains_key(k) {
            let i = choose|i: int| 0 <= i < b.len() && (#[trigger] b[i]).0 == k;
            assert(b.contains(b[i]));
            assert(a.contains(b[i]));
            let j = choose|j: int| 0 <= j < a.len() && a[j] == b[i];
            assert(a[j].0 == k);
        }
    }
    assert forall|k: Seq<char>| #[trigger] x.contains_key(k) implies x[k] == y[k] by {
        collections::lemma_map_of_keys(a, k);
        let i = choose|i: int| 0 <= i < a.len() && (#[trigger] a[i]).0 == k;
        assert(a.contains(a[i]));
        let j = choose|j: int| 0 <= j < b.len() && b[j] == a[i];
        collections::lemma_map_of_entry(a, i);
        collections::lemma_map_of_entry(b, j);
    }
    assert(x =~= y);
}

spec fn rank_order() -> spec_fn(KeyFileView, KeyFileView) -> bool {
    |x: KeyFileView, y: KeyFileView|
        x.dependent_count > y.dependent_count || (x.dependent_count == y.dependent_count
            && order::before(x.path, y.path))
}

/// Files with distinct paths stand in one order of ranks.
proof fn lemma_rank_order(files: Seq<FileView>, graph: Seq<(Seq<char>, Seq<Seq<char>>)>)
    requires
        distinct_paths(files),
    ensures
        in_order(ranking::by_rank(files, graph), rank_order()),
        forall|k: KeyFileView| #[trigger]
            ranking::by_rank(files, graph).contains(k) <==> exists|i: int|
                0 <= i < files.len() && k == ranking::key_file(#[trigger] files[i], graph),
{
    let entries = ranking::key_file_entries(files, graph);
    let keys = ranking::rank_keys(entries);
    let ord = order::ordering(keys);
    let all = ranking::by_rank(files, graph);
    let r = rank_order();
    order::ordering_exists(keys);
    assert forall|a: int, b: int| 0 <= a < b < all.len() implies #[trigger] r(all[a], all[b]) by {
        assert(order::key_before(keys, ord[a], ord[b]));
        assert(keys[ord[a]] == (all[a].dependent_count, all[a].path));
        assert(keys[ord[b]] == (all[b].dependent_count, all[b].path));
        assert(all[a].path == files[ord[a]].path && all[b].path == files[ord[b]].path);
        if ord[a] < ord[b] {
            assert(files[ord[a]].path != files[ord[b]].path);
        } else if ord[b] < ord[a] {
            assert(files[ord[b]].path != files[ord[a]].path);
        }
    }
    assert forall|k: KeyFileView| #[trigger] all.contains(k) <==> exists|i: int|
        0 <= i < files.len() && k == ranking::key_file(#[trigger] files[i], graph) by {
        if all.contains(k) {
            let a = choose|a: int| 0 <= a < all.len() && all[a] == k;
            assert(k == ranking::key_file(files[ord[a]], graph));
        }
        if exists|i: int|
            0 <= i < files.len() && k == ranking::key_file(#[trigger] files[i], graph) {
            let i = choose|i: int|
                0 <= i < files.len() && k == ranking::key_file(#[trigger] files[i], graph);
            assert(ord.contains(i));
            let a = choose|a: int| 0 <= a < ord.len() && ord[a] == i;
            assert(all[a] == k);
        }
    }
}

/// Files depend on the same files, and as many depend on them, in whatever order they are found.
proof fn lemma_same_key_files(files: Seq<FileView>, others: Seq<FileView>, f: FileView)
    requires
        same_files(files, others),
    ensures
        ranking::key_file(f, structure::graph_of(files)) == ranking::key_file(
            f,
            structure::graph_of(others),
        ),
{
    registry::registry_ignores_walk_order(files, others);
    lemma_graph(files);
    lemma_graph(others);
    let a = structure::edges(files);
    let b = structure::edges(others);
    lemma_same_edges(files, others);
    lemma_same_edges(others, files);
    assert(same_items(a, b));
    lemma_same_map(a, b);
    project::dependents_are_importing_files(files, f.path);
    project::dependents_are_importing_files(others, f.path);
    lemma_importing_is_total(a, f.path);
    lemma_importing_is_total(b, f.path);
    lemma_total_same(a, b, imports_path(f.path));
}

proof fn lemma_same_ranked(
    files: Seq<FileView>,
    others: Seq<FileView>,
    k: KeyFileView,
)
    requires
        same_files(files, others),
        ranking::by_rank(files, structure::graph_of(files)).contains(k),
    ensures
        ranking::by_rank(others, structure::graph_of(others)).contains(k),
{
    let g = structure::graph_of(files);
    let h = structure::graph_of(others);
    lemma_rank_order(files, g);
    lemma_rank_order(others, h);
    let i = choose|i: int| 0 <= i < files.len() && k == ranking::key_file(#[trigger] files[i], g);
    let j = lemma_some_file(files, others, i);
    lemma_same_key_files(files, others, files[i]);
    assert(k == ranking::key_file(others[j], h));
}

/// The ranking of the files of a project is the same in whatever order they are found.
pub proof fn ranking_ignores_walk_order(files: Seq<FileView>, others: Seq<FileView>, max: int)
    requires
        same_files(files, others),
    ensures
        ranking::ranked(files, structure::graph_of(files), max) == ranking::ranked(
            others,
            structure::graph_of(others),
            max,
        ),
{
    let x = ranking::by_rank(files, structure::graph_of(files));
    let y = ranking::by_rank(others, structure::graph_of(others));
    let r = rank_order();
    lemma_rank_order(files, structure::graph_of(files));
    lemma_rank_order(others, structure::graph_of(others));
    assert(same_items(x, y)) by {
        assert forall|k: KeyFileView| #[trigger] x.contains(k) <==> y.contains(k) by {
            if x.contains(k) {
                lemma_same_ranked(files, others, k);
            }
            if y.contains(k) {
                lemma_same_ranked(others, files, k);
            }
        }
    }
    assert forall|a: KeyFileView, b: KeyFileView| #[trigger] r(a, b) implies !r(b, a) by {
        if order::before(a.path, b.path) && order::before(b.path, a.path) {
            order::lemma_before_transitive(a.path, b.path, a.path);
            order::lemma_before_irreflexive(a.path);
        }
    }
    lemma_one_order(x, y, r);
}

// Counts

spec fn is_test() -> spec_fn(FileView) -> int {
    |f: FileView|
        if analyze::test_path(f.path) {
            1int
        } else {
            0int
        }
}

spec fn lines_of_language(name: Seq<char>) -> spec_fn(FileView) -> int {
    |f: FileView|
        if model::language_name(f.language) == name {
            f.lines
        } else {
            0
        }
}

proof fn lemma_counts_are_totals(files: Seq<FileView>, name: Seq<char>)
    ensures
        analyze::tests_in(files) == total(files, is_test()),
        analyze::lines_in(files, name) == total(files, lines_of_language(name)),
    decreases files.len(),
{
    if files.len() > 0 {
        lemma_counts_are_totals(files.drop_last(), name);
    }
}

/// The number of tests and the lines of each language are the same in whatever order the files
/// are found.
pub proof fn counts_ignore_walk_order(
    files: Seq<FileView>,
    others: Seq<FileView>,
    name: Seq<char>,
)
    requires
        same_files(files, others),
    ensures
        analyze::tests_in(files) == analyze::tests_in(others),
        analyze::lines_in(files, name) == analyze::lines_in(others, name),
{
    lemma_no_duplicates(files);
    lemma_no_duplicates(others);
    lemma_counts_are_totals(files, name);
    lemma_counts_are_totals(others, name);
    lemma_total_same(files, others, is_test());
    lemma_total_same(files, others, lines_of_language(name));
}

} // verus!
