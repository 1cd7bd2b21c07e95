//! The map of a whole project.
use vstd::prelude::*;

use crate::analyze;
use crate::collections;
use crate::manifest;
use crate::model;
use crate::model::{FileInfo, FileView, ManifestInfo, Overview, ProjectMap};
use crate::order;
use crate::ranking;
use crate::registry;
use crate::structure;
use crate::text;

verus! {

/// A text stands at most once in a list in order without repetition.
proof fn lemma_occurs_once(s: Seq<Seq<char>>, p: Seq<char>)
    requires
        order::increasing(s),
    ensures
        collections::occurrences(s, p) == if s.contains(p) {
            1nat
        } else {
            0nat
        },
    decreases s.len(),
{
    if s.len() > 0 {
        let front = s.drop_last();
        lemma_occurs_once(front, p);
        if s.last() == p {
            assert(s[s.len() - 1] == p);
            if front.contains(p) {
                let i = choose|i: int| 0 <= i < front.len() && front[i] == p;
                assert(order::before(s[i], s[s.len() - 1]));
                order::lemma_before_irreflexive(p);
            }
        } else {
            if front.contains(p) {
                let i = choose|i: int| 0 <= i < front.len() && front[i] == p;
                assert(s[i] == p);
            }
            if s.contains(p) {
                let i = choose|i: int| 0 <= i < s.len() && s[i] == p;
                assert(front[i] == p);
            }
        }
    }
}

/// The number of files of a graph that import from a path.
pub open spec fn importing_files(
    graph: Seq<(Seq<char>, Seq<Seq<char>>)>,
    p: Seq<char>,
) -> nat
    decreases graph.len(),
{
    if graph.len() == 0 {
        0
    } else {
        importing_files(graph.drop_last(), p) + if graph.last().1.contains(p) {
            1nat
        } else {
            0nat
        }
    }
}

/// In each entry what is imported from is in order without repetition.
pub open spec fn tidy(graph: Seq<(Seq<char>, Seq<Seq<char>>)>) -> bool {
    forall|i: int| 0 <= i < graph.len() ==> order::increasing((#[trigger] graph[i]).1)
}

proof fn lemma_tidy_dependents(graph: Seq<(Seq<char>, Seq<Seq<char>>)>, p: Seq<char>)
    requires
        tidy(graph),
    ensures
        collections::dependents(graph, p) == importing_files(graph, p),
        importing_files(graph, p) <= graph.len(),
    decreases graph.len(),
{
    if graph.len() > 0 {
        let front = graph.drop_last();
        assert forall|i: int| 0 <= i < front.len() implies order::increasing(
            (#[trigger] front[i]).1,
        ) by {
            assert(graph[i] == front[i]);
        }
        lemma_tidy_dependents(front, p);
        assert(order::increasing(graph[graph.len() - 1].1));
        lemma_occurs_once(graph.last().1, p);
    }
}

proof fn lemma_recorded_tidy(pairs: Seq<(Seq<char>, Seq<Seq<char>>)>)
    requires
        tidy(pairs),
    ensures
        tidy(collections::all_recorded(pairs)),
        collections::all_recorded(pairs).len() <= pairs.len(),
    decreases pairs.len(),
{
    if pairs.len() > 0 {
        let front = pairs.drop_last();
        assert forall|i: int| 0 <= i < front.len() implies order::increasing(
            (#[trigger] front[i]).1,
        ) by {
            assert(pairs[i] == front[i]);
        }
        lemma_recorded_tidy(front);
        let old = collections::all_recorded(front);
        let new = collections::all_recorded(pairs);
        collections::lemma_key_place(old, pairs.last().0);
        assert(order::increasing(pairs[pairs.len() - 1].1));
        assert forall|i: int| 0 <= i < new.len() implies order::increasing((#[trigger] new[i]).1) by {
            if i < old.len() {
                assert(order::increasing(old[i].1));
            }
        }
    }
}

/// A file is ranked by the number of files that import from it: it counts each of them once,
/// however often it imports from the file.
pub proof fn dependents_are_importing_files(files: Seq<FileView>, p: Seq<char>)
    ensures
        collections::dependents(structure::graph_of(files), p) == importing_files(
            structure::graph_of(files),
            p,
        ),
        importing_files(structure::graph_of(files), p) <= files.len(),
{
    let edges = structure::edges(files);
    assert forall|i: int| 0 <= i < edges.len() implies order::increasing((#[trigger] edges[i]).1) by {
        let f = files[i];
        order::distinct_is_increasing(
            structure::resolved(f, f.imports, registry::registry(files)),
        );
    }
    lemma_recorded_tidy(edges);
    lemma_tidy_dependents(structure::graph_of(files), p);
}

/// Puts the map of a project together from its files, its manifests, its entry points and the
/// summary of its readme.
pub fn build_map(
    files: &Vec<FileInfo>,
    manifests: Vec<ManifestInfo>,
    entry_points: Vec<String>,
    readme_summary: Option<String>,
    max_key_files: usize,
) -> (r: ProjectMap)
    requires
        analyze::lines_fit(model::file_views(files@)),
    ensures
        r.overview@.readme_summary == text::opt_text(readme_summary),
        r.overview.languages.wf(),
        analyze::line_counts(model::file_views(files@), r.overview.languages.map()),
        r.overview@.manifests == manifest::manifest_views(manifests@),
        r.overview@.entry_points == text::texts(entry_points@),
        r.overview.test_count == analyze::tests_in(model::file_views(files@)),
        r@.structure == structure::structure_of(model::file_views(files@)),
        r@.key_files == ranking::ranked(
            model::file_views(files@),
            structure::graph_of(model::file_views(files@)),
            max_key_files as int,
        ),
{
    let ghost views = model::file_views(files@);
    let (dirs, graph) = structure::analyze_structure(files.as_slice());
    proof {
        assert(files@.len() == files.len());
        assert forall|p: Seq<char>| #[trigger]
            collections::dependents(graph@, p) <= usize::MAX by {
            dependents_are_importing_files(views, p);
        }
    }
    let key_files = ranking::rank_key_files(files.as_slice(), &graph, max_key_files);
    let overview = Overview {
        readme_summary,
        languages: analyze::count_languages(files.as_slice()),
        manifests,
        entry_points,
        test_count: analyze::count_tests(files.as_slice()),
    };
    ProjectMap { overview, structure: dirs, key_files }
}

} // verus!
