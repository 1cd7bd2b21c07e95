//! What is found in the tree of a source, by the kinds of its nodes.
use vstd::prelude::*;

use crate::model::Language;
use crate::syntax;
use crate::syntax::NodeView;
use crate::text;
use crate::text::Class;
use crate::walk;
use crate::walk::Findings;

verus! {

// ---------------------------------------------------------------------------
// Trees
// ---------------------------------------------------------------------------

/// A span is that of one of the subtrees that stand side by side between two places.
pub open spec fn side_by_side(nodes: Seq<NodeView>, lo: int, hi: int, child: (int, int)) -> bool
    decreases hi - lo,
{
    lo < hi && (child == (lo, syntax::subtree_end(nodes, lo, hi)) || side_by_side(
        nodes,
        syntax::subtree_end(nodes, lo, hi),
        hi,
        child,
    ))
}

/// A subtree is that of a child of a node.
pub open spec fn is_child(nodes: Seq<NodeView>, parent: (int, int), child: (int, int)) -> bool {
    side_by_side(nodes, parent.0 + 1, parent.1, child)
}

/// A child stands in a field of its parent, as the only one.
pub open spec fn in_field(
    nodes: Seq<NodeView>,
    parent: (int, int),
    child: (int, int),
    field: Seq<char>,
) -> bool {
    &&& is_child(nodes, parent, child)
    &&& nodes[child.0].field == Some(field)
    &&& forall|c: (int, int)| #[trigger]
        is_child(nodes, parent, c) && nodes[c.0].field == Some(field) ==> c == child
}

/// No child of a node stands in a field.
pub open spec fn field_is_empty(nodes: Seq<NodeView>, parent: (int, int), field: Seq<char>) -> bool {
    forall|c: (int, int)| #[trigger]
        is_child(nodes, parent, c) ==> nodes[c.0].field != Some(field)
}

/// The walk goes on below a node: it is no import, and in TypeScript and JavaScript no export; in
/// JavaScript it is no call of `require` and no assignment to `module.exports` or to a member of
/// `exports` either.
pub open spec fn is_passed(
    nodes: Seq<NodeView>,
    source: Seq<char>,
    lang: Language,
    span: (int, int),
) -> bool {
    let kind = nodes[span.0].kind;
    match lang {
        Language::Python => kind != "import_statement"@ && kind != "import_from_statement"@,
        Language::TypeScript => kind != "import_statement"@ && kind != "export_statement"@,
        Language::Rust => kind != "use_declaration"@,
        Language::JavaScript => {
            &&& kind != "import_statement"@
            &&& kind != "export_statement"@
            &&& kind == "call_expression"@ ==> forall|c: (int, int)| #[trigger]
                is_child(nodes, span, c) && nodes[c.0].field == Some("function"@)
                    ==> syntax::source_of(nodes, source, c.0) != Some("require"@)
            &&& kind == "assignment_expression"@ ==> forall|c: (int, int)| #[trigger]
                is_child(nodes, span, c) && nodes[c.0].field == Some("left"@)
                    ==> match syntax::source_of(nodes, source, c.0) {
                    Some(left) => left != "module.exports"@ && !text::starts(left, "exports."@),
                    None => true,
                }
        },
        Language::Other => true,
    }
}

/// A way down a tree from a subtree: each is a named child of the one before, which the walk
/// passes.
pub open spec fn is_way(
    nodes: Seq<NodeView>,
    source: Seq<char>,
    lang: Language,
    way: Seq<(int, int)>,
) -> bool {
    &&& way.len() > 0
    &&& way[0].0 < way[0].1
    &&& forall|i: int|
        0 <= i < way.len() - 1 ==> is_passed(nodes, source, lang, #[trigger] way[i]) && is_child(
            nodes,
            way[i],
            way[i + 1],
        ) && nodes[way[i + 1].0].named
}

/// A way from the root of a tree.
pub open spec fn is_way_from_root(
    nodes: Seq<NodeView>,
    source: Seq<char>,
    lang: Language,
    way: Seq<(int, int)>,
) -> bool {
    is_way(nodes, source, lang, way) && way[0] == (0int, nodes.len() as int)
}

proof fn lemma_child_bounds(nodes: Seq<NodeView>, lo: int, hi: int, child: (int, int))
    requires
        side_by_side(nodes, lo, hi, child),
    ensures
        lo <= child.0 < child.1 <= hi,
    decreases hi - lo,
{
    let e = syntax::subtree_end(nodes, lo, hi);
    if child != (lo, e) {
        lemma_child_bounds(nodes, e, hi, child);
    }
}

proof fn lemma_field(nodes: Seq<NodeView>, lo: int, hi: int, child: (int, int), field: Seq<char>)
    requires
        side_by_side(nodes, lo, hi, child),
        nodes[child.0].field == Some(field),
        forall|c: (int, int)| #[trigger]
            side_by_side(nodes, lo, hi, c) && nodes[c.0].field == Some(field) ==> c == child,
    ensures
        syntax::field_node(nodes, lo, hi, field) == Some(child),
    decreases hi - lo,
{
    let e = syntax::subtree_end(nodes, lo, hi);
    assert(side_by_side(nodes, lo, hi, (lo, e)));
    if child != (lo, e) {
        assert forall|c: (int, int)| #[trigger]
            side_by_side(nodes, e, hi, c) && nodes[c.0].field == Some(field) implies c == child by {
            assert(side_by_side(nodes, lo, hi, c));
        }
        lemma_field(nodes, e, hi, child, field);
    }
}

proof fn lemma_field_child(nodes: Seq<NodeView>, lo: int, hi: int, field: Seq<char>)
    ensures
        syntax::field_node(nodes, lo, hi, field) matches Some(c) ==> side_by_side(nodes, lo, hi, c)
            && nodes[c.0].field == Some(field),
    decreases hi - lo,
{
    if lo < hi {
        let e = syntax::subtree_end(nodes, lo, hi);
        lemma_field_child(nodes, e, hi, field);
    }
}

proof fn lemma_named(nodes: Seq<NodeView>, lo: int, hi: int)
    ensures
        forall|c: (int, int)|
            #![trigger side_by_side(nodes, lo, hi, c)]
            #![trigger syntax::named_nodes(nodes, lo, hi).contains(c)]
            syntax::named_nodes(nodes, lo, hi).contains(c) <==> side_by_side(nodes, lo, hi, c)
                && nodes[c.0].named,
    decreases hi - lo,
{
    let all = syntax::named_nodes(nodes, lo, hi);
    if lo < hi {
        let e = syntax::subtree_end(nodes, lo, hi);
        lemma_named(nodes, e, hi);
        let rest = syntax::named_nodes(nodes, e, hi);
        assert forall|c: (int, int)|
            #![trigger side_by_side(nodes, lo, hi, c)]
            #![trigger all.contains(c)]
            all.contains(c) <==> side_by_side(nodes, lo, hi, c) && nodes[c.0].named by {
            assert(rest.contains(c) <==> side_by_side(nodes, e, hi, c) && nodes[c.0].named);
            if nodes[lo].named {
                if all.contains(c) {
                    let i = all.index_of(c);
                    assert(all[i] == c);
                    if i > 0 {
                        assert(rest[i - 1] == c);
                    }
                }
                if rest.contains(c) {
                    let i = rest.index_of(c);
                    assert(all[i + 1] == c);
                }
                if c == (lo, e) {
                    assert(all[0] == c);
                }
            }
        }
    }
}

proof fn lemma_passed(
    nodes: Seq<NodeView>,
    source: Seq<char>,
    lang: Language,
    span: (int, int),
)
    requires
        is_passed(nodes, source, lang, span),
    ensures
        !walk::step_at(nodes, source, lang, span).handled,
{
    lemma_field_child(nodes, span.0 + 1, span.1, "function"@);
    lemma_field_child(nodes, span.0 + 1, span.1, "left"@);
    if let Some(c) = syntax::field_node(nodes, span.0 + 1, span.1, "function"@) {
        assert(is_child(nodes, span, c));
    }
    if let Some(c) = syntax::field_node(nodes, span.0 + 1, span.1, "left"@) {
        assert(is_child(nodes, span, c));
    }
}

/// Whether something is among the imports, or else among the symbols, that are found.
pub open spec fn has(found: Findings, imported: bool, s: Seq<char>) -> bool {
    if imported {
        found.imports.contains(s)
    } else {
        found.symbols.contains(s)
    }
}

proof fn lemma_has_either(a: Findings, b: Findings, imported: bool, s: Seq<char>)
    ensures
        has(a.then_find(b), imported, s) <==> has(a, imported, s) || has(b, imported, s),
{
    let c = a.then_find(b);
    let x = if imported { a.imports } else { a.symbols };
    let y = if imported { b.imports } else { b.symbols };
    let z = if imported { c.imports } else { c.symbols };
    assert(z == x + y);
    if x.contains(s) {
        let i = x.index_of(s);
        assert(z[i] == s);
    }
    if y.contains(s) {
        let i = y.index_of(s);
        assert(z[x.len() + i] == s);
    }
    if z.contains(s) {
        let i = z.index_of(s);
        if i < x.len() {
            assert(x[i] == s);
        } else {
            assert(y[i - x.len()] == s);
        }
    }
}

proof fn lemma_range_has(
    nodes: Seq<NodeView>,
    source: Seq<char>,
    lang: Language,
    lo: int,
    hi: int,
    child: (int, int),
    imported: bool,
    s: Seq<char>,
)
    requires
        side_by_side(nodes, lo, hi, child),
        nodes[child.0].named,
        has(walk::found_in(nodes, source, lang, child), imported, s),
    ensures
        has(walk::found_in_range(nodes, source, lang, lo, hi), imported, s),
    decreases hi - lo,
{
    let e = syntax::subtree_end(nodes, lo, hi);
    let later = walk::found_in_range(nodes, source, lang, e, hi);
    let here = walk::found_in(nodes, source, lang, (lo, e));
    if child != (lo, e) {
        lemma_range_has(nodes, source, lang, e, hi, child, imported, s);
    }
    if nodes[lo].named {
        lemma_has_either(later, here, imported, s);
    }
}

/// What is found in a subtree that a way leads to is found where the way begins.
proof fn lemma_way_has(
    nodes: Seq<NodeView>,
    source: Seq<char>,
    lang: Language,
    way: Seq<(int, int)>,
    imported: bool,
    s: Seq<char>,
)
    requires
        is_way(nodes, source, lang, way),
        has(walk::found_in(nodes, source, lang, way.last()), imported, s),
    ensures
        has(walk::found_in(nodes, source, lang, way[0]), imported, s),
    decreases way.len(),
{
    if way.len() > 1 {
        let rest = way.drop_first();
        assert(is_passed(nodes, source, lang, way[0]) && is_child(nodes, way[0], way[1]));
        lemma_child_bounds(nodes, way[0].0 + 1, way[0].1, way[1]);
        assert forall|i: int| 0 <= i < rest.len() - 1 implies is_passed(
            nodes,
            source,
            lang,
            #[trigger] rest[i],
        ) && is_child(nodes, rest[i], rest[i + 1]) && nodes[rest[i + 1].0].named by {
            assert(rest[i] == way[i + 1]);
            assert(is_passed(nodes, source, lang, way[i + 1]));
        }
        lemma_way_has(nodes, source, lang, rest, imported, s);
        lemma_passed(nodes, source, lang, way[0]);
        lemma_range_has(
            nodes,
            source,
            lang,
            way[0].0 + 1,
            way[0].1,
            way[1],
            imported,
            s,
        );
        lemma_has_either(
            walk::step_at(nodes, source, lang, way[0]).found,
            walk::found_in_range(nodes, source, lang, way[0].0 + 1, way[0].1),
            imported,
            s,
        );
    }
}

/// What a node adds is found in the tree, where a way leads to the node.
proof fn lemma_step_is_found(
    nodes: Seq<NodeView>,
    source: Seq<char>,
    lang: Language,
    way: Seq<(int, int)>,
    imported: bool,
    s: Seq<char>,
)
    requires
        is_way_from_root(nodes, source, lang, way),
        has(walk::step_at(nodes, source, lang, way.last()).found, imported, s),
    ensures
        has(walk::found_in_tree(nodes, source, lang), imported, s),
{
    let last = way.last();
    if way.len() > 1 {
        let n = way.len() - 2;
        assert(is_passed(nodes, source, lang, way[n]) && is_child(nodes, way[n], way[n + 1]));
        lemma_child_bounds(nodes, way[n].0 + 1, way[n].1, last);
    }
    lemma_has_either(
        walk::step_at(nodes, source, lang, last).found,
        walk::found_in_range(nodes, source, lang, last.0 + 1, last.1),
        imported,
        s,
    );
    lemma_way_has(nodes, source, lang, way, imported, s);
}

/// The walk goes on below a node.
#[verifier::opaque]
spec fn goes_on(
    nodes: Seq<NodeView>,
    source: Seq<char>,
    lang: Language,
    span: (int, int),
) -> bool {
    !walk::step_at(nodes, source, lang, span).handled
}

/// A node itself adds something to what is found.
#[verifier::opaque]
spec fn adds(
    nodes: Seq<NodeView>,
    source: Seq<char>,
    lang: Language,
    span: (int, int),
    imported: bool,
    s: Seq<char>,
) -> bool {
    has(walk::step_at(nodes, source, lang, span).found, imported, s)
}

/// A way down a tree on which the walk goes on.
spec fn is_open_way(
    nodes: Seq<NodeView>,
    source: Seq<char>,
    lang: Language,
    way: Seq<(int, int)>,
) -> bool {
    forall|i: int|
        0 <= i < way.len() - 1 ==> goes_on(nodes, source, lang, #[trigger] way[i]) && is_child(
            nodes,
            way[i],
            way[i + 1],
        ) && nodes[way[i + 1].0].named
}

proof fn lemma_own_or_below(
    nodes: Seq<NodeView>,
    source: Seq<char>,
    lang: Language,
    span: (int, int),
    imported: bool,
    s: Seq<char>,
)
    requires
        has(walk::found_in(nodes, source, lang, span), imported, s),
    ensures
        span.0 < span.1,
        adds(nodes, source, lang, span, imported, s) || (goes_on(nodes, source, lang, span) && has(
            walk::found_in_range(nodes, source, lang, span.0 + 1, span.1),
            imported,
            s,
        )),
{
    reveal(goes_on);
    reveal(adds);
    let step = walk::step_at(nodes, source, lang, span);
    let below = walk::found_in_range(nodes, source, lang, span.0 + 1, span.1);
    lemma_has_either(step.found, below, imported, s);
}

proof fn lemma_longer_way(
    nodes: Seq<NodeView>,
    source: Seq<char>,
    lang: Language,
    span: (int, int),
    rest: Seq<(int, int)>,
)
    requires
        goes_on(nodes, source, lang, span),
        rest.len() > 0,
        is_child(nodes, span, rest[0]),
        nodes[rest[0].0].named,
        is_open_way(nodes, source, lang, rest),
    ensures
        is_open_way(nodes, source, lang, seq![span] + rest),
        (seq![span] + rest).last() == rest.last(),
{
    let way = seq![span] + rest;
    assert forall|i: int| 0 <= i < way.len() - 1 implies goes_on(
        nodes,
        source,
        lang,
        #[trigger] way[i],
    ) && is_child(nodes, way[i], way[i + 1]) && nodes[way[i + 1].0].named by {
        if i > 0 {
            assert(way[i] == rest[i - 1]);
            assert(way[i + 1] == rest[i - 1 + 1]);
        } else {
            assert(way[1] == rest[0]);
        }
    }
}

/// What is found in a subtree is added by a node that a way leads to.
proof fn lemma_found_at(
    nodes: Seq<NodeView>,
    source: Seq<char>,
    lang: Language,
    span: (int, int),
    imported: bool,
    s: Seq<char>,
) -> (way: Seq<(int, int)>)
    requires
        has(walk::found_in(nodes, source, lang, span), imported, s),
    ensures
        way.len() > 0,
        way[0] == span,
        is_open_way(nodes, source, lang, way),
        adds(nodes, source, lang, way.last(), imported, s),
    decreases span.1 - span.0, 0int,
{
    lemma_own_or_below(nodes, source, lang, span, imported, s);
    if adds(nodes, source, lang, span, imported, s) {
        seq![span]
    } else {
        let rest = lemma_found_beside(nodes, source, lang, span.0 + 1, span.1, imported, s);
        lemma_longer_way(nodes, source, lang, span, rest);
        seq![span] + rest
    }
}

proof fn lemma_found_beside(
    nodes: Seq<NodeView>,
    source: Seq<char>,
    lang: Language,
    lo: int,
    hi: int,
    imported: bool,
    s: Seq<char>,
) -> (way: Seq<(int, int)>)
    requires
        has(walk::found_in_range(nodes, source, lang, lo, hi), imported, s),
    ensures
        way.len() > 0,
        side_by_side(nodes, lo, hi, way[0]),
        nodes[way[0].0].named,
        is_open_way(nodes, source, lang, way),
        adds(nodes, source, lang, way.last(), imported, s),
    decreases hi - lo, 1int,
{
    let e = syntax::subtree_end(nodes, lo, hi);
    let later = walk::found_in_range(nodes, source, lang, e, hi);
    let here = walk::found_in(nodes, source, lang, (lo, e));
    if nodes[lo].named {
        lemma_has_either(later, here, imported, s);
    }
    if nodes[lo].named && has(here, imported, s) {
        lemma_found_at(nodes, source, lang, (lo, e), imported, s)
    } else {
        lemma_found_beside(nodes, source, lang, e, hi, imported, s)
    }
}

/// The last children of a node come first: what is found in a later child is found before what is
/// found in an earlier one.
pub proof fn later_children_are_found_first(
    nodes: Seq<NodeView>,
    source: Seq<char>,
    lang: Language,
    parent: (int, int),
    first: (int, int),
    second: (int, int),
    a: Seq<char>,
    b: Seq<char>,
)
    requires
        parent.0 < parent.1,
        is_passed(nodes, source, lang, parent),
        is_child(nodes, parent, first),
        is_child(nodes, parent, second),
        nodes[first.0].named,
        nodes[second.0].named,
        first.0 < second.0,
        walk::found_in(nodes, source, lang, first).symbols.contains(a),
        walk::found_in(nodes, source, lang, second).symbols.contains(b),
    ensures
        exists|i: int, j: int|
            0 <= i < j < walk::found_in(nodes, source, lang, parent).symbols.len()
                && #[trigger] walk::found_in(nodes, source, lang, parent).symbols[i] == b
                && #[trigger] walk::found_in(nodes, source, lang, parent).symbols[j] == a,
{
    lemma_passed(nodes, source, lang, parent);
    let (i, j) = lemma_later_first(
        nodes,
        source,
        lang,
        parent.0 + 1,
        parent.1,
        first,
        second,
        a,
        b,
    );
    let step = walk::step_at(nodes, source, lang, parent).found;
    let below = walk::found_in_range(nodes, source, lang, parent.0 + 1, parent.1);
    let all = walk::found_in(nodes, source, lang, parent).symbols;
    assert(all == step.symbols + below.symbols);
    let n = step.symbols.len();
    assert(all[n + i] == below.symbols[i]);
    assert(all[n + j] == below.symbols[j]);
}

proof fn lemma_later_first(
    nodes: Seq<NodeView>,
    source: Seq<char>,
    lang: Language,
    lo: int,
    hi: int,
    first: (int, int),
    second: (int, int),
    a: Seq<char>,
    b: Seq<char>,
) -> (r: (int, int))
    requires
        side_by_side(nodes, lo, hi, first),
        side_by_side(nodes, lo, hi, second),
        nodes[first.0].named,
        nodes[second.0].named,
        first.0 < second.0,
        walk::found_in(nodes, source, lang, first).symbols.contains(a),
        walk::found_in(nodes, source, lang, second).symbols.contains(b),
    ensures
        0 <= r.0 < r.1 < walk::found_in_range(nodes, source, lang, lo, hi).symbols.len(),
        walk::found_in_range(nodes, source, lang, lo, hi).symbols[r.0] == b,
        walk::found_in_range(nodes, source, lang, lo, hi).symbols[r.1] == a,
    decreases hi - lo,
{
    let e = syntax::subtree_end(nodes, lo, hi);
    let later = walk::found_in_range(nodes, source, lang, e, hi);
    let here = walk::found_in(nodes, source, lang, (lo, e));
    let all = walk::found_in_range(nodes, source, lang, lo, hi).symbols;
    lemma_child_bounds(nodes, lo, hi, first);
    assert(second != (lo, e));
    if first == (lo, e) {
        lemma_range_has(nodes, source, lang, e, hi, second, false, b);
        let i = later.symbols.index_of(b);
        let j = here.symbols.index_of(a);
        assert(all[i] == b);
        assert(all[later.symbols.len() + j] == a);
        (i, later.symbols.len() + j)
    } else {
        let (i, j) = lemma_later_first(nodes, source, lang, e, hi, first, second, a, b);
        if nodes[lo].named {
            assert(all == later.symbols + here.symbols);
            assert(all[i] == later.symbols[i]);
            assert(all[j] == later.symbols[j]);
        }
        (i, j)
    }
}

/// How many symbols and how many imports are found in some subtrees together.
pub open spec fn found_in_all(
    nodes: Seq<NodeView>,
    source: Seq<char>,
    lang: Language,
    of: Seq<(int, int)>,
) -> (nat, nat)
    decreases of.len(),
{
    if of.len() == 0 {
        (0, 0)
    } else {
        let rest = found_in_all(nodes, source, lang, of.drop_first());
        let first = walk::found_in(nodes, source, lang, of[0]);
        (rest.0 + first.symbols.len(), rest.1 + first.imports.len())
    }
}

proof fn lemma_found_beside_each_other(
    nodes: Seq<NodeView>,
    source: Seq<char>,
    lang: Language,
    lo: int,
    hi: int,
)
    ensures
        ({
            let found = walk::found_in_range(nodes, source, lang, lo, hi);
            found_in_all(nodes, source, lang, syntax::named_nodes(nodes, lo, hi)) == (
                found.symbols.len(),
                found.imports.len(),
            )
        }),
    decreases hi - lo,
{
    if lo < hi {
        let e = syntax::subtree_end(nodes, lo, hi);
        lemma_found_beside_each_other(nodes, source, lang, e, hi);
        let rest = syntax::named_nodes(nodes, e, hi);
        if nodes[lo].named {
            let all = seq![(lo, e)] + rest;
            assert(all[0] == (lo, e));
            assert(all.drop_first() =~= rest);
        }
    }
}

/// Below a node that the walk passes, as much is found as in its named children together: nothing
/// is found twice, and nothing is lost.
pub proof fn everything_is_found_once(
    nodes: Seq<NodeView>,
    source: Seq<char>,
    lang: Language,
    span: (int, int),
)
    requires
        span.0 < span.1,
        is_passed(nodes, source, lang, span),
    ensures
        ({
            let own = walk::step_at(nodes, source, lang, span).found;
            let found = walk::found_in(nodes, source, lang, span);
            let below = found_in_all(
                nodes,
                source,
                lang,
                syntax::named_nodes(nodes, span.0 + 1, span.1),
            );
            &&& found.symbols.len() == own.symbols.len() + below.0
            &&& found.imports.len() == own.imports.len() + below.1
            &&& own.symbols.len() <= 1
            &&& own.imports.len() == 0
        }),
{
    lemma_passed(nodes, source, lang, span);
    lemma_found_beside_each_other(nodes, source, lang, span.0 + 1, span.1);
}

// ---------------------------------------------------------------------------
// Rust
// ---------------------------------------------------------------------------

proof fn lemma_sources(
    nodes: Seq<NodeView>,
    source: Seq<char>,
    of: Seq<(int, int)>,
    kind: Seq<char>,
    s: Seq<char>,
)
    ensures
        walk::sources_of_kind(nodes, source, of, kind).contains(s) <==> exists|c: (int, int)|
            #[trigger] of.contains(c) && nodes[c.0].kind == kind && syntax::source_of(
                nodes,
                source,
                c.0,
            ) == Some(s),
    decreases of.len(),
{
    let all = walk::sources_of_kind(nodes, source, of, kind);
    if of.len() > 0 {
        let rest = of.drop_last();
        let last = of.last();
        lemma_sources(nodes, source, rest, kind, s);
        let front = walk::sources_of_kind(nodes, source, rest, kind);
        let own = walk::single(syntax::source_of(nodes, source, last.0));
        assert(of.contains(last)) by {
            assert(of[of.len() - 1] == last);
        }
        if all.contains(s) {
            let i = all.index_of(s);
            if i < front.len() {
                assert(front[i] == s);
                let c = choose|c: (int, int)| #[trigger]
                    rest.contains(c) && nodes[c.0].kind == kind && syntax::source_of(
                        nodes,
                        source,
                        c.0,
                    ) == Some(s);
                let j = rest.index_of(c);
                assert(of[j] == c);
                assert(of.contains(c));
            } else {
                assert(own[i - front.len()] == s);
            }
        }
        if exists|c: (int, int)| #[trigger]
            of.contains(c) && nodes[c.0].kind == kind && syntax::source_of(nodes, source, c.0)
                == Some(s) {
            let c = choose|c: (int, int)| #[trigger]
                of.contains(c) && nodes[c.0].kind == kind && syntax::source_of(
                    nodes,
                    source,
                    c.0,
                ) == Some(s);
            if c == last {
                assert(all[front.len() as int] == s);
            } else {
                let j = of.index_of(c);
                assert(rest[j] == c);
                assert(rest.contains(c));
                let i = front.index_of(s);
                assert(all[i] == s);
            }
        }
    } else if all.contains(s) {
        let i = all.index_of(s);
    }
}

/// A node has a child that is a visibility modifier and reads `pub`.
pub open spec fn has_pub(nodes: Seq<NodeView>, source: Seq<char>, item: (int, int)) -> bool {
    exists|c: (int, int)| #[trigger]
        is_child(nodes, item, c) && nodes[c.0].named && nodes[c.0].kind == "visibility_modifier"@
            && syntax::source_of(nodes, source, c.0) == Some("pub"@)
}

proof fn lemma_public(nodes: Seq<NodeView>, source: Seq<char>, item: (int, int))
    ensures
        walk::public_item(nodes, source, item) <==> has_pub(nodes, source, item),
{
    let children = syntax::named_nodes(nodes, item.0 + 1, item.1);
    lemma_named(nodes, item.0 + 1, item.1);
    lemma_sources(nodes, source, children, "visibility_modifier"@, "pub"@);
    if walk::public_item(nodes, source, item) {
        let c = choose|c: (int, int)| #[trigger]
            children.contains(c) && nodes[c.0].kind == "visibility_modifier"@ && syntax::source_of(
                nodes,
                source,
                c.0,
            ) == Some("pub"@);
        assert(is_child(nodes, item, c));
    }
    if has_pub(nodes, source, item) {
        let c = choose|c: (int, int)| #[trigger]
            is_child(nodes, item, c) && nodes[c.0].named && nodes[c.0].kind
                == "visibility_modifier"@ && syntax::source_of(nodes, source, c.0) == Some("pub"@);
        assert(side_by_side(nodes, item.0 + 1, item.1, c));
        assert(children.contains(c));
    }
}

/// A function, struct, enum, trait, type, constant, static, union or module of Rust with the
/// visibility `pub` is a symbol under its name.
pub proof fn public_items_are_symbols(
    nodes: Seq<NodeView>,
    source: Seq<char>,
    way: Seq<(int, int)>,
    name: (int, int),
    n: Seq<char>,
)
    requires
        is_way_from_root(nodes, source, Language::Rust, way),
        nodes[way.last().0].kind == "function_item"@ || nodes[way.last().0].kind == "struct_item"@
            || nodes[way.last().0].kind == "enum_item"@ || nodes[way.last().0].kind
            == "trait_item"@ || nodes[way.last().0].kind == "type_item"@
            || nodes[way.last().0].kind == "const_item"@ || nodes[way.last().0].kind
            == "static_item"@ || nodes[way.last().0].kind == "union_item"@
            || nodes[way.last().0].kind == "mod_item"@,
        has_pub(nodes, source, way.last()),
        in_field(nodes, way.last(), name, "name"@),
        syntax::source_of(nodes, source, name.0) == Some(n),
    ensures
        walk::found_in_tree(nodes, source, Language::Rust).symbols.contains(n),
{
    let item = way.last();
    lemma_public(nodes, source, item);
    lemma_in_field(nodes, item, name, "name"@);
    let found = walk::step_at(nodes, source, Language::Rust, item).found;
    assert(found.symbols[0] == n);
    lemma_step_is_found(nodes, source, Language::Rust, way, false, n);
}

proof fn lemma_in_field(
    nodes: Seq<NodeView>,
    parent: (int, int),
    child: (int, int),
    field: Seq<char>,
)
    requires
        in_field(nodes, parent, child, field),
    ensures
        syntax::field_node(nodes, parent.0 + 1, parent.1, field) == Some(child),
{
    assert forall|c: (int, int)| #[trigger]
        side_by_side(nodes, parent.0 + 1, parent.1, c) && nodes[c.0].field == Some(
            field,
        ) implies c == child by {
        assert(is_child(nodes, parent, c));
    }
    lemma_field(nodes, parent.0 + 1, parent.1, child, field);
}

proof fn lemma_no_field(nodes: Seq<NodeView>, parent: (int, int), field: Seq<char>)
    requires
        field_is_empty(nodes, parent, field),
    ensures
        syntax::field_node(nodes, parent.0 + 1, parent.1, field) is None,
{
    lemma_field_child(nodes, parent.0 + 1, parent.1, field);
    if let Some(c) = syntax::field_node(nodes, parent.0 + 1, parent.1, field) {
        assert(is_child(nodes, parent, c));
    }
}

/// The argument of a `use` declaration of Rust is an import.
pub proof fn used_paths_are_imports(
    nodes: Seq<NodeView>,
    source: Seq<char>,
    way: Seq<(int, int)>,
    argument: (int, int),
    path: Seq<char>,
)
    requires
        is_way_from_root(nodes, source, Language::Rust, way),
        nodes[way.last().0].kind == "use_declaration"@,
        in_field(nodes, way.last(), argument, "argument"@),
        syntax::source_of(nodes, source, argument.0) == Some(path),
    ensures
        walk::found_in_tree(nodes, source, Language::Rust).imports.contains(path),
{
    let item = way.last();
    lemma_in_field(nodes, item, argument, "argument"@);
    lemma_rust_kinds();
    let found = walk::step_at(nodes, source, Language::Rust, item).found;
    assert(found.imports[0] == path);
    lemma_step_is_found(nodes, source, Language::Rust, way, true, path);
}

/// A `use` declaration is no item.
proof fn lemma_rust_kinds()
    ensures
        !walk::item_kind("use_declaration"@),
{
    reveal_strlit("use_declaration");
    reveal_strlit("function_item");
    reveal_strlit("struct_item");
    reveal_strlit("enum_item");
    reveal_strlit("trait_item");
    reveal_strlit("type_item");
    reveal_strlit("const_item");
    reveal_strlit("static_item");
    reveal_strlit("union_item");
    reveal_strlit("mod_item");
    assert("use_declaration"@[0] == 'u' && "use_declaration"@.len() == 15);
}

/// A node of a tree has a child in a field that reads as a text.
pub open spec fn field_reads(
    nodes: Seq<NodeView>,
    source: Seq<char>,
    span: (int, int),
    field: Seq<char>,
    s: Seq<char>,
) -> bool {
    exists|c: (int, int)| #[trigger]
        is_child(nodes, span, c) && nodes[c.0].field == Some(field) && syntax::source_of(
            nodes,
            source,
            c.0,
        ) == Some(s)
}

proof fn lemma_field_reads(
    nodes: Seq<NodeView>,
    source: Seq<char>,
    span: (int, int),
    field: Seq<char>,
    s: Seq<char>,
)
    requires
        syntax::field_source(nodes, source, span, field) == Some(s),
    ensures
        field_reads(nodes, source, span, field, s),
{
    lemma_field_child(nodes, span.0 + 1, span.1, field);
    let c = syntax::field_node(nodes, span.0 + 1, span.1, field)->Some_0;
    assert(is_child(nodes, span, c));
}

/// A node below the root of a tree, or the root, to which each node on the way is named.
pub open spec fn is_below_root(nodes: Seq<NodeView>, way: Seq<(int, int)>) -> bool {
    &&& way.len() > 0
    &&& way[0] == (0int, nodes.len() as int)
    &&& forall|i: int|
        0 <= i < way.len() - 1 ==> is_child(nodes, #[trigger] way[i], way[i + 1])
            && nodes[way[i + 1].0].named
}

/// A node in the tree of Rust that gives a symbol: an item with the visibility `pub` and the symbol
/// as its name.
pub open spec fn is_public_item_named(
    nodes: Seq<NodeView>,
    source: Seq<char>,
    way: Seq<(int, int)>,
    n: Seq<char>,
) -> bool {
    let kind = nodes[way.last().0].kind;
    &&& is_below_root(nodes, way)
    &&& kind == "function_item"@ || kind == "struct_item"@ || kind == "enum_item"@ || kind
        == "trait_item"@ || kind == "type_item"@ || kind == "const_item"@ || kind
        == "static_item"@ || kind == "union_item"@ || kind == "mod_item"@
    &&& has_pub(nodes, source, way.last())
    &&& field_reads(nodes, source, way.last(), "name"@, n)
}

/// Nothing but the names of public items are the symbols of a source of Rust.
pub proof fn symbols_are_public_items(nodes: Seq<NodeView>, source: Seq<char>, n: Seq<char>)
    requires
        walk::found_in_tree(nodes, source, Language::Rust).symbols.contains(n),
    ensures
        exists|way: Seq<(int, int)>| #[trigger] is_public_item_named(nodes, source, way, n),
{
    let span = (0int, nodes.len() as int);
    let way = lemma_found_at(nodes, source, Language::Rust, span, false, n);
    let item = way.last();
    reveal(adds);
    lemma_public(nodes, source, item);
    let found = walk::step_at(nodes, source, Language::Rust, item).found;
    let i = found.symbols.index_of(n);
    assert(found.symbols[i] == n);
    lemma_field_reads(nodes, source, item, "name"@, n);
    assert(is_public_item_named(nodes, source, way, n));
}

/// A node in the tree of Rust that gives an import: a `use` declaration with it as its argument.
pub open spec fn is_use_of(
    nodes: Seq<NodeView>,
    source: Seq<char>,
    way: Seq<(int, int)>,
    path: Seq<char>,
) -> bool {
    &&& is_below_root(nodes, way)
    &&& nodes[way.last().0].kind == "use_declaration"@
    &&& field_reads(nodes, source, way.last(), "argument"@, path)
}

/// Nothing but the arguments of `use` declarations are the imports of a source of Rust.
pub proof fn imports_are_used_paths(nodes: Seq<NodeView>, source: Seq<char>, path: Seq<char>)
    requires
        walk::found_in_tree(nodes, source, Language::Rust).imports.contains(path),
    ensures
        exists|way: Seq<(int, int)>| #[trigger] is_use_of(nodes, source, way, path),
{
    let span = (0int, nodes.len() as int);
    let way = lemma_found_at(nodes, source, Language::Rust, span, true, path);
    let item = way.last();
    reveal(adds);
    let found = walk::step_at(nodes, source, Language::Rust, item).found;
    let i = found.imports.index_of(path);
    assert(found.imports[i] == path);
    lemma_field_reads(nodes, source, item, "argument"@, path);
    assert(is_use_of(nodes, source, way, path));
}

// ---------------------------------------------------------------------------
// Python
// ---------------------------------------------------------------------------

/// A function or a class of Python is a symbol under its name.
pub proof fn definitions_are_symbols(
    nodes: Seq<NodeView>,
    source: Seq<char>,
    way: Seq<(int, int)>,
    name: (int, int),
    n: Seq<char>,
)
    requires
        is_way_from_root(nodes, source, Language::Python, way),
        nodes[way.last().0].kind == "function_definition"@ || nodes[way.last().0].kind
            == "class_definition"@,
        in_field(nodes, way.last(), name, "name"@),
        syntax::source_of(nodes, source, name.0) == Some(n),
    ensures
        walk::found_in_tree(nodes, source, Language::Python).symbols.contains(n),
{
    let item = way.last();
    lemma_in_field(nodes, item, name, "name"@);
    let found = walk::step_at(nodes, source, Language::Python, item).found;
    assert(found.symbols[0] == n);
    lemma_step_is_found(nodes, source, Language::Python, way, false, n);
}

/// A definition in a tree of Python with a name.
pub open spec fn is_definition_named(
    nodes: Seq<NodeView>,
    source: Seq<char>,
    way: Seq<(int, int)>,
    n: Seq<char>,
) -> bool {
    let kind = nodes[way.last().0].kind;
    &&& is_below_root(nodes, way)
    &&& kind == "function_definition"@ || kind == "class_definition"@
    &&& field_reads(nodes, source, way.last(), "name"@, n)
}

/// Nothing but the names of functions and classes are the symbols of a source of Python.
pub proof fn symbols_are_definitions(nodes: Seq<NodeView>, source: Seq<char>, n: Seq<char>)
    requires
        walk::found_in_tree(nodes, source, Language::Python).symbols.contains(n),
    ensures
        exists|way: Seq<(int, int)>| #[trigger] is_definition_named(nodes, source, way, n),
{
    let span = (0int, nodes.len() as int);
    let way = lemma_found_at(nodes, source, Language::Python, span, false, n);
    let item = way.last();
    reveal(adds);
    let found = walk::step_at(nodes, source, Language::Python, item).found;
    let i = found.symbols.index_of(n);
    assert(found.symbols[i] == n);
    lemma_field_reads(nodes, source, item, "name"@, n);
    assert(is_definition_named(nodes, source, way, n));
}

proof fn lemma_imported(
    nodes: Seq<NodeView>,
    source: Seq<char>,
    of: Seq<(int, int)>,
    c: (int, int),
    s: Seq<char>,
)
    requires
        of.contains(c),
        walk::imported_name(nodes, source, c) == Some(s),
    ensures
        walk::imported_names(nodes, source, of).contains(s),
    decreases of.len(),
{
    let rest = of.drop_last();
    let front = walk::imported_names(nodes, source, rest);
    let all = walk::imported_names(nodes, source, of);
    if c == of.last() {
        assert(all[front.len() as int] == s);
    } else {
        let i = of.index_of(c);
        assert(rest[i] == c);
        lemma_imported(nodes, source, rest, c, s);
        let j = front.index_of(s);
        assert(all[j] == s);
    }
}

/// An `import` of Python imports each dotted name that it lists, also one with an alias.
pub proof fn imported_modules_are_imports(
    nodes: Seq<NodeView>,
    source: Seq<char>,
    way: Seq<(int, int)>,
    part: (int, int),
    name: (int, int),
    n: Seq<char>,
)
    requires
        is_way_from_root(nodes, source, Language::Python, way),
        nodes[way.last().0].kind == "import_statement"@,
        is_child(nodes, way.last(), part),
        nodes[part.0].named,
        (nodes[part.0].kind == "dotted_name"@ && part == name) || (nodes[part.0].kind
            == "aliased_import"@ && in_field(nodes, part, name, "name"@)),
        syntax::source_of(nodes, source, name.0) == Some(n),
    ensures
        walk::found_in_tree(nodes, source, Language::Python).imports.contains(n),
{
    let item = way.last();
    lemma_python_kinds();
    if nodes[part.0].kind == "aliased_import"@ {
        lemma_in_field(nodes, part, name, "name"@);
    }
    let parts = syntax::named_nodes(nodes, item.0 + 1, item.1);
    lemma_named(nodes, item.0 + 1, item.1);
    assert(side_by_side(nodes, item.0 + 1, item.1, part));
    assert(parts.contains(part));
    lemma_imported(nodes, source, parts, part, n);
    lemma_step_is_found(nodes, source, Language::Python, way, true, n);
}

proof fn lemma_python_kinds()
    ensures
        "import_statement"@ != "function_definition"@,
        "import_statement"@ != "class_definition"@,
        "import_from_statement"@ != "function_definition"@,
        "import_from_statement"@ != "class_definition"@,
        "import_from_statement"@ != "import_statement"@,
        "aliased_import"@ != "dotted_name"@,
        "relative_import"@ != "dotted_name"@,
        "relative_import"@ != "aliased_import"@,
{
    reveal_strlit("import_statement");
    reveal_strlit("import_from_statement");
    reveal_strlit("function_definition");
    reveal_strlit("class_definition");
    reveal_strlit("aliased_import");
    reveal_strlit("dotted_name");
    reveal_strlit("relative_import");
    assert("import_statement"@[0] == 'i');
    assert("import_from_statement"@[0] == 'i');
    assert("import_from_statement"@.len() != "import_statement"@.len());
    assert("function_definition"@[0] == 'f');
    assert("class_definition"@[0] == 'c');
    assert("aliased_import"@[0] == 'a');
    assert("relative_import"@[0] == 'r');
}

/// A `from` import of Python of a module that is not relative imports the module.
pub proof fn from_imports_name_their_module(
    nodes: Seq<NodeView>,
    source: Seq<char>,
    way: Seq<(int, int)>,
    module: (int, int),
    n: Seq<char>,
)
    requires
        is_way_from_root(nodes, source, Language::Python, way),
        nodes[way.last().0].kind == "import_from_statement"@,
        in_field(nodes, way.last(), module, "module_name"@),
        nodes[module.0].kind != "relative_import"@,
        syntax::source_of(nodes, source, module.0) == Some(n),
    ensures
        walk::found_in_tree(nodes, source, Language::Python).imports.contains(n),
{
    let item = way.last();
    lemma_python_kinds();
    lemma_in_field(nodes, item, module, "module_name"@);
    let found = walk::step_at(nodes, source, Language::Python, item).found;
    assert(found.imports[0] == n);
    lemma_step_is_found(nodes, source, Language::Python, way, true, n);
}

proof fn lemma_sources_front(
    nodes: Seq<NodeView>,
    source: Seq<char>,
    first: (int, int),
    rest: Seq<(int, int)>,
    kind: Seq<char>,
)
    ensures
        walk::sources_of_kind(nodes, source, seq![first] + rest, kind) == (if nodes[first.0].kind
            == kind {
            walk::single(syntax::source_of(nodes, source, first.0))
        } else {
            seq![]
        }) + walk::sources_of_kind(nodes, source, rest, kind),
    decreases rest.len(),
{
    let all = seq![first] + rest;
    let own = if nodes[first.0].kind == kind {
        walk::single(syntax::source_of(nodes, source, first.0))
    } else {
        seq![]
    };
    if rest.len() == 0 {
        assert(all.drop_last() =~= seq![]);
        assert(all.last() == first);
        assert(walk::sources_of_kind(nodes, source, all.drop_last(), kind) =~= seq![]);
        assert(walk::sources_of_kind(nodes, source, rest, kind) =~= seq![]);
        assert(walk::sources_of_kind(nodes, source, all, kind) =~= own);
        assert(own + walk::sources_of_kind(nodes, source, rest, kind) =~= own);
    } else {
        lemma_sources_front(nodes, source, first, rest.drop_last(), kind);
        assert(all.drop_last() =~= seq![first] + rest.drop_last());
        assert(all.last() == rest.last());
        let a = walk::sources_of_kind(nodes, source, rest.drop_last(), kind);
        let b = walk::single(syntax::source_of(nodes, source, rest.last().0));
        assert(own + a + b =~= own + (a + b));
    }
}

proof fn lemma_first_source(
    nodes: Seq<NodeView>,
    source: Seq<char>,
    lo: int,
    hi: int,
    child: (int, int),
    kind: Seq<char>,
    s: Seq<char>,
)
    requires
        side_by_side(nodes, lo, hi, child),
        nodes[child.0].named,
        nodes[child.0].kind == kind,
        syntax::source_of(nodes, source, child.0) == Some(s),
        forall|c: (int, int)| #[trigger]
            side_by_side(nodes, lo, hi, c) && c.0 < child.0 ==> nodes[c.0].kind != kind,
    ensures
        walk::first_of(
            walk::sources_of_kind(nodes, source, syntax::named_nodes(nodes, lo, hi), kind),
        ) == Some(s),
    decreases hi - lo,
{
    let e = syntax::subtree_end(nodes, lo, hi);
    let rest = syntax::named_nodes(nodes, e, hi);
    let all = syntax::named_nodes(nodes, lo, hi);
    let more = walk::sources_of_kind(nodes, source, rest, kind);
    assert(side_by_side(nodes, lo, hi, (lo, e)));
    if child == (lo, e) {
        lemma_sources_front(nodes, source, (lo, e), rest, kind);
        assert((walk::single(Some(s)) + more)[0] == s);
    } else {
        lemma_child_bounds(nodes, e, hi, child);
        assert(nodes[lo].kind != kind);
        assert forall|c: (int, int)| #[trigger]
            side_by_side(nodes, e, hi, c) && c.0 < child.0 implies nodes[c.0].kind != kind by {
            assert(side_by_side(nodes, lo, hi, c));
        }
        lemma_first_source(nodes, source, e, hi, child, kind, s);
        if nodes[lo].named {
            lemma_sources_front(nodes, source, (lo, e), rest, kind);
            assert(seq![] + more =~= more);
        }
    }
}

proof fn lemma_no_source(
    nodes: Seq<NodeView>,
    source: Seq<char>,
    lo: int,
    hi: int,
    kind: Seq<char>,
)
    requires
        forall|c: (int, int)| #[trigger]
            side_by_side(nodes, lo, hi, c) && nodes[c.0].named ==> nodes[c.0].kind != kind,
    ensures
        walk::first_of(
            walk::sources_of_kind(nodes, source, syntax::named_nodes(nodes, lo, hi), kind),
        ) is None,
{
    let of = syntax::named_nodes(nodes, lo, hi);
    let all = walk::sources_of_kind(nodes, source, of, kind);
    if all.len() > 0 {
        lemma_named(nodes, lo, hi);
        lemma_sources(nodes, source, of, kind, all[0]);
        assert(all.contains(all[0]));
        let c = choose|c: (int, int)| #[trigger]
            of.contains(c) && nodes[c.0].kind == kind && syntax::source_of(nodes, source, c.0)
                == Some(all[0]);
        assert(side_by_side(nodes, lo, hi, c));
    }
}

proof fn lemma_imported_front(
    nodes: Seq<NodeView>,
    source: Seq<char>,
    first: (int, int),
    rest: Seq<(int, int)>,
)
    ensures
        walk::imported_names(nodes, source, seq![first] + rest) == walk::single(
            walk::imported_name(nodes, source, first),
        ) + walk::imported_names(nodes, source, rest),
    decreases rest.len(),
{
    let all = seq![first] + rest;
    let own = walk::single(walk::imported_name(nodes, source, first));
    if rest.len() == 0 {
        assert(all.drop_last() =~= seq![]);
        assert(all.last() == first);
        assert(walk::imported_names(nodes, source, all.drop_last()) =~= seq![]);
        assert(walk::imported_names(nodes, source, rest) =~= seq![]);
        assert(walk::imported_names(nodes, source, all) =~= own);
        assert(own + walk::imported_names(nodes, source, rest) =~= own);
    } else {
        lemma_imported_front(nodes, source, first, rest.drop_last());
        assert(all.drop_last() =~= seq![first] + rest.drop_last());
        assert(all.last() == rest.last());
        let a = walk::imported_names(nodes, source, rest.drop_last());
        let b = walk::single(walk::imported_name(nodes, source, rest.last()));
        assert(own + a + b =~= own + (a + b));
    }
}

proof fn lemma_first_imported(
    nodes: Seq<NodeView>,
    source: Seq<char>,
    lo: int,
    hi: int,
    child: (int, int),
    s: Seq<char>,
)
    requires
        side_by_side(nodes, lo, hi, child),
        nodes[child.0].named,
        walk::imported_name(nodes, source, child) == Some(s),
        forall|c: (int, int)| #[trigger]
            side_by_side(nodes, lo, hi, c) && c.0 < child.0 ==> nodes[c.0].kind != "dotted_name"@
                && nodes[c.0].kind != "aliased_import"@,
    ensures
        walk::first_of(
            walk::imported_names(nodes, source, syntax::named_nodes(nodes, lo, hi)),
        ) == Some(s),
    decreases hi - lo,
{
    let e = syntax::subtree_end(nodes, lo, hi);
    let rest = syntax::named_nodes(nodes, e, hi);
    let more = walk::imported_names(nodes, source, rest);
    assert(side_by_side(nodes, lo, hi, (lo, e)));
    if child == (lo, e) {
        lemma_imported_front(nodes, source, (lo, e), rest);
        assert((walk::single(Some(s)) + more)[0] == s);
    } else {
        lemma_child_bounds(nodes, e, hi, child);
        assert forall|c: (int, int)| #[trigger]
            side_by_side(nodes, e, hi, c) && c.0 < child.0 implies nodes[c.0].kind
            != "dotted_name"@ && nodes[c.0].kind != "aliased_import"@ by {
            assert(side_by_side(nodes, lo, hi, c));
        }
        lemma_first_imported(nodes, source, e, hi, child, s);
        if nodes[lo].named {
            lemma_imported_front(nodes, source, (lo, e), rest);
            assert(seq![] + more =~= more);
        }
    }
}

/// A `from` import of Python of a module below the package of the file imports the module as a
/// relative specifier: with slashes in place of dots.
pub proof fn relative_modules_become_specifiers(
    nodes: Seq<NodeView>,
    source: Seq<char>,
    way: Seq<(int, int)>,
    module: (int, int),
    name: (int, int),
    n: Seq<char>,
)
    requires
        is_way_from_root(nodes, source, Language::Python, way),
        nodes[way.last().0].kind == "import_from_statement"@,
        in_field(nodes, way.last(), module, "module_name"@),
        nodes[module.0].kind == "relative_import"@,
        syntax::source_of(nodes, source, module.0) is Some,
        is_child(nodes, module, name),
        nodes[name.0].named,
        nodes[name.0].kind == "dotted_name"@,
        forall|c: (int, int)| #[trigger]
            is_child(nodes, module, c) && c.0 < name.0 ==> nodes[c.0].kind != "dotted_name"@,
        syntax::source_of(nodes, source, name.0) == Some(n),
    ensures
        walk::found_in_tree(nodes, source, Language::Python).imports.contains(
            "./"@ + Seq::new(
                n.len(),
                |i: int|
                    if n[i] == '.' {
                        '/'
                    } else {
                        n[i]
                    },
            ),
        ),
{
    let item = way.last();
    lemma_python_kinds();
    lemma_in_field(nodes, item, module, "module_name"@);
    assert forall|c: (int, int)| #[trigger]
        side_by_side(nodes, module.0 + 1, module.1, c) && c.0 < name.0 implies nodes[c.0].kind
        != "dotted_name"@ by {
        assert(is_child(nodes, module, c));
    }
    lemma_first_source(nodes, source, module.0 + 1, module.1, name, "dotted_name"@, n);
    let r = Seq::new(
        n.len(),
        |i: int|
            if n[i] == '.' {
                '/'
            } else {
                n[i]
            },
    );
    lemma_replaced(n);
    let found = walk::step_at(nodes, source, Language::Python, item).found;
    assert(found.imports[0] == "./"@ + r);
    lemma_step_is_found(nodes, source, Language::Python, way, true, "./"@ + r);
}

proof fn lemma_replaced(n: Seq<char>)
    ensures
        text::replace(n, '.', '/') == Seq::new(
            n.len(),
            |i: int|
                if n[i] == '.' {
                    '/'
                } else {
                    n[i]
                },
        ),
{
    assert(text::replace(n, '.', '/') =~= Seq::new(
        n.len(),
        |i: int|
            if n[i] == '.' {
                '/'
            } else {
                n[i]
            },
    ));
}

/// A `from` import of Python out of the package of the file itself imports the first name that it
/// lists, as a relative specifier: up to its first dot.
pub proof fn package_imports_become_specifiers(
    nodes: Seq<NodeView>,
    source: Seq<char>,
    way: Seq<(int, int)>,
    module: (int, int),
    part: (int, int),
    name: (int, int),
    a: Seq<char>,
    b: Seq<char>,
)
    requires
        is_way_from_root(nodes, source, Language::Python, way),
        nodes[way.last().0].kind == "import_from_statement"@,
        in_field(nodes, way.last(), module, "module_name"@),
        nodes[module.0].kind == "relative_import"@,
        syntax::source_of(nodes, source, module.0) is Some,
        forall|c: (int, int)| #[trigger]
            is_child(nodes, module, c) && nodes[c.0].named ==> nodes[c.0].kind != "dotted_name"@,
        is_child(nodes, way.last(), part),
        nodes[part.0].named,
        (nodes[part.0].kind == "dotted_name"@ && part == name) || (nodes[part.0].kind
            == "aliased_import"@ && in_field(nodes, part, name, "name"@)),
        forall|c: (int, int)| #[trigger]
            is_child(nodes, way.last(), c) && c.0 < part.0 ==> nodes[c.0].kind != "dotted_name"@
                && nodes[c.0].kind != "aliased_import"@,
        forall|j: int| 0 <= j < a.len() ==> #[trigger] a[j] != '.',
        syntax::source_of(nodes, source, name.0) == Some(a) || syntax::source_of(
            nodes,
            source,
            name.0,
        ) == Some(a + "."@ + b),
    ensures
        walk::found_in_tree(nodes, source, Language::Python).imports.contains("./"@ + a),
{
    let item = way.last();
    let k = Class::Only('.');
    lemma_python_kinds();
    lemma_in_field(nodes, item, module, "module_name"@);
    assert forall|c: (int, int)| #[trigger]
        side_by_side(nodes, module.0 + 1, module.1, c) && nodes[c.0].named implies nodes[c.0].kind
        != "dotted_name"@ by {
        assert(is_child(nodes, module, c));
    }
    lemma_no_source(nodes, source, module.0 + 1, module.1, "dotted_name"@);
    if nodes[part.0].kind == "aliased_import"@ {
        lemma_in_field(nodes, part, name, "name"@);
    }
    assert forall|c: (int, int)| #[trigger]
        side_by_side(nodes, item.0 + 1, item.1, c) && c.0 < part.0 implies nodes[c.0].kind
        != "dotted_name"@ && nodes[c.0].kind != "aliased_import"@ by {
        assert(is_child(nodes, item, c));
    }
    let n = syntax::source_of(nodes, source, name.0)->Some_0;
    lemma_first_imported(nodes, source, item.0 + 1, item.1, part, n);
    text::lemma_split_whole(a, k);
    if n != a {
        reveal_strlit(".");
        assert(n =~= a.push('.') + b);
        text::lemma_split_concat(a, '.', b, k);
        assert((seq![a] + text::split(b, k))[0] == a);
    }
    let found = walk::step_at(nodes, source, Language::Python, item).found;
    assert(found.imports[0] == "./"@ + a);
    lemma_step_is_found(nodes, source, Language::Python, way, true, "./"@ + a);
}

/// A part of an import names something: a dotted name itself, an import with an alias by its name.
pub open spec fn names_import(
    nodes: Seq<NodeView>,
    source: Seq<char>,
    part: (int, int),
    s: Seq<char>,
) -> bool {
    ||| nodes[part.0].kind == "dotted_name"@ && syntax::source_of(nodes, source, part.0) == Some(s)
    ||| nodes[part.0].kind == "aliased_import"@ && field_reads(nodes, source, part, "name"@, s)
}

/// A named child of a statement names an import.
pub open spec fn lists_import(
    nodes: Seq<NodeView>,
    source: Seq<char>,
    statement: (int, int),
    s: Seq<char>,
) -> bool {
    exists|c: (int, int)| #[trigger]
        is_child(nodes, statement, c) && nodes[c.0].named && names_import(nodes, source, c, s)
}

/// A statement in a tree of Python that gives an import: an `import` that lists it, or a `from`
/// import with it as its module or with a specifier for a relative module.
pub open spec fn is_import_of(
    nodes: Seq<NodeView>,
    source: Seq<char>,
    way: Seq<(int, int)>,
    s: Seq<char>,
) -> bool {
    let kind = nodes[way.last().0].kind;
    &&& is_below_root(nodes, way)
    &&& (kind == "import_statement"@ && lists_import(nodes, source, way.last(), s)) || (kind
        == "import_from_statement"@ && (field_reads(
        nodes,
        source,
        way.last(),
        "module_name"@,
        s,
    ) || text::starts(s, "./"@)))
}

proof fn lemma_names_import(
    nodes: Seq<NodeView>,
    source: Seq<char>,
    statement: (int, int),
    of: Seq<(int, int)>,
    s: Seq<char>,
)
    requires
        forall|c: (int, int)| #[trigger]
            of.contains(c) ==> is_child(nodes, statement, c) && nodes[c.0].named,
        walk::imported_names(nodes, source, of).contains(s),
    ensures
        lists_import(nodes, source, statement, s),
    decreases of.len(),
{
    let all = walk::imported_names(nodes, source, of);
    let i = all.index_of(s);
    if of.len() > 0 {
        let rest = of.drop_last();
        let last = of.last();
        let front = walk::imported_names(nodes, source, rest);
        assert(of[of.len() - 1] == last);
        assert(of.contains(last));
        if i < front.len() {
            assert(front[i] == s);
            assert forall|c: (int, int)| #[trigger] rest.contains(c) implies is_child(
                nodes,
                statement,
                c,
            ) && nodes[c.0].named by {
                let j = rest.index_of(c);
                assert(of[j] == c);
                assert(of.contains(c));
            }
            lemma_names_import(nodes, source, statement, rest, s);
        } else {
            let own = walk::single(walk::imported_name(nodes, source, last));
            assert(own[i - front.len()] == s);
            if nodes[last.0].kind != "dotted_name"@ {
                lemma_field_reads(nodes, source, last, "name"@, s);
            }
            assert(names_import(nodes, source, last, s));
        }
    }
}

/// Nothing but import statements gives imports of a source of Python.
pub proof fn imports_are_import_statements(nodes: Seq<NodeView>, source: Seq<char>, s: Seq<char>)
    requires
        walk::found_in_tree(nodes, source, Language::Python).imports.contains(s),
    ensures
        exists|way: Seq<(int, int)>| #[trigger] is_import_of(nodes, source, way, s),
{
    let span = (0int, nodes.len() as int);
    let way = lemma_found_at(nodes, source, Language::Python, span, true, s);
    let item = way.last();
    assert(is_below_root(nodes, way));
    lemma_python_step_imports(nodes, source, item, s);
    assert(is_import_of(nodes, source, way, s));
}

proof fn lemma_python_step_imports(
    nodes: Seq<NodeView>,
    source: Seq<char>,
    item: (int, int),
    s: Seq<char>,
)
    requires
        adds(nodes, source, Language::Python, item, true, s),
    ensures
        (nodes[item.0].kind == "import_statement"@ && lists_import(nodes, source, item, s)) || (
        nodes[item.0].kind == "import_from_statement"@ && (field_reads(
            nodes,
            source,
            item,
            "module_name"@,
            s,
        ) || text::starts(s, "./"@))),
{
    reveal(adds);
    let found = walk::step_at(nodes, source, Language::Python, item).found;
    let i = found.imports.index_of(s);
    assert(found.imports[i] == s);
    if nodes[item.0].kind == "import_statement"@ {
        let parts = syntax::named_nodes(nodes, item.0 + 1, item.1);
        lemma_named(nodes, item.0 + 1, item.1);
        assert forall|c: (int, int)| #[trigger] parts.contains(c) implies is_child(
            nodes,
            item,
            c,
        ) && nodes[c.0].named by {
            assert(side_by_side(nodes, item.0 + 1, item.1, c));
        }
        lemma_python_kinds();
        lemma_names_import(nodes, source, item, parts, s);
    } else {
        let module = syntax::field_node(nodes, item.0 + 1, item.1, "module_name"@)->Some_0;
        if nodes[module.0].kind == "relative_import"@ {
            let r = walk::relative_specifier(nodes, source, module, item);
            assert(r == Some(s));
            let n = "./"@.len() as int;
            assert(s.subrange(0, n) =~= "./"@);
        } else {
            lemma_field_reads(nodes, source, item, "module_name"@, s);
        }
    }
}

// ---------------------------------------------------------------------------
// TypeScript and JavaScript
// ---------------------------------------------------------------------------

/// A module name between quotation marks.
pub open spec fn is_quoted(s: Seq<char>, name: Seq<char>) -> bool {
    &&& name.len() > 0
    &&& name[0] != '"' && name[0] != '\'' && name.last() != '"' && name.last() != '\''
    &&& s == "\""@ + name + "\""@ || s == "'"@ + name + "'"@
}

proof fn lemma_unquoted(s: Seq<char>, name: Seq<char>)
    requires
        is_quoted(s, name),
    ensures
        walk::unquoted(s) == name,
{
    reveal_strlit("\"");
    reveal_strlit("'");
    let q = s[0];
    assert(s =~= seq![q] + name + seq![q]);
    assert(s.last() == q);
    assert(text::trim(s) == s);
    let k = Class::Only(q);
    let t = name + seq![q];
    assert(s.drop_first() =~= t);
    assert(t[0] == name[0]);
    assert(text::trim_start(t, k) == t);
    assert(text::trim_start(s, k) == t);
    assert(t.last() == q);
    assert(t.drop_last() =~= name);
    assert(text::trim_end(name, k) == name);
    assert(text::trim_end(t, k) == name);
    let double = Class::Only('"');
    let one = Class::Only('\'');
    if q == '"' {
        assert(text::trim_class(s, double) == name);
        assert(text::trim_class(name, one) == name);
    } else {
        assert(text::trim_class(s, double) == s);
    }
}

proof fn lemma_script_kinds()
    ensures
        "export_statement"@ != "import_statement"@,
        "call_expression"@ != "import_statement"@,
        "call_expression"@ != "export_statement"@,
        "assignment_expression"@ != "import_statement"@,
        "assignment_expression"@ != "export_statement"@,
        "assignment_expression"@ != "call_expression"@,
{
    reveal_strlit("import_statement");
    reveal_strlit("export_statement");
    reveal_strlit("call_expression");
    reveal_strlit("assignment_expression");
    assert("import_statement"@[0] == 'i');
    assert("export_statement"@[0] == 'e');
    assert("call_expression"@[0] == 'c');
    assert("assignment_expression"@[0] == 'a');
}

/// The source of an `import` of TypeScript or JavaScript is an import, and so is that of an
/// `export` without a declaration.
pub proof fn import_sources_are_imports(
    nodes: Seq<NodeView>,
    source: Seq<char>,
    lang: Language,
    way: Seq<(int, int)>,
    from: (int, int),
    s: Seq<char>,
    name: Seq<char>,
)
    requires
        lang == Language::TypeScript || lang == Language::JavaScript,
        is_way_from_root(nodes, source, lang, way),
        nodes[way.last().0].kind == "import_statement"@ || (nodes[way.last().0].kind
            == "export_statement"@ && field_is_empty(nodes, way.last(), "declaration"@)),
        in_field(nodes, way.last(), from, "source"@),
        syntax::source_of(nodes, source, from.0) == Some(s),
        is_quoted(s, name),
    ensures
        walk::found_in_tree(nodes, source, lang).imports.contains(name),
{
    let item = way.last();
    lemma_script_kinds();
    lemma_in_field(nodes, item, from, "source"@);
    lemma_unquoted(s, name);
    if nodes[item.0].kind == "export_statement"@ {
        lemma_no_field(nodes, item, "declaration"@);
    }
    let found = walk::step_at(nodes, source, lang, item).found;
    assert(found.imports[0] == name);
    lemma_step_is_found(nodes, source, lang, way, true, name);
}

/// An exported declaration of TypeScript or JavaScript is a symbol under its name.
pub proof fn exported_declarations_are_symbols(
    nodes: Seq<NodeView>,
    source: Seq<char>,
    lang: Language,
    way: Seq<(int, int)>,
    declaration: (int, int),
    name: (int, int),
    n: Seq<char>,
)
    requires
        lang == Language::TypeScript || lang == Language::JavaScript,
        is_way_from_root(nodes, source, lang, way),
        nodes[way.last().0].kind == "export_statement"@,
        in_field(nodes, way.last(), declaration, "declaration"@),
        in_field(nodes, declaration, name, "name"@),
        syntax::source_of(nodes, source, name.0) == Some(n),
        n.len() > 0,
    ensures
        walk::found_in_tree(nodes, source, lang).symbols.contains(n),
{
    let item = way.last();
    lemma_script_kinds();
    lemma_in_field(nodes, item, declaration, "declaration"@);
    lemma_in_field(nodes, declaration, name, "name"@);
    let found = walk::step_at(nodes, source, lang, item).found;
    assert(found.symbols[0] == n);
    lemma_step_is_found(nodes, source, lang, way, false, n);
}

/// A way down from a declaration to its first identifier: each is a named child of the one before,
/// and no node that comes before the last one is an identifier.
pub open spec fn is_way_to_identifier(
    nodes: Seq<NodeView>,
    declaration: (int, int),
    way: Seq<(int, int)>,
) -> bool {
    &&& way.len() > 1
    &&& way[0] == declaration
    &&& forall|i: int|
        0 <= i < way.len() - 1 ==> is_child(nodes, #[trigger] way[i], way[i + 1])
            && nodes[way[i + 1].0].named
    &&& nodes[way.last().0].kind == "identifier"@ || nodes[way.last().0].kind
        == "type_identifier"@
    &&& forall|j: int|
        declaration.0 <= j < way.last().0 ==> (#[trigger] nodes[j]).kind != "identifier"@
            && nodes[j].kind != "type_identifier"@
}

/// No node between two places is an identifier.
spec fn no_identifier(nodes: Seq<NodeView>, lo: int, hi: int) -> bool {
    forall|j: int|
        lo <= j < hi ==> (#[trigger] nodes[j]).kind != "identifier"@ && nodes[j].kind
            != "type_identifier"@
}

proof fn lemma_name_beside(
    nodes: Seq<NodeView>,
    source: Seq<char>,
    lo: int,
    hi: int,
    kind: Seq<char>,
)
    requires
        lo < hi,
    ensures
        ({
            let e = syntax::subtree_end(nodes, lo, hi);
            let here = walk::name_in(nodes, source, (lo, e), kind);
            let rest = walk::name_in_range(nodes, source, e, hi, kind);
            walk::name_in_range(nodes, source, lo, hi, kind) == if nodes[lo].named && here is Some {
                here
            } else {
                rest
            }
        }),
{
}

proof fn lemma_no_name(
    nodes: Seq<NodeView>,
    source: Seq<char>,
    lo: int,
    hi: int,
    kind: Seq<char>,
    range: bool,
)
    requires
        no_identifier(nodes, lo, hi),
    ensures
        range ==> walk::name_in_range(nodes, source, lo, hi, kind) is None,
        !range ==> walk::name_in(nodes, source, (lo, hi), kind) is None,
    decreases hi - lo, (if range {
            1int
        } else {
            0int
        }),
{
    if lo < hi {
        if range {
            let e = syntax::subtree_end(nodes, lo, hi);
            lemma_no_name(nodes, source, lo, e, kind, false);
            lemma_no_name(nodes, source, e, hi, kind, true);
        } else {
            assert(nodes[lo].kind != "identifier"@ && nodes[lo].kind != "type_identifier"@);
            lemma_no_name(nodes, source, lo + 1, hi, kind, true);
        }
    }
}

/// Each is a named child of the one before.
#[verifier::opaque]
spec fn goes_down(nodes: Seq<NodeView>, way: Seq<(int, int)>) -> bool {
    forall|i: int|
        0 <= i < way.len() - 1 ==> is_child(nodes, #[trigger] way[i], way[i + 1])
            && nodes[way[i + 1].0].named
}

proof fn lemma_way_goes_down(nodes: Seq<NodeView>, way: Seq<(int, int)>)
    requires
        way.len() > 1,
        goes_down(nodes, way),
    ensures
        way[0].0 < way[1].0 < way[1].1,
        way[1].0 <= way.last().0,
    decreases way.len(),
{
    reveal(goes_down);
    assert(is_child(nodes, way[0], way[1]));
    lemma_child_bounds(nodes, way[0].0 + 1, way[0].1, way[1]);
    if way.len() > 2 {
        let rest = way.drop_first();
        assert forall|i: int| 0 <= i < rest.len() - 1 implies is_child(
            nodes,
            #[trigger] rest[i],
            rest[i + 1],
        ) && nodes[rest[i + 1].0].named by {
            assert(rest[i] == way[i + 1]);
        }
        lemma_way_goes_down(nodes, rest);
    }
}

proof fn lemma_first_name(
    nodes: Seq<NodeView>,
    source: Seq<char>,
    way: Seq<(int, int)>,
    kind: Seq<char>,
    n: Seq<char>,
)
    requires
        way.len() > 0,
        way[0].0 < way[0].1,
        goes_down(nodes, way),
        nodes[way.last().0].kind == "identifier"@ || nodes[way.last().0].kind
            == "type_identifier"@,
        kind != nodes[way.last().0].kind,
        syntax::source_of(nodes, source, way.last().0) == Some(n),
        no_identifier(nodes, way[0].0, way.last().0),
    ensures
        walk::name_in(nodes, source, way[0], kind) == Some(n),
    decreases way.len(), 0int,
{
    reveal(goes_down);
    if way.len() > 1 {
        lemma_way_goes_down(nodes, way);
        assert(nodes[way[0].0].kind != "identifier"@);
        assert(is_child(nodes, way[0], way[1]) && nodes[way[1].0].named);
        let rest = way.drop_first();
        assert forall|i: int| 0 <= i < rest.len() - 1 implies is_child(
            nodes,
            #[trigger] rest[i],
            rest[i + 1],
        ) && nodes[rest[i + 1].0].named by {
            assert(rest[i] == way[i + 1]);
        }
        lemma_first_name_in(nodes, source, way[0].0 + 1, way[0].1, rest, kind, n);
    }
}

proof fn lemma_first_name_in(
    nodes: Seq<NodeView>,
    source: Seq<char>,
    lo: int,
    hi: int,
    way: Seq<(int, int)>,
    kind: Seq<char>,
    n: Seq<char>,
)
    requires
        way.len() > 0,
        side_by_side(nodes, lo, hi, way[0]),
        nodes[way[0].0].named,
        goes_down(nodes, way),
        nodes[way.last().0].kind == "identifier"@ || nodes[way.last().0].kind
            == "type_identifier"@,
        kind != nodes[way.last().0].kind,
        syntax::source_of(nodes, source, way.last().0) == Some(n),
        no_identifier(nodes, lo, way.last().0),
    ensures
        walk::name_in_range(nodes, source, lo, hi, kind) == Some(n),
    decreases way.len(), hi - lo + 1,
{
    let e = syntax::subtree_end(nodes, lo, hi);
    lemma_child_bounds(nodes, lo, hi, way[0]);
    if way[0] == (lo, e) {
        lemma_first_name(nodes, source, way, kind, n);
        assert(walk::name_in(nodes, source, (lo, e), kind) == Some(n));
    } else {
        lemma_child_bounds(nodes, e, hi, way[0]);
        if way.len() > 1 {
            lemma_way_goes_down(nodes, way);
        }
        assert(no_identifier(nodes, lo, e));
        assert(no_identifier(nodes, e, way.last().0));
        lemma_no_name(nodes, source, lo, e, kind, false);
        assert(walk::name_in(nodes, source, (lo, e), kind) is None);
        lemma_first_name_in(nodes, source, e, hi, way, kind, n);
    }
    lemma_name_beside(nodes, source, lo, hi, kind);
}

/// An exported declaration of TypeScript or JavaScript without a name of its own, or with an
/// empty one, is a symbol under the first identifier in it.
pub proof fn exported_bindings_are_symbols(
    nodes: Seq<NodeView>,
    source: Seq<char>,
    lang: Language,
    way: Seq<(int, int)>,
    declaration: (int, int),
    name: (int, int),
    down: Seq<(int, int)>,
    n: Seq<char>,
)
    requires
        lang == Language::TypeScript || lang == Language::JavaScript,
        is_way_from_root(nodes, source, lang, way),
        nodes[way.last().0].kind == "export_statement"@,
        in_field(nodes, way.last(), declaration, "declaration"@),
        field_is_empty(nodes, declaration, "name"@) || (in_field(
            nodes,
            declaration,
            name,
            "name"@,
        ) && (syntax::source_of(nodes, source, name.0) matches Some(own) && own.len() == 0)),
        is_way_to_identifier(nodes, declaration, down),
        syntax::source_of(nodes, source, down.last().0) == Some(n),
    ensures
        walk::found_in_tree(nodes, source, lang).symbols.contains(n),
{
    let item = way.last();
    lemma_script_kinds();
    lemma_in_field(nodes, item, declaration, "declaration"@);
    if field_is_empty(nodes, declaration, "name"@) {
        lemma_no_field(nodes, declaration, "name"@);
    } else {
        lemma_in_field(nodes, declaration, name, "name"@);
    }
    lemma_child_bounds(nodes, item.0 + 1, item.1, declaration);
    assert(goes_down(nodes, down)) by {
        reveal(goes_down);
    }
    lemma_way_goes_down(nodes, down);
    assert(nodes[declaration.0].kind != "identifier"@ && nodes[declaration.0].kind
        != "type_identifier"@);
    lemma_first_name(nodes, source, down, nodes[declaration.0].kind, n);
    let found = walk::step_at(nodes, source, lang, item).found;
    assert(found.symbols[0] == n);
    lemma_step_is_found(nodes, source, lang, way, false, n);
}

/// A call of `require` of JavaScript imports its first string.
pub proof fn required_modules_are_imports(
    nodes: Seq<NodeView>,
    source: Seq<char>,
    way: Seq<(int, int)>,
    function: (int, int),
    arguments: (int, int),
    string: (int, int),
    s: Seq<char>,
    name: Seq<char>,
)
    requires
        is_way_from_root(nodes, source, Language::JavaScript, way),
        nodes[way.last().0].kind == "call_expression"@,
        in_field(nodes, way.last(), function, "function"@),
        nodes[function.0].kind == "identifier"@,
        syntax::source_of(nodes, source, function.0) == Some("require"@),
        in_field(nodes, way.last(), arguments, "arguments"@),
        is_child(nodes, arguments, string),
        nodes[string.0].named,
        nodes[string.0].kind == "string"@,
        forall|c: (int, int)| #[trigger]
            is_child(nodes, arguments, c) && c.0 < string.0 ==> nodes[c.0].kind != "string"@,
        syntax::source_of(nodes, source, string.0) == Some(s),
        is_quoted(s, name),
    ensures
        walk::found_in_tree(nodes, source, Language::JavaScript).imports.contains(name),
{
    let item = way.last();
    lemma_script_kinds();
    lemma_in_field(nodes, item, function, "function"@);
    lemma_in_field(nodes, item, arguments, "arguments"@);
    assert forall|c: (int, int)| #[trigger]
        side_by_side(nodes, arguments.0 + 1, arguments.1, c) && c.0
            < string.0 implies nodes[c.0].kind != "string"@ by {
        assert(is_child(nodes, arguments, c));
    }
    lemma_first_source(nodes, source, arguments.0 + 1, arguments.1, string, "string"@, s);
    lemma_unquoted(s, name);
    let found = walk::step_at(nodes, source, Language::JavaScript, item).found;
    assert(found.imports[0] == name);
    lemma_step_is_found(nodes, source, Language::JavaScript, way, true, name);
}

/// An identifier that is assigned to `module.exports` or to a member of `exports` in JavaScript is
/// a symbol.
pub proof fn assigned_exports_are_symbols(
    nodes: Seq<NodeView>,
    source: Seq<char>,
    way: Seq<(int, int)>,
    left: (int, int),
    right: (int, int),
    member: Seq<char>,
    n: Seq<char>,
)
    requires
        is_way_from_root(nodes, source, Language::JavaScript, way),
        nodes[way.last().0].kind == "assignment_expression"@,
        in_field(nodes, way.last(), left, "left"@),
        syntax::source_of(nodes, source, left.0) == Some("module.exports"@) || syntax::source_of(
            nodes,
            source,
            left.0,
        ) == Some("exports."@ + member),
        in_field(nodes, way.last(), right, "right"@),
        nodes[right.0].kind == "identifier"@,
        syntax::source_of(nodes, source, right.0) == Some(n),
    ensures
        walk::found_in_tree(nodes, source, Language::JavaScript).symbols.contains(n),
{
    let item = way.last();
    lemma_script_kinds();
    lemma_in_field(nodes, item, left, "left"@);
    lemma_in_field(nodes, item, right, "right"@);
    let s = syntax::source_of(nodes, source, left.0)->Some_0;
    if s != "module.exports"@ {
        assert(s.subrange(0, "exports."@.len() as int) =~= "exports."@);
    }
    let found = walk::step_at(nodes, source, Language::JavaScript, item).found;
    assert(found.symbols[0] == n);
    lemma_step_is_found(nodes, source, Language::JavaScript, way, false, n);
}

/// A declaration has a name: the one of its own, or an identifier in it.
pub open spec fn declares(
    nodes: Seq<NodeView>,
    source: Seq<char>,
    declaration: (int, int),
    s: Seq<char>,
) -> bool {
    ||| field_reads(nodes, source, declaration, "name"@, s)
    ||| exists|j: int|
        declaration.0 <= j < declaration.1 && ((#[trigger] nodes[j]).kind == "identifier"@
            || nodes[j].kind == "type_identifier"@) && syntax::source_of(nodes, source, j) == Some(
            s,
        )
}

/// An `export` with a declaration of a name.
pub open spec fn exports_declaration(
    nodes: Seq<NodeView>,
    source: Seq<char>,
    span: (int, int),
    s: Seq<char>,
) -> bool {
    &&& nodes[span.0].kind == "export_statement"@
    &&& exists|d: (int, int)| #[trigger]
        is_child(nodes, span, d) && nodes[d.0].field == Some("declaration"@) && declares(
            nodes,
            source,
            d,
            s,
        )
}

/// An `import` or an `export` from a module.
pub open spec fn takes_from(
    nodes: Seq<NodeView>,
    source: Seq<char>,
    span: (int, int),
    s: Seq<char>,
) -> bool {
    &&& nodes[span.0].kind == "import_statement"@ || nodes[span.0].kind == "export_statement"@
    &&& exists|c: (int, int)| #[trigger]
        is_child(nodes, span, c) && nodes[c.0].field == Some("source"@) && (syntax::source_of(
            nodes,
            source,
            c.0,
        ) matches Some(q) && s == walk::unquoted(q))
}

proof fn lemma_name_is_identifier(
    nodes: Seq<NodeView>,
    source: Seq<char>,
    lo: int,
    hi: int,
    kind: Seq<char>,
    range: bool,
    s: Seq<char>,
)
    requires
        range ==> walk::name_in_range(nodes, source, lo, hi, kind) == Some(s),
        !range ==> walk::name_in(nodes, source, (lo, hi), kind) == Some(s),
    ensures
        exists|j: int|
            lo <= j < hi && ((#[trigger] nodes[j]).kind == "identifier"@ || nodes[j].kind
                == "type_identifier"@) && syntax::source_of(nodes, source, j) == Some(s),
    decreases hi - lo, (if range {
            1int
        } else {
            0int
        }),
{
    if lo < hi {
        if range {
            let e = syntax::subtree_end(nodes, lo, hi);
            lemma_name_beside(nodes, source, lo, hi, kind);
            if nodes[lo].named && walk::name_in(nodes, source, (lo, e), kind) is Some {
                lemma_name_is_identifier(nodes, source, lo, e, kind, false, s);
            } else {
                lemma_name_is_identifier(nodes, source, e, hi, kind, true, s);
            }
        } else if walk::own_name(nodes, source, lo, kind) is Some {
            assert(nodes[lo].kind == "identifier"@ || nodes[lo].kind == "type_identifier"@);
        } else {
            lemma_name_is_identifier(nodes, source, lo + 1, hi, kind, true, s);
        }
    }
}

proof fn lemma_script_step(
    nodes: Seq<NodeView>,
    source: Seq<char>,
    item: (int, int),
    imported: bool,
    s: Seq<char>,
)
    requires
        has(walk::typescript_step(nodes, source, item).found, imported, s),
    ensures
        !imported ==> exports_declaration(nodes, source, item, s),
        imported ==> takes_from(nodes, source, item, s),
{
    let found = walk::typescript_step(nodes, source, item).found;
    if imported {
        let i = found.imports.index_of(s);
        assert(found.imports[i] == s);
        lemma_field_child(nodes, item.0 + 1, item.1, "source"@);
        let c = syntax::field_node(nodes, item.0 + 1, item.1, "source"@)->Some_0;
        assert(is_child(nodes, item, c));
    } else {
        let i = found.symbols.index_of(s);
        assert(found.symbols[i] == s);
        lemma_field_child(nodes, item.0 + 1, item.1, "declaration"@);
        let d = syntax::field_node(nodes, item.0 + 1, item.1, "declaration"@)->Some_0;
        assert(is_child(nodes, item, d));
        assert(walk::name_of_declaration(nodes, source, d) == Some(s));
        if syntax::field_source(nodes, source, d, "name"@) == Some(s) && s.len() > 0 {
            lemma_field_reads(nodes, source, d, "name"@, s);
        } else {
            lemma_name_is_identifier(nodes, source, d.0, d.1, nodes[d.0].kind, false, s);
        }
        assert(declares(nodes, source, d, s));
    }
}

/// A node in a tree that a way leads to and that gives a symbol of TypeScript.
pub open spec fn is_export_of(
    nodes: Seq<NodeView>,
    source: Seq<char>,
    way: Seq<(int, int)>,
    s: Seq<char>,
) -> bool {
    is_below_root(nodes, way) && exports_declaration(nodes, source, way.last(), s)
}

/// A node in a tree that a way leads to and that gives an import of TypeScript.
pub open spec fn is_taken_from(
    nodes: Seq<NodeView>,
    source: Seq<char>,
    way: Seq<(int, int)>,
    s: Seq<char>,
) -> bool {
    is_below_root(nodes, way) && takes_from(nodes, source, way.last(), s)
}

/// Nothing but exported declarations gives symbols of a source of TypeScript, and nothing but the
/// sources of imports and exports its imports.
pub proof fn typescript_findings_are_imports_and_exports(
    nodes: Seq<NodeView>,
    source: Seq<char>,
    s: Seq<char>,
)
    ensures
        walk::found_in_tree(nodes, source, Language::TypeScript).symbols.contains(s)
            ==> exists|way: Seq<(int, int)>| #[trigger] is_export_of(nodes, source, way, s),
        walk::found_in_tree(nodes, source, Language::TypeScript).imports.contains(s)
            ==> exists|way: Seq<(int, int)>| #[trigger] is_taken_from(nodes, source, way, s),
{
    let lang = Language::TypeScript;
    let span = (0int, nodes.len() as int);
    reveal(adds);
    if walk::found_in_tree(nodes, source, lang).symbols.contains(s) {
        let way = lemma_found_at(nodes, source, lang, span, false, s);
        lemma_script_step(nodes, source, way.last(), false, s);
        assert(is_export_of(nodes, source, way, s));
    }
    if walk::found_in_tree(nodes, source, lang).imports.contains(s) {
        let way = lemma_found_at(nodes, source, lang, span, true, s);
        lemma_script_step(nodes, source, way.last(), true, s);
        assert(is_taken_from(nodes, source, way, s));
    }
}

/// An assignment of an identifier to `module.exports` or to a member of `exports`.
pub open spec fn assigns_export(
    nodes: Seq<NodeView>,
    source: Seq<char>,
    span: (int, int),
    s: Seq<char>,
) -> bool {
    &&& nodes[span.0].kind == "assignment_expression"@
    &&& exists|c: (int, int)| #[trigger]
        is_child(nodes, span, c) && nodes[c.0].field == Some("left"@) && (syntax::source_of(
            nodes,
            source,
            c.0,
        ) matches Some(left) && (left == "module.exports"@ || text::starts(left, "exports."@)))
    &&& exists|c: (int, int)| #[trigger]
        is_child(nodes, span, c) && nodes[c.0].field == Some("right"@) && nodes[c.0].kind
            == "identifier"@ && syntax::source_of(nodes, source, c.0) == Some(s)
}

/// A string is among the named children of a node.
pub open spec fn holds_string(
    nodes: Seq<NodeView>,
    source: Seq<char>,
    span: (int, int),
    s: Seq<char>,
) -> bool {
    exists|c: (int, int)| #[trigger]
        is_child(nodes, span, c) && nodes[c.0].named && nodes[c.0].kind == "string"@ && (
        syntax::source_of(nodes, source, c.0) matches Some(q) && s == walk::unquoted(q))
}

/// A call of `require` with a string.
pub open spec fn requires_string(
    nodes: Seq<NodeView>,
    source: Seq<char>,
    span: (int, int),
    s: Seq<char>,
) -> bool {
    &&& nodes[span.0].kind == "call_expression"@
    &&& exists|c: (int, int)| #[trigger]
        is_child(nodes, span, c) && nodes[c.0].field == Some("function"@) && nodes[c.0].kind
            == "identifier"@ && syntax::source_of(nodes, source, c.0) == Some("require"@)
    &&& exists|c: (int, int)| #[trigger]
        is_child(nodes, span, c) && nodes[c.0].field == Some("arguments"@) && holds_string(
            nodes,
            source,
            c,
            s,
        )
}

proof fn lemma_requires_string(
    nodes: Seq<NodeView>,
    source: Seq<char>,
    item: (int, int),
    s: Seq<char>,
)
    requires
        nodes[item.0].kind == "call_expression"@,
        walk::requires_module(nodes, source, item),
        walk::unquoted_if(walk::first_string(nodes, source, item)) == Some(s),
    ensures
        requires_string(nodes, source, item, s),
{
    lemma_field_child(nodes, item.0 + 1, item.1, "function"@);
    lemma_field_child(nodes, item.0 + 1, item.1, "arguments"@);
    let f = syntax::field_node(nodes, item.0 + 1, item.1, "function"@)->Some_0;
    let args = syntax::field_node(nodes, item.0 + 1, item.1, "arguments"@)->Some_0;
    assert(is_child(nodes, item, f));
    assert(is_child(nodes, item, args));
    let of = syntax::named_nodes(nodes, args.0 + 1, args.1);
    let all = walk::sources_of_kind(nodes, source, of, "string"@);
    let q = all[0];
    lemma_named(nodes, args.0 + 1, args.1);
    lemma_sources(nodes, source, of, "string"@, q);
    assert(all.contains(q));
    let c = choose|c: (int, int)| #[trigger]
        of.contains(c) && nodes[c.0].kind == "string"@ && syntax::source_of(nodes, source, c.0)
            == Some(q);
    assert(side_by_side(nodes, args.0 + 1, args.1, c));
    assert(is_child(nodes, args, c));
    assert(holds_string(nodes, source, args, s));
}

proof fn lemma_assigns_export(
    nodes: Seq<NodeView>,
    source: Seq<char>,
    item: (int, int),
    s: Seq<char>,
)
    requires
        nodes[item.0].kind == "assignment_expression"@,
        walk::exported_name(nodes, source, item) == Some(s),
    ensures
        assigns_export(nodes, source, item, s),
{
    lemma_field_child(nodes, item.0 + 1, item.1, "left"@);
    lemma_field_child(nodes, item.0 + 1, item.1, "right"@);
    let l = syntax::field_node(nodes, item.0 + 1, item.1, "left"@)->Some_0;
    let r = syntax::field_node(nodes, item.0 + 1, item.1, "right"@)->Some_0;
    assert(is_child(nodes, item, l));
    assert(is_child(nodes, item, r));
}

/// A node in a tree that a way leads to and that gives a symbol of JavaScript.
pub open spec fn is_script_export_of(
    nodes: Seq<NodeView>,
    source: Seq<char>,
    way: Seq<(int, int)>,
    s: Seq<char>,
) -> bool {
    is_below_root(nodes, way) && (exports_declaration(nodes, source, way.last(), s)
        || assigns_export(nodes, source, way.last(), s))
}

/// A node in a tree that a way leads to and that gives an import of JavaScript.
pub open spec fn is_script_import_of(
    nodes: Seq<NodeView>,
    source: Seq<char>,
    way: Seq<(int, int)>,
    s: Seq<char>,
) -> bool {
    is_below_root(nodes, way) && (takes_from(nodes, source, way.last(), s) || requires_string(
        nodes,
        source,
        way.last(),
        s,
    ))
}

/// Nothing but exported declarations and assigned exports gives symbols of a source of JavaScript,
/// and nothing but the sources of imports and exports and required strings its imports.
pub proof fn javascript_findings_are_imports_and_exports(
    nodes: Seq<NodeView>,
    source: Seq<char>,
    s: Seq<char>,
)
    ensures
        walk::found_in_tree(nodes, source, Language::JavaScript).symbols.contains(s)
            ==> exists|way: Seq<(int, int)>| #[trigger] is_script_export_of(nodes, source, way, s),
        walk::found_in_tree(nodes, source, Language::JavaScript).imports.contains(s)
            ==> exists|way: Seq<(int, int)>| #[trigger] is_script_import_of(nodes, source, way, s),
{
    let lang = Language::JavaScript;
    let span = (0int, nodes.len() as int);
    if walk::found_in_tree(nodes, source, lang).symbols.contains(s) {
        let way = lemma_found_at(nodes, source, lang, span, false, s);
        lemma_javascript_step(nodes, source, way.last(), false, s);
        assert(is_script_export_of(nodes, source, way, s));
    }
    if walk::found_in_tree(nodes, source, lang).imports.contains(s) {
        let way = lemma_found_at(nodes, source, lang, span, true, s);
        lemma_javascript_step(nodes, source, way.last(), true, s);
        assert(is_script_import_of(nodes, source, way, s));
    }
}

proof fn lemma_javascript_step(
    nodes: Seq<NodeView>,
    source: Seq<char>,
    item: (int, int),
    imported: bool,
    s: Seq<char>,
)
    requires
        adds(nodes, source, Language::JavaScript, item, imported, s),
    ensures
        !imported ==> exports_declaration(nodes, source, item, s) || assigns_export(
            nodes,
            source,
            item,
            s,
        ),
        imported ==> takes_from(nodes, source, item, s) || requires_string(
            nodes,
            source,
            item,
            s,
        ),
{
    reveal(adds);
    let kind = nodes[item.0].kind;
    let found = walk::step_at(nodes, source, Language::JavaScript, item).found;
    if imported {
        let i = found.imports.index_of(s);
        assert(found.imports[i] == s);
    } else {
        let i = found.symbols.index_of(s);
        assert(found.symbols[i] == s);
    }
    if kind == "import_statement"@ || kind == "export_statement"@ {
        lemma_script_step(nodes, source, item, imported, s);
    } else if imported {
        lemma_requires_string(nodes, source, item, s);
    } else {
        lemma_assigns_export(nodes, source, item, s);
    }
}

// ---------------------------------------------------------------------------
// Sources
// ---------------------------------------------------------------------------

proof fn lemma_bytes_in_two(a: Seq<char>, b: Seq<char>)
    ensures
        vstd::utf8::encode_utf8(a + b) == vstd::utf8::encode_utf8(a) + vstd::utf8::encode_utf8(b),
    decreases a.len(),
{
    let all = a + b;
    if a.len() == 0 {
        assert(all =~= b);
        assert(vstd::utf8::encode_utf8(a) + vstd::utf8::encode_utf8(b)
            =~= vstd::utf8::encode_utf8(b));
    } else {
        let rest = a.drop_first();
        lemma_bytes_in_two(rest, b);
        assert(all[0] == a[0]);
        assert(all.drop_first() =~= rest + b);
        let x = vstd::utf8::encode_scalar(a[0] as u32);
        let y = vstd::utf8::encode_utf8(rest);
        let z = vstd::utf8::encode_utf8(b);
        assert(x + (y + z) =~= x + y + z);
    }
}

/// A node reads as the part of the source between its first byte and the one behind its last.
pub proof fn nodes_read_as_their_part_of_the_source(
    nodes: Seq<NodeView>,
    before: Seq<char>,
    s: Seq<char>,
    after: Seq<char>,
    at: int,
)
    requires
        nodes[at].start == vstd::utf8::encode_utf8(before).len(),
        nodes[at].end == vstd::utf8::encode_utf8(before + s).len(),
    ensures
        syntax::source_of(nodes, before + s + after, at) == Some(s),
{
    let a = vstd::utf8::encode_utf8(before);
    let b = vstd::utf8::encode_utf8(s);
    let c = vstd::utf8::encode_utf8(after);
    lemma_bytes_in_two(before, s);
    lemma_bytes_in_two(before + s, after);
    let bytes = vstd::utf8::encode_utf8(before + s + after);
    assert(bytes =~= a + b + c);
    assert(bytes.subrange(a.len() as int, (a + b).len() as int) =~= b);
    vstd::utf8::encode_utf8_valid_utf8(s);
    vstd::utf8::encode_utf8_decode_utf8(s);
}

/// The subtree of a node spans as many nodes as its size, where there are as many.
pub proof fn subtrees_span_their_size(nodes: Seq<NodeView>, at: int, hi: int)
    requires
        1 <= nodes[at].size,
        at + nodes[at].size <= hi,
    ensures
        syntax::subtree_end(nodes, at, hi) == at + nodes[at].size,
{
}

/// The tree of a source is the one that the parser makes of it in its language; a source without
/// one, and one of another language, gives nothing.
pub proof fn sources_are_parsed(source: Seq<char>, lang: Language)
    ensures
        lang != Language::Other ==> (syntax::parsed_nodes(source, lang) matches Some(nodes)
            ==> walk::extracted(source, lang) == Some(walk::found_in_tree(nodes, source, lang))),
        lang != Language::Other && syntax::parsed_nodes(source, lang) is None ==> walk::extracted(
            source,
            lang,
        ) is None,
        lang == Language::Other ==> walk::extracted(source, lang) is None,
{
}

} // verus!
