//! Syntax trees as flat lists of nodes.
//!
//! A tree is kept as the list of its nodes in the order in which they are met from the root down
//! and from left to right. Each node knows how many nodes its subtree has, itself counted, so the
//! subtree of a node is a range of that list and its children are the subtrees that the range
//! behind the node is made of.
use vstd::prelude::*;

use crate::model::Language;
use crate::text;

verus! {

/// A node of a syntax tree.
#[derive(Debug, Clone)]
pub struct SyntaxNode {
    /// What the grammar calls the node.
    pub kind: String,
    /// Whether the node stands for a named rule of the grammar.
    pub named: bool,
    /// The field of its parent that the node stands in.
    pub field: Option<String>,
    /// The number of nodes of the subtree.
    pub size: usize,
    /// The byte at which the source of the node begins.
    pub start: usize,
    /// The byte behind the source of the node.
    pub end: usize,
}

/// A node as plain values.
pub struct NodeView {
    pub kind: Seq<char>,
    pub named: bool,
    pub field: Option<Seq<char>>,
    pub size: int,
    pub start: int,
    pub end: int,
}

impl View for SyntaxNode {
    type V = NodeView;

    open spec fn view(&self) -> NodeView {
        NodeView {
            kind: self.kind@,
            named: self.named,
            field: text::opt_text(self.field),
            size: self.size as int,
            start: self.start as int,
            end: self.end as int,
        }
    }
}

/// The nodes of a tree as plain values.
pub open spec fn node_views(nodes: Seq<SyntaxNode>) -> Seq<NodeView> {
    nodes.map_values(|n: SyntaxNode| n@)
}

// ---------------------------------------------------------------------------
// Parsing
// ---------------------------------------------------------------------------

/// A tree of the parser.
#[verifier::external_type_specification]
#[verifier::external_body]
pub struct ExTree(tree_sitter::Tree);

/// The nodes of a tree of the parser: what `TreeCursor::goto_descendant` reaches from the root,
/// in the order of the descendant indices.
pub uninterp spec fn tree_nodes(tree: tree_sitter::Tree) -> Seq<NodeView>;

/// The nodes of the tree that `Parser::parse` makes of a source with the grammar of a language;
/// nothing where the grammar is not accepted or there is no tree.
pub uninterp spec fn parsed_nodes(source: Seq<char>, lang: Language) -> Option<Seq<NodeView>>;

/// The nodes of a tree that may be there.
pub open spec fn nodes_if(tree: Option<tree_sitter::Tree>) -> Option<Seq<NodeView>> {
    match tree {
        Some(t) => Some(tree_nodes(t)),
        None => None,
    }
}

/// Calls `tree_sitter::Parser::parse` with the grammar of Python. The nodes of the tree depend on
/// the source and the grammar alone.
#[verifier::external_body]
fn parse_python(source: &str) -> (r: Option<tree_sitter::Tree>)
    ensures
        nodes_if(r) == parsed_nodes(source@, Language::Python),
{
    let mut parser = tree_sitter::Parser::new();
    parser.set_language(&tree_sitter_python::LANGUAGE.into()).ok()?;
    parser.parse(source, None)
}

/// Calls `tree_sitter::Parser::parse` with the grammar of TypeScript. The nodes of the tree
/// depend on the source and the grammar alone.
#[verifier::external_body]
fn parse_typescript(source: &str) -> (r: Option<tree_sitter::Tree>)
    ensures
        nodes_if(r) == parsed_nodes(source@, Language::TypeScript),
{
    let mut parser = tree_sitter::Parser::new();
    parser.set_language(&tree_sitter_typescript::LANGUAGE_TYPESCRIPT.into()).ok()?;
    parser.parse(source, None)
}

/// Calls `tree_sitter::Parser::parse` with the grammar of Rust. The nodes of the tree depend on
/// the source and the grammar alone.
#[verifier::external_body]
fn parse_rust(source: &str) -> (r: Option<tree_sitter::Tree>)
    ensures
        nodes_if(r) == parsed_nodes(source@, Language::Rust),
{
    let mut parser = tree_sitter::Parser::new();
    parser.set_language(&tree_sitter_rust::LANGUAGE.into()).ok()?;
    parser.parse(source, None)
}

/// Calls `tree_sitter::Parser::parse` with the grammar of JavaScript. The nodes of the tree
/// depend on the source and the grammar alone.
#[verifier::external_body]
fn parse_javascript(source: &str) -> (r: Option<tree_sitter::Tree>)
    ensures
        nodes_if(r) == parsed_nodes(source@, Language::JavaScript),
{
    let mut parser = tree_sitter::Parser::new();
    parser.set_language(&tree_sitter_javascript::LANGUAGE.into()).ok()?;
    parser.parse(source, None)
}

/// Hands out the nodes of a tree, each found by `TreeCursor::goto_descendant` and taken over
/// value by value: its kind, whether it is named, its field, the size of its subtree and its
/// range in the source.
#[verifier::external_body]
fn nodes_of(tree: &tree_sitter::Tree) -> (r: Vec<SyntaxNode>)
    ensures
        node_views(r@) == tree_nodes(*tree),
{
    let mut cursor = tree.walk();
    (0..tree.root_node().descendant_count()).map(|i| {
        cursor.goto_descendant(i);
        let n = cursor.node();
        let (kind, named, size) = (n.kind().to_string(), n.is_named(), n.descendant_count());
        let (start, end) = (n.start_byte(), n.end_byte());
        let field = cursor.field_name().map(|f| f.to_string());
        SyntaxNode { kind, named, field, size, start, end }
    }).collect()
}

/// What a source of a language parses to.
pub open spec fn parsed(source: Seq<char>, lang: Language) -> Option<Seq<NodeView>> {
    if lang == Language::Other {
        None
    } else {
        parsed_nodes(source, lang)
    }
}

/// Parses a source; there is no tree for a language without a grammar.
pub fn parse(source: &str, lang: Language) -> (r: Option<Vec<SyntaxNode>>)
    ensures
        match r {
            Some(nodes) => parsed(source@, lang) == Some(node_views(nodes@)),
            None => parsed(source@, lang) is None,
        },
{
    let tree = match lang {
        Language::Python => parse_python(source),
        Language::TypeScript => parse_typescript(source),
        Language::Rust => parse_rust(source),
        Language::JavaScript => parse_javascript(source),
        Language::Other => {
            return None;
        },
    };
    match tree {
        Some(t) => Some(nodes_of(&t)),
        None => None,
    }
}

// ---------------------------------------------------------------------------
// Subtrees
// ---------------------------------------------------------------------------

/// A node by its place in the list and the end of its subtree.
#[derive(Debug, Clone, Copy, PartialEq, Eq, Structural)]
pub struct Node {
    pub at: usize,
    pub end: usize,
}

impl View for Node {
    type V = (int, int);

    open spec fn view(&self) -> (int, int) {
        (self.at as int, self.end as int)
    }
}

impl Node {
    /// The node and its subtree lie in a list of a given length.
    pub open spec fn within(&self, len: int) -> bool {
        self.at < self.end <= len
    }
}

/// Nodes as plain values.
pub open spec fn spans(v: Seq<Node>) -> Seq<(int, int)> {
    v.map_values(|n: Node| n@)
}

/// One more node is one more pair of places.
pub broadcast proof fn lemma_spans_push(v: Seq<Node>, n: Node)
    ensures
        #[trigger] spans(v.push(n)) == spans(v).push(n@),
{
    assert(spans(v.push(n)) =~= spans(v).push(n@));
}

/// Where the subtree that begins at a place ends, in a range that ends at `hi`.
pub open spec fn subtree_end(nodes: Seq<NodeView>, at: int, hi: int) -> int {
    let end = if nodes[at].size < 1 {
        at + 1
    } else {
        at + nodes[at].size
    };
    if end > hi {
        hi
    } else {
        end
    }
}

/// Finds the end of the subtree that begins at a place.
fn end_of_subtree(nodes: &Vec<SyntaxNode>, at: usize, hi: usize) -> (r: usize)
    requires
        at < hi <= nodes@.len(),
    ensures
        r == subtree_end(node_views(nodes@), at as int, hi as int),
        at < r <= hi,
{
    let size: usize = nodes[at].size;
    assert(node_views(nodes@)[at as int].size == size);
    if size < 1 {
        at + 1
    } else if size > hi - at {
        hi
    } else {
        at + size
    }
}

/// The named nodes among the subtrees of a range, from left to right.
pub open spec fn named_nodes(nodes: Seq<NodeView>, lo: int, hi: int) -> Seq<(int, int)>
    decreases hi - lo,
{
    if lo >= hi {
        seq![]
    } else {
        let e = subtree_end(nodes, lo, hi);
        let rest = named_nodes(nodes, e, hi);
        if nodes[lo].named {
            seq![(lo, e)] + rest
        } else {
            rest
        }
    }
}

/// The named children of a node, from left to right.
pub fn named_children(nodes: &Vec<SyntaxNode>, node: Node) -> (r: Vec<Node>)
    requires
        node.within(nodes@.len() as int),
    ensures
        spans(r@) == named_nodes(node_views(nodes@), node.at + 1, node.end as int),
        forall|i: int| 0 <= i < r@.len() ==> (#[trigger] r@[i]).within(nodes@.len() as int),
{
    broadcast use lemma_spans_push;

    let ghost all = node_views(nodes@);
    let hi: usize = node.end;
    let mut out: Vec<Node> = Vec::new();
    let mut lo: usize = node.at + 1;
    assert(spans(out@) + named_nodes(all, lo as int, hi as int) =~= named_nodes(
        all,
        lo as int,
        hi as int,
    ));
    while lo < hi
        invariant
            all == node_views(nodes@),
            hi == node.end,
            node.at < lo <= hi <= nodes@.len(),
            named_nodes(all, node.at + 1, hi as int) == spans(out@) + named_nodes(
                all,
                lo as int,
                hi as int,
            ),
            forall|i: int| 0 <= i < out@.len() ==> (#[trigger] out@[i]).within(nodes@.len() as int),
        decreases hi - lo,
    {
        let e: usize = end_of_subtree(nodes, lo, hi);
        let ghost before = spans(out@);
        let ghost rest = named_nodes(all, e as int, hi as int);
        assert(all[lo as int].named == nodes@[lo as int].named);
        if nodes[lo].named {
            out.push(Node { at: lo, end: e });
            assert(before + (seq![(lo as int, e as int)] + rest) =~= spans(out@) + rest);
        }
        lo = e;
    }
    assert(spans(out@) + named_nodes(all, lo as int, hi as int) =~= spans(out@));
    out
}

/// The first subtree of a range whose node stands in a field.
pub open spec fn field_node(nodes: Seq<NodeView>, lo: int, hi: int, field: Seq<char>) -> Option<
    (int, int),
>
    decreases hi - lo,
{
    if lo >= hi {
        None
    } else {
        let e = subtree_end(nodes, lo, hi);
        if nodes[lo].field == Some(field) {
            Some((lo, e))
        } else {
            field_node(nodes, e, hi, field)
        }
    }
}

/// A node that may be there, as plain values.
pub open spec fn span_if(o: Option<Node>) -> Option<(int, int)> {
    match o {
        Some(n) => Some(n@),
        None => None,
    }
}

/// The first child of a node that stands in a field of it.
pub fn child_by_field_name(nodes: &Vec<SyntaxNode>, node: Node, field: &str) -> (r: Option<Node>)
    requires
        node.within(nodes@.len() as int),
    ensures
        span_if(r) == field_node(node_views(nodes@), node.at + 1, node.end as int, field@),
        r matches Some(n) ==> n.within(nodes@.len() as int) && node.at < n.at && n.end <= node.end,
{
    let ghost all = node_views(nodes@);
    let hi: usize = node.end;
    let mut lo: usize = node.at + 1;
    while lo < hi
        invariant
            all == node_views(nodes@),
            hi == node.end,
            node.at < lo <= hi <= nodes@.len(),
            field_node(all, node.at + 1, hi as int, field@) == field_node(
                all,
                lo as int,
                hi as int,
                field@,
            ),
        decreases hi - lo,
    {
        let e: usize = end_of_subtree(nodes, lo, hi);
        assert(all[lo as int].field == text::opt_text(nodes@[lo as int].field));
        if let Some(f) = &nodes[lo].field {
            if text::str_same(f.as_str(), field) {
                return Some(Node { at: lo, end: e });
            }
        }
        lo = e;
    }
    None
}

// ---------------------------------------------------------------------------
// The source of a node
// ---------------------------------------------------------------------------

/// What stands between two bytes of a text, where that is a text.
pub open spec fn text_between(source: Seq<char>, start: int, end: int) -> Option<Seq<char>> {
    let bytes = vstd::utf8::encode_utf8(source);
    if 0 <= start <= end <= bytes.len() && vstd::utf8::valid_utf8(bytes.subrange(start, end)) {
        Some(vstd::utf8::decode_utf8(bytes.subrange(start, end)))
    } else {
        None
    }
}

/// No text begins inside of the encoding of a character.
proof fn lemma_text_starts_at_boundary(bytes: Seq<u8>, start: int, end: int)
    requires
        vstd::utf8::valid_utf8(bytes),
        0 <= start < end <= bytes.len(),
        vstd::utf8::valid_utf8(bytes.subrange(start, end)),
    ensures
        vstd::utf8::is_char_boundary(bytes, start),
{
    vstd::utf8::is_char_boundary_iff_not_is_continuation_byte(bytes, start);
    assert(bytes.subrange(start, end)[0] == bytes[start]);
    assert(!vstd::utf8::is_continuation_byte(bytes[start]));
}

/// No text ends inside of the encoding of a character.
proof fn lemma_text_ends_at_boundary(bytes: Seq<u8>, start: int, end: int)
    requires
        vstd::utf8::valid_utf8(bytes),
        0 <= start < end <= bytes.len(),
        vstd::utf8::valid_utf8(bytes.subrange(start, end)),
    ensures
        vstd::utf8::is_char_boundary(bytes, end),
{
    lemma_text_starts_at_boundary(bytes, start, end);
    vstd::utf8::valid_utf8_split(bytes, start);
    vstd::utf8::is_char_boundary_start_end_of_seq(bytes);
    if end < bytes.len() {
        vstd::utf8::is_char_boundary_iff_not_is_continuation_byte(bytes, end);
        let tail = bytes.subrange(start, bytes.len() as int);
        assert(tail.subrange(0, end - start) =~= bytes.subrange(start, end));
        let last = tail.subrange(end - start, tail.len() as int);
        assert(last[0] == bytes[end]);
        if vstd::utf8::is_continuation_byte(bytes[end]) {
            assert(!vstd::utf8::valid_utf8(last));
            vstd::utf8::partial_valid_partial_invalid_utf8(tail, end - start);
        }
    }
}

/// Cuts a text out between two bytes; there is none where a character would be cut.
fn cut(source: &str, start: usize, end: usize) -> (r: Option<String>)
    ensures
        text::opt_text(r) == text_between(source@, start as int, end as int),
{
    broadcast use vstd::utf8::encode_utf8_valid_utf8;

    let ghost bytes = vstd::utf8::encode_utf8(source@);
    let len: usize = source.as_bytes().len();
    assert(len == bytes.len());
    if start > end || end > len {
        return None;
    }
    let ghost sub = bytes.subrange(start as int, end as int);
    if start == end {
        assert(sub =~= seq![]);
        let empty = String::new();
        assert(vstd::utf8::decode_utf8(sub) =~= empty@);
        return Some(empty);
    }
    if !source.is_char_boundary(start) || !source.is_char_boundary(end) {
        proof {
            if vstd::utf8::valid_utf8(sub) {
                lemma_text_starts_at_boundary(bytes, start as int, end as int);
                lemma_text_ends_at_boundary(bytes, start as int, end as int);
            }
        }
        return None;
    }
    let (head, _) = source.split_at(end);
    let ghost front = bytes.subrange(0, end as int);
    proof {
        assert(vstd::utf8::valid_utf8(front));
        assert(front[start as int] == bytes[start as int]);
        vstd::utf8::is_char_boundary_iff_not_is_continuation_byte(bytes, start as int);
        vstd::utf8::is_char_boundary_iff_not_is_continuation_byte(front, start as int);
    }
    let (_, middle) = head.split_at(start);
    proof {
        assert(front.subrange(start as int, front.len() as int) =~= sub);
        vstd::utf8::encode_utf8_decode_utf8(middle@);
    }
    Some(middle.to_owned())
}

/// The source of the node at a place, where it is a text.
pub open spec fn source_of(nodes: Seq<NodeView>, source: Seq<char>, at: int) -> Option<Seq<char>> {
    text_between(source, nodes[at].start, nodes[at].end)
}

/// The source of a node, where it is a text.
pub fn node_text(nodes: &Vec<SyntaxNode>, node: Node, source: &str) -> (r: Option<String>)
    requires
        node.within(nodes@.len() as int),
    ensures
        text::opt_text(r) == source_of(node_views(nodes@), source@, node.at as int),
{
    assert(node_views(nodes@)[node.at as int] == nodes@[node.at as int]@);
    cut(source, nodes[node.at].start, nodes[node.at].end)
}

/// The source of what stands in a field of a node.
pub open spec fn field_source(
    nodes: Seq<NodeView>,
    source: Seq<char>,
    span: (int, int),
    field: Seq<char>,
) -> Option<Seq<char>> {
    match field_node(nodes, span.0 + 1, span.1, field) {
        Some(child) => source_of(nodes, source, child.0),
        None => None,
    }
}

/// The source of what stands in a field of a node.
pub fn field_text(nodes: &Vec<SyntaxNode>, node: Node, source: &str, field: &str) -> (r: Option<
    String,
>)
    requires
        node.within(nodes@.len() as int),
    ensures
        text::opt_text(r) == field_source(node_views(nodes@), source@, node@, field@),
{
    match child_by_field_name(nodes, node, field) {
        Some(child) => node_text(nodes, child, source),
        None => None,
    }
}

/// Whether a node is of a kind.
pub fn is_kind(nodes: &Vec<SyntaxNode>, node: Node, kind: &str) -> (r: bool)
    requires
        node.within(nodes@.len() as int),
    ensures
        r == (node_views(nodes@)[node.at as int].kind == kind@),
{
    assert(node_views(nodes@)[node.at as int].kind == nodes@[node.at as int].kind@);
    text::str_same(nodes[node.at].kind.as_str(), kind)
}

} // verus!
