//! Symbols and imports found in syntax trees.
use vstd::prelude::*;

use crate::model::Language;
use crate::syntax;
use crate::syntax::{Node, NodeView, SyntaxNode};
use crate::text;
use crate::text::Class;

verus! {

/// Symbols and imports in the order in which they are found.
pub struct Findings {
    pub symbols: Seq<Seq<char>>,
    pub imports: Seq<Seq<char>>,
}

impl Findings {
    /// Nothing found.
    pub open spec fn none() -> Findings {
        Findings { symbols: seq![], imports: seq![] }
    }

    /// What is found first and what is found after it.
    pub open spec fn then_find(self, later: Findings) -> Findings {
        Findings {
            symbols: self.symbols + later.symbols,
            imports: self.imports + later.imports,
        }
    }
}

/// What is found at one node, and whether its subtree is done with.
pub struct Step {
    pub found: Findings,
    pub handled: bool,
}

/// A text that may be there, as a list.
pub open spec fn single(o: Option<Seq<char>>) -> Seq<Seq<char>> {
    match o {
        Some(s) => seq![s],
        None => seq![],
    }
}

/// A step that finds a symbol, if there is one.
pub open spec fn symbol_step(o: Option<Seq<char>>, handled: bool) -> Step {
    Step { found: Findings { symbols: single(o), imports: seq![] }, handled }
}

/// A step that finds imports.
pub open spec fn import_step(imports: Seq<Seq<char>>) -> Step {
    Step { found: Findings { symbols: seq![], imports }, handled: true }
}

/// A step that finds nothing and goes on below the node.
pub open spec fn empty_step() -> Step {
    Step { found: Findings::none(), handled: false }
}

/// Puts a text that may be there behind a list.
pub fn push_if(list: &mut Vec<String>, o: Option<String>)
    ensures
        text::texts(final(list)@) == text::texts(old(list)@) + single(text::opt_text(o)),
{
    broadcast use text::group_text;

    match o {
        Some(s) => {
            list.push(s);
            assert(text::texts(old(list)@).push(s@) =~= text::texts(old(list)@) + seq![s@]);
        },
        None => {
            assert(text::texts(old(list)@) + seq![] =~= text::texts(old(list)@));
        },
    }
}

/// Puts texts behind a list.
pub fn push_all(list: &mut Vec<String>, more: Vec<String>)
    ensures
        text::texts(final(list)@) == text::texts(old(list)@) + text::texts(more@),
{
    let mut rest = more;
    list.append(&mut rest);
    assert(text::texts(list@) =~= text::texts(old(list)@) + text::texts(more@));
}

/// The first of a list of texts.
pub open spec fn first_of(list: Seq<Seq<char>>) -> Option<Seq<char>> {
    if list.len() == 0 {
        None
    } else {
        Some(list[0])
    }
}

/// The sources of the nodes of a kind.
pub open spec fn sources_of_kind(
    nodes: Seq<NodeView>,
    source: Seq<char>,
    of: Seq<(int, int)>,
    kind: Seq<char>,
) -> Seq<Seq<char>>
    decreases of.len(),
{
    if of.len() == 0 {
        seq![]
    } else {
        let n = of.last().0;
        let front = sources_of_kind(nodes, source, of.drop_last(), kind);
        if nodes[n].kind == kind {
            front + single(syntax::source_of(nodes, source, n))
        } else {
            front
        }
    }
}

/// The sources of the nodes of a kind.
fn texts_of_kind(nodes: &Vec<SyntaxNode>, of: &Vec<Node>, source: &str, kind: &str) -> (r: Vec<
    String,
>)
    requires
        forall|i: int| 0 <= i < of@.len() ==> (#[trigger] of@[i]).within(nodes@.len() as int),
    ensures
        text::texts(r@) == sources_of_kind(
            syntax::node_views(nodes@),
            source@,
            syntax::spans(of@),
            kind@,
        ),
{
    let ghost all = syntax::spans(of@);
    let mut out: Vec<String> = Vec::new();
    assert(all.take(0) =~= seq![]);
    assert(text::texts(out@) =~= seq![]);
    for i in 0..of.len()
        invariant
            all == syntax::spans(of@),
            forall|i: int| 0 <= i < of@.len() ==> (#[trigger] of@[i]).within(nodes@.len() as int),
            text::texts(out@) == sources_of_kind(
                syntax::node_views(nodes@),
                source@,
                all.take(i as int),
                kind@,
            ),
    {
        assert(all.take(i + 1).drop_last() =~= all.take(i as int));
        let node = of[i];
        assert(all.take(i + 1).last() == node@);
        if syntax::is_kind(nodes, node, kind) {
            push_if(&mut out, syntax::node_text(nodes, node, source));
        }
    }
    assert(all.take(of@.len() as int) =~= all);
    out
}

fn take_first(list: Vec<String>) -> (r: Option<String>)
    ensures
        text::opt_text(r) == first_of(text::texts(list@)),
{
    if list.len() == 0 {
        None
    } else {
        assert(text::texts(list@)[0] == list@[0]@);
        Some(list[0].clone())
    }
}

// ---------------------------------------------------------------------------
// Python
// ---------------------------------------------------------------------------

/// The name that a part of an import statement brings in.
pub open spec fn imported_name(nodes: Seq<NodeView>, source: Seq<char>, span: (int, int)) -> Option<
    Seq<char>,
> {
    if nodes[span.0].kind == "dotted_name"@ {
        syntax::source_of(nodes, source, span.0)
    } else if nodes[span.0].kind == "aliased_import"@ {
        syntax::field_source(nodes, source, span, "name"@)
    } else {
        None
    }
}

/// The names that the parts of an import statement bring in.
pub open spec fn imported_names(
    nodes: Seq<NodeView>,
    source: Seq<char>,
    of: Seq<(int, int)>,
) -> Seq<Seq<char>>
    decreases of.len(),
{
    if of.len() == 0 {
        seq![]
    } else {
        imported_names(nodes, source, of.drop_last()) + single(
            imported_name(nodes, source, of.last()),
        )
    }
}

fn import_names(nodes: &Vec<SyntaxNode>, of: &Vec<Node>, source: &str) -> (r: Vec<String>)
    requires
        forall|i: int| 0 <= i < of@.len() ==> (#[trigger] of@[i]).within(nodes@.len() as int),
    ensures
        text::texts(r@) == imported_names(
            syntax::node_views(nodes@),
            source@,
            syntax::spans(of@),
        ),
{
    let ghost all = syntax::spans(of@);
    let mut out: Vec<String> = Vec::new();
    assert(all.take(0) =~= seq![]);
    assert(text::texts(out@) =~= seq![]);
    for i in 0..of.len()
        invariant
            all == syntax::spans(of@),
            forall|i: int| 0 <= i < of@.len() ==> (#[trigger] of@[i]).within(nodes@.len() as int),
            text::texts(out@) == imported_names(
                syntax::node_views(nodes@),
                source@,
                all.take(i as int),
            ),
    {
        assert(all.take(i + 1).drop_last() =~= all.take(i as int));
        let node = of[i];
        assert(all.take(i + 1).last() == node@);
        let name = if syntax::is_kind(nodes, node, "dotted_name") {
            syntax::node_text(nodes, node, source)
        } else if syntax::is_kind(nodes, node, "aliased_import") {
            syntax::field_text(nodes, node, source, "name")
        } else {
            None
        };
        push_if(&mut out, name);
    }
    assert(all.take(of@.len() as int) =~= all);
    out
}

/// The specifier of a relative import: `from .foo import x` is `./foo`, `from ..pkg.mod import x`
/// is `./pkg/mod`, and `from . import helpers, util` is `./helpers`.
pub open spec fn relative_specifier(
    nodes: Seq<NodeView>,
    source: Seq<char>,
    module: (int, int),
    statement: (int, int),
) -> Option<Seq<char>> {
    if syntax::source_of(nodes, source, module.0) is None {
        None
    } else {
        let inside = syntax::named_nodes(nodes, module.0 + 1, module.1);
        match first_of(sources_of_kind(nodes, source, inside, "dotted_name"@)) {
            Some(name) => Some("./"@ + text::replace(name, '.', '/')),
            None => {
                let parts = syntax::named_nodes(nodes, statement.0 + 1, statement.1);
                match first_of(imported_names(nodes, source, parts)) {
                    Some(name) => Some("./"@ + text::split(name, Class::Only('.'))[0]),
                    None => None,
                }
            },
        }
    }
}

/// Makes the specifier of a relative import of Python, by which the file of the module is found.
pub fn relative_import_spec(
    nodes: &Vec<SyntaxNode>,
    module: Node,
    statement: Node,
    source: &str,
) -> (r: Option<String>)
    requires
        module.within(nodes@.len() as int),
        statement.within(nodes@.len() as int),
    ensures
        text::opt_text(r) == relative_specifier(
            syntax::node_views(nodes@),
            source@,
            module@,
            statement@,
        ),
{
    if syntax::node_text(nodes, module, source).is_none() {
        return None;
    }
    let inside = syntax::named_children(nodes, module);
    if let Some(name) = take_first(texts_of_kind(nodes, &inside, source, "dotted_name")) {
        let chars = text::chars_of(name.as_str());
        let path = text::replace_char(chars.as_slice(), '.', '/');
        return Some(text::concat("./", text::string_of(path.as_slice()).as_str()));
    }
    let parts = syntax::named_children(nodes, statement);
    match take_first(import_names(nodes, &parts, source)) {
        Some(name) => {
            let chars = text::chars_of(name.as_str());
            let pieces = text::split_class(chars.as_slice(), Class::Only('.'));
            assert(text::split(name@, Class::Only('.'))[0] == pieces@[0]@);
            Some(text::concat("./", text::string_of(pieces[0]).as_str()))
        },
        None => None,
    }
}

/// What is found at a node of Python: the names of functions and classes, and what is imported.
pub open spec fn python_step(nodes: Seq<NodeView>, source: Seq<char>, span: (int, int)) -> Step {
    let kind = nodes[span.0].kind;
    if kind == "function_definition"@ || kind == "class_definition"@ {
        symbol_step(syntax::field_source(nodes, source, span, "name"@), false)
    } else if kind == "import_statement"@ {
        let parts = syntax::named_nodes(nodes, span.0 + 1, span.1);
        import_step(imported_names(nodes, source, parts))
    } else if kind == "import_from_statement"@ {
        match syntax::field_node(nodes, span.0 + 1, span.1, "module_name"@) {
            Some(module) => if nodes[module.0].kind == "relative_import"@ {
                import_step(single(relative_specifier(nodes, source, module, span)))
            } else {
                import_step(single(syntax::source_of(nodes, source, module.0)))
            },
            None => import_step(seq![]),
        }
    } else {
        empty_step()
    }
}

/// Collects what is found at a node of Python, and tells whether its subtree is done with.
pub fn collect_python(
    nodes: &Vec<SyntaxNode>,
    node: Node,
    source: &str,
    symbols: &mut Vec<String>,
    imports: &mut Vec<String>,
) -> (handled: bool)
    requires
        node.within(nodes@.len() as int),
    ensures
        ({
            let step = python_step(syntax::node_views(nodes@), source@, node@);
            &&& handled == step.handled
            &&& text::texts(final(symbols)@) == text::texts(old(symbols)@) + step.found.symbols
            &&& text::texts(final(imports)@) == text::texts(old(imports)@) + step.found.imports
        }),
{
    if syntax::is_kind(nodes, node, "function_definition") || syntax::is_kind(
        nodes,
        node,
        "class_definition",
    ) {
        push_if(symbols, syntax::field_text(nodes, node, source, "name"));
        false
    } else if syntax::is_kind(nodes, node, "import_statement") {
        let parts = syntax::named_children(nodes, node);
        push_all(imports, import_names(nodes, &parts, source));
        true
    } else if syntax::is_kind(nodes, node, "import_from_statement") {
        if let Some(module) = syntax::child_by_field_name(nodes, node, "module_name") {
            if syntax::is_kind(nodes, module, "relative_import") {
                push_if(imports, relative_import_spec(nodes, module, node, source));
            } else {
                push_if(imports, syntax::node_text(nodes, module, source));
            }
        }
        true
    } else {
        false
    }
}

// ---------------------------------------------------------------------------
// Stacks of subtrees
// ---------------------------------------------------------------------------

/// The number of nodes that the subtrees of a stack have together.
pub open spec fn weight(stack: Seq<(int, int)>) -> int
    decreases stack.len(),
{
    if stack.len() == 0 {
        0
    } else {
        weight(stack.drop_last()) + (stack.last().1 - stack.last().0)
    }
}

/// The subtrees of a range have no more nodes than the range.
proof fn lemma_weight_of_children(
    nodes: Seq<NodeView>,
    stack: Seq<(int, int)>,
    lo: int,
    hi: int,
)
    requires
        lo <= hi,
    ensures
        weight(stack + syntax::named_nodes(nodes, lo, hi)) <= weight(stack) + (hi - lo),
    decreases hi - lo,
{
    if lo < hi {
        let e = syntax::subtree_end(nodes, lo, hi);
        let rest = syntax::named_nodes(nodes, e, hi);
        if nodes[lo].named {
            let next = stack.push((lo, e));
            lemma_weight_of_children(nodes, next, e, hi);
            assert(next.drop_last() =~= stack);
            assert(next + rest =~= stack + (seq![(lo, e)] + rest));
        } else {
            lemma_weight_of_children(nodes, stack, e, hi);
        }
    } else {
        assert(stack + seq![] =~= stack);
    }
}

/// A stack of proper subtrees weighs something for each of them.
proof fn lemma_weight_positive(stack: Seq<(int, int)>)
    requires
        forall|i: int| 0 <= i < stack.len() ==> (#[trigger] stack[i]).0 < stack[i].1,
    ensures
        weight(stack) >= stack.len(),
    decreases stack.len(),
{
    if stack.len() > 0 {
        lemma_weight_positive(stack.drop_last());
    }
}

/// Pushes the named children of a node, from left to right.
fn push_children(nodes: &Vec<SyntaxNode>, node: Node, stack: &mut Vec<Node>)
    requires
        node.within(nodes@.len() as int),
        forall|i: int|
            0 <= i < old(stack)@.len() ==> (#[trigger] old(stack)@[i]).within(nodes@.len() as int),
    ensures
        syntax::spans(final(stack)@) == syntax::spans(old(stack)@) + syntax::named_nodes(
            syntax::node_views(nodes@),
            node.at + 1,
            node.end as int,
        ),
        forall|i: int|
            0 <= i < final(stack)@.len() ==> (#[trigger] final(stack)@[i]).within(
                nodes@.len() as int,
            ),
{
    let mut children = syntax::named_children(nodes, node);
    let ghost below = children@;
    stack.append(&mut children);
    assert(stack@ == old(stack)@ + below);
    assert(syntax::spans(stack@) =~= syntax::spans(old(stack)@) + syntax::spans(below));
}

/// Pushes the named children of a node from right to left, so that the first is topmost.
fn push_children_reversed(nodes: &Vec<SyntaxNode>, node: Node, stack: &mut Vec<Node>)
    requires
        node.within(nodes@.len() as int),
        forall|i: int|
            0 <= i < old(stack)@.len() ==> (#[trigger] old(stack)@[i]).within(nodes@.len() as int),
    ensures
        syntax::spans(final(stack)@) == syntax::spans(old(stack)@) + syntax::named_nodes(
            syntax::node_views(nodes@),
            node.at + 1,
            node.end as int,
        ).reverse(),
        forall|i: int|
            0 <= i < final(stack)@.len() ==> (#[trigger] final(stack)@[i]).within(
                nodes@.len() as int,
            ),
{
    broadcast use syntax::lemma_spans_push;

    let children = syntax::named_children(nodes, node);
    let ghost all = syntax::spans(children@);
    let ghost below = syntax::spans(stack@);
    let mut i: usize = children.len();
    assert(below + all.skip(i as int).reverse() =~= below);
    while i > 0
        invariant
            i <= children@.len(),
            all == syntax::spans(children@),
            forall|j: int|
                0 <= j < children@.len() ==> (#[trigger] children@[j]).within(nodes@.len() as int),
            forall|j: int|
                0 <= j < stack@.len() ==> (#[trigger] stack@[j]).within(nodes@.len() as int),
            syntax::spans(stack@) == below + all.skip(i as int).reverse(),
        decreases i,
    {
        i -= 1;
        stack.push(children[i]);
        assert((below + all.skip(i + 1).reverse()).push(all[i as int]) =~= below + all.skip(
            i as int,
        ).reverse());
    }
    assert(all.skip(0) =~= all);
}

// ---------------------------------------------------------------------------
// Declarations
// ---------------------------------------------------------------------------

/// The name that a node itself has in a declaration of a given kind.
pub open spec fn own_name(
    nodes: Seq<NodeView>,
    source: Seq<char>,
    at: int,
    kind: Seq<char>,
) -> Option<Seq<char>> {
    let k = nodes[at].kind;
    if k != kind && (k == "identifier"@ || k == "type_identifier"@) {
        syntax::source_of(nodes, source, at)
    } else {
        None
    }
}

/// The first name in a subtree: a node comes before its children, and these come from left to
/// right.
pub open spec fn name_in(
    nodes: Seq<NodeView>,
    source: Seq<char>,
    span: (int, int),
    kind: Seq<char>,
) -> Option<Seq<char>>
    decreases span.1 - span.0, 0int,
{
    if span.0 >= span.1 {
        None
    } else {
        match own_name(nodes, source, span.0, kind) {
            Some(name) => Some(name),
            None => name_in_range(nodes, source, span.0 + 1, span.1, kind),
        }
    }
}

/// The first name in the named subtrees of a range, from left to right.
pub open spec fn name_in_range(
    nodes: Seq<NodeView>,
    source: Seq<char>,
    lo: int,
    hi: int,
    kind: Seq<char>,
) -> Option<Seq<char>>
    decreases hi - lo, 1int,
{
    if lo >= hi {
        None
    } else {
        let e = syntax::subtree_end(nodes, lo, hi);
        let here = if nodes[lo].named {
            name_in(nodes, source, (lo, e), kind)
        } else {
            None
        };
        match here {
            Some(name) => Some(name),
            None => name_in_range(nodes, source, e, hi, kind),
        }
    }
}

/// The first name in the subtrees of a stack, from the top down.
spec fn name_in_stack(
    nodes: Seq<NodeView>,
    source: Seq<char>,
    stack: Seq<(int, int)>,
    kind: Seq<char>,
) -> Option<Seq<char>>
    decreases stack.len(),
{
    if stack.len() == 0 {
        None
    } else {
        match name_in(nodes, source, stack.last(), kind) {
            Some(name) => Some(name),
            None => name_in_stack(nodes, source, stack.drop_last(), kind),
        }
    }
}

/// The named subtrees of a range on top of a stack, the first of them topmost, come before what
/// was there, and have no more nodes than the range.
proof fn lemma_name_in_children(
    nodes: Seq<NodeView>,
    source: Seq<char>,
    stack: Seq<(int, int)>,
    lo: int,
    hi: int,
    kind: Seq<char>,
)
    requires
        lo <= hi,
    ensures
        name_in_stack(nodes, source, stack + syntax::named_nodes(nodes, lo, hi).reverse(), kind) == (
        match name_in_range(nodes, source, lo, hi, kind) {
            Some(name) => Some(name),
            None => name_in_stack(nodes, source, stack, kind),
        }),
        weight(stack + syntax::named_nodes(nodes, lo, hi).reverse()) <= weight(stack) + (hi - lo),
    decreases hi - lo,
{
    let all = syntax::named_nodes(nodes, lo, hi);
    if lo < hi {
        let e = syntax::subtree_end(nodes, lo, hi);
        let rest = syntax::named_nodes(nodes, e, hi);
        lemma_name_in_children(nodes, source, stack, e, hi, kind);
        if nodes[lo].named {
            let next = stack + all.reverse();
            assert(all == seq![(lo, e)] + rest);
            assert(next =~= (stack + rest.reverse()).push((lo, e)));
            assert(next.drop_last() =~= stack + rest.reverse());
        }
    } else {
        assert(stack + all.reverse() =~= stack);
    }
}

/// The name of a declaration: what stands in its field `name`, or else the first identifier in
/// it, as in `export const PORT = 3000`.
pub open spec fn name_of_declaration(
    nodes: Seq<NodeView>,
    source: Seq<char>,
    span: (int, int),
) -> Option<Seq<char>> {
    match syntax::field_source(nodes, source, span, "name"@) {
        Some(name) => if name.len() > 0 {
            Some(name)
        } else {
            name_in(nodes, source, span, nodes[span.0].kind)
        },
        None => name_in(nodes, source, span, nodes[span.0].kind),
    }
}

fn search_name(nodes: &Vec<SyntaxNode>, node: Node, source: &str) -> (r: Option<String>)
    requires
        node.within(nodes@.len() as int),
    ensures
        text::opt_text(r) == name_in(
            syntax::node_views(nodes@),
            source@,
            node@,
            syntax::node_views(nodes@)[node.at as int].kind,
        ),
{
    let ghost all = syntax::node_views(nodes@);
    let kind = nodes[node.at].kind.as_str();
    assert(kind@ == all[node.at as int].kind);
    let mut stack: Vec<Node> = Vec::new();
    stack.push(node);
    proof {
        assert(syntax::spans(stack@).drop_last() =~= seq![]);
        assert(syntax::spans(stack@).last() == node@);
        reveal_with_fuel(name_in_stack, 2);
    }
    while stack.len() > 0
        invariant
            all == syntax::node_views(nodes@),
            node.within(nodes@.len() as int),
            kind@ == all[node.at as int].kind,
            forall|i: int| 0 <= i < stack@.len() ==> (#[trigger] stack@[i]).within(nodes@.len() as int),
            name_in(all, source@, node@, kind@) == name_in_stack(
                all,
                source@,
                syntax::spans(stack@),
                kind@,
            ),
        decreases weight(syntax::spans(stack@)),
    {
        let ghost before = syntax::spans(stack@);
        let last: usize = stack.len() - 1;
        let n = stack[last];
        let _ = stack.pop();
        proof {
            assert(before.last() == n@);
            assert(before.drop_last() =~= syntax::spans(stack@));
        }
        let ghost rest = syntax::spans(stack@);
        if !text::str_same(nodes[n.at].kind.as_str(), kind) && (syntax::is_kind(
            nodes,
            n,
            "identifier",
        ) || syntax::is_kind(nodes, n, "type_identifier")) {
            assert(all[n.at as int].kind == nodes@[n.at as int].kind@);
            if let Some(found) = syntax::node_text(nodes, n, source) {
                return Some(found);
            }
        }
        proof {
            assert(all[n.at as int].kind == nodes@[n.at as int].kind@);
            lemma_name_in_children(all, source@, rest, n.at + 1, n.end as int, kind@);
            lemma_weight_positive(before);
        }
        push_children_reversed(nodes, n, &mut stack);
        proof {
            lemma_weight_positive(syntax::spans(stack@));
        }
    }
    None
}

/// The name of a declaration.
pub fn declared_name(nodes: &Vec<SyntaxNode>, node: Node, source: &str) -> (r: Option<String>)
    requires
        node.within(nodes@.len() as int),
    ensures
        text::opt_text(r) == name_of_declaration(syntax::node_views(nodes@), source@, node@),
{
    if let Some(name) = syntax::field_text(nodes, node, source, "name") {
        if !name.as_str().is_empty() {
            return Some(name);
        }
    }
    search_name(nodes, node, source)
}

// ---------------------------------------------------------------------------
// TypeScript, JavaScript and Rust
// ---------------------------------------------------------------------------

/// A text without white space and quotes around it.
pub open spec fn unquoted(s: Seq<char>) -> Seq<char> {
    text::trim_class(text::trim_class(text::trim(s), Class::Only('"')), Class::Only('\''))
}

/// Takes white space and quotes off both ends of a text.
pub fn trim_quotes(s: &str) -> (r: String)
    ensures
        r@ == unquoted(s@),
{
    let chars = text::chars_of(s);
    let bare = text::trim_white(chars.as_slice());
    let bare = text::trim_both(bare, Class::Only('"'));
    text::string_of(text::trim_both(bare, Class::Only('\'')))
}

/// A text that may be there without its quotes.
pub open spec fn unquoted_if(o: Option<Seq<char>>) -> Option<Seq<char>> {
    match o {
        Some(s) => Some(unquoted(s)),
        None => None,
    }
}

fn trim_quotes_if(o: Option<String>) -> (r: Option<String>)
    ensures
        text::opt_text(r) == unquoted_if(text::opt_text(o)),
{
    match o {
        Some(s) => Some(trim_quotes(s.as_str())),
        None => None,
    }
}

/// What is found at a node of TypeScript: what is exported and what is imported.
pub open spec fn typescript_step(
    nodes: Seq<NodeView>,
    source: Seq<char>,
    span: (int, int),
) -> Step {
    let kind = nodes[span.0].kind;
    let from = import_step(single(unquoted_if(syntax::field_source(nodes, source, span, "source"@))));
    if kind == "import_statement"@ {
        from
    } else if kind == "export_statement"@ {
        match syntax::field_node(nodes, span.0 + 1, span.1, "declaration"@) {
            Some(declaration) => symbol_step(
                name_of_declaration(nodes, source, declaration),
                true,
            ),
            None => from,
        }
    } else {
        empty_step()
    }
}

/// Collects what is found at a node of TypeScript, and tells whether its subtree is done with.
pub fn collect_typescript(
    nodes: &Vec<SyntaxNode>,
    node: Node,
    source: &str,
    symbols: &mut Vec<String>,
    imports: &mut Vec<String>,
) -> (handled: bool)
    requires
        node.within(nodes@.len() as int),
    ensures
        ({
            let step = typescript_step(syntax::node_views(nodes@), source@, node@);
            &&& handled == step.handled
            &&& text::texts(final(symbols)@) == text::texts(old(symbols)@) + step.found.symbols
            &&& text::texts(final(imports)@) == text::texts(old(imports)@) + step.found.imports
        }),
{
    if syntax::is_kind(nodes, node, "import_statement") {
        push_if(imports, trim_quotes_if(syntax::field_text(nodes, node, source, "source")));
        true
    } else if syntax::is_kind(nodes, node, "export_statement") {
        if let Some(declaration) = syntax::child_by_field_name(nodes, node, "declaration") {
            push_if(symbols, declared_name(nodes, declaration, source));
        } else {
            push_if(imports, trim_quotes_if(syntax::field_text(nodes, node, source, "source")));
        }
        true
    } else {
        false
    }
}

/// Whether a kind is that of an item of Rust that may be public.
pub open spec fn item_kind(kind: Seq<char>) -> bool {
    ||| kind == "function_item"@
    ||| kind == "struct_item"@
    ||| kind == "enum_item"@
    ||| kind == "trait_item"@
    ||| kind == "type_item"@
    ||| kind == "const_item"@
    ||| kind == "static_item"@
    ||| kind == "union_item"@
    ||| kind == "mod_item"@
}

/// Whether an item of Rust is public without restriction: its visibility is `pub` and no more,
/// unlike `pub(crate)`.
pub open spec fn public_item(nodes: Seq<NodeView>, source: Seq<char>, span: (int, int)) -> bool {
    let children = syntax::named_nodes(nodes, span.0 + 1, span.1);
    sources_of_kind(nodes, source, children, "visibility_modifier"@).contains("pub"@)
}

fn is_public(nodes: &Vec<SyntaxNode>, node: Node, source: &str) -> (r: bool)
    requires
        node.within(nodes@.len() as int),
    ensures
        r == public_item(syntax::node_views(nodes@), source@, node@),
{
    let children = syntax::named_children(nodes, node);
    let modifiers = texts_of_kind(nodes, &children, source, "visibility_modifier");
    let ghost all = text::texts(modifiers@);
    for i in 0..modifiers.len()
        invariant
            all == text::texts(modifiers@),
            all == sources_of_kind(
                syntax::node_views(nodes@),
                source@,
                syntax::named_nodes(syntax::node_views(nodes@), node.at + 1, node.end as int),
                "visibility_modifier"@,
            ),
            forall|j: int| 0 <= j < i ==> all[j] != "pub"@,
    {
        assert(all[i as int] == modifiers@[i as int]@);
        if text::str_same(modifiers[i].as_str(), "pub") {
            assert(all.contains("pub"@));
            return true;
        }
    }
    false
}

/// What is found at a node of Rust: the names of public items and what is used.
pub open spec fn rust_step(nodes: Seq<NodeView>, source: Seq<char>, span: (int, int)) -> Step {
    let kind = nodes[span.0].kind;
    if item_kind(kind) {
        if public_item(nodes, source, span) {
            symbol_step(syntax::field_source(nodes, source, span, "name"@), false)
        } else {
            empty_step()
        }
    } else if kind == "use_declaration"@ {
        import_step(single(syntax::field_source(nodes, source, span, "argument"@)))
    } else {
        empty_step()
    }
}

fn is_item(nodes: &Vec<SyntaxNode>, node: Node) -> (r: bool)
    requires
        node.within(nodes@.len() as int),
    ensures
        r == item_kind(syntax::node_views(nodes@)[node.at as int].kind),
{
    syntax::is_kind(nodes, node, "function_item") || syntax::is_kind(nodes, node, "struct_item")
        || syntax::is_kind(nodes, node, "enum_item") || syntax::is_kind(nodes, node, "trait_item")
        || syntax::is_kind(nodes, node, "type_item") || syntax::is_kind(nodes, node, "const_item")
        || syntax::is_kind(nodes, node, "static_item") || syntax::is_kind(nodes, node, "union_item")
        || syntax::is_kind(nodes, node, "mod_item")
}

/// Collects what is found at a node of Rust, and tells whether its subtree is done with.
pub fn collect_rust(
    nodes: &Vec<SyntaxNode>,
    node: Node,
    source: &str,
    symbols: &mut Vec<String>,
    imports: &mut Vec<String>,
) -> (handled: bool)
    requires
        node.within(nodes@.len() as int),
    ensures
        ({
            let step = rust_step(syntax::node_views(nodes@), source@, node@);
            &&& handled == step.handled
            &&& text::texts(final(symbols)@) == text::texts(old(symbols)@) + step.found.symbols
            &&& text::texts(final(imports)@) == text::texts(old(imports)@) + step.found.imports
        }),
{
    if is_item(nodes, node) {
        if is_public(nodes, node, source) {
            push_if(symbols, syntax::field_text(nodes, node, source, "name"));
        }
        false
    } else if syntax::is_kind(nodes, node, "use_declaration") {
        push_if(imports, syntax::field_text(nodes, node, source, "argument"));
        true
    } else {
        false
    }
}

/// Whether a call is a call of `require`.
pub open spec fn requires_module(
    nodes: Seq<NodeView>,
    source: Seq<char>,
    span: (int, int),
) -> bool {
    match syntax::field_node(nodes, span.0 + 1, span.1, "function"@) {
        Some(f) => nodes[f.0].kind == "identifier"@ && syntax::source_of(nodes, source, f.0)
            == Some("require"@),
        None => false,
    }
}

/// The first string among the arguments of a call.
pub open spec fn first_string(
    nodes: Seq<NodeView>,
    source: Seq<char>,
    span: (int, int),
) -> Option<Seq<char>> {
    match syntax::field_node(nodes, span.0 + 1, span.1, "arguments"@) {
        Some(args) => first_of(
            sources_of_kind(
                nodes,
                source,
                syntax::named_nodes(nodes, args.0 + 1, args.1),
                "string"@,
            ),
        ),
        None => None,
    }
}

/// The identifier that an assignment exports: the right side of `module.exports = Foo` or
/// `exports.foo = Foo`.
pub open spec fn exported_name(
    nodes: Seq<NodeView>,
    source: Seq<char>,
    span: (int, int),
) -> Option<Seq<char>> {
    match syntax::field_source(nodes, source, span, "left"@) {
        Some(left) => if left == "module.exports"@ || text::starts(left, "exports."@) {
            match syntax::field_node(nodes, span.0 + 1, span.1, "right"@) {
                Some(right) => if nodes[right.0].kind == "identifier"@ {
                    syntax::source_of(nodes, source, right.0)
                } else {
                    None
                },
                None => None,
            }
        } else {
            None
        },
        None => None,
    }
}

/// What is found at a node of JavaScript: what is exported, and what is imported or required.
pub open spec fn javascript_step(
    nodes: Seq<NodeView>,
    source: Seq<char>,
    span: (int, int),
) -> Step {
    let kind = nodes[span.0].kind;
    if kind == "import_statement"@ || kind == "export_statement"@ {
        typescript_step(nodes, source, span)
    } else if kind == "call_expression"@ {
        if requires_module(nodes, source, span) {
            import_step(single(unquoted_if(first_string(nodes, source, span))))
        } else {
            empty_step()
        }
    } else if kind == "assignment_expression"@ {
        match exported_name(nodes, source, span) {
            Some(name) => symbol_step(Some(name), true),
            None => empty_step(),
        }
    } else {
        empty_step()
    }
}

fn is_require(nodes: &Vec<SyntaxNode>, node: Node, source: &str) -> (r: bool)
    requires
        node.within(nodes@.len() as int),
    ensures
        r == requires_module(syntax::node_views(nodes@), source@, node@),
{
    match syntax::child_by_field_name(nodes, node, "function") {
        Some(f) => if syntax::is_kind(nodes, f, "identifier") {
            match syntax::node_text(nodes, f, source) {
                Some(name) => text::str_same(name.as_str(), "require"),
                None => false,
            }
        } else {
            false
        },
        None => false,
    }
}

fn find_exported_name(nodes: &Vec<SyntaxNode>, node: Node, source: &str) -> (r: Option<String>)
    requires
        node.within(nodes@.len() as int),
    ensures
        text::opt_text(r) == exported_name(syntax::node_views(nodes@), source@, node@),
{
    let left = match syntax::field_text(nodes, node, source, "left") {
        Some(l) => l,
        None => {
            return None;
        },
    };
    let chars = text::chars_of(left.as_str());
    if !text::is(chars.as_slice(), "module.exports") && !text::starts_with(
        chars.as_slice(),
        "exports.",
    ) {
        return None;
    }
    match syntax::child_by_field_name(nodes, node, "right") {
        Some(right) => if syntax::is_kind(nodes, right, "identifier") {
            syntax::node_text(nodes, right, source)
        } else {
            None
        },
        None => None,
    }
}

/// Collects what is found at a node of JavaScript, and tells whether its subtree is done with.
pub fn collect_javascript(
    nodes: &Vec<SyntaxNode>,
    node: Node,
    source: &str,
    symbols: &mut Vec<String>,
    imports: &mut Vec<String>,
) -> (handled: bool)
    requires
        node.within(nodes@.len() as int),
    ensures
        ({
            let step = javascript_step(syntax::node_views(nodes@), source@, node@);
            &&& handled == step.handled
            &&& text::texts(final(symbols)@) == text::texts(old(symbols)@) + step.found.symbols
            &&& text::texts(final(imports)@) == text::texts(old(imports)@) + step.found.imports
        }),
{
    if syntax::is_kind(nodes, node, "import_statement") || syntax::is_kind(
        nodes,
        node,
        "export_statement",
    ) {
        collect_typescript(nodes, node, source, symbols, imports)
    } else if syntax::is_kind(nodes, node, "call_expression") {
        if is_require(nodes, node, source) {
            if let Some(args) = syntax::child_by_field_name(nodes, node, "arguments") {
                let children = syntax::named_children(nodes, args);
                let strings = texts_of_kind(nodes, &children, source, "string");
                push_if(imports, trim_quotes_if(take_first(strings)));
            }
            true
        } else {
            false
        }
    } else if syntax::is_kind(nodes, node, "assignment_expression") {
        match find_exported_name(nodes, node, source) {
            Some(name) => {
                push_if(symbols, Some(name));
                true
            },
            None => false,
        }
    } else {
        false
    }
}

// ---------------------------------------------------------------------------
// The walk over a tree
// ---------------------------------------------------------------------------

/// What is found at a node of a language.
pub open spec fn step_at(
    nodes: Seq<NodeView>,
    source: Seq<char>,
    lang: Language,
    span: (int, int),
) -> Step {
    match lang {
        Language::Python => python_step(nodes, source, span),
        Language::TypeScript => typescript_step(nodes, source, span),
        Language::Rust => rust_step(nodes, source, span),
        Language::JavaScript => javascript_step(nodes, source, span),
        Language::Other => empty_step(),
    }
}

/// What is found in a subtree: first at its node and then, unless the node is done with, below
/// it.
pub open spec fn found_in(
    nodes: Seq<NodeView>,
    source: Seq<char>,
    lang: Language,
    span: (int, int),
) -> Findings
    decreases span.1 - span.0, 0int,
{
    if span.0 >= span.1 {
        Findings::none()
    } else {
        let step = step_at(nodes, source, lang, span);
        if step.handled {
            step.found
        } else {
            step.found.then_find(found_in_range(nodes, source, lang, span.0 + 1, span.1))
        }
    }
}

/// What is found in the named subtrees of a range, of which the last comes first.
pub open spec fn found_in_range(
    nodes: Seq<NodeView>,
    source: Seq<char>,
    lang: Language,
    lo: int,
    hi: int,
) -> Findings
    decreases hi - lo, 1int,
{
    if lo >= hi {
        Findings::none()
    } else {
        let e = syntax::subtree_end(nodes, lo, hi);
        let later = found_in_range(nodes, source, lang, e, hi);
        if nodes[lo].named {
            later.then_find(found_in(nodes, source, lang, (lo, e)))
        } else {
            later
        }
    }
}

/// What is found in the subtrees of a stack, from the top down.
spec fn found_in_stack(
    nodes: Seq<NodeView>,
    source: Seq<char>,
    lang: Language,
    stack: Seq<(int, int)>,
) -> Findings
    decreases stack.len(),
{
    if stack.len() == 0 {
        Findings::none()
    } else {
        found_in(nodes, source, lang, stack.last()).then_find(
            found_in_stack(nodes, source, lang, stack.drop_last()),
        )
    }
}

/// Finding one after the other is associative.
proof fn lemma_find_associative(a: Findings, b: Findings, c: Findings)
    ensures
        a.then_find(b).then_find(c) == a.then_find(b.then_find(c)),
        Findings::none().then_find(a) == a,
        a.then_find(Findings::none()) == a,
{
    assert(a.symbols + b.symbols + c.symbols =~= a.symbols + (b.symbols + c.symbols));
    assert(a.imports + b.imports + c.imports =~= a.imports + (b.imports + c.imports));
    assert(seq![] + a.symbols =~= a.symbols);
    assert(seq![] + a.imports =~= a.imports);
    assert(a.symbols + seq![] =~= a.symbols);
    assert(a.imports + seq![] =~= a.imports);
}

/// The named subtrees of a range on top of a stack come before what was there.
proof fn lemma_found_in_children(
    nodes: Seq<NodeView>,
    source: Seq<char>,
    lang: Language,
    stack: Seq<(int, int)>,
    lo: int,
    hi: int,
)
    ensures
        found_in_stack(nodes, source, lang, stack + syntax::named_nodes(nodes, lo, hi))
            == found_in_range(nodes, source, lang, lo, hi).then_find(
            found_in_stack(nodes, source, lang, stack),
        ),
    decreases hi - lo,
{
    let below = found_in_stack(nodes, source, lang, stack);
    if lo < hi {
        let e = syntax::subtree_end(nodes, lo, hi);
        let rest = syntax::named_nodes(nodes, e, hi);
        if nodes[lo].named {
            let next = stack.push((lo, e));
            lemma_found_in_children(nodes, source, lang, next, e, hi);
            assert(next.drop_last() =~= stack);
            assert(next + rest =~= stack + (seq![(lo, e)] + rest));
            lemma_find_associative(
                found_in_range(nodes, source, lang, e, hi),
                found_in(nodes, source, lang, (lo, e)),
                below,
            );
        } else {
            lemma_found_in_children(nodes, source, lang, stack, e, hi);
        }
    } else {
        assert(stack + seq![] =~= stack);
        lemma_find_associative(below, below, below);
    }
}

/// Collects what is found at a node of a language, and tells whether its subtree is done with.
fn collect(
    nodes: &Vec<SyntaxNode>,
    node: Node,
    source: &str,
    lang: Language,
    symbols: &mut Vec<String>,
    imports: &mut Vec<String>,
) -> (handled: bool)
    requires
        node.within(nodes@.len() as int),
    ensures
        ({
            let step = step_at(syntax::node_views(nodes@), source@, lang, node@);
            &&& handled == step.handled
            &&& text::texts(final(symbols)@) == text::texts(old(symbols)@) + step.found.symbols
            &&& text::texts(final(imports)@) == text::texts(old(imports)@) + step.found.imports
        }),
{
    match lang {
        Language::Python => collect_python(nodes, node, source, symbols, imports),
        Language::TypeScript => collect_typescript(nodes, node, source, symbols, imports),
        Language::Rust => collect_rust(nodes, node, source, symbols, imports),
        Language::JavaScript => collect_javascript(nodes, node, source, symbols, imports),
        Language::Other => {
            push_if(symbols, None);
            push_if(imports, None);
            false
        },
    }
}

/// What is found in a whole tree.
pub open spec fn found_in_tree(
    nodes: Seq<NodeView>,
    source: Seq<char>,
    lang: Language,
) -> Findings {
    found_in(nodes, source, lang, (0, nodes.len() as int))
}

/// Findings as they are handed out.
pub open spec fn findings(found: (Vec<String>, Vec<String>)) -> Findings {
    Findings { symbols: text::texts(found.0@), imports: text::texts(found.1@) }
}

/// Walks over a tree from its root and collects symbols and imports.
pub fn walk_tree(nodes: &Vec<SyntaxNode>, source: &str, lang: Language) -> (r: (
    Vec<String>,
    Vec<String>,
))
    ensures
        findings(r) == found_in_tree(syntax::node_views(nodes@), source@, lang),
{
    let ghost all = syntax::node_views(nodes@);
    let mut symbols: Vec<String> = Vec::new();
    let mut imports: Vec<String> = Vec::new();
    assert(text::texts(symbols@) =~= seq![]);
    assert(text::texts(imports@) =~= seq![]);
    let mut stack: Vec<Node> = Vec::new();
    let ghost total = found_in_tree(all, source@, lang);
    if nodes.len() > 0 {
        let root = Node { at: 0, end: nodes.len() };
        stack.push(root);
        proof {
            assert(syntax::spans(stack@).drop_last() =~= seq![]);
            assert(syntax::spans(stack@).last() == root@);
        }
    } else {
        assert(syntax::spans(stack@) =~= seq![]);
    }
    proof {
        lemma_find_associative(total, total, total);
        reveal_with_fuel(found_in_stack, 2);
    }
    while stack.len() > 0
        invariant
            all == syntax::node_views(nodes@),
            forall|i: int| 0 <= i < stack@.len() ==> (#[trigger] stack@[i]).within(nodes@.len() as int),
            total == findings((symbols, imports)).then_find(
                found_in_stack(all, source@, lang, syntax::spans(stack@)),
            ),
        decreases weight(syntax::spans(stack@)),
    {
        let ghost before = syntax::spans(stack@);
        let ghost sofar = findings((symbols, imports));
        let last: usize = stack.len() - 1;
        let node = stack[last];
        let _ = stack.pop();
        let ghost rest = syntax::spans(stack@);
        let ghost step = step_at(all, source@, lang, node@);
        proof {
            assert(before.last() == node@);
            assert(before.drop_last() =~= rest);
            lemma_found_in_children(all, source@, lang, rest, node.at + 1, node.end as int);
            lemma_weight_of_children(all, rest, node.at + 1, node.end as int);
            lemma_weight_positive(before);
            lemma_weight_positive(rest);
            lemma_find_associative(
                sofar,
                step.found,
                found_in_stack(all, source@, lang, rest),
            );
            let below = found_in_range(all, source@, lang, node.at + 1, node.end as int);
            lemma_find_associative(
                step.found,
                below,
                found_in_stack(all, source@, lang, rest),
            );
            lemma_find_associative(
                sofar,
                step.found,
                below.then_find(found_in_stack(all, source@, lang, rest)),
            );
        }
        let handled = collect(nodes, node, source, lang, &mut symbols, &mut imports);
        assert(findings((symbols, imports)) == sofar.then_find(step.found));
        if !handled {
            push_children(nodes, node, &mut stack);
            proof {
                lemma_weight_positive(syntax::spans(stack@));
            }
        }
    }
    proof {
        lemma_find_associative(findings((symbols, imports)), total, total);
    }
    (symbols, imports)
}

/// What the tree of a source says; nothing where there is no tree.
pub open spec fn extracted(source: Seq<char>, lang: Language) -> Option<Findings> {
    match syntax::parsed(source, lang) {
        Some(nodes) => Some(found_in_tree(nodes, source, lang)),
        None => None,
    }
}

/// Parses a source and collects its symbols and imports.
pub fn tree_sitter_extract(content: &str, lang: Language) -> (r: Option<(Vec<String>, Vec<String>)>)
    ensures
        match r {
            Some(found) => extracted(content@, lang) == Some(findings(found)),
            None => extracted(content@, lang) is None,
        },
{
    match syntax::parse(content, lang) {
        Some(nodes) => Some(walk_tree(&nodes, content, lang)),
        None => None,
    }
}

} // verus!
