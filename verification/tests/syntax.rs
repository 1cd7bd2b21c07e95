//! The flat list of nodes against the tree that it was taken from.
use codecairn::model::Language;
use codecairn::syntax::{
    child_by_field_name, field_text, is_kind, named_children, node_text, parse, Node, SyntaxNode,
};
use codecairn::walk::{
    collect_javascript, collect_python, collect_rust, collect_typescript, declared_name,
    relative_import_spec, tree_sitter_extract, walk_tree,
};

const PYTHON: &str = "\"\"\"Doc \u{e9}.\"\"\"\nimport os, a.b as c\nfrom . import x as y, z\nfrom ..p.q import r\nfrom m import (n,\n  o)\nclass K(B):\n    def m(self, u=1): return u\n@deco\nasync def f(): pass\nx = [i for i in range(3)]\ndef broken(:\n";

const TYPESCRIPT: &str = "// top\nimport d, { a as b } from './m';\nimport type { T } from \"t\";\nexport default class C<T> extends D { x: number = 1; }\nexport const A = 1, B = 2;\nexport function f(a: string): void {}\nexport { q } from 'q';\nexport enum E { X }\nexport = z;\nlet \u{fc} = `t${1}`;\n";

const RUST: &str = "//! top\nuse std::{fmt, io::{self, Read}};\npub(crate) fn f<T: Into<u8>>(x: T) -> u8 where T: Copy { x.into() }\npub struct S { pub a: u8 }\nenum E { A, B }\npub mod m { pub const C: &str = \"\u{1f600}\"; pub fn g() {} }\nmacro_rules! k { () => {} }\nfn broken( {\n";

const JAVASCRIPT: &str = "// top\nconst a = require('a'), b = require(`t`);\nmodule.exports = Foo;\nexports.bar = baz;\nexports.q = function () {};\nimport z from \"z\";\nexport default function n() {}\nclass Foo { m() { return require(\"inner\"); } }\nif (x { y }\n";

const SOURCES: [(Language, &str); 4] = [
    (Language::Python, PYTHON),
    (Language::TypeScript, TYPESCRIPT),
    (Language::Rust, RUST),
    (Language::JavaScript, JAVASCRIPT),
];

const FIELDS: [&str; 10] = [
    "name", "module_name", "source", "declaration", "argument", "function", "arguments", "left",
    "right", "body",
];

fn tree_of(lang: Language, source: &str) -> tree_sitter::Tree {
    let grammar: tree_sitter::Language = match lang {
        Language::Python => tree_sitter_python::LANGUAGE.into(),
        Language::TypeScript => tree_sitter_typescript::LANGUAGE_TYPESCRIPT.into(),
        Language::Rust => tree_sitter_rust::LANGUAGE.into(),
        _ => tree_sitter_javascript::LANGUAGE.into(),
    };
    let mut parser = tree_sitter::Parser::new();
    parser.set_language(&grammar).unwrap();
    parser.parse(source, None).unwrap()
}

fn real_children<'t>(node: tree_sitter::Node<'t>) -> Vec<tree_sitter::Node<'t>> {
    let mut cursor = node.walk();
    let children: Vec<tree_sitter::Node<'t>> = node.children(&mut cursor).collect();
    children.into_iter().filter(|c| c.is_named()).collect()
}

/// Compares a node and everything below it; the result is the number of named nodes.
fn compare(nodes: &Vec<SyntaxNode>, node: Node, real: tree_sitter::Node<'_>, source: &str) -> usize {
    assert!(is_kind(nodes, node, real.kind()));
    let text = real.utf8_text(source.as_bytes()).ok().map(|s| s.to_string());
    assert_eq!(node_text(nodes, node, source), text);
    for field in FIELDS {
        let found = child_by_field_name(nodes, node, field);
        let expected = real.child_by_field_name(field);
        assert_eq!(found.is_some(), expected.is_some());
        if let (Some(f), Some(e)) = (found, expected) {
            assert!(is_kind(nodes, f, e.kind()));
            assert_eq!(nodes[f.at].start, e.start_byte());
            assert_eq!(nodes[f.at].end, e.end_byte());
            assert_eq!(f.end - f.at, e.descendant_count());
        }
        let expected_text = expected
            .and_then(|e| e.utf8_text(source.as_bytes()).ok())
            .map(|s| s.to_string());
        assert_eq!(field_text(nodes, node, source, field), expected_text);
    }
    let children = named_children(nodes, node);
    let expected = real_children(real);
    assert_eq!(children.len(), expected.len());
    let mut count = 1;
    for (c, e) in children.into_iter().zip(expected) {
        count += compare(nodes, c, e, source);
    }
    count
}

#[test]
fn nodes_are_those_of_the_tree() {
    for (lang, source) in SOURCES {
        let nodes = parse(source, lang).unwrap();
        let tree = tree_of(lang, source);
        let root = Node { at: 0, end: nodes.len() };
        assert_eq!(nodes.len(), tree.root_node().descendant_count());
        assert!(compare(&nodes, root, tree.root_node(), source) > 20);
    }
}

#[test]
fn there_is_no_tree_without_a_grammar() {
    assert!(parse("x", Language::Other).is_none());
    assert!(tree_sitter_extract("x", Language::Other).is_none());
}

fn node(kind: &str, named: bool, field: Option<&str>, size: usize, range: (usize, usize)) -> SyntaxNode {
    SyntaxNode {
        kind: kind.to_string(),
        named,
        field: field.map(|f| f.to_string()),
        size,
        start: range.0,
        end: range.1,
    }
}

#[test]
fn texts_are_cut_at_characters() {
    let source = "a\u{e9}b";
    let whole = Node { at: 0, end: 1 };
    let cases = [
        ((0, 4), Some(source)),
        ((1, 3), Some("\u{e9}")),
        ((2, 3), None),
        ((1, 2), None),
        ((2, 2), Some("")),
        ((4, 4), Some("")),
        ((3, 5), None),
        ((3, 2), None),
    ];
    for (range, expected) in cases {
        let nodes = vec![node("k", true, None, 1, range)];
        assert_eq!(node_text(&nodes, whole, source).as_deref(), expected);
    }
}

#[test]
fn sizes_are_kept_inside_of_the_parent() {
    let nodes = vec![
        node("root", true, None, 9, (0, 0)),
        node("a", true, Some("name"), 0, (0, 0)),
        node("b", false, None, 5, (0, 0)),
        node("c", true, None, 1, (0, 0)),
    ];
    let root = Node { at: 0, end: 4 };
    assert_eq!(named_children(&nodes, root), vec![Node { at: 1, end: 2 }]);
    assert_eq!(child_by_field_name(&nodes, root, "name"), Some(Node { at: 1, end: 2 }));
    assert_eq!(child_by_field_name(&nodes, root, "other"), None);
}

#[test]
fn collectors_work_on_single_nodes() {
    let source = "import x";
    let nodes = vec![
        node("import_statement", true, None, 2, (0, 8)),
        node("dotted_name", true, Some("name"), 1, (7, 8)),
    ];
    let root = Node { at: 0, end: 2 };
    let mut symbols = Vec::new();
    let mut imports = Vec::new();
    assert!(collect_python(&nodes, root, source, &mut symbols, &mut imports));
    assert_eq!(imports, vec!["x".to_string()]);
    assert!(symbols.is_empty());
    // The other languages look for other nodes.
    assert!(!collect_rust(&nodes, root, source, &mut symbols, &mut imports));
    assert!(collect_typescript(&nodes, root, source, &mut symbols, &mut imports));
    assert!(collect_javascript(&nodes, root, source, &mut symbols, &mut imports));
    assert_eq!(imports, vec!["x".to_string()]);
    assert_eq!(walk_tree(&nodes, source, Language::Python).1, vec!["x".to_string()]);
    assert!(walk_tree(&nodes, source, Language::Rust).1.is_empty());
    assert!(walk_tree(&Vec::new(), "", Language::Rust).0.is_empty());
}

#[test]
fn names_of_declarations() {
    let source = "const A = b";
    let nodes = vec![
        node("lexical_declaration", true, None, 4, (0, 11)),
        node("variable_declarator", true, None, 3, (6, 11)),
        node("identifier", true, Some("name"), 1, (6, 7)),
        node("identifier", true, Some("value"), 1, (10, 11)),
    ];
    // Without a field of its own the first identifier counts.
    assert_eq!(
        declared_name(&nodes, Node { at: 0, end: 4 }, source).as_deref(),
        Some("A")
    );
    assert_eq!(
        declared_name(&nodes, Node { at: 1, end: 4 }, source).as_deref(),
        Some("A")
    );
    assert_eq!(declared_name(&nodes, Node { at: 2, end: 3 }, source), None);
}

#[test]
fn relative_imports_name_a_path() {
    let source = "from .a.b import c";
    let nodes = vec![
        node("import_from_statement", true, None, 5, (0, 18)),
        node("relative_import", true, Some("module_name"), 2, (5, 9)),
        node("dotted_name", true, None, 1, (6, 9)),
        node("import", false, None, 1, (10, 16)),
        node("dotted_name", true, Some("name"), 1, (17, 18)),
    ];
    let module = Node { at: 1, end: 3 };
    let statement = Node { at: 0, end: 5 };
    assert_eq!(
        relative_import_spec(&nodes, module, statement, source).as_deref(),
        Some("./a/b")
    );
}
