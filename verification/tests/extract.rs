//! Symbols, imports and purpose of source files.
use codecairn::extract::{
    extract_javascript, extract_python, extract_rust, extract_symbols_imports_purpose,
    extract_typescript, first_group_texts, group_text, javascript_symbol, keep_worthwhile,
    purpose_of, push_new, python_import, typescript_export,
};
use codecairn::model::Language;
use codecairn::walk::trim_quotes;

#[test]
fn python_tree_sitter_finds_defs_imports_and_purpose() {
    let src = "\"\"\"HTTP helpers for the app.\"\"\"\n\
               from flask import request\n\
               import json\n\
               \n\
               class RequestHelper:\n\
                   def get_json(self):\n\
                       return json.loads(request.data)\n\
               \n\
               async def parse_body(body):\n\
                   return body\n";
    let (symbols, imports, purpose) = extract_symbols_imports_purpose(src, Language::Python);
    assert!(symbols.contains(&"RequestHelper".to_string()));
    assert!(symbols.contains(&"parse_body".to_string()));
    assert!(imports.contains(&"flask".to_string()));
    assert!(imports.contains(&"json".to_string()));
    assert_eq!(purpose.as_deref(), Some("HTTP helpers for the app."));
}

#[test]
fn python_relative_imports_become_dot_specs() {
    let src = "from . import helpers\nfrom ..services import db\nfrom .models import User\n";
    let (_, imports, _) = extract_symbols_imports_purpose(src, Language::Python);
    assert!(imports.contains(&"./helpers".to_string()));
    assert!(imports.contains(&"./services".to_string()));
    assert!(imports.contains(&"./models".to_string()));
}

#[test]
fn typescript_finds_exports_imports_and_purpose() {
    let src = "// Route definitions for v1\n\
               import express from 'express'\n\
               import { Router } from './router'\n\
               \n\
               export class App {\n\
                   constructor() {}\n\
               }\n\
               export function start(): void {}\n\
               export const PORT = 3000;\n";
    let (symbols, imports, purpose) =
        extract_symbols_imports_purpose(src, Language::TypeScript);
    assert!(symbols.contains(&"App".to_string()));
    assert!(symbols.contains(&"start".to_string()));
    assert!(symbols.contains(&"PORT".to_string()));
    assert!(imports.contains(&"express".to_string()));
    assert!(imports.contains(&"./router".to_string()));
    assert_eq!(purpose.as_deref(), Some("Route definitions for v1"));
}

#[test]
fn rust_finds_pub_items_and_uses() {
    let src = "/// Query helpers shared across modules.\n\
               use std::collections::HashMap;\n\
               use crate::models::{User, Post};\n\
               \n\
               pub fn find_by_id<T>(id: T) {}\n\
               pub struct Query {}\n\
               pub enum SortOrder { Asc, Desc }\n";
    let (symbols, imports, purpose) = extract_symbols_imports_purpose(src, Language::Rust);
    assert!(symbols.contains(&"find_by_id".to_string()));
    assert!(symbols.contains(&"Query".to_string()));
    assert!(symbols.contains(&"SortOrder".to_string()));
    assert!(imports.contains(&"std::collections::HashMap".to_string()));
    assert!(imports.contains(&"crate::models::{User, Post}".to_string()));
    assert_eq!(
        purpose.as_deref(),
        Some("Query helpers shared across modules.")
    );
}

#[test]
fn rust_ignores_private_items() {
    let src = "fn hidden() {}\nstruct Private {}\nuse std::fmt;\n";
    let (symbols, imports, _) = extract_symbols_imports_purpose(src, Language::Rust);
    assert!(symbols.is_empty());
    assert_eq!(imports, vec!["std::fmt".to_string()]);
}

#[test]
fn javascript_finds_require_and_exports() {
    let src = "// Logger for the app\n\
               const path = require('path');\n\
               const express = require('express');\n\
               module.exports = init;\n\
               function init() {}\n";
    let (symbols, imports, purpose) =
        extract_symbols_imports_purpose(src, Language::JavaScript);
    assert!(symbols.contains(&"init".to_string()));
    assert!(imports.contains(&"path".to_string()));
    assert!(imports.contains(&"express".to_string()));
    assert_eq!(purpose.as_deref(), Some("Logger for the app"));
}

#[test]
fn unsupported_language_yields_nothing() {
    let (symbols, imports, purpose) =
        extract_symbols_imports_purpose("garbage", Language::Other);
    assert!(symbols.is_empty());
    assert!(imports.is_empty());
    assert_eq!(purpose, None);
}

#[test]
fn regex_fallbacks_still_work() {
    let py = "#!/usr/bin/env python\n\ndef utility():\n    pass\n";
    let (symbols, imports, purpose) = extract_python(py);
    assert_eq!(symbols, vec!["utility"]);
    assert!(imports.is_empty());
    assert_eq!(purpose, None);

    let js = "module.exports = sum;\nfunction sum(a, b) {}\n";
    let (symbols, _, _) = extract_javascript(js);
    assert_eq!(symbols, vec!["sum"]);
}

fn strings(items: &[&str]) -> Vec<String> {
    items.iter().map(|s| s.to_string()).collect()
}

fn groups(items: &[Option<&str>]) -> Option<Vec<Option<String>>> {
    Some(items.iter().map(|o| o.map(|s| s.to_string())).collect())
}

#[test]
fn nested_definitions_come_after_later_ones() {
    let src = "class A:\n    def m(self):\n        pass\n\ndef f():\n    pass\n";
    let (symbols, imports, _) = extract_symbols_imports_purpose(src, Language::Python);
    assert_eq!(symbols, strings(&["f", "A", "m"]));
    assert!(imports.is_empty());
}

#[test]
fn python_imports_keep_the_names_of_modules() {
    let src = "import os.path, json as j\nfrom a.b import c\nfrom .x.y import z\nfrom . import q as r\n";
    let (_, imports, _) = extract_symbols_imports_purpose(src, Language::Python);
    assert_eq!(imports, strings(&["./q", "./x/y", "a.b", "os.path", "json"]));
}

#[test]
fn a_star_from_here_imports_nothing() {
    let (symbols, imports, purpose) =
        extract_symbols_imports_purpose("from . import *\n", Language::Python);
    assert!(symbols.is_empty());
    assert!(imports.is_empty());
    assert_eq!(purpose, None);
}

#[test]
fn typescript_exports_of_all_kinds() {
    let src = "export interface I {}\nexport type T = string;\nexport * from './all';\nexport { x } from \"./x\";\n";
    let (symbols, imports, _) = extract_symbols_imports_purpose(src, Language::TypeScript);
    assert_eq!(symbols, strings(&["T", "I"]));
    assert_eq!(imports, strings(&["./x", "./all"]));
}

#[test]
fn rust_uses_and_nested_items() {
    let src = "pub mod a { pub const N: u8 = 1; fn hidden() {} }\nuse a::b as c;\n";
    let (symbols, imports, _) = extract_symbols_imports_purpose(src, Language::Rust);
    assert_eq!(symbols, strings(&["a", "N"]));
    assert_eq!(imports, strings(&["a::b as c"]));
}

#[test]
fn restricted_items_are_not_public() {
    let src = "pub(crate) fn f() {}\npub(super) struct S;\npub(in crate::a) enum E {}\npub fn g() {}\n";
    let (symbols, _, _) = extract_symbols_imports_purpose(src, Language::Rust);
    assert_eq!(symbols, strings(&["g"]));
    assert_eq!(extract_rust(src).0, symbols);
}

#[test]
fn exported_constants_have_their_own_names() {
    let cases = [
        ("export const A = foo;\n", "A"),
        ("export const app = express();\n", "app"),
        ("export const A = 1, B = 2;\n", "A"),
        ("export let x: Foo = bar;\n", "x"),
    ];
    for (src, name) in cases {
        let (symbols, _, _) = extract_symbols_imports_purpose(src, Language::TypeScript);
        assert_eq!(symbols, strings(&[name]));
        assert_eq!(extract_typescript(src).0, symbols);
    }
    let (symbols, _, _) =
        extract_symbols_imports_purpose("export const app = express();\n", Language::JavaScript);
    assert_eq!(symbols, strings(&["app"]));
}

#[test]
fn javascript_exports_and_requires() {
    let src = "exports.run = go;\nconst a = require(\"./a\");\nimport b from './b';\nexport function f() {}\nrequire(x);\n";
    let (symbols, imports, _) = extract_symbols_imports_purpose(src, Language::JavaScript);
    assert_eq!(symbols, strings(&["f", "go"]));
    assert_eq!(imports, strings(&["./b", "./a"]));
}

#[test]
fn the_text_of_a_node_may_hold_any_character() {
    let src = "# \u{fc}ber\ndef gr\u{fc}n():\n    pass\nimport caf\u{e9}\n";
    let (symbols, imports, purpose) = extract_symbols_imports_purpose(src, Language::Python);
    assert_eq!(symbols, strings(&["gr\u{fc}n"]));
    assert_eq!(imports, strings(&["caf\u{e9}"]));
    assert_eq!(purpose, Some("\u{fc}ber".to_string()));
}

#[test]
fn patterns_take_over_where_the_tree_says_nothing() {
    // There is no export in the tree, but a function for the patterns.
    let src = "function lonely() {}\n";
    let (symbols, _, _) = extract_symbols_imports_purpose(src, Language::JavaScript);
    assert_eq!(symbols, strings(&["lonely"]));
}

#[test]
fn patterns_of_python() {
    let src = "'''Doc.'''\nimport a.b\nfrom x import y\nfrom . import h, k\nfrom ..p.q import z\nasync def run():\nclass K:\n";
    let (symbols, imports, purpose) = extract_python(src);
    assert_eq!(symbols, strings(&["run", "K"]));
    assert_eq!(imports, strings(&["a.b", "x", "./h", "./p/q"]));
    assert_eq!(purpose, Some("Doc.".to_string()));
}

#[test]
fn patterns_of_typescript() {
    let src = "/** Top. */\nimport 'side';\nimport { a, b } from \"./ab\";\nexport class C {}\nexport default function d() {}\nexport default x;\n";
    let (symbols, imports, purpose) = extract_typescript(src);
    assert_eq!(symbols, strings(&["C", "d", "x"]));
    assert_eq!(imports, strings(&["side", "./ab"]));
    assert_eq!(purpose, Some("Top.".to_string()));
}

#[test]
fn patterns_of_rust() {
    let src = "//! Top.\nuse std::fmt;\nuse crate::a {b};\npub fn f() {}\npub(crate) fn g() {}\n";
    let (symbols, imports, purpose) = extract_rust(src);
    assert_eq!(symbols, strings(&["f"]));
    assert_eq!(imports, strings(&["std::fmt", "crate::a {b}"]));
    assert_eq!(purpose, Some("Top.".to_string()));
}

#[test]
fn patterns_of_javascript() {
    let src = "// Top\nvar a = require('x'), b = require(\"y\");\nclass A {}\nmodule.exports = A;\n";
    let (symbols, imports, purpose) = extract_javascript(src);
    assert_eq!(symbols, strings(&["A"]));
    assert_eq!(imports, strings(&["x", "y"]));
    assert_eq!(purpose, Some("Top".to_string()));
}

#[test]
fn both_ways_tell_the_same_purpose() {
    let cases = [
        (Language::Python, "# a\nimport x\n"),
        (Language::TypeScript, "// b\nimport 'x';\n"),
        (Language::Rust, "/*! c */\nuse x;\n"),
        (Language::JavaScript, "/** d */\nrequire('x');\n"),
    ];
    for (lang, src) in cases {
        let tree = extract_symbols_imports_purpose(src, lang).2;
        let lines = match lang {
            Language::Python => extract_python(src).2,
            Language::TypeScript => extract_typescript(src).2,
            Language::Rust => extract_rust(src).2,
            _ => extract_javascript(src).2,
        };
        assert!(tree.is_some());
        assert_eq!(tree, lines);
    }
}

#[test]
fn purpose_is_told_by_the_first_line_with_text() {
    assert_eq!(
        purpose_of("\n\n  # late\n", Language::Python),
        Some("late".to_string())
    );
    assert_eq!(purpose_of("#!/bin/sh\n# x\n", Language::Python), None);
    assert_eq!(purpose_of("x = 1\n# y\n", Language::Python), None);
    assert_eq!(
        purpose_of("\"\"\"\nDoc\n\"\"\"\n", Language::Python),
        Some(String::new())
    );
    assert_eq!(purpose_of("// plain\n", Language::Rust), None);
    assert_eq!(purpose_of("# x\n", Language::Other), None);
    assert_eq!(purpose_of("", Language::Rust), None);
}

#[test]
fn quotes_are_trimmed() {
    assert_eq!(trim_quotes(" \"./a\" "), "./a");
    assert_eq!(trim_quotes("'x'"), "x");
    assert_eq!(trim_quotes("\"'x'\""), "x");
    assert_eq!(trim_quotes("''"), "");
}

#[test]
fn groups_that_are_not_there_are_nothing() {
    assert_eq!(group_text(&None, 1), None);
    assert_eq!(group_text(&groups(&[Some("all")]), 1), None);
    assert_eq!(
        group_text(&groups(&[Some("all"), Some("one")]), 1),
        Some("one".to_string())
    );
}

#[test]
fn imports_of_a_line_of_python() {
    let plain = groups(&[Some("import m"), Some("m")]);
    let from = groups(&[Some("from .a.b import c"), Some(".a.b"), Some("c")]);
    let here = groups(&[Some("from . import h.x, k"), Some("."), Some(" h.x , k")]);
    assert_eq!(python_import(&None, &plain), Some("m".to_string()));
    assert_eq!(python_import(&from, &plain), Some("./a/b".to_string()));
    assert_eq!(python_import(&here, &None), Some("./h".to_string()));
    assert_eq!(python_import(&None, &None), None);
}

#[test]
fn symbols_of_a_line() {
    let a = groups(&[Some(""), Some("a")]);
    let b = groups(&[Some(""), Some("b")]);
    assert_eq!(typescript_export(&a, &b), Some("a".to_string()));
    assert_eq!(typescript_export(&None, &b), Some("b".to_string()));
    let second = groups(&[Some(""), None, Some("c")]);
    assert_eq!(javascript_symbol(&second), Some("c".to_string()));
    assert_eq!(javascript_symbol(&a), Some("a".to_string()));
    assert_eq!(
        first_group_texts(vec![a.unwrap(), second.unwrap(), b.unwrap()]),
        strings(&["a", "b"])
    );
}

#[test]
fn new_texts_only() {
    let mut list = strings(&["a"]);
    push_new(&mut list, "a".to_string());
    push_new(&mut list, "b".to_string());
    assert_eq!(list, strings(&["a", "b"]));
}

#[test]
fn findings_count_where_there_are_any() {
    assert_eq!(keep_worthwhile(None), None);
    assert_eq!(keep_worthwhile(Some((vec![], vec![]))), None);
    let found = Some((vec![], strings(&["x"])));
    assert_eq!(keep_worthwhile(found.clone()), found);
}
