//! Resolution of imports.
use codecairn::collections::{register, ImportRegistry};
use codecairn::model::Language;
use codecairn::resolve::{
    clean_path, current_module_path, expand_braces, probe_chains, probe_key_chain, probe_src_chain,
    relative_extensions, resolve_import, resolve_relative, resolve_rust, rust_file_crate_root,
    rust_module_path, sanitize_rust,
};

fn registry(pairs: &[(&str, &str)]) -> ImportRegistry {
    let mut map = ImportRegistry::new();
    for (k, v) in pairs {
        register(&mut map, k, v);
    }
    map
}

#[test]
fn rust_crate_import_resolves_via_registry() {
    let map = registry(&[
        ("src/lib.rs", "src/lib.rs"),
        ("crate", "src/lib.rs"),
        ("src/app/models.rs", "src/app/models.rs"),
        ("crate::app::models", "src/app/models.rs"),
        ("src/app/routes.rs", "src/app/routes.rs"),
        ("crate::app::routes", "src/app/routes.rs"),
    ]);

    assert_eq!(
        resolve_import(
            "crate::app::models",
            "src/main.rs",
            Language::Rust,
            &map,
            Some("")
        ),
        Some("src/app/models.rs".to_string())
    );
    // A short prefix that is itself a registered module also resolves.
    assert_eq!(
        resolve_import("crate", "src/main.rs", Language::Rust, &map, Some("")),
        Some("src/lib.rs".to_string())
    );
    // Unknown modules do not resolve.
    assert_eq!(
        resolve_import(
            "crate::app::missing",
            "src/main.rs",
            Language::Rust,
            &map,
            Some("")
        ),
        None
    );
}

#[test]
fn rust_crate_import_probes_src_path() {
    // No `crate::...` registry keys; only the file identity exists. The
    // probe must locate `src/services/db.rs` from the path directly.
    let map = registry(&[("src/services/db.rs", "src/services/db.rs")]);
    assert_eq!(
        resolve_import(
            "crate::services::db",
            "src/main.rs",
            Language::Rust,
            &map,
            Some("")
        ),
        Some("src/services/db.rs".to_string())
    );
    // mod.rs form is probed too.
    let map2 = registry(&[("src/services/db/mod.rs", "src/services/db/mod.rs")]);
    assert_eq!(
        resolve_import(
            "crate::services::db::Client",
            "src/main.rs",
            Language::Rust,
            &map2,
            Some("")
        ),
        Some("src/services/db/mod.rs".to_string())
    );
}

#[test]
fn rust_self_and_super_resolve() {
    let map = registry(&[
        ("crate::app", "src/app/mod.rs"),
        ("crate::app::router", "src/app/router.rs"),
        ("crate::app::models", "src/app/models.rs"),
    ]);
    // `self::router` from src/app/mod.rs: module path is ["app"].
    assert_eq!(
        resolve_import(
            "self::router",
            "src/app/mod.rs",
            Language::Rust,
            &map,
            Some("")
        ),
        Some("src/app/router.rs".to_string())
    );
    // `super::models` from src/app/router.rs: module path ["app","router"],
    // one super climbs to ["app"].
    assert_eq!(
        resolve_import(
            "super::models",
            "src/app/router.rs",
            Language::Rust,
            &map,
            Some("")
        ),
        Some("src/app/models.rs".to_string())
    );
    // `super::super::x` from a nested file climbs two levels.
    let map2 = registry(&[("crate::app::handlers::util", "src/app/handlers/util.rs")]);
    assert_eq!(
        resolve_import(
            "super::super::handlers::util",
            "src/app/handlers/check.rs",
            Language::Rust,
            &map2,
            Some("")
        ),
        Some("src/app/handlers/util.rs".to_string())
    );
}

#[test]
fn rust_brace_imports_expand_and_resolve() {
    let map = registry(&[
        ("crate::models", "src/models.rs"),
        ("crate::views::index", "src/views/index.rs"),
    ]);
    // `use crate::models::{User, Post};` — neither sub-name is its own
    // module, but the chain probe finds `crate::models`.
    assert_eq!(
        resolve_import(
            "crate::models::{User, Post}",
            "src/main.rs",
            Language::Rust,
            &map,
            Some("")
        ),
        Some("src/models.rs".to_string())
    );
    // A brace item that names a real module resolves too.
    assert_eq!(
        resolve_import(
            "crate::views::{index, self}",
            "src/main.rs",
            Language::Rust,
            &map,
            Some("")
        ),
        Some("src/views/index.rs".to_string())
    );
}

#[test]
fn python_dotted_import_resolves() {
    let map = registry(&[
        ("app", "app/__init__.py"),
        ("app/__init__.py", "app/__init__.py"),
        ("app.models", "app/models.py"),
        ("app/models.py", "app/models.py"),
    ]);
    assert_eq!(
        resolve_import("app.models", "app/main.py", Language::Python, &map, None),
        Some("app/models.py".to_string())
    );
}

#[test]
fn relative_python_resolves_with_index_fallback() {
    let map = registry(&[
        ("src/__init__.py", "src/__init__.py"),
        ("src/helpers.py", "src/helpers.py"),
        ("src/views/__init__.py", "src/views/__init__.py"),
    ]);
    // `from . import helpers` inside src/...
    assert_eq!(
        resolve_import("./helpers", "src/app.py", Language::Python, &map, None),
        Some("src/helpers.py".to_string())
    );
    // `from . import views` resolves to the package __init__.
    assert_eq!(
        resolve_import("./views", "src/app.py", Language::Python, &map, None),
        Some("src/views/__init__.py".to_string())
    );
}

#[test]
fn relative_typescript_resolves_with_index_fallback() {
    let map = registry(&[("components/ui/index.ts", "components/ui/index.ts")]);
    assert_eq!(
        resolve_import(
            "./ui",
            "components/layout.ts",
            Language::TypeScript,
            &map,
            None
        ),
        Some("components/ui/index.ts".to_string())
    );
}

#[test]
fn bare_stem_and_identity_resolve() {
    let map = registry(&[
        ("util", "src/util.rs"),
        ("src/util.rs", "src/util.rs"),
        ("helpers", "src/helpers.py"),
    ]);
    assert_eq!(
        resolve_import("util", "src/main.rs", Language::Rust, &map, Some("")),
        Some("src/util.rs".to_string())
    );
    assert_eq!(
        resolve_import("helpers", "src/main.rs", Language::Python, &map, None),
        Some("src/helpers.py".to_string())
    );
    // Empty and unknown imports return None.
    assert_eq!(
        resolve_import("", "src/main.rs", Language::Python, &map, None),
        None
    );
    assert_eq!(
        resolve_import("nope", "src/main.rs", Language::Python, &map, None),
        None
    );
}

#[test]
fn crate_root_detection() {
    assert_eq!(rust_file_crate_root("src/main.rs"), Some("".to_string()));
    assert_eq!(
        rust_file_crate_root("crates/foo/src/lib.rs"),
        Some("crates/foo".to_string())
    );
    assert_eq!(rust_file_crate_root("tests/it.rs"), None);
    assert!(rust_file_crate_root("crates/foo/src/app/mod.rs")
        .is_some_and(|root| root == "crates/foo"));
}

#[test]
fn module_path_maps_files() {
    assert_eq!(
        rust_module_path("src/lib.rs", ""),
        Some(Vec::<String>::new())
    );
    assert_eq!(
        rust_module_path("src/app/models.rs", ""),
        Some(vec!["app".to_string(), "models".to_string()])
    );
    // mod.rs contributes only its directory.
    assert_eq!(
        rust_module_path("src/app/mod.rs", ""),
        Some(vec!["app".to_string()])
    );
    assert_eq!(
        rust_module_path("crates/foo/src/db.rs", "crates/foo"),
        Some(vec!["db".to_string()])
    );
}

fn strings(items: &[&str]) -> Vec<String> {
    items.iter().map(|s| s.to_string()).collect()
}

#[test]
fn first_registration_wins() {
    let map = registry(&[("k", "first"), ("k", "second")]);
    assert_eq!(map.get("k"), Some("first".to_string()));
    assert_eq!(map.get("other"), None);
}

#[test]
fn clean_path_collapses_dots() {
    assert_eq!(clean_path("a/./b//c"), "a/b/c");
    assert_eq!(clean_path("a/b/../c"), "a/c");
    assert_eq!(clean_path("../../a"), "a");
    assert_eq!(clean_path("./"), "");
    assert_eq!(clean_path("/x/y"), "x/y");
    // Cleaning twice changes nothing more.
    for p in ["a/./b//c", "../x/..", "", "/", "a/b"] {
        let once = clean_path(p);
        assert_eq!(clean_path(&once), once);
    }
}

#[test]
fn relative_extensions_of_each_language() {
    assert_eq!(relative_extensions(Language::Python), vec![".py", "/__init__.py"]);
    assert_eq!(relative_extensions(Language::Rust), vec![".rs"]);
    assert_eq!(relative_extensions(Language::TypeScript), vec![".ts", ".tsx"]);
    assert_eq!(
        relative_extensions(Language::JavaScript),
        vec![".js", ".jsx", ".mjs", ".cjs"]
    );
    assert!(relative_extensions(Language::Other).is_empty());
}

#[test]
fn relative_imports_climb_and_fail() {
    let map = registry(&[("lib/a.ts", "lib/a.ts"), ("a.ts", "a.ts")]);
    assert_eq!(
        resolve_relative("../lib/a", "src/x.ts", Language::TypeScript, &map),
        Some("lib/a.ts".to_string())
    );
    assert_eq!(
        resolve_relative("./a", "x.ts", Language::TypeScript, &map),
        Some("a.ts".to_string())
    );
    assert_eq!(resolve_relative("./b", "x.ts", Language::TypeScript, &map), None);
    assert_eq!(resolve_relative(".", "x.ts", Language::TypeScript, &map), None);
    assert_eq!(resolve_relative("./a", "x.ts", Language::Other, &map), None);
}

#[test]
fn braces_expand_one_level() {
    assert_eq!(expand_braces("a::{b, c}"), strings(&["a::b", "a::c"]));
    assert_eq!(expand_braces("a::{self, b as x}"), strings(&["a", "a::b"]));
    assert_eq!(expand_braces("{a, b}"), strings(&["a", "b"]));
    assert_eq!(expand_braces("a::{b}::c"), strings(&["a::b::::c"]));
}

#[test]
fn braces_otherwise_stay() {
    for import in ["a::b", "a::{b", "a::}b{", "a::{}", "a::{ , }", "a::{b::{c}, d}"] {
        assert_eq!(expand_braces(import), strings(&[import]));
    }
}

#[test]
fn rust_paths_are_sanitized() {
    assert_eq!(sanitize_rust(" crate::a::* "), "crate::a");
    assert_eq!(sanitize_rust("crate::a as b"), "crate::a");
    assert_eq!(sanitize_rust("crate::a::{b}"), "crate::a");
    assert_eq!(sanitize_rust("::"), "");
}

#[test]
fn the_longest_registered_start_counts() {
    let map = registry(&[("crate::a", "src/a.rs"), ("crate::a::b", "src/a/b.rs")]);
    assert_eq!(
        probe_key_chain(&strings(&["a", "b", "C"]), &map),
        Some("src/a/b.rs".to_string())
    );
    assert_eq!(
        probe_key_chain(&strings(&["a", "x"]), &map),
        Some("src/a.rs".to_string())
    );
    assert_eq!(probe_key_chain(&strings(&["b"]), &map), None);
    assert_eq!(probe_key_chain(&[], &map), None);
}

#[test]
fn source_files_are_probed_below_the_root() {
    let map = registry(&[
        ("k/src/a.rs", "k/src/a.rs"),
        ("k/src/a/mod.rs", "k/src/a/mod.rs"),
        ("src/b/mod.rs", "src/b/mod.rs"),
    ]);
    assert_eq!(
        probe_src_chain(&strings(&["a", "X"]), "k", &map),
        Some("k/src/a.rs".to_string())
    );
    assert_eq!(
        probe_src_chain(&strings(&["b"]), "", &map),
        Some("src/b/mod.rs".to_string())
    );
    assert_eq!(probe_src_chain(&strings(&["a"]), "", &map), None);
    assert_eq!(probe_chains(&strings(&["b"]), None, &map), None);
    assert_eq!(
        probe_chains(&strings(&["b"]), Some(""), &map),
        Some("src/b/mod.rs".to_string())
    );
}

#[test]
fn keys_come_before_source_files() {
    let map = registry(&[("src/a.rs", "src/a.rs"), ("crate::a", "elsewhere.rs")]);
    assert_eq!(
        probe_chains(&strings(&["a"]), Some(""), &map),
        Some("elsewhere.rs".to_string())
    );
}

#[test]
fn module_of_a_file_without_a_root_is_the_crate() {
    assert_eq!(current_module_path("src/a/b.rs", None), strings(&[]));
    assert_eq!(current_module_path("x.rs", Some("")), strings(&[]));
    assert_eq!(current_module_path("src/a/b.rs", Some("")), strings(&["a", "b"]));
}

#[test]
fn rust_paths_climb_no_further_than_the_crate() {
    let map = registry(&[("crate::m", "src/m.rs")]);
    assert_eq!(
        resolve_rust("super::super::super::m", "src/a.rs", &map, Some("")),
        Some("src/m.rs".to_string())
    );
    assert_eq!(
        resolve_rust("::m", "src/a.rs", &map, None),
        Some("src/m.rs".to_string())
    );
    assert_eq!(resolve_rust("{}", "src/a.rs", &map, None), None);
    // The second path of a list is tried where the first leads nowhere.
    assert_eq!(
        resolve_rust("crate::{q, m}", "src/a.rs", &map, None),
        Some("src/m.rs".to_string())
    );
}

#[test]
fn nothing_is_imported_by_nothing() {
    let map = registry(&[("", "x.py")]);
    assert_eq!(resolve_import("  ", "a.py", Language::Python, &map, None), None);
}
