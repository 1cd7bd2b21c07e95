//! What holds of the map as a whole.
use codecairn::markdown::format_markdown;
use codecairn::model::{FileInfo, Language, ProjectMap};
use codecairn::project::build_map;
use codecairn::ranking::rank_key_files;
use codecairn::registry::{build_import_registry, file_stem};
use codecairn::resolve::{resolve_import, rust_file_crate_root};
use codecairn::structure::analyze_structure;

fn file(path: &str, language: Language, lines: usize, imports: &[&str]) -> FileInfo {
    FileInfo {
        path: path.to_string(),
        language,
        lines,
        symbols: Vec::new(),
        imports: imports.iter().map(|s| s.to_string()).collect(),
        purpose: None,
    }
}

fn project() -> Vec<FileInfo> {
    vec![
        file("src/lib.rs", Language::Rust, 3, &["crate::net::tcp", "std::fmt", "self::net"]),
        file("src/net/mod.rs", Language::Rust, 5, &["self::tcp", "super::util", "crate::util"]),
        file("src/net/tcp.rs", Language::Rust, 7, &["super::super::util", "crate::net::tcp"]),
        file("src/util.rs", Language::Rust, 11, &[]),
        file("app/__init__.py", Language::Python, 13, &[]),
        file("app/util.py", Language::Python, 17, &["app", "./missing"]),
        file("web/index.ts", Language::TypeScript, 19, &["./tests/util"]),
        file("web/tests/util.ts", Language::TypeScript, 23, &["..", "../index"]),
    ]
}

fn map_of(files: &Vec<FileInfo>, max: usize) -> ProjectMap {
    build_map(files, Vec::new(), Vec::new(), None, max)
}

#[test]
fn the_map_does_not_depend_on_the_order_of_files() {
    let files = project();
    let expected = format_markdown(&map_of(&files, 5));
    let mut others = project();
    others.reverse();
    assert_eq!(format_markdown(&map_of(&others, 5)), expected);
    others.swap(1, 6);
    others.swap(0, 3);
    assert_eq!(format_markdown(&map_of(&others, 5)), expected);
}

#[test]
fn names_stand_for_the_least_path() {
    let files = project();
    let registry = build_import_registry(&files);
    for f in &files {
        let path = registry.get(&f.path).unwrap();
        assert!(path <= f.path);
        let stem = registry.get(&file_stem(&f.path).unwrap()).unwrap();
        assert!(stem <= f.path);
        assert!(files.iter().any(|g| g.path == path));
        assert!(files.iter().any(|g| g.path == stem));
    }
    assert_eq!(registry.get("util").as_deref(), Some("app/util.py"));
    assert_eq!(registry.get("app.util").as_deref(), Some("app/util.py"));
    assert_eq!(registry.get("app").as_deref(), Some("app/__init__.py"));
}

#[test]
fn modules_stand_for_their_files() {
    let registry = build_import_registry(&project());
    let cases = [
        ("crate::net", "src/net/mod.rs"),
        ("crate::net::tcp", "src/net/tcp.rs"),
        ("crate::util", "src/util.rs"),
    ];
    for (import, path) in cases {
        for from in ["src/lib.rs", "src/net/tcp.rs", "tests/it.rs"] {
            let root = rust_file_crate_root(from);
            assert_eq!(
                resolve_import(import, from, Language::Rust, &registry, root.as_deref()).as_deref(),
                Some(path)
            );
        }
    }
}

#[test]
fn dependencies_are_other_files_of_the_project() {
    let files = project();
    let (_, graph) = analyze_structure(&files);
    let shown = |path: &str| graph.get(path).unwrap().join(" ");
    assert_eq!(shown("src/lib.rs"), "src/net/mod.rs src/net/tcp.rs");
    assert_eq!(shown("src/net/mod.rs"), "src/net/tcp.rs src/util.rs");
    assert_eq!(shown("src/net/tcp.rs"), "src/util.rs");
    assert_eq!(shown("src/util.rs"), "");
    assert_eq!(shown("app/util.py"), "app/__init__.py");
    assert_eq!(shown("web/index.ts"), "web/tests/util.ts");
    assert_eq!(shown("web/tests/util.ts"), "web/index.ts");
    for f in &files {
        let deps = graph.get(&f.path).unwrap();
        assert!(deps.windows(2).all(|w| w[0] < w[1]));
        assert!(deps.iter().all(|d| *d != f.path && files.iter().any(|g| g.path == *d)));
    }
}

#[test]
fn dependents_are_counted_once_for_each_file() {
    let files = project();
    let (_, graph) = analyze_structure(&files);
    let ranked = rank_key_files(&files, &graph, files.len());
    for k in &ranked {
        let importing = files
            .iter()
            .filter(|f| graph.get(&f.path).unwrap().contains(&k.path))
            .count();
        assert_eq!(k.dependent_count, importing);
    }
    // src/net/mod.rs imports from src/util.rs in two ways and counts once.
    assert_eq!(ranked[0].path, "src/net/tcp.rs");
    assert_eq!(ranked[0].dependent_count, 2);
    assert_eq!(ranked[1].path, "src/util.rs");
    assert_eq!(ranked[1].dependent_count, 2);
    for w in ranked.windows(2) {
        assert!(
            w[0].dependent_count > w[1].dependent_count
                || (w[0].dependent_count == w[1].dependent_count && w[0].path < w[1].path)
        );
    }
}

#[test]
fn every_file_is_listed_under_its_directory() {
    let files = project();
    let map = map_of(&files, 0);
    let total: usize = map.structure.iter().map(|d| d.file_count).sum();
    assert_eq!(total, files.len());
    for f in &files {
        let holders = map.structure.iter().filter(|d| d.files.contains(&f.path)).count();
        assert_eq!(holders, 1);
    }
    assert!(map.structure.windows(2).all(|w| w[0].path < w[1].path));
    assert!(map.structure.iter().all(|d| d.files.len() == d.file_count));
    assert_eq!(map.overview.languages.get("Rust"), Some(&26));
    assert_eq!(map.overview.test_count, 1);
    assert!(map.key_files.is_empty());
}

#[test]
fn files_stand_below_the_root_of_their_crate() {
    for path in ["src/a.rs", "crates/foo/src/a/src/b.rs", "a/b/src/x"] {
        let root = rust_file_crate_root(path).unwrap();
        let head = if root.is_empty() {
            "src/".to_string()
        } else {
            format!("{root}/src/")
        };
        assert!(path.starts_with(&head));
    }
    assert_eq!(rust_file_crate_root("lib/a.rs"), None);
}
