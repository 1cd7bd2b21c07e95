//! Roles, ranks and the map as Markdown.
use codecairn::collections::{DepGraph, SortedMap};
use codecairn::markdown::{format_markdown, FOOTER};
use codecairn::model::{
    DirectoryInfo, FileInfo, KeyFileInfo, Language, ManifestInfo, Overview, ProjectMap,
};
use codecairn::ranking::{guess_directory_role, rank_key_files, role_of_lower};

fn table(pairs: &[(&str, &str)]) -> SortedMap<String> {
    let mut map = SortedMap::new();
    for (k, v) in pairs {
        map.insert(k.to_string(), v.to_string());
    }
    map
}

fn counts(pairs: &[(&str, usize)]) -> SortedMap<usize> {
    let mut map = SortedMap::new();
    for (k, v) in pairs {
        map.insert(k.to_string(), *v);
    }
    map
}

fn file(path: &str, lang: Language) -> FileInfo {
    FileInfo {
        path: path.to_string(),
        language: lang,
        lines: 1,
        symbols: Vec::new(),
        imports: Vec::new(),
        purpose: None,
    }
}

#[test]
fn guess_directory_role_knows_common_names() {
    let empty: Vec<&FileInfo> = vec![];
    assert_eq!(guess_directory_role("tests", &empty), "tests");
    assert_eq!(guess_directory_role("app/routes", &empty), "routes");
    assert_eq!(guess_directory_role("app/models", &empty), "models");
    assert_eq!(guess_directory_role("app/views", &empty), "views");
    assert_eq!(guess_directory_role("app/services", &empty), "services");
    assert_eq!(guess_directory_role("middleware", &empty), "middleware");
    assert_eq!(guess_directory_role("config", &empty), "config");
    assert_eq!(guess_directory_role("db/migrations", &empty), "migrations");
    assert_eq!(guess_directory_role(".", &empty), "root");
}

#[test]
fn guess_directory_role_uses_file_language() {
    let py = [file("src/a.py", Language::Python)];
    let py_refs: Vec<&FileInfo> = py.iter().collect();
    assert_eq!(guess_directory_role("src", &py_refs), "python");
    let ts = [file("src/a.ts", Language::TypeScript)];
    let ts_refs: Vec<&FileInfo> = ts.iter().collect();
    assert_eq!(guess_directory_role("src", &ts_refs), "typescript");
    let rs = [file("src/a.rs", Language::Rust)];
    let rs_refs: Vec<&FileInfo> = rs.iter().collect();
    assert_eq!(guess_directory_role("src", &rs_refs), "rust");
    // Mixed language groups are "other".
    let mixed = [
        file("src/a.py", Language::Python),
        file("src/b.rs", Language::Rust),
    ];
    let mixed_refs: Vec<&FileInfo> = mixed.iter().collect();
    assert_eq!(guess_directory_role("src", &mixed_refs), "other");
}

#[test]
fn rank_key_files_sorts_by_dependents_then_path() {
    let files = vec![
        file("a.rs", Language::Rust),
        file("b.rs", Language::Rust),
        file("c.rs", Language::Rust),
    ];
    let mut graph = DepGraph::new();
    graph.insert("a.rs".to_string(), vec!["b.rs".to_string()]);
    graph.insert(
        "b.rs".to_string(),
        vec!["c.rs".to_string(), "c.rs".to_string()],
    );
    graph.insert("c.rs".to_string(), Vec::new());

    let ranked = rank_key_files(&files, &graph, 20);
    // All three appear; c has 2 dependents, b 1, a 0.
    assert!(ranked[0].path == "c.rs" && ranked[0].dependent_count == 2);
    assert!(ranked[1].path == "b.rs" && ranked[1].dependent_count == 1);
    assert!(ranked[2].path == "a.rs" && ranked[2].dependent_count == 0);
    // max is honored.
    let ranked1 = rank_key_files(&files, &graph, 1);
    assert_eq!(ranked1.len(), 1);
    assert_eq!(ranked1[0].path, "c.rs");
}

#[test]
fn markdown_includes_sections_in_order() {
    let empty_deps: SortedMap<String> = SortedMap::new();
    let map = ProjectMap {
        overview: Overview {
            readme_summary: Some("A summary.".to_string()),
            languages: counts(&[("Rust", 10)]),
            manifests: vec![ManifestInfo {
                name: Some("demo".to_string()),
                description: Some("desc".to_string()),
                dependencies: table(&[("serde", "1")]),
                dev_dependencies: empty_deps,
                scripts: table(&[("test", "cargo test")]),
            }],
            entry_points: vec!["src/main.rs".to_string()],
            test_count: 3,
        },
        structure: vec![DirectoryInfo {
            path: "src".to_string(),
            role: "rust".to_string(),
            file_count: 1,
            files: vec!["src/main.rs".to_string()],
        }],
        key_files: vec![KeyFileInfo {
            path: "src/lib.rs".to_string(),
            purpose: Some("Lib".to_string()),
            symbols: vec!["run".to_string()],
            dependencies: vec!["src/main.rs".to_string()],
            dependent_count: 1,
        }],
    };

    let md = format_markdown(&map);
    let idx_overview = md.find("## Overview").unwrap();
    let idx_structure = md.find("## Structure").unwrap();
    let idx_key_files = md.find("## Key Files").unwrap();
    assert!(idx_overview < idx_structure && idx_structure < idx_key_files);
    assert!(md.contains("### Test Files: 3"));
    assert!(md.contains("### src/ (1 files) — *rust*"));
    assert!(md.contains("- **Dependencies**:"));
    assert!(md.contains("tree-sitter-based symbol/import extraction"));
}

#[test]
fn roles_come_in_their_order() {
    let none: Vec<String> = Vec::new();
    let cases = [
        ("a/handlers", "routes"),
        ("controllers", "routes"),
        ("entity", "models"),
        ("schemas", "models"),
        ("templates", "views"),
        ("components", "views"),
        ("util", "services"),
        ("helpers", "services"),
        ("lib", "services"),
        ("settings", "config"),
        ("seeds", "migrations"),
        ("", "root"),
        ("src", "other"),
        ("tests/models", "tests"),
        ("model_views", "models"),
    ];
    for (dir, role) in cases {
        assert_eq!(role_of_lower(dir, &none, false, false, false, false), role);
    }
    let spec = vec!["src/a.spec.ts".to_string()];
    assert_eq!(role_of_lower("src", &spec, false, true, false, false), "tests");
    assert_eq!(role_of_lower("src", &none, true, false, false, false), "python");
    assert_eq!(role_of_lower("src", &none, false, true, false, false), "typescript");
    assert_eq!(role_of_lower("src", &none, false, false, true, false), "rust");
    assert_eq!(role_of_lower("src", &none, false, false, false, true), "other");
    assert_eq!(role_of_lower("src", &none, true, true, false, false), "other");
}

#[test]
fn directories_of_several_languages_are_other() {
    for lang in [Language::Python, Language::TypeScript, Language::Rust] {
        let mixed = [file("src/a", lang), file("src/b.js", Language::JavaScript)];
        let refs: Vec<&FileInfo> = mixed.iter().collect();
        assert_eq!(guess_directory_role("src", &refs), "other");
    }
}

#[test]
fn roles_do_not_depend_on_case() {
    let test = [file("SRC/A_TEST.PY", Language::Python)];
    let refs: Vec<&FileInfo> = test.iter().collect();
    assert_eq!(guess_directory_role("SRC", &refs), "tests");
    assert_eq!(guess_directory_role("Models", &[]), "models");
}

#[test]
fn equal_ranks_go_by_path() {
    let files = vec![
        file("b.rs", Language::Rust),
        file("a.rs", Language::Rust),
        file("c.rs", Language::Rust),
    ];
    let graph = DepGraph::new();
    let ranked = rank_key_files(&files, &graph, 2);
    let paths: Vec<&str> = ranked.iter().map(|k| k.path.as_str()).collect();
    assert_eq!(paths, vec!["a.rs", "b.rs"]);
    assert!(rank_key_files(&files, &graph, 0).is_empty());
    assert_eq!(rank_key_files(&files, &graph, 9).len(), 3);
}

#[test]
fn an_empty_map_in_full() {
    let map = ProjectMap {
        overview: Overview {
            readme_summary: None,
            languages: counts(&[]),
            manifests: Vec::new(),
            entry_points: Vec::new(),
            test_count: 0,
        },
        structure: Vec::new(),
        key_files: Vec::new(),
    };
    let expected = format!(
        "# Project Map\n\n## Overview\n\n### Languages\n\n\n### Test Files: 0\n\n## Structure\n\n## Key Files\n\n*Ranked by how many other files depend on them (Aider-style repo map)*\n\n{FOOTER}"
    );
    assert_eq!(format_markdown(&map), expected);
}

#[test]
fn a_full_map_in_full() {
    let map = ProjectMap {
        overview: Overview {
            readme_summary: Some("S".to_string()),
            languages: counts(&[("Rust", 12450), ("Python", 5)]),
            manifests: vec![ManifestInfo {
                name: Some("n".to_string()),
                description: None,
                dependencies: table(&[("b", "2"), ("a", "1")]),
                dev_dependencies: table(&[("d", "3")]),
                scripts: table(&[]),
            }],
            entry_points: vec!["main.rs".to_string()],
            test_count: 10,
        },
        structure: vec![DirectoryInfo {
            path: "src".to_string(),
            role: "rust".to_string(),
            file_count: 2,
            files: vec!["src/a.rs".to_string(), "src/b.rs".to_string()],
        }],
        key_files: vec![KeyFileInfo {
            path: "src/a.rs".to_string(),
            purpose: Some("P".to_string()),
            symbols: vec!["f".to_string()],
            dependencies: vec!["src/b.rs".to_string()],
            dependent_count: 7,
        }],
    };
    let expected = format!(
        "# Project Map\n\n## Overview\n\n> S\n\n### Languages\n\n- **Python**: 5 lines\n- **Rust**: 12,450 lines\n\n### Manifest\n\n- **Name**: n\n- **Dependencies**:\n  - a: 1\n  - b: 2\n- **Dev Dependencies**:\n  - d: 3\n\n### Entry Points\n\n- `main.rs`\n\n### Test Files: 10\n\n## Structure\n\n### src/ (2 files) — *rust*\n\n- `src/a.rs`\n- `src/b.rs`\n\n## Key Files\n\n*Ranked by how many other files depend on them (Aider-style repo map)*\n\n### `src/a.rs` (7 dependents)\n\n**Purpose**: P\n\n**Public Symbols**:\n- `f`\n\n**Depends On**:\n- `src/b.rs`\n\n{FOOTER}"
    );
    assert_eq!(format_markdown(&map), expected);
    assert!(FOOTER.starts_with("---\n\n*This map is generated heuristically using tree-sitter-based symbol/import extraction\nwith regex fallback."));
    assert!(FOOTER.ends_with("available.\nUse this as a starting point; read specific files for details.*\n"));
}

#[test]
fn a_key_file_without_a_purpose() {
    let map = ProjectMap {
        overview: Overview {
            readme_summary: None,
            languages: counts(&[("TypeScript", 3200)]),
            manifests: Vec::new(),
            entry_points: Vec::new(),
            test_count: 0,
        },
        structure: Vec::new(),
        key_files: vec![KeyFileInfo {
            path: "flask/typing.py".to_string(),
            purpose: None,
            symbols: vec!["RouteCallable".to_string()],
            dependencies: vec!["flask/globals.py".to_string()],
            dependent_count: 18,
        }],
    };
    let md = format_markdown(&map);
    assert!(md.contains("### `flask/typing.py` (18 dependents)\n\n**Public Symbols**:\n- `RouteCallable`\n\n**Depends On**:\n- `flask/globals.py`\n\n"));
    assert!(!md.contains("**Purpose**"));
    assert!(md.contains("- **TypeScript**: 3,200 lines\n"));
}
