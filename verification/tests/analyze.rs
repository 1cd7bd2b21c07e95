//! Files, manifests, the import registry and the structure of a project.
use codecairn::analyze::{
    classify, count_languages, count_tests, describe, entry_point_names, extract_readme_summary,
    find_entry_points, has_main_guard, is_excluded, lines_can_be_counted, readme_names, should_skip,
    summarize,
};
use codecairn::collections::{DepGraph, PathSet, SortedMap};
use codecairn::manifest::{
    cargo_manifest, collect_manifests, npm_manifest, python_manifest, Document, Entry, Section,
};
use codecairn::model::{FileInfo, Language};
use codecairn::project::build_map;
use codecairn::registry::{build_import_registry, file_stem, is_package_dir, python_module_keys};
use codecairn::structure::{analyze_structure, parent_directory};

fn make_file(path: &str, lang: Language, symbols: &[&str], import_s: &[&str]) -> FileInfo {
    FileInfo {
        path: path.to_string(),
        language: lang,
        lines: 10,
        symbols: symbols.iter().map(|s| s.to_string()).collect(),
        imports: import_s.iter().map(|s| s.to_string()).collect(),
        purpose: None,
    }
}

/// The files of the map among some files with their contents.
fn collect_files(fixture: &[(&str, &str)], include_hidden: bool) -> Vec<FileInfo> {
    let mut files = Vec::new();
    for (path, content) in fixture {
        let extension = path.rsplit('.').next().unwrap_or("");
        if let Some((path, language)) = classify(path, extension, include_hidden) {
            files.push(describe(path, language, content));
        }
    }
    files
}

fn content_of(fixture: &[(&str, &str)], path: &str) -> Option<String> {
    fixture
        .iter()
        .find(|(p, _)| *p == path)
        .map(|(_, c)| c.to_string())
}

fn entry_points(fixture: &[(&str, &str)], files: &Vec<FileInfo>) -> Vec<String> {
    let present = entry_point_names()
        .iter()
        .map(|n| content_of(fixture, n).is_some())
        .collect();
    let contents = files.iter().map(|f| content_of(fixture, &f.path)).collect();
    find_entry_points(&present, files, &contents)
}

fn strings(items: &[&str]) -> Vec<String> {
    items.iter().map(|s| s.to_string()).collect()
}

fn deps(graph: &DepGraph, path: &str) -> Vec<String> {
    graph.get(path).cloned().unwrap_or_default()
}

#[test]
fn should_skip_ignores_build_dirs_and_hidden() {
    assert!(should_skip("node_modules/pkg/index.js"));
    assert!(should_skip("target/release/codecairn"));
    assert!(should_skip("src/.secret.py"));
    assert!(should_skip(".venv/lib/python3/site-packages/x.py"));
    assert!(should_skip("Cargo.lock"));
    assert!(should_skip("package-lock.json"));
    assert!(!should_skip("src/main.rs"));
    assert!(!should_skip("tests/test_app.py"));
}

#[test]
fn python_module_keys_covers_nested_packages() {
    let files = [
        "app/__init__.py",
        "app/main.py",
        "app/views/__init__.py",
        "app/views/home.py",
    ];
    let mut set = PathSet::new();
    for f in files {
        set.insert(f);
    }

    assert_eq!(python_module_keys("app/main.py", &set), vec!["app.main"]);
    // Newest package __init__ registers the package name plus any enclosing
    // valid chain, from every valid root.
    let views = python_module_keys("app/views/__init__.py", &set);
    assert!(views.contains(&"app.views".to_string()));
    assert!(views.contains(&"views".to_string()));
    assert!(!views.contains(&"home".to_string()));
}

#[test]
fn manifests_parse_python_and_cargo() {
    let manifests = collect_manifests(
        Some(
            r#"{"name":"demo-pkg","description":"demo pkg","dependencies":{"express":"^4"},"devDependencies":{"jest":"^29"},"scripts":{"test":"jest"}}"#,
        ),
        Some("[package]\nname = \"demo\"\ndescription = \"demo cargo\"\n[dependencies]\nserde = \"1\"\n"),
        None,
    );
    assert_eq!(manifests.len(), 2);

    let pkg = manifests.iter().find(|m| m.scripts.contains_key("test"));
    if let Some(m) = pkg {
        assert_eq!(
            m.dependencies.get("express").map(String::as_str),
            Some("^4")
        );
        assert_eq!(
            m.dev_dependencies.get("jest").map(String::as_str),
            Some("^29")
        );
    } else {
        panic!("package.json manifest not found");
    }

    let cargo = manifests.iter().find(|m| m.name.as_deref() == Some("demo"));
    if let Some(m) = cargo {
        assert_eq!(m.dependencies.get("serde").map(String::as_str), Some("1"));
        assert!(m.scripts.is_empty());
    } else {
        panic!("Cargo.toml manifest not found");
    }
}

#[test]
fn entry_points_and_counts_are_consistent() {
    let fixture = [
        ("src/main.py", "def main():\n    pass\n"),
        ("src/cli.py", "if __name__ == \"__main__\":\n    main()\n"),
        ("tests/test_app.py", "def test_app():\n    pass\n"),
        ("app/spec/helper.spec.ts", "export const x = 1;\n"),
    ];
    let files = collect_files(&fixture, false);
    let entry_points = entry_points(&fixture, &files);
    assert!(entry_points.iter().any(|e| e == "src/cli.py"));
    assert_eq!(count_tests(&files), 2);
    let counts = count_languages(&files);
    assert!(counts.get("Python").copied().unwrap_or(0) >= 3);
}

#[test]
fn readme_summary_skips_headings() {
    let contents = vec![Some(
        "# My API\n\nA tiny REST API.\n\nSecond paragraph ignored.\n".to_string(),
    )];
    assert_eq!(
        extract_readme_summary(&contents).as_deref(),
        Some("A tiny REST API.")
    );
}

#[test]
fn golden_fixture_generates_expected_graph() {
    let package = r#"{"name":"demo","description":"demo","dependencies":{"express":"^4"},"scripts":{"test":"jest"}}"#;
    let fixture = [
        ("README.md", "# demo\n\nA small demo project used for tests.\n"),
        ("package.json", package),
        (
            "src/main.py",
            "\"\"\"Entry point.\"\"\"\nfrom . import helpers\ndef main():\n    pass\n",
        ),
        ("src/__init__.py", "\"\"\"Package root.\"\"\"\n"),
        (
            "src/helpers.py",
            "\"\"\"Helper utilities.\"\"\"\nclass Helper:\n    pass\n",
        ),
        ("tests/test_main.py", "def test_main():\n    pass\n"),
        (
            "src/main.ts",
            "// TS entry\nimport { Helper } from './helpers';\nexport function tsMain() {}\n",
        ),
    ];

    let files = collect_files(&fixture, false);
    let manifests = collect_manifests(Some(package), None, None);
    let test_count = count_tests(&files);
    let (dirs, dep_graph) = analyze_structure(&files);

    assert!(files.iter().any(|f| f.path.contains("main.py")));
    assert!(!files.iter().any(|f| f.path.contains("node_modules")));
    assert_eq!(manifests.len(), 1);
    assert_eq!(manifests[0].name.as_deref(), Some("demo"));
    assert!(test_count >= 1);

    // helpers.py should be imported by main.py, so it appears in the graph.
    let helper_deps = deps(&dep_graph, "src/helpers.py");
    let main_deps = deps(&dep_graph, "src/main.py");
    assert!(main_deps.iter().any(|d| d.contains("helpers")));
    assert!(helper_deps.is_empty());

    // The TS file imports ./helpers, which would be src/helpers.ts. There is no such file, so
    // the import stays out of the graph.
    let ts_deps = deps(&dep_graph, "src/main.ts");
    assert!(!ts_deps.iter().any(|d| d.contains("helpers")));

    // Directory roles are guessed from paths.
    assert!(dirs.iter().any(|d| d.path == "tests" && d.role == "tests"));
    assert!(
        dirs.iter().any(|d| d.path == "src" && d.role == "root")
            || dirs.iter().any(|d| d.path == "src")
    );
}

#[test]
fn dependency_graph_is_relaxed_and_deduped() {
    let files = vec![
        make_file(
            "src/a.rs",
            Language::Rust,
            &["a"],
            &["crate::b", "crate::b"],
        ),
        make_file("src/b.rs", Language::Rust, &["b"], &[]),
        make_file("src/lib.rs", Language::Rust, &["lib"], &["self::a"]),
        make_file(
            "src/self_ref.rs",
            Language::Rust,
            &["s"],
            &["crate::self_ref"],
        ),
    ];
    let (_, dep_graph) = analyze_structure(&files);
    // Duplicates collapsed; self import excluded.
    assert_eq!(
        dep_graph.get("src/a.rs").cloned().unwrap_or_default(),
        vec!["src/b.rs".to_string()]
    );
    assert!(dep_graph
        .get("src/self_ref.rs")
        .unwrap_or(&Vec::new())
        .is_empty());
}

#[test]
fn hidden_files_come_in_when_asked_for() {
    assert!(is_excluded("a/.hidden/b.py", false));
    assert!(!is_excluded("a/.hidden/b.py", true));
    // Build and cache directories stay out.
    assert!(is_excluded("a/.venv/b.py", true));
    assert!(is_excluded("node_modules/x.js", true));
    assert!(!is_excluded("./a/../b.py", false));
    assert!(should_skip("a\\.git\\config"));
    let fixture = [(".hidden/b.py", "x = 1\n"), ("a.py", "y = 2\n")];
    assert_eq!(collect_files(&fixture, false).len(), 1);
    assert_eq!(collect_files(&fixture, true).len(), 2);
}

#[test]
fn what_is_below_a_skipped_directory_is_skipped() {
    for dir in ["target", "a/node_modules", ".git", "x/.y"] {
        assert!(should_skip(dir));
        assert!(should_skip(&format!("{dir}/b/c.rs")));
    }
}

#[test]
fn files_are_classified_by_path_and_extension() {
    assert_eq!(
        classify("src\\a.PY", "PY", false),
        Some(("src/a.PY".to_string(), Language::Python))
    );
    assert_eq!(classify("src/a.txt", "txt", false), None);
    assert_eq!(classify("dist/a.py", "py", false), None);
}

#[test]
fn languages_by_extension_whatever_the_case() {
    let cases = [
        ("py", Language::Python),
        ("ts", Language::TypeScript),
        ("tsx", Language::TypeScript),
        ("rs", Language::Rust),
        ("js", Language::JavaScript),
        ("jsx", Language::JavaScript),
        ("mjs", Language::JavaScript),
        ("cjs", Language::JavaScript),
        ("md", Language::Other),
        ("", Language::Other),
    ];
    for (ext, lang) in cases {
        assert_eq!(Language::from_extension(ext), lang);
        assert_eq!(Language::from_extension(&ext.to_uppercase()), lang);
    }
    assert_eq!(Language::TypeScript.name(), "TypeScript");
    assert_eq!(Language::Other.name(), "Other");
}

#[test]
fn files_are_described() {
    let f = describe("a.py".to_string(), Language::Python, "# top\r\nimport x\nlast");
    assert_eq!(f.path, "a.py");
    assert_eq!(f.lines, 3);
    assert_eq!(f.imports, strings(&["x"]));
    assert_eq!(f.purpose.as_deref(), Some("top"));
    assert_eq!(describe("b.rs".to_string(), Language::Rust, "").lines, 0);
}

#[test]
fn entry_points_by_name_and_by_guard() {
    let fixture = [
        ("app.py", ""),
        ("server.js", ""),
        ("x.py", "if __name__ == '__main__': pass"),
        ("y.js", "if __name__ == '__main__'"),
    ];
    let files = collect_files(&fixture, false);
    assert_eq!(
        entry_points(&fixture, &files),
        strings(&["app.py", "server.js", "x.py"])
    );
    assert!(!has_main_guard("if __name__ == main"));
}

#[test]
fn the_first_readme_with_a_paragraph_counts() {
    assert_eq!(
        readme_names(),
        vec!["README.md", "README.txt", "README.rst", "README"]
    );
    let contents = vec![
        None,
        Some("# only a heading\n".to_string()),
        Some("  one \n two\n\nthree".to_string()),
        Some("late".to_string()),
    ];
    assert_eq!(extract_readme_summary(&contents).as_deref(), Some("one two"));
    assert_eq!(extract_readme_summary(&vec![None, None]), None);
    assert_eq!(summarize("a\n# b\nc"), "a");
}

#[test]
fn lines_are_counted_for_each_language() {
    let files = vec![
        make_file("a.py", Language::Python, &[], &[]),
        make_file("b.rs", Language::Rust, &[], &[]),
        make_file("c.py", Language::Python, &[], &[]),
    ];
    let counts = count_languages(&files);
    assert_eq!(counts.len(), 2);
    assert_eq!(counts.key_at(0), "Python");
    assert_eq!(*counts.value_at(0), 20);
    assert_eq!(counts.get("Rust"), Some(&10));
    assert_eq!(counts.get("TypeScript"), None);
}

#[test]
fn lines_that_do_not_fit_are_told() {
    let mut files = vec![
        make_file("a.py", Language::Python, &[], &[]),
        make_file("b.rs", Language::Rust, &[], &[]),
    ];
    assert!(lines_can_be_counted(&files));
    files[0].lines = usize::MAX;
    assert!(lines_can_be_counted(&files));
    files[1].language = Language::Python;
    assert!(!lines_can_be_counted(&files));
}

#[test]
fn stems_of_files() {
    assert_eq!(file_stem("a/b.py").as_deref(), Some("b"));
    assert_eq!(file_stem("b.tsx").as_deref(), Some("b"));
    assert_eq!(file_stem("b.d.ts").as_deref(), Some("b.d"));
    assert_eq!(file_stem("b.cjs").as_deref(), Some("b"));
    assert_eq!(file_stem("Makefile").as_deref(), Some("Makefile"));
    assert_eq!(file_stem("a/").as_deref(), Some(""));
}

#[test]
fn packages_need_an_init_file() {
    let mut set = PathSet::new();
    set.insert("a/__init__.py");
    assert!(is_package_dir("a", &set));
    assert!(!is_package_dir("b", &set));
    // A chain that is broken further up still has its local name.
    set.insert("x/y/__init__.py");
    assert_eq!(python_module_keys("x/y/m.py", &set), strings(&["y.m"]));
    assert!(python_module_keys("m.py", &set).is_empty());
    assert!(python_module_keys("a/m.txt", &set).is_empty());
}

#[test]
fn the_registry_does_not_depend_on_the_order_of_files() {
    let mut files = vec![
        make_file("b/util.py", Language::Python, &[], &[]),
        make_file("a/util.py", Language::Python, &[], &[]),
        make_file("src/util.rs", Language::Rust, &[], &[]),
        make_file("src/lib.rs", Language::Rust, &[], &[]),
    ];
    let one = build_import_registry(&files);
    files.reverse();
    let two = build_import_registry(&files);
    for key in ["util", "b/util.py", "crate", "crate::util", "lib", "none"] {
        assert_eq!(one.get(key), two.get(key));
    }
    assert_eq!(one.get("util").as_deref(), Some("a/util.py"));
    assert_eq!(one.get("crate::util").as_deref(), Some("src/util.rs"));
    assert_eq!(one.get("crate").as_deref(), Some("src/lib.rs"));
}

#[test]
fn directories_of_paths_are_those_of_std() {
    let paths = [
        "a/b.rs", "b.rs", "a//b.rs", "a/./b.rs", "./b.rs", "/b.rs", "a/b/", "a/b/.", "..", "a/..",
        ".", "/", "", "//", "/.", "./.", "a/b//c", ".a/b", "./a/b", "a/.", "/a/b", "...",
    ];
    for p in paths {
        let expected = std::path::Path::new(p)
            .parent()
            .map(|d| d.to_string_lossy().to_string())
            .unwrap_or_else(|| ".".to_string());
        assert_eq!(parent_directory(p), expected);
    }
}

#[test]
fn directories_are_listed_with_their_files() {
    let files = vec![
        make_file("src/z.rs", Language::Rust, &[], &[]),
        make_file("main.rs", Language::Rust, &[], &[]),
        make_file("src/a.rs", Language::Rust, &[], &[]),
        make_file("api/routes/x.ts", Language::TypeScript, &[], &[]),
    ];
    let (dirs, graph) = analyze_structure(&files);
    let shown: Vec<(&str, &str, usize)> = dirs
        .iter()
        .map(|d| (d.path.as_str(), d.role.as_str(), d.file_count))
        .collect();
    assert_eq!(
        shown,
        vec![("", "root", 1), ("api/routes", "routes", 1), ("src", "rust", 2)]
    );
    assert_eq!(dirs[2].files, strings(&["src/a.rs", "src/z.rs"]));
    assert_eq!(graph.len(), 4);
    // Each file is listed once.
    let total: usize = dirs.iter().map(|d| d.file_count).sum();
    assert_eq!(total, files.len());
}

#[test]
fn the_later_of_two_files_with_one_path_counts() {
    let files = vec![
        make_file("a.py", Language::Python, &[], &["b"]),
        make_file("b.py", Language::Python, &[], &[]),
        make_file("a.py", Language::Python, &[], &[]),
    ];
    let (_, graph) = analyze_structure(&files);
    assert_eq!(graph.len(), 2);
    assert!(deps(&graph, "a.py").is_empty());
}

#[test]
fn manifests_that_do_not_parse_are_passed_over() {
    assert!(collect_manifests(Some("{"), Some("= ="), Some("[")).is_empty());
    assert!(collect_manifests(None, None, None).is_empty());
    // A value that is no object is a manifest without anything in it.
    let plain = collect_manifests(Some("[1]"), None, None);
    assert_eq!(plain.len(), 1);
    assert_eq!(plain[0].name, None);
    assert!(plain[0].dependencies.is_empty());
}

#[test]
fn values_that_are_no_texts() {
    let npm = collect_manifests(
        Some(r#"{"name":1,"dependencies":{"b":"2","a":{"x":1}},"scripts":[]}"#),
        None,
        None,
    );
    assert_eq!(npm[0].name, None);
    assert_eq!(npm[0].dependencies.len(), 2);
    assert_eq!(npm[0].dependencies.key_at(0), "a");
    assert_eq!(npm[0].dependencies.value_at(0), "");
    assert_eq!(npm[0].dependencies.value_at(1), "2");
    assert!(npm[0].scripts.is_empty());
    let cargo = collect_manifests(
        None,
        Some("[dependencies]\na = { version = \"1\" }\nb = \"2\"\n[dev-dependencies]\nc = \"3\"\n"),
        None,
    );
    assert_eq!(cargo[0].name, None);
    assert_eq!(cargo[0].dependencies.len(), 1);
    assert_eq!(cargo[0].dependencies.get("b").map(String::as_str), Some("2"));
    assert_eq!(cargo[0].dev_dependencies.get("c").map(String::as_str), Some("3"));
}

#[test]
fn dependencies_of_pyproject_are_numbered() {
    let text = "[project]\nname = \"p\"\ndescription = \"d\"\ndependencies = [\"x>=1\", \"y\"]\n";
    let m = &collect_manifests(None, None, Some(text))[0];
    assert_eq!(m.name.as_deref(), Some("p"));
    assert_eq!(m.description.as_deref(), Some("d"));
    assert_eq!(m.dependencies.get("dep0").map(String::as_str), Some("x>=1"));
    assert_eq!(m.dependencies.get("dep1").map(String::as_str), Some("y"));
    assert_eq!(m.dependencies.len(), 2);
}

fn entry(name: &str, text: Option<&str>, list: Option<Vec<Option<String>>>) -> Entry {
    Entry { name: name.to_string(), text: text.map(|t| t.to_string()), list }
}

fn section(name: &str, text: Option<&str>, entries: Option<Vec<Entry>>) -> Section {
    Section { name: name.to_string(), text: text.map(|t| t.to_string()), entries }
}

#[test]
fn documents_are_read_as_manifests() {
    let doc = Document {
        sections: Some(vec![
            section("name", Some("n"), None),
            section("scripts", None, Some(vec![entry("t", Some("run"), None), entry("u", None, None)])),
        ]),
    };
    let m = npm_manifest(&doc);
    assert_eq!(m.name.as_deref(), Some("n"));
    assert_eq!(m.scripts.get("t").map(String::as_str), Some("run"));
    assert_eq!(m.scripts.get("u").map(String::as_str), Some(""));
    assert!(m.dependencies.is_empty());

    let doc = Document {
        sections: Some(vec![
            section("package", None, Some(vec![entry("name", Some("c"), None)])),
            section("dependencies", None, Some(vec![entry("a", Some("1"), None), entry("b", None, None)])),
        ]),
    };
    let m = cargo_manifest(&doc);
    assert_eq!(m.name.as_deref(), Some("c"));
    assert_eq!(m.dependencies.len(), 1);

    let list = vec![Some("x".to_string()), None, Some("y".to_string())];
    let doc = Document {
        sections: Some(vec![section(
            "project",
            None,
            Some(vec![entry("dependencies", None, Some(list))]),
        )]),
    };
    let m = python_manifest(&doc);
    assert_eq!(m.dependencies.get("dep1").map(String::as_str), Some("y"));
    assert_eq!(m.dependencies.len(), 2);
}

#[test]
fn maps_list_their_keys_in_order() {
    let mut map: SortedMap<String> = SortedMap::new();
    for k in ["b", "a", "c", "a"] {
        map.insert(k.to_string(), format!("{k}{}", map.len()));
    }
    assert_eq!(map.len(), 3);
    let keys: Vec<&str> = (0..3).map(|i| map.key_at(i).as_str()).collect();
    assert_eq!(keys, vec!["a", "b", "c"]);
    assert_eq!(map.get("a").map(String::as_str), Some("a3"));
    assert!(map.contains_key("c"));
    assert!(!map.contains_key("d"));
}

#[test]
fn maps_of_projects_hold_everything() {
    let files = vec![
        make_file("src/a.rs", Language::Rust, &["a"], &["crate::b"]),
        make_file("src/b.rs", Language::Rust, &["b"], &[]),
        make_file("tests/t.rs", Language::Rust, &[], &["b"]),
    ];
    let map = build_map(
        &files,
        collect_manifests(Some("{}"), None, None),
        strings(&["main.rs"]),
        Some("Summary".to_string()),
        2,
    );
    assert_eq!(map.overview.readme_summary.as_deref(), Some("Summary"));
    assert_eq!(map.overview.languages.get("Rust"), Some(&30));
    assert_eq!(map.overview.manifests.len(), 1);
    assert_eq!(map.overview.entry_points, strings(&["main.rs"]));
    assert_eq!(map.overview.test_count, 1);
    assert_eq!(map.structure.len(), 2);
    assert_eq!(map.key_files.len(), 2);
    assert_eq!(map.key_files[0].path, "src/b.rs");
    assert_eq!(map.key_files[0].dependent_count, 2);
    assert_eq!(map.key_files[1].path, "src/a.rs");
    assert_eq!(map.key_files[1].dependencies, strings(&["src/b.rs"]));
}
