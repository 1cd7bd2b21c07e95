//! Packages for platforms.
use codecairn::platform::{exe_name, host_triple, npm_platform, with_version};

#[test]
fn packages_of_targets() {
    let cases = [
        ("x86_64-pc-windows-msvc", "win32-x64"),
        ("aarch64-pc-windows-msvc", "win32-arm64"),
        ("x86_64-apple-darwin", "darwin-x64"),
        ("aarch64-apple-darwin", "darwin-arm64"),
        ("x86_64-unknown-linux-gnu", "linux-x64"),
        ("aarch64-unknown-linux-gnu", "linux-arm64"),
        ("x86_64-unknown-linux-musl", "linux-x64-musl"),
    ];
    for (triple, package) in cases {
        assert_eq!(npm_platform(triple), Some(package));
    }
    assert_eq!(npm_platform("riscv64gc-unknown-linux-gnu"), None);
    assert_eq!(npm_platform("unknown"), None);
}

#[test]
fn names_of_the_program() {
    assert_eq!(exe_name("x86_64-pc-windows-msvc"), "codecairn.exe");
    assert_eq!(exe_name("x86_64-apple-darwin"), "codecairn");
}

#[test]
fn targets_of_hosts() {
    assert_eq!(host_triple("windows", "x86_64"), "x86_64-pc-windows-msvc");
    assert_eq!(host_triple("windows", "aarch64"), "aarch64-pc-windows-msvc");
    assert_eq!(host_triple("windows", "x86"), "unknown");
    assert_eq!(host_triple("macos", "aarch64"), "aarch64-apple-darwin");
    assert_eq!(host_triple("macos", "x86_64"), "x86_64-apple-darwin");
    assert_eq!(host_triple("linux", "aarch64"), "aarch64-unknown-linux-gnu");
    assert_eq!(host_triple("linux", "arm"), "x86_64-unknown-linux-gnu");
    assert_eq!(host_triple("freebsd", "x86_64"), "unknown");
    // Each target that is told has a package.
    for os in ["windows", "macos", "linux", "freebsd"] {
        for arch in ["x86_64", "aarch64", "x86"] {
            let triple = host_triple(os, arch);
            assert!(triple == "unknown" || npm_platform(&triple).is_some());
        }
    }
}

#[test]
fn versions_of_packages_are_set() {
    let set = with_version(r#"{"version":"0.1.0","name":"p","cpu":["x64"],"n":1.5}"#, "0.2.0");
    let value: serde_json::Value = serde_json::from_str(&set.unwrap()).unwrap();
    assert_eq!(value["version"], "0.2.0");
    assert_eq!(value["name"], "p");
    assert_eq!(value["cpu"][0], "x64");
    assert_eq!(value["n"], 1.5);
    assert_eq!(value.as_object().map(|o| o.len()), Some(4));
    // The text is indented, and a missing version is added.
    assert_eq!(
        with_version("{}", "1.0.0").as_deref(),
        Some("{\n  \"version\": \"1.0.0\"\n}")
    );
    assert_eq!(
        with_version("null", "a\"b").as_deref(),
        Some("{\n  \"version\": \"a\\\"b\"\n}")
    );
}

#[test]
fn versions_are_set_as_serde_json_does() {
    let sources = ["{}", "null", r#"{"z":{"version":"x"},"a":[1,2],"version":null}"#];
    for source in sources {
        let mut value: serde_json::Value = serde_json::from_str(source).unwrap();
        value["version"] = serde_json::Value::String("9".to_string());
        let expected = serde_json::to_string_pretty(&value).unwrap();
        assert_eq!(with_version(source, "9"), Some(expected));
    }
}

#[test]
fn only_objects_have_versions() {
    for source in ["", "{", "[1]", "1", "true", "\"x\"", "{} {}"] {
        assert_eq!(with_version(source, "1.0.0"), None);
    }
}
