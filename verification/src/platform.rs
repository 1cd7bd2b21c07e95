//! Packages for platforms: which package holds the program for a target, and under what name.
use vstd::prelude::*;

use crate::text;

verus! {

/// The package of a target triple.
pub open spec fn package_of(triple: Seq<char>) -> Option<Seq<char>> {
    if triple == "x86_64-pc-windows-msvc"@ {
        Some("win32-x64"@)
    } else if triple == "aarch64-pc-windows-msvc"@ {
        Some("win32-arm64"@)
    } else if triple == "x86_64-apple-darwin"@ {
        Some("darwin-x64"@)
    } else if triple == "aarch64-apple-darwin"@ {
        Some("darwin-arm64"@)
    } else if triple == "x86_64-unknown-linux-gnu"@ {
        Some("linux-x64"@)
    } else if triple == "aarch64-unknown-linux-gnu"@ {
        Some("linux-arm64"@)
    } else if triple == "x86_64-unknown-linux-musl"@ {
        Some("linux-x64-musl"@)
    } else {
        None
    }
}

/// The package of a target triple; none for a target without one.
pub fn npm_platform(triple: &str) -> (r: Option<&'static str>)
    ensures
        text::opt_str(r) == package_of(triple@),
{
    if text::str_same(triple, "x86_64-pc-windows-msvc") {
        Some("win32-x64")
    } else if text::str_same(triple, "aarch64-pc-windows-msvc") {
        Some("win32-arm64")
    } else if text::str_same(triple, "x86_64-apple-darwin") {
        Some("darwin-x64")
    } else if text::str_same(triple, "aarch64-apple-darwin") {
        Some("darwin-arm64")
    } else if text::str_same(triple, "x86_64-unknown-linux-gnu") {
        Some("linux-x64")
    } else if text::str_same(triple, "aarch64-unknown-linux-gnu") {
        Some("linux-arm64")
    } else if text::str_same(triple, "x86_64-unknown-linux-musl") {
        Some("linux-x64-musl")
    } else {
        None
    }
}

/// The file name of the program for a target triple.
pub open spec fn program_name(triple: Seq<char>) -> Seq<char> {
    if text::contains(triple, "windows"@) {
        "codecairn.exe"@
    } else {
        "codecairn"@
    }
}

/// The file name of the program for a target triple.
pub fn exe_name(triple: &str) -> (r: &'static str)
    ensures
        r@ == program_name(triple@),
{
    let chars = text::chars_of(triple);
    if text::contains_str(chars.as_slice(), "windows") {
        "codecairn.exe"
    } else {
        "codecairn"
    }
}

/// The target triple of a host by its operating system and architecture.
pub open spec fn triple_of(os: Seq<char>, arch: Seq<char>) -> Seq<char> {
    if os == "windows"@ && arch == "x86_64"@ {
        "x86_64-pc-windows-msvc"@
    } else if os == "windows"@ && arch == "aarch64"@ {
        "aarch64-pc-windows-msvc"@
    } else if os == "macos"@ && arch == "aarch64"@ {
        "aarch64-apple-darwin"@
    } else if os == "macos"@ {
        "x86_64-apple-darwin"@
    } else if os == "linux"@ && arch == "aarch64"@ {
        "aarch64-unknown-linux-gnu"@
    } else if os == "linux"@ {
        "x86_64-unknown-linux-gnu"@
    } else {
        "unknown"@
    }
}

/// The target triple of a host, as well as it can be told from its operating system and
/// architecture.
pub fn host_triple(os: &str, arch: &str) -> (r: String)
    ensures
        r@ == triple_of(os@, arch@),
{
    let windows = text::str_same(os, "windows");
    let macos = text::str_same(os, "macos");
    let linux = text::str_same(os, "linux");
    let arm = text::str_same(arch, "aarch64");
    let triple = if windows && text::str_same(arch, "x86_64") {
        "x86_64-pc-windows-msvc"
    } else if windows && arm {
        "aarch64-pc-windows-msvc"
    } else if macos && arm {
        "aarch64-apple-darwin"
    } else if macos {
        "x86_64-apple-darwin"
    } else if linux && arm {
        "aarch64-unknown-linux-gnu"
    } else if linux {
        "x86_64-unknown-linux-gnu"
    } else {
        "unknown"
    };
    triple.to_owned()
}

/// Each target that a host is told to have has a package.
pub proof fn hosts_have_packages(os: Seq<char>, arch: Seq<char>)
    ensures
        triple_of(os, arch) == "unknown"@ || package_of(triple_of(os, arch)) is Some,
{
}

// ---------------------------------------------------------------------------
// The version of a package
// ---------------------------------------------------------------------------

/// The text of a JSON value with one member set to a text: `serde_json::to_string_pretty` of what
/// `serde_json::from_str` makes of the text, after the member is set. Nothing where the text does
/// not parse, or where the value is neither an object nor `null`, which counts as an empty object.
pub uninterp spec fn json_with_text(
    source: Seq<char>,
    member: Seq<char>,
    value: Seq<char>,
) -> Option<Seq<char>>;

/// Calls `serde_json::from_str`, sets a member of the object with `serde_json::Map::insert` and
/// calls `serde_json::to_string_pretty`. The text depends on the three arguments alone.
#[verifier::external_body]
fn set_json_text(source: &str, member: &str, value: &str) -> (r: Option<String>)
    ensures
        text::opt_text(r) == json_with_text(source@, member@, value@),
{
    let mut map = match serde_json::from_str(source).ok()? {
        serde_json::Value::Object(map) => map,
        serde_json::Value::Null => serde_json::Map::new(),
        _ => return None,
    };
    map.insert(member.to_string(), serde_json::Value::String(value.to_string()));
    serde_json::to_string_pretty(&serde_json::Value::Object(map)).ok()
}

/// The text of a `package.json` with its version set; nothing where it is no JSON object.
pub fn with_version(package_json: &str, version: &str) -> (r: Option<String>)
    ensures
        text::opt_text(r) == json_with_text(package_json@, "version"@, version@),
{
    set_json_text(package_json, "version", version)
}

} // verus!
