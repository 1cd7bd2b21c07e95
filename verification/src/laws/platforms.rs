//! Which package a target has, and which target a host.
use vstd::prelude::*;

use crate::platform;
use crate::text;

verus! {

/// A target has a package where it is one of these, and each its own; other targets have none.
pub proof fn targets_have_packages(triple: Seq<char>)
    ensures
        triple == "x86_64-pc-windows-msvc"@ ==> platform::package_of(triple) == Some(
            "win32-x64"@,
        ),
        triple == "aarch64-pc-windows-msvc"@ ==> platform::package_of(triple) == Some(
            "win32-arm64"@,
        ),
        triple == "x86_64-apple-darwin"@ ==> platform::package_of(triple) == Some("darwin-x64"@),
        triple == "aarch64-apple-darwin"@ ==> platform::package_of(triple) == Some(
            "darwin-arm64"@,
        ),
        triple == "x86_64-unknown-linux-gnu"@ ==> platform::package_of(triple) == Some(
            "linux-x64"@,
        ),
        triple == "aarch64-unknown-linux-gnu"@ ==> platform::package_of(triple) == Some(
            "linux-arm64"@,
        ),
        triple == "x86_64-unknown-linux-musl"@ ==> platform::package_of(triple) == Some(
            "linux-x64-musl"@,
        ),
        platform::package_of(triple) is Some ==> seq![
            "x86_64-pc-windows-msvc"@,
            "aarch64-pc-windows-msvc"@,
            "x86_64-apple-darwin"@,
            "aarch64-apple-darwin"@,
            "x86_64-unknown-linux-gnu"@,
            "aarch64-unknown-linux-gnu"@,
            "x86_64-unknown-linux-musl"@,
        ].contains(triple),
{
    reveal_strlit("x86_64-pc-windows-msvc");
    reveal_strlit("aarch64-pc-windows-msvc");
    reveal_strlit("x86_64-apple-darwin");
    reveal_strlit("aarch64-apple-darwin");
    reveal_strlit("x86_64-unknown-linux-gnu");
    reveal_strlit("aarch64-unknown-linux-gnu");
    reveal_strlit("x86_64-unknown-linux-musl");
    assert("x86_64-pc-windows-msvc"@.len() == 22 && "x86_64-pc-windows-msvc"@[0] == 'x');
    assert("aarch64-pc-windows-msvc"@.len() == 23 && "aarch64-pc-windows-msvc"@[0] == 'a');
    assert("x86_64-apple-darwin"@.len() == 19);
    assert("aarch64-apple-darwin"@.len() == 20);
    assert("x86_64-unknown-linux-gnu"@.len() == 24);
    assert("aarch64-unknown-linux-gnu"@.len() == 25 && "aarch64-unknown-linux-gnu"@[0] == 'a');
    assert("x86_64-unknown-linux-musl"@.len() == 25 && "x86_64-unknown-linux-musl"@[0] == 'x');
    let all = seq![
        "x86_64-pc-windows-msvc"@,
        "aarch64-pc-windows-msvc"@,
        "x86_64-apple-darwin"@,
        "aarch64-apple-darwin"@,
        "x86_64-unknown-linux-gnu"@,
        "aarch64-unknown-linux-gnu"@,
        "x86_64-unknown-linux-musl"@,
    ];
    assert(all[0] == "x86_64-pc-windows-msvc"@ && all[1] == "aarch64-pc-windows-msvc"@);
    assert(all[2] == "x86_64-apple-darwin"@ && all[3] == "aarch64-apple-darwin"@);
    assert(all[4] == "x86_64-unknown-linux-gnu"@ && all[5] == "aarch64-unknown-linux-gnu"@);
    assert(all[6] == "x86_64-unknown-linux-musl"@);
}

/// The program has a suffix on the targets whose name holds `windows`, and on no others.
pub proof fn programs_have_a_suffix_on_windows(triple: Seq<char>)
    ensures
        text::contains(triple, "windows"@) ==> platform::program_name(triple) == "codecairn"@
            + ".exe"@,
        !text::contains(triple, "windows"@) ==> platform::program_name(triple) == "codecairn"@,
{
    reveal_strlit("codecairn");
    reveal_strlit(".exe");
    reveal_strlit("codecairn.exe");
    assert("codecairn.exe"@ =~= "codecairn"@ + ".exe"@);
}

/// A host has the target of its system and processor. Of Windows two processors are known; on
/// macOS and Linux any other than `aarch64` counts as `x86_64`; other systems are unknown.
pub proof fn hosts_have_targets(os: Seq<char>, arch: Seq<char>)
    ensures
        os == "windows"@ && arch == "x86_64"@ ==> platform::triple_of(os, arch)
            == "x86_64-pc-windows-msvc"@,
        os == "windows"@ && arch == "aarch64"@ ==> platform::triple_of(os, arch)
            == "aarch64-pc-windows-msvc"@,
        os == "windows"@ && arch != "x86_64"@ && arch != "aarch64"@ ==> platform::triple_of(
            os,
            arch,
        ) == "unknown"@,
        os == "macos"@ && arch == "aarch64"@ ==> platform::triple_of(os, arch)
            == "aarch64-apple-darwin"@,
        os == "macos"@ && arch != "aarch64"@ ==> platform::triple_of(os, arch)
            == "x86_64-apple-darwin"@,
        os == "linux"@ && arch == "aarch64"@ ==> platform::triple_of(os, arch)
            == "aarch64-unknown-linux-gnu"@,
        os == "linux"@ && arch != "aarch64"@ ==> platform::triple_of(os, arch)
            == "x86_64-unknown-linux-gnu"@,
        os != "windows"@ && os != "macos"@ && os != "linux"@ ==> platform::triple_of(os, arch)
            == "unknown"@,
{
    reveal_strlit("windows");
    reveal_strlit("macos");
    reveal_strlit("linux");
    reveal_strlit("x86_64");
    reveal_strlit("aarch64");
    assert("windows"@[0] == 'w' && "macos"@[0] == 'm' && "linux"@[0] == 'l');
    assert("x86_64"@[0] == 'x' && "aarch64"@[0] == 'a');
}

/// Every target that a host has, but the unknown one, has a package.
pub proof fn known_hosts_have_packages(os: Seq<char>, arch: Seq<char>)
    ensures
        platform::triple_of(os, arch) != "unknown"@ ==> platform::package_of(
            platform::triple_of(os, arch),
        ) is Some,
{
    targets_have_packages(platform::triple_of(os, arch));
}

} // verus!
