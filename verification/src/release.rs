//! Where the editor extension finds the language server: the prebuilt
//! release that fits the host, and where it is unpacked.

use vstd::prelude::*;
use crate::text::{push_text};

verus! {

/// The host's operating system.
#[derive(Clone, Copy, Debug, PartialEq, Eq, Structural)]
pub enum HostOs {
    Mac,
    Linux,
    Windows,
}

/// The host's processor.
#[derive(Clone, Copy, Debug, PartialEq, Eq, Structural)]
pub enum HostArch {
    Aarch64,
    X8664,
    X86,
}

/// The target a release is built for on this host, if one is.
pub open spec fn target_of(os: HostOs, arch: HostArch) -> Option<Seq<char>> {
    match (os, arch) {
        (HostOs::Mac, HostArch::Aarch64) => Some("aarch64-apple-darwin"@),
        (HostOs::Mac, HostArch::X8664) => Some("x86_64-apple-darwin"@),
        (HostOs::Linux, HostArch::X8664) => Some("x86_64-unknown-linux-gnu"@),
        _ => None,
    }
}

/// What the user is told when no release fits the host.
pub open spec fn no_release_message() -> Seq<char> {
    "no prebuilt bluecsv-ls for this platform. Install from source with `cargo install bluecsv-ls` and put it on PATH."@
}

/// The target of the release for this host, or why there is none.
pub fn target_triple(os: HostOs, arch: HostArch) -> (r: Result<&'static str, String>)
    ensures
        r matches Ok(t) ==> target_of(os, arch) == Some(t@),
        r matches Err(m) ==> target_of(os, arch) is None && m@ == no_release_message(),
{
    match (os, arch) {
        (HostOs::Mac, HostArch::Aarch64) => Ok("aarch64-apple-darwin"),
        (HostOs::Mac, HostArch::X8664) => Ok("x86_64-apple-darwin"),
        (HostOs::Linux, HostArch::X8664) => Ok("x86_64-unknown-linux-gnu"),
        _ => {
            let mut m = String::new();
            push_text(
                &mut m,
                "no prebuilt bluecsv-ls for this platform. Install from source with `cargo install bluecsv-ls` and put it on PATH.",
            );
            Err(m)
        },
    }
}

/// The release tag of a version: `v` and the version.
pub fn release_tag(version: &str) -> (t: String)
    ensures
        t@ == "v"@ + version@,
{
    let mut t = String::new();
    push_text(&mut t, "v");
    push_text(&mut t, version);
    t
}

/// The name of the release asset for a target.
pub fn asset_name(target: &str) -> (n: String)
    ensures
        n@ == "bluecsv-ls-"@ + target@ + ".tar.gz"@,
{
    let mut n = String::new();
    push_text(&mut n, "bluecsv-ls-");
    push_text(&mut n, target);
    push_text(&mut n, ".tar.gz");
    n
}

/// The directory a version is unpacked into.
pub fn install_dir(version: &str) -> (d: String)
    ensures
        d@ == "bluecsv-ls-"@ + version@,
{
    let mut d = String::new();
    push_text(&mut d, "bluecsv-ls-");
    push_text(&mut d, version);
    d
}

/// Where the program of a version is once unpacked.
pub fn binary_path(version: &str) -> (p: String)
    ensures
        p@ == "bluecsv-ls-"@ + version@ + "/bluecsv-ls"@,
{
    let mut p = install_dir(version);
    push_text(&mut p, "/bluecsv-ls");
    p
}

} // verus!
