//! The request gate: fixed allow-lists checked before any storage is touched.
//!
//! An unsupported app, platform or arch is rejected up front, so a bad request
//! learns nothing about the release directory — not even whether it exists.

use vstd::prelude::*;

verus! {

pub open spec fn platform_allowed(p: Seq<char>) -> bool {
    p == "darwin"@ || p == "windows"@ || p == "linux"@
}

pub open spec fn arch_allowed(a: Seq<char>) -> bool {
    a == "x86_64"@ || a == "aarch64"@
}

pub open spec fn app_allowed(app: Seq<char>, allowed: Seq<Seq<char>>) -> bool {
    exists|i: int| 0 <= i < allowed.len() && #[trigger] allowed[i] == app
}

pub open spec fn gate_allows(
    app: Seq<char>,
    platform: Seq<char>,
    arch: Seq<char>,
    allowed: Seq<Seq<char>>,
) -> bool {
    app_allowed(app, allowed) && platform_allowed(platform) && arch_allowed(arch)
}

fn str_eq(a: &str, b: &str) -> (r: bool)
    ensures
        r == (a@ == b@),
{
    let sa = a.to_owned();
    let sb = b.to_owned();
    sa == sb
}

fn contains_str(list: &Vec<String>, s: &str) -> (r: bool)
    ensures
        r == app_allowed(s@, list.deep_view()),
{
    let mut i: usize = 0;
    while i < list.len()
        invariant
            i <= list.len(),
            forall|j: int| 0 <= j < i ==> #[trigger] list.deep_view()[j] != s@,
        decreases list.len() - i,
    {
        proof {
            assert(list.deep_view()[i as int] == list@[i as int]@);
        }
        if str_eq(s, list[i].as_str()) {
            return true;
        }
        i = i + 1;
    }
    false
}

/// Pure data validation: no I/O performed, no state consulted.
pub fn is_supported(app: &str, platform: &str, arch: &str, allowed_apps: &Vec<String>) -> (r: bool)
    ensures
        r == gate_allows(app@, platform@, arch@, allowed_apps.deep_view()),
{
    let app_ok = contains_str(allowed_apps, app);
    let platform_ok = str_eq(platform, "darwin") || str_eq(platform, "windows") || str_eq(
        platform,
        "linux",
    );
    let arch_ok = str_eq(arch, "x86_64") || str_eq(arch, "aarch64");
    app_ok && platform_ok && arch_ok
}

} // verus!
