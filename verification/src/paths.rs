//! Build-tree path helpers used by the end-to-end harness: where the
//! compiled supervisor binary lives under a workspace's target directory.
//!
//! Locating the workspace itself asks the build tool and the environment,
//! which happens outside the library; these functions do the path
//! arithmetic on plain strings.

use vstd::prelude::*;
use vstd::string::StringExecFns;

verus! {

/// The profile directory name a build uses: `debug` for a debug build,
/// `release` otherwise.
pub fn cargo_profile(debug_build: bool) -> (r: &'static str)
    ensures
        r@ == (if debug_build {
            "debug"@
        } else {
            "release"@
        }),
{
    proof {
        reveal_strlit("debug");
        reveal_strlit("release");
    }
    if debug_build {
        "debug"
    } else {
        "release"
    }
}

/// The build output directory for a workspace and profile.
pub fn target_dir(workspace_dir: &str, profile: &str) -> (r: String)
    ensures
        r@ == workspace_dir@ + "/target/"@ + profile@,
{
    let mut s = String::from_str(workspace_dir);
    s.append("/target/");
    s.append(profile);
    s
}

/// The path of the supervisor binary inside a build output directory.
pub fn escapepod_bin(target_dir: &str) -> (r: String)
    ensures
        r@ == target_dir@ + "/escapepod"@,
{
    let mut s = String::from_str(target_dir);
    s.append("/escapepod");
    s
}

} // verus!
