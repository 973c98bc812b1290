use vstd::prelude::*;

use crate::text::{contains, seq_contains};

verus! {

/// Whether the target triple names a Windows-like target.
pub open spec fn spec_is_windows(target: Seq<char>) -> bool {
    seq_contains(target, "windows"@)
}

/// Whether the target triple names an MSVC target.
pub open spec fn spec_is_msvc(target: Seq<char>) -> bool {
    seq_contains(target, "msvc"@)
}

/// Whether the target triple names a macOS target.
pub open spec fn spec_is_darwin(target: Seq<char>) -> bool {
    seq_contains(target, "darwin"@)
}

/// Checks if the target triple `target` is Windows-like.
pub fn is_windows(target: &str) -> (res: bool)
    ensures
        res == spec_is_windows(target@),
{
    contains(target, "windows")
}

/// Checks if the target triple `target` uses MSVC.
pub fn is_msvc(target: &str) -> (res: bool)
    ensures
        res == spec_is_msvc(target@),
{
    contains(target, "msvc")
}

/// Checks if the target triple `target` is macOS.
pub fn is_darwin(target: &str) -> (res: bool)
    ensures
        res == spec_is_darwin(target@),
{
    contains(target, "darwin")
}

} // verus!
