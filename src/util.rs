//! Branch hints.
use vstd::prelude::*;

verus! {

/// Hint that `b` is usually true; returns `b` unchanged.
#[inline(always)]
pub fn likely(b: bool) -> (r: bool)
    ensures
        r == b,
{
    if b {
        true
    } else {
        false
    }
}

/// Hint that `b` is usually false; returns `b` unchanged.
#[inline(always)]
pub fn unlikely(b: bool) -> (r: bool)
    ensures
        r == b,
{
    if b {
        true
    } else {
        false
    }
}

} // verus!
