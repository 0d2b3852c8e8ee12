//! The single-threaded run: one pinned thread computing the whole product.
use vstd::prelude::*;
use crate::kern::{kern_binden, KERN_GRENZE};
use crate::matrix::{eingabe_ok, mindestens, zeilen_eingetragen, single};

verus! {

/// Pins the calling thread to core `kern` and computes the `n × n` product of
/// `a` and `b` into `c` (entry `(i, j)` for all `i, j < n`; the rest of `c` is
/// left as it was).
pub fn starten(a: &Vec<Vec<u32>>, b: &Vec<Vec<u32>>, c: &mut Vec<Vec<u32>>, n: usize, kern: usize)
    requires
        eingabe_ok(a.deep_view(), b.deep_view(), 0, n as int, n as int),
        mindestens(old(c).deep_view(), n as int, n as int),
        kern < KERN_GRENZE,
    ensures
        zeilen_eingetragen(old(c).deep_view(), final(c).deep_view(), a.deep_view(), b.deep_view(), 0, n as int, n as int),
{
    kern_binden(kern);
    single(a, b, c, n);
}

} // verus!
