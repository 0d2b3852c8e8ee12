//! Every thread computes a fixed, contiguous range of rows of the result.
use vstd::prelude::*;
use crate::algorithmus::zeilen::zeilen_berechnen;
use crate::kern::{kern_binden, KERN_GRENZE};
use crate::matrix::{eingabe_ok, zeilen_eingetragen};

verus! {

/// The work of one thread: pins itself to core `kern`, then computes matrix rows
/// `start .. start + bereich.len()` into `bereich`.
pub fn arbeiten(a: &Vec<Vec<u32>>, b: &Vec<Vec<u32>>, bereich: &mut [Vec<u32>], start: usize, n: usize, kern: usize)
    requires
        eingabe_ok(a.deep_view(), b.deep_view(), start as int, start + old(bereich)@.len(), n as int),
        forall|t: int| 0 <= t < old(bereich)@.len() ==> #[trigger] old(bereich)@[t]@.len() >= n,
        kern < KERN_GRENZE,
    ensures
        zeilen_eingetragen(
            old(bereich).deep_view(),
            final(bereich).deep_view(),
            a.deep_view(),
            b.deep_view(),
            start as int,
            old(bereich)@.len() as int,
            n as int,
        ),
{
    kern_binden(kern);
    zeilen_berechnen(a, b, bereich, start, n);
}

} // verus!
