//! The rows of the product computed by a rayon parallel iterator; the thread
//! pool, and with it the pinning, is set up by the caller.
use vstd::prelude::*;
use rayon::iter::{IndexedParallelIterator, IntoParallelRefMutIterator, ParallelIterator};
use crate::matrix::{eingabe_ok, zeilen_eingetragen, zeile_berechnen};

verus! {

/// Calls `par_iter_mut().enumerate().for_each(..)` of rayon on the rows of `c`,
/// with a closure that hands row `i` to `zeile_berechnen`. Rayon's `for_each`
/// runs the closure once for every item, and `enumerate` pairs each row with
/// its index, so every row `i` of `c` ends as `zeile_berechnen` leaves it: its
/// first `n` entries become row `i` of the product. The `requires` is what
/// `zeile_berechnen` needs for every row.
#[verifier::external_body]
fn zeilen_parallel(a: &Vec<Vec<u32>>, b: &Vec<Vec<u32>>, c: &mut Vec<Vec<u32>>, n: usize)
    requires
        eingabe_ok(a.deep_view(), b.deep_view(), 0, old(c)@.len() as int, n as int),
        forall|t: int| 0 <= t < old(c)@.len() ==> #[trigger] old(c)@[t]@.len() >= n,
    ensures
        zeilen_eingetragen(old(c).deep_view(), final(c).deep_view(), a.deep_view(), b.deep_view(), 0, old(c)@.len() as int, n as int),
{
    c.par_iter_mut().enumerate().for_each(|(i, zeile): (usize, &mut Vec<u32>)| zeile_berechnen(a, b, i, n, zeile));
}

/// Parallel product: every row `i` of `c` gets row `i` of the product of `a`
/// and `b` in its first `n` entries; the rows are computed in parallel.
pub fn parallel(a: &Vec<Vec<u32>>, b: &Vec<Vec<u32>>, c: &mut Vec<Vec<u32>>, n: usize)
    requires
        eingabe_ok(a.deep_view(), b.deep_view(), 0, old(c)@.len() as int, n as int),
        forall|t: int| 0 <= t < old(c)@.len() ==> #[trigger] old(c)@[t]@.len() >= n,
    ensures
        zeilen_eingetragen(old(c).deep_view(), final(c).deep_view(), a.deep_view(), b.deep_view(), 0, old(c)@.len() as int, n as int),
{
    zeilen_parallel(a, b, c, n);
}

} // verus!
