//! Rows handed out on demand: a shared counter gives every request the next
//! block of four rows, until the counter passes the last row.
use vstd::prelude::*;

verus! {

/// Rows per request.
pub const ZEILEN_PRO_BLOCK: usize = 4;

/// End of the block that starts at row `anfang`: `min(anfang + 4, n)`.
pub open spec fn block_ende(anfang: int, n: int) -> int {
    if anfang + ZEILEN_PRO_BLOCK < n {
        anfang + ZEILEN_PRO_BLOCK
    } else {
        n
    }
}

/// What a worker does with the counter value `anfang` it drew: `None` (stop)
/// once `anfang` has reached `n`, else the end of its block of rows
/// `anfang .. min(anfang + 4, n)`.
pub fn naechster_block(anfang: usize, n: usize) -> (ende: Option<usize>)
    ensures
        anfang >= n ==> ende is None,
        anfang < n ==> ende == Some(block_ende(anfang as int, n as int) as usize),
{
    if anfang >= n {
        None
    } else if n - anfang > ZEILEN_PRO_BLOCK {
        Some(anfang + ZEILEN_PRO_BLOCK)
    } else {
        Some(n)
    }
}

/// The counter hands out `0, 4, 8, ...`; the blocks these values open cover
/// every row below `n` exactly once: row `i` lies in the block opened by
/// `4 * (i / 4)` and in no block opened by another multiple of four.
pub proof fn lemma_bloecke_decken(n: int, i: int, k: int)
    requires
        0 <= i < n,
        k >= 0,
    ensures
        4 * (i / 4) <= i < block_ende(4 * (i / 4), n),
        (4 * k <= i < block_ende(4 * k, n)) <==> k == i / 4,
{
}

} // verus!
