//! The order of the benchmark runs: for every thread count from 2 up to the
//! number of logical cores, every matrix size in turn.
use vstd::prelude::*;
use vstd::arithmetic::div_mod::lemma_fundamental_div_mod_converse;

verus! {

/// Run number `k` of the benchmark over the sizes `groessen`: thread count
/// `2 + k / m` and size `groessen[k % m]`, with `m` sizes.
pub open spec fn lauf(groessen: Seq<u32>, k: int) -> (int, int) {
    (2 + k / (groessen.len() as int), groessen[k % (groessen.len() as int)] as int)
}

/// All runs of the benchmark as `(threads, size)`: the thread counts
/// `2 ..= logisch` in the outer order, the sizes in their order inside each.
pub fn laeufe(logisch: u32, groessen: &Vec<u32>) -> (plan: Vec<(usize, usize)>)
    ensures
        plan@.len() == if logisch >= 2 { (logisch - 1) * groessen@.len() } else { 0 },
        forall|k: int| 0 <= k < plan@.len() ==> (#[trigger] plan@[k]).0 == lauf(groessen@, k).0
            && plan@[k].1 == lauf(groessen@, k).1,
{
    let m = groessen.len();
    let mut plan: Vec<(usize, usize)> = Vec::new();
    let mut i: u64 = 2;
    while i <= logisch as u64
        invariant
            2 <= i,
            i <= logisch + 1 || logisch < 2,
            logisch < 2 ==> i == 2,
            m == groessen@.len(),
            plan@.len() == (i - 2) * m,
            forall|k: int| 0 <= k < plan@.len() ==> (#[trigger] plan@[k]).0 == lauf(groessen@, k).0
                && plan@[k].1 == lauf(groessen@, k).1,
        decreases logisch + 1 - i,
    {
        for j in 0..m
            invariant
                2 <= i <= logisch,
                i <= u32::MAX,
                m == groessen@.len(),
                plan@.len() == (i - 2) * m + j,
                forall|k: int| 0 <= k < plan@.len() ==> (#[trigger] plan@[k]).0 == lauf(groessen@, k).0
                    && plan@[k].1 == lauf(groessen@, k).1,
        {
            let ghost k = plan@.len() as int;
            proof {
                lemma_fundamental_div_mod_converse(k, m as int, i - 2, j as int);
            }
            plan.push((i as usize, groessen[j] as usize));
        }
        proof {
            assert((i - 2) * m + m == (i + 1 - 2) * m) by (nonlinear_arith);
        }
        i = i + 1;
    }
    proof {
        if logisch >= 2 {
            assert(i == logisch + 1);
        }
    }
    plan
}

} // verus!
