//! How `n` rows are shared out among `teile` workers: every worker gets
//! `n / teile` rows, and the first `n % teile` workers get one row more.
use vstd::prelude::*;
use vstd::arithmetic::div_mod::lemma_fundamental_div_mod;
use vstd::arithmetic::mul::{lemma_mul_is_distributive_add_other_way, lemma_mul_inequality};

verus! {

/// Number of rows of worker `z`.
pub open spec fn anteil(n: int, teile: int, z: int) -> int {
    if z < n % teile {
        n / teile + 1
    } else {
        n / teile
    }
}

/// First row of worker `z`.
pub open spec fn beginn(n: int, teile: int, z: int) -> int {
    z * (n / teile) + if z < n % teile {
        z
    } else {
        n % teile
    }
}

/// Shares are contiguous and in order: worker 0 starts at row 0, each worker
/// starts where the one before it stops, and the last one stops at row `n`.
/// Every share has `n / teile` or `n / teile + 1` rows.
pub proof fn lemma_aufteilung(n: int, teile: int)
    requires
        n >= 0,
        teile > 0,
    ensures
        beginn(n, teile, 0) == 0,
        beginn(n, teile, teile) == n,
        forall|z: int| 0 <= z < teile ==> #[trigger] beginn(n, teile, z + 1) == beginn(n, teile, z) + anteil(n, teile, z),
        forall|z: int| 0 <= z < teile ==> n / teile <= #[trigger] anteil(n, teile, z) <= n / teile + 1,
{
    let basis = n / teile;
    let rest = n % teile;
    lemma_fundamental_div_mod(n, teile);
    assert(beginn(n, teile, teile) == n) by {
        assert(teile * basis + rest == n);
        assert(teile * basis == basis * teile) by (nonlinear_arith);
    }
    assert forall|z: int| 0 <= z < teile implies #[trigger] beginn(n, teile, z + 1) == beginn(n, teile, z) + anteil(n, teile, z) by {
        lemma_mul_is_distributive_add_other_way(basis, z, 1);
    }
}

/// Every row below `n` lies in the share of exactly one worker.
pub proof fn lemma_zeile_genau_einmal(n: int, teile: int, i: int)
    requires
        n >= 0,
        teile > 0,
        0 <= i < n,
    ensures
        exists|z: int| 0 <= z < teile && #[trigger] beginn(n, teile, z) <= i < beginn(n, teile, z) + anteil(n, teile, z),
        forall|z1: int, z2: int|
            0 <= z1 < teile && 0 <= z2 < teile
            && #[trigger] beginn(n, teile, z1) <= i < beginn(n, teile, z1) + anteil(n, teile, z1)
            && #[trigger] beginn(n, teile, z2) <= i < beginn(n, teile, z2) + anteil(n, teile, z2) ==> z1 == z2,
{
    lemma_aufteilung(n, teile);
    lemma_beginn_monoton(n, teile);
    let z = finde_teil(n, teile, i, teile);
    assert forall|z1: int, z2: int|
        0 <= z1 < teile && 0 <= z2 < teile
        && #[trigger] beginn(n, teile, z1) <= i < beginn(n, teile, z1) + anteil(n, teile, z1)
        && #[trigger] beginn(n, teile, z2) <= i < beginn(n, teile, z2) + anteil(n, teile, z2) implies z1 == z2 by {
        if z1 < z2 {
            assert(beginn(n, teile, z1 + 1) <= beginn(n, teile, z2));
        } else if z2 < z1 {
            assert(beginn(n, teile, z2 + 1) <= beginn(n, teile, z1));
        }
    }
}

proof fn lemma_beginn_monoton(n: int, teile: int)
    requires
        n >= 0,
        teile > 0,
    ensures
        forall|z1: int, z2: int| 0 <= z1 <= z2 <= teile ==> #[trigger] beginn(n, teile, z1) <= #[trigger] beginn(n, teile, z2),
{
    lemma_aufteilung(n, teile);
    assert forall|z1: int, z2: int| 0 <= z1 <= z2 <= teile implies #[trigger] beginn(n, teile, z1) <= #[trigger] beginn(n, teile, z2) by {
        lemma_beginn_monoton_schritt(n, teile, z1, z2);
    }
}

proof fn lemma_beginn_monoton_schritt(n: int, teile: int, z1: int, z2: int)
    requires
        n >= 0,
        teile > 0,
        0 <= z1 <= z2 <= teile,
        forall|z: int| 0 <= z < teile ==> #[trigger] beginn(n, teile, z + 1) == beginn(n, teile, z) + anteil(n, teile, z),
        forall|z: int| 0 <= z < teile ==> n / teile <= #[trigger] anteil(n, teile, z) <= n / teile + 1,
    ensures
        beginn(n, teile, z1) <= beginn(n, teile, z2),
    decreases z2 - z1,
{
    if z1 < z2 {
        lemma_beginn_monoton_schritt(n, teile, z1, z2 - 1);
        assert(beginn(n, teile, (z2 - 1) + 1) == beginn(n, teile, z2 - 1) + anteil(n, teile, z2 - 1));
        assert(n / teile >= 0) by {
            vstd::arithmetic::div_mod::lemma_div_pos_is_pos(n, teile);
        }
    }
}

/// The worker whose share holds row `i`, searching the workers below `bis`.
proof fn finde_teil(n: int, teile: int, i: int, bis: int) -> (z: int)
    requires
        0 <= bis <= teile,
        beginn(n, teile, 0) == 0,
        0 <= i < beginn(n, teile, bis),
        forall|z: int| 0 <= z < teile ==> #[trigger] beginn(n, teile, z + 1) == beginn(n, teile, z) + anteil(n, teile, z),
    ensures
        0 <= z < bis,
        beginn(n, teile, z) <= i < beginn(n, teile, z) + anteil(n, teile, z),
    decreases bis,
{
    assert(beginn(n, teile, (bis - 1) + 1) == beginn(n, teile, bis - 1) + anteil(n, teile, bis - 1));
    if i >= beginn(n, teile, bis - 1) {
        bis - 1
    } else {
        finde_teil(n, teile, i, bis - 1)
    }
}

/// No share starts after row `n`.
pub proof fn lemma_beginn_hoechstens(n: int, teile: int, z: int)
    requires
        n >= 0,
        teile > 0,
        0 <= z <= teile,
    ensures
        0 <= beginn(n, teile, z) <= n,
{
    lemma_beginn_monoton(n, teile);
    lemma_aufteilung(n, teile);
    assert(beginn(n, teile, 0) <= beginn(n, teile, z));
    assert(beginn(n, teile, z) <= beginn(n, teile, teile));
}

/// Number of rows of worker `z` when `n` rows go to `teile` workers.
pub fn zeilen_fuer(n: usize, teile: usize, z: usize) -> (zeilen: usize)
    requires
        teile > 0,
    ensures
        zeilen == anteil(n as int, teile as int, z as int),
{
    let basis: usize = n / teile;
    let rest: usize = n % teile;
    if z < rest {
        proof {
            lemma_fundamental_div_mod(n as int, teile as int);
            let bi = basis as int;
            let ti = teile as int;
            let ni = n as int;
            let ri = rest as int;
            assert(bi < usize::MAX) by (nonlinear_arith)
                requires
                    ni == ti * bi + ri,
                    ri >= 0,
                    ti >= 2,
                    ni <= usize::MAX,
                    bi >= 0,
            ;
        }
        basis + 1
    } else {
        basis
    }
}

/// The shares of all `teile` workers as `(first row, number of rows)`, worker by
/// worker, each starting where the one before stopped.
pub fn aufteilen(n: usize, teile: usize) -> (teile_: Vec<(usize, usize)>)
    requires
        teile > 0,
    ensures
        teile_@.len() == teile,
        forall|z: int| 0 <= z < teile ==> #[trigger] teile_@[z].0 == beginn(n as int, teile as int, z)
            && teile_@[z].1 == anteil(n as int, teile as int, z),
        forall|z: int| 0 <= z < teile ==> #[trigger] teile_@[z].0 + teile_@[z].1 <= n,
{
    proof {
        lemma_aufteilung(n as int, teile as int);
        lemma_beginn_monoton(n as int, teile as int);
    }
    let mut ergebnis: Vec<(usize, usize)> = Vec::with_capacity(teile);
    let mut offset: usize = 0;
    for z in 0..teile
        invariant
            teile > 0,
            ergebnis@.len() == z,
            offset == beginn(n as int, teile as int, z as int),
            beginn(n as int, teile as int, teile as int) == n,
            forall|y: int| 0 <= y < teile ==> #[trigger] beginn(n as int, teile as int, y + 1) == beginn(n as int, teile as int, y) + anteil(n as int, teile as int, y),
            forall|z1: int, z2: int| 0 <= z1 <= z2 <= teile ==> #[trigger] beginn(n as int, teile as int, z1) <= #[trigger] beginn(n as int, teile as int, z2),
            forall|y: int| 0 <= y < z ==> #[trigger] ergebnis@[y].0 == beginn(n as int, teile as int, y)
                && ergebnis@[y].1 == anteil(n as int, teile as int, y),
            forall|y: int| 0 <= y < z ==> #[trigger] ergebnis@[y].0 + ergebnis@[y].1 <= n,
    {
        let zeilen = zeilen_fuer(n, teile, z);
        assert(beginn(n as int, teile as int, z as int) <= beginn(n as int, teile as int, z + 1));
        assert(beginn(n as int, teile as int, z + 1) <= beginn(n as int, teile as int, teile as int));
        ergebnis.push((offset, zeilen));
        offset = offset + zeilen;
    }
    ergebnis
}

} // verus!
