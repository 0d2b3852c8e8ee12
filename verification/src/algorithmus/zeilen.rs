//! A run of consecutive output rows computed with the plain row kernel.
use vstd::prelude::*;
use crate::algorithmus::aufteilung::{anteil, beginn, lemma_aufteilung, lemma_beginn_hoechstens, lemma_zeile_genau_einmal};
use crate::matrix::{eingabe_ok, gleich, lemma_gleiches_ergebnis, mindestens, produkt, zeile_eingetragen, zeilen_eingetragen, zeile_berechnen};

verus! {

/// Computes matrix rows `anfang .. anfang + bearbeiten.len()` into the rows of
/// `bearbeiten`: row `t` of the slice receives row `anfang + t` of the product in
/// its first `n` entries.
pub fn zeilen_berechnen(a: &Vec<Vec<u32>>, b: &Vec<Vec<u32>>, bearbeiten: &mut [Vec<u32>], anfang: usize, n: usize)
    requires
        eingabe_ok(a.deep_view(), b.deep_view(), anfang as int, anfang + old(bearbeiten)@.len(), n as int),
        forall|t: int| 0 <= t < old(bearbeiten)@.len() ==> #[trigger] old(bearbeiten)@[t]@.len() >= n,
    ensures
        zeilen_eingetragen(
            old(bearbeiten).deep_view(),
            final(bearbeiten).deep_view(),
            a.deep_view(),
            b.deep_view(),
            anfang as int,
            old(bearbeiten)@.len() as int,
            n as int,
        ),
{
    let ghost alt = bearbeiten.deep_view();
    let zeilen = bearbeiten.len();
    let a_zeilen = a.len();
    assert(a.deep_view().len() == a_zeilen);
    for t in 0..zeilen
        invariant
            zeilen == alt.len(),
            a_zeilen == a@.len(),
            alt == old(bearbeiten).deep_view(),
            bearbeiten@.len() == zeilen,
            eingabe_ok(a.deep_view(), b.deep_view(), anfang as int, anfang + zeilen, n as int),
            forall|r: int| 0 <= r < zeilen ==> #[trigger] alt[r].len() >= n,
            zeilen_eingetragen(alt, bearbeiten.deep_view(), a.deep_view(), b.deep_view(), anfang as int, t as int, n as int),
    {
        let ghost vorher = bearbeiten.deep_view();
        proof {
            assert(vorher[t as int] == bearbeiten@[t as int]@);
            assert(eingabe_ok(a.deep_view(), b.deep_view(), (anfang + t) as int, anfang + t + 1, n as int));
        }
        zeile_berechnen(a, b, anfang + t, n, &mut bearbeiten[t]);
        proof {
            let nachher = bearbeiten.deep_view();
            assert forall|r: int| 0 <= r < zeilen && r != t implies #[trigger] nachher[r] == vorher[r] by {
                assert(nachher[r] == bearbeiten@[r]@);
            }
        }
    }
}

/// The share of worker `z` when `n` rows go to `teile` workers is done: its rows
/// of `neu` are its rows of `alt` with the product entries filled in.
pub open spec fn anteil_fertig(
    alt: Seq<Seq<u32>>,
    neu: Seq<Seq<u32>>,
    a: Seq<Seq<u32>>,
    b: Seq<Seq<u32>>,
    n: int,
    teile: int,
    z: int,
) -> bool {
    let von = beginn(n, teile, z);
    let bis = beginn(n, teile, z) + anteil(n, teile, z);
    zeilen_eingetragen(alt.subrange(von, bis), neu.subrange(von, bis), a, b, von, anteil(n, teile, z), n)
}

/// When the first `n` rows are shared out among `teile` workers and every
/// worker has done its share (the rows from `n` on untouched), the whole result
/// holds the product: the threaded runs of the row-sharing algorithms (loop
/// unrolling, tiling, fixed ranges) compute what `single` computes.
pub proof fn lemma_anteile_ergeben_produkt(
    alt: Seq<Seq<u32>>,
    neu: Seq<Seq<u32>>,
    a: Seq<Seq<u32>>,
    b: Seq<Seq<u32>>,
    n: int,
    teile: int,
)
    requires
        n >= 0,
        teile > 0,
        alt.len() >= n,
        neu.len() == alt.len(),
        forall|r: int| n <= r < alt.len() ==> #[trigger] neu[r] == alt[r],
        forall|z: int| 0 <= z < teile ==> #[trigger] anteil_fertig(alt, neu, a, b, n, teile, z),
    ensures
        zeilen_eingetragen(alt, neu, a, b, 0, n, n),
{
    lemma_aufteilung(n, teile);
    assert forall|r: int| 0 <= r < n implies #[trigger] neu[r].len() == alt[r].len() && forall|j: int|
        0 <= j < alt[r].len() ==> #[trigger] neu[r][j] == if j < n {
            produkt(a, b, r, j, n)
        } else {
            alt[r][j] as int
        } by {
        lemma_zeile_genau_einmal(n, teile, r);
        let z = choose|z: int| 0 <= z < teile && #[trigger] beginn(n, teile, z) <= r < beginn(n, teile, z) + anteil(n, teile, z);
        assert(anteil_fertig(alt, neu, a, b, n, teile, z));
        lemma_beginn_hoechstens(n, teile, z + 1);
        let von = beginn(n, teile, z);
        let bis = von + anteil(n, teile, z);
        assert(beginn(n, teile, z + 1) == bis);
        let t = r - von;
        assert(alt.subrange(von, bis)[t] == alt[r]);
        assert(neu.subrange(von, bis)[t] == neu[r]);
    }
    assert forall|r: int| 0 <= r < alt.len() implies #[trigger] neu[r].len() == alt[r].len() by {}
    assert forall|r: int, j: int| 0 <= r < alt.len() && 0 <= j < alt[r].len() implies #[trigger] neu[r][j] == if r < n && j < n {
        produkt(a, b, 0 + r, j, n)
    } else {
        alt[r][j] as int
    } by {
        if r < n {
            assert(neu[r].len() == alt[r].len());
        }
    }
}

/// The same for the algorithms that hand out single rows (a counter, or
/// stolen tasks): when every row below `n` has been computed and the others are
/// untouched, the result holds the product.
pub proof fn lemma_zeilen_einzeln(alt: Seq<Seq<u32>>, neu: Seq<Seq<u32>>, a: Seq<Seq<u32>>, b: Seq<Seq<u32>>, n: int)
    requires
        n >= 0,
        alt.len() >= n,
        neu.len() == alt.len(),
        forall|r: int| n <= r < alt.len() ==> #[trigger] neu[r] == alt[r],
        forall|r: int| 0 <= r < n ==> #[trigger] zeile_eingetragen(alt[r], neu[r], a, b, r, n),
    ensures
        zeilen_eingetragen(alt, neu, a, b, 0, n, n),
{
    assert forall|r: int| 0 <= r < n implies #[trigger] neu[r].len() == alt[r].len() by {
        assert(zeile_eingetragen(alt[r], neu[r], a, b, r, n));
    }
    assert forall|r: int, j: int| 0 <= r < alt.len() && 0 <= j < alt[r].len() implies #[trigger] neu[r][j] == if r < n && j < n {
        produkt(a, b, 0 + r, j, n)
    } else {
        alt[r][j] as int
    } by {
        if r < n {
            assert(zeile_eingetragen(alt[r], neu[r], a, b, r, n));
        }
    }
}

/// The result of a threaded run does not depend on how many workers share the
/// rows: two runs from the same matrix, with `t1` and `t2` workers that each did
/// their share, agree on the `n × n` block.
pub proof fn lemma_unabhaengig_von_threads(
    alt: Seq<Seq<u32>>,
    neu1: Seq<Seq<u32>>,
    neu2: Seq<Seq<u32>>,
    a: Seq<Seq<u32>>,
    b: Seq<Seq<u32>>,
    n: int,
    t1: int,
    t2: int,
)
    requires
        n >= 0,
        t1 > 0,
        t2 > 0,
        mindestens(alt, n, n),
        neu1.len() == alt.len(),
        neu2.len() == alt.len(),
        forall|r: int| n <= r < alt.len() ==> #[trigger] neu1[r] == alt[r],
        forall|r: int| n <= r < alt.len() ==> #[trigger] neu2[r] == alt[r],
        forall|z: int| 0 <= z < t1 ==> #[trigger] anteil_fertig(alt, neu1, a, b, n, t1, z),
        forall|z: int| 0 <= z < t2 ==> #[trigger] anteil_fertig(alt, neu2, a, b, n, t2, z),
    ensures
        gleich(neu1, neu2, n),
{
    lemma_anteile_ergeben_produkt(alt, neu1, a, b, n, t1);
    lemma_anteile_ergeben_produkt(alt, neu2, a, b, n, t2);
    lemma_gleiches_ergebnis(alt, neu1, alt, neu2, a, b, n);
}

} // verus!
