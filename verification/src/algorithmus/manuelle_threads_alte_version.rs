//! Every thread computes its rows into fresh vectors, tagged with their row
//! index; the caller then moves the finished rows into the result.
use vstd::prelude::*;
use crate::algorithmus::aufteilung::{anteil, beginn, lemma_aufteilung};
use crate::kern::{kern_binden, KERN_GRENZE};
use crate::matrix::{eingabe_ok, produkt, teilsumme, lemma_teilsumme_monoton};
use vstd::arithmetic::div_mod::lemma_fundamental_div_mod;

verus! {

/// The rows `anfang .. ende` of worker `z`, computed directly as
/// `z * (n / threads) + min(z, n % threads)` and that plus the worker's share.
pub fn bereich(n: usize, threads: usize, z: usize) -> (r: (usize, usize))
    requires
        threads > 0,
        z < threads,
    ensures
        r.0 == beginn(n as int, threads as int, z as int),
        r.1 == r.0 + anteil(n as int, threads as int, z as int),
        r.1 <= n,
{
    let basis: usize = n / threads;
    let rest: usize = n % threads;
    proof {
        lemma_aufteilung(n as int, threads as int);
        lemma_fundamental_div_mod(n as int, threads as int);
        let (zi, ti, bi, ni, ri) = (z as int, threads as int, basis as int, n as int, rest as int);
        assert(zi * bi + bi <= ni) by (nonlinear_arith)
            requires
                0 <= zi < ti,
                bi >= 0,
                ni == ti * bi + ri,
                ri >= 0,
        ;
        assert(beginn(n as int, threads as int, z + 1) <= n) by {
            crate::algorithmus::aufteilung::lemma_beginn_hoechstens(n as int, threads as int, z + 1);
        }
    }
    let zeilen: usize;
    let offset: usize;
    if z < rest {
        zeilen = basis + 1;
        offset = z;
    } else {
        zeilen = basis;
        offset = rest;
    }
    let anfang: usize = z * basis + offset;
    let ende: usize = anfang + zeilen;
    (anfang, ende)
}

/// Row `i` of the product as a new vector of length `n`.
fn zeile_neu(a: &Vec<Vec<u32>>, b: &Vec<Vec<u32>>, i: usize, n: usize) -> (zeile: Vec<u32>)
    requires
        eingabe_ok(a.deep_view(), b.deep_view(), i as int, i + 1, n as int),
    ensures
        zeile@.len() == n,
        forall|j: int| 0 <= j < n ==> #[trigger] zeile@[j] == produkt(a.deep_view(), b.deep_view(), i as int, j, n as int),
{
    let ghost ad = a.deep_view();
    let ghost bd = b.deep_view();
    let mut temporaer: Vec<u32> = Vec::with_capacity(n);
    for j in 0..n
        invariant
            ad == a.deep_view(),
            bd == b.deep_view(),
            eingabe_ok(ad, bd, i as int, i + 1, n as int),
            temporaer@.len() == j,
            forall|l: int| 0 <= l < j ==> #[trigger] temporaer@[l] == produkt(ad, bd, i as int, l, n as int),
    {
        let mut summe: u32 = 0;
        assert(produkt(ad, bd, i as int, j as int, n as int) <= u32::MAX);
        for k in 0..n
            invariant
                ad == a.deep_view(),
                bd == b.deep_view(),
                eingabe_ok(ad, bd, i as int, i + 1, n as int),
                j < n,
                summe == teilsumme(ad, bd, i as int, j as int, k as int),
                produkt(ad, bd, i as int, j as int, n as int) <= u32::MAX,
        {
            proof {
                lemma_teilsumme_monoton(ad, bd, i as int, j as int, k + 1, n as int);
                assert(a@[i as int]@ == ad[i as int]);
                assert(b@[k as int]@ == bd[k as int]);
            }
            summe = summe + a[i][k] * b[k][j];
        }
        temporaer.push(summe);
    }
    temporaer
}

/// The work of one thread: pins itself to core `kern` and returns, for every row
/// `i` in `anfang .. ende` in order, the pair `(i, row i of the product)`.
pub fn arbeiten(a: &Vec<Vec<u32>>, b: &Vec<Vec<u32>>, anfang: usize, ende: usize, n: usize, kern: usize) -> (zwischenergebnis: Vec<(usize, Vec<u32>)>)
    requires
        anfang <= ende,
        eingabe_ok(a.deep_view(), b.deep_view(), anfang as int, ende as int, n as int),
        kern < KERN_GRENZE,
    ensures
        zwischenergebnis@.len() == ende - anfang,
        forall|t: int| 0 <= t < ende - anfang ==> #[trigger] zwischenergebnis@[t].0 == anfang + t,
        forall|t: int| 0 <= t < ende - anfang ==> #[trigger] zwischenergebnis@[t].1@.len() == n,
        forall|t: int, j: int| 0 <= t < ende - anfang && 0 <= j < n ==> #[trigger] zwischenergebnis@[t].1@[j] == produkt(
            a.deep_view(),
            b.deep_view(),
            anfang + t,
            j,
            n as int,
        ),
{
    kern_binden(kern);
    let mut zwischenergebnis: Vec<(usize, Vec<u32>)> = Vec::with_capacity(ende - anfang);
    for i in anfang..ende
        invariant
            anfang <= ende,
            eingabe_ok(a.deep_view(), b.deep_view(), anfang as int, ende as int, n as int),
            zwischenergebnis@.len() == i - anfang,
            forall|t: int| 0 <= t < i - anfang ==> #[trigger] zwischenergebnis@[t].0 == anfang + t,
            forall|t: int| 0 <= t < i - anfang ==> #[trigger] zwischenergebnis@[t].1@.len() == n,
            forall|t: int, j: int| 0 <= t < i - anfang && 0 <= j < n ==> #[trigger] zwischenergebnis@[t].1@[j] == produkt(
                a.deep_view(),
                b.deep_view(),
                anfang + t,
                j,
                n as int,
            ),
    {
        let temporaer = zeile_neu(a, b, i, n);
        zwischenergebnis.push((i, temporaer));
    }
    zwischenergebnis
}

/// The matrix `c` after moving in the rows of `teile` one after the other:
/// pair `(i, zeile)` replaces row `i` by `zeile`.
pub open spec fn eingesetzt(c: Seq<Seq<u32>>, teile: Seq<(usize, Seq<u32>)>) -> Seq<Seq<u32>>
    decreases teile.len(),
{
    if teile.len() == 0 {
        c
    } else {
        eingesetzt(c, teile.drop_last()).update(teile.last().0 as int, teile.last().1)
    }
}

/// Moving in the rows `anfang, anfang + 1, ...` of a worker's result replaces
/// exactly those rows of `c` and leaves all others as they were.
pub proof fn lemma_eingesetzt_zeilen(c: Seq<Seq<u32>>, teile: Seq<(usize, Seq<u32>)>, anfang: int)
    requires
        anfang >= 0,
        anfang + teile.len() <= c.len(),
        forall|t: int| 0 <= t < teile.len() ==> #[trigger] teile[t].0 == anfang + t,
    ensures
        eingesetzt(c, teile).len() == c.len(),
        forall|r: int| 0 <= r < c.len() ==> #[trigger] eingesetzt(c, teile)[r] == if anfang <= r < anfang + teile.len() {
            teile[r - anfang].1
        } else {
            c[r]
        },
    decreases teile.len(),
{
    if teile.len() > 0 {
        let vorne = teile.drop_last();
        assert forall|t: int| 0 <= t < vorne.len() implies #[trigger] vorne[t].0 == anfang + t by {
            assert(vorne[t] == teile[t]);
        }
        lemma_eingesetzt_zeilen(c, vorne, anfang);
        assert(teile.last() == teile[teile.len() - 1]);
    }
}

/// Moves the rows of `teile` into `c`, in order: pair `(i, zeile)` replaces row `i`.
pub fn einsetzen(c: &mut Vec<Vec<u32>>, teile: Vec<(usize, Vec<u32>)>)
    requires
        forall|t: int| 0 <= t < teile@.len() ==> #[trigger] teile@[t].0 < old(c)@.len(),
    ensures
        final(c).deep_view() == eingesetzt(old(c).deep_view(), teile.deep_view()),
{
    let ghost tv = teile.deep_view();
    let ghost tw = teile@;
    let ghost alt = c.deep_view();
    for paar in it: teile
        invariant
            tv == tw.map_values(|p: (usize, Vec<u32>)| p.deep_view()),
            it.seq() == tw,
            forall|s: int| 0 <= s < tv.len() ==> #[trigger] tv[s].0 < alt.len(),
            c.deep_view() == eingesetzt(alt, tv.take(it.index() as int)),
            c@.len() == alt.len(),
    {
        let ghost k = it.index() as int;
        proof {
            assert(paar == tw[k]);
            assert(0 <= k < tw.len());
            assert(tv.len() == tw.len());
            assert(tv[k] == tw[k].deep_view());
            assert(tv[k].0 < alt.len());
        }
        let (i, zeile) = paar;
        proof {
            assert(tv[k] == (i, zeile@));
            assert(i < alt.len());
        }
        let ghost vorher = c.deep_view();
        c[i] = zeile;
        proof {
            assert(tv.take(k + 1).drop_last() == tv.take(k));
            assert(c.deep_view() == vorher.update(i as int, zeile@));
        }
    }
    proof {
        assert(tv.take(tv.len() as int) == tv);
    }
}

} // verus!
