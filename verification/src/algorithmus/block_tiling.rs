//! Rows of the product computed tile by tile: the columns in blocks of eight,
//! and for each column block the inner sum in blocks of eight terms.
use vstd::prelude::*;
use crate::kern::{kern_binden, KERN_GRENZE};
use crate::matrix::{eingabe_ok, produkt, teilsumme, zeilen_eingetragen, lemma_teilsumme_monoton};

verus! {

/// Width of a tile, in columns and in terms of the inner sum.
pub const BLOCK: usize = 8;

/// The end of the block that starts at `anfang`: `min(anfang + BLOCK, n)`.
pub open spec fn block_ende(anfang: int, n: int) -> int {
    if anfang + BLOCK < n {
        anfang + BLOCK
    } else {
        n
    }
}

/// Progress of a worker over its rows: columns below `jb` hold the finished
/// product, columns `jb..je` hold the partial sum up to term `ke` in the rows
/// below `t` and up to term `kb` in the others, the columns from `je` to `n`
/// are zero, and the columns from `n` on are as they were.
pub open spec fn stand(
    alt: Seq<Seq<u32>>,
    neu: Seq<Seq<u32>>,
    a: Seq<Seq<u32>>,
    b: Seq<Seq<u32>>,
    anfang: int,
    n: int,
    jb: int,
    je: int,
    kb: int,
    ke: int,
    t: int,
) -> bool {
    &&& neu.len() == alt.len()
    &&& forall|r: int| 0 <= r < alt.len() ==> #[trigger] neu[r].len() == alt[r].len()
    &&& forall|r: int, j: int|
        0 <= r < alt.len() && 0 <= j < alt[r].len() ==> #[trigger] neu[r][j] == if j >= n {
            alt[r][j] as int
        } else if j < jb {
            produkt(a, b, anfang + r, j, n)
        } else if j < je {
            teilsumme(a, b, anfang + r, j, if r < t { ke } else { kb })
        } else {
            0
        }
}

/// Terms `kb .. ke` of entry `(i, j)`: `sum_{kb <= k < ke} a[i][k] * b[k][j]`.
pub fn block_summe(a: &Vec<Vec<u32>>, b: &Vec<Vec<u32>>, i: usize, j: usize, kb: usize, ke: usize, n: usize) -> (summe: u32)
    requires
        eingabe_ok(a.deep_view(), b.deep_view(), i as int, i + 1, n as int),
        j < n,
        kb <= ke <= n,
    ensures
        summe == teilsumme(a.deep_view(), b.deep_view(), i as int, j as int, ke as int) - teilsumme(
            a.deep_view(),
            b.deep_view(),
            i as int,
            j as int,
            kb as int,
        ),
{
    let ghost ad = a.deep_view();
    let ghost bd = b.deep_view();
    assert(produkt(ad, bd, i as int, j as int, n as int) <= u32::MAX);
    let mut summe: u32 = 0;
    for k in kb..ke
        invariant
            ad == a.deep_view(),
            bd == b.deep_view(),
            eingabe_ok(ad, bd, i as int, i + 1, n as int),
            j < n,
            ke <= n,
            summe == teilsumme(ad, bd, i as int, j as int, k as int) - teilsumme(ad, bd, i as int, j as int, kb as int),
            produkt(ad, bd, i as int, j as int, n as int) <= u32::MAX,
    {
        proof {
            lemma_teilsumme_monoton(ad, bd, i as int, j as int, k + 1, n as int);
            lemma_teilsumme_monoton(ad, bd, i as int, j as int, 0, kb as int);
            assert(a@[i as int]@ == ad[i as int]);
            assert(b@[k as int]@ == bd[k as int]);
        }
        summe = summe + a[i][k] * b[k][j];
    }
    summe
}

/// One tile of one row: for every column `j` in `jb .. je`, entry `j` of
/// `ausgabe` holds the partial sum up to term `kb` and gets terms `kb .. ke` added.
pub fn kachel_zeile(
    a: &Vec<Vec<u32>>,
    b: &Vec<Vec<u32>>,
    i: usize,
    n: usize,
    ausgabe: &mut Vec<u32>,
    jb: usize,
    je: usize,
    kb: usize,
    ke: usize,
)
    requires
        eingabe_ok(a.deep_view(), b.deep_view(), i as int, i + 1, n as int),
        jb <= je <= n,
        kb <= ke <= n,
        old(ausgabe)@.len() >= n,
        forall|j: int| jb <= j < je ==> #[trigger] old(ausgabe)@[j] == teilsumme(
            a.deep_view(),
            b.deep_view(),
            i as int,
            j,
            kb as int,
        ),
    ensures
        final(ausgabe)@.len() == old(ausgabe)@.len(),
        forall|j: int| 0 <= j < old(ausgabe)@.len() ==> #[trigger] final(ausgabe)@[j] == if jb <= j < je {
            teilsumme(a.deep_view(), b.deep_view(), i as int, j, ke as int)
        } else {
            old(ausgabe)@[j] as int
        },
{
    let ghost ad = a.deep_view();
    let ghost bd = b.deep_view();
    for j in jb..je
        invariant
            ad == a.deep_view(),
            bd == b.deep_view(),
            eingabe_ok(ad, bd, i as int, i + 1, n as int),
            je <= n,
            kb <= ke <= n,
            ausgabe@.len() == old(ausgabe)@.len(),
            old(ausgabe)@.len() >= n,
            forall|l: int| jb <= l < je ==> #[trigger] old(ausgabe)@[l] == teilsumme(ad, bd, i as int, l, kb as int),
            forall|l: int| 0 <= l < old(ausgabe)@.len() ==> #[trigger] ausgabe@[l] == if jb <= l < j {
                teilsumme(ad, bd, i as int, l, ke as int)
            } else {
                old(ausgabe)@[l] as int
            },
    {
        let summe = block_summe(a, b, i, j, kb, ke, n);
        proof {
            lemma_teilsumme_monoton(ad, bd, i as int, j as int, ke as int, n as int);
            lemma_teilsumme_monoton(ad, bd, i as int, j as int, kb as int, ke as int);
            assert(produkt(ad, bd, i as int, j as int, n as int) <= u32::MAX);
            assert(ausgabe@[j as int] == teilsumme(ad, bd, i as int, j as int, kb as int));
        }
        ausgabe[j] = ausgabe[j] + summe;
    }
}

/// Sets the first `n` entries of `ausgabe` to zero.
fn zeile_nullen(ausgabe: &mut Vec<u32>, n: usize)
    requires
        old(ausgabe)@.len() >= n,
    ensures
        final(ausgabe)@.len() == old(ausgabe)@.len(),
        forall|j: int| 0 <= j < old(ausgabe)@.len() ==> #[trigger] final(ausgabe)@[j] == if j < n {
            0
        } else {
            old(ausgabe)@[j]
        },
{
    for j in 0..n
        invariant
            ausgabe@.len() == old(ausgabe)@.len(),
            old(ausgabe)@.len() >= n,
            forall|l: int| 0 <= l < old(ausgabe)@.len() ==> #[trigger] ausgabe@[l] == if l < j {
                0
            } else {
                old(ausgabe)@[l]
            },
    {
        ausgabe[j] = 0;
    }
}

/// One tile `jb..je` × `kb..ke` for every row of the worker: brings the partial
/// sums in columns `jb..je` from term `kb` up to term `ke`, row after row.
fn kachel_zeilen(
    a: &Vec<Vec<u32>>,
    b: &Vec<Vec<u32>>,
    bearbeiten: &mut [Vec<u32>],
    anfang: usize,
    n: usize,
    jb: usize,
    je: usize,
    kb: usize,
    ke: usize,
    Ghost(alt): Ghost<Seq<Seq<u32>>>,
)
    requires
        eingabe_ok(a.deep_view(), b.deep_view(), anfang as int, anfang + alt.len(), n as int),
        forall|r: int| 0 <= r < alt.len() ==> #[trigger] alt[r].len() >= n,
        jb <= je <= n,
        kb <= ke <= n,
        stand(alt, old(bearbeiten).deep_view(), a.deep_view(), b.deep_view(), anfang as int, n as int, jb as int, je as int, kb as int, kb as int, 0),
    ensures
        stand(alt, final(bearbeiten).deep_view(), a.deep_view(), b.deep_view(), anfang as int, n as int, jb as int, je as int, ke as int, ke as int, 0),
{
    let ghost ad = a.deep_view();
    let ghost bd = b.deep_view();
    let zeilen = bearbeiten.len();
    let a_zeilen = a.len();
    assert(ad.len() == a_zeilen);
    for t in 0..zeilen
        invariant
            ad == a.deep_view(),
            bd == b.deep_view(),
            zeilen == alt.len(),
            a_zeilen == a@.len(),
            bearbeiten@.len() == zeilen,
            eingabe_ok(ad, bd, anfang as int, anfang + zeilen, n as int),
            forall|r: int| 0 <= r < zeilen ==> #[trigger] alt[r].len() >= n,
            jb <= je <= n,
            kb <= ke <= n,
            stand(alt, bearbeiten.deep_view(), ad, bd, anfang as int, n as int, jb as int, je as int, kb as int, ke as int, t as int),
    {
        let ghost vorher = bearbeiten.deep_view();
        let ghost ti = t as int;
        proof {
            assert(vorher[ti] == bearbeiten@[ti]@);
            assert(eingabe_ok(ad, bd, (anfang + t) as int, anfang + t + 1, n as int));
            assert forall|j: int| jb <= j < je implies #[trigger] vorher[ti][j] == teilsumme(ad, bd, (anfang + t) as int, j, kb as int) by {
                assert(vorher[ti][j] == teilsumme(ad, bd, anfang + ti, j, kb as int));
            }
        }
        kachel_zeile(a, b, anfang + t, n, &mut bearbeiten[t], jb, je, kb, ke);
        proof {
            let nachher = bearbeiten.deep_view();
            assert forall|r: int| 0 <= r < zeilen && r != ti implies #[trigger] nachher[r] == vorher[r] by {
                assert(nachher[r] == bearbeiten@[r]@);
            }
            assert(nachher[ti] == bearbeiten@[ti]@);
            assert forall|r: int, j: int| 0 <= r < alt.len() && 0 <= j < alt[r].len() implies #[trigger] nachher[r][j] == if j >= n {
                alt[r][j] as int
            } else if j < jb {
                produkt(ad, bd, anfang + r, j, n as int)
            } else if j < je {
                teilsumme(ad, bd, anfang + r, j, if r < ti + 1 { ke as int } else { kb as int })
            } else {
                0
            } by {
                if r != ti {
                    assert(nachher[r][j] == vorher[r][j]);
                }
            }
        }
    }
}

/// The work of one thread: pins itself to core `kern`, clears the first `n`
/// entries of its rows and then computes matrix rows
/// `anfang .. anfang + bearbeiten.len()` tile by tile into them.
pub fn arbeiten(a: &Vec<Vec<u32>>, b: &Vec<Vec<u32>>, bearbeiten: &mut [Vec<u32>], anfang: usize, n: usize, kern: usize)
    requires
        eingabe_ok(a.deep_view(), b.deep_view(), anfang as int, anfang + old(bearbeiten)@.len(), n as int),
        forall|t: int| 0 <= t < old(bearbeiten)@.len() ==> #[trigger] old(bearbeiten)@[t]@.len() >= n,
        kern < KERN_GRENZE,
    ensures
        zeilen_eingetragen(
            old(bearbeiten).deep_view(),
            final(bearbeiten).deep_view(),
            a.deep_view(),
            b.deep_view(),
            anfang as int,
            old(bearbeiten)@.len() as int,
            n as int,
        ),
{
    kern_binden(kern);
    let ghost ad = a.deep_view();
    let ghost bd = b.deep_view();
    let ghost alt = bearbeiten.deep_view();
    let zeilen = bearbeiten.len();
    assert forall|r: int| 0 <= r < zeilen implies #[trigger] alt[r].len() >= n by {
        assert(alt[r] == bearbeiten@[r]@);
    }
    for t in 0..zeilen
        invariant
            zeilen == alt.len(),
            alt == old(bearbeiten).deep_view(),
            bearbeiten@.len() == zeilen,
            forall|r: int| 0 <= r < zeilen ==> #[trigger] alt[r].len() >= n,
            bearbeiten.deep_view().len() == zeilen,
            forall|r: int| 0 <= r < zeilen ==> #[trigger] bearbeiten.deep_view()[r].len() == alt[r].len(),
            forall|r: int, j: int| 0 <= r < zeilen && 0 <= j < alt[r].len() ==> #[trigger] bearbeiten.deep_view()[r][j]
                == if r < t && j < n { 0 } else { alt[r][j] },
    {
        let ghost vorher = bearbeiten.deep_view();
        let ghost ti = t as int;
        proof {
            assert(vorher[ti] == bearbeiten@[ti]@);
        }
        zeile_nullen(&mut bearbeiten[t], n);
        proof {
            let nachher = bearbeiten.deep_view();
            assert forall|r: int| 0 <= r < zeilen && r != ti implies #[trigger] nachher[r] == vorher[r] by {
                assert(nachher[r] == bearbeiten@[r]@);
            }
            assert(nachher[ti] == bearbeiten@[ti]@);
        }
    }
    proof {
        let jetzt = bearbeiten.deep_view();
        // all rows cleared: no column finished, no tile started
        assert forall|r: int, j: int| 0 <= r < alt.len() && 0 <= j < alt[r].len() implies #[trigger] jetzt[r][j] == if j >= n {
            alt[r][j] as int
        } else {
            0
        } by {}
        assert(stand(alt, jetzt, ad, bd, anfang as int, n as int, 0, 0, 0, 0, 0));
    }
    let mut jb: usize = 0;
    while jb < n
        invariant
            ad == a.deep_view(),
            bd == b.deep_view(),
            zeilen == alt.len(),
            alt == old(bearbeiten).deep_view(),
            eingabe_ok(ad, bd, anfang as int, anfang + zeilen, n as int),
            forall|r: int| 0 <= r < zeilen ==> #[trigger] alt[r].len() >= n,
            jb <= n,
            stand(alt, bearbeiten.deep_view(), ad, bd, anfang as int, n as int, jb as int, jb as int, 0, 0, 0),
        decreases n - jb,
    {
        let je: usize = if n - jb > BLOCK { jb + BLOCK } else { n };
        proof {
            let jetzt = bearbeiten.deep_view();
            // the new column block starts with the partial sums of no term, which are zero
            assert forall|r: int, j: int| 0 <= r < alt.len() && jb <= j < je implies #[trigger] teilsumme(ad, bd, anfang + r, j, 0) == 0 by {}
            assert(stand(alt, jetzt, ad, bd, anfang as int, n as int, jb as int, je as int, 0, 0, 0));
        }
        let mut kb: usize = 0;
        while kb < n
            invariant
                ad == a.deep_view(),
                bd == b.deep_view(),
                zeilen == alt.len(),
                eingabe_ok(ad, bd, anfang as int, anfang + zeilen, n as int),
                forall|r: int| 0 <= r < zeilen ==> #[trigger] alt[r].len() >= n,
                jb < je <= n,
                kb <= n,
                stand(alt, bearbeiten.deep_view(), ad, bd, anfang as int, n as int, jb as int, je as int, kb as int, kb as int, 0),
            decreases n - kb,
        {
            let ke: usize = if n - kb > BLOCK { kb + BLOCK } else { n };
            kachel_zeilen(a, b, bearbeiten, anfang, n, jb, je, kb, ke, Ghost(alt));
            kb = ke;
        }
        proof {
            let jetzt = bearbeiten.deep_view();
            // the column block holds all terms: it is finished
            assert forall|r: int, j: int| 0 <= r < alt.len() && 0 <= j < alt[r].len() implies #[trigger] jetzt[r][j] == if j >= n {
                alt[r][j] as int
            } else if j < je {
                produkt(ad, bd, anfang + r, j, n as int)
            } else {
                0
            } by {}
            assert(stand(alt, jetzt, ad, bd, anfang as int, n as int, je as int, je as int, 0, 0, 0));
        }
        jb = je;
    }
    proof {
        let jetzt = bearbeiten.deep_view();
        assert forall|r: int, j: int| 0 <= r < alt.len() && 0 <= j < alt[r].len() implies #[trigger] jetzt[r][j] == if r < zeilen && j < n {
            produkt(ad, bd, anfang + r, j, n as int)
        } else {
            alt[r][j] as int
        } by {}
    }
}

} // verus!
