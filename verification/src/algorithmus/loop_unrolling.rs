//! Rows of the product with the inner sum unrolled four terms at a time.
use vstd::prelude::*;
use crate::kern::{kern_binden, KERN_GRENZE};
use crate::matrix::{eingabe_ok, produkt, teilsumme, zeile_eingetragen, zeilen_eingetragen, lemma_teilsumme_monoton};

verus! {

/// Row `i` of the product into the first `n` entries of `ausgabe`, adding four
/// products per step and the last `n % 4` one by one.
pub fn zeile_ausgerollt(a: &Vec<Vec<u32>>, b: &Vec<Vec<u32>>, i: usize, n: usize, ausgabe: &mut Vec<u32>)
    requires
        eingabe_ok(a.deep_view(), b.deep_view(), i as int, i + 1, n as int),
        old(ausgabe)@.len() >= n,
    ensures
        zeile_eingetragen(old(ausgabe)@, final(ausgabe)@, a.deep_view(), b.deep_view(), i as int, n as int),
{
    let ghost ad = a.deep_view();
    let ghost bd = b.deep_view();
    for j in 0..n
        invariant
            ad == a.deep_view(),
            bd == b.deep_view(),
            eingabe_ok(ad, bd, i as int, i + 1, n as int),
            ausgabe@.len() == old(ausgabe)@.len(),
            old(ausgabe)@.len() >= n,
            forall|l: int| 0 <= l < old(ausgabe)@.len() ==> #[trigger] ausgabe@[l] == if l < j {
                produkt(ad, bd, i as int, l, n as int)
            } else {
                old(ausgabe)@[l] as int
            },
    {
        let mut summe: u32 = 0;
        assert(produkt(ad, bd, i as int, j as int, n as int) <= u32::MAX);
        let unroll: usize = n % 4;
        let grenze: usize = n - unroll;
        let mut k: usize = 0;
        while k < grenze
            invariant
                ad == a.deep_view(),
                bd == b.deep_view(),
                eingabe_ok(ad, bd, i as int, i + 1, n as int),
                j < n,
                grenze == n - n % 4,
                k % 4 == 0,
                k <= grenze,
                summe == teilsumme(ad, bd, i as int, j as int, k as int),
                produkt(ad, bd, i as int, j as int, n as int) <= u32::MAX,
            decreases grenze - k,
        {
            let ghost (ii, jj, kk) = (i as int, j as int, k as int);
            proof {
                assert(k + 4 <= grenze);
                lemma_teilsumme_monoton(ad, bd, ii, jj, kk + 4, n as int);
                lemma_teilsumme_monoton(ad, bd, ii, jj, kk + 1, kk + 4);
                lemma_teilsumme_monoton(ad, bd, ii, jj, kk + 2, kk + 4);
                lemma_teilsumme_monoton(ad, bd, ii, jj, kk + 3, kk + 4);
                assert(teilsumme(ad, bd, ii, jj, kk + 1) == teilsumme(ad, bd, ii, jj, kk) + ad[ii][kk] * bd[kk][jj]);
                assert(teilsumme(ad, bd, ii, jj, kk + 2) == teilsumme(ad, bd, ii, jj, kk + 1) + ad[ii][kk + 1] * bd[kk + 1][jj]);
                assert(teilsumme(ad, bd, ii, jj, kk + 3) == teilsumme(ad, bd, ii, jj, kk + 2) + ad[ii][kk + 2] * bd[kk + 2][jj]);
                assert(teilsumme(ad, bd, ii, jj, kk + 4) == teilsumme(ad, bd, ii, jj, kk + 3) + ad[ii][kk + 3] * bd[kk + 3][jj]);
                assert(a@[ii]@ == ad[ii]);
                assert(b@[kk]@ == bd[kk]);
                assert(b@[kk + 1]@ == bd[kk + 1]);
                assert(b@[kk + 2]@ == bd[kk + 2]);
                assert(b@[kk + 3]@ == bd[kk + 3]);
            }
            summe = summe + a[i][k] * b[k][j] + a[i][k + 1] * b[k + 1][j] + a[i][k + 2] * b[k + 2][j]
                + a[i][k + 3] * b[k + 3][j];
            k = k + 4;
        }
        for k in grenze..n
            invariant
                ad == a.deep_view(),
                bd == b.deep_view(),
                eingabe_ok(ad, bd, i as int, i + 1, n as int),
                j < n,
                summe == teilsumme(ad, bd, i as int, j as int, k as int),
                produkt(ad, bd, i as int, j as int, n as int) <= u32::MAX,
        {
            proof {
                lemma_teilsumme_monoton(ad, bd, i as int, j as int, k + 1, n as int);
                assert(a@[i as int]@ == ad[i as int]);
                assert(b@[k as int]@ == bd[k as int]);
            }
            summe = summe + a[i][k] * b[k][j];
        }
        ausgabe[j] = summe;
    }
}

/// The work of one thread: pins itself to core `kern`, then computes matrix rows
/// `anfang .. anfang + bearbeiten.len()` into `bearbeiten` with the unrolled kernel.
pub fn arbeiten(a: &Vec<Vec<u32>>, b: &Vec<Vec<u32>>, bearbeiten: &mut [Vec<u32>], anfang: usize, n: usize, kern: usize)
    requires
        eingabe_ok(a.deep_view(), b.deep_view(), anfang as int, anfang + old(bearbeiten)@.len(), n as int),
        forall|t: int| 0 <= t < old(bearbeiten)@.len() ==> #[trigger] old(bearbeiten)@[t]@.len() >= n,
        kern < KERN_GRENZE,
    ensures
        zeilen_eingetragen(
            old(bearbeiten).deep_view(),
            final(bearbeiten).deep_view(),
            a.deep_view(),
            b.deep_view(),
            anfang as int,
            old(bearbeiten)@.len() as int,
            n as int,
        ),
{
    kern_binden(kern);
    let ghost alt = bearbeiten.deep_view();
    let zeilen = bearbeiten.len();
    let a_zeilen = a.len();
    assert(a.deep_view().len() == a_zeilen);
    for z in 0..zeilen
        invariant
            zeilen == alt.len(),
            a_zeilen == a@.len(),
            alt == old(bearbeiten).deep_view(),
            bearbeiten@.len() == zeilen,
            eingabe_ok(a.deep_view(), b.deep_view(), anfang as int, anfang + zeilen, n as int),
            forall|r: int| 0 <= r < zeilen ==> #[trigger] alt[r].len() >= n,
            zeilen_eingetragen(alt, bearbeiten.deep_view(), a.deep_view(), b.deep_view(), anfang as int, z as int, n as int),
    {
        let ghost vorher = bearbeiten.deep_view();
        proof {
            assert(vorher[z as int] == bearbeiten@[z as int]@);
            assert(eingabe_ok(a.deep_view(), b.deep_view(), (anfang + z) as int, anfang + z + 1, n as int));
        }
        zeile_ausgerollt(a, b, anfang + z, n, &mut bearbeiten[z]);
        proof {
            let nachher = bearbeiten.deep_view();
            assert forall|r: int| 0 <= r < zeilen && r != z implies #[trigger] nachher[r] == vorher[r] by {
                assert(nachher[r] == bearbeiten@[r]@);
            }
        }
    }
}

} // verus!
