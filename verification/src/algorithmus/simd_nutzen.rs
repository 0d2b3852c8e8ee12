//! Rows of the product eight columns at a time, with eight independent lanes that
//! add and multiply modulo 2^32 as vector registers do; the columns that do not
//! fill a group of eight are computed one by one.
use vstd::prelude::*;
use vstd::arithmetic::div_mod::{lemma_add_mod_noop, lemma_mod_bound};
use crate::kern::{kern_binden, KERN_GRENZE};
use crate::matrix::{form_ok, produkt, teilsumme, lemma_teilsumme_monoton, ohne_ueberlauf, zeilen_eingetragen};

verus! {

/// Number of lanes of a vector register of 256 bits holding `u32` values.
pub const LANES: usize = 8;

/// 2^32: the lanes compute modulo this number.
pub open spec fn modul() -> int {
    0x1_0000_0000
}

/// The columns below this bound are computed in groups of eight lanes.
pub open spec fn bloecke(n: int) -> int {
    (n / 8) * 8
}

/// Entry `(i, j)` as this kernel computes it: modulo 2^32 in the lane columns,
/// exactly in the others.
pub open spec fn simd_wert(a: Seq<Seq<u32>>, b: Seq<Seq<u32>>, i: int, j: int, n: int) -> int {
    if j < bloecke(n) {
        produkt(a, b, i, j, n) % modul()
    } else {
        produkt(a, b, i, j, n)
    }
}

/// The entries of rows `von..bis` outside the lane columns fit in a `u32`.
pub open spec fn rest_ohne_ueberlauf(a: Seq<Seq<u32>>, b: Seq<Seq<u32>>, von: int, bis: int, n: int) -> bool {
    forall|i: int, j: int| von <= i < bis && bloecke(n) <= j < n ==> #[trigger] produkt(a, b, i, j, n) <= u32::MAX
}

/// `neu` is `alt` with the first `n` entries of each row `t` replaced by
/// `simd_wert` of matrix row `versatz + t`; everything else is unchanged.
pub open spec fn simd_zeilen_eingetragen(
    alt: Seq<Seq<u32>>,
    neu: Seq<Seq<u32>>,
    a: Seq<Seq<u32>>,
    b: Seq<Seq<u32>>,
    versatz: int,
    n: int,
) -> bool {
    &&& neu.len() == alt.len()
    &&& forall|t: int| 0 <= t < alt.len() ==> #[trigger] neu[t].len() == alt[t].len()
    &&& forall|t: int, j: int|
        0 <= t < alt.len() && 0 <= j < alt[t].len() ==> #[trigger] neu[t][j] == if j < n {
            simd_wert(a, b, versatz + t, j, n)
        } else {
            alt[t][j] as int
        }
}

/// One lane step: adding `x * y` modulo 2^32 to a partial sum held modulo 2^32.
proof fn lemma_lane_schritt(s: u32, x: u32, y: u32, summe: int)
    requires
        s == summe % modul(),
        summe >= 0,
    ensures
        s.wrapping_add(x.wrapping_mul(y)) == (summe + x * y) % modul(),
{
    let p = x.wrapping_mul(y);
    assert(p == (x * y) % modul());
    lemma_add_mod_noop(summe, x * y, modul());
    lemma_mod_bound(summe, modul());
    lemma_mod_bound(x * y, modul());
    assert(s.wrapping_add(p) == (s + p) % modul());
}

/// Columns `j .. j + 8` of row `i`, each as its product entry modulo 2^32.
pub fn lanes_berechnen(a: &Vec<Vec<u32>>, b: &Vec<Vec<u32>>, i: usize, j: usize, n: usize) -> (summe: [u32; 8])
    requires
        form_ok(a.deep_view(), b.deep_view(), i as int, i + 1, n as int),
        j + LANES <= n,
    ensures
        forall|l: int| 0 <= l < 8 ==> #[trigger] summe@[l] == produkt(a.deep_view(), b.deep_view(), i as int, j + l, n as int) % modul(),
{
    let ghost ad = a.deep_view();
    let ghost bd = b.deep_view();
    let mut summe: [u32; 8] = [0u32; 8];
    for k in 0..n
        invariant
            ad == a.deep_view(),
            bd == b.deep_view(),
            form_ok(ad, bd, i as int, i + 1, n as int),
            j + LANES <= n,
            forall|l: int| 0 <= l < 8 ==> #[trigger] summe@[l] == teilsumme(ad, bd, i as int, j + l, k as int) % modul(),
    {
        proof {
            assert(a@[i as int]@ == ad[i as int]);
            assert(b@[k as int]@ == bd[k as int]);
        }
        let x: u32 = a[i][k];
        let ghost vorher = summe@;
        for l in 0..LANES
            invariant
                ad == a.deep_view(),
                bd == b.deep_view(),
                form_ok(ad, bd, i as int, i + 1, n as int),
                j + LANES <= n,
                k < n,
                x == ad[i as int][k as int],
                b@[k as int]@ == bd[k as int],
                forall|m: int| 0 <= m < 8 ==> #[trigger] vorher[m] == teilsumme(ad, bd, i as int, j + m, k as int) % modul(),
                forall|m: int| 0 <= m < 8 ==> #[trigger] summe@[m] == if m < l {
                    teilsumme(ad, bd, i as int, j + m, k + 1) % modul()
                } else {
                    vorher[m] as int
                },
        {
            let y: u32 = b[k][j + l];
            proof {
                lemma_teilsumme_monoton(ad, bd, i as int, (j + l) as int, 0, k as int);
                lemma_lane_schritt(summe@[l as int], x, y, teilsumme(ad, bd, i as int, (j + l) as int, k as int));
            }
            summe[l] = summe[l].wrapping_add(x.wrapping_mul(y));
        }
    }
    summe
}

/// Row `i` into the first `n` entries of `ausgabe`: the columns below
/// `(n / 8) * 8` eight at a time through `lanes_berechnen`, the remaining ones
/// one by one with ordinary arithmetic.
pub fn zeile_simd(a: &Vec<Vec<u32>>, b: &Vec<Vec<u32>>, i: usize, n: usize, ausgabe: &mut Vec<u32>)
    requires
        form_ok(a.deep_view(), b.deep_view(), i as int, i + 1, n as int),
        rest_ohne_ueberlauf(a.deep_view(), b.deep_view(), i as int, i + 1, n as int),
        old(ausgabe)@.len() >= n,
    ensures
        final(ausgabe)@.len() == old(ausgabe)@.len(),
        forall|j: int| 0 <= j < old(ausgabe)@.len() ==> #[trigger] final(ausgabe)@[j] == if j < n {
            simd_wert(a.deep_view(), b.deep_view(), i as int, j, n as int)
        } else {
            old(ausgabe)@[j] as int
        },
{
    let ghost ad = a.deep_view();
    let ghost bd = b.deep_view();
    let bloecke_: usize = (n / 8) * 8;
    let mut j: usize = 0;
    while j < bloecke_
        invariant
            ad == a.deep_view(),
            bd == b.deep_view(),
            form_ok(ad, bd, i as int, i + 1, n as int),
            bloecke_ == bloecke(n as int),
            bloecke_ <= n,
            j % 8 == 0,
            j <= bloecke_,
            ausgabe@.len() == old(ausgabe)@.len(),
            old(ausgabe)@.len() >= n,
            forall|l: int| 0 <= l < old(ausgabe)@.len() ==> #[trigger] ausgabe@[l] == if l < j {
                simd_wert(ad, bd, i as int, l, n as int)
            } else {
                old(ausgabe)@[l] as int
            },
        decreases bloecke_ - j,
    {
        assert(j + LANES <= bloecke_);
        let zwischen = lanes_berechnen(a, b, i, j, n);
        for l in 0..LANES
            invariant
                ad == a.deep_view(),
                bd == b.deep_view(),
                bloecke_ == bloecke(n as int),
                j + LANES <= bloecke_,
                bloecke_ <= n,
                ausgabe@.len() == old(ausgabe)@.len(),
                old(ausgabe)@.len() >= n,
                forall|m: int| 0 <= m < 8 ==> #[trigger] zwischen@[m] == produkt(ad, bd, i as int, j + m, n as int) % modul(),
                forall|m: int| 0 <= m < old(ausgabe)@.len() ==> #[trigger] ausgabe@[m] == if m < j + l {
                    simd_wert(ad, bd, i as int, m, n as int)
                } else {
                    old(ausgabe)@[m] as int
                },
        {
            assert(zwischen@[l as int] == produkt(ad, bd, i as int, j + l, n as int) % modul());
            ausgabe[j + l] = zwischen[l];
        }
        j = j + LANES;
    }
    for l in bloecke_..n
        invariant
            ad == a.deep_view(),
            bd == b.deep_view(),
            form_ok(ad, bd, i as int, i + 1, n as int),
            rest_ohne_ueberlauf(ad, bd, i as int, i + 1, n as int),
            bloecke_ == bloecke(n as int),
            ausgabe@.len() == old(ausgabe)@.len(),
            old(ausgabe)@.len() >= n,
            forall|m: int| 0 <= m < old(ausgabe)@.len() ==> #[trigger] ausgabe@[m] == if m < l {
                simd_wert(ad, bd, i as int, m, n as int)
            } else {
                old(ausgabe)@[m] as int
            },
    {
        let mut summe2: u32 = 0;
        assert(produkt(ad, bd, i as int, l as int, n as int) <= u32::MAX);
        for m in 0..n
            invariant
                ad == a.deep_view(),
                bd == b.deep_view(),
                form_ok(ad, bd, i as int, i + 1, n as int),
                l < n,
                summe2 == teilsumme(ad, bd, i as int, l as int, m as int),
                produkt(ad, bd, i as int, l as int, n as int) <= u32::MAX,
        {
            proof {
                lemma_teilsumme_monoton(ad, bd, i as int, l as int, m + 1, n as int);
                assert(a@[i as int]@ == ad[i as int]);
                assert(b@[m as int]@ == bd[m as int]);
            }
            summe2 = summe2 + a[i][m] * b[m][l];
        }
        ausgabe[l] = summe2;
    }
}

/// Where no entry of the rows overflows, the lane columns hold the exact product
/// too, so the kernel agrees with the reference product.
pub proof fn lemma_simd_wie_produkt(a: Seq<Seq<u32>>, b: Seq<Seq<u32>>, i: int, j: int, n: int)
    requires
        0 <= j < n,
        0 <= produkt(a, b, i, j, n) <= u32::MAX,
    ensures
        simd_wert(a, b, i, j, n) == produkt(a, b, i, j, n),
{
    vstd::arithmetic::div_mod::lemma_small_mod(produkt(a, b, i, j, n) as nat, modul() as nat);
}

/// Where no entry of the rows overflows, what a worker of the lane kernel leaves
/// is exactly the product in its rows, so the lane runs take part in the laws on
/// shares of rows like every other kernel.
pub proof fn lemma_simd_zeilen_wie_produkt(
    alt: Seq<Seq<u32>>,
    neu: Seq<Seq<u32>>,
    a: Seq<Seq<u32>>,
    b: Seq<Seq<u32>>,
    versatz: int,
    n: int,
)
    requires
        simd_zeilen_eingetragen(alt, neu, a, b, versatz, n),
        ohne_ueberlauf(a, b, versatz, versatz + alt.len(), n),
    ensures
        zeilen_eingetragen(alt, neu, a, b, versatz, alt.len() as int, n),
{
    assert forall|t: int, j: int| 0 <= t < alt.len() && 0 <= j < alt[t].len() implies #[trigger] neu[t][j] == if t < alt.len() && j < n {
        produkt(a, b, versatz + t, j, n)
    } else {
        alt[t][j] as int
    } by {
        if j < n {
            assert(produkt(a, b, versatz + t, j, n) <= u32::MAX);
            lemma_teilsumme_monoton(a, b, versatz + t, j, 0, n);
            lemma_simd_wie_produkt(a, b, versatz + t, j, n);
        }
    }
}

/// The work of one thread: pins itself to core `kern`, then computes matrix rows
/// `anfang .. anfang + bearbeiten.len()` into `bearbeiten` with the lane kernel.
pub fn arbeiten(a: &Vec<Vec<u32>>, b: &Vec<Vec<u32>>, bearbeiten: &mut [Vec<u32>], anfang: usize, n: usize, kern: usize)
    requires
        form_ok(a.deep_view(), b.deep_view(), anfang as int, anfang + old(bearbeiten)@.len(), n as int),
        rest_ohne_ueberlauf(a.deep_view(), b.deep_view(), anfang as int, anfang + old(bearbeiten)@.len(), n as int),
        forall|t: int| 0 <= t < old(bearbeiten)@.len() ==> #[trigger] old(bearbeiten)@[t]@.len() >= n,
        kern < KERN_GRENZE,
    ensures
        simd_zeilen_eingetragen(
            old(bearbeiten).deep_view(),
            final(bearbeiten).deep_view(),
            a.deep_view(),
            b.deep_view(),
            anfang as int,
            n as int,
        ),
{
    kern_binden(kern);
    let ghost alt = bearbeiten.deep_view();
    let zeilen = bearbeiten.len();
    let a_zeilen = a.len();
    assert(a.deep_view().len() == a_zeilen);
    for z in 0..zeilen
        invariant
            zeilen == alt.len(),
            a_zeilen == a@.len(),
            alt == old(bearbeiten).deep_view(),
            bearbeiten@.len() == zeilen,
            form_ok(a.deep_view(), b.deep_view(), anfang as int, anfang + zeilen, n as int),
            rest_ohne_ueberlauf(a.deep_view(), b.deep_view(), anfang as int, anfang + zeilen, n as int),
            forall|r: int| 0 <= r < zeilen ==> #[trigger] alt[r].len() >= n,
            bearbeiten.deep_view().len() == zeilen,
            forall|r: int| 0 <= r < zeilen ==> #[trigger] bearbeiten.deep_view()[r].len() == alt[r].len(),
            forall|r: int, j: int| 0 <= r < zeilen && 0 <= j < alt[r].len() ==> #[trigger] bearbeiten.deep_view()[r][j]
                == if r < z && j < n {
                simd_wert(a.deep_view(), b.deep_view(), anfang + r, j, n as int)
            } else {
                alt[r][j] as int
            },
    {
        let ghost vorher = bearbeiten.deep_view();
        proof {
            assert(vorher[z as int] == bearbeiten@[z as int]@);
            assert(form_ok(a.deep_view(), b.deep_view(), (anfang + z) as int, anfang + z + 1, n as int));
            assert(rest_ohne_ueberlauf(a.deep_view(), b.deep_view(), (anfang + z) as int, anfang + z + 1, n as int));
        }
        zeile_simd(a, b, anfang + z, n, &mut bearbeiten[z]);
        proof {
            let nachher = bearbeiten.deep_view();
            assert forall|r: int| 0 <= r < zeilen && r != z implies #[trigger] nachher[r] == vorher[r] by {
                assert(nachher[r] == bearbeiten@[r]@);
            }
            assert(nachher[z as int] == bearbeiten@[z as int]@);
        }
    }
}

} // verus!
