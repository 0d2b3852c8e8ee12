//! Square matrices of `u32` held as rows, the reference product and the
//! entry-wise comparison.
use vstd::prelude::*;

verus! {

/// Sum of the first `k` products `a[i][l] * b[l][j]` (l < k).
pub open spec fn teilsumme(a: Seq<Seq<u32>>, b: Seq<Seq<u32>>, i: int, j: int, k: int) -> int
    decreases k,
{
    if k <= 0 {
        0
    } else {
        teilsumme(a, b, i, j, k - 1) + a[i][k - 1] * b[k - 1][j]
    }
}

/// Entry `(i, j)` of the product of the leading `n × n` blocks of `a` and `b`.
pub open spec fn produkt(a: Seq<Seq<u32>>, b: Seq<Seq<u32>>, i: int, j: int, n: int) -> int {
    teilsumme(a, b, i, j, n)
}

/// `m` has at least `zeilen` rows, each with at least `spalten` entries.
pub open spec fn mindestens(m: Seq<Seq<u32>>, zeilen: int, spalten: int) -> bool {
    &&& m.len() >= zeilen
    &&& forall|i: int| 0 <= i < zeilen ==> #[trigger] m[i].len() >= spalten
}

/// Every entry of rows `von..bis` of the product fits in a `u32`.
pub open spec fn ohne_ueberlauf(a: Seq<Seq<u32>>, b: Seq<Seq<u32>>, von: int, bis: int, n: int) -> bool {
    forall|i: int, j: int| von <= i < bis && 0 <= j < n ==> #[trigger] produkt(a, b, i, j, n) <= u32::MAX
}

/// The shapes a kernel needs: rows `von..bis` of `a` have at least `n` entries,
/// and `b` has at least `n` rows of at least `n` entries.
pub open spec fn form_ok(a: Seq<Seq<u32>>, b: Seq<Seq<u32>>, von: int, bis: int, n: int) -> bool {
    &&& 0 <= von <= bis
    &&& a.len() >= bis
    &&& forall|i: int| von <= i < bis ==> #[trigger] a[i].len() >= n
    &&& mindestens(b, n, n)
}

/// What a kernel may be called on: the shapes fit, and the product entries of
/// rows `von..bis` fit in a `u32`.
pub open spec fn eingabe_ok(a: Seq<Seq<u32>>, b: Seq<Seq<u32>>, von: int, bis: int, n: int) -> bool {
    &&& form_ok(a, b, von, bis, n)
    &&& ohne_ueberlauf(a, b, von, bis, n)
}

/// `neu` is `alt` with the first `n` entries of each row `t < anzahl` replaced by
/// the product entries of matrix row `versatz + t`; everything else is unchanged.
pub open spec fn zeilen_eingetragen(
    alt: Seq<Seq<u32>>,
    neu: Seq<Seq<u32>>,
    a: Seq<Seq<u32>>,
    b: Seq<Seq<u32>>,
    versatz: int,
    anzahl: int,
    n: int,
) -> bool {
    &&& neu.len() == alt.len()
    &&& forall|t: int| 0 <= t < alt.len() ==> #[trigger] neu[t].len() == alt[t].len()
    &&& forall|t: int, j: int|
        0 <= t < alt.len() && 0 <= j < alt[t].len() ==> #[trigger] neu[t][j] == if t < anzahl && j < n {
            produkt(a, b, versatz + t, j, n)
        } else {
            alt[t][j] as int
        }
}

/// `neu` is the row `alt` with its first `n` entries replaced by row `i` of the product.
pub open spec fn zeile_eingetragen(
    alt: Seq<u32>,
    neu: Seq<u32>,
    a: Seq<Seq<u32>>,
    b: Seq<Seq<u32>>,
    i: int,
    n: int,
) -> bool {
    &&& neu.len() == alt.len()
    &&& forall|j: int| 0 <= j < alt.len() ==> #[trigger] neu[j] == if j < n {
            produkt(a, b, i, j, n)
        } else {
            alt[j] as int
        }
}

/// Each term `a[i][l] * b[l][j]` is a product of two naturals.
proof fn lemma_term_nichtneg(a: Seq<Seq<u32>>, b: Seq<Seq<u32>>, i: int, j: int, l: int)
    ensures
        0 <= a[i][l] * b[l][j],
{
    let x = a[i][l] as int;
    let y = b[l][j] as int;
    assert(0 <= x * y) by (nonlinear_arith)
        requires
            0 <= x,
            0 <= y,
    ;
}

/// Partial sums grow with the number of terms.
pub proof fn lemma_teilsumme_monoton(a: Seq<Seq<u32>>, b: Seq<Seq<u32>>, i: int, j: int, k1: int, k2: int)
    requires
        0 <= k1 <= k2,
    ensures
        0 <= teilsumme(a, b, i, j, k1) <= teilsumme(a, b, i, j, k2),
    decreases k2,
{
    if k2 > 0 {
        lemma_term_nichtneg(a, b, i, j, k2 - 1);
        if k1 < k2 {
            lemma_teilsumme_monoton(a, b, i, j, k1, k2 - 1);
        } else {
            lemma_teilsumme_monoton(a, b, i, j, k2 - 1, k2 - 1);
        }
    }
}

/// Row `i` of the product: the first `n` entries of `zeile` become
/// `sum_k a[i][k] * b[k][j]`; the rest of `zeile` stays as it was.
pub fn zeile_berechnen(a: &Vec<Vec<u32>>, b: &Vec<Vec<u32>>, i: usize, n: usize, zeile: &mut Vec<u32>)
    requires
        eingabe_ok(a.deep_view(), b.deep_view(), i as int, i + 1, n as int),
        old(zeile)@.len() >= n,
    ensures
        zeile_eingetragen(old(zeile)@, final(zeile)@, a.deep_view(), b.deep_view(), i as int, n as int),
{
    let ghost ad = a.deep_view();
    let ghost bd = b.deep_view();
    for j in 0..n
        invariant
            ad == a.deep_view(),
            bd == b.deep_view(),
            eingabe_ok(ad, bd, i as int, i + 1, n as int),
            zeile@.len() == old(zeile)@.len(),
            old(zeile)@.len() >= n,
            forall|l: int| 0 <= l < old(zeile)@.len() ==> #[trigger] zeile@[l] == if l < j {
                produkt(ad, bd, i as int, l, n as int)
            } else {
                old(zeile)@[l] as int
            },
    {
        let mut summe: u32 = 0;
        assert(produkt(ad, bd, i as int, j as int, n as int) <= u32::MAX);
        for k in 0..n
            invariant
                ad == a.deep_view(),
                bd == b.deep_view(),
                eingabe_ok(ad, bd, i as int, i + 1, n as int),
                j < n,
                summe == teilsumme(ad, bd, i as int, j as int, k as int),
                produkt(ad, bd, i as int, j as int, n as int) <= u32::MAX,
        {
            proof {
                lemma_teilsumme_monoton(ad, bd, i as int, j as int, k + 1, n as int);
                assert(a@[i as int]@ == ad[i as int]);
                assert(b@[k as int]@ == bd[k as int]);
            }
            summe = summe + a[i][k] * b[k][j];
        }
        zeile[j] = summe;
    }
}

/// The leading `n × n` blocks of `a` and `b` agree entry by entry.
pub open spec fn gleich(a: Seq<Seq<u32>>, b: Seq<Seq<u32>>, n: int) -> bool {
    forall|i: int, j: int| 0 <= i < n && 0 <= j < n ==> #[trigger] a[i][j] == #[trigger] b[i][j]
}

/// Single-threaded reference product: entry `(i, j)` of `c` becomes
/// `sum_k a[i][k] * b[k][j]` for all `i, j < n`; nothing else in `c` changes.
pub fn single(a: &Vec<Vec<u32>>, b: &Vec<Vec<u32>>, c: &mut Vec<Vec<u32>>, n: usize)
    requires
        eingabe_ok(a.deep_view(), b.deep_view(), 0, n as int, n as int),
        mindestens(old(c).deep_view(), n as int, n as int),
    ensures
        zeilen_eingetragen(old(c).deep_view(), final(c).deep_view(), a.deep_view(), b.deep_view(), 0, n as int, n as int),
{
    let ghost ad = a.deep_view();
    let ghost bd = b.deep_view();
    let ghost alt = c.deep_view();
    for i in 0..n
        invariant
            ad == a.deep_view(),
            bd == b.deep_view(),
            eingabe_ok(ad, bd, 0, n as int, n as int),
            mindestens(alt, n as int, n as int),
            zeilen_eingetragen(alt, c.deep_view(), ad, bd, 0, i as int, n as int),
    {
        proof {
            assert(c.deep_view()[i as int] == c@[i as int]@);
        }
        let ghost vorher = c.deep_view();
        zeile_berechnen(a, b, i, n, &mut c[i]);
        proof {
            let nachher = c.deep_view();
            assert forall|t: int| 0 <= t < alt.len() implies #[trigger] nachher[t] == if t == i {
                nachher[t]
            } else {
                vorher[t]
            } by {
                if t != i {
                    assert(nachher[t] == c@[t]@);
                }
            }
        }
    }
}

/// Whether the leading `n × n` blocks of `a` and `b` agree entry by entry.
pub fn vergleich(a: &Vec<Vec<u32>>, b: &Vec<Vec<u32>>, n: usize) -> (gleich_: bool)
    requires
        mindestens(a.deep_view(), n as int, n as int),
        mindestens(b.deep_view(), n as int, n as int),
    ensures
        gleich_ == gleich(a.deep_view(), b.deep_view(), n as int),
{
    for i in 0..n
        invariant
            mindestens(a.deep_view(), n as int, n as int),
            mindestens(b.deep_view(), n as int, n as int),
            forall|r: int, l: int| 0 <= r < i && 0 <= l < n ==> a.deep_view()[r][l] == b.deep_view()[r][l],
    {
        for j in 0..n
            invariant
                i < n,
                mindestens(a.deep_view(), n as int, n as int),
                mindestens(b.deep_view(), n as int, n as int),
                forall|r: int, l: int| 0 <= r < i && 0 <= l < n ==> a.deep_view()[r][l] == b.deep_view()[r][l],
                forall|l: int| 0 <= l < j ==> a.deep_view()[i as int][l] == b.deep_view()[i as int][l],
        {
            proof {
                assert(a.deep_view()[i as int] == a@[i as int]@);
                assert(b.deep_view()[i as int] == b@[i as int]@);
            }
            if a[i][j] != b[i][j] {
                return false;
            }
        }
    }
    true
}

/// Calls `rand::random_range(von..bis)`: a value drawn from the thread-local
/// generator, so only its range is promised: `von <= z < bis`. The call panics
/// on an empty range, which the `requires` rules out.
#[verifier::external_body]
fn zufall_im_bereich(von: u32, bis: u32) -> (z: u32)
    requires
        von < bis,
    ensures
        von <= z < bis,
{
    rand::random_range(von..bis)
}

/// Every entry of the leading `n × n` block of `m` is below `grenze`.
pub open spec fn eintraege_unter(m: Seq<Seq<u32>>, n: int, grenze: int) -> bool {
    forall|i: int, j: int| 0 <= i < n && 0 <= j < n ==> #[trigger] m[i][j] < grenze
}

/// `z` is a value that a draw from the random source over the whole range
/// `0..10` can give.
pub closed spec fn gezogen(z: u32) -> bool {
    call_ensures(zufall_im_bereich, (0u32, 10u32), z)
}

/// A drawn value lies in `0..10`.
pub proof fn lemma_gezogen(z: u32)
    requires
        gezogen(z),
    ensures
        z < 10,
{
}

/// An `n × n` matrix of random entries from `0..10`: each entry is a draw from
/// the random source over that whole range.
pub fn zufallswerte(n: usize) -> (matrix: Vec<Vec<u32>>)
    ensures
        matrix@.len() == n,
        forall|i: int| 0 <= i < n ==> #[trigger] matrix@[i]@.len() == n,
        eintraege_unter(matrix.deep_view(), n as int, 10),
        forall|i: int, j: int| 0 <= i < n && 0 <= j < n ==> gezogen(#[trigger] matrix.deep_view()[i][j]),
{
    let mut matrix: Vec<Vec<u32>> = Vec::with_capacity(n);
    for i in 0..n
        invariant
            matrix@.len() == i,
            forall|r: int| 0 <= r < i ==> #[trigger] matrix@[r]@.len() == n,
            forall|r: int, j: int| 0 <= r < i && 0 <= j < n ==> #[trigger] matrix@[r]@[j] < 10,
            forall|r: int, j: int| 0 <= r < i && 0 <= j < n ==> gezogen(#[trigger] matrix@[r]@[j]),
    {
        let mut zeile: Vec<u32> = Vec::with_capacity(n);
        for j in 0..n
            invariant
                zeile@.len() == j,
                forall|l: int| 0 <= l < j ==> #[trigger] zeile@[l] < 10,
                forall|l: int| 0 <= l < j ==> gezogen(#[trigger] zeile@[l]),
        {
            zeile.push(zufall_im_bereich(0, 10));
        }
        matrix.push(zeile);
    }
    proof {
        assert forall|i: int, j: int| 0 <= i < n && 0 <= j < n implies #[trigger] matrix.deep_view()[i][j] < 10
            && gezogen(matrix.deep_view()[i][j]) by {
            assert(matrix.deep_view()[i] == matrix@[i]@);
        }
    }
    matrix
}

/// Two results that both hold the `n × n` product in their leading block agree
/// there, whatever they held before: any two correct runs compare equal.
pub proof fn lemma_gleiches_ergebnis(
    alt1: Seq<Seq<u32>>,
    neu1: Seq<Seq<u32>>,
    alt2: Seq<Seq<u32>>,
    neu2: Seq<Seq<u32>>,
    a: Seq<Seq<u32>>,
    b: Seq<Seq<u32>>,
    n: int,
)
    requires
        mindestens(alt1, n, n),
        mindestens(alt2, n, n),
        zeilen_eingetragen(alt1, neu1, a, b, 0, n, n),
        zeilen_eingetragen(alt2, neu2, a, b, 0, n, n),
    ensures
        gleich(neu1, neu2, n),
{
    assert forall|i: int, j: int| 0 <= i < n && 0 <= j < n implies #[trigger] neu1[i][j] == #[trigger] neu2[i][j] by {
        assert(neu1[i][j] == produkt(a, b, i, j, n));
        assert(neu2[i][j] == produkt(a, b, i, j, n));
    }
}

/// With entries below 10 every product term is at most 81, so the first `k`
/// terms add up to at most `81 * k`.
pub proof fn lemma_teilsumme_klein(a: Seq<Seq<u32>>, b: Seq<Seq<u32>>, i: int, j: int, k: int, n: int)
    requires
        0 <= k <= n,
        0 <= i < n,
        0 <= j < n,
        mindestens(a, n, n),
        mindestens(b, n, n),
        eintraege_unter(a, n, 10),
        eintraege_unter(b, n, 10),
    ensures
        teilsumme(a, b, i, j, k) <= 81 * k,
    decreases k,
{
    if k > 0 {
        lemma_teilsumme_klein(a, b, i, j, k - 1, n);
        let x = a[i][k - 1] as int;
        let y = b[k - 1][j] as int;
        assert(a[i][k - 1] < 10);
        assert(b[k - 1][j] < 10);
        assert(x * y <= 81) by (nonlinear_arith)
            requires
                0 <= x < 10,
                0 <= y < 10,
        ;
    }
}

/// Matrices of random entries (below 10) can be multiplied by every kernel as
/// long as `81 * n` fits in a `u32`: no entry of the product overflows.
pub proof fn lemma_zufall_ohne_ueberlauf(a: Seq<Seq<u32>>, b: Seq<Seq<u32>>, n: int)
    requires
        n >= 0,
        mindestens(a, n, n),
        mindestens(b, n, n),
        eintraege_unter(a, n, 10),
        eintraege_unter(b, n, 10),
        81 * n <= u32::MAX,
    ensures
        eingabe_ok(a, b, 0, n, n),
{
    assert forall|i: int, j: int| 0 <= i < n && 0 <= j < n implies #[trigger] produkt(a, b, i, j, n) <= u32::MAX by {
        lemma_teilsumme_klein(a, b, i, j, n, n);
    }
}

/// Every entry of the leading `n × n` block of `m` is at most `g`.
pub open spec fn eintraege_hoechstens(m: Seq<Seq<u32>>, n: int, g: int) -> bool {
    forall|i: int, j: int| 0 <= i < n && 0 <= j < n ==> #[trigger] m[i][j] <= g
}

/// With all entries at most `g`, the first `k` terms add up to at most `k * g * g`.
pub proof fn lemma_teilsumme_schranke(a: Seq<Seq<u32>>, b: Seq<Seq<u32>>, i: int, j: int, k: int, n: int, g: int)
    requires
        0 <= k <= n,
        0 <= i < n,
        0 <= j < n,
        g >= 0,
        eintraege_hoechstens(a, n, g),
        eintraege_hoechstens(b, n, g),
    ensures
        teilsumme(a, b, i, j, k) <= k * g * g,
    decreases k,
{
    if k > 0 {
        lemma_teilsumme_schranke(a, b, i, j, k - 1, n, g);
        let x = a[i][k - 1] as int;
        let y = b[k - 1][j] as int;
        assert(a[i][k - 1] <= g);
        assert(b[k - 1][j] <= g);
        assert(x * y <= g * g) by (nonlinear_arith)
            requires
                0 <= x <= g,
                0 <= y <= g,
        ;
        assert((k - 1) * g * g + g * g == k * g * g) by (nonlinear_arith);
    }
}

/// The largest entry of the leading `n × n` blocks of `a` and `b`.
fn groesster_eintrag(a: &Vec<Vec<u32>>, b: &Vec<Vec<u32>>, n: usize) -> (g: u32)
    requires
        mindestens(a.deep_view(), n as int, n as int),
        mindestens(b.deep_view(), n as int, n as int),
    ensures
        eintraege_hoechstens(a.deep_view(), n as int, g as int),
        eintraege_hoechstens(b.deep_view(), n as int, g as int),
{
    let mut g: u32 = 0;
    for i in 0..n
        invariant
            mindestens(a.deep_view(), n as int, n as int),
            mindestens(b.deep_view(), n as int, n as int),
            forall|r: int, l: int| 0 <= r < i && 0 <= l < n ==> a.deep_view()[r][l] <= g && b.deep_view()[r][l] <= g,
    {
        proof {
            assert(a.deep_view()[i as int] == a@[i as int]@);
            assert(b.deep_view()[i as int] == b@[i as int]@);
        }
        for l in 0..n
            invariant
                i < n,
                mindestens(a.deep_view(), n as int, n as int),
                mindestens(b.deep_view(), n as int, n as int),
                a.deep_view()[i as int] == a@[i as int]@,
                b.deep_view()[i as int] == b@[i as int]@,
                forall|r: int, m: int| 0 <= r < i && 0 <= m < n ==> a.deep_view()[r][m] <= g && b.deep_view()[r][m] <= g,
                forall|m: int| 0 <= m < l ==> a.deep_view()[i as int][m] <= g && b.deep_view()[i as int][m] <= g,
        {
            if a[i][l] > g {
                g = a[i][l];
            }
            if b[i][l] > g {
                g = b[i][l];
            }
        }
    }
    g
}

/// Whether every entry of the `n × n` product of `a` and `b` fits in a `u32`,
/// as the kernels require: at once when `n` times the square of the largest
/// entry fits, otherwise by adding up every entry until one passes the limit.
pub fn ueberlauf_frei(a: &Vec<Vec<u32>>, b: &Vec<Vec<u32>>, n: usize) -> (ok: bool)
    requires
        mindestens(a.deep_view(), n as int, n as int),
        mindestens(b.deep_view(), n as int, n as int),
    ensures
        ok == ohne_ueberlauf(a.deep_view(), b.deep_view(), 0, n as int, n as int),
{
    let ghost ad = a.deep_view();
    let ghost bd = b.deep_view();
    let g = groesster_eintrag(a, b, n);
    let gi = g as u64;
    proof {
        assert(gi * gi <= 0xFFFF_FFFF * 0xFFFF_FFFF) by (nonlinear_arith)
            requires
                gi <= 0xFFFF_FFFF,
        ;
    }
    let gg: u64 = gi * gi;
    let nn = n as u128;
    let ggg = gg as u128;
    proof {
        assert(nn * ggg <= 0xFFFF_FFFF_FFFF_FFFF * 0xFFFF_FFFF_FFFF_FFFF) by (nonlinear_arith)
            requires
                nn <= 0xFFFF_FFFF_FFFF_FFFF,
                ggg <= 0xFFFF_FFFF_FFFF_FFFF,
        ;
        assert(nn * ggg == n * g * g) by (nonlinear_arith)
            requires
                nn == n,
                ggg == g * g,
        ;
    }
    if nn * ggg <= 0xFFFF_FFFF {
        proof {
            assert forall|i: int, j: int| 0 <= i < n && 0 <= j < n implies #[trigger] produkt(ad, bd, i, j, n as int) <= u32::MAX by {
                lemma_teilsumme_schranke(ad, bd, i, j, n as int, n as int, g as int);
            }
        }
        return true;
    }
    for i in 0..n
        invariant
            ad == a.deep_view(),
            bd == b.deep_view(),
            mindestens(ad, n as int, n as int),
            mindestens(bd, n as int, n as int),
            forall|r: int, j: int| 0 <= r < i && 0 <= j < n ==> #[trigger] produkt(ad, bd, r, j, n as int) <= u32::MAX,
    {
        for j in 0..n
            invariant
                i < n,
                ad == a.deep_view(),
                bd == b.deep_view(),
                mindestens(ad, n as int, n as int),
                mindestens(bd, n as int, n as int),
                forall|r: int, l: int| 0 <= r < i && 0 <= l < n ==> #[trigger] produkt(ad, bd, r, l, n as int) <= u32::MAX,
                forall|l: int| 0 <= l < j ==> #[trigger] produkt(ad, bd, i as int, l, n as int) <= u32::MAX,
        {
            let mut summe: u64 = 0;
            for k in 0..n
                invariant
                    i < n,
                    j < n,
                    ad == a.deep_view(),
                    bd == b.deep_view(),
                    mindestens(ad, n as int, n as int),
                    mindestens(bd, n as int, n as int),
                    summe == teilsumme(ad, bd, i as int, j as int, k as int),
                    summe <= u32::MAX,
            {
                proof {
                    assert(a@[i as int]@ == ad[i as int]);
                    assert(b@[k as int]@ == bd[k as int]);
                    let x = ad[i as int][k as int] as int;
                    let y = bd[k as int][j as int] as int;
                    assert(x * y <= 0xFFFF_FFFF * 0xFFFF_FFFF) by (nonlinear_arith)
                        requires
                            0 <= x <= 0xFFFF_FFFF,
                            0 <= y <= 0xFFFF_FFFF,
                    ;
                }
                summe = summe + (a[i][k] as u64) * (b[k][j] as u64);
                if summe > 0xFFFF_FFFF {
                    proof {
                        lemma_teilsumme_monoton(ad, bd, i as int, j as int, k + 1, n as int);
                        assert(produkt(ad, bd, i as int, j as int, n as int) > u32::MAX);
                    }
                    return false;
                }
            }
        }
    }
    true
}

} // verus!
