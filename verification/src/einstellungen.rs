//! The run's settings and the list of matrix sizes they ask for.
use vstd::prelude::*;
use vstd::string::StringExecFns;
use crate::text::zeichen;
use vstd::arithmetic::power2::{pow2, lemma_pow2_unfold, lemma_pow2_pos, lemma_pow2_strictly_increases};

verus! {

/// The settings of a run, as given on the command line.
pub struct Einstellungen {
    /// Largest matrix size; the sizes run from 2 up to it.
    pub n_max: u32,
    /// Which algorithm to measure.
    pub modus: u32,
    /// Name of the file that receives the results.
    pub name: String,
    /// Whether to check every result against the single-threaded product and
    /// print diagnostics.
    pub debug: bool,
}

/// `s` ends in `.txt`, letters in either case: what
/// `s.to_lowercase().ends_with(".txt")` tests (no character other than `.`,
/// `t`, `T`, `x` and `X` lowercases to text ending in one of `.`, `t`, `x`).
pub open spec fn endet_auf_txt(s: Seq<char>) -> bool {
    &&& s.len() >= 4
    &&& s[s.len() - 4] == '.'
    &&& (s[s.len() - 3] == 't' || s[s.len() - 3] == 'T')
    &&& (s[s.len() - 2] == 'x' || s[s.len() - 2] == 'X')
    &&& (s[s.len() - 1] == 't' || s[s.len() - 1] == 'T')
}

/// Appends `.txt` to the file name unless it already ends in `.txt` in any case.
pub fn dateiname_ergaenzen(name: &mut String)
    ensures
        final(name)@ == if endet_auf_txt(old(name)@) {
            old(name)@
        } else {
            old(name)@ + seq!['.', 't', 'x', 't']
        },
        final(name)@.len() >= 4,
        final(name)@[final(name)@.len() - 4] == '.',
        final(name)@[final(name)@.len() - 3] == 't' || final(name)@[final(name)@.len() - 3] == 'T',
        final(name)@[final(name)@.len() - 2] == 'x' || final(name)@[final(name)@.len() - 2] == 'X',
        final(name)@[final(name)@.len() - 1] == 't' || final(name)@[final(name)@.len() - 1] == 'T',
{
    let v = zeichen(name.as_str());
    let l = v.len();
    let endet: bool = l >= 4 && v[l - 4] == '.' && (v[l - 3] == 't' || v[l - 3] == 'T') && (v[l - 2] == 'x' || v[l
        - 2] == 'X') && (v[l - 1] == 't' || v[l - 1] == 'T');
    if !endet {
        let endung = ".txt";
        proof {
            reveal_strlit(".txt");
            assert(endung@ == seq!['.', 't', 'x', 't']);
        }
        name.append(endung);
    }
}

/// What completing a file name does, character by character: the result ends
/// in `.`, `t`, `x`, `t` (each letter in either case) and starts with the old
/// name; a name whose last four characters already read so is kept as it is,
/// and every other name, whatever its length or extension, gets exactly `.txt`
/// appended.
pub proof fn lemma_dateiname(alt: Seq<char>, neu: Seq<char>)
    requires
        neu == (if endet_auf_txt(alt) { alt } else { alt + seq!['.', 't', 'x', 't'] }),
    ensures
        neu.len() >= 4,
        neu[neu.len() - 4] == '.',
        neu[neu.len() - 3] == 't' || neu[neu.len() - 3] == 'T',
        neu[neu.len() - 2] == 'x' || neu[neu.len() - 2] == 'X',
        neu[neu.len() - 1] == 't' || neu[neu.len() - 1] == 'T',
        neu.subrange(0, alt.len() as int) == alt,
        (alt.len() >= 4 && alt[alt.len() - 4] == '.' && (alt[alt.len() - 3] == 't' || alt[alt.len() - 3] == 'T')
            && (alt[alt.len() - 2] == 'x' || alt[alt.len() - 2] == 'X') && (alt[alt.len() - 1] == 't'
            || alt[alt.len() - 1] == 'T')) ==> neu == alt,
        (alt.len() < 4 || alt[alt.len() - 4] != '.' || (alt[alt.len() - 3] != 't' && alt[alt.len() - 3] != 'T')
            || (alt[alt.len() - 2] != 'x' && alt[alt.len() - 2] != 'X') || (alt[alt.len() - 1] != 't'
            && alt[alt.len() - 1] != 'T')) ==> neu == alt + seq!['.', 't', 'x', 't'],
{
    assert(neu.subrange(0, alt.len() as int) =~= alt);
}

/// The name of the algorithm for mode `modus`, as the diagnostics print it.
pub fn modus_text(modus: u32) -> (text: &'static str)
    ensures
        modus == 1 ==> text@ == "single Thread"@,
        modus == 2 ==> text@ == "manuelle Threads"@,
        modus == 3 ==> text@ == "Rayon"@,
        !(1 <= modus <= 3) ==> text@ == "Fehler, Modus nicht bekannt"@,
{
    match modus {
        1 => "single Thread",
        2 => "manuelle Threads",
        3 => "Rayon",
        _ => "Fehler, Modus nicht bekannt",
    }
}

/// Step from one matrix size to the next: it grows with the size.
pub open spec fn schritt(letztes: int) -> int {
    if 2 <= letztes <= 9 {
        4
    } else if 10 <= letztes <= 99 {
        6
    } else if 100 <= letztes <= 999 {
        100
    } else if 1000 <= letztes <= 9999 {
        500
    } else {
        1000
    }
}

/// From size 2 on, the step never shrinks as the sizes grow.
pub proof fn lemma_schritt_waechst(x: int, y: int)
    requires
        2 <= x <= y,
    ensures
        0 < schritt(x) <= schritt(y),
{
}

/// The first power of two reached by doubling `z` that lies above `letztes`.
pub open spec fn ueber(z: int, letztes: int) -> int
    decreases if z <= letztes { letztes + 1 - z } else { 0 },
{
    if z >= 1 && z <= letztes {
        ueber(2 * z, letztes)
    } else {
        z
    }
}

/// The powers `z, 2z, 4z, ...` below `aktuell` and not above `ende`, in order.
pub open spec fn zweier_bis(z: int, aktuell: int, ende: int) -> Seq<int>
    decreases if z < aktuell { aktuell - z } else { 0 },
{
    if z >= 1 && z < aktuell && z <= ende {
        seq![z].add(zweier_bis(2 * z, aktuell, ende))
    } else {
        Seq::empty()
    }
}

/// The first of the powers `z, 2z, 4z, ...` not taken by `zweier_bis`.
pub open spec fn zweier_nach(z: int, aktuell: int, ende: int) -> int
    decreases if z < aktuell { aktuell - z } else { 0 },
{
    if z >= 1 && z < aktuell && z <= ende {
        zweier_nach(2 * z, aktuell, ende)
    } else {
        z
    }
}

/// The sizes that follow `letztes` up to `ende`: each step adds the powers of two
/// it passes (starting the search at `zweier`) and then `letztes + schritt`,
/// except that the step that reaches `ende` adds `ende` instead.
pub open spec fn folge(letztes: int, zweier: int, ende: int) -> Seq<int>
    decreases ende - letztes,
{
    if letztes >= ende {
        Seq::empty()
    } else {
        let z = ueber(zweier, letztes);
        let aktuell = letztes + schritt(letztes);
        let potenzen = zweier_bis(z, aktuell, ende);
        if aktuell >= ende {
            potenzen.push(ende)
        } else {
            potenzen.push(aktuell).add(folge(aktuell, zweier_nach(z, aktuell, ende), ende))
        }
    }
}

/// The matrix sizes from `anfang` to `ende`: `anfang`, then the sizes of
/// `folge`, with the search for powers of two starting at 4.
pub open spec fn groessen(anfang: int, ende: int) -> Seq<int> {
    seq![anfang].add(folge(anfang, 4, ende))
}

/// `s` never goes down.
pub open spec fn aufsteigend(s: Seq<int>) -> bool {
    forall|i: int, j: int| 0 <= i <= j < s.len() ==> #[trigger] s[i] <= #[trigger] s[j]
}

proof fn lemma_ueber(z: int, letztes: int)
    requires
        z >= 1,
    ensures
        ueber(z, letztes) >= z,
        ueber(z, letztes) > letztes,
    decreases if z <= letztes { letztes + 1 - z } else { 0 },
{
    if z <= letztes {
        lemma_ueber(2 * z, letztes);
    }
}

proof fn lemma_zweier_bis(z: int, aktuell: int, ende: int)
    requires
        z >= 1,
    ensures
        forall|i: int| 0 <= i < zweier_bis(z, aktuell, ende).len() ==> z <= #[trigger] zweier_bis(z, aktuell, ende)[i] < aktuell
            && zweier_bis(z, aktuell, ende)[i] <= ende,
        aufsteigend(zweier_bis(z, aktuell, ende)),
    decreases if z < aktuell { aktuell - z } else { 0 },
{
    if z < aktuell && z <= ende {
        lemma_zweier_bis(2 * z, aktuell, ende);
        let rest = zweier_bis(2 * z, aktuell, ende);
        let s = zweier_bis(z, aktuell, ende);
        assert(s == seq![z].add(rest));
        assert forall|i: int| 0 <= i < s.len() implies z <= #[trigger] s[i] < aktuell && s[i] <= ende by {
            if i > 0 {
                assert(s[i] == rest[i - 1]);
            }
        }
        assert forall|i: int, j: int| 0 <= i <= j < s.len() implies #[trigger] s[i] <= #[trigger] s[j] by {
            if i > 0 {
                assert(s[i] == rest[i - 1]);
                assert(s[j] == rest[j - 1]);
            } else if j > 0 {
                assert(s[j] == rest[j - 1]);
            }
        }
    }
}

/// The sizes after `letztes` lie above it and not above `ende`, never go down,
/// and end with `ende` when `letztes` is below `ende`.
pub proof fn lemma_folge(letztes: int, zweier: int, ende: int)
    requires
        zweier >= 1,
    ensures
        forall|i: int| 0 <= i < folge(letztes, zweier, ende).len() ==> letztes < #[trigger] folge(letztes, zweier, ende)[i] <= ende,
        aufsteigend(folge(letztes, zweier, ende)),
        letztes < ende ==> folge(letztes, zweier, ende).len() > 0 && folge(letztes, zweier, ende).last() == ende,
    decreases ende - letztes,
{
    if letztes < ende {
        let z = ueber(zweier, letztes);
        let aktuell = letztes + schritt(letztes);
        let potenzen = zweier_bis(z, aktuell, ende);
        lemma_ueber(zweier, letztes);
        lemma_zweier_bis(z, aktuell, ende);
        let s = folge(letztes, zweier, ende);
        if aktuell >= ende {
            assert(s == potenzen.push(ende));
            assert forall|i: int, j: int| 0 <= i <= j < s.len() implies #[trigger] s[i] <= #[trigger] s[j] by {
                if j < potenzen.len() {
                    assert(s[i] == potenzen[i] && s[j] == potenzen[j]);
                } else if i < potenzen.len() {
                    assert(s[i] == potenzen[i]);
                }
            }
            assert forall|i: int| 0 <= i < s.len() implies letztes < #[trigger] s[i] <= ende by {
                if i < potenzen.len() {
                    assert(s[i] == potenzen[i]);
                }
            }
        } else {
            let zn = zweier_nach(z, aktuell, ende);
            lemma_zweier_nach(z, aktuell, ende);
            lemma_folge(aktuell, zn, ende);
            let rest = folge(aktuell, zn, ende);
            let vorne = potenzen.push(aktuell);
            assert(s == vorne.add(rest));
            assert forall|i: int| 0 <= i < s.len() implies letztes < #[trigger] s[i] <= ende by {
                if i < potenzen.len() {
                    assert(s[i] == potenzen[i]);
                } else if i >= vorne.len() {
                    assert(s[i] == rest[i - vorne.len()]);
                }
            }
            assert forall|i: int, j: int| 0 <= i <= j < s.len() implies #[trigger] s[i] <= #[trigger] s[j] by {
                if i < potenzen.len() {
                    assert(s[i] == potenzen[i]);
                } else if i >= vorne.len() {
                    assert(s[i] == rest[i - vorne.len()]);
                }
                if j < potenzen.len() {
                    assert(s[j] == potenzen[j]);
                } else if j >= vorne.len() {
                    assert(s[j] == rest[j - vorne.len()]);
                }
            }
            assert(s.last() == rest.last());
        }
    }
}

proof fn lemma_zweier_nach(z: int, aktuell: int, ende: int)
    requires
        z >= 1,
    ensures
        zweier_nach(z, aktuell, ende) >= z,
    decreases if z < aktuell { aktuell - z } else { 0 },
{
    if z < aktuell && z <= ende {
        lemma_zweier_nach(2 * z, aktuell, ende);
    }
}

/// The list of sizes starts at `anfang`, never goes down, stays between `anfang`
/// and `ende`, and ends with `ende` when `anfang` is below it.
pub proof fn lemma_groessen(anfang: int, ende: int)
    ensures
        groessen(anfang, ende)[0] == anfang,
        aufsteigend(groessen(anfang, ende)),
        forall|i: int| 0 <= i < groessen(anfang, ende).len() ==> anfang <= #[trigger] groessen(anfang, ende)[i],
        anfang <= ende ==> forall|i: int| 0 <= i < groessen(anfang, ende).len() ==> #[trigger] groessen(anfang, ende)[i] <= ende,
        anfang < ende ==> groessen(anfang, ende).last() == ende,
{
    lemma_folge(anfang, 4, ende);
    let f = folge(anfang, 4, ende);
    let g = groessen(anfang, ende);
    assert(g == seq![anfang].add(f));
    assert forall|i: int| 1 <= i < g.len() implies #[trigger] g[i] == f[i - 1] by {}
    assert forall|i: int, j: int| 0 <= i <= j < g.len() implies #[trigger] g[i] <= #[trigger] g[j] by {
        if i > 0 {
            assert(g[i] == f[i - 1]);
        }
        if j > 0 {
            assert(g[j] == f[j - 1]);
        }
    }
    assert forall|i: int| 0 <= i < g.len() implies anfang <= #[trigger] g[i] by {
        if i > 0 {
            assert(g[i] == f[i - 1]);
        }
    }
    if anfang < ende {
        assert(g.last() == f.last());
    }
}

/// Doubling `pow2(m)` up to the first power above `letztes` passes only powers
/// that are not above `letztes`.
proof fn lemma_ueber_potenz(m: nat, letztes: int) -> (m2: nat)
    ensures
        m2 >= m,
        ueber(pow2(m) as int, letztes) == pow2(m2),
        forall|j: nat| m <= j < m2 ==> #[trigger] pow2(j) <= letztes,
    decreases if pow2(m) <= letztes { letztes + 1 - pow2(m) } else { 0 },
{
    lemma_pow2_pos(m);
    if pow2(m) <= letztes {
        lemma_pow2_unfold(m + 1);
        let m2 = lemma_ueber_potenz(m + 1, letztes);
        assert forall|j: nat| m <= j < m2 implies #[trigger] pow2(j) <= letztes by {
            if j > m {
                assert(m + 1 <= j);
            }
        }
        m2
    } else {
        m
    }
}

/// The powers taken by `zweier_bis` from `pow2(m)` on are exactly the powers
/// below the one where it stops, and all of them lie below `aktuell`.
proof fn lemma_kette(m: nat, aktuell: int, ende: int) -> (m2: nat)
    ensures
        m2 >= m,
        zweier_nach(pow2(m) as int, aktuell, ende) == pow2(m2),
        !(pow2(m2) < aktuell && pow2(m2) <= ende),
        forall|j: nat| m <= j < m2 ==> pow2(j) < aktuell && zweier_bis(pow2(m) as int, aktuell, ende).contains(#[trigger] pow2(j) as int),
    decreases if pow2(m) < aktuell { aktuell - pow2(m) } else { 0 },
{
    lemma_pow2_pos(m);
    let z = pow2(m) as int;
    if z < aktuell && z <= ende {
        lemma_pow2_unfold(m + 1);
        let m2 = lemma_kette(m + 1, aktuell, ende);
        let rest = zweier_bis(2 * z, aktuell, ende);
        let s = zweier_bis(z, aktuell, ende);
        assert(s == seq![z].add(rest));
        assert forall|j: nat| m <= j < m2 implies pow2(j) < aktuell && s.contains(#[trigger] pow2(j) as int) by {
            if j == m {
                assert(s[0] == z);
            } else {
                assert(m + 1 <= j);
                assert(rest.contains(pow2(j) as int));
                let i = choose|i: int| 0 <= i < rest.len() && rest[i] == pow2(j) as int;
                assert(s[i + 1] == rest[i]);
            }
        }
        m2
    } else {
        m
    }
}

/// Every power of two from the search start on that lies above `letztes` and not
/// above `ende` is among the sizes that follow `letztes`.
proof fn lemma_folge_potenzen(letztes: int, m: nat, ende: int, k: nat)
    requires
        m >= 2,
        forall|j: nat| 2 <= j < m ==> #[trigger] pow2(j) <= letztes,
        k >= 2,
        letztes < pow2(k) <= ende,
    ensures
        folge(letztes, pow2(m) as int, ende).contains(pow2(k) as int),
    decreases ende - letztes,
{
    let p = pow2(k) as int;
    let m1 = lemma_ueber_potenz(m, letztes);
    let z = pow2(m1) as int;
    let aktuell = letztes + schritt(letztes);
    let potenzen = zweier_bis(z, aktuell, ende);
    let m2 = lemma_kette(m1, aktuell, ende);
    let s = folge(letztes, pow2(m) as int, ende);
    if k < m1 {
        if k < m {
            assert(pow2(k) <= letztes);
        } else {
            assert(pow2(k) <= letztes);
        }
    }
    assert(k >= m1);
    if k < m2 {
        assert(potenzen.contains(p));
        let i = choose|i: int| 0 <= i < potenzen.len() && potenzen[i] == p;
        if aktuell >= ende {
            assert(s == potenzen.push(ende));
            assert(s[i] == p);
        } else {
            let rest = folge(aktuell, pow2(m2) as int, ende);
            assert(s == potenzen.push(aktuell).add(rest));
            assert(s[i] == p);
        }
    } else {
        if k > m2 {
            lemma_pow2_strictly_increases(m2, k);
        }
        assert(pow2(m2) <= p);
        assert(aktuell <= p);
        if aktuell >= ende {
            assert(s == potenzen.push(ende));
            assert(p == ende);
            assert(s[potenzen.len() as int] == p);
        } else {
            let rest = folge(aktuell, pow2(m2) as int, ende);
            assert(s == potenzen.push(aktuell).add(rest));
            if p == aktuell {
                assert(s[potenzen.len() as int] == p);
            } else {
                assert forall|j: nat| 2 <= j < m2 implies #[trigger] pow2(j) <= aktuell by {
                    if j < m1 {
                        if j < m {
                            assert(pow2(j) <= letztes);
                        } else {
                            assert(pow2(j) <= letztes);
                        }
                    }
                }
                lemma_folge_potenzen(aktuell, m2, ende, k);
                let i = choose|i: int| 0 <= i < rest.len() && rest[i] == p;
                assert(s[potenzen.len() + 1 + i] == rest[i]);
            }
        }
    }
}

/// Every power of two from 4 on that lies above `anfang` and not above `ende` is
/// one of the matrix sizes.
pub proof fn lemma_groessen_potenzen(anfang: int, ende: int, k: nat)
    requires
        k >= 2,
        anfang < pow2(k) <= ende,
    ensures
        groessen(anfang, ende).contains(pow2(k) as int),
{
    lemma_pow2_unfold(2);
    lemma_pow2_unfold(1);
    assert(pow2(0) == 1) by {
        vstd::arithmetic::power2::lemma2_to64();
    }
    lemma_folge_potenzen(anfang, 2, ende, k);
    let f = folge(anfang, 4, ende);
    let i = choose|i: int| 0 <= i < f.len() && f[i] == pow2(k) as int;
    assert(groessen(anfang, ende)[i + 1] == f[i]);
}

/// `x` is one of the powers of two `4, 8, 16, ...` that the list takes in
/// besides the regular steps.
pub open spec fn ist_zweierpotenz(x: int) -> bool {
    exists|k: nat| k >= 2 && #[trigger] pow2(k) == x
}

/// Every power of two that the search from `pow2(m)` on takes in is a power of
/// two from 4 on.
proof fn lemma_zweier_bis_potenzen(m: nat, aktuell: int, ende: int)
    requires
        m >= 2,
    ensures
        forall|i: int| 0 <= i < zweier_bis(pow2(m) as int, aktuell, ende).len() ==> ist_zweierpotenz(
            #[trigger] zweier_bis(pow2(m) as int, aktuell, ende)[i],
        ),
    decreases if pow2(m) < aktuell { aktuell - pow2(m) } else { 0 },
{
    lemma_pow2_pos(m);
    let z = pow2(m) as int;
    if z < aktuell && z <= ende {
        lemma_pow2_unfold(m + 1);
        lemma_zweier_bis_potenzen(m + 1, aktuell, ende);
        let rest = zweier_bis(2 * z, aktuell, ende);
        let s = zweier_bis(z, aktuell, ende);
        assert(s == seq![z].add(rest));
        assert forall|i: int| 0 <= i < s.len() implies ist_zweierpotenz(#[trigger] s[i]) by {
            if i == 0 {
                assert(pow2(m) == s[0]);
            } else {
                assert(s[i] == rest[i - 1]);
            }
        }
    }
}

/// In the sizes that follow `letztes`, the size one step after `letztes`
/// comes, and so does the size one step after every size that is not a power
/// of two, as long as it lies below `ende`.
#[verifier::spinoff_prover]
#[verifier::rlimit(40)]
proof fn lemma_folge_schritte(letztes: int, m: nat, ende: int)
    requires
        m >= 2,
    ensures
        letztes + schritt(letztes) < ende ==> folge(letztes, pow2(m) as int, ende).contains(
            letztes + schritt(letztes),
        ),
        forall|i: int|
            0 <= i < folge(letztes, pow2(m) as int, ende).len() && !ist_zweierpotenz(
                #[trigger] folge(letztes, pow2(m) as int, ende)[i],
            ) && folge(letztes, pow2(m) as int, ende)[i] + schritt(folge(letztes, pow2(m) as int, ende)[i]) < ende
                ==> folge(letztes, pow2(m) as int, ende).contains(
                folge(letztes, pow2(m) as int, ende)[i] + schritt(folge(letztes, pow2(m) as int, ende)[i]),
            ),
    decreases ende - letztes,
{
    if letztes < ende {
        let m1 = lemma_ueber_potenz(m, letztes);
        let z = pow2(m1) as int;
        let aktuell = letztes + schritt(letztes);
        let potenzen = zweier_bis(z, aktuell, ende);
        lemma_zweier_bis_potenzen(m1, aktuell, ende);
        let s = folge(letztes, pow2(m) as int, ende);
        if aktuell >= ende {
            assert(s == potenzen.push(ende));
            assert forall|i: int|
                0 <= i < s.len() && !ist_zweierpotenz(#[trigger] s[i]) && s[i] + schritt(s[i]) < ende implies s.contains(
                s[i] + schritt(s[i]),
            ) by {
                if i < potenzen.len() {
                    assert(s[i] == potenzen[i]);
                }
            }
        } else {
            let m2 = lemma_kette(m1, aktuell, ende);
            lemma_folge_schritte(aktuell, m2, ende);
            let rest = folge(aktuell, pow2(m2) as int, ende);
            let l = potenzen.len() as int;
            assert(s == potenzen.push(aktuell).add(rest));
            assert(s[l] == aktuell);
            assert forall|i: int|
                0 <= i < s.len() && !ist_zweierpotenz(#[trigger] s[i]) && s[i] + schritt(s[i]) < ende implies s.contains(
                s[i] + schritt(s[i]),
            ) by {
                if i < l {
                    assert(s[i] == potenzen[i]);
                } else if i == l {
                    let k = choose|k: int| 0 <= k < rest.len() && rest[k] == aktuell + schritt(aktuell);
                    assert(s[l + 1 + k] == rest[k]);
                } else {
                    let j = i - l - 1;
                    assert(s[i] == rest[j]);
                    let y = rest[j];
                    let k = choose|k: int| 0 <= k < rest.len() && rest[k] == y + schritt(y);
                    assert(s[l + 1 + k] == rest[k]);
                }
            }
        }
    }
}

/// The steps of the list of matrix sizes: after every size `x` of the list that
/// is not one of the added powers of two, the size `x + 4` follows when `x` is
/// from 2 to 9, `x + 6` from 10 to 99, `x + 100` from 100 to 999, `x + 500` from
/// 1000 to 9999 and `x + 1000` otherwise, whenever that size lies below `ende`.
pub proof fn lemma_schrittweite(anfang: int, ende: int, liste: Seq<int>, x: int)
    requires
        liste == groessen(anfang, ende),
        liste.contains(x),
        !ist_zweierpotenz(x),
    ensures
        2 <= x <= 9 && x + 4 < ende ==> liste.contains(x + 4),
        10 <= x <= 99 && x + 6 < ende ==> liste.contains(x + 6),
        100 <= x <= 999 && x + 100 < ende ==> liste.contains(x + 100),
        1000 <= x <= 9999 && x + 500 < ende ==> liste.contains(x + 500),
        (x < 2 || 10000 <= x) && x + 1000 < ende ==> liste.contains(x + 1000),
{
    vstd::arithmetic::power2::lemma2_to64();
    lemma_folge_schritte(anfang, 2, ende);
    let f = folge(anfang, 4, ende);
    assert(liste == seq![anfang].add(f));
    let i = choose|i: int| 0 <= i < liste.len() && liste[i] == x;
    if x + schritt(x) < ende {
        if i == 0 {
            let k = choose|k: int| 0 <= k < f.len() && f[k] == anfang + schritt(anfang);
            assert(liste[k + 1] == f[k]);
        } else {
            assert(liste[i] == f[i - 1]);
            let y = f[i - 1];
            let k = choose|k: int| 0 <= k < f.len() && f[k] == y + schritt(y);
            assert(liste[k + 1] == f[k]);
        }
    }
}

/// Every size that follows `letztes` is `ende`, an added power of two, the size
/// one step after `letztes`, or the size one step after another of them.
#[verifier::spinoff_prover]
#[verifier::rlimit(40)]
proof fn lemma_folge_herkunft(letztes: int, m: nat, ende: int)
    requires
        m >= 2,
    ensures
        forall|i: int| 0 <= i < folge(letztes, pow2(m) as int, ende).len() ==> {
            let y = #[trigger] folge(letztes, pow2(m) as int, ende)[i];
            ||| y == ende
            ||| ist_zweierpotenz(y)
            ||| y == letztes + schritt(letztes)
            ||| exists|j: int|
                0 <= j < folge(letztes, pow2(m) as int, ende).len() && y == #[trigger] folge(
                    letztes,
                    pow2(m) as int,
                    ende,
                )[j] + schritt(folge(letztes, pow2(m) as int, ende)[j])
        },
    decreases ende - letztes,
{
    if letztes < ende {
        let m1 = lemma_ueber_potenz(m, letztes);
        let z = pow2(m1) as int;
        let aktuell = letztes + schritt(letztes);
        let potenzen = zweier_bis(z, aktuell, ende);
        lemma_zweier_bis_potenzen(m1, aktuell, ende);
        let s = folge(letztes, pow2(m) as int, ende);
        let l = potenzen.len() as int;
        if aktuell >= ende {
            assert(s == potenzen.push(ende));
            assert forall|i: int| 0 <= i < s.len() implies (#[trigger] s[i] == ende || ist_zweierpotenz(s[i])) by {
                if i < l {
                    assert(s[i] == potenzen[i]);
                }
            }
        } else {
            let m2 = lemma_kette(m1, aktuell, ende);
            lemma_folge_herkunft(aktuell, m2, ende);
            let rest = folge(aktuell, pow2(m2) as int, ende);
            assert(s == potenzen.push(aktuell).add(rest));
            assert(s[l] == aktuell);
            assert forall|i: int| 0 <= i < s.len() implies {
                let y = #[trigger] s[i];
                ||| y == ende
                ||| ist_zweierpotenz(y)
                ||| y == letztes + schritt(letztes)
                ||| exists|j: int| 0 <= j < s.len() && y == #[trigger] s[j] + schritt(s[j])
            } by {
                if i < l {
                    assert(s[i] == potenzen[i]);
                } else if i > l {
                    let j = i - l - 1;
                    assert(s[i] == rest[j]);
                    let y = rest[j];
                    if y == aktuell + schritt(aktuell) {
                        assert(y == s[l] + schritt(s[l]));
                    } else if y != ende && !ist_zweierpotenz(y) {
                        let k = choose|k: int| 0 <= k < rest.len() && y == #[trigger] rest[k] + schritt(rest[k]);
                        assert(s[l + 1 + k] == rest[k]);
                        assert(y == s[l + 1 + k] + schritt(s[l + 1 + k]));
                    }
                }
            }
        }
    }
}

/// Where the sizes of the list come from: each one is `anfang`, `ende`, one of
/// the added powers of two, or an earlier size `x` of the list plus the step of
/// the table (4 for `x` from 2 to 9, 6 from 10 to 99, 100 from 100 to 999, 500
/// from 1000 to 9999, 1000 otherwise). No other size is ever measured.
pub proof fn lemma_groessen_herkunft(anfang: int, ende: int, liste: Seq<int>, y: int)
    requires
        liste == groessen(anfang, ende),
        liste.contains(y),
    ensures
        y == anfang || y == ende || ist_zweierpotenz(y) || exists|x: int|
            #[trigger] liste.contains(x) && ((2 <= x <= 9 && y == x + 4) || (10 <= x <= 99 && y == x + 6) || (100
                <= x <= 999 && y == x + 100) || (1000 <= x <= 9999 && y == x + 500) || ((x < 2 || 10000 <= x) && y
                == x + 1000)),
{
    vstd::arithmetic::power2::lemma2_to64();
    lemma_folge_herkunft(anfang, 2, ende);
    let f = folge(anfang, 4, ende);
    assert(liste == seq![anfang].add(f));
    let i = choose|i: int| 0 <= i < liste.len() && liste[i] == y;
    if i > 0 {
        assert(liste[i] == f[i - 1]);
        if y != ende && !ist_zweierpotenz(y) {
            if y == anfang + schritt(anfang) {
                assert(liste[0] == anfang);
                assert(liste.contains(anfang));
            } else {
                let k = choose|k: int| 0 <= k < f.len() && y == #[trigger] f[k] + schritt(f[k]);
                assert(liste[k + 1] == f[k]);
                assert(liste.contains(f[k]));
            }
        }
    }
}

/// No size comes twice in `s`, except `ende`, and the sizes grow.
pub open spec fn steigt_bis(s: Seq<int>, ende: int) -> bool {
    forall|i: int, j: int|
        0 <= i < j < s.len() ==> #[trigger] s[i] < #[trigger] s[j] || (s[i] == ende && s[j] == ende)
}

/// The powers of two taken in by one step grow strictly.
proof fn lemma_zweier_bis_steigt(z: int, aktuell: int, ende: int)
    requires
        z >= 1,
    ensures
        forall|i: int, j: int|
            0 <= i < j < zweier_bis(z, aktuell, ende).len() ==> #[trigger] zweier_bis(z, aktuell, ende)[i]
                < #[trigger] zweier_bis(z, aktuell, ende)[j],
    decreases if z < aktuell { aktuell - z } else { 0 },
{
    if z < aktuell && z <= ende {
        lemma_zweier_bis_steigt(2 * z, aktuell, ende);
        lemma_zweier_bis(2 * z, aktuell, ende);
        let rest = zweier_bis(2 * z, aktuell, ende);
        let s = zweier_bis(z, aktuell, ende);
        assert(s == seq![z].add(rest));
        assert forall|i: int, j: int| 0 <= i < j < s.len() implies #[trigger] s[i] < #[trigger] s[j] by {
            assert(s[j] == rest[j - 1]);
            if i > 0 {
                assert(s[i] == rest[i - 1]);
            }
        }
    }
}

/// The sizes after `letztes` grow strictly, except that `ende` may come twice.
#[verifier::spinoff_prover]
#[verifier::rlimit(40)]
proof fn lemma_folge_steigt(letztes: int, zweier: int, ende: int)
    requires
        zweier >= 1,
    ensures
        steigt_bis(folge(letztes, zweier, ende), ende),
    decreases ende - letztes,
{
    if letztes < ende {
        let z = ueber(zweier, letztes);
        let aktuell = letztes + schritt(letztes);
        let potenzen = zweier_bis(z, aktuell, ende);
        lemma_ueber(zweier, letztes);
        lemma_zweier_bis(z, aktuell, ende);
        lemma_zweier_bis_steigt(z, aktuell, ende);
        let s = folge(letztes, zweier, ende);
        let l = potenzen.len() as int;
        if aktuell >= ende {
            assert(s == potenzen.push(ende));
            assert forall|i: int, j: int| 0 <= i < j < s.len() implies #[trigger] s[i] < #[trigger] s[j] || (s[i]
                == ende && s[j] == ende) by {
                assert(s[i] == potenzen[i]);
                if j < l {
                    assert(s[j] == potenzen[j]);
                }
            }
        } else {
            let zn = zweier_nach(z, aktuell, ende);
            lemma_zweier_nach(z, aktuell, ende);
            lemma_folge_steigt(aktuell, zn, ende);
            lemma_folge(aktuell, zn, ende);
            let rest = folge(aktuell, zn, ende);
            assert(s == potenzen.push(aktuell).add(rest));
            assert forall|i: int, j: int| 0 <= i < j < s.len() implies #[trigger] s[i] < #[trigger] s[j] || (s[i]
                == ende && s[j] == ende) by {
                if i < l {
                    assert(s[i] == potenzen[i]);
                } else if i > l {
                    assert(s[i] == rest[i - l - 1]);
                }
                if j < l {
                    assert(s[j] == potenzen[j]);
                } else if j > l {
                    assert(s[j] == rest[j - l - 1]);
                }
            }
        }
    }
}

/// The list of matrix sizes grows strictly, so no size is measured twice; the
/// one exception is `ende` when it is itself one of the added powers of two,
/// which then comes twice at the end (for example 2..8 ends with 8, 8).
pub proof fn lemma_groessen_steigt(anfang: int, ende: int, liste: Seq<int>)
    requires
        liste == groessen(anfang, ende),
    ensures
        forall|i: int, j: int|
            0 <= i < j < liste.len() ==> #[trigger] liste[i] < #[trigger] liste[j] || (liste[i] == ende && liste[j]
                == ende),
{
    lemma_folge_steigt(anfang, 4, ende);
    lemma_folge(anfang, 4, ende);
    let f = folge(anfang, 4, ende);
    assert(liste == seq![anfang].add(f));
    assert forall|i: int, j: int| 0 <= i < j < liste.len() implies #[trigger] liste[i] < #[trigger] liste[j] || (
    liste[i] == ende && liste[j] == ende) by {
        assert(liste[j] == f[j - 1]);
        if i > 0 {
            assert(liste[i] == f[i - 1]);
        }
    }
}

/// The list of matrix sizes `anfang ..= ende`: the step between sizes grows with
/// the size, and the powers of two on the way are added.
pub fn konvertieren(anfang: u32, ende: u32) -> (liste: Vec<u32>)
    ensures
        liste@.map_values(|x: u32| x as int) == groessen(anfang as int, ende as int),
{
    let mut liste: Vec<u32> = Vec::new();
    liste.push(anfang);
    let mut letztes: u32 = anfang;
    let mut zweier: u64 = 4;
    proof {
        assert(liste@.map_values(|x: u32| x as int) == seq![anfang as int]);
    }
    while letztes < ende
        invariant_except_break
            liste@.map_values(|x: u32| x as int).add(folge(letztes as int, zweier as int, ende as int))
                == groessen(anfang as int, ende as int),
        invariant
            zweier >= 4,
        ensures
            liste@.map_values(|x: u32| x as int) == groessen(anfang as int, ende as int),
        decreases ende - letztes,
    {
        let ghost vorher = liste@.map_values(|x: u32| x as int);
        let ghost z0 = zweier as int;
        let schritt_: u32 = if 2 <= letztes && letztes <= 9 {
            4
        } else if 10 <= letztes && letztes <= 99 {
            6
        } else if 100 <= letztes && letztes <= 999 {
            100
        } else if 1000 <= letztes && letztes <= 9999 {
            500
        } else {
            1000
        };
        let aktuell: u64 = letztes as u64 + schritt_ as u64;
        // the next power of two above the last size
        while zweier <= letztes as u64
            invariant
                zweier >= 4,
                ueber(zweier as int, letztes as int) == ueber(z0, letztes as int),
            decreases if zweier <= letztes { letztes + 1 - zweier } else { 0 },
        {
            zweier = zweier * 2;
        }
        let ghost z = zweier as int;
        proof {
            assert(aktuell == letztes + schritt(letztes as int));
            assert(ueber(z0, letztes as int) == z);
            assert(ueber(z, letztes as int) == z);
        }
        // the powers of two passed by this step
        while zweier < aktuell && zweier <= ende as u64
            invariant
                zweier >= 4,
                aktuell == letztes + schritt(letztes as int),
                vorher.add(zweier_bis(z, aktuell as int, ende as int)) == liste@.map_values(|x: u32| x as int).add(
                    zweier_bis(zweier as int, aktuell as int, ende as int),
                ),
                zweier_nach(zweier as int, aktuell as int, ende as int) == zweier_nach(z, aktuell as int, ende as int),
            decreases if zweier < aktuell { aktuell - zweier } else { 0 },
        {
            let ghost l0 = liste@.map_values(|x: u32| x as int);
            liste.push(zweier as u32);
            proof {
                assert(liste@.map_values(|x: u32| x as int) == l0.push(zweier as int));
                assert(l0.add(zweier_bis(zweier as int, aktuell as int, ende as int)) == l0.push(zweier as int).add(
                    zweier_bis(2 * zweier, aktuell as int, ende as int),
                ));
            }
            zweier = zweier * 2;
        }
        proof {
            assert(zweier_bis(zweier as int, aktuell as int, ende as int) == Seq::<int>::empty());
            assert(zweier_nach(zweier as int, aktuell as int, ende as int) == zweier as int);
        }
        if aktuell >= ende as u64 {
            let ghost l0 = liste@.map_values(|x: u32| x as int);
            liste.push(ende);
            proof {
                assert(liste@.map_values(|x: u32| x as int) == l0.push(ende as int));
                let zb = zweier_bis(z, aktuell as int, ende as int);
                assert(l0.add(Seq::<int>::empty()) == l0);
                assert(vorher.add(zb) == l0);
                assert(folge(letztes as int, z0, ende as int) == zb.push(ende as int));
                assert(vorher.add(zb.push(ende as int)) == vorher.add(zb).push(ende as int));
                assert(vorher.add(folge(letztes as int, z0, ende as int)) == l0.push(ende as int));
            }
            break;
        } else {
            let ghost l0 = liste@.map_values(|x: u32| x as int);
            liste.push(aktuell as u32);
            proof {
                assert(liste@.map_values(|x: u32| x as int) == l0.push(aktuell as int));
                let zb = zweier_bis(z, aktuell as int, ende as int);
                let rest = folge(aktuell as int, zweier as int, ende as int);
                assert(l0.add(Seq::<int>::empty()) == l0);
                assert(vorher.add(zb) == l0);
                assert(zweier_nach(z, aktuell as int, ende as int) == zweier as int);
                assert(folge(letztes as int, z0, ende as int) == zb.push(aktuell as int).add(rest));
                assert(vorher.add(zb.push(aktuell as int).add(rest)) == vorher.add(zb).push(aktuell as int).add(rest));
                assert(vorher.add(folge(letztes as int, z0, ende as int)) == l0.push(aktuell as int).add(
                    folge(aktuell as int, zweier as int, ende as int),
                ));
            }
            letztes = aktuell as u32;
        }
    }
    liste
}

} // verus!
