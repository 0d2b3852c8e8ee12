//! The order in which threads are pinned to logical cores.
use vstd::prelude::*;
use std::collections::HashSet;
use crate::prozessor::ProzessorSpecs;
use vstd::set_lib::{lemma_int_range, lemma_len_subset, set_int_range};

verus! {

broadcast use vstd::std_specs::hash::group_hash_axioms;

/// Logical cores in the order of preference, before duplicates are dropped:
/// first the lowest logical core `a * h` of each of the `m` physical cores with
/// hyperthreading, then the logical cores from `m * h` up to `l` (the physical
/// cores without hyperthreading), then all logical cores `0 .. l`.
pub open spec fn kandidaten(m: int, h: int, l: int) -> Seq<int> {
    Seq::new(m as nat, |a: int| a * h)
        + Seq::new(if l > m * h { (l - m * h) as nat } else { 0 }, |b: int| m * h + b)
        + Seq::new(l as nat, |c: int| c)
}

/// `s` with every value after its first occurrence left out.
pub open spec fn ohne_doppelte(s: Seq<int>) -> Seq<int>
    decreases s.len(),
{
    if s.len() == 0 {
        Seq::empty()
    } else {
        let r = ohne_doppelte(s.drop_last());
        if r.contains(s.last()) {
            r
        } else {
            r.push(s.last())
        }
    }
}

/// The first `anzahl` distinct logical cores in the order of preference (all of
/// them, if there are fewer).
pub open spec fn pinning_folge(anzahl: int, m: int, h: int, l: int) -> Seq<int> {
    let d = ohne_doppelte(kandidaten(m, h, l));
    if d.len() <= anzahl {
        d
    } else {
        d.take(anzahl)
    }
}

/// Dropping duplicates from a prefix of `s` gives a prefix of dropping them from `s`.
pub proof fn lemma_ohne_doppelte_praefix(s: Seq<int>, p: int)
    requires
        0 <= p <= s.len(),
    ensures
        ohne_doppelte(s.take(p)).len() <= ohne_doppelte(s).len(),
        ohne_doppelte(s).take(ohne_doppelte(s.take(p)).len() as int) == ohne_doppelte(s.take(p)),
    decreases s.len(),
{
    if p == s.len() {
        assert(s.take(p) == s);
    } else {
        let t = s.drop_last();
        assert(s.take(p) == t.take(p));
        lemma_ohne_doppelte_praefix(t, p);
        let a = ohne_doppelte(t.take(p));
        let b = ohne_doppelte(t);
        let c = ohne_doppelte(s);
        assert(c.take(b.len() as int) == b);
        assert(c.take(a.len() as int) == b.take(a.len() as int));
    }
}

/// Taking one more element of `s` into account.
proof fn lemma_ohne_doppelte_schritt(s: Seq<int>, p: int)
    requires
        0 <= p < s.len(),
    ensures
        ohne_doppelte(s.take(p + 1)) == if ohne_doppelte(s.take(p)).contains(s[p]) {
            ohne_doppelte(s.take(p))
        } else {
            ohne_doppelte(s.take(p)).push(s[p])
        },
{
    assert(s.take(p + 1).drop_last() == s.take(p));
    assert(s.take(p + 1).last() == s[p]);
}

/// Dropping later duplicates keeps every value of `s` and no other, each once.
pub proof fn lemma_ohne_doppelte(s: Seq<int>)
    ensures
        forall|x: int| ohne_doppelte(s).contains(x) <==> s.contains(x),
        ohne_doppelte(s).no_duplicates(),
    decreases s.len(),
{
    if s.len() > 0 {
        let t = s.drop_last();
        lemma_ohne_doppelte(t);
        let r = ohne_doppelte(t);
        assert forall|x: int| ohne_doppelte(s).contains(x) <==> s.contains(x) by {
            if s.contains(x) {
                let i = choose|i: int| 0 <= i < s.len() && s[i] == x;
                if i < t.len() {
                    assert(t[i] == x);
                    assert(t.contains(x));
                }
            }
            if t.contains(x) {
                let i = choose|i: int| 0 <= i < t.len() && t[i] == x;
                assert(s[i] == x);
            }
            if !r.contains(s.last()) {
                let rp = r.push(s.last());
                if rp.contains(x) {
                    let i = choose|i: int| 0 <= i < rp.len() && rp[i] == x;
                    if i < r.len() {
                        assert(r[i] == x);
                    }
                }
                if r.contains(x) {
                    let i = choose|i: int| 0 <= i < r.len() && r[i] == x;
                    assert(rp[i] == x);
                }
                assert(rp[r.len() as int] == s.last());
            }
            assert(s.last() == s[s.len() - 1]);
        }
    }
}

/// The pinning order names every logical core at most once and at most
/// `anzahl` cores; when `anzahl` is not above the number of logical cores it
/// names exactly `anzahl` of them; and when the hyperthreaded cores fit below
/// the logical ones (`m * h <= l`, and there is a core at all), all ids are logical cores `0 .. l`.
pub proof fn lemma_pinning(anzahl: int, m: int, h: int, l: int)
    requires
        anzahl >= 0,
        m >= 0,
        h >= 0,
        l >= 0,
    ensures
        pinning_folge(anzahl, m, h, l).no_duplicates(),
        pinning_folge(anzahl, m, h, l).len() <= anzahl,
        anzahl <= l ==> pinning_folge(anzahl, m, h, l).len() == anzahl,
        m * h <= l && (h > 0 || l > 0) ==> forall|i: int| 0 <= i < pinning_folge(anzahl, m, h, l).len() ==> 0 <= #[trigger] pinning_folge(anzahl, m, h, l)[i] < l,
{
    let k = kandidaten(m, h, l);
    let d = ohne_doppelte(k);
    let f = pinning_folge(anzahl, m, h, l);
    lemma_ohne_doppelte(k);
    let len2: int = if l > m * h { l - m * h } else { 0 };
    assert forall|c: int| 0 <= c < l implies #[trigger] d.contains(c) by {
        assert(k[m + len2 + c] == c);
        assert(k.contains(c));
    }
    assert(set_int_range(0, l).subset_of(d.to_set()));
    lemma_int_range(0, l);
    d.lemma_cardinality_of_set();
    lemma_len_subset(set_int_range(0, l), d.to_set());
    assert(d.len() >= l);
    assert forall|i: int, j: int| 0 <= i < f.len() && 0 <= j < f.len() && i != j implies f[i] != f[j] by {
        assert(f[i] == d[i] && f[j] == d[j]);
    }
    if m * h <= l && (h > 0 || l > 0) {
        assert forall|i: int| 0 <= i < f.len() implies 0 <= #[trigger] f[i] < l by {
            assert(f[i] == d[i]);
            assert(d.contains(d[i]));
            assert(k.contains(d[i]));
            let p = choose|p: int| 0 <= p < k.len() && k[p] == d[i];
            if p < m {
                assert(k[p] == p * h);
                assert(0 <= p * h <= m * h) by (nonlinear_arith)
                    requires
                        0 <= p < m,
                        h >= 0,
                ;
                assert(p * h < m * h || h == 0) by (nonlinear_arith)
                    requires
                        0 <= p < m,
                        h >= 0,
                ;
                if h == 0 {
                    assert(p * h == 0) by (nonlinear_arith)
                        requires
                            h == 0,
                    ;
                }
            } else if p < m + len2 {
                assert(k[p] == m * h + (p - m));
            } else {
                assert(k[p] == p - m - len2);
            }
        }
    }
}

/// One candidate: the core `kern` at position `pos` of the candidate list is
/// added unless it was seen before.
fn nehmen(
    liste: &mut Vec<usize>,
    gesehen: &mut HashSet<u32>,
    kern: u32,
    Ghost(k): Ghost<Seq<int>>,
    Ghost(pos): Ghost<int>,
)
    requires
        0 <= pos < k.len(),
        k[pos] == kern,
        old(liste)@.map_values(|x: usize| x as int) == ohne_doppelte(k.take(pos)),
        forall|x: u32| old(gesehen)@.contains(x) <==> old(liste)@.map_values(|y: usize| y as int).contains(x as int),
    ensures
        final(liste)@.map_values(|x: usize| x as int) == ohne_doppelte(k.take(pos + 1)),
        forall|x: u32| final(gesehen)@.contains(x) <==> final(liste)@.map_values(|y: usize| y as int).contains(x as int),
        final(liste)@.len() <= old(liste)@.len() + 1,
{
    proof {
        lemma_ohne_doppelte_schritt(k, pos);
    }
    let ghost alt = liste@.map_values(|x: usize| x as int);
    if gesehen.insert(kern) {
        liste.push(kern as usize);
        proof {
            assert(liste@.map_values(|x: usize| x as int) == alt.push(kern as int));
            assert forall|x: u32| gesehen@.contains(x) <==> liste@.map_values(|y: usize| y as int).contains(x as int) by {
                let neu = liste@.map_values(|y: usize| y as int);
                if alt.contains(x as int) {
                    let i = choose|i: int| 0 <= i < alt.len() && alt[i] == x as int;
                    assert(neu[i] == x as int);
                }
                if x == kern {
                    assert(neu[alt.len() as int] == x as int);
                }
                if neu.contains(x as int) && x != kern {
                    let i = choose|i: int| 0 <= i < neu.len() && neu[i] == x as int;
                    assert(i < alt.len());
                    assert(alt[i] == x as int);
                }
            }
        }
    } else {
        assert(alt.contains(kern as int));
    }
}

/// Logical core ids for `anzahl` threads, in the order in which they are pinned:
/// 1. the logical core with the lowest id of each physical core with
///    hyperthreading,
/// 2. the logical cores of the physical cores without hyperthreading,
/// 3. the remaining logical cores of the physical cores with hyperthreading,
/// each id at most once and at most `anzahl` ids.
pub fn reihenfolge(anzahl: usize, prozessor: &ProzessorSpecs) -> (liste: Vec<usize>)
    requires
        prozessor.mit_hyperthreading@.len() <= u32::MAX,
        prozessor.mit_hyperthreading@.len() * prozessor.hyperthreads_pro_kern <= u32::MAX,
    ensures
        liste@.map_values(|x: usize| x as int) == pinning_folge(
            anzahl as int,
            prozessor.mit_hyperthreading@.len() as int,
            prozessor.hyperthreads_pro_kern as int,
            prozessor.logisch as int,
        ),
{
    let m: u32 = prozessor.mit_hyperthreading.len() as u32;
    let h: u32 = prozessor.hyperthreads_pro_kern;
    let l: u32 = prozessor.logisch;
    let ghost k = kandidaten(m as int, h as int, l as int);
    let ghost len2: int = if l > m * h { l - m * h } else { 0 };
    assert(k.len() == m + len2 + l);
    let mut liste: Vec<usize> = Vec::with_capacity(anzahl);
    let mut gesehen: HashSet<u32> = HashSet::with_capacity(anzahl);
    proof {
        assert(k.take(0) == Seq::<int>::empty());
        assert(liste@.map_values(|x: usize| x as int) == Seq::<int>::empty());
    }
    let ghost mut pos: int = 0;
    // physical cores with hyperthreading, without using the hyperthreads
    let mut a: u32 = 0;
    while a < m && liste.len() < anzahl
        invariant
            a <= m,
            m * h <= u32::MAX,
            k == kandidaten(m as int, h as int, l as int),
            k.len() == m + len2 + l,
            pos == a,
            liste@.len() <= anzahl,
            liste@.map_values(|x: usize| x as int) == ohne_doppelte(k.take(pos)),
            forall|x: u32| gesehen@.contains(x) <==> liste@.map_values(|y: usize| y as int).contains(x as int),
        decreases m - a,
    {
        proof {
            assert(a * h <= m * h) by (nonlinear_arith)
                requires
                    a <= m,
            ;
        }
        let kern: u32 = a * h;
        nehmen(&mut liste, &mut gesehen, kern, Ghost(k), Ghost(pos));
        a = a + 1;
        proof {
            pos = pos + 1;
        }
    }
    let offset: u32 = m * h;
    // physical cores without hyperthreading
    let mut b: u32 = offset;
    while b < l && liste.len() < anzahl
        invariant
            offset == m * h,
            offset <= b,
            b <= l || (l <= offset && b == offset),
            len2 == if l > offset { l - offset } else { 0 },
            k == kandidaten(m as int, h as int, l as int),
            k.len() == m + len2 + l,
            liste@.len() <= anzahl,
            liste@.len() < anzahl ==> pos == m + (b - offset),
            0 <= pos <= m + (b - offset),
            liste@.map_values(|x: usize| x as int) == ohne_doppelte(k.take(pos)),
            forall|x: u32| gesehen@.contains(x) <==> liste@.map_values(|y: usize| y as int).contains(x as int),
        decreases l - b,
    {
        nehmen(&mut liste, &mut gesehen, b, Ghost(k), Ghost(pos));
        b = b + 1;
        proof {
            pos = pos + 1;
        }
    }
    // the remaining hyperthreads
    let mut c: u32 = 0;
    while c < l && liste.len() < anzahl
        invariant
            c <= l,
            k == kandidaten(m as int, h as int, l as int),
            k.len() == m + len2 + l,
            liste@.len() <= anzahl,
            liste@.len() < anzahl ==> pos == m + len2 + c,
            0 <= pos <= m + len2 + c,
            liste@.map_values(|x: usize| x as int) == ohne_doppelte(k.take(pos)),
            forall|x: u32| gesehen@.contains(x) <==> liste@.map_values(|y: usize| y as int).contains(x as int),
        decreases l - c,
    {
        nehmen(&mut liste, &mut gesehen, c, Ghost(k), Ghost(pos));
        c = c + 1;
        proof {
            pos = pos + 1;
        }
    }
    proof {
        let d = ohne_doppelte(k);
        lemma_ohne_doppelte_praefix(k, pos);
        if liste@.len() < anzahl {
            assert(k.take(pos) == k);
        } else {
            assert(d.take(anzahl as int) == ohne_doppelte(k.take(pos)));
        }
    }
    liste
}

} // verus!
