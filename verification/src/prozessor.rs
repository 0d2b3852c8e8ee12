//! What the benchmark knows of the processor, and how it is derived from what
//! the system reports.
use vstd::prelude::*;
use vstd::string::StrSliceExecFns;
use crate::text::{zeichen, trimmen, gleicher_text, getrimmt, anfang_ohne_leerraum, ende_ohne_leerraum};
use std::collections::HashMap;
use vstd::std_specs::iter::IteratorSpec;

verus! {

broadcast use vstd::std_specs::hash::group_hash_axioms;

/// The processor as the benchmark sees it.
#[derive(Debug)]
pub struct ProzessorSpecs {
    /// Model name of the processor.
    pub name: String,
    /// Number of logical cores.
    pub logisch: u32,
    /// Number of physical cores.
    pub physisch: u32,
    /// Logical cores per physical core with hyperthreading.
    pub hyperthreads_pro_kern: u32,
    /// Ids of the physical cores that have hyperthreading, ascending.
    pub mit_hyperthreading: Vec<u32>,
    /// Ids of the physical cores without hyperthreading, ascending.
    pub ohne_hyperthreading: Vec<u32>,
}

/// End of the line that starts at index `i`: the first `'\n'` from `i` on, or
/// the end of the text.
pub open spec fn zeilenende(t: Seq<char>, i: int) -> int
    decreases t.len() - i,
{
    if i >= t.len() || t[i] == '\n' {
        i
    } else {
        zeilenende(t, i + 1)
    }
}

/// A line ends at or after its start and not after the end of the text.
pub proof fn lemma_zeilenende(t: Seq<char>, i: int)
    requires
        0 <= i <= t.len(),
    ensures
        i <= zeilenende(t, i) <= t.len(),
    decreases t.len() - i,
{
    if i < t.len() && t[i] != '\n' {
        lemma_zeilenende(t, i + 1);
    }
}

/// First index in `a..e` holding `c`, or `e` if there is none.
pub open spec fn erstes_zeichen(t: Seq<char>, c: char, a: int, e: int) -> int
    decreases e - a,
{
    if a >= e || t[a] == c {
        a
    } else {
        erstes_zeichen(t, c, a + 1, e)
    }
}

/// For the line `t[a..e]`: if it has a `:` and the text before the first one,
/// trimmed, is `model name`, the trimmed text after it; otherwise nothing.
pub open spec fn modell_in_zeile(t: Seq<char>, a: int, e: int) -> Seq<char> {
    let p = erstes_zeichen(t, ':', a, e);
    if p < e && getrimmt(t, a, p) == "model name"@ {
        getrimmt(t, p + 1, e)
    } else {
        Seq::empty()
    }
}

/// The model name found from the line starting at `i` on: the value of the
/// first `model name` line whose value is not empty.
pub open spec fn modell_ab(t: Seq<char>, i: int) -> Seq<char>
    decreases t.len() + 1 - i,
{
    if i > t.len() || i < 0 {
        Seq::empty()
    } else {
        let e = zeilenende(t, i);
        let w = modell_in_zeile(t, i, e);
        if w.len() > 0 {
            w
        } else {
            proof {
                lemma_zeilenende(t, i);
            }
            modell_ab(t, e + 1)
        }
    }
}

/// The model name in the text of `/proc/cpuinfo`: the value of the first line
/// `model name : ...` whose value is not empty, trimmed; empty if there is none.
pub fn modellname(cpuinfo: &str) -> (name: String)
    ensures
        name@ == modell_ab(cpuinfo@, 0),
{
    let t = zeichen(cpuinfo);
    let schluessel = zeichen("model name");
    let n: usize = t.len();
    let mut i: usize = 0;
    while i <= n
        invariant
            t@ == cpuinfo@,
            n == t@.len(),
            schluessel@ == "model name"@,
            i <= n,
            modell_ab(t@, i as int) == modell_ab(t@, 0),
        decreases n - i,
    {
        let mut e: usize = i;
        while e < n && t[e] != '\n'
            invariant
                i <= e <= n,
                n == t@.len(),
                zeilenende(t@, e as int) == zeilenende(t@, i as int),
            decreases n - e,
        {
            e = e + 1;
        }
        let mut p: usize = i;
        while p < e && t[p] != ':'
            invariant
                i <= p <= e,
                e <= n,
                n == t@.len(),
                erstes_zeichen(t@, ':', p as int, e as int) == erstes_zeichen(t@, ':', i as int, e as int),
            decreases e - p,
        {
            p = p + 1;
        }
        if p < e {
            let (ks, ke) = trimmen(&t, i, p);
            if gleicher_text(&t, ks, ke, &schluessel) {
                let (ws, we) = trimmen(&t, p + 1, e);
                if ws < we {
                    let wert = cpuinfo.substring_char(ws, we);
                    return wert.to_owned();
                }
            }
        }
        if e == n {
            assert(modell_ab(t@, e + 1) == Seq::<char>::empty());
            return String::new();
        }
        i = e + 1;
    }
    String::new()
}

/// `a` is where a line of `t` starts: the start of the text or just after a
/// line break.
pub open spec fn zeilenanfang(t: Seq<char>, a: int) -> bool {
    a == 0 || (0 < a <= t.len() && t[a - 1] == '\n')
}

/// The line of `t` that starts at `a` reads `model name : w`: the text before
/// its first `:`, without surrounding white space, is `model name`, and `w` is
/// all of the rest of the line after that `:`, without surrounding white space.
pub open spec fn modellzeile(t: Seq<char>, a: int, w: Seq<char>) -> bool {
    let e = zeilenende(t, a);
    let p = erstes_zeichen(t, ':', a, e);
    p < e && getrimmt(t, a, p) == "model name"@ && w == getrimmt(t, p + 1, e)
}

/// Inside a line there is no line break, and a line that ends before the end of
/// the text ends at one.
proof fn lemma_zeile_ohne_umbruch(t: Seq<char>, i: int)
    requires
        0 <= i <= t.len(),
    ensures
        forall|k: int| i <= k < zeilenende(t, i) ==> #[trigger] t[k] != '\n',
        zeilenende(t, i) < t.len() ==> t[zeilenende(t, i)] == '\n',
    decreases t.len() - i,
{
    if i < t.len() && t[i] != '\n' {
        lemma_zeile_ohne_umbruch(t, i + 1);
    }
}

/// From the line starting at `i` on, the model name found is the value of the
/// first `model name` line with a value that is not empty, and nothing when
/// there is no such line.
proof fn lemma_modell_ab_zeilen(t: Seq<char>, i: int)
    requires
        0 <= i <= t.len(),
        zeilenanfang(t, i),
    ensures
        modell_ab(t, i).len() > 0 ==> exists|a: int|
            i <= a <= t.len() && zeilenanfang(t, a) && #[trigger] modellzeile(t, a, modell_ab(t, i)) && forall|
                b: int,
                w: Seq<char>,
            | i <= b < a && zeilenanfang(t, b) && #[trigger] modellzeile(t, b, w) ==> w.len() == 0,
        modell_ab(t, i).len() == 0 ==> forall|a: int, w: Seq<char>|
            i <= a <= t.len() && zeilenanfang(t, a) && #[trigger] modellzeile(t, a, w) ==> w.len() == 0,
    decreases t.len() + 1 - i,
{
    let e = zeilenende(t, i);
    lemma_zeilenende(t, i);
    lemma_zeile_ohne_umbruch(t, i);
    let w = modell_in_zeile(t, i, e);
    assert forall|b: int| i < b <= e implies !zeilenanfang(t, b) by {
        assert(t[b - 1] != '\n');
    }
    assert forall|v: Seq<char>| modellzeile(t, i, v) implies v == w by {}
    if w.len() > 0 {
        assert(modell_ab(t, i) == w);
        assert(modellzeile(t, i, w));
    } else {
        assert(modell_ab(t, i) == modell_ab(t, e + 1));
        if e == t.len() {
            assert(modell_ab(t, e + 1) == Seq::<char>::empty());
            assert forall|a: int, v: Seq<char>|
                i <= a <= t.len() && zeilenanfang(t, a) && #[trigger] modellzeile(t, a, v) implies v.len() == 0 by {
                if a > i {
                    assert(!zeilenanfang(t, a));
                }
            }
        } else {
            lemma_modell_ab_zeilen(t, e + 1);
            let r = modell_ab(t, e + 1);
            assert forall|b: int, v: Seq<char>|
                i <= b < e + 1 && zeilenanfang(t, b) && #[trigger] modellzeile(t, b, v) implies v.len() == 0 by {
                if b > i {
                    assert(!zeilenanfang(t, b));
                }
            }
            if r.len() > 0 {
                let a = choose|a: int|
                    e + 1 <= a <= t.len() && zeilenanfang(t, a) && #[trigger] modellzeile(t, a, r) && forall|
                        b: int,
                        v: Seq<char>,
                    | e + 1 <= b < a && zeilenanfang(t, b) && #[trigger] modellzeile(t, b, v) ==> v.len() == 0;
                assert forall|b: int, v: Seq<char>|
                    i <= b < a && zeilenanfang(t, b) && #[trigger] modellzeile(t, b, v) implies v.len() == 0 by {
                    if b > i && b <= e {
                        assert(!zeilenanfang(t, b));
                    }
                }
            } else {
                assert forall|a: int, v: Seq<char>|
                    i <= a <= t.len() && zeilenanfang(t, a) && #[trigger] modellzeile(t, a, v) implies v.len() == 0 by {
                    if a > i && a <= e {
                        assert(!zeilenanfang(t, a));
                    }
                }
            }
        }
    }
}

/// What the model name read from `/proc/cpuinfo` is: when it is not empty, it
/// is the whole value of a `model name` line (everything after the line's first
/// `:` up to the end of the line, without surrounding white space, whatever
/// characters it holds), and every earlier `model name` line has an empty value;
/// when it is empty, no `model name` line has a value.
pub proof fn lemma_modellname(text: Seq<char>, name: Seq<char>)
    requires
        name == modell_ab(text, 0),
    ensures
        name.len() > 0 ==> exists|a: int|
            0 <= a <= text.len() && zeilenanfang(text, a) && #[trigger] modellzeile(text, a, name) && forall|
                b: int,
                w: Seq<char>,
            | 0 <= b < a && zeilenanfang(text, b) && #[trigger] modellzeile(text, b, w) ==> w.len() == 0,
        name.len() == 0 ==> forall|a: int, w: Seq<char>|
            0 <= a <= text.len() && zeilenanfang(text, a) && #[trigger] modellzeile(text, a, w) ==> w.len() == 0,
{
    lemma_modell_ab_zeilen(text, 0);
}

/// An ASCII decimal digit.
pub open spec fn ist_ziffer(c: char) -> bool {
    '0' <= c <= '9'
}

/// The value of a string of decimal digits.
pub open spec fn ziffern_wert(s: Seq<char>) -> int
    decreases s.len(),
{
    if s.len() == 0 {
        0
    } else {
        ziffern_wert(s.drop_last()) * 10 + (s.last() as int - '0' as int)
    }
}

/// The digits of a number text: without a leading `+`.
pub open spec fn ziffern(s: Seq<char>) -> Seq<char> {
    if s.len() > 0 && s[0] == '+' {
        s.drop_first()
    } else {
        s
    }
}

/// `s` is accepted by `str::parse::<u32>`: an optional `+`, then at least one
/// decimal digit, and a value that fits in a `u32`.
pub open spec fn ist_u32_text(s: Seq<char>) -> bool {
    &&& ziffern(s).len() > 0
    &&& forall|i: int| 0 <= i < ziffern(s).len() ==> #[trigger] ist_ziffer(ziffern(s)[i])
    &&& ziffern_wert(ziffern(s)) <= u32::MAX
}

/// The second comma-separated column of a line of `lscpu -p` output, for the
/// lines that carry data: the line is trimmed, and lines that are then empty,
/// start with `#` or have no comma carry none.
pub open spec fn spalte(z: Seq<char>) -> Option<Seq<char>> {
    let s = anfang_ohne_leerraum(z, 0, z.len() as int);
    let e = ende_ohne_leerraum(z, s, z.len() as int);
    if s >= e || z[s] == '#' {
        None
    } else {
        let p = erstes_zeichen(z, ',', s, e);
        if p >= e {
            None
        } else {
            Some(z.subrange(p + 1, erstes_zeichen(z, ',', p + 1, e)))
        }
    }
}

/// Every data line names its core with a number that `str::parse::<u32>` accepts.
pub open spec fn zeilen_lesbar(zeilen: Seq<Seq<char>>) -> bool {
    forall|i: int| 0 <= i < zeilen.len() ==> (#[trigger] spalte(zeilen[i]) matches Some(c) ==> ist_u32_text(c))
}

/// In how many data lines the core number is `x`.
pub open spec fn vorkommen(zeilen: Seq<Seq<char>>, x: int) -> nat
    decreases zeilen.len(),
{
    if zeilen.len() == 0 {
        0
    } else {
        vorkommen(zeilen.drop_last(), x) + match spalte(zeilen.last()) {
            Some(c) => if ziffern_wert(ziffern(c)) == x {
                1nat
            } else {
                0nat
            },
            None => 0nat,
        }
    }
}

/// `v` is strictly ascending.
pub open spec fn streng_aufsteigend(v: Seq<u32>) -> bool {
    forall|i: int, j: int| 0 <= i < j < v.len() ==> #[trigger] v[i] < #[trigger] v[j]
}

proof fn lemma_praefix_wert(s: Seq<char>, k: int)
    requires
        0 <= k <= s.len(),
        forall|i: int| 0 <= i < s.len() ==> #[trigger] ist_ziffer(s[i]),
    ensures
        0 <= ziffern_wert(s.take(k)) <= ziffern_wert(s),
    decreases s.len(), s.len() - k,
{
    if k < s.len() {
        lemma_praefix_wert(s, k + 1);
        assert(s.take(k + 1).drop_last() == s.take(k));
        assert(ist_ziffer(s[k]));
    } else {
        assert(s.take(k) == s);
        if s.len() > 0 {
            lemma_praefix_wert(s.drop_last(), s.len() - 1);
            assert(s.drop_last().take(s.len() - 1) == s.drop_last());
            assert(ist_ziffer(s[s.len() - 1]));
        }
    }
}

/// The number written in `t[a..b]`, as `str::parse::<u32>` reads it.
fn zahl_lesen(t: &Vec<char>, a: usize, b: usize) -> (wert: u32)
    requires
        a <= b <= t@.len(),
        ist_u32_text(t@.subrange(a as int, b as int)),
    ensures
        wert == ziffern_wert(ziffern(t@.subrange(a as int, b as int))),
{
    let ghost s = t@.subrange(a as int, b as int);
    let mut i: usize = a;
    if t[a] == '+' {
        i = a + 1;
    }
    let ghost d = ziffern(s);
    assert(d == t@.subrange(i as int, b as int));
    let mut wert: u32 = 0;
    let start = i;
    while i < b
        invariant
            a <= start <= i <= b,
            b <= t@.len(),
            d == t@.subrange(start as int, b as int),
            forall|j: int| 0 <= j < d.len() ==> #[trigger] ist_ziffer(d[j]),
            ziffern_wert(d) <= u32::MAX,
            wert == ziffern_wert(d.take(i - start)),
        decreases b - i,
    {
        proof {
            lemma_praefix_wert(d, i - start + 1);
            assert(d.take(i - start + 1).drop_last() == d.take(i - start));
            assert(d.take(i - start + 1).last() == t@[i as int]);
            assert(ist_ziffer(d[i - start]));
        }
        let ziffer: u32 = (t[i] as u32) - ('0' as u32);
        wert = wert * 10 + ziffer;
        i = i + 1;
    }
    assert(d.take(d.len() as int) == d);
    wert
}

/// The bounds of the second column of the line `t`, if the line carries data.
fn spalte_finden(t: &Vec<char>) -> (r: Option<(usize, usize)>)
    ensures
        match r {
            Some((a, b)) => a <= b <= t@.len() && spalte(t@) == Some(t@.subrange(a as int, b as int)),
            None => spalte(t@) is None,
        },
{
    let n = t.len();
    let (s, e) = trimmen(t, 0, n);
    if s >= e || t[s] == '#' {
        return None;
    }
    let mut p: usize = s;
    while p < e && t[p] != ','
        invariant
            s <= p <= e,
            e <= n,
            n == t@.len(),
            erstes_zeichen(t@, ',', p as int, e as int) == erstes_zeichen(t@, ',', s as int, e as int),
        decreases e - p,
    {
        p = p + 1;
    }
    if p >= e {
        return None;
    }
    let mut q: usize = p + 1;
    while q < e && t[q] != ','
        invariant
            p + 1 <= q <= e,
            e <= n,
            n == t@.len(),
            erstes_zeichen(t@, ',', q as int, e as int) == erstes_zeichen(t@, ',', p + 1, e as int),
        decreases e - q,
    {
        q = q + 1;
    }
    Some((p + 1, q))
}

/// The core number of one line of `lscpu -p` output, if the line carries data.
fn kern_lesen(zeile: &String) -> (kern: Option<u32>)
    requires
        spalte(zeile@) matches Some(c) ==> ist_u32_text(c),
    ensures
        kern == match spalte(zeile@) {
            Some(c) => Some(ziffern_wert(ziffern(c)) as u32),
            None => None::<u32>,
        },
{
    let t = zeichen(zeile.as_str());
    match spalte_finden(&t) {
        Some((a, b)) => Some(zahl_lesen(&t, a, b)),
        None => None,
    }
}

/// Whether `t[a..b]` is accepted by `str::parse::<u32>`.
fn ist_u32_text_pruefen(t: &Vec<char>, a: usize, b: usize) -> (ok: bool)
    requires
        a <= b <= t@.len(),
    ensures
        ok == ist_u32_text(t@.subrange(a as int, b as int)),
{
    let ghost s = t@.subrange(a as int, b as int);
    let mut i: usize = a;
    if a < b && t[a] == '+' {
        i = a + 1;
    }
    let ghost d = ziffern(s);
    assert(d == t@.subrange(i as int, b as int));
    if i >= b {
        return false;
    }
    let start = i;
    let mut wert: u64 = 0;
    while i < b
        invariant
            a <= start <= i <= b,
            b <= t@.len(),
            d == t@.subrange(start as int, b as int),
            s == t@.subrange(a as int, b as int),
            d == ziffern(s),
            forall|j: int| 0 <= j < i - start ==> #[trigger] ist_ziffer(d[j]),
            wert == ziffern_wert(d.take(i - start)),
            wert <= u32::MAX,
        decreases b - i,
    {
        let c = t[i];
        if !('0' <= c && c <= '9') {
            assert(!ist_ziffer(d[i - start]));
            assert(0 <= i - start < ziffern(s).len());
            assert(!ist_ziffer(ziffern(s)[i - start]));
            assert(!ist_u32_text(s));
            return false;
        }
        proof {
            assert(d.take(i - start + 1).drop_last() == d.take(i - start));
            assert(d.take(i - start + 1).last() == t@[i as int]);
        }
        wert = wert * 10 + ((c as u32) - ('0' as u32)) as u64;
        if wert > 0xFFFF_FFFF {
            proof {
                assert(wert == ziffern_wert(d.take(i - start + 1)));
                if forall|j: int| 0 <= j < d.len() ==> #[trigger] ist_ziffer(d[j]) {
                    lemma_praefix_wert(d, i - start + 1);
                }
                assert(!ist_u32_text(s));
            }
            return false;
        }
        i = i + 1;
    }
    assert(d.take(d.len() as int) == d);
    true
}

/// Whether every data line of the `lscpu -p` output names its core with a
/// number that `str::parse::<u32>` accepts, as `kernart_bestimmen` needs.
pub fn lscpu_lesbar(zeilen: &Vec<String>) -> (ok: bool)
    ensures
        ok == zeilen_lesbar(zeilen.deep_view()),
{
    let ghost zs = zeilen.deep_view();
    let anzahl = zeilen.len();
    let mut z: usize = 0;
    while z < anzahl
        invariant
            anzahl == zs.len(),
            zs == zeilen.deep_view(),
            z <= anzahl,
            forall|i: int| 0 <= i < z ==> (#[trigger] spalte(zs[i]) matches Some(c) ==> ist_u32_text(c)),
        decreases anzahl - z,
    {
        proof {
            assert(zs[z as int] == zeilen@[z as int]@);
        }
        let t = zeichen(zeilen[z].as_str());
        match spalte_finden(&t) {
            Some((a, b)) => {
                if !ist_u32_text_pruefen(&t, a, b) {
                    return false;
                }
            },
            None => {},
        }
        z = z + 1;
    }
    true
}

/// Calls `slice::sort` on `v`: the same values, in ascending order.
#[verifier::external_body]
fn aufsteigend_sortieren(v: &mut Vec<u32>)
    ensures
        final(v)@.to_multiset() == old(v)@.to_multiset(),
        forall|i: int, j: int| 0 <= i <= j < final(v)@.len() ==> #[trigger] final(v)@[i] <= #[trigger] final(v)@[j],
{
    v.sort();
}

/// Sorting a list without repeated values gives a strictly ascending list of
/// the same values.
proof fn lemma_sortiert(alt: Seq<u32>, neu: Seq<u32>)
    requires
        alt.no_duplicates(),
        neu.to_multiset() == alt.to_multiset(),
        forall|i: int, j: int| 0 <= i <= j < neu.len() ==> #[trigger] neu[i] <= #[trigger] neu[j],
    ensures
        streng_aufsteigend(neu),
        forall|x: u32| neu.contains(x) <==> alt.contains(x),
{
    alt.to_multiset_ensures();
    neu.to_multiset_ensures();
    alt.lemma_multiset_has_no_duplicates();
    assert forall|x: u32| neu.to_multiset().contains(x) implies neu.to_multiset().count(x) == 1 by {}
    neu.lemma_multiset_has_no_duplicates_conv();
    assert forall|x: u32| neu.contains(x) <==> alt.contains(x) by {
        assert(neu.contains(x) <==> neu.to_multiset().count(x) > 0);
        assert(alt.contains(x) <==> alt.to_multiset().count(x) > 0);
    }
    assert forall|i: int, j: int| 0 <= i < j < neu.len() implies #[trigger] neu[i] < #[trigger] neu[j] by {
        assert(neu[i] <= neu[j]);
        assert(neu[i] != neu[j]);
    }
}

/// A core number occurs in at most as many lines as there are.
proof fn lemma_vorkommen_hoechstens(zeilen: Seq<Seq<char>>, x: int)
    ensures
        vorkommen(zeilen, x) <= zeilen.len(),
    decreases zeilen.len(),
{
    if zeilen.len() > 0 {
        lemma_vorkommen_hoechstens(zeilen.drop_last(), x);
    }
}

/// Counts, for every core number, the data lines that name it.
fn zaehlen(zeilen: &Vec<String>) -> (map: HashMap<u32, u32>)
    requires
        zeilen_lesbar(zeilen.deep_view()),
        zeilen@.len() <= u32::MAX,
    ensures
        forall|x: u32| #[trigger] map@.contains_key(x) <==> vorkommen(zeilen.deep_view(), x as int) >= 1,
        forall|x: u32| map@.contains_key(x) ==> #[trigger] map@[x] == vorkommen(zeilen.deep_view(), x as int),
{
    let ghost zs = zeilen.deep_view();
    let mut map: HashMap<u32, u32> = HashMap::new();
    let anzahl = zeilen.len();
    proof {
        assert(zs.take(0) == Seq::<Seq<char>>::empty());
    }
    for z in 0..anzahl
        invariant
            anzahl == zs.len(),
            zs == zeilen.deep_view(),
            anzahl <= u32::MAX,
            zeilen_lesbar(zs),
            forall|x: u32| #[trigger] map@.contains_key(x) <==> vorkommen(zs.take(z as int), x as int) >= 1,
            forall|x: u32| map@.contains_key(x) ==> #[trigger] map@[x] == vorkommen(zs.take(z as int), x as int),
    {
        proof {
            assert(zs.take(z + 1).drop_last() == zs.take(z as int));
            assert(zs.take(z + 1).last() == zs[z as int]);
            assert(zs[z as int] == zeilen@[z as int]@);
        }
        let kern = kern_lesen(&zeilen[z]);
        match kern {
            Some(k) => {
                if map.contains_key(&k) {
                    let zahl: u32 = *map.get(&k).unwrap();
                    assert(zahl == vorkommen(zs.take(z as int), k as int));
                    proof {
                        lemma_vorkommen_hoechstens(zs.take(z as int), k as int);
                    }
                    map.insert(k, zahl + 1);
                } else {
                    map.insert(k, 1);
                }
            },
            None => {},
        }
        proof {
            let neu = zs.take(z + 1);
            let vorher = zs.take(z as int);
            assert(neu.drop_last() == vorher);
            assert(neu.last() == zs[z as int]);
            assert(spalte(zs[z as int]) matches Some(c) ==> ist_u32_text(c));
            assert forall|x: u32| #[trigger] vorkommen(neu, x as int) == vorkommen(vorher, x as int) + (if kern == Some(x) {
                1int
            } else {
                0int
            }) by {
                match spalte(zs[z as int]) {
                    Some(c) => {
                        let d = ziffern(c);
                        lemma_praefix_wert(d, 0);
                        let wert = ziffern_wert(d);
                        assert(0 <= wert <= u32::MAX);
                        assert(kern == Some(wert as u32));
                        assert((wert as u32 == x) == (wert == x as int));
                    },
                    None => {
                        assert(kern is None);
                    },
                }
            }
        }
    }
    proof {
        assert(zs.take(anzahl as int) == zs);
    }
    map
}

/// The physical cores named in the output of `lscpu -p`, split into those with
/// more than one logical core (hyperthreading) and those with exactly one; both
/// lists ascending and without repetition.
pub fn kernart_bestimmen(zeilen: &Vec<String>) -> (r: (Vec<u32>, Vec<u32>))
    requires
        zeilen_lesbar(zeilen.deep_view()),
        zeilen@.len() <= u32::MAX,
    ensures
        streng_aufsteigend(r.0@),
        streng_aufsteigend(r.1@),
        forall|x: u32| r.0@.contains(x) <==> vorkommen(zeilen.deep_view(), x as int) > 1,
        forall|x: u32| r.1@.contains(x) <==> vorkommen(zeilen.deep_view(), x as int) == 1,
{
    let map = zaehlen(zeilen);
    let ghost zs = zeilen.deep_view();
    let mut mit_hyperthreading: Vec<u32> = Vec::new();
    let mut ohne_hyperthreading: Vec<u32> = Vec::new();
    let ghost mut herkunft_mit: Seq<int> = Seq::empty();
    let ghost mut herkunft_ohne: Seq<int> = Seq::empty();
    let ghost v0 = vstd::std_specs::hash::spec_hash_map_iter(&map).remaining();
    for paar in it: map.iter()
        invariant
            it.seq() == v0,
            v0 == vstd::std_specs::hash::spec_hash_map_iter(&map).remaining(),
            v0.no_duplicates(),
            herkunft_mit.len() == mit_hyperthreading@.len(),
            herkunft_ohne.len() == ohne_hyperthreading@.len(),
            forall|j: int| 0 <= j < herkunft_mit.len() ==> 0 <= #[trigger] herkunft_mit[j] < it.index()
                && *v0[herkunft_mit[j]].0 == mit_hyperthreading@[j] && *v0[herkunft_mit[j]].1 > 1,
            forall|j: int| 0 <= j < herkunft_ohne.len() ==> 0 <= #[trigger] herkunft_ohne[j] < it.index()
                && *v0[herkunft_ohne[j]].0 == ohne_hyperthreading@[j] && *v0[herkunft_ohne[j]].1 <= 1,
            forall|i: int| 0 <= i < it.index() && *v0[i].1 > 1 ==> mit_hyperthreading@.contains(*#[trigger] v0[i].0),
            forall|i: int| 0 <= i < it.index() && *v0[i].1 <= 1 ==> ohne_hyperthreading@.contains(*#[trigger] v0[i].0),
            mit_hyperthreading@.no_duplicates(),
            ohne_hyperthreading@.no_duplicates(),
    {
        let ghost idx = it.index() as int;
        proof {
            assert(paar == v0[idx]);
            assert(map@.contains_key(*v0[idx].0) && map@[*v0[idx].0] == *v0[idx].1);
        }
        let ghost mit_alt = mit_hyperthreading@;
        let ghost ohne_alt = ohne_hyperthreading@;
        let (id, anzahl) = paar;
        if *anzahl > 1 {
            proof {
                assert forall|j: int| 0 <= j < mit_hyperthreading@.len() implies mit_hyperthreading@[j] != *id by {
                    let h = herkunft_mit[j];
                    assert(map@.contains_key(*v0[h].0) && map@[*v0[h].0] == *v0[h].1);
                    if mit_hyperthreading@[j] == *id {
                        assert(v0[h] == v0[idx]);
                    }
                }
            }
            mit_hyperthreading.push(*id);
            proof {
                herkunft_mit = herkunft_mit.push(idx);
            }
        } else {
            proof {
                assert forall|j: int| 0 <= j < ohne_hyperthreading@.len() implies ohne_hyperthreading@[j] != *id by {
                    let h = herkunft_ohne[j];
                    assert(map@.contains_key(*v0[h].0) && map@[*v0[h].0] == *v0[h].1);
                    if ohne_hyperthreading@[j] == *id {
                        assert(v0[h] == v0[idx]);
                    }
                }
            }
            ohne_hyperthreading.push(*id);
            proof {
                herkunft_ohne = herkunft_ohne.push(idx);
            }
        }
        proof {
            assert forall|i: int| 0 <= i < idx + 1 && *v0[i].1 > 1 implies mit_hyperthreading@.contains(*#[trigger] v0[i].0) by {
                if i == idx {
                    assert(mit_hyperthreading@[mit_hyperthreading@.len() - 1] == *v0[i].0);
                } else {
                    assert(mit_alt.contains(*v0[i].0));
                    let j = choose|j: int| 0 <= j < mit_alt.len() && mit_alt[j] == *v0[i].0;
                    assert(mit_hyperthreading@[j] == mit_alt[j]);
                }
            }
            assert forall|i: int| 0 <= i < idx + 1 && *v0[i].1 <= 1 implies ohne_hyperthreading@.contains(*#[trigger] v0[i].0) by {
                if i == idx {
                    assert(ohne_hyperthreading@[ohne_hyperthreading@.len() - 1] == *v0[i].0);
                } else {
                    assert(ohne_alt.contains(*v0[i].0));
                    let j = choose|j: int| 0 <= j < ohne_alt.len() && ohne_alt[j] == *v0[i].0;
                    assert(ohne_hyperthreading@[j] == ohne_alt[j]);
                }
            }
        }
    }
    let ghost mit_vorher = mit_hyperthreading@;
    let ghost ohne_vorher = ohne_hyperthreading@;
    proof {
        assert forall|x: u32| mit_vorher.contains(x) <==> vorkommen(zs, x as int) > 1 by {
            if vorkommen(zs, x as int) > 1 {
                assert(map@.contains_key(x));
                assert(v0.contains((&x, &map@[x])));
                let i = choose|i: int| 0 <= i < v0.len() && v0[i] == (&x, &map@[x]);
                assert(*v0[i].0 == x);
            }
            if mit_vorher.contains(x) {
                let j = choose|j: int| 0 <= j < mit_vorher.len() && mit_vorher[j] == x;
                let h = herkunft_mit[j];
                assert(map@.contains_key(*v0[h].0) && map@[*v0[h].0] == *v0[h].1);
            }
        }
        assert forall|x: u32| ohne_vorher.contains(x) <==> vorkommen(zs, x as int) == 1 by {
            if vorkommen(zs, x as int) == 1 {
                assert(map@.contains_key(x));
                assert(v0.contains((&x, &map@[x])));
                let i = choose|i: int| 0 <= i < v0.len() && v0[i] == (&x, &map@[x]);
                assert(*v0[i].0 == x);
            }
            if ohne_vorher.contains(x) {
                let j = choose|j: int| 0 <= j < ohne_vorher.len() && ohne_vorher[j] == x;
                let h = herkunft_ohne[j];
                assert(map@.contains_key(*v0[h].0) && map@[*v0[h].0] == *v0[h].1);
            }
        }
    }
    aufsteigend_sortieren(&mut mit_hyperthreading);
    aufsteigend_sortieren(&mut ohne_hyperthreading);
    proof {
        lemma_sortiert(mit_vorher, mit_hyperthreading@);
        lemma_sortiert(ohne_vorher, ohne_hyperthreading@);
    }
    (mit_hyperthreading, ohne_hyperthreading)
}

/// Logical cores per hyperthreaded core, for `logisch` logical cores, `mit`
/// physical cores with hyperthreading and `ohne` without: the logical cores left
/// after one for each core without hyperthreading, shared among the
/// hyperthreaded cores. Where that cannot be formed (no hyperthreaded core, or
/// fewer logical cores than cores without hyperthreading) it is the logical
/// cores divided by all physical cores, and 1 when no physical core is known.
pub open spec fn threads_pro_kern(logisch: int, mit: int, ohne: int) -> int {
    if mit > 0 && logisch >= ohne {
        (logisch - ohne) / mit
    } else if mit + ohne > 0 {
        logisch / (mit + ohne)
    } else {
        1
    }
}

/// When each of the `mit` hyperthreaded cores has `t` logical cores and each of
/// the `ohne` others has one, the hyperthreads per core come out as `t`.
pub proof fn lemma_threads_pro_kern(mit: int, ohne: int, t: int)
    requires
        mit > 0,
        ohne >= 0,
        t >= 0,
    ensures
        threads_pro_kern(mit * t + ohne, mit, ohne) == t,
{
    assert((mit * t + ohne - ohne) / mit == t) by (nonlinear_arith)
        requires
            mit > 0,
    {
        vstd::arithmetic::div_mod::lemma_div_multiples_vanish(t, mit);
    }
    assert(mit * t >= 0) by (nonlinear_arith)
        requires
            mit > 0,
            t >= 0,
    ;
}

impl ProzessorSpecs {
    /// Assembles the description from the model name, the number of logical
    /// cores and the two lists of physical cores: the physical cores are those of
    /// both lists. Every core without hyperthreading has one logical core, so the
    /// logical cores per hyperthreaded core are the remaining logical cores
    /// divided by the hyperthreaded cores. Without a hyperthreaded core (or with
    /// fewer logical cores than cores without hyperthreading) it is the logical
    /// cores divided by the physical ones, and 1 when no physical core is known.
    pub fn aus_daten(name: String, logisch: u32, mit_hyperthreading: Vec<u32>, ohne_hyperthreading: Vec<u32>) -> (p: Self)
        requires
            mit_hyperthreading@.len() + ohne_hyperthreading@.len() <= u32::MAX,
        ensures
            p.name@ == name@,
            p.logisch == logisch,
            p.physisch == mit_hyperthreading@.len() + ohne_hyperthreading@.len(),
            p.hyperthreads_pro_kern == threads_pro_kern(
                logisch as int,
                mit_hyperthreading@.len() as int,
                ohne_hyperthreading@.len() as int,
            ),
            p.mit_hyperthreading@ == mit_hyperthreading@,
            p.ohne_hyperthreading@ == ohne_hyperthreading@,
    {
        let physisch: u32 = mit_hyperthreading.len() as u32 + ohne_hyperthreading.len() as u32;
        let mit: u32 = mit_hyperthreading.len() as u32;
        let ohne: u32 = ohne_hyperthreading.len() as u32;
        let hyperthreads_pro_kern: u32 = if mit > 0 && logisch >= ohne {
            (logisch - ohne) / mit
        } else if physisch > 0 {
            logisch / physisch
        } else {
            1
        };
        ProzessorSpecs { name, logisch, physisch, hyperthreads_pro_kern, mit_hyperthreading, ohne_hyperthreading }
    }

    /// Whether everything was found: a model name, logical and physical cores,
    /// and cores both with and without hyperthreading.
    pub fn vollstaendig(&self) -> (ok: bool)
        ensures
            ok == (self.name@.len() > 0 && self.logisch != 0 && self.physisch != 0
                && self.mit_hyperthreading@.len() > 0 && self.ohne_hyperthreading@.len() > 0),
    {
        let name_leer = self.name.as_str().is_empty();
        !(name_leer || self.logisch == 0 || self.physisch == 0 || self.mit_hyperthreading.len() == 0
            || self.ohne_hyperthreading.len() == 0)
    }
}

} // verus!
