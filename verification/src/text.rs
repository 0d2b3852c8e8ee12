//! Character-level helpers for the text the program reads.
use vstd::prelude::*;

verus! {

/// The characters of `s`, in order.
pub fn zeichen(s: &str) -> (v: Vec<char>)
    ensures
        v@ == s@,
{
    let mut v: Vec<char> = Vec::new();
    for c in it: s.chars()
        invariant
            v@ == it.seq().take(it.index() as int),
            it.seq() == s@,
    {
        v.push(c);
        proof {
            assert(it.seq().take(it.index() + 1) == it.seq().take(it.index() as int).push(c));
        }
    }
    proof {
        assert(s@.take(s@.len() as int) == s@);
    }
    v
}

/// White space as `char::is_whitespace` (and so `str::trim`) understands it:
/// the characters with the Unicode property `White_Space`.
pub open spec fn ist_leerraum(c: char) -> bool {
    ||| c == '\t'
    ||| c == '\n'
    ||| c == '\u{0B}'
    ||| c == '\u{0C}'
    ||| c == '\r'
    ||| c == ' '
    ||| c == '\u{85}'
    ||| c == '\u{A0}'
    ||| c == '\u{1680}'
    ||| ('\u{2000}' <= c && c <= '\u{200A}')
    ||| c == '\u{2028}'
    ||| c == '\u{2029}'
    ||| c == '\u{202F}'
    ||| c == '\u{205F}'
    ||| c == '\u{3000}'
}

/// Whether `c` is white space.
pub fn leerraum(c: char) -> (r: bool)
    ensures
        r == ist_leerraum(c),
{
    c == '\t' || c == '\n' || c == '\u{0B}' || c == '\u{0C}' || c == '\r' || c == ' ' || c == '\u{85}'
        || c == '\u{A0}' || c == '\u{1680}' || ('\u{2000}' <= c && c <= '\u{200A}') || c == '\u{2028}'
        || c == '\u{2029}' || c == '\u{202F}' || c == '\u{205F}' || c == '\u{3000}'
}

/// First index in `a..b` whose character is not white space (`b` if none).
pub open spec fn anfang_ohne_leerraum(t: Seq<char>, a: int, b: int) -> int
    decreases b - a,
{
    if a >= b {
        b
    } else if ist_leerraum(t[a]) {
        anfang_ohne_leerraum(t, a + 1, b)
    } else {
        a
    }
}

/// One past the last index in `a..b` whose character is not white space (`a`
/// if none).
pub open spec fn ende_ohne_leerraum(t: Seq<char>, a: int, b: int) -> int
    decreases b - a,
{
    if b <= a {
        a
    } else if ist_leerraum(t[b - 1]) {
        ende_ohne_leerraum(t, a, b - 1)
    } else {
        b
    }
}

/// `t[a..b]` without white space at either end: what `str::trim` returns.
pub open spec fn getrimmt(t: Seq<char>, a: int, b: int) -> Seq<char> {
    let s = anfang_ohne_leerraum(t, a, b);
    t.subrange(s, ende_ohne_leerraum(t, s, b))
}

proof fn lemma_anfang_ohne_leerraum(t: Seq<char>, a: int, b: int)
    requires
        0 <= a <= b <= t.len(),
    ensures
        a <= anfang_ohne_leerraum(t, a, b) <= b,
        forall|k: int| a <= k < anfang_ohne_leerraum(t, a, b) ==> ist_leerraum(#[trigger] t[k]),
        anfang_ohne_leerraum(t, a, b) < b ==> !ist_leerraum(t[anfang_ohne_leerraum(t, a, b)]),
    decreases b - a,
{
    if a < b && ist_leerraum(t[a]) {
        lemma_anfang_ohne_leerraum(t, a + 1, b);
    }
}

proof fn lemma_ende_ohne_leerraum(t: Seq<char>, a: int, b: int)
    requires
        0 <= a <= b <= t.len(),
    ensures
        a <= ende_ohne_leerraum(t, a, b) <= b,
        forall|k: int| ende_ohne_leerraum(t, a, b) <= k < b ==> ist_leerraum(#[trigger] t[k]),
        ende_ohne_leerraum(t, a, b) > a ==> !ist_leerraum(t[ende_ohne_leerraum(t, a, b) - 1]),
    decreases b - a,
{
    if a < b && ist_leerraum(t[b - 1]) {
        lemma_ende_ohne_leerraum(t, a, b - 1);
    }
}

/// Trimming `t[a..b]` keeps one piece `t[s..e]` of it: everything cut off at
/// either end is white space, and a piece that is not empty neither starts nor
/// ends with white space. (So a text of white space only trims to nothing.)
pub proof fn lemma_getrimmt(t: Seq<char>, a: int, b: int)
    requires
        0 <= a <= b <= t.len(),
    ensures
        exists|s: int, e: int|
            #![trigger t.subrange(s, e)]
            a <= s <= e <= b && getrimmt(t, a, b) == t.subrange(s, e) && (forall|k: int|
                a <= k < s ==> ist_leerraum(#[trigger] t[k])) && (forall|k: int|
                e <= k < b ==> ist_leerraum(#[trigger] t[k])) && (s < e ==> !ist_leerraum(t[s]) && !ist_leerraum(
                t[e - 1],
            )),
{
    let s = anfang_ohne_leerraum(t, a, b);
    lemma_anfang_ohne_leerraum(t, a, b);
    let e = ende_ohne_leerraum(t, s, b);
    lemma_ende_ohne_leerraum(t, s, b);
    assert(getrimmt(t, a, b) == t.subrange(s, e));
}

/// The bounds of `t[a..b]` without white space at either end.
pub fn trimmen(t: &Vec<char>, a: usize, b: usize) -> (r: (usize, usize))
    requires
        a <= b <= t@.len(),
    ensures
        r.0 == anfang_ohne_leerraum(t@, a as int, b as int),
        r.1 == ende_ohne_leerraum(t@, r.0 as int, b as int),
        a <= r.0 <= r.1 <= b,
{
    let mut s: usize = a;
    while s < b && leerraum(t[s])
        invariant
            a <= s <= b,
            b <= t@.len(),
            anfang_ohne_leerraum(t@, s as int, b as int) == anfang_ohne_leerraum(t@, a as int, b as int),
        decreases b - s,
    {
        s = s + 1;
    }
    let mut e: usize = b;
    while e > s && leerraum(t[e - 1])
        invariant
            s <= e <= b,
            b <= t@.len(),
            ende_ohne_leerraum(t@, s as int, e as int) == ende_ohne_leerraum(t@, s as int, b as int),
        decreases e,
    {
        e = e - 1;
    }
    (s, e)
}

/// Whether `t[a..b]` consists of the characters `w`.
pub fn gleicher_text(t: &Vec<char>, a: usize, b: usize, w: &Vec<char>) -> (r: bool)
    requires
        a <= b <= t@.len(),
    ensures
        r == (t@.subrange(a as int, b as int) == w@),
{
    if b - a != w.len() {
        return false;
    }
    let mut i: usize = 0;
    while i < w.len()
        invariant
            a <= b <= t@.len(),
            b - a == w@.len(),
            i <= w@.len(),
            forall|j: int| 0 <= j < i ==> t@[a + j] == w@[j],
        decreases w@.len() - i,
    {
        if t[a + i] != w[i] {
            assert(t@.subrange(a as int, b as int)[i as int] != w@[i as int]);
            return false;
        }
        i = i + 1;
    }
    assert(t@.subrange(a as int, b as int) == w@);
    true
}

} // verus!
