//! Text as sequences of characters: ordering and search.

use vstd::prelude::*;

verus! {

/// The code point of a character.
pub open spec fn code(c: char) -> int {
    c as u32 as int
}

/// Strict lexicographic order by code point: `a` comes before `b`.
///
/// The first position at which the two differ decides; where one is a
/// proper prefix of the other, the shorter comes first.
pub open spec fn lex_lt(a: Seq<char>, b: Seq<char>) -> bool {
    exists|k: int| #[trigger] differs_at(a, b, k) && below_at(a, b, k)
}

/// `a` and `b` agree on their first `k` characters and part ways at `k`.
pub open spec fn differs_at(a: Seq<char>, b: Seq<char>, k: int) -> bool {
    &&& 0 <= k <= a.len()
    &&& k <= b.len()
    &&& a.take(k) == b.take(k)
    &&& (k == a.len() || k == b.len() || a[k] != b[k])
}

/// At position `k`, `a` ends while `b` goes on, or holds the smaller character.
pub open spec fn below_at(a: Seq<char>, b: Seq<char>, k: int) -> bool {
    k < b.len() && (k == a.len() || code(a[k]) < code(b[k]))
}

/// `a` comes before `b`, or is the same text.
pub open spec fn lex_le(a: Seq<char>, b: Seq<char>) -> bool {
    a == b || lex_lt(a, b)
}

/// `needle` occurs in `hay` starting at position `at`.
pub open spec fn occurs_at(hay: Seq<char>, needle: Seq<char>, at: int) -> bool {
    &&& 0 <= at
    &&& at + needle.len() <= hay.len()
    &&& hay.subrange(at, at + needle.len()) == needle
}

/// `needle` occurs somewhere in `hay` as a contiguous run of characters.
pub open spec fn has_infix(hay: Seq<char>, needle: Seq<char>) -> bool {
    exists|at: int| occurs_at(hay, needle, at)
}

/// Two texts part ways at one position only.
pub proof fn lemma_differs_at_unique(a: Seq<char>, b: Seq<char>, j: int, k: int)
    requires
        differs_at(a, b, j),
        differs_at(a, b, k),
    ensures
        j == k,
{
    if j < k {
        assert(a.take(k)[j] == b.take(k)[j]);
    } else if k < j {
        assert(a.take(j)[k] == b.take(j)[k]);
    }
}

/// Texts that part ways nowhere short of both ends are equal.
pub proof fn lemma_differs_at_end(a: Seq<char>, b: Seq<char>)
    requires
        differs_at(a, b, a.len() as int),
        a.len() == b.len(),
    ensures
        a == b,
{
    assert(a.take(a.len() as int) =~= a);
    assert(b.take(b.len() as int) =~= b);
}

/// Distinct characters have distinct code points.
pub proof fn lemma_code_injective(a: char, b: char)
    requires
        a != b,
    ensures
        code(a) != code(b),
{
    assert(a as u32 as char == a);
    assert(b as u32 as char == b);
}

/// Past a common prefix of length `k`, two texts part ways somewhere.
proof fn lemma_parts_ways_from(a: Seq<char>, b: Seq<char>, k: int)
    requires
        0 <= k <= a.len(),
        k <= b.len(),
        a.take(k) == b.take(k),
    ensures
        exists|j: int| differs_at(a, b, j),
    decreases a.len() - k,
{
    if k == a.len() || k == b.len() || a[k] != b[k] {
        assert(differs_at(a, b, k));
    } else {
        assert(a.take(k + 1) =~= a.take(k).push(a[k]));
        assert(b.take(k + 1) =~= b.take(k).push(b[k]));
        lemma_parts_ways_from(a, b, k + 1);
    }
}

/// Of two texts, one comes before the other or they are the same.
pub proof fn lemma_lex_total(a: Seq<char>, b: Seq<char>)
    ensures
        lex_lt(a, b) || a == b || lex_lt(b, a),
{
    assert(a.take(0) =~= b.take(0));
    lemma_parts_ways_from(a, b, 0);
    let k = choose|k: int| differs_at(a, b, k);
    if k < b.len() && (k == a.len() || code(a[k]) < code(b[k])) {
        assert(below_at(a, b, k));
    } else if k < a.len() && (k == b.len() || code(b[k]) < code(a[k])) {
        assert(differs_at(b, a, k));
        assert(below_at(b, a, k));
    } else {
        if k < a.len() && k < b.len() {
            lemma_code_injective(a[k], b[k]);
        }
        lemma_differs_at_end(a, b);
    }
}

/// No text comes before itself, and of two texts at most one comes before
/// the other.
pub proof fn lemma_lex_asymmetric(a: Seq<char>, b: Seq<char>)
    requires
        lex_lt(a, b),
    ensures
        a != b,
        !lex_lt(b, a),
{
    let k = choose|k: int| #[trigger] differs_at(a, b, k) && below_at(a, b, k);
    if a == b {
        assert(differs_at(a, b, a.len() as int)) by {
            assert(a.take(a.len() as int) =~= b.take(a.len() as int));
        }
        lemma_differs_at_unique(a, b, k, a.len() as int);
    }
    if lex_lt(b, a) {
        let j = choose|j: int| #[trigger] differs_at(b, a, j) && below_at(b, a, j);
        assert(differs_at(a, b, j));
        lemma_differs_at_unique(a, b, j, k);
    }
}

/// The characters of `s`, in order.
pub fn chars_of(s: &str) -> (v: Vec<char>)
    ensures
        v@ == s@,
{
    broadcast use vstd::string::axiom_spec_iter;

    let mut v: Vec<char> = Vec::new();
    for c in it: s.chars()
        invariant
            it.seq() == s@,
            v@ == s@.take(it.index()),
    {
        assert(s@.take(it.index() + 1) =~= s@.take(it.index()).push(c));
        v.push(c);
    }
    assert(s@.take(s@.len() as int) =~= s@);
    v
}

/// Whether `a` comes strictly before `b` in lexicographic order.
pub fn chars_lt(a: &Vec<char>, b: &Vec<char>) -> (r: bool)
    ensures
        r == lex_lt(a@, b@),
{
    let mut k: usize = 0;
    while k < a.len() && k < b.len() && a[k] == b[k]
        invariant
            k <= a.len(),
            k <= b.len(),
            a@.take(k as int) == b@.take(k as int),
        decreases a.len() - k,
    {
        assert(a@.take(k + 1) =~= a@.take(k as int).push(a@[k as int]));
        assert(b@.take(k + 1) =~= b@.take(k as int).push(b@[k as int]));
        k += 1;
    }
    assert(differs_at(a@, b@, k as int));
    let r = k < b.len() && (k == a.len() || (a[k] as u32) < (b[k] as u32));
    proof {
        assert(r == below_at(a@, b@, k as int));
        if lex_lt(a@, b@) {
            let j = choose|j: int| #[trigger] differs_at(a@, b@, j) && below_at(a@, b@, j);
            lemma_differs_at_unique(a@, b@, j, k as int);
        }
    }
    r
}

/// Whether `a` comes strictly before `b` in lexicographic order.
pub fn str_lt(a: &str, b: &str) -> (r: bool)
    ensures
        r == lex_lt(a@, b@),
{
    let x = chars_of(a);
    let y = chars_of(b);
    chars_lt(&x, &y)
}

/// Whether `needle` stands in `hay` at position `at`.
fn matches_at(hay: &Vec<char>, needle: &Vec<char>, at: usize) -> (r: bool)
    requires
        at + needle.len() <= hay.len(),
    ensures
        r == occurs_at(hay@, needle@, at as int),
{
    let mut j: usize = 0;
    while j < needle.len()
        invariant
            j <= needle.len(),
            at + needle.len() <= hay.len(),
            forall|i: int| 0 <= i < j ==> hay@[at + i] == needle@[i],
        decreases needle.len() - j,
    {
        if hay[at + j] != needle[j] {
            assert(hay@.subrange(at as int, at + needle.len())[j as int] == hay@[at + j]);
            return false;
        }
        j += 1;
    }
    assert(hay@.subrange(at as int, at + needle.len()) =~= needle@);
    true
}

/// Whether `needle` occurs somewhere in `hay`.
pub fn chars_contain(hay: &Vec<char>, needle: &Vec<char>) -> (r: bool)
    ensures
        r == has_infix(hay@, needle@),
{
    if needle.len() > hay.len() {
        return false;
    }
    let last: usize = hay.len() - needle.len();
    let mut at: usize = 0;
    while at < last
        invariant
            at <= last,
            last == hay.len() - needle.len(),
            needle.len() <= hay.len(),
            forall|i: int| 0 <= i < at ==> !occurs_at(hay@, needle@, i),
        decreases last - at,
    {
        if matches_at(hay, needle, at) {
            return true;
        }
        at += 1;
    }
    matches_at(hay, needle, last)
}

/// Whether `needle` occurs somewhere in `hay`.
pub fn str_contains(hay: &str, needle: &str) -> (r: bool)
    ensures
        r == has_infix(hay@, needle@),
{
    let h = chars_of(hay);
    let n = chars_of(needle);
    chars_contain(&h, &n)
}

} // verus!
