//! The locator of a channel's funding output: block height, index of the
//! transaction in the block and index of the output in the transaction,
//! written as three decimal numbers joined by `x`.

use crate::error::IntegrityError;
use crate::text::chars_of;
use vstd::prelude::*;

verus! {

/// Where a channel's funding output sits on the ledger.
#[derive(Clone, Copy, Debug, PartialEq, Eq, Structural)]
pub struct Locator {
    pub block_height: i64,
    pub tx_index: usize,
    pub output_index: usize,
}

/// The character is a decimal digit.
pub open spec fn is_digit(c: char) -> bool {
    '0' <= c <= '9'
}

/// The number that a decimal digit stands for.
pub open spec fn digit_value(c: char) -> int {
    c as int - '0' as int
}

/// The number that a run of decimal digits stands for.
pub open spec fn decimal_value(digits: Seq<char>) -> int
    decreases digits.len(),
{
    if digits.len() == 0 {
        0
    } else {
        10 * decimal_value(digits.drop_last()) + digit_value(digits.last())
    }
}

/// Positions `from` up to `to` of `s` hold a number: digits, and at least one.
pub open spec fn number_at(s: Seq<char>, from: int, to: int) -> bool {
    &&& 0 <= from < to <= s.len()
    &&& forall|k: int| from <= k < to ==> is_digit(#[trigger] s[k])
}

/// `s` is three numbers joined by an `x` at position `a` and one at `b`.
pub open spec fn shaped(s: Seq<char>, a: int, b: int) -> bool {
    &&& number_at(s, 0, a)
    &&& a < s.len() && s[a] == 'x'
    &&& number_at(s, a + 1, b)
    &&& b < s.len() && s[b] == 'x'
    &&& number_at(s, b + 1, s.len() as int)
}

/// `s` is the written form of `l`.
pub open spec fn denotes(s: Seq<char>, l: Locator) -> bool {
    exists|a: int, b: int|
        {
            &&& #[trigger] shaped(s, a, b)
            &&& l.block_height == decimal_value(s.subrange(0, a))
            &&& l.tx_index == decimal_value(s.subrange(a + 1, b))
            &&& l.output_index == decimal_value(s.subrange(b + 1, s.len() as int))
        }
}

/// `s` is the written form of some locator.
pub open spec fn well_formed(s: Seq<char>) -> bool {
    exists|l: Locator| denotes(s, l)
}

/// A text has one shape at most: the joints are where its first and second
/// character other than a digit stand.
pub proof fn lemma_shape_unique(s: Seq<char>, a: int, b: int, c: int, d: int)
    requires
        shaped(s, a, b),
        shaped(s, c, d),
    ensures
        a == c,
        b == d,
{
    if a < c {
        assert(is_digit(s[a]));
    } else if c < a {
        assert(is_digit(s[c]));
    }
    if b < d {
        assert(is_digit(s[b]));
    } else if d < b {
        assert(is_digit(s[d]));
    }
}

/// A text is the written form of one locator at most.
pub proof fn lemma_denotes_unique(s: Seq<char>, l: Locator, m: Locator)
    requires
        denotes(s, l),
        denotes(s, m),
    ensures
        l == m,
{
    let (a, b) = choose|a: int, b: int|
        {
            &&& #[trigger] shaped(s, a, b)
            &&& l.block_height == decimal_value(s.subrange(0, a))
            &&& l.tx_index == decimal_value(s.subrange(a + 1, b))
            &&& l.output_index == decimal_value(s.subrange(b + 1, s.len() as int))
        };
    let (c, d) = choose|c: int, d: int|
        {
            &&& #[trigger] shaped(s, c, d)
            &&& m.block_height == decimal_value(s.subrange(0, c))
            &&& m.tx_index == decimal_value(s.subrange(c + 1, d))
            &&& m.output_index == decimal_value(s.subrange(d + 1, s.len() as int))
        };
    lemma_shape_unique(s, a, b, c, d);
}

/// Whether the character is a decimal digit.
fn digit(c: char) -> (r: bool)
    ensures
        r == is_digit(c),
{
    '0' <= c && c <= '9'
}

/// What the longest run of digits from `start` on stands for.
///
/// Returns the position after the run, and the run's value unless it is
/// above `limit`.
fn read_number(s: &Vec<char>, start: usize, limit: u64) -> (r: (usize, Option<u64>))
    requires
        start <= s.len(),
    ensures
        start <= r.0 <= s.len(),
        forall|k: int| start <= k < r.0 ==> is_digit(#[trigger] s@[k]),
        r.0 < s.len() ==> !is_digit(s@[r.0 as int]),
        r.1 is Some <==> decimal_value(s@.subrange(start as int, r.0 as int)) <= limit,
        r.1 matches Some(v) ==> v == decimal_value(s@.subrange(start as int, r.0 as int)),
{
    let mut k: usize = start;
    let mut value: u64 = 0;
    let mut over = false;
    assert(s@.subrange(start as int, start as int) =~= Seq::<char>::empty());
    while k < s.len() && digit(s[k])
        invariant
            start <= k <= s.len(),
            forall|j: int| start <= j < k ==> is_digit(#[trigger] s@[j]),
            !over ==> value == decimal_value(s@.subrange(start as int, k as int)) && value <= limit,
            over ==> decimal_value(s@.subrange(start as int, k as int)) > limit,
        decreases s.len() - k,
    {
        let d: u64 = (s[k] as u32 - '0' as u32) as u64;
        proof {
            let run = s@.subrange(start as int, k + 1);
            assert(run.drop_last() =~= s@.subrange(start as int, k as int));
            assert(run.last() == s@[k as int]);
            assert(d == digit_value(s@[k as int]));
        }
        if !over {
            if d > limit || value > (limit - d) / 10 {
                over = true;
            } else {
                value = value * 10 + d;
            }
        }
        k += 1;
    }
    if over {
        (k, None)
    } else {
        (k, Some(value))
    }
}

/// Reads a locator.
///
/// Succeeds on three decimal numbers joined by `x` of which the first fits
/// a block height and the others an index; fails on every other text.
pub fn parse_locator(text: &str) -> (r: Result<Locator, IntegrityError>)
    ensures
        r is Ok <==> well_formed(text@),
        r matches Ok(l) ==> denotes(text@, l),
        r matches Err(e) ==> e == IntegrityError::MalformedLocator,
{
    let s = chars_of(text);
    let n = s.len();
    let (a, height) = read_number(&s, 0, i64::MAX as u64);
    if a == 0 || a >= n || s[a] != 'x' {
        proof {
            lemma_no_shape(s@, a as int, -1);
        }
        return Err(IntegrityError::MalformedLocator);
    }
    let (b, index) = read_number(&s, a + 1, usize::MAX as u64);
    if b == a + 1 || b >= n || s[b] != 'x' {
        proof {
            lemma_no_shape(s@, a as int, b as int);
        }
        return Err(IntegrityError::MalformedLocator);
    }
    let (c, output) = read_number(&s, b + 1, usize::MAX as u64);
    if c == b + 1 || c < n {
        proof {
            lemma_no_shape(s@, a as int, b as int);
        }
        return Err(IntegrityError::MalformedLocator);
    }
    assert(shaped(s@, a as int, b as int));
    match (height, index, output) {
        (Some(h), Some(i), Some(o)) => {
            let l = Locator { block_height: h as i64, tx_index: i as usize, output_index: o as usize };
            assert(denotes(s@, l));
            Ok(l)
        },
        _ => {
            proof {
                if well_formed(s@) {
                    let l = choose|l: Locator| denotes(s@, l);
                    let (x, y) = choose|x: int, y: int|
                        {
                            &&& #[trigger] shaped(s@, x, y)
                            &&& l.block_height == decimal_value(s@.subrange(0, x))
                            &&& l.tx_index == decimal_value(s@.subrange(x + 1, y))
                            &&& l.output_index == decimal_value(
                                s@.subrange(y + 1, s@.len() as int),
                            )
                        };
                    lemma_shape_unique(s@, a as int, b as int, x, y);
                }
            }
            Err(IntegrityError::MalformedLocator)
        },
    }
}

/// A text whose first run of digits ends at `a`, and whose second, if `b` is
/// given, ends at `b`, has no shape unless joints and numbers are where the
/// runs put them.
proof fn lemma_no_shape(s: Seq<char>, a: int, b: int)
    requires
        0 <= a <= s.len(),
        forall|k: int| 0 <= k < a ==> is_digit(#[trigger] s[k]),
        a < s.len() ==> !is_digit(s[a]),
        b >= 0 ==> {
            &&& a < b <= s.len()
            &&& forall|k: int| a + 1 <= k < b ==> is_digit(#[trigger] s[k])
            &&& b < s.len() ==> !is_digit(s[b])
        },
        b < 0 ==> a == 0 || a >= s.len() || s[a] != 'x',
        b >= 0 ==> {
            ||| b == a + 1
            ||| b >= s.len()
            ||| s[b] != 'x'
            ||| exists|k: int| b + 1 <= k < s.len() && !is_digit(#[trigger] s[k])
            ||| b + 1 == s.len()
        },
    ensures
        !well_formed(s),
{
    if well_formed(s) {
        let l = choose|l: Locator| denotes(s, l);
        let (x, y) = choose|x: int, y: int|
            {
                &&& #[trigger] shaped(s, x, y)
                &&& l.block_height == decimal_value(s.subrange(0, x))
                &&& l.tx_index == decimal_value(s.subrange(x + 1, y))
                &&& l.output_index == decimal_value(s.subrange(y + 1, s.len() as int))
            };
        if x < a {
            assert(is_digit(s[x]));
        } else if a < x {
            assert(is_digit(s[a]));
        }
        if b >= 0 {
            if y < b {
                assert(is_digit(s[y]));
            } else if b < y {
                assert(is_digit(s[b]));
            }
        }
    }
}

} // verus!
