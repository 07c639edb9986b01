//! Helpers for showing the tables to a reader.

use vstd::prelude::*;
use vstd::string::StringSliceAdditionalSpecFns;
use vstd::utf8::{
    decode_utf8, encode_utf8, encode_utf8_decode_utf8, encode_utf8_valid_utf8, is_ascii_chars,
    is_ascii_chars_encode_utf8, is_char_boundary, is_char_boundary_iff_not_is_continuation_byte,
    is_char_boundary_start_end_of_seq, is_continuation_byte,
};

verus! {

/// The text can be cut after its first four bytes and before its last four
/// without cutting through a character.
pub open spec fn can_abbreviate(long: Seq<char>) -> bool {
    let bytes = encode_utf8(long);
    &&& bytes.len() >= 4
    &&& is_char_boundary(bytes, 4)
    &&& is_char_boundary(bytes, bytes.len() - 4)
}

/// The short form of a long identifier: the characters in its first four
/// bytes, an ellipsis and the characters in its last four bytes.
pub open spec fn abbreviation(long: Seq<char>) -> Seq<char> {
    let bytes = encode_utf8(long);
    decode_utf8(bytes.subrange(0, 4)) + seq!['\u{2026}'] + decode_utf8(
        bytes.subrange(bytes.len() - 4, bytes.len() as int),
    )
}

/// Shortens a long identifier, such as a node's public key, to its first
/// and last four bytes with an ellipsis between them.
pub fn abbreviate(long: String) -> (short: String)
    requires
        can_abbreviate(long@),
    ensures
        short@ == abbreviation(long@),
{
    broadcast use {encode_utf8_decode_utf8, encode_utf8_valid_utf8};

    let text = long.as_str();
    let len = text.as_bytes().len();
    assert(text.spec_bytes() == encode_utf8(long@));
    let last = len - 4;
    let (head, _) = text.split_at(4);
    let (_, tail) = text.split_at(last);
    proof {
        reveal_strlit("\u{2026}");
        assert(head@ == decode_utf8(encode_utf8(head@)));
        assert(tail@ == decode_utf8(encode_utf8(tail@)));
        assert("\u{2026}"@ =~= seq!['\u{2026}']);
    }
    let mut short = head.to_owned();
    short.append("\u{2026}");
    short.append(tail);
    short
}

/// A text of plain ASCII can be abbreviated as soon as it has four
/// characters, and its short form is its first four characters, an ellipsis
/// and its last four characters.
pub proof fn lemma_abbreviation_of_ascii(long: Seq<char>)
    requires
        is_ascii_chars(long),
        long.len() >= 4,
    ensures
        can_abbreviate(long),
        abbreviation(long) == long.take(4) + seq!['\u{2026}'] + long.skip(long.len() - 4),
{
    broadcast use {encode_utf8_decode_utf8, encode_utf8_valid_utf8};

    let bytes = encode_utf8(long);
    let n = long.len() as int;
    is_ascii_chars_encode_utf8(long);
    is_char_boundary_start_end_of_seq(bytes);
    if n > 4 {
        assert(!is_continuation_byte(bytes[4])) by {
            assert(long[4] as u8 == bytes[4]);
        }
        is_char_boundary_iff_not_is_continuation_byte(bytes, 4);
        assert(!is_continuation_byte(bytes[n - 4])) by {
            assert(long[n - 4] as u8 == bytes[n - 4]);
        }
        is_char_boundary_iff_not_is_continuation_byte(bytes, n - 4);
    }
    let head = long.take(4);
    let tail = long.skip(n - 4);
    is_ascii_chars_encode_utf8(head);
    is_ascii_chars_encode_utf8(tail);
    assert(encode_utf8(head) =~= bytes.subrange(0, 4)) by {
        assert forall|i: int| 0 <= i < 4 implies encode_utf8(head)[i] == bytes[i] by {
            assert(head[i] as u8 == encode_utf8(head)[i]);
            assert(long[i] as u8 == bytes[i]);
        }
    }
    assert(encode_utf8(tail) =~= bytes.subrange(n - 4, n)) by {
        assert forall|i: int| 0 <= i < 4 implies encode_utf8(tail)[i] == bytes[n - 4 + i] by {
            assert(tail[i] as u8 == encode_utf8(tail)[i]);
            assert(long[n - 4 + i] as u8 == bytes[n - 4 + i]);
        }
    }
    assert(decode_utf8(encode_utf8(head)) == head);
    assert(decode_utf8(encode_utf8(tail)) == tail);
}

/// Shortens a long identifier if it can be cut four bytes from each end.
pub fn checked_abbreviate(long: String) -> (short: Option<String>)
    ensures
        short is Some <==> can_abbreviate(long@),
        short matches Some(s) ==> s@ == abbreviation(long@),
{
    let text = long.as_str();
    let len = text.as_bytes().len();
    assert(text.spec_bytes() == encode_utf8(long@));
    if len >= 4 && text.is_char_boundary(4) && text.is_char_boundary(len - 4) {
        Some(abbreviate(long))
    } else {
        None
    }
}

/// What happened in a group of a hundred blocks.
#[derive(Clone, Copy, Debug, PartialEq, Eq, Structural)]
pub struct BlockGroup {
    /// The first block of the group.
    pub block: i64,
    /// Channels opened in the group.
    pub opened: i64,
    /// Channels closed in the group.
    pub closed: i64,
    /// The change in capacity over the group, in satoshis.
    pub capacity_change: i64,
    /// The fees paid by the group's opening and closing transactions.
    pub fees: i64,
    /// In-flight payments left in the channels closed in the group.
    pub htlcs: i64,
}

/// The satoshis in a bitcoin.
pub const SATOSHIS_PER_BITCOIN: i64 = 100_000_000;

/// A capacity change in whole bitcoin, rounded towards zero.
pub open spec fn whole_bitcoin(satoshis: i64) -> int {
    if satoshis >= 0 {
        satoshis as int / SATOSHIS_PER_BITCOIN as int
    } else {
        -((-satoshis) / SATOSHIS_PER_BITCOIN as int)
    }
}

/// The number of channels open after the first `n` groups.
pub open spec fn channels_open(groups: Seq<BlockGroup>, n: int) -> int
    decreases n,
{
    if n <= 0 {
        0
    } else {
        channels_open(groups, n - 1) + groups[n - 1].opened - groups[n - 1].closed
    }
}

/// The capacity of the network after the first `n` groups, in whole bitcoin.
/// Each group's change is rounded on its own.
pub open spec fn capacity_after(groups: Seq<BlockGroup>, n: int) -> int
    decreases n,
{
    if n <= 0 {
        0
    } else {
        capacity_after(groups, n - 1) + whole_bitcoin(groups[n - 1].capacity_change)
    }
}

/// The running totals after the first `k` groups fit in 64 bits.
pub open spec fn fits_after(groups: Seq<BlockGroup>, k: int) -> bool {
    &&& i64::MIN <= channels_open(groups, k) <= i64::MAX
    &&& i64::MIN <= capacity_after(groups, k) <= i64::MAX
}

/// The running totals after each of the first `n` groups fit in 64 bits.
pub open spec fn totals_fit(groups: Seq<BlockGroup>, n: int) -> bool {
    forall|k: int| 0 < k <= n ==> #[trigger] fits_after(groups, k)
}

/// The columns of the chart of the network over time, one point for each
/// group of blocks.
#[derive(Clone, Debug)]
pub struct Chart {
    pub blocks: Vec<i64>,
    pub openings: Vec<i64>,
    pub closings: Vec<i64>,
    /// Channels open after each group.
    pub total: Vec<i64>,
    /// Capacity after each group, in whole bitcoin.
    pub capacity: Vec<i64>,
    pub fee_total: Vec<i64>,
    pub outstanding_htlcs: Vec<i64>,
}

/// The chart shows the groups from the second on. The first group stands
/// for all that happened before the chart begins: it has no point but counts
/// in the running totals.
pub open spec fn charts(groups: Seq<BlockGroup>, chart: Chart) -> bool {
    let n = groups.len() - 1;
    &&& chart.blocks@.len() == n
    &&& chart.openings@.len() == n
    &&& chart.closings@.len() == n
    &&& chart.total@.len() == n
    &&& chart.capacity@.len() == n
    &&& chart.fee_total@.len() == n
    &&& chart.outstanding_htlcs@.len() == n
    &&& forall|k: int|
        0 <= k < n ==> {
            &&& #[trigger] chart.blocks@[k] == groups[k + 1].block
            &&& chart.openings@[k] == groups[k + 1].opened
            &&& chart.closings@[k] == groups[k + 1].closed
            &&& chart.total@[k] == channels_open(groups, k + 2)
            &&& chart.capacity@[k] == capacity_after(groups, k + 2)
            &&& chart.fee_total@[k] == groups[k + 1].fees
            &&& chart.outstanding_htlcs@[k] == groups[k + 1].htlcs
        }
}

/// A capacity change in whole bitcoin, rounded towards zero.
fn to_whole_bitcoin(satoshis: i64) -> (r: i64)
    ensures
        r == whole_bitcoin(satoshis),
{
    if satoshis >= 0 {
        satoshis / SATOSHIS_PER_BITCOIN
    } else if satoshis == i64::MIN {
        -92233720368
    } else {
        -((-satoshis) / SATOSHIS_PER_BITCOIN)
    }
}

/// Builds the chart of the network over time from the groups of blocks, in
/// ascending order.
///
/// There is no chart without a first group, nor where a running total does
/// not fit in 64 bits.
pub fn chart(groups: &Vec<BlockGroup>) -> (r: Option<Chart>)
    ensures
        r is Some <==> groups.len() > 0 && totals_fit(groups@, groups.len() as int),
        r matches Some(c) ==> charts(groups@, c),
{
    if groups.len() == 0 {
        return None;
    }
    let mut c = Chart {
        blocks: Vec::new(),
        openings: Vec::new(),
        closings: Vec::new(),
        total: Vec::new(),
        capacity: Vec::new(),
        fee_total: Vec::new(),
        outstanding_htlcs: Vec::new(),
    };
    let mut open: i64 = 0;
    let mut capacity: i64 = 0;
    let mut k: usize = 0;
    while k < groups.len()
        invariant
            k <= groups.len(),
            open == channels_open(groups@, k as int),
            capacity == capacity_after(groups@, k as int),
            totals_fit(groups@, k as int),
            c.blocks@.len() == (if k == 0 { 0 } else { k - 1 }),
            c.openings@.len() == c.blocks@.len(),
            c.closings@.len() == c.blocks@.len(),
            c.total@.len() == c.blocks@.len(),
            c.capacity@.len() == c.blocks@.len(),
            c.fee_total@.len() == c.blocks@.len(),
            c.outstanding_htlcs@.len() == c.blocks@.len(),
            forall|j: int|
                0 <= j < c.blocks@.len() ==> {
                    &&& #[trigger] c.blocks@[j] == groups@[j + 1].block
                    &&& c.openings@[j] == groups@[j + 1].opened
                    &&& c.closings@[j] == groups@[j + 1].closed
                    &&& c.total@[j] == channels_open(groups@, j + 2)
                    &&& c.capacity@[j] == capacity_after(groups@, j + 2)
                    &&& c.fee_total@[j] == groups@[j + 1].fees
                    &&& c.outstanding_htlcs@[j] == groups@[j + 1].htlcs
                },
        decreases groups.len() - k,
    {
        let g = groups[k];
        let change = g.opened as i128 - g.closed as i128 + open as i128;
        let grown = capacity as i128 + to_whole_bitcoin(g.capacity_change) as i128;
        if change < i64::MIN as i128 || change > i64::MAX as i128 || grown < i64::MIN as i128
            || grown > i64::MAX as i128 {
            assert(!fits_after(groups@, k + 1));
            return None;
        }
        assert(fits_after(groups@, k + 1));
        open = change as i64;
        capacity = grown as i64;
        if k > 0 {
            c.blocks.push(g.block);
            c.openings.push(g.opened);
            c.closings.push(g.closed);
            c.total.push(open);
            c.capacity.push(capacity);
            c.fee_total.push(g.fees);
            c.outstanding_htlcs.push(g.htlcs);
        }
        k += 1;
    }
    Some(c)
}

} // verus!
