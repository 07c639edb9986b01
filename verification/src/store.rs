//! The tables that the pipeline keeps: one record per channel, the change
//! log of forwarding policies and the change log of node aliases.

use crate::classifier::CloseType;
use crate::text::{lemma_lex_asymmetric, lemma_lex_total, lex_le, lex_lt, str_lt};
use vstd::prelude::*;

verus! {

/// Which way a policy applies along a channel.
#[derive(Clone, Copy, Debug, PartialEq, Eq, Structural)]
pub enum Direction {
    /// From `node1` to `node0`; stored as 0.
    Backward,
    /// From `node0` to `node1`; stored as 1.
    Forward,
}

impl Direction {
    /// The number under which the direction is stored.
    pub open spec fn spec_number(self) -> int {
        match self {
            Direction::Backward => 0,
            Direction::Forward => 1,
        }
    }

    /// The number under which the direction is stored.
    pub fn number(self) -> (n: u8)
        ensures
            n == self.spec_number(),
    {
        match self {
            Direction::Backward => 0,
            Direction::Forward => 1,
        }
    }

    /// The direction stored under `n`, if `n` is 0 or 1.
    pub fn from_number(n: i64) -> (d: Option<Direction>)
        ensures
            d is Some <==> (n == 0 || n == 1),
            d matches Some(x) ==> x.spec_number() == n,
    {
        if n == 0 {
            Some(Direction::Backward)
        } else if n == 1 {
            Some(Direction::Forward)
        } else {
            None
        }
    }
}

/// The terms under which one side of a channel forwarded payments from
/// `update_time` on.
#[derive(Clone, Debug)]
pub struct PolicySnapshot {
    pub short_channel_id: String,
    pub direction: Direction,
    pub base_fee_millisatoshi: i64,
    pub fee_per_millionth: i64,
    pub delay: i64,
    pub update_time: i64,
}

/// An alias that a node announced between `first_seen` and `last_seen`.
#[derive(Clone, Debug)]
pub struct NodeAliasRecord {
    pub pubkey: String,
    pub alias: String,
    pub first_seen: i64,
    pub last_seen: i64,
}

/// All that is known of one channel. Times are seconds since the epoch.
///
/// The `open_*` fields and the funding address describe the funding
/// transaction, the `close_*` fields the transaction that spent it. The two
/// balances are not tied to `node0` and `node1`: which side got which is not
/// known.
#[derive(Clone, Debug)]
pub struct ChannelRecord {
    pub short_channel_id: String,
    pub node0: String,
    pub node1: String,
    pub satoshis: i64,
    pub last_update: i64,
    pub last_seen: i64,
    pub open_block: Option<i64>,
    pub open_time: Option<i64>,
    pub open_transaction: Option<String>,
    pub open_fee: Option<i64>,
    pub funding_address: Option<String>,
    pub close_block: Option<i64>,
    pub close_time: Option<i64>,
    pub close_transaction: Option<String>,
    pub close_fee: Option<i64>,
    pub close_type: Option<CloseType>,
    pub close_balance_a: Option<i64>,
    pub close_balance_b: Option<i64>,
    pub close_htlc_count: Option<u64>,
}

/// The primary tables.
#[derive(Clone, Debug)]
pub struct Store {
    pub channels: Vec<ChannelRecord>,
    pub policies: Vec<PolicySnapshot>,
    pub aliases: Vec<NodeAliasRecord>,
}

/// The record's endpoints are in order: `node0` does not come after `node1`.
pub open spec fn endpoints_ordered(r: ChannelRecord) -> bool {
    lex_le(r.node0@, r.node1@)
}

/// The record's endpoints are distinct and in order.
pub open spec fn endpoints_strictly_ordered(r: ChannelRecord) -> bool {
    lex_lt(r.node0@, r.node1@)
}

/// What each stage writes to a record it writes together, and no stage has
/// written before the one it builds on.
pub open spec fn written_in_order(r: ChannelRecord) -> bool {
    &&& r.open_transaction is Some <==> r.open_block is Some
    &&& r.funding_address is Some <==> r.open_block is Some
    &&& r.open_fee is Some <==> r.open_time is Some
    &&& r.open_time is Some ==> r.open_block is Some
    &&& r.close_transaction is Some <==> r.close_block is Some
    &&& r.close_fee is Some <==> r.close_time is Some
    &&& r.close_time is Some ==> r.close_block is Some
    &&& r.close_balance_a is Some <==> r.close_type is Some
    &&& r.close_balance_b is Some <==> r.close_type is Some
    &&& r.close_htlc_count is Some <==> r.close_type is Some
    &&& r.close_type is Some ==> r.close_block is Some
}

/// What was known of a channel is still known: its identity is the same and
/// no field that a stage had written has changed.
pub open spec fn extends(before: ChannelRecord, after: ChannelRecord) -> bool {
    &&& after.short_channel_id == before.short_channel_id
    &&& after.node0 == before.node0
    &&& after.node1 == before.node1
    &&& after.satoshis == before.satoshis
    &&& before.open_block is Some ==> after.open_block == before.open_block
    &&& before.open_time is Some ==> after.open_time == before.open_time
    &&& before.open_transaction is Some ==> after.open_transaction == before.open_transaction
    &&& before.open_fee is Some ==> after.open_fee == before.open_fee
    &&& before.funding_address is Some ==> after.funding_address == before.funding_address
    &&& before.close_block is Some ==> after.close_block == before.close_block
    &&& before.close_time is Some ==> after.close_time == before.close_time
    &&& before.close_transaction is Some ==> after.close_transaction == before.close_transaction
    &&& before.close_fee is Some ==> after.close_fee == before.close_fee
    &&& before.close_type is Some ==> after.close_type == before.close_type
    &&& before.close_balance_a is Some ==> after.close_balance_a == before.close_balance_a
    &&& before.close_balance_b is Some ==> after.close_balance_b == before.close_balance_b
    &&& before.close_htlc_count is Some ==> after.close_htlc_count == before.close_htlc_count
}

/// Every record of `before` is still there in `after`, at its place and
/// with what was known of it still known. Records may have been added.
pub open spec fn all_kept(before: Seq<ChannelRecord>, after: Seq<ChannelRecord>) -> bool {
    &&& after.len() >= before.len()
    &&& forall|j: int| 0 <= j < before.len() ==> extends(before[j], #[trigger] after[j])
}

/// Every record of `before` is still there in `after`, with what was known
/// of it still known, and no record was added.
pub open spec fn all_extend(before: Seq<ChannelRecord>, after: Seq<ChannelRecord>) -> bool {
    after.len() == before.len() && all_kept(before, after)
}

/// Whether the stages wrote to the record together and in their order.
pub fn record_in_order(r: &ChannelRecord) -> (ok: bool)
    ensures
        ok == written_in_order(*r),
{
    let funded = r.open_block.is_some();
    let timed = r.open_time.is_some();
    let closed = r.close_block.is_some();
    let settled = r.close_time.is_some();
    let classified = r.close_type.is_some();
    r.open_transaction.is_some() == funded && r.funding_address.is_some() == funded
        && r.open_fee.is_some() == timed && (funded || !timed)
        && r.close_transaction.is_some() == closed && r.close_fee.is_some() == settled
        && (closed || !settled) && r.close_balance_a.is_some() == classified
        && r.close_balance_b.is_some() == classified && r.close_htlc_count.is_some()
        == classified && (closed || !classified)
}

/// No two records are of the same channel.
pub open spec fn ids_unique(channels: Seq<ChannelRecord>) -> bool {
    forall|i: int, j: int|
        0 <= i < channels.len() && 0 <= j < channels.len() && i != j
            ==> #[trigger] channels[i].short_channel_id@ != #[trigger] channels[j].short_channel_id@
}

/// No record is of channel `id`.
pub open spec fn channel_absent(channels: Seq<ChannelRecord>, id: Seq<char>) -> bool {
    forall|i: int| 0 <= i < channels.len() ==> (#[trigger] channels[i]).short_channel_id@ != id
}

/// Record `i` is of channel `id`.
pub open spec fn channel_at(channels: Seq<ChannelRecord>, id: Seq<char>, i: int) -> bool {
    0 <= i < channels.len() && channels[i].short_channel_id@ == id
}

impl Store {
    /// What holds of the tables at all times: each channel has one record,
    /// and every record has its endpoints in order and was written to by the
    /// stages in their order.
    pub open spec fn wf(&self) -> bool {
        &&& ids_unique(self.channels@)
        &&& forall|i: int|
            0 <= i < self.channels@.len() ==> endpoints_ordered(#[trigger] self.channels@[i])
                && written_in_order(self.channels@[i])
    }

    /// Every record has distinct endpoints, in order.
    pub open spec fn strictly_ordered(&self) -> bool {
        forall|i: int|
            0 <= i < self.channels@.len() ==> endpoints_strictly_ordered(
                #[trigger] self.channels@[i],
            )
    }

    /// Tables with no rows.
    pub fn new() -> (s: Store)
        ensures
            s.channels@.len() == 0,
            s.policies@.len() == 0,
            s.aliases@.len() == 0,
            s.wf(),
    {
        Store { channels: Vec::new(), policies: Vec::new(), aliases: Vec::new() }
    }

    /// Whether the tables are as they must be, which may be in doubt for
    /// tables that were not built up by the pipeline.
    pub fn is_consistent(&self) -> (ok: bool)
        ensures
            ok == self.wf(),
    {
        let n = self.channels.len();
        let mut i: usize = 0;
        while i < n
            invariant
                i <= n,
                n == self.channels.len(),
                forall|j: int|
                    0 <= j < i ==> endpoints_ordered(#[trigger] self.channels@[j])
                        && written_in_order(self.channels@[j]),
                forall|a: int, b: int|
                    0 <= a < i && 0 <= b < a ==> #[trigger] self.channels@[a].short_channel_id@
                        != #[trigger] self.channels@[b].short_channel_id@,
            decreases n - i,
        {
            let r = &self.channels[i];
            if !record_in_order(r) {
                return false;
            }
            if str_lt(r.node1.as_str(), r.node0.as_str()) {
                proof {
                    lemma_lex_asymmetric(r.node1@, r.node0@);
                }
                return false;
            }
            proof {
                lemma_lex_total(r.node0@, r.node1@);
            }
            let mut k: usize = 0;
            while k < i
                invariant
                    k <= i,
                    i < n,
                    n == self.channels.len(),
                    forall|b: int|
                        0 <= b < k ==> self.channels@[i as int].short_channel_id@
                            != (#[trigger] self.channels@[b]).short_channel_id@,
                decreases i - k,
            {
                if self.channels[k].short_channel_id == self.channels[i].short_channel_id {
                    return false;
                }
                k += 1;
            }
            i += 1;
        }
        assert forall|a: int, b: int|
            0 <= a < n && 0 <= b < n && a != b implies #[trigger] self.channels@[a].short_channel_id@
            != #[trigger] self.channels@[b].short_channel_id@ by {
            if b < a {
            } else {
                assert(self.channels@[b].short_channel_id@ != self.channels@[a].short_channel_id@);
            }
        }
        true
    }

    /// The position of the record of channel `id`.
    pub fn find_channel(&self, id: &String) -> (r: Option<usize>)
        ensures
            r is None <==> channel_absent(self.channels@, id@),
            r matches Some(i) ==> channel_at(self.channels@, id@, i as int) && channel_absent(
                self.channels@.take(i as int),
                id@,
            ),
    {
        let mut i: usize = 0;
        while i < self.channels.len()
            invariant
                i <= self.channels.len(),
                forall|j: int| 0 <= j < i ==> (#[trigger] self.channels@[j]).short_channel_id@ != id@,
            decreases self.channels.len() - i,
        {
            if self.channels[i].short_channel_id == *id {
                return Some(i);
            }
            i += 1;
        }
        None
    }
}

} // verus!
