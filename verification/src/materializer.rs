//! The derived tables: one row of aggregates per node, and the maxima over
//! channels and nodes. Both are rebuilt from the primary tables every time.

use crate::store::{ChannelRecord, NodeAliasRecord, Store};
use crate::topology::{latest_alias, latest_alias_at};
use vstd::prelude::*;

verus! {

/// The largest channel table that the aggregates are computed for.
pub const MAX_CHANNELS: usize = 0x4000_0000;

/// The later of two blocks, where either may be unknown.
pub open spec fn later(a: Option<i64>, b: Option<i64>) -> Option<i64> {
    match (a, b) {
        (Some(x), Some(y)) => if x < y {
            b
        } else {
            a
        },
        (Some(_), None) => a,
        (None, _) => b,
    }
}

/// The earlier of two blocks, where either may be unknown.
pub open spec fn earlier(a: Option<i64>, b: Option<i64>) -> Option<i64> {
    match (a, b) {
        (Some(x), Some(y)) => if y < x {
            b
        } else {
            a
        },
        (Some(_), None) => a,
        (None, _) => b,
    }
}

/// The most recent block in which any channel was opened.
pub open spec fn latest_open(channels: Seq<ChannelRecord>) -> Option<i64>
    decreases channels.len(),
{
    if channels.len() == 0 {
        None
    } else {
        later(latest_open(channels.drop_last()), channels.last().open_block)
    }
}

/// The most recent block in which any channel was opened or closed.
pub open spec fn last_block(channels: Seq<ChannelRecord>) -> Option<i64>
    decreases channels.len(),
{
    if channels.len() == 0 {
        None
    } else {
        later(
            later(last_block(channels.drop_last()), channels.last().open_block),
            channels.last().close_block,
        )
    }
}

/// For how many blocks a channel has been open: up to its closing block, or
/// for a channel still open up to `horizon`. Unknown while the opening block
/// is, or the horizon of an open channel.
pub open spec fn span(r: ChannelRecord, horizon: Option<i64>) -> Option<int> {
    match (r.open_block, r.close_block, horizon) {
        (Some(o), Some(c), _) => Some(c - o),
        (Some(o), None, Some(h)) => Some(h - o),
        _ => None,
    }
}

/// What is summed over the channels of a node.
#[derive(Clone, Copy, Debug, PartialEq, Eq, Structural)]
pub enum Measure {
    /// One for each open channel.
    OpenChannels,
    /// One for each closed channel.
    ClosedChannels,
    /// The capacity of each open channel.
    Capacity,
    /// The span of each channel whose span is known.
    Duration,
    /// One for each channel whose span is known.
    DurationCount,
    /// The fee of each funding transaction whose fee is known.
    OpenFee,
    /// One for each funding transaction whose fee is known.
    OpenFeeCount,
    /// The fee of each closing transaction whose fee is known.
    CloseFee,
    /// One for each closing transaction whose fee is known.
    CloseFeeCount,
}

/// What one channel adds to the sum of a measure.
pub open spec fn term(r: ChannelRecord, m: Measure, horizon: Option<i64>) -> int {
    match m {
        Measure::OpenChannels => if r.close_block is None {
            1
        } else {
            0
        },
        Measure::ClosedChannels => if r.close_block is Some {
            1
        } else {
            0
        },
        Measure::Capacity => if r.close_block is None {
            r.satoshis as int
        } else {
            0
        },
        Measure::Duration => match span(r, horizon) {
            Some(d) => d,
            None => 0,
        },
        Measure::DurationCount => if span(r, horizon) is Some {
            1
        } else {
            0
        },
        Measure::OpenFee => match r.open_fee {
            Some(f) => f as int,
            None => 0,
        },
        Measure::OpenFeeCount => if r.open_fee is Some {
            1
        } else {
            0
        },
        Measure::CloseFee => match r.close_fee {
            Some(f) => f as int,
            None => 0,
        },
        Measure::CloseFeeCount => if r.close_fee is Some {
            1
        } else {
            0
        },
    }
}

/// What one channel adds to the sum of a measure for node `pubkey`: its
/// term once for each end of the channel that the node is.
pub open spec fn share(r: ChannelRecord, pubkey: Seq<char>, m: Measure, horizon: Option<i64>) -> int {
    (if r.node0@ == pubkey {
        term(r, m, horizon)
    } else {
        0
    }) + (if r.node1@ == pubkey {
        term(r, m, horizon)
    } else {
        0
    })
}

/// The sum of a measure over the channels of node `pubkey`.
pub open spec fn total(
    channels: Seq<ChannelRecord>,
    pubkey: Seq<char>,
    m: Measure,
    horizon: Option<i64>,
) -> int
    decreases channels.len(),
{
    if channels.len() == 0 {
        0
    } else {
        total(channels.drop_last(), pubkey, m, horizon) + share(
            channels.last(),
            pubkey,
            m,
            horizon,
        )
    }
}

/// The earliest block in which a channel of node `pubkey` was opened.
pub open spec fn oldest_channel(channels: Seq<ChannelRecord>, pubkey: Seq<char>) -> Option<i64>
    decreases channels.len(),
{
    if channels.len() == 0 {
        None
    } else {
        let r = channels.last();
        let rest = oldest_channel(channels.drop_last(), pubkey);
        if r.node0@ == pubkey || r.node1@ == pubkey {
            earlier(rest, r.open_block)
        } else {
            rest
        }
    }
}

/// The later of two blocks, where either may be unknown.
fn pick_later(a: Option<i64>, b: Option<i64>) -> (r: Option<i64>)
    ensures
        r == later(a, b),
{
    match (a, b) {
        (Some(x), Some(y)) => if x < y {
            b
        } else {
            a
        },
        (Some(_), None) => a,
        (None, _) => b,
    }
}

/// The earlier of two blocks, where either may be unknown.
fn pick_earlier(a: Option<i64>, b: Option<i64>) -> (r: Option<i64>)
    ensures
        r == earlier(a, b),
{
    match (a, b) {
        (Some(x), Some(y)) => if y < x {
            b
        } else {
            a
        },
        (Some(_), None) => a,
        (None, _) => b,
    }
}

/// The most recent block in which any channel was opened.
pub fn find_latest_open(channels: &Vec<ChannelRecord>) -> (r: Option<i64>)
    ensures
        r == latest_open(channels@),
{
    let mut best: Option<i64> = None;
    let mut k: usize = 0;
    assert(channels@.take(0) =~= Seq::<ChannelRecord>::empty());
    while k < channels.len()
        invariant
            k <= channels.len(),
            best == latest_open(channels@.take(k as int)),
        decreases channels.len() - k,
    {
        proof {
            let next = channels@.take(k + 1);
            assert(next.drop_last() =~= channels@.take(k as int));
            assert(next.last() == channels@[k as int]);
        }
        best = pick_later(best, channels[k].open_block);
        k += 1;
    }
    assert(channels@.take(channels@.len() as int) =~= channels@);
    best
}

/// The most recent block in which any channel was opened or closed.
pub fn find_last_block(channels: &Vec<ChannelRecord>) -> (r: Option<i64>)
    ensures
        r == last_block(channels@),
{
    let mut best: Option<i64> = None;
    let mut k: usize = 0;
    assert(channels@.take(0) =~= Seq::<ChannelRecord>::empty());
    while k < channels.len()
        invariant
            k <= channels.len(),
            best == last_block(channels@.take(k as int)),
        decreases channels.len() - k,
    {
        proof {
            let next = channels@.take(k + 1);
            assert(next.drop_last() =~= channels@.take(k as int));
            assert(next.last() == channels@[k as int]);
        }
        best = pick_later(pick_later(best, channels[k].open_block), channels[k].close_block);
        k += 1;
    }
    assert(channels@.take(channels@.len() as int) =~= channels@);
    best
}

/// For how many blocks a channel has been open.
fn span_of(r: &ChannelRecord, horizon: Option<i64>) -> (d: Option<i128>)
    ensures
        d is Some <==> span(*r, horizon) is Some,
        d matches Some(x) ==> x == span(*r, horizon)->0,
{
    match (r.open_block, r.close_block, horizon) {
        (Some(o), Some(c), _) => Some(c as i128 - o as i128),
        (Some(o), None, Some(h)) => Some(h as i128 - o as i128),
        _ => None,
    }
}

/// What one channel adds to the sum of a measure.
fn term_of(r: &ChannelRecord, m: Measure, horizon: Option<i64>) -> (t: i128)
    ensures
        t == term(*r, m, horizon),
        -0x1_0000_0000_0000_0000 <= t <= 0x1_0000_0000_0000_0000,
{
    match m {
        Measure::OpenChannels => if r.close_block.is_none() {
            1
        } else {
            0
        },
        Measure::ClosedChannels => if r.close_block.is_some() {
            1
        } else {
            0
        },
        Measure::Capacity => if r.close_block.is_none() {
            r.satoshis as i128
        } else {
            0
        },
        Measure::Duration => match span_of(r, horizon) {
            Some(d) => d,
            None => 0,
        },
        Measure::DurationCount => if span_of(r, horizon).is_some() {
            1
        } else {
            0
        },
        Measure::OpenFee => match r.open_fee {
            Some(f) => f as i128,
            None => 0,
        },
        Measure::OpenFeeCount => if r.open_fee.is_some() {
            1
        } else {
            0
        },
        Measure::CloseFee => match r.close_fee {
            Some(f) => f as i128,
            None => 0,
        },
        Measure::CloseFeeCount => if r.close_fee.is_some() {
            1
        } else {
            0
        },
    }
}

/// The sum of a measure over the channels of node `pubkey`.
pub fn sum_measure(
    channels: &Vec<ChannelRecord>,
    pubkey: &String,
    m: Measure,
    horizon: Option<i64>,
) -> (sum: i128)
    requires
        channels.len() <= MAX_CHANNELS,
    ensures
        sum == total(channels@, pubkey@, m, horizon),
        -(2 * channels.len() * 0x1_0000_0000_0000_0000) <= sum <= 2 * channels.len()
            * 0x1_0000_0000_0000_0000,
{
    let mut sum: i128 = 0;
    let mut k: usize = 0;
    assert(channels@.take(0) =~= Seq::<ChannelRecord>::empty());
    while k < channels.len()
        invariant
            k <= channels.len(),
            channels.len() <= MAX_CHANNELS,
            sum == total(channels@.take(k as int), pubkey@, m, horizon),
            -(2 * k * 0x1_0000_0000_0000_0000) <= sum <= 2 * k * 0x1_0000_0000_0000_0000,
        decreases channels.len() - k,
    {
        proof {
            let next = channels@.take(k + 1);
            assert(next.drop_last() =~= channels@.take(k as int));
            assert(next.last() == channels@[k as int]);
        }
        let r = &channels[k];
        let t = term_of(r, m, horizon);
        if r.node0 == *pubkey {
            sum = sum + t;
        }
        if r.node1 == *pubkey {
            sum = sum + t;
        }
        k += 1;
    }
    assert(channels@.take(channels@.len() as int) =~= channels@);
    sum
}

/// The earliest block in which a channel of node `pubkey` was opened.
pub fn find_oldest_channel(channels: &Vec<ChannelRecord>, pubkey: &String) -> (r: Option<i64>)
    ensures
        r == oldest_channel(channels@, pubkey@),
{
    let mut best: Option<i64> = None;
    let mut k: usize = 0;
    assert(channels@.take(0) =~= Seq::<ChannelRecord>::empty());
    while k < channels.len()
        invariant
            k <= channels.len(),
            best == oldest_channel(channels@.take(k as int), pubkey@),
        decreases channels.len() - k,
    {
        proof {
            let next = channels@.take(k + 1);
            assert(next.drop_last() =~= channels@.take(k as int));
            assert(next.last() == channels@[k as int]);
        }
        let r = &channels[k];
        if r.node0 == *pubkey || r.node1 == *pubkey {
            best = pick_earlier(best, r.open_block);
        }
        k += 1;
    }
    assert(channels@.take(channels@.len() as int) =~= channels@);
    best
}

/// A mean, kept exact as a sum and the number of values summed. With no
/// value there is no mean.
#[derive(Clone, Copy, Debug, PartialEq, Eq, Structural)]
pub struct Average {
    pub total: i128,
    pub count: u64,
}

impl Average {
    /// The sum is that of `count` values of 64 bits' worth each, and no more
    /// values than a node can have channel ends.
    pub open spec fn wf(self) -> bool {
        &&& self.count <= 2 * MAX_CHANNELS
        &&& -(self.count * 0x1_0000_0000_0000_0000) <= self.total <= self.count
            * 0x1_0000_0000_0000_0000
    }
}

/// The aggregates of one node.
#[derive(Clone, Debug)]
pub struct NodeAggregate {
    pub pubkey: String,
    pub alias: String,
    /// The earliest block in which one of the node's channels was opened.
    pub oldest_channel: Option<i64>,
    pub open_channels: u64,
    pub closed_channels: u64,
    /// The capacity of the node's open channels, in satoshis.
    pub capacity: i128,
    /// The mean span of the node's channels, in blocks. A channel still open
    /// counts up to the most recent block in which any channel was opened.
    pub duration: Average,
    /// The mean fee of the node's funding transactions.
    pub open_fee: Average,
    /// The mean fee of the node's closing transactions.
    pub close_fee: Average,
}

impl NodeAggregate {
    /// The counts and the means are within their bounds.
    pub open spec fn wf(self) -> bool {
        &&& self.open_channels <= 2 * MAX_CHANNELS
        &&& self.closed_channels <= 2 * MAX_CHANNELS
        &&& self.duration.wf()
        &&& self.open_fee.wf()
        &&& self.close_fee.wf()
    }
}

/// The measure that counts the values which `m` sums.
pub open spec fn count_of(m: Measure) -> Measure {
    match m {
        Measure::Duration => Measure::DurationCount,
        Measure::OpenFee => Measure::OpenFeeCount,
        Measure::CloseFee => Measure::CloseFeeCount,
        _ => m,
    }
}

/// The measure counts channels: each adds one or nothing.
pub open spec fn counting(m: Measure) -> bool {
    m != Measure::Capacity && count_of(m) == m
}

/// The mean of measure `m` over the channels of node `pubkey`.
pub open spec fn average(
    channels: Seq<ChannelRecord>,
    pubkey: Seq<char>,
    m: Measure,
    horizon: Option<i64>,
) -> Average {
    Average {
        total: total(channels, pubkey, m, horizon) as i128,
        count: total(channels, pubkey, count_of(m), horizon) as u64,
    }
}

/// The row of aggregates of the node that an alias record is of, under the
/// alias of that record.
pub open spec fn aggregate_of(channels: Seq<ChannelRecord>, record: NodeAliasRecord) -> NodeAggregate {
    let p = record.pubkey@;
    let h = latest_open(channels);
    NodeAggregate {
        pubkey: record.pubkey,
        alias: record.alias,
        oldest_channel: oldest_channel(channels, p),
        open_channels: total(channels, p, Measure::OpenChannels, h) as u64,
        closed_channels: total(channels, p, Measure::ClosedChannels, h) as u64,
        capacity: total(channels, p, Measure::Capacity, h) as i128,
        duration: average(channels, p, Measure::Duration, h),
        open_fee: average(channels, p, Measure::OpenFee, h),
        close_fee: average(channels, p, Measure::CloseFee, h),
    }
}

/// Alias record `i` gives a row: it is the latest alias of its node, and the
/// node has an open channel.
pub open spec fn has_row(
    channels: Seq<ChannelRecord>,
    aliases: Seq<NodeAliasRecord>,
    i: int,
) -> bool {
    &&& latest_alias_at(aliases, aliases[i].pubkey@, i)
    &&& total(channels, aliases[i].pubkey@, Measure::OpenChannels, latest_open(channels)) > 0
}

/// The rows that the first `n` alias records give, in the order of the log:
/// one row for each node that has an alias on record and an open channel,
/// under its latest alias.
pub open spec fn rows_of(channels: Seq<ChannelRecord>, aliases: Seq<NodeAliasRecord>, n: int) -> Seq<
    NodeAggregate,
>
    decreases n,
{
    if n <= 0 {
        Seq::empty()
    } else {
        let rest = rows_of(channels, aliases, n - 1);
        if has_row(channels, aliases, n - 1) {
            rest.push(aggregate_of(channels, aliases[n - 1]))
        } else {
            rest
        }
    }
}

/// A count over the channels of a node is at most two for each channel.
pub proof fn lemma_count_bounds(
    channels: Seq<ChannelRecord>,
    pubkey: Seq<char>,
    m: Measure,
    horizon: Option<i64>,
)
    requires
        counting(m),
    ensures
        0 <= total(channels, pubkey, m, horizon) <= 2 * channels.len(),
    decreases channels.len(),
{
    if channels.len() > 0 {
        lemma_count_bounds(channels.drop_last(), pubkey, m, horizon);
    }
}

/// A sum over the channels of a node is that of as many values as its
/// count says, each of 64 bits' worth.
pub proof fn lemma_sum_bounds(
    channels: Seq<ChannelRecord>,
    pubkey: Seq<char>,
    m: Measure,
    horizon: Option<i64>,
)
    requires
        count_of(m) != m,
    ensures
        -(total(channels, pubkey, count_of(m), horizon) * 0x1_0000_0000_0000_0000) <= total(
            channels,
            pubkey,
            m,
            horizon,
        ) <= total(channels, pubkey, count_of(m), horizon) * 0x1_0000_0000_0000_0000,
    decreases channels.len(),
{
    if channels.len() > 0 {
        lemma_sum_bounds(channels.drop_last(), pubkey, m, horizon);
    }
}

/// The mean of measure `m` over the channels of node `pubkey`.
fn mean(channels: &Vec<ChannelRecord>, pubkey: &String, m: Measure, horizon: Option<i64>) -> (a:
    Average)
    requires
        channels.len() <= MAX_CHANNELS,
        count_of(m) != m,
    ensures
        a == average(channels@, pubkey@, m, horizon),
        a.wf(),
{
    let count_measure = match m {
        Measure::Duration => Measure::DurationCount,
        Measure::OpenFee => Measure::OpenFeeCount,
        _ => Measure::CloseFeeCount,
    };
    proof {
        lemma_count_bounds(channels@, pubkey@, count_measure, horizon);
        lemma_sum_bounds(channels@, pubkey@, m, horizon);
    }
    let total = sum_measure(channels, pubkey, m, horizon);
    let count = sum_measure(channels, pubkey, count_measure, horizon);
    Average { total, count: count as u64 }
}

/// The row of aggregates of the node that an alias record is of.
pub fn aggregate(channels: &Vec<ChannelRecord>, record: &NodeAliasRecord) -> (row: NodeAggregate)
    requires
        channels.len() <= MAX_CHANNELS,
    ensures
        row == aggregate_of(channels@, *record),
        row.wf(),
{
    let horizon = find_latest_open(channels);
    let p = &record.pubkey;
    proof {
        lemma_count_bounds(channels@, p@, Measure::OpenChannels, horizon);
        lemma_count_bounds(channels@, p@, Measure::ClosedChannels, horizon);
    }
    let open = sum_measure(channels, p, Measure::OpenChannels, horizon);
    let closed = sum_measure(channels, p, Measure::ClosedChannels, horizon);
    NodeAggregate {
        pubkey: record.pubkey.clone(),
        alias: record.alias.clone(),
        oldest_channel: find_oldest_channel(channels, p),
        open_channels: open as u64,
        closed_channels: closed as u64,
        capacity: sum_measure(channels, p, Measure::Capacity, horizon),
        duration: mean(channels, p, Measure::Duration, horizon),
        open_fee: mean(channels, p, Measure::OpenFee, horizon),
        close_fee: mean(channels, p, Measure::CloseFee, horizon),
    }
}

/// Every row is within its bounds.
pub open spec fn rows_wf(rows: Seq<NodeAggregate>) -> bool {
    forall|k: int| 0 <= k < rows.len() ==> (#[trigger] rows[k]).wf()
}

impl Store {
    /// Rebuilds the table of node aggregates.
    ///
    /// There is one row for each node that has an alias on record and at
    /// least one open channel. The rows come in the order in which the nodes'
    /// latest aliases stand in the alias log.
    pub fn node_aggregates(&self) -> (rows: Vec<NodeAggregate>)
        requires
            self.channels.len() <= MAX_CHANNELS,
        ensures
            rows@ == rows_of(self.channels@, self.aliases@, self.aliases@.len() as int),
            rows_wf(rows@),
    {
        let mut rows: Vec<NodeAggregate> = Vec::new();
        let horizon = find_latest_open(&self.channels);
        let mut i: usize = 0;
        while i < self.aliases.len()
            invariant
                i <= self.aliases.len(),
                self.channels.len() <= MAX_CHANNELS,
                horizon == latest_open(self.channels@),
                rows@ == rows_of(self.channels@, self.aliases@, i as int),
                rows_wf(rows@),
            decreases self.aliases.len() - i,
        {
            let record = &self.aliases[i];
            let is_latest = match latest_alias(&self.aliases, &record.pubkey) {
                Some(j) => j == i,
                None => false,
            };
            if is_latest && sum_measure(
                &self.channels,
                &record.pubkey,
                Measure::OpenChannels,
                horizon,
            ) > 0 {
                let row = aggregate(&self.channels, record);
                rows.push(row);
            }
            i += 1;
        }
        rows
    }
}

/// The larger of two values, where either may be missing.
pub open spec fn larger(a: Option<int>, b: Option<int>) -> Option<int> {
    match (a, b) {
        (Some(x), Some(y)) => if x < y {
            b
        } else {
            a
        },
        (Some(_), None) => a,
        (None, _) => b,
    }
}

/// What the maximum over all channels is taken of.
#[derive(Clone, Copy, Debug, PartialEq, Eq, Structural)]
pub enum ChannelMeasure {
    /// The span in blocks; a channel still open counts up to the last block.
    Duration,
    /// The fee of the funding transaction.
    OpenFee,
    /// The fee of the closing transaction.
    CloseFee,
    /// The capacity.
    Satoshis,
}

/// The value of a measure for one channel, if it is known.
pub open spec fn channel_value(r: ChannelRecord, m: ChannelMeasure, last: Option<i64>) -> Option<
    int,
> {
    match m {
        ChannelMeasure::Duration => span(r, last),
        ChannelMeasure::OpenFee => match r.open_fee {
            Some(f) => Some(f as int),
            None => None,
        },
        ChannelMeasure::CloseFee => match r.close_fee {
            Some(f) => Some(f as int),
            None => None,
        },
        ChannelMeasure::Satoshis => Some(r.satoshis as int),
    }
}

/// The largest value of a measure over all channels for which it is known.
pub open spec fn max_channel_value(
    channels: Seq<ChannelRecord>,
    m: ChannelMeasure,
    last: Option<i64>,
) -> Option<int>
    decreases channels.len(),
{
    if channels.len() == 0 {
        None
    } else {
        larger(
            max_channel_value(channels.drop_last(), m, last),
            channel_value(channels.last(), m, last),
        )
    }
}

/// What the maximum over all nodes is taken of.
#[derive(Clone, Copy, Debug, PartialEq, Eq, Structural)]
pub enum NodeMeasure {
    Capacity,
    OpenChannels,
    ClosedChannels,
    /// Open and closed channels together.
    AllChannels,
    /// Closed channels for each open one, in whole numbers.
    CloseRate,
}

/// The value of a measure for one node. The close rate of a node without
/// open channels is undefined.
pub open spec fn node_value(row: NodeAggregate, m: NodeMeasure) -> Option<int> {
    match m {
        NodeMeasure::Capacity => Some(row.capacity as int),
        NodeMeasure::OpenChannels => Some(row.open_channels as int),
        NodeMeasure::ClosedChannels => Some(row.closed_channels as int),
        NodeMeasure::AllChannels => Some(row.open_channels + row.closed_channels),
        NodeMeasure::CloseRate => if row.open_channels > 0 {
            Some(row.closed_channels as int / row.open_channels as int)
        } else {
            None
        },
    }
}

/// The largest value of a measure over all rows for which it is defined.
pub open spec fn max_node_value(rows: Seq<NodeAggregate>, m: NodeMeasure) -> Option<int>
    decreases rows.len(),
{
    if rows.len() == 0 {
        None
    } else {
        larger(max_node_value(rows.drop_last(), m), node_value(rows.last(), m))
    }
}

/// Which mean the maximum over all nodes is taken of.
#[derive(Clone, Copy, Debug, PartialEq, Eq, Structural)]
pub enum MeanMeasure {
    Duration,
    OpenFee,
    CloseFee,
}

/// A mean of a node, if any value went into it.
pub open spec fn node_mean(row: NodeAggregate, m: MeanMeasure) -> Option<Average> {
    let a = match m {
        MeanMeasure::Duration => row.duration,
        MeanMeasure::OpenFee => row.open_fee,
        MeanMeasure::CloseFee => row.close_fee,
    };
    if a.count > 0 {
        Some(a)
    } else {
        None
    }
}

/// Mean `a` is below mean `b`; both are of at least one value.
pub open spec fn mean_lt(a: Average, b: Average) -> bool {
    a.total * b.count < b.total * a.count
}

/// The higher of two means, where either may be missing. Of two equal means
/// the first is kept.
pub open spec fn higher(a: Option<Average>, b: Option<Average>) -> Option<Average> {
    match (a, b) {
        (Some(x), Some(y)) => if mean_lt(x, y) {
            b
        } else {
            a
        },
        (Some(_), None) => a,
        (None, _) => b,
    }
}

/// The highest mean over all rows that have one.
pub open spec fn max_node_mean(rows: Seq<NodeAggregate>, m: MeanMeasure) -> Option<Average>
    decreases rows.len(),
{
    if rows.len() == 0 {
        None
    } else {
        higher(max_node_mean(rows.drop_last(), m), node_mean(rows.last(), m))
    }
}

/// The maxima over channels and nodes, for scaling what is shown. A maximum
/// over nothing is missing.
#[derive(Clone, Copy, Debug, PartialEq, Eq, Structural)]
pub struct GlobalStats {
    pub last_block: Option<i64>,
    pub max_channel_duration: Option<i128>,
    pub max_channel_open_fee: Option<i128>,
    pub max_channel_close_fee: Option<i128>,
    pub max_channel_satoshis: Option<i128>,
    pub max_node_capacity: Option<i128>,
    pub max_node_openchannels: Option<i128>,
    pub max_node_closedchannels: Option<i128>,
    pub max_node_allchannels: Option<i128>,
    pub max_node_close_rate: Option<i128>,
    pub max_node_average_duration: Option<Average>,
    pub max_node_average_open_fee: Option<Average>,
    pub max_node_average_close_fee: Option<Average>,
}

/// A value that may be missing, as a number without bounds.
pub open spec fn unbounded(x: Option<i128>) -> Option<int> {
    match x {
        Some(v) => Some(v as int),
        None => None,
    }
}

/// The statistics are those of the channel table and the rows of node
/// aggregates.
pub open spec fn stats_of(
    channels: Seq<ChannelRecord>,
    rows: Seq<NodeAggregate>,
    stats: GlobalStats,
) -> bool {
    let last = last_block(channels);
    &&& stats.last_block == last
    &&& unbounded(stats.max_channel_duration) == max_channel_value(
        channels,
        ChannelMeasure::Duration,
        last,
    )
    &&& unbounded(stats.max_channel_open_fee) == max_channel_value(
        channels,
        ChannelMeasure::OpenFee,
        last,
    )
    &&& unbounded(stats.max_channel_close_fee) == max_channel_value(
        channels,
        ChannelMeasure::CloseFee,
        last,
    )
    &&& unbounded(stats.max_channel_satoshis) == max_channel_value(
        channels,
        ChannelMeasure::Satoshis,
        last,
    )
    &&& unbounded(stats.max_node_capacity) == max_node_value(rows, NodeMeasure::Capacity)
    &&& unbounded(stats.max_node_openchannels) == max_node_value(rows, NodeMeasure::OpenChannels)
    &&& unbounded(stats.max_node_closedchannels) == max_node_value(
        rows,
        NodeMeasure::ClosedChannels,
    )
    &&& unbounded(stats.max_node_allchannels) == max_node_value(rows, NodeMeasure::AllChannels)
    &&& unbounded(stats.max_node_close_rate) == max_node_value(rows, NodeMeasure::CloseRate)
    &&& stats.max_node_average_duration == max_node_mean(rows, MeanMeasure::Duration)
    &&& stats.max_node_average_open_fee == max_node_mean(rows, MeanMeasure::OpenFee)
    &&& stats.max_node_average_close_fee == max_node_mean(rows, MeanMeasure::CloseFee)
}

/// The larger of two values, where either may be missing.
fn pick_larger(a: Option<i128>, b: Option<i128>) -> (r: Option<i128>)
    ensures
        unbounded(r) == larger(unbounded(a), unbounded(b)),
{
    match (a, b) {
        (Some(x), Some(y)) => if x < y {
            b
        } else {
            a
        },
        (Some(_), None) => a,
        (None, _) => b,
    }
}

/// The value of a measure for one channel.
fn value_of_channel(r: &ChannelRecord, m: ChannelMeasure, last: Option<i64>) -> (v: Option<i128>)
    ensures
        unbounded(v) == channel_value(*r, m, last),
{
    match m {
        ChannelMeasure::Duration => span_of(r, last),
        ChannelMeasure::OpenFee => match r.open_fee {
            Some(f) => Some(f as i128),
            None => None,
        },
        ChannelMeasure::CloseFee => match r.close_fee {
            Some(f) => Some(f as i128),
            None => None,
        },
        ChannelMeasure::Satoshis => Some(r.satoshis as i128),
    }
}

/// The largest value of a measure over all channels for which it is known.
pub fn max_over_channels(channels: &Vec<ChannelRecord>, m: ChannelMeasure, last: Option<i64>) -> (r:
    Option<i128>)
    ensures
        unbounded(r) == max_channel_value(channels@, m, last),
{
    let mut best: Option<i128> = None;
    let mut k: usize = 0;
    assert(channels@.take(0) =~= Seq::<ChannelRecord>::empty());
    while k < channels.len()
        invariant
            k <= channels.len(),
            unbounded(best) == max_channel_value(channels@.take(k as int), m, last),
        decreases channels.len() - k,
    {
        proof {
            let next = channels@.take(k + 1);
            assert(next.drop_last() =~= channels@.take(k as int));
            assert(next.last() == channels@[k as int]);
        }
        best = pick_larger(best, value_of_channel(&channels[k], m, last));
        k += 1;
    }
    assert(channels@.take(channels@.len() as int) =~= channels@);
    best
}

/// The value of a measure for one node.
fn value_of_node(row: &NodeAggregate, m: NodeMeasure) -> (v: Option<i128>)
    ensures
        unbounded(v) == node_value(*row, m),
{
    match m {
        NodeMeasure::Capacity => Some(row.capacity),
        NodeMeasure::OpenChannels => Some(row.open_channels as i128),
        NodeMeasure::ClosedChannels => Some(row.closed_channels as i128),
        NodeMeasure::AllChannels => Some(row.open_channels as i128 + row.closed_channels as i128),
        NodeMeasure::CloseRate => if row.open_channels > 0 {
            Some((row.closed_channels / row.open_channels) as i128)
        } else {
            None
        },
    }
}

/// The largest value of a measure over all rows for which it is defined.
pub fn max_over_nodes(rows: &Vec<NodeAggregate>, m: NodeMeasure) -> (r: Option<i128>)
    ensures
        unbounded(r) == max_node_value(rows@, m),
{
    let mut best: Option<i128> = None;
    let mut k: usize = 0;
    assert(rows@.take(0) =~= Seq::<NodeAggregate>::empty());
    while k < rows.len()
        invariant
            k <= rows.len(),
            unbounded(best) == max_node_value(rows@.take(k as int), m),
        decreases rows.len() - k,
    {
        proof {
            let next = rows@.take(k + 1);
            assert(next.drop_last() =~= rows@.take(k as int));
            assert(next.last() == rows@[k as int]);
        }
        best = pick_larger(best, value_of_node(&rows[k], m));
        k += 1;
    }
    assert(rows@.take(rows@.len() as int) =~= rows@);
    best
}

/// Whether mean `a` is below mean `b`.
pub fn mean_below(a: Average, b: Average) -> (r: bool)
    requires
        a.wf(),
        b.wf(),
    ensures
        r == mean_lt(a, b),
{
    assert(-0x4000_0000_0000_0000_0000_0000_0000_0000 <= a.total * b.count
        <= 0x4000_0000_0000_0000_0000_0000_0000_0000) by (nonlinear_arith)
        requires
            -0x8000_0000_0000_0000_0000_0000 <= a.total <= 0x8000_0000_0000_0000_0000_0000,
            0 <= b.count <= 0x8000_0000,
    ;
    assert(-0x4000_0000_0000_0000_0000_0000_0000_0000 <= b.total * a.count
        <= 0x4000_0000_0000_0000_0000_0000_0000_0000) by (nonlinear_arith)
        requires
            -0x8000_0000_0000_0000_0000_0000 <= b.total <= 0x8000_0000_0000_0000_0000_0000,
            0 <= a.count <= 0x8000_0000,
    ;
    a.total * (b.count as i128) < b.total * (a.count as i128)
}

/// A mean of a node, if any value went into it.
fn mean_of_node(row: &NodeAggregate, m: MeanMeasure) -> (a: Option<Average>)
    ensures
        a == node_mean(*row, m),
{
    let a = match m {
        MeanMeasure::Duration => row.duration,
        MeanMeasure::OpenFee => row.open_fee,
        MeanMeasure::CloseFee => row.close_fee,
    };
    if a.count > 0 {
        Some(a)
    } else {
        None
    }
}

/// The highest mean over all rows that have one.
pub fn max_mean(rows: &Vec<NodeAggregate>, m: MeanMeasure) -> (r: Option<Average>)
    requires
        rows_wf(rows@),
    ensures
        r == max_node_mean(rows@, m),
{
    let mut best: Option<Average> = None;
    let mut k: usize = 0;
    assert(rows@.take(0) =~= Seq::<NodeAggregate>::empty());
    while k < rows.len()
        invariant
            k <= rows.len(),
            rows_wf(rows@),
            best == max_node_mean(rows@.take(k as int), m),
            best matches Some(a) ==> a.wf(),
        decreases rows.len() - k,
    {
        proof {
            let next = rows@.take(k + 1);
            assert(next.drop_last() =~= rows@.take(k as int));
            assert(next.last() == rows@[k as int]);
            assert(rows@[k as int].wf());
        }
        best = match (best, mean_of_node(&rows[k], m)) {
            (Some(x), Some(y)) => if mean_below(x, y) {
                Some(y)
            } else {
                Some(x)
            },
            (Some(x), None) => Some(x),
            (None, y) => y,
        };
        k += 1;
    }
    assert(rows@.take(rows@.len() as int) =~= rows@);
    best
}

/// Rebuilds the statistics from the channel table and the rows of node
/// aggregates.
pub fn global_stats(channels: &Vec<ChannelRecord>, rows: &Vec<NodeAggregate>) -> (stats: GlobalStats)
    requires
        rows_wf(rows@),
    ensures
        stats_of(channels@, rows@, stats),
{
    let last = find_last_block(channels);
    GlobalStats {
        last_block: last,
        max_channel_duration: max_over_channels(channels, ChannelMeasure::Duration, last),
        max_channel_open_fee: max_over_channels(channels, ChannelMeasure::OpenFee, last),
        max_channel_close_fee: max_over_channels(channels, ChannelMeasure::CloseFee, last),
        max_channel_satoshis: max_over_channels(channels, ChannelMeasure::Satoshis, last),
        max_node_capacity: max_over_nodes(rows, NodeMeasure::Capacity),
        max_node_openchannels: max_over_nodes(rows, NodeMeasure::OpenChannels),
        max_node_closedchannels: max_over_nodes(rows, NodeMeasure::ClosedChannels),
        max_node_allchannels: max_over_nodes(rows, NodeMeasure::AllChannels),
        max_node_close_rate: max_over_nodes(rows, NodeMeasure::CloseRate),
        max_node_average_duration: max_mean(rows, MeanMeasure::Duration),
        max_node_average_open_fee: max_mean(rows, MeanMeasure::OpenFee),
        max_node_average_close_fee: max_mean(rows, MeanMeasure::CloseFee),
    }
}

/// The derived tables are those of the primary tables.
pub open spec fn rebuilt_from(
    channels: Seq<ChannelRecord>,
    aliases: Seq<NodeAliasRecord>,
    rows: Seq<NodeAggregate>,
    stats: GlobalStats,
) -> bool {
    &&& rows == rows_of(channels, aliases, aliases.len() as int)
    &&& stats_of(channels, rows, stats)
}

impl Store {
    /// Rebuilds both derived tables from the primary ones, unless there are
    /// more channels than the aggregates are computed for.
    pub fn materialize(&self) -> (derived: Option<(Vec<NodeAggregate>, GlobalStats)>)
        ensures
            derived is Some <==> self.channels.len() <= MAX_CHANNELS,
            derived matches Some((rows, stats)) ==> rebuilt_from(
                self.channels@,
                self.aliases@,
                rows@,
                stats,
            ) && rows_wf(rows@),
    {
        if self.channels.len() > MAX_CHANNELS {
            return None;
        }
        let rows = self.node_aggregates();
        let stats = global_stats(&self.channels, &rows);
        Some((rows, stats))
    }
}

/// The largest value of a measure over the rows is the value of some row,
/// and no row has a larger one. It is missing if and only if the measure is
/// defined for no row.
pub proof fn lemma_max_node_value(rows: Seq<NodeAggregate>, m: NodeMeasure)
    ensures
        match max_node_value(rows, m) {
            Some(v) => {
                &&& exists|k: int| 0 <= k < rows.len() && node_value(#[trigger] rows[k], m) == Some(v)
                &&& forall|k: int|
                    0 <= k < rows.len() ==> (node_value(#[trigger] rows[k], m) matches Some(w)
                        ==> w <= v)
            },
            None => forall|k: int| 0 <= k < rows.len() ==> node_value(#[trigger] rows[k], m) is None,
        },
    decreases rows.len(),
{
    if rows.len() > 0 {
        let init = rows.drop_last();
        lemma_max_node_value(init, m);
        assert(forall|k: int| 0 <= k < init.len() ==> init[k] == rows[k]);
        match max_node_value(rows, m) {
            Some(v) => {
                if max_node_value(init, m) == Some(v) {
                    let k = choose|k: int|
                        0 <= k < init.len() && node_value(#[trigger] init[k], m) == Some(v);
                    assert(node_value(rows[k], m) == Some(v));
                } else {
                    assert(node_value(rows[rows.len() - 1], m) == Some(v));
                }
                assert forall|k: int| 0 <= k < rows.len() implies (node_value(
                    #[trigger] rows[k],
                    m,
                ) matches Some(w) ==> w <= v) by {
                    if k < init.len() {
                        assert(init[k] == rows[k]);
                    }
                }
            },
            None => {
                assert forall|k: int| 0 <= k < rows.len() implies node_value(
                    #[trigger] rows[k],
                    m,
                ) is None by {
                    if k < init.len() {
                        assert(init[k] == rows[k]);
                    }
                }
            },
        }
    }
}

/// The statistics' largest node capacity is the largest capacity of any row
/// of node aggregates; it is missing if and only if there is no row.
pub proof fn lemma_max_node_capacity(
    channels: Seq<ChannelRecord>,
    rows: Seq<NodeAggregate>,
    stats: GlobalStats,
)
    requires
        stats_of(channels, rows, stats),
    ensures
        stats.max_node_capacity is None <==> rows.len() == 0,
        stats.max_node_capacity matches Some(v) ==> {
            &&& exists|k: int| 0 <= k < rows.len() && (#[trigger] rows[k]).capacity == v
            &&& forall|k: int| 0 <= k < rows.len() ==> (#[trigger] rows[k]).capacity <= v
        },
{
    lemma_max_node_value(rows, NodeMeasure::Capacity);
    match stats.max_node_capacity {
        Some(v) => {
            let k = choose|k: int|
                0 <= k < rows.len() && node_value(#[trigger] rows[k], NodeMeasure::Capacity)
                    == Some(v as int);
            assert(rows[k].capacity == v);
            assert forall|k: int| 0 <= k < rows.len() implies (#[trigger] rows[k]).capacity
                <= v by {
                assert(node_value(rows[k], NodeMeasure::Capacity) == Some(rows[k].capacity as int));
            }
        },
        None => {
            if rows.len() > 0 {
                assert(node_value(rows[0], NodeMeasure::Capacity) is Some);
            }
        },
    }
}

/// Rebuilding the derived tables twice from the same primary tables gives
/// the same rows and the same statistics.
pub proof fn lemma_rebuild_repeats(
    channels: Seq<ChannelRecord>,
    aliases: Seq<NodeAliasRecord>,
    first_rows: Seq<NodeAggregate>,
    first_stats: GlobalStats,
    second_rows: Seq<NodeAggregate>,
    second_stats: GlobalStats,
)
    requires
        rebuilt_from(channels, aliases, first_rows, first_stats),
        rebuilt_from(channels, aliases, second_rows, second_stats),
    ensures
        first_rows == second_rows,
        first_stats == second_stats,
{
    let a = first_stats;
    let b = second_stats;
    assert(unbounded(a.max_channel_duration) == unbounded(b.max_channel_duration));
    assert(unbounded(a.max_channel_open_fee) == unbounded(b.max_channel_open_fee));
    assert(unbounded(a.max_channel_close_fee) == unbounded(b.max_channel_close_fee));
    assert(unbounded(a.max_channel_satoshis) == unbounded(b.max_channel_satoshis));
    assert(unbounded(a.max_node_capacity) == unbounded(b.max_node_capacity));
    assert(unbounded(a.max_node_openchannels) == unbounded(b.max_node_openchannels));
    assert(unbounded(a.max_node_closedchannels) == unbounded(b.max_node_closedchannels));
    assert(unbounded(a.max_node_allchannels) == unbounded(b.max_node_allchannels));
    assert(unbounded(a.max_node_close_rate) == unbounded(b.max_node_close_rate));
}

} // verus!
