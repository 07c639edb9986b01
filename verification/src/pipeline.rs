//! The stages that follow the topology pass: which records each has work
//! for, and what each writes.

use crate::classifier::CloseSummary;
use crate::closure::ChannelCloseData;
use crate::enricher::TransactionData;
use crate::resolver::ChannelBitcoinData;
use crate::store::{all_extend, ChannelRecord, Store};
use vstd::prelude::*;

verus! {

/// What the command line asks for.
#[derive(Clone, Copy, Debug, PartialEq, Eq, Structural)]
pub struct Flags {
    pub listchannels: bool,
    pub listnodes: bool,
    pub checkcloses: bool,
    pub enrich: bool,
    pub materialize: bool,
    pub all: bool,
    pub skipgossip: bool,
}

/// Which steps a run takes.
#[derive(Clone, Copy, Debug, PartialEq, Eq, Structural)]
pub struct StepsToRun {
    pub listchannels: bool,
    pub listnodes: bool,
    pub checkcloses: bool,
    pub enrich: bool,
    pub materialize: bool,
}

/// The steps that the flags select.
///
/// Skipping the gossip, unless all steps are asked for, selects every step
/// but the two listings. Otherwise a step is selected by its own flag or by
/// the flag for all steps.
pub open spec fn selected(flags: Flags) -> StepsToRun {
    if flags.skipgossip && !flags.all {
        StepsToRun {
            listchannels: false,
            listnodes: false,
            checkcloses: true,
            enrich: true,
            materialize: true,
        }
    } else {
        StepsToRun {
            listchannels: flags.all || flags.listchannels,
            listnodes: flags.all || flags.listnodes,
            checkcloses: flags.all || flags.checkcloses,
            enrich: flags.all || flags.enrich,
            materialize: flags.all || flags.materialize,
        }
    }
}

/// The steps that the flags select.
pub fn steps_to_run(flags: Flags) -> (steps: StepsToRun)
    ensures
        steps == selected(flags),
{
    let mut steps = StepsToRun {
        listchannels: flags.all || flags.listchannels,
        listnodes: flags.all || flags.listnodes,
        checkcloses: flags.all || flags.checkcloses,
        enrich: flags.all || flags.enrich,
        materialize: flags.all || flags.materialize,
    };
    if !flags.all && flags.skipgossip {
        steps.listchannels = false;
        steps.listnodes = false;
        steps.checkcloses = true;
        steps.enrich = true;
        steps.materialize = true;
    }
    steps
}

/// A stage of the pipeline that works record by record.
#[derive(Clone, Copy, Debug, PartialEq, Eq, Structural)]
pub enum Stage {
    /// Finds the funding transaction and address.
    Resolve,
    /// Looks for the transaction that spent the funding output.
    DetectClose,
    /// Adds time and fee of the funding transaction.
    EnrichOpen,
    /// Adds time and fee of the closing transaction.
    EnrichClose,
    /// Tells how the channel closed.
    Classify,
}

/// What a run does when a stage fails on a record.
#[derive(Clone, Copy, Debug, PartialEq, Eq, Structural)]
pub enum OnFailure {
    /// The record is left as it is and looked at again on the next run.
    Skip,
    /// The run ends.
    Abort,
}

/// What a failure of the stage on one record means for the run.
///
/// A channel that cannot be resolved shows that topology and ledger do not
/// fit together, which no later run will mend: the run ends. A failure of any
/// other stage may pass, and costs the run no more than that record.
pub open spec fn failure_policy(stage: Stage) -> OnFailure {
    if stage == Stage::Resolve {
        OnFailure::Abort
    } else {
        OnFailure::Skip
    }
}

/// What a failure of the stage on one record means for the run.
pub fn on_failure(stage: Stage) -> (a: OnFailure)
    ensures
        a == failure_policy(stage),
{
    match stage {
        Stage::Resolve => OnFailure::Abort,
        _ => OnFailure::Skip,
    }
}

/// For how many seconds a channel must have been missing from the topology
/// before its closure is looked for: one day.
pub const STALE_AFTER: i64 = 86400;

/// A channel last seen at `last_seen` has been missing for more than a day
/// at `now`.
pub open spec fn stale(last_seen: i64, now: i64) -> bool {
    last_seen + STALE_AFTER < now
}

/// The stage has not yet written to the record, and what it builds on is
/// there.
pub open spec fn open_to(r: ChannelRecord, stage: Stage) -> bool {
    match stage {
        Stage::Resolve => r.open_block is None,
        Stage::DetectClose => r.close_block is None,
        Stage::EnrichOpen => r.open_block is Some && r.open_time is None,
        Stage::EnrichClose => r.close_block is Some && r.close_time is None,
        Stage::Classify => r.close_transaction is Some && r.close_type is None,
    }
}

/// The stage has work for the record at `now`. A closure is looked for only
/// once the channel has gone stale.
pub open spec fn due(r: ChannelRecord, stage: Stage, now: i64) -> bool {
    open_to(r, stage) && (stage == Stage::DetectClose ==> stale(r.last_seen, now))
}

/// Whether a channel last seen at `last_seen` has been missing for more
/// than a day at `now`.
pub fn is_stale(last_seen: i64, now: i64) -> (r: bool)
    ensures
        r == stale(last_seen, now),
{
    (last_seen as i128) + (STALE_AFTER as i128) < now as i128
}

/// Whether the stage has work for the record at `now`.
pub fn is_due(r: &ChannelRecord, stage: Stage, now: i64) -> (d: bool)
    ensures
        d == due(*r, stage, now),
{
    match stage {
        Stage::Resolve => r.open_block.is_none(),
        Stage::DetectClose => r.close_block.is_none() && is_stale(r.last_seen, now),
        Stage::EnrichOpen => r.open_block.is_some() && r.open_time.is_none(),
        Stage::EnrichClose => r.close_block.is_some() && r.close_time.is_none(),
        Stage::Classify => r.close_transaction.is_some() && r.close_type.is_none(),
    }
}

/// `positions` are the positions of the records that the stage has work
/// for, each once and in the order of the table.
pub open spec fn work_list(
    channels: Seq<ChannelRecord>,
    stage: Stage,
    now: i64,
    positions: Seq<usize>,
) -> bool {
    &&& forall|k: int|
        0 <= k < positions.len() ==> (#[trigger] positions[k]) < channels.len() && due(
            channels[positions[k] as int],
            stage,
            now,
        )
    &&& forall|j: int, k: int|
        0 <= j < k < positions.len() ==> #[trigger] positions[j] < #[trigger] positions[k]
    &&& forall|i: int|
        0 <= i < channels.len() && due(#[trigger] channels[i], stage, now) ==> positions.contains(
            i as usize,
        )
}

impl Store {
    /// The records that the stage has work for at `now`, by position.
    pub fn due(&self, stage: Stage, now: i64) -> (positions: Vec<usize>)
        ensures
            work_list(self.channels@, stage, now, positions@),
    {
        let mut positions: Vec<usize> = Vec::new();
        let mut i: usize = 0;
        while i < self.channels.len()
            invariant
                i <= self.channels.len(),
                work_list(self.channels@.take(i as int), stage, now, positions@),
            decreases self.channels.len() - i,
        {
            let ghost before = positions@;
            let ghost seen = self.channels@.take(i as int);
            let ghost next = self.channels@.take(i + 1);
            assert(forall|j: int| 0 <= j < i ==> next[j] == seen[j]);
            if is_due(&self.channels[i], stage, now) {
                positions.push(i);
                assert forall|j: int|
                    0 <= j < next.len() && due(
                        #[trigger] next[j],
                        stage,
                        now,
                    ) implies positions@.contains(j as usize) by {
                    if j < i {
                        assert(due(seen[j], stage, now));
                        let k = choose|k: int| 0 <= k < before.len() && before[k] == j as usize;
                        assert(positions@[k] == j as usize);
                    } else {
                        assert(positions@[before.len() as int] == i);
                    }
                }
            } else {
                assert forall|j: int|
                    0 <= j < next.len() && due(
                        #[trigger] next[j],
                        stage,
                        now,
                    ) implies positions@.contains(j as usize) by {
                    assert(due(seen[j], stage, now));
                }
            }
            i += 1;
        }
        assert(self.channels@.take(self.channels@.len() as int) =~= self.channels@);
        positions
    }

    /// Writes where the channel at position `i` was funded.
    ///
    /// Writes, and returns `true`, if and only if there is such a record and
    /// it has no funding block yet.
    pub fn set_funding(&mut self, i: usize, data: ChannelBitcoinData) -> (written: bool)
        requires
            old(self).wf(),
        ensures
            final(self).wf(),
            written <==> i < old(self).channels.len() && open_to(
                old(self).channels@[i as int],
                Stage::Resolve,
            ),
            written ==> !open_to(final(self).channels@[i as int], Stage::Resolve),
            all_extend(old(self).channels@, final(self).channels@),
            written ==> final(self).channels@ == old(self).channels@.update(
                i as int,
                ChannelRecord {
                    open_block: Some(data.block),
                    open_transaction: Some(data.transaction),
                    funding_address: Some(data.address),
                    ..old(self).channels@[i as int]
                },
            ),
            !written ==> final(self).channels@ == old(self).channels@,
            final(self).policies == old(self).policies,
            final(self).aliases == old(self).aliases,
    {
        if i >= self.channels.len() || self.channels[i].open_block.is_some() {
            return false;
        }
        self.channels[i].open_block = Some(data.block);
        self.channels[i].open_transaction = Some(data.transaction);
        self.channels[i].funding_address = Some(data.address);
        assert(self.channels@ =~= old(self).channels@.update(
            i as int,
            ChannelRecord {
                open_block: Some(data.block),
                open_transaction: Some(data.transaction),
                funding_address: Some(data.address),
                ..old(self).channels@[i as int]
            },
        ));
        true
    }

    /// Writes where the channel at position `i` was closed.
    ///
    /// Writes, and returns `true`, if and only if there is such a record and
    /// it has no closing block yet.
    pub fn set_close(&mut self, i: usize, data: ChannelCloseData) -> (written: bool)
        requires
            old(self).wf(),
        ensures
            final(self).wf(),
            written <==> i < old(self).channels.len() && open_to(
                old(self).channels@[i as int],
                Stage::DetectClose,
            ),
            written ==> !open_to(final(self).channels@[i as int], Stage::DetectClose),
            all_extend(old(self).channels@, final(self).channels@),
            written ==> final(self).channels@ == old(self).channels@.update(
                i as int,
                ChannelRecord {
                    close_block: Some(data.block),
                    close_transaction: Some(data.transaction),
                    ..old(self).channels@[i as int]
                },
            ),
            !written ==> final(self).channels@ == old(self).channels@,
            final(self).policies == old(self).policies,
            final(self).aliases == old(self).aliases,
    {
        if i >= self.channels.len() || self.channels[i].close_block.is_some() {
            return false;
        }
        self.channels[i].close_block = Some(data.block);
        self.channels[i].close_transaction = Some(data.transaction);
        assert(self.channels@ =~= old(self).channels@.update(
            i as int,
            ChannelRecord {
                close_block: Some(data.block),
                close_transaction: Some(data.transaction),
                ..old(self).channels@[i as int]
            },
        ));
        true
    }

    /// Writes time and fee of the funding transaction of the channel at
    /// position `i`.
    ///
    /// Writes, and returns `true`, if and only if there is such a record, its
    /// funding block is known and its funding time is not.
    pub fn set_open_details(&mut self, i: usize, data: TransactionData) -> (written: bool)
        requires
            old(self).wf(),
        ensures
            final(self).wf(),
            written <==> i < old(self).channels.len() && open_to(
                old(self).channels@[i as int],
                Stage::EnrichOpen,
            ),
            written ==> !open_to(final(self).channels@[i as int], Stage::EnrichOpen),
            all_extend(old(self).channels@, final(self).channels@),
            written ==> final(self).channels@ == old(self).channels@.update(
                i as int,
                ChannelRecord {
                    open_time: Some(data.time),
                    open_fee: Some(data.fee),
                    ..old(self).channels@[i as int]
                },
            ),
            !written ==> final(self).channels@ == old(self).channels@,
            final(self).policies == old(self).policies,
            final(self).aliases == old(self).aliases,
    {
        if i >= self.channels.len() || self.channels[i].open_block.is_none()
            || self.channels[i].open_time.is_some() {
            return false;
        }
        self.channels[i].open_time = Some(data.time);
        self.channels[i].open_fee = Some(data.fee);
        assert(self.channels@ =~= old(self).channels@.update(
            i as int,
            ChannelRecord {
                open_time: Some(data.time),
                open_fee: Some(data.fee),
                ..old(self).channels@[i as int]
            },
        ));
        true
    }

    /// Writes time and fee of the closing transaction of the channel at
    /// position `i`.
    ///
    /// Writes, and returns `true`, if and only if there is such a record, its
    /// closing block is known and its closing time is not.
    pub fn set_close_details(&mut self, i: usize, data: TransactionData) -> (written: bool)
        requires
            old(self).wf(),
        ensures
            final(self).wf(),
            written <==> i < old(self).channels.len() && open_to(
                old(self).channels@[i as int],
                Stage::EnrichClose,
            ),
            written ==> !open_to(final(self).channels@[i as int], Stage::EnrichClose),
            all_extend(old(self).channels@, final(self).channels@),
            written ==> final(self).channels@ == old(self).channels@.update(
                i as int,
                ChannelRecord {
                    close_time: Some(data.time),
                    close_fee: Some(data.fee),
                    ..old(self).channels@[i as int]
                },
            ),
            !written ==> final(self).channels@ == old(self).channels@,
            final(self).policies == old(self).policies,
            final(self).aliases == old(self).aliases,
    {
        if i >= self.channels.len() || self.channels[i].close_block.is_none()
            || self.channels[i].close_time.is_some() {
            return false;
        }
        self.channels[i].close_time = Some(data.time);
        self.channels[i].close_fee = Some(data.fee);
        assert(self.channels@ =~= old(self).channels@.update(
            i as int,
            ChannelRecord {
                close_time: Some(data.time),
                close_fee: Some(data.fee),
                ..old(self).channels@[i as int]
            },
        ));
        true
    }

    /// Writes how the channel at position `i` closed.
    ///
    /// Writes, and returns `true`, if and only if there is such a record, its
    /// closing transaction is known and its close type is not.
    pub fn set_close_type(&mut self, i: usize, summary: CloseSummary) -> (written: bool)
        requires
            old(self).wf(),
        ensures
            final(self).wf(),
            written <==> i < old(self).channels.len() && open_to(
                old(self).channels@[i as int],
                Stage::Classify,
            ),
            written ==> !open_to(final(self).channels@[i as int], Stage::Classify),
            all_extend(old(self).channels@, final(self).channels@),
            written ==> final(self).channels@ == old(self).channels@.update(
                i as int,
                ChannelRecord {
                    close_type: Some(summary.close_type),
                    close_balance_a: Some(summary.balance_a),
                    close_balance_b: Some(summary.balance_b),
                    close_htlc_count: Some(summary.htlc_count),
                    ..old(self).channels@[i as int]
                },
            ),
            !written ==> final(self).channels@ == old(self).channels@,
            final(self).policies == old(self).policies,
            final(self).aliases == old(self).aliases,
    {
        if i >= self.channels.len() || self.channels[i].close_transaction.is_none()
            || self.channels[i].close_type.is_some() {
            return false;
        }
        self.channels[i].close_type = Some(summary.close_type);
        self.channels[i].close_balance_a = Some(summary.balance_a);
        self.channels[i].close_balance_b = Some(summary.balance_b);
        self.channels[i].close_htlc_count = Some(summary.htlc_count);
        assert(self.channels@ =~= old(self).channels@.update(
            i as int,
            ChannelRecord {
                close_type: Some(summary.close_type),
                close_balance_a: Some(summary.balance_a),
                close_balance_b: Some(summary.balance_b),
                close_htlc_count: Some(summary.htlc_count),
                ..old(self).channels@[i as int]
            },
        ));
        true
    }
}

} // verus!
