//! Taking in the network's topology: channel records, policy history and
//! alias history.

use crate::lightning::{Channel, Node};
use crate::store::{
    all_kept, channel_absent, channel_at, endpoints_ordered, endpoints_strictly_ordered,
    ChannelRecord, Direction, NodeAliasRecord, PolicySnapshot, Store,
};
use crate::text::{lemma_lex_total, lex_lt, str_lt};
use vstd::prelude::*;

verus! {

/// The direction in which an edge's policy applies: forward where its
/// source is the lower endpoint.
pub open spec fn direction_of(edge: Channel) -> Direction {
    if lex_lt(edge.source@, edge.destination@) {
        Direction::Forward
    } else {
        Direction::Backward
    }
}

/// The endpoint of an edge that comes first in lexicographic order.
pub open spec fn lower_endpoint(edge: Channel) -> String {
    if lex_lt(edge.source@, edge.destination@) {
        edge.source
    } else {
        edge.destination
    }
}

/// The endpoint of an edge that comes last in lexicographic order.
pub open spec fn upper_endpoint(edge: Channel) -> String {
    if lex_lt(edge.source@, edge.destination@) {
        edge.destination
    } else {
        edge.source
    }
}

/// The record of a channel sighted for the first time at `now`: nothing is
/// known of it but what the edge says.
pub open spec fn fresh_record(edge: Channel, now: i64) -> ChannelRecord {
    ChannelRecord {
        short_channel_id: edge.short_channel_id,
        node0: lower_endpoint(edge),
        node1: upper_endpoint(edge),
        satoshis: edge.satoshis,
        last_update: edge.last_update,
        last_seen: now,
        open_block: None,
        open_time: None,
        open_transaction: None,
        open_fee: None,
        funding_address: None,
        close_block: None,
        close_time: None,
        close_transaction: None,
        close_fee: None,
        close_type: None,
        close_balance_a: None,
        close_balance_b: None,
        close_htlc_count: None,
    }
}

/// The record of a channel sighted again at `now`: only the two times change.
pub open spec fn refreshed(r: ChannelRecord, edge: Channel, now: i64) -> ChannelRecord {
    ChannelRecord { last_update: edge.last_update, last_seen: now, ..r }
}

/// The channel table after the sighting of `edge` at `now`.
pub open spec fn with_channel(channels: Seq<ChannelRecord>, edge: Channel, now: i64) -> Seq<
    ChannelRecord,
> {
    if channel_absent(channels, edge.short_channel_id@) {
        channels.push(fresh_record(edge, now))
    } else {
        let i = choose|i: int| channel_at(channels, edge.short_channel_id@, i);
        channels.update(i, refreshed(channels[i], edge, now))
    }
}

/// The endpoints of a fresh record are in order, and strictly so unless the
/// edge runs from a node to itself.
pub proof fn lemma_fresh_record_ordered(edge: Channel, now: i64)
    ensures
        endpoints_ordered(fresh_record(edge, now)),
        edge.source@ != edge.destination@ ==> endpoints_strictly_ordered(fresh_record(edge, now)),
{
    lemma_lex_total(edge.source@, edge.destination@);
}

/// The direction in which an edge's policy applies.
pub fn direction(edge: &Channel) -> (d: Direction)
    ensures
        d == direction_of(*edge),
{
    if str_lt(edge.source.as_str(), edge.destination.as_str()) {
        Direction::Forward
    } else {
        Direction::Backward
    }
}

/// The record of a channel sighted for the first time at `now`.
pub fn new_record(edge: &Channel, now: i64) -> (r: ChannelRecord)
    ensures
        r == fresh_record(*edge, now),
{
    let forward = str_lt(edge.source.as_str(), edge.destination.as_str());
    let (node0, node1) = if forward {
        (edge.source.clone(), edge.destination.clone())
    } else {
        (edge.destination.clone(), edge.source.clone())
    };
    ChannelRecord {
        short_channel_id: edge.short_channel_id.clone(),
        node0,
        node1,
        satoshis: edge.satoshis,
        last_update: edge.last_update,
        last_seen: now,
        open_block: None,
        open_time: None,
        open_transaction: None,
        open_fee: None,
        funding_address: None,
        close_block: None,
        close_time: None,
        close_transaction: None,
        close_fee: None,
        close_type: None,
        close_balance_a: None,
        close_balance_b: None,
        close_htlc_count: None,
    }
}

impl Store {
    /// Records the sighting of a channel at `now`.
    ///
    /// A channel not yet known gets a record with its endpoints in order. A
    /// known one has its `last_seen` and `last_update` refreshed and keeps all
    /// else, endpoints and capacity included.
    pub fn touch_channel(&mut self, edge: &Channel, now: i64)
        requires
            old(self).wf(),
        ensures
            final(self).wf(),
            final(self).channels@ == with_channel(old(self).channels@, *edge, now),
            all_kept(old(self).channels@, final(self).channels@),
            final(self).policies == old(self).policies,
            final(self).aliases == old(self).aliases,
            old(self).strictly_ordered() && edge.source@ != edge.destination@
                ==> final(self).strictly_ordered(),
    {
        proof {
            lemma_fresh_record_ordered(*edge, now);
        }
        match self.find_channel(&edge.short_channel_id) {
            Some(i) => {
                proof {
                    let j = choose|j: int|
                        channel_at(old(self).channels@, edge.short_channel_id@, j);
                    assert(channel_at(old(self).channels@, edge.short_channel_id@, i as int));
                    assert(j == i);
                }
                self.channels[i].last_update = edge.last_update;
                self.channels[i].last_seen = now;
                assert(self.channels@ =~= with_channel(old(self).channels@, *edge, now));
            },
            None => {
                let r = new_record(edge, now);
                self.channels.push(r);
            },
        }
    }
}

/// The snapshot is of the policy of channel `id` in direction `d`.
pub open spec fn policy_of(p: PolicySnapshot, id: Seq<char>, d: Direction) -> bool {
    p.short_channel_id@ == id && p.direction == d
}

/// The log holds no policy of channel `id` in direction `d`.
pub open spec fn policy_absent(policies: Seq<PolicySnapshot>, id: Seq<char>, d: Direction) -> bool {
    forall|j: int| 0 <= j < policies.len() ==> !policy_of(#[trigger] policies[j], id, d)
}

/// Snapshot `i` is the latest of channel `id` in direction `d`: none of
/// that channel and direction has a later update time, and of those with the
/// same update time it was logged last.
pub open spec fn latest_policy_at(
    policies: Seq<PolicySnapshot>,
    id: Seq<char>,
    d: Direction,
    i: int,
) -> bool {
    &&& 0 <= i < policies.len()
    &&& policy_of(policies[i], id, d)
    &&& forall|j: int|
        0 <= j < policies.len() && policy_of(#[trigger] policies[j], id, d) ==> {
            ||| policies[j].update_time < policies[i].update_time
            ||| (policies[j].update_time == policies[i].update_time && j <= i)
        }
}

/// The snapshot holds the terms that the edge announces.
pub open spec fn same_terms(p: PolicySnapshot, edge: Channel) -> bool {
    &&& p.base_fee_millisatoshi == edge.base_fee_millisatoshi
    &&& p.fee_per_millionth == edge.fee_per_millionth
    &&& p.delay == edge.delay
}

/// The terms that the edge announces are those of the latest snapshot of its
/// channel and direction.
pub open spec fn policy_current(policies: Seq<PolicySnapshot>, edge: Channel) -> bool {
    exists|i: int|
        #[trigger] latest_policy_at(policies, edge.short_channel_id@, direction_of(edge), i)
            && same_terms(policies[i], edge)
}

/// The snapshot that logs the terms of an edge, dated by the edge's last
/// update.
pub open spec fn snapshot_of(edge: Channel) -> PolicySnapshot {
    PolicySnapshot {
        short_channel_id: edge.short_channel_id,
        direction: direction_of(edge),
        base_fee_millisatoshi: edge.base_fee_millisatoshi,
        fee_per_millionth: edge.fee_per_millionth,
        delay: edge.delay,
        update_time: edge.last_update,
    }
}

/// The policy log after the sighting of `edge`: a snapshot is added if and
/// only if the edge's terms are not those of the latest snapshot of its
/// channel and direction.
pub open spec fn with_policy(policies: Seq<PolicySnapshot>, edge: Channel) -> Seq<PolicySnapshot> {
    if policy_current(policies, edge) {
        policies
    } else {
        policies.push(snapshot_of(edge))
    }
}

/// A channel and direction has one latest snapshot at most.
pub proof fn lemma_latest_policy_unique(
    policies: Seq<PolicySnapshot>,
    id: Seq<char>,
    d: Direction,
    i: int,
    j: int,
)
    requires
        latest_policy_at(policies, id, d, i),
        latest_policy_at(policies, id, d, j),
    ensures
        i == j,
{
}

/// The latest snapshot of channel `id` in direction `d`, by position.
pub fn latest_policy(policies: &Vec<PolicySnapshot>, id: &String, d: Direction) -> (r: Option<
    usize,
>)
    ensures
        r is None <==> policy_absent(policies@, id@, d),
        r matches Some(i) ==> latest_policy_at(policies@, id@, d, i as int),
{
    let mut best: Option<usize> = None;
    let mut k: usize = 0;
    while k < policies.len()
        invariant
            k <= policies.len(),
            best is None <==> policy_absent(policies@.take(k as int), id@, d),
            best matches Some(i) ==> i < k && latest_policy_at(
                policies@.take(k as int),
                id@,
                d,
                i as int,
            ),
        decreases policies.len() - k,
    {
        let ghost before = policies@.take(k as int);
        let ghost after = policies@.take(k + 1);
        assert(forall|j: int| 0 <= j < k ==> after[j] == before[j]);
        assert(after[k as int] == policies@[k as int]);
        let p = &policies[k];
        let hit = p.short_channel_id == *id && p.direction == d;
        if hit {
            let newer = match best {
                None => true,
                Some(i) => policies[i].update_time <= p.update_time,
            };
            if newer {
                best = Some(k);
            }
            assert(!policy_absent(after, id@, d)) by {
                assert(policy_of(after[k as int], id@, d));
            }
        } else {
            proof {
                if best is None {
                    assert forall|j: int| 0 <= j < after.len() implies !policy_of(
                        #[trigger] after[j],
                        id@,
                        d,
                    ) by {
                        if j < k {
                            assert(!policy_of(before[j], id@, d));
                        }
                    }
                } else {
                    assert(policy_of(after[best->0 as int], id@, d));
                }
            }
        }
        k += 1;
    }
    assert(policies@.take(policies@.len() as int) =~= policies@);
    best
}

/// Whether the terms of an edge differ from the latest snapshot stored for
/// its channel and direction, so that a new snapshot is due. With nothing
/// stored one is always due.
pub fn policy_changed(edge: &Channel, latest: Option<&PolicySnapshot>) -> (changed: bool)
    ensures
        changed == match latest {
            Some(p) => !same_terms(*p, *edge),
            None => true,
        },
{
    match latest {
        Some(p) => !(p.base_fee_millisatoshi == edge.base_fee_millisatoshi && p.fee_per_millionth
            == edge.fee_per_millionth && p.delay == edge.delay),
        None => true,
    }
}

/// The snapshot that logs the terms of an edge.
pub fn new_snapshot(edge: &Channel) -> (p: PolicySnapshot)
    ensures
        p == snapshot_of(*edge),
{
    PolicySnapshot {
        short_channel_id: edge.short_channel_id.clone(),
        direction: direction(edge),
        base_fee_millisatoshi: edge.base_fee_millisatoshi,
        fee_per_millionth: edge.fee_per_millionth,
        delay: edge.delay,
        update_time: edge.last_update,
    }
}

impl Store {
    /// Logs the policy of an edge if it changed.
    ///
    /// Returns whether a snapshot was added: if and only if the edge's terms
    /// differ from the latest snapshot stored for its channel and direction,
    /// or none is stored.
    pub fn record_policy(&mut self, edge: &Channel) -> (added: bool)
        ensures
            added == !policy_current(old(self).policies@, *edge),
            final(self).policies@ == with_policy(old(self).policies@, *edge),
            added ==> final(self).policies@ == old(self).policies@.push(snapshot_of(*edge)),
            !added ==> final(self).policies@ == old(self).policies@,
            final(self).channels == old(self).channels,
            final(self).aliases == old(self).aliases,
    {
        let d = direction(edge);
        let latest = latest_policy(&self.policies, &edge.short_channel_id, d);
        let changed = match latest {
            Some(i) => {
                proof {
                    assert forall|j: int| #[trigger]
                        latest_policy_at(self.policies@, edge.short_channel_id@, d, j) implies j
                        == i by {
                        lemma_latest_policy_unique(
                            self.policies@,
                            edge.short_channel_id@,
                            d,
                            i as int,
                            j,
                        );
                    }
                }
                policy_changed(edge, Some(&self.policies[i]))
            },
            None => policy_changed(edge, None),
        };
        if changed {
            let p = new_snapshot(edge);
            self.policies.push(p);
        }
        changed
    }
}

/// Edge `k` of a listing is of the same channel as the edge before it. A
/// listing gives the two directions of a channel one after the other, and
/// the channel is sighted once.
pub open spec fn repeats_previous(edges: Seq<Channel>, k: int) -> bool {
    0 < k < edges.len() && edges[k - 1].short_channel_id@ == edges[k].short_channel_id@
}

/// The channel table after a listing taken at `now`: each edge that does not
/// repeat the channel of the edge before it is a sighting.
pub open spec fn channels_after(channels: Seq<ChannelRecord>, edges: Seq<Channel>, now: i64) -> Seq<
    ChannelRecord,
>
    decreases edges.len(),
{
    if edges.len() == 0 {
        channels
    } else {
        let before = channels_after(channels, edges.drop_last(), now);
        if repeats_previous(edges, edges.len() - 1) {
            before
        } else {
            with_channel(before, edges.last(), now)
        }
    }
}

/// The policy log after a listing: every edge is held against the log in turn.
pub open spec fn policies_after(policies: Seq<PolicySnapshot>, edges: Seq<Channel>) -> Seq<
    PolicySnapshot,
>
    decreases edges.len(),
{
    if edges.len() == 0 {
        policies
    } else {
        with_policy(policies_after(policies, edges.drop_last()), edges.last())
    }
}

/// No edge of the listing runs from a node to itself.
pub open spec fn no_self_edges(edges: Seq<Channel>) -> bool {
    forall|k: int| 0 <= k < edges.len() ==> (#[trigger] edges[k]).source@ != edges[k].destination@
}

impl Store {
    /// Takes in a channel listing fetched at `now`.
    ///
    /// Every channel listed is sighted and the policy of every edge is held
    /// against the log. Returns the number of snapshots added.
    pub fn record_channels(&mut self, edges: &Vec<Channel>, now: i64) -> (added: usize)
        requires
            old(self).wf(),
        ensures
            final(self).wf(),
            final(self).channels@ == channels_after(old(self).channels@, edges@, now),
            final(self).policies@ == policies_after(old(self).policies@, edges@),
            all_kept(old(self).channels@, final(self).channels@),
            old(self).policies@.is_prefix_of(final(self).policies@),
            final(self).aliases == old(self).aliases,
            final(self).policies@.len() == old(self).policies@.len() + added,
            old(self).strictly_ordered() && no_self_edges(edges@) ==> final(
                self
            ).strictly_ordered(),
    {
        let mut added: usize = 0;
        let mut k: usize = 0;
        assert(edges@.take(0) =~= Seq::<Channel>::empty());
        while k < edges.len()
            invariant
                k <= edges.len(),
                self.wf(),
                all_kept(old(self).channels@, self.channels@),
                old(self).policies@.is_prefix_of(self.policies@),
                self.channels@ == channels_after(old(self).channels@, edges@.take(k as int), now),
                self.policies@ == policies_after(old(self).policies@, edges@.take(k as int)),
                self.aliases == old(self).aliases,
                self.policies@.len() == old(self).policies@.len() + added,
                added <= k,
                old(self).strictly_ordered() && no_self_edges(edges@) ==> self.strictly_ordered(),
            decreases edges.len() - k,
        {
            let edge = &edges[k];
            proof {
                let next = edges@.take(k + 1);
                assert(next.drop_last() =~= edges@.take(k as int));
                assert(next.last() == *edge);
                assert(repeats_previous(next, k as int) == repeats_previous(edges@, k as int));
            }
            let repeated = k > 0 && edges[k - 1].short_channel_id == edge.short_channel_id;
            if !repeated {
                self.touch_channel(edge, now);
            }
            if self.record_policy(edge) {
                added += 1;
            }
            k += 1;
        }
        assert(edges@.take(edges@.len() as int) =~= edges@);
        added
    }
}

/// The log holds no alias of node `pubkey`.
pub open spec fn alias_absent(aliases: Seq<NodeAliasRecord>, pubkey: Seq<char>) -> bool {
    forall|j: int| 0 <= j < aliases.len() ==> (#[trigger] aliases[j]).pubkey@ != pubkey
}

/// Record `i` is the latest alias of node `pubkey`: none of that node was
/// seen later, and of those seen at the same time it was logged last.
pub open spec fn latest_alias_at(aliases: Seq<NodeAliasRecord>, pubkey: Seq<char>, i: int) -> bool {
    &&& 0 <= i < aliases.len()
    &&& aliases[i].pubkey@ == pubkey
    &&& forall|j: int|
        0 <= j < aliases.len() && (#[trigger] aliases[j]).pubkey@ == pubkey ==> {
            ||| aliases[j].last_seen < aliases[i].last_seen
            ||| (aliases[j].last_seen == aliases[i].last_seen && j <= i)
        }
}

/// The alias that the node announces is its latest on record.
pub open spec fn alias_current(aliases: Seq<NodeAliasRecord>, node: Node) -> bool {
    exists|i: int| #[trigger]
        latest_alias_at(aliases, node.nodeid@, i) && aliases[i].alias@ == node.alias@
}

/// The record of an alias first seen at `now`.
pub open spec fn fresh_alias(node: Node, now: i64) -> NodeAliasRecord {
    NodeAliasRecord { pubkey: node.nodeid, alias: node.alias, first_seen: now, last_seen: now }
}

/// The alias log after the sighting of `node` at `now`: where the node still
/// announces its latest alias that record's `last_seen` is refreshed, else a
/// record is added.
pub open spec fn with_alias(aliases: Seq<NodeAliasRecord>, node: Node, now: i64) -> Seq<
    NodeAliasRecord,
> {
    if alias_current(aliases, node) {
        let i = choose|i: int| latest_alias_at(aliases, node.nodeid@, i);
        aliases.update(i, NodeAliasRecord { last_seen: now, ..aliases[i] })
    } else {
        aliases.push(fresh_alias(node, now))
    }
}

/// A node has one latest alias at most.
pub proof fn lemma_latest_alias_unique(
    aliases: Seq<NodeAliasRecord>,
    pubkey: Seq<char>,
    i: int,
    j: int,
)
    requires
        latest_alias_at(aliases, pubkey, i),
        latest_alias_at(aliases, pubkey, j),
    ensures
        i == j,
{
}

/// The latest alias of node `pubkey`, by position.
pub fn latest_alias(aliases: &Vec<NodeAliasRecord>, pubkey: &String) -> (r: Option<usize>)
    ensures
        r is None <==> alias_absent(aliases@, pubkey@),
        r matches Some(i) ==> latest_alias_at(aliases@, pubkey@, i as int),
{
    let mut best: Option<usize> = None;
    let mut k: usize = 0;
    while k < aliases.len()
        invariant
            k <= aliases.len(),
            best is None <==> alias_absent(aliases@.take(k as int), pubkey@),
            best matches Some(i) ==> i < k && latest_alias_at(
                aliases@.take(k as int),
                pubkey@,
                i as int,
            ),
        decreases aliases.len() - k,
    {
        let ghost before = aliases@.take(k as int);
        let ghost after = aliases@.take(k + 1);
        assert(forall|j: int| 0 <= j < k ==> after[j] == before[j]);
        assert(after[k as int] == aliases@[k as int]);
        let r = &aliases[k];
        if r.pubkey == *pubkey {
            let newer = match best {
                None => true,
                Some(i) => aliases[i].last_seen <= r.last_seen,
            };
            if newer {
                best = Some(k);
            }
            assert(!alias_absent(after, pubkey@)) by {
                assert(after[k as int].pubkey@ == pubkey@);
            }
        } else {
            proof {
                if best is None {
                    assert forall|j: int| 0 <= j < after.len() implies (#[trigger] after[j]).pubkey@
                        != pubkey@ by {
                        if j < k {
                            assert(before[j].pubkey@ != pubkey@);
                        }
                    }
                } else {
                    assert(after[best->0 as int].pubkey@ == pubkey@);
                }
            }
        }
        k += 1;
    }
    assert(aliases@.take(aliases@.len() as int) =~= aliases@);
    best
}

/// Whether a node's alias differs from its latest on record, so that a new
/// record is due. With nothing on record one is always due.
pub fn alias_changed(node: &Node, latest: Option<&NodeAliasRecord>) -> (changed: bool)
    ensures
        changed == match latest {
            Some(r) => r.alias@ != node.alias@,
            None => true,
        },
{
    match latest {
        Some(r) => !(r.alias == node.alias),
        None => true,
    }
}

impl Store {
    /// Records the sighting of a node at `now`.
    ///
    /// Returns whether an alias record was added: if and only if the node's
    /// alias differs from its latest on record, or none is on record.
    /// Otherwise the latest record has its `last_seen` refreshed.
    pub fn record_alias(&mut self, node: &Node, now: i64) -> (added: bool)
        ensures
            added == !alias_current(old(self).aliases@, *node),
            final(self).aliases@ == with_alias(old(self).aliases@, *node, now),
            added ==> final(self).aliases@ == old(self).aliases@.push(fresh_alias(*node, now)),
            final(self).channels == old(self).channels,
            final(self).policies == old(self).policies,
    {
        let latest = latest_alias(&self.aliases, &node.nodeid);
        match latest {
            Some(i) => {
                proof {
                    assert forall|j: int| #[trigger]
                        latest_alias_at(self.aliases@, node.nodeid@, j) implies j == i by {
                        lemma_latest_alias_unique(self.aliases@, node.nodeid@, i as int, j);
                    }
                }
                if alias_changed(node, Some(&self.aliases[i])) {
                    self.aliases.push(
                        NodeAliasRecord {
                            pubkey: node.nodeid.clone(),
                            alias: node.alias.clone(),
                            first_seen: now,
                            last_seen: now,
                        },
                    );
                    true
                } else {
                    self.aliases[i].last_seen = now;
                    assert(self.aliases@ =~= with_alias(old(self).aliases@, *node, now));
                    false
                }
            },
            None => {
                self.aliases.push(
                    NodeAliasRecord {
                        pubkey: node.nodeid.clone(),
                        alias: node.alias.clone(),
                        first_seen: now,
                        last_seen: now,
                    },
                );
                true
            },
        }
    }
}

/// The alias log after a node listing taken at `now`.
pub open spec fn aliases_after(aliases: Seq<NodeAliasRecord>, nodes: Seq<Node>, now: i64) -> Seq<
    NodeAliasRecord,
>
    decreases nodes.len(),
{
    if nodes.len() == 0 {
        aliases
    } else {
        with_alias(aliases_after(aliases, nodes.drop_last(), now), nodes.last(), now)
    }
}

impl Store {
    /// Takes in a node listing fetched at `now`. Returns the number of alias
    /// records added.
    pub fn record_nodes(&mut self, nodes: &Vec<Node>, now: i64) -> (added: usize)
        ensures
            final(self).aliases@ == aliases_after(old(self).aliases@, nodes@, now),
            final(self).aliases@.len() == old(self).aliases@.len() + added,
            final(self).channels == old(self).channels,
            final(self).policies == old(self).policies,
    {
        let mut added: usize = 0;
        let mut k: usize = 0;
        assert(nodes@.take(0) =~= Seq::<Node>::empty());
        while k < nodes.len()
            invariant
                k <= nodes.len(),
                self.aliases@ == aliases_after(old(self).aliases@, nodes@.take(k as int), now),
                self.aliases@.len() == old(self).aliases@.len() + added,
                added <= k,
                self.channels == old(self).channels,
                self.policies == old(self).policies,
            decreases nodes.len() - k,
        {
            proof {
                let next = nodes@.take(k + 1);
                assert(next.drop_last() =~= nodes@.take(k as int));
                assert(next.last() == nodes@[k as int]);
            }
            if self.record_alias(&nodes[k], now) {
                added += 1;
            }
            k += 1;
        }
        assert(nodes@.take(nodes@.len() as int) =~= nodes@);
        added
    }
}

} // verus!
