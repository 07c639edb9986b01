//! What a second pass over an unchanged listing does to the tables: it
//! refreshes times and adds no row.

use crate::lightning::{Channel, Node};
use crate::store::{channel_absent, channel_at, ChannelRecord, Direction, NodeAliasRecord, PolicySnapshot};
use crate::topology::{
    alias_absent, alias_current, aliases_after, channels_after, direction_of, latest_alias_at, latest_policy_at,
    lemma_latest_alias_unique, lemma_latest_policy_unique, policies_after, policy_absent,
    policy_current, policy_of, refreshed, repeats_previous, same_terms, snapshot_of, with_alias,
    with_channel, with_policy,
};
use vstd::prelude::*;

verus! {

/// The edge announces the policy of channel `id` in direction `d`.
pub open spec fn edge_of(edge: Channel, id: Seq<char>, d: Direction) -> bool {
    edge.short_channel_id@ == id && direction_of(edge) == d
}

/// Two edges announce the same terms.
pub open spec fn terms_agree(a: Channel, b: Channel) -> bool {
    &&& a.base_fee_millisatoshi == b.base_fee_millisatoshi
    &&& a.fee_per_millionth == b.fee_per_millionth
    &&& a.delay == b.delay
}

/// Two edges say the same.
pub open spec fn same_edge(a: Channel, b: Channel) -> bool {
    &&& a.source@ == b.source@
    &&& a.destination@ == b.destination@
    &&& a.short_channel_id@ == b.short_channel_id@
    &&& a.satoshis == b.satoshis
    &&& a.last_update == b.last_update
    &&& terms_agree(a, b)
}

/// The listing fetched again says what it said before: upstream nothing
/// has changed.
pub open spec fn same_listing(edges: Seq<Channel>, again: Seq<Channel>) -> bool {
    &&& again.len() == edges.len()
    &&& forall|k: int| 0 <= k < edges.len() ==> same_edge(#[trigger] edges[k], again[k])
}

/// The listing does not contradict itself: edges of the same channel and
/// direction announce the same terms.
pub open spec fn listing_consistent(edges: Seq<Channel>) -> bool {
    forall|j: int, k: int|
        0 <= j < edges.len() && 0 <= k < edges.len() && edge_of(
            #[trigger] edges[j],
            edges[k].short_channel_id@,
            direction_of(#[trigger] edges[k]),
        ) ==> terms_agree(edges[j], edges[k])
}

/// Some edge of channel `id` and direction `d` is dated no earlier than
/// `time`.
pub open spec fn dated_from(edges: Seq<Channel>, id: Seq<char>, d: Direction, time: i64) -> bool {
    exists|j: int|
        0 <= j < edges.len() && edge_of(#[trigger] edges[j], id, d) && time <= edges[j].last_update
}

/// Edge `k` can take the place of what the log holds for its channel and
/// direction: the log holds nothing, or its latest snapshot has the edge's
/// terms, or is dated no later than some edge of that channel and direction.
pub open spec fn supersedes(policies: Seq<PolicySnapshot>, edges: Seq<Channel>, k: int) -> bool {
    let id = edges[k].short_channel_id@;
    let d = direction_of(edges[k]);
    ||| policy_absent(policies, id, d)
    ||| policy_current(policies, edges[k])
    ||| exists|i: int| #[trigger]
        latest_policy_at(policies, id, d, i) && dated_from(edges, id, d, policies[i].update_time)
}

/// A pass over the listing leaves each of its edges as the latest policy of
/// its channel and direction.
pub open spec fn listing_settles(policies: Seq<PolicySnapshot>, edges: Seq<Channel>) -> bool {
    &&& listing_consistent(edges)
    &&& forall|k: int| 0 <= k < edges.len() ==> #[trigger] supersedes(policies, edges, k)
}

/// Every edge of the listing announces the latest terms on record.
pub open spec fn all_current(policies: Seq<PolicySnapshot>, edges: Seq<Channel>) -> bool {
    forall|k: int| 0 <= k < edges.len() ==> policy_current(policies, #[trigger] edges[k])
}

/// A pass over a listing whose edges all announce the latest terms on record
/// adds no snapshot.
pub proof fn lemma_current_listing_adds_nothing(policies: Seq<PolicySnapshot>, edges: Seq<Channel>)
    requires
        all_current(policies, edges),
    ensures
        policies_after(policies, edges) == policies,
    decreases edges.len(),
{
    if edges.len() > 0 {
        let init = edges.drop_last();
        assert forall|k: int| 0 <= k < init.len() implies policy_current(
            policies,
            #[trigger] init[k],
        ) by {
            assert(init[k] == edges[k]);
        }
        lemma_current_listing_adds_nothing(policies, init);
        assert(policy_current(policies, edges[edges.len() - 1]));
    }
}

/// A pass only adds to the log: what was there stays where it was.
pub proof fn lemma_pass_extends(policies: Seq<PolicySnapshot>, edges: Seq<Channel>)
    ensures
        policies.is_prefix_of(policies_after(policies, edges)),
    decreases edges.len(),
{
    if edges.len() > 0 {
        lemma_pass_extends(policies, edges.drop_last());
    }
}

/// A channel and direction that the log knows has a latest snapshot.
pub proof fn lemma_some_latest(policies: Seq<PolicySnapshot>, id: Seq<char>, d: Direction)
    requires
        !policy_absent(policies, id, d),
    ensures
        exists|i: int| latest_policy_at(policies, id, d, i),
    decreases policies.len(),
{
    let init = policies.drop_last();
    let end = policies.len() - 1;
    if policy_absent(init, id, d) {
        assert(policy_of(policies[end], id, d)) by {
            let j = choose|j: int| 0 <= j < policies.len() && policy_of(policies[j], id, d);
            if j < end {
                assert(policy_of(init[j], id, d));
            }
        }
        lemma_logged_is_latest(init, policies[end], id, d);
        assert(init.push(policies[end]) =~= policies);
    } else {
        lemma_some_latest(init, id, d);
        let i = choose|i: int| latest_policy_at(init, id, d, i);
        assert(init.push(policies[end]) =~= policies);
        if policy_of(policies[end], id, d) && init[i].update_time <= policies[end].update_time {
            lemma_logged_is_latest(init, policies[end], id, d);
        } else {
            lemma_logged_leaves_latest(init, policies[end], id, d, i);
        }
    }
}

/// A snapshot of another channel or direction, or one dated before the
/// latest, leaves the latest as it is.
proof fn lemma_logged_leaves_latest(
    log: Seq<PolicySnapshot>,
    s: PolicySnapshot,
    id: Seq<char>,
    d: Direction,
    i: int,
)
    requires
        latest_policy_at(log, id, d, i),
        !policy_of(s, id, d) || s.update_time < log[i].update_time,
    ensures
        latest_policy_at(log.push(s), id, d, i),
{
    let next = log.push(s);
    assert forall|j: int| 0 <= j < next.len() && policy_of(#[trigger] next[j], id, d) implies {
        ||| next[j].update_time < next[i].update_time
        ||| (next[j].update_time == next[i].update_time && j <= i)
    } by {
        if j < log.len() {
            assert(policy_of(log[j], id, d));
        }
    }
}

/// A snapshot dated no earlier than the latest of its channel and direction
/// becomes the latest.
proof fn lemma_logged_is_latest(log: Seq<PolicySnapshot>, s: PolicySnapshot, id: Seq<char>, d: Direction)
    requires
        policy_of(s, id, d),
        policy_absent(log, id, d) || exists|i: int| #[trigger]
            latest_policy_at(log, id, d, i) && log[i].update_time <= s.update_time,
    ensures
        latest_policy_at(log.push(s), id, d, log.len() as int),
{
    let next = log.push(s);
    let at = log.len() as int;
    assert forall|j: int| 0 <= j < next.len() && policy_of(#[trigger] next[j], id, d) implies {
        ||| next[j].update_time < next[at].update_time
        ||| (next[j].update_time == next[at].update_time && j <= at)
    } by {
        if j < at {
            assert(policy_of(log[j], id, d));
        }
    }
}

/// Snapshot `i` was in the log before the pass and is still the latest of
/// channel `id` and direction `d` after the first `n` edges: each of those
/// edges of that channel and direction announced its terms or was dated
/// before it.
pub open spec fn outlasts(
    old_len: int,
    log: Seq<PolicySnapshot>,
    edges: Seq<Channel>,
    n: int,
    id: Seq<char>,
    d: Direction,
    i: int,
) -> bool {
    &&& latest_policy_at(log, id, d, i)
    &&& i < old_len
    &&& forall|j: int|
        0 <= j < n && edge_of(#[trigger] edges[j], id, d) ==> {
            ||| same_terms(log[i], edges[j])
            ||| edges[j].last_update < log[i].update_time
        }
}

/// After the first `n` edges, what the log held before the pass still
/// decides on channel `id` and direction `d`: nothing is logged and none of
/// those edges was of that channel and direction, or an old snapshot
/// outlasts them.
pub open spec fn still_old(
    old_len: int,
    log: Seq<PolicySnapshot>,
    edges: Seq<Channel>,
    n: int,
    id: Seq<char>,
    d: Direction,
) -> bool {
    ||| (policy_absent(log, id, d) && forall|j: int|
        0 <= j < n ==> !edge_of(#[trigger] edges[j], id, d))
    ||| exists|i: int| outlasts(old_len, log, edges, n, id, d, i)
}

/// Snapshot `i` is the latest of channel `id` and direction `d` and holds
/// the terms that every edge of that channel and direction announces.
pub open spec fn holds_terms(
    log: Seq<PolicySnapshot>,
    edges: Seq<Channel>,
    id: Seq<char>,
    d: Direction,
    i: int,
) -> bool {
    &&& latest_policy_at(log, id, d, i)
    &&& forall|j: int|
        0 <= j < edges.len() && edge_of(#[trigger] edges[j], id, d) ==> same_terms(log[i], edges[j])
}

/// The log has caught up with the listing on channel `id` and direction `d`.
pub open spec fn caught_up(
    log: Seq<PolicySnapshot>,
    edges: Seq<Channel>,
    id: Seq<char>,
    d: Direction,
) -> bool {
    exists|i: int| holds_terms(log, edges, id, d, i)
}

/// The snapshot of an edge of a consistent listing holds the terms of every
/// edge of its channel and direction.
proof fn lemma_snapshot_holds_terms(
    log: Seq<PolicySnapshot>,
    edges: Seq<Channel>,
    n: int,
    id: Seq<char>,
    d: Direction,
)
    requires
        listing_consistent(edges),
        0 <= n < edges.len(),
        edge_of(edges[n], id, d),
        latest_policy_at(log.push(snapshot_of(edges[n])), id, d, log.len() as int),
    ensures
        caught_up(log.push(snapshot_of(edges[n])), edges, id, d),
{
    let next = log.push(snapshot_of(edges[n]));
    assert forall|j: int|
        0 <= j < edges.len() && edge_of(#[trigger] edges[j], id, d) implies same_terms(
        next[log.len() as int],
        edges[j],
    ) by {
        assert(terms_agree(edges[j], edges[n]));
    }
    assert(holds_terms(next, edges, id, d, log.len() as int));
}

/// One more edge of a consistent listing leaves a channel and direction
/// decided by the old log or caught up with the listing.
proof fn lemma_policy_step(
    old_len: int,
    log: Seq<PolicySnapshot>,
    edges: Seq<Channel>,
    n: int,
    id: Seq<char>,
    d: Direction,
)
    requires
        listing_consistent(edges),
        0 <= n < edges.len(),
        0 <= old_len <= log.len(),
        still_old(old_len, log, edges, n, id, d) || caught_up(log, edges, id, d),
    ensures
        still_old(old_len, with_policy(log, edges[n]), edges, n + 1, id, d) || caught_up(
            with_policy(log, edges[n]),
            edges,
            id,
            d,
        ),
{
    let e = edges[n];
    let s = snapshot_of(e);
    let next = with_policy(log, e);
    if caught_up(log, edges, id, d) {
        let i = choose|i: int| holds_terms(log, edges, id, d, i);
        if !policy_current(log, e) {
            if edge_of(e, id, d) {
                assert(same_terms(log[i], e));
            }
            lemma_logged_leaves_latest(log, s, id, d, i);
            assert(holds_terms(next, edges, id, d, i));
        }
    } else if policy_absent(log, id, d) {
        if policy_current(log, e) {
            let c = choose|c: int| #[trigger]
                latest_policy_at(log, e.short_channel_id@, direction_of(e), c) && same_terms(
                    log[c],
                    e,
                );
            assert(policy_of(log[c], e.short_channel_id@, direction_of(e)));
        } else if edge_of(e, id, d) {
            lemma_logged_is_latest(log, s, id, d);
            lemma_snapshot_holds_terms(log, edges, n, id, d);
        } else {
            assert forall|j: int| 0 <= j < next.len() implies !policy_of(
                #[trigger] next[j],
                id,
                d,
            ) by {
                if j < log.len() {
                    assert(!policy_of(log[j], id, d));
                }
            }
        }
    } else {
        let i = choose|i: int| outlasts(old_len, log, edges, n, id, d, i);
        if policy_current(log, e) {
            if edge_of(e, id, d) {
                let c = choose|c: int| #[trigger]
                    latest_policy_at(log, id, d, c) && same_terms(log[c], e);
                lemma_latest_policy_unique(log, id, d, i, c);
            }
            assert(outlasts(old_len, next, edges, n + 1, id, d, i));
        } else if edge_of(e, id, d) && log[i].update_time <= e.last_update {
            lemma_logged_is_latest(log, s, id, d);
            lemma_snapshot_holds_terms(log, edges, n, id, d);
        } else {
            lemma_logged_leaves_latest(log, s, id, d, i);
            assert(outlasts(old_len, next, edges, n + 1, id, d, i));
        }
    }
}

/// After any number of edges of a consistent listing, a channel and
/// direction is decided by the old log or caught up with the listing.
proof fn lemma_policy_state(
    policies: Seq<PolicySnapshot>,
    edges: Seq<Channel>,
    n: int,
    id: Seq<char>,
    d: Direction,
)
    requires
        listing_consistent(edges),
        0 <= n <= edges.len(),
    ensures
        still_old(
            policies.len() as int,
            policies_after(policies, edges.take(n)),
            edges,
            n,
            id,
            d,
        ) || caught_up(policies_after(policies, edges.take(n)), edges, id, d),
    decreases n,
{
    if n == 0 {
        assert(edges.take(0) =~= Seq::<Channel>::empty());
        if !policy_absent(policies, id, d) {
            lemma_some_latest(policies, id, d);
            let i = choose|i: int| latest_policy_at(policies, id, d, i);
            assert(outlasts(policies.len() as int, policies, edges, 0, id, d, i));
        }
    } else {
        lemma_policy_state(policies, edges, n - 1, id, d);
        assert(edges.take(n).drop_last() =~= edges.take(n - 1));
        assert(edges.take(n).last() == edges[n - 1]);
        lemma_pass_extends(policies, edges.take(n - 1));
        lemma_policy_step(
            policies.len() as int,
            policies_after(policies, edges.take(n - 1)),
            edges,
            n - 1,
            id,
            d,
        );
    }
}

/// A snapshot that is the latest of its channel and direction in a log was
/// the latest already when the log ended with it or before.
proof fn lemma_latest_in_prefix(
    shorter: Seq<PolicySnapshot>,
    log: Seq<PolicySnapshot>,
    id: Seq<char>,
    d: Direction,
    i: int,
)
    requires
        shorter.is_prefix_of(log),
        latest_policy_at(log, id, d, i),
        i < shorter.len(),
    ensures
        latest_policy_at(shorter, id, d, i),
{
    assert forall|j: int|
        0 <= j < shorter.len() && policy_of(#[trigger] shorter[j], id, d) implies {
        ||| shorter[j].update_time < shorter[i].update_time
        ||| (shorter[j].update_time == shorter[i].update_time && j <= i)
    } by {
        assert(policy_of(log[j], id, d));
    }
}

/// A pass over a listing that settles leaves every edge of it announcing
/// the latest terms on record.
pub proof fn lemma_pass_settles(policies: Seq<PolicySnapshot>, edges: Seq<Channel>)
    requires
        listing_settles(policies, edges),
    ensures
        all_current(policies_after(policies, edges), edges),
{
    let log = policies_after(policies, edges);
    let n = edges.len() as int;
    assert(edges.take(n) =~= edges);
    lemma_pass_extends(policies, edges);
    assert forall|k: int| 0 <= k < edges.len() implies policy_current(log, #[trigger] edges[k]) by {
        let e = edges[k];
        let id = e.short_channel_id@;
        let d = direction_of(e);
        lemma_policy_state(policies, edges, n, id, d);
        assert(edge_of(e, id, d));
        if caught_up(log, edges, id, d) {
            let i = choose|i: int| holds_terms(log, edges, id, d, i);
            assert(same_terms(log[i], e));
        } else {
            let i = choose|i: int| outlasts(policies.len() as int, log, edges, n, id, d, i);
            lemma_latest_in_prefix(policies, log, id, d, i);
            assert(policy_of(policies[i], id, d));
            assert(supersedes(policies, edges, k));
            if policy_current(policies, e) {
                let c = choose|c: int| #[trigger]
                    latest_policy_at(policies, id, d, c) && same_terms(policies[c], e);
                lemma_latest_policy_unique(policies, id, d, i, c);
            } else {
                let c = choose|c: int| #[trigger]
                    latest_policy_at(policies, id, d, c) && dated_from(
                        edges,
                        id,
                        d,
                        policies[c].update_time,
                    );
                lemma_latest_policy_unique(policies, id, d, i, c);
                let j = choose|j: int|
                    0 <= j < edges.len() && edge_of(#[trigger] edges[j], id, d)
                        && policies[i].update_time <= edges[j].last_update;
                assert(same_terms(log[i], edges[j]));
                assert(terms_agree(edges[j], e));
            }
            assert(same_terms(log[i], e));
        }
    }
}

/// Whether the edges of a listing announce the latest terms on record
/// depends on what the listing says only.
proof fn lemma_current_by_content(log: Seq<PolicySnapshot>, edges: Seq<Channel>, again: Seq<Channel>)
    requires
        same_listing(edges, again),
    ensures
        all_current(log, edges) == all_current(log, again),
{
    assert forall|k: int| 0 <= k < edges.len() implies policy_current(log, #[trigger] edges[k])
        == policy_current(log, again[k]) by {
        assert(same_edge(edges[k], again[k]));
        assert(direction_of(edges[k]) == direction_of(again[k]));
    }
    if all_current(log, edges) {
        assert forall|k: int| 0 <= k < again.len() implies policy_current(
            log,
            #[trigger] again[k],
        ) by {
            assert(policy_current(log, edges[k]));
        }
    }
    if all_current(log, again) {
        assert forall|k: int| 0 <= k < edges.len() implies policy_current(
            log,
            #[trigger] edges[k],
        ) by {
            assert(policy_current(log, again[k]));
        }
    }
}

/// A second pass, over a channel listing that says what the first said,
/// adds no policy snapshot.
///
/// This holds of a listing that settles: one that does not contradict itself
/// and in which every policy that the log would outlast is already the one
/// announced. Where two edges of one channel and direction announce
/// different terms, or the log's latest snapshot carries other terms and a
/// later date than every edge, each pass adds a snapshot.
pub proof fn lemma_rerun_adds_no_policy(
    policies: Seq<PolicySnapshot>,
    edges: Seq<Channel>,
    again: Seq<Channel>,
)
    requires
        same_listing(edges, again),
        listing_settles(policies, edges),
    ensures
        policies_after(policies_after(policies, edges), again) == policies_after(policies, edges),
{
    lemma_pass_settles(policies, edges);
    lemma_current_by_content(policies_after(policies, edges), edges, again);
    lemma_current_listing_adds_nothing(policies_after(policies, edges), again);
}

/// What a pass adds to the log are snapshots of edges of the listing.
proof fn lemma_added_are_snapshots(policies: Seq<PolicySnapshot>, edges: Seq<Channel>)
    ensures
        forall|i: int|
            policies.len() <= i < policies_after(policies, edges).len() ==> exists|j: int|
                0 <= j < edges.len() && #[trigger] policies_after(policies, edges)[i]
                    == snapshot_of(#[trigger] edges[j]),
    decreases edges.len(),
{
    if edges.len() > 0 {
        let init = edges.drop_last();
        lemma_added_are_snapshots(policies, init);
        lemma_pass_extends(policies, init);
        let before = policies_after(policies, init);
        let after = policies_after(policies, edges);
        assert forall|i: int| policies.len() <= i < after.len() implies exists|j: int|
            0 <= j < edges.len() && #[trigger] after[i] == snapshot_of(#[trigger] edges[j]) by {
            if i < before.len() {
                let j = choose|j: int|
                    0 <= j < init.len() && #[trigger] before[i] == snapshot_of(#[trigger] init[j]);
                assert(init[j] == edges[j]);
                assert(after[i] == snapshot_of(edges[j]));
            } else {
                assert(after[i] == snapshot_of(edges[edges.len() - 1]));
            }
        }
    }
}

/// A pass over a listing of which some edge does not announce the latest
/// terms on record adds a snapshot.
pub proof fn lemma_stale_listing_adds(policies: Seq<PolicySnapshot>, edges: Seq<Channel>)
    requires
        !all_current(policies, edges),
    ensures
        policies_after(policies, edges).len() > policies.len(),
    decreases edges.len(),
{
    let init = edges.drop_last();
    let end = edges.len() - 1;
    assert(forall|k: int| 0 <= k < init.len() ==> init[k] == edges[k]);
    if all_current(policies, init) {
        lemma_current_listing_adds_nothing(policies, init);
        assert(!policy_current(policies, edges[end]));
    } else {
        lemma_stale_listing_adds(policies, init);
    }
}

/// A pass over a listing that does not settle leaves some edge of it that
/// does not announce the latest terms on record.
proof fn lemma_pass_leaves_unsettled(policies: Seq<PolicySnapshot>, edges: Seq<Channel>)
    requires
        !listing_settles(policies, edges),
    ensures
        !all_current(policies_after(policies, edges), edges),
{
    let log = policies_after(policies, edges);
    lemma_pass_extends(policies, edges);
    if !listing_consistent(edges) {
        let (j, k) = choose|j: int, k: int|
            0 <= j < edges.len() && 0 <= k < edges.len() && edge_of(
                #[trigger] edges[j],
                edges[k].short_channel_id@,
                direction_of(#[trigger] edges[k]),
            ) && !terms_agree(edges[j], edges[k]);
        let id = edges[k].short_channel_id@;
        let d = direction_of(edges[k]);
        if policy_current(log, edges[j]) && policy_current(log, edges[k]) {
            let a = choose|a: int| #[trigger]
                latest_policy_at(log, id, d, a) && same_terms(log[a], edges[j]);
            let b = choose|b: int| #[trigger]
                latest_policy_at(log, id, d, b) && same_terms(log[b], edges[k]);
            lemma_latest_policy_unique(log, id, d, a, b);
        }
    } else {
        let k = choose|k: int| 0 <= k < edges.len() && !#[trigger] supersedes(policies, edges, k);
        let e = edges[k];
        let id = e.short_channel_id@;
        let d = direction_of(e);
        lemma_some_latest(policies, id, d);
        let old = choose|i: int| latest_policy_at(policies, id, d, i);
        assert(latest_policy_at(policies, id, d, old));
        assert(!same_terms(policies[old], e));
        assert(!dated_from(edges, id, d, policies[old].update_time));
        assert(policy_of(log[old], id, d));
        if policy_current(log, e) {
            let c = choose|c: int| #[trigger]
                latest_policy_at(log, id, d, c) && same_terms(log[c], e);
            if c < policies.len() {
                lemma_latest_in_prefix(policies, log, id, d, c);
                lemma_latest_policy_unique(policies, id, d, old, c);
            } else {
                lemma_added_are_snapshots(policies, edges);
                let j = choose|j: int|
                    0 <= j < edges.len() && #[trigger] log[c] == snapshot_of(#[trigger] edges[j]);
                assert(edge_of(edges[j], id, d));
                assert(edges[j].last_update < policies[old].update_time);
            }
        }
    }
}

/// A second pass, over a channel listing that says what the first said,
/// adds a policy snapshot if the listing does not settle.
pub proof fn lemma_rerun_adds_policy(
    policies: Seq<PolicySnapshot>,
    edges: Seq<Channel>,
    again: Seq<Channel>,
)
    requires
        same_listing(edges, again),
        !listing_settles(policies, edges),
    ensures
        policies_after(policies_after(policies, edges), again).len() > policies_after(
            policies,
            edges,
        ).len(),
{
    lemma_pass_leaves_unsettled(policies, edges);
    lemma_current_by_content(policies_after(policies, edges), edges, again);
    lemma_stale_listing_adds(policies_after(policies, edges), again);
}

/// The node listing does not contradict itself: a node is listed under one
/// alias only.
pub open spec fn nodes_consistent(nodes: Seq<Node>) -> bool {
    forall|j: int, k: int|
        0 <= j < nodes.len() && 0 <= k < nodes.len() && (#[trigger] nodes[j]).nodeid@
            == (#[trigger] nodes[k]).nodeid@ ==> nodes[j].alias@ == nodes[k].alias@
}

/// No alias on record was seen after `now`.
pub open spec fn none_seen_after(aliases: Seq<NodeAliasRecord>, now: i64) -> bool {
    forall|i: int| 0 <= i < aliases.len() ==> (#[trigger] aliases[i]).last_seen <= now
}

/// Each of the first `m` nodes of the listing announces its latest alias on
/// record.
pub open spec fn aliases_current(aliases: Seq<NodeAliasRecord>, nodes: Seq<Node>, m: int) -> bool {
    forall|j: int| 0 <= j < m ==> alias_current(aliases, #[trigger] nodes[j])
}

/// The two logs hold the same records but for when each was last seen.
pub open spec fn same_but_last_seen(a: Seq<NodeAliasRecord>, b: Seq<NodeAliasRecord>) -> bool {
    &&& a.len() == b.len()
    &&& forall|i: int|
        0 <= i < a.len() ==> #[trigger] b[i] == (NodeAliasRecord {
            last_seen: b[i].last_seen,
            ..a[i]
        })
}

/// Two nodes are listed alike.
pub open spec fn same_node(a: Node, b: Node) -> bool {
    a.nodeid@ == b.nodeid@ && a.alias@ == b.alias@
}

/// The node listing fetched again says what it said before.
pub open spec fn same_nodes(nodes: Seq<Node>, again: Seq<Node>) -> bool {
    &&& again.len() == nodes.len()
    &&& forall|k: int| 0 <= k < nodes.len() ==> same_node(#[trigger] nodes[k], again[k])
}

/// Whether a listing contradicts itself, and whether its nodes announce
/// their latest aliases on record, depends on what the listing says only.
proof fn lemma_nodes_by_content(aliases: Seq<NodeAliasRecord>, nodes: Seq<Node>, again: Seq<Node>)
    requires
        same_nodes(nodes, again),
    ensures
        nodes_consistent(nodes) == nodes_consistent(again),
        aliases_current(aliases, nodes, nodes.len() as int) == aliases_current(
            aliases,
            again,
            again.len() as int,
        ),
{
    assert forall|k: int| 0 <= k < nodes.len() implies alias_current(aliases, #[trigger] nodes[k])
        == alias_current(aliases, again[k]) by {
        assert(same_node(nodes[k], again[k]));
    }
    if nodes_consistent(nodes) {
        assert forall|j: int, k: int|
            0 <= j < again.len() && 0 <= k < again.len() && (#[trigger] again[j]).nodeid@
                == (#[trigger] again[k]).nodeid@ implies again[j].alias@ == again[k].alias@ by {
            assert(same_node(nodes[j], again[j]));
            assert(same_node(nodes[k], again[k]));
        }
    }
    if nodes_consistent(again) {
        assert forall|j: int, k: int|
            0 <= j < nodes.len() && 0 <= k < nodes.len() && (#[trigger] nodes[j]).nodeid@
                == (#[trigger] nodes[k]).nodeid@ implies nodes[j].alias@ == nodes[k].alias@ by {
            assert(same_node(nodes[j], again[j]));
            assert(same_node(nodes[k], again[k]));
        }
    }
    if aliases_current(aliases, nodes, nodes.len() as int) {
        assert forall|k: int| 0 <= k < again.len() implies alias_current(
            aliases,
            #[trigger] again[k],
        ) by {
            assert(alias_current(aliases, nodes[k]));
        }
    }
    if aliases_current(aliases, again, again.len() as int) {
        assert forall|k: int| 0 <= k < nodes.len() implies alias_current(
            aliases,
            #[trigger] nodes[k],
        ) by {
            assert(alias_current(aliases, again[k]));
        }
    }
}

/// The sighting of one more node, at a time that no record is ahead of,
/// leaves that node and those that were current before it current.
proof fn lemma_alias_step(
    aliases: Seq<NodeAliasRecord>,
    nodes: Seq<Node>,
    n: int,
    m: int,
    now: i64,
)
    requires
        nodes_consistent(nodes),
        0 <= n < nodes.len(),
        0 <= m <= nodes.len(),
        none_seen_after(aliases, now),
        aliases_current(aliases, nodes, m),
    ensures
        none_seen_after(with_alias(aliases, nodes[n], now), now),
        aliases_current(with_alias(aliases, nodes[n], now), nodes, m),
        alias_current(with_alias(aliases, nodes[n], now), nodes[n]),
        alias_current(aliases, nodes[n]) ==> same_but_last_seen(
            aliases,
            with_alias(aliases, nodes[n], now),
        ),
{
    let e = nodes[n];
    let next = with_alias(aliases, e, now);
    if alias_current(aliases, e) {
        let w = choose|w: int| #[trigger]
            latest_alias_at(aliases, e.nodeid@, w) && aliases[w].alias@ == e.alias@;
        let i = choose|i: int| latest_alias_at(aliases, e.nodeid@, i);
        lemma_latest_alias_unique(aliases, e.nodeid@, i, w);
        assert(latest_alias_at(next, e.nodeid@, i));
        assert forall|j: int| 0 <= j < m implies alias_current(next, #[trigger] nodes[j]) by {
            let c = choose|c: int| #[trigger]
                latest_alias_at(aliases, nodes[j].nodeid@, c) && aliases[c].alias@
                    == nodes[j].alias@;
            if nodes[j].nodeid@ == e.nodeid@ {
                lemma_latest_alias_unique(aliases, e.nodeid@, i, c);
            } else {
                assert(latest_alias_at(next, nodes[j].nodeid@, c));
            }
        }
    } else {
        let at = aliases.len() as int;
        assert(forall|j: int| 0 <= j < at ==> next[j] == aliases[j]);
        assert(latest_alias_at(next, e.nodeid@, at));
        assert forall|j: int| 0 <= j < m implies alias_current(next, #[trigger] nodes[j]) by {
            let c = choose|c: int| #[trigger]
                latest_alias_at(aliases, nodes[j].nodeid@, c) && aliases[c].alias@
                    == nodes[j].alias@;
            if nodes[j].nodeid@ == e.nodeid@ {
                assert(false);
            } else {
                assert(latest_alias_at(next, nodes[j].nodeid@, c));
            }
        }
    }
}

/// A pass at a time that no record is ahead of leaves every node of a
/// consistent listing current.
proof fn lemma_alias_pass(aliases: Seq<NodeAliasRecord>, nodes: Seq<Node>, n: int, now: i64)
    requires
        nodes_consistent(nodes),
        none_seen_after(aliases, now),
        0 <= n <= nodes.len(),
    ensures
        none_seen_after(aliases_after(aliases, nodes.take(n), now), now),
        aliases_current(aliases_after(aliases, nodes.take(n), now), nodes, n),
    decreases n,
{
    if n == 0 {
        assert(nodes.take(0) =~= Seq::<Node>::empty());
    } else {
        lemma_alias_pass(aliases, nodes, n - 1, now);
        assert(nodes.take(n).drop_last() =~= nodes.take(n - 1));
        assert(nodes.take(n).last() == nodes[n - 1]);
        lemma_alias_step(aliases_after(aliases, nodes.take(n - 1), now), nodes, n - 1, n - 1, now);
    }
}

/// A pass over a listing whose nodes are all current refreshes times and
/// nothing else.
proof fn lemma_current_alias_pass(
    aliases: Seq<NodeAliasRecord>,
    nodes: Seq<Node>,
    n: int,
    now: i64,
)
    requires
        nodes_consistent(nodes),
        none_seen_after(aliases, now),
        aliases_current(aliases, nodes, nodes.len() as int),
        0 <= n <= nodes.len(),
    ensures
        none_seen_after(aliases_after(aliases, nodes.take(n), now), now),
        aliases_current(aliases_after(aliases, nodes.take(n), now), nodes, nodes.len() as int),
        same_but_last_seen(aliases, aliases_after(aliases, nodes.take(n), now)),
    decreases n,
{
    if n == 0 {
        assert(nodes.take(0) =~= Seq::<Node>::empty());
    } else {
        lemma_current_alias_pass(aliases, nodes, n - 1, now);
        assert(nodes.take(n).drop_last() =~= nodes.take(n - 1));
        assert(nodes.take(n).last() == nodes[n - 1]);
        lemma_alias_step(
            aliases_after(aliases, nodes.take(n - 1), now),
            nodes,
            n - 1,
            nodes.len() as int,
            now,
        );
    }
}

/// A second pass, over a node listing that says what the first said, adds
/// no alias record: it only refreshes `last_seen`.
///
/// This holds of a listing that gives each node one alias, taken at times
/// that do not run backwards: the first pass no earlier than any record was
/// seen, the second no earlier than the first.
pub proof fn lemma_rerun_adds_no_alias(
    aliases: Seq<NodeAliasRecord>,
    nodes: Seq<Node>,
    again: Seq<Node>,
    first: i64,
    second: i64,
)
    requires
        same_nodes(nodes, again),
        nodes_consistent(nodes),
        none_seen_after(aliases, first),
        first <= second,
    ensures
        same_but_last_seen(
            aliases_after(aliases, nodes, first),
            aliases_after(aliases_after(aliases, nodes, first), again, second),
        ),
{
    let n = nodes.len() as int;
    assert(nodes.take(n) =~= nodes);
    assert(again.take(n) =~= again);
    lemma_alias_pass(aliases, nodes, n, first);
    let once = aliases_after(aliases, nodes, first);
    lemma_nodes_by_content(once, nodes, again);
    lemma_current_alias_pass(once, again, n, second);
}

/// A node that the log knows has a latest alias.
pub proof fn lemma_some_latest_alias(aliases: Seq<NodeAliasRecord>, pubkey: Seq<char>)
    requires
        !alias_absent(aliases, pubkey),
    ensures
        exists|i: int| latest_alias_at(aliases, pubkey, i),
    decreases aliases.len(),
{
    let init = aliases.drop_last();
    let end = aliases.len() - 1;
    if alias_absent(init, pubkey) {
        assert(aliases[end].pubkey@ == pubkey) by {
            let j = choose|j: int| 0 <= j < aliases.len() && aliases[j].pubkey@ == pubkey;
            if j < end {
                assert(init[j].pubkey@ == pubkey);
            }
        }
        assert(latest_alias_at(aliases, pubkey, end)) by {
            assert forall|j: int|
                0 <= j < aliases.len() && (#[trigger] aliases[j]).pubkey@ == pubkey implies j
                == end by {
                if j < end {
                    assert(init[j].pubkey@ == pubkey);
                }
            }
        }
    } else {
        lemma_some_latest_alias(init, pubkey);
        let i = choose|i: int| latest_alias_at(init, pubkey, i);
        let pick = if aliases[end].pubkey@ == pubkey && init[i].last_seen
            <= aliases[end].last_seen {
            end
        } else {
            i
        };
        assert(latest_alias_at(aliases, pubkey, pick)) by {
            assert forall|j: int|
                0 <= j < aliases.len() && (#[trigger] aliases[j]).pubkey@ == pubkey implies {
                ||| aliases[j].last_seen < aliases[pick].last_seen
                ||| (aliases[j].last_seen == aliases[pick].last_seen && j <= pick)
            } by {
                if j < end {
                    assert(init[j].pubkey@ == pubkey);
                }
            }
        }
    }
}

/// The log after part of a listing is no longer than after all of it, and
/// no shorter than before.
proof fn lemma_alias_log_grows(
    aliases: Seq<NodeAliasRecord>,
    nodes: Seq<Node>,
    n: int,
    m: int,
    now: i64,
)
    requires
        0 <= n <= m <= nodes.len(),
    ensures
        aliases.len() <= aliases_after(aliases, nodes.take(n), now).len() <= aliases_after(
            aliases,
            nodes.take(m),
            now,
        ).len(),
    decreases m,
{
    if m == 0 {
        assert(nodes.take(0) =~= Seq::<Node>::empty());
    } else {
        assert(nodes.take(m).drop_last() =~= nodes.take(m - 1));
        let before = aliases_after(aliases, nodes.take(m - 1), now);
        let e = nodes.take(m).last();
        if alias_current(before, e) {
            let w = choose|w: int| #[trigger]
                latest_alias_at(before, e.nodeid@, w) && before[w].alias@ == e.alias@;
            let i = choose|i: int| latest_alias_at(before, e.nodeid@, i);
        }
        if n < m {
            lemma_alias_log_grows(aliases, nodes, n, m - 1, now);
        } else {
            lemma_alias_log_grows(aliases, nodes, m - 1, m - 1, now);
        }
    }
}

/// Refreshing the latest alias of a node, at a time that no record is ahead
/// of, leaves every node's latest alias where it is in the log.
proof fn lemma_refresh_keeps_latest(
    aliases: Seq<NodeAliasRecord>,
    node: Node,
    now: i64,
    pubkey: Seq<char>,
    i: int,
)
    requires
        none_seen_after(aliases, now),
        alias_current(aliases, node),
        latest_alias_at(aliases, pubkey, i),
    ensures
        latest_alias_at(with_alias(aliases, node, now), pubkey, i),
        none_seen_after(with_alias(aliases, node, now), now),
        same_but_last_seen(aliases, with_alias(aliases, node, now)),
{
    let w = choose|w: int| #[trigger]
        latest_alias_at(aliases, node.nodeid@, w) && aliases[w].alias@ == node.alias@;
    let c = choose|c: int| latest_alias_at(aliases, node.nodeid@, c);
    lemma_latest_alias_unique(aliases, node.nodeid@, c, w);
    if pubkey == node.nodeid@ {
        lemma_latest_alias_unique(aliases, pubkey, c, i);
    }
}

/// A pass that adds no record, at a time that no record is ahead of, had
/// every node of the listing announce the alias that was its latest before
/// the pass.
proof fn lemma_silent_pass(aliases: Seq<NodeAliasRecord>, nodes: Seq<Node>, n: int, now: i64)
    requires
        none_seen_after(aliases, now),
        0 <= n <= nodes.len(),
        aliases_after(aliases, nodes.take(n), now).len() == aliases.len(),
    ensures
        none_seen_after(aliases_after(aliases, nodes.take(n), now), now),
        same_but_last_seen(aliases, aliases_after(aliases, nodes.take(n), now)),
        forall|pubkey: Seq<char>, i: int| #[trigger]
            latest_alias_at(aliases, pubkey, i) ==> latest_alias_at(
                aliases_after(aliases, nodes.take(n), now),
                pubkey,
                i,
            ),
        aliases_current(aliases, nodes, n),
    decreases n,
{
    if n == 0 {
        assert(nodes.take(0) =~= Seq::<Node>::empty());
    } else {
        assert(nodes.take(n).drop_last() =~= nodes.take(n - 1));
        assert(nodes.take(n).last() == nodes[n - 1]);
        lemma_alias_log_grows(aliases, nodes, n - 1, n, now);
        lemma_silent_pass(aliases, nodes, n - 1, now);
        let before = aliases_after(aliases, nodes.take(n - 1), now);
        let after = aliases_after(aliases, nodes.take(n), now);
        let e = nodes[n - 1];
        assert(alias_current(before, e));
        let c = choose|c: int| #[trigger]
            latest_alias_at(before, e.nodeid@, c) && before[c].alias@ == e.alias@;
        assert(aliases[c].pubkey@ == e.nodeid@);
        lemma_some_latest_alias(aliases, e.nodeid@);
        let i = choose|i: int| latest_alias_at(aliases, e.nodeid@, i);
        assert(latest_alias_at(before, e.nodeid@, i));
        lemma_latest_alias_unique(before, e.nodeid@, i, c);
        assert(aliases[i].alias@ == e.alias@);
        assert forall|pubkey: Seq<char>, j: int| #[trigger]
            latest_alias_at(aliases, pubkey, j) implies latest_alias_at(after, pubkey, j) by {
            lemma_refresh_keeps_latest(before, e, now, pubkey, j);
        }
        lemma_refresh_keeps_latest(before, e, now, e.nodeid@, i);
    }
}

/// No pass at `now` leaves a record seen after `now`, if there was none.
proof fn lemma_seen_by(aliases: Seq<NodeAliasRecord>, nodes: Seq<Node>, n: int, now: i64)
    requires
        none_seen_after(aliases, now),
        0 <= n <= nodes.len(),
    ensures
        none_seen_after(aliases_after(aliases, nodes.take(n), now), now),
    decreases n,
{
    if n == 0 {
        assert(nodes.take(0) =~= Seq::<Node>::empty());
    } else {
        lemma_seen_by(aliases, nodes, n - 1, now);
        assert(nodes.take(n).drop_last() =~= nodes.take(n - 1));
        let before = aliases_after(aliases, nodes.take(n - 1), now);
        let e = nodes.take(n).last();
        if alias_current(before, e) {
            let w = choose|w: int| #[trigger]
                latest_alias_at(before, e.nodeid@, w) && before[w].alias@ == e.alias@;
            let i = choose|i: int| latest_alias_at(before, e.nodeid@, i);
        }
    }
}

/// A second pass, over a node listing that says what the first said, adds
/// an alias record if the listing gives some node two aliases, however the
/// times run forward.
pub proof fn lemma_rerun_adds_alias(
    aliases: Seq<NodeAliasRecord>,
    nodes: Seq<Node>,
    again: Seq<Node>,
    first: i64,
    second: i64,
)
    requires
        same_nodes(nodes, again),
        !nodes_consistent(nodes),
        none_seen_after(aliases, first),
        first <= second,
    ensures
        aliases_after(aliases_after(aliases, nodes, first), again, second).len() > aliases_after(
            aliases,
            nodes,
            first,
        ).len(),
{
    let n = nodes.len() as int;
    assert(nodes.take(n) =~= nodes);
    assert(again.take(n) =~= again);
    let once = aliases_after(aliases, nodes, first);
    lemma_seen_by(aliases, nodes, n, first);
    lemma_alias_log_grows(once, again, n, n, second);
    lemma_nodes_by_content(once, nodes, again);
    if aliases_after(once, again, second).len() == once.len() {
        lemma_silent_pass(once, again, n, second);
        let (j, k) = choose|j: int, k: int|
            0 <= j < again.len() && 0 <= k < again.len() && (#[trigger] again[j]).nodeid@
                == (#[trigger] again[k]).nodeid@ && again[j].alias@ != again[k].alias@;
        let a = choose|a: int| #[trigger]
            latest_alias_at(once, again[j].nodeid@, a) && once[a].alias@ == again[j].alias@;
        let b = choose|b: int| #[trigger]
            latest_alias_at(once, again[k].nodeid@, b) && once[b].alias@ == again[k].alias@;
        lemma_latest_alias_unique(once, again[j].nodeid@, a, b);
    }
}

/// The two tables hold the same records but for the two times that every
/// sighting refreshes.
pub open spec fn same_but_times(a: Seq<ChannelRecord>, b: Seq<ChannelRecord>) -> bool {
    &&& a.len() == b.len()
    &&& forall|i: int|
        0 <= i < a.len() ==> #[trigger] b[i] == (ChannelRecord {
            last_update: b[i].last_update,
            last_seen: b[i].last_seen,
            ..a[i]
        })
}

/// The channel of each of the first `m` edges has a record.
pub open spec fn channels_known(channels: Seq<ChannelRecord>, edges: Seq<Channel>, m: int) -> bool {
    forall|k: int|
        0 <= k < m ==> !channel_absent(channels, (#[trigger] edges[k]).short_channel_id@)
}

/// The sighting of a known channel refreshes one of its records.
proof fn lemma_sighting_of_known(channels: Seq<ChannelRecord>, edge: Channel, now: i64) -> (c: int)
    requires
        !channel_absent(channels, edge.short_channel_id@),
    ensures
        channel_at(channels, edge.short_channel_id@, c),
        with_channel(channels, edge, now) == channels.update(
            c,
            refreshed(channels[c], edge, now),
        ),
{
    let w = choose|w: int|
        0 <= w < channels.len() && channels[w].short_channel_id@ == edge.short_channel_id@;
    assert(channel_at(channels, edge.short_channel_id@, w));
    choose|c: int| channel_at(channels, edge.short_channel_id@, c)
}

/// A sighting keeps the records of all channels known before it.
proof fn lemma_sighting_keeps(channels: Seq<ChannelRecord>, edge: Channel, now: i64, id: Seq<char>)
    requires
        !channel_absent(channels, id),
    ensures
        !channel_absent(with_channel(channels, edge, now), id),
{
    let next = with_channel(channels, edge, now);
    let i = choose|i: int| 0 <= i < channels.len() && channels[i].short_channel_id@ == id;
    if !channel_absent(channels, edge.short_channel_id@) {
        let c = lemma_sighting_of_known(channels, edge, now);
    }
    assert(next[i].short_channel_id@ == id);
}

/// After a pass, the channel of every edge has a record.
proof fn lemma_pass_knows(channels: Seq<ChannelRecord>, edges: Seq<Channel>, n: int, now: i64)
    requires
        0 <= n <= edges.len(),
    ensures
        channels_known(channels_after(channels, edges.take(n), now), edges, n),
    decreases n,
{
    if n > 0 {
        lemma_pass_knows(channels, edges, n - 1, now);
        let part = edges.take(n);
        assert(part.drop_last() =~= edges.take(n - 1));
        assert(part.last() == edges[n - 1]);
        let before = channels_after(channels, edges.take(n - 1), now);
        let after = channels_after(channels, part, now);
        assert forall|k: int| 0 <= k < n implies !channel_absent(
            after,
            (#[trigger] edges[k]).short_channel_id@,
        ) by {
            let id = edges[k].short_channel_id@;
            if repeats_previous(part, n - 1) {
                assert(part[n - 2] == edges[n - 2]);
                assert(!channel_absent(before, edges[n - 2].short_channel_id@));
                if k < n - 1 {
                    assert(!channel_absent(before, edges[k].short_channel_id@));
                }
            } else {
                if k < n - 1 {
                    lemma_sighting_keeps(before, edges[n - 1], now, id);
                } else if channel_absent(before, id) {
                    assert(after[before.len() as int].short_channel_id@ == id);
                } else {
                    lemma_sighting_keeps(before, edges[n - 1], now, id);
                }
            }
        }
    }
}

/// A pass over a listing of known channels refreshes times and nothing else.
proof fn lemma_known_pass(channels: Seq<ChannelRecord>, edges: Seq<Channel>, n: int, now: i64)
    requires
        0 <= n <= edges.len(),
        channels_known(channels, edges, edges.len() as int),
    ensures
        same_but_times(channels, channels_after(channels, edges.take(n), now)),
    decreases n,
{
    if n == 0 {
        assert(edges.take(0) =~= Seq::<Channel>::empty());
    } else {
        lemma_known_pass(channels, edges, n - 1, now);
        let part = edges.take(n);
        assert(part.drop_last() =~= edges.take(n - 1));
        assert(part.last() == edges[n - 1]);
        let before = channels_after(channels, edges.take(n - 1), now);
        let id = edges[n - 1].short_channel_id@;
        assert(!channel_absent(before, id)) by {
            let i = choose|i: int| 0 <= i < channels.len() && channels[i].short_channel_id@ == id;
            assert(before[i].short_channel_id@ == id);
        }
        let c = lemma_sighting_of_known(before, edges[n - 1], now);
    }
}

/// A second pass, over a channel listing that says what the first said,
/// adds no channel record: it only refreshes `last_seen` and `last_update`.
pub proof fn lemma_rerun_adds_no_channel(
    channels: Seq<ChannelRecord>,
    edges: Seq<Channel>,
    again: Seq<Channel>,
    first: i64,
    second: i64,
)
    requires
        same_listing(edges, again),
    ensures
        same_but_times(
            channels_after(channels, edges, first),
            channels_after(channels_after(channels, edges, first), again, second),
        ),
{
    let n = edges.len() as int;
    assert(edges.take(n) =~= edges);
    assert(again.take(n) =~= again);
    lemma_pass_knows(channels, edges, n, first);
    let once = channels_after(channels, edges, first);
    assert forall|k: int| 0 <= k < n implies !channel_absent(
        once,
        (#[trigger] again[k]).short_channel_id@,
    ) by {
        assert(same_edge(edges[k], again[k]));
        assert(!channel_absent(once, edges[k].short_channel_id@));
    }
    lemma_known_pass(once, again, n, second);
}

} // verus!
