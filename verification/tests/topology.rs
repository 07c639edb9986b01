use lnchannels::lightning::{Channel, Node};
use lnchannels::store::{Direction, NodeAliasRecord, PolicySnapshot, Store};
use lnchannels::topology::{
    alias_changed, direction, latest_alias, latest_policy, new_record, new_snapshot,
    policy_changed,
};

const A: &str = "02aaaaaaaaaaaaaaaaaaaaaaaaaaaaaaaaaaaaaaaaaaaaaaaaaaaaaaaaaaaaaaaaaa";
const B: &str = "03bbbbbbbbbbbbbbbbbbbbbbbbbbbbbbbbbbbbbbbbbbbbbbbbbbbbbbbbbbbbbbbbbb";

fn edge(id: &str, source: &str, destination: &str, terms: (i64, i64, i64), updated: i64) -> Channel {
    Channel {
        source: source.to_string(),
        destination: destination.to_string(),
        short_channel_id: id.to_string(),
        satoshis: 500000,
        last_update: updated,
        base_fee_millisatoshi: terms.0,
        fee_per_millionth: terms.1,
        delay: terms.2,
    }
}

fn node(id: &str, alias: &str) -> Node {
    Node { nodeid: id.to_string(), alias: alias.to_string() }
}

fn snapshot(id: &str, d: Direction, terms: (i64, i64, i64), time: i64) -> PolicySnapshot {
    PolicySnapshot {
        short_channel_id: id.to_string(),
        direction: d,
        base_fee_millisatoshi: terms.0,
        fee_per_millionth: terms.1,
        delay: terms.2,
        update_time: time,
    }
}

#[test]
fn endpoints_are_ordered_whichever_way_the_edge_runs() {
    let forward = new_record(&edge("600000x1x0", A, B, (1, 2, 3), 10), 100);
    let backward = new_record(&edge("600000x1x0", B, A, (1, 2, 3), 10), 100);
    for r in [forward, backward] {
        assert_eq!(r.node0, A);
        assert_eq!(r.node1, B);
        assert!(r.node0 < r.node1);
        assert_eq!(r.satoshis, 500000);
        assert_eq!(r.last_update, 10);
        assert_eq!(r.last_seen, 100);
        assert_eq!(r.open_block, None);
        assert_eq!(r.close_block, None);
        assert_eq!(r.close_type, None);
    }
}

#[test]
fn an_edge_from_a_node_to_itself_has_equal_endpoints() {
    let r = new_record(&edge("1x1x1", A, A, (1, 2, 3), 10), 100);
    assert_eq!(r.node0, A);
    assert_eq!(r.node1, A);
}

#[test]
fn direction_is_forward_from_the_lower_endpoint() {
    assert_eq!(direction(&edge("1x1x1", A, B, (1, 2, 3), 10)), Direction::Forward);
    assert_eq!(direction(&edge("1x1x1", B, A, (1, 2, 3), 10)), Direction::Backward);
    assert_eq!(direction(&edge("1x1x1", A, A, (1, 2, 3), 10)), Direction::Backward);
    assert_eq!(Direction::Forward.number(), 1);
    assert_eq!(Direction::Backward.number(), 0);
    assert_eq!(Direction::from_number(1), Some(Direction::Forward));
    assert_eq!(Direction::from_number(0), Some(Direction::Backward));
    assert_eq!(Direction::from_number(2), None);
    assert_eq!(Direction::from_number(-1), None);
}

#[test]
fn snapshot_takes_terms_and_date_from_the_edge() {
    let p = new_snapshot(&edge("600000x1x0", B, A, (1000, 10, 144), 77));
    assert_eq!(p.short_channel_id, "600000x1x0");
    assert_eq!(p.direction, Direction::Backward);
    assert_eq!(p.base_fee_millisatoshi, 1000);
    assert_eq!(p.fee_per_millionth, 10);
    assert_eq!(p.delay, 144);
    assert_eq!(p.update_time, 77);
}

#[test]
fn a_policy_is_due_when_nothing_is_stored_or_a_term_differs() {
    let e = edge("1x1x1", A, B, (1000, 10, 144), 50);
    assert!(policy_changed(&e, None));
    let same = snapshot("1x1x1", Direction::Forward, (1000, 10, 144), 5);
    assert!(!policy_changed(&e, Some(&same)));
    for terms in [(1001, 10, 144), (1000, 11, 144), (1000, 10, 145)] {
        let other = snapshot("1x1x1", Direction::Forward, terms, 5);
        assert!(policy_changed(&e, Some(&other)));
    }
}

#[test]
fn latest_policy_is_the_one_updated_last() {
    let log = vec![
        snapshot("1x1x1", Direction::Forward, (1, 1, 1), 30),
        snapshot("1x1x1", Direction::Backward, (2, 2, 2), 90),
        snapshot("1x1x1", Direction::Forward, (3, 3, 3), 50),
        snapshot("2x2x2", Direction::Forward, (4, 4, 4), 99),
        snapshot("1x1x1", Direction::Forward, (5, 5, 5), 40),
    ];
    assert_eq!(latest_policy(&log, &"1x1x1".to_string(), Direction::Forward), Some(2));
    assert_eq!(latest_policy(&log, &"1x1x1".to_string(), Direction::Backward), Some(1));
    assert_eq!(latest_policy(&log, &"2x2x2".to_string(), Direction::Forward), Some(3));
    assert_eq!(latest_policy(&log, &"2x2x2".to_string(), Direction::Backward), None);
    assert_eq!(latest_policy(&log, &"3x3x3".to_string(), Direction::Forward), None);
}

#[test]
fn of_policies_updated_together_the_last_logged_is_latest() {
    let log = vec![
        snapshot("1x1x1", Direction::Forward, (1, 1, 1), 50),
        snapshot("1x1x1", Direction::Forward, (2, 2, 2), 50),
        snapshot("1x1x1", Direction::Forward, (3, 3, 3), 49),
    ];
    assert_eq!(latest_policy(&log, &"1x1x1".to_string(), Direction::Forward), Some(1));
}

#[test]
fn first_sighting_makes_a_record_and_logs_both_policies() {
    let mut store = Store::new();
    let listing = vec![
        edge("600000x1x0", B, A, (1000, 10, 144), 50),
        edge("600000x1x0", A, B, (2000, 20, 40), 60),
    ];
    let added = store.record_channels(&listing, 1000);
    assert_eq!(added, 2);
    assert_eq!(store.channels.len(), 1);
    let r = &store.channels[0];
    assert_eq!(r.short_channel_id, "600000x1x0");
    assert_eq!(r.node0, A);
    assert_eq!(r.node1, B);
    assert_eq!(r.last_update, 50);
    assert_eq!(r.last_seen, 1000);
    assert_eq!(store.policies.len(), 2);
    assert_eq!(store.policies[0].direction, Direction::Backward);
    assert_eq!(store.policies[0].base_fee_millisatoshi, 1000);
    assert_eq!(store.policies[0].update_time, 50);
    assert_eq!(store.policies[1].direction, Direction::Forward);
    assert_eq!(store.policies[1].base_fee_millisatoshi, 2000);
    assert_eq!(store.policies[1].update_time, 60);
}

#[test]
fn second_pass_over_the_same_listing_adds_no_row() {
    let mut store = Store::new();
    let listing = vec![
        edge("600000x1x0", B, A, (1000, 10, 144), 50),
        edge("600000x1x0", A, B, (2000, 20, 40), 60),
        edge("600001x2x1", A, B, (1, 1, 1), 70),
        edge("600001x2x1", B, A, (1, 1, 1), 70),
    ];
    let nodes = vec![node(A, "alice"), node(B, "bob")];
    assert_eq!(store.record_channels(&listing, 1000), 4);
    assert_eq!(store.record_nodes(&nodes, 1000), 2);
    let policies = store.policies.len();
    let aliases = store.aliases.len();
    let channels = store.channels.len();
    assert_eq!(store.record_channels(&listing, 2000), 0);
    assert_eq!(store.record_nodes(&nodes, 2000), 0);
    assert_eq!(store.policies.len(), policies);
    assert_eq!(store.aliases.len(), aliases);
    assert_eq!(store.channels.len(), channels);
    for r in store.channels.iter() {
        assert_eq!(r.last_seen, 2000);
        assert!(r.node0 < r.node1);
    }
    for a in store.aliases.iter() {
        assert_eq!(a.first_seen, 1000);
        assert_eq!(a.last_seen, 2000);
    }
}

#[test]
fn a_changed_policy_is_logged_once() {
    let mut store = Store::new();
    let before = vec![edge("600000x1x0", A, B, (1000, 10, 144), 50)];
    let after = vec![edge("600000x1x0", A, B, (1000, 10, 40), 80)];
    assert_eq!(store.record_channels(&before, 1000), 1);
    assert_eq!(store.record_channels(&after, 2000), 1);
    assert_eq!(store.record_channels(&after, 3000), 0);
    assert_eq!(store.policies.len(), 2);
    assert_eq!(store.policies[1].delay, 40);
    assert_eq!(store.policies[1].update_time, 80);
    assert_eq!(store.channels.len(), 1);
    assert_eq!(store.channels[0].last_update, 80);
    assert_eq!(store.channels[0].last_seen, 3000);
}

#[test]
fn record_policy_tells_whether_it_added() {
    let mut store = Store::new();
    let e = edge("600000x1x0", A, B, (1000, 10, 144), 50);
    assert!(store.record_policy(&e));
    assert!(!store.record_policy(&e));
    let other_way = edge("600000x1x0", B, A, (1000, 10, 144), 50);
    assert!(store.record_policy(&other_way));
    assert_eq!(store.policies.len(), 2);
}

#[test]
fn a_snapshot_dated_before_the_latest_does_not_settle() {
    let mut store = Store::new();
    store.policies.push(snapshot("600000x1x0", Direction::Forward, (9, 9, 9), 100));
    let listing = vec![edge("600000x1x0", A, B, (1000, 10, 144), 50)];
    assert_eq!(store.record_channels(&listing, 1000), 1);
    assert_eq!(store.record_channels(&listing, 2000), 1);
    assert_eq!(store.policies.len(), 3);
}

#[test]
fn a_listing_that_contradicts_itself_does_not_settle() {
    let mut store = Store::new();
    let listing = vec![
        edge("600000x1x0", A, B, (1, 1, 1), 50),
        edge("600000x1x0", A, B, (2, 2, 2), 50),
    ];
    assert_eq!(store.record_channels(&listing, 1000), 2);
    assert_eq!(store.record_channels(&listing, 2000), 2);
}

#[test]
fn a_known_channel_keeps_endpoints_and_capacity() {
    let mut store = Store::new();
    store.touch_channel(&edge("600000x1x0", A, B, (1, 1, 1), 50), 1000);
    let mut again = edge("600000x1x0", B, A, (1, 1, 1), 60);
    again.satoshis = 1;
    store.touch_channel(&again, 2000);
    assert_eq!(store.channels.len(), 1);
    let r = &store.channels[0];
    assert_eq!(r.node0, A);
    assert_eq!(r.node1, B);
    assert_eq!(r.satoshis, 500000);
    assert_eq!(r.last_update, 60);
    assert_eq!(r.last_seen, 2000);
    assert_eq!(store.find_channel(&"600000x1x0".to_string()), Some(0));
    assert_eq!(store.find_channel(&"600000x1x1".to_string()), None);
}

#[test]
fn only_an_edge_right_after_one_of_its_channel_is_no_sighting() {
    let mut store = Store::new();
    let listing = vec![
        edge("1x1x1", A, B, (1, 1, 1), 10),
        edge("1x1x1", B, A, (1, 1, 1), 20),
        edge("2x2x2", A, B, (1, 1, 1), 30),
        edge("1x1x1", A, B, (1, 1, 1), 40),
    ];
    store.record_channels(&listing, 1000);
    assert_eq!(store.channels.len(), 2);
    assert_eq!(store.channels[0].short_channel_id, "1x1x1");
    assert_eq!(store.channels[0].last_update, 40);
    assert_eq!(store.channels[1].last_update, 30);
}

#[test]
fn a_new_alias_is_logged_and_an_old_one_refreshed() {
    let mut store = Store::new();
    assert!(store.record_alias(&node(A, "alice"), 100));
    assert!(!store.record_alias(&node(A, "alice"), 200));
    assert_eq!(store.aliases.len(), 1);
    assert_eq!(store.aliases[0].first_seen, 100);
    assert_eq!(store.aliases[0].last_seen, 200);
    assert!(store.record_alias(&node(A, "alicia"), 300));
    assert_eq!(store.aliases.len(), 2);
    assert_eq!(store.aliases[0].last_seen, 200);
    assert_eq!(store.aliases[1].alias, "alicia");
    assert_eq!(store.aliases[1].first_seen, 300);
    assert_eq!(store.aliases[1].last_seen, 300);
    assert!(store.record_alias(&node(A, "alice"), 400));
    assert_eq!(store.aliases.len(), 3);
}

#[test]
fn latest_alias_is_the_one_seen_last() {
    let record = |pubkey: &str, alias: &str, seen: i64| NodeAliasRecord {
        pubkey: pubkey.to_string(),
        alias: alias.to_string(),
        first_seen: 0,
        last_seen: seen,
    };
    let log = vec![
        record(A, "one", 30),
        record(B, "bob", 99),
        record(A, "two", 50),
        record(A, "three", 50),
        record(A, "four", 40),
    ];
    assert_eq!(latest_alias(&log, &A.to_string()), Some(3));
    assert_eq!(latest_alias(&log, &B.to_string()), Some(1));
    assert_eq!(latest_alias(&log, &"04".to_string()), None);
    assert!(!alias_changed(&node(A, "three"), Some(&log[3])));
    assert!(alias_changed(&node(A, "two"), Some(&log[3])));
    assert!(alias_changed(&node(A, "two"), None));
}

#[test]
fn a_node_without_alias_is_logged_under_the_empty_one() {
    let mut store = Store::new();
    assert_eq!(store.record_nodes(&vec![node(A, ""), node(B, "")], 100), 2);
    assert_eq!(store.record_nodes(&vec![node(A, ""), node(B, "bob")], 200), 1);
    assert_eq!(store.aliases.len(), 3);
    assert_eq!(store.aliases[0].last_seen, 200);
    assert_eq!(store.aliases[1].last_seen, 100);
    assert_eq!(store.aliases[2].alias, "bob");
}

#[test]
fn a_node_listed_under_two_aliases_gets_a_record_on_every_pass() {
    let mut store = Store::new();
    let listing = vec![node(A, "alice"), node(A, "alicia")];
    assert_eq!(store.record_nodes(&listing, 100), 2);
    assert_eq!(store.record_nodes(&listing, 200), 2);
    assert_eq!(store.aliases.len(), 4);
}

#[test]
fn a_clock_that_runs_backwards_can_bring_an_old_alias_back() {
    let mut store = Store::new();
    store.aliases.push(NodeAliasRecord {
        pubkey: A.to_string(),
        alias: "later".to_string(),
        first_seen: 500,
        last_seen: 500,
    });
    let listing = vec![node(A, "alice")];
    assert_eq!(store.record_nodes(&listing, 100), 1);
    assert_eq!(store.record_nodes(&listing, 200), 1);
    assert_eq!(store.record_nodes(&listing, 500), 1);
    assert_eq!(store.record_nodes(&listing, 600), 0);
}
