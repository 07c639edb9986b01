use lnchannels::classifier::CloseType;
use lnchannels::lightning::Channel;
use lnchannels::store::{record_in_order, Store};

fn edge(id: &str, source: &str, destination: &str) -> Channel {
    Channel {
        source: source.to_string(),
        destination: destination.to_string(),
        short_channel_id: id.to_string(),
        satoshis: 1,
        last_update: 1,
        base_fee_millisatoshi: 1,
        fee_per_millionth: 1,
        delay: 1,
    }
}

fn store() -> Store {
    let mut s = Store::new();
    s.record_channels(
        &vec![edge("1x1x1", "02", "03"), edge("2x2x2", "03", "02"), edge("3x3x3", "02", "02")],
        10,
    );
    s
}

#[test]
fn tables_built_by_the_pipeline_are_consistent() {
    assert!(Store::new().is_consistent());
    assert!(store().is_consistent());
}

#[test]
fn two_records_of_one_channel_are_inconsistent() {
    let mut s = store();
    let again = s.channels[0].clone();
    s.channels.push(again);
    assert!(!s.is_consistent());
}

#[test]
fn endpoints_out_of_order_are_inconsistent() {
    let mut s = store();
    s.channels[1].node0 = "04".to_string();
    assert!(!s.is_consistent());
}

#[test]
fn a_record_written_out_of_order_is_inconsistent() {
    let mut s = store();
    s.channels[2].open_time = Some(5);
    assert!(!record_in_order(&s.channels[2]));
    assert!(!s.is_consistent());
    s.channels[2].open_fee = Some(7);
    assert!(!s.is_consistent());
    s.channels[2].open_block = Some(1);
    s.channels[2].open_transaction = Some("t".to_string());
    assert!(!s.is_consistent());
    s.channels[2].funding_address = Some("a".to_string());
    assert!(record_in_order(&s.channels[2]));
    assert!(s.is_consistent());
    s.channels[2].close_type = Some(CloseType::Force);
    s.channels[2].close_balance_a = Some(1);
    s.channels[2].close_balance_b = Some(2);
    s.channels[2].close_htlc_count = Some(0);
    assert!(!s.is_consistent());
    s.channels[2].close_block = Some(9);
    s.channels[2].close_transaction = Some("c".to_string());
    assert!(s.is_consistent());
}

#[test]
fn close_types_are_stored_under_their_names() {
    for (t, word) in [
        (CloseType::Unknown, "unknown"),
        (CloseType::Unused, "unused"),
        (CloseType::Mutual, "mutual"),
        (CloseType::Force, "force"),
        (CloseType::Penalty, "penalty"),
    ] {
        assert_eq!(t.name(), word);
        assert_eq!(CloseType::from_name(word), Some(t));
    }
    assert_eq!(CloseType::from_name(""), None);
    assert_eq!(CloseType::from_name("Mutual"), None);
    assert_eq!(CloseType::from_name("forced"), None);
}
