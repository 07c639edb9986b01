use lnchannels::bitcoin::{Block, DecodedTransaction, Input, Output, ScriptPubKey};
use lnchannels::classifier::{
    aggregate, begin, record_label, CloseSummary, CloseType, OutputLabel, Probe,
};
use lnchannels::closure::{detect_close, ChannelCloseData};
use lnchannels::enricher::{enrich, TransactionData};
use lnchannels::esplora::{EsploraTx, EsploraTxStatus};
use lnchannels::lightning::Channel;
use lnchannels::locator::parse_locator;
use lnchannels::pipeline::{
    is_due, is_stale, on_failure, steps_to_run, Flags, OnFailure, Stage, StepsToRun, STALE_AFTER,
};
use lnchannels::resolver::{funding_txid, resolve, ChannelBitcoinData};
use lnchannels::store::Store;

const A: &str = "02aaaaaaaaaaaaaaaaaaaaaaaaaaaaaaaaaaaaaaaaaaaaaaaaaaaaaaaaaaaaaaaaaa";
const B: &str = "03bbbbbbbbbbbbbbbbbbbbbbbbbbbbbbbbbbbbbbbbbbbbbbbbbbbbbbbbbbbbbbbbbb";

fn edge(id: &str, satoshis: i64) -> Channel {
    Channel {
        source: A.to_string(),
        destination: B.to_string(),
        short_channel_id: id.to_string(),
        satoshis,
        last_update: 10,
        base_fee_millisatoshi: 1000,
        fee_per_millionth: 1,
        delay: 144,
    }
}

fn store_with(ids: &[&str], now: i64) -> Store {
    let mut store = Store::new();
    for id in ids {
        store.touch_channel(&edge(id, 500000), now);
    }
    store
}

fn funding() -> ChannelBitcoinData {
    ChannelBitcoinData { block: 600000, transaction: "funding".to_string(), address: "bc1qfund".to_string() }
}

fn closing() -> ChannelCloseData {
    ChannelCloseData { block: 610000, transaction: "closing".to_string() }
}

fn flags() -> Flags {
    Flags {
        listchannels: false,
        listnodes: false,
        checkcloses: false,
        enrich: false,
        materialize: false,
        all: false,
        skipgossip: false,
    }
}

fn steps(listchannels: bool, listnodes: bool, checkcloses: bool, enrich: bool, materialize: bool) -> StepsToRun {
    StepsToRun { listchannels, listnodes, checkcloses, enrich, materialize }
}

#[test]
fn each_flag_selects_its_step() {
    assert_eq!(steps_to_run(Flags { listchannels: true, ..flags() }), steps(true, false, false, false, false));
    assert_eq!(steps_to_run(Flags { listnodes: true, ..flags() }), steps(false, true, false, false, false));
    assert_eq!(steps_to_run(Flags { checkcloses: true, ..flags() }), steps(false, false, true, false, false));
    assert_eq!(steps_to_run(Flags { enrich: true, ..flags() }), steps(false, false, false, true, false));
    assert_eq!(steps_to_run(Flags { materialize: true, ..flags() }), steps(false, false, false, false, true));
    assert_eq!(steps_to_run(flags()), steps(false, false, false, false, false));
}

#[test]
fn the_flag_for_all_selects_every_step() {
    assert_eq!(steps_to_run(Flags { all: true, ..flags() }), steps(true, true, true, true, true));
    assert_eq!(
        steps_to_run(Flags { all: true, skipgossip: true, ..flags() }),
        steps(true, true, true, true, true)
    );
}

#[test]
fn skipping_the_gossip_selects_all_but_the_listings() {
    assert_eq!(steps_to_run(Flags { skipgossip: true, ..flags() }), steps(false, false, true, true, true));
    assert_eq!(
        steps_to_run(Flags { skipgossip: true, listchannels: true, listnodes: true, ..flags() }),
        steps(false, false, true, true, true)
    );
}

#[test]
fn only_a_failure_to_resolve_ends_the_run() {
    assert_eq!(on_failure(Stage::Resolve), OnFailure::Abort);
    assert_eq!(on_failure(Stage::DetectClose), OnFailure::Skip);
    assert_eq!(on_failure(Stage::EnrichOpen), OnFailure::Skip);
    assert_eq!(on_failure(Stage::EnrichClose), OnFailure::Skip);
    assert_eq!(on_failure(Stage::Classify), OnFailure::Skip);
}

#[test]
fn a_channel_is_stale_after_more_than_a_day() {
    assert_eq!(STALE_AFTER, 86400);
    assert!(!is_stale(1000, 1000));
    assert!(!is_stale(1000, 1000 + 86400));
    assert!(is_stale(1000, 1000 + 86401));
    assert!(!is_stale(i64::MAX, i64::MAX));
    assert!(is_stale(i64::MIN, i64::MAX));
    assert!(!is_stale(i64::MAX, i64::MIN));
}

#[test]
fn a_fresh_record_is_due_for_resolving_only() {
    let store = store_with(&["600000x1x0"], 1000);
    let r = &store.channels[0];
    assert!(is_due(r, Stage::Resolve, 1000));
    assert!(!is_due(r, Stage::DetectClose, 1000));
    assert!(is_due(r, Stage::DetectClose, 1000 + 86401));
    assert!(!is_due(r, Stage::EnrichOpen, 1000));
    assert!(!is_due(r, Stage::EnrichClose, 1000));
    assert!(!is_due(r, Stage::Classify, 1000));
}

#[test]
fn work_is_listed_in_the_order_of_the_table() {
    let mut store = store_with(&["1x1x1", "2x2x2", "3x3x3", "4x4x4"], 1000);
    assert_eq!(store.due(Stage::Resolve, 1000), vec![0, 1, 2, 3]);
    assert!(store.set_funding(1, funding()));
    assert!(store.set_funding(3, funding()));
    assert_eq!(store.due(Stage::Resolve, 1000), vec![0, 2]);
    assert_eq!(store.due(Stage::EnrichOpen, 1000), vec![1, 3]);
    assert_eq!(store.due(Stage::DetectClose, 1000), Vec::<usize>::new());
    store.touch_channel(&edge("2x2x2", 1), 200000);
    assert_eq!(store.due(Stage::DetectClose, 200000), vec![0, 2, 3]);
    assert_eq!(Store::new().due(Stage::Resolve, 0), Vec::<usize>::new());
}

#[test]
fn each_stage_writes_once() {
    let mut store = store_with(&["600000x1x0"], 1000);
    assert!(!store.set_open_details(0, TransactionData { time: 5, fee: 6 }));
    assert!(store.set_funding(0, funding()));
    assert!(!store.set_funding(0, ChannelBitcoinData { block: 1, transaction: "x".to_string(), address: "y".to_string() }));
    assert!(store.set_open_details(0, TransactionData { time: 5, fee: 6 }));
    assert!(!store.set_open_details(0, TransactionData { time: 7, fee: 8 }));
    assert!(!store.set_close_details(0, TransactionData { time: 9, fee: 10 }));
    let summary = CloseSummary { close_type: CloseType::Mutual, balance_a: 3, balance_b: 2, htlc_count: 0 };
    assert!(!store.set_close_type(0, summary));
    assert!(store.set_close(0, closing()));
    assert!(!store.set_close(0, ChannelCloseData { block: 2, transaction: "z".to_string() }));
    assert!(store.set_close_details(0, TransactionData { time: 9, fee: 10 }));
    assert!(!store.set_close_details(0, TransactionData { time: 11, fee: 12 }));
    assert!(store.set_close_type(0, summary));
    let other = CloseSummary { close_type: CloseType::Force, balance_a: 1, balance_b: 1, htlc_count: 4 };
    assert!(!store.set_close_type(0, other));
    let r = &store.channels[0];
    assert_eq!(r.open_block, Some(600000));
    assert_eq!(r.open_transaction.as_deref(), Some("funding"));
    assert_eq!(r.funding_address.as_deref(), Some("bc1qfund"));
    assert_eq!(r.open_time, Some(5));
    assert_eq!(r.open_fee, Some(6));
    assert_eq!(r.close_block, Some(610000));
    assert_eq!(r.close_transaction.as_deref(), Some("closing"));
    assert_eq!(r.close_time, Some(9));
    assert_eq!(r.close_fee, Some(10));
    assert_eq!(r.close_type, Some(CloseType::Mutual));
    assert_eq!(r.close_balance_a, Some(3));
    assert_eq!(r.close_balance_b, Some(2));
    assert_eq!(r.close_htlc_count, Some(0));
    for stage in [Stage::Resolve, Stage::DetectClose, Stage::EnrichOpen, Stage::EnrichClose, Stage::Classify] {
        assert!(!is_due(r, stage, i64::MAX));
    }
}

#[test]
fn nothing_is_written_beyond_the_table() {
    let mut store = store_with(&["600000x1x0"], 1000);
    assert!(!store.set_funding(1, funding()));
    assert!(!store.set_close(1, closing()));
    assert!(!store.set_open_details(usize::MAX, TransactionData { time: 5, fee: 6 }));
    assert_eq!(store.channels[0].open_block, None);
    assert_eq!(store.channels[0].close_block, None);
}

#[test]
fn a_sighting_keeps_what_the_stages_wrote() {
    let mut store = store_with(&["600000x1x0"], 1000);
    assert!(store.set_funding(0, funding()));
    assert!(store.set_close(0, closing()));
    store.record_channels(&vec![edge("600000x1x0", 1)], 5000);
    let r = &store.channels[0];
    assert_eq!(r.last_seen, 5000);
    assert_eq!(r.open_block, Some(600000));
    assert_eq!(r.close_block, Some(610000));
    assert_eq!(r.satoshis, 500000);
}

#[test]
fn a_channel_is_followed_from_sighting_to_mutual_close() {
    let mut store = Store::new();
    store.record_channels(&vec![edge("600000x1x0", 500000)], 1_570_000_000);
    assert_eq!(store.channels[0].satoshis, 500000);

    let at = store.due(Stage::Resolve, 1_570_000_000);
    assert_eq!(at, vec![0]);
    let locator = parse_locator(&store.channels[0].short_channel_id).unwrap();
    assert_eq!(locator.block_height, 600000);
    let block = Block { tx: vec!["coinbase".to_string(), "T".to_string()], time: 1_569_000_000 };
    assert_eq!(funding_txid(&block, &locator).unwrap(), "T");
    let funding_tx = DecodedTransaction {
        txid: "T".to_string(),
        vin: vec![Input { txid: "S".to_string(), vout: 0, txinwitness: vec![] }],
        vout: vec![Output {
            n: 0,
            sat: 500000,
            script_pub_key: ScriptPubKey { addresses: vec!["A".to_string()], typ: "witness_v0_scripthash".to_string() },
        }],
    };
    let data = resolve(&locator, &block, &funding_tx).unwrap();
    assert_eq!((data.block, data.transaction.as_str(), data.address.as_str()), (600000, "T", "A"));
    assert!(store.set_funding(0, data));

    assert_eq!(store.due(Stage::DetectClose, 1_570_000_000 + 3600), Vec::<usize>::new());
    let later = 1_570_000_000 + 2 * 86400;
    assert_eq!(store.due(Stage::DetectClose, later), vec![0]);
    let history = vec![
        EsploraTx { txid: "C".to_string(), status: EsploraTxStatus { confirmed: true, block_height: 600500 } },
        EsploraTx { txid: "T".to_string(), status: EsploraTxStatus { confirmed: true, block_height: 600000 } },
    ];
    let close = detect_close(&history).unwrap();
    assert!(store.set_close(0, close));
    assert_eq!(store.channels[0].close_block, Some(600500));
    assert_eq!(store.channels[0].close_transaction.as_deref(), Some("C"));

    let source = DecodedTransaction {
        txid: "S".to_string(),
        vin: vec![],
        vout: vec![Output {
            n: 0,
            sat: 501000,
            script_pub_key: ScriptPubKey { addresses: vec!["W".to_string()], typ: "witness_v0_keyhash".to_string() },
        }],
    };
    assert_eq!(store.due(Stage::EnrichOpen, later), vec![0]);
    let opened = enrich(&block, &funding_tx, &vec![source]).unwrap();
    assert_eq!(opened, TransactionData { time: 1_569_000_000, fee: 1000 });
    assert!(store.set_open_details(0, opened));

    let key = |n: i64, sat: i64, address: &str| Output {
        n,
        sat,
        script_pub_key: ScriptPubKey { addresses: vec![address.to_string()], typ: "witness_v0_keyhash".to_string() },
    };
    let closing_tx = DecodedTransaction {
        txid: "C".to_string(),
        vin: vec![Input { txid: "T".to_string(), vout: 0, txinwitness: vec![] }],
        vout: vec![key(0, 300000, "X"), key(1, 199500, "Y")],
    };
    let closing_block = Block { tx: vec!["C".to_string()], time: 1_569_300_000 };
    assert_eq!(store.due(Stage::EnrichClose, later), vec![0]);
    let closed = enrich(&closing_block, &closing_tx, &vec![funding_tx]).unwrap();
    assert_eq!(closed, TransactionData { time: 1_569_300_000, fee: 500 });
    assert!(store.set_close_details(0, closed));

    assert_eq!(store.due(Stage::Classify, later), vec![0]);
    let mut labeled = Vec::new();
    for o in closing_tx.vout.iter() {
        match begin(o, closing_tx.vout.len()) {
            Probe::Labeled(label) => {
                assert_eq!(label, Some(OutputLabel::Pubkey));
                record_label(&mut labeled, o, label);
            },
            _ => panic!("a key payment needs no further look"),
        }
    }
    let summary = aggregate(&labeled);
    assert_eq!(
        summary,
        CloseSummary { close_type: CloseType::Mutual, balance_a: 300000, balance_b: 199500, htlc_count: 0 }
    );
    assert!(store.set_close_type(0, summary));
    assert_eq!(store.channels[0].close_type, Some(CloseType::Mutual));
    for stage in [Stage::Resolve, Stage::DetectClose, Stage::EnrichOpen, Stage::EnrichClose, Stage::Classify] {
        assert_eq!(store.due(stage, i64::MAX), Vec::<usize>::new());
    }
}
