use lnchannels::bitcoin::{Block, DecodedTransaction, Input, Output, ScriptPubKey};
use lnchannels::closure::detect_close;
use lnchannels::enricher::{enrich, input_value, TransactionData};
use lnchannels::error::IntegrityError;
use lnchannels::esplora::{EsploraTx, EsploraTxStatus};
use lnchannels::locator::Locator;
use lnchannels::resolver::{funding_address, funding_txid, resolve};

fn output(n: i64, sat: i64, typ: &str, addresses: &[&str]) -> Output {
    Output {
        n,
        script_pub_key: ScriptPubKey {
            addresses: addresses.iter().map(|a| a.to_string()).collect(),
            typ: typ.to_string(),
        },
        sat,
    }
}

fn input(txid: &str, vout: i64) -> Input {
    Input { txid: txid.to_string(), vout, txinwitness: Vec::new() }
}

fn tx(txid: &str, vin: Vec<Input>, vout: Vec<Output>) -> DecodedTransaction {
    DecodedTransaction { txid: txid.to_string(), vout, vin }
}

fn block(ids: &[&str], time: i64) -> Block {
    Block { tx: ids.iter().map(|t| t.to_string()).collect(), time }
}

fn listed(txid: &str, confirmed: bool, height: i64) -> EsploraTx {
    EsploraTx { txid: txid.to_string(), status: EsploraTxStatus { confirmed, block_height: height } }
}

#[test]
fn resolves_a_locator() {
    let l = Locator { block_height: 600000, tx_index: 1, output_index: 0 };
    let b = block(&["coinbase", "funding", "other"], 1_570_000_000);
    let t = tx("funding", vec![], vec![output(0, 500000, "witness_v0_scripthash", &["bc1qfund"])]);
    assert_eq!(funding_txid(&b, &l), Ok(&"funding".to_string()));
    assert_eq!(funding_address(&t, &l), Ok(&"bc1qfund".to_string()));
    let data = resolve(&l, &b, &t).unwrap();
    assert_eq!(data.block, 600000);
    assert_eq!(data.transaction, "funding");
    assert_eq!(data.address, "bc1qfund");
}

#[test]
fn a_transaction_index_beyond_the_block_is_an_error() {
    let l = Locator { block_height: 600000, tx_index: 3, output_index: 0 };
    let b = block(&["coinbase", "funding", "other"], 1_570_000_000);
    let t = tx("funding", vec![], vec![output(0, 500000, "witness_v0_scripthash", &["bc1qfund"])]);
    assert_eq!(funding_txid(&b, &l), Err(IntegrityError::TransactionOutOfRange));
    assert_eq!(resolve(&l, &b, &t).err(), Some(IntegrityError::TransactionOutOfRange));
}

#[test]
fn an_output_index_beyond_the_transaction_is_an_error() {
    let l = Locator { block_height: 600000, tx_index: 1, output_index: 1 };
    let b = block(&["coinbase", "funding"], 1_570_000_000);
    let t = tx("funding", vec![], vec![output(0, 500000, "witness_v0_scripthash", &["bc1qfund"])]);
    assert_eq!(funding_address(&t, &l), Err(IntegrityError::OutputOutOfRange));
    assert_eq!(resolve(&l, &b, &t).err(), Some(IntegrityError::OutputOutOfRange));
}

#[test]
fn an_output_without_address_is_an_error() {
    let l = Locator { block_height: 600000, tx_index: 1, output_index: 0 };
    let b = block(&["coinbase", "funding"], 1_570_000_000);
    let t = tx("funding", vec![], vec![output(0, 0, "nulldata", &[])]);
    assert_eq!(funding_address(&t, &l), Err(IntegrityError::MissingAddress));
    assert_eq!(resolve(&l, &b, &t).err(), Some(IntegrityError::MissingAddress));
}

#[test]
fn two_transactions_with_the_spend_confirmed_are_a_close() {
    let history = vec![listed("closing", true, 610000), listed("funding", true, 600000)];
    let close = detect_close(&history).unwrap();
    assert_eq!(close.block, 610000);
    assert_eq!(close.transaction, "closing");
}

#[test]
fn any_other_history_leaves_the_channel_open() {
    assert!(detect_close(&vec![]).is_none());
    assert!(detect_close(&vec![listed("funding", true, 600000)]).is_none());
    assert!(detect_close(&vec![listed("closing", false, 0), listed("funding", true, 600000)])
        .is_none());
    assert!(detect_close(&vec![
        listed("third", true, 620000),
        listed("closing", true, 610000),
        listed("funding", true, 600000),
    ])
    .is_none());
}

#[test]
fn an_unconfirmed_funding_does_not_matter() {
    let history = vec![listed("closing", true, 610000), listed("funding", false, 0)];
    assert!(detect_close(&history).is_some());
}

#[test]
fn fee_is_what_comes_in_less_what_goes_out() {
    let spent = tx(
        "spend",
        vec![input("a", 1), input("b", 0)],
        vec![output(0, 100000, "witness_v0_keyhash", &["x"]), output(1, 49000, "witness_v0_keyhash", &["y"])],
    );
    let sources = vec![
        tx("a", vec![], vec![output(0, 7, "pubkeyhash", &["p"]), output(1, 100000, "pubkeyhash", &["q"])]),
        tx("b", vec![], vec![output(0, 50000, "pubkeyhash", &["r"])]),
    ];
    let b = block(&["spend"], 1_570_000_123);
    assert_eq!(enrich(&b, &spent, &sources), Ok(TransactionData { time: 1_570_000_123, fee: 1000 }));
}

#[test]
fn a_transaction_without_inputs_has_a_negative_fee() {
    let coinbase = tx("cb", vec![], vec![output(0, 1250000000, "pubkeyhash", &["m"])]);
    let b = block(&["cb"], 5);
    assert_eq!(enrich(&b, &coinbase, &vec![]), Ok(TransactionData { time: 5, fee: -1250000000 }));
}

#[test]
fn sources_must_be_those_of_the_inputs() {
    let spent = tx("spend", vec![input("a", 0)], vec![]);
    let b = block(&["spend"], 5);
    let a = tx("a", vec![], vec![output(0, 10, "pubkeyhash", &["p"])]);
    let other = tx("z", vec![], vec![output(0, 10, "pubkeyhash", &["p"])]);
    assert_eq!(enrich(&b, &spent, &vec![]), Err(IntegrityError::SourceMismatch));
    assert_eq!(enrich(&b, &spent, &vec![other]), Err(IntegrityError::SourceMismatch));
    let twice = vec![a.clone(), a.clone()];
    assert_eq!(enrich(&b, &spent, &twice), Err(IntegrityError::SourceMismatch));
    assert_eq!(enrich(&b, &spent, &vec![a]), Ok(TransactionData { time: 5, fee: 10 }));
}

#[test]
fn an_input_must_name_an_output_of_its_source() {
    let a = tx("a", vec![], vec![output(0, 10, "pubkeyhash", &["p"])]);
    assert_eq!(input_value(&input("a", 0), &a), Ok(10));
    assert_eq!(input_value(&input("a", 1), &a), Err(IntegrityError::OutputOutOfRange));
    assert_eq!(input_value(&input("a", -1), &a), Err(IntegrityError::OutputOutOfRange));
    assert_eq!(input_value(&input("b", 0), &a), Err(IntegrityError::SourceMismatch));
    let spent = tx("spend", vec![input("a", 5)], vec![]);
    assert_eq!(
        enrich(&block(&["spend"], 5), &spent, &vec![a]),
        Err(IntegrityError::OutputOutOfRange)
    );
}

#[test]
fn a_fee_beyond_64_bits_is_an_error() {
    let a = tx("a", vec![], vec![output(0, i64::MAX, "pubkeyhash", &["p"])]);
    let spent = tx("spend", vec![input("a", 0)], vec![output(0, -1, "pubkeyhash", &["q"])]);
    let b = block(&["spend"], 5);
    assert_eq!(enrich(&b, &spent, &vec![a.clone()]), Err(IntegrityError::FeeOutOfRange));
    let edge = tx("spend", vec![input("a", 0)], vec![output(0, 0, "pubkeyhash", &["q"])]);
    assert_eq!(enrich(&b, &edge, &vec![a]), Ok(TransactionData { time: 5, fee: i64::MAX }));
}
