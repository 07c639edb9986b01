//! What the ledger reports: blocks and decoded transactions.

use vstd::prelude::*;

verus! {

/// A block: the ids of its transactions, in order, and its timestamp.
#[derive(Clone, Debug)]
pub struct Block {
    pub tx: Vec<String>,
    pub time: i64,
}

/// A transaction with its inputs and outputs decoded.
#[derive(Clone, Debug)]
pub struct DecodedTransaction {
    pub txid: String,
    pub vout: Vec<Output>,
    pub vin: Vec<Input>,
}

/// An input: the output it spends, and the witness stack that unlocks it.
#[derive(Clone, Debug)]
pub struct Input {
    pub txid: String,
    pub vout: i64,
    pub txinwitness: Vec<String>,
}

/// An output: its position, its locking script and its value in satoshis.
#[derive(Clone, Debug)]
pub struct Output {
    pub n: i64,
    pub script_pub_key: ScriptPubKey,
    pub sat: i64,
}

/// A locking script: the addresses it pays to and its standard type.
#[derive(Clone, Debug)]
pub struct ScriptPubKey {
    pub addresses: Vec<String>,
    pub typ: String,
}

} // verus!
