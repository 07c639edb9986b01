//! What the block explorer reports about an address.

use vstd::prelude::*;

verus! {

/// A transaction in an address's history.
#[derive(Clone, Debug)]
pub struct EsploraTx {
    pub txid: String,
    pub status: EsploraTxStatus,
}

/// An input as the explorer shows it.
#[derive(Clone, Debug)]
pub struct EsploraInput {
    pub prevout: EsploraPrevout,
}

/// The output that an input spends.
#[derive(Clone, Debug)]
pub struct EsploraPrevout {
    pub scriptpubkey_address: String,
}

/// Whether a transaction is in a block, and in which.
#[derive(Clone, Copy, Debug)]
pub struct EsploraTxStatus {
    pub confirmed: bool,
    pub block_height: i64,
}

} // verus!
