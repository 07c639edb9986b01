//! From a channel's locator to its funding transaction and address.

use crate::bitcoin::{Block, DecodedTransaction};
use crate::error::IntegrityError;
use crate::locator::Locator;
use vstd::prelude::*;

verus! {

/// Where a channel was funded: the block, the funding transaction and the
/// address that the funding output pays to.
#[derive(Clone, Debug)]
pub struct ChannelBitcoinData {
    pub block: i64,
    pub transaction: String,
    pub address: String,
}

/// The id of the funding transaction: the one at the locator's index in the
/// block at the locator's height.
pub fn funding_txid<'a>(block: &'a Block, locator: &Locator) -> (r: Result<
    &'a String,
    IntegrityError,
>)
    ensures
        r is Ok <==> locator.tx_index < block.tx.len(),
        r matches Ok(t) ==> *t == block.tx[locator.tx_index as int],
        r matches Err(e) ==> e == IntegrityError::TransactionOutOfRange,
{
    if locator.tx_index < block.tx.len() {
        Ok(&block.tx[locator.tx_index])
    } else {
        Err(IntegrityError::TransactionOutOfRange)
    }
}

/// The transaction has an output at `index`, and it pays to an address.
pub open spec fn pays_to_address(tx: DecodedTransaction, index: int) -> bool {
    0 <= index < tx.vout.len() && tx.vout[index].script_pub_key.addresses.len() > 0
}

/// The funding address: the first address of the output at the locator's
/// index in the funding transaction.
pub fn funding_address<'a>(tx: &'a DecodedTransaction, locator: &Locator) -> (r: Result<
    &'a String,
    IntegrityError,
>)
    ensures
        r is Ok <==> pays_to_address(*tx, locator.output_index as int),
        r matches Ok(a) ==> *a == tx.vout[locator.output_index as int].script_pub_key.addresses[0],
        r matches Err(e) ==> e == if locator.output_index >= tx.vout.len() {
            IntegrityError::OutputOutOfRange
        } else {
            IntegrityError::MissingAddress
        },
{
    if locator.output_index >= tx.vout.len() {
        Err(IntegrityError::OutputOutOfRange)
    } else if tx.vout[locator.output_index].script_pub_key.addresses.len() == 0 {
        Err(IntegrityError::MissingAddress)
    } else {
        Ok(&tx.vout[locator.output_index].script_pub_key.addresses[0])
    }
}

/// Resolves a locator against the block at its height and the decoded
/// funding transaction.
///
/// Fails if the block has no transaction at the locator's index, if the
/// transaction has no output at the locator's index, or if that output pays
/// to no address, in this order.
pub fn resolve(locator: &Locator, block: &Block, tx: &DecodedTransaction) -> (r: Result<
    ChannelBitcoinData,
    IntegrityError,
>)
    ensures
        r is Ok <==> locator.tx_index < block.tx.len() && pays_to_address(
            *tx,
            locator.output_index as int,
        ),
        r matches Ok(data) ==> {
            &&& data.block == locator.block_height
            &&& data.transaction@ == block.tx[locator.tx_index as int]@
            &&& data.address@ == tx.vout[locator.output_index as int].script_pub_key.addresses[0]@
        },
        r matches Err(e) ==> e == if locator.tx_index >= block.tx.len() {
            IntegrityError::TransactionOutOfRange
        } else if locator.output_index >= tx.vout.len() {
            IntegrityError::OutputOutOfRange
        } else {
            IntegrityError::MissingAddress
        },
{
    let txid = match funding_txid(block, locator) {
        Ok(t) => t,
        Err(e) => {
            return Err(e);
        },
    };
    let address = match funding_address(tx, locator) {
        Ok(a) => a,
        Err(e) => {
            return Err(e);
        },
    };
    Ok(
        ChannelBitcoinData {
            block: locator.block_height,
            transaction: txid.clone(),
            address: address.clone(),
        },
    )
}

} // verus!
