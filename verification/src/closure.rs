//! Telling from the history of a funding address whether the channel closed.

use crate::esplora::EsploraTx;
use vstd::prelude::*;

verus! {

/// Where a channel was closed: the block and the closing transaction.
#[derive(Clone, Debug)]
pub struct ChannelCloseData {
    pub block: i64,
    pub transaction: String,
}

/// The history shows a close: it holds two transactions, the funding and
/// the one that spent it, and the spend is confirmed. The explorer lists an
/// address's transactions newest first, so that the spend, the second of the
/// two to happen, is listed first.
pub open spec fn shows_close(history: Seq<EsploraTx>) -> bool {
    history.len() == 2 && history[0].status.confirmed
}

/// Looks for the closing transaction in the history of a funding address,
/// listed newest first.
///
/// A history of exactly two transactions whose later one is confirmed gives
/// that one and its block. Any other history gives nothing: the channel
/// counts as open and is looked at again another time.
pub fn detect_close(history: &Vec<EsploraTx>) -> (r: Option<ChannelCloseData>)
    ensures
        r is Some <==> shows_close(history@),
        r matches Some(c) ==> c.block == history[0].status.block_height && c.transaction@
            == history[0].txid@,
{
    if history.len() == 2 && history[0].status.confirmed {
        Some(
            ChannelCloseData {
                block: history[0].status.block_height,
                transaction: history[0].txid.clone(),
            },
        )
    } else {
        None
    }
}

} // verus!
