//! What the lightning gateway reports: directed channel edges and nodes.

use vstd::prelude::*;

verus! {

/// The answer to a channel listing.
#[derive(Clone, Debug)]
pub struct ListChannels {
    pub channels: Vec<Channel>,
}

/// One direction of a channel, with the forwarding policy of its source.
#[derive(Clone, Debug)]
pub struct Channel {
    pub source: String,
    pub destination: String,
    pub short_channel_id: String,
    pub satoshis: i64,
    pub last_update: i64,
    pub base_fee_millisatoshi: i64,
    pub fee_per_millionth: i64,
    pub delay: i64,
}

/// The answer to a node listing.
#[derive(Clone, Debug)]
pub struct ListNodes {
    pub nodes: Vec<Node>,
}

/// A node and the alias it announces; a node that announces none has the
/// empty alias.
#[derive(Clone, Debug)]
pub struct Node {
    pub nodeid: String,
    pub alias: String,
}

} // verus!
