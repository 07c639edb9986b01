//! The history of payment channels, reconstructed from the topology of the
//! network and the public ledger: when a channel opened, under which terms
//! it forwarded payments over time, when and how it closed, and who was
//! left with what.
//!
//! The library is the engine of a batch pipeline and does no input or
//! output of its own. Whoever runs the pipeline fetches what the gateway,
//! the ledger and the block explorer have to say and hands it over as plain
//! values; the library decides what follows from it and what is to be kept.
//!
//! * [`lightning`], [`bitcoin`] and [`esplora`] hold what the three sources
//!   report.
//! * [`store`] holds the primary tables: channel records, the log of
//!   policies and the log of aliases.
//! * [`topology`] takes a listing of channels or nodes into the tables;
//!   [`rerun`] proves what a second pass over the same listing does.
//! * [`locator`] and [`resolver`] find the funding transaction and address
//!   of a channel, [`closure`] tells whether it was spent, [`enricher`]
//!   computes time and fee of a transaction, and [`classifier`] tells how
//!   the channel closed.
//! * [`pipeline`] says which records each stage has work for and writes
//!   what the stage found.
//! * [`materializer`] rebuilds the derived tables, and [`dashboard`] prepares
//!   them for showing.
//! * [`text`] orders and searches text; [`error`] names what can be wrong
//!   with the data.

pub mod bitcoin;
pub mod classifier;
pub mod closure;
pub mod dashboard;
pub mod enricher;
pub mod error;
pub mod esplora;
pub mod lightning;
pub mod locator;
pub mod materializer;
pub mod pipeline;
pub mod rerun;
pub mod resolver;
pub mod store;
pub mod text;
pub mod topology;
