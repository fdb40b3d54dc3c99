//! An n-gram text-generation engine: it learns a weighted word-transition
//! graph from short messages and samples new text from that graph, with an
//! exact binary persistence format.

use vstd::prelude::*;

pub mod chain;
pub mod chat;
pub mod config;
pub mod db;
pub mod explorer;
pub mod ingest;
pub mod manage;
pub mod schema;
pub mod sentry;
pub mod strutil;
pub mod train;
pub mod twitch;
pub mod user_api;

verus! {

pub use chain::Chain;
pub use chain::ChainError;
pub use chain::MAX_GENERATED_WORDS;
pub use chain::TextGenerator;
pub use chain::Token;
pub use chain::WordStats;
pub use chain::sample;
pub use chain::sample_seq;
pub use chain::ser::load_chain_of_any_supported_order_with_reader;
pub use chain::ser::read_header;

} // verus!
