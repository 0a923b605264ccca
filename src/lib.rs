//! A per-symbol limit-order book with price-time priority matching, the
//! journal events it produces, and the decisions of the ingestion loop that
//! drives it.

use vstd::prelude::*;

pub mod catalog;
pub mod config;
pub mod depth;
pub mod engine;
pub mod journal;
pub mod key;
pub mod order;
pub mod order_book;
pub mod topic;

verus! {

} // verus!
