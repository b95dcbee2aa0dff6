//! One event of a trade stream.

use vstd::prelude::*;

verus! {

/// One trade or order-book event.
///
/// `price` and `size` are binary32 numbers, held as their bit patterns.
#[derive(Clone, Copy, Debug, PartialEq)]
pub struct Update {
    pub ts: u64,
    pub seq: u32,
    pub is_trade: bool,
    pub is_bid: bool,
    pub price: u32,
    pub size: u32,
}

} // verus!
