//! The bybit order-book feed: a book rebuilt from the same upsert-or-remove
//! level messages, without sequence buffering.

use vstd::prelude::*;

use crate::bitbank_depth::apply_levels;
use crate::bitbank_depth::apply_raw_levels;
use crate::bitbank_depth::levels_parse_ok;
use crate::bitbank_depth::levels_view;
use crate::book::OrderBook;
use crate::book::OrderBookSide;

verus! {

/// One orderbook message: the symbol, bid and ask levels as raw strings,
/// and the venue's update and cross sequence numbers.
pub struct BybitOrderbookData {
    pub s: String,
    pub b: Vec<(String, String)>,
    pub a: Vec<(String, String)>,
    pub u: i64,
    pub seq: i64,
}

/// The data the book keeps from a message: both level lists parse.
pub open spec fn bybit_data_wf(d: &BybitOrderbookData) -> bool {
    levels_parse_ok(levels_view(d.a@)) && levels_parse_ok(levels_view(d.b@))
}

/// The bybit book: asks and bids, both ascending by price.
pub struct BybitDepth {
    pub book: OrderBook,
}

impl BybitDepth {
    pub open spec fn wf(&self) -> bool {
        self.book.wf()
    }

    pub fn new() -> (r: BybitDepth)
        ensures
            r.wf(),
            r.book.asks@.len() == 0,
            r.book.bids@.len() == 0,
    {
        BybitDepth { book: OrderBook::new() }
    }

    /// Apply one orderbook message: each level upserts its price, a zero
    /// quantity removes it.
    pub fn update(&mut self, data: BybitOrderbookData)
        requires
            old(self).wf(),
            bybit_data_wf(&data),
        ensures
            final(self).wf(),
            final(self).book.asks.price_map() == apply_levels(
                old(self).book.asks.price_map(),
                levels_view(data.a@),
            ),
            final(self).book.bids.price_map() == apply_levels(
                old(self).book.bids.price_map(),
                levels_view(data.b@),
            ),
    {
        apply_raw_levels(&mut self.book.asks, &data.a);
        apply_raw_levels(&mut self.book.bids, &data.b);
    }

    /// The ask side of the book, ascending by price.
    pub fn asks(&self) -> (r: &OrderBookSide)
        ensures
            r == &self.book.asks,
    {
        &self.book.asks
    }

    /// The bid side of the book, ascending by price.
    pub fn bids(&self) -> (r: &OrderBookSide)
        ensures
            r == &self.book.bids,
    {
        &self.book.bids
    }
}

} // verus!
