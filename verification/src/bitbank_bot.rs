//! Inbound feed messages, the events handed to strategies, and the
//! per-message transition that keeps a pair's book current.
//!
//! The runtime around the library reads the venue's feed and calls
//! `process_inbound` for each message; the returned event, when there is
//! one, is dispatched to the strategy. A book-update event is only produced
//! once the book is complete.

use vstd::prelude::*;

use crate::bitbank_depth::apply_levels;
use crate::bitbank_depth::buf_insert;
use crate::bitbank_depth::buf_keep_from;
use crate::bitbank_depth::diff_view;
use crate::bitbank_depth::diff_wf;
use crate::bitbank_depth::levels_view;
use crate::bitbank_depth::replay_asks;
use crate::bitbank_depth::replay_bids;
use crate::bitbank_depth::whole_wf;
use crate::bitbank_depth::BitbankDepth;
use crate::bitbank_depth::BitbankDepthDiff;
use crate::bitbank_depth::BitbankDepthWhole;

verus! {

/// Ticker fields, passed through to strategies untouched.
pub struct BitbankTickerResponse {
    pub sell: Option<String>,
    pub buy: Option<String>,
    pub high: String,
    pub low: String,
    pub open_price: String,
    pub last: String,
    pub vol: String,
    pub timestamp: i64,
}

/// Circuit-break information, passed through to strategies untouched.
pub struct BitbankCircuitBreakInfo {
    pub mode: String,
    pub estimated_itayose_price: Option<String>,
    pub estimated_itayose_amount: Option<String>,
    pub itayose_upper_price: Option<String>,
    pub itayose_lower_price: Option<String>,
    pub upper_trigger_price: Option<String>,
    pub lower_trigger_price: Option<String>,
    pub fee_type: String,
    pub reopen_timestamp: Option<i64>,
    pub timestamp: i64,
}

/// One public trade: amount and price as scaled integers, the side, and the
/// venue's identifiers.
pub struct BitbankTransactionDatum {
    pub amount: u64,
    pub executed_at: i64,
    pub price: u64,
    pub side: String,
    pub transaction_id: i64,
}

/// Raw messages forwarded from the venue's feed for one pair.
pub enum BitbankInboundMessage {
    Ticker(BitbankTickerResponse),
    Transactions(Vec<BitbankTransactionDatum>),
    DepthDiff(BitbankDepthDiff),
    DepthWhole(BitbankDepthWhole),
    CircuitBreakInfo(BitbankCircuitBreakInfo),
}

/// Events handed to strategies. `DepthUpdated` only fires once a complete
/// book is available for the pair.
pub enum BitbankEvent {
    Ticker { pair: String, ticker: BitbankTickerResponse },
    Transactions { pair: String, transactions: Vec<BitbankTransactionDatum> },
    DepthUpdated { pair: String, depth: BitbankDepth },
    CircuitBreakInfo { pair: String, info: BitbankCircuitBreakInfo },
}

/// The inputs on which a message can be applied: its book levels parse, and
/// a snapshot carries no zero quantity.
pub open spec fn message_wf(message: &BitbankInboundMessage) -> bool {
    match message {
        BitbankInboundMessage::DepthDiff(d) => diff_wf(diff_view(d)),
        BitbankInboundMessage::DepthWhole(w) => whole_wf(w),
        _ => true,
    }
}

/// Two book states that read the same: equal sides, buffer, completeness
/// and timestamp.
pub open spec fn depth_equiv(a: &BitbankDepth, b: &BitbankDepth) -> bool {
    &&& a.book.asks@ == b.book.asks@
    &&& a.book.bids@ == b.book.bids@
    &&& a.buffer() == b.buffer()
    &&& a.is_complete == b.is_complete
    &&& a.last_timestamp == b.last_timestamp
}

/// Apply one inbound message to the pair's book and produce the event to
/// dispatch, if any: tickers, trades and circuit-break information pass
/// through; a diff or snapshot updates the book and yields a book-update
/// event exactly when the book is complete afterwards.
pub fn process_inbound(
    depth: &mut BitbankDepth,
    pair: &str,
    message: BitbankInboundMessage,
) -> (r: Option<BitbankEvent>)
    requires
        old(depth).wf(),
        message_wf(&message),
    ensures
        final(depth).wf(),
        message matches BitbankInboundMessage::Ticker(t) ==> *final(depth) == *old(depth) && (
        r matches Some(e) && e matches BitbankEvent::Ticker { pair: p, ticker } && p@ == pair@
            && ticker == t),
        message matches BitbankInboundMessage::Transactions(ts) ==> *final(depth) == *old(depth) && (
        r matches Some(e) && e matches BitbankEvent::Transactions { pair: p, transactions } && p@
            == pair@ && transactions == ts),
        message matches BitbankInboundMessage::CircuitBreakInfo(ci) ==> *final(depth) == *old(
            depth,
        ) && (r matches Some(e) && e matches BitbankEvent::CircuitBreakInfo { pair: p, info }
            && p@ == pair@ && info == ci),
        message matches BitbankInboundMessage::DepthDiff(d) ==> {
            &&& final(depth).book.asks.price_map() == apply_levels(
                old(depth).book.asks.price_map(),
                diff_view(&d).a,
            )
            &&& final(depth).book.bids.price_map() == apply_levels(
                old(depth).book.bids.price_map(),
                diff_view(&d).b,
            )
            &&& final(depth).buffer() == buf_insert(old(depth).buffer(), diff_view(&d))
            &&& final(depth).last_timestamp == if old(depth).last_timestamp >= d.t {
                old(depth).last_timestamp
            } else {
                d.t
            }
            &&& final(depth).is_complete == old(depth).is_complete
            &&& (r is Some <==> final(depth).is_complete)
            &&& (r matches Some(e) ==> e matches BitbankEvent::DepthUpdated { pair: p, depth: nd }
                && p@ == pair@ && depth_equiv(&nd, &*final(depth)))
        },
        message matches BitbankInboundMessage::DepthWhole(w) ==> {
            &&& final(depth).book.asks.price_map() == replay_asks(
                apply_levels(Map::<int, int>::empty(), levels_view(w.asks@)),
                buf_keep_from(old(depth).buffer(), w.sequence_id@),
            )
            &&& final(depth).book.bids.price_map() == replay_bids(
                apply_levels(Map::<int, int>::empty(), levels_view(w.bids@)),
                buf_keep_from(old(depth).buffer(), w.sequence_id@),
            )
            &&& final(depth).buffer() == buf_keep_from(old(depth).buffer(), w.sequence_id@)
            &&& final(depth).last_timestamp == if old(depth).last_timestamp >= w.timestamp {
                old(depth).last_timestamp
            } else {
                w.timestamp
            }
            &&& final(depth).is_complete
            &&& (r matches Some(e) && e matches BitbankEvent::DepthUpdated { pair: p, depth: nd }
                && p@ == pair@ && depth_equiv(&nd, &*final(depth)))
        },
{
    match message {
        BitbankInboundMessage::Ticker(ticker) => Some(
            BitbankEvent::Ticker { pair: pair.to_owned(), ticker },
        ),
        BitbankInboundMessage::Transactions(transactions) => Some(
            BitbankEvent::Transactions { pair: pair.to_owned(), transactions },
        ),
        BitbankInboundMessage::DepthDiff(depth_diff) => {
            depth.insert_diff(depth_diff);
            if depth.is_complete() {
                Some(BitbankEvent::DepthUpdated { pair: pair.to_owned(), depth: depth.duplicate() })
            } else {
                None
            }
        },
        BitbankInboundMessage::DepthWhole(depth_whole) => {
            depth.update_whole(depth_whole);
            if depth.is_complete() {
                Some(BitbankEvent::DepthUpdated { pair: pair.to_owned(), depth: depth.duplicate() })
            } else {
                None
            }
        },
        BitbankInboundMessage::CircuitBreakInfo(info) => Some(
            BitbankEvent::CircuitBreakInfo { pair: pair.to_owned(), info },
        ),
    }
}

/// The strategy interface: the runtime owns the strategy and hands it one
/// event at a time; the strategy reports whether its orders should be
/// refreshed.
pub trait BotStrategy {
    type Event;

    fn handle_event(&mut self, event: Self::Event) -> bool;
}

/// Strategies that consume the multi-pair event stream.
pub trait MultiBotStrategy: BotStrategy<Event = BitbankEvent> {

}

impl<T: BotStrategy<Event = BitbankEvent>> MultiBotStrategy for T {

}

} // verus!
