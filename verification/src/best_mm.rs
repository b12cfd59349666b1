//! The best-quote market-making strategy.
//!
//! The bot keeps the reconstructed book and a refresh throttle. On each
//! trigger it decides, from the best bid and ask, the tick size and the
//! balances, which buy and sell orders it wants resting, improving the
//! current best quotes by one tick where that neither crosses the spread nor
//! duplicates an order it already has.

use vstd::prelude::*;

use crate::bitbank_bot::BitbankEvent;
use crate::bitbank_bot::BotStrategy;
use crate::bitbank_depth::BitbankDepth;
use crate::num::mul_u64;
use crate::num::sat128;
use crate::num::sat_add_u128;
use crate::order_manager::live_view;
use crate::order_manager::live_views;
use crate::order_manager::BitbankGetOrderResponse;
use crate::order_manager::LiveView;
use crate::order_manager::OrderView;
use crate::order_manager::SimplifiedOrder;

verus! {

/// Strategy parameters: the pair, the price tick, the refresh throttle in
/// milliseconds, the unit order size and the position cap.
pub struct MyBotConfig {
    pub pair: String,
    pub tick_size: u64,
    pub refresh_cycle: u128,
    pub lot: u64,
    pub max_lot: u64,
}

/// The market-making bot: configuration, its own view of the book, the
/// throttle stamp and the last best quotes it observed.
pub struct MyBot {
    pub bot_config: MyBotConfig,
    pub depth: BitbankDepth,
    pub last_updated: u128,
    pub last_bestbid: u64,
    pub last_bestask: u64,
}

/// Quote capital locked in open limit buy orders: the sum of price times
/// remaining amount over them.
pub open spec fn spec_locked_quote(live: Seq<LiveView>) -> int
    decreases live.len(),
{
    if live.len() == 0 {
        0
    } else {
        (if live[0].order_type == "limit"@ && live[0].ord.side == "buy"@ {
            live[0].ord.price * live[0].ord.amount
        } else {
            0
        }) + spec_locked_quote(live.drop_first())
    }
}

/// Whether an open limit order of the given side rests exactly at `price`.
pub open spec fn spec_has_order_at(live: Seq<LiveView>, side: Seq<char>, price: u64) -> bool {
    exists|i: int|
        0 <= i < live.len() && (#[trigger] live[i]).order_type == "limit"@ && live[i].ord.side
            == side && live[i].ord.price == price
}

impl MyBot {
    pub open spec fn wf(&self) -> bool {
        self.depth.wf()
    }

    /// A bot with the given parameters, an empty incomplete book, and no
    /// refresh performed yet.
    pub fn new(
        pair: String,
        tick_size: u64,
        refresh_cycle: u128,
        lot: u64,
        max_lot: u64,
    ) -> (r: MyBot)
        ensures
            r.wf(),
            r.bot_config.pair@ == pair@,
            r.bot_config.tick_size == tick_size,
            r.bot_config.refresh_cycle == refresh_cycle,
            r.bot_config.lot == lot,
            r.bot_config.max_lot == max_lot,
            r.last_updated == 0,
            r.last_bestbid == 0,
            r.last_bestask == 0,
            !r.depth.is_complete,
    {
        MyBot {
            bot_config: MyBotConfig { pair, tick_size, refresh_cycle, lot, max_lot },
            depth: BitbankDepth::new(),
            last_updated: 0,
            last_bestbid: 0,
            last_bestask: 0,
        }
    }

    /// The throttle gate of the refresh routine. When the refresh cycle has
    /// elapsed and the book is complete, the throttle stamp is advanced to
    /// `now` immediately, so overlapping triggers cannot re-enter. The
    /// refresh may proceed only when, in addition, both book sides have
    /// data.
    pub fn begin_refresh(&mut self, now: u128) -> (proceed: bool)
        requires
            old(self).last_updated <= now,
        ensures
            final(self).bot_config == old(self).bot_config,
            final(self).depth == old(self).depth,
            final(self).last_bestbid == old(self).last_bestbid,
            final(self).last_bestask == old(self).last_bestask,
            final(self).last_updated == if now - old(self).last_updated
                >= old(self).bot_config.refresh_cycle && old(self).depth.is_complete {
                now
            } else {
                old(self).last_updated
            },
            proceed == (now - old(self).last_updated >= old(self).bot_config.refresh_cycle
                && old(self).depth.is_complete && old(self).depth.book.asks@.len() > 0 && old(
                self,
            ).depth.book.bids@.len() > 0),
    {
        if now - self.last_updated < self.bot_config.refresh_cycle {
            return false;
        }
        if !self.depth.is_complete() {
            return false;
        }
        self.last_updated = now;
        let has_ask = self.depth.book.asks.len() > 0;
        let has_bid = self.depth.book.bids.len() > 0;
        has_ask && has_bid
    }

    /// The desired resting orders for one refresh.
    ///
    /// `btc_free_amount` and `btc_locked_amount` are the base-asset balances;
    /// `jpy_free_amount` is the free quote balance in amount-times-price
    /// units. The full base position is free plus locked; the usable quote
    /// is free plus what open limit buys have locked. A buy of one lot is
    /// wanted when that quote covers it and the position cap allows it; a
    /// sell of one lot plus the fractional-lot remainder is wanted when the
    /// base position holds at least one lot.
    pub fn build_desired_orders(
        &self,
        active_orders: &Vec<BitbankGetOrderResponse>,
        btc_free_amount: u64,
        btc_locked_amount: u64,
        jpy_free_amount: u128,
    ) -> (r: Vec<SimplifiedOrder>)
        requires
            self.depth.book.asks@.len() > 0,
            self.depth.book.bids@.len() > 0,
            self.bot_config.lot > 0,
            self.bot_config.lot <= u64::MAX / 2,
            self.bot_config.tick_size <= self.depth.book.asks@[0].0,
            self.depth.book.bids@.last().0 + self.bot_config.tick_size <= u64::MAX,
        ensures
            ({
                let live = live_views(active_orders@);
                let ask = self.depth.book.asks@[0].0;
                let bid = self.depth.book.bids@.last().0;
                let has_ask_order = spec_has_order_at(live, "sell"@, ask);
                let has_bid_order = spec_has_order_at(live, "buy"@, bid);
                let sell_price = if has_ask_order || ask - self.bot_config.tick_size == bid {
                    ask
                } else {
                    (ask - self.bot_config.tick_size) as u64
                };
                let buy_price = if has_bid_order || bid + self.bot_config.tick_size == ask {
                    bid
                } else {
                    (bid + self.bot_config.tick_size) as u64
                };
                let base_amount = btc_free_amount + btc_locked_amount;
                let remainder = base_amount % (self.bot_config.lot as int);
                let quote_amount = sat128(jpy_free_amount + spec_locked_quote(live));
                let can_buy = quote_amount >= buy_price * self.bot_config.lot && base_amount
                    + self.bot_config.lot <= self.bot_config.max_lot;
                let can_sell = base_amount >= self.bot_config.lot;
                let views = crate::order_manager::order_views(r@);
                &&& views.len() == (if can_buy {
                    1int
                } else {
                    0int
                }) + (if can_sell {
                    1int
                } else {
                    0int
                })
                &&& can_buy ==> views[0] == (OrderView {
                    pair: self.bot_config.pair@,
                    side: "buy"@,
                    amount: self.bot_config.lot,
                    price: buy_price,
                })
                &&& can_sell ==> views[views.len() - 1] == (OrderView {
                    pair: self.bot_config.pair@,
                    side: "sell"@,
                    amount: (self.bot_config.lot + remainder) as u64,
                    price: sell_price,
                })
                &&& crate::order_manager::valid_sides(views)
            }),
    {
        let ghost live = live_views(active_orders@);
        let best_ask_price = self.depth.book.asks.level_at(0).0;
        let nb = self.depth.book.bids.len();
        let best_bid_price = self.depth.book.bids.level_at(nb - 1).0;

        let has_bestask_order = has_order_at(active_orders, "sell", best_ask_price);
        let has_bestbid_order = has_order_at(active_orders, "buy", best_bid_price);

        // One-tick improvement, but never cross the spread and never leave a
        // well-placed order.
        let sell_price = if has_bestask_order || best_ask_price - self.bot_config.tick_size
            == best_bid_price {
            best_ask_price
        } else {
            best_ask_price - self.bot_config.tick_size
        };
        let buy_price = if has_bestbid_order || best_bid_price + self.bot_config.tick_size
            == best_ask_price {
            best_bid_price
        } else {
            best_bid_price + self.bot_config.tick_size
        };

        let btc_locked_jpy_amount = locked_quote_in_buy_orders(active_orders);
        let base_amount: u128 = btc_free_amount as u128 + btc_locked_amount as u128;
        let remainder: u128 = base_amount % (self.bot_config.lot as u128);
        let quote_amount = sat_add_u128(jpy_free_amount, btc_locked_jpy_amount);
        proof {
            lemma_locked_quote_nonneg(live);
            crate::num::lemma_sat_add_collapses(
                jpy_free_amount as int,
                spec_locked_quote(live),
            );
        }

        let buy_cost = mul_u64(buy_price, self.bot_config.lot);
        let can_buy = quote_amount >= buy_cost && base_amount + self.bot_config.lot as u128
            <= self.bot_config.max_lot as u128;
        let can_sell = base_amount >= self.bot_config.lot as u128;

        let mut wanna_place_orders: Vec<SimplifiedOrder> = Vec::new();
        if can_buy {
            wanna_place_orders.push(
                SimplifiedOrder {
                    pair: self.bot_config.pair.clone(),
                    side: string_from("buy"),
                    amount: self.bot_config.lot,
                    price: buy_price,
                },
            );
        }
        if can_sell {
            proof {
                assert(remainder < self.bot_config.lot);
            }
            wanna_place_orders.push(
                SimplifiedOrder {
                    pair: self.bot_config.pair.clone(),
                    side: string_from("sell"),
                    amount: self.bot_config.lot + (remainder as u64),
                    price: sell_price,
                },
            );
        }
        proof {
            let views = crate::order_manager::order_views(wanna_place_orders@);
            assert forall|j: int| 0 <= j < views.len() implies #[trigger] views[j]
                == wanna_place_orders@[j]@ by {}
        }
        wanna_place_orders
    }
}

impl MyBot {
    /// Apply one dispatched event to the bot's own state and report whether
    /// the orders should be refreshed: after a trade on the pair, and after
    /// every update that leaves the book complete. A book update replaces
    /// the bot's book and, while the book is complete with data on both
    /// sides, records the best quotes seen.
    pub fn apply_event(&mut self, event: BitbankEvent) -> (refresh: bool)
        ensures
            final(self).bot_config == old(self).bot_config,
            final(self).last_updated == old(self).last_updated,
            event matches BitbankEvent::Ticker { .. } ==> *final(self) == *old(self) && !refresh,
            event matches BitbankEvent::CircuitBreakInfo { .. } ==> *final(self) == *old(self)
                && !refresh,
            event matches BitbankEvent::Transactions { .. } ==> *final(self) == *old(self)
                && refresh,
            event matches BitbankEvent::DepthUpdated { depth: d, .. } ==> {
                &&& final(self).depth == d
                &&& refresh == d.is_complete
                &&& if d.is_complete && d.book.asks@.len() > 0 && d.book.bids@.len() > 0 {
                    final(self).last_bestask == d.book.asks@[0].0 && final(self).last_bestbid
                        == d.book.bids@.last().0
                } else {
                    final(self).last_bestask == old(self).last_bestask && final(self).last_bestbid
                        == old(self).last_bestbid
                }
            },
    {
        match event {
            BitbankEvent::Transactions { .. } => true,
            BitbankEvent::DepthUpdated { depth, .. } => {
                if depth.is_complete() {
                    let ask = depth.book.best_ask();
                    let bid = depth.book.best_bid();
                    match (ask, bid) {
                        (Some(a), Some(b)) => {
                            if a.0 != self.last_bestask || b.0 != self.last_bestbid {
                                self.last_bestask = a.0;
                                self.last_bestbid = b.0;
                            }
                        },
                        _ => {},
                    }
                }
                self.depth = depth;
                self.depth.is_complete()
            },
            BitbankEvent::CircuitBreakInfo { .. } => false,
            BitbankEvent::Ticker { .. } => false,
        }
    }
}

impl BotStrategy for MyBot {
    type Event = BitbankEvent;

    fn handle_event(&mut self, event: BitbankEvent) -> bool {
        self.apply_event(event)
    }
}

/// A `String` holding the given characters.
fn string_from(s: &str) -> (r: String)
    ensures
        r@ == s@,
{
    s.to_owned()
}

/// Whether an open limit order of `side` rests exactly at `price`.
fn has_order_at(orders: &Vec<BitbankGetOrderResponse>, side: &str, price: u64) -> (r: bool)
    ensures
        r == spec_has_order_at(live_views(orders@), side@, price),
{
    let ghost live = live_views(orders@);
    let n = orders.len();
    let mut i: usize = 0;
    while i < n
        invariant
            n == orders@.len(),
            live == live_views(orders@),
            i <= n,
            forall|j: int| 0 <= j < i ==> !((#[trigger] live[j]).order_type == "limit"@
                && live[j].ord.side == side@ && live[j].ord.price == price),
        decreases n - i,
    {
        proof {
            assert(live[i as int] == live_view(&orders@[i as int]));
        }
        let o = &orders[i];
        if crate::strlex::str_eq(o.order_type.as_str(), "limit") && crate::strlex::str_eq(o.side.as_str(), side) && o.price
            == price {
            return true;
        }
        i += 1;
    }
    proof {
        if spec_has_order_at(live, side@, price) {
            let w = choose|w: int|
                0 <= w < live.len() && (#[trigger] live[w]).order_type == "limit"@
                    && live[w].ord.side == side@ && live[w].ord.price == price;
        }
    }
    false
}

/// The quote capital locked in open limit buy orders, saturating at
/// `u128::MAX`.
pub fn locked_quote_in_buy_orders(orders: &Vec<BitbankGetOrderResponse>) -> (r: u128)
    ensures
        r == sat128(spec_locked_quote(live_views(orders@))),
{
    let ghost live = live_views(orders@);
    let n = orders.len();
    let mut acc: u128 = 0;
    let mut i: usize = 0;
    proof {
        assert(live.subrange(0, 0) =~= Seq::<LiveView>::empty());
    }
    while i < n
        invariant
            n == orders@.len(),
            live == live_views(orders@),
            i <= n,
            acc == sat128(spec_locked_quote(live.subrange(0, i as int))),
        decreases n - i,
    {
        proof {
            assert(live[i as int] == live_view(&orders@[i as int]));
        }
        let o = &orders[i];
        if crate::strlex::str_eq(o.order_type.as_str(), "limit") && crate::strlex::str_eq(o.side.as_str(), "buy") {
            let cost = mul_u64(o.price, o.remaining_amount);
            acc = sat_add_u128(acc, cost);
            proof {
                lemma_locked_quote_nonneg(live.subrange(0, i as int));
                assert(live[i as int].ord.price * live[i as int].ord.amount >= 0)
                    by (nonlinear_arith)
                    requires
                        live[i as int].ord.price >= 0,
                        live[i as int].ord.amount >= 0,
                ;
                crate::num::lemma_sat_add_collapses(
                    live[i as int].ord.price * live[i as int].ord.amount,
                    spec_locked_quote(live.subrange(0, i as int)),
                );
            }
        }
        proof {
            lemma_locked_quote_step(live, i as int);
        }
        i += 1;
    }
    proof {
        assert(live.subrange(0, n as int) =~= live);
    }
    acc
}

/// Unfolding the locked-quote sum one order at a time, front first.
proof fn lemma_locked_quote_step(live: Seq<LiveView>, i: int)
    requires
        0 <= i < live.len(),
    ensures
        spec_locked_quote(live.subrange(0, i + 1)) == spec_locked_quote(live.subrange(0, i)) + (
        if live[i].order_type == "limit"@ && live[i].ord.side == "buy"@ {
            live[i].ord.price * live[i].ord.amount
        } else {
            0
        }),
{
    lemma_locked_quote_append(live.subrange(0, i + 1));
    assert(live.subrange(0, i + 1).drop_last() =~= live.subrange(0, i));
    assert(live.subrange(0, i + 1).last() == live[i]);
}

/// The front-first sum equals the same sum peeled from the back.
proof fn lemma_locked_quote_append(live: Seq<LiveView>)
    requires
        live.len() > 0,
    ensures
        spec_locked_quote(live) == spec_locked_quote(live.drop_last()) + (if live.last().order_type
            == "limit"@ && live.last().ord.side == "buy"@ {
            live.last().ord.price * live.last().ord.amount
        } else {
            0
        }),
    decreases live.len(),
{
    if live.len() == 1 {
        assert(live.drop_last() =~= Seq::<LiveView>::empty());
        assert(live.drop_first() =~= Seq::<LiveView>::empty());
    } else {
        let tail = live.drop_first();
        lemma_locked_quote_append(tail);
        assert(tail.last() == live.last());
        assert(tail.drop_last() =~= live.drop_last().drop_first());
        assert(live.drop_last()[0] == live[0]);
        assert(live.drop_last().len() > 0);
    }
}

/// The locked-quote sum never goes negative.
pub proof fn lemma_locked_quote_nonneg(live: Seq<LiveView>)
    ensures
        spec_locked_quote(live) >= 0,
    decreases live.len(),
{
    if live.len() > 0 {
        lemma_locked_quote_nonneg(live.drop_first());
        let l = live[0];
        if l.order_type == "limit"@ && l.ord.side == "buy"@ {
            assert(l.ord.price * l.ord.amount >= 0) by (nonlinear_arith)
                requires
                    l.ord.price >= 0,
                    l.ord.amount >= 0,
            ;
        }
    }
}

} // verus!
