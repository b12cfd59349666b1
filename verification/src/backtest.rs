//! A deterministic simulated venue for backtesting.
//!
//! The simulator keeps a ledger of free and locked balances and a table of
//! open orders. Placing an order moves its cost from the free to the locked
//! bucket, cancelling moves it back, and a fill settles it against the
//! other asset minus fees. Balances are held as `u128` scaled integers:
//! base amounts in amount units, quote values in amount-times-price units;
//! where a credit would leave the representable range the ledger clamps at
//! the ceiling instead of failing.

use vstd::prelude::*;

use crate::num::sat128;
use crate::num::sat_add_u128;
use crate::order_manager::BitbankCancelOrderResponse;
use crate::order_manager::BitbankCancelOrdersResponse;
use crate::order_manager::BitbankCreateOrderResponse;

verus! {

#[derive(PartialEq, Eq, Structural, Clone, Copy)]
pub enum OrderSide {
    Buy,
    Sell,
}

/// An open simulated order.
#[derive(Clone, Copy)]
pub struct SimulatedOrder {
    pub id: u64,
    pub side: OrderSide,
    pub price: u64,
    pub amount: u64,
    pub remaining: u64,
}

/// What one order contributes to the locked quote balance.
pub open spec fn buy_term(o: SimulatedOrder) -> int {
    if o.side == OrderSide::Buy {
        o.price * o.remaining
    } else {
        0
    }
}

/// What one order contributes to the locked base balance.
pub open spec fn sell_term(o: SimulatedOrder) -> int {
    if o.side == OrderSide::Sell {
        o.remaining as int
    } else {
        0
    }
}

/// Quote locked across all open buy orders.
pub open spec fn buys_locked(s: Seq<SimulatedOrder>) -> int
    decreases s.len(),
{
    if s.len() == 0 {
        0
    } else {
        buys_locked(s.drop_last()) + buy_term(s.last())
    }
}

/// Base locked across all open sell orders.
pub open spec fn sells_locked(s: Seq<SimulatedOrder>) -> int
    decreases s.len(),
{
    if s.len() == 0 {
        0
    } else {
        sells_locked(s.drop_last()) + sell_term(s.last())
    }
}

pub proof fn lemma_terms_nonneg(o: SimulatedOrder)
    ensures
        buy_term(o) >= 0,
        sell_term(o) >= 0,
{
    if o.side == OrderSide::Buy {
        assert(o.price * o.remaining >= 0) by (nonlinear_arith)
            requires
                o.price >= 0,
                o.remaining >= 0,
        ;
    }
}

pub proof fn lemma_locked_nonneg(s: Seq<SimulatedOrder>)
    ensures
        buys_locked(s) >= 0,
        sells_locked(s) >= 0,
    decreases s.len(),
{
    if s.len() > 0 {
        lemma_locked_nonneg(s.drop_last());
        lemma_terms_nonneg(s.last());
    }
}

/// Removing one order takes exactly its term out of each locked sum.
pub proof fn lemma_locked_remove(s: Seq<SimulatedOrder>, i: int)
    requires
        0 <= i < s.len(),
    ensures
        buys_locked(s.remove(i)) == buys_locked(s) - buy_term(s[i]),
        sells_locked(s.remove(i)) == sells_locked(s) - sell_term(s[i]),
    decreases s.len(),
{
    if i == s.len() - 1 {
        assert(s.remove(i) =~= s.drop_last());
    } else {
        assert(s.remove(i).drop_last() =~= s.drop_last().remove(i));
        assert(s.remove(i).last() == s.last());
        assert(s.drop_last()[i] == s[i]);
        lemma_locked_remove(s.drop_last(), i);
    }
}

/// Appending one order adds exactly its term to each locked sum.
pub proof fn lemma_locked_push(s: Seq<SimulatedOrder>, o: SimulatedOrder)
    ensures
        buys_locked(s.push(o)) == buys_locked(s) + buy_term(o),
        sells_locked(s.push(o)) == sells_locked(s) + sell_term(o),
{
    assert(s.push(o).drop_last() =~= s);
    assert(s.push(o).last() == o);
}

/// Errors the simulated venue reports.
#[derive(Debug)]
pub enum BacktestApiError {
    InsufficientFunds { side: String, needed: u128, available: u128 },
    UnknownOrder { order_id: u64 },
    MissingPrice,
    ParseDecimal,
}

/// Ghost image of the ledger: the four balance buckets and the open orders.
pub struct LedgerView {
    pub base_free: int,
    pub base_locked: int,
    pub quote_free: int,
    pub quote_locked: int,
    pub orders: Seq<SimulatedOrder>,
}

pub open spec fn has_order(s: Seq<SimulatedOrder>, id: u64) -> bool {
    exists|i: int| 0 <= i < s.len() && (#[trigger] s[i]).id == id
}

pub open spec fn order_index(s: Seq<SimulatedOrder>, id: u64) -> int {
    choose|i: int| 0 <= i < s.len() && (#[trigger] s[i]).id == id
}

/// Cancelling one open order: its cost moves from the locked bucket back to
/// the free one and the order leaves the table.
pub open spec fn spec_cancel_one(l: LedgerView, id: u64) -> LedgerView {
    let i = order_index(l.orders, id);
    let o = l.orders[i];
    if o.side == OrderSide::Buy {
        LedgerView {
            quote_locked: l.quote_locked - o.price * o.remaining,
            quote_free: l.quote_free + o.price * o.remaining,
            orders: l.orders.remove(i),
            ..l
        }
    } else {
        LedgerView {
            base_locked: l.base_locked - o.remaining,
            base_free: l.base_free + o.remaining,
            orders: l.orders.remove(i),
            ..l
        }
    }
}

/// Cancelling a list of order ids in order, stopping at the first unknown
/// id: returns the ledger reached, the orders removed so far, and the
/// unknown id if one was hit.
pub open spec fn spec_cancel_all(l: LedgerView, ids: Seq<u64>) -> (
    LedgerView,
    Seq<SimulatedOrder>,
    Option<u64>,
)
    decreases ids.len(),
{
    if ids.len() == 0 {
        (l, Seq::<SimulatedOrder>::empty(), None::<u64>)
    } else if has_order(l.orders, ids[0]) {
        let o = l.orders[order_index(l.orders, ids[0])];
        let rec = spec_cancel_all(spec_cancel_one(l, ids[0]), ids.drop_first());
        (rec.0, seq![o] + rec.1, rec.2)
    } else {
        (l, Seq::<SimulatedOrder>::empty(), Some(ids[0]))
    }
}

/// What one equity observation does to the counters: the first observation
/// fixes the initial equity, the peak tracks the maximum seen, and the
/// drawdown tracks the deepest fall from a peak.
pub open spec fn spec_register_equity(m: BacktestMetrics, equity: u128) -> BacktestMetrics {
    let initial = if m.initial_equity is None {
        Some(equity)
    } else {
        m.initial_equity
    };
    let peak0 = if m.initial_equity is None {
        Some(equity)
    } else {
        m.equity_peak
    };
    let peak = match peak0 {
        Some(p) => if equity > p {
            equity
        } else {
            p
        },
        None => equity,
    };
    let dd = if peak - equity > m.max_drawdown {
        (peak - equity) as u128
    } else {
        m.max_drawdown
    };
    BacktestMetrics {
        total_orders: m.total_orders,
        trade_count: m.trade_count,
        total_fees: m.total_fees,
        initial_equity: initial,
        last_equity: Some(equity),
        equity_peak: Some(peak),
        max_drawdown: dd,
    }
}

/// Performance counters kept during a run.
pub struct BacktestMetrics {
    pub total_orders: usize,
    pub trade_count: usize,
    pub total_fees: u128,
    pub initial_equity: Option<u128>,
    pub last_equity: Option<u128>,
    pub equity_peak: Option<u128>,
    pub max_drawdown: u128,
}

impl BacktestMetrics {
    pub fn new() -> (r: BacktestMetrics)
        ensures
            r.total_orders == 0,
            r.trade_count == 0,
            r.total_fees == 0,
            r.initial_equity is None,
            r.last_equity is None,
            r.equity_peak is None,
            r.max_drawdown == 0,
    {
        BacktestMetrics {
            total_orders: 0,
            trade_count: 0,
            total_fees: 0,
            initial_equity: None,
            last_equity: None,
            equity_peak: None,
            max_drawdown: 0,
        }
    }

    /// Record a mark-to-market equity observation: the first becomes the
    /// initial equity, the peak tracks the maximum, and the drawdown tracks
    /// the deepest fall from a peak.
    pub fn register_equity(&mut self, equity: u128)
        ensures
            *final(self) == spec_register_equity(*old(self), equity),
{
        if self.initial_equity.is_none() {
            self.initial_equity = Some(equity);
            self.equity_peak = Some(equity);
        }
        let peak_now = match self.equity_peak {
            Some(p) => !(equity > p),
            None => false,
        };
        if !peak_now {
            self.equity_peak = Some(equity);
        }
        match self.equity_peak {
            Some(p) => {
                let drawdown = p - equity;
                if drawdown > self.max_drawdown {
                    self.max_drawdown = drawdown;
                }
            },
            None => {},
        }
        self.last_equity = Some(equity);
    }
}

/// The simulated venue's whole state: configuration, ledger, order table
/// and counters.
pub struct SimulatedState {
    pub pair: String,
    pub maker_fee_ppm: u32,
    pub taker_fee_ppm: u32,
    pub base_free: u128,
    pub base_locked: u128,
    pub quote_free: u128,
    pub quote_locked: u128,
    pub next_order_id: u64,
    pub open_orders: Vec<SimulatedOrder>,
    pub metrics: BacktestMetrics,
    pub last_mid: Option<u64>,
}

impl SimulatedState {
    pub open spec fn ledger(&self) -> LedgerView {
        LedgerView {
            base_free: self.base_free as int,
            base_locked: self.base_locked as int,
            quote_free: self.quote_free as int,
            quote_locked: self.quote_locked as int,
            orders: self.open_orders@,
        }
    }

    /// The ledger invariant: fee rates are fractions, the locked buckets
    /// are exactly what the open orders pin down, each side's two buckets
    /// fit the representable range together, and order ids are unique and
    /// below the id counter.
    pub open spec fn wf(&self) -> bool {
        &&& self.maker_fee_ppm <= 1_000_000
        &&& self.taker_fee_ppm <= 1_000_000
        &&& self.quote_locked == buys_locked(self.open_orders@)
        &&& self.base_locked == sells_locked(self.open_orders@)
        &&& self.base_free + self.base_locked <= u128::MAX
        &&& self.quote_free + self.quote_locked <= u128::MAX
        &&& forall|i: int| 0 <= i < self.open_orders@.len() ==> (#[trigger] self.open_orders@[i]).id
            < self.next_order_id
        &&& forall|i: int, j: int| 0 <= i < j < self.open_orders@.len() ==> (
        #[trigger] self.open_orders@[i]).id != (#[trigger] self.open_orders@[j]).id
    }

    /// A fresh simulator over one pair with the configured fee rates (parts
    /// per million) and starting balances.
    pub fn new(
        pair: String,
        maker_fee_ppm: u32,
        taker_fee_ppm: u32,
        initial_base: u128,
        initial_quote: u128,
    ) -> (r: SimulatedState)
        requires
            maker_fee_ppm <= 1_000_000,
            taker_fee_ppm <= 1_000_000,
        ensures
            r.wf(),
            r.pair@ == pair@,
            r.base_free == initial_base,
            r.quote_free == initial_quote,
            r.base_locked == 0,
            r.quote_locked == 0,
            r.next_order_id == 1,
            r.open_orders@.len() == 0,
            r.metrics.total_orders == 0,
            r.metrics.trade_count == 0,
            r.metrics.total_fees == 0,
            r.last_mid is None,
    {
        SimulatedState {
            pair,
            maker_fee_ppm,
            taker_fee_ppm,
            base_free: initial_base,
            base_locked: 0,
            quote_free: initial_quote,
            quote_locked: 0,
            next_order_id: 1,
            open_orders: Vec::new(),
            metrics: BacktestMetrics::new(),
            last_mid: None,
        }
    }

    /// Place a limit order: parse the amount and price, check the free
    /// balance of the funding asset, move the cost to the locked bucket and
    /// open the order. A side other than `"buy"` funds from the base asset,
    /// like a sell. Failures leave the ledger untouched.
    pub fn place_order(
        &mut self,
        pair: &str,
        amount: &str,
        price: Option<&str>,
        side: &str,
        post_only: bool,
    ) -> (r: Result<BitbankCreateOrderResponse, BacktestApiError>)
        requires
            old(self).wf(),
            old(self).next_order_id < u64::MAX,
            old(self).metrics.total_orders < usize::MAX,
        ensures
            final(self).wf(),
            final(self).pair == old(self).pair,
            final(self).last_mid == old(self).last_mid,
            !crate::decimal::parses_to_u64(amount@) ==> (r matches Err(
                BacktestApiError::ParseDecimal,
            )) && *final(self) == *old(self),
            ({
                match price {
                    Some(p) => crate::decimal::parses_to_u64(amount@)
                        && !crate::decimal::parses_to_u64(p@) ==> (r matches Err(
                        BacktestApiError::ParseDecimal,
                    )) && *final(self) == *old(self),
                    None => crate::decimal::parses_to_u64(amount@) ==> (r matches Err(
                        BacktestApiError::MissingPrice,
                    )) && *final(self) == *old(self),
                }
            }),
            ({
                let amt = crate::decimal::dec_val(amount@);
                match price {
                    None => true,
                    Some(p) => crate::decimal::parses_to_u64(amount@)
                        && crate::decimal::parses_to_u64(p@) ==> {
                    let px = crate::decimal::dec_val(p@);
                    let is_buy = side@ == "buy"@;
                    let needed = if is_buy {
                        px * amt
                    } else {
                        amt
                    };
                    let available = if is_buy {
                        old(self).quote_free as int
                    } else {
                        old(self).base_free as int
                    };
                    if available < needed {
                        &&& r matches Err(
                            BacktestApiError::InsufficientFunds { side: s, needed: n, available: a },
                        ) && (s@ == (if is_buy {
                            "buy"@
                        } else {
                            "sell"@
                        })) && n == needed && a == available
                        &&& *final(self) == *old(self)
                    } else {
                        &&& final(self).open_orders@ == old(self).open_orders@.push(
                            SimulatedOrder {
                                id: old(self).next_order_id,
                                side: if is_buy {
                                    OrderSide::Buy
                                } else {
                                    OrderSide::Sell
                                },
                                price: px as u64,
                                amount: amt as u64,
                                remaining: amt as u64,
                            },
                        )
                        &&& final(self).next_order_id == old(self).next_order_id + 1
                        &&& final(self).metrics.total_orders == old(self).metrics.total_orders + 1
                        &&& final(self).quote_free == old(self).quote_free - (if is_buy {
                            needed
                        } else {
                            0
                        })
                        &&& final(self).quote_locked == old(self).quote_locked + (if is_buy {
                            needed
                        } else {
                            0
                        })
                        &&& final(self).base_free == old(self).base_free - (if is_buy {
                            0
                        } else {
                            needed
                        })
                        &&& final(self).base_locked == old(self).base_locked + (if is_buy {
                            0
                        } else {
                            needed
                        })
                        &&& (r matches Ok(resp) && resp.order_id == old(self).next_order_id
                            && resp.pair@ == pair@ && resp.side@ == side@ && resp.order_type@
                            == "limit"@ && resp.start_amount == amt && resp.remaining_amount == amt
                            && resp.executed_amount == 0 && resp.price == px && resp.post_only
                            == post_only && resp.status@ == "UNFILLED"@)
                    }
                },
                }
            }),
    {
        let amt = match crate::decimal::parse_scaled(amount) {
            Some(a) => a,
            None => {
                return Err(BacktestApiError::ParseDecimal);
            },
        };
        let px = match price {
            Some(p) => match crate::decimal::parse_scaled(p) {
                Some(v) => v,
                None => {
                    return Err(BacktestApiError::ParseDecimal);
                },
            },
            None => {
                return Err(BacktestApiError::MissingPrice);
            },
        };
        let is_buy = crate::strlex::str_eq(side, "buy");
        let needed: u128 = if is_buy {
            crate::num::mul_u64(px, amt)
        } else {
            amt as u128
        };
        let available: u128 = if is_buy {
            self.quote_free
        } else {
            self.base_free
        };
        if available < needed {
            let side_name = if is_buy {
                sim_string("buy")
            } else {
                sim_string("sell")
            };
            return Err(BacktestApiError::InsufficientFunds { side: side_name, needed, available });
        }
        let order = SimulatedOrder {
            id: self.next_order_id,
            side: if is_buy {
                OrderSide::Buy
            } else {
                OrderSide::Sell
            },
            price: px,
            amount: amt,
            remaining: amt,
        };
        let ghost pre = self.open_orders@;
        if is_buy {
            proof {
                lemma_locked_nonneg(pre);
            }
            self.quote_free = self.quote_free - needed;
            self.quote_locked = self.quote_locked + needed;
        } else {
            proof {
                lemma_locked_nonneg(pre);
            }
            self.base_free = self.base_free - needed;
            self.base_locked = self.base_locked + needed;
        }
        self.next_order_id = self.next_order_id + 1;
        self.metrics.total_orders = self.metrics.total_orders + 1;
        self.open_orders.push(order);
        proof {
            lemma_locked_push(pre, order);
        }
        Ok(
            BitbankCreateOrderResponse {
                order_id: order.id,
                pair: pair.to_owned(),
                side: side.to_owned(),
                order_type: sim_string("limit"),
                start_amount: amt,
                remaining_amount: amt,
                executed_amount: 0,
                price: px,
                post_only,
                user_cancelable: true,
                average_price: px,
                ordered_at: 0,
                status: sim_string("UNFILLED"),
            },
        )
    }
}

/// The wire name of an order side.
pub open spec fn side_name(s: OrderSide) -> Seq<char> {
    if s == OrderSide::Buy {
        "buy"@
    } else {
        "sell"@
    }
}

/// What a cancellation response reports about the order it closed.
pub open spec fn cancel_resp_matches(
    resp: BitbankCancelOrderResponse,
    o: SimulatedOrder,
    pair: Seq<char>,
) -> bool {
    &&& resp.order_id == o.id
    &&& resp.pair@ == pair
    &&& resp.side@ == side_name(o.side)
    &&& resp.order_type@ == "limit"@
    &&& resp.start_amount == o.amount
    &&& resp.remaining_amount == o.remaining
    &&& resp.executed_amount == 0
    &&& resp.price == o.price
    &&& resp.status@ == "CANCELED_UNFILLED"@
}

impl SimulatedState {
    /// Cancel the given order ids in order, restoring each order's cost to
    /// the free bucket. An unknown id aborts the walk with an error; the
    /// cancellations already performed stand.
    pub fn cancel_orders(&mut self, order_ids: &Vec<u64>) -> (r: Result<
        BitbankCancelOrdersResponse,
        BacktestApiError,
    >)
        requires
            old(self).wf(),
        ensures
            final(self).wf(),
            final(self).pair == old(self).pair,
            final(self).metrics == old(self).metrics,
            final(self).last_mid == old(self).last_mid,
            final(self).next_order_id == old(self).next_order_id,
            ({
                let out = spec_cancel_all(old(self).ledger(), order_ids@);
                &&& final(self).ledger() == out.0
                &&& (out.2 matches Some(bad) ==> (r matches Err(
                    BacktestApiError::UnknownOrder { order_id },
                ) && order_id == bad))
                &&& (out.2 is None ==> (r matches Ok(resp) && resp.orders@.len() == out.1.len()
                    && (forall|i: int|
                    0 <= i < out.1.len() ==> cancel_resp_matches(
                        #[trigger] resp.orders@[i],
                        out.1[i],
                        old(self).pair@,
                    ))))
            }),
    {
        let ghost l0 = self.ledger();
        let ghost ids = order_ids@;
        let mut responses: Vec<BitbankCancelOrderResponse> = Vec::new();
        let ghost mut removed: Seq<SimulatedOrder> = Seq::<SimulatedOrder>::empty();
        let n = order_ids.len();
        proof {
            assert(ids.subrange(0, n as int) =~= ids);
        }
        let mut i: usize = 0;
        while i < n
            invariant
                n == ids.len(),
                ids == order_ids@,
                l0 == old(self).ledger(),
                i <= n,
                self.wf(),
                self.pair == old(self).pair,
                self.metrics == old(self).metrics,
                self.last_mid == old(self).last_mid,
                self.next_order_id == old(self).next_order_id,
                spec_cancel_all(l0, ids) == (
                    spec_cancel_all(self.ledger(), ids.subrange(i as int, n as int)).0,
                    removed + spec_cancel_all(self.ledger(), ids.subrange(i as int, n as int)).1,
                    spec_cancel_all(self.ledger(), ids.subrange(i as int, n as int)).2,
                ),
                responses@.len() == removed.len(),
                forall|k: int|
                    0 <= k < removed.len() ==> cancel_resp_matches(
                        #[trigger] responses@[k],
                        removed[k],
                        old(self).pair@,
                    ),
            decreases n - i,
        {
            let ghost tail = ids.subrange(i as int, n as int);
            proof {
                assert(tail[0] == ids[i as int]);
                assert(tail.drop_first() =~= ids.subrange(i + 1, n as int));
            }
            let id = order_ids[i];
            let m = self.open_orders.len();
            let mut j: usize = 0;
            while j < m && self.open_orders[j].id != id
                invariant
                    m == self.open_orders@.len(),
                    j <= m,
                    forall|k: int| 0 <= k < j ==> (#[trigger] self.open_orders@[k]).id != id,
                decreases m - j,
            {
                j += 1;
            }
            if j < m {
                let ghost pre = self.open_orders@;
                let ghost lpre = self.ledger();
                let o = self.open_orders[j];
                proof {
                    assert(has_order(pre, id)) by {
                        assert(pre[j as int].id == id);
                    }
                    let w = order_index(pre, id);
                    assert(pre[w].id == id);
                    if w != j as int {
                        assert(pre[w].id != pre[j as int].id);
                        assert(false);
                    }
                    lemma_locked_remove(pre, j as int);
                    lemma_locked_nonneg(pre.remove(j as int));
                    lemma_terms_nonneg(o);
                }
                self.open_orders.remove(j);
                let is_buy = matches!(o.side, OrderSide::Buy);
                if is_buy {
                    let refund = crate::num::mul_u64(o.price, o.remaining);
                    self.quote_locked = self.quote_locked - refund;
                    self.quote_free = self.quote_free + refund;
                } else {
                    self.base_locked = self.base_locked - o.remaining as u128;
                    self.base_free = self.base_free + o.remaining as u128;
                }
                responses.push(
                    BitbankCancelOrderResponse {
                        order_id: o.id,
                        pair: self.pair.clone(),
                        side: if is_buy {
                            sim_string("buy")
                        } else {
                            sim_string("sell")
                        },
                        order_type: sim_string("limit"),
                        start_amount: o.amount,
                        remaining_amount: o.remaining,
                        executed_amount: 0,
                        price: o.price,
                        post_only: true,
                        user_cancelable: true,
                        average_price: o.price,
                        ordered_at: 0,
                        canceled_at: Some(0),
                        status: sim_string("CANCELED_UNFILLED"),
                    },
                );
                proof {
                    assert(self.ledger() == spec_cancel_one(lpre, id));
                    let rec = spec_cancel_all(self.ledger(), ids.subrange(i + 1, n as int));
                    assert(spec_cancel_all(lpre, tail) == (rec.0, seq![o] + rec.1, rec.2));
                    assert(removed.push(o) + rec.1 =~= removed + (seq![o] + rec.1));
                    removed = removed.push(o);
                    assert forall|a: int, b: int|
                        0 <= a < b < self.open_orders@.len() implies (
                    #[trigger] self.open_orders@[a]).id != (#[trigger] self.open_orders@[b]).id by {
                        let a0 = if a < j {
                            a
                        } else {
                            a + 1
                        };
                        let b0 = if b < j {
                            b
                        } else {
                            b + 1
                        };
                        assert(self.open_orders@[a] == pre[a0]);
                        assert(self.open_orders@[b] == pre[b0]);
                    }
                    assert forall|a: int| 0 <= a < self.open_orders@.len() implies (
                    #[trigger] self.open_orders@[a]).id < self.next_order_id by {
                        let a0 = if a < j {
                            a
                        } else {
                            a + 1
                        };
                        assert(self.open_orders@[a] == pre[a0]);
                    }
                }
            } else {
                proof {
                    assert(!has_order(self.open_orders@, id)) by {
                        if has_order(self.open_orders@, id) {
                            let w = choose|w: int|
                                0 <= w < self.open_orders@.len() && (
                                #[trigger] self.open_orders@[w]).id == id;
                        }
                    }
                    assert(spec_cancel_all(self.ledger(), tail) == (
                        self.ledger(),
                        Seq::<SimulatedOrder>::empty(),
                        Some(id),
                    ));
                }
                return Err(BacktestApiError::UnknownOrder { order_id: id });
            }
            i += 1;
        }
        proof {
            let empty_tail = ids.subrange(n as int, n as int);
            assert(empty_tail =~= Seq::<u64>::empty());
            assert(spec_cancel_all(self.ledger(), empty_tail) == (
                self.ledger(),
                Seq::<SimulatedOrder>::empty(),
                None::<u64>,
            ));
            assert(removed + Seq::<SimulatedOrder>::empty() =~= removed);
        }
        Ok(BitbankCancelOrdersResponse { orders: responses })
    }
}

/// A `String` holding the given characters.
fn sim_string(s: &str) -> (r: String)
    ensures
        r@ == s@,
{
    s.to_owned()
}

/// One asset's balances as the venue reports them.
pub struct BitbankAssetDatum {
    pub asset: String,
    pub free_amount: u128,
    pub locked_amount: u128,
    pub onhand_amount: u128,
}

pub struct BitbankAssetsData {
    pub assets: Vec<BitbankAssetDatum>,
}

/// The pair name up to the first underscore: the base asset's name.
pub open spec fn base_asset_name(s: Seq<char>) -> Seq<char>
    decreases s.len(),
{
    if s.len() == 0 {
        s
    } else if s[0] as u32 == 95 {
        Seq::<char>::empty()
    } else {
        seq![s[0]] + base_asset_name(s.drop_first())
    }
}

/// When the first underscore sits at `k` (or there is none and `k` is the
/// length), the base asset name is the prefix up to `k`.
proof fn lemma_base_asset_prefix(s: Seq<char>, k: int)
    requires
        0 <= k <= s.len(),
        k < s.len() ==> s[k] as u32 == 95,
        forall|j: int| 0 <= j < k ==> (#[trigger] s[j]) as u32 != 95,
    ensures
        base_asset_name(s) == s.subrange(0, k),
    decreases k,
{
    if s.len() == 0 {
        assert(s.subrange(0, 0) =~= s);
    } else if k == 0 {
        if s[0] as u32 == 95 {
            assert(base_asset_name(s) =~= s.subrange(0, 0));
        } else {
            assert(k < s.len());
            assert(false);
        }
    } else {
        let t = s.drop_first();
        assert(forall|j: int| 0 <= j < k - 1 ==> (#[trigger] t[j]) == s[j + 1]);
        if k - 1 < t.len() {
            assert(t[k - 1] == s[k]);
        }
        lemma_base_asset_prefix(t, k - 1);
        assert(seq![s[0]] + t.subrange(0, k - 1) =~= s.subrange(0, k));
    }
}

/// The pair's base asset name, the part before the first underscore.
fn split_base_asset(pair: &str) -> (r: String)
    ensures
        r@ == base_asset_name(pair@),
{
    let n = pair.unicode_len();
    let mut k: usize = 0;
    while k < n && pair.get_char(k) as u32 != 95
        invariant
            n == pair@.len(),
            k <= n,
            forall|j: int| 0 <= j < k ==> (#[trigger] pair@[j]) as u32 != 95,
        decreases n - k,
    {
        k += 1;
    }
    proof {
        lemma_base_asset_prefix(pair@, k as int);
    }
    let prefix = pair.substring_char(0, k);
    prefix.to_owned()
}

impl SimulatedState {
    /// The open orders as the venue would report them.
    pub fn build_active_orders_response(&self) -> (r: Result<
        crate::order_manager::BitbankActiveOrdersResponse,
        BacktestApiError,
    >)
        ensures
            r matches Ok(resp) && resp.orders@.len() == self.open_orders@.len() && (forall|i: int|
                0 <= i < self.open_orders@.len() ==> {
                    let o = self.open_orders@[i];
                    let g = #[trigger] resp.orders@[i];
                    g.order_id == o.id && g.pair@ == self.pair@ && g.side@ == side_name(o.side)
                        && g.order_type@ == "limit"@ && g.remaining_amount == o.remaining
                        && g.price == o.price
                }),
    {
        let mut orders: Vec<crate::order_manager::BitbankGetOrderResponse> = Vec::new();
        let n = self.open_orders.len();
        let mut i: usize = 0;
        while i < n
            invariant
                n == self.open_orders@.len(),
                i <= n,
                orders@.len() == i,
                forall|k: int|
                    0 <= k < i ==> {
                        let o = self.open_orders@[k];
                        let g = #[trigger] orders@[k];
                        g.order_id == o.id && g.pair@ == self.pair@ && g.side@ == side_name(o.side)
                            && g.order_type@ == "limit"@ && g.remaining_amount == o.remaining
                            && g.price == o.price
                    },
            decreases n - i,
        {
            let o = self.open_orders[i];
            let is_buy = matches!(o.side, OrderSide::Buy);
            orders.push(
                crate::order_manager::BitbankGetOrderResponse {
                    order_id: o.id,
                    pair: self.pair.clone(),
                    side: if is_buy {
                        sim_string("buy")
                    } else {
                        sim_string("sell")
                    },
                    order_type: sim_string("limit"),
                    remaining_amount: o.remaining,
                    price: o.price,
                },
            );
            i += 1;
        }
        Ok(crate::order_manager::BitbankActiveOrdersResponse { orders })
    }

    /// The account's balances: the base asset named from the pair, and the
    /// quote asset `jpy`.
    pub fn build_assets_snapshot(&self) -> (r: BitbankAssetsData)
        requires
            self.wf(),
        ensures
            r.assets@.len() == 2,
            r.assets@[0].asset@ == base_asset_name(self.pair@),
            r.assets@[0].free_amount == self.base_free,
            r.assets@[0].locked_amount == self.base_locked,
            r.assets@[0].onhand_amount == self.base_free + self.base_locked,
            r.assets@[1].asset@ == "jpy"@,
            r.assets@[1].free_amount == self.quote_free,
            r.assets@[1].locked_amount == self.quote_locked,
            r.assets@[1].onhand_amount == self.quote_free + self.quote_locked,
    {
        let mut assets: Vec<BitbankAssetDatum> = Vec::new();
        let base_asset = split_base_asset(self.pair.as_str());
        assets.push(
            BitbankAssetDatum {
                asset: base_asset,
                free_amount: self.base_free,
                locked_amount: self.base_locked,
                onhand_amount: self.base_free + self.base_locked,
            },
        );
        assets.push(
            BitbankAssetDatum {
                asset: sim_string("jpy"),
                free_amount: self.quote_free,
                locked_amount: self.quote_locked,
                onhand_amount: self.quote_free + self.quote_locked,
            },
        );
        BitbankAssetsData { assets }
    }

    /// The end-of-run report: counters, the profit and loss against the
    /// first recorded equity (marked at the last mid, or at a price of one
    /// when no mid was ever seen), and the ending balances.
    pub fn build_report(&self) -> (r: BacktestReport)
        requires
            self.wf(),
        ensures
            ({
                let final_mid = match self.last_mid {
                    Some(m) => m as int,
                    None => crate::decimal::SCALE as int,
                };
                let final_equity = spec_equity(self.ledger(), final_mid);
                let initial = match self.metrics.initial_equity {
                    Some(e) => e as int,
                    None => final_equity,
                };
                &&& r.total_orders == self.metrics.total_orders
                &&& r.filled_trades == self.metrics.trade_count
                &&& r.total_fees == self.metrics.total_fees
                &&& r.final_pnl == crate::num::sat_i128(final_equity - initial)
                &&& r.max_drawdown == self.metrics.max_drawdown
                &&& r.ending_base == self.base_free + self.base_locked
                &&& r.ending_quote == self.quote_free + self.quote_locked
            }),
    {
        let final_mid = match self.last_mid {
            Some(m) => m,
            None => crate::decimal::SCALE,
        };
        let final_equity = self.current_equity(final_mid);
        let initial_equity = match self.metrics.initial_equity {
            Some(e) => e,
            None => final_equity,
        };
        let final_pnl = crate::num::sat_diff_i128(final_equity, initial_equity);
        BacktestReport {
            total_orders: self.metrics.total_orders,
            filled_trades: self.metrics.trade_count,
            total_fees: self.metrics.total_fees,
            final_pnl,
            max_drawdown: self.metrics.max_drawdown,
            ending_base: self.base_free + self.base_locked,
            ending_quote: self.quote_free + self.quote_locked,
        }
    }
}

/// The summary a backtest run ends with.
pub struct BacktestReport {
    pub total_orders: usize,
    pub filled_trades: usize,
    pub total_fees: u128,
    pub final_pnl: i128,
    pub max_drawdown: u128,
    pub ending_base: u128,
    pub ending_quote: u128,
}

/// The fee on a notional value at a rate in parts per million, rounded
/// down.
pub open spec fn spec_fee(notional: int, ppm: int) -> int {
    notional * ppm / 1_000_000
}

/// Compute the fee exactly: `floor(notional * ppm / 10^6)`, without the
/// product ever leaving `u128`.
fn fee_of(notional: u128, ppm: u32) -> (r: u128)
    requires
        ppm <= 1_000_000,
    ensures
        r == spec_fee(notional as int, ppm as int),
        r <= notional,
{
    let q = notional / 1_000_000;
    let m = notional % 1_000_000;
    proof {
        let n = notional as int;
        let p = ppm as int;
        let qq = q as int;
        let mm = m as int;
        vstd::arithmetic::div_mod::lemma_fundamental_div_mod(n, 1_000_000);
        assert(qq * p <= qq * 1_000_000) by (nonlinear_arith)
            requires
                qq >= 0,
                0 <= p <= 1_000_000,
        ;
        assert(qq * 1_000_000 <= n);
        assert(mm * p < 1_000_000_000_000) by (nonlinear_arith)
            requires
                0 <= mm < 1_000_000,
                0 <= p <= 1_000_000,
        ;
        let q2 = mm * p / 1_000_000;
        let r2 = (mm * p) % 1_000_000;
        vstd::arithmetic::div_mod::lemma_fundamental_div_mod(mm * p, 1_000_000);
        vstd::arithmetic::div_mod::lemma_mod_bound(mm * p, 1_000_000);
        assert(n * p == (qq * p + q2) * 1_000_000 + r2) by (nonlinear_arith)
            requires
                n == qq * 1_000_000 + mm,
                mm * p == q2 * 1_000_000 + r2,
        ;
        vstd::arithmetic::div_mod::lemma_fundamental_div_mod_converse(
            n * p,
            1_000_000,
            qq * p + q2,
            r2,
        );
        assert(q2 <= mm) by (nonlinear_arith)
            requires
                0 <= mm < 1_000_000,
                0 <= p <= 1_000_000,
                q2 == mm * p / 1_000_000,
        ;
        assert(qq * p + q2 <= n);
    }
    let fee = q * (ppm as u128) + (m * (ppm as u128)) / 1_000_000;
    fee
}

/// Mark-to-market equity at a mid price: the quote holdings plus the base
/// holdings valued at the mid, clamped at the representable ceiling.
pub open spec fn spec_equity(l: LedgerView, mid: int) -> int {
    sat128(l.quote_free + l.quote_locked + sat128((l.base_free + l.base_locked) * mid))
}

/// Credit `add` to the free bucket, clamping so that free plus locked stays
/// representable.
fn add_clamped(free: u128, locked: u128, add: u128) -> (r: u128)
    requires
        free + locked <= u128::MAX,
    ensures
        r == if free + add + locked > u128::MAX {
            (u128::MAX - locked) as u128
        } else {
            (free + add) as u128
        },
        r + locked <= u128::MAX,
{
    if add > u128::MAX - locked - free {
        u128::MAX - locked
    } else {
        free + add
    }
}

/// One fill settling against the ledger and counters: the order's remaining
/// cost leaves the locked bucket, the acquired asset is credited (clamped
/// at the ledger ceiling), the fee is deducted from the free quote down to
/// zero at most, and an equity observation is recorded when a mid price is
/// known.
pub open spec fn spec_fill_one(
    l: LedgerView,
    m: BacktestMetrics,
    last_mid: Option<u64>,
    rate_ppm: int,
    id: u64,
    fill_price: u64,
) -> (LedgerView, BacktestMetrics) {
    if !has_order(l.orders, id) {
        (l, m)
    } else {
        let i = order_index(l.orders, id);
        let o = l.orders[i];
        let qty = o.remaining;
        let l1 = if o.side == OrderSide::Buy {
            let fee = spec_fee(fill_price * qty, rate_ppm);
            let freed = if l.base_free + qty + l.base_locked > u128::MAX {
                u128::MAX - l.base_locked
            } else {
                l.base_free + qty
            };
            LedgerView {
                base_free: freed,
                base_locked: l.base_locked,
                quote_free: if l.quote_free >= fee {
                    l.quote_free - fee
                } else {
                    0
                },
                quote_locked: l.quote_locked - o.price * qty,
                orders: l.orders.remove(i),
            }
        } else {
            let proceeds = fill_price * qty;
            let fee = spec_fee(proceeds, rate_ppm);
            let credited = if l.quote_free + proceeds + l.quote_locked > u128::MAX {
                u128::MAX - l.quote_locked
            } else {
                l.quote_free + proceeds
            };
            LedgerView {
                base_free: l.base_free,
                base_locked: l.base_locked - qty,
                quote_free: if credited >= fee {
                    credited - fee
                } else {
                    0
                },
                quote_locked: l.quote_locked,
                orders: l.orders.remove(i),
            }
        };
        let fee = spec_fee(fill_price * qty, rate_ppm);
        let m1 = BacktestMetrics {
            total_fees: sat128(m.total_fees + fee) as u128,
            trade_count: if m.trade_count < usize::MAX {
                (m.trade_count + 1) as usize
            } else {
                m.trade_count
            },
            ..m
        };
        let m2 = match last_mid {
            Some(mid) => spec_register_equity(m1, spec_equity(l1, mid as int) as u128),
            None => m1,
        };
        (l1, m2)
    }
}

/// Folding `spec_fill_one` over a list of `(order id, fill price)` pairs.
pub open spec fn spec_fill_seq(
    l: LedgerView,
    m: BacktestMetrics,
    last_mid: Option<u64>,
    rate_ppm: int,
    fills: Seq<(u64, u64)>,
) -> (LedgerView, BacktestMetrics)
    decreases fills.len(),
{
    if fills.len() == 0 {
        (l, m)
    } else {
        let step = spec_fill_one(l, m, last_mid, rate_ppm, fills[0].0, fills[0].1);
        spec_fill_seq(step.0, step.1, last_mid, rate_ppm, fills.drop_first())
    }
}

/// The fills a book update triggers: each open buy whose price the best ask
/// reached, each open sell whose price the best bid reached, at the order's
/// own price, in table order.
pub open spec fn fills_wanted(
    s: Seq<SimulatedOrder>,
    ask: Option<u64>,
    bid: Option<u64>,
) -> Seq<(u64, u64)>
    decreases s.len(),
{
    if s.len() == 0 {
        Seq::<(u64, u64)>::empty()
    } else {
        fills_wanted(s.drop_last(), ask, bid) + (if fill_hit(s.last(), ask, bid) {
            seq![(s.last().id, s.last().price)]
        } else {
            Seq::<(u64, u64)>::empty()
        })
    }
}

pub open spec fn fill_hit(o: SimulatedOrder, ask: Option<u64>, bid: Option<u64>) -> bool {
    if o.side == OrderSide::Buy {
        ask matches Some(a) && a <= o.price
    } else {
        bid matches Some(b) && b >= o.price
    }
}

impl SimulatedState {
    /// Mark-to-market equity at a mid price.
    pub fn current_equity(&self, mid_price: u64) -> (r: u128)
        requires
            self.wf(),
        ensures
            r == spec_equity(self.ledger(), mid_price as int),
    {
        let base_total = self.base_free + self.base_locked;
        let quote_total = self.quote_free + self.quote_locked;
        let valued = crate::num::sat_mul_u128_u64(base_total, mid_price);
        proof {
            assert((self.base_free + self.base_locked) * mid_price >= 0) by (nonlinear_arith)
                requires
                    self.base_free + self.base_locked >= 0,
                    mid_price >= 0,
            ;
            crate::num::lemma_sat_add_collapses(
                self.quote_free + self.quote_locked,
                (self.base_free + self.base_locked) * mid_price,
            );
        }
        sat_add_u128(quote_total, valued)
    }

    /// Settle one open order at a fill price, as a maker or a taker. An
    /// unknown id is a no-op.
    pub fn fill_order(&mut self, order_id: u64, fill_price: u64, maker: bool)
        requires
            old(self).wf(),
        ensures
            final(self).wf(),
            final(self).pair == old(self).pair,
            final(self).next_order_id == old(self).next_order_id,
            final(self).last_mid == old(self).last_mid,
            final(self).maker_fee_ppm == old(self).maker_fee_ppm,
            final(self).taker_fee_ppm == old(self).taker_fee_ppm,
            ({
                let out = spec_fill_one(
                    old(self).ledger(),
                    old(self).metrics,
                    old(self).last_mid,
                    if maker {
                        old(self).maker_fee_ppm as int
                    } else {
                        old(self).taker_fee_ppm as int
                    },
                    order_id,
                    fill_price,
                );
                final(self).ledger() == out.0 && final(self).metrics == out.1
            }),
    {
        let m = self.open_orders.len();
        let mut j: usize = 0;
        while j < m && self.open_orders[j].id != order_id
            invariant
                m == self.open_orders@.len(),
                j <= m,
                forall|k: int| 0 <= k < j ==> (#[trigger] self.open_orders@[k]).id != order_id,
            decreases m - j,
        {
            j += 1;
        }
        if j >= m {
            proof {
                assert(!has_order(self.open_orders@, order_id)) by {
                    if has_order(self.open_orders@, order_id) {
                        let w = choose|w: int|
                            0 <= w < self.open_orders@.len() && (
                            #[trigger] self.open_orders@[w]).id == order_id;
                    }
                }
            }
            return ;
        }
        let ghost pre = self.open_orders@;
        let ghost lpre = self.ledger();
        let o = self.open_orders[j];
        proof {
            assert(has_order(pre, order_id)) by {
                assert(pre[j as int].id == order_id);
            }
            let w = order_index(pre, order_id);
            assert(pre[w].id == order_id);
            if w != j as int {
                assert(pre[w].id != pre[j as int].id);
                assert(false);
            }
            lemma_locked_remove(pre, j as int);
            lemma_locked_nonneg(pre.remove(j as int));
            lemma_terms_nonneg(o);
        }
        self.open_orders.remove(j);
        let qty = o.remaining;
        let rate = if maker {
            self.maker_fee_ppm
        } else {
            self.taker_fee_ppm
        };
        let notional = crate::num::mul_u64(fill_price, qty);
        let fee = fee_of(notional, rate);
        let is_buy = matches!(o.side, OrderSide::Buy);
        if is_buy {
            let locked_out = crate::num::mul_u64(o.price, qty);
            self.quote_locked = self.quote_locked - locked_out;
            self.base_free = add_clamped(self.base_free, self.base_locked, qty as u128);
            if self.quote_free >= fee {
                self.quote_free = self.quote_free - fee;
            } else {
                self.quote_free = 0;
            }
        } else {
            self.base_locked = self.base_locked - qty as u128;
            let credited = add_clamped(self.quote_free, self.quote_locked, notional);
            if credited >= fee {
                self.quote_free = credited - fee;
            } else {
                self.quote_free = 0;
            }
        }
        self.metrics.total_fees = sat_add_u128(self.metrics.total_fees, fee);
        if self.metrics.trade_count < usize::MAX {
            self.metrics.trade_count = self.metrics.trade_count + 1;
        }
        match self.last_mid {
            Some(mid) => {
                let equity = self.current_equity(mid);
                self.metrics.register_equity(equity);
            },
            None => {},
        }
        proof {
            assert forall|a: int, b: int| 0 <= a < b < self.open_orders@.len() implies (
            #[trigger] self.open_orders@[a]).id != (#[trigger] self.open_orders@[b]).id by {
                let a0 = if a < j {
                    a
                } else {
                    a + 1
                };
                let b0 = if b < j {
                    b
                } else {
                    b + 1
                };
                assert(self.open_orders@[a] == pre[a0]);
                assert(self.open_orders@[b] == pre[b0]);
            }
            assert forall|a: int| 0 <= a < self.open_orders@.len() implies (
            #[trigger] self.open_orders@[a]).id < self.next_order_id by {
                let a0 = if a < j {
                    a
                } else {
                    a + 1
                };
                assert(self.open_orders@[a] == pre[a0]);
            }
        }
    }

    /// A complete book update: mark equity at the new mid when both sides
    /// have data, then settle every open order the new best prices reach,
    /// as maker fills at the orders' own prices. An incomplete book changes
    /// nothing.
    pub fn on_depth(&mut self, depth: &crate::bitbank_depth::BitbankDepth)
        requires
            old(self).wf(),
        ensures
            final(self).wf(),
            final(self).pair == old(self).pair,
            final(self).next_order_id == old(self).next_order_id,
            !depth.is_complete ==> *final(self) == *old(self),
            depth.is_complete ==> ({
                let ask = if depth.book.asks@.len() > 0 {
                    Some(depth.book.asks@[0].0)
                } else {
                    None::<u64>
                };
                let bid = if depth.book.bids@.len() > 0 {
                    Some(depth.book.bids@.last().0)
                } else {
                    None::<u64>
                };
                let both = ask is Some && bid is Some;
                let mid = ((ask->Some_0 + bid->Some_0) / 2) as u64;
                let mid1 = if both {
                    Some(mid)
                } else {
                    old(self).last_mid
                };
                let m1 = if both {
                    spec_register_equity(
                        old(self).metrics,
                        spec_equity(old(self).ledger(), mid as int) as u128,
                    )
                } else {
                    old(self).metrics
                };
                let out = spec_fill_seq(
                    old(self).ledger(),
                    m1,
                    mid1,
                    old(self).maker_fee_ppm as int,
                    fills_wanted(old(self).open_orders@, ask, bid),
                );
                &&& final(self).last_mid == mid1
                &&& final(self).ledger() == out.0
                &&& final(self).metrics == out.1
            }),
    {
        if !depth.is_complete() {
            return ;
        }
        let best_ask = depth.book.best_ask();
        let best_bid = depth.book.best_bid();
        let ask: Option<u64> = match best_ask {
            Some(l) => Some(l.0),
            None => None,
        };
        let bid: Option<u64> = match best_bid {
            Some(l) => Some(l.0),
            None => None,
        };
        match (ask, bid) {
            (Some(a), Some(b)) => {
                let mid = (((a as u128) + (b as u128)) / 2) as u64;
                self.last_mid = Some(mid);
                let equity = self.current_equity(mid);
                self.metrics.register_equity(equity);
            },
            _ => {},
        }
        let ghost l1 = self.ledger();
        let ghost m1 = self.metrics;
        let ghost mid1 = self.last_mid;
        let ghost pre_orders = self.open_orders@;

        // Collect the orders the new best prices reach.
        let mut filled_orders: Vec<(u64, u64)> = Vec::new();
        let n = self.open_orders.len();
        proof {
            assert(pre_orders.subrange(0, 0) =~= Seq::<SimulatedOrder>::empty());
        }
        let mut i: usize = 0;
        while i < n
            invariant
                n == self.open_orders@.len(),
                i <= n,
                self.open_orders@ == pre_orders,
                filled_orders@ == fills_wanted(pre_orders.subrange(0, i as int), ask, bid),
            decreases n - i,
        {
            let o = self.open_orders[i];
            proof {
                let t = pre_orders.subrange(0, i + 1);
                assert(t.drop_last() =~= pre_orders.subrange(0, i as int));
                assert(t.last() == pre_orders[i as int]);
            }
            let hit = match o.side {
                OrderSide::Buy => match ask {
                    Some(a) => a <= o.price,
                    None => false,
                },
                OrderSide::Sell => match bid {
                    Some(b) => b >= o.price,
                    None => false,
                },
            };
            if hit {
                filled_orders.push((o.id, o.price));
            }
            i += 1;
        }
        proof {
            assert(pre_orders.subrange(0, n as int) =~= pre_orders);
        }

        // Settle them in order.
        let ghost fills = filled_orders@;
        let nf = filled_orders.len();
        proof {
            assert(fills.subrange(0, nf as int) =~= fills);
        }
        let mut k: usize = 0;
        while k < nf
            invariant
                nf == fills.len(),
                fills == filled_orders@,
                k <= nf,
                self.wf(),
                self.pair == old(self).pair,
                self.next_order_id == old(self).next_order_id,
                self.last_mid == mid1,
                self.maker_fee_ppm == old(self).maker_fee_ppm,
                self.taker_fee_ppm == old(self).taker_fee_ppm,
                spec_fill_seq(l1, m1, mid1, self.maker_fee_ppm as int, fills) == spec_fill_seq(
                    self.ledger(),
                    self.metrics,
                    mid1,
                    self.maker_fee_ppm as int,
                    fills.subrange(k as int, nf as int),
                ),
            decreases nf - k,
        {
            let ghost tail = fills.subrange(k as int, nf as int);
            proof {
                assert(tail[0] == fills[k as int]);
                assert(tail.drop_first() =~= fills.subrange(k + 1, nf as int));
            }
            let (order_id, fill_price) = filled_orders[k];
            self.fill_order(order_id, fill_price, true);
            k += 1;
        }
        proof {
            assert(fills.subrange(nf as int, nf as int) =~= Seq::<(u64, u64)>::empty());
        }
    }

    /// A batch of public trades: the last trade's price becomes the mid
    /// when none is known yet, and equity is marked at that price. An empty
    /// batch changes nothing.
    pub fn on_transactions(
        &mut self,
        transactions: &Vec<crate::bitbank_bot::BitbankTransactionDatum>,
    )
        requires
            old(self).wf(),
        ensures
            final(self).wf(),
            transactions@.len() == 0 ==> *final(self) == *old(self),
            transactions@.len() > 0 ==> ({
                let p = transactions@.last().price;
                &&& final(self).last_mid == if old(self).last_mid is None {
                    Some(p)
                } else {
                    old(self).last_mid
                }
                &&& final(self).metrics == spec_register_equity(
                    old(self).metrics,
                    spec_equity(old(self).ledger(), p as int) as u128,
                )
                &&& final(self).ledger() == old(self).ledger()
                &&& final(self).pair == old(self).pair
                &&& final(self).next_order_id == old(self).next_order_id
            }),
    {
        let n = transactions.len();
        if n == 0 {
            return ;
        }
        let last_price = transactions[n - 1].price;
        if self.last_mid.is_none() {
            self.last_mid = Some(last_price);
        }
        let equity = self.current_equity(last_price);
        self.metrics.register_equity(equity);
    }
}

} // verus!
