use bitbank_mm::backtest::BacktestApiError;
use bitbank_mm::backtest::SimulatedState;
use bitbank_mm::bitbank_bot::BitbankTransactionDatum;
use bitbank_mm::bitbank_depth::BitbankDepth;

fn sim(base: u128, quote: u128) -> SimulatedState {
    SimulatedState::new("btc_jpy".to_string(), 0, 0, base, quote)
}

fn complete_depth(ask: u64, bid: u64) -> BitbankDepth {
    let mut depth = BitbankDepth::new();
    depth.book.asks.apply_level(ask, 1);
    depth.book.bids.apply_level(bid, 1);
    depth.is_complete = true;
    depth
}

#[test]
fn placing_locks_the_cost() {
    let scale = bitbank_mm::decimal::SCALE as u128;
    let mut s = sim(0, 300 * scale * scale);
    let resp = s.place_order("btc_jpy", "2", Some("100"), "buy", true).unwrap();
    assert_eq!(resp.order_id, 1);
    assert_eq!(resp.status, "UNFILLED");
    // The scaled cost: 2e8 * 100e8 in scaled units.
    assert_eq!(s.quote_locked, 200 * scale * scale);
    assert_eq!(s.quote_free, 100 * scale * scale);
    assert_eq!(s.open_orders.len(), 1);
}

#[test]
fn insufficient_funds_reject_the_order() {
    let mut s = sim(0, 50);
    match s.place_order("btc_jpy", "1", Some("100"), "buy", true) {
        Err(BacktestApiError::InsufficientFunds { side, needed, available }) => {
            assert_eq!(side, "buy");
            let scale = bitbank_mm::decimal::SCALE as u128;
            assert_eq!(needed, 100 * scale * scale);
            assert_eq!(available, 50);
        },
        _ => panic!("expected an insufficient-funds error"),
    }
    assert!(s.open_orders.is_empty());
    assert_eq!(s.quote_free, 50);
}

#[test]
fn bad_numbers_and_missing_prices_are_rejected() {
    let mut s = sim(0, 1000);
    assert!(matches!(
        s.place_order("btc_jpy", "abc", Some("100"), "buy", true),
        Err(BacktestApiError::ParseDecimal)
    ));
    assert!(matches!(
        s.place_order("btc_jpy", "1", None, "buy", true),
        Err(BacktestApiError::MissingPrice)
    ));
}

#[test]
fn cancelling_restores_the_balance() {
    let scale = bitbank_mm::decimal::SCALE as u128;
    let mut s = sim(0, 200 * scale * scale);
    let resp = s.place_order("btc_jpy", "1", Some("100"), "buy", true).unwrap();
    assert_eq!(s.quote_locked, 100 * scale * scale);
    let cancelled = s.cancel_orders(&vec![resp.order_id]).unwrap();
    assert_eq!(cancelled.orders.len(), 1);
    assert_eq!(cancelled.orders[0].order_id, resp.order_id);
    assert_eq!(cancelled.orders[0].status, "CANCELED_UNFILLED");
    assert_eq!(s.quote_locked, 0);
    assert_eq!(s.quote_free, 200 * scale * scale);
    assert!(s.open_orders.is_empty());
}

#[test]
fn a_failed_cancel_walk_keeps_its_progress() {
    // Cancelling [known, unknown] errors out, but the first cancellation
    // stands: the walk is not rolled back.
    let scale = bitbank_mm::decimal::SCALE as u128;
    let mut s = sim(0, 200 * scale * scale);
    let resp = s.place_order("btc_jpy", "1", Some("100"), "buy", true).unwrap();
    match s.cancel_orders(&vec![resp.order_id, 999]) {
        Err(BacktestApiError::UnknownOrder { order_id }) => assert_eq!(order_id, 999),
        _ => panic!("expected an unknown-order error"),
    }
    assert!(s.open_orders.is_empty());
    assert_eq!(s.quote_locked, 0);
}

#[test]
fn unknown_order_ids_error() {
    let mut s = sim(0, 1000);
    match s.cancel_orders(&vec![42]) {
        Err(BacktestApiError::UnknownOrder { order_id }) => assert_eq!(order_id, 42),
        _ => panic!("expected an unknown-order error"),
    }
}

#[test]
fn a_book_update_fills_reached_orders() {
    // Work in raw integer units: the book is built directly.
    let mut s = sim(0, 1000);
    let resp = s.place_order("btc_jpy", "0.00000002", Some("0.000001"), "buy", true).unwrap();
    // Scaled: amount 2, price 100, cost 200.
    assert_eq!(s.quote_locked, 200);
    assert_eq!(s.quote_free, 800);
    // The ask falls to the order's price: the buy fills at its own price.
    s.on_depth(&complete_depth(90, 80));
    assert!(s.open_orders.is_empty(), "order {} should be gone", resp.order_id);
    assert_eq!(s.quote_locked, 0);
    assert_eq!(s.base_free, 2);
    assert_eq!(s.metrics.trade_count, 1);
    assert_eq!(s.metrics.total_fees, 0);
}

#[test]
fn an_untouched_order_stays_open() {
    let mut s = sim(0, 1000);
    s.place_order("btc_jpy", "0.00000002", Some("0.000001"), "buy", true).unwrap();
    // The best ask stays above the buy's price of 100.
    s.on_depth(&complete_depth(150, 80));
    assert_eq!(s.open_orders.len(), 1);
}

#[test]
fn maker_fees_are_floored_parts_per_million() {
    // 2500 ppm of a notional of 20000 is 50.
    let mut s = SimulatedState::new("btc_jpy".to_string(), 2500, 0, 0, 100_000);
    s.place_order("btc_jpy", "0.000001", Some("0.000002"), "buy", true).unwrap();
    // Scaled: amount 100, price 200, cost 20000.
    assert_eq!(s.quote_locked, 20_000);
    s.on_depth(&complete_depth(150, 80));
    assert_eq!(s.metrics.total_fees, 50);
    assert_eq!(s.quote_free, 100_000 - 20_000 - 50);
    assert_eq!(s.base_free, 100);
}

#[test]
fn sells_credit_the_quote_side() {
    let mut s = sim(500, 0);
    s.place_order("btc_jpy", "0.000003", Some("0.000001"), "sell", true).unwrap();
    // Scaled: amount 300, price 100.
    assert_eq!(s.base_locked, 300);
    assert_eq!(s.base_free, 200);
    // The bid rises to the sell's price.
    s.on_depth(&complete_depth(150, 120));
    assert_eq!(s.base_locked, 0);
    assert_eq!(s.quote_free, 300 * 100);
    assert_eq!(s.metrics.trade_count, 1);
}

#[test]
fn transactions_mark_equity() {
    let mut s = sim(3, 100);
    let tx = BitbankTransactionDatum {
        amount: 1,
        executed_at: 7,
        price: 10,
        side: "buy".to_string(),
        transaction_id: 1,
    };
    s.on_transactions(&vec![tx]);
    assert_eq!(s.last_mid, Some(10));
    // Equity: 100 quote + 3 base at a mid of 10.
    assert_eq!(s.metrics.initial_equity, Some(130));
    assert_eq!(s.metrics.last_equity, Some(130));
    // An empty batch changes nothing.
    s.on_transactions(&vec![]);
    assert_eq!(s.metrics.last_equity, Some(130));
}

#[test]
fn drawdown_tracks_the_fall_from_the_peak() {
    let mut s = sim(0, 0);
    s.metrics.register_equity(100);
    s.metrics.register_equity(150);
    s.metrics.register_equity(120);
    assert_eq!(s.metrics.equity_peak, Some(150));
    assert_eq!(s.metrics.max_drawdown, 30);
    s.metrics.register_equity(160);
    assert_eq!(s.metrics.equity_peak, Some(160));
    assert_eq!(s.metrics.max_drawdown, 30);
}

#[test]
fn the_report_sums_up_the_run() {
    let mut s = sim(2, 100);
    s.on_transactions(&vec![BitbankTransactionDatum {
        amount: 1,
        executed_at: 1,
        price: 10,
        side: "sell".to_string(),
        transaction_id: 2,
    }]);
    // Initial equity 120 at a mid of 10; nothing traded afterwards.
    let report = s.build_report();
    assert_eq!(report.total_orders, 0);
    assert_eq!(report.filled_trades, 0);
    assert_eq!(report.final_pnl, 0);
    assert_eq!(report.ending_base, 2);
    assert_eq!(report.ending_quote, 100);
}

#[test]
fn assets_snapshot_names_both_legs() {
    let s = sim(7, 900);
    let assets = s.build_assets_snapshot();
    assert_eq!(assets.assets.len(), 2);
    assert_eq!(assets.assets[0].asset, "btc");
    assert_eq!(assets.assets[0].free_amount, 7);
    assert_eq!(assets.assets[1].asset, "jpy");
    assert_eq!(assets.assets[1].free_amount, 900);
}

#[test]
fn active_orders_mirror_the_table() {
    let mut s = sim(0, 1000);
    s.place_order("btc_jpy", "0.00000001", Some("0.000001"), "buy", true).unwrap();
    let orders = s.build_active_orders_response().unwrap().orders;
    assert_eq!(orders.len(), 1);
    assert_eq!(orders[0].order_id, 1);
    assert_eq!(orders[0].side, "buy");
    assert_eq!(orders[0].order_type, "limit");
    assert_eq!(orders[0].remaining_amount, 1);
    assert_eq!(orders[0].price, 100);
    assert_eq!(orders[0].pair, "btc_jpy");
}
