use bitbank_mm::best_mm::locked_quote_in_buy_orders;
use bitbank_mm::best_mm::MyBot;
use bitbank_mm::bitbank_bot::process_inbound;
use bitbank_mm::bitbank_bot::BitbankEvent;
use bitbank_mm::bitbank_bot::BitbankInboundMessage;
use bitbank_mm::bitbank_depth::BitbankDepth;
use bitbank_mm::bitbank_depth::BitbankDepthWhole;
use bitbank_mm::order_manager::BitbankGetOrderResponse;
use bitbank_mm::order_manager::SimplifiedOrder;

fn levels(raw: &[(&str, &str)]) -> Vec<(String, String)> {
    raw.iter().map(|&(p, q)| (p.to_string(), q.to_string())).collect()
}

fn whole(asks: &[(&str, &str)], bids: &[(&str, &str)], ts: i64, seq: &str) -> BitbankDepthWhole {
    BitbankDepthWhole {
        asks: levels(asks),
        bids: levels(bids),
        timestamp: ts,
        sequence_id: seq.to_string(),
    }
}

fn live(id: u64, side: &str, amount: u64, price: u64) -> BitbankGetOrderResponse {
    BitbankGetOrderResponse {
        order_id: id,
        pair: "x".to_string(),
        side: side.to_string(),
        order_type: "limit".to_string(),
        remaining_amount: amount,
        price,
    }
}

fn complete_bot(tick: u64, lot: u64, max_lot: u64, ask: u64, bid: u64) -> MyBot {
    // Build the book directly in raw integer units.
    let mut bot = MyBot::new("x".to_string(), tick, 1000, lot, max_lot);
    bot.depth.book.asks.apply_level(ask, 1);
    bot.depth.book.bids.apply_level(bid, 1);
    bot.depth.is_complete = true;
    bot
}

#[test]
fn refresh_throttle_stamps_and_gates() {
    let mut bot = complete_bot(1, 1, 100, 101, 100);
    bot.last_updated = 5000;
    // Not yet elapsed.
    assert!(!bot.begin_refresh(5500));
    assert_eq!(bot.last_updated, 5000);
    // Elapsed: proceeds and stamps immediately.
    assert!(bot.begin_refresh(6000));
    assert_eq!(bot.last_updated, 6000);
    // An incomplete book never proceeds.
    let mut cold = MyBot::new("x".to_string(), 1, 1000, 1, 100);
    assert!(!cold.begin_refresh(10_000));
    assert_eq!(cold.last_updated, 0);
}

#[test]
fn quotes_improve_by_one_tick() {
    let bot = complete_bot(1, 1, 1000, 110, 100);
    let desired = bot.build_desired_orders(&vec![], 5, 0, 1000);
    assert_eq!(
        desired,
        vec![
            SimplifiedOrder {
                pair: "x".to_string(),
                side: "buy".to_string(),
                amount: 1,
                price: 101,
            },
            SimplifiedOrder {
                pair: "x".to_string(),
                side: "sell".to_string(),
                amount: 1,
                price: 109,
            },
        ]
    );
}

#[test]
fn quotes_never_cross_a_one_tick_spread() {
    let bot = complete_bot(1, 1, 1000, 101, 100);
    let desired = bot.build_desired_orders(&vec![], 5, 0, 1000);
    assert_eq!(desired[0].price, 100);
    assert_eq!(desired[0].side, "buy");
    assert_eq!(desired[1].price, 101);
    assert_eq!(desired[1].side, "sell");
}

#[test]
fn resting_best_orders_are_kept_in_place() {
    let bot = complete_bot(1, 1, 1000, 110, 100);
    let orders = vec![live(1, "sell", 1, 110), live(2, "buy", 1, 100)];
    let desired = bot.build_desired_orders(&orders, 5, 0, 1000);
    // Both quotes stay at the current best prices.
    assert_eq!(desired[0].price, 100);
    assert_eq!(desired[1].price, 110);
}

#[test]
fn position_cap_blocks_the_buy() {
    let bot = complete_bot(1, 1, 3, 110, 100);
    // base holdings 3 + lot 1 > max_lot 3: no buy, only the sell.
    let desired = bot.build_desired_orders(&vec![], 3, 0, 100_000);
    assert_eq!(desired.len(), 1);
    assert_eq!(desired[0].side, "sell");
}

#[test]
fn insufficient_quote_blocks_the_buy() {
    let bot = complete_bot(1, 1, 1000, 110, 100);
    // The buy at 101 needs 101 quote; only 100 is free and nothing locked.
    let desired = bot.build_desired_orders(&vec![], 5, 0, 100);
    assert_eq!(desired.len(), 1);
    assert_eq!(desired[0].side, "sell");
}

#[test]
fn locked_buy_quote_counts_toward_the_budget() {
    let bot = complete_bot(1, 1, 1000, 110, 100);
    // 50 free plus 60 locked in a live limit buy covers the 101 buy.
    let orders = vec![live(3, "buy", 1, 60)];
    let desired = bot.build_desired_orders(&orders, 5, 0, 50);
    assert_eq!(desired[0].side, "buy");
    assert_eq!(locked_quote_in_buy_orders(&orders), 60);
}

#[test]
fn remainder_lots_fold_into_the_sell() {
    let bot = complete_bot(1, 10, 1000, 110, 100);
    // Base holdings 27 = 2 lots of 10 plus a remainder of 7: the sell
    // carries one lot plus the remainder.
    let desired = bot.build_desired_orders(&vec![], 20, 7, 0);
    assert_eq!(desired.len(), 1);
    assert_eq!(desired[0].side, "sell");
    assert_eq!(desired[0].amount, 17);
}

#[test]
fn no_sell_below_one_lot() {
    let bot = complete_bot(1, 10, 1000, 110, 100);
    let desired = bot.build_desired_orders(&vec![], 9, 0, 0);
    assert!(desired.is_empty());
}

#[test]
fn events_trigger_refreshes() {
    let mut bot = complete_bot(1, 1, 100, 110, 100);
    assert!(bot.apply_event(BitbankEvent::Transactions {
        pair: "x".to_string(),
        transactions: vec![],
    }));
    assert!(!bot.apply_event(BitbankEvent::Ticker {
        pair: "x".to_string(),
        ticker: bitbank_mm::bitbank_bot::BitbankTickerResponse {
            sell: None,
            buy: None,
            high: "0".to_string(),
            low: "0".to_string(),
            open_price: "0".to_string(),
            last: "0".to_string(),
            vol: "0".to_string(),
            timestamp: 0,
        },
    }));
}

#[test]
fn depth_events_replace_the_bot_book() {
    let mut bot = MyBot::new("x".to_string(), 1, 100, 1, 100);
    let mut feed_depth = BitbankDepth::new();
    let event = process_inbound(
        &mut feed_depth,
        "x",
        BitbankInboundMessage::DepthWhole(whole(&[("101", "2")], &[("100", "3")], 42, "5")),
    );
    match event {
        Some(BitbankEvent::DepthUpdated { pair, depth }) => {
            assert_eq!(pair, "x");
            assert!(bot.apply_event(BitbankEvent::DepthUpdated { pair, depth }));
        },
        _ => panic!("expected a book update event"),
    }
    assert!(bot.depth.is_complete());
    assert_eq!(bot.last_bestask, 101 * bitbank_mm::decimal::SCALE);
    assert_eq!(bot.last_bestbid, 100 * bitbank_mm::decimal::SCALE);
}

#[test]
fn incomplete_books_produce_no_depth_event() {
    let mut feed_depth = BitbankDepth::new();
    let event = process_inbound(
        &mut feed_depth,
        "x",
        BitbankInboundMessage::DepthDiff(bitbank_mm::bitbank_depth::BitbankDepthDiff {
            a: levels(&[("101", "2")]),
            b: vec![],
            t: 1,
            s: "1".to_string(),
        }),
    );
    assert!(event.is_none());
    assert!(!feed_depth.is_complete());
}
