use bitbank_mm::book::OrderBook;

fn book_with(asks: &[(u64, u64)], bids: &[(u64, u64)]) -> OrderBook {
    let mut b = OrderBook::new();
    for &(p, q) in asks {
        b.asks.apply_level(p, q);
    }
    for &(p, q) in bids {
        b.bids.apply_level(p, q);
    }
    b
}

#[test]
fn upsert_and_remove_levels() {
    let mut b = OrderBook::new();
    b.asks.apply_level(101, 2);
    b.asks.apply_level(103, 5);
    b.asks.apply_level(101, 7);
    assert_eq!(b.best_ask(), Some((101, 7)));
    b.asks.apply_level(101, 0);
    assert_eq!(b.best_ask(), Some((103, 5)));
    b.asks.apply_level(103, 0);
    assert_eq!(b.best_ask(), None);
    // Removing an absent price is a no-op.
    b.asks.apply_level(55, 0);
    assert_eq!(b.best_ask(), None);
}

#[test]
fn best_and_kth_levels() {
    let b = book_with(&[(101, 2), (102, 4), (105, 1)], &[(95, 9), (99, 3), (100, 6)]);
    assert_eq!(b.best_ask(), Some((101, 2)));
    assert_eq!(b.best_bid(), Some((100, 6)));
    assert_eq!(b.kth_best_ask(0), Some((101, 2)));
    assert_eq!(b.kth_best_ask(2), Some((105, 1)));
    assert_eq!(b.kth_best_ask(3), None);
    assert_eq!(b.kth_best_bid(0), Some((100, 6)));
    assert_eq!(b.kth_best_bid(1), Some((99, 3)));
    assert_eq!(b.kth_best_bid(2), Some((95, 9)));
    assert_eq!(b.kth_best_bid(3), None);
}

#[test]
fn r_depth_prices() {
    let b = book_with(&[(101, 2), (102, 4), (105, 1)], &[(95, 9), (99, 3), (100, 6)]);
    // Cumulative ask quantity: 2, 6, 7.
    assert_eq!(b.r_depth_ask_price(1), Some(101));
    assert_eq!(b.r_depth_ask_price(2), Some(101));
    assert_eq!(b.r_depth_ask_price(3), Some(102));
    assert_eq!(b.r_depth_ask_price(7), Some(105));
    assert_eq!(b.r_depth_ask_price(8), None);
    // Cumulative bid quantity from the best bid down: 6, 9, 18.
    assert_eq!(b.r_depth_bid_price(6), Some(100));
    assert_eq!(b.r_depth_bid_price(7), Some(99));
    assert_eq!(b.r_depth_bid_price(18), Some(95));
    assert_eq!(b.r_depth_bid_price(19), None);
}

#[test]
fn r_depth_is_monotonic_in_size() {
    let b = book_with(&[(101, 2), (102, 4), (105, 1)], &[]);
    let mut last = 0u64;
    for r in 1..=7u64 {
        let p = b.r_depth_ask_price(r).unwrap();
        assert!(p >= last);
        last = p;
    }
}

#[test]
fn s_depth_prices() {
    let b = book_with(&[(10, 2), (20, 1)], &[(5, 4), (8, 2)]);
    // Cumulative ask notional: 20, 40.
    assert_eq!(b.s_depth_ask_price(20), Some(10));
    assert_eq!(b.s_depth_ask_price(21), Some(20));
    assert_eq!(b.s_depth_ask_price(40), Some(20));
    assert_eq!(b.s_depth_ask_price(41), None);
    // Cumulative bid notional from the best bid down: 16, 36.
    assert_eq!(b.s_depth_bid_price(16), Some(8));
    assert_eq!(b.s_depth_bid_price(17), Some(5));
    assert_eq!(b.s_depth_bid_price(37), None);
}

#[test]
fn spread_and_imbalance() {
    let b = book_with(&[(101, 2)], &[(100, 3)]);
    assert_eq!(b.bidask_spread(), Some(1));
    assert_eq!(b.bidask_imbalance(), Some(1));
    let empty_bids = book_with(&[(101, 2)], &[]);
    assert_eq!(empty_bids.bidask_spread(), None);
    assert_eq!(empty_bids.bidask_imbalance(), None);
    let inverted = book_with(&[(99, 5)], &[(100, 1)]);
    assert_eq!(inverted.bidask_spread(), Some(-1));
    assert_eq!(inverted.bidask_imbalance(), Some(-4));
}
