use bitbank_mm::bybit::BybitDepth;
use bitbank_mm::bybit::BybitOrderbookData;
use bitbank_mm::decimal::SCALE;

fn data(a: &[(&str, &str)], b: &[(&str, &str)]) -> BybitOrderbookData {
    BybitOrderbookData {
        s: "BTCUSDT".to_string(),
        a: a.iter().map(|&(p, q)| (p.to_string(), q.to_string())).collect(),
        b: b.iter().map(|&(p, q)| (p.to_string(), q.to_string())).collect(),
        u: 1,
        seq: 1,
    }
}

#[test]
fn updates_upsert_and_remove() {
    let mut depth = BybitDepth::new();
    depth.update(data(&[("101", "2.0"), ("102", "1.0")], &[("100", "3.0")]));
    assert_eq!(depth.book.best_ask(), Some((101 * SCALE, 2 * SCALE)));
    assert_eq!(depth.book.best_bid(), Some((100 * SCALE, 3 * SCALE)));
    depth.update(data(&[("101", "0")], &[("100", "5.5")]));
    assert_eq!(depth.book.best_ask(), Some((102 * SCALE, 1 * SCALE)));
    assert_eq!(depth.book.best_bid(), Some((100 * SCALE, 5 * SCALE + SCALE / 2)));
    assert_eq!(depth.asks().levels.len(), 1);
    assert_eq!(depth.bids().levels.len(), 1);
}
