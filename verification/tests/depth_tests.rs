use bitbank_mm::bitbank_depth::BitbankDepth;
use bitbank_mm::bitbank_depth::BitbankDepthDiff;
use bitbank_mm::bitbank_depth::BitbankDepthWhole;
use bitbank_mm::decimal::SCALE;

fn levels(raw: &[(&str, &str)]) -> Vec<(String, String)> {
    raw.iter().map(|&(p, q)| (p.to_string(), q.to_string())).collect()
}

fn diff(a: &[(&str, &str)], b: &[(&str, &str)], t: i64, s: &str) -> BitbankDepthDiff {
    BitbankDepthDiff { a: levels(a), b: levels(b), t, s: s.to_string() }
}

fn whole(asks: &[(&str, &str)], bids: &[(&str, &str)], ts: i64, seq: &str) -> BitbankDepthWhole {
    BitbankDepthWhole {
        asks: levels(asks),
        bids: levels(bids),
        timestamp: ts,
        sequence_id: seq.to_string(),
    }
}

#[test]
fn snapshot_completes_the_book() {
    let mut depth = BitbankDepth::new();
    assert!(!depth.is_complete());
    depth.update_whole(whole(&[("101", "2.0")], &[("100", "3.0")], 1000, "5"));
    assert!(depth.is_complete());
    assert_eq!(depth.asks().levels, vec![(101 * SCALE, 2 * SCALE)]);
    assert_eq!(depth.bids().levels, vec![(100 * SCALE, 3 * SCALE)]);
    assert_eq!(depth.book.best_ask(), Some((101 * SCALE, 2 * SCALE)));
    assert_eq!(depth.book.best_bid(), Some((100 * SCALE, 3 * SCALE)));
    assert_eq!(depth.last_timestamp(), 1000);
}

#[test]
fn zero_quantity_diff_removes_the_level() {
    let mut depth = BitbankDepth::new();
    depth.update_whole(whole(&[("101", "2.0")], &[("100", "3.0")], 1000, "5"));
    depth.insert_diff(diff(&[("101", "0")], &[], 1001, "6"));
    assert_eq!(depth.book.best_ask(), None);
    assert_eq!(depth.book.best_bid(), Some((100 * SCALE, 3 * SCALE)));
    assert_eq!(depth.last_timestamp(), 1001);
}

#[test]
fn diff_application_is_idempotent() {
    let mut depth = BitbankDepth::new();
    depth.update_whole(whole(&[("101", "2.0")], &[("100", "3.0")], 1000, "5"));
    depth.insert_diff(diff(&[("102", "4.0")], &[("99", "0")], 1001, "6"));
    let once_asks = depth.asks().levels.clone();
    let once_bids = depth.bids().levels.clone();
    depth.insert_diff(diff(&[("102", "4.0")], &[("99", "0")], 1001, "6"));
    assert_eq!(depth.asks().levels, once_asks);
    assert_eq!(depth.bids().levels, once_bids);
}

#[test]
fn early_diffs_are_buffered_and_replayed() {
    // The diff arrives before the snapshot that defines its baseline; its
    // sequence id is above the snapshot's, so it must be replayed on top.
    let mut depth = BitbankDepth::new();
    depth.insert_diff(diff(&[("101", "0"), ("104", "1.0")], &[], 900, "7"));
    assert!(!depth.is_complete());
    depth.update_whole(whole(&[("101", "2.0")], &[("100", "3.0")], 1000, "5"));
    assert!(depth.is_complete());
    // "101" was removed by the replayed diff and "104" added.
    assert_eq!(
        depth.asks().levels,
        vec![(104 * SCALE, 1 * SCALE)]
    );
}

#[test]
fn stale_diffs_are_discarded_by_the_snapshot() {
    let mut depth = BitbankDepth::new();
    depth.insert_diff(diff(&[("101", "0")], &[], 900, "3"));
    depth.update_whole(whole(&[("101", "2.0")], &[("100", "3.0")], 1000, "5"));
    // The buffered diff's id "3" is below the snapshot's "5": not replayed.
    assert_eq!(depth.asks().levels, vec![(101 * SCALE, 2 * SCALE)]);
}

#[test]
fn sequence_ids_prune_lexicographically() {
    // "10" is lexicographically below "9", so a snapshot with id "9"
    // discards a buffered diff with id "10".
    let mut depth = BitbankDepth::new();
    depth.insert_diff(diff(&[("101", "0")], &[], 900, "10"));
    depth.update_whole(whole(&[("101", "2.0")], &[], 1000, "9"));
    assert_eq!(depth.asks().levels, vec![(101 * SCALE, 2 * SCALE)]);
}

#[test]
fn snapshot_diff_convergence_is_order_independent() {
    // One snapshot and two diffs at or above its sequence id, presented in
    // three different arrival orders, converge to the same book.
    let d1 = || diff(&[("101", "0"), ("103", "1.5")], &[], 1001, "6");
    let d2 = || diff(&[("103", "2.5")], &[("98", "1.0")], 1002, "7");
    let snap = || whole(&[("101", "2.0")], &[("100", "3.0")], 1000, "5");

    let mut a = BitbankDepth::new();
    a.insert_diff(d1());
    a.insert_diff(d2());
    a.update_whole(snap());

    let mut b = BitbankDepth::new();
    b.insert_diff(d2());
    b.insert_diff(d1());
    b.update_whole(snap());

    let mut c = BitbankDepth::new();
    c.update_whole(snap());
    c.insert_diff(d1());
    c.insert_diff(d2());

    assert_eq!(a.asks().levels, b.asks().levels);
    assert_eq!(a.bids().levels, b.bids().levels);
    assert_eq!(a.asks().levels, c.asks().levels);
    assert_eq!(a.bids().levels, c.bids().levels);
    assert_eq!(a.asks().levels, vec![(103 * SCALE, 25 * SCALE / 10)]);
    assert_eq!(
        a.bids().levels,
        vec![(98 * SCALE, 1 * SCALE), (100 * SCALE, 3 * SCALE)]
    );
}

#[test]
fn timestamp_is_the_maximum_seen_in_any_order() {
    let mut a = BitbankDepth::new();
    a.insert_diff(diff(&[], &[], 1500, "6"));
    a.update_whole(whole(&[("101", "1.0")], &[], 1000, "5"));
    assert_eq!(a.last_timestamp(), 1500);

    let mut b = BitbankDepth::new();
    b.update_whole(whole(&[("101", "1.0")], &[], 1000, "5"));
    b.insert_diff(diff(&[], &[], 1500, "6"));
    assert_eq!(b.last_timestamp(), 1500);

    // A lower stamp never moves the timestamp backwards.
    b.insert_diff(diff(&[], &[], 700, "7"));
    assert_eq!(b.last_timestamp(), 1500);
}

#[test]
fn same_sequence_id_replaces_the_buffered_diff() {
    let mut depth = BitbankDepth::new();
    depth.insert_diff(diff(&[("102", "1.0")], &[], 900, "6"));
    depth.insert_diff(diff(&[("102", "9.0")], &[], 901, "6"));
    depth.update_whole(whole(&[("101", "2.0")], &[], 1000, "5"));
    // Only the second version of diff "6" is replayed.
    assert_eq!(
        depth.asks().levels,
        vec![(101 * SCALE, 2 * SCALE), (102 * SCALE, 9 * SCALE)]
    );
}

#[test]
fn duplicate_reads_the_same() {
    let mut depth = BitbankDepth::new();
    depth.insert_diff(diff(&[("102", "1.0")], &[], 900, "6"));
    depth.update_whole(whole(&[("101", "2.0")], &[("100", "3.0")], 1000, "5"));
    let copy = depth.duplicate();
    assert_eq!(copy.asks().levels, depth.asks().levels);
    assert_eq!(copy.bids().levels, depth.bids().levels);
    assert_eq!(copy.is_complete(), depth.is_complete());
    assert_eq!(copy.last_timestamp(), depth.last_timestamp());
}
