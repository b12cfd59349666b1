use bitbank_mm::order_manager::plan_wanna_orders;
use bitbank_mm::order_manager::plan_wanna_orders_concurrent;
use bitbank_mm::order_manager::partition_by_funds;
use bitbank_mm::order_manager::BitbankGetOrderResponse;
use bitbank_mm::order_manager::SimplifiedOrder;

fn order(side: &str, amount: u64, price: u64) -> SimplifiedOrder {
    SimplifiedOrder {
        pair: "x".to_string(),
        side: side.to_string(),
        amount,
        price,
    }
}

fn live(id: u64, side: &str, amount: u64, price: u64) -> BitbankGetOrderResponse {
    BitbankGetOrderResponse {
        order_id: id,
        pair: "x".to_string(),
        side: side.to_string(),
        order_type: "limit".to_string(),
        remaining_amount: amount,
        price,
    }
}

#[test]
fn unaffordable_buy_is_deferred() {
    // A buy of 1 at 100 needs 100 quote; with 50 free it must wait for the
    // cancellations, with 150 free it can go immediately.
    let plan = plan_wanna_orders_concurrent(vec![order("buy", 1, 100)], &vec![], 0, 50, "x");
    assert!(plan.cancel_ids.is_empty());
    assert!(plan.first_batch.is_empty());
    assert_eq!(plan.second_batch.len(), 1);
    assert_eq!(plan.second_batch[0], order("buy", 1, 100));

    let plan = plan_wanna_orders_concurrent(vec![order("buy", 1, 100)], &vec![], 0, 150, "x");
    assert_eq!(plan.first_batch.len(), 1);
    assert!(plan.second_batch.is_empty());
    assert_eq!(plan.first_batch[0], order("buy", 1, 100));
}

#[test]
fn mismatched_live_order_is_cancelled_and_replaced() {
    let current = vec![live(7, "buy", 1, 99)];
    let plan = plan_wanna_orders_concurrent(vec![order("buy", 1, 100)], &current, 0, 1000, "x");
    assert_eq!(plan.cancel_ids, vec![7]);
    assert_eq!(plan.first_batch, vec![order("buy", 1, 100)]);
    assert!(plan.second_batch.is_empty());
}

#[test]
fn matching_live_order_means_no_work() {
    let current = vec![live(7, "buy", 1, 99)];
    let plan = plan_wanna_orders_concurrent(vec![order("buy", 1, 99)], &current, 0, 1000, "x");
    assert!(plan.cancel_ids.is_empty());
    assert!(plan.first_batch.is_empty());
    assert!(plan.second_batch.is_empty());
}

#[test]
fn other_pairs_are_ignored() {
    let mut foreign = live(9, "buy", 5, 42);
    foreign.pair = "y".to_string();
    let plan = plan_wanna_orders_concurrent(vec![order("buy", 1, 100)], &vec![foreign], 0, 150, "x");
    assert!(plan.cancel_ids.is_empty());
    assert_eq!(plan.first_batch, vec![order("buy", 1, 100)]);
}

#[test]
fn partition_respects_running_balances() {
    // Orders in priority order: the first buy consumes 100 of the 150
    // quote, so the second buy (needing 60) is deferred, while the third
    // (needing 50) still fits.
    let orders = vec![order("buy", 1, 100), order("buy", 1, 60), order("buy", 1, 50)];
    let (first, second) = partition_by_funds(orders, 0, 150);
    assert_eq!(first, vec![order("buy", 1, 100), order("buy", 1, 50)]);
    assert_eq!(second, vec![order("buy", 1, 60)]);
}

#[test]
fn partition_boundary_is_inclusive() {
    let orders = vec![order("buy", 2, 50)];
    let (first, second) = partition_by_funds(orders, 0, 100);
    assert_eq!(first.len(), 1);
    assert!(second.is_empty());
}

#[test]
fn sells_draw_from_the_base_balance() {
    let orders = vec![order("sell", 3, 100), order("sell", 2, 100), order("buy", 1, 10)];
    let (first, second) = partition_by_funds(orders, 4, 10);
    assert_eq!(first, vec![order("sell", 3, 100), order("buy", 1, 10)]);
    assert_eq!(second, vec![order("sell", 2, 100)]);
}

#[test]
fn sequential_plan_cancels_and_keeps() {
    let current = vec![live(1, "sell", 2, 105), live(2, "buy", 1, 99)];
    let plan = plan_wanna_orders(vec![order("sell", 2, 105), order("buy", 1, 100)], &current, "x");
    assert_eq!(plan.cancel_ids, vec![2]);
    assert_eq!(plan.to_place, vec![order("buy", 1, 100)]);
}

#[test]
fn duplicate_desired_orders_collapse_to_one() {
    // The desired orders are read as a structurally-ordered set: the same
    // buy listed twice is planned once, even with capital for both.
    let wanna = vec![order("buy", 1, 100), order("buy", 1, 100)];
    let plan = plan_wanna_orders_concurrent(wanna, &vec![], 0, 1000, "x");
    assert!(plan.cancel_ids.is_empty());
    assert_eq!(plan.first_batch, vec![order("buy", 1, 100)]);
    assert!(plan.second_batch.is_empty());

    let wanna = vec![order("sell", 2, 105), order("sell", 2, 105), order("buy", 1, 100)];
    let plan = plan_wanna_orders(wanna, &vec![], "x");
    assert!(plan.cancel_ids.is_empty());
    assert_eq!(plan.to_place, vec![order("sell", 2, 105), order("buy", 1, 100)]);
}

#[test]
fn collapsed_duplicates_leave_extra_live_copies_cancelled() {
    // Two identical live orders against a desired set holding that order
    // once: one live order is kept, the surplus copy is cancelled.
    let current = vec![live(1, "buy", 1, 99), live(2, "buy", 1, 99)];
    let wanna = vec![order("buy", 1, 99), order("buy", 1, 99)];
    let plan = plan_wanna_orders(wanna, &current, "x");
    assert_eq!(plan.cancel_ids, vec![2]);
    assert!(plan.to_place.is_empty());
}
