//! Order reconciliation: comparing desired orders against live orders and
//! partitioning placements by available capital.
//!
//! The planning functions here are pure: they compute which order ids to
//! cancel and which desired orders to place, split into a batch that is
//! affordable with the free balances at hand (safe to run concurrently with
//! the cancellations) and a batch that must wait for the cancellations to
//! free capital.

use vstd::prelude::*;

verus! {

/// A resting limit order reduced to the fields reconciliation compares:
/// equality is structural on pair, side, amount and price.
#[derive(Debug)]
pub struct SimplifiedOrder {
    pub pair: String,
    pub side: String,
    pub amount: u64,
    pub price: u64,
}

/// Ghost image of a `SimplifiedOrder`.
pub struct OrderView {
    pub pair: Seq<char>,
    pub side: Seq<char>,
    pub amount: u64,
    pub price: u64,
}

impl View for SimplifiedOrder {
    type V = OrderView;

    open spec fn view(&self) -> OrderView {
        OrderView { pair: self.pair@, side: self.side@, amount: self.amount, price: self.price }
    }
}

impl PartialEq for SimplifiedOrder {
    fn eq(&self, other: &SimplifiedOrder) -> (r: bool) {
        self.pair == other.pair && self.side == other.side && self.amount == other.amount
            && self.price == other.price
    }
}

impl vstd::std_specs::cmp::PartialEqSpecImpl for SimplifiedOrder {
    open spec fn obeys_eq_spec() -> bool {
        true
    }

    open spec fn eq_spec(&self, other: &SimplifiedOrder) -> bool {
        self@ == other@
    }
}

/// An open order as the venue reports it, reduced to plain values: the
/// order id, the pair, side and type, and the remaining amount and price.
pub struct BitbankGetOrderResponse {
    pub order_id: u64,
    pub pair: String,
    pub side: String,
    pub order_type: String,
    pub remaining_amount: u64,
    pub price: u64,
}

/// The venue's answer to a new order: its id and the echoed parameters.
pub struct BitbankCreateOrderResponse {
    pub order_id: u64,
    pub pair: String,
    pub side: String,
    pub order_type: String,
    pub start_amount: u64,
    pub remaining_amount: u64,
    pub executed_amount: u64,
    pub price: u64,
    pub post_only: bool,
    pub user_cancelable: bool,
    pub average_price: u64,
    pub ordered_at: i64,
    pub status: String,
}

/// The venue's answer to a cancellation, one order at a time.
pub struct BitbankCancelOrderResponse {
    pub order_id: u64,
    pub pair: String,
    pub side: String,
    pub order_type: String,
    pub start_amount: u64,
    pub remaining_amount: u64,
    pub executed_amount: u64,
    pub price: u64,
    pub post_only: bool,
    pub user_cancelable: bool,
    pub average_price: u64,
    pub ordered_at: i64,
    pub canceled_at: Option<i64>,
    pub status: String,
}

pub struct BitbankCancelOrdersResponse {
    pub orders: Vec<BitbankCancelOrderResponse>,
}

pub struct BitbankActiveOrdersResponse {
    pub orders: Vec<BitbankGetOrderResponse>,
}

/// Ghost image of a live order: its id, its type, and its structural
/// content.
pub struct LiveView {
    pub order_id: u64,
    pub order_type: Seq<char>,
    pub ord: OrderView,
}

pub open spec fn live_view(o: &BitbankGetOrderResponse) -> LiveView {
    LiveView {
        order_id: o.order_id,
        order_type: o.order_type@,
        ord: OrderView {
            pair: o.pair@,
            side: o.side@,
            amount: o.remaining_amount,
            price: o.price,
        },
    }
}

pub open spec fn order_views(s: Seq<SimplifiedOrder>) -> Seq<OrderView> {
    s.map_values(|o: SimplifiedOrder| o@)
}

pub open spec fn live_views(s: Seq<BitbankGetOrderResponse>) -> Seq<LiveView> {
    s.map_values(|o: BitbankGetOrderResponse| live_view(&o))
}

/// Remove the first occurrence of `v`, if any.
pub open spec fn remove_first(ws: Seq<OrderView>, v: OrderView) -> Seq<OrderView>
    decreases ws.len(),
{
    if ws.len() == 0 {
        ws
    } else if ws[0] == v {
        ws.drop_first()
    } else {
        seq![ws[0]] + remove_first(ws.drop_first(), v)
    }
}

/// The cancel-or-keep step over the live orders, in report order: a live
/// order of the pair with no structurally equal desired order is cancelled;
/// one that matches consumes that desired order, which will not be placed
/// again. Orders of other pairs are left alone. Returns the cancel ids and
/// the desired orders that remain to be placed.
pub open spec fn match_live(ws: Seq<OrderView>, live: Seq<LiveView>, pair: Seq<char>) -> (Seq<
    u64,
>, Seq<OrderView>)
    decreases live.len(),
{
    if live.len() == 0 {
        (Seq::<u64>::empty(), ws)
    } else {
        let l = live[0];
        if !ws.contains(l.ord) && l.ord.pair == pair {
            let rec = match_live(ws, live.drop_first(), pair);
            (seq![l.order_id] + rec.0, rec.1)
        } else {
            match_live(remove_first(ws, l.ord), live.drop_first(), pair)
        }
    }
}

/// Build the comparable form of a live order.
fn simplify_order(cur: &BitbankGetOrderResponse) -> (r: SimplifiedOrder)
    ensures
        r@ == live_view(cur).ord,
{
    SimplifiedOrder {
        pair: cur.pair.clone(),
        side: cur.side.clone(),
        amount: cur.remaining_amount,
        price: cur.price,
    }
}

/// Whether the list holds an order structurally equal to `o`.
fn contains_order(v: &Vec<SimplifiedOrder>, o: &SimplifiedOrder) -> (r: bool)
    ensures
        r == order_views(v@).contains(o@),
{
    let n = v.len();
    let mut i: usize = 0;
    while i < n
        invariant
            n == v@.len(),
            i <= n,
            forall|j: int| 0 <= j < i ==> order_views(v@)[j] != o@,
        decreases n - i,
    {
        proof {
            assert(order_views(v@)[i as int] == v@[i as int]@);
        }
        if v[i] == *o {
            return true;
        }
        i += 1;
    }
    proof {
        if order_views(v@).contains(o@) {
            let w = choose|w: int| 0 <= w < order_views(v@).len() && order_views(v@)[w] == o@;
        }
    }
    false
}

/// Remove the first order structurally equal to `o`, if any.
fn remove_first_order(v: &mut Vec<SimplifiedOrder>, o: &SimplifiedOrder)
    ensures
        order_views(final(v)@) == remove_first(order_views(old(v)@), o@),
{
    let ghost ws0 = order_views(v@);
    let n = v.len();
    let mut i: usize = 0;
    while i < n
        invariant
            n == v@.len(),
            i <= n,
            v@ == old(v)@,
            ws0 == order_views(v@),
            forall|j: int| 0 <= j < i ==> order_views(v@)[j] != o@,
        decreases n - i,
    {
        proof {
            assert(order_views(v@)[i as int] == v@[i as int]@);
        }
        if v[i] == *o {
            let ghost pre = v@;
            v.remove(i);
            proof {
                lemma_remove_first_at(ws0, o@, i as int);
                let tgt = ws0.subrange(0, i as int) + ws0.subrange(i + 1, ws0.len() as int);
                assert forall|j: int| 0 <= j < v@.len() implies #[trigger] order_views(v@)[j]
                    == tgt[j] by {
                    assert(order_views(v@)[j] == v@[j]@);
                    if j < i {
                        assert(v@[j] == pre[j]);
                        assert(ws0[j] == pre[j]@);
                    } else {
                        assert(v@[j] == pre[j + 1]);
                        assert(ws0[j + 1] == pre[j + 1]@);
                    }
                }
                assert(order_views(v@) =~= tgt);
            }
            return ;
        }
        i += 1;
    }
    proof {
        lemma_remove_first_absent(ws0, o@);
    }
}

/// When the first occurrence of `v` sits at index `k`, removing it keeps
/// everything else in place.
proof fn lemma_remove_first_at(ws: Seq<OrderView>, v: OrderView, k: int)
    requires
        0 <= k < ws.len(),
        ws[k] == v,
        forall|j: int| 0 <= j < k ==> ws[j] != v,
    ensures
        remove_first(ws, v) == ws.subrange(0, k) + ws.subrange(k + 1, ws.len() as int),
    decreases ws.len(),
{
    if k == 0 {
        assert(remove_first(ws, v) == ws.drop_first());
        assert(ws.drop_first() =~= ws.subrange(0, 0) + ws.subrange(1, ws.len() as int));
    } else {
        let tail = ws.drop_first();
        assert(tail[k - 1] == ws[k]);
        assert(forall|j: int| 0 <= j < k - 1 ==> tail[j] == ws[j + 1] && ws[j + 1] != v);
        lemma_remove_first_at(tail, v, k - 1);
        assert(seq![ws[0]] + (tail.subrange(0, k - 1) + tail.subrange(k, tail.len() as int))
            =~= ws.subrange(0, k) + ws.subrange(k + 1, ws.len() as int));
    }
}

/// Removing an absent order changes nothing.
proof fn lemma_remove_first_absent(ws: Seq<OrderView>, v: OrderView)
    requires
        forall|j: int| 0 <= j < ws.len() ==> ws[j] != v,
    ensures
        remove_first(ws, v) == ws,
    decreases ws.len(),
{
    if ws.len() > 0 {
        let tail = ws.drop_first();
        assert(forall|j: int| 0 <= j < tail.len() ==> tail[j] == ws[j + 1]);
        lemma_remove_first_absent(tail, v);
        assert(seq![ws[0]] + tail =~= ws);
    }
}

/// The desired orders with structurally identical entries collapsed to
/// their first occurrence: the list read as a structurally-ordered set,
/// keeping priority order.
pub open spec fn dedup_keep_first(ws: Seq<OrderView>) -> Seq<OrderView>
    decreases ws.len(),
{
    if ws.len() == 0 {
        ws
    } else {
        let prefix = dedup_keep_first(ws.drop_last());
        if ws.drop_last().contains(ws.last()) {
            prefix
        } else {
            prefix.push(ws.last())
        }
    }
}

/// Set semantics of the collapse: the result holds each desired order at
/// most once, and exactly the orders the input held.
pub proof fn lemma_dedup_set_semantics(ws: Seq<OrderView>)
    ensures
        forall|i: int, j: int| 0 <= i < j < dedup_keep_first(ws).len() ==> #[trigger] dedup_keep_first(
            ws,
        )[i] != #[trigger] dedup_keep_first(ws)[j],
        forall|x: OrderView| dedup_keep_first(ws).contains(x) <==> ws.contains(x),
    decreases ws.len(),
{
    if ws.len() > 0 {
        let prefix = ws.drop_last();
        let sub = dedup_keep_first(prefix);
        lemma_dedup_set_semantics(prefix);
        assert forall|x: OrderView| dedup_keep_first(ws).contains(x) <==> ws.contains(x) by {
            if dedup_keep_first(ws).contains(x) {
                let w = choose|w: int|
                    0 <= w < dedup_keep_first(ws).len() && dedup_keep_first(ws)[w] == x;
                if w < sub.len() {
                    assert(sub[w] == x);
                    assert(sub.contains(x));
                    assert(prefix.contains(x));
                    let v = choose|v: int| 0 <= v < prefix.len() && prefix[v] == x;
                    assert(prefix[v] == ws[v]);
                    assert(ws.contains(x));
                } else {
                    assert(x == ws.last());
                    assert(ws[ws.len() - 1] == x);
                    assert(ws.contains(x));
                }
            }
            if ws.contains(x) {
                let w = choose|w: int| 0 <= w < ws.len() && ws[w] == x;
                if w < ws.len() - 1 {
                    assert(prefix[w] == ws[w]);
                    assert(prefix.contains(x));
                    assert(sub.contains(x));
                    let v = choose|v: int| 0 <= v < sub.len() && sub[v] == x;
                    assert(dedup_keep_first(ws)[v] == x);
                    assert(dedup_keep_first(ws).contains(x));
                } else {
                    assert(x == ws.last());
                    if prefix.contains(x) {
                        assert(sub.contains(x));
                        let v = choose|v: int| 0 <= v < sub.len() && sub[v] == x;
                        assert(dedup_keep_first(ws)[v] == x);
                        assert(dedup_keep_first(ws).contains(x));
                    } else {
                        assert(dedup_keep_first(ws) == sub.push(x));
                        assert(dedup_keep_first(ws)[sub.len() as int] == x);
                        assert(dedup_keep_first(ws).contains(x));
                    }
                }
            }
        }
        if !prefix.contains(ws.last()) {
            assert forall|i: int, j: int|
                0 <= i < j < dedup_keep_first(ws).len() implies #[trigger] dedup_keep_first(ws)[i]
                != #[trigger] dedup_keep_first(ws)[j] by {
                if j < sub.len() {
                } else {
                    assert(dedup_keep_first(ws)[j] == ws.last());
                    assert(dedup_keep_first(ws)[i] == sub[i]);
                    assert(sub.contains(sub[i]));
                    if sub[i] == ws.last() {
                        assert(prefix.contains(ws.last()));
                    }
                }
            }
        }
    }
}

/// Collapsing keeps every side valid.
proof fn lemma_dedup_valid_sides(ws: Seq<OrderView>)
    requires
        valid_sides(ws),
    ensures
        valid_sides(dedup_keep_first(ws)),
{
    lemma_dedup_set_semantics(ws);
    assert forall|i: int| 0 <= i < dedup_keep_first(ws).len() implies (
    #[trigger] dedup_keep_first(ws)[i]).side == "buy"@ || dedup_keep_first(ws)[i].side
        == "sell"@ by {
        assert(dedup_keep_first(ws).contains(dedup_keep_first(ws)[i]));
        assert(ws.contains(dedup_keep_first(ws)[i]));
        let w = choose|w: int| 0 <= w < ws.len() && ws[w] == dedup_keep_first(ws)[i];
    }
}

/// Collapse structurally identical desired orders to their first
/// occurrence.
fn dedup_orders(orders: Vec<SimplifiedOrder>) -> (r: Vec<SimplifiedOrder>)
    ensures
        order_views(r@) == dedup_keep_first(order_views(orders@)),
{
    let ghost ws0 = order_views(orders@);
    let ghost total = orders@.len() as int;
    let mut rest = orders;
    let mut out: Vec<SimplifiedOrder> = Vec::new();
    let ghost mut i: int = 0;
    proof {
        assert(ws0.subrange(0, 0) =~= Seq::<OrderView>::empty());
        assert(order_views(out@) =~= dedup_keep_first(ws0.subrange(0, 0)));
    }
    while rest.len() > 0
        invariant
            0 <= i,
            rest@.len() + i == total,
            ws0.len() == total,
            order_views(rest@) =~= ws0.subrange(i, total),
            order_views(out@) == dedup_keep_first(ws0.subrange(0, i)),
        decreases rest@.len(),
    {
        let ghost pre = rest@;
        let ghost outs = order_views(out@);
        let o = rest.remove(0);
        proof {
            assert(pre[0]@ == ws0.subrange(i, total)[0]);
            assert(o@ == ws0[i]);
            assert(order_views(rest@) =~= ws0.subrange(i + 1, total)) by {
                assert forall|j: int| 0 <= j < rest@.len() implies #[trigger] order_views(rest@)[j]
                    == ws0[i + 1 + j] by {
                    assert(rest@[j] == pre[j + 1]);
                    assert(order_views(pre)[j + 1] == pre[j + 1]@);
                    assert(ws0.subrange(i, total)[j + 1] == ws0[i + 1 + j]);
                }
            }
        }
        let seen = contains_order(&out, &o);
        proof {
            let t = ws0.subrange(0, i + 1);
            assert(t.drop_last() =~= ws0.subrange(0, i));
            assert(t.last() == ws0[i]);
            lemma_dedup_set_semantics(ws0.subrange(0, i));
            assert(seen == ws0.subrange(0, i).contains(o@));
        }
        if !seen {
            let ghost ov = o@;
            out.push(o);
            proof {
                assert(order_views(out@) =~= outs.push(ov));
            }
        }
        proof {
            i = i + 1;
        }
    }
    proof {
        assert(ws0.subrange(0, total) =~= ws0);
    }
    out
}

/// The cancel ids and the still-to-place desired orders, computed from the
/// desired set and the venue's live orders.
pub struct OrderPlan {
    pub cancel_ids: Vec<u64>,
    pub to_place: Vec<SimplifiedOrder>,
}

/// Step one of reconciliation: read the desired orders as a structurally
/// ordered set (structurally identical entries collapse to one), then walk
/// the live orders, cancelling those of the pair that no desired order
/// matches and striking matched desired orders off the set.
pub fn plan_wanna_orders(
    wanna_place_orders: Vec<SimplifiedOrder>,
    current_orders: &Vec<BitbankGetOrderResponse>,
    pair: &str,
) -> (plan: OrderPlan)
    ensures
        plan.cancel_ids@ == match_live(
            dedup_keep_first(order_views(wanna_place_orders@)),
            live_views(current_orders@),
            pair@,
        ).0,
        order_views(plan.to_place@) == match_live(
            dedup_keep_first(order_views(wanna_place_orders@)),
            live_views(current_orders@),
            pair@,
        ).1,
{
    let ghost ws0 = dedup_keep_first(order_views(wanna_place_orders@));
    let ghost lv = live_views(current_orders@);
    let mut wanna = dedup_orders(wanna_place_orders);
    let mut cancel_ids: Vec<u64> = Vec::new();
    let n = current_orders.len();
    proof {
        assert(lv.subrange(0, n as int) =~= lv);
        assert(Seq::<u64>::empty() + match_live(ws0, lv, pair@).0 =~= match_live(ws0, lv, pair@).0);
    }
    let mut i: usize = 0;
    while i < n
        invariant
            n == current_orders@.len(),
            i <= n,
            lv == live_views(current_orders@),
            match_live(ws0, lv, pair@) == (
                cancel_ids@ + match_live(order_views(wanna@), lv.subrange(i as int, n as int), pair@).0,
                match_live(order_views(wanna@), lv.subrange(i as int, n as int), pair@).1,
            ),
        decreases n - i,
    {
        let ghost tail = lv.subrange(i as int, n as int);
        proof {
            assert(tail[0] == lv[i as int]);
            assert(lv[i as int] == live_view(&current_orders@[i as int]));
            assert(tail.drop_first() =~= lv.subrange(i + 1, n as int));
        }
        let current_sord = simplify_order(&current_orders[i]);
        let in_wanna = contains_order(&wanna, &current_sord);
        let same_pair = crate::strlex::str_eq(current_orders[i].pair.as_str(), pair);
        let ghost cs = cancel_ids@;
        if !in_wanna && same_pair {
            cancel_ids.push(current_orders[i].order_id);
            proof {
                let rec = match_live(order_views(wanna@), tail.drop_first(), pair@);
                assert(match_live(order_views(wanna@), tail, pair@) == (
                    seq![lv[i as int].order_id] + rec.0,
                    rec.1,
                ));
                assert(cancel_ids@ + rec.0 =~= cs + (seq![lv[i as int].order_id] + rec.0));
            }
        } else {
            remove_first_order(&mut wanna, &current_sord);
        }
        i += 1;
    }
    proof {
        assert(lv.subrange(n as int, n as int) =~= Seq::<LiveView>::empty());
        assert(cancel_ids@ + Seq::<u64>::empty() =~= cancel_ids@);
    }
    OrderPlan { cancel_ids, to_place: wanna }
}

/// Every order is a buy or a sell; anything else is a logic error the
/// planner refuses by precondition.
pub open spec fn valid_sides(ws: Seq<OrderView>) -> bool {
    forall|i: int| 0 <= i < ws.len() ==> (#[trigger] ws[i]).side == "buy"@ || ws[i].side
        == "sell"@
}

/// The outcome of the capital partition: the orders affordable from the free
/// balances in priority order, the deferred rest, and the balances left.
pub struct PartitionView {
    pub first: Seq<OrderView>,
    pub second: Seq<OrderView>,
    pub base_left: int,
    pub quote_left: int,
}

/// The prioritized capital partition: walking the desired orders in priority
/// order, a buy goes to the first batch when its quote cost still fits the
/// running free-quote balance, a sell when its amount fits the running
/// free-base balance; everything else waits for the cancellations.
pub open spec fn spec_partition(ws: Seq<OrderView>, base_free: int, quote_free: int)
    -> PartitionView
    decreases ws.len(),
{
    if ws.len() == 0 {
        PartitionView {
            first: Seq::<OrderView>::empty(),
            second: Seq::<OrderView>::empty(),
            base_left: base_free,
            quote_left: quote_free,
        }
    } else {
        let o = ws[0];
        if o.side == "buy"@ {
            let need = o.amount * o.price;
            if quote_free >= need {
                let rec = spec_partition(ws.drop_first(), base_free, quote_free - need);
                PartitionView {
                    first: seq![o] + rec.first,
                    second: rec.second,
                    base_left: rec.base_left,
                    quote_left: rec.quote_left,
                }
            } else {
                let rec = spec_partition(ws.drop_first(), base_free, quote_free);
                PartitionView {
                    first: rec.first,
                    second: seq![o] + rec.second,
                    base_left: rec.base_left,
                    quote_left: rec.quote_left,
                }
            }
        } else {
            let need = o.amount as int;
            if base_free >= need {
                let rec = spec_partition(ws.drop_first(), base_free - need, quote_free);
                PartitionView {
                    first: seq![o] + rec.first,
                    second: rec.second,
                    base_left: rec.base_left,
                    quote_left: rec.quote_left,
                }
            } else {
                let rec = spec_partition(ws.drop_first(), base_free, quote_free);
                PartitionView {
                    first: rec.first,
                    second: seq![o] + rec.second,
                    base_left: rec.base_left,
                    quote_left: rec.quote_left,
                }
            }
        }
    }
}

/// Split the remaining desired orders into the batch affordable right now
/// and the batch that must wait for cancellations to free capital.
pub fn partition_by_funds(orders: Vec<SimplifiedOrder>, base_free: u128, quote_free: u128) -> (r: (
    Vec<SimplifiedOrder>,
    Vec<SimplifiedOrder>,
))
    requires
        valid_sides(order_views(orders@)),
    ensures
        order_views(r.0@) == spec_partition(
            order_views(orders@),
            base_free as int,
            quote_free as int,
        ).first,
        order_views(r.1@) == spec_partition(
            order_views(orders@),
            base_free as int,
            quote_free as int,
        ).second,
{
    let ghost ws0 = order_views(orders@);
    let ghost full = spec_partition(ws0, base_free as int, quote_free as int);
    let mut rest = orders;
    let mut first: Vec<SimplifiedOrder> = Vec::new();
    let mut second: Vec<SimplifiedOrder> = Vec::new();
    let mut next_base: u128 = base_free;
    let mut next_quote: u128 = quote_free;
    proof {
        assert(order_views(first@) + full.first =~= full.first);
        assert(order_views(second@) + full.second =~= full.second);
    }
    while rest.len() > 0
        invariant
            valid_sides(order_views(rest@)),
            full == spec_partition(ws0, base_free as int, quote_free as int),
            full.first == order_views(first@) + spec_partition(
                order_views(rest@),
                next_base as int,
                next_quote as int,
            ).first,
            full.second == order_views(second@) + spec_partition(
                order_views(rest@),
                next_base as int,
                next_quote as int,
            ).second,
        decreases rest@.len(),
    {
        let ghost ws = order_views(rest@);
        let ghost pre = rest@;
        let ghost f0 = order_views(first@);
        let ghost s0 = order_views(second@);
        let o = rest.remove(0);
        proof {
            assert(ws[0] == pre[0]@);
            assert(o@ == ws[0]);
            assert(order_views(rest@) =~= ws.drop_first()) by {
                assert forall|j: int| 0 <= j < rest@.len() implies #[trigger] order_views(rest@)[j]
                    == ws[j + 1] by {
                    assert(rest@[j] == pre[j + 1]);
                    assert(ws[j + 1] == pre[j + 1]@);
                }
            }
            assert(valid_sides(order_views(rest@))) by {
                assert forall|j: int| 0 <= j < order_views(rest@).len() implies (#[trigger] order_views(
                    rest@,
                )[j]).side == "buy"@ || order_views(rest@)[j].side == "sell"@ by {
                    assert(order_views(rest@)[j] == ws[j + 1]);
                }
            }
        }
        let is_buy = crate::strlex::str_eq(o.side.as_str(), "buy");
        if is_buy {
            let need = crate::num::mul_u64(o.amount, o.price);
            if next_quote >= need {
                next_quote = next_quote - need;
                let ghost ov = o@;
                first.push(o);
                proof {
                    assert(order_views(first@) =~= f0.push(ov));
                    let rec = spec_partition(order_views(rest@), next_base as int, next_quote as int);
                    assert(f0.push(ov) + rec.first =~= f0 + (seq![ov] + rec.first));
                }
            } else {
                let ghost ov = o@;
                second.push(o);
                proof {
                    assert(order_views(second@) =~= s0.push(ov));
                    let rec = spec_partition(order_views(rest@), next_base as int, next_quote as int);
                    assert(s0.push(ov) + rec.second =~= s0 + (seq![ov] + rec.second));
                }
            }
        } else {
            let need = o.amount as u128;
            if next_base >= need {
                next_base = next_base - need;
                let ghost ov = o@;
                first.push(o);
                proof {
                    assert(order_views(first@) =~= f0.push(ov));
                    let rec = spec_partition(order_views(rest@), next_base as int, next_quote as int);
                    assert(f0.push(ov) + rec.first =~= f0 + (seq![ov] + rec.first));
                }
            } else {
                let ghost ov = o@;
                second.push(o);
                proof {
                    assert(order_views(second@) =~= s0.push(ov));
                    let rec = spec_partition(order_views(rest@), next_base as int, next_quote as int);
                    assert(s0.push(ov) + rec.second =~= s0 + (seq![ov] + rec.second));
                }
            }
        }
    }
    proof {
        let fin = spec_partition(order_views(rest@), next_base as int, next_quote as int);
        assert(order_views(first@) + fin.first =~= order_views(first@));
        assert(order_views(second@) + fin.second =~= order_views(second@));
    }
    (first, second)
}

/// A full concurrent reconciliation plan: the order ids to cancel, the
/// placements that can run concurrently with those cancellations, and the
/// placements that must wait until the cancellations have freed capital.
pub struct ConcurrentOrderPlan {
    pub cancel_ids: Vec<u64>,
    pub first_batch: Vec<SimplifiedOrder>,
    pub second_batch: Vec<SimplifiedOrder>,
}

/// The planning core of concurrent order replacement: read the desired
/// orders as a structurally-ordered set (structurally identical entries
/// collapse to one, so no desired order is ever planned twice), diff that
/// set against the venue's live orders, then partition what is left to
/// place by the free balances. `btc_free_amount` is the free base-asset
/// balance, `jpy_free_amount` the free quote-asset balance in
/// amount-times-price units.
pub fn plan_wanna_orders_concurrent(
    wanna_place_orders: Vec<SimplifiedOrder>,
    current_orders: &Vec<BitbankGetOrderResponse>,
    btc_free_amount: u128,
    jpy_free_amount: u128,
    pair: &str,
) -> (plan: ConcurrentOrderPlan)
    requires
        valid_sides(order_views(wanna_place_orders@)),
    ensures
        ({
            let m = match_live(
                dedup_keep_first(order_views(wanna_place_orders@)),
                live_views(current_orders@),
                pair@,
            );
            let p = spec_partition(m.1, btc_free_amount as int, jpy_free_amount as int);
            plan.cancel_ids@ == m.0 && order_views(plan.first_batch@) == p.first && order_views(
                plan.second_batch@,
            ) == p.second
        }),
{
    proof {
        lemma_dedup_valid_sides(order_views(wanna_place_orders@));
        lemma_match_live_valid(
            dedup_keep_first(order_views(wanna_place_orders@)),
            live_views(current_orders@),
            pair@,
        );
    }
    let step1 = plan_wanna_orders(wanna_place_orders, current_orders, pair);
    let (first_batch, second_batch) = partition_by_funds(
        step1.to_place,
        btc_free_amount,
        jpy_free_amount,
    );
    ConcurrentOrderPlan { cancel_ids: step1.cancel_ids, first_batch, second_batch }
}

/// Striking an order off the desired list keeps every side valid.
proof fn lemma_remove_first_valid(ws: Seq<OrderView>, v: OrderView)
    requires
        valid_sides(ws),
    ensures
        valid_sides(remove_first(ws, v)),
    decreases ws.len(),
{
    if ws.len() > 0 && ws[0] != v {
        let tail = ws.drop_first();
        assert(valid_sides(tail)) by {
            assert(forall|j: int| 0 <= j < tail.len() ==> tail[j] == ws[j + 1]);
        }
        lemma_remove_first_valid(tail, v);
        let out = seq![ws[0]] + remove_first(tail, v);
        assert forall|j: int| 0 <= j < out.len() implies (#[trigger] out[j]).side == "buy"@
            || out[j].side == "sell"@ by {
            if j > 0 {
                assert(out[j] == remove_first(tail, v)[j - 1]);
            }
        }
    } else if ws.len() > 0 {
        let tail = ws.drop_first();
        assert(valid_sides(tail)) by {
            assert(forall|j: int| 0 <= j < tail.len() ==> tail[j] == ws[j + 1]);
        }
    }
}

/// The desired orders that survive the cancel-or-keep step all have valid
/// sides when the input did.
proof fn lemma_match_live_valid(ws: Seq<OrderView>, live: Seq<LiveView>, pair: Seq<char>)
    requires
        valid_sides(ws),
    ensures
        valid_sides(match_live(ws, live, pair).1),
    decreases live.len(),
{
    if live.len() > 0 {
        let l = live[0];
        if !ws.contains(l.ord) && l.ord.pair == pair {
            lemma_match_live_valid(ws, live.drop_first(), pair);
        } else {
            lemma_remove_first_valid(ws, l.ord);
            lemma_match_live_valid(remove_first(ws, l.ord), live.drop_first(), pair);
        }
    }
}

/// Quote capital a batch of orders consumes: the sum of amount times price
/// over its buys.
pub open spec fn quote_required(s: Seq<OrderView>) -> int
    decreases s.len(),
{
    if s.len() == 0 {
        0
    } else {
        (if s[0].side == "buy"@ {
            s[0].amount * s[0].price
        } else {
            0
        }) + quote_required(s.drop_first())
    }
}

/// Base capital a batch of orders consumes: the sum of amounts over its
/// sells.
pub open spec fn base_required(s: Seq<OrderView>) -> int
    decreases s.len(),
{
    if s.len() == 0 {
        0
    } else {
        (if s[0].side == "buy"@ {
            0
        } else {
            s[0].amount as int
        }) + base_required(s.drop_first())
    }
}

/// Prepending one element to a sequence adds it to the multiset.
proof fn lemma_cons_multiset(x: OrderView, s: Seq<OrderView>)
    ensures
        (seq![x] + s).to_multiset() == s.to_multiset().insert(x),
{
    broadcast use vstd::seq_lib::group_to_multiset_ensures;

    let c = seq![x] + s;
    assert(c.remove(0) =~= s);
    assert(c[0] == x);
    assert(c.remove(0).to_multiset() =~= c.to_multiset().remove(c[0]));
    assert(c.contains(x)) by {
        assert(c[0] == x);
    }
    assert(c.to_multiset().count(x) > 0);
    assert(s.to_multiset().insert(x) =~= c.to_multiset()) by {
        assert forall|y: OrderView| #[trigger] s.to_multiset().insert(x).count(y)
            == c.to_multiset().count(y) by {
            assert(s.to_multiset() == c.to_multiset().remove(x));
        }
    }
}

/// Capital-respecting partition: the first batch never spends more quote or
/// base than was free to begin with, and the two batches together hold the
/// desired orders exactly once, nothing lost and nothing duplicated.
pub proof fn lemma_partition_respects_capital(ws: Seq<OrderView>, base_free: int, quote_free: int)
    requires
        valid_sides(ws),
        base_free >= 0,
        quote_free >= 0,
    ensures
        quote_required(spec_partition(ws, base_free, quote_free).first) <= quote_free,
        base_required(spec_partition(ws, base_free, quote_free).first) <= base_free,
        spec_partition(ws, base_free, quote_free).first.to_multiset().add(
            spec_partition(ws, base_free, quote_free).second.to_multiset(),
        ) == ws.to_multiset(),
    decreases ws.len(),
{
    broadcast use vstd::seq_lib::group_to_multiset_ensures;

    let p = spec_partition(ws, base_free, quote_free);
    if ws.len() == 0 {
        assert(p.first.to_multiset().add(p.second.to_multiset()) =~= ws.to_multiset());
    } else {
        let o = ws[0];
        let tail = ws.drop_first();
        assert(valid_sides(tail)) by {
            assert(forall|j: int| 0 <= j < tail.len() ==> tail[j] == ws[j + 1]);
        }
        assert(ws.to_multiset() == tail.to_multiset().insert(o)) by {
            assert(ws.remove(0) =~= tail);
            assert(ws.remove(0).to_multiset() =~= ws.to_multiset().remove(ws[0]));
            assert(ws.contains(o)) by {
                assert(ws[0] == o);
            }
            assert(ws.to_multiset().count(o) > 0);
            assert(tail.to_multiset().insert(o) =~= ws.to_multiset()) by {
                assert forall|y: OrderView| #[trigger] tail.to_multiset().insert(o).count(y)
                    == ws.to_multiset().count(y) by {
                    assert(tail.to_multiset() == ws.to_multiset().remove(o));
                }
            }
        }
        if o.side == "buy"@ {
            let need = o.amount * o.price;
            assert(o.amount * o.price >= 0) by (nonlinear_arith)
                requires
                    o.amount >= 0,
                    o.price >= 0,
            ;
            if quote_free >= need {
                lemma_partition_respects_capital(tail, base_free, quote_free - need);
                let rec = spec_partition(tail, base_free, quote_free - need);
                lemma_cons_multiset(o, rec.first);
                assert(quote_required(p.first) == need + quote_required(rec.first)) by {
                    assert((seq![o] + rec.first)[0] == o);
                    assert((seq![o] + rec.first).drop_first() =~= rec.first);
                }
                assert(base_required(p.first) == base_required(rec.first)) by {
                    assert((seq![o] + rec.first)[0] == o);
                    assert((seq![o] + rec.first).drop_first() =~= rec.first);
                }
                assert(p.first.to_multiset().add(p.second.to_multiset())
                    =~= ws.to_multiset()) by {
                    assert forall|y: OrderView| #[trigger] p.first.to_multiset().add(
                        p.second.to_multiset(),
                    ).count(y) == ws.to_multiset().count(y) by {
                        assert(p.first.to_multiset() == rec.first.to_multiset().insert(o));
                        assert(rec.first.to_multiset().add(rec.second.to_multiset())
                            == tail.to_multiset());
                    }
                }
            } else {
                lemma_partition_respects_capital(tail, base_free, quote_free);
                let rec = spec_partition(tail, base_free, quote_free);
                lemma_cons_multiset(o, rec.second);
                assert(p.first.to_multiset().add(p.second.to_multiset())
                    =~= ws.to_multiset()) by {
                    assert forall|y: OrderView| #[trigger] p.first.to_multiset().add(
                        p.second.to_multiset(),
                    ).count(y) == ws.to_multiset().count(y) by {
                        assert(p.second.to_multiset() == rec.second.to_multiset().insert(o));
                        assert(rec.first.to_multiset().add(rec.second.to_multiset())
                            == tail.to_multiset());
                    }
                }
            }
        } else {
            let need = o.amount as int;
            if base_free >= need {
                lemma_partition_respects_capital(tail, base_free - need, quote_free);
                let rec = spec_partition(tail, base_free - need, quote_free);
                lemma_cons_multiset(o, rec.first);
                assert(quote_required(p.first) == quote_required(rec.first)) by {
                    assert((seq![o] + rec.first)[0] == o);
                    assert((seq![o] + rec.first).drop_first() =~= rec.first);
                }
                assert(base_required(p.first) == need + base_required(rec.first)) by {
                    assert((seq![o] + rec.first)[0] == o);
                    assert((seq![o] + rec.first).drop_first() =~= rec.first);
                }
                assert(p.first.to_multiset().add(p.second.to_multiset())
                    =~= ws.to_multiset()) by {
                    assert forall|y: OrderView| #[trigger] p.first.to_multiset().add(
                        p.second.to_multiset(),
                    ).count(y) == ws.to_multiset().count(y) by {
                        assert(p.first.to_multiset() == rec.first.to_multiset().insert(o));
                        assert(rec.first.to_multiset().add(rec.second.to_multiset())
                            == tail.to_multiset());
                    }
                }
            } else {
                lemma_partition_respects_capital(tail, base_free, quote_free);
                let rec = spec_partition(tail, base_free, quote_free);
                lemma_cons_multiset(o, rec.second);
                assert(p.first.to_multiset().add(p.second.to_multiset())
                    =~= ws.to_multiset()) by {
                    assert forall|y: OrderView| #[trigger] p.first.to_multiset().add(
                        p.second.to_multiset(),
                    ).count(y) == ws.to_multiset().count(y) by {
                        assert(p.second.to_multiset() == rec.second.to_multiset().insert(o));
                        assert(rec.first.to_multiset().add(rec.second.to_multiset())
                            == tail.to_multiset());
                    }
                }
            }
        }
    }
}

/// No desired order occurs twice.
pub open spec fn orders_distinct(ws: Seq<OrderView>) -> bool {
    forall|i: int, j: int| 0 <= i < j < ws.len() ==> #[trigger] ws[i] != #[trigger] ws[j]
}

/// Striking an order never introduces one: every survivor was present.
proof fn lemma_remove_first_member(ws: Seq<OrderView>, v: OrderView, x: OrderView)
    requires
        remove_first(ws, v).contains(x),
    ensures
        ws.contains(x),
    decreases ws.len(),
{
    if ws.len() > 0 {
        if ws[0] == v {
            let w = choose|w: int|
                0 <= w < remove_first(ws, v).len() && remove_first(ws, v)[w] == x;
            assert(ws[w + 1] == x);
        } else {
            let out = seq![ws[0]] + remove_first(ws.drop_first(), v);
            let w = choose|w: int| 0 <= w < out.len() && out[w] == x;
            if w == 0 {
                assert(ws[0] == x);
            } else {
                assert(remove_first(ws.drop_first(), v)[w - 1] == x);
                lemma_remove_first_member(ws.drop_first(), v, x);
                let u = choose|u: int| 0 <= u < ws.drop_first().len() && ws.drop_first()[u] == x;
                assert(ws[u + 1] == x);
            }
        }
    }
}

/// Striking an order off a duplicate-free list leaves it duplicate-free.
proof fn lemma_remove_first_distinct(ws: Seq<OrderView>, v: OrderView)
    requires
        orders_distinct(ws),
    ensures
        orders_distinct(remove_first(ws, v)),
    decreases ws.len(),
{
    if ws.len() > 0 {
        let tail = ws.drop_first();
        assert(orders_distinct(tail)) by {
            assert(forall|i: int, j: int| 0 <= i < j < tail.len() ==> tail[i] == ws[i + 1]
                && tail[j] == ws[j + 1]);
        }
        if ws[0] == v {
        } else {
            lemma_remove_first_distinct(tail, v);
            let out = seq![ws[0]] + remove_first(tail, v);
            assert forall|i: int, j: int| 0 <= i < j < out.len() implies #[trigger] out[i]
                != #[trigger] out[j] by {
                if i == 0 {
                    assert(out[j] == remove_first(tail, v)[j - 1]);
                    if out[j] == ws[0] {
                        assert(remove_first(tail, v).contains(ws[0]));
                        lemma_remove_first_member(tail, v, ws[0]);
                        let u = choose|u: int| 0 <= u < tail.len() && tail[u] == ws[0];
                        assert(ws[u + 1] == ws[0]);
                    }
                } else {
                    assert(out[i] == remove_first(tail, v)[i - 1]);
                    assert(out[j] == remove_first(tail, v)[j - 1]);
                }
            }
        }
    }
}

/// The desired orders surviving the cancel-or-keep step are duplicate-free
/// when the input set was.
proof fn lemma_match_live_distinct(ws: Seq<OrderView>, live: Seq<LiveView>, pair: Seq<char>)
    requires
        orders_distinct(ws),
    ensures
        orders_distinct(match_live(ws, live, pair).1),
    decreases live.len(),
{
    if live.len() > 0 {
        let l = live[0];
        if !ws.contains(l.ord) && l.ord.pair == pair {
            lemma_match_live_distinct(ws, live.drop_first(), pair);
        } else {
            lemma_remove_first_distinct(ws, l.ord);
            lemma_match_live_distinct(remove_first(ws, l.ord), live.drop_first(), pair);
        }
    }
}

/// Each desired order is planned at most once: the planners read the
/// desired list as a structurally-ordered set, that set is duplicate-free,
/// and the cancel-or-keep step only ever removes from it. Together with the
/// capital partition preserving the remainder as a multiset, no placement
/// is ever planned twice.
pub proof fn lemma_each_order_planned_once(ws: Seq<OrderView>, live: Seq<LiveView>, pair: Seq<
    char,
>)
    ensures
        orders_distinct(match_live(dedup_keep_first(ws), live, pair).1),
{
    lemma_dedup_set_semantics(ws);
    lemma_match_live_distinct(dedup_keep_first(ws), live, pair);
}

/// The structural content of each live order.
pub open spec fn live_ords(live: Seq<LiveView>) -> Seq<OrderView> {
    live.map_values(|l: LiveView| l.ord)
}

/// Removing the first occurrence takes one copy out of the multiset.
proof fn lemma_remove_first_multiset(ws: Seq<OrderView>, v: OrderView)
    requires
        ws.contains(v),
    ensures
        remove_first(ws, v).to_multiset() == ws.to_multiset().remove(v),
    decreases ws.len(),
{
    broadcast use vstd::seq_lib::group_to_multiset_ensures;

    if ws[0] == v {
        assert(remove_first(ws, v) == ws.drop_first());
        assert(ws.remove(0) =~= ws.drop_first());
        assert(ws.remove(0).to_multiset() =~= ws.to_multiset().remove(ws[0]));
    } else {
        let tail = ws.drop_first();
        assert(tail.contains(v)) by {
            let w = choose|w: int| 0 <= w < ws.len() && ws[w] == v;
            assert(tail[w - 1] == v);
        }
        lemma_remove_first_multiset(tail, v);
        lemma_cons_multiset(ws[0], remove_first(tail, v));
        assert(ws.to_multiset() == tail.to_multiset().insert(ws[0])) by {
            assert(ws.remove(0) =~= tail);
            assert(ws.remove(0).to_multiset() =~= ws.to_multiset().remove(ws[0]));
            assert(ws.contains(ws[0]));
            assert(ws.to_multiset().count(ws[0]) > 0);
            assert(tail.to_multiset().insert(ws[0]) =~= ws.to_multiset()) by {
                assert forall|y: OrderView| #[trigger] tail.to_multiset().insert(ws[0]).count(y)
                    == ws.to_multiset().count(y) by {
                    assert(tail.to_multiset() == ws.to_multiset().remove(ws[0]));
                }
            }
        }
        assert(remove_first(ws, v).to_multiset() =~= ws.to_multiset().remove(v)) by {
            assert forall|y: OrderView| #[trigger] remove_first(ws, v).to_multiset().count(y)
                == ws.to_multiset().remove(v).count(y) by {
                assert(remove_first(ws, v).to_multiset() == remove_first(tail, v).to_multiset()
                    .insert(ws[0]));
                assert(remove_first(tail, v).to_multiset() == tail.to_multiset().remove(v));
            }
        }
    }
}

/// Reconciliation idempotence: when the venue's live orders for the pair are
/// exactly the desired orders, the cancel-or-keep step cancels nothing and
/// leaves nothing to place, so a second reconciliation run is a no-op.
pub proof fn lemma_reconcile_idempotent(ws: Seq<OrderView>, live: Seq<LiveView>, pair: Seq<char>)
    requires
        live_ords(live).to_multiset() == ws.to_multiset(),
        forall|i: int| 0 <= i < live.len() ==> (#[trigger] live[i]).ord.pair == pair,
    ensures
        match_live(ws, live, pair).0 == Seq::<u64>::empty(),
        match_live(ws, live, pair).1 == Seq::<OrderView>::empty(),
    decreases live.len(),
{
    broadcast use vstd::seq_lib::group_to_multiset_ensures;

    if live.len() == 0 {
        assert(live_ords(live) =~= Seq::<OrderView>::empty());
        assert(ws.to_multiset().len() == 0);
        assert(ws.len() == 0);
        assert(ws =~= Seq::<OrderView>::empty());
    } else {
        let l = live[0];
        let lo = live_ords(live);
        assert(lo[0] == l.ord);
        assert(lo.contains(l.ord));
        assert(lo.to_multiset().count(l.ord) > 0);
        assert(ws.to_multiset().count(l.ord) > 0);
        assert(ws.contains(l.ord));
        lemma_remove_first_multiset(ws, l.ord);
        let tail = live.drop_first();
        assert(live_ords(tail) =~= lo.drop_first()) by {
            assert forall|j: int| 0 <= j < tail.len() implies #[trigger] live_ords(tail)[j]
                == lo[j + 1] by {
                assert(tail[j] == live[j + 1]);
            }
        }
        assert(lo.remove(0) =~= lo.drop_first());
        assert(lo.remove(0).to_multiset() =~= lo.to_multiset().remove(lo[0]));
        assert(live_ords(tail).to_multiset() == remove_first(ws, l.ord).to_multiset());
        assert(forall|i: int| 0 <= i < tail.len() ==> (#[trigger] tail[i]).ord.pair == pair) by {
            assert(forall|i: int| 0 <= i < tail.len() ==> tail[i] == live[i + 1]);
        }
        lemma_reconcile_idempotent(remove_first(ws, l.ord), tail, pair);
    }
}

} // verus!
