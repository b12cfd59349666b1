//! Order-book sides and depth queries.
//!
//! A side of the book is an ordered mapping from price to quantity with
//! strictly ascending unique prices and no zero quantities. Asks and bids are
//! both stored ascending; the best ask is the first level, the best bid the
//! last one.

use vstd::prelude::*;

verus! {

/// One price level: price and quantity, both scaled integers.
pub type Level = (u64, u64);

/// Prices strictly ascending.
pub open spec fn sorted_strict(s: Seq<Level>) -> bool {
    forall|i: int, j: int| 0 <= i < j < s.len() ==> (#[trigger] s[i]).0 < (#[trigger] s[j]).0
}

/// No level with zero quantity is ever stored.
pub open spec fn no_zero_qty(s: Seq<Level>) -> bool {
    forall|i: int| 0 <= i < s.len() ==> (#[trigger] s[i]).1 != 0
}

pub open spec fn side_wf(s: Seq<Level>) -> bool {
    sorted_strict(s) && no_zero_qty(s)
}

pub open spec fn has_price(s: Seq<Level>, p: int) -> bool {
    exists|i: int| 0 <= i < s.len() && (#[trigger] s[i]).0 == p
}

pub open spec fn price_index(s: Seq<Level>, p: int) -> int {
    choose|i: int| 0 <= i < s.len() && (#[trigger] s[i]).0 == p
}

/// The side seen as a mapping from price to quantity.
pub open spec fn side_map(s: Seq<Level>) -> Map<int, int> {
    Map::new(|p: int| has_price(s, p), |p: int| s[price_index(s, p)].1 as int)
}

/// In a sorted side, each price occurs at exactly one index.
pub proof fn lemma_price_index(s: Seq<Level>, p: int)
    requires
        sorted_strict(s),
        has_price(s, p),
    ensures
        0 <= price_index(s, p) < s.len(),
        s[price_index(s, p)].0 == p,
        forall|i: int| 0 <= i < s.len() && (#[trigger] s[i]).0 == p ==> i == price_index(s, p),
{
    let w = price_index(s, p);
    assert(0 <= w < s.len() && s[w].0 == p);
    assert forall|i: int| 0 <= i < s.len() && (#[trigger] s[i]).0 == p implies i == w by {
        if i < w {
            assert(s[i].0 < s[w].0);
        } else if w < i {
            assert(s[w].0 < s[i].0);
        }
    }
}

/// One side of the book.
pub struct OrderBookSide {
    pub levels: Vec<Level>,
}

impl View for OrderBookSide {
    type V = Seq<Level>;

    open spec fn view(&self) -> Seq<Level> {
        self.levels@
    }
}

impl OrderBookSide {
    pub open spec fn wf(&self) -> bool {
        side_wf(self@)
    }

    /// The price-to-quantity mapping this side represents.
    pub open spec fn price_map(&self) -> Map<int, int> {
        side_map(self@)
    }

    pub fn new() -> (r: OrderBookSide)
        ensures
            r.wf(),
            r@ =~= Seq::<Level>::empty(),
            r.price_map() =~= Map::<int, int>::empty(),
    {
        let r = OrderBookSide { levels: Vec::new() };
        proof {
            assert forall|p: int| !has_price(r@, p) by {}
        }
        r
    }

    pub fn len(&self) -> (n: usize)
        ensures
            n == self@.len(),
    {
        self.levels.len()
    }

    /// The level at a given position, counted from the lowest price.
    pub fn level_at(&self, i: usize) -> (l: Level)
        requires
            i < self@.len(),
        ensures
            l == self@[i as int],
    {
        self.levels[i]
    }

    pub fn clear(&mut self)
        ensures
            final(self).wf(),
            final(self)@ =~= Seq::<Level>::empty(),
    {
        self.levels.clear();
    }

    /// First index whose price is at least `price` (the side's length if none).
    fn lower_bound(&self, price: u64) -> (i: usize)
        requires
            self.wf(),
        ensures
            i <= self@.len(),
            forall|j: int| 0 <= j < i ==> (#[trigger] self@[j]).0 < price,
            forall|j: int| i <= j < self@.len() ==> (#[trigger] self@[j]).0 >= price,
    {
        let n = self.levels.len();
        let mut i: usize = 0;
        while i < n && self.levels[i].0 < price
            invariant
                n == self@.len(),
                i <= n,
                side_wf(self@),
                forall|j: int| 0 <= j < i ==> (#[trigger] self@[j]).0 < price,
            decreases n - i,
        {
            i += 1;
        }
        proof {
            assert forall|j: int| i <= j < self@.len() implies (#[trigger] self@[j]).0 >= price by {
                if j > i {
                    assert(self@[i as int].0 < self@[j].0);
                }
            }
        }
        i
    }

    /// Upsert the quantity at a price, or remove the price when the quantity
    /// is zero.
    pub fn apply_level(&mut self, price: u64, qty: u64)
        requires
            old(self).wf(),
        ensures
            final(self).wf(),
            final(self).price_map() == if qty == 0 {
                old(self).price_map().remove(price as int)
            } else {
                old(self).price_map().insert(price as int, qty as int)
            },
    {
        let ghost s0 = self@;
        let i = self.lower_bound(price);
        if i < self.levels.len() && self.levels[i].0 == price {
            if qty == 0 {
                self.levels.remove(i);
                proof {
                    lemma_removed_map(s0, self@, i as int, price as int);
                }
            } else {
                let ghost iw = i as int;
                self.levels.set(i, (price, qty));
                proof {
                    lemma_updated_map(s0, self@, iw, price as int, qty as int);
                }
            }
        } else {
            if qty == 0 {
                proof {
                    assert forall|p: int| has_price(s0, p) implies p != price by {
                        let w = price_index(s0, p);
                        assert(s0[w].0 == p);
                    }
                    assert(self.price_map() =~= side_map(s0).remove(price as int));
                }
            } else {
                let ghost iw = i as int;
                self.levels.insert(i, (price, qty));
                proof {
                    lemma_inserted_map(s0, self@, iw, price as int, qty as int);
                }
            }
        }
    }
}

/// Removing the index holding `p` from a sorted side removes exactly `p`
/// from the mapping.
proof fn lemma_removed_map(s0: Seq<Level>, s1: Seq<Level>, i: int, p: int)
    requires
        side_wf(s0),
        0 <= i < s0.len(),
        s0[i].0 == p,
        s1 == s0.remove(i),
    ensures
        side_wf(s1),
        side_map(s1) == side_map(s0).remove(p),
{
    assert forall|a: int, b: int| 0 <= a < b < s1.len() implies (#[trigger] s1[a]).0 < (#[trigger] s1[b]).0 by {
        let a0 = if a < i { a } else { a + 1 };
        let b0 = if b < i { b } else { b + 1 };
        assert(s1[a] == s0[a0]);
        assert(s1[b] == s0[b0]);
    }
    assert forall|a: int| 0 <= a < s1.len() implies (#[trigger] s1[a]).1 != 0 by {
        let a0 = if a < i { a } else { a + 1 };
        assert(s1[a] == s0[a0]);
    }
    assert(side_map(s1) =~= side_map(s0).remove(p)) by {
        assert forall|q: int| has_price(s1, q) implies has_price(s0, q) && q != p by {
            let w = price_index(s1, q);
            let w0 = if w < i { w } else { w + 1 };
            assert(s1[w] == s0[w0]);
            lemma_price_index(s0, q);
            if q == p {
                assert(w0 == i);
            }
        }
        assert forall|q: int| has_price(s0, q) && q != p implies has_price(s1, q) by {
            lemma_price_index(s0, q);
            let w0 = price_index(s0, q);
            if w0 < i {
                assert(s1[w0] == s0[w0]);
            } else {
                assert(i < w0);
                assert(s1[w0 - 1] == s0[w0]);
            }
        }
        assert forall|q: int| has_price(s1, q) implies side_map(s1)[q] == side_map(s0)[q] by {
            lemma_price_index(s1, q);
            lemma_price_index(s0, q);
            let w = price_index(s1, q);
            let w0 = if w < i { w } else { w + 1 };
            assert(s1[w] == s0[w0]);
        }
    }
}

/// Overwriting the quantity at the index holding `p` updates exactly `p`
/// in the mapping.
proof fn lemma_updated_map(s0: Seq<Level>, s1: Seq<Level>, i: int, p: int, q: int)
    requires
        side_wf(s0),
        0 <= i < s0.len(),
        s0[i].0 == p,
        q != 0,
        0 <= q <= u64::MAX,
        s1 == s0.update(i, (p as u64, q as u64)),
    ensures
        side_wf(s1),
        side_map(s1) == side_map(s0).insert(p, q),
{
    assert forall|a: int, b: int| 0 <= a < b < s1.len() implies (#[trigger] s1[a]).0 < (#[trigger] s1[b]).0 by {
        assert(s0[a].0 < s0[b].0);
    }
    assert(side_map(s1) =~= side_map(s0).insert(p, q)) by {
        assert forall|r: int| has_price(s1, r) implies has_price(s0, r) by {
            let w = price_index(s1, r);
            assert(s0[w].0 == r);
        }
        assert forall|r: int| has_price(s0, r) implies has_price(s1, r) by {
            let w = price_index(s0, r);
            assert(s1[w].0 == r);
        }
        assert forall|r: int| has_price(s1, r) implies side_map(s1)[r] == side_map(s0).insert(p, q)[r] by {
            lemma_price_index(s1, r);
            lemma_price_index(s0, r);
            let w = price_index(s1, r);
            if r == p {
                assert(w == i);
            } else {
                assert(s1[w] == s0[w]);
            }
        }
    }
}

/// Sum of the quantities of the first `k` levels.
pub open spec fn qty_prefix(s: Seq<Level>, k: int) -> int
    decreases k,
{
    if k <= 0 {
        0
    } else {
        qty_prefix(s, k - 1) + s[k - 1].1
    }
}

/// Sum of price times quantity over the first `k` levels.
pub open spec fn notional_prefix(s: Seq<Level>, k: int) -> int
    decreases k,
{
    if k <= 0 {
        0
    } else {
        notional_prefix(s, k - 1) + s[k - 1].0 * s[k - 1].1
    }
}

/// The first price whose cumulative quantity from the front reaches `r`.
pub open spec fn r_depth_spec(s: Seq<Level>, r: int) -> Option<u64>
    decreases s.len(),
{
    if s.len() == 0 {
        None
    } else if s[0].1 >= r {
        Some(s[0].0)
    } else {
        r_depth_spec(s.drop_first(), r - s[0].1)
    }
}

/// The first price whose cumulative notional from the front reaches `target`.
pub open spec fn s_depth_spec(s: Seq<Level>, target: int) -> Option<u64>
    decreases s.len(),
{
    if s.len() == 0 {
        None
    } else if s[0].0 * s[0].1 >= target {
        Some(s[0].0)
    } else {
        s_depth_spec(s.drop_first(), target - s[0].0 * s[0].1)
    }
}

/// A depth price, when defined, is one of the side's own prices.
pub proof fn lemma_r_depth_in_prices(s: Seq<Level>, r: int)
    requires
        r_depth_spec(s, r) is Some,
    ensures
        has_price(s, r_depth_spec(s, r)->Some_0 as int),
    decreases s.len(),
{
    if s.len() > 0 && !(s[0].1 >= r) {
        lemma_r_depth_in_prices(s.drop_first(), r - s[0].1);
        let p = r_depth_spec(s, r)->Some_0 as int;
        let w = price_index(s.drop_first(), p);
        assert(s[w + 1].0 == p);
    }
}

pub proof fn lemma_s_depth_in_prices(s: Seq<Level>, target: int)
    requires
        s_depth_spec(s, target) is Some,
    ensures
        has_price(s, s_depth_spec(s, target)->Some_0 as int),
    decreases s.len(),
{
    if s.len() > 0 && !(s[0].0 * s[0].1 >= target) {
        lemma_s_depth_in_prices(s.drop_first(), target - s[0].0 * s[0].1);
        let p = s_depth_spec(s, target)->Some_0 as int;
        let w = price_index(s.drop_first(), p);
        assert(s[w + 1].0 == p);
    }
}

proof fn lemma_drop_first_sorted(s: Seq<Level>)
    requires
        sorted_strict(s),
        s.len() > 0,
    ensures
        sorted_strict(s.drop_first()),
{
    assert forall|i: int, j: int| 0 <= i < j < s.drop_first().len()
        implies (#[trigger] s.drop_first()[i]).0 < (#[trigger] s.drop_first()[j]).0 by {
        assert(s.drop_first()[i] == s[i + 1]);
        assert(s.drop_first()[j] == s[j + 1]);
    }
}

/// Asking for more size can only move the depth price away from the front:
/// on an ascending side the price is non-decreasing in the requested size.
pub proof fn lemma_r_depth_monotonic(s: Seq<Level>, r1: int, r2: int)
    requires
        sorted_strict(s),
        r1 <= r2,
        r_depth_spec(s, r1) is Some,
        r_depth_spec(s, r2) is Some,
    ensures
        r_depth_spec(s, r1)->Some_0 <= r_depth_spec(s, r2)->Some_0,
    decreases s.len(),
{
    if s.len() > 0 {
        if s[0].1 >= r2 {
            assert(s[0].1 >= r1);
        } else if s[0].1 >= r1 {
            lemma_r_depth_in_prices(s.drop_first(), r2 - s[0].1);
            let p2 = r_depth_spec(s.drop_first(), r2 - s[0].1)->Some_0 as int;
            let w = price_index(s.drop_first(), p2);
            assert(s[w + 1].0 == p2);
            assert(s[0].0 < s[w + 1].0);
        } else {
            lemma_drop_first_sorted(s);
            lemma_r_depth_monotonic(s.drop_first(), r1 - s[0].1, r2 - s[0].1);
        }
    }
}

/// The notional variant of the same monotonicity property.
pub proof fn lemma_s_depth_monotonic(s: Seq<Level>, t1: int, t2: int)
    requires
        sorted_strict(s),
        t1 <= t2,
        s_depth_spec(s, t1) is Some,
        s_depth_spec(s, t2) is Some,
    ensures
        s_depth_spec(s, t1)->Some_0 <= s_depth_spec(s, t2)->Some_0,
    decreases s.len(),
{
    if s.len() > 0 {
        if s[0].0 * s[0].1 >= t2 {
        } else if s[0].0 * s[0].1 >= t1 {
            lemma_s_depth_in_prices(s.drop_first(), t2 - s[0].0 * s[0].1);
            let p2 = s_depth_spec(s.drop_first(), t2 - s[0].0 * s[0].1)->Some_0 as int;
            let w = price_index(s.drop_first(), p2);
            assert(s[w + 1].0 == p2);
            assert(s[0].0 < s[w + 1].0);
        } else {
            lemma_drop_first_sorted(s);
            lemma_s_depth_monotonic(s.drop_first(), t1 - s[0].0 * s[0].1, t2 - s[0].0 * s[0].1);
        }
    }
}

/// A full order book: asks and bids, both ascending by price. The best ask is
/// the lowest ask price, the best bid the highest bid price.
pub struct OrderBook {
    pub asks: OrderBookSide,
    pub bids: OrderBookSide,
}

impl OrderBook {
    pub open spec fn wf(&self) -> bool {
        self.asks.wf() && self.bids.wf()
    }

    pub fn new() -> (r: OrderBook)
        ensures
            r.wf(),
            r.asks@ =~= Seq::<Level>::empty(),
            r.bids@ =~= Seq::<Level>::empty(),
    {
        OrderBook { asks: OrderBookSide::new(), bids: OrderBookSide::new() }
    }

    /// Lowest ask level.
    pub fn best_ask(&self) -> (r: Option<Level>)
        ensures
            r == if self.asks@.len() == 0 {
                Option::<Level>::None
            } else {
                Some(self.asks@[0])
            },
    {
        if self.asks.len() == 0 {
            None
        } else {
            Some(self.asks.level_at(0))
        }
    }

    /// Highest bid level.
    pub fn best_bid(&self) -> (r: Option<Level>)
        ensures
            r == if self.bids@.len() == 0 {
                Option::<Level>::None
            } else {
                Some(self.bids@.last())
            },
    {
        let n = self.bids.len();
        if n == 0 {
            None
        } else {
            Some(self.bids.level_at(n - 1))
        }
    }

    /// The ask level `k` steps away from the best ask (0-indexed).
    pub fn kth_best_ask(&self, k: usize) -> (r: Option<Level>)
        ensures
            r == if k < self.asks@.len() {
                Some(self.asks@[k as int])
            } else {
                Option::<Level>::None
            },
    {
        if k < self.asks.len() {
            Some(self.asks.level_at(k))
        } else {
            None
        }
    }

    /// The bid level `k` steps away from the best bid (0-indexed).
    pub fn kth_best_bid(&self, k: usize) -> (r: Option<Level>)
        ensures
            r == if k < self.bids@.len() {
                Some(self.bids@[self.bids@.len() - 1 - k])
            } else {
                Option::<Level>::None
            },
    {
        let n = self.bids.len();
        if k < n {
            Some(self.bids.level_at(n - 1 - k))
        } else {
            None
        }
    }

    /// The lowest price whose cumulative ask quantity from the best ask
    /// reaches `r`: the worst price a market buy of size `r` would pay.
    pub fn r_depth_ask_price(&self, r: u64) -> (res: Option<u64>)
        requires
            self.wf(),
        ensures
            res == r_depth_spec(self.asks@, r as int),
    {
        r_depth_scan(&self.asks.levels, r)
    }

    /// The highest price whose cumulative bid quantity from the best bid
    /// reaches `r`: the worst price a market sell of size `r` would hit.
    pub fn r_depth_bid_price(&self, r: u64) -> (res: Option<u64>)
        requires
            self.wf(),
        ensures
            res == r_depth_spec(self.bids@.reverse(), r as int),
    {
        let mut rev: Vec<Level> = Vec::new();
        let n = self.bids.levels.len();
        let mut i: usize = 0;
        while i < n
            invariant
                n == self.bids@.len(),
                i <= n,
                rev@.len() == i,
                forall|j: int| 0 <= j < i ==> rev@[j] == self.bids@[n - 1 - j],
            decreases n - i,
        {
            rev.push(self.bids.levels[n - 1 - i]);
            i += 1;
        }
        proof {
            assert(rev@ =~= self.bids@.reverse());
        }
        r_depth_scan(&rev, r)
    }

    /// Like `r_depth_ask_price` but accumulating notional (price times
    /// quantity) until it reaches `target`.
    pub fn s_depth_ask_price(&self, target: u128) -> (res: Option<u64>)
        requires
            self.wf(),
        ensures
            res == s_depth_spec(self.asks@, target as int),
    {
        s_depth_scan(&self.asks.levels, target)
    }

    /// Like `r_depth_bid_price` but accumulating notional.
    pub fn s_depth_bid_price(&self, target: u128) -> (res: Option<u64>)
        requires
            self.wf(),
        ensures
            res == s_depth_spec(self.bids@.reverse(), target as int),
    {
        let mut rev: Vec<Level> = Vec::new();
        let n = self.bids.levels.len();
        let mut i: usize = 0;
        while i < n
            invariant
                n == self.bids@.len(),
                i <= n,
                rev@.len() == i,
                forall|j: int| 0 <= j < i ==> rev@[j] == self.bids@[n - 1 - j],
            decreases n - i,
        {
            rev.push(self.bids.levels[n - 1 - i]);
            i += 1;
        }
        proof {
            assert(rev@ =~= self.bids@.reverse());
        }
        s_depth_scan(&rev, target)
    }

    /// Best ask price minus best bid price, when both sides have data.
    pub fn bidask_spread(&self) -> (r: Option<i128>)
        ensures
            r is Some <==> self.asks@.len() > 0 && self.bids@.len() > 0,
            r is Some ==> r->Some_0 == self.asks@[0].0 - self.bids@.last().0,
    {
        if self.asks.len() > 0 && self.bids.len() > 0 {
            let a = self.asks.level_at(0).0;
            let b = self.bids.level_at(self.bids.len() - 1).0;
            Some(a as i128 - b as i128)
        } else {
            None
        }
    }

    /// Best bid quantity minus best ask quantity, when both sides have data.
    pub fn bidask_imbalance(&self) -> (r: Option<i128>)
        ensures
            r is Some <==> self.asks@.len() > 0 && self.bids@.len() > 0,
            r is Some ==> r->Some_0 == self.bids@.last().1 - self.asks@[0].1,
    {
        if self.asks.len() > 0 && self.bids.len() > 0 {
            let a = self.asks.level_at(0).1;
            let b = self.bids.level_at(self.bids.len() - 1).1;
            Some(b as i128 - a as i128)
        } else {
            None
        }
    }
}

/// Scan a sequence of levels front to back, returning the first price at
/// which the cumulative quantity reaches `r`.
fn r_depth_scan(levels: &Vec<Level>, r: u64) -> (res: Option<u64>)
    ensures
        res == r_depth_spec(levels@, r as int),
{
    let ghost s = levels@;
    let n = levels.len();
    proof {
        assert(s.subrange(0, n as int) =~= s);
    }
    let mut sum: u128 = 0;
    let mut i: usize = 0;
    while i < n
        invariant
            n == s.len(),
            i <= n,
            s == levels@,
            sum == crate::num::sat128(qty_prefix(s, i as int)),
            sum <= r,
            r_depth_spec(s, r as int) == r_depth_spec(s.subrange(i as int, n as int), r - sum),
        decreases n - i,
    {
        let (price, qty) = levels[i];
        let next = crate::num::sat_add_u128(sum, qty as u128);
        proof {
            let tail = s.subrange(i as int, n as int);
            assert(tail[0] == s[i as int]);
            assert(tail.drop_first() =~= s.subrange(i + 1, n as int));
        }
        if next >= r as u128 {
            return Some(price);
        }
        sum = next;
        i += 1;
    }
    proof {
        assert(s.subrange(n as int, n as int) =~= Seq::<Level>::empty());
    }
    None
}

/// Scan a sequence of levels front to back, returning the first price at
/// which the cumulative notional reaches `target`. The running sum saturates
/// at `u128::MAX`, which cannot change the comparison against a `u128`
/// target.
fn s_depth_scan(levels: &Vec<Level>, target: u128) -> (res: Option<u64>)
    ensures
        res == s_depth_spec(levels@, target as int),
{
    let ghost s = levels@;
    let n = levels.len();
    proof {
        assert(s.subrange(0, n as int) =~= s);
    }
    let mut sum: u128 = 0;
    let mut i: usize = 0;
    while i < n
        invariant
            n == s.len(),
            i <= n,
            s == levels@,
            sum == crate::num::sat128(notional_prefix(s, i as int)),
            sum <= target,
            s_depth_spec(s, target as int) == s_depth_spec(
                s.subrange(i as int, n as int),
                target - sum,
            ),
        decreases n - i,
    {
        let (price, qty) = levels[i];
        let notional = crate::num::mul_u64(price, qty);
        let next = crate::num::sat_add_u128(sum, notional);
        proof {
            let tail = s.subrange(i as int, n as int);
            assert(tail[0] == s[i as int]);
            assert(tail.drop_first() =~= s.subrange(i + 1, n as int));
        }
        if next >= target {
            return Some(price);
        }
        sum = next;
        i += 1;
    }
    proof {
        assert(s.subrange(n as int, n as int) =~= Seq::<Level>::empty());
    }
    None
}

/// Inserting a fresh level at its sorted position adds exactly `p` to the
/// mapping.
proof fn lemma_inserted_map(s0: Seq<Level>, s1: Seq<Level>, i: int, p: int, q: int)
    requires
        side_wf(s0),
        0 <= i <= s0.len(),
        forall|j: int| 0 <= j < i ==> (#[trigger] s0[j]).0 < p,
        forall|j: int| i <= j < s0.len() ==> (#[trigger] s0[j]).0 > p,
        q != 0,
        0 <= q <= u64::MAX,
        0 <= p <= u64::MAX,
        s1 == s0.insert(i, (p as u64, q as u64)),
    ensures
        side_wf(s1),
        side_map(s1) == side_map(s0).insert(p, q),
{
    assert forall|a: int, b: int| 0 <= a < b < s1.len() implies (#[trigger] s1[a]).0 < (#[trigger] s1[b]).0 by {
        if a < i && b > i {
            assert(s1[a] == s0[a]);
            assert(s1[b] == s0[b - 1]);
        } else if a == i {
            assert(s1[b] == s0[b - 1]);
        } else if b == i {
            assert(s1[a] == s0[a]);
        } else if b < i {
            assert(s1[a] == s0[a]);
            assert(s1[b] == s0[b]);
        } else {
            assert(s1[a] == s0[a - 1]);
            assert(s1[b] == s0[b - 1]);
        }
    }
    assert forall|a: int| 0 <= a < s1.len() implies (#[trigger] s1[a]).1 != 0 by {
        if a < i {
            assert(s1[a] == s0[a]);
        } else if a > i {
            assert(s1[a] == s0[a - 1]);
        }
    }
    assert(side_map(s1) =~= side_map(s0).insert(p, q)) by {
        assert forall|r: int| has_price(s1, r) implies r == p || has_price(s0, r) by {
            let w = price_index(s1, r);
            if w < i {
                assert(s1[w] == s0[w]);
            } else if w > i {
                assert(s1[w] == s0[w - 1]);
            }
        }
        assert forall|r: int| has_price(s0, r) implies has_price(s1, r) by {
            let w = price_index(s0, r);
            if w < i {
                assert(s1[w] == s0[w]);
            } else {
                assert(s1[w + 1] == s0[w]);
            }
        }
        assert(s1[i] == (p as u64, q as u64));
        assert(has_price(s1, p));
        assert forall|r: int| has_price(s1, r) implies side_map(s1)[r] == side_map(s0).insert(p, q)[r] by {
            lemma_price_index(s1, r);
            let w = price_index(s1, r);
            if r == p {
                assert(w == i);
            } else {
                lemma_price_index(s0, r);
                if w < i {
                    assert(s1[w] == s0[w]);
                } else {
                    assert(s1[w] == s0[w - 1]);
                }
            }
        }
    }
}

} // verus!
