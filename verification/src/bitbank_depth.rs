//! Reconstruction of the bitbank order book from sequenced snapshot and diff
//! messages.
//!
//! Diffs may arrive before the snapshot that defines their baseline. Every
//! diff is applied to the live book immediately and also buffered under its
//! sequence id; when a snapshot arrives, buffered diffs older than the
//! snapshot are discarded, the book is rebuilt from the snapshot, and the
//! remaining diffs are replayed in ascending sequence order.

use vstd::prelude::*;

use crate::book::OrderBook;
use crate::book::OrderBookSide;
use crate::decimal::dec_val;
use crate::decimal::parse_scaled;
use crate::decimal::parses_to_u64;
use crate::num::max_i64;
use crate::strlex::lemma_lex_trichotomy;
use crate::strlex::lemma_lex_transitive;
use crate::strlex::lex_lt;
use crate::strlex::str_lt;

verus! {

/// An incremental book update: ask and bid levels as raw `(price, quantity)`
/// strings, a timestamp, and the sequence id `s`.
pub struct BitbankDepthDiff {
    pub a: Vec<(String, String)>,
    pub b: Vec<(String, String)>,
    pub t: i64,
    pub s: String,
}

/// A complete book snapshot with its own sequence id.
pub struct BitbankDepthWhole {
    pub asks: Vec<(String, String)>,
    pub bids: Vec<(String, String)>,
    pub timestamp: i64,
    pub sequence_id: String,
}

/// Ghost image of a raw level list: the views of its strings.
pub type RawLevels = Seq<(Seq<char>, Seq<char>)>;

/// Ghost image of a buffered diff.
pub struct DiffView {
    pub a: RawLevels,
    pub b: RawLevels,
    pub t: i64,
    pub s: Seq<char>,
}

pub open spec fn levels_view(v: Seq<(String, String)>) -> RawLevels {
    v.map_values(|l: (String, String)| (l.0@, l.1@))
}

pub open spec fn diff_view(d: &BitbankDepthDiff) -> DiffView {
    DiffView { a: levels_view(d.a@), b: levels_view(d.b@), t: d.t, s: d.s@ }
}

/// Every price and quantity string in the list parses.
pub open spec fn levels_parse_ok(ls: RawLevels) -> bool {
    forall|i: int| 0 <= i < ls.len() ==> parses_to_u64((#[trigger] ls[i]).0) && parses_to_u64(
        ls[i].1,
    )
}

/// A diff the reconciler accepts: all its level strings parse.
pub open spec fn diff_wf(d: DiffView) -> bool {
    levels_parse_ok(d.a) && levels_parse_ok(d.b)
}

/// A snapshot the reconciler accepts: all level strings parse and no
/// quantity is zero (a zero quantity in a snapshot is a venue contract
/// breach).
pub open spec fn whole_wf(w: &BitbankDepthWhole) -> bool {
    &&& levels_parse_ok(levels_view(w.asks@))
    &&& levels_parse_ok(levels_view(w.bids@))
    &&& forall|i: int| 0 <= i < w.asks@.len() ==> dec_val((#[trigger] levels_view(w.asks@)[i]).1)
        != 0
    &&& forall|i: int| 0 <= i < w.bids@.len() ==> dec_val((#[trigger] levels_view(w.bids@)[i]).1)
        != 0
}

/// Applying one raw level to a price map: quantity zero removes the price,
/// anything else upserts it.
pub open spec fn apply_one_level(m: Map<int, int>, l: (Seq<char>, Seq<char>)) -> Map<int, int> {
    if dec_val(l.1) == 0 {
        m.remove(dec_val(l.0))
    } else {
        m.insert(dec_val(l.0), dec_val(l.1))
    }
}

/// Applying a list of raw levels in order.
pub open spec fn apply_levels(m: Map<int, int>, ls: RawLevels) -> Map<int, int>
    decreases ls.len(),
{
    if ls.len() == 0 {
        m
    } else {
        apply_one_level(apply_levels(m, ls.drop_last()), ls.last())
    }
}

/// Replaying the ask lists of a sequence of buffered diffs.
pub open spec fn replay_asks(m: Map<int, int>, bs: Seq<DiffView>) -> Map<int, int>
    decreases bs.len(),
{
    if bs.len() == 0 {
        m
    } else {
        apply_levels(replay_asks(m, bs.drop_last()), bs.last().a)
    }
}

/// Replaying the bid lists of a sequence of buffered diffs.
pub open spec fn replay_bids(m: Map<int, int>, bs: Seq<DiffView>) -> Map<int, int>
    decreases bs.len(),
{
    if bs.len() == 0 {
        m
    } else {
        apply_levels(replay_bids(m, bs.drop_last()), bs.last().b)
    }
}

/// The diff buffer is sorted strictly by sequence id.
pub open spec fn buf_sorted(bs: Seq<DiffView>) -> bool {
    forall|i: int, j: int| 0 <= i < j < bs.len() ==> lex_lt(
        (#[trigger] bs[i]).s,
        (#[trigger] bs[j]).s,
    )
}

/// Inserting a diff into the sorted buffer: a diff with a known sequence id
/// replaces the buffered one, otherwise it lands at its sorted position.
pub open spec fn buf_insert(bs: Seq<DiffView>, d: DiffView) -> Seq<DiffView>
    decreases bs.len(),
{
    if bs.len() == 0 {
        seq![d]
    } else if lex_lt(d.s, bs[0].s) {
        seq![d] + bs
    } else if d.s == bs[0].s {
        seq![d] + bs.drop_first()
    } else {
        seq![bs[0]] + buf_insert(bs.drop_first(), d)
    }
}

/// Dropping every buffered diff whose sequence id is strictly below `q`.
pub open spec fn buf_keep_from(bs: Seq<DiffView>, q: Seq<char>) -> Seq<DiffView> {
    bs.filter(|d: DiffView| !lex_lt(d.s, q))
}

/// The running maximum of a timestamp over a sequence of message stamps.
pub open spec fn fold_max(l0: int, ts: Seq<int>) -> int
    decreases ts.len(),
{
    if ts.len() == 0 {
        l0
    } else {
        let prev = fold_max(l0, ts.drop_last());
        if prev >= ts.last() {
            prev
        } else {
            ts.last()
        }
    }
}

/// The order book reconstructed from one pair's feed, together with the
/// buffer of diffs awaiting a snapshot baseline.
pub struct BitbankDepth {
    pub book: OrderBook,
    pub diff_buffer: Vec<BitbankDepthDiff>,
    pub is_complete: bool,
    pub last_timestamp: i64,
}

impl BitbankDepth {
    /// The buffer as a sequence of ghost diffs, ascending by sequence id.
    pub open spec fn buffer(&self) -> Seq<DiffView> {
        self.diff_buffer@.map_values(|d: BitbankDepthDiff| diff_view(&d))
    }

    pub open spec fn wf(&self) -> bool {
        &&& self.book.wf()
        &&& buf_sorted(self.buffer())
        &&& forall|i: int| 0 <= i < self.buffer().len() ==> diff_wf(#[trigger] self.buffer()[i])
    }

    pub fn new() -> (r: BitbankDepth)
        ensures
            r.wf(),
            !r.is_complete,
            r.last_timestamp == 0,
            r.buffer() =~= Seq::<DiffView>::empty(),
            r.book.asks@.len() == 0,
            r.book.bids@.len() == 0,
    {
        BitbankDepth {
            book: OrderBook::new(),
            diff_buffer: Vec::new(),
            is_complete: false,
            last_timestamp: 0,
        }
    }

    /// Whether at least one snapshot has been applied.
    pub fn is_complete(&self) -> (r: bool)
        ensures
            r == self.is_complete,
    {
        self.is_complete
    }

    /// The largest timestamp seen across all applied messages.
    pub fn last_timestamp(&self) -> (r: i64)
        ensures
            r == self.last_timestamp,
    {
        self.last_timestamp
    }

    /// The ask side of the book, ascending by price.
    pub fn asks(&self) -> (r: &OrderBookSide)
        ensures
            r == &self.book.asks,
    {
        &self.book.asks
    }

    /// The bid side of the book, ascending by price.
    pub fn bids(&self) -> (r: &OrderBookSide)
        ensures
            r == &self.book.bids,
    {
        &self.book.bids
    }
}

/// Apply a list of raw `(price, quantity)` string levels to one side.
pub(crate) fn apply_raw_levels(side: &mut OrderBookSide, levels: &Vec<(String, String)>)
    requires
        old(side).wf(),
        levels_parse_ok(levels_view(levels@)),
    ensures
        final(side).wf(),
        final(side).price_map() == apply_levels(old(side).price_map(), levels_view(levels@)),
{
    let ghost lv = levels_view(levels@);
    let ghost m0 = side.price_map();
    let n = levels.len();
    let mut i: usize = 0;
    proof {
        assert(lv.subrange(0, 0) =~= Seq::<(Seq<char>, Seq<char>)>::empty());
    }
    while i < n
        invariant
            n == levels@.len(),
            i <= n,
            lv == levels_view(levels@),
            levels_parse_ok(lv),
            side.wf(),
            side.price_map() == apply_levels(m0, lv.subrange(0, i as int)),
        decreases n - i,
    {
        proof {
            assert(lv[i as int] == (levels@[i as int].0@, levels@[i as int].1@));
            assert(parses_to_u64(lv[i as int].0) && parses_to_u64(lv[i as int].1));
        }
        let price = match parse_scaled(levels[i].0.as_str()) {
            Some(p) => p,
            None => {
                proof {
                    assert(false);
                }
                0
            },
        };
        let qty = match parse_scaled(levels[i].1.as_str()) {
            Some(q) => q,
            None => {
                proof {
                    assert(false);
                }
                0
            },
        };
        side.apply_level(price, qty);
        proof {
            let t = lv.subrange(0, i + 1);
            assert(t.drop_last() =~= lv.subrange(0, i as int));
            assert(t.last() == lv[i as int]);
        }
        i += 1;
    }
    proof {
        assert(lv.subrange(0, n as int) =~= lv);
    }
}

impl BitbankDepth {
    /// Apply a diff to the live book, buffer it under its sequence id, and
    /// advance the timestamp. The book is mutated even before the first
    /// snapshot: the snapshot-and-replay step reconciles it afterwards.
    pub fn insert_diff(&mut self, diff: BitbankDepthDiff)
        requires
            old(self).wf(),
            diff_wf(diff_view(&diff)),
        ensures
            final(self).wf(),
            final(self).book.asks.price_map() == apply_levels(
                old(self).book.asks.price_map(),
                diff_view(&diff).a,
            ),
            final(self).book.bids.price_map() == apply_levels(
                old(self).book.bids.price_map(),
                diff_view(&diff).b,
            ),
            final(self).last_timestamp == if old(self).last_timestamp >= diff.t {
                old(self).last_timestamp
            } else {
                diff.t
            },
            final(self).is_complete == old(self).is_complete,
            final(self).buffer() == buf_insert(old(self).buffer(), diff_view(&diff)),
    {
        apply_raw_levels(&mut self.book.asks, &diff.a);
        apply_raw_levels(&mut self.book.bids, &diff.b);
        self.last_timestamp = max_i64(self.last_timestamp, diff.t);
        let ghost bs0 = self.buffer();
        let ghost dv = diff_view(&diff);

        // Find the sorted position of the diff's sequence id.
        let n = self.diff_buffer.len();
        let mut k: usize = 0;
        while k < n && str_lt(self.diff_buffer[k].s.as_str(), diff.s.as_str())
            invariant
                n == self.diff_buffer@.len(),
                bs0 == self.buffer(),
                dv == diff_view(&diff),
                k <= n,
                forall|j: int| 0 <= j < k ==> lex_lt((#[trigger] bs0[j]).s, dv.s),
            decreases n - k,
        {
            k += 1;
        }
        proof {
            assert(k < n ==> !lex_lt(bs0[k as int].s, dv.s));
        }
        if k < n && !str_lt(diff.s.as_str(), self.diff_buffer[k].s.as_str()) {
            // Same sequence id: the new diff replaces the buffered one.
            proof {
                lemma_lex_trichotomy(dv.s, bs0[k as int].s);
            }
            self.diff_buffer.set(k, diff);
            proof {
                lemma_buf_insert_at(bs0, dv, k as int, true);
                assert(self.buffer() =~= bs0.update(k as int, dv));
                assert(self.buffer() =~= bs0.subrange(0, k as int) + seq![dv] + bs0.subrange(
                    k + 1,
                    bs0.len() as int,
                ));
            }
        } else {
            proof {
                if k < n {
                    lemma_lex_trichotomy(dv.s, bs0[k as int].s);
                }
            }
            self.diff_buffer.insert(k, diff);
            proof {
                lemma_buf_insert_at(bs0, dv, k as int, false);
                assert(self.buffer() =~= bs0.subrange(0, k as int) + seq![dv] + bs0.subrange(
                    k as int,
                    bs0.len() as int,
                ));
            }
        }
        proof {
            lemma_buf_insert_sorted(bs0, dv);
            assert(forall|i: int| 0 <= i < self.buffer().len() ==> diff_wf(
                #[trigger] self.buffer()[i],
            ));
        }
    }
}

impl BitbankDepth {
    /// Replace the book with a snapshot: discard buffered diffs older than
    /// the snapshot's sequence id, rebuild both sides from the snapshot,
    /// replay the remaining buffered diffs in ascending sequence order, and
    /// mark the book complete.
    pub fn update_whole(&mut self, whole: BitbankDepthWhole)
        requires
            old(self).wf(),
            whole_wf(&whole),
        ensures
            final(self).wf(),
            final(self).is_complete,
            final(self).last_timestamp == if old(self).last_timestamp >= whole.timestamp {
                old(self).last_timestamp
            } else {
                whole.timestamp
            },
            final(self).buffer() == buf_keep_from(old(self).buffer(), whole.sequence_id@),
            final(self).book.asks.price_map() == replay_asks(
                apply_levels(Map::<int, int>::empty(), levels_view(whole.asks@)),
                buf_keep_from(old(self).buffer(), whole.sequence_id@),
            ),
            final(self).book.bids.price_map() == replay_bids(
                apply_levels(Map::<int, int>::empty(), levels_view(whole.bids@)),
                buf_keep_from(old(self).buffer(), whole.sequence_id@),
            ),
    {
        let ghost bs0 = self.buffer();
        let ghost q = whole.sequence_id@;

        // Step 1: drop buffered diffs that the snapshot supersedes.
        let mut kept: Vec<BitbankDepthDiff> = Vec::new();
        proof {
            assert(bs0.subrange(0, 0) =~= Seq::<DiffView>::empty());
            assert(buf_keep_from(bs0.subrange(0, 0), q) =~= Seq::<DiffView>::empty());
        }
        let ghost total = self.diff_buffer@.len() as int;
        let ghost mut i: int = 0;
        while self.diff_buffer.len() > 0
            invariant
                0 <= i,
                self.buffer().len() + i == total,
                bs0.len() == total,
                self.is_complete == old(self).is_complete,
                self.last_timestamp == old(self).last_timestamp,
                self.book == old(self).book,
                self.buffer() =~= bs0.subrange(i, total),
                kept@.map_values(|d: BitbankDepthDiff| diff_view(&d)) == buf_keep_from(
                    bs0.subrange(0, i),
                    q,
                ),
                q == whole.sequence_id@,
            decreases self.diff_buffer@.len(),
        {
            let ghost pre = self.diff_buffer@;
            let ghost pre_kept = kept@;
            let d = self.diff_buffer.remove(0);
            let ghost dv = diff_view(&d);
            proof {
                assert(pre.map_values(|x: BitbankDepthDiff| diff_view(&x))[0] == dv);
                assert(dv == bs0[i]);
                assert(self.buffer() =~= bs0.subrange(i + 1, total)) by {
                    assert forall|j: int| 0 <= j < self.diff_buffer@.len() implies #[trigger] self.buffer()[j] == bs0[i + 1 + j] by {
                        assert(self.diff_buffer@[j] == pre[j + 1]);
                        assert(pre.map_values(|x: BitbankDepthDiff| diff_view(&x))[j + 1] == diff_view(&pre[j + 1]));
                    }
                }
            }
            let keep = !str_lt(d.s.as_str(), whole.sequence_id.as_str());
            proof {
                let t = bs0.subrange(0, i + 1);
                assert(t.drop_last() =~= bs0.subrange(0, i));
                assert(t.last() == bs0[i]);
                reveal(Seq::filter);
            }
            if keep {
                kept.push(d);
                proof {
                    assert(kept@.map_values(|x: BitbankDepthDiff| diff_view(&x)) =~= pre_kept.map_values(
                        |x: BitbankDepthDiff| diff_view(&x),
                    ).push(dv));
                }
            }
            proof {
                assert(kept@.map_values(|x: BitbankDepthDiff| diff_view(&x)) == buf_keep_from(
                    bs0.subrange(0, i + 1),
                    q,
                ));
            }
            proof {
                i = i + 1;
            }
        }
        self.diff_buffer = kept;
        proof {
            assert(bs0.subrange(0, total) =~= bs0);
            assert(self.buffer() == buf_keep_from(bs0, q));
            lemma_buf_filter_props(bs0, q);
        }

        // Step 2: rebuild both sides from the snapshot.
        self.book.asks.clear();
        self.book.bids.clear();
        proof {
            assert(self.book.asks.price_map() =~= Map::<int, int>::empty());
            assert(self.book.bids.price_map() =~= Map::<int, int>::empty());
        }
        apply_raw_levels(&mut self.book.asks, &whole.asks);
        apply_raw_levels(&mut self.book.bids, &whole.bids);

        // Step 3: the timestamp only ever advances.
        self.last_timestamp = max_i64(self.last_timestamp, whole.timestamp);

        // Step 4: replay the surviving diffs in ascending sequence order.
        self.process_diff_buffer();

        // Step 5: at least one snapshot has now been applied.
        self.is_complete = true;
    }

    /// Replay every buffered diff against the book, in buffer (ascending
    /// sequence id) order, without re-buffering anything.
    fn process_diff_buffer(&mut self)
        requires
            old(self).wf(),
        ensures
            final(self).wf(),
            final(self).book.asks.price_map() == replay_asks(
                old(self).book.asks.price_map(),
                old(self).buffer(),
            ),
            final(self).book.bids.price_map() == replay_bids(
                old(self).book.bids.price_map(),
                old(self).buffer(),
            ),
            final(self).buffer() == old(self).buffer(),
            final(self).is_complete == old(self).is_complete,
            final(self).last_timestamp == old(self).last_timestamp,
    {
        let ghost bs = self.buffer();
        let ghost ma = self.book.asks.price_map();
        let ghost mb = self.book.bids.price_map();
        let n = self.diff_buffer.len();
        proof {
            assert(bs.subrange(0, 0) =~= Seq::<DiffView>::empty());
        }
        let mut i: usize = 0;
        while i < n
            invariant
                n == self.diff_buffer@.len(),
                i <= n,
                self.diff_buffer@ == old(self).diff_buffer@,
                self.is_complete == old(self).is_complete,
                self.last_timestamp == old(self).last_timestamp,
                bs == self.buffer(),
                forall|j: int| 0 <= j < bs.len() ==> diff_wf(#[trigger] bs[j]),
                buf_sorted(bs),
                self.book.asks.wf(),
                self.book.bids.wf(),
                self.book.asks.price_map() == replay_asks(ma, bs.subrange(0, i as int)),
                self.book.bids.price_map() == replay_bids(mb, bs.subrange(0, i as int)),
            decreases n - i,
        {
            proof {
                assert(bs[i as int] == diff_view(&self.diff_buffer@[i as int]));
                assert(diff_wf(bs[i as int]));
                let t = bs.subrange(0, i + 1);
                assert(t.drop_last() =~= bs.subrange(0, i as int));
                assert(t.last() == bs[i as int]);
            }
            apply_raw_levels(&mut self.book.asks, &self.diff_buffer[i].a);
            apply_raw_levels(&mut self.book.bids, &self.diff_buffer[i].b);
            i += 1;
        }
        proof {
            assert(bs.subrange(0, n as int) =~= bs);
        }
    }
}

/// Filtering a sorted buffer keeps it sorted, keeps every entry well formed,
/// and keeps entries in place.
proof fn lemma_buf_filter_props(bs: Seq<DiffView>, q: Seq<char>)
    ensures
        buf_sorted(bs) ==> buf_sorted(buf_keep_from(bs, q)),
        (forall|i: int| 0 <= i < bs.len() ==> diff_wf(#[trigger] bs[i])) ==> (forall|i: int|
            0 <= i < buf_keep_from(bs, q).len() ==> diff_wf(#[trigger] buf_keep_from(bs, q)[i])),
{
    let pred = |d: DiffView| !lex_lt(d.s, q);
    let out = bs.filter(pred);
    if buf_sorted(bs) {
        assert forall|i: int, j: int| 0 <= i < j < out.len() implies lex_lt(
            (#[trigger] out[i]).s,
            (#[trigger] out[j]).s,
        ) by {
            lemma_filter_of_sorted(bs, q, i, j);
        }
    }
    if forall|i: int| 0 <= i < bs.len() ==> diff_wf(#[trigger] bs[i]) {
        assert forall|i: int| 0 <= i < out.len() implies diff_wf(#[trigger] out[i]) by {
            lemma_filter_member(bs, q, i);
            let w = choose|w: int| 0 <= w < bs.len() && bs[w] == out[i];
            assert(diff_wf(bs[w]));
        }
    }
}

/// Copy a raw level list, keeping the view of every string.
fn copy_raw_levels(v: &Vec<(String, String)>) -> (r: Vec<(String, String)>)
    ensures
        levels_view(r@) == levels_view(v@),
        r@.len() == v@.len(),
{
    let n = v.len();
    let mut out: Vec<(String, String)> = Vec::new();
    let mut i: usize = 0;
    while i < n
        invariant
            n == v@.len(),
            i <= n,
            out@.len() == i,
            forall|j: int| 0 <= j < i ==> (#[trigger] out@[j]).0@ == v@[j].0@ && out@[j].1@
                == v@[j].1@,
        decreases n - i,
    {
        out.push((v[i].0.clone(), v[i].1.clone()));
        i += 1;
    }
    proof {
        assert(levels_view(out@) =~= levels_view(v@)) by {
            assert forall|j: int| 0 <= j < n implies #[trigger] levels_view(out@)[j]
                == levels_view(v@)[j] by {
                assert(levels_view(out@)[j] == (out@[j].0@, out@[j].1@));
                assert(levels_view(v@)[j] == (v@[j].0@, v@[j].1@));
            }
        }
    }
    out
}

impl BitbankDepth {
    /// A deep copy whose book, buffer, completeness and timestamp all read
    /// the same as this one's.
    pub fn duplicate(&self) -> (r: BitbankDepth)
        ensures
            r.book.asks@ == self.book.asks@,
            r.book.bids@ == self.book.bids@,
            r.buffer() == self.buffer(),
            r.is_complete == self.is_complete,
            r.last_timestamp == self.last_timestamp,
            self.wf() ==> r.wf(),
    {
        let mut asks: Vec<crate::book::Level> = Vec::new();
        let na = self.book.asks.levels.len();
        let mut i: usize = 0;
        while i < na
            invariant
                na == self.book.asks@.len(),
                i <= na,
                asks@ == self.book.asks@.subrange(0, i as int),
            decreases na - i,
        {
            asks.push(self.book.asks.levels[i]);
            proof {
                assert(asks@ =~= self.book.asks@.subrange(0, i + 1));
            }
            i += 1;
        }
        let mut bids: Vec<crate::book::Level> = Vec::new();
        let nb = self.book.bids.levels.len();
        let mut k: usize = 0;
        while k < nb
            invariant
                nb == self.book.bids@.len(),
                k <= nb,
                bids@ == self.book.bids@.subrange(0, k as int),
            decreases nb - k,
        {
            bids.push(self.book.bids.levels[k]);
            proof {
                assert(bids@ =~= self.book.bids@.subrange(0, k + 1));
            }
            k += 1;
        }
        let mut buffer: Vec<BitbankDepthDiff> = Vec::new();
        let nd = self.diff_buffer.len();
        let mut j: usize = 0;
        while j < nd
            invariant
                nd == self.diff_buffer@.len(),
                j <= nd,
                buffer@.len() == j,
                forall|x: int| 0 <= x < j ==> #[trigger] diff_view(&buffer@[x]) == self.buffer()[x],
            decreases nd - j,
        {
            let d = &self.diff_buffer[j];
            let copy = BitbankDepthDiff {
                a: copy_raw_levels(&d.a),
                b: copy_raw_levels(&d.b),
                t: d.t,
                s: d.s.clone(),
            };
            proof {
                assert(diff_view(&copy) == diff_view(&self.diff_buffer@[j as int]));
                assert(self.buffer()[j as int] == diff_view(&self.diff_buffer@[j as int]));
            }
            buffer.push(copy);
            j += 1;
        }
        let r = BitbankDepth {
            book: OrderBook {
                asks: OrderBookSide { levels: asks },
                bids: OrderBookSide { levels: bids },
            },
            diff_buffer: buffer,
            is_complete: self.is_complete,
            last_timestamp: self.last_timestamp,
        };
        proof {
            assert(r.book.asks@ =~= self.book.asks@);
            assert(r.book.bids@ =~= self.book.bids@);
            assert(r.buffer() =~= self.buffer()) by {
                assert forall|x: int| 0 <= x < nd implies #[trigger] r.buffer()[x]
                    == self.buffer()[x] by {
                    assert(r.buffer()[x] == diff_view(&r.diff_buffer@[x]));
                }
            }
        }
        r
    }
}

/// The price a raw level addresses.
pub open spec fn level_key(l: (Seq<char>, Seq<char>)) -> int {
    dec_val(l.0)
}

/// Whether a level list mentions the price `p`.
pub open spec fn touches(ls: RawLevels, p: int) -> bool {
    exists|i: int| 0 <= i < ls.len() && level_key(#[trigger] ls[i]) == p
}

/// The quantity the last level at price `p` leaves behind: `None` when that
/// level removes the price.
pub open spec fn last_effect(ls: RawLevels, p: int) -> Option<int>
    decreases ls.len(),
{
    if ls.len() == 0 {
        None
    } else if level_key(ls.last()) == p {
        if dec_val(ls.last().1) == 0 {
            None
        } else {
            Some(dec_val(ls.last().1))
        }
    } else {
        last_effect(ls.drop_last(), p)
    }
}

/// The entry a map holds at `p`, if any.
pub open spec fn map_at(m: Map<int, int>, p: int) -> Option<int> {
    if m.dom().contains(p) {
        Some(m[p])
    } else {
        None
    }
}

/// After applying a level list, each price holds what the last level at that
/// price left there; untouched prices keep their old entry.
pub proof fn lemma_apply_levels_at(m: Map<int, int>, ls: RawLevels, p: int)
    ensures
        map_at(apply_levels(m, ls), p) == if touches(ls, p) {
            last_effect(ls, p)
        } else {
            map_at(m, p)
        },
    decreases ls.len(),
{
    if ls.len() > 0 {
        lemma_apply_levels_at(m, ls.drop_last(), p);
        if level_key(ls.last()) == p {
        } else {
            if touches(ls, p) {
                let w = choose|w: int| 0 <= w < ls.len() && level_key(ls[w]) == p;
                assert(ls.drop_last()[w] == ls[w]);
                assert(touches(ls.drop_last(), p));
            }
            if touches(ls.drop_last(), p) {
                let w = choose|w: int| 0 <= w < ls.drop_last().len() && level_key(
                    ls.drop_last()[w],
                ) == p;
                assert(ls[w] == ls.drop_last()[w]);
                assert(touches(ls, p));
            }
        }
    }
}

/// Applying the same level list twice leaves the book exactly as one
/// application does: a diff is an upsert, not an increment.
pub proof fn lemma_apply_levels_idempotent(m: Map<int, int>, ls: RawLevels)
    ensures
        apply_levels(apply_levels(m, ls), ls) == apply_levels(m, ls),
{
    let m1 = apply_levels(m, ls);
    let m2 = apply_levels(m1, ls);
    assert forall|p: int| #[trigger] m2.dom().contains(p) <==> m1.dom().contains(p) by {
        lemma_apply_levels_at(m, ls, p);
        lemma_apply_levels_at(m1, ls, p);
        assert(map_at(m2, p) == map_at(m1, p));
    }
    assert forall|p: int| m1.dom().contains(p) implies #[trigger] m2[p] == #[trigger] m1[p] by {
        lemma_apply_levels_at(m, ls, p);
        lemma_apply_levels_at(m1, ls, p);
        assert(map_at(m2, p) == map_at(m1, p));
    }
    assert(m2 =~= m1);
}

/// Folding `buf_insert` over a sequence of incoming diffs.
pub open spec fn buf_insert_all(bs: Seq<DiffView>, ds: Seq<DiffView>) -> Seq<DiffView>
    decreases ds.len(),
{
    if ds.len() == 0 {
        bs
    } else {
        buf_insert_all(buf_insert(bs, ds[0]), ds.drop_first())
    }
}

/// No two diffs in the sequence share a sequence id.
pub open spec fn keys_distinct(ds: Seq<DiffView>) -> bool {
    forall|i: int, j: int| 0 <= i < j < ds.len() ==> (#[trigger] ds[i]).s != (#[trigger] ds[j]).s
}

/// No buffered diff carries the sequence id `s`.
pub open spec fn key_fresh(bs: Seq<DiffView>, s: Seq<char>) -> bool {
    forall|i: int| 0 <= i < bs.len() ==> (#[trigger] bs[i]).s != s
}

/// Inserting a diff with a fresh sequence id adds exactly that diff.
proof fn lemma_buf_insert_fresh(bs: Seq<DiffView>, d: DiffView)
    requires
        buf_sorted(bs),
        key_fresh(bs, d.s),
    ensures
        buf_insert(bs, d).to_set() == bs.to_set().insert(d),
    decreases bs.len(),
{
    let out = buf_insert(bs, d);
    if bs.len() == 0 {
        assert(out.contains(d)) by {
            assert(out[0] == d);
        }
        assert(out.to_set() =~= bs.to_set().insert(d));
    } else if lex_lt(d.s, bs[0].s) {
        assert(out == seq![d] + bs);
        assert forall|x: DiffView| #[trigger] out.contains(x) implies x == d || bs.contains(x) by {
            let w = choose|w: int| 0 <= w < out.len() && out[w] == x;
            if w > 0 {
                assert(bs[w - 1] == x);
            }
        }
        assert forall|x: DiffView| x == d || bs.contains(x) implies #[trigger] out.contains(x) by {
            if x == d {
                assert(out[0] == x);
            } else {
                let w = choose|w: int| 0 <= w < bs.len() && bs[w] == x;
                assert(out[w + 1] == x);
            }
        }
        assert(out.to_set() =~= bs.to_set().insert(d));
    } else if d.s == bs[0].s {
        assert(bs[0].s != d.s);
        assert(false);
    } else {
        let tail = bs.drop_first();
        assert(buf_sorted(tail) && key_fresh(tail, d.s)) by {
            assert(forall|i: int| 0 <= i < tail.len() ==> tail[i] == bs[i + 1]);
            assert(forall|i: int, j: int| 0 <= i < j < tail.len() ==> tail[i] == bs[i + 1]
                && tail[j] == bs[j + 1]);
        }
        lemma_buf_insert_fresh(tail, d);
        let sub = buf_insert(tail, d);
        assert(out == seq![bs[0]] + sub);
        assert forall|x: DiffView| #[trigger] out.contains(x) implies x == d || bs.contains(x) by {
            let w = choose|w: int| 0 <= w < out.len() && out[w] == x;
            if w == 0 {
                assert(bs[0] == x);
            } else {
                assert(sub[w - 1] == out[w]);
                assert(sub.contains(x));
                if x != d {
                    assert(sub.to_set().contains(x));
                    assert(tail.to_set().contains(x));
                    let v = choose|v: int| 0 <= v < tail.len() && tail[v] == x;
                    assert(bs[v + 1] == x);
                }
            }
        }
        assert forall|x: DiffView| x == d || bs.contains(x) implies #[trigger] out.contains(x) by {
            if x == d || !bs.contains(x) {
                assert(sub.to_set().contains(d));
                let v = choose|v: int| 0 <= v < sub.len() && sub[v] == d;
                assert(out[v + 1] == d);
            } else {
                let w = choose|w: int| 0 <= w < bs.len() && bs[w] == x;
                if w == 0 {
                    assert(out[0] == x);
                } else {
                    assert(tail[w - 1] == x);
                    assert(sub.to_set().contains(x));
                    let v = choose|v: int| 0 <= v < sub.len() && sub[v] == x;
                    assert(out[v + 1] == x);
                }
            }
        }
        assert(out.to_set() =~= bs.to_set().insert(d));
    }
}

/// Folding distinct-id diffs into a sorted buffer yields a sorted buffer
/// holding exactly the old entries and the new diffs.
proof fn lemma_buf_insert_all_set(bs: Seq<DiffView>, ds: Seq<DiffView>)
    requires
        buf_sorted(bs),
        keys_distinct(ds),
        forall|i: int| 0 <= i < ds.len() ==> key_fresh(bs, (#[trigger] ds[i]).s),
    ensures
        buf_sorted(buf_insert_all(bs, ds)),
        buf_insert_all(bs, ds).to_set() == bs.to_set() + ds.to_set(),
    decreases ds.len(),
{
    if ds.len() == 0 {
        assert(buf_insert_all(bs, ds).to_set() =~= bs.to_set() + ds.to_set());
    } else {
        let d = ds[0];
        let bs1 = buf_insert(bs, d);
        lemma_buf_insert_sorted(bs, d);
        lemma_buf_insert_fresh(bs, d);
        let rest = ds.drop_first();
        assert(keys_distinct(rest)) by {
            assert(forall|i: int, j: int| 0 <= i < j < rest.len() ==> rest[i] == ds[i + 1]
                && rest[j] == ds[j + 1]);
        }
        assert forall|i: int| 0 <= i < rest.len() implies key_fresh(bs1, (#[trigger] rest[i]).s) by {
            assert(rest[i] == ds[i + 1]);
            assert forall|w: int| 0 <= w < bs1.len() implies (#[trigger] bs1[w]).s != rest[i].s by {
                assert(bs1[w] == d || bs.contains(bs1[w]));
                if bs1[w] == d {
                    assert(ds[0].s != ds[i + 1].s);
                } else {
                    let v = choose|v: int| 0 <= v < bs.len() && bs[v] == bs1[w];
                    assert(key_fresh(bs, ds[i + 1].s));
                }
            }
        }
        lemma_buf_insert_all_set(bs1, rest);
        assert forall|x: DiffView| #[trigger] ds.contains(x) implies x == d || rest.contains(x) by {
            let w = choose|w: int| 0 <= w < ds.len() && ds[w] == x;
            if w > 0 {
                assert(rest[w - 1] == x);
            }
        }
        assert forall|x: DiffView| #[trigger] rest.contains(x) implies ds.contains(x) by {
            let w = choose|w: int| 0 <= w < rest.len() && rest[w] == x;
            assert(ds[w + 1] == x);
        }
        assert(bs1.to_set() + rest.to_set() =~= bs.to_set() + ds.to_set()) by {
            assert(ds.contains(d)) by {
                assert(ds[0] == d);
            }
        }
    }
}

/// Two strictly sorted buffers holding the same diffs are identical.
proof fn lemma_sorted_buffer_canonical(b1: Seq<DiffView>, b2: Seq<DiffView>)
    requires
        buf_sorted(b1),
        buf_sorted(b2),
        b1.to_set() == b2.to_set(),
    ensures
        b1 == b2,
    decreases b1.len(),
{
    if b1.len() == 0 {
        if b2.len() > 0 {
            assert(b1.to_set().contains(b2[0])) by {
                assert(b2.contains(b2[0]));
            }
            assert(false);
        }
        assert(b1 =~= b2);
    } else {
        assert(b2.len() > 0) by {
            assert(b2.to_set().contains(b1[0])) by {
                assert(b1.contains(b1[0]));
            }
        }
        assert(b1[0] == b2[0]) by {
            assert(b2.contains(b1[0])) by {
                assert(b1.contains(b1[0]));
                assert(b2.to_set().contains(b1[0]));
            }
            assert(b1.contains(b2[0])) by {
                assert(b2.contains(b2[0]));
                assert(b1.to_set().contains(b2[0]));
            }
            let w = choose|w: int| 0 <= w < b2.len() && b2[w] == b1[0];
            let v = choose|v: int| 0 <= v < b1.len() && b1[v] == b2[0];
            if w > 0 && v > 0 {
                assert(lex_lt(b2[0].s, b2[w].s));
                assert(lex_lt(b1[0].s, b1[v].s));
                lemma_lex_trichotomy(b1[0].s, b2[0].s);
            }
        }
        let t1 = b1.drop_first();
        let t2 = b2.drop_first();
        assert(buf_sorted(t1) && buf_sorted(t2)) by {
            assert(forall|i: int, j: int| 0 <= i < j < t1.len() ==> t1[i] == b1[i + 1]
                && t1[j] == b1[j + 1]);
            assert(forall|i: int, j: int| 0 <= i < j < t2.len() ==> t2[i] == b2[i + 1]
                && t2[j] == b2[j + 1]);
        }
        assert(t1.to_set() =~= t2.to_set()) by {
            assert forall|x: DiffView| #[trigger] t1.contains(x) implies t2.contains(x) by {
                lemma_tail_member(b1, b2, x);
            }
            assert forall|x: DiffView| #[trigger] t2.contains(x) implies t1.contains(x) by {
                lemma_tail_member(b2, b1, x);
            }
        }
        lemma_sorted_buffer_canonical(t1, t2);
        assert(b1 =~= b2) by {
            assert(forall|i: int| 1 <= i < b1.len() ==> b1[i] == t1[i - 1] && b2[i] == t2[i - 1]);
        }
    }
}

/// An element of one sorted buffer's tail sits in the tail of any equal-set
/// sorted buffer with the same first element.
proof fn lemma_tail_member(b1: Seq<DiffView>, b2: Seq<DiffView>, x: DiffView)
    requires
        buf_sorted(b1),
        buf_sorted(b2),
        b1.to_set() == b2.to_set(),
        b1.len() > 0,
        b2.len() > 0,
        b1[0] == b2[0],
        b1.drop_first().contains(x),
    ensures
        b2.drop_first().contains(x),
{
    let t1 = b1.drop_first();
    let w = choose|w: int| 0 <= w < t1.len() && t1[w] == x;
    assert(b1[w + 1] == x);
    assert(b1.contains(x));
    assert(b2.contains(x)) by {
        assert(b2.to_set().contains(x));
    }
    let v = choose|v: int| 0 <= v < b2.len() && b2[v] == x;
    if v == 0 {
        assert(lex_lt(b1[0].s, b1[w + 1].s));
        lemma_lex_trichotomy(b1[0].s, x.s);
    } else {
        assert(b2.drop_first()[v - 1] == x);
    }
}

/// Snapshot-diff convergence: reconcilers that buffered the same set of
/// diffs, each sequence id occurring once, hold identical buffers whatever
/// the arrival order was; a snapshot then rebuilds the same book from both,
/// since the book after a snapshot is a function of the snapshot and the
/// buffer alone.
pub proof fn lemma_snapshot_diff_convergence(
    ds1: Seq<DiffView>,
    ds2: Seq<DiffView>,
    asks0: Map<int, int>,
    bids0: Map<int, int>,
    q: Seq<char>,
)
    requires
        keys_distinct(ds1),
        keys_distinct(ds2),
        ds1.to_set() == ds2.to_set(),
    ensures
        buf_insert_all(Seq::<DiffView>::empty(), ds1) == buf_insert_all(
            Seq::<DiffView>::empty(),
            ds2,
        ),
        replay_asks(asks0, buf_keep_from(buf_insert_all(Seq::<DiffView>::empty(), ds1), q))
            == replay_asks(asks0, buf_keep_from(buf_insert_all(Seq::<DiffView>::empty(), ds2), q)),
        replay_bids(bids0, buf_keep_from(buf_insert_all(Seq::<DiffView>::empty(), ds1), q))
            == replay_bids(bids0, buf_keep_from(buf_insert_all(Seq::<DiffView>::empty(), ds2), q)),
{
    let e = Seq::<DiffView>::empty();
    lemma_buf_insert_all_set(e, ds1);
    lemma_buf_insert_all_set(e, ds2);
    assert(e.to_set() + ds1.to_set() =~= e.to_set() + ds2.to_set());
    lemma_sorted_buffer_canonical(buf_insert_all(e, ds1), buf_insert_all(e, ds2));
}

/// The folded timestamp is the maximum of the start value and every stamp.
pub proof fn lemma_fold_max_properties(l0: int, ts: Seq<int>)
    ensures
        fold_max(l0, ts) >= l0,
        forall|i: int| 0 <= i < ts.len() ==> fold_max(l0, ts) >= ts[i],
        fold_max(l0, ts) == l0 || ts.contains(fold_max(l0, ts)),
    decreases ts.len(),
{
    if ts.len() > 0 {
        lemma_fold_max_properties(l0, ts.drop_last());
        assert forall|i: int| 0 <= i < ts.len() implies fold_max(l0, ts) >= ts[i] by {
            if i < ts.len() - 1 {
                assert(ts.drop_last()[i] == ts[i]);
            }
        }
        if fold_max(l0, ts) != l0 {
            if fold_max(l0, ts.drop_last()) >= ts.last() {
                let prev = fold_max(l0, ts.drop_last());
                assert(ts.drop_last().contains(prev));
                let w = choose|w: int| 0 <= w < ts.drop_last().len() && ts.drop_last()[w] == prev;
                assert(ts[w] == prev);
            } else {
                assert(ts[ts.len() - 1] == ts.last());
            }
        }
    }
}

/// Monotonic timestamp: the timestamp a reconciler reports after any
/// sequence of messages is the maximum stamp seen, so any two arrival
/// orders of the same messages leave the same timestamp.
pub proof fn lemma_timestamp_order_irrelevant(l0: int, ts1: Seq<int>, ts2: Seq<int>)
    requires
        ts1.to_set() == ts2.to_set(),
    ensures
        fold_max(l0, ts1) == fold_max(l0, ts2),
{
    lemma_fold_max_properties(l0, ts1);
    lemma_fold_max_properties(l0, ts2);
    let a = fold_max(l0, ts1);
    let b = fold_max(l0, ts2);
    if ts2.contains(b) {
        assert(ts1.contains(b)) by {
            assert(ts1.to_set().contains(b));
        }
        let w = choose|w: int| 0 <= w < ts1.len() && ts1[w] == b;
        assert(a >= b);
    }
    if ts1.contains(a) {
        assert(ts2.contains(a)) by {
            assert(ts2.to_set().contains(a));
        }
        let w = choose|w: int| 0 <= w < ts2.len() && ts2[w] == a;
        assert(b >= a);
    }
}

/// Every element the filter keeps is an element of the original buffer.
proof fn lemma_filter_member(bs: Seq<DiffView>, q: Seq<char>, i: int)
    requires
        0 <= i < bs.filter(|d: DiffView| !lex_lt(d.s, q)).len(),
    ensures
        exists|w: int| 0 <= w < bs.len() && bs[w] == bs.filter(|d: DiffView| !lex_lt(d.s, q))[i],
    decreases bs.len(),
{
    reveal(Seq::filter);
    let pred = |d: DiffView| !lex_lt(d.s, q);
    let out = bs.filter(pred);
    if bs.len() > 0 {
        let prefix = bs.drop_last();
        if pred(bs.last()) && i == out.len() - 1 {
            assert(out[i] == bs.last());
            assert(bs[bs.len() - 1] == bs.last());
        } else {
            lemma_filter_member(prefix, q, i);
            let w = choose|w: int| 0 <= w < prefix.len() && prefix[w] == prefix.filter(pred)[i];
            assert(bs[w] == prefix[w]);
        }
    }
}

/// A filtered subsequence of a strictly sorted buffer is strictly sorted.
proof fn lemma_filter_of_sorted(bs: Seq<DiffView>, q: Seq<char>, i: int, j: int)
    requires
        buf_sorted(bs),
        0 <= i < j < bs.filter(|d: DiffView| !lex_lt(d.s, q)).len(),
    ensures
        lex_lt(
            bs.filter(|d: DiffView| !lex_lt(d.s, q))[i].s,
            bs.filter(|d: DiffView| !lex_lt(d.s, q))[j].s,
        ),
    decreases bs.len(),
{
    reveal(Seq::filter);
    let pred = |d: DiffView| !lex_lt(d.s, q);
    let out = bs.filter(pred);
    if bs.len() > 0 {
        let prefix = bs.drop_last();
        assert(buf_sorted(prefix)) by {
            assert(forall|a: int, b: int| 0 <= a < b < prefix.len() ==> prefix[a] == bs[a]
                && prefix[b] == bs[b]);
        }
        if pred(bs.last()) {
            if j == out.len() - 1 {
                // The last kept element is the buffer's own last element;
                // everything before it came from the prefix.
                assert(out[i] == prefix.filter(pred)[i]);
                lemma_filter_member(prefix, q, i);
                let w = choose|w: int| 0 <= w < prefix.len() && prefix[w] == out[i];
                assert(bs.last() == bs[bs.len() - 1]);
                assert(prefix[w] == bs[w]);
                assert(lex_lt(bs[w].s, bs[bs.len() - 1].s));
            } else {
                lemma_filter_of_sorted(prefix, q, i, j);
            }
        } else {
            lemma_filter_of_sorted(prefix, q, i, j);
        }
    }
}

/// The closed form of `buf_insert`: everything below the insertion point is
/// kept, the diff lands at position `k`, and the tail follows, shifted by one
/// when the sequence id was fresh and replaced in place when it was known.
proof fn lemma_buf_insert_at(bs: Seq<DiffView>, d: DiffView, k: int, replace: bool)
    requires
        buf_sorted(bs),
        0 <= k <= bs.len(),
        forall|j: int| 0 <= j < k ==> lex_lt((#[trigger] bs[j]).s, d.s),
        replace ==> k < bs.len() && bs[k].s == d.s,
        !replace ==> k == bs.len() || lex_lt(d.s, bs[k].s),
    ensures
        replace ==> buf_insert(bs, d) == bs.subrange(0, k) + seq![d] + bs.subrange(
            k + 1,
            bs.len() as int,
        ),
        !replace ==> buf_insert(bs, d) == bs.subrange(0, k) + seq![d] + bs.subrange(
            k,
            bs.len() as int,
        ),
    decreases bs.len(),
{
    if bs.len() == 0 {
        assert(buf_insert(bs, d) =~= bs.subrange(0, 0) + seq![d] + bs.subrange(0, 0));
    } else if k == 0 {
        if replace {
            assert(!lex_lt(d.s, bs[0].s)) by {
                lemma_lex_trichotomy(d.s, bs[0].s);
            }
            assert(buf_insert(bs, d) == seq![d] + bs.drop_first());
            assert(seq![d] + bs.drop_first() =~= bs.subrange(0, 0) + seq![d] + bs.subrange(
                1,
                bs.len() as int,
            ));
        } else {
            assert(lex_lt(d.s, bs[0].s));
            assert(buf_insert(bs, d) == seq![d] + bs);
            assert(seq![d] + bs =~= bs.subrange(0, 0) + seq![d] + bs.subrange(0, bs.len() as int));
        }
    } else {
        assert(lex_lt(bs[0].s, d.s));
        lemma_lex_trichotomy(d.s, bs[0].s);
        let tail = bs.drop_first();
        assert(buf_sorted(tail)) by {
            assert(forall|i: int, j: int| 0 <= i < j < tail.len() ==> tail[i] == bs[i + 1]
                && tail[j] == bs[j + 1]);
        }
        assert(forall|j: int| 0 <= j < k - 1 ==> lex_lt((#[trigger] tail[j]).s, d.s)) by {
            assert(forall|j: int| 0 <= j < k - 1 ==> tail[j] == bs[j + 1]);
        }
        if replace {
            assert(tail[k - 1].s == d.s);
        } else {
            assert(k - 1 == tail.len() || lex_lt(d.s, tail[k - 1].s));
        }
        lemma_buf_insert_at(tail, d, k - 1, replace);
        if replace {
            assert(seq![bs[0]] + (tail.subrange(0, k - 1) + seq![d] + tail.subrange(
                k,
                tail.len() as int,
            )) =~= bs.subrange(0, k) + seq![d] + bs.subrange(k + 1, bs.len() as int));
        } else {
            assert(seq![bs[0]] + (tail.subrange(0, k - 1) + seq![d] + tail.subrange(
                k - 1,
                tail.len() as int,
            )) =~= bs.subrange(0, k) + seq![d] + bs.subrange(k, bs.len() as int));
        }
    }
}

/// Inserting into a sorted buffer keeps it sorted.
proof fn lemma_buf_insert_sorted(bs: Seq<DiffView>, d: DiffView)
    requires
        buf_sorted(bs),
    ensures
        buf_sorted(buf_insert(bs, d)),
        forall|i: int| 0 <= i < buf_insert(bs, d).len() ==> #[trigger] buf_insert(bs, d)[i] == d
            || bs.contains(buf_insert(bs, d)[i]),
    decreases bs.len(),
{
    let out = buf_insert(bs, d);
    if bs.len() == 0 {
    } else if lex_lt(d.s, bs[0].s) {
        assert(out == seq![d] + bs);
        assert forall|i: int, j: int| 0 <= i < j < out.len() implies lex_lt(
            (#[trigger] out[i]).s,
            (#[trigger] out[j]).s,
        ) by {
            if i == 0 {
                if j > 1 {
                    lemma_lex_transitive(d.s, bs[0].s, bs[j - 1].s);
                }
            } else {
                assert(out[i] == bs[i - 1] && out[j] == bs[j - 1]);
            }
        }
        assert forall|i: int| 0 <= i < out.len() implies #[trigger] out[i] == d || bs.contains(
            out[i],
        ) by {
            if i > 0 {
                assert(out[i] == bs[i - 1]);
            }
        }
    } else if d.s == bs[0].s {
        assert(out == seq![d] + bs.drop_first());
        assert forall|i: int, j: int| 0 <= i < j < out.len() implies lex_lt(
            (#[trigger] out[i]).s,
            (#[trigger] out[j]).s,
        ) by {
            if i == 0 {
                assert(out[j] == bs[j]);
            } else {
                assert(out[i] == bs[i] && out[j] == bs[j]);
            }
        }
        assert forall|i: int| 0 <= i < out.len() implies #[trigger] out[i] == d || bs.contains(
            out[i],
        ) by {
            if i > 0 {
                assert(out[i] == bs[i]);
            }
        }
    } else {
        lemma_lex_trichotomy(d.s, bs[0].s);
        let tail = bs.drop_first();
        assert(buf_sorted(tail)) by {
            assert(forall|i: int, j: int| 0 <= i < j < tail.len() ==> tail[i] == bs[i + 1]
                && tail[j] == bs[j + 1]);
        }
        lemma_buf_insert_sorted(tail, d);
        let sub = buf_insert(tail, d);
        assert(out == seq![bs[0]] + sub);
        assert forall|i: int, j: int| 0 <= i < j < out.len() implies lex_lt(
            (#[trigger] out[i]).s,
            (#[trigger] out[j]).s,
        ) by {
            if i == 0 {
                assert(out[j] == sub[j - 1]);
                if sub[j - 1] == d {
                    assert(lex_lt(bs[0].s, d.s));
                } else {
                    assert(tail.contains(sub[j - 1]));
                    let w = choose|w: int| 0 <= w < tail.len() && tail[w] == sub[j - 1];
                    assert(bs[w + 1] == sub[j - 1]);
                }
            } else {
                assert(out[i] == sub[i - 1] && out[j] == sub[j - 1]);
            }
        }
        assert forall|i: int| 0 <= i < out.len() implies #[trigger] out[i] == d || bs.contains(
            out[i],
        ) by {
            if i > 0 {
                assert(out[i] == sub[i - 1]);
                if sub[i - 1] != d {
                    assert(tail.contains(sub[i - 1]));
                    let w = choose|w: int| 0 <= w < tail.len() && tail[w] == sub[i - 1];
                    assert(bs[w + 1] == sub[i - 1]);
                }
            }
        }
    }
}

} // verus!
