//! The aggregation engine: caches the latest book from each exchange,
//! merges the two into one composite view with a deterministic,
//! configuration-controlled tie-break, truncates it to the configured
//! depth, computes the spread and builds the outbound summary.
//!
//! The composite order compares price first (best-first for the side).
//! When two exchanges quote the same price, a boolean configuration flag
//! decides the order: when set, bids are quantity-ascending and asks
//! quantity-descending at equal prices; when clear, the inverse. Levels
//! equal in price and quantity are ordered by a fixed exchange rank, so
//! the composite order never depends on anything but its inputs.
use vstd::prelude::*;

use crate::definitions::{BookModel, Orderbook, Orderbooks};
use crate::orderbook::{origin_only, price_before, prefix_vec, side_sorted, ExchangeId, Level, Side};
use vstd::multiset::Multiset;

verus! {

/// The amount tie-break: on bids the flag selects quantity-ascending, on
/// asks the complementary order, and the clear flag the inverse of both.
pub open spec fn amount_before(side: Side, flag: bool, a: u64, b: u64) -> bool {
    if (side == Side::Bid) == flag {
        a < b
    } else {
        a > b
    }
}

/// The composite merge order: price first (best-first for the side), then
/// the configured amount tie-break, then the fixed exchange rank.
pub open spec fn level_before(side: Side, flag: bool, a: Level, b: Level) -> bool {
    ||| price_before(side, a.price, b.price)
    ||| (a.price == b.price && amount_before(side, flag, a.amount, b.amount))
    ||| (a.price == b.price && a.amount == b.amount && a.exchange.rank() < b.exchange.rank())
}

/// The composite order, decided executably.
pub fn level_before_exec(side: Side, flag: bool, a: &Level, b: &Level) -> (r: bool)
    ensures
        r == level_before(side, flag, *a, *b),
{
    let price_first = match side {
        Side::Bid => a.price > b.price,
        Side::Ask => a.price < b.price,
    };
    if price_first {
        true
    } else if a.price != b.price {
        false
    } else {
        let amount_first = if (matches!(side, Side::Bid)) == flag {
            a.amount < b.amount
        } else {
            a.amount > b.amount
        };
        if amount_first {
            true
        } else if a.amount != b.amount {
            false
        } else {
            matches!(a.exchange, ExchangeId::Binance) && matches!(b.exchange, ExchangeId::Bitstamp)
        }
    }
}

/// The sequence is strictly ordered by the composite order.
pub open spec fn level_sorted(side: Side, flag: bool, s: Seq<Level>) -> bool {
    forall|i: int, j: int|
        0 <= i < j < s.len() ==> level_before(side, flag, #[trigger] s[i], #[trigger] s[j])
}

/// Any two levels of different exchanges are comparable under the
/// composite order, whichever way their prices and amounts fall.
pub open spec fn cross_comparable(side: Side, flag: bool, xs: Seq<Level>, ys: Seq<Level>) -> bool {
    forall|i: int, j: int|
        0 <= i < xs.len() && 0 <= j < ys.len() ==> (level_before(side, flag, #[trigger] xs[i], #[trigger] ys[j])
            || level_before(side, flag, ys[j], xs[i]))
}

/// The composite order is transitive.
pub proof fn lemma_level_before_trans(side: Side, flag: bool, a: Level, b: Level, c: Level)
    requires
        level_before(side, flag, a, b),
        level_before(side, flag, b, c),
    ensures
        level_before(side, flag, a, c),
{
}

/// Levels of two different exchanges are always comparable.
pub proof fn lemma_cross_comparable(side: Side, flag: bool, xs: Seq<Level>, ys: Seq<Level>)
    requires
        exists|x: ExchangeId, y: ExchangeId|
            x != y && origin_only(xs, x) && origin_only(ys, y),
    ensures
        cross_comparable(side, flag, xs, ys),
{
    let (x, y) = choose|x: ExchangeId, y: ExchangeId|
        x != y && origin_only(xs, x) && origin_only(ys, y);
    assert forall|i: int, j: int|
        0 <= i < xs.len() && 0 <= j < ys.len() implies (level_before(
        side,
        flag,
        #[trigger] xs[i],
        #[trigger] ys[j],
    ) || level_before(side, flag, ys[j], xs[i])) by {
        assert(xs[i].exchange == x && ys[j].exchange == y);
    }
}

/// A side that is strictly price-ordered is ordered by every composite
/// order: distinct prices never reach the tie-break keys.
pub proof fn lemma_price_sorted_level_sorted(side: Side, flag: bool, s: Seq<Level>)
    requires
        side_sorted(side, s),
    ensures
        level_sorted(side, flag, s),
{
    assert forall|i: int, j: int|
        0 <= i < j < s.len() implies level_before(side, flag, #[trigger] s[i], #[trigger] s[j]) by {
        assert(price_before(side, s[i].price, s[j].price));
    }
}

/// The union of two sides merged into composite order. Elements are taken
/// from the front of either input, whichever is first in the composite
/// order, so the result is a deterministic function of the inputs alone.
pub open spec fn merge_levels(side: Side, flag: bool, xs: Seq<Level>, ys: Seq<Level>) -> Seq<Level>
    decreases xs.len() + ys.len(),
{
    if xs.len() == 0 {
        ys
    } else if ys.len() == 0 {
        xs
    } else if level_before(side, flag, xs[0], ys[0]) {
        seq![xs[0]] + merge_levels(side, flag, xs.drop_first(), ys)
    } else {
        seq![ys[0]] + merge_levels(side, flag, xs, ys.drop_first())
    }
}

/// The merge holds exactly the elements of its inputs, as many as both had.
pub proof fn lemma_merge_elems(side: Side, flag: bool, xs: Seq<Level>, ys: Seq<Level>)
    ensures
        merge_levels(side, flag, xs, ys).len() == xs.len() + ys.len(),
        forall|k: int|
            0 <= k < merge_levels(side, flag, xs, ys).len() ==> (xs.contains(
                #[trigger] merge_levels(side, flag, xs, ys)[k],
            ) || ys.contains(merge_levels(side, flag, xs, ys)[k])),
    decreases xs.len() + ys.len(),
{
    let m = merge_levels(side, flag, xs, ys);
    if xs.len() == 0 || ys.len() == 0 {
    } else if level_before(side, flag, xs[0], ys[0]) {
        lemma_merge_elems(side, flag, xs.drop_first(), ys);
        let rest = merge_levels(side, flag, xs.drop_first(), ys);
        assert forall|k: int| 0 <= k < m.len() implies (xs.contains(#[trigger] m[k]) || ys.contains(
            m[k],
        )) by {
            if k == 0 {
                assert(m[0] == xs[0]);
            } else {
                assert(m[k] == rest[k - 1]);
                if xs.drop_first().contains(rest[k - 1]) {
                    let q = choose|q: int|
                        0 <= q < xs.drop_first().len() && xs.drop_first()[q] == rest[k - 1];
                    assert(xs[q + 1] == m[k]);
                }
            }
        }
    } else {
        lemma_merge_elems(side, flag, xs, ys.drop_first());
        let rest = merge_levels(side, flag, xs, ys.drop_first());
        assert forall|k: int| 0 <= k < m.len() implies (xs.contains(#[trigger] m[k]) || ys.contains(
            m[k],
        )) by {
            if k == 0 {
                assert(m[0] == ys[0]);
            } else {
                assert(m[k] == rest[k - 1]);
                if ys.drop_first().contains(rest[k - 1]) {
                    let q = choose|q: int|
                        0 <= q < ys.drop_first().len() && ys.drop_first()[q] == rest[k - 1];
                    assert(ys[q + 1] == m[k]);
                }
            }
        }
    }
}

/// The merge is exactly the union of its inputs: as a multiset, no level
/// is added, dropped or duplicated.
pub proof fn lemma_merge_multiset(side: Side, flag: bool, xs: Seq<Level>, ys: Seq<Level>)
    ensures
        merge_levels(side, flag, xs, ys).to_multiset() == xs.to_multiset().add(ys.to_multiset()),
    decreases xs.len() + ys.len(),
{
    broadcast use vstd::seq_lib::lemma_multiset_commutative;
    broadcast use vstd::seq_lib::group_to_multiset_ensures;
    broadcast use vstd::multiset::group_multiset_axioms;

    if xs.len() == 0 {
        assert(xs.to_multiset() =~= Multiset::<Level>::empty());
        assert(merge_levels(side, flag, xs, ys).to_multiset() =~= xs.to_multiset().add(
            ys.to_multiset(),
        ));
    } else if ys.len() == 0 {
        assert(ys.to_multiset() =~= Multiset::<Level>::empty());
        assert(merge_levels(side, flag, xs, ys).to_multiset() =~= xs.to_multiset().add(
            ys.to_multiset(),
        ));
    } else if level_before(side, flag, xs[0], ys[0]) {
        lemma_merge_multiset(side, flag, xs.drop_first(), ys);
        assert(xs =~= seq![xs[0]] + xs.drop_first());
        assert(merge_levels(side, flag, xs, ys).to_multiset() =~= xs.to_multiset().add(
            ys.to_multiset(),
        ));
    } else {
        lemma_merge_multiset(side, flag, xs, ys.drop_first());
        assert(ys =~= seq![ys[0]] + ys.drop_first());
        assert(merge_levels(side, flag, xs, ys).to_multiset() =~= xs.to_multiset().add(
            ys.to_multiset(),
        ));
    }
}

/// Merging two strictly composite-ordered sides whose levels are pairwise
/// comparable yields a strictly composite-ordered sequence: the composite
/// ordering of the output is always the same for the same inputs.
pub proof fn lemma_merge_sorted(side: Side, flag: bool, xs: Seq<Level>, ys: Seq<Level>)
    requires
        level_sorted(side, flag, xs),
        level_sorted(side, flag, ys),
        cross_comparable(side, flag, xs, ys),
    ensures
        level_sorted(side, flag, merge_levels(side, flag, xs, ys)),
    decreases xs.len() + ys.len(),
{
    let m = merge_levels(side, flag, xs, ys);
    if xs.len() == 0 || ys.len() == 0 {
    } else {
        if level_before(side, flag, xs[0], ys[0]) {
            let xd = xs.drop_first();
            assert(cross_comparable(side, flag, xd, ys)) by {
                assert(forall|i: int| 0 <= i < xd.len() ==> #[trigger] xd[i] == xs[i + 1]);
            }
            lemma_merge_sorted(side, flag, xd, ys);
            lemma_merge_elems(side, flag, xd, ys);
            let rest = merge_levels(side, flag, xd, ys);
            // xs[0] is before every element of the rest of the merge.
            assert forall|k: int| 0 <= k < rest.len() implies level_before(
                side,
                flag,
                xs[0],
                #[trigger] rest[k],
            ) by {
                if xd.contains(rest[k]) {
                    let q = choose|q: int| 0 <= q < xd.len() && xd[q] == rest[k];
                    assert(xd[q] == xs[q + 1]);
                    assert(level_before(side, flag, xs[0], xs[q + 1]));
                } else {
                    let q = choose|q: int| 0 <= q < ys.len() && ys[q] == rest[k];
                    if q == 0 {
                    } else {
                        lemma_level_before_trans(side, flag, xs[0], ys[0], ys[q]);
                    }
                }
            }
            assert forall|i: int, j: int| 0 <= i < j < m.len() implies level_before(
                side,
                flag,
                #[trigger] m[i],
                #[trigger] m[j],
            ) by {
                if i > 0 {
                    assert(m[i] == rest[i - 1] && m[j] == rest[j - 1]);
                } else {
                    assert(m[j] == rest[j - 1]);
                }
            }
        } else {
            assert(level_before(side, flag, ys[0], xs[0]));
            let yd = ys.drop_first();
            assert(cross_comparable(side, flag, xs, yd)) by {
                assert(forall|i: int| 0 <= i < yd.len() ==> #[trigger] yd[i] == ys[i + 1]);
            }
            lemma_merge_sorted(side, flag, xs, yd);
            lemma_merge_elems(side, flag, xs, yd);
            let rest = merge_levels(side, flag, xs, yd);
            assert forall|k: int| 0 <= k < rest.len() implies level_before(
                side,
                flag,
                ys[0],
                #[trigger] rest[k],
            ) by {
                if xs.contains(rest[k]) {
                    let q = choose|q: int| 0 <= q < xs.len() && xs[q] == rest[k];
                    if q == 0 {
                    } else {
                        lemma_level_before_trans(side, flag, ys[0], xs[0], xs[q]);
                    }
                } else {
                    let q = choose|q: int| 0 <= q < yd.len() && yd[q] == rest[k];
                    assert(yd[q] == ys[q + 1]);
                    assert(level_before(side, flag, ys[0], ys[q + 1]));
                }
            }
            assert forall|i: int, j: int| 0 <= i < j < m.len() implies level_before(
                side,
                flag,
                #[trigger] m[i],
                #[trigger] m[j],
            ) by {
                if i > 0 {
                    assert(m[i] == rest[i - 1] && m[j] == rest[j - 1]);
                } else {
                    assert(m[j] == rest[j - 1]);
                }
            }
        }
    }
}

/// Merges two sides into composite order, exactly as `merge_levels` says.
pub fn merge_side_vec(xs: &Vec<Level>, ys: &Vec<Level>, side: Side, flag: bool) -> (r: Vec<Level>)
    ensures
        r@ == merge_levels(side, flag, xs@, ys@),
{
    let mut r: Vec<Level> = Vec::new();
    let mut i: usize = 0;
    let mut j: usize = 0;
    proof {
        assert(xs@.skip(0) =~= xs@);
        assert(ys@.skip(0) =~= ys@);
        assert(r@ + merge_levels(side, flag, xs@, ys@) =~= merge_levels(side, flag, xs@, ys@));
    }
    while i < xs.len() || j < ys.len()
        invariant
            i <= xs@.len(),
            j <= ys@.len(),
            merge_levels(side, flag, xs@, ys@) == r@ + merge_levels(
                side,
                flag,
                xs@.skip(i as int),
                ys@.skip(j as int),
            ),
        decreases xs@.len() - i + ys@.len() - j,
    {
        let ghost xr = xs@.skip(i as int);
        let ghost yr = ys@.skip(j as int);
        let take_x = if i == xs.len() {
            false
        } else if j == ys.len() {
            true
        } else {
            level_before_exec(side, flag, &xs[i], &ys[j])
        };
        if take_x {
            proof {
                assert(xr[0] == xs@[i as int]);
                if yr.len() == 0 {
                    assert(merge_levels(side, flag, xr, yr) == xr);
                    assert(xr =~= seq![xs@[i as int]] + xs@.skip(i as int + 1));
                } else {
                    assert(merge_levels(side, flag, xr, yr) == seq![xr[0]] + merge_levels(
                        side,
                        flag,
                        xr.drop_first(),
                        yr,
                    ));
                    assert(xr.drop_first() =~= xs@.skip(i as int + 1));
                }
                assert(r@.push(xs@[i as int]) =~= r@ + seq![xs@[i as int]]);
                assert((r@ + seq![xs@[i as int]]) + merge_levels(
                    side,
                    flag,
                    xs@.skip(i as int + 1),
                    yr,
                ) =~= r@ + (seq![xs@[i as int]] + merge_levels(side, flag, xs@.skip(i as int + 1), yr)));
            }
            r.push(xs[i]);
            i += 1;
        } else {
            proof {
                assert(yr[0] == ys@[j as int]);
                if xr.len() == 0 {
                    assert(merge_levels(side, flag, xr, yr) == yr);
                    assert(yr =~= seq![ys@[j as int]] + ys@.skip(j as int + 1));
                } else {
                    assert(merge_levels(side, flag, xr, yr) == seq![yr[0]] + merge_levels(
                        side,
                        flag,
                        xr,
                        yr.drop_first(),
                    ));
                    assert(yr.drop_first() =~= ys@.skip(j as int + 1));
                }
                assert(r@.push(ys@[j as int]) =~= r@ + seq![ys@[j as int]]);
                assert((r@ + seq![ys@[j as int]]) + merge_levels(
                    side,
                    flag,
                    xr,
                    ys@.skip(j as int + 1),
                ) =~= r@ + (seq![ys@[j as int]] + merge_levels(side, flag, xr, ys@.skip(j as int + 1))));
            }
            r.push(ys[j]);
            j += 1;
        }
    }
    proof {
        assert(xs@.skip(xs@.len() as int).len() == 0);
        assert(ys@.skip(ys@.len() as int).len() == 0);
        assert(r@ + merge_levels(side, flag, xs@.skip(xs@.len() as int), ys@.skip(ys@.len() as int))
            =~= r@);
    }
    r
}

/// The outbound summary as mathematics.
#[verifier::ext_equal]
pub ghost struct SummaryModel {
    pub spread: int,
    pub bids: Seq<Level>,
    pub asks: Seq<Level>,
}

/// The immutable summary handed to every subscriber: the spread between
/// the best ask and the best bid (negative when the merged books cross),
/// and the best `depth` composite levels per side, best first.
#[derive(Clone, Debug)]
pub struct Summary {
    pub spread: i128,
    pub bids: Vec<Level>,
    pub asks: Vec<Level>,
}

impl Summary {
    /// The summary as its mathematical model.
    pub open spec fn model(&self) -> SummaryModel {
        SummaryModel { spread: self.spread as int, bids: self.bids@, asks: self.asks@ }
    }
}

/// One composite side: the two cached books' sides merged into composite
/// order and truncated to the best `depth` levels.
pub open spec fn spec_merged_side(
    side: Side,
    flag: bool,
    binance: BookModel,
    bitstamp: BookModel,
    depth: int,
) -> Seq<Level> {
    let m = merge_levels(side, flag, binance.of_side(side), bitstamp.of_side(side));
    m.take(vstd::math::min(depth, m.len() as int))
}

/// The summary the aggregation engine owes for a pair of cached books:
/// both merged, truncated sides and the spread of their best levels; or
/// nothing when either truncated side is empty, since a one-sided summary
/// reports nothing meaningful.
pub open spec fn spec_summary(
    binance: BookModel,
    bitstamp: BookModel,
    flag: bool,
    depth: int,
) -> Option<SummaryModel> {
    let mb = spec_merged_side(Side::Bid, flag, binance, bitstamp, depth);
    let ma = spec_merged_side(Side::Ask, flag, binance, bitstamp, depth);
    if mb.len() == 0 || ma.len() == 0 {
        None
    } else {
        Some(SummaryModel { spread: ma[0].price - mb[0].price, bids: mb, asks: ma })
    }
}

/// Merge determinism: the composite order is a total order on levels, so
/// the same levels under the same tie-break configuration admit exactly
/// one composite ordering. Any way of arranging them that respects the
/// order — whatever the construction or iteration order — yields the same
/// sequence.
pub proof fn lemma_composite_order_unique(side: Side, flag: bool, m1: Seq<Level>, m2: Seq<Level>)
    requires
        level_sorted(side, flag, m1),
        level_sorted(side, flag, m2),
        m1.to_multiset() == m2.to_multiset(),
    ensures
        m1 == m2,
{
    let leq = |a: Level, b: Level| a == b || level_before(side, flag, a, b);
    assert(vstd::relations::transitive(leq)) by {
        assert forall|a: Level, b: Level, c: Level| #[trigger] leq(a, b) && #[trigger] leq(b, c) implies leq(a, c) by {
            if a != b && b != c {
                lemma_level_before_trans(side, flag, a, b, c);
            }
        }
    }
    assert(vstd::relations::strongly_connected(leq)) by {
        assert forall|a: Level, b: Level| #[trigger] leq(a, b) || #[trigger] leq(b, a) by {
            if a.price == b.price && a.amount == b.amount && a.exchange == b.exchange {
                assert(a == b);
            }
        }
    }
    assert(vstd::relations::sorted_by(m1, leq)) by {
        assert forall|i: int, j: int| 0 <= i < j < m1.len() implies leq(m1[i], m1[j]) by {
            assert(level_before(side, flag, m1[i], m1[j]));
        }
    }
    assert(vstd::relations::sorted_by(m2, leq)) by {
        assert forall|i: int, j: int| 0 <= i < j < m2.len() implies leq(m2[i], m2[j]) by {
            assert(level_before(side, flag, m2[i], m2[j]));
        }
    }
    vstd::seq_lib::lemma_sorted_unique(m1, m2, leq);
    assert(m1 =~= m2);
}

/// A merged, truncated side of two well-formed single-exchange books is
/// strictly composite-ordered: best level first, and at one price the
/// configured tie-break decides.
pub proof fn lemma_merged_side_sorted(
    side: Side,
    flag: bool,
    binance: BookModel,
    bitstamp: BookModel,
    depth: int,
)
    requires
        depth >= 0,
        binance.wf(),
        bitstamp.wf(),
        binance.origin(ExchangeId::Binance),
        bitstamp.origin(ExchangeId::Bitstamp),
    ensures
        level_sorted(side, flag, spec_merged_side(side, flag, binance, bitstamp, depth)),
{
    let xs = binance.of_side(side);
    let ys = bitstamp.of_side(side);
    lemma_price_sorted_level_sorted(side, flag, xs);
    lemma_price_sorted_level_sorted(side, flag, ys);
    assert(origin_only(xs, ExchangeId::Binance) && origin_only(ys, ExchangeId::Bitstamp));
    lemma_cross_comparable(side, flag, xs, ys);
    lemma_merge_sorted(side, flag, xs, ys);
    let m = merge_levels(side, flag, xs, ys);
    let t = m.take(vstd::math::min(depth, m.len() as int));
    assert forall|i: int, j: int| 0 <= i < j < t.len() implies level_before(
        side,
        flag,
        #[trigger] t[i],
        #[trigger] t[j],
    ) by {
        assert(t[i] == m[i] && t[j] == m[j]);
    }
}

/// The aggregation engine's state: the latest book received from each
/// exchange, initially empty.
#[derive(Clone, Debug)]
pub struct Aggregator {
    pub binance_ob_cache: Orderbook,
    pub bitstamp_ob_cache: Orderbook,
}

impl Aggregator {
    /// The engine's invariant: each cache is a well-formed book holding
    /// levels of its own exchange alone.
    pub open spec fn wf(&self) -> bool {
        &&& self.binance_ob_cache.wf()
        &&& self.bitstamp_ob_cache.wf()
        &&& self.binance_ob_cache.model().origin(ExchangeId::Binance)
        &&& self.bitstamp_ob_cache.model().origin(ExchangeId::Bitstamp)
    }

    /// A fresh engine with two empty caches.
    pub fn new() -> (r: Self)
        ensures
            r.binance_ob_cache.model().bids.len() == 0,
            r.binance_ob_cache.model().asks.len() == 0,
            r.bitstamp_ob_cache.model().bids.len() == 0,
            r.bitstamp_ob_cache.model().asks.len() == 0,
            r.wf(),
    {
        Aggregator { binance_ob_cache: Orderbook::new(), bitstamp_ob_cache: Orderbook::new() }
    }

    /// Consumes one tagged book update: replaces the cache of the sending
    /// exchange (the other cache is untouched), merges both caches,
    /// truncates to `depth` and builds the summary. Returns nothing — and
    /// so causes no broadcast attempt — when no subscriber is registered
    /// or when either merged side comes out empty.
    pub fn aggregate_orderbooks(
        &mut self,
        msg: Orderbooks,
        identical_level_order: bool,
        depth: usize,
        subscriber_count: usize,
    ) -> (r: Option<Summary>)
        requires
            old(self).wf(),
            msg.spec_book().wf(),
            match msg {
                Orderbooks::Binance(b) => b.model().origin(ExchangeId::Binance),
                Orderbooks::Bitstamp(b) => b.model().origin(ExchangeId::Bitstamp),
            },
        ensures
            final(self).wf(),
            final(self).binance_ob_cache.model() == (match msg {
                Orderbooks::Binance(b) => b.model(),
                Orderbooks::Bitstamp(_) => old(self).binance_ob_cache.model(),
            }),
            final(self).bitstamp_ob_cache.model() == (match msg {
                Orderbooks::Binance(_) => old(self).bitstamp_ob_cache.model(),
                Orderbooks::Bitstamp(b) => b.model(),
            }),
            r is Some <==> subscriber_count > 0 && spec_summary(
                final(self).binance_ob_cache.model(),
                final(self).bitstamp_ob_cache.model(),
                identical_level_order,
                depth as int,
            ) is Some,
            r is Some ==> r->0.model() == spec_summary(
                final(self).binance_ob_cache.model(),
                final(self).bitstamp_ob_cache.model(),
                identical_level_order,
                depth as int,
            )->0,
            r matches Some(s) ==> level_sorted(Side::Bid, identical_level_order, s.bids@)
                && level_sorted(Side::Ask, identical_level_order, s.asks@),
    {
        proof {
            let bin = match &msg {
                Orderbooks::Binance(b) => b.model(),
                Orderbooks::Bitstamp(_) => old(self).binance_ob_cache.model(),
            };
            let bit = match &msg {
                Orderbooks::Binance(_) => old(self).bitstamp_ob_cache.model(),
                Orderbooks::Bitstamp(b) => b.model(),
            };
            lemma_merged_side_sorted(Side::Bid, identical_level_order, bin, bit, depth as int);
            lemma_merged_side_sorted(Side::Ask, identical_level_order, bin, bit, depth as int);
        }
        match msg {
            Orderbooks::Binance(b) => {
                self.binance_ob_cache = b;
            },
            Orderbooks::Bitstamp(b) => {
                self.bitstamp_ob_cache = b;
            },
        }
        if subscriber_count == 0 {
            return None;
        }
        let merged_bids = merge_side_vec(
            &self.binance_ob_cache.bids,
            &self.bitstamp_ob_cache.bids,
            Side::Bid,
            identical_level_order,
        );
        let merged_asks = merge_side_vec(
            &self.binance_ob_cache.asks,
            &self.bitstamp_ob_cache.asks,
            Side::Ask,
            identical_level_order,
        );
        let bids_out = prefix_vec(&merged_bids, depth);
        let asks_out = prefix_vec(&merged_asks, depth);
        if bids_out.len() == 0 || asks_out.len() == 0 {
            return None;
        }
        let spread: i128 = asks_out[0].price as i128 - bids_out[0].price as i128;
        Some(Summary { spread, bids: bids_out, asks: asks_out })
    }
}

} // verus!
