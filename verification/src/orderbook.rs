//! Core vocabulary of the order-book aggregator: exchange identifiers,
//! price levels, book sides, and the ordered-sequence operations that the
//! book and the merge are specified with.
//!
//! Prices and amounts are fixed-point integers: a price or an amount is the
//! number of smallest representable units (the scale is chosen by the caller
//! and never matters to the logic, which only compares and never rescales).
//! Ordering by integer price is exact, so two equal prices are never told
//! apart by rounding.
use vstd::prelude::*;

verus! {

/// The exchange a price level originated from.
#[derive(Clone, Copy, Debug, PartialEq, Eq, Structural)]
pub enum ExchangeId {
    Binance,
    Bitstamp,
}

impl ExchangeId {
    /// A fixed rank used as the last tie-break key, so that two levels that
    /// agree on price and amount still have a deterministic order.
    pub open spec fn rank(self) -> int {
        match self {
            ExchangeId::Binance => 0,
            ExchangeId::Bitstamp => 1,
        }
    }

    /// The exchange's conventional lower-case name.
    pub fn name(&self) -> (r: String)
        ensures
            self is Binance ==> r@ == "binance"@,
            self is Bitstamp ==> r@ == "bitstamp"@,
    {
        match self {
            ExchangeId::Binance => "binance".to_owned(),
            ExchangeId::Bitstamp => "bitstamp".to_owned(),
        }
    }
}

/// One standing price level: the price, the quantity available at it, and
/// the exchange that quotes it.
#[derive(Clone, Copy, Debug, PartialEq, Eq, Structural)]
pub struct Level {
    pub exchange: ExchangeId,
    pub price: u64,
    pub amount: u64,
}

/// The side of a book a level stands on.
#[derive(Clone, Copy, Debug, PartialEq, Eq, Structural)]
pub enum Side {
    Bid,
    Ask,
}

/// `a` is a strictly better price than `b` on the given side: bids are
/// best-first by descending price, asks by ascending price.
pub open spec fn price_before(side: Side, a: u64, b: u64) -> bool {
    match side {
        Side::Bid => a > b,
        Side::Ask => a < b,
    }
}

/// The sequence is strictly best-first ordered by price for its side.
/// Strictness means every price occurs at most once.
pub open spec fn side_sorted(side: Side, s: Seq<Level>) -> bool {
    forall|i: int, j: int|
        0 <= i < j < s.len() ==> price_before(side, (#[trigger] s[i]).price, (#[trigger] s[j]).price)
}

/// Every level in the sequence has a positive amount; a level whose
/// quantity reached zero is removed, never stored.
pub open spec fn amounts_positive(s: Seq<Level>) -> bool {
    forall|i: int| 0 <= i < s.len() ==> (#[trigger] s[i]).amount > 0
}

/// Some level in the sequence stands at price `p`.
pub open spec fn has_price(s: Seq<Level>, p: u64) -> bool {
    exists|i: int| 0 <= i < s.len() && (#[trigger] s[i]).price == p
}

/// No price occurs on both sides at once.
pub open spec fn prices_disjoint(bids: Seq<Level>, asks: Seq<Level>) -> bool {
    forall|i: int, j: int|
        0 <= i < bids.len() && 0 <= j < asks.len() ==> (#[trigger] bids[i]).price != (
        #[trigger] asks[j]).price
}

/// Every level in the sequence is tagged with exchange `x`.
pub open spec fn origin_only(s: Seq<Level>, x: ExchangeId) -> bool {
    forall|i: int| 0 <= i < s.len() ==> (#[trigger] s[i]).exchange == x
}

/// The sequence with every level at price `p` removed.
pub open spec fn remove_price(s: Seq<Level>, p: u64) -> Seq<Level> {
    s.filter(|l: Level| l.price != p)
}

/// The opposite side after a level was written at price `p` on `side`: any
/// level the update crosses (an ask at or under a new bid, a bid at or over
/// a new ask) is removed, so the two sides never overlap.
pub open spec fn keep_uncrossed(other: Seq<Level>, side: Side, p: u64) -> Seq<Level> {
    match side {
        Side::Bid => other.filter(|l: Level| l.price > p),
        Side::Ask => other.filter(|l: Level| l.price < p),
    }
}

/// `l` inserted into a best-first sequence at its price's position.
pub open spec fn insert_level(side: Side, s: Seq<Level>, l: Level) -> Seq<Level>
    decreases s.len(),
{
    if s.len() == 0 {
        seq![l]
    } else if price_before(side, l.price, s[0].price) {
        seq![l] + s
    } else {
        seq![s[0]] + insert_level(side, s.drop_first(), l)
    }
}

/// Every element of a filtered sequence is an element of the original.
pub proof fn lemma_filter_elems<A>(s: Seq<A>, pred: spec_fn(A) -> bool)
    ensures
        forall|k: int|
            0 <= k < s.filter(pred).len() ==> s.contains(#[trigger] s.filter(pred)[k]),
    decreases s.len(),
{
    reveal(Seq::filter);
    if s.len() > 0 {
        let dl = s.drop_last();
        lemma_filter_elems(dl, pred);
        assert forall|k: int|
            0 <= k < s.filter(pred).len() implies s.contains(#[trigger] s.filter(pred)[k]) by {
            if k < dl.filter(pred).len() {
                assert(dl.filter(pred)[k] == s.filter(pred)[k]);
                let m = choose|m: int| 0 <= m < dl.len() && dl[m] == dl.filter(pred)[k];
                assert(s[m] == s.filter(pred)[k]);
            } else {
                assert(s.filter(pred)[k] == s.last());
            }
        }
    }
}

/// Filtering keeps a best-first sequence best-first.
pub proof fn lemma_filter_sorted(side: Side, s: Seq<Level>, pred: spec_fn(Level) -> bool)
    requires
        side_sorted(side, s),
    ensures
        side_sorted(side, s.filter(pred)),
    decreases s.len(),
{
    reveal(Seq::filter);
    if s.len() > 0 {
        let dl = s.drop_last();
        let f = s.filter(pred);
        let fdl = dl.filter(pred);
        lemma_filter_sorted(side, dl, pred);
        lemma_filter_elems(dl, pred);
        assert forall|i: int, j: int|
            0 <= i < j < f.len() implies price_before(side, (#[trigger] f[i]).price, (
        #[trigger] f[j]).price) by {
            if j < fdl.len() {
                assert(f[i] == fdl[i] && f[j] == fdl[j]);
            } else {
                // f[j] is s.last(); f[i] comes from the prefix.
                assert(f[i] == fdl[i]);
                assert(dl.contains(fdl[i]));
                let m = choose|m: int| 0 <= m < dl.len() && dl[m] == fdl[i];
                assert(price_before(side, s[m].price, s[s.len() - 1].price));
            }
        }
    }
}

/// What `insert_level` produces: one longer, containing exactly the old
/// elements plus `l`, still strictly best-first.
pub proof fn lemma_insert_level_props(side: Side, s: Seq<Level>, l: Level)
    requires
        side_sorted(side, s),
        !has_price(s, l.price),
    ensures
        side_sorted(side, insert_level(side, s, l)),
        insert_level(side, s, l).len() == s.len() + 1,
        forall|x: Level|
            #[trigger] insert_level(side, s, l).contains(x) <==> (s.contains(x) || x == l),
    decreases s.len(),
{
    let r = insert_level(side, s, l);
    if s.len() == 0 {
        assert forall|x: Level| #[trigger] r.contains(x) implies (s.contains(x) || x == l) by {
            assert(r[0] == l);
        }
        assert(r.contains(l)) by {
            assert(r[0] == l);
        }
    } else if price_before(side, l.price, s[0].price) {
        assert(r == seq![l] + s);
        assert forall|i: int, j: int|
            0 <= i < j < r.len() implies price_before(side, (#[trigger] r[i]).price, (
        #[trigger] r[j]).price) by {
            if i == 0 {
                assert(r[j] == s[j - 1]);
                if j > 1 {
                    assert(price_before(side, s[0].price, s[j - 1].price));
                }
            } else {
                assert(r[i] == s[i - 1] && r[j] == s[j - 1]);
            }
        }
        assert forall|x: Level| #[trigger] r.contains(x) implies (s.contains(x) || x == l) by {
            let k = choose|k: int| 0 <= k < r.len() && r[k] == x;
            if k > 0 {
                assert(s[k - 1] == x);
            }
        }
        assert forall|x: Level| s.contains(x) || x == l implies #[trigger] r.contains(x) by {
            if x == l {
                assert(r[0] == x);
            } else {
                let k = choose|k: int| 0 <= k < s.len() && s[k] == x;
                assert(r[k + 1] == x);
            }
        }
    } else {
        let d = s.drop_first();
        assert(!has_price(d, l.price)) by {
            if has_price(d, l.price) {
                let k = choose|k: int| 0 <= k < d.len() && d[k].price == l.price;
                assert(s[k + 1].price == l.price);
            }
        }
        lemma_insert_level_props(side, d, l);
        let rd = insert_level(side, d, l);
        assert(r == seq![s[0]] + rd);
        // s[0] is strictly before l and before every element of d.
        assert(s[0].price != l.price) by {
            if s[0].price == l.price {
                assert(0 <= 0 < s.len() && s[0].price == l.price);
            }
        }
        assert(price_before(side, s[0].price, l.price));
        assert forall|i: int, j: int|
            0 <= i < j < r.len() implies price_before(side, (#[trigger] r[i]).price, (
        #[trigger] r[j]).price) by {
            if i == 0 {
                assert(r[j] == rd[j - 1]);
                assert(rd.contains(rd[j - 1]));
                if rd[j - 1] == l {
                } else {
                    assert(d.contains(rd[j - 1]));
                    let m = choose|m: int| 0 <= m < d.len() && d[m] == rd[j - 1];
                    assert(price_before(side, s[0].price, s[m + 1].price));
                }
            } else {
                assert(r[i] == rd[i - 1] && r[j] == rd[j - 1]);
            }
        }
        assert forall|x: Level| #[trigger] r.contains(x) implies (s.contains(x) || x == l) by {
            let k = choose|k: int| 0 <= k < r.len() && r[k] == x;
            if k == 0 {
                assert(s[0] == x);
            } else {
                assert(rd.contains(rd[k - 1]));
                if rd[k - 1] != l {
                    let m = choose|m: int| 0 <= m < d.len() && d[m] == rd[k - 1];
                    assert(s[m + 1] == x);
                }
            }
        }
        assert forall|x: Level| s.contains(x) || x == l implies #[trigger] r.contains(x) by {
            if x == l {
                assert(rd.contains(l));
                let m = choose|m: int| 0 <= m < rd.len() && rd[m] == l;
                assert(r[m + 1] == x);
            } else {
                let k = choose|k: int| 0 <= k < s.len() && s[k] == x;
                if k == 0 {
                    assert(r[0] == x);
                } else {
                    assert(d[k - 1] == x);
                    assert(d.contains(x));
                    assert(rd.contains(x));
                    let m = choose|m: int| 0 <= m < rd.len() && rd[m] == x;
                    assert(r[m + 1] == x);
                }
            }
        }
    }
}

/// `insert_level` lands at the first index whose level is not better than
/// `l`; this pins the recursive definition to a concrete split point.
pub proof fn lemma_insert_level_at(side: Side, s: Seq<Level>, l: Level, i: int)
    requires
        0 <= i <= s.len(),
        forall|k: int| 0 <= k < i ==> !price_before(side, l.price, (#[trigger] s[k]).price),
        i < s.len() ==> price_before(side, l.price, s[i].price),
    ensures
        insert_level(side, s, l) == s.take(i) + seq![l] + s.skip(i),
    decreases i,
{
    if i == 0 {
        assert(insert_level(side, s, l) =~= s.take(0) + seq![l] + s.skip(0));
    } else {
        let d = s.drop_first();
        assert(forall|k: int| 0 <= k < i - 1 ==> d[k] == s[k + 1]);
        lemma_insert_level_at(side, d, l, i - 1);
        assert(insert_level(side, s, l) == seq![s[0]] + insert_level(side, d, l));
        assert(seq![s[0]] + (d.take(i - 1) + seq![l] + d.skip(i - 1)) =~= s.take(i) + seq![l]
            + s.skip(i));
    }
}

/// Exact price comparison for a side, best price first.
pub fn price_before_exec(side: Side, a: u64, b: u64) -> (r: bool)
    ensures
        r == price_before(side, a, b),
{
    match side {
        Side::Bid => a > b,
        Side::Ask => a < b,
    }
}

/// The levels of `v` that do not stand at price `p`, in their old order.
pub fn remove_price_vec(v: &Vec<Level>, p: u64) -> (r: Vec<Level>)
    ensures
        r@ == remove_price(v@, p),
{
    broadcast use vstd::seq_lib::group_seq_properties;

    let mut r: Vec<Level> = Vec::new();
    let mut k: usize = 0;
    while k < v.len()
        invariant
            k <= v.len(),
            r@ == remove_price(v@.take(k as int), p),
        decreases v.len() - k,
    {
        proof {
            v@.lemma_take_succ_push(k as int);
            v@.take(k as int).lemma_filter_push(v@[k as int], |l: Level| l.price != p);
        }
        if v[k].price != p {
            r.push(v[k]);
        }
        k += 1;
    }
    proof {
        assert(v@.take(v@.len() as int) =~= v@);
    }
    r
}

/// The levels of `v` that are not crossed by an update at price `p` on the
/// opposite side `side`, in their old order.
pub fn keep_uncrossed_vec(v: &Vec<Level>, side: Side, p: u64) -> (r: Vec<Level>)
    ensures
        r@ == keep_uncrossed(v@, side, p),
{
    broadcast use vstd::seq_lib::group_seq_properties;

    let mut r: Vec<Level> = Vec::new();
    let mut k: usize = 0;
    while k < v.len()
        invariant
            k <= v.len(),
            r@ == keep_uncrossed(v@.take(k as int), side, p),
        decreases v.len() - k,
    {
        proof {
            v@.lemma_take_succ_push(k as int);
            v@.take(k as int).lemma_filter_push(v@[k as int], |l: Level| l.price > p);
            v@.take(k as int).lemma_filter_push(v@[k as int], |l: Level| l.price < p);
        }
        let keep = match side {
            Side::Bid => v[k].price > p,
            Side::Ask => v[k].price < p,
        };
        if keep {
            r.push(v[k]);
        }
        k += 1;
    }
    proof {
        assert(v@.take(v@.len() as int) =~= v@);
    }
    r
}

/// The first `n` levels of `v` (all of them if it holds fewer), copied.
pub fn prefix_vec(v: &Vec<Level>, n: usize) -> (r: Vec<Level>)
    ensures
        r@ == v@.take(vstd::math::min(n as int, v@.len() as int)),
{
    let end = if n < v.len() {
        n
    } else {
        v.len()
    };
    let mut r: Vec<Level> = Vec::new();
    let mut k: usize = 0;
    while k < end
        invariant
            k <= end <= v.len(),
            end == vstd::math::min(n as int, v@.len() as int),
            r@ == v@.take(k as int),
        decreases end - k,
    {
        r.push(v[k]);
        proof {
            assert(r@ =~= v@.take(k as int + 1));
        }
        k += 1;
    }
    r
}

/// `l` inserted into the best-first vector `v` at its price's position.
pub fn insert_level_vec(v: &Vec<Level>, side: Side, l: Level) -> (r: Vec<Level>)
    requires
        side_sorted(side, v@),
        !has_price(v@, l.price),
    ensures
        r@ == insert_level(side, v@, l),
{
    let mut i: usize = 0;
    while i < v.len() && !price_before_exec(side, l.price, v[i].price)
        invariant
            i <= v.len(),
            forall|k: int| 0 <= k < i ==> !price_before(side, l.price, (#[trigger] v@[k]).price),
        decreases v.len() - i,
    {
        i += 1;
    }
    let mut r = prefix_vec(v, v.len());
    proof {
        assert(r@ =~= v@);
        lemma_insert_level_at(side, v@, l, i as int);
    }
    r.insert(i, l);
    proof {
        assert(r@ =~= v@.take(i as int) + seq![l] + v@.skip(i as int));
    }
    r
}

} // verus!
