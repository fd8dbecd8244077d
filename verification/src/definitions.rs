//! The per-exchange order book and the typed records the exchange feeds
//! deliver.
//!
//! An [`Orderbook`] holds both sides as best-first vectors of levels. Its
//! well-formedness invariant is the heart of the library: each side is
//! strictly best-first ordered (so a price occurs at most once per side),
//! no stored amount is zero, and no price stands on both sides at once.
//! Every mutation below is specified exactly and proved to keep it.
use vstd::prelude::*;

use crate::orderbook::{
    amounts_positive, has_price, insert_level, keep_uncrossed, lemma_filter_elems,
    lemma_filter_sorted, lemma_insert_level_props, origin_only, prices_disjoint, remove_price,
    side_sorted, insert_level_vec, keep_uncrossed_vec, remove_price_vec, ExchangeId, Level, Side,
};

verus! {

/// The mathematical content of an order book: the two sides as sequences
/// of levels, best-first.
#[verifier::ext_equal]
pub ghost struct BookModel {
    pub bids: Seq<Level>,
    pub asks: Seq<Level>,
}

impl BookModel {
    /// The book's invariant: both sides strictly best-first, no zero
    /// amounts, and no price quoted as both a bid and an ask.
    pub open spec fn wf(self) -> bool {
        &&& side_sorted(Side::Bid, self.bids)
        &&& side_sorted(Side::Ask, self.asks)
        &&& amounts_positive(self.bids)
        &&& amounts_positive(self.asks)
        &&& prices_disjoint(self.bids, self.asks)
    }

    /// Every level of the book came from exchange `x`.
    pub open spec fn origin(self, x: ExchangeId) -> bool {
        origin_only(self.bids, x) && origin_only(self.asks, x)
    }

    /// The side selected by `side`.
    pub open spec fn of_side(self, side: Side) -> Seq<Level> {
        match side {
            Side::Bid => self.bids,
            Side::Ask => self.asks,
        }
    }
}

/// What one level write does to a book. A zero amount removes the level
/// from its side (a no-op if absent); a positive amount replaces or inserts
/// it at its price's best-first position and removes every level the write
/// crosses on the opposite side.
pub open spec fn spec_upsert(m: BookModel, side: Side, l: Level) -> BookModel {
    if l.amount == 0 {
        match side {
            Side::Bid => BookModel { bids: remove_price(m.bids, l.price), asks: m.asks },
            Side::Ask => BookModel { bids: m.bids, asks: remove_price(m.asks, l.price) },
        }
    } else {
        match side {
            Side::Bid => BookModel {
                bids: insert_level(Side::Bid, remove_price(m.bids, l.price), l),
                asks: keep_uncrossed(m.asks, Side::Bid, l.price),
            },
            Side::Ask => BookModel {
                bids: keep_uncrossed(m.bids, Side::Ask, l.price),
                asks: insert_level(Side::Ask, remove_price(m.asks, l.price), l),
            },
        }
    }
}

/// A level write keeps the book well formed, and keeps a single-exchange
/// book single-exchange when the written level carries the same tag.
pub proof fn lemma_upsert_wf(m: BookModel, side: Side, l: Level)
    requires
        m.wf(),
    ensures
        spec_upsert(m, side, l).wf(),
        forall|x: ExchangeId|
            m.origin(x) && l.exchange == x ==> #[trigger] spec_upsert(m, side, l).origin(x),
{
    let r = spec_upsert(m, side, l);
    let (own, oth) = match side {
        Side::Bid => (m.bids, m.asks),
        Side::Ask => (m.asks, m.bids),
    };
    let removed = remove_price(own, l.price);
    broadcast use vstd::seq_lib::group_filter_ensures;

    lemma_filter_sorted(side, own, |v: Level| v.price != l.price);
    lemma_filter_elems(own, |v: Level| v.price != l.price);
    if l.amount == 0 {
        // Removal only shrinks one side; every property is inherited.
        assert forall|i: int, j: int|
            0 <= i < r.bids.len() && 0 <= j < r.asks.len() implies (#[trigger] r.bids[i]).price
            != (#[trigger] r.asks[j]).price by {
            match side {
                Side::Bid => {
                    assert(m.bids.contains(r.bids[i]));
                    let k = choose|k: int| 0 <= k < m.bids.len() && m.bids[k] == r.bids[i];
                    assert(m.bids[k].price != m.asks[j].price);
                },
                Side::Ask => {
                    assert(m.asks.contains(r.asks[j]));
                    let k = choose|k: int| 0 <= k < m.asks.len() && m.asks[k] == r.asks[j];
                    assert(m.bids[i].price != m.asks[k].price);
                },
            }
        }
        assert(r.wf());
    } else {
        assert(!has_price(removed, l.price)) by {
            if has_price(removed, l.price) {
                let k = choose|k: int| 0 <= k < removed.len() && removed[k].price == l.price;
            }
        }
        lemma_insert_level_props(side, removed, l);
        let inserted = insert_level(side, removed, l);
        let crossed = keep_uncrossed(oth, side, l.price);
        match side {
            Side::Bid => {
                lemma_filter_sorted(Side::Ask, oth, |v: Level| v.price > l.price);
                lemma_filter_elems(oth, |v: Level| v.price > l.price);
            },
            Side::Ask => {
                lemma_filter_sorted(Side::Bid, oth, |v: Level| v.price < l.price);
                lemma_filter_elems(oth, |v: Level| v.price < l.price);
            },
        }
        // Positivity: every level of the new own side is `l` or an old level.
        assert forall|i: int| 0 <= i < inserted.len() implies (#[trigger] inserted[i]).amount
            > 0 by {
            assert(inserted.contains(inserted[i]));
            if inserted[i] != l {
                assert(removed.contains(inserted[i]));
                let k = choose|k: int| 0 <= k < removed.len() && removed[k] == inserted[i];
                assert(own.contains(removed[k]));
                let k2 = choose|k2: int| 0 <= k2 < own.len() && own[k2] == removed[k];
            }
        }
        assert forall|i: int| 0 <= i < crossed.len() implies (#[trigger] crossed[i]).amount
            > 0 by {
            assert(oth.contains(crossed[i]));
            let k = choose|k: int| 0 <= k < oth.len() && oth[k] == crossed[i];
        }
        // Disjointness: the new own side holds `l` (which the crossing rule
        // cleared from the other side) and old levels (disjoint before).
        assert forall|i: int, j: int|
            0 <= i < inserted.len() && 0 <= j < crossed.len() implies (
        #[trigger] inserted[i]).price != (#[trigger] crossed[j]).price by {
            assert(inserted.contains(inserted[i]));
            assert(oth.contains(crossed[j]));
            let c = choose|c: int| 0 <= c < oth.len() && oth[c] == crossed[j];
            if inserted[i] != l {
                assert(removed.contains(inserted[i]));
                let k = choose|k: int| 0 <= k < removed.len() && removed[k] == inserted[i];
                assert(own.contains(removed[k]));
                let k2 = choose|k2: int| 0 <= k2 < own.len() && own[k2] == removed[k];
                match side {
                    Side::Bid => {
                        assert(m.bids[k2].price != m.asks[c].price);
                    },
                    Side::Ask => {
                        assert(m.bids[c].price != m.asks[k2].price);
                    },
                }
            }
        }
        assert(r.wf());
        // Origin: every surviving level is `l` or was already in the book.
        assert forall|x: ExchangeId| m.origin(x) && l.exchange == x implies #[trigger] r.origin(
            x,
        ) by {
            assert forall|i: int| 0 <= i < inserted.len() implies (
            #[trigger] inserted[i]).exchange == x by {
                assert(inserted.contains(inserted[i]));
                if inserted[i] != l {
                    assert(removed.contains(inserted[i]));
                    let k = choose|k: int| 0 <= k < removed.len() && removed[k] == inserted[i];
                    assert(own.contains(removed[k]));
                    let k2 = choose|k2: int| 0 <= k2 < own.len() && own[k2] == removed[k];
                }
            }
            assert forall|i: int| 0 <= i < crossed.len() implies (#[trigger] crossed[i]).exchange
                == x by {
                assert(oth.contains(crossed[i]));
                let k = choose|k: int| 0 <= k < oth.len() && oth[k] == crossed[i];
            }
        }
    }
    assert forall|x: ExchangeId| m.origin(x) && l.exchange == x implies #[trigger] r.origin(x) by {
        if l.amount == 0 {
            match side {
                Side::Bid => {
                    assert forall|i: int| 0 <= i < r.bids.len() implies (
                    #[trigger] r.bids[i]).exchange == x by {
                        assert(m.bids.contains(r.bids[i]));
                        let k = choose|k: int| 0 <= k < m.bids.len() && m.bids[k] == r.bids[i];
                    }
                },
                Side::Ask => {
                    assert forall|i: int| 0 <= i < r.asks.len() implies (
                    #[trigger] r.asks[i]).exchange == x by {
                        assert(m.asks.contains(r.asks[i]));
                        let k = choose|k: int| 0 <= k < m.asks.len() && m.asks[k] == r.asks[i];
                    }
                },
            }
        }
    }
}

/// A per-exchange order book: both sides best-first.
#[derive(Clone, Debug)]
pub struct Orderbook {
    pub bids: Vec<Level>,
    pub asks: Vec<Level>,
}

impl Orderbook {
    /// The book as its mathematical model.
    pub open spec fn model(&self) -> BookModel {
        BookModel { bids: self.bids@, asks: self.asks@ }
    }

    /// The invariant of the book; see [`BookModel::wf`].
    pub open spec fn wf(&self) -> bool {
        self.model().wf()
    }

    /// The empty book.
    pub fn new() -> (r: Self)
        ensures
            r.model().bids.len() == 0,
            r.model().asks.len() == 0,
            r.wf(),
    {
        Self { bids: Vec::new(), asks: Vec::new() }
    }

    /// Writes one level: a zero amount removes the level at its price (a
    /// no-op if absent); a positive amount inserts or replaces it and
    /// removes any crossed level on the opposite side.
    pub fn upsert(&mut self, side: Side, l: Level)
        requires
            old(self).wf(),
        ensures
            final(self).model() == spec_upsert(old(self).model(), side, l),
            final(self).wf(),
    {
        proof {
            lemma_upsert_wf(self.model(), side, l);
        }
        match side {
            Side::Bid => {
                let removed = remove_price_vec(&self.bids, l.price);
                if l.amount > 0 {
                    proof {
                        broadcast use vstd::seq_lib::group_filter_ensures;

                        lemma_filter_sorted(Side::Bid, self.bids@, |v: Level| v.price != l.price);
                        assert(!has_price(removed@, l.price)) by {
                            if has_price(removed@, l.price) {
                                let k = choose|k: int|
                                    0 <= k < removed@.len() && removed@[k].price == l.price;
                            }
                        }
                    }
                    self.bids = insert_level_vec(&removed, Side::Bid, l);
                    self.asks = keep_uncrossed_vec(&self.asks, Side::Bid, l.price);
                } else {
                    self.bids = removed;
                }
            },
            Side::Ask => {
                let removed = remove_price_vec(&self.asks, l.price);
                if l.amount > 0 {
                    proof {
                        broadcast use vstd::seq_lib::group_filter_ensures;

                        lemma_filter_sorted(Side::Ask, self.asks@, |v: Level| v.price != l.price);
                        assert(!has_price(removed@, l.price)) by {
                            if has_price(removed@, l.price) {
                                let k = choose|k: int|
                                    0 <= k < removed@.len() && removed@[k].price == l.price;
                            }
                        }
                    }
                    self.asks = insert_level_vec(&removed, Side::Ask, l);
                    self.bids = keep_uncrossed_vec(&self.bids, Side::Ask, l.price);
                } else {
                    self.asks = removed;
                }
            },
        }
    }

    /// A copy of the book truncated to the best `depth` levels per side.
    /// Pure: the receiver is unchanged. A book already at or under `depth`
    /// on both sides comes back equal to the receiver.
    pub fn reduce(&self, depth: usize) -> (r: Self)
        ensures
            r.model().bids == self.model().bids.take(
                vstd::math::min(depth as int, self.model().bids.len() as int),
            ),
            r.model().asks == self.model().asks.take(
                vstd::math::min(depth as int, self.model().asks.len() as int),
            ),
            self.model().bids.len() <= depth && self.model().asks.len() <= depth ==> r.model()
                == self.model(),
            self.wf() ==> r.wf(),
            forall|x: ExchangeId| self.model().origin(x) ==> #[trigger] r.model().origin(x),
    {
        let bids = crate::orderbook::prefix_vec(&self.bids, depth);
        let asks = crate::orderbook::prefix_vec(&self.asks, depth);
        let r = Orderbook { bids, asks };
        proof {
            if self.model().bids.len() <= depth && self.model().asks.len() <= depth {
                assert(r.model().bids =~= self.model().bids);
                assert(r.model().asks =~= self.model().asks);
            }
        }
        r
    }

    /// The best (highest-priced) bid, if any.
    pub fn best_bid(&self) -> (r: Option<Level>)
        ensures
            r == if self.model().bids.len() == 0 {
                Option::<Level>::None
            } else {
                Option::Some(self.model().bids[0])
            },
    {
        if self.bids.len() == 0 {
            None
        } else {
            Some(self.bids[0])
        }
    }

    /// The best (lowest-priced) ask, if any.
    pub fn best_ask(&self) -> (r: Option<Level>)
        ensures
            r == if self.model().asks.len() == 0 {
                Option::<Level>::None
            } else {
                Option::Some(self.model().asks[0])
            },
    {
        if self.asks.len() == 0 {
            None
        } else {
            Some(self.asks[0])
        }
    }

    /// The best `n` levels of one side, best first; all of them if the side
    /// holds fewer than `n`.
    pub fn best_n(&self, side: Side, n: usize) -> (r: Vec<Level>)
        ensures
            r@ == self.model().of_side(side).take(
                vstd::math::min(n as int, self.model().of_side(side).len() as int),
            ),
    {
        let src = match side {
            Side::Bid => &self.bids,
            Side::Ask => &self.asks,
        };
        crate::orderbook::prefix_vec(src, n)
    }
}

/// A per-exchange book tagged with the exchange it belongs to, as handed
/// from a synchronizer to the aggregation engine.
#[derive(Clone, Debug)]
pub enum Orderbooks {
    Binance(Orderbook),
    Bitstamp(Orderbook),
}

impl Orderbooks {
    /// The exchange the tagged book belongs to.
    pub fn exchange(&self) -> (r: ExchangeId)
        ensures
            r == (match self {
                Orderbooks::Binance(_) => ExchangeId::Binance,
                Orderbooks::Bitstamp(_) => ExchangeId::Bitstamp,
            }),
    {
        match self {
            Orderbooks::Binance(_) => ExchangeId::Binance,
            Orderbooks::Bitstamp(_) => ExchangeId::Bitstamp,
        }
    }

    /// The book itself, untagged.
    pub open spec fn spec_book(self) -> Orderbook {
        match self {
            Orderbooks::Binance(b) => b,
            Orderbooks::Bitstamp(b) => b,
        }
    }
}

/// One wire-level price level: a price and an amount, both as fixed-point
/// integers, in the order the exchanges send them.
#[derive(Clone, Copy, Debug, PartialEq, Eq)]
pub struct OrderbookLevel {
    pub level: (u64, u64),
}

impl OrderbookLevel {
    /// The level's price.
    pub fn price(&self) -> (r: u64)
        ensures
            r == self.level.0,
    {
        self.level.0
    }

    /// The level's amount; zero announces the removal of the level.
    pub fn amount(&self) -> (r: u64)
        ensures
            r == self.level.1,
    {
        self.level.1
    }

    /// The level tagged with the exchange it came from.
    pub open spec fn to_level(self, exchange: ExchangeId) -> Level {
        Level { exchange, price: self.level.0, amount: self.level.1 }
    }

    /// The level tagged with the exchange it came from.
    pub fn get_level(&self, exchange: ExchangeId) -> (r: Level)
        ensures
            r == self.to_level(exchange),
    {
        Level { exchange, price: self.level.0, amount: self.level.1 }
    }
}

/// A wire-level price level already tagged by its exchange.
#[derive(Clone, Copy, Debug, PartialEq, Eq)]
pub enum ExchangeOrderbookLevel {
    Binance(OrderbookLevel),
    Bitstamp(OrderbookLevel),
}

impl ExchangeOrderbookLevel {
    /// The untagged wire level inside.
    pub open spec fn inner(self) -> OrderbookLevel {
        match self {
            ExchangeOrderbookLevel::Binance(l) => l,
            ExchangeOrderbookLevel::Bitstamp(l) => l,
        }
    }

    /// The exchange of the tag.
    pub open spec fn spec_exchange(self) -> ExchangeId {
        match self {
            ExchangeOrderbookLevel::Binance(_) => ExchangeId::Binance,
            ExchangeOrderbookLevel::Bitstamp(_) => ExchangeId::Bitstamp,
        }
    }

    /// The level's amount.
    pub fn amount(&self) -> (r: u64)
        ensures
            r == self.inner().level.1,
    {
        match self {
            ExchangeOrderbookLevel::Binance(l) => l.level.1,
            ExchangeOrderbookLevel::Bitstamp(l) => l.level.1,
        }
    }

    /// The level's price.
    pub fn price(&self) -> (r: u64)
        ensures
            r == self.inner().level.0,
    {
        match self {
            ExchangeOrderbookLevel::Binance(l) => l.level.0,
            ExchangeOrderbookLevel::Bitstamp(l) => l.level.0,
        }
    }

    /// The exchange of the tag.
    pub fn exchange(&self) -> (r: ExchangeId)
        ensures
            r == self.spec_exchange(),
    {
        match self {
            ExchangeOrderbookLevel::Binance(_) => ExchangeId::Binance,
            ExchangeOrderbookLevel::Bitstamp(_) => ExchangeId::Bitstamp,
        }
    }
}

impl From<ExchangeOrderbookLevel> for Level {
    /// A tagged wire level as a book level.
    fn from(obl: ExchangeOrderbookLevel) -> (r: Self) {
        Level { exchange: obl.exchange(), price: obl.price(), amount: obl.amount() }
    }
}

impl vstd::std_specs::convert::FromSpecImpl<ExchangeOrderbookLevel> for Level {
    open spec fn obeys_from_spec() -> bool {
        true
    }

    open spec fn from_spec(obl: ExchangeOrderbookLevel) -> Level {
        obl.inner().to_level(obl.spec_exchange())
    }
}

/// One full-book message of the full-replace exchange: the complete
/// depth-limited book it replaces the previous one with.
#[derive(Clone, Debug)]
pub struct BitstampOrderbookData {
    pub timestamp: u32,
    pub microtimestamp: u64,
    pub bids: Vec<OrderbookLevel>,
    pub asks: Vec<OrderbookLevel>,
}

/// The envelope the full-replace exchange wraps its book message in.
#[derive(Clone, Debug)]
pub struct BitstampOrderbookMessage {
    pub data: BitstampOrderbookData,
    pub channel: String,
    pub event: String,
}

/// A snapshot of the sequenced-delta exchange's book, fetched on demand:
/// the full bid and ask sets and the id of the last update baked into them.
#[derive(Clone, Debug)]
pub struct BinanceOrderbookMessage {
    pub last_update_id: u64,
    pub bids: Vec<OrderbookLevel>,
    pub asks: Vec<OrderbookLevel>,
}

/// One incremental update of the sequenced-delta exchange: the ids of the
/// first and last update it carries and the levels it writes.
#[derive(Clone, Debug)]
pub struct BinanceOrderbookUpdateMessage {
    pub event: String,
    pub timestamp: u64,
    pub symbol: String,
    pub first_update_id: u64,
    pub last_update_id: u64,
    pub bids: Vec<OrderbookLevel>,
    pub asks: Vec<OrderbookLevel>,
}

} // verus!
