//! Applying a batch of wire levels to a book: the fold that a delta or a
//! snapshot performs, one level write at a time, and its preservation
//! lemmas.
use vstd::prelude::*;

use crate::definitions::{lemma_upsert_wf, spec_upsert, BookModel, Orderbook, OrderbookLevel};
use crate::orderbook::{ExchangeId, Side};

verus! {

/// A batch of wire levels tagged with their exchange, as book levels.
pub open spec fn levels_of(s: Seq<OrderbookLevel>, x: ExchangeId) -> Seq<crate::orderbook::Level> {
    s.map_values(|ol: OrderbookLevel| ol.to_level(x))
}

/// The book after writing every level of `levels` in order onto one side.
pub open spec fn spec_apply_levels(
    m: BookModel,
    side: Side,
    levels: Seq<crate::orderbook::Level>,
) -> BookModel
    decreases levels.len(),
{
    if levels.len() == 0 {
        m
    } else {
        spec_apply_levels(spec_upsert(m, side, levels[0]), side, levels.drop_first())
    }
}

/// Writing a batch keeps the book well formed, and keeps a single-exchange
/// book single-exchange when every written level carries the same tag.
pub proof fn lemma_apply_levels_wf(m: BookModel, side: Side, levels: Seq<crate::orderbook::Level>)
    requires
        m.wf(),
    ensures
        spec_apply_levels(m, side, levels).wf(),
        forall|x: ExchangeId|
            m.origin(x) && crate::orderbook::origin_only(levels, x)
                ==> #[trigger] spec_apply_levels(m, side, levels).origin(x),
    decreases levels.len(),
{
    if levels.len() > 0 {
        lemma_upsert_wf(m, side, levels[0]);
        let m1 = spec_upsert(m, side, levels[0]);
        lemma_apply_levels_wf(m1, side, levels.drop_first());
        assert forall|x: ExchangeId|
            m.origin(x) && crate::orderbook::origin_only(levels, x)
                implies #[trigger] spec_apply_levels(m, side, levels).origin(x) by {
            assert(levels[0].exchange == x);
            assert(m1.origin(x));
            assert(crate::orderbook::origin_only(levels.drop_first(), x)) by {
                assert forall|i: int|
                    0 <= i < levels.drop_first().len() implies (
                #[trigger] levels.drop_first()[i]).exchange == x by {
                    assert(levels.drop_first()[i] == levels[i + 1]);
                }
            }
        }
    }
}

/// Writes every level of `v`, tagged with `exchange`, onto the bid side of
/// `ob` when `is_bids` holds, else onto the ask side. Zero amounts remove,
/// positive amounts insert or replace, and each write clears what it
/// crosses on the opposite side.
pub fn handle_update_message(
    v: &Vec<OrderbookLevel>,
    ob: &mut Orderbook,
    is_bids: bool,
    exchange: ExchangeId,
)
    requires
        old(ob).wf(),
    ensures
        final(ob).model() == spec_apply_levels(
            old(ob).model(),
            if is_bids {
                Side::Bid
            } else {
                Side::Ask
            },
            levels_of(v@, exchange),
        ),
        final(ob).wf(),
{
    let side = if is_bids {
        Side::Bid
    } else {
        Side::Ask
    };
    let ghost levels = levels_of(v@, exchange);
    let ghost orig = ob.model();
    let mut k: usize = 0;
    proof {
        assert(levels.skip(0) =~= levels);
    }
    while k < v.len()
        invariant
            k <= v.len(),
            levels == levels_of(v@, exchange),
            ob.wf(),
            spec_apply_levels(ob.model(), side, levels.skip(k as int)) == spec_apply_levels(
                orig,
                side,
                levels,
            ),
        decreases v.len() - k,
    {
        let l = v[k].get_level(exchange);
        proof {
            assert(levels.skip(k as int)[0] == l);
            assert(levels.skip(k as int).drop_first() =~= levels.skip(k as int + 1));
        }
        ob.upsert(side, l);
        k += 1;
    }
    proof {
        assert(levels.skip(v@.len() as int).len() == 0);
    }
}

/// The book that a full bid set and a full ask set populate: every bid,
/// then every ask, written onto the empty book and tagged with `x`.
pub open spec fn spec_book_of(
    bids: Seq<OrderbookLevel>,
    asks: Seq<OrderbookLevel>,
    x: ExchangeId,
) -> BookModel {
    let empty = BookModel { bids: Seq::empty(), asks: Seq::empty() };
    spec_apply_levels(spec_apply_levels(empty, Side::Bid, levels_of(bids, x)), Side::Ask, levels_of(asks, x))
}

/// A batch of levels tagged with `x` consists of levels from `x` alone.
pub proof fn lemma_levels_of_origin(s: Seq<OrderbookLevel>, x: ExchangeId)
    ensures
        crate::orderbook::origin_only(levels_of(s, x), x),
{
    assert forall|i: int| 0 <= i < levels_of(s, x).len() implies (
    #[trigger] levels_of(s, x)[i]).exchange == x by {
        assert(levels_of(s, x)[i] == s[i].to_level(x));
    }
}

/// The book a full bid and ask set populate is well formed and holds
/// levels of its exchange alone.
pub proof fn lemma_spec_book_of_wf(
    bids: Seq<OrderbookLevel>,
    asks: Seq<OrderbookLevel>,
    x: ExchangeId,
)
    ensures
        spec_book_of(bids, asks, x).wf(),
        spec_book_of(bids, asks, x).origin(x),
{
    let empty = BookModel { bids: Seq::<crate::orderbook::Level>::empty(), asks: Seq::<
        crate::orderbook::Level,
    >::empty() };
    assert(empty.wf());
    assert(empty.origin(x));
    lemma_levels_of_origin(bids, x);
    lemma_levels_of_origin(asks, x);
    lemma_apply_levels_wf(empty, Side::Bid, levels_of(bids, x));
    lemma_apply_levels_wf(
        spec_apply_levels(empty, Side::Bid, levels_of(bids, x)),
        Side::Ask,
        levels_of(asks, x),
    );
}

/// Builds the book `spec_book_of` describes.
pub fn book_of_levels(
    bids: &Vec<OrderbookLevel>,
    asks: &Vec<OrderbookLevel>,
    exchange: ExchangeId,
) -> (b: Orderbook)
    ensures
        b.model() == spec_book_of(bids@, asks@, exchange),
        b.wf(),
        b.model().origin(exchange),
{
    let mut b = Orderbook::new();
    proof {
        assert(b.model() =~= BookModel { bids: Seq::empty(), asks: Seq::empty() });
        lemma_spec_book_of_wf(bids@, asks@, exchange);
    }
    handle_update_message(bids, &mut b, true, exchange);
    handle_update_message(asks, &mut b, false, exchange);
    b
}

} // verus!
