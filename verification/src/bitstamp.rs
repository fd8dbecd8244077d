//! The full-replace exchange: every inbound message carries a complete
//! depth-limited book, so no reconciliation state is kept. Each message
//! replaces the previous book wholesale; the keepalive pings its transport
//! needs are no book logic and stay with the connection.
use vstd::prelude::*;

use crate::definitions::{BitstampOrderbookData, BookModel, Orderbook};
use crate::orderbook::ExchangeId;
use crate::utils::spec_book_of;

verus! {

/// The book one full-replace message stands for, before depth truncation.
pub open spec fn spec_bitstamp_book(m: BitstampOrderbookData) -> BookModel {
    spec_book_of(m.bids@, m.asks@, ExchangeId::Bitstamp)
}

/// The book to emit for one inbound full-replace message: the message's
/// levels as a fresh book, truncated to the best `depth` levels per side.
pub fn handle_orderbook_message(m: &BitstampOrderbookData, depth: usize) -> (b: Orderbook)
    ensures
        b.model().bids == spec_bitstamp_book(*m).bids.take(
            vstd::math::min(depth as int, spec_bitstamp_book(*m).bids.len() as int),
        ),
        b.model().asks == spec_bitstamp_book(*m).asks.take(
            vstd::math::min(depth as int, spec_bitstamp_book(*m).asks.len() as int),
        ),
        b.wf(),
        b.model().origin(ExchangeId::Bitstamp),
{
    let full = crate::utils::book_of_levels(&m.bids, &m.asks, ExchangeId::Bitstamp);
    full.reduce(depth)
}

} // verus!
