//! The exchange synchronizer for the sequenced-delta feed: a state machine
//! that turns an unreliable stream of incremental updates into a correct
//! local book.
//!
//! Every delta carries the ids of the first and last update in it. The
//! rules, applied in order:
//! 1. a delta whose last id is at or under the last known id is stale and
//!    discarded;
//! 2. while awaiting the first valid delta after a snapshot, a delta is
//!    accepted only if its id range covers the id right after the last
//!    known one; anything else is discarded and a fresh snapshot is owed;
//! 3. once synchronized, a delta is accepted only if its first id is
//!    exactly the successor of the last known id; a gap forces a resync;
//! 4. an accepted delta writes every level it carries onto the book, the
//!    delta's last id becomes the last known id, and the synchronizer is
//!    synchronized.
use vstd::prelude::*;

use crate::definitions::{BinanceOrderbookMessage, BinanceOrderbookUpdateMessage, BookModel, Orderbook};
use crate::orderbook::{ExchangeId, Side};
use crate::utils::{handle_update_message, lemma_apply_levels_wf, lemma_levels_of_origin, levels_of, spec_apply_levels};

verus! {

/// Where the synchronizer stands in its reconciliation protocol.
#[derive(Clone, Copy, Debug, PartialEq, Eq, Structural)]
pub enum SyncStatus {
    /// A snapshot is in place; no delta has been accepted against it yet.
    AwaitingFirstValidDelta,
    /// Deltas are being applied in an unbroken id sequence.
    Synchronized,
}

/// What the synchronizer did with one inbound delta.
#[derive(Clone, Copy, Debug, PartialEq, Eq, Structural)]
pub enum DeltaOutcome {
    /// Already covered by the snapshot or an earlier delta; discarded,
    /// nothing changed.
    Stale,
    /// Accepted and written onto the book.
    Applied,
    /// Out of sequence; discarded, and the caller owes the synchronizer a
    /// fresh snapshot.
    Resync,
}

/// The synchronizer's state as mathematics.
#[verifier::ext_equal]
pub ghost struct SyncModel {
    pub exchange: ExchangeId,
    pub status: SyncStatus,
    pub last_known_id: u64,
    pub book: BookModel,
}

impl SyncModel {
    /// The state invariant: the book is well formed and every level in it
    /// belongs to this synchronizer's exchange.
    pub open spec fn wf(self) -> bool {
        self.book.wf() && self.book.origin(self.exchange)
    }
}

/// Whether the sequencing rules accept a delta with id range
/// `first ..= last` in state `s` (staleness already ruled out).
pub open spec fn delta_accepted(s: SyncModel, first: u64, last: u64) -> bool {
    &&& last > s.last_known_id
    &&& match s.status {
        SyncStatus::AwaitingFirstValidDelta => first <= s.last_known_id + 1
            && s.last_known_id + 1 <= last,
        SyncStatus::Synchronized => first == s.last_known_id + 1,
    }
}

/// The book a snapshot message populates: every bid, then every ask,
/// written onto the empty book and tagged with `x`.
pub open spec fn spec_snapshot_book(m: BinanceOrderbookMessage, x: ExchangeId) -> BookModel {
    crate::utils::spec_book_of(m.bids@, m.asks@, x)
}

/// One step of the synchronizer: the state after a delta, and what became
/// of the delta.
pub open spec fn spec_step(s: SyncModel, d: BinanceOrderbookUpdateMessage) -> (
    SyncModel,
    DeltaOutcome,
) {
    if d.last_update_id <= s.last_known_id {
        (s, DeltaOutcome::Stale)
    } else if delta_accepted(s, d.first_update_id, d.last_update_id) {
        let with_bids = spec_apply_levels(s.book, Side::Bid, levels_of(d.bids@, s.exchange));
        let with_both = spec_apply_levels(with_bids, Side::Ask, levels_of(d.asks@, s.exchange));
        (
            SyncModel {
                exchange: s.exchange,
                status: SyncStatus::Synchronized,
                last_known_id: d.last_update_id,
                book: with_both,
            },
            DeltaOutcome::Applied,
        )
    } else {
        (
            SyncModel {
                exchange: s.exchange,
                status: SyncStatus::AwaitingFirstValidDelta,
                last_known_id: s.last_known_id,
                book: s.book,
            },
            DeltaOutcome::Resync,
        )
    }
}

/// One step keeps the state invariant.
pub proof fn lemma_step_wf(s: SyncModel, d: BinanceOrderbookUpdateMessage)
    requires
        s.wf(),
    ensures
        spec_step(s, d).0.wf(),
        spec_step(s, d).0.exchange == s.exchange,
{
    if d.last_update_id > s.last_known_id && delta_accepted(
        s,
        d.first_update_id,
        d.last_update_id,
    ) {
        lemma_levels_of_origin(d.bids@, s.exchange);
        lemma_levels_of_origin(d.asks@, s.exchange);
        lemma_apply_levels_wf(s.book, Side::Bid, levels_of(d.bids@, s.exchange));
        let with_bids = spec_apply_levels(s.book, Side::Bid, levels_of(d.bids@, s.exchange));
        lemma_apply_levels_wf(with_bids, Side::Ask, levels_of(d.asks@, s.exchange));
    }
}

/// The synchronizer's state after a whole sequence of deltas, in arrival
/// order.
pub open spec fn spec_run(s: SyncModel, ds: Seq<BinanceOrderbookUpdateMessage>) -> SyncModel
    decreases ds.len(),
{
    if ds.len() == 0 {
        s
    } else {
        spec_run(spec_step(s, ds[0]).0, ds.drop_first())
    }
}

/// Whatever sequence of deltas arrives, a synchronizer that starts well
/// formed stays well formed: in particular its book never holds a level
/// with a zero amount and never quotes one price on both sides.
pub proof fn lemma_run_wf(s: SyncModel, ds: Seq<BinanceOrderbookUpdateMessage>)
    requires
        s.wf(),
    ensures
        spec_run(s, ds).wf(),
    decreases ds.len(),
{
    if ds.len() > 0 {
        lemma_step_wf(s, ds[0]);
        lemma_run_wf(spec_step(s, ds[0]).0, ds.drop_first());
    }
}

/// A synchronizer primed with a snapshot and then fed any sequence of
/// deltas keeps a well-formed book throughout: no level with a zero or
/// negative amount is ever stored, and no price ever stands in both the
/// bid and the ask collection.
pub proof fn lemma_snapshot_then_deltas_wf(
    m: BinanceOrderbookMessage,
    x: ExchangeId,
    ds: Seq<BinanceOrderbookUpdateMessage>,
)
    ensures
        spec_run(
            SyncModel {
                exchange: x,
                status: SyncStatus::AwaitingFirstValidDelta,
                last_known_id: m.last_update_id,
                book: spec_snapshot_book(m, x),
            },
            ds,
        ).wf(),
        ({
            let run = spec_run(
                SyncModel {
                    exchange: x,
                    status: SyncStatus::AwaitingFirstValidDelta,
                    last_known_id: m.last_update_id,
                    book: spec_snapshot_book(m, x),
                },
                ds,
            );
            crate::orderbook::amounts_positive(run.book.bids) && crate::orderbook::amounts_positive(
                run.book.asks,
            ) && crate::orderbook::prices_disjoint(run.book.bids, run.book.asks)
        }),
{
    crate::utils::lemma_spec_book_of_wf(m.bids@, m.asks@, x);
    lemma_run_wf(
        SyncModel {
            exchange: x,
            status: SyncStatus::AwaitingFirstValidDelta,
            last_known_id: m.last_update_id,
            book: spec_snapshot_book(m, x),
        },
        ds,
    );
}

/// Re-applying a delta that was just accepted is a no-op: the repeat is
/// recognized as stale and the state is left exactly as it was.
pub proof fn lemma_replay_is_noop(s: SyncModel, d: BinanceOrderbookUpdateMessage)
    requires
        spec_step(s, d).1 == DeltaOutcome::Applied,
    ensures
        spec_step(spec_step(s, d).0, d) == (spec_step(s, d).0, DeltaOutcome::Stale),
{
}

/// The whole book the full-message stream or a snapshot carries, as an
/// [`Orderbook`] tagged with `exchange`.
pub fn book_from_message(m: &BinanceOrderbookMessage, exchange: ExchangeId) -> (b: Orderbook)
    ensures
        b.model() == spec_snapshot_book(*m, exchange),
        b.wf(),
        b.model().origin(exchange),
{
    crate::utils::book_of_levels(&m.bids, &m.asks, exchange)
}

/// One per-exchange synchronizer: its protocol status, the last update id
/// it knows to be reflected in its book, and the book itself.
#[derive(Clone, Debug)]
pub struct Synchronizer {
    pub exchange: ExchangeId,
    pub status: SyncStatus,
    pub last_known_id: u64,
    pub book: Orderbook,
}

impl Synchronizer {
    /// The synchronizer's state as mathematics.
    pub open spec fn model(&self) -> SyncModel {
        SyncModel {
            exchange: self.exchange,
            status: self.status,
            last_known_id: self.last_known_id,
            book: self.book.model(),
        }
    }

    /// The state invariant; see [`SyncModel::wf`].
    pub open spec fn wf(&self) -> bool {
        self.model().wf()
    }

    /// A fresh synchronizer: empty book, awaiting its first snapshot.
    pub fn new(exchange: ExchangeId) -> (r: Self)
        ensures
            r.model() == (SyncModel {
                exchange,
                status: SyncStatus::AwaitingFirstValidDelta,
                last_known_id: 0,
                book: BookModel { bids: Seq::empty(), asks: Seq::empty() },
            }),
            r.wf(),
    {
        let r = Synchronizer {
            exchange,
            status: SyncStatus::AwaitingFirstValidDelta,
            last_known_id: 0,
            book: Orderbook::new(),
        };
        proof {
            assert(r.book.model() =~= BookModel { bids: Seq::empty(), asks: Seq::empty() });
        }
        r
    }

    /// Replaces the book wholesale with a freshly fetched snapshot and
    /// records its id; the synchronizer then awaits the first valid delta.
    pub fn apply_snapshot(&mut self, m: &BinanceOrderbookMessage)
        ensures
            final(self).model() == (SyncModel {
                exchange: old(self).exchange,
                status: SyncStatus::AwaitingFirstValidDelta,
                last_known_id: m.last_update_id,
                book: spec_snapshot_book(*m, old(self).exchange),
            }),
            final(self).wf(),
    {
        self.book = book_from_message(m, self.exchange);
        self.status = SyncStatus::AwaitingFirstValidDelta;
        self.last_known_id = m.last_update_id;
    }

    /// Feeds one delta through the sequencing rules: stale deltas are
    /// discarded, in-sequence deltas are written onto the book, and a gap
    /// leaves the book untouched but demands a fresh snapshot (the caller
    /// fetches one and hands it to [`Synchronizer::apply_snapshot`]).
    pub fn apply_delta(&mut self, d: &BinanceOrderbookUpdateMessage) -> (r: DeltaOutcome)
        requires
            old(self).wf(),
        ensures
            (final(self).model(), r) == spec_step(old(self).model(), *d),
            final(self).wf(),
    {
        proof {
            lemma_step_wf(self.model(), *d);
        }
        if d.last_update_id <= self.last_known_id {
            return DeltaOutcome::Stale;
        }
        let accepted = match self.status {
            SyncStatus::AwaitingFirstValidDelta => d.first_update_id <= self.last_known_id + 1
                && self.last_known_id + 1 <= d.last_update_id,
            SyncStatus::Synchronized => d.first_update_id == self.last_known_id + 1,
        };
        if accepted {
            handle_update_message(&d.bids, &mut self.book, true, self.exchange);
            handle_update_message(&d.asks, &mut self.book, false, self.exchange);
            self.last_known_id = d.last_update_id;
            self.status = SyncStatus::Synchronized;
            DeltaOutcome::Applied
        } else {
            self.status = SyncStatus::AwaitingFirstValidDelta;
            DeltaOutcome::Resync
        }
    }
}

} // verus!
