//! The sequenced-delta synchronizer: snapshot priming and the four
//! sequencing rules.
use obagg::binance::{book_from_message, DeltaOutcome, SyncStatus, Synchronizer};
use obagg::definitions::{BinanceOrderbookMessage, BinanceOrderbookUpdateMessage, OrderbookLevel};
use obagg::orderbook::ExchangeId;

fn wire(price: u64, amount: u64) -> OrderbookLevel {
    OrderbookLevel { level: (price, amount) }
}

fn snapshot(last_update_id: u64) -> BinanceOrderbookMessage {
    BinanceOrderbookMessage {
        last_update_id,
        bids: vec![wire(10_00000000, 1_00000000)],
        asks: vec![wire(11_00000000, 1_00000000)],
    }
}

fn delta(first: u64, last: u64, bids: Vec<OrderbookLevel>, asks: Vec<OrderbookLevel>) -> BinanceOrderbookUpdateMessage {
    BinanceOrderbookUpdateMessage {
        event: String::from("depthUpdate"),
        timestamp: 1661586147639,
        symbol: String::from("LTCBTC"),
        first_update_id: first,
        last_update_id: last,
        bids,
        asks,
    }
}

#[test]
fn snapshot_then_delta_updates_quantity() {
    let mut sync = Synchronizer::new(ExchangeId::Binance);
    sync.apply_snapshot(&snapshot(100));
    assert_eq!(sync.status, SyncStatus::AwaitingFirstValidDelta);
    assert_eq!(sync.last_known_id, 100);
    assert_eq!(sync.book.bids[0].price, 10_00000000);
    assert_eq!(sync.book.bids[0].amount, 1_00000000);

    let out = sync.apply_delta(&delta(101, 101, vec![wire(10_00000000, 2_00000000)], vec![]));
    assert_eq!(out, DeltaOutcome::Applied);
    assert_eq!(sync.status, SyncStatus::Synchronized);
    assert_eq!(sync.last_known_id, 101);
    assert_eq!(sync.book.bids.len(), 1);
    assert_eq!(sync.book.bids[0].price, 10_00000000);
    assert_eq!(sync.book.bids[0].amount, 2_00000000);
    assert_eq!(sync.book.asks[0].price, 11_00000000);
}

#[test]
fn gap_forces_resync() {
    let mut sync = Synchronizer::new(ExchangeId::Binance);
    sync.apply_snapshot(&snapshot(100));
    let out = sync.apply_delta(&delta(101, 101, vec![wire(10_00000000, 2_00000000)], vec![]));
    assert_eq!(out, DeltaOutcome::Applied);
    assert_eq!(sync.last_known_id, 101);

    // lastKnownId is 101; a delta covering 105..=106 leaves a gap.
    let before = sync.book.clone();
    let out = sync.apply_delta(&delta(105, 106, vec![wire(9_00000000, 1_00000000)], vec![]));
    assert_eq!(out, DeltaOutcome::Resync);
    assert_eq!(sync.status, SyncStatus::AwaitingFirstValidDelta);
    assert_eq!(sync.last_known_id, 101);
    assert_eq!(sync.book.bids, before.bids);
    assert_eq!(sync.book.asks, before.asks);
}

#[test]
fn stale_delta_is_discarded() {
    let mut sync = Synchronizer::new(ExchangeId::Binance);
    sync.apply_snapshot(&snapshot(100));
    let out = sync.apply_delta(&delta(99, 100, vec![wire(10_00000000, 9_00000000)], vec![]));
    assert_eq!(out, DeltaOutcome::Stale);
    assert_eq!(sync.book.bids[0].amount, 1_00000000);
    assert_eq!(sync.status, SyncStatus::AwaitingFirstValidDelta);
}

#[test]
fn replaying_an_applied_delta_is_a_noop() {
    let mut sync = Synchronizer::new(ExchangeId::Binance);
    sync.apply_snapshot(&snapshot(100));
    let d = delta(101, 102, vec![wire(10_00000000, 3_00000000)], vec![wire(12_00000000, 1_00000000)]);
    assert_eq!(sync.apply_delta(&d), DeltaOutcome::Applied);
    let bids = sync.book.bids.clone();
    let asks = sync.book.asks.clone();
    let id = sync.last_known_id;
    let status = sync.status;

    assert_eq!(sync.apply_delta(&d), DeltaOutcome::Stale);
    assert_eq!(sync.book.bids, bids);
    assert_eq!(sync.book.asks, asks);
    assert_eq!(sync.last_known_id, id);
    assert_eq!(sync.status, status);
}

#[test]
fn first_delta_must_cover_successor_id() {
    let mut sync = Synchronizer::new(ExchangeId::Binance);
    sync.apply_snapshot(&snapshot(100));
    // 102..=103 does not cover 101: discarded, a fresh snapshot is owed.
    let out = sync.apply_delta(&delta(102, 103, vec![], vec![]));
    assert_eq!(out, DeltaOutcome::Resync);
    assert_eq!(sync.status, SyncStatus::AwaitingFirstValidDelta);

    // After a fresh snapshot, 99..=105 covers 101 and is accepted.
    sync.apply_snapshot(&snapshot(100));
    let out = sync.apply_delta(&delta(99, 105, vec![wire(10_00000000, 4_00000000)], vec![]));
    assert_eq!(out, DeltaOutcome::Applied);
    assert_eq!(sync.last_known_id, 105);
    assert_eq!(sync.book.bids[0].amount, 4_00000000);
}

#[test]
fn synchronized_requires_exact_successor() {
    let mut sync = Synchronizer::new(ExchangeId::Binance);
    sync.apply_snapshot(&snapshot(100));
    assert_eq!(sync.apply_delta(&delta(101, 102, vec![], vec![])), DeltaOutcome::Applied);
    assert_eq!(sync.apply_delta(&delta(103, 104, vec![], vec![])), DeltaOutcome::Applied);
    assert_eq!(sync.last_known_id, 104);
}

#[test]
fn zero_amount_in_delta_removes_level() {
    let mut sync = Synchronizer::new(ExchangeId::Binance);
    sync.apply_snapshot(&snapshot(100));
    let out = sync.apply_delta(&delta(101, 101, vec![wire(10_00000000, 0)], vec![]));
    assert_eq!(out, DeltaOutcome::Applied);
    assert_eq!(sync.book.bids.len(), 0);
    assert_eq!(sync.book.asks.len(), 1);
}

#[test]
fn book_invariants_hold_under_delta_stream() {
    let mut sync = Synchronizer::new(ExchangeId::Binance);
    sync.apply_snapshot(&snapshot(100));
    let deltas = vec![
        delta(101, 102, vec![wire(10_00000000, 0), wire(9_00000000, 2_00000000)], vec![]),
        delta(103, 103, vec![], vec![wire(9_50000000, 1_00000000)]),
        delta(104, 106, vec![wire(9_75000000, 1_00000000)], vec![wire(11_00000000, 0)]),
        delta(104, 106, vec![wire(9_75000000, 9_00000000)], vec![]),
        delta(200, 201, vec![wire(1_00000000, 1_00000000)], vec![]),
    ];
    for d in &deltas {
        sync.apply_delta(d);
        // No zero amounts, both sides strictly best-first, no shared price.
        for l in sync.book.bids.iter().chain(sync.book.asks.iter()) {
            assert!(l.amount > 0);
        }
        for w in sync.book.bids.windows(2) {
            assert!(w[0].price > w[1].price);
        }
        for w in sync.book.asks.windows(2) {
            assert!(w[0].price < w[1].price);
        }
        for b in sync.book.bids.iter() {
            for a in sync.book.asks.iter() {
                assert_ne!(b.price, a.price);
            }
        }
    }
}

#[test]
fn book_from_message_builds_both_sides() {
    let m = BinanceOrderbookMessage {
        last_update_id: 1661585367,
        bids: vec![wire(259978, 4_35000000), wire(259999, 1_00000000)],
        asks: vec![wire(344831, 7_50000000)],
    };
    let book = book_from_message(&m, ExchangeId::Binance);
    assert_eq!(book.bids.len(), 2);
    assert_eq!(book.bids[0].price, 259999);
    assert_eq!(book.bids[1].price, 259978);
    assert_eq!(book.bids[1].amount, 4_35000000);
    assert_eq!(book.asks.len(), 1);
    assert_eq!(book.asks[0].exchange, ExchangeId::Binance);
}
