//! The per-exchange book: upserts, the crossing rule, truncation and
//! best-n queries. Prices and amounts are fixed-point integers with eight
//! decimal places.
use obagg::definitions::{Orderbook, OrderbookLevel};
use obagg::orderbook::{ExchangeId, Level, Side};
use obagg::utils::handle_update_message;

fn lvl(price: u64, amount: u64) -> Level {
    Level { exchange: ExchangeId::Binance, price, amount }
}

#[test]
fn upsert_inserts_best_first() {
    let mut book = Orderbook::new();
    book.upsert(Side::Bid, lvl(10_00000000, 1_00000000));
    book.upsert(Side::Bid, lvl(12_00000000, 2_00000000));
    book.upsert(Side::Bid, lvl(11_00000000, 3_00000000));
    let prices: Vec<u64> = book.bids.iter().map(|l| l.price).collect();
    assert_eq!(prices, vec![12_00000000, 11_00000000, 10_00000000]);

    book.upsert(Side::Ask, lvl(20_00000000, 1_00000000));
    book.upsert(Side::Ask, lvl(18_00000000, 1_00000000));
    book.upsert(Side::Ask, lvl(19_00000000, 1_00000000));
    let prices: Vec<u64> = book.asks.iter().map(|l| l.price).collect();
    assert_eq!(prices, vec![18_00000000, 19_00000000, 20_00000000]);
}

#[test]
fn upsert_replaces_and_zero_removes() {
    let mut book = Orderbook::new();
    book.upsert(Side::Bid, lvl(10_00000000, 1_00000000));
    book.upsert(Side::Bid, lvl(10_00000000, 5_00000000));
    assert_eq!(book.bids.len(), 1);
    assert_eq!(book.bids[0].amount, 5_00000000);

    book.upsert(Side::Bid, lvl(10_00000000, 0));
    assert_eq!(book.bids.len(), 0);

    // Removing an absent level is a no-op.
    book.upsert(Side::Bid, lvl(10_00000000, 0));
    assert_eq!(book.bids.len(), 0);
}

#[test]
fn crossing_bid_removes_covered_asks() {
    let mut book = Orderbook::new();
    book.upsert(Side::Ask, lvl(10_00000000, 1_00000000));
    book.upsert(Side::Ask, lvl(11_00000000, 1_00000000));
    book.upsert(Side::Ask, lvl(12_00000000, 1_00000000));
    // A bid at 11 crosses the asks at 10 and 11; only the 12 ask survives.
    book.upsert(Side::Bid, lvl(11_00000000, 4_00000000));
    let ask_prices: Vec<u64> = book.asks.iter().map(|l| l.price).collect();
    assert_eq!(ask_prices, vec![12_00000000]);
    assert_eq!(book.bids.len(), 1);
}

#[test]
fn crossing_ask_removes_covered_bids() {
    let mut book = Orderbook::new();
    book.upsert(Side::Bid, lvl(10_00000000, 1_00000000));
    book.upsert(Side::Bid, lvl(11_00000000, 1_00000000));
    book.upsert(Side::Ask, lvl(10_50000000, 2_00000000));
    let bid_prices: Vec<u64> = book.bids.iter().map(|l| l.price).collect();
    assert_eq!(bid_prices, vec![10_00000000]);
    assert_eq!(book.asks.len(), 1);
}

#[test]
fn sides_never_share_a_price() {
    let mut book = Orderbook::new();
    book.upsert(Side::Ask, lvl(10_00000000, 1_00000000));
    book.upsert(Side::Bid, lvl(10_00000000, 1_00000000));
    for b in book.bids.iter() {
        for a in book.asks.iter() {
            assert_ne!(b.price, a.price);
        }
    }
    assert_eq!(book.bids.len(), 1);
    assert_eq!(book.asks.len(), 0);
}

#[test]
fn reduce_is_stable_at_or_under_depth() {
    let mut book = Orderbook::new();
    book.upsert(Side::Bid, lvl(10_00000000, 1_00000000));
    book.upsert(Side::Bid, lvl(11_00000000, 1_00000000));
    book.upsert(Side::Ask, lvl(12_00000000, 1_00000000));
    let reduced = book.reduce(2);
    assert_eq!(reduced.bids, book.bids);
    assert_eq!(reduced.asks, book.asks);
    let reduced = book.reduce(5);
    assert_eq!(reduced.bids, book.bids);
    assert_eq!(reduced.asks, book.asks);
}

#[test]
fn reduce_keeps_the_best_levels() {
    let mut book = Orderbook::new();
    for i in 1..=10u64 {
        book.upsert(Side::Bid, lvl(i * 1_00000000, 1_00000000));
    }
    let reduced = book.reduce(5);
    assert_eq!(reduced.bids.len(), 5);
    let prices: Vec<u64> = reduced.bids.iter().map(|l| l.price).collect();
    assert_eq!(
        prices,
        vec![10_00000000, 9_00000000, 8_00000000, 7_00000000, 6_00000000]
    );
    // The receiver is untouched.
    assert_eq!(book.bids.len(), 10);
}

#[test]
fn update_message_batch_is_applied_in_order() {
    let mut book = Orderbook::new();
    let batch = vec![
        OrderbookLevel { level: (10_00000000, 1_00000000) },
        OrderbookLevel { level: (11_00000000, 2_00000000) },
        OrderbookLevel { level: (10_00000000, 0) },
    ];
    handle_update_message(&batch, &mut book, true, ExchangeId::Bitstamp);
    assert_eq!(book.bids.len(), 1);
    assert_eq!(book.bids[0].price, 11_00000000);
    assert_eq!(book.bids[0].amount, 2_00000000);
    assert_eq!(book.bids[0].exchange, ExchangeId::Bitstamp);

    handle_update_message(
        &vec![OrderbookLevel { level: (11_00000000, 3_00000000) }],
        &mut book,
        false,
        ExchangeId::Bitstamp,
    );
    // The new ask crosses the standing bid at the same price and clears it.
    assert_eq!(book.bids.len(), 0);
    assert_eq!(book.asks.len(), 1);
    assert_eq!(book.asks[0].amount, 3_00000000);
}

#[test]
fn best_bid_and_ask_queries() {
    let mut book = Orderbook::new();
    assert!(book.best_bid().is_none());
    assert!(book.best_ask().is_none());
    book.upsert(Side::Bid, lvl(10_00000000, 1_00000000));
    book.upsert(Side::Bid, lvl(11_00000000, 1_00000000));
    book.upsert(Side::Ask, lvl(12_00000000, 1_00000000));
    book.upsert(Side::Ask, lvl(13_00000000, 1_00000000));
    assert_eq!(book.best_bid().unwrap().price, 11_00000000);
    assert_eq!(book.best_ask().unwrap().price, 12_00000000);
}

#[test]
fn best_n_returns_all_when_short() {
    let mut book = Orderbook::new();
    book.upsert(Side::Ask, lvl(10_00000000, 1_00000000));
    book.upsert(Side::Ask, lvl(11_00000000, 2_00000000));
    let best = book.best_n(Side::Ask, 5);
    assert_eq!(best.len(), 2);
    assert_eq!(best[0].price, 10_00000000);
    let best = book.best_n(Side::Ask, 1);
    assert_eq!(best.len(), 1);
    assert_eq!(best[0].price, 10_00000000);
}
