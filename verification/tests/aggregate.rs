//! The aggregation engine: cache replacement, composite merge order, the
//! configured tie-break, depth truncation, spread, and the cases where no
//! summary is owed.
use obagg::aggregator::Aggregator;
use obagg::binance::{DeltaOutcome, Synchronizer};
use obagg::definitions::{
    BinanceOrderbookMessage, BinanceOrderbookUpdateMessage, Orderbook, OrderbookLevel, Orderbooks,
};
use obagg::orderbook::{ExchangeId, Level, Side};

fn level(exchange: ExchangeId, price: u64, amount: u64) -> Level {
    Level { exchange, price, amount }
}

fn book(exchange: ExchangeId, bids: &[(u64, u64)], asks: &[(u64, u64)]) -> Orderbook {
    let mut b = Orderbook::new();
    for &(p, a) in bids {
        b.upsert(Side::Bid, level(exchange, p, a));
    }
    for &(p, a) in asks {
        b.upsert(Side::Ask, level(exchange, p, a));
    }
    b
}

#[test]
fn map_key() {
    // The binance levels quote amount 10.10 at the lower price of each
    // pair, the bitstamp levels amount 20.20 at the higher; the merge keys
    // the levels so that the lowest-keyed bid and the best ask both come
    // from binance.
    let binance = book(
        ExchangeId::Binance,
        &[(100222, 1010)],
        &[(100444, 1010)],
    );
    let bitstamp = book(
        ExchangeId::Bitstamp,
        &[(100333, 2020)],
        &[(100555, 2020)],
    );
    let mut agg = Aggregator::new();
    assert!(agg
        .aggregate_orderbooks(Orderbooks::Binance(binance), true, 10, 1)
        .is_some());
    let summary = agg
        .aggregate_orderbooks(Orderbooks::Bitstamp(bitstamp), true, 10, 1)
        .unwrap();

    assert_eq!(summary.bids.last().unwrap().exchange, ExchangeId::Binance);
    assert_eq!(summary.bids.last().unwrap().amount, 1010);
    assert_eq!(summary.asks[0].exchange, ExchangeId::Binance);
    assert_eq!(summary.asks[0].amount, 1010);
}

#[test]
fn tie_break_prefers_lower_quantity_on_bids_when_set() {
    // Both exchanges quote bid price 50.0; quantities 1.0 and 2.0.
    let binance = book(ExchangeId::Binance, &[(50_00000000, 1_00000000)], &[(60_00000000, 1_00000000)]);
    let bitstamp = book(ExchangeId::Bitstamp, &[(50_00000000, 2_00000000)], &[(61_00000000, 1_00000000)]);
    let mut agg = Aggregator::new();
    agg.aggregate_orderbooks(Orderbooks::Binance(binance), true, 10, 1);
    let summary = agg
        .aggregate_orderbooks(Orderbooks::Bitstamp(bitstamp), true, 10, 1)
        .unwrap();
    assert_eq!(summary.bids.len(), 2);
    assert_eq!(summary.bids[0].amount, 1_00000000);
    assert_eq!(summary.bids[1].amount, 2_00000000);
}

#[test]
fn tie_break_inverts_when_clear() {
    let binance = book(ExchangeId::Binance, &[(50_00000000, 1_00000000)], &[(60_00000000, 1_00000000)]);
    let bitstamp = book(ExchangeId::Bitstamp, &[(50_00000000, 2_00000000)], &[(61_00000000, 1_00000000)]);
    let mut agg = Aggregator::new();
    agg.aggregate_orderbooks(Orderbooks::Binance(binance), false, 10, 1);
    let summary = agg
        .aggregate_orderbooks(Orderbooks::Bitstamp(bitstamp), false, 10, 1)
        .unwrap();
    assert_eq!(summary.bids[0].amount, 2_00000000);
    assert_eq!(summary.bids[1].amount, 1_00000000);
}

#[test]
fn asks_take_the_complementary_tie_break() {
    let binance = book(ExchangeId::Binance, &[(40_00000000, 1_00000000)], &[(50_00000000, 1_00000000)]);
    let bitstamp = book(ExchangeId::Bitstamp, &[(41_00000000, 1_00000000)], &[(50_00000000, 2_00000000)]);
    let mut agg = Aggregator::new();
    agg.aggregate_orderbooks(Orderbooks::Binance(binance), true, 10, 1);
    let summary = agg
        .aggregate_orderbooks(Orderbooks::Bitstamp(bitstamp), true, 10, 1)
        .unwrap();
    // Flag set: asks are quantity-descending at one price.
    assert_eq!(summary.asks[0].amount, 2_00000000);
    assert_eq!(summary.asks[1].amount, 1_00000000);
}

#[test]
fn merge_is_deterministic() {
    let make = || {
        let binance = book(
            ExchangeId::Binance,
            &[(50_00000000, 1_00000000), (49_00000000, 3_00000000)],
            &[(51_00000000, 2_00000000)],
        );
        let bitstamp = book(
            ExchangeId::Bitstamp,
            &[(50_00000000, 1_00000000), (48_00000000, 4_00000000)],
            &[(51_00000000, 2_00000000), (52_00000000, 5_00000000)],
        );
        let mut agg = Aggregator::new();
        agg.aggregate_orderbooks(Orderbooks::Binance(binance), true, 10, 1);
        agg.aggregate_orderbooks(Orderbooks::Bitstamp(bitstamp), true, 10, 1)
            .unwrap()
    };
    let a = make();
    let b = make();
    assert_eq!(a.spread, b.spread);
    assert_eq!(a.bids, b.bids);
    assert_eq!(a.asks, b.asks);
}

#[test]
fn spread_is_best_ask_minus_best_bid() {
    let binance = book(ExchangeId::Binance, &[(10_00000000, 1_00000000)], &[(11_00000000, 1_00000000)]);
    let mut agg = Aggregator::new();
    let summary = agg
        .aggregate_orderbooks(Orderbooks::Binance(binance), true, 10, 1)
        .unwrap();
    assert_eq!(summary.spread, 1_00000000i128);

    // Cross-exchange books may cross; the spread goes negative.
    let bitstamp = book(ExchangeId::Bitstamp, &[(12_00000000, 1_00000000)], &[(13_00000000, 1_00000000)]);
    let summary = agg
        .aggregate_orderbooks(Orderbooks::Bitstamp(bitstamp), true, 10, 1)
        .unwrap();
    assert_eq!(summary.spread, -1_00000000i128);
}

#[test]
fn depth_truncates_merged_sides() {
    let binance = book(
        ExchangeId::Binance,
        &[
            (10_00000000, 1_00000000),
            (9_00000000, 1_00000000),
            (8_00000000, 1_00000000),
        ],
        &[(11_00000000, 1_00000000), (12_00000000, 1_00000000)],
    );
    let bitstamp = book(
        ExchangeId::Bitstamp,
        &[(9_50000000, 1_00000000), (8_50000000, 1_00000000)],
        &[(11_50000000, 1_00000000)],
    );
    let mut agg = Aggregator::new();
    agg.aggregate_orderbooks(Orderbooks::Binance(binance), true, 2, 1);
    let summary = agg
        .aggregate_orderbooks(Orderbooks::Bitstamp(bitstamp), true, 2, 1)
        .unwrap();
    assert_eq!(summary.bids.len(), 2);
    let bid_prices: Vec<u64> = summary.bids.iter().map(|l| l.price).collect();
    assert_eq!(bid_prices, vec![10_00000000, 9_50000000]);
    assert_eq!(summary.asks.len(), 2);
    let ask_prices: Vec<u64> = summary.asks.iter().map(|l| l.price).collect();
    assert_eq!(ask_prices, vec![11_00000000, 11_50000000]);
}

#[test]
fn zero_subscribers_skip_the_summary() {
    let binance = book(ExchangeId::Binance, &[(10_00000000, 1_00000000)], &[(11_00000000, 1_00000000)]);
    let mut agg = Aggregator::new();
    let out = agg.aggregate_orderbooks(Orderbooks::Binance(binance), true, 10, 0);
    assert!(out.is_none());
    // The cache was still replaced: with a subscriber, the next update
    // merges against it.
    let bitstamp = book(ExchangeId::Bitstamp, &[(9_00000000, 1_00000000)], &[]);
    let summary = agg
        .aggregate_orderbooks(Orderbooks::Bitstamp(bitstamp), true, 10, 1)
        .unwrap();
    assert_eq!(summary.bids.len(), 2);
    assert_eq!(summary.asks.len(), 1);
}

#[test]
fn empty_side_skips_the_summary() {
    let binance = book(ExchangeId::Binance, &[(10_00000000, 1_00000000)], &[]);
    let mut agg = Aggregator::new();
    let out = agg.aggregate_orderbooks(Orderbooks::Binance(binance), true, 10, 1);
    assert!(out.is_none());
}

#[test]
fn synchronizer_feeds_the_aggregator() {
    let mut sync = Synchronizer::new(ExchangeId::Binance);
    sync.apply_snapshot(&BinanceOrderbookMessage {
        last_update_id: 100,
        bids: vec![OrderbookLevel { level: (10_00000000, 1_00000000) }],
        asks: vec![OrderbookLevel { level: (11_00000000, 1_00000000) }],
    });
    let out = sync.apply_delta(&BinanceOrderbookUpdateMessage {
        event: String::from("depthUpdate"),
        timestamp: 0,
        symbol: String::from("ltcbtc"),
        first_update_id: 101,
        last_update_id: 101,
        bids: vec![OrderbookLevel { level: (10_00000000, 2_00000000) }],
        asks: vec![],
    });
    assert_eq!(out, DeltaOutcome::Applied);

    let mut agg = Aggregator::new();
    agg.aggregate_orderbooks(Orderbooks::Binance(sync.book.reduce(10)), true, 10, 1);
    let bitstamp = book(ExchangeId::Bitstamp, &[(10_00000000, 3_00000000)], &[(11_50000000, 1_00000000)]);
    let summary = agg
        .aggregate_orderbooks(Orderbooks::Bitstamp(bitstamp), true, 10, 1)
        .unwrap();
    // Equal bid price 10.0 from both exchanges: lower quantity first.
    assert_eq!(summary.bids[0].amount, 2_00000000);
    assert_eq!(summary.bids[0].exchange, ExchangeId::Binance);
    assert_eq!(summary.bids[1].amount, 3_00000000);
    assert_eq!(summary.spread, 1_00000000i128);
}

#[test]
fn cache_is_replaced_wholesale() {
    let first = book(ExchangeId::Binance, &[(10_00000000, 1_00000000)], &[(11_00000000, 1_00000000)]);
    let second = book(ExchangeId::Binance, &[(20_00000000, 2_00000000)], &[(21_00000000, 2_00000000)]);
    let mut agg = Aggregator::new();
    agg.aggregate_orderbooks(Orderbooks::Binance(first), true, 10, 1);
    let summary = agg
        .aggregate_orderbooks(Orderbooks::Binance(second), true, 10, 1)
        .unwrap();
    assert_eq!(summary.bids.len(), 1);
    assert_eq!(summary.bids[0].price, 20_00000000);
    assert_eq!(summary.asks[0].price, 21_00000000);
}
