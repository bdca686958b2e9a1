use market_microstructure_analyzer::orderbook::{
    best_ask, best_bid, calculate_imbalance, calculate_spread, mid_price, total_volume,
};
use market_microstructure_analyzer::{Dec, Level, OrderBook};

fn dec(m: i64, s: u32) -> Dec {
    Dec::new(m, s)
}

fn level(p: Dec, q: Dec) -> Level {
    Level { price: p, quantity: q }
}

fn sample_orderbook() -> OrderBook {
    OrderBook {
        bids: vec![
            level(dec(5000000, 2), dec(15, 1)),
            level(dec(4999950, 2), dec(23, 1)),
            level(dec(4999900, 2), dec(8, 1)),
        ],
        asks: vec![
            level(dec(5000100, 2), dec(12, 1)),
            level(dec(5000150, 2), dec(18, 1)),
            level(dec(5000200, 2), dec(25, 1)),
        ],
        timestamp: 1696435200,
    }
}

#[test]
fn test_calculate_spread() {
    let ob = sample_orderbook();
    let (spread, spread_pct) = calculate_spread(&ob).unwrap();

    assert_eq!(spread, dec(100, 2));
    assert!(spread_pct.gt(&dec(19, 4)) && spread_pct.lt(&dec(21, 4)));
}

#[test]
fn test_calculate_spread_empty() {
    let empty_ob = OrderBook { bids: vec![], asks: vec![], timestamp: 0 };

    assert!(calculate_spread(&empty_ob).is_none());
}

#[test]
fn test_calculate_imbalance() {
    let ob = sample_orderbook();
    let imbalance = calculate_imbalance(&ob, None);

    assert!(imbalance.lt(&dec(0, 0)));
    assert!(imbalance.gt(&dec(-1, 1)) && imbalance.lt(&dec(-8, 2)));
}

#[test]
fn test_calculate_imbalance_with_depth() {
    let ob = sample_orderbook();
    let imbalance = calculate_imbalance(&ob, Some(1));

    assert!(imbalance.gt(&dec(0, 0)));
    assert!(imbalance.gt(&dec(1, 1)) && imbalance.lt(&dec(12, 2)));
}

#[test]
fn test_best_prices() {
    let ob = sample_orderbook();

    assert_eq!(best_bid(&ob), Some(dec(5000000, 2)));
    assert_eq!(best_ask(&ob), Some(dec(5000100, 2)));
    assert_eq!(mid_price(&ob), Some(dec(5000050, 2)));
}

#[test]
fn test_total_volume() {
    let ob = sample_orderbook();

    let bid_vol = total_volume(&ob.bids, None);
    let ask_vol = total_volume(&ob.asks, None);

    assert_eq!(bid_vol, dec(46, 1));
    assert_eq!(ask_vol, dec(55, 1));
}

#[test]
fn test_total_volume_with_depth() {
    let ob = sample_orderbook();

    let bid_vol = total_volume(&ob.bids, Some(2));
    assert_eq!(bid_vol, dec(38, 1));
}

#[test]
fn spread_percentage_is_exact_for_the_sample_book() {
    let ob = sample_orderbook();
    let (_, spread_pct) = calculate_spread(&ob).unwrap();
    // 1.00 / 50000.00 * 100 = 0.002
    assert_eq!(spread_pct, dec(2, 3));
}

#[test]
fn sample_book_imbalance_is_minus_nine_over_one_hundred_one() {
    let ob = sample_orderbook();
    let imbalance = calculate_imbalance(&ob, None);
    // -0.9 / 10.1 = -0.0891089108910891089108910891 (28 digits)
    assert!(imbalance.gt(&dec(-8911, 5)) && imbalance.lt(&dec(-8910, 5)));
}

#[test]
fn imbalance_of_an_empty_book_is_zero() {
    let ob = OrderBook { bids: vec![], asks: vec![], timestamp: 0 };
    assert_eq!(calculate_imbalance(&ob, None), dec(0, 0));
    assert_eq!(calculate_imbalance(&ob, Some(3)), dec(0, 0));
}

#[test]
fn imbalance_of_one_sided_books_is_plus_or_minus_one() {
    let bids_only = OrderBook { bids: vec![level(dec(100, 0), dec(2, 0))], asks: vec![], timestamp: 0 };
    assert_eq!(calculate_imbalance(&bids_only, None), dec(1, 0));
    let asks_only = OrderBook { bids: vec![], asks: vec![level(dec(101, 0), dec(3, 0))], timestamp: 0 };
    assert_eq!(calculate_imbalance(&asks_only, None), dec(-1, 0));
}

#[test]
fn depth_zero_sees_no_levels() {
    let ob = sample_orderbook();
    assert_eq!(total_volume(&ob.bids, Some(0)), dec(0, 0));
    assert_eq!(calculate_imbalance(&ob, Some(0)), dec(0, 0));
}

#[test]
fn depth_beyond_the_book_takes_every_level() {
    let ob = sample_orderbook();
    assert_eq!(total_volume(&ob.asks, Some(100)), dec(55, 1));
}

#[test]
fn one_sided_book_has_no_spread_or_mid() {
    let ob = OrderBook { bids: vec![level(dec(100, 0), dec(1, 0))], asks: vec![], timestamp: 0 };
    assert!(calculate_spread(&ob).is_none());
    assert!(mid_price(&ob).is_none());
    assert_eq!(best_bid(&ob), Some(dec(100, 0)));
    assert_eq!(best_ask(&ob), None);
}

#[test]
fn mid_price_of_odd_sum_keeps_the_half() {
    let ob = OrderBook {
        bids: vec![level(dec(100, 0), dec(1, 0))],
        asks: vec![level(dec(101, 0), dec(1, 0))],
        timestamp: 0,
    };
    assert_eq!(mid_price(&ob), Some(dec(1005, 1)));
}
