use market_microstructure_analyzer::metrics::{
    calculate_cvd, calculate_delta, calculate_volume_profile, weighted_mid_price,
};
use market_microstructure_analyzer::{Dec, Level, OrderBook, Side, Trade};

fn dec(m: i64, s: u32) -> Dec {
    Dec::new(m, s)
}

fn trade(p: Dec, q: Dec, side: Side, ts: i64) -> Trade {
    Trade { price: p, quantity: q, side, timestamp: ts }
}

fn sample_trades() -> Vec<Trade> {
    vec![
        trade(dec(500000, 1), dec(10, 1), Side::Buy, 1000),
        trade(dec(500000, 1), dec(5, 1), Side::Sell, 1001),
        trade(dec(500010, 1), dec(20, 1), Side::Buy, 1002),
        trade(dec(500000, 1), dec(15, 1), Side::Buy, 1003),
    ]
}

#[test]
fn test_calculate_delta() {
    let trades = sample_trades();
    let delta = calculate_delta(&trades);

    assert_eq!(delta, dec(40, 1));
}

#[test]
fn test_calculate_cvd() {
    let trades = sample_trades();
    let cvd = calculate_cvd(&trades);

    assert_eq!(cvd.len(), 4);
    assert_eq!(cvd[0], (1000, dec(10, 1)));
    assert_eq!(cvd[1], (1001, dec(5, 1)));
    assert_eq!(cvd[2], (1002, dec(25, 1)));
    assert_eq!(cvd[3], (1003, dec(40, 1)));
}

#[test]
fn test_volume_profile() {
    let trades = sample_trades();
    let profile = calculate_volume_profile(&trades, dec(10, 1));

    assert!(profile.poc.is_some());
    assert_eq!(profile.poc.unwrap(), dec(500000, 1));
}

#[test]
fn test_weighted_mid_price() {
    let orderbook = OrderBook {
        bids: vec![Level { price: dec(1000, 1), quantity: dec(100, 1) }],
        asks: vec![Level { price: dec(1010, 1), quantity: dec(50, 1) }],
        timestamp: 1000,
    };

    let wmp = weighted_mid_price(&orderbook).unwrap();
    assert!(wmp.gt(&dec(1006, 1)) && wmp.lt(&dec(1007, 1)));
}

#[test]
fn cvd_ends_at_the_delta() {
    let trades = sample_trades();
    let cvd = calculate_cvd(&trades);
    assert_eq!(cvd.last().unwrap().1, calculate_delta(&trades));
}

#[test]
fn delta_and_cvd_of_no_trades() {
    assert_eq!(calculate_delta(&[]), dec(0, 0));
    assert!(calculate_cvd(&[]).is_empty());
}

#[test]
fn volume_profile_levels_and_value_area() {
    let trades = sample_trades();
    let profile = calculate_volume_profile(&trades, dec(10, 1));
    assert_eq!(profile.levels.len(), 2);
    assert_eq!(profile.levels[0].price, dec(50000, 0));
    assert_eq!(profile.levels[0].quantity, dec(30, 1));
    assert_eq!(profile.levels[1].price, dec(50001, 0));
    assert_eq!(profile.levels[1].quantity, dec(20, 1));
    // 3.0 < 3.5 (70% of 5.0), so the second level joins the value area too.
    assert_eq!(profile.vah, Some(dec(50001, 0)));
    assert_eq!(profile.val, Some(dec(50000, 0)));
}

#[test]
fn volume_profile_of_no_trades_is_empty() {
    let profile = calculate_volume_profile(&[], dec(1, 0));
    assert!(profile.levels.is_empty());
    assert!(profile.poc.is_none());
    assert!(profile.vah.is_none());
    assert!(profile.val.is_none());
}

#[test]
fn volume_profile_rounds_prices_to_the_tick() {
    let trades = vec![
        trade(dec(10012, 2), dec(1, 0), Side::Buy, 1),
        trade(dec(10038, 2), dec(2, 0), Side::Buy, 2),
        trade(dec(10062, 2), dec(4, 0), Side::Sell, 3),
    ];
    // tick 0.5: 100.12 -> 100.0, 100.38 -> 100.5, 100.62 -> 100.5
    let profile = calculate_volume_profile(&trades, dec(5, 1));
    assert_eq!(profile.levels.len(), 2);
    assert_eq!(profile.levels[0].price, dec(1000, 1));
    assert_eq!(profile.levels[0].quantity, dec(1, 0));
    assert_eq!(profile.levels[1].price, dec(1005, 1));
    assert_eq!(profile.levels[1].quantity, dec(6, 0));
    assert_eq!(profile.poc, Some(dec(1005, 1)));
    // 6 of 7 is past 70%, so the value area is the point of control alone.
    assert_eq!(profile.vah, Some(dec(1005, 1)));
    assert_eq!(profile.val, Some(dec(1005, 1)));
}

#[test]
fn volume_profile_tie_goes_to_the_lowest_price() {
    let trades = vec![
        trade(dec(102, 0), dec(2, 0), Side::Buy, 1),
        trade(dec(101, 0), dec(2, 0), Side::Buy, 2),
        trade(dec(100, 0), dec(1, 0), Side::Buy, 3),
    ];
    let profile = calculate_volume_profile(&trades, dec(1, 0));
    assert_eq!(profile.poc, Some(dec(101, 0)));
    // Target 3.5: 101 (before 0) and 102 (before 2) join; 100 (before 4) does not.
    assert_eq!(profile.vah, Some(dec(102, 0)));
    assert_eq!(profile.val, Some(dec(101, 0)));
}

#[test]
fn weighted_mid_is_absent_without_quantity_or_a_side() {
    let zero = OrderBook {
        bids: vec![Level { price: dec(100, 0), quantity: dec(0, 0) }],
        asks: vec![Level { price: dec(101, 0), quantity: dec(0, 0) }],
        timestamp: 0,
    };
    assert!(weighted_mid_price(&zero).is_none());
    let one_side = OrderBook { bids: vec![], asks: vec![Level { price: dec(101, 0), quantity: dec(1, 0) }], timestamp: 0 };
    assert!(weighted_mid_price(&one_side).is_none());
}

#[test]
fn weighted_mid_with_equal_quantities_is_the_mid() {
    let ob = OrderBook {
        bids: vec![Level { price: dec(100, 0), quantity: dec(2, 0) }],
        asks: vec![Level { price: dec(102, 0), quantity: dec(2, 0) }],
        timestamp: 0,
    };
    assert_eq!(weighted_mid_price(&ob), Some(dec(101, 0)));
}
