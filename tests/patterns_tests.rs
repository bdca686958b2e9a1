use market_microstructure_analyzer::patterns::{
    detect_absorption, detect_iceberg_orders, detect_spoofing, detect_support_resistance,
    BookSide, Pattern,
};
use market_microstructure_analyzer::{Dec, Level, OrderBook, Side, Trade};

fn dec(m: i64, s: u32) -> Dec {
    Dec::new(m, s)
}

fn trade(p: Dec, q: Dec, side: Side, ts: i64) -> Trade {
    Trade { price: p, quantity: q, side, timestamp: ts }
}

fn level(p: Dec, q: Dec) -> Level {
    Level { price: p, quantity: q }
}

#[test]
fn test_detect_iceberg_orders() {
    let trades = vec![
        trade(dec(500000, 1), dec(1, 1), Side::Buy, 1000),
        trade(dec(500000, 1), dec(1, 1), Side::Buy, 1001),
        trade(dec(500000, 1), dec(1, 1), Side::Buy, 1002),
        trade(dec(500000, 1), dec(1, 1), Side::Buy, 1003),
        trade(dec(500000, 1), dec(1, 1), Side::Buy, 1004),
    ];

    let patterns = detect_iceberg_orders(&trades, 3, dec(10, 1));
    assert!(!patterns.is_empty());

    if let Pattern::IcebergOrder { price, estimated_size } = &patterns[0] {
        assert_eq!(*price, dec(500000, 1));
        assert_eq!(*estimated_size, dec(5, 1));
    } else {
        panic!("Expected IcebergOrder pattern");
    }
}

#[test]
fn test_detect_spoofing() {
    let orderbook = OrderBook {
        bids: vec![level(dec(500000, 1), dec(10, 1)), level(dec(499990, 1), dec(1000, 1))],
        asks: vec![level(dec(500010, 1), dec(10, 1))],
        timestamp: 1000,
    };

    let patterns = detect_spoofing(&orderbook, dec(500, 1));
    assert_eq!(patterns.len(), 1);

    if let Pattern::Spoofing { price, side } = &patterns[0] {
        assert_eq!(*price, dec(499990, 1));
        assert_eq!(*side, BookSide::Bid);
    } else {
        panic!("Expected Spoofing pattern");
    }
}

#[test]
fn test_detect_support_resistance() {
    let orderbook = OrderBook {
        bids: vec![level(dec(500000, 1), dec(100, 1)), level(dec(499990, 1), dec(50, 1))],
        asks: vec![level(dec(500010, 1), dec(150, 1))],
        timestamp: 1000,
    };

    let patterns = detect_support_resistance(&orderbook, dec(80, 1));
    assert_eq!(patterns.len(), 2);

    assert!(patterns.iter().any(|p| matches!(p, Pattern::Support { .. })));
    assert!(patterns.iter().any(|p| matches!(p, Pattern::Resistance { .. })));
}

#[test]
fn test_detect_absorption() {
    let trades = vec![
        trade(dec(500000, 1), dec(50, 1), Side::Buy, 1000),
        trade(dec(500005, 1), dec(50, 1), Side::Sell, 1001),
        trade(dec(500002, 1), dec(50, 1), Side::Buy, 1002),
    ];

    let patterns = detect_absorption(&trades, dec(100, 1), dec(10, 1));
    assert_eq!(patterns.len(), 1);

    if let Pattern::Absorption { volume, .. } = &patterns[0] {
        assert_eq!(*volume, dec(150, 1));
    } else {
        panic!("Expected Absorption pattern");
    }
}

#[test]
fn iceberg_of_similar_fills_totals_their_size() {
    let qs = [10, 12, 11, 10, 13];
    let trades: Vec<Trade> = qs
        .iter()
        .enumerate()
        .map(|(i, q)| trade(dec(50000, 0), dec(*q, 2), Side::Buy, 1000 + i as i64))
        .collect();
    let patterns = detect_iceberg_orders(&trades, 3, dec(10, 1));
    assert_eq!(patterns, vec![Pattern::IcebergOrder { price: dec(50000, 0), estimated_size: dec(56, 2) }]);
}

#[test]
fn iceberg_rejects_an_oversized_fill_and_too_few_fills() {
    let trades = vec![
        trade(dec(100, 0), dec(1, 0), Side::Buy, 1),
        trade(dec(100, 0), dec(1, 0), Side::Buy, 2),
        trade(dec(100, 0), dec(10, 0), Side::Buy, 3),
        trade(dec(200, 0), dec(1, 0), Side::Buy, 4),
        trade(dec(200, 0), dec(1, 0), Side::Buy, 5),
    ];
    // At 100 the average is 4 and 10 > 6; at 200 there are two fills only.
    assert!(detect_iceberg_orders(&trades, 3, dec(1, 0)).is_empty());
    // With two fills enough, 200 qualifies.
    assert_eq!(
        detect_iceberg_orders(&trades, 2, dec(1, 0)),
        vec![Pattern::IcebergOrder { price: dec(200, 0), estimated_size: dec(2, 0) }]
    );
}

#[test]
fn icebergs_come_in_ascending_price() {
    let mut trades = Vec::new();
    for i in 0..3 {
        trades.push(trade(dec(300, 0), dec(1, 0), Side::Sell, i));
        trades.push(trade(dec(100, 0), dec(2, 0), Side::Buy, i));
    }
    let patterns = detect_iceberg_orders(&trades, 3, dec(1, 0));
    assert_eq!(
        patterns,
        vec![
            Pattern::IcebergOrder { price: dec(100, 0), estimated_size: dec(6, 0) },
            Pattern::IcebergOrder { price: dec(300, 0), estimated_size: dec(3, 0) },
        ]
    );
}

#[test]
fn spoofing_never_flags_the_best_level_and_needs_more_than_the_threshold() {
    let orderbook = OrderBook {
        bids: vec![level(dec(100, 0), dec(1000, 0)), level(dec(99, 0), dec(50, 0))],
        asks: vec![level(dec(101, 0), dec(1000, 0)), level(dec(102, 0), dec(51, 0))],
        timestamp: 0,
    };
    let patterns = detect_spoofing(&orderbook, dec(50, 0));
    assert_eq!(patterns, vec![Pattern::Spoofing { price: dec(102, 0), side: BookSide::Ask }]);
}

#[test]
fn support_threshold_is_inclusive_and_bids_come_first() {
    let orderbook = OrderBook {
        bids: vec![level(dec(100, 0), dec(8, 0))],
        asks: vec![level(dec(101, 0), dec(9, 0)), level(dec(102, 0), dec(7, 0))],
        timestamp: 0,
    };
    let patterns = detect_support_resistance(&orderbook, dec(8, 0));
    assert_eq!(
        patterns,
        vec![
            Pattern::Support { price: dec(100, 0), strength: dec(8, 0) },
            Pattern::Resistance { price: dec(101, 0), strength: dec(9, 0) },
        ]
    );
}

#[test]
fn absorption_price_is_the_volume_weighted_average() {
    let trades = vec![
        trade(dec(100, 0), dec(5, 0), Side::Buy, 1),
        trade(dec(101, 0), dec(15, 0), Side::Sell, 2),
    ];
    let patterns = detect_absorption(&trades, dec(10, 0), dec(1, 0));
    assert_eq!(patterns, vec![Pattern::Absorption { price: dec(10075, 2), volume: dec(20, 0) }]);
}

#[test]
fn absorption_needs_volume_and_a_narrow_range() {
    let trades = vec![
        trade(dec(100, 0), dec(5, 0), Side::Buy, 1),
        trade(dec(103, 0), dec(15, 0), Side::Sell, 2),
    ];
    assert!(detect_absorption(&trades, dec(10, 0), dec(1, 0)).is_empty());
    assert!(detect_absorption(&trades, dec(30, 0), dec(5, 0)).is_empty());
    assert!(detect_absorption(&[], dec(1, 0), dec(1, 0)).is_empty());
}
