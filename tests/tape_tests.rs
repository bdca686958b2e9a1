use market_microstructure_analyzer::tape::{
    calculate_aggression_ratio, calculate_trade_pressure, calculate_vwap, classify_trade,
    detect_trade_clusters, identify_block_trades, TradeType,
};
use market_microstructure_analyzer::{Dec, Side, Trade};

fn dec(m: i64, s: u32) -> Dec {
    Dec::new(m, s)
}

fn trade(p: Dec, q: Dec, side: Side, ts: i64) -> Trade {
    Trade { price: p, quantity: q, side, timestamp: ts }
}

fn sample_trades() -> Vec<Trade> {
    vec![
        trade(dec(500000, 1), dec(10, 1), Side::Buy, 1000),
        trade(dec(500010, 1), dec(5, 1), Side::Sell, 1001),
        trade(dec(500020, 1), dec(20, 1), Side::Buy, 1002),
        trade(dec(500030, 1), dec(3, 1), Side::Sell, 1003),
    ]
}

#[test]
fn test_classify_trade() {
    let trade1 = trade(dec(500000, 1), dec(10, 1), Side::Buy, 1000);
    let trade2 = trade(dec(500000, 1), dec(100, 1), Side::Buy, 1000);

    assert_eq!(classify_trade(&trade1, dec(50, 1)), TradeType::Buy);
    assert_eq!(classify_trade(&trade2, dec(50, 1)), TradeType::Block { side: Side::Buy });
}

#[test]
fn test_calculate_trade_pressure() {
    let trades = sample_trades();
    let (buy_vol, sell_vol, net_vol) = calculate_trade_pressure(&trades);

    assert_eq!(buy_vol, dec(30, 1));
    assert_eq!(sell_vol, dec(8, 1));
    assert_eq!(net_vol, dec(22, 1));
}

#[test]
fn test_identify_block_trades() {
    let trades = sample_trades();
    let blocks = identify_block_trades(&trades, dec(15, 1));

    assert_eq!(blocks.len(), 1);
    assert_eq!(blocks[0].quantity, dec(20, 1));
}

#[test]
fn test_calculate_aggression_ratio() {
    let trades = sample_trades();
    let ratio = calculate_aggression_ratio(&trades);

    assert_eq!(ratio, dec(5, 1));
}

#[test]
fn test_detect_trade_clusters() {
    let trades = vec![
        trade(dec(500000, 1), dec(10, 1), Side::Buy, 1000),
        trade(dec(500000, 1), dec(10, 1), Side::Buy, 1001),
        trade(dec(500000, 1), dec(10, 1), Side::Buy, 1002),
        trade(dec(500000, 1), dec(10, 1), Side::Buy, 1010),
        trade(dec(500000, 1), dec(10, 1), Side::Buy, 1011),
    ];

    let clusters = detect_trade_clusters(&trades, 2, 3);
    assert_eq!(clusters.len(), 1);
    assert_eq!(clusters[0], 0);
}

#[test]
fn test_calculate_vwap() {
    let trades = sample_trades();
    let vwap = calculate_vwap(&trades).unwrap();

    assert!(vwap.gt(&dec(500010, 1)) && vwap.lt(&dec(500020, 1)));
}

#[test]
fn test_calculate_vwap_empty() {
    let trades: Vec<Trade> = vec![];
    assert!(calculate_vwap(&trades).is_none());
}

#[test]
fn vwap_of_the_sample_is_190005_4_over_3_8() {
    let trades = sample_trades();
    let vwap = calculate_vwap(&trades).unwrap();
    // 190005.4 / 3.8 = 50001.421052631578947368421...
    assert!(vwap.gt(&dec(5000142105, 5)) && vwap.lt(&dec(5000142106, 5)));
}

#[test]
fn vwap_of_zero_volume_is_absent() {
    let trades = vec![trade(dec(100, 0), dec(0, 0), Side::Buy, 1)];
    assert!(calculate_vwap(&trades).is_none());
}

#[test]
fn vwap_of_one_price_is_that_price() {
    let trades = vec![
        trade(dec(250, 1), dec(3, 0), Side::Buy, 1),
        trade(dec(250, 1), dec(7, 0), Side::Sell, 2),
    ];
    assert_eq!(calculate_vwap(&trades), Some(dec(25, 0)));
}

#[test]
fn block_threshold_is_inclusive() {
    let t = trade(dec(100, 0), dec(50, 1), Side::Sell, 1);
    assert_eq!(classify_trade(&t, dec(5, 0)), TradeType::Block { side: Side::Sell });
    let small = trade(dec(100, 0), dec(49, 1), Side::Sell, 1);
    assert_eq!(classify_trade(&small, dec(5, 0)), TradeType::Sell);
    let blocks = identify_block_trades(&sample_trades(), dec(10, 1));
    assert_eq!(blocks.len(), 2);
    assert_eq!(blocks[0].timestamp, 1000);
    assert_eq!(blocks[1].timestamp, 1002);
}

#[test]
fn aggression_ratio_of_no_trades_is_one_half() {
    assert_eq!(calculate_aggression_ratio(&[]), dec(5, 1));
}

#[test]
fn aggression_ratio_of_one_buy_in_three() {
    let trades = vec![
        trade(dec(1, 0), dec(1, 0), Side::Buy, 1),
        trade(dec(1, 0), dec(1, 0), Side::Sell, 2),
        trade(dec(1, 0), dec(1, 0), Side::Sell, 3),
    ];
    let r = calculate_aggression_ratio(&trades);
    assert!(r.gt(&dec(3333, 4)) && r.lt(&dec(3334, 4)));
}

#[test]
fn pressure_of_no_trades_is_zero() {
    let (b, s, n) = calculate_trade_pressure(&[]);
    assert_eq!(b, dec(0, 0));
    assert_eq!(s, dec(0, 0));
    assert_eq!(n, dec(0, 0));
}

#[test]
fn isolated_trades_form_no_cluster_above_size_one() {
    let trades = vec![
        trade(dec(1, 0), dec(1, 0), Side::Buy, 0),
        trade(dec(1, 0), dec(1, 0), Side::Buy, 100),
        trade(dec(1, 0), dec(1, 0), Side::Buy, 200),
    ];
    assert!(detect_trade_clusters(&trades, 10, 2).is_empty());
    assert_eq!(detect_trade_clusters(&trades, 10, 1), vec![0, 1, 2]);
}

#[test]
fn clusters_report_every_long_run() {
    let trades = vec![
        trade(dec(1, 0), dec(1, 0), Side::Buy, 0),
        trade(dec(1, 0), dec(1, 0), Side::Buy, 1),
        trade(dec(1, 0), dec(1, 0), Side::Buy, 50),
        trade(dec(1, 0), dec(1, 0), Side::Buy, 100),
        trade(dec(1, 0), dec(1, 0), Side::Buy, 101),
        trade(dec(1, 0), dec(1, 0), Side::Buy, 102),
    ];
    assert_eq!(detect_trade_clusters(&trades, 5, 2), vec![0, 3]);
}

#[test]
fn no_trades_no_clusters() {
    assert!(detect_trade_clusters(&[], 5, 1).is_empty());
}

#[test]
fn extreme_timestamps_do_not_overflow_the_gap() {
    let trades = vec![
        trade(dec(1, 0), dec(1, 0), Side::Buy, i64::MIN),
        trade(dec(1, 0), dec(1, 0), Side::Buy, i64::MAX),
    ];
    assert_eq!(detect_trade_clusters(&trades, 0, 1), vec![0, 1]);
}
