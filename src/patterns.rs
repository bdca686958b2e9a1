//! Pattern detectors: iceberg orders, spoofing, support and resistance, absorption.
use crate::buckets::{bucketable, buckets_of, group_trades, Bucket};
use crate::decimal::{
    decimal_div, decimal_saturating_mul, decimal_sub, fits_at, is_quotient, max_nat, pow10,
    product, quotient, Dec,
};
use crate::sums::{lemma_take_next, lemma_trade_prefix, levels_wf, notional_sum, trade_sum, trades_fit};
use crate::types::{Level, OrderBook, Trade};
use vstd::prelude::*;

verus! {

/// The side of the book a level rests on.
#[derive(Clone, Copy, Debug, PartialEq, Eq, Structural)]
pub enum BookSide {
    Bid,
    Ask,
}

/// A detected pattern.
#[derive(Clone, Copy, Debug, PartialEq)]
pub enum Pattern {
    /// Many consistent fills at one price, suggesting a larger hidden order.
    IcebergOrder { price: Dec, estimated_size: Dec },
    /// A large resting order away from the best price.
    Spoofing { price: Dec, side: BookSide },
    /// A bid level with large quantity.
    Support { price: Dec, strength: Dec },
    /// An ask level with large quantity.
    Resistance { price: Dec, strength: Dec },
    /// Large traded volume within a narrow price range.
    Absorption { price: Dec, volume: Dec },
}

/// Fifteen tenths.
pub open spec fn one_and_a_half() -> Dec {
    Dec { mantissa: 15, scale: 1 }
}

/// The iceberg patterns among the buckets, in their order: a bucket with at least `min_fills`
/// fills, none larger than one and a half times the average fill.
pub open spec fn iceberg_patterns(bs: Seq<Bucket>, min_fills: usize) -> Seq<Pattern>
    decreases bs.len(),
{
    if bs.len() == 0 {
        Seq::empty()
    } else {
        let prev = iceberg_patterns(bs.drop_last(), min_fills);
        let b = bs.last();
        let avg = quotient(b.volume, Dec { mantissa: b.fills as i128, scale: 0 });
        if b.fills >= min_fills && b.largest.units() <= product(avg, one_and_a_half()).units() {
            prev.push(Pattern::IcebergOrder { price: b.price, estimated_size: b.volume })
        } else {
            prev
        }
    }
}

/// The iceberg patterns of `ts` for some grouping of its trades into buckets.
pub open spec fn icebergs_of(r: Seq<Pattern>, ts: Seq<Trade>, tick: Dec, min_fills: usize) -> bool {
    exists|bs: Seq<Bucket>| #[trigger] buckets_of(bs, ts, tick) && r == iceberg_patterns(bs, min_fills)
}

/// Groups the trades by price rounded to `price_tolerance` and reports each group with at
/// least `min_fills` fills of which none exceeds one and a half times the average fill, as an
/// iceberg order at that price of the group's total size. Groups come in ascending price.
pub fn detect_iceberg_orders(trades: &[Trade], min_fills: usize, price_tolerance: Dec) -> (r: Vec<
    Pattern,
>)
    requires
        trades_fit(trades@),
        bucketable(trades@, price_tolerance),
    ensures
        icebergs_of(r@, trades@, price_tolerance, min_fills),
{
    let bs = group_trades(trades, &price_tolerance);
    let mut r: Vec<Pattern> = Vec::new();
    let mut j: usize = 0;
    proof {
        crate::buckets::lemma_bucket_fields(bs@, trades@, price_tolerance);
    }
    while j < bs.len()
        invariant
            j <= bs@.len(),
            forall|x: int|
                0 <= x < bs@.len() ==> {
                    &&& (#[trigger] bs@[x]).volume.wf()
                    &&& bs@[x].largest.wf()
                    &&& bs@[x].fills >= 1
                },
            r@ == iceberg_patterns(bs@.take(j as int), min_fills),
        decreases bs@.len() - j,
    {
        let b = bs[j];
        proof {
            lemma_take_next(bs@, j as int);
        }
        if b.fills >= min_fills {
            let count = Dec::from_count(b.fills);
            proof {
                crate::decimal::lemma_pow10_pos(28);
                assert(count.units() >= pow10(28)) by (nonlinear_arith)
                    requires
                        count.units() == b.fills * pow10(28),
                        b.fills >= 1,
                        pow10(28) >= 1,
                ;
            }
            let avg = decimal_div(&b.volume, &count);
            let limit = decimal_saturating_mul(&avg, &Dec { mantissa: 15, scale: 1 });
            if b.largest.le(&limit) {
                r.push(Pattern::IcebergOrder { price: b.price, estimated_size: b.volume });
            }
        }
        j = j + 1;
    }
    proof {
        assert(bs@.take(bs@.len() as int) =~= bs@);
        assert(buckets_of(bs@, trades@, price_tolerance));
    }
    r
}

/// The spoofing patterns among the first `n` levels: each level past the best whose quantity
/// exceeds `threshold`.
pub open spec fn spoofs(ls: Seq<Level>, threshold: Dec, side: BookSide, n: int) -> Seq<Pattern>
    decreases n,
{
    if n <= 0 {
        Seq::empty()
    } else {
        let prev = spoofs(ls, threshold, side, n - 1);
        if n - 1 > 0 && ls[n - 1].quantity.units() > threshold.units() {
            prev.push(Pattern::Spoofing { price: ls[n - 1].price, side })
        } else {
            prev
        }
    }
}

/// Appends the spoofing patterns of one side.
fn push_spoofs(r: &mut Vec<Pattern>, levels: &Vec<Level>, threshold: &Dec, side: BookSide)
    requires
        levels_wf(levels@),
        threshold.wf(),
    ensures
        final(r)@ == old(r)@ + spoofs(levels@, *threshold, side, levels@.len() as int),
{
    let ghost start = r@;
    let mut i: usize = 0;
    while i < levels.len()
        invariant
            levels_wf(levels@),
            threshold.wf(),
            i <= levels@.len(),
            r@ == start + spoofs(levels@, *threshold, side, i as int),
        decreases levels@.len() - i,
    {
        proof {
            assert(levels@[i as int].wf());
        }
        if i > 0 && levels[i].quantity.gt(threshold) {
            r.push(Pattern::Spoofing { price: levels[i].price, side });
            assert(r@ =~= start + spoofs(levels@, *threshold, side, i + 1));
        }
        i = i + 1;
    }
}

/// Every level past the best price whose quantity exceeds `threshold`: bids first, then asks.
pub fn detect_spoofing(orderbook: &OrderBook, threshold: Dec) -> (r: Vec<Pattern>)
    requires
        levels_wf(orderbook.bids@),
        levels_wf(orderbook.asks@),
        threshold.wf(),
    ensures
        r@ == spoofs(orderbook.bids@, threshold, BookSide::Bid, orderbook.bids@.len() as int)
            + spoofs(orderbook.asks@, threshold, BookSide::Ask, orderbook.asks@.len() as int),
{
    let mut r: Vec<Pattern> = Vec::new();
    push_spoofs(&mut r, &orderbook.bids, &threshold, BookSide::Bid);
    push_spoofs(&mut r, &orderbook.asks, &threshold, BookSide::Ask);
    assert(r@ =~= spoofs(orderbook.bids@, threshold, BookSide::Bid, orderbook.bids@.len() as int)
        + spoofs(orderbook.asks@, threshold, BookSide::Ask, orderbook.asks@.len() as int));
    r
}

/// The pattern a level of at least the threshold gives on one side.
pub open spec fn level_pattern(l: Level, side: BookSide) -> Pattern {
    match side {
        BookSide::Bid => Pattern::Support { price: l.price, strength: l.quantity },
        BookSide::Ask => Pattern::Resistance { price: l.price, strength: l.quantity },
    }
}

/// The support (bid side) or resistance (ask side) patterns among the first `n` levels.
pub open spec fn strong_levels(ls: Seq<Level>, threshold: Dec, side: BookSide, n: int) -> Seq<
    Pattern,
>
    decreases n,
{
    if n <= 0 {
        Seq::empty()
    } else {
        let prev = strong_levels(ls, threshold, side, n - 1);
        if ls[n - 1].quantity.units() >= threshold.units() {
            prev.push(level_pattern(ls[n - 1], side))
        } else {
            prev
        }
    }
}

/// Appends the support or resistance patterns of one side.
fn push_strong_levels(r: &mut Vec<Pattern>, levels: &Vec<Level>, threshold: &Dec, side: BookSide)
    requires
        levels_wf(levels@),
        threshold.wf(),
    ensures
        final(r)@ == old(r)@ + strong_levels(levels@, *threshold, side, levels@.len() as int),
{
    let ghost start = r@;
    let mut i: usize = 0;
    while i < levels.len()
        invariant
            levels_wf(levels@),
            threshold.wf(),
            i <= levels@.len(),
            r@ == start + strong_levels(levels@, *threshold, side, i as int),
        decreases levels@.len() - i,
    {
        proof {
            assert(levels@[i as int].wf());
        }
        if levels[i].quantity.ge(threshold) {
            let l = levels[i];
            let p = match side {
                BookSide::Bid => Pattern::Support { price: l.price, strength: l.quantity },
                BookSide::Ask => Pattern::Resistance { price: l.price, strength: l.quantity },
            };
            r.push(p);
            assert(r@ =~= start + strong_levels(levels@, *threshold, side, i + 1));
        }
        i = i + 1;
    }
}

/// Every bid level with quantity of at least `threshold` as support, then every such ask
/// level as resistance.
pub fn detect_support_resistance(orderbook: &OrderBook, threshold: Dec) -> (r: Vec<Pattern>)
    requires
        levels_wf(orderbook.bids@),
        levels_wf(orderbook.asks@),
        threshold.wf(),
    ensures
        r@ == strong_levels(orderbook.bids@, threshold, BookSide::Bid, orderbook.bids@.len() as int)
            + strong_levels(orderbook.asks@, threshold, BookSide::Ask, orderbook.asks@.len() as int),
{
    let mut r: Vec<Pattern> = Vec::new();
    push_strong_levels(&mut r, &orderbook.bids, &threshold, BookSide::Bid);
    push_strong_levels(&mut r, &orderbook.asks, &threshold, BookSide::Ask);
    assert(r@ =~= strong_levels(orderbook.bids@, threshold, BookSide::Bid, orderbook.bids@.len() as int)
        + strong_levels(orderbook.asks@, threshold, BookSide::Ask, orderbook.asks@.len() as int));
    r
}

/// The lowest price among the trades (of a non-empty sequence).
pub open spec fn min_price(ts: Seq<Trade>) -> int
    decreases ts.len(),
{
    if ts.len() <= 1 {
        ts[0].price.units()
    } else {
        let m = min_price(ts.drop_last());
        if ts.last().price.units() < m {
            ts.last().price.units()
        } else {
            m
        }
    }
}

/// The highest price among the trades (of a non-empty sequence).
pub open spec fn max_price(ts: Seq<Trade>) -> int
    decreases ts.len(),
{
    if ts.len() <= 1 {
        ts[0].price.units()
    } else {
        let m = max_price(ts.drop_last());
        if ts.last().price.units() > m {
            ts.last().price.units()
        } else {
            m
        }
    }
}

/// Whether the batch shows absorption: enough volume within a narrow enough price range.
pub open spec fn absorbs(ts: Seq<Trade>, volume_threshold: Dec, price_range: Dec) -> bool {
    &&& ts.len() > 0
    &&& trade_sum(ts) >= volume_threshold.units()
    &&& max_price(ts) - min_price(ts) <= price_range.units()
}

/// What `detect_absorption` needs: well-formed trades and thresholds, price differences,
/// notionals and the average price inside the decimal range, and some volume whenever an
/// absorption would be reported.
pub open spec fn absorption_in_range(ts: Seq<Trade>, volume_threshold: Dec, price_range: Dec) -> bool {
    &&& crate::tape::vwap_in_range(ts)
    &&& volume_threshold.wf()
    &&& price_range.wf()
    &&& forall|i: int, j: int|
        0 <= i < ts.len() && 0 <= j < ts.len() ==> fits_at(
            (#[trigger] ts[i]).price.units() - (#[trigger] ts[j]).price.units(),
            max_nat(ts[i].price.scale as nat, ts[j].price.scale as nat),
        )
    &&& absorbs(ts, volume_threshold, price_range) ==> trade_sum(ts) != 0
}

/// The indices of a lowest and a highest price among the trades.
fn price_extremes(trades: &[Trade]) -> (r: (usize, usize))
    requires
        trades@.len() > 0,
        crate::sums::trades_wf(trades@),
    ensures
        r.0 < trades@.len() && r.1 < trades@.len(),
        trades@[r.0 as int].price.units() == min_price(trades@),
        trades@[r.1 as int].price.units() == max_price(trades@),
{
    let ghost ts = trades@;
    let mut lo: usize = 0;
    let mut hi: usize = 0;
    let mut i: usize = 1;
    proof {
        assert(ts.take(1).len() == 1);
        assert(ts.take(1)[0] == ts[0]);
    }
    while i < trades.len()
        invariant
            ts == trades@,
            crate::sums::trades_wf(ts),
            1 <= i <= ts.len(),
            lo < i && hi < i,
            ts[lo as int].price.units() == min_price(ts.take(i as int)),
            ts[hi as int].price.units() == max_price(ts.take(i as int)),
        decreases ts.len() - i,
    {
        proof {
            lemma_take_next(ts, i as int);
            assert(ts[i as int].wf() && ts[lo as int].wf() && ts[hi as int].wf());
        }
        if trades[i].price.lt(&trades[lo].price) {
            lo = i;
        }
        if trades[i].price.gt(&trades[hi].price) {
            hi = i;
        }
        i = i + 1;
    }
    assert(ts.take(ts.len() as int) =~= ts);
    (lo, hi)
}

/// One absorption pattern, at the volume-weighted average price with the total quantity, when
/// the whole batch trades at least `volume_threshold` within `price_range` (highest minus
/// lowest price); none otherwise, and none for no trades.
pub fn detect_absorption(trades: &[Trade], volume_threshold: Dec, price_range: Dec) -> (r: Vec<
    Pattern,
>)
    requires
        absorption_in_range(trades@, volume_threshold, price_range),
    ensures
        !absorbs(trades@, volume_threshold, price_range) ==> r@.len() == 0,
        absorbs(trades@, volume_threshold, price_range) ==> r@.len() == 1 && (r@[0] matches Pattern::Absorption { price, volume } && volume.wf()
            && volume.units() == trade_sum(trades@) && price.wf() && is_quotient(price, notional_sum(trades@), trade_sum(trades@))),
{
    let mut r: Vec<Pattern> = Vec::new();
    if trades.len() == 0 {
        return r;
    }
    let (lo, hi) = price_extremes(trades);
    let (value, volume) = crate::tape::notional_and_volume(trades);
    if volume.ge(&volume_threshold) {
        let low = trades[lo].price;
        let high = trades[hi].price;
        proof {
            assert(trades@[lo as int].wf() && trades@[hi as int].wf());
        }
        let spread = decimal_sub(&high, &low);
        if spread.le(&price_range) {
            proof {
                lemma_trade_prefix(trades@, 0);
            }
            let avg = decimal_div(&value, &volume);
            assert(is_quotient(avg, value.units(), volume.units())) by {
                assert(value.wf() && volume.wf() && avg == quotient(value, volume));
            }
            r.push(Pattern::Absorption { price: avg, volume });
        }
    }
    r
}

} // verus!
