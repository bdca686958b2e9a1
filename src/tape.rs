//! Tape (trade-flow) metrics: classification, pressure, block trades, aggression,
//! clustering and VWAP.
use crate::decimal::{
    abs, decimal_add, decimal_div, decimal_saturating_mul, decimal_sub, is_quotient,
    lemma_fits_smaller_scale, lemma_pow10_pos, max_nat, pow10, quotient, Dec, MAX_MANTISSA,
};
use crate::sums::{
    lemma_take_next, lemma_trade_prefix, notional, notional_exact, notional_scale, notional_sum,
    notionals_fit, side_sum, trade_scale, trade_sum, trades_fit, trades_wf,
};
use crate::types::{Side, Trade};
use vstd::prelude::*;

verus! {

/// How a single trade is classified.
#[derive(Clone, Copy, Debug, PartialEq, Eq, Structural)]
pub enum TradeType {
    /// An aggressive buy.
    Buy,
    /// An aggressive sell.
    Sell,
    /// A trade at or above the block size, on either side.
    Block { side: Side },
}

/// The classification of `t` against the block size `threshold`.
pub open spec fn classification(t: Trade, threshold: Dec) -> TradeType {
    if t.quantity.units() >= threshold.units() {
        TradeType::Block { side: t.side }
    } else {
        match t.side {
            Side::Buy => TradeType::Buy,
            Side::Sell => TradeType::Sell,
        }
    }
}

/// A trade whose quantity reaches `block_threshold` is a block trade, whatever its side;
/// any other is classified by its side.
pub fn classify_trade(trade: &Trade, block_threshold: Dec) -> (r: TradeType)
    requires
        trade.wf(),
        block_threshold.wf(),
    ensures
        r == classification(*trade, block_threshold),
{
    if trade.quantity.ge(&block_threshold) {
        TradeType::Block { side: trade.side }
    } else {
        match trade.side {
            Side::Buy => TradeType::Buy,
            Side::Sell => TradeType::Sell,
        }
    }
}

/// `(buy_volume, sell_volume, buy_volume - sell_volume)`.
pub fn calculate_trade_pressure(trades: &[Trade]) -> (r: (Dec, Dec, Dec))
    requires
        trades_fit(trades@),
    ensures
        r.0.wf() && r.1.wf() && r.2.wf(),
        r.0.units() == side_sum(trades@, Side::Buy),
        r.1.units() == side_sum(trades@, Side::Sell),
        r.2.units() == side_sum(trades@, Side::Buy) - side_sum(trades@, Side::Sell),
{
    let ghost ts = trades@;
    let mut buy = Dec::zero();
    let mut sell = Dec::zero();
    let mut i: usize = 0;
    while i < trades.len()
        invariant
            ts == trades@,
            trades_fit(ts),
            i <= ts.len(),
            buy.wf() && sell.wf(),
            buy.units() == side_sum(ts.take(i as int), Side::Buy),
            sell.units() == side_sum(ts.take(i as int), Side::Sell),
            buy.scale <= trade_scale(ts.take(i as int)),
            sell.scale <= trade_scale(ts.take(i as int)),
        decreases ts.len() - i,
    {
        let t = trades[i];
        proof {
            lemma_take_next(ts, i as int);
            lemma_trade_prefix(ts, i as int);
            lemma_trade_prefix(ts, i + 1);
            lemma_trade_prefix(ts.take(i + 1), i + 1);
            assert(ts.take(i + 1).take(i + 1) =~= ts.take(i + 1));
            assert(ts[i as int].wf());
        }
        if t.side == Side::Buy {
            proof {
                lemma_fits_smaller_scale(
                    buy.units() + t.quantity.units(),
                    trade_scale(ts),
                    max_nat(buy.scale as nat, t.quantity.scale as nat),
                );
            }
            buy = decimal_add(&buy, &t.quantity);
        } else {
            proof {
                lemma_fits_smaller_scale(
                    sell.units() + t.quantity.units(),
                    trade_scale(ts),
                    max_nat(sell.scale as nat, t.quantity.scale as nat),
                );
            }
            sell = decimal_add(&sell, &t.quantity);
        }
        i = i + 1;
    }
    proof {
        assert(ts.take(ts.len() as int) =~= ts);
        lemma_trade_prefix(ts, ts.len() as int);
        lemma_fits_smaller_scale(
            buy.units() - sell.units(),
            trade_scale(ts),
            max_nat(buy.scale as nat, sell.scale as nat),
        );
    }
    let net = decimal_sub(&buy, &sell);
    (buy, sell, net)
}

/// The trades whose quantity reaches `threshold`, in their order.
pub open spec fn block_trades(ts: Seq<Trade>, threshold: Dec) -> Seq<Trade>
    decreases ts.len(),
{
    if ts.len() == 0 {
        Seq::empty()
    } else {
        let prev = block_trades(ts.drop_last(), threshold);
        if ts.last().quantity.units() >= threshold.units() {
            prev.push(ts.last())
        } else {
            prev
        }
    }
}

/// Every trade whose quantity is at least `threshold`, order kept.
pub fn identify_block_trades(trades: &[Trade], threshold: Dec) -> (r: Vec<Trade>)
    requires
        trades_wf(trades@),
        threshold.wf(),
    ensures
        r@ == block_trades(trades@, threshold),
{
    let ghost ts = trades@;
    let mut r: Vec<Trade> = Vec::new();
    let mut i: usize = 0;
    while i < trades.len()
        invariant
            ts == trades@,
            trades_wf(ts),
            threshold.wf(),
            i <= ts.len(),
            r@ == block_trades(ts.take(i as int), threshold),
        decreases ts.len() - i,
    {
        let t = trades[i];
        proof {
            lemma_take_next(ts, i as int);
            assert(ts[i as int].wf());
        }
        if t.quantity.ge(&threshold) {
            r.push(t);
        }
        i = i + 1;
    }
    assert(ts.take(ts.len() as int) =~= ts);
    r
}

/// The number of buys among the trades.
pub open spec fn buy_count(ts: Seq<Trade>) -> nat
    decreases ts.len(),
{
    if ts.len() == 0 {
        0
    } else {
        buy_count(ts.drop_last()) + if ts.last().side == Side::Buy {
            1nat
        } else {
            0nat
        }
    }
}

proof fn lemma_buy_count_bound(ts: Seq<Trade>)
    ensures
        buy_count(ts) <= ts.len(),
    decreases ts.len(),
{
    if ts.len() > 0 {
        lemma_buy_count_bound(ts.drop_last());
    }
}

/// One half, the ratio reported for no trades.
pub open spec fn one_half() -> Dec {
    Dec { mantissa: 5, scale: 1 }
}

/// The decimal whole number `n`.
pub open spec fn count_dec(n: nat) -> Dec {
    Dec { mantissa: n as i128, scale: 0 }
}

/// The share of buys among the trades, `buy_count / total_count`; one half when there are
/// no trades.
pub fn calculate_aggression_ratio(trades: &[Trade]) -> (r: Dec)
    ensures
        r.wf(),
        trades@.len() == 0 ==> r == one_half(),
        trades@.len() > 0 ==> r == quotient(count_dec(buy_count(trades@)), count_dec(trades@.len())),
{
    if trades.len() == 0 {
        return Dec { mantissa: 5, scale: 1 };
    }
    let ghost ts = trades@;
    let mut buys: usize = 0;
    let mut i: usize = 0;
    while i < trades.len()
        invariant
            ts == trades@,
            i <= ts.len(),
            buys == buy_count(ts.take(i as int)),
            buys <= i,
        decreases ts.len() - i,
    {
        proof {
            lemma_take_next(ts, i as int);
        }
        if trades[i].side == Side::Buy {
            buys = buys + 1;
        }
        i = i + 1;
    }
    assert(ts.take(ts.len() as int) =~= ts);
    let b = Dec::from_count(buys);
    let n = Dec::from_count(trades.len());
    proof {
        lemma_pow10_pos(28);
        let p = pow10(28);
        assert(2 * (buys * p) <= MAX_MANTISSA * (trades.len() * p) && buys * p >= 0
            && trades.len() * p > 0) by (nonlinear_arith)
            requires
                buys <= trades.len(),
                trades.len() >= 1,
                p >= 1,
        ;
        assert(abs(b.units()) == b.units());
        assert(abs(n.units()) == n.units());
    }
    decimal_div(&b, &n)
}

/// Whether a new run starts at trade `i`: the first trade, or one that comes more than
/// `w` after the trade before it.
pub open spec fn starts_run(ts: Seq<Trade>, w: i64, i: int) -> bool {
    i == 0 || ts[i].timestamp - ts[i - 1].timestamp > w
}

/// The length of the run of trades that begins at `s`: it goes on while each gap to the
/// previous trade is at most `w`.
pub open spec fn run_length(ts: Seq<Trade>, w: i64, s: int) -> int
    decreases ts.len() - s,
{
    if s < 0 || s >= ts.len() {
        0
    } else if s + 1 >= ts.len() || starts_run(ts, w, s + 1) {
        1
    } else {
        1 + run_length(ts, w, s + 1)
    }
}

/// The start indices below `k` of the runs whose length is at least `m`, ascending.
pub open spec fn cluster_starts(ts: Seq<Trade>, w: i64, m: usize, k: int) -> Seq<usize>
    decreases k,
{
    if k <= 0 {
        Seq::empty()
    } else {
        let prev = cluster_starts(ts, w, m, k - 1);
        if starts_run(ts, w, k - 1) && run_length(ts, w, k - 1) >= m {
            prev.push((k - 1) as usize)
        } else {
            prev
        }
    }
}

/// A run that begins at `s` and has no break before `e` (where a break or the end comes)
/// is `e - s` long.
proof fn lemma_run_length(ts: Seq<Trade>, w: i64, s: int, e: int)
    requires
        0 <= s < e <= ts.len(),
        forall|j: int| s < j < e ==> !starts_run(ts, w, j),
        e == ts.len() || starts_run(ts, w, e),
    ensures
        run_length(ts, w, s) == e - s,
    decreases e - s,
{
    if s + 1 < e {
        lemma_run_length(ts, w, s + 1, e);
    }
}

/// Indices in the middle of a run add no start.
proof fn lemma_no_new_starts(ts: Seq<Trade>, w: i64, m: usize, a: int, b: int)
    requires
        0 <= a <= b <= ts.len(),
        forall|j: int| a <= j < b ==> !starts_run(ts, w, j),
    ensures
        cluster_starts(ts, w, m, b) == cluster_starts(ts, w, m, a),
    decreases b - a,
{
    if a < b {
        lemma_no_new_starts(ts, w, m, a, b - 1);
    }
}

/// The start index of every maximal run of trades, each within `time_window` of the one
/// before it, whose length is at least `min_cluster_size`. Trades are taken in the order
/// given.
pub fn detect_trade_clusters(trades: &[Trade], time_window: i64, min_cluster_size: usize) -> (r:
    Vec<usize>)
    ensures
        r@ == cluster_starts(trades@, time_window, min_cluster_size, trades@.len() as int),
{
    let ghost ts = trades@;
    let ghost w = time_window;
    let ghost m = min_cluster_size;
    let mut clusters: Vec<usize> = Vec::new();
    if trades.len() == 0 {
        return clusters;
    }
    let mut start: usize = 0;
    let mut i: usize = 1;
    while i < trades.len()
        invariant
            ts == trades@,
            w == time_window,
            m == min_cluster_size,
            0 <= start < i <= ts.len(),
            starts_run(ts, w, start as int),
            forall|j: int| start < j < i ==> !starts_run(ts, w, j),
            clusters@ == cluster_starts(ts, w, m, start as int),
        decreases ts.len() - i,
    {
        let gap: i128 = trades[i].timestamp as i128 - trades[i - 1].timestamp as i128;
        if gap > time_window as i128 {
            proof {
                lemma_run_length(ts, w, start as int, i as int);
                lemma_no_new_starts(ts, w, m, start + 1, i as int);
            }
            if i - start >= min_cluster_size {
                clusters.push(start);
            }
            start = i;
        }
        i = i + 1;
    }
    proof {
        lemma_run_length(ts, w, start as int, ts.len() as int);
        lemma_no_new_starts(ts, w, m, start + 1, ts.len() as int);
    }
    if trades.len() - start >= min_cluster_size {
        clusters.push(start);
    }
    clusters
}

/// What `calculate_vwap` needs: well-formed trades whose quantities and notionals add up
/// exactly, and a volume-weighted price inside the decimal range.
pub open spec fn vwap_in_range(ts: Seq<Trade>) -> bool {
    &&& trades_fit(ts)
    &&& notionals_fit(ts)
    &&& (2 * abs(notional_sum(ts)) <= MAX_MANTISSA * trade_sum(ts) || trade_sum(ts) >= pow10(28))
}

/// Adds up the notionals and the quantities of the trades.
pub(crate) fn notional_and_volume(trades: &[Trade]) -> (r: (Dec, Dec))
    requires
        trades_fit(trades@),
        notionals_fit(trades@),
    ensures
        r.0.wf() && r.1.wf(),
        r.0.units() == notional_sum(trades@),
        r.1.units() == trade_sum(trades@),
{
    let ghost ts = trades@;
    let mut value = Dec::zero();
    let mut volume = Dec::zero();
    let mut i: usize = 0;
    while i < trades.len()
        invariant
            ts == trades@,
            trades_fit(ts),
            notionals_fit(ts),
            i <= ts.len(),
            value.wf() && volume.wf(),
            value.units() == notional_sum(ts.take(i as int)),
            volume.units() == trade_sum(ts.take(i as int)),
            value.scale <= notional_scale(ts.take(i as int)),
            volume.scale <= trade_scale(ts.take(i as int)),
        decreases ts.len() - i,
    {
        let t = trades[i];
        proof {
            lemma_take_next(ts, i as int);
            lemma_trade_prefix(ts, i as int);
            lemma_trade_prefix(ts, i + 1);
            lemma_trade_prefix(ts.take(i + 1), i + 1);
            assert(ts.take(i + 1).take(i + 1) =~= ts.take(i + 1));
            assert(ts[i as int].wf());
            assert(notional_exact(ts[i as int]));
        }
        let x = decimal_saturating_mul(&t.price, &t.quantity);
        proof {
            assert(x.units() == notional(t));
            lemma_fits_smaller_scale(
                value.units() + x.units(),
                notional_scale(ts),
                max_nat(value.scale as nat, x.scale as nat),
            );
            lemma_fits_smaller_scale(
                volume.units() + t.quantity.units(),
                trade_scale(ts),
                max_nat(volume.scale as nat, t.quantity.scale as nat),
            );
        }
        value = decimal_add(&value, &x);
        volume = decimal_add(&volume, &t.quantity);
        i = i + 1;
    }
    assert(ts.take(ts.len() as int) =~= ts);
    (value, volume)
}

/// The volume-weighted average price `sum(price * quantity) / sum(quantity)`; `None` when
/// there are no trades or no volume.
pub fn calculate_vwap(trades: &[Trade]) -> (r: Option<Dec>)
    requires
        vwap_in_range(trades@),
    ensures
        trades@.len() == 0 || trade_sum(trades@) == 0 <==> r is None,
        r matches Some(v) ==> v.wf() && is_quotient(v, notional_sum(trades@), trade_sum(trades@)),
{
    if trades.len() == 0 {
        return None;
    }
    let (value, volume) = notional_and_volume(trades);
    if volume.is_zero() {
        return None;
    }
    proof {
        lemma_trade_prefix(trades@, 0);
    }
    let v = decimal_div(&value, &volume);
    assert(is_quotient(v, value.units(), volume.units())) by {
        assert(value.wf() && volume.wf() && v == quotient(value, volume));
    }
    Some(v)
}

/// The notional of an exact product, scaled by `10^28`, is the product of the two values.
proof fn lemma_notional_units(t: Trade)
    requires
        notional_exact(t),
        t.price.wf(),
        t.quantity.wf(),
    ensures
        notional(t) * pow10(28) == t.price.units() * t.quantity.units(),
{
    let ps = t.price.scale as nat;
    let qs = t.quantity.scale as nat;
    let e = (28 - ps - qs) as nat;
    crate::decimal::lemma_pow10_add(e, 28);
    crate::decimal::lemma_pow10_add((28 - ps) as nat, (28 - qs) as nat);
    assert(e + 28 == (28 - ps) as nat + (28 - qs) as nat);
    let pm = t.price.mantissa as int;
    let qm = t.quantity.mantissa as int;
    let a = pow10((28 - ps) as nat);
    let b = pow10((28 - qs) as nat);
    let c = pow10(e);
    let d = pow10(28);
    assert(pm * qm * c * d == (pm * a) * (qm * b)) by (nonlinear_arith)
        requires
            c * d == a * b,
    ;
}

/// With every price in `[lo, hi]` and quantities not negative, the notionals (scaled by
/// `10^28`) lie between `lo` and `hi` times the quantity.
proof fn lemma_notional_between(ts: Seq<Trade>, lo: int, hi: int)
    requires
        trades_wf(ts),
        forall|i: int| 0 <= i < ts.len() ==> notional_exact(#[trigger] ts[i]),
        forall|i: int| 0 <= i < ts.len() ==> lo <= (#[trigger] ts[i]).price.units() <= hi,
    ensures
        lo * trade_sum(ts) <= notional_sum(ts) * pow10(28) <= hi * trade_sum(ts),
    decreases ts.len(),
{
    if ts.len() > 0 {
        let p = ts.drop_last();
        let t = ts.last();
        assert(t == ts[ts.len() - 1]);
        assert(t.wf() && notional_exact(t));
        assert forall|i: int| 0 <= i < p.len() implies (#[trigger] p[i]).wf() && notional_exact(p[i])
            && lo <= p[i].price.units() <= hi by {
            assert(p[i] == ts[i]);
        }
        lemma_notional_between(p, lo, hi);
        lemma_notional_units(t);
        let x = t.price.units();
        let q = t.quantity.units();
        let d = pow10(28);
        assert(lo * q <= x * q <= hi * q) by (nonlinear_arith)
            requires
                lo <= x <= hi,
                q >= 0,
        ;
        assert(lo * trade_sum(ts) == lo * trade_sum(p) + lo * q) by (nonlinear_arith)
            requires
                trade_sum(ts) == trade_sum(p) + q,
        ;
        assert(hi * trade_sum(ts) == hi * trade_sum(p) + hi * q) by (nonlinear_arith)
            requires
                trade_sum(ts) == trade_sum(p) + q,
        ;
        assert(notional_sum(ts) * d == notional_sum(p) * d + notional(t) * d) by (nonlinear_arith)
            requires
                notional_sum(ts) == notional_sum(p) + notional(t),
        ;
    }
}

/// Every price lies between the lowest and the highest.
proof fn lemma_price_extremes(ts: Seq<Trade>)
    requires
        ts.len() > 0,
    ensures
        forall|i: int|
            0 <= i < ts.len() ==> crate::patterns::min_price(ts) <= (#[trigger] ts[i]).price.units()
                <= crate::patterns::max_price(ts),
    decreases ts.len(),
{
    if ts.len() > 1 {
        let p = ts.drop_last();
        lemma_price_extremes(p);
        assert forall|i: int| 0 <= i < ts.len() implies crate::patterns::min_price(ts) <= (
        #[trigger] ts[i]).price.units() <= crate::patterns::max_price(ts) by {
            if i < ts.len() - 1 {
                assert(ts[i] == p[i]);
            }
        }
    }
}

/// The exact volume-weighted price of a batch with volume lies between its lowest and its
/// highest price: `min_price * volume <= notional * 10^28 <= max_price * volume`. (What
/// `calculate_vwap` returns is `rust_decimal`'s rounding of that ratio.)
pub proof fn law_vwap_ratio_within_prices(ts: Seq<Trade>)
    requires
        vwap_in_range(ts),
        ts.len() > 0,
    ensures
        crate::patterns::min_price(ts) * trade_sum(ts) <= notional_sum(ts) * pow10(28)
            <= crate::patterns::max_price(ts) * trade_sum(ts),
{
    lemma_price_extremes(ts);
    lemma_notional_between(ts, crate::patterns::min_price(ts), crate::patterns::max_price(ts));
}

/// The block trades are exactly the trades whose quantity reaches the threshold, in their
/// order: the filter of the sequence by `quantity >= threshold`.
pub proof fn law_block_trades_filter(ts: Seq<Trade>, threshold: Dec)
    ensures
        block_trades(ts, threshold) == ts.filter(|t: Trade| t.quantity.units() >= threshold.units()),
    decreases ts.len(),
{
    let f = |t: Trade| t.quantity.units() >= threshold.units();
    if ts.len() > 0 {
        law_block_trades_filter(ts.drop_last(), threshold);
        assert(ts =~= ts.drop_last().push(ts.last()));
        ts.drop_last().lemma_filter_push(ts.last(), f);
    } else {
        assert(ts.filter(f) =~= Seq::<Trade>::empty());
    }
}

/// Membership in the reported clusters: an index is reported exactly when a run starts there
/// (the first trade, or a gap of more than `w` before it) and that run of consecutive gaps of
/// at most `w` holds at least `m` trades.
pub proof fn law_cluster_membership(ts: Seq<Trade>, w: i64, m: usize, s: int)
    requires
        0 <= s < ts.len(),
        ts.len() <= usize::MAX,
    ensures
        cluster_starts(ts, w, m, ts.len() as int).contains(s as usize) <==> (starts_run(ts, w, s)
            && run_length(ts, w, s) >= m),
{
    lemma_cluster_membership(ts, w, m, ts.len() as int, s);
}

proof fn lemma_cluster_membership(ts: Seq<Trade>, w: i64, m: usize, k: int, s: int)
    requires
        0 <= s,
        k <= ts.len(),
        s < ts.len(),
        ts.len() <= usize::MAX,
    ensures
        cluster_starts(ts, w, m, k).contains(s as usize) <==> (s < k && starts_run(ts, w, s)
            && run_length(ts, w, s) >= m),
        forall|x: int| 0 <= x < cluster_starts(ts, w, m, k).len() ==> (#[trigger] cluster_starts(ts, w, m, k)[x]) < k,
    decreases k,
{
    if k > 0 {
        lemma_cluster_membership(ts, w, m, k - 1, s);
        let prev = cluster_starts(ts, w, m, k - 1);
        if starts_run(ts, w, k - 1) && run_length(ts, w, k - 1) >= m {
            let cur = prev.push((k - 1) as usize);
            assert(cur.contains(s as usize) <==> prev.contains(s as usize) || s == k - 1) by {
                if s == k - 1 {
                    assert(cur[prev.len() as int] == (k - 1) as usize);
                }
                if cur.contains(s as usize) {
                    let x = choose|x: int| 0 <= x < cur.len() && cur[x] == s as usize;
                    if x < prev.len() {
                        assert(prev[x] == cur[x]);
                    }
                }
                if prev.contains(s as usize) {
                    let x = choose|x: int| 0 <= x < prev.len() && prev[x] == s as usize;
                    assert(cur[x] == prev[x]);
                }
            }
        }
    }
}

} // verus!
