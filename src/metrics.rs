//! Delta, cumulative volume delta, weighted mid price and volume profiles.
use crate::buckets::{
    bucket_key, bucket_matches, bucket_sum, bucketable, buckets_cover, buckets_exact, buckets_of,
    buckets_sorted, buckets_sourced, group_trades, volume_total, Bucket,
};
use crate::decimal::{
    abs, decimal_add, decimal_div, decimal_saturating_mul, decimal_sub, fits_at, is_quotient,
    lemma_fits_smaller_scale, max_nat, pow10, product, quotient, Dec, MAX_MANTISSA,
};
use crate::sums::{
    delta_sum, lemma_level_prefix, lemma_take_next, lemma_trade_prefix, level_scale, level_sum,
    levels_fit, levels_wf, sum_level_quantities, trade_scale, trade_sum, trades_fit, trades_wf,
};
use crate::types::{Level, OrderBook, Side, Trade};
use vstd::prelude::*;

verus! {

/// Adds one trade's signed quantity to a running delta.
fn step_delta(acc: &Dec, t: &Trade, Ghost(ts): Ghost<Seq<Trade>>, Ghost(i): Ghost<int>) -> (r: Dec)
    requires
        trades_fit(ts),
        0 <= i < ts.len(),
        *t == ts[i],
        acc.wf(),
        acc.units() == delta_sum(ts.take(i)),
        acc.scale <= trade_scale(ts.take(i)),
    ensures
        r.wf(),
        r.units() == delta_sum(ts.take(i + 1)),
        r.scale <= trade_scale(ts.take(i + 1)),
{
    proof {
        lemma_take_next(ts, i);
        lemma_trade_prefix(ts, i);
        lemma_trade_prefix(ts, i + 1);
        lemma_trade_prefix(ts.take(i + 1), i + 1);
        assert(ts.take(i + 1).take(i + 1) =~= ts.take(i + 1));
        assert(ts[i].wf());
        lemma_fits_smaller_scale(
            delta_sum(ts.take(i + 1)),
            trade_scale(ts),
            max_nat(acc.scale as nat, t.quantity.scale as nat),
        );
    }
    match t.side {
        Side::Buy => decimal_add(acc, &t.quantity),
        Side::Sell => decimal_sub(acc, &t.quantity),
    }
}

/// Buy quantity minus sell quantity.
pub fn calculate_delta(trades: &[Trade]) -> (r: Dec)
    requires
        trades_fit(trades@),
    ensures
        r.wf(),
        r.units() == delta_sum(trades@),
{
    let ghost ts = trades@;
    let mut acc = Dec::zero();
    let mut i: usize = 0;
    while i < trades.len()
        invariant
            ts == trades@,
            trades_fit(ts),
            i <= ts.len(),
            acc.wf(),
            acc.units() == delta_sum(ts.take(i as int)),
            acc.scale <= trade_scale(ts.take(i as int)),
        decreases ts.len() - i,
    {
        acc = step_delta(&acc, &trades[i], Ghost(ts), Ghost(i as int));
        i = i + 1;
    }
    assert(ts.take(ts.len() as int) =~= ts);
    acc
}

/// The running delta after each trade, paired with that trade's timestamp.
pub fn calculate_cvd(trades: &[Trade]) -> (r: Vec<(i64, Dec)>)
    requires
        trades_fit(trades@),
    ensures
        r@.len() == trades@.len(),
        forall|i: int|
            0 <= i < r@.len() ==> {
                &&& (#[trigger] r@[i]).0 == trades@[i].timestamp
                &&& r@[i].1.wf()
                &&& r@[i].1.units() == delta_sum(trades@.take(i + 1))
            },
{
    let ghost ts = trades@;
    let mut acc = Dec::zero();
    let mut r: Vec<(i64, Dec)> = Vec::new();
    let mut i: usize = 0;
    while i < trades.len()
        invariant
            ts == trades@,
            trades_fit(ts),
            i <= ts.len(),
            r@.len() == i,
            acc.wf(),
            acc.units() == delta_sum(ts.take(i as int)),
            acc.scale <= trade_scale(ts.take(i as int)),
            forall|j: int|
                0 <= j < i ==> {
                    &&& (#[trigger] r@[j]).0 == ts[j].timestamp
                    &&& r@[j].1.wf()
                    &&& r@[j].1.units() == delta_sum(ts.take(j + 1))
                },
        decreases ts.len() - i,
    {
        acc = step_delta(&acc, &trades[i], Ghost(ts), Ghost(i as int));
        r.push((trades[i].timestamp, acc));
        i = i + 1;
    }
    r
}

/// The cumulative volume delta ends at the plain delta: the last running value of a
/// non-empty trade sequence equals buy quantity minus sell quantity.
pub proof fn law_cvd_ends_at_delta(ts: Seq<Trade>)
    requires
        ts.len() > 0,
    ensures
        delta_sum(ts.take(ts.len() - 1 + 1)) == delta_sum(ts),
{
    assert(ts.take(ts.len() as int) =~= ts);
}

/// Price of one level times quantity of another, counted in units of `10^-28`.
pub open spec fn cross(p: Level, q: Level) -> int {
    p.price.mantissa * q.quantity.mantissa * pow10((28 - p.price.scale - q.quantity.scale) as nat)
}

/// The product of one level's price and another's quantity can be held without rounding.
pub open spec fn cross_exact(p: Level, q: Level) -> bool {
    p.price.scale + q.quantity.scale <= 28 && abs(p.price.mantissa * q.quantity.mantissa)
        <= MAX_MANTISSA
}

/// What `weighted_mid_price` needs: well-formed best levels whose cross products, their sum,
/// the summed quantity and the weighted price all stay inside the decimal range.
pub open spec fn weighted_mid_in_range(book: OrderBook) -> bool {
    book.bids@.len() > 0 && book.asks@.len() > 0 ==> {
        let b = book.bids@[0];
        let a = book.asks@[0];
        let num = cross(b, a) + cross(a, b);
        let den = b.quantity.units() + a.quantity.units();
        &&& b.wf()
        &&& a.wf()
        &&& cross_exact(b, a)
        &&& cross_exact(a, b)
        &&& fits_at(num, (b.price.scale + a.quantity.scale) as nat)
        &&& fits_at(num, (a.price.scale + b.quantity.scale) as nat)
        &&& fits_at(den, max_nat(b.quantity.scale as nat, a.quantity.scale as nat))
        &&& (2 * abs(num) <= MAX_MANTISSA * den || den >= pow10(28))
    }
}

/// The best bid and ask prices, each weighted by the quantity on the opposite side:
/// `(bid.price * ask.qty + ask.price * bid.qty) / (bid.qty + ask.qty)`; `None` when a side
/// is empty or both best quantities are zero.
pub fn weighted_mid_price(orderbook: &OrderBook) -> (r: Option<Dec>)
    requires
        weighted_mid_in_range(*orderbook),
    ensures
        orderbook.bids@.len() == 0 || orderbook.asks@.len() == 0 || orderbook.bids@[0].quantity.units()
            + orderbook.asks@[0].quantity.units() == 0 <==> r is None,
        r matches Some(w) ==> {
            let b = orderbook.bids@[0];
            let a = orderbook.asks@[0];
            w.wf() && is_quotient(w, cross(b, a) + cross(a, b), b.quantity.units() + a.quantity.units())
        },
{
    if orderbook.bids.len() == 0 || orderbook.asks.len() == 0 {
        return None;
    }
    let bid = orderbook.bids[0];
    let ask = orderbook.asks[0];
    let total = decimal_add(&bid.quantity, &ask.quantity);
    if total.is_zero() {
        return None;
    }
    let x = decimal_saturating_mul(&bid.price, &ask.quantity);
    let y = decimal_saturating_mul(&ask.price, &bid.quantity);
    proof {
        lemma_fits_smaller_scale(
            x.units() + y.units(),
            (bid.price.scale + ask.quantity.scale) as nat,
            x.scale as nat,
        );
        lemma_fits_smaller_scale(
            x.units() + y.units(),
            (ask.price.scale + bid.quantity.scale) as nat,
            y.scale as nat,
        );
    }
    let num = decimal_add(&x, &y);
    let w = decimal_div(&num, &total);
    assert(is_quotient(w, num.units(), total.units())) by {
        assert(num.wf() && total.wf() && w == quotient(num, total));
    }
    Some(w)
}

/// A volume profile: the traded quantity at each bucket price, ascending by price, with the
/// point of control and the bounds of the value area.
#[derive(Clone, Debug)]
pub struct VolumeProfile {
    pub levels: Vec<Level>,
    pub poc: Option<Dec>,
    pub vah: Option<Dec>,
    pub val: Option<Dec>,
}

/// The quantity of level `i`.
pub open spec fn vol(ls: Seq<Level>, i: int) -> int {
    ls[i].quantity.units()
}

/// Level `j` comes before level `i` when ranked by descending quantity, lower price
/// (earlier level) first among equals.
pub open spec fn ranked_before(ls: Seq<Level>, j: int, i: int) -> bool {
    vol(ls, j) > vol(ls, i) || (vol(ls, j) == vol(ls, i) && j < i)
}

/// The summed quantity of the levels among the first `n` that rank before level `i`.
pub open spec fn volume_before(ls: Seq<Level>, i: int, n: int) -> int
    decreases n,
{
    if n <= 0 {
        0
    } else {
        volume_before(ls, i, n - 1) + if ranked_before(ls, n - 1, i) {
            vol(ls, n - 1)
        } else {
            0
        }
    }
}

/// Level `i` is in the value area: the levels ranked before it hold less than `target`.
pub open spec fn in_value_area(ls: Seq<Level>, i: int, target: int) -> bool {
    volume_before(ls, i, ls.len() as int) < target
}

/// Level `p` has the largest quantity, and no earlier level has as much.
pub open spec fn is_point_of_control(ls: Seq<Level>, p: int) -> bool {
    &&& 0 <= p < ls.len()
    &&& forall|j: int| 0 <= j < ls.len() ==> vol(ls, j) <= vol(ls, p)
    &&& forall|j: int| 0 <= j < p ==> vol(ls, j) < vol(ls, p)
}

/// `hi` is the highest and `lo` the lowest price among the point of control `p` and the
/// levels in the value area.
pub open spec fn value_area_bounds(ls: Seq<Level>, p: int, target: int, hi: Dec, lo: Dec) -> bool {
    &&& hi.units() >= ls[p].price.units()
    &&& lo.units() <= ls[p].price.units()
    &&& forall|i: int|
        0 <= i < ls.len() && in_value_area(ls, i, target) ==> lo.units() <= (#[trigger] ls[i]).price.units()
            <= hi.units()
    &&& (hi == ls[p].price || exists|i: int|
        0 <= i < ls.len() && in_value_area(ls, i, target) && hi == (#[trigger] ls[i]).price)
    &&& (lo == ls[p].price || exists|i: int|
        0 <= i < ls.len() && in_value_area(ls, i, target) && lo == (#[trigger] ls[i]).price)
}

/// Seventy percent.
pub open spec fn seventy_percent() -> Dec {
    Dec { mantissa: 70, scale: 2 }
}

/// The levels hold every bucket of the trades once, ascending by price, with its summed
/// quantity.
#[verifier::opaque]
pub open spec fn profile_levels(ls: Seq<Level>, ts: Seq<Trade>, tick: Dec) -> bool {
    &&& forall|a: int, b: int|
        0 <= a < b < ls.len() ==> (#[trigger] ls[a]).price.units() < (#[trigger] ls[b]).price.units()
    &&& forall|j: int|
        0 <= j < ls.len() ==> {
            &&& (#[trigger] ls[j]).price.wf()
            &&& ls[j].quantity.wf()
            &&& ls[j].quantity.units() == bucket_sum(ts, tick, ls[j].price.units())
        }
    &&& levels_cover(ls, ts, tick)
    &&& levels_sourced(ls, ts, tick)
}

/// Some level has the price `k`.
pub open spec fn has_level(ls: Seq<Level>, k: int) -> bool {
    exists|j: int| 0 <= j < ls.len() && (#[trigger] ls[j]).price.units() == k
}

/// Some trade has its bucket at `k`.
pub open spec fn is_trade_bucket(ts: Seq<Trade>, tick: Dec, k: int) -> bool {
    exists|i: int| 0 <= i < ts.len() && bucket_key(#[trigger] ts[i], tick) == k
}

/// Every trade's bucket is the price of some level.
pub open spec fn levels_cover(ls: Seq<Level>, ts: Seq<Trade>, tick: Dec) -> bool {
    forall|i: int| 0 <= i < ts.len() ==> has_level(ls, bucket_key(#[trigger] ts[i], tick))
}

/// Every level's price is the bucket of some trade.
pub open spec fn levels_sourced(ls: Seq<Level>, ts: Seq<Trade>, tick: Dec) -> bool {
    forall|j: int| 0 <= j < ls.len() ==> is_trade_bucket(ts, tick, (#[trigger] ls[j]).price.units())
}

/// Level `x` carries the price and volume of bucket `x`.
pub open spec fn mirrors(r: Seq<Level>, bs: Seq<Bucket>) -> bool {
    r.len() == bs.len() && forall|x: int|
        0 <= x < r.len() ==> (#[trigger] r[x]).price == bs[x].price && r[x].quantity == bs[x].volume
}

proof fn lemma_mirror_sorted(r: Seq<Level>, bs: Seq<Bucket>)
    requires
        mirrors(r, bs),
        buckets_sorted(bs),
    ensures
        forall|a: int, b: int|
            0 <= a < b < r.len() ==> (#[trigger] r[a]).price.units() < (#[trigger] r[b]).price.units(),
{
    reveal(buckets_sorted);
    assert forall|a: int, b: int|
        0 <= a < b < r.len() implies (#[trigger] r[a]).price.units() < (#[trigger] r[b]).price.units() by {
        assert(r[a].price == bs[a].price && r[b].price == bs[b].price);
    }
}

proof fn lemma_mirror_exact(r: Seq<Level>, bs: Seq<Bucket>, ts: Seq<Trade>, tick: Dec)
    requires
        mirrors(r, bs),
        trades_wf(ts),
        buckets_exact(bs, ts, tick),
    ensures
        forall|j: int|
            0 <= j < r.len() ==> {
                &&& (#[trigger] r[j]).price.wf()
                &&& r[j].quantity.wf()
                &&& r[j].quantity.units() == bucket_sum(ts, tick, r[j].price.units())
                &&& r[j].quantity.scale <= trade_scale(ts)
            },
        levels_wf(r),
{
    reveal(buckets_exact);
    reveal(bucket_matches);
    assert forall|j: int| 0 <= j < r.len() implies (#[trigger] r[j]).wf() && r[j].quantity.units()
        == bucket_sum(ts, tick, r[j].price.units()) && r[j].quantity.scale <= trade_scale(ts) by {
        assert(bucket_matches(bs[j], ts, tick));
        crate::buckets::lemma_bucket_sum_bounds(ts, tick, bs[j].price.units());
    }
}

proof fn lemma_mirror_cover(r: Seq<Level>, bs: Seq<Bucket>, ts: Seq<Trade>, tick: Dec)
    requires
        mirrors(r, bs),
        buckets_cover(bs, ts, tick),
    ensures
        levels_cover(r, ts, tick),
{
    reveal(buckets_cover);
    assert forall|i: int| 0 <= i < ts.len() implies has_level(r, bucket_key(#[trigger] ts[i], tick)) by {
        let t = ts[i];
        let x = choose|x: int| 0 <= x < bs.len() && (#[trigger] bs[x]).price.units() == bucket_key(#[trigger] ts[i], tick);
        assert(r[x].price == bs[x].price);
    }
}

proof fn lemma_mirror_sourced(r: Seq<Level>, bs: Seq<Bucket>, ts: Seq<Trade>, tick: Dec)
    requires
        mirrors(r, bs),
        buckets_sourced(bs, ts, tick),
    ensures
        levels_sourced(r, ts, tick),
{
    reveal(buckets_sourced);
    assert forall|j: int| 0 <= j < r.len() implies is_trade_bucket(ts, tick, (#[trigger] r[j]).price.units()) by {
        assert(r[j].price == bs[j].price);
        let b = bs[j];
        let i = choose|i: int| 0 <= i < ts.len() && (#[trigger] bs[j]).price.units() == bucket_key(#[trigger] ts[i], tick);
        let t = ts[i];
    }
}

/// The buckets as levels, with the facts the profile needs.
fn bucket_levels(bs: &Vec<Bucket>, Ghost(ts): Ghost<Seq<Trade>>, tick: &Dec) -> (r: Vec<Level>)
    requires
        trades_fit(ts),
        buckets_of(bs@, ts, *tick),
        volume_total(bs@) == trade_sum(ts),
    ensures
        profile_levels(r@, ts, *tick),
        levels_fit(r@),
        r@.len() == bs@.len(),
        level_sum(r@) == trade_sum(ts),
        forall|j: int| 0 <= j < r@.len() ==> (#[trigger] r@[j]).quantity.scale <= trade_scale(ts),
{
    let mut r: Vec<Level> = Vec::new();
    let mut j: usize = 0;
    proof {
        lemma_trade_prefix(ts, 0);
        crate::buckets::lemma_bucket_scales(bs@, ts, *tick);
    }
    while j < bs.len()
        invariant
            j <= bs@.len(),
            r@.len() == j,
            forall|x: int|
                0 <= x < bs@.len() ==> {
                    &&& (#[trigger] bs@[x]).volume.scale <= trade_scale(ts)
                },
            forall|x: int|
                0 <= x < j ==> (#[trigger] r@[x]).price == bs@[x].price && r@[x].quantity
                    == bs@[x].volume,
            level_sum(r@) == volume_total(bs@.take(j as int)),
            level_scale(r@) <= trade_scale(ts),
        decreases bs@.len() - j,
    {
        let b = bs[j];
        proof {
            lemma_take_next(bs@, j as int);
            assert(r@.push(Level { price: b.price, quantity: b.volume }).drop_last() =~= r@);
        }
        r.push(Level { price: b.price, quantity: b.volume });
        j = j + 1;
    }
    proof {
        assert(bs@.take(bs@.len() as int) =~= bs@);
        assert(mirrors(r@, bs@));
        lemma_mirror_sorted(r@, bs@);
        lemma_mirror_exact(r@, bs@, ts, *tick);
        lemma_mirror_cover(r@, bs@, ts, *tick);
        lemma_mirror_sourced(r@, bs@, ts, *tick);
        reveal(profile_levels);
        lemma_fits_smaller_scale(level_sum(r@), trade_scale(ts), level_scale(r@));
    }
    r
}

/// The volume ranked before level `i` stays between zero and the summed volume of the
/// levels looked at.
proof fn lemma_volume_before_bounds(ls: Seq<Level>, i: int, n: int)
    requires
        levels_wf(ls),
        0 <= n <= ls.len(),
    ensures
        0 <= volume_before(ls, i, n) <= level_sum(ls.take(n)),
    decreases n,
{
    if n > 0 {
        lemma_volume_before_bounds(ls, i, n - 1);
        lemma_take_next(ls, n - 1);
        assert(ls[n - 1].wf());
    }
}

/// The index of the first level with the largest quantity.
fn poc_index(levels: &Vec<Level>) -> (r: usize)
    requires
        levels@.len() > 0,
        levels_wf(levels@),
    ensures
        is_point_of_control(levels@, r as int),
{
    let mut best: usize = 0;
    let mut i: usize = 1;
    while i < levels.len()
        invariant
            levels_wf(levels@),
            0 <= best < i <= levels@.len(),
            forall|j: int| 0 <= j < i ==> vol(levels@, j) <= vol(levels@, best as int),
            forall|j: int| 0 <= j < best ==> vol(levels@, j) < vol(levels@, best as int),
        decreases levels@.len() - i,
    {
        proof {
            assert(levels@[i as int].wf());
            assert(levels@[best as int].wf());
        }
        if levels[i].quantity.gt(&levels[best].quantity) {
            best = i;
        }
        i = i + 1;
    }
    best
}

/// The summed quantity of the levels that rank before level `i`.
fn volume_ranked_before(levels: &Vec<Level>, i: usize) -> (r: Dec)
    requires
        levels_fit(levels@),
        i < levels@.len(),
    ensures
        r.wf(),
        r.units() == volume_before(levels@, i as int, levels@.len() as int),
{
    let ghost ls = levels@;
    let mut acc = Dec::zero();
    let mut j: usize = 0;
    proof {
        assert(ls[i as int].wf());
    }
    while j < levels.len()
        invariant
            ls == levels@,
            levels_fit(ls),
            i < ls.len(),
            ls[i as int].wf(),
            j <= ls.len(),
            acc.wf(),
            acc.units() == volume_before(ls, i as int, j as int),
            acc.scale <= level_scale(ls.take(j as int)),
        decreases ls.len() - j,
    {
        proof {
            assert(ls[j as int].wf());
            lemma_take_next(ls, j as int);
            lemma_level_prefix(ls, j + 1);
            lemma_level_prefix(ls, j as int);
            lemma_level_prefix(ls.take(j + 1), j as int);
            assert(ls.take(j + 1).take(j as int) =~= ls.take(j as int));
            lemma_volume_before_bounds(ls, i as int, j + 1);
        }
        let c = crate::decimal::decimal_cmp(&levels[j].quantity, &levels[i].quantity);
        if c > 0 || (c == 0 && j < i) {
            proof {
                lemma_fits_smaller_scale(
                    volume_before(ls, i as int, j + 1),
                    level_scale(ls),
                    max_nat(acc.scale as nat, ls[j as int].quantity.scale as nat),
                );
            }
            acc = decimal_add(&acc, &levels[j].quantity);
        }
        j = j + 1;
    }
    acc
}

/// There is a point of control `p` whose price is `poc`, and, for the value-area target
/// (seventy percent of a decimal holding `total` units), `vah` and `val` bound the value area.
pub open spec fn profile_summary(ls: Seq<Level>, total: int, poc: Dec, vah: Dec, val: Dec) -> bool {
    exists|p: int, t: Dec|
        #![trigger ls[p], product(t, seventy_percent())]
        is_point_of_control(ls, p) && poc == ls[p].price && t.wf() && t.units() == total
            && value_area_bounds(ls, p, product(t, seventy_percent()).units(), vah, val)
}

/// Buckets each trade's price to the nearest multiple of `tick_size` and sums the quantity
/// at each bucket; the point of control is the bucket with the most quantity (the lowest
/// price among equals), and the value area gathers buckets by descending quantity (lower
/// price first among equals) until seventy percent of the quantity is reached.
pub fn calculate_volume_profile(trades: &[Trade], tick_size: Dec) -> (r: VolumeProfile)
    requires
        trades_fit(trades@),
        bucketable(trades@, tick_size),
    ensures
        profile_levels(r.levels@, trades@, tick_size),
        r.levels@.len() == 0 <==> trades@.len() == 0,
        r.levels@.len() == 0 ==> r.poc is None && r.vah is None && r.val is None,
        r.levels@.len() > 0 ==> (r.poc matches Some(poc) && r.vah matches Some(vah) && r.val matches Some(val)
            && profile_summary(r.levels@, trade_sum(trades@), poc, vah, val)),
{
    let bs = group_trades(trades, &tick_size);
    let levels = bucket_levels(&bs, Ghost(trades@), &tick_size);
    proof {
        lemma_profile_empty(levels@, trades@, tick_size);
    }
    if levels.len() == 0 {
        return VolumeProfile { levels, poc: None, vah: None, val: None };
    }
    let p = poc_index(&levels);
    let poc = levels[p].price;
    let total = sum_level_quantities(levels.as_slice(), levels.len());
    proof {
        assert(levels@.take(levels@.len() as int) =~= levels@);
    }
    let target = decimal_saturating_mul(&total, &Dec { mantissa: 70, scale: 2 });
    let ghost tu = target.units();
    let mut hi = poc;
    let mut lo = poc;
    let mut i: usize = 0;
    proof {
        assert(levels@[p as int].wf());
    }
    while i < levels.len()
        invariant
            levels_fit(levels@),
            is_point_of_control(levels@, p as int),
            poc == levels@[p as int].price,
            poc.wf(),
            target.wf(),
            tu == target.units(),
            i <= levels@.len(),
            hi.wf() && lo.wf(),
            hi.units() >= poc.units(),
            lo.units() <= poc.units(),
            forall|x: int|
                0 <= x < i && in_value_area(levels@, x, tu) ==> lo.units() <= (#[trigger] levels@[x]).price.units()
                    <= hi.units(),
            hi == poc || exists|x: int|
                0 <= x < i && in_value_area(levels@, x, tu) && hi == (#[trigger] levels@[x]).price,
            lo == poc || exists|x: int|
                0 <= x < i && in_value_area(levels@, x, tu) && lo == (#[trigger] levels@[x]).price,
        decreases levels@.len() - i,
    {
        let before = volume_ranked_before(&levels, i);
        let price = levels[i].price;
        proof {
            assert(levels@[i as int].wf());
        }
        if before.lt(&target) {
            if price.gt(&hi) {
                hi = price;
            }
            if price.lt(&lo) {
                lo = price;
            }
        }
        i = i + 1;
    }
    proof {
        assert(target == product(total, seventy_percent()));
        assert(value_area_bounds(levels@, p as int, tu, hi, lo));
        assert(levels@[p as int] == levels@[p as int]);
    }
    VolumeProfile { levels, poc: Some(poc), vah: Some(hi), val: Some(lo) }
}

proof fn lemma_profile_empty(ls: Seq<Level>, ts: Seq<Trade>, tick: Dec)
    requires
        profile_levels(ls, ts, tick),
    ensures
        ls.len() == 0 <==> ts.len() == 0,
{
    reveal(profile_levels);
    if ts.len() > 0 {
        assert(has_level(ls, bucket_key(ts[0], tick)));
    }
    if ls.len() > 0 {
        assert(is_trade_bucket(ts, tick, ls[0].price.units()));
    }
}

} // verus!
