//! Grouping of trades into price buckets, kept in ascending order of price.
use crate::decimal::{
    decimal_add, decimal_div, decimal_round_whole, decimal_saturating_mul, fits_at,
    lemma_fits_smaller_scale, max_nat, product, quotient, quotient_in_range, rounded, Dec,
};
use crate::sums::{lemma_take_next, lemma_trade_prefix, trade_scale, trade_sum, trades_fit, trades_wf};
use crate::types::Trade;
use vstd::prelude::*;

verus! {

/// The bucket of a trade: its price divided by `tick`, rounded to a whole number, times `tick`.
pub open spec fn bucket_of(t: Trade, tick: Dec) -> Dec {
    product(rounded(quotient(t.price, tick)), tick)
}

/// The value of a trade's bucket, counted in units of `10^-28`.
pub open spec fn bucket_key(t: Trade, tick: Dec) -> int {
    bucket_of(t, tick).units()
}

/// Every price can be divided by `tick`.
pub open spec fn bucketable(ts: Seq<Trade>, tick: Dec) -> bool {
    forall|i: int| 0 <= i < ts.len() ==> quotient_in_range((#[trigger] ts[i]).price, tick)
}

/// The summed quantity of the trades in the bucket `k`.
pub open spec fn bucket_sum(ts: Seq<Trade>, tick: Dec, k: int) -> int
    decreases ts.len(),
{
    if ts.len() == 0 {
        0
    } else {
        bucket_sum(ts.drop_last(), tick, k) + if bucket_key(ts.last(), tick) == k {
            ts.last().quantity.units()
        } else {
            0
        }
    }
}

/// The number of trades in the bucket `k`.
pub open spec fn bucket_count(ts: Seq<Trade>, tick: Dec, k: int) -> nat
    decreases ts.len(),
{
    if ts.len() == 0 {
        0
    } else {
        bucket_count(ts.drop_last(), tick, k) + if bucket_key(ts.last(), tick) == k {
            1nat
        } else {
            0nat
        }
    }
}

/// The largest quantity among the trades in the bucket `k` (zero for an empty bucket).
pub open spec fn bucket_largest(ts: Seq<Trade>, tick: Dec, k: int) -> int
    decreases ts.len(),
{
    if ts.len() == 0 {
        0
    } else {
        let prev = bucket_largest(ts.drop_last(), tick, k);
        if bucket_key(ts.last(), tick) == k && ts.last().quantity.units() > prev {
            ts.last().quantity.units()
        } else {
            prev
        }
    }
}

/// One price bucket: its price, summed quantity, number of fills and largest fill.
#[derive(Clone, Copy, Debug)]
pub struct Bucket {
    pub price: Dec,
    pub volume: Dec,
    pub fills: usize,
    pub largest: Dec,
}

/// `b` holds what the trades `ts` put in the bucket at its price.
#[verifier::opaque]
pub open spec fn bucket_matches(b: Bucket, ts: Seq<Trade>, tick: Dec) -> bool {
    let k = b.price.units();
    &&& b.price.wf()
    &&& b.volume.wf()
    &&& b.largest.wf()
    &&& b.volume.units() == bucket_sum(ts, tick, k)
    &&& b.volume.scale <= trade_scale(ts)
    &&& b.fills == bucket_count(ts, tick, k)
    &&& b.fills >= 1
    &&& b.largest.units() == bucket_largest(ts, tick, k)
}

/// The buckets are in strictly ascending order of price.
#[verifier::opaque]
pub open spec fn buckets_sorted(bs: Seq<Bucket>) -> bool {
    forall|a: int, b: int|
        0 <= a < b < bs.len() ==> (#[trigger] bs[a]).price.units() < (#[trigger] bs[b]).price.units()
}

/// Each bucket holds what the trades put in it.
#[verifier::opaque]
pub open spec fn buckets_exact(bs: Seq<Bucket>, ts: Seq<Trade>, tick: Dec) -> bool {
    forall|j: int| 0 <= j < bs.len() ==> bucket_matches(#[trigger] bs[j], ts, tick)
}

/// Every trade's bucket is among the buckets.
#[verifier::opaque]
pub open spec fn buckets_cover(bs: Seq<Bucket>, ts: Seq<Trade>, tick: Dec) -> bool {
    forall|i: int|
        0 <= i < ts.len() ==> exists|j: int|
            0 <= j < bs.len() && (#[trigger] bs[j]).price.units() == bucket_key(#[trigger] ts[i], tick)
}

/// Every bucket is the bucket of some trade.
#[verifier::opaque]
pub open spec fn buckets_sourced(bs: Seq<Bucket>, ts: Seq<Trade>, tick: Dec) -> bool {
    forall|j: int|
        0 <= j < bs.len() ==> exists|i: int|
            0 <= i < ts.len() && (#[trigger] bs[j]).price.units() == bucket_key(#[trigger] ts[i], tick)
}

/// The buckets hold every bucket of `ts` once, in strictly ascending order of price.
pub open spec fn buckets_of(bs: Seq<Bucket>, ts: Seq<Trade>, tick: Dec) -> bool {
    &&& buckets_sorted(bs)
    &&& buckets_exact(bs, ts, tick)
    &&& buckets_cover(bs, ts, tick)
    &&& buckets_sourced(bs, ts, tick)
}

/// The summed volume of the buckets.
pub open spec fn volume_total(bs: Seq<Bucket>) -> int
    decreases bs.len(),
{
    if bs.len() == 0 {
        0
    } else {
        volume_total(bs.drop_last()) + bs.last().volume.units()
    }
}

proof fn lemma_total_update(bs: Seq<Bucket>, p: int, nb: Bucket)
    requires
        0 <= p < bs.len(),
    ensures
        volume_total(bs.update(p, nb)) == volume_total(bs) - bs[p].volume.units()
            + nb.volume.units(),
    decreases bs.len(),
{
    let u = bs.update(p, nb);
    if p < bs.len() - 1 {
        assert(u.drop_last() =~= bs.drop_last().update(p, nb));
        lemma_total_update(bs.drop_last(), p, nb);
    } else {
        assert(u.drop_last() =~= bs.drop_last());
    }
}

proof fn lemma_total_insert(bs: Seq<Bucket>, p: int, nb: Bucket)
    requires
        0 <= p <= bs.len(),
    ensures
        volume_total(bs.insert(p, nb)) == volume_total(bs) + nb.volume.units(),
    decreases bs.len(),
{
    let u = bs.insert(p, nb);
    if p < bs.len() {
        assert(u.drop_last() =~= bs.drop_last().insert(p, nb));
        lemma_total_insert(bs.drop_last(), p, nb);
    } else {
        assert(u.drop_last() =~= bs);
    }
}

pub proof fn lemma_bucket_sum_bounds(ts: Seq<Trade>, tick: Dec, k: int)
    requires
        trades_wf(ts),
    ensures
        0 <= bucket_sum(ts, tick, k) <= trade_sum(ts),
        bucket_largest(ts, tick, k) >= 0,
        bucket_count(ts, tick, k) <= ts.len(),
    decreases ts.len(),
{
    if ts.len() > 0 {
        let p = ts.drop_last();
        assert(trades_wf(p)) by {
            assert forall|j: int| 0 <= j < p.len() implies (#[trigger] p[j]).wf() by {
                assert(p[j] == ts[j]);
            }
        }
        lemma_bucket_sum_bounds(p, tick, k);
        assert(ts.last() == ts[ts.len() - 1]);
    }
}

/// The bucket price of one trade.
pub fn bucket_price(t: &Trade, tick: &Dec) -> (r: Dec)
    requires
        quotient_in_range(t.price, *tick),
    ensures
        r == bucket_of(*t, *tick),
        r.wf(),
{
    let q = decimal_div(&t.price, tick);
    let w = decimal_round_whole(&q);
    decimal_saturating_mul(&w, tick)
}

/// The position where the key `k` stands or would be inserted.
fn find_position(bs: &Vec<Bucket>, k: &Dec) -> (r: usize)
    requires
        k.wf(),
        forall|j: int| 0 <= j < bs@.len() ==> (#[trigger] bs@[j]).price.wf(),
    ensures
        r <= bs@.len(),
        forall|j: int| 0 <= j < r ==> (#[trigger] bs@[j]).price.units() < k.units(),
        r < bs@.len() ==> bs@[r as int].price.units() >= k.units(),
{
    let mut i: usize = 0;
    while i < bs.len()
        invariant
            i <= bs@.len(),
            k.wf(),
            forall|j: int| 0 <= j < bs@.len() ==> (#[trigger] bs@[j]).price.wf(),
            forall|j: int| 0 <= j < i ==> (#[trigger] bs@[j]).price.units() < k.units(),
        decreases bs@.len() - i,
    {
        if bs[i].price.ge(k) {
            return i;
        }
        i = i + 1;
    }
    i
}

proof fn lemma_empty_bucket(ts: Seq<Trade>, tick: Dec, k: int)
    requires
        forall|i: int| 0 <= i < ts.len() ==> bucket_key(#[trigger] ts[i], tick) != k,
    ensures
        bucket_sum(ts, tick, k) == 0,
        bucket_count(ts, tick, k) == 0,
        bucket_largest(ts, tick, k) == 0,
    decreases ts.len(),
{
    if ts.len() > 0 {
        let p = ts.drop_last();
        assert forall|i: int| 0 <= i < p.len() implies bucket_key(#[trigger] p[i], tick) != k by {
            assert(p[i] == ts[i]);
        }
        lemma_empty_bucket(p, tick, k);
        assert(ts.last() == ts[ts.len() - 1]);
    }
}

/// A bucket of another price is unchanged by the `i`-th trade.
proof fn lemma_extend_other(ts: Seq<Trade>, i: int, tick: Dec, b: Bucket)
    requires
        0 <= i < ts.len(),
        bucket_matches(b, ts.take(i), tick),
        b.price.units() != bucket_key(ts[i], tick),
    ensures
        bucket_matches(b, ts.take(i + 1), tick),
{
    reveal(bucket_matches);
    lemma_take_next(ts, i);
}

proof fn lemma_cover_step(ts: Seq<Trade>, i: int, tick: Dec, old_bs: Seq<Bucket>, new_bs: Seq<Bucket>, q: int)
    requires
        0 <= i < ts.len(),
        buckets_cover(old_bs, ts.take(i), tick),
        0 <= q < new_bs.len(),
        new_bs[q].price.units() == bucket_key(ts[i], tick),
        forall|j: int| 0 <= j < old_bs.len() ==> exists|j2: int|
            0 <= j2 < new_bs.len() && (#[trigger] new_bs[j2]).price.units() == (#[trigger] old_bs[j]).price.units(),
    ensures
        buckets_cover(new_bs, ts.take(i + 1), tick),
{
    reveal(buckets_cover);
    let prev = ts.take(i);
    let next = ts.take(i + 1);
    lemma_take_next(ts, i);
    assert forall|x: int| 0 <= x < next.len() implies exists|j: int|
        0 <= j < new_bs.len() && (#[trigger] new_bs[j]).price.units() == bucket_key(
            #[trigger] next[x],
            tick,
        ) by {
        if x < i {
            assert(next[x] == prev[x]);
            let j = choose|j: int|
                0 <= j < old_bs.len() && (#[trigger] old_bs[j]).price.units() == bucket_key(
                    #[trigger] prev[x],
                    tick,
                );
            let j2 = choose|j2: int|
                0 <= j2 < new_bs.len() && (#[trigger] new_bs[j2]).price.units() == (#[trigger] old_bs[j]).price.units();
        } else {
            assert(next[x] == ts[i]);
        }
    }
}

proof fn lemma_sourced_step(ts: Seq<Trade>, i: int, tick: Dec, old_bs: Seq<Bucket>, new_bs: Seq<Bucket>)
    requires
        0 <= i < ts.len(),
        buckets_sourced(old_bs, ts.take(i), tick),
        forall|j: int| 0 <= j < new_bs.len() ==> (#[trigger] new_bs[j]).price.units() == bucket_key(ts[i], tick)
            || exists|j2: int| 0 <= j2 < old_bs.len() && (#[trigger] old_bs[j2]).price.units() == new_bs[j].price.units(),
    ensures
        buckets_sourced(new_bs, ts.take(i + 1), tick),
{
    reveal(buckets_sourced);
    let prev = ts.take(i);
    let next = ts.take(i + 1);
    lemma_take_next(ts, i);
    assert forall|j: int| 0 <= j < new_bs.len() implies exists|x: int|
        0 <= x < next.len() && (#[trigger] new_bs[j]).price.units() == bucket_key(
            #[trigger] next[x],
            tick,
        ) by {
        if new_bs[j].price.units() == bucket_key(ts[i], tick) {
            assert(next[i] == ts[i]);
        } else {
            let j2 = choose|j2: int| 0 <= j2 < old_bs.len() && (#[trigger] old_bs[j2]).price.units() == new_bs[j].price.units();
            let x = choose|x: int|
                0 <= x < prev.len() && (#[trigger] old_bs[j2]).price.units() == bucket_key(
                    #[trigger] prev[x],
                    tick,
                );
            assert(next[x] == prev[x]);
        }
    }
}

/// Adding the `i`-th trade to the bucket at `p`, which has its price, keeps the buckets exact.
proof fn lemma_update_step(
    ts: Seq<Trade>,
    i: int,
    tick: Dec,
    old_bs: Seq<Bucket>,
    new_bs: Seq<Bucket>,
    p: int,
)
    requires
        0 <= i < ts.len(),
        buckets_of(old_bs, ts.take(i), tick),
        0 <= p < old_bs.len(),
        old_bs[p].price.units() == bucket_key(ts[i], tick),
        new_bs == old_bs.update(p, new_bs[p]),
        new_bs[p].price == old_bs[p].price,
        bucket_matches(new_bs[p], ts.take(i + 1), tick),
    ensures
        buckets_of(new_bs, ts.take(i + 1), tick),
{
    reveal(buckets_sorted);
    reveal(buckets_exact);
    assert forall|j: int| 0 <= j < new_bs.len() implies bucket_matches(
        #[trigger] new_bs[j],
        ts.take(i + 1),
        tick,
    ) by {
        if j != p {
            assert(old_bs[j].price.units() != old_bs[p].price.units());
            lemma_extend_other(ts, i, tick, old_bs[j]);
        }
    }
    assert forall|j: int| 0 <= j < old_bs.len() implies exists|j2: int|
        0 <= j2 < new_bs.len() && (#[trigger] new_bs[j2]).price.units() == (#[trigger] old_bs[j]).price.units() by {
        assert(new_bs[j].price == old_bs[j].price);
    }
    lemma_cover_step(ts, i, tick, old_bs, new_bs, p);
    assert forall|j: int| 0 <= j < new_bs.len() implies (#[trigger] new_bs[j]).price.units() == bucket_key(ts[i], tick)
            || exists|j2: int| 0 <= j2 < old_bs.len() && (#[trigger] old_bs[j2]).price.units() == new_bs[j].price.units() by {
        assert(new_bs[j].price == old_bs[j].price);
    }
    lemma_sourced_step(ts, i, tick, old_bs, new_bs);
}

/// The `i`-th trade's bucket is new when no bucket at or after `p` has its price.
proof fn lemma_new_key(ts: Seq<Trade>, i: int, tick: Dec, bs: Seq<Bucket>, p: int)
    requires
        0 <= i < ts.len(),
        buckets_of(bs, ts.take(i), tick),
        0 <= p <= bs.len(),
        forall|j: int| 0 <= j < p ==> (#[trigger] bs[j]).price.units() < bucket_key(ts[i], tick),
        p < bs.len() ==> bs[p].price.units() > bucket_key(ts[i], tick),
    ensures
        bucket_sum(ts.take(i), tick, bucket_key(ts[i], tick)) == 0,
        bucket_count(ts.take(i), tick, bucket_key(ts[i], tick)) == 0,
        bucket_largest(ts.take(i), tick, bucket_key(ts[i], tick)) == 0,
{
    reveal(buckets_sorted);
    reveal(buckets_cover);
    let prev = ts.take(i);
    let key = bucket_key(ts[i], tick);
    assert forall|x: int| 0 <= x < prev.len() implies bucket_key(#[trigger] prev[x], tick)
        != key by {
        let j = choose|j: int|
            0 <= j < bs.len() && (#[trigger] bs[j]).price.units() == bucket_key(
                #[trigger] prev[x],
                tick,
            );
        if j > p {
            assert(bs[p].price.units() < bs[j].price.units());
        }
    }
    lemma_empty_bucket(prev, tick, key);
}

/// Inserting a fresh bucket for the `i`-th trade at its ordered place keeps the buckets exact.
proof fn lemma_insert_step(
    ts: Seq<Trade>,
    i: int,
    tick: Dec,
    old_bs: Seq<Bucket>,
    nb: Bucket,
    p: int,
)
    requires
        0 <= i < ts.len(),
        buckets_of(old_bs, ts.take(i), tick),
        0 <= p <= old_bs.len(),
        nb.price.units() == bucket_key(ts[i], tick),
        forall|j: int| 0 <= j < p ==> (#[trigger] old_bs[j]).price.units() < nb.price.units(),
        p < old_bs.len() ==> old_bs[p].price.units() > nb.price.units(),
        bucket_matches(nb, ts.take(i + 1), tick),
    ensures
        buckets_of(old_bs.insert(p, nb), ts.take(i + 1), tick),
{
    reveal(buckets_sorted);
    reveal(buckets_exact);
    let new_bs = old_bs.insert(p, nb);
    assert forall|j: int| 0 <= j < new_bs.len() implies bucket_matches(
        #[trigger] new_bs[j],
        ts.take(i + 1),
        tick,
    ) by {
        if j < p {
            assert(new_bs[j] == old_bs[j]);
            lemma_extend_other(ts, i, tick, old_bs[j]);
        } else if j > p {
            assert(new_bs[j] == old_bs[j - 1]);
            if p < j - 1 {
                assert(old_bs[p].price.units() < old_bs[j - 1].price.units());
            }
            lemma_extend_other(ts, i, tick, old_bs[j - 1]);
        }
    }
    assert forall|a: int, b: int| 0 <= a < b < new_bs.len() implies (#[trigger] new_bs[a]).price.units()
        < (#[trigger] new_bs[b]).price.units() by {
        if b < p {
        } else if b == p {
        } else if a < p {
            assert(new_bs[b] == old_bs[b - 1]);
            if p < b - 1 {
                assert(old_bs[p].price.units() < old_bs[b - 1].price.units());
            }
        } else if a == p {
            assert(new_bs[b] == old_bs[b - 1]);
            if p < b - 1 {
                assert(old_bs[p].price.units() < old_bs[b - 1].price.units());
            }
        } else {
            assert(new_bs[b] == old_bs[b - 1]);
            assert(new_bs[a] == old_bs[a - 1]);
        }
    }
    assert forall|j: int| 0 <= j < old_bs.len() implies exists|j2: int|
        0 <= j2 < new_bs.len() && (#[trigger] new_bs[j2]).price.units() == (#[trigger] old_bs[j]).price.units() by {
        if j < p {
            assert(new_bs[j] == old_bs[j]);
        } else {
            assert(new_bs[j + 1] == old_bs[j]);
        }
    }
    lemma_cover_step(ts, i, tick, old_bs, new_bs, p);
    assert forall|j: int| 0 <= j < new_bs.len() implies (#[trigger] new_bs[j]).price.units() == bucket_key(ts[i], tick)
            || exists|j2: int| 0 <= j2 < old_bs.len() && (#[trigger] old_bs[j2]).price.units() == new_bs[j].price.units() by {
        if j < p {
            assert(new_bs[j] == old_bs[j]);
        } else if j > p {
            assert(new_bs[j] == old_bs[j - 1]);
        }
    }
    lemma_sourced_step(ts, i, tick, old_bs, new_bs);
}

proof fn lemma_no_buckets(ts: Seq<Trade>, tick: Dec)
    ensures
        buckets_of(Seq::<Bucket>::empty(), ts.take(0), tick),
{
    reveal(buckets_sorted);
    reveal(buckets_exact);
    reveal(buckets_cover);
    reveal(buckets_sourced);
}

proof fn lemma_prices_wf(bs: Seq<Bucket>, ts: Seq<Trade>, tick: Dec)
    requires
        buckets_exact(bs, ts, tick),
    ensures
        forall|j: int| 0 <= j < bs.len() ==> (#[trigger] bs[j]).price.wf(),
{
    reveal(buckets_exact);
    reveal(bucket_matches);
    assert forall|j: int| 0 <= j < bs.len() implies (#[trigger] bs[j]).price.wf() by {
        assert(bucket_matches(bs[j], ts, tick));
    }
}

/// What a bucket that the `i`-th trade joins holds, and the room left to add that trade.
proof fn lemma_join_facts(ts: Seq<Trade>, i: int, tick: Dec, bs: Seq<Bucket>, p: int)
    requires
        trades_fit(ts),
        0 <= i < ts.len(),
        buckets_exact(bs, ts.take(i), tick),
        0 <= p < bs.len(),
        bs[p].price.units() == bucket_key(ts[i], tick),
    ensures
        bs[p].volume.wf(),
        bs[p].largest.wf(),
        bs[p].fills < ts.len(),
        fits_at(
            bs[p].volume.units() + ts[i].quantity.units(),
            max_nat(bs[p].volume.scale as nat, ts[i].quantity.scale as nat),
        ),
{
    reveal(buckets_exact);
    reveal(bucket_matches);
    let b = bs[p];
    assert(bucket_matches(b, ts.take(i), tick));
    let key = b.price.units();
    lemma_take_next(ts, i);
    lemma_trade_prefix(ts, i + 1);
    lemma_bucket_sum_bounds(ts.take(i), tick, key);
    lemma_bucket_sum_bounds(ts.take(i + 1), tick, key);
    lemma_trade_prefix(ts, i);
    assert(ts[i].wf());
    lemma_fits_smaller_scale(
        b.volume.units() + ts[i].quantity.units(),
        trade_scale(ts),
        max_nat(b.volume.scale as nat, ts[i].quantity.scale as nat),
    );
}

/// The bucket that the `i`-th trade joins, updated, matches the longer prefix.
proof fn lemma_join(ts: Seq<Trade>, i: int, tick: Dec, b: Bucket, nb: Bucket)
    requires
        0 <= i < ts.len(),
        bucket_matches(b, ts.take(i), tick),
        b.price.units() == bucket_key(ts[i], tick),
        nb.price == b.price,
        nb.volume.wf(),
        nb.volume.units() == b.volume.units() + ts[i].quantity.units(),
        nb.volume.scale <= max_nat(b.volume.scale as nat, ts[i].quantity.scale as nat),
        nb.fills == b.fills + 1,
        nb.largest == (if ts[i].quantity.units() > b.largest.units() {
            ts[i].quantity
        } else {
            b.largest
        }),
        ts[i].wf(),
    ensures
        bucket_matches(nb, ts.take(i + 1), tick),
{
    reveal(bucket_matches);
    lemma_take_next(ts, i);
}

/// A fresh bucket for the `i`-th trade matches the longer prefix.
proof fn lemma_fresh(ts: Seq<Trade>, i: int, tick: Dec, nb: Bucket)
    requires
        0 <= i < ts.len(),
        ts[i].wf(),
        nb.price.wf(),
        nb.price.units() == bucket_key(ts[i], tick),
        nb.volume == ts[i].quantity,
        nb.largest == ts[i].quantity,
        nb.fills == 1,
        bucket_sum(ts.take(i), tick, bucket_key(ts[i], tick)) == 0,
        bucket_count(ts.take(i), tick, bucket_key(ts[i], tick)) == 0,
        bucket_largest(ts.take(i), tick, bucket_key(ts[i], tick)) == 0,
    ensures
        bucket_matches(nb, ts.take(i + 1), tick),
{
    reveal(bucket_matches);
    lemma_take_next(ts, i);
}

/// Records the `i`-th trade in its bucket.
fn record_trade(bs: &mut Vec<Bucket>, trades: &[Trade], i: usize, tick: &Dec)
    requires
        trades_fit(trades@),
        i < trades@.len(),
        buckets_of(old(bs)@, trades@.take(i as int), *tick),
        volume_total(old(bs)@) == trade_sum(trades@.take(i as int)),
        bucketable(trades@, *tick),
    ensures
        buckets_of(final(bs)@, trades@.take(i + 1), *tick),
        volume_total(final(bs)@) == trade_sum(trades@.take(i + 1)),
{
    let ghost ts = trades@;
    let t = trades[i];
    proof {
        lemma_trade_prefix(ts, 0);
        assert(ts[i as int].wf());
        assert(quotient_in_range(ts[i as int].price, *tick));
        lemma_prices_wf(bs@, ts.take(i as int), *tick);
    }
    let k = bucket_price(&t, tick);
    let p = find_position(bs, &k);
    let ghost old_bs = bs@;
    if p < bs.len() && bs[p].price.le(&k) {
        let b = bs[p];
        proof {
            lemma_join_facts(ts, i as int, *tick, old_bs, p as int);
        }
        let volume = decimal_add(&b.volume, &t.quantity);
        let largest = if t.quantity.gt(&b.largest) {
            t.quantity
        } else {
            b.largest
        };
        let nb = Bucket { price: b.price, volume, fills: b.fills + 1, largest };
        proof {
            reveal(buckets_exact);
            lemma_join(ts, i as int, *tick, b, nb);
        }
        bs.set(p, nb);
        proof {
            lemma_update_step(ts, i as int, *tick, old_bs, bs@, p as int);
            lemma_total_update(old_bs, p as int, nb);
            lemma_take_next(ts, i as int);
        }
    } else {
        proof {
            lemma_new_key(ts, i as int, *tick, old_bs, p as int);
        }
        let nb = Bucket { price: k, volume: t.quantity, fills: 1, largest: t.quantity };
        proof {
            lemma_fresh(ts, i as int, *tick, nb);
            lemma_insert_step(ts, i as int, *tick, old_bs, nb, p as int);
            lemma_total_insert(old_bs, p as int, nb);
            lemma_take_next(ts, i as int);
        }
        bs.insert(p, nb);
    }
}

/// Each bucket's decimals are well formed and it has at least one fill.
pub proof fn lemma_bucket_fields(bs: Seq<Bucket>, ts: Seq<Trade>, tick: Dec)
    requires
        buckets_exact(bs, ts, tick),
    ensures
        forall|x: int|
            0 <= x < bs.len() ==> {
                &&& (#[trigger] bs[x]).volume.wf()
                &&& bs[x].largest.wf()
                &&& bs[x].fills >= 1
            },
{
    reveal(buckets_exact);
    reveal(bucket_matches);
    assert forall|x: int| 0 <= x < bs.len() implies (#[trigger] bs[x]).volume.wf() && bs[x].largest.wf()
        && bs[x].fills >= 1 by {
        assert(bucket_matches(bs[x], ts, tick));
    }
}

/// Each bucket's volume has a scale no larger than the trades' largest quantity scale.
pub proof fn lemma_bucket_scales(bs: Seq<Bucket>, ts: Seq<Trade>, tick: Dec)
    requires
        buckets_exact(bs, ts, tick),
    ensures
        forall|j: int| 0 <= j < bs.len() ==> (#[trigger] bs[j]).volume.scale <= trade_scale(ts),
{
    reveal(buckets_exact);
    reveal(bucket_matches);
    assert forall|j: int| 0 <= j < bs.len() implies (#[trigger] bs[j]).volume.scale <= trade_scale(ts) by {
        assert(bucket_matches(bs[j], ts, tick));
    }
}

/// The trades grouped by bucket price, in ascending order of price.
pub fn group_trades(trades: &[Trade], tick: &Dec) -> (r: Vec<Bucket>)
    requires
        trades_fit(trades@),
        bucketable(trades@, *tick),
    ensures
        buckets_of(r@, trades@, *tick),
        volume_total(r@) == trade_sum(trades@),
{
    let ghost ts = trades@;
    let mut bs: Vec<Bucket> = Vec::new();
    let mut i: usize = 0;
    proof {
        lemma_no_buckets(ts, *tick);
    }
    while i < trades.len()
        invariant
            ts == trades@,
            trades_fit(ts),
            bucketable(ts, *tick),
            i <= ts.len(),
            buckets_of(bs@, ts.take(i as int), *tick),
            volume_total(bs@) == trade_sum(ts.take(i as int)),
        decreases ts.len() - i,
    {
        record_trade(&mut bs, trades, i, tick);
        i = i + 1;
    }
    assert(ts.take(ts.len() as int) =~= ts);
    bs
}

} // verus!
