//! Sums of quantities over levels and trades, and the facts about prefixes of them.
use crate::decimal::{abs, fits_at, lemma_fits_smaller_scale, max_nat, pow10, Dec, MAX_MANTISSA};
use crate::types::{Level, Side, Trade};
use vstd::prelude::*;

verus! {

/// The summed quantity of the levels.
pub open spec fn level_sum(ls: Seq<Level>) -> int
    decreases ls.len(),
{
    if ls.len() == 0 {
        0
    } else {
        level_sum(ls.drop_last()) + ls.last().quantity.units()
    }
}

/// The largest quantity scale among the levels.
pub open spec fn level_scale(ls: Seq<Level>) -> nat
    decreases ls.len(),
{
    if ls.len() == 0 {
        0
    } else {
        max_nat(level_scale(ls.drop_last()), ls.last().quantity.scale as nat)
    }
}

/// Every level is well formed.
pub open spec fn levels_wf(ls: Seq<Level>) -> bool {
    forall|i: int| 0 <= i < ls.len() ==> (#[trigger] ls[i]).wf()
}

/// Every level is well formed and the summed quantity can be held as a decimal.
pub open spec fn levels_fit(ls: Seq<Level>) -> bool {
    levels_wf(ls) && fits_at(level_sum(ls), level_scale(ls))
}

/// The first `depth` levels, or all of them when `depth` is absent.
pub open spec fn within_depth(ls: Seq<Level>, depth: Option<usize>) -> Seq<Level> {
    match depth {
        Some(d) => if d < ls.len() {
            ls.take(d as int)
        } else {
            ls
        },
        None => ls,
    }
}

pub proof fn lemma_level_prefix(ls: Seq<Level>, i: int)
    requires
        levels_wf(ls),
        0 <= i <= ls.len(),
    ensures
        0 <= level_sum(ls.take(i)) <= level_sum(ls),
        level_scale(ls.take(i)) <= level_scale(ls),
    decreases ls.len(),
{
    if i == ls.len() {
        assert(ls.take(i) =~= ls);
        lemma_level_sum_nonneg(ls);
    } else {
        let p = ls.drop_last();
        assert(ls.take(i) =~= p.take(i));
        assert(levels_wf(p)) by {
            assert forall|j: int| 0 <= j < p.len() implies (#[trigger] p[j]).wf() by {
                assert(p[j] == ls[j]);
            }
        }
        lemma_level_prefix(p, i);
        assert(ls.last() == ls[ls.len() - 1]);
    }
}

pub proof fn lemma_level_sum_nonneg(ls: Seq<Level>)
    requires
        levels_wf(ls),
    ensures
        level_sum(ls) >= 0,
    decreases ls.len(),
{
    if ls.len() > 0 {
        let p = ls.drop_last();
        assert(levels_wf(p)) by {
            assert forall|j: int| 0 <= j < p.len() implies (#[trigger] p[j]).wf() by {
                assert(p[j] == ls[j]);
            }
        }
        lemma_level_sum_nonneg(p);
        assert(ls.last() == ls[ls.len() - 1]);
    }
}

/// Adds up the quantities of the first `n` levels.
pub fn sum_level_quantities(levels: &[Level], n: usize) -> (r: Dec)
    requires
        levels_fit(levels@),
        n <= levels@.len(),
    ensures
        r.wf(),
        r.units() == level_sum(levels@.take(n as int)),
        r.scale <= level_scale(levels@.take(n as int)),
{
    let mut acc = Dec::zero();
    let mut i: usize = 0;
    while i < n
        invariant
            levels_fit(levels@),
            n <= levels@.len(),
            i <= n,
            acc.wf(),
            acc.units() == level_sum(levels@.take(i as int)),
            acc.scale <= level_scale(levels@.take(i as int)),
        decreases n - i,
    {
        let q = levels[i].quantity;
        proof {
            let s = levels@;
            assert(s.take(i + 1).drop_last() =~= s.take(i as int));
            assert(s.take(i + 1).last() == s[i as int]);
            assert(s[i as int].wf());
            lemma_level_prefix(s, i + 1);
            lemma_level_prefix(s, i as int);
            lemma_fits_smaller_scale(
                level_sum(s.take(i + 1)),
                level_scale(s),
                max_nat(acc.scale as nat, q.scale as nat),
            );
        }
        acc = crate::decimal::decimal_add(&acc, &q);
        i = i + 1;
    }
    acc
}

/// The summed quantity of the trades on `side`.
pub open spec fn side_sum(ts: Seq<Trade>, side: Side) -> int
    decreases ts.len(),
{
    if ts.len() == 0 {
        0
    } else {
        side_sum(ts.drop_last(), side) + if ts.last().side == side {
            ts.last().quantity.units()
        } else {
            0
        }
    }
}

/// The summed quantity of all the trades.
pub open spec fn trade_sum(ts: Seq<Trade>) -> int
    decreases ts.len(),
{
    if ts.len() == 0 {
        0
    } else {
        trade_sum(ts.drop_last()) + ts.last().quantity.units()
    }
}

/// What one trade adds to the delta: its quantity for a buy, minus it for a sell.
pub open spec fn signed_quantity(t: Trade) -> int {
    match t.side {
        Side::Buy => t.quantity.units(),
        Side::Sell => -t.quantity.units(),
    }
}

/// Buy quantity minus sell quantity.
pub open spec fn delta_sum(ts: Seq<Trade>) -> int
    decreases ts.len(),
{
    if ts.len() == 0 {
        0
    } else {
        delta_sum(ts.drop_last()) + signed_quantity(ts.last())
    }
}

/// The largest quantity scale among the trades.
pub open spec fn trade_scale(ts: Seq<Trade>) -> nat
    decreases ts.len(),
{
    if ts.len() == 0 {
        0
    } else {
        max_nat(trade_scale(ts.drop_last()), ts.last().quantity.scale as nat)
    }
}

/// Every trade is well formed.
pub open spec fn trades_wf(ts: Seq<Trade>) -> bool {
    forall|i: int| 0 <= i < ts.len() ==> (#[trigger] ts[i]).wf()
}

/// Every trade is well formed and the summed quantity can be held as a decimal.
pub open spec fn trades_fit(ts: Seq<Trade>) -> bool {
    trades_wf(ts) && fits_at(trade_sum(ts), trade_scale(ts))
}

/// Price times quantity of one trade, counted in units of `10^-28`.
pub open spec fn notional(t: Trade) -> int {
    t.price.mantissa * t.quantity.mantissa * pow10((28 - t.price.scale - t.quantity.scale) as nat)
}

/// The product of price and quantity can be held as a decimal without rounding.
pub open spec fn notional_exact(t: Trade) -> bool {
    t.price.scale + t.quantity.scale <= 28 && abs(t.price.mantissa * t.quantity.mantissa)
        <= MAX_MANTISSA
}

/// The summed notional of the trades.
pub open spec fn notional_sum(ts: Seq<Trade>) -> int
    decreases ts.len(),
{
    if ts.len() == 0 {
        0
    } else {
        notional_sum(ts.drop_last()) + notional(ts.last())
    }
}

/// The summed magnitude of the trades' notionals.
pub open spec fn notional_abs_sum(ts: Seq<Trade>) -> int
    decreases ts.len(),
{
    if ts.len() == 0 {
        0
    } else {
        notional_abs_sum(ts.drop_last()) + abs(notional(ts.last()))
    }
}

/// The largest scale of a notional among the trades.
pub open spec fn notional_scale(ts: Seq<Trade>) -> nat
    decreases ts.len(),
{
    if ts.len() == 0 {
        0
    } else {
        max_nat(
            notional_scale(ts.drop_last()),
            (ts.last().price.scale + ts.last().quantity.scale) as nat,
        )
    }
}

/// Every notional is exact and their summed magnitude can be held as a decimal.
pub open spec fn notionals_fit(ts: Seq<Trade>) -> bool {
    &&& forall|i: int| 0 <= i < ts.len() ==> notional_exact(#[trigger] ts[i])
    &&& fits_at(notional_abs_sum(ts), notional_scale(ts))
}

pub proof fn lemma_trades_wf_prefix(ts: Seq<Trade>, i: int)
    requires
        trades_wf(ts),
        0 <= i <= ts.len(),
    ensures
        trades_wf(ts.take(i)),
{
    assert forall|j: int| 0 <= j < ts.take(i).len() implies (#[trigger] ts.take(i)[j]).wf() by {
        assert(ts.take(i)[j] == ts[j]);
    }
}

/// Prefix sums of non-negative quantities stay between zero and the whole sum, and
/// prefix scales stay below the whole scale.
pub proof fn lemma_trade_prefix(ts: Seq<Trade>, i: int)
    requires
        trades_wf(ts),
        0 <= i <= ts.len(),
    ensures
        0 <= side_sum(ts.take(i), Side::Buy) <= side_sum(ts, Side::Buy),
        0 <= side_sum(ts.take(i), Side::Sell) <= side_sum(ts, Side::Sell),
        side_sum(ts, Side::Buy) + side_sum(ts, Side::Sell) == trade_sum(ts),
        0 <= trade_sum(ts.take(i)) <= trade_sum(ts),
        abs(delta_sum(ts.take(i))) <= trade_sum(ts.take(i)),
        trade_scale(ts.take(i)) <= trade_scale(ts),
        0 <= notional_abs_sum(ts.take(i)) <= notional_abs_sum(ts),
        abs(notional_sum(ts.take(i))) <= notional_abs_sum(ts.take(i)),
        notional_scale(ts.take(i)) <= notional_scale(ts),
    decreases ts.len(),
{
    if i == ts.len() {
        assert(ts.take(i) =~= ts);
        if ts.len() > 0 {
            let p = ts.drop_last();
            lemma_trades_wf_prefix(ts, ts.len() - 1);
            assert(ts.take(ts.len() - 1) =~= p);
            lemma_trade_prefix(p, p.len() as int);
            assert(p.take(p.len() as int) =~= p);
            assert(ts.last() == ts[ts.len() - 1]);
        }
    } else {
        let p = ts.drop_last();
        assert(ts.take(i) =~= p.take(i));
        lemma_trades_wf_prefix(ts, ts.len() - 1);
        assert(ts.take(ts.len() - 1) =~= p);
        lemma_trade_prefix(p, i);
        lemma_trade_prefix(p, p.len() as int);
        assert(p.take(p.len() as int) =~= p);
        assert(ts.last() == ts[ts.len() - 1]);
    }
}

/// Taking one more trade adds that trade to each prefix sum.
pub proof fn lemma_take_next<T>(ts: Seq<T>, i: int)
    requires
        0 <= i < ts.len(),
    ensures
        ts.take(i + 1).drop_last() =~= ts.take(i),
        ts.take(i + 1).last() == ts[i],
        ts.take(i + 1).len() == i + 1,
{
}

} // verus!
