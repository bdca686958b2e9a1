//! Order-book metrics: best prices, spread, mid price, depth volume and imbalance.
use crate::decimal::{
    abs, decimal_add, decimal_div, decimal_saturating_mul, decimal_sub, fits_at, is_quotient,
    lemma_fits_smaller_scale, lemma_wf_fits, max_nat, pow10, product, quotient, Dec, MAX_MANTISSA,
};
use crate::sums::{
    lemma_level_prefix, level_scale, level_sum, levels_fit, sum_level_quantities, within_depth,
};
use crate::types::{Level, OrderBook};
use vstd::prelude::*;

verus! {

/// The value one hundred.
pub open spec fn hundred() -> Dec {
    Dec { mantissa: 100, scale: 0 }
}

/// The value two.
pub open spec fn two() -> Dec {
    Dec { mantissa: 2, scale: 0 }
}

/// What `calculate_spread` needs: well-formed best prices, a non-zero best bid, and a
/// spread and a spread ratio that stay inside the decimal range.
pub open spec fn spread_in_range(book: OrderBook) -> bool {
    book.bids@.len() > 0 && book.asks@.len() > 0 ==> {
        let bid = book.bids@[0].price;
        let ask = book.asks@[0].price;
        &&& bid.wf()
        &&& ask.wf()
        &&& fits_at(ask.units() - bid.units(), max_nat(ask.scale as nat, bid.scale as nat))
        &&& bid.units() != 0
        &&& (2 * abs(ask.units() - bid.units()) <= MAX_MANTISSA * abs(bid.units()) || abs(
            bid.units(),
        ) >= pow10(28))
    }
}

/// The bid-ask spread and the spread as a percentage of the best bid; `None` when a side is
/// empty.
pub fn calculate_spread(orderbook: &OrderBook) -> (r: Option<(Dec, Dec)>)
    requires
        spread_in_range(*orderbook),
    ensures
        orderbook.bids@.len() == 0 || orderbook.asks@.len() == 0 <==> r is None,
        r matches Some((spread, pct)) ==> {
            let bid = orderbook.bids@[0].price;
            let ask = orderbook.asks@[0].price;
            &&& spread.wf()
            &&& spread.units() == ask.units() - bid.units()
            &&& pct == product(quotient(spread, bid), hundred())
        },
{
    if orderbook.bids.len() == 0 || orderbook.asks.len() == 0 {
        return None;
    }
    let bid = orderbook.bids[0].price;
    let ask = orderbook.asks[0].price;
    let spread = decimal_sub(&ask, &bid);
    let ratio = decimal_div(&spread, &bid);
    let pct = decimal_saturating_mul(&ratio, &Dec { mantissa: 100, scale: 0 });
    Some((spread, pct))
}

/// The number of levels that a depth limit keeps.
fn depth_count(len: usize, depth: Option<usize>) -> (r: usize)
    ensures
        r <= len,
        forall|ls: Seq<Level>| ls.len() == len ==> #[trigger] within_depth(ls, depth) =~= ls.take(r as int),
{
    match depth {
        Some(d) => if d < len {
            d
        } else {
            len
        },
        None => len,
    }
}

/// The summed quantity of the first `depth` levels (all of them when `depth` is absent).
pub fn total_volume(levels: &[Level], depth: Option<usize>) -> (r: Dec)
    requires
        levels_fit(levels@),
    ensures
        r.wf(),
        r.units() == level_sum(within_depth(levels@, depth)),
{
    let n = depth_count(levels.len(), depth);
    assert(within_depth(levels@, depth) =~= levels@.take(n as int));
    sum_level_quantities(levels, n)
}

/// What `calculate_imbalance` needs: both sides well formed, and their summed quantities,
/// together, held as a decimal.
pub open spec fn imbalance_in_range(book: OrderBook) -> bool {
    &&& levels_fit(book.bids@)
    &&& levels_fit(book.asks@)
    &&& fits_at(
        level_sum(book.bids@) + level_sum(book.asks@),
        max_nat(level_scale(book.bids@), level_scale(book.asks@)),
    )
}

/// What `calculate_imbalance` returns: zero when both depth-limited volumes are zero, else
/// the decimal quotient of their difference by their sum, of the sign of the difference.
pub open spec fn imbalance_result(book: OrderBook, depth: Option<usize>, r: Dec) -> bool {
    let b = level_sum(within_depth(book.bids@, depth));
    let a = level_sum(within_depth(book.asks@, depth));
    &&& r.wf()
    &&& b + a == 0 ==> r.units() == 0
    &&& b + a != 0 ==> is_quotient(r, b - a, b + a)
    &&& b >= a ==> r.units() >= 0
    &&& b <= a ==> r.units() <= 0
}

/// The imbalance is zero when both sides are empty within the depth; it divides a
/// difference no larger in magnitude than the sum it is divided by (so its exact value lies
/// in `[-1, 1]`); and it is not negative when the bid side holds at least as much as the ask
/// side, not positive when it holds at most as much.
pub proof fn law_imbalance_bounds(book: OrderBook, depth: Option<usize>, r: Dec)
    requires
        imbalance_in_range(book),
        imbalance_result(book, depth, r),
    ensures
        ({
            let b = level_sum(within_depth(book.bids@, depth));
            let a = level_sum(within_depth(book.asks@, depth));
            &&& b + a == 0 ==> r.units() == 0
            &&& abs(b - a) <= b + a
            &&& b + a != 0 ==> is_quotient(r, b - a, b + a)
            &&& b >= a ==> r.units() >= 0
            &&& b <= a ==> r.units() <= 0
        }),
{
    let nb = depth_len(book.bids@.len(), depth);
    let na = depth_len(book.asks@.len(), depth);
    assert(within_depth(book.bids@, depth) =~= book.bids@.take(nb));
    assert(within_depth(book.asks@, depth) =~= book.asks@.take(na));
    lemma_level_prefix(book.bids@, nb);
    lemma_level_prefix(book.asks@, na);
}

/// The number of levels that a depth limit keeps, as a spec value.
pub open spec fn depth_len(len: nat, depth: Option<usize>) -> int {
    match depth {
        Some(d) => if d < len {
            d as int
        } else {
            len as int
        },
        None => len as int,
    }
}

/// `(bid_volume - ask_volume) / (bid_volume + ask_volume)` over the first `depth` levels of
/// each side; zero when both volumes are zero.
pub fn calculate_imbalance(orderbook: &OrderBook, depth: Option<usize>) -> (r: Dec)
    requires
        imbalance_in_range(*orderbook),
    ensures
        imbalance_result(*orderbook, depth, r),
{
    let bids = orderbook.bids.as_slice();
    let asks = orderbook.asks.as_slice();
    let nb = depth_count(bids.len(), depth);
    let na = depth_count(asks.len(), depth);
    let bid_volume = sum_level_quantities(bids, nb);
    let ask_volume = sum_level_quantities(asks, na);
    proof {
        lemma_level_prefix(bids@, nb as int);
        lemma_level_prefix(asks@, na as int);
        let s = max_nat(level_scale(bids@), level_scale(asks@));
        let t = max_nat(bid_volume.scale as nat, ask_volume.scale as nat);
        lemma_fits_smaller_scale(bid_volume.units() + ask_volume.units(), s, t);
        lemma_fits_smaller_scale(bid_volume.units() - ask_volume.units(), s, t);
    }
    let total = decimal_add(&bid_volume, &ask_volume);
    if total.is_zero() {
        return Dec::zero();
    }
    let diff = decimal_sub(&bid_volume, &ask_volume);
    let r = decimal_div(&diff, &total);
    assert(is_quotient(r, diff.units(), total.units())) by {
        assert(diff.wf() && total.wf() && r == quotient(diff, total));
    }
    r
}

/// The best bid price, if there is a bid.
pub fn best_bid(orderbook: &OrderBook) -> (r: Option<Dec>)
    ensures
        r == (if orderbook.bids@.len() > 0 {
            Some(orderbook.bids@[0].price)
        } else {
            None
        }),
{
    if orderbook.bids.len() > 0 {
        Some(orderbook.bids[0].price)
    } else {
        None
    }
}

/// The best ask price, if there is an ask.
pub fn best_ask(orderbook: &OrderBook) -> (r: Option<Dec>)
    ensures
        r == (if orderbook.asks@.len() > 0 {
            Some(orderbook.asks@[0].price)
        } else {
            None
        }),
{
    if orderbook.asks.len() > 0 {
        Some(orderbook.asks[0].price)
    } else {
        None
    }
}

/// What `mid_price` needs: well-formed best prices whose sum can be held as a decimal.
pub open spec fn mid_in_range(book: OrderBook) -> bool {
    book.bids@.len() > 0 && book.asks@.len() > 0 ==> {
        let bid = book.bids@[0].price;
        let ask = book.asks@[0].price;
        &&& bid.wf()
        &&& ask.wf()
        &&& fits_at(bid.units() + ask.units(), max_nat(bid.scale as nat, ask.scale as nat))
    }
}

/// `(best_bid + best_ask) / 2`; `None` unless both sides have a level.
pub fn mid_price(orderbook: &OrderBook) -> (r: Option<Dec>)
    requires
        mid_in_range(*orderbook),
    ensures
        orderbook.bids@.len() == 0 || orderbook.asks@.len() == 0 <==> r is None,
        r matches Some(m) ==> exists|sum: Dec|
            {
                &&& sum.wf()
                &&& sum.units() == orderbook.bids@[0].price.units()
                    + orderbook.asks@[0].price.units()
                &&& m == #[trigger] quotient(sum, two())
            },
{
    match (best_bid(orderbook), best_ask(orderbook)) {
        (Some(bid), Some(ask)) => {
            let sum = decimal_add(&bid, &ask);
            let divisor = Dec { mantissa: 2, scale: 0 };
            proof {
                lemma_wf_fits(sum);
                crate::decimal::lemma_pow10_values();
                assert(divisor.units() == 2 * crate::decimal::pow10(28));
            }
            let m = decimal_div(&sum, &divisor);
            assert(divisor == two());
            assert(m == quotient(sum, two()));
            Some(m)
        },
        _ => None,
    }
}

} // verus!
