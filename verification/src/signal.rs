//! The momentum signal and the exposure it gives.
//!
//! Time alignment: with `n` prices there are `n - 1` daily returns, and
//! `returns[j]` is the return earned over day `j + 1`. The position
//! `positions[j]` is held over that same day and is decided at the close of
//! day `j`, from prices no later than day `j`: there is no look-ahead.

use vstd::prelude::*;
use crate::price;
use crate::price::price_above;

verus! {

/// Position value meaning "flat" (in cash, earning nothing).
pub const FLAT: u8 = 0;

/// Position value meaning "long" (earning the day's return).
pub const LONG: u8 = 1;

/// Number of daily returns a series of `n` prices gives.
pub open spec fn return_count(n: nat) -> nat {
    if n < 2 {
        0
    } else {
        (n - 1) as nat
    }
}

/// The position held over day `j + 1`: long iff `lookback` days of history
/// exist and the close of day `j` is above the close `lookback` days earlier.
pub open spec fn position_at(prices: Seq<u64>, lookback: nat, j: int) -> u8 {
    if j >= lookback && price::price_gt(prices[j], prices[j - lookback]) {
        LONG
    } else {
        FLAT
    }
}

/// Momentum positions aligned with the daily returns of `prices` (daily
/// closes, each given as its binary64 bit pattern), each `LONG` or `FLAT`;
/// the first `lookback` of them are `FLAT`.
pub fn momentum_positions(prices: &[u64], lookback: usize) -> (positions: Vec<u8>)
    ensures
        positions.len() == return_count(prices@.len()),
        forall|j: int|
            0 <= j < positions.len() ==> #[trigger] positions@[j] == position_at(
                prices@,
                lookback as nat,
                j,
            ),
        forall|j: int|
            0 <= j < positions.len() ==> #[trigger] positions@[j] == LONG || positions@[j] == FLAT,
        forall|j: int| 0 <= j < positions.len() && j < lookback ==> #[trigger] positions@[j] == FLAT,
        forall|j: int|
            0 <= j < positions.len() && j >= lookback ==> (#[trigger] positions@[j] == LONG
                <==> price::price_gt(prices@[j], prices@[j - lookback])),
{
    let mut positions: Vec<u8> = Vec::new();
    if prices.len() < 2 {
        return positions;
    }
    let n_ret = prices.len() - 1;
    let mut j: usize = 0;
    while j < n_ret
        invariant
            n_ret == prices@.len() - 1,
            j <= n_ret,
            positions.len() == j,
            forall|k: int|
                0 <= k < j ==> #[trigger] positions@[k] == position_at(
                    prices@,
                    lookback as nat,
                    k,
                ),
        decreases n_ret - j,
    {
        let long = j >= lookback && price_above(prices[j], prices[j - lookback]);
        positions.push(if long { LONG } else { FLAT });
        j = j + 1;
    }
    positions
}

/// Number of days on which a position is held (greater than zero).
pub open spec fn long_count(positions: Seq<u8>) -> nat
    decreases positions.len(),
{
    if positions.len() == 0 {
        0
    } else {
        long_count(positions.drop_last()) + if positions.last() > 0 {
            1nat
        } else {
            0nat
        }
    }
}

/// Every position is `LONG` or `FLAT`, and the first `lookback` of them,
/// for which no close `lookback` days earlier exists, are `FLAT`.
pub proof fn lemma_warmup_is_flat(prices: Seq<u64>, lookback: nat, j: int)
    requires
        0 <= j < return_count(prices.len()),
    ensures
        position_at(prices, lookback, j) == LONG || position_at(prices, lookback, j) == FLAT,
        j < lookback ==> position_at(prices, lookback, j) == FLAT,
{
}

/// The position held over day `j + 1` is decided by two closes alone: that
/// of day `j` and that of `lookback` days earlier. Two histories that agree
/// on those closes give the same position, whatever their other closes.
pub proof fn lemma_position_depends_on_two_closes(
    a: Seq<u64>,
    b: Seq<u64>,
    lookback: nat,
    j: int,
)
    requires
        0 <= j < a.len(),
        j < b.len(),
        a[j] == b[j],
        j >= lookback ==> a[j - lookback] == b[j - lookback],
    ensures
        position_at(a, lookback, j) == position_at(b, lookback, j),
{
}

/// After the warm-up the position is long exactly when the close is above
/// the close `lookback` days earlier: a close at or below it (neither being
/// a NaN) gives a flat day.
pub proof fn lemma_position_decision(prices: Seq<u64>, lookback: nat, j: int)
    requires
        lookback <= j < prices.len(),
    ensures
        position_at(prices, lookback, j) == LONG <==> price::price_gt(
            prices[j],
            prices[j - lookback],
        ),
        price::price_le(prices[j], prices[j - lookback]) ==> position_at(prices, lookback, j)
            == FLAT,
{
    price::lemma_price_order_total(prices[j], prices[j - lookback]);
}

/// How many of `positions` are long.
pub fn days_long(positions: &[u8]) -> (days: usize)
    ensures
        days == long_count(positions@),
        days == positions@.filter(|p: u8| p > 0).len(),
        days <= positions@.len(),
        (forall|i: int| 0 <= i < positions@.len() ==> #[trigger] positions@[i] > 0) ==> days
            == positions@.len(),
{
    let mut days: usize = 0;
    let mut i: usize = 0;
    while i < positions.len()
        invariant
            i <= positions@.len(),
            days == long_count(positions@.take(i as int)),
            days <= i,
        decreases positions@.len() - i,
    {
        assert(positions@.take(i as int) =~= positions@.take((i + 1) as int).drop_last());
        if positions[i] > 0 {
            days = days + 1;
        }
        i = i + 1;
    }
    assert(positions@.take(positions@.len() as int) =~= positions@);
    proof {
        lemma_long_count_is_positive_count(positions@);
        lemma_long_count_bounded(positions@);
        lemma_long_count_extremes(positions@);
    }
    days
}

/// The number of long days never exceeds the number of days.
pub proof fn lemma_long_count_bounded(positions: Seq<u8>)
    ensures
        long_count(positions) <= positions.len(),
    decreases positions.len(),
{
    if positions.len() > 0 {
        lemma_long_count_bounded(positions.drop_last());
    }
}

/// The long count is the number of positive positions: the length of the
/// subsequence of positions above zero.
pub proof fn lemma_long_count_is_positive_count(positions: Seq<u8>)
    ensures
        long_count(positions) == positions.filter(|p: u8| p > 0).len(),
    decreases positions.len(),
{
    reveal(Seq::filter);
    if positions.len() > 0 {
        lemma_long_count_is_positive_count(positions.drop_last());
    }
}

/// Counting long days over two stretches of days adds up.
pub proof fn lemma_long_count_additive(s: Seq<u8>, t: Seq<u8>)
    ensures
        long_count(s + t) == long_count(s) + long_count(t),
    decreases t.len(),
{
    if t.len() == 0 {
        assert(s + t =~= s);
    } else {
        lemma_long_count_additive(s, t.drop_last());
        assert((s + t).drop_last() =~= s + t.drop_last());
    }
}

/// Positions that are all long count as that many long days, and positions
/// that are all flat as none.
pub proof fn lemma_long_count_extremes(positions: Seq<u8>)
    ensures
        (forall|i: int| 0 <= i < positions.len() ==> #[trigger] positions[i] > 0) ==> long_count(
            positions,
        ) == positions.len(),
        (forall|i: int| 0 <= i < positions.len() ==> #[trigger] positions[i] == 0) ==> long_count(
            positions,
        ) == 0,
    decreases positions.len(),
{
    if positions.len() > 0 {
        let init = positions.drop_last();
        assert(forall|i: int| 0 <= i < init.len() ==> init[i] == #[trigger] positions[i]);
        lemma_long_count_extremes(init);
    }
}

/// No look-ahead: the position held over day `j + 1` is the same for any two
/// price histories that agree up to and including day `j`, whatever prices
/// follow.
pub proof fn lemma_no_lookahead(a: Seq<u64>, b: Seq<u64>, lookback: nat, j: int)
    requires
        0 <= j < return_count(a.len()),
        0 <= j < return_count(b.len()),
        a.take(j + 1) == b.take(j + 1),
    ensures
        position_at(a, lookback, j) == position_at(b, lookback, j),
{
    assert(a[j] == a.take(j + 1)[j]);
    assert(b[j] == b.take(j + 1)[j]);
    if j >= lookback {
        assert(a[j - lookback] == a.take(j + 1)[j - lookback]);
        assert(b[j - lookback] == b.take(j + 1)[j - lookback]);
    }
}

/// Each close is strictly above the one before it.
pub open spec fn strictly_rising(prices: Seq<u64>) -> bool {
    forall|i: int| 0 <= i < prices.len() - 1 ==> #[trigger] price::price_gt(prices[i + 1], prices[i])
}

/// No close is above the one before it (and none is a NaN).
pub open spec fn never_rising(prices: Seq<u64>) -> bool {
    forall|i: int| 0 <= i < prices.len() - 1 ==> #[trigger] price::price_le(prices[i + 1], prices[i])
}

proof fn lemma_rising_spans(prices: Seq<u64>, i: int, k: int)
    requires
        strictly_rising(prices),
        0 <= i < k < prices.len(),
    ensures
        price::price_gt(prices[k], prices[i]),
    decreases k - i,
{
    assert(price::price_gt(prices[(k - 1) + 1], prices[k - 1]));
    if i < k - 1 {
        lemma_rising_spans(prices, i, k - 1);
        price::lemma_price_gt_transitive(prices[k], prices[k - 1], prices[i]);
    }
}

proof fn lemma_falling_spans(prices: Seq<u64>, i: int, k: int)
    requires
        never_rising(prices),
        0 <= i < k < prices.len(),
    ensures
        price::price_le(prices[k], prices[i]),
    decreases k - i,
{
    assert(price::price_le(prices[(k - 1) + 1], prices[k - 1]));
    if i < k - 1 {
        lemma_falling_spans(prices, i, k - 1);
        price::lemma_price_le_transitive(prices[k], prices[k - 1], prices[i]);
    }
}

/// In a strictly rising market every position after the warm-up is long
/// (given a look-back of at least one day).
pub proof fn lemma_rising_market_is_long(prices: Seq<u64>, lookback: nat, j: int)
    requires
        strictly_rising(prices),
        lookback >= 1,
        lookback <= j < return_count(prices.len()),
    ensures
        position_at(prices, lookback, j) == LONG,
{
    lemma_rising_spans(prices, j - lookback, j);
}

/// In a market that never rises every position is flat.
pub proof fn lemma_falling_market_is_flat(prices: Seq<u64>, lookback: nat, j: int)
    requires
        never_rising(prices),
        0 <= j < return_count(prices.len()),
    ensures
        position_at(prices, lookback, j) == FLAT,
{
    if j >= lookback {
        if lookback == 0 {
            price::lemma_price_order_total(prices[j], prices[j]);
        } else {
            lemma_falling_spans(prices, j - lookback, j);
            price::lemma_price_order_total(prices[j], prices[j - lookback]);
        }
    }
}

} // verus!
