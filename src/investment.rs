//! The best single buy-then-sell trade over a series of daily price
//! changes (a maximum-sum segment scan).
use vstd::prelude::*;

verus! {

/// A trade: bought at the end of `buy_day`, or at the start when it is day
/// 0 and day 0's change counts; sold at the end of `sell_day`.
#[derive(Debug, Clone, Copy, PartialEq, Eq, Structural)]
pub struct Investment {
    pub buy_day: usize,
    pub sell_day: usize,
}

/// The total change over the days `a..b`.
pub open spec fn seg(v: Seq<i32>, a: int, b: int) -> int
    decreases b - a,
{
    if b <= a {
        0
    } else {
        seg(v, a, b - 1) + v[b - 1] as int
    }
}

/// Holding over the days `a..=s` gains the most of any holding, no holding
/// that ends before day `s` gains as much, and no later start gains as
/// much by day `s`.
pub open spec fn best_trade(v: Seq<i32>, a: int, s: int) -> bool {
    &&& 0 <= a <= s < v.len()
    &&& forall|x: int, y: int| 0 <= x <= y <= v.len() ==> #[trigger] seg(v, x, y) <= seg(v, a, s + 1)
    &&& forall|x: int, y: int| 0 <= x <= y <= s ==> #[trigger] seg(v, x, y) < seg(v, a, s + 1)
    &&& forall|x: int| a < x <= s ==> #[trigger] seg(v, x, s + 1) < seg(v, a, s + 1)
}

/// `inv` is a best trade, its buy day being the day before the holding
/// starts, or day 0 for a holding from the first day.
pub open spec fn trade_found(v: Seq<i32>, inv: Investment) -> bool {
    exists|a: int|
        #[trigger] best_trade(v, a, inv.sell_day as int) && ((a == 0 && inv.buy_day == 0) || a
            == inv.buy_day + 1)
}

/// The most profitable trade, or `None` when there are fewer than two days
/// or no holding gains anything.
pub fn get_best_investment(diff_points: &[i32]) -> (r: Option<Investment>)
    ensures
        r is None <==> (diff_points@.len() < 2 || forall|x: int, y: int|
            0 <= x <= y <= diff_points@.len() ==> #[trigger] seg(diff_points@, x, y) <= 0),
        r matches Some(inv) ==> trade_found(diff_points@, inv),
{
    let ghost v = diff_points@;
    let n = diff_points.len();
    if n < 2 {
        return None;
    }
    let mut last_zero_point_index: usize = 0;
    let mut max_profit_value: i128 = 0;
    let mut max_profit_zero_point_index: usize = 0;
    let mut max_profit_last_index: usize = 1;
    let mut current_value: i128 = 0;
    let ghost mut st: int = 0;
    let ghost mut best_st: int = 0;
    let mut i: usize = 0;
    while i < n
        invariant
            v == diff_points@,
            n == v.len(),
            i <= n,
            0 <= st <= i,
            (st == 0 && last_zero_point_index == 0) || st == last_zero_point_index + 1,
            current_value == seg(v, st, i as int),
            0 <= current_value <= i * 0x8000_0000,
            forall|a: int| 0 <= a <= i ==> #[trigger] seg(v, a, i as int) <= current_value,
            forall|a: int| st < a <= i ==> #[trigger] seg(v, a, i as int) < current_value,
            0 <= max_profit_value <= i * 0x8000_0000,
            forall|x: int, y: int| 0 <= x <= y <= i ==> #[trigger] seg(v, x, y) <= max_profit_value,
            max_profit_value > 0 ==> {
                &&& max_profit_last_index < i
                &&& (best_st == 0 && max_profit_zero_point_index == 0) || best_st
                    == max_profit_zero_point_index + 1
                &&& 0 <= best_st <= max_profit_last_index
                &&& seg(v, best_st, max_profit_last_index + 1) == max_profit_value
                &&& forall|x: int, y: int|
                    0 <= x <= y <= max_profit_last_index ==> #[trigger] seg(v, x, y)
                        < max_profit_value
                &&& forall|x: int|
                    best_st < x <= max_profit_last_index ==> #[trigger] seg(
                        v,
                        x,
                        max_profit_last_index + 1,
                    ) < max_profit_value
            },
        decreases n - i,
    {
        let value = diff_points[i] as i128;
        proof {
            assert forall|a: int| 0 <= a <= i implies #[trigger] seg(v, a, i + 1) == seg(v, a, i as int)
                + value by {}
        }
        if current_value + value <= 0 {
            current_value = 0;
            last_zero_point_index = i;
            proof {
                st = i + 1;
            }
        } else {
            current_value = current_value + value;
        }
        if current_value > max_profit_value {
            max_profit_value = current_value;
            max_profit_last_index = i;
            max_profit_zero_point_index = last_zero_point_index;
            proof {
                best_st = st;
            }
        }
        i = i + 1;
        proof {
            assert forall|x: int, y: int| 0 <= x <= y <= i implies #[trigger] seg(v, x, y)
                <= max_profit_value by {
                if y == i {
                    assert(seg(v, x, i as int) <= current_value);
                }
            }
        }
    }
    if max_profit_value == 0 {
        return None;
    }
    let inv = Investment { buy_day: max_profit_zero_point_index, sell_day: max_profit_last_index };
    assert(best_trade(v, best_st, inv.sell_day as int));
    assert(trade_found(v, inv));
    Some(inv)
}

} // verus!
