//! Filling a day: a budget of hours split over tickets.

use vstd::prelude::*;

use crate::report;

verus! {

pub open spec fn at_least_zero(v: int) -> int {
    if v > 0 {
        v
    } else {
        0
    }
}

/// The sum of the hours that are pinned.
pub open spec fn pinned(pins: Seq<Option<i64>>) -> int
    decreases pins.len(),
{
    if pins.len() == 0 {
        0
    } else {
        (match pins[0] {
            Some(h) => at_least_zero(h as int),
            None => 0,
        }) + pinned(pins.drop_first())
    }
}

/// The sum of the weights of the tickets whose hours are not pinned.
pub open spec fn free_weight(pins: Seq<Option<i64>>, weights: Seq<i64>) -> int
    decreases pins.len(),
{
    if pins.len() == 0 {
        0
    } else {
        (if pins[0] is None {
            at_least_zero(weights[0] as int)
        } else {
            0
        }) + free_weight(pins.drop_first(), weights.drop_first())
    }
}

/// The part of `left` that falls to a weight, out of `whole`.
pub open spec fn share(left: int, weight: int, whole: int) -> int {
    if whole == 0 {
        0
    } else {
        left * at_least_zero(weight) / whole
    }
}

/// Pinned tickets keep their hours. The others, one after the other, get the part
/// of what is left that falls to their weight among the weights that are left.
pub open spec fn shares(pins: Seq<Option<i64>>, weights: Seq<i64>, left: int) -> Seq<i64>
    decreases pins.len(),
{
    if pins.len() == 0 {
        Seq::empty()
    } else {
        let (own, rest) = match pins[0] {
            Some(h) => (h, left),
            None => {
                let s = share(left, weights[0] as int, free_weight(pins, weights));
                (s as i64, left - s)
            },
        };
        seq![own] + shares(pins.drop_first(), weights.drop_first(), rest)
    }
}

/// What the pinned tickets leave of a budget.
pub open spec fn left_over(pins: Seq<Option<i64>>, budget: int) -> int {
    at_least_zero(budget - pinned(pins))
}

/// A budget split over tickets.
pub open spec fn filled(pins: Seq<Option<i64>>, weights: Seq<i64>, budget: int) -> Seq<i64> {
    shares(pins, weights, left_over(pins, budget))
}

/// The hours that fall to the tickets that are not pinned.
pub open spec fn free_hours(pins: Seq<Option<i64>>, values: Seq<i64>) -> int
    decreases pins.len(),
{
    if pins.len() == 0 {
        0
    } else {
        (if pins[0] is None {
            values[0] as int
        } else {
            0
        }) + free_hours(pins.drop_first(), values.drop_first())
    }
}

proof fn lemma_free_weight_bound(pins: Seq<Option<i64>>, weights: Seq<i64>)
    ensures
        0 <= free_weight(pins, weights) <= pins.len() * i64::MAX,
    decreases pins.len(),
{
    if pins.len() > 0 {
        lemma_free_weight_bound(pins.drop_first(), weights.drop_first());
    }
}

proof fn lemma_pinned_bound(pins: Seq<Option<i64>>)
    ensures
        0 <= pinned(pins) <= pins.len() * i64::MAX,
    decreases pins.len(),
{
    if pins.len() > 0 {
        lemma_pinned_bound(pins.drop_first());
    }
}

/// A share is a part of what is left, and all of it where no other weight is.
proof fn lemma_share(left: int, weight: int, whole: int)
    requires
        0 <= left,
        at_least_zero(weight) <= whole,
    ensures
        0 <= share(left, weight, whole) <= left,
        at_least_zero(weight) == whole && whole > 0 ==> share(left, weight, whole) == left,
{
    let w = at_least_zero(weight);
    if whole > 0 {
        assert(0 <= left * w <= left * whole) by (nonlinear_arith)
            requires
                0 <= left,
                0 <= w <= whole,
        ;
        vstd::arithmetic::div_mod::lemma_div_multiples_vanish(left, whole);
        vstd::arithmetic::div_mod::lemma_div_is_ordered(0, left * w, whole);
        vstd::arithmetic::div_mod::lemma_div_is_ordered(left * w, left * whole, whole);
        assert(left * whole == whole * left) by (nonlinear_arith);
    }
}

proof fn lemma_shares_sum(pins: Seq<Option<i64>>, weights: Seq<i64>, left: int)
    requires
        pins.len() == weights.len(),
        0 <= left <= i64::MAX,
    ensures
        shares(pins, weights, left).len() == pins.len(),
        0 <= free_hours(pins, shares(pins, weights, left)) <= left,
        free_weight(pins, weights) > 0 ==> free_hours(pins, shares(pins, weights, left)) == left,
        forall|i: int|
            0 <= i < pins.len() && pins[i] is None ==> 0 <= #[trigger] shares(
                pins,
                weights,
                left,
            )[i] <= left,
        forall|i: int|
            0 <= i < pins.len() && pins[i] is Some ==> #[trigger] shares(pins, weights, left)[i]
                == pins[i]->0,
    decreases pins.len(),
{
    if pins.len() > 0 {
        let p = pins.drop_first();
        let w = weights.drop_first();
        lemma_free_weight_bound(p, w);
        let whole = free_weight(pins, weights);
        if pins[0] is None {
            lemma_share(left, weights[0] as int, whole);
        }
        let rest = if pins[0] is None {
            left - share(left, weights[0] as int, whole)
        } else {
            left
        };
        lemma_shares_sum(p, w, rest);
        let all = shares(pins, weights, left);
        let tail = shares(p, w, rest);
        assert(all.drop_first() =~= tail);
        assert forall|i: int| 0 <= i < pins.len() && pins[i] is None implies 0 <= #[trigger] all[i]
            <= left by {
            if i > 0 {
                assert(p[i - 1] == pins[i]);
                assert(all[i] == tail[i - 1]);
            }
        }
        assert forall|i: int| 0 <= i < pins.len() && pins[i] is Some implies #[trigger] all[i]
            == pins[i]->0 by {
            if i > 0 {
                assert(p[i - 1] == pins[i]);
                assert(all[i] == tail[i - 1]);
            }
        }
    }
}

/// A pinned ticket keeps its hours, whatever the budget.
pub proof fn law_pins_hold(
    pins: Seq<Option<i64>>,
    weights: Seq<i64>,
    budget: i64,
    i: int,
)
    requires
        pins.len() == weights.len(),
        0 <= i < pins.len(),
        pins[i] is Some,
    ensures
        filled(pins, weights, budget as int)[i] == pins[i]->0,
{
    lemma_pinned_bound(pins);
    lemma_shares_sum(pins, weights, left_over(pins, budget as int));
}

/// What the pinned tickets leave of the budget is handed out to the last
/// microsecond, and nobody gets less than nothing, where a ticket that is not
/// pinned has some weight.
pub proof fn law_budget_is_used_up(pins: Seq<Option<i64>>, weights: Seq<i64>, budget: i64)
    requires
        pins.len() == weights.len(),
        free_weight(pins, weights) > 0,
    ensures
        free_hours(pins, filled(pins, weights, budget as int)) == left_over(pins, budget as int),
        forall|i: int|
            0 <= i < pins.len() && pins[i] is None ==> 0 <= #[trigger] filled(
                pins,
                weights,
                budget as int,
            )[i],
{
    lemma_pinned_bound(pins);
    lemma_shares_sum(pins, weights, left_over(pins, budget as int));
}

/// One share of a budget, where `left` of it and `now` of the weights are left. All
/// is multiplied by `whole`: what is left exceeds the exact part of the budget by
/// `left * whole - budget * now`. The share exceeds its exact part by no more than
/// that, falls short of it by less than a microsecond, and so leaves no more than a
/// microsecond more to exceed.
proof fn lemma_share_error(left: int, w: int, now: int, budget: int, whole: int, s: int)
    requires
        0 <= w <= now <= whole,
        0 < now,
        0 <= left * whole - budget * now,
        s == left * w / now,
    ensures
        -whole < s * whole - budget * w <= left * whole - budget * now,
        0 <= (left - s) * whole - budget * (now - w),
        (left - s) * whole - budget * (now - w) <= left * whole - budget * now + whole,
{
    let e = left * whole - budget * now;
    let r = left * w % now;
    let d = s * whole - budget * w;
    vstd::arithmetic::div_mod::lemma_fundamental_div_mod(left * w, now);
    vstd::arithmetic::div_mod::lemma_mod_bound(left * w, now);
    assert(d * now == w * e - r * whole) by (nonlinear_arith)
        requires
            left * w == now * s + r,
            e == left * whole - budget * now,
            d == s * whole - budget * w,
    ;
    assert(d <= e) by (nonlinear_arith)
        requires
            d * now == w * e - r * whole,
            0 <= w <= now,
            0 < now <= whole,
            0 <= r,
            0 <= e,
    ;
    assert(d > -whole) by (nonlinear_arith)
        requires
            d * now == w * e - r * whole,
            0 <= w,
            0 < now <= whole,
            0 <= r < now,
            0 <= e,
    ;
    assert((left - s) * whole - budget * (now - w) == e - d) by (nonlinear_arith)
        requires
            e == left * whole - budget * now,
            d == s * whole - budget * w,
    ;
}

proof fn lemma_shares_error(
    pins: Seq<Option<i64>>,
    weights: Seq<i64>,
    left: int,
    budget: int,
    whole: int,
    before: int,
)
    requires
        pins.len() == weights.len(),
        0 <= left <= i64::MAX,
        0 <= before,
        0 <= free_weight(pins, weights) <= whole,
        0 < whole,
        0 <= left * whole - budget * free_weight(pins, weights) <= before * whole,
    ensures
        forall|i: int|
            0 <= i < pins.len() && pins[i] is None ==> -(before + pins.len()) * whole
                <= #[trigger] shares(pins, weights, left)[i] * whole - budget * at_least_zero(
                weights[i] as int,
            ) <= (before + pins.len()) * whole,
    decreases pins.len(),
{
    if pins.len() > 0 {
        let p = pins.drop_first();
        let w = weights.drop_first();
        let now = free_weight(pins, weights);
        let own = at_least_zero(weights[0] as int);
        let all = shares(pins, weights, left);
        let n = pins.len() as int;
        lemma_free_weight_bound(p, w);
        lemma_shares_sum(pins, weights, left);
        assert((before + 1) * whole == before * whole + whole) by (nonlinear_arith);
        assert(before * whole + whole <= (before + n) * whole) by (nonlinear_arith)
            requires
                0 < whole,
                1 <= n,
        ;
        assert(-(before + n) * whole == -((before + n) * whole)) by (nonlinear_arith);
        if pins[0] is None {
            let s = share(left, weights[0] as int, now);
            lemma_share(left, weights[0] as int, now);
            if now > 0 {
                lemma_share_error(left, own, now, budget, whole, s);
            } else {
                assert(own == 0);
                assert(s == 0);
                assert(budget * own == 0) by (nonlinear_arith)
                    requires
                        own == 0,
                ;
            }
            assert(before * whole >= 0) by (nonlinear_arith)
                requires
                    0 <= before,
                    0 < whole,
            ;
            lemma_shares_error(p, w, left - s, budget, whole, before + 1);
            assert(all =~= seq![s as i64] + shares(p, w, left - s));
            assert forall|i: int| 0 <= i < pins.len() && pins[i] is None implies -(before
                + pins.len()) * whole <= #[trigger] all[i] * whole - budget * at_least_zero(
                weights[i] as int,
            ) <= (before + pins.len()) * whole by {
                if i > 0 {
                    assert(p[i - 1] == pins[i] && w[i - 1] == weights[i]);
                    assert(all[i] == shares(p, w, left - s)[i - 1]);
                }
            }
        } else {
            lemma_shares_error(p, w, left, budget, whole, before);
            assert(all =~= seq![pins[0]->0] + shares(p, w, left));
            let m = p.len() as int;
            assert((before + m) * whole <= (before + n) * whole) by (nonlinear_arith)
                requires
                    0 < whole,
                    m <= n,
            ;
            assert(-(before + m) * whole == -((before + m) * whole)) by (nonlinear_arith);
            assert forall|i: int| 0 <= i < pins.len() && pins[i] is None implies -(before
                + pins.len()) * whole <= #[trigger] all[i] * whole - budget * at_least_zero(
                weights[i] as int,
            ) <= (before + pins.len()) * whole by {
                assert(p[i - 1] == pins[i] && w[i - 1] == weights[i]);
                assert(all[i] == shares(p, w, left)[i - 1]);
            }
        }
    }
}

/// A ticket that is not pinned gets the part of what the pinned ones leave that its
/// weight has in all the weights, to within a microsecond for each ticket.
pub proof fn law_shares_follow_weights(
    pins: Seq<Option<i64>>,
    weights: Seq<i64>,
    budget: i64,
    i: int,
)
    requires
        pins.len() == weights.len(),
        0 <= i < pins.len(),
        pins[i] is None,
        free_weight(pins, weights) > 0,
    ensures
        ({
            let whole = free_weight(pins, weights);
            let exact = left_over(pins, budget as int) * at_least_zero(weights[i] as int);
            let given = filled(pins, weights, budget as int)[i] * whole;
            exact - pins.len() * whole <= given <= exact + pins.len() * whole
        }),
{
    let whole = free_weight(pins, weights);
    let left = left_over(pins, budget as int);
    lemma_pinned_bound(pins);
    assert(left * whole - left * whole == 0);
    assert(0 * whole == 0);
    lemma_shares_error(pins, weights, left, left, whole, 0);
    let n = pins.len() as int;
    assert(-(0 + n) * whole == -(n * whole)) by (nonlinear_arith);
}

proof fn lemma_total(pins: Seq<Option<i64>>, values: Seq<i64>)
    requires
        pins.len() == values.len(),
        forall|i: int|
            0 <= i < pins.len() && (#[trigger] pins[i]) is Some ==> values[i] == pins[i]->0
                && pins[i]->0 >= 0,
    ensures
        report::total(values) == pinned(pins) + free_hours(pins, values),
    decreases pins.len(),
{
    if pins.len() > 0 {
        let p = pins.drop_first();
        let v = values.drop_first();
        assert forall|i: int| 0 <= i < p.len() && (#[trigger] p[i]) is Some implies v[i] == p[i]->0
            && p[i]->0 >= 0 by {
            assert(p[i] == pins[i + 1]);
        }
        lemma_total(p, v);
        let first = seq![values[0]];
        assert(values =~= first + v);
        report::lemma_total_add(first, v);
        assert(first.drop_last() =~= Seq::empty());
        assert(report::total(first) == report::total(first.drop_last()) + first.last());
        assert(pins[0] is Some ==> values[0] == pins[0]->0);
    }
}

/// The tickets add up to the budget, or to what the pinned ones take where that is
/// more, if a ticket that is not pinned has some weight.
pub proof fn law_tickets_add_up_to_the_budget(
    pins: Seq<Option<i64>>,
    weights: Seq<i64>,
    budget: i64,
)
    requires
        pins.len() == weights.len(),
        free_weight(pins, weights) > 0,
        budget >= 0,
        forall|i: int| 0 <= i < pins.len() && (#[trigger] pins[i]) is Some ==> pins[i]->0 >= 0,
    ensures
        report::total(filled(pins, weights, budget as int)) == (if pinned(pins) > budget {
            pinned(pins)
        } else {
            budget as int
        }),
{
    lemma_pinned_bound(pins);
    lemma_shares_sum(pins, weights, left_over(pins, budget as int));
    lemma_total(pins, filled(pins, weights, budget as int));
}

/// Splits a budget over tickets: pinned tickets keep their hours, and what they
/// leave of the budget falls to the others by their weights.
pub fn fill(pins: &Vec<Option<i64>>, weights: &Vec<i64>, budget: i64) -> (r: Vec<i64>)
    requires
        pins@.len() == weights@.len(),
    ensures
        r@ == filled(pins@, weights@, budget as int),
        r@.len() == pins@.len(),
{
    let n = pins.len();
    let mut fixed: u128 = 0;
    let mut whole: u128 = 0;
    let mut i: usize = n;
    assert(pins@.skip(n as int) =~= Seq::empty());
    while i > 0
        invariant
            i <= n,
            n == pins@.len(),
            n == weights@.len(),
            fixed == pinned(pins@.skip(i as int)),
            whole == free_weight(pins@.skip(i as int), weights@.skip(i as int)),
        decreases i,
    {
        i -= 1;
        proof {
            let p = pins@.skip(i as int);
            let w = weights@.skip(i as int);
            assert(p.drop_first() =~= pins@.skip(i + 1));
            assert(w.drop_first() =~= weights@.skip(i + 1));
            lemma_pinned_bound(p);
            lemma_free_weight_bound(p, w);
            assert(p.len() * i64::MAX <= 0x1_0000_0000_0000_0000 * i64::MAX) by (nonlinear_arith)
                requires
                    0 <= p.len() <= 0x1_0000_0000_0000_0000,
            ;
        }
        match pins[i] {
            Some(h) => {
                if h > 0 {
                    fixed += h as u128;
                }
            },
            None => {
                if weights[i] > 0 {
                    whole += weights[i] as u128;
                }
            },
        }
    }
    assert(pins@.skip(0) =~= pins@);
    assert(weights@.skip(0) =~= weights@);
    let mut left: i64 = if budget > 0 && (budget as u128) > fixed {
        budget - fixed as i64
    } else {
        0
    };
    let mut out: Vec<i64> = Vec::new();
    let ghost goal = filled(pins@, weights@, budget as int);
    while i < n
        invariant
            i <= n,
            n == pins@.len(),
            n == weights@.len(),
            left >= 0,
            whole == free_weight(pins@.skip(i as int), weights@.skip(i as int)),
            goal == out@ + shares(pins@.skip(i as int), weights@.skip(i as int), left as int),
        decreases n - i,
    {
        let ghost p = pins@.skip(i as int);
        let ghost w = weights@.skip(i as int);
        let ghost before = out@;
        let ghost had = left;
        proof {
            assert(p.drop_first() =~= pins@.skip(i + 1));
            assert(w.drop_first() =~= weights@.skip(i + 1));
            lemma_free_weight_bound(p.drop_first(), w.drop_first());
        }
        match pins[i] {
            Some(h) => {
                out.push(h);
            },
            None => {
                let weight: u128 = if weights[i] > 0 {
                    weights[i] as u128
                } else {
                    0
                };
                assert(left * weight <= i64::MAX * i64::MAX) by (nonlinear_arith)
                    requires
                        0 <= left <= i64::MAX,
                        0 <= weight <= i64::MAX,
                ;
                proof {
                    lemma_share(left as int, weights@[i as int] as int, whole as int);
                }
                let own: i64 = if whole == 0 {
                    0
                } else {
                    ((left as u128) * weight / whole) as i64
                };
                out.push(own);
                left = left - own;
                whole = whole - weight;
            },
        }
        i += 1;
        assert(goal =~= out@ + shares(p.drop_first(), w.drop_first(), left as int));
    }
    assert(goal =~= out@);
    proof {
        lemma_pinned_bound(pins@);
        lemma_shares_sum(pins@, weights@, left_over(pins@, budget as int));
    }
    out
}

/// There are as many hours as tickets.
pub proof fn lemma_filled_length(pins: Seq<Option<i64>>, weights: Seq<i64>, budget: i64)
    requires
        pins.len() == weights.len(),
    ensures
        filled(pins, weights, budget as int).len() == pins.len(),
{
    lemma_pinned_bound(pins);
    lemma_shares_sum(pins, weights, left_over(pins, budget as int));
}

/// The weight of a ticket that is not pinned is part of the whole.
pub proof fn lemma_free_weight_holds(pins: Seq<Option<i64>>, weights: Seq<i64>, i: int)
    requires
        pins.len() == weights.len(),
        0 <= i < pins.len(),
        pins[i] is None,
    ensures
        at_least_zero(weights[i] as int) <= free_weight(pins, weights),
    decreases pins.len(),
{
    let p = pins.drop_first();
    let w = weights.drop_first();
    lemma_free_weight_bound(p, w);
    if i > 0 {
        assert(p[i - 1] == pins[i] && w[i - 1] == weights[i]);
        lemma_free_weight_holds(p, w, i - 1);
    }
}

/// No ticket that is not pinned gets less than nothing.
pub proof fn lemma_never_negative(
    pins: Seq<Option<i64>>,
    weights: Seq<i64>,
    budget: i64,
    i: int,
)
    requires
        pins.len() == weights.len(),
        0 <= i < pins.len(),
        pins[i] is None,
    ensures
        filled(pins, weights, budget as int)[i] >= 0,
{
    lemma_pinned_bound(pins);
    lemma_shares_sum(pins, weights, left_over(pins, budget as int));
}

/// What is pinned is counted ticket by ticket.
pub proof fn law_pins_add_up(a: Seq<Option<i64>>, b: Seq<Option<i64>>, h: i64)
    ensures
        pinned(a + b) == pinned(a) + pinned(b),
        pinned(seq![None]) == 0,
        h >= 0 ==> pinned(seq![Some(h)]) == h,
    decreases a.len(),
{
    let one = seq![Some(h)];
    let none: Seq<Option<i64>> = seq![None];
    assert(one.drop_first() =~= Seq::empty());
    assert(none.drop_first() =~= Seq::empty());
    reveal_with_fuel(pinned, 2);
    if a.len() == 0 {
        assert(a + b =~= b);
    } else {
        law_pins_add_up(a.drop_first(), b, h);
        assert((a + b).drop_first() =~= a.drop_first() + b);
        assert((a + b)[0] == a[0]);
    }
}

proof fn lemma_no_weight(pins: Seq<Option<i64>>, weights: Seq<i64>, left: int, i: int)
    requires
        pins.len() == weights.len(),
        0 <= i < pins.len(),
        pins[i] is None,
        weights[i] <= 0,
    ensures
        i < shares(pins, weights, left).len(),
        shares(pins, weights, left)[i] == 0,
    decreases pins.len(),
{
    let s = share(left, weights[0] as int, free_weight(pins, weights));
    if i == 0 {
        let whole = free_weight(pins, weights);
        lemma_free_weight_bound(pins, weights);
        if whole != 0 {
            assert(left * 0 / whole == 0) by (nonlinear_arith)
                requires
                    whole > 0,
            ;
        }
    } else {
        let p = pins.drop_first();
        let w = weights.drop_first();
        let rest = match pins[0] {
            Some(_) => left,
            None => left - s,
        };
        assert(p[i - 1] == pins[i] && w[i - 1] == weights[i]);
        lemma_no_weight(p, w, rest, i - 1);
    }
}

/// A ticket without weight gets nothing, unless its hours are pinned.
pub proof fn law_no_weight_gets_no_hours(
    pins: Seq<Option<i64>>,
    weights: Seq<i64>,
    budget: i64,
    i: int,
)
    requires
        pins.len() == weights.len(),
        0 <= i < pins.len(),
        pins[i] is None,
        weights[i] <= 0,
    ensures
        filled(pins, weights, budget as int)[i] == 0,
{
    lemma_no_weight(pins, weights, left_over(pins, budget as int), i);
}

/// What is free is counted ticket by ticket: a pinned one adds no weight, another one its own.
pub proof fn law_free_weights_add_up(
    a: Seq<Option<i64>>,
    v: Seq<i64>,
    b: Seq<Option<i64>>,
    w: Seq<i64>,
    h: i64,
    x: i64,
)
    requires
        a.len() == v.len(),
        b.len() == w.len(),
    ensures
        free_weight(a + b, v + w) == free_weight(a, v) + free_weight(b, w),
        free_weight(seq![Some(h)], seq![x]) == 0,
        x >= 0 ==> free_weight(seq![None], seq![x]) == x,
    decreases a.len(),
{
    let one = seq![Some(h)];
    let none: Seq<Option<i64>> = seq![None];
    assert(one.drop_first() =~= Seq::empty());
    assert(none.drop_first() =~= Seq::empty());
    reveal_with_fuel(free_weight, 2);
    if a.len() == 0 {
        assert(a + b =~= b);
        assert(v + w =~= w);
    } else {
        law_free_weights_add_up(a.drop_first(), v.drop_first(), b, w, h, x);
        assert((a + b).drop_first() =~= a.drop_first() + b);
        assert((v + w).drop_first() =~= v.drop_first() + w);
        assert((a + b)[0] == a[0] && (v + w)[0] == v[0]);
    }
}

} // verus!
