//! The cost model: how a rank in a preference list becomes a weight.

use vstd::arithmetic::power::{lemma0_pow, lemma1_pow, lemma_pow0, lemma_pow1, lemma_pow_distributes, pow};
use vstd::prelude::*;

verus! {

/// The weight of the choice at 0-based position `rank` of a preference list,
/// when there are `num_slots` slots: `((num_slots - rank) * mult) ^ power`.
pub open spec fn cost_spec(rank: nat, num_slots: nat, mult: int, power: nat) -> int {
    pow((num_slots - rank) * mult, power)
}

/// The magnitude of `x`.
spec fn magnitude(x: int) -> int {
    if x < 0 {
        -x
    } else {
        x
    }
}

proof fn lemma_pow_step(b: int, e: nat)
    ensures
        pow(b, e + 1) == b * pow(b, e),
{
    reveal(pow);
}

proof fn lemma_magnitude_of_product(x: int, y: int)
    by (nonlinear_arith)
    ensures
        magnitude(x * y) == magnitude(x) * magnitude(y),
{
}

/// The powers of a number of magnitude two or more at least double in
/// magnitude with each step of the exponent.
proof fn lemma_pow_magnitude_grows(b: int, e1: nat, e2: nat)
    requires
        magnitude(b) >= 2,
        e1 <= e2,
    ensures
        magnitude(pow(b, e1)) >= 1,
        magnitude(pow(b, e2)) >= magnitude(pow(b, e1)),
        e1 < e2 ==> magnitude(pow(b, e2)) >= 2 * magnitude(pow(b, e1)),
    decreases e2,
{
    if e1 == 0 {
        lemma_pow0(b);
    } else {
        lemma_pow_magnitude_grows(b, (e1 - 1) as nat, (e1 - 1) as nat);
        lemma_pow_step(b, (e1 - 1) as nat);
        lemma_magnitude_of_product(b, pow(b, (e1 - 1) as nat));
        assert(magnitude(b) * magnitude(pow(b, (e1 - 1) as nat)) >= 1) by (nonlinear_arith)
            requires
                magnitude(b) >= 2,
                magnitude(pow(b, (e1 - 1) as nat)) >= 1,
        ;
    }
    if e1 < e2 {
        let e = (e2 - 1) as nat;
        lemma_pow_magnitude_grows(b, e1, e);
        lemma_pow_step(b, e);
        lemma_magnitude_of_product(b, pow(b, e));
        assert(magnitude(b) * magnitude(pow(b, e)) >= 2 * magnitude(pow(b, e))) by (nonlinear_arith)
            requires
                magnitude(b) >= 2,
                magnitude(pow(b, e)) >= 1,
        ;
    }
}

/// Once a power of a number of magnitude two or more has left the range of
/// `i64`, every later power is outside it too.
proof fn lemma_pow_stays_out(b: int, e1: nat, e2: nat)
    requires
        magnitude(b) >= 2,
        e1 <= e2,
        pow(b, e1) < i64::MIN || pow(b, e1) > i64::MAX,
    ensures
        pow(b, e2) < i64::MIN || pow(b, e2) > i64::MAX,
{
    lemma_pow_magnitude_grows(b, e1, e2);
}

proof fn lemma_pow_of_minus_one(e: nat)
    ensures
        pow(-1, e) == if e % 2 == 0 {
            1int
        } else {
            -1int
        },
    decreases e,
{
    if e == 0 {
        lemma_pow0(-1);
    } else {
        lemma_pow_of_minus_one((e - 1) as nat);
        lemma_pow_step(-1, (e - 1) as nat);
    }
}

/// The weight of the choice at 0-based position `rank` when there are
/// `num_slots` slots, or `None` where it is not a 64-bit signed integer.
pub fn cost(rank: usize, num_slots: usize, mult: i64, power: u32) -> (res: Option<i64>)
    ensures
        res == if i64::MIN <= cost_spec(rank as nat, num_slots as nat, mult as int, power as nat)
            <= i64::MAX {
            Some(cost_spec(rank as nat, num_slots as nat, mult as int, power as nat) as i64)
        } else {
            None
        },
{
    let diff: i128 = num_slots as i128 - rank as i128;
    assert(-0x8000_0000_0000_0000_0000_0000_0000_0000 < diff * mult
        < 0x8000_0000_0000_0000_0000_0000_0000_0000) by (nonlinear_arith)
        requires
            -0x1_0000_0000_0000_0000 < diff < 0x1_0000_0000_0000_0000,
            -0x8000_0000_0000_0000 <= mult < 0x8000_0000_0000_0000,
    ;
    let base: i128 = diff * (mult as i128);
    if power == 0 {
        proof {
            lemma_pow0(base as int);
        }
        return Some(1);
    }
    proof {
        lemma_pow1(base as int);
    }
    if base < i64::MIN as i128 || base > i64::MAX as i128 {
        proof {
            lemma_pow_stays_out(base as int, 1, power as nat);
        }
        return None;
    }
    if base == 0 {
        proof {
            lemma0_pow(power as nat);
        }
        return Some(0);
    }
    if base == 1 {
        proof {
            lemma1_pow(power as nat);
        }
        return Some(1);
    }
    if base == -1 {
        proof {
            lemma_pow_of_minus_one(power as nat);
        }
        return Some(if power % 2 == 0 { 1 } else { -1 });
    }
    let mut acc: i128 = base;
    let mut k: u32 = 1;
    while k < power
        invariant
            1 <= k <= power,
            base == (num_slots - rank) * mult,
            magnitude(base as int) >= 2,
            i64::MIN <= base <= i64::MAX,
            i64::MIN <= acc <= i64::MAX,
            acc == pow(base as int, k as nat),
        decreases power - k,
    {
        assert(-0x4000_0000_0000_0000_0000_0000_0000_0000 <= acc * base
            <= 0x4000_0000_0000_0000_0000_0000_0000_0000) by (nonlinear_arith)
            requires
                -0x8000_0000_0000_0000 <= acc <= 0x8000_0000_0000_0000,
                -0x8000_0000_0000_0000 <= base <= 0x8000_0000_0000_0000,
        ;
        let next: i128 = acc * base;
        proof {
            lemma_pow_step(base as int, k as nat);
            assert(acc * base == base * acc) by (nonlinear_arith);
        }
        if next < i64::MIN as i128 || next > i64::MAX as i128 {
            proof {
                lemma_pow_stays_out(base as int, (k + 1) as nat, power as nat);
            }
            return None;
        }
        acc = next;
        k = k + 1;
    }
    Some(acc as i64)
}

/// Powers of numbers that are not negative grow with the base.
pub proof fn lemma_pow_grows_with_base(a: int, b: int, e: nat)
    requires
        0 <= a <= b,
    ensures
        0 <= pow(a, e) <= pow(b, e),
    decreases e,
{
    if e == 0 {
        lemma_pow0(a);
        lemma_pow0(b);
    } else {
        lemma_pow_grows_with_base(a, b, (e - 1) as nat);
        lemma_pow_step(a, (e - 1) as nat);
        lemma_pow_step(b, (e - 1) as nat);
        assert(0 <= a * pow(a, (e - 1) as nat) <= b * pow(b, (e - 1) as nat)) by (nonlinear_arith)
            requires
                0 <= a <= b,
                0 <= pow(a, (e - 1) as nat) <= pow(b, (e - 1) as nat),
        ;
    }
}

/// Powers with a positive exponent grow strictly with a base that is not
/// negative.
pub proof fn lemma_pow_grows_strictly_with_base(a: int, b: int, e: nat)
    requires
        0 <= a < b,
        e >= 1,
    ensures
        pow(a, e) < pow(b, e),
    decreases e,
{
    if e == 1 {
        lemma_pow1(a);
        lemma_pow1(b);
    } else {
        let d = (e - 1) as nat;
        lemma_pow_grows_strictly_with_base(a, b, d);
        lemma_pow_grows_with_base(a, b, d);
        lemma_pow_step(a, d);
        lemma_pow_step(b, d);
        assert(a * pow(a, d) < b * pow(b, d)) by (nonlinear_arith)
            requires
                0 <= a < b,
                0 <= pow(a, d) < pow(b, d),
        ;
    }
}

/// The weight falls strictly as the rank rises, when the multiplier and the
/// power are positive.
pub proof fn lemma_cost_falls_with_rank(
    better: nat,
    worse: nat,
    num_slots: nat,
    mult: int,
    power: nat,
)
    requires
        better < worse <= num_slots,
        mult >= 1,
        power >= 1,
    ensures
        cost_spec(worse, num_slots, mult, power) < cost_spec(better, num_slots, mult, power),
{
    let x = (num_slots - better) * mult;
    let y = (num_slots - worse) * mult;
    assert(0 <= y < x) by (nonlinear_arith)
        requires
            0 <= num_slots - worse < num_slots - better,
            mult >= 1,
            x == (num_slots - better) * mult,
            y == (num_slots - worse) * mult,
    ;
    lemma_pow_grows_strictly_with_base(y, x, power);
}

/// The gap between the weights of a better and a worse rank does not shrink
/// when the multiplier grows.
///
/// For ranks `better <= worse <= num_slots` and multipliers `0 <= mult <= more`,
/// the weight of `better` less the weight of `worse` under `mult` is at most
/// that under `more`.
pub proof fn lemma_differential_grows_with_mult(
    better: nat,
    worse: nat,
    num_slots: nat,
    mult: int,
    more: int,
    power: nat,
)
    requires
        better <= worse <= num_slots,
        0 <= mult <= more,
    ensures
        cost_spec(better, num_slots, mult, power) - cost_spec(worse, num_slots, mult, power)
            <= cost_spec(better, num_slots, more, power) - cost_spec(
            worse,
            num_slots,
            more,
            power,
        ),
{
    let a = num_slots - better;
    let b = num_slots - worse;
    lemma_pow_distributes(a, mult, power);
    lemma_pow_distributes(b, mult, power);
    lemma_pow_distributes(a, more, power);
    lemma_pow_distributes(b, more, power);
    lemma_pow_grows_with_base(b, a, power);
    lemma_pow_grows_with_base(mult, more, power);
    let pa = pow(a, power);
    let pb = pow(b, power);
    let x = pow(mult, power);
    let y = pow(more, power);
    assert(pa * x - pb * x <= pa * y - pb * y) by (nonlinear_arith)
        requires
            0 <= pb <= pa,
            0 <= x <= y,
    ;
}

/// The gap between the weights of a better and a worse rank does not shrink
/// when the power grows.
///
/// For ranks `better <= worse <= num_slots`, a multiplier that is not negative
/// and powers `power <= more`, the weight of `better` less the weight of
/// `worse` under `power` is at most that under `more`.
pub proof fn lemma_differential_grows_with_power(
    better: nat,
    worse: nat,
    num_slots: nat,
    mult: int,
    power: nat,
    more: nat,
)
    requires
        better <= worse <= num_slots,
        0 <= mult,
        power <= more,
    ensures
        cost_spec(better, num_slots, mult, power) - cost_spec(worse, num_slots, mult, power)
            <= cost_spec(better, num_slots, mult, more) - cost_spec(
            worse,
            num_slots,
            mult,
            more,
        ),
    decreases more - power,
{
    if power < more {
        let e = (more - 1) as nat;
        lemma_differential_grows_with_power(better, worse, num_slots, mult, power, e);
        let x = (num_slots - better) * mult;
        let y = (num_slots - worse) * mult;
        assert(0 <= y <= x) by (nonlinear_arith)
            requires
                0 <= num_slots - worse <= num_slots - better,
                0 <= mult,
                x == (num_slots - better) * mult,
                y == (num_slots - worse) * mult,
        ;
        lemma_pow_grows_with_base(y, x, e);
        lemma_pow_step(x, e);
        lemma_pow_step(y, e);
        let px = pow(x, e);
        let py = pow(y, e);
        assert(px - py <= x * px - y * py) by (nonlinear_arith)
            requires
                0 <= y <= x,
                0 <= py <= px,
                x == y ==> px == py,
        ;
    }
}

} // verus!
