//! The double-precision numbers nearest to integers, without floating-point arithmetic.

use vstd::arithmetic::power2::pow2;
use vstd::prelude::*;

verus! {

/// Two to the number of significant bits of a double. Up to here every integer is a double.
pub const EXACT_LIMIT: u128 = 9_007_199_254_740_992;

/// How far the doubles at the magnitude `m` lie apart, and at least one.
pub open spec fn spacing(m: nat) -> nat
    decreases m,
{
    if m < EXACT_LIMIT {
        1
    } else {
        2 * spacing(m / 2)
    }
}

/// The double nearest to the integer `m`; of two that are equally near, the one with the even
/// significand.
pub open spec fn nearest_magnitude(m: nat) -> nat {
    let step = spacing(m);
    let below = m / step;
    let over = m % step;
    if 2 * over < step || (2 * over == step && below % 2 == 0) {
        below * step
    } else {
        (below + 1) * step
    }
}

/// The double that an integer is converted to: the nearest one, whatever the sign.
pub open spec fn nearest_double(n: int) -> int {
    if n >= 0 {
        nearest_magnitude(n as nat) as int
    } else {
        -nearest_magnitude((-n) as nat)
    }
}

/// The spacing of doubles is no larger than they are.
proof fn lemma_spacing(m: nat)
    ensures
        spacing(m) >= 1,
        m > 0 ==> spacing(m) <= m,
    decreases m,
{
    if m >= EXACT_LIMIT {
        lemma_spacing(m / 2);
    }
}

/// A double nearest to an integer is a multiple of the spacing there, and at most half of it away.
proof fn lemma_nearest_magnitude(m: nat)
    ensures
        nearest_magnitude(m) % spacing(m) == 0,
        2 * (nearest_magnitude(m) - m) <= spacing(m),
        2 * (m - nearest_magnitude(m)) <= spacing(m),
        nearest_magnitude(m) <= 2 * m,
        m <= EXACT_LIMIT ==> nearest_magnitude(m) == m,
{
    let step = spacing(m);
    let below = m / step;
    let over = m % step;
    lemma_spacing(m);
    vstd::arithmetic::div_mod::lemma_fundamental_div_mod(m as int, step as int);
    assert(step * below == below * step) by (nonlinear_arith);
    assert((below + 1) * step == below * step + step) by (nonlinear_arith);
    vstd::arithmetic::div_mod::lemma_mod_multiples_basic(below as int, step as int);
    vstd::arithmetic::div_mod::lemma_mod_multiples_basic((below + 1) as int, step as int);
    if m == EXACT_LIMIT {
        assert(spacing(m / 2) == 1);
        assert(step == 2);
        assert(m % 2 == 0);
    } else if m < EXACT_LIMIT {
        assert(step == 1);
        assert(over == 0);
    }
}

/// Converting an integer to a double goes to a multiple of the spacing of the doubles there that
/// is at most half of it away. Integers of few enough bits stay as they are.
pub proof fn law_nearest_double(n: int)
    ensures
        ({
            let m = if n >= 0 {
                n
            } else {
                -n
            };
            &&& nearest_double(n) % (spacing(m as nat) as int) == 0
            &&& 2 * (nearest_double(n) - n) <= spacing(m as nat)
            &&& 2 * (n - nearest_double(n)) <= spacing(m as nat)
            &&& -2 * m <= nearest_double(n) <= 2 * m
            &&& m <= EXACT_LIMIT ==> nearest_double(n) == n
        }),
{
    let m = if n >= 0 {
        n
    } else {
        -n
    };
    let step = spacing(m as nat) as int;
    let near = nearest_magnitude(m as nat) as int;
    lemma_spacing(m as nat);
    lemma_nearest_magnitude(m as nat);
    if n < 0 {
        let k = near / step;
        vstd::arithmetic::div_mod::lemma_fundamental_div_mod(near, step);
        assert(-near == (-k) * step) by (nonlinear_arith)
            requires
                near == step * k,
        ;
        vstd::arithmetic::div_mod::lemma_mod_multiples_basic(-k, step);
    }
}

/// The number with this significand and this power of two.
pub open spec fn scaled(significand: int, power: nat) -> int {
    significand * pow2(power)
}

/// How far two integers lie apart.
pub open spec fn distance(a: int, b: int) -> int {
    if a <= b {
        b - a
    } else {
        a - b
    }
}

/// The spacing is a power of two, and beyond the exact integers leaves a full significand.
proof fn lemma_spacing_power(m: nat) -> (power: nat)
    ensures
        spacing(m) == pow2(power),
        m < EXACT_LIMIT ==> power == 0,
        m >= EXACT_LIMIT ==> {
            &&& power > 0
            &&& EXACT_LIMIT * spacing(m) <= 2 * m
            &&& m < EXACT_LIMIT * spacing(m)
        },
    decreases m,
{
    if m < EXACT_LIMIT {
        vstd::arithmetic::power2::lemma2_to64();
        0
    } else {
        let half = lemma_spacing_power(m / 2);
        vstd::arithmetic::power2::lemma_pow2_unfold(half + 1);
        half + 1
    }
}

/// Multiples of `step` differ by at least `step`.
proof fn lemma_multiples_apart(a: int, b: int, step: int)
    requires
        step > 0,
        a < b,
    ensures
        a * step + step <= b * step,
{
    assert(a * step + step <= b * step) by (nonlinear_arith)
        requires
            step > 0,
            a + 1 <= b,
    ;
}

/// A double beside a magnitude is a multiple of the spacing there, or no more than the multiple
/// below.
proof fn lemma_double_multiple(m: nat, significand: int, power: nat) -> (multiple: int)
    requires
        -EXACT_LIMIT <= significand <= EXACT_LIMIT,
    ensures
        scaled(significand, power) == multiple * spacing(m) || scaled(significand, power) <= (m
            / spacing(m)) * spacing(m),
{
    let step = spacing(m) as int;
    let j = lemma_spacing_power(m);
    let below = m as int / step;
    lemma_spacing(m);
    vstd::arithmetic::power2::lemma_pow2_pos(power);
    if power >= j {
        let extra = (power - j) as nat;
        vstd::arithmetic::power2::lemma_pow2_adds(extra, j);
        let multiple = significand * pow2(extra);
        assert(significand * (pow2(extra) * pow2(j)) == (significand * pow2(extra)) * pow2(j))
            by (nonlinear_arith);
        multiple
    } else {
        let half = (j - 1) as nat;
        vstd::arithmetic::power2::lemma_pow2_unfold(j);
        if power < half {
            vstd::arithmetic::power2::lemma_pow2_strictly_increases(power, half);
        }
        vstd::arithmetic::div_mod::lemma_fundamental_div_mod(m as int, step);
        assert(step * below == below * step) by (nonlinear_arith);
        let full = EXACT_LIMIT as int / 2;
        assert(significand * pow2(power) <= EXACT_LIMIT * pow2(half)) by (nonlinear_arith)
            requires
                significand <= EXACT_LIMIT,
                0 < pow2(power) <= pow2(half),
        ;
        assert(EXACT_LIMIT * pow2(half) == full * step) by (nonlinear_arith)
            requires
                step == 2 * pow2(half),
                EXACT_LIMIT == 2 * full,
        ;
        if below < full {
            lemma_multiples_apart(below, full, step);
            assert(2 * (full * step) == EXACT_LIMIT * step) by (nonlinear_arith)
                requires
                    EXACT_LIMIT == 2 * full,
            ;
        }
        assert(full * step <= below * step) by (nonlinear_arith)
            requires
                full <= below,
                step > 0,
        ;
        0
    }
}

/// The nearest magnitude is a double, none is nearer, and of two at one distance it is the even
/// one.
proof fn lemma_nearest(m: nat, significand: int, power: nat)
    requires
        -EXACT_LIMIT <= significand <= EXACT_LIMIT,
    ensures
        ({
            let near = nearest_magnitude(m) as int;
            let other = scaled(significand, power);
            &&& distance(near, m as int) <= distance(other, m as int)
            &&& other != near && distance(near, m as int) == distance(other, m as int) ==> near % (2
                * distance(near, other)) == 0
        }),
{
    let step = spacing(m) as int;
    let below = m as int / step;
    let over = m as int % step;
    let near = nearest_magnitude(m) as int;
    let other = scaled(significand, power);
    lemma_spacing(m);
    vstd::arithmetic::div_mod::lemma_fundamental_div_mod(m as int, step);
    assert(step * below == below * step) by (nonlinear_arith);
    assert((below + 1) * step == below * step + step) by (nonlinear_arith);
    let multiple = lemma_double_multiple(m, significand, power);
    if other == multiple * step {
        if multiple < below {
            lemma_multiples_apart(multiple, below, step);
        } else if multiple > below + 1 {
            lemma_multiples_apart(below + 1, multiple, step);
        }
        if other > below * step {
            if multiple <= below {
                assert(multiple * step <= below * step) by (nonlinear_arith)
                    requires
                        multiple <= below,
                        step > 0,
                ;
            }
        }
    }
    assert(other <= below * step || other >= (below + 1) * step);
    if other != near && distance(near, m as int) == distance(other, m as int) {
        assert(2 * over == step);
        if below % 2 == 0 {
            let half = below / 2;
            assert(near == below * step);
            assert(other == near + step);
            assert(below * step == half * (2 * step)) by (nonlinear_arith)
                requires
                    below == 2 * half,
            ;
            vstd::arithmetic::div_mod::lemma_mod_multiples_basic(half, 2 * step);
        } else {
            let half = (below + 1) / 2;
            assert(near == (below + 1) * step);
            assert(other == near - step);
            assert((below + 1) * step == half * (2 * step)) by (nonlinear_arith)
                requires
                    below + 1 == 2 * half,
            ;
            vstd::arithmetic::div_mod::lemma_mod_multiples_basic(half, 2 * step);
        }
    }
}

/// The nearest magnitude is a double.
proof fn lemma_nearest_is_double(m: nat) -> (r: (int, nat))
    ensures
        0 <= r.0 <= EXACT_LIMIT,
        nearest_magnitude(m) == scaled(r.0, r.1),
{
    let step = spacing(m) as int;
    let j = lemma_spacing_power(m);
    let below = m as int / step;
    lemma_spacing(m);
    vstd::arithmetic::div_mod::lemma_fundamental_div_mod(m as int, step);
    assert(step * below == below * step) by (nonlinear_arith);
    assert(below < EXACT_LIMIT) by (nonlinear_arith)
        requires
            step > 0,
            below * step <= m,
            m < EXACT_LIMIT * step,
    ;
    assert(below >= 0) by (nonlinear_arith)
        requires
            step > 0,
            below * step + step > m,
            m >= 0,
    ;
    if nearest_magnitude(m) == below * step {
        (below, j)
    } else {
        (below + 1, j)
    }
}

/// An integer is converted to a double: a significand of 53 bits, times a power of two. No double
/// is nearer to the integer; of two that are equally near, the chosen one is the multiple of twice
/// their distance, so that its significand is even.
pub proof fn law_conversion(n: int, significand: int, power: nat)
    requires
        -0x20_0000_0000_0000 <= significand <= 0x20_0000_0000_0000,
    ensures
        exists|c: int, k: nat|
            -0x20_0000_0000_0000 <= c <= 0x20_0000_0000_0000 && nearest_double(n) == #[trigger] (c
                * pow2(k)),
        ({
            let near = nearest_double(n);
            let other = significand * pow2(power);
            let gap = if near <= n {
                n - near
            } else {
                near - n
            };
            let other_gap = if other <= n {
                n - other
            } else {
                other - n
            };
            &&& gap <= other_gap
            &&& near < other && gap == other_gap ==> near % (2 * (other - near)) == 0
            &&& other < near && gap == other_gap ==> near % (2 * (near - other)) == 0
        }),
{
    let near = nearest_double(n);
    let other = significand * pow2(power);
    if n >= 0 {
        let (c, k) = lemma_nearest_is_double(n as nat);
        assert(near == c * pow2(k));
        lemma_nearest(n as nat, significand, power);
    } else {
        let m = (-n) as nat;
        let (c, k) = lemma_nearest_is_double(m);
        assert((-c) * pow2(k) == -(c * pow2(k))) by (nonlinear_arith);
        assert(near == (-c) * pow2(k));
        lemma_nearest(m, -significand, power);
        assert((-significand) * pow2(power) == -(significand * pow2(power))) by (nonlinear_arith);
        if other != near {
            let gap = 2 * distance(-near, -other);
            if (-near) % gap == 0 {
                vstd::arithmetic::div_mod::lemma_fundamental_div_mod(-near, gap);
                let q = (-near) / gap;
                assert(near == (-q) * gap) by (nonlinear_arith)
                    requires
                        -near == gap * q,
                ;
                vstd::arithmetic::div_mod::lemma_mod_multiples_basic(-q, gap);
            }
        }
    }
}

/// The double nearest to a magnitude.
fn round_magnitude(m: u128) -> (r: u128)
    requires
        m <= u64::MAX,
    ensures
        r == nearest_magnitude(m as nat),
        r <= 2 * m,
{
    let mut step: u128 = 1;
    let mut top: u128 = m;
    while top >= EXACT_LIMIT
        invariant
            m <= u64::MAX,
            top <= m,
            step >= 1,
            step * top <= m,
            spacing(m as nat) == step * spacing(top as nat),
        decreases top,
    {
        proof {
            let s = spacing((top / 2) as nat);
            assert(spacing(top as nat) == 2 * s);
            assert(step * (2 * s) == (step * 2) * s) by (nonlinear_arith);
            assert(step <= m) by (nonlinear_arith)
                requires
                    step * top <= m,
                    top >= 1,
            ;
            assert((step * 2) * (top / 2) <= step * top) by (nonlinear_arith)
                requires
                    2 * (top / 2) <= top,
            ;
        }
        step = step * 2;
        top = top / 2;
    }
    assert(step * 1 == step);
    proof {
        lemma_spacing(m as nat);
        lemma_nearest_magnitude(m as nat);
    }
    let below: u128 = m / step;
    let over: u128 = m % step;
    proof {
        vstd::arithmetic::div_mod::lemma_fundamental_div_mod(m as int, step as int);
        assert(step * below == below * step) by (nonlinear_arith);
        assert((below + 1) * step == below * step + step) by (nonlinear_arith);
    }
    if 2 * over < step || (2 * over == step && below % 2 == 0) {
        below * step
    } else {
        (below + 1) * step
    }
}

/// Converts an integer to the nearest double.
pub fn round_to_double(n: i64) -> (r: i128)
    ensures
        r == nearest_double(n as int),
{
    if n >= 0 {
        round_magnitude(n as u128) as i128
    } else {
        -(round_magnitude((-(n as i128)) as u128) as i128)
    }
}

} // verus!
