//! Doubles, taken by their IEEE 754 bits: how one compares with a whole number,
//! and the bits of a whole number. A double is a sign, eleven bits of exponent
//! and fifty-two bits of fraction; it stands for `±significand · 2^scale`, or
//! for an infinity or no number at all where the exponent bits are all set.

use vstd::arithmetic::power2::{lemma2_to64, lemma2_to64_rest, lemma_pow2_pos, lemma_pow2_unfold, pow2};
use vstd::prelude::*;

verus! {

/// Two to the power 52: the weight of the hidden bit of a significand.
pub const HIDDEN_BIT: u64 = 0x10_0000_0000_0000;

/// Two to the power 63: the sign bit.
pub const SIGN_BIT: u64 = 0x8000_0000_0000_0000;

/// The largest magnitude of a whole number that the functions here compare with or convert.
pub const MAX_WHOLE: i64 = 0x100_0000_0000;

/// Whether the sign bit is set.
pub open spec fn double_negative(bits: u64) -> bool {
    bits >= SIGN_BIT
}

/// The eleven exponent bits.
pub open spec fn double_exponent(bits: u64) -> int {
    (bits as int / 0x10_0000_0000_0000) % 0x800
}

/// The fifty-two fraction bits.
pub open spec fn double_fraction(bits: u64) -> int {
    bits as int % 0x10_0000_0000_0000
}

/// Whether the bits stand for no number.
pub open spec fn double_is_nan(bits: u64) -> bool {
    double_exponent(bits) == 0x7ff && double_fraction(bits) != 0
}

/// Whether the bits stand for an infinity.
pub open spec fn double_is_infinite(bits: u64) -> bool {
    double_exponent(bits) == 0x7ff && double_fraction(bits) == 0
}

/// The significand with its sign: the fraction, with the hidden bit unless the exponent
/// bits are all zero.
pub open spec fn double_significand(bits: u64) -> int {
    let magnitude = if double_exponent(bits) == 0 {
        double_fraction(bits)
    } else {
        0x10_0000_0000_0000 + double_fraction(bits)
    };
    if double_negative(bits) {
        -magnitude
    } else {
        magnitude
    }
}

/// The power of two that scales the significand.
pub open spec fn double_scale(bits: u64) -> int {
    if double_exponent(bits) == 0 {
        -1074
    } else {
        double_exponent(bits) - 1075
    }
}

/// Whether the double is less than the whole number `bound`. No number is less than
/// anything, and only the negative infinity is less than a whole number.
pub open spec fn double_lt(bits: u64, bound: int) -> bool {
    if double_is_nan(bits) {
        false
    } else if double_is_infinite(bits) {
        double_negative(bits)
    } else if double_scale(bits) >= 0 {
        double_significand(bits) * pow2(double_scale(bits) as nat) < bound
    } else {
        double_significand(bits) < bound * pow2((-double_scale(bits)) as nat)
    }
}

/// Whether the double is greater than or equal to the whole number `bound`.
pub open spec fn double_ge(bits: u64, bound: int) -> bool {
    !double_is_nan(bits) && !double_lt(bits, bound)
}

/// The position of the highest set bit of `a`, for `a` of 1 or more.
pub open spec fn highest_bit(a: int) -> nat
    decreases a,
{
    if a <= 1 {
        0
    } else {
        1 + highest_bit(a / 2)
    }
}

/// The bits of the double that equals the whole number `n`, for a magnitude below
/// `2^53`. Zero gives the positive zero.
pub open spec fn double_of_int(n: int) -> u64 {
    let magnitude = if n < 0 {
        -n
    } else {
        n
    };
    let top = highest_bit(magnitude);
    let sign = if n < 0 {
        0x8000_0000_0000_0000int
    } else {
        0int
    };
    if n == 0 {
        0
    } else {
        (sign + (1023 + top) * 0x10_0000_0000_0000 + (magnitude * pow2((52 - top) as nat)
            - 0x10_0000_0000_0000)) as u64
    }
}

/// Two to the power `k`, for `k` up to 63.
fn power_of_two(k: u64) -> (p: u64)
    requires
        k <= 63,
    ensures
        p == pow2(k as nat),
        1 <= p <= 0x8000_0000_0000_0000,
{
    let mut p: u64 = 1;
    let mut i: u64 = 0;
    proof {
        lemma2_to64();
        lemma2_to64_rest();
    }
    while i < k
        invariant
            i <= k <= 63,
            p == pow2(i as nat),
            p <= pow2(63),
            pow2(63) == 0x8000_0000_0000_0000,
        decreases k - i,
    {
        proof {
            lemma_pow2_unfold((i + 1) as nat);
            if i + 1 < 63 {
                vstd::arithmetic::power2::lemma_pow2_strictly_increases((i + 1) as nat, 63);
            }
        }
        p = p * 2;
        i += 1;
    }
    p
}

/// Whether the double with these bits is less than `bound`.
pub fn double_below(bits: u64, bound: i64) -> (below: bool)
    requires
        -MAX_WHOLE <= bound <= MAX_WHOLE,
    ensures
        below == double_lt(bits, bound as int),
{
    let exponent: u64 = (bits / HIDDEN_BIT) % 0x800;
    let fraction: u64 = bits % HIDDEN_BIT;
    let negative: bool = bits >= SIGN_BIT;
    if exponent == 0x7ff {
        return fraction == 0 && negative;
    }
    let magnitude: u64 = if exponent == 0 {
        fraction
    } else {
        HIDDEN_BIT + fraction
    };
    let ghost significand = double_significand(bits);
    if exponent >= 1075 {
        proof {
            let scale = (exponent - 1075) as nat;
            lemma_pow2_pos(scale);
            if negative {
                assert(significand * pow2(scale) <= significand) by (nonlinear_arith)
                    requires
                        significand < 0,
                        pow2(scale) >= 1,
                ;
            } else {
                assert(significand * pow2(scale) >= significand) by (nonlinear_arith)
                    requires
                        significand > 0,
                        pow2(scale) >= 1,
                ;
            }
        }
        return negative;
    }
    let shift: u64 = if exponent == 0 {
        1074
    } else {
        1075 - exponent
    };
    if shift >= 64 {
        proof {
            let power = pow2(shift as nat) as int;
            lemma2_to64();
            if shift > 64 {
                vstd::arithmetic::power2::lemma_pow2_strictly_increases(64, shift as nat);
            }
            assert(power > magnitude);
            if bound >= 1 {
                assert(bound * power >= power) by (nonlinear_arith)
                    requires
                        bound >= 1,
                        power > 0,
                ;
            } else if bound == 0 {
                assert(bound * power == 0) by (nonlinear_arith)
                    requires
                        bound == 0,
                ;
            } else {
                assert(bound * power <= -power) by (nonlinear_arith)
                    requires
                        bound <= -1,
                        power > 0,
                ;
            }
        }
        return if negative && magnitude > 0 {
            bound >= 0
        } else {
            bound >= 1
        };
    }
    let power: u64 = power_of_two(shift);
    let signed: i128 = if negative {
        -(magnitude as i128)
    } else {
        magnitude as i128
    };
    assert(-0x100_0000_0000 * 0x8000_0000_0000_0000 <= (bound as int) * (power as int)
        <= 0x100_0000_0000 * 0x8000_0000_0000_0000) by (nonlinear_arith)
        requires
            -0x100_0000_0000 <= bound <= 0x100_0000_0000,
            1 <= power <= 0x8000_0000_0000_0000,
    ;
    signed < (bound as i128) * (power as i128)
}

/// Whether the double with these bits is greater than or equal to `bound`.
pub fn double_at_least(bits: u64, bound: i64) -> (at_least: bool)
    requires
        -MAX_WHOLE <= bound <= MAX_WHOLE,
    ensures
        at_least == double_ge(bits, bound as int),
{
    let exponent: u64 = (bits / HIDDEN_BIT) % 0x800;
    let fraction: u64 = bits % HIDDEN_BIT;
    if exponent == 0x7ff && fraction != 0 {
        false
    } else {
        !double_below(bits, bound)
    }
}

/// The bits of the double that equals the whole number `n`.
pub fn double_from_whole(n: i64) -> (bits: u64)
    requires
        -MAX_WHOLE <= n <= MAX_WHOLE,
    ensures
        bits == double_of_int(n as int),
{
    if n == 0 {
        return 0;
    }
    let magnitude: u64 = if n < 0 {
        (-n) as u64
    } else {
        n as u64
    };
    let mut top: u64 = 0;
    let mut rest: u64 = magnitude;
    proof {
        lemma2_to64();
        lemma2_to64_rest();
    }
    while rest > 1
        invariant
            1 <= rest,
            top <= 40,
            rest <= pow2((40 - top) as nat),
            highest_bit(magnitude as int) == top + highest_bit(rest as int),
            rest * pow2(top as nat) <= magnitude < (rest + 1) * pow2(top as nat),
        decreases rest,
    {
        proof {
            let old_power = pow2(top as nat) as int;
            lemma2_to64();
            if top == 40 {
                assert(pow2(0) == 1);
            }
            lemma_pow2_unfold((40 - top) as nat);
            lemma_pow2_unfold((top + 1) as nat);
            let half = (rest / 2) as int;
            assert(half * (2 * old_power) <= rest * old_power) by (nonlinear_arith)
                requires
                    2 * half <= rest,
                    old_power >= 0,
            ;
            assert((rest + 1) * old_power <= (half + 1) * (2 * old_power)) by (nonlinear_arith)
                requires
                    rest + 1 <= 2 * (half + 1),
                    old_power >= 0,
            ;
        }
        rest = rest / 2;
        top = top + 1;
    }
    let factor: u64 = power_of_two(52 - top);
    proof {
        let low = pow2(top as nat) as int;
        let high = pow2((52 - top) as nat) as int;
        lemma2_to64();
        lemma2_to64_rest();
        vstd::arithmetic::power2::lemma_pow2_adds(top as nat, (52 - top) as nat);
        assert(rest == 1);
        assert(low <= magnitude < 2 * low) by (nonlinear_arith)
            requires
                rest * low <= magnitude < (rest + 1) * low,
                rest == 1,
        ;
        assert(pow2(52) == 0x10_0000_0000_0000);
        assert(low * high == 0x10_0000_0000_0000);
        assert(low * high <= magnitude * high && magnitude * high < 2 * (low * high))
            by (nonlinear_arith)
            requires
                low <= magnitude < 2 * low,
                high > 0,
        ;
    }
    let scaled: u64 = magnitude * factor;
    assert(highest_bit(magnitude as int) == top);
    let sign: u64 = if n < 0 {
        SIGN_BIT
    } else {
        0
    };
    sign + (1023 + top) * HIDDEN_BIT + (scaled - HIDDEN_BIT)
}

/// The double made of a whole number compares as that number does.
pub proof fn lemma_double_of_int_compares(n: int, bound: int)
    requires
        -0x100_0000_0000 <= n <= 0x100_0000_0000,
    ensures
        !double_is_nan(double_of_int(n)),
        double_lt(double_of_int(n), bound) == (n < bound),
        double_ge(double_of_int(n), bound) == (n >= bound),
{
    let bits = double_of_int(n);
    if n == 0 {
        assert(bits == 0);
        assert(double_exponent(bits) == 0);
        assert(double_fraction(bits) == 0);
        assert(double_significand(bits) == 0);
        lemma_pow2_pos(1074);
        assert(bound * pow2(1074) > 0 <==> bound > 0) by (nonlinear_arith)
            requires
                pow2(1074) > 0,
        ;
    } else {
        let magnitude = if n < 0 {
            -n
        } else {
            n
        };
        let top = highest_bit(magnitude);
        lemma_highest_bit(magnitude);
        lemma2_to64();
        lemma2_to64_rest();
        if top > 40 {
            vstd::arithmetic::power2::lemma_pow2_strictly_increases(40, top);
        }
        assert(top <= 40);
        let low = pow2(top) as int;
        let high = pow2((52 - top) as nat) as int;
        vstd::arithmetic::power2::lemma_pow2_adds(top, (52 - top) as nat);
        lemma_pow2_pos((52 - top) as nat);
        assert(low * high <= magnitude * high && magnitude * high < 2 * (low * high))
            by (nonlinear_arith)
            requires
                low <= magnitude < 2 * low,
                high > 0,
        ;
        let fraction = magnitude * high - 0x10_0000_0000_0000;
        let sign = if n < 0 {
            1int
        } else {
            0int
        };
        let exponent = 1023 + top as int;
        assert(low * high == 0x10_0000_0000_0000);
        assert(0 <= fraction < 0x10_0000_0000_0000);
        assert(bits == sign * 0x8000_0000_0000_0000 + exponent * 0x10_0000_0000_0000 + fraction);
        lemma_field_split(sign * 0x800 + exponent, fraction, 0x10_0000_0000_0000);
        lemma_field_split(sign, exponent, 0x800);
        assert(double_fraction(bits) == fraction);
        assert(double_exponent(bits) == exponent);
        assert(double_negative(bits) == (n < 0));
        assert(double_scale(bits) == top - 52);
        let significand = double_significand(bits);
        assert(significand == n * high) by (nonlinear_arith)
            requires
                significand == if n < 0 {
                    -(magnitude * high)
                } else {
                    magnitude * high
                },
                magnitude == if n < 0 {
                    -n
                } else {
                    n
                },
        ;
        if top == 52 {
            assert(false);
        }
        assert((n * high < bound * high) == (n < bound)) by (nonlinear_arith)
            requires
                high > 0,
        ;
    }
}

/// Dividing `q * d + r` by `d` gives `q` and leaves `r`, where `0 <= r < d`.
proof fn lemma_field_split(q: int, r: int, d: int)
    requires
        d > 0,
        0 <= r < d,
    ensures
        (q * d + r) / d == q,
        (q * d + r) % d == r,
{
    vstd::arithmetic::div_mod::lemma_fundamental_div_mod_converse(q * d + r, d, q, r);
}

/// A number of 1 or more lies between the power of two of its highest bit and the next.
pub proof fn lemma_highest_bit(a: int)
    requires
        a >= 1,
    ensures
        pow2(highest_bit(a)) <= a < 2 * pow2(highest_bit(a)),
    decreases a,
{
    if a <= 1 {
        assert(pow2(0) == 1) by {
            lemma2_to64();
        }
    } else {
        lemma_highest_bit(a / 2);
        lemma_pow2_unfold(highest_bit(a));
    }
}

} // verus!
