//! Base-two logarithms in fixed point, with sixteen fractional bits.
//!
//! The logarithm of `x` is found the classical way: `x` is scaled by a power
//! of two to a mantissa in `[1, 2)`, which gives the integer part; squaring
//! the mantissa sixteen times, and halving it whenever the square reaches
//! 2, gives the fractional bits one by one. Squares are truncated to 31
//! fractional bits, so the result is an estimate from below; its integer
//! part is exact, and `accuracy` shows that the whole falls short of the
//! real logarithm by less than two units of the last bit.

use vstd::arithmetic::power2::{lemma2_to64, lemma_pow2_strictly_increases, lemma_pow2_unfold, pow2};
use vstd::prelude::*;

verus! {

/// The number of fractional bits.
pub const FRACTION_BITS: u32 = 16;

/// The fixed-point value of 1.
pub const ONE: u32 = 0x1_0000;

/// The mantissa that stands for 1: two to the 31st.
pub const MANTISSA_ONE: u64 = 0x8000_0000;

/// The bound of the mantissas, which stands for 2: two to the 32nd.
pub const MANTISSA_TWO: u64 = 0x1_0000_0000;

/// The integer part of the base-two logarithm of `x`: the position of its
/// highest set bit. Zero for `x = 0`.
pub open spec fn floor_log2(x: nat) -> nat
    decreases x,
{
    if x <= 1 {
        0
    } else {
        1 + floor_log2(x / 2)
    }
}

/// `x` doubled or halved (rounding down) until it lies in
/// `[MANTISSA_ONE, MANTISSA_TWO)`. Zero for `x = 0`.
pub open spec fn mantissa(x: nat) -> nat
    decreases
            (if x < MANTISSA_ONE {
                2 * MANTISSA_TWO - x
            } else {
                x as int
            }),
{
    if x == 0 {
        0
    } else if x < MANTISSA_ONE {
        mantissa(2 * x)
    } else if x >= MANTISSA_TWO {
        mantissa(x / 2)
    } else {
        x
    }
}

/// The first `bits` fractional bits of the logarithm of the mantissa `m`,
/// as a number below `pow2(bits)`.
pub open spec fn fraction(m: nat, bits: nat) -> nat
    decreases bits,
{
    if bits == 0 {
        0
    } else {
        let square = m * m;
        if square >= 0x8000_0000_0000_0000 {
            pow2((bits - 1) as nat) + fraction(square / 0x1_0000_0000, (bits - 1) as nat)
        } else {
            fraction(square / 0x8000_0000, (bits - 1) as nat)
        }
    }
}

/// The base-two logarithm of `x` in fixed point: `floor_log2(x)` whole bits
/// and sixteen fractional bits of the mantissa's logarithm. Zero for
/// `x = 0`.
pub open spec fn log2_fixed(x: nat) -> nat {
    floor_log2(x) * (ONE as nat) + fraction(mantissa(x), FRACTION_BITS as nat)
}

/// `floor_log2(x)` is `e` exactly where `x` lies between the `e`-th power
/// of two and the next.
pub proof fn lemma_floor_log2_bracket(x: nat, e: nat)
    requires
        x >= 1,
    ensures
        floor_log2(x) == e <==> pow2(e) <= x < pow2(e + 1),
    decreases x,
{
    lemma2_to64();
    if x == 1 {
        if e > 0 {
            lemma_pow2_strictly_increases(0, e);
        } else {
            lemma_pow2_unfold(1);
        }
    } else {
        if e == 0 {
            lemma_pow2_unfold(1);
        } else {
            lemma_floor_log2_bracket(x / 2, (e - 1) as nat);
            lemma_pow2_unfold(e);
            lemma_pow2_unfold(e + 1);
        }
    }
}

/// `floor_log2` never decreases.
pub proof fn lemma_floor_log2_monotone(x: nat, y: nat)
    requires
        x <= y,
    ensures
        floor_log2(x) <= floor_log2(y),
    decreases y,
{
    if x > 1 {
        lemma_floor_log2_monotone(x / 2, y / 2);
    }
}

/// Doubling adds one to `floor_log2` and leaves the mantissa as it is.
pub proof fn lemma_double(x: nat)
    requires
        x >= 1,
    ensures
        floor_log2(2 * x) == floor_log2(x) + 1,
        mantissa(2 * x) == mantissa(x),
        log2_fixed(2 * x) == log2_fixed(x) + ONE,
{
    assert((2 * x) / 2 == x);
    assert((floor_log2(x) + 1) * ONE == floor_log2(x) * ONE + ONE) by (nonlinear_arith);
}

/// Multiplying by the `k`-th power of two adds `k` to the logarithm.
pub proof fn lemma_log2_scaled(x: nat, k: nat)
    requires
        x >= 1,
    ensures
        log2_fixed(pow2(k) * x) == log2_fixed(x) + k * ONE,
    decreases k,
{
    lemma2_to64();
    if k == 0 {
        assert(pow2(0) * x == x);
    } else {
        let j = (k - 1) as nat;
        lemma_log2_scaled(x, j);
        lemma_pow2_unfold(k);
        vstd::arithmetic::power2::lemma_pow2_pos(j);
        assert(pow2(j) * x >= 1) by (nonlinear_arith)
            requires
                pow2(j) >= 1,
                x >= 1,
        ;
        lemma_double(pow2(j) * x);
        assert(2 * (pow2(j) * x) == pow2(k) * x) by (nonlinear_arith)
            requires
                pow2(k) == 2 * pow2(j),
        ;
        assert(j * ONE + ONE == k * ONE) by (nonlinear_arith)
            requires
                j + 1 == k,
        ;
    }
}

/// The mantissa of a positive number lies in `[MANTISSA_ONE, MANTISSA_TWO)`.
pub proof fn lemma_mantissa_range(x: nat)
    requires
        x >= 1,
    ensures
        MANTISSA_ONE <= mantissa(x) < MANTISSA_TWO,
    decreases
            (if x < MANTISSA_ONE {
                2 * MANTISSA_TWO - x
            } else {
                x as int
            }),
{
    if x < MANTISSA_ONE {
        lemma_mantissa_range(2 * x);
    } else if x >= MANTISSA_TWO {
        lemma_mantissa_range(x / 2);
    }
}

/// The square of a mantissa lies between the squares of the bounds.
pub proof fn lemma_square_range(m: nat)
    requires
        MANTISSA_ONE <= m < MANTISSA_TWO,
    ensures
        0x4000_0000_0000_0000 <= m * m < 0x1_0000_0000_0000_0000,
{
    assert(0x8000_0000 * 0x8000_0000 <= m * m) by (nonlinear_arith)
        requires
            0x8000_0000 <= m,
    ;
    assert(m * m <= 0xffff_ffff * 0xffff_ffff) by (nonlinear_arith)
        requires
            m <= 0xffff_ffff,
    ;
}

/// The fractional bits are a number below `pow2(bits)`.
pub proof fn lemma_fraction_bound(m: nat, bits: nat)
    ensures
        fraction(m, bits) < pow2(bits),
    decreases bits,
{
    lemma2_to64();
    if bits > 0 {
        let square = m * m;
        lemma_pow2_unfold(bits);
        lemma_fraction_bound(square / 0x1_0000_0000, (bits - 1) as nat);
        lemma_fraction_bound(square / 0x8000_0000, (bits - 1) as nat);
    }
}

/// A larger mantissa has no smaller fraction.
pub proof fn lemma_fraction_monotone(a: nat, b: nat, bits: nat)
    requires
        MANTISSA_ONE <= a <= b < MANTISSA_TWO,
    ensures
        fraction(a, bits) <= fraction(b, bits),
    decreases bits,
{
    if bits > 0 {
        let rest = (bits - 1) as nat;
        lemma_square_range(a);
        lemma_square_range(b);
        assert(a * a <= b * b) by (nonlinear_arith)
            requires
                a <= b,
        ;
        if a * a >= 0x8000_0000_0000_0000 {
            lemma_fraction_monotone((a * a) / 0x1_0000_0000, (b * b) / 0x1_0000_0000, rest);
        } else if b * b >= 0x8000_0000_0000_0000 {
            lemma_fraction_bound((a * a) / 0x8000_0000, rest);
        } else {
            lemma_fraction_monotone((a * a) / 0x8000_0000, (b * b) / 0x8000_0000, rest);
        }
    }
}

/// Of two numbers with the same integer logarithm, the larger has no
/// smaller mantissa.
proof fn lemma_mantissa_monotone(x: nat, y: nat)
    requires
        1 <= x <= y,
        floor_log2(x) == floor_log2(y),
    ensures
        mantissa(x) <= mantissa(y),
    decreases
            (if x < MANTISSA_ONE {
                2 * MANTISSA_TWO - x
            } else {
                x as int
            }),
{
    lemma2_to64();
    let e = floor_log2(x);
    lemma_floor_log2_bracket(x, e);
    lemma_floor_log2_bracket(y, e);
    if x < MANTISSA_ONE {
        if e >= 31 {
            if e > 31 {
                lemma_pow2_strictly_increases(31, e);
            }
        }
        assert(e + 1 <= 31);
        if e + 1 < 31 {
            lemma_pow2_strictly_increases(e + 1, 31);
        }
        assert(y < MANTISSA_ONE);
        lemma_double(x);
        lemma_double(y);
        lemma_mantissa_monotone(2 * x, 2 * y);
    } else if x >= MANTISSA_TWO {
        lemma_mantissa_monotone(x / 2, y / 2);
    } else {
        if e > 31 {
            lemma_pow2_strictly_increases(32, e + 1);
            if e > 32 {
                lemma_pow2_strictly_increases(32, e);
            }
        }
        if e < 31 {
            if e + 1 < 31 {
                lemma_pow2_strictly_increases(e + 1, 31);
            }
        }
        assert(e == 31);
    }
}

/// The logarithm never decreases.
pub proof fn lemma_log2_monotone(x: nat, y: nat)
    requires
        x <= y,
    ensures
        log2_fixed(x) <= log2_fixed(y),
{
    lemma2_to64();
    if x == 0 {
        assert(fraction(0, 16) == 0) by {
            lemma_fraction_of_zero(16);
        }
    } else {
        lemma_floor_log2_monotone(x, y);
        lemma_mantissa_range(x);
        lemma_mantissa_range(y);
        let ex = floor_log2(x);
        let ey = floor_log2(y);
        if ex < ey {
            lemma_fraction_bound(mantissa(x), 16);
            assert(ex * ONE + ONE <= ey * ONE) by (nonlinear_arith)
                requires
                    ex + 1 <= ey,
            ;
        } else {
            lemma_mantissa_monotone(x, y);
            lemma_fraction_monotone(mantissa(x), mantissa(y), 16);
        }
    }
}

/// A mantissa of zero has no fractional bits.
proof fn lemma_fraction_of_zero(bits: nat)
    ensures
        fraction(0, bits) == 0,
    decreases bits,
{
    if bits > 0 {
        assert(0 * 0 == 0);
        assert(0nat / 0x8000_0000 == 0);
        lemma_fraction_of_zero((bits - 1) as nat);
    }
}

/// The whole part of the logarithm is exact: it is `floor_log2(x)`, the
/// exponent of the largest power of two that is at most `x`.
pub proof fn lemma_log2_whole_part(x: nat)
    requires
        x >= 1,
    ensures
        log2_fixed(x) / (ONE as nat) == floor_log2(x),
        pow2(floor_log2(x)) <= x < pow2(floor_log2(x) + 1),
{
    lemma2_to64();
    lemma_fraction_bound(mantissa(x), 16);
    lemma_floor_log2_bracket(x, floor_log2(x));
    let e = floor_log2(x);
    let f = fraction(mantissa(x), 16);
    assert((e * 65536 + f) / 65536 == e) by (nonlinear_arith)
        requires
            0 <= f < 65536,
    ;
}

/// The logarithm of a number below the 64th power of two is below 64.
pub proof fn lemma_log2_bound(x: nat)
    requires
        x < 0x1_0000_0000_0000_0000,
    ensures
        floor_log2(x) <= 63,
        log2_fixed(x) < 64 * ONE,
{
    lemma2_to64();
    lemma_fraction_bound(mantissa(x), 16);
    if x >= 1 {
        let e = floor_log2(x);
        lemma_floor_log2_bracket(x, e);
        if e > 64 {
            lemma_pow2_strictly_increases(64, e);
        }
        assert(e <= 63);
    }
    assert(floor_log2(x) * ONE <= 63 * ONE) by (nonlinear_arith)
        requires
            floor_log2(x) <= 63,
    ;
}

/// Computes the base-two logarithm of `x` in fixed point.
pub fn log2(x: u64) -> (r: u32)
    ensures
        r == log2_fixed(x as nat),
        r < 64 * ONE,
{
    proof {
        lemma2_to64();
        lemma_log2_bound(x as nat);
    }
    if x == 0 {
        proof {
            lemma_fraction_of_zero(16);
        }
        return 0;
    }
    let mut m: u64 = x;
    let mut e: u32 = 31;
    if x < MANTISSA_ONE {
        while m < MANTISSA_ONE
            invariant
                1 <= m < MANTISSA_TWO,
                e <= 31,
                mantissa(m as nat) == mantissa(x as nat),
                floor_log2(m as nat) == floor_log2(x as nat) + (31 - e),
            decreases MANTISSA_TWO - m,
        {
            proof {
                lemma2_to64();
                lemma_double(m as nat);
                let em = floor_log2(m as nat);
                lemma_floor_log2_bracket(m as nat, em);
                if em > 31 {
                    lemma_pow2_strictly_increases(31, em);
                }
                assert(em <= 30);
            }
            m = 2 * m;
            e = e - 1;
        }
    } else {
        while m >= MANTISSA_TWO
            invariant
                MANTISSA_ONE <= m,
                31 <= e <= 63,
                mantissa(m as nat) == mantissa(x as nat),
                floor_log2(x as nat) == floor_log2(m as nat) + (e - 31),
                floor_log2(x as nat) <= 63,
            decreases m,
        {
            proof {
                lemma2_to64();
                let em = floor_log2(m as nat);
                lemma_floor_log2_bracket(m as nat, em);
                if em + 1 < 32 {
                    lemma_pow2_strictly_increases(em + 1, 32);
                }
                assert(em >= 32);
            }
            m = m / 2;
            e = e + 1;
        }
    }
    proof {
        lemma2_to64();
        lemma_floor_log2_bracket(m as nat, 31);
    }
    assert(e == floor_log2(x as nat));
    let ghost m0 = m;
    let mut acc: u32 = 0;
    let mut bits: u32 = FRACTION_BITS;
    while bits > 0
        invariant
            MANTISSA_ONE <= m < MANTISSA_TWO,
            bits <= 16,
            acc < pow2((16 - bits) as nat),
            acc * pow2(bits as nat) + fraction(m as nat, bits as nat) == fraction(m0 as nat, 16),
        decreases bits,
    {
        proof {
            lemma2_to64();
            lemma_square_range(m as nat);
            lemma_pow2_unfold(bits as nat);
            lemma_pow2_unfold((16 - bits + 1) as nat);
            if bits < 16 {
                lemma_pow2_strictly_increases((16 - bits + 1) as nat, 17);
            }
            lemma_pow2_unfold(17);
        }
        let ghost old_acc = acc;
        let ghost rest = pow2((bits - 1) as nat);
        let square: u64 = m * m;
        if square >= 0x8000_0000_0000_0000 {
            acc = 2 * acc + 1;
            m = square / 0x1_0000_0000;
            proof {
                assert((2 * old_acc + 1) * rest == old_acc * (2 * rest) + rest)
                    by (nonlinear_arith);
            }
        } else {
            acc = 2 * acc;
            m = square / 0x8000_0000;
            proof {
                assert((2 * old_acc) * rest == old_acc * (2 * rest)) by (nonlinear_arith);
            }
        }
        bits = bits - 1;
    }
    proof {
        lemma2_to64();
        assert(acc * pow2(0) == acc) by (nonlinear_arith)
            requires
                pow2(0) == 1,
        ;
        assert(e * ONE <= 63 * ONE) by (nonlinear_arith)
            requires
                e <= 63,
        ;
    }
    e * ONE + acc
}

} // verus!
