//! How close the fixed-point logarithm is to the real one.
//!
//! For `x >= 1` the logarithm `l = log2_fixed(x)` satisfies
//! `2^l <= x^65536 < 2^(l + 2)`: divided by `ONE`, it lies at most two units
//! of the last fractional bit below the real base-two logarithm of `x`, and
//! never above it.
//!
//! For the entropy this means: with `n` bytes sampled, `c(v)` occurrences
//! of each value and `d = n * log2_fixed(n) - sum of c(v) * log2_fixed(c(v))`,
//! the quotient `d / n`, which the score is rounded up from, lies within
//! two units of 65536 times Shannon's entropy
//! `log2(n) - (sum of c(v) * log2(c(v))) / n`. No real number enters the
//! statements: they compare powers of two with powers of the counts.

use crate::fixed::{
    floor_log2, fraction, lemma_floor_log2_bracket, lemma_mantissa_range, lemma_square_range,
    log2_fixed, mantissa, MANTISSA_ONE, MANTISSA_TWO, ONE,
};
use crate::histogram::{
    lemma_occurrences_total, lemma_weighted_total_bound, occurrences, occurrences_below,
    weighted_total,
};
use vstd::arithmetic::power::{lemma_pow1, lemma_pow_multiplies, lemma_square_is_pow2, pow};
use vstd::arithmetic::power2::{
    lemma2_to64, lemma_pow2, lemma_pow2_adds, lemma_pow2_pos, lemma_pow2_unfold, pow2,
};
use vstd::prelude::*;

verus! {

/// `b` squared `k` times: `b` to the power of `pow2(k)`.
pub open spec fn squared(b: nat, k: nat) -> nat
    decreases k,
{
    if k == 0 {
        b
    } else {
        squared(b * b, (k - 1) as nat)
    }
}

/// Squaring `k` times is raising to the power of `pow2(k)`.
pub proof fn lemma_squared_is_power(b: nat, k: nat)
    ensures
        squared(b, k) == pow(b as int, pow2(k)),
    decreases k,
{
    lemma2_to64();
    if k == 0 {
        lemma_pow1(b as int);
    } else {
        let j = (k - 1) as nat;
        lemma_squared_is_power(b * b, j);
        lemma_square_is_pow2(b as int);
        lemma_pow_multiplies(b as int, 2, pow2(j));
        lemma_pow2_unfold(k);
        assert((b * b) as int == pow(b as int, 2));
        assert(2 * pow2(j) == pow2(k));
    }
}

/// Squaring a product squares the factors.
pub proof fn lemma_squared_product(a: nat, b: nat, k: nat)
    ensures
        squared(a * b, k) == squared(a, k) * squared(b, k),
    decreases k,
{
    if k > 0 {
        assert((a * b) * (a * b) == (a * a) * (b * b)) by (nonlinear_arith);
        lemma_squared_product(a * a, b * b, (k - 1) as nat);
    }
}

/// Squaring keeps the order.
pub proof fn lemma_squared_monotone(a: nat, b: nat, k: nat)
    requires
        a <= b,
    ensures
        squared(a, k) <= squared(b, k),
    decreases k,
{
    if k > 0 {
        assert(a * a <= b * b) by (nonlinear_arith)
            requires
                a <= b,
        ;
        lemma_squared_monotone(a * a, b * b, (k - 1) as nat);
    }
}

/// Squaring a positive number gives a positive number.
pub proof fn lemma_squared_positive(b: nat, k: nat)
    requires
        b >= 1,
    ensures
        squared(b, k) >= 1,
    decreases k,
{
    if k > 0 {
        assert(b * b >= 1) by (nonlinear_arith)
            requires
                b >= 1,
        ;
        lemma_squared_positive(b * b, (k - 1) as nat);
    }
}

/// A power of two squared `k` times: the exponent times `pow2(k)`.
pub proof fn lemma_squared_pow2(a: nat, k: nat)
    ensures
        squared(pow2(a), k) == pow2(a * pow2(k)),
    decreases k,
{
    lemma2_to64();
    if k == 0 {
        assert(a * 1 == a);
    } else {
        let j = (k - 1) as nat;
        lemma_pow2_adds(a, a);
        lemma_squared_pow2(a + a, j);
        lemma_pow2_unfold(k);
        assert((a + a) * pow2(j) == a * pow2(k)) by (nonlinear_arith)
            requires
                pow2(k) == 2 * pow2(j),
        ;
    }
}

/// The fractional bits of a mantissa are no more than its real logarithm
/// has: two to their power, times the mantissa of 1 squared `bits` times,
/// is at most the mantissa squared `bits` times.
pub proof fn lemma_fraction_lower(m: nat, bits: nat)
    requires
        MANTISSA_ONE <= m < MANTISSA_TWO,
    ensures
        pow2(fraction(m, bits)) * squared(0x8000_0000, bits) <= squared(m, bits),
    decreases bits,
{
    lemma2_to64();
    if bits > 0 {
        let j = (bits - 1) as nat;
        let sq = m * m;
        lemma_square_range(m);
        let unit = squared(0x8000_0000, j);
        lemma_squared_product(0x8000_0000, 0x8000_0000, j);
        assert(0x8000_0000nat * 0x8000_0000nat == 0x4000_0000_0000_0000nat);
        assert(squared(0x8000_0000, bits) == unit * unit);
        if sq >= 0x8000_0000_0000_0000 {
            let next = sq / 0x1_0000_0000;
            let rest = fraction(next, j);
            lemma_fraction_lower(next, j);
            assert(next * 0x1_0000_0000 <= sq);
            lemma_squared_monotone(next * 0x1_0000_0000, sq, j);
            lemma_squared_product(next, 0x1_0000_0000, j);
            lemma_squared_product(2, 0x8000_0000, j);
            assert(2nat * 0x8000_0000nat == 0x1_0000_0000nat);
            lemma_squared_pow2(1, j);
            assert(1 * pow2(j) == pow2(j));
            let two = pow2(pow2(j));
            assert(squared(0x1_0000_0000, j) == two * unit);
            lemma_pow2_adds(pow2(j), rest);
            assert(pow2(fraction(m, bits)) == two * pow2(rest));
            assert((two * pow2(rest)) * (unit * unit) <= squared(next, j) * (two * unit))
                by (nonlinear_arith)
                requires
                    pow2(rest) * unit <= squared(next, j),
            ;
        } else {
            let next = sq / 0x8000_0000;
            let rest = fraction(next, j);
            lemma_fraction_lower(next, j);
            assert(next * 0x8000_0000 <= sq);
            lemma_squared_monotone(next * 0x8000_0000, sq, j);
            lemma_squared_product(next, 0x8000_0000, j);
            assert(pow2(rest) * (unit * unit) <= squared(next, j) * unit) by (nonlinear_arith)
                requires
                    pow2(rest) * unit <= squared(next, j),
            ;
        }
    } else {
        assert(1 * squared(0x8000_0000, bits) == squared(0x8000_0000, bits));
    }
}

/// Three to the power of `k`.
pub open spec fn three_to(k: nat) -> nat
    decreases k,
{
    if k == 0 {
        1
    } else {
        3 * three_to((k - 1) as nat)
    }
}

proof fn lemma_three_to_positive(k: nat)
    ensures
        three_to(k) >= 1,
    decreases k,
{
    if k > 0 {
        lemma_three_to_positive((k - 1) as nat);
    }
}

/// The fractional bits of a mantissa fall short of the real logarithm by
/// less than two units, also where the mantissa itself was rounded down:
/// a number `x` at or little above the mantissa `m`, squared `bits` times,
/// stays below two to the power of the bits plus two, times the mantissa
/// of 1 squared `bits` times. Each squaring at most triples the distance
/// between the rounded value and the true one.
pub proof fn lemma_fraction_upper(m: nat, x: nat, bits: nat)
    requires
        MANTISSA_ONE <= m < MANTISSA_TWO,
        m <= x,
        (x - m + 2) * three_to(bits) <= 129140163,
    ensures
        squared(x, bits) < pow2(fraction(m, bits) + 2) * squared(0x8000_0000, bits),
    decreases bits,
{
    lemma2_to64();
    lemma_three_to_positive(bits);
    let e = (x - m) as nat;
    assert(e + 2 <= 129140163) by (nonlinear_arith)
        requires
            (e + 2) * three_to(bits) <= 129140163,
            three_to(bits) >= 1,
    ;
    if bits > 0 {
        let j = (bits - 1) as nat;
        let sq = m * m;
        let xx = x * x;
        lemma_square_range(m);
        lemma_three_to_positive(j);
        assert(xx == sq + 2 * m * e + e * e) by (nonlinear_arith)
            requires
                x == m + e,
                xx == x * x,
                sq == m * m,
        ;
        let unit = squared(0x8000_0000, j);
        lemma_squared_positive(0x8000_0000, j);
        lemma_squared_product(0x8000_0000, 0x8000_0000, j);
        assert(0x8000_0000nat * 0x8000_0000nat == 0x4000_0000_0000_0000nat);
        assert(squared(0x8000_0000, bits) == unit * unit);
        let up = 3 * e + 4;
        assert((up + 2) * three_to(j) <= 129140163) by (nonlinear_arith)
            requires
                up == 3 * e + 4,
                (e + 2) * (3 * three_to(j)) <= 129140163,
        ;
        if sq >= 0x8000_0000_0000_0000 {
            let next = sq / 0x1_0000_0000;
            let rest = fraction(next, j);
            let above = next + up;
            assert(sq < (next + 1) * 0x1_0000_0000);
            assert(2 * m * e <= 2 * e * 0x1_0000_0000) by (nonlinear_arith)
                requires
                    m < 0x1_0000_0000,
            ;
            assert(e * e <= e * 0x1_0000_0000) by (nonlinear_arith)
                requires
                    e <= 0x1_0000_0000,
            ;
            assert(xx <= above * 0x1_0000_0000) by (nonlinear_arith)
                requires
                    xx == sq + 2 * m * e + e * e,
                    sq < (next + 1) * 0x1_0000_0000,
                    2 * m * e <= 2 * e * 0x1_0000_0000,
                    e * e <= e * 0x1_0000_0000,
                    above == next + 3 * e + 4,
            ;
            lemma_fraction_upper(next, above, j);
            lemma_squared_monotone(xx, above * 0x1_0000_0000, j);
            lemma_squared_product(above, 0x1_0000_0000, j);
            lemma_squared_product(2, 0x8000_0000, j);
            assert(2nat * 0x8000_0000nat == 0x1_0000_0000nat);
            lemma_squared_pow2(1, j);
            assert(1 * pow2(j) == pow2(j));
            let two = pow2(pow2(j));
            lemma_pow2_pos(pow2(j));
            assert(squared(0x1_0000_0000, j) == two * unit);
            lemma_pow2_adds(pow2(j), rest + 2);
            assert(pow2(fraction(m, bits) + 2) == two * pow2(rest + 2));
            assert(squared(above, j) * (two * unit) < (two * pow2(rest + 2)) * (unit * unit))
                by (nonlinear_arith)
                requires
                    squared(above, j) < pow2(rest + 2) * unit,
                    two >= 1,
                    unit >= 1,
            ;
        } else {
            let next = sq / 0x8000_0000;
            let rest = fraction(next, j);
            let above = next + up;
            assert(sq < (next + 1) * 0x8000_0000);
            assert(m <= 3037000499) by (nonlinear_arith)
                requires
                    m * m < 0x8000_0000_0000_0000,
            ;
            assert(2 * m * e + e * e <= 3 * e * 0x8000_0000) by (nonlinear_arith)
                requires
                    m <= 3037000499,
                    e <= 129140163,
            ;
            assert(xx <= above * 0x8000_0000) by (nonlinear_arith)
                requires
                    xx == sq + 2 * m * e + e * e,
                    sq < (next + 1) * 0x8000_0000,
                    2 * m * e + e * e <= 3 * e * 0x8000_0000,
                    above == next + 3 * e + 4,
            ;
            lemma_fraction_upper(next, above, j);
            lemma_squared_monotone(xx, above * 0x8000_0000, j);
            lemma_squared_product(above, 0x8000_0000, j);
            assert(squared(above, j) * unit < pow2(rest + 2) * (unit * unit)) by (nonlinear_arith)
                requires
                    squared(above, j) < pow2(rest + 2) * unit,
                    unit >= 1,
            ;
        }
    } else {
        assert(pow2(fraction(m, bits) + 2) == 4);
    }
}

/// The mantissa of `x` is `x` scaled by a power of two and rounded down:
/// with `e = floor_log2(x)`, the mantissa times `pow2(e)` is at most `x`
/// times the mantissa of 1, and the next mantissa is beyond it.
pub proof fn lemma_mantissa_bracket(x: nat)
    requires
        x >= 1,
    ensures
        mantissa(x) * pow2(floor_log2(x)) <= x * 0x8000_0000,
        x * 0x8000_0000 < (mantissa(x) + 1) * pow2(floor_log2(x)),
        x >= MANTISSA_ONE ==> (x + 1) * 0x8000_0000 <= (mantissa(x) + 1) * pow2(floor_log2(x)),
    decreases
            (if x < MANTISSA_ONE {
                2 * MANTISSA_TWO - x
            } else {
                x as int
            }),
{
    lemma2_to64();
    let e = floor_log2(x);
    let m = mantissa(x);
    lemma_pow2_pos(e);
    if x < MANTISSA_ONE {
        lemma_mantissa_bracket(2 * x);
        assert((2 * x) / 2 == x);
        assert(floor_log2(2 * x) == e + 1);
        lemma_pow2_unfold(e + 1);
        assert(m * pow2(e) <= x * 0x8000_0000) by (nonlinear_arith)
            requires
                m * (2 * pow2(e)) <= (2 * x) * 0x8000_0000,
        ;
        assert(x * 0x8000_0000 < (m + 1) * pow2(e)) by (nonlinear_arith)
            requires
                (2 * x) * 0x8000_0000 < (m + 1) * (2 * pow2(e)),
        ;
    } else if x >= MANTISSA_TWO {
        let h = x / 2;
        lemma_mantissa_bracket(h);
        assert(floor_log2(h) + 1 == e);
        lemma_pow2_unfold(e);
        let half = pow2(floor_log2(h));
        assert(m * (2 * half) <= x * 0x8000_0000) by (nonlinear_arith)
            requires
                m * half <= h * 0x8000_0000,
                2 * h <= x,
        ;
        assert((x + 1) * 0x8000_0000 <= (m + 1) * (2 * half)) by (nonlinear_arith)
            requires
                (h + 1) * 0x8000_0000 <= (m + 1) * half,
                x + 1 <= 2 * h + 2,
        ;
    } else {
        lemma_floor_log2_bracket(x, 31);
        assert(e == 31);
    }
}

/// The accuracy of the logarithm. For `x >= 1`, two to the power of
/// `log2_fixed(x)` is at most `x` to the power of 65536, and two to the
/// power of `log2_fixed(x) + 2` is beyond it. In real numbers:
/// `log2_fixed(x) / ONE <= log2(x) < (log2_fixed(x) + 2) / ONE`.
pub proof fn lemma_log2_accuracy(x: nat)
    requires
        x >= 1,
    ensures
        pow2(log2_fixed(x)) <= pow(x as int, 65536),
        pow(x as int, 65536) < pow2(log2_fixed(x) + 2),
{
    lemma2_to64();
    let e = floor_log2(x);
    let m = mantissa(x);
    let f = fraction(m, 16);
    lemma_mantissa_range(x);
    lemma_mantissa_bracket(x);
    lemma_squared_is_power(x, 16);
    let sx = squared(x, 16);
    let sm = squared(m, 16);
    let above = squared(m + 1, 16);
    let unit = squared(0x8000_0000, 16);
    let scale = squared(pow2(e), 16);
    lemma_squared_positive(0x8000_0000, 16);
    lemma_squared_pow2(e, 16);
    assert(scale == pow2(e * 65536));
    assert(e * 65536 == e * (ONE as nat));
    lemma_pow2_adds(e * 65536, f);
    lemma_pow2_adds(e * 65536, f + 2);
    assert(log2_fixed(x) == e * 65536 + f);
    // from below
    lemma_fraction_lower(m, 16);
    lemma_squared_monotone(m * pow2(e), x * 0x8000_0000, 16);
    lemma_squared_product(m, pow2(e), 16);
    lemma_squared_product(x, 0x8000_0000, 16);
    assert(pow2(f) * scale <= sx) by (nonlinear_arith)
        requires
            pow2(f) * unit <= sm,
            sm * scale <= sx * unit,
            unit >= 1,
    ;
    // from above
    assert(three_to(16) == 43046721) by {
        reveal_with_fuel(three_to, 17);
    }
    lemma_fraction_upper(m, m + 1, 16);
    lemma_squared_monotone(x * 0x8000_0000, (m + 1) * pow2(e), 16);
    lemma_squared_product(m + 1, pow2(e), 16);
    lemma_pow2_pos(e * 65536);
    assert(sx < pow2(f + 2) * scale) by (nonlinear_arith)
        requires
            above < pow2(f + 2) * unit,
            sx * unit <= above * scale,
            unit >= 1,
            scale >= 1,
    ;
    assert(pow2(e * 65536) * pow2(f) == pow2(f) * scale) by (nonlinear_arith)
        requires
            scale == pow2(e * 65536),
    ;
    assert(pow2(e * 65536) * pow2(f + 2) == pow2(f + 2) * scale) by (nonlinear_arith)
        requires
            scale == pow2(e * 65536),
    ;
}

/// A larger base gives no smaller power, and a larger one where the
/// exponent is not zero.
pub proof fn lemma_power_of_larger_base(a: int, b: int, e: nat)
    requires
        0 <= a <= b,
    ensures
        0 <= pow(a, e) <= pow(b, e),
        a < b && e > 0 ==> pow(a, e) < pow(b, e),
        a >= 1 ==> pow(a, e) >= 1,
    decreases e,
{
    reveal(pow);
    if e > 0 {
        let rest = (e - 1) as nat;
        lemma_power_of_larger_base(a, b, rest);
        assert(a * pow(a, rest) <= b * pow(b, rest)) by (nonlinear_arith)
            requires
                0 <= a <= b,
                0 <= pow(a, rest) <= pow(b, rest),
        ;
        assert(a * pow(a, rest) >= 0) by (nonlinear_arith)
            requires
                0 <= a,
                0 <= pow(a, rest),
        ;
        if a >= 1 {
            assert(a * pow(a, rest) >= 1) by (nonlinear_arith)
                requires
                    1 <= a,
                    1 <= pow(a, rest),
            ;
        }
        if a < b {
            lemma_power_of_larger_base(b, b, rest);
            assert(pow(b, rest) >= 1);
            assert(a * pow(a, rest) < b * pow(b, rest)) by (nonlinear_arith)
                requires
                    0 <= a < b,
                    0 <= pow(a, rest) <= pow(b, rest),
                    pow(b, rest) >= 1,
            ;
        }
    }
}

/// A power of two to the power of `c`: the exponent times `c`.
proof fn lemma_power_of_pow2(l: nat, c: nat)
    ensures
        pow(pow2(l) as int, c) == pow2(l * c),
{
    lemma_pow2(l);
    lemma_pow_multiplies(2, l, c);
    lemma_pow2(l * c);
}

/// The accuracy of one term. For a count `c >= 1`, two to the power of
/// `c * log2_fixed(c)` is at most `c` to the power of `65536 * c`, and two
/// to the power of `c * log2_fixed(c) + 2 * c` is beyond it.
pub proof fn lemma_term_accuracy(c: nat)
    requires
        c >= 1,
    ensures
        pow2(c * log2_fixed(c)) <= pow(c as int, 65536 * c),
        pow(c as int, 65536 * c) < pow2(c * log2_fixed(c) + 2 * c),
{
    let l = log2_fixed(c);
    lemma_log2_accuracy(c);
    lemma_pow2_pos(l);
    let low = pow2(l) as int;
    let mid = pow(c as int, 65536);
    let high = pow2(l + 2) as int;
    lemma_power_of_larger_base(low, mid, c);
    lemma_power_of_larger_base(mid, high, c);
    lemma_power_of_pow2(l, c);
    lemma_power_of_pow2(l + 2, c);
    lemma_pow_multiplies(c as int, 65536, c);
    assert(l * c == c * l) by (nonlinear_arith);
    assert((l + 2) * c == c * l + 2 * c) by (nonlinear_arith);
}

/// The counts of the byte values below `bound`, each raised to the power
/// of 65536 times itself, multiplied. (A count of zero adds the factor
/// one.)
pub open spec fn occurrence_powers(sample: Seq<u8>, bound: nat) -> int
    decreases bound,
{
    if bound == 0 {
        1
    } else {
        let c = occurrences(sample, (bound - 1) as u8);
        occurrence_powers(sample, (bound - 1) as nat) * pow(c as int, 65536 * c)
    }
}

/// The accuracy of the sum of the terms: two to the power of the sum is at
/// most the product of the counts' powers, which is at most two to the
/// power of the sum plus twice the number of bytes counted.
pub proof fn lemma_terms_accuracy(sample: Seq<u8>, bound: nat)
    requires
        bound <= 256,
    ensures
        1 <= pow2(weighted_total(sample, bound)) <= occurrence_powers(sample, bound),
        occurrence_powers(sample, bound) <= pow2(
            weighted_total(sample, bound) + 2 * occurrences_below(sample, bound),
        ),
    decreases bound,
{
    lemma2_to64();
    if bound > 0 {
        let rest = (bound - 1) as nat;
        let c = occurrences(sample, rest as u8);
        let sum = weighted_total(sample, rest);
        let seen = occurrences_below(sample, rest);
        let product = occurrence_powers(sample, rest);
        let factor = pow(c as int, 65536 * c);
        let term = c * log2_fixed(c);
        lemma_terms_accuracy(sample, rest);
        lemma_pow2_pos(sum + term);
        lemma_pow2_adds(sum, term);
        lemma_pow2_adds(sum + 2 * seen, term + 2 * c);
        assert(sum + 2 * seen + (term + 2 * c) == (sum + term) + 2 * (seen + c));
        if c == 0 {
            reveal(pow);
            assert(65536 * c == 0);
            assert(factor == 1);
            assert(term == 0) by (nonlinear_arith)
                requires
                    term == c * log2_fixed(c),
                    c == 0,
            ;
            assert(product * 1 == product);
        } else {
            lemma_term_accuracy(c);
            assert(pow2(sum) * pow2(term) <= product * factor) by (nonlinear_arith)
                requires
                    1 <= pow2(sum) <= product,
                    0 <= pow2(term) <= factor,
            ;
            assert(product * factor <= pow2(sum + 2 * seen) * pow2(term + 2 * c))
                by (nonlinear_arith)
                requires
                    0 <= product <= pow2(sum + 2 * seen),
                    0 <= factor <= pow2(term + 2 * c),
            ;
        }
    }
}

/// The accuracy of the entropy. For a sample of `n >= 1` bytes, let `d` be
/// `n * log2_fixed(n)` less the sum of the terms: the score is `d / n`
/// rounded up, and at most eight bits. Then two to the power of `d`,
/// times the product of the counts' powers, is at most two to the power of
/// `2 * n` times `n` to the power of `65536 * n`; and two to the power of
/// `d + 2 * n`, times that product, is beyond `n` to the power of
/// `65536 * n`. In real numbers, with Shannon's entropy `h` of the sample in
/// bits per byte: `d / n - 2 <= 65536 * h < d / n + 2`.
pub proof fn lemma_entropy_accuracy(sample: Seq<u8>)
    requires
        sample.len() >= 1,
    ensures
        weighted_total(sample, 256) <= sample.len() * log2_fixed(sample.len()),
        ({
            let n = sample.len();
            let d = (n * log2_fixed(n) - weighted_total(sample, 256)) as nat;
            let product = occurrence_powers(sample, 256);
            let whole = pow(n as int, 65536 * n);
            &&& pow2(d) * product <= pow2(2 * n) * whole
            &&& whole < pow2(d + 2 * n) * product
        }),
{
    let n = sample.len();
    let sum = weighted_total(sample, 256);
    let top = n * log2_fixed(n);
    lemma_weighted_total_bound(sample, 256);
    lemma_occurrences_total(sample);
    let d = (top - sum) as nat;
    let product = occurrence_powers(sample, 256);
    let whole = pow(n as int, 65536 * n);
    lemma_terms_accuracy(sample, 256);
    lemma_term_accuracy(n);
    lemma_pow2_adds(d, sum + 2 * n);
    lemma_pow2_adds(2 * n, top);
    lemma_pow2_adds(d + 2 * n, sum);
    lemma_pow2_pos(d);
    lemma_pow2_pos(2 * n);
    lemma_pow2_pos(d + 2 * n);
    assert(d + (sum + 2 * n) == 2 * n + top);
    assert(d + 2 * n + sum == top + 2 * n);
    assert(pow2(d) * product <= pow2(2 * n) * whole) by (nonlinear_arith)
        requires
            0 <= product <= pow2(sum + 2 * n),
            pow2(d) * pow2(sum + 2 * n) == pow2(2 * n) * pow2(top),
            pow2(top) <= whole,
            pow2(d) >= 1,
            pow2(2 * n) >= 1,
    ;
    assert(whole < pow2(d + 2 * n) * product) by (nonlinear_arith)
        requires
            whole < pow2(top + 2 * n),
            pow2(d + 2 * n) * pow2(sum) == pow2(top + 2 * n),
            pow2(sum) <= product,
            pow2(d + 2 * n) >= 1,
    ;
}

} // verus!
