//! What holds of the arithmetic on binary32 patterns.
use crate::binary32;
use vstd::prelude::*;

verus! {

/// Clamping takes a number to the nearest one in `[-1.0, 1.0]`: one in that
/// range stays, and a finite one beyond it becomes the bound on its side.
pub proof fn law_clamp_is_into_range(bits: u32)
    ensures
        ({
            let one = binary32::scaled_value(binary32::ONE);
            let value = binary32::scaled_value(bits);
            &&& one == vstd::arithmetic::power2::pow2(149)
            &&& binary32::scaled_value(binary32::MINUS_ONE) == -one
            &&& binary32::is_finite(bits) ==> binary32::is_finite(binary32::clamped(bits))
                && binary32::scaled_value(binary32::clamped(bits)) == (if value > one {
                one
            } else if value < -one {
                -one
            } else {
                value
            })
            &&& binary32::clamped(binary32::clamped(bits)) == binary32::clamped(bits)
        }),
{
    let p = vstd::arithmetic::power2::pow2(126);
    vstd::arithmetic::power2::lemma_pow2_adds(23, 126);
    vstd::arithmetic::power2::lemma2_to64();
    vstd::arithmetic::power2::lemma_pow2_pos(126);
    assert(binary32::significand(binary32::ONE) == 0x80_0000);
    assert(binary32::significand(binary32::MINUS_ONE) == 0x80_0000);
    assert(binary32::exponent(binary32::ONE) == -23);
    assert(binary32::exponent(binary32::MINUS_ONE) == -23);
    if binary32::is_finite(bits) {
        let m = binary32::significand(bits);
        let e = binary32::exponent(bits) + 149;
        let q = vstd::arithmetic::power2::pow2(e as nat);
        vstd::arithmetic::power2::lemma_pow2_pos(e as nat);
        if binary32::magnitude(bits) > binary32::ONE {
            assert(e >= 126);
            if e > 126 {
                vstd::arithmetic::power2::lemma_pow2_unfold(127);
                if e > 127 {
                    vstd::arithmetic::power2::lemma_pow2_strictly_increases(127, e as nat);
                }
                assert(m * q > 0x80_0000 * p) by (nonlinear_arith)
                    requires
                        m >= 0x80_0000,
                        q >= 2 * p,
                        p > 0,
                ;
            } else {
                assert(m * q > 0x80_0000 * p) by (nonlinear_arith)
                    requires
                        m > 0x80_0000,
                        q == p,
                        p > 0,
                ;
            }
        } else if binary32::magnitude(bits) < binary32::ONE {
            assert(e < 126);
            vstd::arithmetic::power2::lemma_pow2_unfold(126);
            if e < 125 {
                vstd::arithmetic::power2::lemma_pow2_strictly_increases(e as nat, 125);
            }
            assert(m * q <= 0x80_0000 * p) by (nonlinear_arith)
                requires
                    0 <= m < 0x100_0000,
                    2 * q <= p,
                    q > 0,
            ;
            assert(m * q >= 0) by (nonlinear_arith)
                requires
                    m >= 0,
                    q > 0,
            ;
        }
    }
}

/// Dividing a 16-bit sample by 32767 gives the nearest finite number: no other
/// one lies closer to the quotient. (Values are scaled by 2^149, differences
/// by 32767.)
pub proof fn law_normalized_is_nearest(sample: i16, other: u32)
    requires
        binary32::is_finite(other),
    ensures
        binary32::is_finite(binary32::normalized(sample)),
        distance(binary32::normalized(sample), sample) <= distance(other, sample),
{
    vstd::arithmetic::power2::lemma2_to64();
    if sample == 0 {
        assert(binary32::significand(0) == 0);
        assert(0 * vstd::arithmetic::power2::pow2(0) == 0);
        assert(sample * vstd::arithmetic::power2::pow2(149) == 0) by (nonlinear_arith)
            requires
                sample == 0,
        ;
    } else {
        let size: nat = if sample < 0 {
            -sample as nat
        } else {
            sample as nat
        };
        let s = binary32::doublings(size);
        let d = size * vstd::arithmetic::power2::pow2(s);
        let q = binary32::nearest_quotient(d as int, 32767);
        lemma_doubled(size);
        lemma_doublings_bounds(size);
        assert(q == (2 * d + 32767) / 65534);
        assert(2 * d + 32767 - 65534 < 65534 * q <= 2 * d + 32767);
        let bits = binary32::normalized(sample);
        let unit = vstd::arithmetic::power2::pow2((149 - s) as nat);
        lemma_pattern_value(sample < 0, q, s);
        vstd::arithmetic::power2::lemma_pow2_pos((149 - s) as nat);
        vstd::arithmetic::power2::lemma_pow2_adds(s, (149 - s) as nat);
        let whole = vstd::arithmetic::power2::pow2(149);
        assert(size * whole == d * unit) by (nonlinear_arith)
            requires
                whole == vstd::arithmetic::power2::pow2(s) * unit,
                d == size * vstd::arithmetic::power2::pow2(s),
        ;
        assert((-size) * whole == -(size * whole)) by (nonlinear_arith);
        let target = if sample < 0 {
            -(d * unit)
        } else {
            (d * unit) as int
        };
        assert(sample * whole == target);
        let off = if q * 32767 >= d {
            q * 32767 - d
        } else {
            d - q * 32767
        };
        assert(distance(bits, sample) == off * unit) by (nonlinear_arith)
            requires
                distance(bits, sample) == (if binary32::scaled_value(bits) * 32767 >= target {
                    binary32::scaled_value(bits) * 32767 - target
                } else {
                    target - binary32::scaled_value(bits) * 32767
                }),
                binary32::scaled_value(bits) == (if sample < 0 {
                    -(q * unit)
                } else {
                    q * unit
                }),
                target == (if sample < 0 {
                    -(d * unit)
                } else {
                    (d * unit) as int
                }),
                off == (if q * 32767 >= d {
                    q * 32767 - d
                } else {
                    d - q * 32767
                }),
                unit > 0,
        ;
        assert(2 * off <= 32767);
        assert forall|k: int| off <= #[trigger] gap_to(k * 32767, d as int) by {
            if k <= q - 1 {
                assert(k * 32767 <= q * 32767 - 32767);
            } else if k >= q + 1 {
                assert(k * 32767 >= q * 32767 + 32767);
            }
        }
        lemma_other_is_no_closer(sample < 0, other, d, s, off);
    }
}

/// A finite number is no closer to `d` units than a multiple of 32767 units
/// that is at most half of 32767 units off.
proof fn lemma_other_is_no_closer(is_negative: bool, other: u32, d: nat, s: nat, off: int)
    requires
        binary32::is_finite(other),
        binary32::PCM_FLOOR <= d < 2 * binary32::PCM_FLOOR,
        22 <= s <= 38,
        0 <= 2 * off <= 32767,
        forall|k: int| off <= #[trigger] gap_to(k * 32767, d as int),
    ensures
        ({
            let unit = vstd::arithmetic::power2::pow2((149 - s) as nat);
            let target = if is_negative {
                -(d * unit)
            } else {
                (d * unit) as int
            };
            off * unit <= gap_to(binary32::scaled_value(other) * 32767, target)
        }),
{
    let unit = vstd::arithmetic::power2::pow2((149 - s) as nat);
    let x = (binary32::exponent(other) + 149) as nat;
    let m = binary32::significand(other);
    let power = vstd::arithmetic::power2::pow2(x);
    let size = m * power;
    vstd::arithmetic::power2::lemma_pow2_pos((149 - s) as nat);
    vstd::arithmetic::power2::lemma_pow2_pos(x);
    assert(size >= 0) by (nonlinear_arith)
        requires
            m >= 0,
            power > 0,
            size == m * power,
    ;
    assert(off * unit <= d * unit) by (nonlinear_arith)
        requires
            off <= d,
            unit > 0,
    ;
    if is_negative == binary32::negative(other) {
        if x >= 149 - s {
            let up = vstd::arithmetic::power2::pow2((x - (149 - s)) as nat);
            vstd::arithmetic::power2::lemma_pow2_adds((x - (149 - s)) as nat, (149 - s) as nat);
            let k = m * up;
            assert(off <= gap_to(k * 32767, d as int));
            assert(size == k * unit) by (nonlinear_arith)
                requires
                    size == m * power,
                    power == up * unit,
                    k == m * up,
            ;
            assert(off * unit <= gap_to(k * unit * 32767, (d * unit) as int)) by (nonlinear_arith)
                requires
                    off <= gap_to(k * 32767, d as int),
                    unit > 0,
            ;
        } else {
            vstd::arithmetic::power2::lemma_pow2_unfold((149 - s) as nat);
            if x < 148 - s {
                vstd::arithmetic::power2::lemma_pow2_strictly_increases(x, (148 - s) as nat);
            }
            let k: int = 0x80_0000;
            assert(off <= gap_to(k * 32767, d as int));
            assert(size <= 0x80_0000 * unit) by (nonlinear_arith)
                requires
                    size == m * power,
                    0 <= m < 0x100_0000,
                    2 * power <= unit,
                    power > 0,
            ;
            assert(off * unit <= d * unit - size * 32767) by (nonlinear_arith)
                requires
                    size <= 0x80_0000 * unit,
                    off <= d - 0x80_0000 * 32767,
                    unit > 0,
            ;
        }
    }
}

/// How far apart two integers are.
pub open spec fn gap_to(a: int, b: int) -> int {
    if a >= b {
        a - b
    } else {
        b - a
    }
}

/// How far a finite number, times 32767, is from a sample, both scaled by
/// 2^149.
pub open spec fn distance(bits: u32, sample: i16) -> int {
    gap_to(
        binary32::scaled_value(bits) * 32767,
        sample * vstd::arithmetic::power2::pow2(149),
    )
}

proof fn lemma_doubled(n: nat)
    requires
        0 < n < 2 * binary32::PCM_FLOOR,
    ensures
        binary32::PCM_FLOOR <= n * vstd::arithmetic::power2::pow2(binary32::doublings(n)) < 2
            * binary32::PCM_FLOOR,
    decreases 2 * binary32::PCM_FLOOR - n,
{
    vstd::arithmetic::power2::lemma2_to64();
    assert(n * 1 == n);
    if n < binary32::PCM_FLOOR {
        lemma_doubled(2 * n);
        let s = binary32::doublings(2 * n);
        vstd::arithmetic::power2::lemma_pow2_unfold(1 + s);
        assert(n * (2 * vstd::arithmetic::power2::pow2(s)) == (2 * n)
            * vstd::arithmetic::power2::pow2(s)) by (nonlinear_arith);
    }
}

proof fn lemma_doublings_bounds(n: nat)
    requires
        0 < n <= 32768,
    ensures
        22 <= binary32::doublings(n) <= 38,
{
    lemma_doubled(n);
    let s = binary32::doublings(n);
    let p = vstd::arithmetic::power2::pow2(s);
    vstd::arithmetic::power2::lemma2_to64();
    vstd::arithmetic::power2::lemma2_to64_rest();
    if s > 38 {
        vstd::arithmetic::power2::lemma_pow2_strictly_increases(38, s);
        assert(n * p >= p) by (nonlinear_arith)
            requires
                n >= 1,
        ;
        if s > 39 {
            vstd::arithmetic::power2::lemma_pow2_strictly_increases(39, s);
        }
    }
    if s < 22 {
        vstd::arithmetic::power2::lemma_pow2_strictly_increases(s, 22);
        assert(n * p <= 32768 * 4194304) by (nonlinear_arith)
            requires
                n <= 32768,
                p <= 4194304,
        ;
    }
}

proof fn lemma_pattern_value(is_negative: bool, q: int, s: nat)
    requires
        binary32::HIDDEN_BIT <= q <= 2 * binary32::HIDDEN_BIT,
        22 <= s <= 38,
    ensures
        binary32::is_finite(binary32::pattern(is_negative, q, -s)),
        binary32::scaled_value(binary32::pattern(is_negative, q, -s)) == (if is_negative {
            -(q * vstd::arithmetic::power2::pow2((149 - s) as nat))
        } else {
            q * vstd::arithmetic::power2::pow2((149 - s) as nat)
        }),
{
    let bits = binary32::pattern(is_negative, q, -s);
    let unit = vstd::arithmetic::power2::pow2((149 - s) as nat);
    assert(binary32::magnitude(bits) == (150 - s) * 0x80_0000 + (q - 0x80_0000));
    if q == 0x100_0000 {
        assert(binary32::biased_exponent(bits) == 151 - s);
        assert(binary32::significand(bits) == 0x80_0000);
        vstd::arithmetic::power2::lemma_pow2_unfold((150 - s) as nat);
        assert(0x80_0000 * (2 * unit) == q * unit) by (nonlinear_arith)
            requires
                q == 0x100_0000,
        ;
    } else {
        assert(binary32::biased_exponent(bits) == 150 - s);
        assert(binary32::significand(bits) == q);
    }
}

/// Rounding to 24 significant bits gives a number of whole units that is at
/// most half a unit off.
pub proof fn law_rounded_is_nearest(n: nat)
    ensures
        ({
            let unit = binary32::unit_of(n);
            &&& unit >= 1
            &&& binary32::rounded(n) as int % unit as int == 0
            &&& 2 * gap_to(binary32::rounded(n) as int, n as int) <= unit
            &&& n < 2 * binary32::HIDDEN_BIT * unit
            &&& unit == 1 || n >= binary32::HIDDEN_BIT * unit
        }),
{
    let unit = binary32::unit_of(n);
    lemma_unit(n);
    lemma_half_even(n, unit);
    vstd::arithmetic::div_mod::lemma_mod_multiples_basic(
        binary32::half_even(n, unit) as int,
        unit as int,
    );
}

/// A later time never has an earlier index.
pub proof fn law_indices_are_in_order(earlier: u32, later: u32, rate: u32)
    requires
        !binary32::negative(earlier),
        !binary32::negative(later),
        !binary32::is_nan(later),
        earlier <= later,
    ensures
        binary32::sample_index(earlier, rate) <= binary32::sample_index(later, rate),
{
    binary32::lemma_sample_index_bounds(earlier, rate);
    binary32::lemma_sample_index_bounds(later, rate);
    if rate != 0 && binary32::is_finite(later) {
        lemma_index_of_product(earlier, rate);
        lemma_index_of_product(later, rate);
        lemma_products_in_order(earlier, later, rate);
        let whole = vstd::arithmetic::power2::pow2(149);
        vstd::arithmetic::power2::lemma_pow2_pos(149);
        vstd::arithmetic::div_mod::lemma_div_is_ordered(
            scaled_product(earlier, rate) as int,
            scaled_product(later, rate) as int,
            whole as int,
        );
    }
}

/// The rounded product of a time and a rate, scaled by 2^149.
spec fn scaled_product(seconds: u32, rate: u32) -> nat {
    binary32::rounded(
        (binary32::significand(seconds) * binary32::rounded(rate as nat)) as nat,
    ) * vstd::arithmetic::power2::pow2((binary32::exponent(seconds) + 149) as nat)
}

proof fn lemma_index_of_product(seconds: u32, rate: u32)
    requires
        !binary32::negative(seconds),
        binary32::is_finite(seconds),
        rate != 0,
    ensures
        binary32::sample_index(seconds, rate) == binary32::saturated(
            scaled_product(seconds, rate) as int / vstd::arithmetic::power2::pow2(149) as int,
        ),
{
    let e = binary32::exponent(seconds);
    let product = binary32::rounded(
        (binary32::significand(seconds) * binary32::rounded(rate as nat)) as nat,
    );
    let whole = vstd::arithmetic::power2::pow2(149);
    let scale = vstd::arithmetic::power2::pow2((e + 149) as nat);
    vstd::arithmetic::power2::lemma_pow2_pos(149);
    vstd::arithmetic::power2::lemma_pow2_pos((e + 149) as nat);
    if e >= 0 {
        let power = vstd::arithmetic::power2::pow2(e as nat);
        vstd::arithmetic::power2::lemma_pow2_adds(e as nat, 149);
        assert(product * scale == whole * (product * power)) by (nonlinear_arith)
            requires
                scale == power * whole,
        ;
        vstd::arithmetic::div_mod::lemma_div_multiples_vanish(
            (product * power) as int,
            whole as int,
        );
    } else {
        let power = vstd::arithmetic::power2::pow2((-e) as nat);
        vstd::arithmetic::power2::lemma_pow2_pos((-e) as nat);
        vstd::arithmetic::power2::lemma_pow2_adds((e + 149) as nat, (-e) as nat);
        assert(scale * power == whole);
        assert(product * scale == scale * product) by (nonlinear_arith);
        vstd::arithmetic::div_mod::lemma_div_multiples_vanish_quotient(
            scale as int,
            product as int,
            power as int,
        );
    }
}

proof fn lemma_products_in_order(earlier: u32, later: u32, rate: u32)
    requires
        !binary32::negative(earlier),
        !binary32::negative(later),
        binary32::is_finite(later),
        earlier <= later,
        rate != 0,
    ensures
        scaled_product(earlier, rate) <= scaled_product(later, rate),
{
    let factor = binary32::rounded(rate as nat);
    law_rounded_is_nearest(rate as nat);
    assert(factor >= 1) by {
        let unit = binary32::unit_of(rate as nat);
        assert(rate >= unit) by (nonlinear_arith)
            requires
                unit == 1 || rate >= 0x80_0000 * unit,
                rate >= 1,
        ;
    }
    let m = binary32::significand(earlier);
    let k = binary32::significand(later);
    let x = (binary32::exponent(earlier) + 149) as nat;
    let y = (binary32::exponent(later) + 149) as nat;
    let p = vstd::arithmetic::power2::pow2(x);
    let q = vstd::arithmetic::power2::pow2(y);
    vstd::arithmetic::power2::lemma_pow2_pos(x);
    assert(0 <= m < 0x100_0000);
    assert(0 <= k < 0x100_0000);
    assert(binary32::biased_exponent(earlier) <= binary32::biased_exponent(later));
    assert(m * factor >= 0) by (nonlinear_arith)
        requires
            m >= 0,
            factor >= 1,
    ;
    assert(k * factor >= 0) by (nonlinear_arith)
        requires
            k >= 0,
            factor >= 1,
    ;
    let a = (m * factor) as nat;
    let b = (k * factor) as nat;
    if x == y {
        assert(m <= k);
        assert(a <= b) by (nonlinear_arith)
            requires
                m <= k,
                a == m * factor,
                b == k * factor,
                factor >= 1,
        ;
        lemma_rounded_in_order(a, b);
        assert(binary32::rounded(a) * p <= binary32::rounded(b) * p) by (nonlinear_arith)
            requires
                binary32::rounded(a) <= binary32::rounded(b),
        ;
    } else {
        assert(k >= 0x80_0000);
        let up = (y - x) as nat;
        let power = vstd::arithmetic::power2::pow2(up);
        vstd::arithmetic::power2::lemma_pow2_adds(x, up);
        vstd::arithmetic::power2::lemma_pow2_unfold(up);
        vstd::arithmetic::power2::lemma_pow2_pos((up - 1) as nat);
        assert(b >= 0x80_0000) by (nonlinear_arith)
            requires
                k >= 0x80_0000,
                factor >= 1,
                b == k * factor,
        ;
        assert(a <= b * power) by (nonlinear_arith)
            requires
                0 <= m < 0x100_0000,
                k >= 0x80_0000,
                power >= 2,
                factor >= 1,
                a == m * factor,
                b == k * factor,
        ;
        lemma_rounded_in_order(a, b * power);
        lemma_rounded_shifted(b, up);
        assert(binary32::rounded(a) * p <= binary32::rounded(b) * q) by (nonlinear_arith)
            requires
                binary32::rounded(a) <= binary32::rounded(b) * power,
                q == p * power,
        ;
    }
}

proof fn lemma_unit(n: nat)
    ensures
        binary32::unit_of(n) >= 1,
        n < 0x100_0000 * binary32::unit_of(n),
        binary32::unit_of(n) == 1 || n >= 0x80_0000 * binary32::unit_of(n),
    decreases n,
{
    if n >= 0x100_0000 {
        lemma_unit(n / 2);
    }
}

proof fn lemma_units_in_order(n: nat, m: nat)
    requires
        n <= m,
    ensures
        binary32::unit_of(n) == binary32::unit_of(m) || 2 * binary32::unit_of(n)
            <= binary32::unit_of(m),
    decreases m,
{
    lemma_unit(m / 2);
    if n >= 0x100_0000 {
        lemma_units_in_order(n / 2, m / 2);
    }
}

proof fn lemma_half_even(n: nat, unit: nat)
    requires
        unit >= 1,
    ensures
        2 * gap_to((binary32::half_even(n, unit) * unit) as int, n as int) <= unit,
        n / unit <= binary32::half_even(n, unit) <= n / unit + 1,
{
    let q = n / unit;
    vstd::arithmetic::div_mod::lemma_fundamental_div_mod(n as int, unit as int);
    vstd::arithmetic::div_mod::lemma_mod_bound(n as int, unit as int);
    assert(q * unit == unit * q) by (nonlinear_arith);
    assert((q + 1) * unit == unit * q + unit) by (nonlinear_arith);
}

proof fn lemma_rounded_in_order(n: nat, m: nat)
    requires
        n <= m,
    ensures
        binary32::rounded(n) <= binary32::rounded(m),
{
    let u = binary32::unit_of(n);
    let v = binary32::unit_of(m);
    let a = binary32::half_even(n, u);
    let b = binary32::half_even(m, v);
    lemma_unit(n);
    lemma_unit(m);
    lemma_units_in_order(n, m);
    lemma_half_even(n, u);
    lemma_half_even(m, v);
    vstd::arithmetic::div_mod::lemma_fundamental_div_mod(n as int, u as int);
    vstd::arithmetic::div_mod::lemma_fundamental_div_mod(m as int, v as int);
    vstd::arithmetic::div_mod::lemma_mod_bound(n as int, u as int);
    vstd::arithmetic::div_mod::lemma_mod_bound(m as int, v as int);
    if u == v {
        vstd::arithmetic::div_mod::lemma_div_is_ordered(n as int, m as int, u as int);
        assert(a <= b);
        assert(a * u <= b * u) by (nonlinear_arith)
            requires
                a <= b,
        ;
    } else {
        let q = n / u;
        let r = m / v;
        assert(q < 0x100_0000) by (nonlinear_arith)
            requires
                u * q <= n,
                n < 0x100_0000 * u,
        ;
        assert(r >= 0x80_0000) by (nonlinear_arith)
            requires
                m < v * r + v,
                m >= 0x80_0000 * v,
                v >= 1,
        ;
        assert(a * u <= b * v) by (nonlinear_arith)
            requires
                a <= 0x100_0000,
                b >= 0x80_0000,
                2 * u <= v,
        ;
    }
}

proof fn lemma_rounded_shifted(n: nat, up: nat)
    requires
        n >= 0x80_0000,
    ensures
        binary32::rounded(n * vstd::arithmetic::power2::pow2(up)) == binary32::rounded(n)
            * vstd::arithmetic::power2::pow2(up),
    decreases up,
{
    vstd::arithmetic::power2::lemma2_to64();
    if up > 0 {
        let p = vstd::arithmetic::power2::pow2((up - 1) as nat);
        vstd::arithmetic::power2::lemma_pow2_unfold(up);
        vstd::arithmetic::power2::lemma_pow2_pos((up - 1) as nat);
        lemma_rounded_shifted(n, (up - 1) as nat);
        let half = n * p;
        assert(half >= 0x80_0000) by (nonlinear_arith)
            requires
                half == n * p,
                n >= 0x80_0000,
                p >= 1,
        ;
        assert(n * (2 * p) == 2 * half) by (nonlinear_arith)
            requires
                half == n * p,
        ;
        assert(binary32::rounded(n) * (2 * p) == 2 * (binary32::rounded(n) * p))
            by (nonlinear_arith);
        lemma_rounded_doubled(half);
    } else {
        assert(n * 1 == n);
        assert(binary32::rounded(n) * 1 == binary32::rounded(n));
    }
}

proof fn lemma_rounded_doubled(n: nat)
    requires
        n >= 0x80_0000,
    ensures
        binary32::rounded(2 * n) == 2 * binary32::rounded(n),
{
    let u = binary32::unit_of(n);
    lemma_unit(n);
    assert((2 * n) / 2 == n);
    assert(binary32::unit_of(2 * n) == 2 * u);
    vstd::arithmetic::div_mod::lemma_div_multiples_vanish_quotient(2, n as int, u as int);
    vstd::arithmetic::div_mod::lemma_truncate_middle(n as int, 2, u as int);
    assert((2 * n) as int / (2 * u) as int == n as int / u as int);
    assert((2 * n) as int % (2 * u) as int == 2 * (n as int % u as int));
    let h = binary32::half_even(n, u);
    assert(binary32::half_even(2 * n, 2 * u) == h);
    assert(h * (2 * u) == 2 * (h * u)) by (nonlinear_arith);
}

/// The number that the pattern of a finite one stands for, times 2^149: a sign
/// bit, eight bits of exponent, and 23 of fraction.
pub open spec fn number(bits: u32) -> int {
    let size = significant(bits) * vstd::arithmetic::power2::pow2(scale(bits));
    if bits >= 0x8000_0000 {
        -size
    } else {
        size as int
    }
}

/// The significant bits of a number: the fraction, with the hidden bit unless
/// the exponent is the least.
pub open spec fn significant(bits: u32) -> nat {
    let fraction = bits as nat % 0x80_0000;
    if bits as nat / 0x80_0000 % 0x100 == 0 {
        fraction
    } else {
        fraction + 0x80_0000
    }
}

/// The power of two that the significant bits count, times 2^149.
pub open spec fn scale(bits: u32) -> nat {
    let exponent = bits as nat / 0x80_0000 % 0x100;
    if exponent == 0 {
        0
    } else {
        (exponent - 1) as nat
    }
}

/// Patterns are read as IEEE 754 has them: all exponent bits set means infinity
/// or no number, and the others mean numbers.
pub proof fn law_patterns_are_numbers(bits: u32)
    ensures
        binary32::is_finite(bits) <==> bits as nat / 0x80_0000 % 0x100 < 255,
        binary32::is_nan(bits) <==> bits as nat / 0x80_0000 % 0x100 == 255 && bits as nat
            % 0x80_0000 > 0,
        binary32::is_finite(bits) ==> binary32::scaled_value(bits) == number(bits),
        binary32::is_finite(bits) ==> binary32::significand(bits) == significant(bits),
        binary32::is_finite(bits) ==> binary32::exponent(bits) + 149 == scale(bits),
        binary32::below_zero(bits) <==> 0x8000_0000 < bits <= 0xff80_0000,
{
}

/// Clamping by pattern: up to that of `1.0` in size, and beyond that of
/// infinity, a pattern stays; in between, it becomes `1.0` or `-1.0`. Every
/// sample is clamped on its own.
pub proof fn law_clamp_by_pattern(samples: Seq<u32>, i: int)
    requires
        0 <= i < samples.len(),
    ensures
        binary32::all_clamped(samples).len() == samples.len(),
        ({
            let bits = samples[i];
            let size = bits as nat % 0x8000_0000;
            binary32::all_clamped(samples)[i] == if size <= 0x3f80_0000 || size > 0x7f80_0000 {
                bits
            } else if bits >= 0x8000_0000 {
                0xbf80_0000u32
            } else {
                0x3f80_0000u32
            }
        }),
        binary32::all_clamped(samples)[i] == binary32::clamped(samples[i]),
{
}

/// The quotient has the sign of the sample, and no sign if that is zero.
pub proof fn law_normalized_keeps_the_sign(sample: i16)
    ensures
        sample >= 0 ==> binary32::normalized(sample) < 0x8000_0000,
        sample < 0 ==> binary32::normalized(sample) > 0x8000_0000,
        sample == 0 ==> binary32::normalized(sample) == 0,
{
    if sample != 0 {
        let size: nat = if sample < 0 {
            -sample as nat
        } else {
            sample as nat
        };
        lemma_doubled(size);
        lemma_doublings_bounds(size);
        let s = binary32::doublings(size);
        let d = size * vstd::arithmetic::power2::pow2(s);
        let q = binary32::nearest_quotient(d as int, 32767);
        assert(q == (2 * d + 32767) / 65534);
        assert((150 - s) * 0x80_0000 <= 128 * 0x80_0000);
        assert((150 - s) * 0x80_0000 >= 112 * 0x80_0000);
    }
}

/// Whether `count` times 2^`shift` is `n` rounded to a binary32 number: 24
/// significant bits hold `n` in that unit, `count` is at most half a unit off,
/// and even if it is half a unit off.
pub open spec fn is_nearest(n: nat, count: nat, shift: nat) -> bool {
    let unit = vstd::arithmetic::power2::pow2(shift);
    let off = gap_to((count * unit) as int, n as int);
    &&& n < 0x100_0000 * unit
    &&& shift == 0 || n >= 0x80_0000 * unit
    &&& 2 * off <= unit
    &&& 2 * off == unit ==> count % 2 == 0
}

/// Rounding gives the nearest number of 24 significant bits, the even one of
/// two; there is no other.
pub proof fn law_rounded_is_determined(n: nat, count: nat, shift: nat)
    requires
        is_nearest(n, count, shift),
    ensures
        binary32::rounded(n) == count * vstd::arithmetic::power2::pow2(shift),
{
    let unit = vstd::arithmetic::power2::pow2(shift);
    lemma_unit_is_power(n, shift);
    vstd::arithmetic::power2::lemma_pow2_pos(shift);
    let q = n / unit;
    let r = n % unit;
    vstd::arithmetic::div_mod::lemma_fundamental_div_mod(n as int, unit as int);
    vstd::arithmetic::div_mod::lemma_mod_bound(n as int, unit as int);
    if count + 1 <= q {
        assert(count * unit + unit <= unit * q) by (nonlinear_arith)
            requires
                count + 1 <= q,
        ;
    } else if count >= q + 2 {
        assert(count * unit >= unit * q + 2 * unit) by (nonlinear_arith)
            requires
                count >= q + 2,
        ;
    } else if count == q {
        assert(count * unit == unit * q) by (nonlinear_arith)
            requires
                count == q,
        ;
    } else {
        assert(count * unit == unit * q + unit) by (nonlinear_arith)
            requires
                count == q + 1,
        ;
    }
}

proof fn lemma_unit_is_power(n: nat, shift: nat)
    requires
        n < 0x100_0000 * vstd::arithmetic::power2::pow2(shift),
        shift == 0 || n >= 0x80_0000 * vstd::arithmetic::power2::pow2(shift),
    ensures
        binary32::unit_of(n) == vstd::arithmetic::power2::pow2(shift),
    decreases shift,
{
    vstd::arithmetic::power2::lemma2_to64();
    if shift > 0 {
        vstd::arithmetic::power2::lemma_pow2_unfold(shift);
        vstd::arithmetic::power2::lemma_pow2_pos((shift - 1) as nat);
        lemma_unit_is_power(n / 2, (shift - 1) as nat);
    }
}

/// The index of a time is the whole part of the time in seconds times the rate,
/// both rounded to binary32 numbers on the way, as far as an index goes.
pub proof fn law_index_is_determined(
    seconds: u32,
    rate: u32,
    rate_count: nat,
    rate_shift: nat,
    count: nat,
    shift: nat,
)
    requires
        seconds < 0x7f80_0000,
        is_nearest(rate as nat, rate_count, rate_shift),
        is_nearest(
            significant(seconds) * (rate_count * vstd::arithmetic::power2::pow2(rate_shift)),
            count,
            shift,
        ),
    ensures
        ({
            let product = count * vstd::arithmetic::power2::pow2(shift)
                * vstd::arithmetic::power2::pow2(scale(seconds));
            let whole = product as int / vstd::arithmetic::power2::pow2(149) as int;
            binary32::sample_index(seconds, rate) == if whole <= usize::MAX {
                whole
            } else {
                usize::MAX as int
            }
        }),
{
    law_patterns_are_numbers(seconds);
    law_rounded_is_determined(rate as nat, rate_count, rate_shift);
    let factor = binary32::rounded(rate as nat);
    law_rounded_is_determined(significant(seconds) * factor, count, shift);
    vstd::arithmetic::power2::lemma_pow2_pos(149);
    if rate != 0 {
        lemma_index_of_product(seconds, rate);
    } else {
        law_rounded_is_nearest(0);
        assert(binary32::unit_of(0) == 1);
        assert(significant(seconds) * factor == 0) by (nonlinear_arith)
            requires
                factor == 0,
        ;
        assert(0 * vstd::arithmetic::power2::pow2(scale(seconds)) == 0);
        vstd::arithmetic::div_mod::lemma_basic_div(
            0,
            vstd::arithmetic::power2::pow2(149) as int,
        );
    }
}

/// Times that are negative or no number have index zero, and at a rate above
/// zero an infinite one has the largest.
pub proof fn law_index_of_no_time(seconds: u32, rate: u32)
    ensures
        seconds >= 0x8000_0000 || seconds > 0x7f80_0000 || rate == 0 ==> binary32::sample_index(
            seconds,
            rate,
        ) == 0,
        seconds == 0x7f80_0000 && rate > 0 ==> binary32::sample_index(seconds, rate) == usize::MAX,
{
}

/// Rounding moves a number by at most one part in 2^24.
proof fn lemma_rounded_is_close(n: nat)
    ensures
        0x100_0000 * binary32::rounded(n) <= 0x100_0001 * n,
        0x100_0000 * binary32::rounded(n) >= 0xff_ffff * n,
{
    law_rounded_is_nearest(n);
    let unit = binary32::unit_of(n);
    if unit == 1 {
        assert(binary32::rounded(n) == n);
    }
}

/// The index of a time is the time in seconds times the rate, cut off to an
/// integer, but for rounding: before it is cut off, the product is off by at
/// most one part in 2^24 twice over. (The factors are 2^48, and the squares of
/// 2^24 plus one and of 2^24 less one.)
pub proof fn law_index_is_time_times_rate(seconds: u32, rate: u32)
    requires
        seconds < 0x7f80_0000,
    ensures
        ({
            let index = binary32::sample_index(seconds, rate);
            let whole = vstd::arithmetic::power2::pow2(149) as int;
            let exact = number(seconds) * rate;
            &&& 0 <= index <= usize::MAX
            &&& index * whole * 0x1_0000_0000_0000 <= exact * 0x1_0000_0200_0001
            &&& index < usize::MAX ==> (index + 1) * whole * 0x1_0000_0000_0000 > exact * 0xffff_fe00_0001
        }),
{
    let index = binary32::sample_index(seconds, rate);
    let whole = vstd::arithmetic::power2::pow2(149) as int;
    let m = significant(seconds) as int;
    let p = vstd::arithmetic::power2::pow2(scale(seconds)) as int;
    let exact = number(seconds) * rate;
    law_patterns_are_numbers(seconds);
    binary32::lemma_sample_index_bounds(seconds, rate);
    vstd::arithmetic::power2::lemma_pow2_pos(149);
    vstd::arithmetic::power2::lemma_pow2_pos(scale(seconds));
    assert(exact == m * rate * p) by (nonlinear_arith)
        requires
            exact == m * p * rate,
    ;
    assert(m * rate >= 0) by (nonlinear_arith)
        requires
            m >= 0,
    ;
    if rate == 0 {
        assert(exact == 0) by (nonlinear_arith)
            requires
                exact == m * rate * p,
                rate == 0,
        ;
        assert(0 * whole == 0);
        assert(1 * whole == whole);
    } else {
        let factor = binary32::rounded(rate as nat) as int;
        let product = binary32::rounded((m * factor) as nat) as int;
        lemma_rounded_is_close(rate as nat);
        assert(m * factor >= 0) by (nonlinear_arith)
            requires
                m >= 0,
                factor >= 0,
        ;
        lemma_rounded_is_close((m * factor) as nat);
        lemma_index_of_product(seconds, rate);
        let scaled = product * p;
        let cut = scaled / whole;
        vstd::arithmetic::div_mod::lemma_fundamental_div_mod(scaled, whole);
        vstd::arithmetic::div_mod::lemma_mod_bound(scaled, whole);
        assert(cut * whole == whole * cut) by (nonlinear_arith);
        assert((cut + 1) * whole == whole * cut + whole) by (nonlinear_arith);
        assert(0x100_0000 * (m * factor) <= 0x100_0001 * (m * rate)) by (nonlinear_arith)
            requires
                m >= 0,
                0x100_0000 * factor <= 0x100_0001 * rate,
        ;
        assert(0x100_0000 * (m * factor) >= 0xff_ffff * (m * rate)) by (nonlinear_arith)
            requires
                m >= 0,
                0x100_0000 * factor >= 0xff_ffff * rate,
        ;
        let n = m * rate;
        let w = m * factor;
        assert(0x1_0000_0000_0000 * product <= 0x1_0000_0200_0001 * n)
            by (nonlinear_arith)
            requires
                0x100_0000 * product <= 0x100_0001 * w,
                0x100_0000 * w <= 0x100_0001 * n,
        ;
        assert(0x1_0000_0000_0000 * product >= 0xffff_fe00_0001 * n)
            by (nonlinear_arith)
            requires
                0x100_0000 * product >= 0xff_ffff * w,
                0x100_0000 * w >= 0xff_ffff * n,
        ;
        assert(0x1_0000_0000_0000 * scaled <= 0x1_0000_0200_0001 * exact)
            by (nonlinear_arith)
            requires
                0x1_0000_0000_0000 * product <= 0x1_0000_0200_0001 * n,
                scaled == product * p,
                exact == n * p,
                p >= 0,
        ;
        assert(0x1_0000_0000_0000 * scaled >= 0xffff_fe00_0001 * exact)
            by (nonlinear_arith)
            requires
                0x1_0000_0000_0000 * product >= 0xffff_fe00_0001 * n,
                scaled == product * p,
                exact == n * p,
                p >= 0,
        ;
        assert(index * whole <= cut * whole) by (nonlinear_arith)
            requires
                index <= cut,
                whole > 0,
        ;
        let below = index * whole;
        let above = (index + 1) * whole;
        assert(below * 0x1_0000_0000_0000 <= exact * 0x1_0000_0200_0001)
            by (nonlinear_arith)
            requires
                below <= scaled,
                0x1_0000_0000_0000 * scaled <= 0x1_0000_0200_0001 * exact,
        ;
        if index < usize::MAX {
            assert(above > scaled);
            assert(above * 0x1_0000_0000_0000 > exact * 0xffff_fe00_0001)
                by (nonlinear_arith)
                requires
                    above > scaled,
                    0x1_0000_0000_0000 * scaled >= 0xffff_fe00_0001 * exact,
            ;
        }
    }
}

/// Where the time in seconds times the rate is a number of 24 significant bits,
/// and the rate is one too, nothing is rounded: the index is its whole part.
pub proof fn law_index_of_exact_product(seconds: u32, rate: u32, count: nat, shift: nat)
    requires
        seconds < 0x7f80_0000,
        rate < 0x100_0000,
        count < 0x100_0000,
        number(seconds) * rate == count * vstd::arithmetic::power2::pow2(shift),
    ensures
        ({
            let whole = (count * vstd::arithmetic::power2::pow2(shift)) as int
                / vstd::arithmetic::power2::pow2(149) as int;
            binary32::sample_index(seconds, rate) == if whole <= usize::MAX {
                whole
            } else {
                usize::MAX as int
            }
        }),
{
    let m = significant(seconds);
    let x = scale(seconds);
    let p = vstd::arithmetic::power2::pow2(x);
    let n: nat = m * rate as nat;
    law_patterns_are_numbers(seconds);
    lemma_rounded_whole(rate as nat, 0);
    vstd::arithmetic::power2::lemma2_to64();
    vstd::arithmetic::power2::lemma_pow2_pos(149);
    vstd::arithmetic::power2::lemma_pow2_pos(x);
    assert(rate * 1 == rate);
    assert(number(seconds) * rate == n * p) by (nonlinear_arith)
        requires
            number(seconds) == m * p,
            n == m * rate,
    ;
    if shift >= x {
        let up = vstd::arithmetic::power2::pow2((shift - x) as nat);
        vstd::arithmetic::power2::lemma_pow2_adds(x, (shift - x) as nat);
        assert(n == count * up) by (nonlinear_arith)
            requires
                n * p == count * (p * up),
                p > 0,
        ;
        lemma_rounded_whole(count, (shift - x) as nat);
    } else {
        let up = vstd::arithmetic::power2::pow2((x - shift) as nat);
        vstd::arithmetic::power2::lemma_pow2_adds(shift, (x - shift) as nat);
        vstd::arithmetic::power2::lemma_pow2_pos(shift);
        vstd::arithmetic::power2::lemma_pow2_pos((x - shift) as nat);
        let q = vstd::arithmetic::power2::pow2(shift);
        assert(n <= count) by (nonlinear_arith)
            requires
                n * (q * up) == count * q,
                q > 0,
                up >= 1,
        ;
        lemma_rounded_whole(n, 0);
        assert(n * 1 == n);
    }
    assert(binary32::rounded(n) == n);
    if rate == 0 {
        assert(n == 0) by (nonlinear_arith)
            requires
                n == m * rate,
                rate == 0,
        ;
        assert(0 * p == 0);
        vstd::arithmetic::div_mod::lemma_basic_div(
            0,
            vstd::arithmetic::power2::pow2(149) as int,
        );
    } else {
        lemma_index_of_product(seconds, rate);
    }
}

proof fn lemma_rounded_whole(count: nat, shift: nat)
    requires
        count < 0x100_0000,
    ensures
        binary32::rounded(count * vstd::arithmetic::power2::pow2(shift)) == count
            * vstd::arithmetic::power2::pow2(shift),
    decreases shift,
{
    vstd::arithmetic::power2::lemma2_to64();
    assert(binary32::unit_of(count) == 1);
    assert(binary32::rounded(count) == count) by {
        assert(count % 1 == 0);
        assert(count / 1 == count);
        assert(count * 1 == count);
    }
    assert(count * 1 == count);
    if shift > 0 {
        if count >= 0x80_0000 {
            lemma_rounded_shifted(count, shift);
        } else {
            lemma_rounded_whole(2 * count, (shift - 1) as nat);
            vstd::arithmetic::power2::lemma_pow2_unfold(shift);
            let p = vstd::arithmetic::power2::pow2((shift - 1) as nat);
            assert(count * (2 * p) == (2 * count) * p) by (nonlinear_arith);
        }
    }
}

/// In a whole number of seconds there is that number times the rate of samples,
/// as long as this has 24 bits.
pub proof fn law_index_of_whole_seconds(seconds: u32, n: nat, rate: u32)
    requires
        seconds < 0x7f80_0000,
        number(seconds) == n * vstd::arithmetic::power2::pow2(149),
        n * rate < 0x100_0000,
    ensures
        binary32::sample_index(seconds, rate) == n * rate,
{
    let whole = vstd::arithmetic::power2::pow2(149);
    vstd::arithmetic::power2::lemma_pow2_pos(149);
    let count: nat = n * rate as nat;
    if n == 0 {
        vstd::arithmetic::power2::lemma_pow2_pos(scale(seconds));
        assert(significant(seconds) == 0) by (nonlinear_arith)
            requires
                significant(seconds) * vstd::arithmetic::power2::pow2(scale(seconds)) == 0 * whole,
                vstd::arithmetic::power2::pow2(scale(seconds)) > 0,
        ;
        law_index_is_time_times_rate(seconds, rate);
        let index = binary32::sample_index(seconds, rate);
        assert(number(seconds) * rate == 0) by (nonlinear_arith)
            requires
                number(seconds) == 0,
        ;
        assert(index == 0) by (nonlinear_arith)
            requires
                index * whole * 0x1_0000_0000_0000 <= 0,
                index >= 0,
                whole > 0,
        ;
        assert(0 * rate == 0);
    } else {
        assert(rate < 0x100_0000) by (nonlinear_arith)
            requires
                n >= 1,
                n * rate < 0x100_0000,
        ;
        assert(number(seconds) * rate == count * whole) by (nonlinear_arith)
            requires
                number(seconds) == n * whole,
                count == n * rate,
        ;
        law_index_of_exact_product(seconds, rate, count, 149);
        assert(count * whole == whole * count) by (nonlinear_arith);
        vstd::arithmetic::div_mod::lemma_div_multiples_vanish(count as int, whole as int);
    }
}

} // verus!
