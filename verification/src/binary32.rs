//! Arithmetic on IEEE 754 binary32 numbers by their bit patterns.
//!
//! Samples and times are binary32 numbers. They are carried as `u32` bit
//! patterns, so that what is done to them is integer arithmetic: clamping to
//! `[-1.0, 1.0]`, dividing a 16-bit integer by 32767, and turning a time in
//! seconds into an index.
use vstd::prelude::*;

verus! {

/// The pattern of `1.0`.
pub const ONE: u32 = 0x3f80_0000;

/// The pattern of `-1.0`.
pub const MINUS_ONE: u32 = 0xbf80_0000;

/// The pattern of positive infinity.
pub const INFINITY: u32 = 0x7f80_0000;

/// The pattern of the sign bit alone, that of `-0.0`.
pub const SIGN: u32 = 0x8000_0000;

/// Two to the power of 23: the least significand of a normal number.
pub const HIDDEN_BIT: u32 = 0x80_0000;

/// The divisor that maps a 16-bit sample to the unit range.
pub const PCM_SCALE: u64 = 32767;

/// 2^23 times [`PCM_SCALE`]: the least dividend whose quotient by it fills a
/// significand.
pub const PCM_FLOOR: u64 = 274_869_518_336;

/// Whether the sign bit is set.
pub open spec fn negative(bits: u32) -> bool {
    bits >= SIGN
}

/// The pattern without its sign bit.
pub open spec fn magnitude(bits: u32) -> int {
    if negative(bits) {
        bits - SIGN
    } else {
        bits as int
    }
}

/// Whether the pattern is that of no number.
pub open spec fn is_nan(bits: u32) -> bool {
    magnitude(bits) > INFINITY
}

/// Whether the pattern is that of a finite number.
pub open spec fn is_finite(bits: u32) -> bool {
    magnitude(bits) < INFINITY
}

/// Whether the pattern is that of a number less than zero.
pub open spec fn below_zero(bits: u32) -> bool {
    negative(bits) && 0 < magnitude(bits) <= INFINITY
}

/// The biased exponent.
pub open spec fn biased_exponent(bits: u32) -> int {
    magnitude(bits) / HIDDEN_BIT as int
}

/// The significand of a finite number, as an integer below 2^24.
pub open spec fn significand(bits: u32) -> int {
    if biased_exponent(bits) == 0 {
        magnitude(bits)
    } else {
        HIDDEN_BIT + magnitude(bits) % HIDDEN_BIT as int
    }
}

/// The power of two that a finite number's significand is multiplied by.
pub open spec fn exponent(bits: u32) -> int {
    if biased_exponent(bits) == 0 {
        -149
    } else {
        biased_exponent(bits) - 150
    }
}

/// A finite number times 2^149, which is an integer: the least positive
/// binary32 number is 2^-149.
pub open spec fn scaled_value(bits: u32) -> int {
    let size = significand(bits) * vstd::arithmetic::power2::pow2((exponent(bits) + 149) as nat);
    if negative(bits) {
        -size
    } else {
        size
    }
}

/// A number brought into `[-1.0, 1.0]`; what is no number stays as it is.
pub open spec fn clamped(bits: u32) -> u32 {
    if is_nan(bits) || magnitude(bits) <= ONE {
        bits
    } else if negative(bits) {
        MINUS_ONE
    } else {
        ONE
    }
}

/// The samples brought into `[-1.0, 1.0]`.
pub open spec fn all_clamped(samples: Seq<u32>) -> Seq<u32> {
    Seq::new(samples.len(), |i: int| clamped(samples[i]))
}

/// Brings a number into `[-1.0, 1.0]`.
pub fn clamp(bits: u32) -> (r: u32)
    ensures
        r == clamped(bits),
{
    let size: u32 = if bits >= SIGN {
        bits - SIGN
    } else {
        bits
    };
    if size > INFINITY || size <= ONE {
        bits
    } else if bits >= SIGN {
        MINUS_ONE
    } else {
        ONE
    }
}

/// Brings the samples into `[-1.0, 1.0]`.
pub fn clamp_all(samples: &Vec<u32>) -> (r: Vec<u32>)
    ensures
        r@ == all_clamped(samples@),
{
    let mut r: Vec<u32> = Vec::with_capacity(samples.len());
    let mut i: usize = 0;
    while i < samples.len()
        invariant
            i == r@.len(),
            i <= samples@.len(),
            forall|k: int| 0 <= k < r@.len() ==> #[trigger] r@[k] == clamped(samples@[k]),
        decreases samples@.len() - i,
    {
        r.push(clamp(samples[i]));
        i = i + 1;
    }
    assert(r@ =~= all_clamped(samples@));
    r
}

/// Whether a number is less than zero.
pub fn is_below_zero(bits: u32) -> (r: bool)
    ensures
        r == below_zero(bits),
{
    bits > SIGN && bits - SIGN <= INFINITY
}

/// The pattern of `significand * 2^exponent`, for a normal number.
pub open spec fn pattern(is_negative: bool, significand: int, exponent: int) -> u32 {
    ((if is_negative {
        SIGN as int
    } else {
        0
    }) + (exponent + 150) * HIDDEN_BIT + (significand - HIDDEN_BIT)) as u32
}

/// How often `n` is to be doubled before it is at least [`PCM_FLOOR`].
pub open spec fn doublings(n: nat) -> nat
    decreases 2 * PCM_FLOOR - n,
{
    if n == 0 || n >= PCM_FLOOR {
        0
    } else {
        1 + doublings(2 * n)
    }
}

/// The integer nearest to `n / d`.
pub open spec fn nearest_quotient(n: int, d: int) -> int {
    (2 * n + d) / (2 * d)
}

/// A 16-bit sample divided by 32767, as the nearest binary32 number.
pub open spec fn normalized(sample: i16) -> u32 {
    if sample == 0 {
        0
    } else {
        let size: nat = if sample < 0 {
            -sample as nat
        } else {
            sample as nat
        };
        let shift = doublings(size);
        pattern(
            sample < 0,
            nearest_quotient((size * vstd::arithmetic::power2::pow2(shift)) as int, PCM_SCALE as int),
            -shift,
        )
    }
}

proof fn lemma_doublings_step(n: nat)
    requires
        0 < n < PCM_FLOOR,
    ensures
        n * vstd::arithmetic::power2::pow2(doublings(n)) == (2 * n) * vstd::arithmetic::power2::pow2(doublings(2 * n)),
{
    let s = doublings(2 * n);
    vstd::arithmetic::power2::lemma_pow2_unfold(1 + s);
    assert(n * (2 * vstd::arithmetic::power2::pow2(s)) == (2 * n) * vstd::arithmetic::power2::pow2(s)) by (nonlinear_arith);
}

/// Divides a 16-bit sample by 32767.
pub fn normalize(sample: i16) -> (bits: u32)
    ensures
        bits == normalized(sample),
{
    if sample == 0 {
        return 0;
    }
    let size: u64 = if sample < 0 {
        (-(sample as i64)) as u64
    } else {
        sample as u64
    };
    let mut dividend: u64 = size;
    let mut shift: u32 = 0;
    proof {
        vstd::arithmetic::power2::lemma2_to64();
    }
    while dividend < PCM_FLOOR
        invariant
            1 <= dividend < 2 * PCM_FLOOR,
            doublings(size as nat) == shift + doublings(dividend as nat),
            size * vstd::arithmetic::power2::pow2(doublings(size as nat)) == dividend * vstd::arithmetic::power2::pow2(doublings(dividend as nat)),
            shift <= 39,
            dividend >= vstd::arithmetic::power2::pow2(shift as nat),
        decreases 2 * PCM_FLOOR - dividend,
    {
        proof {
            lemma_doublings_step(dividend as nat);
            vstd::arithmetic::power2::lemma_pow2_unfold((shift + 1) as nat);
            vstd::arithmetic::power2::lemma2_to64_rest();
        }
        dividend = dividend * 2;
        shift = shift + 1;
    }
    let quotient: u64 = (2 * dividend + PCM_SCALE) / (2 * PCM_SCALE);
    assert(HIDDEN_BIT <= quotient <= 2 * HIDDEN_BIT) by {
        assert(quotient == (2 * dividend + 32767) / 65534);
    }
    assert(dividend * vstd::arithmetic::power2::pow2(0) == dividend) by {
        vstd::arithmetic::power2::lemma2_to64();
    }
    let sign: u32 = if sample < 0 {
        SIGN
    } else {
        0
    };
    sign + (150 - shift) * HIDDEN_BIT + (quotient as u32 - HIDDEN_BIT)
}

/// The unit in which a binary32 number of the size of `n` counts: the power of
/// two of which `n` holds less than 2^24.
pub open spec fn unit_of(n: nat) -> nat
    decreases n,
{
    if n < 2 * HIDDEN_BIT {
        1
    } else {
        2 * unit_of(n / 2)
    }
}

/// `n / unit` rounded to the nearest integer, to the even one of two.
pub open spec fn half_even(n: nat, unit: nat) -> nat {
    if 2 * (n % unit) < unit || (2 * (n % unit) == unit && (n / unit) % 2 == 0) {
        n / unit
    } else {
        n / unit + 1
    }
}

/// `n` rounded to the 24 significant bits of a binary32 number.
pub open spec fn rounded(n: nat) -> nat {
    half_even(n, unit_of(n)) * unit_of(n)
}

/// The largest index, in place of one that is larger.
pub open spec fn saturated(n: int) -> int {
    if n <= usize::MAX {
        n
    } else {
        usize::MAX as int
    }
}

/// The whole number of samples in a time: the binary32 product of the time in
/// seconds and the rate as a binary32 number, cut off to an integer. Negative
/// times and what is no number give zero, too large a product gives the
/// largest index.
pub open spec fn sample_index(seconds: u32, rate: u32) -> int {
    let product = rounded((significand(seconds) * rounded(rate as nat)) as nat);
    if negative(seconds) || is_nan(seconds) || rate == 0 {
        0
    } else if !is_finite(seconds) {
        usize::MAX as int
    } else if exponent(seconds) >= 0 {
        saturated((product * vstd::arithmetic::power2::pow2(exponent(seconds) as nat)) as int)
    } else {
        saturated((product / vstd::arithmetic::power2::pow2((-exponent(seconds)) as nat)) as int)
    }
}

/// Rounds to 24 significant bits.
fn round_to_24_bits(n: u64) -> (r: u64)
    requires
        n < 0x200_0000_0000_0000,
    ensures
        r == rounded(n as nat),
        r <= 2 * n,
{
    let mut unit: u64 = 1;
    let mut head: u64 = n;
    while head >= 0x100_0000
        invariant
            n < 0x200_0000_0000_0000,
            unit_of(n as nat) == unit * unit_of(head as nat),
            unit >= 1,
            head >= 1 || unit == 1,
            head * unit <= n,
        decreases head,
    {
        proof {
            let h: nat = head as nat;
            assert(unit * (2 * unit_of(h / 2)) == (2 * unit) * unit_of(h / 2)) by (nonlinear_arith);
            assert((head / 2) * (2 * unit) <= head * unit) by (nonlinear_arith);
            assert(unit <= 0x2_0000_0000) by (nonlinear_arith)
                requires
                    head * unit <= n,
                    head >= 0x100_0000,
                    n < 0x200_0000_0000_0000,
            ;
        }
        unit = unit * 2;
        head = head / 2;
    }
    assert(unit_of(n as nat) == unit) by {
        let u = unit_of(head as nat);
        assert(u == 1);
        assert(unit * u == unit) by (nonlinear_arith)
            requires
                u == 1,
        ;
    }
    let whole: u64 = n / unit;
    let rest: u64 = n % unit;
    proof {
        vstd::arithmetic::div_mod::lemma_fundamental_div_mod(n as int, unit as int);
        assert(unit <= n || unit == 1) by (nonlinear_arith)
            requires
                head * unit <= n,
                head >= 1 || unit == 1,
        ;
        assert((whole + 1) * unit == unit * whole + unit) by (nonlinear_arith);
        assert(whole * unit == unit * whole) by (nonlinear_arith);
    }
    let count: u64 = if rest < unit - rest || (rest == unit - rest && whole % 2 == 0) {
        whole
    } else {
        whole + 1
    };
    count * unit
}

/// The power of two with exponent `e`.
fn power_of_two(e: u32) -> (r: u128)
    requires
        e <= 64,
    ensures
        r == vstd::arithmetic::power2::pow2(e as nat),
        r >= 1,
{
    let mut power: u128 = 1;
    let mut i: u32 = 0;
    proof {
        vstd::arithmetic::power2::lemma2_to64();
    }
    while i < e
        invariant
            i <= e <= 64,
            power == vstd::arithmetic::power2::pow2(i as nat),
            power >= 1,
        decreases e - i,
    {
        proof {
            vstd::arithmetic::power2::lemma_pow2_unfold((i + 1) as nat);
            vstd::arithmetic::power2::lemma2_to64();
            if i < 64 {
                vstd::arithmetic::power2::lemma_pow2_strictly_increases(i as nat, 64);
            }
        }
        power = power * 2;
        i = i + 1;
    }
    power
}

/// The whole number of samples in a time given in seconds.
pub fn seconds_to_index(seconds: u32, rate: u32) -> (index: usize)
    ensures
        index == sample_index(seconds, rate),
{
    if seconds >= SIGN || seconds > INFINITY || rate == 0 {
        return 0;
    }
    if seconds == INFINITY {
        return usize::MAX;
    }
    let biased: u32 = seconds / HIDDEN_BIT;
    let digits: u32 = if biased == 0 {
        seconds
    } else {
        HIDDEN_BIT + seconds % HIDDEN_BIT
    };
    let factor: u64 = round_to_24_bits(rate as u64);
    proof {
        assert(digits * factor < 0x200_0000_0000_0000) by (nonlinear_arith)
            requires
                digits < 0x100_0000,
                factor <= 0x2_0000_0000,
        ;
    }
    let product: u64 = round_to_24_bits(digits as u64 * factor);
    if biased >= 150 {
        let up: u32 = biased - 150;
        if product == 0 {
            assert(0 * vstd::arithmetic::power2::pow2(up as nat) == 0);
            return 0;
        }
        if up >= 64 {
            proof {
                lemma_shifted_out(product as nat, up as nat);
            }
            return usize::MAX;
        }
        let power: u128 = power_of_two(up);
        proof {
            vstd::arithmetic::power2::lemma2_to64();
            vstd::arithmetic::power2::lemma_pow2_strictly_increases(up as nat, 64);
            assert(product * power < 0x1_0000_0000_0000_0000_0000_0000_0000_0000) by (nonlinear_arith)
                requires
                    product <= 0xffff_ffff_ffff_ffff,
                    power <= 0x1_0000_0000_0000_0000,
            ;
        }
        let wide: u128 = product as u128 * power;
        if wide > usize::MAX as u128 {
            usize::MAX
        } else {
            wide as usize
        }
    } else {
        let down: u32 = if biased == 0 {
            149
        } else {
            150 - biased
        };
        if down > 64 {
            proof {
                lemma_divided_out(product as nat, down as nat);
            }
            return 0;
        }
        let power: u128 = power_of_two(down);
        let wide: u128 = product as u128 / power;
        if wide > usize::MAX as u128 {
            usize::MAX
        } else {
            wide as usize
        }
    }
}

/// Indices are not negative, and fit in `usize`.
pub proof fn lemma_sample_index_bounds(seconds: u32, rate: u32)
    ensures
        0 <= sample_index(seconds, rate) <= usize::MAX,
{
    let product = rounded((significand(seconds) * rounded(rate as nat)) as nat);
    if exponent(seconds) < 0 {
        vstd::arithmetic::power2::lemma_pow2_pos((-exponent(seconds)) as nat);
        vstd::arithmetic::div_mod::lemma_div_pos_is_pos(
            product as int,
            vstd::arithmetic::power2::pow2((-exponent(seconds)) as nat) as int,
        );
    }
}

proof fn lemma_shifted_out(n: nat, up: nat)
    requires
        n >= 1,
        up >= 64,
    ensures
        n * vstd::arithmetic::power2::pow2(up) > usize::MAX,
{
    vstd::arithmetic::power2::lemma2_to64();
    if up > 64 {
        vstd::arithmetic::power2::lemma_pow2_strictly_increases(64, up);
    }
    assert(n * vstd::arithmetic::power2::pow2(up) >= vstd::arithmetic::power2::pow2(up)) by (nonlinear_arith)
        requires
            n >= 1,
    ;
}

proof fn lemma_divided_out(n: nat, down: nat)
    requires
        n <= u64::MAX,
        down >= 64,
    ensures
        n / vstd::arithmetic::power2::pow2(down) == 0,
{
    vstd::arithmetic::power2::lemma2_to64();
    if down > 64 {
        vstd::arithmetic::power2::lemma_pow2_strictly_increases(64, down);
    }
    vstd::arithmetic::div_mod::lemma_basic_div(n as int, vstd::arithmetic::power2::pow2(down) as int);
}

} // verus!
