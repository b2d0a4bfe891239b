//! Numbers in binary64, by their bits: what they are as whole numbers and as
//! durations.
use vstd::arithmetic::power2::pow2;
use vstd::prelude::*;

verus! {

/// The exponent bits.
pub open spec fn exponent(bits: u64) -> int {
    (bits as int / 0x10_0000_0000_0000) % 2048
}

/// The fraction bits.
pub open spec fn fraction(bits: u64) -> int {
    bits as int % 0x10_0000_0000_0000
}

/// The sign bit is set.
pub open spec fn is_signed(bits: u64) -> bool {
    bits >= 0x8000_0000_0000_0000
}

/// The bits stand for a number, and not for infinity or for none.
pub open spec fn is_finite(bits: u64) -> bool {
    exponent(bits) != 2047
}

/// The significand of a number, as a whole number.
pub open spec fn significand(bits: u64) -> int {
    if exponent(bits) == 0 {
        fraction(bits)
    } else {
        fraction(bits) + 0x10_0000_0000_0000
    }
}

/// The power of two that the significand is multiplied with.
pub open spec fn scale(bits: u64) -> int {
    if exponent(bits) == 0 {
        -1074
    } else {
        exponent(bits) - 1075
    }
}

/// The whole number below the magnitude of a number.
pub open spec fn floor(bits: u64) -> int {
    if scale(bits) >= 0 {
        significand(bits) * pow2(scale(bits) as nat)
    } else {
        significand(bits) / pow2((-scale(bits)) as nat) as int
    }
}

/// A number as a whole number: rounded towards zero, and the nearest there is for
/// those that are too small or too large. No number is zero.
pub open spec fn whole_number(bits: u64) -> int {
    if is_signed(bits) {
        0
    } else if !is_finite(bits) {
        if fraction(bits) == 0 {
            u64::MAX as int
        } else {
            0
        }
    } else if floor(bits) > u64::MAX {
        u64::MAX as int
    } else {
        floor(bits)
    }
}

/// A fraction as a whole number: the nearest one, and the even one of two that are
/// equally near.
pub open spec fn nearest(n: int, d: int) -> int {
    let q = n / d;
    let r = n % d;
    if 2 * r > d || (2 * r == d && q % 2 == 1) {
        q + 1
    } else {
        q
    }
}

/// As many seconds as a number says, in nanoseconds, where that is a duration:
/// neither negative nor longer than a 64-bit number of seconds.
pub open spec fn duration(bits: u64) -> Option<int> {
    if !is_finite(bits) || (is_signed(bits) && significand(bits) != 0) || floor(bits) > u64::MAX {
        None
    } else if scale(bits) >= 0 {
        Some(floor(bits) * 1_000_000_000)
    } else {
        Some(nearest(significand(bits) * 1_000_000_000, pow2((-scale(bits)) as nat) as int))
    }
}

fn power_of_two(k: u32) -> (r: u128)
    requires
        k <= 100,
    ensures
        r == pow2(k as nat),
        r <= 0x10_0000_0000_0000_0000_0000_0000,
{
    let mut r: u128 = 1;
    let mut i: u32 = 0;
    proof {
        vstd::arithmetic::power2::lemma2_to64();
        vstd::arithmetic::power2::lemma2_to64_rest();
        vstd::arithmetic::power2::lemma_pow2_adds(64, 36);
        assert(pow2(100) == 0x10_0000_0000_0000_0000_0000_0000);
    }
    while i < k
        invariant
            i <= k <= 100,
            r == pow2(i as nat),
            pow2(100) == 0x10_0000_0000_0000_0000_0000_0000,
        decreases k - i,
    {
        proof {
            vstd::arithmetic::power2::lemma_pow2_unfold((i + 1) as nat);
            if i + 1 < 100 {
                vstd::arithmetic::power2::lemma_pow2_strictly_increases((i + 1) as nat, 100);
            }
        }
        r = r * 2;
        i = i + 1;
    }
    proof {
        if k < 100 {
            vstd::arithmetic::power2::lemma_pow2_strictly_increases(k as nat, 100);
        }
    }
    r
}

proof fn lemma_small(n: int, bound: nat, k: nat)
    requires
        0 <= n < pow2(bound),
        bound <= k,
    ensures
        n / pow2(k) as int == 0,
        n % pow2(k) as int == n,
        n < pow2(k),
{
    if bound < k {
        vstd::arithmetic::power2::lemma_pow2_strictly_increases(bound, k);
    }
    vstd::arithmetic::div_mod::lemma_small_mod(n as nat, pow2(k));
    vstd::arithmetic::div_mod::lemma_basic_div(n, pow2(k) as int);
}

/// A number, taken apart: its exponent bits and its significand.
fn parts(bits: u64) -> (r: (u32, u64))
    ensures
        r.0 == exponent(bits),
        r.1 == significand(bits),
        r.0 < 2048,
        r.1 < 0x20_0000_0000_0000,
{
    let e: u64 = (bits / 0x10_0000_0000_0000) % 2048;
    let f: u64 = bits % 0x10_0000_0000_0000;
    if e == 0 {
        (0, f)
    } else {
        (e as u32, f + 0x10_0000_0000_0000)
    }
}

/// The whole number below the magnitude of a number, where it fits.
fn floor_of(e: u32, m: u64, Ghost(bits): Ghost<u64>) -> (r: Option<u64>)
    requires
        e == exponent(bits),
        m == significand(bits),
        m < 0x20_0000_0000_0000,
        e < 2047,
    ensures
        r is Some <==> floor(bits) <= u64::MAX,
        r matches Some(x) ==> x == floor(bits),
{
    proof {
        vstd::arithmetic::power2::lemma2_to64();
        vstd::arithmetic::power2::lemma2_to64_rest();
    }
    if e >= 1087 {
        proof {
            let k = (e - 1075) as nat;
            if k > 12 {
                vstd::arithmetic::power2::lemma_pow2_strictly_increases(12, k);
            }
            assert(m * pow2(k) >= 0x10_0000_0000_0000 * 4096) by (nonlinear_arith)
                requires
                    m >= 0x10_0000_0000_0000,
                    pow2(k) >= 4096,
            ;
        }
        None
    } else if e >= 1075 {
        let p: u128 = power_of_two(e - 1075);
        proof {
            let k = (e - 1075) as nat;
            if k < 11 {
                vstd::arithmetic::power2::lemma_pow2_strictly_increases(k, 11);
            }
            assert(m * p <= 0x1f_ffff_ffff_ffff * 2048) by (nonlinear_arith)
                requires
                    m <= 0x1f_ffff_ffff_ffff,
                    p <= 2048,
            ;
            assert(0 <= m * p) by (nonlinear_arith);
        }
        Some(m * (p as u64))
    } else {
        let shift: u32 = if e == 0 {
            1074
        } else {
            1075 - e
        };
        if shift >= 64 {
            proof {
                lemma_small(m as int, 53, shift as nat);
            }
            Some(0)
        } else {
            let p: u128 = power_of_two(shift);
            proof {
                vstd::arithmetic::div_mod::lemma_div_is_ordered_by_denominator(
                    m as int,
                    1,
                    p as int,
                );
            }
            Some(((m as u128) / p) as u64)
        }
    }
}

/// A number as a whole number.
pub fn to_whole(bits: u64) -> (r: u64)
    ensures
        r == whole_number(bits),
{
    if bits >= 0x8000_0000_0000_0000 {
        return 0;
    }
    let (e, m) = parts(bits);
    if e == 2047 {
        if m == 0x10_0000_0000_0000 {
            u64::MAX
        } else {
            0
        }
    } else {
        match floor_of(e, m, Ghost(bits)) {
            Some(x) => x,
            None => u64::MAX,
        }
    }
}

/// As many seconds as a number says, in nanoseconds, where that is a duration.
pub fn to_nanos(bits: u64) -> (r: Option<u128>)
    ensures
        r is Some <==> duration(bits) is Some,
        r matches Some(x) ==> duration(bits) == Some(x as int),
{
    let (e, m) = parts(bits);
    if e == 2047 || (bits >= 0x8000_0000_0000_0000 && m != 0) {
        return None;
    }
    let whole: u64 = match floor_of(e, m, Ghost(bits)) {
        Some(x) => x,
        None => {
            return None;
        },
    };
    if e >= 1075 {
        return Some((whole as u128) * 1_000_000_000);
    }
    let shift: u32 = if e == 0 {
        1074
    } else {
        1075 - e
    };
    let n: u128 = (m as u128) * 1_000_000_000;
    if shift > 84 {
        proof {
            vstd::arithmetic::power2::lemma2_to64();
            vstd::arithmetic::power2::lemma2_to64_rest();
            vstd::arithmetic::power2::lemma_pow2_adds(53, 30);
            lemma_small(n as int, 83, (shift - 1) as nat);
            lemma_small(n as int, 83, shift as nat);
            vstd::arithmetic::power2::lemma_pow2_unfold(shift as nat);
        }
        return Some(0);
    }
    let d: u128 = power_of_two(shift);
    proof {
        vstd::arithmetic::power2::lemma_pow2_pos(shift as nat);
        vstd::arithmetic::div_mod::lemma_div_is_ordered_by_denominator(n as int, 1, d as int);
    }
    let q: u128 = n / d;
    let r: u128 = n % d;
    if 2 * r > d || (2 * r == d && q % 2 == 1) {
        Some(q + 1)
    } else {
        Some(q)
    }
}

/// The nearest whole number to a fraction is no more than a half away, and even where two
/// are as near.
pub proof fn law_nearest_is_nearest(n: int, d: int)
    requires
        d > 0,
        n >= 0,
    ensures
        -d <= 2 * (nearest(n, d) * d - n) <= d,
        2 * (nearest(n, d) * d - n) == d || 2 * (nearest(n, d) * d - n) == -d ==> nearest(n, d) % 2
            == 0,
{
    let q = n / d;
    let r = n % d;
    vstd::arithmetic::div_mod::lemma_fundamental_div_mod(n, d);
    vstd::arithmetic::div_mod::lemma_mod_bound(n, d);
    assert(d * q == q * d) by (nonlinear_arith);
    assert((q + 1) * d == q * d + d) by (nonlinear_arith);
}

/// The whole number below a number: a power of two times the significand, or what of it is
/// left when it is divided.
pub proof fn law_floor_is_below(bits: u64)
    ensures
        scale(bits) >= 0 ==> floor(bits) == significand(bits) * pow2(scale(bits) as nat),
        scale(bits) < 0 ==> floor(bits) * pow2((-scale(bits)) as nat) <= significand(bits)
            < floor(bits) * pow2((-scale(bits)) as nat) + pow2((-scale(bits)) as nat),
        exponent(bits) == 0 ==> significand(bits) < 0x10_0000_0000_0000,
        exponent(bits) != 0 ==> 0x10_0000_0000_0000 <= significand(bits) < 0x20_0000_0000_0000,
{
    if scale(bits) < 0 {
        let d = pow2((-scale(bits)) as nat) as int;
        vstd::arithmetic::power2::lemma_pow2_pos((-scale(bits)) as nat);
        let s = significand(bits);
        vstd::arithmetic::div_mod::lemma_fundamental_div_mod(s, d);
        vstd::arithmetic::div_mod::lemma_mod_bound(s, d);
        assert(d * (s / d) == (s / d) * d) by (nonlinear_arith);
    }
}

/// A number of seconds as a duration is right to half a nanosecond.
pub proof fn law_duration_is_exact(bits: u64)
    requires
        duration(bits) is Some,
    ensures
        scale(bits) >= 0 ==> duration(bits) == Some(
            significand(bits) * pow2(scale(bits) as nat) * 1_000_000_000,
        ),
        scale(bits) < 0 ==> {
            let d = pow2((-scale(bits)) as nat) as int;
            let off = duration(bits)->0 * d - significand(bits) * 1_000_000_000;
            -d <= 2 * off <= d
        },
        is_signed(bits) ==> significand(bits) == 0,
{
    if scale(bits) < 0 {
        let d = pow2((-scale(bits)) as nat) as int;
        vstd::arithmetic::power2::lemma_pow2_pos((-scale(bits)) as nat);
        law_nearest_is_nearest(significand(bits) * 1_000_000_000, d);
    }
}

/// A number as a whole number is the one below it; what is negative or no number is zero,
/// and what is too large is the largest there is.
pub proof fn law_whole_number_is_below(bits: u64)
    ensures
        is_signed(bits) ==> whole_number(bits) == 0,
        !is_signed(bits) && is_finite(bits) && floor(bits) <= u64::MAX ==> whole_number(bits)
            == floor(bits),
        !is_signed(bits) && is_finite(bits) && floor(bits) > u64::MAX ==> whole_number(bits)
            == 0xffff_ffff_ffff_ffff,
        bits == 0x7ff0_0000_0000_0000 ==> whole_number(bits) == 0xffff_ffff_ffff_ffff,
        bits % 0x8000_0000_0000_0000 > 0x7ff0_0000_0000_0000 ==> whole_number(bits) == 0,
{
    if bits % 0x8000_0000_0000_0000 > 0x7ff0_0000_0000_0000 && !is_signed(bits) {
        assert(bits as int / 0x10_0000_0000_0000 == 2047);
        assert(fraction(bits) != 0);
    }
}

} // verus!
