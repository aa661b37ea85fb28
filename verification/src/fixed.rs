//! Angles as scaled integers.
//!
//! A coordinate arrives as the bit pattern of an IEEE 754 binary64 number
//! of degrees. The device stores it as a signed count of units of
//! 1/10 000 000 of a degree, rounded to the nearest unit, ties to even.
//! Everything here is exact integer arithmetic on the bit pattern.
use vstd::arithmetic::div_mod::*;
use vstd::arithmetic::power2::*;
use vstd::prelude::*;

verus! {

/// Device units per degree.
pub const UNITS_PER_DEGREE: u64 = 10_000_000;

/// Largest latitude, in whole degrees.
pub const LATITUDE_LIMIT: u64 = 90;

/// Largest longitude, in whole degrees.
pub const LONGITUDE_LIMIT: u64 = 180;

/// Two to the power 52: the weight of the hidden significand bit.
pub const HIDDEN_BIT: u64 = 0x10_0000_0000_0000;

/// Two to the power 63: the weight of the sign bit.
pub const SIGN_BIT: u64 = 0x8000_0000_0000_0000;

/// Whether the pattern's sign bit is set.
pub open spec fn is_negative(bits: u64) -> bool {
    bits >= SIGN_BIT
}

/// The eleven exponent bits of the pattern.
pub open spec fn exponent_field(bits: u64) -> nat {
    ((bits / HIDDEN_BIT) % 2048) as nat
}

/// The fifty-two fraction bits of the pattern.
pub open spec fn fraction_field(bits: u64) -> nat {
    (bits % HIDDEN_BIT) as nat
}

/// Whether the pattern is a number, as opposed to an infinity or a NaN.
pub open spec fn is_finite(bits: u64) -> bool {
    exponent_field(bits) != 2047
}

/// The integer significand: the fraction bits, with the hidden bit for a
/// normal number.
pub open spec fn significand(bits: u64) -> nat {
    if exponent_field(bits) == 0 {
        fraction_field(bits)
    } else {
        fraction_field(bits) + HIDDEN_BIT as nat
    }
}

/// How many binary places the significand stands above the smallest
/// representable magnitude, two to the power -1074.
pub open spec fn place(bits: u64) -> nat {
    if exponent_field(bits) == 0 {
        0
    } else {
        (exponent_field(bits) - 1) as nat
    }
}

/// The magnitude of a finite pattern, counted exactly in units of two to
/// the power -1074.
pub open spec fn magnitude(bits: u64) -> nat {
    significand(bits) * pow2(place(bits))
}

/// How many units of two to the power -1074 make one degree.
pub open spec fn degree() -> nat {
    pow2(1074)
}

/// Whether the pattern is a number whose magnitude is at most `limit`
/// whole degrees.
pub open spec fn within(bits: u64, limit: nat) -> bool {
    is_finite(bits) && magnitude(bits) <= limit * degree()
}

/// The quotient `n / d` rounded to the nearest integer, a tie going to
/// the even neighbour.
pub open spec fn round_half_even(n: nat, d: nat) -> nat
    recommends
        d > 0,
{
    let q = n / d;
    let r = n % d;
    if 2 * r < d || (2 * r == d && q % 2 == 0) {
        q
    } else {
        q + 1
    }
}

/// The magnitude of a finite pattern in device units.
pub open spec fn scaled_magnitude(bits: u64) -> nat {
    round_half_even(magnitude(bits) * UNITS_PER_DEGREE as nat, degree())
}

/// The finite pattern's value in device units.
pub open spec fn scaled(bits: u64) -> int {
    if is_negative(bits) {
        -(scaled_magnitude(bits) as int)
    } else {
        scaled_magnitude(bits) as int
    }
}

/// Rounding does not change when numerator and denominator are both
/// multiplied by the same positive number.
pub proof fn lemma_round_scale_invariant(n: nat, d: nat, c: nat)
    requires
        d > 0,
        c > 0,
    ensures
        round_half_even(c * n, c * d) == round_half_even(n, d),
{
    lemma_div_multiples_vanish_quotient(c as int, n as int, d as int);
    lemma_truncate_middle(n as int, c as int, d as int);
    let r = n % d;
    assert((c * n) % (c * d) == c * r);
    assert((c * n) / (c * d) == n / d);
    assert(2 * (c * r) < c * d <==> 2 * r < d) by (nonlinear_arith)
        requires
            c > 0,
    ;
    assert(2 * (c * r) == c * d <==> 2 * r == d) by (nonlinear_arith)
        requires
            c > 0,
    ;
}

/// The rounded quotient is a nearest integer: it lies within half a unit
/// of `n / d`, and where `n / d` is exactly half way between two
/// integers the even one is taken.
pub proof fn lemma_round_half_even_is_nearest(n: nat, d: nat)
    requires
        d > 0,
    ensures
        2 * (round_half_even(n, d) * d - n) <= d,
        2 * (n - round_half_even(n, d) * d) <= d,
        2 * (round_half_even(n, d) * d - n) == d || 2 * (n - round_half_even(n, d) * d) == d
            ==> round_half_even(n, d) % 2 == 0,
{
    lemma_fundamental_div_mod(n as int, d as int);
    lemma_mod_bound(n as int, d as int);
    let q = n / d;
    let r = n % d;
    assert(n == d * q + r);
    assert((q + 1) * d == d * q + d) by (nonlinear_arith);
    assert(q * d == d * q) by (nonlinear_arith);
    if !(2 * r < d || (2 * r == d && q % 2 == 0)) {
        if 2 * r == d {
            assert((q + 1) % 2 == 0);
        }
    }
}

/// Rounding is monotonic in the numerator.
pub proof fn lemma_round_half_even_monotonic(n1: nat, n2: nat, d: nat)
    requires
        d > 0,
        n1 <= n2,
    ensures
        round_half_even(n1, d) <= round_half_even(n2, d),
{
    lemma_fundamental_div_mod(n1 as int, d as int);
    lemma_fundamental_div_mod(n2 as int, d as int);
    lemma_mod_bound(n1 as int, d as int);
    lemma_mod_bound(n2 as int, d as int);
    lemma_div_is_ordered(n1 as int, n2 as int, d as int);
    let q1 = n1 / d;
    let q2 = n2 / d;
    let r1 = n1 % d;
    let r2 = n2 % d;
    if q1 == q2 {
        assert(d * q1 == d * q2);
        assert(r1 <= r2);
    } else {
        assert(q1 + 1 <= q2);
        if q1 + 1 == q2 && round_half_even(n1, d) == q1 + 1 && round_half_even(n2, d) == q2 {
        }
    }
}

/// A whole multiple of the denominator rounds to itself.
pub proof fn lemma_round_half_even_exact(k: nat, d: nat)
    requires
        d > 0,
    ensures
        round_half_even(k * d, d) == k,
{
    lemma_fundamental_div_mod_converse((k * d) as int, d as int, k as int, 0);
}

/// The device value of a number is within half a device unit of the
/// number itself: `scaled_magnitude / UNITS_PER_DEGREE` differs from
/// `magnitude / degree` by at most `1 / (2 * UNITS_PER_DEGREE)`. Where
/// the number lies exactly half way between two device values, the even
/// one is taken.
pub proof fn law_scaled_is_nearest(bits: u64)
    ensures
        2 * (scaled_magnitude(bits) * degree() - magnitude(bits) * UNITS_PER_DEGREE) <= degree(),
        2 * (magnitude(bits) * UNITS_PER_DEGREE - scaled_magnitude(bits) * degree()) <= degree(),
        2 * (scaled_magnitude(bits) * degree() - magnitude(bits) * UNITS_PER_DEGREE) == degree()
            || 2 * (magnitude(bits) * UNITS_PER_DEGREE - scaled_magnitude(bits) * degree())
            == degree() ==> scaled_magnitude(bits) % 2 == 0,
{
    lemma_pow2_pos(1074);
    lemma_round_half_even_is_nearest(magnitude(bits) * UNITS_PER_DEGREE as nat, degree());
}

/// A number of at most `limit` degrees in magnitude has a device value
/// of at most `limit` times [`UNITS_PER_DEGREE`]; and a larger number
/// never has a smaller device value.
pub proof fn law_scaled_keeps_order(smaller: u64, larger: u64, limit: nat)
    requires
        magnitude(smaller) <= magnitude(larger),
    ensures
        scaled_magnitude(smaller) <= scaled_magnitude(larger),
        magnitude(larger) <= limit * degree() ==> scaled_magnitude(larger) <= limit
            * UNITS_PER_DEGREE,
{
    let u = UNITS_PER_DEGREE as nat;
    lemma_pow2_pos(1074);
    assert(magnitude(smaller) * u <= magnitude(larger) * u) by (nonlinear_arith)
        requires
            magnitude(smaller) <= magnitude(larger),
    ;
    lemma_round_half_even_monotonic(magnitude(smaller) * u, magnitude(larger) * u, degree());
    if magnitude(larger) <= limit * degree() {
        assert(magnitude(larger) * u <= (limit * u) * degree()) by (nonlinear_arith)
            requires
                magnitude(larger) <= limit * degree(),
        ;
        lemma_round_half_even_monotonic(magnitude(larger) * u, (limit * u) * degree(), degree());
        lemma_round_half_even_exact(limit * u, degree());
    }
}

/// A whole number of degrees scales exactly: `k` degrees are `k` times
/// [`UNITS_PER_DEGREE`] device units.
pub proof fn law_whole_degrees_scale_exactly(bits: u64, k: nat)
    requires
        magnitude(bits) == k * degree(),
    ensures
        scaled_magnitude(bits) == k * UNITS_PER_DEGREE,
{
    let u = UNITS_PER_DEGREE as nat;
    lemma_pow2_pos(1074);
    assert((k * degree()) * u == (k * u) * degree()) by (nonlinear_arith);
    lemma_round_half_even_exact(k * u, degree());
}

/// Two to the power `k`, for a `k` small enough that the result fits.
fn power_of_two(k: u64) -> (r: u128)
    requires
        k <= 100,
    ensures
        r == pow2(k as nat),
        r > 0,
{
    let mut r: u128 = 1;
    let mut i: u64 = 0;
    proof {
        lemma2_to64();
    }
    while i < k
        invariant
            i <= k <= 100,
            r == pow2(i as nat),
            r > 0,
        decreases k - i,
    {
        proof {
            lemma_pow2_unfold((i + 1) as nat);
            lemma_pow2_strictly_increases((i + 1) as nat, 101);
            lemma_pow2_adds(64, 37);
            lemma2_to64();
            lemma2_to64_rest();
        }
        r = r * 2;
        i = i + 1;
    }
    r
}

/// A pattern whose exponent field is at least 1075 is a whole number of
/// at least two to the power 52, so it exceeds every limit of interest.
proof fn lemma_large_exponent_exceeds(bits: u64, limit: nat)
    requires
        1075 <= exponent_field(bits),
        limit <= 180,
    ensures
        magnitude(bits) > limit * degree(),
{
    let p = place(bits);
    let m = significand(bits);
    lemma_pow2_pos(1074);
    if p > 1074 {
        lemma_pow2_strictly_increases(1074, p);
    }
    assert(pow2(p) >= pow2(1074));
    assert(m >= HIDDEN_BIT);
    assert(m * pow2(p) > limit * pow2(1074)) by (nonlinear_arith)
        requires
            m >= 0x10_0000_0000_0000,
            limit <= 180,
            pow2(p) >= pow2(1074),
            pow2(1074) > 0,
    ;
}

/// With `shift` binary places below the unit, the range test and the
/// rounding can both be done on the significand alone.
proof fn lemma_reduce_to_significand(bits: u64, limit: nat, shift: nat)
    requires
        exponent_field(bits) < 1075,
        shift + place(bits) == 1074,
    ensures
        pow2(shift) > 0,
        magnitude(bits) <= limit * degree() <==> significand(bits) <= limit * pow2(shift),
        scaled_magnitude(bits) == round_half_even(
            significand(bits) * UNITS_PER_DEGREE as nat,
            pow2(shift),
        ),
{
    let p = place(bits);
    let m = significand(bits);
    let c = pow2(p);
    let d = pow2(shift);
    let u = UNITS_PER_DEGREE as nat;
    lemma_pow2_pos(p);
    lemma_pow2_pos(shift);
    lemma_pow2_adds(shift, p);
    assert(degree() == d * c);
    assert(m * c <= limit * (d * c) <==> m <= limit * d) by (nonlinear_arith)
        requires
            c > 0,
    ;
    assert((m * c) * u == c * (m * u)) by (nonlinear_arith);
    assert(d * c == c * d) by (nonlinear_arith);
    lemma_round_scale_invariant(m * u, d, c);
}

/// Converts a coordinate to device units, if it is a number of at most
/// `limit` degrees in magnitude.
fn to_units(bits: u64, limit: u64) -> (r: Option<i32>)
    requires
        1 <= limit <= 180,
    ensures
        r.is_some() <==> within(bits, limit as nat),
        r matches Some(v) ==> v == scaled(bits) && -(limit * UNITS_PER_DEGREE) <= v <= limit
            * UNITS_PER_DEGREE,
{
    let e: u64 = (bits / HIDDEN_BIT) % 2048;
    let f: u64 = bits % HIDDEN_BIT;
    if e == 2047 {
        return None;
    }
    if e >= 1075 {
        proof {
            lemma_large_exponent_exceeds(bits, limit as nat);
        }
        return None;
    }
    let m: u64 = if e == 0 {
        f
    } else {
        f + HIDDEN_BIT
    };
    let shift: u64 = if e == 0 {
        1074
    } else {
        1075 - e
    };
    proof {
        lemma_reduce_to_significand(bits, limit as nat, shift as nat);
        lemma2_to64();
        lemma2_to64_rest();
    }
    let n: u128 = m as u128 * UNITS_PER_DEGREE as u128;
    if shift >= 80 {
        proof {
            if shift > 80 {
                lemma_pow2_strictly_increases(80, shift as nat);
            }
            lemma_pow2_adds(64, 16);
            let d = pow2(shift as nat);
            assert(d >= 0x1_0000_0000_0000_0000_0000);
            assert(m <= limit * d) by (nonlinear_arith)
                requires
                    m < 0x20_0000_0000_0000,
                    d >= 0x1_0000_0000_0000_0000_0000,
                    limit >= 1,
            ;
            lemma_fundamental_div_mod_converse(n as int, d as int, 0, n as int);
        }
        return Some(0);
    }
    let d: u128 = power_of_two(shift);
    proof {
        if shift < 79 {
            lemma_pow2_strictly_increases(shift as nat, 79);
        }
        lemma_pow2_adds(64, 15);
        assert(d <= 0x8000_0000_0000_0000_0000);
        assert(limit * d <= 180 * 0x8000_0000_0000_0000_0000) by (nonlinear_arith)
            requires
                limit <= 180,
                d <= 0x8000_0000_0000_0000_0000,
        ;
    }
    let bound: u128 = limit as u128 * d;
    if m as u128 > bound {
        return None;
    }
    let q: u128 = n / d;
    let rem: u128 = n % d;
    proof {
        lemma_fundamental_div_mod(n as int, d as int);
        let cap = (limit * UNITS_PER_DEGREE) as int;
        assert(n <= cap * d) by (nonlinear_arith)
            requires
                n == m * 10_000_000,
                m <= limit * d,
                cap == limit * 10_000_000,
        ;
        assert(q <= cap && (q == cap ==> rem == 0)) by (nonlinear_arith)
            requires
                n == d * q + rem,
                n <= cap * d,
                0 <= rem,
                d > 0,
        ;
    }
    let rounded: u128 = if 2 * rem < d || (2 * rem == d && q % 2 == 0) {
        q
    } else {
        q + 1
    };
    let v: i32 = rounded as i32;
    if bits >= SIGN_BIT {
        Some(-v)
    } else {
        Some(v)
    }
}

/// A latitude in device units, or `None` if the pattern is not a number
/// between -90 and 90 degrees inclusive.
pub fn latitude_units(bits: u64) -> (r: Option<i32>)
    ensures
        r.is_some() <==> within(bits, LATITUDE_LIMIT as nat),
        r matches Some(v) ==> v == scaled(bits) && -900_000_000 <= v <= 900_000_000,
{
    to_units(bits, LATITUDE_LIMIT)
}

/// A longitude in device units, or `None` if the pattern is not a number
/// between -180 and 180 degrees inclusive.
pub fn longitude_units(bits: u64) -> (r: Option<i32>)
    ensures
        r.is_some() <==> within(bits, LONGITUDE_LIMIT as nat),
        r matches Some(v) ==> v == scaled(bits) && -1_800_000_000 <= v <= 1_800_000_000,
{
    to_units(bits, LONGITUDE_LIMIT)
}

} // verus!
