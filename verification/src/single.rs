//! Decisions on single-precision values, taken on their bit patterns.
//!
//! The arithmetic of a ray tracer rounds; its decisions do not. Whether
//! one distance is less than another, whether a root lies beyond the
//! threshold, which byte a channel becomes: each is a function of the 32 bits
//! of the values involved, and this module computes it in integers.
//!
//! The model: a pattern has a sign (bit 31), an exponent (bits 30 to 23) and
//! a fraction (bits 22 to 0). A pattern with exponent 255 and a fraction
//! other than zero is not a number. Every other pattern stands for a whole
//! number of units of 2^-149, its `value`; the pattern of an infinity gets the
//! value that the next exponent would have, beyond every finite one.

use vstd::prelude::*;
use vstd::arithmetic::power2::{
    pow2, lemma_pow2_pos, lemma_pow2_unfold, lemma_pow2_strictly_increases, lemma_pow2_adds,
    lemma2_to64,
};
use vstd::arithmetic::div_mod::lemma_fundamental_div_mod_converse;

verus! {

/// The sign bit.
pub const SIGN: u32 = 0x8000_0000;

/// The weight of the lowest exponent bit, and the leading bit that a
/// normal number's fraction leaves unsaid.
pub const HIDDEN: u32 = 0x0080_0000;

/// Positive infinity.
pub const INFINITY: u32 = 0x7f80_0000;

/// The greatest finite value.
pub const GREATEST: u32 = 0x7f7f_ffff;

/// Positive zero.
pub const ZERO: u32 = 0;

/// One.
pub const ONE: u32 = 0x3f80_0000;

/// Minus one.
pub const MINUS_ONE: u32 = 0xbf80_0000;

/// Whether the sign bit is set.
pub open spec fn is_negative(bits: u32) -> bool {
    bits >= SIGN
}

/// The pattern without its sign.
pub open spec fn low_bits(bits: u32) -> int {
    bits as int % 0x8000_0000
}

/// The exponent field, from 0 to 255.
pub open spec fn exponent(bits: u32) -> int {
    low_bits(bits) / 0x80_0000
}

/// The fraction field, below 2^23.
pub open spec fn fraction(bits: u32) -> int {
    bits as int % 0x80_0000
}

/// Whether the pattern is not a number.
pub open spec fn nan(bits: u32) -> bool {
    exponent(bits) == 255 && fraction(bits) != 0
}

/// The size of the value in units of 2^-149, whatever its sign.
pub open spec fn size(bits: u32) -> int {
    if exponent(bits) == 0 {
        fraction(bits)
    } else {
        (0x80_0000 + fraction(bits)) * pow2((exponent(bits) - 1) as nat)
    }
}

/// The value in units of 2^-149.
pub open spec fn value(bits: u32) -> int {
    if is_negative(bits) {
        -size(bits)
    } else {
        size(bits)
    }
}

/// Whether both are numbers and `a` is the lesser.
pub open spec fn below(a: u32, b: u32) -> bool {
    !nan(a) && !nan(b) && value(a) < value(b)
}

/// Whether both are numbers and `a` is the greater.
pub open spec fn above(a: u32, b: u32) -> bool {
    below(b, a)
}

/// The size of one, in the same units: 2^149.
pub open spec fn unit() -> int {
    pow2(149) as int
}

proof fn lemma_parts(bits: u32)
    ensures
        0 <= low_bits(bits) < 0x8000_0000,
        0 <= exponent(bits) <= 255,
        0 <= fraction(bits) < 0x80_0000,
        low_bits(bits) == exponent(bits) * 0x80_0000 + fraction(bits),
        nan(bits) <==> low_bits(bits) > INFINITY,
{
}

/// Among numbers, the pattern without its sign grows with the size.
pub proof fn lemma_size_monotonic(a: u32, b: u32)
    requires
        !nan(a),
        !nan(b),
        low_bits(a) < low_bits(b),
    ensures
        0 <= size(a) < size(b),
{
    lemma_parts(a);
    lemma_parts(b);
    let ea = exponent(a);
    let eb = exponent(b);
    let fa = fraction(a);
    let fb = fraction(b);
    if ea == eb {
        if ea != 0 {
            let p = pow2((ea - 1) as nat) as int;
            lemma_pow2_pos((ea - 1) as nat);
            assert(0 <= (0x80_0000 + fa) * p < (0x80_0000 + fb) * p) by (nonlinear_arith)
                requires
                    0 <= fa < fb,
                    p > 0,
            ;
        }
    } else {
        assert(ea < eb);
        let q = pow2((eb - 1) as nat) as int;
        lemma_pow2_pos((eb - 1) as nat);
        assert(0x80_0000 * q <= (0x80_0000 + fb) * q) by (nonlinear_arith)
            requires
                0 <= fb,
                q > 0,
        ;
        if ea == 0 {
            assert(0x80_0000 * 1 <= 0x80_0000 * q) by (nonlinear_arith)
                requires
                    q >= 1,
            ;
        } else {
            let p = pow2((ea - 1) as nat) as int;
            lemma_pow2_pos((ea - 1) as nat);
            lemma_pow2_unfold(ea as nat);
            assert(pow2(ea as nat) == 2 * p);
            if ea < eb - 1 {
                lemma_pow2_strictly_increases(ea as nat, (eb - 1) as nat);
            }
            assert(2 * p <= q);
            assert(0 <= (0x80_0000 + fa) * p < 0x80_0000 * q) by (nonlinear_arith)
                requires
                    0 <= fa < 0x80_0000,
                    p > 0,
                    2 * p <= q,
            ;
        }
    }
}

/// Among numbers, patterns that differ only in sign have one size, and
/// patterns of one size differ only in sign.
pub proof fn lemma_size_decides(a: u32, b: u32)
    requires
        !nan(a),
        !nan(b),
    ensures
        low_bits(a) < low_bits(b) <==> size(a) < size(b),
        low_bits(a) == low_bits(b) <==> size(a) == size(b),
        size(a) >= 0,
        size(a) == 0 <==> low_bits(a) == 0,
{
    lemma_parts(a);
    lemma_parts(b);
    if low_bits(a) < low_bits(b) {
        lemma_size_monotonic(a, b);
    } else if low_bits(b) < low_bits(a) {
        lemma_size_monotonic(b, a);
    } else {
        assert(exponent(a) == exponent(b));
        assert(fraction(a) == fraction(b));
    }
    if low_bits(a) > 0 {
        lemma_size_monotonic(0u32, a);
    } else {
        assert(size(a) == 0);
    }
}

/// Of two numbers exactly one holds: the first is below the second, they
/// are of one value, or the first is above the second.
pub proof fn lemma_trichotomy(a: u32, b: u32)
    requires
        !nan(a),
        !nan(b),
    ensures
        below(a, b) || value(a) == value(b) || above(a, b),
        !(below(a, b) && above(a, b)),
        !(below(a, b) && value(a) == value(b)),
        !(above(a, b) && value(a) == value(b)),
{
}

/// The order is strict: nothing is below itself, and what is below
/// something that is below a third is below the third.
pub proof fn lemma_order_is_strict(a: u32, b: u32, c: u32)
    ensures
        !below(a, a),
        below(a, b) && below(b, c) ==> below(a, c),
        below(a, b) ==> !below(b, a),
{
}

/// Flipping the sign twice gives the pattern back, and turns the order round.
pub proof fn lemma_negated(a: u32, b: u32)
    ensures
        negated(negated(a)) == a,
        nan(negated(a)) == nan(a),
        value(negated(a)) == -value(a),
        below(a, b) <==> below(negated(b), negated(a)),
{
    lemma_parts(a);
    lemma_parts(b);
    lemma_parts(negated(a));
    lemma_parts(negated(b));
}

/// What lies below a number is no greater than the greatest finite value.
pub proof fn lemma_below_is_finite(a: u32, b: u32)
    requires
        below(a, b),
    ensures
        value(a) <= value(GREATEST),
{
    lemma_parts(a);
    lemma_parts(b);
    lemma_parts(GREATEST);
    lemma_size_decides(a, b);
    lemma_size_decides(a, GREATEST);
    lemma_size_decides(b, GREATEST);
    assert(low_bits(GREATEST) == 0x7f7f_ffff);
}

/// Whether the pattern is not a number.
pub fn is_nan(bits: u32) -> (r: bool)
    ensures
        r == nan(bits),
{
    proof {
        lemma_parts(bits);
    }
    bits % SIGN > INFINITY
}

/// Whether the sign bit is set: true of negative numbers, of minus zero
/// and of the patterns that are not numbers and carry the sign.
pub fn sign_negative(bits: u32) -> (r: bool)
    ensures
        r == is_negative(bits),
{
    bits >= SIGN
}

/// The pattern with its sign cleared: the absolute value.
pub fn magnitude(bits: u32) -> (r: u32)
    ensures
        r == low_bits(bits),
        !is_negative(r),
        nan(r) == nan(bits),
        value(r) == size(bits),
{
    bits % SIGN
}

/// The pattern with its sign flipped.
pub open spec fn negated(bits: u32) -> u32 {
    if bits >= SIGN {
        (bits - SIGN) as u32
    } else {
        (bits + SIGN) as u32
    }
}

/// The pattern with its sign flipped: the negated value.
pub fn negate(bits: u32) -> (r: u32)
    ensures
        r == negated(bits),
        is_negative(r) != is_negative(bits),
        low_bits(r) == low_bits(bits),
        nan(r) == nan(bits),
        value(r) == -value(bits),
{
    if bits >= SIGN {
        bits - SIGN
    } else {
        bits + SIGN
    }
}

/// Whether both are numbers and `a` is the lesser. Zero and minus zero
/// are equal; what is not a number is neither less nor greater.
pub fn less(a: u32, b: u32) -> (r: bool)
    ensures
        r == below(a, b),
{
    if is_nan(a) || is_nan(b) {
        return false;
    }
    proof {
        lemma_size_decides(a, b);
        lemma_size_decides(b, a);
    }
    let ma = a % SIGN;
    let mb = b % SIGN;
    if a >= SIGN {
        if b >= SIGN {
            mb < ma
        } else {
            ma != 0 || mb != 0
        }
    } else {
        if b >= SIGN {
            false
        } else {
            ma < mb
        }
    }
}

/// Whether both are numbers and `a` is the greater.
pub fn greater(a: u32, b: u32) -> (r: bool)
    ensures
        r == above(a, b),
{
    less(b, a)
}

/// Whether both are numbers and of one value. Zero equals minus zero.
pub fn equal(a: u32, b: u32) -> (r: bool)
    ensures
        r == (!nan(a) && !nan(b) && value(a) == value(b)),
{
    if is_nan(a) || is_nan(b) {
        return false;
    }
    proof {
        lemma_size_decides(a, b);
    }
    let ma = a % SIGN;
    let mb = b % SIGN;
    if (a >= SIGN) == (b >= SIGN) {
        ma == mb
    } else {
        ma == 0 && mb == 0
    }
}

/// The value of the pattern `ONE` is one unit.
pub proof fn lemma_one_is_unit()
    ensures
        value(ONE) == unit(),
        value(MINUS_ONE) == -unit(),
        value(ZERO) == 0,
        !nan(ONE),
        !nan(MINUS_ONE),
        !nan(ZERO),
{
    lemma2_to64();
    lemma_pow2_adds(23, 126);
    assert(exponent(ONE) == 127);
    assert(fraction(ONE) == 0);
    assert(exponent(MINUS_ONE) == 127);
    assert(fraction(MINUS_ONE) == 0);
    assert(pow2(23) == 0x80_0000);
}

/// The value held between minus one and one: what is above becomes one,
/// what is below becomes minus one, and what is not a number becomes one.
pub open spec fn clamped(bits: u32) -> u32 {
    if nan(bits) || value(bits) > unit() {
        ONE
    } else if value(bits) < -unit() {
        MINUS_ONE
    } else {
        bits
    }
}

/// Holds a cosine between minus one and one.
pub fn clamp_unit(bits: u32) -> (r: u32)
    ensures
        r == clamped(bits),
        !nan(r),
        -unit() <= value(r) <= unit(),
{
    proof {
        lemma_one_is_unit();
    }
    if is_nan(bits) || greater(bits, ONE) {
        ONE
    } else if less(bits, MINUS_ONE) {
        MINUS_ONE
    } else {
        bits
    }
}

/// The value if it is a number above zero, and zero if not.
pub fn positive_part(bits: u32) -> (r: u32)
    ensures
        r == if !nan(bits) && value(bits) > 0 {
            bits
        } else {
            ZERO
        },
        !nan(r),
        value(r) >= 0,
{
    proof {
        lemma_one_is_unit();
    }
    if greater(bits, ZERO) {
        bits
    } else {
        ZERO
    }
}

/// Two to the power `k`.
fn two_to(k: u32) -> (r: u32)
    requires
        k < 32,
    ensures
        r == pow2(k as nat),
{
    let mut r: u32 = 1;
    let mut i: u32 = 0;
    proof {
        lemma2_to64();
    }
    while i < k
        invariant
            i <= k < 32,
            r == pow2(i as nat),
        decreases k - i,
    {
        proof {
            lemma2_to64();
            if i < 30 {
                lemma_pow2_strictly_increases(i as nat, 30);
            }
            lemma_pow2_unfold((i + 1) as nat);
        }
        r = r * 2;
        i = i + 1;
    }
    r
}

/// The whole part of a value that is no less than one unit and less than
/// 2^31 units, with what is left of the significand below it.
proof fn lemma_whole_part(bits: u32)
    requires
        127 <= exponent(bits) < 158,
    ensures
        exponent(bits) >= 150 ==> size(bits) == (0x80_0000 + fraction(bits)) * pow2(
            (exponent(bits) - 150) as nat,
        ) * unit(),
        exponent(bits) < 150 ==> {
            let m = 0x80_0000 + fraction(bits);
            let d = pow2((150 - exponent(bits)) as nat) as int;
            &&& d > 0
            &&& size(bits) / unit() == m / d
            &&& (size(bits) % unit() == 0 <==> m % d == 0)
        },
        unit() > 0,
{
    let e = exponent(bits);
    let m = 0x80_0000 + fraction(bits);
    lemma_pow2_pos(149);
    if e >= 150 {
        lemma_pow2_adds((e - 150) as nat, 149);
        let k = pow2((e - 150) as nat) as int;
        let u = unit();
        assert(m * (k * u) == m * k * u) by (nonlinear_arith);
    } else {
        let p = pow2((e - 1) as nat) as int;
        let d = pow2((150 - e) as nat) as int;
        let u = unit();
        lemma_pow2_pos((e - 1) as nat);
        lemma_pow2_pos((150 - e) as nat);
        lemma_pow2_adds((e - 1) as nat, (150 - e) as nat);
        assert(u == p * d);
        let q = m / d;
        let r = m % d;
        vstd::arithmetic::div_mod::lemma_fundamental_div_mod(m, d);
        vstd::arithmetic::div_mod::lemma_mod_bound(m, d);
        assert(m * p == q * (p * d) + r * p) by (nonlinear_arith)
            requires
                m == d * q + r,
        ;
        assert(0 <= r * p < p * d) by (nonlinear_arith)
            requires
                0 <= r < d,
                p > 0,
        ;
        lemma_fundamental_div_mod_converse(m * p, u, q, r * p);
        assert(r * p == 0 <==> r == 0) by (nonlinear_arith)
            requires
                0 <= r,
                p > 0,
        ;
    }
}

/// Small values are less than one unit, large ones at least 2^31 units.
proof fn lemma_size_ranges(bits: u32)
    ensures
        exponent(bits) < 127 ==> 0 <= size(bits) < unit(),
        exponent(bits) >= 135 ==> size(bits) >= 256 * unit(),
        exponent(bits) >= 158 ==> size(bits) >= 0x8000_0000 * unit(),
        127 <= exponent(bits) < 135 ==> unit() <= size(bits) < 256 * unit(),
        unit() > 0,
{
    lemma_parts(bits);
    lemma2_to64();
    let e = exponent(bits);
    let f = fraction(bits);
    let u = unit();
    lemma_pow2_pos(149);
    lemma_pow2_adds(23, 126);
    assert(u == 0x80_0000 * pow2(126));
    if e == 0 {
        lemma_pow2_pos(126);
        assert(f < 0x80_0000 * pow2(126)) by (nonlinear_arith)
            requires
                f < 0x80_0000,
                pow2(126) >= 1,
        ;
    } else {
        let p = pow2((e - 1) as nat) as int;
        lemma_pow2_pos((e - 1) as nat);
        if e < 127 {
            if e - 1 < 125 {
                lemma_pow2_strictly_increases((e - 1) as nat, 125);
            }
            lemma_pow2_unfold(126);
            let h = pow2(125) as int;
            assert(0 <= (0x80_0000 + f) * p < 0x80_0000 * (2 * h)) by (nonlinear_arith)
                requires
                    0 <= f < 0x80_0000,
                    0 < p <= h,
            ;
        } else {
            let k = (e - 127) as nat;
            lemma_pow2_adds(126, k);
            let w = pow2(k) as int;
            lemma_pow2_pos(k);
            lemma_pow2_pos(126);
            let t = pow2(126) as int;
            assert(p == t * w);
            assert((0x80_0000 + f) * (t * w) >= (0x80_0000 * t) * w) by (nonlinear_arith)
                requires
                    f >= 0,
                    t > 0,
                    w > 0,
            ;
            assert((0x80_0000 + f) * (t * w) < (0x80_0000 * t) * (2 * w)) by (nonlinear_arith)
                requires
                    0 <= f < 0x80_0000,
                    t > 0,
                    w > 0,
            ;
            if e >= 135 {
                if k > 8 {
                    lemma_pow2_strictly_increases(8, k);
                }
                assert(u * w >= 256 * u) by (nonlinear_arith)
                    requires
                        w >= 256,
                        u > 0,
                ;
            } else {
                if k < 7 {
                    lemma_pow2_strictly_increases(k, 7);
                }
                assert(u * w >= u) by (nonlinear_arith)
                    requires
                        w >= 1,
                        u > 0,
                ;
                assert(u * (2 * w) <= 256 * u) by (nonlinear_arith)
                    requires
                        w <= 128,
                        u > 0,
                ;
            }
            if e >= 158 {
                if k > 31 {
                    lemma_pow2_strictly_increases(31, k);
                }
                assert(u * w >= 0x8000_0000 * u) by (nonlinear_arith)
                    requires
                        w >= 0x8000_0000,
                        u > 0,
                ;
            }
        }
    }
}

/// The byte that a channel value becomes: its whole part, held between 0
/// and 255. What is not a number becomes 0.
pub open spec fn byte_of(bits: u32) -> int {
    if nan(bits) || is_negative(bits) {
        0
    } else if size(bits) / unit() > 255 {
        255
    } else {
        size(bits) / unit()
    }
}

/// Cuts a value down to a byte: the fraction goes, what lies below 0 or
/// above 255 is held at the bound, what is not a number becomes 0.
pub fn to_byte(bits: u32) -> (byte: u8)
    ensures
        byte == byte_of(bits),
{
    proof {
        lemma_parts(bits);
        lemma_size_ranges(bits);
    }
    if bits >= SIGN {
        return 0;
    }
    let e = bits / HIDDEN;
    let f = bits % HIDDEN;
    assert(e == exponent(bits));
    assert(f == fraction(bits));
    if e == 255 && f != 0 {
        return 0;
    }
    if e < 127 {
        assert(size(bits) / unit() == 0) by (nonlinear_arith)
            requires
                0 <= size(bits) < unit(),
        ;
        return 0;
    }
    if e >= 135 {
        assert(size(bits) / unit() >= 256) by (nonlinear_arith)
            requires
                size(bits) >= 256 * unit(),
                unit() > 0,
        ;
        return 255;
    }
    let m = HIDDEN + f;
    let d = two_to(150 - e);
    proof {
        lemma_whole_part(bits);
        assert(size(bits) / unit() < 256) by (nonlinear_arith)
            requires
                0 <= size(bits) < 256 * unit(),
                unit() > 0,
        ;
    }
    (m / d) as u8
}

/// A whole number held within the range of `i32`.
pub open spec fn held_in_i32(x: int) -> int {
    if x < i32::MIN {
        i32::MIN as int
    } else if x > i32::MAX {
        i32::MAX as int
    } else {
        x
    }
}

/// The greatest whole number not above the value, held within the range
/// of `i32`. What is not a number becomes 0.
pub open spec fn floor_of(bits: u32) -> int {
    if nan(bits) {
        0
    } else {
        held_in_i32(value(bits) / unit())
    }
}

/// Rounds a value down to a whole number.
pub fn floor_to_i32(bits: u32) -> (whole: i32)
    ensures
        whole == floor_of(bits),
{
    proof {
        lemma_parts(bits);
        lemma_size_ranges(bits);
    }
    let negative = bits >= SIGN;
    let low = bits % SIGN;
    let e = low / HIDDEN;
    let f = low % HIDDEN;
    assert(e == exponent(bits));
    assert(f == fraction(bits));
    let ghost s = size(bits);
    let ghost u = unit();
    if e == 255 && f != 0 {
        return 0;
    }
    proof {
        lemma_size_decides(bits, bits);
    }
    if e < 127 {
        if negative && low != 0 {
            proof {
                lemma_fundamental_div_mod_converse(-s, u, -1, u - s);
            }
            return -1;
        } else {
            assert(s / u == 0) by (nonlinear_arith)
                requires
                    0 <= s < u,
            ;
            return 0;
        }
    }
    if e >= 158 {
        if negative {
            assert((-s) / u <= -0x8000_0000) by (nonlinear_arith)
                requires
                    s >= 0x8000_0000 * u,
                    u > 0,
            ;
            return i32::MIN;
        } else {
            assert(s / u >= 0x8000_0000) by (nonlinear_arith)
                requires
                    s >= 0x8000_0000 * u,
                    u > 0,
            ;
            return i32::MAX;
        }
    }
    let m = HIDDEN + f;
    proof {
        lemma_whole_part(bits);
        lemma2_to64();
    }
    if e >= 150 {
        let k = two_to(e - 150);
        proof {
            if e - 150 < 7 {
                lemma_pow2_strictly_increases((e - 150) as nat, 7);
            }
            assert(m * k < 0x8000_0000) by (nonlinear_arith)
                requires
                    0 <= m < 0x100_0000,
                    0 < k <= 128,
            ;
            assert((m * k * u) / u == m * k) by (nonlinear_arith)
                requires
                    u > 0,
            ;
            assert((-(m * k * u)) / u == -(m * k)) by (nonlinear_arith)
                requires
                    u > 0,
            ;
        }
        let whole = m * k;
        if negative {
            -(whole as i64) as i32
        } else {
            whole as i32
        }
    } else {
        let d = two_to(150 - e);
        let q = m / d;
        let r = m % d;
        proof {
            vstd::arithmetic::div_mod::lemma_fundamental_div_mod(s, u);
            vstd::arithmetic::div_mod::lemma_mod_bound(s, u);
            let sq = s / u;
            let sr = s % u;
            if r != 0 {
                assert(-s == (-sq - 1) * u + (u - sr)) by (nonlinear_arith)
                    requires
                        s == u * sq + sr,
                ;
                lemma_fundamental_div_mod_converse(-s, u, -sq - 1, u - sr);
            } else {
                assert(-s == (-sq) * u + 0) by (nonlinear_arith)
                    requires
                        s == u * sq + sr,
                        sr == 0,
                ;
                lemma_fundamental_div_mod_converse(-s, u, -sq, 0);
            }
        }
        if negative {
            if r != 0 {
                -(q as i32) - 1
            } else {
                -(q as i32)
            }
        } else {
            q as i32
        }
    }
}

} // verus!
