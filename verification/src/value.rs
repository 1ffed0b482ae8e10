use vstd::arithmetic::power2::{lemma_pow2_pos, lemma_pow2_strictly_increases, lemma_pow2_unfold, pow2};
use vstd::prelude::*;

verus! {

/// The number of mantissa values per exponent of a single-precision float.
pub open spec fn mantissa_span() -> int {
    0x80_0000
}

/// The bit pattern without its sign bit.
pub open spec fn magnitude(bits: u32) -> int {
    if bits >= 0x8000_0000 {
        bits - 0x8000_0000
    } else {
        bits as int
    }
}

/// Whether the sign bit of a bit pattern is set.
pub open spec fn sign_set(bits: u32) -> bool {
    bits >= 0x8000_0000
}

/// The size of the number a sign-less bit pattern `mag` encodes, times
/// 2^149, so that every finite single-precision number is an integer:
/// a subnormal (exponent field 0) is its mantissa `m`, a normal number with
/// exponent field `e` is `(2^23 + m) * 2^(e - 1)`. The same formula puts
/// the infinite pattern above every finite one.
pub open spec fn scaled_magnitude(mag: int) -> int {
    let e = mag / mantissa_span();
    let m = mag % mantissa_span();
    if e == 0 {
        m
    } else {
        (m + mantissa_span()) * pow2((e - 1) as nat)
    }
}

/// The number a (non-NaN) bit pattern encodes, times 2^149; `-inf` and
/// `+inf` lie below and above every finite number.
pub open spec fn scaled_value(bits: u32) -> int {
    if sign_set(bits) {
        -scaled_magnitude(magnitude(bits))
    } else {
        scaled_magnitude(magnitude(bits))
    }
}

/// The encoded size never is negative.
pub proof fn lemma_scaled_magnitude_nonnegative(mag: int)
    requires
        0 <= mag,
    ensures
        scaled_magnitude(mag) >= 0,
{
    let e = mag / mantissa_span();
    let m = mag % mantissa_span();
    if e != 0 {
        lemma_pow2_pos((e - 1) as nat);
        let p = pow2((e - 1) as nat) as int;
        assert((m + mantissa_span()) * p >= 0) by (nonlinear_arith)
            requires
                m >= 0,
                p > 0,
        ;
    }
}

/// A larger sign-less bit pattern, up to the infinite one, encodes a larger
/// size: the encoding is strictly increasing.
pub proof fn lemma_scaled_magnitude_increases(x: int, y: int)
    requires
        0 <= x < y <= 0x7F80_0000,
    ensures
        scaled_magnitude(x) < scaled_magnitude(y),
{
    let c = mantissa_span();
    let e1 = x / c;
    let m1 = x % c;
    let e2 = y / c;
    let m2 = y % c;
    assert(x == e1 * c + m1 && 0 <= m1 < c);
    assert(y == e2 * c + m2 && 0 <= m2 < c);
    assert(e1 <= e2) by (nonlinear_arith)
        requires
            x == e1 * c + m1,
            y == e2 * c + m2,
            0 <= m1 < c,
            0 <= m2 < c,
            x < y,
            c > 0,
    ;
    assert(e1 >= 0) by (nonlinear_arith)
        requires
            x == e1 * c + m1,
            0 <= m1 < c,
            x >= 0,
            c > 0,
    ;
    if e1 == e2 {
        assert(m1 < m2);
        if e1 != 0 {
            lemma_pow2_pos((e1 - 1) as nat);
            let p = pow2((e1 - 1) as nat) as int;
            assert((m1 + c) * p < (m2 + c) * p) by (nonlinear_arith)
                requires
                    m1 < m2,
                    p > 0,
            ;
        }
    } else {
        // Below: the size of `x` is under 2^23 * 2^e1.
        lemma_pow2_pos(e1 as nat);
        let p1 = pow2(e1 as nat) as int;
        if e1 == 0 {
            assert(pow2(0) == 1) by {
                vstd::arithmetic::power2::lemma2_to64();
            }
            assert(scaled_magnitude(x) < c * p1);
        } else {
            lemma_pow2_unfold(e1 as nat);
            let q = pow2((e1 - 1) as nat) as int;
            assert(p1 == 2 * q);
            assert((m1 + c) * q < c * p1) by (nonlinear_arith)
                requires
                    m1 < c,
                    p1 == 2 * q,
                    q > 0,
            ;
        }
        // Above: the size of `y` is at least 2^23 * 2^(e2 - 1) >= 2^23 * 2^e1.
        let p2 = pow2((e2 - 1) as nat) as int;
        if e2 - 1 > e1 {
            lemma_pow2_strictly_increases(e1 as nat, (e2 - 1) as nat);
        }
        assert(p2 >= p1);
        assert((m2 + c) * p2 >= c * p1) by (nonlinear_arith)
            requires
                m2 >= 0,
                p2 >= p1,
                p1 > 0,
                c > 0,
        ;
    }
}

} // verus!
