use vstd::prelude::*;

verus! {

/// Sign bit of a single-precision bit pattern.
pub const SIGN_BIT: u32 = 0x8000_0000;

/// Whether a single-precision bit pattern is a NaN, of either sign: every
/// exponent bit set and a nonzero mantissa.
pub open spec fn is_nan(bits: u32) -> bool {
    if bits >= SIGN_BIT {
        bits - SIGN_BIT > 0x7F80_0000
    } else {
        bits > 0x7F80_0000
    }
}

/// The rank of a single-precision bit pattern among distances, smallest
/// first: the numbers in the IEEE-754 total order (`total_cmp`) from `-inf`
/// through `-0.0` and `+0.0` up to `+inf`, then every NaN, whatever its
/// sign, after them all. A number with the sign bit set is ranked by its
/// complement, one without it is lifted above every signed number; a NaN is
/// lifted above the 32-bit range, NaNs in order of their bit patterns.
pub open spec fn order_key(bits: u32) -> u64 {
    if is_nan(bits) {
        (0x1_0000_0000u64 + bits) as u64
    } else if bits >= SIGN_BIT {
        (0xFFFF_FFFFu32 - bits) as u64
    } else {
        (bits + SIGN_BIT) as u64
    }
}

/// The bit pattern of the negation of a single-precision value: the same
/// pattern with its sign bit flipped.
pub open spec fn negated(bits: u32) -> u32 {
    if bits >= SIGN_BIT {
        (bits - SIGN_BIT) as u32
    } else {
        (bits + SIGN_BIT) as u32
    }
}

/// `true` when a candidate with distance `da` and insertion stamp `sa`
/// ranks strictly before one with distance `db` and stamp `sb`: a smaller
/// distance in the total order wins, and on equal distances the earlier
/// stamp wins.
pub open spec fn ranks_before(da: u32, sa: u64, db: u32, sb: u64) -> bool {
    order_key(da) < order_key(db) || (order_key(da) == order_key(db) && sa < sb)
}

/// Computes [`order_key`].
pub fn total_order_key(bits: u32) -> (key: u64)
    ensures
        key == order_key(bits),
{
    let magnitude = if bits >= SIGN_BIT {
        bits - SIGN_BIT
    } else {
        bits
    };
    if magnitude > 0x7F80_0000 {
        0x1_0000_0000u64 + bits as u64
    } else if bits >= SIGN_BIT {
        (0xFFFF_FFFFu32 - bits) as u64
    } else {
        (bits + SIGN_BIT) as u64
    }
}

/// Flips the sign bit, which is how a single-precision value is negated.
pub fn negate_bits(bits: u32) -> (neg: u32)
    ensures
        neg == negated(bits),
{
    if bits >= SIGN_BIT {
        bits - SIGN_BIT
    } else {
        bits + SIGN_BIT
    }
}

/// Decides [`ranks_before`].
pub fn rank_before(da: u32, sa: u64, db: u32, sb: u64) -> (before: bool)
    ensures
        before == ranks_before(da, sa, db, sb),
{
    let ka = total_order_key(da);
    let kb = total_order_key(db);
    ka < kb || (ka == kb && sa < sb)
}

} // verus!
