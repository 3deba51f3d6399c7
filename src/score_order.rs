use vstd::prelude::*;

verus! {

/// The sign bit of an IEEE 754 double.
pub const SIGN_BIT: u64 = 0x8000_0000_0000_0000;

/// The place of a double's bit pattern in the total order of IEEE 754
/// (`totalOrder`): negative values, whose sign bit is set, come below every
/// positive one and rank lower the larger their magnitude; positive values rank
/// by magnitude. NaNs with the sign bit set sit below negative infinity, the
/// others above positive infinity, so every pair of patterns is comparable.
pub open spec fn order_key_spec(bits: u64) -> nat {
    if bits >= SIGN_BIT {
        (u64::MAX - bits) as nat
    } else {
        (bits + SIGN_BIT) as nat
    }
}

/// Computes [`order_key_spec`]: comparing two keys compares the doubles that
/// the patterns encode, as `f64::total_cmp` does.
pub fn order_key(bits: u64) -> (r: u64)
    ensures
        r as nat == order_key_spec(bits),
{
    if bits >= SIGN_BIT {
        u64::MAX - bits
    } else {
        bits + SIGN_BIT
    }
}

} // verus!
