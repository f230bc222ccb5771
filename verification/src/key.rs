//! Order keys for IEEE-754 single-precision bit patterns.
//!
//! The tree, its boxes and the rules that accept or reject a hit never do
//! arithmetic on coordinates or on ray parameters: they only compare them and
//! take minima and maxima. For that an integer that is ordered as the number
//! is ordered serves as well as the number itself. A bit pattern with a clear
//! sign bit is its own key; one with the sign bit set has the key
//! `-(magnitude) - 1`. Keys of numbers that are not NaN are ordered as the
//! numbers are, with negative zero directly below positive zero, and the key
//! of positive zero is `0`. The keys above that of positive infinity and
//! below that of negative infinity are those of the NaN patterns.
//!
//! Two orders are in use. The tree compares keys as integers, which orders
//! all of them. The rules for boxes and surfaces compare with [`less`], which
//! compares as the numbers do: the two zeros are equal, and a NaN is neither
//! less nor greater than anything.
use vstd::prelude::*;

verus! {

/// The bit pattern of negative zero: the sign bit alone.
pub const SIGN_BIT: u32 = 0x8000_0000;

/// The key of positive zero.
pub const ZERO: i32 = 0;

/// The key of negative zero.
pub const NEG_ZERO: i32 = -1;

/// The key of one.
pub const ONE: i32 = 0x3f80_0000;

/// The key of positive infinity.
pub const INFINITY: i32 = 0x7f80_0000;

/// The key of negative infinity.
pub const NEG_INFINITY: i32 = -0x7f80_0001;

/// The key of a bit pattern.
pub open spec fn key_of(bits: u32) -> int {
    if bits < SIGN_BIT {
        bits as int
    } else {
        -(bits - SIGN_BIT) - 1
    }
}

/// The bit pattern of a key.
pub open spec fn bits_of(key: i32) -> int {
    if key >= 0 {
        key as int
    } else {
        SIGN_BIT - key - 1
    }
}

/// Maps a bit pattern to its key.
pub fn key_from_bits(bits: u32) -> (key: i32)
    ensures
        key == key_of(bits),
{
    if bits < SIGN_BIT {
        bits as i32
    } else {
        let magnitude: u32 = bits - SIGN_BIT;
        -(magnitude as i32) - 1
    }
}

/// Maps a key back to the bit pattern it came from.
pub fn bits_from_key(key: i32) -> (bits: u32)
    ensures
        bits == bits_of(key),
{
    if key >= 0 {
        key as u32
    } else {
        let magnitude: u32 = (-(key + 1)) as u32;
        SIGN_BIT + magnitude
    }
}

/// Whether the key is that of a NaN pattern.
pub open spec fn spec_is_nan(key: i32) -> bool {
    key > INFINITY || key < NEG_INFINITY
}

/// The place of a key among the numbers: its own value, but for negative
/// zero, which stands where positive zero stands.
pub open spec fn numeric(key: i32) -> int {
    if key == NEG_ZERO {
        0
    } else {
        key as int
    }
}

/// Whether the number with key `a` is less than the number with key `b`.
pub open spec fn spec_less(a: i32, b: i32) -> bool {
    !spec_is_nan(a) && !spec_is_nan(b) && numeric(a) < numeric(b)
}

/// Whether the key is that of a NaN pattern.
#[verifier::when_used_as_spec(spec_is_nan)]
pub fn is_nan(key: i32) -> (r: bool)
    ensures
        r == spec_is_nan(key),
{
    key > INFINITY || key < NEG_INFINITY
}

/// Whether the number with key `a` is less than the number with key `b`, as
/// numbers compare: negative zero is not less than positive zero, and
/// nothing is less than a NaN, nor a NaN less than anything.
#[verifier::when_used_as_spec(spec_less)]
pub fn less(a: i32, b: i32) -> (r: bool)
    ensures
        r == spec_less(a, b),
{
    if is_nan(a) || is_nan(b) {
        false
    } else {
        let x: i32 = if a == NEG_ZERO { ZERO } else { a };
        let y: i32 = if b == NEG_ZERO { ZERO } else { b };
        x < y
    }
}

/// Among keys that are not NaN, `less` is a strict order that leaves only
/// equal keys and the two zeros unordered.
pub proof fn lemma_less_is_strict_order(a: i32, b: i32, c: i32)
    ensures
        !less(a, a),
        less(a, b) ==> !less(b, a),
        less(a, b) && less(b, c) ==> less(a, c),
        !is_nan(a) && !is_nan(b) && !less(a, b) && !less(b, a) ==> numeric(a) == numeric(b),
        less(a, b) ==> a < b,
{
}

/// Every bit pattern is recovered from its key.
pub proof fn lemma_bits_of_key(bits: u32)
    ensures
        i32::MIN <= key_of(bits) <= i32::MAX,
        bits_of(key_of(bits) as i32) == bits,
{
}

/// Every key is the key of its bit pattern.
pub proof fn lemma_key_of_bits(key: i32)
    ensures
        0 <= bits_of(key) <= u32::MAX,
        key_of(bits_of(key) as u32) == key,
{
}

/// Keys order bit patterns by sign and magnitude: a set sign bit sorts below
/// a clear one, two clear-sign patterns sort as their magnitudes do, and two
/// set-sign patterns sort against their magnitudes.
pub proof fn lemma_key_order(a: u32, b: u32)
    ensures
        a < SIGN_BIT && b < SIGN_BIT ==> (key_of(a) < key_of(b) <==> a < b),
        a >= SIGN_BIT && b >= SIGN_BIT ==> (key_of(a) < key_of(b) <==> a > b),
        a >= SIGN_BIT && b < SIGN_BIT ==> key_of(a) < key_of(b),
        key_of(a) == key_of(b) <==> a == b,
{
}

} // verus!
