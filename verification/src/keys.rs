//! Element types that the bitonic sort can order, through an
//! order-preserving 32-bit key.

use vstd::prelude::*;
use crate::compare::{compares_by_spec, spec_greater, spec_less};
use crate::types::SortOrder;

verus! {

/// A type that the sort orders by a 32-bit key: the key is what the kernels
/// compare, and the element is recovered from its key afterwards.
pub trait SortableKey: Copy + PartialOrd + Sized {
    /// The key of an element.
    spec fn key(&self) -> u32;

    /// The element recovered from a key.
    spec fn from_key(val: u32) -> Self;

    /// Convert to sortable unsigned representation for GPU operations.
    fn to_sortable_u32(&self) -> (r: u32)
        ensures
            r == self.key(),
    ;

    /// Convert back from sortable representation.
    fn from_sortable_u32(val: u32) -> (r: Self)
        ensures
            r == Self::from_key(val),
    ;

    /// Whether `self` belongs after `other` in the given order.
    fn should_swap(&self, other: &Self, order: SortOrder) -> (r: bool)
        ensures
            compares_by_spec::<Self>() ==> r == match order {
                SortOrder::Ascending => spec_greater(self, other),
                SortOrder::Descending => spec_less(self, other),
            },
    {
        match order {
            SortOrder::Ascending => *self > *other,
            SortOrder::Descending => *self < *other,
        }
    }

    /// Get the maximum value for this type (used for padding).
    fn max_value() -> Self;

    /// Get the minimum value for this type (used for padding).
    fn min_value() -> Self;
}

impl SortableKey for u32 {
    open spec fn key(&self) -> u32 {
        *self
    }

    open spec fn from_key(val: u32) -> u32 {
        val
    }

    fn to_sortable_u32(&self) -> (r: u32) {
        *self
    }

    fn from_sortable_u32(val: u32) -> (r: u32) {
        val
    }

    fn max_value() -> (r: u32)
        ensures
            r == u32::MAX,
    {
        u32::MAX
    }

    fn min_value() -> (r: u32)
        ensures
            r == u32::MIN,
    {
        u32::MIN
    }
}

/// The sign bit of a 32-bit word and its complement.
proof fn lemma_sign_bit()
    ensures
        1u32 << 31u32 == 0x8000_0000u32,
        !(1u32 << 31u32) == 0x7fff_ffffu32,
{
    assert(1u32 << 31u32 == 0x8000_0000u32 && !(1u32 << 31u32) == 0x7fff_ffffu32) by (bit_vector);
}

/// The key of an `i32`: its bits with the sign bit flipped, so that
/// negative numbers come before positive ones.
pub open spec fn i32_key(x: i32) -> u32 {
    (x as u32) ^ 0x8000_0000u32
}

/// The `i32` whose key is `val`.
pub open spec fn i32_from_key(val: u32) -> i32 {
    (val ^ 0x8000_0000u32) as i32
}

impl SortableKey for i32 {
    open spec fn key(&self) -> u32 {
        i32_key(*self)
    }

    open spec fn from_key(val: u32) -> i32 {
        i32_from_key(val)
    }

    fn to_sortable_u32(&self) -> (r: u32) {
        let x = *self;
        proof {
            lemma_sign_bit();
        }
        (#[verifier::truncate] (x as u32)) ^ (1u32 << 31u32)
    }

    fn from_sortable_u32(val: u32) -> (r: i32) {
        proof {
            lemma_sign_bit();
        }
        #[verifier::truncate] ((val ^ (1u32 << 31u32)) as i32)
    }

    fn max_value() -> (r: i32)
        ensures
            r == i32::MAX,
    {
        i32::MAX
    }

    fn min_value() -> (r: i32)
        ensures
            r == i32::MIN,
    {
        i32::MIN
    }
}

/// The key of the `f32` with bits `bits`: negative numbers have all their
/// bits flipped, the others their sign bit set.
pub open spec fn f32_bits_key(bits: u32) -> u32 {
    if bits & 0x8000_0000u32 != 0 {
        !bits
    } else {
        bits | 0x8000_0000u32
    }
}

/// The bits of the `f32` whose key is `val`.
pub open spec fn f32_bits_from_key(val: u32) -> u32 {
    if val & 0x8000_0000u32 != 0 {
        val & 0x7fff_ffffu32
    } else {
        !val
    }
}

/// The value that the bits of an `f32` stand for in sign-magnitude form:
/// the magnitude bits, negated when the sign bit is set. Finite numbers and
/// infinities compare as these values do.
pub open spec fn sign_magnitude(bits: u32) -> int {
    if bits & 0x8000_0000u32 != 0 {
        -((bits & 0x7fff_ffffu32) as int)
    } else {
        (bits & 0x7fff_ffffu32) as int
    }
}

/// The sortable key of the bits of an `f32`, as the `f32` key conversion
/// computes it from `to_bits()`.
pub fn f32_bits_to_sortable(bits: u32) -> (r: u32)
    ensures
        r == f32_bits_key(bits),
{
    proof {
        lemma_sign_bit();
    }
    if bits & (1u32 << 31u32) != 0 {
        !bits
    } else {
        bits | (1u32 << 31u32)
    }
}

/// The bits of the `f32` with key `val`, as the `f32` key conversion hands
/// them to `from_bits()`.
pub fn f32_bits_from_sortable(val: u32) -> (r: u32)
    ensures
        r == f32_bits_from_key(val),
{
    proof {
        lemma_sign_bit();
    }
    if val & (1u32 << 31u32) != 0 {
        val & !(1u32 << 31u32)
    } else {
        !val
    }
}

/// The bits of an `f32` come back unchanged from their key, and keys order
/// bits as their sign-magnitude values, `-0.0` before `+0.0`.
pub proof fn lemma_f32_bits_key(a: u32, b: u32)
    ensures
        f32_bits_from_key(f32_bits_key(a)) == a,
        sign_magnitude(a) < sign_magnitude(b) ==> f32_bits_key(a) < f32_bits_key(b),
{
    assert(f32_bits_from_key(f32_bits_key(a)) == a) by (bit_vector);
    let ma = a & 0x7fff_ffffu32;
    let mb = b & 0x7fff_ffffu32;
    let sa = a & 0x8000_0000u32 != 0;
    let sb = b & 0x8000_0000u32 != 0;
    assert((sa && sb && mb < ma) ==> !a < !b) by (bit_vector)
        requires
            ma == a & 0x7fff_ffffu32,
            mb == b & 0x7fff_ffffu32,
            sa == (a & 0x8000_0000u32 != 0),
            sb == (b & 0x8000_0000u32 != 0),
    ;
    assert((!sa && !sb && ma < mb) ==> (a | 0x8000_0000u32) < (b | 0x8000_0000u32)) by (bit_vector)
        requires
            ma == a & 0x7fff_ffffu32,
            mb == b & 0x7fff_ffffu32,
            sa == (a & 0x8000_0000u32 != 0),
            sb == (b & 0x8000_0000u32 != 0),
    ;
    assert((sa && !sb) ==> !a < (b | 0x8000_0000u32)) by (bit_vector)
        requires
            sa == (a & 0x8000_0000u32 != 0),
            sb == (b & 0x8000_0000u32 != 0),
    ;
}

/// The key of an `i32` orders like the `i32` itself.
pub proof fn lemma_i32_key_order(x: i32, y: i32)
    ensures
        (x < y) == (i32_key(x) < i32_key(y)),
        (x == y) == (i32_key(x) == i32_key(y)),
{
    assert((x < y) == (((x as u32) ^ 0x8000_0000u32) < ((y as u32) ^ 0x8000_0000u32)) && (x == y)
        == (((x as u32) ^ 0x8000_0000u32) == ((y as u32) ^ 0x8000_0000u32))) by (bit_vector);
}

/// An `i32` comes back unchanged from its key, and every key from its `i32`.
pub proof fn lemma_i32_key_roundtrip(x: i32, val: u32)
    ensures
        i32_from_key(i32_key(x)) == x,
        i32_key(i32_from_key(val)) == val,
{
    assert((((x as u32) ^ 0x8000_0000u32) ^ 0x8000_0000u32) as i32 == x && (((val
        ^ 0x8000_0000u32) as i32) as u32) ^ 0x8000_0000u32 == val) by (bit_vector);
}

} // verus!
