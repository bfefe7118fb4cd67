//! The fixed-width storage cell of the double array.
//!
//! A unit is a `u64` read in one of two ways, told apart by its top bit:
//!
//! * a leaf unit (top bit set) holds a non-negative 31-bit value in its low
//!   bits;
//! * a transition unit (top bit clear) holds a check byte in bits 0..8 and a
//!   base offset in bits 8..63.
//!
//! The all-zero unit is a free slot: it is not a leaf and, since every base
//! that the builder hands out is at least 1, it is no live transition either.
use vstd::prelude::*;

verus! {

/// Number of bytes in one unit.
pub const UNIT_SIZE: usize = 8;

/// Largest base offset that a transition unit can hold.
pub const MAX_BASE: u64 = 0x7F_FFFF_FFFF_FFFF;

/// Largest value that a leaf unit can hold.
pub const MAX_VALUE: u32 = 0x7FFF_FFFF;

/// Whether `u` is a leaf unit, holding a value instead of a base.
pub open spec fn unit_has_leaf(u: u64) -> bool {
    u & 0x8000_0000_0000_0000u64 != 0
}

/// The value held by a leaf unit.
pub open spec fn unit_value(u: u64) -> u32 {
    (u & 0x7FFF_FFFFu64) as u32
}

/// The check byte of a transition unit.
pub open spec fn unit_check(u: u64) -> u8 {
    (u & 0xFFu64) as u8
}

/// The base offset of a transition unit.
pub open spec fn unit_base(u: u64) -> u64 {
    (u >> 8u64) & 0x7F_FFFF_FFFF_FFFFu64
}

/// Whether `u` is an occupied transition unit whose check byte is `c`.
pub open spec fn unit_is_live(u: u64, c: u8) -> bool {
    u != 0 && !unit_has_leaf(u) && unit_check(u) == c
}

/// The unit that holds `value` as a leaf.
pub open spec fn leaf_unit(value: u32) -> u64 {
    (value as u64) | 0x8000_0000_0000_0000u64
}

/// The transition unit with base offset `base` and check byte `check`.
pub open spec fn transition_unit(base: u64, check: u8) -> u64 {
    (base << 8u64) | (check as u64)
}

/// Encodes the four fields of a unit: a leaf unit when `has_leaf` holds, a
/// transition unit otherwise. The fields that the chosen reading ignores are
/// not stored.
pub open spec fn encode_unit(base: u64, check: u8, has_leaf: bool, value: u32) -> u64 {
    if has_leaf {
        leaf_unit(value)
    } else {
        transition_unit(base, check)
    }
}

pub proof fn lemma_leaf_unit(value: u32)
    requires
        value <= MAX_VALUE,
    ensures
        unit_has_leaf(leaf_unit(value)),
        unit_value(leaf_unit(value)) == value,
        leaf_unit(value) != 0,
{
    let v = value as u64;
    assert(v <= 0x7FFF_FFFFu64);
    assert(((v | 0x8000_0000_0000_0000u64) & 0x8000_0000_0000_0000u64) != 0) by (bit_vector);
    assert(v <= 0x7FFF_FFFFu64 ==> ((v | 0x8000_0000_0000_0000u64) & 0x7FFF_FFFFu64) == v)
        by (bit_vector);
    assert((v | 0x8000_0000_0000_0000u64) != 0) by (bit_vector);
}

pub proof fn lemma_transition_unit(base: u64, check: u8)
    requires
        base <= MAX_BASE,
    ensures
        !unit_has_leaf(transition_unit(base, check)),
        unit_check(transition_unit(base, check)) == check,
        unit_base(transition_unit(base, check)) == base,
        base >= 1 ==> transition_unit(base, check) != 0,
{
    let c = check as u64;
    assert(c <= 0xFF);
    assert(base <= 0x7F_FFFF_FFFF_FFFFu64 && c <= 0xFFu64 ==> ((base << 8u64) | c)
        & 0x8000_0000_0000_0000u64 == 0) by (bit_vector);
    assert(c <= 0xFFu64 ==> ((base << 8u64) | c) & 0xFFu64 == c) by (bit_vector);
    assert(base <= 0x7F_FFFF_FFFF_FFFFu64 && c <= 0xFFu64 ==> (((base << 8u64) | c) >> 8u64)
        & 0x7F_FFFF_FFFF_FFFFu64 == base) by (bit_vector);
    assert(base <= 0x7F_FFFF_FFFF_FFFFu64 && base >= 1 ==> ((base << 8u64) | c) != 0)
        by (bit_vector);
}

/// Decoding an encoded unit gives back the fields that its reading keeps.
pub proof fn lemma_encode_decode(base: u64, check: u8, has_leaf: bool, value: u32)
    requires
        base <= MAX_BASE,
        value <= MAX_VALUE,
    ensures
        unit_has_leaf(encode_unit(base, check, has_leaf, value)) == has_leaf,
        has_leaf ==> unit_value(encode_unit(base, check, has_leaf, value)) == value,
        !has_leaf ==> unit_check(encode_unit(base, check, has_leaf, value)) == check,
        !has_leaf ==> unit_base(encode_unit(base, check, has_leaf, value)) == base,
{
    lemma_leaf_unit(value);
    lemma_transition_unit(base, check);
}

/// Builds a leaf unit.
pub fn make_leaf(value: u32) -> (r: u64)
    requires
        value <= MAX_VALUE,
    ensures
        r == leaf_unit(value),
        unit_has_leaf(r),
        unit_value(r) == value,
        r != 0,
{
    proof {
        lemma_leaf_unit(value);
    }
    (value as u64) | 0x8000_0000_0000_0000u64
}

/// Builds a transition unit.
pub fn make_transition(base: u64, check: u8) -> (r: u64)
    requires
        1 <= base <= MAX_BASE,
    ensures
        r == transition_unit(base, check),
        !unit_has_leaf(r),
        unit_check(r) == check,
        unit_base(r) == base,
        r != 0,
{
    proof {
        lemma_transition_unit(base, check);
    }
    (base << 8u64) | (check as u64)
}

/// Encodes the four fields of a unit.
pub fn encode(base: u64, check: u8, has_leaf: bool, value: u32) -> (r: u64)
    requires
        base <= MAX_BASE,
        value <= MAX_VALUE,
    ensures
        r == encode_unit(base, check, has_leaf, value),
{
    if has_leaf {
        (value as u64) | 0x8000_0000_0000_0000u64
    } else {
        (base << 8u64) | (check as u64)
    }
}

/// Reads the leaf flag of a unit.
pub fn has_leaf(u: u64) -> (r: bool)
    ensures
        r == unit_has_leaf(u),
{
    u & 0x8000_0000_0000_0000u64 != 0
}

/// Reads the value of a leaf unit.
pub fn value(u: u64) -> (r: u32)
    ensures
        r == unit_value(u),
        r <= MAX_VALUE,
{
    assert(u & 0x7FFF_FFFFu64 <= 0x7FFF_FFFFu64) by (bit_vector);
    (u & 0x7FFF_FFFFu64) as u32
}

/// Reads the check byte of a transition unit.
pub fn check(u: u64) -> (r: u8)
    ensures
        r == unit_check(u),
{
    assert(u & 0xFFu64 <= 0xFFu64) by (bit_vector);
    (u & 0xFFu64) as u8
}

/// Reads the base offset of a transition unit.
pub fn base(u: u64) -> (r: u64)
    ensures
        r == unit_base(u),
        r <= MAX_BASE,
{
    assert((u >> 8u64) & 0x7F_FFFF_FFFF_FFFFu64 <= 0x7F_FFFF_FFFF_FFFFu64) by (bit_vector);
    (u >> 8u64) & 0x7F_FFFF_FFFF_FFFFu64
}

} // verus!
