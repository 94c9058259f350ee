use vstd::prelude::*;

verus! {

/// The three high bits of a type byte select the variant.
pub const TYPE_MASK: u8 = 0b111_00000;

pub const NUMBER_MASK: u8 = 0b001_00000;

pub const STRING_MASK: u8 = 0b010_00000;

pub const ARRAY_MASK: u8 = 0b011_00000;

pub const OBJECT_MASK: u8 = 0b100_00000;

pub const NULL_MASK: u8 = 0b101_00000;

pub const TRUE_MASK: u8 = 0b110_00000;

pub const FALSE_MASK: u8 = 0b111_00000;

/// The variant bits of a type byte, as a multiple of 32.
pub open spec fn type_bits(b: u8) -> int {
    (b as int / 32) * 32
}

/// The five low bits of a type byte.
pub open spec fn low_bits(b: u8) -> int {
    b as int % 32
}

pub proof fn lemma_type_mask(b: u8)
    ensures
        (b & TYPE_MASK) as int == type_bits(b),
        (b & 0b11111) as int == low_bits(b),
        (b & 0b1111) as int == b as int % 16,
        ((b & 0b10000) == 0b10000) <==> low_bits(b) >= 16,
        ((b & 0b10000) == 0) <==> low_bits(b) < 16,
{
    assert((b & 0b111_00000u8) == (b / 32) * 32) by (bit_vector);
    assert((b & 0b11111u8) == b % 32) by (bit_vector);
    assert((b & 0b1111u8) == b % 16) by (bit_vector);
    assert(((b & 0b10000u8) == 0b10000u8) <==> (b % 32 >= 16)) by (bit_vector);
    assert(((b & 0b10000u8) == 0u8) <==> (b % 32 < 16)) by (bit_vector);
}

/// A byte from 32 to 63 has the variant bits of a number.
pub proof fn lemma_number_tag(b: u8)
    requires
        NUMBER_MASK <= b < STRING_MASK,
    ensures
        type_bits(b) == NUMBER_MASK,
{
}

/// Joining a tag with a value below 32 adds them.
pub proof fn lemma_tag_or(tag: u8, v: u8)
    requires
        tag as int % 32 == 0,
        v < 32,
    ensures
        (tag | v) as int == tag as int + v as int,
        (v | tag) as int == tag as int + v as int,
        type_bits((tag | v)) == tag as int,
        low_bits((tag | v)) == v as int,
{
    assert(tag % 32 == 0 && v < 32 ==> (tag | v) == tag + v && (v | tag) == tag + v) by (bit_vector);
}

} // verus!
