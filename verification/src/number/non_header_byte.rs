use vstd::prelude::*;
use crate::ascii::{DIGIT_0, FULL_STOP, LOWER_E, MINUS_SIGN, UPPER_E};
use crate::error::ParseError;
use crate::number::{is_number_byte, symbol_code, DOT, EXPONENT, MINUS};

verus! {

/// Set in a byte that carries three bits of the symbol count.
pub const HAS_LENGTH_MASK: u8 = 0b1000_0000;

/// The three bits of the symbol count in a byte that carries them.
pub const LENGTH_MASK: u8 = 0b0111_0000;

/// A symbol after the first, with the part of the symbol count that its byte
/// carries.
#[derive(Debug, Clone, Copy, PartialEq, Eq, Structural)]
pub enum NonHeaderByte {
    Digit { char: u8, length_part: Option<u8> },
    Dot { length_part: Option<u8> },
    Exponent { length_part: Option<u8> },
    Minus { length_part: Option<u8> },
}

/// The high half of a byte after the first, where `left` is what remains of
/// the symbol count: its three low bits under the flag, or nothing once
/// nothing remains.
pub open spec fn length_component(left: nat) -> nat {
    if left == 0 {
        0
    } else {
        128 + (left % 8) * 16
    }
}

/// The three bits of the symbol count that `b` carries, if it carries any.
pub open spec fn length_part_of(b: u8) -> Option<u8> {
    if b >= 128 {
        Some(((b / 16) % 8) as u8)
    } else {
        None
    }
}

/// What a byte after the first says. The codes above 12 stand for no symbol.
pub open spec fn read_non_header(b: u8) -> Result<NonHeaderByte, ParseError> {
    let code = b % 16;
    let length_part = length_part_of(b);
    if code == MINUS {
        Ok(NonHeaderByte::Minus { length_part })
    } else if code == EXPONENT {
        Ok(NonHeaderByte::Exponent { length_part })
    } else if code == DOT {
        Ok(NonHeaderByte::Dot { length_part })
    } else if code <= 9 {
        Ok(NonHeaderByte::Digit { char: (DIGIT_0 + code) as u8, length_part })
    } else {
        Err(ParseError::Malformed)
    }
}

impl NonHeaderByte {
    pub open spec fn spec_length_part(self) -> Option<u8> {
        match self {
            NonHeaderByte::Digit { length_part, .. } => length_part,
            NonHeaderByte::Dot { length_part } => length_part,
            NonHeaderByte::Exponent { length_part } => length_part,
            NonHeaderByte::Minus { length_part } => length_part,
        }
    }

    /// The code of the symbol.
    pub open spec fn code(self) -> u8 {
        match self {
            NonHeaderByte::Digit { char, .. } => (char - DIGIT_0) as u8,
            NonHeaderByte::Dot { .. } => DOT,
            NonHeaderByte::Exponent { .. } => EXPONENT,
            NonHeaderByte::Minus { .. } => MINUS,
        }
    }

    /// The part of the symbol count that came with the symbol.
    pub fn length_part(&self) -> (r: Option<u8>)
        ensures
            r == self.spec_length_part(),
    {
        match self {
            NonHeaderByte::Digit { length_part, .. } => *length_part,
            NonHeaderByte::Dot { length_part } => *length_part,
            NonHeaderByte::Exponent { length_part } => *length_part,
            NonHeaderByte::Minus { length_part } => *length_part,
        }
    }

    /// Replaces the symbol at `pos` by its byte, which takes the three low
    /// bits of `length` along while `length` is not zero. Returns what then
    /// remains of `length`.
    pub fn rewrite_to_tlv(data: &mut [u8], pos: usize, length: usize) -> (left: usize)
        requires
            pos < old(data)@.len(),
            is_number_byte(old(data)@[pos as int]),
        ensures
            left == length / 8,
            final(data)@ == old(data)@.update(
                pos as int,
                (length_component(length as nat) + symbol_code(old(data)@[pos as int])) as u8,
            ),
    {
        let length_component: u8 = if length == 0 {
            0
        } else {
            HAS_LENGTH_MASK + ((length % 8) as u8) * 16
        };
        let c = data[pos];
        let value_component: u8 = if c == MINUS_SIGN {
            MINUS
        } else if c == LOWER_E || c == UPPER_E {
            EXPONENT
        } else if c == FULL_STOP {
            DOT
        } else {
            c - DIGIT_0
        };
        data[pos] = length_component + value_component;
        length / 8
    }

    /// Reads the symbol at `pos`.
    pub fn decode_tlv(data: &[u8], pos: usize) -> (r: Result<Self, ParseError>)
        requires
            pos < data@.len(),
        ensures
            r == read_non_header(data@[pos as int]),
            r matches Ok(s) ==> s.code() == data@[pos as int] % 16 && s.code() <= 12,
    {
        let b = data[pos];
        let value = b % 16;
        let length_part = if b >= HAS_LENGTH_MASK {
            let l = (b / 16) % 8;
            Some(l)
        } else {
            None
        };
        if value == MINUS {
            Ok(NonHeaderByte::Minus { length_part })
        } else if value == EXPONENT {
            Ok(NonHeaderByte::Exponent { length_part })
        } else if value == DOT {
            Ok(NonHeaderByte::Dot { length_part })
        } else if value <= 9 {
            Ok(NonHeaderByte::Digit { char: DIGIT_0 + value, length_part })
        } else {
            Err(ParseError::Malformed)
        }
    }
}

} // verus!
