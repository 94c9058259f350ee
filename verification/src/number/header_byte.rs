use vstd::prelude::*;
use crate::ascii::{DIGIT_0, DIGIT_9, MINUS_SIGN};
use crate::error::ParseError;
use crate::mask::{lemma_type_mask, type_bits, low_bits, NUMBER_MASK, TYPE_MASK};
use crate::number::{symbol_code, MINUS};

verus! {

/// Set in the header byte of a number of more than one symbol.
pub const MULTIBYTE_FLAG: u8 = 0b10000;

#[derive(Debug, Clone, Copy, PartialEq, Eq, Structural)]
pub struct HeaderByteWriteResult {
    pub multibyte: bool,
}

#[derive(Debug, Clone, Copy, PartialEq, Eq, Structural)]
pub struct HeaderByteReadResult {
    pub multibyte: bool,
    /// The first symbol as text: a digit or `-`.
    pub char: u8,
}

pub struct HeaderByte;

/// Whether a number may begin with this byte.
pub open spec fn is_number_start(b: u8) -> bool {
    b == MINUS_SIGN || DIGIT_0 <= b <= DIGIT_9
}

/// The header byte of a number of `length` symbols whose first symbol has the
/// code `code`.
pub open spec fn header_byte(length: nat, code: u8) -> u8 {
    if length == 1 {
        (NUMBER_MASK + code) as u8
    } else {
        (NUMBER_MASK + MULTIBYTE_FLAG + code) as u8
    }
}

/// The text of a first symbol, from its code: a digit, or `-` for the code
/// 10 in a number of several symbols.
pub open spec fn header_char(multibyte: bool, code: u8) -> u8 {
    if multibyte && code == MINUS {
        MINUS_SIGN
    } else {
        (DIGIT_0 + code) as u8
    }
}

/// What the header byte `b` says, where it is one: a single symbol has to be
/// a digit, the first of several a digit or `-`.
pub open spec fn read_header(b: u8) -> Result<HeaderByteReadResult, ParseError> {
    if type_bits(b) != NUMBER_MASK {
        Err(ParseError::NotMatched)
    } else if low_bits(b) < 16 {
        if b % 16 <= 9 {
            Ok(HeaderByteReadResult { multibyte: false, char: header_char(false, b % 16) })
        } else {
            Err(ParseError::Malformed)
        }
    } else if b % 16 <= 10 {
        Ok(HeaderByteReadResult { multibyte: true, char: header_char(true, b % 16) })
    } else {
        Err(ParseError::Malformed)
    }
}

impl HeaderByte {
    /// Replaces the first symbol of a number of `length` symbols, at `pos`,
    /// by the header byte.
    pub fn write(data: &mut [u8], pos: usize, length: usize) -> (r: Option<HeaderByteWriteResult>)
        requires
            pos < old(data)@.len(),
            is_number_start(old(data)@[pos as int]),
        ensures
            r == Some(HeaderByteWriteResult { multibyte: length != 1 }),
            final(data)@ == old(data)@.update(
                pos as int,
                header_byte(length as nat, symbol_code(old(data)@[pos as int])),
            ),
    {
        if length == 1 {
            data[pos] = NUMBER_MASK + char_to_tlv(data[pos]);
            return Some(HeaderByteWriteResult { multibyte: false });
        }
        data[pos] = NUMBER_MASK + MULTIBYTE_FLAG + char_to_tlv(data[pos]);
        Some(HeaderByteWriteResult { multibyte: true })
    }

    /// Reads the header byte at `pos`.
    pub fn read(data: &[u8], pos: usize) -> (r: Result<HeaderByteReadResult, ParseError>)
        requires
            pos < data@.len(),
        ensures
            r == read_header(data@[pos as int]),
    {
        let b = data[pos];
        proof {
            lemma_type_mask(b);
        }
        if b & TYPE_MASK != NUMBER_MASK {
            return Err(ParseError::NotMatched);
        }
        if b & MULTIBYTE_FLAG == 0 {
            if b % 16 > 9 {
                return Err(ParseError::Malformed);
            }
            return Ok(HeaderByteReadResult { multibyte: false, char: singlebyte_tlv_to_char(b) });
        }
        if b % 16 > 10 {
            return Err(ParseError::Malformed);
        }
        Ok(HeaderByteReadResult { multibyte: true, char: multibyte_tlv_to_char(b) })
    }
}

/// The code of a first symbol.
pub fn char_to_tlv(char: u8) -> (r: u8)
    requires
        is_number_start(char),
    ensures
        r == symbol_code(char),
        r <= 10,
{
    if char == MINUS_SIGN {
        MINUS
    } else {
        char - DIGIT_0
    }
}

/// The text of the only symbol of a number, from its header byte.
pub fn singlebyte_tlv_to_char(tlv: u8) -> (r: u8)
    ensures
        r == DIGIT_0 + tlv % 16,
{
    proof {
        lemma_type_mask(tlv);
    }
    DIGIT_0 + (tlv & 0b1111)
}

/// The text of the first of several symbols, from its header byte.
pub fn multibyte_tlv_to_char(tlv: u8) -> (r: u8)
    requires
        tlv % 16 <= 10,
    ensures
        r == header_char(true, tlv % 16),
{
    proof {
        lemma_type_mask(tlv);
    }
    let v = tlv & 0b1111;
    if v == MINUS {
        MINUS_SIGN
    } else {
        DIGIT_0 + v
    }
}

} // verus!
