//! The encoded form as it is read: what stands at the front of a run of
//! bytes, and how far it reaches.

use vstd::prelude::*;
use crate::array::array_record;
use crate::error::ParseError;
use crate::mask::{type_bits, ARRAY_MASK, NUMBER_MASK, OBJECT_MASK, STRING_MASK};
use crate::number::int_or_float::{Decimal, IntOrFloat};
use crate::number::{number_record, number_value};
use crate::object::object_record;
use crate::skip_zeroes::zero_run;
use crate::string::string_record;
use crate::tlv::lemma_container_size;
use crate::true_false_null::{scalar_record, TrueFalseNull};

verus! {

/// A record as it lies in the buffer: the payload of a string, an array or an
/// object, the symbol codes of a number, or a keyword.
pub enum Record {
    Object(Seq<u8>),
    Array(Seq<u8>),
    String(Seq<u8>),
    Number(Seq<u8>),
    True,
    False,
    Null,
}

/// What a value handle stands for: the payload that it views, or the number
/// or keyword that was read out.
pub enum ValueView {
    Object(Seq<u8>),
    Array(Seq<u8>),
    String(Seq<u8>),
    Integer(i64),
    Float(Decimal),
    True,
    False,
    Null,
}

/// The record of a keyword.
pub open spec fn scalar_as_record(v: TrueFalseNull) -> Record {
    match v {
        TrueFalseNull::True => Record::True,
        TrueFalseNull::False => Record::False,
        TrueFalseNull::Null => Record::Null,
    }
}

/// The record at the front of `b` and its size. The three high bits of the
/// first byte say which kind of record it is. A record has to lie within
/// `b`: one that is cut short is malformed, a keyword too.
pub open spec fn record(b: Seq<u8>) -> Result<(Record, nat), ParseError> {
    if b.len() == 0 {
        Err(ParseError::NotMatched)
    } else if type_bits(b[0]) == OBJECT_MASK {
        match object_record(b) {
            Ok((payload, n)) => Ok((Record::Object(payload), n)),
            Err(e) => Err(e),
        }
    } else if type_bits(b[0]) == ARRAY_MASK {
        match array_record(b) {
            Ok((payload, n)) => Ok((Record::Array(payload), n)),
            Err(e) => Err(e),
        }
    } else if type_bits(b[0]) == STRING_MASK {
        match string_record(b) {
            Ok((bytes, n)) => Ok((Record::String(bytes), n)),
            Err(e) => Err(e),
        }
    } else if type_bits(b[0]) == NUMBER_MASK {
        match number_record(b) {
            Ok((symbols, n)) => Ok((Record::Number(symbols), n)),
            Err(e) => Err(e),
        }
    } else {
        match scalar_record(b) {
            Ok((v, n)) => if n > b.len() {
                Err(ParseError::Malformed)
            } else {
                Ok((scalar_as_record(v), n))
            },
            Err(e) => Err(e),
        }
    }
}

/// Every record takes at least one byte and lies within the bytes that it
/// was read from. The payload of a string, an array or an object is shorter
/// than its record.
pub proof fn lemma_record_size(b: Seq<u8>)
    ensures
        record(b) matches Ok((rec, n)) ==> 1 <= n <= b.len(),
        record(b) matches Ok((Record::Array(payload), n)) ==> payload.len() < n,
        record(b) matches Ok((Record::Object(payload), n)) ==> payload.len() < n,
        record(b) matches Ok((Record::String(payload), n)) ==> payload.len() < n,
{
    lemma_container_size(b, ARRAY_MASK);
    lemma_container_size(b, OBJECT_MASK);
    lemma_container_size(b, STRING_MASK);
}

/// The number that a reader hands out for what the symbols spell.
pub open spec fn number_view(n: IntOrFloat) -> ValueView {
    match n {
        IntOrFloat::Integer { value, negative } => ValueView::Integer(
            if negative && value != i64::MIN {
                (-value) as i64
            } else {
                value
            },
        ),
        IntOrFloat::Float { value, digits_after_dot, negative } => ValueView::Float(
            Decimal { negative, digits: value, scale: digits_after_dot },
        ),
    }
}

/// What a reader makes of a record: the symbols of a number are read as a
/// number, which may fail; everything else is handed out as it lies.
pub open spec fn interpret(rec: Record) -> Result<ValueView, ParseError> {
    match rec {
        Record::Object(payload) => Ok(ValueView::Object(payload)),
        Record::Array(payload) => Ok(ValueView::Array(payload)),
        Record::String(bytes) => Ok(ValueView::String(bytes)),
        Record::Number(symbols) => match number_value(symbols) {
            Ok(n) => Ok(number_view(n)),
            Err(e) => Err(e),
        },
        Record::True => Ok(ValueView::True),
        Record::False => Ok(ValueView::False),
        Record::Null => Ok(ValueView::Null),
    }
}

/// What reading the record at the front of `b` gives, and the size of the
/// record.
pub open spec fn read_value(b: Seq<u8>) -> Result<(ValueView, nat), ParseError> {
    match record(b) {
        Err(e) => Err(e),
        Ok((rec, n)) => match interpret(rec) {
            Err(e) => Err(e),
            Ok(v) => Ok((v, n)),
        },
    }
}

/// The next element of a payload: what it reads as, and how many bytes of
/// the payload lie in front of the element behind it. There is none where
/// only padding is left, or where what stands behind the padding cannot be
/// read.
pub open spec fn next_element(payload: Seq<u8>) -> Option<(ValueView, nat)> {
    let k = zero_run(payload);
    if k >= payload.len() {
        None
    } else {
        match read_value(payload.skip(k as int)) {
            Err(_) => None,
            Ok((v, n)) => Some((v, k + n)),
        }
    }
}

/// The next member of a payload: its key, what its value reads as, and how
/// many bytes of the payload lie in front of the member behind it.
pub open spec fn next_member(payload: Seq<u8>) -> Option<((Seq<u8>, ValueView), nat)> {
    let k = zero_run(payload);
    if k >= payload.len() {
        None
    } else {
        match string_record(payload.skip(k as int)) {
            Err(_) => None,
            Ok((key, n)) => {
                let rest = payload.skip((k + n) as int);
                let k2 = zero_run(rest);
                match read_value(rest.skip(k2 as int)) {
                    Err(_) => None,
                    Ok((v, n2)) => Some(((key, v), k + n + k2 + n2)),
                }
            },
        }
    }
}

} // verus!
