use vstd::prelude::*;
use vstd::std_specs::convert::FromSpecImpl;
use crate::array::Array;
use crate::ascii::{
    DIGIT_0, DIGIT_9, LOWER_F, LOWER_N, LOWER_T, MINUS_SIGN, OPEN_BRACE, OPEN_BRACKET, QUOTE,
};
use crate::error::ParseError;
use crate::grammar::{json_value, lemma_value, lemma_value_takes_bytes};
use crate::json::{image_of, rewritten, splice};
use crate::layout::{read_value, ValueView};
use crate::mask::{
    lemma_type_mask, ARRAY_MASK, FALSE_MASK, NULL_MASK, NUMBER_MASK, OBJECT_MASK, STRING_MASK,
    TRUE_MASK, TYPE_MASK,
};
use crate::number::int_or_float::{Decimal, IntOrFloat};
use crate::number::Number;
use crate::runs::zeros;
use crate::skip_zeroes::{skip_zeroes, zero_run};
use crate::object::Object;
use crate::string::String;
use crate::true_false_null::TrueFalseNull;
use crate::ws::{skip_ws, ws_len};

verus! {

/// A value in its encoded form. Strings, arrays and objects are views into
/// the buffer; numbers and keywords are read out.
#[derive(Debug, Clone, Copy)]
pub enum Value<'a> {
    Object(Object<'a>),
    Array(Array<'a>),
    String(&'a [u8]),
    Integer(i64),
    Float(Decimal),
    True,
    False,
    Null,
}

impl<'a> View for Value<'a> {
    type V = ValueView;

    open spec fn view(&self) -> ValueView {
        match *self {
            Value::Object(o) => ValueView::Object(o.data@),
            Value::Array(a) => ValueView::Array(a.data@),
            Value::String(s) => ValueView::String(s@),
            Value::Integer(i) => ValueView::Integer(i),
            Value::Float(d) => ValueView::Float(d),
            Value::True => ValueView::True,
            Value::False => ValueView::False,
            Value::Null => ValueView::Null,
        }
    }
}

impl<'a> From<Object<'a>> for Value<'a> {
    fn from(object: Object<'a>) -> (v: Self) {
        Value::Object(object)
    }
}

impl<'a> FromSpecImpl<Object<'a>> for Value<'a> {
    open spec fn obeys_from_spec() -> bool {
        true
    }

    open spec fn from_spec(object: Object<'a>) -> Self {
        Value::Object(object)
    }
}

impl<'a> From<Array<'a>> for Value<'a> {
    fn from(array: Array<'a>) -> (v: Self) {
        Value::Array(array)
    }
}

impl<'a> FromSpecImpl<Array<'a>> for Value<'a> {
    open spec fn obeys_from_spec() -> bool {
        true
    }

    open spec fn from_spec(array: Array<'a>) -> Self {
        Value::Array(array)
    }
}

impl<'a> From<&'a [u8]> for Value<'a> {
    fn from(string: &'a [u8]) -> (v: Self) {
        Value::String(string)
    }
}

impl<'a> FromSpecImpl<&'a [u8]> for Value<'a> {
    open spec fn obeys_from_spec() -> bool {
        true
    }

    open spec fn from_spec(string: &'a [u8]) -> Self {
        Value::String(string)
    }
}

/// The handle for a number that was read: the integer with its sign, or the
/// decimal.
impl<'a> From<IntOrFloat> for Value<'a> {
    fn from(int_or_float: IntOrFloat) -> (v: Self) {
        match int_or_float {
            IntOrFloat::Integer { value, negative } => Value::Integer(
                if negative && value != i64::MIN {
                    -value
                } else {
                    value
                },
            ),
            IntOrFloat::Float { value, digits_after_dot, negative } => Value::Float(
                Decimal { negative, digits: value, scale: digits_after_dot },
            ),
        }
    }
}

impl<'a> FromSpecImpl<IntOrFloat> for Value<'a> {
    open spec fn obeys_from_spec() -> bool {
        true
    }

    open spec fn from_spec(int_or_float: IntOrFloat) -> Self {
        match int_or_float {
            IntOrFloat::Integer { value, negative } => Value::Integer(
                if negative && value != i64::MIN {
                    (-value) as i64
                } else {
                    value
                },
            ),
            IntOrFloat::Float { value, digits_after_dot, negative } => Value::Float(
                Decimal { negative, digits: value, scale: digits_after_dot },
            ),
        }
    }
}

/// The handle for a keyword that was read.
impl<'a> From<TrueFalseNull> for Value<'a> {
    fn from(true_false_null: TrueFalseNull) -> (v: Self) {
        match true_false_null {
            TrueFalseNull::True => Value::True,
            TrueFalseNull::False => Value::False,
            TrueFalseNull::Null => Value::Null,
        }
    }
}

impl<'a> FromSpecImpl<TrueFalseNull> for Value<'a> {
    open spec fn obeys_from_spec() -> bool {
        true
    }

    open spec fn from_spec(true_false_null: TrueFalseNull) -> Self {
        match true_false_null {
            TrueFalseNull::True => Value::True,
            TrueFalseNull::False => Value::False,
            TrueFalseNull::Null => Value::Null,
        }
    }
}

impl<'a> Value<'a> {
    /// Rewrites the value at the cursor, behind any whitespace, into its
    /// record and moves the cursor past its text. Where no value begins
    /// behind the whitespace, the whitespace has still become padding, the
    /// cursor stands behind it, and nothing else has changed.
    pub fn bitmix_to_tlv(data: &mut [u8], pos: &mut usize) -> (r: Result<(), ParseError>)
        requires
            *old(pos) <= old(data)@.len(),
        ensures
            rewritten(
                old(data)@,
                *old(pos) as int,
                image_of(json_value(old(data)@.skip(*old(pos) as int))),
                r,
                final(data)@,
                *final(pos) as int,
            ),
            r is Ok ==> *final(pos) > *old(pos),
            r == Err::<(), ParseError>(ParseError::NotMatched) ==> {
                &&& *final(pos) == *old(pos) + ws_len(old(data)@.skip(*old(pos) as int))
                &&& final(data)@ == splice(
                    old(data)@,
                    *old(pos) as int,
                    zeros(ws_len(old(data)@.skip(*old(pos) as int))),
                )
            },
        decreases old(data)@.len() - *old(pos), 3nat,
    {
        let ghost d0 = data@;
        let ghost origin = *pos;
        let ghost s = d0.skip(origin as int);
        let ghost w = ws_len(s);
        proof {
            lemma_value(s);
        }
        skip_ws(data, pos);
        let ghost d1 = data@;
        let p = *pos;
        assert(d1 =~= splice(d0, origin as int, zeros(w)));
        if p >= data.len() {
            return Err(ParseError::NotMatched);
        }
        let ghost t = s.skip(w as int);
        proof {
            assert(s[w as int] == d0[p as int]);
            assert(d1[p as int] == d0[p as int]);
            assert(d1.skip(p as int) =~= t);
            lemma_value_takes_bytes(s);
        }
        let c = data[p];
        let r = if c == OPEN_BRACE {
            Object::bitmix_to_tlv(data, pos)
        } else if c == OPEN_BRACKET {
            Array::bitmix_to_tlv(data, pos)
        } else if c == QUOTE {
            String::bitmix_to_tlv(data, pos)
        } else if c == MINUS_SIGN || (DIGIT_0 <= c && c <= DIGIT_9) {
            Number::bitmix_to_tlv(data, pos)
        } else if c == LOWER_T || c == LOWER_F || c == LOWER_N {
            TrueFalseNull::bitmix_to_tlv(data, pos)
        } else {
            Err(ParseError::NotMatched)
        };
        proof {
            if let Ok(token) = json_value(s) {
                assert(data@ =~= splice(d0, origin as int, token.image));
            }
        }
        r
    }

    /// Reads the record at the cursor, behind any padding, and moves the
    /// cursor past it. A record that does not lie within `data` is
    /// malformed. Where no record can be read, the cursor stays behind the
    /// padding. A cursor beyond the end stays where it is.
    pub fn decode_tlv(data: &'a [u8], pos: &mut usize) -> (r: Result<Self, ParseError>)
        ensures
            *old(pos) > data@.len() ==> r == Err::<Self, ParseError>(ParseError::NotMatched)
                && *final(pos) == *old(pos),
            *old(pos) <= data@.len() ==> *final(pos) <= data@.len() && match read_value(
                data@.skip(*old(pos) + zero_run(data@.skip(*old(pos) as int))),
            ) {
                Ok((v, n)) => r is Ok && r->Ok_0@ == v && *final(pos) == *old(pos) + zero_run(
                    data@.skip(*old(pos) as int),
                ) + n,
                Err(e) => r == Err::<Self, ParseError>(e) && *final(pos) == *old(pos) + zero_run(
                    data@.skip(*old(pos) as int),
                ),
            },
    {
        if *pos > data.len() {
            return Err(ParseError::NotMatched);
        }
        skip_zeroes(data, pos);
        let p = *pos;
        if p >= data.len() {
            return Err(ParseError::NotMatched);
        }
        let ghost b = data@.skip(p as int);
        let tag = data[p] & TYPE_MASK;
        proof {
            assert(b[0] == data@[p as int]);
            lemma_type_mask(data@[p as int]);
        }
        if tag == OBJECT_MASK {
            match Object::decode_tlv(data, pos) {
                Ok(object) => Ok(Value::from(object)),
                Err(e) => Err(e),
            }
        } else if tag == ARRAY_MASK {
            match Array::decode_tlv(data, pos) {
                Ok(array) => Ok(Value::from(array)),
                Err(e) => Err(e),
            }
        } else if tag == STRING_MASK {
            match String::decode_tlv(data, pos) {
                Ok(bytes) => Ok(Value::from(bytes)),
                Err(e) => Err(e),
            }
        } else if tag == NUMBER_MASK {
            match Number::decode_tlv(data, pos) {
                Ok(number) => Ok(Value::from(number)),
                Err(e) => Err(e),
            }
        } else {
            let first = data[p];
            let left = data.len() - p;
            if ((first == TRUE_MASK || first == NULL_MASK) && left < 4) || (first == FALSE_MASK
                && left < 5) {
                return Err(ParseError::Malformed);
            }
            match TrueFalseNull::decode_tlv(data, pos) {
                Ok(scalar) => Ok(Value::from(scalar)),
                Err(e) => Err(e),
            }
        }
    }

    /// Moves the cursor past the record at it, behind any padding, and says
    /// whether one could be read there.
    pub fn skip_tlv(data: &[u8], pos: &mut usize) -> (hit: bool)
        ensures
            hit <==> *old(pos) <= data@.len() && read_value(
                data@.skip(*old(pos) + zero_run(data@.skip(*old(pos) as int))),
            ) is Ok,
            hit ==> *final(pos) == *old(pos) + zero_run(data@.skip(*old(pos) as int))
                + read_value(
                data@.skip(*old(pos) + zero_run(data@.skip(*old(pos) as int))),
            )->Ok_0.1,
            !hit && *old(pos) <= data@.len() ==> *final(pos) == *old(pos) + zero_run(
                data@.skip(*old(pos) as int),
            ),
            *old(pos) > data@.len() ==> *final(pos) == *old(pos),
    {
        Value::decode_tlv(data, pos).is_ok()
    }

    /// Reads the first record of `data`, behind any padding.
    pub fn from_tlv(data: &'a [u8]) -> (r: Result<Self, ParseError>)
        ensures
            match read_value(data@.skip(zero_run(data@) as int)) {
                Ok((v, n)) => r is Ok && r->Ok_0@ == v,
                Err(e) => r == Err::<Self, ParseError>(e),
            },
    {
        let mut pos: usize = 0;
        assert(data@.skip(0) =~= data@);
        Value::decode_tlv(data, &mut pos)
    }
}

} // verus!
