use json_tlv::array::Array;
use json_tlv::bytesize::{Bytesize, LONG_CONTAINER_MASK};
use json_tlv::error::ParseError;
use json_tlv::length::{join, split, Length};
use json_tlv::mask::{ARRAY_MASK, NUMBER_MASK, OBJECT_MASK, STRING_MASK};
use json_tlv::number::header_byte::{
    char_to_tlv, multibyte_tlv_to_char, singlebyte_tlv_to_char, HeaderByte,
};
use json_tlv::number::int_or_float::{Decimal, IntOrFloat};
use json_tlv::number::non_header_byte::NonHeaderByte;
use json_tlv::number::Number;
use json_tlv::object::Object;
use json_tlv::skip_zeroes::skip_zeroes;
use json_tlv::string::{rewrite_unescaped_json_string, unhex, String};
use json_tlv::tlv::{bitmix_consume_byte, zero_fill};
use json_tlv::true_false_null::TrueFalseNull;
use json_tlv::value::Value;
use json_tlv::ws::skip_ws;
use json_tlv::Parser;

fn encode(text: &[u8]) -> Result<Vec<u8>, ParseError> {
    let mut data = text.to_vec();
    let mut pos = 0;
    Value::bitmix_to_tlv(&mut data, &mut pos)?;
    assert_eq!(pos, text.len());
    Ok(data)
}

fn integer(value: Value) -> i64 {
    match value {
        Value::Integer(i) => i,
        other => panic!("not an integer: {:?}", other),
    }
}

#[test]
fn empty_array_is_two_bytes() {
    assert_eq!(encode(b"[]").unwrap(), vec![0b011_00000, 0x00]);
}

#[test]
fn empty_object_is_two_bytes() {
    assert_eq!(encode(b"{}").unwrap(), vec![0b100_00000, 0x00]);
}

#[test]
fn empty_containers_with_whitespace_inside() {
    assert_eq!(encode(b"[ \n]").unwrap(), vec![ARRAY_MASK | 2, 0, 0, 0]);
    assert_eq!(encode(b"{\t}").unwrap(), vec![OBJECT_MASK | 1, 0, 0]);
}

#[test]
fn fifteen_bytes_take_the_short_form() {
    let data = encode(b"\"123456789012345\"").unwrap();
    assert_eq!(data.len(), 17);
    assert_eq!(data[0], STRING_MASK | 15);
    assert_eq!(&data[1..16], b"123456789012345");
    assert_eq!(data[16], 0);

    let mut pos = 0;
    let bytes = String::decode_tlv(&data, &mut pos).unwrap();
    assert_eq!(bytes, b"123456789012345");
    assert_eq!(pos, 16);
}

#[test]
fn sixteen_bytes_take_the_long_form() {
    let data = encode(b"\"1234567890123456\"").unwrap();
    assert_eq!(data.len(), 18);
    assert_eq!(data[0], STRING_MASK | LONG_CONTAINER_MASK | 0);
    assert_eq!(data[1], 2);
    assert_eq!(&data[2..18], b"1234567890123456");

    let mut pos = 0;
    let bytes = String::decode_tlv(&data, &mut pos).unwrap();
    assert_eq!(bytes, b"1234567890123456");
    assert_eq!(pos, 18);
}

#[test]
fn single_digit_is_one_byte() {
    for digit in 0..10u8 {
        let mut data = [b'0' + digit, b','];
        let mut pos = 0;
        Number::bitmix_to_tlv(&mut data, &mut pos).unwrap();
        assert_eq!(pos, 1);
        assert_eq!(data, [NUMBER_MASK | digit, b',']);
    }
}

#[test]
fn nineteen_digits_round_trip() {
    let mut data = *b"1234567890987654321";
    let value = Parser::parse(&mut data).unwrap();
    assert_eq!(integer(value), 1234567890987654321);
}

#[test]
fn array_of_three() {
    let data = encode(b"[1, 2, 3]").unwrap();
    assert_eq!(
        data,
        vec![ARRAY_MASK | 7, 0b001_00001, 0, 0, 0b001_00010, 0, 0, 0b001_00011, 0]
    );
}

#[test]
fn hello() {
    let data = encode(b"\"hello\"").unwrap();
    assert_eq!(data, vec![STRING_MASK | 5, b'h', b'e', b'l', b'l', b'o', 0]);
}

#[test]
fn escapes_shrink_and_leave_padding() {
    let text = br#""a\nb\tc\u0064\\e""#;
    assert_eq!(text.len(), 18);
    let data = encode(text).unwrap();
    let mut expected = vec![STRING_MASK | 8];
    expected.extend_from_slice(b"a\nb\tcd\\e");
    expected.extend_from_slice(&[0; 9]);
    assert_eq!(data, expected);
}

#[test]
fn keywords() {
    assert_eq!(encode(b"true").unwrap(), vec![0b110_00000, 0, 0, 0]);
    assert_eq!(encode(b"false").unwrap(), vec![0b111_00000, 0, 0, 0, 0]);
    assert_eq!(encode(b"null").unwrap(), vec![0b101_00000, 0, 0, 0]);
}

#[test]
fn object_of_two() {
    let text = br#"{"a": 1, "b": 2}"#;
    assert_eq!(text.len(), 16);
    let mut data = *text;
    let mut pos = 0;
    Value::bitmix_to_tlv(&mut data, &mut pos).unwrap();
    assert_eq!(pos, 16);
    assert_eq!(
        data,
        [
            OBJECT_MASK | 14,
            STRING_MASK | 1,
            b'a',
            0,
            0,
            0,
            NUMBER_MASK | 1,
            0,
            0,
            STRING_MASK | 1,
            b'b',
            0,
            0,
            0,
            NUMBER_MASK | 2,
            0,
        ]
    );

    let object = match Value::from_tlv(&data).unwrap() {
        Value::Object(object) => object,
        other => panic!("not an object: {:?}", other),
    };
    assert_eq!(object.data.len(), 14);
    let mut members = object.iter();
    let (key, value) = members.next().unwrap();
    assert_eq!(key, b"a");
    assert_eq!(integer(value), 1);
    let (key, value) = members.next().unwrap();
    assert_eq!(key, b"b");
    assert_eq!(integer(value), 2);
    assert!(members.next().is_none());
    assert!(members.next().is_none());
}

#[test]
fn unterminated_array_is_refused() {
    let mut data = *b"[1,";
    assert_eq!(Parser::parse(&mut data).unwrap_err(), ParseError::Malformed);
    let mut data = *b"[1";
    assert_eq!(Parser::parse(&mut data).unwrap_err(), ParseError::Malformed);
    let mut data = *b"[";
    assert_eq!(Parser::parse(&mut data).unwrap_err(), ParseError::Malformed);
}

#[test]
fn exponent_is_refused() {
    let mut data = *b"1e10";
    assert_eq!(Parser::parse(&mut data).unwrap_err(), ParseError::Unsupported);
    let mut data = *b"1E10";
    assert_eq!(Parser::parse(&mut data).unwrap_err(), ParseError::Unsupported);
}

#[test]
fn exponent_inside_an_array_ends_the_walk() {
    let mut data = *b"[7, 1e10, 8]";
    let array = match Parser::parse(&mut data).unwrap() {
        Value::Array(array) => array,
        other => panic!("not an array: {:?}", other),
    };
    let mut elements = array.iter();
    assert_eq!(integer(elements.next().unwrap()), 7);
    assert!(elements.next().is_none());
    assert!(elements.next().is_none());
}

#[test]
fn unterminated_string_is_refused() {
    let mut data = *b"\"hi";
    assert_eq!(Parser::parse(&mut data).unwrap_err(), ParseError::Malformed);
    let mut data = *b"\"hi\\";
    assert_eq!(Parser::parse(&mut data).unwrap_err(), ParseError::Malformed);
    let mut data = *b"\"hi\\u00";
    assert_eq!(Parser::parse(&mut data).unwrap_err(), ParseError::Malformed);
}

#[test]
fn trailing_comma_is_refused() {
    let mut data = *b"[1,]";
    assert_eq!(Parser::parse(&mut data).unwrap_err(), ParseError::Malformed);
    let mut data = *br#"{"a": 1,}"#;
    assert_eq!(Parser::parse(&mut data).unwrap_err(), ParseError::Malformed);
}

#[test]
fn missing_separators_are_refused() {
    let mut data = *b"[1 2]";
    assert_eq!(Parser::parse(&mut data).unwrap_err(), ParseError::Malformed);
    let mut data = *br#"{"a" 1}"#;
    assert_eq!(Parser::parse(&mut data).unwrap_err(), ParseError::Malformed);
    let mut data = *br#"{"a": }"#;
    assert_eq!(Parser::parse(&mut data).unwrap_err(), ParseError::Malformed);
    let mut data = *br#"{1: 2}"#;
    assert_eq!(Parser::parse(&mut data).unwrap_err(), ParseError::Malformed);
    let mut data = *br#"{"a": 1"#;
    assert_eq!(Parser::parse(&mut data).unwrap_err(), ParseError::Malformed);
}

#[test]
fn what_begins_no_value_is_not_matched() {
    let mut data = *b"";
    assert_eq!(Parser::parse(&mut data).unwrap_err(), ParseError::NotMatched);
    let mut data = *b"   ";
    assert_eq!(Parser::parse(&mut data).unwrap_err(), ParseError::NotMatched);
    let mut data = *b"x";
    assert_eq!(Parser::parse(&mut data).unwrap_err(), ParseError::NotMatched);
    let mut data = *b"tru";
    assert_eq!(Parser::parse(&mut data).unwrap_err(), ParseError::NotMatched);
    assert_eq!(data, *b"tru");
    let mut data = *b".5";
    assert_eq!(Parser::parse(&mut data).unwrap_err(), ParseError::NotMatched);
}

#[test]
fn typed_codecs_leave_other_text_alone() {
    let mut pos = 0;
    let mut data = *b"[1]";
    assert_eq!(Object::bitmix_to_tlv(&mut data, &mut pos), Err(ParseError::NotMatched));
    assert_eq!(String::bitmix_to_tlv(&mut data, &mut pos), Err(ParseError::NotMatched));
    assert_eq!(Number::bitmix_to_tlv(&mut data, &mut pos), Err(ParseError::NotMatched));
    assert_eq!(TrueFalseNull::bitmix_to_tlv(&mut data, &mut pos), Err(ParseError::NotMatched));
    assert_eq!(pos, 0);
    assert_eq!(data, *b"[1]");
    let mut data = *b"{}";
    assert_eq!(Array::bitmix_to_tlv(&mut data, &mut pos), Err(ParseError::NotMatched));
    assert_eq!(data, *b"{}");
    let mut at_end = 2;
    assert_eq!(Array::bitmix_to_tlv(&mut data, &mut at_end), Err(ParseError::NotMatched));
    assert_eq!(at_end, 2);
}

#[test]
fn unsupported_escapes() {
    let mut data = *br#""a\"b""#;
    assert_eq!(Parser::parse(&mut data).unwrap_err(), ParseError::Unsupported);
    let mut data = *br#""\r""#;
    assert_eq!(Parser::parse(&mut data).unwrap_err(), ParseError::Unsupported);
    let mut data = *br#""\ud800""#;
    assert_eq!(Parser::parse(&mut data).unwrap_err(), ParseError::Unsupported);
    let mut data = *br#""\udfff""#;
    assert_eq!(Parser::parse(&mut data).unwrap_err(), ParseError::Unsupported);
    let mut data = *br#""\u00zz""#;
    assert_eq!(Parser::parse(&mut data).unwrap_err(), ParseError::Malformed);
}

#[test]
fn code_points_become_utf8() {
    let data = encode(br#""\u0041\u00e9\u20ac\ud7ff\ue000\uffff""#).unwrap();
    let mut pos = 0;
    let bytes = String::decode_tlv(&data, &mut pos).unwrap();
    assert_eq!(bytes, "A\u{e9}\u{20ac}\u{d7ff}\u{e000}\u{ffff}".as_bytes());
    assert_eq!(bytes.len(), 1 + 2 + 3 + 3 + 3 + 3);
    assert_eq!(data.len(), 38);
    assert_eq!(data[0], STRING_MASK | 15);
    assert!(data[16..].iter().all(|byte| *byte == 0));
}

#[test]
fn a_zero_byte_may_stand_in_a_payload() {
    let mut data = *br#"["a\u0000b", 5]"#;
    let array = match Parser::parse(&mut data).unwrap() {
        Value::Array(array) => array,
        other => panic!("not an array: {:?}", other),
    };
    let mut elements = array.iter();
    match elements.next().unwrap() {
        Value::String(bytes) => assert_eq!(bytes, b"a\0b"),
        other => panic!("not a string: {:?}", other),
    }
    assert_eq!(integer(elements.next().unwrap()), 5);
    assert!(elements.next().is_none());
}

#[test]
fn string_of_2047_bytes_fits_and_2048_does_not() {
    let mut text = vec![b'"'];
    text.extend(std::iter::repeat(b'x').take(2047));
    text.push(b'"');
    let data = encode(&text).unwrap();
    assert_eq!(data.len(), 2049);
    assert_eq!(data[0], STRING_MASK | LONG_CONTAINER_MASK | 7);
    assert_eq!(data[1], 255);
    let mut pos = 0;
    let bytes = String::decode_tlv(&data, &mut pos).unwrap();
    assert_eq!(bytes.len(), 2047);
    assert_eq!(pos, 2049);

    let mut text = vec![b'"'];
    text.extend(std::iter::repeat(b'x').take(2048));
    text.push(b'"');
    assert_eq!(encode(&text).unwrap_err(), ParseError::Overflow);
}

#[test]
fn array_payload_of_2047_bytes_fits_and_2048_does_not() {
    let mut text = vec![b'['];
    text.extend(std::iter::repeat(b' ').take(2046));
    text.push(b'1');
    text.push(b']');
    let data = encode(&text).unwrap();
    assert_eq!(data[0], ARRAY_MASK | LONG_CONTAINER_MASK | 7);
    assert_eq!(data[1], 255);
    assert_eq!(data[2048], NUMBER_MASK | 1);

    let mut text = vec![b'['];
    text.extend(std::iter::repeat(b' ').take(2047));
    text.push(b'1');
    text.push(b']');
    assert_eq!(encode(&text).unwrap_err(), ParseError::Overflow);

    let mut text = vec![b'{'];
    text.extend(std::iter::repeat(b' ').take(2048));
    text.push(b'}');
    assert_eq!(encode(&text).unwrap_err(), ParseError::Overflow);
}

#[test]
fn numbers_that_are_too_long_or_too_large() {
    let mut text = vec![b'1'; 8191];
    let mut pos = 0;
    Number::bitmix_to_tlv(&mut text, &mut pos).unwrap();
    assert_eq!(pos, 8191);
    pos = 0;
    assert_eq!(Number::decode_tlv(&text, &mut pos), Err(ParseError::Overflow));
    assert_eq!(pos, 0);

    let mut text = vec![b'1'; 8192];
    let mut pos = 0;
    assert_eq!(Number::bitmix_to_tlv(&mut text, &mut pos), Err(ParseError::Overflow));
    assert_eq!(text, vec![b'1'; 8192]);

    let mut data = *b"9223372036854775807";
    assert_eq!(integer(Parser::parse(&mut data).unwrap()), i64::MAX);
    let mut data = *b"-9223372036854775807";
    assert_eq!(integer(Parser::parse(&mut data).unwrap()), -i64::MAX);
    let mut data = *b"9223372036854775808";
    assert_eq!(Parser::parse(&mut data).unwrap_err(), ParseError::Overflow);
    let mut data = *b"92233720368547758070";
    assert_eq!(Parser::parse(&mut data).unwrap_err(), ParseError::Overflow);
}

#[test]
fn numbers_of_every_count_of_symbols_up_to_eighteen() {
    let digits = b"123456789012345678";
    for count in 1..=digits.len() {
        let mut data = digits[..count].to_vec();
        let expected: i64 = std::str::from_utf8(&data).unwrap().parse().unwrap();
        let mut pos = 0;
        Number::bitmix_to_tlv(&mut data, &mut pos).unwrap();
        assert_eq!(pos, count);
        pos = 0;
        let number = Number::decode_tlv(&data, &mut pos).unwrap();
        assert_eq!(pos, count);
        assert_eq!(number, IntOrFloat::Integer { value: expected, negative: false });
    }
}

#[test]
fn count_of_eight_symbols_is_carried_in_two_bytes() {
    let mut data = *b"12345678";
    let mut pos = 0;
    Number::bitmix_to_tlv(&mut data, &mut pos).unwrap();
    assert_eq!(
        data,
        [
            0b001_10001,
            0b1000_0010,
            0b1001_0011,
            0b0000_0100,
            0b0000_0101,
            0b0000_0110,
            0b0000_0111,
            0b0000_1000,
        ]
    );
}

#[test]
fn decimals_keep_their_digits() {
    let mut data = *b"-0.50";
    match Parser::parse(&mut data).unwrap() {
        Value::Float(d) => assert_eq!(d, Decimal { negative: true, digits: 50, scale: 2 }),
        other => panic!("not a decimal: {:?}", other),
    }
    let mut data = *b"3.14159";
    match Parser::parse(&mut data).unwrap() {
        Value::Float(d) => assert_eq!(d, Decimal { negative: false, digits: 314159, scale: 5 }),
        other => panic!("not a decimal: {:?}", other),
    }
    let mut data = *b"7.";
    match Parser::parse(&mut data).unwrap() {
        Value::Float(d) => assert_eq!(d, Decimal { negative: false, digits: 7, scale: 0 }),
        other => panic!("not a decimal: {:?}", other),
    }
}

#[test]
fn symbols_that_spell_no_number() {
    let mut data = *b"1.2.3";
    assert_eq!(Parser::parse(&mut data).unwrap_err(), ParseError::Malformed);
    let mut data = *b"--1";
    assert_eq!(Parser::parse(&mut data).unwrap_err(), ParseError::Malformed);
    let mut data = *b"-";
    assert_eq!(Parser::parse(&mut data).unwrap_err(), ParseError::Malformed);
    assert_eq!(data, *b"-");
    let mut data = *b"1-2";
    assert_eq!(integer(Parser::parse(&mut data).unwrap()), -12);
}

#[test]
fn number_records_that_are_cut_short_or_broken() {
    let mut pos = 0;
    assert_eq!(Number::decode_tlv(&[0b001_10001], &mut pos), Err(ParseError::Malformed));
    assert_eq!(
        Number::decode_tlv(&[0b001_10001, 0b1011_0010], &mut pos),
        Err(ParseError::Malformed)
    );
    assert_eq!(
        Number::decode_tlv(&[0b001_10001, 0b1010_1111], &mut pos),
        Err(ParseError::Malformed)
    );
    assert_eq!(Number::decode_tlv(&[0b001_01010], &mut pos), Err(ParseError::Malformed));
    assert_eq!(Number::decode_tlv(&[0b001_11011, 0b1010_0001], &mut pos), Err(ParseError::Malformed));
    assert_eq!(
        Number::decode_tlv(&[0b001_10001, 0x80, 0x80, 0x80, 0x80, 0x80, 0x80], &mut pos),
        Err(ParseError::Overflow)
    );
    assert_eq!(Number::decode_tlv(&[0b010_00000], &mut pos), Err(ParseError::NotMatched));
    assert_eq!(Number::decode_tlv(&[], &mut pos), Err(ParseError::NotMatched));
    assert_eq!(pos, 0);
    assert!(!Number::skip_tlv(&[0b001_10001], &mut pos));
    assert!(Number::skip_tlv(&[0b001_00001], &mut pos));
    assert_eq!(pos, 1);
}

#[test]
fn records_that_are_cut_short() {
    let mut pos = 0;
    assert_eq!(String::decode_tlv(&[STRING_MASK | 3, b'a', b'b'], &mut pos), Err(ParseError::Malformed));
    assert_eq!(
        String::decode_tlv(&[STRING_MASK | LONG_CONTAINER_MASK], &mut pos),
        Err(ParseError::Malformed)
    );
    assert_eq!(
        Array::decode_tlv(&[ARRAY_MASK | LONG_CONTAINER_MASK | 1, 2, 0], &mut pos).unwrap_err(),
        ParseError::Malformed
    );
    assert_eq!(Object::decode_tlv(&[OBJECT_MASK | 1], &mut pos).unwrap_err(), ParseError::Malformed);
    assert_eq!(Value::decode_tlv(&[0b110_00000, 0, 0], &mut pos).unwrap_err(), ParseError::Malformed);
    assert_eq!(Value::decode_tlv(&[0b111_00000, 0, 0, 0], &mut pos).unwrap_err(), ParseError::Malformed);
    assert_eq!(Value::decode_tlv(&[0b101_00000], &mut pos).unwrap_err(), ParseError::Malformed);
    assert!(!Value::skip_tlv(&[0b101_00000, 0, 0], &mut pos));
    assert_eq!(pos, 0);
    assert_eq!(TrueFalseNull::decode_tlv(&[0b110_00001, 0, 0, 0], &mut pos), Err(ParseError::NotMatched));
    assert_eq!(Value::decode_tlv(&[0, 0, 0b000_00101], &mut pos).unwrap_err(), ParseError::NotMatched);
    assert_eq!(pos, 2);
    pos = 0;
    assert_eq!(Value::decode_tlv(&[0, 0], &mut pos).unwrap_err(), ParseError::NotMatched);
    assert_eq!(pos, 2);
    pos = 5;
    assert_eq!(String::decode_tlv(&[STRING_MASK], &mut pos), Err(ParseError::NotMatched));
    assert_eq!(pos, 5);
}

#[test]
fn a_keyword_is_read_from_its_type_byte_alone() {
    let mut pos = 0;
    assert_eq!(TrueFalseNull::decode_tlv(&[0b110_00000], &mut pos), Ok(TrueFalseNull::True));
    assert_eq!(pos, 4);
    pos = 0;
    assert_eq!(TrueFalseNull::decode_tlv(&[0b111_00000, 0, 0, 0], &mut pos), Ok(TrueFalseNull::False));
    assert_eq!(pos, 5);
    pos = 1;
    assert_eq!(TrueFalseNull::decode_tlv(&[0, 0b101_00000, 7], &mut pos), Ok(TrueFalseNull::Null));
    assert_eq!(pos, 5);
    pos = 0;
    assert!(TrueFalseNull::skip_tlv(&[0b110_00000, 0, 0], &mut pos));
    assert_eq!(pos, 4);
    pos = 0;
    assert!(TrueFalseNull::skip_tlv(&[0b111_00000], &mut pos));
    assert_eq!(pos, 5);
    pos = 0;
    assert!(!TrueFalseNull::skip_tlv(&[0b100_00000], &mut pos));
    assert_eq!(TrueFalseNull::decode_tlv(&[0b001_00000, 0, 0, 0], &mut pos), Err(ParseError::NotMatched));
    assert_eq!(TrueFalseNull::decode_tlv(&[], &mut pos), Err(ParseError::NotMatched));
    assert_eq!(pos, 0);
    pos = 3;
    assert_eq!(TrueFalseNull::decode_tlv(&[0b110_00000], &mut pos), Err(ParseError::NotMatched));
    assert_eq!(pos, 3);
}

#[test]
fn a_keyword_that_is_cut_short_ends_a_walk() {
    let payload = [0b001_00001, 0, 0b110_00000, 0, 0];
    let mut elements = Array { data: &payload }.iter();
    assert_eq!(integer(elements.next().unwrap()), 1);
    assert!(elements.next().is_none());
    let payload = [STRING_MASK | 1, b'k', 0, 0b111_00000, 0, 0, 0];
    let mut members = Object { data: &payload }.iter();
    assert!(members.next().is_none());
    let payload = [STRING_MASK | 1, b'k', 0, 0b111_00000, 0, 0, 0, 0];
    let mut members = Object { data: &payload }.iter();
    let (key, value) = members.next().unwrap();
    assert_eq!(key, b"k");
    assert!(matches!(value, Value::False));
    assert!(members.next().is_none());
}

#[test]
fn no_value_leaves_the_whitespace_as_padding() {
    let mut data = *b"x";
    let mut pos = 0;
    assert_eq!(Value::bitmix_to_tlv(&mut data, &mut pos), Err(ParseError::NotMatched));
    assert_eq!((pos, data), (0, *b"x"));
    let mut data = *b"a \t)b";
    pos = 1;
    assert_eq!(Value::bitmix_to_tlv(&mut data, &mut pos), Err(ParseError::NotMatched));
    assert_eq!((pos, data), (3, [b'a', 0, 0, b')', b'b']));
    let mut data = *b" \n";
    pos = 0;
    assert_eq!(Value::bitmix_to_tlv(&mut data, &mut pos), Err(ParseError::NotMatched));
    assert_eq!((pos, data), (2, [0, 0]));
    let mut data = *b" nul";
    pos = 0;
    assert_eq!(Value::bitmix_to_tlv(&mut data, &mut pos), Err(ParseError::NotMatched));
    assert_eq!((pos, data), (1, [0, b'n', b'u', b'l']));
}

#[test]
fn decimals_of_many_digits() {
    let mut data = *b"12345678901234.567890";
    match Parser::parse(&mut data).unwrap() {
        Value::Float(d) => {
            assert_eq!(d, Decimal { negative: false, digits: 12345678901234567890, scale: 6 })
        }
        other => panic!("not a decimal: {:?}", other),
    }
    let mut data = *b"-9223372036854775807.9999999999999999999";
    match Parser::parse(&mut data).unwrap() {
        Value::Float(d) => assert_eq!(
            d,
            Decimal { negative: true, digits: 92233720368547758079999999999999999999, scale: 19 }
        ),
        other => panic!("not a decimal: {:?}", other),
    }
    let mut data = *b"3.40282366920938463463374607431768211455";
    match Parser::parse(&mut data).unwrap() {
        Value::Float(d) => assert_eq!(d, Decimal { negative: false, digits: u128::MAX, scale: 38 }),
        other => panic!("not a decimal: {:?}", other),
    }
    let mut data = *b"3.40282366920938463463374607431768211456789";
    match Parser::parse(&mut data).unwrap() {
        Value::Float(d) => assert_eq!(
            d,
            Decimal { negative: false, digits: 34028236692093846346337460743176821145, scale: 37 }
        ),
        other => panic!("not a decimal: {:?}", other),
    }
    let mut data = *b"0.00000000000000000000000000000000000000000000000001";
    match Parser::parse(&mut data).unwrap() {
        Value::Float(d) => assert_eq!(d, Decimal { negative: false, digits: 1, scale: 50 }),
        other => panic!("not a decimal: {:?}", other),
    }
    let mut data = *b"9223372036854775808.5";
    assert_eq!(Parser::parse(&mut data).unwrap_err(), ParseError::Overflow);
}

#[test]
fn skipping_moves_as_reading_does() {
    let data = encode(br#"[[1, 2], {"k": "v"}, "s", 45, true, false, null]"#).unwrap();
    let mut pos = 0;
    assert!(Array::skip_tlv(&data, &mut pos));
    assert_eq!(pos, data.len());
    let array = match Value::from_tlv(&data).unwrap() {
        Value::Array(array) => array,
        other => panic!("not an array: {:?}", other),
    };
    let payload = array.data;
    let mut pos = 0;
    assert!(!Object::skip_tlv(payload, &mut pos));
    assert!(Array::skip_tlv(payload, &mut pos));
    assert_eq!(pos, 5);
    assert!(Value::skip_tlv(payload, &mut pos));
    assert!(!String::skip_tlv(payload, &mut pos));
    skip_zeroes(payload, &mut pos);
    assert!(String::skip_tlv(payload, &mut pos));
    assert!(Value::skip_tlv(payload, &mut pos));
    skip_zeroes(payload, &mut pos);
    assert!(!Value::skip_tlv(&payload[..pos + 3], &mut pos));
    assert!(TrueFalseNull::skip_tlv(payload, &mut pos));
    assert!(Value::skip_tlv(payload, &mut pos));
    assert!(Value::skip_tlv(payload, &mut pos));
    assert_eq!(pos, payload.len());
    assert!(!Value::skip_tlv(payload, &mut pos));
    assert_eq!(pos, payload.len());
}

#[test]
fn a_walk_yields_the_tree_of_the_text() {
    let mut data = *br#" { "list" : [ 1 , [ ] , [ "x" , -2.5 ] , { } ] , "s" : "\u00e9\n" , "t" : true } "#;
    let length = data.len();
    let root = match Parser::parse(&mut data).unwrap() {
        Value::Object(object) => object,
        other => panic!("not an object: {:?}", other),
    };
    let mut members = root.iter();

    let (key, value) = members.next().unwrap();
    assert_eq!(key, b"list");
    let list = match value {
        Value::Array(array) => array,
        other => panic!("not an array: {:?}", other),
    };
    let mut elements = list.iter();
    assert_eq!(integer(elements.next().unwrap()), 1);
    match elements.next().unwrap() {
        Value::Array(array) => assert!(array.iter().next().is_none()),
        other => panic!("not an array: {:?}", other),
    }
    match elements.next().unwrap() {
        Value::Array(array) => {
            let mut inner = array.iter();
            match inner.next().unwrap() {
                Value::String(bytes) => assert_eq!(bytes, b"x"),
                other => panic!("not a string: {:?}", other),
            }
            match inner.next().unwrap() {
                Value::Float(d) => {
                    assert_eq!(d, Decimal { negative: true, digits: 25, scale: 1 })
                }
                other => panic!("not a decimal: {:?}", other),
            }
            assert!(inner.next().is_none());
        }
        other => panic!("not an array: {:?}", other),
    }
    match elements.next().unwrap() {
        Value::Object(object) => assert!(object.iter().next().is_none()),
        other => panic!("not an object: {:?}", other),
    }
    assert!(elements.next().is_none());

    let (key, value) = members.next().unwrap();
    assert_eq!(key, b"s");
    match value {
        Value::String(bytes) => assert_eq!(bytes, "\u{e9}\n".as_bytes()),
        other => panic!("not a string: {:?}", other),
    }
    let (key, value) = members.next().unwrap();
    assert_eq!(key, b"t");
    assert!(matches!(value, Value::True));
    assert!(members.next().is_none());
    assert_eq!(length, 81);
}

#[test]
fn what_follows_the_value_is_left_alone() {
    let mut data = *b" 12 \xff";
    let value = Parser::parse(&mut data).unwrap();
    assert_eq!(integer(value), 12);
    assert_eq!(data, [0, 0b001_10001, 0b1010_0010, b' ', 0xff]);
}

#[test]
fn bytes_outside_of_records_are_zero() {
    let text = b" [ 10 , \"a\\tb\" , { \"k\" : null } ] ";
    let mut data = text.to_vec();
    let mut pos = 0;
    Value::bitmix_to_tlv(&mut data, &mut pos).unwrap();
    assert_eq!(pos, text.len() - 1);
    assert_eq!(data.len(), text.len());
    assert_eq!(
        data,
        vec![
            0,
            ARRAY_MASK | LONG_CONTAINER_MASK | (30 % 8),
            30 / 8,
            0,
            0b001_10001,
            0b1010_0000,
            0,
            0,
            0,
            STRING_MASK | 3,
            b'a',
            b'\t',
            b'b',
            0,
            0,
            0,
            0,
            0,
            OBJECT_MASK | 12,
            0,
            STRING_MASK | 1,
            b'k',
            0,
            0,
            0,
            0,
            0b101_00000,
            0,
            0,
            0,
            0,
            0,
            0,
            b' ',
        ]
    );
}

#[test]
fn a_payload_is_shorter_than_its_text() {
    for text in [
        &b"[]"[..],
        b"[1]",
        b"[ 1 , 2 ]",
        b"{}",
        br#"{"k": [1, 2, 3, 4, 5, 6, 7, 8, 9]}"#,
        br#""""#,
        br#""\n\n\n""#,
        br#""0123456789abcdefghij""#,
    ] {
        let data = encode(text).unwrap();
        let mut pos = 0;
        let payload = match Value::decode_tlv(&data, &mut pos).unwrap() {
            Value::Array(array) => array.data,
            Value::Object(object) => object.data,
            Value::String(bytes) => bytes,
            other => panic!("not a container: {:?}", other),
        };
        assert!(payload.len() + 2 <= text.len());
        let field = Bytesize::read(&data, 0);
        assert_eq!(field.bytesize, payload.len());
        assert_eq!(pos, field.offset + field.bytesize);
        assert!(data[pos..].iter().all(|byte| *byte == 0));
    }
}

#[test]
fn nested_containers_stand_at_their_place() {
    // every container around in the long form moves a container by one byte
    let text = br#"[[1, 2], {"k": [3]}, "0123456789", 4]"#;
    let data = encode(text).unwrap();
    assert_eq!(data[0], ARRAY_MASK | LONG_CONTAINER_MASK | ((text.len() - 2) % 8) as u8);
    assert_eq!(data[1] as usize, (text.len() - 2) / 8);
    for (start, end, moved, tag) in [
        (1usize, 7usize, 1usize, ARRAY_MASK),
        (9, 19, 1, OBJECT_MASK),
        (15, 18, 1, ARRAY_MASK),
    ] {
        assert!(text[start] == b'[' || text[start] == b'{');
        assert!(text[end - 1] == b']' || text[end - 1] == b'}');
        let at = start + moved;
        assert_eq!(data[at] & 0b111_00000, tag);
        let field = Bytesize::read(&data, at);
        assert_eq!(field.bytesize, end - start - 2);
        assert!(field.offset + field.bytesize <= end - start);
    }

    // in a short container nothing moves
    let text = br#"[[], {"a": {}}]"#;
    let data = encode(text).unwrap();
    assert_eq!(data[0], ARRAY_MASK | 13);
    for (start, end, tag) in
        [(1usize, 3usize, ARRAY_MASK), (5, 14, OBJECT_MASK), (11, 13, OBJECT_MASK)]
    {
        assert_eq!(data[start] & 0b111_00000, tag);
        let field = Bytesize::read(&data, start);
        assert_eq!(field.bytesize, end - start - 2);
        assert!(field.offset + field.bytesize <= end - start);
    }

    // two long containers around move by two
    let text = br#"[[["deep"], "0123456789abcdef"], "0123456789abcdef"]"#;
    let data = encode(text).unwrap();
    assert_eq!(data[0] & 0b111_10000, ARRAY_MASK | LONG_CONTAINER_MASK);
    assert_eq!(data[2] & 0b111_10000, ARRAY_MASK | LONG_CONTAINER_MASK);
    assert_eq!(data[4], ARRAY_MASK | 6);
    assert_eq!(&data[5..11], &[STRING_MASK | 4, b'd', b'e', b'e', b'p', 0]);
}

#[test]
fn length_field_in_both_forms() {
    let mut data = [b'[', 1, 2, 3, b']', 9];
    Bytesize::write(&mut data, 0, 5, 3);
    assert_eq!(data, [3, 1, 2, 3, 0, 9]);
    let field = Bytesize::read(&data, 0);
    assert_eq!((field.bytesize, field.offset), (3, 1));

    let mut data = vec![7u8; 22];
    for (i, byte) in data.iter_mut().enumerate() {
        *byte = i as u8;
    }
    Bytesize::write(&mut data, 1, 21, 18);
    let mut expected = vec![0, LONG_CONTAINER_MASK | 2, 2];
    expected.extend(2..20u8);
    expected.push(21);
    assert_eq!(data, expected);
    let field = Bytesize::read(&data, 1);
    assert_eq!((field.bytesize, field.offset), (18, 2));

    let field = Bytesize::read(&[0b010_11111, 0xff], 0);
    assert_eq!((field.bytesize, field.offset), (2047, 2));
    let field = Bytesize::read(&[0b010_01111], 0);
    assert_eq!((field.bytesize, field.offset), (15, 1));
}

#[test]
fn count_field_splits_and_joins() {
    assert_eq!(split(0), (0, 0));
    assert_eq!(split(31), (31, 0));
    assert_eq!(split(32), (0, 1));
    assert_eq!(split(8191), (31, 255));
    assert_eq!(join(31, 255), 8191);
    assert_eq!(join(5, 0), 5);
    for length in [0usize, 1, 31, 32, 33, 1000, 8191] {
        let (l1, l2) = split(length);
        assert_eq!(join(l1, l2), length);
        let mut data = [0b011_00000, b'x', b'y', b']'];
        Length::write(&mut data, 0, 4, length);
        assert_eq!(data, [l1, l2, b'x', b'y']);
        assert_eq!(Length::read(&data, 0).0, length);
    }
}

#[test]
fn header_and_other_bytes_of_a_number() {
    assert_eq!(char_to_tlv(b'-'), 10);
    assert_eq!(char_to_tlv(b'7'), 7);
    assert_eq!(singlebyte_tlv_to_char(0b001_00111), b'7');
    assert_eq!(multibyte_tlv_to_char(0b001_11010), b'-');
    assert_eq!(multibyte_tlv_to_char(0b001_10011), b'3');

    let mut data = *b"-5";
    assert!(HeaderByte::write(&mut data, 0, 2).unwrap().multibyte);
    assert_eq!(data, [0b001_11010, b'5']);
    let header = HeaderByte::read(&data, 0).unwrap();
    assert!(header.multibyte);
    assert_eq!(header.char, b'-');
    assert_eq!(HeaderByte::read(&[0b011_00000], 0), Err(ParseError::NotMatched));

    let mut data = *b"0.eE-9";
    assert_eq!(NonHeaderByte::rewrite_to_tlv(&mut data, 1, 19), 2);
    assert_eq!(NonHeaderByte::rewrite_to_tlv(&mut data, 2, 2), 0);
    assert_eq!(NonHeaderByte::rewrite_to_tlv(&mut data, 3, 0), 0);
    assert_eq!(NonHeaderByte::rewrite_to_tlv(&mut data, 4, 0), 0);
    assert_eq!(NonHeaderByte::rewrite_to_tlv(&mut data, 5, 8), 1);
    assert_eq!(data, [b'0', 0b1011_1100, 0b1010_1011, 0b0000_1011, 0b0000_1010, 0b1000_1001]);
    assert_eq!(
        NonHeaderByte::decode_tlv(&data, 1),
        Ok(NonHeaderByte::Dot { length_part: Some(3) })
    );
    assert_eq!(
        NonHeaderByte::decode_tlv(&data, 2),
        Ok(NonHeaderByte::Exponent { length_part: Some(2) })
    );
    assert_eq!(NonHeaderByte::decode_tlv(&data, 4), Ok(NonHeaderByte::Minus { length_part: None }));
    let digit = NonHeaderByte::decode_tlv(&data, 5).unwrap();
    assert_eq!(digit, NonHeaderByte::Digit { char: b'9', length_part: Some(0) });
    assert_eq!(digit.length_part(), Some(0));
    assert_eq!(NonHeaderByte::decode_tlv(&[0x0d], 0), Err(ParseError::Malformed));
}

#[test]
fn numbers_while_they_are_read() {
    let mut number = IntOrFloat::Integer { value: 4, negative: false };
    assert!(number.fits(2));
    number.append(2);
    number.negate();
    assert_eq!(number, IntOrFloat::Integer { value: 42, negative: true });
    assert_eq!(number.unwrap_int(), -42);
    number.add_dot();
    number.append(5);
    assert_eq!(number, IntOrFloat::Float { value: 425, digits_after_dot: 1, negative: true });
    assert_eq!(number.unwrap_float(), Decimal { negative: true, digits: 425, scale: 1 });
    let large = IntOrFloat::Integer { value: 922337203685477580, negative: false };
    assert!(large.fits(7));
    assert!(!large.fits(8));
    let wide = IntOrFloat::Float {
        value: 34028236692093846346337460743176821145,
        digits_after_dot: 3,
        negative: false,
    };
    assert!(wide.fits(5));
    assert!(!wide.fits(6));
}

#[test]
fn whitespace_and_padding_are_skipped() {
    let mut data = *b"a \t\n\r b";
    let mut pos = 1;
    skip_ws(&mut data, &mut pos);
    assert_eq!(pos, 6);
    assert_eq!(data, [b'a', 0, 0, 0, 0, 0, b'b']);
    skip_ws(&mut data, &mut pos);
    assert_eq!(pos, 6);
    pos = 7;
    skip_ws(&mut data, &mut pos);
    assert_eq!(pos, 7);

    pos = 1;
    skip_zeroes(&data, &mut pos);
    assert_eq!(pos, 6);
    skip_zeroes(&data, &mut pos);
    assert_eq!(pos, 6);
    let zeroes = [0u8; 3];
    pos = 1;
    skip_zeroes(&zeroes, &mut pos);
    assert_eq!(pos, 3);
    pos = 9;
    skip_zeroes(&zeroes, &mut pos);
    assert_eq!(pos, 9);
    skip_ws(&mut data, &mut pos);
    assert_eq!(pos, 9);
    assert!(!bitmix_consume_byte::<0>(&mut data, &mut pos));
    assert_eq!(Value::decode_tlv(&zeroes, &mut pos).unwrap_err(), ParseError::NotMatched);
    assert!(!Value::skip_tlv(&zeroes, &mut pos));
    assert_eq!(pos, 9);
}

#[test]
fn a_byte_is_consumed_where_it_stands() {
    let mut data = *b",]";
    let mut pos = 0;
    assert!(!bitmix_consume_byte::<b']'>(&mut data, &mut pos));
    assert_eq!((pos, data), (0, *b",]"));
    assert!(bitmix_consume_byte::<b','>(&mut data, &mut pos));
    assert_eq!((pos, data), (1, [0, b']']));
    assert!(bitmix_consume_byte::<b']'>(&mut data, &mut pos));
    assert!(!bitmix_consume_byte::<b']'>(&mut data, &mut pos));
    assert_eq!((pos, data), (2, [0, 0]));

    let mut data = [1, 2, 3, 4];
    zero_fill(&mut data, 1, 3);
    assert_eq!(data, [1, 0, 0, 4]);
    zero_fill(&mut data, 4, 4);
    assert_eq!(data, [1, 0, 0, 4]);
}

#[test]
fn escapes_are_resolved_in_place() {
    assert_eq!(unhex(b'0'), 0);
    assert_eq!(unhex(b'9'), 9);
    assert_eq!(unhex(b'a'), 10);
    assert_eq!(unhex(b'F'), 15);

    let mut data = *br#"["x\ty", 1]"#;
    let spans = rewrite_unescaped_json_string(&mut data, 1).unwrap();
    assert_eq!(spans.read_bytesize, 6);
    assert_eq!(spans.written_bytesize, 5);
    assert_eq!(data, *b"[\"x\ty\"\0, 1]");
    let mut data = *br#""never closed"#;
    assert_eq!(rewrite_unescaped_json_string(&mut data, 0).unwrap_err(), ParseError::Malformed);
}

#[test]
fn keywords_are_read_out() {
    assert!(matches!(Value::from(TrueFalseNull::True), Value::True));
    assert!(matches!(Value::from(TrueFalseNull::False), Value::False));
    assert!(matches!(Value::from(TrueFalseNull::Null), Value::Null));
    let number = IntOrFloat::Integer { value: 3, negative: true };
    assert_eq!(integer(Value::from(number)), -3);
    let number = IntOrFloat::Float { value: 15, digits_after_dot: 1, negative: false };
    match Value::from(number) {
        Value::Float(d) => assert_eq!(d, Decimal { negative: false, digits: 15, scale: 1 }),
        other => panic!("not a decimal: {:?}", other),
    }
    assert!(matches!(Value::from(&b"abc"[..]), Value::String(b"abc")));
    let payload = [0b001_00001u8];
    match Value::from(Array { data: &payload }) {
        Value::Array(array) => assert_eq!(integer(array.iter().next().unwrap()), 1),
        other => panic!("not an array: {:?}", other),
    }
    match Value::from(Object { data: &[] }) {
        Value::Object(object) => assert!(object.iter().next().is_none()),
        other => panic!("not an object: {:?}", other),
    }
    for (text, expected) in
        [(&b"true"[..], "True"), (b" false", "False"), (b"\nnull", "Null")]
    {
        let mut data = text.to_vec();
        let value = Parser::parse(&mut data).unwrap();
        assert_eq!(format!("{:?}", value), expected);
    }
}
