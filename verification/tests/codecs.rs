use json_tlv::array::Array;
use json_tlv::bytesize::LONG_CONTAINER_MASK;
use json_tlv::length::Length;
use json_tlv::mask::{ARRAY_MASK, FALSE_MASK, NULL_MASK, OBJECT_MASK, STRING_MASK, TRUE_MASK};
use json_tlv::number::int_or_float::Decimal;
use json_tlv::number::Number;
use json_tlv::object::Object;
use json_tlv::string::String;
use json_tlv::true_false_null::TrueFalseNull;
use json_tlv::value::Value;
use json_tlv::Parser;

fn to_f64(d: Decimal) -> f64 {
    let magnitude = d.digits as f64 / 10_f64.powi(d.scale as i32);
    if d.negative {
        -magnitude
    } else {
        magnitude
    }
}

#[test]
fn test_array_empty() {
    let mut pos = 1;
    let mut data = *b" []";
    Array::bitmix_to_tlv(&mut data, &mut pos).unwrap();
    assert_eq!(pos, 3);
    assert_eq!(data, [b' ', ARRAY_MASK | 0, 0]);

    pos = 1;
    let value = Array::decode_tlv(&data, &mut pos).unwrap();
    assert_eq!(pos, 2);
    assert_eq!(value.data, &[]);
}

#[test]
fn test_array_short() {
    let mut pos = 1;
    let mut data = *b" [1, 2, 3]";
    Array::bitmix_to_tlv(&mut data, &mut pos).unwrap();
    assert_eq!(pos, 10);
    assert_eq!(
        data,
        [
            b' ',
            // seven bytes of payload, then the padding where `]` stood
            ARRAY_MASK | 7,
            0b001_00001,
            0,
            0,
            0b001_00010,
            0,
            0,
            0b001_00011,
            0,
        ]
    );

    pos = 1;
    Array::decode_tlv(&data, &mut pos).unwrap();
    assert_eq!(pos, 9);
}

#[test]
fn test_array_long() {
    let mut pos = 1;
    let mut data = *b" [1, 2, 3, 4, 5, 6, 7, 8, 9, 8, 7, 6, 5, 4, 3, 2]";
    Array::bitmix_to_tlv(&mut data, &mut pos).unwrap();
    assert_eq!(pos, 49);
    assert_eq!(
        data,
        [
            b' ',
            // the payload has 46 bytes = 0b101_110
            ARRAY_MASK | LONG_CONTAINER_MASK | 0b110,
            0b101,
            0b001_00001, // 1
            0,
            0,
            0b001_00010, // 2
            0,
            0,
            0b001_00011, // 3
            0,
            0,
            0b001_00100, // 4
            0,
            0,
            0b001_00101, // 5
            0,
            0,
            0b001_00110, // 6
            0,
            0,
            0b001_00111, // 7
            0,
            0,
            0b001_01000, // 8
            0,
            0,
            0b001_01001, // 9
            0,
            0,
            0b001_01000, // 8
            0,
            0,
            0b001_00111, // 7
            0,
            0,
            0b001_00110, // 6
            0,
            0,
            0b001_00101, // 5
            0,
            0,
            0b001_00100, // 4
            0,
            0,
            0b001_00011, // 3
            0,
            0,
            0b001_00010, // 2
        ]
    );

    pos = 1;
    Array::decode_tlv(&data, &mut pos).unwrap();
    assert_eq!(pos, data.len());
}

#[test]
fn test_length() {
    let mut data = *b" \"hello\"";
    Length::write(&mut data, 1, 8, 5);
    assert_eq!(
        data,
        [
            b' ',  // length = 5 = 0b101
            0b101, // 5 trailing bits
            0b0,   // 8 leading bits
            b'h', b'e', b'l', b'l', b'o'
        ]
    );

    let length = Length::read(&data, 1);
    assert_eq!(length.0, 5);
}

#[test]
fn test_0() {
    let mut data = *b" 0";
    let mut pos = 1;
    Number::bitmix_to_tlv(&mut data, &mut pos).unwrap();
    assert_eq!(pos, 2);
    assert_eq!(data, [b' ', 0b001_00000]);

    pos = 1;
    let value = Number::decode_tlv(&data, &mut pos).unwrap();
    assert_eq!(pos, 2);
    assert_eq!(value.unwrap_int(), 0);
}

#[test]
fn test_1() {
    let mut data = *b" 1";
    let mut pos = 1;
    Number::bitmix_to_tlv(&mut data, &mut pos).unwrap();
    assert_eq!(pos, 2);
    assert_eq!(data, [b' ', 0b001_00001]);

    pos = 1;
    let value = Number::decode_tlv(&data, &mut pos).unwrap();
    assert_eq!(pos, 2);
    assert_eq!(value.unwrap_int(), 1);
}

#[test]
fn test_9() {
    let mut data = *b" 9";
    let mut pos = 1;
    Number::bitmix_to_tlv(&mut data, &mut pos).unwrap();
    assert_eq!(pos, 2);
    assert_eq!(data, [b' ', 0b001_01001]);

    pos = 1;
    let value = Number::decode_tlv(&data, &mut pos).unwrap();
    assert_eq!(pos, 2);
    assert_eq!(value.unwrap_int(), 9);
}

#[test]
fn test_69() {
    let mut data = *b" 69";
    let mut pos = 1;
    Number::bitmix_to_tlv(&mut data, &mut pos).unwrap();
    assert_eq!(pos, 3);
    assert_eq!(data, [b' ', 0b001_10110, 0b1010_1001]);

    pos = 1;
    let value = Number::decode_tlv(&data, &mut pos).unwrap();
    assert_eq!(pos, 3);
    assert_eq!(value.unwrap_int(), 69);
}

#[test]
fn test_1234567890987654321() {
    let mut data = *b" 1234567890987654321"; // 19 bytes = 0b10_011
    let mut pos = 1;
    Number::bitmix_to_tlv(&mut data, &mut pos).unwrap();
    assert_eq!(pos, 20);
    assert_eq!(
        data,
        [
            b' ',
            0b001_10001, // 000 = mask, 1 = multibyte, value = 0b001 = 1
            0b1011_0010, // 0b0011 = length, value = 2
            0b1010_0011, // 0b0010 = length, value = 3
            0b0000_0100, // 0b0000 = length, value = 4
            0b0000_0101, // 0b0000 = length, value = 5
            0b0000_0110, // 0b0000 = length, value = 6
            0b0000_0111, // 0b0000 = length, value = 7
            0b0000_1000, // 0b0000 = length, value = 8
            0b0000_1001, // 0b0000 = length, value = 9
            0b0000_0000, // 0b0000 = length, value = 0
            0b0000_1001, // 0b0000 = length, value = 9
            0b0000_1000, // 0b0000 = length, value = 8
            0b0000_0111, // 0b0000 = length, value = 7
            0b0000_0110, // 0b0000 = length, value = 6
            0b0000_0101, // 0b0000 = length, value = 5
            0b0000_0100, // 0b0000 = length, value = 4
            0b0000_0011, // 0b0000 = length, value = 3
            0b0000_0010, // 0b0000 = length, value = 2
            0b0000_0001, // 0b0000 = length, value = 1
        ]
    );

    pos = 1;
    let value = Number::decode_tlv(&data, &mut pos).unwrap();
    assert_eq!(pos, 20);
    assert_eq!(value.unwrap_int(), 1234567890987654321);
}

#[test]
fn test_minus_1() {
    let mut data = *b" -1"; // length = 2 = b10
    let mut pos = 1;
    Number::bitmix_to_tlv(&mut data, &mut pos).unwrap();
    assert_eq!(pos, 3);
    assert_eq!(
        data,
        [
            b' ',
            0b001_11010, // 000 = mask, 1 = multibyte, value = 0b1010 = MINUS
            0b1010_0001, // 0010 = length = 2, value = 1
        ]
    );

    pos = 1;
    let value = Number::decode_tlv(&data, &mut pos).unwrap();
    assert_eq!(pos, 3);
    assert_eq!(value.unwrap_int(), -1);
}

#[test]
fn test_two_point_three() {
    let mut data = *b" 2.3"; // length = 3 = 0b11
    let mut pos = 1;
    Number::bitmix_to_tlv(&mut data, &mut pos).unwrap();
    assert_eq!(pos, 4);
    assert_eq!(
        data,
        [
            b' ',
            0b001_10010, // 000 = mask, 1 = multibyte, value = 0b0010 = 2
            0b1011_1100, // 0011 = length = 3, value = 12 = DOT
            0b0000_0011, // 0000 = length = 0, value = 3
        ]
    );

    pos = 1;
    let value = Number::decode_tlv(&data, &mut pos).unwrap();
    assert_eq!(pos, 4);
    assert_eq!(to_f64(value.unwrap_float()), 2.3);
}

#[test]
fn test_object_empty() {
    let mut pos = 1;
    let mut data = *b" {}";
    Object::bitmix_to_tlv(&mut data, &mut pos).unwrap();
    assert_eq!(pos, 3);
    assert_eq!(data, [b' ', OBJECT_MASK | 0, 0]);
}

#[test]
fn test_object_small() {
    let mut pos = 1;
    let mut data = *br#" {"a": 1, "b": 2}"#;
    Object::bitmix_to_tlv(&mut data, &mut pos).unwrap();
    assert_eq!(pos, 17);
    assert_eq!(
        data,
        [
            b' ',
            // fourteen bytes of payload, then the padding where `}` stood
            OBJECT_MASK | 14,
            STRING_MASK | 1,
            b'a',
            0,
            0,
            0,
            0b001_00001,
            0,
            0,
            STRING_MASK | 1,
            b'b',
            0,
            0,
            0,
            0b001_00010,
            0,
        ]
    );

    pos = 1;
    Object::decode_tlv(&data, &mut pos).unwrap();
    assert_eq!(pos, 16);
}

#[test]
fn test_string_empty() {
    let mut data = *b" \"\"";
    let mut pos = 1;
    String::bitmix_to_tlv(&mut data, &mut pos).unwrap();
    assert_eq!(pos, 3);
    assert_eq!(data, [b' ', STRING_MASK | 0, 0]);

    pos = 1;
    let value = String::decode_tlv(&data, &mut pos).unwrap();
    assert_eq!(pos, 2);
    assert_eq!(value, b"");
}

#[test]
fn test_string_short() {
    let mut pos = 1;
    let mut data = *b" \"hello\"";
    String::bitmix_to_tlv(&mut data, &mut pos).unwrap();
    assert_eq!(pos, 8);
    assert_eq!(
        data,
        [b' ', STRING_MASK | 5, b'h', b'e', b'l', b'l', b'o', 0]
    );

    pos = 1;
    let value = String::decode_tlv(&data, &mut pos).unwrap();
    assert_eq!(pos, 7);
    assert_eq!(value, b"hello");
}

#[test]
fn test_string_long() {
    let mut pos = 1;
    let mut data = *b" \"abcdefghijklmnopqrstuvwxyz\"";
    String::bitmix_to_tlv(&mut data, &mut pos).unwrap();
    assert_eq!(pos, 29);
    assert_eq!(
        data,
        [
            b' ',
            // length is 26 = 0b11010
            STRING_MASK | LONG_CONTAINER_MASK | 0b010, // 3 trailing bits of length
            0b11,                                      // the rest of the length
            b'a',
            b'b',
            b'c',
            b'd',
            b'e',
            b'f',
            b'g',
            b'h',
            b'i',
            b'j',
            b'k',
            b'l',
            b'm',
            b'n',
            b'o',
            b'p',
            b'q',
            b'r',
            b's',
            b't',
            b'u',
            b'v',
            b'w',
            b'x',
            b'y',
            b'z',
        ]
    );

    pos = 1;
    let value = String::decode_tlv(&data, &mut pos).unwrap();
    assert_eq!(pos, 29);
    assert_eq!(value, b"abcdefghijklmnopqrstuvwxyz");
}

#[test]
fn test_escaped() {
    let mut pos = 1;
    let mut data = *br#" "a\nb\tc\u0064\\e""#;
    String::bitmix_to_tlv(&mut data, &mut pos).unwrap();
    assert_eq!(pos, 19);
    assert_eq!(
        data,
        [
            b' ',
            STRING_MASK | 8,
            b'a',
            b'\n',
            b'b',
            b'\t',
            b'c',
            b'd',
            b'\\',
            b'e',
            0,
            0,
            0,
            0,
            0,
            0,
            0,
            0,
            0,
        ]
    );

    pos = 1;
    let value = String::decode_tlv(&data, &mut pos).unwrap();
    assert_eq!(pos, 10);
    assert_eq!(value, b"a\nb\tcd\\e");
}

#[test]
fn test_true() {
    let mut pos = 1;
    let mut data = *b" true";
    TrueFalseNull::bitmix_to_tlv(&mut data, &mut pos).unwrap();
    assert_eq!(pos, 5);
    assert_eq!(data, [b' ', TRUE_MASK, 0, 0, 0]);

    pos = 1;
    let value = TrueFalseNull::decode_tlv(&data, &mut pos).unwrap();
    assert_eq!(pos, 5);
    assert_eq!(value, TrueFalseNull::True);
}

#[test]
fn test_false() {
    let mut pos = 1;
    let mut data = *b" false";
    TrueFalseNull::bitmix_to_tlv(&mut data, &mut pos).unwrap();
    assert_eq!(pos, 6);
    assert_eq!(data, [b' ', FALSE_MASK, 0, 0, 0, 0]);

    pos = 1;
    let value = TrueFalseNull::decode_tlv(&data, &mut pos).unwrap();
    assert_eq!(pos, 6);
    assert_eq!(value, TrueFalseNull::False);
}

#[test]
fn test_null() {
    let mut pos = 1;
    let mut data = *b" null";
    TrueFalseNull::bitmix_to_tlv(&mut data, &mut pos).unwrap();
    assert_eq!(pos, 5);
    assert_eq!(data, [b' ', NULL_MASK, 0, 0, 0]);

    pos = 1;
    let value = TrueFalseNull::decode_tlv(&data, &mut pos).unwrap();
    assert_eq!(pos, 5);
    assert_eq!(value, TrueFalseNull::Null);
}

#[test]
fn test_value() {
    let mut pos = 1;
    let mut data = *br#" {
        "a": 1,
        "b": "string",
        "c": 2.3,
        "d": [1, "a"],
        "e": {
            "key1": "value",
            "key2": -2
        },
        "f": true,
        "g": false,
        "h": null
    }"#;

    Value::bitmix_to_tlv(&mut data, &mut pos).unwrap();
    assert_eq!(pos, data.len());
}

fn visit_and_encode(something: Value, out: &mut std::string::String) {
    match something {
        Value::Object(object) => {
            out.push_str("{");
            let mut members = object.iter();
            while let Some((key, value)) = members.next() {
                out.push_str(&format!("\"{}\": ", std::str::from_utf8(key).unwrap()));
                visit_and_encode(value, out);
                out.push_str(", ");
            }
            out.push_str("}");
        }
        Value::Array(array) => {
            out.push_str("[");
            let mut elements = array.iter();
            while let Some(value) = elements.next() {
                visit_and_encode(value, out);
                out.push_str(", ");
            }
            out.push_str("]");
        }
        Value::String(string) => {
            out.push_str(&format!("\"{}\"", std::str::from_utf8(string).unwrap()));
        }
        Value::Integer(int) => {
            out.push_str(&format!("{}", int));
        }
        Value::Float(float) => {
            out.push_str(&format!("{}", to_f64(float)));
        }
        Value::True => {
            out.push_str("true");
        }
        Value::False => {
            out.push_str("false");
        }
        Value::Null => {
            out.push_str("null");
        }
    }
}

#[test]
fn test_parser() {
    let mut data = *br#"{
        "a": 1,
        "b": "string",
        "c": 2.3,
        "d": [1, "a"],
        "e": {
            "key1": "value",
            "key2": -2
        },
        "f": true,
        "g": false,
        "h": null
    }"#;

    let result = Parser::parse(&mut data).unwrap();

    let mut buf = std::string::String::with_capacity(1024);
    visit_and_encode(result, &mut buf);

    assert_eq!(
        buf,
        r#"{"a": 1, "b": "string", "c": 2.3, "d": [1, "a", ], "e": {"key1": "value", "key2": -2, }, "f": true, "g": false, "h": null, }"#
    )
}
