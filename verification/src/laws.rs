//! What holds of the codec as a whole.

use vstd::prelude::*;
use crate::error::ParseError;
use crate::grammar::{
    json_array, json_elements, json_members, json_object, json_value, lemma_array, lemma_object,
    lemma_value,
};
use crate::ascii::{DIGIT_0, DIGIT_9};
use crate::json::{Json, Token};
use crate::bytesize::{field_offset, read_field};
use crate::layout::{lemma_record_size, next_element, next_member, read_value, record, Record};
use crate::mask::{ARRAY_MASK, NUMBER_MASK, OBJECT_MASK, STRING_MASK};
use crate::number::{json_number, number_run, number_value};
use crate::nesting::{lemma_place_value, part, place_value};
use crate::round_trip::{
    lemma_container_record, lemma_container_stable, lemma_elements_hold, lemma_members_hold,
    lemma_string_record, lemma_value_holds,
};
use crate::ws::ws_len;
use crate::runs::lemma_run_len_props;
use crate::skip_zeroes::{zero_pred, zero_run};
use crate::string::{json_string, string_record};
use crate::tlv::{container_record, lemma_container_size};
use crate::tree::{
    lemma_tree, lemma_walk_elements_rule, lemma_walk_members_rule, member_value_start,
    stands_for, tlv_document, tlv_elements, tlv_members, tlv_value,
};

verus! {

/// Encoding keeps the meaning: the bytes that take the place of a value of
/// the text are a document whose tree is the tree of the value.
pub proof fn lemma_round_trip(text: Seq<u8>)
    ensures
        json_value(text) matches Ok(token) ==> tlv_document(token.image) == Ok::<
            Json,
            ParseError,
        >(token.tree),
{
    lemma_value_holds(text);
}

/// Encoding leaves nothing but padding outside of records: in the bytes that
/// take the place of a value, every byte in front of the record of the value
/// and every byte behind it is zero. Inside the record the same holds of
/// every payload, since a payload has a tree only where nothing but padding
/// stands around the records in it.
pub proof fn lemma_padding(text: Seq<u8>)
    ensures
        json_value(text) matches Ok(token) ==> {
            &&& zero_run(token.image) < token.image.len()
            &&& record(token.image.skip(zero_run(token.image) as int)) matches Ok((rec, n))
                && zero_run(token.image) + n <= token.image.len() && forall|i: int|
                0 <= i < zero_run(token.image) || zero_run(token.image) + n <= i
                    < token.image.len() ==> token.image[i] == 0
            &&& tlv_value(token.image.skip(zero_run(token.image) as int)) is Ok
        },
{
    lemma_value_holds(text);
    if let Ok(token) = json_value(text) {
        let k = zero_run(token.image);
        let b = token.image.skip(k as int);
        let n = tlv_value(b)->Ok_0.1;
        lemma_tree(b);
        lemma_run_len_props(token.image, zero_pred());
        let after = token.image.skip((k + n) as int);
        assert forall|i: int| k + n <= i < token.image.len() implies token.image[i] == 0 by {
            assert(after[i - k - n] == token.image[i]);
        }
    }
}

/// The payload of a string, an array or an object is shorter than its text
/// by two bytes at least: the length that its record states is at most the
/// length of the text without its two delimiters.
pub proof fn lemma_payload_within_span(text: Seq<u8>)
    ensures
        json_string(text) matches Ok(token) ==> string_record(token.image) matches Ok(
            (payload, n),
        ) && payload.len() + 2 <= token.image.len(),
        json_array(text) matches Ok(token) ==> container_record(token.image, ARRAY_MASK)
            matches Ok((payload, n)) && payload.len() + 2 == token.image.len(),
        json_object(text) matches Ok(token) ==> container_record(token.image, OBJECT_MASK)
            matches Ok((payload, n)) && payload.len() + 2 == token.image.len(),
{
    lemma_string_record(text, Seq::empty());
    if let Ok(token) = json_string(text) {
        assert(token.image + Seq::<u8>::empty() =~= token.image);
        crate::grammar::lemma_string_takes_bytes(text);
        reveal(json_string);
        crate::string::lemma_unescape_shrinks(text.skip(1));
        lemma_container_size(token.image, STRING_MASK);
        crate::bytesize::lemma_frame_reads_back(
            STRING_MASK,
            token.tree->String_0,
            crate::runs::zeros(
                (crate::string::unescape(text.skip(1))->Ok_0.raw - 1
                    - token.tree->String_0.len()) as nat,
            ),
        );
    }
    lemma_array(text);
    lemma_object(text);
    if let Ok(token) = json_array(text) {
        let body = json_elements(text.skip(1))->Ok_0.image;
        lemma_elements_hold(text.skip(1), true);
        lemma_container_record(ARRAY_MASK, body);
    }
    if let Ok(token) = json_object(text) {
        let body = json_members(text.skip(1))->Ok_0.image;
        lemma_members_hold(text.skip(1), true);
        lemma_container_record(OBJECT_MASK, body);
    }
}

/// The same holds of every array, object and string value that is nested in
/// a text, at its place in the image of the whole: where the text holds one
/// at the offset `s`, behind whitespace, the record at its place states a
/// payload that is two bytes shorter than its text, or shorter still for a
/// string with escapes, and the record does not reach beyond that text. The
/// place is the offset in the text, moved to the right by one byte for every
/// array and object around it whose length field takes two bytes.
pub proof fn lemma_nested_payload_within_span(text: Seq<u8>, s: nat)
    requires
        json_value(text) is Ok,
        place_value(text, s) is Some,
    ensures
        s + ws_len(text.skip(s as int)) <= text.len(),
        s <= place_value(text, s)->0,
        json_array(text.skip((s + ws_len(text.skip(s as int))) as int)) matches Ok(c) ==> {
            &&& place_value(text, s)->0 + ws_len(text.skip(s as int)) + c.image.len()
                <= json_value(text)->Ok_0.image.len()
            &&& container_record(
                json_value(text)->Ok_0.image.skip(
                    (place_value(text, s)->0 + ws_len(text.skip(s as int))) as int,
                ),
                ARRAY_MASK,
            ) matches Ok((payload, n)) && payload.len() + 2 == c.image.len() && n <= c.image.len()
        },
        json_object(text.skip((s + ws_len(text.skip(s as int))) as int)) matches Ok(c) ==> {
            &&& place_value(text, s)->0 + ws_len(text.skip(s as int)) + c.image.len()
                <= json_value(text)->Ok_0.image.len()
            &&& container_record(
                json_value(text)->Ok_0.image.skip(
                    (place_value(text, s)->0 + ws_len(text.skip(s as int))) as int,
                ),
                OBJECT_MASK,
            ) matches Ok((payload, n)) && payload.len() + 2 == c.image.len() && n <= c.image.len()
        },
        json_string(text.skip((s + ws_len(text.skip(s as int))) as int)) matches Ok(c) ==> {
            &&& place_value(text, s)->0 + ws_len(text.skip(s as int)) + c.image.len()
                <= json_value(text)->Ok_0.image.len()
            &&& container_record(
                json_value(text)->Ok_0.image.skip(
                    (place_value(text, s)->0 + ws_len(text.skip(s as int))) as int,
                ),
                STRING_MASK,
            ) matches Ok((payload, n)) && payload.len() + 2 <= c.image.len() && n <= c.image.len()
        },
{
    let root = json_value(text)->Ok_0;
    let q = place_value(text, s)->0;
    let inner_text = text.skip(s as int);
    let w = ws_len(inner_text);
    lemma_place_value(text, s);
    lemma_run_len_props(inner_text, crate::ws::ws_pred());
    let u = json_value(inner_text)->Ok_0;
    lemma_value(inner_text);
    let container = text.skip((s + w) as int);
    assert(inner_text.skip(w as int) =~= container);
    lemma_array(container);
    lemma_object(container);
    lemma_payload_within_span(container);
    let b = root.image.skip((q + w) as int);
    if w < inner_text.len() {
        assert(container[0] == inner_text[w as int]);
    }
    if let Ok(c) = json_array(container) {
        assert(u.image == crate::runs::zeros(w) + c.image);
        lemma_nested_record(root.image, q, w, c.image, ARRAY_MASK);
    }
    if let Ok(c) = json_object(container) {
        assert(u.image == crate::runs::zeros(w) + c.image);
        lemma_nested_record(root.image, q, w, c.image, OBJECT_MASK);
    }
    if let Ok(c) = json_string(container) {
        assert(container[0] == crate::ascii::QUOTE) by {
            reveal(json_string);
        }
        assert(u.image == crate::runs::zeros(w) + c.image);
        lemma_string_spans(container);
        lemma_nested_record(root.image, q, w, c.image, STRING_MASK);
    }
}

/// The record of a string lies within the image of the string.
proof fn lemma_string_spans(text: Seq<u8>)
    ensures
        json_string(text) matches Ok(token) ==> string_record(token.image) matches Ok(
            (payload, n),
        ) && payload.len() + 2 <= token.image.len() && n <= token.image.len(),
{
    lemma_payload_within_span(text);
    if let Ok(token) = json_string(text) {
        lemma_container_size(token.image, STRING_MASK);
    }
}

/// A record that stands in a buffer reads there as it reads alone.
proof fn lemma_nested_record(whole: Seq<u8>, q: nat, w: nat, image: Seq<u8>, tag: u8)
    requires
        q + w + image.len() <= whole.len(),
        part(whole, q, w + image.len()) == crate::runs::zeros(w) + image,
        container_record(image, tag) is Ok,
    ensures
        container_record(whole.skip((q + w) as int), tag) == container_record(image, tag),
{
    let b = whole.skip((q + w) as int);
    let n = container_record(image, tag)->Ok_0.1;
    lemma_container_size(image, tag);
    let cut = part(whole, q, w + image.len());
    assert forall|i: int| 0 <= i < n implies b[i] == image[i] by {
        assert(cut[w + i] == whole[q + w + i]);
        assert(cut[w + i] == image[i]);
    }
    assert(b.subrange(0, n as int) =~= image.subrange(0, n as int));
    lemma_container_stable(image, b, tag);
}

/// Reading a record takes exactly the bytes of the record: for a string, an
/// array or an object the length field and as many bytes as it states, for a
/// number as many bytes as it has symbols, for a keyword its type byte and
/// the three or four bytes of padding that belong to it. No record reaches
/// beyond the bytes that it is read from.
pub proof fn lemma_record_extent(b: Seq<u8>)
    ensures
        record(b) matches Ok((rec, n)) ==> 1 <= n <= b.len() && match rec {
            Record::Object(payload) => n == field_offset(b[0]) + read_field(b)->0.bytesize
                && payload == b.subrange(field_offset(b[0]) as int, n as int),
            Record::Array(payload) => n == field_offset(b[0]) + read_field(b)->0.bytesize
                && payload == b.subrange(field_offset(b[0]) as int, n as int),
            Record::String(payload) => n == field_offset(b[0]) + read_field(b)->0.bytesize
                && payload == b.subrange(field_offset(b[0]) as int, n as int),
            Record::Number(symbols) => n == symbols.len(),
            Record::True => n == 4,
            Record::False => n == 5,
            Record::Null => n == 4,
        },
{
    lemma_record_size(b);
    lemma_container_size(b, ARRAY_MASK);
    lemma_container_size(b, OBJECT_MASK);
    lemma_container_size(b, STRING_MASK);
}

/// Up to fifteen bytes of a string have their length in the type byte and
/// follow it at once; from sixteen on the length takes a second byte, and the
/// bytes follow that.
pub proof fn lemma_length_forms(text: Seq<u8>)
    ensures
        json_string(text) matches Ok(token) ==> token.tree matches Json::String(content) && {
            &&& content.len() <= 15 ==> token.image[0] == STRING_MASK + content.len()
                && token.image.subrange(1, 1 + content.len() as int) == content
            &&& content.len() > 15 ==> token.image[0] == STRING_MASK + 16 + content.len() % 8
                && token.image[1] == content.len() / 8 && token.image.subrange(
                2,
                2 + content.len() as int,
            ) == content
        },
{
    reveal(json_string);
    if let Ok(token) = json_string(text) {
        let content = token.tree->String_0;
        let f = crate::bytesize::frame(STRING_MASK, content.len(), content);
        if content.len() <= 15 {
            assert(token.image[0] == f[0]);
            assert(token.image.subrange(1, 1 + content.len() as int) =~= content);
        } else {
            assert(token.image[0] == f[0]);
            assert(token.image[1] == f[1]);
            assert(token.image.subrange(2, 2 + content.len() as int) =~= content);
        }
    }
}

/// A number of one digit becomes one byte: the digit under the type of a
/// number.
pub proof fn lemma_single_digit(text: Seq<u8>)
    requires
        text.len() > 0,
        DIGIT_0 <= text[0] <= DIGIT_9,
        number_run(text) == 1,
    ensures
        json_number(text) == Ok::<Token, ParseError>(
            Token {
                tree: Json::Number(seq![(text[0] - DIGIT_0) as u8]),
                image: seq![(NUMBER_MASK + (text[0] - DIGIT_0)) as u8],
            },
        ),
{
    reveal(json_number);
    let symbols = crate::number::symbols_of(text, 1);
    assert(symbols =~= seq![(text[0] - DIGIT_0) as u8]);
    assert(crate::number::number_image(symbols) =~= seq![(NUMBER_MASK + (text[0] - DIGIT_0)) as u8]);
}

/// What a record reads as is a handle for the tree of the record. Only a
/// number may have a tree and still not be read: its symbols may spell no
/// number.
pub proof fn lemma_read_stands_for(b: Seq<u8>)
    requires
        tlv_value(b) is Ok,
    ensures
        record(b) is Ok,
        record(b)->Ok_0.1 == tlv_value(b)->Ok_0.1,
        match read_value(b) {
            Ok((v, n)) => stands_for(v, tlv_value(b)->Ok_0.0) && n == tlv_value(b)->Ok_0.1,
            Err(e) => tlv_value(b)->Ok_0.0 matches Json::Number(symbols) && number_value(symbols)
                == Err::<crate::number::int_or_float::IntOrFloat, ParseError>(e),
        },
{
    lemma_tree(b);
}

/// Walking an array yields its tree: where the payload holds elements, the
/// next step of a walk hands out a handle for the first of them and stands
/// in front of the others; where it holds none, the walk has ended. A walk
/// also ends at a number whose symbols spell no number.
pub proof fn lemma_walk_array(payload: Seq<u8>)
    requires
        tlv_elements(payload) is Ok,
    ensures
        tlv_elements(payload)->Ok_0.len() == 0 ==> next_element(payload) is None,
        tlv_elements(payload)->Ok_0.len() > 0 ==> match next_element(payload) {
            Some((v, n)) => stands_for(v, tlv_elements(payload)->Ok_0[0]) && tlv_elements(
                payload.skip(n as int),
            ) == Ok::<Seq<Json>, ParseError>(tlv_elements(payload)->Ok_0.skip(1)),
            None => tlv_elements(payload)->Ok_0[0] matches Json::Number(symbols) && number_value(
                symbols,
            ) is Err,
        },
{
    lemma_walk_elements_rule(payload);
    let k = zero_run(payload);
    let trees = tlv_elements(payload)->Ok_0;
    if k < payload.len() {
        let b = payload.skip(k as int);
        let (tree, n) = tlv_value(b)->Ok_0;
        let rest = tlv_elements(payload.skip((k + n) as int))->Ok_0;
        lemma_read_stands_for(b);
        assert(trees[0] == tree);
        assert(trees.skip(1) =~= rest);
    }
}

/// Walking an object yields its tree: where the payload holds members, the
/// next step of a walk hands out the key of the first and a handle for its
/// value and stands in front of the others; where it holds none, the walk
/// has ended. A walk also ends at a number whose symbols spell no number.
pub proof fn lemma_walk_object(payload: Seq<u8>)
    requires
        tlv_members(payload) is Ok,
    ensures
        tlv_members(payload)->Ok_0.len() == 0 ==> next_member(payload) is None,
        tlv_members(payload)->Ok_0.len() > 0 ==> match next_member(payload) {
            Some(((key, v), n)) => key == tlv_members(payload)->Ok_0[0].0 && stands_for(
                v,
                tlv_members(payload)->Ok_0[0].1,
            ) && tlv_members(payload.skip(n as int)) == Ok::<Seq<(Seq<u8>, Json)>, ParseError>(
                tlv_members(payload)->Ok_0.skip(1),
            ),
            None => tlv_members(payload)->Ok_0[0].1 matches Json::Number(symbols) && number_value(
                symbols,
            ) is Err,
        },
{
    lemma_walk_members_rule(payload);
    let k = zero_run(payload);
    let pairs = tlv_members(payload)->Ok_0;
    if k < payload.len() {
        let (key, nk) = string_record(payload.skip(k as int))->Ok_0;
        let start = member_value_start(payload);
        let b = payload.skip(start as int);
        let (tree, n) = tlv_value(b)->Ok_0;
        let rest = tlv_members(payload.skip((start + n) as int))->Ok_0;
        lemma_container_size(payload.skip(k as int), STRING_MASK);
        lemma_run_len_props(payload.skip((k + nk) as int), zero_pred());
        let k2 = zero_run(payload.skip((k + nk) as int));
        assert(payload.skip((k + nk) as int).skip(k2 as int) =~= b);
        lemma_read_stands_for(b);
        assert(pairs[0] == (key, tree));
        assert(pairs.skip(1) =~= rest);
    }
}

/// What reading the root of an encoded value gives: a handle for the tree
/// of the value, unless the value is a number whose symbols spell none.
pub proof fn lemma_root(text: Seq<u8>)
    requires
        json_value(text) is Ok,
    ensures
        match read_value(
            json_value(text)->Ok_0.image.skip(zero_run(json_value(text)->Ok_0.image) as int),
        ) {
            Ok((v, n)) => stands_for(v, json_value(text)->Ok_0.tree),
            Err(e) => json_value(text)->Ok_0.tree matches Json::Number(symbols) && number_value(
                symbols,
            ) == Err::<crate::number::int_or_float::IntOrFloat, ParseError>(e),
        },
{
    lemma_value_holds(text);
    let image = json_value(text)->Ok_0.image;
    lemma_read_stands_for(image.skip(zero_run(image) as int));
}

} // verus!
