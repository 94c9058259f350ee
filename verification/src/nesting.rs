//! Where the values nested in a text stand once the text is encoded.
//!
//! A value keeps its place in the buffer, except that every array or object
//! around it whose length field takes two bytes has moved it one byte to the
//! right.

use vstd::prelude::*;
use crate::ascii::{OPEN_BRACE, OPEN_BRACKET};
use crate::bytesize::{frame, lemma_frame_reads_back};
use crate::grammar::{
    element_start, fits, json_element_link, json_elements, json_elements_from, json_member_link,
    json_members, json_members_from, json_pair, json_value, lemma_array, lemma_element_link,
    lemma_elements, lemma_member_link, lemma_members, lemma_object, lemma_pair, lemma_value,
    member_start, pair_value_start,
};
use crate::mask::{ARRAY_MASK, OBJECT_MASK};
use crate::runs::{lemma_run_len_props, zeros};
use crate::string::json_string;
use crate::ws::{ws_len, ws_pred};

verus! {

/// The `len` bytes of `s` from the offset `at` on.
pub open spec fn part(s: Seq<u8>, at: nat, len: nat) -> Seq<u8> {
    s.subrange(at as int, (at + len) as int)
}

/// The size of the length field for a payload of `len` bytes.
pub open spec fn offset_for(len: nat) -> nat {
    if len <= 15 {
        1
    } else {
        2
    }
}

/// Where in the image of the value at the front of `text` the image of the
/// value stands that the text holds at the offset `s`, whitespace in front
/// of that value included. There is none where reading the text reads no
/// value that begins at `s`.
///
/// The value at the front stands at the front. A value inside an array or an
/// object stands where it stands among the elements or members, behind the
/// whitespace and the length field of the array or object.
pub open spec fn place_value(text: Seq<u8>, s: nat) -> Option<nat>
    decreases text.len(), 3nat,
{
    let w = ws_len(text);
    if s == 0 {
        Some(0)
    } else if w >= text.len() || s <= w {
        None
    } else if text[w as int] == OPEN_BRACKET {
        match json_elements(text.skip(w as int).skip(1)) {
            Err(_) => None,
            Ok(list) => match place_in_elements(
                text.skip(w as int).skip(1),
                true,
                (s - w - 1) as nat,
            ) {
                None => None,
                Some(q) => Some(w + offset_for((list.image.len() - 1) as nat) + q),
            },
        }
    } else if text[w as int] == OPEN_BRACE {
        match json_members(text.skip(w as int).skip(1)) {
            Err(_) => None,
            Ok(list) => match place_in_members(
                text.skip(w as int).skip(1),
                true,
                (s - w - 1) as nat,
            ) {
                None => None,
                Some(q) => Some(w + offset_for((list.image.len() - 1) as nat) + q),
            },
        }
    } else {
        None
    }
}

/// Where in the image of the elements that `t` holds the image of the value
/// stands that `t` holds at the offset `s`: in the next element, or in one
/// of those behind it.
pub open spec fn place_in_elements(t: Seq<u8>, first: bool, s: nat) -> Option<nat>
    decreases t.len(), 5nat,
{
    match json_element_link(t, first) {
        Err(_) => None,
        Ok(link) => {
            let g = element_start(t, first);
            if link.tree is None || !fits(link.image, t) || s < g {
                None
            } else if s < link.image.len() {
                match place_value(t.skip(g as int), (s - g) as nat) {
                    None => None,
                    Some(q) => Some(g + q),
                }
            } else {
                match place_in_elements(
                    t.skip(link.image.len() as int),
                    false,
                    (s - link.image.len()) as nat,
                ) {
                    None => None,
                    Some(q) => Some(link.image.len() + q),
                }
            }
        },
    }
}

/// Where in the image of the members that `t` holds the image of the value
/// stands that `t` holds at the offset `s`: the value of the next member or
/// a value inside it, or one in the members behind it.
pub open spec fn place_in_members(t: Seq<u8>, first: bool, s: nat) -> Option<nat>
    decreases t.len(), 7nat,
{
    match json_member_link(t, first) {
        Err(_) => None,
        Ok(link) => {
            let g = member_start(t, first);
            let v = g + pair_value_start(t.skip(g as int));
            if link.pair is None || !fits(link.image, t) || s < v || g > t.len() {
                None
            } else if s < link.image.len() {
                match place_value(t.skip(v as int), (s - v) as nat) {
                    None => None,
                    Some(q) => Some(v + q),
                }
            } else {
                match place_in_members(
                    t.skip(link.image.len() as int),
                    false,
                    (s - link.image.len()) as nat,
                ) {
                    None => None,
                    Some(q) => Some(link.image.len() + q),
                }
            }
        },
    }
}

/// The image of a value that is nested in a text stands, byte for byte, in
/// the image of the whole, at its place.
pub proof fn lemma_place_value(text: Seq<u8>, s: nat)
    requires
        json_value(text) is Ok,
        place_value(text, s) is Some,
    ensures
        s <= text.len(),
        json_value(text.skip(s as int)) is Ok,
        s <= place_value(text, s)->0,
        place_value(text, s)->0 + json_value(text.skip(s as int))->Ok_0.image.len() <= json_value(
            text,
        )->Ok_0.image.len(),
        part(
            json_value(text)->Ok_0.image,
            place_value(text, s)->0,
            json_value(text.skip(s as int))->Ok_0.image.len(),
        ) == json_value(text.skip(s as int))->Ok_0.image,
    decreases text.len(), 3nat,
{
    let root = json_value(text)->Ok_0;
    if s == 0 {
        assert(text.skip(0) =~= text);
        assert(part(root.image, 0, root.image.len()) =~= root.image);
    } else {
        let w = ws_len(text);
        lemma_value(text);
        lemma_run_len_props(text, ws_pred());
        let inner = text.skip(w as int);
        let t = inner.skip(1);
        let inside = (s - w - 1) as nat;
        assert(inner[0] == text[w as int]);
        lemma_array(inner);
        lemma_object(inner);
        if text[w as int] == OPEN_BRACKET {
            lemma_place_in_elements(t, true, inside);
        } else {
            lemma_place_in_members(t, true, inside);
        }
        assert(t.skip(inside as int) =~= text.skip(s as int));
        let n = json_value(text.skip(s as int))->Ok_0.image.len();
        if text[w as int] == OPEN_BRACKET {
            let list = json_elements(t)->Ok_0;
            lemma_framed_body(
                ARRAY_MASK,
                list.image,
                w,
                place_in_elements(t, true, inside)->0,
                n,
            );
        } else {
            let list = json_members(t)->Ok_0;
            lemma_framed_body(
                OBJECT_MASK,
                list.image,
                w,
                place_in_members(t, true, inside)->0,
                n,
            );
        }
    }
}

/// The body of an array or an object stands in its record behind the length
/// field, and in the image of the value behind the whitespace too.
proof fn lemma_framed_body(tag: u8, body: Seq<u8>, w: nat, q: nat, n: nat)
    requires
        tag == ARRAY_MASK || tag == OBJECT_MASK,
        1 <= body.len() <= 2048,
        q + n < body.len(),
    ensures
        (zeros(w) + frame(tag, (body.len() - 1) as nat, body.drop_last())).len() == w + body.len()
            + 1,
        part(
            zeros(w) + frame(tag, (body.len() - 1) as nat, body.drop_last()),
            w + offset_for((body.len() - 1) as nat) + q,
            n,
        ) == part(body, q, n),
{
    let area = body.drop_last();
    let f = frame(tag, area.len(), area);
    let off = offset_for(area.len());
    lemma_frame_reads_back(tag, area, Seq::empty());
    let whole = part(f, off, area.len());
    assert(whole == area);
    let left = part(zeros(w) + f, w + off + q, n);
    let right = part(body, q, n);
    assert forall|i: int| 0 <= i < n implies left[i] == right[i] by {
        assert((zeros(w) + f)[w + off + q + i] == f[off + q + i]);
        assert(whole[q + i] == f[off + q + i]);
        assert(area[q + i] == body[q + i]);
    }
    assert(left =~= right);
}

/// The image of a value that is nested in the elements of an array stands,
/// byte for byte, in the image of the elements, in front of its last byte.
pub proof fn lemma_place_in_elements(t: Seq<u8>, first: bool, s: nat)
    requires
        json_elements_from(t, first) is Ok,
        place_in_elements(t, first, s) is Some,
    ensures
        s <= t.len(),
        json_value(t.skip(s as int)) is Ok,
        s <= place_in_elements(t, first, s)->0,
        place_in_elements(t, first, s)->0 + json_value(t.skip(s as int))->Ok_0.image.len()
            < json_elements_from(t, first)->Ok_0.image.len(),
        part(
            json_elements_from(t, first)->Ok_0.image,
            place_in_elements(t, first, s)->0,
            json_value(t.skip(s as int))->Ok_0.image.len(),
        ) == json_value(t.skip(s as int))->Ok_0.image,
    decreases t.len(), 5nat,
{
    lemma_elements(t, first);
    lemma_element_link(t, first);
    let list = json_elements_from(t, first)->Ok_0;
    let link = json_element_link(t, first)->Ok_0;
    let g = element_start(t, first);
    let rest_text = t.skip(link.image.len() as int);
    let rest = json_elements_from(rest_text, false)->Ok_0;
    lemma_elements(rest_text, false);
    lemma_element_link(rest_text, false);
    assert(rest.image.len() >= 1);
    if s < link.image.len() {
        let token = json_value(t.skip(g as int))->Ok_0;
        lemma_place_value(t.skip(g as int), (s - g) as nat);
        let q = place_value(t.skip(g as int), (s - g) as nat)->0;
        assert(t.skip(g as int).skip(s - g) =~= t.skip(s as int));
        let u = json_value(t.skip(s as int))->Ok_0;
        assert(part(list.image, g + q, u.image.len()) =~= part(token.image, q, u.image.len()));
    } else {
        let inside = (s - link.image.len()) as nat;
        lemma_place_in_elements(rest_text, false, inside);
        let q = place_in_elements(rest_text, false, inside)->0;
        assert(rest_text.skip(inside as int) =~= t.skip(s as int));
        let u = json_value(t.skip(s as int))->Ok_0;
        assert(part(list.image, link.image.len() + q, u.image.len()) =~= part(
            rest.image,
            q,
            u.image.len(),
        ));
    }
}

/// The image of a member ends with the image of its value, which begins
/// where the value begins in the text of the member.
proof fn lemma_value_in_pair(pair_text: Seq<u8>)
    requires
        json_pair(pair_text) is Ok,
    ensures
        0 < pair_value_start(pair_text) <= pair_text.len(),
        json_value(pair_text.skip(pair_value_start(pair_text) as int)) is Ok,
        json_pair(pair_text)->Ok_0.image.len() == pair_value_start(pair_text) + json_value(
            pair_text.skip(pair_value_start(pair_text) as int),
        )->Ok_0.image.len(),
        forall|i: int|
            0 <= i < json_value(
                pair_text.skip(pair_value_start(pair_text) as int),
            )->Ok_0.image.len() ==> json_pair(pair_text)->Ok_0.image[pair_value_start(pair_text)
                + i] == #[trigger] json_value(
                pair_text.skip(pair_value_start(pair_text) as int),
            )->Ok_0.image[i],
{
    lemma_pair(pair_text);
    let key = json_string(pair_text)->Ok_0;
    let s1 = pair_text.skip(key.image.len() as int);
    lemma_run_len_props(s1, ws_pred());
}

/// The image of a value that is nested in the members of an object stands,
/// byte for byte, in the image of the members, in front of its last byte.
pub proof fn lemma_place_in_members(t: Seq<u8>, first: bool, s: nat)
    requires
        json_members_from(t, first) is Ok,
        place_in_members(t, first, s) is Some,
    ensures
        s <= t.len(),
        json_value(t.skip(s as int)) is Ok,
        s <= place_in_members(t, first, s)->0,
        place_in_members(t, first, s)->0 + json_value(t.skip(s as int))->Ok_0.image.len()
            < json_members_from(t, first)->Ok_0.image.len(),
        part(
            json_members_from(t, first)->Ok_0.image,
            place_in_members(t, first, s)->0,
            json_value(t.skip(s as int))->Ok_0.image.len(),
        ) == json_value(t.skip(s as int))->Ok_0.image,
    decreases t.len(), 7nat,
{
    lemma_members(t, first);
    lemma_member_link(t, first);
    let list = json_members_from(t, first)->Ok_0;
    let link = json_member_link(t, first)->Ok_0;
    let g = member_start(t, first);
    let rest_text = t.skip(link.image.len() as int);
    let rest = json_members_from(rest_text, false)->Ok_0;
    lemma_members(rest_text, false);
    lemma_member_link(rest_text, false);
    assert(rest.image.len() >= 1);
    if s < link.image.len() {
        let pair_text = t.skip(g as int);
        let m = json_pair(pair_text)->Ok_0;
        lemma_value_in_pair(pair_text);
        let start = pair_value_start(pair_text);
        let v = g + start;
        assert(pair_text.skip(start as int) =~= t.skip(v as int));
        let token = json_value(t.skip(v as int))->Ok_0;
        lemma_place_value(t.skip(v as int), (s - v) as nat);
        let q = place_value(t.skip(v as int), (s - v) as nat)->0;
        assert(t.skip(v as int).skip(s - v) =~= t.skip(s as int));
        let u = json_value(t.skip(s as int))->Ok_0;
        let left = part(list.image, v + q, u.image.len());
        let right = part(token.image, q, u.image.len());
        assert forall|i: int| 0 <= i < u.image.len() implies left[i] == right[i] by {
            assert(list.image[v + q + i] == link.image[v + q + i]);
            assert(link.image[v + q + i] == m.image[start + q + i]);
            assert(m.image[start + q + i] == token.image[q + i]);
        }
        assert(left =~= right);
    } else {
        let inside = (s - link.image.len()) as nat;
        lemma_place_in_members(rest_text, false, inside);
        let q = place_in_members(rest_text, false, inside)->0;
        assert(rest_text.skip(inside as int) =~= t.skip(s as int));
        let u = json_value(t.skip(s as int))->Ok_0;
        assert(part(list.image, link.image.len() + q, u.image.len()) =~= part(
            rest.image,
            q,
            u.image.len(),
        ));
    }
}

} // verus!
