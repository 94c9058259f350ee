//! The grammar of the text, and for each piece of it the bytes that encoding
//! puts in its place.
//!
//! The functions that read nested values are defined in terms of one
//! another. Each of them is a plain rule applied to what the nested readers
//! give, and a lemma states it in that form.

use vstd::prelude::*;
use crate::ascii::{
    CLOSE_BRACE, CLOSE_BRACKET, COLON, COMMA, LOWER_F, LOWER_N, LOWER_T, OPEN_BRACE, OPEN_BRACKET,
    QUOTE,
};
use crate::bytesize::{frame, MAX_BYTESIZE};
use crate::error::{fatal, ParseError};
use crate::json::{padded, Json, Token};
use crate::mask::{ARRAY_MASK, OBJECT_MASK};
use crate::number::header_byte::is_number_start;
use crate::number::json_number;
use crate::runs::zeros;
use crate::string::{json_string, lemma_unescape_shrinks};
use crate::true_false_null::json_scalar;
use crate::ws::ws_len;

verus! {

/// The elements of an array from some point on, with the image of their text
/// up to the closing bracket, which the image turns into padding.
pub struct Elements {
    pub trees: Seq<Json>,
    pub image: Seq<u8>,
}

/// One step through the text of an array: the next element with the image of
/// its text and of what separates it from the one before, or no element and
/// the image of the text up to the closing bracket.
pub struct ElementLink {
    pub tree: Option<Json>,
    pub image: Seq<u8>,
}

/// The members of an object from some point on, with the image of their text
/// up to the closing brace, which the image turns into padding.
pub struct Members {
    pub pairs: Seq<(Seq<u8>, Json)>,
    pub image: Seq<u8>,
}

/// A member of an object, with the image of its text.
pub struct Member {
    pub key: Seq<u8>,
    pub tree: Json,
    pub image: Seq<u8>,
}

/// One step through the text of an object: the next member with the image of
/// its text and of what separates it from the one before, or no member and
/// the image of the text up to the closing brace.
pub struct MemberLink {
    pub pair: Option<(Seq<u8>, Json)>,
    pub image: Seq<u8>,
}

/// Whether the image takes at least one byte and no more than `s` has.
pub open spec fn fits(image: Seq<u8>, s: Seq<u8>) -> bool {
    0 < image.len() <= s.len()
}

/// The record of an array or an object whose text between the opening
/// delimiter and the end of the closing one has the image `body`. The payload
/// is the body without its last byte, where the closing delimiter stood.
pub open spec fn container_token(tag: u8, tree: Json, body: Seq<u8>) -> Result<Token, ParseError> {
    if body.len() - 1 > MAX_BYTESIZE {
        Err(ParseError::Overflow)
    } else {
        Ok(Token { tree, image: frame(tag, (body.len() - 1) as nat, body.drop_last()) })
    }
}

/// The value at the front of `s`, given what an object and an array at the
/// first byte behind the whitespace read as. That byte decides which kind of
/// value is read; the whitespace becomes padding in front of the record.
pub open spec fn value_rule(
    s: Seq<u8>,
    object: Result<Token, ParseError>,
    array: Result<Token, ParseError>,
) -> Result<Token, ParseError> {
    let w = ws_len(s);
    if w >= s.len() {
        Err(ParseError::NotMatched)
    } else {
        let t = s.skip(w as int);
        let c = s[w as int];
        let inner = if c == OPEN_BRACE {
            object
        } else if c == OPEN_BRACKET {
            array
        } else if c == QUOTE {
            json_string(t)
        } else if is_number_start(c) {
            json_number(t)
        } else if c == LOWER_T || c == LOWER_F || c == LOWER_N {
            json_scalar(t)
        } else {
            Err(ParseError::NotMatched)
        };
        match inner {
            Ok(token) => Ok(padded(w, token)),
            Err(e) => Err(e),
        }
    }
}

/// The array at the front of `s`, given its elements.
pub open spec fn array_rule(s: Seq<u8>, elements: Result<Elements, ParseError>) -> Result<
    Token,
    ParseError,
> {
    if s.len() == 0 || s[0] != OPEN_BRACKET {
        Err(ParseError::NotMatched)
    } else {
        match elements {
            Err(e) => Err(e),
            Ok(list) => container_token(ARRAY_MASK, Json::Array(list.trees), list.image),
        }
    }
}

/// The object at the front of `s`, given its members.
pub open spec fn object_rule(s: Seq<u8>, members: Result<Members, ParseError>) -> Result<
    Token,
    ParseError,
> {
    if s.len() == 0 || s[0] != OPEN_BRACE {
        Err(ParseError::NotMatched)
    } else {
        match members {
            Err(e) => Err(e),
            Ok(list) => container_token(OBJECT_MASK, Json::Object(list.pairs), list.image),
        }
    }
}

/// Where the next element of an array begins in `s`, if one does: behind the
/// whitespace for the first, behind whitespace and a comma for the others.
pub open spec fn element_start(s: Seq<u8>, first: bool) -> nat {
    if first {
        ws_len(s)
    } else {
        ws_len(s) + 1
    }
}

/// The next step through the text `s` of an array, given the value that
/// stands where an element would begin. Behind whitespace stands the closing
/// bracket, or an element, which any but the first has a comma in front of.
pub open spec fn element_link_rule(
    s: Seq<u8>,
    first: bool,
    value: Result<Token, ParseError>,
) -> Result<ElementLink, ParseError> {
    let w = ws_len(s);
    if w >= s.len() {
        Err(ParseError::Malformed)
    } else if s[w as int] == CLOSE_BRACKET {
        Ok(ElementLink { tree: None, image: zeros(w + 1) })
    } else if first || s[w as int] == COMMA {
        match value {
            Err(e) => Err(fatal(e)),
            Ok(token) => Ok(
                ElementLink {
                    tree: Some(token.tree),
                    image: zeros(element_start(s, first)) + token.image,
                },
            ),
        }
    } else {
        Err(ParseError::Malformed)
    }
}

/// The elements from the text `s` on, given the next step and the elements
/// behind it.
pub open spec fn elements_rule(
    s: Seq<u8>,
    link: Result<ElementLink, ParseError>,
    rest: Result<Elements, ParseError>,
) -> Result<Elements, ParseError> {
    match link {
        Err(e) => Err(e),
        Ok(link) => match link.tree {
            None => Ok(Elements { trees: Seq::empty(), image: link.image }),
            Some(tree) => if !fits(link.image, s) {
                Err(ParseError::Malformed)
            } else {
                match rest {
                    Err(e) => Err(e),
                    Ok(rest) => Ok(
                        Elements {
                            trees: seq![tree] + rest.trees,
                            image: link.image + rest.image,
                        },
                    ),
                }
            },
        },
    }
}

/// The member at the front of `s`, given the value behind its colon: a
/// string, a colon and a value, with whitespace between them as it comes.
pub open spec fn pair_rule(s: Seq<u8>, value: Result<Token, ParseError>) -> Result<
    Member,
    ParseError,
> {
    match json_string(s) {
        Err(e) => Err(fatal(e)),
        Ok(key) => if !fits(key.image, s) {
            Err(ParseError::Malformed)
        } else {
            let s1 = s.skip(key.image.len() as int);
            let w = ws_len(s1);
            if w >= s1.len() || s1[w as int] != COLON {
                Err(ParseError::Malformed)
            } else {
                match value {
                    Err(e) => Err(fatal(e)),
                    Ok(value) => Ok(
                        Member {
                            key: key.tree->String_0,
                            tree: value.tree,
                            image: key.image + zeros(w + 1) + value.image,
                        },
                    ),
                }
            }
        },
    }
}

/// Where the value of the member at the front of `s` begins, whitespace
/// included: behind the key and the colon.
pub open spec fn pair_value_start(s: Seq<u8>) -> nat {
    match json_string(s) {
        Ok(key) => key.image.len() + ws_len(s.skip(key.image.len() as int)) + 1,
        Err(_) => 0,
    }
}

/// Where the next member of an object begins in `s`, if one does: behind the
/// whitespace for the first, behind whitespace, a comma and more whitespace
/// for the others.
pub open spec fn member_start(s: Seq<u8>, first: bool) -> nat {
    if first {
        ws_len(s)
    } else {
        ws_len(s) + 1 + ws_len(s.skip((ws_len(s) + 1) as int))
    }
}

/// The next step through the text `s` of an object, given the member that
/// stands where one would begin. Behind whitespace stands the closing brace,
/// or a member, which any but the first has a comma in front of.
pub open spec fn member_link_rule(
    s: Seq<u8>,
    first: bool,
    member: Result<Member, ParseError>,
) -> Result<MemberLink, ParseError> {
    let w = ws_len(s);
    if w >= s.len() {
        Err(ParseError::Malformed)
    } else if s[w as int] == CLOSE_BRACE {
        Ok(MemberLink { pair: None, image: zeros(w + 1) })
    } else if first || s[w as int] == COMMA {
        if member_start(s, first) >= s.len() {
            Err(ParseError::Malformed)
        } else {
            match member {
                Err(e) => Err(e),
                Ok(m) => Ok(
                    MemberLink {
                        pair: Some((m.key, m.tree)),
                        image: zeros(member_start(s, first)) + m.image,
                    },
                ),
            }
        }
    } else {
        Err(ParseError::Malformed)
    }
}

/// The members from the text `s` on, given the next step and the members
/// behind it.
pub open spec fn members_rule(
    s: Seq<u8>,
    link: Result<MemberLink, ParseError>,
    rest: Result<Members, ParseError>,
) -> Result<Members, ParseError> {
    match link {
        Err(e) => Err(e),
        Ok(link) => match link.pair {
            None => Ok(Members { pairs: Seq::empty(), image: link.image }),
            Some(pair) => if !fits(link.image, s) {
                Err(ParseError::Malformed)
            } else {
                match rest {
                    Err(e) => Err(e),
                    Ok(rest) => Ok(
                        Members { pairs: seq![pair] + rest.pairs, image: link.image + rest.image },
                    ),
                }
            },
        },
    }
}

/// The value at the front of `s`, behind any whitespace.
#[verifier::opaque]
pub open spec fn json_value(s: Seq<u8>) -> Result<Token, ParseError>
    decreases s.len(), 3nat,
{
    let w = ws_len(s);
    if w >= s.len() {
        Err(ParseError::NotMatched)
    } else {
        value_rule(s, json_object(s.skip(w as int)), json_array(s.skip(w as int)))
    }
}

/// The array at the front of `s`.
#[verifier::opaque]
pub open spec fn json_array(s: Seq<u8>) -> Result<Token, ParseError>
    decreases s.len(), 2nat,
{
    if s.len() == 0 {
        Err(ParseError::NotMatched)
    } else {
        array_rule(s, json_elements_from(s.skip(1), true))
    }
}

/// The object at the front of `s`.
#[verifier::opaque]
pub open spec fn json_object(s: Seq<u8>) -> Result<Token, ParseError>
    decreases s.len(), 2nat,
{
    if s.len() == 0 {
        Err(ParseError::NotMatched)
    } else {
        object_rule(s, json_members_from(s.skip(1), true))
    }
}

/// The next step through the text `s` of an array.
#[verifier::opaque]
pub open spec fn json_element_link(s: Seq<u8>, first: bool) -> Result<ElementLink, ParseError>
    decreases s.len(), 4nat,
{
    if element_start(s, first) > s.len() || ws_len(s) >= s.len() {
        Err(ParseError::Malformed)
    } else {
        element_link_rule(s, first, json_value(s.skip(element_start(s, first) as int)))
    }
}

/// The elements of an array from the text `s` on, which is at the first
/// element or behind an element, up to the closing bracket.
#[verifier::opaque]
pub open spec fn json_elements_from(s: Seq<u8>, first: bool) -> Result<Elements, ParseError>
    decreases s.len(), 5nat,
{
    let link = json_element_link(s, first);
    elements_rule(
        s,
        link,
        if link is Ok && fits(link->Ok_0.image, s) {
            json_elements_from(s.skip(link->Ok_0.image.len() as int), false)
        } else {
            Err(ParseError::Malformed)
        },
    )
}

/// The member at the front of `s`.
#[verifier::opaque]
pub open spec fn json_pair(s: Seq<u8>) -> Result<Member, ParseError>
    decreases s.len(), 5nat,
{
    if 0 < pair_value_start(s) <= s.len() {
        pair_rule(s, json_value(s.skip(pair_value_start(s) as int)))
    } else {
        pair_rule(s, Err(ParseError::Malformed))
    }
}

/// The next step through the text `s` of an object.
#[verifier::opaque]
pub open spec fn json_member_link(s: Seq<u8>, first: bool) -> Result<MemberLink, ParseError>
    decreases s.len(), 6nat,
{
    if member_start(s, first) < s.len() {
        member_link_rule(s, first, json_pair(s.skip(member_start(s, first) as int)))
    } else {
        member_link_rule(s, first, Err(ParseError::Malformed))
    }
}

/// The members of an object from the text `s` on, which is at the first
/// member or behind a member, up to the closing brace.
#[verifier::opaque]
pub open spec fn json_members_from(s: Seq<u8>, first: bool) -> Result<Members, ParseError>
    decreases s.len(), 7nat,
{
    let link = json_member_link(s, first);
    members_rule(
        s,
        link,
        if link is Ok && fits(link->Ok_0.image, s) {
            json_members_from(s.skip(link->Ok_0.image.len() as int), false)
        } else {
            Err(ParseError::Malformed)
        },
    )
}

/// The elements of the array whose text behind the opening bracket is `s`.
pub open spec fn json_elements(s: Seq<u8>) -> Result<Elements, ParseError> {
    json_elements_from(s, true)
}

/// The members of the object whose text behind the opening brace is `s`.
pub open spec fn json_members(s: Seq<u8>) -> Result<Members, ParseError> {
    json_members_from(s, true)
}

/// The image of an element, or why there is none: where a value is owed, its
/// absence breaks the grammar.
pub open spec fn element_image(outcome: Result<Token, ParseError>) -> Result<Seq<u8>, ParseError> {
    match outcome {
        Ok(t) => Ok(t.image),
        Err(e) => Err(fatal(e)),
    }
}

/// The image of a member, or why there is none.
pub open spec fn pair_image(outcome: Result<Member, ParseError>) -> Result<Seq<u8>, ParseError> {
    match outcome {
        Ok(m) => Ok(m.image),
        Err(e) => Err(e),
    }
}

/// The image of a list of elements, or why there is none.
pub open spec fn elements_image(outcome: Result<Elements, ParseError>) -> Result<
    Seq<u8>,
    ParseError,
> {
    match outcome {
        Ok(list) => Ok(list.image),
        Err(e) => Err(e),
    }
}

/// The image of a list of members, or why there is none.
pub open spec fn members_image(outcome: Result<Members, ParseError>) -> Result<
    Seq<u8>,
    ParseError,
> {
    match outcome {
        Ok(list) => Ok(list.image),
        Err(e) => Err(e),
    }
}

/// A value is what its rule makes of the object and the array behind the
/// whitespace.
pub proof fn lemma_value(s: Seq<u8>)
    ensures
        json_value(s) == value_rule(
            s,
            json_object(s.skip(ws_len(s) as int)),
            json_array(s.skip(ws_len(s) as int)),
        ),
{
    reveal(json_value);
    reveal(json_object);
    reveal(json_array);
}

/// An array is what its rule makes of the elements behind the bracket.
pub proof fn lemma_array(s: Seq<u8>)
    ensures
        json_array(s) == array_rule(s, json_elements(s.skip(1))),
{
    reveal(json_array);
    reveal(json_elements_from);
}

/// An object is what its rule makes of the members behind the brace.
pub proof fn lemma_object(s: Seq<u8>)
    ensures
        json_object(s) == object_rule(s, json_members(s.skip(1))),
{
    reveal(json_object);
    reveal(json_members_from);
}

/// A step through an array is what its rule makes of the value where an
/// element would begin.
pub proof fn lemma_element_link(s: Seq<u8>, first: bool)
    ensures
        json_element_link(s, first) == element_link_rule(
            s,
            first,
            json_value(s.skip(element_start(s, first) as int)),
        ),
{
    reveal(json_element_link);
    reveal(json_value);
    crate::runs::lemma_run_len_props(s, crate::ws::ws_pred());
}

/// The elements from some point on are what their rule makes of the next
/// step and the elements behind it.
pub proof fn lemma_elements(s: Seq<u8>, first: bool)
    ensures
        json_elements_from(s, first) == elements_rule(
            s,
            json_element_link(s, first),
            json_elements_from(s.skip(json_element_link(s, first)->Ok_0.image.len() as int), false),
        ),
{
    reveal(json_elements_from);
    reveal(json_element_link);
}

/// A member is what its rule makes of the value behind its colon.
pub proof fn lemma_pair(s: Seq<u8>)
    ensures
        json_pair(s) == pair_rule(s, json_value(s.skip(pair_value_start(s) as int))),
{
    reveal(json_pair);
    reveal(json_value);
    if let Ok(key) = json_string(s) {
        if fits(key.image, s) {
            let s1 = s.skip(key.image.len() as int);
            crate::runs::lemma_run_len_props(s1, crate::ws::ws_pred());
        }
    }
}

/// A step through an object is what its rule makes of the member where one
/// would begin.
pub proof fn lemma_member_link(s: Seq<u8>, first: bool)
    ensures
        json_member_link(s, first) == member_link_rule(
            s,
            first,
            json_pair(s.skip(member_start(s, first) as int)),
        ),
{
    reveal(json_member_link);
    reveal(json_pair);
}

/// The members from some point on are what their rule makes of the next step
/// and the members behind it.
pub proof fn lemma_members(s: Seq<u8>, first: bool)
    ensures
        json_members_from(s, first) == members_rule(
            s,
            json_member_link(s, first),
            json_members_from(s.skip(json_member_link(s, first)->Ok_0.image.len() as int), false),
        ),
{
    reveal(json_members_from);
    reveal(json_member_link);
}

/// A list that fails is never told to be no list at all.
pub proof fn lemma_lists_never_unmatched(s: Seq<u8>, first: bool)
    ensures
        json_elements_from(s, first) != Err::<Elements, ParseError>(ParseError::NotMatched),
        json_members_from(s, first) != Err::<Members, ParseError>(ParseError::NotMatched),
    decreases s.len(),
{
    lemma_elements(s, first);
    lemma_members(s, first);
    lemma_element_link(s, first);
    lemma_member_link(s, first);
    lemma_pair(s.skip(member_start(s, first) as int));
    if let Ok(link) = json_element_link(s, first) {
        if link.tree is Some && fits(link.image, s) {
            lemma_lists_never_unmatched(s.skip(link.image.len() as int), false);
        }
    }
    if let Ok(link) = json_member_link(s, first) {
        if link.pair is Some && fits(link.image, s) {
            lemma_lists_never_unmatched(s.skip(link.image.len() as int), false);
        }
    }
}

/// A string takes at least its two quotes.
pub proof fn lemma_string_takes_bytes(s: Seq<u8>)
    ensures
        json_string(s) matches Ok(t) ==> t.image.len() >= 2,
{
    reveal(json_string);
    if s.len() > 0 {
        lemma_unescape_shrinks(s.skip(1));
    }
}

/// An array and an object take at least their two delimiters.
pub proof fn lemma_container_takes_bytes(s: Seq<u8>)
    ensures
        json_array(s) matches Ok(t) ==> t.image.len() >= 2,
        json_object(s) matches Ok(t) ==> t.image.len() >= 2,
{
    lemma_array(s);
    lemma_object(s);
}

/// A number takes at least one byte, a keyword at least four.
pub proof fn lemma_leaf_takes_bytes(s: Seq<u8>)
    ensures
        json_number(s) matches Ok(t) ==> t.image.len() >= 1,
        json_scalar(s) matches Ok(t) ==> t.image.len() >= 4,
{
    reveal(json_number);
    reveal(json_scalar);
}

/// Every value takes at least one byte behind the whitespace in front of it.
pub proof fn lemma_value_takes_bytes(s: Seq<u8>)
    ensures
        json_value(s) matches Ok(t) ==> t.image.len() > ws_len(s),
{
    lemma_value(s);
    let w = ws_len(s);
    if w < s.len() {
        let t = s.skip(w as int);
        lemma_string_takes_bytes(t);
        lemma_container_takes_bytes(t);
        lemma_leaf_takes_bytes(t);
    }
}

/// A keyword, a number and a string take no more bytes than the text has.
pub proof fn lemma_leaf_fits(s: Seq<u8>)
    ensures
        json_scalar(s) matches Ok(t) ==> t.image.len() <= s.len(),
        json_number(s) matches Ok(t) ==> t.image.len() <= s.len(),
        json_string(s) matches Ok(t) ==> fits(t.image, s),
{
    reveal(json_scalar);
    reveal(json_number);
    reveal(json_string);
    crate::runs::lemma_run_len_props(s, crate::number::number_pred());
    if s.len() > 0 {
        lemma_unescape_shrinks(s.skip(1));
    }
}

/// No value takes more bytes than the text has.
pub proof fn lemma_value_fits(s: Seq<u8>)
    ensures
        json_value(s) matches Ok(t) ==> fits(t.image, s),
    decreases s.len(), 3nat,
{
    lemma_value(s);
    lemma_value_takes_bytes(s);
    if json_value(s) is Ok {
        let w = ws_len(s);
        crate::runs::lemma_run_len_props(s, crate::ws::ws_pred());
        let inner = s.skip(w as int);
        lemma_leaf_fits(inner);
        lemma_array_fits(inner);
        lemma_object_fits(inner);
    }
}

/// No array takes more bytes than the text has.
pub proof fn lemma_array_fits(s: Seq<u8>)
    ensures
        json_array(s) matches Ok(t) ==> fits(t.image, s),
    decreases s.len(), 2nat,
{
    lemma_array(s);
    if json_array(s) is Ok {
        lemma_elements_fit(s.skip(1), true);
    }
}

/// No object takes more bytes than the text has.
pub proof fn lemma_object_fits(s: Seq<u8>)
    ensures
        json_object(s) matches Ok(t) ==> fits(t.image, s),
    decreases s.len(), 2nat,
{
    lemma_object(s);
    if json_object(s) is Ok {
        lemma_members_fit(s.skip(1), true);
    }
}

/// No step through an array and no list of elements takes more bytes than
/// the text has.
pub proof fn lemma_elements_fit(s: Seq<u8>, first: bool)
    ensures
        json_element_link(s, first) matches Ok(link) ==> fits(link.image, s),
        json_elements_from(s, first) matches Ok(list) ==> fits(list.image, s),
    decreases s.len(), 5nat,
{
    lemma_elements(s, first);
    lemma_element_link(s, first);
    crate::runs::lemma_run_len_props(s, crate::ws::ws_pred());
    if let Ok(link) = json_element_link(s, first) {
        if link.tree is Some {
            lemma_value_fits(s.skip(element_start(s, first) as int));
            if json_elements_from(s, first) is Ok {
                lemma_elements_fit(s.skip(link.image.len() as int), false);
            }
        }
    }
}

/// No member takes more bytes than the text has.
pub proof fn lemma_pair_fits(s: Seq<u8>)
    ensures
        json_pair(s) matches Ok(m) ==> fits(m.image, s),
    decreases s.len(), 4nat,
{
    lemma_pair(s);
    lemma_leaf_fits(s);
    if let Ok(m) = json_pair(s) {
        let key = json_string(s)->Ok_0;
        let s1 = s.skip(key.image.len() as int);
        crate::runs::lemma_run_len_props(s1, crate::ws::ws_pred());
        let value_text = s.skip(pair_value_start(s) as int);
        lemma_value_fits(value_text);
    }
}

/// No step through an object and no list of members takes more bytes than
/// the text has.
pub proof fn lemma_members_fit(s: Seq<u8>, first: bool)
    ensures
        json_member_link(s, first) matches Ok(link) ==> fits(link.image, s),
        json_members_from(s, first) matches Ok(list) ==> fits(list.image, s),
    decreases s.len(), 7nat,
{
    lemma_members(s, first);
    lemma_member_link(s, first);
    crate::runs::lemma_run_len_props(s, crate::ws::ws_pred());
    if let Ok(link) = json_member_link(s, first) {
        if link.pair is Some {
            let w = ws_len(s);
            if !first {
                crate::runs::lemma_run_len_props(
                    s.skip((w + 1) as int),
                    crate::ws::ws_pred(),
                );
            }
            lemma_pair_fits(s.skip(member_start(s, first) as int));
            if json_members_from(s, first) is Ok {
                lemma_members_fit(s.skip(link.image.len() as int), false);
            }
        }
    }
}

} // verus!
