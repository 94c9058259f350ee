use vstd::prelude::*;
use crate::ascii::{CLOSE_BRACE, COLON, COMMA, OPEN_BRACE};
use crate::bytesize::MAX_BYTESIZE;
use crate::error::{make_fatal, ParseError};
use crate::grammar::{
    json_member_link, json_members, json_members_from, json_object, json_pair, json_value,
    lemma_lists_never_unmatched, lemma_member_link, lemma_members, lemma_object, lemma_pair,
    lemma_string_takes_bytes, member_start, members_image, pair_image, pair_value_start,
};
use crate::json::{image_of, lemma_prefixed_twice, prefixed, rewritten, splice};
use crate::mask::OBJECT_MASK;
use crate::runs::zeros;
use crate::string::{json_string, String};
use crate::tlv::{
    bitmix_consume_byte, container_record, decode_container, lemma_container_image, write_frame,
};
use crate::value::Value;
use crate::ws::{skip_ws, ws_len};

verus! {

/// An object in its encoded form: the payload of its record.
#[derive(Debug, Clone, Copy)]
pub struct Object<'a> {
    pub data: &'a [u8],
}

/// The object record at the front of `b`: its payload and its size.
pub open spec fn object_record(b: Seq<u8>) -> Result<(Seq<u8>, nat), ParseError> {
    container_record(b, OBJECT_MASK)
}

/// Rewrites the member at the cursor: its key, the colon and its value.
pub fn bitmix_pair(data: &mut [u8], pos: &mut usize) -> (r: Result<(), ParseError>)
    requires
        *old(pos) <= old(data)@.len(),
    ensures
        rewritten(
            old(data)@,
            *old(pos) as int,
            pair_image(json_pair(old(data)@.skip(*old(pos) as int))),
            r,
            final(data)@,
            *final(pos) as int,
        ),
        r is Ok ==> *final(pos) > *old(pos),
    decreases old(data)@.len() - *old(pos), 5nat,
{
    let ghost d0 = data@;
    let ghost origin = *pos;
    let ghost s = d0.skip(origin as int);
    proof {
        lemma_pair(s);
    }
    match String::bitmix_to_tlv(data, pos) {
        Err(e) => {
            return Err(make_fatal(e));
        },
        Ok(()) => {},
    }
    let ghost key = json_string(s)->Ok_0;
    let ghost d1 = data@;
    let ghost cursor_a = *pos;
    let ghost s1 = s.skip(key.image.len() as int);
    let ghost w = ws_len(s1);
    proof {
        lemma_string_takes_bytes(s);
        assert(d1.skip(cursor_a as int) =~= s1);
    }
    skip_ws(data, pos);
    let ghost d2 = data@;
    let ghost cursor_b = *pos;
    proof {
        if cursor_b < d0.len() {
            assert(s1[w as int] == d0[cursor_b as int]);
            assert(d2[cursor_b as int] == d0[cursor_b as int]);
        }
    }
    if !bitmix_consume_byte::<COLON>(data, pos) {
        return Err(ParseError::Malformed);
    }
    let ghost d3 = data@;
    let ghost cursor_c = *pos;
    proof {
        assert(cursor_c - origin == pair_value_start(s));
        assert(s1.skip((w + 1) as int) =~= s.skip(pair_value_start(s) as int));
        assert(d3.skip(cursor_c as int) =~= s1.skip((w + 1) as int));
        assert(d3 =~= splice(d0, origin as int, key.image + zeros(w + 1)));
    }
    match Value::bitmix_to_tlv(data, pos) {
        Err(e) => Err(make_fatal(e)),
        Ok(()) => {
            proof {
                let value = json_value(s1.skip((w + 1) as int))->Ok_0;
                assert(data@ =~= splice(
                    d0,
                    origin as int,
                    key.image + zeros(w + 1) + value.image,
                ));
            }
            Ok(())
        },
    }
}

/// Takes one step through the text of an object: rewrites what stands at the
/// cursor up to the end of the next member, and says whether there was one,
/// or that the closing brace came.
pub fn bitmix_next_pair(data: &mut [u8], pos: &mut usize, first: bool) -> (r: Result<
    bool,
    ParseError,
>)
    requires
        *old(pos) <= old(data)@.len(),
    ensures
        final(data)@.len() == old(data)@.len(),
        match json_member_link(old(data)@.skip(*old(pos) as int), first) {
            Err(e) => r == Err::<bool, ParseError>(e),
            Ok(link) => {
                &&& r == Ok::<bool, ParseError>(link.pair is Some)
                &&& *final(pos) == *old(pos) + link.image.len()
                &&& *old(pos) < *final(pos) <= old(data)@.len()
                &&& final(data)@ == splice(old(data)@, *old(pos) as int, link.image)
            },
        },
    decreases old(data)@.len() - *old(pos), 7nat,
{
    let ghost d0 = data@;
    let ghost origin = *pos;
    let ghost s = d0.skip(origin as int);
    let ghost w = ws_len(s);
    proof {
        lemma_member_link(s, first);
    }
    skip_ws(data, pos);
    let ghost d1 = data@;
    let ghost cursor_a = *pos;
    proof {
        if cursor_a < d0.len() {
            assert(s[w as int] == d0[cursor_a as int]);
            assert(d1[cursor_a as int] == d0[cursor_a as int]);
        }
    }
    if bitmix_consume_byte::<CLOSE_BRACE>(data, pos) {
        assert(data@ =~= splice(d0, origin as int, zeros(w + 1)));
        return Ok(false);
    }
    if !first {
        if !bitmix_consume_byte::<COMMA>(data, pos) {
            return Err(ParseError::Malformed);
        }
        let ghost d = data@;
        let ghost p = *pos;
        assert(d.skip(p as int) =~= s.skip((w + 1) as int));
        skip_ws(data, pos);
    }
    let ghost d2 = data@;
    let ghost cursor_b = *pos;
    let ghost gap = (cursor_b - origin) as nat;
    proof {
        assert(d2.skip(cursor_b as int) =~= s.skip(gap as int));
        assert(d2 =~= splice(d0, origin as int, zeros(gap)));
        assert(gap == member_start(s, first));
        if gap >= s.len() {
            lemma_pair(s.skip(gap as int));
            crate::string::lemma_no_string_in_nothing(s.skip(gap as int));
        }
    }
    match bitmix_pair(data, pos) {
        Err(e) => Err(e),
        Ok(()) => {
            proof {
                let m = json_pair(s.skip(gap as int))->Ok_0;
                assert(data@ =~= splice(d0, origin as int, zeros(gap) + m.image));
            }
            Ok(true)
        },
    }
}

/// Rewrites the members of an object, from behind the opening brace to
/// behind the closing one.
pub fn bitmix_pair_list_and_close(data: &mut [u8], pos: &mut usize) -> (r: Result<(), ParseError>)
    requires
        *old(pos) <= old(data)@.len(),
    ensures
        rewritten(
            old(data)@,
            *old(pos) as int,
            members_image(json_members(old(data)@.skip(*old(pos) as int))),
            r,
            final(data)@,
            *final(pos) as int,
        ),
        r is Ok ==> *final(pos) > *old(pos),
    decreases old(data)@.len() - *old(pos), 8nat,
{
    let ghost d0 = data@;
    let ghost origin = *pos;
    let ghost s0 = d0.skip(origin as int);
    let mut first = true;
    let mut failure: Option<ParseError> = None;
    proof {
        assert(data@.subrange(origin as int, origin as int) =~= Seq::<u8>::empty());
        let whole = members_image(json_members_from(s0, true));
        if let Ok(image) = whole {
            assert(Seq::<u8>::empty() + image =~= image);
        }
    }
    loop
        invariant_except_break
            failure is None,
            forall|j: int| 0 <= j < origin ==> data@[j] == d0[j],
            forall|j: int| *pos <= j < d0.len() ==> data@[j] == d0[j],
            members_image(json_members_from(s0, true)) == prefixed(
                data@.subrange(origin as int, *pos as int),
                members_image(json_members_from(d0.skip(*pos as int), first)),
            ),
            first <==> *pos == origin,
            origin <= *pos <= d0.len(),
        invariant
            data@.len() == d0.len(),
            d0.len() == old(data)@.len(),
            origin == *old(pos),
            origin <= d0.len(),
            s0 == d0.skip(origin as int),
        ensures
            failure matches Some(e) ==> members_image(json_members_from(s0, true)) == Err::<
                Seq<u8>,
                ParseError,
            >(e),
            failure is None ==> {
                &&& origin < *pos <= d0.len()
                &&& members_image(json_members_from(s0, true)) == Ok::<Seq<u8>, ParseError>(
                    data@.subrange(origin as int, *pos as int),
                )
                &&& forall|j: int| 0 <= j < origin ==> data@[j] == d0[j]
                &&& forall|j: int| *pos <= j < d0.len() ==> data@[j] == d0[j]
            },
        decreases d0.len() - *pos,
    {
        let ghost before = data@;
        let ghost p = *pos;
        let ghost done = before.subrange(origin as int, p as int);
        let ghost rest = d0.skip(p as int);
        assert(before.skip(p as int) =~= rest);
        proof {
            lemma_members(rest, first);
        }
        match bitmix_next_pair(data, pos, first) {
            Err(e) => {
                failure = Some(e);
                break;
            },
            Ok(more) => {
                proof {
                    let link = json_member_link(rest, first)->Ok_0;
                    assert(data@.subrange(origin as int, *pos as int) =~= done + link.image);
                    assert(rest.skip(link.image.len() as int) =~= d0.skip(*pos as int));
                    if more {
                        lemma_prefixed_twice(
                            done,
                            link.image,
                            members_image(
                                json_members_from(rest.skip(link.image.len() as int), false),
                            ),
                        );
                    }
                }
                if !more {
                    break;
                }
                first = false;
            },
        }
    }
    match failure {
        Some(e) => Err(e),
        None => {
            proof {
                let image = data@.subrange(origin as int, *pos as int);
                assert(data@ =~= splice(d0, origin as int, image));
            }
            Ok(())
        },
    }
}

impl<'a> Object<'a> {
    /// Rewrites the object at the cursor into its record and moves the cursor
    /// past its text. Where no object begins at the cursor, nothing changes.
    pub fn bitmix_to_tlv(data: &mut [u8], pos: &mut usize) -> (r: Result<(), ParseError>)
        requires
            *old(pos) <= old(data)@.len(),
        ensures
            rewritten(
                old(data)@,
                *old(pos) as int,
                image_of(json_object(old(data)@.skip(*old(pos) as int))),
                r,
                final(data)@,
                *final(pos) as int,
            ),
            r == Err::<(), ParseError>(ParseError::NotMatched) ==> final(data)@ == old(data)@
                && *final(pos) == *old(pos),
        decreases old(data)@.len() - *old(pos), 2nat,
    {
        let ghost d0 = data@;
        let start = *pos;
        proof {
            lemma_object(d0.skip(start as int));
        }
        if start >= data.len() {
            return Err(ParseError::NotMatched);
        }
        assert(d0.skip(start as int)[0] == d0[start as int]);
        if data[start] != OPEN_BRACE {
            return Err(ParseError::NotMatched);
        }
        assert(d0.skip(start as int).skip(1) =~= d0.skip(start + 1));
        *pos = start + 1;
        match bitmix_pair_list_and_close(data, pos) {
            Err(e) => {
                proof {
                    lemma_lists_never_unmatched(d0.skip(start + 1), true);
                }
                return Err(e);
            },
            Ok(()) => {},
        }
        let ghost d1 = data@;
        let ghost body = json_members(d0.skip(start + 1))->Ok_0.image;
        let bytesize = *pos - start - 2;
        if bytesize > MAX_BYTESIZE {
            return Err(ParseError::Overflow);
        }
        write_frame(data, start, *pos, bytesize, OBJECT_MASK);
        proof {
            lemma_container_image(d0, d1, data@, start as int, body, OBJECT_MASK);
        }
        Ok(())
    }

    /// Reads the object record at the cursor, hands out its payload and moves
    /// the cursor past the record.
    pub fn decode_tlv(data: &'a [u8], pos: &mut usize) -> (r: Result<Self, ParseError>)
        ensures
            *old(pos) > data@.len() ==> r == Err::<Self, ParseError>(ParseError::NotMatched),
            *old(pos) <= data@.len() ==> match object_record(data@.skip(*old(pos) as int)) {
                Ok((payload, n)) => r is Ok && r->Ok_0.data@ == payload && *final(pos) == *old(pos)
                    + n,
                Err(e) => r == Err::<Self, ParseError>(e),
            },
            r is Err ==> *final(pos) == *old(pos),
            r is Ok ==> *final(pos) <= data@.len(),
    {
        match decode_container(data, pos, OBJECT_MASK) {
            Ok(payload) => Ok(Object { data: payload }),
            Err(e) => Err(e),
        }
    }

    /// Moves the cursor past the object record at it, and says whether there
    /// was one.
    pub fn skip_tlv(data: &[u8], pos: &mut usize) -> (hit: bool)
        ensures
            hit <==> *old(pos) <= data@.len() && object_record(
                data@.skip(*old(pos) as int),
            ) is Ok,
            hit ==> *final(pos) == *old(pos) + object_record(
                data@.skip(*old(pos) as int),
            )->Ok_0.1,
            !hit ==> *final(pos) == *old(pos),
    {
        decode_container(data, pos, OBJECT_MASK).is_ok()
    }
}

} // verus!
