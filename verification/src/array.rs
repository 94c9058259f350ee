use vstd::prelude::*;
use crate::ascii::{CLOSE_BRACKET, COMMA, OPEN_BRACKET};
use crate::bytesize::MAX_BYTESIZE;
use crate::error::{make_fatal, ParseError};
use crate::grammar::{
    element_image, element_start, elements_image, json_array, json_element_link, json_elements,
    json_elements_from, json_value, lemma_array, lemma_element_link, lemma_elements,
    lemma_lists_never_unmatched,
};
use crate::json::{image_of, lemma_prefixed_twice, prefixed, rewritten, splice};
use crate::mask::ARRAY_MASK;
use crate::tlv::{
    bitmix_consume_byte, container_record, decode_container, lemma_container_image, write_frame,
};
use crate::value::Value;
use crate::ws::{skip_ws, ws_len};

verus! {

/// An array in its encoded form: the payload of its record.
#[derive(Debug, Clone, Copy)]
pub struct Array<'a> {
    pub data: &'a [u8],
}

/// The array record at the front of `b`: its payload and its size.
pub open spec fn array_record(b: Seq<u8>) -> Result<(Seq<u8>, nat), ParseError> {
    container_record(b, ARRAY_MASK)
}

/// Rewrites the value at the cursor, which has to be there.
pub fn bitmix_element(data: &mut [u8], pos: &mut usize) -> (r: Result<(), ParseError>)
    requires
        *old(pos) <= old(data)@.len(),
    ensures
        rewritten(
            old(data)@,
            *old(pos) as int,
            element_image(json_value(old(data)@.skip(*old(pos) as int))),
            r,
            final(data)@,
            *final(pos) as int,
        ),
        r is Ok ==> *final(pos) > *old(pos),
    decreases old(data)@.len() - *old(pos), 4nat,
{
    match Value::bitmix_to_tlv(data, pos) {
        Ok(()) => Ok(()),
        Err(e) => Err(make_fatal(e)),
    }
}

/// Takes one step through the text of an array: rewrites what stands at the
/// cursor up to the end of the next element, and says whether there was one,
/// or that the closing bracket came.
pub fn bitmix_next_element(data: &mut [u8], pos: &mut usize, first: bool) -> (r: Result<
    bool,
    ParseError,
>)
    requires
        *old(pos) <= old(data)@.len(),
    ensures
        final(data)@.len() == old(data)@.len(),
        match json_element_link(old(data)@.skip(*old(pos) as int), first) {
            Err(e) => r == Err::<bool, ParseError>(e),
            Ok(link) => {
                &&& r == Ok::<bool, ParseError>(link.tree is Some)
                &&& *final(pos) == *old(pos) + link.image.len()
                &&& *old(pos) < *final(pos) <= old(data)@.len()
                &&& final(data)@ == splice(old(data)@, *old(pos) as int, link.image)
            },
        },
    decreases old(data)@.len() - *old(pos), 5nat,
{
    let ghost d0 = data@;
    let ghost origin = *pos;
    let ghost s = d0.skip(origin as int);
    let ghost w = ws_len(s);
    proof {
        lemma_element_link(s, first);
    }
    skip_ws(data, pos);
    let ghost d1 = data@;
    let ghost cursor_a = *pos;
    proof {
        if cursor_a < d0.len() {
            assert(s[w as int] == d0[cursor_a as int]);
            assert(d1[cursor_a as int] == d0[cursor_a as int]);
        }
    }
    if bitmix_consume_byte::<CLOSE_BRACKET>(data, pos) {
        assert(data@ =~= splice(d0, origin as int, crate::runs::zeros(w + 1)));
        return Ok(false);
    }
    if !first {
        if !bitmix_consume_byte::<COMMA>(data, pos) {
            return Err(ParseError::Malformed);
        }
    }
    let ghost d2 = data@;
    let ghost cursor_b = *pos;
    let ghost gap = (cursor_b - origin) as nat;
    assert(gap == element_start(s, first));
    assert(d2.skip(cursor_b as int) =~= s.skip(gap as int));
    proof {
        if gap >= s.len() {
            crate::grammar::lemma_value(s.skip(gap as int));
        }
    }
    assert(d2 =~= splice(d0, origin as int, crate::runs::zeros(gap)));
    match bitmix_element(data, pos) {
        Err(e) => Err(e),
        Ok(()) => {
            proof {
                let token = json_value(s.skip(gap as int))->Ok_0;
                assert(data@ =~= splice(d0, origin as int, crate::runs::zeros(gap) + token.image));
            }
            Ok(true)
        },
    }
}

/// Rewrites the elements of an array, from behind the opening bracket to
/// behind the closing one.
pub fn bitmix_elements_and_close(data: &mut [u8], pos: &mut usize) -> (r: Result<(), ParseError>)
    requires
        *old(pos) <= old(data)@.len(),
    ensures
        rewritten(
            old(data)@,
            *old(pos) as int,
            elements_image(json_elements(old(data)@.skip(*old(pos) as int))),
            r,
            final(data)@,
            *final(pos) as int,
        ),
        r is Ok ==> *final(pos) > *old(pos),
    decreases old(data)@.len() - *old(pos), 6nat,
{
    let ghost d0 = data@;
    let ghost origin = *pos;
    let ghost s0 = d0.skip(origin as int);
    let mut first = true;
    let mut failure: Option<ParseError> = None;
    proof {
        assert(data@.subrange(origin as int, origin as int) =~= Seq::<u8>::empty());
        let whole = elements_image(json_elements_from(s0, true));
        if let Ok(image) = whole {
            assert(Seq::<u8>::empty() + image =~= image);
        }
    }
    loop
        invariant_except_break
            failure is None,
            forall|j: int| 0 <= j < origin ==> data@[j] == d0[j],
            forall|j: int| *pos <= j < d0.len() ==> data@[j] == d0[j],
            elements_image(json_elements_from(s0, true)) == prefixed(
                data@.subrange(origin as int, *pos as int),
                elements_image(json_elements_from(d0.skip(*pos as int), first)),
            ),
            first <==> *pos == origin,
            origin <= *pos <= d0.len(),
        invariant
            data@.len() == d0.len(),
            d0.len() == old(data)@.len(),
            origin == *old(pos),
            origin <= d0.len(),
            s0 == d0.skip(origin as int),
        ensures
            failure matches Some(e) ==> elements_image(json_elements_from(s0, true)) == Err::<
                Seq<u8>,
                ParseError,
            >(e),
            failure is None ==> {
                &&& origin < *pos <= d0.len()
                &&& elements_image(json_elements_from(s0, true)) == Ok::<Seq<u8>, ParseError>(
                    data@.subrange(origin as int, *pos as int),
                )
                &&& forall|j: int| 0 <= j < origin ==> data@[j] == d0[j]
                &&& forall|j: int| *pos <= j < d0.len() ==> data@[j] == d0[j]
            },
        decreases d0.len() - *pos,
    {
        let ghost before = data@;
        let ghost p = *pos;
        let ghost done = before.subrange(origin as int, p as int);
        let ghost rest = d0.skip(p as int);
        assert(before.skip(p as int) =~= rest);
        proof {
            lemma_elements(rest, first);
        }
        match bitmix_next_element(data, pos, first) {
            Err(e) => {
                failure = Some(e);
                break;
            },
            Ok(more) => {
                proof {
                    let link = json_element_link(rest, first)->Ok_0;
                    assert(data@.subrange(origin as int, *pos as int) =~= done + link.image);
                    assert(rest.skip(link.image.len() as int) =~= d0.skip(*pos as int));
                    if more {
                        lemma_prefixed_twice(
                            done,
                            link.image,
                            elements_image(
                                json_elements_from(rest.skip(link.image.len() as int), false),
                            ),
                        );
                    }
                }
                if !more {
                    break;
                }
                first = false;
            },
        }
    }
    match failure {
        Some(e) => Err(e),
        None => {
            proof {
                let image = data@.subrange(origin as int, *pos as int);
                assert(data@ =~= splice(d0, origin as int, image));
            }
            Ok(())
        },
    }
}

impl<'a> Array<'a> {
    /// Rewrites the array at the cursor into its record and moves the cursor
    /// past its text. Where no array begins at the cursor, nothing changes.
    pub fn bitmix_to_tlv(data: &mut [u8], pos: &mut usize) -> (r: Result<(), ParseError>)
        requires
            *old(pos) <= old(data)@.len(),
        ensures
            rewritten(
                old(data)@,
                *old(pos) as int,
                image_of(json_array(old(data)@.skip(*old(pos) as int))),
                r,
                final(data)@,
                *final(pos) as int,
            ),
            r == Err::<(), ParseError>(ParseError::NotMatched) ==> final(data)@ == old(data)@
                && *final(pos) == *old(pos),
        decreases old(data)@.len() - *old(pos), 2nat,
    {
        let ghost d0 = data@;
        let start = *pos;
        proof {
            lemma_array(d0.skip(start as int));
        }
        if start >= data.len() {
            return Err(ParseError::NotMatched);
        }
        assert(d0.skip(start as int)[0] == d0[start as int]);
        if data[start] != OPEN_BRACKET {
            return Err(ParseError::NotMatched);
        }
        assert(d0.skip(start as int).skip(1) =~= d0.skip(start + 1));
        *pos = start + 1;
        match bitmix_elements_and_close(data, pos) {
            Err(e) => {
                proof {
                    lemma_lists_never_unmatched(d0.skip(start + 1), true);
                }
                return Err(e);
            },
            Ok(()) => {},
        }
        let ghost d1 = data@;
        let ghost body = json_elements(d0.skip(start + 1))->Ok_0.image;
        let bytesize = *pos - start - 2;
        if bytesize > MAX_BYTESIZE {
            return Err(ParseError::Overflow);
        }
        write_frame(data, start, *pos, bytesize, ARRAY_MASK);
        proof {
            lemma_container_image(d0, d1, data@, start as int, body, ARRAY_MASK);
        }
        Ok(())
    }

    /// Reads the array record at the cursor, hands out its payload and moves
    /// the cursor past the record.
    pub fn decode_tlv(data: &'a [u8], pos: &mut usize) -> (r: Result<Self, ParseError>)
        ensures
            *old(pos) > data@.len() ==> r == Err::<Self, ParseError>(ParseError::NotMatched),
            *old(pos) <= data@.len() ==> match array_record(data@.skip(*old(pos) as int)) {
                Ok((payload, n)) => r is Ok && r->Ok_0.data@ == payload && *final(pos) == *old(pos)
                    + n,
                Err(e) => r == Err::<Self, ParseError>(e),
            },
            r is Err ==> *final(pos) == *old(pos),
            r is Ok ==> *final(pos) <= data@.len(),
    {
        match decode_container(data, pos, ARRAY_MASK) {
            Ok(payload) => Ok(Array { data: payload }),
            Err(e) => Err(e),
        }
    }

    /// Moves the cursor past the array record at it, and says whether there
    /// was one.
    pub fn skip_tlv(data: &[u8], pos: &mut usize) -> (hit: bool)
        ensures
            hit <==> *old(pos) <= data@.len() && array_record(data@.skip(*old(pos) as int)) is Ok,
            hit ==> *final(pos) == *old(pos) + array_record(
                data@.skip(*old(pos) as int),
            )->Ok_0.1,
            !hit ==> *final(pos) == *old(pos),
    {
        decode_container(data, pos, ARRAY_MASK).is_ok()
    }
}

} // verus!
