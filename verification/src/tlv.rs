use vstd::prelude::*;
use vstd::slice::slice_subrange;
use crate::bytesize::{
    field_offset, frame, lemma_field_len_bound, read_field, Bytesize, MAX_BYTESIZE,
};
use crate::error::ParseError;
use crate::json::splice;
use crate::mask::{lemma_tag_or, lemma_type_mask, type_bits, TYPE_MASK};
use crate::runs::zeros;

verus! {

/// The record of a string, an array or an object at the front of `b`: its
/// payload, and its size, which is that of the length field and the payload
/// together. The record has to lie within `b`.
pub open spec fn container_record(b: Seq<u8>, tag: u8) -> Result<(Seq<u8>, nat), ParseError> {
    if b.len() == 0 || type_bits(b[0]) != tag {
        Err(ParseError::NotMatched)
    } else {
        match read_field(b) {
            None => Err(ParseError::Malformed),
            Some(f) => if f.offset + f.bytesize > b.len() {
                Err(ParseError::Malformed)
            } else {
                Ok(
                    (
                        b.subrange(f.offset as int, f.offset + f.bytesize),
                        (f.offset + f.bytesize) as nat,
                    ),
                )
            },
        }
    }
}

/// A record of a string, an array or an object is as long as its length
/// field says: the field and the payload, and no byte more or less. It lies
/// within the bytes that it was read from.
pub proof fn lemma_container_size(b: Seq<u8>, tag: u8)
    ensures
        container_record(b, tag) matches Ok((payload, n)) ==> {
            &&& n == field_offset(b[0]) + payload.len()
            &&& payload.len() == read_field(b)->0.bytesize
            &&& payload == b.subrange(field_offset(b[0]) as int, n as int)
            &&& 1 <= field_offset(b[0]) <= 2
            &&& n <= b.len()
            &&& type_bits(b[0]) == tag
        },
{
    if b.len() > 0 {
        lemma_field_len_bound(b[0], if b.len() > 1 { b[1] } else { 0 });
    }
}

/// Turns the delimited token in `data[start..end]` into a record with the type
/// `tag` for the first `bytesize` bytes after the opening delimiter.
pub fn write_frame(data: &mut [u8], start: usize, end: usize, bytesize: usize, tag: u8)
    requires
        start + 2 <= end <= old(data)@.len(),
        bytesize <= MAX_BYTESIZE,
        tag % 32 == 0,
    ensures
        final(data)@ == old(data)@.subrange(0, start as int) + frame(
            tag,
            bytesize as nat,
            old(data)@.subrange(start + 1, end - 1),
        ) + old(data)@.skip(end as int),
{
    let ghost d0 = data@;
    let ghost area = d0.subrange(start + 1, end - 1);
    Bytesize::write(data, start, end, bytesize);
    let ghost d1 = data@;
    proof {
        assert(d1[start as int] == frame(0, bytesize as nat, area)[0]);
        lemma_tag_or(tag, d1[start as int]);
    }
    data[start] = data[start] | tag;
    proof {
        let f0 = frame(0, bytesize as nat, area);
        let f = frame(tag, bytesize as nat, area);
        assert(f =~= f0.update(0, (tag + f0[0]) as u8));
        assert(data@ =~= d0.subrange(0, start as int) + f + d0.skip(end as int));
    }
}

/// The image of an array or an object, from what is written in place step by
/// step: the body behind the opening delimiter, then the frame around it.
pub proof fn lemma_container_image(
    d0: Seq<u8>,
    d1: Seq<u8>,
    d2: Seq<u8>,
    start: int,
    body: Seq<u8>,
    tag: u8,
)
    requires
        0 <= start,
        body.len() >= 1,
        start + 1 + body.len() <= d0.len(),
        d1 == splice(d0, start + 1, body),
        d2 == d1.subrange(0, start) + frame(
            tag,
            (body.len() - 1) as nat,
            d1.subrange(start + 1, start + body.len()),
        ) + d1.skip(start + 1 + body.len()),
    ensures
        d2 == splice(d0, start, frame(tag, (body.len() - 1) as nat, body.drop_last())),
{
    let f = frame(tag, (body.len() - 1) as nat, body.drop_last());
    assert(d1.len() == d0.len());
    assert(d1.subrange(0, start) =~= d0.subrange(0, start));
    assert(d1.subrange(start + 1, start + body.len()) =~= body.drop_last());
    assert(d1.skip(start + 1 + body.len()) =~= d0.skip(start + 1 + body.len()));
    assert(f.len() == body.len() + 1);
}

/// Reads the record with the type `tag` at the cursor, hands out its payload
/// and moves the cursor past the record.
pub fn decode_container<'a>(data: &'a [u8], pos: &mut usize, tag: u8) -> (r: Result<
    &'a [u8],
    ParseError,
>)
    requires
        tag % 32 == 0,
    ensures
        *old(pos) > data@.len() ==> r == Err::<&[u8], ParseError>(ParseError::NotMatched),
        *old(pos) <= data@.len() ==> match container_record(data@.skip(*old(pos) as int), tag) {
            Ok((payload, n)) => r is Ok && r->Ok_0@ == payload && *final(pos) == *old(pos) + n,
            Err(e) => r == Err::<&[u8], ParseError>(e),
        },
        r is Err ==> *final(pos) == *old(pos),
        r is Ok ==> *final(pos) <= data@.len(),
{
    let p = *pos;
    let size = data.len();
    if p >= size {
        return Err(ParseError::NotMatched);
    }
    let ghost b = data@.skip(p as int);
    assert(b[0] == data@[p as int]);
    proof {
        lemma_type_mask(data@[p as int]);
    }
    if data[p] & TYPE_MASK != tag {
        return Err(ParseError::NotMatched);
    }
    if data[p] % 32 >= 16 && size - p < 2 {
        return Err(ParseError::Malformed);
    }
    let Bytesize { bytesize, offset } = Bytesize::read(data, p);
    if bytesize > size - p - offset {
        return Err(ParseError::Malformed);
    }
    let bytes = slice_subrange(data, p + offset, p + offset + bytesize);
    assert(bytes@ =~= b.subrange(offset as int, offset + bytesize));
    *pos = p + offset + bytesize;
    Ok(bytes)
}

/// Turns `data[start..end]` into padding.
pub fn zero_fill(data: &mut [u8], start: usize, end: usize)
    requires
        start <= end <= old(data)@.len(),
    ensures
        final(data)@ == old(data)@.subrange(0, start as int) + zeros((end - start) as nat) + old(
            data,
        )@.skip(end as int),
{
    let ghost d0 = data@;
    let mut idx: usize = start;
    while idx < end
        invariant
            start <= idx <= end <= data@.len(),
            data@.len() == d0.len(),
            forall|j: int| 0 <= j < start ==> data@[j] == d0[j],
            forall|j: int| start <= j < idx ==> data@[j] == 0,
            forall|j: int| idx <= j < data@.len() ==> data@[j] == d0[j],
        decreases end - idx,
    {
        data[idx] = 0;
        idx += 1;
    }
    assert(data@ =~= d0.subrange(0, start as int) + zeros((end - start) as nat) + d0.skip(
        end as int,
    ));
}

/// If the byte at the cursor is `B`, turns it into padding and steps over it.
pub fn bitmix_consume_byte<const B: u8>(data: &mut [u8], pos: &mut usize) -> (hit: bool)
    ensures
        hit <==> (*old(pos) < old(data)@.len() && old(data)@[*old(pos) as int] == B),
        hit ==> *final(pos) == *old(pos) + 1 && final(data)@ == old(data)@.update(
            *old(pos) as int,
            0u8,
        ),
        !hit ==> *final(pos) == *old(pos) && final(data)@ == old(data)@,
{
    if *pos < data.len() && data[*pos] == B {
        data[*pos] = 0;
        *pos += 1;
        true
    } else {
        false
    }
}

} // verus!
