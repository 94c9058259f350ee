use vstd::prelude::*;

verus! {

/// The largest payload length that fits the type byte alone.
pub const MAX_EMBEDDED_BYTESIZE: u8 = 15;

/// Set in a type byte whose length field continues in the next byte.
pub const LONG_CONTAINER_MASK: u8 = 0b10000;

/// The largest payload length that the two-byte field can hold: three bits in
/// the type byte and eight in the byte after it.
pub const MAX_BYTESIZE: usize = 2047;

/// A length field as read: the payload length and the size of the field.
#[derive(Debug, Clone, Copy)]
pub struct Bytesize {
    pub bytesize: usize,
    pub offset: usize,
}

/// A record for `len` payload bytes in the place of the `area.len() + 2` bytes
/// of a delimited token, where `area` stands between the delimiters and its
/// first `len` bytes are the payload.
///
/// The short form keeps the area in place and turns the closing delimiter into
/// padding. The long form moves the area one byte to the right, over the
/// closing delimiter, to make room for the second byte of the field.
pub open spec fn frame(tag: u8, len: nat, area: Seq<u8>) -> Seq<u8> {
    if len <= 15 {
        seq![(tag + len) as u8] + area + seq![0u8]
    } else {
        seq![(tag + 16 + len % 8) as u8, (len / 8) as u8] + area
    }
}

/// Whether the length field of a record with this type byte has a second byte.
pub open spec fn is_long(b: u8) -> bool {
    b % 32 >= 16
}

/// The size of the length field, type byte included.
pub open spec fn field_offset(b: u8) -> nat {
    if is_long(b) {
        2
    } else {
        1
    }
}

/// The length read from the type byte `b0` and, in the long form, from the
/// byte `b1` after it: the four low bits of the first joined with the second,
/// shifted by three.
pub open spec fn field_len(b0: u8, b1: u8) -> nat {
    if is_long(b0) {
        (((b1 as usize) << 3) | ((b0 & 0b1111) as usize)) as nat
    } else {
        (b0 % 16) as nat
    }
}

/// The length field at the front of `b`, where it is complete.
pub open spec fn read_field(b: Seq<u8>) -> Option<Bytesize> {
    if b.len() == 0 || (is_long(b[0]) && b.len() < 2) {
        None
    } else {
        Some(
            Bytesize {
                bytesize: field_len(b[0], if is_long(b[0]) { b[1] } else { 0 }) as usize,
                offset: field_offset(b[0]) as usize,
            },
        )
    }
}

pub proof fn lemma_field_len_bound(b0: u8, b1: u8)
    ensures
        field_len(b0, b1) <= 2047,
        is_long(b0) && b0 % 16 < 8 ==> field_len(b0, b1) == b1 * 8 + b0 % 16,
{
    let l1 = b0 & 0b1111;
    assert(l1 == b0 % 16) by (bit_vector)
        requires
            l1 == b0 & 0b1111,
    ;
    let v = ((b1 as usize) << 3) | (l1 as usize);
    assert(v <= 2047 && (l1 < 8 ==> v == b1 * 8 + l1)) by (bit_vector)
        requires
            v == ((b1 as usize) << 3) | (l1 as usize),
            l1 < 16,
    ;
}

/// What a written field reads back as, whatever follows the frame.
pub proof fn lemma_frame_reads_back(tag: u8, area: Seq<u8>, rest: Seq<u8>)
    requires
        tag % 32 == 0,
        area.len() <= 2047,
    ensures
        read_field(frame(tag, area.len(), area) + rest) == Some(
            Bytesize {
                bytesize: area.len() as usize,
                offset: (if area.len() <= 15 {
                    1usize
                } else {
                    2usize
                }),
            },
        ),
        frame(tag, area.len(), area).len() == area.len() + 2,
        frame(tag, area.len(), area)[0] as int / 32 * 32 == tag,
        frame(tag, area.len(), area)[0] != 0 || (tag == 0 && area.len() == 0),
        area.len() <= 15 ==> frame(tag, area.len(), area).subrange(1, 1 + area.len() as int) == area
            && frame(tag, area.len(), area)[1 + area.len() as int] == 0,
        area.len() > 15 ==> frame(tag, area.len(), area).subrange(2, 2 + area.len() as int) == area,
{
    let len = area.len();
    let f = frame(tag, len, area);
    let b = f + rest;
    assert(b[0] == f[0]);
    assert(b[1] == f[1]);
    if len <= 15 {
        assert(f[0] == (tag + len) as u8);
        assert(f.subrange(1, 1 + len as int) =~= area);
    } else {
        assert(f[0] == (tag + 16 + len % 8) as u8);
        assert(f[1] == (len / 8) as u8);
        lemma_field_len_bound(f[0], f[1]);
        assert(f.subrange(2, 2 + len as int) =~= area);
    }
}

impl Bytesize {
    /// Writes the length field for `bytesize` payload bytes into the token
    /// that occupies `data[start..end]`, whose payload starts at `start + 1`.
    /// The three variant bits of the type byte are left clear.
    pub fn write(data: &mut [u8], start: usize, end: usize, bytesize: usize)
        requires
            start + 2 <= end <= old(data)@.len(),
            bytesize <= MAX_BYTESIZE,
        ensures
            final(data)@ == old(data)@.subrange(0, start as int) + frame(
                0,
                bytesize as nat,
                old(data)@.subrange(start + 1, end - 1),
            ) + old(data)@.skip(end as int),
    {
        let ghost d0 = data@;
        if bytesize <= MAX_EMBEDDED_BYTESIZE as usize {
            data[start] = bytesize as u8;
            data[end - 1] = 0;
            assert(data@ =~= d0.subrange(0, start as int) + frame(
                0,
                bytesize as nat,
                d0.subrange(start + 1, end - 1),
            ) + d0.skip(end as int));
        } else {
            data[start] = LONG_CONTAINER_MASK + (bytesize % 8) as u8;
            let mut idx: usize = end - 1;
            while idx > start + 1
                invariant
                    start + 1 <= idx <= end - 1,
                    end <= data@.len(),
                    data@.len() == d0.len(),
                    data@[start as int] == (16 + bytesize % 8) as u8,
                    forall|j: int| 0 <= j <= idx && j != start ==> data@[j] == d0[j],
                    forall|j: int| idx < j < end ==> data@[j] == d0[j - 1],
                    forall|j: int| end <= j < data@.len() ==> data@[j] == d0[j],
                decreases idx,
            {
                data[idx] = data[idx - 1];
                idx -= 1;
            }
            data[start + 1] = (bytesize / 8) as u8;
            assert(data@ =~= d0.subrange(0, start as int) + frame(
                0,
                bytesize as nat,
                d0.subrange(start + 1, end - 1),
            ) + d0.skip(end as int));
        }
    }

    /// Reads the length field of the record at `pos`.
    pub fn read(data: &[u8], pos: usize) -> (r: Self)
        requires
            read_field(data@.skip(pos as int)) is Some,
            pos < data@.len(),
        ensures
            Some(r) == read_field(data@.skip(pos as int)),
            r.offset == 1 || r.offset == 2,
            r.bytesize <= MAX_BYTESIZE,
    {
        let b0 = data[pos];
        assert(data@.skip(pos as int)[0] == b0);
        let l1 = b0 & 0b1111;
        let mut l2: u8 = 0;
        let mut offset: usize = 1;
        proof {
            crate::mask::lemma_type_mask(b0);
        }
        if b0 & LONG_CONTAINER_MASK == LONG_CONTAINER_MASK {
            assert(data@.skip(pos as int)[1] == data@[pos + 1]);
            l2 = data[pos + 1];
            offset = 2;
        }
        let bytesize = (l2 as usize) << 3 | l1 as usize;
        proof {
            lemma_field_len_bound(b0, l2);
            if !is_long(b0) {
                assert(bytesize == l1) by (bit_vector)
                    requires
                        bytesize == (0u8 as usize) << 3 | l1 as usize,
                ;
            }
        }
        Self { bytesize, offset }
    }
}

} // verus!
