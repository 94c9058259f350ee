use vstd::prelude::*;

verus! {

/// One more than the largest count that the two-byte field holds: five bits in
/// the type byte and eight in the byte after it.
pub const MAX_LENGTH: usize = 8192;

/// The fixed-width count field, for records that state how many elements they
/// hold. It always takes the low bits of the type byte and the byte after it.
#[derive(Debug, Clone, Copy)]
pub struct Length(pub usize);

/// The count held by the five low bits `l1` and the byte `l2`.
pub open spec fn join_spec(l1: u8, l2: u8) -> usize {
    ((l2 as usize) << 5) | (l1 as usize)
}

pub proof fn lemma_join(l1: u8, l2: u8)
    requires
        l1 < 32,
    ensures
        join_spec(l1, l2) == l2 * 32 + l1,
{
    let v = ((l2 as usize) << 5) | (l1 as usize);
    assert(v == l2 * 32 + l1) by (bit_vector)
        requires
            v == ((l2 as usize) << 5) | (l1 as usize),
            l1 < 32,
    ;
}

/// The low five bits of `length` and the eight bits above them.
pub fn split(length: usize) -> (r: (u8, u8))
    ensures
        r.0 == length % 32,
        r.1 == (length / 32) % 256,
{
    let l1 = (length % 32) as u8;
    let l2 = ((length / 32) % 256) as u8;
    (l1, l2)
}

pub fn join(l1: u8, l2: u8) -> (r: usize)
    ensures
        r == join_spec(l1, l2),
        l1 < 32 ==> r == l2 * 32 + l1,
{
    proof {
        if l1 < 32 {
            lemma_join(l1, l2);
        }
    }
    (l2 as usize) << 5 | l1 as usize
}

impl Length {
    /// Makes room for the second byte of the field by moving
    /// `data[start + 1..end - 1]` one byte to the right, then writes `length`
    /// into the bytes at `start` and `start + 1`.
    pub fn write(data: &mut [u8], start: usize, end: usize, length: usize)
        requires
            start + 2 <= end <= old(data)@.len(),
            length < MAX_LENGTH,
        ensures
            final(data)@ == old(data)@.subrange(0, start as int) + seq![
                (length % 32) as u8,
                (length / 32) as u8,
            ] + old(data)@.subrange(start + 1, end - 1) + old(data)@.skip(end as int),
    {
        let ghost d0 = data@;
        let mut idx: usize = end - 1;
        while idx > start
            invariant
                start <= idx <= end - 1,
                end <= data@.len(),
                data@.len() == d0.len(),
                forall|j: int| 0 <= j <= idx ==> data@[j] == d0[j],
                forall|j: int| idx < j < end ==> data@[j] == d0[j - 1],
                forall|j: int| end <= j < data@.len() ==> data@[j] == d0[j],
            decreases idx,
        {
            data[idx] = data[idx - 1];
            idx -= 1;
        }
        let (l1, l2) = split(length);
        data[start] = l1;
        data[start + 1] = l2;
        assert(data@ =~= d0.subrange(0, start as int) + seq![
            (length % 32) as u8,
            (length / 32) as u8,
        ] + d0.subrange(start + 1, end - 1) + d0.skip(end as int));
    }

    /// Reads the count from the bytes at `pos` and `pos + 1`.
    pub fn read(data: &[u8], pos: usize) -> (r: Self)
        requires
            pos + 1 < data@.len(),
        ensures
            r.0 == data@[pos as int] % 32 + 32 * data@[pos + 1],
    {
        let l1 = data[pos] & 0b11111;
        let l2 = data[pos + 1];
        proof {
            crate::mask::lemma_type_mask(data@[pos as int]);
        }
        let length = join(l1, l2);
        Self(length)
    }
}

/// A count that was written is the count that is read.
pub proof fn lemma_length_round_trip(length: usize)
    requires
        length < MAX_LENGTH,
    ensures
        ((length % 32) as u8) % 32 + 32 * ((length / 32) as u8) == length,
{
}

} // verus!
