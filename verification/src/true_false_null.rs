use vstd::prelude::*;
use crate::ascii::{LOWER_A, LOWER_E, LOWER_F, LOWER_L, LOWER_N, LOWER_R, LOWER_S, LOWER_T, LOWER_U};
use crate::error::ParseError;
use crate::json::{image_of, rewritten, Json, Token};
use crate::mask::{FALSE_MASK, NULL_MASK, TRUE_MASK};
use crate::runs::zeros;
use crate::tlv::zero_fill;

verus! {

/// The three values that are written as a keyword.
#[derive(Debug, Clone, Copy, PartialEq, Eq, Structural)]
pub enum TrueFalseNull {
    True,
    False,
    Null,
}

pub open spec fn word_true() -> Seq<u8> {
    seq![LOWER_T, LOWER_R, LOWER_U, LOWER_E]
}

pub open spec fn word_false() -> Seq<u8> {
    seq![LOWER_F, LOWER_A, LOWER_L, LOWER_S, LOWER_E]
}

pub open spec fn word_null() -> Seq<u8> {
    seq![LOWER_N, LOWER_U, LOWER_L, LOWER_L]
}

/// Whether `s` begins with the bytes of `word`.
pub open spec fn starts_with(s: Seq<u8>, word: Seq<u8>) -> bool {
    s.len() >= word.len() && s.subrange(0, word.len() as int) == word
}

/// The keyword at the front of `s`. Its image is the type byte followed by
/// padding over the rest of the keyword.
#[verifier::opaque]
pub open spec fn json_scalar(s: Seq<u8>) -> Result<Token, ParseError> {
    if starts_with(s, word_true()) {
        Ok(Token { tree: Json::True, image: seq![TRUE_MASK] + zeros(3) })
    } else if starts_with(s, word_false()) {
        Ok(Token { tree: Json::False, image: seq![FALSE_MASK] + zeros(4) })
    } else if starts_with(s, word_null()) {
        Ok(Token { tree: Json::Null, image: seq![NULL_MASK] + zeros(3) })
    } else {
        Err(ParseError::NotMatched)
    }
}

/// The keyword record at the front of `b` and its size, read from the type
/// byte alone: the type byte with its low bits clear, and the three or four
/// bytes of padding that belong to it. Whether those bytes are there is not
/// asked here.
pub open spec fn scalar_record(b: Seq<u8>) -> Result<(TrueFalseNull, nat), ParseError> {
    if b.len() == 0 {
        Err(ParseError::NotMatched)
    } else if b[0] == TRUE_MASK {
        Ok((TrueFalseNull::True, 4))
    } else if b[0] == FALSE_MASK {
        Ok((TrueFalseNull::False, 5))
    } else if b[0] == NULL_MASK {
        Ok((TrueFalseNull::Null, 4))
    } else {
        Err(ParseError::NotMatched)
    }
}

/// Whether the text at `pos` reads `true`.
fn at_true(data: &[u8], pos: usize) -> (hit: bool)
    requires
        pos <= data@.len(),
    ensures
        hit == starts_with(data@.skip(pos as int), word_true()),
{
    let ghost s = data@.skip(pos as int);
    if data.len() - pos < 4 {
        return false;
    }
    let hit = data[pos] == LOWER_T && data[pos + 1] == LOWER_R && data[pos + 2] == LOWER_U && data[pos + 3]
        == LOWER_E;
    proof {
        let w = s.subrange(0, 4);
        assert(w[0] == data@[pos as int] && w[1] == data@[pos + 1] && w[2] == data@[pos + 2]
            && w[3] == data@[pos + 3]);
        if hit {
            assert(w =~= word_true());
        } else {
            assert(word_true()[0] == 0x74 && word_true()[1] == 0x72 && word_true()[2] == 0x75
                && word_true()[3] == 0x65);
        }
    }
    hit
}

/// Whether the text at `pos` reads `false`.
fn at_false(data: &[u8], pos: usize) -> (hit: bool)
    requires
        pos <= data@.len(),
    ensures
        hit == starts_with(data@.skip(pos as int), word_false()),
{
    let ghost s = data@.skip(pos as int);
    if data.len() - pos < 5 {
        return false;
    }
    let hit = data[pos] == LOWER_F && data[pos + 1] == LOWER_A && data[pos + 2] == LOWER_L && data[pos + 3]
        == LOWER_S && data[pos + 4] == LOWER_E;
    proof {
        let w = s.subrange(0, 5);
        assert(w[0] == data@[pos as int] && w[1] == data@[pos + 1] && w[2] == data@[pos + 2]
            && w[3] == data@[pos + 3] && w[4] == data@[pos + 4]);
        if hit {
            assert(w =~= word_false());
        } else {
            assert(word_false()[0] == 0x66 && word_false()[1] == 0x61 && word_false()[2] == 0x6C
                && word_false()[3] == 0x73 && word_false()[4] == 0x65);
        }
    }
    hit
}

/// Whether the text at `pos` reads `null`.
fn at_null(data: &[u8], pos: usize) -> (hit: bool)
    requires
        pos <= data@.len(),
    ensures
        hit == starts_with(data@.skip(pos as int), word_null()),
{
    let ghost s = data@.skip(pos as int);
    if data.len() - pos < 4 {
        return false;
    }
    let hit = data[pos] == LOWER_N && data[pos + 1] == LOWER_U && data[pos + 2] == LOWER_L && data[pos + 3]
        == LOWER_L;
    proof {
        let w = s.subrange(0, 4);
        assert(w[0] == data@[pos as int] && w[1] == data@[pos + 1] && w[2] == data@[pos + 2]
            && w[3] == data@[pos + 3]);
        if hit {
            assert(w =~= word_null());
        } else {
            assert(word_null()[0] == 0x6E && word_null()[1] == 0x75 && word_null()[2] == 0x6C
                && word_null()[3] == 0x6C);
        }
    }
    hit
}

impl TrueFalseNull {
    /// Rewrites the keyword at the cursor into its record and moves the
    /// cursor past it. Where no keyword stands there, nothing changes.
    pub fn bitmix_to_tlv(data: &mut [u8], pos: &mut usize) -> (r: Result<(), ParseError>)
        requires
            *old(pos) <= old(data)@.len(),
        ensures
            rewritten(
                old(data)@,
                *old(pos) as int,
                image_of(json_scalar(old(data)@.skip(*old(pos) as int))),
                r,
                final(data)@,
                *final(pos) as int,
            ),
            r is Err ==> final(data)@ == old(data)@ && *final(pos) == *old(pos),
    {
        let ghost d0 = data@;
        let p = *pos;
        reveal(json_scalar);
        let region_size: usize = if at_true(data, p) {
            data[p] = TRUE_MASK;
            4
        } else if at_false(data, p) {
            data[p] = FALSE_MASK;
            5
        } else if at_null(data, p) {
            data[p] = NULL_MASK;
            4
        } else {
            return Err(ParseError::NotMatched);
        };
        zero_fill(data, p + 1, p + region_size);
        *pos = p + region_size;
        proof {
            let t = json_scalar(d0.skip(p as int))->Ok_0;
            assert(data@ =~= crate::json::splice(d0, p as int, t.image));
        }
        Ok(())
    }

    /// Reads the keyword record at the cursor and moves the cursor past it,
    /// by four bytes for `true` and `null` and by five for `false`, whether
    /// or not so many bytes are left: the type byte alone decides. The
    /// cursor behind the record has to fit into its type.
    pub fn decode_tlv(data: &[u8], pos: &mut usize) -> (r: Result<Self, ParseError>)
        requires
            *old(pos) < data@.len() && scalar_record(data@.skip(*old(pos) as int)) is Ok
                ==> *old(pos) + scalar_record(data@.skip(*old(pos) as int))->Ok_0.1
                <= usize::MAX,
        ensures
            *old(pos) >= data@.len() ==> r == Err::<Self, ParseError>(ParseError::NotMatched),
            *old(pos) < data@.len() ==> match scalar_record(data@.skip(*old(pos) as int)) {
                Ok((v, n)) => r == Ok::<Self, ParseError>(v) && *final(pos) == *old(pos) + n,
                Err(e) => r == Err::<Self, ParseError>(e),
            },
            r is Err ==> *final(pos) == *old(pos),
    {
        if *pos >= data.len() {
            return Err(ParseError::NotMatched);
        }
        let b = data[*pos];
        assert(data@.skip(*pos as int)[0] == b);
        if b == TRUE_MASK {
            *pos += 4;
            Ok(Self::True)
        } else if b == FALSE_MASK {
            *pos += 5;
            Ok(Self::False)
        } else if b == NULL_MASK {
            *pos += 4;
            Ok(Self::Null)
        } else {
            Err(ParseError::NotMatched)
        }
    }

    /// Moves the cursor past the keyword record at it, and says whether there
    /// was one. The cursor behind the record has to fit into its type.
    pub fn skip_tlv(data: &[u8], pos: &mut usize) -> (hit: bool)
        requires
            *old(pos) < data@.len() && scalar_record(data@.skip(*old(pos) as int)) is Ok
                ==> *old(pos) + scalar_record(data@.skip(*old(pos) as int))->Ok_0.1
                <= usize::MAX,
        ensures
            hit <==> *old(pos) < data@.len() && scalar_record(
                data@.skip(*old(pos) as int),
            ) is Ok,
            hit ==> *final(pos) == *old(pos) + scalar_record(
                data@.skip(*old(pos) as int),
            )->Ok_0.1,
            !hit ==> *final(pos) == *old(pos),
    {
        if *pos >= data.len() {
            return false;
        }
        let b = data[*pos];
        assert(data@.skip(*pos as int)[0] == b);
        if b == TRUE_MASK {
            *pos += 4;
            true
        } else if b == FALSE_MASK {
            *pos += 5;
            true
        } else if b == NULL_MASK {
            *pos += 4;
            true
        } else {
            false
        }
    }
}

} // verus!
