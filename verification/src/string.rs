use vstd::prelude::*;
use crate::ascii::{
    BACKSLASH, DIGIT_0, DIGIT_9, LINE_FEED, LOWER_A, LOWER_F, LOWER_N, LOWER_T, LOWER_U, QUOTE,
    TAB, UPPER_A, UPPER_F,
};
use crate::bytesize::{frame, MAX_BYTESIZE};
use crate::error::ParseError;
use crate::json::{image_of, rewritten, splice, Json, Token};
use crate::mask::STRING_MASK;
use crate::runs::zeros;
use crate::tlv::{container_record, decode_container, write_frame, zero_fill};

verus! {

pub struct String;

/// The value of a hexadecimal digit.
pub open spec fn hex_value(c: u8) -> Option<u8> {
    if DIGIT_0 <= c <= DIGIT_9 {
        Some((c - DIGIT_0) as u8)
    } else if LOWER_A <= c <= LOWER_F {
        Some((c - LOWER_A + 10) as u8)
    } else if UPPER_A <= c <= UPPER_F {
        Some((c - UPPER_A + 10) as u8)
    } else {
        None
    }
}

/// The code point that four hexadecimal digits spell.
pub open spec fn code_point(c1: u8, c2: u8, c3: u8, c4: u8) -> Option<u32> {
    if hex_value(c1) is Some && hex_value(c2) is Some && hex_value(c3) is Some && hex_value(
        c4,
    ) is Some {
        Some(
            (((hex_value(c1)->0 * 16 + hex_value(c2)->0) * 16 + hex_value(c3)->0) * 16 + hex_value(
                c4,
            )->0) as u32,
        )
    } else {
        None
    }
}

/// The code points that stand for one half of a pair.
pub open spec fn is_surrogate(cp: u32) -> bool {
    0xD800 <= cp <= 0xDFFF
}

/// The UTF-8 form of a code point below `0x10000`.
pub open spec fn utf8_bytes(cp: u32) -> Seq<u8> {
    if cp < 0x80 {
        seq![cp as u8]
    } else if cp < 0x800 {
        seq![(0xC0 + cp / 64) as u8, (0x80 + cp % 64) as u8]
    } else {
        seq![(0xE0 + cp / 4096) as u8, (0x80 + (cp / 64) % 64) as u8, (0x80 + cp % 64) as u8]
    }
}

/// The body of a string: its bytes with the escapes resolved, and the number
/// of bytes of text that it takes, closing quote included.
pub struct Unescaped {
    pub content: Seq<u8>,
    pub raw: nat,
}

/// `rest` after `head`, which took `n` bytes of text.
pub open spec fn prepend(head: Seq<u8>, n: nat, rest: Result<Unescaped, ParseError>) -> Result<
    Unescaped,
    ParseError,
> {
    match rest {
        Ok(u) => Ok(Unescaped { content: head + u.content, raw: n + u.raw }),
        Err(e) => Err(e),
    }
}

/// What stands at the front of the body of a string.
pub enum Item {
    /// The quote that ends the string.
    Close,
    /// A byte or an escape that took `taken` bytes of text, and the bytes
    /// that it stands for.
    Bytes { bytes: Seq<u8>, taken: nat },
}

/// What stands at the front of `s`, which is text after an opening quote.
///
/// A backslash begins an escape: `\n`, `\t`, `\\`, or `\u` with four
/// hexadecimal digits for a code point that is no surrogate. Any other
/// escape is out of scope, an escaped quote among them. Text that ends
/// before the item does is malformed.
pub open spec fn next_item(s: Seq<u8>) -> Result<Item, ParseError> {
    if s.len() == 0 {
        Err(ParseError::Malformed)
    } else if s[0] == BACKSLASH {
        if s.len() < 2 {
            Err(ParseError::Malformed)
        } else if s[1] == LOWER_N {
            Ok(Item::Bytes { bytes: seq![LINE_FEED], taken: 2 })
        } else if s[1] == LOWER_T {
            Ok(Item::Bytes { bytes: seq![TAB], taken: 2 })
        } else if s[1] == BACKSLASH {
            Ok(Item::Bytes { bytes: seq![BACKSLASH], taken: 2 })
        } else if s[1] == LOWER_U {
            if s.len() < 6 {
                Err(ParseError::Malformed)
            } else {
                match code_point(s[2], s[3], s[4], s[5]) {
                    None => Err(ParseError::Malformed),
                    Some(cp) => if is_surrogate(cp) {
                        Err(ParseError::Unsupported)
                    } else {
                        Ok(Item::Bytes { bytes: utf8_bytes(cp), taken: 6 })
                    },
                }
            }
        } else {
            Err(ParseError::Unsupported)
        }
    } else if s[0] == QUOTE {
        Ok(Item::Close)
    } else {
        Ok(Item::Bytes { bytes: seq![s[0]], taken: 1 })
    }
}

/// The body of the string whose text after the opening quote is `s`: its
/// items up to the first quote that is not part of an escape.
pub open spec fn unescape(s: Seq<u8>) -> Result<Unescaped, ParseError>
    decreases s.len(),
{
    match next_item(s) {
        Err(e) => Err(e),
        Ok(Item::Close) => Ok(Unescaped { content: Seq::empty(), raw: 1 }),
        Ok(Item::Bytes { bytes, taken }) => prepend(bytes, taken, unescape(s.skip(taken as int))),
    }
}

/// The string at the front of `s`. Its image is the record of the unescaped
/// bytes, then padding up to the end of the text of the string.
#[verifier::opaque]
pub open spec fn json_string(s: Seq<u8>) -> Result<Token, ParseError> {
    if s.len() == 0 || s[0] != QUOTE {
        Err(ParseError::NotMatched)
    } else {
        match unescape(s.skip(1)) {
            Err(e) => Err(e),
            Ok(u) => if u.content.len() > MAX_BYTESIZE {
                Err(ParseError::Overflow)
            } else {
                Ok(
                    Token {
                        tree: Json::String(u.content),
                        image: frame(STRING_MASK, u.content.len(), u.content) + zeros(
                            (u.raw - 1 - u.content.len()) as nat,
                        ),
                    },
                )
            },
        }
    }
}

/// The string record at the front of `b`: its bytes and its size.
pub open spec fn string_record(b: Seq<u8>) -> Result<(Seq<u8>, nat), ParseError> {
    container_record(b, STRING_MASK)
}

/// Where the text has ended, no string begins.
pub proof fn lemma_no_string_in_nothing(s: Seq<u8>)
    requires
        s.len() == 0,
    ensures
        json_string(s) == Err::<Token, ParseError>(ParseError::NotMatched),
{
    reveal(json_string);
}

/// Resolving escapes never makes a string longer, and a body is never told
/// to be no string at all.
pub proof fn lemma_unescape_shrinks(s: Seq<u8>)
    ensures
        unescape(s) matches Ok(u) ==> u.content.len() + 1 <= u.raw <= s.len(),
        unescape(s) != Err::<Unescaped, ParseError>(ParseError::NotMatched),
    decreases s.len(),
{
    match next_item(s) {
        Ok(Item::Bytes { bytes, taken }) => {
            lemma_unescape_shrinks(s.skip(taken as int));
        },
        _ => {},
    }
}

proof fn lemma_prepend_twice(
    a: Seq<u8>,
    n: nat,
    b: Seq<u8>,
    m: nat,
    rest: Result<Unescaped, ParseError>,
)
    ensures
        prepend(a, n, prepend(b, m, rest)) == prepend(a + b, n + m, rest),
{
    if let Ok(u) = rest {
        assert(a + (b + u.content) =~= (a + b) + u.content);
    }
}

/// The image of a string, from what is written in place step by step: the
/// unescaped body behind the opening quote, then the frame around it.
proof fn lemma_string_image(d0: Seq<u8>, d1: Seq<u8>, d2: Seq<u8>, p: int, u: Unescaped)
    requires
        0 <= p,
        u.content.len() + 1 <= u.raw,
        p + u.raw + 1 <= d0.len(),
        d1 == splice(
            d0,
            p + 1,
            u.content + seq![QUOTE] + zeros((u.raw - 1 - u.content.len()) as nat),
        ),
        d2 == d1.subrange(0, p) + frame(
            STRING_MASK,
            u.content.len(),
            d1.subrange(p + 1, p + u.content.len() + 1),
        ) + d1.skip(p + u.content.len() + 2),
    ensures
        d2 == splice(
            d0,
            p,
            frame(STRING_MASK, u.content.len(), u.content) + zeros(
                (u.raw - 1 - u.content.len()) as nat,
            ),
        ),
{
    let len = u.content.len();
    let pad = zeros((u.raw - 1 - len) as nat);
    let f = frame(STRING_MASK, len, u.content);
    assert(d1.len() == d0.len());
    assert(d1.subrange(0, p) =~= d0.subrange(0, p));
    assert(d1.subrange(p + 1, p + len + 1) =~= u.content);
    assert(d1.skip(p + len + 2) =~= pad + d0.skip(p + u.raw + 1));
    assert(f.len() == len + 2);
    assert((f + pad).len() == u.raw + 1);
    assert(d0.subrange(0, p) + f + (pad + d0.skip(p + u.raw + 1)) =~= d0.subrange(0, p) + (f + pad)
        + d0.skip(p + u.raw + 1));
}

fn is_hex(c: u8) -> (r: bool)
    ensures
        r == hex_value(c) is Some,
{
    (DIGIT_0 <= c && c <= DIGIT_9) || (LOWER_A <= c && c <= LOWER_F) || (UPPER_A <= c && c
        <= UPPER_F)
}

/// The value of the hexadecimal digit `c`.
pub fn unhex(c: u8) -> (r: u8)
    requires
        hex_value(c) is Some,
    ensures
        Some(r) == hex_value(c),
        r < 16,
{
    if DIGIT_0 <= c && c <= DIGIT_9 {
        c - DIGIT_0
    } else if LOWER_A <= c && c <= LOWER_F {
        c - LOWER_A + 10
    } else {
        c - UPPER_A + 10
    }
}

/// Writes the UTF-8 form of `cp` at `at` and returns its length.
fn put_utf8(data: &mut [u8], at: usize, cp: u32) -> (n: usize)
    requires
        cp < 0x10000,
        at + 3 <= old(data)@.len(),
    ensures
        n == utf8_bytes(cp).len(),
        1 <= n <= 3,
        final(data)@ == splice(old(data)@, at as int, utf8_bytes(cp)),
{
    let ghost d0 = data@;
    if cp < 0x80 {
        data[at] = cp as u8;
        assert(data@ =~= splice(d0, at as int, utf8_bytes(cp)));
        1
    } else if cp < 0x800 {
        data[at] = (0xC0 + cp / 64) as u8;
        data[at + 1] = (0x80 + cp % 64) as u8;
        assert(data@ =~= splice(d0, at as int, utf8_bytes(cp)));
        2
    } else {
        data[at] = (0xE0 + cp / 4096) as u8;
        data[at + 1] = (0x80 + (cp / 64) % 64) as u8;
        data[at + 2] = (0x80 + cp % 64) as u8;
        assert(data@ =~= splice(d0, at as int, utf8_bytes(cp)));
        3
    }
}

/// Resolves the item at `read_from` and writes its bytes at `write_to`.
/// Returns how far each of the two has moved, or `None` at the closing
/// quote.
fn rewrite_item(data: &mut [u8], read_from: usize, write_to: usize) -> (r: Result<
    Option<(usize, usize)>,
    ParseError,
>)
    requires
        write_to <= read_from <= old(data)@.len(),
    ensures
        final(data)@.len() == old(data)@.len(),
        match next_item(old(data)@.skip(read_from as int)) {
            Err(e) => r == Err::<Option<(usize, usize)>, ParseError>(e) && final(data)@ == old(
                data,
            )@,
            Ok(Item::Close) => r == Ok::<Option<(usize, usize)>, ParseError>(None) && final(data)@
                == old(data)@ && read_from < old(data)@.len(),
            Ok(Item::Bytes { bytes, taken }) => {
                &&& r == Ok::<Option<(usize, usize)>, ParseError>(
                    Some((taken as usize, bytes.len() as usize)),
                )
                &&& 1 <= bytes.len() <= taken
                &&& read_from + taken <= old(data)@.len()
                &&& final(data)@ == splice(old(data)@, write_to as int, bytes)
            },
        },
{
    let ghost d0 = data@;
    let ghost rest = d0.skip(read_from as int);
    let size = data.len();
    if read_from >= size {
        return Err(ParseError::Malformed);
    }
    assert(rest[0] == d0[read_from as int]);
    let c = data[read_from];
    if c == BACKSLASH {
        if size - read_from < 2 {
            return Err(ParseError::Malformed);
        }
        assert(rest[1] == d0[read_from + 1]);
        let e = data[read_from + 1];
        if e == LOWER_N || e == LOWER_T || e == BACKSLASH {
            let byte = if e == LOWER_N {
                LINE_FEED
            } else if e == LOWER_T {
                TAB
            } else {
                BACKSLASH
            };
            data[write_to] = byte;
            assert(data@ =~= splice(d0, write_to as int, seq![byte]));
            Ok(Some((2, 1)))
        } else if e == LOWER_U {
            if size - read_from < 6 {
                return Err(ParseError::Malformed);
            }
            assert(rest[2] == d0[read_from + 2] && rest[3] == d0[read_from + 3] && rest[4]
                == d0[read_from + 4] && rest[5] == d0[read_from + 5]);
            let c1 = data[read_from + 2];
            let c2 = data[read_from + 3];
            let c3 = data[read_from + 4];
            let c4 = data[read_from + 5];
            if !(is_hex(c1) && is_hex(c2) && is_hex(c3) && is_hex(c4)) {
                return Err(ParseError::Malformed);
            }
            let as_u32: u32 = ((unhex(c1) as u32 * 16 + unhex(c2) as u32) * 16 + unhex(c3) as u32)
                * 16 + unhex(c4) as u32;
            assert(Some(as_u32) == code_point(c1, c2, c3, c4));
            if 0xD800 <= as_u32 && as_u32 <= 0xDFFF {
                return Err(ParseError::Unsupported);
            }
            let n = put_utf8(data, write_to, as_u32);
            Ok(Some((6, n)))
        } else {
            Err(ParseError::Unsupported)
        }
    } else if c == QUOTE {
        Ok(None)
    } else {
        data[write_to] = c;
        assert(data@ =~= splice(d0, write_to as int, seq![c]));
        Ok(Some((1, 1)))
    }
}

/// The spans of a string whose escapes have been resolved in place, both
/// with the two quotes: the bytes of text, and the bytes that are left.
#[derive(Debug, Clone, Copy)]
pub struct UnescapingResult {
    pub read_bytesize: usize,
    pub written_bytesize: usize,
}

/// Resolves the escapes of the string whose opening quote stands at `pos`.
/// The body moves up to the opening quote, a quote closes it, and the rest
/// of the text of the string becomes padding.
pub fn rewrite_unescaped_json_string(data: &mut [u8], pos: usize) -> (r: Result<
    UnescapingResult,
    ParseError,
>)
    requires
        pos < old(data)@.len(),
    ensures
        final(data)@.len() == old(data)@.len(),
        match unescape(old(data)@.skip(pos + 1)) {
            Ok(u) => {
                &&& r is Ok
                &&& r->Ok_0.read_bytesize == u.raw + 1
                &&& r->Ok_0.written_bytesize == u.content.len() + 2
                &&& u.content.len() + 1 <= u.raw
                &&& pos + u.raw + 1 <= old(data)@.len()
                &&& final(data)@ == splice(
                    old(data)@,
                    pos + 1,
                    u.content + seq![QUOTE] + zeros((u.raw - 1 - u.content.len()) as nat),
                )
            },
            Err(e) => r == Err::<UnescapingResult, ParseError>(e) && e != ParseError::NotMatched,
        },
{
    let ghost d0 = data@;
    let ghost s0 = d0.skip(pos + 1);
    let size = data.len();
    let mut write_to: usize = pos + 1;
    let mut read_from: usize = pos + 1;
    let mut failure: Option<ParseError> = None;
    proof {
        lemma_unescape_shrinks(s0);
        assert(data@.subrange(pos + 1, write_to as int) =~= Seq::<u8>::empty());
        match unescape(s0) {
            Ok(u) => {
                assert(Seq::<u8>::empty() + u.content =~= u.content);
            },
            Err(_) => {},
        }
    }
    loop
        invariant_except_break
            failure is None,
        invariant
            size == d0.len(),
            data@.len() == d0.len(),
            s0 == d0.skip(pos + 1),
            pos + 1 <= write_to <= read_from <= size,
            forall|j: int| 0 <= j <= pos ==> data@[j] == d0[j],
            forall|j: int| read_from <= j < size ==> data@[j] == d0[j],
            unescape(s0) == prepend(
                data@.subrange(pos + 1, write_to as int),
                (read_from - pos - 1) as nat,
                unescape(d0.skip(read_from as int)),
            ),
        ensures
            failure matches Some(e) ==> unescape(s0) == Err::<Unescaped, ParseError>(e),
            failure is None ==> read_from < size && unescape(s0) == Ok::<Unescaped, ParseError>(
                Unescaped {
                    content: data@.subrange(pos + 1, write_to as int),
                    raw: (read_from - pos) as nat,
                },
            ),
        decreases size - read_from,
    {
        let ghost rest = d0.skip(read_from as int);
        let ghost done = data@.subrange(pos + 1, write_to as int);
        let ghost taken_so_far = (read_from - pos - 1) as nat;
        let ghost before = data@;
        assert(before.skip(read_from as int) =~= rest);
        match rewrite_item(data, read_from, write_to) {
            Err(e) => {
                failure = Some(e);
                break;
            },
            Ok(None) => {
                assert(done + Seq::<u8>::empty() =~= done);
                break;
            },
            Ok(Some((taken, written))) => {
                proof {
                    let bytes = next_item(rest)->Ok_0->bytes;
                    assert(rest.skip(taken as int) =~= d0.skip(read_from + taken));
                    assert(data@.subrange(pos + 1, write_to + written) =~= done + bytes);
                    lemma_prepend_twice(
                        done,
                        taken_so_far,
                        bytes,
                        taken as nat,
                        unescape(rest.skip(taken as int)),
                    );
                }
                write_to += written;
                read_from += taken;
            },
        }
    }
    if let Some(e) = failure {
        return Err(e);
    }
    let ghost content = data@.subrange(pos + 1, write_to as int);
    data[write_to] = QUOTE;
    let read_bytesize = read_from + 1 - pos;
    let written_bytesize = write_to + 1 - pos;
    zero_fill(data, pos + written_bytesize, pos + read_bytesize);
    proof {
        let u = Unescaped { content, raw: (read_from - pos) as nat };
        assert(data@ =~= splice(
            d0,
            pos + 1,
            u.content + seq![QUOTE] + zeros((u.raw - 1 - u.content.len()) as nat),
        ));
    }
    Ok(UnescapingResult { written_bytesize, read_bytesize })
}

impl String {
    /// Rewrites the string at the cursor into its record and moves the cursor
    /// past its text. Where no string begins at the cursor, nothing changes.
    pub fn bitmix_to_tlv(data: &mut [u8], pos: &mut usize) -> (r: Result<(), ParseError>)
        requires
            *old(pos) <= old(data)@.len(),
        ensures
            rewritten(
                old(data)@,
                *old(pos) as int,
                image_of(json_string(old(data)@.skip(*old(pos) as int))),
                r,
                final(data)@,
                *final(pos) as int,
            ),
            r == Err::<(), ParseError>(ParseError::NotMatched) ==> final(data)@ == old(data)@
                && *final(pos) == *old(pos),
    {
        let ghost d0 = data@;
        let p = *pos;
        reveal(json_string);
        if p >= data.len() {
            return Err(ParseError::NotMatched);
        }
        assert(d0.skip(p as int)[0] == d0[p as int]);
        if data[p] != QUOTE {
            return Err(ParseError::NotMatched);
        }
        assert(d0.skip(p as int).skip(1) =~= d0.skip(p + 1));
        let UnescapingResult { read_bytesize, written_bytesize } =
            match rewrite_unescaped_json_string(data, p) {
            Ok(spans) => spans,
            Err(e) => {
                return Err(e);
            },
        };
        let ghost u = unescape(d0.skip(p + 1))->Ok_0;
        let ghost d1 = data@;
        if written_bytesize - 2 > MAX_BYTESIZE {
            return Err(ParseError::Overflow);
        }
        write_frame(data, p, p + written_bytesize, written_bytesize - 2, STRING_MASK);
        *pos = p + read_bytesize;
        proof {
            lemma_string_image(d0, d1, data@, p as int, u);
        }
        Ok(())
    }

    /// Reads the string record at the cursor, hands out its bytes and moves
    /// the cursor past the record.
    pub fn decode_tlv<'a>(data: &'a [u8], pos: &mut usize) -> (r: Result<&'a [u8], ParseError>)
        ensures
            *old(pos) > data@.len() ==> r == Err::<&[u8], ParseError>(ParseError::NotMatched),
            *old(pos) <= data@.len() ==> match string_record(data@.skip(*old(pos) as int)) {
                Ok((bytes, n)) => r is Ok && r->Ok_0@ == bytes && *final(pos) == *old(pos) + n,
                Err(e) => r == Err::<&[u8], ParseError>(e),
            },
            r is Err ==> *final(pos) == *old(pos),
            r is Ok ==> *final(pos) <= data@.len(),
    {
        decode_container(data, pos, STRING_MASK)
    }

    /// Moves the cursor past the string record at it, and says whether there
    /// was one.
    pub fn skip_tlv(data: &[u8], pos: &mut usize) -> (hit: bool)
        ensures
            hit <==> *old(pos) <= data@.len() && string_record(
                data@.skip(*old(pos) as int),
            ) is Ok,
            hit ==> *final(pos) == *old(pos) + string_record(
                data@.skip(*old(pos) as int),
            )->Ok_0.1,
            !hit ==> *final(pos) == *old(pos),
    {
        Self::decode_tlv(data, pos).is_ok()
    }
}

} // verus!
