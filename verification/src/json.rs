use vstd::prelude::*;
use crate::error::ParseError;

verus! {

/// The logical content of a JSON text.
pub enum Json {
    Null,
    True,
    False,
    /// The symbols of the number as written, one code per symbol: `0` to `9`
    /// for the digits, 10 for `-`, 11 for `e` and `E`, 12 for `.`.
    Number(Seq<u8>),
    /// The bytes of the string with its escapes resolved.
    String(Seq<u8>),
    Array(Seq<Json>),
    /// The members in the order of the text, each key with its escapes
    /// resolved.
    Object(Seq<(Seq<u8>, Json)>),
}

/// A token of the text: what it means, and the bytes that take its place.
/// The image is as long as the token.
pub struct Token {
    pub tree: Json,
    pub image: Seq<u8>,
}

/// `s` with the bytes from `p` on replaced by `image`, as far as it reaches.
pub open spec fn splice(s: Seq<u8>, p: int, image: Seq<u8>) -> Seq<u8> {
    s.subrange(0, p) + image + s.skip(p + image.len())
}

/// The image of a token, or why there is none.
pub open spec fn image_of(outcome: Result<Token, ParseError>) -> Result<Seq<u8>, ParseError> {
    match outcome {
        Ok(t) => Ok(t.image),
        Err(e) => Err(e),
    }
}

/// What an encoder owes for a piece of text with the image `outcome`: on
/// success the cursor has moved from `p` past the text to `q` and the image
/// stands in its place, with every other byte as it was; on failure the error
/// is the one that the grammar gives. The buffer keeps its length either way.
pub open spec fn rewritten(
    before: Seq<u8>,
    p: int,
    outcome: Result<Seq<u8>, ParseError>,
    r: Result<(), ParseError>,
    after: Seq<u8>,
    q: int,
) -> bool {
    &&& after.len() == before.len()
    &&& match outcome {
        Ok(image) => {
            &&& r is Ok
            &&& q == p + image.len()
            &&& q <= before.len()
            &&& after == splice(before, p, image)
        },
        Err(e) => r == Err::<(), ParseError>(e),
    }
}

/// `rest` behind the bytes `head`.
pub open spec fn prefixed(head: Seq<u8>, rest: Result<Seq<u8>, ParseError>) -> Result<
    Seq<u8>,
    ParseError,
> {
    match rest {
        Ok(image) => Ok(head + image),
        Err(e) => Err(e),
    }
}

pub proof fn lemma_prefixed_twice(a: Seq<u8>, b: Seq<u8>, rest: Result<Seq<u8>, ParseError>)
    ensures
        prefixed(a, prefixed(b, rest)) == prefixed(a + b, rest),
{
    if let Ok(image) = rest {
        assert(a + (b + image) =~= (a + b) + image);
    }
}

/// The token with `n` bytes of padding in front of its image.
pub open spec fn padded(n: nat, t: Token) -> Token {
    Token { tree: t.tree, image: crate::runs::zeros(n) + t.image }
}

} // verus!
