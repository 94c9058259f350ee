use vstd::prelude::*;
use vstd::slice::slice_subrange;
use crate::error::ParseError;
use crate::grammar::json_value;
use crate::json::{splice, Json};
use crate::laws::{lemma_root, lemma_round_trip};
use crate::layout::read_value;
use crate::number::int_or_float::IntOrFloat;
use crate::number::number_value;
use crate::tree::{stands_for, tlv_document};
use crate::runs::zeros;
use crate::skip_zeroes::zero_run;
use crate::ws::ws_len;
use crate::value::Value;

verus! {

pub struct Parser;

impl Parser {
    /// Rewrites the first value of the text in `data` into its encoded form
    /// and reads the record that it has become.
    ///
    /// The text has to begin a value; what follows the value is left as it
    /// is, and is not read. The handle that comes back stands for the tree of
    /// the value. A text that the grammar refuses is refused with the error
    /// of the grammar, and so is a number whose symbols spell no number, with
    /// the error of the number. Where the text begins no value, only the
    /// whitespace at its front has become padding. Where the text is refused
    /// for another reason the buffer keeps its length, and nothing else is
    /// said of it.
    pub fn parse<'a>(data: &'a mut [u8]) -> (r: Result<Value<'a>, ParseError>)
        ensures
            final(data)@.len() == old(data)@.len(),
            match json_value(old(data)@) {
                Err(e) => {
                    &&& r == Err::<Value<'a>, ParseError>(e)
                    &&& e == ParseError::NotMatched ==> final(data)@ == splice(
                        old(data)@,
                        0,
                        zeros(ws_len(old(data)@)),
                    )
                },
                Ok(token) => {
                    &&& final(data)@ == splice(old(data)@, 0, token.image)
                    &&& tlv_document(token.image) == Ok::<Json, ParseError>(token.tree)
                    &&& match read_value(token.image.skip(zero_run(token.image) as int)) {
                        Ok((v, n)) => r is Ok && r->Ok_0@ == v && stands_for(v, token.tree),
                        Err(e) => {
                            &&& r == Err::<Value<'a>, ParseError>(e)
                            &&& token.tree matches Json::Number(symbols) && number_value(symbols)
                                == Err::<IntOrFloat, ParseError>(e)
                        },
                    }
                },
            },
    {
        let ghost d0 = data@;
        let mut pos: usize = 0;
        assert(d0.skip(0) =~= d0);
        match Value::bitmix_to_tlv(data, &mut pos) {
            Err(e) => {
                return Err(e);
            },
            Ok(()) => {},
        }
        proof {
            lemma_root(d0);
            lemma_round_trip(d0);
        }
        let encoded: &'a [u8] = data;
        let image = slice_subrange(encoded, 0, pos);
        assert(image@ =~= json_value(d0)->Ok_0.image);
        Value::from_tlv(image)
    }
}

} // verus!
