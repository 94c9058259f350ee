//! What the encoded form means: the tree that a full walk through a record
//! and everything nested in it yields.

use vstd::prelude::*;
use crate::error::{fatal, ParseError};
use crate::json::Json;
use crate::layout::{number_view, record, Record, ValueView};
use crate::number::number_value;
use crate::runs::all_zero;
use crate::skip_zeroes::zero_run;
use crate::string::string_record;

verus! {

/// The payload of the array or object record at the front of `b`.
pub open spec fn payload_of(b: Seq<u8>) -> Seq<u8> {
    match record(b) {
        Ok((Record::Object(payload), _)) => payload,
        Ok((Record::Array(payload), _)) => payload,
        _ => Seq::empty(),
    }
}

/// The tree of the record at the front of `b`, and the size of the record,
/// given the members and the elements that its payload holds.
pub open spec fn tree_rule(
    b: Seq<u8>,
    members: Result<Seq<(Seq<u8>, Json)>, ParseError>,
    elements: Result<Seq<Json>, ParseError>,
) -> Result<(Json, nat), ParseError> {
    match record(b) {
        Err(e) => Err(e),
        Ok((rec, n)) => match rec {
            Record::Object(_) => match members {
                Ok(pairs) => Ok((Json::Object(pairs), n)),
                Err(e) => Err(e),
            },
            Record::Array(_) => match elements {
                Ok(trees) => Ok((Json::Array(trees), n)),
                Err(e) => Err(e),
            },
            Record::String(bytes) => Ok((Json::String(bytes), n)),
            Record::Number(symbols) => Ok((Json::Number(symbols), n)),
            Record::True => Ok((Json::True, n)),
            Record::False => Ok((Json::False, n)),
            Record::Null => Ok((Json::Null, n)),
        },
    }
}

/// The elements of a payload, given the tree of the record behind its
/// leading padding and the elements behind that record. A payload of padding
/// alone holds none. What is no record breaks the payload.
pub open spec fn walk_elements_rule(
    p: Seq<u8>,
    first: Result<(Json, nat), ParseError>,
    rest: Result<Seq<Json>, ParseError>,
) -> Result<Seq<Json>, ParseError> {
    let k = zero_run(p);
    if k >= p.len() {
        Ok(Seq::empty())
    } else {
        match first {
            Err(e) => Err(fatal(e)),
            Ok((tree, n)) => if !(0 < n <= p.len() - k) {
                Err(ParseError::Malformed)
            } else {
                match rest {
                    Err(e) => Err(e),
                    Ok(trees) => Ok(seq![tree] + trees),
                }
            },
        }
    }
}

/// Where the value of the first member of a payload begins: behind the
/// leading padding, the key and the padding behind the key.
pub open spec fn member_value_start(p: Seq<u8>) -> nat {
    let k = zero_run(p);
    match string_record(p.skip(k as int)) {
        Ok((_, n)) => k + n + zero_run(p.skip((k + n) as int)),
        Err(_) => 0,
    }
}

/// The members of a payload, given the tree of the value of the first and
/// the members behind it.
pub open spec fn walk_members_rule(
    p: Seq<u8>,
    value: Result<(Json, nat), ParseError>,
    rest: Result<Seq<(Seq<u8>, Json)>, ParseError>,
) -> Result<Seq<(Seq<u8>, Json)>, ParseError> {
    let k = zero_run(p);
    if k >= p.len() {
        Ok(Seq::empty())
    } else {
        match string_record(p.skip(k as int)) {
            Err(e) => Err(fatal(e)),
            Ok((key, _)) => match value {
                Err(e) => Err(fatal(e)),
                Ok((tree, n)) => if !(0 < n && member_value_start(p) + n <= p.len()) {
                    Err(ParseError::Malformed)
                } else {
                    match rest {
                        Err(e) => Err(e),
                        Ok(pairs) => Ok(seq![(key, tree)] + pairs),
                    }
                },
            },
        }
    }
}

/// The tree of the record at the front of `b`, and the size of the record.
#[verifier::opaque]
pub open spec fn tlv_value(b: Seq<u8>) -> Result<(Json, nat), ParseError>
    decreases b.len(), 1nat,
{
    let p = payload_of(b);
    if p.len() < b.len() {
        tree_rule(b, tlv_members(p), tlv_elements(p))
    } else {
        tree_rule(b, Err(ParseError::Malformed), Err(ParseError::Malformed))
    }
}

/// The trees of the elements that the payload `p` of an array holds.
#[verifier::opaque]
pub open spec fn tlv_elements(p: Seq<u8>) -> Result<Seq<Json>, ParseError>
    decreases p.len(), 2nat,
{
    let k = zero_run(p);
    if k >= p.len() {
        Ok(Seq::empty())
    } else {
        let first = tlv_value(p.skip(k as int));
        walk_elements_rule(
            p,
            first,
            if first is Ok && 0 < first->Ok_0.1 <= p.len() - k {
                tlv_elements(p.skip((k + first->Ok_0.1) as int))
            } else {
                Err(ParseError::Malformed)
            },
        )
    }
}

/// The keys and the trees of the members that the payload `p` of an object
/// holds.
#[verifier::opaque]
pub open spec fn tlv_members(p: Seq<u8>) -> Result<Seq<(Seq<u8>, Json)>, ParseError>
    decreases p.len(), 2nat,
{
    let k = zero_run(p);
    let start = member_value_start(p);
    if k >= p.len() || start >= p.len() || start == 0 {
        walk_members_rule(p, Err(ParseError::Malformed), Err(ParseError::Malformed))
    } else {
        let value = tlv_value(p.skip(start as int));
        walk_members_rule(
            p,
            value,
            if value is Ok && 0 < value->Ok_0.1 && start + value->Ok_0.1 <= p.len() {
                tlv_members(p.skip((start + value->Ok_0.1) as int))
            } else {
                Err(ParseError::Malformed)
            },
        )
    }
}

/// The tree of a buffer that holds one record with padding around it.
pub open spec fn tlv_document(b: Seq<u8>) -> Result<Json, ParseError> {
    let k = zero_run(b);
    if k >= b.len() {
        Err(ParseError::NotMatched)
    } else {
        match tlv_value(b.skip(k as int)) {
            Err(e) => Err(e),
            Ok((tree, n)) => if k + n <= b.len() && all_zero(b.skip((k + n) as int)) {
                Ok(tree)
            } else {
                Err(ParseError::Malformed)
            },
        }
    }
}

/// Whether the handle `v` is one for the tree: it views the payload that
/// holds the members or elements of the tree, or the bytes of the string, or
/// it is the number that the symbols spell, or the same keyword.
pub open spec fn stands_for(v: ValueView, tree: Json) -> bool {
    match v {
        ValueView::Object(payload) => tree matches Json::Object(pairs) && tlv_members(payload)
            == Ok::<Seq<(Seq<u8>, Json)>, ParseError>(pairs),
        ValueView::Array(payload) => tree matches Json::Array(trees) && tlv_elements(payload)
            == Ok::<Seq<Json>, ParseError>(trees),
        ValueView::String(bytes) => tree == Json::String(bytes),
        ValueView::Integer(_) => tree matches Json::Number(symbols) && number_value(
            symbols,
        ) matches Ok(n) && number_view(n) == v,
        ValueView::Float(_) => tree matches Json::Number(symbols) && number_value(
            symbols,
        ) matches Ok(n) && number_view(n) == v,
        ValueView::True => tree == Json::True,
        ValueView::False => tree == Json::False,
        ValueView::Null => tree == Json::Null,
    }
}

/// Where no byte is left, no record is read.
pub proof fn lemma_nothing_to_read(b: Seq<u8>)
    requires
        b.len() == 0,
    ensures
        tlv_value(b) == Err::<(Json, nat), ParseError>(ParseError::NotMatched),
{
    reveal(tlv_value);
}

/// The tree of a record is what its rule makes of the members and the
/// elements in its payload.
pub proof fn lemma_tree(b: Seq<u8>)
    ensures
        tlv_value(b) == tree_rule(b, tlv_members(payload_of(b)), tlv_elements(payload_of(b))),
        payload_of(b).len() < b.len() || payload_of(b).len() == 0,
{
    reveal(tlv_value);
    reveal(tlv_members);
    reveal(tlv_elements);
    crate::layout::lemma_record_size(b);
}

/// A record with a tree takes at least one byte and no more than there are.
pub proof fn lemma_tree_size(b: Seq<u8>)
    ensures
        tlv_value(b) matches Ok((tree, n)) ==> 1 <= n <= b.len(),
{
    lemma_tree(b);
    crate::layout::lemma_record_size(b);
}

/// The elements of a payload are what their rule makes of the first record
/// and the elements behind it.
pub proof fn lemma_walk_elements_rule(p: Seq<u8>)
    ensures
        tlv_elements(p) == walk_elements_rule(
            p,
            tlv_value(p.skip(zero_run(p) as int)),
            tlv_elements(
                p.skip((zero_run(p) + tlv_value(p.skip(zero_run(p) as int))->Ok_0.1) as int),
            ),
        ),
{
    reveal(tlv_elements);
    reveal(tlv_value);
}

/// The members of a payload are what their rule makes of the value of the
/// first and the members behind it.
pub proof fn lemma_walk_members_rule(p: Seq<u8>)
    ensures
        tlv_members(p) == walk_members_rule(
            p,
            tlv_value(p.skip(member_value_start(p) as int)),
            tlv_members(
                p.skip(
                    (member_value_start(p) + tlv_value(
                        p.skip(member_value_start(p) as int),
                    )->Ok_0.1) as int,
                ),
            ),
        ),
{
    reveal(tlv_members);
    reveal(tlv_value);
    let k = zero_run(p);
    let start = member_value_start(p);
    if k < p.len() {
        if let Ok((key, n)) = string_record(p.skip(k as int)) {
            crate::tlv::lemma_container_size(p.skip(k as int), crate::mask::STRING_MASK);
            crate::runs::lemma_run_len_props(
                p.skip((k + n) as int),
                crate::skip_zeroes::zero_pred(),
            );
            if start >= p.len() {
                lemma_nothing_to_read(p.skip(start as int));
            }
        }
    }
}

} // verus!
