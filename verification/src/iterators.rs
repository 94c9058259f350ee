use vstd::prelude::*;
use vstd::slice::slice_subrange;
use crate::array::Array;
use crate::layout::{next_element, next_member};
use crate::object::Object;
use crate::skip_zeroes::{skip_zeroes, zero_run};
use crate::string::String;
use crate::value::Value;

verus! {

/// Walks the elements of an array in the order of the text.
pub struct ArrayIterator<'a> {
    data: &'a [u8],
}

/// Walks the members of an object in the order of the text.
pub struct ObjectIterator<'a> {
    data: &'a [u8],
}

impl<'a> ArrayIterator<'a> {
    /// The part of the payload that has not been walked yet.
    pub closed spec fn remaining(&self) -> Seq<u8> {
        self.data@
    }

    /// Hands out the next element and moves behind it, or hands out `None`
    /// and stays: where only padding is left, or where what is left cannot
    /// be read.
    pub fn next(&mut self) -> (r: Option<Value<'a>>)
        ensures
            match next_element(old(self).remaining()) {
                Some((v, n)) => r is Some && r->0@ == v && final(self).remaining() == old(
                    self,
                ).remaining().skip(n as int),
                None => r is None && final(self).remaining() == old(self).remaining(),
            },
    {
        let data = self.data;
        let mut pos: usize = 0;
        assert(data@.skip(0) =~= data@);
        proof {
            crate::runs::lemma_run_len_props(data@, crate::skip_zeroes::zero_pred());
        }
        match Value::decode_tlv(data, &mut pos) {
            Ok(value) => {
                self.data = slice_subrange(data, pos, data.len());
                Some(value)
            },
            Err(_) => None,
        }
    }
}

impl<'a> Array<'a> {
    /// A walk over the elements, from the first.
    pub fn iter(&self) -> (it: ArrayIterator<'a>)
        ensures
            it.remaining() == self.data@,
    {
        ArrayIterator { data: self.data }
    }
}

impl<'a> ObjectIterator<'a> {
    /// The part of the payload that has not been walked yet.
    pub closed spec fn remaining(&self) -> Seq<u8> {
        self.data@
    }

    /// Hands out the next member, its key and its value, and moves behind
    /// it, or hands out `None` and stays: where only padding is left, or
    /// where what is left cannot be read.
    pub fn next(&mut self) -> (r: Option<(&'a [u8], Value<'a>)>)
        ensures
            match next_member(old(self).remaining()) {
                Some(((key, v), n)) => {
                    &&& r matches Some((found_key, found)) && found_key@ == key && found@ == v
                    &&& final(self).remaining() == old(self).remaining().skip(n as int)
                },
                None => r is None && final(self).remaining() == old(self).remaining(),
            },
    {
        let data = self.data;
        let mut pos: usize = 0;
        assert(data@.skip(0) =~= data@);
        skip_zeroes(data, &mut pos);
        if pos >= data.len() {
            return None;
        }
        let ghost k = pos;
        let key = match String::decode_tlv(data, &mut pos) {
            Ok(key) => key,
            Err(_) => {
                return None;
            },
        };
        let ghost after_key = pos;
        proof {
            crate::runs::lemma_run_len_props(
                data@.skip(after_key as int),
                crate::skip_zeroes::zero_pred(),
            );
        }
        assert(data@.skip(after_key as int).skip(zero_run(data@.skip(after_key as int)) as int)
            =~= data@.skip(after_key + zero_run(data@.skip(after_key as int))));
        let value = match Value::decode_tlv(data, &mut pos) {
            Ok(value) => value,
            Err(_) => {
                return None;
            },
        };
        self.data = slice_subrange(data, pos, data.len());
        Some((key, value))
    }
}

impl<'a> Object<'a> {
    /// A walk over the members, from the first.
    pub fn iter(&self) -> (it: ObjectIterator<'a>)
        ensures
            it.remaining() == self.data@,
    {
        ObjectIterator { data: self.data }
    }
}

} // verus!
