use vstd::prelude::*;
use crate::runs::{lemma_run_len_is, run_len};

verus! {

pub open spec fn zero_pred() -> spec_fn(u8) -> bool {
    |b: u8| b == 0
}

/// The number of padding bytes at the front of `s`.
pub open spec fn zero_run(s: Seq<u8>) -> nat {
    run_len(s, zero_pred())
}

/// Moves the cursor over the padding in front of it: to the next non-zero
/// byte, or to the end of `data`. A cursor beyond the end stays.
pub fn skip_zeroes(data: &[u8], pos: &mut usize)
    ensures
        *old(pos) <= data@.len() ==> *final(pos) == *old(pos) + zero_run(
            data@.skip(*old(pos) as int),
        ) && *final(pos) <= data@.len(),
        *old(pos) > data@.len() ==> *final(pos) == *old(pos),
{
    if *pos > data.len() {
        return ;
    }
    let ghost origin = *pos;
    let ghost s = data@.skip(origin as int);
    while *pos < data.len()
        invariant
            origin <= *pos <= data@.len(),
            forall|i: int| origin <= i < *pos ==> data@[i] == 0,
        ensures
            *pos < data@.len() ==> data@[*pos as int] != 0,
        decreases data@.len() - *pos,
    {
        if data[*pos] == 0 {
            *pos += 1;
        } else {
            break;
        }
    }
    proof {
        let n = (*pos - origin) as nat;
        assert forall|i: int| 0 <= i < n implies zero_pred()(#[trigger] s[i]) by {
            assert(s[i] == data@[origin + i]);
        }
        lemma_run_len_is(s, zero_pred(), n);
    }
}

} // verus!
