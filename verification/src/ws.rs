use vstd::prelude::*;
use crate::ascii::{CARRIAGE_RETURN, LINE_FEED, SPACE, TAB};
use crate::runs::{lemma_run_len_is, run_len, zeros};

verus! {

/// The four bytes that may separate tokens.
pub open spec fn is_ws(b: u8) -> bool {
    b == SPACE || b == TAB || b == LINE_FEED || b == CARRIAGE_RETURN
}

pub open spec fn ws_pred() -> spec_fn(u8) -> bool {
    |b: u8| is_ws(b)
}

/// The number of whitespace bytes at the front of `s`.
pub open spec fn ws_len(s: Seq<u8>) -> nat {
    run_len(s, ws_pred())
}

/// Overwrites the whitespace at the cursor with padding and moves the cursor
/// past it. A cursor beyond the end stays, and nothing changes.
pub fn skip_ws(data: &mut [u8], pos: &mut usize)
    ensures
        *old(pos) <= old(data)@.len() ==> {
            &&& *final(pos) == *old(pos) + ws_len(old(data)@.skip(*old(pos) as int))
            &&& *final(pos) <= old(data)@.len()
            &&& final(data)@ == old(data)@.subrange(0, *old(pos) as int) + zeros(
                ws_len(old(data)@.skip(*old(pos) as int)),
            ) + old(data)@.skip(*final(pos) as int)
        },
        *old(pos) > old(data)@.len() ==> *final(pos) == *old(pos) && final(data)@ == old(data)@,
{
    if *pos > data.len() {
        return ;
    }
    let ghost d0 = data@;
    let ghost origin = *pos;
    let ghost s = d0.skip(origin as int);
    while *pos < data.len()
        invariant
            origin <= *pos <= data@.len(),
            data@.len() == d0.len(),
            forall|i: int| 0 <= i < origin ==> data@[i] == d0[i],
            forall|i: int| origin <= i < *pos ==> data@[i] == 0,
            forall|i: int| origin <= i < *pos ==> is_ws(#[trigger] d0[i]),
            forall|i: int| *pos <= i < data@.len() ==> data@[i] == d0[i],
        ensures
            *pos < data@.len() ==> !is_ws(d0[*pos as int]),
        decreases data@.len() - *pos,
    {
        let b = data[*pos];
        if b == SPACE || b == TAB || b == LINE_FEED || b == CARRIAGE_RETURN {
            data[*pos] = 0;
            *pos += 1;
        } else {
            break;
        }
    }
    proof {
        let n = (*pos - origin) as nat;
        assert forall|i: int| 0 <= i < n implies ws_pred()(#[trigger] s[i]) by {
            assert(s[i] == d0[origin + i]);
        }
        lemma_run_len_is(s, ws_pred(), n);
        assert(data@ =~= d0.subrange(0, origin as int) + zeros(n) + d0.skip(*pos as int));
    }
}

} // verus!
