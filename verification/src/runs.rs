use vstd::prelude::*;

verus! {

/// `n` padding bytes.
pub open spec fn zeros(n: nat) -> Seq<u8> {
    Seq::new(n, |i: int| 0u8)
}

/// Whether every byte of `s` is `0x00`.
pub open spec fn all_zero(s: Seq<u8>) -> bool {
    forall|i: int| 0 <= i < s.len() ==> s[i] == 0
}

/// The number of leading bytes of `s` that satisfy `f`.
pub open spec fn run_len(s: Seq<u8>, f: spec_fn(u8) -> bool) -> nat
    decreases s.len(),
{
    if s.len() > 0 && f(s[0]) {
        1 + run_len(s.skip(1), f)
    } else {
        0
    }
}

/// A run is known by its members and by the byte that ends it.
pub proof fn lemma_run_len_is(s: Seq<u8>, f: spec_fn(u8) -> bool, n: nat)
    requires
        n <= s.len(),
        forall|i: int| 0 <= i < n ==> f(#[trigger] s[i]),
        n < s.len() ==> !f(s[n as int]),
    ensures
        run_len(s, f) == n,
    decreases n,
{
    if n > 0 {
        let t = s.skip(1);
        assert forall|i: int| 0 <= i < n - 1 implies f(#[trigger] t[i]) by {
            assert(t[i] == s[i + 1]);
        }
        lemma_run_len_is(t, f, (n - 1) as nat);
    }
}

pub proof fn lemma_run_len_props(s: Seq<u8>, f: spec_fn(u8) -> bool)
    ensures
        run_len(s, f) <= s.len(),
        forall|i: int| 0 <= i < run_len(s, f) ==> f(#[trigger] s[i]),
        run_len(s, f) < s.len() ==> !f(s[run_len(s, f) as int]),
    decreases s.len(),
{
    if s.len() > 0 && f(s[0]) {
        let t = s.skip(1);
        lemma_run_len_props(t, f);
        assert forall|i: int| 0 <= i < run_len(s, f) implies f(#[trigger] s[i]) by {
            if i > 0 {
                assert(s[i] == t[i - 1]);
            }
        }
        if run_len(s, f) < s.len() {
            assert(t[run_len(t, f) as int] == s[run_len(s, f) as int]);
        }
    }
}

} // verus!
