//! Properties that hold of every reachable state and across operations.
//! Every operation that changes the state keeps `wf`, so these hold after
//! any sequence of them.
use vstd::prelude::*;
use crate::alist::{all_positive, has_key, lemma_lookup, total};
use crate::state::AppState;

verus! {

/// Index mirroring: in a well-formed state the by-website and the by-term
/// index record the same amount for every website and term; an amount is
/// recorded exactly when it is positive, and neither index keeps an empty
/// list.
pub proof fn lemma_index_mirroring(s: AppState, w: (Seq<u8>, Seq<char>), t: Seq<char>)
    requires
        s.wf(),
    ensures
        s.staked(w, t) == s.term_staked(t, w),
        has_key(s.stakes_of(w), t) <==> s.staked(w, t) > 0,
        has_key(s.term_entries(t), w) <==> s.term_staked(t, w) > 0,
        all_positive(s.stakes_of(w)),
        all_positive(s.term_entries(t)),
        forall|i: int| 0 <= i < s.websites().len() ==> #[trigger] s.websites()[i].1.len() > 0,
        forall|i: int| 0 <= i < s.terms().len() ==> #[trigger] s.terms()[i].1.len() > 0,
{
    s.lemma_stakes_of_wf(w);
    s.lemma_term_entries_wf(t);
    lemma_lookup(s.stakes_of(w), t);
    lemma_lookup(s.term_entries(t), w);
    if has_key(s.stakes_of(w), t) {
        let i = choose|i: int| 0 <= i < s.stakes_of(w).len() && #[trigger] s.stakes_of(w)[i].0 == t;
        assert(s.stakes_of(w)[i].1 > 0);
    }
    if has_key(s.term_entries(t), w) {
        let i = choose|i: int|
            0 <= i < s.term_entries(t).len() && #[trigger] s.term_entries(t)[i].0 == w;
        assert(s.term_entries(t)[i].1 > 0);
    }
    assert forall|i: int| 0 <= i < s.websites().len() implies #[trigger] s.websites()[i].1.len()
        > 0 by {
        assert(crate::state::inner_wf(s.websites()[i].1));
    }
    assert forall|i: int| 0 <= i < s.terms().len() implies #[trigger] s.terms()[i].1.len() > 0 by {
        assert(crate::state::inner_wf(s.terms()[i].1));
    }
}

/// The ledger keeps no zero balances: an identity has an entry exactly
/// when its unstaked balance is positive.
pub proof fn lemma_zero_balance_absent(s: AppState, id: Seq<u8>)
    requires
        s.wf(),
    ensures
        s.balance(id) == 0 <==> !has_key(s.balances(), id),
{
    lemma_lookup(s.balances(), id);
    if has_key(s.balances(), id) {
        let i = choose|i: int| 0 <= i < s.balances().len() && #[trigger] s.balances()[i].0 == id;
        assert(s.balances()[i].1 > 0);
    }
}

/// Retraction is idempotent: retracting a website a second time changes no
/// balance and no stake, so its credits are returned only once.
pub proof fn lemma_retraction_idempotent(
    s0: AppState,
    s1: AppState,
    s2: AppState,
    owner: Seq<u8>,
    link: Seq<char>,
)
    requires
        s0.retraction(s1, owner, link),
        s1.retraction(s2, owner, link),
    ensures
        forall|id: Seq<u8>| #[trigger] s2.balance(id) == s1.balance(id),
        forall|w: (Seq<u8>, Seq<char>)| #[trigger] s2.stakes_of(w) == s1.stakes_of(w),
        s2.balance(owner) == s0.balance(owner) + total(s0.stakes_of((owner, link))),
{
    assert(total(Seq::<(Seq<char>, u64)>::empty()) == 0);
}

} // verus!
