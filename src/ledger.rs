//! The ledger of unstaked credits: balances, deposits and the two-phase
//! withdrawal.
//!
//! A withdrawal reads the balance (`begin_withdraw`), lets the host transfer
//! the credits, and only then debits them (`end_withdraw`). Nothing is held
//! in between: two overlapping withdrawals of one identity can both see the
//! same balance. The debit is floored at zero, so the ledger never
//! underflows, but the host may have sent more than was held.
use vstd::prelude::*;
use crate::alist::{
    all_positive, lemma_amount_absent, lemma_amount_at, lemma_push, lemma_remove, lemma_update,
};
use crate::identity::{anonymous_bytes, Identity, SearchError};
use crate::state::{find_identity, AppState};

verus! {

/// What a withdrawal does after its first phase.
#[derive(Clone, Copy, Debug, PartialEq, Eq)]
pub enum WithdrawStep {
    /// Nothing to send: the withdrawal is over and sent this many credits.
    Done(u64),
    /// Transfer this many credits, then report the outcome to `end_withdraw`.
    Transfer(u64),
}

pub open spec fn min_nat(a: nat, b: nat) -> nat {
    if a <= b {
        a
    } else {
        b
    }
}

impl AppState {
    /// The balance of `id`.
    pub(crate) fn balance_exec(&self, id: &Identity) -> (r: u64)
        requires
            self.balances_wf(),
        ensures
            r == self.balance(id@),
    {
        match find_identity(&self.unstaked, id) {
            Some(i) => {
                proof {
                    lemma_amount_at(self.balances(), i as int);
                }
                self.unstaked[i].1
            },
            None => {
                proof {
                    lemma_amount_absent(self.balances(), id@);
                }
                0
            },
        }
    }

    /// Sets the balance of `id`; an entry of zero is removed.
    pub(crate) fn set_balance(&mut self, id: &Identity, amount: u64)
        requires
            old(self).balances_wf(),
        ensures
            final(self).balances_wf(),
            old(self).mirrored() ==> final(self).mirrored(),
            final(self).balance(id@) == amount,
            forall|o: Seq<u8>| o != id@ ==> #[trigger] final(self).balance(o) == old(self).balance(o),
            final(self).by_website == old(self).by_website,
            final(self).by_term == old(self).by_term,
            final(self).descriptions == old(self).descriptions,
    {
        let ghost s0 = self.balances();
        match find_identity(&self.unstaked, id) {
            Some(i) => {
                if amount == 0 {
                    self.unstaked.remove(i);
                    proof {
                        assert(self.balances() =~= s0.remove(i as int));
                        lemma_remove(s0, i as int);
                        lemma_amount_absent(self.balances(), id@);
                    }
                } else {
                    self.unstaked.set(i, (id.copy(), amount));
                    proof {
                        assert(self.balances() =~= s0.update(i as int, (s0[i as int].0, amount)));
                        lemma_update(s0, i as int, amount);
                    }
                }
            },
            None => {
                if amount > 0 {
                    proof {
                        lemma_amount_absent(s0, id@);
                    }
                    self.unstaked.push((id.copy(), amount));
                    proof {
                        assert(self.balances() =~= s0.push((id@, amount)));
                        lemma_push(s0, id@, amount);
                    }
                } else {
                    proof {
                        lemma_amount_absent(s0, id@);
                    }
                }
            },
        }
        proof {
            if old(self).mirrored() {
                self.lemma_mirrored_same(*old(self));
            }
            assert(all_positive(self.balances())) by {
                assert forall|j: int| 0 <= j < self.balances().len() implies #[trigger] self.balances()[j].1 > 0 by {
                    assert(self.balances()[j].1 == self.unstaked@[j].1);
                }
            }
        }
    }

    /// The unstaked balance of the caller.
    pub fn get_unstaked_cycles(&self, caller: &Identity) -> (r: Result<u64, SearchError>)
        requires
            self.wf(),
        ensures
            caller@ == anonymous_bytes() ==> r == Err::<u64, SearchError>(
                SearchError::AnonymousNotAllowed,
            ),
            caller@ != anonymous_bytes() ==> r == Ok::<u64, SearchError>(
                self.balance(caller@) as u64,
            ),
    {
        if caller.is_anonymous() {
            return Err(SearchError::AnonymousNotAllowed);
        }
        Ok(self.balance_exec(caller))
    }

    /// Credits to the caller the `accepted` credits that the host attached
    /// to the request; returns that amount. The new balance must fit in 64 bits.
    pub fn deposit_cycles(&mut self, caller: &Identity, accepted: u64) -> (r: Result<u64, SearchError>)
        requires
            old(self).wf(),
            old(self).balance(caller@) + accepted <= u64::MAX,
        ensures
            final(self).wf(),
            caller@ == anonymous_bytes() ==> r == Err::<u64, SearchError>(
                SearchError::AnonymousNotAllowed,
            ) && *final(self) == *old(self),
            caller@ != anonymous_bytes() ==> r == Ok::<u64, SearchError>(accepted),
            final(self).balance(caller@) == if caller@ == anonymous_bytes() {
                old(self).balance(caller@)
            } else {
                (old(self).balance(caller@) + accepted) as nat
            },
            final(self).holdings(caller@) == final(self).balance(caller@) - old(self).balance(
                caller@,
            ) + old(self).holdings(caller@),
            forall|o: Seq<u8>|
                o != caller@ ==> #[trigger] final(self).holdings(o) == old(self).holdings(o),
            forall|o: Seq<u8>|
                o != caller@ ==> #[trigger] final(self).balance(o) == old(self).balance(o),
            final(self).same_stakes_and_descriptions(*old(self)),
    {
        if caller.is_anonymous() {
            return Err(SearchError::AnonymousNotAllowed);
        }
        let current = self.balance_exec(caller);
        self.set_balance(caller, current + accepted);
        Ok(accepted)
    }

    /// First phase of a withdrawal: how much of `max_amount` the caller's
    /// balance covers. Reads only.
    pub fn prepare_withdraw_cycles(&self, caller: &Identity, max_amount: u64) -> (r: Result<
        u64,
        SearchError,
    >)
        requires
            self.wf(),
        ensures
            caller@ == anonymous_bytes() ==> r == Err::<u64, SearchError>(
                SearchError::AnonymousNotAllowed,
            ),
            caller@ != anonymous_bytes() ==> r == Ok::<u64, SearchError>(
                min_nat(self.balance(caller@), max_amount as nat) as u64,
            ),
    {
        if caller.is_anonymous() {
            return Err(SearchError::AnonymousNotAllowed);
        }
        let held = self.balance_exec(caller);
        if held <= max_amount {
            Ok(held)
        } else {
            Ok(max_amount)
        }
    }

    /// Debits `amount` from the caller after a transfer went through; the
    /// balance does not go below zero.
    pub fn finish_withdraw_cycles(&mut self, caller: &Identity, amount: u64) -> (r: Result<
        (),
        SearchError,
    >)
        requires
            old(self).wf(),
        ensures
            final(self).wf(),
            caller@ == anonymous_bytes() ==> r == Err::<(), SearchError>(
                SearchError::AnonymousNotAllowed,
            ) && *final(self) == *old(self),
            caller@ != anonymous_bytes() ==> r is Ok,
            final(self).holdings(caller@) == final(self).balance(caller@) - old(self).balance(
                caller@,
            ) + old(self).holdings(caller@),
            forall|o: Seq<u8>|
                o != caller@ ==> #[trigger] final(self).holdings(o) == old(self).holdings(o),
            final(self).balance(caller@) == if caller@ == anonymous_bytes() {
                old(self).balance(caller@)
            } else if old(self).balance(caller@) >= amount {
                (old(self).balance(caller@) - amount) as nat
            } else {
                0
            },
            forall|o: Seq<u8>|
                o != caller@ ==> #[trigger] final(self).balance(o) == old(self).balance(o),
            final(self).same_stakes_and_descriptions(*old(self)),
    {
        if caller.is_anonymous() {
            return Err(SearchError::AnonymousNotAllowed);
        }
        let held = self.balance_exec(caller);
        let rest = if held >= amount {
            held - amount
        } else {
            0
        };
        self.set_balance(caller, rest);
        Ok(())
    }

    /// Starts a withdrawal of up to `max_amount`: either it is over at once
    /// (nothing to send) or the host is to transfer the reserved amount.
    pub fn begin_withdraw(&self, caller: &Identity, max_amount: u64) -> (r: Result<
        WithdrawStep,
        SearchError,
    >)
        requires
            self.wf(),
        ensures
            caller@ == anonymous_bytes() ==> r == Err::<WithdrawStep, SearchError>(
                SearchError::AnonymousNotAllowed,
            ),
            caller@ != anonymous_bytes() ==> r == Ok::<WithdrawStep, SearchError>(
                if min_nat(self.balance(caller@), max_amount as nat) == 0 {
                    WithdrawStep::Done(0)
                } else {
                    WithdrawStep::Transfer(min_nat(self.balance(caller@), max_amount as nat) as u64)
                },
            ),
    {
        let reserve = self.prepare_withdraw_cycles(caller, max_amount)?;
        if reserve == 0 {
            Ok(WithdrawStep::Done(0))
        } else {
            Ok(WithdrawStep::Transfer(reserve))
        }
    }

    /// Ends a withdrawal of `amount` credits: debits them if the transfer
    /// went through and returns how many were sent (zero on a failed
    /// transfer, which leaves the state as it was).
    pub fn end_withdraw(&mut self, caller: &Identity, amount: u64, transferred: bool) -> (r: Result<
        u64,
        SearchError,
    >)
        requires
            old(self).wf(),
        ensures
            final(self).wf(),
            caller@ == anonymous_bytes() ==> r == Err::<u64, SearchError>(
                SearchError::AnonymousNotAllowed,
            ) && *final(self) == *old(self),
            caller@ != anonymous_bytes() && !transferred ==> r == Ok::<u64, SearchError>(0)
                && *final(self) == *old(self),
            final(self).holdings(caller@) == final(self).balance(caller@) - old(self).balance(
                caller@,
            ) + old(self).holdings(caller@),
            forall|o: Seq<u8>|
                o != caller@ ==> #[trigger] final(self).holdings(o) == old(self).holdings(o),
            caller@ != anonymous_bytes() && transferred ==> r == Ok::<u64, SearchError>(amount)
                && final(self).balance(caller@) == if old(self).balance(caller@) >= amount {
                (old(self).balance(caller@) - amount) as nat
            } else {
                0
            },
            forall|o: Seq<u8>|
                o != caller@ ==> #[trigger] final(self).balance(o) == old(self).balance(o),
            final(self).same_stakes_and_descriptions(*old(self)),
    {
        if caller.is_anonymous() {
            return Err(SearchError::AnonymousNotAllowed);
        }
        if !transferred {
            return Ok(0);
        }
        self.finish_withdraw_cycles(caller, amount)?;
        Ok(amount)
    }
}

} // verus!
