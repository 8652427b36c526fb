//! The stake ledger: reading a website's stakes, applying a batch of stake
//! changes atomically, and retracting a website.
use vstd::prelude::*;
use crate::alist::{
    all_positive, amount_in, lemma_amount_absent, lemma_amount_at, lemma_push, lemma_remove,
    lemma_total_bounds, lemma_total_prefix, lemma_total_push, lemma_total_remove,
    lemma_total_update, lemma_update, total, unique_keys,
};
use crate::identity::{anonymous_bytes, Identity, SearchError, Website};
use crate::state::{find_term, owned_part, owner_total, stakes_view, AppState};
use crate::text::{normalize_term, normalized};

verus! {

/// A term and the credits to move on it.
#[derive(Clone, Debug, PartialEq, Eq)]
pub struct Stake {
    pub term: String,
    pub value: i64,
}

/// One change of a batch: stake more credits on a term, or take some back.
#[derive(Clone, Debug, PartialEq, Eq)]
pub enum StakeDelta {
    Add(Stake),
    Remove(Stake),
}

/// The removes of a batch in order, as normalized term and amount; those
/// with a value that is not positive are dropped.
pub open spec fn removes_of(ds: Seq<StakeDelta>) -> Seq<(Seq<char>, u64)>
    decreases ds.len(),
{
    if ds.len() == 0 {
        Seq::empty()
    } else {
        let rest = removes_of(ds.drop_last());
        match ds.last() {
            StakeDelta::Remove(s) => if s.value > 0 {
                rest.push((normalized(s.term@), s.value as u64))
            } else {
                rest
            },
            StakeDelta::Add(_) => rest,
        }
    }
}

/// The adds of a batch in order, as normalized term and amount; those with
/// a value that is not positive are dropped.
pub open spec fn adds_of(ds: Seq<StakeDelta>) -> Seq<(Seq<char>, u64)>
    decreases ds.len(),
{
    if ds.len() == 0 {
        Seq::empty()
    } else {
        let rest = adds_of(ds.drop_last());
        match ds.last() {
            StakeDelta::Add(s) => if s.value > 0 {
                rest.push((normalized(s.term@), s.value as u64))
            } else {
                rest
            },
            StakeDelta::Remove(_) => rest,
        }
    }
}

/// The amount on `t`, zero where `m` has none.
pub open spec fn get(m: Map<Seq<char>, nat>, t: Seq<char>) -> nat {
    if m.contains_key(t) {
        m[t]
    } else {
        0
    }
}

/// Runs the removes `rs` in order on the amounts `m`: the amounts after, the
/// credits taken back, and the first term whose stake fell short of its
/// remove (after which nothing more happens).
pub open spec fn after_removes(m: Map<Seq<char>, nat>, rs: Seq<(Seq<char>, u64)>) -> (
    Map<Seq<char>, nat>,
    nat,
    Option<Seq<char>>,
)
    decreases rs.len(),
{
    if rs.len() == 0 {
        (m, 0, None)
    } else {
        let (m1, got, failed) = after_removes(m, rs.drop_last());
        let t = rs.last().0;
        let v = rs.last().1 as nat;
        if failed is Some {
            (m1, got, failed)
        } else if get(m1, t) < v {
            (m1, got, Some(t))
        } else {
            (m1.insert(t, (get(m1, t) - v) as nat), got + v, None)
        }
    }
}

/// Runs the adds `xs` in order on the amounts `m` with `avail` credits to
/// spend: the amounts after, the credits left, and the first term whose add
/// exceeded what was left (after which nothing more happens).
pub open spec fn after_adds(m: Map<Seq<char>, nat>, avail: nat, xs: Seq<(Seq<char>, u64)>) -> (
    Map<Seq<char>, nat>,
    nat,
    Option<Seq<char>>,
)
    decreases xs.len(),
{
    if xs.len() == 0 {
        (m, avail, None)
    } else {
        let (m1, left, failed) = after_adds(m, avail, xs.drop_last());
        let t = xs.last().0;
        let v = xs.last().1 as nat;
        if failed is Some {
            (m1, left, failed)
        } else if left < v {
            (m1, left, Some(t))
        } else {
            (m1.insert(t, get(m1, t) + v), (left - v) as nat, None)
        }
    }
}

/// How a batch of stake changes ends.
pub enum StakeOutcome {
    /// Committed: the website's amounts per term and the owner's new balance.
    Staked(Map<Seq<char>, nat>, nat),
    /// A remove asked for more than was staked on this term.
    StakeShort(Seq<char>),
    /// Adds were asked for with no credits at all available.
    NoCredits,
    /// An add asked for more than was left on this term.
    CreditsShort(Seq<char>),
}

/// The outcome of applying the batch `ds` to a website whose stakes are
/// `current` and whose owner's unstaked balance is `balance`: all removes
/// first, then all adds, with the reclaimed credits spendable by the adds.
pub open spec fn stake_outcome(
    current: Seq<(Seq<char>, u64)>,
    balance: nat,
    ds: Seq<StakeDelta>,
) -> StakeOutcome {
    let start = Map::new(|t: Seq<char>| true, |t: Seq<char>| amount_in(current, t));
    let (m1, reclaimed, short) = after_removes(start, removes_of(ds));
    if short is Some {
        StakeOutcome::StakeShort(short->0)
    } else if reclaimed + balance == 0 && adds_of(ds).len() > 0 {
        StakeOutcome::NoCredits
    } else {
        let (m2, left, over) = after_adds(m1, reclaimed + balance, adds_of(ds));
        if over is Some {
            StakeOutcome::CreditsShort(over->0)
        } else {
            StakeOutcome::Staked(m2, left)
        }
    }
}

/// Once a remove has fallen short, later removes change nothing.
pub proof fn lemma_removes_stop(m: Map<Seq<char>, nat>, rs: Seq<(Seq<char>, u64)>, i: int, j: int)
    requires
        0 <= i <= j <= rs.len(),
        after_removes(m, rs.take(i)).2 is Some,
    ensures
        after_removes(m, rs.take(j)) == after_removes(m, rs.take(i)),
    decreases j - i,
{
    if j > i {
        lemma_removes_stop(m, rs, i, j - 1);
        assert(rs.take(j).drop_last() =~= rs.take(j - 1));
    }
}

/// Once an add has gone over, later adds change nothing.
pub proof fn lemma_adds_stop(
    m: Map<Seq<char>, nat>,
    avail: nat,
    xs: Seq<(Seq<char>, u64)>,
    i: int,
    j: int,
)
    requires
        0 <= i <= j <= xs.len(),
        after_adds(m, avail, xs.take(i)).2 is Some,
    ensures
        after_adds(m, avail, xs.take(j)) == after_adds(m, avail, xs.take(i)),
    decreases j - i,
{
    if j > i {
        lemma_adds_stop(m, avail, xs, i, j - 1);
        assert(xs.take(j).drop_last() =~= xs.take(j - 1));
    }
}

/// The sum of the amounts of a list of stakes.
pub fn total_exec(v: &Vec<(String, u64)>) -> (r: u64)
    requires
        total(stakes_view(v@)) <= u64::MAX,
    ensures
        r == total(stakes_view(v@)),
{
    let ghost sv = stakes_view(v@);
    let mut sum: u64 = 0;
    let mut i: usize = 0;
    while i < v.len()
        invariant
            i <= v.len(),
            sv == stakes_view(v@),
            total(sv) <= u64::MAX,
            sum == total(sv.take(i as int)),
        decreases v.len() - i,
    {
        proof {
            lemma_total_prefix(sv, i as int);
            lemma_total_prefix(sv, i + 1);
        }
        sum = sum + v[i].1;
        i = i + 1;
    }
    proof {
        assert(sv.take(i as int) =~= sv);
    }
    sum
}

/// Splits a batch into its removes and its adds, each in order, with terms
/// normalized and values that are not positive dropped.
fn split_deltas(deltas: &Vec<StakeDelta>) -> (r: (Vec<(String, u64)>, Vec<(String, u64)>))
    ensures
        stakes_view(r.0@) == removes_of(deltas@),
        stakes_view(r.1@) == adds_of(deltas@),
        all_positive(stakes_view(r.0@)),
        all_positive(stakes_view(r.1@)),
{
    let mut removes: Vec<(String, u64)> = Vec::new();
    let mut adds: Vec<(String, u64)> = Vec::new();
    let mut i: usize = 0;
    while i < deltas.len()
        invariant
            i <= deltas.len(),
            stakes_view(removes@) == removes_of(deltas@.take(i as int)),
            stakes_view(adds@) == adds_of(deltas@.take(i as int)),
            all_positive(stakes_view(removes@)),
            all_positive(stakes_view(adds@)),
        decreases deltas.len() - i,
    {
        proof {
            assert(deltas@.take(i + 1).drop_last() =~= deltas@.take(i as int));
            assert(deltas@.take(i + 1).last() == deltas@[i as int]);
        }
        let ghost r0 = stakes_view(removes@);
        let ghost a0 = stakes_view(adds@);
        match &deltas[i] {
            StakeDelta::Add(s) => {
                if s.value > 0 {
                    adds.push((normalize_term(&s.term), s.value as u64));
                    proof {
                        assert(stakes_view(adds@) =~= a0.push((normalized(s.term@), s.value as u64)));
                    }
                }
            },
            StakeDelta::Remove(s) => {
                if s.value > 0 {
                    removes.push((normalize_term(&s.term), s.value as u64));
                    proof {
                        assert(stakes_view(removes@) =~= r0.push(
                            (normalized(s.term@), s.value as u64),
                        ));
                    }
                }
            },
        }
        i = i + 1;
    }
    proof {
        assert(deltas@.take(i as int) =~= deltas@);
    }
    (removes, adds)
}

impl AppState {
    /// `next` is this state with the stakes of website (`owner`, `link`)
    /// retracted: the website has no stakes left, what it had is added to
    /// the owner's balance, and nothing else changes.
    pub open(crate) spec fn retraction(&self, next: AppState, owner: Seq<u8>, link: Seq<char>) -> bool {
        &&& next.stakes_of((owner, link)) == Seq::<(Seq<char>, u64)>::empty()
        &&& next.balance(owner) == self.balance(owner) + total(self.stakes_of((owner, link)))
        &&& forall|o: Seq<u8>| o != owner ==> #[trigger] next.balance(o) == self.balance(o)
        &&& forall|w2: (Seq<u8>, Seq<char>)|
            w2 != (owner, link) ==> #[trigger] next.stakes_of(w2) == self.stakes_of(w2)
        &&& next.descs() == self.descs()
    }

    /// The stakes of `website`: its terms and amounts. Only the owner may read them.
    pub fn get_stakes(&self, caller: &Identity, website: &Website) -> (r: Result<
        Vec<(String, u64)>,
        SearchError,
    >)
        requires
            self.wf(),
        ensures
            caller@ == anonymous_bytes() ==> r == Err::<Vec<(String, u64)>, SearchError>(
                SearchError::AnonymousNotAllowed,
            ),
            caller@ != anonymous_bytes() && caller@ != website.owner@ ==> r == Err::<
                Vec<(String, u64)>,
                SearchError,
            >(SearchError::NotOwner),
            caller@ != anonymous_bytes() && caller@ == website.owner@ ==> r is Ok && stakes_view(
                r->Ok_0@,
            ) == self.stakes_of(website@),
    {
        if caller.is_anonymous() {
            return Err(SearchError::AnonymousNotAllowed);
        }
        if !caller.same(&website.owner) {
            return Err(SearchError::NotOwner);
        }
        Ok(self.stakes_exec(website))
    }

    /// Applies a batch of stake changes to the caller's website `link`, all
    /// or nothing: every remove first, in order, then every add, in order,
    /// paid from the reclaimed credits and the unstaked balance. Returns the
    /// website's stakes after the change. The caller's balance and what the
    /// website holds must fit in 64 bits together.
    pub fn stake(&mut self, caller: &Identity, link: String, deltas: Vec<StakeDelta>) -> (r: Result<
        Vec<(String, u64)>,
        SearchError,
    >)
        requires
            old(self).wf(),
            old(self).balance(caller@) + total(old(self).stakes_of((caller@, link@)))
                <= u64::MAX,
        ensures
            final(self).wf(),
            r is Err ==> *final(self) == *old(self),
            caller@ == anonymous_bytes() ==> r == Err::<Vec<(String, u64)>, SearchError>(
                SearchError::AnonymousNotAllowed,
            ),
            caller@ != anonymous_bytes() ==> match stake_outcome(
                old(self).stakes_of((caller@, link@)),
                old(self).balance(caller@),
                deltas@,
            ) {
                StakeOutcome::Staked(m, b) => {
                    &&& r is Ok
                    &&& stakes_view(r->Ok_0@) == final(self).stakes_of((caller@, link@))
                    &&& forall|t: Seq<char>| #[trigger]
                        final(self).staked((caller@, link@), t) == get(m, t)
                    &&& final(self).balance(caller@) == b
                },
                StakeOutcome::StakeShort(t) => r is Err && r->Err_0 is InsufficientStake
                    && r->Err_0->InsufficientStake_0@ == t,
                StakeOutcome::NoCredits => r == Err::<Vec<(String, u64)>, SearchError>(
                    SearchError::InsufficientUnstakedBalance,
                ),
                StakeOutcome::CreditsShort(t) => r is Err && r->Err_0 is InsufficientAvailableCredits
                    && r->Err_0->InsufficientAvailableCredits_0@ == t,
            },
            forall|o: Seq<u8>|
                o != caller@ ==> #[trigger] final(self).balance(o) == old(self).balance(o),
            forall|w2: (Seq<u8>, Seq<char>)|
                w2 != (caller@, link@) ==> #[trigger] final(self).stakes_of(w2)
                    == old(self).stakes_of(w2),
            forall|id: Seq<u8>| #[trigger] final(self).holdings(id) == old(self).holdings(id),
            final(self).descs() == old(self).descs(),
    {
        if caller.is_anonymous() {
            return Err(SearchError::AnonymousNotAllowed);
        }
        let website = Website { owner: caller.copy(), link };
        let ghost w = website@;
        let mut work = self.stakes_exec(&website);
        let balance = self.balance_exec(caller);
        let ghost orig = stakes_view(work@);
        let ghost start = Map::new(|t: Seq<char>| true, |t: Seq<char>| amount_in(orig, t));
        proof {
            self.lemma_stakes_of_wf(w);
        }
        let (removes, adds) = split_deltas(&deltas);
        let ghost rs = stakes_view(removes@);
        let ghost xs = stakes_view(adds@);
        proof {
            assert(w == (caller@, link@));
            assert(orig == old(self).stakes_of((caller@, link@)));
            assert(balance == old(self).balance(caller@));
        }

        // Removes, on the working copy.
        let mut reclaimed: u64 = 0;
        let mut i: usize = 0;
        while i < removes.len()
            invariant
                i <= removes.len(),
                rs == stakes_view(removes@),
                all_positive(rs),
                unique_keys(stakes_view(work@)),
                all_positive(stakes_view(work@)),
                after_removes(start, rs.take(i as int)).2 is None,
                after_removes(start, rs.take(i as int)).1 == reclaimed,
                forall|t: Seq<char>| #[trigger]
                    amount_in(stakes_view(work@), t) == get(
                        after_removes(start, rs.take(i as int)).0,
                        t,
                    ),
                total(stakes_view(work@)) + reclaimed == total(orig),
                balance + total(orig) <= u64::MAX,
                rs == removes_of(deltas@),
                xs == adds_of(deltas@),
                orig == old(self).stakes_of((caller@, link@)),
                balance == old(self).balance(caller@),
                start == Map::new(|t: Seq<char>| true, |t: Seq<char>| amount_in(orig, t)),
                *self == *old(self),
                self.wf(),
                caller@ != anonymous_bytes(),
            decreases removes.len() - i,
        {
            let ghost wv = stakes_view(work@);
            let ghost prev = after_removes(start, rs.take(i as int));
            proof {
                assert(rs.take(i + 1).drop_last() =~= rs.take(i as int));
                assert(rs.take(i + 1).last() == rs[i as int]);
                assert(rs[i as int].1 > 0);
            }
            let term = &removes[i].0;
            let value = removes[i].1;
            match find_term(&work, term) {
                Some(j) => {
                    let held = work[j].1;
                    proof {
                        lemma_amount_at(wv, j as int);
                        assert(wv[j as int].0 == term@);
                        lemma_total_bounds(wv, j as int);
                    }
                    if held < value {
                        proof {
                            assert(get(prev.0, term@) == held);
                            assert(after_removes(start, rs.take(i + 1)).2 == Some(term@));
                            lemma_removes_stop(start, rs, i + 1, rs.len() as int);
                            assert(rs.take(rs.len() as int) =~= rs);
                            assert(after_removes(start, removes_of(deltas@)).2 == Some(term@));
                        }
                        return Err(SearchError::InsufficientStake(term.clone()));
                    }
                    let rest = held - value;
                    if rest == 0 {
                        work.remove(j);
                        proof {
                            assert(stakes_view(work@) =~= wv.remove(j as int));
                            lemma_remove(wv, j as int);
                            lemma_total_remove(wv, j as int);
                        }
                    } else {
                        work.set(j, (term.clone(), rest));
                        proof {
                            assert(stakes_view(work@) =~= wv.update(j as int, (wv[j as int].0, rest)));
                            lemma_update(wv, j as int, rest);
                            lemma_total_update(wv, j as int, (wv[j as int].0, rest));
                        }
                    }
                    proof {
                        assert forall|j2: int| 0 <= j2 < stakes_view(work@).len() implies #[trigger] stakes_view(
                            work@,
                        )[j2].1 > 0 by {
                            assert(stakes_view(work@)[j2].1 == work@[j2].1);
                        }
                    }
                },
                None => {
                    proof {
                        lemma_amount_absent(wv, term@);
                        assert(get(prev.0, term@) == 0);
                        assert(after_removes(start, rs.take(i + 1)).2 == Some(term@));
                        lemma_removes_stop(start, rs, i + 1, rs.len() as int);
                        assert(rs.take(rs.len() as int) =~= rs);
                    }
                    return Err(SearchError::InsufficientStake(term.clone()));
                },
            }
            proof {
                let next = after_removes(start, rs.take(i + 1));
                assert(next.0 == prev.0.insert(term@, (get(prev.0, term@) - value) as nat));
                assert forall|t: Seq<char>| #[trigger]
                    amount_in(stakes_view(work@), t) == get(next.0, t) by {
                    if t != term@ {
                        assert(amount_in(wv, t) == get(prev.0, t));
                    }
                }
            }
            reclaimed = reclaimed + value;
            i = i + 1;
        }
        proof {
            assert(rs.take(removes.len() as int) =~= rs);
        }
        let ghost mid = after_removes(start, rs).0;

        // Adds, paid from the reclaimed credits and the balance.
        let mut available: u64 = reclaimed + balance;
        if available == 0 && adds.len() > 0 {
            return Err(SearchError::InsufficientUnstakedBalance);
        }
        let ghost avail0 = available as nat;
        let mut k: usize = 0;
        while k < adds.len()
            invariant
                k <= adds.len(),
                xs == stakes_view(adds@),
                all_positive(xs),
                unique_keys(stakes_view(work@)),
                all_positive(stakes_view(work@)),
                after_adds(mid, avail0, xs.take(k as int)).2 is None,
                mid == after_removes(start, rs).0,
                after_removes(start, rs).2 is None,
                after_removes(start, rs).1 + balance == avail0,
                avail0 > 0 || xs.len() == 0,
                after_adds(mid, avail0, xs.take(k as int)).1 == available,
                forall|t: Seq<char>| #[trigger]
                    amount_in(stakes_view(work@), t) == get(
                        after_adds(mid, avail0, xs.take(k as int)).0,
                        t,
                    ),
                total(stakes_view(work@)) + available == total(orig) + balance,
                balance + total(orig) <= u64::MAX,
                rs == removes_of(deltas@),
                xs == adds_of(deltas@),
                orig == old(self).stakes_of((caller@, link@)),
                balance == old(self).balance(caller@),
                start == Map::new(|t: Seq<char>| true, |t: Seq<char>| amount_in(orig, t)),
                *self == *old(self),
                self.wf(),
                caller@ != anonymous_bytes(),
            decreases adds.len() - k,
        {
            let ghost wv = stakes_view(work@);
            let ghost prev = after_adds(mid, avail0, xs.take(k as int));
            proof {
                assert(xs.take(k + 1).drop_last() =~= xs.take(k as int));
                assert(xs.take(k + 1).last() == xs[k as int]);
                assert(xs[k as int].1 > 0);
            }
            let term = &adds[k].0;
            let value = adds[k].1;
            if available < value {
                proof {
                    assert(after_adds(mid, avail0, xs.take(k + 1)).2 == Some(term@));
                    lemma_adds_stop(mid, avail0, xs, k + 1, xs.len() as int);
                    assert(xs.take(xs.len() as int) =~= xs);
                }
                return Err(SearchError::InsufficientAvailableCredits(term.clone()));
            }
            match find_term(&work, term) {
                Some(j) => {
                    let held = work[j].1;
                    proof {
                        lemma_amount_at(wv, j as int);
                        assert(wv[j as int].0 == term@);
                        lemma_total_bounds(wv, j as int);
                    }
                    work.set(j, (term.clone(), held + value));
                    proof {
                        assert(stakes_view(work@) =~= wv.update(
                            j as int,
                            (wv[j as int].0, (held + value) as u64),
                        ));
                        lemma_update(wv, j as int, (held + value) as u64);
                        lemma_total_update(wv, j as int, (wv[j as int].0, (held + value) as u64));
                        assert(get(prev.0, term@) == held);
                        assert(after_adds(mid, avail0, xs.take(k + 1)).0 == prev.0.insert(
                            term@,
                            (held + value) as nat,
                        ));
                    }
                },
                None => {
                    proof {
                        lemma_amount_absent(wv, term@);
                    }
                    work.push((term.clone(), value));
                    proof {
                        assert(stakes_view(work@) =~= wv.push((term@, value)));
                        lemma_push(wv, term@, value);
                        lemma_total_push(wv, (term@, value));
                        assert(get(prev.0, term@) == 0);
                        assert(after_adds(mid, avail0, xs.take(k + 1)).0 == prev.0.insert(
                            term@,
                            value as nat,
                        ));
                    }
                },
            }
            proof {
                assert forall|j2: int| 0 <= j2 < stakes_view(work@).len() implies #[trigger] stakes_view(
                    work@,
                )[j2].1 > 0 by {
                    assert(stakes_view(work@)[j2].1 == work@[j2].1);
                }
                let next = after_adds(mid, avail0, xs.take(k + 1));
                assert(next.0 == prev.0.insert(term@, (get(prev.0, term@) + value) as nat));
                assert forall|t: Seq<char>| #[trigger]
                    amount_in(stakes_view(work@), t) == get(next.0, t) by {
                    if t != term@ {
                        assert(amount_in(wv, t) == get(prev.0, t));
                    }
                }
            }
            available = available - value;
            k = k + 1;
        }
        proof {
            assert(xs.take(adds.len() as int) =~= xs);
        }

        // Commit.
        let ghost before = *self;
        let ghost nv = stakes_view(work@);
        self.commit_stakes(&website, work, available);
        proof {
            assert forall|id: Seq<u8>| #[trigger] self.holdings(id) == before.holdings(id) by {
                assert(owner_total(self.websites(), id) + owned_part((w, orig), id) == owner_total(
                    before.websites(),
                    id,
                ) + owned_part((w, nv), id));
            }
        }
        Ok(self.stakes_exec(&website))
    }

    /// Takes back every stake of the caller's website `link`: both indices
    /// lose it and its credits return to the caller's unstaked balance.
    /// Retracting a website without stakes changes nothing. The caller's
    /// balance and what the website holds must fit in 64 bits together.
    pub fn retract_website(&mut self, caller: &Identity, link: &String) -> (r: Result<
        (),
        SearchError,
    >)
        requires
            old(self).wf(),
            old(self).balance(caller@) + total(old(self).stakes_of((caller@, link@)))
                <= u64::MAX,
        ensures
            final(self).wf(),
            caller@ == anonymous_bytes() ==> r == Err::<(), SearchError>(
                SearchError::AnonymousNotAllowed,
            ) && *final(self) == *old(self),
            caller@ != anonymous_bytes() ==> r is Ok && old(self).retraction(
                *final(self),
                caller@,
                link@,
            ),
            forall|id: Seq<u8>| #[trigger] final(self).holdings(id) == old(self).holdings(id),
    {
        if caller.is_anonymous() {
            return Err(SearchError::AnonymousNotAllowed);
        }
        let website = Website { owner: caller.copy(), link: link.clone() };
        let staked = self.stakes_exec(&website);
        let balance = self.balance_exec(caller);
        let returned = total_exec(&staked);
        let ghost before = *self;
        let empty: Vec<(String, u64)> = Vec::new();
        proof {
            assert(stakes_view(empty@) =~= Seq::empty());
        }
        self.commit_stakes(&website, empty, balance + returned);
        proof {
            assert forall|id: Seq<u8>| #[trigger] self.holdings(id) == before.holdings(id) by {
                assert(owner_total(self.websites(), id) + owned_part(
                    (website@, stakes_view(staked@)),
                    id,
                ) == owner_total(before.websites(), id) + owned_part(
                    (website@, Seq::empty()),
                    id,
                ));
                assert(total(Seq::<(Seq<char>, u64)>::empty()) == 0);
            }
        }
        Ok(())
    }
}

} // verus!
