//! Writing stakes into both indices at once.
use vstd::prelude::*;
use crate::alist::{
    all_positive, amount_in, has_key, lemma_amount_absent, lemma_amount_at, lemma_amount_missing,
    lemma_has_key_take, lemma_lookup, lemma_push, lemma_remove, lemma_update, unique_keys,
};
use crate::identity::Website;
use crate::state::{
    entries_view, find_term, find_website, inner_wf, lemma_owner_total_push,
    lemma_owner_total_remove, lemma_owner_total_update, owned_part, owner_total, stakes_view,
    AppState,
};

verus! {

/// The amount stored for `t` in a list of stakes.
pub fn amount_of_term(v: &Vec<(String, u64)>, t: &String) -> (r: u64)
    requires
        unique_keys(stakes_view(v@)),
    ensures
        r == amount_in(stakes_view(v@), t@),
{
    match find_term(v, t) {
        Some(i) => {
            proof {
                lemma_amount_at(stakes_view(v@), i as int);
            }
            v[i].1
        },
        None => {
            proof {
                lemma_amount_absent(stakes_view(v@), t@);
            }
            0
        },
    }
}

/// A copy of a list of stakes.
pub fn copy_stakes(v: &Vec<(String, u64)>) -> (r: Vec<(String, u64)>)
    ensures
        r@ == v@,
{
    let mut r: Vec<(String, u64)> = Vec::new();
    let mut i: usize = 0;
    while i < v.len()
        invariant
            i <= v.len(),
            r@ =~= v@.take(i as int),
        decreases v.len() - i,
    {
        r.push((v[i].0.clone(), v[i].1));
        i = i + 1;
    }
    assert(r@ =~= v@);
    r
}

/// A copy of a by-term entry list.
fn copy_entries(v: &Vec<(Website, u64)>) -> (r: Vec<(Website, u64)>)
    ensures
        entries_view(r@) == entries_view(v@),
{
    let mut r: Vec<(Website, u64)> = Vec::new();
    let mut i: usize = 0;
    while i < v.len()
        invariant
            i <= v.len(),
            entries_view(r@) =~= entries_view(v@).take(i as int),
        decreases v.len() - i,
    {
        let ghost before = entries_view(r@);
        r.push((v[i].0.copy(), v[i].1));
        proof {
            assert(entries_view(r@) =~= before.push(entries_view(v@)[i as int]));
        }
        i = i + 1;
    }
    assert(entries_view(r@) =~= entries_view(v@));
    r
}

impl AppState {
    /// The by-term entries of `term` (taken as it is, not normalized):
    /// each website with its amount, in index order.
    pub fn term_stakes(&self, term: &String) -> (r: Vec<(Website, u64)>)
        requires
            self.wf(),
        ensures
            entries_view(r@) == self.term_entries(term@),
    {
        proof {
            lemma_lookup(self.terms(), term@);
        }
        match find_term(&self.by_term, term) {
            Some(i) => {
                proof {
                    assert(self.terms()[i as int].0 == term@);
                }
                copy_entries(&self.by_term[i].1)
            },
            None => {
                proof {
                    assert(!has_key(self.terms(), term@));
                }
                let r: Vec<(Website, u64)> = Vec::new();
                assert(entries_view(r@) =~= Seq::empty());
                r
            },
        }
    }

    /// How many websites have a description.
    pub fn description_count(&self) -> (r: usize)
        ensures
            r == self.descs().len(),
    {
        self.descriptions.len()
    }

    /// The stakes that the by-website index holds for `w`.
    pub(crate) fn stakes_exec(&self, w: &Website) -> (r: Vec<(String, u64)>)
        requires
            self.websites_wf(),
        ensures
            stakes_view(r@) == self.stakes_of(w@),
    {
        match find_website(&self.by_website, w) {
            Some(i) => {
                proof {
                    lemma_lookup(self.websites(), w@);
                    assert(self.websites()[i as int].0 == w@);
                }
                copy_stakes(&self.by_website[i].1)
            },
            None => {
                proof {
                    lemma_lookup(self.websites(), w@);
                    assert(!has_key(self.websites(), w@));
                }
                let r: Vec<(String, u64)> = Vec::new();
                assert(stakes_view(r@) =~= Seq::empty());
                r
            },
        }
    }

    /// Replaces the by-website entry of `w` (removing it when `work` is empty).
    fn set_website_stakes(&mut self, w: &Website, work: Vec<(String, u64)>)
        requires
            old(self).websites_wf(),
            unique_keys(stakes_view(work@)),
            all_positive(stakes_view(work@)),
        ensures
            final(self).websites_wf(),
            final(self).stakes_of(w@) == stakes_view(work@),
            forall|w2: (Seq<u8>, Seq<char>)|
                w2 != w@ ==> #[trigger] final(self).stakes_of(w2) == old(self).stakes_of(w2),
            forall|id: Seq<u8>|
                #[trigger] owner_total(final(self).websites(), id) + owned_part(
                    (w@, old(self).stakes_of(w@)),
                    id,
                ) == owner_total(old(self).websites(), id) + owned_part((w@, stakes_view(work@)), id),
            final(self).unstaked == old(self).unstaked,
            final(self).by_term == old(self).by_term,
            final(self).descriptions == old(self).descriptions,
    {
        let ghost s0 = self.websites();
        let ghost nv = stakes_view(work@);
        proof {
            lemma_lookup(s0, w@);
        }
        match find_website(&self.by_website, w) {
            Some(i) => {
                proof {
                    assert(s0[i as int].0 == w@);
                }
                if work.len() == 0 {
                    self.by_website.remove(i);
                    proof {
                        assert(self.websites() =~= s0.remove(i as int));
                        lemma_remove(s0, i as int);
                        assert(nv =~= Seq::empty());
                        assert forall|id: Seq<u8>| #[trigger]
                            owner_total(self.websites(), id) + owned_part((w@, old(self).stakes_of(w@)), id)
                                == owner_total(s0, id) + owned_part((w@, nv), id) by {
                            lemma_owner_total_remove(s0, i as int, id);
                        }
                        assert forall|j: int| 0 <= j < self.websites().len() implies #[trigger] inner_wf(
                            self.websites()[j].1,
                        ) by {
                            let j2 = if j < i { j } else { j + 1 };
                            assert(self.websites()[j] == s0[j2]);
                        }
                    }
                } else {
                    self.by_website.set(i, (w.copy(), work));
                    proof {
                        assert(self.websites() =~= s0.update(i as int, (w@, nv)));
                        lemma_update(s0, i as int, nv);
                        assert forall|id: Seq<u8>| #[trigger]
                            owner_total(self.websites(), id) + owned_part((w@, old(self).stakes_of(w@)), id)
                                == owner_total(s0, id) + owned_part((w@, nv), id) by {
                            lemma_owner_total_update(s0, i as int, (w@, nv), id);
                        }
                        assert forall|j: int| 0 <= j < self.websites().len() implies #[trigger] inner_wf(
                            self.websites()[j].1,
                        ) by {
                            if j != i {
                                assert(self.websites()[j] == s0[j]);
                            }
                        }
                    }
                }
            },
            None => {
                proof {
                    assert(!has_key(s0, w@));
                }
                if work.len() > 0 {
                    self.by_website.push((w.copy(), work));
                    proof {
                        assert(self.websites() =~= s0.push((w@, nv)));
                        lemma_push(s0, w@, nv);
                        assert forall|id: Seq<u8>| #[trigger]
                            owner_total(self.websites(), id) + owned_part((w@, old(self).stakes_of(w@)), id)
                                == owner_total(s0, id) + owned_part((w@, nv), id) by {
                            lemma_owner_total_push(s0, (w@, nv), id);
                        }
                        assert forall|j: int| 0 <= j < self.websites().len() implies #[trigger] inner_wf(
                            self.websites()[j].1,
                        ) by {
                            if j < s0.len() {
                                assert(self.websites()[j] == s0[j]);
                            }
                        }
                    }
                } else {
                    proof {
                        assert(nv =~= Seq::empty());
                    }
                }
            },
        }
    }

    /// Sets the by-term entry of (`t`, `w`) to `amount`, removing it at zero
    /// and dropping a term whose list becomes empty.
    fn set_term_entry(&mut self, t: &String, w: &Website, amount: u64)
        requires
            old(self).terms_wf(),
        ensures
            final(self).terms_wf(),
            final(self).term_staked(t@, w@) == amount,
            forall|t2: Seq<char>, w2: (Seq<u8>, Seq<char>)|
                !(t2 == t@ && w2 == w@) ==> #[trigger] final(self).term_staked(t2, w2)
                    == old(self).term_staked(t2, w2),
            final(self).unstaked == old(self).unstaked,
            final(self).by_website == old(self).by_website,
            final(self).descriptions == old(self).descriptions,
    {
        let ghost s0 = self.terms();
        proof {
            lemma_lookup(s0, t@);
        }
        match find_term(&self.by_term, t) {
            Some(i) => {
                let (key, mut entries) = self.by_term.remove(i);
                let ghost e0 = entries_view(entries@);
                proof {
                    assert(s0[i as int] == (key@, e0));
                    assert(inner_wf(s0[i as int].1));
                    lemma_lookup(e0, w@);
                }
                match find_website(&entries, w) {
                    Some(j) => {
                        if amount == 0 {
                            entries.remove(j);
                            proof {
                                assert(entries_view(entries@) =~= e0.remove(j as int));
                                lemma_remove(e0, j as int);
                            }
                        } else {
                            entries.set(j, (w.copy(), amount));
                            proof {
                                assert(entries_view(entries@) =~= e0.update(j as int, (w@, amount)));
                                lemma_update(e0, j as int, amount);
                            }
                        }
                    },
                    None => {
                        proof {
                            assert(!has_key(e0, w@));
                        }
                        if amount > 0 {
                            entries.push((w.copy(), amount));
                            proof {
                                assert(entries_view(entries@) =~= e0.push((w@, amount)));
                                lemma_push(e0, w@, amount);
                            }
                        }
                    },
                }
                let ghost e1 = entries_view(entries@);
                proof {
                    assert(unique_keys(e1));
                    assert forall|w2: (Seq<u8>, Seq<char>)| #[trigger]
                        amount_in(e1, w2) == if w2 == w@ {
                            amount as nat
                        } else {
                            amount_in(e0, w2)
                        } by {}
                    assert(all_positive(e1)) by {
                        assert forall|j: int| 0 <= j < e1.len() implies #[trigger] e1[j].1 > 0 by {
                            assert(e1[j].1 == entries@[j].1);
                        }
                    }
                }
                proof {
                    assert(key@ == t@);
                    assert(s0[i as int].0 == t@);
                    assert(old(self).terms() == s0);
                    assert(old(self).term_entries(t@) == e0);
                }
                if entries.len() > 0 {
                    self.by_term.insert(i, (key, entries));
                    proof {
                        assert(self.terms() =~= s0.update(i as int, (t@, e1)));
                        lemma_update(s0, i as int, e1);
                        assert(self.term_entries(t@) == e1);
                        assert forall|j: int| 0 <= j < self.terms().len() implies #[trigger] inner_wf(
                            self.terms()[j].1,
                        ) by {
                            if j != i {
                                assert(self.terms()[j] == s0[j]);
                            }
                        }
                    }
                } else {
                    proof {
                        assert(self.terms() =~= s0.remove(i as int));
                        lemma_remove(s0, i as int);
                        assert(e1 =~= Seq::empty());
                        assert(self.term_entries(t@) == e1);
                        assert forall|w2: (Seq<u8>, Seq<char>)| amount_in(e1, w2) == 0 by {
                            assert(e1 =~= Seq::empty());
                        }
                        assert forall|j: int| 0 <= j < self.terms().len() implies #[trigger] inner_wf(
                            self.terms()[j].1,
                        ) by {
                            let j2 = if j < i { j } else { j + 1 };
                            assert(self.terms()[j] == s0[j2]);
                        }
                    }
                }
            },
            None => {
                proof {
                    assert(!has_key(s0, t@));
                }
                if amount > 0 {
                    let mut entries: Vec<(Website, u64)> = Vec::new();
                    entries.push((w.copy(), amount));
                    let ghost e1 = entries_view(entries@);
                    self.by_term.push((t.clone(), entries));
                    proof {
                        assert(e1 =~= seq![(w@, amount)]);
                        assert(e1.drop_last() =~= Seq::empty());
                        assert(self.terms() =~= s0.push((t@, e1)));
                        lemma_push(s0, t@, e1);
                        assert forall|j: int| 0 <= j < self.terms().len() implies #[trigger] inner_wf(
                            self.terms()[j].1,
                        ) by {
                            if j < s0.len() {
                                assert(self.terms()[j] == s0[j]);
                            }
                        }
                    }
                }
            },
        }
    }

    /// Sets, for each term of `keys`, the by-term entry of `w` to what
    /// `work` holds for that term.
    fn sync_terms(&mut self, w: &Website, keys: &Vec<(String, u64)>, work: &Vec<(String, u64)>)
        requires
            old(self).terms_wf(),
            unique_keys(stakes_view(work@)),
        ensures
            final(self).terms_wf(),
            forall|t2: Seq<char>, w2: (Seq<u8>, Seq<char>)| #[trigger]
                final(self).term_staked(t2, w2) == if w2 == w@ && has_key(stakes_view(keys@), t2) {
                    amount_in(stakes_view(work@), t2)
                } else {
                    old(self).term_staked(t2, w2)
                },
            final(self).unstaked == old(self).unstaked,
            final(self).by_website == old(self).by_website,
            final(self).descriptions == old(self).descriptions,
    {
        let ghost kv = stakes_view(keys@);
        let mut i: usize = 0;
        while i < keys.len()
            invariant
                i <= keys.len(),
                kv == stakes_view(keys@),
                unique_keys(stakes_view(work@)),
                self.terms_wf(),
                forall|t2: Seq<char>, w2: (Seq<u8>, Seq<char>)| #[trigger]
                    self.term_staked(t2, w2) == if w2 == w@ && has_key(kv.take(i as int), t2) {
                        amount_in(stakes_view(work@), t2)
                    } else {
                        old(self).term_staked(t2, w2)
                    },
                self.unstaked == old(self).unstaked,
                self.by_website == old(self).by_website,
                self.descriptions == old(self).descriptions,
            decreases keys.len() - i,
        {
            let amount = amount_of_term(work, &keys[i].0);
            self.set_term_entry(&keys[i].0, w, amount);
            proof {
                assert forall|t2: Seq<char>| #[trigger] has_key(kv.take(i + 1), t2) == (has_key(
                    kv.take(i as int),
                    t2,
                ) || kv[i as int].0 == t2) by {
                    lemma_has_key_take(kv, i as int, t2);
                }
            }
            i = i + 1;
        }
        assert(kv.take(i as int) =~= kv);
    }

    /// Makes `work` the stakes of `w` in both indices and `balance` the
    /// unstaked balance of its owner.
    pub(crate) fn commit_stakes(&mut self, w: &Website, work: Vec<(String, u64)>, balance: u64)
        requires
            old(self).wf(),
            unique_keys(stakes_view(work@)),
            all_positive(stakes_view(work@)),
        ensures
            final(self).wf(),
            final(self).stakes_of(w@) == stakes_view(work@),
            forall|w2: (Seq<u8>, Seq<char>)|
                w2 != w@ ==> #[trigger] final(self).stakes_of(w2) == old(self).stakes_of(w2),
            final(self).balance(w.owner@) == balance,
            forall|o: Seq<u8>|
                o != w.owner@ ==> #[trigger] final(self).balance(o) == old(self).balance(o),
            forall|id: Seq<u8>|
                #[trigger] owner_total(final(self).websites(), id) + owned_part(
                    (w@, old(self).stakes_of(w@)),
                    id,
                ) == owner_total(old(self).websites(), id) + owned_part((w@, stakes_view(work@)), id),
            final(self).descriptions == old(self).descriptions,
    {
        let previous = self.stakes_exec(w);
        let ghost pv = stakes_view(previous@);
        proof {
            self.lemma_stakes_of_wf(w@);
        }
        let ghost nv = stakes_view(work@);
        let ghost s0 = *self;
        self.sync_terms(w, &previous, &work);
        self.sync_terms(w, &work, &work);
        let ghost s1 = *self;
        self.set_website_stakes(w, work);
        let ghost s2 = *self;
        self.set_balance(&w.owner, balance);
        proof {
            assert(self.terms() == s1.terms());
            assert(self.websites() == s2.websites());
            assert(s2.terms() == s1.terms());
            assert(s1.websites() == s0.websites());
            assert forall|w2: (Seq<u8>, Seq<char>)| w2 != w@ implies #[trigger] self.stakes_of(w2)
                == old(self).stakes_of(w2) by {
                assert(s2.stakes_of(w2) == s0.stakes_of(w2));
            }
            assert forall|w2: (Seq<u8>, Seq<char>), t: Seq<char>|
                #![trigger self.staked(w2, t)]
                #![trigger self.term_staked(t, w2)]
                self.staked(w2, t) == self.term_staked(t, w2) by {
                assert(self.term_staked(t, w2) == s1.term_staked(t, w2));
                assert(self.staked(w2, t) == s2.staked(w2, t));
                if w2 == w@ {
                    assert(s2.stakes_of(w2) == nv);
                    if !has_key(pv, t) && !has_key(nv, t) {
                        assert(s0.staked(w2, t) == s0.term_staked(t, w2));
                        lemma_amount_missing(pv, t);
                        lemma_amount_missing(nv, t);
                    }
                } else {
                    assert(s2.stakes_of(w2) == s0.stakes_of(w2));
                    assert(s0.staked(w2, t) == s0.term_staked(t, w2));
                }
            }
        }
    }
}

} // verus!
