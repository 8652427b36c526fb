//! Website descriptions, keyed by website. Removing a description retracts
//! the website's stakes with it.
use vstd::prelude::*;
use crate::alist::{lemma_lookup, lemma_push, lemma_remove, lemma_update, total};
use crate::identity::{anonymous_bytes, Identity, SearchError, Website};
use crate::state::{find_website, AppState, WebsiteDescription};

verus! {

/// The descriptions of the websites of `owner`, in the order they were first set.
pub open spec fn owned_descriptions(
    s: Seq<((Seq<u8>, Seq<char>), (Seq<char>, Seq<char>, Seq<char>))>,
    owner: Seq<u8>,
) -> Seq<(Seq<char>, Seq<char>, Seq<char>)>
    decreases s.len(),
{
    if s.len() == 0 {
        Seq::empty()
    } else {
        let rest = owned_descriptions(s.drop_last(), owner);
        if s.last().0.0 == owner {
            rest.push(s.last().1)
        } else {
            rest
        }
    }
}

pub open spec fn descriptions_of_list(v: Seq<WebsiteDescription>) -> Seq<
    (Seq<char>, Seq<char>, Seq<char>),
> {
    v.map_values(|d: WebsiteDescription| d@)
}

impl AppState {
    /// The descriptions of the caller's websites.
    pub fn get_websites(&self, caller: &Identity) -> (r: Result<Vec<WebsiteDescription>, SearchError>)
        requires
            self.wf(),
        ensures
            caller@ == anonymous_bytes() ==> r == Err::<Vec<WebsiteDescription>, SearchError>(
                SearchError::AnonymousNotAllowed,
            ),
            caller@ != anonymous_bytes() ==> r is Ok && descriptions_of_list(r->Ok_0@)
                == owned_descriptions(self.descs(), caller@),
    {
        if caller.is_anonymous() {
            return Err(SearchError::AnonymousNotAllowed);
        }
        let ghost ds = self.descs();
        let mut found: Vec<WebsiteDescription> = Vec::new();
        let mut i: usize = 0;
        while i < self.descriptions.len()
            invariant
                i <= self.descriptions.len(),
                ds == self.descs(),
                descriptions_of_list(found@) == owned_descriptions(ds.take(i as int), caller@),
            decreases self.descriptions.len() - i,
        {
            proof {
                assert(ds.take(i + 1).drop_last() =~= ds.take(i as int));
                assert(ds.take(i + 1).last() == ds[i as int]);
            }
            let ghost before = descriptions_of_list(found@);
            if self.descriptions[i].0.owner.same(caller) {
                found.push(self.descriptions[i].1.copy());
                proof {
                    assert(descriptions_of_list(found@) =~= before.push(ds[i as int].1));
                }
            }
            i = i + 1;
        }
        proof {
            assert(ds.take(i as int) =~= ds);
        }
        Ok(found)
    }

    /// Sets the description of the caller's website `description.link`,
    /// creating the website key if it is new.
    pub fn set_description(&mut self, caller: &Identity, description: WebsiteDescription) -> (r:
        Result<(), SearchError>)
        requires
            old(self).wf(),
        ensures
            final(self).wf(),
            caller@ == anonymous_bytes() ==> r == Err::<(), SearchError>(
                SearchError::AnonymousNotAllowed,
            ) && *final(self) == *old(self),
            caller@ != anonymous_bytes() ==> r is Ok && final(self).description_of(
                (caller@, description.link@),
            ) == Some(description@),
            forall|w: (Seq<u8>, Seq<char>)|
                w != (caller@, description.link@) ==> #[trigger] final(self).description_of(w)
                    == old(self).description_of(w),
            final(self).balances() == old(self).balances(),
            final(self).websites() == old(self).websites(),
            final(self).terms() == old(self).terms(),
            forall|id: Seq<u8>| #[trigger] final(self).holdings(id) == old(self).holdings(id),
    {
        if caller.is_anonymous() {
            return Err(SearchError::AnonymousNotAllowed);
        }
        let website = Website { owner: caller.copy(), link: description.link.clone() };
        let ghost s0 = self.descs();
        let ghost dv = description@;
        proof {
            lemma_lookup(s0, website@);
        }
        match find_website(&self.descriptions, &website) {
            Some(i) => {
                self.descriptions.set(i, (website, description));
                proof {
                    assert(s0[i as int].0 == (caller@, dv.1));
                    assert(self.descs() =~= s0.update(i as int, (s0[i as int].0, dv)));
                    lemma_update(s0, i as int, dv);
                }
            },
            None => {
                let ghost wv = website@;
                self.descriptions.push((website, description));
                proof {
                    assert(self.descs() =~= s0.push((wv, dv)));
                    lemma_push(s0, wv, dv);
                }
            },
        }
        proof {
            self.lemma_mirrored_same(*old(self));
        }
        Ok(())
    }

    /// Removes the caller's website `link`: its description goes, and its
    /// stakes are retracted to the caller's unstaked balance. Fails with
    /// `NotOwner` when the caller has no website under `link`. The caller's
    /// balance and what the website holds must fit in 64 bits together.
    pub fn remove_website(&mut self, caller: &Identity, link: String) -> (r: Result<(), SearchError>)
        requires
            old(self).wf(),
            old(self).balance(caller@) + total(old(self).stakes_of((caller@, link@)))
                <= u64::MAX,
        ensures
            final(self).wf(),
            r is Err ==> *final(self) == *old(self),
            caller@ == anonymous_bytes() ==> r == Err::<(), SearchError>(
                SearchError::AnonymousNotAllowed,
            ),
            caller@ != anonymous_bytes() && old(self).description_of((caller@, link@)) is None
                ==> r == Err::<(), SearchError>(SearchError::NotOwner),
            caller@ != anonymous_bytes() && old(self).description_of((caller@, link@)) is Some
                ==> {
                &&& r is Ok
                &&& final(self).description_of((caller@, link@)) is None
                &&& final(self).stakes_of((caller@, link@)) == Seq::<(Seq<char>, u64)>::empty()
                &&& final(self).balance(caller@) == old(self).balance(caller@) + total(
                    old(self).stakes_of((caller@, link@)),
                )
            },
            forall|w: (Seq<u8>, Seq<char>)|
                w != (caller@, link@) ==> #[trigger] final(self).description_of(w)
                    == old(self).description_of(w),
            forall|o: Seq<u8>|
                o != caller@ ==> #[trigger] final(self).balance(o) == old(self).balance(o),
            forall|w2: (Seq<u8>, Seq<char>)|
                w2 != (caller@, link@) ==> #[trigger] final(self).stakes_of(w2)
                    == old(self).stakes_of(w2),
            forall|id: Seq<u8>| #[trigger] final(self).holdings(id) == old(self).holdings(id),
    {
        if caller.is_anonymous() {
            return Err(SearchError::AnonymousNotAllowed);
        }
        let website = Website { owner: caller.copy(), link };
        let ghost s0 = self.descs();
        proof {
            lemma_lookup(s0, website@);
        }
        match find_website(&self.descriptions, &website) {
            None => {
                return Err(SearchError::NotOwner);
            },
            Some(i) => {
                self.descriptions.remove(i);
                proof {
                    assert(self.descs() =~= s0.remove(i as int));
                    lemma_remove(s0, i as int);
                    self.lemma_mirrored_same(*old(self));
                }
            },
        }
        self.retract_website(caller, &website.link)
    }
}

} // verus!
