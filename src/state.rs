//! The engine's state: balances, descriptions, and the two stake indices.
use vstd::prelude::*;
use crate::alist::{all_positive, amount_in, has_key, lemma_lookup, lookup, total, unique_keys};
use crate::identity::{Identity, Website};

verus! {

/// The name, link and text that describe a website.
#[derive(Clone, Debug, PartialEq, Eq)]
pub struct WebsiteDescription {
    pub name: String,
    pub link: String,
    pub description: String,
}

impl View for WebsiteDescription {
    type V = (Seq<char>, Seq<char>, Seq<char>);

    open spec fn view(&self) -> (Seq<char>, Seq<char>, Seq<char>) {
        (self.name@, self.link@, self.description@)
    }
}

impl WebsiteDescription {
    pub fn copy(&self) -> (r: WebsiteDescription)
        ensures
            r@ == self@,
    {
        WebsiteDescription {
            name: self.name.clone(),
            link: self.link.clone(),
            description: self.description.clone(),
        }
    }
}

/// The whole state. `by_website` and `by_term` hold the same stakes, once
/// keyed by website and once keyed by term.
pub struct AppState {
    pub(crate) unstaked: Vec<(Identity, u64)>,
    pub(crate) descriptions: Vec<(Website, WebsiteDescription)>,
    pub(crate) by_website: Vec<(Website, Vec<(String, u64)>)>,
    pub(crate) by_term: Vec<(String, Vec<(Website, u64)>)>,
}

pub open spec fn balances_view(v: Seq<(Identity, u64)>) -> Seq<(Seq<u8>, u64)> {
    v.map_values(|e: (Identity, u64)| (e.0@, e.1))
}

pub open spec fn stakes_view(v: Seq<(String, u64)>) -> Seq<(Seq<char>, u64)> {
    v.map_values(|e: (String, u64)| (e.0@, e.1))
}

pub open spec fn entries_view(v: Seq<(Website, u64)>) -> Seq<((Seq<u8>, Seq<char>), u64)> {
    v.map_values(|e: (Website, u64)| (e.0@, e.1))
}

pub open spec fn websites_view(v: Seq<(Website, Vec<(String, u64)>)>) -> Seq<
    ((Seq<u8>, Seq<char>), Seq<(Seq<char>, u64)>),
> {
    v.map_values(|e: (Website, Vec<(String, u64)>)| (e.0@, stakes_view(e.1@)))
}

pub open spec fn terms_view(v: Seq<(String, Vec<(Website, u64)>)>) -> Seq<
    (Seq<char>, Seq<((Seq<u8>, Seq<char>), u64)>),
> {
    v.map_values(|e: (String, Vec<(Website, u64)>)| (e.0@, entries_view(e.1@)))
}

pub open spec fn descriptions_view(v: Seq<(Website, WebsiteDescription)>) -> Seq<
    ((Seq<u8>, Seq<char>), (Seq<char>, Seq<char>, Seq<char>)),
> {
    v.map_values(|e: (Website, WebsiteDescription)| (e.0@, e.1@))
}

/// What one by-website entry contributes to the holdings of `owner`.
pub open spec fn owned_part(e: ((Seq<u8>, Seq<char>), Seq<(Seq<char>, u64)>), owner: Seq<u8>) -> nat {
    if e.0.0 == owner {
        total(e.1)
    } else {
        0
    }
}

/// Sum of the stakes of all websites of `owner` in a by-website index.
pub open spec fn owner_total(
    s: Seq<((Seq<u8>, Seq<char>), Seq<(Seq<char>, u64)>)>,
    owner: Seq<u8>,
) -> nat
    decreases s.len(),
{
    if s.len() == 0 {
        0
    } else {
        owner_total(s.drop_last(), owner) + owned_part(s.last(), owner)
    }
}

pub proof fn lemma_owner_total_update(
    s: Seq<((Seq<u8>, Seq<char>), Seq<(Seq<char>, u64)>)>,
    i: int,
    e: ((Seq<u8>, Seq<char>), Seq<(Seq<char>, u64)>),
    owner: Seq<u8>,
)
    requires
        0 <= i < s.len(),
    ensures
        owner_total(s.update(i, e), owner) + owned_part(s[i], owner) == owner_total(s, owner)
            + owned_part(e, owner),
    decreases s.len(),
{
    let u = s.update(i, e);
    if i == s.len() - 1 {
        assert(u.drop_last() =~= s.drop_last());
    } else {
        assert(u.drop_last() =~= s.drop_last().update(i, e));
        lemma_owner_total_update(s.drop_last(), i, e, owner);
    }
}

pub proof fn lemma_owner_total_remove(
    s: Seq<((Seq<u8>, Seq<char>), Seq<(Seq<char>, u64)>)>,
    i: int,
    owner: Seq<u8>,
)
    requires
        0 <= i < s.len(),
    ensures
        owner_total(s.remove(i), owner) + owned_part(s[i], owner) == owner_total(s, owner),
    decreases s.len(),
{
    let r = s.remove(i);
    if i == s.len() - 1 {
        assert(r =~= s.drop_last());
    } else {
        assert(r.drop_last() =~= s.drop_last().remove(i));
        lemma_owner_total_remove(s.drop_last(), i, owner);
    }
}

pub proof fn lemma_owner_total_push(
    s: Seq<((Seq<u8>, Seq<char>), Seq<(Seq<char>, u64)>)>,
    e: ((Seq<u8>, Seq<char>), Seq<(Seq<char>, u64)>),
    owner: Seq<u8>,
)
    ensures
        owner_total(s.push(e), owner) == owner_total(s, owner) + owned_part(e, owner),
{
    assert(s.push(e).drop_last() =~= s);
}

/// An inner index list is well formed: distinct keys, positive amounts, not empty.
pub open spec fn inner_wf<K>(s: Seq<(K, u64)>) -> bool {
    unique_keys(s) && all_positive(s) && s.len() > 0
}

impl AppState {
    pub open(crate) spec fn balances(&self) -> Seq<(Seq<u8>, u64)> {
        balances_view(self.unstaked@)
    }

    pub open(crate) spec fn websites(&self) -> Seq<((Seq<u8>, Seq<char>), Seq<(Seq<char>, u64)>)> {
        websites_view(self.by_website@)
    }

    pub open(crate) spec fn terms(&self) -> Seq<(Seq<char>, Seq<((Seq<u8>, Seq<char>), u64)>)> {
        terms_view(self.by_term@)
    }

    pub open(crate) spec fn descs(&self) -> Seq<
        ((Seq<u8>, Seq<char>), (Seq<char>, Seq<char>, Seq<char>)),
    > {
        descriptions_view(self.descriptions@)
    }

    /// The unstaked balance of `id`, zero when it has none.
    pub open(crate) spec fn balance(&self, id: Seq<u8>) -> nat {
        amount_in(self.balances(), id)
    }

    /// The by-website entry of `w`: its terms and amounts, empty when it has none.
    pub open(crate) spec fn stakes_of(&self, w: (Seq<u8>, Seq<char>)) -> Seq<(Seq<char>, u64)> {
        match lookup(self.websites(), w) {
            Some(s) => s,
            None => Seq::empty(),
        }
    }

    /// The amount `w` has staked on `t`, according to the by-website index.
    pub open(crate) spec fn staked(&self, w: (Seq<u8>, Seq<char>), t: Seq<char>) -> nat {
        amount_in(self.stakes_of(w), t)
    }

    /// The by-term entry of `t`: its websites and amounts, empty when it has none.
    pub open(crate) spec fn term_entries(&self, t: Seq<char>) -> Seq<((Seq<u8>, Seq<char>), u64)> {
        match lookup(self.terms(), t) {
            Some(s) => s,
            None => Seq::empty(),
        }
    }

    /// The amount `w` has staked on `t`, according to the by-term index.
    pub open(crate) spec fn term_staked(&self, t: Seq<char>, w: (Seq<u8>, Seq<char>)) -> nat {
        amount_in(self.term_entries(t), w)
    }

    /// The description stored for `w`, if any.
    pub open(crate) spec fn description_of(&self, w: (Seq<u8>, Seq<char>)) -> Option<
        (Seq<char>, Seq<char>, Seq<char>),
    > {
        lookup(self.descs(), w)
    }

    /// Unstaked balance plus everything staked on the websites of `id`.
    pub open(crate) spec fn holdings(&self, id: Seq<u8>) -> nat {
        self.balance(id) + owner_total(self.websites(), id)
    }

    pub open(crate) spec fn balances_wf(&self) -> bool {
        unique_keys(self.balances()) && all_positive(self.balances())
    }

    pub open(crate) spec fn websites_wf(&self) -> bool {
        &&& unique_keys(self.websites())
        &&& forall|i: int|
            0 <= i < self.websites().len() ==> #[trigger] inner_wf(self.websites()[i].1)
    }

    pub open(crate) spec fn terms_wf(&self) -> bool {
        &&& unique_keys(self.terms())
        &&& forall|i: int| 0 <= i < self.terms().len() ==> #[trigger] inner_wf(self.terms()[i].1)
    }

    /// Both indices record the same amount for every website and term.
    pub open(crate) spec fn mirrored(&self) -> bool {
        forall|w: (Seq<u8>, Seq<char>), t: Seq<char>|
            #![trigger self.staked(w, t)]
            #![trigger self.term_staked(t, w)]
            self.staked(w, t) == self.term_staked(t, w)
    }

    /// Both stake indices and the descriptions are those of `o`.
    pub open(crate) spec fn same_stakes_and_descriptions(&self, o: AppState) -> bool {
        &&& self.websites() == o.websites()
        &&& self.terms() == o.terms()
        &&& self.descs() == o.descs()
    }

    /// The state's invariant.
    pub open(crate) spec fn wf(&self) -> bool {
        &&& self.balances_wf()
        &&& self.websites_wf()
        &&& self.terms_wf()
        &&& self.mirrored()
        &&& unique_keys(self.descs())
    }

    /// Mirroring depends on the two indices alone.
    pub proof fn lemma_mirrored_same(&self, o: AppState)
        requires
            o.mirrored(),
            self.websites() == o.websites(),
            self.terms() == o.terms(),
        ensures
            self.mirrored(),
    {
        assert forall|w: (Seq<u8>, Seq<char>), t: Seq<char>|
            #![trigger self.staked(w, t)]
            #![trigger self.term_staked(t, w)]
            self.staked(w, t) == self.term_staked(t, w) by {
            assert(o.staked(w, t) == o.term_staked(t, w));
        }
    }

    pub proof fn lemma_stakes_of_wf(&self, w: (Seq<u8>, Seq<char>))
        requires
            self.websites_wf(),
        ensures
            unique_keys(self.stakes_of(w)),
            all_positive(self.stakes_of(w)),
    {
        lemma_lookup(self.websites(), w);
        if has_key(self.websites(), w) {
            let i = choose|i: int| 0 <= i < self.websites().len() && #[trigger] self.websites()[i].0 == w;
            assert(inner_wf(self.websites()[i].1));
        }
    }

    pub proof fn lemma_term_entries_wf(&self, t: Seq<char>)
        requires
            self.terms_wf(),
        ensures
            unique_keys(self.term_entries(t)),
            all_positive(self.term_entries(t)),
    {
        lemma_lookup(self.terms(), t);
        if has_key(self.terms(), t) {
            let i = choose|i: int| 0 <= i < self.terms().len() && #[trigger] self.terms()[i].0 == t;
            assert(inner_wf(self.terms()[i].1));
        }
    }

    /// An empty state.
    pub fn new() -> (r: AppState)
        ensures
            r.wf(),
            forall|id: Seq<u8>| r.balance(id) == 0,
            forall|w: (Seq<u8>, Seq<char>)| r.stakes_of(w) == Seq::<(Seq<char>, u64)>::empty(),
            forall|t: Seq<char>|
                r.term_entries(t) == Seq::<((Seq<u8>, Seq<char>), u64)>::empty(),
            r.descs().len() == 0,
    {
        let r = AppState {
            unstaked: Vec::new(),
            descriptions: Vec::new(),
            by_website: Vec::new(),
            by_term: Vec::new(),
        };
        assert(r.balances() =~= Seq::empty());
        assert(r.websites() =~= Seq::empty());
        assert(r.terms() =~= Seq::empty());
        assert(r.descs() =~= Seq::empty());
        r
    }
}

/// Position of the entry keyed by `id`.
pub fn find_identity<X>(v: &Vec<(Identity, X)>, id: &Identity) -> (r: Option<usize>)
    ensures
        match r {
            Some(i) => i < v.len() && v@[i as int].0@ == id@,
            None => forall|i: int| 0 <= i < v.len() ==> (#[trigger] v@[i]).0@ != id@,
        },
{
    let mut i: usize = 0;
    while i < v.len()
        invariant
            i <= v.len(),
            forall|j: int| 0 <= j < i ==> (#[trigger] v@[j]).0@ != id@,
        decreases v.len() - i,
    {
        if v[i].0.same(id) {
            return Some(i);
        }
        i = i + 1;
    }
    None
}

/// Position of the entry keyed by `w`.
pub fn find_website<X>(v: &Vec<(Website, X)>, w: &Website) -> (r: Option<usize>)
    ensures
        match r {
            Some(i) => i < v.len() && v@[i as int].0@ == w@,
            None => forall|i: int| 0 <= i < v.len() ==> (#[trigger] v@[i]).0@ != w@,
        },
{
    let mut i: usize = 0;
    while i < v.len()
        invariant
            i <= v.len(),
            forall|j: int| 0 <= j < i ==> (#[trigger] v@[j]).0@ != w@,
        decreases v.len() - i,
    {
        if v[i].0.same(w) {
            return Some(i);
        }
        i = i + 1;
    }
    None
}

/// Position of the entry keyed by `t`.
pub fn find_term<X>(v: &Vec<(String, X)>, t: &String) -> (r: Option<usize>)
    ensures
        match r {
            Some(i) => i < v.len() && v@[i as int].0@ == t@,
            None => forall|i: int| 0 <= i < v.len() ==> (#[trigger] v@[i]).0@ != t@,
        },
{
    let mut i: usize = 0;
    while i < v.len()
        invariant
            i <= v.len(),
            forall|j: int| 0 <= j < i ==> (#[trigger] v@[j]).0@ != t@,
        decreases v.len() - i,
    {
        if v[i].0 == *t {
            return Some(i);
        }
        i = i + 1;
    }
    None
}

} // verus!
