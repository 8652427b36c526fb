//! Listings entered when the engine starts: each one is credited with what
//! its stakes need, described, and staked on its terms.
use vstd::prelude::*;
use crate::alist::{
    all_positive, lemma_total_at_most, lemma_total_prefix, lemma_total_push, total,
};
use crate::identity::{
    anonymous_bytes, parse_identity, principal_from_text, principal_to_link, Website,
};
use crate::stakes::{
    adds_of, after_adds, get, removes_of, stake_outcome, Stake, StakeDelta,
    StakeOutcome,
};
use crate::state::{stakes_view, AppState, WebsiteDescription};

verus! {

/// Credits in one unit of a seed listing's stake.
pub const CREDITS_PER_UNIT: u64 = 1_000_000_000;

/// The batch that stakes each (term, amount) of `stakes`.
pub open spec fn seed_deltas(stakes: Seq<(String, u64)>) -> Seq<StakeDelta> {
    stakes.map_values(|e: (String, u64)| StakeDelta::Add(Stake { term: e.0, value: e.1 as i64 }))
}

/// Every amount fits a stake value.
pub open spec fn fits_stake_values(stakes: Seq<(String, u64)>) -> bool {
    forall|k: int| 0 <= k < stakes.len() ==> #[trigger] stakes[k].1 <= i64::MAX
}

/// A batch of adds only: nothing is removed, and the adds total the amounts.
pub proof fn lemma_seed_batch(stakes: Seq<(String, u64)>)
    requires
        fits_stake_values(stakes),
    ensures
        removes_of(seed_deltas(stakes)) == Seq::<(Seq<char>, u64)>::empty(),
        total(adds_of(seed_deltas(stakes))) == total(stakes_view(stakes)),
        all_positive(adds_of(seed_deltas(stakes))),
    decreases stakes.len(),
{
    if stakes.len() > 0 {
        let init = stakes.drop_last();
        assert(fits_stake_values(init)) by {
            assert forall|k: int| 0 <= k < init.len() implies #[trigger] init[k].1 <= i64::MAX by {
                assert(init[k] == stakes[k]);
            }
        }
        lemma_seed_batch(init);
        let ds = seed_deltas(stakes);
        assert(ds.drop_last() =~= seed_deltas(init));
        assert(stakes_view(stakes).drop_last() =~= stakes_view(init));
        assert(stakes[stakes.len() - 1].1 <= i64::MAX);
        let rest = adds_of(seed_deltas(init));
        let e = stakes.last();
        if e.1 > 0 {
            lemma_total_push(rest, (crate::text::normalized(e.0@), e.1));
            assert(all_positive(adds_of(ds))) by {
                assert forall|k: int| 0 <= k < adds_of(ds).len() implies #[trigger] adds_of(ds)[k].1
                    > 0 by {
                    if k < rest.len() {
                        assert(adds_of(ds)[k] == rest[k]);
                    }
                }
            }
        }
    } else {
        assert(stakes_view(stakes) =~= Seq::empty());
    }
}

/// Adds that total at most the credits available all go through.
pub proof fn lemma_adds_fit(m: Map<Seq<char>, nat>, avail: nat, xs: Seq<(Seq<char>, u64)>)
    requires
        total(xs) <= avail,
    ensures
        after_adds(m, avail, xs).2 is None,
        after_adds(m, avail, xs).1 == avail - total(xs),
    decreases xs.len(),
{
    if xs.len() > 0 {
        lemma_adds_fit(m, avail, xs.drop_last());
    }
}

/// Sum of the amounts of a list of stakes, wide enough for any list.
fn total_wide(v: &Vec<(String, u64)>) -> (r: u128)
    ensures
        r == total(stakes_view(v@)),
{
    let ghost sv = stakes_view(v@);
    let len = v.len();
    proof {
        lemma_total_at_most(sv);
        assert(sv.len() * (u64::MAX as nat) <= (usize::MAX as nat) * (u64::MAX as nat))
            by (nonlinear_arith)
            requires
                sv.len() <= usize::MAX,
        ;
    }
    let mut sum: u128 = 0;
    let mut i: usize = 0;
    while i < len
        invariant
            i <= len,
            len == v.len(),
            sv == stakes_view(v@),
            total(sv) <= (usize::MAX as nat) * (u64::MAX as nat),
            sum == total(sv.take(i as int)),
        decreases len - i,
    {
        proof {
            lemma_total_prefix(sv, i as int);
            lemma_total_prefix(sv, i + 1);
        }
        sum = sum + v[i].1 as u128;
        i = i + 1;
    }
    proof {
        assert(sv.take(i as int) =~= sv);
    }
    sum
}

/// A listing's stakes with owned terms.
fn stake_list(entries: Vec<(&str, u64)>) -> (r: Vec<(String, u64)>)
    ensures
        r.len() == entries.len(),
        forall|k: int|
            0 <= k < r.len() ==> #[trigger] r@[k].0@ == entries@[k].0@ && r@[k].1 == entries@[k].1,
{
    let mut r: Vec<(String, u64)> = Vec::new();
    let mut i: usize = 0;
    while i < entries.len()
        invariant
            i <= entries.len(),
            r.len() == i,
            forall|k: int|
                0 <= k < i ==> #[trigger] r@[k].0@ == entries@[k].0@ && r@[k].1 == entries@[k].1,
        decreases entries.len() - i,
    {
        r.push((String::from_str(entries[i].0), entries[i].1));
        i = i + 1;
    }
    r
}

impl AppState {
    /// Enters the listings the engine starts with.
    pub fn init(&mut self)
        requires
            old(self).wf(),
        ensures
            final(self).wf(),
    {
        let unit = CREDITS_PER_UNIT;
        self.init_entry(
            "r7inp-6aaaa-aaaaa-aaabq-cai",
            "NNS Dapp",
            principal_to_link("qoctq-giaaa-aaaaa-aaaea-cai").as_str(),
            "A Governance Dapp for voting on Internet Computer governance proposals",
            stake_list(
                vec![
                    ("IC", 10 * unit),
                    ("NNS", 2 * unit),
                    ("Internet", 10 * unit),
                    ("Computer", 10 * unit),
                    ("DFINITY", 5 * unit),
                ],
            ),
        );
        self.init_entry(
            "r7inp-6aaaa-aaaaa-aaabq-cai",
            "Internet Identity",
            principal_to_link("rdmx6-jaaaa-aaaaa-aaadq-cai").as_str(),
            "Internet Identity service enables you to authenticate securely and anonymously\
                when accessing applications on the Internet Computer",
            stake_list(
                vec![
                    ("IC", 8 * unit),
                    ("II", 2 * unit),
                    ("Internet", 10 * unit),
                    ("Computer", 2 * unit),
                    ("Identity", 10 * unit),
                ],
            ),
        );
        self.init_entry(
            "hy3go-2qaaa-aaaae-aaabq-cai",
            "Distrik",
            principal_to_link("c7fao-laaaa-aaaae-aaa4q-cai").as_str(),
            "distrikt is a decentralized, professional social\
                    media network that empowers users to own and control their identity.",
            stake_list(
                vec![
                    ("Social", 8 * unit),
                    ("Media", 8 * unit),
                    ("Distrikt", 2 * unit),
                    ("Disrupt", 2 * unit),
                    ("Facebook", 5 * unit),
                ],
            ),
        );
        self.init_entry(
            "g6mnv-cyaaa-aaaab-qaaka-cai",
            "DSCVR",
            principal_to_link("h5aet-waaaa-aaaab-qaamq-cai").as_str(),
            "A decentralized social news aggregator built on the Internet Computer",
            stake_list(
                vec![
                    ("Social", 8 * unit),
                    ("Media", 8 * unit),
                    ("Discover", 12 * unit),
                    ("DSCVR", 5 * unit),
                    ("Reddit", 5 * unit),
                ],
            ),
        );
        self.init_entry(
            "7y2se-wiaaa-aaaaf-aaaba-cai",
            "OpenChat",
            principal_to_link("7e6iv-biaaa-aaaaf-aaada-cai").as_str(),
            "A Truly Decentralized Alternative to WhatsApp",
            stake_list(
                vec![
                    ("Open", 5 * unit),
                    ("Chat", 5 * unit),
                    ("WhatsApp", 12 * unit),
                    ("Communication", 5 * unit),
                    ("IC", 5 * unit),
                ],
            ),
        );
        self.init_entry(
            "vrmfo-gqaaa-aaaah-aaaga-cai",
            "Motoko School",
            principal_to_link("anyuk-uiaaa-aaaah-aaduq-cai").as_str(),
            "A collaborative online school to learn the Motoko programming language",
            stake_list(
                vec![
                    ("Motoko", 5 * unit),
                    ("Programming", 5 * unit),
                    ("Language", 5 * unit),
                    ("Online", 12 * unit),
                    ("Lessons", 5 * unit),
                    ("Canister", 5 * unit),
                ],
            ),
        );
        self.init_entry(
            "a3hwk-dyaaa-aaaab-qaa4a-cai",
            "Motoko Playgrond",
            principal_to_link("m7sm4-2iaaa-aaaab-qabra-cai").as_str(),
            "An online playground to develop and deploy motoko canisters",
            stake_list(
                vec![
                    ("Motoko", 5 * unit),
                    ("Programming", 5 * unit),
                    ("Language", 5 * unit),
                    ("Online", 12 * unit),
                    ("Playground", 15 * unit),
                    ("Canister", 5 * unit),
                ],
            ),
        );
        self.init_entry(
            "ljnyy-wqaaa-aaaae-qaacq-cai",
            "Canlista",
            principal_to_link("m7sm4-2iaaa-aaaab-qabra-cai").as_str(),
            "Find, publish and extend applications and services built on the Internet Computer",
            stake_list(vec![("IC", 5 * unit), ("Listing", 5 * unit)]),
        );
        self.init_entry(
            "a3hwk-dyaaa-aaaab-qaa4a-cai",
            "IC Drive",
            principal_to_link("rglue-kyaaa-aaaah-qakca-cai").as_str(),
            "Secure and Private Decentralized Storage App",
            stake_list(
                vec![
                    ("IC", 5 * unit),
                    ("Drive", 15 * unit),
                    ("Cloud", 15 * unit),
                    ("Dropbox", 12 * unit),
                    ("File", 10 * unit),
                    ("Storage", 8 * unit),
                ],
            ),
        );
        self.init_entry(
            "iqcq7-kaaaa-aaaai-qanaa-cai",
            "DeFind",
            principal_to_link("ilhm2-qyaaa-aaaai-qancq-cai").as_str(),
            "A Stake based search engine ready for the Web 3.0",
            stake_list(
                vec![
                    ("IC", 5 * unit),
                    ("Find", 15 * unit),
                    ("Search", 15 * unit),
                    ("Engine", 15 * unit),
                    ("Canister", 15 * unit),
                    ("Google", 12 * unit),
                    ("Web", 10 * unit),
                ],
            ),
        );
    }

    /// Enters the listing `link` of the principal whose text is
    /// `controller`: credits it with the sum of the amounts of `stakes`,
    /// sets its description and stakes each (term, amount). Returns whether
    /// it was entered; it is not when `controller` is no principal, is the
    /// anonymous one, or when an amount or the credits would not fit.
    pub fn init_entry(
        &mut self,
        controller: &str,
        name: &str,
        link: &str,
        desc: &str,
        stakes: Vec<(String, u64)>,
    ) -> (r: bool)
        requires
            old(self).wf(),
        ensures
            final(self).wf(),
            !r ==> *final(self) == *old(self),
            match principal_from_text(controller@) {
                None => !r,
                Some(o) => {
                    &&& r == (o != anonymous_bytes() && fits_stake_values(stakes@) && total(
                        stakes_view(stakes@),
                    ) + old(self).balance(o) + total(old(self).stakes_of((o, link@)))
                        <= u64::MAX)
                    &&& r ==> final(self).description_of((o, link@)) == Some(
                        (name@, link@, desc@),
                    )
                    &&& r ==> match stake_outcome(
                        old(self).stakes_of((o, link@)),
                        old(self).balance(o) + total(stakes_view(stakes@)),
                        seed_deltas(stakes@),
                    ) {
                        StakeOutcome::Staked(m, b) => {
                            &&& forall|t: Seq<char>| #[trigger]
                                final(self).staked((o, link@), t) == get(m, t)
                            &&& final(self).balance(o) == b
                        },
                        _ => false,
                    }
                    &&& r ==> forall|id: Seq<u8>| #[trigger]
                        final(self).holdings(id) == old(self).holdings(id) + if id == o {
                            total(stakes_view(stakes@))
                        } else {
                            0
                        }
                },
            },
    {
        let owner = match parse_identity(controller) {
            Some(owner) => owner,
            None => {
                return false;
            },
        };
        if owner.is_anonymous() {
            return false;
        }
        let ghost sv = stakes_view(stakes@);
        let mut fits = true;
        let mut i: usize = 0;
        while i < stakes.len()
            invariant
                i <= stakes.len(),
                fits == forall|k: int| 0 <= k < i ==> #[trigger] stakes@[k].1 <= i64::MAX,
            decreases stakes.len() - i,
        {
            if stakes[i].1 > i64::MAX as u64 {
                fits = false;
            }
            i = i + 1;
        }
        if !fits {
            return false;
        }
        let needed = total_wide(&stakes);
        let link_text = String::from_str(link);
        let website = Website { owner: owner.copy(), link: link_text.clone() };
        let current = total_wide(&self.stakes_exec(&website));
        let held = self.balance_exec(&owner);
        if needed > u64::MAX as u128 || current > u64::MAX as u128 {
            return false;
        }
        if needed + (held as u128) + current > u64::MAX as u128 {
            return false;
        }
        let needed = needed as u64;
        let ghost s0 = *self;

        self.deposit_cycles(&owner, needed);
        let ghost s1 = *self;
        self.set_description(
            &owner,
            WebsiteDescription {
                name: String::from_str(name),
                link: link_text.clone(),
                description: String::from_str(desc),
            },
        );
        let ghost s2 = *self;

        let mut deltas: Vec<StakeDelta> = Vec::new();
        let mut k: usize = 0;
        while k < stakes.len()
            invariant
                k <= stakes.len(),
                fits_stake_values(stakes@),
                deltas@ == seed_deltas(stakes@.take(k as int)),
            decreases stakes.len() - k,
        {
            let ghost before = deltas@;
            deltas.push(
                StakeDelta::Add(Stake { term: stakes[k].0.clone(), value: stakes[k].1 as i64 }),
            );
            proof {
                assert(seed_deltas(stakes@.take(k + 1)) =~= before.push(
                    StakeDelta::Add(Stake { term: stakes@[k as int].0, value: stakes@[k as int].1 as i64 }),
                ));
            }
            k = k + 1;
        }
        proof {
            assert(stakes@.take(k as int) =~= stakes@);
            lemma_seed_batch(stakes@);
            assert(s2.stakes_of(website@) == s0.stakes_of(website@));
            assert(s2.balance(owner@) == s0.balance(owner@) + needed);
            let ds = seed_deltas(stakes@);
            let xs = adds_of(ds);
            let start = Map::new(|t: Seq<char>| true, |t: Seq<char>| crate::alist::amount_in(s0.stakes_of(website@), t));
            assert(removes_of(ds) =~= Seq::<(Seq<char>, u64)>::empty());
            assert(crate::stakes::after_removes(start, removes_of(ds)) == (start, 0nat, None::<Seq<char>>));
            lemma_adds_fit(start, s2.balance(owner@), xs);
            if xs.len() > 0 {
                assert(xs[xs.len() - 1].1 > 0);
                lemma_total_prefix(xs, xs.len() - 1);
                assert(xs.take(xs.len() as int) =~= xs);
            }
        }
        let staked = self.stake(&owner, link_text, deltas);
        proof {
            assert(staked is Ok);
        }
        true
    }
}

} // verus!
