//! Ranking: a query's terms give each website the share it holds of the
//! stakes on each term; websites are ordered by the sum of their shares.
//!
//! Shares are fixed-point numbers with `SCORE_ONE` standing for a whole
//! share (each term's share rounded down). Equal scores keep the order in
//! which the websites were first met while walking the query's terms and
//! their by-term entries, so a ranking is fully determined by the state.
use vstd::prelude::*;
use vstd::arithmetic::div_mod::{lemma_div_by_multiple, lemma_div_is_ordered};
use vstd::arithmetic::mul::lemma_mul_inequality;
use crate::alist::{
    amount_in, has_key, lemma_amount_absent, lemma_amount_at, lemma_lookup,
    lemma_total_at_most, lemma_total_bounds, lemma_total_prefix, total,
};
use crate::identity::{SearchError, Website};
use crate::directory::descriptions_of_list;
use crate::state::{entries_view, find_term, find_website, AppState, WebsiteDescription};
use crate::text::{normalize_term, normalized};

verus! {

/// A whole share: a website holding all the stake on a term scores this much for it.
pub const SCORE_ONE: u128 = 0x1_0000_0000_0000_0000;

/// A query's terms, normalized.
pub open spec fn query_terms(terms: Seq<String>) -> Seq<Seq<char>> {
    terms.map_values(|t: String| normalized(t@))
}

/// The share of `w` among the entries of one term, in units of `1 / SCORE_ONE`.
pub open spec fn share(es: Seq<((Seq<u8>, Seq<char>), u64)>, w: (Seq<u8>, Seq<char>)) -> nat {
    if total(es) == 0 {
        0
    } else {
        amount_in(es, w) * (SCORE_ONE as nat) / total(es)
    }
}

/// `acc` followed by the websites of `es` that it does not hold yet, in order.
pub open spec fn extend_new(
    acc: Seq<(Seq<u8>, Seq<char>)>,
    es: Seq<((Seq<u8>, Seq<char>), u64)>,
) -> Seq<(Seq<u8>, Seq<char>)>
    decreases es.len(),
{
    if es.len() == 0 {
        acc
    } else {
        let r = extend_new(acc, es.drop_last());
        if r.contains(es.last().0) {
            r
        } else {
            r.push(es.last().0)
        }
    }
}

/// Candidate `k` is ranked before candidate `i`: a higher score, or an equal
/// score and met earlier.
pub open spec fn ranks_before(sc: Seq<nat>, k: int, i: int) -> bool {
    sc[k] > sc[i] || (sc[k] == sc[i] && k < i)
}

/// How many of the first `n` candidates rank before candidate `i`.
pub open spec fn count_before(sc: Seq<nat>, i: int, n: int) -> nat
    decreases n,
{
    if n <= 0 {
        0
    } else {
        count_before(sc, i, n - 1) + if ranks_before(sc, n - 1, i) {
            1nat
        } else {
            0nat
        }
    }
}

/// The position of candidate `i` in the ranking: the number of candidates
/// ranked before it.
pub open spec fn rank_position(sc: Seq<nat>, i: int) -> nat {
    count_before(sc, i, sc.len() as int)
}

pub open spec fn ranked_view(v: Seq<(Website, u128)>) -> Seq<((Seq<u8>, Seq<char>), nat)> {
    v.map_values(|e: (Website, u128)| (e.0@, e.1 as nat))
}

/// The websites on page `page` of a ranking, `per_page` to a page.
pub open spec fn page_of(r: Seq<((Seq<u8>, Seq<char>), nat)>, page: nat, per_page: nat) -> Seq<
    (Seq<u8>, Seq<char>),
> {
    let start: int = (page * per_page) as int;
    let end: int = if start + per_page <= r.len() {
        start + per_page
    } else {
        r.len() as int
    };
    if start >= r.len() {
        Seq::empty()
    } else {
        r.subrange(start, end).map_values(|e: ((Seq<u8>, Seq<char>), nat)| e.0)
    }
}

impl AppState {
    /// The score of `w` for the normalized query terms `qs`.
    pub open(crate) spec fn score(&self, qs: Seq<Seq<char>>, w: (Seq<u8>, Seq<char>)) -> nat
        decreases qs.len(),
    {
        if qs.len() == 0 {
            0
        } else {
            self.score(qs.drop_last(), w) + share(self.term_entries(qs.last()), w)
        }
    }

    /// The websites that match some term of `qs`, in the order first met.
    pub open(crate) spec fn candidates(&self, qs: Seq<Seq<char>>) -> Seq<(Seq<u8>, Seq<char>)>
        decreases qs.len(),
    {
        if qs.len() == 0 {
            Seq::empty()
        } else {
            extend_new(self.candidates(qs.drop_last()), self.term_entries(qs.last()))
        }
    }

    /// The scores of the candidates, in candidate order.
    pub open(crate) spec fn candidate_scores(&self, qs: Seq<Seq<char>>) -> Seq<nat> {
        self.candidates(qs).map_values(|w: (Seq<u8>, Seq<char>)| self.score(qs, w))
    }

    /// `r` is the ranking of the candidates of `qs`: each candidate with its
    /// score, at its rank position.
    pub open(crate) spec fn is_ranking(
        &self,
        qs: Seq<Seq<char>>,
        r: Seq<((Seq<u8>, Seq<char>), nat)>,
    ) -> bool {
        let c = self.candidates(qs);
        let sc = self.candidate_scores(qs);
        &&& r.len() == c.len()
        &&& forall|i: int|
            0 <= i < c.len() ==> r[rank_position(sc, i) as int] == (c[i], #[trigger] sc[i])
    }

    /// The descriptions of the websites `ws` that have one, in order.
    pub open(crate) spec fn described(&self, ws: Seq<(Seq<u8>, Seq<char>)>) -> Seq<
        (Seq<char>, Seq<char>, Seq<char>),
    >
        decreases ws.len(),
    {
        if ws.len() == 0 {
            Seq::empty()
        } else {
            let rest = self.described(ws.drop_last());
            match self.description_of(ws.last()) {
                Some(d) => rest.push(d),
                None => rest,
            }
        }
    }
}

pub proof fn lemma_count_bounds(sc: Seq<nat>, i: int, n: int)
    requires
        0 <= i < sc.len(),
        0 <= n <= sc.len(),
    ensures
        count_before(sc, i, n) <= n,
        i < n ==> count_before(sc, i, n) < n,
    decreases n,
{
    if n > 0 {
        lemma_count_bounds(sc, i, n - 1);
    }
}

/// Whatever ranks before `i` ranks before anything `i` ranks before.
pub proof fn lemma_count_ordered(sc: Seq<nat>, i: int, j: int, n: int)
    requires
        0 <= i < sc.len(),
        0 <= j < sc.len(),
        0 <= n <= sc.len(),
        ranks_before(sc, i, j),
    ensures
        count_before(sc, j, n) >= count_before(sc, i, n) + if i < n {
            1nat
        } else {
            0nat
        },
    decreases n,
{
    if n > 0 {
        lemma_count_ordered(sc, i, j, n - 1);
    }
}

/// Distinct candidates have distinct positions.
pub proof fn lemma_positions_distinct(sc: Seq<nat>, i: int, j: int)
    requires
        0 <= i < sc.len(),
        0 <= j < sc.len(),
        i != j,
    ensures
        rank_position(sc, i) != rank_position(sc, j),
{
    if ranks_before(sc, i, j) {
        lemma_count_ordered(sc, i, j, sc.len() as int);
    } else {
        lemma_count_ordered(sc, j, i, sc.len() as int);
    }
}

pub proof fn lemma_share_at_most_one(es: Seq<((Seq<u8>, Seq<char>), u64)>, w: (Seq<u8>, Seq<char>))
    requires
        crate::alist::unique_keys(es),
    ensures
        share(es, w) <= SCORE_ONE as nat,
        amount_in(es, w) <= total(es),
{
    lemma_lookup(es, w);
    if has_key(es, w) {
        let j = choose|j: int| 0 <= j < es.len() && #[trigger] es[j].0 == w;
        lemma_total_bounds(es, j);
    }
    if total(es) > 0 {
        let a = amount_in(es, w) as int;
        let t = total(es) as int;
        let s = SCORE_ONE as int;
        lemma_mul_inequality(a, t, s);
        lemma_div_is_ordered(a * s, t * s, t);
        lemma_div_by_multiple(s, t);
        assert(t * s == s * t) by (nonlinear_arith);
    }
}

/// Whether `v` holds `w`.
fn holds_website(v: &Vec<Website>, w: &Website) -> (r: bool)
    ensures
        r == v@.map_values(|x: Website| x@).contains(w@),
{
    let ghost vv = v@.map_values(|x: Website| x@);
    let mut i: usize = 0;
    while i < v.len()
        invariant
            i <= v.len(),
            vv == v@.map_values(|x: Website| x@),
            forall|j: int| 0 <= j < i ==> vv[j] != w@,
        decreases v.len() - i,
    {
        if v[i].same(w) {
            assert(vv[i as int] == w@);
            return true;
        }
        i = i + 1;
    }
    false
}

/// The sum of the amounts of a by-term entry list.
fn entries_total(v: &Vec<(Website, u64)>) -> (r: u128)
    ensures
        r == total(entries_view(v@)),
{
    let ghost ev = entries_view(v@);
    let len = v.len();
    proof {
        lemma_total_at_most(ev);
        assert(ev.len() * (u64::MAX as nat) <= (usize::MAX as nat) * (u64::MAX as nat))
            by (nonlinear_arith)
            requires
                ev.len() <= usize::MAX,
        ;
    }
    let mut sum: u128 = 0;
    let mut i: usize = 0;
    while i < len
        invariant
            i <= len,
            len == v.len(),
            ev == entries_view(v@),
            total(ev) <= (usize::MAX as nat) * (u64::MAX as nat),
            sum == total(ev.take(i as int)),
        decreases len - i,
    {
        proof {
            lemma_total_prefix(ev, i as int);
            lemma_total_prefix(ev, i + 1);
        }
        sum = sum + v[i].1 as u128;
        i = i + 1;
    }
    proof {
        assert(ev.take(i as int) =~= ev);
    }
    sum
}

impl AppState {
    /// The by-term entries of `t`, if the term has any.
    fn entries_of(&self, t: &String) -> (r: Option<usize>)
        requires
            self.terms_wf(),
        ensures
            match r {
                Some(i) => i < self.by_term.len() && self.term_entries(t@) == entries_view(
                    self.by_term@[i as int].1@,
                ),
                None => self.term_entries(t@) == Seq::<((Seq<u8>, Seq<char>), u64)>::empty(),
            },
    {
        proof {
            lemma_lookup(self.terms(), t@);
        }
        match find_term(&self.by_term, t) {
            Some(i) => {
                proof {
                    assert(self.terms()[i as int].0 == t@);
                }
                Some(i)
            },
            None => {
                proof {
                    assert(!has_key(self.terms(), t@));
                }
                None
            },
        }
    }

    /// The share of `w` in the entries of the term at `idx` (or in none).
    fn share_exec(&self, idx: Option<usize>, w: &Website) -> (r: u128)
        requires
            self.terms_wf(),
            idx is Some ==> idx->0 < self.by_term.len(),
        ensures
            r == share(
                match idx {
                    Some(i) => entries_view(self.by_term@[i as int].1@),
                    None => Seq::<((Seq<u8>, Seq<char>), u64)>::empty(),
                },
                w@,
            ),
            r <= SCORE_ONE,
    {
        match idx {
            None => {
                proof {
                    assert(total(Seq::<((Seq<u8>, Seq<char>), u64)>::empty()) == 0);
                }
                0
            },
            Some(i) => {
                let entries = &self.by_term[i].1;
                let ghost ev = entries_view(entries@);
                proof {
                    assert(self.terms()[i as int].1 == ev);
                    assert(crate::state::inner_wf(self.terms()[i as int].1));
                    lemma_share_at_most_one(ev, w@);
                }
                let tot = entries_total(entries);
                if tot == 0 {
                    return 0;
                }
                let amount: u64 = match find_website(entries, w) {
                    Some(j) => {
                        proof {
                            lemma_amount_at(ev, j as int);
                        }
                        entries[j].1
                    },
                    None => {
                        proof {
                            lemma_amount_absent(ev, w@);
                        }
                        0
                    },
                };
                proof {
                    assert((amount as int) * (SCORE_ONE as int) <= (u64::MAX as int) * (
                    SCORE_ONE as int)) by (nonlinear_arith)
                        requires
                            amount <= u64::MAX,
                    ;
                }
                (amount as u128) * SCORE_ONE / tot
            },
        }
    }

    /// Ranks the websites matching `terms`: each with its score, highest
    /// first; equal scores in the order the websites were first met.
    pub fn rank(&self, terms: &Vec<String>) -> (r: Vec<(Website, u128)>)
        requires
            self.wf(),
        ensures
            self.is_ranking(query_terms(terms@), ranked_view(r@)),
    {
        let ghost qs = query_terms(terms@);
        // The normalized terms, with the by-term entries each one matches.
        let mut found: Vec<Option<usize>> = Vec::new();
        let mut i: usize = 0;
        while i < terms.len()
            invariant
                i <= terms.len(),
                self.wf(),
                found.len() == i,
                qs == query_terms(terms@),
                forall|k: int|
                    0 <= k < i ==> match #[trigger] found@[k] {
                        Some(j) => j < self.by_term.len() && self.term_entries(qs[k]) == entries_view(
                            self.by_term@[j as int].1@,
                        ),
                        None => self.term_entries(qs[k]) == Seq::<
                            ((Seq<u8>, Seq<char>), u64),
                        >::empty(),
                    },
            decreases terms.len() - i,
        {
            let t = normalize_term(&terms[i]);
            let idx = self.entries_of(&t);
            found.push(idx);
            i = i + 1;
        }

        // Candidates, in the order first met.
        let mut cands: Vec<Website> = Vec::new();
        let mut q: usize = 0;
        while q < found.len()
            invariant
                q <= found.len(),
                found.len() == terms.len(),
                qs == query_terms(terms@),
                qs.len() == terms.len(),
                self.wf(),
                forall|k: int|
                    0 <= k < found.len() ==> match #[trigger] found@[k] {
                        Some(j) => j < self.by_term.len() && self.term_entries(qs[k]) == entries_view(
                            self.by_term@[j as int].1@,
                        ),
                        None => self.term_entries(qs[k]) == Seq::<
                            ((Seq<u8>, Seq<char>), u64),
                        >::empty(),
                    },
                cands@.map_values(|x: Website| x@) == self.candidates(qs.take(q as int)),
            decreases found.len() - q,
        {
            proof {
                assert(qs.take(q + 1).drop_last() =~= qs.take(q as int));
                assert(qs.take(q + 1).last() == qs[q as int]);
            }
            let ghost acc = self.candidates(qs.take(q as int));
            match found[q] {
                None => {
                    proof {
                        assert(self.candidates(qs.take(q + 1)) == extend_new(
                            acc,
                            Seq::<((Seq<u8>, Seq<char>), u64)>::empty(),
                        ));
                    }
                },
                Some(idx) => {
                    let entries = &self.by_term[idx].1;
                    let ghost ev = entries_view(entries@);
                    let mut e: usize = 0;
                    while e < entries.len()
                        invariant
                            e <= entries.len(),
                            ev == entries_view(entries@),
                            cands@.map_values(|x: Website| x@) == extend_new(
                                acc,
                                ev.take(e as int),
                            ),
                        decreases entries.len() - e,
                    {
                        proof {
                            assert(ev.take(e + 1).drop_last() =~= ev.take(e as int));
                            assert(ev.take(e + 1).last() == ev[e as int]);
                        }
                        let ghost before = cands@.map_values(|x: Website| x@);
                        if !holds_website(&cands, &entries[e].0) {
                            cands.push(entries[e].0.copy());
                            proof {
                                assert(cands@.map_values(|x: Website| x@) =~= before.push(
                                    ev[e as int].0,
                                ));
                            }
                        }
                        e = e + 1;
                    }
                    proof {
                        assert(ev.take(e as int) =~= ev);
                    }
                },
            }
            q = q + 1;
        }
        proof {
            assert(qs.take(q as int) =~= qs);
        }
        let ghost cv = cands@.map_values(|x: Website| x@);

        // Scores.
        let mut scores: Vec<u128> = Vec::new();
        let mut c: usize = 0;
        while c < cands.len()
            invariant
                c <= cands.len(),
                scores.len() == c,
                found.len() == terms.len(),
                qs == query_terms(terms@),
                qs.len() == terms.len(),
                self.wf(),
                forall|k: int|
                    0 <= k < found.len() ==> match #[trigger] found@[k] {
                        Some(j) => j < self.by_term.len() && self.term_entries(qs[k]) == entries_view(
                            self.by_term@[j as int].1@,
                        ),
                        None => self.term_entries(qs[k]) == Seq::<
                            ((Seq<u8>, Seq<char>), u64),
                        >::empty(),
                    },
                cv == cands@.map_values(|x: Website| x@),
                forall|k: int| 0 <= k < c ==> #[trigger] scores@[k] == self.score(qs, cv[k]),
            decreases cands.len() - c,
        {
            let mut sum: u128 = 0;
            let mut q: usize = 0;
            while q < found.len()
                invariant
                    q <= found.len(),
                    c < cands.len(),
                    found.len() == terms.len(),
                    qs.len() == terms.len(),
                    terms.len() <= usize::MAX,
                    self.wf(),
                    forall|k: int|
                        0 <= k < found.len() ==> match #[trigger] found@[k] {
                            Some(j) => j < self.by_term.len() && self.term_entries(qs[k])
                                == entries_view(self.by_term@[j as int].1@),
                            None => self.term_entries(qs[k]) == Seq::<
                                ((Seq<u8>, Seq<char>), u64),
                            >::empty(),
                        },
                    cv == cands@.map_values(|x: Website| x@),
                    sum == self.score(qs.take(q as int), cv[c as int]),
                    sum <= q * (SCORE_ONE as nat),
                decreases found.len() - q,
            {
                proof {
                    assert(qs.take(q + 1).drop_last() =~= qs.take(q as int));
                    assert(qs.take(q + 1).last() == qs[q as int]);
                    assert(cands@[c as int]@ == cv[c as int]);
                }
                let part = self.share_exec(found[q], &cands[c]);
                proof {
                    assert(q * (SCORE_ONE as nat) + SCORE_ONE as nat == (q + 1) * (SCORE_ONE as nat))
                        by (nonlinear_arith);
                    assert((q + 1) * (SCORE_ONE as nat) <= (usize::MAX as nat) * (SCORE_ONE as nat))
                        by (nonlinear_arith)
                        requires
                            q + 1 <= usize::MAX,
                    ;
                }
                sum = sum + part;
                q = q + 1;
            }
            proof {
                assert(qs.take(q as int) =~= qs);
            }
            scores.push(sum);
            c = c + 1;
        }
        let ghost sc = self.candidate_scores(qs);
        proof {
            assert(sc.len() == cands.len());
            assert forall|k: int| 0 <= k < cands.len() implies #[trigger] sc[k] == scores@[k] as nat by {
                assert(sc[k] == self.score(qs, cv[k]));
            }
        }

        // Each candidate goes to its rank position.
        let mut ranked: Vec<(Website, u128)> = Vec::new();
        let mut k: usize = 0;
        while k < cands.len()
            invariant
                k <= cands.len(),
                ranked.len() == k,
                scores.len() == cands.len(),
            decreases cands.len() - k,
        {
            ranked.push((cands[k].copy(), scores[k]));
            k = k + 1;
        }
        let n = cands.len();
        let mut i: usize = 0;
        while i < n
            invariant
                i <= n,
                n == cands.len(),
                ranked.len() == n,
                scores.len() == n,
                sc.len() == n,
                cv == cands@.map_values(|x: Website| x@),
                forall|k: int| 0 <= k < n ==> #[trigger] sc[k] == scores@[k] as nat,
                forall|k: int|
                    0 <= k < i ==> ranked_view(ranked@)[rank_position(sc, k) as int] == (
                        cv[k],
                        #[trigger] sc[k],
                    ),
            decreases n - i,
        {
            let mut pos: usize = 0;
            let mut j: usize = 0;
            while j < n
                invariant
                    j <= n,
                    i < n,
                    n == scores.len(),
                    sc.len() == n,
                    forall|k: int| 0 <= k < n ==> #[trigger] sc[k] == scores@[k] as nat,
                    pos == count_before(sc, i as int, j as int),
                    pos <= j,
                decreases n - j,
            {
                if scores[j] > scores[i] || (scores[j] == scores[i] && j < i) {
                    pos = pos + 1;
                }
                j = j + 1;
            }
            proof {
                lemma_count_bounds(sc, i as int, n as int);
            }
            let ghost before = ranked_view(ranked@);
            ranked.set(pos, (cands[i].copy(), scores[i]));
            proof {
                assert(ranked_view(ranked@) =~= before.update(pos as int, (cv[i as int], sc[i as int])));
                assert forall|k: int| 0 <= k < i + 1 implies ranked_view(ranked@)[rank_position(
                    sc,
                    k,
                ) as int] == (cv[k], #[trigger] sc[k]) by {
                    if k < i {
                        lemma_positions_distinct(sc, k, i as int);
                        lemma_count_bounds(sc, k, n as int);
                    }
                }
            }
            i = i + 1;
        }
        proof {
            assert(ranked_view(ranked@).len() == self.candidates(qs).len());
        }
        ranked
    }

    /// The descriptions of the websites on page `page` of the ranking for
    /// `terms`, `entries_per_page` to a page; websites without a description
    /// are skipped. A page past the end is empty.
    pub fn search(&self, terms: Vec<String>, page: u64, entries_per_page: u64) -> (r: Result<
        Vec<WebsiteDescription>,
        SearchError,
    >)
        requires
            self.wf(),
        ensures
            entries_per_page == 0 ==> r == Err::<Vec<WebsiteDescription>, SearchError>(
                SearchError::InvalidPageSize,
            ),
            entries_per_page > 0 ==> r is Ok && exists|rk: Seq<((Seq<u8>, Seq<char>), nat)>|
                #[trigger] self.is_ranking(query_terms(terms@), rk) && descriptions_of_list(
                    r->Ok_0@,
                ) == self.described(page_of(rk, page as nat, entries_per_page as nat)),
    {
        if entries_per_page == 0 {
            return Err(SearchError::InvalidPageSize);
        }
        let ranked = self.rank(&terms);
        let ghost rk = ranked_view(ranked@);
        let ghost pg = page_of(rk, page as nat, entries_per_page as nat);
        proof {
            assert((page as int) * (entries_per_page as int) <= (u64::MAX as int) * (u64::MAX as int))
                by (nonlinear_arith)
                requires
                    page <= u64::MAX,
                    entries_per_page <= u64::MAX,
            ;
        }
        let start: u128 = (page as u128) * (entries_per_page as u128);
        let mut out: Vec<WebsiteDescription> = Vec::new();
        if start >= ranked.len() as u128 {
            proof {
                assert(pg =~= Seq::empty());
            }
            return Ok(out);
        }
        let end: u128 = if start + (entries_per_page as u128) <= ranked.len() as u128 {
            start + (entries_per_page as u128)
        } else {
            ranked.len() as u128
        };
        let start = start as usize;
        let end = end as usize;
        let ghost ws = rk.subrange(start as int, end as int).map_values(
            |e: ((Seq<u8>, Seq<char>), nat)| e.0,
        );
        proof {
            assert(pg == ws);
        }
        let mut i: usize = start;
        while i < end
            invariant
                start <= i <= end,
                end <= ranked.len(),
                rk == ranked_view(ranked@),
                ws == rk.subrange(start as int, end as int).map_values(
                    |e: ((Seq<u8>, Seq<char>), nat)| e.0,
                ),
                self.wf(),
                descriptions_of_list(out@) == self.described(ws.take(i - start)),
            decreases end - i,
        {
            proof {
                assert(ws.take(i - start + 1).drop_last() =~= ws.take(i - start));
                assert(ws.take(i - start + 1).last() == ranked@[i as int].0@);
                lemma_lookup(self.descs(), ranked@[i as int].0@);
            }
            let ghost before = descriptions_of_list(out@);
            match find_website(&self.descriptions, &ranked[i].0) {
                Some(d) => {
                    proof {
                        assert(self.descs()[d as int].0 == ranked@[i as int].0@);
                    }
                    out.push(self.descriptions[d].1.copy());
                    proof {
                        assert(descriptions_of_list(out@) =~= before.push(self.descs()[d as int].1));
                    }
                },
                None => {
                    proof {
                        assert(!has_key(self.descs(), ranked@[i as int].0@));
                    }
                },
            }
            i = i + 1;
        }
        proof {
            assert(ws.take(end - start) =~= ws);
        }
        Ok(out)
    }
}

} // verus!
