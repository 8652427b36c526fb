//! Association lists: sequences of key/value pairs with distinct keys.
//! The indices of the engine are vectors of pairs; these spec functions and
//! lemmas give them their meaning as finite maps.
use vstd::prelude::*;

verus! {

/// No key occurs twice.
pub open spec fn unique_keys<K, V>(s: Seq<(K, V)>) -> bool {
    forall|i: int, j: int|
        0 <= i < s.len() && 0 <= j < s.len() && i != j ==> #[trigger] s[i].0 != #[trigger] s[j].0
}

/// Some entry has key `k`.
pub open spec fn has_key<K, V>(s: Seq<(K, V)>, k: K) -> bool {
    exists|i: int| 0 <= i < s.len() && #[trigger] s[i].0 == k
}

/// The value stored under `k` (the last such entry).
pub open spec fn lookup<K, V>(s: Seq<(K, V)>, k: K) -> Option<V>
    decreases s.len(),
{
    if s.len() == 0 {
        None
    } else if s.last().0 == k {
        Some(s.last().1)
    } else {
        lookup(s.drop_last(), k)
    }
}

/// The amount stored under `k`, zero where there is none.
pub open spec fn amount_in<K>(s: Seq<(K, u64)>, k: K) -> nat {
    match lookup(s, k) {
        Some(v) => v as nat,
        None => 0,
    }
}

/// Sum of the amounts of all entries.
pub open spec fn total<K>(s: Seq<(K, u64)>) -> nat
    decreases s.len(),
{
    if s.len() == 0 {
        0
    } else {
        total(s.drop_last()) + s.last().1 as nat
    }
}

/// Every amount is positive.
pub open spec fn all_positive<K>(s: Seq<(K, u64)>) -> bool {
    forall|i: int| 0 <= i < s.len() ==> #[trigger] s[i].1 > 0
}

pub proof fn lemma_lookup<K, V>(s: Seq<(K, V)>, k: K)
    requires
        unique_keys(s),
    ensures
        lookup(s, k) is Some <==> has_key(s, k),
        forall|i: int| 0 <= i < s.len() && #[trigger] s[i].0 == k ==> lookup(s, k) == Some(s[i].1),
    decreases s.len(),
{
    if s.len() > 0 {
        let t = s.drop_last();
        assert(unique_keys(t)) by {
            assert forall|i: int, j: int|
                0 <= i < t.len() && 0 <= j < t.len() && i != j implies #[trigger] t[i].0
                != #[trigger] t[j].0 by {
                assert(t[i] == s[i] && t[j] == s[j]);
            }
        }
        lemma_lookup(t, k);
        if s.last().0 == k {
            assert(s[s.len() - 1].0 == k);
        } else {
            if has_key(s, k) {
                let i = choose|i: int| 0 <= i < s.len() && #[trigger] s[i].0 == k;
                assert(t[i].0 == k);
            }
            if has_key(t, k) {
                let i = choose|i: int| 0 <= i < t.len() && #[trigger] t[i].0 == k;
                assert(s[i].0 == k);
            }
            assert forall|i: int| 0 <= i < s.len() && #[trigger] s[i].0 == k implies lookup(s, k)
                == Some(s[i].1) by {
                assert(t[i] == s[i]);
            }
        }
    }
}

pub proof fn lemma_amount_at<K>(s: Seq<(K, u64)>, i: int)
    requires
        unique_keys(s),
        0 <= i < s.len(),
    ensures
        amount_in(s, s[i].0) == s[i].1 as nat,
{
    lemma_lookup(s, s[i].0);
}

pub proof fn lemma_amount_absent<K>(s: Seq<(K, u64)>, k: K)
    requires
        unique_keys(s),
        forall|i: int| 0 <= i < s.len() ==> #[trigger] s[i].0 != k,
    ensures
        amount_in(s, k) == 0,
        lookup(s, k) is None,
{
    lemma_lookup(s, k);
}

pub proof fn lemma_update<K, V>(s: Seq<(K, V)>, i: int, v: V)
    requires
        unique_keys(s),
        0 <= i < s.len(),
    ensures
        unique_keys(s.update(i, (s[i].0, v))),
        forall|k: K| #[trigger]
            lookup(s.update(i, (s[i].0, v)), k) == if k == s[i].0 {
                Some(v)
            } else {
                lookup(s, k)
            },
{
    let u = s.update(i, (s[i].0, v));
    assert(unique_keys(u)) by {
        assert forall|a: int, b: int|
            0 <= a < u.len() && 0 <= b < u.len() && a != b implies #[trigger] u[a].0
            != #[trigger] u[b].0 by {
            assert(u[a].0 == s[a].0 && u[b].0 == s[b].0);
        }
    }
    assert forall|k: K| #[trigger]
        lookup(u, k) == if k == s[i].0 {
            Some(v)
        } else {
            lookup(s, k)
        } by {
        lemma_lookup(s, k);
        lemma_lookup(u, k);
        if k == s[i].0 {
            assert(u[i].0 == k);
        } else {
            if has_key(s, k) {
                let j = choose|j: int| 0 <= j < s.len() && #[trigger] s[j].0 == k;
                assert(u[j] == s[j]);
            } else if has_key(u, k) {
                let j = choose|j: int| 0 <= j < u.len() && #[trigger] u[j].0 == k;
                assert(u[j] == s[j]);
            }
        }
    }
}

pub proof fn lemma_push<K, V>(s: Seq<(K, V)>, k: K, v: V)
    requires
        unique_keys(s),
        lookup(s, k) is None,
    ensures
        unique_keys(s.push((k, v))),
        forall|k2: K| #[trigger]
            lookup(s.push((k, v)), k2) == if k2 == k {
                Some(v)
            } else {
                lookup(s, k2)
            },
{
    let p = s.push((k, v));
    lemma_lookup(s, k);
    assert(p.drop_last() =~= s);
    assert(unique_keys(p)) by {
        assert forall|a: int, b: int|
            0 <= a < p.len() && 0 <= b < p.len() && a != b implies #[trigger] p[a].0
            != #[trigger] p[b].0 by {
            if a == s.len() {
                assert(p[b] == s[b]);
            } else if b == s.len() {
                assert(p[a] == s[a]);
            } else {
                assert(p[a] == s[a] && p[b] == s[b]);
            }
        }
    }
}

pub proof fn lemma_remove<K, V>(s: Seq<(K, V)>, i: int)
    requires
        unique_keys(s),
        0 <= i < s.len(),
    ensures
        unique_keys(s.remove(i)),
        forall|k: K| #[trigger]
            lookup(s.remove(i), k) == if k == s[i].0 {
                None
            } else {
                lookup(s, k)
            },
{
    let r = s.remove(i);
    assert forall|j: int| 0 <= j < r.len() implies #[trigger] r[j] == if j < i {
        s[j]
    } else {
        s[j + 1]
    } by {}
    assert(unique_keys(r)) by {
        assert forall|a: int, b: int|
            0 <= a < r.len() && 0 <= b < r.len() && a != b implies #[trigger] r[a].0
            != #[trigger] r[b].0 by {
            let a2 = if a < i { a } else { a + 1 };
            let b2 = if b < i { b } else { b + 1 };
            assert(r[a] == s[a2] && r[b] == s[b2]);
        }
    }
    assert forall|k: K| #[trigger]
        lookup(r, k) == if k == s[i].0 {
            None
        } else {
            lookup(s, k)
        } by {
        lemma_lookup(s, k);
        lemma_lookup(r, k);
        if has_key(r, k) {
            let j = choose|j: int| 0 <= j < r.len() && #[trigger] r[j].0 == k;
            let j2 = if j < i { j } else { j + 1 };
            assert(r[j] == s[j2]);
        }
        if k != s[i].0 && has_key(s, k) {
            let j = choose|j: int| 0 <= j < s.len() && #[trigger] s[j].0 == k;
            if j < i {
                assert(r[j] == s[j]);
            } else {
                assert(r[j - 1] == s[j]);
            }
        }
    }
}

pub proof fn lemma_total_update<K>(s: Seq<(K, u64)>, i: int, e: (K, u64))
    requires
        0 <= i < s.len(),
    ensures
        total(s.update(i, e)) + s[i].1 == total(s) + e.1,
    decreases s.len(),
{
    let u = s.update(i, e);
    if i == s.len() - 1 {
        assert(u.drop_last() =~= s.drop_last());
    } else {
        assert(u.drop_last() =~= s.drop_last().update(i, e));
        lemma_total_update(s.drop_last(), i, e);
    }
}

pub proof fn lemma_total_remove<K>(s: Seq<(K, u64)>, i: int)
    requires
        0 <= i < s.len(),
    ensures
        total(s.remove(i)) + s[i].1 == total(s),
    decreases s.len(),
{
    let r = s.remove(i);
    if i == s.len() - 1 {
        assert(r =~= s.drop_last());
    } else {
        assert(r.drop_last() =~= s.drop_last().remove(i));
        lemma_total_remove(s.drop_last(), i);
    }
}

pub proof fn lemma_total_push<K>(s: Seq<(K, u64)>, e: (K, u64))
    ensures
        total(s.push(e)) == total(s) + e.1,
{
    assert(s.push(e).drop_last() =~= s);
}

/// An entry's amount is at most the total.
pub proof fn lemma_total_bounds<K>(s: Seq<(K, u64)>, i: int)
    requires
        0 <= i < s.len(),
    ensures
        s[i].1 <= total(s),
    decreases s.len(),
{
    if i < s.len() - 1 {
        lemma_total_bounds(s.drop_last(), i);
    }
}

pub proof fn lemma_has_key_take<K, V>(s: Seq<(K, V)>, i: int, k: K)
    requires
        0 <= i < s.len(),
    ensures
        has_key(s.take(i + 1), k) == (has_key(s.take(i), k) || s[i].0 == k),
{
    let a = s.take(i + 1);
    let b = s.take(i);
    if has_key(a, k) {
        let j = choose|j: int| 0 <= j < a.len() && #[trigger] a[j].0 == k;
        if j < i {
            assert(b[j] == a[j]);
        }
    }
    if has_key(b, k) {
        let j = choose|j: int| 0 <= j < b.len() && #[trigger] b[j].0 == k;
        assert(a[j] == b[j]);
    }
    if s[i].0 == k {
        assert(a[i].0 == k);
    }
}

/// Each amount is at most `u64::MAX`.
pub proof fn lemma_total_at_most<K>(s: Seq<(K, u64)>)
    ensures
        total(s) <= s.len() * (u64::MAX as nat),
    decreases s.len(),
{
    if s.len() > 0 {
        lemma_total_at_most(s.drop_last());
        assert((s.len() - 1) * (u64::MAX as nat) + u64::MAX as nat == s.len() * (u64::MAX as nat))
            by (nonlinear_arith);
    }
}

/// A prefix sums to at most the whole.
pub proof fn lemma_total_prefix<K>(s: Seq<(K, u64)>, i: int)
    requires
        0 <= i <= s.len(),
    ensures
        total(s.take(i)) <= total(s),
        i < s.len() ==> total(s.take(i + 1)) == total(s.take(i)) + s[i].1,
    decreases s.len() - i,
{
    if i < s.len() {
        assert(s.take(i + 1).drop_last() =~= s.take(i));
        lemma_total_prefix(s, i + 1);
    } else {
        assert(s.take(i) =~= s);
    }
}

/// Without an entry for `k` the amount is zero.
pub proof fn lemma_amount_missing<K>(s: Seq<(K, u64)>, k: K)
    requires
        unique_keys(s),
        !has_key(s, k),
    ensures
        amount_in(s, k) == 0,
{
    lemma_lookup(s, k);
}

} // verus!
