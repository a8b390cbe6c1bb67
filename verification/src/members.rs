//! Member lists as sets of members: what a list holds after members are
//! set into it, and why two canonical lists that hold the same are the same.

use vstd::prelude::*;
use crate::keys::{
    key_lt, lemma_key_lt_asymmetric, lemma_key_lt_irreflexive, lemma_key_lt_total,
    lemma_key_lt_transitive, lemma_put_sorted, lemma_rank, put, rank, sorted,
};

verus! {

/// Two member lists with the same keys at the same places have them so
/// after the same key is set in both.
pub proof fn lemma_put_alike<V, W>(
    a: Seq<(Seq<char>, V)>,
    b: Seq<(Seq<char>, W)>,
    key: Seq<char>,
    v: V,
    w: W,
)
    requires
        a.len() == b.len(),
        forall|j: int| 0 <= j < a.len() ==> (#[trigger] a[j]).0 == b[j].0,
    ensures
        rank(a, key, 0) == rank(b, key, 0),
        put(a, key, v).len() == put(b, key, w).len(),
{
    lemma_rank_alike(a, b, key, 0);
    lemma_rank(a, key, 0);
}

proof fn lemma_rank_alike<V, W>(
    a: Seq<(Seq<char>, V)>,
    b: Seq<(Seq<char>, W)>,
    key: Seq<char>,
    i: int,
)
    requires
        a.len() == b.len(),
        forall|j: int| 0 <= j < a.len() ==> (#[trigger] a[j]).0 == b[j].0,
        0 <= i <= a.len(),
    ensures
        rank(a, key, i) == rank(b, key, i),
    decreases a.len() - i,
{
    if i < a.len() {
        assert(a[i].0 == b[i].0);
        if key_lt(a[i].0, key) {
            lemma_rank_alike(a, b, key, i + 1);
        }
    }
}

/// What stands at place `j` after `key` is set: the new member at the
/// key's place, and the members that were there around it.
pub proof fn lemma_put_at<V>(es: Seq<(Seq<char>, V)>, key: Seq<char>, v: V, j: int)
    requires
        0 <= j < put(es, key, v).len(),
    ensures
        ({
            let r = rank(es, key, 0);
            let out = put(es, key, v);
            &&& 0 <= r <= es.len()
            &&& if r < es.len() && es[r].0 == key {
                out.len() == es.len() && out[j] == if j == r {
                    (key, v)
                } else {
                    es[j]
                }
            } else {
                out.len() == es.len() + 1 && out[j] == if j < r {
                    es[j]
                } else if j == r {
                    (key, v)
                } else {
                    es[j - 1]
                }
            }
        }),
{
    lemma_rank(es, key, 0);
}

/// The list holds the member of key `k` and value `v`.
pub open spec fn holds<V>(es: Seq<(Seq<char>, V)>, k: Seq<char>, v: V) -> bool {
    exists|i: int| 0 <= i < es.len() && #[trigger] es[i] == (k, v)
}

/// The list holds a member of key `k`.
pub open spec fn has_key<V>(es: Seq<(Seq<char>, V)>, k: Seq<char>) -> bool {
    exists|i: int| 0 <= i < es.len() && (#[trigger] es[i]).0 == k
}

/// No two of the first `n` members have the same key.
pub open spec fn distinct_keys<V>(es: Seq<(Seq<char>, V)>, n: int) -> bool {
    forall|i: int, j: int| 0 <= i < j < n ==> (#[trigger] es[i]).0 != (#[trigger] es[j]).0
}

/// The canonical list after the first `n` members of `list` are set into
/// the empty list, one after the other.
pub open spec fn set_all<V>(list: Seq<(Seq<char>, V)>, n: int) -> Seq<(Seq<char>, V)>
    decreases n,
{
    if 0 < n <= list.len() {
        put(set_all(list, n - 1), list[n - 1].0, list[n - 1].1)
    } else {
        Seq::empty()
    }
}

/// A canonical list holds no key twice.
pub proof fn lemma_sorted_distinct<V>(es: Seq<(Seq<char>, V)>)
    requires
        sorted(es),
    ensures
        distinct_keys(es, es.len() as int),
{
    assert forall|i: int, j: int| 0 <= i < j < es.len() implies (#[trigger] es[i]).0 != (
    #[trigger] es[j]).0 by {
        lemma_key_lt_irreflexive(es[i].0);
    }
}

/// Where a canonical list does not hold `key` at the key's place, it does
/// not hold the key.
pub proof fn lemma_rank_misses<V>(es: Seq<(Seq<char>, V)>, key: Seq<char>)
    requires
        sorted(es),
        rank(es, key, 0) == es.len() || es[rank(es, key, 0)].0 != key,
    ensures
        !has_key(es, key),
{
    let r = rank(es, key, 0);
    lemma_rank(es, key, 0);
    assert forall|i: int| 0 <= i < es.len() implies (#[trigger] es[i]).0 != key by {
        if i < r {
            lemma_key_lt_irreflexive(key);
        } else {
            lemma_key_lt_total(es[r].0, key);
            lemma_key_lt_irreflexive(key);
            if i > r {
                lemma_key_lt_transitive(key, es[r].0, es[i].0);
            }
        }
    }
}

/// What a canonical list holds after a member is set: that member, and the
/// members of other keys that it held.
pub proof fn lemma_put_holds<V>(es: Seq<(Seq<char>, V)>, key: Seq<char>, v: V, k2: Seq<char>, v2: V)
    requires
        sorted(es),
    ensures
        holds(put(es, key, v), k2, v2) <==> (k2 == key && v2 == v) || (k2 != key && holds(
            es,
            k2,
            v2,
        )),
{
    let r = rank(es, key, 0);
    let out = put(es, key, v);
    lemma_rank(es, key, 0);
    lemma_sorted_distinct(es);
    let replaced = r < es.len() && es[r].0 == key;
    if !replaced {
        lemma_rank_misses(es, key);
    }
    if holds(out, k2, v2) {
        let i = choose|i: int| 0 <= i < out.len() && #[trigger] out[i] == (k2, v2);
        lemma_put_at(es, key, v, i);
        if i != r {
            if replaced {
                assert(es[i] == (k2, v2));
                assert(es[i].0 != es[r].0);
            } else if i < r {
                assert(es[i] == (k2, v2));
            } else {
                assert(es[i - 1] == (k2, v2));
            }
        }
    }
    if k2 == key && v2 == v {
        lemma_put_at(es, key, v, r);
        assert(out[r] == (k2, v2));
    }
    if k2 != key && holds(es, k2, v2) {
        let i = choose|i: int| 0 <= i < es.len() && #[trigger] es[i] == (k2, v2);
        if replaced {
            lemma_put_at(es, key, v, i);
            assert(out[i] == (k2, v2));
        } else if i < r {
            lemma_put_at(es, key, v, i);
            assert(out[i] == (k2, v2));
        } else {
            lemma_put_at(es, key, v, i + 1);
            assert(out[i + 1] == (k2, v2));
        }
    }
}

/// Setting members one after the other gives a canonical list.
pub proof fn lemma_set_all_sorted<V>(list: Seq<(Seq<char>, V)>, n: int)
    ensures
        sorted(set_all(list, n)),
    decreases n,
{
    if 0 < n <= list.len() {
        lemma_set_all_sorted(list, n - 1);
        lemma_put_sorted(set_all(list, n - 1), list[n - 1].0, list[n - 1].1);
    }
}

/// Where no key occurs twice among the members set, the list holds
/// exactly those members.
pub proof fn lemma_set_all_holds<V>(list: Seq<(Seq<char>, V)>, n: int, k: Seq<char>, v: V)
    requires
        0 <= n <= list.len(),
        distinct_keys(list, n),
    ensures
        holds(set_all(list, n), k, v) <==> holds(list.take(n), k, v),
    decreases n,
{
    if n > 0 {
        let before = set_all(list, n - 1);
        let last = list[n - 1];
        lemma_set_all_sorted(list, n - 1);
        lemma_set_all_holds(list, n - 1, k, v);
        lemma_put_holds(before, last.0, last.1, k, v);
        if holds(list.take(n), k, v) {
            let i = choose|i: int| 0 <= i < n && #[trigger] list.take(n)[i] == (k, v);
            if i < n - 1 {
                assert(list.take(n - 1)[i] == (k, v));
                assert(list[i].0 != list[n - 1].0);
            }
        }
        if holds(list.take(n - 1), k, v) {
            let i = choose|i: int| 0 <= i < n - 1 && #[trigger] list.take(n - 1)[i] == (k, v);
            assert(list.take(n)[i] == (k, v));
            assert(list[i].0 != list[n - 1].0);
        }
        if k == last.0 && v == last.1 {
            assert(list.take(n)[n - 1] == (k, v));
        }
    }
}

/// Two canonical lists that hold the same members are the same list.
pub proof fn lemma_sorted_same<V>(a: Seq<(Seq<char>, V)>, b: Seq<(Seq<char>, V)>)
    requires
        sorted(a),
        sorted(b),
        forall|i: int| 0 <= i < a.len() ==> holds(b, (#[trigger] a[i]).0, a[i].1),
        forall|i: int| 0 <= i < b.len() ==> holds(a, (#[trigger] b[i]).0, b[i].1),
    ensures
        a == b,
    decreases a.len(),
{
    if a.len() == 0 {
        if b.len() > 0 {
            assert(holds(a, b[0].0, b[0].1));
        }
        assert(a =~= b);
    } else {
        let la = a.last();
        assert(a[a.len() - 1] == la);
        assert(holds(b, la.0, la.1));
        let q = choose|q: int| 0 <= q < b.len() && #[trigger] b[q] == (la.0, la.1);
        let lb = b.last();
        assert(b[b.len() - 1] == lb);
        assert(holds(a, lb.0, lb.1));
        let p = choose|p: int| 0 <= p < a.len() && #[trigger] a[p] == (lb.0, lb.1);
        // la is the greatest in a, lb the greatest in b, and each is in the other list
        if q < b.len() - 1 {
            assert(key_lt(b[q].0, b[b.len() - 1].0));
            if p < a.len() - 1 {
                assert(key_lt(a[p].0, a[a.len() - 1].0));
                lemma_key_lt_asymmetric(la.0, lb.0);
            } else {
                lemma_key_lt_irreflexive(la.0);
            }
        }
        assert(q == b.len() - 1);
        assert(la == lb);
        let a1 = a.drop_last();
        let b1 = b.drop_last();
        assert forall|i: int| 0 <= i < a1.len() implies holds(b1, (#[trigger] a1[i]).0, a1[i].1) by {
            assert(a1[i] == a[i]);
            assert(holds(b, a[i].0, a[i].1));
            let j = choose|j: int| 0 <= j < b.len() && #[trigger] b[j] == (a[i].0, a[i].1);
            if j == b.len() - 1 {
                assert(key_lt(a[i].0, a[a.len() - 1].0));
                lemma_key_lt_irreflexive(la.0);
            }
            assert(b1[j] == (a1[i].0, a1[i].1));
        }
        assert forall|i: int| 0 <= i < b1.len() implies holds(a1, (#[trigger] b1[i]).0, b1[i].1) by {
            assert(b1[i] == b[i]);
            assert(holds(a, b[i].0, b[i].1));
            let j = choose|j: int| 0 <= j < a.len() && #[trigger] a[j] == (b[i].0, b[i].1);
            if j == a.len() - 1 {
                assert(key_lt(b[i].0, b[b.len() - 1].0));
                lemma_key_lt_irreflexive(lb.0);
            }
            assert(a1[j] == (b1[i].0, b1[i].1));
        }
        lemma_sorted_same(a1, b1);
        assert(a =~= a1.push(la));
        assert(b =~= b1.push(lb));
    }
}

} // verus!
