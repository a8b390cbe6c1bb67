//! Plain trees with their keys rewritten: escaped, as an encoding writes
//! them, or unescaped, as a decoding reads them.

use vstd::prelude::*;
use crate::inflate::{items_size, members_size, size};
use crate::keys::{
    escaped, lemma_escape_inverse, lemma_rank, marker_key, put, rank, unescaped,
};
use crate::members::{
    distinct_keys, holds, lemma_set_all_holds, lemma_set_all_sorted, lemma_sorted_distinct,
    lemma_sorted_same, set_all,
};
use crate::tree::{canonical, Tree};

verus! {

/// What is done to each key of a tree.
pub enum Keys {
    Kept,
    Escaped,
    Unescaped,
}

/// The key after it is rewritten.
pub open spec fn rekey(mode: Keys, k: Seq<char>) -> Seq<char> {
    match mode {
        Keys::Kept => k,
        Keys::Escaped => escaped(k),
        Keys::Unescaped => unescaped(k),
    }
}

/// The tree with every key rewritten and the members of each object set,
/// one after the other, into canonical order. Of two members that come to
/// have one key the later one stays.
pub open spec fn rekeyed(t: Tree, mode: Keys) -> Tree
    decreases t, 0nat,
{
    match t {
        Tree::Array(items) => Tree::Array(
            Seq::new(
                items.len(),
                |i: int|
                    if 0 <= i < items.len() {
                        rekeyed(items[i], mode)
                    } else {
                        Tree::Null
                    },
            ),
        ),
        Tree::Object(members) => Tree::Object(rekeyed_members(members, members.len() as int, mode)),
        _ => t,
    }
}

/// The first `n` members, rewritten and set into canonical order.
pub open spec fn rekeyed_members(members: Seq<(Seq<char>, Tree)>, n: int, mode: Keys) -> Seq<
    (Seq<char>, Tree),
>
    decreases members, n,
{
    if 0 < n <= members.len() {
        put(
            rekeyed_members(members, n - 1, mode),
            rekey(mode, members[n - 1].0),
            rekeyed(members[n - 1].1, mode),
        )
    } else {
        Seq::empty()
    }
}

/// No object in the tree has a member under the marker key.
pub open spec fn unmarked(t: Tree) -> bool
    decreases t,
{
    match t {
        Tree::Array(items) => forall|i: int| 0 <= i < items.len() ==> unmarked(#[trigger] items[i]),
        Tree::Object(members) => forall|i: int|
            0 <= i < members.len() ==> (#[trigger] members[i]).0 != marker_key() && unmarked(
                members[i].1,
            ),
        _ => true,
    }
}

/// The members, each rewritten, in the order in which they stand.
pub open spec fn rewritten(members: Seq<(Seq<char>, Tree)>, mode: Keys) -> Seq<(Seq<char>, Tree)> {
    Seq::new(members.len(), |i: int| (rekey(mode, members[i].0), rekeyed(members[i].1, mode)))
}

/// The rewritten members of an object are its members, each rewritten, set
/// one after the other.
pub proof fn lemma_rekeyed_members(members: Seq<(Seq<char>, Tree)>, n: int, mode: Keys)
    requires
        0 <= n <= members.len(),
    ensures
        rekeyed_members(members, n, mode) == set_all(rewritten(members, mode), n),
    decreases n,
{
    if n > 0 {
        lemma_rekeyed_members(members, n - 1, mode);
    }
}

/// A place at which the list holds the member.
spec fn source(list: Seq<(Seq<char>, Tree)>, x: (Seq<char>, Tree)) -> int {
    choose|j: int| 0 <= j < list.len() && list[j] == x
}

/// Escaping the keys of a canonical tree and unescaping them again gives
/// the tree back. The escaped tree is canonical and holds no marker key.
pub proof fn lemma_escape_round(t: Tree)
    requires
        canonical(t),
    ensures
        rekeyed(rekeyed(t, Keys::Escaped), Keys::Unescaped) == t,
        unmarked(rekeyed(t, Keys::Escaped)),
        canonical(rekeyed(t, Keys::Escaped)),
    decreases t,
{
    match t {
        Tree::Array(items) => {
            let mid = rekeyed(t, Keys::Escaped)->Array_0;
            let back = rekeyed(rekeyed(t, Keys::Escaped), Keys::Unescaped)->Array_0;
            assert forall|i: int| 0 <= i < items.len() implies back[i] == items[i] && unmarked(
                #[trigger] mid[i],
            ) && canonical(mid[i]) by {
                lemma_escape_round(items[i]);
            }
            assert(back =~= items);
        },
        Tree::Object(members) => {
            let n = members.len() as int;
            let l1 = rewritten(members, Keys::Escaped);
            let e = rekeyed_members(members, n, Keys::Escaped);
            lemma_rekeyed_members(members, n, Keys::Escaped);
            lemma_set_all_sorted(l1, n);
            lemma_sorted_distinct(members);
            assert(distinct_keys(l1, n)) by {
                assert forall|i: int, j: int| 0 <= i < j < n implies (#[trigger] l1[i]).0 != (
                #[trigger] l1[j]).0 by {
                    lemma_escape_inverse(members[i].0);
                    lemma_escape_inverse(members[j].0);
                    assert(members[i].0 != members[j].0);
                }
            }
            assert(l1.take(n) =~= l1);
            // every member of the escaped object is an escaped member of the object
            assert forall|q: int| 0 <= q < e.len() implies 0 <= source(l1, #[trigger] e[q]) < n
                && l1[source(l1, e[q])] == e[q] by {
                lemma_set_all_holds(l1, n, e[q].0, e[q].1);
                assert(holds(e, e[q].0, e[q].1));
                let j = choose|j: int| 0 <= j < l1.len() && #[trigger] l1[j] == (e[q].0, e[q].1);
                assert(l1[j] == e[q]);
            }
            assert forall|q: int| 0 <= q < e.len() implies (#[trigger] e[q]).0 != marker_key()
                && unmarked(e[q].1) && canonical(e[q].1) by {
                let j = source(l1, e[q]);
                lemma_escape_inverse(members[j].0);
                lemma_escape_round(members[j].1);
            }
            let m = e.len() as int;
            let l2 = rewritten(e, Keys::Unescaped);
            let r = rekeyed_members(e, m, Keys::Unescaped);
            lemma_rekeyed_members(e, m, Keys::Unescaped);
            lemma_set_all_sorted(l2, m);
            lemma_sorted_distinct(e);
            assert(l2.take(m) =~= l2);
            assert forall|q: int| 0 <= q < m implies (#[trigger] l2[q]) == members[source(
                l1,
                e[q],
            )] by {
                let j = source(l1, e[q]);
                assert(l1[j] == e[q]);
                lemma_escape_inverse(members[j].0);
                lemma_escape_round(members[j].1);
            }
            assert(distinct_keys(l2, m)) by {
                assert forall|p: int, q: int| 0 <= p < q < m implies (#[trigger] l2[p]).0 != (
                #[trigger] l2[q]).0 by {
                    let i = source(l1, e[p]);
                    let j = source(l1, e[q]);
                    assert(l1[i] == e[p]);
                    assert(l1[j] == e[q]);
                    if members[i].0 == members[j].0 {
                        assert(e[p].0 == e[q].0);
                    }
                }
            }
            assert forall|i: int| 0 <= i < r.len() implies holds(
                members,
                (#[trigger] r[i]).0,
                r[i].1,
            ) by {
                lemma_set_all_holds(l2, m, r[i].0, r[i].1);
                assert(holds(r, r[i].0, r[i].1));
                let q = choose|q: int| 0 <= q < m && #[trigger] l2[q] == (r[i].0, r[i].1);
                let j = source(l1, e[q]);
                assert(members[j] == (r[i].0, r[i].1));
            }
            assert forall|j: int| 0 <= j < members.len() implies holds(
                r,
                (#[trigger] members[j]).0,
                members[j].1,
            ) by {
                lemma_set_all_holds(l1, n, l1[j].0, l1[j].1);
                assert(l1[j] == (l1[j].0, l1[j].1));
                assert(holds(l1, l1[j].0, l1[j].1));
                let q = choose|q: int| 0 <= q < e.len() && #[trigger] e[q] == (l1[j].0, l1[j].1);
                lemma_escape_inverse(members[j].0);
                lemma_escape_round(members[j].1);
                assert(l2[q] == (members[j].0, members[j].1));
                lemma_set_all_holds(l2, m, members[j].0, members[j].1);
                assert(holds(l2, members[j].0, members[j].1));
            }
            lemma_sorted_same(r, members);
        },
        _ => {},
    }
}

/// Rewriting with the keys kept leaves a canonical tree as it is.
pub proof fn lemma_kept(t: Tree)
    requires
        canonical(t),
    ensures
        rekeyed(t, Keys::Kept) == t,
    decreases t,
{
    match t {
        Tree::Array(items) => {
            let back = rekeyed(t, Keys::Kept)->Array_0;
            assert forall|i: int| 0 <= i < items.len() implies back[i] == items[i] by {
                lemma_kept(items[i]);
            }
            assert(back =~= items);
        },
        Tree::Object(members) => {
            let n = members.len() as int;
            let l1 = rewritten(members, Keys::Kept);
            let r = rekeyed_members(members, n, Keys::Kept);
            lemma_rekeyed_members(members, n, Keys::Kept);
            lemma_set_all_sorted(l1, n);
            lemma_sorted_distinct(members);
            assert forall|j: int| 0 <= j < n implies #[trigger] l1[j] == members[j] by {
                lemma_kept(members[j].1);
            }
            assert(l1 =~= members);
            assert(l1.take(n) =~= l1);
            assert forall|i: int| 0 <= i < r.len() implies holds(
                members,
                (#[trigger] r[i]).0,
                r[i].1,
            ) by {
                lemma_set_all_holds(l1, n, r[i].0, r[i].1);
                assert(holds(r, r[i].0, r[i].1));
            }
            assert forall|j: int| 0 <= j < members.len() implies holds(
                r,
                (#[trigger] members[j]).0,
                members[j].1,
            ) by {
                lemma_set_all_holds(l1, n, members[j].0, members[j].1);
                assert(l1[j] == (members[j].0, members[j].1));
                assert(holds(l1, members[j].0, members[j].1));
            }
            lemma_sorted_same(r, members);
        },
        _ => {},
    }
}

proof fn lemma_size_shift(es: Seq<(Seq<char>, Tree)>, r: int, x: (Seq<char>, Tree), j: int)
    requires
        0 <= r <= j <= es.len(),
    ensures
        members_size(es.insert(r, x), j + 1) == members_size(es, j),
    decreases es.len() - j,
{
    let out = es.insert(r, x);
    if j < es.len() {
        assert(out[j + 1] == es[j]);
        lemma_size_shift(es, r, x, j + 1);
    }
}

proof fn lemma_size_insert(es: Seq<(Seq<char>, Tree)>, r: int, x: (Seq<char>, Tree), i: int)
    requires
        0 <= i <= r <= es.len(),
    ensures
        members_size(es.insert(r, x), i) == members_size(es, i) + size(x.1),
    decreases r - i,
{
    let out = es.insert(r, x);
    if i < r {
        assert(out[i] == es[i]);
        lemma_size_insert(es, r, x, i + 1);
    } else {
        assert(out[r] == x);
        lemma_size_shift(es, r, x, r);
    }
}

proof fn lemma_size_same(es: Seq<(Seq<char>, Tree)>, r: int, x: (Seq<char>, Tree), j: int)
    requires
        0 <= r < j <= es.len(),
    ensures
        members_size(es.update(r, x), j) == members_size(es, j),
    decreases es.len() - j,
{
    if j < es.len() {
        assert(es.update(r, x)[j] == es[j]);
        lemma_size_same(es, r, x, j + 1);
    }
}

proof fn lemma_size_update(es: Seq<(Seq<char>, Tree)>, r: int, x: (Seq<char>, Tree), i: int)
    requires
        0 <= i <= r < es.len(),
    ensures
        members_size(es.update(r, x), i) <= members_size(es, i) + size(x.1),
    decreases r - i,
{
    let out = es.update(r, x);
    if i < r {
        assert(out[i] == es[i]);
        lemma_size_update(es, r, x, i + 1);
    } else {
        lemma_size_same(es, r, x, r + 1);
    }
}

/// Setting a member adds no more nodes to a list than the member has.
proof fn lemma_size_put(es: Seq<(Seq<char>, Tree)>, key: Seq<char>, v: Tree)
    ensures
        members_size(put(es, key, v), 0) <= members_size(es, 0) + size(v),
{
    let r = rank(es, key, 0);
    lemma_rank(es, key, 0);
    if r < es.len() && es[r].0 == key {
        lemma_size_update(es, r, (key, v), 0);
    } else {
        lemma_size_insert(es, r, (key, v), 0);
    }
}

/// A tree with its keys rewritten has no more nodes than the tree.
pub proof fn lemma_rekeyed_size(t: Tree, mode: Keys)
    ensures
        size(rekeyed(t, mode)) <= size(t),
    decreases t, 0nat,
{
    match t {
        Tree::Array(items) => {
            lemma_rekeyed_items_size(items, 0, mode);
        },
        Tree::Object(members) => {
            lemma_rekeyed_members_size(members, members.len() as int, mode);
        },
        _ => {},
    }
}

proof fn lemma_rekeyed_items_size(items: Seq<Tree>, i: int, mode: Keys)
    requires
        0 <= i <= items.len(),
    ensures
        items_size(rekeyed(Tree::Array(items), mode)->Array_0, i) <= items_size(items, i),
    decreases items, items.len() - i,
{
    if i < items.len() {
        lemma_rekeyed_size(items[i], mode);
        lemma_rekeyed_items_size(items, i + 1, mode);
    }
}

proof fn lemma_rekeyed_members_size(members: Seq<(Seq<char>, Tree)>, n: int, mode: Keys)
    requires
        0 <= n <= members.len(),
    ensures
        members_size(rekeyed_members(members, n, mode), 0) + members_size(members, n)
            <= members_size(members, 0),
    decreases members, n,
{
    if n > 0 {
        lemma_rekeyed_members_size(members, n - 1, mode);
        lemma_rekeyed_size(members[n - 1].1, mode);
        lemma_size_put(
            rekeyed_members(members, n - 1, mode),
            rekey(mode, members[n - 1].0),
            rekeyed(members[n - 1].1, mode),
        );
    }
}

} // verus!
