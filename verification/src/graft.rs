//! A plain tree set into an arena, parents before children, each node linked
//! into its parent before its own children follow. Both the encoding of a
//! graph that is a tree and the decoding of a document without markers
//! build their output so.

use vstd::prelude::*;
use crate::deflate::slot_below;
use crate::graph::{attach, child, child_count, represents, Node, Slot};
use crate::inflate::{items_size, members_size, size};
use crate::keys::{lemma_put_sorted, put, sorted};
use crate::members::{lemma_put_alike, lemma_put_at};
use crate::rekey::{rekey, rekeyed, rekeyed_members, Keys};
use crate::tree::Tree;

verus! {

/// The node that stands for the top of a tree before its children are
/// linked in: the leaf itself, or an empty container.
pub open spec fn blank_of(t: Tree) -> Node {
    match t {
        Tree::Null => Node::Null,
        Tree::Bool(b) => Node::Bool(b),
        Tree::Number(x) => Node::Number(x),
        Tree::String(s) => Node::String(s),
        Tree::Array(_) => Node::Array(Seq::empty()),
        Tree::Object(_) => Node::Object(Seq::empty()),
    }
}

/// The arena after the tree is set in at its end and linked in at `slot`,
/// with the keys rewritten.
pub open spec fn graft(t: Tree, slot: Slot, out: Seq<Node>, mode: Keys) -> Seq<Node>
    decreases t, 0nat,
{
    let p = out.len() as usize;
    let out1 = attach(out.push(blank_of(t)), slot, p);
    match t {
        Tree::Array(items) => graft_items(items, 0, p, out1, mode),
        Tree::Object(members) => graft_members(members, 0, p, out1, mode),
        _ => out1,
    }
}

/// The arena after the elements from index `i` on are set in, each linked
/// to the end of the array node `p`.
pub open spec fn graft_items(items: Seq<Tree>, i: int, p: usize, out: Seq<Node>, mode: Keys) -> Seq<
    Node,
>
    decreases items, items.len() - i,
{
    if 0 <= i < items.len() {
        graft_items(items, i + 1, p, graft(items[i], Slot::Elem(p), out, mode), mode)
    } else {
        out
    }
}

/// The arena after the members from index `i` on are set in, each linked
/// into the object node `p` under its rewritten key.
pub open spec fn graft_members(
    members: Seq<(Seq<char>, Tree)>,
    i: int,
    p: usize,
    out: Seq<Node>,
    mode: Keys,
) -> Seq<Node>
    decreases members, members.len() - i,
{
    if 0 <= i < members.len() {
        graft_members(
            members,
            i + 1,
            p,
            graft(members[i].1, Slot::Member(p, rekey(mode, members[i].0)), out, mode),
            mode,
        )
    } else {
        out
    }
}

/// From `lo` on, every child lies after its parent, and every object holds
/// its members in canonical order.
pub open spec fn closed(a: Seq<Node>, lo: int) -> bool {
    &&& forall|n: int, i: int|
        lo <= n < a.len() && 0 <= i < child_count(a[n]) ==> n < (#[trigger] child(a[n], i))
            < a.len()
    &&& forall|n: int|
        lo <= n < a.len() ==> (#[trigger] a[n] matches Node::Object(members) ==> sorted(members))
}

/// What a node at or after `lo` is seen as depends on the nodes from `lo`
/// on alone, where those are closed.
pub proof fn lemma_represents_frame(a: Seq<Node>, b: Seq<Node>, lo: int, n: usize, t: Tree)
    requires
        closed(a, lo),
        0 <= lo <= n,
        represents(a, n, t),
        a.len() <= b.len(),
        forall|i: int| lo <= i < a.len() ==> a[i] == b[i],
    ensures
        represents(b, n, t),
    decreases t,
{
    match t {
        Tree::Array(items) => {
            let kids = a[n as int]->Array_0;
            assert forall|i: int| 0 <= i < items.len() implies represents(
                b,
                kids[i],
                #[trigger] items[i],
            ) by {
                assert(kids[i] == child(a[n as int], i));
                lemma_represents_frame(a, b, lo, kids[i], items[i]);
            }
        },
        Tree::Object(entries) => {
            let members = a[n as int]->Object_0;
            assert forall|i: int| 0 <= i < entries.len() implies members[i].0 == (
            #[trigger] entries[i]).0 && represents(b, members[i].1, entries[i].1) by {
                assert(members[i].1 == child(a[n as int], i));
                lemma_represents_frame(a, b, lo, members[i].1, entries[i].1);
            }
        },
        _ => {},
    }
}

/// The array node `p` holds what it held, and after that one handle for
/// each element from index `i` on, each seen as its element rewritten.
pub open spec fn items_linked(
    r: Seq<Node>,
    p: int,
    before: Seq<usize>,
    items: Seq<Tree>,
    i: int,
    lo: int,
    mode: Keys,
) -> bool {
    &&& r[p] is Array
    &&& r[p]->Array_0.len() == before.len() + items.len() - i
    &&& forall|j: int| 0 <= j < before.len() ==> (#[trigger] r[p]->Array_0[j]) == before[j]
    &&& forall|j: int|
        i <= j < items.len() ==> lo <= r[p]->Array_0[before.len() + j - i] < r.len()
            && represents(r, r[p]->Array_0[before.len() + j - i], rekeyed(#[trigger] items[j], mode))
}

/// The member list of handles goes with the member list of trees: the same
/// keys at the same places, each handle after `p` and seen as its tree.
pub open spec fn alike(
    r: Seq<Node>,
    p: int,
    held: Seq<(Seq<char>, usize)>,
    done: Seq<(Seq<char>, Tree)>,
) -> bool {
    &&& held.len() == done.len()
    &&& forall|q: int|
        0 <= q < held.len() ==> (#[trigger] held[q]).0 == done[q].0 && p < held[q].1 < r.len()
            && represents(r, held[q].1, done[q].1)
}

/// Linking below the end of an arena and adding a node commute on the part
/// that was there.
proof fn lemma_attach_prefix(out: Seq<Node>, node: Node, slot: Slot, c: usize)
    requires
        slot_below(slot, out.len() as int),
    ensures
        attach(out.push(node), slot, c).subrange(0, out.len() as int) == attach(out, slot, c),
        attach(out.push(node), slot, c).len() == out.len() + 1,
        attach(out.push(node), slot, c)[out.len() as int] == node,
{
    assert(attach(out.push(node), slot, c).subrange(0, out.len() as int) =~= attach(out, slot, c));
}

/// What `graft` builds: one node for each node of the tree, after the
/// nodes that were there; of those only the parent named by the slot
/// changes, by the link; and the first new node is seen as the tree with
/// its keys rewritten.
pub proof fn lemma_graft(t: Tree, slot: Slot, out: Seq<Node>, mode: Keys)
    requires
        out.len() + size(t) <= usize::MAX,
        slot_below(slot, out.len() as int),
    ensures
        ({
            let r = graft(t, slot, out, mode);
            let p = out.len() as int;
            &&& r.len() == out.len() + size(t)
            &&& r.subrange(0, p) == attach(out, slot, p as usize)
            &&& closed(r, p)
            &&& represents(r, p as usize, rekeyed(t, mode))
        }),
    decreases t, 0nat,
{
    let p = out.len() as usize;
    let out1 = attach(out.push(blank_of(t)), slot, p);
    let r = graft(t, slot, out, mode);
    lemma_attach_prefix(out, blank_of(t), slot, p);
    match t {
        Tree::Array(items) => {
            lemma_graft_items(items, 0, p, out1, mode);
            assert(r.subrange(0, p as int) =~= out1.subrange(0, p as int));
            let kids = r[p as int]->Array_0;
            let want = rekeyed(t, mode)->Array_0;
            assert forall|i: int| 0 <= i < want.len() implies represents(
                r,
                kids[i],
                #[trigger] want[i],
            ) by {
                assert(want[i] == rekeyed(items[i], mode));
            }
            assert forall|n: int, i: int|
                p <= n < r.len() && 0 <= i < child_count(r[n]) implies n < (#[trigger] child(
                r[n],
                i,
            )) < r.len() by {
                if n == p {
                    assert(represents(r, kids[i], rekeyed(items[i], mode)));
                }
            }
        },
        Tree::Object(members) => {
            assert(closed(out1, p + 1));
            lemma_graft_members(members, 0, p, out1, mode);
            assert(r.subrange(0, p as int) =~= out1.subrange(0, p as int));
            let held = r[p as int]->Object_0;
            assert forall|n: int, i: int|
                p <= n < r.len() && 0 <= i < child_count(r[n]) implies n < (#[trigger] child(
                r[n],
                i,
            )) < r.len() by {
                if n == p {
                    assert(child(r[n], i) == held[i].1);
                }
            }
        },
        _ => {},
    }
}

/// What `graft_items` builds.
pub proof fn lemma_graft_items(items: Seq<Tree>, i: int, p: usize, out: Seq<Node>, mode: Keys)
    requires
        0 <= i <= items.len(),
        p < out.len(),
        out[p as int] is Array,
        out.len() + items_size(items, i) <= usize::MAX,
    ensures
        ({
            let r = graft_items(items, i, p, out, mode);
            &&& r.len() == out.len() + items_size(items, i)
            &&& forall|n: int| 0 <= n < out.len() && n != p ==> #[trigger] r[n] == out[n]
            &&& items_linked(r, p as int, out[p as int]->Array_0, items, i, out.len() as int, mode)
            &&& closed(r, out.len() as int)
        }),
    decreases items, items.len() - i,
{
    let before = out[p as int]->Array_0;
    if i < items.len() {
        let c = out.len() as usize;
        let r1 = graft(items[i], Slot::Elem(p), out, mode);
        lemma_graft(items[i], Slot::Elem(p), out, mode);
        let r = graft_items(items, i + 1, p, r1, mode);
        assert(r1[p as int] == r1.subrange(0, out.len() as int)[p as int]);
        assert(r1[p as int] == Node::Array(before.push(c)));
        lemma_graft_items(items, i + 1, p, r1, mode);
        assert forall|n: int| 0 <= n < out.len() && n != p implies #[trigger] r[n] == out[n] by {
            assert(r1[n] == r1.subrange(0, out.len() as int)[n]);
        }
        let kids2 = r[p as int]->Array_0;
        assert forall|j: int| 0 <= j < before.len() implies (#[trigger] kids2[j]) == before[j] by {
            assert(kids2[j] == before.push(c)[j]);
        }
        assert forall|j: int| i <= j < items.len() implies out.len() <= kids2[before.len() + j
            - i] < r.len() && represents(
            r,
            kids2[before.len() + j - i],
            rekeyed(#[trigger] items[j], mode),
        ) by {
            if j == i {
                assert(kids2[before.len() as int] == before.push(c)[before.len() as int]);
                lemma_represents_frame(r1, r, out.len() as int, c, rekeyed(items[i], mode));
            } else {
                assert(before.push(c).len() + j - (i + 1) == before.len() + j - i);
            }
        }
        assert forall|n: int, k: int|
            out.len() <= n < r.len() && 0 <= k < child_count(r[n]) implies n < (#[trigger] child(
            r[n],
            k,
        )) < r.len() by {
            if n < r1.len() {
                assert(r[n] == r1[n]);
                assert(n < child(r1[n], k) < r1.len());
            }
        }
        assert forall|n: int| out.len() <= n < r.len() implies (#[trigger] r[n] matches Node::Object(
            members,
        ) ==> sorted(members)) by {
            if n < r1.len() {
                assert(r[n] == r1[n]);
            }
        }
    }
}

/// What `graft_members` builds.
pub proof fn lemma_graft_members(
    members: Seq<(Seq<char>, Tree)>,
    i: int,
    p: usize,
    out: Seq<Node>,
    mode: Keys,
)
    requires
        0 <= i <= members.len(),
        p < out.len(),
        out[p as int] is Object,
        sorted(out[p as int]->Object_0),
        alike(out, p as int, out[p as int]->Object_0, rekeyed_members(members, i, mode)),
        closed(out, p + 1),
        out.len() + members_size(members, i) <= usize::MAX,
    ensures
        ({
            let r = graft_members(members, i, p, out, mode);
            &&& r.len() == out.len() + members_size(members, i)
            &&& forall|n: int| 0 <= n < out.len() && n != p ==> #[trigger] r[n] == out[n]
            &&& r[p as int] is Object
            &&& sorted(r[p as int]->Object_0)
            &&& alike(
                r,
                p as int,
                r[p as int]->Object_0,
                rekeyed_members(members, members.len() as int, mode),
            )
            &&& closed(r, p + 1)
            &&& represents(
                r,
                p,
                Tree::Object(rekeyed_members(members, members.len() as int, mode)),
            )
        }),
    decreases members, members.len() - i,
{
    let held = out[p as int]->Object_0;
    let done = rekeyed_members(members, i, mode);
    if i < members.len() {
        let c = out.len() as usize;
        let key = rekey(mode, members[i].0);
        let sub = rekeyed(members[i].1, mode);
        let r1 = graft(members[i].1, Slot::Member(p, key), out, mode);
        lemma_graft(members[i].1, Slot::Member(p, key), out, mode);
        assert(r1[p as int] == r1.subrange(0, out.len() as int)[p as int]);
        let held1 = put(held, key, c);
        let done1 = rekeyed_members(members, i + 1, mode);
        assert(r1[p as int] == Node::Object(held1));
        assert(done1 == put(done, key, sub));
        lemma_put_sorted(held, key, c);
        lemma_put_alike(held, done, key, c, sub);
        assert forall|n: int| p + 1 <= n < out.len() implies r1[n] == out[n] by {
            assert(r1[n] == r1.subrange(0, out.len() as int)[n]);
        }
        assert forall|q: int| 0 <= q < held1.len() implies (#[trigger] held1[q]).0 == done1[q].0
            && p < held1[q].1 < r1.len() && represents(r1, held1[q].1, done1[q].1) by {
            lemma_put_at(held, key, c, q);
            lemma_put_at(done, key, sub, q);
            let rk = crate::keys::rank(held, key, 0);
            let replaced = rk < held.len() && held[rk].0 == key;
            if q == rk {
            } else {
                let q0 = if replaced || q < rk {
                    q
                } else {
                    q - 1
                };
                assert(held1[q] == held[q0]);
                assert(done1[q] == done[q0]);
                assert(represents(out, held[q0].1, done[q0].1));
                lemma_represents_frame(out, r1, p + 1, held[q0].1, done[q0].1);
            }
        }
        assert(closed(r1, p + 1)) by {
            assert forall|n: int, k: int|
                p + 1 <= n < r1.len() && 0 <= k < child_count(r1[n]) implies n < (
                #[trigger] child(r1[n], k)) < r1.len() by {
                if n < out.len() {
                    assert(r1[n] == out[n]);
                    assert(n < child(out[n], k) < out.len());
                }
            }
            assert forall|n: int| p + 1 <= n < r1.len() implies (
            #[trigger] r1[n] matches Node::Object(ms) ==> sorted(ms)) by {
                if n < out.len() {
                    assert(r1[n] == out[n]);
                }
            }
        }
        lemma_graft_members(members, i + 1, p, r1, mode);
        let r = graft_members(members, i + 1, p, r1, mode);
        assert forall|n: int| 0 <= n < out.len() && n != p implies #[trigger] r[n] == out[n] by {
            assert(r1[n] == r1.subrange(0, out.len() as int)[n]);
        }
    } else {
        let all = rekeyed_members(members, members.len() as int, mode);
        assert forall|q: int| 0 <= q < all.len() implies held[q].0 == (#[trigger] all[q]).0
            && represents(out, held[q].1, all[q].1) by {
            assert(held[q].0 == done[q].0);
        }
    }
}

} // verus!
