//! What the output of an encoding holds of the graph: for every container
//! that was visited, one proxy whose children stand for the container's
//! children, one for one.

use vstd::prelude::*;
use crate::deflate::{
    blank, encode_run, encode_step, encoding_start, lemma_step_measure, lemma_step_steady, marked,
    marker_number, steady, unseen, with_placeholder, work_of, Encoding, Seen,
};
use crate::graph::{arena_wf, attach, child, child_count, Graph, Node, Slot};
use crate::keys::{escaped, lemma_escape_inverse, lemma_put_sorted, marker_key, put, sorted};
use crate::members::{holds, lemma_put_holds, lemma_sorted_distinct};
use crate::numbering::is_container;

verus! {

/// The account of an encoding under way.
pub struct Book {
    /// For each container that was visited, the handles in the output of
    /// the children that were visited from it, in the order of the children.
    pub handles: Map<usize, Seq<usize>>,
    /// For each container with an id, the handle of the marker in its proxy.
    pub marks: Map<usize, usize>,
    /// The nodes of the output that are no proxies: copies of leaves,
    /// reference placeholders and the numbers in them.
    pub inert: Set<int>,
}

/// The part of an encoding's state that the account speaks of.
pub struct Stage {
    pub out: Seq<Node>,
    pub seen: Seq<Option<Seen>>,
}

/// The output and the identity table of a state.
pub open spec fn stage(st: Encoding) -> Stage {
    Stage { out: st.out, seen: st.seen }
}

/// The container has been visited.
pub open spec fn seen_at(s: Stage, c: usize) -> bool {
    c < s.seen.len() && s.seen[c as int] is Some
}

/// The proxy of a container that has been visited.
pub open spec fn proxy_at(s: Stage, c: usize) -> usize {
    s.seen[c as int]->Some_0.proxy
}

/// The id of a container that has been visited, if it has one.
pub open spec fn id_at(s: Stage, c: usize) -> Option<i32> {
    s.seen[c as int]->Some_0.id
}

/// The node `e` of the output is the reference placeholder of the id `k`.
pub open spec fn placeholder_at(out: Seq<Node>, e: usize, k: i32) -> bool {
    e + 1 < out.len() && out[e as int] == Node::Object(seq![(marker_key(), (e + 1) as usize)])
        && out[e + 1] == marker_number(k)
}

/// The handle `e` stands for the node `x` of the graph: it is the copy of
/// the leaf, the proxy of the container, or the reference placeholder of
/// the container's id.
pub open spec fn enc(g: Seq<Node>, s: Stage, book: Book, e: usize, x: usize) -> bool {
    &&& x < g.len()
    &&& e < s.out.len()
    &&& if is_container(g, x) {
        seen_at(s, x) && (e == proxy_at(s, x) || (book.inert.contains(e as int)
            && book.inert.contains(e + 1) && id_at(s, x) is Some && placeholder_at(
            s.out,
            e,
            id_at(s, x)->0,
        )))
    } else {
        book.inert.contains(e as int) && s.out[e as int] == g[x as int]
    }
}

/// The slot in the proxy `q` for the `i`-th child of a container.
pub open spec fn slot_for(node: Node, q: usize, i: int) -> Slot {
    match node {
        Node::Object(members) => Slot::Member(q, escaped(members[i].0)),
        _ => Slot::Elem(q),
    }
}

/// The member is that of one of the children visited so far: its key is
/// the child's key escaped, its handle the child's handle.
pub open spec fn member_of(
    members: Seq<(Seq<char>, usize)>,
    hs: Seq<usize>,
    key: Seq<char>,
    e: usize,
) -> bool {
    exists|i: int| 0 <= i < hs.len() && key == escaped(members[i].0) && e == #[trigger] hs[i]
}

/// The marker that a proxy carries once its container has an id.
pub open spec fn marker_part(s: Stage, book: Book, c: usize) -> Seq<usize> {
    if id_at(s, c) is Some {
        seq![book.marks[c]]
    } else {
        Seq::empty()
    }
}

/// What the proxy of a visited container holds: a handle for each child
/// visited so far, in the order of the children for an array and under the
/// escaped keys for an object, and the marker once the container has an id.
pub open spec fn proxied(g: Seq<Node>, s: Stage, book: Book, c: usize) -> bool {
    let q = proxy_at(s, c);
    let hs = book.handles[c];
    let id = id_at(s, c);
    &&& is_container(g, c)
    &&& book.handles.contains_key(c)
    &&& q < s.out.len()
    &&& hs.len() <= child_count(g[c as int])
    &&& forall|i: int| 0 <= i < hs.len() ==> enc(g, s, book, #[trigger] hs[i], child(g[c as int], i))
    &&& id is Some ==> book.marks.contains_key(c) && book.inert.contains(book.marks[c] as int)
    &&& match g[c as int] {
        Node::Array(_) => {
            &&& s.out[q as int] == Node::Array(marker_part(s, book, c) + hs)
            &&& id is Some ==> book.inert.contains(book.marks[c] + 1) && placeholder_at(
                s.out,
                book.marks[c],
                id->0,
            )
        },
        Node::Object(members) => {
            &&& s.out[q as int] is Object
            &&& sorted(s.out[q as int]->Object_0)
            &&& forall|key: Seq<char>, e: usize| #[trigger]
                holds(s.out[q as int]->Object_0, key, e) <==> (member_of(members, hs, key, e) || (
                id is Some && key == marker_key() && e == book.marks[c]))
            &&& id is Some ==> book.marks[c] < s.out.len() && s.out[book.marks[c] as int]
                == marker_number(id->0)
        },
        _ => false,
    }
}

/// The account is true of the output and the identity table.
pub open spec fn kept(g: Seq<Node>, s: Stage, book: Book) -> bool {
    &&& arena_wf(g)
    &&& s.seen.len() == g.len()
    &&& forall|c: usize| seen_at(s, c) ==> #[trigger] proxied(g, s, book, c)
    &&& forall|c: usize, d: usize|
        seen_at(s, c) && seen_at(s, d) && #[trigger] proxy_at(s, c) == #[trigger] proxy_at(s, d)
            ==> c == d
    &&& forall|e: int| #[trigger] book.inert.contains(e) ==> 0 <= e < s.out.len()
    &&& forall|c: usize| seen_at(s, c) ==> !book.inert.contains(#[trigger] proxy_at(s, c) as int)
}

/// The account is true of the state.
pub open spec fn booked(g: Seq<Node>, st: Encoding, book: Book) -> bool {
    steady(g, st) && kept(g, stage(st), book)
}

/// How a later stage and its account go on from an earlier one: what was
/// visited stays visited with its proxy, an id once given stays, and the
/// nodes that are no proxies stay as they are.
pub open spec fn grown(s: Stage, book: Book, s1: Stage, book1: Book) -> bool {
    &&& s.out.len() <= s1.out.len()
    &&& s1.seen.len() == s.seen.len()
    &&& forall|c: usize| #[trigger]
        seen_at(s, c) ==> seen_at(s1, c) && proxy_at(s1, c) == proxy_at(s, c) && (id_at(s, c)
            is Some ==> id_at(s1, c) == id_at(s, c) && book1.marks.contains_key(c)
            == book.marks.contains_key(c) && book1.marks[c] == book.marks[c])
    &&& forall|e: int| #[trigger]
        book.inert.contains(e) ==> book1.inert.contains(e) && s1.out[e] == s.out[e]
}

/// Going on from a stage that went on from another is going on from that one.
pub proof fn lemma_grown_trans(s: Stage, book: Book, s1: Stage, book1: Book, s2: Stage, book2: Book)
    requires
        grown(s, book, s1, book1),
        grown(s1, book1, s2, book2),
    ensures
        grown(s, book, s2, book2),
{
    assert forall|c: usize| #[trigger] seen_at(s, c) implies seen_at(s2, c) && proxy_at(s2, c)
        == proxy_at(s, c) && (id_at(s, c) is Some ==> id_at(s2, c) == id_at(s, c)
        && book2.marks.contains_key(c) == book.marks.contains_key(c) && book2.marks[c]
        == book.marks[c]) by {
        assert(seen_at(s1, c));
    }
    assert forall|e: int| #[trigger] book.inert.contains(e) implies book2.inert.contains(e)
        && s2.out[e] == s.out[e] by {
        assert(book1.inert.contains(e));
    }
}

/// A handle that stands for a node goes on standing for it.
pub proof fn lemma_enc_grown(
    g: Seq<Node>,
    s: Stage,
    book: Book,
    s1: Stage,
    book1: Book,
    e: usize,
    x: usize,
)
    requires
        grown(s, book, s1, book1),
        enc(g, s, book, e, x),
    ensures
        enc(g, s1, book1, e, x),
{
    if is_container(g, x) {
        assert(seen_at(s, x));
        if e != proxy_at(s, x) {
            assert(book.inert.contains(e as int));
            assert(book.inert.contains(e + 1));
        }
    } else {
        assert(book.inert.contains(e as int));
    }
}

/// The keys of the children of an object of the graph, escaped, are all
/// different, and none is the marker key.
pub proof fn lemma_escaped_keys(members: Seq<(Seq<char>, usize)>, i: int, j: int)
    requires
        sorted(members),
        0 <= i < members.len(),
        0 <= j < members.len(),
    ensures
        escaped(members[i].0) != marker_key(),
        escaped(members[i].0) == escaped(members[j].0) ==> i == j,
{
    lemma_escape_inverse(members[i].0);
    lemma_escape_inverse(members[j].0);
    lemma_sorted_distinct(members);
    if i < j {
        assert(members[i].0 != members[j].0);
    } else if j < i {
        assert(members[j].0 != members[i].0);
    }
}

/// A proxy that a step leaves alone holds what it held.
proof fn lemma_proxied_kept(g: Seq<Node>, s: Stage, book: Book, s1: Stage, book1: Book, c: usize)
    requires
        seen_at(s, c),
        proxied(g, s, book, c),
        grown(s, book, s1, book1),
        s1.out[proxy_at(s, c) as int] == s.out[proxy_at(s, c) as int],
        id_at(s1, c) == id_at(s, c),
        book1.handles.contains_key(c),
        book1.handles[c] == book.handles[c],
    ensures
        proxied(g, s1, book1, c),
{
    let hs = book.handles[c];
    assert forall|i: int| 0 <= i < hs.len() implies enc(
        g,
        s1,
        book1,
        #[trigger] hs[i],
        child(g[c as int], i),
    ) by {
        lemma_enc_grown(g, s, book, s1, book1, hs[i], child(g[c as int], i));
    }
    if id_at(s, c) is Some {
        let m = book.marks[c];
        assert(book.inert.contains(m as int));
        if g[c as int] is Array {
            assert(book.inert.contains(m + 1));
        }
    }
}

/// The account stays true when nodes that are no proxies are added.
proof fn lemma_kept_appended(g: Seq<Node>, s: Stage, book: Book, s1: Stage, book1: Book)
    requires
        kept(g, s, book),
        s1.seen == s.seen,
        s.out.len() <= s1.out.len(),
        forall|i: int| 0 <= i < s.out.len() ==> s1.out[i] == s.out[i],
        book1.handles == book.handles,
        book1.marks == book.marks,
        forall|e: int| book.inert.contains(e) ==> book1.inert.contains(e),
        forall|e: int|
            book1.inert.contains(e) && !book.inert.contains(e) ==> s.out.len() <= e < s1.out.len(),
    ensures
        kept(g, s1, book1),
        grown(s, book, s1, book1),
{
    assert forall|c: usize| seen_at(s1, c) implies #[trigger] proxied(g, s1, book1, c) by {
        assert(proxied(g, s, book, c));
        lemma_proxied_kept(g, s, book, s1, book1, c);
    }
    assert forall|c: usize| seen_at(s1, c) implies !book1.inert.contains(
        #[trigger] proxy_at(s1, c) as int,
    ) by {
        assert(proxied(g, s, book, c));
        assert(proxy_at(s, c) == proxy_at(s1, c));
    }
    assert forall|c: usize, d: usize|
        seen_at(s1, c) && seen_at(s1, d) && #[trigger] proxy_at(s1, c) == #[trigger] proxy_at(
            s1,
            d,
        ) implies c == d by {
        assert(proxy_at(s, c) == proxy_at(s1, c));
        assert(proxy_at(s, d) == proxy_at(s1, d));
    }
    assert forall|e: int| #[trigger] book1.inert.contains(e) implies 0 <= e < s1.out.len() by {
        if book.inert.contains(e) {
        }
    }
}

/// The stage and the account after the first visit of a container.
proof fn lemma_first(g: Seq<Node>, s: Stage, book: Book, n: usize) -> (r: (Stage, Book))
    requires
        kept(g, s, book),
        is_container(g, n),
        !seen_at(s, n),
        s.out.len() < usize::MAX,
    ensures
        r.0 == (Stage {
            out: s.out.push(blank(g[n as int])),
            seen: s.seen.update(n as int, Some(Seen { proxy: s.out.len() as usize, id: None })),
        }),
        r.1.handles == book.handles.insert(n, Seq::empty()),
        kept(g, r.0, r.1),
        grown(s, book, r.0, r.1),
        enc(g, r.0, r.1, s.out.len() as usize, n),
{
    let fresh = s.out.len() as usize;
    let s1 = Stage {
        out: s.out.push(blank(g[n as int])),
        seen: s.seen.update(n as int, Some(Seen { proxy: fresh, id: None })),
    };
    let book1 = Book {
        handles: book.handles.insert(n, Seq::empty()),
        marks: book.marks,
        inert: book.inert,
    };
    assert forall|c: usize| seen_at(s1, c) implies #[trigger] proxied(g, s1, book1, c) by {
        if c == n {
            let hs = book1.handles[c];
            assert(marker_part(s1, book1, c) + hs =~= Seq::<usize>::empty());
            if g[c as int] is Object {
                let ms = s1.out[fresh as int]->Object_0;
                assert forall|key: Seq<char>, e: usize| #[trigger]
                    holds(ms, key, e) <==> (member_of(g[c as int]->Object_0, hs, key, e) || (id_at(
                        s1,
                        c,
                    ) is Some && key == marker_key() && e == book1.marks[c])) by {}
            }
        } else {
            assert(seen_at(s, c));
            assert(proxied(g, s, book, c));
            lemma_proxied_kept(g, s, book, s1, book1, c);
        }
    }
    assert forall|c: usize, d: usize|
        seen_at(s1, c) && seen_at(s1, d) && #[trigger] proxy_at(s1, c) == #[trigger] proxy_at(
            s1,
            d,
        ) implies c == d by {
        if c != n {
            assert(proxied(g, s, book, c));
        }
        if d != n {
            assert(proxied(g, s, book, d));
        }
    }
    assert forall|c: usize| seen_at(s1, c) implies !book1.inert.contains(
        #[trigger] proxy_at(s1, c) as int,
    ) by {
        if c != n {
            assert(seen_at(s, c));
            assert(proxy_at(s, c) == proxy_at(s1, c));
        } else {
            if book.inert.contains(fresh as int) {
            }
        }
    }
    assert forall|e: int| #[trigger] book1.inert.contains(e) implies 0 <= e < s1.out.len() by {
        if book.inert.contains(e) {
        }
    }
    (s1, book1)
}

/// The stage and the account after a container without id gets the id `k`
/// and its proxy the marker.
proof fn lemma_mark(g: Seq<Node>, s: Stage, book: Book, n: usize, k: i32) -> (r: (Stage, Book))
    requires
        kept(g, s, book),
        seen_at(s, n),
        id_at(s, n) is None,
        s.out.len() + 2 <= usize::MAX,
    ensures
        r.0 == (Stage {
            out: marked(s.out, proxy_at(s, n), k),
            seen: s.seen.update(n as int, Some(Seen { proxy: proxy_at(s, n), id: Some(k) })),
        }),
        r.1.handles == book.handles,
        kept(g, r.0, r.1),
        grown(s, book, r.0, r.1),
        s.out.len() < r.0.out.len() <= s.out.len() + 2,
{
    let fresh = s.out.len() as usize;
    let q = proxy_at(s, n);
    assert(proxied(g, s, book, n));
    let hs = book.handles[n];
    let s1 = Stage {
        out: marked(s.out, q, k),
        seen: s.seen.update(n as int, Some(Seen { proxy: q, id: Some(k) })),
    };
    let book1 = Book {
        handles: book.handles,
        marks: book.marks.insert(n, fresh),
        inert: if g[n as int] is Array {
            book.inert.insert(fresh as int).insert(fresh + 1)
        } else {
            book.inert.insert(fresh as int)
        },
    };
    assert(grown(s, book, s1, book1)) by {
        assert forall|e: int| #[trigger] book.inert.contains(e) implies book1.inert.contains(e)
            && s1.out[e] == s.out[e] by {
            assert(e != q);
        }
    }
    assert forall|c: usize| seen_at(s1, c) implies #[trigger] proxied(g, s1, book1, c) by {
        assert(seen_at(s, c));
        assert(proxied(g, s, book, c));
        if c == n {
            assert forall|i: int| 0 <= i < hs.len() implies enc(
                g,
                s1,
                book1,
                #[trigger] hs[i],
                child(g[c as int], i),
            ) by {
                lemma_enc_grown(g, s, book, s1, book1, hs[i], child(g[c as int], i));
            }
            match g[c as int] {
                Node::Array(_) => {
                    let kids = s.out[q as int]->Array_0;
                    assert(kids =~= hs);
                    assert(kids.insert(0, fresh) =~= marker_part(s1, book1, c) + hs);
                },
                Node::Object(members) => {
                    let ms = s.out[q as int]->Object_0;
                    let ms1 = s1.out[q as int]->Object_0;
                    assert(ms1 == put(ms, marker_key(), fresh));
                    lemma_put_sorted(ms, marker_key(), fresh);
                    assert forall|key: Seq<char>, e: usize| #[trigger]
                        holds(ms1, key, e) <==> (member_of(members, hs, key, e) || (id_at(s1, c)
                            is Some && key == marker_key() && e == book1.marks[c])) by {
                        lemma_put_holds(ms, marker_key(), fresh, key, e);
                        if member_of(members, hs, key, e) {
                            let i = choose|i: int|
                                0 <= i < hs.len() && key == escaped(members[i].0) && e
                                    == #[trigger] hs[i];
                            lemma_escaped_keys(members, i, i);
                        }
                    }
                },
                _ => {},
            }
        } else {
            assert(proxy_at(s, c) != q);
            lemma_proxied_kept(g, s, book, s1, book1, c);
        }
    }
    assert forall|c: usize, d: usize|
        seen_at(s1, c) && seen_at(s1, d) && #[trigger] proxy_at(s1, c) == #[trigger] proxy_at(
            s1,
            d,
        ) implies c == d by {
        assert(seen_at(s, c) && seen_at(s, d));
        assert(proxy_at(s, c) == proxy_at(s1, c));
        assert(proxy_at(s, d) == proxy_at(s1, d));
    }
    assert forall|c: usize| seen_at(s1, c) implies !book1.inert.contains(
        #[trigger] proxy_at(s1, c) as int,
    ) by {
        assert(seen_at(s, c));
        assert(proxied(g, s, book, c));
        assert(proxy_at(s, c) == proxy_at(s1, c));
    }
    assert forall|e: int| #[trigger] book1.inert.contains(e) implies 0 <= e < s1.out.len() by {
        if book.inert.contains(e) {
        }
    }
    (s1, book1)
}

/// The stage and the account after a handle that stands for the next
/// child of a container is linked into the container's proxy.
proof fn lemma_link(g: Seq<Node>, s: Stage, book: Book, c: usize, h: usize, x: usize) -> (r: (
    Stage,
    Book,
))
    requires
        kept(g, s, book),
        seen_at(s, c),
        book.handles.contains_key(c),
        book.handles[c].len() < child_count(g[c as int]),
        x == child(g[c as int], book.handles[c].len() as int),
        enc(g, s, book, h, x),
        h != proxy_at(s, c),
    ensures
        r.0 == (Stage {
            out: attach(
                s.out,
                slot_for(g[c as int], proxy_at(s, c), book.handles[c].len() as int),
                h,
            ),
            seen: s.seen,
        }),
        r.1 == (Book {
            handles: book.handles.insert(c, book.handles[c].push(h)),
            marks: book.marks,
            inert: book.inert,
        }),
        kept(g, r.0, r.1),
        grown(s, book, r.0, r.1),
{
    let q = proxy_at(s, c);
    assert(proxied(g, s, book, c));
    let hs = book.handles[c];
    let i = hs.len() as int;
    let slot = slot_for(g[c as int], q, i);
    let s1 = Stage { out: attach(s.out, slot, h), seen: s.seen };
    let book1 = Book {
        handles: book.handles.insert(c, hs.push(h)),
        marks: book.marks,
        inert: book.inert,
    };
    assert(grown(s, book, s1, book1)) by {
        assert forall|e: int| #[trigger] book.inert.contains(e) implies book1.inert.contains(e)
            && s1.out[e] == s.out[e] by {
            assert(e != q);
        }
    }
    assert forall|d: usize| seen_at(s1, d) implies #[trigger] proxied(g, s1, book1, d) by {
        assert(proxied(g, s, book, d));
        if d == c {
            let hs1 = book1.handles[c];
            assert forall|j: int| 0 <= j < hs1.len() implies enc(
                g,
                s1,
                book1,
                #[trigger] hs1[j],
                child(g[c as int], j),
            ) by {
                if j < i {
                    assert(hs1[j] == hs[j]);
                    lemma_enc_grown(g, s, book, s1, book1, hs[j], child(g[c as int], j));
                } else {
                    lemma_enc_grown(g, s, book, s1, book1, h, x);
                }
            }
            if id_at(s, c) is Some {
                assert(book.inert.contains(book.marks[c] as int));
            }
            match g[c as int] {
                Node::Array(_) => {
                    assert((marker_part(s, book, c) + hs).push(h) =~= marker_part(s1, book1, c)
                        + hs1);
                    if id_at(s, c) is Some {
                        assert(book.inert.contains(book.marks[c] + 1));
                    }
                },
                Node::Object(members) => {
                    let ms = s.out[q as int]->Object_0;
                    let ms1 = s1.out[q as int]->Object_0;
                    let key_i = escaped(members[i].0);
                    assert(ms1 == put(ms, key_i, h));
                    lemma_put_sorted(ms, key_i, h);
                    assert(sorted(members));
                    assert forall|key: Seq<char>, e: usize| #[trigger]
                        holds(ms1, key, e) <==> (member_of(members, hs1, key, e) || (id_at(s1, c)
                            is Some && key == marker_key() && e == book1.marks[c])) by {
                        lemma_put_holds(ms, key_i, h, key, e);
                        lemma_escaped_keys(members, i, i);
                        if key == key_i && e == h {
                            assert(hs1[i] == h);
                        }
                        if member_of(members, hs, key, e) {
                            let j = choose|j: int|
                                0 <= j < hs.len() && key == escaped(members[j].0) && e
                                    == #[trigger] hs[j];
                            lemma_escaped_keys(members, i, j);
                            assert(hs1[j] == e);
                        }
                        if member_of(members, hs1, key, e) {
                            let j = choose|j: int|
                                0 <= j < hs1.len() && key == escaped(members[j].0) && e
                                    == #[trigger] hs1[j];
                            lemma_escaped_keys(members, i, j);
                            if j < i {
                                assert(hs[j] == e);
                            }
                        }
                    }
                },
                _ => {},
            }
        } else {
            assert(proxy_at(s, d) != q);
            lemma_proxied_kept(g, s, book, s1, book1, d);
        }
    }
    assert forall|a: usize, d: usize|
        seen_at(s1, a) && seen_at(s1, d) && #[trigger] proxy_at(s1, a) == #[trigger] proxy_at(
            s1,
            d,
        ) implies a == d by {
        assert(proxy_at(s, a) == proxy_at(s1, a));
        assert(proxy_at(s, d) == proxy_at(s1, d));
    }
    assert forall|d: usize| seen_at(s1, d) implies !book1.inert.contains(
        #[trigger] proxy_at(s1, d) as int,
    ) by {
        assert(proxy_at(s, d) == proxy_at(s1, d));
    }
    assert forall|e: int| #[trigger] book1.inert.contains(e) implies 0 <= e < s1.out.len() by {
        if book.inert.contains(e) {
        }
    }
    (s1, book1)
}

/// The visit on top of the work list is the first visit of all, or that of
/// the next child of `owner`.
pub open spec fn fits(g: Seq<Node>, st: Encoding, book: Book, owner: Option<usize>) -> bool {
    let n = st.stack.last().0;
    let slot = st.stack.last().1;
    match owner {
        None => slot == Slot::Root,
        Some(c) => seen_at(stage(st), c) && book.handles.contains_key(c) && ({
            let i = book.handles[c].len() as int;
            i < child_count(g[c as int]) && n == child(g[c as int], i) && slot == slot_for(
                g[c as int],
                proxy_at(stage(st), c),
                i,
            )
        }),
    }
}

/// What a finished visit has added: the owner has one more handle, the
/// other containers visited before have the handles they had, and every
/// container visited since has a handle for each child.
pub open spec fn advanced(
    g: Seq<Node>,
    s: Stage,
    book: Book,
    s1: Stage,
    book1: Book,
    owner: Option<usize>,
) -> bool {
    &&& grown(s, book, s1, book1)
    &&& forall|c: usize| #[trigger]
        seen_at(s, c) && owner != Some(c) ==> book1.handles[c] == book.handles[c]
    &&& owner matches Some(c) ==> book1.handles[c].len() == book.handles[c].len() + 1
    &&& forall|c: usize| #[trigger]
        seen_at(s1, c) && !seen_at(s, c) ==> book1.handles[c].len() == child_count(g[c as int])
}

/// What the visits of the remaining children of `c` have added: `c` has a
/// handle for each child, and so has every container visited since.
pub open spec fn filled(g: Seq<Node>, s: Stage, book: Book, s1: Stage, book1: Book, c: usize) -> bool {
    &&& grown(s, book, s1, book1)
    &&& forall|d: usize| #[trigger] seen_at(s, d) && d != c ==> book1.handles[d] == book.handles[d]
    &&& book1.handles[c].len() == child_count(g[c as int])
    &&& forall|d: usize| #[trigger]
        seen_at(s1, d) && !seen_at(s, d) ==> book1.handles[d].len() == child_count(g[d as int])
}

/// A visit adds to the output and takes nothing from it.
pub proof fn lemma_step_out_len(g: Seq<Node>, limit: i32, st: Encoding)
    requires
        st.stack.len() > 0,
        encode_step(g, limit, st) is Ok,
    ensures
        st.out.len() <= encode_step(g, limit, st)->Ok_0.out.len(),
{
}

/// An encoding ends with no less output than it has on the way.
pub proof fn lemma_run_out_len(g: Seq<Node>, limit: i32, st: Encoding)
    requires
        encode_run(g, limit, st) is Ok,
    ensures
        st.out.len() <= encode_run(g, limit, st)->Ok_0.out.len(),
    decreases unseen(st.seen), st.stack.len(),
{
    if st.stack.len() > 0 {
        lemma_step_measure(g, limit, st);
        lemma_step_out_len(g, limit, st);
        lemma_run_out_len(g, limit, encode_step(g, limit, st)->Ok_0);
    }
}

/// One visit keeps the account true: it returns the account after the
/// visit and the handle that the visit linked in.
proof fn lemma_step_booked(g: Seq<Node>, limit: i32, st: Encoding, book: Book, owner: Option<usize>) -> (r:
    (Book, usize))
    requires
        booked(g, st, book),
        st.stack.len() > 0,
        fits(g, st, book, owner),
        encode_step(g, limit, st) is Ok,
        encode_step(g, limit, st)->Ok_0.out.len() <= usize::MAX,
    ensures
        booked(g, encode_step(g, limit, st)->Ok_0, r.0),
        grown(stage(st), book, stage(encode_step(g, limit, st)->Ok_0), r.0),
        enc(g, stage(encode_step(g, limit, st)->Ok_0), r.0, r.1, st.stack.last().0),
        r.1 == st.out.len() || seen_at(stage(st), st.stack.last().0),
        forall|c: usize| #[trigger]
            seen_at(stage(st), c) && owner != Some(c) ==> r.0.handles[c] == book.handles[c],
        owner matches Some(c) ==> r.0.handles[c] == book.handles[c].push(r.1),
        forall|c: usize| #[trigger]
            seen_at(stage(encode_step(g, limit, st)->Ok_0), c) && !seen_at(stage(st), c) ==> c
                == st.stack.last().0 && r.0.handles[c].len() == 0 && encode_step(
                g,
                limit,
                st,
            )->Ok_0.stack == st.stack.drop_last() + work_of(g[c as int], st.out.len() as usize)
                && proxy_at(stage(encode_step(g, limit, st)->Ok_0), c) == st.out.len(),
        (forall|c: usize| #[trigger]
            seen_at(stage(encode_step(g, limit, st)->Ok_0), c) ==> seen_at(stage(st), c))
            ==> encode_step(g, limit, st)->Ok_0.stack == st.stack.drop_last(),
{
    let st1 = encode_step(g, limit, st)->Ok_0;
    let s = stage(st);
    let n = st.stack.last().0;
    let slot = st.stack.last().1;
    let fresh = st.out.len() as usize;
    lemma_step_steady(g, limit, st);
    lemma_step_out_len(g, limit, st);
    assert(st.stack[st.stack.len() - 1] == st.stack.last());
    assert(n < g.len());
    // what the visit emits, before it is linked in
    let (se, booke, h): (Stage, Book, usize) = if !is_container(g, n) {
        let se = Stage { out: s.out.push(g[n as int]), seen: s.seen };
        let booke = Book {
            handles: book.handles,
            marks: book.marks,
            inert: book.inert.insert(fresh as int),
        };
        lemma_kept_appended(g, s, book, se, booke);
        (se, booke, fresh)
    } else {
        match st.seen[n as int] {
            None => {
                let r = lemma_first(g, s, book, n);
                (r.0, r.1, fresh)
            },
            Some(e) => match e.id {
                Some(id) => {
                    let se = Stage { out: with_placeholder(s.out, id), seen: s.seen };
                    let booke = Book {
                        handles: book.handles,
                        marks: book.marks,
                        inert: book.inert.insert(fresh as int).insert(fresh + 1),
                    };
                    lemma_kept_appended(g, s, book, se, booke);
                    assert(proxied(g, s, book, n));
                    (se, booke, fresh)
                },
                None => {
                    let id = (st.order.len() + 1) as i32;
                    assert(seen_at(s, n));
                    assert(proxied(g, s, book, n));
                    assert(marked(s.out, e.proxy, id).len() >= s.out.len() + 1);
                    let m = lemma_mark(g, s, book, n, id);
                    let h = m.0.out.len() as usize;
                    let se = Stage { out: with_placeholder(m.0.out, id), seen: m.0.seen };
                    let booke = Book {
                        handles: m.1.handles,
                        marks: m.1.marks,
                        inert: m.1.inert.insert(h as int).insert(h + 1),
                    };
                    lemma_kept_appended(g, m.0, m.1, se, booke);
                    lemma_grown_trans(s, book, m.0, m.1, se, booke);
                    (se, booke, h)
                },
            },
        }
    };
    assert(enc(g, se, booke, h, n));
    assert(kept(g, se, booke));
    assert(grown(s, book, se, booke));
    assert(st1.out == attach(se.out, slot, h));
    assert(st1.seen == se.seen);
    match owner {
        None => {
            assert(stage(st1) == se);
            (booke, h)
        },
        Some(c) => {
            assert(seen_at(s, c));
            assert(proxied(g, s, book, c));
            assert(booke.handles[c] == book.handles[c]);
            let k = lemma_link(g, se, booke, c, h, n);
            lemma_grown_trans(s, book, se, booke, k.0, k.1);
            assert(stage(st1) == k.0);
            (k.1, h)
        },
    }
}

/// The visit on top of the work list, with all the visits that follow from
/// it, keeps the account true. Returns the state when the work list is
/// shorter than it was, its account, and the handle that was linked in.
proof fn lemma_finish_top(
    g: Seq<Node>,
    limit: i32,
    st: Encoding,
    book: Book,
    owner: Option<usize>,
) -> (r: (Encoding, Book, usize))
    requires
        booked(g, st, book),
        st.stack.len() > 0,
        fits(g, st, book, owner),
        encode_run(g, limit, st) is Ok,
        encode_run(g, limit, st)->Ok_0.out.len() <= usize::MAX,
    ensures
        encode_run(g, limit, st) == encode_run(g, limit, r.0),
        r.0.stack == st.stack.drop_last(),
        booked(g, r.0, r.1),
        advanced(g, stage(st), book, stage(r.0), r.1, owner),
        enc(g, stage(r.0), r.1, r.2, st.stack.last().0),
        r.2 == st.out.len() || seen_at(stage(st), st.stack.last().0),
        unseen(r.0.seen) <= unseen(st.seen),
    decreases unseen(st.seen), st.stack.len(), 0nat,
{
    let st1 = encode_step(g, limit, st)->Ok_0;
    let n = st.stack.last().0;
    lemma_step_measure(g, limit, st);
    lemma_run_out_len(g, limit, st1);
    let (book1, h) = lemma_step_booked(g, limit, st, book, owner);
    if seen_at(stage(st1), n) && !seen_at(stage(st), n) {
        let rest = st.stack.drop_last();
        let work = work_of(g[n as int], st.out.len() as usize);
        assert(proxied(g, stage(st1), book1, n));
        assert(work.take(child_count(g[n as int]) - book1.handles[n].len()) =~= work);
        let k = lemma_finish_kids(g, limit, st1, book1, n, rest);
        lemma_grown_trans(stage(st), book, stage(st1), book1, stage(k.0), k.1);
        lemma_enc_grown(g, stage(st1), book1, stage(k.0), k.1, h, n);
        assert forall|c: usize| #[trigger]
            seen_at(stage(st), c) && owner != Some(c) implies k.1.handles[c]
            == book.handles[c] by {
            assert(seen_at(stage(st1), c));
        }
        if owner is Some {
            let c = owner->Some_0;
            assert(seen_at(stage(st1), c));
            assert(k.1.handles[c] == book1.handles[c]);
        }
        assert forall|c: usize| #[trigger]
            seen_at(stage(k.0), c) && !seen_at(stage(st), c) implies k.1.handles[c].len()
            == child_count(g[c as int]) by {
            if seen_at(stage(st1), c) {
            }
        }
        (k.0, k.1, h)
    } else {
        assert forall|c: usize| #[trigger] seen_at(stage(st1), c) implies seen_at(
            stage(st),
            c,
        ) by {
            if !seen_at(stage(st), c) {
                assert(c == n);
            }
        }
        (st1, book1, h)
    }
}

/// The visits of the children of `c` that remain, with all the visits that
/// follow from them, keep the account true.
proof fn lemma_finish_kids(
    g: Seq<Node>,
    limit: i32,
    st: Encoding,
    book: Book,
    c: usize,
    rest: Seq<(usize, Slot)>,
) -> (r: (Encoding, Book))
    requires
        booked(g, st, book),
        seen_at(stage(st), c),
        st.stack == rest + work_of(g[c as int], proxy_at(stage(st), c)).take(
            child_count(g[c as int]) - book.handles[c].len(),
        ),
        encode_run(g, limit, st) is Ok,
        encode_run(g, limit, st)->Ok_0.out.len() <= usize::MAX,
    ensures
        encode_run(g, limit, st) == encode_run(g, limit, r.0),
        r.0.stack == rest,
        booked(g, r.0, r.1),
        filled(g, stage(st), book, stage(r.0), r.1, c),
        unseen(r.0.seen) <= unseen(st.seen),
    decreases unseen(st.seen), st.stack.len(), 1nat,
{
    assert(proxied(g, stage(st), book, c));
    let node = g[c as int];
    let q = proxy_at(stage(st), c);
    let len = child_count(node);
    let i = book.handles[c].len() as int;
    let work = work_of(node, q);
    if i < len {
        let top = work.take(len - i);
        assert(st.stack.last() == top[len - i - 1]);
        assert(st.stack.last() == (child(node, i), slot_for(node, q, i)));
        assert(st.stack.drop_last() =~= rest + work.take(len - (i + 1)));
        let a = lemma_finish_top(g, limit, st, book, Some(c));
        let b = lemma_finish_kids(g, limit, a.0, a.1, c, rest);
        lemma_grown_trans(stage(st), book, stage(a.0), a.1, stage(b.0), b.1);
        assert forall|d: usize| #[trigger] seen_at(stage(st), d) && d != c implies b.1.handles[d]
            == book.handles[d] by {
            assert(seen_at(stage(a.0), d));
        }
        assert forall|d: usize| #[trigger]
            seen_at(stage(b.0), d) && !seen_at(stage(st), d) implies b.1.handles[d].len()
            == child_count(g[d as int]) by {
            if seen_at(stage(a.0), d) {
                assert(d != c);
            }
        }
        b
    } else {
        assert(st.stack =~= rest);
        (st, book)
    }
}

/// The account of a finished encoding: every container that was visited
/// has a proxy in the output with one handle for each of its children,
/// each standing for the child, and the first node of the output stands
/// for the root.
pub proof fn lemma_deflate_booked(g: Graph, limit: i32) -> (book: Book)
    requires
        g.wf(),
        encode_run(g.nodes, limit, encoding_start(g)) is Ok,
        encode_run(g.nodes, limit, encoding_start(g))->Ok_0.out.len() <= usize::MAX,
    ensures
        booked(g.nodes, encode_run(g.nodes, limit, encoding_start(g))->Ok_0, book),
        enc(
            g.nodes,
            stage(encode_run(g.nodes, limit, encoding_start(g))->Ok_0),
            book,
            0,
            g.root,
        ),
        forall|c: usize| #[trigger]
            seen_at(stage(encode_run(g.nodes, limit, encoding_start(g))->Ok_0), c)
                ==> book.handles[c].len() == child_count(g.nodes[c as int]),
{
    let st = encoding_start(g);
    let book0 = Book { handles: Map::empty(), marks: Map::empty(), inert: Set::empty() };
    assert(st.stack.last() == (g.root, Slot::Root));
    assert(steady(g.nodes, st)) by {
        assert(crate::deflate::tidy(st.out));
    }
    let r = lemma_finish_top(g.nodes, limit, st, book0, None);
    assert(r.0.stack =~= Seq::empty());
    r.1
}


} // verus!
