//! The order in which reference ids are given.

use vstd::prelude::*;
use crate::deflate::{
    encode_run, encode_step, encoding_start, lemma_step_measure, unseen, Encoding, Seen,
};
use crate::graph::{Graph, Node};

verus! {

/// How often `n` occurs among the visits.
pub open spec fn times(visits: Seq<usize>, n: usize) -> nat
    decreases visits.len(),
{
    if visits.len() == 0 {
        0
    } else {
        times(visits.drop_last(), n) + if visits.last() == n {
            1nat
        } else {
            0nat
        }
    }
}

/// Whether the handle is a container of the graph.
pub open spec fn is_container(g: Seq<Node>, n: usize) -> bool {
    n < g.len() && (g[n as int] is Array || g[n as int] is Object)
}

/// The containers in the order in which each was visited for the second time.
pub open spec fn second_visits(g: Seq<Node>, visits: Seq<usize>) -> Seq<usize>
    decreases visits.len(),
{
    if visits.len() == 0 {
        Seq::empty()
    } else {
        let before = visits.drop_last();
        let n = visits.last();
        if is_container(g, n) && times(before, n) == 1 {
            second_visits(g, before).push(n)
        } else {
            second_visits(g, before)
        }
    }
}

/// The id that the identity table holds for a node, if any.
pub open spec fn id_of(seen: Seq<Option<Seen>>, n: int) -> Option<i32> {
    if 0 <= n < seen.len() {
        match seen[n] {
            Some(e) => e.id,
            None => None,
        }
    } else {
        None
    }
}

/// The ids are the places in the order of second visits, counted from one:
/// the containers that have an id are those visited more than once, and the
/// `k`-th of them to be visited again has the id `k`.
pub open spec fn numbered(g: Seq<Node>, st: Encoding) -> bool {
    &&& st.order == second_visits(g, st.visits)
    &&& forall|k: int|
        0 <= k < st.order.len() ==> id_of(st.seen, (#[trigger] st.order[k]) as int) == Some(
            (k + 1) as i32,
        )
    &&& forall|n: int|
        (#[trigger] id_of(st.seen, n)) is Some ==> 1 <= id_of(st.seen, n)->0 <= st.order.len()
            && st.order[id_of(st.seen, n)->0 - 1] == n
}

/// What the identity table says of a container is how often it was visited:
/// no entry before the first visit, an entry without id after it, an entry
/// with an id from the second visit on.
pub open spec fn counted(g: Seq<Node>, st: Encoding) -> bool {
    &&& st.seen.len() == g.len()
    &&& st.order.len() <= i32::MAX
    &&& forall|n: usize|
        is_container(g, n) ==> match #[trigger] st.seen[n as int] {
            None => times(st.visits, n) == 0,
            Some(e) => if e.id is None {
                times(st.visits, n) == 1
            } else {
                times(st.visits, n) >= 2
            },
        }
}

proof fn lemma_times_push(visits: Seq<usize>, n: usize, m: usize)
    ensures
        times(visits.push(n), m) == times(visits, m) + if n == m {
            1nat
        } else {
            0nat
        },
{
    assert(visits.push(n).drop_last() =~= visits);
}

proof fn lemma_second_push(g: Seq<Node>, visits: Seq<usize>, n: usize)
    ensures
        second_visits(g, visits.push(n)) == if is_container(g, n) && times(visits, n) == 1 {
            second_visits(g, visits).push(n)
        } else {
            second_visits(g, visits)
        },
{
    assert(visits.push(n).drop_last() =~= visits);
}

proof fn lemma_step_numbered(g: Seq<Node>, limit: i32, st: Encoding)
    requires
        counted(g, st),
        numbered(g, st),
        st.stack.len() > 0,
        encode_step(g, limit, st) is Ok,
    ensures
        counted(g, encode_step(g, limit, st)->Ok_0),
        numbered(g, encode_step(g, limit, st)->Ok_0),
{
    let st1 = encode_step(g, limit, st)->Ok_0;
    let n = st.stack.last().0;
    lemma_second_push(g, st.visits, n);
    assert forall|m: usize| is_container(g, m) implies match #[trigger] st1.seen[m as int] {
        None => times(st1.visits, m) == 0,
        Some(e) => if e.id is None {
            times(st1.visits, m) == 1
        } else {
            times(st1.visits, m) >= 2
        },
    } by {
        lemma_times_push(st.visits, n, m);
        assert(is_container(g, m));
        let old_entry = st.seen[m as int];
    }
    if is_container(g, n) {
        let old_entry = st.seen[n as int];
        assert(n < st.seen.len());
        match st.seen[n as int] {
            None => {
                assert(st1.order == st.order);
                assert forall|k: int| 0 <= k < st1.order.len() implies id_of(
                    st1.seen,
                    (#[trigger] st1.order[k]) as int,
                ) == Some((k + 1) as i32) by {
                    assert(id_of(st.seen, st.order[k] as int) == Some((k + 1) as i32));
                }
                assert forall|m: int| (#[trigger] id_of(st1.seen, m)) is Some implies 1 <= id_of(
                    st1.seen,
                    m,
                )->0 <= st1.order.len() && st1.order[id_of(st1.seen, m)->0 - 1] == m by {
                    assert(id_of(st.seen, m) == id_of(st1.seen, m));
                }
            },
            Some(e) => match e.id {
                Some(id) => {},
                None => {
                    assert(st1.order == st.order.push(n));
                    assert forall|k: int| 0 <= k < st1.order.len() implies id_of(
                        st1.seen,
                        (#[trigger] st1.order[k]) as int,
                    ) == Some((k + 1) as i32) by {
                        if k < st.order.len() {
                            assert(st1.order[k] == st.order[k]);
                            assert(id_of(st.seen, st.order[k] as int) == Some((k + 1) as i32));
                        }
                    }
                    assert forall|m: int| (#[trigger] id_of(st1.seen, m)) is Some implies 1
                        <= id_of(st1.seen, m)->0 <= st1.order.len() && st1.order[id_of(
                        st1.seen,
                        m,
                    )->0 - 1] == m by {
                        if m != n {
                            assert(id_of(st.seen, m) == id_of(st1.seen, m));
                        }
                    }
                },
            },
        }
    }
}

proof fn lemma_run_numbered(g: Seq<Node>, limit: i32, st: Encoding)
    requires
        counted(g, st),
        numbered(g, st),
    ensures
        encode_run(g, limit, st) matches Ok(end) ==> numbered(g, end) && counted(g, end),
    decreases unseen(st.seen), st.stack.len(),
{
    if st.stack.len() > 0 {
        match encode_step(g, limit, st) {
            Ok(st1) => {
                lemma_step_measure(g, limit, st);
                lemma_step_numbered(g, limit, st);
                lemma_run_numbered(g, limit, st1);
            },
            Err(_) => {},
        }
    }
}

/// Reference ids are given in the order in which containers are visited for
/// the second time, not in the order in which they are first met: when an
/// encoding ends, the container that was the `k`-th to be visited again
/// carries the id `k`, and no container carries another id.
pub proof fn lemma_ids_follow_second_visits(g: Graph, limit: i32)
    ensures
        encode_run(g.nodes, limit, encoding_start(g)) matches Ok(end) ==> numbered(g.nodes, end)
            && counted(g.nodes, end),
{
    let st = encoding_start(g);
    assert forall|n: usize| is_container(g.nodes, n) implies match #[trigger] st.seen[n as int] {
        None => times(st.visits, n) == 0,
        Some(e) => if e.id is None {
            times(st.visits, n) == 1
        } else {
            times(st.visits, n) >= 2
        },
    } by {}
    lemma_run_numbered(g.nodes, limit, st);
}

} // verus!

