//! Epsilon-closure engine.
//!
//! `eps_reach` is the specification: a node `b` lies in the closure of `a`
//! when some finite path of epsilon transitions joins them.  The executable
//! engine is a worklist traversal whose visited set is proved to be exactly
//! the reachable set; set-membership bookkeeping makes it terminate on the
//! epsilon cycles the closure operators create.

use vstd::prelude::*;

use crate::model::NodeV;
use crate::nfa::{find_node_index, nodes_v, NFA};
use crate::model::{lemma_node_map_dom, lemma_node_map_index};
use vstd::set_lib::lemma_len_subset;

verus! {

broadcast use {
    vstd::seq::Seq::lemma_push_to_set_commute,
    vstd::seq_lib::lemma_seq_contains_after_push,
    vstd::seq_lib::lemma_seq_contains,
    vstd::seq_lib::seq_to_set_is_finite,
};

/// One epsilon transition leads from `a` to `b`.
pub open spec fn eps_edge(m: Map<u64, NodeV>, a: u64, b: u64) -> bool {
    &&& m.dom().contains(a)
    &&& exists|k: int|
        0 <= k < m[a].transfers.len() && (#[trigger] m[a].transfers[k]).cond is None
            && m[a].transfers[k].to == b
}

/// Consecutive entries of `p` are joined by epsilon transitions.
pub open spec fn is_eps_path(m: Map<u64, NodeV>, p: Seq<u64>) -> bool {
    forall|i: int| #![trigger p[i]] 0 <= i < p.len() - 1 ==> eps_edge(m, p[i], p[i + 1])
}

/// `b` is reachable from `a` by zero or more epsilon transitions.
pub open spec fn eps_reach(m: Map<u64, NodeV>, a: u64, b: u64) -> bool {
    exists|p: Seq<u64>|
        p.len() >= 1 && p.first() == a && p.last() == b && #[trigger] is_eps_path(m, p)
}

/// The epsilon-closure of a set of nodes.
pub open spec fn eclose(m: Map<u64, NodeV>, init: Set<u64>) -> Set<u64> {
    Set::new(|b: u64| exists|a: u64| init.contains(a) && #[trigger] eps_reach(m, a, b))
}

/// `s` is closed under following epsilon transitions.
pub open spec fn eps_closed(m: Map<u64, NodeV>, s: Set<u64>) -> bool {
    forall|x: u64, y: u64| s.contains(x) && #[trigger] eps_edge(m, x, y) ==> s.contains(y)
}

/// The nodes reached from `q` by consuming exactly the symbol `c`.
pub open spec fn sym_targets(m: Map<u64, NodeV>, q: Set<u64>, c: char) -> Set<u64> {
    Set::new(
        |t: u64|
            exists|a: u64, k: int|
                q.contains(a) && m.dom().contains(a) && 0 <= k < m[a].transfers.len()
                    && (#[trigger] m[a].transfers[k]).cond == Some(c) && m[a].transfers[k].to == t,
    )
}

/// The successor state-set of `q` on symbol `c`: consume `c` once, then
/// close under epsilon transitions.
pub open spec fn nfa_delta(m: Map<u64, NodeV>, q: Set<u64>, c: char) -> Set<u64> {
    eclose(m, sym_targets(m, q, c))
}

/// Reachability is reflexive.
pub proof fn lemma_reach_self(m: Map<u64, NodeV>, a: u64)
    ensures
        eps_reach(m, a, a),
{
    let p: Seq<u64> = seq![a];
    assert(p.len() >= 1 && p.first() == a && p.last() == a && is_eps_path(m, p));
}

/// Reachability extends along one more epsilon transition.
pub proof fn lemma_reach_step(m: Map<u64, NodeV>, a: u64, b: u64, c: u64)
    requires
        eps_reach(m, a, b),
        eps_edge(m, b, c),
    ensures
        eps_reach(m, a, c),
{
    let p = choose|p: Seq<u64>|
        p.len() >= 1 && p.first() == a && p.last() == b && #[trigger] is_eps_path(m, p);
    let q = p.push(c);
    assert forall|i: int| #![trigger q[i]] 0 <= i < q.len() - 1 implies eps_edge(m, q[i], q[i + 1]) by {
        if i < p.len() - 1 {
            assert(q[i] == p[i] && q[i + 1] == p[i + 1]);
            assert(eps_edge(m, p[i], p[i + 1]));
        } else {
            assert(q[i] == p.last() && q[i + 1] == c);
        }
    }
    assert(q.len() >= 1 && q.first() == a && q.last() == c && is_eps_path(m, q));
}

/// A set closed under epsilon transitions swallows every epsilon path that
/// starts inside it.
proof fn lemma_closed_path(m: Map<u64, NodeV>, s: Set<u64>, p: Seq<u64>)
    requires
        eps_closed(m, s),
        p.len() >= 1,
        s.contains(p.first()),
        is_eps_path(m, p),
    ensures
        s.contains(p.last()),
    decreases p.len(),
{
    if p.len() > 1 {
        assert(eps_edge(m, p[0], p[1]));
        let q = p.drop_first();
        assert forall|i: int| #![trigger q[i]] 0 <= i < q.len() - 1 implies eps_edge(m, q[i], q[i + 1]) by {
            assert(q[i] == p[i + 1] && q[i + 1] == p[i + 2]);
            assert(eps_edge(m, p[i + 1], p[i + 2]));
        }
        assert(s.contains(q.first()));
        lemma_closed_path(m, s, q);
        assert(q.last() == p.last());
    }
}

/// A set closed under epsilon transitions contains everything reachable
/// from any of its members.
pub proof fn lemma_closed_reach(m: Map<u64, NodeV>, s: Set<u64>, a: u64, b: u64)
    requires
        eps_closed(m, s),
        s.contains(a),
        eps_reach(m, a, b),
    ensures
        s.contains(b),
{
    let p = choose|p: Seq<u64>|
        p.len() >= 1 && p.first() == a && p.last() == b && #[trigger] is_eps_path(m, p);
    lemma_closed_path(m, s, p);
}

/// Whether an id vector holds the given id.
pub(crate) fn contains_u64(v: &Vec<u64>, x: u64) -> (r: bool)
    ensures
        r == v@.contains(x),
{
    let mut i: usize = 0;
    while i < v.len()
        invariant
            i <= v@.len(),
            forall|k: int| 0 <= k < i ==> v@[k] != x,
        decreases v@.len() - i,
    {
        if v[i] == x {
            return true;
        }
        i = i + 1;
    }
    false
}

/// Adds to `q0` every node epsilon-reachable from `now` (including `now`),
/// by a worklist traversal; already-visited nodes are never re-explored, so
/// epsilon cycles cannot make it diverge.  `q0` must already be closed, and
/// stays closed, under epsilon transitions.
fn epsilon_closure_dfs(nfa: &NFA, q0: &mut Vec<u64>, now: u64)
    requires
        nfa.wf(),
        old(q0)@.no_duplicates(),
        forall|i: int| 0 <= i < old(q0)@.len() ==> nfa@.nodes.dom().contains(#[trigger] old(q0)@[i]),
        eps_closed(nfa@.nodes, old(q0)@.to_set()),
        nfa@.nodes.dom().contains(now),
    ensures
        final(q0)@.no_duplicates(),
        forall|i: int|
            0 <= i < final(q0)@.len() ==> nfa@.nodes.dom().contains(#[trigger] final(q0)@[i]),
        final(q0)@.to_set() == old(q0)@.to_set().union(eclose(nfa@.nodes, set![now])),
        eps_closed(nfa@.nodes, final(q0)@.to_set()),
{
    let ghost m = nfa@.nodes;
    let ghost base = old(q0)@.to_set();
    if contains_u64(q0, now) {
        proof {
            lemma_reach_self(m, now);
            assert forall|b: u64| eclose(m, set![now]).contains(b) implies base.contains(b) by {
                let a = choose|a: u64| set![now].contains(a) && #[trigger] eps_reach(m, a, b);
                lemma_closed_reach(m, base, now, b);
            }
            assert(q0@.to_set() =~= base.union(eclose(m, set![now])));
        }
        return ;
    }
    q0.push(now);
    let mut stack: Vec<u64> = Vec::new();
    stack.push(now);
    proof {
        lemma_reach_self(m, now);
        lemma_node_map_dom(nodes_v(nfa.nodes@));
        assert(q0@ == old(q0)@.push(now));
        assert(q0@.to_set() =~= base.insert(now));
        q0@.unique_seq_to_set();
        assert forall|x: u64| q0@.to_set().contains(x) implies m.dom().contains(x) by {
            let i = choose|i: int| 0 <= i < q0@.len() && q0@[i] == x;
        }
        assert(q0@.to_set().subset_of(m.dom()));
        lemma_len_subset(q0@.to_set(), m.dom());
        assert(stack@ =~= seq![now]);
        assert(stack@.to_set() =~= set![now]);
        assert forall|x: u64, y: u64|
            q0@.to_set().contains(x) && !stack@.to_set().contains(x) && #[trigger] eps_edge(
                m,
                x,
                y,
            ) implies q0@.to_set().contains(y) by {
            assert(base.contains(x));
            assert(base.contains(y));
        }
    }
    while stack.len() > 0
        invariant
            nfa.wf(),
            m == nfa@.nodes,
            nfa@.nodes.dom().contains(now),
            q0@.no_duplicates(),
            forall|i: int| 0 <= i < q0@.len() ==> m.dom().contains(#[trigger] q0@[i]),
            q0@.len() <= m.dom().len(),
            m.dom().finite(),
            base.subset_of(q0@.to_set()),
            q0@.to_set().contains(now),
            forall|i: int|
                0 <= i < q0@.len() ==> base.contains(#[trigger] q0@[i]) || eps_reach(
                    m,
                    now,
                    q0@[i],
                ),
            forall|i: int|
                0 <= i < stack@.len() ==> q0@.to_set().contains(#[trigger] stack@[i]) && eps_reach(
                    m,
                    now,
                    stack@[i],
                ),
            forall|x: u64, y: u64|
                q0@.to_set().contains(x) && !stack@.to_set().contains(x) && #[trigger] eps_edge(
                    m,
                    x,
                    y,
                ) ==> q0@.to_set().contains(y),
        decreases m.dom().len() - q0@.len() + stack@.len(),
    {
        let ghost q_at_pop = q0@;
        let ghost stack_before = stack@;
        let v = stack.pop().unwrap();
        proof {
            assert(stack_before[stack_before.len() - 1] == v);
            assert(stack_before =~= stack@.push(v));
            assert(q0@.to_set().contains(v));
            lemma_node_map_dom(nodes_v(nfa.nodes@));
            let j = choose|j: int| 0 <= j < q0@.len() && q0@[j] == v;
            assert(m.dom().contains(v));
            let i = choose|i: int| 0 <= i < nodes_v(nfa.nodes@).len() && nodes_v(nfa.nodes@)[i].id
                == v;
            assert(nfa.nodes@[i].id == v);
        }
        let vi = find_node_index(&nfa.nodes, v);
        proof {
            lemma_node_map_index(nodes_v(nfa.nodes@), vi as int);
            assert(m[v] == nodes_v(nfa.nodes@)[vi as int]);
        }
        let node = &nfa.nodes[vi];
        let ghost stack_after_pop = stack@;
        let mut t: usize = 0;
        while t < node.transfers.len()
            invariant
                nfa.wf(),
                m == nfa@.nodes,
                nfa@.nodes.dom().contains(now),
                vi < nfa.nodes@.len(),
                node@ == m[v],
                node.transfers@.len() == m[v].transfers.len(),
                m.dom().contains(v),
                t <= node.transfers@.len(),
                q0@.no_duplicates(),
                forall|i: int| 0 <= i < q0@.len() ==> m.dom().contains(#[trigger] q0@[i]),
                q0@.len() <= m.dom().len(),
                m.dom().finite(),
                base.subset_of(q0@.to_set()),
                q0@.to_set().contains(now),
                q0@.to_set().contains(v),
                eps_reach(m, now, v),
                q0@.len() - q_at_pop.len() == stack@.len() - stack_after_pop.len(),
                forall|i: int|
                    0 <= i < q0@.len() ==> base.contains(#[trigger] q0@[i]) || eps_reach(
                        m,
                        now,
                        q0@[i],
                    ),
                forall|i: int|
                    0 <= i < stack@.len() ==> q0@.to_set().contains(#[trigger] stack@[i])
                        && eps_reach(m, now, stack@[i]),
                forall|k: int|
                    0 <= k < t ==> ((#[trigger] m[v].transfers[k]).cond is None
                        ==> q0@.to_set().contains(m[v].transfers[k].to)),
                forall|x: u64, y: u64|
                    q0@.to_set().contains(x) && x != v && !stack@.to_set().contains(x)
                        && #[trigger] eps_edge(m, x, y) ==> q0@.to_set().contains(y),
            decreases node.transfers@.len() - t,
        {
            let tr = &node.transfers[t];
            if tr.condition.is_none() {
                let to = tr.to_id;
                proof {
                    assert(m[v].transfers[t as int].cond is None);
                    assert(m[v].transfers[t as int].to == to);
                    assert(eps_edge(m, v, to));
                    assert(crate::nfa::node_ok(m, nfa@.alphabet, v));
                    assert(m.dom().contains(to));
                }
                if !contains_u64(q0, to) {
                    q0.push(to);
                    stack.push(to);
                    proof {
                        lemma_reach_step(m, now, v, to);
                        q0@.unique_seq_to_set();
                        assert(q0@.to_set().subset_of(m.dom())) by {
                            assert forall|x: u64| q0@.to_set().contains(x) implies m.dom().contains(
                                x,
                            ) by {
                                let i = choose|i: int| 0 <= i < q0@.len() && q0@[i] == x;
                            }
                        }
                        lemma_len_subset(q0@.to_set(), m.dom());
                    }
                }
            }
            t = t + 1;
        }
        proof {
            assert forall|x: u64, y: u64|
                q0@.to_set().contains(x) && !stack@.to_set().contains(x) && #[trigger] eps_edge(
                    m,
                    x,
                    y,
                ) implies q0@.to_set().contains(y) by {
                if x == v {
                    let k = choose|k: int|
                        0 <= k < m[v].transfers.len() && (#[trigger] m[v].transfers[k]).cond is None
                            && m[v].transfers[k].to == y;
                    assert(q0@.to_set().contains(m[v].transfers[k].to));
                }
            }
        }
    }
    proof {
        assert forall|b: u64|
            q0@.to_set().contains(b) implies base.union(eclose(m, set![now])).contains(b) by {
            let i = choose|i: int| 0 <= i < q0@.len() && q0@[i] == b;
            if !base.contains(b) {
                assert(eps_reach(m, now, b));
                assert(set![now].contains(now));
            }
        }
        assert forall|b: u64|
            base.union(eclose(m, set![now])).contains(b) implies q0@.to_set().contains(b) by {
            if base.contains(b) {
            } else {
                let a = choose|a: u64| set![now].contains(a) && #[trigger] eps_reach(m, a, b);
                lemma_closed_reach(m, q0@.to_set(), now, b);
            }
        }
        assert(q0@.to_set() =~= base.union(eclose(m, set![now])));
    }
}

/// Epsilon-closure distributes over union of the starting sets.
pub proof fn lemma_eclose_union(m: Map<u64, NodeV>, s1: Set<u64>, s2: Set<u64>)
    ensures
        eclose(m, s1.union(s2)) == eclose(m, s1).union(eclose(m, s2)),
{
    assert forall|b: u64| eclose(m, s1.union(s2)).contains(b) implies eclose(m, s1).union(
        eclose(m, s2),
    ).contains(b) by {
        let a = choose|a: u64| s1.union(s2).contains(a) && #[trigger] eps_reach(m, a, b);
        if s1.contains(a) {
            assert(eclose(m, s1).contains(b));
        } else {
            assert(eclose(m, s2).contains(b));
        }
    }
    assert forall|b: u64| eclose(m, s1).union(eclose(m, s2)).contains(b) implies eclose(
        m,
        s1.union(s2),
    ).contains(b) by {
        if eclose(m, s1).contains(b) {
            let a = choose|a: u64| s1.contains(a) && #[trigger] eps_reach(m, a, b);
            assert(s1.union(s2).contains(a));
        } else {
            let a = choose|a: u64| s2.contains(a) && #[trigger] eps_reach(m, a, b);
            assert(s1.union(s2).contains(a));
        }
    }
    assert(eclose(m, s1.union(s2)) =~= eclose(m, s1).union(eclose(m, s2)));
}

/// The set of nodes reachable from the fragment's start node by epsilon
/// transitions alone, the start node included; free of duplicates even in
/// the presence of epsilon cycles.
pub fn epsilon_closure(nfa: &NFA) -> (r: Vec<u64>)
    requires
        nfa.wf(),
    ensures
        r@.no_duplicates(),
        forall|i: int| 0 <= i < r@.len() ==> nfa@.nodes.dom().contains(#[trigger] r@[i]),
        r@.to_set() == eclose(nfa@.nodes, set![nfa@.start]),
        eps_closed(nfa@.nodes, r@.to_set()),
{
    let mut q0: Vec<u64> = Vec::new();
    epsilon_closure_dfs(nfa, &mut q0, nfa.start_id);
    proof {
        assert(Seq::<u64>::empty().to_set() =~= Set::<u64>::empty());
        assert(q0@.to_set() =~= eclose(nfa@.nodes, set![nfa@.start]));
    }
    q0
}

/// The targets reached from nodes of `qs` before position `(i, j)` in the
/// scan: every `c`-labelled transition of `qs[0..i]`, and the first `j`
/// transitions of `qs[i]`.
spec fn sym_targets_partial(m: Map<u64, NodeV>, qs: Seq<u64>, c: char, i: int, j: int) -> Set<
    u64,
> {
    Set::new(
        |t: u64|
            exists|ai: int, k: int|
                0 <= ai < qs.len() && m.dom().contains(qs[ai]) && 0 <= k
                    < m[qs[ai]].transfers.len() && (ai < i || (ai == i && k < j))
                    && (#[trigger] m[qs[ai]].transfers[k]).cond == Some(c)
                    && m[qs[ai]].transfers[k].to == t,
    )
}

/// The successor state-set of `q` on the symbol `c`: for every node of `q`,
/// every transition labelled exactly `c` is followed, and the union of the
/// epsilon-closures of the targets is returned.  Empty when no node of `q`
/// carries a `c`-labelled transition.
pub fn epsilon_closure_dfs_delta(nfa: &NFA, q: &Vec<u64>, c: char) -> (r: Vec<u64>)
    requires
        nfa.wf(),
        forall|i: int| 0 <= i < q@.len() ==> nfa@.nodes.dom().contains(#[trigger] q@[i]),
    ensures
        r@.no_duplicates(),
        forall|i: int| 0 <= i < r@.len() ==> nfa@.nodes.dom().contains(#[trigger] r@[i]),
        r@.to_set() == nfa_delta(nfa@.nodes, q@.to_set(), c),
        eps_closed(nfa@.nodes, r@.to_set()),
{
    let ghost m = nfa@.nodes;
    let mut q0: Vec<u64> = Vec::new();
    proof {
        assert(Seq::<u64>::empty().to_set() =~= Set::<u64>::empty());
        assert(sym_targets_partial(m, q@, c, 0, 0) =~= Set::<u64>::empty());
        assert(eclose(m, Set::<u64>::empty()) =~= Set::<u64>::empty());
    }
    let mut e: usize = 0;
    while e < q.len()
        invariant
            nfa.wf(),
            m == nfa@.nodes,
            forall|i: int| 0 <= i < q@.len() ==> m.dom().contains(#[trigger] q@[i]),
            e <= q@.len(),
            q0@.no_duplicates(),
            forall|i: int| 0 <= i < q0@.len() ==> m.dom().contains(#[trigger] q0@[i]),
            eps_closed(m, q0@.to_set()),
            q0@.to_set() == eclose(m, sym_targets_partial(m, q@, c, e as int, 0)),
        decreases q@.len() - e,
    {
        let a = q[e];
        proof {
            lemma_node_map_dom(nodes_v(nfa.nodes@));
            let i = choose|i: int| 0 <= i < nodes_v(nfa.nodes@).len() && nodes_v(nfa.nodes@)[i].id
                == a;
            assert(nfa.nodes@[i].id == a);
        }
        let ni = find_node_index(&nfa.nodes, a);
        proof {
            lemma_node_map_index(nodes_v(nfa.nodes@), ni as int);
            assert(m[a] == nodes_v(nfa.nodes@)[ni as int]);
        }
        let node = &nfa.nodes[ni];
        let mut t: usize = 0;
        while t < node.transfers.len()
            invariant
                nfa.wf(),
                m == nfa@.nodes,
                forall|i: int| 0 <= i < q@.len() ==> m.dom().contains(#[trigger] q@[i]),
                e < q@.len(),
                q@[e as int] == a,
                m.dom().contains(a),
                node@ == m[a],
                node.transfers@.len() == m[a].transfers.len(),
                t <= node.transfers@.len(),
                q0@.no_duplicates(),
                forall|i: int| 0 <= i < q0@.len() ==> m.dom().contains(#[trigger] q0@[i]),
                eps_closed(m, q0@.to_set()),
                q0@.to_set() == eclose(m, sym_targets_partial(m, q@, c, e as int, t as int)),
            decreases node.transfers@.len() - t,
        {
            let tr = &node.transfers[t];
            let ghost before = sym_targets_partial(m, q@, c, e as int, t as int);
            let mut hit: bool = false;
            match tr.condition {
                Some(cc) => {
                    if cc == c {
                        hit = true;
                    }
                },
                None => {},
            }
            if hit {
                let to = tr.to_id;
                proof {
                    assert(m[a].transfers[t as int].cond == Some(c));
                    assert(m[a].transfers[t as int].to == to);
                    assert(crate::nfa::node_ok(m, nfa@.alphabet, a));
                    assert(m.dom().contains(to));
                }
                epsilon_closure_dfs(nfa, &mut q0, to);
                proof {
                    assert(sym_targets_partial(m, q@, c, e as int, t + 1) =~= before.union(
                        set![to],
                    ));
                    lemma_eclose_union(m, before, set![to]);
                    assert(q0@.to_set() =~= eclose(
                        m,
                        sym_targets_partial(m, q@, c, e as int, t + 1),
                    ));
                }
            } else {
                proof {
                    assert(sym_targets_partial(m, q@, c, e as int, t + 1) =~= before);
                }
            }
            t = t + 1;
        }
        proof {
            assert(sym_targets_partial(m, q@, c, e + 1, 0) =~= sym_targets_partial(
                m,
                q@,
                c,
                e as int,
                m[a].transfers.len() as int,
            ));
        }
        e = e + 1;
    }
    proof {
        assert(sym_targets_partial(m, q@, c, q@.len() as int, 0) =~= sym_targets(
            m,
            q@.to_set(),
            c,
        )) by {
            assert forall|t: u64|
                sym_targets(m, q@.to_set(), c).contains(t) implies sym_targets_partial(
                m,
                q@,
                c,
                q@.len() as int,
                0,
            ).contains(t) by {
                let (a, k): (u64, int) = choose|a: u64, k: int|
                    q@.to_set().contains(a) && m.dom().contains(a) && 0 <= k
                        < m[a].transfers.len() && (#[trigger] m[a].transfers[k]).cond == Some(c)
                        && m[a].transfers[k].to == t;
                let ai = choose|ai: int| 0 <= ai < q@.len() && q@[ai] == a;
                assert(m[q@[ai]].transfers[k].cond == Some(c));
            }
        }
    }
    q0
}

} // verus!
