//! Deterministic automata: data model, string matching, and the subset
//! construction that turns a completed NFA fragment into a DFA.
//!
//! DFA node ids are dense indices starting at 0, the start state.  A node is
//! of kind End exactly when the underlying NFA state-set of the subset
//! construction holds the NFA's End node; a string is accepted when every
//! symbol finds a transition and the walk ends on an End node.

use vstd::prelude::*;

use crate::closure::{eclose, epsilon_closure, epsilon_closure_dfs_delta, nfa_delta, contains_u64};
use crate::model::{
    lemma_node_map_dom, lemma_node_map_index, lemma_subsets_bound, two_to, NfaV, NodeV,
};
use crate::nfa::{find_node_index, nodes_v, FANodeType, NFA};

verus! {

broadcast use {
    vstd::seq::Seq::lemma_push_to_set_commute,
    vstd::seq_lib::lemma_seq_contains_after_push,
    vstd::seq_lib::seq_to_set_is_finite,
};

/// One DFA transition; the condition is always a concrete symbol.
#[derive(Debug, Clone)]
pub struct DFATransferInfo {
    pub from_id: u64,
    pub to_id: u64,
    pub condition: char,
}

/// Abstract image of one DFA transition.
pub struct DTransV {
    pub from: u64,
    pub to: u64,
    pub cond: char,
}

impl View for DFATransferInfo {
    type V = DTransV;

    open spec fn view(&self) -> DTransV {
        DTransV { from: self.from_id, to: self.to_id, cond: self.condition }
    }
}

/// One DFA node: its role, its dense id, and its outgoing transitions, at
/// most one per symbol.
#[derive(Debug, Clone)]
pub struct DFANode {
    pub node_type: FANodeType,
    pub id: u64,
    pub transfers: Vec<DFATransferInfo>,
}

/// Abstract image of one DFA node.
#[verifier::ext_equal]
pub struct DNodeV {
    pub kind: FANodeType,
    pub id: u64,
    pub transfers: Seq<DTransV>,
}

impl View for DFANode {
    type V = DNodeV;

    open spec fn view(&self) -> DNodeV {
        DNodeV {
            kind: self.node_type,
            id: self.id,
            transfers: self.transfers@.map_values(|t: DFATransferInfo| t@),
        }
    }
}

/// A deterministic finite automaton; immutable after construction.
#[derive(Debug, Clone)]
pub struct DFA {
    pub nodes: Vec<DFANode>,
    pub start_id: u64,
}

/// Abstract image of a DFA: its nodes in id order, and the start id.
#[verifier::ext_equal]
pub struct DfaV {
    pub nodes: Seq<DNodeV>,
    pub start: u64,
}

impl View for DFA {
    type V = DfaV;

    open spec fn view(&self) -> DfaV {
        DfaV { nodes: self.nodes@.map_values(|n: DFANode| n@), start: self.start_id }
    }
}

/// Well-formedness of a DFA: it starts at index 0, every node knows its own
/// dense id, transitions leave their node and stay inside the automaton, and
/// no node has two transitions on one symbol.
pub open spec fn dfa_wf(d: DfaV) -> bool {
    &&& d.start == 0
    &&& d.nodes.len() >= 1
    &&& forall|i: int| 0 <= i < d.nodes.len() ==> (#[trigger] d.nodes[i]).id == i
    &&& forall|i: int, k: int|
        0 <= i < d.nodes.len() && 0 <= k < d.nodes[i].transfers.len() ==> (
        #[trigger] d.nodes[i].transfers[k]).from == i && d.nodes[i].transfers[k].to
            < d.nodes.len()
    &&& forall|i: int, k1: int, k2: int|
        0 <= i < d.nodes.len() && 0 <= k1 < d.nodes[i].transfers.len() && 0 <= k2
            < d.nodes[i].transfers.len() && k1 != k2 ==> (#[trigger] d.nodes[i].transfers[k1]).cond
            != (#[trigger] d.nodes[i].transfers[k2]).cond
}

/// Node `i` has a transition on symbol `c`.
pub open spec fn has_trans(d: DfaV, i: int, c: char) -> bool {
    exists|k: int|
        0 <= k < d.nodes[i].transfers.len() && (#[trigger] d.nodes[i].transfers[k]).cond == c
}

/// The target of node `i`'s transition on `c`; in a well-formed DFA there is
/// at most one.
pub open spec fn trans_target(d: DfaV, i: int, c: char) -> int {
    let k = choose|k: int|
        0 <= k < d.nodes[i].transfers.len() && (#[trigger] d.nodes[i].transfers[k]).cond == c;
    d.nodes[i].transfers[k].to as int
}

/// The node reached from `i` after consuming all of `s`, or `None` when some
/// symbol finds no transition.
pub open spec fn dfa_run_from(d: DfaV, i: int, s: Seq<char>) -> Option<int>
    decreases s.len(),
{
    if s.len() == 0 {
        Some(i)
    } else if has_trans(d, i, s[0]) {
        dfa_run_from(d, trans_target(d, i, s[0]), s.drop_first())
    } else {
        None
    }
}

/// The DFA accepts `s`: the walk from the start consumes every symbol and
/// ends on an End node.
pub open spec fn dfa_accepts(d: DfaV, s: Seq<char>) -> bool {
    match dfa_run_from(d, d.start as int, s) {
        Some(j) => 0 <= j < d.nodes.len() && d.nodes[j].kind == FANodeType::End,
        None => false,
    }
}

/// The state-set holds a node of kind End.
pub open spec fn set_has_end(n: NfaV, s: Set<u64>) -> bool {
    exists|a: u64|
        s.contains(a) && n.nodes.dom().contains(a) && (#[trigger] n.nodes[a]).kind
            == FANodeType::End
}

/// The kind the subset construction gives DFA node `i` built from state-set
/// `s`: End when the set holds the NFA's End node (also at index 0, so that
/// acceptance of the empty string is represented), else Start at index 0,
/// else Normal.
pub open spec fn expected_kind(n: NfaV, s: Set<u64>, i: int) -> FANodeType {
    if set_has_end(n, s) {
        FANodeType::End
    } else if i == 0 {
        FANodeType::Start
    } else {
        FANodeType::Normal
    }
}

/// DFA node `i` treats symbol `c` as the subset construction dictates: no
/// transition when the NFA successor set is empty, otherwise one transition
/// to the index holding exactly that successor set.
pub open spec fn delta_edge_ok(d: DfaV, n: NfaV, sets: Seq<Set<u64>>, i: int, c: char) -> bool {
    let t = nfa_delta(n.nodes, sets[i], c);
    if t == Set::<u64>::empty() {
        !has_trans(d, i, c)
    } else {
        exists|k: int, j: int|
            0 <= k < d.nodes[i].transfers.len() && (#[trigger] d.nodes[i].transfers[k]).cond == c
                && 0 <= j < sets.len() && d.nodes[i].transfers[k].to == j && #[trigger] sets[j]
                == t
    }
}

/// The DFA is the subset construction of the NFA, witnessed by the sequence
/// of NFA state-sets underlying the DFA nodes: index 0 carries the
/// epsilon-closure of the NFA's start node, the sets are pairwise distinct
/// subsets of the node table, every node's kind reflects its set, and the
/// transitions on every alphabet symbol follow the NFA successor sets.
pub open spec fn dfa_simulates(d: DfaV, n: NfaV, sets: Seq<Set<u64>>) -> bool {
    &&& d.start == 0
    &&& d.nodes.len() == sets.len()
    &&& sets.len() >= 1
    &&& sets[0] == eclose(n.nodes, set![n.start])
    &&& forall|i: int, j: int| 0 <= i < j < sets.len() ==> sets[i] != sets[j]
    &&& forall|i: int| 0 <= i < sets.len() ==> (#[trigger] sets[i]).subset_of(n.nodes.dom())
    &&& forall|i: int|
        0 <= i < sets.len() ==> (#[trigger] d.nodes[i]).kind == expected_kind(n, sets[i], i)
    &&& forall|i: int, k: int|
        0 <= i < d.nodes.len() && 0 <= k < d.nodes[i].transfers.len() ==> n.alphabet.contains(
            (#[trigger] d.nodes[i].transfers[k]).cond,
        )
    &&& forall|i: int, c: char|
        0 <= i < sets.len() && n.alphabet.contains(c) ==> #[trigger] delta_edge_ok(
            d,
            n,
            sets,
            i,
            c,
        )
}

/// The state-sets underlying a vector of state-set vectors.
pub open spec fn sets_of(qs: Seq<Vec<u64>>) -> Seq<Set<u64>> {
    qs.map_values(|v: Vec<u64>| v@.to_set())
}

/// The abstract image of a DFA node vector with start index 0.
pub open spec fn dview(dn: Seq<DFANode>) -> DfaV {
    DfaV { nodes: dn.map_values(|n: DFANode| n@), start: 0 }
}

/// Whether two id vectors hold the same set of ids.
fn vec_set_eq(a: &Vec<u64>, b: &Vec<u64>) -> (r: bool)
    ensures
        r == (a@.to_set() == b@.to_set()),
{
    let mut i: usize = 0;
    while i < a.len()
        invariant
            i <= a@.len(),
            forall|k: int| 0 <= k < i ==> b@.contains(#[trigger] a@[k]),
        decreases a@.len() - i,
    {
        if !contains_u64(b, a[i]) {
            proof {
                assert(a@.to_set().contains(a@[i as int]));
                assert(!b@.to_set().contains(a@[i as int]));
            }
            return false;
        }
        i = i + 1;
    }
    let mut j: usize = 0;
    while j < b.len()
        invariant
            j <= b@.len(),
            forall|k: int| 0 <= k < a@.len() ==> b@.contains(#[trigger] a@[k]),
            forall|k: int| 0 <= k < j ==> a@.contains(#[trigger] b@[k]),
        decreases b@.len() - j,
    {
        if !contains_u64(a, b[j]) {
            proof {
                assert(b@.to_set().contains(b@[j as int]));
                assert(!a@.to_set().contains(b@[j as int]));
            }
            return false;
        }
        j = j + 1;
    }
    proof {
        assert forall|x: u64| a@.to_set().contains(x) implies b@.to_set().contains(x) by {
            let k = choose|k: int| 0 <= k < a@.len() && a@[k] == x;
        }
        assert forall|x: u64| b@.to_set().contains(x) implies a@.to_set().contains(x) by {
            let k = choose|k: int| 0 <= k < b@.len() && b@[k] == x;
        }
        assert(a@.to_set() =~= b@.to_set());
    }
    true
}

/// Whether the state-set holds a node of kind End.
fn has_end_node(nfa: &NFA, q: &Vec<u64>) -> (r: bool)
    requires
        nfa.wf(),
        forall|i: int| 0 <= i < q@.len() ==> nfa@.nodes.dom().contains(#[trigger] q@[i]),
    ensures
        r == set_has_end(nfa@, q@.to_set()),
{
    let ghost m = nfa@.nodes;
    let mut i: usize = 0;
    while i < q.len()
        invariant
            nfa.wf(),
            m == nfa@.nodes,
            forall|k: int| 0 <= k < q@.len() ==> m.dom().contains(#[trigger] q@[k]),
            i <= q@.len(),
            forall|k: int| 0 <= k < i ==> m[#[trigger] q@[k]].kind != FANodeType::End,
        decreases q@.len() - i,
    {
        let a = q[i];
        proof {
            lemma_node_map_dom(nodes_v(nfa.nodes@));
            let w = choose|w: int| 0 <= w < nodes_v(nfa.nodes@).len() && nodes_v(nfa.nodes@)[w].id
                == a;
            assert(nfa.nodes@[w].id == a);
        }
        let ni = find_node_index(&nfa.nodes, a);
        proof {
            lemma_node_map_index(nodes_v(nfa.nodes@), ni as int);
            assert(m[a] == nodes_v(nfa.nodes@)[ni as int]);
        }
        let node = &nfa.nodes[ni];
        let is_end = match node.node_type {
            FANodeType::End => true,
            FANodeType::Start => false,
            FANodeType::Normal => false,
        };
        if is_end {
            proof {
                assert(q@.to_set().contains(a));
                assert(m[a].kind == FANodeType::End);
            }
            return true;
        }
        i = i + 1;
    }
    proof {
        if set_has_end(nfa@, q@.to_set()) {
            let a = choose|a: u64|
                q@.to_set().contains(a) && m.dom().contains(a) && (#[trigger] m[a]).kind
                    == FANodeType::End;
            let k = choose|k: int| 0 <= k < q@.len() && q@[k] == a;
        }
    }
    false
}

/// Invariant of the determinizer's discovered state: the state-set list and
/// the DFA node list grow in step, the sets are pairwise-distinct subsets of
/// the node table with the start closure at index 0, node kinds reflect
/// their sets, and every recorded transition is internally sound with at
/// most one transition per symbol.
pub open spec fn det_inv(nfa: NFA, qsets: Seq<Vec<u64>>, dnodes: Seq<DFANode>) -> bool {
    let m = nfa@.nodes;
    let sets = sets_of(qsets);
    let d = dview(dnodes);
    &&& dnodes.len() == qsets.len()
    &&& qsets.len() >= 1
    &&& forall|i: int| 0 <= i < qsets.len() ==> (#[trigger] qsets[i])@.no_duplicates()
    &&& forall|i: int, j: int|
        0 <= i < qsets.len() && 0 <= j < qsets[i]@.len() ==> m.dom().contains(
            #[trigger] qsets[i]@[j],
        )
    &&& sets[0] == eclose(m, set![nfa@.start])
    &&& forall|i: int, j: int| 0 <= i < j < sets.len() ==> sets[i] != sets[j]
    &&& forall|i: int| 0 <= i < dnodes.len() ==> (#[trigger] d.nodes[i]).id == i
    &&& forall|i: int|
        0 <= i < dnodes.len() ==> (#[trigger] d.nodes[i]).kind == expected_kind(nfa@, sets[i], i)
    &&& forall|i: int, k: int|
        0 <= i < dnodes.len() && 0 <= k < d.nodes[i].transfers.len() ==> (
        #[trigger] d.nodes[i].transfers[k]).from == i && d.nodes[i].transfers[k].to < qsets.len()
            && nfa@.alphabet.contains(d.nodes[i].transfers[k].cond)
    &&& forall|i: int, k1: int, k2: int|
        0 <= i < dnodes.len() && 0 <= k1 < d.nodes[i].transfers.len() && 0 <= k2
            < d.nodes[i].transfers.len() && k1 != k2 ==> (#[trigger] d.nodes[i].transfers[k1]).cond
            != (#[trigger] d.nodes[i].transfers[k2]).cond
}

/// Every alphabet symbol of row `i` is treated as the subset construction
/// dictates.
pub open spec fn row_complete(d: DfaV, n: NfaV, sets: Seq<Set<u64>>, i: int) -> bool {
    forall|c: char| n.alphabet.contains(c) ==> #[trigger] delta_edge_ok(d, n, sets, i, c)
}

/// Every transition of row `qi` carries a symbol among the first `ci`
/// alphabet entries.
pub open spec fn row_conds_from_prefix(d: DfaV, qi: int, chars: Seq<char>, ci: int) -> bool {
    forall|k: int|
        0 <= k < d.nodes[qi].transfers.len() ==> exists|x: int|
            0 <= x < ci && chars[x] == (#[trigger] d.nodes[qi].transfers[k]).cond
}

/// A list of pairwise-distinct subsets of a finite set `dom` is no longer
/// than `two_to(dom.len())`.
proof fn lemma_sets_bound(dom: Set<u64>, sets: Seq<Set<u64>>)
    requires
        dom.finite(),
        forall|i: int, j: int| 0 <= i < j < sets.len() ==> sets[i] != sets[j],
        forall|i: int| 0 <= i < sets.len() ==> (#[trigger] sets[i]).subset_of(dom),
    ensures
        sets.len() <= two_to(dom.len()),
{
    assert(sets.no_duplicates());
    sets.unique_seq_to_set();
    assert forall|s: Set<u64>| #[trigger] sets.to_set().contains(s) implies s.subset_of(dom) by {
        let i = choose|i: int| 0 <= i < sets.len() && sets[i] == s;
    }
    lemma_subsets_bound(dom, sets.to_set());
}

/// A row keeps treating `c` correctly when the automaton around it grows:
/// its own transitions and its state-set are untouched, and the state-set
/// list is only extended.
proof fn lemma_edge_ok_grow(
    dold: DfaV,
    dnew: DfaV,
    n: NfaV,
    sets_old: Seq<Set<u64>>,
    sets_new: Seq<Set<u64>>,
    i: int,
    c: char,
)
    requires
        0 <= i < sets_old.len(),
        delta_edge_ok(dold, n, sets_old, i, c),
        dnew.nodes[i] == dold.nodes[i],
        sets_new[i] == sets_old[i],
        sets_old.len() <= sets_new.len(),
        forall|j: int| 0 <= j < sets_old.len() ==> #[trigger] sets_new[j] == sets_old[j],
    ensures
        delta_edge_ok(dnew, n, sets_new, i, c),
{
    let t = nfa_delta(n.nodes, sets_old[i], c);
    if t == Set::<u64>::empty() {
        assert(!has_trans(dnew, i, c)) by {
            if has_trans(dnew, i, c) {
                let k = choose|k: int|
                    0 <= k < dnew.nodes[i].transfers.len() && (
                    #[trigger] dnew.nodes[i].transfers[k]).cond == c;
                assert(dold.nodes[i].transfers[k].cond == c);
            }
        }
    } else {
        let (k, j): (int, int) = choose|k: int, j: int|
            0 <= k < dold.nodes[i].transfers.len() && (#[trigger] dold.nodes[i].transfers[k]).cond
                == c && 0 <= j < sets_old.len() && dold.nodes[i].transfers[k].to == j
                && #[trigger] sets_old[j] == t;
        assert(dnew.nodes[i].transfers[k].cond == c);
        assert(sets_new[j] == t);
    }
}

/// A row keeps treating `c` correctly when one more transition on a
/// different symbol is appended to it.
proof fn lemma_edge_ok_row_push(
    dold: DfaV,
    dnew: DfaV,
    n: NfaV,
    sets_old: Seq<Set<u64>>,
    sets_new: Seq<Set<u64>>,
    i: int,
    c: char,
    tr: DTransV,
)
    requires
        0 <= i < sets_old.len(),
        delta_edge_ok(dold, n, sets_old, i, c),
        dnew.nodes[i].transfers == dold.nodes[i].transfers.push(tr),
        tr.cond != c,
        sets_new[i] == sets_old[i],
        sets_old.len() <= sets_new.len(),
        forall|j: int| 0 <= j < sets_old.len() ==> #[trigger] sets_new[j] == sets_old[j],
    ensures
        delta_edge_ok(dnew, n, sets_new, i, c),
{
    let t = nfa_delta(n.nodes, sets_old[i], c);
    if t == Set::<u64>::empty() {
        assert(!has_trans(dnew, i, c)) by {
            if has_trans(dnew, i, c) {
                let k = choose|k: int|
                    0 <= k < dnew.nodes[i].transfers.len() && (
                    #[trigger] dnew.nodes[i].transfers[k]).cond == c;
                if k < dold.nodes[i].transfers.len() {
                    assert(dold.nodes[i].transfers[k].cond == c);
                } else {
                    assert(dnew.nodes[i].transfers[k] == tr);
                }
            }
        }
    } else {
        let (k, j): (int, int) = choose|k: int, j: int|
            0 <= k < dold.nodes[i].transfers.len() && (#[trigger] dold.nodes[i].transfers[k]).cond
                == c && 0 <= j < sets_old.len() && dold.nodes[i].transfers[k].to == j
                && #[trigger] sets_old[j] == t;
        assert(dnew.nodes[i].transfers[k].cond == c);
        assert(sets_new[j] == t);
    }
}

/// The image of `row` with one more transition appended.
pub open spec fn row_pushed(row: DNodeV, tr: DTransV) -> DNodeV {
    DNodeV { kind: row.kind, id: row.id, transfers: row.transfers.push(tr) }
}

/// Appends one transition to row `qi`.
fn record_transfer(dnodes: &mut Vec<DFANode>, qi: usize, target: usize, c: char)
    requires
        qi < old(dnodes)@.len(),
    ensures
        final(dnodes)@.len() == old(dnodes)@.len(),
        dview(final(dnodes)@).nodes == dview(old(dnodes)@).nodes.update(
            qi as int,
            row_pushed(
                dview(old(dnodes)@).nodes[qi as int],
                DTransV { from: qi as u64, to: target as u64, cond: c },
            ),
        ),
        dview(final(dnodes)@).nodes[qi as int].transfers.len() == dview(old(dnodes)@).nodes[qi as int].transfers.len() + 1,
        dview(final(dnodes)@).nodes[qi as int].transfers[dview(old(dnodes)@).nodes[qi as int].transfers.len() as int] == (DTransV {
            from: qi as u64,
            to: target as u64,
            cond: c,
        }),
        forall|k: int|
            0 <= k < dview(old(dnodes)@).nodes[qi as int].transfers.len() ==> #[trigger] dview(
                final(dnodes)@,
            ).nodes[qi as int].transfers[k] == dview(old(dnodes)@).nodes[qi as int].transfers[k],
        dview(final(dnodes)@).nodes[qi as int].kind == dview(old(dnodes)@).nodes[qi as int].kind,
        dview(final(dnodes)@).nodes[qi as int].id == dview(old(dnodes)@).nodes[qi as int].id,
        forall|i: int|
            0 <= i < old(dnodes)@.len() && i != qi ==> #[trigger] dview(final(dnodes)@).nodes[i]
                == dview(old(dnodes)@).nodes[i],
{
    let ghost before = dnodes@;
    dnodes[qi].transfers.push(
        DFATransferInfo { from_id: qi as u64, to_id: target as u64, condition: c },
    );
    proof {
        assert(dview(dnodes@).nodes =~~= dview(before).nodes.update(
            qi as int,
            row_pushed(
                dview(before).nodes[qi as int],
                DTransV { from: qi as u64, to: target as u64, cond: c },
            ),
        ));
    }
}

/// Appending a freshly discovered state-set and its DFA node preserves the
/// determinizer invariant.
proof fn lemma_det_inv_push(nfa: NFA, qs: Seq<Vec<u64>>, dn: Seq<DFANode>, t: Vec<u64>, node: DFANode)
    requires
        nfa.wf(),
        det_inv(nfa, qs, dn),
        t@.no_duplicates(),
        forall|j: int| 0 <= j < t@.len() ==> nfa@.nodes.dom().contains(#[trigger] t@[j]),
        forall|i: int| 0 <= i < qs.len() ==> #[trigger] sets_of(qs)[i] != t@.to_set(),
        node@.kind == expected_kind(nfa@, t@.to_set(), qs.len() as int),
        node@.id == qs.len(),
        node@.transfers.len() == 0,
    ensures
        det_inv(nfa, qs.push(t), dn.push(node)),
{
    let qs2 = qs.push(t);
    let dn2 = dn.push(node);
    assert(sets_of(qs2) =~= sets_of(qs).push(t@.to_set()));
    assert(dview(dn2).nodes =~~= dview(dn).nodes.push(node@));
    assert(sets_of(qs2)[0] == sets_of(qs)[0]);
    assert forall|i: int, j: int| 0 <= i < j < sets_of(qs2).len() implies sets_of(qs2)[i]
        != sets_of(qs2)[j] by {
        if j < qs.len() {
            assert(sets_of(qs)[i] != sets_of(qs)[j]);
        } else {
            assert(sets_of(qs)[i] != t@.to_set());
        }
    }
    assert forall|i: int| 0 <= i < dn2.len() implies (#[trigger] dview(dn2).nodes[i]).kind
        == expected_kind(nfa@, sets_of(qs2)[i], i) by {
        if i < dn.len() {
            assert(dview(dn2).nodes[i] == dview(dn).nodes[i]);
        }
    }
}

/// Appending one transition on a symbol the row does not yet treat preserves
/// the determinizer invariant.
proof fn lemma_det_inv_record(
    nfa: NFA,
    qs: Seq<Vec<u64>>,
    dn: Seq<DFANode>,
    dn2: Seq<DFANode>,
    qi: int,
    target: int,
    c: char,
)
    requires
        nfa.wf(),
        det_inv(nfa, qs, dn),
        0 <= qi < qs.len(),
        0 <= target < qs.len(),
        nfa@.alphabet.contains(c),
        dn2.len() == dn.len(),
        dview(dn2).nodes == dview(dn).nodes.update(
            qi,
            row_pushed(
                dview(dn).nodes[qi],
                DTransV { from: qi as u64, to: target as u64, cond: c },
            ),
        ),
        forall|k: int|
            0 <= k < dview(dn).nodes[qi].transfers.len() ==> (#[trigger] dview(
                dn,
            ).nodes[qi].transfers[k]).cond != c,
    ensures
        det_inv(nfa, qs, dn2),
{
    let d2 = dview(dn2);
    let d1 = dview(dn);
    let oldrow = d1.nodes[qi];
    let trv = DTransV { from: qi as u64, to: target as u64, cond: c };
    assert(d2.nodes[qi] == row_pushed(oldrow, trv));
    assert forall|i: int, k: int|
        0 <= i < dn2.len() && 0 <= k < d2.nodes[i].transfers.len() implies (
        #[trigger] d2.nodes[i].transfers[k]).from == i && d2.nodes[i].transfers[k].to < qs.len()
            && nfa@.alphabet.contains(d2.nodes[i].transfers[k].cond) by {
        if i == qi {
            if k < oldrow.transfers.len() {
                assert(d2.nodes[i].transfers[k] == oldrow.transfers[k]);
            } else {
                assert(d2.nodes[i].transfers[k] == trv);
            }
        } else {
            assert(d2.nodes[i] == d1.nodes[i]);
        }
    }
    assert forall|i: int, k1: int, k2: int|
        0 <= i < dn2.len() && 0 <= k1 < d2.nodes[i].transfers.len() && 0 <= k2
            < d2.nodes[i].transfers.len() && k1 != k2 implies (
        #[trigger] d2.nodes[i].transfers[k1]).cond != (#[trigger] d2.nodes[i].transfers[k2]).cond by {
        if i == qi {
            if k1 < oldrow.transfers.len() && k2 < oldrow.transfers.len() {
                assert(d2.nodes[i].transfers[k1] == oldrow.transfers[k1]);
                assert(d2.nodes[i].transfers[k2] == oldrow.transfers[k2]);
            } else if k1 < oldrow.transfers.len() {
                assert(d2.nodes[i].transfers[k2] == trv);
                assert(oldrow.transfers[k1].cond != c);
            } else {
                assert(d2.nodes[i].transfers[k1] == trv);
                assert(oldrow.transfers[k2].cond != c);
            }
        } else {
            assert(d2.nodes[i] == d1.nodes[i]);
        }
    }
    assert forall|i: int| 0 <= i < dn2.len() implies (#[trigger] d2.nodes[i]).kind
        == expected_kind(nfa@, sets_of(qs)[i], i) by {
        if i != qi {
            assert(d2.nodes[i] == d1.nodes[i]);
        }
    }
    assert forall|i: int| 0 <= i < dn2.len() implies (#[trigger] d2.nodes[i]).id == i by {
        if i != qi {
            assert(d2.nodes[i] == d1.nodes[i]);
        }
    }
}

/// Treats one alphabet symbol of row `qi`: computes the NFA successor set;
/// when it is non-empty, finds or discovers the DFA node holding exactly
/// that set and records the one transition; when it is empty, records
/// nothing.
#[verifier::rlimit(60)]
fn process_symbol(
    nfa: &NFA,
    qsets: &mut Vec<Vec<u64>>,
    dnodes: &mut Vec<DFANode>,
    worklist: &mut Vec<usize>,
    qi: usize,
    ci: usize,
)
    requires
        nfa.wf(),
        ci < nfa.character_set@.len(),
        det_inv(*nfa, old(qsets)@, old(dnodes)@),
        old(qsets)@.len() <= two_to(nfa@.nodes.dom().len()),
        nfa@.nodes.dom().finite(),
        qi < old(qsets)@.len(),
        !old(worklist)@.contains(qi),
        forall|w: int|
            0 <= w < old(worklist)@.len() ==> (#[trigger] old(worklist)@[w]) < old(qsets)@.len(),
        old(worklist)@.no_duplicates(),
        forall|w: int|
            0 <= w < old(worklist)@.len() ==> dview(old(dnodes)@).nodes[#[trigger] old(worklist)@[w] as int].transfers.len() == 0,
        forall|i: int|
            0 <= i < old(qsets)@.len() && i != qi && !old(worklist)@.contains(i as usize)
                ==> #[trigger] row_complete(
                dview(old(dnodes)@),
                nfa@,
                sets_of(old(qsets)@),
                i,
            ),
        forall|x: int|
            0 <= x < ci ==> #[trigger] delta_edge_ok(
                dview(old(dnodes)@),
                nfa@,
                sets_of(old(qsets)@),
                qi as int,
                nfa.character_set@[x],
            ),
        row_conds_from_prefix(dview(old(dnodes)@), qi as int, nfa.character_set@, ci as int),
    ensures
        det_inv(*nfa, final(qsets)@, final(dnodes)@),
        final(qsets)@.len() <= two_to(nfa@.nodes.dom().len()),
        qi < final(qsets)@.len(),
        !final(worklist)@.contains(qi),
        final(qsets)@.len() as int - final(worklist)@.len() as int == old(qsets)@.len() as int
            - old(worklist)@.len() as int,
        forall|w: int|
            0 <= w < final(worklist)@.len() ==> (#[trigger] final(worklist)@[w])
                < final(qsets)@.len(),
        final(worklist)@.no_duplicates(),
        forall|w: int|
            0 <= w < final(worklist)@.len() ==> dview(final(dnodes)@).nodes[#[trigger] final(worklist)@[w] as int].transfers.len() == 0,
        forall|i: int|
            0 <= i < final(qsets)@.len() && i != qi && !final(worklist)@.contains(i as usize)
                ==> #[trigger] row_complete(
                dview(final(dnodes)@),
                nfa@,
                sets_of(final(qsets)@),
                i,
            ),
        forall|x: int|
            0 <= x < ci + 1 ==> #[trigger] delta_edge_ok(
                dview(final(dnodes)@),
                nfa@,
                sets_of(final(qsets)@),
                qi as int,
                nfa.character_set@[x],
            ),
        row_conds_from_prefix(dview(final(dnodes)@), qi as int, nfa.character_set@, ci + 1),
{
    let ghost m = nfa@.nodes;
    let ghost al = nfa@.alphabet;
    let ghost charseq = nfa.character_set@;
    let c = nfa.character_set[ci];
    let t = epsilon_closure_dfs_delta(nfa, &qsets[qi], c);
    let ghost tset = t@.to_set();
    proof {
        assert(sets_of(qsets@)[qi as int] == qsets@[qi as int]@.to_set());
        assert(tset == nfa_delta(m, sets_of(qsets@)[qi as int], c));
        assert(al.contains(c)) by {
            assert(charseq[ci as int] == c);
        }
    }
    if t.len() > 0 {
        proof {
            assert(t@.to_set().contains(t@[0]));
            assert(tset != Set::<u64>::empty());
        }
        let mut j: usize = 0;
        let mut found: bool = false;
        let mut tgt: usize = 0;
        while j < qsets.len()
            invariant
                j <= qsets@.len(),
                t@.to_set() == tset,
                found ==> tgt < qsets@.len() && sets_of(qsets@)[tgt as int] == tset,
                !found ==> forall|x: int| 0 <= x < j ==> #[trigger] sets_of(qsets@)[x] != tset,
            decreases qsets@.len() - j,
        {
            if vec_set_eq(&qsets[j], &t) {
                found = true;
                tgt = j;
                proof {
                    assert(sets_of(qsets@)[j as int] == qsets@[j as int]@.to_set());
                }
            }
            j = j + 1;
        }
        let target: usize;
        let ghost base_qsets = qsets@;
        let ghost base_dnodes = dnodes@;
        let ghost base_wl = worklist@;
        if found {
            target = tgt;
        } else {
            target = qsets.len();
            let ke = if has_end_node(nfa, &t) {
                FANodeType::End
            } else {
                FANodeType::Normal
            };
            let node = DFANode { node_type: ke, id: target as u64, transfers: Vec::new() };
            proof {
                lemma_det_inv_push(*nfa, base_qsets, base_dnodes, t, node);
            }
            qsets.push(t);
            dnodes.push(node);
            worklist.push(target);
            proof {
                assert(sets_of(qsets@) =~= sets_of(base_qsets).push(tset));
                assert(dview(dnodes@).nodes =~~= dview(base_dnodes).nodes.push(node@));
                lemma_sets_bound(m.dom(), sets_of(qsets@));
                assert forall|i: int|
                    0 <= i < qsets@.len() && i != qi && !worklist@.contains(i as usize)
                        implies #[trigger] row_complete(
                        dview(dnodes@),
                        nfa@,
                        sets_of(qsets@),
                        i,
                    ) by {
                    assert(!base_wl.contains(i as usize));
                    assert(i < base_qsets.len());
                    assert(row_complete(dview(base_dnodes), nfa@, sets_of(base_qsets), i));
                    assert forall|cc: char| nfa@.alphabet.contains(cc)
                        implies #[trigger] delta_edge_ok(
                        dview(dnodes@),
                        nfa@,
                        sets_of(qsets@),
                        i,
                        cc,
                    ) by {
                        lemma_edge_ok_grow(
                            dview(base_dnodes),
                            dview(dnodes@),
                            nfa@,
                            sets_of(base_qsets),
                            sets_of(qsets@),
                            i,
                            cc,
                        );
                    }
                }
                assert forall|x: int| 0 <= x < ci implies #[trigger] delta_edge_ok(
                    dview(dnodes@),
                    nfa@,
                    sets_of(qsets@),
                    qi as int,
                    charseq[x],
                ) by {
                    lemma_edge_ok_grow(
                        dview(base_dnodes),
                        dview(dnodes@),
                        nfa@,
                        sets_of(base_qsets),
                        sets_of(qsets@),
                        qi as int,
                        charseq[x],
                    );
                }
            }
        }
        let ghost mid_qsets = qsets@;
        let ghost mid_dnodes = dnodes@;
        proof {
            assert(dview(mid_dnodes).nodes[qi as int] == dview(base_dnodes).nodes[qi as int]);
            assert forall|k: int|
                0 <= k < dview(mid_dnodes).nodes[qi as int].transfers.len() implies (
                #[trigger] dview(mid_dnodes).nodes[qi as int].transfers[k]).cond != c by {
                let x = choose|x: int|
                    0 <= x < ci && charseq[x] == dview(mid_dnodes).nodes[qi as int].transfers[k].cond;
                assert(charseq[ci as int] == c);
            }
        }
        record_transfer(dnodes, qi, target, c);
        proof {
            let trv = DTransV { from: qi as u64, to: target as u64, cond: c };
            let oldrow = dview(mid_dnodes).nodes[qi as int];
            let newrow = row_pushed(oldrow, trv);
            lemma_det_inv_record(
                *nfa,
                mid_qsets,
                mid_dnodes,
                dnodes@,
                qi as int,
                target as int,
                c,
            );
            assert(sets_of(qsets@)[target as int] == tset);
            assert(delta_edge_ok(dview(dnodes@), nfa@, sets_of(qsets@), qi as int, c)) by {
                let kn = oldrow.transfers.len() as int;
                assert(dview(dnodes@).nodes[qi as int].transfers[kn] == trv);
                assert(0 <= target < sets_of(qsets@).len());
            }
            assert forall|x: int| 0 <= x < ci + 1 implies #[trigger] delta_edge_ok(
                dview(dnodes@),
                nfa@,
                sets_of(qsets@),
                qi as int,
                charseq[x],
            ) by {
                if x < ci {
                    assert(charseq[ci as int] != charseq[x]);
                    lemma_edge_ok_row_push(
                        dview(mid_dnodes),
                        dview(dnodes@),
                        nfa@,
                        sets_of(mid_qsets),
                        sets_of(qsets@),
                        qi as int,
                        charseq[x],
                        trv,
                    );
                }
            }
            assert forall|k: int|
                0 <= k < dview(dnodes@).nodes[qi as int].transfers.len() implies exists|x: int|
                    0 <= x < ci + 1 && charseq[x] == (#[trigger] dview(
                        dnodes@,
                    ).nodes[qi as int].transfers[k]).cond by {
                assert(charseq == nfa.character_set@);
                if k < oldrow.transfers.len() {
                    assert(dview(dnodes@).nodes[qi as int].transfers[k] == oldrow.transfers[k]);
                } else {
                    assert(dview(dnodes@).nodes[qi as int].transfers[k] == trv);
                    assert(charseq[ci as int] == c);
                }
            }
            assert forall|i: int|
                0 <= i < qsets@.len() && i != qi && !worklist@.contains(i as usize)
                    implies #[trigger] row_complete(dview(dnodes@), nfa@, sets_of(qsets@), i) by {
                assert(row_complete(dview(mid_dnodes), nfa@, sets_of(mid_qsets), i));
                assert forall|cc: char| nfa@.alphabet.contains(cc) implies #[trigger] delta_edge_ok(
                    dview(dnodes@),
                    nfa@,
                    sets_of(qsets@),
                    i,
                    cc,
                ) by {
                    assert(dview(dnodes@).nodes[i] == dview(mid_dnodes).nodes[i]);
                    lemma_edge_ok_grow(
                        dview(mid_dnodes),
                        dview(dnodes@),
                        nfa@,
                        sets_of(mid_qsets),
                        sets_of(qsets@),
                        i,
                        cc,
                    );
                }
            }
            assert forall|w: int|
                0 <= w < worklist@.len() implies dview(dnodes@).nodes[#[trigger] worklist@[w] as int].transfers.len()
                    == 0 by {
                assert(worklist@[w] != qi);
                assert(dview(dnodes@).nodes[worklist@[w] as int] == dview(
                    mid_dnodes,
                ).nodes[worklist@[w] as int]);
            }
        }
    } else {
        proof {
            assert(t@.to_set() =~= Set::<u64>::empty());
            assert(delta_edge_ok(dview(dnodes@), nfa@, sets_of(qsets@), qi as int, c)) by {
                assert forall|k: int|
                    0 <= k < dview(dnodes@).nodes[qi as int].transfers.len() implies (
                    #[trigger] dview(dnodes@).nodes[qi as int].transfers[k]).cond != c by {
                    let x = choose|x: int|
                        0 <= x < ci && charseq[x] == dview(dnodes@).nodes[qi as int].transfers[k].cond;
                    assert(charseq[ci as int] == c);
                }
            }
            assert forall|x: int| 0 <= x < ci + 1 implies #[trigger] delta_edge_ok(
                dview(dnodes@),
                nfa@,
                sets_of(qsets@),
                qi as int,
                charseq[x],
            ) by {}
        }
    }
}

/// Subset construction.  Discovered epsilon-closure state-sets become DFA
/// nodes in discovery order, index 0 being the closure of the NFA's start
/// node; a worklist is expanded last-in-first-out, and for every pending set
/// and alphabet symbol the NFA successor set either is empty (no transition)
/// or maps to the index holding exactly that set, discovered anew if needed.
/// The result is a well-formed deterministic automaton that simulates the
/// fragment, witnessed by the discovered state-sets.
pub fn nfa_to_dfa(nfa: &NFA) -> (d: DFA)
    requires
        nfa.wf(),
    ensures
        dfa_wf(d@),
        exists|sets: Seq<Set<u64>>| #[trigger] dfa_simulates(d@, nfa@, sets),
{
    let ghost m = nfa@.nodes;
        let q0 = epsilon_closure(nfa);
    let k0 = if has_end_node(nfa, &q0) {
        FANodeType::End
    } else {
        FANodeType::Start
    };
    let ghost q0v = q0@;
    let mut qsets: Vec<Vec<u64>> = Vec::new();
    let mut dnodes: Vec<DFANode> = Vec::new();
    let mut worklist: Vec<usize> = Vec::new();
    qsets.push(q0);
    dnodes.push(DFANode { node_type: k0, id: 0, transfers: Vec::new() });
    worklist.push(0);
    proof {
        lemma_node_map_dom(nodes_v(nfa.nodes@));
        assert(sets_of(qsets@)[0] == q0v.to_set());
        assert(dview(dnodes@).nodes[0].transfers.len() == 0);
        lemma_sets_bound(m.dom(), sets_of(qsets@));
    }
    while worklist.len() > 0
        invariant
            nfa.wf(),
            m == nfa@.nodes,
                        m.dom().finite(),
            det_inv(*nfa, qsets@, dnodes@),
            qsets@.len() <= two_to(m.dom().len()),
            forall|w: int| 0 <= w < worklist@.len() ==> (#[trigger] worklist@[w]) < qsets@.len(),
            worklist@.no_duplicates(),
            forall|w: int|
                0 <= w < worklist@.len() ==> dview(dnodes@).nodes[#[trigger] worklist@[w] as int].transfers.len()
                    == 0,
            forall|i: int|
                0 <= i < qsets@.len() && !worklist@.contains(i as usize) ==> #[trigger] row_complete(
                    dview(dnodes@),
                    nfa@,
                    sets_of(qsets@),
                    i,
                ),
        decreases two_to(m.dom().len()) - qsets@.len() + worklist@.len(),
    {
        let ghost wl_before = worklist@;
        let qi = worklist.pop().unwrap();
        let qlen_now = qsets.len();
        proof {
            assert(wl_before =~= worklist@.push(qi));
            assert(!worklist@.contains(qi));
            assert(dview(dnodes@).nodes[qi as int].transfers.len() == 0);
            assert forall|i: int|
                0 <= i < qsets@.len() && i != qi && !worklist@.contains(i as usize)
                    implies #[trigger] row_complete(dview(dnodes@), nfa@, sets_of(qsets@), i) by {
                assert(i as usize as int == i) by {
                    assert(i < qlen_now);
                }
                assert(!wl_before.contains(i as usize));
            }
        }
        let ghost qs_at_pop = qsets@.len() as int;
        let ghost wl_at_pop = worklist@.len() as int;
        let alphabet_len = nfa.character_set.len();
        let mut ci: usize = 0;
        while ci < alphabet_len
            invariant
                nfa.wf(),
                m == nfa@.nodes,
                                alphabet_len == nfa.character_set@.len(),
                m.dom().finite(),
                det_inv(*nfa, qsets@, dnodes@),
                qsets@.len() <= two_to(m.dom().len()),
                ci <= nfa.character_set@.len(),
                qi < qsets@.len(),
                !worklist@.contains(qi),
                qsets@.len() as int - worklist@.len() as int == qs_at_pop - wl_at_pop,
                forall|w: int| 0 <= w < worklist@.len() ==> (#[trigger] worklist@[w]) < qsets@.len(),
                worklist@.no_duplicates(),
                forall|w: int|
                    0 <= w < worklist@.len() ==> dview(dnodes@).nodes[#[trigger] worklist@[w] as int].transfers.len()
                        == 0,
                forall|i: int|
                    0 <= i < qsets@.len() && i != qi && !worklist@.contains(i as usize)
                        ==> #[trigger] row_complete(dview(dnodes@), nfa@, sets_of(qsets@), i),
                forall|x: int|
                    0 <= x < ci ==> #[trigger] delta_edge_ok(
                        dview(dnodes@),
                        nfa@,
                        sets_of(qsets@),
                        qi as int,
                        nfa.character_set@[x],
                    ),
                row_conds_from_prefix(dview(dnodes@), qi as int, nfa.character_set@, ci as int),
            decreases nfa.character_set@.len() - ci,
        {
            process_symbol(nfa, &mut qsets, &mut dnodes, &mut worklist, qi, ci);
            ci = ci + 1;
        }
        proof {
            assert(row_complete(dview(dnodes@), nfa@, sets_of(qsets@), qi as int)) by {
                assert forall|c: char| nfa@.alphabet.contains(c) implies #[trigger] delta_edge_ok(
                    dview(dnodes@),
                    nfa@,
                    sets_of(qsets@),
                    qi as int,
                    c,
                ) by {
                    assert(nfa.character_set@.to_set().contains(c));
                    let x = choose|x: int| 0 <= x < nfa.character_set@.len() && nfa.character_set@[x] == c;
                }
            }
            assert forall|i: int|
                0 <= i < qsets@.len() && !worklist@.contains(i as usize)
                    implies #[trigger] row_complete(dview(dnodes@), nfa@, sets_of(qsets@), i) by {
            }
        }
    }
    let d = DFA { nodes: dnodes, start_id: 0 };
    proof {
        let sets = sets_of(qsets@);
        assert(d@ =~~= dview(dnodes@));
        assert(dfa_wf(d@));
        assert forall|i: int| 0 <= i < sets.len() implies (#[trigger] sets[i]).subset_of(
            m.dom(),
        ) by {
            assert forall|x: u64| sets[i].contains(x) implies m.dom().contains(x) by {
                assert(sets[i] == qsets@[i]@.to_set());
                let k = choose|k: int| 0 <= k < qsets@[i]@.len() && qsets@[i]@[k] == x;
            }
        }
        assert forall|i: int| 0 <= i < qsets@.len() implies #[trigger] row_complete(
            dview(dnodes@),
            nfa@,
            sets,
            i,
        ) by {
            assert(!worklist@.contains(i as usize));
        }
        assert(d@.start == 0 && d@.nodes.len() == sets.len() && sets.len() >= 1);
        assert(sets[0] == eclose(nfa@.nodes, set![nfa@.start]));
        assert(forall|i: int, j: int| 0 <= i < j < sets.len() ==> sets[i] != sets[j]);
        assert(forall|i: int|
            0 <= i < sets.len() ==> (#[trigger] d@.nodes[i]).kind == expected_kind(
                nfa@,
                sets[i],
                i,
            ));
        assert(forall|i: int, k: int|
            0 <= i < d@.nodes.len() && 0 <= k < d@.nodes[i].transfers.len()
                ==> nfa@.alphabet.contains((#[trigger] d@.nodes[i].transfers[k]).cond));
        assert forall|i: int, c: char|
            0 <= i < sets.len() && nfa@.alphabet.contains(c) implies #[trigger] delta_edge_ok(
            d@,
            nfa@,
            sets,
            i,
            c,
        ) by {
            assert(row_complete(dview(dnodes@), nfa@, sets, i));
            assert(delta_edge_ok(dview(dnodes@), nfa@, sets, i, c));
        }
        assert(dfa_simulates(d@, nfa@, sets));
    }
    d
}

impl DFA {
    /// Walks the input symbol by symbol from the start state; fails as soon
    /// as a symbol finds no transition, and accepts when the whole input is
    /// consumed and the walk ends on an End node.
    pub fn match_str(&self, input: &str) -> (r: bool)
        requires
            dfa_wf(self@),
        ensures
            r == dfa_accepts(self@, input@),
    {
        let n = input.unicode_len();
        let total = self.nodes.len();
        let mut cur: usize = 0;
        let mut pos: usize = 0;
        proof {
            assert(input@.skip(0) =~= input@);
        }
        while pos < n
            invariant
                dfa_wf(self@),
                n == input@.len(),
                total == self@.nodes.len(),
                pos <= n,
                cur < self@.nodes.len(),
                dfa_run_from(self@, self@.start as int, input@) == dfa_run_from(
                    self@,
                    cur as int,
                    input@.skip(pos as int),
                ),
            decreases n - pos,
        {
            let c = input.get_char(pos);
            let node = &self.nodes[cur];
            let ghost rest = input@.skip(pos as int);
            proof {
                assert(rest[0] == input@[pos as int]);
                assert(rest.drop_first() =~= input@.skip(pos + 1));
            }
            let mut k: usize = 0;
            let mut found: bool = false;
            let mut nxt: usize = 0;
            while k < node.transfers.len()
                invariant
                    dfa_wf(self@),
                    total == self@.nodes.len(),
                    total <= usize::MAX,
                    cur < self@.nodes.len(),
                    node@ == self@.nodes[cur as int],
                    node.transfers@.len() == self@.nodes[cur as int].transfers.len(),
                    k <= node.transfers@.len(),
                    !found ==> forall|kk: int|
                        0 <= kk < k ==> (#[trigger] self@.nodes[cur as int].transfers[kk]).cond
                            != c,
                    found ==> exists|kk: int|
                        0 <= kk < self@.nodes[cur as int].transfers.len() && (
                        #[trigger] self@.nodes[cur as int].transfers[kk]).cond == c
                            && self@.nodes[cur as int].transfers[kk].to == nxt,
                    found ==> nxt < self@.nodes.len(),
                decreases node.transfers@.len() - k,
            {
                if !found {
                    let tr = &node.transfers[k];
                    if tr.condition == c {
                        found = true;
                        let t64 = tr.to_id;
                        proof {
                            assert(self@.nodes[cur as int].transfers[k as int].to
                                < self@.nodes.len());
                        }
                        nxt = t64 as usize;
                        proof {
                            assert(self@.nodes[cur as int].transfers[k as int].cond == c);
                            assert(self@.nodes[cur as int].transfers[k as int].to == nxt);
                        }
                    }
                }
                k = k + 1;
            }
            if !found {
                proof {
                    assert(!has_trans(self@, cur as int, c));
                    assert(dfa_run_from(self@, cur as int, rest) is None);
                }
                return false;
            }
            proof {
                assert(has_trans(self@, cur as int, c));
                let kk = choose|kk: int|
                    0 <= kk < self@.nodes[cur as int].transfers.len() && (
                    #[trigger] self@.nodes[cur as int].transfers[kk]).cond == c;
                let kw = choose|kw: int|
                    0 <= kw < self@.nodes[cur as int].transfers.len() && (
                    #[trigger] self@.nodes[cur as int].transfers[kw]).cond == c
                        && self@.nodes[cur as int].transfers[kw].to == nxt;
                assert(kk == kw);
                assert(trans_target(self@, cur as int, c) == nxt);
                assert(dfa_run_from(self@, cur as int, rest) == dfa_run_from(
                    self@,
                    nxt as int,
                    input@.skip(pos + 1),
                ));
            }
            cur = nxt;
            pos = pos + 1;
        }
        proof {
            assert(input@.skip(n as int) =~= Seq::<char>::empty());
            assert(dfa_run_from(self@, cur as int, Seq::<char>::empty()) == Some(cur as int));
        }
        let node = &self.nodes[cur];
        match node.node_type {
            FANodeType::End => true,
            FANodeType::Start => false,
            FANodeType::Normal => false,
        }
    }
}

} // verus!
