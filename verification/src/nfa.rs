//! NFA fragments: data model, id allocation and the composition operators.
//!
//! A fragment owns a table of nodes (stored as a vector with pairwise
//! distinct ids), a distinguished start and end node, the alphabet of its
//! transitions, and the tag of the id allocator it was built from.  Two
//! fragments may be combined only when their tags agree; the allocator's
//! monotonic counter keeps the ids of fragments grown from one allocator
//! disjoint, which the combination contracts rely on.

use vstd::prelude::*;

use crate::model::{
    eps_t, ids_distinct, lemma_node_map_append, lemma_node_map_dom, lemma_node_map_index,
    lemma_node_map_push, lemma_node_map_update, node_map, NfaV, NodeV, TransV,
};

verus! {

broadcast use {
    vstd::seq::Seq::lemma_push_to_set_commute,
    vstd::seq_lib::lemma_seq_contains_after_push,
    vstd::seq_lib::lemma_seq_subrange_elements,
    vstd::seq_lib::lemma_seq_contains,
    vstd::seq_lib::seq_to_set_is_finite,
};

/// The role a node plays in its automaton.
#[derive(Debug, Clone, PartialEq, Eq, Structural)]
pub enum FANodeType {
    Start,
    End,
    Normal,
}

/// One NFA transition; `condition` is `None` for an epsilon transition.
#[derive(Debug, Clone)]
pub struct NFATransferInfo {
    pub from_id: u64,
    pub to_id: u64,
    pub condition: Option<char>,
}

impl View for NFATransferInfo {
    type V = TransV;

    open spec fn view(&self) -> TransV {
        TransV { from: self.from_id, to: self.to_id, cond: self.condition }
    }
}

/// One NFA node: its role, its id, and its outgoing transitions.
#[derive(Debug, Clone)]
pub struct NFANode {
    pub node_type: FANodeType,
    pub id: u64,
    pub transfers: Vec<NFATransferInfo>,
}

impl View for NFANode {
    type V = NodeV;

    open spec fn view(&self) -> NodeV {
        NodeV {
            kind: self.node_type,
            id: self.id,
            transfers: self.transfers@.map_values(|t: NFATransferInfo| t@),
        }
    }
}

/// Monotonic source of node ids, shared by every fragment of one expression.
/// The first issued id is 1; 0 is never issued.  Independent expressions use
/// allocators with distinct tags, and fragments are combinable only when
/// their allocators' tags agree.
#[derive(Debug, PartialEq, Eq, Structural)]
pub struct NFAIdAllocator {
    pub index: u64,
    pub tag: u64,
}

impl Default for NFAIdAllocator {
    /// A fresh allocator with tag 0 that has issued no ids yet.
    fn default() -> (r: Self)
        ensures
            r.index == 0,
            r.tag == 0,
    {
        NFAIdAllocator { index: 0, tag: 0 }
    }
}

impl NFAIdAllocator {
    /// A fresh allocator carrying the given tag.
    pub fn new(tag: u64) -> (r: Self)
        ensures
            r.index == 0,
            r.tag == tag,
    {
        NFAIdAllocator { index: 0, tag }
    }

    /// Issues the next id: the counter after incrementing it.
    pub fn next_id(&mut self) -> (r: u64)
        requires
            old(self).index < u64::MAX,
        ensures
            final(self).index == old(self).index + 1,
            final(self).tag == old(self).tag,
            r == final(self).index,
    {
        self.index = self.index + 1;
        self.index
    }
}

/// A (partially built) non-deterministic automaton fragment.
#[derive(Debug, Clone)]
pub struct NFA {
    pub nodes: Vec<NFANode>,
    pub start_id: u64,
    pub end_id: u64,
    pub character_set: Vec<char>,
    pub alloc_tag: u64,
}

/// The abstract images of a fragment's stored nodes, in storage order.
pub open spec fn nodes_v(s: Seq<NFANode>) -> Seq<NodeV> {
    s.map_values(|n: NFANode| n@)
}

/// Well-formedness of one node of the table: it knows its own id, its
/// transitions leave it, lead into the table, and use only alphabet symbols.
pub open spec fn node_ok(m: Map<u64, NodeV>, alphabet: Set<char>, a: u64) -> bool {
    let n = m[a];
    &&& n.id == a
    &&& forall|k: int| 0 <= k < n.transfers.len() ==> (#[trigger] n.transfers[k]).from == a
    &&& forall|k: int|
        0 <= k < n.transfers.len() ==> m.dom().contains((#[trigger] n.transfers[k]).to)
    &&& forall|k: int|
        0 <= k < n.transfers.len() ==> ((#[trigger] n.transfers[k]).cond matches Some(c)
            ==> alphabet.contains(c))
}

impl NfaV {
    /// Well-formedness of a fragment between compositions: the boundary nodes
    /// are in the table, the start is the one Start node, the end the one End
    /// node, every other node is Normal, and each node is internally sound.
    pub open spec fn wf(self) -> bool {
        &&& self.nodes.dom().contains(self.start)
        &&& self.nodes.dom().contains(self.end)
        &&& self.start != self.end
        &&& self.nodes[self.start].kind == FANodeType::Start
        &&& self.nodes[self.end].kind == FANodeType::End
        &&& forall|a: u64|
            #[trigger] self.nodes.dom().contains(a) ==> node_ok(self.nodes, self.alphabet, a)
        &&& forall|a: u64|
            self.nodes.dom().contains(a) && a != self.start && a != self.end
                ==> (#[trigger] self.nodes[a]).kind == FANodeType::Normal
    }

    /// Every id of the table lies in `1 ..= bound`; ids above the allocator's
    /// counter are therefore fresh for this fragment.
    pub open spec fn ids_below(self, bound: u64) -> bool {
        forall|a: u64| #[trigger] self.nodes.dom().contains(a) ==> 1 <= a <= bound
    }
}

impl View for NFA {
    type V = NfaV;

    open spec fn view(&self) -> NfaV {
        NfaV {
            nodes: node_map(nodes_v(self.nodes@)),
            start: self.start_id,
            end: self.end_id,
            alphabet: self.character_set@.to_set(),
            tag: self.alloc_tag,
        }
    }
}

impl NFA {
    /// Representation invariant of the stored vectors: node ids and alphabet
    /// entries are free of duplicates.
    pub open spec fn inv(self) -> bool {
        &&& ids_distinct(nodes_v(self.nodes@))
        &&& self.character_set@.no_duplicates()
    }

    /// A fragment fit for composition, closure queries and determinization.
    pub open spec fn wf(self) -> bool {
        self.inv() && self@.wf()
    }
}

/// The node table of a concatenation: the two tables merged, an epsilon
/// transition added from the left end to the right start, and both of those
/// now-internal boundary nodes retyped to Normal.
pub open spec fn connect_nodes(l: NfaV, r: NfaV) -> Map<u64, NodeV> {
    let merged = l.nodes.union_prefer_right(r.nodes);
    let le = l.nodes[l.end];
    let rs = r.nodes[r.start];
    merged.insert(
        l.end,
        NodeV {
            kind: FANodeType::Normal,
            id: le.id,
            transfers: le.transfers.push(eps_t(l.end, r.start)),
        },
    ).insert(r.start, NodeV { kind: FANodeType::Normal, id: rs.id, transfers: rs.transfers })
}

impl NFA {
    /// Builds the leaf fragment for one symbol: a fresh Start node with a
    /// single transition labelled `c` to a fresh End node.
    pub fn new_nfa_single_character(id_alloc: &mut NFAIdAllocator, c: char) -> (r: NFA)
        requires
            old(id_alloc).index <= u64::MAX - 2,
        ensures
            final(id_alloc).tag == old(id_alloc).tag,
            final(id_alloc).index == old(id_alloc).index + 2,
            r.wf(),
            r@.tag == old(id_alloc).tag,
            r@.start == old(id_alloc).index + 1,
            r@.end == old(id_alloc).index + 2,
            r@.nodes.dom() == set![r@.start, r@.end],
            r@.nodes[r@.start] == (NodeV {
                kind: FANodeType::Start,
                id: r@.start,
                transfers: seq![TransV { from: r@.start, to: r@.end, cond: Some(c) }],
            }),
            r@.nodes[r@.end] == (NodeV {
                kind: FANodeType::End,
                id: r@.end,
                transfers: Seq::<TransV>::empty(),
            }),
            r@.alphabet == set![c],
            r@.ids_below(final(id_alloc).index),
    {
        let id1 = id_alloc.next_id();
        let id2 = id_alloc.next_id();
        let start_node = NFANode {
            node_type: FANodeType::Start,
            id: id1,
            transfers: vec![NFATransferInfo { from_id: id1, to_id: id2, condition: Some(c) }],
        };
        let end_node = NFANode { node_type: FANodeType::End, id: id2, transfers: vec![] };
        let mut nodes: Vec<NFANode> = Vec::new();
        nodes.push(start_node);
        nodes.push(end_node);
        let mut character_set: Vec<char> = Vec::new();
        character_set.push(c);
        let r = NFA { nodes, start_id: id1, end_id: id2, character_set, alloc_tag: id_alloc.tag };
        proof {
            let s = nodes_v(r.nodes@);
            let s0 = s.drop_last();
            assert(s0.drop_last() =~= Seq::<NodeV>::empty());
            assert(node_map(s0.drop_last()) =~~= Map::<u64, NodeV>::empty());
            assert(node_map(s0) =~~= Map::<u64, NodeV>::empty().insert(s0.last().id, s0.last()));
            assert(s0.last() == s[0]);
            assert(s.last() == s[1]);
            assert(node_map(s) =~~= Map::<u64, NodeV>::empty().insert(s[0].id, s[0]).insert(
                s[1].id,
                s[1],
            ));
            assert(r@.nodes.dom() =~= set![id1, id2]);
            assert(r@.alphabet =~= set![c]);
            assert(r@.nodes[id1].transfers =~= seq![TransV { from: id1, to: id2, cond: Some(c) }]);
            assert(r@.nodes[id2].transfers =~= Seq::<TransV>::empty());
        }
        r
    }

    /// Concatenation.  Merges `rhs` into `self`, joining `self`'s end to
    /// `rhs`'s start by an epsilon transition; the combined fragment runs
    /// from `self`'s start to `rhs`'s end and its alphabet is the union.
    /// Fails, touching neither the inputs nor the allocator's counter, if
    /// and only if the two fragments carry different allocator tags.
    pub fn connect(self, rhs: Self) -> (r: Result<Self, ()>)
        requires
            self.wf(),
            rhs.wf(),
            self@.tag == rhs@.tag ==> self@.nodes.dom().disjoint(rhs@.nodes.dom()),
        ensures
            r is Err <==> self@.tag != rhs@.tag,
            r matches Ok(out) ==> {
                &&& out.wf()
                &&& out@.tag == self@.tag
                &&& out@.start == self@.start
                &&& out@.end == rhs@.end
                &&& out@.alphabet == self@.alphabet.union(rhs@.alphabet)
                &&& out@.nodes == connect_nodes(self@, rhs@)
                &&& out@.nodes.dom() == self@.nodes.dom().union(rhs@.nodes.dom())
            },
    {
        if self.alloc_tag != rhs.alloc_tag {
            return Err(());
        }
        let ghost lv = self@;
        let ghost rv = rhs@;
        let ghost lseq = nodes_v(self.nodes@);
        let ghost rseq = nodes_v(rhs.nodes@);
        let mut s = self;
        let mut other = rhs;
        proof {
            lemma_node_map_dom(lseq);
            lemma_node_map_dom(rseq);
        }
        s.nodes.append(&mut other.nodes);
        proof {
            assert(nodes_v(s.nodes@) =~~= lseq + rseq);
            lemma_node_map_append(lseq, rseq);
            assert forall|i: int, j: int|
                0 <= i < lseq.len() && 0 <= j < rseq.len() implies lseq[i].id != rseq[j].id by {
                assert(lv.nodes.dom().contains(lseq[i].id));
                assert(rv.nodes.dom().contains(rseq[j].id));
            }
            assert(ids_distinct(nodes_v(s.nodes@)));
        }
        merge_characters(&mut s.character_set, &other.character_set);
        let ghost merged = lv.nodes.union_prefer_right(rv.nodes);
        proof {
            assert(node_map(nodes_v(s.nodes@)) == merged);
            let i = choose|i: int| 0 <= i < lseq.len() && lseq[i].id == lv.end;
            assert(nodes_v(s.nodes@)[i].id == lv.end);
            assert(s.nodes@[i].id == lv.end);
        }
        let ei = find_node_index(&s.nodes, s.end_id);
        let ghost seq1 = nodes_v(s.nodes@);
        proof {
            lemma_node_map_index(seq1, ei as int);
            assert(!rv.nodes.dom().contains(lv.end));
            assert(merged[lv.end] == lv.nodes[lv.end]);
            assert(seq1[ei as int] == lv.nodes[lv.end]);
        }
        s.nodes[ei].transfers.push(
            NFATransferInfo { from_id: s.end_id, to_id: other.start_id, condition: None },
        );
        s.nodes[ei].node_type = FANodeType::Normal;
        let ghost endv = NodeV {
            kind: FANodeType::Normal,
            id: lv.nodes[lv.end].id,
            transfers: lv.nodes[lv.end].transfers.push(eps_t(lv.end, rv.start)),
        };
        proof {
            assert(nodes_v(s.nodes@) =~~= seq1.update(ei as int, endv));
            lemma_node_map_update(seq1, ei as int, endv);
            assert(node_map(nodes_v(s.nodes@)) == merged.insert(lv.end, endv));
            assert(ids_distinct(nodes_v(s.nodes@)));
            let j = choose|j: int| 0 <= j < rseq.len() && rseq[j].id == rv.start;
            assert(nodes_v(s.nodes@)[lseq.len() + j].id == rv.start);
            assert(s.nodes@[lseq.len() + j].id == rv.start);
        }
        let si = find_node_index(&s.nodes, other.start_id);
        let ghost seq2 = nodes_v(s.nodes@);
        proof {
            lemma_node_map_index(seq2, si as int);
            assert(lv.start != lv.end);
            assert(lv.end != rv.start);
            assert(seq2[si as int] == merged.insert(lv.end, endv)[rv.start]);
            assert(merged[rv.start] == rv.nodes[rv.start]);
        }
        s.nodes[si].node_type = FANodeType::Normal;
        let ghost startv = NodeV {
            kind: FANodeType::Normal,
            id: rv.nodes[rv.start].id,
            transfers: rv.nodes[rv.start].transfers,
        };
        proof {
            assert(nodes_v(s.nodes@) =~~= seq2.update(si as int, startv));
            lemma_node_map_update(seq2, si as int, startv);
        }
        s.end_id = other.end_id;
        let out = s;
        proof {
            assert(out@.nodes =~= connect_nodes(lv, rv));
            assert(out@.nodes.dom() =~= lv.nodes.dom().union(rv.nodes.dom()));
            assert(out@.alphabet =~= lv.alphabet.union(rv.alphabet));
            lemma_connect_wf(lv, rv, out@);
        }
        Ok(out)
    }

    /// Alternation.  Allocates a fresh Start that branches by epsilon to the
    /// two old starts and a fresh End that both old ends reach by epsilon;
    /// the four old boundary nodes become Normal and the alphabet is the
    /// union.  Fails, touching neither the inputs nor the allocator, if and
    /// only if the two fragments carry different allocator tags.
    pub fn or(self, rhs: Self, id_alloc: &mut NFAIdAllocator) -> (r: Result<Self, ()>)
        requires
            self.wf(),
            rhs.wf(),
            self@.tag == old(id_alloc).tag,
            self@.tag == rhs@.tag ==> self@.nodes.dom().disjoint(rhs@.nodes.dom()),
            self@.tag == rhs@.tag ==> self@.ids_below(old(id_alloc).index) && rhs@.ids_below(
                old(id_alloc).index,
            ),
            old(id_alloc).index <= u64::MAX - 2,
        ensures
            r is Err <==> self@.tag != rhs@.tag,
            r is Err ==> *final(id_alloc) == *old(id_alloc),
            r matches Ok(out) ==> {
                &&& final(id_alloc).index == old(id_alloc).index + 2
                &&& final(id_alloc).tag == old(id_alloc).tag
                &&& out.wf()
                &&& out@.tag == self@.tag
                &&& out@.start == old(id_alloc).index + 1
                &&& out@.end == old(id_alloc).index + 2
                &&& out@.alphabet == self@.alphabet.union(rhs@.alphabet)
                &&& out@.nodes == or_nodes(self@, rhs@, out@.start, out@.end)
                &&& out@.nodes.dom() == self@.nodes.dom().union(rhs@.nodes.dom()).insert(
                    out@.start,
                ).insert(out@.end)
                &&& out@.ids_below(final(id_alloc).index)
            },
    {
        if self.alloc_tag != rhs.alloc_tag {
            return Err(());
        }
        let ghost lv = self@;
        let ghost rv = rhs@;
        let ghost lseq = nodes_v(self.nodes@);
        let ghost rseq = nodes_v(rhs.nodes@);
        let mut s = self;
        let mut other = rhs;
        let id1 = id_alloc.next_id();
        let id2 = id_alloc.next_id();
        proof {
            lemma_node_map_dom(lseq);
            lemma_node_map_dom(rseq);
        }
        s.nodes.append(&mut other.nodes);
        proof {
            assert(nodes_v(s.nodes@) =~~= lseq + rseq);
            lemma_node_map_append(lseq, rseq);
            assert forall|i: int, j: int|
                0 <= i < lseq.len() && 0 <= j < rseq.len() implies lseq[i].id != rseq[j].id by {
                assert(lv.nodes.dom().contains(lseq[i].id));
                assert(rv.nodes.dom().contains(rseq[j].id));
            }
            assert(ids_distinct(nodes_v(s.nodes@)));
        }
        merge_characters(&mut s.character_set, &other.character_set);
        let ghost merged = lv.nodes.union_prefer_right(rv.nodes);
        let mut st: Vec<NFATransferInfo> = Vec::new();
        st.push(NFATransferInfo { from_id: id1, to_id: s.start_id, condition: None });
        st.push(NFATransferInfo { from_id: id1, to_id: other.start_id, condition: None });
        let first = NFANode { node_type: FANodeType::Start, id: id1, transfers: st };
        let endn = NFANode { node_type: FANodeType::End, id: id2, transfers: Vec::new() };
        let ghost firstv = NodeV {
            kind: FANodeType::Start,
            id: id1,
            transfers: seq![eps_t(id1, lv.start), eps_t(id1, rv.start)],
        };
        let ghost endv = NodeV { kind: FANodeType::End, id: id2, transfers: Seq::empty() };
        let ghost seq0 = nodes_v(s.nodes@);
        s.nodes.push(first);
        s.nodes.push(endn);
        proof {
            assert(nodes_v(s.nodes@) =~~= seq0.push(firstv).push(endv));
            lemma_node_map_push(seq0, firstv);
            lemma_node_map_push(seq0.push(firstv), endv);
            assert forall|a: u64| #[trigger] merged.dom().contains(a) implies 1 <= a
                <= old(id_alloc).index by {}
            assert(ids_distinct(nodes_v(s.nodes@)));
            let i = choose|i: int| 0 <= i < lseq.len() && lseq[i].id == lv.end;
            assert(nodes_v(s.nodes@)[i].id == lv.end);
            assert(s.nodes@[i].id == lv.end);
        }
        let ghost m0 = merged.insert(id1, firstv).insert(id2, endv);
        let ei = find_node_index(&s.nodes, s.end_id);
        let ghost seq1 = nodes_v(s.nodes@);
        proof {
            lemma_node_map_index(seq1, ei as int);
            assert(seq1[ei as int] == m0[lv.end]);
            assert(m0[lv.end] == lv.nodes[lv.end]);
        }
        s.nodes[ei].transfers.push(
            NFATransferInfo { from_id: s.end_id, to_id: id2, condition: None },
        );
        s.nodes[ei].node_type = FANodeType::Normal;
        let ghost lendv = NodeV {
            kind: FANodeType::Normal,
            id: lv.nodes[lv.end].id,
            transfers: lv.nodes[lv.end].transfers.push(eps_t(lv.end, id2)),
        };
        proof {
            assert(nodes_v(s.nodes@) =~~= seq1.update(ei as int, lendv));
            lemma_node_map_update(seq1, ei as int, lendv);
            assert(ids_distinct(nodes_v(s.nodes@)));
            let j = choose|j: int| 0 <= j < rseq.len() && rseq[j].id == rv.end;
            assert(nodes_v(s.nodes@)[lseq.len() + j].id == rv.end);
            assert(s.nodes@[lseq.len() + j].id == rv.end);
        }
        let rei = find_node_index(&s.nodes, other.end_id);
        let ghost seq2 = nodes_v(s.nodes@);
        proof {
            lemma_node_map_index(seq2, rei as int);
            assert(seq2[rei as int] == m0.insert(lv.end, lendv)[rv.end]);
            assert(m0.insert(lv.end, lendv)[rv.end] == rv.nodes[rv.end]);
        }
        s.nodes[rei].transfers.push(
            NFATransferInfo { from_id: other.end_id, to_id: id2, condition: None },
        );
        s.nodes[rei].node_type = FANodeType::Normal;
        let ghost rendv = NodeV {
            kind: FANodeType::Normal,
            id: rv.nodes[rv.end].id,
            transfers: rv.nodes[rv.end].transfers.push(eps_t(rv.end, id2)),
        };
        proof {
            assert(nodes_v(s.nodes@) =~~= seq2.update(rei as int, rendv));
            lemma_node_map_update(seq2, rei as int, rendv);
            assert(ids_distinct(nodes_v(s.nodes@)));
            let j = choose|j: int| 0 <= j < lseq.len() && lseq[j].id == lv.start;
            assert(nodes_v(s.nodes@)[j].id == lv.start);
            assert(s.nodes@[j].id == lv.start);
        }
        let si = find_node_index(&s.nodes, s.start_id);
        let ghost seq3 = nodes_v(s.nodes@);
        proof {
            lemma_node_map_index(seq3, si as int);
            assert(seq3[si as int] == m0.insert(lv.end, lendv).insert(rv.end, rendv)[lv.start]);
            assert(m0.insert(lv.end, lendv).insert(rv.end, rendv)[lv.start]
                == lv.nodes[lv.start]);
        }
        s.nodes[si].node_type = FANodeType::Normal;
        let ghost lstartv = NodeV {
            kind: FANodeType::Normal,
            id: lv.nodes[lv.start].id,
            transfers: lv.nodes[lv.start].transfers,
        };
        proof {
            assert(nodes_v(s.nodes@) =~~= seq3.update(si as int, lstartv));
            lemma_node_map_update(seq3, si as int, lstartv);
            assert(ids_distinct(nodes_v(s.nodes@)));
            let j = choose|j: int| 0 <= j < rseq.len() && rseq[j].id == rv.start;
            assert(nodes_v(s.nodes@)[lseq.len() + j].id == rv.start);
            assert(s.nodes@[lseq.len() + j].id == rv.start);
        }
        let rsi = find_node_index(&s.nodes, other.start_id);
        let ghost seq4 = nodes_v(s.nodes@);
        proof {
            lemma_node_map_index(seq4, rsi as int);
            assert(seq4[rsi as int] == m0.insert(lv.end, lendv).insert(rv.end, rendv).insert(
                lv.start,
                lstartv,
            )[rv.start]);
        }
        s.nodes[rsi].node_type = FANodeType::Normal;
        let ghost rstartv = NodeV {
            kind: FANodeType::Normal,
            id: rv.nodes[rv.start].id,
            transfers: rv.nodes[rv.start].transfers,
        };
        proof {
            assert(nodes_v(s.nodes@) =~~= seq4.update(rsi as int, rstartv));
            lemma_node_map_update(seq4, rsi as int, rstartv);
        }
        s.start_id = id1;
        s.end_id = id2;
        let out = s;
        proof {
            assert(out@.nodes =~~= or_nodes(lv, rv, id1, id2));
            assert(out@.nodes.dom() =~= lv.nodes.dom().union(rv.nodes.dom()).insert(id1).insert(
                id2,
            ));
            assert(out@.alphabet =~= lv.alphabet.union(rv.alphabet));
            lemma_or_wf(lv, rv, id1, id2, out@);
        }
        Ok(out)
    }
}

/// The alternation of two well-formed fragments with disjoint node tables
/// and fresh boundary ids is well formed.
proof fn lemma_or_wf(lv: NfaV, rv: NfaV, i1: u64, i2: u64, out: NfaV)
    requires
        lv.wf(),
        rv.wf(),
        lv.nodes.dom().disjoint(rv.nodes.dom()),
        !lv.nodes.dom().contains(i1),
        !lv.nodes.dom().contains(i2),
        !rv.nodes.dom().contains(i1),
        !rv.nodes.dom().contains(i2),
        i1 != i2,
        out.nodes == or_nodes(lv, rv, i1, i2),
        out.start == i1,
        out.end == i2,
        out.alphabet == lv.alphabet.union(rv.alphabet),
    ensures
        out.wf(),
{
    let m = out.nodes;
    assert(m.dom() =~= lv.nodes.dom().union(rv.nodes.dom()).insert(i1).insert(i2));
    assert forall|a: u64| #[trigger] m.dom().contains(a) implies node_ok(m, out.alphabet, a) by {
        let n = m[a];
        if a == i1 || a == i2 {
        } else if a == lv.end {
            assert(node_ok(lv.nodes, lv.alphabet, a));
            assert(n.transfers == lv.nodes[a].transfers.push(eps_t(lv.end, i2)));
            assert forall|k: int| 0 <= k < n.transfers.len() implies (#[trigger] n.transfers[k]).from
                == a && m.dom().contains(n.transfers[k].to) && (n.transfers[k].cond matches Some(c)
                ==> out.alphabet.contains(c)) by {
                if k < n.transfers.len() - 1 {
                    assert(n.transfers[k] == lv.nodes[a].transfers[k]);
                }
            }
        } else if a == rv.end {
            assert(node_ok(rv.nodes, rv.alphabet, a));
            assert(n.transfers == rv.nodes[a].transfers.push(eps_t(rv.end, i2)));
            assert forall|k: int| 0 <= k < n.transfers.len() implies (#[trigger] n.transfers[k]).from
                == a && m.dom().contains(n.transfers[k].to) && (n.transfers[k].cond matches Some(c)
                ==> out.alphabet.contains(c)) by {
                if k < n.transfers.len() - 1 {
                    assert(n.transfers[k] == rv.nodes[a].transfers[k]);
                }
            }
        } else if a == lv.start {
            assert(node_ok(lv.nodes, lv.alphabet, a));
            assert(n.transfers == lv.nodes[a].transfers);
        } else if a == rv.start {
            assert(node_ok(rv.nodes, rv.alphabet, a));
            assert(n.transfers == rv.nodes[a].transfers);
        } else if lv.nodes.dom().contains(a) {
            assert(node_ok(lv.nodes, lv.alphabet, a));
            assert(m[a] == lv.nodes[a]);
        } else {
            assert(node_ok(rv.nodes, rv.alphabet, a));
            assert(m[a] == rv.nodes[a]);
        }
    }
    assert forall|a: u64|
        m.dom().contains(a) && a != out.start && a != out.end implies (#[trigger] m[a]).kind
        == FANodeType::Normal by {
        if a != lv.end && a != rv.end && a != lv.start && a != rv.start {
            if lv.nodes.dom().contains(a) {
                assert(m[a] == lv.nodes[a]);
            } else {
                assert(m[a] == rv.nodes[a]);
            }
        }
    }
}

/// The concatenation of two well-formed fragments with disjoint node tables
/// is well formed.
proof fn lemma_connect_wf(lv: NfaV, rv: NfaV, out: NfaV)
    requires
        lv.wf(),
        rv.wf(),
        lv.nodes.dom().disjoint(rv.nodes.dom()),
        out.nodes == connect_nodes(lv, rv),
        out.start == lv.start,
        out.end == rv.end,
        out.alphabet == lv.alphabet.union(rv.alphabet),
    ensures
        out.wf(),
{
    let m = out.nodes;
    assert(m.dom() =~= lv.nodes.dom().union(rv.nodes.dom()));
    assert(m[lv.start] == lv.nodes[lv.start]);
    assert(m[rv.end] == rv.nodes[rv.end]);
    assert forall|a: u64| #[trigger] m.dom().contains(a) implies node_ok(m, out.alphabet, a) by {
        if a == lv.end {
            assert(node_ok(lv.nodes, lv.alphabet, a));
            let n = m[a];
            assert(n.transfers == lv.nodes[a].transfers.push(eps_t(lv.end, rv.start)));
            assert forall|k: int| 0 <= k < n.transfers.len() implies (#[trigger] n.transfers[k]).from
                == a && m.dom().contains(n.transfers[k].to) && (n.transfers[k].cond matches Some(c)
                ==> out.alphabet.contains(c)) by {
                if k < n.transfers.len() - 1 {
                    assert(n.transfers[k] == lv.nodes[a].transfers[k]);
                }
            }
        } else if a == rv.start {
            assert(node_ok(rv.nodes, rv.alphabet, a));
            let n = m[a];
            assert(n.transfers == rv.nodes[a].transfers);
        } else if lv.nodes.dom().contains(a) {
            assert(node_ok(lv.nodes, lv.alphabet, a));
            assert(m[a] == lv.nodes[a]);
        } else {
            assert(node_ok(rv.nodes, rv.alphabet, a));
            assert(m[a] == rv.nodes[a]);
        }
    }
    assert forall|a: u64|
        m.dom().contains(a) && a != out.start && a != out.end implies (#[trigger] m[a]).kind
        == FANodeType::Normal by {
        if a != lv.end && a != rv.start {
            if lv.nodes.dom().contains(a) {
                assert(m[a] == lv.nodes[a]);
            } else {
                assert(m[a] == rv.nodes[a]);
            }
        }
    }
}

/// The node table of an alternation: the two tables merged, a fresh Start
/// node `i1` branching by epsilon to both old starts, both old ends joined
/// by epsilon to a fresh End node `i2`, and all four old boundary nodes
/// retyped to Normal.
pub open spec fn or_nodes(l: NfaV, r: NfaV, i1: u64, i2: u64) -> Map<u64, NodeV> {
    let merged = l.nodes.union_prefer_right(r.nodes);
    merged.insert(
        i1,
        NodeV {
            kind: FANodeType::Start,
            id: i1,
            transfers: seq![eps_t(i1, l.start), eps_t(i1, r.start)],
        },
    ).insert(i2, NodeV { kind: FANodeType::End, id: i2, transfers: Seq::empty() }).insert(
        l.end,
        NodeV {
            kind: FANodeType::Normal,
            id: l.end,
            transfers: l.nodes[l.end].transfers.push(eps_t(l.end, i2)),
        },
    ).insert(
        r.end,
        NodeV {
            kind: FANodeType::Normal,
            id: r.end,
            transfers: r.nodes[r.end].transfers.push(eps_t(r.end, i2)),
        },
    ).insert(
        l.start,
        NodeV { kind: FANodeType::Normal, id: l.start, transfers: l.nodes[l.start].transfers },
    ).insert(
        r.start,
        NodeV { kind: FANodeType::Normal, id: r.start, transfers: r.nodes[r.start].transfers },
    )
}

/// The outgoing transitions of the fresh Start node of a closure operator.
pub open spec fn closure_start_transfers(i1: u64, oldstart: u64, i2: u64, skip: bool) -> Seq<
    TransV,
> {
    if skip {
        seq![eps_t(i1, oldstart), eps_t(i1, i2)]
    } else {
        seq![eps_t(i1, oldstart)]
    }
}

/// The epsilon transitions a closure operator appends to the old end node.
pub open spec fn closure_end_pushes(oldend: u64, oldstart: u64, i2: u64, loop_back: bool) -> Seq<
    TransV,
> {
    if loop_back {
        seq![eps_t(oldend, oldstart), eps_t(oldend, i2)]
    } else {
        seq![eps_t(oldend, i2)]
    }
}

/// The node table after a closure operator with fresh ids `i1` (Start) and
/// `i2` (End).  `skip` adds the epsilon edge new Start -> new End (star and
/// question); `loop_back` adds old end -> old start (star and plus).
pub open spec fn closure_nodes(v: NfaV, i1: u64, i2: u64, skip: bool, loop_back: bool) -> Map<
    u64,
    NodeV,
> {
    let oe = v.nodes[v.end];
    let os = v.nodes[v.start];
    v.nodes.insert(
        v.end,
        NodeV {
            kind: FANodeType::Normal,
            id: oe.id,
            transfers: oe.transfers + closure_end_pushes(v.end, v.start, i2, loop_back),
        },
    ).insert(v.start, NodeV { kind: FANodeType::Normal, id: os.id, transfers: os.transfers })
        .insert(
        i1,
        NodeV {
            kind: FANodeType::Start,
            id: i1,
            transfers: closure_start_transfers(i1, v.start, i2, skip),
        },
    ).insert(i2, NodeV { kind: FANodeType::End, id: i2, transfers: Seq::empty() })
}

/// A closure rewrite of a well-formed fragment with fresh boundary ids is
/// well formed.
proof fn lemma_closure_wf(v: NfaV, i1: u64, i2: u64, skip: bool, loop_back: bool, out: NfaV)
    requires
        v.wf(),
        !v.nodes.dom().contains(i1),
        !v.nodes.dom().contains(i2),
        i1 != i2,
        out.nodes == closure_nodes(v, i1, i2, skip, loop_back),
        out.start == i1,
        out.end == i2,
        out.alphabet == v.alphabet,
    ensures
        out.wf(),
{
    let m = out.nodes;
    assert(m.dom() =~= v.nodes.dom().insert(i1).insert(i2));
    assert forall|a: u64| #[trigger] m.dom().contains(a) implies node_ok(m, out.alphabet, a) by {
        let n = m[a];
        if a == i1 || a == i2 {
        } else if a == v.end {
            assert(node_ok(v.nodes, v.alphabet, a));
            assert(n.transfers == v.nodes[a].transfers + closure_end_pushes(
                v.end,
                v.start,
                i2,
                loop_back,
            ));
            assert forall|k: int| 0 <= k < n.transfers.len() implies (#[trigger] n.transfers[k]).from
                == a && m.dom().contains(n.transfers[k].to) && (n.transfers[k].cond matches Some(c)
                ==> out.alphabet.contains(c)) by {
                if k < v.nodes[a].transfers.len() {
                    assert(n.transfers[k] == v.nodes[a].transfers[k]);
                }
            }
        } else if a == v.start {
            assert(node_ok(v.nodes, v.alphabet, a));
            assert(n.transfers == v.nodes[a].transfers);
        } else {
            assert(node_ok(v.nodes, v.alphabet, a));
            assert(m[a] == v.nodes[a]);
        }
    }
    assert forall|a: u64|
        m.dom().contains(a) && a != out.start && a != out.end implies (#[trigger] m[a]).kind
        == FANodeType::Normal by {
        if a != v.start && a != v.end {
            assert(m[a] == v.nodes[a]);
        }
    }
}

impl NFA {
    /// Shared graph rewrite of the closure operators: allocates a fresh
    /// Start and End, wires them to the old boundary by epsilon transitions
    /// as `skip` and `loop_back` dictate, and retypes the old boundary to
    /// Normal.  The alphabet is unchanged.
    fn closure_rewrite(&mut self, id_alloc: &mut NFAIdAllocator, skip: bool, loop_back: bool)
        requires
            old(self).wf(),
            old(self)@.tag == old(id_alloc).tag,
            old(self)@.ids_below(old(id_alloc).index),
            old(id_alloc).index <= u64::MAX - 2,
        ensures
            final(id_alloc).index == old(id_alloc).index + 2,
            final(id_alloc).tag == old(id_alloc).tag,
            final(self).wf(),
            final(self)@.tag == old(self)@.tag,
            final(self)@.start == old(id_alloc).index + 1,
            final(self)@.end == old(id_alloc).index + 2,
            final(self)@.alphabet == old(self)@.alphabet,
            final(self).character_set@ == old(self).character_set@,
            final(self)@.nodes == closure_nodes(
                old(self)@,
                final(self)@.start,
                final(self)@.end,
                skip,
                loop_back,
            ),
            final(self)@.nodes.dom() == old(self)@.nodes.dom().insert(final(self)@.start).insert(
                final(self)@.end,
            ),
            final(self)@.ids_below(final(id_alloc).index),
    {
        let ghost v = old(self)@;
        let ghost vseq = nodes_v(old(self).nodes@);
        let id1 = id_alloc.next_id();
        let id2 = id_alloc.next_id();
        proof {
            lemma_node_map_dom(vseq);
            let i = choose|i: int| 0 <= i < vseq.len() && vseq[i].id == v.end;
            assert(self.nodes@[i].id == v.end);
        }
        let ei = find_node_index(&self.nodes, self.end_id);
        proof {
            lemma_node_map_index(vseq, ei as int);
            assert(vseq[ei as int] == v.nodes[v.end]);
        }
        if loop_back {
            self.nodes[ei].transfers.push(
                NFATransferInfo { from_id: self.end_id, to_id: self.start_id, condition: None },
            );
        }
        self.nodes[ei].transfers.push(
            NFATransferInfo { from_id: self.end_id, to_id: id2, condition: None },
        );
        self.nodes[ei].node_type = FANodeType::Normal;
        let ghost endv = NodeV {
            kind: FANodeType::Normal,
            id: v.nodes[v.end].id,
            transfers: v.nodes[v.end].transfers + closure_end_pushes(v.end, v.start, id2,
                loop_back),
        };
        proof {
            assert(nodes_v(self.nodes@) =~~= vseq.update(ei as int, endv));
            lemma_node_map_update(vseq, ei as int, endv);
            assert(ids_distinct(nodes_v(self.nodes@)));
        }
        let mut st: Vec<NFATransferInfo> = Vec::new();
        st.push(NFATransferInfo { from_id: id1, to_id: self.start_id, condition: None });
        if skip {
            st.push(NFATransferInfo { from_id: id1, to_id: id2, condition: None });
        }
        let ghost firstv = NodeV {
            kind: FANodeType::Start,
            id: id1,
            transfers: closure_start_transfers(id1, v.start, id2, skip),
        };
        let ghost new_endv = NodeV { kind: FANodeType::End, id: id2, transfers: Seq::empty() };
        let ghost seq1 = nodes_v(self.nodes@);
        self.nodes.push(NFANode { node_type: FANodeType::Start, id: id1, transfers: st });
        self.nodes.push(NFANode { node_type: FANodeType::End, id: id2, transfers: Vec::new() });
        proof {
            assert(nodes_v(self.nodes@) =~~= seq1.push(firstv).push(new_endv));
            lemma_node_map_push(seq1, firstv);
            lemma_node_map_push(seq1.push(firstv), new_endv);
            assert(ids_distinct(nodes_v(self.nodes@)));
            let j = choose|j: int| 0 <= j < vseq.len() && vseq[j].id == v.start;
            assert(nodes_v(self.nodes@)[j].id == v.start);
            assert(self.nodes@[j].id == v.start);
        }
        let si = find_node_index(&self.nodes, self.start_id);
        let ghost seq2 = nodes_v(self.nodes@);
        proof {
            lemma_node_map_index(seq2, si as int);
            assert(seq2[si as int] == v.nodes.insert(v.end, endv).insert(id1, firstv).insert(
                id2,
                new_endv,
            )[v.start]);
            assert(seq2[si as int] == v.nodes[v.start]);
        }
        self.nodes[si].node_type = FANodeType::Normal;
        let ghost startv = NodeV {
            kind: FANodeType::Normal,
            id: v.nodes[v.start].id,
            transfers: v.nodes[v.start].transfers,
        };
        proof {
            assert(nodes_v(self.nodes@) =~~= seq2.update(si as int, startv));
            lemma_node_map_update(seq2, si as int, startv);
        }
        self.start_id = id1;
        self.end_id = id2;
        proof {
            assert(self@.nodes =~~= closure_nodes(v, id1, id2, skip, loop_back));
            assert(self@.nodes.dom() =~= v.nodes.dom().insert(id1).insert(id2));
            lemma_closure_wf(v, id1, id2, skip, loop_back, self@);
        }
    }

    /// Kleene star: zero or more repetitions.  The new Start reaches the old
    /// start and the new End by epsilon; the old end loops back to the old
    /// start and reaches the new End by epsilon.
    pub fn asterisk_closure(&mut self, id_alloc: &mut NFAIdAllocator)
        requires
            old(self).wf(),
            old(self)@.tag == old(id_alloc).tag,
            old(self)@.ids_below(old(id_alloc).index),
            old(id_alloc).index <= u64::MAX - 2,
        ensures
            final(id_alloc).index == old(id_alloc).index + 2,
            final(id_alloc).tag == old(id_alloc).tag,
            final(self).wf(),
            final(self)@.tag == old(self)@.tag,
            final(self)@.start == old(id_alloc).index + 1,
            final(self)@.end == old(id_alloc).index + 2,
            final(self)@.alphabet == old(self)@.alphabet,
            final(self).character_set@ == old(self).character_set@,
            final(self)@.nodes == closure_nodes(
                old(self)@,
                final(self)@.start,
                final(self)@.end,
                true,
                true,
            ),
            final(self)@.nodes.dom() == old(self)@.nodes.dom().insert(final(self)@.start).insert(
                final(self)@.end,
            ),
            final(self)@.ids_below(final(id_alloc).index),
    {
        self.closure_rewrite(id_alloc, true, true)
    }

    /// Plus: one or more repetitions.  As star, but the new Start has no
    /// epsilon shortcut to the new End, so at least one traversal of the
    /// operand is forced.
    pub fn plus_closure(&mut self, id_alloc: &mut NFAIdAllocator)
        requires
            old(self).wf(),
            old(self)@.tag == old(id_alloc).tag,
            old(self)@.ids_below(old(id_alloc).index),
            old(id_alloc).index <= u64::MAX - 2,
        ensures
            final(id_alloc).index == old(id_alloc).index + 2,
            final(id_alloc).tag == old(id_alloc).tag,
            final(self).wf(),
            final(self)@.tag == old(self)@.tag,
            final(self)@.start == old(id_alloc).index + 1,
            final(self)@.end == old(id_alloc).index + 2,
            final(self)@.alphabet == old(self)@.alphabet,
            final(self).character_set@ == old(self).character_set@,
            final(self)@.nodes == closure_nodes(
                old(self)@,
                final(self)@.start,
                final(self)@.end,
                false,
                true,
            ),
            final(self)@.nodes.dom() == old(self)@.nodes.dom().insert(final(self)@.start).insert(
                final(self)@.end,
            ),
            final(self)@.ids_below(final(id_alloc).index),
    {
        self.closure_rewrite(id_alloc, false, true)
    }

    /// Question: zero or one occurrence.  The new Start reaches the old
    /// start and the new End by epsilon; the old end reaches the new End
    /// only, so the operand cannot repeat.
    pub fn question_closure(&mut self, id_alloc: &mut NFAIdAllocator)
        requires
            old(self).wf(),
            old(self)@.tag == old(id_alloc).tag,
            old(self)@.ids_below(old(id_alloc).index),
            old(id_alloc).index <= u64::MAX - 2,
        ensures
            final(id_alloc).index == old(id_alloc).index + 2,
            final(id_alloc).tag == old(id_alloc).tag,
            final(self).wf(),
            final(self)@.tag == old(self)@.tag,
            final(self)@.start == old(id_alloc).index + 1,
            final(self)@.end == old(id_alloc).index + 2,
            final(self)@.alphabet == old(self)@.alphabet,
            final(self).character_set@ == old(self).character_set@,
            final(self)@.nodes == closure_nodes(
                old(self)@,
                final(self)@.start,
                final(self)@.end,
                true,
                false,
            ),
            final(self)@.nodes.dom() == old(self)@.nodes.dom().insert(final(self)@.start).insert(
                final(self)@.end,
            ),
            final(self)@.ids_below(final(id_alloc).index),
    {
        self.closure_rewrite(id_alloc, true, false)
    }
}

/// Whether a character vector holds the given symbol.
pub(crate) fn contains_char(v: &Vec<char>, c: char) -> (r: bool)
    ensures
        r == v@.contains(c),
{
    let mut i: usize = 0;
    while i < v.len()
        invariant
            i <= v@.len(),
            forall|k: int| 0 <= k < i ==> v@[k] != c,
        decreases v@.len() - i,
    {
        if v[i] == c {
            return true;
        }
        i = i + 1;
    }
    false
}

/// The position of the node with the given id in the node vector.
pub(crate) fn find_node_index(nodes: &Vec<NFANode>, id: u64) -> (i: usize)
    requires
        exists|j: int| 0 <= j < nodes@.len() && nodes@[j].id == id,
    ensures
        i < nodes@.len(),
        nodes@[i as int].id == id,
{
    let mut i: usize = 0;
    while i < nodes.len()
        invariant
            i <= nodes@.len(),
            exists|j: int| 0 <= j < nodes@.len() && nodes@[j].id == id,
            forall|k: int| 0 <= k < i ==> nodes@[k].id != id,
        decreases nodes@.len() - i,
    {
        if nodes[i].id == id {
            return i;
        }
        i = i + 1;
    }
    proof {
        let j = choose|j: int| 0 <= j < nodes@.len() && nodes@[j].id == id;
        assert(false);
    }
    0
}

/// Appends to `dst` every symbol of `src` that it does not yet hold.
pub(crate) fn merge_characters(dst: &mut Vec<char>, src: &Vec<char>)
    requires
        old(dst)@.no_duplicates(),
    ensures
        final(dst)@.no_duplicates(),
        final(dst)@.to_set() == old(dst)@.to_set().union(src@.to_set()),
{
    let mut i: usize = 0;
    while i < src.len()
        invariant
            i <= src@.len(),
            dst@.no_duplicates(),
            dst@.to_set() == old(dst)@.to_set().union(src@.subrange(0, i as int).to_set()),
        decreases src@.len() - i,
    {
        let ghost prev = dst@;
        let c = src[i];
        if !contains_char(dst, c) {
            dst.push(c);
        }
        proof {
            assert(src@.subrange(0, i + 1) =~= src@.subrange(0, i as int).push(src@[i as int]));
            if prev.contains(c) {
                assert(dst@.to_set() =~= old(dst)@.to_set().union(
                    src@.subrange(0, i + 1).to_set(),
                ));
            } else {
                assert(dst@ == prev.push(c));
                assert(dst@.to_set() =~= old(dst)@.to_set().union(
                    src@.subrange(0, i + 1).to_set(),
                ));
            }
        }
        i = i + 1;
    }
    proof {
        assert(src@.subrange(0, src@.len() as int) =~= src@);
    }
}

} // verus!
