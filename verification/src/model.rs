//! Mathematical model of automaton graphs.
//!
//! An automaton is modelled as a finite map from node id to an abstract node
//! record; the executable types store their nodes in a vector and are related
//! to the model through `node_map`.

use vstd::prelude::*;

use crate::nfa::FANodeType;

verus! {

/// Abstract image of one transition: source id, target id, and the condition
/// (`None` stands for an epsilon transition).
pub struct TransV {
    pub from: u64,
    pub to: u64,
    pub cond: Option<char>,
}

/// Abstract image of one NFA node.
#[verifier::ext_equal]
pub struct NodeV {
    pub kind: FANodeType,
    pub id: u64,
    pub transfers: Seq<TransV>,
}

/// Abstract image of a whole fragment: node table, boundary ids, alphabet and
/// the tag of the allocator the fragment was built from.
#[verifier::ext_equal]
pub struct NfaV {
    pub nodes: Map<u64, NodeV>,
    pub start: u64,
    pub end: u64,
    pub alphabet: Set<char>,
    pub tag: u64,
}

/// An epsilon transition record.
pub open spec fn eps_t(from: u64, to: u64) -> TransV {
    TransV { from, to, cond: None }
}

/// The node table induced by a sequence of node records, keyed by id.
/// Later entries win, but the sequences used here always carry distinct ids.
pub open spec fn node_map(s: Seq<NodeV>) -> Map<u64, NodeV>
    decreases s.len(),
{
    if s.len() == 0 {
        Map::empty()
    } else {
        node_map(s.drop_last()).insert(s.last().id, s.last())
    }
}

/// Whether the ids of a node sequence are pairwise distinct.
pub open spec fn ids_distinct(s: Seq<NodeV>) -> bool {
    forall|i: int, j: int| 0 <= i < j < s.len() ==> s[i].id != s[j].id
}

/// Every listed node is present in the induced table, and the table holds
/// nothing else; the table is finite and no larger than the sequence.
pub proof fn lemma_node_map_dom(s: Seq<NodeV>)
    ensures
        forall|i: int| 0 <= i < s.len() ==> node_map(s).dom().contains(#[trigger] s[i].id),
        forall|x: u64|
            #[trigger] node_map(s).dom().contains(x) ==> exists|i: int|
                0 <= i < s.len() && s[i].id == x,
        node_map(s).dom().finite(),
        node_map(s).dom().len() <= s.len(),
    decreases s.len(),
{
    if s.len() > 0 {
        lemma_node_map_dom(s.drop_last());
        assert forall|i: int| 0 <= i < s.len() implies node_map(s).dom().contains(
            #[trigger] s[i].id,
        ) by {
            if i < s.len() - 1 {
                assert(s.drop_last()[i] == s[i]);
            }
        }
        assert forall|x: u64| #[trigger] node_map(s).dom().contains(x) implies exists|i: int|
            0 <= i < s.len() && s[i].id == x by {
            if x == s.last().id {
                assert(s[s.len() - 1].id == x);
            } else {
                let i = choose|i: int| 0 <= i < s.len() - 1 && s.drop_last()[i].id == x;
                assert(s[i].id == x);
            }
        }
    }
}

/// With distinct ids, looking a listed id up in the table gives that record.
pub proof fn lemma_node_map_index(s: Seq<NodeV>, i: int)
    requires
        ids_distinct(s),
        0 <= i < s.len(),
    ensures
        node_map(s).dom().contains(s[i].id),
        node_map(s)[s[i].id] == s[i],
    decreases s.len(),
{
    lemma_node_map_dom(s);
    if i < s.len() - 1 {
        assert(ids_distinct(s.drop_last()));
        assert(s.drop_last()[i] == s[i]);
        lemma_node_map_index(s.drop_last(), i);
        assert(s[i].id != s.last().id);
    }
}

/// Replacing one record, keeping its id, updates the table at that id alone.
pub proof fn lemma_node_map_update(s: Seq<NodeV>, i: int, n: NodeV)
    requires
        ids_distinct(s),
        0 <= i < s.len(),
        n.id == s[i].id,
    ensures
        node_map(s.update(i, n)) == node_map(s).insert(n.id, n),
    decreases s.len(),
{
    let t = s.update(i, n);
    if i == s.len() - 1 {
        assert(t.drop_last() =~= s.drop_last());
        assert(t.last() == n);
        assert(node_map(t) == node_map(s.drop_last()).insert(n.id, n));
        assert(node_map(s.drop_last()).insert(s.last().id, s.last()).insert(n.id, n)
            =~= node_map(s.drop_last()).insert(n.id, n));
    } else {
        assert(t.drop_last() =~= s.drop_last().update(i, n));
        assert(t.last() == s.last());
        assert(ids_distinct(s.drop_last()));
        assert(s.drop_last()[i] == s[i]);
        lemma_node_map_update(s.drop_last(), i, n);
        assert(s.last().id != n.id);
        assert(node_map(s.drop_last()).insert(n.id, n).insert(s.last().id, s.last())
            =~= node_map(s.drop_last()).insert(s.last().id, s.last()).insert(n.id, n));
    }
}

/// Appending one record inserts it into the table.
pub proof fn lemma_node_map_push(s: Seq<NodeV>, n: NodeV)
    ensures
        node_map(s.push(n)) == node_map(s).insert(n.id, n),
{
    assert(s.push(n).drop_last() =~= s);
    assert(s.push(n).last() == n);
}

/// Concatenating two sequences merges the two tables, the right one winning.
pub proof fn lemma_node_map_append(s1: Seq<NodeV>, s2: Seq<NodeV>)
    ensures
        node_map(s1 + s2) == node_map(s1).union_prefer_right(node_map(s2)),
    decreases s2.len(),
{
    if s2.len() == 0 {
        assert(s1 + s2 =~= s1);
        assert(node_map(s1).union_prefer_right(node_map(s2)) =~= node_map(s1));
    } else {
        lemma_node_map_append(s1, s2.drop_last());
        assert((s1 + s2).drop_last() =~= s1 + s2.drop_last());
        assert((s1 + s2).last() == s2.last());
        assert(node_map(s1).union_prefer_right(node_map(s2.drop_last())).insert(
            s2.last().id,
            s2.last(),
        ) =~= node_map(s1).union_prefer_right(node_map(s2)));
    }
}

/// Two to the power `n`.
pub open spec fn two_to(n: nat) -> nat
    decreases n,
{
    if n == 0 {
        1
    } else {
        2 * two_to((n - 1) as nat)
    }
}

/// Removing a common member from every set of a family keeps the family's
/// size: the removal is injective on sets that all contain the member.
proof fn lemma_family_remove_len(ss: Set<Set<u64>>, x: u64)
    requires
        ss.finite(),
        forall|s: Set<u64>| #[trigger] ss.contains(s) ==> s.contains(x),
    ensures
        ss.map(|s: Set<u64>| s.remove(x)).finite(),
        ss.map(|s: Set<u64>| s.remove(x)).len() == ss.len(),
    decreases ss.len(),
{
    let f = |s: Set<u64>| s.remove(x);
    if ss.len() == 0 {
        ss.lemma_len0_is_empty();
        assert(ss.map(f) =~= Set::<Set<u64>>::empty());
    } else {
        let s0 = ss.choose();
        assert(ss.contains(s0));
        let rest = ss.remove(s0);
        lemma_family_remove_len(rest, x);
        assert(ss.map(f) =~= rest.map(f).insert(f(s0))) by {
            assert forall|t: Set<u64>| ss.map(f).contains(t) implies rest.map(f).insert(
                f(s0),
            ).contains(t) by {
                let s = choose|s: Set<u64>| ss.contains(s) && t == f(s);
                if s != s0 {
                    assert(rest.contains(s));
                }
            }
            assert forall|t: Set<u64>|
                rest.map(f).insert(f(s0)).contains(t) implies ss.map(f).contains(t) by {
                if t == f(s0) {
                    assert(ss.contains(s0) && t == f(s0));
                } else {
                    let s = choose|s: Set<u64>| rest.contains(s) && t == f(s);
                    assert(ss.contains(s) && t == f(s));
                }
            }
        }
        assert(!rest.map(f).contains(f(s0))) by {
            if rest.map(f).contains(f(s0)) {
                let s = choose|s: Set<u64>| rest.contains(s) && f(s0) == f(s);
                assert(s.contains(x) && s0.contains(x));
                assert(s =~= s0);
            }
        }
    }
}

/// A family of pairwise-distinct subsets of a finite set `d` has at most
/// `two_to(d.len())` members.
pub proof fn lemma_subsets_bound(d: Set<u64>, ss: Set<Set<u64>>)
    requires
        d.finite(),
        ss.finite(),
        forall|s: Set<u64>| #[trigger] ss.contains(s) ==> s.subset_of(d),
    ensures
        ss.len() <= two_to(d.len()),
    decreases d.len(),
{
    if d.len() == 0 {
        d.lemma_len0_is_empty();
        assert forall|s: Set<u64>| ss.contains(s) implies set![Set::<u64>::empty()].contains(
            s,
        ) by {
            assert(s =~= Set::<u64>::empty());
        }
        vstd::set_lib::lemma_len_subset(ss, set![Set::<u64>::empty()]);
        assert(set![Set::<u64>::empty()].len() == 1);
    } else {
        let x = d.choose();
        assert(d.contains(x));
        let d1 = d.remove(x);
        let ss_out = Set::new(|s: Set<u64>| ss.contains(s) && !s.contains(x));
        let ss_in = Set::new(|s: Set<u64>| ss.contains(s) && s.contains(x));
        assert(ss_out.subset_of(ss));
        assert(ss_in.subset_of(ss));
        vstd::set_lib::lemma_len_subset(ss_out, ss);
        vstd::set_lib::lemma_len_subset(ss_in, ss);
        assert forall|s: Set<u64>| #[trigger] ss_out.contains(s) implies s.subset_of(d1) by {}
        lemma_subsets_bound(d1, ss_out);
        let f = |s: Set<u64>| s.remove(x);
        let g = ss_in.map(f);
        lemma_family_remove_len(ss_in, x);
        assert forall|t: Set<u64>| #[trigger] g.contains(t) implies t.subset_of(d1) by {
            let s = choose|s: Set<u64>| ss_in.contains(s) && t == f(s);
        }
        lemma_subsets_bound(d1, g);
        assert(ss =~= ss_in.union(ss_out));
        vstd::set_lib::lemma_len_union(ss_in, ss_out);
        assert(two_to(d.len()) == 2 * two_to(d1.len()));
    }
}

} // verus!
