//! The language of a fragment, and laws of the composition operators.
//!
//! A fragment accepts a string when some run — a path through its graph whose
//! labels, epsilon steps dropped, spell the string — leads from its start
//! node to its end node.  The laws below relate the languages of composed
//! fragments to the languages of their operands, stated over the exact node
//! tables that the composition contracts pin down.

use vstd::prelude::*;

use crate::closure::{eclose, eps_edge, eps_reach, is_eps_path};
use crate::dfa::{dfa_accepts, dfa_run_from, dfa_simulates, DfaV};
use crate::model::{eps_t, NfaV, NodeV, TransV};
use crate::nfa::FANodeType;
use crate::nfa::{closure_end_pushes, closure_nodes, connect_nodes, or_nodes};

verus! {

/// One transition from `a` to `b` labelled `lab` (`None`: epsilon).
pub open spec fn edge_labelled(m: Map<u64, NodeV>, a: u64, b: u64, lab: Option<char>) -> bool {
    &&& m.dom().contains(a)
    &&& exists|k: int|
        0 <= k < m[a].transfers.len() && (#[trigger] m[a].transfers[k]).to == b
            && m[a].transfers[k].cond == lab
}

/// `states` is a walk through the graph whose steps carry `labels`.
pub open spec fn is_run(m: Map<u64, NodeV>, states: Seq<u64>, labels: Seq<Option<char>>) -> bool {
    &&& states.len() == labels.len() + 1
    &&& forall|i: int|
        0 <= i < labels.len() ==> edge_labelled(m, states[i], states[i + 1], #[trigger] labels[i])
}

/// The word a label sequence spells: its symbols in order, epsilon steps
/// dropped.
pub open spec fn word_of(labels: Seq<Option<char>>) -> Seq<char>
    decreases labels.len(),
{
    if labels.len() == 0 {
        Seq::empty()
    } else {
        match labels.first() {
            Some(c) => seq![c] + word_of(labels.drop_first()),
            None => word_of(labels.drop_first()),
        }
    }
}

/// The fragment accepts `s`: some run from its start node to its end node
/// spells exactly `s`.
pub open spec fn nfa_accepts(v: NfaV, s: Seq<char>) -> bool {
    exists|states: Seq<u64>, labels: Seq<Option<char>>|
        #[trigger] is_run(v.nodes, states, labels) && states.first() == v.start && states.last()
            == v.end && word_of(labels) == s
}

/// Two fragments over one graph with the same boundary accept the same
/// strings.
pub proof fn lemma_accepts_same_graph(x: NfaV, y: NfaV, s: Seq<char>)
    requires
        x.nodes == y.nodes,
        x.start == y.start,
        x.end == y.end,
    ensures
        nfa_accepts(x, s) == nfa_accepts(y, s),
{
    if nfa_accepts(x, s) {
        let (states, labels): (Seq<u64>, Seq<Option<char>>) = choose|
            states: Seq<u64>,
            labels: Seq<Option<char>>,
        |
            #[trigger] is_run(x.nodes, states, labels) && states.first() == x.start
                && states.last() == x.end && word_of(labels) == s;
        assert(is_run(y.nodes, states, labels));
    }
    if nfa_accepts(y, s) {
        let (states, labels): (Seq<u64>, Seq<Option<char>>) = choose|
            states: Seq<u64>,
            labels: Seq<Option<char>>,
        |
            #[trigger] is_run(y.nodes, states, labels) && states.first() == y.start
                && states.last() == y.end && word_of(labels) == s;
        assert(is_run(x.nodes, states, labels));
    }
}

/// Two fragments whose graphs carry the same labelled edges and whose
/// boundaries agree accept the same strings.
pub proof fn lemma_accepts_same_edges(x: NfaV, y: NfaV, s: Seq<char>)
    requires
        forall|a: u64, b: u64, lab: Option<char>|
            edge_labelled(x.nodes, a, b, lab) <==> #[trigger] edge_labelled(y.nodes, a, b, lab),
        x.start == y.start,
        x.end == y.end,
    ensures
        nfa_accepts(x, s) == nfa_accepts(y, s),
{
    if nfa_accepts(x, s) {
        let (states, labels): (Seq<u64>, Seq<Option<char>>) = choose|
            states: Seq<u64>,
            labels: Seq<Option<char>>,
        |
            #[trigger] is_run(x.nodes, states, labels) && states.first() == x.start
                && states.last() == x.end && word_of(labels) == s;
        assert forall|i: int| 0 <= i < labels.len() implies edge_labelled(
            y.nodes,
            states[i],
            states[i + 1],
            #[trigger] labels[i],
        ) by {
            assert(edge_labelled(x.nodes, states[i], states[i + 1], labels[i]));
        }
        assert(is_run(y.nodes, states, labels));
    }
    if nfa_accepts(y, s) {
        let (states, labels): (Seq<u64>, Seq<Option<char>>) = choose|
            states: Seq<u64>,
            labels: Seq<Option<char>>,
        |
            #[trigger] is_run(y.nodes, states, labels) && states.first() == y.start
                && states.last() == y.end && word_of(labels) == s;
        assert forall|i: int| 0 <= i < labels.len() implies edge_labelled(
            x.nodes,
            states[i],
            states[i + 1],
            #[trigger] labels[i],
        ) by {
            assert(edge_labelled(y.nodes, states[i], states[i + 1], labels[i]));
        }
        assert(is_run(x.nodes, states, labels));
    }
}

/// Concatenation is associative: combining three fragments left-to-right or
/// right-to-left yields one and the same graph, and so one and the same
/// accepted language.
pub proof fn lemma_connect_associative(
    e1: NfaV,
    e2: NfaV,
    e3: NfaV,
    x12: NfaV,
    l: NfaV,
    y23: NfaV,
    r: NfaV,
    s: Seq<char>,
)
    requires
        e1.wf(),
        e2.wf(),
        e3.wf(),
        e1.nodes.dom().disjoint(e2.nodes.dom()),
        e1.nodes.dom().disjoint(e3.nodes.dom()),
        e2.nodes.dom().disjoint(e3.nodes.dom()),
        x12.nodes == connect_nodes(e1, e2),
        x12.start == e1.start,
        x12.end == e2.end,
        l.nodes == connect_nodes(x12, e3),
        l.start == x12.start,
        l.end == e3.end,
        y23.nodes == connect_nodes(e2, e3),
        y23.start == e2.start,
        y23.end == e3.end,
        r.nodes == connect_nodes(e1, y23),
        r.start == e1.start,
        r.end == y23.end,
    ensures
        l.nodes == r.nodes,
        l.start == r.start,
        l.end == r.end,
        nfa_accepts(l, s) == nfa_accepts(r, s),
{
    assert(l.nodes =~~= r.nodes) by {
        assert forall|a: u64| true implies #[trigger] l.nodes.contains_key(a) == r.nodes.contains_key(
            a,
        ) && (l.nodes.contains_key(a) ==> l.nodes[a] == r.nodes[a]) by {
            assert(e1.nodes[e1.end].id == e1.end);
            assert(e2.nodes[e2.end].id == e2.end);
            assert(e2.nodes[e2.start].id == e2.start);
            assert(e3.nodes[e3.start].id == e3.start);
        }
    }
    lemma_accepts_same_graph(l, r, s);
}

/// Alternation is commutative: the two orders produce graphs with the same
/// labelled edges (the fresh start's two epsilon branches merely swap), and
/// so accept the same strings.
pub proof fn lemma_or_commutative(
    e1: NfaV,
    e2: NfaV,
    i1: u64,
    i2: u64,
    x: NfaV,
    y: NfaV,
    s: Seq<char>,
)
    requires
        e1.wf(),
        e2.wf(),
        e1.nodes.dom().disjoint(e2.nodes.dom()),
        !e1.nodes.dom().contains(i1),
        !e1.nodes.dom().contains(i2),
        !e2.nodes.dom().contains(i1),
        !e2.nodes.dom().contains(i2),
        i1 != i2,
        x.nodes == or_nodes(e1, e2, i1, i2),
        x.start == i1,
        x.end == i2,
        y.nodes == or_nodes(e2, e1, i1, i2),
        y.start == i1,
        y.end == i2,
    ensures
        nfa_accepts(x, s) == nfa_accepts(y, s),
{
    assert(x.nodes.dom() =~= y.nodes.dom());
    assert forall|a: u64| x.nodes.dom().contains(a) && a != i1 implies #[trigger] x.nodes[a]
        == y.nodes[a] by {
        assert(e1.nodes[e1.end].id == e1.end);
        assert(e2.nodes[e2.end].id == e2.end);
    }
    assert forall|a: u64, b: u64, lab: Option<char>|
        edge_labelled(x.nodes, a, b, lab) <==> #[trigger] edge_labelled(y.nodes, a, b, lab) by {
        if a == i1 {
            assert(x.nodes[i1].transfers =~= seq![eps_t(i1, e1.start), eps_t(i1, e2.start)]);
            assert(y.nodes[i1].transfers =~= seq![eps_t(i1, e2.start), eps_t(i1, e1.start)]);
            if edge_labelled(x.nodes, a, b, lab) {
                let k = choose|k: int|
                    0 <= k < x.nodes[a].transfers.len() && (#[trigger] x.nodes[a].transfers[k]).to
                        == b && x.nodes[a].transfers[k].cond == lab;
                assert(y.nodes[a].transfers[1 - k] == x.nodes[a].transfers[k]);
            }
            if edge_labelled(y.nodes, a, b, lab) {
                let k = choose|k: int|
                    0 <= k < y.nodes[a].transfers.len() && (#[trigger] y.nodes[a].transfers[k]).to
                        == b && y.nodes[a].transfers[k].cond == lab;
                assert(x.nodes[a].transfers[1 - k] == y.nodes[a].transfers[k]);
            }
        }
    }
    lemma_accepts_same_edges(x, y, s);
}

/// Star and question accept the empty string: their fresh Start reaches the
/// fresh End by one epsilon step.
pub proof fn lemma_closure_skip_accepts_empty(
    v: NfaV,
    i1: u64,
    i2: u64,
    loop_back: bool,
    r: NfaV,
)
    requires
        v.wf(),
        !v.nodes.dom().contains(i1),
        !v.nodes.dom().contains(i2),
        i1 != i2,
        r.nodes == closure_nodes(v, i1, i2, true, loop_back),
        r.start == i1,
        r.end == i2,
    ensures
        nfa_accepts(r, Seq::<char>::empty()),
{
    let states: Seq<u64> = seq![i1, i2];
    let labels: Seq<Option<char>> = seq![None];
    assert(r.nodes[i1].transfers =~= seq![eps_t(i1, v.start), eps_t(i1, i2)]);
    assert(r.nodes[i1].transfers[1] == eps_t(i1, i2));
    assert(r.nodes.dom().contains(i1));
    assert(edge_labelled(r.nodes, i1, i2, None));
    assert(is_run(r.nodes, states, labels));
    assert(labels.drop_first() =~= Seq::<Option<char>>::empty());
    assert(word_of(Seq::<Option<char>>::empty()) =~= Seq::<char>::empty());
    assert(word_of(labels) =~= Seq::<char>::empty());
    assert(states.first() == r.start && states.last() == r.end);
}

/// The word of a concatenation of label sequences is the concatenation of
/// their words.
pub proof fn lemma_word_of_append(a: Seq<Option<char>>, b: Seq<Option<char>>)
    ensures
        word_of(a + b) == word_of(a) + word_of(b),
    decreases a.len(),
{
    if a.len() == 0 {
        assert(a + b =~= b);
        assert(word_of(a) + word_of(b) =~= word_of(b));
    } else {
        lemma_word_of_append(a.drop_first(), b);
        assert((a + b).drop_first() =~= a.drop_first() + b);
        assert((a + b).first() == a.first());
        match a.first() {
            Some(c) => {
                assert(word_of(a + b) == seq![c] + (word_of(a.drop_first()) + word_of(b)));
                assert(seq![c] + (word_of(a.drop_first()) + word_of(b)) =~= (seq![c] + word_of(
                    a.drop_first(),
                )) + word_of(b));
            },
            None => {},
        }
    }
}

/// Every closure operator keeps the operand's language: a run of the operand
/// embeds between the fresh Start and the fresh End through two epsilon
/// steps.
pub proof fn lemma_closure_accepts_operand(
    v: NfaV,
    i1: u64,
    i2: u64,
    skip: bool,
    loop_back: bool,
    r: NfaV,
    s: Seq<char>,
)
    requires
        v.wf(),
        !v.nodes.dom().contains(i1),
        !v.nodes.dom().contains(i2),
        i1 != i2,
        r.nodes == closure_nodes(v, i1, i2, skip, loop_back),
        r.start == i1,
        r.end == i2,
        nfa_accepts(v, s),
    ensures
        nfa_accepts(r, s),
{
    let (states, labels): (Seq<u64>, Seq<Option<char>>) = choose|
        states: Seq<u64>,
        labels: Seq<Option<char>>,
    |
        #[trigger] is_run(v.nodes, states, labels) && states.first() == v.start && states.last()
            == v.end && word_of(labels) == s;
    let states2 = seq![i1] + states + seq![i2];
    let labels2 = seq![Option::<char>::None] + labels + seq![Option::<char>::None];
    assert(states2.len() == labels2.len() + 1);
    assert(r.nodes[i1].transfers[0] == eps_t(i1, v.start));
    assert(r.nodes.dom().contains(i1));
    let oldend = v.nodes[v.end];
    let pushes = closure_end_pushes(v.end, v.start, i2, loop_back);
    assert(r.nodes[v.end].transfers =~= oldend.transfers + pushes);
    let pk = oldend.transfers.len() + if loop_back { 1int } else { 0int };
    assert(r.nodes[v.end].transfers[pk] == eps_t(v.end, i2));
    assert(r.nodes.dom().contains(v.end));
    assert forall|i: int| 0 <= i < labels2.len() implies edge_labelled(
        r.nodes,
        states2[i],
        states2[i + 1],
        #[trigger] labels2[i],
    ) by {
        if i == 0 {
            assert(states2[0] == i1 && states2[1] == states[0]);
            assert(states[0] == v.start);
            assert(labels2[0] is None);
            assert(edge_labelled(r.nodes, i1, v.start, None));
        } else if i < labels2.len() - 1 {
            assert(states2[i] == states[i - 1] && states2[i + 1] == states[i]);
            assert(labels2[i] == labels[i - 1]);
            assert(edge_labelled(v.nodes, states[i - 1], states[i], labels[i - 1]));
            let a = states[i - 1];
            let k = choose|k: int|
                0 <= k < v.nodes[a].transfers.len() && (#[trigger] v.nodes[a].transfers[k]).to
                    == states[i] && v.nodes[a].transfers[k].cond == labels[i - 1];
            assert(r.nodes.dom().contains(a));
            if a == v.end {
                assert(r.nodes[a].transfers[k] == v.nodes[a].transfers[k]);
            } else if a == v.start {
                assert(r.nodes[a].transfers == v.nodes[a].transfers);
            } else {
                assert(r.nodes[a] == v.nodes[a]);
            }
            assert(edge_labelled(r.nodes, states2[i], states2[i + 1], labels2[i]));
        } else {
            assert(states2[i] == states.last() && states2[i + 1] == i2);
            assert(states.last() == v.end);
            assert(labels2[i] is None);
            assert(edge_labelled(r.nodes, v.end, i2, None));
        }
    }
    assert(is_run(r.nodes, states2, labels2));
    lemma_word_of_append(seq![Option::<char>::None] + labels, seq![Option::<char>::None]);
    lemma_word_of_append(seq![Option::<char>::None], labels);
    assert((seq![Option::<char>::None] + labels) + seq![Option::<char>::None] =~= labels2);
    assert(seq![Option::<char>::None].drop_first() =~= Seq::<Option<char>>::empty());
    assert(word_of(Seq::<Option<char>>::empty()) =~= Seq::<char>::empty());
    assert(word_of(seq![Option::<char>::None]) =~= Seq::<char>::empty());
    assert(word_of(labels2) =~= word_of(labels));
    assert(states2.first() == r.start && states2.last() == r.end);
}

/// Star and plus accept the concatenation of any two strings of the
/// operand's language: the loop edge from the old end back to the old start
/// joins the two runs.
pub proof fn lemma_closure_accepts_concat(
    v: NfaV,
    i1: u64,
    i2: u64,
    skip: bool,
    r: NfaV,
    s1: Seq<char>,
    s2: Seq<char>,
)
    requires
        v.wf(),
        !v.nodes.dom().contains(i1),
        !v.nodes.dom().contains(i2),
        i1 != i2,
        r.nodes == closure_nodes(v, i1, i2, skip, true),
        r.start == i1,
        r.end == i2,
        nfa_accepts(v, s1),
        nfa_accepts(v, s2),
    ensures
        nfa_accepts(r, s1 + s2),
{
    let m = v.nodes;
    let (st1, lb1): (Seq<u64>, Seq<Option<char>>) = choose|
        st1: Seq<u64>,
        lb1: Seq<Option<char>>,
    |
        #[trigger] is_run(m, st1, lb1) && st1.first() == v.start && st1.last() == v.end
            && word_of(lb1) == s1;
    let (st2, lb2): (Seq<u64>, Seq<Option<char>>) = choose|
        st2: Seq<u64>,
        lb2: Seq<Option<char>>,
    |
        #[trigger] is_run(m, st2, lb2) && st2.first() == v.start && st2.last() == v.end
            && word_of(lb2) == s2;
    let none1: Seq<Option<char>> = seq![Option::<char>::None];
    let states = seq![i1] + st1 + st2 + seq![i2];
    let labels = none1 + lb1 + none1 + lb2 + none1;
    let n1 = lb1.len() as int;
    let n2 = lb2.len() as int;
    assert(states.len() == labels.len() + 1);
    assert(r.nodes[i1].transfers[0] == eps_t(i1, v.start));
    assert(r.nodes.dom().contains(i1));
    let oldend = v.nodes[v.end];
    let pushes = closure_end_pushes(v.end, v.start, i2, true);
    assert(r.nodes[v.end].transfers =~= oldend.transfers + pushes);
    let back = oldend.transfers.len() as int;
    assert(r.nodes[v.end].transfers[back] == eps_t(v.end, v.start));
    assert(r.nodes[v.end].transfers[back + 1] == eps_t(v.end, i2));
    assert(r.nodes.dom().contains(v.end));
    assert forall|a: u64, b: u64, lab: Option<char>|
        #[trigger] edge_labelled(m, a, b, lab) implies edge_labelled(r.nodes, a, b, lab) by {
        let k = choose|k: int|
            0 <= k < m[a].transfers.len() && (#[trigger] m[a].transfers[k]).to == b
                && m[a].transfers[k].cond == lab;
        assert(r.nodes.dom().contains(a));
        if a == v.end {
            assert(r.nodes[a].transfers[k] == m[a].transfers[k]);
        } else if a == v.start {
            assert(r.nodes[a].transfers == m[a].transfers);
        } else {
            assert(r.nodes[a] == m[a]);
        }
    }
    assert forall|i: int| 0 <= i < labels.len() implies edge_labelled(
        r.nodes,
        states[i],
        states[i + 1],
        #[trigger] labels[i],
    ) by {
        if i == 0 {
            assert(states[0] == i1 && states[1] == st1[0] && st1[0] == v.start);
            assert(labels[0] is None);
            assert(edge_labelled(r.nodes, i1, v.start, None));
        } else if i <= n1 {
            assert(states[i] == st1[i - 1] && states[i + 1] == st1[i]);
            assert(labels[i] == lb1[i - 1]);
            assert(edge_labelled(m, st1[i - 1], st1[i], lb1[i - 1]));
        } else if i == n1 + 1 {
            assert(states[i] == st1[n1] && st1[n1] == st1.last() && st1.last() == v.end);
            assert(states[i + 1] == st2[0] && st2[0] == v.start);
            assert(labels[i] is None);
            assert(edge_labelled(r.nodes, v.end, v.start, None));
        } else if i <= n1 + 1 + n2 {
            assert(states[i] == st2[i - n1 - 2] && states[i + 1] == st2[i - n1 - 1]);
            assert(labels[i] == lb2[i - n1 - 2]);
            assert(edge_labelled(m, st2[i - n1 - 2], st2[i - n1 - 1], lb2[i - n1 - 2]));
        } else {
            assert(i == n1 + n2 + 2);
            assert(states[i] == st2[n2] && st2[n2] == st2.last() && st2.last() == v.end);
            assert(states[i + 1] == i2);
            assert(labels[i] is None);
            assert(edge_labelled(r.nodes, v.end, i2, None));
        }
    }
    assert(is_run(r.nodes, states, labels));
    assert(none1.drop_first() =~= Seq::<Option<char>>::empty());
    assert(word_of(Seq::<Option<char>>::empty()) =~= Seq::<char>::empty());
    assert(word_of(none1) =~= Seq::<char>::empty());
    let t3 = lb2 + none1;
    let t2 = none1 + t3;
    let t1 = lb1 + t2;
    lemma_word_of_append(lb2, none1);
    lemma_word_of_append(none1, t3);
    lemma_word_of_append(lb1, t2);
    lemma_word_of_append(none1, t1);
    assert(labels =~= none1 + t1);
    assert(word_of(t3) =~= s2);
    assert(word_of(t2) =~= s2);
    assert(word_of(t1) =~= s1 + s2);
    assert(word_of(none1 + t1) =~= s1 + s2);
    assert(word_of(labels) =~= s1 + s2);
    assert(states.first() == r.start && states.last() == r.end);
}

/// An epsilon path from the fragment's start to its end makes it accept the
/// empty string.
proof fn lemma_eps_path_accepts_empty(n: NfaV, p: Seq<u64>)
    requires
        p.len() >= 1,
        p.first() == n.start,
        p.last() == n.end,
        is_eps_path(n.nodes, p),
    ensures
        nfa_accepts(n, Seq::<char>::empty()),
{
    let m = n.nodes;
    let labels = Seq::<Option<char>>::new((p.len() - 1) as nat, |i: int| None);
    assert forall|i: int| 0 <= i < labels.len() implies edge_labelled(
        m,
        p[i],
        p[i + 1],
        #[trigger] labels[i],
    ) by {
        assert(eps_edge(m, p[i], p[i + 1]));
        let k = choose|k: int|
            0 <= k < m[p[i]].transfers.len() && (#[trigger] m[p[i]].transfers[k]).cond is None
                && m[p[i]].transfers[k].to == p[i + 1];
        assert(m[p[i]].transfers[k].cond == labels[i]);
    }
    assert(is_run(m, p, labels));
    lemma_all_none_word_empty(labels);
}

/// Inside a closure rewrite, an epsilon path that starts in the operand and
/// reaches the fresh End must first cross the operand's old end node: the
/// path up to that crossing is an epsilon path of the operand itself.
proof fn lemma_extract_operand_path(v: NfaV, i1: u64, i2: u64, skip: bool, loop_back: bool, r: NfaV, p: Seq<u64>)
    requires
        v.wf(),
        !v.nodes.dom().contains(i1),
        !v.nodes.dom().contains(i2),
        i1 != i2,
        r.nodes == closure_nodes(v, i1, i2, skip, loop_back),
        p.len() >= 1,
        v.nodes.dom().contains(p.first()),
        p.last() == i2,
        is_eps_path(r.nodes, p),
    ensures
        exists|q: Seq<u64>|
            q.len() >= 1 && q.first() == p.first() && q.last() == v.end && #[trigger] is_eps_path(
                v.nodes,
                q,
            ),
    decreases p.len(),
{
    let a = p.first();
    if a == v.end {
        let q: Seq<u64> = seq![v.end];
        assert(q.len() >= 1 && q.first() == p.first() && q.last() == v.end && is_eps_path(
            v.nodes,
            q,
        ));
    } else {
        assert(a != i2);
        assert(p.len() >= 2);
        assert(eps_edge(r.nodes, p[0], p[1]));
        assert(r.nodes[a] == v.nodes[a] || (a == v.start && r.nodes[a].transfers
            == v.nodes[a].transfers));
        let k = choose|k: int|
            0 <= k < r.nodes[a].transfers.len() && (#[trigger] r.nodes[a].transfers[k]).cond
                is None && r.nodes[a].transfers[k].to == p[1];
        assert(r.nodes[a].transfers[k] == v.nodes[a].transfers[k]);
        assert(crate::nfa::node_ok(v.nodes, v.alphabet, a));
        assert(v.nodes.dom().contains(p[1]));
        assert(eps_edge(v.nodes, a, p[1]));
        let rest = p.drop_first();
        assert forall|i: int| #![trigger rest[i]] 0 <= i < rest.len() - 1 implies eps_edge(
            r.nodes,
            rest[i],
            rest[i + 1],
        ) by {
            assert(rest[i] == p[i + 1] && rest[i + 1] == p[i + 2]);
            assert(eps_edge(r.nodes, p[i + 1], p[i + 2]));
        }
        assert(rest.first() == p[1] && rest.last() == p.last());
        lemma_extract_operand_path(v, i1, i2, skip, loop_back, r, rest);
        let q0 = choose|q: Seq<u64>|
            q.len() >= 1 && q.first() == rest.first() && q.last() == v.end
                && #[trigger] is_eps_path(v.nodes, q);
        let q = seq![a] + q0;
        assert forall|i: int| #![trigger q[i]] 0 <= i < q.len() - 1 implies eps_edge(
            v.nodes,
            q[i],
            q[i + 1],
        ) by {
            if i == 0 {
                assert(q[0] == a && q[1] == q0[0]);
            } else {
                assert(q[i] == q0[i - 1] && q[i + 1] == q0[i]);
                assert(eps_edge(v.nodes, q0[i - 1], q0[i]));
            }
        }
        assert(q.len() >= 1 && q.first() == p.first() && q.last() == v.end && is_eps_path(
            v.nodes,
            q,
        ));
    }
}

/// Plus accepts the empty string exactly when its operand does: unlike star,
/// it has no epsilon shortcut from the fresh Start to the fresh End, so an
/// empty-word run must traverse the operand.
pub proof fn lemma_plus_empty_iff_operand(v: NfaV, i1: u64, i2: u64, r: NfaV)
    requires
        v.wf(),
        !v.nodes.dom().contains(i1),
        !v.nodes.dom().contains(i2),
        i1 != i2,
        r.nodes == closure_nodes(v, i1, i2, false, true),
        r.start == i1,
        r.end == i2,
    ensures
        nfa_accepts(r, Seq::<char>::empty()) <==> nfa_accepts(v, Seq::<char>::empty()),
{
    let m = v.nodes;
    if nfa_accepts(v, Seq::<char>::empty()) {
        lemma_closure_accepts_operand(v, i1, i2, false, true, r, Seq::<char>::empty());
    }
    if nfa_accepts(r, Seq::<char>::empty()) {
        let (states, labels): (Seq<u64>, Seq<Option<char>>) = choose|
            states: Seq<u64>,
            labels: Seq<Option<char>>,
        |
            #[trigger] is_run(r.nodes, states, labels) && states.first() == r.start
                && states.last() == r.end && word_of(labels) == Seq::<char>::empty();
        lemma_word_empty_all_none(labels);
        assert forall|i: int| #![trigger states[i]] 0 <= i < states.len() - 1 implies eps_edge(
            r.nodes,
            states[i],
            states[i + 1],
        ) by {
            assert(edge_labelled(r.nodes, states[i], states[i + 1], labels[i]));
            let k = choose|k: int|
                0 <= k < r.nodes[states[i]].transfers.len() && (
                #[trigger] r.nodes[states[i]].transfers[k]).to == states[i + 1]
                    && r.nodes[states[i]].transfers[k].cond == labels[i];
            assert(r.nodes[states[i]].transfers[k].cond is None);
        }
        assert(states.len() >= 2);
        assert(eps_edge(r.nodes, states[0], states[1]));
        assert(r.nodes[i1].transfers =~= seq![eps_t(i1, v.start)]);
        assert(states[1] == v.start) by {
            let k = choose|k: int|
                0 <= k < r.nodes[i1].transfers.len() && (#[trigger] r.nodes[i1].transfers[k]).cond
                    is None && r.nodes[i1].transfers[k].to == states[1];
            assert(k == 0);
        }
        let rest = states.drop_first();
        assert forall|i: int| #![trigger rest[i]] 0 <= i < rest.len() - 1 implies eps_edge(
            r.nodes,
            rest[i],
            rest[i + 1],
        ) by {
            assert(rest[i] == states[i + 1] && rest[i + 1] == states[i + 2]);
            assert(eps_edge(r.nodes, states[i + 1], states[i + 2]));
        }
        assert(rest.first() == v.start && rest.last() == i2);
        lemma_extract_operand_path(v, i1, i2, false, true, r, rest);
        let q = choose|q: Seq<u64>|
            q.len() >= 1 && q.first() == rest.first() && q.last() == v.end
                && #[trigger] is_eps_path(v.nodes, q);
        lemma_eps_path_accepts_empty(v, q);
    }
}

/// The language of a single-character fragment is exactly the one-character
/// string of its symbol: the empty string and every other string are
/// rejected.
pub proof fn lemma_single_character_language(v: NfaV, c: char, s: Seq<char>)
    requires
        v.start != v.end,
        v.nodes.dom() == set![v.start, v.end],
        v.nodes[v.start] == (NodeV {
            kind: FANodeType::Start,
            id: v.start,
            transfers: seq![TransV { from: v.start, to: v.end, cond: Some(c) }],
        }),
        v.nodes[v.end] == (NodeV {
            kind: FANodeType::End,
            id: v.end,
            transfers: Seq::<TransV>::empty(),
        }),
    ensures
        nfa_accepts(v, s) <==> s == seq![c],
{
    let m = v.nodes;
    if s == seq![c] {
        let states: Seq<u64> = seq![v.start, v.end];
        let labels: Seq<Option<char>> = seq![Some(c)];
        assert(m.dom().contains(v.start));
        assert(m[v.start].transfers[0] == (TransV { from: v.start, to: v.end, cond: Some(c) }));
        assert(edge_labelled(m, v.start, v.end, Some(c)));
        assert(is_run(m, states, labels));
        assert(labels.drop_first() =~= Seq::<Option<char>>::empty());
        assert(word_of(Seq::<Option<char>>::empty()) =~= Seq::<char>::empty());
        assert(word_of(labels) =~= seq![c]);
        assert(states.first() == v.start && states.last() == v.end);
        assert(nfa_accepts(v, s));
    }
    if nfa_accepts(v, s) {
        let (states, labels): (Seq<u64>, Seq<Option<char>>) = choose|
            states: Seq<u64>,
            labels: Seq<Option<char>>,
        |
            #[trigger] is_run(m, states, labels) && states.first() == v.start && states.last()
                == v.end && word_of(labels) == s;
        if labels.len() == 0 {
            assert(states.first() == states.last());
            assert(false);
        }
        assert(edge_labelled(m, states[0], states[1], labels[0]));
        let k = choose|k: int|
            0 <= k < m[v.start].transfers.len() && (#[trigger] m[v.start].transfers[k]).to
                == states[1] && m[v.start].transfers[k].cond == labels[0];
        assert(k == 0);
        assert(states[1] == v.end);
        assert(labels[0] == Some(c));
        if labels.len() >= 2 {
            assert(edge_labelled(m, states[1], states[2], labels[1]));
            assert(m[v.end].transfers.len() == 0);
            assert(false);
        }
        assert(labels =~= seq![Some(c)]);
        assert(labels.drop_first() =~= Seq::<Option<char>>::empty());
        assert(word_of(Seq::<Option<char>>::empty()) =~= Seq::<char>::empty());
        assert(word_of(labels) =~= seq![c]);
        assert(s == seq![c]);
    }
}

/// A label sequence that spells the empty word is all epsilon steps.
proof fn lemma_word_empty_all_none(labels: Seq<Option<char>>)
    requires
        word_of(labels) == Seq::<char>::empty(),
    ensures
        forall|i: int| 0 <= i < labels.len() ==> (#[trigger] labels[i]) is None,
    decreases labels.len(),
{
    if labels.len() > 0 {
        match labels.first() {
            Some(c) => {
                assert(word_of(labels) == seq![c] + word_of(labels.drop_first()));
                assert(word_of(labels).len() >= 1);
            },
            None => {
                lemma_word_empty_all_none(labels.drop_first());
                assert forall|i: int| 0 <= i < labels.len() implies (#[trigger] labels[i]) is None by {
                    if i >= 1 {
                        assert(labels.drop_first()[i - 1] == labels[i]);
                    }
                }
            },
        }
    }
}

/// A label sequence of epsilon steps spells the empty word.
proof fn lemma_all_none_word_empty(labels: Seq<Option<char>>)
    requires
        forall|i: int| 0 <= i < labels.len() ==> (#[trigger] labels[i]) is None,
    ensures
        word_of(labels) == Seq::<char>::empty(),
    decreases labels.len(),
{
    if labels.len() > 0 {
        assert(labels[0] is None);
        assert forall|i: int| 0 <= i < labels.drop_first().len() implies (#[trigger] labels.drop_first()[i]) is None by {
            assert(labels.drop_first()[i] == labels[i + 1]);
        }
        lemma_all_none_word_empty(labels.drop_first());
    }
}

/// The determinized automaton and the fragment agree on the empty string:
/// both accept it exactly when the fragment's end node is epsilon-reachable
/// from its start node.
pub proof fn lemma_determinized_empty_string(d: DfaV, n: NfaV, sets: Seq<Set<u64>>)
    requires
        n.wf(),
        dfa_simulates(d, n, sets),
    ensures
        dfa_accepts(d, Seq::<char>::empty()) == nfa_accepts(n, Seq::<char>::empty()),
{
    let m = n.nodes;
    assert(dfa_run_from(d, 0, Seq::<char>::empty()) == Some(0int));
    assert(d.nodes[0].kind == crate::dfa::expected_kind(n, sets[0], 0));
    if nfa_accepts(n, Seq::<char>::empty()) {
        let (states, labels): (Seq<u64>, Seq<Option<char>>) = choose|
            states: Seq<u64>,
            labels: Seq<Option<char>>,
        |
            #[trigger] is_run(m, states, labels) && states.first() == n.start && states.last()
                == n.end && word_of(labels) == Seq::<char>::empty();
        lemma_word_empty_all_none(labels);
        assert forall|i: int| 0 <= i < states.len() - 1 implies eps_edge(m, states[i], #[trigger] states[i + 1]) by {
            assert(edge_labelled(m, states[i], states[i + 1], labels[i]));
            let k = choose|k: int|
                0 <= k < m[states[i]].transfers.len() && (#[trigger] m[states[i]].transfers[k]).to
                    == states[i + 1] && m[states[i]].transfers[k].cond == labels[i];
            assert(m[states[i]].transfers[k].cond is None);
        }
        assert(is_eps_path(m, states));
        assert(eps_reach(m, n.start, n.end));
        assert(set![n.start].contains(n.start));
        assert(eclose(m, set![n.start]).contains(n.end));
        assert(sets[0].contains(n.end));
        assert(crate::dfa::set_has_end(n, sets[0]));
        assert(d.nodes[0].kind == FANodeType::End);
        assert(dfa_accepts(d, Seq::<char>::empty()));
    }
    if dfa_accepts(d, Seq::<char>::empty()) {
        assert(d.nodes[0].kind == FANodeType::End);
        assert(crate::dfa::set_has_end(n, sets[0]));
        let a = choose|a: u64|
            sets[0].contains(a) && n.nodes.dom().contains(a) && (#[trigger] n.nodes[a]).kind
                == FANodeType::End;
        assert(a == n.end) by {
            if a != n.end {
                if a == n.start {
                    assert(n.nodes[a].kind == FANodeType::Start);
                } else {
                    assert(n.nodes[a].kind == FANodeType::Normal);
                }
            }
        }
        assert(eclose(m, set![n.start]).contains(n.end));
        let src = choose|src: u64| set![n.start].contains(src) && #[trigger] eps_reach(m, src, n.end);
        let p = choose|p: Seq<u64>|
            p.len() >= 1 && p.first() == n.start && p.last() == n.end && #[trigger] is_eps_path(
                m,
                p,
            );
        let labels = Seq::<Option<char>>::new((p.len() - 1) as nat, |i: int| None);
        assert forall|i: int| 0 <= i < labels.len() implies edge_labelled(
            m,
            p[i],
            p[i + 1],
            #[trigger] labels[i],
        ) by {
            assert(eps_edge(m, p[i], p[i + 1]));
            let k = choose|k: int|
                0 <= k < m[p[i]].transfers.len() && (#[trigger] m[p[i]].transfers[k]).cond is None
                    && m[p[i]].transfers[k].to == p[i + 1];
            assert(m[p[i]].transfers[k].cond == labels[i]);
        }
        assert(is_run(m, p, labels));
        lemma_all_none_word_empty(labels);
        assert(nfa_accepts(n, Seq::<char>::empty()));
    }
}

} // verus!
