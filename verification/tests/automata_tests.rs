use automata::closure::{epsilon_closure, epsilon_closure_dfs_delta};
use automata::dfa::{nfa_to_dfa, DFA};
use automata::nfa::{FANodeType, NFAIdAllocator, NFA};

fn single(alloc: &mut NFAIdAllocator, c: char) -> NFA {
    NFA::new_nfa_single_character(alloc, c)
}

/// The demonstration expression `a(b|c)*`, determinized.
fn a_b_or_c_star() -> DFA {
    let mut alloc = NFAIdAllocator::default();
    let b = single(&mut alloc, 'b');
    let c = single(&mut alloc, 'c');
    let mut tail = b.or(c, &mut alloc).unwrap();
    tail.asterisk_closure(&mut alloc);
    let expr = single(&mut alloc, 'a').connect(tail).unwrap();
    nfa_to_dfa(&expr)
}

#[test]
fn allocator_counts_from_one() {
    let mut alloc = NFAIdAllocator::default();
    assert_eq!(alloc.index, 0);
    assert_eq!(alloc.tag, 0);
    assert_eq!(alloc.next_id(), 1);
    assert_eq!(alloc.next_id(), 2);
    assert_eq!(alloc.next_id(), 3);
    let tagged = NFAIdAllocator::new(7);
    assert_eq!(tagged.tag, 7);
    assert_eq!(tagged.index, 0);
}

#[test]
fn single_character_matches_only_itself() {
    let mut alloc = NFAIdAllocator::default();
    let frag = single(&mut alloc, 'x');
    let dfa = nfa_to_dfa(&frag);
    assert!(dfa.match_str("x"));
    assert!(!dfa.match_str(""));
    assert!(!dfa.match_str("y"));
    assert!(!dfa.match_str("xx"));
}

#[test]
fn concatenation_is_associative_on_samples() {
    let samples = ["", "a", "ab", "abc", "abcd", "bca", "aabc"];
    let mut alloc1 = NFAIdAllocator::default();
    let left = single(&mut alloc1, 'a')
        .connect(single(&mut alloc1, 'b'))
        .unwrap()
        .connect(single(&mut alloc1, 'c'))
        .unwrap();
    let left_dfa = nfa_to_dfa(&left);

    let mut alloc2 = NFAIdAllocator::default();
    let bc = single(&mut alloc2, 'b').connect(single(&mut alloc2, 'c')).unwrap();
    let right = single(&mut alloc2, 'a').connect(bc).unwrap();
    let right_dfa = nfa_to_dfa(&right);

    for s in samples {
        assert_eq!(left_dfa.match_str(s), right_dfa.match_str(s));
    }
    assert!(left_dfa.match_str("abc"));
    assert!(!left_dfa.match_str("ab"));
}

#[test]
fn alternation_is_commutative_on_samples() {
    let samples = ["", "a", "b", "c", "ab", "ba"];
    let mut alloc1 = NFAIdAllocator::default();
    let ab = single(&mut alloc1, 'a').or(single(&mut alloc1, 'b'), &mut alloc1).unwrap();
    let ab_dfa = nfa_to_dfa(&ab);

    let mut alloc2 = NFAIdAllocator::default();
    let b = single(&mut alloc2, 'b');
    let a = single(&mut alloc2, 'a');
    let ba = b.or(a, &mut alloc2).unwrap();
    let ba_dfa = nfa_to_dfa(&ba);

    for s in samples {
        assert_eq!(ab_dfa.match_str(s), ba_dfa.match_str(s));
    }
    assert!(ab_dfa.match_str("a"));
    assert!(ab_dfa.match_str("b"));
    assert!(!ab_dfa.match_str("c"));
}

#[test]
fn star_accepts_empty_and_repetitions() {
    let mut alloc = NFAIdAllocator::default();
    let mut frag = single(&mut alloc, 'a');
    frag.asterisk_closure(&mut alloc);
    let dfa = nfa_to_dfa(&frag);
    assert!(dfa.match_str(""));
    assert!(dfa.match_str("a"));
    assert!(dfa.match_str("aaa"));
    assert!(!dfa.match_str("b"));
    assert!(!dfa.match_str("ab"));
}

#[test]
fn plus_rejects_empty_but_accepts_repetitions() {
    let mut alloc = NFAIdAllocator::default();
    let mut frag = single(&mut alloc, 'a');
    frag.plus_closure(&mut alloc);
    let dfa = nfa_to_dfa(&frag);
    assert!(!dfa.match_str(""));
    assert!(dfa.match_str("a"));
    assert!(dfa.match_str("aa"));
    assert!(dfa.match_str("aaaa"));
    assert!(!dfa.match_str("b"));
}

#[test]
fn question_accepts_empty_and_one_occurrence() {
    let mut alloc = NFAIdAllocator::default();
    let mut frag = single(&mut alloc, 'a');
    frag.question_closure(&mut alloc);
    let dfa = nfa_to_dfa(&frag);
    assert!(dfa.match_str(""));
    assert!(dfa.match_str("a"));
    assert!(!dfa.match_str("aa"));
    assert!(!dfa.match_str("b"));
}

#[test]
fn determinized_automaton_has_one_transition_per_symbol() {
    let dfa = a_b_or_c_star();
    let n = dfa.nodes.len();
    assert_eq!(dfa.start_id, 0);
    assert!(n >= 1);
    for (i, node) in dfa.nodes.iter().enumerate() {
        assert_eq!(node.id, i as u64);
        for t in node.transfers.iter() {
            assert_eq!(t.from_id, i as u64);
            assert!((t.to_id as usize) < n);
        }
        for (k1, t1) in node.transfers.iter().enumerate() {
            for (k2, t2) in node.transfers.iter().enumerate() {
                if k1 != k2 {
                    assert_ne!(t1.condition, t2.condition);
                }
            }
        }
    }
}

#[test]
fn mismatched_allocators_cannot_combine() {
    let mut alloc1 = NFAIdAllocator::new(1);
    let mut alloc2 = NFAIdAllocator::new(2);
    let f1 = single(&mut alloc1, 'a');
    let f2 = single(&mut alloc2, 'b');
    let size1 = f1.nodes.len();
    let size2 = f2.nodes.len();
    assert!(f1.clone().connect(f2.clone()).is_err());
    assert!(f1.clone().or(f2.clone(), &mut alloc1).is_err());
    assert_eq!(f1.nodes.len(), size1);
    assert_eq!(f2.nodes.len(), size2);
}

#[test]
fn matched_allocators_combine() {
    let mut alloc = NFAIdAllocator::new(9);
    let f1 = single(&mut alloc, 'a');
    let f2 = single(&mut alloc, 'b');
    let combined = f1.connect(f2);
    assert!(combined.is_ok());
}

#[test]
fn end_to_end_a_b_or_c_star() {
    let dfa = a_b_or_c_star();
    assert!(dfa.match_str("a"));
    assert!(dfa.match_str("ab"));
    assert!(dfa.match_str("acbcb"));
    assert!(!dfa.match_str(""));
    assert!(!dfa.match_str("x"));
    assert!(!dfa.match_str("abca"));
}

#[test]
fn epsilon_closure_terminates_on_cycles_without_duplicates() {
    // Star and plus introduce epsilon cycles (old end loops to old start).
    let mut alloc = NFAIdAllocator::default();
    let mut frag = single(&mut alloc, 'a');
    frag.plus_closure(&mut alloc);
    frag.asterisk_closure(&mut alloc);
    let closure = epsilon_closure(&frag);
    for (i, x) in closure.iter().enumerate() {
        for (j, y) in closure.iter().enumerate() {
            if i != j {
                assert_ne!(x, y);
            }
        }
        assert!(frag.nodes.iter().any(|n| n.id == *x));
    }
    // The closure of the start covers the start itself.
    assert!(closure.contains(&frag.start_id));
}

#[test]
fn delta_follows_one_symbol_then_closes() {
    let mut alloc = NFAIdAllocator::default();
    let b = single(&mut alloc, 'b');
    let c = single(&mut alloc, 'c');
    let mut tail = b.or(c, &mut alloc).unwrap();
    tail.asterisk_closure(&mut alloc);
    let expr = single(&mut alloc, 'a').connect(tail).unwrap();
    let start_closure = epsilon_closure(&expr);
    let after_a = epsilon_closure_dfs_delta(&expr, &start_closure, 'a');
    assert!(!after_a.is_empty());
    let after_b = epsilon_closure_dfs_delta(&expr, &after_a, 'b');
    assert!(!after_b.is_empty());
    // No node of the start closure reads 'x'.
    let after_x = epsilon_closure_dfs_delta(&expr, &start_closure, 'x');
    assert!(after_x.is_empty());
}
