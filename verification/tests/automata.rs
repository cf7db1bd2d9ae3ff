use regexer::dfa::{epsilon_closure, successor, DFAState, DFA};
use regexer::nfa::{NFASymbol, NFA};
use regexer::parser::{Parser, RegexAST};

fn nfa_of(pattern: &str) -> NFA {
    let ast = Parser::new(pattern).parse().ok().unwrap();
    NFA::from_ast(&ast)
}

fn members(state: &DFAState) -> Vec<usize> {
    (0..state.nfa_states.len())
        .filter(|q| state.nfa_states[*q])
        .collect()
}

#[test]
fn empty_automaton_has_two_unconnected_states() {
    let nfa = NFA::new_empty();
    assert_eq!(nfa.start, 0);
    assert_eq!(nfa.accept, 1);
    assert_eq!(nfa.state_count(), 2);
    assert!(nfa.edges[0].is_empty());
    assert!(nfa.edges[1].is_empty());
}

#[test]
fn literal_automaton_has_one_transition() {
    let nfa = NFA::new_literal('x');
    assert_eq!(nfa.start, 0);
    assert_eq!(nfa.accept, 1);
    assert_eq!(nfa.state_count(), 2);
    assert_eq!(nfa.edges[0], vec![(NFASymbol::Char('x'), 1)]);
    assert!(nfa.edges[1].is_empty());
}

#[test]
fn concat_renumbers_the_second_operand() {
    let nfa = NFA::new_concat(NFA::new_literal('a'), NFA::new_literal('b'));
    assert_eq!(nfa.start, 0);
    assert_eq!(nfa.accept, 3);
    assert_eq!(nfa.state_count(), 4);
    assert_eq!(nfa.edges[0], vec![(NFASymbol::Char('a'), 1)]);
    assert_eq!(nfa.edges[1], vec![(NFASymbol::Epsilon, 2)]);
    assert_eq!(nfa.edges[2], vec![(NFASymbol::Char('b'), 3)]);
    assert!(nfa.edges[3].is_empty());
}

#[test]
fn concat_offset_is_the_size_of_the_first_operand() {
    let small = NFA::new_literal('a');
    let large = NFA::new_union(NFA::new_literal('b'), NFA::new_literal('c'));
    let nfa = NFA::new_concat(small, large);
    assert_eq!(nfa.state_count(), 8);
    assert_eq!(nfa.start, 0);
    assert_eq!(nfa.accept, 3);
    assert_eq!(nfa.edges[1], vec![(NFASymbol::Epsilon, 2)]);
}

#[test]
fn union_adds_a_start_and_an_accept() {
    let nfa = NFA::new_union(NFA::new_literal('a'), NFA::new_literal('b'));
    assert_eq!(nfa.start, 0);
    assert_eq!(nfa.accept, 1);
    assert_eq!(nfa.state_count(), 6);
    assert_eq!(
        nfa.edges[0],
        vec![(NFASymbol::Epsilon, 2), (NFASymbol::Epsilon, 4)]
    );
    assert!(nfa.edges[1].is_empty());
    assert_eq!(nfa.edges[2], vec![(NFASymbol::Char('a'), 3)]);
    assert_eq!(nfa.edges[3], vec![(NFASymbol::Epsilon, 1)]);
    assert_eq!(nfa.edges[4], vec![(NFASymbol::Char('b'), 5)]);
    assert_eq!(nfa.edges[5], vec![(NFASymbol::Epsilon, 1)]);
}

#[test]
fn kleene_adds_enter_skip_leave_and_repeat() {
    let nfa = NFA::new_kleene(NFA::new_literal('a'));
    assert_eq!(nfa.start, 0);
    assert_eq!(nfa.accept, 1);
    assert_eq!(nfa.state_count(), 4);
    assert_eq!(
        nfa.edges[0],
        vec![(NFASymbol::Epsilon, 2), (NFASymbol::Epsilon, 1)]
    );
    assert!(nfa.edges[1].is_empty());
    assert_eq!(nfa.edges[2], vec![(NFASymbol::Char('a'), 3)]);
    assert_eq!(
        nfa.edges[3],
        vec![(NFASymbol::Epsilon, 1), (NFASymbol::Epsilon, 2)]
    );
}

#[test]
fn from_ast_follows_the_tree() {
    let ast = RegexAST::Concat(
        Box::new(RegexAST::Kleene(Box::new(RegexAST::Literal('a')))),
        Box::new(RegexAST::Union(
            Box::new(RegexAST::Literal('b')),
            Box::new(RegexAST::Empty),
        )),
    );
    let nfa = NFA::from_ast(&ast);
    assert_eq!(nfa.state_count(), 4 + 6);
    assert_eq!(nfa.start, 0);
    assert_eq!(nfa.accept, 4 + 1);
}

#[test]
fn every_transition_stays_inside_the_automaton() {
    let nfa = nfa_of("(ab|c*)*(d|)e");
    let n = nfa.state_count();
    assert!(nfa.start < n);
    assert!(nfa.accept < n);
    for row in &nfa.edges {
        for (_, to) in row {
            assert!(*to < n);
        }
    }
}

#[test]
fn state_count_is_linear_in_the_pattern() {
    for pattern in [
        "a", "ab", "a|b", "a*", "(a)", "((a))", "a**", "|", "||", "|||", "*", "**", "()", "(|)",
        "(a|b)*c", "abcdefgh", "a|b|c|d", "(a*b*)*", "a)bcd",
    ] {
        let k = pattern.chars().count();
        let n = nfa_of(pattern).state_count();
        assert!(n <= 4 * k + 2, "{} has {} states", pattern, n);
    }
}

#[test]
fn state_counts_of_some_patterns() {
    assert_eq!(nfa_of("a").state_count(), 2);
    assert_eq!(nfa_of("ab").state_count(), 4);
    assert_eq!(nfa_of("a|b").state_count(), 6);
    assert_eq!(nfa_of("a*").state_count(), 4);
    assert_eq!(nfa_of("(a|b)*c").state_count(), 10);
    assert_eq!(nfa_of("|||").state_count(), 14);
    assert_eq!(nfa_of("").state_count(), 2);
}

#[test]
fn closure_follows_epsilon_transitions_only() {
    let nfa = NFA::new_kleene(NFA::new_literal('a'));
    assert_eq!(members(&epsilon_closure(&nfa, 0)), vec![0, 1, 2]);
    assert_eq!(members(&epsilon_closure(&nfa, 1)), vec![1]);
    assert_eq!(members(&epsilon_closure(&nfa, 2)), vec![2]);
    assert_eq!(members(&epsilon_closure(&nfa, 3)), vec![1, 2, 3]);
}

#[test]
fn closure_of_a_state_without_transitions_is_the_state() {
    let nfa = NFA::new_empty();
    assert_eq!(members(&epsilon_closure(&nfa, 0)), vec![0]);
    assert_eq!(members(&epsilon_closure(&nfa, 1)), vec![1]);
}

#[test]
fn closure_has_one_flag_per_state() {
    let nfa = nfa_of("(a|b)*c");
    let closure = epsilon_closure(&nfa, nfa.start);
    assert_eq!(closure.nfa_states.len(), nfa.state_count());
}

#[test]
fn successor_reads_one_character() {
    let nfa = NFA::new_kleene(NFA::new_literal('a'));
    let start = epsilon_closure(&nfa, 0);
    assert_eq!(members(&successor(&nfa, &start, 'a')), vec![1, 2, 3]);
    assert!(members(&successor(&nfa, &start, 'b')).is_empty());
}

#[test]
fn dfa_of_a_literal() {
    let dfa = DFA::from_nfa(&NFA::new_literal('a'));
    assert_eq!(dfa.start, 0);
    assert_eq!(dfa.states.len(), 2);
    assert_eq!(members(&dfa.states[0]), vec![0]);
    assert_eq!(members(&dfa.states[1]), vec![1]);
    assert_eq!(dfa.accept_states, vec![false, true]);
    assert_eq!(dfa.transitions[0], vec![('a', 1)]);
    assert!(dfa.transitions[1].is_empty());
}

#[test]
fn dfa_of_a_star_has_a_loop() {
    let dfa = DFA::from_nfa(&NFA::new_kleene(NFA::new_literal('a')));
    assert_eq!(dfa.states.len(), 2);
    assert_eq!(members(&dfa.states[0]), vec![0, 1, 2]);
    assert_eq!(members(&dfa.states[1]), vec![1, 2, 3]);
    assert_eq!(dfa.accept_states, vec![true, true]);
    assert_eq!(dfa.transitions[0], vec![('a', 1)]);
    assert_eq!(dfa.transitions[1], vec![('a', 1)]);
}

#[test]
fn dfa_of_the_empty_automaton_accepts_nothing() {
    let dfa = DFA::from_nfa(&NFA::new_empty());
    assert_eq!(dfa.states.len(), 1);
    assert_eq!(dfa.accept_states, vec![false]);
    assert!(dfa.transitions[0].is_empty());
    assert!(!dfa.matches(""));
    assert!(!dfa.matches("a"));
}

#[test]
fn dfa_states_are_distinct_and_tables_agree() {
    let dfa = DFA::from_nfa(&nfa_of("(a|b)*abb"));
    let n = dfa.states.len();
    assert_eq!(dfa.accept_states.len(), n);
    assert_eq!(dfa.transitions.len(), n);
    for i in 0..n {
        for j in (i + 1)..n {
            assert_ne!(dfa.states[i], dfa.states[j]);
        }
        for (_, to) in &dfa.transitions[i] {
            assert!(*to < n);
        }
    }
    assert_eq!(n, 5);
}

#[test]
fn step_follows_one_transition() {
    let dfa = DFA::from_nfa(&nfa_of("ab"));
    let after_a = dfa.step(dfa.start, 'a');
    assert!(after_a.is_some());
    assert_eq!(dfa.step(dfa.start, 'b'), None);
    let after_ab = dfa.step(after_a.unwrap(), 'b');
    assert!(after_ab.is_some());
    assert!(dfa.accept_states[after_ab.unwrap()]);
    assert_eq!(dfa.step(after_ab.unwrap(), 'a'), None);
}

#[test]
fn matches_scans_the_whole_input() {
    let dfa = DFA::from_nfa(&nfa_of("(a|b)*abb"));
    assert!(dfa.matches("abb"));
    assert!(dfa.matches("aabb"));
    assert!(dfa.matches("babababb"));
    assert!(!dfa.matches("ab"));
    assert!(!dfa.matches("abba"));
    assert!(!dfa.matches(""));
    assert!(!dfa.matches("abc"));
}

#[test]
fn a_character_without_transition_is_rejected() {
    let dfa = DFA::from_nfa(&nfa_of("a*"));
    assert!(!dfa.matches("é"));
    assert!(!dfa.matches("aéa"));
    assert!(!dfa.matches("a a"));
}
