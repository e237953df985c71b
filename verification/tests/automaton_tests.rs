use rlex::dfa::{closure_of, Dfa, LookupState, LookupTable};
use rlex::nfa::{Nfa, NfaBuilder, NfaVertexRef, StateVertex};
use rlex::regex_expr::{Charactor, RegexError, RegexExpr};
use rlex::{compile, DfaVertexRef};

fn nfa_of(text: &str, handler: usize) -> Nfa {
    Nfa::build(&RegexExpr::build(text).unwrap(), handler).unwrap()
}

fn out_degree(s: &StateVertex) -> usize {
    s.neighbors.len() + s.epsilon_neighbors.len()
}

fn reachable(nfa: &Nfa) -> Vec<bool> {
    let mut seen = vec![false; nfa.states.len()];
    let mut work = vec![nfa.start.0];
    seen[nfa.start.0] = true;
    while let Some(a) = work.pop() {
        let mut next: Vec<usize> = nfa.states[a].neighbors.values().copied().collect();
        next.extend(nfa.states[a].epsilon_neighbors.iter().copied());
        for b in next {
            if !seen[b] {
                seen[b] = true;
                work.push(b);
            }
        }
    }
    seen
}

fn patterns(texts: &[&str]) -> Vec<String> {
    texts.iter().map(|t| t.to_string()).collect()
}

#[test]
fn literal_fragment() {
    let nfa = nfa_of("a", 7);
    assert_eq!(nfa.states.len(), 2);
    assert_eq!(nfa.start, NfaVertexRef::new(0));
    assert_eq!(nfa.end, NfaVertexRef::new(1));
    assert_eq!(nfa.states[0].neighbors.get(&b'a'), Some(&1));
    assert!(nfa.states[0].epsilon_neighbors.is_empty());
    assert_eq!(nfa.states[0].handler, None);
    assert_eq!(out_degree(&nfa.states[1]), 0);
    assert_eq!(nfa.states[1].handler, Some(7));
}

#[test]
fn concatenation_adds_no_state() {
    let nfa = nfa_of("ab", 0);
    assert_eq!(nfa.states.len(), 4);
    assert_eq!(nfa.start.0, 0);
    assert_eq!(nfa.end.0, 3);
    assert_eq!(nfa.states[1].epsilon_neighbors, vec![2]);
    assert_eq!(nfa.states[2].neighbors.get(&b'b'), Some(&3));
    assert_eq!(nfa.states[3].handler, Some(0));
}

#[test]
fn alternation_adds_start_and_end() {
    let nfa = nfa_of("a|b", 3);
    assert_eq!(nfa.states.len(), 6);
    assert_eq!(nfa.start.0, 4);
    assert_eq!(nfa.end.0, 5);
    assert_eq!(nfa.states[4].epsilon_neighbors, vec![0, 2]);
    assert_eq!(nfa.states[1].epsilon_neighbors, vec![5]);
    assert_eq!(nfa.states[3].epsilon_neighbors, vec![5]);
    assert_eq!(nfa.states[5].handler, Some(3));
    assert_eq!(nfa.states[1].handler, None);
}

#[test]
fn closure_edges() {
    let nfa = nfa_of("a*", 0);
    assert_eq!(nfa.states.len(), 4);
    assert_eq!(nfa.start.0, 2);
    assert_eq!(nfa.end.0, 3);
    assert_eq!(nfa.states[2].epsilon_neighbors, vec![0, 3]);
    assert_eq!(nfa.states[1].epsilon_neighbors, vec![0, 3]);
    assert_eq!(out_degree(&nfa.states[3]), 0);
}

#[test]
fn fragment_has_one_sink_and_all_states_reachable() {
    for text in ["a", "ab", "a|b", "a*", "(a|b)*abb", "[0-9][0-9]*", "((a*)*|b)c"] {
        let nfa = nfa_of(text, 0);
        let sinks: Vec<usize> = (0..nfa.states.len())
            .filter(|&i| out_degree(&nfa.states[i]) == 0)
            .collect();
        assert_eq!(sinks, vec![nfa.end.0]);
        assert!(reachable(&nfa).iter().all(|&r| r));
    }
}

#[test]
fn malformed_postfix_is_refused() {
    assert!(matches!(
        Nfa::build(&RegexExpr(vec![]), 0),
        Err(RegexError::MalformedExpression)
    ));
    assert!(matches!(
        Nfa::build(&RegexExpr(vec![Charactor::Closure]), 0),
        Err(RegexError::MalformedExpression)
    ));
    assert!(matches!(
        Nfa::build(&RegexExpr(vec![Charactor::Char(1), Charactor::Or]), 0),
        Err(RegexError::MalformedExpression)
    ));
    assert!(matches!(
        Nfa::build(&RegexExpr(vec![Charactor::Char(1), Charactor::Concat]), 0),
        Err(RegexError::MalformedExpression)
    ));
    assert!(matches!(
        Nfa::build(&RegexExpr(vec![Charactor::Char(1), Charactor::Char(2)]), 0),
        Err(RegexError::MalformedExpression)
    ));
}

#[test]
fn patterns_that_reduce_to_nothing_are_malformed() {
    for text in ["", "*", "|", ".", "a|", "()"] {
        let expr = RegexExpr::build(text).unwrap();
        assert!(matches!(
            Nfa::build(&expr, 0),
            Err(RegexError::MalformedExpression)
        ));
    }
}

#[test]
fn grouping_tokens_in_postfix_are_skipped() {
    let expr = RegexExpr(vec![
        Charactor::LeftBracket,
        Charactor::Char(b'a'),
        Charactor::RightBracket,
    ]);
    let nfa = Nfa::build(&expr, 0).unwrap();
    assert_eq!(nfa.states.len(), 2);
}

#[test]
fn builder_joins_rules_by_alternation() {
    let mut builder = NfaBuilder::new();
    assert!(builder.nfa.is_none());
    builder.add_rule(&RegexExpr::build("a").unwrap(), 0).unwrap();
    builder.add_rule(&RegexExpr::build("b").unwrap(), 1).unwrap();
    let nfa = builder.build().unwrap();
    assert!(builder.nfa.is_none());
    assert!(builder.build().is_none());
    assert_eq!(nfa.states.len(), 6);
    assert_eq!(nfa.start.0, 4);
    assert_eq!(nfa.end.0, 5);
    assert_eq!(nfa.states[4].epsilon_neighbors, vec![0, 2]);
    assert_eq!(nfa.states[1].handler, Some(0));
    assert_eq!(nfa.states[3].handler, Some(1));
    assert_eq!(nfa.states[5].handler, None);
    assert_eq!(nfa.states[1].epsilon_neighbors, vec![5]);
    assert_eq!(nfa.states[3].epsilon_neighbors, vec![5]);
}

#[test]
fn builder_is_emptied_by_a_refused_rule() {
    let mut builder = NfaBuilder::new();
    builder.add_rule(&RegexExpr::build("a").unwrap(), 0).unwrap();
    assert_eq!(
        builder.add_rule(&RegexExpr(vec![Charactor::Or]), 1),
        Err(RegexError::MalformedExpression)
    );
    assert!(builder.nfa.is_none());
}

#[test]
fn closure_follows_epsilon_cycles() {
    let nfa = nfa_of("(a*)*", 0);
    let seen = closure_of(&nfa, nfa.start.0);
    let mut sorted = seen.clone();
    sorted.sort();
    sorted.dedup();
    assert_eq!(sorted.len(), seen.len());
    // a (0,1); inner star (2,3); outer star (4,5): all but the target of `a`.
    assert_eq!(sorted, vec![0, 2, 3, 4, 5]);
    assert_eq!(seen[0], nfa.start.0);
}

#[test]
fn closure_of_single_states() {
    let nfa = nfa_of("a|b", 0);
    assert_eq!(closure_of(&nfa, 1), vec![1, 5]);
    assert_eq!(closure_of(&nfa, 5), vec![5]);
    assert_eq!(closure_of(&nfa, 0), vec![0]);
    let mut from_start = closure_of(&nfa, 4);
    assert_eq!(from_start[0], 4);
    from_start.sort();
    assert_eq!(from_start, vec![0, 2, 4]);
}

#[test]
fn dfa_of_literal() {
    let dfa = Dfa::build(&nfa_of("a", 4));
    assert_eq!(dfa.get_start(), DfaVertexRef::new(0));
    assert_eq!(dfa.vertexs.len(), 2);
    assert_eq!(dfa.lookup_table.states.len(), 2);
    assert_eq!(dfa.vertexs[0].epsilon_closure, vec![0]);
    assert_eq!(dfa.vertexs[1].epsilon_closure, vec![1]);
    let rows = &dfa.lookup_table.states;
    assert_eq!(rows[0].neighbors.len(), 1);
    assert_eq!(rows[0].neighbors.get(&b'a'), Some(&1));
    assert!(rows[0].handlers.is_empty());
    assert!(rows[1].neighbors.is_empty());
    assert_eq!(rows[1].handlers, vec![4]);
}

#[test]
fn dfa_state_counts() {
    let count = |text: &str| Dfa::build(&nfa_of(text, 0)).vertexs.len();
    assert_eq!(count("a"), 2);
    assert_eq!(count("ab"), 3);
    assert_eq!(count("a|b"), 3);
    assert_eq!(count("a*"), 2);
    assert_eq!(count("(a|b)*abb"), 5);
}

#[test]
fn dfa_states_are_numbered_by_rising_byte() {
    let dfa = Dfa::build(&nfa_of("c|a|b", 0));
    let rows = &dfa.lookup_table.states;
    assert_eq!(rows[0].neighbors.get(&b'a'), Some(&1));
    assert_eq!(rows[0].neighbors.get(&b'b'), Some(&2));
    assert_eq!(rows[0].neighbors.get(&b'c'), Some(&3));
}

#[test]
fn dfa_closures_are_distinct_and_targets_valid() {
    let dfa = compile(&patterns(&["(a|b)*abb", "[a-c][a-c]*", "x"])).unwrap();
    assert!(dfa.lookup_table.is_valid());
    let mut sets: Vec<Vec<usize>> = dfa
        .vertexs
        .iter()
        .map(|v| {
            let mut s = v.epsilon_closure.clone();
            s.sort();
            s
        })
        .collect();
    let n = sets.len();
    sets.sort();
    sets.dedup();
    assert_eq!(sets.len(), n);
}

#[test]
fn state_that_ends_two_rules_lists_both() {
    let dfa = compile(&patterns(&["ab", "a(b|c)"])).unwrap();
    let rows = &dfa.lookup_table.states;
    let after_a = rows[0].neighbors[&b'a'];
    let after_ab = rows[after_a].neighbors[&b'b'];
    let after_ac = rows[after_a].neighbors[&b'c'];
    let mut both = rows[after_ab].handlers.clone();
    both.sort();
    assert_eq!(both, vec![0, 1]);
    assert_eq!(rows[after_ac].handlers, vec![1]);
    assert!(rows[after_a].handlers.is_empty());
}

#[test]
fn compile_reports_the_first_refused_pattern() {
    assert!(matches!(
        compile(&patterns(&["a", "(b", "[z-a]"])),
        Err(RegexError::UnbalancedGroup)
    ));
    assert!(matches!(
        compile(&patterns(&["[z-a]", "(b"])),
        Err(RegexError::InvalidRange)
    ));
    assert!(matches!(
        compile(&patterns(&["a", "\\x"])),
        Err(RegexError::InvalidEscape)
    ));
    assert!(matches!(
        compile(&patterns(&["a", "*"])),
        Err(RegexError::MalformedExpression)
    ));
}

#[test]
fn table_rows_and_validity() {
    let mut table = LookupTable::new();
    assert!(!table.is_valid());
    assert!(!table.is_acceptable(0));
    let mut row = LookupState::new();
    assert!(row.handlers.is_empty() && row.neighbors.is_empty());
    row.insert_neighbor(b'x', 1);
    assert_eq!(row.neighbors.get(&b'x'), Some(&1));
    table.states.push(row);
    assert!(!table.is_valid());
    let mut accepting = LookupState::new();
    accepting.handlers.push(2);
    accepting.insert_neighbor(255, 0);
    table.states.push(accepting);
    assert!(table.is_valid());
    assert!(!table.is_acceptable(0));
    assert!(table.is_acceptable(1));
    assert!(!table.is_acceptable(2));
    table.states[1].insert_neighbor(0, 2);
    assert!(!table.is_valid());
}

#[test]
fn nfa_validity() {
    let mut nfa = nfa_of("(a|b)*c", 0);
    assert!(nfa.is_valid());
    let n = nfa.states.len();
    nfa.states[0].epsilon_neighbors.push(n);
    assert!(!nfa.is_valid());
    nfa.states[0].epsilon_neighbors.pop();
    assert!(nfa.is_valid());
    nfa.states[1].neighbors.insert(255, n);
    assert!(!nfa.is_valid());
    nfa.states[1].neighbors.insert(255, n - 1);
    assert!(nfa.is_valid());
    nfa.start = NfaVertexRef::new(n);
    assert!(!nfa.is_valid());
    let empty = Nfa { states: Vec::new(), start: NfaVertexRef::new(0), end: NfaVertexRef::new(0) };
    assert!(!empty.is_valid());
}

#[test]
fn rows_are_numbered_as_first_reached() {
    let dfa = compile(&patterns(&["ba", "ab", "aa"])).unwrap();
    let rows = &dfa.lookup_table.states;
    // Row 0 is filled first, by rising byte; then row 1, and so on.
    assert_eq!(rows[0].neighbors.get(&b'a'), Some(&1));
    assert_eq!(rows[0].neighbors.get(&b'b'), Some(&2));
    assert_eq!(rows[1].neighbors.get(&b'a'), Some(&3));
    assert_eq!(rows[1].neighbors.get(&b'b'), Some(&4));
    assert_eq!(rows[2].neighbors.get(&b'a'), Some(&5));
    assert_eq!(rows.len(), 6);
    assert_eq!(rows[3].handlers, vec![2]);
    assert_eq!(rows[4].handlers, vec![1]);
    assert_eq!(rows[5].handlers, vec![0]);
}

#[test]
fn state_count_stays_within_the_subsets() {
    // (a|b)*a(a|b)(a|b): the classic pattern whose DFA needs a state for each
    // memory of the last three bytes.
    let dfa = Dfa::build(&nfa_of("(a|b)*a(a|b)(a|b)", 0));
    assert_eq!(dfa.vertexs.len(), 9);
    assert!(dfa.lookup_table.is_valid());
}
