use automata::nfa::{epsilon, Automaton, State, Transition, TransitionMatrix};

fn indices_in_range(a: &Automaton) -> bool {
    let ts = a.transitions();
    let mut most = 0;
    for t in &ts {
        most = most.max(t.from_state.number).max(t.to_state.number);
    }
    let finals: Vec<usize> = ts
        .iter()
        .flat_map(|t| [t.from_state, t.to_state])
        .filter(|s| s.is_final)
        .map(|s| s.number)
        .collect();
    finals.iter().all(|f| *f == most) && a.start_state.number == 0
}

#[test]
fn single_character_accepts_only_itself() {
    let a = Automaton::from_char("a");
    assert!(a.accepts("a"));
    assert!(!a.accepts(""));
    assert!(!a.accepts("b"));
    assert!(!a.accepts("aa"));
    assert_eq!(a.regex_str, "a");
}

#[test]
fn fragment_is_read_literally() {
    let a = Automaton::from_regex("a|b*");
    assert!(a.accepts("a|b*"));
    assert!(!a.accepts("a"));
    assert!(!a.accepts("b"));
    assert!(!a.accepts(""));
    assert_eq!(a.transitions().len(), 4 + 3 * 3);
}

#[test]
fn concatenation_appends_a_symbol() {
    let a = Automaton::from_regex("xy");
    let c = a.concatenate("b");
    assert!(c.accepts("xyb"));
    assert!(!c.accepts("xy"));
    assert!(!c.accepts("b"));
    assert!(!c.accepts("xybb"));
    assert_eq!(c.regex_str, "xyb");
}

#[test]
fn union_accepts_either_side() {
    let a = Automaton::from_regex("ab");
    let u = a.union("c");
    assert!(u.accepts("ab"));
    assert!(u.accepts("c"));
    assert!(!u.accepts("abc"));
    assert!(!u.accepts(""));
    assert!(!u.accepts("a"));
    assert_eq!(u.regex_str, "ab|c");
}

#[test]
fn kleene_closure_accepts_empty_and_the_fragment() {
    let a = Automaton::from_regex("ab");
    let k = a.kleene_closure();
    assert!(k.accepts(""));
    assert!(k.accepts("ab"));
    assert!(!k.accepts("a"));
    assert_eq!(k.regex_str, "ab*");
}

#[test]
fn kleene_closure_rebuilds_from_the_label() {
    let u = Automaton::from_char("a").union("b");
    let k = u.kleene_closure();
    assert!(k.accepts(""));
    assert!(k.accepts("a|b"));
    assert!(!k.accepts("b"));
}

#[test]
fn epsilon_cycles_terminate() {
    let mut a = Automaton::from_regex("ab");
    let ts = a.transitions();
    let last = ts.iter().map(|t| t.to_state.number).max().unwrap();
    let start = a.start_state;
    a.add_transition(&State::new(last, true), &start, epsilon());
    a.add_transition(&start, &State::new(last, true), epsilon());
    assert!(a.accepts(""));
    assert!(a.accepts("ab"));
    assert!(a.accepts("abab"));
    assert!(!a.accepts("aba"));
}

#[test]
fn every_combinator_keeps_one_start_and_one_final() {
    let a = Automaton::from_regex("ab");
    let b = Automaton::from_regex("cd");
    let built = [
        a.concatenate("e"),
        a.union("f"),
        a.kleene_closure(),
        b.concatenate("gh").union("i"),
    ];
    for x in &built {
        assert!(indices_in_range(x));
    }
}

#[test]
fn composing_renumbers_the_second_operand() {
    let a = Automaton::from_char("a");
    let c = a.concatenate("b");
    let ts = c.transitions();
    assert_eq!(ts.len(), 5);
    let n = ts
        .iter()
        .map(|t| t.from_state.number.max(t.to_state.number))
        .max()
        .unwrap();
    assert_eq!(n, 5);
    let mut texts: Vec<String> = ts.iter().map(|t| t.to_str()).collect();
    texts.sort();
    assert_eq!(
        texts,
        vec![
            "(s0->s1,)".to_string(),
            "(s1->s2,a)".to_string(),
            "(s2->s3,)".to_string(),
            "(s3->s4,b)".to_string(),
            "(s4->s5,)".to_string(),
        ]
    );
}

#[test]
fn transition_text_uses_state_names() {
    let t = Transition::new(&State::new(12, false), &State::new(3, true), "q");
    assert_eq!(t.to_str(), "(s12->s3,q)");
    assert_eq!(State::new(105, false).name(), "s105");
    assert_eq!(State::new(0, false).name(), "s0");
}

#[test]
fn matrix_adding_is_idempotent() {
    let mut m = TransitionMatrix::new();
    let a = State::new(0, false);
    let b = State::new(1, true);
    assert!(!m.is_valid(&a, &b, "x"));
    m.add_transition(&a, &b, "x");
    m.add_transition(&a, &b, "x");
    assert!(m.is_valid(&a, &b, "x"));
    assert!(!m.is_valid(&b, &a, "x"));
    assert!(!m.is_valid(&a, &b, "y"));
}

#[test]
fn duplicate_edge_is_not_repeated() {
    let mut a = Automaton::from_char("a");
    let before = a.transitions().len();
    a.add_transition(&State::new(0, false), &State::new(1, true), "a");
    assert_eq!(a.transitions().len(), before);
}

#[test]
fn transition_text_reads_back() {
    let t = Transition::new(&State::new(40, true), &State::new(7, false), "z");
    let back = Transition::from_str(&t.to_str()).unwrap();
    assert_eq!(back.from_state.number, 40);
    assert_eq!(back.to_state.number, 7);
    assert_eq!(back.symbol, "z");
    assert!(!back.from_state.is_final);
    let e = Transition::from_str("(s0->s1,ε)").unwrap();
    assert_eq!(e.symbol, "ε");
}

#[test]
fn transition_text_symbol_may_hold_separators() {
    let t = Transition::from_str("(s1->s2,,))").unwrap();
    assert_eq!(t.symbol, ",)");
    let t = Transition::from_str("(s3->s4,)").unwrap();
    assert_eq!(t.symbol, "");
}

#[test]
fn malformed_transition_text_is_refused() {
    assert!(Transition::from_str("").is_none());
    assert!(Transition::from_str("(s01->s1,a)").is_none());
    assert!(Transition::from_str("(s1->s2,a").is_none());
    assert!(Transition::from_str("(s1-s2,a)").is_none());
    assert!(Transition::from_str("(t1->s2,a)").is_none());
    assert!(Transition::from_str("(s->s2,a)").is_none());
    assert!(Transition::from_str("(s1->s2a)").is_none());
    assert!(Transition::from_str("(s99999999999999999999999->s0,a)").is_none());
}

#[test]
fn concatenation_law_on_a_union() {
    let a = Automaton::from_char("x").union("yz");
    let c = a.concatenate("b");
    assert!(c.accepts("xb"));
    assert!(c.accepts("yzb"));
    assert!(!c.accepts("x"));
    assert!(!c.accepts("b"));
    assert!(!c.accepts("yb"));
}

#[test]
fn union_law_with_overlapping_sides() {
    let a = Automaton::from_char("c");
    let u = a.union("c");
    assert!(u.accepts("c"));
    assert!(!u.accepts("cc"));
    assert!(!u.accepts(""));
}

#[test]
fn literal_epsilon_character_is_an_ordinary_symbol() {
    let e = Automaton::from_regex("ε");
    assert!(e.accepts("ε"));
    assert!(!e.accepts(""));
    let c = Automaton::from_char("a").concatenate("ε");
    assert!(c.accepts("aε"));
    assert!(!c.accepts("a"));
    let u = Automaton::from_char("a").union("ε");
    assert!(u.accepts("ε"));
    assert!(u.accepts("a"));
    assert!(!u.accepts(""));
}

#[test]
fn epsilon_label_is_empty() {
    assert_eq!(epsilon(), "");
}

#[test]
fn single_character_lists_one_edge() {
    let a = Automaton::from_char("q");
    let ts = a.transitions();
    assert_eq!(ts.len(), 1);
    assert_eq!(ts[0].to_str(), "(s0->s1,q)");
    assert!(!ts[0].from_state.is_final);
    assert!(ts[0].to_state.is_final);
}

#[test]
fn transitions_never_repeat_an_edge() {
    let a = Automaton::from_regex("abc").union("d").concatenate("e");
    let mut texts: Vec<String> = a.transitions().iter().map(|t| t.to_str()).collect();
    let n = texts.len();
    texts.sort();
    texts.dedup();
    assert_eq!(texts.len(), n);
}
