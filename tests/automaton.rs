use automata::automaton::{Automaton, State, TransitionMatrix};

fn create_automaton() -> Automaton {
    let start = State::new(0, false, false);
    let first = State::new(1, false, false);
    let second = State::new(2, true, false);

    let mut automaton = Automaton::new();
    automaton.add_transition(start, first, "a");
    automaton.add_transition(first, second, "b");

    automaton
}

#[test]
fn test_consume_ab() {
    let automaton = create_automaton();
    assert_eq!(automaton.consume("ab"), true);
}

#[test]
fn test_consume_abc() {
    let automaton = create_automaton();
    assert_eq!(automaton.consume("abc"), false);
}

#[test]
fn test_consume_cab() {
    let automaton = create_automaton();
    assert_eq!(automaton.consume("cab"), false);
}

#[test]
fn consume_stops_on_a_non_final_state() {
    let automaton = create_automaton();
    assert_eq!(automaton.consume("a"), false);
}

#[test]
fn consume_rejects_the_empty_sequence_on_a_non_final_start() {
    let automaton = create_automaton();
    assert_eq!(automaton.consume(""), false);
}

#[test]
fn consume_rejects_an_error_state_that_is_final() {
    let mut automaton = Automaton::new();
    automaton.add_transition(State::new(0, false, false), State::new(1, true, true), "a");
    assert_eq!(automaton.consume("a"), false);
}

#[test]
fn last_write_for_a_state_and_symbol_wins() {
    let mut automaton = create_automaton();
    automaton.add_transition(State::new(0, false, false), State::new(2, true, false), "a");
    assert_eq!(automaton.consume("a"), true);
    assert_eq!(automaton.consume("ab"), false);
}

#[test]
fn multi_character_symbols_never_match_input() {
    let mut automaton = Automaton::new();
    automaton.add_transition(State::new(0, false, false), State::new(1, true, false), "ab");
    assert_eq!(automaton.consume("ab"), false);
}

#[test]
fn matrix_lookup_and_start_state() {
    let mut matrix = TransitionMatrix::new();
    let start = *matrix.start_state();
    assert_eq!(start.number, 0);
    assert!(!start.is_final);
    matrix.add(State::new(0, false, false), State::new(1, true, false), "x");
    assert_eq!(matrix.transition(&start, "x").map(|s| s.number), Some(1));
    assert!(matrix.transition(&start, "y").is_none());
    assert!(matrix.transition(&State::new(7, false, false), "x").is_none());
}
