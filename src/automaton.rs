//! The deterministic automaton: a partial transition table walked over an
//! input sequence.
use vstd::prelude::*;
use vstd::string::StrSliceExecFns;
use crate::text::{is_single, same_text};

verus! {

/// A state of a deterministic automaton: its index and its flags.
#[derive(Clone, Copy, PartialEq, Eq, Structural)]
pub struct State {
    pub number: usize,
    pub is_final: bool,
    pub is_error: bool,
}

impl State {
    pub fn new(number: usize, is_final: bool, is_error: bool) -> (r: State)
        ensures
            r == (State { number, is_final, is_error }),
    {
        State { number, is_final, is_error }
    }
}

/// The state every deterministic automaton starts in.
pub open spec fn initial_state() -> State {
    State { number: 0, is_final: false, is_error: false }
}

/// One row of the table: from a state index, on a symbol, to a state.
struct Entry {
    from: usize,
    symbol: String,
    to: State,
}

spec fn key_of(e: Entry) -> (usize, Seq<char>) {
    (e.from, e.symbol@)
}

/// A partial function from (state index, symbol) to a successor state.
pub struct TransitionMatrix {
    matrix: Vec<Entry>,
    start_state: State,
}

impl View for TransitionMatrix {
    type V = Map<(usize, Seq<char>), State>;

    closed spec fn view(&self) -> Map<(usize, Seq<char>), State> {
        Map::new(
            |k: (usize, Seq<char>)| exists|i: int| 0 <= i < self.matrix.len() && key_of(self.matrix[i]) == k,
            |k: (usize, Seq<char>)|
                self.matrix[choose|i: int| 0 <= i < self.matrix.len() && key_of(self.matrix[i]) == k].to,
        )
    }
}

impl TransitionMatrix {
    /// Keys are unique and the start state is the fixed initial state.
    pub closed spec fn wf(&self) -> bool {
        &&& self.start_state == initial_state()
        &&& forall|i: int, j: int|
            0 <= i < j < self.matrix.len() ==> key_of(self.matrix[i]) != key_of(self.matrix[j])
    }

    proof fn lemma_entry(&self, i: int)
        requires
            self.wf(),
            0 <= i < self.matrix.len(),
        ensures
            self@.contains_key(key_of(self.matrix[i])),
            self@[key_of(self.matrix[i])] == self.matrix[i].to,
    {
        let k = key_of(self.matrix[i]);
        assert(self@.dom().contains(k));
        let j = choose|j: int| 0 <= j < self.matrix.len() && key_of(self.matrix[j]) == k;
        if j != i {
            assert(key_of(self.matrix[i]) != key_of(self.matrix[j]));
        }
    }

    pub fn new() -> (r: TransitionMatrix)
        ensures
            r.wf(),
            r@ == Map::<(usize, Seq<char>), State>::empty(),
    {
        let r = TransitionMatrix { matrix: Vec::new(), start_state: State::new(0, false, false) };
        assert(r@ =~= Map::<(usize, Seq<char>), State>::empty());
        r
    }

    pub fn start_state(&self) -> (r: &State)
        requires
            self.wf(),
        ensures
            *r == initial_state(),
    {
        &self.start_state
    }

    /// The successor of `state` on `symbol`, if the table has one.
    pub fn transition(&self, state: &State, symbol: &str) -> (r: Option<&State>)
        requires
            self.wf(),
        ensures
            r == (if self@.contains_key((state.number, symbol@)) {
                Some(&self@[(state.number, symbol@)])
            } else {
                None::<&State>
            }),
    {
        let mut i: usize = 0;
        while i < self.matrix.len()
            invariant
                self.wf(),
                i <= self.matrix.len(),
                forall|j: int| 0 <= j < i ==> key_of(self.matrix[j]) != (state.number, symbol@),
            decreases self.matrix.len() - i,
        {
            if self.matrix[i].from == state.number && same_text(self.matrix[i].symbol.as_str(), symbol) {
                proof {
                    self.lemma_entry(i as int);
                }
                return Some(&self.matrix[i].to);
            }
            i = i + 1;
        }
        None
    }

    /// The successor of state index `from` on the one-character symbol `c`.
    fn step(&self, from: usize, c: char) -> (r: Option<State>)
        requires
            self.wf(),
        ensures
            r == (if self@.contains_key((from, seq![c])) {
                Some(self@[(from, seq![c])])
            } else {
                None::<State>
            }),
    {
        let mut i: usize = 0;
        while i < self.matrix.len()
            invariant
                self.wf(),
                i <= self.matrix.len(),
                forall|j: int| 0 <= j < i ==> key_of(self.matrix[j]) != (from, seq![c]),
            decreases self.matrix.len() - i,
        {
            if self.matrix[i].from == from && is_single(self.matrix[i].symbol.as_str(), c) {
                proof {
                    self.lemma_entry(i as int);
                }
                return Some(self.matrix[i].to);
            }
            i = i + 1;
        }
        None
    }

    /// Registers the edge `from_state --symbol--> to_state`; a previous edge
    /// for the same state index and symbol is overwritten.
    pub fn add(&mut self, from_state: State, to_state: State, symbol: &str)
        requires
            old(self).wf(),
        ensures
            final(self).wf(),
            final(self)@ == old(self)@.insert((from_state.number, symbol@), to_state),
    {
        let ghost k = (from_state.number, symbol@);
        let mut i: usize = 0;
        while i < self.matrix.len()
            invariant
                self.wf(),
                *self == *old(self),
                k == (from_state.number, symbol@),
                i <= self.matrix.len(),
                forall|j: int| 0 <= j < i ==> key_of(self.matrix[j]) != k,
            decreases self.matrix.len() - i,
        {
            let same_from = self.matrix[i].from == from_state.number;
            let same_symbol = same_text(self.matrix[i].symbol.as_str(), symbol);
            if same_from && same_symbol {
                let ghost before = self.matrix@;
                let ghost m0 = self@;
                self.matrix.set(i, Entry { from: from_state.number, symbol: symbol.to_owned(), to: to_state });
                proof {
                    assert(key_of(before[i as int]) == k);
                    assert(key_of(self.matrix[i as int]) == k);
                    assert forall|a: int, b: int|
                        0 <= a < b < self.matrix.len() implies key_of(self.matrix[a]) != key_of(self.matrix[b]) by {
                        assert(key_of(self.matrix[a]) == key_of(before[a]));
                        assert(key_of(self.matrix[b]) == key_of(before[b]));
                    }
                    assert forall|kk: (usize, Seq<char>)| #[trigger] self@.contains_key(kk)
                        <==> m0.insert(k, to_state).contains_key(kk) by {
                        if m0.contains_key(kk) {
                            let j = choose|j: int| 0 <= j < before.len() && key_of(before[j]) == kk;
                            assert(key_of(self.matrix[j]) == kk);
                        }
                        if self@.contains_key(kk) {
                            let j = choose|j: int| 0 <= j < self.matrix.len() && key_of(self.matrix[j]) == kk;
                            assert(key_of(before[j]) == kk);
                        }
                    }
                    assert forall|kk: (usize, Seq<char>)| #[trigger] self@.contains_key(kk)
                        implies self@[kk] == m0.insert(k, to_state)[kk] by {
                        let j = choose|j: int| 0 <= j < self.matrix.len() && key_of(self.matrix[j]) == kk;
                        self.lemma_entry(j);
                        if kk != k {
                            assert(j != i);
                            assert(self.matrix[j] == before[j]);
                            old(self).lemma_entry(j);
                        }
                    }
                    assert(self@ =~= m0.insert(k, to_state));
                }
                return;
            }
            i = i + 1;
        }
        let ghost before = self.matrix@;
        let ghost m0 = self@;
        self.matrix.push(Entry { from: from_state.number, symbol: symbol.to_owned(), to: to_state });
        proof {
            let n = before.len() as int;
            assert(key_of(self.matrix[n]) == k);
            assert forall|a: int, b: int|
                0 <= a < b < self.matrix.len() implies key_of(self.matrix[a]) != key_of(self.matrix[b]) by {
                if b < n {
                    assert(key_of(self.matrix[a]) == key_of(before[a]));
                    assert(key_of(self.matrix[b]) == key_of(before[b]));
                } else {
                    assert(key_of(self.matrix[a]) == key_of(before[a]));
                }
            }
            assert forall|kk: (usize, Seq<char>)| #[trigger] self@.contains_key(kk)
                <==> m0.insert(k, to_state).contains_key(kk) by {
                if m0.contains_key(kk) {
                    let j = choose|j: int| 0 <= j < before.len() && key_of(before[j]) == kk;
                    assert(key_of(self.matrix[j]) == kk);
                }
                if self@.contains_key(kk) && kk != k {
                    let j = choose|j: int| 0 <= j < self.matrix.len() && key_of(self.matrix[j]) == kk;
                    assert(key_of(before[j]) == kk);
                }
            }
            assert forall|kk: (usize, Seq<char>)| #[trigger] self@.contains_key(kk)
                implies self@[kk] == m0.insert(k, to_state)[kk] by {
                let j = choose|j: int| 0 <= j < self.matrix.len() && key_of(self.matrix[j]) == kk;
                self.lemma_entry(j);
                if kk != k {
                    old(self).lemma_entry(j);
                }
            }
            assert(self@ =~= m0.insert(k, to_state));
        }
    }
}

/// Walks `table` from `q` over `input`; `None` as soon as a symbol has no
/// transition.
pub open spec fn walk(table: Map<(usize, Seq<char>), State>, q: State, input: Seq<char>) -> Option<State>
    decreases input.len(),
{
    if input.len() == 0 {
        Some(q)
    } else if table.contains_key((q.number, seq![input[0]])) {
        walk(table, table[(q.number, seq![input[0]])], input.drop_first())
    } else {
        None
    }
}

/// Whether the walk over `input` ends, with no input left, on a final,
/// non-error state.
pub open spec fn accepted(table: Map<(usize, Seq<char>), State>, input: Seq<char>) -> bool {
    match walk(table, initial_state(), input) {
        Some(q) => q.is_final && !q.is_error,
        None => false,
    }
}

/// A deterministic automaton over a transition table.
pub struct Automaton {
    transition_matrix: TransitionMatrix,
}

impl View for Automaton {
    type V = Map<(usize, Seq<char>), State>;

    closed spec fn view(&self) -> Map<(usize, Seq<char>), State> {
        self.transition_matrix@
    }
}

impl Automaton {
    pub closed spec fn wf(&self) -> bool {
        self.transition_matrix.wf()
    }

    pub fn new() -> (r: Automaton)
        ensures
            r.wf(),
            r@ == Map::<(usize, Seq<char>), State>::empty(),
    {
        Automaton { transition_matrix: TransitionMatrix::new() }
    }

    /// Registers one deterministic edge; the last write for a state index and
    /// symbol wins.
    pub fn add_transition(&mut self, from_state: State, to_state: State, symbol: &str)
        requires
            old(self).wf(),
        ensures
            final(self).wf(),
            final(self)@ == old(self)@.insert((from_state.number, symbol@), to_state),
    {
        self.transition_matrix.add(from_state, to_state, symbol);
    }

    /// Whether the automaton accepts the whole of `sequence`.
    pub fn consume(&self, sequence: &str) -> (r: bool)
        requires
            self.wf(),
        ensures
            r == accepted(self@, sequence@),
    {
        let n = sequence.unicode_len();
        let mut current: State = *self.transition_matrix.start_state();
        let mut i: usize = 0;
        assert(sequence@.subrange(0, n as int) =~= sequence@);
        while i < n
            invariant
                self.wf(),
                n == sequence@.len(),
                i <= n,
                walk(self@, initial_state(), sequence@) == walk(self@, current, sequence@.subrange(i as int, n as int)),
            decreases n - i,
        {
            let c = sequence.get_char(i);
            let ghost rest = sequence@.subrange(i as int, n as int);
            assert(rest.drop_first() =~= sequence@.subrange(i + 1, n as int));
            assert(rest[0] == c);
            match self.transition(&current, c) {
                None => {
                    return false;
                },
                Some(next) => {
                    current = next;
                },
            }
            i = i + 1;
        }
        assert(sequence@.subrange(n as int, n as int) =~= Seq::<char>::empty());
        current.is_final && !current.is_error
    }

    fn transition(&self, state: &State, symbol: char) -> (r: Option<State>)
        requires
            self.wf(),
        ensures
            r == (if self@.contains_key((state.number, seq![symbol])) {
                Some(self@[(state.number, seq![symbol])])
            } else {
                None::<State>
            }),
    {
        self.transition_matrix.step(state.number, symbol)
    }
}

} // verus!
