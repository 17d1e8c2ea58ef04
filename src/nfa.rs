//! The nondeterministic automaton: Thompson-style construction from
//! literal fragments, composition, and simulation.
use vstd::prelude::*;
use vstd::string::{StrSliceExecFns, StringExecFns};
use crate::model::{Edge, Model, add_model, append_final_model, append_model, bypass_model, char_model, concat_model, eps, in_language, insert_start_model, into_edges, kleene_model, lemma_closed_run, lemma_normalised, lemma_run_concat, lemma_run_split_last, normal, out_edges, reaches, reads, regex_model, run, shift_edges, shift_set, union_model, well_formed};
use crate::text::{decimal, decimal_text, digit_run, is_digit, is_single, lemma_canonical_decimal, lemma_decimal, lemma_numeral_run, numeral_at, read_number, same_text};

verus! {

/// The label `eps()` as a string.
pub fn epsilon() -> (r: &'static str)
    ensures
        r@ == eps(),
{
    proof {
        reveal_strlit("");
    }
    ""
}

/// A state of a nondeterministic automaton.
#[derive(Clone, Copy, PartialEq, Eq, Structural)]
pub struct State {
    pub number: usize,
    pub is_final: bool,
}

impl State {
    pub fn new(number: usize, is_final: bool) -> (r: State)
        ensures
            r == (State { number, is_final }),
    {
        State { number, is_final }
    }
}

/// The name of state `n`: `s` followed by its index.
pub open spec fn name_of(n: nat) -> Seq<char> {
    seq!['s'] + decimal(n)
}

/// The text of an edge: `(s{from}->s{to},{symbol})`.
pub open spec fn transition_text(t: Edge) -> Seq<char> {
    seq!['('] + name_of(t.0) + seq!['-', '>'] + name_of(t.1) + seq![','] + t.2 + seq![')']
}

/// Where the pieces of an edge's text stand.
proof fn lemma_text_shape(a: nat, b: nat, l: Seq<char>)
    ensures
        ({
            let t = transition_text((a, b, l));
            let e1 = 2 + decimal(a).len() as int;
            let e2 = e1 + 3 + decimal(b).len() as int;
            &&& t.len() == e2 + l.len() + 2
            &&& t[0] == '(' && t[1] == 's'
            &&& numeral_at(t, 2, a)
            &&& t[e1] == '-' && t[e1 + 1] == '>' && t[e1 + 2] == 's'
            &&& numeral_at(t, e1 + 3, b)
            &&& t[e2] == ','
            &&& t[t.len() - 1] == ')'
            &&& t.subrange(e2 + 1, t.len() - 1) == l
        }),
{
    let da = decimal(a);
    let db = decimal(b);
    let t = transition_text((a, b, l));
    let flat = seq!['(', 's'] + da + seq!['-', '>', 's'] + db + seq![','] + l + seq![')'];
    assert(t =~= flat);
    let e1 = 2 + da.len() as int;
    let e2 = e1 + 3 + db.len() as int;
    assert(t.subrange(2, e1) =~= da);
    assert(t.subrange(e1 + 3, e2) =~= db);
    assert(t.subrange(e2 + 1, t.len() - 1) =~= l);
    lemma_decimal(a);
    lemma_decimal(b);
}

impl State {
    /// The state's name, `s` followed by its index.
    pub fn name(&self) -> (r: String)
        ensures
            r@ == name_of(self.number as nat),
    {
        proof {
            reveal_strlit("s");
        }
        let mut r = "s".to_owned();
        r.append(decimal_text(self.number).as_str());
        r
    }
}

/// An edge between two states, labelled with a symbol or with `epsilon()`.
pub struct Transition {
    pub from_state: State,
    pub to_state: State,
    pub symbol: String,
}

impl View for Transition {
    type V = Edge;

    open spec fn view(&self) -> Edge {
        (self.from_state.number as nat, self.to_state.number as nat, self.symbol@)
    }
}

impl Transition {
    pub fn new(from_state: &State, to_state: &State, symbol: &str) -> (r: Transition)
        ensures
            r.from_state == *from_state,
            r.to_state == *to_state,
            r.symbol@ == symbol@,
    {
        Transition { from_state: *from_state, to_state: *to_state, symbol: symbol.to_owned() }
    }

    /// The text `(s{from}->s{to},{symbol})`.
    pub fn to_str(&self) -> (r: String)
        ensures
            r@ == transition_text(self@),
    {
        proof {
            reveal_strlit("(");
            reveal_strlit("->");
            reveal_strlit(",");
            reveal_strlit(")");
        }
        let mut r = "(".to_owned();
        r.append(self.from_state.name().as_str());
        r.append("->");
        r.append(self.to_state.name().as_str());
        r.append(",");
        r.append(self.symbol.as_str());
        r.append(")");
        assert(r@ =~= transition_text(self@));
        r
    }

    /// Reads back the text that `to_str` writes. The text carries no flags,
    /// so both states come back non-final.
    pub fn from_str(transition_str: &str) -> (r: Option<Transition>)
        ensures
            match r {
                Some(t) => transition_text(t@) == transition_str@ && !t.from_state.is_final
                    && !t.to_state.is_final,
                None => forall|a: nat, b: nat, l: Seq<char>|
                    a <= usize::MAX && b <= usize::MAX ==> transition_text((a, b, l)) != transition_str@,
            },
    {
        let ghost t = transition_str@;
        let ghost found = exists|a: nat, b: nat, l: Seq<char>|
            a <= usize::MAX && b <= usize::MAX && transition_text((a, b, l)) == t;
        let ghost g: (nat, nat, Seq<char>) = if found {
            choose|g: (nat, nat, Seq<char>)| g.0 <= usize::MAX && g.1 <= usize::MAX && transition_text(g) == t
        } else {
            (0nat, 0nat, Seq::<char>::empty())
        };
        proof {
            if found {
                let (a, b, l) = choose|a: nat, b: nat, l: Seq<char>|
                    a <= usize::MAX && b <= usize::MAX && transition_text((a, b, l)) == t;
                assert(transition_text((a, b, l)) == t);
                lemma_text_shape(g.0, g.1, g.2);
            }
        }
        let n = transition_str.unicode_len();
        if n < 2 || transition_str.get_char(0) != '(' || transition_str.get_char(1) != 's' {
            return None;
        }
        let (a, e1) = match read_number(transition_str, 2) {
            None => {
                return None;
            },
            Some(p) => p,
        };
        proof {
            if found {
                lemma_numeral_run(t, 2, g.0, e1 as int);
            }
        }
        if n - e1 < 3 || transition_str.get_char(e1) != '-' || transition_str.get_char(e1 + 1) != '>'
            || transition_str.get_char(e1 + 2) != 's' {
            return None;
        }
        let (b, e2) = match read_number(transition_str, e1 + 3) {
            None => {
                return None;
            },
            Some(p) => p,
        };
        proof {
            if found {
                lemma_numeral_run(t, e1 + 3, g.1, e2 as int);
            }
        }
        if n - e2 < 2 || transition_str.get_char(e2) != ',' || transition_str.get_char(n - 1) != ')' {
            return None;
        }
        let symbol = transition_str.substring_char(e2 + 1, n - 1);
        let r = Transition::new(&State::new(a, false), &State::new(b, false), symbol);
        proof {
            lemma_canonical_decimal(t.subrange(2, e1 as int));
            lemma_canonical_decimal(t.subrange(e1 + 3, e2 as int));
            assert(t =~= transition_text(r@));
        }
        Some(r)
    }
}

/// The set of edges that a sequence of transitions holds.
pub open spec fn edge_set(s: Seq<Transition>) -> Set<Edge> {
    Set::new(|t: Edge| exists|i: int| 0 <= i < s.len() && s[i]@ == t)
}

proof fn lemma_edge_set_push(s: Seq<Transition>, t: Transition)
    ensures
        edge_set(s.push(t)) == edge_set(s).insert(t@),
{
    assert forall|e: Edge| #[trigger] edge_set(s.push(t)).contains(e) <==> edge_set(s).insert(t@).contains(e) by {
        if edge_set(s).contains(e) {
            let i = choose|i: int| 0 <= i < s.len() && s[i]@ == e;
            assert(s.push(t)[i]@ == e);
        }
        if e == t@ {
            assert(s.push(t)[s.len() as int]@ == e);
        }
        if edge_set(s.push(t)).contains(e) && e != t@ {
            let i = choose|i: int| 0 <= i < s.len() + 1 && s.push(t)[i]@ == e;
            assert(s[i]@ == e);
        }
    }
    assert(edge_set(s.push(t)) =~= edge_set(s).insert(t@));
}

proof fn lemma_edge_set_prefix(s: Seq<Transition>, i: int)
    requires
        0 <= i < s.len(),
    ensures
        edge_set(s.take(i + 1)) == edge_set(s.take(i)).insert(s[i]@),
{
    assert(s.take(i + 1) =~= s.take(i).push(s[i]));
    lemma_edge_set_push(s.take(i), s[i]);
}

/// The edges of a nondeterministic automaton, without repetition.
pub struct TransitionMatrix {
    matrix: Vec<Transition>,
}

impl View for TransitionMatrix {
    type V = Set<Edge>;

    closed spec fn view(&self) -> Set<Edge> {
        edge_set(self.matrix@)
    }
}

impl TransitionMatrix {
    /// No edge is held twice.
    pub closed spec fn wf(&self) -> bool {
        forall|i: int, j: int| 0 <= i < j < self.matrix.len() ==> self.matrix[i]@ != self.matrix[j]@
    }

    pub fn new() -> (r: TransitionMatrix)
        ensures
            r.wf(),
            r@ == Set::<Edge>::empty(),
    {
        let r = TransitionMatrix { matrix: Vec::new() };
        assert(r@ =~= Set::<Edge>::empty());
        r
    }

    /// Whether the edge `from_state --symbol--> to_state` is present.
    pub fn is_valid(&self, from_state: &State, to_state: &State, symbol: &str) -> (r: bool)
        ensures
            r == self@.contains((from_state.number as nat, to_state.number as nat, symbol@)),
    {
        let ghost t = (from_state.number as nat, to_state.number as nat, symbol@);
        let mut i: usize = 0;
        while i < self.matrix.len()
            invariant
                t == (from_state.number as nat, to_state.number as nat, symbol@),
                i <= self.matrix.len(),
                forall|j: int| 0 <= j < i ==> self.matrix[j]@ != t,
            decreases self.matrix.len() - i,
        {
            let e = &self.matrix[i];
            if e.from_state.number == from_state.number && e.to_state.number == to_state.number
                && same_text(e.symbol.as_str(), symbol) {
                assert(self.matrix[i as int]@ == t);
                return true;
            }
            i = i + 1;
        }
        false
    }

    /// Adds the edge `from_state --symbol--> to_state`; adding an edge that is
    /// present already changes nothing.
    pub fn add_transition(&mut self, from_state: &State, to_state: &State, symbol: &str)
        requires
            old(self).wf(),
        ensures
            final(self).wf(),
            final(self)@ == old(self)@.insert((from_state.number as nat, to_state.number as nat, symbol@)),
    {
        if self.is_valid(from_state, to_state, symbol) {
            assert(self@.insert((from_state.number as nat, to_state.number as nat, symbol@)) =~= self@);
            return;
        }
        let t = Transition::new(from_state, to_state, symbol);
        proof {
            lemma_edge_set_push(self.matrix@, t);
            assert forall|i: int| 0 <= i < self.matrix.len() implies self.matrix[i]@ != t@ by {
                assert(self@.contains(self.matrix[i]@));
            }
        }
        self.matrix.push(t);
    }

    /// Adds every edge of `src` with both ends raised by `d`.
    fn add_shifted(&mut self, src: &TransitionMatrix, d: usize)
        requires
            old(self).wf(),
            forall|t: Edge| src@.contains(t) ==> t.0 + d <= usize::MAX && t.1 + d <= usize::MAX,
        ensures
            final(self).wf(),
            final(self)@ == old(self)@ + shift_edges(src@, d as nat),
    {
        let mut i: usize = 0;
        while i < src.matrix.len()
            invariant
                self.wf(),
                i <= src.matrix.len(),
                forall|t: Edge| src@.contains(t) ==> t.0 + d <= usize::MAX && t.1 + d <= usize::MAX,
                self@ == old(self)@ + shift_edges(edge_set(src.matrix@.take(i as int)), d as nat),
            decreases src.matrix.len() - i,
        {
            let e = &src.matrix[i];
            assert(src@.contains(src.matrix[i as int]@));
            let a = State::new(e.from_state.number + d, e.from_state.is_final);
            let b = State::new(e.to_state.number + d, e.to_state.is_final);
            self.add_transition(&a, &b, e.symbol.as_str());
            proof {
                lemma_edge_set_prefix(src.matrix@, i as int);
                let t = src.matrix[i as int]@;
                let st = (a.number as nat, b.number as nat, t.2);
                let pre = edge_set(src.matrix@.take(i as int));
                assert(shift_edges(pre.insert(t), d as nat) =~= shift_edges(pre, d as nat).insert(st));
                assert(self@ =~= old(self)@ + shift_edges(pre.insert(t), d as nat));
            }
            i = i + 1;
        }
        assert(src.matrix@.take(src.matrix.len() as int) =~= src.matrix@);
    }
}

/// Some state of `cur` has an edge to `x` that reads `c`.
pub open spec fn moved(m: Model, cur: Seq<bool>, c: char, x: nat) -> bool {
    exists|q: nat, l: Seq<char>|
        #![trigger m.edges.contains((q, x, l))]
        q < cur.len() && cur[q as int] && m.edges.contains((q, x, l)) && reads(l, c)
}

/// `x` lies on an epsilon path from some state of `seed`.
pub open spec fn closure_holds(m: Model, seed: Seq<bool>, x: nat) -> bool {
    exists|q: nat| q < seed.len() && seed[q as int] && reaches(m, q, Seq::<char>::empty(), x)
}

/// The number of entries of `s` that are false.
pub open spec fn unmarked(s: Seq<bool>) -> nat
    decreases s.len(),
{
    if s.len() == 0 {
        0
    } else {
        unmarked(s.drop_last()) + if s.last() {
            0nat
        } else {
            1nat
        }
    }
}

proof fn lemma_unmarked_set(s: Seq<bool>, i: int)
    requires
        0 <= i < s.len(),
        !s[i],
    ensures
        unmarked(s.update(i, true)) + 1 == unmarked(s),
    decreases s.len(),
{
    let t = s.update(i, true);
    if i == s.len() - 1 {
        assert(t.drop_last() =~= s.drop_last());
    } else {
        assert(t.drop_last() =~= s.drop_last().update(i, true));
        lemma_unmarked_set(s.drop_last(), i);
    }
}

/// The indices of the final states in an arena of states.
pub open spec fn finals_of(s: Seq<State>) -> Set<nat> {
    Set::new(|i: nat| i < s.len() && s[i as int].is_final)
}

/// Each state of the arena carries its own index.
pub open spec fn numbered(s: Seq<State>) -> bool {
    forall|i: int| 0 <= i < s.len() ==> #[trigger] s[i].number == i
}

/// Appends the states of `src`, renumbered after those of `dst`; with
/// `keep_final` false they are all made non-final.
fn push_states(dst: &mut Vec<State>, src: &Vec<State>, keep_final: bool)
    requires
        old(dst).len() + src.len() <= usize::MAX,
        numbered(old(dst)@),
    ensures
        final(dst).len() == old(dst).len() + src.len(),
        numbered(final(dst)@),
        forall|i: int| 0 <= i < old(dst).len() ==> final(dst)[i] == old(dst)[i],
        forall|k: int| 0 <= k < src.len() ==> #[trigger] final(dst)[old(dst).len() + k].is_final == (keep_final
            && src[k].is_final),
{
    let base = dst.len();
    let mut k: usize = 0;
    while k < src.len()
        invariant
            base == old(dst).len(),
            base + src.len() <= usize::MAX,
            k <= src.len(),
            dst.len() == base + k,
            numbered(dst@),
            forall|i: int| 0 <= i < base ==> dst[i] == old(dst)[i],
            forall|j: int| 0 <= j < k ==> #[trigger] dst[base + j].is_final == (keep_final && src[j].is_final),
        decreases src.len() - k,
    {
        dst.push(State::new(base + k, keep_final && src[k].is_final));
        proof {
            assert(dst[base + k as int].is_final == (keep_final && src[k as int].is_final));
        }
        k = k + 1;
    }
}

/// Adds an epsilon edge from each final state of `states` to `target`.
fn link_finals(m: &mut TransitionMatrix, states: &Vec<State>, target: usize)
    requires
        old(m).wf(),
        numbered(states@),
    ensures
        final(m).wf(),
        final(m)@ == old(m)@ + into_edges(finals_of(states@), target as nat),
{
    let to = State::new(target, false);
    let mut k: usize = 0;
    while k < states.len()
        invariant
            m.wf(),
            numbered(states@),
            to.number == target,
            k <= states.len(),
            m@ == old(m)@ + Set::new(|t: Edge| t.0 < k && states[t.0 as int].is_final && t.1 == target && t.2 == eps()),
        decreases states.len() - k,
    {
        let ghost before = m@;
        if states[k].is_final {
            m.add_transition(&states[k], &to, epsilon());
        }
        assert(m@ =~= old(m)@ + Set::new(|t: Edge| t.0 < k + 1 && states[t.0 as int].is_final && t.1 == target && t.2 == eps()));
        k = k + 1;
    }
    assert(m@ =~= old(m)@ + into_edges(finals_of(states@), target as nat));
}

/// Adds an epsilon edge from `source` to each final state of `states`.
fn link_to_finals(m: &mut TransitionMatrix, source: usize, states: &Vec<State>)
    requires
        old(m).wf(),
        numbered(states@),
    ensures
        final(m).wf(),
        final(m)@ == old(m)@ + out_edges(source as nat, finals_of(states@)),
{
    let from = State::new(source, false);
    let mut k: usize = 0;
    while k < states.len()
        invariant
            m.wf(),
            numbered(states@),
            from.number == source,
            k <= states.len(),
            m@ == old(m)@ + Set::new(|t: Edge| t.1 < k && states[t.1 as int].is_final && t.0 == source && t.2 == eps()),
        decreases states.len() - k,
    {
        if states[k].is_final {
            m.add_transition(&from, &states[k], epsilon());
        }
        assert(m@ =~= old(m)@ + Set::new(|t: Edge| t.1 < k + 1 && states[t.1 as int].is_final && t.0 == source && t.2 == eps()));
        k = k + 1;
    }
    assert(m@ =~= old(m)@ + out_edges(source as nat, finals_of(states@)));
}

/// A nondeterministic automaton built from a fragment, with the fragment it
/// was built from as a label.
pub struct Automaton {
    pub regex_str: String,
    pub start_state: State,
    pub transition_matrix: TransitionMatrix,
    pub states: Vec<State>,
}

impl View for Automaton {
    type V = Model;

    closed spec fn view(&self) -> Model {
        Model {
            n: self.states.len() as nat,
            start: self.start_state.number as nat,
            finals: finals_of(self.states@),
            edges: self.transition_matrix@,
        }
    }
}

impl Automaton {
    /// The fragment the automaton was built from.
    pub open spec fn label(&self) -> Seq<char> {
        self.regex_str@
    }

    /// The arena is numbered, the start state is the one stored in the arena
    /// and the model is well formed.
    pub closed spec fn wf(&self) -> bool {
        &&& numbered(self.states@)
        &&& self.start_state.number < self.states.len()
        &&& self.start_state == self.states[self.start_state.number as int]
        &&& self.transition_matrix.wf()
        &&& well_formed(self@)
    }

    /// A well-formed automaton has a well-formed model.
    pub proof fn lemma_wf(&self)
        requires
            self.wf(),
        ensures
            well_formed(self@),
    {
    }

    proof fn lemma_shift_fits(&self, d: nat)
        requires
            self.wf(),
            self@.n + d <= usize::MAX,
        ensures
            forall|t: Edge| self.transition_matrix@.contains(t) ==> t.0 + d <= usize::MAX && t.1 + d <= usize::MAX,
    {
        assert forall|t: Edge| self.transition_matrix@.contains(t) implies t.0 + d <= usize::MAX && t.1 + d <= usize::MAX by {
            assert(self@.edges.contains(t));
        }
    }

    /// `other` placed after `self`, each final state of `self` joined to the
    /// start of `other` by an epsilon edge.
    fn append(&self, other: Automaton) -> (r: Automaton)
        requires
            self.wf(),
            other.wf(),
            self@.n + other@.n <= usize::MAX,
        ensures
            r.wf(),
            r@ == append_model(self@, other@),
    {
        let n1 = self.states.len();
        let mut states: Vec<State> = Vec::new();
        push_states(&mut states, &self.states, false);
        let ghost s1 = states@;
        push_states(&mut states, &other.states, true);
        proof {
            self.lemma_shift_fits(0);
            other.lemma_shift_fits(n1 as nat);
        }
        let mut m = TransitionMatrix::new();
        m.add_shifted(&self.transition_matrix, 0);
        m.add_shifted(&other.transition_matrix, n1);
        link_finals(&mut m, &self.states, other.start_state.number + n1);
        let r = Automaton {
            regex_str: String::new(),
            start_state: states[self.start_state.number],
            transition_matrix: m,
            states,
        };
        proof {
            let a = self@;
            let b = other@;
            assert(shift_edges(a.edges, 0) =~= a.edges);
            assert forall|i: nat| finals_of(r.states@).contains(i) <==> shift_set(b.finals, a.n).contains(i) by {
                if i < a.n {
                    assert(s1[0 + i as int].is_final == false);
                    assert(r.states[i as int] == s1[i as int]);
                } else if i < r@.n {
                    let k = i - a.n;
                    assert(r.states[a.n + k].is_final == other.states[k].is_final);
                }
            }
            assert(finals_of(r.states@) =~= shift_set(b.finals, a.n));
            assert(r@.edges =~= append_model(a, b).edges);
            assert(r@ =~= append_model(a, b));
            assert forall|t: Edge| r@.edges.contains(t) implies t.0 < r@.n && t.1 < r@.n by {
                if a.edges.contains(t) {
                } else if shift_edges(b.edges, a.n).contains(t) {
                    assert(b.edges.contains(((t.0 - a.n) as nat, (t.1 - a.n) as nat, t.2)));
                }
            }
        }
        r
    }

    /// `other` placed after `self`, with no edge between them.
    fn add(&self, other: Automaton) -> (r: Automaton)
        requires
            self.wf(),
            other.wf(),
            self@.n + other@.n <= usize::MAX,
        ensures
            r.wf(),
            r@ == add_model(self@, other@),
    {
        let n1 = self.states.len();
        let mut states: Vec<State> = Vec::new();
        push_states(&mut states, &self.states, true);
        let ghost s1 = states@;
        push_states(&mut states, &other.states, true);
        proof {
            self.lemma_shift_fits(0);
            other.lemma_shift_fits(n1 as nat);
        }
        let mut m = TransitionMatrix::new();
        m.add_shifted(&self.transition_matrix, 0);
        m.add_shifted(&other.transition_matrix, n1);
        let r = Automaton {
            regex_str: String::new(),
            start_state: states[self.start_state.number],
            transition_matrix: m,
            states,
        };
        proof {
            let a = self@;
            let b = other@;
            assert(shift_edges(a.edges, 0) =~= a.edges);
            assert forall|i: nat| finals_of(r.states@).contains(i) <==> (a.finals + shift_set(b.finals, a.n)).contains(i) by {
                if i < a.n {
                    assert(s1[0 + i as int].is_final == self.states[i as int].is_final);
                    assert(r.states[i as int] == s1[i as int]);
                } else if i < r@.n {
                    let k = i - a.n;
                    assert(r.states[a.n + k].is_final == other.states[k].is_final);
                }
            }
            assert(finals_of(r.states@) =~= a.finals + shift_set(b.finals, a.n));
            assert(r@.edges =~= add_model(a, b).edges);
            assert(r@ =~= add_model(a, b));
            assert forall|t: Edge| r@.edges.contains(t) implies t.0 < r@.n && t.1 < r@.n by {
                if a.edges.contains(t) {
                } else {
                    assert(b.edges.contains(((t.0 - a.n) as nat, (t.1 - a.n) as nat, t.2)));
                }
            }
        }
        r
    }

    /// Adds a last state as the only final one, with an epsilon edge into it
    /// from each former final state.
    fn append_final(&mut self)
        requires
            old(self).wf(),
            old(self)@.n < usize::MAX,
        ensures
            final(self).wf(),
            final(self)@ == append_final_model(old(self)@),
            final(self).regex_str == old(self).regex_str,
    {
        let n = self.states.len();
        link_finals(&mut self.transition_matrix, &self.states, n);
        let mut states: Vec<State> = Vec::new();
        push_states(&mut states, &self.states, false);
        let ghost s1 = states@;
        states.push(State::new(n, true));
        self.states = states;
        self.start_state = self.states[self.start_state.number];
        proof {
            let m = old(self)@;
            assert forall|i: nat| finals_of(self.states@).contains(i) <==> set![m.n].contains(i) by {
                if i < m.n {
                    assert(s1[0 + i as int].is_final == false);
                    assert(self.states[i as int] == s1[i as int]);
                }
            }
            assert(finals_of(self.states@) =~= set![m.n]);
            assert(self@ =~= append_final_model(m));
        }
    }

    /// Adds a new state 0 as the start, with an epsilon edge to the former
    /// start; every other state moves up by one.
    fn insert_start(&mut self)
        requires
            old(self).wf(),
            old(self)@.n < usize::MAX,
        ensures
            final(self).wf(),
            final(self)@ == insert_start_model(old(self)@),
            final(self).regex_str == old(self).regex_str,
    {
        let mut states: Vec<State> = Vec::new();
        states.push(State::new(0, false));
        push_states(&mut states, &self.states, true);
        proof {
            self.lemma_shift_fits(1);
        }
        let mut m = TransitionMatrix::new();
        m.add_shifted(&self.transition_matrix, 1);
        let start = states[0];
        m.add_transition(&start, &states[self.start_state.number + 1], epsilon());
        self.transition_matrix = m;
        self.states = states;
        self.start_state = start;
        proof {
            let o = old(self)@;
            assert forall|i: nat| finals_of(self.states@).contains(i) <==> shift_set(o.finals, 1).contains(i) by {
                if 1 <= i < self@.n {
                    let k = i - 1;
                    assert(self.states[1 + k].is_final == old(self).states[k].is_final);
                }
            }
            assert(finals_of(self.states@) =~= shift_set(o.finals, 1));
            assert(self@.edges =~= insert_start_model(o).edges);
            assert(self@ =~= insert_start_model(o));
            assert forall|t: Edge| self@.edges.contains(t) implies t.0 < self@.n && t.1 < self@.n by {
                if t != (0nat, o.start + 1, eps()) {
                    assert(o.edges.contains(((t.0 - 1) as nat, (t.1 - 1) as nat, t.2)));
                }
            }
        }
    }

    /// Adds an epsilon edge from the start to each final state.
    fn bypass(&mut self)
        requires
            old(self).wf(),
        ensures
            final(self).wf(),
            final(self)@ == bypass_model(old(self)@),
            final(self).regex_str == old(self).regex_str,
    {
        link_to_finals(&mut self.transition_matrix, self.start_state.number, &self.states);
        assert(self@ =~= bypass_model(old(self)@));
    }

    /// The automaton with one edge `0 --character--> 1`, state 1 final.
    pub fn from_char(character: &str) -> (r: Automaton)
        requires
            character@.len() == 1,
        ensures
            r.wf(),
            r@ == char_model(character@),
            normal(r@),
            r.label() == character@,
    {
        let start = State::new(0, false);
        let end = State::new(1, true);
        let mut states: Vec<State> = Vec::new();
        states.push(start);
        states.push(end);
        let mut new = Automaton {
            regex_str: character.to_owned(),
            start_state: start,
            transition_matrix: TransitionMatrix::new(),
            states,
        };
        new.transition_matrix.add_transition(&start, &end, character);
        proof {
            assert(finals_of(new.states@) =~= set![1nat]);
            assert(new@.edges =~= set![(0nat, 1nat, character@)]);
            assert(new@ =~= char_model(character@));
        }
        new
    }

    /// `self` followed by `other`, then normalised to one start and one final
    /// state; the label is the two labels one after the other.
    fn join(&self, other: Automaton) -> (r: Automaton)
        requires
            self.wf(),
            other.wf(),
            self@.n + other@.n + 2 <= usize::MAX,
        ensures
            r.wf(),
            r@ == concat_model(self@, other@),
            normal(r@),
            r.label() == self.label() + other.regex_str@,
    {
        let label = self.regex_str.clone().concat(other.regex_str.as_str());
        let mut new = self.append(other);
        new.append_final();
        new.insert_start();
        new.regex_str = label;
        proof {
            lemma_normalised(append_model(self@, other@));
        }
        new
    }

    /// The automaton of a literal fragment: each character in turn, with no
    /// operator given a meaning.
    pub fn from_regex(regex_str: &str) -> (r: Automaton)
        requires
            regex_str@.len() >= 1,
            4 * regex_str@.len() <= usize::MAX,
        ensures
            r.wf(),
            r@ == regex_model(regex_str@),
            r@.n == 4 * regex_str@.len() - 2,
            normal(r@),
            r.label() == regex_str@,
        decreases regex_str@.len(),
    {
        let n = regex_str.unicode_len();
        if n == 1 {
            return Automaton::from_char(regex_str);
        }
        let first_char = regex_str.substring_char(0, 1);
        let rest = regex_str.substring_char(1, n);
        assert(first_char@ =~= regex_str@.take(1));
        assert(rest@ =~= regex_str@.drop_first());
        let head = Automaton::from_char(first_char);
        let tail = Automaton::from_regex(rest);
        let r = head.join(tail);
        assert(r.regex_str@ =~= regex_str@);
        r
    }

    /// `self` followed by the literal fragment `regex_str`.
    pub fn concatenate(&self, regex_str: &str) -> (r: Automaton)
        requires
            self.wf(),
            regex_str@.len() >= 1,
            self@.n + 4 * regex_str@.len() <= usize::MAX,
        ensures
            r.wf(),
            r@ == concat_model(self@, regex_model(regex_str@)),
            normal(r@),
            r@.n == self@.n + 4 * regex_str@.len(),
            r.label() == self.label() + regex_str@,
    {
        let other = Automaton::from_regex(regex_str);
        self.join(other)
    }

    /// `self` or the literal fragment `regex_str`: a new start branches to
    /// both starts and both finals lead to a new final state; the label is
    /// `self`'s label, `|`, then `regex_str`.
    pub fn union(&self, regex_str: &str) -> (r: Automaton)
        requires
            self.wf(),
            regex_str@.len() >= 1,
            self@.n + 4 * regex_str@.len() <= usize::MAX,
        ensures
            r.wf(),
            r@ == union_model(self@, regex_model(regex_str@)),
            normal(r@),
            r@.n == self@.n + 4 * regex_str@.len(),
            r.label() == self.label() + seq!['|'] + regex_str@,
    {
        let other = Automaton::from_regex(regex_str);
        let ghost b = other@;
        let n1 = self.states.len();
        let mut new = self.add(other);
        new.append_final();
        new.insert_start();
        let second = new.states[n1 + 1];
        let start = new.start_state;
        new.transition_matrix.add_transition(&start, &second, epsilon());
        proof {
            reveal_strlit("|");
        }
        new.regex_str = self.regex_str.clone().concat("|").concat(regex_str);
        proof {
            lemma_normalised(add_model(self@, b));
            assert(new@ =~= union_model(self@, b));
        }
        new
    }

    /// The automaton of `self`'s own label, rebuilt, with an epsilon edge from
    /// start to final before and again after normalisation; the label gains
    /// a trailing `*`.
    pub fn kleene_closure(&self) -> (r: Automaton)
        requires
            self.label().len() >= 1,
            4 * self.label().len() + 2 <= usize::MAX,
        ensures
            r.wf(),
            r@ == kleene_model(self.label()),
            normal(r@),
            r.label() == self.label() + seq!['*'],
    {
        let mut new = Automaton::from_regex(self.regex_str.as_str());
        let ghost m = new@;
        new.bypass();
        new.append_final();
        new.insert_start();
        new.bypass();
        proof {
            reveal_strlit("*");
            lemma_normalised(bypass_model(m));
        }
        new.regex_str = self.regex_str.clone().concat("*");
        new
    }

    /// Every edge, once each, with the current flags of its two states.
    pub fn transitions(&self) -> (r: Vec<Transition>)
        requires
            self.wf(),
        ensures
            edge_set(r@) == self@.edges,
            forall|i: int, j: int| 0 <= i < j < r.len() ==> r[i]@ != r[j]@,
            forall|i: int| 0 <= i < r.len() ==> (#[trigger] r[i]).from_state.is_final == self@.finals.contains(
                r[i].from_state.number as nat,
            ) && r[i].to_state.is_final == self@.finals.contains(r[i].to_state.number as nat),
    {
        let mut r: Vec<Transition> = Vec::new();
        let len = self.transition_matrix.matrix.len();
        let mut j: usize = 0;
        while j < len
            invariant
                self.wf(),
                len == self.transition_matrix.matrix.len(),
                j <= len,
                r.len() == j,
                forall|i: int| 0 <= i < j ==> r[i]@ == self.transition_matrix.matrix[i]@,
                forall|i: int| 0 <= i < r.len() ==> (#[trigger] r[i]).from_state.is_final == self@.finals.contains(
                    r[i].from_state.number as nat,
                ) && r[i].to_state.is_final == self@.finals.contains(r[i].to_state.number as nat),
            decreases len - j,
        {
            proof {
                self.lemma_edge_at(j as int);
            }
            let e = &self.transition_matrix.matrix[j];
            let t = Transition::new(&self.states[e.from_state.number], &self.states[e.to_state.number], e.symbol.as_str());
            r.push(t);
            j = j + 1;
        }
        proof {
            assert(r@.len() == self.transition_matrix.matrix@.len());
            assert forall|t: Edge| edge_set(r@).contains(t) <==> self@.edges.contains(t) by {
                if edge_set(r@).contains(t) {
                    let i = choose|i: int| 0 <= i < r@.len() && r@[i]@ == t;
                    assert(self.transition_matrix.matrix[i]@ == t);
                }
                if self@.edges.contains(t) {
                    let i = choose|i: int| 0 <= i < len && self.transition_matrix.matrix[i]@ == t;
                    assert(r@[i]@ == t);
                }
            }
            assert(edge_set(r@) =~= self@.edges);
        }
        r
    }

    /// Adds one edge between two existing states.
    pub fn add_transition(&mut self, from_state: &State, to_state: &State, symbol: &str)
        requires
            old(self).wf(),
            from_state.number < old(self)@.n,
            to_state.number < old(self)@.n,
        ensures
            final(self).wf(),
            final(self)@ == (Model {
                edges: old(self)@.edges.insert((from_state.number as nat, to_state.number as nat, symbol@)),
                ..old(self)@
            }),
            final(self).label() == old(self).label(),
    {
        self.transition_matrix.add_transition(from_state, to_state, symbol);
        assert(self@ =~= (Model {
            edges: old(self)@.edges.insert((from_state.number as nat, to_state.number as nat, symbol@)),
            ..old(self)@
        }));
    }

    proof fn lemma_edge_at(&self, j: int)
        requires
            self.wf(),
            0 <= j < self.transition_matrix.matrix.len(),
        ensures
            self@.edges.contains(self.transition_matrix.matrix[j]@),
            self.transition_matrix.matrix[j].from_state.number < self@.n,
            self.transition_matrix.matrix[j].to_state.number < self@.n,
    {
        assert(self@.edges.contains(self.transition_matrix.matrix[j]@));
    }

    /// Every state that an epsilon path leads to from a state of `seed`.
    fn epsilon_closure(&self, seed: Vec<bool>) -> (r: Vec<bool>)
        requires
            self.wf(),
            seed.len() == self@.n,
        ensures
            r.len() == self@.n,
            forall|x: nat| x < self@.n ==> (r[x as int] <==> closure_holds(self@, seed@, x)),
    {
        let n = self.states.len();
        let len = self.transition_matrix.matrix.len();
        let ghost m = self@;
        let mut marked = seed;
        let ghost seed = marked;
        proof {
            assert forall|x: nat| x < n && marked[x as int] implies closure_holds(m, seed@, x) by {
                assert(run(m, x, Seq::<char>::empty(), x, 0));
                assert(reaches(m, x, Seq::<char>::empty(), x));
            }
        }
        loop
            invariant
                self.wf(),
                m == self@,
                n == m.n,
                len == self.transition_matrix.matrix.len(),
                seed.len() == n,
                marked.len() == n,
                forall|q: nat| q < n && seed[q as int] ==> marked[q as int],
                forall|x: nat| x < n && marked[x as int] ==> closure_holds(m, seed@, x),
            ensures
                marked.len() == n,
                forall|q: nat| q < n && seed[q as int] ==> marked[q as int],
                forall|x: nat| x < n && marked[x as int] ==> closure_holds(m, seed@, x),
                forall|a: nat, b: nat| #![trigger m.edges.contains((a, b, eps()))]
                    a < marked.len() && marked[a as int] && m.edges.contains((a, b, eps())) ==> b < marked.len()
                        && marked[b as int],
            decreases unmarked(marked@),
        {
            let ghost before = marked@;
            let mut changed = false;
            let mut j: usize = 0;
            while j < len
                invariant
                    self.wf(),
                    m == self@,
                    n == m.n,
                    len == self.transition_matrix.matrix.len(),
                    seed.len() == n,
                    marked.len() == n,
                    j <= len,
                    forall|q: nat| q < n && seed[q as int] ==> marked[q as int],
                    forall|x: nat| x < n && marked[x as int] ==> closure_holds(m, seed@, x),
                    changed ==> unmarked(marked@) < unmarked(before),
                    !changed ==> marked@ == before,
                    !changed ==> forall|jj: int|
                        0 <= jj < j && self.transition_matrix.matrix[jj].symbol@ == eps()
                            && #[trigger] marked[self.transition_matrix.matrix[jj].from_state.number as int]
                            ==> marked[self.transition_matrix.matrix[jj].to_state.number as int],
                decreases len - j,
            {
                proof {
                    self.lemma_edge_at(j as int);
                }
                let e = &self.transition_matrix.matrix[j];
                let p = e.from_state.number;
                let t = e.to_state.number;
                if marked[p] && !marked[t] && e.symbol.as_str().unicode_len() == 0 {
                    proof {
                        assert(e.symbol@ =~= eps());
                        lemma_unmarked_set(marked@, t as int);
                        let q = choose|q: nat| q < n && seed[q as int] && reaches(m, q, Seq::<char>::empty(), p as nat);
                        let k = choose|k: nat| run(m, q, Seq::<char>::empty(), p as nat, k);
                        assert(m.edges.contains((p as nat, t as nat, eps())));
                        assert(run(m, t as nat, Seq::<char>::empty(), t as nat, 0));
                        assert(run(m, p as nat, Seq::<char>::empty(), t as nat, 1));
                        lemma_run_concat(m, q, Seq::<char>::empty(), p as nat, k, Seq::<char>::empty(), t as nat, 1);
                        assert(Seq::<char>::empty() + Seq::<char>::empty() =~= Seq::<char>::empty());
                        assert(reaches(m, q, Seq::<char>::empty(), t as nat));
                    }
                    marked.set(t, true);
                    changed = true;
                }
                j = j + 1;
            }
            if !changed {
                proof {
                    assert forall|a: nat, b: nat| #![trigger m.edges.contains((a, b, eps()))]
                        a < marked.len() && marked[a as int] && m.edges.contains((a, b, eps())) implies b
                        < marked.len() && marked[b as int] by {
                        let jj = choose|jj: int|
                            0 <= jj < self.transition_matrix.matrix.len() && self.transition_matrix.matrix[jj]@ == (
                            a,
                            b,
                            eps(),
                        );
                        self.lemma_edge_at(jj);
                    }
                }
                break;
            }
        }
        proof {
            assert forall|x: nat| x < n && closure_holds(m, seed@, x) implies marked[x as int] by {
                let q = choose|q: nat| q < seed.len() && seed[q as int] && reaches(m, q, Seq::<char>::empty(), x);
                let k = choose|k: nat| run(m, q, Seq::<char>::empty(), x, k);
                lemma_closed_run(m, marked@, q, x, k);
            }
        }
        marked
    }

    /// The states reached from a state of `current` by one edge reading `c`.
    fn move_on(&self, current: &Vec<bool>, c: char) -> (r: Vec<bool>)
        requires
            self.wf(),
            current.len() == self@.n,
        ensures
            r.len() == self@.n,
            forall|x: nat| x < self@.n ==> (r[x as int] <==> moved(self@, current@, c, x)),
    {
        let n = self.states.len();
        let len = self.transition_matrix.matrix.len();
        let ghost m = self@;
        let mut next: Vec<bool> = Vec::new();
        let mut i: usize = 0;
        while i < n
            invariant
                i <= n,
                next.len() == i,
                forall|x: int| 0 <= x < i ==> !next[x],
            decreases n - i,
        {
            next.push(false);
            i = i + 1;
        }
        let mut j: usize = 0;
        while j < len
            invariant
                self.wf(),
                m == self@,
                n == m.n,
                len == self.transition_matrix.matrix.len(),
                current.len() == n,
                next.len() == n,
                j <= len,
                forall|x: nat| x < n ==> (next[x as int] <==> exists|jj: int|
                    0 <= jj < j && #[trigger] self.transition_matrix.matrix[jj].to_state.number == x
                        && current[self.transition_matrix.matrix[jj].from_state.number as int] && reads(
                        self.transition_matrix.matrix[jj].symbol@,
                        c,
                    )),
            decreases len - j,
        {
            proof {
                self.lemma_edge_at(j as int);
            }
            let e = &self.transition_matrix.matrix[j];
            let p = e.from_state.number;
            let t = e.to_state.number;
            let hit = current[p] && is_single(e.symbol.as_str(), c);
            proof {
                assert(seq![c][0] == c);
                assert(hit == (current[p as int] && reads(e.symbol@, c)));
            }
            if hit {
                next.set(t, true);
            }
            proof {
                assert forall|x: nat| x < n implies (next[x as int] <==> exists|jj: int|
                    0 <= jj < j + 1 && #[trigger] self.transition_matrix.matrix[jj].to_state.number == x
                        && current[self.transition_matrix.matrix[jj].from_state.number as int] && reads(
                        self.transition_matrix.matrix[jj].symbol@,
                        c,
                    )) by {
                    if x == t && hit {
                        assert(self.transition_matrix.matrix[j as int].to_state.number == x);
                    }
                }
            }
            j = j + 1;
        }
        proof {
            assert forall|x: nat| x < n implies (next[x as int] <==> moved(m, current@, c, x)) by {
                if next[x as int] {
                    let jj = choose|jj: int|
                        0 <= jj < len && #[trigger] self.transition_matrix.matrix[jj].to_state.number == x
                            && current[self.transition_matrix.matrix[jj].from_state.number as int] && reads(
                            self.transition_matrix.matrix[jj].symbol@,
                            c,
                        );
                    self.lemma_edge_at(jj);
                    let e = self.transition_matrix.matrix[jj]@;
                    assert(m.edges.contains((e.0, x, e.2)));
                }
                if moved(m, current@, c, x) {
                    let (q, l) = choose|q: nat, l: Seq<char>|
                        q < current.len() && current[q as int] && m.edges.contains((q, x, l)) && reads(l, c);
                    let jj = choose|jj: int|
                        0 <= jj < len && self.transition_matrix.matrix[jj]@ == (q, x, l);
                    assert(self.transition_matrix.matrix[jj].to_state.number == x);
                }
            }
        }
        next
    }

    /// Whether some path from the start to the final state reads the whole of
    /// `sequence`; epsilon edges are followed for free, cycles included.
    pub fn accepts(&self, sequence: &str) -> (r: bool)
        requires
            self.wf(),
        ensures
            r == in_language(self@, sequence@),
    {
        let ghost m = self@;
        let ghost w = sequence@;
        let n = self.states.len();
        let len = sequence.unicode_len();
        let mut seed: Vec<bool> = Vec::new();
        let mut i: usize = 0;
        while i < n
            invariant
                i <= n,
                seed.len() == i,
                forall|x: int| 0 <= x < i ==> !seed[x],
            decreases n - i,
        {
            seed.push(false);
            i = i + 1;
        }
        seed.set(self.start_state.number, true);
        let mut current = self.epsilon_closure(seed);
        proof {
            assert(w.take(0) =~= Seq::<char>::empty());
            assert forall|x: nat| x < n implies (current[x as int] <==> reaches(m, m.start, w.take(0), x)) by {
                if current[x as int] {
                    let q = choose|q: nat| q < seed.len() && seed[q as int] && reaches(m, q, Seq::<char>::empty(), x);
                    assert(q == m.start);
                }
                if reaches(m, m.start, w.take(0), x) {
                    assert(seed[m.start as int]);
                    assert(closure_holds(m, seed@, x));
                }
            }
        }
        let mut i: usize = 0;
        while i < len
            invariant
                self.wf(),
                m == self@,
                n == m.n,
                w == sequence@,
                len == w.len(),
                i <= len,
                current.len() == n,
                forall|x: nat| x < n ==> (current[x as int] <==> reaches(m, m.start, w.take(i as int), x)),
            decreases len - i,
        {
            let c = sequence.get_char(i);
            let moved_to = self.move_on(&current, c);
            let next = self.epsilon_closure(moved_to);
            proof {
                let u = w.take(i as int);
                assert(w.take(i + 1) =~= u.push(c));
                assert forall|x: nat| x < n implies (next[x as int] <==> reaches(m, m.start, u.push(c), x)) by {
                    if next[x as int] {
                        let q2 = choose|q2: nat| q2 < moved_to.len() && moved_to[q2 as int] && reaches(m, q2, Seq::<char>::empty(), x);
                        let k3 = choose|k3: nat| run(m, q2, Seq::<char>::empty(), x, k3);
                        let (q, l) = choose|q: nat, l: Seq<char>|
                            q < current.len() && current[q as int] && m.edges.contains((q, q2, l)) && reads(l, c);
                        let k1 = choose|k1: nat| run(m, m.start, u, q, k1);
                        assert(run(m, q2, Seq::<char>::empty(), q2, 0));
                        assert(seq![c].drop_first() =~= Seq::<char>::empty());
                        assert(run(m, q, seq![c], q2, 1));
                        lemma_run_concat(m, m.start, u, q, k1, seq![c], q2, 1);
                        lemma_run_concat(m, m.start, u + seq![c], q2, k1 + 1, Seq::<char>::empty(), x, k3);
                        assert(u + seq![c] + Seq::<char>::empty() =~= u.push(c));
                        assert(run(m, m.start, u.push(c), x, k1 + 1 + k3));
                    }
                    if reaches(m, m.start, u.push(c), x) {
                        let k = choose|k: nat| run(m, m.start, u.push(c), x, k);
                        let res = lemma_run_split_last(m, m.start, u, c, x, k);
                        assert(reaches(m, m.start, u, res.0));
                        assert(res.0 < n);
                        assert(moved(m, current@, c, res.1));
                        assert(res.1 < n);
                        assert(moved_to[res.1 as int]);
                        assert(run(m, res.1, Seq::<char>::empty(), x, res.4));
                        assert(reaches(m, res.1, Seq::<char>::empty(), x));
                        assert(closure_holds(m, moved_to@, x));
                    }
                }
            }
            current = next;
            i = i + 1;
        }
        assert(w.take(len as int) =~= w);
        let mut k: usize = 0;
        while k < n
            invariant
                self.wf(),
                m == self@,
                n == m.n,
                current.len() == n,
                w == sequence@,
                k <= n,
                forall|x: nat| x < n ==> (current[x as int] <==> reaches(m, m.start, w, x)),
                forall|f: nat| f < k ==> !(m.finals.contains(f) && reaches(m, m.start, w, f)),
            decreases n - k,
        {
            if self.states[k].is_final && current[k] {
                assert(m.finals.contains(k as nat) && reaches(m, m.start, w, k as nat));
                return true;
            }
            k = k + 1;
        }
        proof {
            assert forall|f: nat| !(m.finals.contains(f) && reaches(m, m.start, w, f)) by {
                if m.finals.contains(f) {
                    assert(f < n);
                }
            }
        }
        false
    }
}

/// Two edges with the same text are the same edge, so the text can serve as
/// a key for the edge.
pub proof fn law_text_identifies_edge(x: Edge, y: Edge)
    requires
        transition_text(x) == transition_text(y),
    ensures
        x == y,
{
    let t = transition_text(x);
    lemma_text_shape(x.0, x.1, x.2);
    lemma_text_shape(y.0, y.1, y.2);
    lemma_decimal(x.0);
    lemma_decimal(x.1);
    let e1 = 2 + decimal(x.0).len() as int;
    assert forall|i: int| 2 <= i < e1 implies is_digit(#[trigger] t[i]) by {
        assert(t[i] == t.subrange(2, e1)[i - 2]);
    }
    assert(digit_run(t, 2, e1));
    lemma_numeral_run(t, 2, x.0, e1);
    lemma_numeral_run(t, 2, y.0, e1);
    let e2 = e1 + 3 + decimal(x.1).len() as int;
    assert forall|i: int| e1 + 3 <= i < e2 implies is_digit(#[trigger] t[i]) by {
        assert(t[i] == t.subrange(e1 + 3, e2)[i - e1 - 3]);
    }
    assert(digit_run(t, e1 + 3, e2));
    lemma_numeral_run(t, e1 + 3, x.1, e2);
    lemma_numeral_run(t, e1 + 3, y.1, e2);
}

} // verus!
