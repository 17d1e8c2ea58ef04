//! The mathematical content of a nondeterministic automaton, the
//! constructions on it, what it means to accept a word, and the laws that
//! relate the constructions to acceptance.
use vstd::prelude::*;

verus! {

/// The label of an edge that is taken without reading input: the empty
/// sequence, which no one-character symbol can be.
pub open spec fn eps() -> Seq<char> {
    Seq::<char>::empty()
}

/// An edge as the mathematics sees it: source index, target index, label.
pub type Edge = (nat, nat, Seq<char>);

/// The mathematical content of an automaton: `n` states numbered `0..n`, a
/// start state, a set of final states and a set of labelled edges.
pub struct Model {
    pub n: nat,
    pub start: nat,
    pub finals: Set<nat>,
    pub edges: Set<Edge>,
}

/// `e` with every index raised by `d`.
pub open spec fn shift_edges(e: Set<Edge>, d: nat) -> Set<Edge> {
    Set::new(|t: Edge| t.0 >= d && t.1 >= d && e.contains(((t.0 - d) as nat, (t.1 - d) as nat, t.2)))
}

/// `s` with every index raised by `d`.
pub open spec fn shift_set(s: Set<nat>, d: nat) -> Set<nat> {
    Set::new(|i: nat| i >= d && s.contains((i - d) as nat))
}

/// Edges labelled `eps()` from each state of `srcs` to `to`.
pub open spec fn into_edges(srcs: Set<nat>, to: nat) -> Set<Edge> {
    Set::new(|t: Edge| srcs.contains(t.0) && t.1 == to && t.2 == eps())
}

/// Edges labelled `eps()` from `from` to each state of `dsts`.
pub open spec fn out_edges(from: nat, dsts: Set<nat>) -> Set<Edge> {
    Set::new(|t: Edge| t.0 == from && dsts.contains(t.1) && t.2 == eps())
}

/// Two states and one edge `0 --l--> 1`.
pub open spec fn char_model(l: Seq<char>) -> Model {
    Model { n: 2, start: 0, finals: set![1nat], edges: set![(0nat, 1nat, l)] }
}

/// `b` placed after `a`, with an epsilon edge from each final state of `a`
/// to the start of `b`; the final states are those of `b`.
pub open spec fn append_model(a: Model, b: Model) -> Model {
    Model {
        n: a.n + b.n,
        start: a.start,
        finals: shift_set(b.finals, a.n),
        edges: a.edges + shift_edges(b.edges, a.n) + into_edges(a.finals, b.start + a.n),
    }
}

/// `b` placed after `a` with no edge between them.
pub open spec fn add_model(a: Model, b: Model) -> Model {
    Model {
        n: a.n + b.n,
        start: a.start,
        finals: a.finals + shift_set(b.finals, a.n),
        edges: a.edges + shift_edges(b.edges, a.n),
    }
}

/// A new last state becomes the only final one, reached by an epsilon edge
/// from each former final state.
pub open spec fn append_final_model(m: Model) -> Model {
    Model { n: m.n + 1, start: m.start, finals: set![m.n], edges: m.edges + into_edges(m.finals, m.n) }
}

/// A new state 0 becomes the start, with an epsilon edge to the former start.
pub open spec fn insert_start_model(m: Model) -> Model {
    Model {
        n: m.n + 1,
        start: 0,
        finals: shift_set(m.finals, 1),
        edges: shift_edges(m.edges, 1).insert((0nat, m.start + 1, eps())),
    }
}

/// An epsilon edge from the start to each final state.
pub open spec fn bypass_model(m: Model) -> Model {
    Model { edges: m.edges + out_edges(m.start, m.finals), ..m }
}

/// `a` followed by `b`, normalised to one start and one final state.
pub open spec fn concat_model(a: Model, b: Model) -> Model {
    insert_start_model(append_final_model(append_model(a, b)))
}

/// `a` beside `b`, normalised, with the new start branching to both former
/// starts.
pub open spec fn union_model(a: Model, b: Model) -> Model {
    let m = insert_start_model(append_final_model(add_model(a, b)));
    Model { edges: m.edges.insert((0nat, b.start + a.n + 1, eps())), ..m }
}

/// The automaton of a literal fragment: one state pair per character,
/// concatenated from the left.
pub open spec fn regex_model(s: Seq<char>) -> Model
    decreases s.len(),
{
    if s.len() <= 1 {
        char_model(s)
    } else {
        concat_model(char_model(s.take(1)), regex_model(s.drop_first()))
    }
}

/// The automaton of `s` with a start-to-final epsilon edge added before and
/// after normalisation.
pub open spec fn kleene_model(s: Seq<char>) -> Model {
    bypass_model(insert_start_model(append_final_model(bypass_model(regex_model(s)))))
}

/// Every edge joins two of the `n` states and the start is one of them.
pub open spec fn well_formed(m: Model) -> bool {
    &&& m.start < m.n
    &&& forall|i: nat| m.finals.contains(i) ==> i < m.n
    &&& forall|t: Edge| m.edges.contains(t) ==> t.0 < m.n && t.1 < m.n
}

/// The shape every combinator leaves behind: start 0, one final state, the
/// last one, and no edge outside the states.
pub open spec fn normal(m: Model) -> bool {
    &&& well_formed(m)
    &&& m.n >= 2
    &&& m.start == 0
    &&& m.finals == set![(m.n - 1) as nat]
}

/// Whether an edge labelled `l` reads the input character `c`.
pub open spec fn reads(l: Seq<char>, c: char) -> bool {
    l.len() == 1 && l == seq![c]
}

/// A path of exactly `k` edges from `p` to `q` that reads `w`: epsilon edges
/// read nothing, every other edge reads its one character.
pub open spec fn run(m: Model, p: nat, w: Seq<char>, q: nat, k: nat) -> bool
    decreases k,
{
    if k == 0 {
        p == q && w.len() == 0
    } else {
        exists|r: nat, l: Seq<char>|
            #![trigger m.edges.contains((p, r, l))]
            m.edges.contains((p, r, l)) && ((l == eps() && run(m, r, w, q, (k - 1) as nat)) || (w.len() > 0
                && reads(l, w[0]) && run(m, r, w.drop_first(), q, (k - 1) as nat)))
    }
}

/// Some path from `p` to `q` reads `w`.
pub open spec fn reaches(m: Model, p: nat, w: Seq<char>, q: nat) -> bool {
    exists|k: nat| run(m, p, w, q, k)
}

/// The automaton accepts `w`: some path from the start to a final state
/// reads the whole of `w`.
pub open spec fn in_language(m: Model, w: Seq<char>) -> bool {
    exists|f: nat| m.finals.contains(f) && reaches(m, m.start, w, f)
}

pub(crate) proof fn lemma_run_concat(m: Model, p: nat, u: Seq<char>, q: nat, k1: nat, v: Seq<char>, r: nat, k2: nat)
    requires
        run(m, p, u, q, k1),
        run(m, q, v, r, k2),
    ensures
        run(m, p, u + v, r, k1 + k2),
    decreases k1,
{
    if k1 == 0 {
        assert(u + v =~= v);
    } else {
        let (x, l) = choose|x: nat, l: Seq<char>|
            m.edges.contains((p, x, l)) && ((l == eps() && run(m, x, u, q, (k1 - 1) as nat)) || (u.len() > 0
                && reads(l, u[0]) && run(m, x, u.drop_first(), q, (k1 - 1) as nat)));
        if l == eps() && run(m, x, u, q, (k1 - 1) as nat) {
            lemma_run_concat(m, x, u, q, (k1 - 1) as nat, v, r, k2);
            assert(m.edges.contains((p, x, l)));
        } else {
            lemma_run_concat(m, x, u.drop_first(), q, (k1 - 1) as nat, v, r, k2);
            assert((u + v).drop_first() =~= u.drop_first() + v);
            assert((u + v)[0] == u[0]);
            assert(m.edges.contains((p, x, l)));
        }
    }
}

/// A path reading `u` then `c` passes some edge that reads `c`, reached from
/// `p` on `u` and followed by epsilon edges only.
pub(crate) proof fn lemma_run_split_last(m: Model, p: nat, u: Seq<char>, c: char, r: nat, k: nat) -> (res: (
    nat,
    nat,
    Seq<char>,
    nat,
    nat,
))
    requires
        run(m, p, u.push(c), r, k),
    ensures
        run(m, p, u, res.0, res.3),
        m.edges.contains((res.0, res.1, res.2)),
        reads(res.2, c),
        run(m, res.1, Seq::<char>::empty(), r, res.4),
    decreases k,
{
    let w = u.push(c);
    let (x, l) = choose|x: nat, l: Seq<char>|
        m.edges.contains((p, x, l)) && ((l == eps() && run(m, x, w, r, (k - 1) as nat)) || (w.len() > 0
            && reads(l, w[0]) && run(m, x, w.drop_first(), r, (k - 1) as nat)));
    if l == eps() && run(m, x, w, r, (k - 1) as nat) {
        let res = lemma_run_split_last(m, x, u, c, r, (k - 1) as nat);
        assert(m.edges.contains((p, x, l)));
        assert(run(m, p, u, res.0, res.3 + 1));
        (res.0, res.1, res.2, res.3 + 1, res.4)
    } else if u.len() == 0 {
        assert(w[0] == c);
        assert(w.drop_first() =~= Seq::<char>::empty());
        (p, x, l, 0, (k - 1) as nat)
    } else {
        assert(w[0] == u[0]);
        assert(w.drop_first() =~= u.drop_first().push(c));
        let res = lemma_run_split_last(m, x, u.drop_first(), c, r, (k - 1) as nat);
        assert(m.edges.contains((p, x, l)));
        assert(run(m, p, u, res.0, res.3 + 1));
        (res.0, res.1, res.2, res.3 + 1, res.4)
    }
}

/// A set of states closed under epsilon edges holds every state that an
/// epsilon path leads to from one of its members.
pub(crate) proof fn lemma_closed_run(m: Model, marked: Seq<bool>, q: nat, r: nat, k: nat)
    requires
        q < marked.len(),
        marked[q as int],
        forall|a: nat, b: nat| #![trigger m.edges.contains((a, b, eps()))]
            a < marked.len() && marked[a as int] && m.edges.contains((a, b, eps())) ==> b < marked.len()
                && marked[b as int],
        run(m, q, Seq::<char>::empty(), r, k),
    ensures
        r < marked.len(),
        marked[r as int],
    decreases k,
{
    if k > 0 {
        let (x, l) = choose|x: nat, l: Seq<char>|
            m.edges.contains((q, x, l)) && ((l == eps() && run(m, x, Seq::<char>::empty(), r, (k - 1) as nat))
                || (Seq::<char>::empty().len() > 0 && reads(l, Seq::<char>::empty()[0]) && run(
                m,
                x,
                Seq::<char>::empty().drop_first(),
                r,
                (k - 1) as nat,
            )));
        lemma_closed_run(m, marked, x, r, (k - 1) as nat);
    }
}

/// After a final state is appended and a start inserted, the model is normal.
pub(crate) proof fn lemma_normalised(m: Model)
    ensures
        insert_start_model(append_final_model(m)).start == 0,
        insert_start_model(append_final_model(m)).finals == set![m.n + 1],
{
    assert(shift_set(set![m.n], 1) =~= set![m.n + 1]);
}
/// Every edge of `m1`, moved up by `d`, is an edge of `m2`.
pub open spec fn embeds(m1: Model, m2: Model, d: nat) -> bool {
    forall|t: Edge| #[trigger] m1.edges.contains(t) ==> m2.edges.contains((t.0 + d, t.1 + d, t.2))
}

/// Inside `m2`, the states `lo .. lo + m1.n` hold a copy of `m1` moved up by
/// `lo`: an edge leaving one of them is an edge of `m1` moved up, or an
/// epsilon edge out of the range from a state of `exits` moved up.
pub open spec fn embeds_with_exits(m1: Model, m2: Model, lo: nat, exits: Set<nat>) -> bool {
    forall|s: nat, t: nat, l: Seq<char>|
        #![trigger m2.edges.contains((s, t, l))]
        m2.edges.contains((s, t, l)) && lo <= s < lo + m1.n ==> ((lo <= t < lo + m1.n && m1.edges.contains(
            ((s - lo) as nat, (t - lo) as nat, l),
        )) || (!(lo <= t < lo + m1.n) && l == eps() && exits.contains((s - lo) as nat)))
}

pub(crate) proof fn lemma_embed(m1: Model, m2: Model, d: nat, p: nat, w: Seq<char>, q: nat, k: nat)
    requires
        embeds(m1, m2, d),
        run(m1, p, w, q, k),
    ensures
        run(m2, p + d, w, q + d, k),
    decreases k,
{
    if k > 0 {
        let (x, l) = choose|x: nat, l: Seq<char>|
            m1.edges.contains((p, x, l)) && ((l == eps() && run(m1, x, w, q, (k - 1) as nat)) || (w.len() > 0
                && reads(l, w[0]) && run(m1, x, w.drop_first(), q, (k - 1) as nat)));
        if l == eps() {
            lemma_embed(m1, m2, d, x, w, q, (k - 1) as nat);
        } else {
            lemma_embed(m1, m2, d, x, w.drop_first(), q, (k - 1) as nat);
        }
        assert(m2.edges.contains((p + d, x + d, l)));
    }
}

/// A path that starts inside an embedded copy and ends outside it runs in the
/// copy up to an exit state, then leaves by an exit edge.
pub(crate) proof fn lemma_exit(m1: Model, m2: Model, lo: nat, exits: Set<nat>, p: nat, w: Seq<char>, q: nat, k: nat) -> (res: (
    nat,
    nat,
    int,
    nat,
    nat,
))
    requires
        embeds_with_exits(m1, m2, lo, exits),
        lo <= p < lo + m1.n,
        !(lo <= q < lo + m1.n),
        run(m2, p, w, q, k),
    ensures
        0 <= res.2 <= w.len(),
        run(m1, (p - lo) as nat, w.take(res.2), res.0, res.3),
        exits.contains(res.0),
        m2.edges.contains((res.0 + lo, res.1, eps())),
        !(lo <= res.1 < lo + m1.n),
        run(m2, res.1, w.skip(res.2), q, res.4),
    decreases k,
{
    let (r, l) = choose|r: nat, l: Seq<char>|
        m2.edges.contains((p, r, l)) && ((l == eps() && run(m2, r, w, q, (k - 1) as nat)) || (w.len() > 0
            && reads(l, w[0]) && run(m2, r, w.drop_first(), q, (k - 1) as nat)));
    if !(lo <= r < lo + m1.n) {
        assert(w.take(0) =~= Seq::<char>::empty());
        assert(w.skip(0) =~= w);
        assert(run(m1, (p - lo) as nat, w.take(0), (p - lo) as nat, 0));
        ((p - lo) as nat, r, 0, 0, (k - 1) as nat)
    } else if l == eps() {
        let res = lemma_exit(m1, m2, lo, exits, r, w, q, (k - 1) as nat);
        assert(m1.edges.contains(((p - lo) as nat, (r - lo) as nat, l)));
        assert(run(m1, (p - lo) as nat, w.take(res.2), res.0, res.3 + 1));
        (res.0, res.1, res.2, res.3 + 1, res.4)
    } else {
        let v = w.drop_first();
        let res = lemma_exit(m1, m2, lo, exits, r, v, q, (k - 1) as nat);
        assert(m1.edges.contains(((p - lo) as nat, (r - lo) as nat, l)));
        assert(w.take(res.2 + 1).drop_first() =~= v.take(res.2));
        assert(w.take(res.2 + 1)[0] == w[0]);
        assert(run(m1, (p - lo) as nat, w.take(res.2 + 1), res.0, res.3 + 1));
        assert(w.skip(res.2 + 1) =~= v.skip(res.2));
        (res.0, res.1, res.2 + 1, res.3 + 1, res.4)
    }
}

/// From a state with no outgoing edge only the empty word leads anywhere,
/// and only to that state.
pub(crate) proof fn lemma_stuck(m: Model, q: nat, w: Seq<char>, r: nat, k: nat)
    requires
        forall|t: Edge| #[trigger] m.edges.contains(t) ==> t.0 != q,
        run(m, q, w, r, k),
    ensures
        r == q,
        w.len() == 0,
{
    if k > 0 {
        let (x, l) = choose|x: nat, l: Seq<char>| #[trigger] m.edges.contains((q, x, l));
        assert(m.edges.contains((q, x, l)));
    }
}

/// A chain `s0 --c--> s1 --eps--> s2` with no other edge out of these states
/// reads exactly `c` from `s0` to `s2`.
pub(crate) proof fn lemma_char_chain(m: Model, s0: nat, s1: nat, s2: nat, c: char, w: Seq<char>, k: nat)
    requires
        s0 != s2,
        s1 != s2,
        forall|t: Edge| #[trigger] m.edges.contains(t) && t.0 == s0 ==> t == (s0, s1, seq![c]),
        forall|t: Edge| #[trigger] m.edges.contains(t) && t.0 == s1 ==> t == (s1, s2, eps()),
        forall|t: Edge| #[trigger] m.edges.contains(t) ==> t.0 != s2,
        run(m, s0, w, s2, k),
    ensures
        w == seq![c],
{
    assert(seq![c].len() != eps().len());
    let (x, l) = choose|x: nat, l: Seq<char>|
        m.edges.contains((s0, x, l)) && ((l == eps() && run(m, x, w, s2, (k - 1) as nat)) || (w.len() > 0
            && reads(l, w[0]) && run(m, x, w.drop_first(), s2, (k - 1) as nat)));
    assert((s0, x, l) == (s0, s1, seq![c]));
    let v = w.drop_first();
    let k1 = (k - 1) as nat;
    let (y, l2) = choose|y: nat, l2: Seq<char>|
        m.edges.contains((s1, y, l2)) && ((l2 == eps() && run(m, y, v, s2, (k1 - 1) as nat)) || (v.len() > 0
            && reads(l2, v[0]) && run(m, y, v.drop_first(), s2, (k1 - 1) as nat)));
    assert((s1, y, l2) == (s1, s2, eps()));
    lemma_stuck(m, s2, v, s2, (k1 - 1) as nat);
    assert(w =~= seq![c]);
}

/// The run `s0 --c--> s1 --eps--> s2`.
pub(crate) proof fn lemma_char_chain_run(m: Model, s0: nat, s1: nat, s2: nat, c: char)
    requires
        m.edges.contains((s0, s1, seq![c])),
        m.edges.contains((s1, s2, eps())),
    ensures
        run(m, s0, seq![c], s2, 2),
{
    assert(seq![c].len() != eps().len());
    assert(run(m, s2, Seq::<char>::empty(), s2, 0));
    assert(run(m, s1, Seq::<char>::empty(), s2, 1));
    assert(seq![c].drop_first() =~= Seq::<char>::empty());
    assert(run(m, s0, seq![c], s2, 2));
}

/// One epsilon edge in front of a run.
pub(crate) proof fn lemma_eps_first(m: Model, p: nat, x: nat, w: Seq<char>, q: nat, k: nat)
    requires
        m.edges.contains((p, x, eps())),
        run(m, x, w, q, k),
    ensures
        run(m, p, w, q, k + 1),
{
}

/// Appending the one-character fragment `b` to an automaton `a` accepts
/// `x` followed by `b` exactly when `a` accepts `x`.
pub proof fn law_concatenate(a: Model, b: char, x: Seq<char>)
    requires
        well_formed(a),
    ensures
        in_language(concat_model(a, regex_model(seq![b])), x + seq![b]) <==> in_language(a, x),
{
    let bm = regex_model(seq![b]);
    assert(bm == char_model(seq![b]));
    let c = concat_model(a, bm);
    let n = a.n;
    let w = x + seq![b];
    assert(c.finals =~= set![n + 3]);
    assert(shift_edges(set![(0nat, 1nat, seq![b])], n) =~= set![(n, n + 1, seq![b])]);
    assert(embeds(a, c, 1));
    assert(c.edges.contains((0nat, a.start + 1, eps())));
    assert(c.edges.contains((n + 1, n + 2, seq![b])));
    assert(c.edges.contains((n + 2, n + 3, eps())));
    if in_language(a, x) {
        let f = choose|f: nat| a.finals.contains(f) && reaches(a, a.start, x, f);
        let k = choose|k: nat| run(a, a.start, x, f, k);
        lemma_embed(a, c, 1, a.start, x, f, k);
        lemma_eps_first(c, 0, a.start + 1, x, f + 1, k);
        lemma_char_chain_run(c, n + 1, n + 2, n + 3, b);
        assert(c.edges.contains((f + 1, n + 1, eps())));
        lemma_eps_first(c, f + 1, n + 1, seq![b], n + 3, 2);
        lemma_run_concat(c, 0, x, f + 1, k + 1, seq![b], n + 3, 3);
        assert(c.finals.contains(n + 3));
        assert(reaches(c, c.start, w, n + 3));
    }
    if in_language(c, w) {
        let f = choose|f: nat| c.finals.contains(f) && reaches(c, c.start, w, f);
        assert(f == n + 3);
        let k = choose|k: nat| run(c, 0, w, f, k);
        let (r, l) = choose|r: nat, l: Seq<char>|
            c.edges.contains((0nat, r, l)) && ((l == eps() && run(c, r, w, f, (k - 1) as nat)) || (w.len() > 0
                && reads(l, w[0]) && run(c, r, w.drop_first(), f, (k - 1) as nat)));
        assert(r == a.start + 1 && l == eps());
        assert(embeds_with_exits(a, c, 1, a.finals));
        let res = lemma_exit(a, c, 1, a.finals, r, w, f, (k - 1) as nat);
        assert(res.1 == n + 1);
        assert(forall|t: Edge| #[trigger] c.edges.contains(t) && t.0 == n + 1 ==> t == (n + 1, n + 2, seq![b]));
        assert(forall|t: Edge| #[trigger] c.edges.contains(t) && t.0 == n + 2 ==> t == (n + 2, n + 3, eps()));
        assert(forall|t: Edge| #[trigger] c.edges.contains(t) ==> t.0 != n + 3);
        lemma_char_chain(c, n + 1, n + 2, n + 3, b, w.skip(res.2), res.4);
        assert(res.2 == x.len());
        assert(w.take(res.2) =~= x);
        assert(reaches(a, a.start, x, res.0));
    }
}

/// The union with the one-character fragment `c` accepts `y` exactly when
/// `a` accepts `y` or `y` is `c`.
pub proof fn law_union(a: Model, c: char, y: Seq<char>)
    requires
        well_formed(a),
    ensures
        in_language(union_model(a, regex_model(seq![c])), y) <==> (in_language(a, y) || y == seq![c]),
{
    let bm = regex_model(seq![c]);
    assert(bm == char_model(seq![c]));
    let u = union_model(a, bm);
    let n = a.n;
    assert(u.finals =~= set![n + 3]);
    assert(shift_edges(set![(0nat, 1nat, seq![c])], n) =~= set![(n, n + 1, seq![c])]);
    assert(embeds(a, u, 1));
    assert(u.edges.contains((0nat, a.start + 1, eps())));
    assert(u.edges.contains((0nat, n + 1, eps())));
    assert(u.edges.contains((n + 1, n + 2, seq![c])));
    assert(u.edges.contains((n + 2, n + 3, eps())));
    assert(u.finals.contains(n + 3));
    if in_language(a, y) {
        let f = choose|f: nat| a.finals.contains(f) && reaches(a, a.start, y, f);
        let k = choose|k: nat| run(a, a.start, y, f, k);
        lemma_embed(a, u, 1, a.start, y, f, k);
        lemma_eps_first(u, 0, a.start + 1, y, f + 1, k);
        assert(u.edges.contains((f + 1, n + 3, eps())));
        assert(run(u, n + 3, Seq::<char>::empty(), n + 3, 0));
        assert(run(u, f + 1, Seq::<char>::empty(), n + 3, 1));
        lemma_run_concat(u, 0, y, f + 1, k + 1, Seq::<char>::empty(), n + 3, 1);
        assert(y + Seq::<char>::empty() =~= y);
        assert(reaches(u, u.start, y, n + 3));
    }
    if y == seq![c] {
        lemma_char_chain_run(u, n + 1, n + 2, n + 3, c);
        lemma_eps_first(u, 0, n + 1, y, n + 3, 2);
        assert(reaches(u, u.start, y, n + 3));
    }
    if in_language(u, y) {
        let f = choose|f: nat| u.finals.contains(f) && reaches(u, u.start, y, f);
        assert(f == n + 3);
        let k = choose|k: nat| run(u, 0, y, f, k);
        let (r, l) = choose|r: nat, l: Seq<char>|
            u.edges.contains((0nat, r, l)) && ((l == eps() && run(u, r, y, f, (k - 1) as nat)) || (y.len() > 0
                && reads(l, y[0]) && run(u, r, y.drop_first(), f, (k - 1) as nat)));
        assert(l == eps());
        assert(forall|t: Edge| #[trigger] u.edges.contains(t) ==> t.0 != n + 3);
        if r == n + 1 {
            assert(forall|t: Edge| #[trigger] u.edges.contains(t) && t.0 == n + 1 ==> t == (n + 1, n + 2, seq![c]));
            assert(forall|t: Edge| #[trigger] u.edges.contains(t) && t.0 == n + 2 ==> t == (n + 2, n + 3, eps()));
            lemma_char_chain(u, n + 1, n + 2, n + 3, c, y, (k - 1) as nat);
        } else {
            assert(r == a.start + 1);
            assert(embeds_with_exits(a, u, 1, a.finals));
            let res = lemma_exit(a, u, 1, a.finals, r, y, f, (k - 1) as nat);
            assert(res.1 == n + 3);
            lemma_stuck(u, n + 3, y.skip(res.2), n + 3, res.4);
            assert(res.2 == y.len());
            assert(y.take(res.2) =~= y);
            assert(reaches(a, a.start, y, res.0));
        }
    }
}

/// The closure of the automaton of a fragment accepts the empty word, and
/// every word that the automaton of the fragment accepts. The closure is
/// rebuilt from a fragment, so this speaks of the automaton of that
/// fragment.
pub proof fn law_kleene(s: Seq<char>, x: Seq<char>)
    ensures
        in_language(kleene_model(s), Seq::<char>::empty()),
        in_language(regex_model(s), x) ==> in_language(kleene_model(s), x),
{
    let r = regex_model(s);
    let k = kleene_model(s);
    let n = r.n;
    assert(k.finals =~= set![n + 1]);
    assert(k.finals.contains(n + 1));
    assert(k.edges.contains((0nat, n + 1, eps())));
    assert(run(k, n + 1, Seq::<char>::empty(), n + 1, 0));
    assert(run(k, 0, Seq::<char>::empty(), n + 1, 1));
    assert(reaches(k, k.start, Seq::<char>::empty(), n + 1));
    if in_language(r, x) {
        let f = choose|f: nat| r.finals.contains(f) && reaches(r, r.start, x, f);
        let j = choose|j: nat| run(r, r.start, x, f, j);
        assert(embeds(r, k, 1));
        lemma_embed(r, k, 1, r.start, x, f, j);
        assert(k.edges.contains((0nat, r.start + 1, eps())));
        lemma_eps_first(k, 0, r.start + 1, x, f + 1, j);
        assert(k.edges.contains((f + 1, n + 1, eps())));
        assert(run(k, f + 1, Seq::<char>::empty(), n + 1, 1));
        lemma_run_concat(k, 0, x, f + 1, j + 1, Seq::<char>::empty(), n + 1, 1);
        assert(x + Seq::<char>::empty() =~= x);
        assert(reaches(k, k.start, x, n + 1));
    }
}

/// Concatenation keeps every edge inside the states.
proof fn lemma_concat_well_formed(a: Model, b: Model)
    requires
        well_formed(a),
        well_formed(b),
    ensures
        well_formed(concat_model(a, b)),
{
    let c = concat_model(a, b);
    let m = append_model(a, b);
    assert forall|t: Edge| c.edges.contains(t) implies t.0 < c.n && t.1 < c.n by {
        if t != (0nat, a.start + 1, eps()) {
            let u = ((t.0 - 1) as nat, (t.1 - 1) as nat, t.2);
            assert(append_final_model(m).edges.contains(u));
            if m.edges.contains(u) {
                if shift_edges(b.edges, a.n).contains(u) {
                    assert(b.edges.contains(((u.0 - a.n) as nat, (u.1 - a.n) as nat, u.2)));
                }
            } else {
                assert(into_edges(m.finals, m.n).contains(u));
            }
        }
    }
    assert forall|i: nat| c.finals.contains(i) implies i < c.n by {
        assert(shift_set(set![m.n], 1).contains(i));
    }
}

/// The automaton of any fragment keeps every edge inside its states.
proof fn lemma_regex_well_formed(s: Seq<char>)
    ensures
        well_formed(regex_model(s)),
    decreases s.len(),
{
    if s.len() > 1 {
        lemma_regex_well_formed(s.drop_first());
        lemma_concat_well_formed(char_model(s.take(1)), regex_model(s.drop_first()));
    } else {
        assert(set![1nat].contains(1nat));
    }
}

/// The automaton of one character `c` in front of `b` accepts `w` exactly
/// when `w` is `c` followed by a word that `b` accepts.
proof fn lemma_char_prefix(c: char, b: Model, w: Seq<char>)
    requires
        well_formed(b),
    ensures
        in_language(concat_model(char_model(seq![c]), b), w) <==> (w.len() > 0 && w[0] == c && in_language(
            b,
            w.drop_first(),
        )),
{
    let a = char_model(seq![c]);
    let m = concat_model(a, b);
    let fin = b.n + 3;
    assert(m.finals =~= set![fin]);
    assert(m.finals.contains(fin));
    assert(m.edges.contains((0nat, 1nat, eps())));
    assert(m.edges.contains((1nat, 2nat, seq![c])));
    assert(m.edges.contains((2nat, b.start + 3, eps())));
    assert(embeds(b, m, 3));
    assert(forall|t: Edge| #[trigger] m.edges.contains(t) ==> t.0 != fin);
    if w.len() > 0 && w[0] == c && in_language(b, w.drop_first()) {
        let y = w.drop_first();
        let f = choose|f: nat| b.finals.contains(f) && reaches(b, b.start, y, f);
        let k = choose|k: nat| run(b, b.start, y, f, k);
        lemma_embed(b, m, 3, b.start, y, f, k);
        lemma_eps_first(m, 2, b.start + 3, y, f + 3, k);
        assert(reads(seq![c], w[0]));
        assert(run(m, 1, w, f + 3, k + 2));
        lemma_eps_first(m, 0, 1, w, f + 3, k + 2);
        assert(m.edges.contains((f + 3, fin, eps())));
        assert(run(m, fin, Seq::<char>::empty(), fin, 0));
        assert(run(m, f + 3, Seq::<char>::empty(), fin, 1));
        lemma_run_concat(m, 0, w, f + 3, k + 3, Seq::<char>::empty(), fin, 1);
        assert(w + Seq::<char>::empty() =~= w);
        assert(reaches(m, m.start, w, fin));
    }
    if in_language(m, w) {
        let f = choose|f: nat| m.finals.contains(f) && reaches(m, m.start, w, f);
        assert(f == fin);
        let k = choose|k: nat| run(m, 0, w, f, k);
        let (r0, l0) = choose|r: nat, l: Seq<char>|
            m.edges.contains((0nat, r, l)) && ((l == eps() && run(m, r, w, f, (k - 1) as nat)) || (w.len() > 0
                && reads(l, w[0]) && run(m, r, w.drop_first(), f, (k - 1) as nat)));
        assert(r0 == 1 && l0 == eps());
        let k1 = (k - 1) as nat;
        let (r1, l1) = choose|r: nat, l: Seq<char>|
            m.edges.contains((1nat, r, l)) && ((l == eps() && run(m, r, w, f, (k1 - 1) as nat)) || (w.len() > 0
                && reads(l, w[0]) && run(m, r, w.drop_first(), f, (k1 - 1) as nat)));
        assert(r1 == 2 && l1 == seq![c]);
        assert(seq![c].len() == 1);
        assert(w.len() > 0 && seq![c] == seq![w[0]]);
        assert(seq![c][0] == c && seq![w[0]][0] == w[0]);
        let y = w.drop_first();
        let k2 = (k1 - 1) as nat;
        let (r2, l2) = choose|r: nat, l: Seq<char>|
            m.edges.contains((2nat, r, l)) && ((l == eps() && run(m, r, y, f, (k2 - 1) as nat)) || (y.len() > 0
                && reads(l, y[0]) && run(m, r, y.drop_first(), f, (k2 - 1) as nat)));
        assert(r2 == b.start + 3 && l2 == eps());
        assert(embeds_with_exits(b, m, 3, b.finals));
        let res = lemma_exit(b, m, 3, b.finals, r2, y, f, (k2 - 1) as nat);
        assert(res.1 == fin);
        lemma_stuck(m, fin, y.skip(res.2), fin, res.4);
        assert(res.2 == y.len());
        assert(y.take(res.2) =~= y);
        assert(reaches(b, b.start, y, res.0));
        assert(in_language(b, y));
    }
}

/// The automaton of a fragment accepts exactly the fragment itself: every
/// character of it, `|` and `*` included, is a literal symbol.
pub proof fn law_fragment(s: Seq<char>, w: Seq<char>)
    requires
        s.len() >= 1,
    ensures
        in_language(regex_model(s), w) <==> w == s,
    decreases s.len(),
{
    if s.len() == 1 {
        let m = char_model(s);
        assert(m.edges.contains((0nat, 1nat, s)));
        assert(m.finals.contains(1nat));
        assert(forall|t: Edge| #[trigger] m.edges.contains(t) ==> t.0 != 1);
        if w == s {
            assert(s =~= seq![s[0]]);
            assert(s.drop_first() =~= Seq::<char>::empty());
            assert(run(m, 1, Seq::<char>::empty(), 1, 0));
            assert(run(m, 0, w, 1, 1));
        }
        if in_language(m, w) {
            let f = choose|f: nat| m.finals.contains(f) && reaches(m, m.start, w, f);
            let k = choose|k: nat| run(m, 0, w, f, k);
            let (r, l) = choose|r: nat, l: Seq<char>|
                m.edges.contains((0nat, r, l)) && ((l == eps() && run(m, r, w, f, (k - 1) as nat)) || (w.len() > 0
                    && reads(l, w[0]) && run(m, r, w.drop_first(), f, (k - 1) as nat)));
            assert(r == 1 && l == s);
            lemma_stuck(m, 1, w.drop_first(), f, (k - 1) as nat);
            assert(s == seq![w[0]]);
            assert(s[0] == seq![w[0]][0]);
            assert(w.len() == 1);
            assert(w =~= s);
        }
    } else {
        let rest = s.drop_first();
        assert(s.take(1) =~= seq![s[0]]);
        lemma_regex_well_formed(rest);
        lemma_char_prefix(s[0], regex_model(rest), w);
        if w.len() > 0 {
            law_fragment(rest, w.drop_first());
            if w.drop_first() == rest && w[0] == s[0] {
                assert forall|i: int| 0 <= i < w.len() implies w[i] == s[i] by {
                    if i > 0 {
                        assert(w[i] == w.drop_first()[i - 1]);
                        assert(s[i] == rest[i - 1]);
                    }
                }
                assert(w =~= s);
            }
        }
    }
}

} // verus!
