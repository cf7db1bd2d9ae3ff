//! Nondeterministic automata and Thompson's construction.

use crate::parser::RegexAST;
use vstd::prelude::*;

verus! {

/// Label of a transition.
#[derive(Debug, Clone, Copy, PartialEq, Eq)]
pub enum NFASymbol {
    /// Consumes this character.
    Char(char),
    /// Consumes nothing.
    Epsilon,
}

/// A transition `(source, symbol, destination)`.
pub type Transition = (int, NFASymbol, int);

/// A transition leaving a state that is known from the context.
pub type Edge = (NFASymbol, usize);

/// The mathematical content of an automaton: states are `0..state_count`.
#[verifier::ext_equal]
pub struct NfaModel {
    pub start: int,
    pub accept: int,
    pub state_count: int,
    pub transitions: Set<Transition>,
}

impl NfaModel {
    /// Start, accept and both ends of every transition are states.
    pub open spec fn wf(self) -> bool {
        &&& 0 <= self.start < self.state_count
        &&& 0 <= self.accept < self.state_count
        &&& forall|t: Transition| #[trigger]
            self.transitions.contains(t) ==> 0 <= t.0 < self.state_count && 0 <= t.2
                < self.state_count
    }
}

impl NfaModel {
    /// Whether `q` is reached from `p` by exactly `steps` transitions that
    /// spell the word `w` (epsilon transitions spell nothing).
    pub open spec fn reach_in(self, p: int, w: Seq<char>, q: int, steps: nat) -> bool
        decreases steps,
    {
        if steps == 0 {
            p == q && w.len() == 0
        } else {
            ||| (exists|r: int|
                self.reach_in(p, w, r, (steps - 1) as nat) && #[trigger] self.transitions.contains(
                    (r, NFASymbol::Epsilon, q),
                ))
            ||| (w.len() > 0 && exists|r: int|
                self.reach_in(p, w.drop_last(), r, (steps - 1) as nat)
                    && #[trigger] self.transitions.contains((r, NFASymbol::Char(w.last()), q)))
        }
    }

    /// Whether some walk from `p` to `q` spells `w`.
    pub open spec fn reach(self, p: int, w: Seq<char>, q: int) -> bool {
        exists|steps: nat| self.reach_in(p, w, q, steps)
    }

    /// Whether the automaton accepts `w`: some walk from the start to the
    /// accept state spells it.
    pub open spec fn accepts(self, w: Seq<char>) -> bool {
        self.reach(self.start, w, self.accept)
    }

    /// The states reached from a state of `from` by epsilon transitions alone
    /// (each state reaches itself).
    pub open spec fn closure(self, from: Set<int>) -> Set<int> {
        Set::new(
            |q: int| exists|p: int| from.contains(p) && #[trigger] self.reach(p, Seq::empty(), q),
        )
    }

    /// The destinations of the transitions on `c` that leave a state of `from`.
    pub open spec fn move_set(self, from: Set<int>, c: char) -> Set<int> {
        Set::new(
            |q: int|
                exists|p: int|
                    from.contains(p) && #[trigger] self.transitions.contains(
                        (p, NFASymbol::Char(c), q),
                    ),
        )
    }

    /// Whether some transition on `c` leaves a state of `from`.
    pub open spec fn has_move(self, from: Set<int>, c: char) -> bool {
        exists|p: int, q: int|
            from.contains(p) && #[trigger] self.transitions.contains((p, NFASymbol::Char(c), q))
    }

    /// The states reached from `from` by reading `c`.
    pub open spec fn successor(self, from: Set<int>, c: char) -> Set<int> {
        self.closure(self.move_set(from, c))
    }

    /// The states in which the automaton can be after reading `w`.
    pub open spec fn reach_set(self, w: Seq<char>) -> Set<int> {
        Set::new(|q: int| self.reach(self.start, w, q))
    }
}

/// `ts` with every state id raised by `offset`.
pub open spec fn shift(ts: Set<Transition>, offset: int) -> Set<Transition> {
    Set::new(|t: Transition| ts.contains((t.0 - offset, t.1, t.2 - offset)))
}

/// Two states and nothing between them: matches no string at all.
pub open spec fn model_empty() -> NfaModel {
    NfaModel { start: 0, accept: 1, state_count: 2, transitions: Set::empty() }
}

/// Two states joined by `c`.
pub open spec fn model_literal(c: char) -> NfaModel {
    NfaModel {
        start: 0,
        accept: 1,
        state_count: 2,
        transitions: set![(0int, NFASymbol::Char(c), 1int)],
    }
}

/// `a`, then `b` renumbered after it, bridged from `a`'s accept to `b`'s start.
pub open spec fn model_concat(a: NfaModel, b: NfaModel) -> NfaModel {
    NfaModel {
        start: a.start,
        accept: b.accept + a.state_count,
        state_count: a.state_count + b.state_count,
        transitions: a.transitions.union(shift(b.transitions, a.state_count)).insert(
            (a.accept, NFASymbol::Epsilon, b.start + a.state_count),
        ),
    }
}

/// A fresh start `0` and accept `1`, then `a`, then `b`; the start branches
/// into both and both accepts lead to the fresh accept.
pub open spec fn model_union(a: NfaModel, b: NfaModel) -> NfaModel {
    let a_off = 2;
    let b_off = 2 + a.state_count;
    NfaModel {
        start: 0,
        accept: 1,
        state_count: 2 + a.state_count + b.state_count,
        transitions: shift(a.transitions, a_off).union(shift(b.transitions, b_off)).insert(
            (0, NFASymbol::Epsilon, a.start + a_off),
        ).insert((0, NFASymbol::Epsilon, b.start + b_off)).insert(
            (a.accept + a_off, NFASymbol::Epsilon, 1),
        ).insert((b.accept + b_off, NFASymbol::Epsilon, 1)),
    }
}

/// A fresh start `0` and accept `1`, then `a`; the start enters `a` or skips
/// it, and `a`'s accept leaves or repeats.
pub open spec fn model_kleene(a: NfaModel) -> NfaModel {
    let off = 2;
    NfaModel {
        start: 0,
        accept: 1,
        state_count: 2 + a.state_count,
        transitions: shift(a.transitions, off).insert(
            (0, NFASymbol::Epsilon, a.start + off),
        ).insert((0, NFASymbol::Epsilon, 1)).insert((a.accept + off, NFASymbol::Epsilon, 1)).insert(
            (a.accept + off, NFASymbol::Epsilon, a.start + off),
        ),
    }
}

/// Thompson's construction: one fragment per node of the tree.
pub open spec fn thompson(ast: RegexAST) -> NfaModel
    decreases ast,
{
    match ast {
        RegexAST::Empty => model_empty(),
        RegexAST::Literal(c) => model_literal(c),
        RegexAST::Concat(a, b) => model_concat(thompson(*a), thompson(*b)),
        RegexAST::Union(a, b) => model_union(thompson(*a), thompson(*b)),
        RegexAST::Kleene(a) => model_kleene(thompson(*a)),
    }
}

/// Every fragment of the construction is well formed.
pub proof fn lemma_thompson_wf(ast: RegexAST)
    ensures
        thompson(ast).wf(),
    decreases ast,
{
    match ast {
        RegexAST::Empty => {},
        RegexAST::Literal(c) => {},
        RegexAST::Concat(a, b) => {
            lemma_thompson_wf(*a);
            lemma_thompson_wf(*b);
        },
        RegexAST::Union(a, b) => {
            lemma_thompson_wf(*a);
            lemma_thompson_wf(*b);
        },
        RegexAST::Kleene(a) => {
            lemma_thompson_wf(*a);
        },
    }
}

/// Whether `row`, the transitions leaving one state, holds one on `sym` to `to`.
pub open spec fn row_has(row: Seq<Edge>, sym: NFASymbol, to: int) -> bool {
    exists|k: int| 0 <= k < row.len() && #[trigger] row[k] == (sym, to as usize) && to == row[k].1
}

/// The transitions held by a table with one row per source state.
pub open spec fn transitions_of(rows: Seq<Seq<Edge>>) -> Set<Transition> {
    Set::new(|t: Transition| 0 <= t.0 < rows.len() && row_has(rows[t.0], t.1, t.2))
}

/// `row` with every destination raised by `offset`.
pub open spec fn shift_row(row: Seq<Edge>, offset: int) -> Seq<Edge> {
    Seq::new(row.len(), |k: int| (row[k].0, (row[k].1 + offset) as usize))
}

/// A row that gains an edge gains exactly that transition.
pub proof fn lemma_push_edge(rows: Seq<Seq<Edge>>, from: int, edge: Edge)
    requires
        0 <= from < rows.len(),
    ensures
        transitions_of(rows.update(from, rows[from].push(edge))) == transitions_of(rows).insert(
            (from, edge.0, edge.1 as int),
        ),
{
    let after = rows.update(from, rows[from].push(edge));
    let added: Transition = (from, edge.0, edge.1 as int);
    assert forall|t: Transition| transitions_of(after).contains(t) implies transitions_of(
        rows,
    ).insert(added).contains(t) by {
        let k = choose|k: int|
            0 <= k < after[t.0].len() && #[trigger] after[t.0][k] == (t.1, t.2 as usize) && t.2
                == after[t.0][k].1;
        if t.0 == from && k == rows[from].len() {
            assert(t == added);
        } else {
            assert(rows[t.0][k] == (t.1, t.2 as usize));
        }
    }
    assert forall|t: Transition|
        transitions_of(rows).insert(added).contains(t) implies transitions_of(after).contains(
        t,
    ) by {
        if t == added {
            assert(after[from][rows[from].len() as int] == edge);
        } else {
            let k = choose|k: int|
                0 <= k < rows[t.0].len() && #[trigger] rows[t.0][k] == (t.1, t.2 as usize) && t.2
                    == rows[t.0][k].1;
            assert(after[t.0][k] == (t.1, t.2 as usize));
        }
    }
    assert(transitions_of(after) =~= transitions_of(rows).insert(added));
}

/// `rows` with every destination raised by `offset`.
pub open spec fn shift_rows(rows: Seq<Seq<Edge>>, offset: int) -> Seq<Seq<Edge>> {
    Seq::new(rows.len(), |s: int| shift_row(rows[s], offset))
}

/// Every destination in `rows` can be raised by `offset` within `usize`.
pub open spec fn can_shift(rows: Seq<Seq<Edge>>, offset: int) -> bool {
    forall|s: int, k: int|
        0 <= s < rows.len() && 0 <= k < rows[s].len() ==> (#[trigger] rows[s][k]).1 + offset
            <= usize::MAX
}

/// Rows appended behind a table, renumbered by its length, add their
/// transitions shifted by that length.
pub proof fn lemma_graft(first: Seq<Seq<Edge>>, second: Seq<Seq<Edge>>)
    requires
        can_shift(second, first.len() as int),
    ensures
        transitions_of(first + shift_rows(second, first.len() as int)) == transitions_of(
            first,
        ).union(shift(transitions_of(second), first.len() as int)),
{
    let offset = first.len() as int;
    let joined = first + shift_rows(second, offset);
    let expected = transitions_of(first).union(shift(transitions_of(second), offset));
    assert forall|t: Transition| transitions_of(joined).contains(t) implies expected.contains(
        t,
    ) by {
        let k = choose|k: int|
            0 <= k < joined[t.0].len() && #[trigger] joined[t.0][k] == (t.1, t.2 as usize) && t.2
                == joined[t.0][k].1;
        if t.0 < offset {
            assert(first[t.0][k] == (t.1, t.2 as usize));
        } else {
            let row = second[t.0 - offset];
            assert(joined[t.0] == shift_row(row, offset));
            assert(row[k] == (t.1, (t.2 - offset) as usize));
            assert(row_has(row, t.1, t.2 - offset));
            assert(transitions_of(second).contains((t.0 - offset, t.1, t.2 - offset)));
        }
    }
    assert forall|t: Transition| expected.contains(t) implies transitions_of(joined).contains(
        t,
    ) by {
        if transitions_of(first).contains(t) {
            let k = choose|k: int|
                0 <= k < first[t.0].len() && #[trigger] first[t.0][k] == (t.1, t.2 as usize) && t.2
                    == first[t.0][k].1;
            assert(joined[t.0][k] == (t.1, t.2 as usize));
        } else {
            let row = second[t.0 - offset];
            let k = choose|k: int|
                0 <= k < row.len() && #[trigger] row[k] == (t.1, (t.2 - offset) as usize) && t.2
                    - offset == row[k].1;
            assert(joined[t.0] == shift_row(row, offset));
            assert(joined[t.0][k] == (t.1, t.2 as usize));
        }
    }
    assert(transitions_of(joined) =~= expected);
}

/// In a well-formed automaton every destination is a state.
pub proof fn lemma_rows_in_range(rows: Seq<Seq<Edge>>, s: int, k: int)
    requires
        forall|t: Transition| #[trigger]
            transitions_of(rows).contains(t) ==> 0 <= t.2 < rows.len(),
        0 <= s < rows.len(),
        0 <= k < rows[s].len(),
    ensures
        rows[s][k].1 < rows.len(),
{
    let edge = rows[s][k];
    assert(row_has(rows[s], edge.0, edge.1 as int));
    assert(transitions_of(rows).contains((s, edge.0, edge.1 as int)));
}

/// An automaton with one start and one accept state. State `s` owns the row
/// `edges[s]` of the transitions that leave it, so the number of states is
/// the number of rows.
#[derive(Debug)]
pub struct NFA {
    pub start: usize,
    pub accept: usize,
    pub edges: Vec<Vec<Edge>>,
}

impl View for NFA {
    type V = NfaModel;

    open spec fn view(&self) -> NfaModel {
        NfaModel {
            start: self.start as int,
            accept: self.accept as int,
            state_count: self.edges.len() as int,
            transitions: transitions_of(self.rows()),
        }
    }
}

/// Raises by `offset` every destination in `row`.
fn shifted(row: &Vec<Edge>, offset: usize) -> (out: Vec<Edge>)
    requires
        forall|k: int| 0 <= k < row.len() ==> #[trigger] row[k].1 + offset <= usize::MAX,
    ensures
        out@ == shift_row(row@, offset as int),
{
    let mut out: Vec<Edge> = Vec::new();
    let mut k: usize = 0;
    while k < row.len()
        invariant
            k <= row.len(),
            forall|j: int| 0 <= j < row.len() ==> #[trigger] row[j].1 + offset <= usize::MAX,
            out@ == shift_row(row@, offset as int).take(k as int),
        decreases row.len() - k,
    {
        let (sym, to) = row[k];
        out.push((sym, to + offset));
        k += 1;
    }
    out
}

impl NFA {
    /// The rows of the transition table.
    pub open spec fn rows(&self) -> Seq<Seq<Edge>> {
        Seq::new(self.edges.len() as nat, |s: int| self.edges[s]@)
    }

    /// Start, accept and both ends of every transition are states.
    pub open spec fn wf(&self) -> bool {
        self@.wf()
    }

    /// Every entry of the table is a transition between states.
    pub proof fn lemma_edge(&self, s: int, k: int)
        requires
            self.wf(),
            0 <= s < self.edges.len(),
            0 <= k < self.edges[s].len(),
        ensures
            self.edges[s][k].1 < self.edges.len(),
            self@.transitions.contains((s, self.edges[s][k].0, self.edges[s][k].1 as int)),
    {
        let rows = self.rows();
        let edge = rows[s][k];
        assert(row_has(rows[s], edge.0, edge.1 as int));
        assert(transitions_of(rows).contains((s, edge.0, edge.1 as int)));
        assert(self@.transitions.contains((s, edge.0, edge.1 as int)));
    }

    /// Every transition is an entry of the table: its place in the row of
    /// its source.
    pub proof fn lemma_entry(&self, p: int, sym: NFASymbol, q: int) -> (k: int)
        requires
            self@.transitions.contains((p, sym, q)),
        ensures
            0 <= p < self.edges.len(),
            0 <= k < self.edges[p].len(),
            self.edges[p][k].0 == sym,
            self.edges[p][k].1 == q,
    {
        let rows = self.rows();
        assert(transitions_of(rows).contains((p, sym, q)));
        assert(row_has(rows[p], sym, q));
        choose|k: int|
            0 <= k < rows[p].len() && #[trigger] rows[p][k] == (sym, q as usize) && q
                == rows[p][k].1
    }

    /// The number of states.
    pub fn state_count(&self) -> (n: usize)
        ensures
            n == self@.state_count,
    {
        self.edges.len()
    }

    /// The automaton of an absent operand.
    pub fn new_empty() -> (nfa: NFA)
        ensures
            nfa.wf(),
            nfa@ == model_empty(),
    {
        let mut edges: Vec<Vec<Edge>> = Vec::new();
        edges.push(Vec::new());
        edges.push(Vec::new());
        let nfa = NFA { start: 0, accept: 1, edges };
        assert(nfa@.transitions =~= Set::empty());
        nfa
    }

    /// The automaton of the letter `c`.
    pub fn new_literal(c: char) -> (nfa: NFA)
        ensures
            nfa.wf(),
            nfa@ == model_literal(c),
    {
        let mut nfa = NFA::new_empty();
        nfa.add_edge(0, NFASymbol::Char(c), 1);
        assert(nfa@.transitions =~= set![(0int, NFASymbol::Char(c), 1int)]);
        nfa
    }

    /// `a` followed by `b`: `a` keeps its ids, `b` is renumbered behind it, and
    /// an epsilon transition leads from `a`'s accept to `b`'s start.
    pub fn new_concat(a: NFA, b: NFA) -> (nfa: NFA)
        requires
            a.wf(),
            b.wf(),
        ensures
            nfa.wf(),
            nfa@ == model_concat(a@, b@),
    {
        let a_accept = a.accept;
        let b_start = b.start;
        let b_accept = b.accept;
        let mut nfa = a;
        let offset = nfa.absorb(b);
        nfa.add_edge(a_accept, NFASymbol::Epsilon, b_start + offset);
        nfa.accept = b_accept + offset;
        nfa
    }

    /// `a` or `b`: two fresh states `0` (start) and `1` (accept), then `a`,
    /// then `b`, with epsilon transitions from the start into both and from
    /// both accepts to the fresh accept.
    pub fn new_union(a: NFA, b: NFA) -> (nfa: NFA)
        requires
            a.wf(),
            b.wf(),
        ensures
            nfa.wf(),
            nfa@ == model_union(a@, b@),
    {
        let a_start = a.start;
        let a_accept = a.accept;
        let b_start = b.start;
        let b_accept = b.accept;
        let mut nfa = NFA::new_empty();
        let a_offset = nfa.absorb(a);
        let b_offset = nfa.absorb(b);
        nfa.add_edge(0, NFASymbol::Epsilon, a_start + a_offset);
        nfa.add_edge(0, NFASymbol::Epsilon, b_start + b_offset);
        nfa.add_edge(a_accept + a_offset, NFASymbol::Epsilon, 1);
        nfa.add_edge(b_accept + b_offset, NFASymbol::Epsilon, 1);
        nfa
    }

    /// Zero or more `a`: two fresh states `0` (start) and `1` (accept), then
    /// `a`, with epsilon transitions to enter, to skip, to leave and to repeat.
    pub fn new_kleene(a: NFA) -> (nfa: NFA)
        requires
            a.wf(),
        ensures
            nfa.wf(),
            nfa@ == model_kleene(a@),
    {
        let a_start = a.start;
        let a_accept = a.accept;
        let mut nfa = NFA::new_empty();
        let offset = nfa.absorb(a);
        nfa.add_edge(0, NFASymbol::Epsilon, a_start + offset);
        nfa.add_edge(0, NFASymbol::Epsilon, 1);
        nfa.add_edge(a_accept + offset, NFASymbol::Epsilon, 1);
        nfa.add_edge(a_accept + offset, NFASymbol::Epsilon, a_start + offset);
        nfa
    }

    /// Thompson's construction on the whole tree.
    pub fn from_ast(ast: &RegexAST) -> (nfa: NFA)
        ensures
            nfa.wf(),
            nfa@ == thompson(*ast),
        decreases ast,
    {
        match ast {
            RegexAST::Empty => NFA::new_empty(),
            RegexAST::Literal(c) => NFA::new_literal(*c),
            RegexAST::Concat(a, b) => NFA::new_concat(NFA::from_ast(a), NFA::from_ast(b)),
            RegexAST::Union(a, b) => NFA::new_union(NFA::from_ast(a), NFA::from_ast(b)),
            RegexAST::Kleene(a) => NFA::new_kleene(NFA::from_ast(a)),
        }
    }

    /// Appends the states of `other`, renumbered behind those already
    /// here, and returns the offset by which they were renumbered. Start and
    /// accept stay as they are.
    fn absorb(&mut self, other: NFA) -> (offset: usize)
        requires
            other.wf(),
        ensures
            offset == old(self)@.state_count,
            final(self).start == old(self).start,
            final(self).accept == old(self).accept,
            final(self)@.state_count == old(self)@.state_count + other@.state_count,
            final(self)@.transitions == old(self)@.transitions.union(
                shift(other@.transitions, offset as int),
            ),
    {
        let ghost first = self.rows();
        let ghost second = other.rows();
        let offset = self.edges.len();
        let mut incoming = other.edges;
        self.edges.append(&mut incoming);
        // The joined table exists, so its length, the largest id needed plus
        // one, fits in `usize`.
        let total = self.edges.len();
        assert(self.rows() =~= first + second);
        assert forall|s: int, k: int| 0 <= s < second.len() && 0 <= k < second[s].len() implies (
        #[trigger] second[s][k]).1 + offset < total by {
            assert(other@.transitions == transitions_of(second));
            assert(other@.state_count == second.len());
            lemma_rows_in_range(second, s, k);
        }
        let mut i = offset;
        while i < total
            invariant
                offset <= i <= total,
                total == self.edges.len(),
                total == first.len() + second.len(),
                offset == first.len(),
                self.start == old(self).start,
                self.accept == old(self).accept,
                forall|s: int, k: int|
                    0 <= s < second.len() && 0 <= k < second[s].len() ==> (
                    #[trigger] second[s][k]).1 + offset < total,
                self.rows() =~= first + shift_rows(second, offset as int).take(i - offset)
                    + second.skip(i - offset),
            decreases total - i,
        {
            let ghost before = self.rows();
            assert(before[i as int] == second[i - offset]);
            let row = shifted(&self.edges[i], offset);
            self.edges[i] = row;
            assert(self.rows() =~= before.update(
                i as int,
                shift_row(second[i - offset], offset as int),
            ));
            i += 1;
        }
        proof {
            assert(self.rows() =~= first + shift_rows(second, offset as int));
            lemma_graft(first, second);
        }
        offset
    }

    /// Adds the transition `(from, sym, to)`.
    fn add_edge(&mut self, from: usize, sym: NFASymbol, to: usize)
        requires
            from < old(self).edges.len(),
        ensures
            final(self).start == old(self).start,
            final(self).accept == old(self).accept,
            final(self)@.state_count == old(self)@.state_count,
            final(self)@.transitions == old(self)@.transitions.insert(
                (from as int, sym, to as int),
            ),
    {
        proof {
            lemma_push_edge(self.rows(), from as int, (sym, to));
        }
        self.edges[from].push((sym, to));
        assert(self.rows() =~= old(self).rows().update(
            from as int,
            old(self).rows()[from as int].push((sym, to)),
        ));
    }
}

} // verus!
