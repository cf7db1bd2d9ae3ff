//! Walks through a nondeterministic automaton: how they are extended, taken
//! apart and joined, and what follows for the sets of states that a word
//! leads to.

use crate::nfa::{NFASymbol, NfaModel, Transition};
use vstd::prelude::*;

verus! {

/// A set of states that no epsilon transition leaves.
pub open spec fn eps_closed(m: NfaModel, states: Set<int>) -> bool {
    forall|t: Transition| #[trigger]
        m.transitions.contains(t) && t.1 == NFASymbol::Epsilon && states.contains(t.0)
            ==> states.contains(t.2)
}

/// How a walk of at least one transition ends.
pub enum LastStep {
    /// With an epsilon transition out of this state.
    Epsilon(int),
    /// With a transition out of this state on this character, the last of
    /// the word.
    Char(int, char),
}

/// A walk extended by an epsilon transition.
pub proof fn lemma_walk_epsilon(m: NfaModel, p: int, w: Seq<char>, r: int, q: int, steps: nat)
    requires
        m.reach_in(p, w, r, steps),
        m.transitions.contains((r, NFASymbol::Epsilon, q)),
    ensures
        m.reach_in(p, w, q, steps + 1),
{
}

/// A walk extended by a transition on `c`.
pub proof fn lemma_walk_char(m: NfaModel, p: int, w: Seq<char>, r: int, c: char, q: int, steps: nat)
    requires
        m.reach_in(p, w, r, steps),
        m.transitions.contains((r, NFASymbol::Char(c), q)),
    ensures
        m.reach_in(p, w.push(c), q, steps + 1),
{
    assert(w.push(c).drop_last() =~= w);
}

/// The last transition of a walk of at least one transition.
pub proof fn lemma_walk_last(m: NfaModel, p: int, w: Seq<char>, q: int, steps: nat) -> (last:
    LastStep)
    requires
        steps > 0,
        m.reach_in(p, w, q, steps),
    ensures
        match last {
            LastStep::Epsilon(r) => m.reach_in(p, w, r, (steps - 1) as nat)
                && m.transitions.contains((r, NFASymbol::Epsilon, q)),
            LastStep::Char(r, c) => w.len() > 0 && c == w.last() && m.reach_in(
                p,
                w.drop_last(),
                r,
                (steps - 1) as nat,
            ) && m.transitions.contains((r, NFASymbol::Char(c), q)),
        },
{
    let back = (steps - 1) as nat;
    if exists|r: int|
        m.reach_in(p, w, r, back) && #[trigger] m.transitions.contains(
            (r, NFASymbol::Epsilon, q),
        ) {
        LastStep::Epsilon(
            choose|r: int|
                m.reach_in(p, w, r, back) && #[trigger] m.transitions.contains(
                    (r, NFASymbol::Epsilon, q),
                ),
        )
    } else {
        LastStep::Char(
            choose|r: int|
                m.reach_in(p, w.drop_last(), r, back) && #[trigger] m.transitions.contains(
                    (r, NFASymbol::Char(w.last()), q),
                ),
            w.last(),
        )
    }
}

/// One more epsilon transition extends a walk without changing its word.
pub proof fn lemma_reach_then_epsilon(m: NfaModel, p: int, w: Seq<char>, r: int, q: int)
    requires
        m.reach(p, w, r),
        m.transitions.contains((r, NFASymbol::Epsilon, q)),
    ensures
        m.reach(p, w, q),
{
    let steps = choose|steps: nat| m.reach_in(p, w, r, steps);
    lemma_walk_epsilon(m, p, w, r, q, steps);
}

/// One more transition on `c` extends a walk and appends `c` to its word.
pub proof fn lemma_reach_then_char(m: NfaModel, p: int, w: Seq<char>, r: int, c: char, q: int)
    requires
        m.reach(p, w, r),
        m.transitions.contains((r, NFASymbol::Char(c), q)),
    ensures
        m.reach(p, w.push(c), q),
{
    let steps = choose|steps: nat| m.reach_in(p, w, r, steps);
    lemma_walk_char(m, p, w, r, c, q, steps);
}

/// Walks can be joined end to end; their words are concatenated.
pub proof fn lemma_walk_join(
    m: NfaModel,
    p: int,
    w1: Seq<char>,
    r: int,
    n1: nat,
    w2: Seq<char>,
    q: int,
    n2: nat,
)
    requires
        m.reach_in(p, w1, r, n1),
        m.reach_in(r, w2, q, n2),
    ensures
        m.reach_in(p, w1 + w2, q, n1 + n2),
    decreases n2,
{
    if n2 == 0 {
        assert(w1 + w2 =~= w1);
    } else {
        let back = (n2 - 1) as nat;
        match lemma_walk_last(m, r, w2, q, n2) {
            LastStep::Epsilon(x) => {
                lemma_walk_join(m, p, w1, r, n1, w2, x, back);
                lemma_walk_epsilon(m, p, w1 + w2, x, q, n1 + back);
            },
            LastStep::Char(x, c) => {
                lemma_walk_join(m, p, w1, r, n1, w2.drop_last(), x, back);
                lemma_walk_char(m, p, w1 + w2.drop_last(), x, c, q, n1 + back);
                assert((w1 + w2.drop_last()).push(c) =~= w1 + w2);
            },
        }
    }
}

/// Walks can be joined end to end; their words are concatenated.
pub proof fn lemma_reach_join(m: NfaModel, p: int, w1: Seq<char>, r: int, w2: Seq<char>, q: int)
    requires
        m.reach(p, w1, r),
        m.reach(r, w2, q),
    ensures
        m.reach(p, w1 + w2, q),
{
    let n1 = choose|n1: nat| m.reach_in(p, w1, r, n1);
    let n2 = choose|n2: nat| m.reach_in(r, w2, q, n2);
    lemma_walk_join(m, p, w1, r, n1, w2, q, n2);
}

/// A set closed under epsilon transitions holds everything that its members
/// reach by epsilon transitions.
pub proof fn lemma_closed_holds_reached(m: NfaModel, states: Set<int>, p: int, q: int, steps: nat)
    requires
        eps_closed(m, states),
        states.contains(p),
        m.reach_in(p, Seq::empty(), q, steps),
    ensures
        states.contains(q),
    decreases steps,
{
    if steps > 0 {
        match lemma_walk_last(m, p, Seq::empty(), q, steps) {
            LastStep::Epsilon(r) => {
                lemma_closed_holds_reached(m, states, p, r, (steps - 1) as nat);
                assert(m.transitions.contains((r, NFASymbol::Epsilon, q)));
            },
            LastStep::Char(r, c) => {},
        }
    }
}

/// Both ends of a transition of a well-formed automaton are states.
pub proof fn lemma_transition_inside(m: NfaModel, p: int, sym: NFASymbol, q: int)
    requires
        m.wf(),
        m.transitions.contains((p, sym, q)),
    ensures
        0 <= p < m.state_count,
        0 <= q < m.state_count,
{
}

/// Walks of a well-formed automaton end at a state.
pub proof fn lemma_walk_stays_inside(m: NfaModel, p: int, w: Seq<char>, q: int, steps: nat)
    requires
        m.wf(),
        0 <= p < m.state_count,
        m.reach_in(p, w, q, steps),
    ensures
        0 <= q < m.state_count,
    decreases steps,
{
    if steps > 0 {
        match lemma_walk_last(m, p, w, q, steps) {
            LastStep::Epsilon(r) => {
                lemma_transition_inside(m, r, NFASymbol::Epsilon, q);
            },
            LastStep::Char(r, c) => {
                lemma_transition_inside(m, r, NFASymbol::Char(c), q);
            },
        }
    }
}

/// Epsilon transitions of a well-formed automaton lead from a state to a state.
pub proof fn lemma_reach_stays_inside(m: NfaModel, p: int, q: int)
    requires
        m.wf(),
        0 <= p < m.state_count,
        m.reach(p, Seq::empty(), q),
    ensures
        0 <= q < m.state_count,
{
    let steps = choose|steps: nat| m.reach_in(p, Seq::empty(), q, steps);
    lemma_walk_stays_inside(m, p, Seq::empty(), q, steps);
}

/// Whether `set` has a member.
pub open spec fn inhabited(set: Set<int>) -> bool {
    exists|q: int| set.contains(q)
}

/// A closure holds the states it was taken of.
pub proof fn lemma_closure_holds_seed(m: NfaModel, from: Set<int>, p: int)
    requires
        from.contains(p),
    ensures
        m.closure(from).contains(p),
{
    assert(m.reach_in(p, Seq::empty(), p, 0));
    assert(m.reach(p, Seq::empty(), p));
}

/// Where a transition on `c` leaves `from`, reading `c` leads somewhere.
pub proof fn lemma_successor_inhabited(m: NfaModel, from: Set<int>, c: char)
    requires
        m.has_move(from, c),
    ensures
        inhabited(m.successor(from, c)),
{
    let (p, q) = choose|p: int, q: int|
        from.contains(p) && #[trigger] m.transitions.contains((p, NFASymbol::Char(c), q));
    assert(m.move_set(from, c).contains(q));
    lemma_closure_holds_seed(m, m.move_set(from, c), q);
}

/// Before any input the automaton is in the closure of its start state.
pub proof fn lemma_reach_set_start(m: NfaModel)
    ensures
        m.reach_set(Seq::empty()) == m.closure(set![m.start]),
{
    let from = set![m.start];
    assert forall|q: int| m.reach_set(Seq::empty()).contains(q) implies m.closure(from).contains(
        q,
    ) by {
        assert(from.contains(m.start));
    }
    assert(m.reach_set(Seq::empty()) =~= m.closure(from));
}

/// A walk that spells `w` and then `c` passes, right after `c`, through a
/// state from which its end is reached by epsilon transitions.
proof fn lemma_walk_splits_at_last_char(m: NfaModel, w: Seq<char>, c: char, q: int, steps: nat)
    requires
        m.reach_in(m.start, w.push(c), q, steps),
    ensures
        m.successor(m.reach_set(w), c).contains(q),
    decreases steps,
{
    let from = m.reach_set(w);
    let word = w.push(c);
    assert(word.drop_last() =~= w);
    assert(steps > 0);
    match lemma_walk_last(m, m.start, word, q, steps) {
        LastStep::Epsilon(r) => {
            lemma_walk_splits_at_last_char(m, w, c, r, (steps - 1) as nat);
            let d = choose|d: int|
                m.move_set(from, c).contains(d) && #[trigger] m.reach(d, Seq::empty(), r);
            lemma_reach_then_epsilon(m, d, Seq::empty(), r, q);
        },
        LastStep::Char(r, last) => {
            assert(m.reach_in(m.start, w, r, (steps - 1) as nat));
            assert(from.contains(r));
            assert(m.transitions.contains((r, NFASymbol::Char(c), q)));
            assert(m.move_set(from, c).contains(q));
            assert(m.reach_in(q, Seq::empty(), q, 0));
            assert(m.reach(q, Seq::empty(), q));
        },
    }
}

/// Reading one more character takes the automaton from the states it can be
/// in to their successor.
pub proof fn lemma_reach_set_step(m: NfaModel, w: Seq<char>, c: char)
    ensures
        m.reach_set(w.push(c)) == m.successor(m.reach_set(w), c),
{
    let from = m.reach_set(w);
    assert forall|q: int| m.reach_set(w.push(c)).contains(q) implies m.successor(from, c).contains(
        q,
    ) by {
        let steps = choose|steps: nat| m.reach_in(m.start, w.push(c), q, steps);
        lemma_walk_splits_at_last_char(m, w, c, q, steps);
    }
    assert forall|q: int| m.successor(from, c).contains(q) implies m.reach_set(w.push(c)).contains(
        q,
    ) by {
        let d = choose|d: int|
            m.move_set(from, c).contains(d) && #[trigger] m.reach(d, Seq::empty(), q);
        let p = choose|p: int|
            from.contains(p) && #[trigger] m.transitions.contains((p, NFASymbol::Char(c), d));
        lemma_reach_then_char(m, m.start, w, p, c, d);
        lemma_reach_join(m, m.start, w.push(c), d, Seq::empty(), q);
        assert(w.push(c) + Seq::<char>::empty() =~= w.push(c));
    }
    assert(m.reach_set(w.push(c)) =~= m.successor(from, c));
}

/// Where no transition on `c` leaves `from`, reading `c` leads nowhere.
pub proof fn lemma_successor_of_nothing(m: NfaModel, from: Set<int>, c: char)
    requires
        !m.has_move(from, c),
    ensures
        m.successor(from, c) == Set::<int>::empty(),
{
    assert forall|q: int| !m.move_set(from, c).contains(q) by {
        if m.move_set(from, c).contains(q) {
            let p = choose|p: int|
                from.contains(p) && #[trigger] m.transitions.contains((p, NFASymbol::Char(c), q));
            assert(m.has_move(from, c));
        }
    }
    assert(m.successor(from, c) =~= Set::<int>::empty());
}

} // verus!
