//! Deterministic automata: epsilon closure, subset construction, matching.
//!
//! A state of the deterministic automaton stands for a set of states of the
//! nondeterministic one. The set is kept as one flag per state, so two states
//! are the same exactly when their flags are.

use crate::flags::{
    clear_flags, count_clear, flagged, lemma_distinct_flags_bound, lemma_flagged_injective,
    lemma_set_flag, merge_flags, same_flags,
};
use crate::nfa::{row_has, Edge, NFASymbol, NfaModel, Transition, NFA};
use crate::walks::{
    eps_closed, inhabited, lemma_closed_holds_reached, lemma_closure_holds_seed,
    lemma_reach_set_start, lemma_reach_set_step, lemma_reach_stays_inside,
    lemma_reach_then_epsilon, lemma_successor_inhabited, lemma_successor_of_nothing,
};
use vstd::arithmetic::power2::pow2;
use vstd::prelude::*;

verus! {

/// A set of states of the nondeterministic automaton: `nfa_states[q]` tells
/// whether state `q` belongs to it.
#[derive(Debug, PartialEq, Eq)]
pub struct DFAState {
    pub nfa_states: Vec<bool>,
}

impl View for DFAState {
    type V = Set<int>;

    open spec fn view(&self) -> Set<int> {
        flagged(self.nfa_states@)
    }
}

/// The epsilon transitions among the first `upto` of `row` lead into `flags`.
pub open spec fn row_closed(row: Seq<Edge>, flags: Seq<bool>, upto: int) -> bool {
    forall|k: int|
        0 <= k < upto && (#[trigger] row[k]).0 == NFASymbol::Epsilon ==> row[k].1 < flags.len()
            && flags[row[k].1 as int]
}

/// Whether `q` waits on the stack.
pub open spec fn on_stack(stack: Seq<usize>, q: int) -> bool {
    exists|i: int| 0 <= i < stack.len() && #[trigger] stack[i] == q
}

/// The set of states reachable from `start` using only epsilon transitions.
///
/// A stack holds the states whose transitions are still to be followed; a
/// state enters the set, and the stack, at most once.
pub fn epsilon_closure(nfa: &NFA, start: usize) -> (closure: DFAState)
    requires
        nfa.wf(),
        start < nfa.edges.len(),
    ensures
        closure.nfa_states.len() == nfa.edges.len(),
        closure@ == nfa@.closure(set![start as int]),
{
    let n = nfa.edges.len();
    let ghost m = nfa@;
    let ghost rows = nfa.rows();
    let ghost none = Seq::<char>::empty();
    let mut flags = clear_flags(n);
    flags[start] = true;
    let mut stack: Vec<usize> = Vec::new();
    stack.push(start);
    proof {
        assert(m.reach_in(start as int, none, start as int, 0));
        assert(stack@[0] == start);
    }
    while stack.len() > 0
        invariant
            nfa.wf(),
            m == nfa@,
            rows == nfa.rows(),
            none == Seq::<char>::empty(),
            n == nfa.edges.len(),
            flags.len() == n,
            start < n,
            flags[start as int],
            forall|i: int| 0 <= i < stack.len() ==> stack[i] < n && flags[stack[i] as int],
            forall|q: int| 0 <= q < n && flags[q] ==> m.reach(start as int, none, q),
            forall|q: int|
                0 <= q < n && flags[q] && !on_stack(stack@, q) ==> row_closed(
                    #[trigger] rows[q],
                    flags@,
                    rows[q].len() as int,
                ),
        decreases count_clear(flags@), stack.len(),
    {
        let ghost clear_before = count_clear(flags@);
        let ghost stack_before = stack@;
        let s = stack.pop().unwrap();
        let row = &nfa.edges[s];
        proof {
            assert(row@ == rows[s as int]);
            assert forall|q: int| on_stack(stack_before, q) && q != s implies on_stack(
                stack@,
                q,
            ) by {
                let i = choose|i: int|
                    0 <= i < stack_before.len() && #[trigger] stack_before[i] == q;
                assert(stack@[i] == q);
            }
        }
        let mut k: usize = 0;
        while k < row.len()
            invariant
                nfa.wf(),
                m == nfa@,
                rows == nfa.rows(),
                none == Seq::<char>::empty(),
                n == nfa.edges.len(),
                flags.len() == n,
                start < n,
                s < n,
                flags[start as int],
                flags[s as int],
                row@ == rows[s as int],
                k <= row.len(),
                stack_before.len() > 0,
                forall|i: int| 0 <= i < stack.len() ==> stack[i] < n && flags[stack[i] as int],
                forall|q: int| 0 <= q < n && flags[q] ==> m.reach(start as int, none, q),
                forall|q: int|
                    0 <= q < n && flags[q] && !on_stack(stack@, q) && q != s ==> row_closed(
                        #[trigger] rows[q],
                        flags@,
                        rows[q].len() as int,
                    ),
                row_closed(row@, flags@, k as int),
                count_clear(flags@) < clear_before || (count_clear(flags@) == clear_before
                    && stack.len() == stack_before.len() - 1),
            decreases row.len() - k,
        {
            let (sym, to) = row[k];
            proof {
                nfa.lemma_edge(s as int, k as int);
            }
            match sym {
                NFASymbol::Epsilon => {
                    if !flags[to] {
                        proof {
                            lemma_set_flag(flags@, to as int);
                            lemma_reach_then_epsilon(m, start as int, none, s as int, to as int);
                        }
                        let ghost stack_prior = stack@;
                        flags[to] = true;
                        stack.push(to);
                        proof {
                            assert forall|q: int|
                                0 <= q < n && flags[q] && !on_stack(stack@, q) && q
                                    != s implies row_closed(
                                #[trigger] rows[q],
                                flags@,
                                rows[q].len() as int,
                            ) by {
                                assert(stack@[stack_prior.len() as int] == to);
                                assert(q != to);
                                if on_stack(stack_prior, q) {
                                    let i = choose|i: int|
                                        0 <= i < stack_prior.len() && #[trigger] stack_prior[i]
                                            == q;
                                    assert(stack@[i] == q);
                                }
                            }
                        }
                    }
                },
                NFASymbol::Char(_) => {},
            }
            k += 1;
        }
    }
    let closure = DFAState { nfa_states: flags };
    proof {
        let from = set![start as int];
        assert forall|q: int| closure@.contains(q) implies m.closure(from).contains(q) by {
            assert(from.contains(start as int));
        }
        assert(eps_closed(m, closure@)) by {
            assert forall|t: Transition| #[trigger]
                m.transitions.contains(t) && t.1 == NFASymbol::Epsilon && closure@.contains(
                    t.0,
                ) implies closure@.contains(t.2) by {
                assert(!on_stack(stack@, t.0));
                assert(row_closed(rows[t.0], flags@, rows[t.0].len() as int));
                let k = choose|k: int|
                    0 <= k < rows[t.0].len() && #[trigger] rows[t.0][k] == (t.1, t.2 as usize)
                        && t.2 == rows[t.0][k].1;
                assert(rows[t.0][k].0 == NFASymbol::Epsilon);
            }
        }
        assert forall|q: int| m.closure(from).contains(q) implies closure@.contains(q) by {
            let p = choose|p: int| from.contains(p) && #[trigger] m.reach(p, none, q);
            let steps = choose|steps: nat| m.reach_in(p, none, q, steps);
            lemma_closed_holds_reached(m, closure@, start as int, q, steps);
        }
        assert(closure@ =~= m.closure(from));
    }
    closure
}

/// Whether `row` holds a transition on `c`.
pub open spec fn row_reads(row: Seq<Edge>, c: char) -> bool {
    exists|k: int| 0 <= k < row.len() && (#[trigger] row[k]).0 == NFASymbol::Char(c)
}

/// Whether `symbols` holds `c`.
fn holds(symbols: &Vec<char>, c: char) -> (found: bool)
    ensures
        found == symbols@.contains(c),
{
    let mut k: usize = 0;
    while k < symbols.len()
        invariant
            k <= symbols.len(),
            forall|j: int| 0 <= j < k ==> symbols[j] != c,
        decreases symbols.len() - k,
    {
        if symbols[k] == c {
            return true;
        }
        k += 1;
    }
    false
}

/// A row with one more entry reads what it read before and what the entry reads.
proof fn lemma_row_reads_push(seen: Seq<Edge>, edge: Edge, c: char)
    ensures
        row_reads(seen.push(edge), c) <==> row_reads(seen, c) || edge.0 == NFASymbol::Char(c),
{
    let next = seen.push(edge);
    if row_reads(seen, c) {
        let j = choose|j: int| 0 <= j < seen.len() && (#[trigger] seen[j]).0 == NFASymbol::Char(c);
        assert(next[j].0 == NFASymbol::Char(c));
    }
    if edge.0 == NFASymbol::Char(c) {
        assert(next[seen.len() as int].0 == NFASymbol::Char(c));
    }
    if row_reads(next, c) {
        let j = choose|j: int| 0 <= j < next.len() && (#[trigger] next[j]).0 == NFASymbol::Char(c);
        if j < seen.len() {
            assert(seen[j].0 == NFASymbol::Char(c));
        }
    }
}

/// A sequence with one more item holds what it held before and the item.
proof fn lemma_push_contains<T>(items: Seq<T>, item: T, x: T)
    ensures
        items.push(item).contains(x) <==> items.contains(x) || x == item,
{
    let next = items.push(item);
    if items.contains(x) {
        let i = choose|i: int| 0 <= i < items.len() && items[i] == x;
        assert(next[i] == x);
    }
    if x == item {
        assert(next[items.len() as int] == x);
    }
    if next.contains(x) {
        let i = choose|i: int| 0 <= i < next.len() && next[i] == x;
        if i < items.len() {
            assert(items[i] == x);
        }
    }
}

/// Adds to `symbols` the characters on which `row` has a transition.
fn add_symbols(row: &Vec<Edge>, symbols: &mut Vec<char>)
    requires
        old(symbols)@.no_duplicates(),
    ensures
        final(symbols)@.no_duplicates(),
        forall|c: char|
            final(symbols)@.contains(c) <==> old(symbols)@.contains(c) || row_reads(row@, c),
{
    let mut k: usize = 0;
    while k < row.len()
        invariant
            k <= row.len(),
            symbols@.no_duplicates(),
            forall|c: char|
                symbols@.contains(c) <==> old(symbols)@.contains(c) || row_reads(
                    row@.take(k as int),
                    c,
                ),
        decreases row.len() - k,
    {
        let ghost before = symbols@;
        let ghost seen = row@.take(k as int);
        assert(row@.take(k + 1) =~= seen.push(row@[k as int]));
        match row[k].0 {
            NFASymbol::Char(c) => {
                if !holds(symbols, c) {
                    symbols.push(c);
                    proof {
                        assert forall|x: char|
                            symbols@.contains(x) <==> before.contains(x) || x == c by {
                            lemma_push_contains(before, c, x);
                        }
                    }
                }
            },
            NFASymbol::Epsilon => {},
        }
        proof {
            assert forall|x: char|
                symbols@.contains(x) <==> old(symbols)@.contains(x) || row_reads(
                    row@.take(k + 1),
                    x,
                ) by {
                lemma_row_reads_push(seen, row@[k as int], x);
            }
        }
        k += 1;
    }
    assert(row@.take(row.len() as int) =~= row@);
}

/// Whether a row of a flagged state below `bound` holds a transition on `c`.
pub open spec fn reads_below(rows: Seq<Seq<Edge>>, flags: Seq<bool>, c: char, bound: int) -> bool {
    exists|p: int|
        0 <= p < bound && p < rows.len() && p < flags.len() && flags[p] && #[trigger] row_reads(
            rows[p],
            c,
        )
}

/// The distinct characters that label a transition leaving a state of `state`.
fn outgoing_symbols(nfa: &NFA, state: &DFAState) -> (symbols: Vec<char>)
    requires
        nfa.wf(),
        state.nfa_states.len() == nfa.edges.len(),
    ensures
        symbols@.no_duplicates(),
        forall|c: char| symbols@.contains(c) <==> nfa@.has_move(state@, c),
{
    let ghost rows = nfa.rows();
    let ghost flags = state.nfa_states@;
    let mut symbols: Vec<char> = Vec::new();
    let mut q: usize = 0;
    while q < nfa.edges.len()
        invariant
            q <= nfa.edges.len(),
            rows == nfa.rows(),
            flags == state.nfa_states@,
            flags.len() == nfa.edges.len(),
            symbols@.no_duplicates(),
            forall|c: char| symbols@.contains(c) <==> reads_below(rows, flags, c, q as int),
        decreases nfa.edges.len() - q,
    {
        if state.nfa_states[q] {
            add_symbols(&nfa.edges[q], &mut symbols);
        }
        proof {
            assert(nfa.edges[q as int]@ == rows[q as int]);
            assert forall|c: char| symbols@.contains(c) <==> reads_below(
                rows,
                flags,
                c,
                q + 1,
            ) by {
                if reads_below(rows, flags, c, q as int) {
                    let p = choose|p: int|
                        0 <= p < q && p < rows.len() && p < flags.len() && flags[p]
                            && #[trigger] row_reads(rows[p], c);
                    assert(row_reads(rows[p], c));
                }
                if flags[q as int] && row_reads(rows[q as int], c) {
                    assert(reads_below(rows, flags, c, q + 1));
                }
                if reads_below(rows, flags, c, q + 1) {
                    let p = choose|p: int|
                        0 <= p < q + 1 && p < rows.len() && p < flags.len() && flags[p]
                            && #[trigger] row_reads(rows[p], c);
                    if p < q {
                        assert(reads_below(rows, flags, c, q as int));
                    }
                }
            }
        }
        q += 1;
    }
    proof {
        let m = nfa@;
        assert forall|c: char| reads_below(rows, flags, c, q as int) <==> m.has_move(
            state@,
            c,
        ) by {
            if reads_below(rows, flags, c, q as int) {
                let p = choose|p: int|
                    0 <= p < q && p < rows.len() && p < flags.len() && flags[p]
                        && #[trigger] row_reads(rows[p], c);
                let k = choose|k: int|
                    0 <= k < rows[p].len() && (#[trigger] rows[p][k]).0 == NFASymbol::Char(c);
                nfa.lemma_edge(p, k);
                assert(state@.contains(p));
            }
            if m.has_move(state@, c) {
                let (p, d) = choose|p: int, d: int|
                    state@.contains(p) && #[trigger] m.transitions.contains(
                        (p, NFASymbol::Char(c), d),
                    );
                let k = nfa.lemma_entry(p, NFASymbol::Char(c), d);
                assert(rows[p][k].0 == NFASymbol::Char(c));
                assert(row_reads(rows[p], c));
            }
        }
    }
    symbols
}

/// Whether a row of a flagged state below `bound` holds a transition on `c` to `d`.
pub open spec fn moves_below(
    rows: Seq<Seq<Edge>>,
    flags: Seq<bool>,
    c: char,
    d: int,
    bound: int,
) -> bool {
    exists|p: int|
        0 <= p < bound && p < rows.len() && p < flags.len() && flags[p] && #[trigger] row_has(
            rows[p],
            NFASymbol::Char(c),
            d,
        )
}

/// Sets in `moved` the destinations of the transitions on `c` in `row`.
fn mark_targets(row: &Vec<Edge>, c: char, moved: &mut Vec<bool>)
    requires
        forall|k: int| 0 <= k < row.len() ==> (#[trigger] row[k]).1 < old(moved).len(),
    ensures
        final(moved).len() == old(moved).len(),
        forall|d: int|
            0 <= d < old(moved).len() ==> (#[trigger] final(moved)[d] <==> old(moved)[d] || row_has(
                row@,
                NFASymbol::Char(c),
                d,
            )),
{
    let ghost before = moved@;
    let mut k: usize = 0;
    while k < row.len()
        invariant
            k <= row.len(),
            moved.len() == before.len(),
            forall|j: int| 0 <= j < row.len() ==> (#[trigger] row[j]).1 < before.len(),
            forall|d: int|
                0 <= d < before.len() ==> (#[trigger] moved[d] <==> before[d] || row_has(
                    row@.take(k as int),
                    NFASymbol::Char(c),
                    d,
                )),
        decreases row.len() - k,
    {
        let ghost seen = row@.take(k as int);
        let ghost next = row@.take(k + 1);
        assert(next =~= seen.push(row@[k as int]));
        let (sym, to) = row[k];
        let hit = match sym {
            NFASymbol::Char(x) => x == c,
            NFASymbol::Epsilon => false,
        };
        if hit {
            moved[to] = true;
        }
        proof {
            assert forall|d: int| 0 <= d < before.len() implies (#[trigger] moved[d] <==> before[d]
                || row_has(next, NFASymbol::Char(c), d)) by {
                if row_has(seen, NFASymbol::Char(c), d) {
                    let j = choose|j: int|
                        0 <= j < seen.len() && #[trigger] seen[j] == (
                            NFASymbol::Char(c),
                            d as usize,
                        ) && d == seen[j].1;
                    assert(next[j] == (NFASymbol::Char(c), d as usize));
                }
                if hit && d == to {
                    assert(next[k as int] == (NFASymbol::Char(c), d as usize));
                }
                if row_has(next, NFASymbol::Char(c), d) {
                    let j = choose|j: int|
                        0 <= j < next.len() && #[trigger] next[j] == (
                            NFASymbol::Char(c),
                            d as usize,
                        ) && d == next[j].1;
                    if j < k {
                        assert(seen[j] == (NFASymbol::Char(c), d as usize));
                    }
                }
            }
        }
        k += 1;
    }
    assert(row@.take(row.len() as int) =~= row@);
}

/// The set of states reached from `state` by reading `c`: the destinations of
/// the transitions on `c`, closed under epsilon transitions.
pub fn successor(nfa: &NFA, state: &DFAState, c: char) -> (target: DFAState)
    requires
        nfa.wf(),
        state.nfa_states.len() == nfa.edges.len(),
    ensures
        target.nfa_states.len() == nfa.edges.len(),
        target@ == nfa@.successor(state@, c),
{
    let n = nfa.edges.len();
    let ghost m = nfa@;
    let ghost rows = nfa.rows();
    let ghost flags = state.nfa_states@;
    let ghost none = Seq::<char>::empty();
    let mut moved = clear_flags(n);
    let mut q: usize = 0;
    while q < n
        invariant
            q <= n,
            n == nfa.edges.len(),
            nfa.wf(),
            rows == nfa.rows(),
            flags == state.nfa_states@,
            flags.len() == n,
            moved.len() == n,
            forall|d: int|
                0 <= d < n ==> (#[trigger] moved[d] <==> moves_below(rows, flags, c, d, q as int)),
        decreases n - q,
    {
        if state.nfa_states[q] {
            proof {
                assert forall|k: int| 0 <= k < nfa.edges[q as int].len() implies (
                #[trigger] nfa.edges[q as int][k]).1 < n by {
                    nfa.lemma_edge(q as int, k);
                }
            }
            mark_targets(&nfa.edges[q], c, &mut moved);
        }
        proof {
            assert(nfa.edges[q as int]@ == rows[q as int]);
            assert forall|d: int| 0 <= d < n implies (#[trigger] moved[d] <==> moves_below(
                rows,
                flags,
                c,
                d,
                q + 1,
            )) by {
                if moves_below(rows, flags, c, d, q as int) {
                    let p = choose|p: int|
                        0 <= p < q && p < rows.len() && p < flags.len() && flags[p]
                            && #[trigger] row_has(rows[p], NFASymbol::Char(c), d);
                    assert(row_has(rows[p], NFASymbol::Char(c), d));
                }
                if flags[q as int] && row_has(rows[q as int], NFASymbol::Char(c), d) {
                    assert(moves_below(rows, flags, c, d, q + 1));
                }
                if moves_below(rows, flags, c, d, q + 1) {
                    let p = choose|p: int|
                        0 <= p < q + 1 && p < rows.len() && p < flags.len() && flags[p]
                            && #[trigger] row_has(rows[p], NFASymbol::Char(c), d);
                    if p < q {
                        assert(moves_below(rows, flags, c, d, q as int));
                    }
                }
            }
        }
        q += 1;
    }
    let ghost step = m.move_set(state@, c);
    proof {
        assert forall|d: int| step.contains(d) <==> 0 <= d < n && moved[d] by {
            if step.contains(d) {
                let p = choose|p: int|
                    state@.contains(p) && #[trigger] m.transitions.contains(
                        (p, NFASymbol::Char(c), d),
                    );
                let k = nfa.lemma_entry(p, NFASymbol::Char(c), d);
                assert(rows[p][k] == (NFASymbol::Char(c), d as usize));
                assert(row_has(rows[p], NFASymbol::Char(c), d));
                assert(moves_below(rows, flags, c, d, n as int));
            }
            if 0 <= d < n && moved[d] {
                let p = choose|p: int|
                    0 <= p < n && p < rows.len() && p < flags.len() && flags[p]
                        && #[trigger] row_has(rows[p], NFASymbol::Char(c), d);
                assert(state@.contains(p));
                assert(m.transitions.contains((p, NFASymbol::Char(c), d)));
            }
        }
    }
    let mut reached = clear_flags(n);
    let mut d: usize = 0;
    while d < n
        invariant
            d <= n,
            n == nfa.edges.len(),
            nfa.wf(),
            m == nfa@,
            none == Seq::<char>::empty(),
            moved.len() == n,
            reached.len() == n,
            forall|x: int|
                0 <= x < n ==> (#[trigger] reached[x] <==> exists|e: int|
                    0 <= e < d && moved[e] && #[trigger] m.reach(e, none, x)),
        decreases n - d,
    {
        if moved[d] {
            let closure = epsilon_closure(nfa, d);
            merge_flags(&mut reached, &closure.nfa_states);
            proof {
                assert forall|x: int| 0 <= x < n implies (closure.nfa_states[x] <==> m.reach(
                    d as int,
                    none,
                    x,
                )) by {
                    assert(closure@.contains(x) == closure.nfa_states[x]);
                    if m.reach(d as int, none, x) {
                        assert(set![d as int].contains(d as int));
                    }
                }
            }
        }
        proof {
            assert forall|x: int| 0 <= x < n implies (#[trigger] reached[x] <==> exists|e: int|
                0 <= e < d + 1 && moved[e] && #[trigger] m.reach(e, none, x)) by {
                if exists|e: int| 0 <= e < d && moved[e] && #[trigger] m.reach(e, none, x) {
                    let e = choose|e: int| 0 <= e < d && moved[e] && #[trigger] m.reach(e, none, x);
                    assert(0 <= e < d + 1 && moved[e] && m.reach(e, none, x));
                }
                if exists|e: int| 0 <= e < d + 1 && moved[e] && #[trigger] m.reach(e, none, x) {
                    let e = choose|e: int|
                        0 <= e < d + 1 && moved[e] && #[trigger] m.reach(e, none, x);
                    if e < d {
                        assert(0 <= e < d && moved[e] && m.reach(e, none, x));
                    }
                }
            }
        }
        d += 1;
    }
    let target = DFAState { nfa_states: reached };
    proof {
        let expected = m.successor(state@, c);
        assert forall|x: int| target@.contains(x) implies expected.contains(x) by {
            let e = choose|e: int| 0 <= e < n && moved[e] && #[trigger] m.reach(e, none, x);
            assert(step.contains(e));
        }
        assert forall|x: int| expected.contains(x) implies target@.contains(x) by {
            let e = choose|e: int| step.contains(e) && #[trigger] m.reach(e, none, x);
            lemma_reach_stays_inside(m, e, x);
        }
        assert(target@ =~= expected);
    }
    target
}

/// A transition of the deterministic automaton, as it stands in the row of
/// its source: the character and the index of the destination.
pub type DfaEdge = (char, usize);

/// The destination of the first transition on `c` in `row`.
pub open spec fn lookup(row: Seq<DfaEdge>, c: char) -> Option<usize>
    decreases row.len(),
{
    if row.len() == 0 {
        None
    } else if row[0].0 == c {
        Some(row[0].1)
    } else {
        lookup(row.drop_first(), c)
    }
}

/// Whether `row` holds a transition on `c`.
pub open spec fn row_offers(row: Seq<DfaEdge>, c: char) -> bool {
    exists|k: int| 0 <= k < row.len() && (#[trigger] row[k]).0 == c
}

/// `lookup` finds an entry of the row, and finds one whenever there is one.
pub proof fn lemma_lookup(row: Seq<DfaEdge>, c: char)
    ensures
        match lookup(row, c) {
            Some(to) => exists|k: int| 0 <= k < row.len() && #[trigger] row[k] == (c, to),
            None => !row_offers(row, c),
        },
    decreases row.len(),
{
    if row.len() > 0 {
        if row[0].0 == c {
            assert(row[0] == (c, row[0].1));
        } else {
            let rest = row.drop_first();
            lemma_lookup(rest, c);
            match lookup(rest, c) {
                Some(to) => {
                    let k = choose|k: int| 0 <= k < rest.len() && #[trigger] rest[k] == (c, to);
                    assert(row[k + 1] == (c, to));
                },
                None => {
                    if row_offers(row, c) {
                        let k = choose|k: int| 0 <= k < row.len() && (#[trigger] row[k]).0 == c;
                        assert(rest[k - 1].0 == c);
                    }
                },
            }
        }
    }
}

/// Whether some word takes the automaton exactly into the states `set`.
pub open spec fn arises(m: NfaModel, set: Set<int>) -> bool {
    exists|w: Seq<char>| #[trigger] m.reach_set(w) == set
}

/// The table of discovered states: each is a set of states of `m` with at
/// least one member, no two are the same, and `words[j]` takes `m` into
/// `states[j]`.
pub open spec fn table_ok(m: NfaModel, states: Seq<DFAState>, words: Seq<Seq<char>>) -> bool {
    &&& words.len() == states.len()
    &&& forall|j: int| 0 <= j < states.len() ==> inhabited((#[trigger] states[j])@)
    &&& forall|j: int|
        0 <= j < states.len() ==> (#[trigger] states[j]).nfa_states.len() == m.state_count
    &&& forall|a: int, b: int|
        0 <= a < b < states.len() ==> (#[trigger] states[a]).nfa_states@ != (
        #[trigger] states[b]).nfa_states@
    &&& forall|j: int| 0 <= j < states.len() ==> (#[trigger] states[j])@ == m.reach_set(words[j])
}

/// The transition `edge` out of the set `from` is the one that the subset
/// construction prescribes.
pub open spec fn edge_ok(
    m: NfaModel,
    states: Seq<DFAState>,
    from: Set<int>,
    edge: DfaEdge,
) -> bool {
    &&& edge.1 < states.len()
    &&& m.has_move(from, edge.0)
    &&& states[edge.1 as int]@ == m.successor(from, edge.0)
}

/// `row` holds the transitions out of the set `from`: each is right, and none
/// is missing.
pub open spec fn row_ok(
    m: NfaModel,
    states: Seq<DFAState>,
    from: Set<int>,
    row: Seq<DfaEdge>,
) -> bool {
    &&& forall|k: int| 0 <= k < row.len() ==> edge_ok(m, states, from, #[trigger] row[k])
    &&& forall|c: char| m.has_move(from, c) ==> row_offers(row, c)
}

/// A row stays right when states are added behind the table.
pub proof fn lemma_row_ok_extends(
    m: NfaModel,
    before: Seq<DFAState>,
    after: Seq<DFAState>,
    from: Set<int>,
    row: Seq<DfaEdge>,
)
    requires
        row_ok(m, before, from, row),
        before.len() <= after.len(),
        forall|j: int| 0 <= j < before.len() ==> before[j] == after[j],
    ensures
        row_ok(m, after, from, row),
{
    assert forall|k: int| 0 <= k < row.len() implies edge_ok(m, after, from, #[trigger] row[k]) by {
        assert(edge_ok(m, before, from, row[k]));
    }
}

/// The index of the state of the table with the flags of `target`, if any.
fn find_state(states: &Vec<DFAState>, target: &DFAState) -> (found: Option<usize>)
    ensures
        match found {
            Some(j) => j < states.len() && states[j as int].nfa_states@ == target.nfa_states@,
            None => forall|j: int|
                0 <= j < states.len() ==> (#[trigger] states[j]).nfa_states@
                    != target.nfa_states@,
        },
{
    let mut j: usize = 0;
    while j < states.len()
        invariant
            j <= states.len(),
            forall|x: int| 0 <= x < j ==> (#[trigger] states[x]).nfa_states@ != target.nfa_states@,
        decreases states.len() - j,
    {
        if same_flags(&states[j].nfa_states, &target.nfa_states) {
            return Some(j);
        }
        j += 1;
    }
    None
}

/// The transitions out of state `i` of the table. A successor that is not in
/// the table yet is added behind it.
fn expand(
    nfa: &NFA,
    states: &mut Vec<DFAState>,
    i: usize,
    Ghost(words): Ghost<Seq<Seq<char>>>,
) -> (out: (Vec<DfaEdge>, Ghost<Seq<Seq<char>>>))
    requires
        nfa.wf(),
        table_ok(nfa@, old(states)@, words),
        i < old(states).len(),
    ensures
        table_ok(nfa@, final(states)@, out.1@),
        old(states).len() <= final(states).len(),
        forall|j: int| 0 <= j < old(states).len() ==> old(states)[j] == final(states)[j],
        row_ok(nfa@, final(states)@, old(states)[i as int]@, out.0@),
{
    let ghost m = nfa@;
    let ghost from = states[i as int]@;
    let ghost mut words = words;
    let symbols = outgoing_symbols(nfa, &states[i]);
    let mut row: Vec<DfaEdge> = Vec::new();
    let mut k: usize = 0;
    while k < symbols.len()
        invariant
            nfa.wf(),
            m == nfa@,
            k <= symbols.len(),
            i < old(states).len(),
            old(states).len() <= states.len(),
            forall|j: int| 0 <= j < old(states).len() ==> old(states)[j] == states[j],
            from == old(states)[i as int]@,
            table_ok(m, states@, words),
            forall|c: char| symbols@.contains(c) <==> m.has_move(from, c),
            row.len() == k,
            forall|j: int| 0 <= j < k ==> (#[trigger] row[j]).0 == symbols[j],
            forall|j: int| 0 <= j < k ==> edge_ok(m, states@, from, #[trigger] row[j]),
        decreases symbols.len() - k,
    {
        let c = symbols[k];
        assert(symbols@.contains(c));
        let target = successor(nfa, &states[i], c);
        let ghost before = states@;
        let to = match find_state(states, &target) {
            Some(j) => {
                proof {
                    lemma_flagged_same(states[j as int].nfa_states@, target.nfa_states@);
                }
                j
            },
            None => {
                proof {
                    lemma_reach_set_step(m, words[i as int], c);
                    lemma_successor_inhabited(m, from, c);
                    words = words.push(words[i as int].push(c));
                }
                states.push(target);
                states.len() - 1
            },
        };
        row.push((c, to));
        proof {
            assert forall|j: int| 0 <= j < k + 1 implies edge_ok(
                m,
                states@,
                from,
                #[trigger] row[j],
            ) by {
                if j < k {
                    assert(edge_ok(m, before, from, row[j]));
                }
            }
        }
        k += 1;
    }
    proof {
        assert forall|c: char| m.has_move(from, c) implies row_offers(row@, c) by {
            let j = choose|j: int| 0 <= j < symbols@.len() && symbols@[j] == c;
            assert(row@[j].0 == c);
        }
    }
    (row, Ghost(words))
}

/// Equal flags stand for equal sets.
proof fn lemma_flagged_same(a: Seq<bool>, b: Seq<bool>)
    requires
        a == b,
    ensures
        flagged(a) == flagged(b),
{
}

/// A deterministic automaton over sets of states of a nondeterministic one.
///
/// State `j` stands for the set `states[j]`, accepts if `accept_states[j]`,
/// and `transitions[j]` holds its transitions. A state has at most one
/// transition on a character; a character without one is rejected.
#[derive(Debug)]
pub struct DFA {
    pub start: usize,
    pub states: Vec<DFAState>,
    pub accept_states: Vec<bool>,
    pub transitions: Vec<Vec<DfaEdge>>,
}

impl DFA {
    /// The tables have one entry per state and every index is a state.
    pub open spec fn wf(&self) -> bool {
        &&& self.start < self.states.len()
        &&& self.accept_states.len() == self.states.len()
        &&& self.transitions.len() == self.states.len()
        &&& forall|j: int, k: int|
            0 <= j < self.transitions.len() && 0 <= k < self.transitions[j].len() ==> (
            #[trigger] self.transitions[j][k]).1 < self.states.len()
    }

    /// The state reached from `from` on `c`, if there is a transition.
    pub open spec fn spec_step(&self, from: int, c: char) -> Option<int> {
        if 0 <= from < self.transitions.len() {
            match lookup(self.transitions[from]@, c) {
                Some(to) => Some(to as int),
                None => None,
            }
        } else {
            None
        }
    }

    /// The state reached from the start on `w`, if no transition is missing.
    pub open spec fn spec_run(&self, w: Seq<char>) -> Option<int>
        decreases w.len(),
    {
        if w.len() == 0 {
            Some(self.start as int)
        } else {
            match self.spec_run(w.drop_last()) {
                Some(j) => self.spec_step(j, w.last()),
                None => None,
            }
        }
    }

    /// Whether the automaton accepts `w`: it can read all of `w` and ends in
    /// an accepting state.
    pub open spec fn spec_matches(&self, w: Seq<char>) -> bool {
        match self.spec_run(w) {
            Some(j) => 0 <= j < self.accept_states.len() && self.accept_states[j],
            None => false,
        }
    }

    /// What the subset construction yields for `m`, up to the numbering of
    /// the states: the start state is the closure of `m`'s start; the states
    /// are distinct sets, none empty, that some word leads to; a state
    /// accepts when it holds `m`'s accept state; and a state has a transition
    /// on `c` exactly when a transition on `c` leaves one of its members, to
    /// the closure of the destinations of those transitions.
    pub open spec fn determinizes(&self, m: NfaModel) -> bool {
        &&& self.wf()
        &&& self.states[self.start as int]@ == m.closure(set![m.start])
        &&& forall|j: int|
            0 <= j < self.states.len() ==> (#[trigger] self.states[j]).nfa_states.len()
                == m.state_count
        &&& forall|a: int, b: int|
            0 <= a < b < self.states.len() ==> (#[trigger] self.states[a])@ != (
            #[trigger] self.states[b])@
        &&& forall|j: int| 0 <= j < self.states.len() ==> arises(m, (#[trigger] self.states[j])@)
        &&& forall|j: int| 0 <= j < self.states.len() ==> inhabited((#[trigger] self.states[j])@)
        &&& forall|j: int|
            0 <= j < self.states.len() ==> #[trigger] self.accept_states[j]
                == self.states[j]@.contains(m.accept)
        &&& forall|j: int, c: char|
            0 <= j < self.states.len() ==> match #[trigger] self.spec_step(j, c) {
                Some(k) => 0 <= k < self.states.len() && m.has_move(self.states[j]@, c)
                    && self.states[k]@ == m.successor(self.states[j]@, c),
                None => !m.has_move(self.states[j]@, c),
            }
    }

    /// What `determinizes` says of one transition.
    pub proof fn lemma_step(&self, m: NfaModel, j: int, c: char)
        requires
            self.determinizes(m),
            0 <= j < self.states.len(),
        ensures
            match self.spec_step(j, c) {
                Some(k) => 0 <= k < self.states.len() && self.states[k]@ == m.successor(
                    self.states[j]@,
                    c,
                ),
                None => m.successor(self.states[j]@, c) == Set::<int>::empty(),
            },
    {
        if self.spec_step(j, c) is None {
            lemma_successor_of_nothing(m, self.states[j]@, c);
        }
    }

    /// After reading `w` the deterministic automaton is in the state that
    /// stands for the states in which `m` can be; where it has no transition
    /// left to follow, `m` can be nowhere.
    pub proof fn lemma_run(&self, m: NfaModel, w: Seq<char>)
        requires
            self.determinizes(m),
        ensures
            match self.spec_run(w) {
                Some(j) => 0 <= j < self.states.len() && self.states[j]@ == m.reach_set(w),
                None => m.reach_set(w) == Set::<int>::empty(),
            },
        decreases w.len(),
    {
        if w.len() == 0 {
            lemma_reach_set_start(m);
            assert(w =~= Seq::empty());
        } else {
            let front = w.drop_last();
            self.lemma_run(m, front);
            lemma_reach_set_step(m, front, w.last());
            assert(front.push(w.last()) =~= w);
            match self.spec_run(front) {
                Some(j) => {
                    self.lemma_step(m, j, w.last());
                },
                None => {
                    assert(m.successor(Set::<int>::empty(), w.last()) =~= Set::<int>::empty());
                },
            }
        }
    }

    /// The determinized automaton accepts exactly the words that `m` accepts.
    pub proof fn lemma_same_language(&self, m: NfaModel, w: Seq<char>)
        requires
            self.determinizes(m),
        ensures
            self.spec_matches(w) == m.accepts(w),
    {
        self.lemma_run(m, w);
        assert(m.reach_set(w).contains(m.accept) == m.accepts(w));
    }

    /// The subset construction: the deterministic automaton of `nfa`.
    ///
    /// The table of states is its own work list: the states from `i` on are
    /// still to be expanded, and expanding one may add states behind it. There
    /// are at most `2^n` sets of `n` states, so the table stops growing.
    pub fn from_nfa(nfa: &NFA) -> (dfa: DFA)
        requires
            nfa.wf(),
        ensures
            dfa.determinizes(nfa@),
            forall|w: Seq<char>| dfa.spec_matches(w) == nfa@.accepts(w),
            dfa.states.len() <= pow2(nfa@.state_count as nat),
    {
        let ghost m = nfa@;
        let n = nfa.edges.len();
        let start_state = epsilon_closure(nfa, nfa.start);
        let mut states: Vec<DFAState> = Vec::new();
        states.push(start_state);
        let mut accept_states: Vec<bool> = Vec::new();
        let mut transitions: Vec<Vec<DfaEdge>> = Vec::new();
        let ghost mut words: Seq<Seq<char>> = seq![Seq::<char>::empty()];
        proof {
            lemma_reach_set_start(m);
            lemma_closure_holds_seed(m, set![m.start], m.start);
        }
        let mut i: usize = 0;
        while i < states.len()
            invariant
                nfa.wf(),
                m == nfa@,
                n == nfa.edges.len(),
                table_ok(m, states@, words),
                states.len() >= 1,
                states[0]@ == m.closure(set![m.start]),
                i <= states.len(),
                accept_states.len() == i,
                transitions.len() == i,
                forall|j: int|
                    0 <= j < i ==> #[trigger] accept_states[j] == states[j]@.contains(m.accept),
                forall|j: int|
                    0 <= j < i ==> row_ok(m, states@, states[j]@, (#[trigger] transitions[j])@),
            decreases pow2(n as nat) - i,
        {
            proof {
                lemma_table_bound(m, states@, words);
            }
            let ghost before = states@;
            let accepting = states[i].nfa_states[nfa.accept];
            let (row, Ghost(extended)) = expand(nfa, &mut states, i, Ghost(words));
            proof {
                words = extended;
                assert forall|j: int| 0 <= j < i implies row_ok(
                    m,
                    states@,
                    states[j]@,
                    (#[trigger] transitions[j])@,
                ) by {
                    lemma_row_ok_extends(m, before, states@, before[j]@, transitions[j]@);
                }
                lemma_table_bound(m, states@, words);
            }
            accept_states.push(accepting);
            transitions.push(row);
            i += 1;
        }
        let dfa = DFA { start: 0, states, accept_states, transitions };
        proof {
            lemma_table_bound(m, dfa.states@, words);
            dfa.lemma_determinizes(m, words);
            assert forall|w: Seq<char>| dfa.spec_matches(w) == m.accepts(w) by {
                dfa.lemma_same_language(m, w);
            }
        }
        dfa
    }

    /// The state reached from `from` on `c`, if there is a transition.
    pub fn step(&self, from: usize, c: char) -> (to: Option<usize>)
        requires
            self.wf(),
            from < self.states.len(),
        ensures
            match to {
                Some(k) => k < self.states.len() && self.spec_step(from as int, c) == Some(
                    k as int,
                ),
                None => self.spec_step(from as int, c) is None,
            },
    {
        let row = &self.transitions[from];
        assert(row@.skip(0) =~= row@);
        let mut k: usize = 0;
        while k < row.len()
            invariant
                self.wf(),
                from < self.states.len(),
                row == self.transitions[from as int],
                k <= row.len(),
                lookup(row@, c) == lookup(row@.skip(k as int), c),
            decreases row.len() - k,
        {
            assert(row@.skip(k as int).drop_first() =~= row@.skip(k + 1));
            if row[k].0 == c {
                assert(self.transitions[from as int][k as int].1 < self.states.len());
                return Some(row[k].1);
            }
            k += 1;
        }
        None
    }

    /// Once a transition is missing, no longer word is read to the end.
    pub proof fn lemma_run_stuck(&self, w: Seq<char>, k: int)
        requires
            0 <= k <= w.len(),
            self.spec_run(w.take(k)) is None,
        ensures
            self.spec_run(w) is None,
        decreases w.len() - k,
    {
        if k < w.len() {
            assert(w.take(k + 1).drop_last() =~= w.take(k));
            self.lemma_run_stuck(w, k + 1);
        } else {
            assert(w.take(k) =~= w);
        }
    }

    /// Whether the automaton accepts `input`: one scan from left to right,
    /// which stops at the first character without a transition.
    pub fn matches(&self, input: &str) -> (accepted: bool)
        requires
            self.wf(),
        ensures
            accepted == self.spec_matches(input@),
    {
        let mut current = self.start;
        for c in it: input.chars()
            invariant
                self.wf(),
                it.seq() == input@,
                current < self.states.len(),
                self.spec_run(input@.take(it.index() as int)) == Some(current as int),
        {
            let ghost k = it.index() as int;
            assert(input@.take(k + 1).drop_last() =~= input@.take(k));
            match self.step(current, c) {
                Some(next) => {
                    current = next;
                },
                None => {
                    proof {
                        self.lemma_run_stuck(input@, k + 1);
                    }
                    return false;
                },
            }
        }
        assert(input@.take(input@.len() as int) =~= input@);
        self.accept_states[current]
    }

    /// A finished table is what the subset construction yields.
    proof fn lemma_determinizes(&self, m: NfaModel, words: Seq<Seq<char>>)
        requires
            self.start == 0,
            table_ok(m, self.states@, words),
            self.states.len() >= 1,
            self.states[0]@ == m.closure(set![m.start]),
            self.accept_states.len() == self.states.len(),
            self.transitions.len() == self.states.len(),
            forall|j: int|
                0 <= j < self.states.len() ==> #[trigger] self.accept_states[j]
                    == self.states[j]@.contains(m.accept),
            forall|j: int|
                0 <= j < self.states.len() ==> row_ok(
                    m,
                    self.states@,
                    self.states[j]@,
                    (#[trigger] self.transitions[j])@,
                ),
        ensures
            self.determinizes(m),
    {
        assert forall|j: int, k: int|
            0 <= j < self.transitions.len() && 0 <= k < self.transitions[j].len() implies (
        #[trigger] self.transitions[j][k]).1 < self.states.len() by {
            assert(edge_ok(m, self.states@, self.states[j]@, self.transitions[j]@[k]));
        }
        assert forall|a: int, b: int| 0 <= a < b < self.states.len() implies (
        #[trigger] self.states[a])@ != (#[trigger] self.states[b])@ by {
            if self.states[a]@ == self.states[b]@ {
                lemma_flagged_injective(self.states[a].nfa_states@, self.states[b].nfa_states@);
            }
        }
        assert forall|j: int| 0 <= j < self.states.len() implies arises(
            m,
            (#[trigger] self.states[j])@,
        ) by {
            assert(m.reach_set(words[j]) == self.states[j]@);
        }
        assert forall|j: int, c: char|
            0 <= j < self.states.len() implies match #[trigger] self.spec_step(j, c) {
            Some(k) => 0 <= k < self.states.len() && m.has_move(self.states[j]@, c)
                && self.states[k]@ == m.successor(self.states[j]@, c),
            None => !m.has_move(self.states[j]@, c),
        } by {
            let row = self.transitions[j]@;
            lemma_lookup(row, c);
            assert(row_ok(m, self.states@, self.states[j]@, row));
            match lookup(row, c) {
                Some(to) => {
                    let k = choose|k: int| 0 <= k < row.len() && #[trigger] row[k] == (c, to);
                    assert(edge_ok(m, self.states@, self.states[j]@, row[k]));
                },
                None => {},
            }
        }
    }
}

/// A table of distinct sets of `n` states has at most `2^n` entries.
proof fn lemma_table_bound(m: NfaModel, states: Seq<DFAState>, words: Seq<Seq<char>>)
    requires
        table_ok(m, states, words),
        m.state_count >= 0,
    ensures
        states.len() <= pow2(m.state_count as nat),
{
    let table = Seq::new(states.len(), |j: int| states[j].nfa_states@);
    lemma_distinct_flags_bound(table, m.state_count as nat);
}

} // verus!
