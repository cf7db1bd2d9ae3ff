//! What a pattern means, and why the automata mean the same.
//!
//! `language` says which words an expression tree matches, by the shape of
//! the tree alone. The lemmas of this module show that the automaton that
//! Thompson's construction builds for a tree accepts exactly those words.

use crate::nfa::{
    lemma_thompson_wf, model_concat, model_empty, model_kleene, model_literal, model_union, shift,
    thompson, NFASymbol, NfaModel, Transition,
};
use crate::walks::{
    lemma_reach_join, lemma_reach_then_char, lemma_reach_then_epsilon, lemma_walk_char,
    lemma_walk_epsilon, lemma_walk_last, LastStep,
};
use crate::parser::RegexAST;
use vstd::prelude::*;

verus! {

/// Whether the whole of `w` matches `ast`.
///
/// An absent operand matches nothing, not even the empty word; so `a|`
/// matches what `a` matches, and a sequence with an absent operand matches
/// nothing. Zero repetitions of anything match the empty word.
pub open spec fn language(ast: RegexAST, w: Seq<char>) -> bool
    decreases ast, w.len(),
{
    match ast {
        RegexAST::Empty => false,
        RegexAST::Literal(c) => w == seq![c],
        RegexAST::Concat(a, b) => exists|k: int|
            0 <= k <= w.len() && language(*a, #[trigger] w.take(k)) && language(*b, w.skip(k)),
        RegexAST::Union(a, b) => language(*a, w) || language(*b, w),
        RegexAST::Kleene(a) => w.len() == 0 || exists|k: int|
            0 <= k < w.len() && language(ast, #[trigger] w.take(k)) && language(*a, w.skip(k)),
    }
}

/// Two words that a repetition matches, one after the other, are matched by
/// the repetition.
pub proof fn lemma_star_joins(a: RegexAST, u: Seq<char>, v: Seq<char>)
    requires
        language(RegexAST::Kleene(Box::new(a)), u),
        language(RegexAST::Kleene(Box::new(a)), v),
    ensures
        language(RegexAST::Kleene(Box::new(a)), u + v),
    decreases v.len(),
{
    let star = RegexAST::Kleene(Box::new(a));
    if v.len() == 0 {
        assert(u + v =~= u);
    } else {
        let j = choose|j: int|
            0 <= j < v.len() && language(star, #[trigger] v.take(j)) && language(a, v.skip(j));
        lemma_star_joins(a, u, v.take(j));
        let k = u.len() + j;
        assert((u + v).take(k) =~= u + v.take(j));
        assert((u + v).skip(k) =~= v.skip(j));
        assert(language(star, (u + v).take(k)));
    }
}

/// A repetition of a repetition matches what the repetition matches: `a**`
/// means `a*`.
pub proof fn lemma_star_star(a: RegexAST, w: Seq<char>)
    ensures
        language(RegexAST::Kleene(Box::new(RegexAST::Kleene(Box::new(a)))), w) == language(
            RegexAST::Kleene(Box::new(a)),
            w,
        ),
    decreases w.len(),
{
    let star = RegexAST::Kleene(Box::new(a));
    let twice = RegexAST::Kleene(Box::new(star));
    if w.len() > 0 {
        if language(star, w) {
            assert(w.take(0) =~= Seq::empty());
            assert(w.skip(0) =~= w);
            assert(language(twice, w.take(0)));
        }
        if language(twice, w) {
            let k = choose|k: int|
                0 <= k < w.len() && language(twice, #[trigger] w.take(k)) && language(
                    star,
                    w.skip(k),
                );
            lemma_star_star(a, w.take(k));
            lemma_star_joins(a, w.take(k), w.skip(k));
            assert(w.take(k) + w.skip(k) =~= w);
        }
    }
}

/// Whether `w` is a sequence of words that `a` accepts.
pub open spec fn repeats(a: NfaModel, w: Seq<char>) -> bool
    decreases w.len(),
{
    w.len() == 0 || exists|k: int|
        0 <= k < w.len() && repeats(a, #[trigger] w.take(k)) && a.accepts(w.skip(k))
}

/// Every transition of `a`, raised by `offset`, is a transition of `m`.
pub open spec fn embeds(a: NfaModel, m: NfaModel, offset: int) -> bool {
    forall|t: Transition| #[trigger]
        a.transitions.contains(t) ==> m.transitions.contains((t.0 + offset, t.1, t.2 + offset))
}

/// An automaton whose shifted transitions are all in `m` is embedded in `m`.
proof fn lemma_shifted_embeds(a: NfaModel, m: NfaModel, offset: int)
    requires
        shift(a.transitions, offset).subset_of(m.transitions),
    ensures
        embeds(a, m, offset),
{
    assert forall|t: Transition| #[trigger]
        a.transitions.contains(t) implies m.transitions.contains(
        (t.0 + offset, t.1, t.2 + offset),
    ) by {
        assert(shift(a.transitions, offset).contains((t.0 + offset, t.1, t.2 + offset)));
    }
}

/// A transition of an embedded automaton is a transition of its host.
proof fn lemma_embedded(a: NfaModel, m: NfaModel, offset: int, p: int, sym: NFASymbol, q: int)
    requires
        embeds(a, m, offset),
        a.transitions.contains((p, sym, q)),
    ensures
        m.transitions.contains((p + offset, sym, q + offset)),
{
}

/// A walk of an embedded automaton is a walk of its host.
proof fn lemma_embedded_walk(
    a: NfaModel,
    m: NfaModel,
    offset: int,
    p: int,
    w: Seq<char>,
    q: int,
    steps: nat,
)
    requires
        embeds(a, m, offset),
        a.reach_in(p, w, q, steps),
    ensures
        m.reach_in(p + offset, w, q + offset, steps),
    decreases steps,
{
    if steps > 0 {
        let back = (steps - 1) as nat;
        match lemma_walk_last(a, p, w, q, steps) {
            LastStep::Epsilon(r) => {
                lemma_embedded_walk(a, m, offset, p, w, r, back);
                lemma_embedded(a, m, offset, r, NFASymbol::Epsilon, q);
                lemma_walk_epsilon(m, p + offset, w, r + offset, q + offset, back);
            },
            LastStep::Char(r, c) => {
                lemma_embedded_walk(a, m, offset, p, w.drop_last(), r, back);
                lemma_embedded(a, m, offset, r, NFASymbol::Char(c), q);
                lemma_walk_char(m, p + offset, w.drop_last(), r + offset, c, q + offset, back);
                assert(w.drop_last().push(c) =~= w);
            },
        }
    }
}

/// A walk of an embedded automaton is a walk of its host.
proof fn lemma_embedded_reach(a: NfaModel, m: NfaModel, offset: int, p: int, w: Seq<char>, q: int)
    requires
        embeds(a, m, offset),
        a.reach(p, w, q),
    ensures
        m.reach(p + offset, w, q + offset),
{
    let steps = choose|steps: nat| a.reach_in(p, w, q, steps);
    lemma_embedded_walk(a, m, offset, p, w, q, steps);
}

/// Every state reaches itself without reading anything.
proof fn lemma_reach_self(m: NfaModel, p: int)
    ensures
        m.reach(p, Seq::empty(), p),
{
    assert(m.reach_in(p, Seq::empty(), p, 0));
}

/// A walk that ends with a transition spells the word before it and what the
/// transition reads.
proof fn lemma_reach_then(m: NfaModel, p: int, w: Seq<char>, r: int, sym: NFASymbol, q: int)
    requires
        m.reach(p, w, r),
        m.transitions.contains((r, sym, q)),
    ensures
        m.reach(p, spelled(w, sym), q),
{
    match sym {
        NFASymbol::Epsilon => {
            lemma_reach_then_epsilon(m, p, w, r, q);
        },
        NFASymbol::Char(c) => {
            lemma_reach_then_char(m, p, w, r, c, q);
        },
    }
}

/// The word `w` and then what a transition on `sym` reads.
pub open spec fn spelled(w: Seq<char>, sym: NFASymbol) -> Seq<char> {
    match sym {
        NFASymbol::Epsilon => w,
        NFASymbol::Char(c) => w.push(c),
    }
}

/// The last transition of a walk, with the word before it.
proof fn lemma_last(m: NfaModel, p: int, w: Seq<char>, q: int, steps: nat) -> (last: (
    Seq<char>,
    int,
    NFASymbol,
))
    requires
        steps > 0,
        m.reach_in(p, w, q, steps),
    ensures
        m.reach_in(p, last.0, last.1, (steps - 1) as nat),
        m.transitions.contains((last.1, last.2, q)),
        w == spelled(last.0, last.2),
{
    match lemma_walk_last(m, p, w, q, steps) {
        LastStep::Epsilon(r) => (w, r, NFASymbol::Epsilon),
        LastStep::Char(r, c) => {
            assert(w.drop_last().push(c) =~= w);
            (w.drop_last(), r, NFASymbol::Char(c))
        },
    }
}

/// A cut of a word stays a cut when the word grows at its end.
proof fn lemma_cut_grows(w: Seq<char>, sym: NFASymbol, k: int)
    requires
        0 <= k <= w.len(),
    ensures
        spelled(w, sym).take(k) == w.take(k),
        spelled(w, sym).skip(k) == spelled(w.skip(k), sym),
{
    assert(spelled(w, sym).take(k) =~= w.take(k));
    assert(spelled(w, sym).skip(k) =~= spelled(w.skip(k), sym));
}

/// The automaton of an absent operand accepts nothing.
pub proof fn lemma_empty_language(w: Seq<char>)
    ensures
        !model_empty().accepts(w),
{
    let m = model_empty();
    if m.accepts(w) {
        let steps = choose|steps: nat| m.reach_in(m.start, w, m.accept, steps);
        if steps > 0 {
            let last = lemma_last(m, m.start, w, m.accept, steps);
        }
    }
}

/// Where a walk of the automaton of a letter can be.
proof fn lemma_literal_walk(c: char, w: Seq<char>, q: int, steps: nat)
    requires
        model_literal(c).reach_in(0, w, q, steps),
    ensures
        (q == 0 && w.len() == 0) || (q == 1 && w == seq![c]),
    decreases steps,
{
    let m = model_literal(c);
    if steps > 0 {
        let (front, r, sym) = lemma_last(m, 0, w, q, steps);
        lemma_literal_walk(c, front, r, (steps - 1) as nat);
        assert(r == 0 && sym == NFASymbol::Char(c) && q == 1);
        assert(w =~= seq![c]);
    }
}

/// The automaton of a letter accepts the letter and nothing else.
pub proof fn lemma_literal_language(c: char, w: Seq<char>)
    ensures
        model_literal(c).accepts(w) <==> w == seq![c],
{
    let m = model_literal(c);
    if m.accepts(w) {
        let steps = choose|steps: nat| m.reach_in(m.start, w, m.accept, steps);
        lemma_literal_walk(c, w, 1, steps);
    }
    if w == seq![c] {
        lemma_reach_self(m, 0);
        lemma_reach_then_char(m, 0, Seq::empty(), 0, c, 1);
        assert(Seq::<char>::empty().push(c) =~= w);
    }
}

/// Where a walk of `a` followed by `b` can be: in `a`, having read `w` there,
/// or in `b`, having read a front part of `w` through `a` and the rest in `b`.
pub open spec fn concat_walk(a: NfaModel, b: NfaModel, w: Seq<char>, q: int) -> bool {
    ||| 0 <= q < a.state_count && a.reach(a.start, w, q)
    ||| a.state_count <= q && exists|k: int|
        0 <= k <= w.len() && a.accepts(#[trigger] w.take(k)) && b.reach(
            b.start,
            w.skip(k),
            q - a.state_count,
        )
}

/// Every walk of `a` followed by `b` from the start is of one of two kinds.
proof fn lemma_concat_walk(a: NfaModel, b: NfaModel, w: Seq<char>, q: int, steps: nat)
    requires
        a.wf(),
        b.wf(),
        model_concat(a, b).reach_in(a.start, w, q, steps),
    ensures
        concat_walk(a, b, w, q),
    decreases steps,
{
    let m = model_concat(a, b);
    let n = a.state_count;
    if steps == 0 {
        lemma_reach_self(a, a.start);
        assert(w =~= Seq::empty());
    } else {
        let (front, r, sym) = lemma_last(m, a.start, w, q, steps);
        lemma_concat_walk(a, b, front, r, (steps - 1) as nat);
        let t: Transition = (r, sym, q);
        if a.transitions.contains(t) {
            lemma_reach_then(a, a.start, front, r, sym, q);
        } else if shift(b.transitions, n).contains(t) {
            assert(b.transitions.contains((r - n, sym, q - n)));
            let k = choose|k: int|
                0 <= k <= front.len() && a.accepts(#[trigger] front.take(k)) && b.reach(
                    b.start,
                    front.skip(k),
                    r - n,
                );
            lemma_reach_then(b, b.start, front.skip(k), r - n, sym, q - n);
            lemma_cut_grows(front, sym, k);
            assert(a.accepts(w.take(k)));
        } else {
            assert(t == (a.accept, NFASymbol::Epsilon, b.start + n));
            lemma_reach_self(b, b.start);
            let k = w.len() as int;
            assert(w.take(k) =~= w);
            assert(w.skip(k) =~= Seq::empty());
            assert(a.accepts(w.take(k)));
        }
    }
}

/// `a` followed by `b` accepts the words that split into a word of `a` and
/// a word of `b`.
pub proof fn lemma_concat_language(a: NfaModel, b: NfaModel, w: Seq<char>)
    requires
        a.wf(),
        b.wf(),
    ensures
        model_concat(a, b).accepts(w) <==> exists|k: int|
            0 <= k <= w.len() && a.accepts(#[trigger] w.take(k)) && b.accepts(w.skip(k)),
{
    let m = model_concat(a, b);
    let n = a.state_count;
    if m.accepts(w) {
        let steps = choose|steps: nat| m.reach_in(m.start, w, m.accept, steps);
        lemma_concat_walk(a, b, w, m.accept, steps);
    }
    if exists|k: int| 0 <= k <= w.len() && a.accepts(#[trigger] w.take(k)) && b.accepts(w.skip(k)) {
        let k = choose|k: int|
            0 <= k <= w.len() && a.accepts(#[trigger] w.take(k)) && b.accepts(w.skip(k));
        assert(embeds(a, m, 0));
        lemma_shifted_embeds(b, m, n);
        lemma_embedded_reach(a, m, 0, a.start, w.take(k), a.accept);
        lemma_reach_then_epsilon(m, a.start, w.take(k), a.accept, b.start + n);
        lemma_embedded_reach(b, m, n, b.start, w.skip(k), b.accept);
        lemma_reach_join(m, a.start, w.take(k), b.start + n, w.skip(k), b.accept + n);
        assert(w.take(k) + w.skip(k) =~= w);
    }
}

/// Where a walk of `a` or `b` can be: at the fresh start, in `a`, in `b`, or
/// at the fresh accept.
pub open spec fn union_walk(a: NfaModel, b: NfaModel, w: Seq<char>, q: int) -> bool {
    ||| q == 0 && w.len() == 0
    ||| q == 1 && (a.accepts(w) || b.accepts(w))
    ||| 2 <= q < 2 + a.state_count && a.reach(a.start, w, q - 2)
    ||| 2 + a.state_count <= q && b.reach(b.start, w, q - 2 - a.state_count)
}

/// Every walk of `a` or `b` from the start is of one of four kinds.
proof fn lemma_union_walk(a: NfaModel, b: NfaModel, w: Seq<char>, q: int, steps: nat)
    requires
        a.wf(),
        b.wf(),
        model_union(a, b).reach_in(0, w, q, steps),
    ensures
        union_walk(a, b, w, q),
    decreases steps,
{
    let m = model_union(a, b);
    let n = a.state_count;
    if steps > 0 {
        let (front, r, sym) = lemma_last(m, 0, w, q, steps);
        lemma_union_walk(a, b, front, r, (steps - 1) as nat);
        let t: Transition = (r, sym, q);
        if shift(a.transitions, 2).contains(t) {
            assert(a.transitions.contains((r - 2, sym, q - 2)));
            lemma_reach_then(a, a.start, front, r - 2, sym, q - 2);
        } else if shift(b.transitions, 2 + n).contains(t) {
            assert(b.transitions.contains((r - 2 - n, sym, q - 2 - n)));
            lemma_reach_then(b, b.start, front, r - 2 - n, sym, q - 2 - n);
        } else if t == (0int, NFASymbol::Epsilon, a.start + 2) {
            lemma_reach_self(a, a.start);
            assert(w =~= Seq::empty());
        } else if t == (0int, NFASymbol::Epsilon, b.start + 2 + n) {
            lemma_reach_self(b, b.start);
            assert(w =~= Seq::empty());
        } else if t == (a.accept + 2, NFASymbol::Epsilon, 1int) {
        } else {
            assert(t == (b.accept + 2 + n, NFASymbol::Epsilon, 1int));
        }
    }
}

/// `a` or `b` accepts the words that `a` accepts and those that `b` accepts.
pub proof fn lemma_union_language(a: NfaModel, b: NfaModel, w: Seq<char>)
    requires
        a.wf(),
        b.wf(),
    ensures
        model_union(a, b).accepts(w) <==> a.accepts(w) || b.accepts(w),
{
    let m = model_union(a, b);
    let n = a.state_count;
    if m.accepts(w) {
        let steps = choose|steps: nat| m.reach_in(m.start, w, m.accept, steps);
        lemma_union_walk(a, b, w, 1, steps);
    }
    lemma_shifted_embeds(a, m, 2);
    lemma_shifted_embeds(b, m, 2 + n);
    lemma_reach_self(m, 0);
    if a.accepts(w) {
        lemma_reach_then_epsilon(m, 0, Seq::empty(), 0, a.start + 2);
        lemma_embedded_reach(a, m, 2, a.start, w, a.accept);
        lemma_reach_join(m, 0, Seq::empty(), a.start + 2, w, a.accept + 2);
        assert(Seq::<char>::empty() + w =~= w);
        lemma_reach_then_epsilon(m, 0, w, a.accept + 2, 1);
    }
    if b.accepts(w) {
        lemma_reach_then_epsilon(m, 0, Seq::empty(), 0, b.start + 2 + n);
        lemma_embedded_reach(b, m, 2 + n, b.start, w, b.accept);
        lemma_reach_join(m, 0, Seq::empty(), b.start + 2 + n, w, b.accept + 2 + n);
        assert(Seq::<char>::empty() + w =~= w);
        lemma_reach_then_epsilon(m, 0, w, b.accept + 2 + n, 1);
    }
}

/// Where a walk of the repetition of `a` can be: at the fresh start, at the
/// fresh accept after some repetitions, or in `a` after some repetitions.
pub open spec fn kleene_walk(a: NfaModel, w: Seq<char>, q: int) -> bool {
    ||| q == 0 && w.len() == 0
    ||| q == 1 && repeats(a, w)
    ||| 2 <= q && exists|k: int|
        0 <= k <= w.len() && repeats(a, #[trigger] w.take(k)) && a.reach(
            a.start,
            w.skip(k),
            q - 2,
        )
}

/// Repetitions followed by one more word of `a` are repetitions.
proof fn lemma_repeats_once_more(a: NfaModel, w: Seq<char>, k: int)
    requires
        0 <= k <= w.len(),
        repeats(a, w.take(k)),
        a.accepts(w.skip(k)),
    ensures
        repeats(a, w),
{
    if k == w.len() {
        assert(w.take(k) =~= w);
    }
}

/// Every walk of the repetition of `a` from the start is of one of three kinds.
proof fn lemma_kleene_walk(a: NfaModel, w: Seq<char>, q: int, steps: nat)
    requires
        a.wf(),
        model_kleene(a).reach_in(0, w, q, steps),
    ensures
        kleene_walk(a, w, q),
    decreases steps,
{
    let m = model_kleene(a);
    if steps > 0 {
        let (front, r, sym) = lemma_last(m, 0, w, q, steps);
        lemma_kleene_walk(a, front, r, (steps - 1) as nat);
        let t: Transition = (r, sym, q);
        if shift(a.transitions, 2).contains(t) {
            assert(a.transitions.contains((r - 2, sym, q - 2)));
            let k = choose|k: int|
                0 <= k <= front.len() && repeats(a, #[trigger] front.take(k)) && a.reach(
                    a.start,
                    front.skip(k),
                    r - 2,
                );
            lemma_reach_then(a, a.start, front.skip(k), r - 2, sym, q - 2);
            lemma_cut_grows(front, sym, k);
            assert(repeats(a, w.take(k)));
        } else if t == (0int, NFASymbol::Epsilon, a.start + 2) {
            lemma_reach_self(a, a.start);
            assert(w.take(0) =~= Seq::empty());
            assert(w.skip(0) =~= Seq::empty());
            assert(repeats(a, w.take(0)));
        } else if t == (0int, NFASymbol::Epsilon, 1int) {
        } else {
            assert(r == a.accept + 2);
            let k = choose|k: int|
                0 <= k <= w.len() && repeats(a, #[trigger] w.take(k)) && a.reach(
                    a.start,
                    w.skip(k),
                    a.accept,
                );
            lemma_repeats_once_more(a, w, k);
            if q != 1 {
                assert(q == a.start + 2);
                lemma_reach_self(a, a.start);
                let all = w.len() as int;
                assert(w.take(all) =~= w);
                assert(w.skip(all) =~= Seq::empty());
                assert(repeats(a, w.take(all)));
            }
        }
    }
}

/// Repetitions of `a` that read something lead to the accept state of `a`
/// inside its repetition.
proof fn lemma_kleene_repeats(a: NfaModel, w: Seq<char>)
    requires
        a.wf(),
        repeats(a, w),
        w.len() > 0,
    ensures
        model_kleene(a).reach(0, w, a.accept + 2),
    decreases w.len(),
{
    let m = model_kleene(a);
    let k = choose|k: int|
        0 <= k < w.len() && repeats(a, #[trigger] w.take(k)) && a.accepts(w.skip(k));
    lemma_shifted_embeds(a, m, 2);
    lemma_embedded_reach(a, m, 2, a.start, w.skip(k), a.accept);
    if k == 0 {
        lemma_reach_self(m, 0);
        lemma_reach_then_epsilon(m, 0, Seq::empty(), 0, a.start + 2);
        lemma_reach_join(m, 0, Seq::empty(), a.start + 2, w.skip(k), a.accept + 2);
        assert(Seq::<char>::empty() + w.skip(k) =~= w);
    } else {
        lemma_kleene_repeats(a, w.take(k));
        lemma_reach_then_epsilon(m, 0, w.take(k), a.accept + 2, a.start + 2);
        lemma_reach_join(m, 0, w.take(k), a.start + 2, w.skip(k), a.accept + 2);
        assert(w.take(k) + w.skip(k) =~= w);
    }
}

/// The repetition of `a` accepts the sequences of words that `a` accepts.
pub proof fn lemma_kleene_language(a: NfaModel, w: Seq<char>)
    requires
        a.wf(),
    ensures
        model_kleene(a).accepts(w) <==> repeats(a, w),
{
    let m = model_kleene(a);
    if m.accepts(w) {
        let steps = choose|steps: nat| m.reach_in(m.start, w, m.accept, steps);
        lemma_kleene_walk(a, w, 1, steps);
    }
    if repeats(a, w) {
        if w.len() == 0 {
            lemma_reach_self(m, 0);
            lemma_reach_then_epsilon(m, 0, Seq::empty(), 0, 1);
            assert(w =~= Seq::empty());
        } else {
            lemma_kleene_repeats(a, w);
            lemma_reach_then_epsilon(m, 0, w, a.accept + 2, 1);
        }
    }
}

/// Thompson's construction is right: the automaton of a tree accepts
/// exactly the words that the tree matches.
pub proof fn lemma_thompson_language(ast: RegexAST, w: Seq<char>)
    ensures
        thompson(ast).accepts(w) == language(ast, w),
    decreases ast, w.len(),
{
    match ast {
        RegexAST::Empty => {
            lemma_empty_language(w);
        },
        RegexAST::Literal(c) => {
            lemma_literal_language(c, w);
        },
        RegexAST::Concat(a, b) => {
            lemma_thompson_wf(*a);
            lemma_thompson_wf(*b);
            lemma_concat_language(thompson(*a), thompson(*b), w);
            assert forall|k: int| 0 <= k <= w.len() implies (thompson(*a).accepts(
                #[trigger] w.take(k),
            ) && thompson(*b).accepts(w.skip(k))) == (language(*a, w.take(k)) && language(
                *b,
                w.skip(k),
            )) by {
                lemma_thompson_language(*a, w.take(k));
                lemma_thompson_language(*b, w.skip(k));
            }
        },
        RegexAST::Union(a, b) => {
            lemma_thompson_wf(*a);
            lemma_thompson_wf(*b);
            lemma_union_language(thompson(*a), thompson(*b), w);
            lemma_thompson_language(*a, w);
            lemma_thompson_language(*b, w);
        },
        RegexAST::Kleene(a) => {
            lemma_thompson_wf(*a);
            lemma_kleene_language(thompson(*a), w);
            assert forall|k: int| 0 <= k < w.len() implies (repeats(
                thompson(*a),
                #[trigger] w.take(k),
            ) && thompson(*a).accepts(w.skip(k))) == (language(ast, w.take(k)) && language(
                *a,
                w.skip(k),
            )) by {
                lemma_thompson_language(*a, w.skip(k));
                lemma_kleene_language(thompson(*a), w.take(k));
                lemma_thompson_language(ast, w.take(k));
            }
        },
    }
}

} // verus!
