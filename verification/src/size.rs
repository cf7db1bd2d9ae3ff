//! How large the automaton of a pattern can be.
//!
//! Thompson's construction spends two states on a letter, on an absent
//! operand, on every `|` and on every `*`, and none on a sequence. A pattern
//! of `k` characters therefore never needs more than `4k + 2` states: the
//! nondeterministic automaton grows linearly with the pattern. (The pattern
//! `|||...|` of `k` bars reaches the bound.)

use crate::nfa::thompson;
use crate::parser::{
    at_boundary, lemma_base_position, lemma_concat_position, lemma_concat_rest_position,
    lemma_kleene_position, lemma_stars_position, lemma_union_position, lemma_union_rest_position,
    spec_base, spec_concat, spec_concat_rest, spec_kleene, spec_parse, spec_stars, spec_union,
    spec_union_rest, Parsed, RegexAST,
};
use vstd::prelude::*;

verus! {

/// The number of states of the automaton of `ast`.
pub open spec fn states_of(ast: RegexAST) -> int {
    thompson(ast).state_count
}

/// A rule that read `end - pos` characters built a tree of at most
/// `4 (end - pos) + spare` states.
pub open spec fn within(parsed: Parsed, pos: int, spare: int) -> bool {
    parsed matches Ok((node, end)) ==> states_of(node) <= 4 * (end - pos) + spare
}

/// A rule that read at least one character built a tree of at most four
/// states for each.
pub open spec fn tight(parsed: Parsed, pos: int) -> bool {
    parsed matches Ok((node, end)) ==> (pos < end ==> states_of(node) <= 4 * (end - pos))
}

/// Every `*` costs two states.
pub proof fn lemma_stars_size(s: Seq<char>, pos: int, node: RegexAST)
    requires
        0 <= pos <= s.len(),
    ensures
        states_of(spec_stars(s, pos, node).0) == states_of(node) + 2 * (spec_stars(s, pos, node).1
            - pos),
    decreases s.len() - pos,
{
    if pos < s.len() && s[pos] == '*' {
        lemma_stars_size(s, pos + 1, RegexAST::Kleene(Box::new(node)));
    }
}

/// The size of what `spec_base` builds.
pub proof fn lemma_base_size(s: Seq<char>, pos: int)
    requires
        0 <= pos <= s.len(),
    ensures
        within(spec_base(s, pos), pos, 2),
        tight(spec_base(s, pos), pos),
    decreases s.len() - pos, 0int,
{
    if pos < s.len() && s[pos] == '(' {
        lemma_union_size(s, pos + 1);
        lemma_union_position(s, pos + 1);
    }
}

/// The size of what `spec_kleene` builds.
pub proof fn lemma_kleene_size(s: Seq<char>, pos: int)
    requires
        0 <= pos <= s.len(),
    ensures
        within(spec_kleene(s, pos), pos, 2),
        tight(spec_kleene(s, pos), pos),
    decreases s.len() - pos, 1int,
{
    lemma_base_size(s, pos);
    lemma_base_position(s, pos);
    if let Ok((node, end)) = spec_base(s, pos) {
        lemma_stars_size(s, end, node);
        lemma_stars_position(s, end, node);
    }
}

/// The size of what `spec_concat_rest` adds to `left`.
pub proof fn lemma_concat_rest_size(s: Seq<char>, pos: int, left: RegexAST)
    requires
        0 <= pos <= s.len(),
    ensures
        within(spec_concat_rest(s, pos, left), pos, states_of(left)),
    decreases s.len() - pos, 2int,
{
    if !at_boundary(s, pos) {
        lemma_kleene_size(s, pos);
        lemma_kleene_position(s, pos);
        if let Ok((right, end)) = spec_kleene(s, pos) {
            let node = RegexAST::Concat(Box::new(left), Box::new(right));
            lemma_concat_rest_size(s, end, node);
            lemma_concat_rest_position(s, end, node);
        }
    }
}

/// The size of what `spec_concat` builds.
pub proof fn lemma_concat_size(s: Seq<char>, pos: int)
    requires
        0 <= pos <= s.len(),
    ensures
        within(spec_concat(s, pos), pos, 2),
    decreases s.len() - pos, 3int,
{
    lemma_kleene_size(s, pos);
    lemma_kleene_position(s, pos);
    if let Ok((node, end)) = spec_kleene(s, pos) {
        lemma_concat_rest_size(s, end, node);
    }
}

/// The size of what `spec_union_rest` adds to `left`.
pub proof fn lemma_union_rest_size(s: Seq<char>, pos: int, left: RegexAST)
    requires
        0 <= pos <= s.len(),
    ensures
        within(spec_union_rest(s, pos, left), pos, states_of(left)),
    decreases s.len() - pos, 4int,
{
    if pos < s.len() && s[pos] == '|' {
        lemma_concat_size(s, pos + 1);
        lemma_concat_position(s, pos + 1);
        if let Ok((right, end)) = spec_concat(s, pos + 1) {
            let node = RegexAST::Union(Box::new(left), Box::new(right));
            lemma_union_rest_size(s, end, node);
        }
    }
}

/// The size of what `spec_union` builds.
pub proof fn lemma_union_size(s: Seq<char>, pos: int)
    requires
        0 <= pos <= s.len(),
    ensures
        within(spec_union(s, pos), pos, 2),
    decreases s.len() - pos, 5int,
{
    lemma_concat_size(s, pos);
    lemma_concat_position(s, pos);
    if let Ok((node, end)) = spec_concat(s, pos) {
        lemma_union_rest_size(s, end, node);
    }
}

/// The automaton of a pattern of `k` characters has at most `4k + 2` states.
pub proof fn lemma_pattern_size(pattern: Seq<char>)
    ensures
        spec_parse(pattern) matches Ok(ast) ==> thompson(ast).state_count <= 4 * pattern.len() + 2,
{
    lemma_union_size(pattern, 0);
    lemma_union_position(pattern, 0);
}

} // verus!
