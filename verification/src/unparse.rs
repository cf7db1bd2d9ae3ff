//! Every tree can be written down: a pattern that parses back to it.
//!
//! `written` spells a tree with every operand in parentheses. The lemmas of
//! this module show that the grammar reads such a pattern as the tree it was
//! written from, so the grammar reaches every tree whose letters are letters
//! of the grammar.

use crate::custom_regex::SyntaxError;
use crate::parser::{
    at_boundary, is_literal, spec_base, spec_concat, spec_concat_rest, spec_kleene, spec_parse,
    spec_stars, spec_union, spec_union_rest, Parsed, RegexAST,
};
use vstd::prelude::*;

verus! {

/// Whether every letter of `ast` is a letter of the grammar.
pub open spec fn lettered(ast: RegexAST) -> bool
    decreases ast,
{
    match ast {
        RegexAST::Empty => true,
        RegexAST::Literal(c) => is_literal(c),
        RegexAST::Concat(a, b) => lettered(*a) && lettered(*b),
        RegexAST::Union(a, b) => lettered(*a) && lettered(*b),
        RegexAST::Kleene(a) => lettered(*a),
    }
}

/// `inner` between parentheses.
pub open spec fn grouped(inner: Seq<char>) -> Seq<char> {
    seq!['('] + inner + seq![')']
}

/// `ast` as a pattern, with every operand in parentheses.
pub open spec fn written(ast: RegexAST) -> Seq<char>
    decreases ast,
{
    match ast {
        RegexAST::Empty => Seq::empty(),
        RegexAST::Literal(c) => seq![c],
        RegexAST::Concat(a, b) => grouped(written(*a)) + grouped(written(*b)),
        RegexAST::Union(a, b) => grouped(written(*a)) + seq!['|'] + grouped(written(*b)),
        RegexAST::Kleene(a) => grouped(written(*a)) + seq!['*'],
    }
}

/// Whether `piece` stands in `s` at `pos`.
pub open spec fn stands_at(s: Seq<char>, pos: int, piece: Seq<char>) -> bool {
    0 <= pos && pos + piece.len() <= s.len() && s.subrange(pos, pos + piece.len()) == piece
}

/// Whether `s` ends at `pos` or goes on with `)`.
pub open spec fn closes_at(s: Seq<char>, pos: int) -> bool {
    pos == s.len() || (0 <= pos < s.len() && s[pos] == ')')
}

/// A piece that stands in `s` agrees with `s` character by character.
proof fn lemma_stands(s: Seq<char>, pos: int, piece: Seq<char>, i: int)
    requires
        stands_at(s, pos, piece),
        0 <= i < piece.len(),
    ensures
        s[pos + i] == piece[i],
{
    assert(s.subrange(pos, pos + piece.len())[i] == s[pos + i]);
}

/// A part of a piece that stands in `s` stands in `s`.
proof fn lemma_part_stands(s: Seq<char>, pos: int, piece: Seq<char>, from: int, to: int)
    requires
        stands_at(s, pos, piece),
        0 <= from <= to <= piece.len(),
    ensures
        stands_at(s, pos + from, piece.subrange(from, to)),
{
    assert(s.subrange(pos + from, pos + to) =~= s.subrange(pos, pos + piece.len()).subrange(
        from,
        to,
    ));
}

/// A group that stands in `s` is read as the tree it was written from.
proof fn lemma_reads_group(s: Seq<char>, pos: int, ast: RegexAST)
    requires
        lettered(ast),
        stands_at(s, pos, grouped(written(ast))),
    ensures
        spec_base(s, pos) == Ok::<(RegexAST, int), SyntaxError>(
            (ast, pos + written(ast).len() + 2),
        ),
    decreases ast, 1int,
{
    let inner = written(ast);
    let piece = grouped(inner);
    let close = inner.len() as int + 1;
    lemma_stands(s, pos, piece, 0);
    lemma_stands(s, pos, piece, close);
    lemma_part_stands(s, pos, piece, 1, close);
    assert(piece.subrange(1, close) =~= inner);
    lemma_reads_union(s, pos + 1, ast);
}

/// After an operand that ends where a run of operands ends, the rules above
/// `base` add nothing.
proof fn lemma_nothing_follows(s: Seq<char>, pos: int, node: RegexAST)
    requires
        closes_at(s, pos),
    ensures
        spec_stars(s, pos, node) == (node, pos),
        spec_concat_rest(s, pos, node) == Ok::<(RegexAST, int), SyntaxError>((node, pos)),
        spec_union_rest(s, pos, node) == Ok::<(RegexAST, int), SyntaxError>((node, pos)),
{
}

/// A written tree that stands in `s` and is followed by `)` or by nothing is
/// read as that tree.
proof fn lemma_reads_union(s: Seq<char>, pos: int, ast: RegexAST)
    requires
        lettered(ast),
        stands_at(s, pos, written(ast)),
        closes_at(s, pos + written(ast).len()),
    ensures
        spec_union(s, pos) == Ok::<(RegexAST, int), SyntaxError>((ast, pos + written(ast).len())),
    decreases ast, 0int,
{
    let piece = written(ast);
    let end = pos + piece.len();
    lemma_nothing_follows(s, end, ast);
    match ast {
        RegexAST::Empty => {
            assert(spec_base(s, pos) == Ok::<(RegexAST, int), SyntaxError>((ast, pos)));
            assert(spec_kleene(s, pos) == Ok::<(RegexAST, int), SyntaxError>((ast, pos)));
            assert(spec_concat(s, pos) == Ok::<(RegexAST, int), SyntaxError>((ast, pos)));
        },
        RegexAST::Literal(c) => {
            lemma_stands(s, pos, piece, 0);
            assert(spec_base(s, pos) == Ok::<(RegexAST, int), SyntaxError>((ast, end)));
            assert(spec_kleene(s, pos) == Ok::<(RegexAST, int), SyntaxError>((ast, end)));
            assert(spec_concat(s, pos) == Ok::<(RegexAST, int), SyntaxError>((ast, end)));
        },
        RegexAST::Concat(a, b) => {
            let first = grouped(written(*a));
            let second = grouped(written(*b));
            let mid = pos + first.len();
            lemma_part_stands(s, pos, piece, 0, first.len() as int);
            assert(piece.subrange(0, first.len() as int) =~= first);
            lemma_part_stands(s, pos, piece, first.len() as int, piece.len() as int);
            assert(piece.subrange(first.len() as int, piece.len() as int) =~= second);
            lemma_reads_group(s, pos, *a);
            lemma_reads_group(s, mid, *b);
            lemma_stands(s, mid, second, 0);
            assert(spec_stars(s, mid, *a) == (*a, mid));
            assert(spec_kleene(s, pos) == Ok::<(RegexAST, int), SyntaxError>((*a, mid)));
            lemma_nothing_follows(s, end, *b);
            assert(spec_kleene(s, mid) == Ok::<(RegexAST, int), SyntaxError>((*b, end)));
            assert(!at_boundary(s, mid));
            assert(spec_concat_rest(s, mid, *a) == Ok::<(RegexAST, int), SyntaxError>(
                (ast, end),
            ));
            assert(spec_concat(s, pos) == Ok::<(RegexAST, int), SyntaxError>((ast, end)));
        },
        RegexAST::Union(a, b) => {
            let first = grouped(written(*a));
            let second = grouped(written(*b));
            let bar = pos + first.len();
            lemma_part_stands(s, pos, piece, 0, first.len() as int);
            assert(piece.subrange(0, first.len() as int) =~= first);
            let after_bar = first.len() as int + 1;
            lemma_part_stands(s, pos, piece, after_bar, piece.len() as int);
            assert(piece.subrange(after_bar, piece.len() as int) =~= second);
            lemma_stands(s, pos, piece, first.len() as int);
            lemma_reads_group(s, pos, *a);
            lemma_reads_group(s, bar + 1, *b);
            assert(spec_stars(s, bar, *a) == (*a, bar));
            assert(spec_kleene(s, pos) == Ok::<(RegexAST, int), SyntaxError>((*a, bar)));
            assert(spec_concat_rest(s, bar, *a) == Ok::<(RegexAST, int), SyntaxError>(
                (*a, bar),
            ));
            assert(spec_concat(s, pos) == Ok::<(RegexAST, int), SyntaxError>((*a, bar)));
            lemma_nothing_follows(s, end, *b);
            assert(spec_kleene(s, bar + 1) == Ok::<(RegexAST, int), SyntaxError>((*b, end)));
            assert(spec_concat(s, bar + 1) == Ok::<(RegexAST, int), SyntaxError>((*b, end)));
            assert(spec_union_rest(s, bar, *a) == Ok::<(RegexAST, int), SyntaxError>((ast, end)));
        },
        RegexAST::Kleene(a) => {
            let first = grouped(written(*a));
            let star = pos + first.len();
            lemma_part_stands(s, pos, piece, 0, first.len() as int);
            assert(piece.subrange(0, first.len() as int) =~= first);
            lemma_stands(s, pos, piece, first.len() as int);
            lemma_reads_group(s, pos, *a);
            assert(spec_stars(s, star + 1, ast) == (ast, end));
            assert(spec_stars(s, star, *a) == (ast, end));
            assert(spec_kleene(s, pos) == Ok::<(RegexAST, int), SyntaxError>((ast, end)));
            assert(spec_concat(s, pos) == Ok::<(RegexAST, int), SyntaxError>((ast, end)));
        },
    }
}

/// Parsing what was written from a tree gives the tree back.
pub proof fn lemma_parse_written(ast: RegexAST)
    requires
        lettered(ast),
    ensures
        spec_parse(written(ast)) == Ok::<RegexAST, SyntaxError>(ast),
{
    let s = written(ast);
    assert(s.subrange(0, s.len() as int) =~= s);
    lemma_reads_union(s, 0, ast);
}

} // verus!
