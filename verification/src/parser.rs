//! Recursive-descent parser for the pattern grammar.
//!
//! ```text
//! union  := concat ('|' concat)*
//! concat := kleene kleene*          (runs until ')', '|' or the end)
//! kleene := base '*'*
//! base   := '(' union ')' | 'a'..'z' | <nothing>
//! ```
//!
//! The grammar is written down twice: as the spec functions `spec_union`,
//! `spec_concat`, `spec_kleene` and `spec_base`, which map a character
//! sequence and a position to a tree and the position after it, and as the
//! methods of [`Parser`], which are proved to compute exactly those functions.

use crate::custom_regex::{RegexError, SyntaxError};
use crate::text::chars_of;
use vstd::prelude::*;

verus! {

/// Expression tree of a pattern.
#[derive(Debug, PartialEq, Eq)]
pub enum RegexAST {
    /// An operand that is missing, as the right side of `a|`.
    Empty,
    /// A single lowercase letter.
    Literal(char),
    /// `AB`
    Concat(Box<RegexAST>, Box<RegexAST>),
    /// `A|B`
    Union(Box<RegexAST>, Box<RegexAST>),
    /// `A*`
    Kleene(Box<RegexAST>),
}

/// What a grammar rule yields: the tree and the position after it, or the
/// reason the input is rejected.
pub type Parsed = Result<(RegexAST, int), SyntaxError>;

/// The characters that stand for themselves.
pub open spec fn is_literal(c: char) -> bool {
    'a' <= c && c <= 'z'
}

/// The characters of the grammar that are not literals.
pub open spec fn is_operator(c: char) -> bool {
    c == '(' || c == ')' || c == '|' || c == '*'
}

/// A run of operands ends at `)`, at `|` and at the end of the input.
pub open spec fn at_boundary(s: Seq<char>, pos: int) -> bool {
    pos < 0 || pos >= s.len() || s[pos] == ')' || s[pos] == '|'
}

/// `'*'*`: wraps `node` once for every `*` at `pos`.
pub open spec fn spec_stars(s: Seq<char>, pos: int, node: RegexAST) -> (RegexAST, int)
    decreases s.len() - pos,
{
    if 0 <= pos < s.len() && s[pos] == '*' {
        spec_stars(s, pos + 1, RegexAST::Kleene(Box::new(node)))
    } else {
        (node, pos)
    }
}

/// `base := '(' union ')' | letter | <nothing>`
///
/// Where an operand is expected and the input ends, or `)`, `|` or `*`
/// follows, the operand is `Empty` and nothing is consumed.
pub open spec fn spec_base(s: Seq<char>, pos: int) -> Parsed
    decreases s.len() - pos, 0int,
{
    if pos < 0 || pos >= s.len() {
        Ok((RegexAST::Empty, pos))
    } else if s[pos] == '(' {
        match spec_union(s, pos + 1) {
            Ok((node, end)) => if 0 <= end < s.len() && s[end] == ')' {
                Ok((node, end + 1))
            } else {
                Err(SyntaxError::UnmatchedParenthesis)
            },
            Err(e) => Err(e),
        }
    } else if is_literal(s[pos]) {
        Ok((RegexAST::Literal(s[pos]), pos + 1))
    } else if is_operator(s[pos]) {
        Ok((RegexAST::Empty, pos))
    } else {
        Err(SyntaxError::UnexpectedCharacter(s[pos]))
    }
}

/// `kleene := base '*'*`
pub open spec fn spec_kleene(s: Seq<char>, pos: int) -> Parsed
    decreases s.len() - pos, 1int,
{
    match spec_base(s, pos) {
        Ok((node, end)) => Ok(spec_stars(s, end, node)),
        Err(e) => Err(e),
    }
}

/// `kleene*` after a first operand `left`, up to the next boundary.
///
/// The test on `end` only serves termination: an operand that does not start
/// at a boundary always consumes input (`lemma_kleene_position`).
pub open spec fn spec_concat_rest(s: Seq<char>, pos: int, left: RegexAST) -> Parsed
    decreases s.len() - pos, 2int,
{
    if at_boundary(s, pos) {
        Ok((left, pos))
    } else {
        match spec_kleene(s, pos) {
            Ok((right, end)) => {
                let node = RegexAST::Concat(Box::new(left), Box::new(right));
                if pos < end <= s.len() {
                    spec_concat_rest(s, end, node)
                } else {
                    Ok((node, end))
                }
            },
            Err(e) => Err(e),
        }
    }
}

/// `concat := kleene kleene*`
pub open spec fn spec_concat(s: Seq<char>, pos: int) -> Parsed
    decreases s.len() - pos, 3int,
{
    match spec_kleene(s, pos) {
        Ok((node, end)) => if pos <= end <= s.len() {
            spec_concat_rest(s, end, node)
        } else {
            Ok((node, end))
        },
        Err(e) => Err(e),
    }
}

/// `('|' concat)*` after a first alternative `left`, folded to the left.
///
/// The test on `end` only serves termination (`lemma_concat_position`).
pub open spec fn spec_union_rest(s: Seq<char>, pos: int, left: RegexAST) -> Parsed
    decreases s.len() - pos, 4int,
{
    if 0 <= pos < s.len() && s[pos] == '|' {
        match spec_concat(s, pos + 1) {
            Ok((right, end)) => {
                let node = RegexAST::Union(Box::new(left), Box::new(right));
                if pos < end <= s.len() {
                    spec_union_rest(s, end, node)
                } else {
                    Ok((node, end))
                }
            },
            Err(e) => Err(e),
        }
    } else {
        Ok((left, pos))
    }
}

/// `union := concat ('|' concat)*`
pub open spec fn spec_union(s: Seq<char>, pos: int) -> Parsed
    decreases s.len() - pos, 5int,
{
    match spec_concat(s, pos) {
        Ok((node, end)) => if pos <= end <= s.len() {
            spec_union_rest(s, end, node)
        } else {
            Ok((node, end))
        },
        Err(e) => Err(e),
    }
}

/// The tree of a whole pattern: the first `union` of the input. What follows
/// it (an unopened `)` and everything after) is not read.
pub open spec fn spec_parse(s: Seq<char>) -> Result<RegexAST, SyntaxError> {
    match spec_union(s, 0) {
        Ok((node, _)) => Ok(node),
        Err(e) => Err(e),
    }
}

/// A rule that succeeds from `pos` ends between `pos` and the end of input.
pub open spec fn ends_within(s: Seq<char>, pos: int, parsed: Parsed) -> bool {
    parsed matches Ok((_, end)) ==> pos <= end <= s.len()
}

/// `spec_stars` never moves backwards nor past the end.
pub proof fn lemma_stars_position(s: Seq<char>, pos: int, node: RegexAST)
    requires
        0 <= pos <= s.len(),
    ensures
        pos <= spec_stars(s, pos, node).1 <= s.len(),
        pos < s.len() && s[pos] == '*' ==> pos < spec_stars(s, pos, node).1,
    decreases s.len() - pos,
{
    if pos < s.len() && s[pos] == '*' {
        lemma_stars_position(s, pos + 1, RegexAST::Kleene(Box::new(node)));
    }
}

/// `spec_base` ends between where it started and the end of the input, and
/// consumes input unless it yields an absent operand.
pub proof fn lemma_base_position(s: Seq<char>, pos: int)
    requires
        0 <= pos <= s.len(),
    ensures
        ends_within(s, pos, spec_base(s, pos)),
        spec_base(s, pos) matches Ok((_, end)) ==> pos < end || at_boundary(s, pos) || s[pos]
            == '*',
    decreases s.len() - pos, 0int,
{
    if pos < s.len() && s[pos] == '(' {
        lemma_union_position(s, pos + 1);
    }
}

/// `spec_kleene` ends between where it started and the end of the input, and
/// consumes input when it starts before a character that is no boundary.
pub proof fn lemma_kleene_position(s: Seq<char>, pos: int)
    requires
        0 <= pos <= s.len(),
    ensures
        ends_within(s, pos, spec_kleene(s, pos)),
        !at_boundary(s, pos) ==> (spec_kleene(s, pos) matches Ok((_, end)) ==> pos < end),
    decreases s.len() - pos, 1int,
{
    lemma_base_position(s, pos);
    if let Ok((node, end)) = spec_base(s, pos) {
        lemma_stars_position(s, end, node);
    }
}

/// `spec_concat_rest` ends between where it started and the end of the input.
pub proof fn lemma_concat_rest_position(s: Seq<char>, pos: int, left: RegexAST)
    requires
        0 <= pos <= s.len(),
    ensures
        ends_within(s, pos, spec_concat_rest(s, pos, left)),
    decreases s.len() - pos, 2int,
{
    if !at_boundary(s, pos) {
        lemma_kleene_position(s, pos);
        if let Ok((right, end)) = spec_kleene(s, pos) {
            lemma_concat_rest_position(s, end, RegexAST::Concat(Box::new(left), Box::new(right)));
        }
    }
}

/// `spec_concat` ends between where it started and the end of the input.
pub proof fn lemma_concat_position(s: Seq<char>, pos: int)
    requires
        0 <= pos <= s.len(),
    ensures
        ends_within(s, pos, spec_concat(s, pos)),
    decreases s.len() - pos, 3int,
{
    lemma_kleene_position(s, pos);
    if let Ok((node, end)) = spec_kleene(s, pos) {
        lemma_concat_rest_position(s, end, node);
    }
}

/// `spec_union_rest` ends between where it started and the end of the input.
pub proof fn lemma_union_rest_position(s: Seq<char>, pos: int, left: RegexAST)
    requires
        0 <= pos <= s.len(),
    ensures
        ends_within(s, pos, spec_union_rest(s, pos, left)),
    decreases s.len() - pos, 4int,
{
    if pos < s.len() && s[pos] == '|' {
        lemma_concat_position(s, pos + 1);
        if let Ok((right, end)) = spec_concat(s, pos + 1) {
            lemma_union_rest_position(s, end, RegexAST::Union(Box::new(left), Box::new(right)));
        }
    }
}

/// `spec_union` ends between where it started and the end of the input.
pub proof fn lemma_union_position(s: Seq<char>, pos: int)
    requires
        0 <= pos <= s.len(),
    ensures
        ends_within(s, pos, spec_union(s, pos)),
    decreases s.len() - pos, 5int,
{
    lemma_concat_position(s, pos);
    if let Ok((node, end)) = spec_concat(s, pos) {
        lemma_union_rest_position(s, end, node);
    }
}

/// `result` and the position `pos` are what `expected` prescribes. After an
/// error the position is left unspecified.
pub open spec fn agrees(
    result: Result<RegexAST, RegexError>,
    pos: usize,
    expected: Parsed,
) -> bool {
    match expected {
        Ok((node, end)) => result == Ok::<RegexAST, RegexError>(node) && pos == end,
        Err(e) => result == Err::<RegexAST, RegexError>(RegexError(e)),
    }
}

/// Cursor over the characters of a pattern.
pub struct Parser {
    pub chars: Vec<char>,
    pub pos: usize,
}

impl Parser {
    /// The cursor is inside the input or at its end.
    pub open spec fn wf(&self) -> bool {
        self.pos <= self.chars.len()
    }

    /// The character under the cursor, if any.
    pub open spec fn spec_peek(&self) -> Option<char> {
        if self.pos < self.chars.len() {
            Some(self.chars[self.pos as int])
        } else {
            None
        }
    }

    /// A parser at the start of `s`.
    pub fn new(s: &str) -> (parser: Parser)
        ensures
            parser.chars@ == s@,
            parser.pos == 0,
    {
        Parser { chars: chars_of(s), pos: 0 }
    }

    /// The character under the cursor, if any; the cursor stays.
    pub fn peek(&self) -> (c: Option<char>)
        ensures
            c == self.spec_peek(),
    {
        if self.pos < self.chars.len() {
            Some(self.chars[self.pos])
        } else {
            None
        }
    }

    /// The character under the cursor, if any; the cursor moves past it.
    pub fn next(&mut self) -> (c: Option<char>)
        ensures
            c == old(self).spec_peek(),
            final(self).chars == old(self).chars,
            final(self).pos == if c is Some { old(self).pos + 1 } else { old(self).pos as int },
    {
        let c = self.peek();
        if c.is_some() {
            self.pos += 1;
        }
        c
    }

    /// Whether the character under the cursor is `expected`.
    fn at(&self, expected: char) -> (b: bool)
        ensures
            b == (self.spec_peek() == Some(expected)),
    {
        match self.peek() {
            Some(c) => c == expected,
            None => false,
        }
    }

    /// Parses the pattern from the cursor on.
    pub fn parse(&mut self) -> (result: Result<RegexAST, RegexError>)
        requires
            old(self).wf(),
        ensures
            final(self).chars == old(self).chars,
            agrees(result, final(self).pos, spec_union(old(self).chars@, old(self).pos as int)),
    {
        self.parse_union()
    }

    /// `union := concat ('|' concat)*`
    pub fn parse_union(&mut self) -> (result: Result<RegexAST, RegexError>)
        requires
            old(self).wf(),
        ensures
            final(self).chars == old(self).chars,
            agrees(result, final(self).pos, spec_union(old(self).chars@, old(self).pos as int)),
        decreases old(self).chars.len() - old(self).pos, 5int,
    {
        let ghost s = self.chars@;
        let ghost start = self.pos as int;
        let mut node = match self.parse_concat() {
            Ok(node) => node,
            Err(e) => {
                return Err(e);
            },
        };
        proof {
            lemma_concat_position(s, start);
        }
        while self.at('|')
            invariant
                self.chars == old(self).chars,
                s == self.chars@,
                start == old(self).pos,
                start <= self.pos <= s.len(),
                spec_union(s, start) == spec_union_rest(s, self.pos as int, node),
            decreases s.len() - self.pos,
        {
            let ghost bar = self.pos as int;
            self.next();
            let right = match self.parse_concat() {
                Ok(right) => right,
                Err(e) => {
                    return Err(e);
                },
            };
            proof {
                lemma_concat_position(s, bar + 1);
            }
            node = RegexAST::Union(Box::new(node), Box::new(right));
        }
        Ok(node)
    }

    /// `concat := kleene kleene*`
    pub fn parse_concat(&mut self) -> (result: Result<RegexAST, RegexError>)
        requires
            old(self).wf(),
        ensures
            final(self).chars == old(self).chars,
            agrees(result, final(self).pos, spec_concat(old(self).chars@, old(self).pos as int)),
        decreases old(self).chars.len() - old(self).pos, 3int,
    {
        let ghost s = self.chars@;
        let ghost start = self.pos as int;
        let mut node = match self.parse_kleene() {
            Ok(node) => node,
            Err(e) => {
                return Err(e);
            },
        };
        proof {
            lemma_kleene_position(s, start);
        }
        while !self.at_end_of_run()
            invariant
                self.chars == old(self).chars,
                s == self.chars@,
                start == old(self).pos,
                start <= self.pos <= s.len(),
                spec_concat(s, start) == spec_concat_rest(s, self.pos as int, node),
            decreases s.len() - self.pos,
        {
            let ghost here = self.pos as int;
            let right = match self.parse_kleene() {
                Ok(right) => right,
                Err(e) => {
                    return Err(e);
                },
            };
            proof {
                lemma_kleene_position(s, here);
            }
            node = RegexAST::Concat(Box::new(node), Box::new(right));
        }
        Ok(node)
    }

    /// Whether a run of operands ends at the cursor.
    fn at_end_of_run(&self) -> (b: bool)
        ensures
            b == at_boundary(self.chars@, self.pos as int),
    {
        match self.peek() {
            Some(c) => c == ')' || c == '|',
            None => true,
        }
    }

    /// `kleene := base '*'*`
    pub fn parse_kleene(&mut self) -> (result: Result<RegexAST, RegexError>)
        requires
            old(self).wf(),
        ensures
            final(self).chars == old(self).chars,
            agrees(result, final(self).pos, spec_kleene(old(self).chars@, old(self).pos as int)),
        decreases old(self).chars.len() - old(self).pos, 1int,
    {
        let ghost s = self.chars@;
        let ghost start = self.pos as int;
        let mut node = match self.parse_base() {
            Ok(node) => node,
            Err(e) => {
                return Err(e);
            },
        };
        proof {
            lemma_base_position(s, start);
        }
        while self.at('*')
            invariant
                self.chars == old(self).chars,
                s == self.chars@,
                self.pos <= s.len(),
                spec_kleene(s, start) == Ok::<(RegexAST, int), SyntaxError>(
                    spec_stars(s, self.pos as int, node),
                ),
            decreases s.len() - self.pos,
        {
            self.next();
            node = RegexAST::Kleene(Box::new(node));
        }
        Ok(node)
    }

    /// `base := '(' union ')' | letter | <nothing>`
    pub fn parse_base(&mut self) -> (result: Result<RegexAST, RegexError>)
        requires
            old(self).wf(),
        ensures
            final(self).chars == old(self).chars,
            agrees(result, final(self).pos, spec_base(old(self).chars@, old(self).pos as int)),
        decreases old(self).chars.len() - old(self).pos, 0int,
    {
        let ghost s = self.chars@;
        let ghost start = self.pos as int;
        match self.peek() {
            None => Ok(RegexAST::Empty),
            Some(c) => {
                if c == '(' {
                    self.next();
                    let node = match self.parse_union() {
                        Ok(node) => node,
                        Err(e) => {
                            return Err(e);
                        },
                    };
                    proof {
                        lemma_union_position(s, start + 1);
                    }
                    if self.at(')') {
                        self.next();
                        Ok(node)
                    } else {
                        Err(RegexError(SyntaxError::UnmatchedParenthesis))
                    }
                } else if 'a' <= c && c <= 'z' {
                    self.next();
                    Ok(RegexAST::Literal(c))
                } else if c == ')' || c == '|' || c == '*' {
                    Ok(RegexAST::Empty)
                } else {
                    Err(RegexError(SyntaxError::UnexpectedCharacter(c)))
                }
            },
        }
    }
}

} // verus!
