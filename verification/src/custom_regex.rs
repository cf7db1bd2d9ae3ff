//! The compiled engine and its error type.

use crate::dfa::DFA;
use crate::language::{language, lemma_thompson_language};
use crate::nfa::{thompson, NFA};
use crate::parser::{spec_parse, Parser, RegexAST};
use crate::text::push_char;
use vstd::prelude::*;
use vstd::string::{StrSliceExecFns, StringExecFns};

verus! {

/// Why a pattern was rejected.
#[derive(Debug, Clone, Copy, PartialEq, Eq)]
pub enum SyntaxError {
    /// The pattern has no characters at all.
    EmptyPatternDisallowed,
    /// A `(` has no `)` to close it.
    UnmatchedParenthesis,
    /// A character other than `a` to `z`, `(`, `)`, `|`, `*` stands where an
    /// operand is expected.
    UnexpectedCharacter(char),
}

/// Error returned when a pattern cannot be compiled.
#[derive(Debug, Clone, Copy, PartialEq, Eq)]
pub struct RegexError(pub SyntaxError);

impl RegexError {
    /// The text of the message, without the `RegexError: ` prefix.
    pub open spec fn spec_detail(self) -> Seq<char> {
        match self.0 {
            SyntaxError::EmptyPatternDisallowed => "Empty pattern"@,
            SyntaxError::UnmatchedParenthesis => "Unmatched parenthesis"@,
            SyntaxError::UnexpectedCharacter(c) => "Unexpected character '"@.push(c) + "'"@,
        }
    }

    /// The full message.
    pub open spec fn spec_message(self) -> Seq<char> {
        "RegexError: "@ + self.spec_detail()
    }

    /// Renders the error as `RegexError: <detail>`.
    pub fn message(&self) -> (text: String)
        ensures
            text@ == self.spec_message(),
    {
        let mut text = String::from_str("RegexError: ");
        match self.0 {
            SyntaxError::EmptyPatternDisallowed => text.append("Empty pattern"),
            SyntaxError::UnmatchedParenthesis => text.append("Unmatched parenthesis"),
            SyntaxError::UnexpectedCharacter(c) => {
                text.append("Unexpected character '");
                push_char(&mut text, c);
                text.append("'");
            },
        }
        assert(text@ =~= self.spec_message());
        text
    }
}

/// What compiling `pattern` yields: the tree of the pattern, or the reason
/// it is rejected. The empty pattern is rejected before any parsing.
pub open spec fn spec_compile(pattern: Seq<char>) -> Result<RegexAST, RegexError> {
    if pattern.len() == 0 {
        Err(RegexError(SyntaxError::EmptyPatternDisallowed))
    } else {
        match spec_parse(pattern) {
            Ok(ast) => Ok(ast),
            Err(e) => Err(RegexError(e)),
        }
    }
}

/// The character sequences of `found`.
pub open spec fn texts(found: Seq<&str>) -> Seq<Seq<char>> {
    Seq::new(found.len(), |i: int| found[i]@)
}

/// The matches among `text[start..end]` for `end` from `start` to `upto`, by
/// ascending `end`.
pub open spec fn matches_from(ast: RegexAST, text: Seq<char>, start: int, upto: int) -> Seq<
    Seq<char>,
>
    decreases upto - start + 1,
{
    if upto < start {
        Seq::empty()
    } else {
        let shorter = matches_from(ast, text, start, upto - 1);
        let piece = text.subrange(start, upto);
        if language(ast, piece) {
            shorter.push(piece)
        } else {
            shorter
        }
    }
}

/// The matches that start at `0..=last`, by ascending start.
pub open spec fn matches_upto(ast: RegexAST, text: Seq<char>, last: int) -> Seq<Seq<char>>
    decreases last + 1,
{
    if last < 0 {
        Seq::empty()
    } else {
        matches_upto(ast, text, last - 1) + matches_from(ast, text, last, text.len() as int)
    }
}

/// Every substring of `text` that `ast` matches, the empty ones included, by
/// ascending start and then ascending end. A substring that matches at
/// several places occurs once for each.
pub open spec fn find_all(ast: RegexAST, text: Seq<char>) -> Seq<Seq<char>> {
    matches_upto(ast, text, text.len() as int)
}

/// Whether `text[start..end]` is a piece of `text` that `ast` matches.
pub open spec fn is_match_at(ast: RegexAST, text: Seq<char>, start: int, end: int) -> bool {
    0 <= start <= end <= text.len() && language(ast, text.subrange(start, end))
}

/// What `matches_from` holds: the matching pieces from `start` that end by
/// `upto`.
proof fn lemma_matches_from(ast: RegexAST, text: Seq<char>, start: int, upto: int)
    requires
        0 <= start,
        upto <= text.len(),
    ensures
        forall|piece: Seq<char>| #[trigger]
            matches_from(ast, text, start, upto).contains(piece) ==> exists|end: int|
                start <= end <= upto && #[trigger] is_match_at(ast, text, start, end) && piece
                    == text.subrange(start, end),
        forall|end: int|
            start <= end <= upto && #[trigger] is_match_at(ast, text, start, end)
                ==> matches_from(ast, text, start, upto).contains(text.subrange(start, end)),
    decreases upto - start + 1,
{
    if start <= upto {
        lemma_matches_from(ast, text, start, upto - 1);
        let shorter = matches_from(ast, text, start, upto - 1);
        let last = text.subrange(start, upto);
        let all = matches_from(ast, text, start, upto);
        assert forall|piece: Seq<char>| #[trigger] all.contains(piece) implies exists|end: int|
            start <= end <= upto && #[trigger] is_match_at(ast, text, start, end) && piece
                == text.subrange(start, end) by {
            let i = choose|i: int| 0 <= i < all.len() && all[i] == piece;
            if i < shorter.len() {
                assert(shorter[i] == piece);
                assert(shorter.contains(piece));
                let end = choose|end: int|
                    start <= end <= upto - 1 && #[trigger] is_match_at(ast, text, start, end)
                        && piece == text.subrange(start, end);
                assert(is_match_at(ast, text, start, end));
            } else {
                assert(is_match_at(ast, text, start, upto));
            }
        }
        assert forall|end: int|
            start <= end <= upto && #[trigger] is_match_at(
                ast,
                text,
                start,
                end,
            ) implies all.contains(text.subrange(start, end)) by {
            if end < upto {
                let piece = text.subrange(start, end);
                assert(shorter.contains(piece));
                let i = choose|i: int| 0 <= i < shorter.len() && shorter[i] == piece;
                assert(all[i] == piece);
            } else {
                assert(all[shorter.len() as int] == last);
            }
        }
    }
}

/// What `matches_upto` holds: the matching pieces that start by `last`.
proof fn lemma_matches_upto(ast: RegexAST, text: Seq<char>, last: int)
    requires
        last <= text.len(),
    ensures
        forall|piece: Seq<char>| #[trigger]
            matches_upto(ast, text, last).contains(piece) ==> exists|start: int, end: int|
                start <= last && #[trigger] is_match_at(ast, text, start, end) && piece
                    == text.subrange(start, end),
        forall|start: int, end: int|
            start <= last && #[trigger] is_match_at(ast, text, start, end) ==> matches_upto(
                ast,
                text,
                last,
            ).contains(text.subrange(start, end)),
    decreases last + 1,
{
    if last >= 0 {
        lemma_matches_upto(ast, text, last - 1);
        lemma_matches_from(ast, text, last, text.len() as int);
        let earlier = matches_upto(ast, text, last - 1);
        let here = matches_from(ast, text, last, text.len() as int);
        let all = earlier + here;
        assert forall|piece: Seq<char>| #[trigger] all.contains(piece) implies exists|
            start: int,
            end: int,
        |
            start <= last && #[trigger] is_match_at(ast, text, start, end) && piece
                == text.subrange(start, end) by {
            let i = choose|i: int| 0 <= i < all.len() && all[i] == piece;
            if i < earlier.len() {
                assert(earlier[i] == piece);
                assert(earlier.contains(piece));
                let (start, end) = choose|start: int, end: int|
                    start <= last - 1 && #[trigger] is_match_at(ast, text, start, end) && piece
                        == text.subrange(start, end);
                assert(is_match_at(ast, text, start, end));
            } else {
                assert(here[i - earlier.len()] == piece);
                assert(here.contains(piece));
                let end = choose|end: int|
                    last <= end <= text.len() && #[trigger] is_match_at(ast, text, last, end)
                        && piece == text.subrange(last, end);
                assert(is_match_at(ast, text, last, end));
            }
        }
        assert forall|start: int, end: int|
            start <= last && #[trigger] is_match_at(
                ast,
                text,
                start,
                end,
            ) implies all.contains(text.subrange(start, end)) by {
            let piece = text.subrange(start, end);
            if start < last {
                assert(earlier.contains(piece));
                let i = choose|i: int| 0 <= i < earlier.len() && earlier[i] == piece;
                assert(all[i] == piece);
            } else {
                assert(here.contains(piece));
                let i = choose|i: int| 0 <= i < here.len() && here[i] == piece;
                assert(all[earlier.len() + i] == piece);
            }
        }
    }
}

/// Everything that `find_all` reports is a piece of the text that the
/// pattern matches.
pub proof fn lemma_find_all_sound(ast: RegexAST, text: Seq<char>, piece: Seq<char>)
    requires
        find_all(ast, text).contains(piece),
    ensures
        exists|start: int, end: int| #[trigger]
            is_match_at(ast, text, start, end) && piece == text.subrange(start, end),
{
    lemma_matches_upto(ast, text, text.len() as int);
    let (start, end) = choose|start: int, end: int|
        start <= text.len() && #[trigger] is_match_at(ast, text, start, end) && piece
            == text.subrange(start, end);
    assert(is_match_at(ast, text, start, end));
}

/// Every piece of the text that the pattern matches is reported by
/// `find_all`.
pub proof fn lemma_find_all_complete(ast: RegexAST, text: Seq<char>, start: int, end: int)
    requires
        is_match_at(ast, text, start, end),
    ensures
        find_all(ast, text).contains(text.subrange(start, end)),
{
    lemma_matches_upto(ast, text, text.len() as int);
}

/// Parses `pattern` and builds its deterministic automaton.
pub fn regex_to_dfa(pattern: &str) -> (result: Result<DFA, RegexError>)
    ensures
        match spec_parse(pattern@) {
            Ok(ast) => result matches Ok(dfa) && dfa.determinizes(thompson(ast)) && forall|
                w: Seq<char>,
            | #[trigger]
                dfa.spec_matches(w) == language(ast, w),
            Err(e) => result matches Err(error) && error == RegexError(e),
        },
{
    let mut parser = Parser::new(pattern);
    match parser.parse() {
        Ok(ast) => {
            let nfa = NFA::from_ast(&ast);
            let dfa = DFA::from_nfa(&nfa);
            proof {
                assert forall|w: Seq<char>| #[trigger]
                    dfa.spec_matches(w) == language(ast, w) by {
                    lemma_thompson_language(ast, w);
                }
            }
            Ok(dfa)
        },
        Err(e) => Err(e),
    }
}

/// A compiled pattern: the deterministic automaton of its tree.
pub struct CustomRegex {
    dfa: DFA,
    ast: Ghost<RegexAST>,
}

impl CustomRegex {
    #[verifier::type_invariant]
    spec fn well_formed(&self) -> bool {
        &&& self.dfa.wf()
        &&& forall|w: Seq<char>| #[trigger] self.dfa.spec_matches(w) == language(self.ast@, w)
    }

    /// The tree of the pattern that was compiled.
    pub closed spec fn tree(&self) -> RegexAST {
        self.ast@
    }

    /// Compiles `pattern`: parses it, builds the nondeterministic automaton
    /// of its tree and determinizes that. The empty pattern is rejected.
    pub fn new(pattern: &str) -> (result: Result<CustomRegex, RegexError>)
        ensures
            match spec_compile(pattern@) {
                Ok(ast) => result matches Ok(engine) && engine.tree() == ast,
                Err(e) => result matches Err(error) && error == e,
            },
    {
        if pattern.is_empty() {
            return Err(RegexError(SyntaxError::EmptyPatternDisallowed));
        }
        match regex_to_dfa(pattern) {
            Ok(dfa) => Ok(CustomRegex { dfa, ast: Ghost(spec_parse(pattern@)->Ok_0) }),
            Err(e) => Err(e),
        }
    }

    /// Whether the whole of `text` matches the pattern.
    pub fn matches(&self, text: &str) -> (accepted: bool)
        ensures
            accepted == language(self.tree(), text@),
    {
        proof {
            use_type_invariant(self);
        }
        self.dfa.matches(text)
    }

    /// Every substring of `text` that matches the pattern, by ascending
    /// start and then ascending end.
    pub fn find_iter<'a>(&'a self, text: &'a str) -> (found: Vec<&'a str>)
        ensures
            texts(found@) == find_all(self.tree(), text@),
    {
        proof {
            use_type_invariant(self);
        }
        let ghost ast = self.ast@;
        let n = text.unicode_len();
        let mut found: Vec<&'a str> = Vec::new();
        let mut start: usize = 0;
        let mut starts_done = false;
        assert(texts(found@) =~= matches_upto(ast, text@, -1));
        while !starts_done
            invariant
                self.dfa.wf(),
                forall|w: Seq<char>| #[trigger] self.dfa.spec_matches(w) == language(ast, w),
                n == text@.len(),
                start <= n,
                starts_done ==> start == n,
                texts(found@) == matches_upto(
                    ast,
                    text@,
                    if starts_done {
                        n as int
                    } else {
                        start - 1
                    },
                ),
            decreases n - start + if starts_done { 0int } else { 1int },
        {
            let ghost earlier = texts(found@);
            let mut end: usize = start;
            let mut ends_done = false;
            assert(earlier + matches_from(ast, text@, start as int, start - 1) =~= earlier);
            while !ends_done
                invariant
                    self.dfa.wf(),
                    forall|w: Seq<char>| #[trigger] self.dfa.spec_matches(w) == language(ast, w),
                    n == text@.len(),
                    start <= end <= n,
                    ends_done ==> end == n,
                    texts(found@) == earlier + matches_from(
                        ast,
                        text@,
                        start as int,
                        if ends_done {
                            n as int
                        } else {
                            end - 1
                        },
                    ),
                decreases n - end + if ends_done { 0int } else { 1int },
            {
                let piece = text.substring_char(start, end);
                let ghost before = found@;
                if self.dfa.matches(piece) {
                    found.push(piece);
                    assert(texts(found@) =~= texts(before).push(piece@));
                }
                if end == n {
                    ends_done = true;
                } else {
                    end += 1;
                }
            }
            if start == n {
                starts_done = true;
            } else {
                start += 1;
            }
        }
        found
    }
}

/// Searching the same text twice with one engine gives the same matches in
/// the same order: what `find_iter` returns depends on the pattern and on
/// the text, and on nothing else.
pub proof fn lemma_find_iter_repeatable(
    engine: CustomRegex,
    text: Seq<char>,
    first: Seq<Seq<char>>,
    second: Seq<Seq<char>>,
)
    requires
        first == find_all(engine.tree(), text),
        second == find_all(engine.tree(), text),
    ensures
        first == second,
{
}

} // verus!
