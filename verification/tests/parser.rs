use regexer::custom_regex::{RegexError, SyntaxError};
use regexer::parser::{Parser, RegexAST};

fn lit(c: char) -> Box<RegexAST> {
    Box::new(RegexAST::Literal(c))
}

fn parse(pattern: &str) -> Result<RegexAST, RegexError> {
    Parser::new(pattern).parse()
}

#[test]
fn parser_starts_at_the_first_character() {
    let parser = Parser::new("ab");
    assert_eq!(parser.chars, vec!['a', 'b']);
    assert_eq!(parser.pos, 0);
    assert_eq!(parser.peek(), Some('a'));
}

#[test]
fn next_moves_and_peek_does_not() {
    let mut parser = Parser::new("xy");
    assert_eq!(parser.peek(), Some('x'));
    assert_eq!(parser.peek(), Some('x'));
    assert_eq!(parser.next(), Some('x'));
    assert_eq!(parser.pos, 1);
    assert_eq!(parser.next(), Some('y'));
    assert_eq!(parser.pos, 2);
    assert_eq!(parser.next(), None);
    assert_eq!(parser.pos, 2);
    assert_eq!(parser.peek(), None);
}

#[test]
fn parser_counts_characters() {
    let parser = Parser::new("aéb");
    assert_eq!(parser.chars.len(), 3);
}

#[test]
fn a_letter_is_a_literal() {
    assert_eq!(parse("a"), Ok(RegexAST::Literal('a')));
    assert_eq!(parse("z"), Ok(RegexAST::Literal('z')));
}

#[test]
fn letters_in_a_row_nest_to_the_left() {
    assert_eq!(parse("ab"), Ok(RegexAST::Concat(lit('a'), lit('b'))));
    assert_eq!(
        parse("abc"),
        Ok(RegexAST::Concat(
            Box::new(RegexAST::Concat(lit('a'), lit('b'))),
            lit('c')
        ))
    );
}

#[test]
fn bars_nest_to_the_left() {
    assert_eq!(parse("a|b"), Ok(RegexAST::Union(lit('a'), lit('b'))));
    assert_eq!(
        parse("a|b|c"),
        Ok(RegexAST::Union(
            Box::new(RegexAST::Union(lit('a'), lit('b'))),
            lit('c')
        ))
    );
}

#[test]
fn sequence_binds_tighter_than_bar() {
    assert_eq!(
        parse("ab|c"),
        Ok(RegexAST::Union(
            Box::new(RegexAST::Concat(lit('a'), lit('b'))),
            lit('c')
        ))
    );
}

#[test]
fn star_binds_tighter_than_sequence() {
    assert_eq!(
        parse("ab*"),
        Ok(RegexAST::Concat(lit('a'), Box::new(RegexAST::Kleene(lit('b')))))
    );
}

#[test]
fn every_star_wraps_once() {
    assert_eq!(parse("a*"), Ok(RegexAST::Kleene(lit('a'))));
    assert_eq!(
        parse("a**"),
        Ok(RegexAST::Kleene(Box::new(RegexAST::Kleene(lit('a')))))
    );
}

#[test]
fn a_group_is_its_content() {
    assert_eq!(parse("(a)"), Ok(RegexAST::Literal('a')));
    assert_eq!(
        parse("(a|b)*"),
        Ok(RegexAST::Kleene(Box::new(RegexAST::Union(lit('a'), lit('b')))))
    );
    assert_eq!(
        parse("a(bc)"),
        Ok(RegexAST::Concat(
            lit('a'),
            Box::new(RegexAST::Concat(lit('b'), lit('c')))
        ))
    );
}

#[test]
fn a_missing_operand_is_empty() {
    assert_eq!(parse(""), Ok(RegexAST::Empty));
    assert_eq!(
        parse("a|"),
        Ok(RegexAST::Union(lit('a'), Box::new(RegexAST::Empty)))
    );
    assert_eq!(
        parse("|a"),
        Ok(RegexAST::Union(Box::new(RegexAST::Empty), lit('a')))
    );
    assert_eq!(parse("()"), Ok(RegexAST::Empty));
    assert_eq!(
        parse("*"),
        Ok(RegexAST::Kleene(Box::new(RegexAST::Empty)))
    );
    assert_eq!(
        parse("|"),
        Ok(RegexAST::Union(
            Box::new(RegexAST::Empty),
            Box::new(RegexAST::Empty)
        ))
    );
}

#[test]
fn parsing_stops_at_an_unopened_parenthesis() {
    let mut parser = Parser::new("a)b");
    assert_eq!(parser.parse(), Ok(RegexAST::Literal('a')));
    assert_eq!(parser.pos, 1);
    let mut at_once = Parser::new(")");
    assert_eq!(at_once.parse(), Ok(RegexAST::Empty));
    assert_eq!(at_once.pos, 0);
}

#[test]
fn parsing_reads_to_the_end() {
    let mut parser = Parser::new("(a|b)*c");
    assert!(parser.parse().is_ok());
    assert_eq!(parser.pos, 7);
}

#[test]
fn an_open_group_must_be_closed() {
    let unmatched = Err(RegexError(SyntaxError::UnmatchedParenthesis));
    assert_eq!(parse("("), unmatched);
    assert_eq!(parse("(a"), unmatched);
    assert_eq!(parse("(a|b"), unmatched);
    assert_eq!(parse("((a)"), unmatched);
    assert_eq!(parse("a(b*"), unmatched);
}

#[test]
fn other_characters_are_unexpected() {
    assert_eq!(
        parse("1"),
        Err(RegexError(SyntaxError::UnexpectedCharacter('1')))
    );
    assert_eq!(
        parse("aB"),
        Err(RegexError(SyntaxError::UnexpectedCharacter('B')))
    );
    assert_eq!(
        parse("(a.)"),
        Err(RegexError(SyntaxError::UnexpectedCharacter('.')))
    );
    assert_eq!(
        parse("a|+"),
        Err(RegexError(SyntaxError::UnexpectedCharacter('+')))
    );
}

#[test]
fn the_first_error_is_reported() {
    assert_eq!(
        parse("(a1"),
        Err(RegexError(SyntaxError::UnexpectedCharacter('1')))
    );
    assert_eq!(
        parse("(a)(1"),
        Err(RegexError(SyntaxError::UnexpectedCharacter('1')))
    );
}

#[test]
fn parsing_the_same_pattern_twice_gives_the_same_tree() {
    assert_eq!(parse("(ab|c)*d|e"), parse("(ab|c)*d|e"));
    assert_eq!(parse("(ab"), parse("(ab"));
}

#[test]
fn rules_can_be_called_on_their_own() {
    let mut parser = Parser::new("a*b|c");
    assert_eq!(parser.parse_base(), Ok(RegexAST::Literal('a')));
    assert_eq!(parser.pos, 1);
    let mut parser = Parser::new("a*b|c");
    assert_eq!(parser.parse_kleene(), Ok(RegexAST::Kleene(lit('a'))));
    assert_eq!(parser.pos, 2);
    let mut parser = Parser::new("a*b|c");
    assert_eq!(
        parser.parse_concat(),
        Ok(RegexAST::Concat(Box::new(RegexAST::Kleene(lit('a'))), lit('b')))
    );
    assert_eq!(parser.pos, 3);
    let mut parser = Parser::new("a*b|c");
    assert!(parser.parse_union().is_ok());
    assert_eq!(parser.pos, 5);
}

#[test]
fn a_fully_parenthesised_pattern_gives_its_tree_back() {
    assert_eq!(
        parse("(a)(b)"),
        Ok(RegexAST::Concat(lit('a'), lit('b')))
    );
    assert_eq!(
        parse("(a)((b)(c))"),
        Ok(RegexAST::Concat(
            lit('a'),
            Box::new(RegexAST::Concat(lit('b'), lit('c')))
        ))
    );
    assert_eq!(
        parse("(a)|((b)|(c))"),
        Ok(RegexAST::Union(
            lit('a'),
            Box::new(RegexAST::Union(lit('b'), lit('c')))
        ))
    );
    assert_eq!(
        parse("((a)*)*"),
        Ok(RegexAST::Kleene(Box::new(RegexAST::Kleene(lit('a')))))
    );
    assert_eq!(
        parse("()(a)"),
        Ok(RegexAST::Concat(Box::new(RegexAST::Empty), lit('a')))
    );
    assert_eq!(
        parse("()|()"),
        Ok(RegexAST::Union(
            Box::new(RegexAST::Empty),
            Box::new(RegexAST::Empty)
        ))
    );
    assert_eq!(
        parse("()*"),
        Ok(RegexAST::Kleene(Box::new(RegexAST::Empty)))
    );
}
