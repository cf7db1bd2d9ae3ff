use regexer::custom_regex::{regex_to_dfa, CustomRegex, RegexError, SyntaxError};
use regexer::parser::{Parser, RegexAST};

#[test]
fn compile_rejects_bad_patterns() {
    assert_eq!(
        CustomRegex::new("(").err(),
        Some(RegexError(SyntaxError::UnmatchedParenthesis))
    );
    assert_eq!(
        CustomRegex::new("").err(),
        Some(RegexError(SyntaxError::EmptyPatternDisallowed))
    );
    assert_eq!(
        CustomRegex::new("1").err(),
        Some(RegexError(SyntaxError::UnexpectedCharacter('1')))
    );
}

#[test]
fn error_messages() {
    assert_eq!(
        RegexError(SyntaxError::EmptyPatternDisallowed).message(),
        "RegexError: Empty pattern"
    );
    assert_eq!(
        RegexError(SyntaxError::UnmatchedParenthesis).message(),
        "RegexError: Unmatched parenthesis"
    );
    assert_eq!(
        RegexError(SyntaxError::UnexpectedCharacter('?')).message(),
        "RegexError: Unexpected character '?'"
    );
}

#[test]
fn star_matches_repetitions() {
    let engine = CustomRegex::new("a*").ok().unwrap();
    assert!(engine.matches(""));
    assert!(engine.matches("aaaa"));
    assert!(!engine.matches("ab"));
}

#[test]
fn union_matches_either_letter() {
    let engine = CustomRegex::new("a|b").ok().unwrap();
    assert!(engine.matches("a"));
    assert!(engine.matches("b"));
    assert!(!engine.matches(""));
    assert!(!engine.matches("ab"));
    assert!(!engine.matches("c"));
}

#[test]
fn find_iter_reports_matches_left_to_right() {
    let engine = CustomRegex::new("ab").ok().unwrap();
    assert_eq!(engine.find_iter("xaby ab"), vec!["ab", "ab"]);
}

#[test]
fn find_iter_enumerates_by_start_then_end() {
    let engine = CustomRegex::new("a*").ok().unwrap();
    let found = engine.find_iter("aaa");
    assert_eq!(found.len(), 10);
    assert_eq!(
        found,
        vec!["", "a", "aa", "aaa", "", "a", "aa", "", "a", ""]
    );
}

#[test]
fn find_iter_twice_gives_the_same() {
    let engine = CustomRegex::new("(a|b)*c").ok().unwrap();
    let text = "abcabc cab bc";
    assert_eq!(engine.find_iter(text), engine.find_iter(text));
    assert_eq!(
        engine.find_iter(text),
        vec!["abc", "bc", "c", "abc", "bc", "c", "c", "bc", "c"]
    );
}

#[test]
fn find_iter_on_empty_text() {
    let star = CustomRegex::new("a*").ok().unwrap();
    assert_eq!(star.find_iter(""), vec![""]);
    let letter = CustomRegex::new("a").ok().unwrap();
    assert!(letter.find_iter("").is_empty());
}

#[test]
fn find_iter_counts_characters_not_bytes() {
    let engine = CustomRegex::new("a").ok().unwrap();
    assert_eq!(engine.find_iter("éaéa"), vec!["a", "a"]);
    let star = CustomRegex::new("a*").ok().unwrap();
    assert_eq!(star.find_iter("é"), vec!["", ""]);
}

#[test]
fn repeated_stars_are_one_star() {
    let twice = CustomRegex::new("a**").ok().unwrap();
    let once = CustomRegex::new("a*").ok().unwrap();
    for text in ["", "a", "aa", "b", "ab", "aab"] {
        assert_eq!(twice.matches(text), once.matches(text));
    }
}

#[test]
fn groups_and_sequences() {
    let engine = CustomRegex::new("(ab|c)*d").ok().unwrap();
    assert!(engine.matches("d"));
    assert!(engine.matches("abd"));
    assert!(engine.matches("cabcd"));
    assert!(!engine.matches("ad"));
    assert!(!engine.matches("abdd"));
    assert!(!engine.matches(""));
}

#[test]
fn absent_operand_matches_nothing() {
    let trailing = CustomRegex::new("a|").ok().unwrap();
    assert!(trailing.matches("a"));
    assert!(!trailing.matches(""));
    let leading = CustomRegex::new("|a").ok().unwrap();
    assert!(leading.matches("a"));
    assert!(!leading.matches(""));
    let group = CustomRegex::new("()").ok().unwrap();
    assert!(!group.matches(""));
    assert!(!group.matches("a"));
    let sequence = CustomRegex::new("a()").ok().unwrap();
    assert!(!sequence.matches("a"));
}

#[test]
fn star_of_absent_operand_matches_only_the_empty_word() {
    let engine = CustomRegex::new("*").ok().unwrap();
    assert!(engine.matches(""));
    assert!(!engine.matches("a"));
    let group = CustomRegex::new("()*a").ok().unwrap();
    assert!(group.matches("a"));
    assert!(!group.matches(""));
}

#[test]
fn what_follows_the_first_union_is_not_read() {
    let engine = CustomRegex::new("a)b").ok().unwrap();
    assert!(engine.matches("a"));
    assert!(!engine.matches("ab"));
    assert!(!engine.matches("a)b"));
    assert!(CustomRegex::new("a)1").is_ok());
}

#[test]
fn errors_inside_the_pattern() {
    assert_eq!(
        CustomRegex::new("a(b").err(),
        Some(RegexError(SyntaxError::UnmatchedParenthesis))
    );
    assert_eq!(
        CustomRegex::new("(a|b").err(),
        Some(RegexError(SyntaxError::UnmatchedParenthesis))
    );
    assert_eq!(
        CustomRegex::new("((a)").err(),
        Some(RegexError(SyntaxError::UnmatchedParenthesis))
    );
    assert_eq!(
        CustomRegex::new("aB").err(),
        Some(RegexError(SyntaxError::UnexpectedCharacter('B')))
    );
    assert_eq!(
        CustomRegex::new("a|.").err(),
        Some(RegexError(SyntaxError::UnexpectedCharacter('.')))
    );
    assert_eq!(
        CustomRegex::new("(é)").err(),
        Some(RegexError(SyntaxError::UnexpectedCharacter('é')))
    );
    assert_eq!(
        CustomRegex::new(" ").err(),
        Some(RegexError(SyntaxError::UnexpectedCharacter(' ')))
    );
}

#[test]
fn regex_to_dfa_accepts_what_the_pattern_matches() {
    let dfa = regex_to_dfa("ab*").ok().unwrap();
    assert!(dfa.matches("a"));
    assert!(dfa.matches("abbb"));
    assert!(!dfa.matches("b"));
    assert!(!dfa.matches(""));
    assert_eq!(
        regex_to_dfa("(").err(),
        Some(RegexError(SyntaxError::UnmatchedParenthesis))
    );
    assert!(regex_to_dfa("").is_ok());
}

fn has_absent_operand(ast: &RegexAST) -> bool {
    match ast {
        RegexAST::Empty => true,
        RegexAST::Literal(_) => false,
        RegexAST::Concat(a, b) | RegexAST::Union(a, b) => {
            has_absent_operand(a) || has_absent_operand(b)
        }
        RegexAST::Kleene(a) => has_absent_operand(a),
    }
}

fn words(alphabet: &[char], longest: usize) -> Vec<String> {
    let mut all = vec![String::new()];
    let mut last = vec![String::new()];
    for _ in 0..longest {
        let mut next = Vec::new();
        for word in &last {
            for c in alphabet {
                let mut longer = word.clone();
                longer.push(*c);
                next.push(longer);
            }
        }
        all.extend(next.iter().cloned());
        last = next;
    }
    all
}

#[test]
fn small_patterns_match_as_in_the_regex_crate() {
    let texts = words(&['a', 'b'], 4);
    let mut compared = 0;
    for pattern in words(&['a', 'b', '|', '*', '(', ')'], 4) {
        let mut parser = Parser::new(&pattern);
        let tree = match parser.parse() {
            Ok(tree) => tree,
            Err(_) => continue,
        };
        if parser.pos < parser.chars.len() || has_absent_operand(&tree) {
            continue;
        }
        let anchored = format!("^(?:{})$", pattern);
        let theirs = match regex::Regex::new(&anchored) {
            Ok(theirs) => theirs,
            Err(_) => continue,
        };
        let ours = CustomRegex::new(&pattern).ok().unwrap();
        for text in &texts {
            assert_eq!(
                ours.matches(text),
                theirs.is_match(text),
                "pattern {:?}, text {:?}",
                pattern,
                text
            );
        }
        compared += 1;
    }
    assert!(compared > 100);
}
