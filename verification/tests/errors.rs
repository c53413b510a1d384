use mini_regex::errors::{push_literal_text, ParseError};
use mini_regex::parser::parse;
use mini_regex::tokenizer::{tokenize, Anchor, Char, Quantifier, Token};
use mini_regex::Regex;

fn rejection(pattern: &str) -> ParseError {
    match Regex::new(pattern) {
        Ok(_) => panic!("{:?} compiled", pattern),
        Err(e) => e,
    }
}

fn unexpected(pattern: &str) -> (Token, String) {
    match rejection(pattern) {
        ParseError::UnexpectedToken(tok, expected) => (tok, expected),
        ParseError::BadEscapeSequence(pos, _) => panic!("bad escape at {}", pos),
    }
}

fn bad_escape(pattern: &str) -> (usize, String) {
    match rejection(pattern) {
        ParseError::BadEscapeSequence(pos, expected) => (pos, expected),
        ParseError::UnexpectedToken(tok, _) => panic!("unexpected token {:?}", tok),
    }
}

#[test]
fn unknown_escape_is_reported_at_the_backslash() {
    assert_eq!(bad_escape("\\a"), (0, "Unknown escape sequence: \\a".to_string()));
    assert_eq!(bad_escape("ab\\qc"), (2, "Unknown escape sequence: \\q".to_string()));
    assert_eq!(bad_escape("é\\é"), (1, "Unknown escape sequence: \\é".to_string()));
    assert_eq!(bad_escape("\\\\\\1"), (2, "Unknown escape sequence: \\1".to_string()));
}

#[test]
fn trailing_backslash_is_reported() {
    let text = "Expected a character after the escape sequence".to_string();
    assert_eq!(bad_escape("\\"), (0, text.clone()));
    assert_eq!(bad_escape("abc\\"), (3, text.clone()));
    assert_eq!(bad_escape("\\\\\\"), (2, text));
}

#[test]
fn first_bad_escape_wins_over_grammar() {
    assert_eq!(bad_escape("a^\\q").0, 2);
    assert_eq!(bad_escape("\\q\\z").0, 0);
}

#[test]
fn start_anchor_only_at_the_start() {
    let (tok, expected) = unexpected("a^");
    assert_eq!(tok, Token::Anchor { val: Anchor::Start, pos: 1 });
    assert_eq!(expected, "Start anchor only allowed at the start of the string");
    assert_eq!(unexpected("^^").0, Token::Anchor { val: Anchor::Start, pos: 1 });
}

#[test]
fn nothing_follows_an_end_anchor() {
    let (tok, expected) = unexpected("a$b");
    assert_eq!(tok, Token::Char { val: Char::Lit('b'), pos: 2 });
    assert_eq!(expected, "End anchor only allowed at the end of the string");
    assert_eq!(unexpected("$$").0, Token::Anchor { val: Anchor::End, pos: 1 });
    assert_eq!(unexpected("^$a").0, Token::Char { val: Char::Lit('a'), pos: 2 });
}

#[test]
fn end_anchor_takes_no_quantifier() {
    let text = "End anchor only allowed at the end of the string";
    let cases = vec![
        ("a$*", Token::Quantifier { val: Quantifier::Any, pos: 2 }),
        ("a$+", Token::Quantifier { val: Quantifier::Many, pos: 2 }),
        ("a$?", Token::Quantifier { val: Quantifier::Maybe, pos: 2 }),
        ("$*", Token::Quantifier { val: Quantifier::Any, pos: 1 }),
        ("^$?", Token::Quantifier { val: Quantifier::Maybe, pos: 2 }),
        ("$**", Token::Quantifier { val: Quantifier::Any, pos: 1 }),
        ("[ab]*(cd)+$?", Token::Quantifier { val: Quantifier::Maybe, pos: 11 }),
    ];
    for (pattern, tok) in cases {
        let (found, expected) = unexpected(pattern);
        assert_eq!(found, tok);
        assert_eq!(expected, text);
    }
    let tokens = tokenize("a$*".to_string()).unwrap();
    assert!(matches!(parse(tokens), Err(ParseError::UnexpectedToken(..))));
    assert_eq!(
        rejection("a$*").message(),
        "Unexpected token Quantifier { val: Any, pos: 2 }, expected End anchor only allowed at the end of the string"
    );
}

#[test]
fn closing_bracket_without_opening() {
    let (tok, expected) = unexpected("ab]");
    assert_eq!(tok, Token::Anchor { val: Anchor::CharClassEnd, pos: 2 });
    assert_eq!(expected, "Char class end anchor only allowed after char class start anchor");
    let (tok, expected) = unexpected(")");
    assert_eq!(tok, Token::Anchor { val: Anchor::GroupEnd, pos: 0 });
    assert_eq!(expected, "Group end anchor only allowed after group start anchor");
}

#[test]
fn quantifier_needs_an_atom() {
    let text = "Should have found a char literal";
    let (tok, expected) = unexpected("*a");
    assert_eq!(tok, Token::Quantifier { val: Quantifier::Any, pos: 0 });
    assert_eq!(expected, text);
    assert_eq!(unexpected("a+?").0, Token::Quantifier { val: Quantifier::Maybe, pos: 2 });
    assert_eq!(unexpected("^?").0, Token::Quantifier { val: Quantifier::Maybe, pos: 1 });
}

#[test]
fn only_characters_inside_brackets() {
    let text = "Should have found a char literal";
    let (tok, expected) = unexpected("[a*]");
    assert_eq!(tok, Token::Quantifier { val: Quantifier::Any, pos: 2 });
    assert_eq!(expected, text);
    assert_eq!(unexpected("[a[").0, Token::Anchor { val: Anchor::CharClassStart, pos: 2 });
    assert_eq!(unexpected("[a)").0, Token::Anchor { val: Anchor::GroupEnd, pos: 2 });
    let (tok, expected) = unexpected("(a$)");
    assert_eq!(tok, Token::Anchor { val: Anchor::End, pos: 2 });
    assert_eq!(expected, text);
    assert_eq!(unexpected("(a+)").0, Token::Quantifier { val: Quantifier::Many, pos: 2 });
    assert_eq!(unexpected("(a]").0, Token::Anchor { val: Anchor::CharClassEnd, pos: 2 });
    assert_eq!(unexpected("((a))").0, Token::Anchor { val: Anchor::GroupStart, pos: 1 });
}

#[test]
fn parse_reports_the_first_error() {
    let tokens = tokenize("a]b^".to_string()).unwrap();
    match parse(tokens) {
        Err(ParseError::UnexpectedToken(tok, _)) => {
            assert_eq!(tok, Token::Anchor { val: Anchor::CharClassEnd, pos: 1 })
        }
        other => panic!("{:?}", other),
    }
}

#[test]
fn message_of_an_unexpected_token() {
    assert_eq!(
        rejection("a^").message(),
        "Unexpected token Anchor { val: Start, pos: 1 }, expected Start anchor only allowed at the start of the string"
    );
    assert_eq!(
        rejection("$a").message(),
        "Unexpected token Char { val: Lit('a'), pos: 1 }, expected End anchor only allowed at the end of the string"
    );
    assert_eq!(
        rejection("0123456789**").message(),
        "Unexpected token Quantifier { val: Any, pos: 11 }, expected Should have found a char literal"
    );
}

#[test]
fn message_of_a_bad_escape() {
    assert_eq!(
        rejection("ab\\q").message(),
        "Bad escape sequence at position 2, expected Unknown escape sequence: \\q"
    );
    assert_eq!(
        rejection("\\").message(),
        "Bad escape sequence at position 0, expected Expected a character after the escape sequence"
    );
    let long = format!("{}\\", "x".repeat(1234567));
    assert_eq!(
        rejection(&long).message(),
        "Bad escape sequence at position 1234567, expected Expected a character after the escape sequence"
    );
}

#[test]
fn message_writes_tokens_as_debug_does() {
    let described = "something else";
    let tokens = vec![
        Token::Char { val: Char::Lit('a'), pos: 0 },
        Token::Char { val: Char::Lit('\''), pos: 10 },
        Token::Char { val: Char::Lit('\n'), pos: 99 },
        Token::Char { val: Char::Lit('é'), pos: 100 },
        Token::Char { val: Char::Lit('\u{7f}'), pos: 101 },
        Token::Char { val: Char::Dot, pos: 7 },
        Token::Quantifier { val: Quantifier::Any, pos: 1 },
        Token::Quantifier { val: Quantifier::Many, pos: 20 },
        Token::Quantifier { val: Quantifier::Maybe, pos: 305 },
        Token::Anchor { val: Anchor::Start, pos: 0 },
        Token::Anchor { val: Anchor::End, pos: 9 },
        Token::Anchor { val: Anchor::CharClassStart, pos: 18446744073709551615 },
        Token::Anchor { val: Anchor::CharClassEnd, pos: 4000 },
        Token::Anchor { val: Anchor::GroupStart, pos: 50 },
        Token::Anchor { val: Anchor::GroupEnd, pos: 60 },
    ];
    for tok in tokens {
        let e = ParseError::UnexpectedToken(tok, described.to_string());
        assert_eq!(e.message(), format!("Unexpected token {:?}, expected {}", tok, described));
    }
    for pattern in ["\\d", "\\D", "\\s", "\\S", "\\w", "\\W", "\\n", "\\t", "\\0"] {
        let tok = tokenize(pattern.to_string()).unwrap()[0];
        let e = ParseError::UnexpectedToken(tok, described.to_string());
        assert_eq!(e.message(), format!("Unexpected token {:?}, expected {}", tok, described));
    }
    for pos in [0, 9, 10, 11, 99, 100, 101, 65535, usize::MAX] {
        let e = ParseError::BadEscapeSequence(pos, described.to_string());
        assert_eq!(
            e.message(),
            format!("Bad escape sequence at position {}, expected {}", pos, described)
        );
    }
}

#[test]
fn literal_rule_text_wraps_the_quoted_character() {
    let mut s = String::from("val: ");
    push_literal_text(&mut s, "'a'");
    assert_eq!(s, "val: Lit('a')");
    let mut s = String::new();
    push_literal_text(&mut s, "'\\n'");
    assert_eq!(s, "Lit('\\n')");
    let mut s = String::from("x");
    push_literal_text(&mut s, "");
    assert_eq!(s, "xLit()");
}
