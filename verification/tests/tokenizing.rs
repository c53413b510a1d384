use mini_regex::tokenizer::{tokenize, Anchor, Char, EscapeChar, Quantifier, Token};

#[test]
fn test_empty() {
    let tokens = tokenize("".to_string()).unwrap();
    assert_eq!(tokens.len(), 0);
}

#[test]
fn test_normal_char() {
    assert_eq!(
        tokenize("a".to_string()).unwrap(),
        vec![Token::Char {
            val: Char::Lit('a'),
            pos: 0,
        }]
    );
}

#[test]
fn test_bad_escape() {
    tokenize("\\a".to_string()).unwrap_err();
}

#[test]
fn test_correctly_escaped() {
    let test_cases = vec![
        (
            "\\[",
            Token::Char {
                val: Char::Lit('['),
                pos: 0,
            },
        ),
        (
            "\\]",
            Token::Char {
                val: Char::Lit(']'),
                pos: 0,
            },
        ),
        (
            "\\(",
            Token::Char {
                val: Char::Lit('('),
                pos: 0,
            },
        ),
        (
            "\\)",
            Token::Char {
                val: Char::Lit(')'),
                pos: 0,
            },
        ),
        (
            "\\{",
            Token::Char {
                val: Char::Lit('{'),
                pos: 0,
            },
        ),
        (
            "\\}",
            Token::Char {
                val: Char::Lit('}'),
                pos: 0,
            },
        ),
        (
            "\\|",
            Token::Char {
                val: Char::Lit('|'),
                pos: 0,
            },
        ),
        (
            "\\*",
            Token::Char {
                val: Char::Lit('*'),
                pos: 0,
            },
        ),
        (
            "\\+",
            Token::Char {
                val: Char::Lit('+'),
                pos: 0,
            },
        ),
        (
            "\\?",
            Token::Char {
                val: Char::Lit('?'),
                pos: 0,
            },
        ),
        (
            "\\^",
            Token::Char {
                val: Char::Lit('^'),
                pos: 0,
            },
        ),
        (
            "\\$",
            Token::Char {
                val: Char::Lit('$'),
                pos: 0,
            },
        ),
        (
            "\\.",
            Token::Char {
                val: Char::Lit('.'),
                pos: 0,
            },
        ),
    ];

    for (input, expected_token) in test_cases {
        let tokens = tokenize(input.to_string()).unwrap();
        assert_eq!(tokens.len(), 1);
        assert_eq!(tokens[0], expected_token);
    }
}

#[test]
fn test_special_chars() {
    // Test cases for all possible characters
    let test_cases = vec![
        (
            ".",
            Token::Char {
                val: Char::Dot,
                pos: 0,
            },
        ),
        (
            "*",
            Token::Quantifier {
                val: Quantifier::Any,
                pos: 0,
            },
        ),
        (
            "+",
            Token::Quantifier {
                val: Quantifier::Many,
                pos: 0,
            },
        ),
        (
            "?",
            Token::Quantifier {
                val: Quantifier::Maybe,
                pos: 0,
            },
        ),
        (
            "^",
            Token::Anchor {
                val: Anchor::Start,
                pos: 0,
            },
        ),
        (
            "$",
            Token::Anchor {
                val: Anchor::End,
                pos: 0,
            },
        ),
        (
            "[",
            Token::Anchor {
                val: Anchor::CharClassStart,
                pos: 0,
            },
        ),
        (
            "]",
            Token::Anchor {
                val: Anchor::CharClassEnd,
                pos: 0,
            },
        ),
    ];

    for (input, expected_token) in test_cases {
        let tokens = tokenize(input.to_string()).unwrap();
        assert_eq!(tokens.len(), 1);
        assert_eq!(tokens[0], expected_token);
    }
}

#[test]
fn tokens_carry_character_indices() {
    assert_eq!(
        tokenize("a\\.b*é$".to_string()).unwrap(),
        vec![
            Token::Char { val: Char::Lit('a'), pos: 0 },
            Token::Char { val: Char::Lit('.'), pos: 1 },
            Token::Char { val: Char::Lit('b'), pos: 3 },
            Token::Quantifier { val: Quantifier::Any, pos: 4 },
            Token::Char { val: Char::Lit('é'), pos: 5 },
            Token::Anchor { val: Anchor::End, pos: 6 },
        ]
    );
    for tok in tokenize("é€+x".to_string()).unwrap() {
        match tok {
            Token::Quantifier { pos, .. } => assert_eq!(pos, 2),
            Token::Char { val: Char::Lit('x'), pos } => assert_eq!((pos, tok.pos()), (3, 3)),
            _ => assert!(tok.pos() < 2),
        }
    }
}

#[test]
fn escape_letters_name_sets() {
    let cases = vec![
        ('d', EscapeChar::Digit),
        ('D', EscapeChar::NotDigit),
        ('s', EscapeChar::Space),
        ('S', EscapeChar::NotSpace),
        ('w', EscapeChar::Word),
        ('W', EscapeChar::NotWord),
        ('n', EscapeChar::Newline),
        ('t', EscapeChar::Tab),
        ('0', EscapeChar::Null),
    ];
    for (letter, class) in cases {
        assert_eq!(EscapeChar::from_char(letter), Some(class));
        let pattern = format!("x\\{}", letter);
        assert_eq!(
            tokenize(pattern).unwrap(),
            vec![
                Token::Char { val: Char::Lit('x'), pos: 0 },
                Token::Char { val: Char::Escape(class), pos: 1 },
            ]
        );
    }
    for letter in ['a', 'N', '1', ' ', 'é', 'T'] {
        assert_eq!(EscapeChar::from_char(letter), None);
    }
}

#[test]
fn group_delimiters_are_tokens() {
    assert_eq!(
        tokenize("()".to_string()).unwrap(),
        vec![
            Token::Anchor { val: Anchor::GroupStart, pos: 0 },
            Token::Anchor { val: Anchor::GroupEnd, pos: 1 },
        ]
    );
}

#[test]
fn braces_and_bars_stand_for_themselves() {
    assert_eq!(
        tokenize("{|}".to_string()).unwrap(),
        vec![
            Token::Char { val: Char::Lit('{'), pos: 0 },
            Token::Char { val: Char::Lit('|'), pos: 1 },
            Token::Char { val: Char::Lit('}'), pos: 2 },
        ]
    );
}

#[test]
fn escaped_backslash_is_a_literal() {
    assert_eq!(
        tokenize("\\\\a".to_string()).unwrap(),
        vec![
            Token::Char { val: Char::Lit('\\'), pos: 0 },
            Token::Char { val: Char::Lit('a'), pos: 2 },
        ]
    );
}

#[test]
fn token_position_of_each_kind() {
    assert_eq!(Token::Char { val: Char::Dot, pos: 3 }.pos(), 3);
    assert_eq!(Token::Quantifier { val: Quantifier::Many, pos: 4 }.pos(), 4);
    assert_eq!(Token::Anchor { val: Anchor::End, pos: 5 }.pos(), 5);
}
