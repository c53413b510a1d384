//! Tokens of a pattern and the tokenizer that produces them.

use crate::errors::{ParseError, ParseErrorView};
use crate::text::chars_of;
use vstd::prelude::*;

verus! {

/// How often the preceding atom may repeat.
#[derive(Debug, Clone, Copy, PartialEq, Eq, Structural)]
pub enum Quantifier {
    /// `*`: zero or more times.
    Any,
    /// `+`: one or more times.
    Many,
    /// `?`: zero times or once.
    Maybe,
}

/// A token that marks a position or delimits a construct.
#[derive(Debug, Clone, Copy, PartialEq, Eq, Structural)]
pub enum Anchor {
    /// `^`
    Start,
    /// `$`
    End,
    /// `[`
    CharClassStart,
    /// `]`
    CharClassEnd,
    /// `(`
    GroupStart,
    /// `)`
    GroupEnd,
}

/// A named set of characters, written with a backslash and a letter.
#[derive(Debug, Clone, Copy, PartialEq, Eq, Structural)]
pub enum EscapeChar {
    Digit,
    NotDigit,
    Space,
    NotSpace,
    Word,
    NotWord,
    Newline,
    Tab,
    Null,
}

/// A rule that accepts or rejects one character of the text.
#[derive(Debug, Clone, Copy, PartialEq, Eq, Structural)]
pub enum Char {
    /// Exactly this character.
    Lit(char),
    /// Any character.
    Dot,
    /// Any character of the named set.
    Escape(EscapeChar),
}

/// One token of a pattern, with the index of the character it starts at.
#[derive(Debug, Clone, Copy, PartialEq, Eq, Structural)]
#[allow(inconsistent_fields)]
pub enum Token {
    Char { val: Char, pos: usize },
    Quantifier { val: Quantifier, pos: usize },
    Anchor { val: Anchor, pos: usize },
}

impl Token {
    /// The index of the pattern character at which the token starts.
    pub open spec fn spec_pos(&self) -> usize {
        match *self {
            Token::Char { pos, .. } => pos,
            Token::Quantifier { pos, .. } => pos,
            Token::Anchor { pos, .. } => pos,
        }
    }

    /// The index of the pattern character at which the token starts.
    #[verifier::when_used_as_spec(spec_pos)]
    pub fn pos(&self) -> (p: usize)
        ensures
            p == self.spec_pos(),
    {
        match self {
            Token::Char { pos, .. } => *pos,
            Token::Quantifier { pos, .. } => *pos,
            Token::Anchor { pos, .. } => *pos,
        }
    }
}

impl EscapeChar {
    /// The set named by the letter that follows a backslash, if the letter names one.
    pub open spec fn spec_from_char(c: char) -> Option<EscapeChar> {
        if c == 'd' {
            Some(EscapeChar::Digit)
        } else if c == 'D' {
            Some(EscapeChar::NotDigit)
        } else if c == 's' {
            Some(EscapeChar::Space)
        } else if c == 'S' {
            Some(EscapeChar::NotSpace)
        } else if c == 'w' {
            Some(EscapeChar::Word)
        } else if c == 'W' {
            Some(EscapeChar::NotWord)
        } else if c == 'n' {
            Some(EscapeChar::Newline)
        } else if c == 't' {
            Some(EscapeChar::Tab)
        } else if c == '0' {
            Some(EscapeChar::Null)
        } else {
            None
        }
    }

    /// The set named by the letter that follows a backslash, if the letter names one.
    #[verifier::when_used_as_spec(spec_from_char)]
    pub fn from_char(c: char) -> (r: Option<EscapeChar>)
        ensures
            r == Self::spec_from_char(c),
    {
        match c {
            'd' => Some(Self::Digit),
            'D' => Some(Self::NotDigit),
            's' => Some(Self::Space),
            'S' => Some(Self::NotSpace),
            'w' => Some(Self::Word),
            'W' => Some(Self::NotWord),
            'n' => Some(Self::Newline),
            't' => Some(Self::Tab),
            '0' => Some(Self::Null),
            _ => None,
        }
    }
}

/// Whether a backslash in front of `c` yields the literal character `c`.
pub open spec fn is_meta(c: char) -> bool {
    c == '\\' || c == '$' || c == '^' || c == '.' || c == '*' || c == '+' || c == '?' || c == '['
        || c == ']' || c == '(' || c == ')' || c == '{' || c == '}' || c == '|'
}

/// Whether `c` has a meaning of its own in a pattern, so that it does not
/// stand for itself there.
pub open spec fn is_special(c: char) -> bool {
    c == '\\' || c == '.' || c == '*' || c == '+' || c == '?' || c == '^' || c == '$' || c == '['
        || c == ']' || c == '(' || c == ')'
}

/// What is reported when a backslash ends the pattern.
pub open spec fn missing_escape_text() -> Seq<char> {
    "Expected a character after the escape sequence"@
}

/// What is reported when a backslash is followed by `c`, which starts no escape.
pub open spec fn unknown_escape_text(c: char) -> Seq<char> {
    "Unknown escape sequence: \\"@.push(c)
}

/// The token for the character `c` at index `pos`, where no backslash precedes it.
pub open spec fn plain_token(c: char, pos: usize) -> Token {
    if c == '.' {
        Token::Char { val: Char::Dot, pos }
    } else if c == '*' {
        Token::Quantifier { val: Quantifier::Any, pos }
    } else if c == '+' {
        Token::Quantifier { val: Quantifier::Many, pos }
    } else if c == '?' {
        Token::Quantifier { val: Quantifier::Maybe, pos }
    } else if c == '^' {
        Token::Anchor { val: Anchor::Start, pos }
    } else if c == '$' {
        Token::Anchor { val: Anchor::End, pos }
    } else if c == '[' {
        Token::Anchor { val: Anchor::CharClassStart, pos }
    } else if c == ']' {
        Token::Anchor { val: Anchor::CharClassEnd, pos }
    } else if c == '(' {
        Token::Anchor { val: Anchor::GroupStart, pos }
    } else if c == ')' {
        Token::Anchor { val: Anchor::GroupEnd, pos }
    } else {
        Token::Char { val: Char::Lit(c), pos }
    }
}

/// The token for a backslash at index `pos` that is followed by `c`, or the
/// error if the two start no escape.
pub open spec fn escaped_token(c: char, pos: usize) -> Result<Token, ParseErrorView> {
    if is_meta(c) {
        Ok(Token::Char { val: Char::Lit(c), pos })
    } else {
        match EscapeChar::spec_from_char(c) {
            Some(class) => Ok(Token::Char { val: Char::Escape(class), pos }),
            None => Err(ParseErrorView::BadEscapeSequence(pos, unknown_escape_text(c))),
        }
    }
}

/// The token that starts at index `i` of `pattern`, together with the index at
/// which the next token starts.
pub open spec fn token_at(pattern: Seq<char>, i: int) -> Result<(Token, int), ParseErrorView>
    recommends
        0 <= i < pattern.len(),
{
    if pattern[i] != '\\' {
        Ok((plain_token(pattern[i], i as usize), i + 1))
    } else if i + 1 >= pattern.len() {
        Err(ParseErrorView::BadEscapeSequence(i as usize, missing_escape_text()))
    } else {
        match escaped_token(pattern[i + 1], i as usize) {
            Ok(tok) => Ok((tok, i + 2)),
            Err(e) => Err(e),
        }
    }
}

/// The tokens of `pattern` from index `i` on, or the first error met there.
pub open spec fn tokens_from(pattern: Seq<char>, i: int) -> Result<Seq<Token>, ParseErrorView>
    decreases pattern.len() - i,
{
    if i >= pattern.len() {
        Ok(Seq::empty())
    } else {
        match token_at(pattern, i) {
            Err(e) => Err(e),
            Ok((tok, next)) => match tokens_from(pattern, next) {
                Err(e) => Err(e),
                Ok(rest) => Ok(seq![tok] + rest),
            },
        }
    }
}

/// The tokens of `pattern`, left to right, or the first malformed escape.
pub open spec fn tokenize_spec(pattern: Seq<char>) -> Result<Seq<Token>, ParseErrorView> {
    tokens_from(pattern, 0)
}

proof fn lemma_push_front(done: Seq<Token>, tok: Token, rest: Seq<Token>)
    ensures
        done.push(tok) + rest == done + (seq![tok] + rest),
{
    assert(done.push(tok) + rest =~= done + (seq![tok] + rest));
}

fn plain(c: char, pos: usize) -> (tok: Token)
    ensures
        tok == plain_token(c, pos),
{
    match c {
        '.' => Token::Char { val: Char::Dot, pos },
        '*' => Token::Quantifier { val: Quantifier::Any, pos },
        '+' => Token::Quantifier { val: Quantifier::Many, pos },
        '?' => Token::Quantifier { val: Quantifier::Maybe, pos },
        '^' => Token::Anchor { val: Anchor::Start, pos },
        '$' => Token::Anchor { val: Anchor::End, pos },
        '[' => Token::Anchor { val: Anchor::CharClassStart, pos },
        ']' => Token::Anchor { val: Anchor::CharClassEnd, pos },
        '(' => Token::Anchor { val: Anchor::GroupStart, pos },
        ')' => Token::Anchor { val: Anchor::GroupEnd, pos },
        c => Token::Char { val: Char::Lit(c), pos },
    }
}

fn escaped(c: char, pos: usize) -> (res: Result<Token, ParseError>)
    ensures
        match (res, escaped_token(c, pos)) {
            (Ok(tok), Ok(expected)) => tok == expected,
            (Err(e), Err(expected)) => e@ == expected,
            _ => false,
        },
{
    match c {
        '\\' | '$' | '^' | '.' | '*' | '+' | '?' | '[' | ']' | '(' | ')' | '{' | '}' | '|' => Ok(
            Token::Char { val: Char::Lit(c), pos },
        ),
        c => match EscapeChar::from_char(c) {
            Some(class) => Ok(Token::Char { val: Char::Escape(class), pos }),
            None => {
                let mut expected = "Unknown escape sequence: \\".to_string();
                expected.push(c);
                Err(ParseError::BadEscapeSequence(pos, expected))
            },
        },
    }
}

/// Splits `pattern` into its tokens, left to right. Each token carries the
/// index of the character it starts at. The only failure is a backslash that
/// starts no valid escape; it is reported at the index of the backslash.
pub fn tokenize(pattern: String) -> (res: Result<Vec<Token>, ParseError>)
    ensures
        match (res, tokenize_spec(pattern@)) {
            (Ok(tokens), Ok(expected)) => tokens@ == expected,
            (Err(e), Err(expected)) => e@ == expected,
            _ => false,
        },
{
    let chars = chars_of(pattern.as_str());
    let mut tokens: Vec<Token> = Vec::new();
    let mut i: usize = 0;
    while i < chars.len()
        invariant
            chars@ == pattern@,
            i <= chars.len(),
            match (tokenize_spec(pattern@), tokens_from(pattern@, i as int)) {
                (Ok(all), Ok(rest)) => all == tokens@ + rest,
                (Err(e), Err(expected)) => e == expected,
                _ => false,
            },
        decreases chars.len() - i,
    {
        let c = chars[i];
        let ghost before = tokens@;
        if c != '\\' {
            let tok = plain(c, i);
            tokens.push(tok);
            i += 1;
            proof {
                if let Ok(rest) = tokens_from(pattern@, i as int) {
                    lemma_push_front(before, tok, rest);
                }
            }
        } else if i + 1 >= chars.len() {
            return Err(
                ParseError::BadEscapeSequence(
                    i,
                    "Expected a character after the escape sequence".to_string(),
                ),
            );
        } else {
            match escaped(chars[i + 1], i) {
                Ok(tok) => {
                    tokens.push(tok);
                    i += 2;
                    proof {
                        if let Ok(rest) = tokens_from(pattern@, i as int) {
                            lemma_push_front(before, tok, rest);
                        }
                    }
                },
                Err(e) => {
                    return Err(e);
                },
            }
        }
    }
    Ok(tokens)
}

} // verus!
