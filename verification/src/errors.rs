//! The ways in which compiling a pattern can fail.

use crate::text::{char_debug, debug_char, decimal, push_decimal};
use crate::tokenizer::{Anchor, Char, EscapeChar, Quantifier, Token};
use vstd::prelude::*;

verus! {

/// Why a pattern was rejected.
#[derive(Debug)]
pub enum ParseError {
    /// A token stands where the grammar does not allow it; the text says what
    /// was expected instead.
    UnexpectedToken(Token, String),
    /// A backslash at the given character index does not start a valid escape;
    /// the text says what was expected instead.
    BadEscapeSequence(usize, String),
}

/// A `ParseError` with its texts as sequences of characters.
pub ghost enum ParseErrorView {
    UnexpectedToken(Token, Seq<char>),
    BadEscapeSequence(usize, Seq<char>),
}

impl View for ParseError {
    type V = ParseErrorView;

    open spec fn view(&self) -> ParseErrorView {
        match self {
            ParseError::UnexpectedToken(tok, expected) => ParseErrorView::UnexpectedToken(
                *tok,
                expected@,
            ),
            ParseError::BadEscapeSequence(pos, expected) => ParseErrorView::BadEscapeSequence(
                *pos,
                expected@,
            ),
        }
    }
}

/// The name of a quantifier.
pub open spec fn quantifier_name(q: Quantifier) -> Seq<char> {
    match q {
        Quantifier::Any => "Any"@,
        Quantifier::Many => "Many"@,
        Quantifier::Maybe => "Maybe"@,
    }
}

/// The name of an anchor.
pub open spec fn anchor_name(a: Anchor) -> Seq<char> {
    match a {
        Anchor::Start => "Start"@,
        Anchor::End => "End"@,
        Anchor::CharClassStart => "CharClassStart"@,
        Anchor::CharClassEnd => "CharClassEnd"@,
        Anchor::GroupStart => "GroupStart"@,
        Anchor::GroupEnd => "GroupEnd"@,
    }
}

/// The name of a named set of characters.
pub open spec fn class_name(class: EscapeChar) -> Seq<char> {
    match class {
        EscapeChar::Digit => "Digit"@,
        EscapeChar::NotDigit => "NotDigit"@,
        EscapeChar::Space => "Space"@,
        EscapeChar::NotSpace => "NotSpace"@,
        EscapeChar::Word => "Word"@,
        EscapeChar::NotWord => "NotWord"@,
        EscapeChar::Newline => "Newline"@,
        EscapeChar::Tab => "Tab"@,
        EscapeChar::Null => "Null"@,
    }
}

/// How a rule is written in a message: its name, with the quoted character
/// or the name of the set in parentheses where it has one.
pub open spec fn rule_text(rule: Char) -> Seq<char> {
    match rule {
        Char::Lit(c) => "Lit("@ + char_debug(c) + ")"@,
        Char::Dot => "Dot"@,
        Char::Escape(class) => "Escape("@ + class_name(class) + ")"@,
    }
}

/// How a token is written in a message: its kind, and between braces what it
/// carries and the index it starts at.
pub open spec fn token_text(tok: Token) -> Seq<char> {
    match tok {
        Token::Char { val, pos } => "Char { val: "@ + rule_text(val) + ", pos: "@ + decimal(
            pos as nat,
        ) + " }"@,
        Token::Quantifier { val, pos } => "Quantifier { val: "@ + quantifier_name(val)
            + ", pos: "@ + decimal(pos as nat) + " }"@,
        Token::Anchor { val, pos } => "Anchor { val: "@ + anchor_name(val) + ", pos: "@
            + decimal(pos as nat) + " }"@,
    }
}

/// The one-line message of an error.
pub open spec fn message_text(e: ParseErrorView) -> Seq<char> {
    match e {
        ParseErrorView::UnexpectedToken(tok, expected) => "Unexpected token "@ + token_text(tok)
            + ", expected "@ + expected,
        ParseErrorView::BadEscapeSequence(pos, expected) => "Bad escape sequence at position "@
            + decimal(pos as nat) + ", expected "@ + expected,
    }
}

fn quantifier_str(q: Quantifier) -> (s: &'static str)
    ensures
        s@ == quantifier_name(q),
{
    match q {
        Quantifier::Any => "Any",
        Quantifier::Many => "Many",
        Quantifier::Maybe => "Maybe",
    }
}

fn anchor_str(a: Anchor) -> (s: &'static str)
    ensures
        s@ == anchor_name(a),
{
    match a {
        Anchor::Start => "Start",
        Anchor::End => "End",
        Anchor::CharClassStart => "CharClassStart",
        Anchor::CharClassEnd => "CharClassEnd",
        Anchor::GroupStart => "GroupStart",
        Anchor::GroupEnd => "GroupEnd",
    }
}

fn class_str(class: EscapeChar) -> (s: &'static str)
    ensures
        s@ == class_name(class),
{
    match class {
        EscapeChar::Digit => "Digit",
        EscapeChar::NotDigit => "NotDigit",
        EscapeChar::Space => "Space",
        EscapeChar::NotSpace => "NotSpace",
        EscapeChar::Word => "Word",
        EscapeChar::NotWord => "NotWord",
        EscapeChar::Newline => "Newline",
        EscapeChar::Tab => "Tab",
        EscapeChar::Null => "Null",
    }
}

/// Appends how a literal rule is written in a message, given the quoted
/// form of its character.
pub fn push_literal_text(s: &mut String, quoted: &str)
    ensures
        final(s)@ == old(s)@ + ("Lit("@ + quoted@ + ")"@),
{
    s.append("Lit(");
    s.append(quoted);
    s.append(")");
    assert(s@ =~= old(s)@ + ("Lit("@ + quoted@ + ")"@));
}

fn push_rule(s: &mut String, rule: Char)
    ensures
        final(s)@ == old(s)@ + rule_text(rule),
{
    match rule {
        Char::Lit(c) => {
            let quoted = debug_char(c);
            push_literal_text(s, quoted.as_str());
        },
        Char::Dot => {
            s.append("Dot");
        },
        Char::Escape(class) => {
            s.append("Escape(");
            s.append(class_str(class));
            s.append(")");
            assert(s@ =~= old(s)@ + ("Escape("@ + class_name(class) + ")"@));
        },
    }
}

fn push_token(s: &mut String, tok: Token)
    ensures
        final(s)@ == old(s)@ + token_text(tok),
{
    match tok {
        Token::Char { val, pos } => {
            s.append("Char { val: ");
            push_rule(s, val);
            s.append(", pos: ");
            push_decimal(s, pos);
            s.append(" }");
            assert(s@ =~= old(s)@ + token_text(tok));
        },
        Token::Quantifier { val, pos } => {
            s.append("Quantifier { val: ");
            s.append(quantifier_str(val));
            s.append(", pos: ");
            push_decimal(s, pos);
            s.append(" }");
            assert(s@ =~= old(s)@ + token_text(tok));
        },
        Token::Anchor { val, pos } => {
            s.append("Anchor { val: ");
            s.append(anchor_str(val));
            s.append(", pos: ");
            push_decimal(s, pos);
            s.append(" }");
            assert(s@ =~= old(s)@ + token_text(tok));
        },
    }
}

impl ParseError {
    /// The error as one line of text: what was found, where, and what was
    /// expected instead.
    pub fn message(&self) -> (s: String)
        ensures
            s@ == message_text(self@),
    {
        let mut s = String::new();
        match self {
            ParseError::UnexpectedToken(tok, expected) => {
                s.append("Unexpected token ");
                push_token(&mut s, *tok);
                s.append(", expected ");
                s.append(expected.as_str());
                assert(s@ =~= message_text(self@));
            },
            ParseError::BadEscapeSequence(pos, expected) => {
                s.append("Bad escape sequence at position ");
                push_decimal(&mut s, *pos);
                s.append(", expected ");
                s.append(expected.as_str());
                assert(s@ =~= message_text(self@));
            },
        }
        s
    }
}

} // verus!
