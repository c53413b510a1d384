//! What it means for a syntax tree to match a text.
//!
//! Matching is greedy and never gives characters back: every node consumes as
//! much of the text in front of it as it can, and what it has consumed is not
//! offered again to the nodes after it.

use crate::parser::Ast;
use crate::tokenizer::{Char, EscapeChar, Quantifier};
use vstd::prelude::*;

verus! {

/// `0` to `9`.
pub open spec fn is_digit(c: char) -> bool {
    '0' <= c && c <= '9'
}

/// Blank, tab, line feed, vertical tab, form feed or carriage return.
pub open spec fn is_space(c: char) -> bool {
    c == ' ' || c == '\t' || c == '\n' || c == '\x0B' || c == '\x0C' || c == '\r'
}

/// An ASCII letter, a digit or `_`.
pub open spec fn is_word(c: char) -> bool {
    ('a' <= c && c <= 'z') || ('A' <= c && c <= 'Z') || is_digit(c) || c == '_'
}

/// Whether `c` belongs to the named set.
pub open spec fn in_class(class: EscapeChar, c: char) -> bool {
    match class {
        EscapeChar::Digit => is_digit(c),
        EscapeChar::NotDigit => !is_digit(c),
        EscapeChar::Space => is_space(c),
        EscapeChar::NotSpace => !is_space(c),
        EscapeChar::Word => is_word(c),
        EscapeChar::NotWord => !is_word(c),
        EscapeChar::Newline => c == '\n',
        EscapeChar::Tab => c == '\t',
        EscapeChar::Null => c == '\0',
    }
}

/// Whether the rule accepts the character `c`.
pub open spec fn accepts(rule: Char, c: char) -> bool {
    match rule {
        Char::Lit(lit) => c == lit,
        Char::Dot => true,
        Char::Escape(class) => in_class(class, c),
    }
}

/// Whether at least one of the rules accepts the character `c`.
pub open spec fn any_accepts(rules: Seq<Char>, c: char) -> bool {
    exists|i: int| 0 <= i < rules.len() && accepts(#[trigger] rules[i], c)
}

/// The number of characters that `node` consumes at the front of `s`, or
/// `None` if it does not match there.
///
/// A start anchor below the root matches nothing. A group matches as the chain
/// of its children does.
pub open spec fn match_node(node: Ast, s: Seq<char>) -> Option<nat>
    decreases node, s.len(), 0int,
{
    match node {
        Ast::Char(rule) => if s.len() > 0 && accepts(rule, s[0]) {
            Some(1)
        } else {
            None
        },
        Ast::CharClass(rules) => if s.len() > 0 && any_accepts(rules, s[0]) {
            Some(1)
        } else {
            None
        },
        Ast::Chain(nodes) => match_chain(nodes, s),
        Ast::CaptureGroup(nodes) => match_chain(nodes, s),
        Ast::Quantifier(q, child) => match q {
            Quantifier::Any => Some(match_any(*child, s)),
            Quantifier::Many => match match_node(*child, s) {
                Some(n) => Some(n + match_any(*child, s.skip(n as int))),
                None => None,
            },
            Quantifier::Maybe => match match_node(*child, s) {
                Some(n) => Some(n),
                None => Some(0),
            },
        },
        Ast::EndAnchor => if s.len() == 0 {
            Some(0)
        } else {
            None
        },
        Ast::StartAnchor(_) => None,
    }
}

/// The number of characters that the nodes consume at the front of `s` when
/// each continues where the one before it stopped, or `None` if one of them
/// does not match where its turn comes.
pub open spec fn match_chain(nodes: Seq<Ast>, s: Seq<char>) -> Option<nat>
    decreases nodes, s.len(), 0int,
{
    if nodes.len() == 0 {
        Some(0)
    } else {
        match match_node(nodes[0], s) {
            None => None,
            Some(n) => match match_chain(nodes.drop_first(), s.skip(n as int)) {
                None => None,
                Some(m) => Some(n + m),
            },
        }
    }
}

/// The number of characters that repetitions of `node` consume at the front of
/// `s`. The run ends where `node` does not match, and also after a repetition
/// that consumed nothing, since another one would change nothing.
pub open spec fn match_any(node: Ast, s: Seq<char>) -> nat
    decreases node, s.len(), 1int,
{
    match match_node(node, s) {
        Some(n) => if 0 < n <= s.len() {
            n + match_any(node, s.skip(n as int))
        } else {
            0
        },
        None => 0,
    }
}

/// The first offset at or after `from` at which `root` matches, and the offset
/// at which that match ends.
pub open spec fn first_match(root: Ast, text: Seq<char>, from: int) -> Option<(nat, nat)>
    decreases text.len() + 1 - from,
{
    if from < 0 || from > text.len() {
        None
    } else {
        match match_node(root, text.skip(from)) {
            Some(n) => Some((from as nat, from as nat + n)),
            None => first_match(root, text, from + 1),
        }
    }
}

/// Where the pattern `root` matches in `text`: the offsets of the first
/// character of the match and of the first character after it.
///
/// A pattern that starts with `^` is tried at offset 0 only. Any other pattern
/// is tried at every offset from 0 up to the length of `text`, in this order,
/// and the first offset at which it matches is taken.
pub open spec fn find_spec(root: Ast, text: Seq<char>) -> Option<(nat, nat)> {
    match root {
        Ast::StartAnchor(child) => match match_node(*child, text) {
            Some(n) => Some((0, n)),
            None => None,
        },
        _ => first_match(root, text, 0),
    }
}

/// A node consumes no more than the text in front of it holds.
pub proof fn lemma_match_node_bound(node: Ast, s: Seq<char>)
    ensures
        match_node(node, s) matches Some(n) ==> n <= s.len(),
    decreases node, s.len(), 0int,
{
    match node {
        Ast::Chain(nodes) => lemma_match_chain_bound(nodes, s),
        Ast::CaptureGroup(nodes) => lemma_match_chain_bound(nodes, s),
        Ast::Quantifier(q, child) => {
            lemma_match_node_bound(*child, s);
            match q {
                Quantifier::Any => lemma_match_any_bound(*child, s),
                Quantifier::Many => {
                    if let Some(n) = match_node(*child, s) {
                        lemma_match_any_bound(*child, s.skip(n as int));
                    }
                },
                Quantifier::Maybe => {},
            }
        },
        _ => {},
    }
}

/// A chain consumes no more than the text in front of it holds.
pub proof fn lemma_match_chain_bound(nodes: Seq<Ast>, s: Seq<char>)
    ensures
        match_chain(nodes, s) matches Some(n) ==> n <= s.len(),
    decreases nodes, s.len(), 0int,
{
    if nodes.len() > 0 {
        lemma_match_node_bound(nodes[0], s);
        if let Some(n) = match_node(nodes[0], s) {
            lemma_match_chain_bound(nodes.drop_first(), s.skip(n as int));
        }
    }
}

/// A run of repetitions consumes no more than the text in front of it holds.
pub proof fn lemma_match_any_bound(node: Ast, s: Seq<char>)
    ensures
        match_any(node, s) <= s.len(),
    decreases node, s.len(), 1int,
{
    if let Some(n) = match_node(node, s) {
        if 0 < n <= s.len() {
            lemma_match_any_bound(node, s.skip(n as int));
        }
    }
}

} // verus!
