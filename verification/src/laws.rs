//! Properties of compiling and searching that hold for every pattern and text.

use crate::errors::ParseErrorView;
use crate::parser::{
    atom_at, end_anchor_text, is_anchor, item_at, items_from, lemma_run_end, parse_spec, Ast,
};
use crate::regex::{compile_spec, outcome, MatchView, Regex};
use crate::semantics::{
    find_spec, first_match, lemma_match_node_bound, match_any, match_chain, match_node,
};
use crate::tokenizer::{
    is_special, token_at, tokenize_spec, tokens_from, Anchor, Char, Quantifier, Token,
};
use vstd::prelude::*;

verus! {

/// A search that starts at `from` reports the leftmost offset at or after
/// `from` at which the pattern matches, with the end of the match there; it
/// reports nothing exactly if the pattern matches at no such offset.
pub proof fn lemma_first_match_is_leftmost(root: Ast, text: Seq<char>, from: int)
    requires
        0 <= from <= text.len(),
    ensures
        match first_match(root, text, from) {
            Some((start, end)) => {
                &&& from <= start <= end <= text.len()
                &&& match_node(root, text.skip(start as int)) == Some((end - start) as nat)
                &&& forall|i: int| from <= i < start ==> match_node(root, text.skip(i)) is None
            },
            None => forall|i: int| from <= i <= text.len() ==> match_node(root, text.skip(i)) is None,
        },
    decreases text.len() - from,
{
    lemma_match_node_bound(root, text.skip(from));
    if match_node(root, text.skip(from)) is None {
        if from < text.len() {
            lemma_first_match_is_leftmost(root, text, from + 1);
        } else {
            assert(first_match(root, text, from + 1) is None);
        }
    }
}

/// A pattern without `^` matches at the leftmost offset at which its tree
/// matches, and a search fails exactly if the tree matches at no offset from 0
/// up to the length of the text.
pub proof fn lemma_find_is_leftmost(root: Ast, text: Seq<char>)
    requires
        !(root is StartAnchor),
    ensures
        match find_spec(root, text) {
            Some((start, end)) => {
                &&& start <= end <= text.len()
                &&& match_node(root, text.skip(start as int)) == Some((end - start) as nat)
                &&& forall|i: int| 0 <= i < start ==> match_node(root, text.skip(i)) is None
            },
            None => forall|i: int| 0 <= i <= text.len() ==> match_node(root, text.skip(i)) is None,
        },
{
    lemma_first_match_is_leftmost(root, text, 0);
}

/// A pattern that starts with `^` matches at offset 0 or not at all.
pub proof fn lemma_find_anchored(child: Ast, text: Seq<char>)
    ensures
        match find_spec(Ast::StartAnchor(Box::new(child)), text) {
            Some((start, end)) => start == 0 && end <= text.len() && match_node(child, text)
                == Some(end),
            None => match_node(child, text) is None,
        },
{
    lemma_match_node_bound(child, text);
}

/// Two patterns compiled from the same text stand for the same tree, so that
/// on every text they agree on whether it matches and give the same outcome
/// of a search.
pub proof fn lemma_compile_twice_agree(a: Regex, b: Regex, pattern: Seq<char>, text: Seq<char>)
    requires
        compile_spec(pattern) == Ok::<Ast, ParseErrorView>(a@),
        compile_spec(pattern) == Ok::<Ast, ParseErrorView>(b@),
    ensures
        a@ == b@,
        find_spec(a@, text).is_some() == find_spec(b@, text).is_some(),
        outcome(text, find_spec(a@, text)) == outcome(text, find_spec(b@, text)),
{
}

/// The token of the character `c`, standing for itself at index `pos`.
pub open spec fn literal_token(c: char, pos: int) -> Token {
    Token::Char { val: Char::Lit(c), pos: pos as usize }
}

/// One literal token for each character of `pattern` from index `i` on.
pub open spec fn literal_tokens(pattern: Seq<char>, i: int) -> Seq<Token> {
    Seq::new((pattern.len() - i) as nat, |k: int| literal_token(pattern[i + k], i + k))
}

/// The atom that accepts the character `c` and nothing else.
pub open spec fn literal_atom(c: char) -> Ast {
    Ast::Char(Char::Lit(c))
}

/// One literal atom for each character of `chars`.
pub open spec fn literal_atoms(chars: Seq<char>) -> Seq<Ast> {
    Seq::new(chars.len(), |k: int| literal_atom(chars[k]))
}

/// Whether no character of `pattern` has a meaning of its own.
pub open spec fn is_literal(pattern: Seq<char>) -> bool {
    forall|i: int| 0 <= i < pattern.len() ==> !is_special(#[trigger] pattern[i])
}

proof fn lemma_literal_tokens(pattern: Seq<char>, i: int)
    requires
        is_literal(pattern),
        0 <= i <= pattern.len(),
    ensures
        tokens_from(pattern, i) == Ok::<Seq<Token>, ParseErrorView>(literal_tokens(pattern, i)),
    decreases pattern.len() - i,
{
    if i < pattern.len() {
        lemma_literal_tokens(pattern, i + 1);
        assert(!is_special(pattern[i]));
        let tok = literal_token(pattern[i], i);
        assert(token_at(pattern, i) == Ok::<(Token, int), ParseErrorView>((tok, i + 1)));
        assert(seq![tok] + literal_tokens(pattern, i + 1) =~= literal_tokens(pattern, i));
    } else {
        assert(literal_tokens(pattern, i) =~= Seq::<Token>::empty());
    }
}

proof fn lemma_literal_items(pattern: Seq<char>, i: int)
    requires
        0 <= i <= pattern.len(),
    ensures
        items_from(literal_tokens(pattern, 0), i, false) == Ok::<Seq<Ast>, ParseErrorView>(
            literal_atoms(pattern.skip(i)),
        ),
    decreases pattern.len() - i,
{
    let tokens = literal_tokens(pattern, 0);
    if i < pattern.len() {
        lemma_literal_items(pattern, i + 1);
        let atom = literal_atom(pattern[i]);
        assert(atom_at(tokens, i) == Ok::<(Ast, int), ParseErrorView>((atom, i + 1)));
        assert(item_at(tokens, i) == Ok::<(Ast, int), ParseErrorView>((atom, i + 1)));
        assert(seq![atom] + literal_atoms(pattern.skip(i + 1)) =~= literal_atoms(
            pattern.skip(i),
        ));
    } else {
        assert(literal_atoms(pattern.skip(i)) =~= Seq::<Ast>::empty());
    }
}

/// A chain of literal atoms consumes exactly its characters where the text
/// starts with them.
pub proof fn lemma_literal_chain(chars: Seq<char>, s: Seq<char>)
    requires
        chars.len() <= s.len(),
        s.take(chars.len() as int) == chars,
    ensures
        match_chain(literal_atoms(chars), s) == Some(chars.len()),
    decreases chars.len(),
{
    if chars.len() > 0 {
        assert(s[0] == s.take(chars.len() as int)[0]);
        assert(match_node(literal_atoms(chars)[0], s) == Some(1nat));
        assert(s.skip(1).take(chars.len() - 1) =~= chars.drop_first());
        lemma_literal_chain(chars.drop_first(), s.skip(1));
        assert(literal_atoms(chars).drop_first() =~= literal_atoms(chars.drop_first()));
    }
}

/// A pattern in which no character has a meaning of its own compiles, and a
/// search of the pattern's own text finds all of it, from offset 0 on.
pub proof fn lemma_literal_pattern_finds_itself(pattern: Seq<char>)
    requires
        is_literal(pattern),
    ensures
        compile_spec(pattern) == Ok::<Ast, ParseErrorView>(Ast::Chain(literal_atoms(pattern))),
        find_spec(Ast::Chain(literal_atoms(pattern)), pattern) == Some((0nat, pattern.len())),
        outcome(pattern, find_spec(Ast::Chain(literal_atoms(pattern)), pattern)) == (MatchView {
            is_match: true,
            matched: Some(pattern),
            start: 0,
            end: pattern.len(),
        }),
{
    lemma_literal_tokens(pattern, 0);
    lemma_literal_items(pattern, 0);
    assert(pattern.skip(0) =~= pattern);
    assert(pattern.take(pattern.len() as int) =~= pattern);
    lemma_literal_chain(pattern, pattern);
    assert(pattern.subrange(0, pattern.len() as int) =~= pattern);
}

/// The tree of a pattern made of `.`, `*` and one literal character.
pub open spec fn dot_star_then(c: char) -> Ast {
    Ast::Chain(
        seq![Ast::Quantifier(Quantifier::Any, Box::new(Ast::Char(Char::Dot))), literal_atom(c)],
    )
}

/// A repeated `.` consumes all the text in front of it.
pub proof fn lemma_dot_star_consumes_all(s: Seq<char>)
    ensures
        match_any(Ast::Char(Char::Dot), s) == s.len(),
    decreases s.len(),
{
    let dot = Ast::Char(Char::Dot);
    if s.len() > 0 {
        assert(match_node(dot, s) == Some(1nat));
        lemma_dot_star_consumes_all(s.skip(1));
    } else {
        assert(match_node(dot, s) is None);
    }
}

/// Repetition never gives characters back: a repeated `.` followed by a
/// literal character matches no text at all, since the repetition leaves
/// nothing for the literal. This holds also of texts that end in that
/// character.
pub proof fn lemma_dot_star_starves_literal(c: char, text: Seq<char>)
    requires
        !is_special(c),
    ensures
        compile_spec(seq!['.', '*', c]) == Ok::<Ast, ParseErrorView>(dot_star_then(c)),
        find_spec(dot_star_then(c), text) is None,
{
    let pattern = seq!['.', '*', c];
    let dot = Token::Char { val: Char::Dot, pos: 0 };
    let star = Token::Quantifier { val: Quantifier::Any, pos: 1 };
    let lit = literal_token(c, 2);
    let tokens = seq![dot, star, lit];
    assert(tokenize_spec(pattern) == Ok::<Seq<Token>, ParseErrorView>(tokens)) by {
        reveal_with_fuel(tokens_from, 4);
        assert(token_at(pattern, 0) == Ok::<(Token, int), ParseErrorView>((dot, 1)));
        assert(token_at(pattern, 1) == Ok::<(Token, int), ParseErrorView>((star, 2)));
        assert(token_at(pattern, 2) == Ok::<(Token, int), ParseErrorView>((lit, 3)));
        assert(seq![dot] + (seq![star] + (seq![lit] + Seq::<Token>::empty())) =~= tokens);
    }
    let run = Ast::Quantifier(Quantifier::Any, Box::new(Ast::Char(Char::Dot)));
    assert(parse_spec(tokens) == Ok::<Ast, ParseErrorView>(dot_star_then(c))) by {
        reveal_with_fuel(items_from, 3);
        assert(item_at(tokens, 0) == Ok::<(Ast, int), ParseErrorView>((run, 2)));
        assert(item_at(tokens, 2) == Ok::<(Ast, int), ParseErrorView>((literal_atom(c), 3)));
        assert(seq![run] + (seq![literal_atom(c)] + Seq::<Ast>::empty()) =~= seq![
            run,
            literal_atom(c),
        ]);
    }
    let root = dot_star_then(c);
    assert forall|i: int| 0 <= i <= text.len() implies match_node(root, text.skip(i)) is None by {
        let s = text.skip(i);
        let nodes = seq![run, literal_atom(c)];
        lemma_dot_star_consumes_all(s);
        assert(match_node(run, s) == Some(s.len()));
        assert(nodes.drop_first() =~= seq![literal_atom(c)]);
        let rest = s.skip(s.len() as int);
        assert(match_node(seq![literal_atom(c)][0], rest) is None);
        assert(match_chain(seq![literal_atom(c)], rest) is None);
        assert(match_chain(nodes, s) is None);
    }
    lemma_find_is_leftmost(root, text);
    if let Some((start, end)) = find_spec(root, text) {
        assert(match_node(root, text.skip(start as int)) is Some);
    }
}

/// Whether `t` is an atom: one character rule, a class, or a group of
/// character rules.
pub open spec fn is_atom(t: Ast) -> bool {
    match t {
        Ast::Char(_) => true,
        Ast::CharClass(_) => true,
        Ast::CaptureGroup(nodes) => forall|i: int|
            0 <= i < nodes.len() ==> #[trigger] nodes[i] is Char,
        _ => false,
    }
}

/// Whether `t` may stand in the chain of a parsed pattern: an atom, one
/// quantifier around an atom, or the end of the text.
pub open spec fn is_item(t: Ast) -> bool {
    match t {
        Ast::Quantifier(_, child) => is_atom(*child),
        Ast::EndAnchor => true,
        _ => is_atom(t),
    }
}

/// Whether every node may stand in the chain of a parsed pattern, and none
/// but the last is the end of the text.
pub open spec fn is_flat(items: Seq<Ast>) -> bool {
    &&& forall|i: int| 0 <= i < items.len() ==> is_item(#[trigger] items[i])
    &&& forall|i: int| 0 <= i < items.len() - 1 ==> !(#[trigger] items[i] is EndAnchor)
}

/// Whether `t` has the shape of a parsed pattern: one flat chain, with a start
/// anchor around it or none, and a start anchor nowhere else.
pub open spec fn well_formed(t: Ast) -> bool {
    match t {
        Ast::Chain(items) => is_flat(items),
        Ast::StartAnchor(child) => match *child {
            Ast::Chain(items) => is_flat(items),
            _ => false,
        },
        _ => false,
    }
}

proof fn lemma_items_flat(tokens: Seq<Token>, i: int, ended: bool)
    requires
        0 <= i,
    ensures
        items_from(tokens, i, ended) matches Ok(items) ==> is_flat(items) && (ended
            ==> items.len() == 0),
    decreases tokens.len() - i,
{
    if i < tokens.len() && !ended {
        if let Ok((item, next)) = item_at(tokens, i) {
            lemma_run_end(tokens, i + 1);
            let stop = is_anchor(tokens[i], Anchor::End);
            lemma_items_flat(tokens, next, stop);
            if let Ok(rest) = items_from(tokens, next, stop) {
                let items = seq![item] + rest;
                assert(is_item(item));
                assert(item is EndAnchor ==> stop);
                assert forall|k: int| 0 <= k < items.len() implies is_item(
                    #[trigger] items[k],
                ) by {
                    if k > 0 {
                        assert(items[k] == rest[k - 1]);
                    }
                }
                assert forall|k: int| 0 <= k < items.len() - 1 implies !(
                #[trigger] items[k] is EndAnchor) by {
                    if k > 0 {
                        assert(items[k] == rest[k - 1]);
                    }
                }
            }
        }
    }
}

/// Every tree that the parser accepts is well formed. A start anchor stands
/// at the root, and nowhere else, exactly if the first token is a `^`. The
/// end of the text stands last in the chain or not at all, and under no
/// quantifier. Every quantifier holds one character rule, class or group.
pub proof fn lemma_parsed_is_well_formed(tokens: Seq<Token>)
    ensures
        parse_spec(tokens) matches Ok(tree) ==> {
            &&& well_formed(tree)
            &&& tree is StartAnchor <==> tokens.len() > 0 && is_anchor(tokens[0], Anchor::Start)
        },
{
    lemma_items_flat(tokens, 0, false);
    lemma_items_flat(tokens, 1, false);
}

/// A quantifier that follows a `$` is rejected, and reported as a token that
/// stands after the end anchor.
pub proof fn lemma_quantified_end_is_rejected(tokens: Seq<Token>, i: int)
    requires
        0 <= i,
        i + 1 < tokens.len(),
        is_anchor(tokens[i], Anchor::End),
        tokens[i + 1] is Quantifier,
    ensures
        items_from(tokens, i, false) == Err::<Seq<Ast>, ParseErrorView>(
            ParseErrorView::UnexpectedToken(tokens[i + 1], end_anchor_text()),
        ),
{
    assert(item_at(tokens, i) == Ok::<(Ast, int), ParseErrorView>((Ast::EndAnchor, i + 1)));
    assert(items_from(tokens, i + 1, true) == Err::<Seq<Ast>, ParseErrorView>(
        ParseErrorView::UnexpectedToken(tokens[i + 1], end_anchor_text()),
    ));
}

proof fn lemma_tokens_from_in_order(pattern: Seq<char>, i: int)
    requires
        0 <= i <= pattern.len() <= usize::MAX,
    ensures
        tokens_from(pattern, i) matches Ok(tokens) ==> {
            &&& tokens.len() <= pattern.len() - i
            &&& forall|k: int| 0 <= k < tokens.len() ==> i <= (#[trigger] tokens[k]).pos()
                < pattern.len()
            &&& forall|j: int, k: int|
                0 <= j < k < tokens.len() ==> (#[trigger] tokens[j]).pos() < (
                #[trigger] tokens[k]).pos()
        },
    decreases pattern.len() - i,
{
    if i < pattern.len() {
        if let Ok((tok, next)) = token_at(pattern, i) {
            assert(tok.pos() == i);
            lemma_tokens_from_in_order(pattern, next);
            if let Ok(rest) = tokens_from(pattern, next) {
                let tokens = seq![tok] + rest;
                assert forall|k: int| 0 <= k < tokens.len() implies i <= (
                #[trigger] tokens[k]).pos() < pattern.len() by {
                    if k > 0 {
                        assert(tokens[k] == rest[k - 1]);
                    }
                }
                assert forall|j: int, k: int| 0 <= j < k < tokens.len() implies (
                #[trigger] tokens[j]).pos() < (#[trigger] tokens[k]).pos() by {
                    assert(tokens[k] == rest[k - 1]);
                    if j > 0 {
                        assert(tokens[j] == rest[j - 1]);
                    }
                }
            }
        }
    }
}

/// The tokens of a pattern stand in the order of the pattern: there are no
/// more tokens than characters, each token starts at an index of the pattern,
/// and each starts after the one before it.
pub proof fn lemma_tokens_in_order(pattern: Seq<char>)
    requires
        pattern.len() <= usize::MAX,
    ensures
        tokenize_spec(pattern) matches Ok(tokens) ==> {
            &&& tokens.len() <= pattern.len()
            &&& forall|k: int| 0 <= k < tokens.len() ==> (#[trigger] tokens[k]).pos()
                < pattern.len()
            &&& forall|j: int, k: int|
                0 <= j < k < tokens.len() ==> (#[trigger] tokens[j]).pos() < (
                #[trigger] tokens[k]).pos()
        },
{
    lemma_tokens_from_in_order(pattern, 0);
}

} // verus!
