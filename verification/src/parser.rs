//! The syntax tree of a pattern and the parser that builds it from tokens.

use crate::errors::{ParseError, ParseErrorView};
use crate::tokenizer::{Anchor, Char, Quantifier, Token};
use vstd::prelude::*;

verus! {

/// A node of the syntax tree of a pattern.
#[derive(Debug, PartialEq)]
pub enum AstNode {
    /// The children one after another.
    Chain(Vec<AstNode>),
    /// The child, repeated as the quantifier says.
    Quantifier(Quantifier, Box<AstNode>),
    /// One character that the rule accepts.
    Char(Char),
    /// One character that at least one of the rules accepts.
    CharClass(Vec<Char>),
    /// The child, which has to match at the very start of the text.
    StartAnchor(Box<AstNode>),
    /// The end of the text.
    EndAnchor,
    /// The children one after another, marked as a group.
    CaptureGroup(Vec<AstNode>),
}

/// The syntax tree as a mathematical value: what an `AstNode` stands for.
pub ghost enum Ast {
    Chain(Seq<Ast>),
    Quantifier(Quantifier, Box<Ast>),
    Char(Char),
    CharClass(Seq<Char>),
    StartAnchor(Box<Ast>),
    EndAnchor,
    CaptureGroup(Seq<Ast>),
}

/// The trees that the nodes of `nodes` stand for, in the same order.
pub open spec fn node_views(nodes: Seq<AstNode>) -> Seq<Ast>
    decreases nodes, 0int,
{
    Seq::new(
        nodes.len(),
        |i: int|
            if 0 <= i < nodes.len() {
                nodes[i].tree()
            } else {
                Ast::EndAnchor
            },
    )
}

impl AstNode {
    /// The tree that this node stands for.
    pub open spec fn tree(&self) -> Ast
        decreases self, 1int,
    {
        match self {
            AstNode::Chain(nodes) => Ast::Chain(node_views(nodes@)),
            AstNode::Quantifier(q, node) => Ast::Quantifier(*q, Box::new(node.tree())),
            AstNode::Char(c) => Ast::Char(*c),
            AstNode::CharClass(chars) => Ast::CharClass(chars@),
            AstNode::StartAnchor(node) => Ast::StartAnchor(Box::new(node.tree())),
            AstNode::EndAnchor => Ast::EndAnchor,
            AstNode::CaptureGroup(nodes) => Ast::CaptureGroup(node_views(nodes@)),
        }
    }
}

/// `node_views` keeps the length and takes each node to its tree.
pub proof fn lemma_node_views(nodes: Seq<AstNode>)
    ensures
        node_views(nodes).len() == nodes.len(),
        forall|i: int| 0 <= i < nodes.len() ==> #[trigger] node_views(nodes)[i] == nodes[i]@,
{
    reveal_with_fuel(node_views, 2);
}

impl View for AstNode {
    type V = Ast;

    open spec fn view(&self) -> Ast {
        self.tree()
    }
}

/// What is reported for a token that stands where a character was expected.
pub open spec fn char_literal_text() -> Seq<char> {
    "Should have found a char literal"@
}

/// What is reported for a `]` that closes nothing.
pub open spec fn class_end_text() -> Seq<char> {
    "Char class end anchor only allowed after char class start anchor"@
}

/// What is reported for a `)` that closes nothing.
pub open spec fn group_end_text() -> Seq<char> {
    "Group end anchor only allowed after group start anchor"@
}

/// What is reported for a `^` that is not the first token.
pub open spec fn start_anchor_text() -> Seq<char> {
    "Start anchor only allowed at the start of the string"@
}

/// What is reported for a token that follows a `$`.
pub open spec fn end_anchor_text() -> Seq<char> {
    "End anchor only allowed at the end of the string"@
}

/// Whether `tok` is the anchor `anchor`.
pub open spec fn is_anchor(tok: Token, anchor: Anchor) -> bool {
    match tok {
        Token::Anchor { val, .. } => val == anchor,
        _ => false,
    }
}

/// The rule that a character token carries.
pub open spec fn char_of(tok: Token) -> Char
    recommends
        tok is Char,
{
    match tok {
        Token::Char { val, .. } => val,
        _ => Char::Dot,
    }
}

/// The quantifier that a quantifier token carries.
pub open spec fn quantifier_of(tok: Token) -> Quantifier
    recommends
        tok is Quantifier,
{
    match tok {
        Token::Quantifier { val, .. } => val,
        _ => Quantifier::Any,
    }
}

/// The index of the first token at or after `i` that is no character token,
/// or the number of tokens if there is none.
pub open spec fn run_end(tokens: Seq<Token>, i: int) -> int
    decreases tokens.len() - i,
{
    if 0 <= i < tokens.len() && tokens[i] is Char {
        run_end(tokens, i + 1)
    } else {
        i
    }
}

/// The rules of the character tokens from index `i` up to index `j`.
pub open spec fn run_chars(tokens: Seq<Token>, i: int, j: int) -> Seq<Char> {
    Seq::new((j - i) as nat, |k: int| char_of(tokens[i + k]))
}

/// One character atom for each rule of `chars`, in the same order.
pub open spec fn char_atoms(chars: Seq<Char>) -> Seq<Ast> {
    chars.map_values(|c: Char| Ast::Char(c))
}

/// The rules enclosed by a bracket whose contents start at index `i` and which
/// `close` closes, together with the index after the bracket. The character
/// tokens from `i` on are the contents. The token after them has to be `close`;
/// if the tokens end there, the bracket counts as closed.
pub open spec fn enclosed(tokens: Seq<Token>, i: int, close: Anchor) -> Result<
    (Seq<Char>, int),
    ParseErrorView,
> {
    let j = run_end(tokens, i);
    if j >= tokens.len() {
        Ok((run_chars(tokens, i, j), j))
    } else if is_anchor(tokens[j], close) {
        Ok((run_chars(tokens, i, j), j + 1))
    } else {
        Err(ParseErrorView::UnexpectedToken(tokens[j], char_literal_text()))
    }
}

/// The atom that starts at index `i`, together with the index after it.
pub open spec fn atom_at(tokens: Seq<Token>, i: int) -> Result<(Ast, int), ParseErrorView>
    recommends
        0 <= i < tokens.len(),
{
    match tokens[i] {
        Token::Char { val, .. } => Ok((Ast::Char(val), i + 1)),
        Token::Quantifier { .. } => Err(
            ParseErrorView::UnexpectedToken(tokens[i], char_literal_text()),
        ),
        Token::Anchor { val, .. } => match val {
            Anchor::Start => Err(ParseErrorView::UnexpectedToken(tokens[i], start_anchor_text())),
            Anchor::End => Ok((Ast::EndAnchor, i + 1)),
            Anchor::CharClassStart => match enclosed(tokens, i + 1, Anchor::CharClassEnd) {
                Ok((chars, next)) => Ok((Ast::CharClass(chars), next)),
                Err(e) => Err(e),
            },
            Anchor::CharClassEnd => Err(
                ParseErrorView::UnexpectedToken(tokens[i], class_end_text()),
            ),
            Anchor::GroupStart => match enclosed(tokens, i + 1, Anchor::GroupEnd) {
                Ok((chars, next)) => Ok((Ast::CaptureGroup(char_atoms(chars)), next)),
                Err(e) => Err(e),
            },
            Anchor::GroupEnd => Err(ParseErrorView::UnexpectedToken(tokens[i], group_end_text())),
        },
    }
}

/// The element of the top-level chain that starts at index `i`, together with
/// the index after it: the atom there, wrapped in the quantifier that follows
/// it, if one does. The end of the text takes no quantifier: a quantifier
/// after a `$` is left where it is, as a token that follows the `$`.
pub open spec fn item_at(tokens: Seq<Token>, i: int) -> Result<(Ast, int), ParseErrorView>
    recommends
        0 <= i < tokens.len(),
{
    match atom_at(tokens, i) {
        Err(e) => Err(e),
        Ok((atom, next)) => if !(atom is EndAnchor) && next < tokens.len()
            && tokens[next] is Quantifier {
            Ok((Ast::Quantifier(quantifier_of(tokens[next]), Box::new(atom)), next + 1))
        } else {
            Ok((atom, next))
        },
    }
}

/// The elements of the top-level chain from index `i` on, or the first error
/// met there; `ended` says that a `$` stands before index `i`.
pub open spec fn items_from(tokens: Seq<Token>, i: int, ended: bool) -> Result<
    Seq<Ast>,
    ParseErrorView,
>
    decreases tokens.len() - i,
{
    if i >= tokens.len() {
        Ok(Seq::empty())
    } else if ended {
        Err(ParseErrorView::UnexpectedToken(tokens[i], end_anchor_text()))
    } else {
        match item_at(tokens, i) {
            Err(e) => Err(e),
            Ok((item, next)) => {
                proof {
                    lemma_run_end(tokens, i + 1);
                }
                match items_from(tokens, next, is_anchor(tokens[i], Anchor::End)) {
                    Err(e) => Err(e),
                    Ok(rest) => Ok(seq![item] + rest),
                }
            },
        }
    }
}

/// The tree of the pattern whose tokens are `tokens`, or the first error. A `^`
/// as first token wraps the whole chain; anywhere else it is an error.
pub open spec fn parse_spec(tokens: Seq<Token>) -> Result<Ast, ParseErrorView> {
    if tokens.len() > 0 && is_anchor(tokens[0], Anchor::Start) {
        match items_from(tokens, 1, false) {
            Ok(items) => Ok(Ast::StartAnchor(Box::new(Ast::Chain(items)))),
            Err(e) => Err(e),
        }
    } else {
        match items_from(tokens, 0, false) {
            Ok(items) => Ok(Ast::Chain(items)),
            Err(e) => Err(e),
        }
    }
}

/// A run of character tokens does not start before its first index, ends
/// within the tokens, holds character tokens only, and is not followed by one.
pub proof fn lemma_run_end(tokens: Seq<Token>, i: int)
    ensures
        i <= run_end(tokens, i),
        0 <= i <= tokens.len() ==> run_end(tokens, i) <= tokens.len(),
        forall|k: int| i <= k < run_end(tokens, i) ==> 0 <= k < tokens.len() && tokens[k] is Char,
        0 <= run_end(tokens, i) < tokens.len() ==> !(tokens[run_end(tokens, i)] is Char),
    decreases tokens.len() - i,
{
    if 0 <= i < tokens.len() && tokens[i] is Char {
        lemma_run_end(tokens, i + 1);
    }
}

fn take_enclosed(tokens: &Vec<Token>, i: usize, close: Anchor) -> (res: Result<
    (Vec<Char>, usize),
    ParseError,
>)
    requires
        i <= tokens.len(),
    ensures
        match (res, enclosed(tokens@, i as int, close)) {
            (Ok((chars, next)), Ok((c, n))) => chars@ == c && next == n && i <= next
                <= tokens.len(),
            (Err(e), Err(expected)) => e@ == expected,
            _ => false,
        },
{
    let mut chars: Vec<Char> = Vec::new();
    let mut j: usize = i;
    while j < tokens.len()
        invariant
            i <= j <= tokens.len(),
            run_end(tokens@, j as int) == run_end(tokens@, i as int),
            chars@ == run_chars(tokens@, i as int, j as int),
        decreases tokens.len() - j,
    {
        match tokens[j] {
            Token::Char { val, .. } => {
                chars.push(val);
                j += 1;
                assert(chars@ =~= run_chars(tokens@, i as int, j as int));
            },
            Token::Anchor { val, .. } => {
                if val == close {
                    return Ok((chars, j + 1));
                } else {
                    return Err(
                        ParseError::UnexpectedToken(
                            tokens[j],
                            "Should have found a char literal".to_string(),
                        ),
                    );
                }
            },
            Token::Quantifier { .. } => {
                return Err(
                    ParseError::UnexpectedToken(
                        tokens[j],
                        "Should have found a char literal".to_string(),
                    ),
                );
            },
        }
    }
    Ok((chars, j))
}

fn char_nodes(chars: Vec<Char>) -> (nodes: Vec<AstNode>)
    ensures
        node_views(nodes@) == char_atoms(chars@),
{
    let mut nodes: Vec<AstNode> = Vec::new();
    let mut k: usize = 0;
    while k < chars.len()
        invariant
            k <= chars.len(),
            node_views(nodes@) == char_atoms(chars@.take(k as int)),
        decreases chars.len() - k,
    {
        let ghost before = nodes@;
        nodes.push(AstNode::Char(chars[k]));
        k += 1;
        proof {
            let now = node_views(nodes@);
            let goal = char_atoms(chars@.take(k as int));
            lemma_node_views(nodes@);
            lemma_node_views(before);
            assert forall|j: int| 0 <= j < now.len() implies now[j] == goal[j] by {
                if j < k - 1 {
                    assert(now[j] == node_views(before)[j]);
                    assert(goal[j] == char_atoms(chars@.take(k - 1))[j]);
                }
            }
            assert(now =~= goal);
        }
    }
    assert(chars@.take(k as int) =~= chars@);
    nodes
}

fn parse_atom(tokens: &Vec<Token>, i: usize) -> (res: Result<(AstNode, usize), ParseError>)
    requires
        i < tokens.len(),
    ensures
        match (res, atom_at(tokens@, i as int)) {
            (Ok((node, next)), Ok((atom, n))) => node@ == atom && next == n && i < next
                <= tokens.len(),
            (Err(e), Err(expected)) => e@ == expected,
            _ => false,
        },
{
    let tok = tokens[i];
    match tok {
        Token::Char { val, .. } => Ok((AstNode::Char(val), i + 1)),
        Token::Quantifier { .. } => Err(
            ParseError::UnexpectedToken(tok, "Should have found a char literal".to_string()),
        ),
        Token::Anchor { val, .. } => match val {
            Anchor::Start => Err(
                ParseError::UnexpectedToken(
                    tok,
                    "Start anchor only allowed at the start of the string".to_string(),
                ),
            ),
            Anchor::End => Ok((AstNode::EndAnchor, i + 1)),
            Anchor::CharClassStart => match take_enclosed(tokens, i + 1, Anchor::CharClassEnd) {
                Ok((chars, next)) => Ok((AstNode::CharClass(chars), next)),
                Err(e) => Err(e),
            },
            Anchor::CharClassEnd => Err(
                ParseError::UnexpectedToken(
                    tok,
                    "Char class end anchor only allowed after char class start anchor".to_string(),
                ),
            ),
            Anchor::GroupStart => match take_enclosed(tokens, i + 1, Anchor::GroupEnd) {
                Ok((chars, next)) => Ok((AstNode::CaptureGroup(char_nodes(chars)), next)),
                Err(e) => Err(e),
            },
            Anchor::GroupEnd => Err(
                ParseError::UnexpectedToken(
                    tok,
                    "Group end anchor only allowed after group start anchor".to_string(),
                ),
            ),
        },
    }
}

/// Builds the syntax tree of a pattern from its tokens, in one pass from left
/// to right.
///
/// The result is a chain of atoms, each wrapped in the quantifier that follows
/// it, if one does. A `^` is accepted as the first token only and then wraps
/// the chain. A `$` is accepted as the last token only: whatever follows it,
/// a quantifier included, is an error. A `[` or `(` collects the character
/// tokens after it up to the matching `]` or `)`, or up to the end of the
/// tokens.
pub fn parse(tokens: Vec<Token>) -> (res: Result<AstNode, ParseError>)
    ensures
        match (res, parse_spec(tokens@)) {
            (Ok(node), Ok(tree)) => node@ == tree,
            (Err(e), Err(expected)) => e@ == expected,
            _ => false,
        },
{
    let mut chain: Vec<AstNode> = Vec::new();
    let mut ended = false;
    let mut i: usize = 0;
    let mut anchored = false;
    if tokens.len() > 0 {
        if let Token::Anchor { val: Anchor::Start, .. } = tokens[0] {
            anchored = true;
            i = 1;
        }
    }
    let ghost first = i as int;
    while i < tokens.len()
        invariant
            i <= tokens.len(),
            anchored == (tokens.len() > 0 && is_anchor(tokens[0], Anchor::Start)),
            first == if anchored { 1int } else { 0int },
            match (items_from(tokens@, first, false), items_from(tokens@, i as int, ended)) {
                (Ok(all), Ok(rest)) => all == node_views(chain@) + rest,
                (Err(e), Err(expected)) => e == expected,
                _ => false,
            },
        decreases tokens.len() - i,
    {
        if ended {
            return Err(
                ParseError::UnexpectedToken(
                    tokens[i],
                    "End anchor only allowed at the end of the string".to_string(),
                ),
            );
        }
        let ghost old_chain = chain@;
        let ghost before = node_views(chain@);
        let ghost here = i as int;
        match parse_atom(&tokens, i) {
            Err(e) => {
                return Err(e);
            },
            Ok((atom, next)) => {
                if let Token::Anchor { val: Anchor::End, .. } = tokens[i] {
                    ended = true;
                }
                i = next;
                let mut item = atom;
                if !ended && i < tokens.len() {
                    if let Token::Quantifier { val, .. } = tokens[i] {
                        item = AstNode::Quantifier(val, Box::new(item));
                        i += 1;
                    }
                }
                let ghost tree = item@;
                chain.push(item);
                proof {
                    assert(item_at(tokens@, here) == Ok::<(Ast, int), ParseErrorView>(
                        (tree, i as int),
                    ));
                    lemma_node_views(chain@);
                    lemma_node_views(chain@.drop_last());
                    assert(chain@.drop_last() =~= old_chain);
                    assert(node_views(chain@) =~= before.push(tree));
                    if let Ok(rest) = items_from(tokens@, i as int, ended) {
                        assert(before.push(tree) + rest =~= before + (seq![tree] + rest));
                    }
                }
            },
        }
    }
    proof {
        assert(node_views(chain@) + Seq::<Ast>::empty() =~= node_views(chain@));
        reveal_with_fuel(AstNode::tree, 3);
    }
    if anchored {
        Ok(AstNode::StartAnchor(Box::new(AstNode::Chain(chain))))
    } else {
        Ok(AstNode::Chain(chain))
    }
}

} // verus!
