//! Compiled patterns and the result of searching a text with one.

use crate::errors::{ParseError, ParseErrorView};
use crate::parser::{lemma_node_views, node_views, parse, parse_spec, Ast, AstNode};
use crate::semantics::{
    accepts, any_accepts, find_spec, first_match, in_class, lemma_match_node_bound, match_any,
    match_chain, match_node,
};
use crate::text::chars_of;
use crate::tokenizer::{tokenize, tokenize_spec, Char, EscapeChar, Quantifier};
use vstd::prelude::*;

verus! {

/// The outcome of one search.
#[derive(Debug)]
pub struct Match {
    is_match: bool,
    matched: Option<String>,
    start: usize,
    end: usize,
}

/// A `Match` as a mathematical value.
pub ghost struct MatchView {
    /// Whether the pattern matched.
    pub is_match: bool,
    /// The matched part of the text, if the pattern matched.
    pub matched: Option<Seq<char>>,
    /// The offset of the first matched character.
    pub start: nat,
    /// The offset of the first character after the match.
    pub end: nat,
}

/// The outcome of a search that found nothing: no match, zero offsets and no
/// text.
pub open spec fn no_match() -> MatchView {
    MatchView { is_match: false, matched: None, start: 0, end: 0 }
}

/// The outcome that reports `found` for a search in `text`: the two offsets
/// and the part of `text` between them, or `no_match()`.
pub open spec fn outcome(text: Seq<char>, found: Option<(nat, nat)>) -> MatchView {
    match found {
        Some((start, end)) => MatchView {
            is_match: true,
            matched: Some(text.subrange(start as int, end as int)),
            start,
            end,
        },
        None => no_match(),
    }
}

impl View for Match {
    type V = MatchView;

    closed spec fn view(&self) -> MatchView {
        MatchView {
            is_match: self.is_match,
            matched: match self.matched {
                Some(s) => Some(s@),
                None => None,
            },
            start: self.start as nat,
            end: self.end as nat,
        }
    }
}

impl Default for Match {
    /// No match, zero offsets and no text.
    fn default() -> (m: Match)
        ensures
            m@ == no_match(),
    {
        Match { is_match: false, matched: None, start: 0, end: 0 }
    }
}

impl Match {
    /// The offsets of the first matched character and of the first character
    /// after the match.
    pub fn range(&self) -> (r: (usize, usize))
        ensures
            r.0 == self@.start,
            r.1 == self@.end,
    {
        (self.start, self.end)
    }

    /// The matched part of the text, if the pattern matched.
    pub fn matched(&self) -> (r: Option<&str>)
        ensures
            match (r, self@.matched) {
                (Some(s), Some(m)) => s@ == m,
                (None, None) => true,
                _ => false,
            },
    {
        match &self.matched {
            Some(s) => Some(s.as_str()),
            None => None,
        }
    }

    /// Whether the pattern matched.
    pub fn is_match(&self) -> (b: bool)
        ensures
            b == self@.is_match,
    {
        self.is_match
    }
}

/// The tree that `pattern` compiles to, or the first error in it.
pub open spec fn compile_spec(pattern: Seq<char>) -> Result<Ast, ParseErrorView> {
    match tokenize_spec(pattern) {
        Ok(tokens) => parse_spec(tokens),
        Err(e) => Err(e),
    }
}

/// A compiled pattern.
#[derive(Debug)]
pub struct Regex {
    ast: AstNode,
}

impl View for Regex {
    type V = Ast;

    closed spec fn view(&self) -> Ast {
        self.ast@
    }
}

fn in_named_class(class: EscapeChar, c: char) -> (b: bool)
    ensures
        b == in_class(class, c),
{
    let digit = '0' <= c && c <= '9';
    let space = c == ' ' || c == '\t' || c == '\n' || c == '\x0B' || c == '\x0C' || c == '\r';
    let word = ('a' <= c && c <= 'z') || ('A' <= c && c <= 'Z') || digit || c == '_';
    match class {
        EscapeChar::Digit => digit,
        EscapeChar::NotDigit => !digit,
        EscapeChar::Space => space,
        EscapeChar::NotSpace => !space,
        EscapeChar::Word => word,
        EscapeChar::NotWord => !word,
        EscapeChar::Newline => c == '\n',
        EscapeChar::Tab => c == '\t',
        EscapeChar::Null => c == '\0',
    }
}

fn rule_accepts(rule: &Char, c: char) -> (b: bool)
    ensures
        b == accepts(*rule, c),
{
    match rule {
        Char::Lit(lit) => c == *lit,
        Char::Dot => true,
        Char::Escape(class) => in_named_class(*class, c),
    }
}

fn some_rule_accepts(rules: &Vec<Char>, c: char) -> (b: bool)
    ensures
        b == any_accepts(rules@, c),
{
    let mut i: usize = 0;
    while i < rules.len()
        invariant
            i <= rules.len(),
            forall|k: int| 0 <= k < i ==> !accepts(#[trigger] rules[k], c),
        decreases rules.len() - i,
    {
        if rule_accepts(&rules[i], c) {
            return true;
        }
        i += 1;
    }
    false
}

/// Whether `res` is `expected` when each is counted from offset `at` of a text
/// of `len` characters, and the match ends within the text.
pub open spec fn consumed_is(res: Option<usize>, expected: Option<nat>, at: usize, len: nat) -> bool {
    match (res, expected) {
        (Some(n), Some(m)) => n == m && at + n <= len,
        (None, None) => true,
        _ => false,
    }
}

proof fn lemma_skip_skip(text: Seq<char>, at: int, n: int)
    requires
        0 <= at,
        0 <= n,
        at + n <= text.len(),
    ensures
        text.skip(at).skip(n) == text.skip(at + n),
{
    assert(text.skip(at).skip(n) =~= text.skip(at + n));
}

/// Whether `found` holds the offsets `expected`, within a text of `len` characters.
pub open spec fn offsets_are(
    found: Option<(usize, usize)>,
    expected: Option<(nat, nat)>,
    len: nat,
) -> bool {
    match (found, expected) {
        (Some((start, end)), Some((s, e))) => start == s && end == e && start <= end <= len,
        (None, None) => true,
        _ => false,
    }
}

impl Regex {
    /// Compiles `pattern`: splits it into tokens and parses them. Fails with
    /// the first malformed escape or, if there is none, with the first token
    /// that the grammar does not allow.
    pub fn new(pattern: &str) -> (res: Result<Regex, ParseError>)
        ensures
            match (res, compile_spec(pattern@)) {
                (Ok(regex), Ok(tree)) => regex@ == tree,
                (Err(e), Err(expected)) => e@ == expected,
                _ => false,
            },
    {
        match tokenize(pattern.to_string()) {
            Ok(tokens) => match parse(tokens) {
                Ok(ast) => Ok(Regex { ast }),
                Err(e) => Err(e),
            },
            Err(e) => Err(e),
        }
    }

    /// Searches `s` for the pattern and reports where it matches first. The
    /// offsets count characters.
    pub fn find(&self, s: &str) -> (m: Match)
        ensures
            m@ == outcome(s@, find_spec(self@, s@)),
    {
        let text = chars_of(s);
        match self.locate(&text) {
            Some((start, end)) => Match {
                is_match: true,
                matched: Some(s.substring_char(start, end).to_string()),
                start,
                end,
            },
            None => Match::default(),
        }
    }

    /// Whether the pattern matches somewhere in `s`.
    pub fn is_match(&self, s: &str) -> (b: bool)
        ensures
            b == find_spec(self@, s@).is_some(),
    {
        let text = chars_of(s);
        self.locate(&text).is_some()
    }

    /// The offsets at which the pattern matches first in `text`.
    fn locate(&self, text: &Vec<char>) -> (found: Option<(usize, usize)>)
        ensures
            offsets_are(found, find_spec(self@, text@), text@.len()),
    {
        match &self.ast {
            AstNode::StartAnchor(child) => {
                proof {
                    assert(text@.skip(0) =~= text@);
                }
                match self.match_node(child, text, 0) {
                    Some(n) => Some((0, n)),
                    None => None,
                }
            },
            _ => {
                let mut i: usize = 0;
                loop
                    invariant
                        i <= text.len(),
                        !(self.ast is StartAnchor),
                        first_match(self@, text@, 0) == first_match(self@, text@, i as int),
                    decreases text.len() - i,
                {
                    match self.match_node(&self.ast, text, i) {
                        Some(n) => {
                            return Some((i, i + n));
                        },
                        None => {},
                    }
                    if i == text.len() {
                        assert(first_match(self@, text@, i + 1) is None);
                        return None;
                    }
                    i += 1;
                }
            },
        }
    }

    /// Matches `node` at offset `at` of `text`.
    fn match_node(&self, node: &AstNode, text: &Vec<char>, at: usize) -> (res: Option<usize>)
        requires
            at <= text.len(),
        ensures
            consumed_is(res, match_node(node@, text@.skip(at as int)), at, text@.len()),
        decreases node, text.len() - at, 0int,
    {
        proof {
            lemma_match_node_bound(node@, text@.skip(at as int));
        }
        match node {
            AstNode::Char(rule) => {
                if at < text.len() && rule_accepts(rule, text[at]) {
                    Some(1)
                } else {
                    None
                }
            },
            AstNode::CharClass(rules) => {
                if at < text.len() && some_rule_accepts(rules, text[at]) {
                    Some(1)
                } else {
                    None
                }
            },
            AstNode::Chain(nodes) => self.match_chain(nodes, text, at),
            AstNode::CaptureGroup(nodes) => self.match_chain(nodes, text, at),
            AstNode::Quantifier(q, child) => self.match_quantifier(*q, child, text, at),
            AstNode::EndAnchor => {
                if at == text.len() {
                    Some(0)
                } else {
                    None
                }
            },
            AstNode::StartAnchor(_) => None,
        }
    }

    /// Matches the nodes one after another, starting at offset `at` of `text`.
    fn match_chain(&self, nodes: &Vec<AstNode>, text: &Vec<char>, at: usize) -> (res: Option<
        usize,
    >)
        requires
            at <= text.len(),
        ensures
            consumed_is(
                res,
                match_chain(node_views(nodes@), text@.skip(at as int)),
                at,
                text@.len(),
            ),
        decreases nodes, text.len() - at, 0int,
    {
        let ghost trees = node_views(nodes@);
        let ghost s = text@.skip(at as int);
        let mut total: usize = 0;
        let mut i: usize = 0;
        proof {
            lemma_node_views(nodes@);
            assert(trees.skip(0) =~= trees);
            assert(s.skip(0) =~= s);
        }
        while i < nodes.len()
            invariant
                i <= nodes.len(),
                at + total <= text.len(),
                trees == node_views(nodes@),
                trees.len() == nodes.len(),
                forall|k: int| 0 <= k < nodes.len() ==> #[trigger] trees[k] == nodes[k]@,
                s == text@.skip(at as int),
                match_chain(trees, s) == match match_chain(
                    trees.skip(i as int),
                    s.skip(total as int),
                ) {
                    Some(m) => Some((total + m) as nat),
                    None => None,
                },
            decreases nodes.len() - i,
        {
            proof {
                lemma_skip_skip(text@, at as int, total as int);
                assert(trees.skip(i as int).drop_first() =~= trees.skip(i + 1));
                assert(trees.skip(i as int)[0] == nodes[i as int]@);
            }
            match self.match_node(&nodes[i], text, at + total) {
                Some(n) => {
                    proof {
                        lemma_skip_skip(s, total as int, n as int);
                    }
                    total += n;
                },
                None => {
                    return None;
                },
            }
            i += 1;
        }
        Some(total)
    }

    /// Matches `node`, repeated as `quantifier` says, at offset `at` of `text`.
    fn match_quantifier(
        &self,
        quantifier: Quantifier,
        node: &AstNode,
        text: &Vec<char>,
        at: usize,
    ) -> (res: Option<usize>)
        requires
            at <= text.len(),
        ensures
            consumed_is(
                res,
                match_node(Ast::Quantifier(quantifier, Box::new(node@)), text@.skip(at as int)),
                at,
                text@.len(),
            ),
        decreases node, text.len() - at, 3int,
    {
        match quantifier {
            Quantifier::Any => self.match_any(node, text, at),
            Quantifier::Many => self.match_many(node, text, at),
            Quantifier::Maybe => self.match_option(node, text, at),
        }
    }

    /// Matches `node` as often as it goes on consuming characters.
    fn match_any(&self, node: &AstNode, text: &Vec<char>, at: usize) -> (res: Option<usize>)
        requires
            at <= text.len(),
        ensures
            consumed_is(res, Some(match_any(node@, text@.skip(at as int))), at, text@.len()),
        decreases node, text.len() - at, 1int,
    {
        let ghost s = text@.skip(at as int);
        let mut count: usize = 0;
        let mut advancing = true;
        proof {
            assert(s.skip(0) =~= s);
        }
        while advancing
            invariant
                at + count <= text.len(),
                s == text@.skip(at as int),
                match_any(node@, s) == count + match_any(node@, s.skip(count as int)),
                !advancing ==> match_any(node@, s.skip(count as int)) == 0,
            decreases text.len() - at - count, if advancing { 1int } else { 0int },
        {
            proof {
                lemma_skip_skip(text@, at as int, count as int);
            }
            match self.match_node(node, text, at + count) {
                Some(n) => {
                    if n == 0 {
                        advancing = false;
                    } else {
                        proof {
                            lemma_skip_skip(s, count as int, n as int);
                        }
                        count += n;
                    }
                },
                None => {
                    advancing = false;
                },
            }
        }
        Some(count)
    }

    /// Matches `node` once, and then as often as it goes on consuming characters.
    fn match_many(&self, node: &AstNode, text: &Vec<char>, at: usize) -> (res: Option<usize>)
        requires
            at <= text.len(),
        ensures
            consumed_is(
                res,
                match_node(Ast::Quantifier(Quantifier::Many, Box::new(node@)), text@.skip(at as int)),
                at,
                text@.len(),
            ),
        decreases node, text.len() - at, 2int,
    {
        match self.match_node(node, text, at) {
            Some(first_len) => {
                proof {
                    lemma_skip_skip(text@, at as int, first_len as int);
                }
                match self.match_any(node, text, at + first_len) {
                    Some(rest_len) => Some(first_len + rest_len),
                    None => Some(first_len),
                }
            },
            None => None,
        }
    }

    /// Matches `node` once if it matches, and nothing otherwise.
    fn match_option(&self, node: &AstNode, text: &Vec<char>, at: usize) -> (res: Option<usize>)
        requires
            at <= text.len(),
        ensures
            consumed_is(
                res,
                match_node(
                    Ast::Quantifier(Quantifier::Maybe, Box::new(node@)),
                    text@.skip(at as int),
                ),
                at,
                text@.len(),
            ),
        decreases node, text.len() - at, 2int,
    {
        match self.match_node(node, text, at) {
            Some(n) => Some(n),
            None => Some(0),
        }
    }
}

} // verus!
