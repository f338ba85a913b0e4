//! The parser: tokens to a syntax tree of rules, at-rules, declarations and comments.
//!
//! Each parsing function is described by a spec function over the token views
//! and a position; each returns the result and the position after it.

use vstd::prelude::*;
use crate::lexer::{Token, TokenKind, TokenView, token_views};
use crate::text::{decimal, extend_with_str, is_white_space, push_decimal, string_from_chars, trim, trim_chars, trim_end, trim_start};

verus! {

/// A parsed style sheet: its top-level nodes in order.
#[derive(Debug)]
pub struct AST {
    pub body: Vec<Node>,
}

/// A node of the tree; rules and block at-rules have children.
#[derive(Debug)]
pub struct Node {
    pub _type: NodeKind,
    pub children: Option<Vec<Node>>,
}

/// What a node is, with its text.
#[derive(Debug, PartialEq, Clone)]
pub enum NodeKind {
    Rule { selector: String },
    Declaration { property: String, value: String },
    AtRule { name: String, params: String },
    Comment { text: String },
}

/// A node kind as the specifications see it.
pub enum NodeKindView {
    Rule { selector: Seq<char> },
    Declaration { property: Seq<char>, value: Seq<char> },
    AtRule { name: Seq<char>, params: Seq<char> },
    Comment { text: Seq<char> },
}

/// A node as the specifications see it.
pub struct NodeView {
    pub kind: NodeKindView,
    pub children: Option<Seq<NodeView>>,
}

impl View for NodeKind {
    type V = NodeKindView;

    open spec fn view(&self) -> NodeKindView {
        match self {
            NodeKind::Rule { selector } => NodeKindView::Rule { selector: selector@ },
            NodeKind::Declaration { property, value } => NodeKindView::Declaration {
                property: property@,
                value: value@,
            },
            NodeKind::AtRule { name, params } => NodeKindView::AtRule { name: name@, params: params@ },
            NodeKind::Comment { text } => NodeKindView::Comment { text: text@ },
        }
    }
}

/// The view of a node, with the views of its children.
pub open spec fn node_view(n: Node) -> NodeView
    decreases n,
{
    NodeView {
        kind: n._type@,
        children: match n.children {
            Some(v) => Some(nodes_view(v@)),
            None => None,
        },
    }
}

/// The views of a sequence of nodes.
pub open spec fn nodes_view(s: Seq<Node>) -> Seq<NodeView>
    decreases s,
{
    if s.len() == 0 {
        Seq::empty()
    } else {
        nodes_view(s.subrange(0, s.len() - 1)).push(node_view(s[s.len() - 1]))
    }
}

impl View for Node {
    type V = NodeView;

    open spec fn view(&self) -> NodeView {
        node_view(*self)
    }
}

impl View for AST {
    type V = Seq<NodeView>;

    open spec fn view(&self) -> Seq<NodeView> {
        nodes_view(self.body@)
    }
}

impl Node {
    pub fn new(_type: NodeKind, children: Option<Vec<Node>>) -> (n: Self)
        ensures
            n._type == _type,
            n.children == children,
    {
        Self { _type, children }
    }
}


/// A copy of a node kind.
fn clone_kind(k: &NodeKind) -> (r: NodeKind)
    ensures
        r@ == k@,
{
    match k {
        NodeKind::Rule { selector } => NodeKind::Rule { selector: selector.clone() },
        NodeKind::Declaration { property, value } => NodeKind::Declaration {
            property: property.clone(),
            value: value.clone(),
        },
        NodeKind::AtRule { name, params } => NodeKind::AtRule { name: name.clone(), params: params.clone() },
        NodeKind::Comment { text } => NodeKind::Comment { text: text.clone() },
    }
}

/// A copy of `n` and of all the nodes below it.
fn clone_node(n: &Node) -> (r: Node)
    ensures
        r@ == n@,
    decreases n,
{
    let kind = clone_kind(&n._type);
    match &n.children {
        None => Node::new(kind, None),
        Some(children) => {
            let copies = clone_nodes(children);
            Node::new(kind, Some(copies))
        },
    }
}

/// Copies of the nodes of `v`, in order.
fn clone_nodes(v: &Vec<Node>) -> (r: Vec<Node>)
    ensures
        nodes_view(r@) == nodes_view(v@),
    decreases v,
{
    let mut r: Vec<Node> = Vec::new();
    let n = v.len();
    assert(nodes_view(r@) =~= nodes_view(v@.take(0)));
    for i in 0..n
        invariant
            n == v@.len(),
            nodes_view(r@) == nodes_view(v@.take(i as int)),
    {
        let ghost before = r@;
        assert(decreases_to!(v => v@[i as int]));
        let c = clone_node(&v[i]);
        r.push(c);
        proof {
            lemma_nodes_view_push(before, c);
            lemma_nodes_view_push(v@.take(i as int), v@[i as int]);
            assert(v@.take(i + 1) == v@.take(i as int).push(v@[i as int]));
        }
    }
    assert(v@.take(n as int) == v@);
    r
}

impl Clone for Node {
    /// A copy of the node and of all the nodes below it.
    fn clone(&self) -> (r: Self)
        ensures
            r@ == self@,
    {
        clone_node(self)
    }
}

impl Clone for AST {
    /// A copy of the whole tree.
    fn clone(&self) -> (r: Self)
        ensures
            r@ == self@,
    {
        AST { body: clone_nodes(&self.body) }
    }
}

/// Why parsing failed.
#[derive(Debug, PartialEq, Eq, Clone, Copy, Structural)]
pub enum ParseError {
    UnexpectedToken { expected: TokenKind, found: TokenKind, line: usize, column: usize },
    InvalidSelector { line: usize, column: usize },
    UnexpectedEOF,
}

/// The name of a token kind, as its `Debug` form prints it.
pub open spec fn kind_name(k: TokenKind) -> Seq<char> {
    match k {
        TokenKind::Equals => "Equals"@,
        TokenKind::ParenOpen => "ParenOpen"@,
        TokenKind::ParenClose => "ParenClose"@,
        TokenKind::BracketOpen => "BracketOpen"@,
        TokenKind::BracketClose => "BracketClose"@,
        TokenKind::AtRule => "AtRule"@,
        TokenKind::Comment => "Comment"@,
        TokenKind::Identifier => "Identifier"@,
        TokenKind::String => "String"@,
        TokenKind::Comma => "Comma"@,
        TokenKind::ClassSelector => "ClassSelector"@,
        TokenKind::IdSelector => "IdSelector"@,
        TokenKind::TypeSelector => "TypeSelector"@,
        TokenKind::UniversalSelector => "UniversalSelector"@,
        TokenKind::PseudoClass => "PseudoClass"@,
        TokenKind::PseudoElement => "PseudoElement"@,
        TokenKind::Combinator => "Combinator"@,
        TokenKind::Number => "Number"@,
        TokenKind::Percentage => "Percentage"@,
        TokenKind::Dimension => "Dimension"@,
        TokenKind::Colon => "Colon"@,
        TokenKind::Semicolon => "Semicolon"@,
        TokenKind::CurlyOpen => "CurlyOpen"@,
        TokenKind::CurlyClose => "CurlyClose"@,
        TokenKind::Whitespace => "Whitespace"@,
    }
}

fn kind_str(k: TokenKind) -> (r: &'static str)
    ensures
        r@ == kind_name(k),
{
    match k {
        TokenKind::Equals => "Equals",
        TokenKind::ParenOpen => "ParenOpen",
        TokenKind::ParenClose => "ParenClose",
        TokenKind::BracketOpen => "BracketOpen",
        TokenKind::BracketClose => "BracketClose",
        TokenKind::AtRule => "AtRule",
        TokenKind::Comment => "Comment",
        TokenKind::Identifier => "Identifier",
        TokenKind::String => "String",
        TokenKind::Comma => "Comma",
        TokenKind::ClassSelector => "ClassSelector",
        TokenKind::IdSelector => "IdSelector",
        TokenKind::TypeSelector => "TypeSelector",
        TokenKind::UniversalSelector => "UniversalSelector",
        TokenKind::PseudoClass => "PseudoClass",
        TokenKind::PseudoElement => "PseudoElement",
        TokenKind::Combinator => "Combinator",
        TokenKind::Number => "Number",
        TokenKind::Percentage => "Percentage",
        TokenKind::Dimension => "Dimension",
        TokenKind::Colon => "Colon",
        TokenKind::Semicolon => "Semicolon",
        TokenKind::CurlyOpen => "CurlyOpen",
        TokenKind::CurlyClose => "CurlyClose",
        TokenKind::Whitespace => "Whitespace",
    }
}

/// The message that describes a parse error.
pub open spec fn error_message(e: ParseError) -> Seq<char> {
    match e {
        ParseError::UnexpectedToken { expected, found, line, column } => "Expected "@ + kind_name(expected)
            + " but found "@ + kind_name(found) + " at line "@ + decimal(line as nat) + ", column "@
            + decimal(column as nat) + " "@,
        ParseError::UnexpectedEOF => "Unexpected end of input"@,
        ParseError::InvalidSelector { line, column } => "Invalid selector at line "@ + decimal(line as nat)
            + ", column "@ + decimal(column as nat),
    }
}

impl ParseError {
    /// The message that describes this error.
    pub fn to_string(&self) -> (s: String)
        ensures
            s@ == error_message(*self),
    {
        let mut s = String::new();
        match self {
            ParseError::UnexpectedToken { expected, found, line, column } => {
                s.append("Expected ");
                s.append(kind_str(*expected));
                s.append(" but found ");
                s.append(kind_str(*found));
                s.append(" at line ");
                push_decimal(&mut s, *line);
                s.append(", column ");
                push_decimal(&mut s, *column);
                s.append(" ");
            },
            ParseError::UnexpectedEOF => {
                s.append("Unexpected end of input");
            },
            ParseError::InvalidSelector { line, column } => {
                s.append("Invalid selector at line ");
                push_decimal(&mut s, *line);
                s.append(", column ");
                push_decimal(&mut s, *column);
            },
        }
        s
    }
}

/// The tokens a parser result covers end at the second component.
pub type Parsed<T> = (Result<T, ParseError>, int);

/// Line and column of the token at `p`, or `(0, 0)` past the end.
pub open spec fn position_at(t: Seq<TokenView>, p: int) -> (int, int) {
    if 0 <= p < t.len() {
        (t[p].line, t[p].column)
    } else {
        (0, 0)
    }
}

/// An `UnexpectedToken` error.
pub open spec fn unexpected(expected: TokenKind, found: TokenKind, pos: (int, int)) -> ParseError {
    ParseError::UnexpectedToken { expected, found, line: pos.0 as usize, column: pos.1 as usize }
}

/// An `InvalidSelector` error.
pub open spec fn invalid_selector(pos: (int, int)) -> ParseError {
    ParseError::InvalidSelector { line: pos.0 as usize, column: pos.1 as usize }
}

/// A token of `kind` stands at `p`.
pub open spec fn kind_at(t: Seq<TokenView>, p: int, kind: TokenKind) -> bool {
    0 <= p < t.len() && t[p].kind == kind
}

/// The first position from `p` on that does not hold a white-space token.
pub open spec fn skip_whitespace_from(t: Seq<TokenView>, p: int) -> int
    decreases t.len() - p,
{
    if kind_at(t, p, TokenKind::Whitespace) {
        skip_whitespace_from(t, p + 1)
    } else {
        p
    }
}

/// Selector text: the token texts up to the next `{`, each white-space token
/// read as one space.
pub open spec fn selector_scan(t: Seq<TokenView>, p: int, acc: Seq<char>) -> (Seq<char>, int)
    decreases t.len() - p,
{
    if p < 0 || p >= t.len() || t[p].kind == TokenKind::CurlyOpen {
        (acc, p)
    } else if t[p].kind == TokenKind::Whitespace {
        selector_scan(t, p + 1, acc.push(' '))
    } else {
        selector_scan(t, p + 1, acc + t[p].value)
    }
}

/// At-rule parameters: the token texts up to the next `{` or `;`, each
/// white-space token read as one space.
pub open spec fn params_scan(t: Seq<TokenView>, p: int, acc: Seq<char>) -> (Seq<char>, int)
    decreases t.len() - p,
{
    if p < 0 || p >= t.len() || t[p].kind == TokenKind::CurlyOpen || t[p].kind
        == TokenKind::Semicolon {
        (acc, p)
    } else if t[p].kind == TokenKind::Whitespace {
        params_scan(t, p + 1, acc.push(' '))
    } else {
        params_scan(t, p + 1, acc + t[p].value)
    }
}

/// The kinds of token whose text makes up a declaration's value.
pub open spec fn is_value_kind(k: TokenKind) -> bool {
    ||| k == TokenKind::Identifier
    ||| k == TokenKind::Dimension
    ||| k == TokenKind::Number
    ||| k == TokenKind::ParenOpen
    ||| k == TokenKind::ParenClose
    ||| k == TokenKind::Comma
    ||| k == TokenKind::String
    ||| k == TokenKind::Percentage
}

/// Declaration value text: value tokens' texts, and one space for a run of
/// white space (none where the text so far already ends with a space); stops at
/// any other token.
pub open spec fn value_scan(t: Seq<TokenView>, p: int, acc: Seq<char>) -> (Seq<char>, int)
    decreases t.len() - p,
{
    if p < 0 || p >= t.len() {
        (acc, p)
    } else if is_value_kind(t[p].kind) {
        value_scan(t, p + 1, acc + t[p].value)
    } else if t[p].kind == TokenKind::Whitespace {
        value_scan(t, p + 1, if acc.len() > 0 && acc.last() == ' ' { acc } else { acc.push(' ') })
    } else {
        (acc, p)
    }
}

/// A selector: its trimmed text, which must not be empty.
pub open spec fn parse_selector_spec(t: Seq<TokenView>, p: int) -> Parsed<Seq<char>> {
    let (raw, q) = selector_scan(t, p, Seq::empty());
    if trim(raw).len() == 0 {
        (Err(invalid_selector(position_at(t, p))), q)
    } else {
        (Ok(trim(raw)), q)
    }
}

/// A property: one identifier; nothing at the end of the tokens.
pub open spec fn parse_property_spec(t: Seq<TokenView>, p: int) -> Parsed<Seq<char>> {
    if p < 0 || p >= t.len() {
        (Ok(Seq::empty()), p)
    } else if t[p].kind == TokenKind::Identifier {
        (Ok(t[p].value), p + 1)
    } else {
        (Err(unexpected(TokenKind::Identifier, t[p].kind, position_at(t, p))), p)
    }
}

/// A value: its trimmed text, which must not be empty.
pub open spec fn parse_value_spec(t: Seq<TokenView>, p: int) -> Parsed<Seq<char>> {
    let (raw, q) = value_scan(t, p, Seq::empty());
    if trim(raw).len() == 0 {
        if 0 <= q < t.len() {
            (Err(unexpected(TokenKind::Identifier, t[q].kind, position_at(t, p))), q)
        } else {
            (Err(ParseError::UnexpectedEOF), q)
        }
    } else {
        (Ok(trim(raw)), q)
    }
}

/// `property: value;`
pub open spec fn parse_declaration_spec(t: Seq<TokenView>, p: int) -> Parsed<NodeView> {
    let (prop, p1) = parse_property_spec(t, p);
    match prop {
        Err(e) => (Err(e), p1),
        Ok(property) => if !kind_at(t, p1, TokenKind::Colon) {
            (Err(ParseError::UnexpectedEOF), p1)
        } else {
            let p2 = skip_whitespace_from(t, p1 + 1);
            let (val, p3) = parse_value_spec(t, p2);
            match val {
                Err(e) => (Err(e), p3),
                Ok(value) => if !kind_at(t, p3, TokenKind::Semicolon) {
                    (Err(ParseError::UnexpectedEOF), p3)
                } else {
                    (
                        Ok(NodeView { kind: NodeKindView::Declaration { property, value }, children: None }),
                        p3 + 1,
                    )
                },
            }
        },
    }
}

/// The declarations of a rule's block, from `p` to its `}` (or the end of the
/// tokens), after those already in `acc`.
pub open spec fn declaration_items(t: Seq<TokenView>, p: int, acc: Seq<NodeView>) -> Parsed<Seq<NodeView>>
    decreases t.len() - p,
{
    if p < 0 || p >= t.len() {
        (Ok(acc), p)
    } else if t[p].kind == TokenKind::CurlyClose {
        (Ok(acc), p + 1)
    } else if t[p].kind == TokenKind::Whitespace {
        declaration_items(t, p + 1, acc)
    } else {
        let (d, q) = parse_declaration_spec(t, p);
        match d {
            Err(e) => (Err(e), q),
            Ok(n) => {
                proof {
                    lemma_declaration_progress(t, p);
                }
                declaration_items(t, q, acc.push(n))
            },
        }
    }
}

/// A rule's block: the token at `p` (its `{`) is passed over.
pub open spec fn rule_block_spec(t: Seq<TokenView>, p: int) -> Parsed<Seq<NodeView>> {
    if p < 0 || p >= t.len() {
        (Err(ParseError::UnexpectedEOF), p)
    } else {
        declaration_items(t, p + 1, Seq::empty())
    }
}

/// `selector { declarations }`
pub open spec fn parse_rule_spec(t: Seq<TokenView>, p: int) -> Parsed<NodeView> {
    let (sel, p1) = parse_selector_spec(t, p);
    match sel {
        Err(e) => (Err(e), p1),
        Ok(selector) => {
            let (ch, p2) = rule_block_spec(t, p1);
            match ch {
                Err(e) => (Err(e), p2),
                Ok(children) => (Ok(NodeView { kind: NodeKindView::Rule { selector }, children: Some(children) }), p2),
            }
        },
    }
}

/// The rules of an at-rule's block, from `p` to its `}` (or the end of the
/// tokens), after those already in `acc`.
pub open spec fn rule_items(t: Seq<TokenView>, p: int, acc: Seq<NodeView>) -> Parsed<Seq<NodeView>>
    decreases t.len() - p,
{
    if p < 0 || p >= t.len() {
        (Ok(acc), p)
    } else if t[p].kind == TokenKind::CurlyClose {
        (Ok(acc), p + 1)
    } else if t[p].kind == TokenKind::Whitespace {
        rule_items(t, p + 1, acc)
    } else {
        let (r, q) = parse_rule_spec(t, p);
        match r {
            Err(e) => (Err(e), q),
            Ok(n) => {
                proof {
                    lemma_rule_progress(t, p);
                }
                rule_items(t, q, acc.push(n))
            },
        }
    }
}

/// An at-rule's block: the token at `p` (its `{`) is passed over.
pub open spec fn at_rule_block_spec(t: Seq<TokenView>, p: int) -> Parsed<Seq<NodeView>> {
    if p < 0 || p >= t.len() {
        (Err(ParseError::UnexpectedEOF), p)
    } else {
        rule_items(t, p + 1, Seq::empty())
    }
}

/// `@name params;` or `@name params { rules }`
pub open spec fn parse_at_rule_spec(t: Seq<TokenView>, p: int) -> Parsed<NodeView> {
    if p < 0 || p >= t.len() {
        (Err(ParseError::UnexpectedEOF), p)
    } else {
        let name = t[p].value;
        let p1 = skip_whitespace_from(t, p + 1);
        let (raw, p2) = params_scan(t, p1, Seq::empty());
        let params = trim(raw);
        if kind_at(t, p2, TokenKind::Semicolon) {
            (Ok(NodeView { kind: NodeKindView::AtRule { name, params }, children: None }), p2 + 1)
        } else if kind_at(t, p2, TokenKind::CurlyOpen) {
            let (ch, p3) = at_rule_block_spec(t, p2);
            match ch {
                Err(e) => (Err(e), p3),
                Ok(children) => (Ok(NodeView { kind: NodeKindView::AtRule { name, params }, children: Some(children) }), p3),
            }
        } else {
            (Err(ParseError::UnexpectedEOF), p2)
        }
    }
}

/// A comment token.
pub open spec fn parse_comment_spec(t: Seq<TokenView>, p: int) -> Parsed<NodeView> {
    if p < 0 || p >= t.len() {
        (Err(ParseError::UnexpectedEOF), p)
    } else if t[p].kind == TokenKind::Comment {
        (Ok(NodeView { kind: NodeKindView::Comment { text: t[p].value }, children: None }), p + 1)
    } else {
        (Err(unexpected(TokenKind::Comment, t[p].kind, position_at(t, p))), p)
    }
}

/// The kinds of token that start a rule at the top level.
pub open spec fn starts_rule(k: TokenKind) -> bool {
    ||| k == TokenKind::TypeSelector
    ||| k == TokenKind::ClassSelector
    ||| k == TokenKind::IdSelector
    ||| k == TokenKind::UniversalSelector
    ||| k == TokenKind::Identifier
}

/// The top-level nodes from `p` to the end of the tokens, after those in `acc`.
/// White space and tokens that start nothing are passed over; a `{` where a
/// selector should be is an invalid selector.
pub open spec fn ast_items(t: Seq<TokenView>, p: int, acc: Seq<NodeView>) -> Parsed<Seq<NodeView>>
    decreases t.len() - p,
{
    if p < 0 || p >= t.len() {
        (Ok(acc), p)
    } else if starts_rule(t[p].kind) {
        let (r, q) = parse_rule_spec(t, p);
        match r {
            Err(e) => (Err(e), q),
            Ok(n) => {
                proof {
                    lemma_rule_progress(t, p);
                }
                ast_items(t, q, acc.push(n))
            },
        }
    } else if t[p].kind == TokenKind::AtRule {
        let (r, q) = parse_at_rule_spec(t, p);
        match r {
            Err(e) => (Err(e), q),
            Ok(n) => {
                proof {
                    lemma_at_rule_progress(t, p);
                }
                ast_items(t, q, acc.push(n))
            },
        }
    } else if t[p].kind == TokenKind::CurlyOpen {
        (Err(invalid_selector(position_at(t, p))), p)
    } else if t[p].kind == TokenKind::Comment {
        ast_items(t, p + 1, acc.push(NodeView { kind: NodeKindView::Comment { text: t[p].value }, children: None }))
    } else {
        ast_items(t, p + 1, acc)
    }
}

/// The whole style sheet from `p` on.
pub open spec fn parse_spec(t: Seq<TokenView>, p: int) -> Parsed<Seq<NodeView>> {
    ast_items(t, p, Seq::empty())
}

pub proof fn lemma_trim_len(s: Seq<char>)
    ensures
        trim(s).len() <= s.len(),
{
    assert(trim_start(s).len() <= s.len()) by {
        lemma_trim_start_len(s);
    }
    lemma_trim_end_len(trim_start(s));
}

pub proof fn lemma_trim_start_len(s: Seq<char>)
    ensures
        trim_start(s).len() <= s.len(),
    decreases s.len(),
{
    if s.len() > 0 && is_white_space(s[0]) {
        lemma_trim_start_len(s.drop_first());
    }
}

pub proof fn lemma_trim_end_len(s: Seq<char>)
    ensures
        trim_end(s).len() <= s.len(),
    decreases s.len(),
{
    if s.len() > 0 && is_white_space(s.last()) {
        lemma_trim_end_len(s.drop_last());
    }
}

pub proof fn lemma_skip_whitespace_pos(t: Seq<TokenView>, p: int)
    ensures
        p <= skip_whitespace_from(t, p),
        0 <= p <= t.len() ==> skip_whitespace_from(t, p) <= t.len(),
    decreases t.len() - p,
{
    if kind_at(t, p, TokenKind::Whitespace) {
        lemma_skip_whitespace_pos(t, p + 1);
    }
}

pub proof fn lemma_selector_scan_pos(t: Seq<TokenView>, p: int, acc: Seq<char>)
    ensures
        p <= selector_scan(t, p, acc).1,
        0 <= p <= t.len() ==> selector_scan(t, p, acc).1 <= t.len(),
        selector_scan(t, p, acc).1 == p ==> selector_scan(t, p, acc).0 == acc,
    decreases t.len() - p,
{
    if !(p < 0 || p >= t.len() || t[p].kind == TokenKind::CurlyOpen) {
        if t[p].kind == TokenKind::Whitespace {
            lemma_selector_scan_pos(t, p + 1, acc.push(' '));
        } else {
            lemma_selector_scan_pos(t, p + 1, acc + t[p].value);
        }
    }
}

pub proof fn lemma_params_scan_pos(t: Seq<TokenView>, p: int, acc: Seq<char>)
    ensures
        p <= params_scan(t, p, acc).1,
        0 <= p <= t.len() ==> params_scan(t, p, acc).1 <= t.len(),
    decreases t.len() - p,
{
    if !(p < 0 || p >= t.len() || t[p].kind == TokenKind::CurlyOpen || t[p].kind
        == TokenKind::Semicolon) {
        if t[p].kind == TokenKind::Whitespace {
            lemma_params_scan_pos(t, p + 1, acc.push(' '));
        } else {
            lemma_params_scan_pos(t, p + 1, acc + t[p].value);
        }
    }
}

pub proof fn lemma_value_scan_pos(t: Seq<TokenView>, p: int, acc: Seq<char>)
    ensures
        p <= value_scan(t, p, acc).1,
        0 <= p <= t.len() ==> value_scan(t, p, acc).1 <= t.len(),
    decreases t.len() - p,
{
    if 0 <= p < t.len() {
        if is_value_kind(t[p].kind) {
            lemma_value_scan_pos(t, p + 1, acc + t[p].value);
        } else if t[p].kind == TokenKind::Whitespace {
            lemma_value_scan_pos(
                t,
                p + 1,
                if acc.len() > 0 && acc.last() == ' ' { acc } else { acc.push(' ') },
            );
        }
    }
}

/// A declaration that parses moves past at least its property, colon and semicolon.
pub proof fn lemma_declaration_progress(t: Seq<TokenView>, p: int)
    ensures
        parse_declaration_spec(t, p).0 is Ok ==> parse_declaration_spec(t, p).1 > p,
        0 <= p <= t.len() ==> parse_declaration_spec(t, p).1 <= t.len(),
{
    let p1 = parse_property_spec(t, p).1;
    lemma_skip_whitespace_pos(t, p1 + 1);
    lemma_value_scan_pos(t, skip_whitespace_from(t, p1 + 1), Seq::empty());
}

pub proof fn lemma_declaration_items_pos(t: Seq<TokenView>, p: int, acc: Seq<NodeView>)
    ensures
        p <= declaration_items(t, p, acc).1,
        0 <= p <= t.len() ==> declaration_items(t, p, acc).1 <= t.len(),
    decreases t.len() - p,
{
    if 0 <= p < t.len() && t[p].kind != TokenKind::CurlyClose {
        if t[p].kind == TokenKind::Whitespace {
            lemma_declaration_items_pos(t, p + 1, acc);
        } else {
            lemma_declaration_progress(t, p);
            let (d, q) = parse_declaration_spec(t, p);
            if d is Ok {
                lemma_declaration_items_pos(t, q, acc.push(d->Ok_0));
            } else {
                let p1 = parse_property_spec(t, p).1;
                lemma_skip_whitespace_pos(t, p1 + 1);
                lemma_value_scan_pos(t, skip_whitespace_from(t, p1 + 1), Seq::empty());
            }
        }
    }
}

/// A rule that parses moves past at least its selector and its block's opening token.
pub proof fn lemma_rule_progress(t: Seq<TokenView>, p: int)
    ensures
        parse_rule_spec(t, p).0 is Ok ==> parse_rule_spec(t, p).1 > p,
        0 <= p <= t.len() ==> parse_rule_spec(t, p).1 <= t.len(),
{
    let (raw, p1) = selector_scan(t, p, Seq::empty());
    lemma_selector_scan_pos(t, p, Seq::empty());
    lemma_trim_len(raw);
    if 0 <= p1 < t.len() {
        lemma_declaration_items_pos(t, p1 + 1, Seq::empty());
    }
}

pub proof fn lemma_rule_items_pos(t: Seq<TokenView>, p: int, acc: Seq<NodeView>)
    ensures
        p <= rule_items(t, p, acc).1,
        0 <= p <= t.len() ==> rule_items(t, p, acc).1 <= t.len(),
    decreases t.len() - p,
{
    if 0 <= p < t.len() && t[p].kind != TokenKind::CurlyClose {
        if t[p].kind == TokenKind::Whitespace {
            lemma_rule_items_pos(t, p + 1, acc);
        } else {
            lemma_rule_progress(t, p);
            let (r, q) = parse_rule_spec(t, p);
            if r is Ok {
                lemma_rule_items_pos(t, q, acc.push(r->Ok_0));
            } else {
                lemma_selector_scan_pos(t, p, Seq::empty());
                let p1 = selector_scan(t, p, Seq::empty()).1;
                if 0 <= p1 < t.len() {
                    lemma_declaration_items_pos(t, p1 + 1, Seq::empty());
                }
            }
        }
    }
}

/// An at-rule that parses moves past at least its name.
pub proof fn lemma_at_rule_progress(t: Seq<TokenView>, p: int)
    ensures
        parse_at_rule_spec(t, p).0 is Ok ==> parse_at_rule_spec(t, p).1 > p,
        0 <= p <= t.len() ==> parse_at_rule_spec(t, p).1 <= t.len(),
{
    if 0 <= p < t.len() {
        lemma_skip_whitespace_pos(t, p + 1);
        let p1 = skip_whitespace_from(t, p + 1);
        lemma_params_scan_pos(t, p1, Seq::empty());
        let p2 = params_scan(t, p1, Seq::empty()).1;
        if kind_at(t, p2, TokenKind::CurlyOpen) {
            lemma_rule_items_pos(t, p2 + 1, Seq::empty());
        }
    }
}


/// Two token sequences with the same kinds and texts; their lines and columns may differ.
pub open spec fn same_text(t1: Seq<TokenView>, t2: Seq<TokenView>) -> bool {
    &&& t1.len() == t2.len()
    &&& forall|i: int| 0 <= i < t1.len() ==> (#[trigger] t1[i]).kind == t2[i].kind && t1[i].value == t2[i].value
}

/// Two errors of the same variant, with the same kinds where they name kinds.
pub open spec fn errors_agree(e1: ParseError, e2: ParseError) -> bool {
    match (e1, e2) {
        (
            ParseError::UnexpectedToken { expected: x1, found: f1, .. },
            ParseError::UnexpectedToken { expected: x2, found: f2, .. },
        ) => x1 == x2 && f1 == f2,
        (ParseError::InvalidSelector { .. }, ParseError::InvalidSelector { .. }) => true,
        (ParseError::UnexpectedEOF, ParseError::UnexpectedEOF) => true,
        _ => false,
    }
}

/// Two parse outcomes that end at the same position and are the same value,
/// or errors that agree.
pub open spec fn outcomes_agree<T>(a: Parsed<T>, b: Parsed<T>) -> bool {
    &&& a.1 == b.1
    &&& match (a.0, b.0) {
        (Ok(x), Ok(y)) => x == y,
        (Err(e1), Err(e2)) => errors_agree(e1, e2),
        _ => false,
    }
}

proof fn lemma_skip_whitespace_same(t1: Seq<TokenView>, t2: Seq<TokenView>, p: int)
    requires
        same_text(t1, t2),
    ensures
        skip_whitespace_from(t1, p) == skip_whitespace_from(t2, p),
    decreases t1.len() - p,
{
    if 0 <= p < t1.len() {
        assert(t1[p].kind == t2[p].kind);
        lemma_skip_whitespace_same(t1, t2, p + 1);
    }
}

proof fn lemma_selector_scan_same(t1: Seq<TokenView>, t2: Seq<TokenView>, p: int, acc: Seq<char>)
    requires
        same_text(t1, t2),
    ensures
        selector_scan(t1, p, acc) == selector_scan(t2, p, acc),
    decreases t1.len() - p,
{
    if 0 <= p < t1.len() {
        assert(t1[p].kind == t2[p].kind && t1[p].value == t2[p].value);
        lemma_selector_scan_same(t1, t2, p + 1, acc.push(' '));
        lemma_selector_scan_same(t1, t2, p + 1, acc + t1[p].value);
    }
}

proof fn lemma_params_scan_same(t1: Seq<TokenView>, t2: Seq<TokenView>, p: int, acc: Seq<char>)
    requires
        same_text(t1, t2),
    ensures
        params_scan(t1, p, acc) == params_scan(t2, p, acc),
    decreases t1.len() - p,
{
    if 0 <= p < t1.len() {
        assert(t1[p].kind == t2[p].kind && t1[p].value == t2[p].value);
        lemma_params_scan_same(t1, t2, p + 1, acc.push(' '));
        lemma_params_scan_same(t1, t2, p + 1, acc + t1[p].value);
    }
}

proof fn lemma_value_scan_same(t1: Seq<TokenView>, t2: Seq<TokenView>, p: int, acc: Seq<char>)
    requires
        same_text(t1, t2),
    ensures
        value_scan(t1, p, acc) == value_scan(t2, p, acc),
    decreases t1.len() - p,
{
    if 0 <= p < t1.len() {
        assert(t1[p].kind == t2[p].kind && t1[p].value == t2[p].value);
        lemma_value_scan_same(t1, t2, p + 1, acc + t1[p].value);
        lemma_value_scan_same(
            t1,
            t2,
            p + 1,
            if acc.len() > 0 && acc.last() == ' ' { acc } else { acc.push(' ') },
        );
    }
}

proof fn lemma_declaration_same(t1: Seq<TokenView>, t2: Seq<TokenView>, p: int)
    requires
        same_text(t1, t2),
    ensures
        outcomes_agree(parse_declaration_spec(t1, p), parse_declaration_spec(t2, p)),
{
    if 0 <= p < t1.len() {
        assert(t1[p].kind == t2[p].kind && t1[p].value == t2[p].value);
    }
    let p1 = parse_property_spec(t1, p).1;
    if 0 <= p1 < t1.len() {
        assert(t1[p1].kind == t2[p1].kind);
    }
    lemma_skip_whitespace_same(t1, t2, p1 + 1);
    let p2 = skip_whitespace_from(t1, p1 + 1);
    lemma_value_scan_same(t1, t2, p2, Seq::empty());
    let p3 = value_scan(t1, p2, Seq::empty()).1;
    if 0 <= p3 < t1.len() {
        assert(t1[p3].kind == t2[p3].kind);
    }
}

proof fn lemma_declaration_items_same(t1: Seq<TokenView>, t2: Seq<TokenView>, p: int, acc: Seq<NodeView>)
    requires
        same_text(t1, t2),
    ensures
        outcomes_agree(declaration_items(t1, p, acc), declaration_items(t2, p, acc)),
    decreases t1.len() - p,
{
    if 0 <= p < t1.len() {
        assert(t1[p].kind == t2[p].kind);
        if t1[p].kind != TokenKind::CurlyClose {
            if t1[p].kind == TokenKind::Whitespace {
                lemma_declaration_items_same(t1, t2, p + 1, acc);
            } else {
                lemma_declaration_same(t1, t2, p);
                lemma_declaration_progress(t1, p);
                let (d, q) = parse_declaration_spec(t1, p);
                if d is Ok {
                    lemma_declaration_items_same(t1, t2, q, acc.push(d->Ok_0));
                }
            }
        }
    }
}

proof fn lemma_rule_same(t1: Seq<TokenView>, t2: Seq<TokenView>, p: int)
    requires
        same_text(t1, t2),
    ensures
        outcomes_agree(parse_rule_spec(t1, p), parse_rule_spec(t2, p)),
{
    lemma_selector_scan_same(t1, t2, p, Seq::empty());
    let p1 = selector_scan(t1, p, Seq::empty()).1;
    lemma_declaration_items_same(t1, t2, p1 + 1, Seq::empty());
}

proof fn lemma_rule_items_same(t1: Seq<TokenView>, t2: Seq<TokenView>, p: int, acc: Seq<NodeView>)
    requires
        same_text(t1, t2),
    ensures
        outcomes_agree(rule_items(t1, p, acc), rule_items(t2, p, acc)),
    decreases t1.len() - p,
{
    if 0 <= p < t1.len() {
        assert(t1[p].kind == t2[p].kind);
        if t1[p].kind != TokenKind::CurlyClose {
            if t1[p].kind == TokenKind::Whitespace {
                lemma_rule_items_same(t1, t2, p + 1, acc);
            } else {
                lemma_rule_same(t1, t2, p);
                lemma_rule_progress(t1, p);
                let (r, q) = parse_rule_spec(t1, p);
                if r is Ok {
                    lemma_rule_items_same(t1, t2, q, acc.push(r->Ok_0));
                }
            }
        }
    }
}

proof fn lemma_at_rule_same(t1: Seq<TokenView>, t2: Seq<TokenView>, p: int)
    requires
        same_text(t1, t2),
    ensures
        outcomes_agree(parse_at_rule_spec(t1, p), parse_at_rule_spec(t2, p)),
{
    if 0 <= p < t1.len() {
        assert(t1[p].kind == t2[p].kind && t1[p].value == t2[p].value);
        lemma_skip_whitespace_same(t1, t2, p + 1);
        let p1 = skip_whitespace_from(t1, p + 1);
        lemma_params_scan_same(t1, t2, p1, Seq::empty());
        let p2 = params_scan(t1, p1, Seq::empty()).1;
        if 0 <= p2 < t1.len() {
            assert(t1[p2].kind == t2[p2].kind);
        }
        lemma_rule_items_same(t1, t2, p2 + 1, Seq::empty());
    }
}

proof fn lemma_ast_items_same(t1: Seq<TokenView>, t2: Seq<TokenView>, p: int, acc: Seq<NodeView>)
    requires
        same_text(t1, t2),
    ensures
        outcomes_agree(ast_items(t1, p, acc), ast_items(t2, p, acc)),
    decreases t1.len() - p,
{
    if 0 <= p < t1.len() {
        assert(t1[p].kind == t2[p].kind && t1[p].value == t2[p].value);
        let k = t1[p].kind;
        lemma_rule_progress(t1, p);
        lemma_at_rule_progress(t1, p);
        if starts_rule(k) {
            lemma_rule_same(t1, t2, p);
            let (r, q) = parse_rule_spec(t1, p);
            if r is Ok {
                lemma_ast_items_same(t1, t2, q, acc.push(r->Ok_0));
            }
        } else if k == TokenKind::AtRule {
            lemma_at_rule_same(t1, t2, p);
            let (r, q) = parse_at_rule_spec(t1, p);
            if r is Ok {
                lemma_ast_items_same(t1, t2, q, acc.push(r->Ok_0));
            }
        } else if k == TokenKind::Comment {
            lemma_ast_items_same(
                t1,
                t2,
                p + 1,
                acc.push(NodeView { kind: NodeKindView::Comment { text: t1[p].value }, children: None }),
            );
        } else if k != TokenKind::CurlyOpen {
            lemma_ast_items_same(t1, t2, p + 1, acc);
        }
    }
}

/// Token positions reach a parse only through the line and column of an error:
/// two token sequences with the same kinds and texts give the same tree, or
/// errors of the same variant with the same kinds, ending at the same position.
pub proof fn lemma_positions_only_locate_errors(t1: Seq<TokenView>, t2: Seq<TokenView>, p: int)
    requires
        same_text(t1, t2),
    ensures
        outcomes_agree(parse_spec(t1, p), parse_spec(t2, p)),
{
    lemma_ast_items_same(t1, t2, p, Seq::empty());
}

pub proof fn lemma_nodes_view_push(s: Seq<Node>, n: Node)
    ensures
        nodes_view(s.push(n)) == nodes_view(s).push(n@),
{
    assert(s.push(n).subrange(0, s.len() as int) == s);
}

/// Text that is not empty and has no white space at either end.
pub open spec fn is_trimmed_nonempty(s: Seq<char>) -> bool {
    s.len() > 0 && !is_white_space(s[0]) && !is_white_space(s.last())
}

/// Text with no white space at either end.
pub open spec fn is_trimmed(s: Seq<char>) -> bool {
    s.len() > 0 ==> is_trimmed_nonempty(s)
}

/// A declaration: no children, and a value that is not empty and trimmed.
pub open spec fn is_declaration_node(n: NodeView) -> bool {
    &&& n.children is None
    &&& n.kind matches NodeKindView::Declaration { value, .. } && is_trimmed_nonempty(value)
}

/// A rule: a selector that is not empty and trimmed, and a block of declarations.
pub open spec fn is_rule_node(n: NodeView) -> bool {
    &&& n.kind matches NodeKindView::Rule { selector } && is_trimmed_nonempty(selector)
    &&& n.children matches Some(ch) && forall|i: int| 0 <= i < ch.len() ==> #[trigger] is_declaration_node(ch[i])
}

/// An at-rule: trimmed parameters, and either no block or a block of rules.
pub open spec fn is_at_rule_node(n: NodeView) -> bool {
    &&& n.kind matches NodeKindView::AtRule { params, .. } && is_trimmed(params)
    &&& n.children matches Some(ch) ==> forall|i: int| 0 <= i < ch.len() ==> #[trigger] is_rule_node(ch[i])
}

/// A comment: no children.
pub open spec fn is_comment_node(n: NodeView) -> bool {
    n.kind is Comment && n.children is None
}

/// What may stand at the top level of a parsed tree.
pub open spec fn is_top_level_node(n: NodeView) -> bool {
    is_rule_node(n) || is_at_rule_node(n) || is_comment_node(n)
}

pub proof fn lemma_trim_start_shape(s: Seq<char>)
    ensures
        trim_start(s).len() > 0 ==> !is_white_space(trim_start(s)[0]),
    decreases s.len(),
{
    if s.len() > 0 && is_white_space(s[0]) {
        lemma_trim_start_shape(s.drop_first());
    }
}

pub proof fn lemma_trim_end_shape(s: Seq<char>)
    ensures
        trim_end(s).len() <= s.len(),
        trim_end(s) == s.subrange(0, trim_end(s).len() as int),
        trim_end(s).len() > 0 ==> !is_white_space(trim_end(s).last()),
    decreases s.len(),
{
    if s.len() > 0 && is_white_space(s.last()) {
        lemma_trim_end_shape(s.drop_last());
        assert(s.drop_last().subrange(0, trim_end(s).len() as int) == s.subrange(0, trim_end(s).len() as int));
    } else {
        assert(s.subrange(0, s.len() as int) == s);
    }
}

/// `trim` leaves no white space at either end.
pub proof fn lemma_trim_shape(s: Seq<char>)
    ensures
        is_trimmed(trim(s)),
{
    lemma_trim_start_shape(s);
    lemma_trim_end_shape(trim_start(s));
    if trim(s).len() > 0 {
        assert(trim(s)[0] == trim_start(s)[0]);
    }
}

pub proof fn lemma_declaration_shape(t: Seq<TokenView>, p: int)
    ensures
        parse_declaration_spec(t, p).0 matches Ok(n) ==> is_declaration_node(n),
{
    let p1 = parse_property_spec(t, p).1;
    let p2 = skip_whitespace_from(t, p1 + 1);
    lemma_trim_shape(value_scan(t, p2, Seq::empty()).0);
}

pub proof fn lemma_declaration_items_shape(t: Seq<TokenView>, p: int, acc: Seq<NodeView>)
    requires
        forall|i: int| 0 <= i < acc.len() ==> #[trigger] is_declaration_node(acc[i]),
    ensures
        declaration_items(t, p, acc).0 matches Ok(ch) ==> forall|i: int| 0 <= i < ch.len() ==> #[trigger] is_declaration_node(ch[i]),
    decreases t.len() - p,
{
    if 0 <= p < t.len() && t[p].kind != TokenKind::CurlyClose {
        if t[p].kind == TokenKind::Whitespace {
            lemma_declaration_items_shape(t, p + 1, acc);
        } else {
            lemma_declaration_progress(t, p);
            lemma_declaration_shape(t, p);
            let (d, q) = parse_declaration_spec(t, p);
            if d is Ok {
                let n = d->Ok_0;
                assert forall|i: int| 0 <= i < acc.push(n).len() implies #[trigger] is_declaration_node(acc.push(n)[i]) by {
                    if i < acc.len() {
                        assert(acc.push(n)[i] == acc[i]);
                    }
                }
                lemma_declaration_items_shape(t, q, acc.push(n));
            }
        }
    }
}

pub proof fn lemma_rule_shape(t: Seq<TokenView>, p: int)
    ensures
        parse_rule_spec(t, p).0 matches Ok(n) ==> is_rule_node(n),
{
    let (raw, p1) = selector_scan(t, p, Seq::empty());
    lemma_trim_shape(raw);
    lemma_declaration_items_shape(t, p1 + 1, Seq::empty());
}

pub proof fn lemma_rule_items_shape(t: Seq<TokenView>, p: int, acc: Seq<NodeView>)
    requires
        forall|i: int| 0 <= i < acc.len() ==> #[trigger] is_rule_node(acc[i]),
    ensures
        rule_items(t, p, acc).0 matches Ok(ch) ==> forall|i: int| 0 <= i < ch.len() ==> #[trigger] is_rule_node(ch[i]),
    decreases t.len() - p,
{
    if 0 <= p < t.len() && t[p].kind != TokenKind::CurlyClose {
        if t[p].kind == TokenKind::Whitespace {
            lemma_rule_items_shape(t, p + 1, acc);
        } else {
            lemma_rule_progress(t, p);
            lemma_rule_shape(t, p);
            let (r, q) = parse_rule_spec(t, p);
            if r is Ok {
                let n = r->Ok_0;
                assert forall|i: int| 0 <= i < acc.push(n).len() implies #[trigger] is_rule_node(acc.push(n)[i]) by {
                    if i < acc.len() {
                        assert(acc.push(n)[i] == acc[i]);
                    }
                }
                lemma_rule_items_shape(t, q, acc.push(n));
            }
        }
    }
}

pub proof fn lemma_at_rule_shape(t: Seq<TokenView>, p: int)
    ensures
        parse_at_rule_spec(t, p).0 matches Ok(n) ==> is_at_rule_node(n),
{
    if 0 <= p < t.len() {
        let p1 = skip_whitespace_from(t, p + 1);
        let (raw, p2) = params_scan(t, p1, Seq::empty());
        lemma_trim_shape(raw);
        lemma_rule_items_shape(t, p2 + 1, Seq::empty());
    }
}

pub proof fn lemma_ast_items_shape(t: Seq<TokenView>, p: int, acc: Seq<NodeView>)
    requires
        forall|i: int| 0 <= i < acc.len() ==> #[trigger] is_top_level_node(acc[i]),
    ensures
        ast_items(t, p, acc).0 matches Ok(tree) ==> forall|i: int| 0 <= i < tree.len() ==> #[trigger] is_top_level_node(tree[i]),
    decreases t.len() - p,
{
    if 0 <= p < t.len() {
        let k = t[p].kind;
        if starts_rule(k) || k == TokenKind::AtRule || k == TokenKind::Comment {
            lemma_rule_progress(t, p);
            lemma_at_rule_progress(t, p);
            lemma_rule_shape(t, p);
            lemma_at_rule_shape(t, p);
            let (r, q) = if starts_rule(k) {
                parse_rule_spec(t, p)
            } else if k == TokenKind::AtRule {
                parse_at_rule_spec(t, p)
            } else {
                (Ok::<NodeView, ParseError>(NodeView { kind: NodeKindView::Comment { text: t[p].value }, children: None }), p + 1)
            };
            if r is Ok {
                let n = r->Ok_0;
                assert forall|i: int| 0 <= i < acc.push(n).len() implies #[trigger] is_top_level_node(acc.push(n)[i]) by {
                    if i < acc.len() {
                        assert(acc.push(n)[i] == acc[i]);
                    }
                }
                lemma_ast_items_shape(t, q, acc.push(n));
            }
        } else if k != TokenKind::CurlyOpen {
            lemma_ast_items_shape(t, p + 1, acc);
        }
    }
}

/// Every tree the parser produces has rules (with a non-empty, trimmed
/// selector and a block of declarations with non-empty, trimmed values),
/// at-rules (whose blocks hold only such rules) and comments at its top level.
pub proof fn lemma_parse_tree_shape(t: Seq<TokenView>, p: int)
    ensures
        parse_spec(t, p).0 matches Ok(tree) ==> forall|i: int| 0 <= i < tree.len() ==> #[trigger] is_top_level_node(tree[i]),
{
    lemma_ast_items_shape(t, p, Seq::empty());
}

/// A parse that succeeds reads every token from its start to the end.
pub proof fn lemma_parse_reads_all(t: Seq<TokenView>, p: int)
    requires
        0 <= p <= t.len(),
    ensures
        parse_spec(t, p).0 is Ok ==> parse_spec(t, p).1 == t.len(),
{
    lemma_ast_items_reads_all(t, p, Seq::empty());
}

pub proof fn lemma_ast_items_reads_all(t: Seq<TokenView>, p: int, acc: Seq<NodeView>)
    requires
        0 <= p <= t.len(),
    ensures
        ast_items(t, p, acc).0 is Ok ==> ast_items(t, p, acc).1 == t.len(),
    decreases t.len() - p,
{
    if p < t.len() {
        let k = t[p].kind;
        lemma_rule_progress(t, p);
        lemma_at_rule_progress(t, p);
        if starts_rule(k) {
            let (r, q) = parse_rule_spec(t, p);
            if r is Ok {
                lemma_ast_items_reads_all(t, q, acc.push(r->Ok_0));
            }
        } else if k == TokenKind::AtRule {
            let (r, q) = parse_at_rule_spec(t, p);
            if r is Ok {
                lemma_ast_items_reads_all(t, q, acc.push(r->Ok_0));
            }
        } else if k == TokenKind::Comment {
            lemma_ast_items_reads_all(t, p + 1, acc.push(NodeView { kind: NodeKindView::Comment { text: t[p].value }, children: None }));
        } else if k != TokenKind::CurlyOpen {
            lemma_ast_items_reads_all(t, p + 1, acc);
        }
    }
}

/// The view of a parse result that is a string.
pub open spec fn string_result(r: Result<String, ParseError>) -> Result<Seq<char>, ParseError> {
    match r {
        Ok(v) => Ok(v@),
        Err(e) => Err(e),
    }
}

/// The view of a parse result that is a node.
pub open spec fn node_result(r: Result<Node, ParseError>) -> Result<NodeView, ParseError> {
    match r {
        Ok(n) => Ok(n@),
        Err(e) => Err(e),
    }
}

/// The view of a parse result that is a list of nodes.
pub open spec fn nodes_result(r: Result<Vec<Node>, ParseError>) -> Result<Seq<NodeView>, ParseError> {
    match r {
        Ok(v) => Ok(nodes_view(v@)),
        Err(e) => Err(e),
    }
}

/// The view of a parse result that is a whole tree.
pub open spec fn ast_result(r: Result<AST, ParseError>) -> Result<Seq<NodeView>, ParseError> {
    match r {
        Ok(a) => Ok(a@),
        Err(e) => Err(e),
    }
}

/// What a block holds: declarations (in a rule) or rules (in an at-rule).
enum BlockContext {
    Rule,
    AtRule,
}

/// The items of a block in `context`.
spec fn block_items(context: BlockContext, t: Seq<TokenView>, p: int, acc: Seq<NodeView>) -> Parsed<Seq<NodeView>> {
    match context {
        BlockContext::Rule => declaration_items(t, p, acc),
        BlockContext::AtRule => rule_items(t, p, acc),
    }
}

/// Reads tokens and builds the tree.
#[derive(Debug)]
pub struct Parser {
    tokens: Vec<Token>,
    current: usize,
}

impl Parser {
    /// The tokens being parsed, as views.
    pub closed spec fn token_seq(&self) -> Seq<TokenView> {
        token_views(self.tokens@)
    }

    /// The position of the next token to read.
    pub closed spec fn pos(&self) -> int {
        self.current as int
    }

    /// A parser at the first of `tokens`.
    pub fn new(tokens: Vec<Token>) -> (p: Self)
        ensures
            p.token_seq() == token_views(tokens@),
            p.pos() == 0,
    {
        Self { tokens, current: 0 }
    }

    fn peek(&self) -> (r: Result<&Token, ParseError>)
        ensures
            match r {
                Ok(tok) => self.current < self.tokens@.len() && *tok == self.tokens@[self.current as int],
                Err(e) => self.current >= self.tokens@.len() && e == ParseError::UnexpectedEOF,
            },
    {
        if self.current < self.tokens.len() {
            Ok(&self.tokens[self.current])
        } else {
            Err(ParseError::UnexpectedEOF)
        }
    }

    /// Passes over the next token and returns it.
    fn advance(&mut self) -> (r: Result<&Token, ParseError>)
        ensures
            final(self).tokens == old(self).tokens,
            old(self).current < old(self).tokens@.len() ==> (r matches Ok(tok) && *tok == old(self).tokens@[old(self).current as int]
                && final(self).current == old(self).current + 1),
            old(self).current >= old(self).tokens@.len() ==> (r matches Err(e) && e == ParseError::UnexpectedEOF
                && final(self).current == old(self).current),
    {
        if self.current < self.tokens.len() {
            self.current = self.current + 1;
            Ok(&self.tokens[self.current - 1])
        } else {
            Err(ParseError::UnexpectedEOF)
        }
    }

    /// Passes over the next token and returns it if it is of `kind`.
    fn expect(&mut self, kind: TokenKind) -> (r: Result<&Token, ParseError>)
        ensures
            final(self).tokens == old(self).tokens,
            kind_at(old(self).token_seq(), old(self).pos(), kind) ==> (r matches Ok(tok) && *tok == old(self).tokens@[old(self).current as int]
                && final(self).current == old(self).current + 1),
            !kind_at(old(self).token_seq(), old(self).pos(), kind) ==> (r matches Err(e) && e == ParseError::UnexpectedEOF
                && final(self).current == old(self).current),
    {
        if self.current < self.tokens.len() && self.tokens[self.current].kind == kind {
            self.advance()
        } else {
            Err(ParseError::UnexpectedEOF)
        }
    }

    fn get_position(&self) -> (r: (usize, usize))
        ensures
            (r.0 as int, r.1 as int) == position_at(self.token_seq(), self.pos()),
    {
        match self.peek() {
            Ok(token) => (token.line, token.column),
            Err(_) => (0, 0),
        }
    }

    fn skip_whitespace(&mut self)
        ensures
            final(self).tokens == old(self).tokens,
            final(self).pos() == skip_whitespace_from(old(self).token_seq(), old(self).pos()),
    {
        let ghost t = self.token_seq();
        let ghost end = skip_whitespace_from(t, self.pos());
        while self.current < self.tokens.len() && self.tokens[self.current].kind == TokenKind::Whitespace
            invariant
                self.tokens == old(self).tokens,
                t == self.token_seq(),
                skip_whitespace_from(t, self.pos()) == end,
            decreases self.tokens.len() - self.current,
        {
            let _ = self.advance();
        }
    }

    fn parse_selector(&mut self) -> (r: Result<String, ParseError>)
        ensures
            final(self).tokens == old(self).tokens,
            (string_result(r), final(self).pos()) == parse_selector_spec(old(self).token_seq(), old(self).pos()),
    {
        let ghost t = self.token_seq();
        let ghost p0 = self.pos();
        let ghost total = selector_scan(t, p0, Seq::empty());
        let (line, column) = self.get_position();
        let mut selector: Vec<char> = Vec::new();
        while self.current < self.tokens.len() && self.tokens[self.current].kind != TokenKind::CurlyOpen
            invariant
                self.tokens == old(self).tokens,
                t == self.token_seq(),
                selector_scan(t, self.pos(), selector@) == total,
            decreases self.tokens.len() - self.current,
        {
            assert(t[self.pos()] == self.tokens@[self.pos()]@);
            if self.tokens[self.current].kind == TokenKind::Whitespace {
                selector.push(' ');
            } else {
                extend_with_str(&mut selector, self.tokens[self.current].value.as_str());
            }
            let _ = self.advance();
        }
        let trimmed = trim_chars(&selector);
        if trimmed.len() == 0 {
            Err(ParseError::InvalidSelector { line, column })
        } else {
            Ok(string_from_chars(&trimmed))
        }
    }

    fn parse_property(&mut self) -> (r: Result<String, ParseError>)
        ensures
            final(self).tokens == old(self).tokens,
            (string_result(r), final(self).pos()) == parse_property_spec(old(self).token_seq(), old(self).pos()),
    {
        let ghost t = self.token_seq();
        let mut val: String = String::new();
        if let Ok(token) = self.peek() {
            assert(t[self.pos()] == self.tokens@[self.pos()]@);
            match token.kind {
                TokenKind::Identifier => {
                    val = token.value.clone();
                    let _ = self.advance();
                },
                _ => {
                    return Err(
                        ParseError::UnexpectedToken {
                            expected: TokenKind::Identifier,
                            found: token.kind,
                            line: token.line,
                            column: token.column,
                        },
                    );
                },
            }
        }
        Ok(val)
    }

    fn parse_value(&mut self) -> (r: Result<String, ParseError>)
        ensures
            final(self).tokens == old(self).tokens,
            (string_result(r), final(self).pos()) == parse_value_spec(old(self).token_seq(), old(self).pos()),
    {
        let ghost t = self.token_seq();
        let ghost p0 = self.pos();
        let ghost total = value_scan(t, p0, Seq::empty());
        let (line, column) = self.get_position();
        let mut val: Vec<char> = Vec::new();
        while self.current < self.tokens.len() && (value_kind(self.tokens[self.current].kind)
            || self.tokens[self.current].kind == TokenKind::Whitespace)
            invariant
                self.tokens == old(self).tokens,
                t == self.token_seq(),
                value_scan(t, self.pos(), val@) == total,
            decreases self.tokens.len() - self.current,
        {
            assert(t[self.pos()] == self.tokens@[self.pos()]@);
            if self.tokens[self.current].kind == TokenKind::Whitespace {
                if !(val.len() > 0 && val[val.len() - 1] == ' ') {
                    val.push(' ');
                }
            } else {
                extend_with_str(&mut val, self.tokens[self.current].value.as_str());
            }
            let _ = self.advance();
        }
        assert(self.pos() < t.len() ==> t[self.pos()] == self.tokens@[self.pos()]@);
        let trimmed = trim_chars(&val);
        if trimmed.len() == 0 {
            match self.peek() {
                Ok(token) => Err(
                    ParseError::UnexpectedToken {
                        expected: TokenKind::Identifier,
                        found: token.kind,
                        line,
                        column,
                    },
                ),
                Err(e) => Err(e),
            }
        } else {
            Ok(string_from_chars(&trimmed))
        }
    }

    fn parse_at_rule_params(&mut self) -> (params: String)
        ensures
            final(self).tokens == old(self).tokens,
            ({
                let (raw, q) = params_scan(old(self).token_seq(), old(self).pos(), Seq::empty());
                params@ == trim(raw) && final(self).pos() == q
            }),
    {
        let ghost t = self.token_seq();
        let ghost p0 = self.pos();
        let ghost total = params_scan(t, p0, Seq::empty());
        let mut params: Vec<char> = Vec::new();
        while self.current < self.tokens.len() && self.tokens[self.current].kind != TokenKind::CurlyOpen
            && self.tokens[self.current].kind != TokenKind::Semicolon
            invariant
                self.tokens == old(self).tokens,
                t == self.token_seq(),
                params_scan(t, self.pos(), params@) == total,
            decreases self.tokens.len() - self.current,
        {
            assert(t[self.pos()] == self.tokens@[self.pos()]@);
            if self.tokens[self.current].kind == TokenKind::Whitespace {
                params.push(' ');
            } else {
                extend_with_str(&mut params, self.tokens[self.current].value.as_str());
            }
            let _ = self.advance();
        }
        let trimmed = trim_chars(&params);
        string_from_chars(&trimmed)
    }

    fn parse_comment(&mut self) -> (r: Result<Node, ParseError>)
        ensures
            final(self).tokens == old(self).tokens,
            (node_result(r), final(self).pos()) == parse_comment_spec(old(self).token_seq(), old(self).pos()),
    {
        let ghost t = self.token_seq();
        let (line, column) = self.get_position();
        match self.peek() {
            Ok(token) => {
                assert(t[self.pos()] == self.tokens@[self.pos()]@);
                if token.kind == TokenKind::Comment {
                    let text = token.value.clone();
                    let _ = self.advance();
                    Ok(Node::new(NodeKind::Comment { text }, None))
                } else {
                    Err(
                        ParseError::UnexpectedToken {
                            expected: TokenKind::Comment,
                            found: token.kind,
                            line,
                            column,
                        },
                    )
                }
            },
            Err(_) => Err(ParseError::UnexpectedEOF),
        }
    }

    fn parse_declaration(&mut self) -> (r: Result<Node, ParseError>)
        ensures
            final(self).tokens == old(self).tokens,
            (node_result(r), final(self).pos()) == parse_declaration_spec(old(self).token_seq(), old(self).pos()),
    {
        let property = match self.parse_property() {
            Ok(p) => p,
            Err(e) => return Err(e),
        };
        match self.expect(TokenKind::Colon) {
            Ok(_) => {},
            Err(e) => return Err(e),
        }
        self.skip_whitespace();
        let value = match self.parse_value() {
            Ok(v) => v,
            Err(e) => return Err(e),
        };
        match self.expect(TokenKind::Semicolon) {
            Ok(_) => {},
            Err(e) => return Err(e),
        }
        Ok(Node::new(NodeKind::Declaration { property, value }, None))
    }

    fn parse_rule(&mut self) -> (r: Result<Node, ParseError>)
        ensures
            final(self).tokens == old(self).tokens,
            (node_result(r), final(self).pos()) == parse_rule_spec(old(self).token_seq(), old(self).pos()),
        decreases 1nat,
    {
        let selector = match self.parse_selector() {
            Ok(s) => s,
            Err(e) => return Err(e),
        };
        let children = match self.parse_block(BlockContext::Rule) {
            Ok(c) => c,
            Err(e) => return Err(e),
        };
        Ok(Node::new(NodeKind::Rule { selector }, Some(children)))
    }

    /// A block: its opening token is passed over, then items up to `}` or the end.
    fn parse_block(&mut self, context: BlockContext) -> (r: Result<Vec<Node>, ParseError>)
        ensures
            final(self).tokens == old(self).tokens,
            (nodes_result(r), final(self).pos()) == (match context {
                BlockContext::Rule => rule_block_spec(old(self).token_seq(), old(self).pos()),
                BlockContext::AtRule => at_rule_block_spec(old(self).token_seq(), old(self).pos()),
            }),
        decreases (match context {
            BlockContext::Rule => 0nat,
            BlockContext::AtRule => 2nat,
        }),
    {
        let ghost t = self.token_seq();
        match self.advance() {
            Ok(_) => {},
            Err(e) => return Err(e),
        }
        let ghost total = block_items(context, t, self.pos(), Seq::empty());
        let mut children: Vec<Node> = Vec::new();
        assert(nodes_view(children@) == Seq::<NodeView>::empty());
        loop
            invariant_except_break
                self.tokens == old(self).tokens,
                t == self.token_seq(),
                t == old(self).token_seq(),
                block_items(context, t, self.pos(), nodes_view(children@)) == total,
                total == (match context {
                    BlockContext::Rule => rule_block_spec(t, old(self).pos()),
                    BlockContext::AtRule => at_rule_block_spec(t, old(self).pos()),
                }),
            ensures
                self.tokens == old(self).tokens,
                total == (Ok::<Seq<NodeView>, ParseError>(nodes_view(children@)), self.pos()),
            decreases self.tokens.len() - self.current,
        {
            if self.current >= self.tokens.len() {
                break;
            }
            assert(t[self.pos()] == self.tokens@[self.pos()]@);
            match self.tokens[self.current].kind {
                TokenKind::CurlyClose => {
                    let _ = self.advance();
                    break;
                },
                TokenKind::Whitespace => {
                    let _ = self.advance();
                },
                _ => {
                    let ghost p = self.pos();
                    let ghost before = children@;
                    let node = match context {
                        BlockContext::Rule => self.parse_declaration(),
                        BlockContext::AtRule => self.parse_rule(),
                    };
                    proof {
                        lemma_declaration_progress(t, p);
                        lemma_rule_progress(t, p);
                    }
                    match node {
                        Ok(n) => {
                            children.push(n);
                            proof {
                                lemma_nodes_view_push(before, n);
                            }
                        },
                        Err(e) => return Err(e),
                    }
                },
            }
        }
        Ok(children)
    }

    fn parse_at_rule(&mut self) -> (r: Result<Node, ParseError>)
        ensures
            final(self).tokens == old(self).tokens,
            (node_result(r), final(self).pos()) == parse_at_rule_spec(old(self).token_seq(), old(self).pos()),
    {
        let ghost t = self.token_seq();
        proof {
            if self.pos() < t.len() {
                assert(t[self.pos()] == self.tokens@[self.pos()]@);
            }
        }
        let name = match self.advance() {
            Ok(token) => token.value.clone(),
            Err(e) => return Err(e),
        };
        self.skip_whitespace();
        let params = self.parse_at_rule_params();
        let kind = match self.peek() {
            Ok(token) => token.kind,
            Err(e) => return Err(e),
        };
        assert(t[self.pos()] == self.tokens@[self.pos()]@);
        match kind {
            TokenKind::Semicolon => {
                let _ = self.advance();
                Ok(Node::new(NodeKind::AtRule { name, params }, None))
            },
            TokenKind::CurlyOpen => {
                let children = match self.parse_block(BlockContext::AtRule) {
                    Ok(c) => c,
                    Err(e) => return Err(e),
                };
                Ok(Node::new(NodeKind::AtRule { name, params }, Some(children)))
            },
            _ => Err(ParseError::UnexpectedEOF),
        }
    }

    /// Parses the tokens from the current one to the end into a tree.
    pub fn to_ast(&mut self) -> (r: Result<AST, ParseError>)
        ensures
            final(self).token_seq() == old(self).token_seq(),
            (ast_result(r), final(self).pos()) == parse_spec(old(self).token_seq(), old(self).pos()),
    {
        let ghost t = self.token_seq();
        let ghost total = ast_items(t, self.pos(), Seq::empty());
        let mut body: Vec<Node> = Vec::new();
        assert(nodes_view(body@) == Seq::<NodeView>::empty());
        while self.current < self.tokens.len()
            invariant
                self.tokens == old(self).tokens,
                t == self.token_seq(),
                t == old(self).token_seq(),
                ast_items(t, self.pos(), nodes_view(body@)) == total,
                total == parse_spec(t, old(self).pos()),
            decreases self.tokens.len() - self.current,
        {
            let ghost p = self.pos();
            let ghost before = body@;
            assert(t[p] == self.tokens@[p]@);
            let kind = self.tokens[self.current].kind;
            proof {
                lemma_rule_progress(t, p);
                lemma_at_rule_progress(t, p);
            }
            match kind {
                TokenKind::TypeSelector | TokenKind::ClassSelector | TokenKind::IdSelector
                | TokenKind::UniversalSelector | TokenKind::Identifier => {
                    match self.parse_rule() {
                        Ok(node) => {
                            body.push(node);
                            proof {
                                lemma_nodes_view_push(before, node);
                            }
                        },
                        Err(e) => return Err(e),
                    }
                },
                TokenKind::AtRule => {
                    match self.parse_at_rule() {
                        Ok(node) => {
                            body.push(node);
                            proof {
                                lemma_nodes_view_push(before, node);
                            }
                        },
                        Err(e) => return Err(e),
                    }
                },
                TokenKind::CurlyOpen => {
                    let token = &self.tokens[self.current];
                    return Err(ParseError::InvalidSelector { line: token.line, column: token.column });
                },
                TokenKind::Whitespace => {
                    let _ = self.advance();
                },
                TokenKind::Comment => {
                    match self.parse_comment() {
                        Ok(comment) => {
                            body.push(comment);
                            proof {
                                lemma_nodes_view_push(before, comment);
                            }
                        },
                        Err(e) => return Err(e),
                    }
                },
                _ => {
                    let _ = self.advance();
                },
            }
        }
        Ok(AST { body })
    }
}

fn value_kind(k: TokenKind) -> (r: bool)
    ensures
        r == is_value_kind(k),
{
    match k {
        TokenKind::Identifier | TokenKind::Dimension | TokenKind::Number | TokenKind::ParenOpen
        | TokenKind::ParenClose | TokenKind::Comma | TokenKind::String | TokenKind::Percentage => true,
        _ => false,
    }
}


/// Text that has no white space at either end is its own `trim`.
pub proof fn lemma_trim_of_trimmed(v: Seq<char>)
    requires
        is_trimmed_nonempty(v),
    ensures
        trim(v) == v,
{
    assert(trim_start(v) == v);
    assert(trim_end(v) == v);
}

/// At the top level, a type, class, id or universal selector or an identifier
/// starts a rule: the parse goes on after the rule that `parse_rule_spec` reads
/// there, or stops with its error.
pub proof fn lemma_rule_starting_kinds(t: Seq<TokenView>, p: int, acc: Seq<NodeView>)
    requires
        0 <= p < t.len(),
        t[p].kind == TokenKind::TypeSelector || t[p].kind == TokenKind::ClassSelector || t[p].kind
            == TokenKind::IdSelector || t[p].kind == TokenKind::UniversalSelector || t[p].kind
            == TokenKind::Identifier,
    ensures
        ast_items(t, p, acc) == (match parse_rule_spec(t, p) {
            (Err(e), q) => (Err(e), q),
            (Ok(n), q) => ast_items(t, q, acc.push(n)),
        }),
{
}

/// A selector token of any of the rule-starting kinds, with text `v`, followed
/// by an empty block, parses to one rule with selector `v` and no declarations.
pub proof fn lemma_single_empty_rule(kind: TokenKind, v: Seq<char>, open: TokenView, close: TokenView, line: int, column: int)
    requires
        kind == TokenKind::TypeSelector || kind == TokenKind::ClassSelector || kind == TokenKind::IdSelector
            || kind == TokenKind::UniversalSelector || kind == TokenKind::Identifier,
        is_trimmed_nonempty(v),
        open.kind == TokenKind::CurlyOpen,
        close.kind == TokenKind::CurlyClose,
    ensures
        ({
            let t = seq![TokenView { kind, value: v, line, column }, open, close];
            parse_spec(t, 0) == (
                Ok::<Seq<NodeView>, ParseError>(seq![NodeView { kind: NodeKindView::Rule { selector: v }, children: Some(Seq::<NodeView>::empty()) }]),
                3int,
            )
        }),
{
    let t = seq![TokenView { kind, value: v, line, column }, open, close];
    lemma_trim_of_trimmed(v);
    assert(Seq::<char>::empty() + v == v);
    assert(selector_scan(t, 1, v) == (v, 1int));
    assert(selector_scan(t, 0, Seq::empty()) == (v, 1int));
    assert(declaration_items(t, 2, Seq::empty()) == (Ok::<Seq<NodeView>, ParseError>(Seq::empty()), 3int));
    let n = NodeView { kind: NodeKindView::Rule { selector: v }, children: Some(Seq::<NodeView>::empty()) };
    assert(parse_rule_spec(t, 0) == (Ok::<NodeView, ParseError>(n), 3int));
    assert(ast_items(t, 3, seq![n]) == (Ok::<Seq<NodeView>, ParseError>(seq![n]), 3int));
    assert(Seq::<NodeView>::empty().push(n) == seq![n]);
}

/// In a declaration's value, the text of every identifier, dimension, number,
/// parenthesis, comma, string and percentage token is taken in, and reading goes on.
pub proof fn lemma_value_kinds_taken(t: Seq<TokenView>, p: int, acc: Seq<char>)
    requires
        0 <= p < t.len(),
        t[p].kind == TokenKind::Identifier || t[p].kind == TokenKind::Dimension || t[p].kind
            == TokenKind::Number || t[p].kind == TokenKind::ParenOpen || t[p].kind == TokenKind::ParenClose
            || t[p].kind == TokenKind::Comma || t[p].kind == TokenKind::String || t[p].kind
            == TokenKind::Percentage,
    ensures
        value_scan(t, p, acc) == value_scan(t, p + 1, acc + t[p].value),
{
}

/// `property: value;` where the value is one token of a value kind, with text
/// that is not empty and has no white space at its ends, parses to that
/// declaration; white space may stand after the colon.
pub proof fn lemma_single_token_declaration(
    property: TokenView,
    colon: TokenView,
    space: TokenView,
    value: TokenView,
    semicolon: TokenView,
)
    requires
        property.kind == TokenKind::Identifier,
        colon.kind == TokenKind::Colon,
        space.kind == TokenKind::Whitespace,
        value.kind == TokenKind::Identifier || value.kind == TokenKind::Dimension || value.kind
            == TokenKind::Number || value.kind == TokenKind::ParenOpen || value.kind == TokenKind::ParenClose
            || value.kind == TokenKind::Comma || value.kind == TokenKind::String || value.kind
            == TokenKind::Percentage,
        is_trimmed_nonempty(value.value),
        semicolon.kind == TokenKind::Semicolon,
    ensures
        parse_declaration_spec(seq![property, colon, space, value, semicolon], 0) == (
            Ok::<NodeView, ParseError>(NodeView {
                kind: NodeKindView::Declaration { property: property.value, value: value.value },
                children: None,
            }),
            5int,
        ),
{
    let t = seq![property, colon, space, value, semicolon];
    lemma_trim_of_trimmed(value.value);
    assert(skip_whitespace_from(t, 3) == 3);
    assert(skip_whitespace_from(t, 2) == 3);
    assert(Seq::<char>::empty() + value.value == value.value);
    assert(value_scan(t, 4, value.value) == (value.value, 4int));
    assert(value_scan(t, 3, Seq::empty()) == (value.value, 4int));
}


/// How the top level reads each token: a comment token becomes a comment node
/// with its text; an at-rule token starts an at-rule; a `{` where a selector
/// should be is an invalid selector at that token's line and column; white
/// space and every other kind that starts neither a rule, an at-rule nor a
/// comment is passed over.
pub proof fn lemma_top_level_tokens(t: Seq<TokenView>, p: int, acc: Seq<NodeView>)
    requires
        0 <= p < t.len(),
    ensures
        t[p].kind == TokenKind::Comment ==> ast_items(t, p, acc) == ast_items(
            t,
            p + 1,
            acc.push(NodeView { kind: NodeKindView::Comment { text: t[p].value }, children: None }),
        ),
        t[p].kind == TokenKind::AtRule ==> ast_items(t, p, acc) == (match parse_at_rule_spec(t, p) {
            (Err(e), q) => (Err(e), q),
            (Ok(n), q) => ast_items(t, q, acc.push(n)),
        }),
        t[p].kind == TokenKind::CurlyOpen ==> ast_items(t, p, acc) == (
            Err::<Seq<NodeView>, ParseError>(ParseError::InvalidSelector { line: t[p].line as usize, column: t[p].column as usize }),
            p,
        ),
        (t[p].kind == TokenKind::Whitespace || t[p].kind == TokenKind::Equals || t[p].kind == TokenKind::ParenOpen
            || t[p].kind == TokenKind::ParenClose || t[p].kind == TokenKind::BracketOpen || t[p].kind
            == TokenKind::BracketClose || t[p].kind == TokenKind::String || t[p].kind == TokenKind::Comma
            || t[p].kind == TokenKind::PseudoClass || t[p].kind == TokenKind::PseudoElement || t[p].kind
            == TokenKind::Combinator || t[p].kind == TokenKind::Number || t[p].kind == TokenKind::Percentage
            || t[p].kind == TokenKind::Dimension || t[p].kind == TokenKind::Colon || t[p].kind
            == TokenKind::Semicolon || t[p].kind == TokenKind::CurlyClose) ==> ast_items(t, p, acc)
            == ast_items(t, p + 1, acc),
{
}

/// A selector is read from the token texts up to the next `{`: each white-space
/// token gives one space, any other token its text.
pub proof fn lemma_selector_reading(t: Seq<TokenView>, p: int, acc: Seq<char>)
    requires
        0 <= p < t.len(),
    ensures
        t[p].kind == TokenKind::CurlyOpen ==> selector_scan(t, p, acc) == (acc, p),
        t[p].kind == TokenKind::Whitespace ==> selector_scan(t, p, acc) == selector_scan(t, p + 1, acc.push(' ')),
        t[p].kind != TokenKind::CurlyOpen && t[p].kind != TokenKind::Whitespace ==> selector_scan(t, p, acc)
            == selector_scan(t, p + 1, acc + t[p].value),
{
}

/// In a value, a white-space token gives one space unless the text so far
/// already ends with one; a semicolon, and any token that is neither of a
/// value kind nor white space, ends the value.
pub proof fn lemma_value_reading(t: Seq<TokenView>, p: int, acc: Seq<char>)
    requires
        0 <= p < t.len(),
    ensures
        t[p].kind == TokenKind::Whitespace ==> value_scan(t, p, acc) == value_scan(
            t,
            p + 1,
            if acc.len() > 0 && acc[acc.len() - 1] == ' ' { acc } else { acc.push(' ') },
        ),
        (t[p].kind == TokenKind::Semicolon || t[p].kind == TokenKind::Colon || t[p].kind == TokenKind::CurlyOpen
            || t[p].kind == TokenKind::CurlyClose || t[p].kind == TokenKind::Equals || t[p].kind
            == TokenKind::BracketOpen || t[p].kind == TokenKind::BracketClose || t[p].kind == TokenKind::AtRule
            || t[p].kind == TokenKind::Comment || t[p].kind == TokenKind::ClassSelector || t[p].kind
            == TokenKind::IdSelector || t[p].kind == TokenKind::TypeSelector || t[p].kind
            == TokenKind::UniversalSelector || t[p].kind == TokenKind::PseudoClass || t[p].kind
            == TokenKind::PseudoElement || t[p].kind == TokenKind::Combinator) ==> value_scan(t, p, acc) == (acc, p),
{
}

/// A property is one identifier token's text; any other token where a
/// property should be is an unexpected token (an identifier was expected) at
/// that token's line and column.
pub proof fn lemma_property_reading(t: Seq<TokenView>, p: int)
    requires
        0 <= p < t.len(),
    ensures
        t[p].kind == TokenKind::Identifier ==> parse_property_spec(t, p) == (Ok::<Seq<char>, ParseError>(t[p].value), p + 1),
        t[p].kind != TokenKind::Identifier ==> parse_property_spec(t, p) == (
            Err::<Seq<char>, ParseError>(ParseError::UnexpectedToken {
                expected: TokenKind::Identifier,
                found: t[p].kind,
                line: t[p].line as usize,
                column: t[p].column as usize,
            }),
            p,
        ),
{
}

/// Inside a rule's block, `}` closes the block, white space is passed over and
/// anything else starts a declaration; inside an at-rule's block the same
/// holds with rules in place of declarations.
pub proof fn lemma_block_reading(t: Seq<TokenView>, p: int, acc: Seq<NodeView>)
    requires
        0 <= p < t.len(),
    ensures
        t[p].kind == TokenKind::CurlyClose ==> declaration_items(t, p, acc) == (Ok::<Seq<NodeView>, ParseError>(acc), p + 1)
            && rule_items(t, p, acc) == (Ok::<Seq<NodeView>, ParseError>(acc), p + 1),
        t[p].kind == TokenKind::Whitespace ==> declaration_items(t, p, acc) == declaration_items(t, p + 1, acc)
            && rule_items(t, p, acc) == rule_items(t, p + 1, acc),
        t[p].kind != TokenKind::CurlyClose && t[p].kind != TokenKind::Whitespace ==> declaration_items(t, p, acc) == (
        match parse_declaration_spec(t, p) {
            (Err(e), q) => (Err(e), q),
            (Ok(n), q) => declaration_items(t, q, acc.push(n)),
        }) && rule_items(t, p, acc) == (match parse_rule_spec(t, p) {
            (Err(e), q) => (Err(e), q),
            (Ok(n), q) => rule_items(t, q, acc.push(n)),
        }),
{
}

/// `@name value;` with one token of text `v` (not empty, no white space at its
/// ends, not `{` or `;`) as parameters is an at-rule without a block.
pub proof fn lemma_at_rule_statement(name: TokenView, space: TokenView, param: TokenView, semicolon: TokenView)
    requires
        space.kind == TokenKind::Whitespace,
        param.kind != TokenKind::Whitespace && param.kind != TokenKind::CurlyOpen && param.kind
            != TokenKind::Semicolon,
        is_trimmed_nonempty(param.value),
        semicolon.kind == TokenKind::Semicolon,
    ensures
        parse_at_rule_spec(seq![name, space, param, semicolon], 0) == (
            Ok::<NodeView, ParseError>(NodeView {
                kind: NodeKindView::AtRule { name: name.value, params: param.value },
                children: None,
            }),
            4int,
        ),
{
    let t = seq![name, space, param, semicolon];
    lemma_trim_of_trimmed(param.value);
    assert(skip_whitespace_from(t, 2) == 2);
    assert(skip_whitespace_from(t, 1) == 2);
    assert(Seq::<char>::empty() + param.value == param.value);
    assert(params_scan(t, 3, param.value) == (param.value, 3int));
    assert(params_scan(t, 2, Seq::empty()) == (param.value, 3int));
}

} // verus!
