//! The lexer: CSS text to a flat list of tokens.
//!
//! The whole behaviour is stated by `lex_from`, which describes the tokens
//! produced from a position of the input, one `lex_step` at a time.

use vstd::prelude::*;
use crate::text::{ascii_alpha, ascii_digit, char_string, char_utf8_len, is_ascii_alpha, is_ascii_digit, is_white_space, push_char, str_chars, str_eq, utf8_len, white_space};

verus! {

/// The kinds of token the lexer produces.
#[derive(Debug, PartialEq, Eq, Clone, Copy, Structural)]
pub enum TokenKind {
    Equals,
    ParenOpen,
    ParenClose,
    BracketOpen,
    BracketClose,
    AtRule,
    Comment,
    Identifier,
    String,
    Comma,
    ClassSelector,
    IdSelector,
    TypeSelector,
    UniversalSelector,
    PseudoClass,
    PseudoElement,
    Combinator,
    Number,
    Percentage,
    Dimension,
    Colon,
    Semicolon,
    CurlyOpen,
    CurlyClose,
    Whitespace,
}

/// One token: its kind, its text, and the line and column at which it starts.
#[derive(Debug)]
pub struct Token {
    pub kind: TokenKind,
    pub value: String,
    pub line: usize,
    pub column: usize,
}

/// A token as the specifications see it.
pub struct TokenView {
    pub kind: TokenKind,
    pub value: Seq<char>,
    pub line: int,
    pub column: int,
}

impl View for Token {
    type V = TokenView;

    open spec fn view(&self) -> TokenView {
        TokenView { kind: self.kind, value: self.value@, line: self.line as int, column: self.column as int }
    }
}

/// The views of a sequence of tokens.
pub open spec fn token_views(ts: Seq<Token>) -> Seq<TokenView> {
    ts.map_values(|t: Token| t@)
}

impl Token {
    pub fn new(kind: TokenKind, value: String, line: usize, column: usize) -> (t: Self)
        ensures
            t.kind == kind,
            t.value == value,
            t.line == line,
            t.column == column,
    {
        Self { kind, value, line, column }
    }
}

/// The characters that end a selector, an identifier or a pseudo-class name.
pub enum SelectorDelimiter {
    WhiteSpace,
    Dot,
    CurlyOpen,
    CurlyClose,
    Colon,
    Semicolon,
    Hashtag,
    ParenOpen,
    ParenClose,
    Comma,
    Plus,
    CaretRight,
    Tilde,
    BracketOpen,
    BracketClose,
    Equals,
}

/// The selector delimiters, in the order `SelectorDelimiter::all` lists them.
pub open spec fn selector_delimiters() -> Seq<char> {
    seq![' ', '.', '{', '}', ':', ';', '#', '(', ')', ',', '+', '>', '~', '[', ']', '=']
}

/// `c` is a selector delimiter.
pub open spec fn is_selector_delimiter(c: char) -> bool {
    c == ' ' || c == '.' || c == '{' || c == '}' || c == ':' || c == ';' || c == '#' || c == '('
        || c == ')' || c == ',' || c == '+' || c == '>' || c == '~' || c == '[' || c == ']' || c
        == '='
}

impl SelectorDelimiter {
    pub open spec fn spec_char(&self) -> char {
        match self {
            Self::WhiteSpace => ' ',
            Self::Dot => '.',
            Self::CurlyOpen => '{',
            Self::CurlyClose => '}',
            Self::Colon => ':',
            Self::Semicolon => ';',
            Self::Hashtag => '#',
            Self::ParenOpen => '(',
            Self::ParenClose => ')',
            Self::Comma => ',',
            Self::Plus => '+',
            Self::CaretRight => '>',
            Self::Tilde => '~',
            Self::BracketOpen => '[',
            Self::BracketClose => ']',
            Self::Equals => '=',
        }
    }

    /// All the delimiter characters.
    pub fn all() -> (v: Vec<char>)
        ensures
            v@ == selector_delimiters(),
    {
        vec![
            Self::WhiteSpace.as_char(),
            Self::Dot.as_char(),
            Self::CurlyOpen.as_char(),
            Self::CurlyClose.as_char(),
            Self::Colon.as_char(),
            Self::Semicolon.as_char(),
            Self::Hashtag.as_char(),
            Self::ParenOpen.as_char(),
            Self::ParenClose.as_char(),
            Self::Comma.as_char(),
            Self::Plus.as_char(),
            Self::CaretRight.as_char(),
            Self::Tilde.as_char(),
            Self::BracketOpen.as_char(),
            Self::BracketClose.as_char(),
            Self::Equals.as_char(),
        ]
    }

    fn as_char(&self) -> (c: char)
        ensures
            c == self.spec_char(),
    {
        match self {
            Self::WhiteSpace => ' ',
            Self::Dot => '.',
            Self::CurlyOpen => '{',
            Self::CurlyClose => '}',
            Self::Colon => ':',
            Self::Semicolon => ';',
            Self::Hashtag => '#',
            Self::ParenOpen => '(',
            Self::ParenClose => ')',
            Self::Comma => ',',
            Self::Plus => '+',
            Self::CaretRight => '>',
            Self::Tilde => '~',
            Self::BracketOpen => '[',
            Self::BracketClose => ']',
            Self::Equals => '=',
        }
    }
}

/// Distinct selector delimiters stand for distinct characters.
pub proof fn lemma_delimiter_chars_distinct(a: SelectorDelimiter, b: SelectorDelimiter)
    ensures
        a != b ==> a.spec_char() != b.spec_char(),
{
}

pub proof fn lemma_selector_delimiters(c: char)
    ensures
        selector_delimiters().contains(c) <==> is_selector_delimiter(c),
{
    let d = selector_delimiters();
    assert(d[0] == ' ' && d[1] == '.' && d[2] == '{' && d[3] == '}' && d[4] == ':' && d[5] == ';'
        && d[6] == '#' && d[7] == '(' && d[8] == ')' && d[9] == ',' && d[10] == '+' && d[11]
        == '>' && d[12] == '~' && d[13] == '[' && d[14] == ']' && d[15] == '=');
    if is_selector_delimiter(c) {
        if c == ' ' { assert(d[0] == c); }
        else if c == '.' { assert(d[1] == c); }
        else if c == '{' { assert(d[2] == c); }
        else if c == '}' { assert(d[3] == c); }
        else if c == ':' { assert(d[4] == c); }
        else if c == ';' { assert(d[5] == c); }
        else if c == '#' { assert(d[6] == c); }
        else if c == '(' { assert(d[7] == c); }
        else if c == ')' { assert(d[8] == c); }
        else if c == ',' { assert(d[9] == c); }
        else if c == '+' { assert(d[10] == c); }
        else if c == '>' { assert(d[11] == c); }
        else if c == '~' { assert(d[12] == c); }
        else if c == '[' { assert(d[13] == c); }
        else if c == ']' { assert(d[14] == c); }
        else { assert(d[15] == c); }
    }
}


/// Where the lexer stands: an index into the input's characters, and the
/// line (counted from 1) and column (in UTF-8 bytes, counted from 0) there.
pub struct Cursor {
    pub pos: int,
    pub line: int,
    pub col: int,
}

/// The cursor after stepping over the character `c`: a newline starts the next
/// line at column 0, any other character moves the column by its UTF-8 length.
pub open spec fn advance_char(cur: Cursor, c: char) -> Cursor {
    if c == '\n' {
        Cursor { pos: cur.pos + 1, line: cur.line + 1, col: 0 }
    } else {
        Cursor { pos: cur.pos + 1, line: cur.line, col: cur.col + utf8_len(c) }
    }
}

/// The cursor after stepping over the characters of `s` from `cur.pos` up to `end`.
pub open spec fn advance_to(s: Seq<char>, cur: Cursor, end: int) -> Cursor
    decreases end - cur.pos,
{
    if end <= cur.pos {
        cur
    } else {
        advance_char(advance_to(s, cur, end - 1), s[end - 1])
    }
}

/// One step over the next character, if there is one.
pub open spec fn advance_one(s: Seq<char>, cur: Cursor) -> Cursor {
    if 0 <= cur.pos < s.len() {
        advance_char(cur, s[cur.pos])
    } else {
        cur
    }
}

/// The first index from `i` on whose character is in `stops`, or the end of `s`.
pub open spec fn scan_until(s: Seq<char>, i: int, stops: Seq<char>) -> int
    decreases s.len() - i,
{
    if i >= s.len() {
        s.len() as int
    } else if stops.contains(s[i]) {
        i
    } else {
        scan_until(s, i + 1, stops)
    }
}

/// The first index from `i` on whose character is neither an ASCII digit nor `'.'`.
pub open spec fn scan_number(s: Seq<char>, i: int) -> int
    decreases s.len() - i,
{
    if i >= s.len() {
        s.len() as int
    } else if is_ascii_digit(s[i]) || s[i] == '.' {
        scan_number(s, i + 1)
    } else {
        i
    }
}

/// The first index from `i` on whose character is not an ASCII letter.
pub open spec fn scan_alpha(s: Seq<char>, i: int) -> int
    decreases s.len() - i,
{
    if i >= s.len() {
        s.len() as int
    } else if is_ascii_alpha(s[i]) {
        scan_alpha(s, i + 1)
    } else {
        i
    }
}

/// The first index from `i` on whose character is not white space.
pub open spec fn scan_white_space(s: Seq<char>, i: int) -> int
    decreases s.len() - i,
{
    if i >= s.len() {
        s.len() as int
    } else if is_white_space(s[i]) {
        scan_white_space(s, i + 1)
    } else {
        i
    }
}

/// The element names that the lexer marks as type selectors.
pub open spec fn is_type_selector_name(w: Seq<char>) -> bool {
    ||| w == "html"@
    ||| w == "body"@
    ||| w == "div"@
    ||| w == "section"@
    ||| w == "article"@
    ||| w == "main"@
    ||| w == "header"@
    ||| w == "footer"@
    ||| w == "nav"@
    ||| w == "aside"@
    ||| w == "p"@
    ||| w == "span"@
    ||| w == "a"@
    ||| w == "form"@
    ||| w == "input"@
    ||| w == "button"@
    ||| w == "select"@
    ||| w == "textarea"@
}

/// The kind of the one-character tokens.
pub open spec fn single_char_kind(c: char) -> Option<TokenKind> {
    if c == '[' {
        Some(TokenKind::BracketOpen)
    } else if c == ']' {
        Some(TokenKind::BracketClose)
    } else if c == '=' {
        Some(TokenKind::Equals)
    } else if c == '{' {
        Some(TokenKind::CurlyOpen)
    } else if c == '}' {
        Some(TokenKind::CurlyClose)
    } else if c == ';' {
        Some(TokenKind::Semicolon)
    } else if c == '(' {
        Some(TokenKind::ParenOpen)
    } else if c == ')' {
        Some(TokenKind::ParenClose)
    } else if c == ',' {
        Some(TokenKind::Comma)
    } else if c == '+' || c == '>' || c == '~' {
        Some(TokenKind::Combinator)
    } else {
        None
    }
}

/// A token that starts at `cur`.
pub open spec fn token_at(kind: TokenKind, value: Seq<char>, cur: Cursor) -> TokenView {
    TokenView { kind, value, line: cur.line, column: cur.col }
}

/// `@name`: up to the next space.
pub open spec fn lex_at_rule(s: Seq<char>, cur: Cursor) -> (Option<TokenView>, Cursor) {
    let e = scan_until(s, cur.pos + 1, seq![' ']);
    (Some(token_at(TokenKind::AtRule, s.subrange(cur.pos, e), cur)), advance_to(s, cur, e))
}

/// `/*`: the text up to the next `*`, closed by `*/` whatever the two characters
/// that follow the `*` are; those two are skipped.
pub open spec fn lex_comment(s: Seq<char>, cur: Cursor) -> (Option<TokenView>, Cursor) {
    let e = scan_until(s, cur.pos + 2, seq!['*']);
    (
        Some(token_at(TokenKind::Comment, seq!['/', '*'] + s.subrange(cur.pos + 2, e) + seq!['*', '/'], cur)),
        advance_one(s, advance_one(s, advance_to(s, cur, e))),
    )
}

/// `.name` or `#name`: the name runs up to the next selector delimiter.
pub open spec fn lex_selector(s: Seq<char>, cur: Cursor, kind: TokenKind) -> (Option<TokenView>, Cursor) {
    let e = scan_until(s, cur.pos + 1, selector_delimiters());
    (Some(token_at(kind, s.subrange(cur.pos, e), cur)), advance_to(s, cur, e))
}

/// `::name` (pseudo-element), `:name` with a letter after the colon (pseudo-class),
/// or a lone colon.
pub open spec fn lex_colon(s: Seq<char>, cur: Cursor) -> (Option<TokenView>, Cursor) {
    let p = cur.pos;
    if p + 1 < s.len() && s[p + 1] == ':' {
        let e = scan_until(s, p + 2, selector_delimiters());
        (Some(token_at(TokenKind::PseudoElement, s.subrange(p, e), cur)), advance_to(s, cur, e))
    } else if p + 1 < s.len() && is_ascii_alpha(s[p + 1]) {
        let e = scan_until(s, p + 1, selector_delimiters());
        (Some(token_at(TokenKind::PseudoClass, s.subrange(p, e), cur)), advance_to(s, cur, e))
    } else {
        (Some(token_at(TokenKind::Colon, seq![':'], cur)), advance_to(s, cur, p + 1))
    }
}

/// `"text"` or `'text'`: up to the next matching quote, which is consumed if
/// there is one; the token always ends with the quote.
pub open spec fn lex_string(s: Seq<char>, cur: Cursor, quote: char) -> (Option<TokenView>, Cursor) {
    let e = scan_until(s, cur.pos + 1, seq![quote]);
    (
        Some(token_at(TokenKind::String, seq![quote] + s.subrange(cur.pos + 1, e) + seq![quote], cur)),
        advance_one(s, advance_to(s, cur, e)),
    )
}

/// Digits and dots, then `%` (percentage), letters (dimension), or nothing (number).
pub open spec fn lex_number(s: Seq<char>, cur: Cursor) -> (Option<TokenView>, Cursor) {
    let e = scan_number(s, cur.pos);
    if e < s.len() && s[e] == '%' {
        (Some(token_at(TokenKind::Percentage, s.subrange(cur.pos, e + 1), cur)), advance_to(s, cur, e + 1))
    } else if e < s.len() && is_ascii_alpha(s[e]) {
        let f = scan_alpha(s, e);
        (Some(token_at(TokenKind::Dimension, s.subrange(cur.pos, f), cur)), advance_to(s, cur, f))
    } else {
        (Some(token_at(TokenKind::Number, s.subrange(cur.pos, e), cur)), advance_to(s, cur, e))
    }
}

/// A word up to the next selector delimiter: a type selector if it names one of
/// the listed elements, else an identifier.
pub open spec fn lex_word(s: Seq<char>, cur: Cursor) -> (Option<TokenView>, Cursor) {
    let e = scan_until(s, cur.pos, selector_delimiters());
    let w = s.subrange(cur.pos, e);
    let kind = if is_type_selector_name(w) { TokenKind::TypeSelector } else { TokenKind::Identifier };
    (Some(token_at(kind, w, cur)), advance_to(s, cur, e))
}

/// A run of white space.
pub open spec fn lex_white_space(s: Seq<char>, cur: Cursor) -> (Option<TokenView>, Cursor) {
    let e = scan_white_space(s, cur.pos);
    (Some(token_at(TokenKind::Whitespace, s.subrange(cur.pos, e), cur)), advance_to(s, cur, e))
}

/// The token (if any) that starts at `cur`, and the cursor after it.
/// Characters that start no token are skipped.
pub open spec fn lex_step(s: Seq<char>, cur: Cursor) -> (Option<TokenView>, Cursor) {
    let p = cur.pos;
    let c = s[p];
    if c == '@' {
        lex_at_rule(s, cur)
    } else if c == '/' && p + 1 < s.len() && s[p + 1] == '*' {
        lex_comment(s, cur)
    } else if single_char_kind(c) is Some {
        (Some(token_at(single_char_kind(c)->0, seq![c], cur)), advance_to(s, cur, p + 1))
    } else if c == '.' {
        lex_selector(s, cur, TokenKind::ClassSelector)
    } else if c == '#' {
        lex_selector(s, cur, TokenKind::IdSelector)
    } else if c == ':' {
        lex_colon(s, cur)
    } else if c == '"' || c == '\'' {
        lex_string(s, cur, c)
    } else if is_ascii_digit(c) {
        lex_number(s, cur)
    } else if is_ascii_alpha(c) || c == '-' || c == '_' {
        lex_word(s, cur)
    } else if is_white_space(c) {
        lex_white_space(s, cur)
    } else {
        (None, advance_to(s, cur, p + 1))
    }
}

/// The tokens produced from `cur` to the end of `s`.
pub open spec fn lex_from(s: Seq<char>, cur: Cursor) -> Seq<TokenView>
    decreases s.len() - cur.pos,
{
    if cur.pos < 0 || cur.pos >= s.len() {
        seq![]
    } else {
        let (t, next) = lex_step(s, cur);
        proof {
            lemma_lex_step_progress(s, cur);
        }
        let rest = lex_from(s, next);
        match t {
            Some(tok) => seq![tok] + rest,
            None => rest,
        }
    }
}

/// The cursor at which lexing from `cur` ends.
pub open spec fn lex_end(s: Seq<char>, cur: Cursor) -> Cursor
    decreases s.len() - cur.pos,
{
    if cur.pos < 0 || cur.pos >= s.len() {
        cur
    } else {
        proof {
            lemma_lex_step_progress(s, cur);
        }
        lex_end(s, lex_step(s, cur).1)
    }
}

pub proof fn lemma_advance_to_pos(s: Seq<char>, cur: Cursor, end: int)
    requires
        cur.pos <= end,
    ensures
        advance_to(s, cur, end).pos == end,
    decreases end - cur.pos,
{
    if end > cur.pos {
        lemma_advance_to_pos(s, cur, end - 1);
    }
}

pub proof fn lemma_advance_to_compose(s: Seq<char>, cur: Cursor, a: int, b: int)
    requires
        cur.pos <= a <= b,
    ensures
        advance_to(s, advance_to(s, cur, a), b) == advance_to(s, cur, b),
    decreases b - a,
{
    lemma_advance_to_pos(s, cur, a);
    if b > a {
        lemma_advance_to_compose(s, cur, a, b - 1);
    }
}

pub proof fn lemma_advance_one(s: Seq<char>, cur: Cursor)
    requires
        0 <= cur.pos < s.len(),
    ensures
        advance_one(s, cur) == advance_to(s, cur, cur.pos + 1),
{
    assert(advance_to(s, cur, cur.pos) == cur);
}

pub proof fn lemma_scan_until_bounds(s: Seq<char>, i: int, stops: Seq<char>)
    requires
        i <= s.len(),
    ensures
        i <= scan_until(s, i, stops) <= s.len(),
        scan_until(s, i, stops) < s.len() ==> stops.contains(s[scan_until(s, i, stops)]),
    decreases s.len() - i,
{
    if i < s.len() && !stops.contains(s[i]) {
        lemma_scan_until_bounds(s, i + 1, stops);
    }
}

pub proof fn lemma_scan_number_bounds(s: Seq<char>, i: int)
    requires
        i <= s.len(),
    ensures
        i <= scan_number(s, i) <= s.len(),
    decreases s.len() - i,
{
    if i < s.len() && (is_ascii_digit(s[i]) || s[i] == '.') {
        lemma_scan_number_bounds(s, i + 1);
    }
}

pub proof fn lemma_scan_white_space_bounds(s: Seq<char>, i: int)
    requires
        i <= s.len(),
    ensures
        i <= scan_white_space(s, i) <= s.len(),
    decreases s.len() - i,
{
    if i < s.len() && is_white_space(s[i]) {
        lemma_scan_white_space_bounds(s, i + 1);
    }
}

pub proof fn lemma_scan_alpha_bounds(s: Seq<char>, i: int)
    requires
        i <= s.len(),
    ensures
        i <= scan_alpha(s, i) <= s.len(),
    decreases s.len() - i,
{
    if i < s.len() && is_ascii_alpha(s[i]) {
        lemma_scan_alpha_bounds(s, i + 1);
    }
}

/// Each step moves the cursor forward, and never past the end.
pub proof fn lemma_lex_step_progress(s: Seq<char>, cur: Cursor)
    requires
        0 <= cur.pos < s.len(),
    ensures
        cur.pos < lex_step(s, cur).1.pos <= s.len(),
{
    let p = cur.pos;
    let c = s[p];
    lemma_selector_delimiters(c);
    lemma_scan_until_bounds(s, p + 1, seq![' ']);
    lemma_scan_until_bounds(s, p + 1, selector_delimiters());
    lemma_scan_until_bounds(s, p + 1, seq![c]);
    lemma_scan_until_bounds(s, p, selector_delimiters());
    lemma_scan_number_bounds(s, p);
    if p + 2 <= s.len() {
        lemma_scan_until_bounds(s, p + 2, seq!['*']);
        lemma_scan_until_bounds(s, p + 2, selector_delimiters());
    }
    lemma_advance_to_pos(s, cur, p + 1);
    if c == '@' {
        lemma_advance_to_pos(s, cur, scan_until(s, p + 1, seq![' ']));
    } else if c == '/' && p + 1 < s.len() && s[p + 1] == '*' {
        lemma_advance_to_pos(s, cur, scan_until(s, p + 2, seq!['*']));
    } else if single_char_kind(c) is Some {
    } else if c == '.' || c == '#' {
        lemma_advance_to_pos(s, cur, scan_until(s, p + 1, selector_delimiters()));
    } else if c == ':' {
        if p + 1 < s.len() && s[p + 1] == ':' {
            lemma_advance_to_pos(s, cur, scan_until(s, p + 2, selector_delimiters()));
        } else if p + 1 < s.len() && is_ascii_alpha(s[p + 1]) {
            lemma_advance_to_pos(s, cur, scan_until(s, p + 1, selector_delimiters()));
        }
    } else if c == '"' || c == '\'' {
        lemma_advance_to_pos(s, cur, scan_until(s, p + 1, seq![c]));
    } else if is_ascii_digit(c) {
        let e = scan_number(s, p);
        assert(e == scan_number(s, p + 1));
        lemma_scan_number_bounds(s, p + 1);
        if e < s.len() && s[e] == '%' {
            lemma_advance_to_pos(s, cur, e + 1);
        } else if e < s.len() && is_ascii_alpha(s[e]) {
            lemma_scan_alpha_bounds(s, e);
            lemma_advance_to_pos(s, cur, scan_alpha(s, e));
        } else {
            lemma_advance_to_pos(s, cur, e);
        }
    } else if is_ascii_alpha(c) || c == '-' || c == '_' {
        let e = scan_until(s, p, selector_delimiters());
        assert(e == scan_until(s, p + 1, selector_delimiters()));
        lemma_advance_to_pos(s, cur, e);
    } else if is_white_space(c) {
        let e = scan_white_space(s, p);
        assert(e == scan_white_space(s, p + 1));
        lemma_scan_white_space_bounds(s, p + 1);
        lemma_advance_to_pos(s, cur, e);
    }
}


/// The cursor lies within `s` and the line and column counters cannot overflow
/// before the end of `s` is reached (a column grows by at most 4 per character).
pub open spec fn cursor_fits(s: Seq<char>, cur: Cursor) -> bool {
    &&& 0 <= cur.pos <= s.len()
    &&& 0 <= cur.line
    &&& 0 <= cur.col
    &&& cur.line + (s.len() - cur.pos) <= usize::MAX
    &&& cur.col + 4 * (s.len() - cur.pos) <= usize::MAX
}

/// The optional token as the specifications see it.
pub open spec fn opt_token_view(t: Option<Token>) -> Option<TokenView> {
    match t {
        Some(tok) => Some(tok@),
        None => None,
    }
}

/// The characters that an optional stop list holds.
pub open spec fn stop_chars(stop_at: Option<&[char]>) -> Seq<char> {
    match stop_at {
        Some(stops) => stops@,
        None => Seq::empty(),
    }
}

fn stops_contain(stop_at: Option<&[char]>, c: char) -> (r: bool)
    ensures
        r == stop_chars(stop_at).contains(c),
{
    match stop_at {
        None => false,
        Some(stops) => {
            let n = stops.len();
            for i in 0..n
                invariant
                    n == stops@.len(),
                    stop_chars(stop_at) == stops@,
                    forall|j: int| 0 <= j < i ==> stops@[j] != c,
            {
                if stops[i] == c {
                    assert(stop_chars(stop_at) == stops@);
                    assert(stops@[i as int] == c);
                    return true;
                }
            }
            assert(stop_chars(stop_at) == stops@);
            false
        },
    }
}

/// Reads CSS text and produces tokens.
#[derive(Debug, Clone, Copy)]
pub struct Lexer<'a> {
    pub input_str: &'a str,
    line_count: usize,
    column_count: usize,
    current: usize,
}

impl<'a> Lexer<'a> {
    /// Where the lexer stands in `input_str`.
    pub closed spec fn cursor(&self) -> Cursor {
        Cursor { pos: self.current as int, line: self.line_count as int, col: self.column_count as int }
    }

    /// The cursor lies within the input and its counters cannot overflow.
    pub closed spec fn wf(&self) -> bool {
        cursor_fits(self.input_str@, self.cursor())
    }

    /// The characters of `input_str`.
    pub closed spec fn input(&self) -> Seq<char> {
        self.input_str@
    }

    /// What `wf` says, for callers outside this module.
    pub proof fn lemma_wf(&self)
        ensures
            self.wf() == cursor_fits(self.input(), self.cursor()),
    {
    }

    /// A lexer at the start of `input_str`: line 1, column 0.
    pub fn new(input_str: &'a str) -> (l: Self)
        ensures
            l.input() == input_str@,
            l.cursor() == (Cursor { pos: 0, line: 1, col: 0 }),
            l.wf() == cursor_fits(input_str@, l.cursor()),
    {
        Self { input_str, line_count: 1, column_count: 0, current: 0 }
    }

    fn peek(&self, chars: &Vec<char>) -> (r: Option<char>)
        requires
            chars@ == self.input_str@,
            self.wf(),
        ensures
            r == (if self.current < chars@.len() { Some(chars@[self.current as int]) } else { None }),
    {
        if self.current < chars.len() {
            Some(chars[self.current])
        } else {
            None
        }
    }

    fn peek_next(&self, chars: &Vec<char>) -> (r: Option<char>)
        requires
            chars@ == self.input_str@,
            self.wf(),
        ensures
            r == (if self.current + 1 < chars@.len() { Some(chars@[self.current + 1]) } else { None }),
    {
        if self.current < chars.len() && chars.len() - self.current > 1 {
            Some(chars[self.current + 1])
        } else {
            None
        }
    }

    fn advance(&mut self, chars: &Vec<char>) -> (r: Option<char>)
        requires
            chars@ == old(self).input_str@,
            old(self).wf(),
        ensures
            final(self).input_str == old(self).input_str,
            final(self).wf(),
            final(self).cursor() == advance_one(chars@, old(self).cursor()),
            r == (if old(self).current < chars@.len() { Some(chars@[old(self).current as int]) } else { None }),
    {
        if self.current < chars.len() {
            let c = chars[self.current];
            self.current = self.current + 1;
            if c == '\n' {
                self.line_count = self.line_count + 1;
                self.column_count = 0;
            } else {
                self.column_count = self.column_count + char_utf8_len(c);
            }
            Some(c)
        } else {
            None
        }
    }

    /// Takes the characters up to (not including) the first one in `stop_at`.
    fn consume_into_string(&mut self, chars: &Vec<char>, stop_at: Option<&[char]>) -> (value: String)
        requires
            chars@ == old(self).input_str@,
            old(self).wf(),
        ensures
            final(self).input_str == old(self).input_str,
            final(self).wf(),
            ({
                let e = scan_until(chars@, old(self).cursor().pos, stop_chars(stop_at));
                &&& value@ == chars@.subrange(old(self).cursor().pos, e)
                &&& final(self).cursor() == advance_to(chars@, old(self).cursor(), e)
            }),
    {
        let ghost s = chars@;
        let ghost c0 = self.cursor();
        let ghost e = scan_until(s, c0.pos, stop_chars(stop_at));
        proof {
            lemma_scan_until_bounds(s, c0.pos, stop_chars(stop_at));
        }
        let mut value = String::new();
        while self.current < chars.len() && !stops_contain(stop_at, chars[self.current])
            invariant
                chars@ == s,
                s == self.input_str@,
                self.input_str == old(self).input_str,
                self.wf(),
                0 <= c0.pos <= self.current <= e,
                e == scan_until(s, self.current as int, stop_chars(stop_at)),
                self.cursor() == advance_to(s, c0, self.current as int),
                value@ == s.subrange(c0.pos, self.current as int),
            decreases chars.len() - self.current,
        {
            let c = chars[self.current];
            proof {
                lemma_advance_one(s, self.cursor());
                lemma_advance_to_compose(s, c0, self.current as int, self.current + 1);
                lemma_scan_until_bounds(s, self.current + 1, stop_chars(stop_at));
                lemma_advance_to_pos(s, c0, self.current as int);
            }
            self.advance(chars);
            push_char(&mut value, c);
            assert(value@ =~= s.subrange(c0.pos, self.current as int));
        }
        value
    }

    /// Takes the characters up to the first selector delimiter.
    fn consume_selector(&mut self, chars: &Vec<char>) -> (value: String)
        requires
            chars@ == old(self).input_str@,
            old(self).wf(),
        ensures
            final(self).input_str == old(self).input_str,
            final(self).wf(),
            ({
                let e = scan_until(chars@, old(self).cursor().pos, selector_delimiters());
                &&& value@ == chars@.subrange(old(self).cursor().pos, e)
                &&& final(self).cursor() == advance_to(chars@, old(self).cursor(), e)
            }),
    {
        let delimiters = SelectorDelimiter::all();
        self.consume_into_string(chars, Some(delimiters.as_slice()))
    }

    /// `@name`.
    fn read_at_rule(&mut self, chars: &Vec<char>) -> (t: Token)
        requires
            chars@ == old(self).input_str@,
            old(self).wf(),
            old(self).current < chars@.len(),
            chars@[old(self).current as int] == '@',
        ensures
            final(self).input_str == old(self).input_str,
            final(self).wf(),
            (Some(t@), final(self).cursor()) == lex_at_rule(chars@, old(self).cursor()),
    {
        let ghost s = chars@;
        let ghost c0 = self.cursor();
        let line = self.line_count;
        let column = self.column_count;
        self.advance(chars);
        let stops = [' '];
        let stops = stops.as_slice();
        assert(stops@ == seq![' ']);
        let rule = self.consume_into_string(chars, Some(stops));
        let ghost e = scan_until(s, c0.pos + 1, seq![' ']);
        proof {
            lemma_advance_one(s, c0);
            lemma_scan_until_bounds(s, c0.pos + 1, seq![' ']);
            lemma_advance_to_compose(s, c0, c0.pos + 1, e);
        }
        let mut value = char_string('@');
        value.append(rule.as_str());
        assert(value@ =~= s.subrange(c0.pos, e));
        Token::new(TokenKind::AtRule, value, line, column)
    }

    /// `/* ... */`.
    fn read_comment(&mut self, chars: &Vec<char>) -> (t: Token)
        requires
            chars@ == old(self).input_str@,
            old(self).wf(),
            old(self).current + 1 < chars@.len(),
            chars@[old(self).current as int] == '/',
            chars@[old(self).current + 1] == '*',
        ensures
            final(self).input_str == old(self).input_str,
            final(self).wf(),
            (Some(t@), final(self).cursor()) == lex_comment(chars@, old(self).cursor()),
    {
        let ghost s = chars@;
        let ghost c0 = self.cursor();
        let line = self.line_count;
        let column = self.column_count;
        self.advance(chars);
        proof {
            lemma_advance_one(s, c0);
            lemma_advance_one(s, advance_to(s, c0, c0.pos + 1));
            lemma_advance_to_compose(s, c0, c0.pos + 1, c0.pos + 2);
        }
        self.advance(chars);
        let stops = ['*'];
        let stops = stops.as_slice();
        assert(stops@ == seq!['*']);
        let comment = self.consume_into_string(chars, Some(stops));
        let ghost e = scan_until(s, c0.pos + 2, seq!['*']);
        proof {
            lemma_scan_until_bounds(s, c0.pos + 2, seq!['*']);
            lemma_advance_to_compose(s, c0, c0.pos + 2, e);
        }
        self.advance(chars);
        self.advance(chars);
        let mut value = char_string('/');
        push_char(&mut value, '*');
        value.append(comment.as_str());
        push_char(&mut value, '*');
        push_char(&mut value, '/');
        assert(value@ =~= seq!['/', '*'] + s.subrange(c0.pos + 2, e) + seq!['*', '/']);
        Token::new(TokenKind::Comment, value, line, column)
    }

    /// `.name` or `#name`.
    fn read_selector(&mut self, chars: &Vec<char>, kind: TokenKind) -> (t: Token)
        requires
            chars@ == old(self).input_str@,
            old(self).wf(),
            old(self).current < chars@.len(),
        ensures
            final(self).input_str == old(self).input_str,
            final(self).wf(),
            (Some(t@), final(self).cursor()) == lex_selector(chars@, old(self).cursor(), kind),
    {
        let ghost s = chars@;
        let ghost c0 = self.cursor();
        let line = self.line_count;
        let column = self.column_count;
        let c = chars[self.current];
        self.advance(chars);
        let name = self.consume_selector(chars);
        let ghost e = scan_until(s, c0.pos + 1, selector_delimiters());
        proof {
            lemma_advance_one(s, c0);
            lemma_scan_until_bounds(s, c0.pos + 1, selector_delimiters());
            lemma_advance_to_compose(s, c0, c0.pos + 1, e);
        }
        let mut value = char_string(c);
        value.append(name.as_str());
        assert(value@ =~= s.subrange(c0.pos, e));
        Token::new(kind, value, line, column)
    }

    /// `::name`, `:name` or `:`.
    fn read_colon(&mut self, chars: &Vec<char>) -> (t: Token)
        requires
            chars@ == old(self).input_str@,
            old(self).wf(),
            old(self).current < chars@.len(),
            chars@[old(self).current as int] == ':',
        ensures
            final(self).input_str == old(self).input_str,
            final(self).wf(),
            (Some(t@), final(self).cursor()) == lex_colon(chars@, old(self).cursor()),
    {
        let ghost s = chars@;
        let ghost c0 = self.cursor();
        let line = self.line_count;
        let column = self.column_count;
        let next = self.peek_next(chars);
        proof {
            lemma_advance_one(s, c0);
        }
        match next {
            Some(nc) if nc == ':' => {
                self.advance(chars);
                proof {
                    lemma_advance_one(s, advance_to(s, c0, c0.pos + 1));
                    lemma_advance_to_compose(s, c0, c0.pos + 1, c0.pos + 2);
                }
                self.advance(chars);
                let name = self.consume_selector(chars);
                let ghost e = scan_until(s, c0.pos + 2, selector_delimiters());
                proof {
                    lemma_scan_until_bounds(s, c0.pos + 2, selector_delimiters());
                    lemma_advance_to_compose(s, c0, c0.pos + 2, e);
                }
                let mut value = char_string(':');
                push_char(&mut value, ':');
                value.append(name.as_str());
                assert(value@ =~= s.subrange(c0.pos, e));
                Token::new(TokenKind::PseudoElement, value, line, column)
            },
            Some(nc) if ascii_alpha(nc) => {
                self.advance(chars);
                let name = self.consume_selector(chars);
                let ghost e = scan_until(s, c0.pos + 1, selector_delimiters());
                proof {
                    lemma_scan_until_bounds(s, c0.pos + 1, selector_delimiters());
                    lemma_advance_to_compose(s, c0, c0.pos + 1, e);
                }
                let mut value = char_string(':');
                value.append(name.as_str());
                assert(value@ =~= s.subrange(c0.pos, e));
                Token::new(TokenKind::PseudoClass, value, line, column)
            },
            _ => {
                self.advance(chars);
                Token::new(TokenKind::Colon, char_string(':'), line, column)
            },
        }
    }

    /// `"text"` or `'text'`.
    fn read_string(&mut self, chars: &Vec<char>, quote: char) -> (t: Token)
        requires
            chars@ == old(self).input_str@,
            old(self).wf(),
            old(self).current < chars@.len(),
            chars@[old(self).current as int] == quote,
        ensures
            final(self).input_str == old(self).input_str,
            final(self).wf(),
            (Some(t@), final(self).cursor()) == lex_string(chars@, old(self).cursor(), quote),
    {
        let ghost s = chars@;
        let ghost c0 = self.cursor();
        let line = self.line_count;
        let column = self.column_count;
        self.advance(chars);
        let stops = [quote];
        let stops = stops.as_slice();
        assert(stops@ == seq![quote]);
        let val = self.consume_into_string(chars, Some(stops));
        let ghost e = scan_until(s, c0.pos + 1, seq![quote]);
        proof {
            lemma_advance_one(s, c0);
            lemma_scan_until_bounds(s, c0.pos + 1, seq![quote]);
            lemma_advance_to_compose(s, c0, c0.pos + 1, e);
            lemma_advance_to_pos(s, c0, e);
            if e < s.len() {
                let k = choose|k: int| 0 <= k < seq![quote].len() && seq![quote][k] == s[e];
                assert(s[e] == quote);
            }
        }
        match self.peek(chars) {
            Some(c) => {
                if c == quote {
                    self.advance(chars);
                }
            },
            None => {},
        }
        let mut value = char_string(quote);
        value.append(val.as_str());
        push_char(&mut value, quote);
        assert(value@ =~= seq![quote] + s.subrange(c0.pos + 1, e) + seq![quote]);
        Token::new(TokenKind::String, value, line, column)
    }

    /// Digits and dots, with a `%` or a unit after them, if any.
    fn read_number(&mut self, chars: &Vec<char>) -> (t: Token)
        requires
            chars@ == old(self).input_str@,
            old(self).wf(),
            old(self).current < chars@.len(),
        ensures
            final(self).input_str == old(self).input_str,
            final(self).wf(),
            (Some(t@), final(self).cursor()) == lex_number(chars@, old(self).cursor()),
    {
        let ghost s = chars@;
        let ghost c0 = self.cursor();
        let ghost e = scan_number(s, c0.pos);
        proof {
            lemma_scan_number_bounds(s, c0.pos);
        }
        let line = self.line_count;
        let column = self.column_count;
        let mut num = String::new();
        while self.current < chars.len() && (ascii_digit(chars[self.current]) || chars[self.current] == '.')
            invariant
                chars@ == s,
                s == self.input_str@,
                self.input_str == old(self).input_str,
                self.wf(),
                0 <= c0.pos <= self.current <= e,
                e == scan_number(s, self.current as int),
                self.cursor() == advance_to(s, c0, self.current as int),
                num@ == s.subrange(c0.pos, self.current as int),
            decreases chars.len() - self.current,
        {
            let nc = chars[self.current];
            proof {
                lemma_advance_one(s, self.cursor());
                lemma_advance_to_compose(s, c0, self.current as int, self.current + 1);
                lemma_scan_number_bounds(s, self.current + 1);
            }
            push_char(&mut num, nc);
            self.advance(chars);
            assert(num@ =~= s.subrange(c0.pos, self.current as int));
        }
        let ghost after_digits = self.cursor();
        let next = self.peek(chars);
        let percent = match next {
            Some(nc) => nc == '%',
            None => false,
        };
        let unit_follows = match next {
            Some(nc) => ascii_alpha(nc),
            None => false,
        };
        if percent {
            push_char(&mut num, '%');
            self.advance(chars);
            proof {
                lemma_advance_one(s, after_digits);
                lemma_advance_to_compose(s, c0, e, e + 1);
            }
            assert(num@ =~= s.subrange(c0.pos, e + 1));
            Token::new(TokenKind::Percentage, num, line, column)
        } else if unit_follows {
            let ghost f = scan_alpha(s, e);
            proof {
                lemma_scan_alpha_bounds(s, e);
            }
            let mut unit = String::new();
            while self.current < chars.len() && ascii_alpha(chars[self.current])
                invariant
                    chars@ == s,
                    s == self.input_str@,
                    self.input_str == old(self).input_str,
                    self.wf(),
                    0 <= c0.pos <= e <= self.current <= f,
                    f == scan_alpha(s, self.current as int),
                    self.cursor() == advance_to(s, c0, self.current as int),
                    unit@ == s.subrange(e, self.current as int),
                decreases chars.len() - self.current,
            {
                let uc = chars[self.current];
                proof {
                    lemma_advance_one(s, self.cursor());
                    lemma_advance_to_compose(s, c0, self.current as int, self.current + 1);
                    lemma_scan_alpha_bounds(s, self.current + 1);
                }
                push_char(&mut unit, uc);
                self.advance(chars);
                assert(unit@ =~= s.subrange(e, self.current as int));
            }
            num.append(unit.as_str());
            assert(num@ =~= s.subrange(c0.pos, f));
            Token::new(TokenKind::Dimension, num, line, column)
        } else {
            Token::new(TokenKind::Number, num, line, column)
        }
    }

    /// A run of white space.
    fn read_white_space(&mut self, chars: &Vec<char>) -> (t: Token)
        requires
            chars@ == old(self).input_str@,
            old(self).wf(),
            old(self).current < chars@.len(),
        ensures
            final(self).input_str == old(self).input_str,
            final(self).wf(),
            (Some(t@), final(self).cursor()) == lex_white_space(chars@, old(self).cursor()),
    {
        let ghost s = chars@;
        let ghost c0 = self.cursor();
        let ghost e = scan_white_space(s, c0.pos);
        proof {
            lemma_scan_white_space_bounds(s, c0.pos);
        }
        let line = self.line_count;
        let column = self.column_count;
        let mut run = String::new();
        while self.current < chars.len() && white_space(chars[self.current])
            invariant
                chars@ == s,
                s == self.input_str@,
                self.input_str == old(self).input_str,
                self.wf(),
                0 <= c0.pos <= self.current <= e,
                e == scan_white_space(s, self.current as int),
                self.cursor() == advance_to(s, c0, self.current as int),
                run@ == s.subrange(c0.pos, self.current as int),
            decreases chars.len() - self.current,
        {
            let wc = chars[self.current];
            proof {
                lemma_advance_one(s, self.cursor());
                lemma_advance_to_compose(s, c0, self.current as int, self.current + 1);
                lemma_scan_white_space_bounds(s, self.current + 1);
            }
            push_char(&mut run, wc);
            self.advance(chars);
            assert(run@ =~= s.subrange(c0.pos, self.current as int));
        }
        Token::new(TokenKind::Whitespace, run, line, column)
    }

    /// A word: a type selector or an identifier.
    fn read_word(&mut self, chars: &Vec<char>) -> (t: Token)
        requires
            chars@ == old(self).input_str@,
            old(self).wf(),
            old(self).current < chars@.len(),
        ensures
            final(self).input_str == old(self).input_str,
            final(self).wf(),
            (Some(t@), final(self).cursor()) == lex_word(chars@, old(self).cursor()),
    {
        let line = self.line_count;
        let column = self.column_count;
        let ident = self.consume_selector(chars);
        if is_type_selector(ident.as_str()) {
            Token::new(TokenKind::TypeSelector, ident, line, column)
        } else {
            Token::new(TokenKind::Identifier, ident, line, column)
        }
    }

    /// The token that starts at the cursor, if any; characters that start no
    /// token are skipped.
    fn read_token(&mut self, chars: &Vec<char>) -> (t: Option<Token>)
        requires
            chars@ == old(self).input_str@,
            old(self).wf(),
            old(self).current < chars@.len(),
        ensures
            final(self).input_str == old(self).input_str,
            final(self).wf(),
            (opt_token_view(t), final(self).cursor()) == lex_step(chars@, old(self).cursor()),
    {
        let ghost s = chars@;
        let ghost c0 = self.cursor();
        let line = self.line_count;
        let column = self.column_count;
        let c = chars[self.current];
        let star_next = match self.peek_next(chars) {
            Some(nc) => nc == '*',
            None => false,
        };
        proof {
            lemma_advance_one(s, c0);
        }
        if c == '@' {
            Some(self.read_at_rule(chars))
        } else if c == '/' && star_next {
            Some(self.read_comment(chars))
        } else if let Some(kind) = single_char_token_kind(c) {
            self.advance(chars);
            Some(Token::new(kind, char_string(c), line, column))
        } else if c == '.' {
            Some(self.read_selector(chars, TokenKind::ClassSelector))
        } else if c == '#' {
            Some(self.read_selector(chars, TokenKind::IdSelector))
        } else if c == ':' {
            Some(self.read_colon(chars))
        } else if c == '"' || c == '\'' {
            Some(self.read_string(chars, c))
        } else if ascii_digit(c) {
            Some(self.read_number(chars))
        } else if ascii_alpha(c) || c == '-' || c == '_' {
            Some(self.read_word(chars))
        } else if white_space(c) {
            Some(self.read_white_space(chars))
        } else {
            self.advance(chars);
            None
        }
    }

    /// Turns the rest of the input into tokens.
    pub fn tokenize(&mut self) -> (tokens: Vec<Token>)
        requires
            old(self).wf(),
        ensures
            final(self).input() == old(self).input(),
            final(self).wf(),
            token_views(tokens@) == lex_from(old(self).input(), old(self).cursor()),
            final(self).cursor() == lex_end(old(self).input(), old(self).cursor()),
    {
        let chars = str_chars(self.input_str);
        let ghost s = chars@;
        let ghost c0 = self.cursor();
        let mut tokens: Vec<Token> = Vec::new();
        assert(token_views(tokens@) =~= Seq::<TokenView>::empty());
        while self.current < chars.len()
            invariant
                chars@ == s,
                s == self.input_str@,
                self.input_str == old(self).input_str,
                self.wf(),
                token_views(tokens@) + lex_from(s, self.cursor()) == lex_from(s, c0),
                lex_end(s, self.cursor()) == lex_end(s, c0),
            decreases chars.len() - self.current,
        {
            let ghost before = self.cursor();
            let ghost before_tokens = tokens@;
            let t = self.read_token(&chars);
            proof {
                lemma_lex_step_progress(s, before);
            }
            match t {
                Some(tok) => {
                    tokens.push(tok);
                    assert(token_views(tokens@) =~= token_views(before_tokens).push(tok@));
                    assert(lex_from(s, before) == seq![tok@] + lex_from(s, self.cursor()));
                    assert(token_views(tokens@) + lex_from(s, self.cursor()) =~= token_views(before_tokens) + lex_from(s, before));
                },
                None => {},
            }
        }
        tokens
    }
}

/// Whether `w` names one of the elements the lexer marks as type selectors.
fn is_type_selector(w: &str) -> (r: bool)
    ensures
        r == is_type_selector_name(w@),
{
    str_eq(w, "html") || str_eq(w, "body") || str_eq(w, "div") || str_eq(w, "section") || str_eq(
        w,
        "article",
    ) || str_eq(w, "main") || str_eq(w, "header") || str_eq(w, "footer") || str_eq(w, "nav")
        || str_eq(w, "aside") || str_eq(w, "p") || str_eq(w, "span") || str_eq(w, "a") || str_eq(
        w,
        "form",
    ) || str_eq(w, "input") || str_eq(w, "button") || str_eq(w, "select") || str_eq(
        w,
        "textarea",
    )
}

fn single_char_token_kind(c: char) -> (r: Option<TokenKind>)
    ensures
        r == single_char_kind(c),
{
    if c == '[' {
        Some(TokenKind::BracketOpen)
    } else if c == ']' {
        Some(TokenKind::BracketClose)
    } else if c == '=' {
        Some(TokenKind::Equals)
    } else if c == '{' {
        Some(TokenKind::CurlyOpen)
    } else if c == '}' {
        Some(TokenKind::CurlyClose)
    } else if c == ';' {
        Some(TokenKind::Semicolon)
    } else if c == '(' {
        Some(TokenKind::ParenOpen)
    } else if c == ')' {
        Some(TokenKind::ParenClose)
    } else if c == ',' {
        Some(TokenKind::Comma)
    } else if c == '+' || c == '>' || c == '~' {
        Some(TokenKind::Combinator)
    } else {
        None
    }
}


/// The cursor at the start of a text: position 0, line 1, column 0.
pub open spec fn start_cursor() -> Cursor {
    Cursor { pos: 0, line: 1, col: 0 }
}

/// The number of newlines in `s`.
pub open spec fn newlines(s: Seq<char>) -> nat
    decreases s.len(),
{
    if s.len() == 0 {
        0
    } else {
        newlines(s.drop_last()) + if s.last() == '\n' { 1nat } else { 0nat }
    }
}

/// The number of UTF-8 bytes after the last newline of `s` (all of `s` if it has none).
pub open spec fn bytes_since_newline(s: Seq<char>) -> nat
    decreases s.len(),
{
    if s.len() == 0 {
        0
    } else if s.last() == '\n' {
        0
    } else {
        bytes_since_newline(s.drop_last()) + utf8_len(s.last())
    }
}

/// Token `t` of text `s` carries the line and column of a character of `s`
/// with which its text begins.
pub open spec fn token_located(s: Seq<char>, t: TokenView) -> bool {
    exists|q: int|
        0 <= q < s.len() && t.line == 1 + newlines(s.take(q)) && t.column == bytes_since_newline(s.take(q))
            && t.value.len() > 0 && t.value[0] == s[q]
}

/// From the start of a text, the cursor at position `p` stands on line
/// 1 + (newlines before `p`), at the column counting the bytes since the last of them.
pub proof fn lemma_cursor_closed_form(s: Seq<char>, p: int)
    requires
        0 <= p <= s.len(),
    ensures
        advance_to(s, start_cursor(), p) == (Cursor { pos: p, line: 1 + newlines(s.take(p)) as int, col: bytes_since_newline(s.take(p)) as int }),
    decreases p,
{
    if p > 0 {
        lemma_cursor_closed_form(s, p - 1);
        assert(s.take(p).drop_last() == s.take(p - 1));
    }
}

/// The cursor after a step is the cursor after stepping over the characters it read.
pub proof fn lemma_lex_step_advances(s: Seq<char>, cur: Cursor)
    requires
        0 <= cur.pos < s.len(),
    ensures
        lex_step(s, cur).1 == advance_to(s, cur, lex_step(s, cur).1.pos),
{
    lemma_lex_step_progress(s, cur);
    let p = cur.pos;
    let c = s[p];
    let next = lex_step(s, cur).1;
    if c == '/' && p + 1 < s.len() && s[p + 1] == '*' {
        let e = scan_until(s, p + 2, seq!['*']);
        lemma_scan_until_bounds(s, p + 2, seq!['*']);
        lemma_advance_to_pos(s, cur, e);
        let a = advance_to(s, cur, e);
        if e < s.len() {
            lemma_advance_one(s, a);
            lemma_advance_to_compose(s, cur, e, e + 1);
            let b = advance_to(s, cur, e + 1);
            lemma_advance_to_pos(s, cur, e + 1);
            if e + 1 < s.len() {
                lemma_advance_one(s, b);
                lemma_advance_to_compose(s, cur, e + 1, e + 2);
                lemma_advance_to_pos(s, cur, e + 2);
            }
        }
    } else if c == '@' {
        let e = scan_until(s, p + 1, seq![' ']);
        lemma_scan_until_bounds(s, p + 1, seq![' ']);
        lemma_advance_to_pos(s, cur, e);
    } else if single_char_kind(c) is Some {
        lemma_advance_to_pos(s, cur, p + 1);
    } else if c == '.' || c == '#' {
        let e = scan_until(s, p + 1, selector_delimiters());
        lemma_scan_until_bounds(s, p + 1, selector_delimiters());
        lemma_advance_to_pos(s, cur, e);
    } else if c == ':' {
        if p + 1 < s.len() && s[p + 1] == ':' {
            let e = scan_until(s, p + 2, selector_delimiters());
            lemma_scan_until_bounds(s, p + 2, selector_delimiters());
            lemma_advance_to_pos(s, cur, e);
        } else if p + 1 < s.len() && is_ascii_alpha(s[p + 1]) {
            let e = scan_until(s, p + 1, selector_delimiters());
            lemma_scan_until_bounds(s, p + 1, selector_delimiters());
            lemma_advance_to_pos(s, cur, e);
        } else {
            lemma_advance_to_pos(s, cur, p + 1);
        }
    } else if c == '"' || c == '\'' {
        let e = scan_until(s, p + 1, seq![c]);
        lemma_scan_until_bounds(s, p + 1, seq![c]);
        lemma_advance_to_pos(s, cur, e);
        if e < s.len() {
            lemma_advance_one(s, advance_to(s, cur, e));
            lemma_advance_to_compose(s, cur, e, e + 1);
            lemma_advance_to_pos(s, cur, e + 1);
        }
    } else if is_ascii_digit(c) {
        let e = scan_number(s, p);
        lemma_scan_number_bounds(s, p);
        if e < s.len() && s[e] == '%' {
            lemma_advance_to_pos(s, cur, e + 1);
        } else if e < s.len() && is_ascii_alpha(s[e]) {
            lemma_scan_alpha_bounds(s, e);
            lemma_advance_to_pos(s, cur, scan_alpha(s, e));
        } else {
            lemma_advance_to_pos(s, cur, e);
        }
    } else if is_ascii_alpha(c) || c == '-' || c == '_' {
        let e = scan_until(s, p, selector_delimiters());
        lemma_scan_until_bounds(s, p, selector_delimiters());
        lemma_advance_to_pos(s, cur, e);
    } else if is_white_space(c) {
        let e = scan_white_space(s, p);
        lemma_scan_white_space_bounds(s, p);
        lemma_advance_to_pos(s, cur, e);
    } else {
        lemma_advance_to_pos(s, cur, p + 1);
    }
}

/// Lexing from position `p` of a text, every token carries the line and column
/// of the character its text begins with.
pub proof fn lemma_tokens_located_from(s: Seq<char>, p: int)
    requires
        0 <= p <= s.len(),
    ensures
        forall|k: int| 0 <= k < lex_from(s, advance_to(s, start_cursor(), p)).len()
            ==> #[trigger] token_located(s, lex_from(s, advance_to(s, start_cursor(), p))[k]),
    decreases s.len() - p,
{
    let cur = advance_to(s, start_cursor(), p);
    lemma_cursor_closed_form(s, p);
    if p < s.len() {
        lemma_lex_step_progress(s, cur);
        lemma_lex_step_advances(s, cur);
        lemma_token_begins_at_cursor(s, cur);
        let (t, next) = lex_step(s, cur);
        lemma_advance_to_compose(s, start_cursor(), p, next.pos);
        lemma_tokens_located_from(s, next.pos);
        let rest = lex_from(s, next);
        if let Some(tok) = t {
            assert(token_located(s, tok)) by {
                assert(tok.line == 1 + newlines(s.take(p)) && tok.column == bytes_since_newline(s.take(p)));
            }
            assert forall|k: int| 0 <= k < lex_from(s, cur).len() implies #[trigger] token_located(s, lex_from(s, cur)[k]) by {
                if k > 0 {
                    assert(lex_from(s, cur)[k] == rest[k - 1]);
                }
            }
        }
    }
}

/// A token's text begins with the character at the cursor where it starts, and
/// it carries that cursor's line and column.
pub proof fn lemma_token_begins_at_cursor(s: Seq<char>, cur: Cursor)
    requires
        0 <= cur.pos < s.len(),
    ensures
        lex_step(s, cur).0 matches Some(t) ==> t.value.len() > 0 && t.value[0] == s[cur.pos]
            && t.line == cur.line && t.column == cur.col,
{
    lemma_lex_step_progress(s, cur);
    let p = cur.pos;
    let c = s[p];
    lemma_selector_delimiters(c);
    lemma_scan_until_bounds(s, p + 1, seq![' ']);
    lemma_scan_until_bounds(s, p + 1, selector_delimiters());
    lemma_scan_until_bounds(s, p + 1, seq![c]);
    lemma_scan_until_bounds(s, p, selector_delimiters());
    lemma_scan_number_bounds(s, p);
    if p + 2 <= s.len() {
        lemma_scan_until_bounds(s, p + 2, seq!['*']);
        lemma_scan_until_bounds(s, p + 2, selector_delimiters());
    }
    if is_ascii_digit(c) {
        assert(scan_number(s, p) == scan_number(s, p + 1));
        lemma_scan_number_bounds(s, p + 1);
        let e = scan_number(s, p);
        if e < s.len() && is_ascii_alpha(s[e]) {
            lemma_scan_alpha_bounds(s, e);
        }
    }
    if is_ascii_alpha(c) || c == '-' || c == '_' {
        assert(scan_until(s, p, selector_delimiters()) == scan_until(s, p + 1, selector_delimiters()));
    }
    if is_white_space(c) {
        assert(scan_white_space(s, p) == scan_white_space(s, p + 1));
        lemma_scan_white_space_bounds(s, p + 1);
    }
}

/// Every token of a text carries the line and column of the character its
/// text begins with: line 1 + (newlines before it), column = UTF-8 bytes since
/// the last of them.
pub proof fn lemma_tokens_located(s: Seq<char>)
    ensures
        forall|k: int| 0 <= k < lex_from(s, start_cursor()).len() ==> #[trigger] token_located(s, lex_from(s, start_cursor())[k]),
{
    lemma_tokens_located_from(s, 0);
    assert(advance_to(s, start_cursor(), 0) == start_cursor());
}

/// Lexing reads the text to its end, and lexing again from there gives no token.
pub proof fn lemma_lex_reads_all(s: Seq<char>, cur: Cursor)
    requires
        0 <= cur.pos <= s.len(),
    ensures
        lex_end(s, cur).pos == s.len(),
        lex_from(s, lex_end(s, cur)) == Seq::<TokenView>::empty(),
        lex_end(s, lex_end(s, cur)) == lex_end(s, cur),
    decreases s.len() - cur.pos,
{
    if cur.pos < s.len() {
        lemma_lex_step_progress(s, cur);
        lemma_lex_reads_all(s, lex_step(s, cur).1);
    }
}


/// A word (starting with a letter, `-` or `_`) runs up to the next selector
/// delimiter; it is a type selector exactly when it is one of `html`, `body`,
/// `div`, `section`, `article`, `main`, `header`, `footer`, `nav`, `aside`, `p`,
/// `span`, `a`, `form`, `input`, `button`, `select`, `textarea`, and an
/// identifier otherwise.
pub proof fn lemma_word_kinds(s: Seq<char>, cur: Cursor)
    requires
        0 <= cur.pos < s.len(),
        is_ascii_alpha(s[cur.pos]) || s[cur.pos] == '-' || s[cur.pos] == '_',
    ensures
        lex_step(s, cur).0 matches Some(tok) && {
            let w = tok.value;
            &&& w == s.subrange(cur.pos, scan_until(s, cur.pos, selector_delimiters()))
            &&& tok.kind == TokenKind::TypeSelector || tok.kind == TokenKind::Identifier
            &&& tok.kind == TokenKind::TypeSelector <==> (w == "html"@ || w == "body"@ || w == "div"@
                || w == "section"@ || w == "article"@ || w == "main"@ || w == "header"@ || w
                == "footer"@ || w == "nav"@ || w == "aside"@ || w == "p"@ || w == "span"@ || w
                == "a"@ || w == "form"@ || w == "input"@ || w == "button"@ || w == "select"@ || w
                == "textarea"@)
            &&& tok.line == cur.line && tok.column == cur.col
        },
{
}


/// The kind of an optional token.
pub open spec fn opt_kind(t: Option<TokenView>) -> Option<TokenKind> {
    match t {
        Some(tok) => Some(tok.kind),
        None => None,
    }
}

/// The kind of the token that starts at a character is fixed by that
/// character: `@` an at-rule, `/*` a comment, `[` `]` `=` `{` `}` `;` `(` `)`
/// `,` their own kinds, `+` `>` `~` a combinator, `.` a class selector, `#` an
/// id selector, `::` a pseudo-element, `:` and a letter a pseudo-class, any
/// other `:` a colon, a quote a string, a digit a number, percentage or
/// dimension, white space a white-space token; every other character (such as
/// `*`, `!`, `'/'` not followed by `*`) starts no token and is passed over.
pub proof fn lemma_token_kind_by_first_char(s: Seq<char>, cur: Cursor)
    requires
        0 <= cur.pos < s.len(),
    ensures
        ({
            let p = cur.pos;
            let c = s[p];
            let t = lex_step(s, cur).0;
            let next_is = |x: char| p + 1 < s.len() && s[p + 1] == x;
            &&& c == '@' ==> opt_kind(t) == Some(TokenKind::AtRule)
            &&& (c == '/' && next_is('*')) ==> opt_kind(t) == Some(TokenKind::Comment)
            &&& c == '[' ==> opt_kind(t) == Some(TokenKind::BracketOpen)
            &&& c == ']' ==> opt_kind(t) == Some(TokenKind::BracketClose)
            &&& c == '=' ==> opt_kind(t) == Some(TokenKind::Equals)
            &&& c == '{' ==> opt_kind(t) == Some(TokenKind::CurlyOpen)
            &&& c == '}' ==> opt_kind(t) == Some(TokenKind::CurlyClose)
            &&& c == ';' ==> opt_kind(t) == Some(TokenKind::Semicolon)
            &&& c == '(' ==> opt_kind(t) == Some(TokenKind::ParenOpen)
            &&& c == ')' ==> opt_kind(t) == Some(TokenKind::ParenClose)
            &&& c == ',' ==> opt_kind(t) == Some(TokenKind::Comma)
            &&& (c == '+' || c == '>' || c == '~') ==> opt_kind(t) == Some(TokenKind::Combinator)
            &&& c == '.' ==> opt_kind(t) == Some(TokenKind::ClassSelector)
            &&& c == '#' ==> opt_kind(t) == Some(TokenKind::IdSelector)
            &&& (c == ':' && next_is(':')) ==> opt_kind(t) == Some(TokenKind::PseudoElement)
            &&& (c == ':' && p + 1 < s.len() && is_ascii_alpha(s[p + 1])) ==> opt_kind(t) == Some(TokenKind::PseudoClass)
            &&& (c == ':' && !next_is(':') && !(p + 1 < s.len() && is_ascii_alpha(s[p + 1]))) ==> t == Some(token_at(TokenKind::Colon, seq![':'], cur))
            &&& (c == '"' || c == '\'') ==> opt_kind(t) == Some(TokenKind::String)
            &&& is_ascii_digit(c) ==> (opt_kind(t) == Some(TokenKind::Number) || opt_kind(t)
                == Some(TokenKind::Percentage) || opt_kind(t) == Some(TokenKind::Dimension))
            &&& is_white_space(c) ==> opt_kind(t) == Some(TokenKind::Whitespace)
            &&& !(c == '@' || (c == '/' && next_is('*')) || c == '[' || c == ']' || c == '=' || c == '{' || c
                == '}' || c == ';' || c == '(' || c == ')' || c == ',' || c == '+' || c == '>' || c == '~'
                || c == '.' || c == '#' || c == ':' || c == '"' || c == '\'' || is_ascii_digit(c)
                || is_ascii_alpha(c) || c == '-' || c == '_' || is_white_space(c)) ==> t is None
        }),
{
}

/// Except for comments and strings (whose delimiters are always written out in
/// full), a token's text is exactly the characters of the input that its step
/// reads; a token with one of the one-character kinds is that character alone.
pub proof fn lemma_token_text_is_source(s: Seq<char>, cur: Cursor)
    requires
        0 <= cur.pos < s.len(),
    ensures
        lex_step(s, cur).0 matches Some(tok) ==> (tok.kind != TokenKind::Comment && tok.kind != TokenKind::String
            ==> tok.value == s.subrange(cur.pos, lex_step(s, cur).1.pos)),
        lex_step(s, cur).0 matches Some(tok) ==> ((tok.kind == TokenKind::BracketOpen || tok.kind
            == TokenKind::BracketClose || tok.kind == TokenKind::Equals || tok.kind == TokenKind::CurlyOpen
            || tok.kind == TokenKind::CurlyClose || tok.kind == TokenKind::Semicolon || tok.kind
            == TokenKind::ParenOpen || tok.kind == TokenKind::ParenClose || tok.kind == TokenKind::Comma
            || tok.kind == TokenKind::Combinator || tok.kind == TokenKind::Colon) ==> tok.value == seq![s[cur.pos]]
            && lex_step(s, cur).1.pos == cur.pos + 1),
{
    lemma_lex_step_progress(s, cur);
    lemma_lex_step_advances(s, cur);
    let p = cur.pos;
    let c = s[p];
    lemma_advance_to_pos(s, cur, p + 1);
    if c == '@' {
        lemma_scan_until_bounds(s, p + 1, seq![' ']);
        lemma_advance_to_pos(s, cur, scan_until(s, p + 1, seq![' ']));
    } else if c == '.' || c == '#' {
        lemma_scan_until_bounds(s, p + 1, selector_delimiters());
        lemma_advance_to_pos(s, cur, scan_until(s, p + 1, selector_delimiters()));
    } else if c == ':' {
        if p + 2 <= s.len() {
            lemma_scan_until_bounds(s, p + 2, selector_delimiters());
            lemma_advance_to_pos(s, cur, scan_until(s, p + 2, selector_delimiters()));
        }
        lemma_scan_until_bounds(s, p + 1, selector_delimiters());
        lemma_advance_to_pos(s, cur, scan_until(s, p + 1, selector_delimiters()));
        assert(seq![':'] == s.subrange(p, p + 1));
    } else if is_ascii_digit(c) {
        let e = scan_number(s, p);
        lemma_scan_number_bounds(s, p);
        lemma_advance_to_pos(s, cur, e);
        if e < s.len() {
            lemma_advance_to_pos(s, cur, e + 1);
            lemma_scan_alpha_bounds(s, e);
            lemma_advance_to_pos(s, cur, scan_alpha(s, e));
        }
    } else if is_ascii_alpha(c) || c == '-' || c == '_' {
        lemma_scan_until_bounds(s, p, selector_delimiters());
        lemma_advance_to_pos(s, cur, scan_until(s, p, selector_delimiters()));
    } else if is_white_space(c) {
        lemma_scan_white_space_bounds(s, p);
        lemma_advance_to_pos(s, cur, scan_white_space(s, p));
    }
    if single_char_kind(c) is Some {
        assert(seq![c] == s.subrange(p, p + 1));
    }
}


pub proof fn lemma_scan_until_chars(s: Seq<char>, i: int, stops: Seq<char>)
    requires
        0 <= i <= s.len(),
    ensures
        forall|k: int| i <= k < scan_until(s, i, stops) ==> !stops.contains(#[trigger] s[k]),
        scan_until(s, i, stops) < s.len() ==> stops.contains(s[scan_until(s, i, stops)]),
        i <= scan_until(s, i, stops) <= s.len(),
    decreases s.len() - i,
{
    if i < s.len() && !stops.contains(s[i]) {
        lemma_scan_until_chars(s, i + 1, stops);
    }
}

pub proof fn lemma_scan_number_chars(s: Seq<char>, i: int)
    requires
        0 <= i <= s.len(),
    ensures
        forall|k: int| i <= k < scan_number(s, i) ==> is_ascii_digit(#[trigger] s[k]) || s[k] == '.',
        scan_number(s, i) < s.len() ==> !(is_ascii_digit(s[scan_number(s, i)]) || s[scan_number(s, i)] == '.'),
        i <= scan_number(s, i) <= s.len(),
    decreases s.len() - i,
{
    if i < s.len() && (is_ascii_digit(s[i]) || s[i] == '.') {
        lemma_scan_number_chars(s, i + 1);
    }
}

pub proof fn lemma_scan_alpha_chars(s: Seq<char>, i: int)
    requires
        0 <= i <= s.len(),
    ensures
        forall|k: int| i <= k < scan_alpha(s, i) ==> is_ascii_alpha(#[trigger] s[k]),
        scan_alpha(s, i) < s.len() ==> !is_ascii_alpha(s[scan_alpha(s, i)]),
        i <= scan_alpha(s, i) <= s.len(),
    decreases s.len() - i,
{
    if i < s.len() && is_ascii_alpha(s[i]) {
        lemma_scan_alpha_chars(s, i + 1);
    }
}

pub proof fn lemma_scan_white_space_chars(s: Seq<char>, i: int)
    requires
        0 <= i <= s.len(),
    ensures
        forall|k: int| i <= k < scan_white_space(s, i) ==> is_white_space(#[trigger] s[k]),
        scan_white_space(s, i) < s.len() ==> !is_white_space(s[scan_white_space(s, i)]),
        i <= scan_white_space(s, i) <= s.len(),
    decreases s.len() - i,
{
    if i < s.len() && is_white_space(s[i]) {
        lemma_scan_white_space_chars(s, i + 1);
    }
}

/// Where tokens stop. With `n` the position after the token:
/// an at-rule's name holds no space and is followed by a space or the end;
/// class and id selectors, pseudo-classes, pseudo-elements, type selectors and
/// identifiers hold no selector delimiter after their leading `.`, `#`, `:` or
/// `::`, and are followed by a delimiter or the end; numbers hold only digits
/// and dots; a percentage is a number and `%`; a dimension is a number and
/// letters; a white-space token is a whole run of white space.
pub proof fn lemma_token_extent(s: Seq<char>, cur: Cursor)
    requires
        0 <= cur.pos < s.len(),
    ensures
        ({
            let p = cur.pos;
            let n = lex_step(s, cur).1.pos;
            let t = lex_step(s, cur).0;
            let ends_at_delimiter = n == s.len() || is_selector_delimiter(s[n]);
            &&& opt_kind(t) == Some(TokenKind::AtRule) ==> (forall|k: int| p < k < n ==> #[trigger] s[k] != ' ')
                && (n == s.len() || s[n] == ' ')
            &&& (opt_kind(t) == Some(TokenKind::ClassSelector) || opt_kind(t) == Some(TokenKind::IdSelector)
                || opt_kind(t) == Some(TokenKind::PseudoClass)) ==> (forall|k: int| p < k < n
                ==> !is_selector_delimiter(#[trigger] s[k])) && ends_at_delimiter
            &&& opt_kind(t) == Some(TokenKind::PseudoElement) ==> (forall|k: int| p + 1 < k < n
                ==> !is_selector_delimiter(#[trigger] s[k])) && ends_at_delimiter
            &&& (opt_kind(t) == Some(TokenKind::TypeSelector) || opt_kind(t) == Some(TokenKind::Identifier))
                ==> (forall|k: int| p <= k < n ==> !is_selector_delimiter(#[trigger] s[k])) && ends_at_delimiter
            &&& opt_kind(t) == Some(TokenKind::Number) ==> (forall|k: int| p <= k < n ==> is_ascii_digit(
                #[trigger] s[k]) || s[k] == '.') && (n == s.len() || !(is_ascii_digit(s[n]) || s[n] == '.'
                || s[n] == '%' || is_ascii_alpha(s[n])))
            &&& opt_kind(t) == Some(TokenKind::Percentage) ==> (forall|k: int| p <= k < n - 1 ==> is_ascii_digit(
                #[trigger] s[k]) || s[k] == '.') && s[n - 1] == '%'
            &&& opt_kind(t) == Some(TokenKind::Dimension) ==> exists|m: int| #![trigger s[m]] p < m < n && (forall|k: int|
                p <= k < m ==> is_ascii_digit(#[trigger] s[k]) || s[k] == '.') && (forall|k: int| m <= k < n
                ==> is_ascii_alpha(#[trigger] s[k])) && (n == s.len() || !is_ascii_alpha(s[n]))
            &&& opt_kind(t) == Some(TokenKind::Whitespace) ==> (forall|k: int| p <= k < n ==> is_white_space(
                #[trigger] s[k])) && (n == s.len() || !is_white_space(s[n]))
        }),
{
    let p = cur.pos;
    let c = s[p];
    lemma_lex_step_progress(s, cur);
    lemma_selector_delimiters(c);
    assert forall|x: char| selector_delimiters().contains(x) <==> is_selector_delimiter(x) by {
        lemma_selector_delimiters(x);
    }
    assert forall|x: char| seq![' '].contains(x) <==> x == ' ' by {
        if x == ' ' {
            assert(seq![' '][0] == x);
        }
    }
    if c == '@' {
        lemma_scan_until_chars(s, p + 1, seq![' ']);
        lemma_advance_to_pos(s, cur, scan_until(s, p + 1, seq![' ']));
    } else if c == '.' || c == '#' {
        lemma_scan_until_chars(s, p + 1, selector_delimiters());
        lemma_advance_to_pos(s, cur, scan_until(s, p + 1, selector_delimiters()));
    } else if c == ':' {
        if p + 2 <= s.len() {
            lemma_scan_until_chars(s, p + 2, selector_delimiters());
            lemma_advance_to_pos(s, cur, scan_until(s, p + 2, selector_delimiters()));
        }
        lemma_scan_until_chars(s, p + 1, selector_delimiters());
        lemma_advance_to_pos(s, cur, scan_until(s, p + 1, selector_delimiters()));
    } else if is_ascii_digit(c) {
        let e = scan_number(s, p);
        lemma_scan_number_chars(s, p);
        assert(e == scan_number(s, p + 1));
        lemma_scan_number_chars(s, p + 1);
        lemma_advance_to_pos(s, cur, e);
        if e < s.len() {
            lemma_advance_to_pos(s, cur, e + 1);
            lemma_scan_alpha_chars(s, e);
            lemma_advance_to_pos(s, cur, scan_alpha(s, e));
            if is_ascii_alpha(s[e]) && s[e] != '%' {
                assert(scan_alpha(s, e) == scan_alpha(s, e + 1));
                lemma_scan_alpha_chars(s, e + 1);
            }
        }
    } else if is_ascii_alpha(c) || c == '-' || c == '_' {
        lemma_scan_until_chars(s, p, selector_delimiters());
        lemma_advance_to_pos(s, cur, scan_until(s, p, selector_delimiters()));
    } else if is_white_space(c) {
        lemma_scan_white_space_chars(s, p);
        lemma_advance_to_pos(s, cur, scan_white_space(s, p));
    }
}


/// A comment token is `/*`, the text after `/*` up to (not including) the next
/// `*`, then `*/`; the lexer goes on two characters after that `*` (or at the
/// end). A string token is the quote, the text up to the next same quote, and
/// the quote; the lexer goes on after the closing quote (or at the end).
pub proof fn lemma_comment_and_string_text(s: Seq<char>, cur: Cursor)
    requires
        0 <= cur.pos < s.len(),
    ensures
        ({
            let p = cur.pos;
            let (t, next) = lex_step(s, cur);
            &&& opt_kind(t) == Some(TokenKind::Comment) ==> exists|e: int| #![trigger s.subrange(p + 2, e)]
                p + 2 <= e <= s.len() && (forall|k: int| p + 2 <= k < e ==> #[trigger] s[k] != '*') && (e
                == s.len() || s[e] == '*') && t == Some(token_at(TokenKind::Comment, seq!['/', '*'] + s.subrange(p + 2, e)
                + seq!['*', '/'], cur)) && next.pos == (if e + 2 <= s.len() { e + 2 } else { s.len() as int })
            &&& opt_kind(t) == Some(TokenKind::String) ==> exists|e: int| #![trigger s.subrange(p + 1, e)]
                p + 1 <= e <= s.len() && (forall|k: int| p + 1 <= k < e ==> #[trigger] s[k] != s[p]) && (e
                == s.len() || s[e] == s[p]) && t == Some(token_at(TokenKind::String, seq![s[p]] + s.subrange(p + 1, e)
                + seq![s[p]], cur)) && next.pos == (if e < s.len() { e + 1 } else { s.len() as int })
        }),
{
    let p = cur.pos;
    let c = s[p];
    lemma_lex_step_progress(s, cur);
    if c == '/' && p + 1 < s.len() && s[p + 1] == '*' {
        let e = scan_until(s, p + 2, seq!['*']);
        lemma_scan_until_chars(s, p + 2, seq!['*']);
        assert forall|x: char| seq!['*'].contains(x) <==> x == '*' by {
            if x == '*' {
                assert(seq!['*'][0] == x);
            }
        }
        lemma_advance_to_pos(s, cur, e);
        assert(s.subrange(p + 2, e) == s.subrange(p + 2, e));
    } else if c == '"' || c == '\'' {
        let e = scan_until(s, p + 1, seq![c]);
        lemma_scan_until_chars(s, p + 1, seq![c]);
        assert forall|x: char| seq![c].contains(x) <==> x == c by {
            if x == c {
                assert(seq![c][0] == x);
            }
        }
        lemma_advance_to_pos(s, cur, e);
        assert(s.subrange(p + 1, e) == s.subrange(p + 1, e));
    }
}

} // verus!
