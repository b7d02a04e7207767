//! Lexer for Flow3D.
//!
//! It turns a source text into a flat list of tokens, each with the [`Span`] it
//! was read from. Blanks and `#` line comments are skipped; line feeds only
//! advance the line counter. A numeral keeps its source text: what number it
//! stands for is decided where the syntax tree is lowered.

use super::diag::{Diagnostic, DiagnosticView, Span};
use crate::model::{lemma_views_push, views};
use crate::text::{cat3};
use vstd::prelude::*;
use vstd::string::*;
use vstd::utf8::*;

verus! {

#[derive(Debug, Clone, PartialEq)]
pub enum Tok {
    Scene,
    Part,
    Anchor,
    Bind,
    Metric,
    Unit,
    Ttl,
    Priority,
    Pipe,
    Tag,
    Meta,
    At,
    Ident(String),
    Str(String),
    /// A numeral, as it stands in the source (e.g. `-1.5`).
    Num(String),
    /// The numeral of a duration in milliseconds (`5000` for `5000ms`).
    Dur(String),
    Arrow,
    LBrace,
    RBrace,
    LParen,
    RParen,
    Comma,
    Eq,
    Dot,
    Eof,
}

/// What a token is, without the text that it carries.
#[derive(Debug, Clone, Copy, PartialEq, Eq, Structural)]
pub enum TokKind {
    Scene,
    Part,
    Anchor,
    Bind,
    Metric,
    Unit,
    Ttl,
    Priority,
    Pipe,
    Tag,
    Meta,
    At,
    Ident,
    Str,
    Num,
    Dur,
    Arrow,
    LBrace,
    RBrace,
    LParen,
    RParen,
    Comma,
    Eq,
    Dot,
    Eof,
}

/// The model of a [`Tok`]: its kind, and its text where it carries one.
pub struct TokView {
    pub kind: TokKind,
    pub text: Seq<char>,
}

/// The token of a kind that carries no text.
pub open spec fn plain(kind: TokKind) -> TokView {
    TokView { kind, text: Seq::empty() }
}

impl View for Tok {
    type V = TokView;

    open spec fn view(&self) -> TokView {
        match self {
            Tok::Scene => plain(TokKind::Scene),
            Tok::Part => plain(TokKind::Part),
            Tok::Anchor => plain(TokKind::Anchor),
            Tok::Bind => plain(TokKind::Bind),
            Tok::Metric => plain(TokKind::Metric),
            Tok::Unit => plain(TokKind::Unit),
            Tok::Ttl => plain(TokKind::Ttl),
            Tok::Priority => plain(TokKind::Priority),
            Tok::Pipe => plain(TokKind::Pipe),
            Tok::Tag => plain(TokKind::Tag),
            Tok::Meta => plain(TokKind::Meta),
            Tok::At => plain(TokKind::At),
            Tok::Ident(s) => TokView { kind: TokKind::Ident, text: s@ },
            Tok::Str(s) => TokView { kind: TokKind::Str, text: s@ },
            Tok::Num(s) => TokView { kind: TokKind::Num, text: s@ },
            Tok::Dur(s) => TokView { kind: TokKind::Dur, text: s@ },
            Tok::Arrow => plain(TokKind::Arrow),
            Tok::LBrace => plain(TokKind::LBrace),
            Tok::RBrace => plain(TokKind::RBrace),
            Tok::LParen => plain(TokKind::LParen),
            Tok::RParen => plain(TokKind::RParen),
            Tok::Comma => plain(TokKind::Comma),
            Tok::Eq => plain(TokKind::Eq),
            Tok::Dot => plain(TokKind::Dot),
            Tok::Eof => plain(TokKind::Eof),
        }
    }
}

/// How a kind of token is named in messages; an identifier is named with its
/// text by [`describe_of`].
pub open spec fn kind_name(kind: TokKind) -> Seq<char> {
    match kind {
        TokKind::Scene => "`scene`"@,
        TokKind::Part => "`part`"@,
        TokKind::Anchor => "`anchor`"@,
        TokKind::Bind => "`bind`"@,
        TokKind::Metric => "`metric`"@,
        TokKind::Unit => "`unit`"@,
        TokKind::Ttl => "`ttl`"@,
        TokKind::Priority => "`priority`"@,
        TokKind::Pipe => "`pipe`"@,
        TokKind::Tag => "`tag`"@,
        TokKind::Meta => "`meta`"@,
        TokKind::At => "`at`"@,
        TokKind::Ident => "identifier"@,
        TokKind::Str => "string literal"@,
        TokKind::Num => "number"@,
        TokKind::Dur => "duration"@,
        TokKind::Arrow => "`->`"@,
        TokKind::LBrace => "`{`"@,
        TokKind::RBrace => "`}`"@,
        TokKind::LParen => "`(`"@,
        TokKind::RParen => "`)`"@,
        TokKind::Comma => "`,`"@,
        TokKind::Eq => "`=`"@,
        TokKind::Dot => "`.`"@,
        TokKind::Eof => "end of input"@,
    }
}

/// How a token is described in messages.
pub open spec fn describe_of(t: TokView) -> Seq<char> {
    if t.kind == TokKind::Ident {
        "identifier `"@ + t.text + "`"@
    } else {
        kind_name(t.kind)
    }
}

impl TokKind {
    /// How the kind is named in messages.
    pub fn name(self) -> (s: &'static str)
        ensures
            s@ == kind_name(self),
    {
        match self {
            TokKind::Scene => "`scene`",
            TokKind::Part => "`part`",
            TokKind::Anchor => "`anchor`",
            TokKind::Bind => "`bind`",
            TokKind::Metric => "`metric`",
            TokKind::Unit => "`unit`",
            TokKind::Ttl => "`ttl`",
            TokKind::Priority => "`priority`",
            TokKind::Pipe => "`pipe`",
            TokKind::Tag => "`tag`",
            TokKind::Meta => "`meta`",
            TokKind::At => "`at`",
            TokKind::Ident => "identifier",
            TokKind::Str => "string literal",
            TokKind::Num => "number",
            TokKind::Dur => "duration",
            TokKind::Arrow => "`->`",
            TokKind::LBrace => "`{`",
            TokKind::RBrace => "`}`",
            TokKind::LParen => "`(`",
            TokKind::RParen => "`)`",
            TokKind::Comma => "`,`",
            TokKind::Eq => "`=`",
            TokKind::Dot => "`.`",
            TokKind::Eof => "end of input",
        }
    }
}

impl Tok {
    /// What the token is, without its text.
    pub fn kind(&self) -> (k: TokKind)
        ensures
            k == self@.kind,
    {
        match self {
            Tok::Scene => TokKind::Scene,
            Tok::Part => TokKind::Part,
            Tok::Anchor => TokKind::Anchor,
            Tok::Bind => TokKind::Bind,
            Tok::Metric => TokKind::Metric,
            Tok::Unit => TokKind::Unit,
            Tok::Ttl => TokKind::Ttl,
            Tok::Priority => TokKind::Priority,
            Tok::Pipe => TokKind::Pipe,
            Tok::Tag => TokKind::Tag,
            Tok::Meta => TokKind::Meta,
            Tok::At => TokKind::At,
            Tok::Ident(_) => TokKind::Ident,
            Tok::Str(_) => TokKind::Str,
            Tok::Num(_) => TokKind::Num,
            Tok::Dur(_) => TokKind::Dur,
            Tok::Arrow => TokKind::Arrow,
            Tok::LBrace => TokKind::LBrace,
            Tok::RBrace => TokKind::RBrace,
            Tok::LParen => TokKind::LParen,
            Tok::RParen => TokKind::RParen,
            Tok::Comma => TokKind::Comma,
            Tok::Eq => TokKind::Eq,
            Tok::Dot => TokKind::Dot,
            Tok::Eof => TokKind::Eof,
        }
    }

    /// Human-readable description for diagnostics.
    pub fn describe(&self) -> (s: String)
        ensures
            s@ == describe_of(self@),
    {
        match self {
            Tok::Ident(name) => cat3("identifier `", name.as_str(), "`"),
            _ => self.kind().name().to_owned(),
        }
    }
}

#[derive(Debug, Clone)]
pub struct Token {
    pub tok: Tok,
    pub span: Span,
}

/// The model of a [`Token`].
pub struct TokenView {
    pub tok: TokView,
    pub span: Span,
}

impl View for Token {
    type V = TokenView;

    open spec fn view(&self) -> TokenView {
        TokenView { tok: self.tok@, span: self.span }
    }
}

// ---------------------------------------------------------------------------
// Characters and runs.

pub open spec fn digit_byte(c: u8) -> bool {
    0x30 <= c <= 0x39
}

pub open spec fn letter_byte(c: u8) -> bool {
    0x41 <= c <= 0x5a || 0x61 <= c <= 0x7a
}

/// A letter, `_` or `/`.
pub open spec fn ident_start_byte(c: u8) -> bool {
    letter_byte(c) || c == 0x5f || c == 0x2f
}

/// A letter, a digit, `_`, `-`, `/` or `:`.
pub open spec fn ident_continue_byte(c: u8) -> bool {
    letter_byte(c) || digit_byte(c) || c == 0x5f || c == 0x2d || c == 0x2f || c == 0x3a
}

pub open spec fn blank_byte(c: u8) -> bool {
    c == 0x20 || c == 0x09 || c == 0x0d || c == 0x0a
}

/// A byte that stands for itself inside a string literal: no quote, no
/// backslash, no line feed.
pub open spec fn literal_byte(c: u8) -> bool {
    c != 0x22 && c != 0x5c && c != 0x0a
}

fn is_digit(c: u8) -> (b: bool)
    ensures
        b == digit_byte(c),
{
    0x30 <= c && c <= 0x39
}

/// Can an identifier start with this byte?
pub fn is_ident_start(c: u8) -> (b: bool)
    ensures
        b == ident_start_byte(c),
{
    (0x41 <= c && c <= 0x5a) || (0x61 <= c && c <= 0x7a) || c == 0x5f || c == 0x2f
}

/// Can an identifier go on with this byte?
pub fn is_ident_continue(c: u8) -> (b: bool)
    ensures
        b == ident_continue_byte(c),
{
    (0x41 <= c && c <= 0x5a) || (0x61 <= c && c <= 0x7a) || is_digit(c) || c == 0x5f || c == 0x2d
        || c == 0x2f || c == 0x3a
}

/// The end of the run of digits that starts at `p`.
pub open spec fn digits_end(b: Seq<u8>, p: int) -> int
    decreases b.len() - p,
{
    if 0 <= p < b.len() && digit_byte(b[p]) {
        digits_end(b, p + 1)
    } else {
        p
    }
}

/// The end of the run of identifier bytes that starts at `p`.
pub open spec fn ident_end(b: Seq<u8>, p: int) -> int
    decreases b.len() - p,
{
    if 0 <= p < b.len() && ident_continue_byte(b[p]) {
        ident_end(b, p + 1)
    } else {
        p
    }
}

/// The end of the run of bytes that stand for themselves in a string literal.
pub open spec fn literal_end(b: Seq<u8>, p: int) -> int
    decreases b.len() - p,
{
    if 0 <= p < b.len() && literal_byte(b[p]) {
        literal_end(b, p + 1)
    } else {
        p
    }
}

/// Where the blanks and comments that start at `p` end; a comment runs to the
/// end of its line.
pub open spec fn trivia_end(b: Seq<u8>, p: int, comment: bool) -> int
    decreases b.len() - p,
{
    if !(0 <= p < b.len()) {
        p
    } else if comment {
        trivia_end(b, p + 1, b[p] != 0x0a)
    } else if blank_byte(b[p]) {
        trivia_end(b, p + 1, false)
    } else if b[p] == 0x23 {
        trivia_end(b, p + 1, true)
    } else {
        p
    }
}

/// The number of the line that position `p` is on, counted from one.
pub open spec fn line_at(b: Seq<u8>, p: int) -> int
    decreases p,
{
    if p <= 0 {
        1
    } else if b[p - 1] == 0x0a {
        line_at(b, p - 1) + 1
    } else {
        line_at(b, p - 1)
    }
}

/// The byte column of position `p` on its line, counted from one.
pub open spec fn col_at(b: Seq<u8>, p: int) -> int
    decreases p,
{
    if p <= 0 || b[p - 1] == 0x0a {
        1
    } else {
        col_at(b, p - 1) + 1
    }
}

/// The span from `p` to `q`.
pub open spec fn span_of(b: Seq<u8>, p: int, q: int) -> Span {
    Span {
        line: line_at(b, p) as u32,
        col: col_at(b, p) as u32,
        offset: p as usize,
        len: (q - p) as usize,
    }
}

/// The characters that bytes stand for, one each.
pub open spec fn byte_chars(b: Seq<u8>) -> Seq<char> {
    Seq::new(b.len(), |i: int| b[i] as char)
}

// ---------------------------------------------------------------------------
// Tokens.

/// A token read at some position: where it ends, and what was reported.
pub struct Lexed {
    pub tok: TokView,
    pub end: int,
    pub diags: Seq<DiagnosticView>,
}

/// The keyword that a word is, if it is one.
pub open spec fn keyword_of(word: Seq<char>) -> Option<TokKind> {
    if word == "scene"@ {
        Some(TokKind::Scene)
    } else if word == "part"@ {
        Some(TokKind::Part)
    } else if word == "anchor"@ {
        Some(TokKind::Anchor)
    } else if word == "bind"@ {
        Some(TokKind::Bind)
    } else if word == "metric"@ {
        Some(TokKind::Metric)
    } else if word == "unit"@ {
        Some(TokKind::Unit)
    } else if word == "ttl"@ {
        Some(TokKind::Ttl)
    } else if word == "priority"@ {
        Some(TokKind::Priority)
    } else if word == "pipe"@ {
        Some(TokKind::Pipe)
    } else if word == "tag"@ {
        Some(TokKind::Tag)
    } else if word == "meta"@ {
        Some(TokKind::Meta)
    } else if word == "at"@ {
        Some(TokKind::At)
    } else {
        None
    }
}

/// The longest word at `p`: a keyword, or else an identifier.
pub open spec fn lexed_ident(b: Seq<u8>, p: int) -> Lexed {
    let end = ident_end(b, p);
    let word = byte_chars(b.subrange(p, end));
    let tok = match keyword_of(word) {
        Some(kind) => plain(kind),
        None => TokView { kind: TokKind::Ident, text: word },
    };
    Lexed { tok, end, diags: Seq::empty() }
}

/// The end of the numeral at `p`: a sign, digits, a point and more digits, each
/// of them optional.
pub open spec fn numeral_end(b: Seq<u8>, p: int) -> int {
    let s = if p < b.len() && b[p] == 0x2d {
        p + 1
    } else {
        p
    };
    let d = digits_end(b, s);
    if d < b.len() && b[d] == 0x2e {
        digits_end(b, d + 1)
    } else {
        d
    }
}

/// A numeral stands for a number when it holds a digit.
pub open spec fn has_digit(b: Seq<u8>) -> bool {
    exists|i: int| 0 <= i < b.len() && #[trigger] digit_byte(b[i])
}

/// `ms` stands at `q`, and no identifier goes on behind it.
pub open spec fn millis_suffix(b: Seq<u8>, q: int) -> bool {
    &&& q + 1 < b.len()
    &&& b[q] == 0x6d
    &&& b[q + 1] == 0x73
    &&& !(q + 2 < b.len() && ident_continue_byte(b[q + 2]))
}

/// The numeral at `p`, a duration where the suffix `ms` follows.
pub open spec fn lexed_number(b: Seq<u8>, p: int) -> Lexed {
    let q = numeral_end(b, p);
    let text = byte_chars(b.subrange(p, q));
    let diags = if has_digit(b.subrange(p, q)) {
        Seq::empty()
    } else {
        seq![DiagnosticView::error("invalid number `"@ + text + "`"@, span_of(b, p, q))]
    };
    if millis_suffix(b, q) {
        Lexed { tok: TokView { kind: TokKind::Dur, text }, end: q + 2, diags }
    } else {
        Lexed { tok: TokView { kind: TokKind::Num, text }, end: q, diags }
    }
}

/// The body of a string literal.
pub struct StringBody {
    pub value: Seq<char>,
    pub end: int,
    pub closed: bool,
}

/// The character that a backslash and the byte `c` stand for.
pub open spec fn escaped(c: u8) -> char {
    if c == 0x6e {
        '\n'
    } else if c == 0x74 {
        '\t'
    } else {
        c as char
    }
}

/// The string body that starts at `p`: characters up to a quote, or up to the
/// end of the line or the text where none closes it. A backslash before a
/// character outside ASCII stands for nothing.
pub open spec fn string_body(b: Seq<u8>, p: int) -> StringBody
    decreases b.len() - p,
    when 0 <= p <= b.len()
    via lemma_string_body_ends
{
    let q = literal_end(b, p);
    let head = decode_utf8(b.subrange(p, q));
    if q >= b.len() || b[q] == 0x0a {
        StringBody { value: head, end: q, closed: false }
    } else if b[q] == 0x22 {
        StringBody { value: head, end: q + 1, closed: true }
    } else if q + 1 >= b.len() {
        StringBody { value: head, end: q + 1, closed: false }
    } else if b[q + 1] < 0x80 {
        let rest = string_body(b, q + 2);
        StringBody { value: head.push(escaped(b[q + 1])) + rest.value, ..rest }
    } else {
        let rest = string_body(b, q + 1);
        StringBody { value: head + rest.value, ..rest }
    }
}

/// The string literal whose opening quote stands at `p`.
pub open spec fn lexed_string(b: Seq<u8>, p: int) -> Lexed {
    let body = string_body(b, p + 1);
    let diags = if body.closed {
        Seq::empty()
    } else {
        seq![DiagnosticView::error("unterminated string literal"@, span_of(b, p, body.end))]
    };
    Lexed {
        tok: TokView { kind: TokKind::Str, text: body.value },
        end: body.end,
        diags,
    }
}

pub open spec fn lexed_plain(kind: TokKind, end: int) -> Lexed {
    Lexed { tok: plain(kind), end, diags: Seq::empty() }
}

/// Can a token start at `p`?
pub open spec fn token_starts(b: Seq<u8>, p: int) -> bool {
    let c = b[p];
    c == 0x7b || c == 0x7d || c == 0x28 || c == 0x29 || c == 0x2c || c == 0x3d || c == 0x2e || c
        == 0x22 || c == 0x2d || digit_byte(c) || ident_start_byte(c)
}

/// The token that starts at `p`.
pub open spec fn lexed_at(b: Seq<u8>, p: int) -> Lexed {
    let c = b[p];
    if c == 0x7b {
        lexed_plain(TokKind::LBrace, p + 1)
    } else if c == 0x7d {
        lexed_plain(TokKind::RBrace, p + 1)
    } else if c == 0x28 {
        lexed_plain(TokKind::LParen, p + 1)
    } else if c == 0x29 {
        lexed_plain(TokKind::RParen, p + 1)
    } else if c == 0x2c {
        lexed_plain(TokKind::Comma, p + 1)
    } else if c == 0x3d {
        lexed_plain(TokKind::Eq, p + 1)
    } else if c == 0x2e {
        if p + 1 < b.len() && digit_byte(b[p + 1]) {
            lexed_number(b, p)
        } else {
            lexed_plain(TokKind::Dot, p + 1)
        }
    } else if c == 0x22 {
        lexed_string(b, p)
    } else if c == 0x2d {
        if p + 1 < b.len() && b[p + 1] == 0x3e {
            lexed_plain(TokKind::Arrow, p + 2)
        } else if p + 1 < b.len() && (digit_byte(b[p + 1]) || b[p + 1] == 0x2e) {
            lexed_number(b, p)
        } else {
            Lexed {
                tok: TokView { kind: TokKind::Ident, text: "-"@ },
                end: p + 1,
                diags: seq![
                    DiagnosticView::error(
                        "unexpected `-` (expected `->` or a number)"@,
                        span_of(b, p, p + 1),
                    ),
                ],
            }
        }
    } else if digit_byte(c) {
        lexed_number(b, p)
    } else {
        lexed_ident(b, p)
    }
}

/// The next token at or after `p`, with the position where it starts.
pub struct Next {
    pub start: int,
    pub lexed: Lexed,
}

/// The next token at or after `p`: blanks and comments are skipped, and so is
/// each byte that starts no token, which is reported.
pub open spec fn next_of(b: Seq<u8>, p: int) -> Next
    decreases b.len() - p,
    when 0 <= p <= b.len()
    via lemma_next_of_ends
{
    let q = trivia_end(b, p, false);
    if q >= b.len() {
        Next { start: q, lexed: lexed_plain(TokKind::Eof, q) }
    } else if token_starts(b, q) {
        Next { start: q, lexed: lexed_at(b, q) }
    } else {
        let rest = next_of(b, q + 1);
        let report = DiagnosticView::error(
            "unexpected character `"@ + seq![b[q] as char] + "`"@,
            span_of(b, q, q + 1),
        );
        Next { lexed: Lexed { diags: seq![report] + rest.lexed.diags, ..rest.lexed }, ..rest }
    }
}

/// What lexing a text gives.
pub struct LexOutput {
    pub tokens: Seq<TokenView>,
    pub diags: Seq<DiagnosticView>,
}

/// The tokens from `p` on, the last of them the end of input.
pub open spec fn lex_from(b: Seq<u8>, p: int) -> LexOutput
    decreases b.len() - p,
    when 0 <= p <= b.len()
    via lemma_lex_from_ends
{
    let n = next_of(b, p);
    let token = TokenView { tok: n.lexed.tok, span: span_of(b, n.start, n.lexed.end) };
    if n.lexed.tok.kind == TokKind::Eof {
        LexOutput { tokens: seq![token], diags: n.lexed.diags }
    } else {
        let rest = lex_from(b, n.lexed.end);
        LexOutput {
            tokens: seq![token] + rest.tokens,
            diags: n.lexed.diags + rest.diags,
        }
    }
}

/// What lexing `text` gives.
pub open spec fn lex_of(text: Seq<char>) -> LexOutput {
    lex_from(encode_utf8(text), 0)
}

// ---------------------------------------------------------------------------
// Facts about runs and boundaries.

proof fn lemma_digits_end(b: Seq<u8>, p: int)
    requires
        0 <= p <= b.len(),
    ensures
        p <= digits_end(b, p) <= b.len(),
        forall|i: int| p <= i < digits_end(b, p) ==> digit_byte(#[trigger] b[i]),
    decreases b.len() - p,
{
    if p < b.len() && digit_byte(b[p]) {
        lemma_digits_end(b, p + 1);
    }
}

proof fn lemma_ident_end(b: Seq<u8>, p: int)
    requires
        0 <= p <= b.len(),
    ensures
        p <= ident_end(b, p) <= b.len(),
    decreases b.len() - p,
{
    if p < b.len() && ident_continue_byte(b[p]) {
        lemma_ident_end(b, p + 1);
    }
}

proof fn lemma_literal_end(b: Seq<u8>, p: int)
    requires
        0 <= p <= b.len(),
    ensures
        p <= literal_end(b, p) <= b.len(),
    decreases b.len() - p,
{
    if p < b.len() && literal_byte(b[p]) {
        lemma_literal_end(b, p + 1);
    }
}

pub proof fn lemma_trivia_end(b: Seq<u8>, p: int, comment: bool)
    requires
        0 <= p <= b.len(),
    ensures
        p <= trivia_end(b, p, comment) <= b.len(),
    decreases b.len() - p,
{
    if p < b.len() {
        if comment {
            lemma_trivia_end(b, p + 1, b[p] != 0x0a);
        } else if blank_byte(b[p]) {
            lemma_trivia_end(b, p + 1, false);
        } else if b[p] == 0x23 {
            lemma_trivia_end(b, p + 1, true);
        }
    }
}

#[via_fn]
proof fn lemma_string_body_ends(b: Seq<u8>, p: int) {
    if 0 <= p <= b.len() {
        lemma_literal_end(b, p);
    }
}

#[via_fn]
proof fn lemma_next_of_ends(b: Seq<u8>, p: int) {
    if 0 <= p <= b.len() {
        lemma_trivia_end(b, p, false);
    }
}

#[via_fn]
proof fn lemma_lex_from_ends(b: Seq<u8>, p: int) {
    if 0 <= p <= b.len() {
        lemma_next_of(b, p);
    }
}

proof fn lemma_string_body(b: Seq<u8>, p: int)
    requires
        0 <= p <= b.len(),
    ensures
        p <= string_body(b, p).end <= b.len(),
    decreases b.len() - p,
{
    lemma_literal_end(b, p);
    let q = literal_end(b, p);
    if q + 1 < b.len() && b[q] != 0x0a && b[q] != 0x22 {
        if b[q + 1] < 0x80 {
            lemma_string_body(b, q + 2);
        } else {
            lemma_string_body(b, q + 1);
        }
    }
}

/// A token ends behind its first byte and within the text.
proof fn lemma_lexed_at(b: Seq<u8>, p: int)
    requires
        0 <= p < b.len(),
        token_starts(b, p),
    ensures
        p < lexed_at(b, p).end <= b.len(),
        lexed_at(b, p).tok.kind != TokKind::Eof,
{
    lemma_digits_end(b, p);
    lemma_digits_end(b, p + 1);
    let d0 = digits_end(b, p);
    let d1 = digits_end(b, p + 1);
    if d0 < b.len() {
        lemma_digits_end(b, d0 + 1);
    }
    if d1 < b.len() {
        lemma_digits_end(b, d1 + 1);
    }
    lemma_ident_end(b, p + 1);
    lemma_string_body(b, p + 1);
}

/// The next token starts at or after `p` and ends within the text.
pub proof fn lemma_next_of(b: Seq<u8>, p: int)
    requires
        0 <= p <= b.len(),
    ensures
        p <= next_of(b, p).start <= next_of(b, p).lexed.end <= b.len(),
        next_of(b, p).lexed.tok.kind != TokKind::Eof ==> next_of(b, p).start < next_of(
            b,
            p,
        ).lexed.end,
    decreases b.len() - p,
{
    lemma_trivia_end(b, p, false);
    let q = trivia_end(b, p, false);
    if q < b.len() {
        if token_starts(b, q) {
            lemma_lexed_at(b, q);
        } else {
            lemma_next_of(b, q + 1);
        }
    }
}

/// Behind an ASCII byte that starts a character, the next character starts.
proof fn lemma_ascii_step(b: Seq<u8>, p: int)
    requires
        valid_utf8(b),
        0 <= p < b.len(),
        is_char_boundary(b, p),
        b[p] < 0x80,
    ensures
        is_char_boundary(b, p + 1),
{
    valid_utf8_split(b, p);
    let t = b.subrange(p, b.len() as int);
    assert(t[0] == b[p]);
    assert(is_leading_byte_width_1(t[0]));
    let u = pop_first_scalar(t);
    assert(valid_utf8(u));
    assert(u =~= b.subrange(p + 1, b.len() as int));
    if p + 1 < b.len() {
        assert(u[0] == b[p + 1]);
        is_char_boundary_start_end_of_seq(u);
        is_char_boundary_iff_not_is_continuation_byte(u, 0);
        is_char_boundary_iff_not_is_continuation_byte(b, p + 1);
    } else {
        is_char_boundary_start_end_of_seq(b);
    }
}

/// An ASCII byte, and the end, are where a character starts.
proof fn lemma_ascii_boundary(b: Seq<u8>, p: int)
    requires
        valid_utf8(b),
        0 <= p <= b.len(),
        p < b.len() ==> b[p] < 0x80,
    ensures
        is_char_boundary(b, p),
{
    if p < b.len() {
        is_char_boundary_iff_not_is_continuation_byte(b, p);
    } else {
        is_char_boundary_start_end_of_seq(b);
    }
}

proof fn lemma_line_col(b: Seq<u8>, p: int)
    requires
        0 <= p <= b.len(),
    ensures
        1 <= line_at(b, p) <= p + 1,
        1 <= col_at(b, p) <= p + 1,
    decreases p,
{
    if p > 0 {
        lemma_line_col(b, p - 1);
    }
}

// ---------------------------------------------------------------------------
// The lexer.

/// The part of a text between two character boundaries.
fn slice<'a>(text: &'a str, from: usize, to: usize) -> (r: &'a str)
    requires
        valid_utf8(text.spec_bytes()),
        from <= to <= text.spec_bytes().len(),
        is_char_boundary(text.spec_bytes(), from as int),
        is_char_boundary(text.spec_bytes(), to as int),
    ensures
        r@ == decode_utf8(text.spec_bytes().subrange(from as int, to as int)),
{
    let ghost b = text.spec_bytes();
    let (head, _) = text.split_at(to);
    proof {
        let h = head.spec_bytes();
        valid_utf8_split(b, to as int);
        if from < to {
            assert(h[from as int] == b[from as int]);
            is_char_boundary_iff_not_is_continuation_byte(b, from as int);
            is_char_boundary_iff_not_is_continuation_byte(h, from as int);
        } else {
            is_char_boundary_start_end_of_seq(h);
        }
    }
    let (_, r) = head.split_at(from);
    proof {
        assert(r.spec_bytes() =~= b.subrange(from as int, to as int));
        encode_utf8_decode_utf8(r@);
    }
    r
}

/// The ASCII text between two positions.
fn ascii_text(src: &[u8], from: usize, to: usize) -> (out: String)
    requires
        from <= to <= src@.len(),
    ensures
        out@ == byte_chars(src@.subrange(from as int, to as int)),
{
    let mut out = String::new();
    let mut i: usize = from;
    proof {
        assert(byte_chars(src@.subrange(from as int, from as int)) =~= Seq::<char>::empty());
    }
    while i < to
        invariant
            from <= i <= to <= src@.len(),
            out@ == byte_chars(src@.subrange(from as int, i as int)),
        decreases to - i,
    {
        out.push(src[i] as char);
        i = i + 1;
        proof {
            assert(byte_chars(src@.subrange(from as int, i as int)) =~= byte_chars(
                src@.subrange(from as int, i - 1),
            ).push(src@[i - 1] as char));
        }
    }
    out
}

fn same(a: &str, b: &str) -> (r: bool)
    ensures
        r == (a@ == b@),
{
    a.to_owned() == b.to_owned()
}

/// The keyword that a word is, if it is one.
fn keyword(word: &str) -> (r: Option<Tok>)
    ensures
        match keyword_of(word@) {
            Some(kind) => r is Some && r->0@ == plain(kind),
            None => r is None,
        },
{
    if same(word, "scene") {
        Some(Tok::Scene)
    } else if same(word, "part") {
        Some(Tok::Part)
    } else if same(word, "anchor") {
        Some(Tok::Anchor)
    } else if same(word, "bind") {
        Some(Tok::Bind)
    } else if same(word, "metric") {
        Some(Tok::Metric)
    } else if same(word, "unit") {
        Some(Tok::Unit)
    } else if same(word, "ttl") {
        Some(Tok::Ttl)
    } else if same(word, "priority") {
        Some(Tok::Priority)
    } else if same(word, "pipe") {
        Some(Tok::Pipe)
    } else if same(word, "tag") {
        Some(Tok::Tag)
    } else if same(word, "meta") {
        Some(Tok::Meta)
    } else if same(word, "at") {
        Some(Tok::At)
    } else {
        None
    }
}

/// A position in a source text, with its line and column.
pub struct Lexer<'a> {
    src: &'a [u8],
    text: &'a str,
    pos: usize,
    line: u32,
    col: u32,
}

impl<'a> Lexer<'a> {
    /// The bytes of the source text.
    pub closed spec fn bytes(&self) -> Seq<u8> {
        self.src@
    }

    /// The byte offset reached.
    pub closed spec fn at(&self) -> int {
        self.pos as int
    }

    /// The line and column are those of the offset, which is within the text.
    pub closed spec fn wf(&self) -> bool {
        &&& self.src@ == self.text.spec_bytes()
        &&& valid_utf8(self.src@)
        &&& self.src@.len() < u32::MAX
        &&& self.pos <= self.src@.len()
        &&& self.line == line_at(self.src@, self.pos as int)
        &&& self.col == col_at(self.src@, self.pos as int)
    }

    pub fn new(text: &'a str) -> (l: Self)
        requires
            encode_utf8(text@).len() < u32::MAX,
        ensures
            l.wf(),
            l.bytes() == encode_utf8(text@),
            l.at() == 0,
    {
        proof {
            encode_utf8_valid_utf8(text@);
        }
        Lexer { src: text.as_bytes(), text, pos: 0, line: 1, col: 1 }
    }

    /// The byte at the position; `None` at the end.
    pub fn peek(&self) -> (c: Option<u8>)
        requires
            self.wf(),
        ensures
            c == (if self.at() < self.bytes().len() {
                Some(self.bytes()[self.at()])
            } else {
                None
            }),
    {
        if self.pos < self.src.len() {
            Some(self.src[self.pos])
        } else {
            None
        }
    }

    /// The byte behind the position; `None` where there is none.
    pub fn peek2(&self) -> (c: Option<u8>)
        requires
            self.wf(),
        ensures
            c == (if self.at() + 1 < self.bytes().len() {
                Some(self.bytes()[self.at() + 1])
            } else {
                None
            }),
    {
        if self.pos + 1 < self.src.len() {
            Some(self.src[self.pos + 1])
        } else {
            None
        }
    }

    /// Steps over one byte and returns it; stays at the end.
    pub fn bump(&mut self) -> (c: Option<u8>)
        requires
            old(self).wf(),
        ensures
            final(self).wf(),
            final(self).bytes() == old(self).bytes(),
            old(self).at() < old(self).bytes().len() ==> c == Some(old(self).bytes()[old(self).at()])
                && final(self).at() == old(self).at() + 1,
            old(self).at() >= old(self).bytes().len() ==> c is None && final(self).at() == old(
                self,
            ).at(),
    {
        let c: u8 = match self.peek() {
            Some(c) => c,
            None => return None,
        };
        proof {
            lemma_line_col(self.src@, self.pos as int);
        }
        self.pos = self.pos + 1;
        if c == 0x0a {
            self.line = self.line + 1;
            self.col = 1;
        } else {
            self.col = self.col + 1;
        }
        Some(c)
    }

    /// The line, the column and the byte offset of the position.
    pub fn here(&self) -> (r: (u32, u32, usize))
        requires
            self.wf(),
        ensures
            r == (
                line_at(self.bytes(), self.at()) as u32,
                col_at(self.bytes(), self.at()) as u32,
                self.at() as usize,
            ),
            r.2 == self.at(),
    {
        (self.line, self.col, self.pos)
    }

    /// Steps over blanks and comments.
    pub fn skip_trivia(&mut self)
        requires
            old(self).wf(),
        ensures
            final(self).wf(),
            final(self).bytes() == old(self).bytes(),
            final(self).at() == trivia_end(old(self).bytes(), old(self).at(), false),
    {
        let mut comment = false;
        while self.pos < self.src.len()
            invariant
                self.wf(),
                self.bytes() == old(self).bytes(),
                trivia_end(old(self).bytes(), old(self).at(), false) == trivia_end(
                    self.bytes(),
                    self.at(),
                    comment,
                ),
            ensures
                self.at() == trivia_end(old(self).bytes(), old(self).at(), false),
            decreases self.bytes().len() - self.at(),
        {
            let c: u8 = self.src[self.pos];
            if comment {
                comment = c != 0x0a;
            } else if c == 0x23 {
                comment = true;
            } else if !(c == 0x20 || c == 0x09 || c == 0x0d || c == 0x0a) {
                break;
            }
            self.bump();
        }
    }

    /// The span from a remembered position to here.
    fn span_from(&self, start: (u32, u32, usize)) -> (s: Span)
        requires
            self.wf(),
            start.2 <= self.at(),
            start.0 == line_at(self.bytes(), start.2 as int),
            start.1 == col_at(self.bytes(), start.2 as int),
        ensures
            s == span_of(self.bytes(), start.2 as int, self.at()),
    {
        Span::new(start.0, start.1, start.2, self.pos - start.2)
    }

    /// Steps over digits.
    fn skip_digits(&mut self)
        requires
            old(self).wf(),
        ensures
            final(self).wf(),
            final(self).bytes() == old(self).bytes(),
            final(self).at() == digits_end(old(self).bytes(), old(self).at()),
    {
        while self.pos < self.src.len() && is_digit(self.src[self.pos])
            invariant
                self.wf(),
                self.bytes() == old(self).bytes(),
                digits_end(old(self).bytes(), old(self).at()) == digits_end(
                    self.bytes(),
                    self.at(),
                ),
            decreases self.bytes().len() - self.at(),
        {
            self.bump();
        }
    }

    /// Reads the word at the position.
    fn lex_ident(&mut self) -> (t: Tok)
        requires
            old(self).wf(),
        ensures
            final(self).wf(),
            final(self).bytes() == old(self).bytes(),
            final(self).at() == lexed_ident(old(self).bytes(), old(self).at()).end,
            t@ == lexed_ident(old(self).bytes(), old(self).at()).tok,
    {
        let start: usize = self.pos;
        while self.pos < self.src.len() && is_ident_continue(self.src[self.pos])
            invariant
                self.wf(),
                start == old(self).at() <= self.at(),
                self.bytes() == old(self).bytes(),
                ident_end(old(self).bytes(), old(self).at()) == ident_end(self.bytes(), self.at()),
            decreases self.bytes().len() - self.at(),
        {
            self.bump();
        }
        let word = ascii_text(self.src, start, self.pos);
        match keyword(word.as_str()) {
            Some(t) => t,
            None => Tok::Ident(word),
        }
    }

    /// Reads the numeral at the position, with the suffix of a duration.
    fn lex_number(&mut self, diags: &mut Vec<Diagnostic>) -> (t: Tok)
        requires
            old(self).wf(),
        ensures
            final(self).wf(),
            final(self).bytes() == old(self).bytes(),
            final(self).at() == lexed_number(old(self).bytes(), old(self).at()).end,
            t@ == lexed_number(old(self).bytes(), old(self).at()).tok,
            views(final(diags)@) == views(old(diags)@) + lexed_number(
                old(self).bytes(),
                old(self).at(),
            ).diags,
    {
        broadcast use lemma_views_push;

        let ghost b = self.bytes();
        let ghost p = self.at();
        let start = self.here();
        if self.peek() == Some(0x2d) {
            self.bump();
        }
        proof {
            lemma_digits_end(b, self.at());
        }
        self.skip_digits();
        if self.peek() == Some(0x2e) {
            self.bump();
            proof {
                lemma_digits_end(b, self.at());
            }
            self.skip_digits();
        }
        let end: usize = self.pos;
        let text = ascii_text(self.src, start.2, end);
        let mut found = false;
        let mut i: usize = start.2;
        while i < end
            invariant
                start.2 <= i <= end <= self.src@.len(),
                found == has_digit(self.src@.subrange(start.2 as int, i as int)),
            decreases end - i,
        {
            let ghost before = self.src@.subrange(start.2 as int, i as int);
            let ghost after = self.src@.subrange(start.2 as int, i + 1);
            proof {
                assert(after =~= before.push(self.src@[i as int]));
                if has_digit(before) {
                    let k = choose|k: int| 0 <= k < before.len() && #[trigger] digit_byte(before[k]);
                    assert(digit_byte(after[k]));
                }
                if digit_byte(self.src@[i as int]) {
                    assert(digit_byte(after[before.len() as int]));
                }
                if has_digit(after) {
                    let k = choose|k: int| 0 <= k < after.len() && #[trigger] digit_byte(after[k]);
                    if k < before.len() {
                        assert(digit_byte(before[k]));
                    }
                }
            }
            if is_digit(self.src[i]) {
                found = true;
            }
            i = i + 1;
        }
        if !found {
            diags.push(
                Diagnostic::error(
                    cat3("invalid number `", text.as_str(), "`"),
                    self.span_from(start),
                ),
            );
            proof {
                assert(views(diags@) =~= views(old(diags)@) + lexed_number(b, p).diags);
            }
        } else {
            proof {
                assert(views(diags@) =~= views(old(diags)@) + lexed_number(b, p).diags);
            }
        }
        let is_dur = self.peek() == Some(0x6d) && self.peek2() == Some(0x73) && !(self.src.len()
            - self.pos > 2 && is_ident_continue(self.src[self.pos + 2]));
        if is_dur {
            self.bump();
            self.bump();
            Tok::Dur(text)
        } else {
            Tok::Num(text)
        }
    }

    /// Reads the string literal whose opening quote stands at the position.
    fn lex_string(&mut self, diags: &mut Vec<Diagnostic>) -> (t: Tok)
        requires
            old(self).wf(),
            old(self).at() < old(self).bytes().len(),
            old(self).bytes()[old(self).at()] == 0x22,
        ensures
            final(self).wf(),
            final(self).bytes() == old(self).bytes(),
            final(self).at() == lexed_string(old(self).bytes(), old(self).at()).end,
            t@ == lexed_string(old(self).bytes(), old(self).at()).tok,
            views(final(diags)@) == views(old(diags)@) + lexed_string(
                old(self).bytes(),
                old(self).at(),
            ).diags,
    {
        broadcast use lemma_views_push;

        let ghost b = self.bytes();
        let ghost p = self.at();
        let start = self.here();
        proof {
            lemma_ascii_boundary(b, p);
            lemma_ascii_step(b, p);
        }
        self.bump();
        let mut value = String::new();
        let mut closed = false;
        let ghost body = string_body(b, p + 1);
        loop
            invariant_except_break
                is_char_boundary(b, self.at()),
                !closed,
                body.value == value@ + string_body(b, self.at()).value,
                body.end == string_body(b, self.at()).end,
                body.closed == string_body(b, self.at()).closed,
            invariant
                self.wf(),
                self.bytes() == b,
                b == old(self).bytes(),
                p == old(self).at(),
                p < self.at() <= b.len(),
                start.2 == p,
                start.0 == line_at(b, p),
                start.1 == col_at(b, p),
                *diags == *old(diags),
                body == string_body(b, p + 1),
            ensures
                body.value == value@,
                body.end == self.at(),
                body.closed == closed,
            decreases b.len() - self.at(),
        {
            let from: usize = self.pos;
            proof {
                lemma_literal_end(b, from as int);
            }
            while self.pos < self.src.len() && self.src[self.pos] != 0x22 && self.src[self.pos]
                != 0x5c && self.src[self.pos] != 0x0a
                invariant
                    self.wf(),
                    self.bytes() == b,
                    from <= self.at(),
                    literal_end(b, from as int) == literal_end(b, self.at()),
                decreases b.len() - self.at(),
            {
                self.bump();
            }
            proof {
                lemma_ascii_boundary(b, self.at());
            }
            let ghost before = value@;
            let ghost head = decode_utf8(b.subrange(from as int, self.at()));
            value.append(slice(self.text, from, self.pos));
            match self.peek() {
                None => {
                    proof {
                        assert(body.value =~= value@);
                    }
                    break;
                }
                Some(0x0a) => {
                    proof {
                        assert(body.value =~= value@);
                    }
                    break;
                }
                Some(0x22) => {
                    self.bump();
                    closed = true;
                    proof {
                        assert(body.value =~= value@);
                    }
                    break;
                }
                _ => {
                    proof {
                        lemma_ascii_step(b, self.at());
                    }
                    self.bump();
                    match self.peek() {
                        None => {
                            proof {
                                assert(body.value =~= value@);
                            }
                            break;
                        }
                        Some(c) => {
                            if c < 0x80 {
                                proof {
                                    lemma_ascii_step(b, self.at());
                                }
                                if c == 0x6e {
                                    value.push('\n');
                                } else if c == 0x74 {
                                    value.push('\t');
                                } else {
                                    value.push(c as char);
                                }
                                self.bump();
                                proof {
                                    let rest = string_body(b, self.at());
                                    assert(value@ == (before + head).push(escaped(c)));
                                    assert(before + (head.push(escaped(c)) + rest.value)
                                        =~= value@ + rest.value);
                                }
                            } else {
                                proof {
                                    let rest = string_body(b, self.at());
                                    assert(before + (head + rest.value) =~= value@ + rest.value);
                                }
                            }
                        }
                    }
                }
            }
        }
        if !closed {
            diags.push(
                Diagnostic::error(
                    "unterminated string literal".to_owned(),
                    self.span_from(start),
                ),
            );
        }
        proof {
            assert(views(diags@) =~= views(old(diags)@) + lexed_string(b, p).diags);
        }
        Tok::Str(value)
    }

    /// Reads the token that starts at the position.
    fn lex_token(&mut self, diags: &mut Vec<Diagnostic>) -> (t: Tok)
        requires
            old(self).wf(),
            old(self).at() < old(self).bytes().len(),
            token_starts(old(self).bytes(), old(self).at()),
        ensures
            final(self).wf(),
            final(self).bytes() == old(self).bytes(),
            final(self).at() == lexed_at(old(self).bytes(), old(self).at()).end,
            t@ == lexed_at(old(self).bytes(), old(self).at()).tok,
            views(final(diags)@) == views(old(diags)@) + lexed_at(
                old(self).bytes(),
                old(self).at(),
            ).diags,
    {
        broadcast use lemma_views_push;

        let ghost b = self.bytes();
        let ghost p = self.at();
        let start = self.here();
        let c: u8 = self.src[self.pos];
        let next = self.peek2();
        proof {
            assert(views(diags@) =~= views(diags@) + Seq::<DiagnosticView>::empty());
        }
        if c == 0x22 {
            return self.lex_string(diags);
        }
        let numeric = match next {
            Some(d) => (c == 0x2e && is_digit(d)) || (c == 0x2d && (is_digit(d) || d == 0x2e)),
            None => false,
        };
        if numeric || is_digit(c) {
            return self.lex_number(diags);
        }
        if is_ident_start(c) {
            return self.lex_ident();
        }
        self.bump();
        if c == 0x7b {
            Tok::LBrace
        } else if c == 0x7d {
            Tok::RBrace
        } else if c == 0x28 {
            Tok::LParen
        } else if c == 0x29 {
            Tok::RParen
        } else if c == 0x2c {
            Tok::Comma
        } else if c == 0x3d {
            Tok::Eq
        } else if c == 0x2e {
            Tok::Dot
        } else if next == Some(0x3e) {
            self.bump();
            Tok::Arrow
        } else {
            diags.push(
                Diagnostic::error(
                    "unexpected `-` (expected `->` or a number)".to_owned(),
                    self.span_from(start),
                ),
            );
            proof {
                assert(views(diags@) =~= views(old(diags)@) + lexed_at(b, p).diags);
            }
            Tok::Ident("-".to_owned())
        }
    }

    /// Reads the next token.
    pub fn next_token(&mut self, diags: &mut Vec<Diagnostic>) -> (t: Token)
        requires
            old(self).wf(),
        ensures
            final(self).wf(),
            final(self).bytes() == old(self).bytes(),
            ({
                let n = next_of(old(self).bytes(), old(self).at());
                &&& final(self).at() == n.lexed.end
                &&& t@ == (TokenView {
                    tok: n.lexed.tok,
                    span: span_of(old(self).bytes(), n.start, n.lexed.end),
                })
                &&& views(final(diags)@) == views(old(diags)@) + n.lexed.diags
            }),
    {
        broadcast use lemma_views_push;

        let ghost b = self.bytes();
        let ghost n = next_of(b, self.at());
        proof {
            assert(views(diags@) + n.lexed.diags =~= views(diags@) + next_of(
                b,
                self.at(),
            ).lexed.diags);
        }
        loop
            invariant
                self.wf(),
                self.bytes() == b,
                b == old(self).bytes(),
                n == next_of(b, old(self).at()),
                ({
                    let m = next_of(b, self.at());
                    &&& n.start == m.start
                    &&& n.lexed.tok == m.lexed.tok
                    &&& n.lexed.end == m.lexed.end
                    &&& views(old(diags)@) + n.lexed.diags == views(diags@) + m.lexed.diags
                }),
            decreases b.len() - self.at(),
        {
            let ghost p = self.at();
            proof {
                lemma_trivia_end(b, p, false);
            }
            self.skip_trivia();
            let start = self.here();
            let c: u8 = match self.peek() {
                Some(c) => c,
                None => {
                    proof {
                        assert(views(diags@) + next_of(b, p).lexed.diags =~= views(diags@));
                    }
                    return Token { tok: Tok::Eof, span: Span::point(start.0, start.1, start.2) };
                },
            };
            if c == 0x7b || c == 0x7d || c == 0x28 || c == 0x29 || c == 0x2c || c == 0x3d || c
                == 0x2e || c == 0x22 || c == 0x2d || is_digit(c) || is_ident_start(c) {
                proof {
                    lemma_lexed_at(b, self.at());
                }
                let tok = self.lex_token(diags);
                return Token { tok, span: self.span_from(start) };
            }
            self.bump();
            let mut shown = String::new();
            shown.push(c as char);
            proof {
                assert(shown@ =~= seq![c as char]);
            }
            let ghost before = views(diags@);
            diags.push(
                Diagnostic::error(
                    cat3("unexpected character `", shown.as_str(), "`"),
                    self.span_from(start),
                ),
            );
            proof {
                let m = next_of(b, p);
                let rest = next_of(b, self.at());
                assert(before + m.lexed.diags =~= views(diags@) + rest.lexed.diags);
            }
        }
    }
}

/// Splits `text` into tokens, the last of them the end of input, with the
/// messages about what could not be read.
pub fn lex(text: &str) -> (r: (Vec<Token>, Vec<Diagnostic>))
    requires
        encode_utf8(text@).len() < u32::MAX,
    ensures
        views(r.0@) == lex_of(text@).tokens,
        views(r.1@) == lex_of(text@).diags,
{
    broadcast use lemma_views_push;

    let ghost b = encode_utf8(text@);
    let mut lexer = Lexer::new(text);
    let mut diags: Vec<Diagnostic> = Vec::new();
    let mut tokens: Vec<Token> = Vec::new();
    proof {
        assert(views(tokens@) + lex_of(text@).tokens =~= lex_of(text@).tokens);
        assert(views(diags@) + lex_of(text@).diags =~= lex_of(text@).diags);
    }
    loop
        invariant
            lexer.wf(),
            lexer.bytes() == b,
            b == encode_utf8(text@),
            0 <= lexer.at() <= b.len(),
            lex_of(text@).tokens == views(tokens@) + lex_from(b, lexer.at()).tokens,
            lex_of(text@).diags == views(diags@) + lex_from(b, lexer.at()).diags,
        decreases b.len() - lexer.at(),
    {
        let ghost p = lexer.at();
        let ghost tokens0 = views(tokens@);
        let ghost diags0 = views(diags@);
        proof {
            lemma_next_of(b, p);
        }
        let t = lexer.next_token(&mut diags);
        let is_eof = t.tok.kind() == TokKind::Eof;
        tokens.push(t);
        if is_eof {
            proof {
                assert(views(tokens@) =~= lex_of(text@).tokens);
            }
            return (tokens, diags);
        }
        proof {
            let rest = lex_from(b, lexer.at());
            assert(lex_of(text@).tokens =~= views(tokens@) + rest.tokens);
            assert(lex_of(text@).diags =~= views(diags@) + rest.diags);
        }
    }
}

// ---------------------------------------------------------------------------
// What holds of every token stream.

/// A token stream as the parser takes it: the end of input stands at its end.
pub open spec fn ended_stream(tokens: Seq<TokenView>) -> bool {
    tokens.len() > 0 && tokens.last().tok.kind == TokKind::Eof
}

/// A token stream as the lexer makes it: the end of input stands at its end, and
/// nowhere else.
pub open spec fn closed_stream(tokens: Seq<TokenView>) -> bool {
    &&& tokens.len() > 0
    &&& tokens.last().tok.kind == TokKind::Eof
    &&& forall|i: int|
        0 <= i < tokens.len() - 1 ==> (#[trigger] tokens[i]).tok.kind != TokKind::Eof
}

/// The tokens from `p` on lie one behind the other within the text.
pub open spec fn in_order(tokens: Seq<TokenView>, p: int, len: int) -> bool {
    &&& forall|i: int|
        0 <= i < tokens.len() ==> p <= (#[trigger] tokens[i]).span.offset
            && tokens[i].span.offset + tokens[i].span.len <= len
    &&& forall|i: int, j: int|
        0 <= i < j < tokens.len() ==> (#[trigger] tokens[i]).span.offset + tokens[i].span.len <= (
        #[trigger] tokens[j]).span.offset
}

proof fn lemma_lex_from(b: Seq<u8>, p: int)
    requires
        0 <= p <= b.len() <= u32::MAX,
    ensures
        closed_stream(lex_from(b, p).tokens),
        in_order(lex_from(b, p).tokens, p, b.len() as int),
    decreases b.len() - p,
{
    lemma_next_of(b, p);
    let n = next_of(b, p);
    let token = TokenView { tok: n.lexed.tok, span: span_of(b, n.start, n.lexed.end) };
    if n.lexed.tok.kind != TokKind::Eof {
        lemma_lex_from(b, n.lexed.end);
        let rest = lex_from(b, n.lexed.end).tokens;
        let all = lex_from(b, p).tokens;
        assert(all == seq![token] + rest);
        assert forall|i: int| 0 <= i < all.len() - 1 implies (#[trigger] all[i]).tok.kind
            != TokKind::Eof by {
            if i > 0 {
                assert(all[i] == rest[i - 1]);
            }
        }
        assert forall|i: int| 0 <= i < all.len() implies p <= (#[trigger] all[i]).span.offset
            && all[i].span.offset + all[i].span.len <= b.len() by {
            if i > 0 {
                assert(all[i] == rest[i - 1]);
            }
        }
        assert forall|i: int, j: int| 0 <= i < j < all.len() implies (#[trigger] all[i]).span.offset
            + all[i].span.len <= (#[trigger] all[j]).span.offset by {
            assert(all[j] == rest[j - 1]);
            if i > 0 {
                assert(all[i] == rest[i - 1]);
            }
        }
        assert(all.last() == rest.last());
    }
}

/// The tokens of a text always end in the end of input, which stands nowhere
/// else, and their spans lie one behind the other within the text.
pub proof fn law_tokens_are_closed_and_in_order(text: Seq<char>)
    requires
        encode_utf8(text).len() < u32::MAX,
    ensures
        closed_stream(lex_of(text).tokens),
        in_order(lex_of(text).tokens, 0, encode_utf8(text).len() as int),
{
    lemma_lex_from(encode_utf8(text), 0);
}

} // verus!
