//! Source spans and caret-rendered diagnostics for Flow3D.
//!
//! Flow3D files are written by people, so every token and every syntax node
//! carries a [`Span`], and [`render`] prints the offending source line with a
//! caret underline and a `file:line:col` locator.

use crate::model::views;
use crate::text::{cat, chars_of, decimal, decimal_of, from_chars, repeat_char, run_of};
use vstd::prelude::*;
use vstd::string::*;
use vstd::utf8::encode_utf8;

verus! {

/// A half-open region of the source text. `line` and `col` count from one;
/// `offset` and `len` count bytes.
#[derive(Debug, Clone, Copy, PartialEq, Eq, Structural)]
pub struct Span {
    pub line: u32,
    pub col: u32,
    pub offset: usize,
    pub len: usize,
}

impl Span {
    pub fn new(line: u32, col: u32, offset: usize, len: usize) -> (s: Self)
        ensures
            s == (Span { line, col, offset, len }),
    {
        Span { line, col, offset, len }
    }

    /// An empty span at the given position.
    pub fn point(line: u32, col: u32, offset: usize) -> (s: Self)
        ensures
            s == (Span { line, col, offset, len: 0 }),
    {
        Span::new(line, col, offset, 0)
    }

    /// The locator `line:col`.
    pub fn locator(&self) -> (s: String)
        ensures
            s@ == decimal_of(self.line as nat) + ":"@ + decimal_of(self.col as nat),
    {
        let mut s = decimal(self.line as u64);
        s.append(":");
        s.append(decimal(self.col as u64).as_str());
        s
    }
}

#[derive(Debug, Clone, Copy, PartialEq, Eq, Structural)]
pub enum Severity {
    Error,
    Warning,
}

impl Severity {
    pub open spec fn label_of(self) -> Seq<char> {
        match self {
            Severity::Error => "error"@,
            Severity::Warning => "warning"@,
        }
    }

    pub fn label(self) -> (s: &'static str)
        ensures
            s@ == self.label_of(),
    {
        match self {
            Severity::Error => "error",
            Severity::Warning => "warning",
        }
    }
}

/// A single message anchored to a source span.
#[derive(Debug, Clone)]
pub struct Diagnostic {
    pub severity: Severity,
    pub message: String,
    pub span: Span,
}

/// The model of a [`Diagnostic`].
pub struct DiagnosticView {
    pub severity: Severity,
    pub message: Seq<char>,
    pub span: Span,
}

impl View for Diagnostic {
    type V = DiagnosticView;

    open spec fn view(&self) -> DiagnosticView {
        DiagnosticView { severity: self.severity, message: self.message@, span: self.span }
    }
}

impl DiagnosticView {
    pub open spec fn error(message: Seq<char>, span: Span) -> DiagnosticView {
        DiagnosticView { severity: Severity::Error, message, span }
    }

    pub open spec fn warning(message: Seq<char>, span: Span) -> DiagnosticView {
        DiagnosticView { severity: Severity::Warning, message, span }
    }

    pub open spec fn is_error(self) -> bool {
        self.severity == Severity::Error
    }
}

impl Diagnostic {
    pub fn error(message: String, span: Span) -> (d: Self)
        ensures
            d@ == DiagnosticView::error(message@, span),
    {
        Diagnostic { severity: Severity::Error, message, span }
    }

    pub fn warning(message: String, span: Span) -> (d: Self)
        ensures
            d@ == DiagnosticView::warning(message@, span),
    {
        Diagnostic { severity: Severity::Warning, message, span }
    }

    pub fn is_error(&self) -> (b: bool)
        ensures
            b == self@.is_error(),
    {
        self.severity == Severity::Error
    }
}

/// Where the line after the next `n` line feeds starts, looking from `from`;
/// past the end where there are fewer.
pub open spec fn line_start(s: Seq<char>, from: int, n: nat) -> int
    decreases s.len() - from,
{
    if n == 0 || from >= s.len() || from < 0 {
        from
    } else if s[from] == '\n' {
        line_start(s, from + 1, (n - 1) as nat)
    } else {
        line_start(s, from + 1, n)
    }
}

/// The first line feed at or after `from`, or the end of the text.
pub open spec fn line_feed(s: Seq<char>, from: int) -> int
    decreases s.len() - from,
{
    if from >= s.len() || from < 0 {
        s.len() as int
    } else if s[from] == '\n' {
        from
    } else {
        line_feed(s, from + 1)
    }
}

/// Line `n` of a text, counted from zero, without its line ending (`\n` or
/// `\r\n`); empty where the text has no such line.
pub open spec fn line_text(s: Seq<char>, n: nat) -> Seq<char> {
    let a = line_start(s, 0, n);
    let b = line_feed(s, a);
    if a >= s.len() {
        Seq::empty()
    } else if b < s.len() && b > a && s[b - 1] == '\r' {
        s.subrange(a, b - 1)
    } else {
        s.subrange(a, b)
    }
}

/// Line `n` of a text, counted from zero.
fn nth_line(source: &str, n: usize) -> (out: String)
    ensures
        out@ == line_text(source@, n as nat),
{
    let chars = chars_of(source);
    let mut a: usize = 0;
    let mut left: usize = n;
    while left > 0 && a < chars.len()
        invariant
            a <= chars@.len(),
            line_start(chars@, 0, n as nat) == line_start(chars@, a as int, left as nat),
        decreases chars@.len() - a,
    {
        if chars[a] == '\n' {
            left = left - 1;
        }
        a = a + 1;
    }
    if a >= chars.len() {
        return String::new();
    }
    let mut b: usize = a;
    while b < chars.len() && chars[b] != '\n'
        invariant
            a <= b <= chars@.len(),
            line_feed(chars@, a as int) == line_feed(chars@, b as int),
        decreases chars@.len() - b,
    {
        b = b + 1;
    }
    if b < chars.len() && b > a && chars[b - 1] == '\r' {
        from_chars(&chars, a, b - 1)
    } else {
        from_chars(&chars, a, b)
    }
}

/// What stands in front of the `-->` of the locator line: the gutter alone.
pub fn gutter_arrow(gutter: &str) -> (out: String)
    ensures
        out@ == gutter@,
{
    gutter.to_string()
}

/// How many carets underline a span of `len` bytes: one under each of them, as
/// far as the line reaches, and at least one.
pub open spec fn caret_count(len: nat, line: Seq<char>) -> nat {
    let width = encode_utf8(line).len();
    if len == 0 || width == 0 {
        1
    } else if len > width {
        width
    } else {
        len
    }
}

/// How many lines or columns come before a number that counts from one; none
/// before zero.
pub open spec fn before(n: u32) -> nat {
    if n == 0 {
        0
    } else {
        (n - 1) as nat
    }
}

/// What [`render`] prints: a headline, the locator, an empty gutter line, the
/// source line behind its number, and the carets under the span.
pub open spec fn rendering(d: DiagnosticView, source: Seq<char>, filename: Seq<char>) -> Seq<char> {
    let number = decimal_of(d.span.line as nat);
    let gutter = run_of(' ', number.len());
    let headline = d.severity.label_of() + ": "@ + d.message + "\n"@;
    let locator = gutter + "--> "@ + filename + ":"@ + number + ":"@ + decimal_of(
        d.span.col as nat,
    ) + "\n"@;
    let line = line_text(source, before(d.span.line));
    let quoted = number + " | "@ + line + "\n"@;
    let carets = gutter + " | "@ + run_of(' ', before(d.span.col)) + run_of(
        '^',
        caret_count(d.span.len as nat, line),
    );
    headline + locator + (gutter + " |\n"@) + quoted + carets
}

/// Renders a diagnostic against its source:
///
/// ```text
/// error: unexpected token `}`
///   --> pump.flow3d:12:3
///    |
/// 12 |   }
///    |   ^
/// ```
pub fn render(diag: &Diagnostic, source: &str, filename: &str) -> (out: String)
    ensures
        out@ == rendering(diag@, source@, filename@),
{
    let line_no = decimal(diag.span.line as u64);
    let width: usize = line_no.as_str().unicode_len();
    let gutter = repeat_char(' ', width);
    let above: u32 = if diag.span.line == 0 {
        0
    } else {
        diag.span.line - 1
    };
    let left: u32 = if diag.span.col == 0 {
        0
    } else {
        diag.span.col - 1
    };
    let line = nth_line(source, above as usize);
    let line_width: usize = line.as_str().as_bytes().len();
    let caret_len: usize = if diag.span.len == 0 || line_width == 0 {
        1
    } else if diag.span.len > line_width {
        line_width
    } else {
        diag.span.len
    };

    let mut out = cat(diag.severity.label(), ": ");
    out.append(diag.message.as_str());
    out.append("\n");

    let mut locator = gutter_arrow(gutter.as_str());
    locator.append("--> ");
    locator.append(filename);
    locator.append(":");
    locator.append(line_no.as_str());
    locator.append(":");
    locator.append(decimal(diag.span.col as u64).as_str());
    locator.append("\n");
    out.append(locator.as_str());

    out.append(cat(gutter.as_str(), " |\n").as_str());

    let mut quoted = cat(line_no.as_str(), " | ");
    quoted.append(line.as_str());
    quoted.append("\n");
    out.append(quoted.as_str());

    let mut carets = cat(gutter.as_str(), " | ");
    carets.append(repeat_char(' ', left as usize).as_str());
    carets.append(repeat_char('^', caret_len).as_str());
    out.append(carets.as_str());
    out
}

/// The renderings one after the other, separated by blank lines.
pub open spec fn rendering_all(
    diags: Seq<DiagnosticView>,
    source: Seq<char>,
    filename: Seq<char>,
) -> Seq<char>
    decreases diags.len(),
{
    if diags.len() == 0 {
        Seq::empty()
    } else if diags.len() == 1 {
        rendering(diags[0], source, filename)
    } else {
        rendering_all(diags.drop_last(), source, filename) + "\n\n"@ + rendering(
            diags.last(),
            source,
            filename,
        )
    }
}

/// Renders all diagnostics, separated by blank lines.
pub fn render_all(diags: &[Diagnostic], source: &str, filename: &str) -> (out: String)
    ensures
        out@ == rendering_all(views(diags@), source@, filename@),
{
    let mut out = String::new();
    let mut i: usize = 0;
    while i < diags.len()
        invariant
            i <= diags@.len(),
            out@ == rendering_all(views(diags@).take(i as int), source@, filename@),
        decreases diags@.len() - i,
    {
        if i > 0 {
            out.append("\n\n");
        }
        out.append(render(&diags[i], source, filename).as_str());
        proof {
            let all = views(diags@);
            assert(all.take(i + 1).drop_last() =~= all.take(i as int));
            assert(all.take(i + 1).last() == diags@[i as int]@);
            if i == 0 {
                assert(out@ =~= rendering(diags@[0]@, source@, filename@));
            }
        }
        i = i + 1;
    }
    proof {
        assert(views(diags@).take(i as int) =~= views(diags@));
    }
    out
}

} // verus!
