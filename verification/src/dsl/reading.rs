//! What the words, numerals, strings and marks of a source text are read as, and where
//! they are said to stand.

use super::diag::{
    caret_count, line_feed, line_start, line_text, rendering, rendering_all, DiagnosticView,
    Severity,
};
use super::lexer::{
    byte_chars, col_at, describe_of, digits_end, escaped, ident_end, keyword_of, kind_name,
    lemma_next_of, lemma_trivia_end, lex_from, lexed_at, lexed_string, line_at, literal_end,
    next_of, numeral_end, span_of, string_body, token_starts, trivia_end, TokKind, TokView,
    TokenView,
};
use crate::text::{decimal_of, run_of};
use vstd::prelude::*;
use vstd::string::*;
use vstd::utf8::*;

verus! {

// ---------------------------------------------------------------------------
// Positions.

/// How many line feeds stand in the first `p` bytes.
pub open spec fn feeds_before(b: Seq<u8>, p: int) -> nat {
    b.take(p).filter(|c: u8| c == 10).len()
}

/// Lines are counted from one, and a line feed ends a line. Columns are counted in
/// bytes, from one at the start of a line.
pub proof fn law_positions_are_counted(b: Seq<u8>, start: int, p: int)
    requires
        0 <= start <= p <= b.len(),
        start == 0 || b[start - 1] == 10,
        forall|i: int| start <= i < p ==> #[trigger] b[i] != 10,
    ensures
        line_at(b, p) == 1 + feeds_before(b, p),
        col_at(b, p) == p - start + 1,
{
    lemma_lines(b, p);
    lemma_column(b, start, p);
}

proof fn lemma_lines(b: Seq<u8>, p: int)
    requires
        0 <= p <= b.len(),
    ensures
        line_at(b, p) == 1 + feeds_before(b, p),
    decreases p,
{
    reveal(Seq::filter);
    if p > 0 {
        lemma_lines(b, p - 1);
        assert(b.take(p).drop_last() =~= b.take(p - 1));
        assert(b.take(p).last() == b[p - 1]);
    }
}

proof fn lemma_column(b: Seq<u8>, start: int, p: int)
    requires
        0 <= start <= p <= b.len(),
        start == 0 || b[start - 1] == 10,
        forall|i: int| start <= i < p ==> #[trigger] b[i] != 10,
    ensures
        col_at(b, p) == p - start + 1,
    decreases p,
{
    if p > start {
        assert(b[p - 1] != 10);
        lemma_column(b, start, p - 1);
    }
}

/// A span says where it starts, by line, column and offset, and how long it is.
pub proof fn law_spans_tell_their_place(b: Seq<u8>, p: int, q: int)
    requires
        0 <= p <= q <= b.len(),
        b.len() < u32::MAX,
    ensures
        span_of(b, p, q).offset == p,
        span_of(b, p, q).len == q - p,
        span_of(b, p, q).line == line_at(b, p),
        span_of(b, p, q).col == col_at(b, p),
{
    lemma_position_bounds(b, p);
}

proof fn lemma_position_bounds(b: Seq<u8>, p: int)
    requires
        0 <= p,
    ensures
        1 <= line_at(b, p) <= p + 1,
        1 <= col_at(b, p) <= p + 1,
    decreases p,
{
    if p > 0 {
        lemma_position_bounds(b, p - 1);
    }
}

// ---------------------------------------------------------------------------
// Words.

/// A letter of the alphabet, in either case.
pub open spec fn is_letter(c: u8) -> bool {
    'a' as u8 <= c <= 'z' as u8 || 'A' as u8 <= c <= 'Z' as u8
}

pub open spec fn is_decimal(c: u8) -> bool {
    '0' as u8 <= c <= '9' as u8
}

/// A byte that can stand in a word.
pub open spec fn is_word_byte(c: u8) -> bool {
    is_letter(c) || is_decimal(c) || c == '_' as u8 || c == '-' as u8 || c == '/' as u8 || c
        == ':' as u8
}

/// A byte that a word can start with.
pub open spec fn starts_word(c: u8) -> bool {
    is_letter(c) || c == '_' as u8 || c == '/' as u8
}

proof fn lemma_word_end(b: Seq<u8>, p: int, q: int)
    requires
        0 <= p <= q <= b.len(),
        forall|i: int| p <= i < q ==> is_word_byte(#[trigger] b[i]),
        q == b.len() || !is_word_byte(b[q]),
    ensures
        ident_end(b, p) == q,
    decreases q - p,
{
    if p < q {
        assert(is_word_byte(b[p]));
        lemma_word_end(b, p + 1, q);
    }
}

/// A run of letters, digits, `_`, `-`, `/` and `:` that starts with a letter, `_` or
/// `/` is read as one word, up to where it ends: a keyword where it reads as one, and
/// an identifier with its text otherwise. Nothing is reported of it.
pub proof fn law_words_are_read_whole(b: Seq<u8>, p: int, q: int)
    requires
        0 <= p < q <= b.len(),
        starts_word(b[p]),
        forall|i: int| p <= i < q ==> is_word_byte(#[trigger] b[i]),
        q == b.len() || !is_word_byte(b[q]),
    ensures
        ({
            let word = byte_chars(b.subrange(p, q));
            let read = lexed_at(b, p);
            &&& token_starts(b, p)
            &&& read.end == q
            &&& read.diags.len() == 0
            &&& keyword_of(word) is None ==> read.tok.kind == TokKind::Ident && read.tok.text
                == word
            &&& keyword_of(word) is Some ==> read.tok.kind == keyword_of(word)->0
                && read.tok.text.len() == 0
        }),
{
    lemma_word_end(b, p, q);
}

/// Exactly the keywords of the language are keywords, and each is its own token.
pub proof fn law_keywords_are_known(word: Seq<char>)
    ensures
        keyword_of(word) == Some(TokKind::Scene) <==> word == "scene"@,
        keyword_of(word) == Some(TokKind::Part) <==> word == "part"@,
        keyword_of(word) == Some(TokKind::Anchor) <==> word == "anchor"@,
        keyword_of(word) == Some(TokKind::Bind) <==> word == "bind"@,
        keyword_of(word) == Some(TokKind::Metric) <==> word == "metric"@,
        keyword_of(word) == Some(TokKind::Unit) <==> word == "unit"@,
        keyword_of(word) == Some(TokKind::Ttl) <==> word == "ttl"@,
        keyword_of(word) == Some(TokKind::Priority) <==> word == "priority"@,
        keyword_of(word) == Some(TokKind::Pipe) <==> word == "pipe"@,
        keyword_of(word) == Some(TokKind::Tag) <==> word == "tag"@,
        keyword_of(word) == Some(TokKind::Meta) <==> word == "meta"@,
        keyword_of(word) == Some(TokKind::At) <==> word == "at"@,
        keyword_of(word) is Some ==> word == "scene"@ || word == "part"@ || word == "anchor"@ || word
            == "bind"@ || word == "metric"@ || word == "unit"@ || word == "ttl"@ || word
            == "priority"@ || word == "pipe"@ || word == "tag"@ || word == "meta"@ || word == "at"@,
{
    reveal_strlit("scene");
    reveal_strlit("part");
    reveal_strlit("anchor");
    reveal_strlit("bind");
    reveal_strlit("metric");
    reveal_strlit("unit");
    reveal_strlit("ttl");
    reveal_strlit("priority");
    reveal_strlit("pipe");
    reveal_strlit("tag");
    reveal_strlit("meta");
    reveal_strlit("at");
    assert("scene"@.len() == 5 && "scene"@[0] == 's' && "scene"@[1] == 'c');
    assert("part"@.len() == 4 && "part"@[0] == 'p' && "part"@[1] == 'a');
    assert("anchor"@.len() == 6 && "anchor"@[0] == 'a' && "anchor"@[1] == 'n');
    assert("bind"@.len() == 4 && "bind"@[0] == 'b' && "bind"@[1] == 'i');
    assert("metric"@.len() == 6 && "metric"@[0] == 'm' && "metric"@[1] == 'e');
    assert("unit"@.len() == 4 && "unit"@[0] == 'u' && "unit"@[1] == 'n');
    assert("ttl"@.len() == 3 && "ttl"@[0] == 't' && "ttl"@[1] == 't');
    assert("priority"@.len() == 8 && "priority"@[0] == 'p' && "priority"@[1] == 'r');
    assert("pipe"@.len() == 4 && "pipe"@[0] == 'p' && "pipe"@[1] == 'i');
    assert("tag"@.len() == 3 && "tag"@[0] == 't' && "tag"@[1] == 'a');
    assert("meta"@.len() == 4 && "meta"@[0] == 'm' && "meta"@[1] == 'e');
    assert("at"@.len() == 2 && "at"@[0] == 'a' && "at"@[1] == 't');
}

/// A keyword is named in messages by itself, between grave accents.
pub proof fn law_keywords_are_named_by_themselves(word: Seq<char>)
    requires
        keyword_of(word) is Some,
    ensures
        kind_name(keyword_of(word)->0) == "`"@ + word + "`"@,
{
    reveal_strlit("`");
    reveal_strlit("scene");
    reveal_strlit("part");
    reveal_strlit("anchor");
    reveal_strlit("bind");
    reveal_strlit("metric");
    reveal_strlit("unit");
    reveal_strlit("ttl");
    reveal_strlit("priority");
    reveal_strlit("pipe");
    reveal_strlit("tag");
    reveal_strlit("meta");
    reveal_strlit("at");
    reveal_strlit("`scene`");
    reveal_strlit("`part`");
    reveal_strlit("`anchor`");
    reveal_strlit("`bind`");
    reveal_strlit("`metric`");
    reveal_strlit("`unit`");
    reveal_strlit("`ttl`");
    reveal_strlit("`priority`");
    reveal_strlit("`pipe`");
    reveal_strlit("`tag`");
    reveal_strlit("`meta`");
    reveal_strlit("`at`");
    assert(kind_name(keyword_of(word)->0) =~= "`"@ + word + "`"@);
}

/// A mark is named in messages by itself, between grave accents, and an identifier with
/// its text.
pub proof fn law_marks_are_named_by_themselves(text: Seq<char>)
    ensures
        kind_name(TokKind::Arrow) == "`->`"@,
        kind_name(TokKind::LBrace) == "`{`"@,
        kind_name(TokKind::RBrace) == "`}`"@,
        kind_name(TokKind::LParen) == "`(`"@,
        kind_name(TokKind::RParen) == "`)`"@,
        kind_name(TokKind::Comma) == "`,`"@,
        kind_name(TokKind::Eq) == "`=`"@,
        kind_name(TokKind::Dot) == "`.`"@,
        kind_name(TokKind::Ident) == "identifier"@,
        kind_name(TokKind::Str) == "string literal"@,
        kind_name(TokKind::Num) == "number"@,
        kind_name(TokKind::Dur) == "duration"@,
        kind_name(TokKind::Eof) == "end of input"@,
        describe_of(TokView { kind: TokKind::Ident, text }) == "identifier `"@ + text + "`"@,
        forall|t: TokView| t.kind != TokKind::Ident ==> #[trigger] describe_of(t) == kind_name(
            t.kind,
        ),
{
}

// ---------------------------------------------------------------------------
// Marks.

/// A mark is read as its token and takes its own bytes up, one or, for the arrow, two.
pub proof fn law_marks_are_read(b: Seq<u8>, p: int)
    requires
        0 <= p < b.len(),
    ensures
        ({
            let read = lexed_at(b, p);
            let c = b[p];
            let two = p + 1 < b.len() && c == '-' as u8 && b[p + 1] == '>' as u8;
            &&& c == '{' as u8 ==> read.tok.kind == TokKind::LBrace && read.end == p + 1
            &&& c == '}' as u8 ==> read.tok.kind == TokKind::RBrace && read.end == p + 1
            &&& c == '(' as u8 ==> read.tok.kind == TokKind::LParen && read.end == p + 1
            &&& c == ')' as u8 ==> read.tok.kind == TokKind::RParen && read.end == p + 1
            &&& c == ',' as u8 ==> read.tok.kind == TokKind::Comma && read.end == p + 1
            &&& c == '=' as u8 ==> read.tok.kind == TokKind::Eq && read.end == p + 1
            &&& c == '.' as u8 && !(p + 1 < b.len() && is_decimal(b[p + 1])) ==> read.tok.kind
                == TokKind::Dot && read.end == p + 1
            &&& two ==> read.tok.kind == TokKind::Arrow && read.end == p + 2
            &&& two || c == '{' as u8 || c == '}' as u8 || c == '(' as u8 || c == ')' as u8 || c
                == ',' as u8 || c == '=' as u8 ==> read.diags.len() == 0 && token_starts(b, p)
        }),
{
}

/// A minus that starts neither an arrow nor a number is reported where it stands.
pub proof fn law_lone_minus_is_reported(b: Seq<u8>, p: int)
    requires
        0 <= p < b.len(),
        b[p] == '-' as u8,
        p + 1 < b.len() ==> b[p + 1] != '>' as u8 && b[p + 1] != '.' as u8 && !is_decimal(
            b[p + 1],
        ),
    ensures
        lexed_at(b, p).end == p + 1,
        lexed_at(b, p).diags == seq![
            DiagnosticView {
                severity: Severity::Error,
                message: "unexpected `-` (expected `->` or a number)"@,
                span: span_of(b, p, p + 1),
            },
        ],
{
}

// ---------------------------------------------------------------------------
// Numerals.

proof fn lemma_digits_end(b: Seq<u8>, p: int, q: int)
    requires
        0 <= p <= q <= b.len(),
        forall|i: int| p <= i < q ==> is_decimal(#[trigger] b[i]),
        q == b.len() || !is_decimal(b[q]),
    ensures
        digits_end(b, p) == q,
    decreases q - p,
{
    if p < q {
        assert(is_decimal(b[p]));
        lemma_digits_end(b, p + 1, q);
    }
}

/// A numeral runs from its sign, where it has one, over its digits to where they end.
/// A point and the digits behind it belong to it. With `ms` behind it, at the end of a
/// word, it is a duration, and otherwise a number; either carries the text of the
/// numeral, without the suffix.
pub proof fn law_numerals_are_read_whole(b: Seq<u8>, p: int, s: int, d: int, q: int)
    requires
        0 <= p <= s < d <= q <= b.len(),
        s == p || (s == p + 1 && b[p] == '-' as u8),
        forall|i: int| s <= i < d ==> is_decimal(#[trigger] b[i]),
        q == d ==> q == b.len() || (!is_decimal(b[q]) && b[q] != '.' as u8),
        q > d ==> b[d] == '.' as u8 && (q == b.len() || !is_decimal(b[q])),
        forall|i: int| d < i < q ==> is_decimal(#[trigger] b[i]),
    ensures
        ({
            let read = lexed_at(b, p);
            let millis = q + 1 < b.len() && b[q] == 'm' as u8 && b[q + 1] == 's' as u8 && !(q + 2
                < b.len() && is_word_byte(b[q + 2]));
            &&& token_starts(b, p)
            &&& read.diags.len() == 0
            &&& read.tok.text == byte_chars(b.subrange(p, q))
            &&& millis ==> read.tok.kind == TokKind::Dur && read.end == q + 2
            &&& !millis ==> read.tok.kind == TokKind::Num && read.end == q
        }),
{
    assert(is_decimal(b[s]));
    lemma_digits_end(b, s, d);
    if q > d {
        lemma_digits_end(b, d + 1, q);
    }
    assert(numeral_end(b, p) == q);
    let text = b.subrange(p, q);
    assert(text[s - p] == b[s]);
    assert(super::lexer::digit_byte(text[s - p]));
    assert(super::lexer::has_digit(text));
}

// ---------------------------------------------------------------------------
// Strings.

/// A byte that stands for itself in a string.
pub open spec fn stands_for_itself(c: u8) -> bool {
    c != '"' as u8 && c != '\\' as u8 && c != 10
}

proof fn lemma_literal_end(b: Seq<u8>, p: int, q: int)
    requires
        0 <= p <= q <= b.len(),
        forall|i: int| p <= i < q ==> stands_for_itself(#[trigger] b[i]),
        q == b.len() || !stands_for_itself(b[q]),
    ensures
        literal_end(b, p) == q,
    decreases q - p,
{
    if p < q {
        assert(stands_for_itself(b[p]));
        lemma_literal_end(b, p + 1, q);
    }
}

/// A text between quotes is read as itself where nothing in it is a quote, a backslash
/// or a line feed.
pub proof fn law_strings_are_read_back(b: Seq<u8>, p: int, text: Seq<char>)
    requires
        0 <= p,
        p + 1 + encode_utf8(text).len() < b.len(),
        b[p] == '"' as u8,
        b.subrange(p + 1, p + 1 + encode_utf8(text).len()) == encode_utf8(text),
        b[p + 1 + encode_utf8(text).len()] == '"' as u8,
        forall|i: int|
            0 <= i < encode_utf8(text).len() ==> stands_for_itself(#[trigger] encode_utf8(text)[i]),
    ensures
        lexed_at(b, p).tok == (TokView { kind: TokKind::Str, text }),
        lexed_at(b, p).end == p + 2 + encode_utf8(text).len(),
        lexed_at(b, p).diags.len() == 0,
{
    let q = p + 1 + encode_utf8(text).len();
    assert forall|i: int| p + 1 <= i < q implies stands_for_itself(#[trigger] b[i]) by {
        assert(b.subrange(p + 1, q)[i - p - 1] == b[i]);
        assert(stands_for_itself(encode_utf8(text)[i - p - 1]));
    }
    lemma_literal_end(b, p + 1, q);
    encode_utf8_decode_utf8(text);
}

/// In a string a backslash makes an `n` a line feed and a `t` a tab, and lets any other
/// ASCII character, a quote and a backslash among them, stand for itself.
pub proof fn law_escapes_are_read(b: Seq<u8>, p: int)
    requires
        0 <= p,
        p + 1 < b.len(),
        b[p] == '\\' as u8,
        b[p + 1] < 128,
    ensures
        string_body(b, p).end == string_body(b, p + 2).end,
        string_body(b, p).closed == string_body(b, p + 2).closed,
        b[p + 1] == 'n' as u8 ==> string_body(b, p).value == seq!['\n'] + string_body(
            b,
            p + 2,
        ).value,
        b[p + 1] == 't' as u8 ==> string_body(b, p).value == seq!['\t'] + string_body(
            b,
            p + 2,
        ).value,
        b[p + 1] != 'n' as u8 && b[p + 1] != 't' as u8 ==> string_body(b, p).value == seq![
            b[p + 1] as char,
        ] + string_body(b, p + 2).value,
{
    assert(literal_end(b, p) == p);
    assert(b.subrange(p, p) =~= Seq::<u8>::empty());
    assert(encode_utf8(Seq::<char>::empty()) =~= Seq::<u8>::empty());
    encode_utf8_decode_utf8(Seq::<char>::empty());
    let head = decode_utf8(b.subrange(p, p));
    assert(head =~= Seq::<char>::empty());
    let rest = string_body(b, p + 2);
    assert(head.push(escaped(b[p + 1])) + rest.value =~= seq![escaped(b[p + 1])] + rest.value);
}

/// A string that the line or the text ends before a quote closes it is reported over
/// all that was read of it.
pub proof fn law_open_strings_are_reported(b: Seq<u8>, p: int, q: int)
    requires
        0 <= p < q <= b.len(),
        b[p] == '"' as u8,
        forall|i: int| p < i < q ==> stands_for_itself(#[trigger] b[i]),
        q == b.len() || b[q] == 10,
    ensures
        lexed_string(b, p).end == q,
        lexed_string(b, p).tok.kind == TokKind::Str,
        lexed_string(b, p).diags == seq![
            DiagnosticView {
                severity: Severity::Error,
                message: "unterminated string literal"@,
                span: span_of(b, p, q),
            },
        ],
        lexed_at(b, p) == lexed_string(b, p),
{
    lemma_literal_end(b, p + 1, q);
}

// ---------------------------------------------------------------------------
// What is skipped.

/// Blanks, tabs and line ends are skipped, and a number sign with all up to the end of
/// its line. Nothing else is.
pub proof fn law_blanks_and_comments_are_skipped(b: Seq<u8>, p: int, q: int)
    requires
        0 <= p <= q < b.len(),
    ensures
        b[p] == ' ' as u8 || b[p] == 9 || b[p] == 10 || b[p] == 13 ==> trivia_end(b, p, false)
            == trivia_end(b, p + 1, false),
        b[p] == '#' as u8 && b[q] == 10 && (forall|i: int| p <= i < q ==> #[trigger] b[i] != 10)
            ==> trivia_end(b, p, false) == trivia_end(b, q + 1, false),
        b[p] == '#' as u8 && (forall|i: int| p <= i < b.len() ==> #[trigger] b[i] != 10)
            ==> trivia_end(b, p, false) == b.len(),
        b[p] != ' ' as u8 && b[p] != 9 && b[p] != 10 && b[p] != 13 && b[p] != '#' as u8
            ==> trivia_end(b, p, false) == p,
{
    if b[p] == '#' as u8 && b[q] == 10 && (forall|i: int| p <= i < q ==> #[trigger] b[i] != 10) {
        assert(p < q);
        lemma_comment_end(b, p + 1, q);
    }
    if b[p] == '#' as u8 && (forall|i: int| p <= i < b.len() ==> #[trigger] b[i] != 10) {
        lemma_comment_to_end(b, p + 1);
    }
}

proof fn lemma_comment_end(b: Seq<u8>, p: int, q: int)
    requires
        0 <= p <= q < b.len(),
        b[q] == 10,
        forall|i: int| p <= i < q ==> #[trigger] b[i] != 10,
    ensures
        trivia_end(b, p, true) == trivia_end(b, q + 1, false),
    decreases q - p,
{
    if p < q {
        assert(b[p] != 10);
        lemma_comment_end(b, p + 1, q);
    }
}

proof fn lemma_comment_to_end(b: Seq<u8>, p: int)
    requires
        0 <= p <= b.len(),
        forall|i: int| p <= i < b.len() ==> #[trigger] b[i] != 10,
    ensures
        trivia_end(b, p, true) == b.len(),
    decreases b.len() - p,
{
    if p < b.len() {
        assert(b[p] != 10);
        lemma_comment_to_end(b, p + 1);
    }
}

/// A byte that no token starts with is reported where it stands, and reading goes on
/// behind it.
pub proof fn law_strange_bytes_are_reported(b: Seq<u8>, p: int)
    requires
        0 <= p < b.len(),
        trivia_end(b, p, false) == p,
        !(starts_word(b[p]) || is_decimal(b[p]) || b[p] == '{' as u8 || b[p] == '}' as u8 || b[p]
            == '(' as u8 || b[p] == ')' as u8 || b[p] == ',' as u8 || b[p] == '=' as u8 || b[p]
            == '.' as u8 || b[p] == '"' as u8 || b[p] == '-' as u8),
    ensures
        next_of(b, p).start == next_of(b, p + 1).start,
        next_of(b, p).lexed.tok == next_of(b, p + 1).lexed.tok,
        next_of(b, p).lexed.end == next_of(b, p + 1).lexed.end,
        next_of(b, p).lexed.diags == seq![
            DiagnosticView {
                severity: Severity::Error,
                message: "unexpected character `"@ + seq![b[p] as char] + "`"@,
                span: span_of(b, p, p + 1),
            },
        ] + next_of(b, p + 1).lexed.diags,
{
}

/// The next token is the one that starts where blanks and comments end, and the end of
/// the input where nothing is left.
pub proof fn law_next_token_is_read(b: Seq<u8>, p: int)
    requires
        0 <= p <= b.len(),
    ensures
        ({
            let q = trivia_end(b, p, false);
            &&& q >= b.len() ==> next_of(b, p).lexed.tok.kind == TokKind::Eof && next_of(
                b,
                p,
            ).lexed.diags.len() == 0
            &&& q < b.len() && (starts_word(b[q]) || is_decimal(b[q]) || b[q] == '{' as u8 || b[q]
                == '}' as u8 || b[q] == '(' as u8 || b[q] == ')' as u8 || b[q] == ',' as u8 || b[q]
                == '=' as u8 || b[q] == '.' as u8 || b[q] == '"' as u8 || b[q] == '-' as u8)
                ==> next_of(b, p).start == q && next_of(b, p).lexed == lexed_at(b, q)
        }),
{
}

// ---------------------------------------------------------------------------
// Messages.

proof fn lemma_line_feed(s: Seq<char>, from: int, to: int)
    requires
        0 <= from <= to <= s.len(),
        forall|i: int| from <= i < to ==> #[trigger] s[i] != '\n',
        to == s.len() || s[to] == '\n',
    ensures
        line_feed(s, from) == to,
    decreases to - from,
{
    if from < to {
        assert(s[from] != '\n');
        lemma_line_feed(s, from + 1, to);
    }
}

proof fn lemma_line_start_skips(s: Seq<char>, from: int, to: int, n: nat)
    requires
        0 <= from <= to < s.len(),
        forall|i: int| from <= i < to ==> #[trigger] s[i] != '\n',
        s[to] == '\n',
        n > 0,
    ensures
        line_start(s, from, n) == line_start(s, to + 1, (n - 1) as nat),
    decreases to - from,
{
    if from < to {
        assert(s[from] != '\n');
        lemma_line_start_skips(s, from + 1, to, n);
    }
}

/// How many line feeds stand in the first `p` characters.
pub open spec fn line_feeds(s: Seq<char>, p: int) -> nat {
    s.take(p).filter(|c: char| c == '\n').len()
}

proof fn lemma_line_start(s: Seq<char>, p: int)
    requires
        0 <= p < s.len(),
        p == 0 || s[p - 1] == '\n',
    ensures
        line_start(s, 0, line_feeds(s, p)) == p,
    decreases p,
{
    lemma_line_start_from(s, 0, p);
    reveal(Seq::filter);
    assert(s.take(0).filter(|c: char| c == '\n').len() == 0);
}

proof fn lemma_feeds_grow(s: Seq<char>, p: int)
    requires
        0 <= p < s.len(),
    ensures
        line_feeds(s, p + 1) == line_feeds(s, p) + if s[p] == '\n' {
            1int
        } else {
            0
        },
{
    reveal(Seq::filter);
    assert(s.take(p + 1).drop_last() =~= s.take(p));
    assert(s.take(p + 1).last() == s[p]);
}

proof fn lemma_line_start_from(s: Seq<char>, from: int, p: int)
    requires
        0 <= from <= p < s.len(),
        p == 0 || s[p - 1] == '\n' || from == p,
    ensures
        line_feeds(s, p) >= line_feeds(s, from),
        from < p ==> line_feeds(s, p) > line_feeds(s, from),
        line_start(s, from, (line_feeds(s, p) - line_feeds(s, from)) as nat) == p,
    decreases p - from,
{
    if from < p {
        lemma_feeds_grow(s, from);
        lemma_line_start_from(s, from + 1, p);
    }
}

/// A line of the text, without its line feed and a carriage return in front of that, is
/// what a message quotes of the line that starts behind as many line feeds.
pub proof fn law_lines_are_quoted(s: Seq<char>, p: int, q: int)
    requires
        0 <= p < s.len(),
        p <= q <= s.len(),
        p == 0 || s[p - 1] == '\n',
        forall|i: int| p <= i < q ==> #[trigger] s[i] != '\n',
        q == s.len() || s[q] == '\n',
    ensures
        line_text(s, line_feeds(s, p)) == if q < s.len() && q > p && s[q - 1] == '\r' {
            s.subrange(p, q - 1)
        } else {
            s.subrange(p, q)
        },
{
    lemma_line_start(s, p);
    lemma_line_feed(s, p, q);
}

/// A span is underlined by a caret for each of its bytes, but by one at least and by no
/// more than the line is long.
pub proof fn law_carets_cover_the_span(len: nat, line: Seq<char>)
    ensures
        caret_count(len, line) >= 1,
        1 <= len <= encode_utf8(line).len() ==> caret_count(len, line) == len,
        len == 0 || encode_utf8(line).len() == 0 ==> caret_count(len, line) == 1,
        1 <= encode_utf8(line).len() < len ==> caret_count(len, line) == encode_utf8(line).len(),
{
}

/// A message is shown as its severity and text, the file, line and column it is about,
/// and the line with carets under the span, behind a gutter as wide as the line number.
pub proof fn law_messages_are_shown(d: DiagnosticView, source: Seq<char>, filename: Seq<char>)
    requires
        d.span.line >= 1,
        d.span.col >= 1,
    ensures
        ({
            let label = match d.severity {
                Severity::Error => "error"@,
                Severity::Warning => "warning"@,
            };
            let number = decimal_of(d.span.line as nat);
            let gutter = run_of(' ', number.len());
            let line = line_text(source, (d.span.line - 1) as nat);
            rendering(d, source, filename) == label + ": "@ + d.message + "\n"@ + gutter + "--> "@
                + filename + ":"@ + number + ":"@ + decimal_of(d.span.col as nat) + "\n"@ + gutter
                + " |\n"@ + number + " | "@ + line + "\n"@ + gutter + " | "@ + run_of(
                ' ',
                (d.span.col - 1) as nat,
            ) + run_of('^', caret_count(d.span.len as nat, line))
        }),
{
    let label = match d.severity {
        Severity::Error => "error"@,
        Severity::Warning => "warning"@,
    };
    let number = decimal_of(d.span.line as nat);
    let gutter = run_of(' ', number.len());
    let line = line_text(source, (d.span.line - 1) as nat);
    assert(d.severity.label_of() == label);
    assert(super::diag::before(d.span.line) == d.span.line - 1);
    assert(super::diag::before(d.span.col) == d.span.col - 1);
    assert(rendering(d, source, filename) =~= label + ": "@ + d.message + "\n"@ + gutter + "--> "@
        + filename + ":"@ + number + ":"@ + decimal_of(d.span.col as nat) + "\n"@ + gutter
        + " |\n"@ + number + " | "@ + line + "\n"@ + gutter + " | "@ + run_of(
        ' ',
        (d.span.col - 1) as nat,
    ) + run_of('^', caret_count(d.span.len as nat, line)));
}

/// Messages are shown one after the other, a blank line between any two.
pub proof fn law_all_messages_are_shown(
    diags: Seq<DiagnosticView>,
    d: DiagnosticView,
    source: Seq<char>,
    filename: Seq<char>,
)
    ensures
        rendering_all(seq![d], source, filename) == rendering(d, source, filename),
        diags.len() > 0 ==> rendering_all(diags.push(d), source, filename) == rendering_all(
            diags,
            source,
            filename,
        ) + "\n\n"@ + rendering(d, source, filename),
        rendering_all(Seq::empty(), source, filename).len() == 0,
{
    assert(diags.push(d).drop_last() =~= diags);
}

// ---------------------------------------------------------------------------
// Where tokens stand.

/// A token is what is read at a place, and stands from there to where it ends.
pub open spec fn read_at(b: Seq<u8>, start: int, t: TokenView) -> bool {
    &&& 0 <= start < b.len()
    &&& t.tok == lexed_at(b, start).tok
    &&& t.span == span_of(b, start, lexed_at(b, start).end)
}

proof fn lemma_next_is_read(b: Seq<u8>, p: int)
    requires
        0 <= p <= b.len(),
    ensures
        ({
            let n = next_of(b, p);
            n.lexed.tok.kind != TokKind::Eof ==> 0 <= n.start < b.len() && n.lexed.tok == lexed_at(
                b,
                n.start,
            ).tok && n.lexed.end == lexed_at(b, n.start).end
        }),
    decreases b.len() - p,
{
    let q = trivia_end(b, p, false);
    lemma_trivia_end(b, p, false);
    if q < b.len() && !token_starts(b, q) {
        lemma_next_is_read(b, q + 1);
    }
}

/// Every token but the end of the input is what is read where its span says that it
/// stands, and the span covers it.
pub proof fn law_tokens_stand_where_they_are_read(b: Seq<u8>, p: int, i: int)
    requires
        0 <= p <= b.len(),
        0 <= i < lex_from(b, p).tokens.len(),
        lex_from(b, p).tokens[i].tok.kind != TokKind::Eof,
    ensures
        exists|start: int| p <= start && #[trigger] read_at(b, start, lex_from(b, p).tokens[i]),
    decreases i,
{
    let n = next_of(b, p);
    lemma_next_is_read(b, p);
    lemma_next_of(b, p);
    let all = lex_from(b, p).tokens;
    if i == 0 {
        assert(read_at(b, n.start, all[0]));
    } else {
        let rest = lex_from(b, n.lexed.end).tokens;
        assert(all[i] == rest[i - 1]);
        law_tokens_stand_where_they_are_read(b, n.lexed.end, i - 1);
        let start = choose|start: int|
            n.lexed.end <= start && #[trigger] read_at(b, start, rest[i - 1]);
        assert(read_at(b, start, all[i]));
    }
}

} // verus!
