//! Recursive-descent parser for Flow3D.
//!
//! ```text
//! program   := "scene" STRING item*
//! item      := part | pipe
//! part      := "part" SELECTOR "{" part_item* "}"
//! part_item := tag | meta | anchor | bind
//! tag       := "tag" STRING
//! meta      := "meta" IDENT "=" (STRING | NUMBER)
//! anchor    := "anchor" IDENT "at" "(" NUM "," NUM "," NUM ")"
//! bind      := "bind" IDENT "metric" "(" STRING ")" bind_opt*
//! bind_opt  := "unit" STRING | "ttl" DURATION | "priority" IDENT
//! pipe      := "pipe" endpoint "->" endpoint
//! endpoint  := SELECTOR "." IDENT
//! ```
//!
//! The parser collects every diagnostic: behind an error it goes on at the next
//! item, so that one mistake does not hide the rest of the file.

use super::ast::{
    Anchor, AnchorView, Binding, BindingView, Endpoint, EndpointView, Meta, MetaValue,
    MetaValueView, MetaView, Part, PartView, Pipe, PipeView, Scene, SceneView, Tag, TagView,
};
use super::diag::{Diagnostic, DiagnosticView, Span};
use super::lexer::{ended_stream, describe_of, kind_name, Tok, TokKind, Token, TokenView};
use crate::model::{lemma_views_push, opt_view, views};
use crate::text::{cat, cat3};
use vstd::prelude::*;
use vstd::string::*;

verus! {

// ---------------------------------------------------------------------------
// The grammar, as functions from a state to a state and what was read.

/// Where the parser stands, and what it has reported.
pub struct State {
    pub pos: int,
    pub diags: Seq<DiagnosticView>,
}

pub open spec fn kind_at(t: Seq<TokenView>, s: State) -> TokKind {
    t[s.pos].tok.kind
}

pub open spec fn text_at(t: Seq<TokenView>, s: State) -> Seq<char> {
    t[s.pos].tok.text
}

pub open spec fn span_at(t: Seq<TokenView>, s: State) -> Span {
    t[s.pos].span
}

/// One token further; the end of input is never passed.
pub open spec fn advance(t: Seq<TokenView>, s: State) -> State {
    if kind_at(t, s) == TokKind::Eof {
        s
    } else {
        State { pos: s.pos + 1, ..s }
    }
}

pub open spec fn report(s: State, d: DiagnosticView) -> State {
    State { diags: s.diags.push(d), ..s }
}

/// Reports that something else was expected than the token at hand.
pub open spec fn mismatch(t: Seq<TokenView>, s: State, what: Seq<char>) -> State {
    report(
        s,
        DiagnosticView::error(
            "expected "@ + what + (", found "@ + describe_of(t[s.pos].tok)),
            span_at(t, s),
        ),
    )
}

/// Takes a token of the given kind, or reports that it is missing.
pub open spec fn take_kind(t: Seq<TokenView>, s: State, want: TokKind) -> (State, bool) {
    if kind_at(t, s) == want {
        (advance(t, s), true)
    } else {
        (mismatch(t, s, kind_name(want)), false)
    }
}

/// Takes a token of the given kind for its text, or reports that `what` is
/// missing.
pub open spec fn take_text(t: Seq<TokenView>, s: State, want: TokKind, what: Seq<char>) -> (
    State,
    Option<Seq<char>>,
) {
    if kind_at(t, s) == want {
        (advance(t, s), Some(text_at(t, s)))
    } else {
        (mismatch(t, s, what), None)
    }
}

pub open spec fn item_start(k: TokKind) -> bool {
    k == TokKind::Part || k == TokKind::Pipe
}

pub open spec fn part_item_start(k: TokKind) -> bool {
    k == TokKind::Tag || k == TokKind::Meta || k == TokKind::Anchor || k == TokKind::Bind
}

/// On to the next `part` or `pipe`, or to the end.
pub open spec fn skip_to_item(t: Seq<TokenView>, s: State) -> State
    decreases t.len() - s.pos,
{
    if !(0 <= s.pos < t.len()) || kind_at(t, s) == TokKind::Eof || item_start(kind_at(t, s)) {
        s
    } else {
        skip_to_item(t, advance(t, s))
    }
}

/// On to the next item of a part or its closing brace, to the next `part` or
/// `pipe`, or to the end.
pub open spec fn skip_in_part(t: Seq<TokenView>, s: State) -> State
    decreases t.len() - s.pos,
{
    if !(0 <= s.pos < t.len()) || kind_at(t, s) == TokKind::Eof || part_item_start(kind_at(t, s))
        || item_start(kind_at(t, s)) || kind_at(t, s) == TokKind::RBrace {
        s
    } else {
        skip_in_part(t, advance(t, s))
    }
}

pub open spec fn selector_wanted() -> Seq<char> {
    "a part selector (asset tag or prim path)"@
}

pub open spec fn tag_of(t: Seq<TokenView>, s: State) -> (State, Option<TagView>) {
    let s1 = advance(t, s);
    let (s2, text) = take_text(t, s1, TokKind::Str, "a tag string"@);
    match text {
        Some(value) => (s2, Some(TagView { value, span: span_at(t, s1) })),
        None => (s2, None),
    }
}

pub open spec fn meta_of(t: Seq<TokenView>, s: State) -> (State, Option<MetaView>) {
    let (s1, key) = take_text(t, advance(t, s), TokKind::Ident, "a metadata key"@);
    let (s2, eq) = take_kind(t, s1, TokKind::Eq);
    if key is None {
        (s1, None)
    } else if !eq {
        (s2, None)
    } else if kind_at(t, s2) == TokKind::Str {
        (
            advance(t, s2),
            Some(
                MetaView {
                    key: key->0,
                    value: MetaValueView::Text(text_at(t, s2)),
                    span: span_at(t, s),
                },
            ),
        )
    } else if kind_at(t, s2) == TokKind::Num {
        (
            advance(t, s2),
            Some(
                MetaView {
                    key: key->0,
                    value: MetaValueView::Number(text_at(t, s2)),
                    span: span_at(t, s),
                },
            ),
        )
    } else {
        (mismatch(t, s2, "a string or number value"@), None)
    }
}

/// The punctuation in front of a coordinate, and the coordinate.
pub open spec fn coordinate_of(t: Seq<TokenView>, s: State, before: TokKind) -> (
    State,
    Option<Seq<char>>,
) {
    let (s1, ok) = take_kind(t, s, before);
    if ok {
        take_text(t, s1, TokKind::Num, "a number"@)
    } else {
        (s1, None)
    }
}

pub open spec fn anchor_of(t: Seq<TokenView>, s: State) -> (State, Option<AnchorView>) {
    let (s1, name) = take_text(t, advance(t, s), TokKind::Ident, "an anchor name"@);
    let (s2, at) = take_kind(t, s1, TokKind::At);
    let (s3, x) = coordinate_of(t, s2, TokKind::LParen);
    let (s4, y) = coordinate_of(t, s3, TokKind::Comma);
    let (s5, z) = coordinate_of(t, s4, TokKind::Comma);
    let (s6, end) = take_kind(t, s5, TokKind::RParen);
    if name is None {
        (s1, None)
    } else if !at {
        (s2, None)
    } else if x is None {
        (s3, None)
    } else if y is None {
        (s4, None)
    } else if z is None {
        (s5, None)
    } else if !end {
        (s6, None)
    } else {
        (
            s6,
            Some(AnchorView { name: name->0, x: x->0, y: y->0, z: z->0, span: span_at(t, s) }),
        )
    }
}

/// `unit` and its string.
pub open spec fn unit_of(t: Seq<TokenView>, s: State, b: BindingView) -> (State, BindingView) {
    let (s1, text) = take_text(t, advance(t, s), TokKind::Str, "a unit string"@);
    match text {
        Some(unit) => (s1, BindingView { unit: Some(unit), ..b }),
        None => (s1, b),
    }
}

/// `ttl` and its duration; a bare number is taken as milliseconds, with a
/// warning.
pub open spec fn ttl_of(t: Seq<TokenView>, s: State, b: BindingView) -> (State, BindingView) {
    let s1 = advance(t, s);
    if kind_at(t, s1) == TokKind::Dur {
        (advance(t, s1), BindingView { ttl_ms: Some(text_at(t, s1)), ..b })
    } else if kind_at(t, s1) == TokKind::Num {
        (
            report(
                advance(t, s1),
                DiagnosticView::warning(
                    "ttl without a `ms` suffix; interpreting as milliseconds"@,
                    span_at(t, s1),
                ),
            ),
            BindingView { ttl_ms: Some(text_at(t, s1)), ..b },
        )
    } else {
        (mismatch(t, s1, "a duration (e.g. `5000ms`)"@), b)
    }
}

/// `priority` and its name; a name other than the two known ones is kept, with a
/// warning.
pub open spec fn priority_of(t: Seq<TokenView>, s: State, b: BindingView) -> (State, BindingView) {
    let s1 = advance(t, s);
    let (s2, text) = take_text(t, s1, TokKind::Ident, "a priority (`high` or `background`)"@);
    match text {
        None => (s2, b),
        Some(name) => {
            let b2 = BindingView { priority: Some(name), ..b };
            if name == "high"@ || name == "background"@ {
                (s2, b2)
            } else {
                (
                    report(
                        s2,
                        DiagnosticView::warning(
                            "unknown priority `"@ + name
                                + "` (expected `high` or `background`); treating as `background`"@,
                            span_at(t, s1),
                        ),
                    ),
                    b2,
                )
            }
        },
    }
}

/// The options of a binding, in any order; a later one replaces an earlier one.
pub open spec fn bind_options_of(t: Seq<TokenView>, s: State, b: BindingView) -> (
    State,
    BindingView,
)
    decreases t.len() - s.pos,
    when ended_stream(t) && 0 <= s.pos < t.len()
{
    if kind_at(t, s) == TokKind::Unit {
        let (s1, b1) = unit_of(t, s, b);
        bind_options_of(t, s1, b1)
    } else if kind_at(t, s) == TokKind::Ttl {
        let (s1, b1) = ttl_of(t, s, b);
        bind_options_of(t, s1, b1)
    } else if kind_at(t, s) == TokKind::Priority {
        let (s1, b1) = priority_of(t, s, b);
        bind_options_of(t, s1, b1)
    } else {
        (s, b)
    }
}

pub open spec fn bind_of(t: Seq<TokenView>, s: State) -> (State, Option<BindingView>) {
    let s0 = advance(t, s);
    let (s1, attribute) = take_text(t, s0, TokKind::Ident, "an attribute name"@);
    let (s2, metric) = take_kind(t, s1, TokKind::Metric);
    let (s3, open) = take_kind(t, s2, TokKind::LParen);
    let (s4, query) = take_text(t, s3, TokKind::Str, "a PromQL query string"@);
    let (s5, close) = take_kind(t, s4, TokKind::RParen);
    if attribute is None {
        (s1, None)
    } else if !metric {
        (s2, None)
    } else if !open {
        (s3, None)
    } else if query is None {
        (s4, None)
    } else if !close {
        (s5, None)
    } else {
        let (s6, b) = bind_options_of(
            t,
            s5,
            BindingView {
                attribute: attribute->0,
                query: query->0,
                unit: None,
                ttl_ms: None,
                priority: None,
                span: span_at(t, s0),
            },
        );
        (s6, Some(b))
    }
}

/// One item of a part, which stands at `s`: the part with it, or on to the next
/// item where it could not be read.
pub open spec fn part_item_of(t: Seq<TokenView>, s: State, part: PartView) -> (State, PartView) {
    let k = kind_at(t, s);
    if k == TokKind::Tag {
        let (s1, x) = tag_of(t, s);
        match x {
            Some(x) => (s1, PartView { tags: part.tags.push(x), ..part }),
            None => (skip_in_part(t, s1), part),
        }
    } else if k == TokKind::Meta {
        let (s1, x) = meta_of(t, s);
        match x {
            Some(x) => (s1, PartView { metas: part.metas.push(x), ..part }),
            None => (skip_in_part(t, s1), part),
        }
    } else if k == TokKind::Anchor {
        let (s1, x) = anchor_of(t, s);
        match x {
            Some(x) => (s1, PartView { anchors: part.anchors.push(x), ..part }),
            None => (skip_in_part(t, s1), part),
        }
    } else if k == TokKind::Bind {
        let (s1, x) = bind_of(t, s);
        match x {
            Some(x) => (s1, PartView { bindings: part.bindings.push(x), ..part }),
            None => (skip_in_part(t, s1), part),
        }
    } else {
        (
            skip_in_part(t, mismatch(t, s, "`tag`, `meta`, `anchor`, `bind`, or `}`"@)),
            part,
        )
    }
}

/// The items of a part up to its closing brace. A part that is never closed ends
/// at the next `part` or `pipe`, or at the end of input.
pub open spec fn part_items_of(t: Seq<TokenView>, s: State, part: PartView) -> (State, PartView)
    decreases t.len() - s.pos,
    when ended_stream(t) && 0 <= s.pos < t.len()
    via part_items_of_advances
{
    let k = kind_at(t, s);
    if k == TokKind::RBrace {
        (advance(t, s), part)
    } else if k == TokKind::Eof {
        (
            report(
                s,
                DiagnosticView::error(
                    "unexpected end of input: missing `}` to close `part`"@,
                    span_at(t, s),
                ),
            ),
            part,
        )
    } else if item_start(k) {
        (
            report(
                s,
                DiagnosticView::error(
                    "missing `}` to close `part` before the next item"@,
                    span_at(t, s),
                ),
            ),
            part,
        )
    } else {
        let (s1, part1) = part_item_of(t, s, part);
        part_items_of(t, s1, part1)
    }
}

pub open spec fn part_of(t: Seq<TokenView>, s: State) -> (State, Option<PartView>) {
    let s0 = advance(t, s);
    let (s1, selector) = take_text(t, s0, TokKind::Ident, selector_wanted());
    let (s2, open) = take_kind(t, s1, TokKind::LBrace);
    if selector is None {
        (s1, None)
    } else if !open {
        (skip_to_item(t, s2), None)
    } else {
        let (s3, part) = part_items_of(
            t,
            s2,
            PartView {
                selector: selector->0,
                selector_span: span_at(t, s0),
                tags: Seq::empty(),
                metas: Seq::empty(),
                anchors: Seq::empty(),
                bindings: Seq::empty(),
            },
        );
        (s3, Some(part))
    }
}

pub open spec fn endpoint_of(t: Seq<TokenView>, s: State) -> (State, Option<EndpointView>) {
    let (s1, part) = take_text(t, s, TokKind::Ident, selector_wanted());
    let (s2, dot) = take_kind(t, s1, TokKind::Dot);
    let (s3, anchor) = take_text(t, s2, TokKind::Ident, "an anchor name after `.`"@);
    if part is None {
        (s1, None)
    } else if !dot {
        (s2, None)
    } else if anchor is None {
        (s3, None)
    } else {
        (s3, Some(EndpointView { part: part->0, anchor: anchor->0, span: span_at(t, s) }))
    }
}

pub open spec fn pipe_of(t: Seq<TokenView>, s: State) -> (State, Option<PipeView>) {
    let (s1, from) = endpoint_of(t, advance(t, s));
    let (s2, arrow) = take_kind(t, s1, TokKind::Arrow);
    let (s3, to) = endpoint_of(t, s2);
    if from is None {
        (s1, None)
    } else if !arrow {
        (skip_to_item(t, s2), None)
    } else if to is None {
        (s3, None)
    } else {
        (s3, Some(PipeView { from: from->0, to: to->0, span: span_at(t, s) }))
    }
}

/// One item of a scene, which stands at `s`; whatever starts no item is reported
/// and skipped.
pub open spec fn item_of(t: Seq<TokenView>, s: State, scene: SceneView) -> (State, SceneView) {
    if kind_at(t, s) == TokKind::Part {
        let (s1, x) = part_of(t, s);
        match x {
            Some(x) => (s1, SceneView { parts: scene.parts.push(x), ..scene }),
            None => (s1, scene),
        }
    } else if kind_at(t, s) == TokKind::Pipe {
        let (s1, x) = pipe_of(t, s);
        match x {
            Some(x) => (s1, SceneView { pipes: scene.pipes.push(x), ..scene }),
            None => (s1, scene),
        }
    } else {
        (skip_to_item(t, mismatch(t, s, "`part` or `pipe`"@)), scene)
    }
}

/// The items of a scene up to the end of input.
pub open spec fn items_of(t: Seq<TokenView>, s: State, scene: SceneView) -> (State, SceneView)
    decreases t.len() - s.pos,
    when ended_stream(t) && 0 <= s.pos < t.len()
    via items_of_advances
{
    if kind_at(t, s) == TokKind::Eof {
        (s, scene)
    } else {
        let (s1, scene1) = item_of(t, s, scene);
        items_of(t, s1, scene1)
    }
}

/// A whole file. Without a `scene` in front nothing is read.
pub open spec fn program_of(t: Seq<TokenView>, s: State) -> (State, Option<SceneView>) {
    if kind_at(t, s) != TokKind::Scene {
        (mismatch(t, s, "`scene` at the start of the file"@), None)
    } else {
        let s0 = advance(t, s);
        let (s1, text) = take_text(t, s0, TokKind::Str, "a scene name string"@);
        let name = match text {
            Some(name) => name,
            None => Seq::empty(),
        };
        let (s2, scene) = items_of(
            t,
            s1,
            SceneView {
                name,
                name_span: span_at(t, s0),
                parts: Seq::empty(),
                pipes: Seq::empty(),
            },
        );
        (s2, Some(scene))
    }
}

/// What parsing gives for tokens and the messages of the lexer.
pub open spec fn parse_of(t: Seq<TokenView>, diags: Seq<DiagnosticView>) -> (
    Option<SceneView>,
    Seq<DiagnosticView>,
) {
    let (s, scene) = program_of(t, State { pos: 0, diags });
    (scene, s.diags)
}

// ---------------------------------------------------------------------------
// Reading always moves on.

/// From `s` to `s1` the parser has not gone back, nor past the end of input, and
/// has kept what it had reported.
pub open spec fn goes_on(t: Seq<TokenView>, s: State, s1: State) -> bool {
    &&& s.pos <= s1.pos < t.len()
    &&& s.diags.is_prefix_of(s1.diags)
    &&& forall|i: int| s.pos <= i < s1.pos ==> (#[trigger] t[i]).tok.kind != TokKind::Eof
}

proof fn lemma_skip_to_item(t: Seq<TokenView>, s: State)
    requires
        ended_stream(t),
        0 <= s.pos < t.len(),
    ensures
        goes_on(t, s, skip_to_item(t, s)),
        kind_at(t, s) != TokKind::Eof && !item_start(kind_at(t, s)) ==> s.pos < skip_to_item(
            t,
            s,
        ).pos,
    decreases t.len() - s.pos,
{
    if !(kind_at(t, s) == TokKind::Eof || item_start(kind_at(t, s))) {
        lemma_skip_to_item(t, advance(t, s));
    }
}

proof fn lemma_skip_in_part(t: Seq<TokenView>, s: State)
    requires
        ended_stream(t),
        0 <= s.pos < t.len(),
    ensures
        goes_on(t, s, skip_in_part(t, s)),
        kind_at(t, s) != TokKind::Eof && !part_item_start(kind_at(t, s)) && !item_start(
            kind_at(t, s),
        ) && kind_at(t, s) != TokKind::RBrace ==> s.pos < skip_in_part(t, s).pos,
    decreases t.len() - s.pos,
{
    if !(kind_at(t, s) == TokKind::Eof || part_item_start(kind_at(t, s)) || item_start(
        kind_at(t, s),
    ) || kind_at(t, s) == TokKind::RBrace) {
        lemma_skip_in_part(t, advance(t, s));
    }
}

proof fn lemma_bind_options(t: Seq<TokenView>, s: State, b: BindingView)
    requires
        ended_stream(t),
        0 <= s.pos < t.len(),
    ensures
        goes_on(t, s, bind_options_of(t, s, b).0),
    decreases t.len() - s.pos,
{
    let k = kind_at(t, s);
    if k == TokKind::Unit {
        let (s1, b1) = unit_of(t, s, b);
        lemma_bind_options(t, s1, b1);
    } else if k == TokKind::Ttl {
        let (s1, b1) = ttl_of(t, s, b);
        lemma_bind_options(t, s1, b1);
    } else if k == TokKind::Priority {
        let (s1, b1) = priority_of(t, s, b);
        lemma_bind_options(t, s1, b1);
    }
}

proof fn lemma_bind(t: Seq<TokenView>, s: State)
    requires
        ended_stream(t),
        0 <= s.pos < t.len(),
        kind_at(t, s) == TokKind::Bind,
    ensures
        goes_on(t, s, bind_of(t, s).0),
        s.pos < bind_of(t, s).0.pos,
{
    let s0 = advance(t, s);
    let (s1, attribute) = take_text(t, s0, TokKind::Ident, "an attribute name"@);
    let (s2, metric) = take_kind(t, s1, TokKind::Metric);
    let (s3, open) = take_kind(t, s2, TokKind::LParen);
    let (s4, query) = take_text(t, s3, TokKind::Str, "a PromQL query string"@);
    let (s5, close) = take_kind(t, s4, TokKind::RParen);
    assert(goes_on(t, s, s5));
    if close && query is Some && open && metric && attribute is Some {
        lemma_bind_options(
            t,
            s5,
            BindingView {
                attribute: attribute->0,
                query: query->0,
                unit: None,
                ttl_ms: None,
                priority: None,
                span: span_at(t, s0),
            },
        );
    }
}

proof fn lemma_part_item(t: Seq<TokenView>, s: State, part: PartView)
    requires
        ended_stream(t),
        0 <= s.pos < t.len(),
        kind_at(t, s) != TokKind::RBrace,
        kind_at(t, s) != TokKind::Eof,
        !item_start(kind_at(t, s)),
    ensures
        goes_on(t, s, part_item_of(t, s, part).0),
        s.pos < part_item_of(t, s, part).0.pos,
{
    let k = kind_at(t, s);
    if k == TokKind::Tag {
        lemma_skip_in_part(t, tag_of(t, s).0);
    } else if k == TokKind::Meta {
        lemma_skip_in_part(t, meta_of(t, s).0);
    } else if k == TokKind::Anchor {
        lemma_skip_in_part(t, anchor_of(t, s).0);
    } else if k == TokKind::Bind {
        lemma_bind(t, s);
        lemma_skip_in_part(t, bind_of(t, s).0);
    } else {
        lemma_skip_in_part(t, mismatch(t, s, "`tag`, `meta`, `anchor`, `bind`, or `}`"@));
    }
}

#[via_fn]
proof fn part_items_of_advances(t: Seq<TokenView>, s: State, part: PartView) {
    if ended_stream(t) && 0 <= s.pos < t.len() && kind_at(t, s) != TokKind::RBrace && kind_at(t, s)
        != TokKind::Eof && !item_start(kind_at(t, s)) {
        lemma_part_item(t, s, part);
    }
}

proof fn lemma_part_items(t: Seq<TokenView>, s: State, part: PartView)
    requires
        ended_stream(t),
        0 <= s.pos < t.len(),
    ensures
        goes_on(t, s, part_items_of(t, s, part).0),
    decreases t.len() - s.pos,
{
    let k = kind_at(t, s);
    if !(k == TokKind::RBrace || k == TokKind::Eof || item_start(k)) {
        lemma_part_item(t, s, part);
        let (s1, part1) = part_item_of(t, s, part);
        lemma_part_items(t, s1, part1);
    }
}

proof fn lemma_item(t: Seq<TokenView>, s: State, scene: SceneView)
    requires
        ended_stream(t),
        0 <= s.pos < t.len(),
        kind_at(t, s) != TokKind::Eof,
    ensures
        goes_on(t, s, item_of(t, s, scene).0),
        s.pos < item_of(t, s, scene).0.pos,
{
    if kind_at(t, s) == TokKind::Part {
        let s0 = advance(t, s);
        let (s1, selector) = take_text(t, s0, TokKind::Ident, selector_wanted());
        let (s2, open) = take_kind(t, s1, TokKind::LBrace);
        if open {
            lemma_part_items(
                t,
                s2,
                PartView {
                    selector: selector->0,
                    selector_span: span_at(t, s0),
                    tags: Seq::empty(),
                    metas: Seq::empty(),
                    anchors: Seq::empty(),
                    bindings: Seq::empty(),
                },
            );
        }
        lemma_skip_to_item(t, s2);
    } else if kind_at(t, s) == TokKind::Pipe {
        let (s1, from) = endpoint_of(t, advance(t, s));
        assert(goes_on(t, s, s1));
        let (s2, arrow) = take_kind(t, s1, TokKind::Arrow);
        lemma_skip_to_item(t, s2);
        assert(goes_on(t, s2, endpoint_of(t, s2).0));
    } else {
        lemma_skip_to_item(t, mismatch(t, s, "`part` or `pipe`"@));
    }
}

#[via_fn]
proof fn items_of_advances(t: Seq<TokenView>, s: State, scene: SceneView) {
    if ended_stream(t) && 0 <= s.pos < t.len() && kind_at(t, s) != TokKind::Eof {
        lemma_item(t, s, scene);
    }
}

proof fn lemma_items(t: Seq<TokenView>, s: State, scene: SceneView)
    requires
        ended_stream(t),
        0 <= s.pos < t.len(),
    ensures
        goes_on(t, s, items_of(t, s, scene).0),
        kind_at(t, items_of(t, s, scene).0) == TokKind::Eof,
    decreases t.len() - s.pos,
{
    if kind_at(t, s) != TokKind::Eof {
        lemma_item(t, s, scene);
        let (s1, scene1) = item_of(t, s, scene);
        lemma_items(t, s1, scene1);
    }
}

/// No message is lost: what the lexer reported stands in front of what the
/// parser reports.
pub proof fn law_parse_keeps_messages(t: Seq<TokenView>, diags: Seq<DiagnosticView>)
    requires
        ended_stream(t),
    ensures
        diags.is_prefix_of(parse_of(t, diags).1),
{
    let s = State { pos: 0, diags };
    if kind_at(t, s) == TokKind::Scene {
        let s0 = advance(t, s);
        let (s1, text) = take_text(t, s0, TokKind::Str, "a scene name string"@);
        let name = match text {
            Some(name) => name,
            None => Seq::empty(),
        };
        lemma_items(
            t,
            s1,
            SceneView {
                name,
                name_span: span_at(t, s0),
                parts: Seq::empty(),
                pipes: Seq::empty(),
            },
        );
    }
}

/// A file that starts with `scene` is read to its end, which is the first end of
/// input in the stream: one mistake does not hide the rest.
pub proof fn law_scene_is_read_to_the_end(t: Seq<TokenView>, diags: Seq<DiagnosticView>)
    requires
        ended_stream(t),
        t[0].tok.kind == TokKind::Scene,
    ensures
        parse_of(t, diags).0 is Some,
        ({
            let end = program_of(t, State { pos: 0, diags }).0.pos;
            &&& 0 <= end < t.len()
            &&& t[end].tok.kind == TokKind::Eof
            &&& forall|i: int| 0 <= i < end ==> (#[trigger] t[i]).tok.kind != TokKind::Eof
        }),
{
    let s = State { pos: 0, diags };
    let s0 = advance(t, s);
    let (s1, text) = take_text(t, s0, TokKind::Str, "a scene name string"@);
    let name = match text {
        Some(name) => name,
        None => Seq::empty(),
    };
    lemma_items(
        t,
        s1,
        SceneView { name, name_span: span_at(t, s0), parts: Seq::empty(), pipes: Seq::empty() },
    );
}

// ---------------------------------------------------------------------------
// The parser.

/// The tokens of a file, the position reached and the messages so far.
pub struct Parser {
    toks: Vec<Token>,
    pos: usize,
    diags: Vec<Diagnostic>,
}

impl Parser {
    pub closed spec fn tokens(&self) -> Seq<TokenView> {
        views(self.toks@)
    }

    pub closed spec fn state(&self) -> State {
        State { pos: self.pos as int, diags: views(self.diags@) }
    }

    /// The stream ends in the end of input, and the position is within it.
    pub closed spec fn wf(&self) -> bool {
        ended_stream(views(self.toks@)) && self.pos < self.toks@.len()
    }

    fn new(toks: Vec<Token>, diags: Vec<Diagnostic>) -> (p: Self)
        requires
            ended_stream(views(toks@)),
        ensures
            p.wf(),
            p.tokens() == views(toks@),
            p.state() == (State { pos: 0, diags: views(diags@) }),
    {
        Parser { toks, pos: 0, diags }
    }

    fn into_diags(self) -> (d: Vec<Diagnostic>)
        ensures
            views(d@) == self.state().diags,
    {
        self.diags
    }

    fn peek(&self) -> (t: &Tok)
        requires
            self.wf(),
        ensures
            t@ == self.tokens()[self.state().pos].tok,
    {
        &self.toks[self.pos].tok
    }

    fn peek_kind(&self) -> (k: TokKind)
        requires
            self.wf(),
        ensures
            k == kind_at(self.tokens(), self.state()),
    {
        self.toks[self.pos].tok.kind()
    }

    fn peek_span(&self) -> (s: Span)
        requires
            self.wf(),
        ensures
            s == span_at(self.tokens(), self.state()),
    {
        self.toks[self.pos].span
    }

    fn at_eof(&self) -> (b: bool)
        requires
            self.wf(),
        ensures
            b == (kind_at(self.tokens(), self.state()) == TokKind::Eof),
    {
        self.peek_kind() == TokKind::Eof
    }

    fn bump(&mut self)
        requires
            old(self).wf(),
        ensures
            final(self).wf(),
            final(self).tokens() == old(self).tokens(),
            final(self).state() == advance(old(self).tokens(), old(self).state()),
    {
        if !self.at_eof() {
            proof {
                assert(self.pos + 1 < self.toks.len());
            }
            self.pos = self.pos + 1;
        }
    }

    fn push_diag(&mut self, d: Diagnostic)
        requires
            old(self).wf(),
        ensures
            final(self).wf(),
            final(self).tokens() == old(self).tokens(),
            final(self).state() == report(old(self).state(), d@),
    {
        broadcast use lemma_views_push;

        self.diags.push(d);
    }

    fn error(&mut self, message: &str, span: Span)
        requires
            old(self).wf(),
        ensures
            final(self).wf(),
            final(self).tokens() == old(self).tokens(),
            final(self).state() == report(
                old(self).state(),
                DiagnosticView::error(message@, span),
            ),
    {
        self.push_diag(Diagnostic::error(message.to_owned(), span));
    }

    /// Reports that something else was expected here.
    fn mismatch(&mut self, what: &str)
        requires
            old(self).wf(),
        ensures
            final(self).wf(),
            final(self).tokens() == old(self).tokens(),
            final(self).state() == mismatch(old(self).tokens(), old(self).state(), what@),
    {
        let found = cat(", found ", self.peek().describe().as_str());
        let message = cat3("expected ", what, found.as_str());
        let span = self.peek_span();
        self.error(message.as_str(), span);
    }

    /// Takes the expected token, or reports that it is missing and returns
    /// `false`.
    fn expect(&mut self, want: TokKind) -> (ok: bool)
        requires
            old(self).wf(),
        ensures
            final(self).wf(),
            final(self).tokens() == old(self).tokens(),
            (final(self).state(), ok) == take_kind(old(self).tokens(), old(self).state(), want),
    {
        if self.peek_kind() == want {
            self.bump();
            true
        } else {
            self.mismatch(want.name());
            false
        }
    }

    /// Takes a string literal, or reports that `what` is missing.
    fn expect_str(&mut self, what: &str) -> (r: Option<String>)
        requires
            old(self).wf(),
        ensures
            final(self).wf(),
            final(self).tokens() == old(self).tokens(),
            (final(self).state(), opt_view(r)) == take_text(
                old(self).tokens(),
                old(self).state(),
                TokKind::Str,
                what@,
            ),
    {
        let text = match self.peek() {
            Tok::Str(s) => Some(s.clone()),
            _ => None,
        };
        if text.is_some() {
            self.bump();
        } else {
            self.mismatch(what);
        }
        text
    }

    /// Takes an identifier, or reports that `what` is missing.
    fn expect_ident(&mut self, what: &str) -> (r: Option<String>)
        requires
            old(self).wf(),
        ensures
            final(self).wf(),
            final(self).tokens() == old(self).tokens(),
            (final(self).state(), opt_view(r)) == take_text(
                old(self).tokens(),
                old(self).state(),
                TokKind::Ident,
                what@,
            ),
    {
        let text = match self.peek() {
            Tok::Ident(s) => Some(s.clone()),
            _ => None,
        };
        if text.is_some() {
            self.bump();
        } else {
            self.mismatch(what);
        }
        text
    }

    fn parse_number(&mut self) -> (r: Option<String>)
        requires
            old(self).wf(),
        ensures
            final(self).wf(),
            final(self).tokens() == old(self).tokens(),
            (final(self).state(), opt_view(r)) == take_text(
                old(self).tokens(),
                old(self).state(),
                TokKind::Num,
                "a number"@,
            ),
    {
        let text = match self.peek() {
            Tok::Num(s) => Some(s.clone()),
            _ => None,
        };
        if text.is_some() {
            self.bump();
        } else {
            self.mismatch("a number");
        }
        text
    }

    /// Skips to the next item of the scene.
    fn recover_to_top_level(&mut self)
        requires
            old(self).wf(),
        ensures
            final(self).wf(),
            final(self).tokens() == old(self).tokens(),
            final(self).state() == skip_to_item(old(self).tokens(), old(self).state()),
    {
        while !(self.at_eof() || self.peek_kind() == TokKind::Part || self.peek_kind()
            == TokKind::Pipe)
            invariant
                self.wf(),
                self.tokens() == old(self).tokens(),
                0 <= self.state().pos < self.tokens().len(),
                skip_to_item(self.tokens(), self.state()) == skip_to_item(
                    old(self).tokens(),
                    old(self).state(),
                ),
            decreases self.tokens().len() - self.state().pos,
        {
            self.bump();
        }
    }

    /// Skips to the next item of the part, to its closing brace, or to the next
    /// item of the scene.
    fn recover_in_part(&mut self)
        requires
            old(self).wf(),
        ensures
            final(self).wf(),
            final(self).tokens() == old(self).tokens(),
            final(self).state() == skip_in_part(old(self).tokens(), old(self).state()),
    {
        while !(self.at_eof() || self.peek_kind() == TokKind::Tag || self.peek_kind()
            == TokKind::Meta || self.peek_kind() == TokKind::Anchor || self.peek_kind()
            == TokKind::Bind || self.peek_kind() == TokKind::RBrace || self.peek_kind()
            == TokKind::Part || self.peek_kind() == TokKind::Pipe)
            invariant
                self.wf(),
                self.tokens() == old(self).tokens(),
                0 <= self.state().pos < self.tokens().len(),
                skip_in_part(self.tokens(), self.state()) == skip_in_part(
                    old(self).tokens(),
                    old(self).state(),
                ),
            decreases self.tokens().len() - self.state().pos,
        {
            self.bump();
        }
    }

    fn parse_selector(&mut self) -> (r: Option<String>)
        requires
            old(self).wf(),
        ensures
            final(self).wf(),
            final(self).tokens() == old(self).tokens(),
            (final(self).state(), opt_view(r)) == take_text(
                old(self).tokens(),
                old(self).state(),
                TokKind::Ident,
                selector_wanted(),
            ),
    {
        self.expect_ident("a part selector (asset tag or prim path)")
    }

    fn parse_tag(&mut self) -> (r: Option<Tag>)
        requires
            old(self).wf(),
        ensures
            final(self).wf(),
            final(self).tokens() == old(self).tokens(),
            (final(self).state(), opt_view(r)) == tag_of(old(self).tokens(), old(self).state()),
    {
        self.bump();
        let span = self.peek_span();
        match self.expect_str("a tag string") {
            Some(value) => Some(Tag { value, span }),
            None => None,
        }
    }

    fn parse_meta(&mut self) -> (r: Option<Meta>)
        requires
            old(self).wf(),
        ensures
            final(self).wf(),
            final(self).tokens() == old(self).tokens(),
            (final(self).state(), opt_view(r)) == meta_of(old(self).tokens(), old(self).state()),
    {
        let span = self.peek_span();
        self.bump();
        let key = match self.expect_ident("a metadata key") {
            Some(key) => key,
            None => return None,
        };
        if !self.expect(TokKind::Eq) {
            return None;
        }
        let value = match self.peek() {
            Tok::Str(s) => Some(MetaValue::Text(s.clone())),
            Tok::Num(s) => Some(MetaValue::Number(s.clone())),
            _ => None,
        };
        match value {
            Some(value) => {
                self.bump();
                Some(Meta { key, value, span })
            },
            None => {
                self.mismatch("a string or number value");
                None
            },
        }
    }

    fn parse_coordinate(&mut self, before: TokKind) -> (r: Option<String>)
        requires
            old(self).wf(),
        ensures
            final(self).wf(),
            final(self).tokens() == old(self).tokens(),
            (final(self).state(), opt_view(r)) == coordinate_of(
                old(self).tokens(),
                old(self).state(),
                before,
            ),
    {
        if self.expect(before) {
            self.parse_number()
        } else {
            None
        }
    }

    fn parse_anchor(&mut self) -> (r: Option<Anchor>)
        requires
            old(self).wf(),
        ensures
            final(self).wf(),
            final(self).tokens() == old(self).tokens(),
            (final(self).state(), opt_view(r)) == anchor_of(old(self).tokens(), old(self).state()),
    {
        let span = self.peek_span();
        self.bump();
        let name = match self.expect_ident("an anchor name") {
            Some(name) => name,
            None => return None,
        };
        if !self.expect(TokKind::At) {
            return None;
        }
        let x = match self.parse_coordinate(TokKind::LParen) {
            Some(x) => x,
            None => return None,
        };
        let y = match self.parse_coordinate(TokKind::Comma) {
            Some(y) => y,
            None => return None,
        };
        let z = match self.parse_coordinate(TokKind::Comma) {
            Some(z) => z,
            None => return None,
        };
        if !self.expect(TokKind::RParen) {
            return None;
        }
        Some(Anchor { name, x, y, z, span })
    }

    fn parse_unit(&mut self, binding: &mut Binding)
        requires
            old(self).wf(),
        ensures
            final(self).wf(),
            final(self).tokens() == old(self).tokens(),
            (final(self).state(), final(binding)@) == unit_of(
                old(self).tokens(),
                old(self).state(),
                old(binding)@,
            ),
    {
        self.bump();
        if let Some(unit) = self.expect_str("a unit string") {
            binding.unit = Some(unit);
        }
    }

    fn parse_ttl(&mut self, binding: &mut Binding)
        requires
            old(self).wf(),
        ensures
            final(self).wf(),
            final(self).tokens() == old(self).tokens(),
            (final(self).state(), final(binding)@) == ttl_of(
                old(self).tokens(),
                old(self).state(),
                old(binding)@,
            ),
    {
        self.bump();
        let span = self.peek_span();
        let (ms, bare) = match self.peek() {
            Tok::Dur(s) => (Some(s.clone()), false),
            Tok::Num(s) => (Some(s.clone()), true),
            _ => (None, false),
        };
        match ms {
            Some(ms) => {
                self.bump();
                binding.ttl_ms = Some(ms);
                if bare {
                    self.push_diag(
                        Diagnostic::warning(
                            "ttl without a `ms` suffix; interpreting as milliseconds".to_owned(),
                            span,
                        ),
                    );
                }
            },
            None => {
                self.mismatch("a duration (e.g. `5000ms`)");
            },
        }
    }

    fn parse_priority(&mut self, binding: &mut Binding)
        requires
            old(self).wf(),
        ensures
            final(self).wf(),
            final(self).tokens() == old(self).tokens(),
            (final(self).state(), final(binding)@) == priority_of(
                old(self).tokens(),
                old(self).state(),
                old(binding)@,
            ),
    {
        self.bump();
        let span = self.peek_span();
        if let Some(name) = self.expect_ident("a priority (`high` or `background`)") {
            let known = name == "high".to_owned() || name == "background".to_owned();
            if !known {
                self.push_diag(
                    Diagnostic::warning(
                        cat3(
                            "unknown priority `",
                            name.as_str(),
                            "` (expected `high` or `background`); treating as `background`",
                        ),
                        span,
                    ),
                );
            }
            binding.priority = Some(name);
        }
    }

    fn parse_bind(&mut self) -> (r: Option<Binding>)
        requires
            old(self).wf(),
        ensures
            final(self).wf(),
            final(self).tokens() == old(self).tokens(),
            (final(self).state(), opt_view(r)) == bind_of(old(self).tokens(), old(self).state()),
    {
        self.bump();
        let span = self.peek_span();
        let attribute = match self.expect_ident("an attribute name") {
            Some(attribute) => attribute,
            None => return None,
        };
        if !self.expect(TokKind::Metric) {
            return None;
        }
        if !self.expect(TokKind::LParen) {
            return None;
        }
        let query = match self.expect_str("a PromQL query string") {
            Some(query) => query,
            None => return None,
        };
        if !self.expect(TokKind::RParen) {
            return None;
        }
        let mut binding = Binding {
            attribute,
            query,
            unit: None,
            ttl_ms: None,
            priority: None,
            span,
        };
        let ghost t = self.tokens();
        let ghost s5 = self.state();
        let ghost b5 = binding@;
        let mut more = true;
        while more
            invariant
                self.wf(),
                self.tokens() == t,
                t == old(self).tokens(),
                ended_stream(t),
                0 <= self.state().pos < t.len(),
                more ==> bind_options_of(t, s5, b5) == bind_options_of(t, self.state(), binding@),
                !more ==> bind_options_of(t, s5, b5) == (self.state(), binding@),
            decreases t.len() - self.state().pos, if more { 1int } else { 0 },
        {
            match self.peek_kind() {
                TokKind::Unit => self.parse_unit(&mut binding),
                TokKind::Ttl => self.parse_ttl(&mut binding),
                TokKind::Priority => self.parse_priority(&mut binding),
                _ => {
                    more = false;
                },
            }
        }
        Some(binding)
    }

    /// Reads one item of a part into it.
    fn parse_part_item(&mut self, part: &mut Part)
        requires
            old(self).wf(),
        ensures
            final(self).wf(),
            final(self).tokens() == old(self).tokens(),
            (final(self).state(), final(part)@) == part_item_of(
                old(self).tokens(),
                old(self).state(),
                old(part)@,
            ),
    {
        broadcast use lemma_views_push;

        match self.peek_kind() {
            TokKind::Tag => match self.parse_tag() {
                Some(x) => part.tags.push(x),
                None => self.recover_in_part(),
            },
            TokKind::Meta => match self.parse_meta() {
                Some(x) => part.metas.push(x),
                None => self.recover_in_part(),
            },
            TokKind::Anchor => match self.parse_anchor() {
                Some(x) => part.anchors.push(x),
                None => self.recover_in_part(),
            },
            TokKind::Bind => match self.parse_bind() {
                Some(x) => part.bindings.push(x),
                None => self.recover_in_part(),
            },
            _ => {
                self.mismatch("`tag`, `meta`, `anchor`, `bind`, or `}`");
                self.recover_in_part();
            },
        }
    }

    fn parse_part(&mut self) -> (r: Option<Part>)
        requires
            old(self).wf(),
        ensures
            final(self).wf(),
            final(self).tokens() == old(self).tokens(),
            (final(self).state(), opt_view(r)) == part_of(old(self).tokens(), old(self).state()),
    {
        self.bump();
        let selector_span = self.peek_span();
        let selector = match self.parse_selector() {
            Some(selector) => selector,
            None => return None,
        };
        if !self.expect(TokKind::LBrace) {
            self.recover_to_top_level();
            return None;
        }
        let mut part = Part {
            selector,
            selector_span,
            tags: Vec::new(),
            metas: Vec::new(),
            anchors: Vec::new(),
            bindings: Vec::new(),
        };
        let ghost t = self.tokens();
        let ghost s2 = self.state();
        let ghost part2 = part@;
        proof {
            assert(part2.tags =~= Seq::empty());
            assert(part2.metas =~= Seq::empty());
            assert(part2.anchors =~= Seq::empty());
            assert(part2.bindings =~= Seq::empty());
        }
        let mut open = true;
        while open
            invariant
                self.wf(),
                self.tokens() == t,
                t == old(self).tokens(),
                ended_stream(t),
                0 <= self.state().pos < t.len(),
                open ==> part_items_of(t, s2, part2) == part_items_of(t, self.state(), part@),
                !open ==> part_items_of(t, s2, part2) == (self.state(), part@),
            decreases t.len() - self.state().pos, if open { 1int } else { 0 },
        {
            match self.peek_kind() {
                TokKind::RBrace => {
                    self.bump();
                    open = false;
                },
                TokKind::Eof => {
                    let span = self.peek_span();
                    self.error("unexpected end of input: missing `}` to close `part`", span);
                    open = false;
                },
                TokKind::Part | TokKind::Pipe => {
                    let span = self.peek_span();
                    self.error("missing `}` to close `part` before the next item", span);
                    open = false;
                },
                _ => {
                    proof {
                        lemma_part_item(t, self.state(), part@);
                    }
                    self.parse_part_item(&mut part);
                },
            }
        }
        Some(part)
    }

    fn parse_endpoint(&mut self) -> (r: Option<Endpoint>)
        requires
            old(self).wf(),
        ensures
            final(self).wf(),
            final(self).tokens() == old(self).tokens(),
            (final(self).state(), opt_view(r)) == endpoint_of(
                old(self).tokens(),
                old(self).state(),
            ),
    {
        let span = self.peek_span();
        let part = match self.parse_selector() {
            Some(part) => part,
            None => return None,
        };
        if !self.expect(TokKind::Dot) {
            return None;
        }
        match self.expect_ident("an anchor name after `.`") {
            Some(anchor) => Some(Endpoint { part, anchor, span }),
            None => None,
        }
    }

    fn parse_pipe(&mut self) -> (r: Option<Pipe>)
        requires
            old(self).wf(),
        ensures
            final(self).wf(),
            final(self).tokens() == old(self).tokens(),
            (final(self).state(), opt_view(r)) == pipe_of(old(self).tokens(), old(self).state()),
    {
        let span = self.peek_span();
        self.bump();
        let from = match self.parse_endpoint() {
            Some(from) => from,
            None => return None,
        };
        if !self.expect(TokKind::Arrow) {
            self.recover_to_top_level();
            return None;
        }
        match self.parse_endpoint() {
            Some(to) => Some(Pipe { from, to, span }),
            None => None,
        }
    }

    /// Reads one item of a scene into it.
    fn parse_item(&mut self, scene: &mut Scene)
        requires
            old(self).wf(),
        ensures
            final(self).wf(),
            final(self).tokens() == old(self).tokens(),
            (final(self).state(), final(scene)@) == item_of(
                old(self).tokens(),
                old(self).state(),
                old(scene)@,
            ),
    {
        broadcast use lemma_views_push;

        match self.peek_kind() {
            TokKind::Part => if let Some(x) = self.parse_part() {
                scene.parts.push(x);
            },
            TokKind::Pipe => if let Some(x) = self.parse_pipe() {
                scene.pipes.push(x);
            },
            _ => {
                self.mismatch("`part` or `pipe`");
                self.recover_to_top_level();
            },
        }
    }

    fn parse_program(&mut self) -> (r: Option<Scene>)
        requires
            old(self).wf(),
        ensures
            final(self).wf(),
            final(self).tokens() == old(self).tokens(),
            (final(self).state(), opt_view(r)) == program_of(
                old(self).tokens(),
                old(self).state(),
            ),
    {
        if self.peek_kind() != TokKind::Scene {
            self.mismatch("`scene` at the start of the file");
            return None;
        }
        self.bump();
        let name_span = self.peek_span();
        let name = match self.expect_str("a scene name string") {
            Some(name) => name,
            None => String::new(),
        };
        let mut scene = Scene { name, name_span, parts: Vec::new(), pipes: Vec::new() };
        let ghost t = self.tokens();
        let ghost s1 = self.state();
        let ghost scene1 = scene@;
        proof {
            assert(scene1.parts =~= Seq::empty());
            assert(scene1.pipes =~= Seq::empty());
        }
        while !self.at_eof()
            invariant
                self.wf(),
                self.tokens() == t,
                t == old(self).tokens(),
                ended_stream(t),
                0 <= self.state().pos < t.len(),
                items_of(t, s1, scene1) == items_of(t, self.state(), scene@),
            decreases t.len() - self.state().pos,
        {
            proof {
                lemma_item(t, self.state(), scene@);
            }
            self.parse_item(&mut scene);
        }
        Some(scene)
    }
}

/// Parses tokens into a scene, with the messages of the lexer and its own.
/// `None` where no `scene` stands at the start.
pub fn parse(tokens: Vec<Token>, lex_diags: Vec<Diagnostic>) -> (r: (
    Option<Scene>,
    Vec<Diagnostic>,
))
    requires
        ended_stream(views(tokens@)),
    ensures
        (opt_view(r.0), views(r.1@)) == parse_of(views(tokens@), views(lex_diags@)),
{
    let mut p = Parser::new(tokens, lex_diags);
    let scene = p.parse_program();
    (scene, p.into_diags())
}

} // verus!
