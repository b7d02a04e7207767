//! A scene that is written down by the grammar is read back, and what is written
//! otherwise is reported where it stands.

use super::ast::{
    AnchorView, BindingView, EndpointView, MetaValueView, MetaView, PartView, PipeView, SceneView,
    TagView,
};
use super::compile::{
    compile_of, lowered_parts, lowered_pipes, lowered_scene, Lowered, NumeralView,
};
use super::diag::{DiagnosticView, Severity};
use super::lexer::{describe_of, ended_stream, kind_name, lex_of, TokKind, TokenView};
use super::lowering::{joins_entities, law_pipes_become_edges, runs_as};
use super::parser::{
    anchor_of, bind_of, bind_options_of, endpoint_of, item_of, items_of, meta_of, mismatch, parse_of,
    part_item_of, part_items_of, part_of, pipe_of, priority_of, skip_in_part, skip_to_item, tag_of,
    take_kind, take_text, ttl_of, State,
};
use crate::lsg::LsgView;
use crate::opinion::OpinionView;
use vstd::prelude::*;
use vstd::string::*;

verus! {

// ---------------------------------------------------------------------------
// How a scene is written.

/// A token of a kind stands at a place.
pub open spec fn is_mark(t: Seq<TokenView>, p: int, kind: TokKind) -> bool {
    0 <= p < t.len() && t[p].tok.kind == kind
}

/// A token of a kind stands at a place, with a text.
pub open spec fn is_word(t: Seq<TokenView>, p: int, kind: TokKind, text: Seq<char>) -> bool {
    is_mark(t, p, kind) && t[p].tok.text == text
}

/// An option of a binding.
pub enum BindOption {
    Unit(Seq<char>),
    Ttl(Seq<char>),
    Priority(Seq<char>),
}

/// One of the things that a part can hold.
pub enum PartItem {
    Tag(TagView),
    Meta(MetaView),
    Anchor(AnchorView),
    Bind { binding: BindingView, options: Seq<BindOption> },
}

/// `tag STRING`.
pub open spec fn writes_tag(t: Seq<TokenView>, p: int, x: TagView) -> bool {
    &&& is_mark(t, p, TokKind::Tag)
    &&& is_word(t, p + 1, TokKind::Str, x.value)
    &&& x.span == t[p + 1].span
}

/// `meta IDENT = STRING` or `meta IDENT = NUMBER`.
pub open spec fn writes_meta(t: Seq<TokenView>, p: int, x: MetaView) -> bool {
    &&& is_mark(t, p, TokKind::Meta)
    &&& is_word(t, p + 1, TokKind::Ident, x.key)
    &&& is_mark(t, p + 2, TokKind::Eq)
    &&& match x.value {
        MetaValueView::Text(s) => is_word(t, p + 3, TokKind::Str, s),
        MetaValueView::Number(s) => is_word(t, p + 3, TokKind::Num, s),
    }
    &&& x.span == t[p].span
}

/// `anchor IDENT at ( NUM , NUM , NUM )`.
pub open spec fn writes_anchor(t: Seq<TokenView>, p: int, x: AnchorView) -> bool {
    &&& is_mark(t, p, TokKind::Anchor)
    &&& is_word(t, p + 1, TokKind::Ident, x.name)
    &&& is_mark(t, p + 2, TokKind::At)
    &&& is_mark(t, p + 3, TokKind::LParen)
    &&& is_word(t, p + 4, TokKind::Num, x.x)
    &&& is_mark(t, p + 5, TokKind::Comma)
    &&& is_word(t, p + 6, TokKind::Num, x.y)
    &&& is_mark(t, p + 7, TokKind::Comma)
    &&& is_word(t, p + 8, TokKind::Num, x.z)
    &&& is_mark(t, p + 9, TokKind::RParen)
    &&& x.span == t[p].span
}

/// `unit STRING`, `ttl DURATION`, or `priority` and one of the two known ones.
pub open spec fn writes_option(t: Seq<TokenView>, p: int, x: BindOption) -> bool {
    match x {
        BindOption::Unit(s) => is_mark(t, p, TokKind::Unit) && is_word(t, p + 1, TokKind::Str, s),
        BindOption::Ttl(s) => is_mark(t, p, TokKind::Ttl) && is_word(t, p + 1, TokKind::Dur, s),
        BindOption::Priority(s) => is_mark(t, p, TokKind::Priority) && is_word(
            t,
            p + 1,
            TokKind::Ident,
            s,
        ) && (s == "high"@ || s == "background"@),
    }
}

/// Options one after the other, and no further one behind them.
pub open spec fn writes_options(t: Seq<TokenView>, p: int, options: Seq<BindOption>) -> bool
    decreases options.len(),
{
    if options.len() == 0 {
        0 <= p < t.len() && t[p].tok.kind != TokKind::Unit && t[p].tok.kind != TokKind::Ttl
            && t[p].tok.kind != TokKind::Priority
    } else {
        writes_option(t, p, options[0]) && writes_options(t, p + 2, options.drop_first())
    }
}

/// The last unit that options name, or else one from before.
pub open spec fn last_unit(options: Seq<BindOption>, before: Option<Seq<char>>) -> Option<Seq<char>>
    decreases options.len(),
{
    if options.len() == 0 {
        before
    } else {
        match options.last() {
            BindOption::Unit(s) => Some(s),
            _ => last_unit(options.drop_last(), before),
        }
    }
}

/// The last time to live that options name, or else one from before.
pub open spec fn last_ttl(options: Seq<BindOption>, before: Option<Seq<char>>) -> Option<Seq<char>>
    decreases options.len(),
{
    if options.len() == 0 {
        before
    } else {
        match options.last() {
            BindOption::Ttl(s) => Some(s),
            _ => last_ttl(options.drop_last(), before),
        }
    }
}

/// The last priority that options name, or else one from before.
pub open spec fn last_priority(
    options: Seq<BindOption>,
    before: Option<Seq<char>>,
) -> Option<Seq<char>>
    decreases options.len(),
{
    if options.len() == 0 {
        before
    } else {
        match options.last() {
            BindOption::Priority(s) => Some(s),
            _ => last_priority(options.drop_last(), before),
        }
    }
}

/// `bind IDENT metric ( STRING )` and options.
pub open spec fn writes_bind(
    t: Seq<TokenView>,
    p: int,
    x: BindingView,
    options: Seq<BindOption>,
) -> bool {
    &&& is_mark(t, p, TokKind::Bind)
    &&& is_word(t, p + 1, TokKind::Ident, x.attribute)
    &&& is_mark(t, p + 2, TokKind::Metric)
    &&& is_mark(t, p + 3, TokKind::LParen)
    &&& is_word(t, p + 4, TokKind::Str, x.query)
    &&& is_mark(t, p + 5, TokKind::RParen)
    &&& writes_options(t, p + 6, options)
    &&& x.unit == last_unit(options, None)
    &&& x.ttl_ms == last_ttl(options, None)
    &&& x.priority == last_priority(options, None)
    &&& x.span == t[p + 1].span
}

pub open spec fn writes_item(t: Seq<TokenView>, p: int, x: PartItem) -> bool {
    match x {
        PartItem::Tag(x) => writes_tag(t, p, x),
        PartItem::Meta(x) => writes_meta(t, p, x),
        PartItem::Anchor(x) => writes_anchor(t, p, x),
        PartItem::Bind { binding, options } => writes_bind(t, p, binding, options),
    }
}

/// How many tokens an item of a part takes.
pub open spec fn item_len(x: PartItem) -> int {
    match x {
        PartItem::Tag(_) => 2,
        PartItem::Meta(_) => 4,
        PartItem::Anchor(_) => 10,
        PartItem::Bind { binding, options } => 6 + 2 * options.len() as int,
    }
}

/// Items of a part one after the other, and the closing brace behind them.
pub open spec fn writes_items(t: Seq<TokenView>, p: int, items: Seq<PartItem>) -> bool
    decreases items.len(),
{
    if items.len() == 0 {
        is_mark(t, p, TokKind::RBrace)
    } else {
        writes_item(t, p, items[0]) && writes_items(t, p + item_len(items[0]), items.drop_first())
    }
}

pub open spec fn items_len(items: Seq<PartItem>) -> int
    decreases items.len(),
{
    if items.len() == 0 {
        1
    } else {
        item_len(items[0]) + items_len(items.drop_first())
    }
}

/// A part with an item more.
pub open spec fn with_item(part: PartView, x: PartItem) -> PartView {
    match x {
        PartItem::Tag(x) => PartView { tags: part.tags.push(x), ..part },
        PartItem::Meta(x) => PartView { metas: part.metas.push(x), ..part },
        PartItem::Anchor(x) => PartView { anchors: part.anchors.push(x), ..part },
        PartItem::Bind { binding, options } => PartView {
            bindings: part.bindings.push(binding),
            ..part
        },
    }
}

/// A part with items more, in their order.
pub open spec fn with_items(part: PartView, items: Seq<PartItem>) -> PartView
    decreases items.len(),
{
    if items.len() == 0 {
        part
    } else {
        with_items(with_item(part, items[0]), items.drop_first())
    }
}

/// An item of a scene: a part with what it holds, or a pipe.
pub enum SceneItem {
    Part { part: PartView, items: Seq<PartItem> },
    Pipe(PipeView),
}

/// `IDENT . IDENT`.
pub open spec fn writes_endpoint(t: Seq<TokenView>, p: int, x: EndpointView) -> bool {
    &&& is_word(t, p, TokKind::Ident, x.part)
    &&& is_mark(t, p + 1, TokKind::Dot)
    &&& is_word(t, p + 2, TokKind::Ident, x.anchor)
    &&& x.span == t[p].span
}

/// `part IDENT { .. }`, or `pipe IDENT . IDENT -> IDENT . IDENT`.
pub open spec fn writes_scene_item(t: Seq<TokenView>, p: int, x: SceneItem) -> bool {
    match x {
        SceneItem::Part { part, items } => {
            &&& is_mark(t, p, TokKind::Part)
            &&& is_word(t, p + 1, TokKind::Ident, part.selector)
            &&& is_mark(t, p + 2, TokKind::LBrace)
            &&& writes_items(t, p + 3, items)
            &&& part == with_items(
                PartView {
                    selector: part.selector,
                    selector_span: t[p + 1].span,
                    tags: Seq::empty(),
                    metas: Seq::empty(),
                    anchors: Seq::empty(),
                    bindings: Seq::empty(),
                },
                items,
            )
        },
        SceneItem::Pipe(x) => {
            &&& is_mark(t, p, TokKind::Pipe)
            &&& writes_endpoint(t, p + 1, x.from)
            &&& is_mark(t, p + 4, TokKind::Arrow)
            &&& writes_endpoint(t, p + 5, x.to)
            &&& x.span == t[p].span
        },
    }
}

pub open spec fn scene_item_len(x: SceneItem) -> int {
    match x {
        SceneItem::Part { part, items } => 3 + items_len(items),
        SceneItem::Pipe(_) => 8,
    }
}

/// Items of a scene one after the other, and the end of the input behind them.
pub open spec fn writes_scene_items(t: Seq<TokenView>, p: int, items: Seq<SceneItem>) -> bool
    decreases items.len(),
{
    if items.len() == 0 {
        is_mark(t, p, TokKind::Eof)
    } else {
        writes_scene_item(t, p, items[0]) && writes_scene_items(
            t,
            p + scene_item_len(items[0]),
            items.drop_first(),
        )
    }
}

/// The parts among the items of a scene, in their order.
pub open spec fn parts_among(items: Seq<SceneItem>) -> Seq<PartView>
    decreases items.len(),
{
    if items.len() == 0 {
        Seq::empty()
    } else {
        match items[0] {
            SceneItem::Part { part, items: _ } => seq![part] + parts_among(items.drop_first()),
            SceneItem::Pipe(_) => parts_among(items.drop_first()),
        }
    }
}

/// The pipes among the items of a scene, in their order.
pub open spec fn pipes_among(items: Seq<SceneItem>) -> Seq<PipeView>
    decreases items.len(),
{
    if items.len() == 0 {
        Seq::empty()
    } else {
        match items[0] {
            SceneItem::Part { .. } => pipes_among(items.drop_first()),
            SceneItem::Pipe(x) => seq![x] + pipes_among(items.drop_first()),
        }
    }
}

// ---------------------------------------------------------------------------
// It is read back.

/// A tag that is written is read, and nothing is reported.
pub proof fn law_tags_are_read(t: Seq<TokenView>, s: State, x: TagView)
    requires
        writes_tag(t, s.pos, x),
    ensures
        tag_of(t, s) == (State { pos: s.pos + 2, ..s }, Some(x)),
{
}

/// Metadata that is written is read, and nothing is reported.
pub proof fn law_metas_are_read(t: Seq<TokenView>, s: State, x: MetaView)
    requires
        writes_meta(t, s.pos, x),
    ensures
        meta_of(t, s) == (State { pos: s.pos + 4, ..s }, Some(x)),
{
}

/// An anchor that is written is read, and nothing is reported.
pub proof fn law_anchors_are_read(t: Seq<TokenView>, s: State, x: AnchorView)
    requires
        writes_anchor(t, s.pos, x),
    ensures
        anchor_of(t, s) == (State { pos: s.pos + 10, ..s }, Some(x)),
{
}

/// A pipe that is written is read from its first end to its second, and nothing is
/// reported.
pub proof fn law_pipes_are_read(t: Seq<TokenView>, s: State, x: PipeView)
    requires
        writes_scene_item(t, s.pos, SceneItem::Pipe(x)),
    ensures
        pipe_of(t, s) == (State { pos: s.pos + 8, ..s }, Some(x)),
{
    let s1 = State { pos: s.pos + 1, ..s };
    let s5 = State { pos: s.pos + 5, ..s };
    assert(endpoint_of(t, s1) == (State { pos: s.pos + 4, ..s }, Some(x.from)));
    assert(endpoint_of(t, s5) == (State { pos: s.pos + 8, ..s }, Some(x.to)));
}

proof fn lemma_options_are_read(t: Seq<TokenView>, s: State, b: BindingView, options: Seq<BindOption>)
    requires
        ended_stream(t),
        0 <= s.pos < t.len(),
        writes_options(t, s.pos, options),
    ensures
        bind_options_of(t, s, b) == (
            State { pos: s.pos + 2 * options.len(), ..s },
            BindingView {
                unit: last_unit(options, b.unit),
                ttl_ms: last_ttl(options, b.ttl_ms),
                priority: last_priority(options, b.priority),
                ..b
            },
        ),
        s.pos + 2 * options.len() < t.len(),
    decreases options.len(),
{
    if options.len() > 0 {
        let x = options[0];
        let rest = options.drop_first();
        let s2 = State { pos: s.pos + 2, ..s };
        let b2 = match x {
            BindOption::Unit(u) => BindingView { unit: Some(u), ..b },
            BindOption::Ttl(u) => BindingView { ttl_ms: Some(u), ..b },
            BindOption::Priority(u) => BindingView { priority: Some(u), ..b },
        };
        assert(s2.pos < t.len()) by {
            assert(writes_options(t, s2.pos, rest));
            if rest.len() > 0 {
                assert(writes_option(t, s2.pos, rest[0]));
            }
        }
        assert(bind_options_of(t, s, b) == bind_options_of(t, s2, b2));
        lemma_options_are_read(t, s2, b2, rest);
        lemma_last_options(options, b);
    }
}

proof fn lemma_last_options(options: Seq<BindOption>, b: BindingView)
    requires
        options.len() > 0,
    ensures
        ({
            let rest = options.drop_first();
            let unit = match options[0] {
                BindOption::Unit(u) => Some(u),
                _ => b.unit,
            };
            let ttl = match options[0] {
                BindOption::Ttl(u) => Some(u),
                _ => b.ttl_ms,
            };
            let priority = match options[0] {
                BindOption::Priority(u) => Some(u),
                _ => b.priority,
            };
            &&& last_unit(options, b.unit) == last_unit(rest, unit)
            &&& last_ttl(options, b.ttl_ms) == last_ttl(rest, ttl)
            &&& last_priority(options, b.priority) == last_priority(rest, priority)
        }),
    decreases options.len(),
{
    reveal_with_fuel(last_unit, 2);
    reveal_with_fuel(last_ttl, 2);
    reveal_with_fuel(last_priority, 2);
    if options.len() > 1 {
        lemma_last_options(options.drop_last(), b);
        assert(options.drop_last()[0] == options[0]);
        assert(options.drop_last().drop_first() =~= options.drop_first().drop_last());
        assert(options.drop_first().last() == options.last());
    } else {
        assert(options.last() == options[0]);
        assert(options.drop_last().len() == 0);
        assert(options.drop_first().len() == 0);
    }
}

/// A binding that is written is read, with the last of its options of each sort, and
/// nothing is reported.
pub proof fn law_bindings_are_read(
    t: Seq<TokenView>,
    s: State,
    x: BindingView,
    options: Seq<BindOption>,
)
    requires
        ended_stream(t),
        writes_bind(t, s.pos, x, options),
    ensures
        bind_of(t, s) == (State { pos: s.pos + 6 + 2 * options.len(), ..s }, Some(x)),
{
    let s6 = State { pos: s.pos + 6, ..s };
    assert(s6.pos < t.len()) by {
        if options.len() > 0 {
            assert(writes_option(t, s6.pos, options[0]));
        }
    }
    let b = BindingView {
        attribute: x.attribute,
        query: x.query,
        unit: None,
        ttl_ms: None,
        priority: None,
        span: x.span,
    };
    lemma_options_are_read(t, s6, b, options);
}

proof fn lemma_item_is_read(t: Seq<TokenView>, s: State, part: PartView, x: PartItem)
    requires
        ended_stream(t),
        writes_item(t, s.pos, x),
    ensures
        part_item_of(t, s, part) == (State { pos: s.pos + item_len(x), ..s }, with_item(part, x)),
{
    match x {
        PartItem::Tag(x) => law_tags_are_read(t, s, x),
        PartItem::Meta(x) => law_metas_are_read(t, s, x),
        PartItem::Anchor(x) => law_anchors_are_read(t, s, x),
        PartItem::Bind { binding, options } => law_bindings_are_read(t, s, binding, options),
    }
}

proof fn lemma_items_are_read(t: Seq<TokenView>, s: State, part: PartView, items: Seq<PartItem>)
    requires
        ended_stream(t),
        writes_items(t, s.pos, items),
    ensures
        0 <= s.pos < t.len(),
        part_items_of(t, s, part) == (
            State { pos: s.pos + items_len(items), ..s },
            with_items(part, items),
        ),
    decreases items.len(),
{
    if items.len() > 0 {
        let x = items[0];
        assert(writes_item(t, s.pos, x));
        lemma_item_is_read(t, s, part, x);
        let s1 = State { pos: s.pos + item_len(x), ..s };
        assert(item_len(x) > 0);
        lemma_items_are_read(t, s1, with_item(part, x), items.drop_first());
    }
}

proof fn lemma_scene_items_are_read(
    t: Seq<TokenView>,
    s: State,
    scene: SceneView,
    items: Seq<SceneItem>,
)
    requires
        ended_stream(t),
        writes_scene_items(t, s.pos, items),
    ensures
        0 <= s.pos < t.len(),
        ({
            let (s1, scene1) = items_of(t, s, scene);
            &&& s1.diags == s.diags
            &&& scene1 == (SceneView {
                parts: scene.parts + parts_among(items),
                pipes: scene.pipes + pipes_among(items),
                ..scene
            })
        }),
    decreases items.len(),
{
    if items.len() == 0 {
        assert(scene.parts + parts_among(items) =~= scene.parts);
        assert(scene.pipes + pipes_among(items) =~= scene.pipes);
    } else {
        let x = items[0];
        let rest = items.drop_first();
        let s1 = State { pos: s.pos + scene_item_len(x), ..s };
        let next = match x {
            SceneItem::Part { part, items: _ } => SceneView {
                parts: scene.parts.push(part),
                ..scene
            },
            SceneItem::Pipe(x) => SceneView { pipes: scene.pipes.push(x), ..scene },
        };
        match x {
            SceneItem::Part { part, items: inner } => {
                let s3 = State { pos: s.pos + 3, ..s };
                let blank = PartView {
                    selector: part.selector,
                    selector_span: t[s.pos + 1].span,
                    tags: Seq::empty(),
                    metas: Seq::empty(),
                    anchors: Seq::empty(),
                    bindings: Seq::empty(),
                };
                lemma_items_are_read(t, s3, blank, inner);
                assert(part_of(t, s) == (s1, Some(part)));
            },
            SceneItem::Pipe(x) => {
                law_pipes_are_read(t, s, x);
            },
        }
        assert(item_of(t, s, scene) == (s1, next));
        lemma_scene_items_are_read(t, s1, next, rest);
        assert(items_of(t, s, scene) == items_of(t, s1, next));
        match x {
            SceneItem::Part { part, items: _ } => {
                assert(scene.parts.push(part) + parts_among(rest) =~= scene.parts + parts_among(
                    items,
                ));
            },
            SceneItem::Pipe(x) => {
                assert(scene.pipes.push(x) + pipes_among(rest) =~= scene.pipes + pipes_among(
                    items,
                ));
            },
        }
    }
}

/// A scene that is written by the grammar is read back: its name, its parts with all
/// that they hold, and its pipes, each in the order in which they are written. Nothing
/// is reported beyond what was before.
pub proof fn law_scenes_are_read_back(
    t: Seq<TokenView>,
    diags: Seq<DiagnosticView>,
    name: Seq<char>,
    items: Seq<SceneItem>,
)
    requires
        ended_stream(t),
        is_mark(t, 0, TokKind::Scene),
        is_word(t, 1, TokKind::Str, name),
        writes_scene_items(t, 2, items),
    ensures
        parse_of(t, diags) == (
            Some(
                SceneView {
                    name,
                    name_span: t[1].span,
                    parts: parts_among(items),
                    pipes: pipes_among(items),
                },
            ),
            diags,
        ),
{
    let s2 = State { pos: 2, diags };
    let scene = SceneView {
        name,
        name_span: t[1].span,
        parts: Seq::empty(),
        pipes: Seq::empty(),
    };
    lemma_scene_items_are_read(t, s2, scene, items);
    assert(scene.parts + parts_among(items) =~= parts_among(items));
    assert(scene.pipes + pipes_among(items) =~= pipes_among(items));
}

// ---------------------------------------------------------------------------
// What is written otherwise.

/// Where another token stands than the one that is wanted, a message says so at that
/// token, and the token stays to be read.
pub proof fn law_wrong_tokens_are_reported(
    t: Seq<TokenView>,
    s: State,
    want: TokKind,
    what: Seq<char>,
)
    requires
        t[s.pos].tok.kind != want,
    ensures
        ({
            let found = DiagnosticView {
                severity: Severity::Error,
                message: "expected "@ + what + ", found "@ + describe_of(t[s.pos].tok),
                span: t[s.pos].span,
            };
            &&& take_text(t, s, want, what) == (
                State { pos: s.pos, diags: s.diags.push(found) },
                None::<Seq<char>>,
            )
            &&& mismatch(t, s, what) == (State { pos: s.pos, diags: s.diags.push(found) })
        }),
        ({
            let found = DiagnosticView {
                severity: Severity::Error,
                message: "expected "@ + kind_name(want) + ", found "@ + describe_of(t[s.pos].tok),
                span: t[s.pos].span,
            };
            take_kind(t, s, want) == (State { pos: s.pos, diags: s.diags.push(found) }, false)
        }),
{
    assert("expected "@ + what + (", found "@ + describe_of(t[s.pos].tok)) =~= "expected "@ + what
        + ", found "@ + describe_of(t[s.pos].tok));
    assert("expected "@ + kind_name(want) + (", found "@ + describe_of(t[s.pos].tok))
        =~= "expected "@ + kind_name(want) + ", found "@ + describe_of(t[s.pos].tok));
}

/// Behind a mistake reading goes on at the next `part` or `pipe`; within a part also at
/// the next `tag`, `meta`, `anchor` or `bind`, and at a closing brace. What is skipped
/// is not reported.
pub proof fn law_reading_goes_on_behind_mistakes(t: Seq<TokenView>, s: State, q: int)
    requires
        0 <= s.pos <= q < t.len(),
        forall|i: int| s.pos <= i < q ==> (#[trigger] t[i]).tok.kind != TokKind::Eof,
    ensures
        ({
            let k = t[q].tok.kind;
            (forall|i: int|
                s.pos <= i < q ==> (#[trigger] t[i]).tok.kind != TokKind::Part && t[i].tok.kind
                    != TokKind::Pipe) && (k == TokKind::Part || k == TokKind::Pipe || k
                == TokKind::Eof) ==> skip_to_item(t, s) == (State { pos: q, ..s })
        }),
        ({
            let k = t[q].tok.kind;
            (forall|i: int|
                s.pos <= i < q ==> !in_part_stop((#[trigger] t[i]).tok.kind)) && (in_part_stop(k)
                || k == TokKind::Eof) ==> skip_in_part(t, s) == (State { pos: q, ..s })
        }),
    decreases q - s.pos,
{
    if s.pos < q {
        assert(t[s.pos].tok.kind != TokKind::Eof);
        law_reading_goes_on_behind_mistakes(t, State { pos: s.pos + 1, ..s }, q);
    }
}

/// A token at which reading a part goes on behind a mistake.
pub open spec fn in_part_stop(k: TokKind) -> bool {
    k == TokKind::Tag || k == TokKind::Meta || k == TokKind::Anchor || k == TokKind::Bind || k
        == TokKind::RBrace || k == TokKind::Part || k == TokKind::Pipe
}

/// A time to live without a unit counts as milliseconds, with a warning at the number.
pub proof fn law_bare_numbers_are_milliseconds(t: Seq<TokenView>, s: State, b: BindingView)
    requires
        is_mark(t, s.pos, TokKind::Ttl),
        is_mark(t, s.pos + 1, TokKind::Num),
    ensures
        ttl_of(t, s, b).1 == (BindingView { ttl_ms: Some(t[s.pos + 1].tok.text), ..b }),
        ttl_of(t, s, b).0.pos == s.pos + 2,
        ttl_of(t, s, b).0.diags == s.diags.push(
            DiagnosticView {
                severity: Severity::Warning,
                message: "ttl without a `ms` suffix; interpreting as milliseconds"@,
                span: t[s.pos + 1].span,
            },
        ),
{
}

/// A priority that is not known is kept, with a warning at its name.
pub proof fn law_unknown_priorities_are_warned_of(t: Seq<TokenView>, s: State, b: BindingView)
    requires
        is_mark(t, s.pos, TokKind::Priority),
        is_mark(t, s.pos + 1, TokKind::Ident),
        t[s.pos + 1].tok.text != "high"@,
        t[s.pos + 1].tok.text != "background"@,
    ensures
        priority_of(t, s, b).1 == (BindingView { priority: Some(t[s.pos + 1].tok.text), ..b }),
        priority_of(t, s, b).0.pos == s.pos + 2,
        priority_of(t, s, b).0.diags == s.diags.push(
            DiagnosticView {
                severity: Severity::Warning,
                message: "unknown priority `"@ + t[s.pos + 1].tok.text
                    + "` (expected `high` or `background`); treating as `background`"@,
                span: t[s.pos + 1].span,
            },
        ),
{
}

/// A part that is not closed ends before the next item of the scene, and at the end of
/// the input, and this is reported there; what it holds is kept.
pub proof fn law_open_parts_are_reported(t: Seq<TokenView>, s: State, part: PartView)
    requires
        ended_stream(t),
        0 <= s.pos < t.len(),
        ({
            let k = t[s.pos].tok.kind;
            k == TokKind::Part || k == TokKind::Pipe || k == TokKind::Eof
        }),
    ensures
        part_items_of(t, s, part) == (
            State {
                pos: s.pos,
                diags: s.diags.push(
                    DiagnosticView {
                        severity: Severity::Error,
                        message: if t[s.pos].tok.kind == TokKind::Eof {
                            "unexpected end of input: missing `}` to close `part`"@
                        } else {
                            "missing `}` to close `part` before the next item"@
                        },
                        span: t[s.pos].span,
                    },
                ),
            },
            part,
        ),
{
}

/// A file that does not start with `scene` is not read, and that is reported.
pub proof fn law_files_start_with_scene(t: Seq<TokenView>, diags: Seq<DiagnosticView>)
    requires
        t.len() > 0,
        t[0].tok.kind != TokKind::Scene,
    ensures
        parse_of(t, diags) == (
            None::<SceneView>,
            diags.push(
                DiagnosticView {
                    severity: Severity::Error,
                    message: "expected `scene` at the start of the file, found "@ + describe_of(
                        t[0].tok,
                    ),
                    span: t[0].span,
                },
            ),
        ),
{
    reveal_strlit("expected `scene` at the start of the file, found ");
    reveal_strlit("expected ");
    reveal_strlit("`scene` at the start of the file");
    reveal_strlit(", found ");
    assert("expected "@ + "`scene` at the start of the file"@ + (", found "@ + describe_of(
        t[0].tok,
    )) =~= "expected `scene` at the start of the file, found "@ + describe_of(t[0].tok));
}

/// What is missing in an item is named: the first thing that should stand behind its
/// keyword and does not.
pub proof fn law_missing_words_are_named(t: Seq<TokenView>, s: State)
    requires
        0 <= s.pos,
        s.pos + 1 < t.len(),
        t[s.pos].tok.kind != TokKind::Eof,
    ensures
        ({
            let k = t[s.pos + 1].tok.kind;
            let s1 = State { pos: s.pos + 1, ..s };
            &&& k != TokKind::Str ==> tag_of(t, s) == (
                mismatch(t, s1, "a tag string"@),
                None::<TagView>,
            )
            &&& k != TokKind::Ident ==> meta_of(t, s) == (
                mismatch(t, s1, "a metadata key"@),
                None::<MetaView>,
            )
            &&& k != TokKind::Ident ==> anchor_of(t, s) == (
                mismatch(t, s1, "an anchor name"@),
                None::<AnchorView>,
            )
            &&& k != TokKind::Ident ==> bind_of(t, s) == (
                mismatch(t, s1, "an attribute name"@),
                None::<BindingView>,
            )
            &&& k != TokKind::Ident ==> part_of(t, s) == (
                mismatch(t, s1, "a part selector (asset tag or prim path)"@),
                None::<PartView>,
            )
            &&& k != TokKind::Ident ==> pipe_of(t, s) == (
                mismatch(t, s1, "a part selector (asset tag or prim path)"@),
                None::<PipeView>,
            )
        }),
{
}

// ---------------------------------------------------------------------------
// From the source to the opinions.

/// What the lexer reports of a source stands first among the messages of its
/// compilation, and a source that does not start with `scene` compiles to nothing.
pub proof fn law_compilation_starts_with_the_lexer(
    source: Seq<char>,
    lsg: LsgView,
    table: Seq<NumeralView>,
)
    requires
        ended_stream(lex_of(source).tokens),
    ensures
        lex_of(source).diags.is_prefix_of(compile_of(source, lsg, table).diagnostics),
        lex_of(source).tokens[0].tok.kind != TokKind::Scene ==> compile_of(
            source,
            lsg,
            table,
        ).opinions.len() == 0,
{
    let lexed = lex_of(source);
    let parsed = parse_of(lexed.tokens, lexed.diags);
    super::parser::law_parse_keeps_messages(lexed.tokens, lexed.diags);
    if let Some(scene) = parsed.0 {
        let out = Lowered { opinions: Seq::empty(), diags: parsed.1 };
        lemma_parts_keep_messages(out, lsg, scene.parts, table);
        lemma_pipes_keep_messages(
            lowered_parts(out, lsg, scene.parts, table),
            lsg,
            scene.parts,
            scene.pipes,
        );
        let first = lexed.diags;
        let mid = parsed.1;
        let later = lowered_parts(out, lsg, scene.parts, table).diags;
        let all = compile_of(source, lsg, table).diagnostics;
        assert(all.take(first.len() as int) =~= first) by {
            assert(mid.take(first.len() as int) =~= first);
            assert(later.take(mid.len() as int) =~= mid);
            assert(all.take(later.len() as int) =~= later);
            assert forall|i: int| 0 <= i < first.len() implies all[i] == first[i] by {
                assert(all.take(later.len() as int)[i] == all[i]);
                assert(later.take(mid.len() as int)[i] == later[i]);
                assert(mid.take(first.len() as int)[i] == mid[i]);
            }
        }
    }
}

proof fn lemma_parts_keep_messages(
    out: Lowered,
    lsg: LsgView,
    parts: Seq<PartView>,
    table: Seq<NumeralView>,
)
    ensures
        out.diags.is_prefix_of(lowered_parts(out, lsg, parts, table).diags),
    decreases parts.len(),
{
    if parts.len() > 0 {
        lemma_parts_keep_messages(out, lsg, parts.drop_last(), table);
    }
}

proof fn lemma_pipes_keep_messages(
    out: Lowered,
    lsg: LsgView,
    parts: Seq<PartView>,
    pipes: Seq<PipeView>,
)
    ensures
        out.diags.is_prefix_of(lowered_pipes(out, lsg, parts, pipes).diags),
    decreases pipes.len(),
{
    if pipes.len() > 0 {
        lemma_pipes_keep_messages(out, lsg, parts, pipes.drop_last());
    }
}

proof fn lemma_compiled(
    source: Seq<char>,
    lsg: LsgView,
    table: Seq<NumeralView>,
    scene: SceneView,
    diags: Seq<DiagnosticView>,
)
    requires
        parse_of(lex_of(source).tokens, lex_of(source).diags) == (Some(scene), diags),
    ensures
        compile_of(source, lsg, table).scene_name == scene.name,
        compile_of(source, lsg, table).opinions == lowered_scene(
            Lowered { opinions: Seq::empty(), diags },
            lsg,
            scene,
            table,
        ).opinions,
{
}

/// A pipe that joins entities has an edge among opinions.
pub open spec fn has_edge(ops: Seq<OpinionView>, lsg: LsgView, pipe: PipeView) -> bool {
    exists|j: int| 0 <= j < ops.len() && #[trigger] runs_as(ops[j], lsg, pipe)
}

/// An opinion runs as one of some pipes.
pub open spec fn runs_as_one(op: OpinionView, lsg: LsgView, pipes: Seq<PipeView>) -> bool {
    exists|j: int| 0 <= j < pipes.len() && #[trigger] runs_as(op, lsg, pipes[j])
}

proof fn lemma_edges_of_pipes(
    diags: Seq<DiagnosticView>,
    lsg: LsgView,
    scene: SceneView,
    table: Seq<NumeralView>,
    k: int,
)
    ensures
        ({
            let ops = lowered_scene(
                Lowered { opinions: Seq::empty(), diags },
                lsg,
                scene,
                table,
            ).opinions;
            &&& 0 <= k < scene.pipes.len() && joins_entities(lsg, scene.pipes[k]) ==> has_edge(
                ops,
                lsg,
                scene.pipes[k],
            )
            &&& 0 <= k < ops.len() && ops[k] is Edge ==> runs_as_one(ops[k], lsg, scene.pipes)
        }),
{
    law_pipes_become_edges(Lowered { opinions: Seq::empty(), diags }, lsg, scene, table);
}

/// A source that is written by the grammar compiles to its scene: it has the name that
/// is written, each of its pipes whose ends lead to entities becomes an edge that runs
/// as it does, and every edge comes from such a pipe.
pub proof fn law_written_pipes_become_edges(
    source: Seq<char>,
    lsg: LsgView,
    table: Seq<NumeralView>,
    name: Seq<char>,
    items: Seq<SceneItem>,
    k: int,
)
    requires
        ended_stream(lex_of(source).tokens),
        is_mark(lex_of(source).tokens, 0, TokKind::Scene),
        is_word(lex_of(source).tokens, 1, TokKind::Str, name),
        writes_scene_items(lex_of(source).tokens, 2, items),
    ensures
        compile_of(source, lsg, table).scene_name == name,
        0 <= k < pipes_among(items).len() && joins_entities(lsg, pipes_among(items)[k])
            ==> has_edge(compile_of(source, lsg, table).opinions, lsg, pipes_among(items)[k]),
        0 <= k < compile_of(source, lsg, table).opinions.len() && compile_of(
            source,
            lsg,
            table,
        ).opinions[k] is Edge ==> runs_as_one(
            compile_of(source, lsg, table).opinions[k],
            lsg,
            pipes_among(items),
        ),
{
    let t = lex_of(source).tokens;
    let diags = lex_of(source).diags;
    let scene = SceneView {
        name,
        name_span: t[1].span,
        parts: parts_among(items),
        pipes: pipes_among(items),
    };
    assert(parse_of(t, diags) == (Some(scene), diags)) by {
        law_scenes_are_read_back(t, diags, name, items);
    }
    lemma_compiled(source, lsg, table, scene, diags);
    lemma_edges_of_pipes(diags, lsg, scene, table, k);
}

} // verus!
