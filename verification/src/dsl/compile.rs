//! Semantic analysis: a parsed scene is resolved against the Logical Scene Graph
//! and lowered into opinions with stable ids.
//!
//! Selectors that lead nowhere and pipe anchors that nothing declares are
//! reported at their place in the source.

use super::ast::{
    AnchorView as AnchorNode, Binding, BindingView as BindingNode, MetaValue, MetaValueView,
    MetaView as MetaNode, Part, PartView, Pipe, PipeView, Scene, SceneView, TagView as TagNode,
};
use super::diag::{Diagnostic, DiagnosticView, Span};
use super::lexer::{
    law_tokens_are_closed_and_in_order, lex, lex_of, Tok, TokKind, TokenView,
};
use super::parser::{parse, parse_of};
use crate::dict::contains_text;
use crate::lsg::{
    Anchor, AnchorId, AnchorView, Edge, EdgeId, EdgeView, EntityId, Lsg, LsgView,
    TelemetryBinding, TelemetryBindingView,
};
use crate::model::{group_models, views};
use crate::opinion::{Opinion, OpinionView};
use crate::scalar::Double;
use crate::table::IdMap;
use crate::text::cat3;
use vstd::prelude::*;
use vstd::string::*;
use vstd::utf8::encode_utf8;

verus! {

// ---------------------------------------------------------------------------
// Numerals.

/// What a numeral of the source stands for.
#[derive(Debug, Clone)]
pub struct Numeral {
    /// The numeral as it was written.
    pub text: String,
    pub value: Double,
    /// The number as metadata shows it.
    pub shown: String,
}

pub struct NumeralView {
    pub text: Seq<char>,
    pub value: Double,
    pub shown: Seq<char>,
}

impl View for Numeral {
    type V = NumeralView;

    open spec fn view(&self) -> NumeralView {
        NumeralView { text: self.text@, value: self.value, shown: self.shown@ }
    }
}

/// What a table says of a numeral. One that is not in it stands for no number.
pub open spec fn numeral_of(table: Seq<NumeralView>, text: Seq<char>) -> NumeralView
    decreases table.len(),
{
    if table.len() == 0 {
        NumeralView { text, value: Double::nan_spec(), shown: "NaN"@ }
    } else if table[0].text == text {
        table[0]
    } else {
        numeral_of(table.drop_first(), text)
    }
}

/// Looks a numeral up.
fn find_numeral(table: &[Numeral], text: &String) -> (r: Numeral)
    ensures
        r@ == numeral_of(views(table@), text@),
{
    let mut i: usize = 0;
    proof {
        assert(views(table@).skip(0) =~= views(table@));
    }
    while i < table.len()
        invariant
            i <= table@.len(),
            numeral_of(views(table@), text@) == numeral_of(views(table@).skip(i as int), text@),
        decreases table@.len() - i,
    {
        let ghost rest = views(table@).skip(i as int);
        proof {
            assert(rest[0] == table@[i as int]@);
            assert(rest.drop_first() =~= views(table@).skip(i + 1));
        }
        if table[i].text == *text {
            return Numeral {
                text: table[i].text.clone(),
                value: table[i].value,
                shown: table[i].shown.clone(),
            };
        }
        i = i + 1;
    }
    Numeral { text: text.clone(), value: Double::not_a_number(), shown: "NaN".to_owned() }
}

/// The texts of the numerals among tokens, in order.
pub open spec fn numerals_in(tokens: Seq<TokenView>) -> Seq<Seq<char>> {
    tokens.filter(
        |t: TokenView| t.tok.kind == TokKind::Num || t.tok.kind == TokKind::Dur,
    ).map_values(|t: TokenView| t.tok.text)
}

/// The numerals of a source, in order.
pub fn numerals(source: &str) -> (r: Vec<String>)
    requires
        encode_utf8(source@).len() < u32::MAX,
    ensures
        views(r@) == numerals_in(lex_of(source@).tokens),
{
    broadcast use group_models;

    let (tokens, _) = lex(source);
    let ghost all = views(tokens@);
    let mut r: Vec<String> = Vec::new();
    let mut i: usize = 0;
    proof {
        reveal(Seq::filter);
        assert(all.take(0) =~= Seq::empty());
        assert(views(r@) =~= numerals_in(all.take(0)));
    }
    while i < tokens.len()
        invariant
            i <= tokens@.len(),
            all == views(tokens@),
            views(r@) == numerals_in(all.take(i as int)),
        decreases tokens@.len() - i,
    {
        let ghost before = numerals_in(all.take(i as int));
        proof {
            reveal(Seq::filter);
            assert(all.take(i + 1).drop_last() =~= all.take(i as int));
            assert(all.take(i + 1).last() == tokens@[i as int]@);
        }
        match &tokens[i].tok {
            Tok::Num(s) => {
                r.push(s.clone());
                proof {
                    assert(numerals_in(all.take(i + 1)) =~= before.push(s@));
                }
            },
            Tok::Dur(s) => {
                r.push(s.clone());
                proof {
                    assert(numerals_in(all.take(i + 1)) =~= before.push(s@));
                }
            },
            _ => {},
        }
        i = i + 1;
    }
    proof {
        assert(all.take(i as int) =~= all);
    }
    r
}

// ---------------------------------------------------------------------------
// Lowering.

/// The default time to live of a binding: five thousand milliseconds.
pub open spec fn default_ttl() -> Double {
    Double { bits: 0x40b3_8800_0000_0000 }
}

pub open spec fn tag_opinion(id: EntityId, t: TagNode) -> OpinionView {
    OpinionView::Tag { entity: id, tag: t.value }
}

pub open spec fn meta_opinion(id: EntityId, m: MetaNode, table: Seq<NumeralView>) -> OpinionView {
    OpinionView::Meta {
        entity: id,
        key: m.key,
        value: match m.value {
            MetaValueView::Text(s) => s,
            MetaValueView::Number(s) => numeral_of(table, s).shown,
        },
    }
}

pub open spec fn anchor_opinion(
    id: EntityId,
    a: AnchorNode,
    table: Seq<NumeralView>,
) -> OpinionView {
    OpinionView::Anchor(
        AnchorView {
            id: AnchorId::of(id, a.name),
            entity: id,
            name: a.name,
            pos: seq![
                numeral_of(table, a.x).value,
                numeral_of(table, a.y).value,
                numeral_of(table, a.z).value,
            ],
        },
    )
}

pub open spec fn binding_opinion(
    id: EntityId,
    b: BindingNode,
    table: Seq<NumeralView>,
) -> OpinionView {
    OpinionView::Binding {
        entity: id,
        binding: TelemetryBindingView {
            attribute: b.attribute,
            source_id: "victoriametrics"@,
            query: b.query,
            unit: match b.unit {
                Some(u) => u,
                None => Seq::empty(),
            },
            ttl_ms: match b.ttl_ms {
                Some(t) => numeral_of(table, t).value,
                None => default_ttl(),
            },
            priority: match b.priority {
                Some(p) => p,
                None => "background"@,
            },
            quality_policy: "stale_ok"@,
        },
    }
}

/// The opinions of a part on the entity that it selects: its tags, its metadata,
/// its anchors and its bindings.
pub open spec fn part_opinions(
    id: EntityId,
    part: PartView,
    table: Seq<NumeralView>,
) -> Seq<OpinionView> {
    part.tags.map_values(|t: TagNode| tag_opinion(id, t)) + part.metas.map_values(
        |m: MetaNode| meta_opinion(id, m, table),
    ) + part.anchors.map_values(|a: AnchorNode| anchor_opinion(id, a, table))
        + part.bindings.map_values(|b: BindingNode| binding_opinion(id, b, table))
}

/// What lowering gives: opinions and messages.
pub struct Lowered {
    pub opinions: Seq<OpinionView>,
    pub diags: Seq<DiagnosticView>,
}

pub open spec fn unknown_part(selector: Seq<char>, span: Span) -> DiagnosticView {
    DiagnosticView::error(
        "unknown part `"@ + selector + "` (no matching asset tag or prim path in the scene)"@,
        span,
    )
}

pub open spec fn unknown_in_pipe(selector: Seq<char>, span: Span) -> DiagnosticView {
    DiagnosticView::error("unknown part `"@ + selector + "` in pipe"@, span)
}

pub open spec fn undeclared(side: Seq<char>, anchor: Seq<char>, span: Span) -> DiagnosticView {
    DiagnosticView::warning(
        "pipe "@ + side + (" anchor `"@ + anchor
            + "` was not declared with an `anchor` statement"@),
        span,
    )
}

/// One part lowered behind what came before it.
pub open spec fn lowered_part(
    out: Lowered,
    lsg: LsgView,
    part: PartView,
    table: Seq<NumeralView>,
) -> Lowered {
    match lsg.selected(part.selector) {
        Some(id) => Lowered { opinions: out.opinions + part_opinions(id, part, table), ..out },
        None => Lowered {
            diags: out.diags.push(unknown_part(part.selector, part.selector_span)),
            ..out
        },
    }
}

pub open spec fn lowered_parts(
    out: Lowered,
    lsg: LsgView,
    parts: Seq<PartView>,
    table: Seq<NumeralView>,
) -> Lowered
    decreases parts.len(),
{
    if parts.len() == 0 {
        out
    } else {
        lowered_part(
            lowered_parts(out, lsg, parts.drop_last(), table),
            lsg,
            parts.last(),
            table,
        )
    }
}

/// Some part declares an anchor of that name on that entity.
pub open spec fn declares(
    lsg: LsgView,
    parts: Seq<PartView>,
    id: EntityId,
    name: Seq<char>,
) -> bool {
    exists|i: int, j: int|
        0 <= i < parts.len() && 0 <= j < parts[i].anchors.len() && lsg.selected(
            parts[i].selector,
        ) == Some(id) && (#[trigger] parts[i].anchors[j]).name == name
}

/// A warning about an end of a pipe whose anchor no part declares.
pub open spec fn end_warning(
    known: bool,
    side: Seq<char>,
    anchor: Seq<char>,
    span: Span,
) -> Seq<DiagnosticView> {
    if known {
        Seq::empty()
    } else {
        seq![undeclared(side, anchor, span)]
    }
}

/// One pipe lowered behind what came before it.
pub open spec fn lowered_pipe(
    out: Lowered,
    lsg: LsgView,
    parts: Seq<PartView>,
    pipe: PipeView,
) -> Lowered {
    let from = lsg.selected(pipe.from.part);
    let to = lsg.selected(pipe.to.part);
    if from is Some && to is Some {
        let a = end_warning(
            declares(lsg, parts, from->0, pipe.from.anchor),
            "from"@,
            pipe.from.anchor,
            pipe.from.span,
        );
        let b = end_warning(
            declares(lsg, parts, to->0, pipe.to.anchor),
            "to"@,
            pipe.to.anchor,
            pipe.to.span,
        );
        Lowered {
            diags: out.diags + a + b,
            opinions: out.opinions.push(
                OpinionView::Edge(
                    EdgeView {
                        id: EdgeId::of((from->0, pipe.from.anchor), (to->0, pipe.to.anchor)),
                        from: (from->0, pipe.from.anchor),
                        to: (to->0, pipe.to.anchor),
                    },
                ),
            ),
        }
    } else {
        let a = if from is None {
            seq![unknown_in_pipe(pipe.from.part, pipe.from.span)]
        } else {
            Seq::empty()
        };
        let b = if to is None {
            seq![unknown_in_pipe(pipe.to.part, pipe.to.span)]
        } else {
            Seq::empty()
        };
        Lowered { diags: out.diags + a + b, ..out }
    }
}

pub open spec fn lowered_pipes(
    out: Lowered,
    lsg: LsgView,
    parts: Seq<PartView>,
    pipes: Seq<PipeView>,
) -> Lowered
    decreases pipes.len(),
{
    if pipes.len() == 0 {
        out
    } else {
        lowered_pipe(lowered_pipes(out, lsg, parts, pipes.drop_last()), lsg, parts, pipes.last())
    }
}

/// A scene lowered: its parts, then its pipes.
pub open spec fn lowered_scene(
    out: Lowered,
    lsg: LsgView,
    scene: SceneView,
    table: Seq<NumeralView>,
) -> Lowered {
    lowered_pipes(lowered_parts(out, lsg, scene.parts, table), lsg, scene.parts, scene.pipes)
}

/// What compiling a source gives.
pub struct CompileResult {
    pub scene_name: String,
    pub opinions: Vec<Opinion>,
    pub diagnostics: Vec<Diagnostic>,
}

pub struct CompileResultView {
    pub scene_name: Seq<char>,
    pub opinions: Seq<OpinionView>,
    pub diagnostics: Seq<DiagnosticView>,
}

impl View for CompileResult {
    type V = CompileResultView;

    open spec fn view(&self) -> CompileResultView {
        CompileResultView {
            scene_name: self.scene_name@,
            opinions: views(self.opinions@),
            diagnostics: views(self.diagnostics@),
        }
    }
}

/// How many of the messages are errors.
pub open spec fn errors_in(diags: Seq<DiagnosticView>) -> nat
    decreases diags.len(),
{
    if diags.len() == 0 {
        0
    } else {
        errors_in(diags.drop_last()) + if diags.last().is_error() {
            1nat
        } else {
            0
        }
    }
}

impl CompileResult {
    pub fn has_errors(&self) -> (b: bool)
        ensures
            b == (errors_in(self@.diagnostics) > 0),
    {
        self.error_count() > 0
    }

    pub fn error_count(&self) -> (n: usize)
        ensures
            n == errors_in(self@.diagnostics),
    {
        let mut n: usize = 0;
        let mut i: usize = 0;
        while i < self.diagnostics.len()
            invariant
                i <= self.diagnostics@.len(),
                n <= i,
                n == errors_in(views(self.diagnostics@).take(i as int)),
            decreases self.diagnostics@.len() - i,
        {
            if self.diagnostics[i].is_error() {
                n = n + 1;
            }
            i = i + 1;
            proof {
                let all = views(self.diagnostics@);
                assert(all.take(i as int).drop_last() =~= all.take(i - 1));
                assert(all.take(i as int).last() == self.diagnostics@[i - 1]@);
            }
        }
        proof {
            assert(views(self.diagnostics@).take(i as int) =~= views(self.diagnostics@));
        }
        n
    }
}

/// What compiling `source` against an index gives.
pub open spec fn compile_of(
    source: Seq<char>,
    lsg: LsgView,
    table: Seq<NumeralView>,
) -> CompileResultView {
    let lexed = lex_of(source);
    let (scene, diags) = parse_of(lexed.tokens, lexed.diags);
    match scene {
        None => CompileResultView {
            scene_name: Seq::empty(),
            opinions: Seq::empty(),
            diagnostics: diags,
        },
        Some(scene) => {
            let out = lowered_scene(
                Lowered { opinions: Seq::empty(), diags },
                lsg,
                scene,
                table,
            );
            CompileResultView {
                scene_name: scene.name,
                opinions: out.opinions,
                diagnostics: out.diags,
            }
        },
    }
}

/// The names declared on each entity by the first parts.
spec fn declared_ok(
    declared: Map<u64, Vec<String>>,
    lsg: LsgView,
    parts: Seq<PartView>,
    n: int,
) -> bool {
    forall|id: EntityId, name: Seq<char>| #[trigger]
        declared_has(declared, id, name) <==> declares(lsg, parts.take(n), id, name)
}

spec fn declared_has(declared: Map<u64, Vec<String>>, id: EntityId, name: Seq<char>) -> bool {
    declared.contains_key(id.0) && views(declared[id.0]@).contains(name)
}

/// Lowers the tags, metadata and bindings of a part around its anchors.
fn lower_part(
    part: &Part,
    id: EntityId,
    numerals: &[Numeral],
    opinions: &mut Vec<Opinion>,
)
    ensures
        views(final(opinions)@) == views(old(opinions)@) + part_opinions(
            id,
            part@,
            views(numerals@),
        ),
{
    broadcast use group_models;

    let ghost table = views(numerals@);
    let ghost o0 = views(opinions@);
    let ghost tags = part@.tags.map_values(|t: TagNode| tag_opinion(id, t));
    let ghost metas = part@.metas.map_values(|m: MetaNode| meta_opinion(id, m, table));
    let ghost anchors = part@.anchors.map_values(|a: AnchorNode| anchor_opinion(id, a, table));
    let ghost bindings = part@.bindings.map_values(
        |b: BindingNode| binding_opinion(id, b, table),
    );
    let mut i: usize = 0;
    proof {
        assert(o0 =~= o0 + tags.take(0));
    }
    while i < part.tags.len()
        invariant
            i <= part.tags@.len(),
            tags == part@.tags.map_values(|t: TagNode| tag_opinion(id, t)),
            views(opinions@) == o0 + tags.take(i as int),
        decreases part.tags@.len() - i,
    {
        opinions.push(Opinion::Tag { entity: id, tag: part.tags[i].value.clone() });
        i = i + 1;
        proof {
            assert(tags[i - 1] == tag_opinion(id, part.tags@[i - 1]@));
            assert(o0 + tags.take(i as int) =~= (o0 + tags.take(i - 1)).push(tags[i - 1]));
        }
    }
    let ghost o1 = o0 + tags;
    proof {
        assert(tags.take(i as int) =~= tags);
        assert(o1 =~= o1 + metas.take(0));
    }
    i = 0;
    while i < part.metas.len()
        invariant
            i <= part.metas@.len(),
            table == views(numerals@),
            metas == part@.metas.map_values(|m: MetaNode| meta_opinion(id, m, table)),
            views(opinions@) == o1 + metas.take(i as int),
        decreases part.metas@.len() - i,
    {
        let value = match &part.metas[i].value {
            MetaValue::Text(s) => s.clone(),
            MetaValue::Number(s) => find_numeral(numerals, s).shown,
        };
        opinions.push(Opinion::Meta { entity: id, key: part.metas[i].key.clone(), value });
        i = i + 1;
        proof {
            assert(metas[i - 1] == meta_opinion(id, part.metas@[i - 1]@, table));
            assert(o1 + metas.take(i as int) =~= (o1 + metas.take(i - 1)).push(metas[i - 1]));
        }
    }
    let ghost o2 = o1 + metas;
    proof {
        assert(metas.take(i as int) =~= metas);
        assert(o2 =~= o2 + anchors.take(0));
    }
    i = 0;
    while i < part.anchors.len()
        invariant
            i <= part.anchors@.len(),
            table == views(numerals@),
            anchors == part@.anchors.map_values(|a: AnchorNode| anchor_opinion(id, a, table)),
            views(opinions@) == o2 + anchors.take(i as int),
        decreases part.anchors@.len() - i,
    {
        let a = &part.anchors[i];
        let x = find_numeral(numerals, &a.x).value;
        let y = find_numeral(numerals, &a.y).value;
        let z = find_numeral(numerals, &a.z).value;
        let pos = [x, y, z];
        proof {
            assert(pos@ =~= seq![x, y, z]);
        }
        opinions.push(
            Opinion::Anchor(
                Anchor {
                    id: AnchorId::new(id, a.name.as_str()),
                    entity: id,
                    name: a.name.clone(),
                    pos,
                },
            ),
        );
        i = i + 1;
        proof {
            assert(anchors[i - 1] == anchor_opinion(id, part.anchors@[i - 1]@, table));
            assert(o2 + anchors.take(i as int) =~= (o2 + anchors.take(i - 1)).push(
                anchors[i - 1],
            ));
        }
    }
    let ghost o3 = o2 + anchors;
    proof {
        assert(anchors.take(i as int) =~= anchors);
        assert(o3 =~= o3 + bindings.take(0));
    }
    i = 0;
    while i < part.bindings.len()
        invariant
            i <= part.bindings@.len(),
            table == views(numerals@),
            bindings == part@.bindings.map_values(|b: BindingNode| binding_opinion(id, b, table)),
            views(opinions@) == o3 + bindings.take(i as int),
        decreases part.bindings@.len() - i,
    {
        let binding = lower_binding(&part.bindings[i], numerals);
        opinions.push(Opinion::Binding { entity: id, binding });
        i = i + 1;
        proof {
            assert(bindings[i - 1] == binding_opinion(id, part.bindings@[i - 1]@, table));
            assert(o3 + bindings.take(i as int) =~= (o3 + bindings.take(i - 1)).push(
                bindings[i - 1],
            ));
        }
    }
    proof {
        assert(bindings.take(i as int) =~= bindings);
        assert(o3 + bindings =~= o0 + part_opinions(id, part@, table));
    }
}

fn lower_binding(b: &Binding, numerals: &[Numeral]) -> (r: TelemetryBinding)
    ensures
        forall|id: EntityId| #[trigger]
            binding_opinion(id, b@, views(numerals@)) == (OpinionView::Binding {
                entity: id,
                binding: r@,
            }),
{
    let unit = match &b.unit {
        Some(u) => u.clone(),
        None => String::new(),
    };
    let ttl_ms = match &b.ttl_ms {
        Some(t) => find_numeral(numerals, t).value,
        None => Double::from_bits(0x40b3_8800_0000_0000),
    };
    let priority = match &b.priority {
        Some(p) => p.clone(),
        None => "background".to_owned(),
    };
    TelemetryBinding {
        attribute: b.attribute.clone(),
        source_id: "victoriametrics".to_owned(),
        query: b.query.clone(),
        unit,
        ttl_ms,
        priority,
        quality_policy: "stale_ok".to_owned(),
    }
}

/// Notes the anchors that a part declares on the entity that it selects.
fn note_anchors(declared: &mut IdMap<Vec<String>>, part: &Part, id: EntityId)
    ensures
        forall|e: EntityId, name: Seq<char>| #[trigger]
            declared_has(final(declared)@, e, name) <==> declared_has(old(declared)@, e, name) || (e
                == id && exists|j: int|
                0 <= j < part@.anchors.len() && (#[trigger] part@.anchors[j]).name == name),
{
    broadcast use group_models;

    let mut i: usize = 0;
    while i < part.anchors.len()
        invariant
            i <= part.anchors@.len(),
            forall|e: EntityId, name: Seq<char>| #[trigger]
                declared_has(declared@, e, name) <==> declared_has(old(declared)@, e, name) || (e
                    == id && exists|j: int|
                    0 <= j < i && (#[trigger] part@.anchors[j]).name == name),
        decreases part.anchors@.len() - i,
    {
        let ghost before = declared@;
        let mut names = match declared.remove(id.0) {
            Some(names) => names,
            None => Vec::new(),
        };
        let ghost n0 = views(names@);
        names.push(part.anchors[i].name.clone());
        declared.insert(id.0, names);
        proof {
            let new = part@.anchors[i as int].name;
            assert(new == part.anchors@[i as int].name@);
            assert(views(names@) =~= n0.push(new));
            assert forall|e: EntityId, name: Seq<char>| #[trigger]
                declared_has(declared@, e, name) <==> declared_has(old(declared)@, e, name) || (e
                    == id && exists|j: int|
                    0 <= j < i + 1 && (#[trigger] part@.anchors[j]).name == name) by {
                assert(declared_has(before, e, name) <==> declared_has(old(declared)@, e, name)
                    || (e == id && exists|j: int|
                    0 <= j < i && (#[trigger] part@.anchors[j]).name == name));
                if e == id {
                    if n0.contains(name) {
                        let x = choose|x: int| 0 <= x < n0.len() && n0[x] == name;
                        assert(views(names@)[x] == name);
                    }
                    if views(names@).contains(name) {
                        let x = choose|x: int|
                            0 <= x < views(names@).len() && views(names@)[x] == name;
                        if x < n0.len() {
                            assert(n0[x] == name);
                        }
                    }
                    assert(views(names@)[n0.len() as int] == new);
                } else {
                    assert(e.0 != id.0);
                }
            }
        }
        i = i + 1;
    }
}

/// Is an anchor of that name declared on that entity?
fn is_declared(declared: &IdMap<Vec<String>>, id: EntityId, name: &String) -> (b: bool)
    ensures
        b == declared_has(declared@, id, name@),
{
    match declared.get(id.0) {
        Some(names) => contains_text(names, name.as_str()),
        None => false,
    }
}

/// The warning about an end of a pipe whose anchor no part declares.
fn warn_undeclared(
    known: bool,
    side: &str,
    anchor: &String,
    span: Span,
    diagnostics: &mut Vec<Diagnostic>,
)
    ensures
        views(final(diagnostics)@) == views(old(diagnostics)@) + end_warning(
            known,
            side@,
            anchor@,
            span,
        ),
{
    broadcast use group_models;

    if !known {
        let rest = cat3(
            " anchor `",
            anchor.as_str(),
            "` was not declared with an `anchor` statement",
        );
        diagnostics.push(Diagnostic::warning(cat3("pipe ", side, rest.as_str()), span));
    }
    proof {
        assert(views(diagnostics@) =~= views(old(diagnostics)@) + end_warning(
            known,
            side@,
            anchor@,
            span,
        ));
    }
}

fn lower_pipe(
    pipe: &Pipe,
    lsg: &Lsg,
    Ghost(parts): Ghost<Seq<PartView>>,
    declared: &IdMap<Vec<String>>,
    opinions: &mut Vec<Opinion>,
    diagnostics: &mut Vec<Diagnostic>,
)
    requires
        lsg.wf(),
        declared_ok(declared@, lsg@, parts, parts.len() as int),
    ensures
        (Lowered { opinions: views(final(opinions)@), diags: views(final(diagnostics)@) })
            == lowered_pipe(
            Lowered { opinions: views(old(opinions)@), diags: views(old(diagnostics)@) },
            lsg@,
            parts,
            pipe@,
        ),
{
    broadcast use group_models;

    let from = match lsg.resolve_selector(pipe.from.part.as_str()) {
        Some(e) => Some(e.id),
        None => None,
    };
    let to = match lsg.resolve_selector(pipe.to.part.as_str()) {
        Some(e) => Some(e.id),
        None => None,
    };
    proof {
        assert(from == lsg@.selected(pipe@.from.part));
        assert(to == lsg@.selected(pipe@.to.part));
        assert(parts.take(parts.len() as int) =~= parts);
    }
    let ghost d0 = views(diagnostics@);
    match (from, to) {
        (Some(from_id), Some(to_id)) => {
            let from_known = is_declared(declared, from_id, &pipe.from.anchor);
            let to_known = is_declared(declared, to_id, &pipe.to.anchor);
            proof {
                assert(from_known == declares(lsg@, parts, from_id, pipe@.from.anchor));
                assert(to_known == declares(lsg@, parts, to_id, pipe@.to.anchor));
            }
            warn_undeclared(from_known, "from", &pipe.from.anchor, pipe.from.span, diagnostics);
            warn_undeclared(to_known, "to", &pipe.to.anchor, pipe.to.span, diagnostics);
            opinions.push(
                Opinion::Edge(
                    Edge {
                        id: EdgeId::new(
                            (from_id, pipe.from.anchor.as_str()),
                            (to_id, pipe.to.anchor.as_str()),
                        ),
                        from: (from_id, pipe.from.anchor.clone()),
                        to: (to_id, pipe.to.anchor.clone()),
                    },
                ),
            );
        },
        _ => {
            if from.is_none() {
                diagnostics.push(
                    Diagnostic::error(
                        cat3("unknown part `", pipe.from.part.as_str(), "` in pipe"),
                        pipe.from.span,
                    ),
                );
            }
            if to.is_none() {
                diagnostics.push(
                    Diagnostic::error(
                        cat3("unknown part `", pipe.to.part.as_str(), "` in pipe"),
                        pipe.to.span,
                    ),
                );
            }
            proof {
                let out = lowered_pipe(
                    Lowered { opinions: views(old(opinions)@), diags: d0 },
                    lsg@,
                    parts,
                    pipe@,
                );
                assert(views(diagnostics@) =~= out.diags);
            }
        },
    }
}

/// Lowers a scene behind the opinions and messages that are there.
pub fn lower_scene(
    scene: &Scene,
    lsg: &Lsg,
    numerals: &[Numeral],
    opinions: &mut Vec<Opinion>,
    diagnostics: &mut Vec<Diagnostic>,
)
    requires
        lsg.wf(),
    ensures
        (Lowered { opinions: views(final(opinions)@), diags: views(final(diagnostics)@) })
            == lowered_scene(
            Lowered { opinions: views(old(opinions)@), diags: views(old(diagnostics)@) },
            lsg@,
            scene@,
            views(numerals@),
        ),
{
    broadcast use group_models;

    let ghost out0 = Lowered { opinions: views(opinions@), diags: views(diagnostics@) };
    let ghost table = views(numerals@);
    let ghost parts = scene@.parts;
    let ghost pipes = scene@.pipes;
    let mut declared: IdMap<Vec<String>> = IdMap::new();
    let mut i: usize = 0;
    while i < scene.parts.len()
        invariant
            i <= scene.parts@.len(),
            lsg.wf(),
            parts == views(scene.parts@),
            table == views(numerals@),
            (Lowered { opinions: views(opinions@), diags: views(diagnostics@) }) == lowered_parts(
                out0,
                lsg@,
                parts.take(i as int),
                table,
            ),
            declared_ok(declared@, lsg@, parts, i as int),
        decreases scene.parts@.len() - i,
    {
        let part = &scene.parts[i];
        let ghost before = declared@;
        let ghost prior = Lowered { opinions: views(opinions@), diags: views(diagnostics@) };
        proof {
            assert(parts.take(i + 1).drop_last() =~= parts.take(i as int));
            assert(parts.take(i + 1).last() == part@);
        }
        match lsg.resolve_selector(part.selector.as_str()) {
            Some(e) => {
                let id = e.id;
                proof {
                    assert(lsg@.selected(part@.selector) == Some(id));
                }
                note_anchors(&mut declared, part, id);
                lower_part(part, id, numerals, opinions);
            },
            None => {
                diagnostics.push(
                    Diagnostic::error(
                        cat3(
                            "unknown part `",
                            part.selector.as_str(),
                            "` (no matching asset tag or prim path in the scene)",
                        ),
                        part.selector_span,
                    ),
                );
            },
        }
        proof {
            let now = Lowered { opinions: views(opinions@), diags: views(diagnostics@) };
            assert(now.opinions == lowered_part(prior, lsg@, part@, table).opinions);
            assert(now.diags == lowered_part(prior, lsg@, part@, table).diags);
            assert forall|id: EntityId, name: Seq<char>| #[trigger]
                declared_has(declared@, id, name) <==> declares(
                lsg@,
                parts.take(i + 1),
                id,
                name,
            ) by {
                let a = parts.take(i as int);
                let b = parts.take(i + 1);
                assert(declared_has(before, id, name) <==> declares(lsg@, a, id, name));
                if declares(lsg@, a, id, name) {
                    let (x, y) = choose|x: int, y: int|
                        0 <= x < a.len() && 0 <= y < a[x].anchors.len() && lsg@.selected(
                            a[x].selector,
                        ) == Some(id) && (#[trigger] a[x].anchors[y]).name == name;
                    assert(b[x].anchors[y].name == name);
                }
                if declares(lsg@, b, id, name) {
                    let (x, y) = choose|x: int, y: int|
                        0 <= x < b.len() && 0 <= y < b[x].anchors.len() && lsg@.selected(
                            b[x].selector,
                        ) == Some(id) && (#[trigger] b[x].anchors[y]).name == name;
                    if x < i {
                        assert(a[x].anchors[y].name == name);
                    } else {
                        assert(part@.anchors[y].name == name);
                    }
                }
                if lsg@.selected(part@.selector) == Some(id) && exists|j: int|
                    0 <= j < part@.anchors.len() && (#[trigger] part@.anchors[j]).name == name {
                    let y = choose|y: int|
                        0 <= y < part@.anchors.len() && (#[trigger] part@.anchors[y]).name == name;
                    assert(b[i as int].anchors[y].name == name);
                }
            }
        }
        i = i + 1;
    }
    proof {
        assert(parts.take(i as int) =~= parts);
    }
    let ghost out1 = lowered_parts(out0, lsg@, parts, table);
    let mut j: usize = 0;
    while j < scene.pipes.len()
        invariant
            j <= scene.pipes@.len(),
            lsg.wf(),
            pipes == views(scene.pipes@),
            declared_ok(declared@, lsg@, parts, parts.len() as int),
            (Lowered { opinions: views(opinions@), diags: views(diagnostics@) }) == lowered_pipes(
                out1,
                lsg@,
                parts,
                pipes.take(j as int),
            ),
        decreases scene.pipes@.len() - j,
    {
        proof {
            assert(pipes.take(j + 1).drop_last() =~= pipes.take(j as int));
            assert(pipes.take(j + 1).last() == scene.pipes@[j as int]@);
        }
        lower_pipe(&scene.pipes[j], lsg, Ghost(parts), &declared, opinions, diagnostics);
        j = j + 1;
    }
    proof {
        assert(pipes.take(j as int) =~= pipes);
    }
}

/// Compiles a source against the index. `numerals` says what its numerals stand
/// for (see [`numerals`]).
pub fn compile(source: &str, lsg: &Lsg, numerals: &[Numeral]) -> (r: CompileResult)
    requires
        encode_utf8(source@).len() < u32::MAX,
        lsg.wf(),
    ensures
        r@ == compile_of(source@, lsg@, views(numerals@)),
{
    proof {
        law_tokens_are_closed_and_in_order(source@);
    }
    let (tokens, lex_diags) = lex(source);
    let (scene, diags) = parse(tokens, lex_diags);
    let mut diagnostics = diags;
    let mut opinions: Vec<Opinion> = Vec::new();
    proof {
        assert(views(opinions@) =~= Seq::empty());
    }
    match scene {
        None => CompileResult { scene_name: String::new(), opinions, diagnostics },
        Some(scene) => {
            lower_scene(&scene, lsg, numerals, &mut opinions, &mut diagnostics);
            CompileResult { scene_name: scene.name, opinions, diagnostics }
        },
    }
}

// ---------------------------------------------------------------------------
// What holds of every compilation.

pub open spec fn one_if(b: bool) -> nat {
    if b {
        1
    } else {
        0
    }
}

/// How many parts select nothing.
pub open spec fn unresolved_parts(lsg: LsgView, parts: Seq<PartView>) -> nat
    decreases parts.len(),
{
    if parts.len() == 0 {
        0
    } else {
        unresolved_parts(lsg, parts.drop_last()) + one_if(
            lsg.selected(parts.last().selector) is None,
        )
    }
}

/// How many ends of pipes select nothing.
pub open spec fn unresolved_ends(lsg: LsgView, pipes: Seq<PipeView>) -> nat
    decreases pipes.len(),
{
    if pipes.len() == 0 {
        0
    } else {
        unresolved_ends(lsg, pipes.drop_last()) + one_if(
            lsg.selected(pipes.last().from.part) is None,
        ) + one_if(lsg.selected(pipes.last().to.part) is None)
    }
}

proof fn lemma_errors_push(diags: Seq<DiagnosticView>, d: DiagnosticView)
    ensures
        errors_in(diags.push(d)) == errors_in(diags) + one_if(d.is_error()),
{
    assert(diags.push(d).drop_last() =~= diags);
}

proof fn lemma_part_errors(
    out: Lowered,
    lsg: LsgView,
    parts: Seq<PartView>,
    table: Seq<NumeralView>,
)
    ensures
        errors_in(lowered_parts(out, lsg, parts, table).diags) == errors_in(out.diags)
            + unresolved_parts(lsg, parts),
        out.diags.is_prefix_of(lowered_parts(out, lsg, parts, table).diags),
    decreases parts.len(),
{
    if parts.len() > 0 {
        lemma_part_errors(out, lsg, parts.drop_last(), table);
        let before = lowered_parts(out, lsg, parts.drop_last(), table);
        lemma_errors_push(
            before.diags,
            unknown_part(parts.last().selector, parts.last().selector_span),
        );
    }
}

proof fn lemma_pipe_errors(
    out: Lowered,
    lsg: LsgView,
    parts: Seq<PartView>,
    pipes: Seq<PipeView>,
)
    ensures
        errors_in(lowered_pipes(out, lsg, parts, pipes).diags) == errors_in(out.diags)
            + unresolved_ends(lsg, pipes),
        out.diags.is_prefix_of(lowered_pipes(out, lsg, parts, pipes).diags),
    decreases pipes.len(),
{
    if pipes.len() > 0 {
        lemma_pipe_errors(out, lsg, parts, pipes.drop_last());
        let before = lowered_pipes(out, lsg, parts, pipes.drop_last());
        let after = lowered_pipe(before, lsg, parts, pipes.last());
        let pipe = pipes.last();
        let d = before.diags;
        let (a, b) = if lsg.selected(pipe.from.part) is Some && lsg.selected(pipe.to.part) is Some {
            (
                undeclared("from"@, pipe.from.anchor, pipe.from.span),
                undeclared("to"@, pipe.to.anchor, pipe.to.span),
            )
        } else {
            (
                unknown_in_pipe(pipe.from.part, pipe.from.span),
                unknown_in_pipe(pipe.to.part, pipe.to.span),
            )
        };
        lemma_errors_push(d, a);
        lemma_errors_push(d, b);
        lemma_errors_push(d.push(a), b);
        assert(d + seq![a] + seq![b] =~= d.push(a).push(b));
        assert(d + Seq::empty() + seq![b] =~= d.push(b));
        assert(d + seq![a] + Seq::empty() =~= d.push(a));
        assert(d + Seq::<DiagnosticView>::empty() + Seq::empty() =~= d);
        assert(d.is_prefix_of(after.diags));
    }
}

/// Lowering reports one error for each part, and each end of a pipe, that selects
/// nothing, and no other error: an anchor that nothing declares is a warning. It
/// keeps the messages that were there.
pub proof fn law_errors_are_unknown_parts(
    out: Lowered,
    lsg: LsgView,
    scene: SceneView,
    table: Seq<NumeralView>,
)
    ensures
        errors_in(lowered_scene(out, lsg, scene, table).diags) == errors_in(out.diags)
            + unresolved_parts(lsg, scene.parts) + unresolved_ends(lsg, scene.pipes),
        out.diags.is_prefix_of(lowered_scene(out, lsg, scene, table).diags),
{
    lemma_part_errors(out, lsg, scene.parts, table);
    let mid = lowered_parts(out, lsg, scene.parts, table);
    lemma_pipe_errors(mid, lsg, scene.parts, scene.pipes);
}

} // verus!
