//! What lowering a scene comes to: which opinions and messages it gives, told from
//! the source alone.

use super::ast::{EndpointView, MetaValueView, PartView, PipeView, SceneView};
use super::compile::{
    anchor_opinion, binding_opinion, declares, lowered_parts, lowered_pipe,
    lowered_pipes, lowered_scene, meta_opinion, numeral_of, part_opinions, tag_opinion, Lowered,
    NumeralView,
};
use super::diag::{DiagnosticView, Severity};
use crate::lsg::{AnchorId, AnchorView, EdgeId, EntityId, LsgView};
use crate::opinion::OpinionView;
use crate::scalar::Double;
use vstd::prelude::*;
use vstd::string::*;

verus! {

/// An edge that runs as a pipe does: from the entity and the anchor on its left to
/// those on its right, under the id of its own two ends.
pub open spec fn runs_as(op: OpinionView, lsg: LsgView, pipe: PipeView) -> bool {
    op matches OpinionView::Edge(e) && {
        &&& lsg.selected(pipe.from.part) == Some(e.from.0)
        &&& e.from.1 == pipe.from.anchor
        &&& lsg.selected(pipe.to.part) == Some(e.to.0)
        &&& e.to.1 == pipe.to.anchor
        &&& e.id == EdgeId::of(e.from, e.to)
    }
}

/// Both ends of a pipe lead to entities.
pub open spec fn joins_entities(lsg: LsgView, pipe: PipeView) -> bool {
    lsg.selected(pipe.from.part) is Some && lsg.selected(pipe.to.part) is Some
}

proof fn lemma_pipe_edges(out: Lowered, lsg: LsgView, parts: Seq<PartView>, pipes: Seq<PipeView>)
    ensures
        ({
            let ops = lowered_pipes(out, lsg, parts, pipes).opinions;
            &&& out.opinions.is_prefix_of(ops)
            &&& forall|k: int|
                0 <= k < pipes.len() && joins_entities(lsg, #[trigger] pipes[k]) ==> exists|j: int|
                    out.opinions.len() <= j < ops.len() && #[trigger] runs_as(
                        ops[j],
                        lsg,
                        pipes[k],
                    )
            &&& forall|j: int|
                out.opinions.len() <= j < ops.len() ==> (#[trigger] ops[j]) is Edge && exists|
                    k: int,
                |
                    0 <= k < pipes.len() && #[trigger] runs_as(ops[j], lsg, pipes[k])
        }),
    decreases pipes.len(),
{
    if pipes.len() > 0 {
        let init = pipes.drop_last();
        let last = pipes.last();
        lemma_pipe_edges(out, lsg, parts, init);
        let before = lowered_pipes(out, lsg, parts, init).opinions;
        let ops = lowered_pipes(out, lsg, parts, pipes).opinions;
        let n = out.opinions.len();
        assert(before.is_prefix_of(ops));
        if joins_entities(lsg, last) {
            assert(runs_as(ops[before.len() as int], lsg, pipes[pipes.len() - 1]));
        }
        assert forall|k: int|
            0 <= k < pipes.len() && joins_entities(lsg, #[trigger] pipes[k]) implies exists|j: int|
            n <= j < ops.len() && #[trigger] runs_as(ops[j], lsg, pipes[k]) by {
            if k < init.len() {
                assert(init[k] == pipes[k]);
                let j = choose|j: int|
                    n <= j < before.len() && #[trigger] runs_as(before[j], lsg, init[k]);
                assert(runs_as(ops[j], lsg, pipes[k]));
            }
        }
        assert forall|j: int| n <= j < ops.len() implies (#[trigger] ops[j]) is Edge && exists|
            k: int,
        |
            0 <= k < pipes.len() && #[trigger] runs_as(ops[j], lsg, pipes[k]) by {
            if j < before.len() {
                assert(before[j] == ops[j]);
                let k = choose|k: int|
                    0 <= k < init.len() && #[trigger] runs_as(before[j], lsg, init[k]);
                assert(runs_as(ops[j], lsg, pipes[k]));
            }
        }
    }
}

proof fn lemma_no_edges(out: Lowered, lsg: LsgView, parts: Seq<PartView>, table: Seq<NumeralView>)
    ensures
        ({
            let ops = lowered_parts(out, lsg, parts, table).opinions;
            &&& out.opinions.is_prefix_of(ops)
            &&& forall|j: int|
                out.opinions.len() <= j < ops.len() ==> !((#[trigger] ops[j]) is Edge)
        }),
    decreases parts.len(),
{
    if parts.len() > 0 {
        lemma_no_edges(out, lsg, parts.drop_last(), table);
        let before = lowered_parts(out, lsg, parts.drop_last(), table).opinions;
        let ops = lowered_parts(out, lsg, parts, table).opinions;
        assert(before.is_prefix_of(ops));
        assert forall|j: int| out.opinions.len() <= j < ops.len() implies !((
        #[trigger] ops[j]) is Edge) by {
            if j < before.len() {
                assert(before[j] == ops[j]);
            }
        }
    }
}

/// A pipe `A.x -> B.y` whose two selectors lead to entities becomes an edge that
/// runs from the first entity and `x` to the second and `y`, under the id of these
/// two ends; and every edge that a scene is lowered to comes from such a pipe.
pub proof fn law_pipes_become_edges(
    out: Lowered,
    lsg: LsgView,
    scene: SceneView,
    table: Seq<NumeralView>,
)
    ensures
        ({
            let ops = lowered_scene(out, lsg, scene, table).opinions;
            let n = out.opinions.len();
            &&& out.opinions.is_prefix_of(ops)
            &&& forall|k: int|
                0 <= k < scene.pipes.len() && joins_entities(lsg, #[trigger] scene.pipes[k])
                    ==> exists|j: int|
                    n <= j < ops.len() && #[trigger] runs_as(ops[j], lsg, scene.pipes[k])
            &&& forall|j: int|
                n <= j < ops.len() && (#[trigger] ops[j]) is Edge ==> exists|k: int|
                    0 <= k < scene.pipes.len() && #[trigger] runs_as(
                        ops[j],
                        lsg,
                        scene.pipes[k],
                    )
            &&& forall|j: int|
                n <= j < ops.len() ==> ((#[trigger] ops[j]) matches OpinionView::Edge(e) ==> e.id
                    == EdgeId::of(e.from, e.to))
        }),
{
    let mid = lowered_parts(out, lsg, scene.parts, table);
    let ops = lowered_scene(out, lsg, scene, table).opinions;
    let n = out.opinions.len();
    lemma_no_edges(out, lsg, scene.parts, table);
    lemma_pipe_edges(mid, lsg, scene.parts, scene.pipes);
    assert forall|k: int|
        0 <= k < scene.pipes.len() && joins_entities(
            lsg,
            #[trigger] scene.pipes[k],
        ) implies exists|j: int|
        n <= j < ops.len() && #[trigger] runs_as(ops[j], lsg, scene.pipes[k]) by {
        let j = choose|j: int|
            mid.opinions.len() <= j < ops.len() && #[trigger] runs_as(ops[j], lsg, scene.pipes[k]);
        assert(n <= j);
    }
    assert forall|j: int| n <= j < ops.len() && (#[trigger] ops[j]) is Edge implies exists|k: int|
        0 <= k < scene.pipes.len() && #[trigger] runs_as(ops[j], lsg, scene.pipes[k]) by {
        if j < mid.opinions.len() {
            assert(mid.opinions[j] == ops[j]);
        }
    }
}

// ---------------------------------------------------------------------------
// Parts.

/// The opinion is one of those that the statements of a part give.
pub open spec fn said_in(op: OpinionView, id: EntityId, part: PartView, table: Seq<NumeralView>) -> bool {
    match op {
        OpinionView::Tag { entity, tag } => entity == id && exists|j: int|
            0 <= j < part.tags.len() && (#[trigger] part.tags[j]).value == tag,
        OpinionView::Meta { entity, key, value } => entity == id && exists|j: int|
            0 <= j < part.metas.len() && (#[trigger] part.metas[j]).key == key && (
            match part.metas[j].value {
                MetaValueView::Text(s) => value == s,
                MetaValueView::Number(s) => value == numeral_of(table, s).shown,
            }),
        OpinionView::Anchor(a) => {
            &&& a.entity == id
            &&& a.id == AnchorId::of(a.entity, a.name)
            &&& a.pos.len() == 3
            &&& exists|j: int|
                0 <= j < part.anchors.len() && (#[trigger] part.anchors[j]).name == a.name
                    && a.pos[0] == numeral_of(table, part.anchors[j].x).value && a.pos[1]
                    == numeral_of(table, part.anchors[j].y).value && a.pos[2] == numeral_of(
                    table,
                    part.anchors[j].z,
                ).value
        },
        OpinionView::Binding { entity, binding } => {
            &&& entity == id
            &&& binding.source_id == "victoriametrics"@
            &&& binding.quality_policy == "stale_ok"@
            &&& exists|j: int|
                {
                    &&& 0 <= j < part.bindings.len()
                    &&& (#[trigger] part.bindings[j]).attribute == binding.attribute
                    &&& part.bindings[j].query == binding.query
                    &&& match part.bindings[j].unit {
                        Some(u) => binding.unit == u,
                        None => binding.unit.len() == 0,
                    }
                    &&& match part.bindings[j].ttl_ms {
                        Some(t) => binding.ttl_ms == numeral_of(table, t).value,
                        None => binding.ttl_ms == (Double { bits: 0x40b3_8800_0000_0000 }),
                    }
                    &&& match part.bindings[j].priority {
                        Some(p) => binding.priority == p,
                        None => binding.priority == "background"@,
                    }
                }
        },
        OpinionView::Edge(_) => false,
    }
}

/// How many statements a part has.
pub open spec fn statements(part: PartView) -> nat {
    part.tags.len() + part.metas.len() + part.anchors.len() + part.bindings.len()
}

/// How many statements the parts have that select an entity.
pub open spec fn live_statements(lsg: LsgView, parts: Seq<PartView>) -> nat
    decreases parts.len(),
{
    if parts.len() == 0 {
        0
    } else {
        live_statements(lsg, parts.drop_last()) + if lsg.selected(parts.last().selector) is Some {
            statements(parts.last())
        } else {
            0
        }
    }
}

proof fn lemma_part_says(id: EntityId, part: PartView, table: Seq<NumeralView>)
    ensures
        ({
            let ops = part_opinions(id, part, table);
            &&& ops.len() == statements(part)
            &&& forall|j: int| 0 <= j < ops.len() ==> said_in(#[trigger] ops[j], id, part, table)
            &&& forall|j: int|
                0 <= j < part.tags.len() ==> ops.contains(
                    tag_opinion(id, #[trigger] part.tags[j]),
                )
            &&& forall|j: int|
                0 <= j < part.metas.len() ==> ops.contains(
                    meta_opinion(id, #[trigger] part.metas[j], table),
                )
            &&& forall|j: int|
                0 <= j < part.anchors.len() ==> ops.contains(
                    anchor_opinion(id, #[trigger] part.anchors[j], table),
                )
            &&& forall|j: int|
                0 <= j < part.bindings.len() ==> ops.contains(
                    binding_opinion(id, #[trigger] part.bindings[j], table),
                )
        }),
{
    let ops = part_opinions(id, part, table);
    let a = part.tags.len() as int;
    let b = a + part.metas.len();
    let c = b + part.anchors.len();
    assert forall|j: int| 0 <= j < ops.len() implies said_in(#[trigger] ops[j], id, part, table) by {
        if j < a {
            assert(ops[j] == tag_opinion(id, part.tags[j]));
        } else if j < b {
            assert(ops[j] == meta_opinion(id, part.metas[j - a], table));
        } else if j < c {
            assert(ops[j] == anchor_opinion(id, part.anchors[j - b], table));
        } else {
            assert(ops[j] == binding_opinion(id, part.bindings[j - c], table));
        }
    }
    assert forall|j: int| 0 <= j < part.tags.len() implies ops.contains(
        tag_opinion(id, #[trigger] part.tags[j]),
    ) by {
        assert(ops[j] == tag_opinion(id, part.tags[j]));
    }
    assert forall|j: int| 0 <= j < part.metas.len() implies ops.contains(
        meta_opinion(id, #[trigger] part.metas[j], table),
    ) by {
        assert(ops[a + j] == meta_opinion(id, part.metas[j], table));
    }
    assert forall|j: int| 0 <= j < part.anchors.len() implies ops.contains(
        anchor_opinion(id, #[trigger] part.anchors[j], table),
    ) by {
        assert(ops[b + j] == anchor_opinion(id, part.anchors[j], table));
    }
    assert forall|j: int| 0 <= j < part.bindings.len() implies ops.contains(
        binding_opinion(id, #[trigger] part.bindings[j], table),
    ) by {
        assert(ops[c + j] == binding_opinion(id, part.bindings[j], table));
    }
}

/// A part selects the entity of an opinion and says it.
pub open spec fn said_by_part(
    op: OpinionView,
    lsg: LsgView,
    parts: Seq<PartView>,
    i: int,
    table: Seq<NumeralView>,
) -> bool {
    &&& 0 <= i < parts.len()
    &&& lsg.selected(parts[i].selector) matches Some(id) && said_in(op, id, parts[i], table)
}

/// Some part selects the entity of an opinion and says it.
pub open spec fn said_somewhere(
    op: OpinionView,
    lsg: LsgView,
    parts: Seq<PartView>,
    table: Seq<NumeralView>,
) -> bool {
    exists|i: int| #[trigger] said_by_part(op, lsg, parts, i, table)
}

/// All opinions of a part stand behind the first `n`.
spec fn all_there(
    ops: Seq<OpinionView>,
    n: int,
    id: EntityId,
    part: PartView,
    table: Seq<NumeralView>,
) -> bool {
    forall|op: OpinionView|
        part_opinions(id, part, table).contains(op) ==> #[trigger] ops.skip(n).contains(op)
}

proof fn lemma_parts_say(out: Lowered, lsg: LsgView, parts: Seq<PartView>, table: Seq<NumeralView>)
    ensures
        ({
            let ops = lowered_parts(out, lsg, parts, table).opinions;
            let n = out.opinions.len();
            &&& out.opinions.is_prefix_of(ops)
            &&& ops.len() == n + live_statements(lsg, parts)
            &&& forall|j: int|
                n <= j < ops.len() ==> said_somewhere(#[trigger] ops[j], lsg, parts, table)
            &&& forall|i: int|
                0 <= i < parts.len() && lsg.selected((#[trigger] parts[i]).selector) is Some
                    ==> all_there(
                    ops,
                    n as int,
                    lsg.selected(parts[i].selector)->0,
                    parts[i],
                    table,
                )
        }),
    decreases parts.len(),
{
    let ops = lowered_parts(out, lsg, parts, table).opinions;
    let n = out.opinions.len();
    if parts.len() > 0 {
        let init = parts.drop_last();
        let last = parts.last();
        lemma_parts_say(out, lsg, init, table);
        let before = lowered_parts(out, lsg, init, table).opinions;
        assert(before.is_prefix_of(ops));
        if let Some(id) = lsg.selected(last.selector) {
            lemma_part_says(id, last, table);
        }
        assert forall|j: int| n <= j < ops.len() implies said_somewhere(
            #[trigger] ops[j],
            lsg,
            parts,
            table,
        ) by {
            if j < before.len() {
                assert(before[j] == ops[j]);
                let i = choose|i: int| #[trigger] said_by_part(before[j], lsg, init, i, table);
                assert(said_by_part(ops[j], lsg, parts, i, table));
            } else {
                let id = lsg.selected(last.selector)->0;
                assert(ops[j] == part_opinions(id, last, table)[j - before.len()]);
                assert(said_by_part(ops[j], lsg, parts, parts.len() - 1, table));
            }
        }
        assert forall|i: int|
            0 <= i < parts.len() && lsg.selected(
                (#[trigger] parts[i]).selector,
            ) is Some implies all_there(
            ops,
            n as int,
            lsg.selected(parts[i].selector)->0,
            parts[i],
            table,
        ) by {
            assert forall|op: OpinionView|
                part_opinions(lsg.selected(parts[i].selector)->0, parts[i], table).contains(
                    op,
                ) implies #[trigger] ops.skip(n as int).contains(op) by {
                if i < init.len() {
                    assert(init[i] == parts[i]);
                    assert(all_there(
                        before,
                        n as int,
                        lsg.selected(init[i].selector)->0,
                        init[i],
                        table,
                    ));
                    assert(before.skip(n as int).contains(op));
                    let j = choose|j: int|
                        0 <= j < before.skip(n as int).len() && before.skip(n as int)[j] == op;
                    assert(ops.skip(n as int)[j] == op);
                } else {
                    let mine = part_opinions(lsg.selected(last.selector)->0, last, table);
                    let j = choose|j: int| 0 <= j < mine.len() && mine[j] == op;
                    assert(ops.skip(n as int)[before.len() - n + j] == op);
                }
            }
        }
    }
}

/// Every statement of a part that selects an entity becomes an opinion on that
/// entity, and nothing but these statements and the pipes becomes one. A tag, a key
/// and its value, an anchor with its place, and an attribute with its query come out
/// as they were written; what a binding leaves out is no unit, five thousand
/// milliseconds, and in the background.
pub proof fn law_statements_become_opinions(
    out: Lowered,
    lsg: LsgView,
    scene: SceneView,
    table: Seq<NumeralView>,
)
    ensures
        ({
            let ops = lowered_scene(out, lsg, scene, table).opinions;
            let n = out.opinions.len();
            &&& forall|j: int|
                n <= j < ops.len() && !((#[trigger] ops[j]) is Edge) ==> said_somewhere(
                    ops[j],
                    lsg,
                    scene.parts,
                    table,
                )
            &&& forall|i: int, j: int|
                #![trigger scene.parts[i].tags[j]]
                0 <= i < scene.parts.len() && 0 <= j < scene.parts[i].tags.len() ==> (lsg.selected(
                    scene.parts[i].selector,
                ) matches Some(id) ==> ops.skip(n as int).contains(
                    OpinionView::Tag { entity: id, tag: scene.parts[i].tags[j].value },
                ))
            &&& forall|i: int, j: int|
                #![trigger scene.parts[i].metas[j]]
                0 <= i < scene.parts.len() && 0 <= j < scene.parts[i].metas.len() ==> (
                lsg.selected(scene.parts[i].selector) matches Some(id) ==> ops.skip(
                    n as int,
                ).contains(
                    OpinionView::Meta {
                        entity: id,
                        key: scene.parts[i].metas[j].key,
                        value: match scene.parts[i].metas[j].value {
                            MetaValueView::Text(s) => s,
                            MetaValueView::Number(s) => numeral_of(table, s).shown,
                        },
                    },
                ))
            &&& ops.len() >= n + live_statements(lsg, scene.parts)
        }),
{
    let mid = lowered_parts(out, lsg, scene.parts, table);
    let ops = lowered_scene(out, lsg, scene, table).opinions;
    let n = out.opinions.len();
    lemma_parts_say(out, lsg, scene.parts, table);
    lemma_pipe_edges(mid, lsg, scene.parts, scene.pipes);
    let all = ops.skip(n as int);
    let some = mid.opinions.skip(n as int);
    assert forall|op: OpinionView| #[trigger] some.contains(op) implies all.contains(op) by {
        let j = choose|j: int| 0 <= j < some.len() && some[j] == op;
        assert(all[j] == op);
    }
    assert forall|j: int| n <= j < ops.len() && !(
    (#[trigger] ops[j]) is Edge) implies said_somewhere(ops[j], lsg, scene.parts, table) by {
        if j < mid.opinions.len() {
            assert(mid.opinions[j] == ops[j]);
        }
    }
    assert forall|i: int, j: int|
        #![trigger scene.parts[i].tags[j]]
        0 <= i < scene.parts.len() && 0 <= j < scene.parts[i].tags.len() implies (lsg.selected(
        scene.parts[i].selector,
    ) matches Some(id) ==> ops.skip(n as int).contains(
        OpinionView::Tag { entity: id, tag: scene.parts[i].tags[j].value },
    )) by {
        if let Some(id) = lsg.selected(scene.parts[i].selector) {
            lemma_part_says(id, scene.parts[i], table);
            let op = tag_opinion(id, scene.parts[i].tags[j]);
            assert(all_there(mid.opinions, n as int, id, scene.parts[i], table));
            assert(part_opinions(id, scene.parts[i], table).contains(op));
            assert(some.contains(op));
        }
    }
    assert forall|i: int, j: int|
        #![trigger scene.parts[i].metas[j]]
        0 <= i < scene.parts.len() && 0 <= j < scene.parts[i].metas.len() implies (lsg.selected(
        scene.parts[i].selector,
    ) matches Some(id) ==> ops.skip(n as int).contains(
        OpinionView::Meta {
            entity: id,
            key: scene.parts[i].metas[j].key,
            value: match scene.parts[i].metas[j].value {
                MetaValueView::Text(s) => s,
                MetaValueView::Number(s) => numeral_of(table, s).shown,
            },
        },
    )) by {
        if let Some(id) = lsg.selected(scene.parts[i].selector) {
            lemma_part_says(id, scene.parts[i], table);
            let op = meta_opinion(id, scene.parts[i].metas[j], table);
            assert(all_there(mid.opinions, n as int, id, scene.parts[i], table));
            assert(part_opinions(id, scene.parts[i], table).contains(op));
            assert(some.contains(op));
        }
    }
}

/// Every anchor that a part declares, and every attribute that it binds, becomes an
/// opinion on the entity that the part selects.
pub proof fn law_anchors_and_bindings_become_opinions(
    out: Lowered,
    lsg: LsgView,
    scene: SceneView,
    table: Seq<NumeralView>,
    i: int,
    j: int,
)
    requires
        0 <= i < scene.parts.len(),
        lsg.selected(scene.parts[i].selector) is Some,
    ensures
        ({
            let id = lsg.selected(scene.parts[i].selector)->0;
            let part = scene.parts[i];
            let n = out.opinions.len() as int;
            let ops = lowered_scene(out, lsg, scene, table).opinions.skip(n);
            &&& 0 <= j < part.anchors.len() ==> {
                let a = part.anchors[j];
                ops.contains(
                    OpinionView::Anchor(
                        AnchorView {
                            id: AnchorId::of(id, a.name),
                            entity: id,
                            name: a.name,
                            pos: seq![
                                numeral_of(table, a.x).value,
                                numeral_of(table, a.y).value,
                                numeral_of(table, a.z).value,
                            ],
                        },
                    ),
                )
            }
            &&& 0 <= j < part.bindings.len() ==> {
                let b = part.bindings[j];
                exists|k: int|
                    {
                        &&& 0 <= k < ops.len()
                        &&& #[trigger] ops[k] matches OpinionView::Binding { entity, binding } && {
                            &&& entity == id
                            &&& binding.attribute == b.attribute
                            &&& binding.query == b.query
                            &&& b.unit matches Some(u) ==> binding.unit == u
                            &&& b.ttl_ms matches Some(t) ==> binding.ttl_ms == numeral_of(
                                table,
                                t,
                            ).value
                            &&& b.priority matches Some(p) ==> binding.priority == p
                        }
                    }
            }
        }),
{
    let id = lsg.selected(scene.parts[i].selector)->0;
    let part = scene.parts[i];
    let mid = lowered_parts(out, lsg, scene.parts, table);
    let n = out.opinions.len() as int;
    let all = lowered_scene(out, lsg, scene, table).opinions;
    let ops = all.skip(n);
    lemma_parts_say(out, lsg, scene.parts, table);
    lemma_pipe_edges(mid, lsg, scene.parts, scene.pipes);
    lemma_part_says(id, part, table);
    assert(all_there(mid.opinions, n, id, part, table));
    let some = mid.opinions.skip(n);
    assert forall|op: OpinionView| #[trigger] some.contains(op) implies ops.contains(op) by {
        let k = choose|k: int| 0 <= k < some.len() && some[k] == op;
        assert(ops[k] == op);
    }
    if 0 <= j < part.anchors.len() {
        assert(some.contains(anchor_opinion(id, part.anchors[j], table)));
    }
    if 0 <= j < part.bindings.len() {
        let op = binding_opinion(id, part.bindings[j], table);
        assert(some.contains(op));
        assert(ops.contains(op));
        let k = choose|k: int| 0 <= k < ops.len() && ops[k] == op;
        assert(ops[k] == op);
    }
}

/// A numeral stands for what the table says of it, and for no number where the table
/// says nothing.
pub proof fn law_numerals_are_looked_up(table: Seq<NumeralView>, text: Seq<char>)
    ensures
        numeral_of(table, text).text == text,
        (exists|i: int| 0 <= i < table.len() && (#[trigger] table[i]).text == text)
            ==> table.contains(numeral_of(table, text)),
        !(exists|i: int| 0 <= i < table.len() && (#[trigger] table[i]).text == text)
            ==> numeral_of(table, text).value.nan(),
    decreases table.len(),
{
    if table.len() > 0 && table[0].text != text {
        let rest = table.drop_first();
        law_numerals_are_looked_up(rest, text);
        if exists|i: int| 0 <= i < table.len() && (#[trigger] table[i]).text == text {
            let i = choose|i: int| 0 <= i < table.len() && (#[trigger] table[i]).text == text;
            assert(rest[i - 1].text == text);
            let j = choose|j: int| 0 <= j < rest.len() && rest[j] == numeral_of(rest, text);
            assert(table[j + 1] == numeral_of(table, text));
        } else {
            assert forall|i: int| 0 <= i < rest.len() implies (#[trigger] rest[i]).text != text by {
                assert(table[i + 1].text != text);
            }
        }
    } else if table.len() > 0 {
        assert(table[0] == numeral_of(table, text));
    }
}

// ---------------------------------------------------------------------------
// Messages.

/// The message reports a part that selects nothing, at its selector.
pub open spec fn reports_part(d: DiagnosticView, lsg: LsgView, part: PartView) -> bool {
    &&& lsg.selected(part.selector) is None
    &&& d.severity == Severity::Error
    &&& d.span == part.selector_span
    &&& d.message == "unknown part `"@ + part.selector
        + "` (no matching asset tag or prim path in the scene)"@
}

/// The message reports an end of a pipe that selects nothing, where it stands.
pub open spec fn reports_end(d: DiagnosticView, lsg: LsgView, end: EndpointView) -> bool {
    &&& lsg.selected(end.part) is None
    &&& d.severity == Severity::Error
    &&& d.span == end.span
    &&& d.message == "unknown part `"@ + end.part + "` in pipe"@
}

/// The message warns of an end of a pipe whose anchor no part declares on the entity,
/// where it stands.
pub open spec fn warns_of_end(
    d: DiagnosticView,
    lsg: LsgView,
    parts: Seq<PartView>,
    end: EndpointView,
    side: Seq<char>,
) -> bool {
    &&& lsg.selected(end.part) matches Some(id) && !declares(lsg, parts, id, end.anchor)
    &&& d.severity == Severity::Warning
    &&& d.span == end.span
    &&& d.message == "pipe "@ + side + (" anchor `"@ + end.anchor
        + "` was not declared with an `anchor` statement"@)
}

/// The message is about a pipe.
pub open spec fn about_pipe(
    d: DiagnosticView,
    lsg: LsgView,
    parts: Seq<PartView>,
    pipe: PipeView,
) -> bool {
    ||| reports_end(d, lsg, pipe.from)
    ||| reports_end(d, lsg, pipe.to)
    ||| joins_entities(lsg, pipe) && warns_of_end(d, lsg, parts, pipe.from, "from"@)
    ||| joins_entities(lsg, pipe) && warns_of_end(d, lsg, parts, pipe.to, "to"@)
}

/// The message reports one of the parts.
pub open spec fn about_some_part(d: DiagnosticView, lsg: LsgView, parts: Seq<PartView>) -> bool {
    exists|i: int| 0 <= i < parts.len() && #[trigger] reports_part(d, lsg, parts[i])
}

/// The message is about one of the pipes.
pub open spec fn about_some_pipe(
    d: DiagnosticView,
    lsg: LsgView,
    parts: Seq<PartView>,
    pipes: Seq<PipeView>,
) -> bool {
    exists|k: int| 0 <= k < pipes.len() && #[trigger] about_pipe(d, lsg, parts, pipes[k])
}

/// A message behind the first `n` reports the part.
pub open spec fn part_reported(ds: Seq<DiagnosticView>, n: int, lsg: LsgView, part: PartView) -> bool {
    exists|j: int| n <= j < ds.len() && #[trigger] reports_part(ds[j], lsg, part)
}

proof fn lemma_part_messages(
    out: Lowered,
    lsg: LsgView,
    parts: Seq<PartView>,
    table: Seq<NumeralView>,
)
    ensures
        ({
            let ds = lowered_parts(out, lsg, parts, table).diags;
            let n = out.diags.len() as int;
            &&& out.diags.is_prefix_of(ds)
            &&& forall|j: int| n <= j < ds.len() ==> about_some_part(#[trigger] ds[j], lsg, parts)
            &&& forall|i: int|
                0 <= i < parts.len() && lsg.selected((#[trigger] parts[i]).selector) is None
                    ==> part_reported(ds, n, lsg, parts[i])
        }),
    decreases parts.len(),
{
    if parts.len() > 0 {
        let init = parts.drop_last();
        let last = parts.last();
        lemma_part_messages(out, lsg, init, table);
        let before = lowered_parts(out, lsg, init, table).diags;
        let ds = lowered_parts(out, lsg, parts, table).diags;
        let n = out.diags.len() as int;
        let m = before.len() as int;
        assert(before.is_prefix_of(ds));
        if lsg.selected(last.selector) is None {
            assert(reports_part(ds[m], lsg, parts[parts.len() - 1]));
        }
        assert forall|j: int| n <= j < ds.len() implies about_some_part(
            #[trigger] ds[j],
            lsg,
            parts,
        ) by {
            if j < m {
                assert(before[j] == ds[j]);
                let i = choose|i: int|
                    0 <= i < init.len() && #[trigger] reports_part(before[j], lsg, init[i]);
                assert(reports_part(ds[j], lsg, parts[i]));
            }
        }
        assert forall|i: int|
            0 <= i < parts.len() && lsg.selected(
                (#[trigger] parts[i]).selector,
            ) is None implies part_reported(ds, n, lsg, parts[i]) by {
            if i < init.len() {
                assert(init[i] == parts[i]);
                assert(part_reported(before, n, lsg, init[i]));
                let j = choose|j: int|
                    n <= j < before.len() && #[trigger] reports_part(before[j], lsg, init[i]);
                assert(reports_part(ds[j], lsg, parts[i]));
            }
        }
    }
}

/// The ends of a pipe that lead nowhere are reported; where both lead to entities,
/// the anchors that no part declares are warned of.
pub open spec fn pipe_accounted(
    ds: Seq<DiagnosticView>,
    n: int,
    lsg: LsgView,
    parts: Seq<PartView>,
    pipe: PipeView,
) -> bool {
    &&& lsg.selected(pipe.from.part) is None ==> exists|j: int|
        n <= j < ds.len() && #[trigger] reports_end(ds[j], lsg, pipe.from)
    &&& lsg.selected(pipe.to.part) is None ==> exists|j: int|
        n <= j < ds.len() && #[trigger] reports_end(ds[j], lsg, pipe.to)
    &&& joins_entities(lsg, pipe) ==> {
        &&& !declares(lsg, parts, lsg.selected(pipe.from.part)->0, pipe.from.anchor) ==> exists|
            j: int,
        |
            n <= j < ds.len() && #[trigger] warns_of_end(ds[j], lsg, parts, pipe.from, "from"@)
        &&& !declares(lsg, parts, lsg.selected(pipe.to.part)->0, pipe.to.anchor) ==> exists|
            j: int,
        |
            n <= j < ds.len() && #[trigger] warns_of_end(ds[j], lsg, parts, pipe.to, "to"@)
    }
}

proof fn lemma_accounted_more(
    ds: Seq<DiagnosticView>,
    more: Seq<DiagnosticView>,
    n: int,
    lsg: LsgView,
    parts: Seq<PartView>,
    pipe: PipeView,
)
    requires
        0 <= n <= ds.len(),
        ds.is_prefix_of(more),
        pipe_accounted(ds, n, lsg, parts, pipe),
    ensures
        pipe_accounted(more, n, lsg, parts, pipe),
{
    assert forall|j: int| 0 <= j < ds.len() implies more[j] == ds[j] by {}
    if lsg.selected(pipe.from.part) is None {
        let j = choose|j: int|
            n <= j < ds.len() && #[trigger] reports_end(ds[j], lsg, pipe.from);
        assert(reports_end(more[j], lsg, pipe.from));
    }
    if lsg.selected(pipe.to.part) is None {
        let j = choose|j: int| n <= j < ds.len() && #[trigger] reports_end(ds[j], lsg, pipe.to);
        assert(reports_end(more[j], lsg, pipe.to));
    }
    if joins_entities(lsg, pipe) {
        if !declares(lsg, parts, lsg.selected(pipe.from.part)->0, pipe.from.anchor) {
            let j = choose|j: int|
                n <= j < ds.len() && #[trigger] warns_of_end(
                    ds[j],
                    lsg,
                    parts,
                    pipe.from,
                    "from"@,
                );
            assert(warns_of_end(more[j], lsg, parts, pipe.from, "from"@));
        }
        if !declares(lsg, parts, lsg.selected(pipe.to.part)->0, pipe.to.anchor) {
            let j = choose|j: int|
                n <= j < ds.len() && #[trigger] warns_of_end(ds[j], lsg, parts, pipe.to, "to"@);
            assert(warns_of_end(more[j], lsg, parts, pipe.to, "to"@));
        }
    }
}

proof fn lemma_one_pipe_messages(out: Lowered, lsg: LsgView, parts: Seq<PartView>, pipe: PipeView)
    ensures
        ({
            let ds = lowered_pipe(out, lsg, parts, pipe).diags;
            let n = out.diags.len() as int;
            &&& out.diags.is_prefix_of(ds)
            &&& pipe_accounted(ds, n, lsg, parts, pipe)
            &&& forall|j: int|
                n <= j < ds.len() ==> about_pipe(#[trigger] ds[j], lsg, parts, pipe)
        }),
{
    let ds = lowered_pipe(out, lsg, parts, pipe).diags;
    let n = out.diags.len() as int;
    let from_gone = lsg.selected(pipe.from.part) is None;
    let to_gone = lsg.selected(pipe.to.part) is None;
    if joins_entities(lsg, pipe) {
        let a = declares(lsg, parts, lsg.selected(pipe.from.part)->0, pipe.from.anchor);
        let b = declares(lsg, parts, lsg.selected(pipe.to.part)->0, pipe.to.anchor);
        if !a {
            assert(warns_of_end(ds[n], lsg, parts, pipe.from, "from"@));
            if !b {
                assert(warns_of_end(ds[n + 1], lsg, parts, pipe.to, "to"@));
            }
        } else if !b {
            assert(warns_of_end(ds[n], lsg, parts, pipe.to, "to"@));
        }
    } else if from_gone {
        assert(reports_end(ds[n], lsg, pipe.from));
        if to_gone {
            assert(reports_end(ds[n + 1], lsg, pipe.to));
        }
    } else {
        assert(reports_end(ds[n], lsg, pipe.to));
    }
}

proof fn lemma_pipe_messages(
    out: Lowered,
    lsg: LsgView,
    parts: Seq<PartView>,
    pipes: Seq<PipeView>,
)
    ensures
        ({
            let ds = lowered_pipes(out, lsg, parts, pipes).diags;
            let n = out.diags.len() as int;
            &&& out.diags.is_prefix_of(ds)
            &&& forall|j: int|
                n <= j < ds.len() ==> about_some_pipe(#[trigger] ds[j], lsg, parts, pipes)
            &&& forall|k: int|
                0 <= k < pipes.len() ==> pipe_accounted(ds, n, lsg, parts, #[trigger] pipes[k])
        }),
    decreases pipes.len(),
{
    if pipes.len() > 0 {
        let init = pipes.drop_last();
        lemma_pipe_messages(out, lsg, parts, init);
        let mid = lowered_pipes(out, lsg, parts, init);
        lemma_one_pipe_messages(mid, lsg, parts, pipes.last());
        let ds = lowered_pipes(out, lsg, parts, pipes).diags;
        let n = out.diags.len() as int;
        assert forall|j: int| n <= j < ds.len() implies about_some_pipe(
            #[trigger] ds[j],
            lsg,
            parts,
            pipes,
        ) by {
            if j < mid.diags.len() {
                assert(mid.diags[j] == ds[j]);
                let k = choose|k: int|
                    0 <= k < init.len() && #[trigger] about_pipe(
                        mid.diags[j],
                        lsg,
                        parts,
                        init[k],
                    );
                assert(about_pipe(ds[j], lsg, parts, pipes[k]));
            } else {
                assert(about_pipe(ds[j], lsg, parts, pipes[pipes.len() - 1]));
            }
        }
        assert forall|k: int| 0 <= k < pipes.len() implies pipe_accounted(
            ds,
            n,
            lsg,
            parts,
            #[trigger] pipes[k],
        ) by {
            if k < init.len() {
                assert(init[k] == pipes[k]);
                lemma_accounted_more(mid.diags, ds, n, lsg, parts, init[k]);
            } else {
                lemma_accounted_later(ds, mid.diags.len() as int, n, lsg, parts, pipes[k]);
            }
        }
    }
}

proof fn lemma_accounted_later(
    ds: Seq<DiagnosticView>,
    m: int,
    n: int,
    lsg: LsgView,
    parts: Seq<PartView>,
    pipe: PipeView,
)
    requires
        n <= m,
        pipe_accounted(ds, m, lsg, parts, pipe),
    ensures
        pipe_accounted(ds, n, lsg, parts, pipe),
{
}

/// Every part and every end of a pipe that selects nothing is reported as an error
/// where it stands, every anchor that no part declares is warned of, and there is no
/// other message.
pub proof fn law_messages_point_at_the_source(
    out: Lowered,
    lsg: LsgView,
    scene: SceneView,
    table: Seq<NumeralView>,
)
    ensures
        ({
            let ds = lowered_scene(out, lsg, scene, table).diags;
            let n = out.diags.len() as int;
            &&& forall|i: int|
                0 <= i < scene.parts.len() && lsg.selected(
                    (#[trigger] scene.parts[i]).selector,
                ) is None ==> part_reported(ds, n, lsg, scene.parts[i])
            &&& forall|k: int|
                0 <= k < scene.pipes.len() ==> pipe_accounted(
                    ds,
                    n,
                    lsg,
                    scene.parts,
                    #[trigger] scene.pipes[k],
                )
            &&& forall|j: int|
                n <= j < ds.len() ==> about_some_part(#[trigger] ds[j], lsg, scene.parts)
                    || about_some_pipe(ds[j], lsg, scene.parts, scene.pipes)
        }),
{
    let mid = lowered_parts(out, lsg, scene.parts, table);
    let ds = lowered_scene(out, lsg, scene, table).diags;
    let n = out.diags.len() as int;
    lemma_part_messages(out, lsg, scene.parts, table);
    lemma_pipe_messages(mid, lsg, scene.parts, scene.pipes);
    assert forall|i: int|
        0 <= i < scene.parts.len() && lsg.selected(
            (#[trigger] scene.parts[i]).selector,
        ) is None implies part_reported(ds, n, lsg, scene.parts[i]) by {
        assert(part_reported(mid.diags, n, lsg, scene.parts[i]));
        let j = choose|j: int|
            n <= j < mid.diags.len() && #[trigger] reports_part(
                mid.diags[j],
                lsg,
                scene.parts[i],
            );
        assert(ds[j] == mid.diags[j]);
        assert(reports_part(ds[j], lsg, scene.parts[i]));
    }
    assert forall|k: int| 0 <= k < scene.pipes.len() implies pipe_accounted(
        ds,
        n,
        lsg,
        scene.parts,
        #[trigger] scene.pipes[k],
    ) by {
        lemma_accounted_later(ds, mid.diags.len() as int, n, lsg, scene.parts, scene.pipes[k]);
    }
    assert forall|j: int| n <= j < ds.len() implies about_some_part(
        #[trigger] ds[j],
        lsg,
        scene.parts,
    ) || about_some_pipe(ds[j], lsg, scene.parts, scene.pipes) by {
        if j < mid.diags.len() {
            assert(ds[j] == mid.diags[j]);
        }
    }
}

// ---------------------------------------------------------------------------
// What else the messages and opinions rest on.

/// A part declares an anchor on an entity: it selects the entity, and has an `anchor`
/// statement of that name.
pub open spec fn declares_anchor(lsg: LsgView, part: PartView, id: EntityId, name: Seq<char>) -> bool {
    lsg.selected(part.selector) == Some(id) && exists|j: int|
        0 <= j < part.anchors.len() && (#[trigger] part.anchors[j]).name == name
}

/// An anchor is declared on an entity exactly where some part declares it there: not
/// where a part of another entity does, nor under another name.
pub proof fn law_anchors_are_declared_on_their_entity(
    lsg: LsgView,
    parts: Seq<PartView>,
    id: EntityId,
    name: Seq<char>,
)
    ensures
        declares(lsg, parts, id, name) <==> exists|i: int|
            0 <= i < parts.len() && #[trigger] declares_anchor(lsg, parts[i], id, name),
{
    if declares(lsg, parts, id, name) {
        let (i, j) = choose|i: int, j: int|
            0 <= i < parts.len() && 0 <= j < parts[i].anchors.len() && lsg.selected(
                parts[i].selector,
            ) == Some(id) && (#[trigger] parts[i].anchors[j]).name == name;
        assert(declares_anchor(lsg, parts[i], id, name));
    }
    if exists|i: int| 0 <= i < parts.len() && #[trigger] declares_anchor(lsg, parts[i], id, name) {
        let i = choose|i: int|
            0 <= i < parts.len() && #[trigger] declares_anchor(lsg, parts[i], id, name);
        let j = choose|j: int|
            0 <= j < parts[i].anchors.len() && (#[trigger] parts[i].anchors[j]).name == name;
        assert(parts[i].anchors[j].name == name);
    }
}

/// What earlier parts say comes before what later ones say, and the pipes come last.
pub proof fn law_opinions_come_in_order(
    out: Lowered,
    lsg: LsgView,
    parts: Seq<PartView>,
    more: Seq<PartView>,
    pipes: Seq<PipeView>,
    table: Seq<NumeralView>,
)
    ensures
        lowered_parts(out, lsg, parts, table).opinions.is_prefix_of(
            lowered_parts(out, lsg, parts + more, table).opinions,
        ),
        lowered_parts(out, lsg, parts, table).opinions.is_prefix_of(
            lowered_pipes(lowered_parts(out, lsg, parts, table), lsg, parts, pipes).opinions,
        ),
    decreases more.len() + pipes.len(),
{
    if more.len() > 0 {
        law_opinions_come_in_order(out, lsg, parts, more.drop_last(), pipes, table);
        assert((parts + more).drop_last() =~= parts + more.drop_last());
    } else {
        assert(parts + more =~= parts);
        if pipes.len() > 0 {
            law_opinions_come_in_order(out, lsg, parts, more, pipes.drop_last(), table);
        }
    }
}

/// The default time to live is five thousand milliseconds.
pub proof fn law_default_time_to_live(id: EntityId, b: super::ast::BindingView, table: Seq<NumeralView>)
    requires
        b.ttl_ms is None,
    ensures
        binding_opinion(id, b, table) matches OpinionView::Binding { entity, binding }
            && binding.ttl_ms.whole() == 5000,
{
    vstd::arithmetic::power2::lemma2_to64();
    vstd::arithmetic::power2::lemma2_to64_rest();
    let d = super::compile::default_ttl();
    assert(d.exponent() == 1035);
    assert(d.significand() == 0x10_0000_0000_0000 + 0x3_8800_0000_0000);
    assert(vstd::arithmetic::power2::pow2(40) == 0x100_0000_0000);
    assert((1075 - d.exponent()) as nat == 40);
    assert(0x13_8800_0000_0000int / 0x100_0000_0000int == 5000);
    assert(d.whole_magnitude() == 5000);
}

/// The numerals that are listed for a source are the texts of its numbers and
/// durations, all of them and nothing else.
pub proof fn law_numerals_are_listed(tokens: Seq<super::lexer::TokenView>, text: Seq<char>)
    ensures
        super::compile::numerals_in(tokens).contains(text) <==> exists|i: int|
            0 <= i < tokens.len() && ((#[trigger] tokens[i]).tok.kind == super::lexer::TokKind::Num
                || tokens[i].tok.kind == super::lexer::TokKind::Dur) && tokens[i].tok.text == text,
    decreases tokens.len(),
{
    reveal(Seq::filter);
    let all = super::compile::numerals_in(tokens);
    if tokens.len() > 0 {
        let init = tokens.drop_last();
        let last = tokens.last();
        law_numerals_are_listed(init, text);
        let before = super::compile::numerals_in(init);
        let counts = last.tok.kind == super::lexer::TokKind::Num || last.tok.kind
            == super::lexer::TokKind::Dur;
        if counts {
            assert(all =~= before.push(last.tok.text));
        } else {
            assert(all =~= before);
        }
        if all.contains(text) {
            let i = choose|i: int| 0 <= i < all.len() && all[i] == text;
            if i < before.len() {
                assert(before[i] == text);
                let k = choose|k: int|
                    0 <= k < init.len() && ((#[trigger] init[k]).tok.kind
                        == super::lexer::TokKind::Num || init[k].tok.kind
                        == super::lexer::TokKind::Dur) && init[k].tok.text == text;
                assert(tokens[k] == init[k]);
            } else {
                assert(tokens[tokens.len() - 1] == last);
            }
        }
        if exists|i: int|
            0 <= i < tokens.len() && ((#[trigger] tokens[i]).tok.kind == super::lexer::TokKind::Num
                || tokens[i].tok.kind == super::lexer::TokKind::Dur) && tokens[i].tok.text
                == text {
            let k = choose|i: int|
                0 <= i < tokens.len() && ((#[trigger] tokens[i]).tok.kind
                    == super::lexer::TokKind::Num || tokens[i].tok.kind
                    == super::lexer::TokKind::Dur) && tokens[i].tok.text == text;
            if k < init.len() {
                assert(init[k] == tokens[k]);
                let i = choose|i: int| 0 <= i < before.len() && before[i] == text;
                assert(all[i] == text);
            } else {
                assert(all[before.len() as int] == text);
            }
        }
    }
}

/// The number of errors is that of the messages that are errors; warnings do not count.
pub proof fn law_errors_are_counted(diags: Seq<DiagnosticView>)
    ensures
        super::compile::errors_in(diags) == diags.filter(
            |d: DiagnosticView| d.severity == Severity::Error,
        ).len(),
    decreases diags.len(),
{
    reveal(Seq::filter);
    if diags.len() > 0 {
        law_errors_are_counted(diags.drop_last());
    }
}

/// Of several entries for a numeral the first counts; one without an entry is shown as
/// no number.
pub proof fn law_first_entry_counts(table: Seq<NumeralView>, text: Seq<char>, i: int)
    ensures
        0 <= i < table.len() && table[i].text == text && (forall|j: int|
            0 <= j < i ==> (#[trigger] table[j]).text != text) ==> numeral_of(table, text)
            == table[i],
        (forall|j: int| 0 <= j < table.len() ==> (#[trigger] table[j]).text != text) ==> numeral_of(
            table,
            text,
        ).shown == "NaN"@,
    decreases table.len(),
{
    if table.len() > 0 {
        let rest = table.drop_first();
        law_first_entry_counts(rest, text, i - 1);
        if 0 < i < table.len() && table[i].text == text && (forall|j: int|
            0 <= j < i ==> (#[trigger] table[j]).text != text) {
            assert(table[0].text != text);
            assert(rest[i - 1] == table[i]);
            assert forall|j: int| 0 <= j < i - 1 implies (#[trigger] rest[j]).text != text by {
                assert(rest[j] == table[j + 1]);
            }
        }
        if forall|j: int| 0 <= j < table.len() ==> (#[trigger] table[j]).text != text {
            assert(table[0].text != text);
            assert forall|j: int| 0 <= j < rest.len() implies (#[trigger] rest[j]).text != text by {
                assert(rest[j] == table[j + 1]);
            }
        }
    }
}

} // verus!
