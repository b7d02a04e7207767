//! What an index says after each change: what can be found again, and what stays.

use crate::import::{is_entity_of, record_matrix, record_on, PrimRecord, TransformRecord};
use crate::lsg::{
    anchor_noted, anchor_restored, binding_noted, binding_removed, binding_restored, binding_set,
    bindings_of, bound_by, edge_noted, edge_restored, end_text, first_binding, identity_matrix,
    lemma_binding_at, lemma_binds, linked, names, tag_added, tag_noted, tag_removed, translated,
    vf_noted, vf_removed, vf_set, vf_text, with_binding, without_binding, without_tag, xxh64, Aabb,
    AnchorId, EdgeId, EntityId, EntityView, LsgView, TelemetryBindingView, VfValueView,
};
use crate::model::{lemma_filter_from, lemma_filter_keeps, map_views, opt_view, views};
use crate::scalar::Double;
use crate::synth::all_inserted;
use crate::table::{ascending, lemma_ascending};
use crate::text::{hex16_of, white};
use vstd::prelude::*;
use vstd::string::*;
use vstd::utf8::encode_utf8;

verus! {

/// An id is the hash of a text: of the path for an entity; of the entity's id, a mark
/// and the name for an anchor; of the end that it starts from, an arrow and the end
/// that it leads to for an edge.
pub proof fn law_ids_are_hashes(
    path: Seq<char>,
    entity: EntityId,
    name: Seq<char>,
    from: (EntityId, Seq<char>),
    to: (EntityId, Seq<char>),
)
    ensures
        EntityId::of_path(path).0 == xxh64(encode_utf8(path)),
        AnchorId::of(entity, name).0 == xxh64(
            encode_utf8(hex16_of(entity.0) + "#anchor#"@ + name),
        ),
        EdgeId::of(from, to).0 == xxh64(
            encode_utf8(
                hex16_of(from.0.0) + "."@ + from.1 + "->"@ + hex16_of(to.0.0) + "."@ + to.1,
            ),
        ),
{
    assert(end_text(from) + "->"@ + end_text(to) =~= hex16_of(from.0.0) + "."@ + from.1 + "->"@
        + hex16_of(to.0.0) + "."@ + to.1);
}

/// An entity that was entered is found by its id, its path and its asset tag; what
/// others are found by stays, but where the new one has the same path or tag. Anchors,
/// edges and the revision stay.
pub proof fn law_entered_entities_are_found(v: LsgView, e: EntityView, k: u64, text: Seq<char>)
    ensures
        ({
            let w = v.inserted(e);
            let tag = e.vf["assetTag"@];
            let tagged = e.vf.contains_key("assetTag"@) && tag is Text;
            &&& w.entities.contains_key(e.id.0) && w.entities[e.id.0] == e
            &&& k != e.id.0 ==> w.entities.contains_key(k) == v.entities.contains_key(k)
                && w.entities[k] == v.entities[k]
            &&& w.by_path.contains_key(e.prim_path) && w.by_path[e.prim_path] == e.id
            &&& text != e.prim_path ==> w.by_path.contains_key(text) == v.by_path.contains_key(text)
                && w.by_path[text] == v.by_path[text]
            &&& tagged ==> w.by_asset_tag.contains_key(tag->Text_0) && w.by_asset_tag[tag->Text_0]
                == e.id
            &&& !(tagged && text == tag->Text_0) ==> w.by_asset_tag.contains_key(text)
                == v.by_asset_tag.contains_key(text) && w.by_asset_tag[text]
                == v.by_asset_tag[text]
            &&& w.anchors == v.anchors && w.edges == v.edges && w.revision == v.revision
        }),
{
    assert(vf_text(e, "assetTag"@) is Some <==> e.vf.contains_key("assetTag"@)
        && e.vf["assetTag"@] is Text);
}

/// A selector that starts with a slash is a path. Any other is an asset tag where one
/// reads so, and a path otherwise. It leads nowhere exactly where neither does.
pub proof fn law_selectors_are_tags_or_paths(v: LsgView, sel: Seq<char>)
    ensures
        sel.len() > 0 && sel[0] == '/' && v.by_path.contains_key(sel) ==> v.selected(sel) == Some(
            v.by_path[sel],
        ),
        sel.len() > 0 && sel[0] == '/' && !v.by_path.contains_key(sel) ==> v.selected(sel) is None,
        !(sel.len() > 0 && sel[0] == '/') && v.by_asset_tag.contains_key(sel) ==> v.selected(sel)
            == Some(v.by_asset_tag[sel]),
        !(sel.len() > 0 && sel[0] == '/') && !v.by_asset_tag.contains_key(sel)
            && v.by_path.contains_key(sel) ==> v.selected(sel) == Some(v.by_path[sel]),
        v.selected(sel) is None ==> !v.by_path.contains_key(sel),
{
}

/// Listing the children gives each entity those that name it as their parent, each
/// once and in ascending order of their ids, and changes nothing else.
pub proof fn law_children_name_their_parent(entities: Map<u64, EntityView>, p: u64, k: u64)
    requires
        entities.dom().finite(),
        entities.contains_key(p),
    ensures
        linked(entities).dom() =~= entities.dom(),
        linked(entities)[p].children.contains(EntityId(k)) <==> entities.contains_key(k)
            && entities[k].parent == Some(EntityId(p)),
        forall|i: int, j: int|
            0 <= i < j < linked(entities)[p].children.len() ==> (
            #[trigger] linked(entities)[p].children[i]).0 < (
            #[trigger] linked(entities)[p].children[j]).0,
        linked(entities)[p] == (EntityView {
            children: linked(entities)[p].children,
            ..entities[p]
        }),
{
    let ids = ascending(entities.dom());
    lemma_ascending(entities.dom());
    let f = |k: u64| entities[k].parent == Some(EntityId(p));
    let kept = ids.filter(f);
    let kids = linked(entities)[p].children;
    assert(kids == kept.map_values(|k: u64| EntityId(k)));
    if kids.contains(EntityId(k)) {
        let i = choose|i: int| 0 <= i < kids.len() && kids[i] == EntityId(k);
        assert(kept[i] == k);
        lemma_filter_from(ids, f, i);
        assert(entities.dom().contains(k));
    }
    if entities.contains_key(k) && entities[k].parent == Some(EntityId(p)) {
        assert(entities.dom().contains(k));
        assert(ids.contains(k));
        assert(f(k));
        let a = choose|a: int| 0 <= a < ids.len() && ids[a] == k;
        lemma_filter_keeps(ids, f, a);
        let i = choose|i: int| 0 <= i < kept.len() && kept[i] == k;
        assert(kids[i] == EntityId(k));
    }
    lemma_filter_ascends(ids, f);
    assert forall|i: int, j: int| 0 <= i < j < kids.len() implies (#[trigger] kids[i]).0 < (
    #[trigger] kids[j]).0 by {
        assert(kids[i].0 == kept[i] && kids[j].0 == kept[j]);
    }
}

proof fn lemma_filter_ascends(s: Seq<u64>, f: spec_fn(u64) -> bool)
    requires
        forall|i: int, j: int| 0 <= i < j < s.len() ==> #[trigger] s[i] < #[trigger] s[j],
    ensures
        forall|i: int, j: int|
            0 <= i < j < s.filter(f).len() ==> #[trigger] s.filter(f)[i] < #[trigger] s.filter(
                f,
            )[j],
    decreases s.len(),
{
    reveal(Seq::filter);
    if s.len() > 0 {
        let init = s.drop_last();
        assert forall|i: int, j: int| 0 <= i < j < init.len() implies #[trigger] init[i]
            < #[trigger] init[j] by {
            assert(init[i] == s[i] && init[j] == s[j]);
        }
        lemma_filter_ascends(init, f);
        let kept = init.filter(f);
        assert forall|i: int, j: int| 0 <= i < j < s.filter(f).len() implies #[trigger] s.filter(
            f,
        )[i] < #[trigger] s.filter(f)[j] by {
            if j < kept.len() {
                assert(s.filter(f)[i] == kept[i] && s.filter(f)[j] == kept[j]);
            } else {
                assert(s.filter(f)[i] == kept[i]);
                lemma_filter_from(init, f, i);
                let a = choose|a: int| 0 <= a < init.len() && init[a] == kept[i];
                assert(s[a] == kept[i]);
                assert(s[s.len() - 1] == s.last());
            }
        }
    }
}

/// A transform without a rotation has ones on its diagonal and zeros elsewhere, but
/// for the translation at the end of its first three rows.
pub proof fn law_matrices_are_written_row_by_row(t: Seq<Double>, row: int, col: int)
    requires
        t.len() == 3,
        0 <= row < 4,
        0 <= col < 4,
    ensures
        identity_matrix().len() == 16 && translated(t).len() == 16,
        identity_matrix()[4 * row + col] == if row == col {
            Double { bits: 0x3ff0_0000_0000_0000 }
        } else {
            Double { bits: 0 }
        },
        translated(t)[4 * row + col] == if col == 3 && row < 3 {
            t[row]
        } else if row == col {
            Double { bits: 0x3ff0_0000_0000_0000 }
        } else {
            Double { bits: 0 }
        },
{
    assert(row == 0 || row == 1 || row == 2 || row == 3);
    assert(col == 0 || col == 1 || col == 2 || col == 3);
    assert((4 * row + col) % 5 == 0 <==> row == col);
}

/// Only one entity is changed: the others, the ways to find entities, the anchors, the
/// edges, what is overridden and the revision stay. Of the one that is changed, path,
/// place in the hierarchy, geometry and id stay.
pub open spec fn edits_only(v: LsgView, w: LsgView, id: EntityId) -> bool {
    &&& w.entities.dom() =~= v.entities.dom()
    &&& forall|k: u64| k != id.0 ==> #[trigger] w.entities[k] == v.entities[k]
    &&& w.entities[id.0] == (EntityView {
        tags: w.entities[id.0].tags,
        vf: w.entities[id.0].vf,
        bindings: w.entities[id.0].bindings,
        ..v.entities[id.0]
    })
    &&& w.by_path == v.by_path && w.by_asset_tag == v.by_asset_tag
    &&& w.anchors == v.anchors && w.edges == v.edges
    &&& w.overridden == v.overridden && w.revision == v.revision
}

/// A tag that was added is there, once more than before and behind the others; one
/// that was removed is not. Other tags, metadata and bindings stay. A change is told
/// exactly where there was one, and an entity that is not there is not changed.
pub proof fn law_tags_come_and_go(v: LsgView, id: EntityId, tag: Seq<char>, other: Seq<char>)
    requires
        other != tag,
    ensures
        ({
            let (w, added) = tag_added(v, id, tag);
            let had = v.entities[id.0].tags;
            let left = w.entities[id.0].tags;
            &&& added <==> v.entities.contains_key(id.0) && !had.contains(tag)
            &&& !added ==> w == v
            &&& added ==> edits_only(v, w, id) && left.len() == had.len() + 1 && left.last() == tag
                && left.drop_last() == had
            &&& left.contains(other) <==> had.contains(other)
            &&& w.entities[id.0].vf == v.entities[id.0].vf
            &&& w.entities[id.0].bindings == v.entities[id.0].bindings
        }),
        ({
            let (w, removed) = tag_removed(v, id, tag);
            let had = v.entities[id.0].tags;
            let left = w.entities[id.0].tags;
            &&& removed <==> v.entities.contains_key(id.0) && had.contains(tag)
            &&& !removed ==> w == v
            &&& removed ==> edits_only(v, w, id) && !left.contains(tag)
            &&& left.contains(other) <==> had.contains(other)
            &&& w.entities[id.0].vf == v.entities[id.0].vf
            &&& w.entities[id.0].bindings == v.entities[id.0].bindings
        }),
{
    let had = v.entities[id.0].tags;
    lemma_without_tag(had, tag, tag);
    let more = had.push(tag);
    assert(more.drop_last() =~= had);
    assert(more.contains(other) <==> had.contains(other)) by {
        if more.contains(other) {
            let i = choose|i: int| 0 <= i < more.len() && more[i] == other;
            assert(had[i] == other);
        }
        if had.contains(other) {
            let i = choose|i: int| 0 <= i < had.len() && had[i] == other;
            assert(more[i] == other);
        }
    }
    lemma_without_tag(had, tag, other);
}

proof fn lemma_without_tag(tags: Seq<Seq<char>>, tag: Seq<char>, other: Seq<char>)
    ensures
        without_tag(tags, tag).contains(other) <==> other != tag && tags.contains(other),
    decreases tags.len(),
{
    reveal(Seq::filter);
    if tags.len() > 0 {
        let init = tags.drop_last();
        lemma_without_tag(init, tag, other);
        let left = without_tag(init, tag);
        assert(tags =~= init.push(tags.last()));
        assert(tags.contains(other) <==> init.contains(other) || tags.last() == other) by {
            if init.contains(other) {
                let i = choose|i: int| 0 <= i < init.len() && init[i] == other;
                assert(tags[i] == other);
            }
            assert(tags[tags.len() - 1] == tags.last());
        }
        let more = left.push(tags.last());
        assert(more.contains(other) <==> left.contains(other) || tags.last() == other) by {
            if left.contains(other) {
                let i = choose|i: int| 0 <= i < left.len() && left[i] == other;
                assert(more[i] == other);
            }
            assert(more[left.len() as int] == tags.last());
        }
    }
}

/// A metadata key that was set has its value, one that was removed has none, and the
/// other keys, the tags and the bindings stay.
pub proof fn law_metadata_comes_and_goes(
    v: LsgView,
    id: EntityId,
    key: Seq<char>,
    value: VfValueView,
    other: Seq<char>,
)
    requires
        other != key,
    ensures
        ({
            let (w, found) = vf_set(v, id, key, value);
            let e = w.entities[id.0];
            &&& found <==> v.entities.contains_key(id.0)
            &&& !found ==> w == v
            &&& found ==> edits_only(v, w, id) && e.vf.contains_key(key) && e.vf[key] == value
            &&& e.vf.contains_key(other) == v.entities[id.0].vf.contains_key(other) && e.vf[other]
                == v.entities[id.0].vf[other]
            &&& e.tags == v.entities[id.0].tags && e.bindings == v.entities[id.0].bindings
        }),
        ({
            let (w, removed) = vf_removed(v, id, key);
            let e = w.entities[id.0];
            &&& removed <==> v.entities.contains_key(id.0) && v.entities[id.0].vf.contains_key(key)
            &&& !removed ==> w == v
            &&& removed ==> edits_only(v, w, id) && !e.vf.contains_key(key)
            &&& e.vf.contains_key(other) == v.entities[id.0].vf.contains_key(other) && e.vf[other]
                == v.entities[id.0].vf[other]
            &&& e.tags == v.entities[id.0].tags && e.bindings == v.entities[id.0].bindings
        }),
{
}

proof fn lemma_first_binding_set(
    bindings: Seq<TelemetryBindingView>,
    b: TelemetryBindingView,
    other: Seq<char>,
)
    requires
        other != b.attribute,
    ensures
        first_binding(with_binding(bindings, b), b.attribute) == Some(b),
        first_binding(with_binding(bindings, b), other) == first_binding(bindings, other),
{
    lemma_binds(bindings, b.attribute);
    lemma_binds(bindings, other);
    let more = with_binding(bindings, b);
    let at = crate::lsg::binding_at(bindings, b.attribute);
    assert(more[at] == b);
    assert forall|j: int| 0 <= j < at implies (#[trigger] more[j]).attribute != b.attribute by {
        assert(more[j] == bindings[j]);
    }
    lemma_binding_at(more, b.attribute, at);
    let o = crate::lsg::binding_at(bindings, other);
    if o < bindings.len() {
        assert(o != at);
        assert(more[o] == bindings[o]);
        assert forall|j: int| 0 <= j < o implies (#[trigger] more[j]).attribute != other by {
            if j != at {
                assert(more[j] == bindings[j]);
            }
        }
        lemma_binding_at(more, other, o);
    } else {
        assert forall|j: int| 0 <= j < more.len() implies (#[trigger] more[j]).attribute
            != other by {
            if j != at {
                assert(more[j] == bindings[j]);
                assert(bindings[j].attribute != other);
            }
        }
        lemma_binding_at(more, other, more.len() as int);
    }
}

proof fn lemma_first_binding_left(
    bindings: Seq<TelemetryBindingView>,
    attribute: Seq<char>,
    other: Seq<char>,
)
    requires
        other != attribute,
    ensures
        first_binding(without_binding(bindings, attribute), attribute) is None,
        first_binding(without_binding(bindings, attribute), other) == first_binding(
            bindings,
            other,
        ),
    decreases bindings.len(),
{
    reveal(Seq::filter);
    crate::lsg::lemma_other_bindings(bindings, attribute, attribute);
    crate::lsg::lemma_other_bindings(bindings, attribute, other);
    lemma_binds(bindings, other);
    if bindings.len() > 0 {
        let init = bindings.drop_last();
        let last = bindings.last();
        lemma_first_binding_left(init, attribute, other);
        lemma_binds(init, other);
        let left = without_binding(bindings, attribute);
        let before = without_binding(init, attribute);
        lemma_binds(before, other);
        let o = crate::lsg::binding_at(init, other);
        if o < init.len() {
            assert forall|j: int| 0 <= j < o implies (#[trigger] bindings[j]).attribute
                != other by {
                assert(init[j] == bindings[j]);
            }
            assert(init[o] == bindings[o]);
            lemma_binding_at(bindings, other, o);
            let q = crate::lsg::binding_at(before, other);
            assert(q < before.len());
            assert forall|j: int| 0 <= j < q implies (#[trigger] left[j]).attribute != other by {
                assert(left[j] == before[j]);
            }
            assert(left[q] == before[q]);
            lemma_binding_at(left, other, q);
        } else {
            assert forall|j: int| 0 <= j < init.len() implies (#[trigger] bindings[j]).attribute
                != other by {
                assert(init[j] == bindings[j]);
                assert(init[j].attribute != other);
            }
            assert(!names(before, other));
            assert forall|j: int| 0 <= j < before.len() implies (#[trigger] before[j]).attribute
                != other by {}
            if last.attribute == other {
                lemma_binding_at(bindings, other, init.len() as int);
                assert(left == before.push(last));
                assert forall|j: int| 0 <= j < before.len() implies (#[trigger] left[j]).attribute
                    != other by {
                    assert(left[j] == before[j]);
                }
                lemma_binding_at(left, other, before.len() as int);
            }
        }
    }
}

/// The binding of an attribute that was set is the one that counts, and where it was
/// removed there is none; the bindings of other attributes, tags and metadata stay.
pub proof fn law_bindings_come_and_go(
    v: LsgView,
    id: EntityId,
    b: TelemetryBindingView,
    other: Seq<char>,
)
    requires
        other != b.attribute,
    ensures
        ({
            let (w, found) = binding_set(v, id, b);
            let e = w.entities[id.0];
            &&& found <==> v.entities.contains_key(id.0)
            &&& !found ==> w == v
            &&& found ==> edits_only(v, w, id) && first_binding(e.bindings, b.attribute) == Some(b)
            &&& first_binding(e.bindings, other) == first_binding(v.entities[id.0].bindings, other)
            &&& e.tags == v.entities[id.0].tags && e.vf == v.entities[id.0].vf
        }),
        ({
            let (w, removed) = binding_removed(v, id, b.attribute);
            let e = w.entities[id.0];
            &&& removed <==> v.entities.contains_key(id.0) && first_binding(
                v.entities[id.0].bindings,
                b.attribute,
            ) is Some
            &&& !removed ==> w == v
            &&& removed ==> edits_only(v, w, id) && first_binding(e.bindings, b.attribute) is None
            &&& first_binding(e.bindings, other) == first_binding(v.entities[id.0].bindings, other)
            &&& e.tags == v.entities[id.0].tags && e.vf == v.entities[id.0].vf
        }),
{
    lemma_first_binding_set(v.entities[id.0].bindings, b, other);
    lemma_first_binding_left(v.entities[id.0].bindings, b.attribute, other);
}

/// The first binding of an attribute is one of the bindings, it is of the attribute,
/// and none before it is; there is none exactly where no binding is of the attribute.
pub proof fn law_first_binding_is_found(
    bindings: Seq<TelemetryBindingView>,
    attribute: Seq<char>,
    i: int,
)
    requires
        0 <= i < bindings.len(),
    ensures
        bindings[i].attribute == attribute && (forall|j: int|
            0 <= j < i ==> (#[trigger] bindings[j]).attribute != attribute) ==> first_binding(
            bindings,
            attribute,
        ) == Some(bindings[i]),
        first_binding(bindings, attribute) is None ==> bindings[i].attribute != attribute,
        first_binding(bindings, attribute) is Some ==> bindings.contains(
            first_binding(bindings, attribute)->0,
        ) && first_binding(bindings, attribute)->0.attribute == attribute,
{
    lemma_binds(bindings, attribute);
}

/// The number of bindings of listed entities adds up over the list.
pub proof fn law_bindings_add_up(entities: Map<u64, EntityView>, a: Seq<u64>, b: Seq<u64>, k: u64)
    ensures
        bindings_of(entities, a + b) == bindings_of(entities, a) + bindings_of(entities, b),
        bindings_of(entities, seq![k]) == entities[k].bindings.len(),
    decreases b.len(),
{
    assert(seq![k].drop_last() =~= Seq::<u64>::empty());
    assert(bindings_of(entities, Seq::<u64>::empty()) == 0);
    if b.len() == 0 {
        assert(a + b =~= a);
    } else {
        law_bindings_add_up(entities, a, b.drop_last(), k);
        assert((a + b).drop_last() =~= a + b.drop_last());
        assert((a + b).last() == b.last());
    }
}

/// What opinions override is put back as it stood when it was first noted: a binding,
/// a tag and a metadata value of an entity, whatever was set in its place meanwhile.
pub proof fn law_noted_values_are_put_back(
    v: LsgView,
    id: EntityId,
    b: TelemetryBindingView,
    tag: Seq<char>,
    key: Seq<char>,
    value: VfValueView,
)
    requires
        v.entities.contains_key(id.0),
        !v.overridden.bindings.contains_key((id.0, b.attribute)),
        !v.overridden.tags.contains_key((id.0, tag)),
        !v.overridden.vf.contains_key((id.0, key)),
    ensures
        ({
            let w = binding_set(binding_noted(v, id, b.attribute), id, b).0;
            let back = binding_restored(w, id, b.attribute).0;
            &&& first_binding(back.entities[id.0].bindings, b.attribute) == first_binding(
                v.entities[id.0].bindings,
                b.attribute,
            )
            &&& back.overridden.bindings =~= v.overridden.bindings
        }),
        ({
            let w = tag_added(tag_noted(v, id, tag), id, tag).0;
            let back = crate::lsg::tag_restored(w, id, tag).0;
            &&& back.entities[id.0].tags.contains(tag) <==> v.entities[id.0].tags.contains(tag)
            &&& back.overridden.tags =~= v.overridden.tags
        }),
        ({
            let w = vf_set(vf_noted(v, id, key), id, key, value).0;
            let back = crate::lsg::vf_restored(w, id, key).0;
            &&& back.entities[id.0].vf =~= v.entities[id.0].vf
            &&& back.overridden.vf =~= v.overridden.vf
        }),
{
    let a = b.attribute;
    let bs = v.entities[id.0].bindings;
    let other = a.push('x');
    assert(other.len() != a.len());
    lemma_first_binding_set(bs, b, other);
    let set = with_binding(bs, b);
    lemma_first_binding_left(set, a, other);
    lemma_binds(bs, a);
    lemma_binds(set, a);
    if first_binding(bs, a) is Some {
        lemma_first_binding_set(set, first_binding(bs, a)->0, other);
    }
    let had = v.entities[id.0].tags;
    let w = tag_added(tag_noted(v, id, tag), id, tag).0;
    lemma_without_tag(w.entities[id.0].tags, tag, tag);
    assert(had.push(tag)[had.len() as int] == tag);
}

/// An anchor or an edge that opinions override is put back as it stood when it was
/// first noted, and goes where none stood.
pub proof fn law_noted_parts_are_put_back(v: LsgView, w: LsgView, anchor: AnchorId, edge: EdgeId)
    requires
        !v.overridden.anchors.contains_key(anchor.0),
        !v.overridden.edges.contains_key(edge.0),
        w.overridden.anchors == anchor_noted(v, anchor).overridden.anchors,
        w.overridden.edges == edge_noted(v, edge).overridden.edges,
    ensures
        ({
            let back = anchor_restored(w, anchor).0;
            &&& back.anchors.contains_key(anchor.0) == v.anchors.contains_key(anchor.0)
            &&& v.anchors.contains_key(anchor.0) ==> back.anchors[anchor.0] == v.anchors[anchor.0]
            &&& back.overridden.anchors =~= v.overridden.anchors
        }),
        ({
            let back = edge_restored(w, edge).0;
            &&& back.edges.contains_key(edge.0) == v.edges.contains_key(edge.0)
            &&& v.edges.contains_key(edge.0) ==> back.edges[edge.0] == v.edges[edge.0]
            &&& back.overridden.edges =~= v.overridden.edges
        }),
{
}

// ---------------------------------------------------------------------------
// Records.

/// The transform of a record is its matrix where it has one; else the translation that
/// it has stands at the end of the first three rows, and there is none where it has
/// none.
pub proof fn law_records_keep_their_transform(t: TransformRecord, row: int, col: int)
    requires
        0 <= row < 4,
        0 <= col < 4,
    ensures
        ({
            let m = record_matrix(Some(t));
            let unit = if row == col {
                Double { bits: 0x3ff0_0000_0000_0000 }
            } else {
                Double { bits: 0 }
            };
            &&& t.matrix is Some ==> m == t.matrix->0@
            &&& t.matrix is None && t.translate is Some ==> m[4 * row + col] == if col == 3 && row
                < 3 {
                t.translate->0@[row]
            } else {
                unit
            }
            &&& t.matrix is None && t.translate is None ==> m[4 * row + col] == unit
            &&& record_matrix(None)[4 * row + col] == unit
        }),
{
    if t.translate is Some {
        law_matrices_are_written_row_by_row(t.translate->0@, row, col);
    }
    law_matrices_are_written_row_by_row(seq![Double::zero_spec(); 3], row, col);
}

/// The entity of a record stands under the hash of its path and under the parent that
/// the record names; kind, metadata, bounds, payload and bindings are those of the
/// record.
pub proof fn law_records_become_entities(e: EntityView, r: PrimRecord, local: Aabb)
    requires
        is_entity_of(e, r, local),
    ensures
        e.id.0 == xxh64(encode_utf8(r.prim_path@)),
        e.prim_path == r.prim_path@,
        e.parent is Some <==> r.parent is Some,
        r.parent is Some ==> e.parent == Some(EntityId(xxh64(encode_utf8(r.parent->0@)))),
        e.kind == opt_view(r.kind),
        e.vf == map_views(r.vf@),
        r.extents_hint is Some ==> e.extents == r.extents_hint->0,
        r.extents_hint is None ==> forall|i: int|
            0 <= i < 3 ==> (#[trigger] e.extents.min@[i]).bits == 0 && (
            #[trigger] e.extents.max@[i]).bits == 0,
        e.local_extents == local,
        e.geom_ref is Some <==> r.geom_ref is Some,
        r.geom_ref is Some ==> {
            &&& e.geom_ref->0.payload_uri == r.geom_ref->0.payload_uri@
            &&& e.geom_ref->0.prim_path == r.geom_ref->0.prim_path@
            &&& e.geom_ref->0.content_hash == r.geom_ref->0.content_hash@
            &&& e.geom_ref->0.lod_ladder.len() == 0
        },
        e.bindings == views(r.bindings@),
        e.children.len() == 0,
{
}

/// A line holds a record where anything but white space stands on it and the first of
/// it is no number sign; the record is the line without the white space at its ends.
pub proof fn law_lines_hold_records(front: Seq<char>, record: Seq<char>, back: Seq<char>)
    requires
        forall|i: int| 0 <= i < front.len() ==> white(#[trigger] front[i]),
        forall|i: int| 0 <= i < back.len() ==> white(#[trigger] back[i]),
        record.len() > 0 ==> !white(record[0]) && !white(record.last()),
    ensures
        record_on(front + record + back) == if record.len() == 0 || record[0] == '#' {
            None
        } else {
            Some(record)
        },
{
    crate::text::law_trimming_takes_white_space_off(front, record, back);
}

/// An entity of a list, behind which none has its id.
pub open spec fn last_of_id(es: Seq<EntityView>, i: int) -> bool {
    0 <= i < es.len() && forall|j: int| i < j < es.len() ==> (#[trigger] es[j]).id != es[i].id
}

/// Entities that are entered one after the other are all in the index, each under its
/// id, and a later one in place of an earlier one that has it. Nothing else is.
pub proof fn law_entered_lists_are_indexed(v: LsgView, es: Seq<EntityView>, i: int, k: u64)
    ensures
        ({
            let w = all_inserted(v, es);
            &&& last_of_id(es, i) ==> w.entities.contains_key(es[i].id.0) && w.entities[es[i].id.0]
                == es[i]
            &&& w.entities.contains_key(k) <==> v.entities.contains_key(k) || exists|j: int|
                0 <= j < es.len() && (#[trigger] es[j]).id.0 == k
            &&& 0 <= i < es.len() && (forall|j: int|
                i < j < es.len() ==> (#[trigger] es[j]).prim_path != es[i].prim_path)
                ==> w.by_path.contains_key(es[i].prim_path) && w.by_path[es[i].prim_path]
                == es[i].id
            &&& w.anchors == v.anchors && w.edges == v.edges && w.revision == v.revision
        }),
    decreases es.len(),
{
    if es.len() > 0 {
        let init = es.drop_last();
        let last = es.last();
        assert(es[es.len() - 1] == last);
        law_entered_lists_are_indexed(v, init, i, k);
        if i < es.len() - 1 && 0 <= i {
            assert(init[i] == es[i]);
            if last_of_id(es, i) {
                assert forall|j: int| i < j < init.len() implies (#[trigger] init[j]).id
                    != init[i].id by {
                    assert(init[j] == es[j]);
                }
                assert(last.id != es[i].id);
            }
            if forall|j: int|
                i < j < es.len() ==> (#[trigger] es[j]).prim_path != es[i].prim_path {
                assert forall|j: int| i < j < init.len() implies (#[trigger] init[j]).prim_path
                    != init[i].prim_path by {
                    assert(init[j] == es[j]);
                }
                assert(last.prim_path != es[i].prim_path);
            }
        }
        if exists|j: int| 0 <= j < init.len() && (#[trigger] init[j]).id.0 == k {
            let j = choose|j: int| 0 <= j < init.len() && (#[trigger] init[j]).id.0 == k;
            assert(es[j].id.0 == k);
        }
        if exists|j: int| 0 <= j < es.len() && (#[trigger] es[j]).id.0 == k {
            let j = choose|j: int| 0 <= j < es.len() && (#[trigger] es[j]).id.0 == k;
            if j < init.len() {
                assert(init[j].id.0 == k);
            }
        }
    }
}

proof fn lemma_without_id(list: Seq<EntityId>, id: EntityId)
    ensures
        crate::lsg::without_id(list, id) == list.filter(|x: EntityId| x != id),
    decreases list.len(),
{
    reveal(Seq::filter);
    if list.len() > 0 {
        lemma_without_id(list.drop_last(), id);
    }
}

/// The entities that bind an attribute are listed in the order in which they came to:
/// one that begins to bind it comes last, one that ceases to leaves the others in their
/// order, and the lists of other attributes stay.
pub proof fn law_binding_lists_keep_their_order(
    v: LsgView,
    id: EntityId,
    b: TelemetryBindingView,
    other: Seq<char>,
)
    requires
        v.valid(),
        v.entities.contains_key(id.0),
        other != b.attribute,
    ensures
        ({
            let w = binding_set(v, id, b).0;
            let had = first_binding(v.entities[id.0].bindings, b.attribute) is Some;
            let before = bound_by(v.binding_index, b.attribute);
            &&& !had ==> bound_by(w.binding_index, b.attribute) == before.push(id)
            &&& had ==> bound_by(w.binding_index, b.attribute) == before
            &&& bound_by(w.binding_index, other) == bound_by(v.binding_index, other)
        }),
        ({
            let w = binding_removed(v, id, b.attribute).0;
            let before = bound_by(v.binding_index, b.attribute);
            &&& first_binding(v.entities[id.0].bindings, b.attribute) is Some ==> bound_by(
                w.binding_index,
                b.attribute,
            ) == before.filter(|x: EntityId| x != id)
            &&& first_binding(v.entities[id.0].bindings, b.attribute) is None ==> bound_by(
                w.binding_index,
                b.attribute,
            ) == before
            &&& bound_by(w.binding_index, other) == bound_by(v.binding_index, other)
        }),
{
    let before = bound_by(v.binding_index, b.attribute);
    let left = crate::lsg::without_id(before, id);
    lemma_without_id(before, id);
    if left.len() == 0 {
        assert(left =~= Seq::<EntityId>::empty());
    }
}

/// An entity that is entered in place of one with its id has nothing overridden; what
/// others have overridden, and what anchors and edges do, stays noted.
pub proof fn law_entering_forgets_what_was_overridden(
    v: LsgView,
    e: EntityView,
    k: u64,
    name: Seq<char>,
)
    ensures
        ({
            let w = v.inserted(e).overridden;
            let o = v.overridden;
            &&& w.bindings.contains_key((k, name)) <==> o.bindings.contains_key((k, name)) && k
                != e.id.0
            &&& w.tags.contains_key((k, name)) <==> o.tags.contains_key((k, name)) && k != e.id.0
            &&& w.vf.contains_key((k, name)) <==> o.vf.contains_key((k, name)) && k != e.id.0
            &&& w.bindings.contains_key((k, name)) ==> w.bindings[(k, name)] == o.bindings[(
                k,
                name,
            )]
            &&& w.tags.contains_key((k, name)) ==> w.tags[(k, name)] == o.tags[(k, name)]
            &&& w.vf.contains_key((k, name)) ==> w.vf[(k, name)] == o.vf[(k, name)]
            &&& w.anchors == o.anchors && w.edges == o.edges
        }),
{
}

proof fn lemma_without_tag_filter(tags: Seq<Seq<char>>, tag: Seq<char>)
    ensures
        without_tag(tags, tag) == tags.filter(|t: Seq<char>| t != tag),
    decreases tags.len(),
{
    reveal(Seq::filter);
    if tags.len() > 0 {
        lemma_without_tag_filter(tags.drop_last(), tag);
    }
}

proof fn lemma_without_binding_filter(bindings: Seq<TelemetryBindingView>, attribute: Seq<char>)
    ensures
        without_binding(bindings, attribute) == bindings.filter(
            |b: TelemetryBindingView| b.attribute != attribute,
        ),
    decreases bindings.len(),
{
    reveal(Seq::filter);
    if bindings.len() > 0 {
        lemma_without_binding_filter(bindings.drop_last(), attribute);
    }
}

/// A binding that is set stands where the first of its attribute stood, or behind all
/// others. What is removed leaves the other tags and bindings in their order.
pub proof fn law_records_keep_their_place(
    v: LsgView,
    id: EntityId,
    b: TelemetryBindingView,
    tag: Seq<char>,
    i: int,
)
    requires
        v.entities.contains_key(id.0),
    ensures
        ({
            let had = v.entities[id.0].bindings;
            let now = binding_set(v, id, b).0.entities[id.0].bindings;
            &&& 0 <= i < had.len() && had[i].attribute == b.attribute && (forall|j: int|
                0 <= j < i ==> (#[trigger] had[j]).attribute != b.attribute) ==> now == had.update(
                i,
                b,
            )
            &&& (forall|j: int| 0 <= j < had.len() ==> (#[trigger] had[j]).attribute != b.attribute)
                ==> now == had.push(b)
        }),
        tag_removed(v, id, tag).0.entities[id.0].tags == v.entities[id.0].tags.filter(
            |t: Seq<char>| t != tag,
        ),
        binding_removed(v, id, b.attribute).0.entities[id.0].bindings
            == v.entities[id.0].bindings.filter(
            |x: TelemetryBindingView| x.attribute != b.attribute,
        ),
{
    let had = v.entities[id.0].bindings;
    let tags = v.entities[id.0].tags;
    lemma_binds(had, b.attribute);
    lemma_without_tag_filter(tags, tag);
    lemma_without_binding_filter(had, b.attribute);
    if 0 <= i < had.len() && had[i].attribute == b.attribute && (forall|j: int|
        0 <= j < i ==> (#[trigger] had[j]).attribute != b.attribute) {
        lemma_binding_at(had, b.attribute, i);
    }
    if forall|j: int| 0 <= j < had.len() ==> (#[trigger] had[j]).attribute != b.attribute {
        lemma_binding_at(had, b.attribute, had.len() as int);
    }
    if !tags.contains(tag) {
        lemma_nothing_filtered(tags, tag);
    }
    if !names(had, b.attribute) {
        lemma_no_binding_filtered(had, b.attribute);
    }
}

proof fn lemma_nothing_filtered(tags: Seq<Seq<char>>, tag: Seq<char>)
    requires
        !tags.contains(tag),
    ensures
        tags.filter(|t: Seq<char>| t != tag) == tags,
    decreases tags.len(),
{
    reveal(Seq::filter);
    if tags.len() > 0 {
        let init = tags.drop_last();
        assert(tags[tags.len() - 1] == tags.last());
        assert(tags.last() != tag);
        if init.contains(tag) {
            let i = choose|i: int| 0 <= i < init.len() && init[i] == tag;
            assert(tags[i] == tag);
        }
        lemma_nothing_filtered(init, tag);
        assert(init.push(tags.last()) =~= tags);
    }
}

proof fn lemma_no_binding_filtered(bindings: Seq<TelemetryBindingView>, attribute: Seq<char>)
    requires
        !names(bindings, attribute),
    ensures
        bindings.filter(|b: TelemetryBindingView| b.attribute != attribute) == bindings,
    decreases bindings.len(),
{
    reveal(Seq::filter);
    if bindings.len() > 0 {
        let init = bindings.drop_last();
        lemma_binds(bindings, attribute);
        lemma_binds(init, attribute);
        assert(bindings[bindings.len() - 1] == bindings.last());
        assert(bindings.last().attribute != attribute);
        if names(init, attribute) {
            let i = crate::lsg::binding_at(init, attribute);
            assert(bindings[i] == init[i]);
        }
        lemma_no_binding_filtered(init, attribute);
        assert(init.push(bindings.last()) =~= bindings);
    }
}

} // verus!
