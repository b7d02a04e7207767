//! Import: records of prims, one per line, become the entities of the index.
//!
//! Reading the lines and parsing them is done elsewhere; what counts as a record,
//! and what a record means, is decided here.

use crate::dict::TextMap;
use crate::lsg::{
    identity_matrix, linked, translated, Aabb, Entity, EntityId, EntityView, GeomRef, GeomRefView,
    Lsg, LsgView, TelemetryBinding, Transform, VfItem, VfItemView, VfValue, VfValueView,
};
use crate::model::{group_models, map_views, opt_view, views};
use crate::scalar::Double;
use crate::synth::{all_inserted, empty_index};
use crate::text::{trim_text, trimmed};
use vstd::prelude::*;
use vstd::string::*;

verus! {

/// A local transform as a record has it.
#[derive(Debug)]
pub struct TransformRecord {
    pub translate: Option<[Double; 3]>,
    /// A row-major matrix, where a full transform was resolved.
    pub matrix: Option<[Double; 16]>,
}

/// A payload as a record has it.
#[derive(Debug)]
pub struct GeomRefRecord {
    pub payload_uri: String,
    pub prim_path: String,
    pub content_hash: String,
}

/// A prim as a record has it.
#[derive(Debug)]
pub struct PrimRecord {
    pub prim_path: String,
    pub kind: Option<String>,
    pub parent: Option<String>,
    pub transform: Option<TransformRecord>,
    /// The authored bounds, where there are any.
    pub extents_hint: Option<Aabb>,
    pub vf: TextMap<VfValue>,
    pub tags: Vec<String>,
    pub geom_ref: Option<GeomRefRecord>,
    pub bindings: Vec<TelemetryBinding>,
}

/// The transform of a record: its matrix, or else its translation, or else the
/// identity.
pub open spec fn record_matrix(t: Option<TransformRecord>) -> Seq<Double> {
    match t {
        Some(t) => match (t.matrix, t.translate) {
            (Some(m), _) => m@,
            (None, Some(p)) => translated(p@),
            (None, None) => identity_matrix(),
        },
        None => identity_matrix(),
    }
}

/// The strings among the items of a list.
pub open spec fn item_texts(items: Seq<VfItemView>) -> Seq<Seq<char>>
    decreases items.len(),
{
    if items.len() == 0 {
        Seq::empty()
    } else {
        let init = item_texts(items.drop_last());
        match items.last() {
            VfItemView::Text(s) => init.push(s),
            VfItemView::Other(_) => init,
        }
    }
}

/// The tags of a record: those that it lists, or else the strings of the `tags`
/// list of its metadata.
pub open spec fn record_tags(
    tags: Seq<Seq<char>>,
    vf: Map<Seq<char>, VfValueView>,
) -> Seq<Seq<char>> {
    if tags.len() > 0 || !vf.contains_key("tags"@) {
        tags
    } else {
        match vf["tags"@] {
            VfValueView::List(items) => item_texts(items),
            _ => tags,
        }
    }
}

pub open spec fn record_geom(g: Option<GeomRefRecord>) -> Option<GeomRefView> {
    match g {
        Some(g) => Some(
            GeomRefView {
                payload_uri: g.payload_uri@,
                prim_path: g.prim_path@,
                content_hash: g.content_hash@,
                lod_ladder: Seq::empty(),
            },
        ),
        None => None,
    }
}

/// An entity is the one that a record describes.
pub open spec fn is_entity_of(e: EntityView, r: PrimRecord, local: Aabb) -> bool {
    &&& e.id == EntityId::of_path(r.prim_path@)
    &&& e.prim_path == r.prim_path@
    &&& e.parent == match r.parent {
        Some(p) => Some(EntityId::of_path(p@)),
        None => None,
    }
    &&& e.children == Seq::<EntityId>::empty()
    &&& e.kind == opt_view(r.kind)
    &&& e.tags == record_tags(views(r.tags@), map_views(r.vf@))
    &&& e.vf == map_views(r.vf@)
    &&& e.transform_default@ == record_matrix(r.transform)
    &&& match r.extents_hint {
        Some(a) => e.extents == a,
        None => e.extents.min@ == seq![Double::zero_spec(); 3] && e.extents.max@
            == seq![Double::zero_spec(); 3],
    }
    &&& e.local_extents == local
    &&& e.geom_ref == record_geom(r.geom_ref)
    &&& e.bindings == views(r.bindings@)
}

impl PrimRecord {
    /// The transform of the record.
    pub fn transform_default(&self) -> (t: Transform)
        ensures
            t@ == record_matrix(self.transform),
    {
        match &self.transform {
            Some(t) => match t.matrix {
                Some(matrix) => Transform { matrix },
                None => match t.translate {
                    Some(p) => Transform::from_translation(p),
                    None => Transform::identity(),
                },
            },
            None => Transform::identity(),
        }
    }

    /// The entity that the record describes. `local_extents` are its bounds less
    /// the origin of its transform.
    pub fn into_entity(self, local_extents: Aabb) -> (e: Entity)
        ensures
            is_entity_of(e@, self, local_extents),
    {
        let id = EntityId::from_prim_path(self.prim_path.as_str());
        let parent = match &self.parent {
            Some(p) => Some(EntityId::from_prim_path(p.as_str())),
            None => None,
        };
        let transform_default = self.transform_default();
        let extents = match self.extents_hint {
            Some(a) => a,
            None => Aabb::zero(),
        };
        let mut tags = self.tags;
        if tags.len() == 0 {
            if let Some(VfValue::List(items)) = self.vf.get("tags") {
                tags = list_texts(items);
            }
        }
        let geom_ref = match self.geom_ref {
            Some(g) => {
                let r = GeomRef {
                    payload_uri: g.payload_uri,
                    prim_path: g.prim_path,
                    content_hash: g.content_hash,
                    lod_ladder: Vec::new(),
                };
                proof {
                    assert(r@.lod_ladder =~= Seq::empty());
                }
                Some(r)
            },
            None => None,
        };
        let e = Entity {
            id,
            prim_path: self.prim_path,
            parent,
            children: Vec::new(),
            kind: self.kind,
            tags,
            vf: self.vf,
            transform_default,
            extents,
            local_extents,
            geom_ref,
            bindings: self.bindings,
        };
        proof {
            assert(e@.children =~= Seq::<EntityId>::empty());
        }
        e
    }
}

/// The strings among the items of a list.
fn list_texts(items: &Vec<VfItem>) -> (r: Vec<String>)
    ensures
        views(r@) == item_texts(views(items@)),
{
    broadcast use group_models;

    let ghost all = views(items@);
    let mut r: Vec<String> = Vec::new();
    let mut i: usize = 0;
    proof {
        assert(views(r@) =~= item_texts(all.take(0)));
    }
    while i < items.len()
        invariant
            i <= items@.len(),
            all == views(items@),
            views(r@) == item_texts(all.take(i as int)),
        decreases items@.len() - i,
    {
        proof {
            assert(all.take(i + 1).drop_last() =~= all.take(i as int));
            assert(all.take(i + 1).last() == items@[i as int]@);
        }
        match &items[i] {
            VfItem::Text(s) => r.push(s.clone()),
            VfItem::Other(_) => {},
        }
        i = i + 1;
    }
    proof {
        assert(all.take(i as int) =~= all);
    }
    r
}

/// The record on a line: the line without the white space around it. Blank lines
/// and lines that start with `#` hold none.
pub open spec fn record_on(line: Seq<char>) -> Option<Seq<char>> {
    let t = trimmed(line);
    if t.len() == 0 || t[0] == '#' {
        None
    } else {
        Some(t)
    }
}

/// The text of the record on a line, if there is one.
pub fn record_text(line: &str) -> (r: Option<String>)
    ensures
        match r {
            Some(t) => record_on(line@) == Some(t@),
            None => record_on(line@) is None,
        },
{
    let t = trim_text(line);
    if t.as_str().unicode_len() == 0 || t.as_str().get_char(0) == '#' {
        None
    } else {
        Some(t)
    }
}

/// Builds the index of imported entities.
pub fn build(entities: Vec<Entity>) -> (lsg: Lsg)
    ensures
        lsg.wf(),
        ({
            let v = all_inserted(empty_index(), views(entities@));
            lsg@ == (LsgView { entities: linked(v.entities), revision: 1, ..v })
        }),
{
    let ghost all = views(entities@);
    let mut entities = entities;
    let mut rest: Vec<Entity> = Vec::new();
    let ghost n = all.len();
    // Taken from the back, the entities come out of `rest` from the front.
    while entities.len() > 0
        invariant
            entities@.len() + rest@.len() == n,
            n == all.len(),
            forall|i: int| 0 <= i < entities@.len() ==> (#[trigger] entities@[i])@ == all[i],
            forall|i: int| 0 <= i < rest@.len() ==> (#[trigger] rest@[i])@ == all[n - 1 - i],
        decreases entities@.len(),
    {
        if let Some(e) = entities.pop() {
            rest.push(e);
        }
    }
    let mut lsg = Lsg::new();
    let ghost mut k: int = 0;
    proof {
        assert(all.take(0) =~= Seq::empty());
    }
    while rest.len() > 0
        invariant
            0 <= k <= n,
            rest@.len() == n - k,
            n == all.len(),
            forall|i: int| 0 <= i < rest@.len() ==> (#[trigger] rest@[i])@ == all[n - 1 - i],
            lsg.wf(),
            lsg@.revision == 0,
            lsg@ == all_inserted(empty_index(), all.take(k)),
        decreases rest@.len(),
    {
        proof {
            assert(rest@[rest@.len() - 1]@ == all[k]);
            assert(all.take(k + 1).drop_last() =~= all.take(k));
            assert(all.take(k + 1).last() == all[k]);
        }
        if let Some(e) = rest.pop() {
            lsg.insert(e);
        }
        proof {
            k = k + 1;
        }
    }
    proof {
        assert(all.take(k) =~= all);
    }
    lsg.link_hierarchy();
    lsg
}

/// The interpreter for the import helper: the one asked for, or else the one that
/// the environment names, or else that of the tools directory where there is one,
/// or else `python3`.
pub fn choose_python(
    explicit: Option<&str>,
    env: Option<&str>,
    venv: &str,
    venv_exists: bool,
) -> (r: String)
    ensures
        r@ == match (explicit, env) {
            (Some(p), _) => p@,
            (None, Some(e)) if e@.len() > 0 => e@,
            _ => if venv_exists {
                venv@
            } else {
                "python3"@
            },
        },
{
    if let Some(p) = explicit {
        return p.to_owned();
    }
    if let Some(e) = env {
        if !e.is_empty() {
            return e.to_owned();
        }
    }
    if venv_exists {
        venv.to_owned()
    } else {
        "python3".to_owned()
    }
}

/// The strings of a metadata list are taken over: every string of the list is there,
/// they come in the order of the list, and nothing else is. Where all items are
/// strings there are as many as items.
pub proof fn law_list_strings_are_taken_over(items: Seq<VfItemView>)
    ensures
        ({
            let texts = item_texts(items);
            &&& texts.len() <= items.len()
            &&& forall|i: int|
                0 <= i < items.len() ==> (#[trigger] items[i] matches VfItemView::Text(s)
                    ==> texts.contains(s))
            &&& forall|t: Seq<char>| #[trigger]
                texts.contains(t) ==> items.contains(VfItemView::Text(t))
            &&& (forall|i: int| 0 <= i < items.len() ==> (#[trigger] items[i]) is Text)
                ==> texts.len() == items.len() && forall|i: int|
                0 <= i < items.len() ==> #[trigger] items[i] == VfItemView::Text(texts[i])
        }),
    decreases items.len(),
{
    if items.len() > 0 {
        let init = items.drop_last();
        let last = items.last();
        law_list_strings_are_taken_over(init);
        let before = item_texts(init);
        let texts = item_texts(items);
        assert forall|i: int| 0 <= i < items.len() implies (#[trigger] items[
            i
        ] matches VfItemView::Text(s) ==> texts.contains(s)) by {
            if let VfItemView::Text(s) = items[i] {
                if i < init.len() {
                    assert(init[i] == items[i]);
                    assert(before.contains(s));
                    let j = choose|j: int| 0 <= j < before.len() && before[j] == s;
                    assert(texts[j] == s);
                } else {
                    assert(texts[before.len() as int] == s);
                }
            }
        }
        assert forall|t: Seq<char>| #[trigger] texts.contains(t) implies items.contains(
            VfItemView::Text(t),
        ) by {
            let j = choose|j: int| 0 <= j < texts.len() && texts[j] == t;
            if j < before.len() {
                assert(before[j] == t);
                assert(before.contains(t));
                assert(init.contains(VfItemView::Text(t)));
                let i = choose|i: int| 0 <= i < init.len() && init[i] == VfItemView::Text(t);
                assert(items[i] == VfItemView::Text(t));
            } else {
                assert(items[items.len() - 1] == VfItemView::Text(t));
            }
        }
        if forall|i: int| 0 <= i < items.len() ==> (#[trigger] items[i]) is Text {
            assert forall|i: int| 0 <= i < init.len() implies (#[trigger] init[i]) is Text by {
                assert(items[i] is Text);
            }
            assert(items[items.len() - 1] is Text);
            assert forall|i: int| 0 <= i < items.len() implies #[trigger] items[i]
                == VfItemView::Text(texts[i]) by {
                if i < init.len() {
                    assert(init[i] == VfItemView::Text(before[i]));
                }
            }
        }
    }
}

/// The strings of a list stand in the order of the list.
pub proof fn law_list_strings_keep_their_order(a: Seq<VfItemView>, b: Seq<VfItemView>)
    ensures
        item_texts(a + b) == item_texts(a) + item_texts(b),
        forall|s: Seq<char>| #[trigger]
            item_texts(seq![VfItemView::Text(s)]) == seq![s],
        forall|s: Seq<char>| #[trigger]
            item_texts(seq![VfItemView::Other(s)]) == Seq::<Seq<char>>::empty(),
    decreases b.len(),
{
    if b.len() == 0 {
        assert(a + b =~= a);
        assert(item_texts(a) + item_texts(b) =~= item_texts(a));
    } else {
        law_list_strings_keep_their_order(a, b.drop_last());
        assert((a + b).drop_last() =~= a + b.drop_last());
        assert((a + b).last() == b.last());
        if let VfItemView::Text(s) = b.last() {
            assert(item_texts(a) + item_texts(b.drop_last()).push(s) =~= (item_texts(a)
                + item_texts(b.drop_last())).push(s));
        }
    }
    assert forall|s: Seq<char>| #[trigger] item_texts(seq![VfItemView::Text(s)]) == seq![s] by {
        let one = seq![VfItemView::Text(s)];
        assert(one.drop_last() =~= Seq::<VfItemView>::empty());
        assert(item_texts(one.drop_last()) =~= Seq::<Seq<char>>::empty());
        assert(item_texts(one) =~= seq![s]);
    }
    assert forall|s: Seq<char>| #[trigger] item_texts(seq![VfItemView::Other(s)]) == Seq::<
        Seq<char>,
    >::empty() by {
        let one = seq![VfItemView::Other(s)];
        assert(one.drop_last() =~= Seq::<VfItemView>::empty());
        assert(item_texts(one.drop_last()) =~= Seq::<Seq<char>>::empty());
    }
}

/// The entity of a record has the tags that the record lists. Where it lists none,
/// they are the strings of the `tags` list of its metadata, one for one where the list
/// holds nothing else.
pub proof fn law_records_keep_their_tags(e: EntityView, r: PrimRecord, local: Aabb)
    requires
        is_entity_of(e, r, local),
    ensures
        r.tags@.len() > 0 ==> e.tags == views(r.tags@),
        r.tags@.len() == 0 && map_views(r.vf@).contains_key("tags"@) ==> (map_views(
            r.vf@,
        )["tags"@] matches VfValueView::List(items) ==> {
            &&& forall|i: int|
                0 <= i < items.len() ==> (#[trigger] items[i] matches VfItemView::Text(s)
                    ==> e.tags.contains(s))
            &&& forall|t: Seq<char>| #[trigger]
                e.tags.contains(t) ==> items.contains(VfItemView::Text(t))
            &&& (forall|i: int| 0 <= i < items.len() ==> (#[trigger] items[i]) is Text)
                ==> e.tags.len() == items.len() && forall|i: int|
                0 <= i < items.len() ==> #[trigger] items[i] == VfItemView::Text(e.tags[i])
        }),
        r.tags@.len() == 0 && !map_views(r.vf@).contains_key("tags"@) ==> e.tags.len() == 0,
{
    if map_views(r.vf@).contains_key("tags"@) {
        if let VfValueView::List(items) = map_views(r.vf@)["tags"@] {
            law_list_strings_are_taken_over(items);
        }
    }
}

} // verus!
