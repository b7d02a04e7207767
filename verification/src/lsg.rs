//! Logical Scene Graph: the always-resident index of what exists in a scene.
//!
//! It says what there is, where (coarse extents), how to hydrate it later
//! ([`GeomRef`]) and how to resolve its telemetry ([`TelemetryBinding`]). It holds
//! no live values and no geometry. All that comes from the authored stage is a
//! default, which pins and telemetry may override.

use crate::dict::{contains_text, TextMap};
use crate::model::{capped, group_models, lemma_insert_same, map_views, opt_view, views};
use crate::overridden::{Overridden, OverriddenView};
use crate::scalar::Double;
use crate::table::{ascending, lemma_ascending, lists, IdMap};
use crate::text::{cat3, hex16, hex16_of};
use vstd::hash_map::StringHashMap;
use vstd::prelude::*;
use vstd::string::*;
use vstd::utf8::encode_utf8;

verus! {

// ---------------------------------------------------------------------------
// Stable ids.

/// The 64-bit xxHash of bytes under seed zero.
pub uninterp spec fn xxh64(bytes: Seq<u8>) -> u64;

/// `twox_hash::XxHash64::oneshot` with seed zero: the hash is a function of the
/// bytes, the same in every process.
#[verifier::external_body]
fn xx_hash(bytes: &[u8]) -> (h: u64)
    ensures
        h == xxh64(bytes@),
{
    twox_hash::XxHash64::oneshot(0, bytes)
}

/// Stable identity of an entity: a hash of its prim path. Pins key off this value
/// across restarts. It travels as sixteen hexadecimal digits, since not every
/// reader of JSON keeps 64-bit integers exact.
#[derive(Debug, Clone, Copy, PartialEq, Eq, Hash, PartialOrd, Ord, Structural)]
pub struct EntityId(pub u64);

impl EntityId {
    pub open spec fn of_path(prim_path: Seq<char>) -> EntityId {
        EntityId(xxh64(encode_utf8(prim_path)))
    }

    pub fn from_prim_path(prim_path: &str) -> (id: Self)
        ensures
            id == EntityId::of_path(prim_path@),
    {
        EntityId(xx_hash(prim_path.as_bytes()))
    }

    pub fn as_hex(&self) -> (s: String)
        ensures
            s@ == hex16_of(self.0),
    {
        hex16(self.0)
    }
}

/// Stable identity of an anchor: a hash of its entity and its name.
#[derive(Debug, Clone, Copy, PartialEq, Eq, Hash, PartialOrd, Ord, Structural)]
pub struct AnchorId(pub u64);

impl AnchorId {
    pub open spec fn of(entity: EntityId, name: Seq<char>) -> AnchorId {
        AnchorId(xxh64(encode_utf8(hex16_of(entity.0) + "#anchor#"@ + name)))
    }

    pub fn new(entity: EntityId, name: &str) -> (id: Self)
        ensures
            id == AnchorId::of(entity, name@),
    {
        let text = cat3(entity.as_hex().as_str(), "#anchor#", name);
        AnchorId(xx_hash(text.as_str().as_bytes()))
    }

    pub fn as_hex(&self) -> (s: String)
        ensures
            s@ == hex16_of(self.0),
    {
        hex16(self.0)
    }
}

/// Stable identity of an edge: a hash of its two ends, in order.
#[derive(Debug, Clone, Copy, PartialEq, Eq, Hash, PartialOrd, Ord, Structural)]
pub struct EdgeId(pub u64);

/// How one end of an edge is written: the entity, a point and the anchor.
pub open spec fn end_text(end: (EntityId, Seq<char>)) -> Seq<char> {
    hex16_of(end.0.0) + "."@ + end.1
}

impl EdgeId {
    pub open spec fn of(from: (EntityId, Seq<char>), to: (EntityId, Seq<char>)) -> EdgeId {
        EdgeId(xxh64(encode_utf8(end_text(from) + "->"@ + end_text(to))))
    }

    pub fn new(from: (EntityId, &str), to: (EntityId, &str)) -> (id: Self)
        ensures
            id == EdgeId::of((from.0, from.1@), (to.0, to.1@)),
    {
        let a = cat3(from.0.as_hex().as_str(), ".", from.1);
        let b = cat3(to.0.as_hex().as_str(), ".", to.1);
        let text = cat3(a.as_str(), "->", b.as_str());
        EdgeId(xx_hash(text.as_str().as_bytes()))
    }

    pub fn as_hex(&self) -> (s: String)
        ensures
            s@ == hex16_of(self.0),
    {
        hex16(self.0)
    }
}

// ---------------------------------------------------------------------------
// Geometry.

/// A row-major 4x4 transform. The authored one is a default; a pin is stronger.
#[derive(Debug, Clone, Copy, PartialEq)]
pub struct Transform {
    pub matrix: [Double; 16],
}

/// The identity matrix, row by row.
pub open spec fn identity_matrix() -> Seq<Double> {
    Seq::new(
        16,
        |i: int|
            if i % 5 == 0 {
                Double::one_spec()
            } else {
                Double::zero_spec()
            },
    )
}

/// The identity with a translation in the last column of the first three rows.
pub open spec fn translated(t: Seq<Double>) -> Seq<Double> {
    identity_matrix().update(3, t[0]).update(7, t[1]).update(11, t[2])
}

/// The last column of the first three rows.
pub open spec fn translation_part(m: Seq<Double>) -> Seq<Double> {
    seq![m[3], m[7], m[11]]
}

/// A translation that goes into a transform comes back out of it.
pub proof fn law_translation_round_trip(t: Seq<Double>)
    requires
        t.len() == 3,
    ensures
        translation_part(translated(t)) == t,
{
    assert(translation_part(translated(t)) =~= t);
}

impl View for Transform {
    type V = Seq<Double>;

    open spec fn view(&self) -> Seq<Double> {
        self.matrix@
    }
}

impl Transform {
    pub fn identity() -> (t: Self)
        ensures
            t@ == identity_matrix(),
    {
        let z = Double::zero();
        let o = Double::one();
        let t = Transform { matrix: [o, z, z, z, z, o, z, z, z, z, o, z, z, z, z, o] };
        proof {
            assert(t@ =~= identity_matrix());
        }
        t
    }

    /// The identity with a translation in the last column of the first three
    /// rows.
    pub fn from_translation(t: [Double; 3]) -> (r: Self)
        ensures
            r@ == translated(t@),
    {
        let z = Double::zero();
        let o = Double::one();
        let r = Transform {
            matrix: [o, z, z, t[0], z, o, z, t[1], z, z, o, t[2], z, z, z, o],
        };
        proof {
            assert(r@ =~= translated(t@));
        }
        r
    }

    /// The last column of the first three rows.
    pub fn translation(&self) -> (t: [Double; 3])
        ensures
            t@ == translation_part(self@),
    {
        let t = [self.matrix[3], self.matrix[7], self.matrix[11]];
        proof {
            assert(t@ =~= translation_part(self@));
        }
        t
    }
}

impl Default for Transform {
    fn default() -> (t: Self)
        ensures
            t@ == identity_matrix(),
    {
        Transform::identity()
    }
}

/// A coarse axis-aligned box.
#[derive(Debug, Clone, Copy, PartialEq)]
pub struct Aabb {
    pub min: [Double; 3],
    pub max: [Double; 3],
}

impl Aabb {
    pub fn zero() -> (a: Self)
        ensures
            a.min@ == seq![Double::zero_spec(); 3],
            a.max@ == seq![Double::zero_spec(); 3],
    {
        let z = Double::zero();
        let a = Aabb { min: [z, z, z], max: [z, z, z] };
        proof {
            assert(a.min@ =~= seq![Double::zero_spec(); 3]);
            assert(a.max@ =~= seq![Double::zero_spec(); 3]);
        }
        a
    }
}

// ---------------------------------------------------------------------------
// Records.

/// Handle into the geometry store.
#[derive(Debug, PartialEq)]
pub struct GeomRef {
    /// The payload's asset URI as authored (`./components/pump.usda`).
    pub payload_uri: String,
    /// The target prim inside the payload (`/Pump`).
    pub prim_path: String,
    /// Content hash of the payload file; empty where it could not be read.
    pub content_hash: String,
    /// Handles of coarser variants.
    pub lod_ladder: Vec<String>,
}

pub struct GeomRefView {
    pub payload_uri: Seq<char>,
    pub prim_path: Seq<char>,
    pub content_hash: Seq<char>,
    pub lod_ladder: Seq<Seq<char>>,
}

impl View for GeomRef {
    type V = GeomRefView;

    open spec fn view(&self) -> GeomRefView {
        GeomRefView {
            payload_uri: self.payload_uri@,
            prim_path: self.prim_path@,
            content_hash: self.content_hash@,
            lod_ladder: views(self.lod_ladder@),
        }
    }
}

/// A copy of a list of strings.
pub fn copy_texts(list: &Vec<String>) -> (r: Vec<String>)
    ensures
        views(r@) == views(list@),
{
    broadcast use group_models;

    let mut r: Vec<String> = Vec::new();
    let mut i: usize = 0;
    while i < list.len()
        invariant
            i <= list@.len(),
            views(r@) == views(list@).take(i as int),
        decreases list@.len() - i,
    {
        r.push(list[i].clone());
        i = i + 1;
        proof {
            assert(views(list@).take(i as int) =~= views(list@).take(i - 1).push(
                list@[i - 1]@,
            ));
        }
    }
    proof {
        assert(views(list@).take(i as int) =~= views(list@));
    }
    r
}

impl Clone for GeomRef {
    fn clone(&self) -> (g: Self)
        ensures
            g@ == self@,
    {
        GeomRef {
            payload_uri: self.payload_uri.clone(),
            prim_path: self.prim_path.clone(),
            content_hash: self.content_hash.clone(),
            lod_ladder: copy_texts(&self.lod_ladder),
        }
    }
}

/// A copy of an optional handle.
pub fn copy_geom(g: &Option<GeomRef>) -> (r: Option<GeomRef>)
    ensures
        opt_view(r) == opt_view(*g),
{
    match g {
        Some(g) => Some(g.clone()),
        None => None,
    }
}

/// How to resolve a telemetry value; never the value itself.
#[derive(Debug, PartialEq)]
pub struct TelemetryBinding {
    pub attribute: String,
    pub source_id: String,
    pub query: String,
    pub unit: String,
    pub ttl_ms: Double,
    pub priority: String,
    pub quality_policy: String,
}

pub struct TelemetryBindingView {
    pub attribute: Seq<char>,
    pub source_id: Seq<char>,
    pub query: Seq<char>,
    pub unit: Seq<char>,
    pub ttl_ms: Double,
    pub priority: Seq<char>,
    pub quality_policy: Seq<char>,
}

impl View for TelemetryBinding {
    type V = TelemetryBindingView;

    open spec fn view(&self) -> TelemetryBindingView {
        TelemetryBindingView {
            attribute: self.attribute@,
            source_id: self.source_id@,
            query: self.query@,
            unit: self.unit@,
            ttl_ms: self.ttl_ms,
            priority: self.priority@,
            quality_policy: self.quality_policy@,
        }
    }
}

impl Clone for TelemetryBinding {
    fn clone(&self) -> (b: Self)
        ensures
            b@ == self@,
    {
        TelemetryBinding {
            attribute: self.attribute.clone(),
            source_id: self.source_id.clone(),
            query: self.query.clone(),
            unit: self.unit.clone(),
            ttl_ms: self.ttl_ms,
            priority: self.priority.clone(),
            quality_policy: self.quality_policy.clone(),
        }
    }
}

/// An anchor point on an entity.
#[derive(Debug, PartialEq)]
pub struct Anchor {
    pub id: AnchorId,
    pub entity: EntityId,
    pub name: String,
    /// Offset from the entity's origin.
    pub pos: [Double; 3],
}

pub struct AnchorView {
    pub id: AnchorId,
    pub entity: EntityId,
    pub name: Seq<char>,
    pub pos: Seq<Double>,
}

impl View for Anchor {
    type V = AnchorView;

    open spec fn view(&self) -> AnchorView {
        AnchorView { id: self.id, entity: self.entity, name: self.name@, pos: self.pos@ }
    }
}

impl Clone for Anchor {
    fn clone(&self) -> (a: Self)
        ensures
            a@ == self@,
    {
        Anchor { id: self.id, entity: self.entity, name: self.name.clone(), pos: self.pos }
    }
}

/// Connectivity between two anchors.
#[derive(Debug, PartialEq)]
pub struct Edge {
    pub id: EdgeId,
    pub from: (EntityId, String),
    pub to: (EntityId, String),
}

pub struct EdgeView {
    pub id: EdgeId,
    pub from: (EntityId, Seq<char>),
    pub to: (EntityId, Seq<char>),
}

impl View for Edge {
    type V = EdgeView;

    open spec fn view(&self) -> EdgeView {
        EdgeView {
            id: self.id,
            from: (self.from.0, self.from.1@),
            to: (self.to.0, self.to.1@),
        }
    }
}

impl Clone for Edge {
    fn clone(&self) -> (e: Self)
        ensures
            e@ == self@,
    {
        Edge {
            id: self.id,
            from: (self.from.0, self.from.1.clone()),
            to: (self.to.0, self.to.1.clone()),
        }
    }
}

/// One item of a metadata list: a string, or anything else as JSON text.
#[derive(Debug, PartialEq)]
pub enum VfItem {
    Text(String),
    Other(String),
}

pub enum VfItemView {
    Text(Seq<char>),
    Other(Seq<char>),
}

impl View for VfItem {
    type V = VfItemView;

    open spec fn view(&self) -> VfItemView {
        match self {
            VfItem::Text(s) => VfItemView::Text(s@),
            VfItem::Other(s) => VfItemView::Other(s@),
        }
    }
}

impl Clone for VfItem {
    fn clone(&self) -> (r: Self)
        ensures
            r@ == self@,
    {
        match self {
            VfItem::Text(s) => VfItem::Text(s.clone()),
            VfItem::Other(s) => VfItem::Other(s.clone()),
        }
    }
}

/// A metadata value: a string, a list, or anything else as JSON text.
#[derive(Debug, PartialEq)]
pub enum VfValue {
    Text(String),
    List(Vec<VfItem>),
    Other(String),
}

pub enum VfValueView {
    Text(Seq<char>),
    List(Seq<VfItemView>),
    Other(Seq<char>),
}

impl View for VfValue {
    type V = VfValueView;

    open spec fn view(&self) -> VfValueView {
        match self {
            VfValue::Text(s) => VfValueView::Text(s@),
            VfValue::List(items) => VfValueView::List(views(items@)),
            VfValue::Other(s) => VfValueView::Other(s@),
        }
    }
}

impl Clone for VfValue {
    fn clone(&self) -> (r: Self)
        ensures
            r@ == self@,
    {
        match self {
            VfValue::Text(s) => VfValue::Text(s.clone()),
            VfValue::List(items) => VfValue::List(copy_items(items)),
            VfValue::Other(s) => VfValue::Other(s.clone()),
        }
    }
}

fn copy_items(items: &Vec<VfItem>) -> (r: Vec<VfItem>)
    ensures
        views(r@) == views(items@),
{
    broadcast use group_models;

    let mut r: Vec<VfItem> = Vec::new();
    let mut i: usize = 0;
    while i < items.len()
        invariant
            i <= items@.len(),
            views(r@) == views(items@).take(i as int),
        decreases items@.len() - i,
    {
        r.push(items[i].clone());
        i = i + 1;
        proof {
            let all = views(items@);
            assert(all.take(i as int) =~= all.take(i - 1).push(all[i - 1]));
        }
    }
    proof {
        assert(views(items@).take(i as int) =~= views(items@));
    }
    r
}

/// One indexed prim. All that comes from the stage is a default.
#[derive(Debug, Clone)]
pub struct Entity {
    pub id: EntityId,
    pub prim_path: String,
    pub parent: Option<EntityId>,
    pub children: Vec<EntityId>,
    /// `assembly`, `group`, `component` and the like, where authored.
    pub kind: Option<String>,
    pub tags: Vec<String>,
    /// The composed metadata dictionary.
    pub vf: TextMap<VfValue>,
    pub transform_default: Transform,
    pub extents: Aabb,
    /// The extents less the origin of the authored transform.
    pub local_extents: Aabb,
    pub geom_ref: Option<GeomRef>,
    pub bindings: Vec<TelemetryBinding>,
}

pub struct EntityView {
    pub id: EntityId,
    pub prim_path: Seq<char>,
    pub parent: Option<EntityId>,
    pub children: Seq<EntityId>,
    pub kind: Option<Seq<char>>,
    pub tags: Seq<Seq<char>>,
    pub vf: Map<Seq<char>, VfValueView>,
    pub transform_default: Transform,
    pub extents: Aabb,
    pub local_extents: Aabb,
    pub geom_ref: Option<GeomRefView>,
    pub bindings: Seq<TelemetryBindingView>,
}

impl View for Entity {
    type V = EntityView;

    open spec fn view(&self) -> EntityView {
        EntityView {
            id: self.id,
            prim_path: self.prim_path@,
            parent: self.parent,
            children: self.children@,
            kind: opt_view(self.kind),
            tags: views(self.tags@),
            vf: map_views(self.vf@),
            transform_default: self.transform_default,
            extents: self.extents,
            local_extents: self.local_extents,
            geom_ref: opt_view(self.geom_ref),
            bindings: views(self.bindings@),
        }
    }
}

/// The string that a metadata key holds, where it holds one.
pub open spec fn vf_text(e: EntityView, key: Seq<char>) -> Option<Seq<char>> {
    if e.vf.contains_key(key) {
        match e.vf[key] {
            VfValueView::Text(s) => Some(s),
            _ => None,
        }
    } else {
        None
    }
}

impl Entity {
    fn text_value(&self, key: &str) -> (r: Option<&str>)
        ensures
            match r {
                Some(s) => vf_text(self@, key@) == Some(s@),
                None => vf_text(self@, key@) is None,
            },
    {
        match self.vf.get(key) {
            Some(VfValue::Text(s)) => Some(s.as_str()),
            _ => None,
        }
    }

    /// The `assetTag` string of the metadata, if there is one.
    pub fn asset_tag(&self) -> (r: Option<&str>)
        ensures
            match r {
                Some(s) => vf_text(self@, "assetTag"@) == Some(s@),
                None => vf_text(self@, "assetTag"@) is None,
            },
    {
        self.text_value("assetTag")
    }

    /// The `class` string of the metadata, if there is one.
    pub fn class(&self) -> (r: Option<&str>)
        ensures
            match r {
                Some(s) => vf_text(self@, "class"@) == Some(s@),
                None => vf_text(self@, "class"@) is None,
            },
    {
        self.text_value("class")
    }
}

// ---------------------------------------------------------------------------
// The index.

/// The model of an [`Lsg`].
pub struct LsgView {
    pub entities: Map<u64, EntityView>,
    pub by_path: Map<Seq<char>, EntityId>,
    pub by_asset_tag: Map<Seq<char>, EntityId>,
    /// Which entities bind an attribute, in the order in which they came to.
    pub binding_index: Map<Seq<char>, Seq<EntityId>>,
    pub anchors: Map<u64, AnchorView>,
    pub edges: Map<u64, EdgeView>,
    /// What stood where opinions stand now.
    pub overridden: OverriddenView,
    pub revision: u64,
}

/// The Logical Scene Graph.
pub struct Lsg {
    entities: IdMap<Entity>,
    by_path: StringHashMap<EntityId>,
    by_asset_tag: StringHashMap<EntityId>,
    /// For each bound attribute, the place of its list.
    slots: StringHashMap<usize>,
    lists: Vec<Vec<EntityId>>,
    anchors: IdMap<Anchor>,
    edges: IdMap<Edge>,
    overridden: Overridden,
    revision: u64,
}

/// The list of an attribute; empty where nothing binds it.
pub open spec fn bound_by(index: Map<Seq<char>, Seq<EntityId>>, attribute: Seq<char>) -> Seq<
    EntityId,
> {
    if index.contains_key(attribute) {
        index[attribute]
    } else {
        Seq::empty()
    }
}

/// The index with one more entity behind the list of an attribute.
pub open spec fn with_bound(
    index: Map<Seq<char>, Seq<EntityId>>,
    attribute: Seq<char>,
    id: EntityId,
) -> Map<Seq<char>, Seq<EntityId>> {
    index.insert(attribute, bound_by(index, attribute).push(id))
}

/// A list without an entity.
pub open spec fn without_id(list: Seq<EntityId>, id: EntityId) -> Seq<EntityId> {
    list.filter(|x: EntityId| x != id)
}

/// The list of an attribute when an entity that had some bindings has others: the
/// entity is taken out of the list where it bound the attribute, and comes behind
/// the rest where it does now.
pub open spec fn rebound(
    index: Map<Seq<char>, Seq<EntityId>>,
    had: Seq<TelemetryBindingView>,
    has: Seq<TelemetryBindingView>,
    id: EntityId,
    attribute: Seq<char>,
) -> Seq<EntityId> {
    let list = bound_by(index, attribute);
    let kept = if names(had, attribute) {
        without_id(list, id)
    } else {
        list
    };
    if names(has, attribute) {
        kept.push(id)
    } else {
        kept
    }
}

/// The index when an entity that had some bindings has others.
pub open spec fn reindexed(
    index: Map<Seq<char>, Seq<EntityId>>,
    had: Seq<TelemetryBindingView>,
    has: Seq<TelemetryBindingView>,
    id: EntityId,
) -> Map<Seq<char>, Seq<EntityId>> {
    Map::new(
        |a: Seq<char>| rebound(index, had, has, id, a).len() > 0,
        |a: Seq<char>| rebound(index, had, has, id, a),
    )
}

impl LsgView {
    /// Each entity stands under its own id, the path and tag indexes lead to
    /// entities, the binding index agrees with what the entities bind and has no
    /// empty list, and what is overridden fits its slot.
    pub open spec fn valid(self) -> bool {
        &&& forall|k: u64| #[trigger]
            self.entities.contains_key(k) ==> self.entities[k].id == EntityId(k)
        &&& forall|p: Seq<char>| #[trigger]
            self.by_path.contains_key(p) ==> self.entities.contains_key(self.by_path[p].0)
        &&& forall|p: Seq<char>| #[trigger]
            self.by_asset_tag.contains_key(p) ==> self.entities.contains_key(
                self.by_asset_tag[p].0,
            )
        &&& forall|a: Seq<char>| #[trigger]
            self.binding_index.contains_key(a) ==> self.binding_index[a].len() > 0
        &&& bindings_indexed(self)
        &&& self.overrides_fit()
    }

    /// What is noted as overridden is of entities here, and a noted binding is of
    /// the attribute that it is noted under.
    pub open spec fn overrides_fit(self) -> bool {
        &&& forall|k: (u64, Seq<char>)| #[trigger]
            self.overridden.bindings.contains_key(k) ==> {
                &&& self.entities.contains_key(k.0)
                &&& self.overridden.bindings[k] matches Some(b) ==> b.attribute == k.1
            }
        &&& forall|k: (u64, Seq<char>)| #[trigger]
            self.overridden.tags.contains_key(k) ==> self.entities.contains_key(k.0)
        &&& forall|k: (u64, Seq<char>)| #[trigger]
            self.overridden.vf.contains_key(k) ==> self.entities.contains_key(k.0)
    }

    /// An entity that is in the index.
    pub open spec fn has(self, id: EntityId) -> bool {
        self.entities.contains_key(id.0)
    }

    /// The index with an entity replaced.
    pub open spec fn with_entity(self, id: EntityId, e: EntityView) -> LsgView {
        LsgView { entities: self.entities.insert(id.0, e), ..self }
    }

    /// The bindings that an entity has here.
    pub open spec fn bindings_at(self, id: EntityId) -> Seq<TelemetryBindingView> {
        if self.has(id) {
            self.entities[id.0].bindings
        } else {
            Seq::empty()
        }
    }

    /// The index with an entity entered, in place of one that has its id: with that
    /// one goes what it overrode.
    pub open spec fn inserted(self, e: EntityView) -> LsgView {
        LsgView {
            entities: self.entities.insert(e.id.0, e),
            by_path: self.by_path.insert(e.prim_path, e.id),
            by_asset_tag: match vf_text(e, "assetTag"@) {
                Some(tag) => self.by_asset_tag.insert(tag, e.id),
                None => self.by_asset_tag,
            },
            binding_index: reindexed(
                self.binding_index,
                self.bindings_at(e.id),
                e.bindings,
                e.id,
            ),
            overridden: self.overridden.without(e.id.0),
            ..self
        }
    }

    /// What a path leads to.
    pub open spec fn at_path(self, path: Seq<char>) -> Option<EntityId> {
        if self.by_path.contains_key(path) {
            Some(self.by_path[path])
        } else {
            None
        }
    }

    /// What an asset tag leads to.
    pub open spec fn at_asset_tag(self, tag: Seq<char>) -> Option<EntityId> {
        if self.by_asset_tag.contains_key(tag) {
            Some(self.by_asset_tag[tag])
        } else {
            None
        }
    }

    /// What a selector leads to: a path where it starts with a slash; else an
    /// asset tag, or failing that a path.
    pub open spec fn selected(self, sel: Seq<char>) -> Option<EntityId> {
        if sel.len() > 0 && sel[0] == '/' {
            self.at_path(sel)
        } else if self.at_asset_tag(sel) is Some {
            self.at_asset_tag(sel)
        } else {
            self.at_path(sel)
        }
    }
}

/// The children of `p`, in ascending order of their ids.
pub open spec fn children_of(entities: Map<u64, EntityView>, p: u64) -> Seq<EntityId> {
    ascending(entities.dom()).filter(
        |k: u64| entities[k].parent == Some(EntityId(p)),
    ).map_values(|k: u64| EntityId(k))
}

/// The entities with their children listed.
pub open spec fn linked(entities: Map<u64, EntityView>) -> Map<u64, EntityView> {
    Map::new(
        |k: u64| entities.contains_key(k),
        |k: u64| EntityView { children: children_of(entities, k), ..entities[k] },
    )
}

/// Listing the children a second time changes nothing.
pub proof fn law_link_is_idempotent(entities: Map<u64, EntityView>)
    requires
        entities.dom().finite(),
    ensures
        linked(linked(entities)) == linked(entities),
{
    let once = linked(entities);
    assert(once.dom() =~= entities.dom());
    assert forall|p: u64| children_of(once, p) == children_of(entities, p) by {
        let ids = ascending(entities.dom());
        let f = |k: u64| once[k].parent == Some(EntityId(p));
        let g = |k: u64| entities[k].parent == Some(EntityId(p));
        lemma_ascending(entities.dom());
        assert forall|i: int| 0 <= i < ids.len() implies f(#[trigger] ids[i]) == g(ids[i]) by {
            assert(ids.contains(ids[i]));
            assert(entities.dom().contains(ids[i]));
        }
        lemma_filter_same(ids, f, g);
    }
    assert(linked(once) =~= once);
}

proof fn lemma_filter_same(s: Seq<u64>, f: spec_fn(u64) -> bool, g: spec_fn(u64) -> bool)
    requires
        forall|i: int| 0 <= i < s.len() ==> f(#[trigger] s[i]) == g(s[i]),
    ensures
        s.filter(f) == s.filter(g),
    decreases s.len(),
{
    reveal(Seq::filter);
    if s.len() > 0 {
        assert forall|i: int| 0 <= i < s.drop_last().len() implies f(#[trigger] s.drop_last()[i])
            == g(s.drop_last()[i]) by {
            assert(s.drop_last()[i] == s[i]);
        }
        lemma_filter_same(s.drop_last(), f, g);
        assert(s.last() == s[s.len() - 1]);
    }
}

impl View for Lsg {
    type V = LsgView;

    closed spec fn view(&self) -> LsgView {
        LsgView {
            entities: map_views(self.entities@),
            by_path: self.by_path@,
            by_asset_tag: self.by_asset_tag@,
            binding_index: index_view(self.slots@, self.lists@),
            anchors: map_views(self.anchors@),
            edges: map_views(self.edges@),
            overridden: self.overridden@,
            revision: self.revision,
        }
    }
}

spec fn index_view(slots: Map<Seq<char>, usize>, lists: Seq<Vec<EntityId>>) -> Map<
    Seq<char>,
    Seq<EntityId>,
> {
    Map::new(
        |a: Seq<char>| slots.contains_key(a) && lists[slots[a] as int]@.len() > 0,
        |a: Seq<char>| lists[slots[a] as int]@,
    )
}

/// Each attribute has a list of its own.
spec fn slots_ok(slots: Map<Seq<char>, usize>, lists: Seq<Vec<EntityId>>) -> bool {
    &&& forall|a: Seq<char>| #[trigger] slots.contains_key(a) ==> slots[a] < lists.len()
    &&& forall|a: Seq<char>, b: Seq<char>|
        #[trigger] slots.contains_key(a) && #[trigger] slots.contains_key(b) && slots[a] == slots[b]
            ==> a == b
}

/// The number of telemetry bindings of the listed entities.
pub open spec fn bindings_of(entities: Map<u64, EntityView>, ids: Seq<u64>) -> nat
    decreases ids.len(),
{
    if ids.len() == 0 {
        0
    } else {
        bindings_of(entities, ids.drop_last()) + entities[ids.last()].bindings.len()
    }
}

/// A binding set on an entity: it replaces the first one of its attribute, or
/// comes behind the others.
pub open spec fn with_binding(
    bindings: Seq<TelemetryBindingView>,
    b: TelemetryBindingView,
) -> Seq<TelemetryBindingView> {
    let i = binding_at(bindings, b.attribute);
    if i < bindings.len() {
        bindings.update(i, b)
    } else {
        bindings.push(b)
    }
}

/// Where the first binding of an attribute stands; the length where none does.
pub open spec fn binding_at(bindings: Seq<TelemetryBindingView>, attribute: Seq<char>) -> int
    decreases bindings.len(),
{
    if bindings.len() == 0 {
        0
    } else if bindings[0].attribute == attribute {
        0
    } else {
        1 + binding_at(bindings.drop_first(), attribute)
    }
}

/// Is there a binding of the attribute?
pub open spec fn names(bindings: Seq<TelemetryBindingView>, attribute: Seq<char>) -> bool {
    binding_at(bindings, attribute) < bindings.len()
}

/// Does an entity bind an attribute?
pub open spec fn binds(e: EntityView, attribute: Seq<char>) -> bool {
    names(e.bindings, attribute)
}

/// The bindings of other attributes.
pub open spec fn without_binding(
    bindings: Seq<TelemetryBindingView>,
    attribute: Seq<char>,
) -> Seq<TelemetryBindingView> {
    bindings.filter(|b: TelemetryBindingView| b.attribute != attribute)
}

/// The tags other than one.
pub open spec fn without_tag(tags: Seq<Seq<char>>, tag: Seq<char>) -> Seq<Seq<char>> {
    tags.filter(|t: Seq<char>| t != tag)
}

/// What [`Lsg::add_tag`] does, and whether it changes anything.
pub open spec fn tag_added(v: LsgView, id: EntityId, tag: Seq<char>) -> (LsgView, bool) {
    let e = v.entities[id.0];
    if v.has(id) && !e.tags.contains(tag) {
        (v.with_entity(id, EntityView { tags: e.tags.push(tag), ..e }), true)
    } else {
        (v, false)
    }
}

/// What [`Lsg::remove_tag`] does, and whether it changes anything.
pub open spec fn tag_removed(v: LsgView, id: EntityId, tag: Seq<char>) -> (LsgView, bool) {
    let e = v.entities[id.0];
    if v.has(id) && e.tags.contains(tag) {
        (v.with_entity(id, EntityView { tags: without_tag(e.tags, tag), ..e }), true)
    } else {
        (v, false)
    }
}

/// What [`Lsg::set_vf`] does, and whether there is such an entity.
pub open spec fn vf_set(v: LsgView, id: EntityId, key: Seq<char>, value: VfValueView) -> (
    LsgView,
    bool,
) {
    let e = v.entities[id.0];
    if v.has(id) {
        (v.with_entity(id, EntityView { vf: e.vf.insert(key, value), ..e }), true)
    } else {
        (v, false)
    }
}

/// What [`Lsg::remove_vf`] does, and whether it changes anything.
pub open spec fn vf_removed(v: LsgView, id: EntityId, key: Seq<char>) -> (LsgView, bool) {
    let e = v.entities[id.0];
    if v.has(id) && e.vf.contains_key(key) {
        (v.with_entity(id, EntityView { vf: e.vf.remove(key), ..e }), true)
    } else {
        (v, false)
    }
}

/// What [`Lsg::upsert_binding`] does, and whether there is such an entity.
pub open spec fn binding_set(v: LsgView, id: EntityId, b: TelemetryBindingView) -> (
    LsgView,
    bool,
) {
    let e = v.entities[id.0];
    let w = v.with_entity(id, EntityView { bindings: with_binding(e.bindings, b), ..e });
    if !v.has(id) {
        (v, false)
    } else if binds(e, b.attribute) {
        (w, true)
    } else {
        (
            LsgView { binding_index: with_bound(v.binding_index, b.attribute, id), ..w },
            true,
        )
    }
}

/// The index without an entity in the list of an attribute.
pub open spec fn unbound(
    index: Map<Seq<char>, Seq<EntityId>>,
    attribute: Seq<char>,
    id: EntityId,
) -> Map<Seq<char>, Seq<EntityId>> {
    let list = without_id(bound_by(index, attribute), id);
    if list.len() == 0 {
        index.remove(attribute)
    } else {
        index.insert(attribute, list)
    }
}

/// What [`Lsg::remove_binding`] does, and whether it changes anything.
pub open spec fn binding_removed(v: LsgView, id: EntityId, attribute: Seq<char>) -> (
    LsgView,
    bool,
) {
    let e = v.entities[id.0];
    let w = v.with_entity(
        id,
        EntityView { bindings: without_binding(e.bindings, attribute), ..e },
    );
    if v.has(id) && binds(e, attribute) {
        (LsgView { binding_index: unbound(v.binding_index, attribute, id), ..w }, true)
    } else {
        (v, false)
    }
}

/// The first binding of an attribute.
pub open spec fn first_binding(bindings: Seq<TelemetryBindingView>, attribute: Seq<char>) -> Option<
    TelemetryBindingView,
> {
    if names(bindings, attribute) {
        Some(bindings[binding_at(bindings, attribute)])
    } else {
        None
    }
}

/// The value of a metadata key.
pub open spec fn vf_value(e: EntityView, key: Seq<char>) -> Option<VfValueView> {
    if e.vf.contains_key(key) {
        Some(e.vf[key])
    } else {
        None
    }
}

/// What stands under an id.
pub open spec fn found<T>(m: Map<u64, T>, id: u64) -> Option<T> {
    if m.contains_key(id) {
        Some(m[id])
    } else {
        None
    }
}

/// What [`Lsg::note_binding`] does: where nothing is noted of the slot yet, it notes
/// what stands there.
pub open spec fn binding_noted(v: LsgView, id: EntityId, attribute: Seq<char>) -> LsgView {
    let k = (id.0, attribute);
    if v.has(id) && !v.overridden.bindings.contains_key(k) {
        let prior = first_binding(v.entities[id.0].bindings, attribute);
        LsgView {
            overridden: OverriddenView {
                bindings: v.overridden.bindings.insert(k, prior),
                ..v.overridden
            },
            ..v
        }
    } else {
        v
    }
}

/// What [`Lsg::note_tag`] does.
pub open spec fn tag_noted(v: LsgView, id: EntityId, tag: Seq<char>) -> LsgView {
    let k = (id.0, tag);
    if v.has(id) && !v.overridden.tags.contains_key(k) {
        let prior = v.entities[id.0].tags.contains(tag);
        LsgView {
            overridden: OverriddenView {
                tags: v.overridden.tags.insert(k, prior),
                ..v.overridden
            },
            ..v
        }
    } else {
        v
    }
}

/// What [`Lsg::note_vf`] does.
pub open spec fn vf_noted(v: LsgView, id: EntityId, key: Seq<char>) -> LsgView {
    let k = (id.0, key);
    if v.has(id) && !v.overridden.vf.contains_key(k) {
        let prior = vf_value(v.entities[id.0], key);
        LsgView {
            overridden: OverriddenView { vf: v.overridden.vf.insert(k, prior), ..v.overridden },
            ..v
        }
    } else {
        v
    }
}

/// What [`Lsg::note_anchor`] does.
pub open spec fn anchor_noted(v: LsgView, id: AnchorId) -> LsgView {
    if v.overridden.anchors.contains_key(id.0) {
        v
    } else {
        let prior = found(v.anchors, id.0);
        LsgView {
            overridden: OverriddenView {
                anchors: v.overridden.anchors.insert(id.0, prior),
                ..v.overridden
            },
            ..v
        }
    }
}

/// What [`Lsg::note_edge`] does.
pub open spec fn edge_noted(v: LsgView, id: EdgeId) -> LsgView {
    if v.overridden.edges.contains_key(id.0) {
        v
    } else {
        let prior = found(v.edges, id.0);
        LsgView {
            overridden: OverriddenView {
                edges: v.overridden.edges.insert(id.0, prior),
                ..v.overridden
            },
            ..v
        }
    }
}

/// What [`Lsg::restore_binding`] does, and whether it changes a record: what is
/// noted of the slot stands there again, and the note is gone. Where nothing is
/// noted, nothing happens.
pub open spec fn binding_restored(v: LsgView, id: EntityId, attribute: Seq<char>) -> (
    LsgView,
    bool,
) {
    let k = (id.0, attribute);
    let w = LsgView {
        overridden: OverriddenView {
            bindings: v.overridden.bindings.remove(k),
            ..v.overridden
        },
        ..v
    };
    if !v.overridden.bindings.contains_key(k) {
        (v, false)
    } else {
        match v.overridden.bindings[k] {
            Some(b) => binding_set(w, id, b),
            None => binding_removed(w, id, attribute),
        }
    }
}

/// What [`Lsg::restore_tag`] does, and whether it changes a record.
pub open spec fn tag_restored(v: LsgView, id: EntityId, tag: Seq<char>) -> (LsgView, bool) {
    let k = (id.0, tag);
    let w = LsgView {
        overridden: OverriddenView { tags: v.overridden.tags.remove(k), ..v.overridden },
        ..v
    };
    if !v.overridden.tags.contains_key(k) {
        (v, false)
    } else if v.overridden.tags[k] {
        tag_added(w, id, tag)
    } else {
        tag_removed(w, id, tag)
    }
}

/// What [`Lsg::restore_vf`] does, and whether it changes a record.
pub open spec fn vf_restored(v: LsgView, id: EntityId, key: Seq<char>) -> (LsgView, bool) {
    let k = (id.0, key);
    let w = LsgView {
        overridden: OverriddenView { vf: v.overridden.vf.remove(k), ..v.overridden },
        ..v
    };
    if !v.overridden.vf.contains_key(k) {
        (v, false)
    } else {
        match v.overridden.vf[k] {
            Some(value) => vf_set(w, id, key, value),
            None => vf_removed(w, id, key),
        }
    }
}

/// What [`Lsg::restore_anchor`] does, and whether it changes a record.
pub open spec fn anchor_restored(v: LsgView, id: AnchorId) -> (LsgView, bool) {
    let w = LsgView {
        overridden: OverriddenView {
            anchors: v.overridden.anchors.remove(id.0),
            ..v.overridden
        },
        ..v
    };
    if !v.overridden.anchors.contains_key(id.0) {
        (v, false)
    } else {
        match v.overridden.anchors[id.0] {
            Some(a) => (LsgView { anchors: v.anchors.insert(id.0, a), ..w }, true),
            None => (
                LsgView { anchors: v.anchors.remove(id.0), ..w },
                v.anchors.contains_key(id.0),
            ),
        }
    }
}

/// What [`Lsg::restore_edge`] does, and whether it changes a record.
pub open spec fn edge_restored(v: LsgView, id: EdgeId) -> (LsgView, bool) {
    let w = LsgView {
        overridden: OverriddenView { edges: v.overridden.edges.remove(id.0), ..v.overridden },
        ..v
    };
    if !v.overridden.edges.contains_key(id.0) {
        (v, false)
    } else {
        match v.overridden.edges[id.0] {
            Some(e) => (LsgView { edges: v.edges.insert(id.0, e), ..w }, true),
            None => (
                LsgView { edges: v.edges.remove(id.0), ..w },
                v.edges.contains_key(id.0),
            ),
        }
    }
}

pub proof fn lemma_binding_at(bindings: Seq<TelemetryBindingView>, attribute: Seq<char>, i: int)
    requires
        0 <= i <= bindings.len(),
        forall|j: int| 0 <= j < i ==> (#[trigger] bindings[j]).attribute != attribute,
        i < bindings.len() ==> bindings[i].attribute == attribute,
    ensures
        binding_at(bindings, attribute) == i,
    decreases bindings.len(),
{
    if bindings.len() > 0 && i > 0 {
        assert(bindings[0].attribute != attribute);
        let rest = bindings.drop_first();
        assert forall|j: int| 0 <= j < i - 1 implies (#[trigger] rest[j]).attribute
            != attribute by {
            assert(bindings[j + 1].attribute != attribute);
        }
        lemma_binding_at(rest, attribute, i - 1);
    }
}

/// Where the first binding of an attribute stands; the length where none does.
fn find_binding(bindings: &Vec<TelemetryBinding>, attribute: &str) -> (i: usize)
    ensures
        i == binding_at(views(bindings@), attribute@),
        i <= bindings@.len(),
{
    let wanted = attribute.to_owned();
    let mut i: usize = 0;
    while i < bindings.len()
        invariant
            i <= bindings@.len(),
            wanted@ == attribute@,
            forall|j: int| 0 <= j < i ==> (#[trigger] views(bindings@)[j]).attribute != attribute@,
        decreases bindings@.len() - i,
    {
        if bindings[i].attribute == wanted {
            proof {
                lemma_binding_at(views(bindings@), attribute@, i as int);
            }
            return i;
        }
        i = i + 1;
    }
    proof {
        lemma_binding_at(views(bindings@), attribute@, i as int);
    }
    i
}

/// The bindings of other attributes.
fn drop_binding(bindings: Vec<TelemetryBinding>, attribute: &str) -> (r: Vec<TelemetryBinding>)
    ensures
        views(r@) == without_binding(views(bindings@), attribute@),
        r@.len() <= bindings@.len(),
{
    broadcast use group_models;

    let wanted = attribute.to_owned();
    let mut r: Vec<TelemetryBinding> = Vec::new();
    let mut i: usize = 0;
    let ghost all = views(bindings@);
    while i < bindings.len()
        invariant
            i <= bindings@.len(),
            r@.len() <= i,
            wanted@ == attribute@,
            all == views(bindings@),
            views(r@) == without_binding(all.take(i as int), attribute@),
        decreases bindings@.len() - i,
    {
        proof {
            reveal(Seq::filter);
            assert(all.take(i + 1).drop_last() =~= all.take(i as int));
            assert(all.take(i + 1).last() == bindings@[i as int]@);
        }
        if bindings[i].attribute != wanted {
            r.push(bindings[i].clone());
        }
        i = i + 1;
    }
    proof {
        assert(all.take(i as int) =~= all);
    }
    r
}

/// The tags other than one.
fn drop_tag(tags: &Vec<String>, tag: &str) -> (r: Vec<String>)
    ensures
        views(r@) == without_tag(views(tags@), tag@),
        r@.len() <= tags@.len(),
        r@.len() == tags@.len() ==> views(r@) == views(tags@),
        r@.len() < tags@.len() <==> views(tags@).contains(tag@),
{
    broadcast use group_models;

    let wanted = tag.to_owned();
    let mut r: Vec<String> = Vec::new();
    let mut i: usize = 0;
    let ghost all = views(tags@);
    while i < tags.len()
        invariant
            i <= tags@.len(),
            r@.len() <= i,
            wanted@ == tag@,
            all == views(tags@),
            views(r@) == without_tag(all.take(i as int), tag@),
            r@.len() == i ==> views(r@) == all.take(i as int),
            r@.len() < i <==> all.take(i as int).contains(tag@),
        decreases tags@.len() - i,
    {
        proof {
            reveal(Seq::filter);
            let a = all.take(i as int);
            let b = all.take(i + 1);
            assert(b.drop_last() =~= a);
            assert(b =~= a.push(tags@[i as int]@));
            assert(b[i as int] == tags@[i as int]@);
            if a.contains(tag@) {
                let j = choose|j: int| 0 <= j < a.len() && a[j] == tag@;
                assert(b[j] == tag@);
            }
            if b.contains(tag@) {
                let j = choose|j: int| 0 <= j < b.len() && b[j] == tag@;
                if j < i {
                    assert(a[j] == tag@);
                }
            }
        }
        if tags[i] != wanted {
            r.push(tags[i].clone());
        }
        i = i + 1;
    }
    proof {
        assert(all.take(i as int) =~= all);
    }
    r
}

/// A list without an entity.
fn drop_id(list: &Vec<EntityId>, id: EntityId) -> (r: Vec<EntityId>)
    ensures
        r@ == without_id(list@, id),
{
    let mut r: Vec<EntityId> = Vec::new();
    let mut i: usize = 0;
    while i < list.len()
        invariant
            i <= list@.len(),
            r@ == without_id(list@.take(i as int), id),
        decreases list@.len() - i,
    {
        proof {
            reveal(Seq::filter);
            assert(list@.take(i + 1).drop_last() =~= list@.take(i as int));
        }
        if list[i] != id {
            r.push(list[i]);
        }
        i = i + 1;
    }
    proof {
        assert(list@.take(i as int) =~= list@);
    }
    r
}

impl Lsg {
    /// Every bound attribute has a list of its own.
    pub closed spec fn indexed(&self) -> bool {
        slots_ok(self.slots@, self.lists@)
    }

    /// The indexes fit together.
    pub open spec fn wf(&self) -> bool {
        self@.valid() && self.indexed()
    }

    /// The index is finite.
    pub proof fn lemma_finite(&self)
        ensures
            self@.entities.dom().finite(),
    {
        self.entities.lemma_finite();
        assert(self@.entities.dom() =~= self.entities@.dom());
    }

    pub fn new() -> (r: Self)
        ensures
            r.wf(),
            r@ == (LsgView {
                entities: Map::empty(),
                by_path: Map::empty(),
                by_asset_tag: Map::empty(),
                binding_index: Map::empty(),
                anchors: Map::empty(),
                edges: Map::empty(),
                overridden: OverriddenView::nothing(),
                revision: 0,
            }),
    {
        broadcast use group_models;

        let r = Lsg {
            entities: IdMap::new(),
            by_path: StringHashMap::new(),
            by_asset_tag: StringHashMap::new(),
            slots: StringHashMap::new(),
            lists: Vec::new(),
            anchors: IdMap::new(),
            edges: IdMap::new(),
            overridden: Overridden::new(),
            revision: 0,
        };
        proof {
            assert(r@.binding_index =~= Map::empty());
            assert(bindings_indexed(r@));
        }
        r
    }

    /// Puts an entity behind the list of an attribute.
    fn push_bound(&mut self, attribute: String, id: EntityId)
        requires
            old(self).indexed(),
        ensures
            final(self).indexed(),
            final(self)@ == (LsgView {
                binding_index: with_bound(old(self)@.binding_index, attribute@, id),
                ..old(self)@
            }),
    {
        let ghost index = self@.binding_index;
        let slot = match self.slots.get(attribute.as_str()) {
            Some(i) => Some(*i),
            None => None,
        };
        match slot {
            Some(i) => {
                proof {
                    let list = self.lists@[i as int]@;
                    if list.len() == 0 {
                        assert(list =~= Seq::empty());
                    }
                    assert(list == bound_by(index, attribute@));
                }
                self.lists[i].push(id);
            },
            None => {
                let i: usize = self.lists.len();
                let mut list: Vec<EntityId> = Vec::new();
                list.push(id);
                self.lists.push(list);
                self.slots.insert(attribute, i);
            },
        }
        proof {
            assert(self@.binding_index =~= with_bound(index, attribute@, id));
        }
    }

    /// Takes an entity out of the list of an attribute.
    fn drop_bound(&mut self, attribute: &str, id: EntityId)
        requires
            old(self).indexed(),
        ensures
            final(self).indexed(),
            final(self)@ == (LsgView {
                binding_index: unbound(old(self)@.binding_index, attribute@, id),
                ..old(self)@
            }),
    {
        let ghost index = self@.binding_index;
        let slot = match self.slots.get(attribute) {
            Some(i) => Some(*i),
            None => None,
        };
        if let Some(i) = slot {
            proof {
                let list = self.lists@[i as int]@;
                if list.len() == 0 {
                    assert(list =~= Seq::empty());
                }
                assert(list == bound_by(index, attribute@));
            }
            let kept = drop_id(&self.lists[i], id);
            self.lists.set(i, kept);
        } else {
            proof {
                reveal(Seq::filter);
            }
        }
        proof {
            assert(self@.binding_index =~= unbound(index, attribute@, id));
        }
    }

    /// Enters an entity into the path, asset-tag and binding indexes, in place of
    /// one that has its id. Children are listed by [`Lsg::link_hierarchy`], once after all are in.
    pub fn insert(&mut self, entity: Entity)
        requires
            old(self).wf(),
        ensures
            final(self).wf(),
            final(self)@ == old(self)@.inserted(entity@),
    {
        broadcast use group_models;

        let ghost before = self@;
        let ghost e = entity@;
        self.by_path.insert(entity.prim_path.clone(), entity.id);
        match entity.asset_tag() {
            Some(tag) => {
                self.by_asset_tag.insert(tag.to_owned(), entity.id);
            },
            None => {},
        }
        let ghost tagged = self@;
        let ghost index = tagged.binding_index;
        let ghost had = before.bindings_at(entity.id);
        let ghost has = views(entity.bindings@);
        let ghost none = Seq::<TelemetryBindingView>::empty();
        let old_entity = self.entities.remove(entity.id.0);
        let ghost cleared = self@;
        proof {
            lemma_reindexed_none(index, entity.id);
            assert(cleared.binding_index == index);
        }
        if let Some(e0) = old_entity {
            let mut i: usize = 0;
            proof {
                assert(views(e0.bindings@) == had);
                assert(had.take(0) =~= none);
            }
            while i < e0.bindings.len()
                invariant
                    i <= e0.bindings@.len(),
                    had == views(e0.bindings@),
                    none == Seq::<TelemetryBindingView>::empty(),
                    self.indexed(),
                    self@ == (LsgView {
                        binding_index: reindexed(index, had.take(i as int), none, entity.id),
                        ..cleared
                    }),
                decreases e0.bindings@.len() - i,
            {
                proof {
                    lemma_unbound_step(index, had, i as int, entity.id);
                }
                self.drop_bound(e0.bindings[i].attribute.as_str(), entity.id);
                i = i + 1;
            }
            proof {
                assert(had.take(i as int) =~= had);
            }
        }
        let mut i: usize = 0;
        proof {
            assert(has.take(0) =~= none);
            assert(self@.binding_index == reindexed(index, had, none, entity.id));
        }
        while i < entity.bindings.len()
            invariant
                i <= entity.bindings@.len(),
                has == views(entity.bindings@),
                self.indexed(),
                self@ == (LsgView {
                    binding_index: reindexed(index, had, has.take(i as int), entity.id),
                    ..cleared
                }),
            decreases entity.bindings@.len() - i,
        {
            let at: usize = find_binding(
                &entity.bindings,
                entity.bindings[i].attribute.as_str(),
            );
            proof {
                lemma_bound_step(index, had, has, i as int, entity.id);
            }
            if at >= i {
                self.push_bound(entity.bindings[i].attribute.clone(), entity.id);
            }
            i = i + 1;
        }
        proof {
            assert(has.take(i as int) =~= has);
        }
        let id: u64 = entity.id.0;
        self.entities.insert(id, entity);
        self.overridden.forget(id);
        proof {
            let after = before.inserted(e);
            lemma_inserted_indexed(before, e);
            assert(self@.entities =~= after.entities);
            assert(self@ == after);
            assert forall|p: Seq<char>| #[trigger]
                after.by_path.contains_key(p) implies after.entities.contains_key(
                after.by_path[p].0,
            ) by {
                assert(p == e.prim_path || before.by_path.contains_key(p));
            }
            assert forall|p: Seq<char>| #[trigger]
                after.by_asset_tag.contains_key(p) implies after.entities.contains_key(
                after.by_asset_tag[p].0,
            ) by {
                assert(vf_text(e, "assetTag"@) == Some(p) || before.by_asset_tag.contains_key(p));
            }
        }
    }

    /// Lists each entity's children from the parent links.
    pub fn link_hierarchy(&mut self)
        requires
            old(self).wf(),
            old(self)@.revision < u64::MAX,
        ensures
            final(self).wf(),
            final(self)@ == (LsgView {
                entities: linked(old(self)@.entities),
                revision: (old(self)@.revision + 1) as u64,
                ..old(self)@
            }),
    {
        broadcast use group_models;

        let ghost m = self@.entities;
        let ghost raw = self.entities@;
        let ids = self.entities.keys();
        proof {
            assert(m.dom() =~= self.entities@.dom());
        }
        let mut kids: IdMap<Vec<EntityId>> = IdMap::new();
        let mut i: usize = 0;
        while i < ids.len()
            invariant
                i <= ids@.len(),
                lists(ids@, m.dom()),
                m == map_views(self.entities@),
                self@.valid(),
                self@.entities == m,
                *self == *old(self),
                forall|p: u64| #[trigger] kids_in(kids@, p) == children_among(m, ids@.take(i as int), p),
            decreases ids@.len() - i,
        {
            let id: u64 = ids[i];
            proof {
                assert(ids@.contains(id));
                assert(m.dom().contains(id));
            }
            let parent = match self.entities.get(id) {
                Some(e) => e.parent,
                None => None,
            };
            let ghost before = kids@;
            match parent {
                Some(p) => {
                    let mut list = match kids.remove(p.0) {
                        Some(list) => list,
                        None => Vec::new(),
                    };
                    list.push(EntityId(id));
                    kids.insert(p.0, list);
                },
                None => {},
            }
            proof {
                assert(ids@.take(i + 1).drop_last() =~= ids@.take(i as int));
                assert(ids@.take(i + 1).last() == id);
                assert forall|p: u64| #[trigger] kids_in(kids@, p) == children_among(
                    m,
                    ids@.take(i + 1),
                    p,
                ) by {
                    assert(kids_in(before, p) == children_among(m, ids@.take(i as int), p));
                    lemma_children_among(m, ids@.take(i + 1), p);
                }
            }
            i = i + 1;
        }
        proof {
            assert(ids@.take(i as int) =~= ids@);
        }
        let mut j: usize = 0;
        while j < ids.len()
            invariant
                j <= ids@.len(),
                lists(ids@, m.dom()),
                ids@ == ascending(m.dom()),
                forall|p: u64| #[trigger]
                    kids_in(kids@, p) == if done(ids@, j as int, p) {
                        Seq::empty()
                    } else {
                        children_among(m, ids@, p)
                    },
                self@ == (LsgView { entities: self@.entities, ..old(self)@ }),
                self.indexed(),
                self@.entities.dom() == m.dom(),
                forall|k: u64| #[trigger]
                    m.contains_key(k) ==> self@.entities[k] == if done(ids@, j as int, k) {
                        linked(m)[k]
                    } else {
                        m[k]
                    },
            decreases ids@.len() - j,
        {
            let id: u64 = ids[j];
            proof {
                assert(ids@.contains(id));
                assert(m.dom().contains(id));
                assert(m.contains_key(id));
                if done(ids@, j as int, id) {
                    let a = choose|a: int| 0 <= a < j && ids@[a] == id;
                    assert(ids@[a] < ids@[j as int]);
                }
            }
            let ghost lists_before = kids@;
            let list = match kids.remove(id) {
                Some(list) => list,
                None => Vec::new(),
            };
            proof {
                assert(list@ =~= kids_in(lists_before, id));
                assert(list@ == children_among(m, ids@, id));
            }
            let ghost before = self@.entities;
            if let Some(mut e) = self.entities.remove(id) {
                e.children = list;
                self.entities.insert(id, e);
            }
            proof {
                assert forall|k: u64| done(ids@, j + 1, k) <==> done(ids@, j as int, k) || k
                    == id by {
                    if done(ids@, j as int, k) {
                        let a = choose|a: int| 0 <= a < j && ids@[a] == k;
                        assert(0 <= a < j + 1 && ids@[a] == k);
                    }
                    if done(ids@, j + 1, k) {
                        let a = choose|a: int| 0 <= a < j + 1 && ids@[a] == k;
                        if a < j {
                            assert(0 <= a < j && ids@[a] == k);
                        }
                    }
                    assert(0 <= j < j + 1 && ids@[j as int] == id);
                }
                assert(self@.entities.dom() =~= m.dom());
                assert forall|p: u64| #[trigger] kids_in(kids@, p) == if done(ids@, j + 1, p) {
                    Seq::empty()
                } else {
                    children_among(m, ids@, p)
                } by {
                    if p != id {
                        assert(kids_in(kids@, p) == kids_in(lists_before, p));
                    }
                }
            }
            j = j + 1;
        }
        proof {
            assert forall|k: u64| #[trigger] m.contains_key(k) implies done(
                ids@,
                j as int,
                k,
            ) by {
                assert(m.dom().contains(k));
                assert(ids@.contains(k));
            }
            assert(self@.entities =~= linked(m));
            assert(linked(m).dom() =~= m.dom());
            lemma_same_bindings(old(self)@, LsgView { entities: linked(m), ..old(self)@ });
        }
        self.revision = self.revision + 1;
    }
}

/// What a table of lists holds for a key.
spec fn kids_in(kids: Map<u64, Vec<EntityId>>, p: u64) -> Seq<EntityId> {
    if kids.contains_key(p) {
        kids[p]@
    } else {
        Seq::empty()
    }
}

/// The listed entities whose parent is `p`.
spec fn children_among(m: Map<u64, EntityView>, ids: Seq<u64>, p: u64) -> Seq<EntityId> {
    ids.filter(|k: u64| m[k].parent == Some(EntityId(p))).map_values(|k: u64| EntityId(k))
}

/// A key stands before position `j`.
spec fn done(ids: Seq<u64>, j: int, k: u64) -> bool {
    exists|a: int| 0 <= a < j && #[trigger] ids[a] == k
}

proof fn lemma_children_among(m: Map<u64, EntityView>, ids: Seq<u64>, p: u64)
    requires
        ids.len() > 0,
    ensures
        children_among(m, ids, p) == if m[ids.last()].parent == Some(EntityId(p)) {
            children_among(m, ids.drop_last(), p).push(EntityId(ids.last()))
        } else {
            children_among(m, ids.drop_last(), p)
        },
{
    reveal(Seq::filter);
    if m[ids.last()].parent == Some(EntityId(p)) {
        assert(children_among(m, ids, p) =~= children_among(m, ids.drop_last(), p).push(
            EntityId(ids.last()),
        ));
    }
}

/// An optional reference to an entity leads to the one that a model names.
pub open spec fn leads_to(r: Option<&Entity>, lsg: LsgView, id: Option<EntityId>) -> bool {
    match r {
        Some(e) => id matches Some(i) && lsg.has(i) && e@ == lsg.entities[i.0],
        None => id is None,
    }
}

impl Lsg {
    pub fn get(&self, id: EntityId) -> (r: Option<&Entity>)
        ensures
            leads_to(
                r,
                self@,
                if self@.has(id) {
                    Some(id)
                } else {
                    None
                },
            ),
    {
        self.entities.get(id.0)
    }

    pub fn by_path(&self, prim_path: &str) -> (r: Option<&Entity>)
        requires
            self.wf(),
        ensures
            leads_to(r, self@, self@.at_path(prim_path@)),
    {
        match self.by_path.get(prim_path) {
            Some(id) => self.entities.get(id.0),
            None => None,
        }
    }

    pub fn by_asset_tag(&self, tag: &str) -> (r: Option<&Entity>)
        requires
            self.wf(),
        ensures
            leads_to(r, self@, self@.at_asset_tag(tag@)),
    {
        match self.by_asset_tag.get(tag) {
            Some(id) => self.entities.get(id.0),
            None => None,
        }
    }

    /// Resolves a selector, an asset tag (`PUMP-01`) or a prim path (`/A/B/C`).
    pub fn resolve_selector(&self, sel: &str) -> (r: Option<&Entity>)
        requires
            self.wf(),
        ensures
            leads_to(r, self@, self@.selected(sel@)),
    {
        if sel.unicode_len() > 0 && sel.get_char(0) == '/' {
            self.by_path(sel)
        } else {
            match self.by_asset_tag(sel) {
                Some(e) => Some(e),
                None => self.by_path(sel),
            }
        }
    }

    /// The ids of all entities, in ascending order.
    pub fn ids(&self) -> (r: Vec<u64>)
        ensures
            r@ == ascending(self@.entities.dom()),
            lists(r@, self@.entities.dom()),
    {
        proof {
            assert(self@.entities.dom() =~= self.entities@.dom());
        }
        self.entities.keys()
    }

    /// All entities, in ascending order of their ids.
    pub fn entities(&self) -> (r: Vec<&Entity>)
        ensures
            r@.len() == ascending(self@.entities.dom()).len(),
            forall|i: int|
                0 <= i < r@.len() ==> (#[trigger] r@[i])@ == self@.entities[ascending(
                    self@.entities.dom(),
                )[i]],
    {
        let ids = self.ids();
        let mut r: Vec<&Entity> = Vec::new();
        let mut i: usize = 0;
        while i < ids.len()
            invariant
                i <= ids@.len(),
                lists(ids@, self@.entities.dom()),
                r@.len() == i,
                forall|j: int| 0 <= j < i ==> (#[trigger] r@[j])@ == self@.entities[ids@[j]],
            decreases ids@.len() - i,
        {
            proof {
                assert(ids@.contains(ids@[i as int]));
                assert(self@.entities.dom().contains(ids@[i as int]));
            }
            if let Some(e) = self.entities.get(ids[i]) {
                r.push(e);
            }
            i = i + 1;
        }
        r
    }

    pub fn len(&self) -> (n: usize)
        ensures
            n == self@.entities.dom().len(),
    {
        proof {
            assert(self@.entities.dom() =~= self.entities@.dom());
        }
        self.entities.len()
    }

    pub fn is_empty(&self) -> (b: bool)
        ensures
            b == (self@.entities.dom() =~= Set::<u64>::empty()),
    {
        proof {
            assert(self@.entities.dom() =~= self.entities@.dom());
        }
        self.entities.is_empty()
    }

    pub fn revision(&self) -> (n: u64)
        ensures
            n == self@.revision,
    {
        self.revision
    }

    /// The number of telemetry bindings over all entities (a count that stops at
    /// the largest).
    pub fn binding_count(&self) -> (n: usize)
        ensures
            n == capped(bindings_of(self@.entities, ascending(self@.entities.dom())) as int),
    {
        let all = self.entities();
        let ghost ids = ascending(self@.entities.dom());
        let mut n: usize = 0;
        let mut i: usize = 0;
        while i < all.len()
            invariant
                i <= all@.len(),
                all@.len() == ids.len(),
                forall|j: int|
                    0 <= j < all@.len() ==> (#[trigger] all@[j])@ == self@.entities[ids[j]],
                n == capped(bindings_of(self@.entities, ids.take(i as int)) as int),
            decreases all@.len() - i,
        {
            proof {
                assert(ids.take(i + 1).drop_last() =~= ids.take(i as int));
                assert(all@[i as int]@ == self@.entities[ids[i as int]]);
            }
            n = n.saturating_add(all[i].bindings.len());
            i = i + 1;
        }
        proof {
            assert(ids.take(i as int) =~= ids);
        }
        n
    }

    /// How many entities carry a telemetry binding.
    pub fn entities_with_bindings(&self) -> (n: usize)
        ensures
            n == ascending(self@.entities.dom()).filter(
                |k: u64| self@.entities[k].bindings.len() > 0,
            ).len(),
    {
        let all = self.entities();
        let ghost ids = ascending(self@.entities.dom());
        let ghost f = |k: u64| self@.entities[k].bindings.len() > 0;
        let mut n: usize = 0;
        let mut i: usize = 0;
        while i < all.len()
            invariant
                i <= all@.len(),
                all@.len() == ids.len(),
                n <= i,
                f == (|k: u64| self@.entities[k].bindings.len() > 0),
                forall|j: int|
                    0 <= j < all@.len() ==> (#[trigger] all@[j])@ == self@.entities[ids[j]],
                n == ids.take(i as int).filter(f).len(),
            decreases all@.len() - i,
        {
            proof {
                reveal(Seq::filter);
                assert(ids.take(i + 1).drop_last() =~= ids.take(i as int));
                assert(all@[i as int]@ == self@.entities[ids[i as int]]);
            }
            if all[i].bindings.len() > 0 {
                n = n + 1;
            }
            i = i + 1;
        }
        proof {
            assert(ids.take(i as int) =~= ids);
        }
        n
    }

    /// How many entities refer to a payload.
    pub fn payload_count(&self) -> (n: usize)
        ensures
            n == ascending(self@.entities.dom()).filter(
                |k: u64| self@.entities[k].geom_ref is Some,
            ).len(),
    {
        let all = self.entities();
        let ghost ids = ascending(self@.entities.dom());
        let ghost f = |k: u64| self@.entities[k].geom_ref is Some;
        let mut n: usize = 0;
        let mut i: usize = 0;
        while i < all.len()
            invariant
                i <= all@.len(),
                all@.len() == ids.len(),
                n <= i,
                f == (|k: u64| self@.entities[k].geom_ref is Some),
                forall|j: int|
                    0 <= j < all@.len() ==> (#[trigger] all@[j])@ == self@.entities[ids[j]],
                n == ids.take(i as int).filter(f).len(),
            decreases all@.len() - i,
        {
            proof {
                reveal(Seq::filter);
                assert(ids.take(i + 1).drop_last() =~= ids.take(i as int));
                assert(all@[i as int]@ == self@.entities[ids[i as int]]);
            }
            if all[i].geom_ref.is_some() {
                n = n + 1;
            }
            i = i + 1;
        }
        proof {
            assert(ids.take(i as int) =~= ids);
        }
        n
    }

    /// The entities that bind an attribute.
    pub fn entities_binding(&self, attribute: &str) -> (r: Vec<EntityId>)
        requires
            self.wf(),
        ensures
            r@ == bound_by(self@.binding_index, attribute@),
    {
        match self.slots.get(attribute) {
            Some(i) => {
                let r = self.lists[*i].clone();
                proof {
                    assert(r@ =~= self.lists@[*i as int]@);
                }
                r
            },
            None => Vec::new(),
        }
    }

    // -- Patches. They change records in place and keep every id; the caller
    // bumps the revision once per patch.

    /// Counts one more revision.
    pub fn bump_revision(&mut self)
        requires
            old(self).wf(),
            old(self)@.revision < u64::MAX,
        ensures
            final(self).wf(),
            final(self)@ == (LsgView {
                revision: (old(self)@.revision + 1) as u64,
                ..old(self)@
            }),
    {
        self.revision = self.revision + 1;
    }

    /// Adds a tag to an entity that does not have it. Returns whether the entity
    /// changed.
    pub fn add_tag(&mut self, id: EntityId, tag: &str) -> (changed: bool)
        requires
            old(self).wf(),
        ensures
            final(self).wf(),
            (final(self)@, changed) == tag_added(old(self)@, id, tag@),
    {
        broadcast use group_models;

        let wanted = match self.entities.get(id.0) {
            Some(e) => !contains_text(&e.tags, tag),
            None => false,
        };
        if wanted {
            if let Some(mut e) = self.entities.remove(id.0) {
                e.tags.push(tag.to_owned());
                proof {
                    lemma_with_entity(old(self)@, id, e@);
                }
                self.entities.insert(id.0, e);
            }
        }
        wanted
    }

    /// Removes a tag from an entity. Returns whether the entity changed.
    pub fn remove_tag(&mut self, id: EntityId, tag: &str) -> (changed: bool)
        requires
            old(self).wf(),
        ensures
            final(self).wf(),
            (final(self)@, changed) == tag_removed(old(self)@, id, tag@),
    {
        broadcast use group_models;

        match self.entities.remove(id.0) {
            Some(mut e) => {
                let kept = drop_tag(&e.tags, tag);
                let changed = kept.len() != e.tags.len();
                proof {
                    if !changed {
                        lemma_insert_same(self@.entities.insert(id.0, e@), id.0);
                        assert(old(self)@.entities =~= self@.entities.insert(id.0, e@));
                    }
                }
                e.tags = kept;
                proof {
                    lemma_with_entity(old(self)@, id, e@);
                }
                self.entities.insert(id.0, e);
                changed
            },
            None => {
                proof {
                    assert(self@.entities =~= old(self)@.entities);
                }
                false
            },
        }
    }

    /// Sets a metadata key of an entity. Returns whether there is such an entity.
    pub fn set_vf(&mut self, id: EntityId, key: &str, value: VfValue) -> (changed: bool)
        requires
            old(self).wf(),
        ensures
            final(self).wf(),
            (final(self)@, changed) == vf_set(old(self)@, id, key@, value@),
    {
        broadcast use group_models;

        match self.entities.remove(id.0) {
            Some(mut e) => {
                e.vf.insert(key.to_owned(), value);
                proof {
                    lemma_with_entity(old(self)@, id, e@);
                }
                self.entities.insert(id.0, e);
                true
            },
            None => {
                proof {
                    assert(self@.entities =~= old(self)@.entities);
                }
                false
            },
        }
    }

    /// Removes a metadata key from an entity. Returns whether the entity had it.
    pub fn remove_vf(&mut self, id: EntityId, key: &str) -> (changed: bool)
        requires
            old(self).wf(),
        ensures
            final(self).wf(),
            (final(self)@, changed) == vf_removed(old(self)@, id, key@),
    {
        broadcast use group_models;

        let wanted = match self.entities.get(id.0) {
            Some(e) => e.vf.contains_key(key),
            None => false,
        };
        if wanted {
            if let Some(mut e) = self.entities.remove(id.0) {
                e.vf.remove(key);
                proof {
                    assert(old(self)@.entities.contains_key(id.0));
                    lemma_with_entity(old(self)@, id, e@);
                }
                self.entities.insert(id.0, e);
            }
        }
        wanted
    }

    /// Sets the binding of an attribute on an entity. Returns whether there is
    /// such an entity.
    pub fn upsert_binding(&mut self, id: EntityId, binding: TelemetryBinding) -> (changed: bool)
        requires
            old(self).wf(),
        ensures
            final(self).wf(),
            (final(self)@, changed) == binding_set(old(self)@, id, binding@),
    {
        broadcast use group_models;

        let ghost before = self@;
        let ghost b = binding@;
        let attribute = binding.attribute.clone();
        match self.entities.remove(id.0) {
            Some(mut e) => {
                let i: usize = find_binding(&e.bindings, attribute.as_str());
                let had = i < e.bindings.len();
                let ghost bs = views(e.bindings@);
                if had {
                    e.bindings.set(i, binding);
                    proof {
                        assert(views(e.bindings@) =~= bs.update(i as int, b));
                    }
                } else {
                    e.bindings.push(binding);
                }
                proof {
                    assert(views(e.bindings@) == with_binding(bs, b));
                    lemma_binding_set_valid(before, id, b);
                }
                let ghost e2 = e@;
                self.entities.insert(id.0, e);
                proof {
                    assert(self@ == before.with_entity(id, e2));
                }
                if !had {
                    self.push_bound(attribute, id);
                }
                true
            },
            None => {
                proof {
                    assert(self@.entities =~= old(self)@.entities);
                }
                false
            },
        }
    }

    /// Removes the binding of an attribute from an entity. Returns whether the
    /// entity changed.
    pub fn remove_binding(&mut self, id: EntityId, attribute: &str) -> (changed: bool)
        requires
            old(self).wf(),
        ensures
            final(self).wf(),
            (final(self)@, changed) == binding_removed(old(self)@, id, attribute@),
    {
        broadcast use group_models;

        let ghost before = self@;
        let wanted = match self.entities.get(id.0) {
            Some(e) => find_binding(&e.bindings, attribute) < e.bindings.len(),
            None => false,
        };
        if !wanted {
            return false;
        }
        if let Some(mut e) = self.entities.remove(id.0) {
            let ghost e0 = e@;
            let kept = drop_binding(e.bindings, attribute);
            e.bindings = kept;
            proof {
                lemma_binding_removed_valid(before, id, attribute@);
                assert(before.entities[id.0] == e0);
                assert(e@ == (EntityView {
                    bindings: without_binding(e0.bindings, attribute@),
                    ..e0
                }));
            }
            let ghost e2 = e@;
            self.entities.insert(id.0, e);
            proof {
                assert(self@ == before.with_entity(id, e2));
            }
        }
        self.drop_bound(attribute, id);
        true
    }

    /// Enters an anchor under its id, in place of one that has it.
    pub fn insert_anchor(&mut self, anchor: Anchor)
        requires
            old(self).wf(),
        ensures
            final(self).wf(),
            final(self)@ == (LsgView {
                anchors: old(self)@.anchors.insert(anchor.id.0, anchor@),
                ..old(self)@
            }),
    {
        broadcast use group_models;

        self.anchors.insert(anchor.id.0, anchor);
    }

    /// Removes an anchor. Returns whether it was there.
    pub fn remove_anchor(&mut self, id: AnchorId) -> (changed: bool)
        requires
            old(self).wf(),
        ensures
            final(self).wf(),
            changed == old(self)@.anchors.contains_key(id.0),
            final(self)@ == (LsgView {
                anchors: old(self)@.anchors.remove(id.0),
                ..old(self)@
            }),
    {
        broadcast use group_models;

        self.anchors.remove(id.0).is_some()
    }

    /// Enters an edge under its id, in place of one that has it.
    pub fn insert_edge(&mut self, edge: Edge)
        requires
            old(self).wf(),
        ensures
            final(self).wf(),
            final(self)@ == (LsgView {
                edges: old(self)@.edges.insert(edge.id.0, edge@),
                ..old(self)@
            }),
    {
        broadcast use group_models;

        self.edges.insert(edge.id.0, edge);
    }

    /// Removes an edge. Returns whether it was there.
    pub fn remove_edge(&mut self, id: EdgeId) -> (changed: bool)
        requires
            old(self).wf(),
        ensures
            final(self).wf(),
            changed == old(self)@.edges.contains_key(id.0),
            final(self)@ == (LsgView { edges: old(self)@.edges.remove(id.0), ..old(self)@ }),
    {
        broadcast use group_models;

        self.edges.remove(id.0).is_some()
    }

    // -- What opinions override. It is noted before the first opinion fills a slot,
    // and put back when the last one is taken away.

    /// Notes the binding of an attribute that an entity has.
    pub fn note_binding(&mut self, id: EntityId, attribute: &str)
        requires
            old(self).wf(),
        ensures
            final(self).wf(),
            final(self)@ == binding_noted(old(self)@, id, attribute@),
    {
        broadcast use group_models;

        if self.overridden.bindings.contains(id.0, attribute) {
            return;
        }
        match self.entities.get(id.0) {
            Some(e) => {
                let i: usize = find_binding(&e.bindings, attribute);
                let prior = if i < e.bindings.len() {
                    Some(e.bindings[i].clone())
                } else {
                    None
                };
                proof {
                    lemma_binds(views(e.bindings@), attribute@);
                    assert(opt_view(prior) == first_binding(e@.bindings, attribute@));
                }
                self.overridden.bindings.insert(id.0, attribute.to_owned(), prior);
                proof {
                    assert(self@ == binding_noted(old(self)@, id, attribute@));
                    lemma_noted_valid(old(self)@, self@);
                }
            },
            None => {},
        }
    }

    /// Notes whether an entity has a tag.
    pub fn note_tag(&mut self, id: EntityId, tag: &str)
        requires
            old(self).wf(),
        ensures
            final(self).wf(),
            final(self)@ == tag_noted(old(self)@, id, tag@),
    {
        if self.overridden.tags.contains(id.0, tag) {
            return;
        }
        match self.entities.get(id.0) {
            Some(e) => {
                let prior = contains_text(&e.tags, tag);
                self.overridden.tags.insert(id.0, tag.to_owned(), prior);
                proof {
                    assert(self@ == tag_noted(old(self)@, id, tag@));
                    lemma_noted_valid(old(self)@, self@);
                }
            },
            None => {},
        }
    }

    /// Notes the value of a metadata key that an entity has.
    pub fn note_vf(&mut self, id: EntityId, key: &str)
        requires
            old(self).wf(),
        ensures
            final(self).wf(),
            final(self)@ == vf_noted(old(self)@, id, key@),
    {
        broadcast use group_models;

        if self.overridden.vf.contains(id.0, key) {
            return;
        }
        match self.entities.get(id.0) {
            Some(e) => {
                let prior = match e.vf.get(key) {
                    Some(value) => Some(value.clone()),
                    None => None,
                };
                proof {
                    assert(opt_view(prior) == vf_value(e@, key@));
                }
                self.overridden.vf.insert(id.0, key.to_owned(), prior);
                proof {
                    assert(self@ == vf_noted(old(self)@, id, key@));
                    lemma_noted_valid(old(self)@, self@);
                }
            },
            None => {},
        }
    }

    /// Notes the anchor under an id.
    pub fn note_anchor(&mut self, id: AnchorId)
        requires
            old(self).wf(),
        ensures
            final(self).wf(),
            final(self)@ == anchor_noted(old(self)@, id),
    {
        broadcast use group_models;

        if !self.overridden.anchors.contains(id.0) {
            let prior = match self.anchors.get(id.0) {
                Some(a) => Some(a.clone()),
                None => None,
            };
            self.overridden.anchors.insert(id.0, prior);
            proof {
                assert(self@ == anchor_noted(old(self)@, id));
                lemma_noted_valid(old(self)@, self@);
            }
        }
    }

    /// Notes the edge under an id.
    pub fn note_edge(&mut self, id: EdgeId)
        requires
            old(self).wf(),
        ensures
            final(self).wf(),
            final(self)@ == edge_noted(old(self)@, id),
    {
        broadcast use group_models;

        if !self.overridden.edges.contains(id.0) {
            let prior = match self.edges.get(id.0) {
                Some(e) => Some(e.clone()),
                None => None,
            };
            self.overridden.edges.insert(id.0, prior);
            proof {
                assert(self@ == edge_noted(old(self)@, id));
                lemma_noted_valid(old(self)@, self@);
            }
        }
    }

    /// Puts back the binding of an attribute that an entity had before opinions.
    /// Returns whether the entity changed.
    pub fn restore_binding(&mut self, id: EntityId, attribute: &str) -> (changed: bool)
        requires
            old(self).wf(),
        ensures
            final(self).wf(),
            (final(self)@, changed) == binding_restored(old(self)@, id, attribute@),
    {
        broadcast use group_models;

        if !self.overridden.bindings.contains(id.0, attribute) {
            return false;
        }
        let prior = self.overridden.bindings.take(id.0, attribute);
        proof {
            lemma_noted_valid(old(self)@, self@);
        }
        match prior {
            Some(Some(b)) => self.upsert_binding(id, b),
            _ => self.remove_binding(id, attribute),
        }
    }

    /// Lets an entity have a tag just where it had it before opinions. Returns
    /// whether the entity changed.
    pub fn restore_tag(&mut self, id: EntityId, tag: &str) -> (changed: bool)
        requires
            old(self).wf(),
        ensures
            final(self).wf(),
            (final(self)@, changed) == tag_restored(old(self)@, id, tag@),
    {
        let prior = self.overridden.tags.take(id.0, tag);
        proof {
            lemma_noted_valid(old(self)@, self@);
        }
        match prior {
            Some(true) => self.add_tag(id, tag),
            Some(false) => self.remove_tag(id, tag),
            None => {
                proof {
                    assert(self@.overridden.tags =~= old(self)@.overridden.tags);
                }
                false
            },
        }
    }

    /// Puts back the value that a metadata key of an entity had before opinions.
    /// Returns whether the entity changed.
    pub fn restore_vf(&mut self, id: EntityId, key: &str) -> (changed: bool)
        requires
            old(self).wf(),
        ensures
            final(self).wf(),
            (final(self)@, changed) == vf_restored(old(self)@, id, key@),
    {
        broadcast use group_models;

        if !self.overridden.vf.contains(id.0, key) {
            return false;
        }
        let prior = self.overridden.vf.take(id.0, key);
        proof {
            lemma_noted_valid(old(self)@, self@);
        }
        match prior {
            Some(Some(value)) => self.set_vf(id, key, value),
            _ => self.remove_vf(id, key),
        }
    }

    /// Puts back the anchor that stood under an id before opinions. Returns whether
    /// an anchor came or went.
    pub fn restore_anchor(&mut self, id: AnchorId) -> (changed: bool)
        requires
            old(self).wf(),
        ensures
            final(self).wf(),
            (final(self)@, changed) == anchor_restored(old(self)@, id),
    {
        broadcast use group_models;

        if !self.overridden.anchors.contains(id.0) {
            return false;
        }
        let changed = match self.overridden.anchors.remove(id.0) {
            Some(Some(a)) => {
                self.anchors.insert(id.0, a);
                true
            },
            _ => self.anchors.remove(id.0).is_some(),
        };
        proof {
            lemma_noted_valid(old(self)@, self@);
        }
        changed
    }

    /// Puts back the edge that stood under an id before opinions. Returns whether an
    /// edge came or went.
    pub fn restore_edge(&mut self, id: EdgeId) -> (changed: bool)
        requires
            old(self).wf(),
        ensures
            final(self).wf(),
            (final(self)@, changed) == edge_restored(old(self)@, id),
    {
        broadcast use group_models;

        if !self.overridden.edges.contains(id.0) {
            return false;
        }
        let changed = match self.overridden.edges.remove(id.0) {
            Some(Some(e)) => {
                self.edges.insert(id.0, e);
                true
            },
            _ => self.edges.remove(id.0).is_some(),
        };
        proof {
            lemma_noted_valid(old(self)@, self@);
        }
        changed
    }

    /// All anchors, in ascending order of their ids.
    pub fn anchors(&self) -> (r: Vec<&Anchor>)
        ensures
            r@.len() == ascending(self@.anchors.dom()).len(),
            forall|i: int|
                0 <= i < r@.len() ==> (#[trigger] r@[i])@ == self@.anchors[ascending(
                    self@.anchors.dom(),
                )[i]],
    {
        proof {
            assert(self@.anchors.dom() =~= self.anchors@.dom());
        }
        let ids = self.anchors.keys();
        let mut r: Vec<&Anchor> = Vec::new();
        let mut i: usize = 0;
        while i < ids.len()
            invariant
                i <= ids@.len(),
                lists(ids@, self.anchors@.dom()),
                r@.len() == i,
                forall|j: int| 0 <= j < i ==> (#[trigger] r@[j])@ == self@.anchors[ids@[j]],
            decreases ids@.len() - i,
        {
            proof {
                assert(ids@.contains(ids@[i as int]));
                assert(self.anchors@.dom().contains(ids@[i as int]));
            }
            if let Some(a) = self.anchors.get(ids[i]) {
                r.push(a);
            }
            i = i + 1;
        }
        r
    }

    /// All edges, in ascending order of their ids.
    pub fn edges(&self) -> (r: Vec<&Edge>)
        ensures
            r@.len() == ascending(self@.edges.dom()).len(),
            forall|i: int|
                0 <= i < r@.len() ==> (#[trigger] r@[i])@ == self@.edges[ascending(
                    self@.edges.dom(),
                )[i]],
    {
        proof {
            assert(self@.edges.dom() =~= self.edges@.dom());
        }
        let ids = self.edges.keys();
        let mut r: Vec<&Edge> = Vec::new();
        let mut i: usize = 0;
        while i < ids.len()
            invariant
                i <= ids@.len(),
                lists(ids@, self.edges@.dom()),
                r@.len() == i,
                forall|j: int| 0 <= j < i ==> (#[trigger] r@[j])@ == self@.edges[ids@[j]],
            decreases ids@.len() - i,
        {
            proof {
                assert(ids@.contains(ids@[i as int]));
                assert(self.edges@.dom().contains(ids@[i as int]));
            }
            if let Some(e) = self.edges.get(ids[i]) {
                r.push(e);
            }
            i = i + 1;
        }
        r
    }

    pub fn anchor_count(&self) -> (n: usize)
        ensures
            n == self@.anchors.dom().len(),
    {
        proof {
            assert(self@.anchors.dom() =~= self.anchors@.dom());
        }
        self.anchors.len()
    }

    pub fn edge_count(&self) -> (n: usize)
        ensures
            n == self@.edges.dom().len(),
    {
        proof {
            assert(self@.edges.dom() =~= self.edges@.dom());
        }
        self.edges.len()
    }
}

/// An index with other notes on what is overridden, other anchors and other edges.
pub proof fn lemma_noted_valid(v: LsgView, w: LsgView)
    requires
        v.valid(),
        w == (LsgView {
            overridden: w.overridden,
            anchors: w.anchors,
            edges: w.edges,
            revision: w.revision,
            ..v
        }),
        w.overrides_fit(),
    ensures
        w.valid(),
{
    lemma_same_bindings(v, w);
}

/// An index with entities that have the ids and the bindings that they had, and with
/// other notes.
pub proof fn lemma_edited_valid(v: LsgView, w: LsgView)
    requires
        v.valid(),
        w == (LsgView { entities: w.entities, overridden: w.overridden, ..v }),
        w.entities.dom() == v.entities.dom(),
        forall|k: u64| #[trigger]
            w.entities.contains_key(k) ==> w.entities[k].id == v.entities[k].id
                && w.entities[k].bindings == v.entities[k].bindings,
        w.overrides_fit(),
    ensures
        w.valid(),
{
    assert forall|k: u64| #[trigger] w.entities.contains_key(k) <==> v.entities.contains_key(k) by {
        assert(w.entities.dom().contains(k) <==> v.entities.dom().contains(k));
    }
    lemma_same_bindings(v, w);
}

proof fn lemma_with_entity(v: LsgView, id: EntityId, e: EntityView)
    requires
        v.valid(),
        v.has(id),
        e.id == id,
        e.bindings == v.entities[id.0].bindings,
    ensures
        v.with_entity(id, e).valid(),
{
    let w = v.with_entity(id, e);
    lemma_same_bindings(v, w);
    assert(w.entities.dom() =~= v.entities.dom());
    assert forall|p: Seq<char>| #[trigger] w.by_path.contains_key(p) implies w.entities.contains_key(
        w.by_path[p].0,
    ) by {
        assert(v.by_path.contains_key(p));
    }
    assert forall|p: Seq<char>| #[trigger]
        w.by_asset_tag.contains_key(p) implies w.entities.contains_key(w.by_asset_tag[p].0) by {
        assert(v.by_asset_tag.contains_key(p));
    }
}

// ---------------------------------------------------------------------------
// What the index keeps.

/// The binding index lists an entity under an attribute just where the entity
/// binds it, and once.
pub open spec fn bindings_indexed(v: LsgView) -> bool {
    &&& forall|a: Seq<char>, id: EntityId| #[trigger]
        bound_by(v.binding_index, a).contains(id) <==> v.has(id) && binds(v.entities[id.0], a)
    &&& forall|a: Seq<char>| (#[trigger] bound_by(v.binding_index, a)).no_duplicates()
}

pub proof fn lemma_binds(bindings: Seq<TelemetryBindingView>, a: Seq<char>)
    ensures
        0 <= binding_at(bindings, a) <= bindings.len(),
        binding_at(bindings, a) < bindings.len() ==> bindings[binding_at(bindings, a)].attribute
            == a,
        forall|i: int|
            0 <= i < bindings.len() && (#[trigger] bindings[i]).attribute == a ==> binding_at(
                bindings,
                a,
            ) <= i,
    decreases bindings.len(),
{
    if bindings.len() > 0 && bindings[0].attribute != a {
        let rest = bindings.drop_first();
        lemma_binds(rest, a);
        assert forall|i: int|
            0 <= i < bindings.len() && (#[trigger] bindings[i]).attribute == a implies binding_at(
            bindings,
            a,
        ) <= i by {
            assert(rest[i - 1] == bindings[i]);
        }
    }
}

proof fn lemma_names_more(bindings: Seq<TelemetryBindingView>, i: int, a: Seq<char>)
    requires
        0 <= i < bindings.len(),
    ensures
        names(bindings.take(i + 1), a) <==> names(bindings.take(i), a) || bindings[i].attribute
            == a,
        names(bindings.take(i), a) <==> binding_at(bindings, a) < i,
{
    let s = bindings.take(i);
    let t = bindings.take(i + 1);
    lemma_binds(s, a);
    lemma_binds(t, a);
    lemma_binds(bindings, a);
    if names(s, a) {
        let j = binding_at(s, a);
        assert(t[j].attribute == a);
        assert(bindings[j].attribute == a);
    }
    if names(t, a) {
        let j = binding_at(t, a);
        if j < i {
            assert(s[j].attribute == a);
        }
    }
    if binding_at(bindings, a) < i {
        assert(s[binding_at(bindings, a)].attribute == a);
    }
    assert(t[i] == bindings[i]);
}

proof fn lemma_reindexed_none(index: Map<Seq<char>, Seq<EntityId>>, id: EntityId)
    requires
        forall|a: Seq<char>| #[trigger] index.contains_key(a) ==> index[a].len() > 0,
    ensures
        reindexed(index, Seq::empty(), Seq::empty(), id) == index,
{
    let none = Seq::<TelemetryBindingView>::empty();
    assert forall|a: Seq<char>| #[trigger] rebound(index, none, none, id, a) == bound_by(index, a) by {}
    assert(reindexed(index, none, none, id) =~= index);
}

proof fn lemma_without_twice(list: Seq<EntityId>, id: EntityId)
    ensures
        without_id(without_id(list, id), id) == without_id(list, id),
        list.no_duplicates() ==> without_id(list, id).no_duplicates(),
    decreases list.len(),
{
    reveal(Seq::filter);
    if list.len() > 0 {
        let init = list.drop_last();
        let last = list.last();
        lemma_without_twice(init, id);
        let kept = without_id(init, id);
        if last != id {
            assert(without_id(list, id) == kept.push(last));
            assert(kept.push(last).drop_last() =~= kept);
            if list.no_duplicates() {
                assert(init.no_duplicates()) by {
                    assert forall|i: int, j: int|
                        0 <= i < init.len() && 0 <= j < init.len() && i != j implies init[i]
                        != init[j] by {
                        assert(list[i] != list[j]);
                    }
                }
                lemma_others_listed(init, id, last);
                assert(!init.contains(last)) by {
                    if init.contains(last) {
                        let i = choose|i: int| 0 <= i < init.len() && init[i] == last;
                        assert(list[i] != list[list.len() - 1]);
                    }
                }
                lemma_push_distinct(kept, last);
            }
        } else if list.no_duplicates() {
            assert(init.no_duplicates()) by {
                assert forall|i: int, j: int|
                    0 <= i < init.len() && 0 <= j < init.len() && i != j implies init[i]
                    != init[j] by {
                    assert(list[i] != list[j]);
                }
            }
        }
    }
}

proof fn lemma_push_distinct(list: Seq<EntityId>, id: EntityId)
    requires
        list.no_duplicates(),
        !list.contains(id),
    ensures
        list.push(id).no_duplicates(),
{
    let more = list.push(id);
    assert forall|i: int, j: int| 0 <= i < more.len() && 0 <= j < more.len() && i != j implies more[i]
        != more[j] by {
        if i < list.len() && j < list.len() {
            assert(list[i] != list[j]);
        } else if i < list.len() {
            assert(list.contains(list[i]));
        } else {
            assert(list.contains(list[j]));
        }
    }
}

/// What taking an entity out of the list of its next binding does to the index.
proof fn lemma_unbound_step(
    index: Map<Seq<char>, Seq<EntityId>>,
    had: Seq<TelemetryBindingView>,
    i: int,
    id: EntityId,
)
    requires
        0 <= i < had.len(),
    ensures
        unbound(
            reindexed(index, had.take(i), Seq::empty(), id),
            had[i].attribute,
            id,
        ) == reindexed(index, had.take(i + 1), Seq::empty(), id),
{
    let none = Seq::<TelemetryBindingView>::empty();
    let v = reindexed(index, had.take(i), none, id);
    let w = reindexed(index, had.take(i + 1), none, id);
    let u = unbound(v, had[i].attribute, id);
    assert forall|a: Seq<char>| #[trigger] u.contains_key(a) == w.contains_key(a) && (u.contains_key(
        a,
    ) ==> u[a] == w[a]) by {
        lemma_names_more(had, i, a);
        lemma_without_twice(bound_by(index, a), id);
        let list = rebound(index, had.take(i), none, id, a);
        if list.len() == 0 {
            assert(list =~= Seq::empty());
        }
        assert(bound_by(v, a) == list);
    }
    assert(u =~= w);
}

/// What putting an entity behind the list of its next binding, where no binding
/// before it names the attribute, does to the index.
proof fn lemma_bound_step(
    index: Map<Seq<char>, Seq<EntityId>>,
    had: Seq<TelemetryBindingView>,
    has: Seq<TelemetryBindingView>,
    i: int,
    id: EntityId,
)
    requires
        0 <= i < has.len(),
    ensures
        ({
            let v = reindexed(index, had, has.take(i), id);
            reindexed(index, had, has.take(i + 1), id) == if binding_at(has, has[i].attribute)
                < i {
                v
            } else {
                with_bound(v, has[i].attribute, id)
            }
        }),
{
    let attribute = has[i].attribute;
    let v = reindexed(index, had, has.take(i), id);
    let w = reindexed(index, had, has.take(i + 1), id);
    let u = if binding_at(has, attribute) < i {
        v
    } else {
        with_bound(v, attribute, id)
    };
    assert forall|a: Seq<char>| #[trigger] u.contains_key(a) == w.contains_key(a) && (u.contains_key(
        a,
    ) ==> u[a] == w[a]) by {
        lemma_names_more(has, i, a);
        let list = rebound(index, had, has.take(i), id, a);
        if list.len() == 0 {
            assert(list =~= Seq::empty());
        }
        assert(bound_by(v, a) == list);
    }
    assert(u =~= w);
}

proof fn lemma_pushed_id(list: Seq<EntityId>, last: EntityId, id: EntityId)
    ensures
        list.push(last).contains(id) <==> list.contains(id) || id == last,
{
    if list.contains(id) {
        let i = choose|i: int| 0 <= i < list.len() && list[i] == id;
        assert(list.push(last)[i] == id);
    }
    assert(list.push(last)[list.len() as int] == last);
    if list.push(last).contains(id) && id != last {
        let i = choose|i: int| 0 <= i < list.push(last).len() && list.push(last)[i] == id;
        assert(list[i] == id);
    }
}

pub proof fn lemma_other_bindings(bindings: Seq<TelemetryBindingView>, gone: Seq<char>, a: Seq<char>)
    ensures
        ({
            let left = without_binding(bindings, gone);
            binding_at(left, a) < left.len() <==> a != gone && binding_at(bindings, a)
                < bindings.len()
        }),
    decreases bindings.len(),
{
    reveal(Seq::filter);
    let left = without_binding(bindings, gone);
    lemma_binds(bindings, a);
    lemma_binds(left, a);
    if bindings.len() > 0 {
        let init = bindings.drop_last();
        let f = |b: TelemetryBindingView| b.attribute != gone;
        let some = without_binding(init, gone);
        lemma_other_bindings(init, gone, a);
        lemma_binds(init, a);
        lemma_binds(some, a);
        assert(left == if f(bindings.last()) {
            some.push(bindings.last())
        } else {
            some
        });
        if binding_at(init, a) < init.len() {
            assert(bindings[binding_at(init, a)].attribute == a);
        }
        if binding_at(some, a) < some.len() {
            assert(left[binding_at(some, a)].attribute == a);
        }
        if binding_at(bindings, a) < bindings.len() {
            let i = binding_at(bindings, a);
            if i < init.len() {
                assert(init[i].attribute == a);
            } else if f(bindings.last()) {
                assert(left[some.len() as int].attribute == a);
            }
        }
        if binding_at(left, a) < left.len() {
            let i = binding_at(left, a);
            if i < some.len() {
                assert(some[i].attribute == a);
            } else {
                assert(bindings[bindings.len() - 1].attribute == a);
            }
        }
    }
}

proof fn lemma_others_listed(list: Seq<EntityId>, gone: EntityId, id: EntityId)
    ensures
        without_id(list, gone).contains(id) <==> list.contains(id) && id != gone,
    decreases list.len(),
{
    reveal(Seq::filter);
    if list.len() > 0 {
        let init = list.drop_last();
        lemma_others_listed(init, gone, id);
        assert(list =~= init.push(list.last()));
        lemma_pushed_id(init, list.last(), id);
        lemma_pushed_id(without_id(init, gone), list.last(), id);
    }
}

/// The binding index stays in agreement with the entities, whatever is done to the
/// scene: entering an entity, for the first time or again, and each edit of one.
pub proof fn law_binding_index_agrees(
    v: LsgView,
    e: EntityView,
    id: EntityId,
    b: TelemetryBindingView,
    attribute: Seq<char>,
    tag: Seq<char>,
    key: Seq<char>,
    value: VfValueView,
)
    requires
        bindings_indexed(v),
    ensures
        bindings_indexed(v.inserted(e)),
        bindings_indexed(LsgView { entities: linked(v.entities), ..v }),
        bindings_indexed(binding_set(v, id, b).0),
        bindings_indexed(binding_removed(v, id, attribute).0),
        bindings_indexed(tag_added(v, id, tag).0),
        bindings_indexed(tag_removed(v, id, tag).0),
        bindings_indexed(vf_set(v, id, key, value).0),
        bindings_indexed(vf_removed(v, id, key).0),
{
    lemma_inserted_indexed(v, e);
    lemma_set_indexed(v, id, b);
    lemma_removed_indexed(v, id, attribute);
    lemma_same_bindings(v, LsgView { entities: linked(v.entities), ..v });
    lemma_same_bindings(v, tag_added(v, id, tag).0);
    lemma_same_bindings(v, tag_removed(v, id, tag).0);
    lemma_same_bindings(v, vf_set(v, id, key, value).0);
    lemma_same_bindings(v, vf_removed(v, id, key).0);
}

proof fn lemma_set_indexed(v: LsgView, id: EntityId, b: TelemetryBindingView)
    requires
        bindings_indexed(v),
    ensures
        bindings_indexed(binding_set(v, id, b).0),
{
    let w = binding_set(v, id, b).0;
    assert forall|a: Seq<char>, x: EntityId| #[trigger]
        bound_by(w.binding_index, a).contains(x) <==> w.has(x) && binds(w.entities[x.0], a) by {
        assert(bound_by(v.binding_index, a).contains(x) <==> v.has(x) && binds(
            v.entities[x.0],
            a,
        ));
        if v.has(id) {
            let old_list = v.entities[id.0].bindings;
            let new_list = with_binding(old_list, b);
            let at = binding_at(old_list, b.attribute);
            lemma_binds(old_list, a);
            lemma_binds(old_list, b.attribute);
            lemma_binds(new_list, a);
            lemma_pushed_id(bound_by(v.binding_index, b.attribute), id, x);
            assert(new_list[at].attribute == b.attribute);
            if binding_at(old_list, a) < old_list.len() {
                let i = binding_at(old_list, a);
                assert(new_list[i].attribute == a);
            }
            if binding_at(new_list, a) < new_list.len() && a != b.attribute {
                let i = binding_at(new_list, a);
                assert(old_list[i].attribute == a);
            }
            assert(x == id <==> x.0 == id.0);
        }
    }
    assert forall|a: Seq<char>| (#[trigger] bound_by(w.binding_index, a)).no_duplicates() by {
        assert(bound_by(v.binding_index, a).no_duplicates());
        assert(bound_by(v.binding_index, a).contains(id) <==> v.has(id) && binds(
            v.entities[id.0],
            a,
        ));
        if v.has(id) && !binds(v.entities[id.0], b.attribute) && a == b.attribute {
            lemma_push_distinct(bound_by(v.binding_index, a), id);
        }
    }
}

proof fn lemma_removed_indexed(v: LsgView, id: EntityId, attribute: Seq<char>)
    requires
        bindings_indexed(v),
    ensures
        bindings_indexed(binding_removed(v, id, attribute).0),
{
    let w = binding_removed(v, id, attribute).0;
    assert forall|a: Seq<char>| (#[trigger] bound_by(w.binding_index, a)).no_duplicates() by {
        assert(bound_by(v.binding_index, a).no_duplicates());
        lemma_without_twice(bound_by(v.binding_index, a), id);
    }
    assert forall|a: Seq<char>, x: EntityId| #[trigger]
        bound_by(w.binding_index, a).contains(x) <==> w.has(x) && binds(w.entities[x.0], a) by {
        assert(bound_by(v.binding_index, a).contains(x) <==> v.has(x) && binds(
            v.entities[x.0],
            a,
        ));
        if v.has(id) && binds(v.entities[id.0], attribute) {
            lemma_other_bindings(v.entities[id.0].bindings, attribute, a);
            lemma_others_listed(bound_by(v.binding_index, attribute), id, x);
            assert(x == id <==> x.0 == id.0);
        }
    }
}

/// An index with entities whose bindings alone differ, and with another binding
/// index that agrees with them.
proof fn lemma_rebound_valid(v: LsgView, w: LsgView)
    requires
        v.valid(),
        w == (LsgView { entities: w.entities, binding_index: w.binding_index, ..v }),
        w.entities.dom() == v.entities.dom(),
        forall|k: u64| #[trigger]
            w.entities.contains_key(k) ==> w.entities[k].id == v.entities[k].id,
        forall|a: Seq<char>| #[trigger]
            w.binding_index.contains_key(a) ==> w.binding_index[a].len() > 0,
        bindings_indexed(w),
    ensures
        w.valid(),
{
    assert forall|k: u64| #[trigger] w.entities.contains_key(k) <==> v.entities.contains_key(k) by {
        assert(w.entities.dom().contains(k) <==> v.entities.dom().contains(k));
    }
}

pub proof fn lemma_binding_set_valid(v: LsgView, id: EntityId, b: TelemetryBindingView)
    requires
        v.valid(),
    ensures
        binding_set(v, id, b).0.valid(),
{
    let w = binding_set(v, id, b).0;
    assert(w.entities.dom() =~= v.entities.dom());
    lemma_set_indexed(v, id, b);
    lemma_rebound_valid(v, w);
}

pub proof fn lemma_binding_removed_valid(v: LsgView, id: EntityId, attribute: Seq<char>)
    requires
        v.valid(),
    ensures
        binding_removed(v, id, attribute).0.valid(),
{
    let w = binding_removed(v, id, attribute).0;
    assert(w.entities.dom() =~= v.entities.dom());
    lemma_removed_indexed(v, id, attribute);
    lemma_rebound_valid(v, w);
}

proof fn lemma_inserted_indexed(v: LsgView, e: EntityView)
    requires
        bindings_indexed(v),
    ensures
        bindings_indexed(v.inserted(e)),
{
    let w = v.inserted(e);
    let had = v.bindings_at(e.id);
    assert forall|a: Seq<char>| #[trigger]
        bound_by(w.binding_index, a) == rebound(v.binding_index, had, e.bindings, e.id, a) by {
        let list = rebound(v.binding_index, had, e.bindings, e.id, a);
        if list.len() == 0 {
            assert(list =~= Seq::empty());
        }
    }
    assert forall|a: Seq<char>, x: EntityId| #[trigger]
        bound_by(w.binding_index, a).contains(x) <==> w.has(x) && binds(w.entities[x.0], a) by {
        let list = bound_by(v.binding_index, a);
        assert(list.contains(x) <==> v.has(x) && binds(v.entities[x.0], a));
        lemma_others_listed(list, e.id, x);
        lemma_pushed_id(list, e.id, x);
        lemma_pushed_id(without_id(list, e.id), e.id, x);
        assert(x == e.id <==> x.0 == e.id.0);
    }
    assert forall|a: Seq<char>| (#[trigger] bound_by(w.binding_index, a)).no_duplicates() by {
        let list = bound_by(v.binding_index, a);
        assert(list.no_duplicates());
        assert(list.contains(e.id) <==> v.has(e.id) && binds(v.entities[e.id.0], a));
        lemma_without_twice(list, e.id);
        lemma_others_listed(list, e.id, e.id);
        if names(e.bindings, a) {
            if names(had, a) {
                lemma_push_distinct(without_id(list, e.id), e.id);
            } else {
                lemma_push_distinct(list, e.id);
            }
        }
    }
}

proof fn lemma_same_bindings(v: LsgView, w: LsgView)
    requires
        bindings_indexed(v),
        w.binding_index == v.binding_index,
        forall|k: u64| #[trigger] w.entities.contains_key(k) <==> v.entities.contains_key(k),
        forall|k: u64| #[trigger]
            w.entities.contains_key(k) ==> w.entities[k].bindings == v.entities[k].bindings,
    ensures
        bindings_indexed(w),
{
    assert forall|a: Seq<char>| (#[trigger] bound_by(w.binding_index, a)).no_duplicates() by {
        assert(bound_by(v.binding_index, a).no_duplicates());
    }
    assert forall|a: Seq<char>, x: EntityId| #[trigger]
        bound_by(w.binding_index, a).contains(x) <==> w.has(x) && binds(w.entities[x.0], a) by {
        assert(bound_by(v.binding_index, a).contains(x) <==> v.has(x) && binds(
            v.entities[x.0],
            a,
        ));
    }
}

} // verus!
