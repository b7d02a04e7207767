//! A renderer bridge without an engine: it keeps a render scene as a cache and
//! rebuilds it from bridge messages alone.
//!
//! It invents no ids and keeps no pins as truth. On connect it starts over from
//! the server's snapshot.

use crate::bridge::{
    active_for, copy_visual, diff_messages, removes_of, snapshot_of, state_of, upserts_of,
    BridgeMsg, EntityStateView, MsgView, VisualSample,
};
use crate::hydrate::{key_of, share, HydratedPayload, LoadError, PayloadCache, PayloadLoader};
use crate::interest::SubscriptionId;
use crate::lsg::{copy_geom, copy_texts, Aabb, EntityId, GeomRef, LsgView, Transform};
use crate::model::{group_models, map_views, opt_view, views};
use crate::overlay::OverlayView;
use crate::rsg::{DiffView, RsgView};
use crate::table::{ascending, lists, IdMap};
use std::sync::Arc;
use vstd::prelude::*;
use vstd::string::*;

verus! {

/// An entity of the render scene.
#[derive(Debug, PartialEq)]
pub struct RenderEntity {
    pub id: EntityId,
    pub prim_path: String,
    pub transform: Transform,
    /// The authored box, relative to the origin of the transform.
    pub extents: Option<Aabb>,
    pub geom_ref: Option<GeomRef>,
    pub tags: Vec<String>,
    pub visual: Vec<VisualSample>,
    pub overlay_hint: Option<String>,
    /// Geometry loaded by [`FakeBridge::hydrate`]; messages carry none.
    pub hydrated: Option<Arc<HydratedPayload>>,
}

pub struct RenderView {
    pub state: EntityStateView,
    pub overlay_hint: Option<Seq<char>>,
    pub hydrated: Option<Arc<HydratedPayload>>,
}

impl View for RenderEntity {
    type V = RenderView;

    open spec fn view(&self) -> RenderView {
        RenderView {
            state: EntityStateView {
                id: self.id,
                prim_path: self.prim_path@,
                transform: self.transform,
                extents: self.extents,
                geom_ref: opt_view(self.geom_ref),
                tags: views(self.tags@),
                visual: views(self.visual@),
            },
            overlay_hint: opt_view(self.overlay_hint),
            hydrated: self.hydrated,
        }
    }
}

/// The model of a [`FakeBridge`].
pub struct SceneView {
    pub scene: Map<u64, RenderView>,
    pub protocol: Option<Seq<char>>,
    pub scene_revision: u64,
    pub last_seq: u64,
    pub last_pick: Option<EntityId>,
    pub in_snapshot: bool,
}

impl SceneView {
    pub open spec fn has(self, id: EntityId) -> bool {
        self.scene.contains_key(id.0)
    }

    /// The scene with the entity under `id` replaced, where there is one.
    pub open spec fn with(self, id: EntityId, e: RenderView) -> SceneView {
        if self.has(id) {
            SceneView { scene: self.scene.insert(id.0, e), ..self }
        } else {
            self
        }
    }
}

/// The geometry that an upsert keeps: that of the entity it replaces, where the
/// handle is the same.
pub open spec fn kept_geometry(v: SceneView, e: EntityStateView) -> Option<Arc<HydratedPayload>> {
    if v.has(e.id) && v.scene[e.id.0].state.geom_ref == e.geom_ref {
        v.scene[e.id.0].hydrated
    } else {
        None
    }
}

/// What one message does to the cache.
pub open spec fn applied(v: SceneView, m: MsgView) -> SceneView {
    match m {
        MsgView::Hello { protocol, scene_revision } => SceneView {
            protocol: Some(protocol),
            scene_revision,
            ..v
        },
        MsgView::SnapshotBegin { scene_revision, .. } => SceneView {
            scene: Map::empty(),
            scene_revision,
            in_snapshot: true,
            ..v
        },
        MsgView::UpsertEntity(e) => SceneView {
            scene: v.scene.insert(
                e.id.0,
                RenderView { state: e, overlay_hint: None, hydrated: kept_geometry(v, e) },
            ),
            ..v
        },
        MsgView::RemoveEntity { id } => SceneView { scene: v.scene.remove(id.0), ..v },
        MsgView::SetTransform { id, transform } => {
            let e = v.scene[id.0];
            v.with(id, RenderView { state: EntityStateView { transform, ..e.state }, ..e })
        },
        MsgView::SetGeomRef { id, geom_ref } => {
            let e = v.scene[id.0];
            v.with(
                id,
                RenderView {
                    state: EntityStateView { geom_ref: Some(geom_ref), ..e.state },
                    hydrated: if e.state.geom_ref == Some(geom_ref) {
                        e.hydrated
                    } else {
                        None
                    },
                    ..e
                },
            )
        },
        MsgView::SetVisualState { id, visual } => {
            let e = v.scene[id.0];
            v.with(id, RenderView { state: EntityStateView { visual, ..e.state }, ..e })
        },
        MsgView::SetOverlayHint { id, hint } => {
            let e = v.scene[id.0];
            v.with(id, RenderView { overlay_hint: Some(hint), ..e })
        },
        MsgView::SnapshotMarker { scene_revision, seq } => SceneView {
            scene_revision,
            last_seq: seq,
            in_snapshot: false,
            ..v
        },
        MsgView::PinConfirm { id, transform, .. } => {
            let e = v.scene[id.0];
            v.with(id, RenderView { state: EntityStateView { transform, ..e.state }, ..e })
        },
        MsgView::PickResult { hit, .. } => SceneView { last_pick: hit, ..v },
    }
}

/// What messages do, one after the other.
pub open spec fn all_applied(v: SceneView, msgs: Seq<MsgView>) -> SceneView
    decreases msgs.len(),
{
    if msgs.len() == 0 {
        v
    } else {
        applied(all_applied(v, msgs.drop_last()), msgs.last())
    }
}

fn same_texts(a: &Vec<String>, b: &Vec<String>) -> (r: bool)
    ensures
        r == (views(a@) == views(b@)),
{
    if a.len() != b.len() {
        proof {
            assert(views(a@).len() != views(b@).len());
        }
        return false;
    }
    let mut i: usize = 0;
    while i < a.len()
        invariant
            i <= a@.len(),
            a@.len() == b@.len(),
            forall|j: int| 0 <= j < i ==> (#[trigger] a@[j])@ == b@[j]@,
        decreases a@.len() - i,
    {
        if a[i] != b[i] {
            proof {
                assert(views(a@)[i as int] != views(b@)[i as int]);
            }
            return false;
        }
        i = i + 1;
    }
    proof {
        assert(views(a@) =~= views(b@));
    }
    true
}

fn same_geom(a: &GeomRef, b: &GeomRef) -> (r: bool)
    ensures
        r == (a@ == b@),
{
    a.payload_uri == b.payload_uri && a.prim_path == b.prim_path && a.content_hash
        == b.content_hash && same_texts(&a.lod_ladder, &b.lod_ladder)
}

fn same_opt_geom(a: &Option<GeomRef>, b: &Option<GeomRef>) -> (r: bool)
    ensures
        r == (opt_view(*a) == opt_view(*b)),
{
    match (a, b) {
        (Some(x), Some(y)) => same_geom(x, y),
        (None, None) => true,
        _ => false,
    }
}

fn share_opt(p: &Option<Arc<HydratedPayload>>) -> (r: Option<Arc<HydratedPayload>>)
    ensures
        r == *p,
{
    match p {
        Some(a) => Some(share(a)),
        None => None,
    }
}

/// The cache, and what is known of the connection.
pub struct FakeBridge {
    scene: IdMap<RenderEntity>,
    /// The protocol of the last greeting.
    pub protocol: Option<String>,
    /// The revision of the last greeting or snapshot.
    pub scene_revision: u64,
    /// The number of the last checkpoint.
    pub last_seq: u64,
    /// The last pick.
    pub last_pick: Option<EntityId>,
    in_snapshot: bool,
}

impl View for FakeBridge {
    type V = SceneView;

    closed spec fn view(&self) -> SceneView {
        SceneView {
            scene: map_views(self.scene@),
            protocol: opt_view(self.protocol),
            scene_revision: self.scene_revision,
            last_seq: self.last_seq,
            last_pick: self.last_pick,
            in_snapshot: self.in_snapshot,
        }
    }
}

impl FakeBridge {
    pub fn new() -> (b: Self)
        ensures
            b@ == (SceneView {
                scene: Map::empty(),
                protocol: None,
                scene_revision: 0,
                last_seq: 0,
                last_pick: None,
                in_snapshot: false,
            }),
    {
        broadcast use group_models;

        FakeBridge {
            scene: IdMap::new(),
            protocol: None,
            scene_revision: 0,
            last_seq: 0,
            last_pick: None,
            in_snapshot: false,
        }
    }

    /// Applies messages to the cache, in order.
    pub fn apply(&mut self, msgs: &[BridgeMsg])
        ensures
            final(self)@ == all_applied(old(self)@, views(msgs@)),
    {
        let ghost all = views(msgs@);
        let mut i: usize = 0;
        while i < msgs.len()
            invariant
                i <= msgs@.len(),
                all == views(msgs@),
                self@ == all_applied(old(self)@, all.take(i as int)),
            decreases msgs@.len() - i,
        {
            self.apply_one(&msgs[i]);
            i = i + 1;
            proof {
                assert(all.take(i as int).drop_last() =~= all.take(i - 1));
                assert(all.take(i as int).last() == msgs@[i - 1]@);
            }
        }
        proof {
            assert(all.take(i as int) =~= all);
        }
    }

    fn set_transform(&mut self, id: EntityId, transform: Transform)
        ensures
            final(self)@ == applied(old(self)@, MsgView::SetTransform { id, transform }),
    {
        broadcast use group_models;

        match self.scene.remove(id.0) {
            Some(mut e) => {
                e.transform = transform;
                self.scene.insert(id.0, e);
            },
            None => {
                proof {
                    assert(self@.scene =~= old(self)@.scene);
                }
            },
        }
    }

    /// Applies one message.
    pub fn apply_one(&mut self, msg: &BridgeMsg)
        ensures
            final(self)@ == applied(old(self)@, msg@),
    {
        broadcast use group_models;

        match msg {
            BridgeMsg::Hello { protocol, scene_revision } => {
                self.protocol = Some(protocol.clone());
                self.scene_revision = *scene_revision;
            },
            BridgeMsg::SnapshotBegin { scene_revision, .. } => {
                self.scene = IdMap::new();
                self.scene_revision = *scene_revision;
                self.in_snapshot = true;
            },
            BridgeMsg::UpsertEntity {
                id,
                prim_path,
                transform,
                extents,
                geom_ref,
                tags,
                visual,
            } => {
                let hydrated = match self.scene.get(id.0) {
                    Some(prev) => if same_opt_geom(&prev.geom_ref, geom_ref) {
                        share_opt(&prev.hydrated)
                    } else {
                        None
                    },
                    None => None,
                };
                self.scene.insert(
                    id.0,
                    RenderEntity {
                        id: *id,
                        prim_path: prim_path.clone(),
                        transform: *transform,
                        extents: *extents,
                        geom_ref: copy_geom(geom_ref),
                        tags: copy_texts(tags),
                        visual: copy_visual(visual),
                        overlay_hint: None,
                        hydrated,
                    },
                );
            },
            BridgeMsg::RemoveEntity { id } => {
                self.scene.remove(id.0);
            },
            BridgeMsg::SetTransform { id, transform } => {
                self.set_transform(*id, *transform);
            },
            BridgeMsg::SetGeomRef { id, geom_ref } => {
                match self.scene.remove(id.0) {
                    Some(mut e) => {
                        let same = match &e.geom_ref {
                            Some(g) => same_geom(g, geom_ref),
                            None => false,
                        };
                        if !same {
                            e.hydrated = None;
                        }
                        e.geom_ref = Some(geom_ref.clone());
                        self.scene.insert(id.0, e);
                    },
                    None => {
                        proof {
                            assert(self@.scene =~= old(self)@.scene);
                        }
                    },
                }
            },
            BridgeMsg::SetVisualState { id, visual } => {
                match self.scene.remove(id.0) {
                    Some(mut e) => {
                        e.visual = copy_visual(visual);
                        self.scene.insert(id.0, e);
                    },
                    None => {
                        proof {
                            assert(self@.scene =~= old(self)@.scene);
                        }
                    },
                }
            },
            BridgeMsg::SetOverlayHint { id, hint } => {
                match self.scene.remove(id.0) {
                    Some(mut e) => {
                        e.overlay_hint = Some(hint.clone());
                        self.scene.insert(id.0, e);
                    },
                    None => {
                        proof {
                            assert(self@.scene =~= old(self)@.scene);
                        }
                    },
                }
            },
            BridgeMsg::SnapshotMarker { scene_revision, seq } => {
                self.scene_revision = *scene_revision;
                self.last_seq = *seq;
                self.in_snapshot = false;
            },
            BridgeMsg::PinConfirm { id, transform, .. } => {
                self.set_transform(*id, *transform);
            },
            BridgeMsg::PickResult { hit, .. } => {
                self.last_pick = *hit;
            },
        }
    }
}

// ---------------------------------------------------------------------------
// Geometry.

/// The entity refers to geometry that is not loaded yet.
pub open spec fn needs_geometry(e: RenderView) -> bool {
    e.hydrated is None && e.state.geom_ref is Some
}

/// The payload cache after loading what the listed entities need.
pub open spec fn cache_after(
    c: crate::hydrate::CacheView,
    v: SceneView,
    ids: Seq<u64>,
) -> crate::hydrate::CacheView
    decreases ids.len(),
{
    if ids.len() == 0 {
        c
    } else {
        let d = cache_after(c, v, ids.drop_last());
        let e = v.scene[ids.last()];
        if needs_geometry(e) {
            crate::hydrate::acquired(d, key_of(e.state.geom_ref->0))
        } else {
            d
        }
    }
}

/// Every entity that refers to geometry has it.
pub open spec fn complete(v: SceneView) -> bool {
    forall|k: u64| #[trigger] v.scene.contains_key(k) ==> !needs_geometry(v.scene[k])
}

/// How many of the listed entities need geometry.
pub open spec fn needing(v: SceneView, ids: Seq<u64>) -> nat
    decreases ids.len(),
{
    if ids.len() == 0 {
        0
    } else {
        needing(v, ids.drop_last()) + if needs_geometry(v.scene[ids.last()]) {
            1nat
        } else {
            0
        }
    }
}

/// The listed entities have the geometry that they needed: that which the cache
/// holds under its key. All else is as it was.
pub open spec fn geometry_loaded<L: PayloadLoader>(
    v: SceneView,
    w: SceneView,
    cache: PayloadCache<L>,
    ids: Seq<u64>,
) -> bool {
    &&& w == (SceneView { scene: w.scene, ..v })
    &&& w.scene.dom() == v.scene.dom()
    &&& forall|k: u64| #[trigger]
        v.scene.contains_key(k) ==> w.scene[k] == if needs_geometry(v.scene[k]) && ids.contains(k) {
            RenderView {
                hydrated: Some(cache.payload_at(key_of(v.scene[k].state.geom_ref->0))),
                ..v.scene[k]
            }
        } else {
            v.scene[k]
        }
}

/// The payload came from the loader: one of the listed entities needed it while it
/// was not loaded, and this is what the loader returned for its handle.
pub open spec fn fetched<L: PayloadLoader>(
    c: crate::hydrate::CacheView,
    v: SceneView,
    ids: Seq<u64>,
    loader: L,
    key: Seq<char>,
    payload: HydratedPayload,
) -> bool {
    exists|i: int|
        {
            let e = v.scene[ids[i]];
            &&& 0 <= i < ids.len()
            &&& needs_geometry(e)
            &&& key_of(e.state.geom_ref->0) == key
            &&& !(#[trigger] cache_after(c, v, ids.take(i))).refs.contains_key(key)
            &&& loader.may_load(e.state.geom_ref->0, Ok(payload))
        }
}

/// What is loaded after a bridge loaded geometry: the payloads that were loaded
/// before, and those that the loader returned.
pub open spec fn kept_or_fetched<L: PayloadLoader>(
    before: PayloadCache<L>,
    after: PayloadCache<L>,
    v: SceneView,
    ids: Seq<u64>,
) -> bool {
    forall|key: Seq<char>| #[trigger]
        after@.refs.contains_key(key) ==> if before@.refs.contains_key(key) {
            after.payload_at(key) == before.payload_at(key)
        } else {
            fetched(before@, v, ids, before.source(), key, *after.payload_at(key))
        }
}

/// Loading geometry takes no reference away.
pub proof fn lemma_cache_grows(c: crate::hydrate::CacheView, v: SceneView, ids: Seq<u64>)
    ensures
        forall|key: Seq<char>| #[trigger]
            c.refs.contains_key(key) ==> {
                &&& cache_after(c, v, ids).refs.contains_key(key)
                &&& cache_after(c, v, ids).refs[key] >= c.refs[key]
            },
    decreases ids.len(),
{
    if ids.len() > 0 {
        lemma_cache_grows(c, v, ids.drop_last());
        let d = cache_after(c, v, ids.drop_last());
        assert forall|key: Seq<char>| #[trigger] c.refs.contains_key(key) implies {
            &&& cache_after(c, v, ids).refs.contains_key(key)
            &&& cache_after(c, v, ids).refs[key] >= c.refs[key]
        } by {
            assert(d.refs.contains_key(key) && d.refs[key] >= c.refs[key]);
        }
    }
}

/// The loader was asked for the geometry of the entity, and failed.
pub open spec fn failed_on<L: PayloadLoader>(e: RenderView, loader: L, err: LoadError) -> bool {
    needs_geometry(e) && loader.may_load(e.state.geom_ref->0, Err(err))
}

impl FakeBridge {
    /// Loads the geometry of every entity that refers to some and has none yet.
    /// Returns how many were loaded. Where the loader fails, what came before
    /// stays loaded.
    pub fn hydrate<L: PayloadLoader>(&mut self, cache: &mut PayloadCache<L>) -> (r: Result<
        usize,
        LoadError,
    >)
        requires
            old(cache).wf(),
            old(cache).room(old(self)@.scene.dom().len() as int),
        ensures
            final(cache).wf(),
            final(cache).source() == old(cache).source(),
            kept_or_fetched(
                *old(cache),
                *final(cache),
                old(self)@,
                ascending(old(self)@.scene.dom()),
            ),
            match r {
                Ok(n) => {
                    &&& n == needing(old(self)@, ascending(old(self)@.scene.dom()))
                    &&& final(cache)@ == cache_after(
                        old(cache)@,
                        old(self)@,
                        ascending(old(self)@.scene.dom()),
                    )
                    &&& geometry_loaded(
                        old(self)@,
                        final(self)@,
                        *final(cache),
                        ascending(old(self)@.scene.dom()),
                    )
                    &&& complete(final(self)@)
                },
                Err(e) => exists|i: int|
                    {
                        &&& 0 <= i < ascending(old(self)@.scene.dom()).len()
                        &&& final(cache)@ == #[trigger] cache_after(
                            old(cache)@,
                            old(self)@,
                            ascending(old(self)@.scene.dom()).take(i),
                        )
                        &&& geometry_loaded(
                            old(self)@,
                            final(self)@,
                            *final(cache),
                            ascending(old(self)@.scene.dom()).take(i),
                        )
                        &&& failed_on(
                            old(self)@.scene[ascending(old(self)@.scene.dom())[i]],
                            old(cache).source(),
                            e,
                        )
                    },
            },
    {
        broadcast use group_models;

        let ghost v = self@;
        proof {
            assert(v.scene.dom() =~= self.scene@.dom());
        }
        let ids = self.scene.keys();
        let mut n: usize = 0;
        let mut i: usize = 0;
        while i < ids.len()
            invariant
                i <= ids@.len(),
                n <= i,
                ids@ == ascending(v.scene.dom()),
                lists(ids@, v.scene.dom()),
                v == old(self)@,
                cache.wf(),
                cache.room(ids@.len() - i),
                cache.source() == old(cache).source(),
                cache@ == cache_after(old(cache)@, v, ids@.take(i as int)),
                n == needing(v, ids@.take(i as int)),
                geometry_loaded(v, self@, *cache, ids@.take(i as int)),
                kept_or_fetched(*old(cache), *cache, v, ids@),
                forall|k: u64| #[trigger]
                    v.scene.contains_key(k) && needs_geometry(v.scene[k]) && ids@.take(
                        i as int,
                    ).contains(k) ==> cache@.refs.contains_key(
                        key_of(v.scene[k].state.geom_ref->0),
                    ),
            decreases ids@.len() - i,
        {
            let id: u64 = ids[i];
            let ghost a = ids@.take(i as int);
            let ghost b = ids@.take(i + 1);
            let ghost before = self@;
            let ghost cache0 = *cache;
            proof {
                assert(b.drop_last() =~= a);
                assert(b.last() == id);
                assert(b =~= a.push(id));
                assert(ids@.contains(id));
                assert(v.scene.dom().contains(id));
                assert(v.scene.contains_key(id));
                assert(!a.contains(id)) by {
                    if a.contains(id) {
                        let x = choose|x: int| 0 <= x < a.len() && a[x] == id;
                        assert(ids@[x] < ids@[i as int]);
                    }
                }
                assert(self@.scene[id] == v.scene[id]);
                assert forall|k: u64| #[trigger] b.contains(k) <==> a.contains(k) || k == id by {
                    if a.contains(k) {
                        let x = choose|x: int| 0 <= x < a.len() && a[x] == k;
                        assert(b[x] == k);
                    }
                    if b.contains(k) {
                        let x = choose|x: int| 0 <= x < b.len() && b[x] == k;
                        if x < a.len() {
                            assert(a[x] == k);
                        }
                    }
                    assert(b[i as int] == id);
                }
            }
            let loaded = match self.scene.get(id) {
                Some(e) => if e.hydrated.is_some() {
                    None
                } else {
                    match &e.geom_ref {
                        Some(g) => match cache.acquire(g) {
                            Ok((_, payload)) => Some(payload),
                            Err(err) => {
                                proof {
                                    let all = ascending(v.scene.dom());
                                    assert(needs_geometry(v.scene[all[i as int]]));
                                }
                                return Err(err);
                            },
                        },
                        None => None,
                    }
                },
                None => None,
            };
            if let Some(payload) = loaded {
                proof {
                    assert(needs_geometry(v.scene[id]));
                }
                if let Some(mut e) = self.scene.remove(id) {
                    e.hydrated = Some(payload);
                    self.scene.insert(id, e);
                }
                n = n + 1;
                proof {
                    let key = key_of(v.scene[id].state.geom_ref->0);
                    lemma_cache_grows(old(cache)@, v, a);
                    assert forall|q: Seq<char>| #[trigger]
                        cache@.refs.contains_key(q) implies if old(cache)@.refs.contains_key(q) {
                        cache.payload_at(q) == old(cache).payload_at(q)
                    } else {
                        fetched(old(cache)@, v, ids@, old(cache).source(), q, *cache.payload_at(q))
                    } by {
                        if cache0@.refs.contains_key(q) {
                            assert(cache.payload_at(q) == cache0.payload_at(q));
                        } else {
                            assert(q == key);
                            assert(ids@[i as int] == id);
                            assert(!cache_after(old(cache)@, v, ids@.take(i as int)).refs.contains_key(
                                q,
                            ));
                        }
                    }
                    assert(self@.scene.dom() =~= v.scene.dom());
                    assert forall|k: u64| #[trigger] v.scene.contains_key(k) implies self@.scene[k]
                        == if needs_geometry(v.scene[k]) && b.contains(k) {
                        RenderView {
                            hydrated: Some(cache.payload_at(key_of(v.scene[k].state.geom_ref->0))),
                            ..v.scene[k]
                        }
                    } else {
                        v.scene[k]
                    } by {
                        assert(b.contains(k) <==> a.contains(k) || k == id);
                        if k != id && needs_geometry(v.scene[k]) && a.contains(k) {
                            let other = key_of(v.scene[k].state.geom_ref->0);
                            assert(cache0@.refs.contains_key(other));
                            assert(cache.payload_at(other) == cache0.payload_at(other));
                        }
                    }
                    assert forall|k: u64| #[trigger]
                        v.scene.contains_key(k) && needs_geometry(v.scene[k]) && b.contains(
                            k,
                        ) implies cache@.refs.contains_key(
                        key_of(v.scene[k].state.geom_ref->0),
                    ) by {
                        assert(b.contains(k) <==> a.contains(k) || k == id);
                    }
                }
            } else {
                proof {
                    assert(!needs_geometry(v.scene[id]));
                    assert forall|k: u64| #[trigger] v.scene.contains_key(k) implies (needs_geometry(
                        v.scene[k],
                    ) && b.contains(k)) == (needs_geometry(v.scene[k]) && a.contains(k)) by {
                        assert(b.contains(k) <==> a.contains(k) || k == id);
                    }
                }
            }
            i = i + 1;
        }
        proof {
            assert(ids@.take(i as int) =~= ids@);
            assert forall|k: u64| #[trigger] self@.scene.contains_key(k) implies !needs_geometry(
                self@.scene[k],
            ) by {
                assert(self@.scene.dom().contains(k));
                assert(v.scene.dom().contains(k));
                assert(v.scene.contains_key(k));
                assert(ids@.contains(k));
            }
        }
        Ok(n)
    }

    pub fn get(&self, id: EntityId) -> (r: Option<&RenderEntity>)
        ensures
            match r {
                Some(e) => self@.has(id) && e@ == self@.scene[id.0],
                None => !self@.has(id),
            },
    {
        self.scene.get(id.0)
    }

    pub fn contains(&self, id: EntityId) -> (b: bool)
        ensures
            b == self@.has(id),
    {
        self.scene.contains(id.0)
    }

    /// How many entities the cache holds.
    pub fn len(&self) -> (n: usize)
        ensures
            n == self@.scene.dom().len(),
    {
        proof {
            assert(self@.scene.dom() =~= self.scene@.dom());
        }
        self.scene.len()
    }

    pub fn is_empty(&self) -> (b: bool)
        ensures
            b == (self@.scene.dom() =~= Set::<u64>::empty()),
    {
        proof {
            assert(self@.scene.dom() =~= self.scene@.dom());
        }
        self.scene.is_empty()
    }

    /// The ids of the cached entities, in ascending order.
    pub fn entity_ids(&self) -> (r: Vec<EntityId>)
        ensures
            r@ == ascending(self@.scene.dom()).map_values(|k: u64| EntityId(k)),
    {
        proof {
            assert(self@.scene.dom() =~= self.scene@.dom());
        }
        let ids = self.scene.keys();
        let ghost all = ids@.map_values(|k: u64| EntityId(k));
        let mut r: Vec<EntityId> = Vec::new();
        let mut i: usize = 0;
        while i < ids.len()
            invariant
                i <= ids@.len(),
                all == ids@.map_values(|k: u64| EntityId(k)),
                r@ == all.take(i as int),
            decreases ids@.len() - i,
        {
            r.push(EntityId(ids[i]));
            i = i + 1;
            proof {
                assert(all.take(i as int) =~= all.take(i - 1).push(all[i - 1]));
            }
        }
        proof {
            assert(all.take(i as int) =~= all);
        }
        r
    }

    /// The cached entities, in ascending order of their ids.
    pub fn entities(&self) -> (r: Vec<&RenderEntity>)
        ensures
            r@.len() == ascending(self@.scene.dom()).len(),
            forall|i: int|
                0 <= i < r@.len() ==> (#[trigger] r@[i])@ == self@.scene[ascending(
                    self@.scene.dom(),
                )[i]],
    {
        proof {
            assert(self@.scene.dom() =~= self.scene@.dom());
        }
        let ids = self.scene.keys();
        let mut r: Vec<&RenderEntity> = Vec::new();
        let mut i: usize = 0;
        while i < ids.len()
            invariant
                i <= ids@.len(),
                lists(ids@, self.scene@.dom()),
                r@.len() == i,
                forall|j: int| 0 <= j < i ==> (#[trigger] r@[j])@ == self@.scene[ids@[j]],
            decreases ids@.len() - i,
        {
            proof {
                assert(ids@.contains(ids@[i as int]));
                assert(self.scene@.dom().contains(ids@[i as int]));
            }
            if let Some(e) = self.scene.get(ids[i]) {
                r.push(e);
            }
            i = i + 1;
        }
        r
    }

    /// How many cached entities have their geometry.
    pub fn hydrated_count(&self) -> (n: usize)
        ensures
            n == ascending(self@.scene.dom()).filter(
                |k: u64| self@.scene[k].hydrated is Some,
            ).len(),
    {
        let all = self.entities();
        let ghost ids = ascending(self@.scene.dom());
        let ghost f = |k: u64| self@.scene[k].hydrated is Some;
        let mut n: usize = 0;
        let mut i: usize = 0;
        while i < all.len()
            invariant
                i <= all@.len(),
                all@.len() == ids.len(),
                n <= i,
                f == (|k: u64| self@.scene[k].hydrated is Some),
                forall|j: int|
                    0 <= j < all@.len() ==> (#[trigger] all@[j])@ == self@.scene[ids[j]],
                n == ids.take(i as int).filter(f).len(),
            decreases all@.len() - i,
        {
            proof {
                reveal(Seq::filter);
                assert(ids.take(i + 1).drop_last() =~= ids.take(i as int));
                assert(all@[i as int]@ == self@.scene[ids[i as int]]);
            }
            if all[i].hydrated.is_some() {
                n = n + 1;
            }
            i = i + 1;
        }
        proof {
            assert(ids.take(i as int) =~= ids);
        }
        n
    }

    /// Throws the cache away, and forgets the protocol, the revision and the
    /// checkpoint, so that a bridge that connects again starts anew.
    pub fn disconnect(&mut self)
        ensures
            final(self)@ == (SceneView {
                scene: Map::empty(),
                protocol: None,
                scene_revision: 0,
                last_seq: 0,
                in_snapshot: false,
                ..old(self)@
            }),
    {
        broadcast use group_models;

        self.scene = IdMap::new();
        self.protocol = None;
        self.scene_revision = 0;
        self.last_seq = 0;
        self.in_snapshot = false;
    }
}

// ---------------------------------------------------------------------------
// What holds between a server and a bridge.

/// The state that an upsert leaves in a fresh cache.
pub open spec fn fresh_entity(e: EntityStateView) -> RenderView {
    RenderView { state: e, overlay_hint: None, hydrated: None }
}

pub proof fn lemma_applied_concat(v: SceneView, a: Seq<MsgView>, b: Seq<MsgView>)
    ensures
        all_applied(v, a + b) == all_applied(all_applied(v, a), b),
    decreases b.len(),
{
    if b.len() == 0 {
        assert(a + b =~= a);
    } else {
        lemma_applied_concat(v, a, b.drop_last());
        assert((a + b).drop_last() =~= a + b.drop_last());
        assert((a + b).last() == b.last());
    }
}

pub proof fn lemma_one_applied(v: SceneView, m: MsgView)
    ensures
        all_applied(v, seq![m]) == applied(v, m),
{
    assert(seq![m].drop_last() =~= Seq::<MsgView>::empty());
    assert(all_applied(v, Seq::<MsgView>::empty()) == v);
}

/// What upserts do: each listed entity of the index is in the cache with its
/// state, and the others are as they were.
pub proof fn lemma_upserts(
    v: SceneView,
    ids: Seq<EntityId>,
    lsg: LsgView,
    rsg: RsgView,
    overlay: OverlayView,
)
    ensures
        ({
            let w = all_applied(v, upserts_of(ids, lsg, rsg, overlay));
            &&& w == (SceneView { scene: w.scene, ..v })
            &&& forall|k: u64| #[trigger]
                w.scene.contains_key(k) <==> v.scene.contains_key(k) || (ids.contains(EntityId(k))
                    && lsg.has(EntityId(k)))
            &&& forall|k: u64| #[trigger]
                w.scene.contains_key(k) ==> if ids.contains(EntityId(k)) && lsg.has(EntityId(k)) {
                    &&& w.scene[k].state == state_of(EntityId(k), lsg, rsg, overlay)
                    &&& w.scene[k].overlay_hint is None
                    &&& !v.scene.contains_key(k) ==> w.scene[k].hydrated is None
                } else {
                    w.scene[k] == v.scene[k]
                }
        }),
    decreases ids.len(),
{
    let msgs = upserts_of(ids, lsg, rsg, overlay);
    if ids.len() > 0 {
        let init = ids.drop_last();
        let last = ids.last();
        lemma_upserts(v, init, lsg, rsg, overlay);
        let m0 = upserts_of(init, lsg, rsg, overlay);
        let w0 = all_applied(v, m0);
        let w = all_applied(v, msgs);
        if lsg.has(last) {
            assert(msgs.drop_last() =~= m0);
            assert(w == applied(w0, MsgView::UpsertEntity(state_of(last, lsg, rsg, overlay))));
        }
        assert forall|k: u64| ids.contains(EntityId(k)) <==> init.contains(EntityId(k))
            || EntityId(k) == last by {
            if init.contains(EntityId(k)) {
                let i = choose|i: int| 0 <= i < init.len() && init[i] == EntityId(k);
                assert(ids[i] == EntityId(k));
            }
            if ids.contains(EntityId(k)) {
                let i = choose|i: int| 0 <= i < ids.len() && ids[i] == EntityId(k);
                if i < init.len() {
                    assert(init[i] == EntityId(k));
                }
            }
            assert(ids[ids.len() - 1] == last);
        }
        assert forall|k: u64| #[trigger] w.scene.contains_key(k) <==> v.scene.contains_key(k) || (
        ids.contains(EntityId(k)) && lsg.has(EntityId(k))) by {
            assert(w0.scene.contains_key(k) <==> v.scene.contains_key(k) || (init.contains(
                EntityId(k),
            ) && lsg.has(EntityId(k))));
        }
        assert forall|k: u64| #[trigger] w.scene.contains_key(k) implies if ids.contains(
            EntityId(k),
        ) && lsg.has(EntityId(k)) {
            &&& w.scene[k].state == state_of(EntityId(k), lsg, rsg, overlay)
            &&& w.scene[k].overlay_hint is None
            &&& !v.scene.contains_key(k) ==> w.scene[k].hydrated is None
        } else {
            w.scene[k] == v.scene[k]
        } by {
            if !(lsg.has(last) && EntityId(k) == last) {
                assert(w0.scene.contains_key(k));
            } else if w0.scene.contains_key(k) {
                assert(!v.scene.contains_key(k) ==> w0.scene[k].hydrated is None);
            }
        }
    }
}

proof fn lemma_removes(v: SceneView, ids: Seq<EntityId>)
    ensures
        ({
            let w = all_applied(v, removes_of(ids));
            &&& w == (SceneView { scene: w.scene, ..v })
            &&& forall|k: u64| #[trigger]
                w.scene.contains_key(k) <==> v.scene.contains_key(k) && !ids.contains(EntityId(k))
            &&& forall|k: u64| #[trigger]
                w.scene.contains_key(k) ==> w.scene[k] == v.scene[k]
        }),
    decreases ids.len(),
{
    if ids.len() > 0 {
        let init = ids.drop_last();
        lemma_removes(v, init);
        let msgs = removes_of(ids);
        assert(msgs.drop_last() =~= removes_of(init));
        assert(msgs.last() == MsgView::RemoveEntity { id: ids.last() });
        let w0 = all_applied(v, removes_of(init));
        let w = all_applied(v, msgs);
        assert forall|k: u64| #[trigger] w.scene.contains_key(k) <==> v.scene.contains_key(k)
            && !ids.contains(EntityId(k)) by {
            assert(w0.scene.contains_key(k) <==> v.scene.contains_key(k) && !init.contains(
                EntityId(k),
            ));
            if init.contains(EntityId(k)) {
                let i = choose|i: int| 0 <= i < init.len() && init[i] == EntityId(k);
                assert(ids[i] == EntityId(k));
            }
            if ids.contains(EntityId(k)) {
                let i = choose|i: int| 0 <= i < ids.len() && ids[i] == EntityId(k);
                if i < init.len() {
                    assert(init[i] == EntityId(k));
                }
            }
            assert(ids[ids.len() - 1] == ids.last());
        }
        assert forall|k: u64| #[trigger] w.scene.contains_key(k) implies w.scene[k]
            == v.scene[k] by {
            assert(w0.scene.contains_key(k));
        }
    }
}

/// What a bridge holds after a snapshot: the active entities of the index with
/// their states, and nothing else, whatever it held before.
pub open spec fn rebuilt(
    sub: SubscriptionId,
    lsg: LsgView,
    rsg: RsgView,
    overlay: OverlayView,
) -> Map<u64, RenderView> {
    Map::new(
        |k: u64| active_for(rsg, sub).contains(EntityId(k)) && lsg.has(EntityId(k)),
        |k: u64| fresh_entity(state_of(EntityId(k), lsg, rsg, overlay)),
    )
}

/// A snapshot rebuilds the cache from the server's scene alone: what the bridge
/// held before plays no part, so that a bridge that connects again ends up where
/// one that never left is.
pub proof fn law_snapshot_rebuilds_the_scene(
    v: SceneView,
    sub: SubscriptionId,
    lsg: LsgView,
    rsg: RsgView,
    overlay: OverlayView,
    seq: u64,
)
    ensures
        all_applied(v, snapshot_of(sub, lsg, rsg, overlay, seq)) == (SceneView {
            scene: rebuilt(sub, lsg, rsg, overlay),
            scene_revision: lsg.revision,
            last_seq: seq,
            in_snapshot: false,
            ..v
        }),
{
    let begin = MsgView::SnapshotBegin { subscription: sub, scene_revision: lsg.revision };
    let marker = MsgView::SnapshotMarker { scene_revision: lsg.revision, seq };
    let ids = active_for(rsg, sub);
    let body = upserts_of(ids, lsg, rsg, overlay);
    let v1 = applied(v, begin);
    lemma_one_applied(v, begin);
    lemma_applied_concat(v, seq![begin], body);
    lemma_upserts(v1, ids, lsg, rsg, overlay);
    let v2 = all_applied(v1, body);
    lemma_applied_concat(v, seq![begin] + body, seq![marker]);
    lemma_one_applied(v2, marker);
    let want = rebuilt(sub, lsg, rsg, overlay);
    assert forall|k: u64| #[trigger] v2.scene.contains_key(k) implies v2.scene[k]
        == want[k] by {
        assert(v2.scene[k].state == state_of(EntityId(k), lsg, rsg, overlay));
    }
    assert(v2.scene =~= want);
}

/// The messages of a diff take the cache along: what was in it or is upserted, and
/// is not removed, is in it; upserted entities have their state, and the others
/// are as they were.
pub proof fn law_diff_takes_the_scene_along(
    v: SceneView,
    diff: DiffView,
    lsg: LsgView,
    rsg: RsgView,
    overlay: OverlayView,
)
    ensures
        ({
            let w = all_applied(v, diff_messages(diff, lsg, rsg, overlay));
            &&& forall|k: u64| #[trigger]
                w.scene.contains_key(k) <==> (v.scene.contains_key(k) || (diff.upserts.contains(
                    EntityId(k),
                ) && lsg.has(EntityId(k)))) && !diff.removes.contains(EntityId(k))
            &&& forall|k: u64| #[trigger]
                w.scene.contains_key(k) ==> if diff.upserts.contains(EntityId(k)) && lsg.has(
                    EntityId(k),
                ) {
                    w.scene[k].state == state_of(EntityId(k), lsg, rsg, overlay)
                } else {
                    w.scene[k] == v.scene[k]
                }
        }),
{
    let a = upserts_of(diff.upserts, lsg, rsg, overlay);
    let b = removes_of(diff.removes);
    lemma_applied_concat(v, a, b);
    lemma_upserts(v, diff.upserts, lsg, rsg, overlay);
    let v1 = all_applied(v, a);
    lemma_removes(v1, diff.removes);
    let w = all_applied(v, diff_messages(diff, lsg, rsg, overlay));
    assert forall|k: u64| #[trigger] w.scene.contains_key(k) <==> (v.scene.contains_key(k) || (
    diff.upserts.contains(EntityId(k)) && lsg.has(EntityId(k)))) && !diff.removes.contains(
        EntityId(k),
    ) by {
        assert(v1.scene.contains_key(k) <==> v.scene.contains_key(k) || (diff.upserts.contains(
            EntityId(k),
        ) && lsg.has(EntityId(k))));
    }
    assert forall|k: u64| #[trigger] w.scene.contains_key(k) implies if diff.upserts.contains(
        EntityId(k),
    ) && lsg.has(EntityId(k)) {
        w.scene[k].state == state_of(EntityId(k), lsg, rsg, overlay)
    } else {
        w.scene[k] == v.scene[k]
    } by {
        assert(v1.scene.contains_key(k));
    }
}

/// A snapshot and the diffs since come to the same scene as a fresh snapshot: the
/// same entities in the same states. Between the two snapshots the active set
/// changed by the diff, and the states of the other entities did not change.
pub proof fn law_diffs_come_to_the_snapshot(
    v: SceneView,
    sub: SubscriptionId,
    lsg: LsgView,
    before: RsgView,
    after: RsgView,
    overlay: OverlayView,
    diff: DiffView,
    first: u64,
    second: u64,
)
    requires
        forall|id: EntityId| #[trigger]
            active_for(after, sub).contains(id) <==> (active_for(before, sub).contains(id)
                || diff.upserts.contains(id)) && !diff.removes.contains(id),
        forall|id: EntityId|
            active_for(before, sub).contains(id) && !diff.upserts.contains(id) ==> #[trigger]
            state_of(id, lsg, after, overlay) == state_of(id, lsg, before, overlay),
    ensures
        ({
            let with_diffs = all_applied(
                all_applied(v, snapshot_of(sub, lsg, before, overlay, first)),
                diff_messages(diff, lsg, after, overlay),
            ).scene;
            let fresh = all_applied(v, snapshot_of(sub, lsg, after, overlay, second)).scene;
            &&& with_diffs.dom() == fresh.dom()
            &&& forall|k: u64| #[trigger]
                with_diffs.contains_key(k) ==> with_diffs[k].state == fresh[k].state
        }),
{
    law_snapshot_rebuilds_the_scene(v, sub, lsg, before, overlay, first);
    law_snapshot_rebuilds_the_scene(v, sub, lsg, after, overlay, second);
    let v1 = all_applied(v, snapshot_of(sub, lsg, before, overlay, first));
    law_diff_takes_the_scene_along(v1, diff, lsg, after, overlay);
    let with_diffs = all_applied(v1, diff_messages(diff, lsg, after, overlay)).scene;
    let fresh = all_applied(v, snapshot_of(sub, lsg, after, overlay, second)).scene;
    assert forall|k: u64| with_diffs.dom().contains(k) <==> fresh.dom().contains(k) by {
        assert(with_diffs.contains_key(k) <==> (v1.scene.contains_key(k)
            || (diff.upserts.contains(EntityId(k)) && lsg.has(EntityId(k))))
            && !diff.removes.contains(EntityId(k)));
        assert(active_for(after, sub).contains(EntityId(k)) <==> (active_for(before, sub).contains(
            EntityId(k),
        ) || diff.upserts.contains(EntityId(k))) && !diff.removes.contains(EntityId(k)));
    }
    assert(with_diffs.dom() =~= fresh.dom());
    assert forall|k: u64| #[trigger] with_diffs.contains_key(k) implies with_diffs[k].state
        == fresh[k].state by {
        assert(fresh.dom().contains(k));
        if !(diff.upserts.contains(EntityId(k)) && lsg.has(EntityId(k))) {
            assert(with_diffs[k] == v1.scene[k]);
            assert(v1.scene.contains_key(k));
            assert(state_of(EntityId(k), lsg, after, overlay) == state_of(
                EntityId(k),
                lsg,
                before,
                overlay,
            ));
        }
    }
}

/// A bridge that left and came back holds what one that stayed holds.
pub proof fn law_reconnect_resyncs(
    left: SceneView,
    stayed: SceneView,
    sub: SubscriptionId,
    lsg: LsgView,
    rsg: RsgView,
    overlay: OverlayView,
    seq: u64,
)
    ensures
        all_applied(left, snapshot_of(sub, lsg, rsg, overlay, seq)).scene == all_applied(
            stayed,
            snapshot_of(sub, lsg, rsg, overlay, seq),
        ).scene,
{
    law_snapshot_rebuilds_the_scene(left, sub, lsg, rsg, overlay, seq);
    law_snapshot_rebuilds_the_scene(stayed, sub, lsg, rsg, overlay, seq);
}

/// A message changes the entity that it names and no other: an upsert makes or replaces
/// it, a removal drops it, and the others change one part of an entity that is there
/// and nothing of one that is not.
pub proof fn law_messages_change_what_they_name(v: SceneView, m: MsgView, k: u64)
    ensures
        ({
            let w = applied(v, m);
            let there = v.scene.contains_key(k);
            let old_e = v.scene[k];
            let e = w.scene[k];
            match m {
                MsgView::UpsertEntity(s) => {
                    &&& k == s.id.0 ==> w.scene.contains_key(k) && e.state == s
                        && e.overlay_hint is None
                    &&& k == s.id.0 && there && old_e.state.geom_ref == s.geom_ref ==> e.hydrated
                        == old_e.hydrated
                    &&& k == s.id.0 && !(there && old_e.state.geom_ref == s.geom_ref)
                        ==> e.hydrated is None
                    &&& k != s.id.0 ==> w.scene.contains_key(k) == there && e == old_e
                },
                MsgView::RemoveEntity { id } => w.scene.contains_key(k) <==> there && k != id.0,
                MsgView::SetTransform { id, transform } => {
                    &&& w.scene.contains_key(k) == there
                    &&& there && k == id.0 ==> e.state.transform == transform && e == (RenderView {
                        state: EntityStateView { transform, ..old_e.state },
                        ..old_e
                    })
                    &&& k != id.0 ==> e == old_e
                },
                MsgView::PinConfirm { id, transform, revision } => {
                    &&& w.scene.contains_key(k) == there
                    &&& there && k == id.0 ==> e.state.transform == transform && e == (RenderView {
                        state: EntityStateView { transform, ..old_e.state },
                        ..old_e
                    })
                    &&& k != id.0 ==> e == old_e
                },
                MsgView::SetVisualState { id, visual } => {
                    &&& w.scene.contains_key(k) == there
                    &&& there && k == id.0 ==> e.state.visual == visual && e == (RenderView {
                        state: EntityStateView { visual, ..old_e.state },
                        ..old_e
                    })
                    &&& k != id.0 ==> e == old_e
                },
                MsgView::SetOverlayHint { id, hint } => {
                    &&& w.scene.contains_key(k) == there
                    &&& there && k == id.0 ==> e.overlay_hint == Some(hint) && e.state
                        == old_e.state && e.hydrated == old_e.hydrated
                    &&& k != id.0 ==> e == old_e
                },
                MsgView::SetGeomRef { id, geom_ref } => {
                    &&& w.scene.contains_key(k) == there
                    &&& there && k == id.0 ==> e.state.geom_ref == Some(geom_ref)
                        && e.overlay_hint == old_e.overlay_hint
                    &&& there && k == id.0 && old_e.state.geom_ref == Some(geom_ref) ==> e.hydrated
                        == old_e.hydrated
                    &&& there && k == id.0 && old_e.state.geom_ref != Some(geom_ref)
                        ==> e.hydrated is None
                    &&& k != id.0 ==> e == old_e
                },
                MsgView::SnapshotBegin { subscription, scene_revision } => {
                    &&& !w.scene.contains_key(k)
                    &&& w.scene_revision == scene_revision && w.in_snapshot
                },
                MsgView::SnapshotMarker { scene_revision, seq } => {
                    &&& w.scene == v.scene
                    &&& w.scene_revision == scene_revision && w.last_seq == seq && !w.in_snapshot
                },
                MsgView::Hello { protocol, scene_revision } => {
                    &&& w.scene == v.scene
                    &&& w.protocol == Some(protocol) && w.scene_revision == scene_revision
                },
                MsgView::PickResult { request_id, hit } => w.scene == v.scene && w.last_pick == hit,
            }
        }),
{
}

/// The number of entities that need geometry is that of the listed ones that refer to
/// some and have none.
pub proof fn law_missing_geometry_is_counted(v: SceneView, ids: Seq<u64>)
    ensures
        needing(v, ids) == ids.filter(
            |k: u64| v.scene[k].hydrated is None && v.scene[k].state.geom_ref is Some,
        ).len(),
    decreases ids.len(),
{
    reveal(Seq::filter);
    if ids.len() > 0 {
        law_missing_geometry_is_counted(v, ids.drop_last());
    }
}

/// How often a payload is referred to; never where it is not loaded.
pub open spec fn references(c: crate::hydrate::CacheView, key: Seq<char>) -> nat {
    if c.refs.contains_key(key) {
        c.refs[key]
    } else {
        0
    }
}

/// Loading geometry refers to a payload once more for each of the listed entities that
/// refers to it and has none, and counts each of them.
pub proof fn law_loading_refers_to_payloads(
    c: crate::hydrate::CacheView,
    v: SceneView,
    ids: Seq<u64>,
    key: Seq<char>,
)
    ensures
        references(cache_after(c, v, ids), key) == references(c, key) + ids.filter(
            |k: u64|
                v.scene[k].hydrated is None && (v.scene[k].state.geom_ref matches Some(g) && key_of(
                    g,
                ) == key),
        ).len(),
        cache_after(c, v, ids).acquisitions == c.acquisitions + needing(v, ids),
    decreases ids.len(),
{
    reveal(Seq::filter);
    if ids.len() > 0 {
        law_loading_refers_to_payloads(c, v, ids.drop_last(), key);
    }
}

} // verus!
