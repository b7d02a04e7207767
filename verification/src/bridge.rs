//! Renderer bridge (`vf.bridge.v1`): the engine-neutral seam between the scene
//! graph and any rendering backend.
//!
//! A [`BridgeServer`] encodes the active scene as a snapshot and a stream of
//! diffs, and answers what a bridge asks for. A bridge holds a cache of the
//! logical world: identity, topology and pins are decided here. Transforms are
//! those of the pin, or else the authored ones.

use crate::interest::{Region, SubscriptionId};
use crate::lsg::{
    copy_geom, copy_texts, Aabb, Entity, EntityId, EntityView, GeomRef, GeomRefView, Lsg, LsgView,
    Transform,
};
use crate::model::{group_models, opt_view, views};
use crate::order::{
    before, in_order, lemma_in_order, lemma_order, lemma_set_in_order, lists_texts,
    sort_distinct_texts,
};
use crate::overlay::{OverlayView, PinView, TwinOverlay};
use crate::resolver::{Quality, TelemetryValue};
use crate::rsg::{DiffView, Rsg, RsgDiff, RsgView, RuntimeEntity};
use crate::scalar::Double;
use crate::table::{ascending, lemma_ascending, lists, rises};
use vstd::prelude::*;
use vstd::string::*;

verus! {

/// The protocol version spoken here.
pub const PROTOCOL_VERSION: &'static str = "vf.bridge.v1";

/// Agrees on a protocol version: the one spoken here where it is offered.
pub fn negotiate(offered: &[String]) -> (r: Option<&'static str>)
    ensures
        match r {
            Some(v) => v@ == "vf.bridge.v1"@ && views(offered@).contains("vf.bridge.v1"@),
            None => !views(offered@).contains("vf.bridge.v1"@),
        },
{
    if crate::dict::contains_text(offered, "vf.bridge.v1") {
        Some("vf.bridge.v1")
    } else {
        None
    }
}

/// A resolved sample, forwarded as visual state.
#[derive(Debug, PartialEq)]
pub struct VisualSample {
    pub attribute: String,
    pub value: Double,
    /// `ok`, `stale`, `unavailable` or `error`.
    pub quality: String,
}

pub struct VisualView {
    pub attribute: Seq<char>,
    pub value: Double,
    pub quality: Seq<char>,
}

impl View for VisualSample {
    type V = VisualView;

    open spec fn view(&self) -> VisualView {
        VisualView { attribute: self.attribute@, value: self.value, quality: self.quality@ }
    }
}

impl Clone for VisualSample {
    fn clone(&self) -> (r: Self)
        ensures
            r@ == self@,
    {
        VisualSample {
            attribute: self.attribute.clone(),
            value: self.value,
            quality: self.quality.clone(),
        }
    }
}

/// A copy of visual samples.
pub fn copy_visual(list: &Vec<VisualSample>) -> (r: Vec<VisualSample>)
    ensures
        views(r@) == views(list@),
{
    broadcast use group_models;

    let mut r: Vec<VisualSample> = Vec::new();
    let mut i: usize = 0;
    while i < list.len()
        invariant
            i <= list@.len(),
            views(r@) == views(list@).take(i as int),
        decreases list@.len() - i,
    {
        r.push(list[i].clone());
        i = i + 1;
        proof {
            assert(views(list@).take(i as int) =~= views(list@).take(i - 1).push(list@[i - 1]@));
        }
    }
    proof {
        assert(views(list@).take(i as int) =~= views(list@));
    }
    r
}

/// The whole state of an entity, as a bridge caches it.
pub struct EntityStateView {
    pub id: EntityId,
    pub prim_path: Seq<char>,
    pub transform: Transform,
    pub extents: Option<Aabb>,
    pub geom_ref: Option<GeomRefView>,
    pub tags: Seq<Seq<char>>,
    pub visual: Seq<VisualView>,
}

/// What the server tells a bridge.
#[derive(Debug, PartialEq)]
pub enum BridgeMsg {
    /// Once on connect: the agreed protocol and the current revision.
    Hello { protocol: String, scene_revision: u64 },
    /// Opens a snapshot; the bridge clears its cache and rebuilds it from the
    /// upserts that follow.
    SnapshotBegin { subscription: SubscriptionId, scene_revision: u64 },
    /// Makes or replaces an entity. The extents are the authored box relative to
    /// the origin of the authored transform; none where nothing is authored.
    UpsertEntity {
        id: EntityId,
        prim_path: String,
        transform: Transform,
        extents: Option<Aabb>,
        geom_ref: Option<GeomRef>,
        tags: Vec<String>,
        visual: Vec<VisualSample>,
    },
    /// Drops an entity.
    RemoveEntity { id: EntityId },
    SetTransform { id: EntityId, transform: Transform },
    SetGeomRef { id: EntityId, geom_ref: GeomRef },
    SetVisualState { id: EntityId, visual: Vec<VisualSample> },
    SetOverlayHint { id: EntityId, hint: String },
    /// Closes a snapshot. `seq` rises within one server.
    SnapshotMarker { scene_revision: u64, seq: u64 },
    /// Answers a pin or its removal with the transform in force.
    PinConfirm { id: EntityId, transform: Transform, revision: u64 },
    /// Answers a pick.
    PickResult { request_id: u64, hit: Option<EntityId> },
}

pub enum MsgView {
    Hello { protocol: Seq<char>, scene_revision: u64 },
    SnapshotBegin { subscription: SubscriptionId, scene_revision: u64 },
    UpsertEntity(EntityStateView),
    RemoveEntity { id: EntityId },
    SetTransform { id: EntityId, transform: Transform },
    SetGeomRef { id: EntityId, geom_ref: GeomRefView },
    SetVisualState { id: EntityId, visual: Seq<VisualView> },
    SetOverlayHint { id: EntityId, hint: Seq<char> },
    SnapshotMarker { scene_revision: u64, seq: u64 },
    PinConfirm { id: EntityId, transform: Transform, revision: u64 },
    PickResult { request_id: u64, hit: Option<EntityId> },
}

impl View for BridgeMsg {
    type V = MsgView;

    open spec fn view(&self) -> MsgView {
        match self {
            BridgeMsg::Hello { protocol, scene_revision } => MsgView::Hello {
                protocol: protocol@,
                scene_revision: *scene_revision,
            },
            BridgeMsg::SnapshotBegin { subscription, scene_revision } => MsgView::SnapshotBegin {
                subscription: *subscription,
                scene_revision: *scene_revision,
            },
            BridgeMsg::UpsertEntity {
                id,
                prim_path,
                transform,
                extents,
                geom_ref,
                tags,
                visual,
            } => MsgView::UpsertEntity(
                EntityStateView {
                    id: *id,
                    prim_path: prim_path@,
                    transform: *transform,
                    extents: *extents,
                    geom_ref: opt_view(*geom_ref),
                    tags: views(tags@),
                    visual: views(visual@),
                },
            ),
            BridgeMsg::RemoveEntity { id } => MsgView::RemoveEntity { id: *id },
            BridgeMsg::SetTransform { id, transform } => MsgView::SetTransform {
                id: *id,
                transform: *transform,
            },
            BridgeMsg::SetGeomRef { id, geom_ref } => MsgView::SetGeomRef {
                id: *id,
                geom_ref: geom_ref@,
            },
            BridgeMsg::SetVisualState { id, visual } => MsgView::SetVisualState {
                id: *id,
                visual: views(visual@),
            },
            BridgeMsg::SetOverlayHint { id, hint } => MsgView::SetOverlayHint {
                id: *id,
                hint: hint@,
            },
            BridgeMsg::SnapshotMarker { scene_revision, seq } => MsgView::SnapshotMarker {
                scene_revision: *scene_revision,
                seq: *seq,
            },
            BridgeMsg::PinConfirm { id, transform, revision } => MsgView::PinConfirm {
                id: *id,
                transform: *transform,
                revision: *revision,
            },
            BridgeMsg::PickResult { request_id, hit } => MsgView::PickResult {
                request_id: *request_id,
                hit: *hit,
            },
        }
    }
}

/// An area as a bridge sends it.
#[derive(Debug, Clone, Copy, PartialEq)]
pub enum RegionWire {
    Sphere { center: [Double; 3], radius: Double },
    Aabb { min: [Double; 3], max: [Double; 3] },
}

impl RegionWire {
    /// The area of interest that it stands for.
    pub fn to_region(&self) -> (r: Region)
        ensures
            r == (match *self {
                RegionWire::Sphere { center, radius } => Region::Sphere { center, radius },
                RegionWire::Aabb { min, max } => Region::Aabb { min, max },
            }),
    {
        match *self {
            RegionWire::Sphere { center, radius } => Region::Sphere { center, radius },
            RegionWire::Aabb { min, max } => Region::Aabb { min, max },
        }
    }
}

/// What a bridge asks the server for.
#[derive(Debug, PartialEq)]
pub enum BridgeRequest {
    /// The versions that the bridge can speak.
    Connect { protocol_versions: Vec<String> },
    /// The camera moved, or the area changed.
    UpdateAoi { subscription: SubscriptionId, region: RegionWire },
    /// A coarse pick along a ray.
    PickRequest { request_id: u64, origin: [Double; 3], dir: [Double; 3] },
    /// Commits a transform.
    PinPart { id: EntityId, transform: Transform },
    /// Removes a pin.
    UnpinPart { id: EntityId },
    /// Entities to keep active whatever the area.
    SubscribeExtras { subscription: SubscriptionId, entity_ids: Vec<EntityId> },
    /// A sign of life, with a budget.
    Heartbeat { subscription: SubscriptionId, budget: usize },
    /// Asks for the mesh of a content hash.
    FetchGeom { content_hash: String },
}

// ---------------------------------------------------------------------------
// State of an entity.

/// All six bounds are zero.
pub open spec fn degenerate(a: Aabb) -> bool {
    forall|i: int|
        0 <= i < 3 ==> (#[trigger] a.min@[i]).same(Double::zero_spec()) && a.max@[i].same(
            Double::zero_spec(),
        )
}

fn is_degenerate(a: &Aabb) -> (b: bool)
    ensures
        b == degenerate(*a),
{
    let b = a.min[0].is_zero() && a.min[1].is_zero() && a.min[2].is_zero() && a.max[0].is_zero()
        && a.max[1].is_zero() && a.max[2].is_zero();
    proof {
        if degenerate(*a) {
            assert(a.min@[0].same(Double::zero_spec()));
            assert(a.min@[1].same(Double::zero_spec()));
            assert(a.min@[2].same(Double::zero_spec()));
        }
        if b {
            assert forall|i: int| 0 <= i < 3 implies (#[trigger] a.min@[i]).same(
                Double::zero_spec(),
            ) && a.max@[i].same(Double::zero_spec()) by {
                assert(i == 0 || i == 1 || i == 2);
            }
        }
    }
    b
}

/// The box that a bridge anchors at the transform: none where the authored one
/// is all zero.
pub open spec fn proxy_box(e: EntityView) -> Option<Aabb> {
    if degenerate(e.extents) {
        None
    } else {
        Some(e.local_extents)
    }
}

/// The box that a bridge anchors at the transform, so that a pin moves it.
pub fn extents_relative_to_authored(entity: &Entity) -> (r: Option<Aabb>)
    ensures
        r == proxy_box(entity@),
{
    if is_degenerate(&entity.extents) {
        None
    } else {
        Some(entity.local_extents)
    }
}

pub open spec fn sample_view(attribute: Seq<char>, v: TelemetryValue) -> VisualView {
    VisualView { attribute, value: v.value, quality: v.quality.name() }
}

/// The telemetry of a page as visual samples, in the order of the attributes.
pub open spec fn visual_of(telemetry: Map<Seq<char>, TelemetryValue>) -> Seq<VisualView> {
    in_order(telemetry.dom()).map_values(|a: Seq<char>| sample_view(a, telemetry[a]))
}

/// Gathers the telemetry of a page.
pub fn collect_visual(re: &RuntimeEntity) -> (r: Vec<VisualSample>)
    ensures
        views(r@) == visual_of(re@.telemetry),
{
    broadcast use group_models;

    let ghost t = re@.telemetry;
    let keys = re.telemetry.keys();
    let names = sort_distinct_texts(&keys);
    proof {
        assert forall|k: Seq<char>| #[trigger] views(keys@).contains(k) <==> t.dom().contains(k) by {
            assert(t.contains_key(k) <==> views(keys@).contains(k));
        }
        lemma_in_order(views(keys@), t.dom());
    }
    let ghost all = visual_of(t);
    let mut r: Vec<VisualSample> = Vec::new();
    let mut i: usize = 0;
    proof {
        assert(views(r@) =~= all.take(0));
    }
    while i < names.len()
        invariant
            i <= names@.len(),
            t == re@.telemetry,
            all == visual_of(t),
            views(names@) == in_order(t.dom()),
            lists_texts(views(names@), t.dom()),
            views(r@) == all.take(i as int),
        decreases names@.len() - i,
    {
        proof {
            assert(views(names@)[i as int] == names@[i as int]@);
            assert(views(names@).contains(names@[i as int]@));
            assert(t.dom().contains(names@[i as int]@));
        }
        if let Some(v) = re.telemetry.get(names[i].as_str()) {
            r.push(
                VisualSample {
                    attribute: names[i].clone(),
                    value: v.value,
                    quality: v.quality.as_str().to_owned(),
                },
            );
        }
        i = i + 1;
        proof {
            assert(all.take(i as int) =~= all.take(i - 1).push(all[i - 1]));
        }
    }
    proof {
        assert(all.take(i as int) =~= all);
    }
    r
}

/// The state of an entity of the index: what is authored, the pin over it, and
/// the telemetry of its page.
pub open spec fn state_of(
    id: EntityId,
    lsg: LsgView,
    rsg: RsgView,
    overlay: OverlayView,
) -> EntityStateView {
    let e = lsg.entities[id.0];
    EntityStateView {
        id,
        prim_path: e.prim_path,
        transform: overlay.resolved(e),
        extents: proxy_box(e),
        geom_ref: e.geom_ref,
        tags: e.tags,
        visual: if rsg.has(id) {
            visual_of(rsg.pages[id.0].telemetry)
        } else {
            Seq::empty()
        },
    }
}

/// The upserts of the listed entities that the index has.
pub open spec fn upserts_of(
    ids: Seq<EntityId>,
    lsg: LsgView,
    rsg: RsgView,
    overlay: OverlayView,
) -> Seq<MsgView>
    decreases ids.len(),
{
    if ids.len() == 0 {
        Seq::empty()
    } else {
        let init = upserts_of(ids.drop_last(), lsg, rsg, overlay);
        if lsg.has(ids.last()) {
            init.push(MsgView::UpsertEntity(state_of(ids.last(), lsg, rsg, overlay)))
        } else {
            init
        }
    }
}

/// The entities that are active for a subscription, in ascending order.
pub open spec fn active_for(rsg: RsgView, sub: SubscriptionId) -> Seq<EntityId> {
    ascending(rsg.pages.dom()).filter(|k: u64| rsg.pages[k].subscribers.contains(sub)).map_values(
        |k: u64| EntityId(k),
    )
}

/// A snapshot for a subscription.
pub open spec fn snapshot_of(
    sub: SubscriptionId,
    lsg: LsgView,
    rsg: RsgView,
    overlay: OverlayView,
    seq: u64,
) -> Seq<MsgView> {
    seq![MsgView::SnapshotBegin { subscription: sub, scene_revision: lsg.revision }]
        + upserts_of(active_for(rsg, sub), lsg, rsg, overlay)
        + seq![MsgView::SnapshotMarker { scene_revision: lsg.revision, seq }]
}

/// The removals of the listed entities.
pub open spec fn removes_of(ids: Seq<EntityId>) -> Seq<MsgView> {
    ids.map_values(|id: EntityId| MsgView::RemoveEntity { id })
}

/// The messages of a diff: upserts with the whole state, then removals.
pub open spec fn diff_messages(
    diff: DiffView,
    lsg: LsgView,
    rsg: RsgView,
    overlay: OverlayView,
) -> Seq<MsgView> {
    upserts_of(diff.upserts, lsg, rsg, overlay) + removes_of(diff.removes)
}

/// An entity that a ray hits, and where along the ray.
#[derive(Debug, Clone, Copy, PartialEq, Structural)]
pub struct RayHit {
    pub id: EntityId,
    pub t: Double,
}

/// The nearer of two hits; of two as near, the one with the smaller id.
pub open spec fn nearer(best: Option<RayHit>, h: RayHit) -> Option<RayHit> {
    match best {
        Some(b) if b.t.less(h.t) || (b.t.same(h.t) && b.id.0 <= h.id.0) => Some(b),
        _ => Some(h),
    }
}

/// A hit counts where its entity is active for the subscription and in the index.
pub open spec fn pickable(rsg: RsgView, lsg: LsgView, sub: SubscriptionId, h: RayHit) -> bool {
    rsg.has(h.id) && rsg.pages[h.id.0].subscribers.contains(sub) && lsg.has(h.id)
}

/// The nearest of the hits that count.
pub open spec fn picked(
    rsg: RsgView,
    lsg: LsgView,
    sub: SubscriptionId,
    hits: Seq<RayHit>,
) -> Option<RayHit>
    decreases hits.len(),
{
    if hits.len() == 0 {
        None
    } else {
        let best = picked(rsg, lsg, sub, hits.drop_last());
        if pickable(rsg, lsg, sub, hits.last()) {
            nearer(best, hits.last())
        } else {
            best
        }
    }
}

// ---------------------------------------------------------------------------
// The server.

/// The encoder of one connection. It holds only the number of its last
/// checkpoint; the scene is handed in.
#[derive(Debug)]
pub struct BridgeServer {
    seq: u64,
}

impl BridgeServer {
    /// The number of the last checkpoint.
    pub closed spec fn checkpoint(&self) -> u64 {
        self.seq
    }

    pub fn new() -> (s: Self)
        ensures
            s.checkpoint() == 0,
    {
        BridgeServer { seq: 0 }
    }

    /// What a bridge is told when it connects.
    pub fn hello(&self, lsg: &Lsg) -> (m: BridgeMsg)
        ensures
            m@ == (MsgView::Hello {
                protocol: "vf.bridge.v1"@,
                scene_revision: lsg@.revision,
            }),
    {
        BridgeMsg::Hello {
            protocol: "vf.bridge.v1".to_owned(),
            scene_revision: lsg.revision(),
        }
    }

    /// The state of an entity; `None` where the index does not have it.
    fn upsert_for(&self, id: EntityId, lsg: &Lsg, rsg: &Rsg, overlay: &TwinOverlay) -> (r: Option<
        BridgeMsg,
    >)
        requires
            lsg.wf(),
        ensures
            match r {
                Some(m) => lsg@.has(id) && m@ == MsgView::UpsertEntity(
                    state_of(id, lsg@, rsg@, overlay@),
                ),
                None => !lsg@.has(id),
            },
    {
        let entity = match lsg.get(id) {
            Some(entity) => entity,
            None => return None,
        };
        let transform = overlay.resolved_transform(entity);
        let visual = match rsg.get(id) {
            Some(re) => collect_visual(re),
            None => Vec::new(),
        };
        proof {
            if !rsg@.has(id) {
                assert(views(visual@) =~= Seq::empty());
            }
        }
        Some(
            BridgeMsg::UpsertEntity {
                id,
                prim_path: entity.prim_path.clone(),
                transform,
                extents: extents_relative_to_authored(entity),
                geom_ref: copy_geom(&entity.geom_ref),
                tags: copy_texts(&entity.tags),
                visual,
            },
        )
    }

    fn push_upserts(
        &self,
        ids: &Vec<EntityId>,
        lsg: &Lsg,
        rsg: &Rsg,
        overlay: &TwinOverlay,
        msgs: &mut Vec<BridgeMsg>,
    )
        requires
            lsg.wf(),
        ensures
            views(final(msgs)@) == views(old(msgs)@) + upserts_of(ids@, lsg@, rsg@, overlay@),
    {
        broadcast use group_models;

        let ghost m0 = views(msgs@);
        let mut i: usize = 0;
        proof {
            assert(m0 + upserts_of(ids@.take(0), lsg@, rsg@, overlay@) =~= m0);
        }
        while i < ids.len()
            invariant
                i <= ids@.len(),
                lsg.wf(),
                views(msgs@) == m0 + upserts_of(ids@.take(i as int), lsg@, rsg@, overlay@),
            decreases ids@.len() - i,
        {
            let ghost u0 = upserts_of(ids@.take(i as int), lsg@, rsg@, overlay@);
            proof {
                assert(ids@.take(i + 1).drop_last() =~= ids@.take(i as int));
                assert(ids@.take(i + 1).last() == ids@[i as int]);
            }
            if let Some(m) = self.upsert_for(ids[i], lsg, rsg, overlay) {
                proof {
                    assert((m0 + u0).push(m@) =~= m0 + u0.push(m@));
                }
                msgs.push(m);
            }
            i = i + 1;
        }
        proof {
            assert(ids@.take(i as int) =~= ids@);
        }
    }

    /// The entities that are active for a subscription, in ascending order.
    fn active_ids(&self, rsg: &Rsg, sub: SubscriptionId) -> (r: Vec<EntityId>)
        ensures
            r@ == active_for(rsg@, sub),
    {
        let ids = rsg.ids();
        let ghost f = |k: u64| rsg@.pages[k].subscribers.contains(sub);
        let mut r: Vec<EntityId> = Vec::new();
        let mut i: usize = 0;
        proof {
            reveal(Seq::filter);
            assert(ids@.take(0) =~= Seq::empty());
            assert(r@ =~= ids@.take(0).filter(f).map_values(|k: u64| EntityId(k)));
        }
        while i < ids.len()
            invariant
                i <= ids@.len(),
                lists(ids@, rsg@.pages.dom()),
                f == (|k: u64| rsg@.pages[k].subscribers.contains(sub)),
                r@ == ids@.take(i as int).filter(f).map_values(|k: u64| EntityId(k)),
            decreases ids@.len() - i,
        {
            let ghost a = ids@.take(i as int).filter(f);
            proof {
                reveal(Seq::filter);
                assert(ids@.take(i + 1).drop_last() =~= ids@.take(i as int));
                assert(ids@.take(i + 1).last() == ids@[i as int]);
                assert(ids@.contains(ids@[i as int]));
                assert(rsg@.pages.dom().contains(ids@[i as int]));
            }
            if let Some(re) = rsg.get(EntityId(ids[i])) {
                if re.subscribers.contains(sub) {
                    r.push(EntityId(ids[i]));
                    proof {
                        assert(a.push(ids@[i as int]).map_values(|k: u64| EntityId(k))
                            =~= a.map_values(|k: u64| EntityId(k)).push(
                            EntityId(ids@[i as int]),
                        ));
                    }
                }
            }
            i = i + 1;
        }
        proof {
            assert(ids@.take(i as int) =~= ids@);
        }
        r
    }

    /// The whole state of what is active for a subscription, which a bridge
    /// replays to build its cache anew.
    pub fn snapshot(
        &mut self,
        subscription: SubscriptionId,
        lsg: &Lsg,
        rsg: &Rsg,
        overlay: &TwinOverlay,
    ) -> (msgs: Vec<BridgeMsg>)
        requires
            lsg.wf(),
            old(self).checkpoint() < u64::MAX,
        ensures
            final(self).checkpoint() == old(self).checkpoint() + 1,
            views(msgs@) == snapshot_of(
                subscription,
                lsg@,
                rsg@,
                overlay@,
                final(self).checkpoint(),
            ),
    {
        broadcast use group_models;

        let mut msgs: Vec<BridgeMsg> = Vec::new();
        msgs.push(
            BridgeMsg::SnapshotBegin { subscription, scene_revision: lsg.revision() },
        );
        let ghost head = MsgView::SnapshotBegin { subscription, scene_revision: lsg@.revision };
        proof {
            assert(views(msgs@) =~= seq![head]);
        }
        let ids = self.active_ids(rsg, subscription);
        self.push_upserts(&ids, lsg, rsg, overlay, &mut msgs);
        self.seq = self.seq + 1;
        let ghost body = views(msgs@);
        msgs.push(BridgeMsg::SnapshotMarker { scene_revision: lsg.revision(), seq: self.seq });
        proof {
            assert(views(msgs@) =~= body + seq![
                MsgView::SnapshotMarker { scene_revision: lsg@.revision, seq: self.seq },
            ]);
        }
        msgs
    }

    /// The messages of what changed for a subscription.
    pub fn encode_diff(
        &mut self,
        _subscription: SubscriptionId,
        diff: &RsgDiff,
        lsg: &Lsg,
        rsg: &Rsg,
        overlay: &TwinOverlay,
    ) -> (msgs: Vec<BridgeMsg>)
        requires
            lsg.wf(),
        ensures
            *final(self) == *old(self),
            views(msgs@) == diff_messages(diff@, lsg@, rsg@, overlay@),
    {
        broadcast use group_models;

        let mut msgs: Vec<BridgeMsg> = Vec::new();
        self.push_upserts(&diff.upserts, lsg, rsg, overlay, &mut msgs);
        let ghost m0 = views(msgs@);
        let ghost all = removes_of(diff@.removes);
        proof {
            assert(m0 =~= upserts_of(diff@.upserts, lsg@, rsg@, overlay@));
            assert(m0 + all.take(0) =~= m0);
        }
        let mut i: usize = 0;
        while i < diff.removes.len()
            invariant
                i <= diff.removes@.len(),
                all == removes_of(diff@.removes),
                views(msgs@) == m0 + all.take(i as int),
            decreases diff.removes@.len() - i,
        {
            msgs.push(BridgeMsg::RemoveEntity { id: diff.removes[i] });
            i = i + 1;
            proof {
                assert(m0 + all.take(i as int) =~= (m0 + all.take(i - 1)).push(all[i - 1]));
            }
        }
        proof {
            assert(all.take(i as int) =~= all);
        }
        msgs
    }

    /// Commits a pin, and confirms it with the transform in force.
    pub fn handle_pin(
        &self,
        id: EntityId,
        prim_path: &str,
        transform: Transform,
        pinned_by: Option<&str>,
        at_ms: i64,
        overlay: &mut TwinOverlay,
    ) -> (m: BridgeMsg)
        requires
            old(overlay).wf(),
            old(overlay)@.revision < u64::MAX,
        ensures
            final(overlay).wf(),
            final(overlay)@ == old(overlay)@.pinned(
                id,
                (PinView {
                    prim_path: prim_path@,
                    transform,
                    pinned_by: match pinned_by {
                        Some(s) => Some(s@),
                        None => None,
                    },
                    at_ms,
                    revision: 0,
                }),
            ),
            m@ == (MsgView::PinConfirm {
                id,
                transform,
                revision: (old(overlay)@.revision + 1) as u64,
            }),
    {
        let revision: u64 = overlay.pin(id, prim_path, transform, pinned_by, at_ms);
        BridgeMsg::PinConfirm { id, transform, revision }
    }

    /// Removes a pin, and confirms it with the authored transform.
    pub fn handle_unpin(&self, id: EntityId, authored: Transform, overlay: &mut TwinOverlay) -> (m:
        BridgeMsg)
        requires
            old(overlay).wf(),
            old(overlay)@.revision < u64::MAX,
        ensures
            final(overlay).wf(),
            final(overlay)@ == old(overlay)@.unpinned(id),
            m@ == (MsgView::PinConfirm {
                id,
                transform: authored,
                revision: (old(overlay)@.revision + 1) as u64,
            }),
    {
        let (revision, _) = overlay.unpin(id);
        BridgeMsg::PinConfirm { id, transform: authored, revision }
    }

    /// A coarse pick: of the entities that a ray hits, the nearest that is active
    /// for the subscription.
    pub fn coarse_pick(
        &self,
        subscription: SubscriptionId,
        request_id: u64,
        hits: &[RayHit],
        lsg: &Lsg,
        rsg: &Rsg,
    ) -> (m: BridgeMsg)
        ensures
            m@ == (MsgView::PickResult {
                request_id,
                hit: match picked(rsg@, lsg@, subscription, hits@) {
                    Some(h) => Some(h.id),
                    None => None,
                },
            }),
    {
        let mut best: Option<RayHit> = None;
        let mut i: usize = 0;
        while i < hits.len()
            invariant
                i <= hits@.len(),
                best == picked(rsg@, lsg@, subscription, hits@.take(i as int)),
            decreases hits@.len() - i,
        {
            let h = hits[i];
            proof {
                assert(hits@.take(i + 1).drop_last() =~= hits@.take(i as int));
                assert(hits@.take(i + 1).last() == h);
            }
            let active = match rsg.get(h.id) {
                Some(re) => re.subscribers.contains(subscription),
                None => false,
            };
            if active && lsg.get(h.id).is_some() {
                let keep = match best {
                    Some(b) => b.t.lt(h.t) || (b.t.eq_value(h.t) && b.id.0 <= h.id.0),
                    None => false,
                };
                if !keep {
                    best = Some(h);
                }
            }
            i = i + 1;
        }
        proof {
            assert(hits@.take(i as int) =~= hits@);
        }
        let hit = match best {
            Some(h) => Some(h.id),
            None => None,
        };
        BridgeMsg::PickResult { request_id, hit }
    }

    /// The number of the last checkpoint.
    pub fn seq(&self) -> (n: u64)
        ensures
            n == self.checkpoint(),
    {
        self.seq
    }
}

/// A pick is an active entity that the ray hits, and no other such hit is nearer;
/// where one is as near, its id is not smaller.
pub proof fn law_pick_is_nearest(
    rsg: RsgView,
    lsg: LsgView,
    sub: SubscriptionId,
    hits: Seq<RayHit>,
    i: int,
)
    requires
        forall|j: int| 0 <= j < hits.len() ==> !(#[trigger] hits[j]).t.nan(),
        0 <= i < hits.len(),
        pickable(rsg, lsg, sub, hits[i]),
    ensures
        picked(rsg, lsg, sub, hits) matches Some(h) && {
            &&& hits.contains(h)
            &&& pickable(rsg, lsg, sub, h)
            &&& h.t.less(hits[i].t) || (h.t.same(hits[i].t) && h.id.0 <= hits[i].id.0)
        },
    decreases hits.len(),
{
    let init = hits.drop_last();
    let last = hits.last();
    let best = picked(rsg, lsg, sub, init);
    assert forall|j: int| 0 <= j < init.len() implies !(#[trigger] init[j]).t.nan() by {
        assert(!hits[j].t.nan());
    }
    assert(!hits[hits.len() - 1].t.nan());
    lemma_picked_member(rsg, lsg, sub, init);
    if let Some(b) = best {
        let j = choose|j: int| 0 <= j < init.len() && init[j] == b;
        assert(hits[j] == b);
        assert(!init[j].t.nan());
    }
    if i < init.len() {
        assert(init[i] == hits[i]);
        law_pick_is_nearest(rsg, lsg, sub, init, i);
    }
    assert(hits[hits.len() - 1] == last);
}

proof fn lemma_picked_member(rsg: RsgView, lsg: LsgView, sub: SubscriptionId, hits: Seq<RayHit>)
    ensures
        picked(rsg, lsg, sub, hits) matches Some(h) ==> hits.contains(h) && pickable(
            rsg,
            lsg,
            sub,
            h,
        ),
    decreases hits.len(),
{
    if hits.len() > 0 {
        let init = hits.drop_last();
        lemma_picked_member(rsg, lsg, sub, init);
        if let Some(b) = picked(rsg, lsg, sub, init) {
            let j = choose|j: int| 0 <= j < init.len() && init[j] == b;
            assert(hits[j] == b);
        }
        assert(hits[hits.len() - 1] == hits.last());
    }
}

/// The names of qualities are what a renderer is told, and tell the qualities apart.
pub proof fn law_qualities_have_their_names(p: Quality, q: Quality)
    ensures
        q.name() == "ok"@ <==> q == Quality::Good,
        q.name() == "stale"@ <==> q == Quality::Stale,
        q.name() == "unavailable"@ <==> q == Quality::Unavailable,
        q.name() == "error"@ <==> q == Quality::Error,
        p.name() == q.name() ==> p == q,
{
    reveal_strlit("ok");
    reveal_strlit("stale");
    reveal_strlit("unavailable");
    reveal_strlit("error");
    assert("ok"@.len() == 2);
    assert("unavailable"@.len() == 11);
    assert("stale"@.len() == 5 && "stale"@[0] == 's');
    assert("error"@.len() == 5 && "error"@[0] == 'e');
}

/// A sample shows a cached value: its attribute and its number, and its quality by
/// name.
pub open spec fn shows_value(s: VisualView, attribute: Seq<char>, v: TelemetryValue) -> bool {
    &&& s.attribute == attribute
    &&& s.value == v.value
    &&& s.quality == "ok"@ <==> v.quality == Quality::Good
    &&& s.quality == "stale"@ <==> v.quality == Quality::Stale
    &&& s.quality == "unavailable"@ <==> v.quality == Quality::Unavailable
    &&& s.quality == "error"@ <==> v.quality == Quality::Error
}

/// The telemetry of a page is shown as it is cached: for each attribute there is one
/// sample, which shows the value and how good it is; there is no other sample, and
/// the attributes come in order.
pub proof fn law_visual_state_shows_the_cache(telemetry: Map<Seq<char>, TelemetryValue>)
    requires
        telemetry.dom().finite(),
    ensures
        ({
            let visual = visual_of(telemetry);
            &&& visual.len() == telemetry.dom().len()
            &&& forall|i: int|
                0 <= i < visual.len() ==> telemetry.contains_key((#[trigger] visual[i]).attribute)
                    && shows_value(
                    visual[i],
                    visual[i].attribute,
                    telemetry[visual[i].attribute],
                )
            &&& forall|a: Seq<char>| #[trigger]
                telemetry.contains_key(a) ==> exists|i: int|
                    0 <= i < visual.len() && (#[trigger] visual[i]).attribute == a
            &&& forall|i: int, j: int|
                0 <= i < j < visual.len() ==> before(
                    (#[trigger] visual[i]).attribute,
                    (#[trigger] visual[j]).attribute,
                ) && visual[i].attribute != visual[j].attribute
        }),
{
    let d = telemetry.dom();
    lemma_set_in_order(d);
    let names = in_order(d);
    let visual = visual_of(telemetry);
    assert forall|i: int| 0 <= i < visual.len() implies telemetry.contains_key(
        (#[trigger] visual[i]).attribute,
    ) && shows_value(visual[i], visual[i].attribute, telemetry[visual[i].attribute]) by {
        assert(names.contains(names[i]));
        assert(d.contains(names[i]));
        law_qualities_have_their_names(
            telemetry[names[i]].quality,
            telemetry[names[i]].quality,
        );
    }
    assert forall|a: Seq<char>| #[trigger] telemetry.contains_key(a) implies exists|i: int|
        0 <= i < visual.len() && (#[trigger] visual[i]).attribute == a by {
        assert(d.contains(a));
        assert(names.contains(a));
        let i = choose|i: int| 0 <= i < names.len() && names[i] == a;
        assert(visual[i].attribute == a);
    }
    assert forall|i: int, j: int| 0 <= i < j < visual.len() implies before(
        (#[trigger] visual[i]).attribute,
        (#[trigger] visual[j]).attribute,
    ) && visual[i].attribute != visual[j].attribute by {
        assert(before(names[i], names[j]));
        lemma_order(names[i], names[j], names[j]);
    }
}

/// What a bridge is told of an entity is what the index has of it: its path, its
/// handle to geometry and its tags. The transform is that of the pin where there is
/// one, and else the authored one. The box is left out just where all authored bounds
/// are zero. An entity without a page has no visual state.
pub proof fn law_state_is_that_of_the_entity(
    id: EntityId,
    lsg: LsgView,
    rsg: RsgView,
    overlay: OverlayView,
)
    requires
        lsg.valid(),
        lsg.has(id),
    ensures
        ({
            let s = state_of(id, lsg, rsg, overlay);
            let e = lsg.entities[id.0];
            &&& s.id == e.id
            &&& s.prim_path == e.prim_path
            &&& s.geom_ref == e.geom_ref
            &&& s.tags == e.tags
            &&& overlay.pins.contains_key(e.id.0) ==> s.transform
                == overlay.pins[e.id.0].transform
            &&& !overlay.pins.contains_key(e.id.0) ==> s.transform == e.transform_default
            &&& s.extents is None <==> all_zero(e.extents)
            &&& s.extents is Some ==> s.extents == Some(e.local_extents)
            &&& !rsg.has(id) ==> s.visual.len() == 0
            &&& rsg.has(id) ==> s.visual == visual_of(rsg.pages[id.0].telemetry)
        }),
{
    let e = lsg.entities[id.0];
    assert(e.id == id);
    let b = e.extents;
    if degenerate(e.extents) {
        assert forall|k: int| 0 <= k < 3 implies (#[trigger] b.min@[k]).rank() == 0
            && b.max@[k].rank() == 0 by {
            assert(b.min@[k].same(Double::zero_spec()));
        }
        assert(b.min@[0].rank() == 0);
        assert(b.min@[1].rank() == 0);
        assert(b.min@[2].rank() == 0);
    } else if all_zero(e.extents) {
        assert forall|k: int| 0 <= k < 3 implies (#[trigger] e.extents.min@[k]).same(
            Double::zero_spec(),
        ) && e.extents.max@[k].same(Double::zero_spec()) by {
            assert(k == 0 || k == 1 || k == 2);
        }
    }
}

/// Each bound is zero, of either sign.
pub open spec fn all_zero(b: Aabb) -> bool {
    &&& b.min@[0].rank() == 0 && b.min@[1].rank() == 0 && b.min@[2].rank() == 0
    &&& b.max@[0].rank() == 0 && b.max@[1].rank() == 0 && b.max@[2].rank() == 0
}

/// A snapshot opens and closes with the revision of the index, and between the two
/// tells the whole state of each entity that is active for the subscription, once and
/// in ascending order, and of no other.
pub proof fn law_snapshot_tells_the_active_set(
    sub: SubscriptionId,
    lsg: LsgView,
    rsg: RsgView,
    overlay: OverlayView,
    seq: u64,
)
    requires
        rsg.pages.dom().finite(),
    ensures
        ({
            let m = snapshot_of(sub, lsg, rsg, overlay, seq);
            let n = m.len() as int;
            &&& n >= 2
            &&& m[0] == MsgView::SnapshotBegin { subscription: sub, scene_revision: lsg.revision }
            &&& m[n - 1] == MsgView::SnapshotMarker { scene_revision: lsg.revision, seq }
            &&& forall|i: int|
                0 < i < n - 1 ==> (#[trigger] m[i] matches MsgView::UpsertEntity(s) && {
                    &&& rsg.has(s.id)
                    &&& rsg.pages[s.id.0].subscribers.contains(sub)
                    &&& lsg.has(s.id)
                    &&& s == state_of(s.id, lsg, rsg, overlay)
                })
            &&& forall|id: EntityId|
                #![trigger lsg.has(id)]
                rsg.has(id) && rsg.pages[id.0].subscribers.contains(sub) && lsg.has(id) ==> exists|
                    i: int,
                |
                    0 < i < n - 1 && #[trigger] m[i] == MsgView::UpsertEntity(
                        state_of(id, lsg, rsg, overlay),
                    )
            &&& forall|i: int, j: int|
                0 < i < j < n - 1 ==> (#[trigger] m[i])->UpsertEntity_0.id.0 < (
                #[trigger] m[j])->UpsertEntity_0.id.0
        }),
{
    let ids = active_for(rsg, sub);
    let ups = upserts_of(ids, lsg, rsg, overlay);
    let m = snapshot_of(sub, lsg, rsg, overlay, seq);
    let n = m.len() as int;
    assert(n == ups.len() + 2);
    assert forall|i: int| 0 < i < n - 1 implies #[trigger] m[i] == ups[i - 1] by {}
    lemma_upserts_tell(ids, lsg, rsg, overlay);
    lemma_active_rises(rsg, sub);
    assert forall|i: int| 0 < i < n - 1 implies (#[trigger] m[i] matches MsgView::UpsertEntity(s)
        && {
        &&& rsg.has(s.id)
        &&& rsg.pages[s.id.0].subscribers.contains(sub)
        &&& lsg.has(s.id)
        &&& s == state_of(s.id, lsg, rsg, overlay)
    }) by {
        assert(m[i] == ups[i - 1]);
        assert(tells_one(ups[i - 1], ids, lsg, rsg, overlay));
    }
    assert forall|id: EntityId|
        #![trigger lsg.has(id)]
        rsg.has(id) && rsg.pages[id.0].subscribers.contains(sub) && lsg.has(id) implies exists|
        i: int,
    |
        0 < i < n - 1 && #[trigger] m[i] == MsgView::UpsertEntity(
            state_of(id, lsg, rsg, overlay),
        ) by {
        assert(ids.contains(id));
        let j = choose|j: int|
            0 <= j < ups.len() && ups[j] == MsgView::UpsertEntity(
                state_of(id, lsg, rsg, overlay),
            );
        assert(m[j + 1] == ups[j]);
    }
    assert forall|i: int, j: int| 0 < i < j < n - 1 implies (#[trigger] m[i])->UpsertEntity_0.id.0
        < (#[trigger] m[j])->UpsertEntity_0.id.0 by {
        assert(m[i] == ups[i - 1] && m[j] == ups[j - 1]);
    }
}

/// The message tells the state of one of the listed entities.
spec fn tells_one(
    m: MsgView,
    ids: Seq<EntityId>,
    lsg: LsgView,
    rsg: RsgView,
    overlay: OverlayView,
) -> bool {
    m matches MsgView::UpsertEntity(s) && ids.contains(s.id) && lsg.has(s.id) && s == state_of(
        s.id,
        lsg,
        rsg,
        overlay,
    )
}

proof fn lemma_upserts_tell(
    ids: Seq<EntityId>,
    lsg: LsgView,
    rsg: RsgView,
    overlay: OverlayView,
)
    ensures
        ({
            let ups = upserts_of(ids, lsg, rsg, overlay);
            &&& forall|i: int|
                0 <= i < ups.len() ==> tells_one(#[trigger] ups[i], ids, lsg, rsg, overlay)
            &&& forall|id: EntityId|
                #![trigger ids.contains(id)]
                ids.contains(id) && lsg.has(id) ==> ups.contains(
                    MsgView::UpsertEntity(state_of(id, lsg, rsg, overlay)),
                )
            &&& (forall|i: int, j: int|
                0 <= i < j < ids.len() ==> (#[trigger] ids[i]).0 < (#[trigger] ids[j]).0) ==> (
            forall|i: int, j: int|
                0 <= i < j < ups.len() ==> (#[trigger] ups[i])->UpsertEntity_0.id.0 < (
                #[trigger] ups[j])->UpsertEntity_0.id.0)
        }),
    decreases ids.len(),
{
    if ids.len() > 0 {
        let init = ids.drop_last();
        let last = ids.last();
        lemma_upserts_tell(init, lsg, rsg, overlay);
        let before = upserts_of(init, lsg, rsg, overlay);
        let ups = upserts_of(ids, lsg, rsg, overlay);
        assert(ids[ids.len() - 1] == last);
        assert forall|id: EntityId| #[trigger] init.contains(id) implies ids.contains(id) by {
            let i = choose|i: int| 0 <= i < init.len() && init[i] == id;
            assert(ids[i] == id);
        }
        assert forall|i: int| 0 <= i < ups.len() implies tells_one(
            #[trigger] ups[i],
            ids,
            lsg,
            rsg,
            overlay,
        ) by {
            if i < before.len() {
                assert(ups[i] == before[i]);
                assert(tells_one(before[i], init, lsg, rsg, overlay));
            }
        }
        assert forall|id: EntityId|
            #![trigger ids.contains(id)]
            ids.contains(id) && lsg.has(id) implies ups.contains(
            MsgView::UpsertEntity(state_of(id, lsg, rsg, overlay)),
        ) by {
            let i = choose|i: int| 0 <= i < ids.len() && ids[i] == id;
            if i < init.len() {
                assert(init[i] == id);
                assert(init.contains(id));
                let m = MsgView::UpsertEntity(state_of(id, lsg, rsg, overlay));
                assert(before.contains(m));
                let j = choose|j: int| 0 <= j < before.len() && before[j] == m;
                assert(ups[j] == m);
            } else {
                assert(ups[before.len() as int] == MsgView::UpsertEntity(
                    state_of(id, lsg, rsg, overlay),
                ));
            }
        }
        if forall|i: int, j: int|
            0 <= i < j < ids.len() ==> (#[trigger] ids[i]).0 < (#[trigger] ids[j]).0 {
            assert forall|i: int, j: int| 0 <= i < j < init.len() implies (#[trigger] init[i]).0 < (
            #[trigger] init[j]).0 by {
                assert(ids[i].0 < ids[j].0);
            }
            assert forall|i: int, j: int| 0 <= i < j < ups.len() implies (
            #[trigger] ups[i])->UpsertEntity_0.id.0 < (#[trigger] ups[j])->UpsertEntity_0.id.0 by {
                assert(ups[i] == before[i]);
                if j < before.len() {
                    assert(ups[j] == before[j]);
                } else {
                    assert(tells_one(before[i], init, lsg, rsg, overlay));
                    let id = before[i]->UpsertEntity_0.id;
                    let k = choose|k: int| 0 <= k < init.len() && init[k] == id;
                    assert(ids[k].0 < ids[ids.len() - 1].0);
                }
            }
        }
    }
}

proof fn lemma_active_rises(rsg: RsgView, sub: SubscriptionId)
    requires
        rsg.pages.dom().finite(),
    ensures
        forall|id: EntityId|
            #![trigger active_for(rsg, sub).contains(id)]
            #![trigger rsg.has(id)]
            active_for(rsg, sub).contains(id) <==> rsg.has(id)
                && rsg.pages[id.0].subscribers.contains(sub),
        forall|i: int, j: int|
            0 <= i < j < active_for(rsg, sub).len() ==> (#[trigger] active_for(rsg, sub)[i]).0 < (
            #[trigger] active_for(rsg, sub)[j]).0,
{
    let all = ascending(rsg.pages.dom());
    let f = |k: u64| rsg.pages[k].subscribers.contains(sub);
    let kept = all.filter(f);
    let ids = active_for(rsg, sub);
    lemma_ascending(rsg.pages.dom());
    lemma_filter_rises(all, f);
    assert forall|id: EntityId|
        #![trigger active_for(rsg, sub).contains(id)]
        active_for(rsg, sub).contains(id) <==> rsg.has(id) && rsg.pages[id.0].subscribers.contains(
            sub,
        ) by {
        assert(all.contains(id.0) <==> rsg.pages.dom().contains(id.0));
        if ids.contains(id) {
            let i = choose|i: int| 0 <= i < ids.len() && ids[i] == id;
            assert(kept[i] == id.0);
            assert(kept.contains(id.0));
        }
        if kept.contains(id.0) {
            let i = choose|i: int| 0 <= i < kept.len() && kept[i] == id.0;
            assert(ids[i] == id);
        }
    }
    assert forall|i: int, j: int| 0 <= i < j < ids.len() implies (#[trigger] ids[i]).0 < (
    #[trigger] ids[j]).0 by {
        assert(kept[i] < kept[j]);
    }
}

proof fn lemma_filter_rises(s: Seq<u64>, f: spec_fn(u64) -> bool)
    requires
        rises(s),
    ensures
        rises(s.filter(f)),
        forall|k: u64| #[trigger] s.filter(f).contains(k) <==> s.contains(k) && f(k),
    decreases s.len(),
{
    reveal(Seq::filter);
    if s.len() > 0 {
        let init = s.drop_last();
        let last = s.last();
        lemma_filter_rises(init, f);
        let before = init.filter(f);
        let kept = s.filter(f);
        assert(s[s.len() - 1] == last);
        assert forall|k: u64| #[trigger] kept.contains(k) <==> s.contains(k) && f(k) by {
            if kept.contains(k) {
                let i = choose|i: int| 0 <= i < kept.len() && kept[i] == k;
                if i < before.len() {
                    assert(before[i] == k);
                    assert(before.contains(k));
                    let j = choose|j: int| 0 <= j < init.len() && init[j] == k;
                    assert(s[j] == k);
                }
            }
            if s.contains(k) && f(k) {
                let j = choose|j: int| 0 <= j < s.len() && s[j] == k;
                if j < init.len() {
                    assert(init[j] == k);
                    assert(init.contains(k));
                    assert(before.contains(k));
                    let i = choose|i: int| 0 <= i < before.len() && before[i] == k;
                    assert(kept[i] == k);
                } else {
                    assert(kept[before.len() as int] == k);
                }
            }
        }
        assert forall|i: int, j: int| 0 <= i < j < kept.len() implies kept[i] < kept[j] by {
            if j < before.len() {
                assert(before[i] < before[j]);
            } else {
                assert(before.contains(before[i]));
                let x = choose|x: int| 0 <= x < init.len() && init[x] == before[i];
                assert(s[x] < s[s.len() - 1]);
            }
        }
    }
}

/// A hit is of an entity that the subscription has active and the index has.
pub open spec fn hits_active(rsg: RsgView, lsg: LsgView, sub: SubscriptionId, h: RayHit) -> bool {
    &&& rsg.pages.contains_key(h.id.0)
    &&& rsg.pages[h.id.0].subscribers.contains(sub)
    &&& lsg.entities.contains_key(h.id.0)
}

/// A pick is one of the hits, of an entity that the subscription has active and the
/// index has; there is none exactly where no hit is.
pub proof fn law_only_active_entities_are_picked(
    rsg: RsgView,
    lsg: LsgView,
    sub: SubscriptionId,
    hits: Seq<RayHit>,
)
    ensures
        picked(rsg, lsg, sub, hits) matches Some(h) ==> hits.contains(h) && hits_active(
            rsg,
            lsg,
            sub,
            h,
        ),
        picked(rsg, lsg, sub, hits) is None <==> (forall|i: int|
            0 <= i < hits.len() ==> !hits_active(rsg, lsg, sub, #[trigger] hits[i])),
    decreases hits.len(),
{
    if hits.len() > 0 {
        let init = hits.drop_last();
        law_only_active_entities_are_picked(rsg, lsg, sub, init);
        assert(hits[hits.len() - 1] == hits.last());
        if let Some(h) = picked(rsg, lsg, sub, init) {
            let i = choose|i: int| 0 <= i < init.len() && init[i] == h;
            assert(hits[i] == h);
        }
        if picked(rsg, lsg, sub, hits) is None {
            assert forall|i: int| 0 <= i < hits.len() implies !hits_active(
                rsg,
                lsg,
                sub,
                #[trigger] hits[i],
            ) by {
                if i < init.len() {
                    assert(init[i] == hits[i]);
                }
            }
        } else if picked(rsg, lsg, sub, init) is Some {
            let i = choose|i: int|
                0 <= i < init.len() && hits_active(rsg, lsg, sub, #[trigger] init[i]);
            assert(hits[i] == init[i]);
        }
    }
}

/// The messages of a diff tell the state of every upserted entity that the index has,
/// then the removal of every removed one, in order, and nothing else.
pub proof fn law_diffs_are_told(
    diff: DiffView,
    lsg: LsgView,
    rsg: RsgView,
    overlay: OverlayView,
    id: EntityId,
)
    ensures
        ({
            let msgs = diff_messages(diff, lsg, rsg, overlay);
            let n = msgs.len() - diff.removes.len();
            &&& 0 <= n <= diff.upserts.len()
            &&& forall|i: int|
                0 <= i < diff.removes.len() ==> msgs[n + i] == (MsgView::RemoveEntity {
                    id: #[trigger] diff.removes[i],
                })
            &&& forall|i: int|
                0 <= i < n ==> ((#[trigger] msgs[i]) matches MsgView::UpsertEntity(e)
                    && diff.upserts.contains(e.id) && lsg.entities.contains_key(e.id.0) && e
                    == state_of(e.id, lsg, rsg, overlay))
            &&& diff.upserts.contains(id) && lsg.entities.contains_key(id.0) ==> msgs.contains(
                MsgView::UpsertEntity(state_of(id, lsg, rsg, overlay)),
            )
        }),
{
    let ups = upserts_of(diff.upserts, lsg, rsg, overlay);
    let msgs = diff_messages(diff, lsg, rsg, overlay);
    lemma_upserts_are(diff.upserts, lsg, rsg, overlay, id);
    assert forall|i: int| 0 <= i < diff.removes.len() implies msgs[ups.len() + i] == (
    MsgView::RemoveEntity { id: #[trigger] diff.removes[i] }) by {
        assert(msgs[ups.len() + i] == removes_of(diff.removes)[i]);
    }
    assert forall|i: int| 0 <= i < ups.len() implies ((#[trigger] msgs[i])
        matches MsgView::UpsertEntity(e) && diff.upserts.contains(e.id)
        && lsg.entities.contains_key(e.id.0) && e == state_of(e.id, lsg, rsg, overlay)) by {
        assert(msgs[i] == ups[i]);
    }
    if diff.upserts.contains(id) && lsg.entities.contains_key(id.0) {
        let m = MsgView::UpsertEntity(state_of(id, lsg, rsg, overlay));
        let i = choose|i: int| 0 <= i < ups.len() && ups[i] == m;
        assert(msgs[i] == m);
    }
}

proof fn lemma_upserts_are(
    ids: Seq<EntityId>,
    lsg: LsgView,
    rsg: RsgView,
    overlay: OverlayView,
    id: EntityId,
)
    ensures
        ({
            let ups = upserts_of(ids, lsg, rsg, overlay);
            &&& ups.len() <= ids.len()
            &&& forall|i: int|
                0 <= i < ups.len() ==> ((#[trigger] ups[i]) matches MsgView::UpsertEntity(e)
                    && ids.contains(e.id) && lsg.entities.contains_key(e.id.0) && e == state_of(
                    e.id,
                    lsg,
                    rsg,
                    overlay,
                ))
            &&& ids.contains(id) && lsg.entities.contains_key(id.0) ==> ups.contains(
                MsgView::UpsertEntity(state_of(id, lsg, rsg, overlay)),
            )
        }),
    decreases ids.len(),
{
    if ids.len() > 0 {
        let init = ids.drop_last();
        let last = ids.last();
        lemma_upserts_are(init, lsg, rsg, overlay, id);
        let before = upserts_of(init, lsg, rsg, overlay);
        let ups = upserts_of(ids, lsg, rsg, overlay);
        assert(ids[ids.len() - 1] == last);
        assert forall|i: int| 0 <= i < ups.len() implies ((#[trigger] ups[i])
            matches MsgView::UpsertEntity(e) && ids.contains(e.id) && lsg.entities.contains_key(
            e.id.0,
        ) && e == state_of(e.id, lsg, rsg, overlay)) by {
            if i < before.len() {
                assert(ups[i] == before[i]);
                let e = before[i]->UpsertEntity_0;
                let j = choose|j: int| 0 <= j < init.len() && init[j] == e.id;
                assert(ids[j] == e.id);
            } else {
                assert(ups[i] == MsgView::UpsertEntity(state_of(last, lsg, rsg, overlay)));
            }
        }
        if ids.contains(id) && lsg.entities.contains_key(id.0) {
            let m = MsgView::UpsertEntity(state_of(id, lsg, rsg, overlay));
            if id == last {
                assert(ups[before.len() as int] == m);
            } else {
                let j = choose|j: int| 0 <= j < ids.len() && ids[j] == id;
                assert(init[j] == id);
                let i = choose|i: int| 0 <= i < before.len() && before[i] == m;
                assert(ups[i] == m);
            }
        }
    }
}

} // verus!
