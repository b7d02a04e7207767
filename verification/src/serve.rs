//! One connection of a bridge: what it is told, and what its requests do.
//!
//! A [`Session`] owns the subscription of its connection and all that follows from
//! it. The index is shared and only read; the overlay is shared, and a pin or its
//! removal is the one thing that a connection changes in it. Frames are read and
//! sent elsewhere: the session turns each request into the next step.

use crate::bridge::{
    active_for, diff_messages, negotiate, snapshot_of, state_of, upserts_of, BridgeMsg,
    BridgeRequest, BridgeServer, MsgView, RayHit, RegionWire,
};
use crate::fake_bridge::{
    all_applied, law_diff_takes_the_scene_along, law_snapshot_rebuilds_the_scene,
    lemma_applied_concat, lemma_one_applied, lemma_upserts, SceneView,
};
use crate::hydrate::{CacheView, LoadError, PayloadCache, PayloadLoader};
use crate::interest::{
    Hit, Interaction, InterestView, Region, SubscriberKind, Subscription, SubscriptionId,
    SubscriptionView, ViewerProfile,
};
use crate::lsg::{copy_texts, EntityId, Lsg, LsgView, Transform};
use crate::model::{group_models, views};
use crate::overlay::{OverlayView, PinView, TwinOverlay};
use crate::pipeline::{law_diff_is_the_change, mirrors, taken_by, FlowView, Pipeline};
use crate::resolver::{
    absorbed, law_resolution_changes_only_telemetry, requests_for, resolve_active, urgent_first,
    Resolver, SampleView,
};
use crate::rsg::{
    coherent, kept_or_opened, lemma_counted_grows, lemma_filter_parts, no_change, subscribed, Rsg,
    RsgDiff, RsgView,
};
use crate::scalar::Double;
use crate::table::{ascending, lemma_ascending, lemma_lists, IdMap};
use crate::text::{cat, cat3};
use vstd::prelude::*;
use vstd::string::*;

verus! {

/// The one subscription of a connection.
pub const SUB: u64 = 1;

/// Where telemetry comes from.
#[derive(Debug, Clone)]
pub enum TelemetryConfig {
    /// One value for everything; `shown` is the value as people write it.
    Offline { value: Double, shown: String },
    /// Nothing can be had.
    Outage,
    /// A metrics backend.
    Vm(String),
}

impl TelemetryConfig {
    pub open spec fn description(&self) -> Seq<char> {
        match self {
            TelemetryConfig::Offline { shown, .. } => "stub (canned "@ + shown@ + ")"@,
            TelemetryConfig::Outage => "stub (simulated outage)"@,
            TelemetryConfig::Vm(url) => "VictoriaMetrics "@ + url@,
        }
    }

    pub fn describe(&self) -> (s: String)
        ensures
            s@ == self.description(),
    {
        match self {
            TelemetryConfig::Offline { shown, .. } => cat3("stub (canned ", shown.as_str(), ")"),
            TelemetryConfig::Outage => "stub (simulated outage)".to_owned(),
            TelemetryConfig::Vm(url) => cat("VictoriaMetrics ", url.as_str()),
        }
    }
}

/// What becomes of a connection by its first frame.
#[derive(Debug, Clone, Copy, PartialEq, Eq, Structural)]
pub enum Greeting {
    /// It was closed before one came.
    Closed,
    /// The first frame asked for something else than to connect.
    NotConnect,
    /// The bridge is greeted, but speaks no version that is spoken here.
    NoCommonVersion,
    /// The bridge is greeted, and the session starts.
    Agreed,
}

/// Judges the first frame of a connection.
pub fn greet(first: Option<&BridgeRequest>) -> (g: Greeting)
    ensures
        g == (match first {
            None => Greeting::Closed,
            Some(BridgeRequest::Connect { protocol_versions }) => if views(
                protocol_versions@,
            ).contains("vf.bridge.v1"@) {
                Greeting::Agreed
            } else {
                Greeting::NoCommonVersion
            },
            Some(_) => Greeting::NotConnect,
        }),
{
    match first {
        None => Greeting::Closed,
        Some(BridgeRequest::Connect { protocol_versions }) => if negotiate(
            protocol_versions,
        ).is_some() {
            Greeting::Agreed
        } else {
            Greeting::NoCommonVersion
        },
        Some(_) => Greeting::NotConnect,
    }
}

/// What a request leads to.
#[derive(Debug)]
pub enum Step {
    /// Send these messages.
    Reply(Vec<BridgeMsg>),
    /// Find the entities of the area and call [`Session::evaluate`].
    Evaluate,
    /// Find the entities that the ray hits and call [`Session::pick`].
    Pick { request_id: u64, origin: [Double; 3], dir: [Double; 3] },
    /// Send the mesh of a content hash, or an empty frame.
    Fetch { content_hash: String },
}

/// The model of a [`Session`], without its loader and its resolver.
pub struct SessionView {
    pub sub: SubscriptionView,
    pub flow: FlowView,
    pub tick: u64,
    pub checkpoint: u64,
}

/// A subscription registered anew.
pub open spec fn upserted(v: InterestView, sub: SubscriptionView) -> InterestView {
    InterestView {
        subs: v.subs.insert(sub.id, sub),
        active: v.active.insert(sub.id, v.active_of(sub.id)),
    }
}

impl SessionView {
    /// The session with its subscription changed.
    pub open spec fn resubscribed(self, sub: SubscriptionView) -> SessionView {
        SessionView {
            sub,
            flow: FlowView { interest: upserted(self.flow.interest, sub), ..self.flow },
            ..self
        }
    }
}

/// A selection with more entities, each once.
pub open spec fn with_extras(ids: Seq<EntityId>, extras: Seq<EntityId>) -> Seq<EntityId>
    decreases extras.len(),
{
    if extras.len() == 0 {
        ids
    } else {
        let init = with_extras(ids, extras.drop_last());
        if init.contains(extras.last()) {
            init
        } else {
            init.push(extras.last())
        }
    }
}

/// The pin that a bridge commits.
pub open spec fn observer_pin(prim_path: Seq<char>, transform: Transform, at_ms: i64) -> PinView {
    PinView { prim_path, transform, pinned_by: Some("observer"@), at_ms, revision: 0 }
}

/// What a bridge is told of a pin or its removal: the confirmation, and the entity
/// anew.
pub open spec fn redrawn(
    id: EntityId,
    transform: Transform,
    lsg: LsgView,
    rsg: RsgView,
    overlay: OverlayView,
) -> Seq<MsgView> {
    seq![MsgView::PinConfirm { id, transform, revision: overlay.revision }] + upserts_of(
        seq![id],
        lsg,
        rsg,
        overlay,
    )
}

/// What a request does to a session and the overlay, and the step that follows.
pub open spec fn handled(
    v: SessionView,
    o: OverlayView,
    lsg: LsgView,
    req: BridgeRequest,
    at_ms: i64,
    w: SessionView,
    p: OverlayView,
    step: Step,
) -> bool {
    match req {
        BridgeRequest::Connect { .. } => {
            &&& w == v && p == o
            &&& step matches Step::Reply(m) && views(m@) == seq![
                MsgView::Hello { protocol: "vf.bridge.v1"@, scene_revision: lsg.revision },
            ]
        },
        BridgeRequest::UpdateAoi { region, .. } => {
            let r = match region {
                RegionWire::Sphere { center, radius } => Region::Sphere { center, radius },
                RegionWire::Aabb { min, max } => Region::Aabb { min, max },
            };
            &&& w == v.resubscribed(SubscriptionView { region: Some(r), ..v.sub }) && p == o
            &&& step is Evaluate
        },
        BridgeRequest::SubscribeExtras { entity_ids, .. } => {
            &&& w == v.resubscribed(
                SubscriptionView {
                    entity_ids: with_extras(v.sub.entity_ids, entity_ids@),
                    ..v.sub
                },
            ) && p == o
            &&& step is Evaluate
        },
        BridgeRequest::PickRequest { request_id, origin, dir } => {
            &&& w == v && p == o
            &&& step == (Step::Pick { request_id, origin, dir })
        },
        BridgeRequest::PinPart { id, transform } => if lsg.has(id) {
            &&& w == v
            &&& p == o.pinned(id, observer_pin(lsg.entities[id.0].prim_path, transform, at_ms))
            &&& step matches Step::Reply(m) && views(m@) == redrawn(id, transform, lsg, v.flow.rsg, p)
        } else {
            w == v && p == o && (step matches Step::Reply(m) && m@.len() == 0)
        },
        BridgeRequest::UnpinPart { id } => if lsg.has(id) {
            &&& w == v
            &&& p == o.unpinned(id)
            &&& step matches Step::Reply(m) && views(m@) == redrawn(
                id,
                lsg.entities[id.0].transform_default,
                lsg,
                v.flow.rsg,
                p,
            )
        } else {
            w == v && p == o && (step matches Step::Reply(m) && m@.len() == 0)
        },
        BridgeRequest::Heartbeat { budget, .. } => {
            &&& p == o
            &&& w == if budget > 0 {
                v.resubscribed(SubscriptionView { budget, ..v.sub })
            } else {
                v
            }
            &&& step matches Step::Reply(m) && m@.len() == 0
        },
        BridgeRequest::FetchGeom { content_hash } => {
            &&& w == v && p == o
            &&& step matches Step::Fetch { content_hash: h } && h@ == content_hash@
        },
    }
}

/// One working set comes from another by resolving what is due in it: nothing
/// where nothing is due, else whatever the resolver may answer.
pub open spec fn resolved<R: Resolver>(
    v: RsgView,
    w: RsgView,
    lsg: LsgView,
    resolver: R,
    after: R,
    now_ms: i64,
) -> bool {
    if requests_for(v, lsg, now_ms).len() == 0 {
        w == v && after == resolver
    } else {
        exists|samples: Seq<SampleView>|
            {
                &&& #[trigger] resolver.may_answer(
                    urgent_first(requests_for(v, lsg, now_ms)),
                    samples,
                    &after,
                )
                &&& w == absorbed(
                    v,
                    urgent_first(requests_for(v, lsg, now_ms)),
                    samples,
                    now_ms,
                ).0
            }
    }
}

/// A copy of a subscription.
fn copy_subscription(s: &Subscription) -> (r: Subscription)
    ensures
        r@ == s@,
{
    let ids = s.entity_ids.clone();
    proof {
        assert(ids@ =~= s.entity_ids@);
    }
    Subscription {
        id: s.id,
        kind: s.kind,
        viewer_profile: s.viewer_profile,
        region: s.region,
        entity_ids: ids,
        tags_filter: copy_texts(&s.tags_filter),
        budget: s.budget,
        interaction: s.interaction,
    }
}

/// All that belongs to one connection.
pub struct Session<L: PayloadLoader, R: Resolver> {
    sub: Subscription,
    flow: Pipeline<L>,
    resolver: R,
    server: BridgeServer,
    tick: u64,
}

impl<L: PayloadLoader, R: Resolver> View for Session<L, R> {
    type V = SessionView;

    closed spec fn view(&self) -> SessionView {
        SessionView {
            sub: self.sub@,
            flow: self.flow@,
            tick: self.tick,
            checkpoint: self.server.checkpoint(),
        }
    }
}

impl<L: PayloadLoader, R: Resolver> Session<L, R> {
    /// The loader of payloads.
    pub closed spec fn source(&self) -> L {
        self.flow.cache.source()
    }

    /// The payloads that are loaded.
    pub closed spec fn cache(&self) -> PayloadCache<L> {
        self.flow.cache
    }

    /// The resolver.
    pub closed spec fn telemetry(&self) -> R {
        self.resolver
    }

    /// The parts fit together, and the subscription is that of an observer.
    pub closed spec fn wf(&self) -> bool {
        &&& self.flow.wf()
        &&& self.sub@.permitted()
        &&& self.sub@.id == SUB
    }

    /// A session whose area is a sphere around the origin. An observer may only
    /// look.
    pub fn new(aoi_radius: Double, budget: usize, grace: u64, loader: L, resolver: R) -> (s: Self)
        ensures
            s.wf(),
            s.telemetry() == resolver,
            s.source() == loader,
            ({
                let v = s@;
                &&& v.sub.id == SUB
                &&& v.sub.kind == SubscriberKind::Viewer
                &&& v.sub.viewer_profile == Some(ViewerProfile::Observer)
                &&& v.sub.interaction == Interaction::ReadOnly
                &&& v.sub.region matches Some(Region::Sphere { center, radius }) && center@
                    == seq![Double::zero_spec(); 3] && radius == aoi_radius
                &&& v.sub.entity_ids.len() == 0 && v.sub.tags_filter.len() == 0
                &&& v.sub.budget == budget
                &&& v.flow.interest == upserted(
                    InterestView { subs: Map::empty(), active: Map::empty() },
                    v.sub,
                )
                &&& v.flow.rsg == (RsgView {
                    pages: Map::empty(),
                    pending: Map::empty(),
                    grace,
                    diffs: Map::empty(),
                })
                &&& v.flow.payloads == (CacheView {
                    refs: Map::empty(),
                    load_calls: 0,
                    acquisitions: 0,
                })
                &&& v.tick == 0
                &&& v.checkpoint == 0
            }),
    {
        let z = Double::zero();
        let center = [z, z, z];
        proof {
            assert(center@ =~= seq![Double::zero_spec(); 3]);
        }
        let mut sub = Subscription::spatial(
            SUB,
            Region::Sphere { center, radius: aoi_radius },
            budget,
        );
        sub.viewer_profile = Some(ViewerProfile::Observer);
        sub.interaction = Interaction::ReadOnly;
        let mut flow = Pipeline::new(grace, loader);
        let _ = flow.interest.upsert(copy_subscription(&sub));
        Session { sub, flow, resolver, server: BridgeServer::new(), tick: 0 }
    }

    /// What the bridge is told when it connects.
    pub fn hello(&self, lsg: &Lsg) -> (m: BridgeMsg)
        ensures
            m@ == (MsgView::Hello {
                protocol: "vf.bridge.v1"@,
                scene_revision: lsg@.revision,
            }),
    {
        self.server.hello(lsg)
    }

    /// The subscription, whose area says which entities to look for.
    pub fn subscription(&self) -> (s: &Subscription)
        ensures
            s@ == self@.sub,
    {
        &self.sub
    }

    /// The working set.
    pub fn working_set(&self) -> (r: &Rsg)
        ensures
            r@ == self@.flow.rsg,
            self.wf() ==> r.wf() && coherent(*r, self.cache()),
    {
        &self.flow.rsg
    }

    fn resubscribe(&mut self)
        requires
            old(self).wf(),
        ensures
            final(self).wf(),
            final(self).source() == old(self).source(),
            final(self).cache() == old(self).cache(),
            final(self).telemetry() == old(self).telemetry(),
            final(self)@ == old(self)@.resubscribed(old(self)@.sub),
    {
        let _ = self.flow.interest.upsert(copy_subscription(&self.sub));
    }

    fn redraw(&mut self, id: EntityId, confirm: BridgeMsg, lsg: &Lsg, overlay: &TwinOverlay) -> (
        out: Vec<BridgeMsg>)
        requires
            old(self).wf(),
            lsg.wf(),
        ensures
            *final(self) == *old(self),
            views(out@) == seq![confirm@] + upserts_of(seq![id], lsg@, old(self)@.flow.rsg, overlay@),
    {
        broadcast use group_models;

        let mut ids: Vec<EntityId> = Vec::new();
        ids.push(id);
        let diff = RsgDiff { upserts: ids, removes: Vec::new() };
        let mut more = self.server.encode_diff(SUB, &diff, lsg, &self.flow.rsg, overlay);
        let ghost m = views(more@);
        proof {
            assert(diff@.upserts =~= seq![id]);
            assert(crate::bridge::removes_of(diff@.removes) =~= Seq::empty());
            assert(m =~= upserts_of(seq![id], lsg@, self@.flow.rsg, overlay@));
        }
        let mut out: Vec<BridgeMsg> = Vec::new();
        out.push(confirm);
        out.append(&mut more);
        proof {
            assert(views(out@) =~= seq![confirm@] + m);
        }
        out
    }

    /// Takes a request in. Returns the step that follows.
    pub fn handle_request(
        &mut self,
        req: BridgeRequest,
        lsg: &Lsg,
        overlay: &mut TwinOverlay,
        at_ms: i64,
    ) -> (step: Step)
        requires
            old(self).wf(),
            lsg.wf(),
            old(overlay).wf(),
            old(overlay)@.revision < u64::MAX,
        ensures
            final(self).wf(),
            final(overlay).wf(),
            final(self).source() == old(self).source(),
            final(self).cache() == old(self).cache(),
            final(self).telemetry() == old(self).telemetry(),
            handled(
                old(self)@,
                old(overlay)@,
                lsg@,
                req,
                at_ms,
                final(self)@,
                final(overlay)@,
                step,
            ),
    {
        match req {
            BridgeRequest::Connect { .. } => {
                let mut out: Vec<BridgeMsg> = Vec::new();
                out.push(self.server.hello(lsg));
                proof {
                    assert(views(out@) =~= seq![
                        MsgView::Hello { protocol: "vf.bridge.v1"@, scene_revision: lsg@.revision },
                    ]);
                }
                Step::Reply(out)
            },
            BridgeRequest::UpdateAoi { region, .. } => {
                self.sub.region = Some(region.to_region());
                self.resubscribe();
                Step::Evaluate
            },
            BridgeRequest::SubscribeExtras { entity_ids, .. } => {
                let ghost ids0 = self.sub.entity_ids@;
                let ghost v0 = self@;
                let mut i: usize = 0;
                proof {
                    assert(entity_ids@.take(0) =~= Seq::empty());
                }
                while i < entity_ids.len()
                    invariant
                        i <= entity_ids@.len(),
                        self.wf(),
                        self.source() == old(self).source(),
                        self.cache() == old(self).cache(),
                        self.telemetry() == old(self).telemetry(),
                        v0 == old(self)@,
                        ids0 == v0.sub.entity_ids,
                        *overlay == *old(overlay),
                        self@ == (SessionView {
                            sub: SubscriptionView {
                                entity_ids: with_extras(ids0, entity_ids@.take(i as int)),
                                ..v0.sub
                            },
                            ..v0
                        }),
                    decreases entity_ids@.len() - i,
                {
                    proof {
                        assert(entity_ids@.take(i + 1).drop_last() =~= entity_ids@.take(i as int));
                        assert(entity_ids@.take(i + 1).last() == entity_ids@[i as int]);
                    }
                    if !crate::alert::holds_id(&self.sub.entity_ids, entity_ids[i]) {
                        self.sub.entity_ids.push(entity_ids[i]);
                    }
                    i = i + 1;
                }
                proof {
                    assert(entity_ids@.take(i as int) =~= entity_ids@);
                }
                self.resubscribe();
                Step::Evaluate
            },
            BridgeRequest::PickRequest { request_id, origin, dir } => Step::Pick {
                request_id,
                origin,
                dir,
            },
            BridgeRequest::PinPart { id, transform } => {
                let prim_path = match lsg.get(id) {
                    Some(e) => e.prim_path.clone(),
                    None => return Step::Reply(Vec::new()),
                };
                let confirm = self.server.handle_pin(
                    id,
                    prim_path.as_str(),
                    transform,
                    Some("observer"),
                    at_ms,
                    overlay,
                );
                Step::Reply(self.redraw(id, confirm, lsg, overlay))
            },
            BridgeRequest::UnpinPart { id } => {
                let authored = match lsg.get(id) {
                    Some(e) => e.transform_default,
                    None => return Step::Reply(Vec::new()),
                };
                let confirm = self.server.handle_unpin(id, authored, overlay);
                Step::Reply(self.redraw(id, confirm, lsg, overlay))
            },
            BridgeRequest::Heartbeat { budget, .. } => {
                if budget > 0 {
                    self.sub.budget = budget;
                    self.resubscribe();
                }
                Step::Reply(Vec::new())
            },
            BridgeRequest::FetchGeom { content_hash } => Step::Fetch { content_hash },
        }
    }

    /// Answers a pick from the entities that the ray hits.
    pub fn pick(&self, request_id: u64, hits: &[RayHit], lsg: &Lsg) -> (m: BridgeMsg)
        ensures
            m@ == (MsgView::PickResult {
                request_id,
                hit: match crate::bridge::picked(self@.flow.rsg, lsg@, SUB, hits@) {
                    Some(h) => Some(h.id),
                    None => None,
                },
            }),
    {
        self.server.coarse_pick(SUB, request_id, hits, lsg, &self.flow.rsg)
    }

    /// Refreshes the telemetry of the working set.
    fn refresh(&mut self, lsg: &Lsg, now_ms: i64)
        requires
            old(self).wf(),
        ensures
            final(self).wf(),
            final(self).source() == old(self).source(),
            final(self).cache() == old(self).cache(),
            final(self).server == old(self).server,
            final(self)@ == (SessionView {
                flow: FlowView { rsg: final(self)@.flow.rsg, ..old(self)@.flow },
                ..old(self)@
            }),
            final(self)@.flow.rsg.diffs == old(self)@.flow.rsg.diffs,
            resolved(
                old(self)@.flow.rsg,
                final(self)@.flow.rsg,
                lsg@,
                old(self).telemetry(),
                final(self).telemetry(),
                now_ms,
            ),
    {
        let ghost v = self.flow.rsg@;
        let ghost rsg = self.flow.rsg;
        let _ = resolve_active(&mut self.flow.rsg, lsg, &mut self.resolver, now_ms);
        proof {
            let w = self.flow.rsg@;
            if requests_for(v, lsg@, now_ms).len() > 0 {
                let reqs = urgent_first(requests_for(v, lsg@, now_ms));
                let samples = choose|samples: Seq<SampleView>|
                    {
                        &&& #[trigger] old(self).telemetry().may_answer(
                            reqs,
                            samples,
                            &self.telemetry(),
                        )
                        &&& w == absorbed(v, reqs, samples, now_ms).0
                    };
                law_resolution_changes_only_telemetry(v, reqs, samples, now_ms);
            }
            assert forall|k: u64| #[trigger] v.pages.contains_key(k) implies v.pages[k].payload_key
                == w.pages[k].payload_key by {
                assert(w.pages.dom().contains(k));
                assert(w.pages.contains_key(k));
            }
            lemma_counted_grows(v.pages, w.pages, self.flow@.payloads, self.flow@.payloads);
            assert forall|id: EntityId| #[trigger] w.has(id) implies v.has(id) by {
                assert(w.pages.dom().contains(id.0));
                assert(v.pages.dom().contains(id.0));
            }
        }
    }

    /// Hands out what the subscription has collected.
    fn drain(&mut self) -> (d: RsgDiff)
        requires
            old(self).wf(),
        ensures
            final(self).wf(),
            final(self).source() == old(self).source(),
            final(self).cache() == old(self).cache(),
            final(self).telemetry() == old(self).telemetry(),
            final(self).server == old(self).server,
            d@ == old(self)@.flow.rsg.diff_of(SUB),
            final(self)@ == (SessionView {
                flow: FlowView {
                    rsg: RsgView {
                        diffs: old(self)@.flow.rsg.diffs.remove(SUB),
                        ..old(self)@.flow.rsg
                    },
                    ..old(self)@.flow
                },
                ..old(self)@
            }),
    {
        let ghost rsg = self.flow.rsg@;
        let d = self.flow.rsg.take_diff(SUB);
        proof {
            assert forall|id: EntityId| #[trigger] self.flow.rsg@.has(id) implies rsg.has(id) by {}
        }
        d
    }

    /// The first messages behind the greeting: a snapshot of the area. What the
    /// working set collected on the way is in the snapshot, and forgotten.
    pub fn open(
        &mut self,
        lsg: &Lsg,
        hits: &IdMap<Vec<Hit>>,
        overlay: &TwinOverlay,
        now_ms: i64,
    ) -> (r: Result<Vec<BridgeMsg>, LoadError>)
        requires
            old(self).wf(),
            lsg.wf(),
            old(self)@.checkpoint < u64::MAX,
        ensures
            final(self).wf(),
            final(self)@.sub == old(self)@.sub,
            final(self)@.tick == old(self)@.tick,
            final(self).source() == old(self).source(),
            kept_or_opened(
                old(self).cache(),
                final(self).cache(),
                old(self)@.flow.rsg,
                lsg@,
                taken_by(old(self)@.flow.interest, lsg@, hits@),
            ),
            match r {
                Ok(msgs) => {
                    let mid = old(self)@.flow.followed(lsg@, hits@, old(self)@.tick);
                    let after = final(self)@.flow;
                    &&& old(self)@.flow.has_room(lsg@, hits@)
                    &&& exists|v: RsgView| #[trigger]
                        resolved(
                            mid.rsg,
                            v,
                            lsg@,
                            old(self).telemetry(),
                            final(self).telemetry(),
                            now_ms,
                        ) && after == (FlowView {
                            rsg: RsgView { diffs: v.diffs.remove(SUB), ..v },
                            ..mid
                        })
                    &&& after.rsg.diff_of(SUB) == no_change()
                    &&& final(self)@.checkpoint == old(self)@.checkpoint + 1
                    &&& views(msgs@) == snapshot_of(
                        SUB,
                        lsg@,
                        after.rsg,
                        overlay@,
                        final(self)@.checkpoint,
                    )
                },
                Err(e) => {
                    &&& old(self)@.flow.failed(
                        final(self)@.flow,
                        old(self).source(),
                        lsg@,
                        hits@,
                        e,
                    )
                    &&& final(self)@.checkpoint == old(self)@.checkpoint
                    &&& final(self).telemetry() == old(self).telemetry()
                },
            },
    {
        match self.flow.follow(lsg, hits, self.tick) {
            Ok(_) => {},
            Err(e) => return Err(e),
        }
        let ghost mid = self.flow@;
        self.refresh(lsg, now_ms);
        let ghost v = self.flow.rsg@;
        let _ = self.drain();
        proof {
            assert(mid == old(self)@.flow.followed(lsg@, hits@, old(self)@.tick));
            assert(self.flow@ == (FlowView {
                rsg: RsgView { diffs: v.diffs.remove(SUB), ..v },
                ..mid
            }));
        }
        let msgs = self.server.snapshot(SUB, lsg, &self.flow.rsg, overlay);
        proof {
            assert(resolved(
                old(self)@.flow.followed(lsg@, hits@, old(self)@.tick).rsg,
                v,
                lsg@,
                old(self).telemetry(),
                self.telemetry(),
                now_ms,
            ));
        }
        Ok(msgs)
    }

    /// Follows a change of the subscription: the working set moves, what has
    /// waited too long is evicted, telemetry is refreshed, and the messages of
    /// what changed are returned.
    pub fn evaluate(
        &mut self,
        lsg: &Lsg,
        hits: &IdMap<Vec<Hit>>,
        overlay: &TwinOverlay,
        now_ms: i64,
    ) -> (r: Result<Vec<BridgeMsg>, LoadError>)
        requires
            old(self).wf(),
            lsg.wf(),
            old(self)@.tick < u64::MAX,
        ensures
            final(self).wf(),
            final(self)@.sub == old(self)@.sub,
            final(self)@.tick == old(self)@.tick + 1,
            final(self)@.checkpoint == old(self)@.checkpoint,
            final(self).source() == old(self).source(),
            kept_or_opened(
                old(self).cache(),
                final(self).cache(),
                old(self)@.flow.rsg,
                lsg@,
                taken_by(old(self)@.flow.interest, lsg@, hits@),
            ),
            match r {
                Ok(msgs) => {
                    let mid = old(self)@.flow.followed(lsg@, hits@, final(self)@.tick).evicted(
                        final(self)@.tick,
                    );
                    let after = final(self)@.flow;
                    &&& old(self)@.flow.has_room(lsg@, hits@)
                    &&& exists|v: RsgView| #[trigger]
                        resolved(
                            mid.rsg,
                            v,
                            lsg@,
                            old(self).telemetry(),
                            final(self).telemetry(),
                            now_ms,
                        ) && after == (FlowView {
                            rsg: RsgView { diffs: v.diffs.remove(SUB), ..v },
                            ..mid
                        })
                    &&& views(msgs@) == diff_messages(
                        mid.rsg.diff_of(SUB),
                        lsg@,
                        after.rsg,
                        overlay@,
                    )
                },
                Err(e) => {
                    &&& old(self)@.flow.failed(
                        final(self)@.flow,
                        old(self).source(),
                        lsg@,
                        hits@,
                        e,
                    )
                    &&& final(self).telemetry() == old(self).telemetry()
                },
            },
    {
        self.tick = self.tick + 1;
        match self.flow.step(lsg, hits, self.tick) {
            Ok(_) => {},
            Err(e) => return Err(e),
        }
        self.refresh(lsg, now_ms);
        let ghost v2 = self.flow.rsg@;
        let diff = self.drain();
        let msgs = self.server.encode_diff(SUB, &diff, lsg, &self.flow.rsg, overlay);
        proof {
            assert(resolved(
                old(self)@.flow.followed(lsg@, hits@, self@.tick).evicted(self@.tick).rsg,
                v2,
                lsg@,
                old(self).telemetry(),
                self.telemetry(),
                now_ms,
            ));
        }
        Ok(msgs)
    }
}

// ---------------------------------------------------------------------------
// What holds between a session and a bridge.

/// The bridge shows what is active for the subscription, and nothing else.
pub open spec fn shows(scene: SceneView, interest: InterestView, s: SubscriptionId) -> bool {
    forall|k: u64|
        #![trigger scene.scene.contains_key(k)]
        #![trigger interest.active_of(s).contains(k)]
        scene.scene.contains_key(k) <==> interest.active_of(s).contains(k)
}

/// What stands in the list of a subscription's active entities.
pub proof fn lemma_active_for(rsg: RsgView, s: SubscriptionId, id: EntityId)
    requires
        rsg.pages.dom().finite(),
    ensures
        active_for(rsg, s).contains(id) <==> subscribed(rsg, s, id),
{
    let all = ascending(rsg.pages.dom());
    let f = |k: u64| rsg.pages[k].subscribers.contains(s);
    let ids = all.filter(f);
    lemma_ascending(rsg.pages.dom());
    lemma_lists(all, rsg.pages.dom());
    lemma_filter_parts(all, f);
    assert(all.contains(id.0) <==> rsg.pages.dom().contains(id.0));
    if active_for(rsg, s).contains(id) {
        let i = choose|i: int| 0 <= i < active_for(rsg, s).len() && active_for(rsg, s)[i] == id;
        assert(ids.contains(ids[i]));
        assert(ids[i] == id.0);
    }
    if subscribed(rsg, s, id) {
        assert(ids.contains(id.0));
        let i = choose|i: int| 0 <= i < ids.len() && ids[i] == id.0;
        assert(active_for(rsg, s)[i] == id);
    }
}

/// A bridge that connects is shown what is active: the snapshot makes it so,
/// whatever the bridge held before.
pub proof fn law_snapshot_shows_the_active_set(
    scene: SceneView,
    v: FlowView,
    s: SubscriptionId,
    lsg: LsgView,
    overlay: OverlayView,
    seq: u64,
)
    requires
        mirrors(v),
        v.rsg.pages.dom().finite(),
        forall|k: u64| #[trigger]
            v.interest.active_of(s).contains(k) ==> lsg.has(EntityId(k)),
    ensures
        shows(all_applied(scene, snapshot_of(s, lsg, v.rsg, overlay, seq)), v.interest, s),
{
    law_snapshot_rebuilds_the_scene(scene, s, lsg, v.rsg, overlay, seq);
    let after = all_applied(scene, snapshot_of(s, lsg, v.rsg, overlay, seq));
    assert forall|k: u64| #[trigger] after.scene.contains_key(k)
        <==> v.interest.active_of(s).contains(k) by {
        lemma_active_for(v.rsg, s, EntityId(k));
        assert(subscribed(v.rsg, s, EntityId(k)) <==> v.interest.active_of(s).contains(k));
    }
}

/// A bridge keeps up with a session: one that shows what is active shows it again
/// when it has applied the messages of a step, and each entity that came in is in
/// the state that the working set gives it. `shown` is the working set of the step
/// with its telemetry refreshed, or not.
pub proof fn law_bridge_keeps_up(
    scene: SceneView,
    v: FlowView,
    s: SubscriptionId,
    lsg: LsgView,
    hits: Map<u64, Vec<Hit>>,
    now: u64,
    shown: RsgView,
    overlay: OverlayView,
)
    requires
        shows(scene, v.interest, s),
        v.rsg.diff_of(s) == no_change(),
        v.interest.subs.dom().finite(),
        v.interest.active.dom().finite(),
        forall|s: u64| (#[trigger] v.interest.active_of(s)).finite(),
    ensures
        ({
            let w = v.followed(lsg, hits, now).evicted(now);
            let after = all_applied(
                scene,
                diff_messages(w.rsg.diff_of(s), lsg, shown, overlay),
            );
            &&& shows(after, w.interest, s)
            &&& forall|k: u64| #[trigger]
                after.scene.contains_key(k) ==> if v.interest.active_of(s).contains(k) {
                    after.scene[k] == scene.scene[k]
                } else {
                    after.scene[k].state == state_of(EntityId(k), lsg, shown, overlay)
                }
        }),
{
    let w = v.followed(lsg, hits, now).evicted(now);
    let diff = w.rsg.diff_of(s);
    let after = all_applied(scene, diff_messages(diff, lsg, shown, overlay));
    law_diff_takes_the_scene_along(scene, diff, lsg, shown, overlay);
    assert forall|k: u64| #[trigger] after.scene.contains_key(k)
        <==> w.interest.active_of(s).contains(k) by {
        law_diff_is_the_change(v, lsg, hits, now, s, k);
        assert(scene.scene.contains_key(k) <==> v.interest.active_of(s).contains(k));
    }
    assert forall|k: u64| #[trigger] after.scene.contains_key(k) implies if v.interest.active_of(
        s,
    ).contains(k) {
        after.scene[k] == scene.scene[k]
    } else {
        after.scene[k].state == state_of(EntityId(k), lsg, shown, overlay)
    } by {
        law_diff_is_the_change(v, lsg, hits, now, s, k);
    }
}

/// The bridge holds each entity in the state that it is to be shown in.
pub open spec fn up_to_date(
    scene: SceneView,
    lsg: LsgView,
    rsg: RsgView,
    overlay: OverlayView,
) -> bool {
    forall|k: u64| #[trigger]
        scene.scene.contains_key(k) ==> scene.scene[k].state == state_of(
            EntityId(k),
            lsg,
            rsg,
            overlay,
        )
}

/// What a redrawn entity does to a bridge that held it.
proof fn lemma_redrawn(
    scene: SceneView,
    id: EntityId,
    transform: Transform,
    lsg: LsgView,
    rsg: RsgView,
    overlay: OverlayView,
)
    requires
        lsg.has(id),
        scene.has(id),
    ensures
        ({
            let after = all_applied(scene, redrawn(id, transform, lsg, rsg, overlay));
            &&& after.scene.dom() == scene.scene.dom()
            &&& after.scene[id.0].state == state_of(id, lsg, rsg, overlay)
            &&& forall|k: u64| #[trigger]
                scene.scene.contains_key(k) && k != id.0 ==> after.scene[k] == scene.scene[k]
        }),
{
    let confirm = MsgView::PinConfirm { id, transform, revision: overlay.revision };
    lemma_applied_concat(scene, seq![confirm], upserts_of(seq![id], lsg, rsg, overlay));
    lemma_one_applied(scene, confirm);
    let mid = all_applied(scene, seq![confirm]);
    lemma_upserts(mid, seq![id], lsg, rsg, overlay);
    let after = all_applied(scene, redrawn(id, transform, lsg, rsg, overlay));
    assert(seq![id][0] == id);
    assert forall|k: u64| after.scene.dom().contains(k) <==> scene.scene.dom().contains(k) by {
        assert(after.scene.contains_key(k) <==> mid.scene.contains_key(k) || (
        seq![id].contains(EntityId(k)) && lsg.has(EntityId(k))));
    }
    assert(after.scene.dom() =~= scene.scene.dom());
    assert(after.scene.contains_key(id.0));
    assert forall|k: u64| #[trigger] scene.scene.contains_key(k) && k != id.0 implies after.scene[k]
        == scene.scene[k] by {
        assert(after.scene.dom().contains(k));
        assert(after.scene.contains_key(k));
        assert(!seq![id].contains(EntityId(k)));
    }
}

/// A pin is seen at once, and so is its removal: a bridge that was up to date and
/// shows the entity holds it where it was pinned, or where it was authored, when it
/// has applied the reply. It is up to date again, and shows the same entities.
pub proof fn law_pins_are_seen(
    scene: SceneView,
    id: EntityId,
    transform: Transform,
    at_ms: i64,
    lsg: LsgView,
    rsg: RsgView,
    overlay: OverlayView,
)
    requires
        lsg.valid(),
        lsg.has(id),
        scene.has(id),
        forall|k: u64| #[trigger] scene.scene.contains_key(k) ==> lsg.has(EntityId(k)),
        up_to_date(scene, lsg, rsg, overlay),
    ensures
        ({
            let e = lsg.entities[id.0];
            let p = overlay.pinned(id, observer_pin(e.prim_path, transform, at_ms));
            let after = all_applied(scene, redrawn(id, transform, lsg, rsg, p));
            &&& after.scene.dom() == scene.scene.dom()
            &&& after.scene[id.0].state.transform == transform
            &&& up_to_date(after, lsg, rsg, p)
        }),
        ({
            let e = lsg.entities[id.0];
            let p = overlay.unpinned(id);
            let after = all_applied(scene, redrawn(id, e.transform_default, lsg, rsg, p));
            &&& after.scene.dom() == scene.scene.dom()
            &&& after.scene[id.0].state.transform == e.transform_default
            &&& up_to_date(after, lsg, rsg, p)
        }),
{
    let e = lsg.entities[id.0];
    let p = overlay.pinned(id, observer_pin(e.prim_path, transform, at_ms));
    let q = overlay.unpinned(id);
    lemma_redrawn(scene, id, transform, lsg, rsg, p);
    lemma_redrawn(scene, id, e.transform_default, lsg, rsg, q);
    let with_pin = all_applied(scene, redrawn(id, transform, lsg, rsg, p));
    assert forall|k: u64| #[trigger] with_pin.scene.contains_key(k) implies with_pin.scene[k].state
        == state_of(EntityId(k), lsg, rsg, p) by {
        assert(with_pin.scene.dom().contains(k));
        assert(scene.scene.contains_key(k));
    }
    let without = all_applied(scene, redrawn(id, e.transform_default, lsg, rsg, q));
    assert forall|k: u64| #[trigger] without.scene.contains_key(k) implies without.scene[k].state
        == state_of(EntityId(k), lsg, rsg, q) by {
        assert(without.scene.dom().contains(k));
        assert(scene.scene.contains_key(k));
    }
}

// ---------------------------------------------------------------------------
// What a request changes.

/// A selection with more entities has those that it had, in their order, and behind
/// them the others, each once.
pub proof fn law_extras_join_the_selection(
    ids: Seq<EntityId>,
    extras: Seq<EntityId>,
    id: EntityId,
)
    ensures
        ids.is_prefix_of(with_extras(ids, extras)),
        with_extras(ids, extras).contains(id) <==> ids.contains(id) || extras.contains(id),
        ids.no_duplicates() ==> with_extras(ids, extras).no_duplicates(),
    decreases extras.len(),
{
    if extras.len() > 0 {
        let init = extras.drop_last();
        let last = extras.last();
        law_extras_join_the_selection(ids, init, id);
        let before = with_extras(ids, init);
        crate::rsg::lemma_pushed(before, last, id);
        assert(extras =~= init.push(last));
        crate::rsg::lemma_pushed(init, last, id);
    }
}

/// Of a subscription only the selection, the area or the budget changes.
pub open spec fn same_but_wishes(a: SubscriptionView, b: SubscriptionView) -> bool {
    &&& b.id == a.id && b.kind == a.kind && b.viewer_profile == a.viewer_profile
    &&& b.tags_filter == a.tags_filter && b.interaction == a.interaction
}

/// A session goes on with a subscription: it is registered under its id, in place of
/// the one before; other subscriptions, what is active and the working set stay.
pub open spec fn goes_on_with(v: SessionView, w: SessionView, sub: SubscriptionView) -> bool {
    &&& w.sub == sub
    &&& w.flow.interest.subs.contains_key(sub.id) && w.flow.interest.subs[sub.id] == sub
    &&& forall|s: u64|
        s != sub.id ==> w.flow.interest.subs.contains_key(s) == v.flow.interest.subs.contains_key(s)
            && #[trigger] w.flow.interest.subs[s] == v.flow.interest.subs[s]
    &&& forall|s: u64| #[trigger] w.flow.interest.active_of(s) == v.flow.interest.active_of(s)
    &&& w.flow.rsg == v.flow.rsg && w.flow.payloads == v.flow.payloads
    &&& w.tick == v.tick && w.checkpoint == v.checkpoint
}

/// A request for another area, more entities or another budget changes that of the
/// subscription and nothing else of it; a budget of none changes nothing.
pub proof fn law_wishes_change_the_subscription(
    v: SessionView,
    o: OverlayView,
    lsg: LsgView,
    req: BridgeRequest,
    at_ms: i64,
    w: SessionView,
    p: OverlayView,
    step: Step,
)
    requires
        handled(v, o, lsg, req, at_ms, w, p, step),
    ensures
        match req {
            BridgeRequest::UpdateAoi { subscription, region } => {
                &&& p == o && step is Evaluate
                &&& goes_on_with(v, w, w.sub) && same_but_wishes(v.sub, w.sub)
                &&& w.sub.entity_ids == v.sub.entity_ids && w.sub.budget == v.sub.budget
                &&& match region {
                    RegionWire::Sphere { center, radius } => w.sub.region == Some(
                        Region::Sphere { center, radius },
                    ),
                    RegionWire::Aabb { min, max } => w.sub.region == Some(Region::Aabb { min, max }),
                }
            },
            BridgeRequest::SubscribeExtras { subscription, entity_ids } => {
                &&& p == o && step is Evaluate
                &&& goes_on_with(v, w, w.sub) && same_but_wishes(v.sub, w.sub)
                &&& w.sub.region == v.sub.region && w.sub.budget == v.sub.budget
                &&& v.sub.entity_ids.is_prefix_of(w.sub.entity_ids)
                &&& forall|id: EntityId| #[trigger]
                    w.sub.entity_ids.contains(id) <==> v.sub.entity_ids.contains(id)
                        || entity_ids@.contains(id)
            },
            BridgeRequest::Heartbeat { subscription, budget } => {
                &&& p == o
                &&& step matches Step::Reply(m) && m@.len() == 0
                &&& budget == 0 ==> w == v
                &&& budget > 0 ==> goes_on_with(v, w, w.sub) && same_but_wishes(v.sub, w.sub)
                    && w.sub.region == v.sub.region && w.sub.entity_ids == v.sub.entity_ids
                    && w.sub.budget == budget
            },
            _ => w == v,
        },
{
    if let BridgeRequest::SubscribeExtras { subscription, entity_ids } = req {
        assert forall|id: EntityId| #[trigger]
            w.sub.entity_ids.contains(id) <==> v.sub.entity_ids.contains(id)
                || entity_ids@.contains(id) by {
            law_extras_join_the_selection(v.sub.entity_ids, entity_ids@, id);
        }
        law_extras_join_the_selection(v.sub.entity_ids, entity_ids@, EntityId(0));
    }
}

/// A pin of an entity that the scene has is committed with its path, as that of an
/// observer, and confirmed with its transform and the new revision; its removal is
/// confirmed with the authored transform. Then the entity is told anew. Of an entity
/// that the scene does not have nothing is committed or told. Other requests commit
/// nothing.
pub proof fn law_pins_are_committed_and_confirmed(
    v: SessionView,
    o: OverlayView,
    lsg: LsgView,
    req: BridgeRequest,
    at_ms: i64,
    w: SessionView,
    p: OverlayView,
    step: Step,
)
    requires
        handled(v, o, lsg, req, at_ms, w, p, step),
        o.revision < u64::MAX,
    ensures
        match req {
            BridgeRequest::PinPart { id, transform } => {
                &&& !lsg.entities.contains_key(id.0) ==> p == o && (step matches Step::Reply(m)
                    && m@.len() == 0)
                &&& lsg.entities.contains_key(id.0) ==> {
                    &&& p.revision == o.revision + 1
                    &&& p.pins.contains_key(id.0)
                    &&& p.pins[id.0].transform == transform
                    &&& p.pins[id.0].prim_path == lsg.entities[id.0].prim_path
                    &&& p.pins[id.0].pinned_by == Some("observer"@)
                    &&& p.pins[id.0].at_ms == at_ms
                    &&& forall|k: u64|
                        k != id.0 ==> p.pins.contains_key(k) == o.pins.contains_key(k)
                            && #[trigger] p.pins[k] == o.pins[k]
                    &&& step matches Step::Reply(m) && m@.len() == 2 && m@[0]@ == (
                    MsgView::PinConfirm { id, transform, revision: (o.revision + 1) as u64 })
                        && m@[1]@ == MsgView::UpsertEntity(state_of(id, lsg, v.flow.rsg, p))
                }
            },
            BridgeRequest::UnpinPart { id } => {
                &&& !lsg.entities.contains_key(id.0) ==> p == o && (step matches Step::Reply(m)
                    && m@.len() == 0)
                &&& lsg.entities.contains_key(id.0) ==> {
                    &&& p.revision == o.revision + 1
                    &&& !p.pins.contains_key(id.0)
                    &&& forall|k: u64|
                        k != id.0 ==> p.pins.contains_key(k) == o.pins.contains_key(k)
                            && #[trigger] p.pins[k] == o.pins[k]
                    &&& step matches Step::Reply(m) && m@.len() == 2 && m@[0]@ == (
                    MsgView::PinConfirm {
                        id,
                        transform: lsg.entities[id.0].transform_default,
                        revision: (o.revision + 1) as u64,
                    }) && m@[1]@ == MsgView::UpsertEntity(state_of(id, lsg, v.flow.rsg, p))
                }
            },
            _ => p == o,
        },
{
    let id = match req {
        BridgeRequest::PinPart { id, transform } => id,
        BridgeRequest::UnpinPart { id } => id,
        _ => EntityId(0),
    };
    if lsg.has(id) {
        assert(seq![id].drop_last() =~= Seq::<EntityId>::empty());
        assert(upserts_of(Seq::<EntityId>::empty(), lsg, v.flow.rsg, p) =~= Seq::<MsgView>::empty());
        assert(upserts_of(seq![id], lsg, v.flow.rsg, p) =~= seq![
            MsgView::UpsertEntity(state_of(id, lsg, v.flow.rsg, p)),
        ]);
        if let Step::Reply(m) = step {
            assert(views(m@).len() == m@.len());
            if m@.len() == 2 {
                assert(views(m@)[0] == m@[0]@ && views(m@)[1] == m@[1]@);
            }
        }
    }
}

/// What telemetry comes from is described by what it is: a value that is made up, an
/// outage that is, or the address of a backend.
pub proof fn law_telemetry_sources_are_described(c: TelemetryConfig)
    ensures
        match c {
            TelemetryConfig::Offline { value, shown } => c.description() == "stub (canned "@
                + shown@ + ")"@,
            TelemetryConfig::Outage => c.description() == "stub (simulated outage)"@,
            TelemetryConfig::Vm(url) => c.description() == "VictoriaMetrics "@ + url@,
        },
{
}

} // verus!
