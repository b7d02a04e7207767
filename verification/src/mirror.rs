//! A walk through a scene that is streamed to a bridge in the same process.
//!
//! The area of interest moves step by step, the working set follows, and a
//! [`FakeBridge`] rebuilds the scene from the messages alone. Pins are written
//! back, picks are answered, and a bridge that left is brought up to date by a
//! snapshot.

use crate::bridge::{
    diff_messages, picked, snapshot_of, state_of, upserts_of, BridgeServer, MsgView, RayHit,
};
use crate::fake_bridge::{
    all_applied, applied, cache_after, complete, failed_on, fetched, geometry_loaded,
    kept_or_fetched, law_snapshot_rebuilds_the_scene, lemma_cache_grows, needing, FakeBridge,
    SceneView,
};
use crate::hydrate::{CacheView, LoadError, PayloadCache, PayloadLoader};
use crate::interest::{Hit, SubscriptionId};
use crate::lsg::{EntityId, Lsg, LsgView, Transform};
use crate::model::{group_models, views};
use crate::overlay::{OverlayView, PinView, TwinOverlay};
use crate::pipeline::{mirrors, released_by, taken_by, Advance, FlowView, Pipeline};
use crate::rsg::{
    coherent, counted, expired, kept_or_opened, lemma_counted_grows, opened, subscribed, Rsg,
    RsgDiff, RsgView,
};
use crate::serve::{law_bridge_keeps_up, lemma_active_for, shows};
use crate::table::{ascending, IdMap};
use vstd::prelude::*;
use vstd::string::*;

verus! {

/// What one step sent to the bridge.
#[derive(Debug)]
pub struct Streamed {
    pub advance: Advance,
    /// How many messages were sent.
    pub messages: usize,
    /// For how many entities the bridge loaded geometry.
    pub hydrated: usize,
}

/// A pipeline, the server that encodes what it does, and the bridge that is told.
pub struct Mirror<L: PayloadLoader> {
    pub flow: Pipeline<L>,
    pub server: BridgeServer,
    pub bridge: FakeBridge,
}

/// What a bridge holds when it has applied the diff of a subscription.
pub open spec fn streamed(
    scene: SceneView,
    after: FlowView,
    s: SubscriptionId,
    lsg: LsgView,
    overlay: OverlayView,
) -> SceneView {
    all_applied(
        scene,
        diff_messages(after.rsg.diff_of(s), lsg, after.drained(s).rsg, overlay),
    )
}

/// The payload cache when a bridge has loaded all the geometry that it needs.
pub open spec fn hydrated_cache(c: CacheView, scene: SceneView) -> CacheView {
    cache_after(c, scene, ascending(scene.scene.dom()))
}

/// Loading the geometry of a bridge stopped: the counters have no room for it, and
/// nothing was loaded, or the loader refused one entity's after those before it
/// were loaded.
pub open spec fn hydration_stopped<L: PayloadLoader>(
    shown: SceneView,
    scene: SceneView,
    before: CacheView,
    after: PayloadCache<L>,
    e: LoadError,
) -> bool {
    let ids = ascending(shown.scene.dom());
    if before.acquisitions + shown.scene.dom().len() > usize::MAX {
        &&& scene == shown && after@ == before
        &&& e.message@ == "too many payload references"@
    } else {
        exists|i: int|
            {
                &&& 0 <= i < ids.len()
                &&& after@ == #[trigger] cache_after(before, shown, ids.take(i))
                &&& geometry_loaded(shown, scene, after, ids.take(i))
                &&& failed_on(shown.scene[ids[i]], after.source(), e)
            }
    }
}

/// What is loaded after a step that the bridge followed: what was loaded before and
/// stayed, what the activations opened, and what the bridge fetched on top. `kept`
/// is what the working set left loaded.
pub open spec fn carried<L: PayloadLoader>(
    before: PayloadCache<L>,
    after: PayloadCache<L>,
    v: FlowView,
    lsg: LsgView,
    hits: Map<u64, Vec<Hit>>,
    kept: CacheView,
    shown: SceneView,
) -> bool {
    let on = taken_by(v.interest, lsg, hits);
    let ids = ascending(shown.scene.dom());
    forall|key: Seq<char>| #[trigger]
        after@.refs.contains_key(key) ==> if !kept.refs.contains_key(key) {
            fetched(kept, shown, ids, before.source(), key, *after.payload_at(key))
        } else if before@.refs.contains_key(key) {
            after.payload_at(key) == before.payload_at(key)
        } else {
            opened(v.rsg, before@, lsg, on, before.source(), key, *after.payload_at(key))
        }
}

/// Loads the geometry that a bridge needs, where the counters have room.
fn hydrate<L: PayloadLoader>(bridge: &mut FakeBridge, cache: &mut PayloadCache<L>) -> (r: Result<
    usize,
    LoadError,
>)
    requires
        old(cache).wf(),
    ensures
        final(cache).wf(),
        final(cache).source() == old(cache).source(),
        kept_or_fetched(
            *old(cache),
            *final(cache),
            old(bridge)@,
            ascending(old(bridge)@.scene.dom()),
        ),
        forall|key: Seq<char>| #[trigger]
            old(cache)@.refs.contains_key(key) ==> final(cache)@.refs.contains_key(key)
                && final(cache)@.refs[key] >= old(cache)@.refs[key],
        match r {
            Ok(n) => {
                let ids = ascending(old(bridge)@.scene.dom());
                &&& n == needing(old(bridge)@, ids)
                &&& geometry_loaded(old(bridge)@, final(bridge)@, *final(cache), ids)
                &&& complete(final(bridge)@)
                &&& final(cache)@ == hydrated_cache(old(cache)@, old(bridge)@)
            },
            Err(e) => hydration_stopped(
                old(bridge)@,
                final(bridge)@,
                old(cache)@,
                *final(cache),
                e,
            ),
        },
{
    if !cache.has_room(bridge.len()) {
        return Err(LoadError { message: "too many payload references".to_owned() });
    }
    let ghost shown = bridge@;
    let ghost ids = ascending(shown.scene.dom());
    let r = bridge.hydrate(cache);
    proof {
        if r is Ok {
            lemma_cache_grows(old(cache)@, shown, ids);
        } else {
            let i = choose|i: int|
                {
                    &&& 0 <= i < ids.len()
                    &&& cache@ == #[trigger] cache_after(old(cache)@, shown, ids.take(i))
                    &&& geometry_loaded(shown, bridge@, *cache, ids.take(i))
                    &&& failed_on(shown.scene[ids[i]], old(cache).source(), r->Err_0)
                };
            lemma_cache_grows(old(cache)@, shown, ids.take(i));
        }
    }
    r
}

/// What a bridge loads leaves the pages their payloads.
proof fn lemma_still_coherent<L: PayloadLoader>(
    rsg: Rsg,
    c: PayloadCache<L>,
    d: PayloadCache<L>,
    v: SceneView,
    ids: Seq<u64>,
)
    requires
        coherent(rsg, c),
        counted(rsg@.pages, c@),
        kept_or_fetched(c, d, v, ids),
        forall|key: Seq<char>| #[trigger]
            c@.refs.contains_key(key) ==> d@.refs.contains_key(key) && d@.refs[key]
                >= c@.refs[key],
    ensures
        coherent(rsg, d),
        counted(rsg@.pages, d@),
{
    lemma_counted_grows(rsg@.pages, rsg@.pages, c@, d@);
    assert forall|id: EntityId| #[trigger]
        rsg@.has(id) implies match rsg@.pages[id.0].payload_key {
        Some(key) => d@.refs.contains_key(key) && rsg.payload(id) == Some(d.payload_at(key)),
        None => rsg.payload(id) is None,
    } by {
        match rsg@.pages[id.0].payload_key {
            Some(key) => {
                assert(c@.refs.contains_key(key));
            },
            None => {},
        }
    }
}

impl<L: PayloadLoader> Mirror<L> {
    /// The pipeline is well formed: each resident page holds the payload that is
    /// loaded under its key.
    pub open spec fn wf(&self) -> bool {
        self.flow.wf()
    }

    /// Nothing subscribed, and nothing shown.
    pub fn new(grace: u64, loader: L) -> (m: Self)
        ensures
            m.wf(),
            m.flow.cache.source() == loader,
            m.flow@.rsg == (RsgView {
                pages: Map::empty(),
                pending: Map::empty(),
                grace,
                diffs: Map::empty(),
            }),
            m.flow@.interest.subs == Map::<u64, crate::interest::SubscriptionView>::empty(),
            m.flow@.interest.active == Map::<u64, Set<u64>>::empty(),
            m.flow@.payloads == (CacheView { refs: Map::empty(), load_calls: 0, acquisitions: 0 }),
            m.server.checkpoint() == 0,
            m.bridge@ == (SceneView {
                scene: Map::empty(),
                protocol: None,
                scene_revision: 0,
                last_seq: 0,
                last_pick: None,
                in_snapshot: false,
            }),
    {
        Mirror {
            flow: Pipeline::new(grace, loader),
            server: BridgeServer::new(),
            bridge: FakeBridge::new(),
        }
    }

    /// Greets the bridge.
    pub fn greet(&mut self, lsg: &Lsg)
        requires
            old(self).wf(),
        ensures
            final(self).wf(),
            final(self).flow == old(self).flow,
            final(self).server == old(self).server,
            final(self).bridge@ == (SceneView {
                protocol: Some("vf.bridge.v1"@),
                scene_revision: lsg@.revision,
                ..old(self).bridge@
            }),
    {
        let m = self.server.hello(lsg);
        self.bridge.apply_one(&m);
    }

    /// One step: the working set follows, and the bridge applies the messages of
    /// what changed and loads the geometry that it needs. A bridge that showed what
    /// was active shows what is active now.
    pub fn stream(
        &mut self,
        sub: SubscriptionId,
        lsg: &Lsg,
        hits: &IdMap<Vec<Hit>>,
        now: u64,
        overlay: &TwinOverlay,
    ) -> (r: Result<Streamed, LoadError>)
        requires
            old(self).wf(),
            lsg.wf(),
        ensures
            final(self).wf(),
            final(self).server == old(self).server,
            final(self).flow.cache.source() == old(self).flow.cache.source(),
            ({
                let source = old(self).flow.cache.source();
                let interest = old(self).flow@.interest;
                let mid = old(self).flow@.followed(lsg@, hits@, now);
                let after = mid.evicted(now);
                let shown = streamed(old(self).bridge@, after, sub, lsg@, overlay@);
                match r {
                    Ok(s) => {
                        &&& old(self).flow@.has_room(lsg@, hits@)
                        &&& s.advance.passage.transitions.activated@ == taken_by(
                            interest,
                            lsg@,
                            hits@,
                        )
                        &&& s.advance.passage.transitions.deactivated@ == released_by(
                            interest,
                            lsg@,
                            hits@,
                        )
                        &&& s.advance.passage.evicted@ == expired(mid.rsg, now).map_values(
                            |k: u64| EntityId(k),
                        )
                        &&& s.advance.diff@ == after.rsg.diff_of(sub)
                        &&& s.advance.active == after.interest.active_of(sub).len()
                        &&& s.messages == diff_messages(
                            after.rsg.diff_of(sub),
                            lsg@,
                            after.drained(sub).rsg,
                            overlay@,
                        ).len()
                        &&& s.hydrated == needing(shown, ascending(shown.scene.dom()))
                        &&& final(self).flow@ == (FlowView {
                            payloads: hydrated_cache(after.payloads, shown),
                            ..after.drained(sub)
                        })
                        &&& geometry_loaded(
                            shown,
                            final(self).bridge@,
                            final(self).flow.cache,
                            ascending(shown.scene.dom()),
                        )
                        &&& complete(final(self).bridge@)
                        &&& carried(
                            old(self).flow.cache,
                            final(self).flow.cache,
                            old(self).flow@,
                            lsg@,
                            hits@,
                            after.payloads,
                            shown,
                        )
                    },
                    Err(e) => {
                        ||| {
                            &&& old(self).flow@.failed(final(self).flow@, source, lsg@, hits@, e)
                            &&& final(self).bridge@ == old(self).bridge@
                            &&& kept_or_opened(
                                old(self).flow.cache,
                                final(self).flow.cache,
                                old(self).flow@.rsg,
                                lsg@,
                                taken_by(interest, lsg@, hits@),
                            )
                        }
                        ||| {
                            &&& final(self).flow@ == (FlowView {
                                payloads: final(self).flow@.payloads,
                                ..after.drained(sub)
                            })
                            &&& hydration_stopped(
                                shown,
                                final(self).bridge@,
                                after.payloads,
                                final(self).flow.cache,
                                e,
                            )
                            &&& carried(
                                old(self).flow.cache,
                                final(self).flow.cache,
                                old(self).flow@,
                                lsg@,
                                hits@,
                                after.payloads,
                                shown,
                            )
                        }
                    },
                }
            }),
            r is Ok && old(self).in_step(sub) ==> final(self).in_step(sub),
    {
        broadcast use group_models;

        let ghost before = self.flow@;
        let ghost scene = self.bridge@;
        let advance = match self.flow.advance(sub, lsg, hits, now) {
            Ok(a) => a,
            Err(e) => return Err(e),
        };
        let ghost after = before.followed(lsg@, hits@, now).evicted(now);
        let msgs = self.server.encode_diff(sub, &advance.diff, lsg, &self.flow.rsg, overlay);
        let messages: usize = msgs.len();
        self.bridge.apply(&msgs);
        let ghost shown = self.bridge@;
        let ghost ids = ascending(shown.scene.dom());
        let ghost cache = self.flow.cache;
        let r = hydrate(&mut self.bridge, &mut self.flow.cache);
        proof {
            lemma_still_coherent(self.flow.rsg, cache, self.flow.cache, shown, ids);
        }
        let hydrated: usize = match r {
            Ok(n) => n,
            Err(e) => return Err(e),
        };
        proof {
            assert(shown == streamed(scene, after, sub, lsg@, overlay@));
            if old(self).in_step(sub) {
                self.flow.interest.lemma_finite();
                old(self).flow.interest.lemma_finite();
                law_bridge_keeps_up(
                    scene,
                    before,
                    sub,
                    lsg@,
                    hits@,
                    now,
                    after.drained(sub).rsg,
                    overlay@,
                );
                assert forall|k: u64| #[trigger] self.bridge@.scene.contains_key(k)
                    <==> self.flow@.interest.active_of(sub).contains(k) by {
                    assert(self.bridge@.scene.dom().contains(k) == shown.scene.dom().contains(k));
                    assert(shown.scene.contains_key(k) <==> after.interest.active_of(sub).contains(
                        k,
                    ));
                }
            }
        }
        Ok(Streamed { advance, messages, hydrated })
    }

    /// The bridge shows what is active for a subscription, and its diff is drained.
    pub open spec fn in_step(&self, sub: SubscriptionId) -> bool {
        &&& shows(self.bridge@, self.flow@.interest, sub)
        &&& self.flow@.rsg.diff_of(sub) == crate::rsg::no_change()
    }

    /// Does the bridge show as many entities as are active?
    pub fn mirrors_active_set(&self, sub: SubscriptionId) -> (b: bool)
        ensures
            b == (self.bridge@.scene.dom().len() == self.flow@.interest.active_of(sub).len()),
            self.in_step(sub) ==> b,
    {
        proof {
            if self.in_step(sub) {
                assert(self.bridge@.scene.dom() =~= self.flow@.interest.active_of(sub));
            }
        }
        self.bridge.len() == self.flow.interest.active_count(sub)
    }

    /// Answers a pick of the bridge from the entities that its ray hits.
    pub fn pick(&mut self, sub: SubscriptionId, request_id: u64, hits: &[RayHit], lsg: &Lsg)
        requires
            old(self).wf(),
        ensures
            final(self).wf(),
            final(self).flow == old(self).flow,
            final(self).server == old(self).server,
            final(self).bridge@ == (SceneView {
                last_pick: match picked(old(self).flow@.rsg, lsg@, sub, hits@) {
                    Some(h) => Some(h.id),
                    None => None,
                },
                ..old(self).bridge@
            }),
    {
        let m = self.server.coarse_pick(sub, request_id, hits, lsg, &self.flow.rsg);
        self.bridge.apply_one(&m);
    }

    /// Commits a pin, and sends the bridge the confirmation and the entity anew.
    /// Returns the new revision of the overlay. What the bridge then shows of an
    /// entity of the index is where it was pinned.
    pub fn pin(
        &mut self,
        id: EntityId,
        prim_path: &str,
        transform: Transform,
        pinned_by: Option<&str>,
        at_ms: i64,
        lsg: &Lsg,
        overlay: &mut TwinOverlay,
    ) -> (revision: u64)
        requires
            old(self).wf(),
            lsg.wf(),
            old(overlay).wf(),
            old(overlay)@.revision < u64::MAX,
        ensures
            final(self).wf(),
            final(overlay).wf(),
            final(self).flow == old(self).flow,
            final(self).server == old(self).server,
            revision == old(overlay)@.revision + 1,
            final(overlay)@ == old(overlay)@.pinned(
                id,
                (PinView {
                    prim_path: prim_path@,
                    transform,
                    pinned_by: match pinned_by {
                        Some(s) => Some(s@),
                        None => None,
                    },
                    at_ms,
                    revision: 0,
                }),
            ),
            final(self).bridge@ == all_applied(
                applied(old(self).bridge@, MsgView::PinConfirm { id, transform, revision }),
                upserts_of(seq![id], lsg@, old(self).flow@.rsg, final(overlay)@),
            ),
            lsg@.has(id) ==> {
                &&& final(self).bridge@.has(id)
                &&& final(self).bridge@.scene[id.0].state.transform == transform
            },
    {
        broadcast use group_models;

        let confirm = self.server.handle_pin(id, prim_path, transform, pinned_by, at_ms, overlay);
        let revision: u64 = overlay.revision();
        self.bridge.apply_one(&confirm);
        let ghost confirmed = self.bridge@;
        let mut ids: Vec<EntityId> = Vec::new();
        ids.push(id);
        let diff = RsgDiff { upserts: ids, removes: Vec::new() };
        let msgs = self.server.encode_diff(0, &diff, lsg, &self.flow.rsg, overlay);
        proof {
            let ups = upserts_of(seq![id], lsg@, self.flow@.rsg, overlay@);
            assert(diff@.upserts =~= seq![id]);
            assert(crate::bridge::removes_of(diff@.removes) =~= Seq::empty());
            assert(views(msgs@) =~= ups);
            lemma_one_upsert(confirmed, id, lsg@, self.flow@.rsg, overlay@);
        }
        self.bridge.apply(&msgs);
        revision
    }

    /// The bridge leaves, comes back and is brought up to date: it throws its scene
    /// away, is greeted, applies a snapshot and loads geometry. Returns how many
    /// messages the snapshot had.
    pub fn resync(&mut self, sub: SubscriptionId, lsg: &Lsg, overlay: &TwinOverlay) -> (r: Result<
        usize,
        LoadError,
    >)
        requires
            old(self).wf(),
            lsg.wf(),
            old(self).server.checkpoint() < u64::MAX,
        ensures
            final(self).wf(),
            final(self).flow.interest == old(self).flow.interest,
            final(self).flow.rsg == old(self).flow.rsg,
            final(self).flow.cache.source() == old(self).flow.cache.source(),
            final(self).server.checkpoint() == old(self).server.checkpoint() + 1,
            ({
                let snapshot = snapshot_of(
                    sub,
                    lsg@,
                    old(self).flow@.rsg,
                    overlay@,
                    final(self).server.checkpoint(),
                );
                let shown = all_applied(
                    (SceneView {
                        scene: Map::empty(),
                        protocol: Some("vf.bridge.v1"@),
                        scene_revision: lsg@.revision,
                        last_seq: 0,
                        in_snapshot: false,
                        ..old(self).bridge@
                    }),
                    snapshot,
                );
                let ids = ascending(shown.scene.dom());
                &&& kept_or_fetched(
                    old(self).flow.cache,
                    final(self).flow.cache,
                    shown,
                    ids,
                )
                &&& match r {
                    Ok(n) => {
                        &&& n == snapshot.len()
                        &&& geometry_loaded(
                            shown,
                            final(self).bridge@,
                            final(self).flow.cache,
                            ids,
                        )
                        &&& complete(final(self).bridge@)
                        &&& final(self).flow@.payloads == hydrated_cache(
                            old(self).flow@.payloads,
                            shown,
                        )
                    },
                    Err(e) => hydration_stopped(
                        shown,
                        final(self).bridge@,
                        old(self).flow@.payloads,
                        final(self).flow.cache,
                        e,
                    ),
                }
            }),
            r is Ok && mirrors(old(self).flow@) ==> forall|k: u64|
                lsg@.has(EntityId(k)) ==> (final(self).bridge@.scene.contains_key(k)
                    <==> #[trigger] old(self).flow@.interest.active_of(sub).contains(k)),
    {
        self.bridge.disconnect();
        self.greet(lsg);
        let msgs = self.server.snapshot(sub, lsg, &self.flow.rsg, overlay);
        let n: usize = msgs.len();
        let ghost blank = self.bridge@;
        self.bridge.apply(&msgs);
        let ghost shown = self.bridge@;
        let ghost cache = self.flow.cache;
        let r = hydrate(&mut self.bridge, &mut self.flow.cache);
        proof {
            lemma_still_coherent(
                self.flow.rsg,
                cache,
                self.flow.cache,
                shown,
                ascending(shown.scene.dom()),
            );
        }
        match r {
            Ok(_) => {
                proof {
                    let rsg = self.flow@.rsg;
                    self.flow.rsg.lemma_finite();
                    law_snapshot_rebuilds_the_scene(
                        blank,
                        sub,
                        lsg@,
                        rsg,
                        overlay@,
                        self.server.checkpoint(),
                    );
                    if mirrors(old(self).flow@) {
                        assert forall|k: u64| lsg@.has(EntityId(k)) implies (
                        self.bridge@.scene.contains_key(k) <==> #[trigger] old(
                            self,
                        ).flow@.interest.active_of(sub).contains(k)) by {
                            lemma_active_for(rsg, sub, EntityId(k));
                            assert(subscribed(rsg, sub, EntityId(k)) <==> old(
                                self,
                            ).flow@.interest.active_of(sub).contains(k));
                            assert(self.bridge@.scene.dom().contains(k)
                                == shown.scene.dom().contains(k));
                        }
                    }
                }
                Ok(n)
            },
            Err(e) => Err(e),
        }
    }
}

proof fn lemma_one_upsert(
    v: SceneView,
    id: EntityId,
    lsg: LsgView,
    rsg: RsgView,
    overlay: OverlayView,
)
    requires
        lsg.valid(),
    ensures
        lsg.has(id) ==> {
            let w = all_applied(v, upserts_of(seq![id], lsg, rsg, overlay));
            w.has(id) && w.scene[id.0].state == state_of(id, lsg, rsg, overlay)
        },
{
    let ups = upserts_of(seq![id], lsg, rsg, overlay);
    reveal_with_fuel(all_applied, 2);
    reveal_with_fuel(upserts_of, 2);
    assert(seq![id].drop_last() =~= Seq::<EntityId>::empty());
    assert(seq![id].last() == id);
    if lsg.has(id) {
        let m = MsgView::UpsertEntity(state_of(id, lsg, rsg, overlay));
        assert(ups =~= seq![m]);
        assert(ups.drop_last() =~= Seq::<MsgView>::empty());
        assert(ups.last() == m);
    }
}

} // verus!
