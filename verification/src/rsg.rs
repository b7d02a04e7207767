//! Runtime Scene Graph: the working set that interest brings in.
//!
//! There is one page per active entity, shared by the subscriptions that refer to
//! it. A page without subscribers is evicted after a grace period, and its payload
//! goes with it. Each subscription collects the changes of its own view. This
//! module only reads the index.

use crate::dict::TextMap;
use crate::hydrate::{
    acquired, key_of, released, CacheView, HydratedPayload, LoadError, PayloadCache, PayloadLoader,
};
use crate::interest::{SubscriptionId, Transitions};
use crate::lsg::{EntityId, GeomRefView, Lsg, LsgView};
use crate::model::{group_models, map_views, opt_view};
use crate::resolver::TelemetryValue;
use crate::table::{ascending, lists, IdMap, IdSet};
use std::sync::Arc;
use vstd::prelude::*;
use vstd::string::*;

verus! {

/// A page of the working set: the runtime facts of an active entity.
#[derive(Debug)]
pub struct RuntimeEntity {
    pub id: EntityId,
    pub prim_path: String,
    pub lsg_revision: u64,
    /// The subscriptions that refer to the entity.
    pub subscribers: IdSet,
    /// What opening the payload surfaced.
    pub hydrated: Option<Arc<HydratedPayload>>,
    /// The key under which the payload is cached.
    pub payload_key: Option<String>,
    /// Resolved telemetry by attribute.
    pub telemetry: TextMap<TelemetryValue>,
}

/// The model of a page, without the payload itself.
pub struct PageView {
    pub id: EntityId,
    pub prim_path: Seq<char>,
    pub lsg_revision: u64,
    pub subscribers: Set<u64>,
    pub payload_key: Option<Seq<char>>,
    pub telemetry: Map<Seq<char>, TelemetryValue>,
}

impl View for RuntimeEntity {
    type V = PageView;

    open spec fn view(&self) -> PageView {
        PageView {
            id: self.id,
            prim_path: self.prim_path@,
            lsg_revision: self.lsg_revision,
            subscribers: self.subscribers@,
            payload_key: opt_view(self.payload_key),
            telemetry: self.telemetry@,
        }
    }
}

/// What changed in the view of one subscription.
#[derive(Debug)]
pub struct RsgDiff {
    pub upserts: Vec<EntityId>,
    pub removes: Vec<EntityId>,
}

pub struct DiffView {
    pub upserts: Seq<EntityId>,
    pub removes: Seq<EntityId>,
}

impl View for RsgDiff {
    type V = DiffView;

    open spec fn view(&self) -> DiffView {
        DiffView { upserts: self.upserts@, removes: self.removes@ }
    }
}

pub open spec fn no_change() -> DiffView {
    DiffView { upserts: Seq::empty(), removes: Seq::empty() }
}

impl RsgDiff {
    pub fn is_empty(&self) -> (b: bool)
        ensures
            b == (self@.upserts.len() == 0 && self@.removes.len() == 0),
    {
        self.upserts.len() == 0 && self.removes.len() == 0
    }
}

/// The model of an [`Rsg`].
pub struct RsgView {
    pub pages: Map<u64, PageView>,
    /// The pages without subscribers, each with the tick at which its grace ends.
    pub pending: Map<u64, u64>,
    pub grace: u64,
    pub diffs: Map<u64, DiffView>,
}

impl RsgView {
    /// Each page stands under its own id, and those that await eviction are the
    /// ones without subscribers.
    pub open spec fn valid(self) -> bool {
        &&& forall|k: u64| #[trigger]
            self.pages.contains_key(k) ==> self.pages[k].id == EntityId(k)
        &&& forall|k: u64| #[trigger]
            self.pages.contains_key(k) && self.pages[k].subscribers =~= Set::<u64>::empty()
                ==> self.pending.contains_key(k)
        &&& forall|k: u64| #[trigger]
            self.pending.contains_key(k) ==> self.pages.contains_key(k)
                && self.pages[k].subscribers =~= Set::<u64>::empty()
    }

    /// The entity is in the working set.
    pub open spec fn has(self, id: EntityId) -> bool {
        self.pages.contains_key(id.0)
    }

    /// What a subscription has collected.
    pub open spec fn diff_of(self, sub: SubscriptionId) -> DiffView {
        if self.diffs.contains_key(sub) {
            self.diffs[sub]
        } else {
            no_change()
        }
    }

    /// A subscription collects an upsert, which takes the place of a removal.
    pub open spec fn with_upsert(self, sub: SubscriptionId, id: EntityId) -> RsgView {
        let d = self.diff_of(sub);
        RsgView {
            diffs: self.diffs.insert(
                sub,
                DiffView { upserts: d.upserts.push(id), removes: without(d.removes, id) },
            ),
            ..self
        }
    }

    /// A subscription collects a removal, which takes the place of upserts.
    pub open spec fn with_remove(self, sub: SubscriptionId, id: EntityId) -> RsgView {
        let d = self.diff_of(sub);
        RsgView {
            diffs: self.diffs.insert(
                sub,
                DiffView { upserts: without(d.upserts, id), removes: d.removes.push(id) },
            ),
            ..self
        }
    }
}

/// The list without an id.
pub open spec fn without(ids: Seq<EntityId>, id: EntityId) -> Seq<EntityId> {
    ids.filter(|e: EntityId| e != id)
}

pub proof fn lemma_without(ids: Seq<EntityId>, id: EntityId)
    ensures
        forall|e: EntityId| #[trigger]
            without(ids, id).contains(e) <==> ids.contains(e) && e != id,
    decreases ids.len(),
{
    reveal(Seq::filter);
    if ids.len() > 0 {
        let init = ids.drop_last();
        let last = ids.last();
        lemma_without(init, id);
        assert(ids =~= init.push(last));
        assert forall|e: EntityId| #[trigger] without(ids, id).contains(e) <==> ids.contains(e) && e
            != id by {
            lemma_pushed(init, last, e);
            lemma_pushed(without(init, id), last, e);
            assert(without(init, id).contains(e) <==> init.contains(e) && e != id);
        }
    }
}

pub proof fn lemma_pushed(ids: Seq<EntityId>, last: EntityId, id: EntityId)
    ensures
        ids.push(last).contains(id) <==> ids.contains(id) || id == last,
{
    if ids.contains(id) {
        let i = choose|i: int| 0 <= i < ids.len() && ids[i] == id;
        assert(ids.push(last)[i] == id);
    }
    assert(ids.push(last)[ids.len() as int] == last);
    if ids.push(last).contains(id) && id != last {
        let i = choose|i: int| 0 <= i < ids.push(last).len() && ids.push(last)[i] == id;
        assert(ids[i] == id);
    }
}

/// Takes an id out of a list.
fn drop_id(ids: &Vec<EntityId>, id: EntityId) -> (r: Vec<EntityId>)
    ensures
        r@ == without(ids@, id),
{
    let mut r: Vec<EntityId> = Vec::new();
    let mut i: usize = 0;
    proof {
        reveal(Seq::filter);
        assert(r@ =~= without(ids@.take(0), id));
    }
    while i < ids.len()
        invariant
            i <= ids@.len(),
            r@ == without(ids@.take(i as int), id),
        decreases ids@.len() - i,
    {
        proof {
            reveal(Seq::filter);
            assert(ids@.take(i + 1).drop_last() =~= ids@.take(i as int));
        }
        if ids[i].0 != id.0 {
            r.push(ids[i]);
        }
        i = i + 1;
    }
    proof {
        assert(ids@.take(i as int) =~= ids@);
    }
    r
}

/// The key of the payload of a handle, where there is one.
pub open spec fn opt_key(g: Option<GeomRefView>) -> Option<Seq<char>> {
    match g {
        Some(g) => Some(key_of(g)),
        None => None,
    }
}

/// The page made for an entity of the index.
pub open spec fn new_page(lsg: LsgView, sub: SubscriptionId, id: EntityId) -> PageView {
    PageView {
        id,
        prim_path: lsg.entities[id.0].prim_path,
        lsg_revision: lsg.revision,
        subscribers: Set::empty().insert(sub),
        payload_key: opt_key(lsg.entities[id.0].geom_ref),
        telemetry: Map::empty(),
    }
}

/// An entity becomes active for a subscription: its page gets a subscriber, or is
/// made. Eviction is called off. An entity that the index does not have is passed
/// over.
pub open spec fn activated(
    v: RsgView,
    lsg: LsgView,
    sub: SubscriptionId,
    id: EntityId,
) -> RsgView {
    let w = RsgView { pending: v.pending.remove(id.0), ..v };
    if v.has(id) {
        let page = v.pages[id.0];
        RsgView {
            pages: v.pages.insert(
                id.0,
                PageView { subscribers: page.subscribers.insert(sub), ..page },
            ),
            ..w
        }.with_upsert(sub, id)
    } else if lsg.has(id) {
        RsgView { pages: v.pages.insert(id.0, new_page(lsg, sub, id)), ..w }.with_upsert(sub, id)
    } else {
        w
    }
}

/// What activating an entity does to the payload cache: a page that is made
/// refers to its payload.
pub open spec fn activated_cache(
    c: CacheView,
    v: RsgView,
    lsg: LsgView,
    id: EntityId,
) -> CacheView {
    if !v.has(id) && lsg.has(id) && lsg.entities[id.0].geom_ref is Some {
        acquired(c, key_of(lsg.entities[id.0].geom_ref->0))
    } else {
        c
    }
}

/// A time later by the grace period, at most the end of time.
pub open spec fn deadline(now: u64, grace: u64) -> u64 {
    if now + grace > u64::MAX {
        u64::MAX
    } else {
        (now + grace) as u64
    }
}

/// An entity is no longer active for a subscription: its page loses the
/// subscriber, and with the last one the grace period starts.
pub open spec fn deactivated(v: RsgView, sub: SubscriptionId, id: EntityId, now: u64) -> RsgView {
    if v.has(id) {
        let page = v.pages[id.0];
        let left = page.subscribers.remove(sub);
        let w = RsgView {
            pages: v.pages.insert(id.0, PageView { subscribers: left, ..page }),
            ..v
        };
        if left =~= Set::<u64>::empty() {
            RsgView { pending: v.pending.insert(id.0, deadline(now, v.grace)), ..w }.with_remove(
                sub,
                id,
            )
        } else {
            w.with_remove(sub, id)
        }
    } else {
        v.with_remove(sub, id)
    }
}

/// The activations of a list, one after the other, with their payloads.
pub open spec fn all_activated(
    v: RsgView,
    c: CacheView,
    lsg: LsgView,
    list: Seq<(SubscriptionId, EntityId)>,
) -> (RsgView, CacheView)
    decreases list.len(),
{
    if list.len() == 0 {
        (v, c)
    } else {
        let (w, d) = all_activated(v, c, lsg, list.drop_last());
        let (sub, id) = list.last();
        (activated(w, lsg, sub, id), activated_cache(d, w, lsg, id))
    }
}

/// The deactivations of a list, one after the other.
pub open spec fn all_deactivated(
    v: RsgView,
    list: Seq<(SubscriptionId, EntityId)>,
    now: u64,
) -> RsgView
    decreases list.len(),
{
    if list.len() == 0 {
        v
    } else {
        let (sub, id) = list.last();
        deactivated(all_deactivated(v, list.drop_last(), now), sub, id, now)
    }
}

/// The pages whose grace has ended.
pub open spec fn expired(v: RsgView, now: u64) -> Seq<u64> {
    ascending(v.pending.dom()).filter(|k: u64| v.pending[k] <= now)
}

/// The payload references that the listed pages give up.
pub open spec fn all_released(c: CacheView, v: RsgView, ids: Seq<u64>) -> CacheView
    decreases ids.len(),
{
    if ids.len() == 0 {
        c
    } else {
        let d = all_released(c, v, ids.drop_last());
        match v.pages[ids.last()].payload_key {
            Some(key) => released(d, key),
            None => d,
        }
    }
}

/// The working set without the pages whose grace has ended.
pub open spec fn without_expired(v: RsgView, now: u64) -> RsgView {
    RsgView {
        pages: Map::new(
            |k: u64| v.pages.contains_key(k) && !(v.pending.contains_key(k) && v.pending[k] <= now),
            |k: u64| v.pages[k],
        ),
        pending: Map::new(
            |k: u64| v.pending.contains_key(k) && v.pending[k] > now,
            |k: u64| v.pending[k],
        ),
        ..v
    }
}

pub proof fn lemma_activated_valid(v: RsgView, lsg: LsgView, sub: SubscriptionId, id: EntityId)
    requires
        v.valid(),
    ensures
        activated(v, lsg, sub, id).valid(),
{
    let w = activated(v, lsg, sub, id);
    if v.has(id) || lsg.has(id) {
        assert(w.pages[id.0].subscribers.contains(sub));
        assert(!(w.pages[id.0].subscribers =~= Set::<u64>::empty()));
    }
    assert forall|k: u64| #[trigger]
        w.pages.contains_key(k) && w.pages[k].subscribers =~= Set::<u64>::empty() implies
        w.pending.contains_key(k) by {
        assert(v.pages.contains_key(k));
    }
    assert forall|k: u64| #[trigger] w.pending.contains_key(k) implies w.pages.contains_key(k)
        && w.pages[k].subscribers =~= Set::<u64>::empty() by {
        assert(v.pending.contains_key(k));
    }
}

pub proof fn lemma_deactivated_valid(v: RsgView, sub: SubscriptionId, id: EntityId, now: u64)
    requires
        v.valid(),
    ensures
        deactivated(v, sub, id, now).valid(),
{
    let w = deactivated(v, sub, id, now);
    assert forall|k: u64| #[trigger]
        w.pages.contains_key(k) && w.pages[k].subscribers =~= Set::<u64>::empty() implies
        w.pending.contains_key(k) by {
        assert(v.pages.contains_key(k));
    }
    assert forall|k: u64| #[trigger] w.pending.contains_key(k) implies w.pages.contains_key(k)
        && w.pages[k].subscribers =~= Set::<u64>::empty() by {
        if k != id.0 || v.pending.contains_key(k) {
            assert(v.pending.contains_key(k));
            if k == id.0 {
                assert(v.pages[k].subscribers.remove(sub) =~= Set::<u64>::empty());
            }
        }
    }
}

/// The working set.
pub struct Rsg {
    entities: IdMap<RuntimeEntity>,
    pending_evict: IdMap<u64>,
    grace: u64,
    diffs: IdMap<RsgDiff>,
}

impl View for Rsg {
    type V = RsgView;

    closed spec fn view(&self) -> RsgView {
        RsgView {
            pages: map_views(self.entities@),
            pending: self.pending_evict@,
            grace: self.grace,
            diffs: map_views(self.diffs@),
        }
    }
}

/// Each page with a payload key holds the payload that is loaded under the key,
/// and the others hold none.
pub open spec fn coherent<L: PayloadLoader>(rsg: Rsg, cache: PayloadCache<L>) -> bool {
    forall|id: EntityId| #[trigger]
        rsg@.has(id) ==> match rsg@.pages[id.0].payload_key {
            Some(key) => cache@.refs.contains_key(key) && rsg.payload(id) == Some(
                cache.payload_at(key),
            ),
            None => rsg.payload(id) is None,
        }
}

/// The payload came from the loader: one of the activations asked for its key
/// while it was not loaded, and this is what the loader returned for the handle.
pub open spec fn opened<L: PayloadLoader>(
    v: RsgView,
    c: CacheView,
    lsg: LsgView,
    on: Seq<(SubscriptionId, EntityId)>,
    loader: L,
    key: Seq<char>,
    payload: HydratedPayload,
) -> bool {
    exists|i: int|
        {
            let (w, d) = #[trigger] all_activated(v, c, lsg, on.take(i));
            &&& 0 <= i < on.len()
            &&& activation_asks(w, d, lsg, on[i].1)
            &&& key_of(lsg.entities[on[i].1.0].geom_ref->0) == key
            &&& loader.may_load(lsg.entities[on[i].1.0].geom_ref->0, Ok(payload))
        }
}

/// What is loaded after activations: the payloads that were loaded before, and
/// those that the loader returned.
pub open spec fn kept_or_opened<L: PayloadLoader>(
    before: PayloadCache<L>,
    after: PayloadCache<L>,
    v: RsgView,
    lsg: LsgView,
    on: Seq<(SubscriptionId, EntityId)>,
) -> bool {
    forall|key: Seq<char>| #[trigger]
        after@.refs.contains_key(key) ==> if before@.refs.contains_key(key) {
            after.payload_at(key) == before.payload_at(key)
        } else {
            opened(v, before@, lsg, on, before.source(), key, *after.payload_at(key))
        }
}

impl Rsg {
    /// The payload that a page holds.
    pub closed spec fn payload(&self, id: EntityId) -> Option<Arc<HydratedPayload>> {
        self.entities@[id.0].hydrated
    }

    /// The pages fit together, and those with a payload key hold a payload.
    pub open spec fn wf(&self) -> bool {
        &&& self@.valid()
        &&& forall|id: EntityId| #[trigger]
            self@.has(id) ==> (self.payload(id) is Some <==> self@.pages[id.0].payload_key is Some)
    }

    /// The working set is finite.
    pub proof fn lemma_finite(&self)
        ensures
            self@.pages.dom().finite(),
    {
        self.entities.lemma_finite();
        assert(self@.pages.dom() =~= self.entities@.dom());
    }

    pub fn new(grace: u64) -> (r: Self)
        ensures
            r.wf(),
            r@ == (RsgView {
                pages: Map::empty(),
                pending: Map::empty(),
                grace,
                diffs: Map::empty(),
            }),
    {
        broadcast use group_models;

        Rsg { entities: IdMap::new(), pending_evict: IdMap::new(), grace, diffs: IdMap::new() }
    }

    fn note(&mut self, sub: SubscriptionId, id: EntityId, upsert: bool)
        ensures
            final(self)@ == if upsert {
                old(self)@.with_upsert(sub, id)
            } else {
                old(self)@.with_remove(sub, id)
            },
            forall|e: EntityId| #[trigger] final(self).payload(e) == old(self).payload(e),
    {
        broadcast use group_models;

        let mut d = match self.diffs.remove(sub) {
            Some(d) => d,
            None => RsgDiff { upserts: Vec::new(), removes: Vec::new() },
        };
        proof {
            assert(d@.upserts =~= old(self)@.diff_of(sub).upserts);
            assert(d@.removes =~= old(self)@.diff_of(sub).removes);
        }
        if upsert {
            d.upserts.push(id);
            d.removes = drop_id(&d.removes, id);
        } else {
            d.removes.push(id);
            d.upserts = drop_id(&d.upserts, id);
        }
        self.diffs.insert(sub, d);
    }

    /// Makes an entity active for a subscription.
    fn activate<L: PayloadLoader>(
        &mut self,
        sub: SubscriptionId,
        id: EntityId,
        lsg: &Lsg,
        cache: &mut PayloadCache<L>,
    ) -> (r: Result<(), LoadError>)
        requires
            old(self).wf(),
            old(cache).wf(),
            old(cache).room(1),
        ensures
            final(self).wf(),
            final(cache).wf(),
            match r {
                Ok(_) => {
                    &&& final(self)@ == activated(old(self)@, lsg@, sub, id)
                    &&& final(cache)@ == activated_cache(old(cache)@, old(self)@, lsg@, id)
                    &&& !old(self)@.has(id) && lsg@.has(id) ==> match lsg@.entities[id.0].geom_ref {
                        Some(g) => final(self).payload(id) == Some(
                            final(cache).payload_at(key_of(g)),
                        ),
                        None => final(self).payload(id) is None,
                    }
                    &&& activation_asks(old(self)@, old(cache)@, lsg@, id) ==> {
                        let g = lsg@.entities[id.0].geom_ref->0;
                        old(cache).source().may_load(g, Ok(*final(cache).payload_at(key_of(g))))
                    }
                },
                Err(e) => {
                    &&& final(self)@ == old(self)@
                    &&& *final(cache) == *old(cache)
                    &&& activation_asks(old(self)@, old(cache)@, lsg@, id)
                    &&& old(cache).source().may_load(lsg@.entities[id.0].geom_ref->0, Err(e))
                },
            },
            final(cache).source() == old(cache).source(),
            forall|e: EntityId| #[trigger]
                old(self)@.has(e) ==> final(self).payload(e) == old(self).payload(e),
            forall|key: Seq<char>| #[trigger]
                old(cache)@.refs.contains_key(key) ==> final(cache).payload_at(key) == old(
                    cache,
                ).payload_at(key),
    {
        broadcast use group_models;

        let ghost before = self@;
        self.pending_evict.remove(id.0);
        match self.entities.remove(id.0) {
            Some(mut re) => {
                re.subscribers.insert(sub);
                proof {
                    assert(re@.subscribers.contains(sub));
                    assert(!(re@.subscribers =~= Set::<u64>::empty()));
                }
                self.entities.insert(id.0, re);
            },
            None => {
                proof {
                    assert(self@.pages =~= before.pages);
                    assert(self@.pending =~= before.pending);
                }
                let e = match lsg.get(id) {
                    Some(e) => e,
                    None => return Ok(()),
                };
                let (payload_key, hydrated) = match &e.geom_ref {
                    Some(g) => match cache.acquire(g) {
                        Ok((key, payload)) => (Some(key), Some(payload)),
                        Err(err) => return Err(err),
                    },
                    None => (None, None),
                };
                let mut subscribers = IdSet::new();
                subscribers.insert(sub);
                let page = RuntimeEntity {
                    id,
                    prim_path: e.prim_path.clone(),
                    lsg_revision: lsg.revision(),
                    subscribers,
                    hydrated,
                    payload_key,
                    telemetry: TextMap::new(),
                };
                proof {
                    assert(page@ == new_page(lsg@, sub, id));
                    assert(page@.subscribers.contains(sub));
                    assert(!(page@.subscribers =~= Set::<u64>::empty()));
                }
                self.entities.insert(id.0, page);
            },
        }
        let ghost mid = *self;
        self.note(sub, id, true);
        proof {
            assert(self@ == activated(before, lsg@, sub, id));
            lemma_activated_valid(before, lsg@, sub, id);
            assert forall|e: EntityId| #[trigger] self@.has(e) implies (self.payload(e) is Some
                <==> self@.pages[e.0].payload_key is Some) by {
                assert(self.payload(e) == mid.payload(e));
                if e.0 != id.0 {
                    assert(before.has(e));
                    assert(self@.pages[e.0] == before.pages[e.0]);
                } else {
                    assert(e == id);
                    if before.has(id) {
                        assert(old(self).payload(id) is Some <==> before.pages[id.0].payload_key is Some);
                    }
                }
            }
        }
        Ok(())
    }

    /// Makes an entity no longer active for a subscription.
    fn deactivate(&mut self, sub: SubscriptionId, id: EntityId, now: u64)
        requires
            old(self).wf(),
        ensures
            final(self).wf(),
            final(self)@ == deactivated(old(self)@, sub, id, now),
            forall|e: EntityId| #[trigger]
                old(self)@.has(e) ==> final(self).payload(e) == old(self).payload(e),
    {
        broadcast use group_models;

        let ghost before = self@;
        match self.entities.remove(id.0) {
            Some(mut re) => {
                re.subscribers.remove(sub);
                let empty = re.subscribers.is_empty();
                self.entities.insert(id.0, re);
                if empty {
                    let until: u64 = if u64::MAX - now < self.grace {
                        u64::MAX
                    } else {
                        now + self.grace
                    };
                    self.pending_evict.insert(id.0, until);
                }
            },
            None => {
                proof {
                    assert(self@.pages =~= before.pages);
                }
            },
        }
        let ghost mid = *self;
        self.note(sub, id, false);
        proof {
            assert(self@ == deactivated(before, sub, id, now));
            lemma_deactivated_valid(before, sub, id, now);
            assert forall|e: EntityId| #[trigger] self@.has(e) implies (self.payload(e) is Some
                <==> self@.pages[e.0].payload_key is Some) by {
                assert(self.payload(e) == mid.payload(e));
                assert(before.has(e));
                assert(mid.payload(e) == old(self).payload(e));
            }
        }
    }

    /// Applies transitions at the tick `now`. Activations make pages or add
    /// subscribers, and hydrate payloads; deactivations take subscribers away and
    /// start the grace period of pages that have none left. Where a payload cannot
    /// be loaded, what came before it stays applied and nothing after it is.
    pub fn apply<L: PayloadLoader>(
        &mut self,
        transitions: &Transitions,
        lsg: &Lsg,
        cache: &mut PayloadCache<L>,
        now: u64,
    ) -> (r: Result<(), LoadError>)
        requires
            old(self).wf(),
            old(cache).wf(),
            old(cache).room(transitions.activated@.len() as int),
        ensures
            final(self).wf(),
            final(cache).wf(),
            match r {
                Ok(_) => {
                    let (w, d) = all_activated(
                        old(self)@,
                        old(cache)@,
                        lsg@,
                        transitions.activated@,
                    );
                    &&& final(self)@ == all_deactivated(w, transitions.deactivated@, now)
                    &&& final(cache)@ == d
                },
                Err(_) => exists|n: int|
                    {
                        &&& 0 <= n < transitions.activated@.len()
                        &&& (final(self)@, final(cache)@) == #[trigger] all_activated(
                            old(self)@,
                            old(cache)@,
                            lsg@,
                            transitions.activated@.take(n),
                        )
                        &&& activation_asks(
                            final(self)@,
                            final(cache)@,
                            lsg@,
                            transitions.activated@[n].1,
                        )
                        &&& old(cache).source().may_load(
                            lsg@.entities[transitions.activated@[n].1.0].geom_ref->0,
                            Err(r->Err_0),
                        )
                    },
            },
            final(cache).source() == old(cache).source(),
            coherent(*old(self), *old(cache)) ==> coherent(*final(self), *final(cache)),
            kept_or_opened(
                *old(cache),
                *final(cache),
                old(self)@,
                lsg@,
                transitions.activated@,
            ),
            forall|id: EntityId| #[trigger]
                old(self)@.has(id) ==> final(self).payload(id) == old(self).payload(id),
    {
        let ghost on = transitions.activated@;
        let ghost off = transitions.deactivated@;
        let mut i: usize = 0;
        proof {
            assert(on.take(0) =~= Seq::empty());
        }
        while i < transitions.activated.len()
            invariant
                i <= on.len(),
                on == transitions.activated@,
                self.wf(),
                cache.wf(),
                cache.room(on.len() - i),
                cache.source() == old(cache).source(),
                (self@, cache@) == all_activated(
                    old(self)@,
                    old(cache)@,
                    lsg@,
                    on.take(i as int),
                ),
                coherent(*old(self), *old(cache)) ==> coherent(*self, *cache),
                kept_or_opened(*old(cache), *cache, old(self)@, lsg@, on),
                forall|id: EntityId| #[trigger]
                    old(self)@.has(id) ==> self@.has(id) && self.payload(id) == old(self).payload(id),
                forall|key: Seq<char>| #[trigger]
                    old(cache)@.refs.contains_key(key) ==> cache@.refs.contains_key(key),
            decreases on.len() - i,
        {
            let (sub, id) = transitions.activated[i];
            let ghost rsg0 = *self;
            let ghost cache0 = *cache;
            proof {
                assert(on.take(i + 1).drop_last() =~= on.take(i as int));
                assert(on.take(i + 1).last() == on[i as int]);
            }
            match self.activate(sub, id, lsg, cache) {
                Ok(_) => {},
                Err(e) => {
                    proof {
                        assert(self@ == rsg0@);
                        assert forall|e: EntityId| #[trigger] self@.has(e) implies self.payload(e)
                            == rsg0.payload(e) by {
                            assert(rsg0@.has(e));
                        }
                    }
                    return Err(e);
                },
            }
            proof {
                lemma_step_coherent(rsg0, *self, cache0, *cache, lsg@, sub, id);
                lemma_step_opened(*old(cache), cache0, *cache, old(self)@, rsg0@, lsg@, on, i as int);
            }
            i = i + 1;
        }
        proof {
            assert(on.take(i as int) =~= on);
        }
        let ghost w = self@;
        let mut j: usize = 0;
        while j < transitions.deactivated.len()
            invariant
                j <= off.len(),
                off == transitions.deactivated@,
                self.wf(),
                self@ == all_deactivated(w, off.take(j as int), now),
                coherent(*old(self), *old(cache)) ==> coherent(*self, *cache),
                forall|id: EntityId| #[trigger]
                    old(self)@.has(id) ==> self@.has(id) && self.payload(id) == old(self).payload(id),
            decreases off.len() - j,
        {
            let (sub, id) = transitions.deactivated[j];
            let ghost rsg0 = *self;
            proof {
                assert(off.take(j + 1).drop_last() =~= off.take(j as int));
                assert(off.take(j + 1).last() == off[j as int]);
            }
            self.deactivate(sub, id, now);
            proof {
                assert forall|e: EntityId| #[trigger] self@.has(e) <==> rsg0@.has(e) by {}
                assert forall|e: EntityId| #[trigger] self@.has(e) implies self@.pages[e.0].payload_key
                    == rsg0@.pages[e.0].payload_key && self.payload(e) == rsg0.payload(e) by {
                    assert(rsg0@.has(e));
                }
            }
            j = j + 1;
        }
        proof {
            assert(off.take(j as int) =~= off);
        }
        Ok(())
    }
}

proof fn lemma_step_coherent<L: PayloadLoader>(
    r: Rsg,
    s: Rsg,
    c: PayloadCache<L>,
    d: PayloadCache<L>,
    lsg: LsgView,
    sub: SubscriptionId,
    id: EntityId,
)
    requires
        s@ == activated(r@, lsg, sub, id),
        d@ == activated_cache(c@, r@, lsg, id),
        forall|e: EntityId| #[trigger] r@.has(e) ==> s.payload(e) == r.payload(e),
        forall|key: Seq<char>| #[trigger]
            c@.refs.contains_key(key) ==> d.payload_at(key) == c.payload_at(key),
        !r@.has(id) && lsg.has(id) ==> match lsg.entities[id.0].geom_ref {
            Some(g) => s.payload(id) == Some(d.payload_at(key_of(g))),
            None => s.payload(id) is None,
        },
    ensures
        coherent(r, c) ==> coherent(s, d),
        forall|e: EntityId| #[trigger] r@.has(e) ==> s@.has(e),
        forall|key: Seq<char>| #[trigger]
            c@.refs.contains_key(key) ==> d@.refs.contains_key(key),
{
    if coherent(r, c) {
        assert forall|e: EntityId| #[trigger] s@.has(e) implies match s@.pages[e.0].payload_key {
            Some(key) => d@.refs.contains_key(key) && s.payload(e) == Some(d.payload_at(key)),
            None => s.payload(e) is None,
        } by {
            if r@.has(e) {
                assert(s@.pages[e.0].payload_key == r@.pages[e.0].payload_key);
                match r@.pages[e.0].payload_key {
                    Some(key) => {
                        assert(c@.refs.contains_key(key));
                    },
                    None => {},
                }
            } else {
                assert(e == id);
            }
        }
    }
}

proof fn lemma_step_opened<L: PayloadLoader>(
    first: PayloadCache<L>,
    c: PayloadCache<L>,
    d: PayloadCache<L>,
    v: RsgView,
    r: RsgView,
    lsg: LsgView,
    on: Seq<(SubscriptionId, EntityId)>,
    i: int,
)
    requires
        0 <= i < on.len(),
        (r, c@) == all_activated(v, first@, lsg, on.take(i)),
        d@ == activated_cache(c@, r, lsg, on[i].1),
        kept_or_opened(first, c, v, lsg, on),
        forall|key: Seq<char>| #[trigger]
            first@.refs.contains_key(key) ==> c@.refs.contains_key(key),
        forall|key: Seq<char>| #[trigger]
            c@.refs.contains_key(key) ==> d.payload_at(key) == c.payload_at(key),
        activation_asks(r, c@, lsg, on[i].1) ==> {
            let g = lsg.entities[on[i].1.0].geom_ref->0;
            first.source().may_load(g, Ok(*d.payload_at(key_of(g))))
        },
    ensures
        kept_or_opened(first, d, v, lsg, on),
{
    assert forall|key: Seq<char>| #[trigger] d@.refs.contains_key(key) implies if first@.refs.contains_key(
        key,
    ) {
        d.payload_at(key) == first.payload_at(key)
    } else {
        opened(v, first@, lsg, on, first.source(), key, *d.payload_at(key))
    } by {
        if !c@.refs.contains_key(key) {
            let (w, e) = all_activated(v, first@, lsg, on.take(i));
            assert(activation_asks(w, e, lsg, on[i].1));
        }
    }
}

/// Activating the entity asks the loader for a payload.
pub open spec fn activation_asks(v: RsgView, c: CacheView, lsg: LsgView, id: EntityId) -> bool {
    &&& !v.has(id)
    &&& lsg.has(id)
    &&& lsg.entities[id.0].geom_ref is Some
    &&& !c.refs.contains_key(key_of(lsg.entities[id.0].geom_ref->0))
}

/// A map without the listed keys.
spec fn minus<V>(m: Map<u64, V>, ids: Seq<u64>) -> Map<u64, V>
    decreases ids.len(),
{
    if ids.len() == 0 {
        m
    } else {
        minus(m, ids.drop_last()).remove(ids.last())
    }
}

proof fn lemma_minus<V>(m: Map<u64, V>, ids: Seq<u64>)
    ensures
        forall|k: u64| #[trigger]
            minus(m, ids).contains_key(k) <==> m.contains_key(k) && !ids.contains(k),
        forall|k: u64| #[trigger] minus(m, ids).contains_key(k) ==> minus(m, ids)[k] == m[k],
    decreases ids.len(),
{
    if ids.len() > 0 {
        let init = ids.drop_last();
        lemma_minus(m, init);
        let a = minus(m, init);
        let b = minus(m, ids);
        assert(b == a.remove(ids.last()));
        assert forall|k: u64| #[trigger] b.contains_key(k) implies b[k] == m[k] by {
            assert(a.contains_key(k));
        }
        assert forall|k: u64| #[trigger] b.contains_key(k) <==> m.contains_key(k)
            && !ids.contains(k) by {
            assert(a.contains_key(k) <==> m.contains_key(k) && !init.contains(k));
            if init.contains(k) {
                let i = choose|i: int| 0 <= i < init.len() && init[i] == k;
                assert(ids[i] == k);
            }
            if ids.contains(k) {
                let i = choose|i: int| 0 <= i < ids.len() && ids[i] == k;
                if i < init.len() {
                    assert(init[i] == k);
                }
            }
            assert(ids[ids.len() - 1] == ids.last());
        }
    }
}

/// The expired pages are pending ones whose time has come, each once.
pub proof fn lemma_expired(v: RsgView, now: u64)
    requires
        v.pending.dom().finite(),
    ensures
        forall|k: u64| #[trigger]
            expired(v, now).contains(k) <==> v.pending.contains_key(k) && v.pending[k] <= now,
        expired(v, now).no_duplicates(),
{
    let all = ascending(v.pending.dom());
    let f = |k: u64| v.pending[k] <= now;
    crate::table::lemma_ascending(v.pending.dom());
    crate::table::lemma_lists(all, v.pending.dom());
    lemma_filter_parts(all, f);
    assert forall|k: u64| #[trigger] expired(v, now).contains(k) <==> v.pending.contains_key(k)
        && v.pending[k] <= now by {
        assert(all.contains(k) <==> v.pending.dom().contains(k));
    }
}

/// What a filtered list of distinct keys holds.
pub proof fn lemma_filter_parts(s: Seq<u64>, f: spec_fn(u64) -> bool)
    requires
        s.no_duplicates(),
    ensures
        forall|k: u64| #[trigger] s.filter(f).contains(k) <==> s.contains(k) && f(k),
        s.filter(f).no_duplicates(),
    decreases s.len(),
{
    reveal(Seq::filter);
    if s.len() > 0 {
        let init = s.drop_last();
        lemma_filter_parts(init, f);
        let r = s.filter(f);
        let r0 = init.filter(f);
        assert(!init.contains(s.last())) by {
            if init.contains(s.last()) {
                let i = choose|i: int| 0 <= i < init.len() && init[i] == s.last();
                assert(s[i] == s[s.len() - 1]);
            }
        }
        assert forall|k: u64| #[trigger] r.contains(k) <==> s.contains(k) && f(k) by {
            if r0.contains(k) {
                let i = choose|i: int| 0 <= i < r0.len() && r0[i] == k;
                assert(r[i] == k);
            }
            if r.contains(k) {
                let i = choose|i: int| 0 <= i < r.len() && r[i] == k;
                if i < r0.len() {
                    assert(r0[i] == k);
                }
            }
            if init.contains(k) {
                let i = choose|i: int| 0 <= i < init.len() && init[i] == k;
                assert(s[i] == k);
            }
            if s.contains(k) {
                let i = choose|i: int| 0 <= i < s.len() && s[i] == k;
                if i < init.len() {
                    assert(init[i] == k);
                }
            }
            assert(s[s.len() - 1] == s.last());
            if f(s.last()) {
                assert(r[r0.len() as int] == s.last());
            }
        }
        if f(s.last()) {
            assert(!r0.contains(s.last()));
            assert(r.no_duplicates()) by {
                assert forall|i: int, j: int| 0 <= i < r.len() && 0 <= j < r.len() && i != j implies r[i]
                    != r[j] by {
                    if i < r0.len() && j < r0.len() {
                        assert(r0[i] != r0[j]);
                    } else if i < r0.len() {
                        assert(r0.contains(r0[i]));
                    } else {
                        assert(r0.contains(r0[j]));
                    }
                }
            }
        }
    }
}

impl Rsg {
    /// Evicts the pages whose grace has ended, and gives their payloads up.
    /// Returns their ids, in ascending order.
    pub fn evict_expired<L: PayloadLoader>(
        &mut self,
        now: u64,
        cache: &mut PayloadCache<L>,
    ) -> (evicted: Vec<EntityId>)
        requires
            old(self).wf(),
            old(cache).wf(),
        ensures
            final(self).wf(),
            final(cache).wf(),
            final(cache).source() == old(cache).source(),
            evicted@ == expired(old(self)@, now).map_values(|k: u64| EntityId(k)),
            final(self)@ == without_expired(old(self)@, now),
            final(cache)@ == all_released(old(cache)@, old(self)@, expired(old(self)@, now)),
            forall|e: EntityId| #[trigger]
                final(self)@.has(e) ==> final(self).payload(e) == old(self).payload(e),
            forall|key: Seq<char>| #[trigger]
                final(cache)@.refs.contains_key(key) ==> old(cache)@.refs.contains_key(key)
                    && final(cache).payload_at(key) == old(cache).payload_at(key),
            coherent(*old(self), *old(cache)) && counted(old(self)@.pages, old(cache)@)
                ==> coherent(*final(self), *final(cache)),
    {
        broadcast use group_models;

        let ghost v = self@;
        let ghost f = |k: u64| v.pending[k] <= now;
        let ids = self.pending_evict.keys();
        let mut due: Vec<u64> = Vec::new();
        let mut i: usize = 0;
        proof {
            reveal(Seq::filter);
            assert(ids@.take(0) =~= Seq::empty());
            assert(due@ =~= ids@.take(0).filter(f));
        }
        while i < ids.len()
            invariant
                i <= ids@.len(),
                v == self@,
                lists(ids@, v.pending.dom()),
                f == (|k: u64| v.pending[k] <= now),
                due@ == ids@.take(i as int).filter(f),
            decreases ids@.len() - i,
        {
            proof {
                reveal(Seq::filter);
                assert(ids@.take(i + 1).drop_last() =~= ids@.take(i as int));
                assert(ids@.contains(ids@[i as int]));
                assert(v.pending.dom().contains(ids@[i as int]));
            }
            if let Some(until) = self.pending_evict.get(ids[i]) {
                if *until <= now {
                    due.push(ids[i]);
                }
            }
            i = i + 1;
        }
        proof {
            assert(ids@.take(i as int) =~= ids@);
            assert(due@ == expired(v, now));
            self.pending_evict.lemma_finite();
            lemma_expired(v, now);
        }
        let mut evicted: Vec<EntityId> = Vec::new();
        let mut j: usize = 0;
        proof {
            assert(evicted@ =~= due@.take(0).map_values(|k: u64| EntityId(k)));
        }
        while j < due.len()
            invariant
                j <= due@.len(),
                v.valid(),
                cache.wf(),
                cache.source() == old(cache).source(),
                due@.no_duplicates(),
                forall|k: u64| #[trigger]
                    due@.contains(k) <==> v.pending.contains_key(k) && v.pending[k] <= now,
                self@ == (RsgView {
                    pages: minus(v.pages, due@.take(j as int)),
                    pending: minus(v.pending, due@.take(j as int)),
                    ..v
                }),
                forall|e: EntityId| #[trigger]
                    self@.has(e) ==> self.payload(e) == old(self).payload(e),
                evicted@ == due@.take(j as int).map_values(|k: u64| EntityId(k)),
                cache@ == all_released(old(cache)@, v, due@.take(j as int)),
                forall|key: Seq<char>| #[trigger]
                    cache@.refs.contains_key(key) ==> old(cache)@.refs.contains_key(key)
                        && cache.payload_at(key) == old(cache).payload_at(key),
            decreases due@.len() - j,
        {
            let id: u64 = due[j];
            let ghost before = *self;
            proof {
                let done = due@.take(j as int);
                assert(due@.take(j + 1).drop_last() =~= done);
                assert(due@.take(j + 1).last() == id);
                assert(due@.contains(id));
                assert(v.pages.contains_key(id));
                lemma_minus(v.pages, done);
                assert(!done.contains(id)) by {
                    if done.contains(id) {
                        let x = choose|x: int| 0 <= x < done.len() && done[x] == id;
                        assert(due@[x] == due@[j as int]);
                    }
                }
                assert(self@.has(EntityId(id)));
                assert(due@.take(j + 1).map_values(|k: u64| EntityId(k)) =~= evicted@.push(
                    EntityId(id),
                ));
            }
            self.pending_evict.remove(id);
            if let Some(re) = self.entities.remove(id) {
                if let Some(key) = re.payload_key {
                    cache.release(key.as_str());
                }
            }
            evicted.push(EntityId(id));
            proof {
                let done = due@.take(j as int);
                let next = due@.take(j + 1);
                assert(next.drop_last() =~= done);
                assert(self@.pages =~= before@.pages.remove(id));
                assert(self@.pending =~= before@.pending.remove(id));
                assert(self@.diffs =~= before@.diffs);
                assert(minus(v.pages, next) == minus(v.pages, done).remove(id));
                assert(minus(v.pending, next) == minus(v.pending, done).remove(id));
                assert forall|e: EntityId| #[trigger] self@.has(e) implies self.payload(e) == old(
                    self,
                ).payload(e) by {
                    assert(before@.has(e));
                    assert(self.payload(e) == before.payload(e));
                }
            }
            j = j + 1;
        }
        proof {
            assert(due@.take(j as int) =~= due@);
            lemma_minus(v.pages, due@);
            lemma_minus(v.pending, due@);
            let w = without_expired(v, now);
            assert(self@.pages =~= w.pages);
            assert(self@.pending =~= w.pending);
            assert(w.valid());
            assert forall|e: EntityId| #[trigger] self@.has(e) implies (self.payload(e) is Some
                <==> self@.pages[e.0].payload_key is Some) by {
                assert(old(self)@.has(e));
            }
            if coherent(*old(self), *old(cache)) && counted(old(self)@.pages, old(cache)@) {
                old(self).lemma_finite();
                lemma_eviction_keeps_count(v, old(cache)@, now);
                assert forall|e: EntityId| #[trigger]
                    self@.has(e) implies match self@.pages[e.0].payload_key {
                    Some(key) => cache@.refs.contains_key(key) && self.payload(e) == Some(
                        cache.payload_at(key),
                    ),
                    None => self.payload(e) is None,
                } by {
                    assert(old(self)@.has(e));
                    match self@.pages[e.0].payload_key {
                        Some(key) => {
                            assert(holders(self@.pages, key).contains(e.0));
                            assert(cache@.refs.contains_key(key));
                        },
                        None => {},
                    }
                }
            }
        }
        evicted
    }

    /// Hands out what a subscription has collected, and starts anew.
    pub fn take_diff(&mut self, sub: SubscriptionId) -> (d: RsgDiff)
        requires
            old(self).wf(),
        ensures
            final(self).wf(),
            d@ == old(self)@.diff_of(sub),
            final(self)@ == (RsgView { diffs: old(self)@.diffs.remove(sub), ..old(self)@ }),
            forall|e: EntityId| #[trigger]
                final(self)@.has(e) ==> final(self).payload(e) == old(self).payload(e),
    {
        broadcast use group_models;

        let r = match self.diffs.remove(sub) {
            Some(d) => d,
            None => RsgDiff { upserts: Vec::new(), removes: Vec::new() },
        };
        proof {
            assert(r@.upserts =~= old(self)@.diff_of(sub).upserts);
            assert(r@.removes =~= old(self)@.diff_of(sub).removes);
            assert forall|e: EntityId| #[trigger] self@.has(e) implies self.payload(e) == old(
                self,
            ).payload(e) && old(self)@.has(e) by {}
        }
        r
    }

    /// Forgets what all subscriptions have collected.
    pub fn clear_diffs(&mut self)
        requires
            old(self).wf(),
        ensures
            final(self).wf(),
            final(self)@ == (RsgView { diffs: Map::empty(), ..old(self)@ }),
            forall|e: EntityId| #[trigger]
                final(self)@.has(e) ==> final(self).payload(e) == old(self).payload(e),
    {
        broadcast use group_models;

        self.diffs = IdMap::new();
        proof {
            assert forall|e: EntityId| #[trigger] self@.has(e) implies self.payload(e) == old(
                self,
            ).payload(e) && old(self)@.has(e) by {}
        }
    }

    pub fn get(&self, id: EntityId) -> (r: Option<&RuntimeEntity>)
        ensures
            match r {
                Some(re) => self@.has(id) && re@ == self@.pages[id.0] && re.hydrated
                    == self.payload(id),
                None => !self@.has(id),
            },
    {
        self.entities.get(id.0)
    }

    /// Sets a resolved value of a page. Returns whether there is such a page.
    pub fn set_telemetry(&mut self, id: EntityId, attribute: String, value: TelemetryValue) -> (b:
        bool)
        requires
            old(self).wf(),
        ensures
            final(self).wf(),
            b == old(self)@.has(id),
            final(self)@ == with_telemetry(old(self)@, id, attribute@, value),
            forall|e: EntityId| #[trigger]
                old(self)@.has(e) ==> final(self).payload(e) == old(self).payload(e),
    {
        broadcast use group_models;

        match self.entities.remove(id.0) {
            Some(mut re) => {
                re.telemetry.insert(attribute, value);
                self.entities.insert(id.0, re);
                proof {
                    let w = with_telemetry(old(self)@, id, attribute@, value);
                    assert(self@ == w);
                    lemma_telemetry_valid(old(self)@, id, attribute@, value);
                    assert forall|e: EntityId| #[trigger] self@.has(e) implies self.payload(e)
                        == old(self).payload(e) && old(self)@.has(e) by {}
                }
                true
            },
            None => {
                proof {
                    assert(self@.pages =~= old(self)@.pages);
                    assert forall|e: EntityId| #[trigger] self@.has(e) implies self.payload(e)
                        == old(self).payload(e) && old(self)@.has(e) by {}
                }
                false
            },
        }
    }

    /// The ids of all pages, in ascending order.
    pub fn ids(&self) -> (r: Vec<u64>)
        ensures
            r@ == ascending(self@.pages.dom()),
            lists(r@, self@.pages.dom()),
    {
        proof {
            assert(self@.pages.dom() =~= self.entities@.dom());
        }
        self.entities.keys()
    }

    /// All pages, in ascending order of their ids.
    pub fn entities(&self) -> (r: Vec<&RuntimeEntity>)
        ensures
            r@.len() == ascending(self@.pages.dom()).len(),
            forall|i: int|
                0 <= i < r@.len() ==> {
                    let k = ascending(self@.pages.dom())[i];
                    &&& (#[trigger] r@[i])@ == self@.pages[k]
                    &&& r@[i].hydrated == self.payload(EntityId(k))
                },
    {
        let ids = self.ids();
        let mut r: Vec<&RuntimeEntity> = Vec::new();
        let mut i: usize = 0;
        while i < ids.len()
            invariant
                i <= ids@.len(),
                lists(ids@, self@.pages.dom()),
                r@.len() == i,
                forall|j: int|
                    0 <= j < i ==> (#[trigger] r@[j])@ == self@.pages[ids@[j]] && r@[j].hydrated
                        == self.payload(EntityId(ids@[j])),
            decreases ids@.len() - i,
        {
            proof {
                assert(ids@.contains(ids@[i as int]));
                assert(self@.pages.dom().contains(ids@[i as int]));
            }
            if let Some(e) = self.entities.get(ids[i]) {
                r.push(e);
            }
            i = i + 1;
        }
        r
    }

    pub fn contains(&self, id: EntityId) -> (b: bool)
        ensures
            b == self@.has(id),
    {
        self.entities.contains(id.0)
    }

    /// How many pages there are.
    pub fn len(&self) -> (n: usize)
        ensures
            n == self@.pages.dom().len(),
    {
        proof {
            assert(self@.pages.dom() =~= self.entities@.dom());
        }
        self.entities.len()
    }

    pub fn is_empty(&self) -> (b: bool)
        ensures
            b == (self@.pages.dom() =~= Set::<u64>::empty()),
    {
        proof {
            assert(self@.pages.dom() =~= self.entities@.dom());
        }
        self.entities.is_empty()
    }

    /// How many pages await eviction.
    pub fn pending_eviction_count(&self) -> (n: usize)
        ensures
            n == self@.pending.dom().len(),
    {
        self.pending_evict.len()
    }
}

/// The working set with a resolved value set on a page.
pub open spec fn with_telemetry(
    v: RsgView,
    id: EntityId,
    attribute: Seq<char>,
    value: TelemetryValue,
) -> RsgView {
    if v.has(id) {
        let page = v.pages[id.0];
        RsgView {
            pages: v.pages.insert(
                id.0,
                PageView { telemetry: page.telemetry.insert(attribute, value), ..page },
            ),
            ..v
        }
    } else {
        v
    }
}

proof fn lemma_telemetry_valid(
    v: RsgView,
    id: EntityId,
    attribute: Seq<char>,
    value: TelemetryValue,
)
    requires
        v.valid(),
    ensures
        with_telemetry(v, id, attribute, value).valid(),
{
    let w = with_telemetry(v, id, attribute, value);
    assert forall|k: u64| #[trigger]
        w.pages.contains_key(k) && w.pages[k].subscribers =~= Set::<u64>::empty() implies
        w.pending.contains_key(k) by {
        assert(v.pages.contains_key(k));
    }
    assert forall|k: u64| #[trigger] w.pending.contains_key(k) implies w.pages.contains_key(k)
        && w.pages[k].subscribers =~= Set::<u64>::empty() by {
        assert(v.pending.contains_key(k));
    }
}

// ---------------------------------------------------------------------------
// What holds of the working set.

/// The pages that hold the payload of a key.
pub open spec fn holders(pages: Map<u64, PageView>, key: Seq<char>) -> Set<u64> {
    pages.dom().filter(|k: u64| pages[k].payload_key == Some(key))
}

/// Each loaded payload is referred to once by each page that holds it, and a
/// payload that no page holds is not loaded.
pub open spec fn balanced(pages: Map<u64, PageView>, c: CacheView) -> bool {
    forall|key: Seq<char>| #![trigger c.refs.contains_key(key)] #![trigger holders(pages, key)]
        if c.refs.contains_key(key) {
            c.refs[key] == holders(pages, key).len() && c.refs[key] >= 1
        } else {
            holders(pages, key) =~= Set::<u64>::empty()
        }
}

proof fn lemma_same_holders(p: Map<u64, PageView>, q: Map<u64, PageView>, c: CacheView)
    requires
        balanced(p, c),
        p.dom() =~= q.dom(),
        forall|k: u64| #[trigger]
            p.contains_key(k) ==> p[k].payload_key == q[k].payload_key,
    ensures
        balanced(q, c),
{
    assert forall|key: Seq<char>| #![trigger c.refs.contains_key(key)] #![trigger holders(q, key)]
        if c.refs.contains_key(key) {
            c.refs[key] == holders(q, key).len() && c.refs[key] >= 1
        } else {
            holders(q, key) =~= Set::<u64>::empty()
        } by {
        assert(holders(p, key) =~= holders(q, key));
    }
}

/// Activating an entity keeps payloads and pages in balance.
pub proof fn law_activation_keeps_balance(
    v: RsgView,
    c: CacheView,
    lsg: LsgView,
    sub: SubscriptionId,
    id: EntityId,
)
    requires
        v.pages.dom().finite(),
        balanced(v.pages, c),
    ensures
        balanced(activated(v, lsg, sub, id).pages, activated_cache(c, v, lsg, id)),
        activated(v, lsg, sub, id).pages.dom().finite(),
{
    let w = activated(v, lsg, sub, id);
    if v.has(id) || !lsg.has(id) {
        lemma_same_holders(v.pages, w.pages, c);
        assert(w.pages.dom() =~= v.pages.dom());
    } else {
        let page = new_page(lsg, sub, id);
        let d = activated_cache(c, v, lsg, id);
        assert(w.pages.dom() =~= v.pages.dom().insert(id.0));
        assert forall|key: Seq<char>|
            #![trigger d.refs.contains_key(key)]
            #![trigger holders(w.pages, key)]
            if d.refs.contains_key(key) {
                d.refs[key] == holders(w.pages, key).len() && d.refs[key] >= 1
            } else {
                holders(w.pages, key) =~= Set::<u64>::empty()
            } by {
            assert(holders(v.pages, key).finite());
            if page.payload_key == Some(key) {
                assert(holders(w.pages, key) =~= holders(v.pages, key).insert(id.0));
                assert(!holders(v.pages, key).contains(id.0));
            } else {
                assert(holders(w.pages, key) =~= holders(v.pages, key));
            }
            assert(c.refs.contains_key(key) ==> c.refs[key] == holders(v.pages, key).len());
        }
    }
}

/// Deactivating an entity keeps payloads and pages in balance: a payload goes
/// only with its page.
pub proof fn law_deactivation_keeps_balance(
    v: RsgView,
    c: CacheView,
    sub: SubscriptionId,
    id: EntityId,
    now: u64,
)
    requires
        balanced(v.pages, c),
    ensures
        balanced(deactivated(v, sub, id, now).pages, c),
{
    let w = deactivated(v, sub, id, now);
    lemma_same_holders(v.pages, w.pages, c);
}

proof fn lemma_drop_page(p: Map<u64, PageView>, c: CacheView, id: u64)
    requires
        p.dom().finite(),
        balanced(p, c),
        p.contains_key(id),
    ensures
        balanced(
            p.remove(id),
            match p[id].payload_key {
                Some(key) => released(c, key),
                None => c,
            },
        ),
{
    let q = p.remove(id);
    let d = match p[id].payload_key {
        Some(key) => released(c, key),
        None => c,
    };
    assert forall|key: Seq<char>| #![trigger d.refs.contains_key(key)] #![trigger holders(q, key)]
        if d.refs.contains_key(key) {
            d.refs[key] == holders(q, key).len() && d.refs[key] >= 1
        } else {
            holders(q, key) =~= Set::<u64>::empty()
        } by {
        assert(holders(p, key).finite());
        assert(c.refs.contains_key(key) ==> c.refs[key] == holders(p, key).len());
        if p[id].payload_key == Some(key) {
            assert(holders(q, key) =~= holders(p, key).remove(id));
            assert(holders(p, key).contains(id));
            assert(c.refs.contains_key(key));
            if holders(q, key).len() == 0 {
                assert(holders(q, key) =~= Set::<u64>::empty());
            }
        } else {
            assert(holders(q, key) =~= holders(p, key));
        }
    }
}

proof fn lemma_drop_pages(v: RsgView, c: CacheView, ids: Seq<u64>)
    requires
        v.pages.dom().finite(),
        balanced(v.pages, c),
        ids.no_duplicates(),
        forall|i: int| 0 <= i < ids.len() ==> v.pages.contains_key(#[trigger] ids[i]),
    ensures
        balanced(minus(v.pages, ids), all_released(c, v, ids)),
        minus(v.pages, ids).dom().finite(),
    decreases ids.len(),
{
    if ids.len() > 0 {
        let init = ids.drop_last();
        assert forall|i: int| 0 <= i < init.len() implies v.pages.contains_key(
            #[trigger] init[i],
        ) by {
            assert(v.pages.contains_key(ids[i]));
        }
        lemma_drop_pages(v, c, init);
        lemma_minus(v.pages, init);
        let last = ids.last();
        assert(v.pages.contains_key(ids[ids.len() - 1]));
        assert(!init.contains(last)) by {
            if init.contains(last) {
                let i = choose|i: int| 0 <= i < init.len() && init[i] == last;
                assert(ids[i] == ids[ids.len() - 1]);
            }
        }
        let p = minus(v.pages, init);
        assert(p.contains_key(last));
        lemma_drop_page(p, all_released(c, v, init), last);
        assert(minus(v.pages, ids) == p.remove(last));
    }
}

/// Eviction keeps payloads and pages in balance: with the last page that holds
/// it, a payload is unloaded.
pub proof fn law_eviction_keeps_balance(v: RsgView, c: CacheView, now: u64)
    requires
        v.valid(),
        v.pages.dom().finite(),
        balanced(v.pages, c),
    ensures
        balanced(without_expired(v, now).pages, all_released(c, v, expired(v, now))),
{
    assert(v.pending.dom().subset_of(v.pages.dom())) by {
        assert forall|k: u64| v.pending.dom().contains(k) implies v.pages.dom().contains(k) by {
            assert(v.pending.contains_key(k));
        }
    }
    vstd::set_lib::lemma_set_subset_finite(v.pages.dom(), v.pending.dom());
    lemma_expired(v, now);
    let ids = expired(v, now);
    assert forall|i: int| 0 <= i < ids.len() implies v.pages.contains_key(#[trigger] ids[i]) by {
        assert(ids.contains(ids[i]));
        assert(v.pending.contains_key(ids[i]));
    }
    lemma_drop_pages(v, c, ids);
    lemma_minus(v.pages, ids);
    assert(minus(v.pages, ids) =~= without_expired(v, now).pages);
}

/// The payload of each page is loaded, and referred to at least once by each page
/// that holds it. Others may refer to it too.
pub open spec fn counted(pages: Map<u64, PageView>, c: CacheView) -> bool {
    forall|key: Seq<char>| #![trigger c.refs.contains_key(key)] #![trigger holders(pages, key)]
        if c.refs.contains_key(key) {
            holders(pages, key).len() <= c.refs[key]
        } else {
            holders(pages, key) =~= Set::<u64>::empty()
        }
}

/// More references do no harm, and neither does a change that leaves the pages
/// their payloads.
pub proof fn lemma_counted_grows(
    p: Map<u64, PageView>,
    q: Map<u64, PageView>,
    c: CacheView,
    d: CacheView,
)
    requires
        counted(p, c),
        p.dom() =~= q.dom(),
        forall|k: u64| #[trigger]
            p.contains_key(k) ==> p[k].payload_key == q[k].payload_key,
        forall|key: Seq<char>| #[trigger]
            c.refs.contains_key(key) ==> d.refs.contains_key(key) && d.refs[key] >= c.refs[key],
    ensures
        counted(q, d),
{
    assert forall|key: Seq<char>| #![trigger d.refs.contains_key(key)] #![trigger holders(q, key)]
        if d.refs.contains_key(key) {
            holders(q, key).len() <= d.refs[key]
        } else {
            holders(q, key) =~= Set::<u64>::empty()
        } by {
        assert(holders(p, key) =~= holders(q, key));
        if !c.refs.contains_key(key) {
            assert(holders(p, key).len() == 0);
        }
    }
}

pub proof fn lemma_activation_keeps_count(
    v: RsgView,
    c: CacheView,
    lsg: LsgView,
    sub: SubscriptionId,
    id: EntityId,
)
    requires
        v.pages.dom().finite(),
        counted(v.pages, c),
    ensures
        counted(activated(v, lsg, sub, id).pages, activated_cache(c, v, lsg, id)),
        activated(v, lsg, sub, id).pages.dom().finite(),
{
    let w = activated(v, lsg, sub, id);
    let d = activated_cache(c, v, lsg, id);
    if v.has(id) || !lsg.has(id) {
        lemma_counted_grows(v.pages, w.pages, c, d);
        assert(w.pages.dom() =~= v.pages.dom());
    } else {
        let page = new_page(lsg, sub, id);
        assert(w.pages.dom() =~= v.pages.dom().insert(id.0));
        assert forall|key: Seq<char>|
            #![trigger d.refs.contains_key(key)]
            #![trigger holders(w.pages, key)]
            if d.refs.contains_key(key) {
                holders(w.pages, key).len() <= d.refs[key]
            } else {
                holders(w.pages, key) =~= Set::<u64>::empty()
            } by {
            assert(holders(v.pages, key).finite());
            if page.payload_key == Some(key) {
                assert(holders(w.pages, key) =~= holders(v.pages, key).insert(id.0));
            } else {
                assert(holders(w.pages, key) =~= holders(v.pages, key));
            }
            assert(c.refs.contains_key(key) ==> holders(v.pages, key).len() <= c.refs[key]);
        }
    }
}

proof fn lemma_drop_counted(p: Map<u64, PageView>, c: CacheView, id: u64)
    requires
        p.dom().finite(),
        counted(p, c),
        p.contains_key(id),
    ensures
        counted(
            p.remove(id),
            match p[id].payload_key {
                Some(key) => released(c, key),
                None => c,
            },
        ),
{
    let q = p.remove(id);
    let d = match p[id].payload_key {
        Some(key) => released(c, key),
        None => c,
    };
    assert forall|key: Seq<char>| #![trigger d.refs.contains_key(key)] #![trigger holders(q, key)]
        if d.refs.contains_key(key) {
            holders(q, key).len() <= d.refs[key]
        } else {
            holders(q, key) =~= Set::<u64>::empty()
        } by {
        assert(holders(p, key).finite());
        assert(c.refs.contains_key(key) ==> holders(p, key).len() <= c.refs[key]);
        if p[id].payload_key == Some(key) {
            assert(holders(q, key) =~= holders(p, key).remove(id));
            assert(holders(p, key).contains(id));
            assert(c.refs.contains_key(key));
            if holders(q, key).len() == 0 {
                assert(holders(q, key) =~= Set::<u64>::empty());
            }
        } else {
            assert(holders(q, key) =~= holders(p, key));
        }
    }
}

proof fn lemma_drops_counted(v: RsgView, c: CacheView, ids: Seq<u64>)
    requires
        v.pages.dom().finite(),
        counted(v.pages, c),
        ids.no_duplicates(),
        forall|i: int| 0 <= i < ids.len() ==> v.pages.contains_key(#[trigger] ids[i]),
    ensures
        counted(minus(v.pages, ids), all_released(c, v, ids)),
        minus(v.pages, ids).dom().finite(),
    decreases ids.len(),
{
    if ids.len() > 0 {
        let init = ids.drop_last();
        assert forall|i: int| 0 <= i < init.len() implies v.pages.contains_key(
            #[trigger] init[i],
        ) by {
            assert(v.pages.contains_key(ids[i]));
        }
        lemma_drops_counted(v, c, init);
        lemma_minus(v.pages, init);
        let last = ids.last();
        assert(v.pages.contains_key(ids[ids.len() - 1]));
        assert(!init.contains(last)) by {
            if init.contains(last) {
                let i = choose|i: int| 0 <= i < init.len() && init[i] == last;
                assert(ids[i] == ids[ids.len() - 1]);
            }
        }
        let p = minus(v.pages, init);
        assert(p.contains_key(last));
        lemma_drop_counted(p, all_released(c, v, init), last);
        assert(minus(v.pages, ids) == p.remove(last));
    }
}

pub proof fn lemma_eviction_keeps_count(v: RsgView, c: CacheView, now: u64)
    requires
        v.valid(),
        v.pages.dom().finite(),
        counted(v.pages, c),
    ensures
        counted(without_expired(v, now).pages, all_released(c, v, expired(v, now))),
        without_expired(v, now).pages.dom().finite(),
{
    assert(v.pending.dom().subset_of(v.pages.dom())) by {
        assert forall|k: u64| v.pending.dom().contains(k) implies v.pages.dom().contains(k) by {
            assert(v.pending.contains_key(k));
        }
    }
    vstd::set_lib::lemma_set_subset_finite(v.pages.dom(), v.pending.dom());
    lemma_expired(v, now);
    let ids = expired(v, now);
    assert forall|i: int| 0 <= i < ids.len() implies v.pages.contains_key(#[trigger] ids[i]) by {
        assert(ids.contains(ids[i]));
        assert(v.pending.contains_key(ids[i]));
    }
    lemma_drops_counted(v, c, ids);
    lemma_minus(v.pages, ids);
    assert(minus(v.pages, ids) =~= without_expired(v, now).pages);
}

/// A page whose last subscriber leaves stays through the grace period, and may go
/// when it has ended.
pub proof fn law_eviction_waits_for_grace(
    v: RsgView,
    sub: SubscriptionId,
    id: EntityId,
    now: u64,
    later: u64,
)
    requires
        v.valid(),
        v.pages.dom().finite(),
        v.has(id),
        v.pages[id.0].subscribers.remove(sub) =~= Set::<u64>::empty(),
    ensures
        without_expired(deactivated(v, sub, id, now), later).has(id) <==> later < deadline(
            now,
            v.grace,
        ),
{
}

/// An entity that is activated again is not evicted, however late it is.
pub proof fn law_reactivation_cancels_eviction(
    v: RsgView,
    lsg: LsgView,
    sub: SubscriptionId,
    id: EntityId,
    later: u64,
)
    requires
        v.has(id),
    ensures
        without_expired(activated(v, lsg, sub, id), later).has(id),
        !activated(v, lsg, sub, id).pending.contains_key(id.0),
{
}

/// Subscriptions share a page: the second one adds a subscriber, and neither a
/// page nor a payload.
pub proof fn law_pages_are_shared(
    v: RsgView,
    c: CacheView,
    lsg: LsgView,
    first: SubscriptionId,
    second: SubscriptionId,
    id: EntityId,
)
    requires
        lsg.has(id),
    ensures
        ({
            let w = activated(v, lsg, first, id);
            let x = activated(w, lsg, second, id);
            &&& x.pages.dom() == w.pages.dom()
            &&& x.pages[id.0].subscribers.contains(first)
            &&& x.pages[id.0].subscribers.contains(second)
            &&& activated_cache(c, w, lsg, id) == c
        }),
{
    let w = activated(v, lsg, first, id);
    let x = activated(w, lsg, second, id);
    assert(x.pages.dom() =~= w.pages.dom());
}

/// What one subscription sees change is no matter of another.
pub proof fn law_diffs_are_per_subscription(
    v: RsgView,
    lsg: LsgView,
    sub: SubscriptionId,
    other: SubscriptionId,
    id: EntityId,
    now: u64,
)
    requires
        sub != other,
    ensures
        activated(v, lsg, sub, id).diff_of(other) == v.diff_of(other),
        deactivated(v, sub, id, now).diff_of(other) == v.diff_of(other),
{
}

/// The entity is active for the subscription.
pub open spec fn subscribed(v: RsgView, sub: SubscriptionId, id: EntityId) -> bool {
    v.has(id) && v.pages[id.0].subscribers.contains(sub)
}

/// What a subscription collects accounts for its view: it sees now what it saw
/// when its diff was last drained and what is upserted, but for what is removed;
/// and nothing is collected both ways.
pub open spec fn accounts(seen: Set<u64>, v: RsgView, sub: SubscriptionId) -> bool {
    let d = v.diff_of(sub);
    forall|k: u64| #![trigger seen.contains(k)] #![trigger subscribed(v, sub, EntityId(k))]
        {
            &&& subscribed(v, sub, EntityId(k)) <==> (seen.contains(k) || d.upserts.contains(
                EntityId(k),
            )) && !d.removes.contains(EntityId(k))
            &&& !(d.upserts.contains(EntityId(k)) && d.removes.contains(EntityId(k)))
        }
}

/// What a subscription collects accounts for its view, from the drained diff on
/// and whatever becomes active or stops to be in between, in any order.
pub proof fn law_diffs_follow_the_view(
    seen: Set<u64>,
    v: RsgView,
    lsg: LsgView,
    sub: SubscriptionId,
    by: SubscriptionId,
    id: EntityId,
    now: u64,
)
    ensures
        v.diff_of(sub) == no_change() ==> accounts(
            Set::new(|k: u64| subscribed(v, sub, EntityId(k))),
            v,
            sub,
        ),
        accounts(seen, v, sub) ==> {
            &&& accounts(seen, activated(v, lsg, by, id), sub)
            &&& accounts(seen, deactivated(v, by, id, now), sub)
        },
        v.valid() && accounts(seen, v, sub) ==> accounts(seen, without_expired(v, now), sub),
{
    let d = v.diff_of(sub);
    if v.diff_of(sub) == no_change() {
        let shown = Set::new(|k: u64| subscribed(v, sub, EntityId(k)));
        assert(accounts(shown, v, sub));
    }
    if accounts(seen, v, sub) {
        let on = activated(v, lsg, by, id);
        let off = deactivated(v, by, id, now);
        lemma_without(d.removes, id);
        lemma_without(d.upserts, id);
        assert forall|k: u64|
            #![trigger seen.contains(k)]
            #![trigger subscribed(on, sub, EntityId(k))]
            {
                &&& subscribed(on, sub, EntityId(k)) <==> (seen.contains(k)
                    || on.diff_of(sub).upserts.contains(EntityId(k)))
                    && !on.diff_of(sub).removes.contains(EntityId(k))
                &&& !(on.diff_of(sub).upserts.contains(EntityId(k))
                    && on.diff_of(sub).removes.contains(EntityId(k)))
            } by {
            assert(subscribed(v, sub, EntityId(k)) <==> (seen.contains(k) || d.upserts.contains(
                EntityId(k),
            )) && !d.removes.contains(EntityId(k)));
            lemma_pushed(d.upserts, id, EntityId(k));
        }
        assert forall|k: u64|
            #![trigger seen.contains(k)]
            #![trigger subscribed(off, sub, EntityId(k))]
            {
                &&& subscribed(off, sub, EntityId(k)) <==> (seen.contains(k)
                    || off.diff_of(sub).upserts.contains(EntityId(k)))
                    && !off.diff_of(sub).removes.contains(EntityId(k))
                &&& !(off.diff_of(sub).upserts.contains(EntityId(k))
                    && off.diff_of(sub).removes.contains(EntityId(k)))
            } by {
            assert(subscribed(v, sub, EntityId(k)) <==> (seen.contains(k) || d.upserts.contains(
                EntityId(k),
            )) && !d.removes.contains(EntityId(k)));
            lemma_pushed(d.removes, id, EntityId(k));
        }
        if v.valid() {
            let w = without_expired(v, now);
            assert forall|k: u64|
                #![trigger seen.contains(k)]
                #![trigger subscribed(w, sub, EntityId(k))]
                {
                    &&& subscribed(w, sub, EntityId(k)) <==> (seen.contains(k)
                        || w.diff_of(sub).upserts.contains(EntityId(k)))
                        && !w.diff_of(sub).removes.contains(EntityId(k))
                    &&& !(w.diff_of(sub).upserts.contains(EntityId(k))
                        && w.diff_of(sub).removes.contains(EntityId(k)))
                } by {
                assert(subscribed(v, sub, EntityId(k)) <==> (seen.contains(k)
                    || d.upserts.contains(EntityId(k))) && !d.removes.contains(EntityId(k)));
                if v.pending.contains_key(k) {
                    assert(!v.pages[k].subscribers.contains(sub));
                }
            }
        }
    }
}

/// An entity that leaves the view and comes back before the diff is drained is
/// upserted and not removed; one that comes and leaves is removed and not upserted.
pub proof fn law_later_change_wins(
    v: RsgView,
    lsg: LsgView,
    sub: SubscriptionId,
    id: EntityId,
    now: u64,
)
    requires
        v.has(id) || lsg.has(id),
    ensures
        ({
            let d = activated(deactivated(v, sub, id, now), lsg, sub, id).diff_of(sub);
            d.upserts.contains(id) && !d.removes.contains(id)
        }),
        ({
            let d = deactivated(activated(v, lsg, sub, id), sub, id, now).diff_of(sub);
            d.removes.contains(id) && !d.upserts.contains(id)
        }),
{
    let off = deactivated(v, sub, id, now);
    let on = activated(v, lsg, sub, id);
    lemma_without(off.diff_of(sub).removes, id);
    lemma_pushed(off.diff_of(sub).upserts, id, id);
    lemma_without(on.diff_of(sub).upserts, id);
    lemma_pushed(on.diff_of(sub).removes, id, id);
}

/// The page that is made for an entity tells its path, the revision of the index and
/// the key of its payload, has no telemetry yet and one subscriber. A page that is
/// there only gets the subscriber. Other pages stay, and so do the other ones that
/// await eviction.
pub proof fn law_activation_makes_a_page(
    v: RsgView,
    lsg: LsgView,
    sub: SubscriptionId,
    id: EntityId,
    k: u64,
)
    requires
        v.has(id) || lsg.has(id),
    ensures
        ({
            let w = activated(v, lsg, sub, id);
            let e = lsg.entities[id.0];
            &&& w.has(id)
            &&& !v.has(id) ==> {
                &&& w.pages[id.0].id == id
                &&& w.pages[id.0].prim_path == e.prim_path
                &&& w.pages[id.0].lsg_revision == lsg.revision
                &&& w.pages[id.0].telemetry =~= Map::<Seq<char>, TelemetryValue>::empty()
                &&& w.pages[id.0].subscribers =~= Set::<u64>::empty().insert(sub)
                &&& e.geom_ref is None ==> w.pages[id.0].payload_key is None
                &&& e.geom_ref is Some ==> w.pages[id.0].payload_key == Some(
                    key_of(e.geom_ref->0),
                )
            }
            &&& v.has(id) ==> {
                &&& w.pages[id.0].subscribers =~= v.pages[id.0].subscribers.insert(sub)
                &&& w.pages[id.0] == (PageView {
                    subscribers: w.pages[id.0].subscribers,
                    ..v.pages[id.0]
                })
            }
            &&& k != id.0 ==> w.pages.contains_key(k) == v.pages.contains_key(k) && w.pages[k]
                == v.pages[k] && w.pending.contains_key(k) == v.pending.contains_key(k)
                && w.pending[k] == v.pending[k]
            &&& w.grace == v.grace
            &&& w.diff_of(sub).upserts == v.diff_of(sub).upserts.push(id)
        }),
{
}

/// A page from which a subscription is taken keeps the others, and all else that it
/// tells. With the last one it awaits eviction: for the grace period, and no later than
/// the end of time. Other pages stay.
pub proof fn law_deactivation_starts_the_grace(
    v: RsgView,
    sub: SubscriptionId,
    id: EntityId,
    now: u64,
    k: u64,
)
    requires
        v.has(id),
    ensures
        ({
            let w = deactivated(v, sub, id, now);
            let left = v.pages[id.0].subscribers.remove(sub);
            &&& w.pages.dom() =~= v.pages.dom()
            &&& w.pages[id.0].subscribers =~= left
            &&& w.pages[id.0] == (PageView {
                subscribers: w.pages[id.0].subscribers,
                ..v.pages[id.0]
            })
            &&& left =~= Set::<u64>::empty() && now + v.grace <= u64::MAX ==> w.pending.contains_key(
                id.0,
            ) && w.pending[id.0] == now + v.grace
            &&& left =~= Set::<u64>::empty() && now + v.grace > u64::MAX ==> w.pending.contains_key(
                id.0,
            ) && w.pending[id.0] == u64::MAX
            &&& !(left =~= Set::<u64>::empty()) ==> w.pending == v.pending
            &&& k != id.0 ==> w.pages[k] == v.pages[k] && w.pending.contains_key(k)
                == v.pending.contains_key(k) && w.pending[k] == v.pending[k]
            &&& w.grace == v.grace
            &&& w.diff_of(sub).removes == v.diff_of(sub).removes.push(id)
        }),
{
}

/// Eviction takes exactly the pages whose grace has ended; the others stay as they are.
pub proof fn law_eviction_takes_what_has_expired(v: RsgView, now: u64, k: u64)
    ensures
        ({
            let w = without_expired(v, now);
            &&& w.pages.contains_key(k) <==> v.pages.contains_key(k) && !(v.pending.contains_key(k)
                && v.pending[k] <= now)
            &&& w.pages.contains_key(k) ==> w.pages[k] == v.pages[k]
            &&& w.pending.contains_key(k) <==> v.pending.contains_key(k) && v.pending[k] > now
            &&& w.pending.contains_key(k) ==> w.pending[k] == v.pending[k]
            &&& w.diffs == v.diffs && w.grace == v.grace
        }),
{
}

} // verus!
