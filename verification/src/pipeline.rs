//! From subscriptions to resident pages.
//!
//! An evaluation of interest says which entities become active and which stop to
//! be. The working set follows, payloads are acquired for what comes in, and what
//! nobody has asked for during the grace period is evicted and its payload
//! released. The index is only read.

use crate::hydrate::{CacheView, LoadError, PayloadCache, PayloadLoader};
use crate::interest::{
    dropped, evaluated, gained, hits_for, law_budget_is_kept, law_only_hits_are_active,
    law_second_evaluation_is_quiet, lost, pairs, selection, taken, target_of, Hit, InterestManager,
    InterestView, SubscriptionId, SubscriptionView, Transitions,
};
use crate::lsg::{EntityId, Lsg, LsgView};
use crate::opinion::{law_reload_edits_in_place, reconciled, StoredOpinionView};
use crate::rsg::{
    activation_asks, all_activated, all_deactivated, all_released, balanced, coherent, counted,
    expired, kept_or_opened, law_activation_keeps_balance, law_deactivation_keeps_balance,
    law_eviction_keeps_balance, lemma_activated_valid, lemma_activation_keeps_count,
    lemma_counted_grows, lemma_deactivated_valid, lemma_eviction_keeps_count, lemma_pushed,
    lemma_without, no_change, subscribed, without_expired, Rsg, RsgDiff, RsgView,
};
use crate::table::{ascending, lemma_ascending, IdMap};
use vstd::prelude::*;
use vstd::string::*;

verus! {

/// What an evaluation activates.
pub open spec fn taken_by(
    v: InterestView,
    lsg: LsgView,
    hits: Map<u64, Vec<Hit>>,
) -> Seq<(SubscriptionId, EntityId)> {
    gained(v, lsg, hits, ascending(v.subs.dom()))
}

/// What an evaluation deactivates.
pub open spec fn released_by(
    v: InterestView,
    lsg: LsgView,
    hits: Map<u64, Vec<Hit>>,
) -> Seq<(SubscriptionId, EntityId)> {
    dropped(v, ascending(v.gone())) + lost(v, lsg, hits, ascending(v.subs.dom()))
}

/// The model of a [`Pipeline`].
pub struct FlowView {
    pub interest: InterestView,
    pub rsg: RsgView,
    pub payloads: CacheView,
}

impl FlowView {
    /// All is as the subscriptions want it now: the targets are active, the working
    /// set has followed, and so have the payloads.
    pub open spec fn followed(self, lsg: LsgView, hits: Map<u64, Vec<Hit>>, now: u64) -> FlowView {
        let (rsg, payloads) = all_activated(
            self.rsg,
            self.payloads,
            lsg,
            taken_by(self.interest, lsg, hits),
        );
        FlowView {
            interest: evaluated(self.interest, lsg, hits),
            rsg: all_deactivated(rsg, released_by(self.interest, lsg, hits), now),
            payloads,
        }
    }

    /// Without the pages whose time is over.
    pub open spec fn evicted(self, now: u64) -> FlowView {
        FlowView {
            rsg: without_expired(self.rsg, now),
            payloads: all_released(self.payloads, self.rsg, expired(self.rsg, now)),
            ..self
        }
    }

    /// With the diff of a subscription drained.
    pub open spec fn drained(self, s: SubscriptionId) -> FlowView {
        FlowView { rsg: RsgView { diffs: self.rsg.diffs.remove(s), ..self.rsg }, ..self }
    }

    /// The payload counters hold what an evaluation activates.
    pub open spec fn has_room(self, lsg: LsgView, hits: Map<u64, Vec<Hit>>) -> bool {
        self.payloads.acquisitions + taken_by(self.interest, lsg, hits).len() <= usize::MAX
    }

    /// The working set could follow only the first so many activations, since the
    /// loader refused the payload of the next one.
    pub open spec fn stopped<L: PayloadLoader>(
        self,
        after: FlowView,
        n: int,
        source: L,
        lsg: LsgView,
        hits: Map<u64, Vec<Hit>>,
        e: LoadError,
    ) -> bool {
        let on = taken_by(self.interest, lsg, hits);
        &&& 0 <= n < on.len()
        &&& (after.rsg, after.payloads) == all_activated(
            self.rsg,
            self.payloads,
            lsg,
            on.take(n),
        )
        &&& activation_asks(after.rsg, after.payloads, lsg, on[n].1)
        &&& source.may_load(lsg.entities[on[n].1.0].geom_ref->0, Err(e))
    }

    /// What a failure to follow leaves: where the counters have no room nothing
    /// has moved, and else the loader refused a payload on the way.
    pub open spec fn failed<L: PayloadLoader>(
        self,
        after: FlowView,
        source: L,
        lsg: LsgView,
        hits: Map<u64, Vec<Hit>>,
        e: LoadError,
    ) -> bool {
        &&& after.interest == evaluated(self.interest, lsg, hits)
        &&& if self.has_room(lsg, hits) {
            exists|n: int| #[trigger] self.stopped(after, n, source, lsg, hits, e)
        } else {
            &&& after.rsg == self.rsg && after.payloads == self.payloads
            &&& e.message@ == "too many payload references"@
        }
    }
}

/// What one step of a pipeline did.
#[derive(Debug)]
pub struct Passage {
    pub transitions: Transitions,
    pub evicted: Vec<EntityId>,
}

/// What one step did, and what a subscription sees of it.
#[derive(Debug)]
pub struct Advance {
    pub passage: Passage,
    pub diff: RsgDiff,
    /// How many entities are active for the subscription.
    pub active: usize,
}

/// Subscriptions, the working set that follows them, and the payloads of its pages.
pub struct Pipeline<L: PayloadLoader> {
    pub interest: InterestManager,
    pub rsg: Rsg,
    pub cache: PayloadCache<L>,
}

impl<L: PayloadLoader> View for Pipeline<L> {
    type V = FlowView;

    open spec fn view(&self) -> FlowView {
        FlowView { interest: self.interest@, rsg: self.rsg@, payloads: self.cache@ }
    }
}

impl<L: PayloadLoader> Pipeline<L> {
    /// The parts are well formed and fit together: each page holds the payload that
    /// is loaded under its key, and is counted among those that refer to it.
    pub open spec fn wf(&self) -> bool {
        &&& self.interest.wf()
        &&& self.rsg.wf()
        &&& self.cache.wf()
        &&& coherent(self.rsg, self.cache)
        &&& counted(self@.rsg.pages, self@.payloads)
    }

    /// Nothing subscribed, nothing resident.
    pub fn new(grace: u64, loader: L) -> (p: Self)
        ensures
            p.wf(),
            p.cache.source() == loader,
            p@.interest == (InterestView { subs: Map::empty(), active: Map::empty() }),
            p@.rsg == (RsgView {
                pages: Map::empty(),
                pending: Map::empty(),
                grace,
                diffs: Map::empty(),
            }),
            p@.payloads == (CacheView { refs: Map::empty(), load_calls: 0, acquisitions: 0 }),
    {
        let p = Pipeline {
            interest: InterestManager::new(),
            rsg: Rsg::new(grace),
            cache: PayloadCache::new(loader),
        };
        proof {
            assert forall|key: Seq<char>| #[trigger]
                crate::rsg::holders(p@.rsg.pages, key) =~= Set::<u64>::empty() by {}
        }
        p
    }

    /// Moves the working set to what the subscriptions want now. `hits` has, for
    /// each subscription with an area, the entities in it.
    pub fn follow(&mut self, lsg: &Lsg, hits: &IdMap<Vec<Hit>>, now: u64) -> (r: Result<
        Transitions,
        LoadError,
    >)
        requires
            old(self).wf(),
        ensures
            final(self).wf(),
            final(self).cache.source() == old(self).cache.source(),
            kept_or_opened(
                old(self).cache,
                final(self).cache,
                old(self)@.rsg,
                lsg@,
                taken_by(old(self)@.interest, lsg@, hits@),
            ),
            match r {
                Ok(t) => {
                    &&& old(self)@.has_room(lsg@, hits@)
                    &&& t.activated@ == taken_by(old(self)@.interest, lsg@, hits@)
                    &&& t.deactivated@ == released_by(old(self)@.interest, lsg@, hits@)
                    &&& final(self)@ == old(self)@.followed(lsg@, hits@, now)
                },
                Err(e) => old(self)@.failed(
                    final(self)@,
                    old(self).cache.source(),
                    lsg@,
                    hits@,
                    e,
                ),
            },
    {
        let ghost v = self@;
        let ghost source = self.cache.source();
        let ghost on = taken_by(v.interest, lsg@, hits@);
        let t = self.interest.evaluate(lsg, hits);
        proof {
            assert(t.activated@ == on);
        }
        if !self.cache.has_room(t.activated.len()) {
            return Err(LoadError { message: "too many payload references".to_owned() });
        }
        proof {
            self.rsg.lemma_finite();
        }
        match self.rsg.apply(&t, lsg, &mut self.cache, now) {
            Ok(_) => {
                proof {
                    lemma_activations_keep_count(v.rsg, v.payloads, lsg@, on);
                    let (w, d) = all_activated(v.rsg, v.payloads, lsg@, on);
                    lemma_deactivations_keep_count(w, d, t.deactivated@, now);
                }
                Ok(t)
            },
            Err(e) => {
                proof {
                    let n = choose|n: int|
                        {
                            &&& 0 <= n < on.len()
                            &&& (self@.rsg, self@.payloads) == #[trigger] all_activated(
                                v.rsg,
                                v.payloads,
                                lsg@,
                                on.take(n),
                            )
                            &&& activation_asks(self@.rsg, self@.payloads, lsg@, on[n].1)
                            &&& source.may_load(lsg@.entities[on[n].1.0].geom_ref->0, Err(e))
                        };
                    assert(v.stopped(self@, n, source, lsg@, hits@, e));
                    lemma_activations_keep_count(v.rsg, v.payloads, lsg@, on.take(n));
                }
                Err(e)
            },
        }
    }

    /// One step: the working set follows, and what has waited for its time is
    /// evicted.
    pub fn step(&mut self, lsg: &Lsg, hits: &IdMap<Vec<Hit>>, now: u64) -> (r: Result<
        Passage,
        LoadError,
    >)
        requires
            old(self).wf(),
        ensures
            final(self).wf(),
            final(self).cache.source() == old(self).cache.source(),
            kept_or_opened(
                old(self).cache,
                final(self).cache,
                old(self)@.rsg,
                lsg@,
                taken_by(old(self)@.interest, lsg@, hits@),
            ),
            match r {
                Ok(p) => {
                    let after = old(self)@.followed(lsg@, hits@, now);
                    &&& old(self)@.has_room(lsg@, hits@)
                    &&& p.transitions.activated@ == taken_by(old(self)@.interest, lsg@, hits@)
                    &&& p.transitions.deactivated@ == released_by(
                        old(self)@.interest,
                        lsg@,
                        hits@,
                    )
                    &&& p.evicted@ == expired(after.rsg, now).map_values(|k: u64| EntityId(k))
                    &&& final(self)@ == after.evicted(now)
                },
                Err(e) => old(self)@.failed(
                    final(self)@,
                    old(self).cache.source(),
                    lsg@,
                    hits@,
                    e,
                ),
            },
    {
        match self.follow(lsg, hits, now) {
            Ok(transitions) => {
                proof {
                    self.rsg.lemma_finite();
                    lemma_eviction_keeps_count(self@.rsg, self@.payloads, now);
                }
                let evicted = self.rsg.evict_expired(now, &mut self.cache);
                Ok(Passage { transitions, evicted })
            },
            Err(e) => Err(e),
        }
    }

    /// One step, after which the diff of a subscription is drained.
    pub fn advance(
        &mut self,
        sub: SubscriptionId,
        lsg: &Lsg,
        hits: &IdMap<Vec<Hit>>,
        now: u64,
    ) -> (r: Result<Advance, LoadError>)
        requires
            old(self).wf(),
        ensures
            final(self).wf(),
            final(self).cache.source() == old(self).cache.source(),
            kept_or_opened(
                old(self).cache,
                final(self).cache,
                old(self)@.rsg,
                lsg@,
                taken_by(old(self)@.interest, lsg@, hits@),
            ),
            match r {
                Ok(a) => {
                    let mid = old(self)@.followed(lsg@, hits@, now);
                    let after = mid.evicted(now);
                    &&& old(self)@.has_room(lsg@, hits@)
                    &&& a.passage.transitions.activated@ == taken_by(
                        old(self)@.interest,
                        lsg@,
                        hits@,
                    )
                    &&& a.passage.transitions.deactivated@ == released_by(
                        old(self)@.interest,
                        lsg@,
                        hits@,
                    )
                    &&& a.passage.evicted@ == expired(mid.rsg, now).map_values(
                        |k: u64| EntityId(k),
                    )
                    &&& a.diff@ == after.rsg.diff_of(sub)
                    &&& a.active == after.interest.active_of(sub).len()
                    &&& final(self)@ == after.drained(sub)
                },
                Err(e) => old(self)@.failed(
                    final(self)@,
                    old(self).cache.source(),
                    lsg@,
                    hits@,
                    e,
                ),
            },
    {
        match self.step(lsg, hits, now) {
            Ok(passage) => {
                let ghost stepped = self.rsg;
                let diff = self.rsg.take_diff(sub);
                proof {
                    assert forall|id: EntityId| #[trigger] self.rsg@.has(id) implies stepped@.has(
                        id,
                    ) by {}
                }
                let active: usize = self.interest.active_count(sub);
                Ok(Advance { passage, diff, active })
            },
            Err(e) => Err(e),
        }
    }
}

// ---------------------------------------------------------------------------
// What holds of a pipeline.

/// The working set mirrors the subscriptions: a page has a subscriber just where
/// the entity is active for it.
pub open spec fn mirrors(v: FlowView) -> bool {
    forall|s: u64, k: u64|
        #![trigger v.interest.active_of(s).contains(k)]
        #![trigger subscribed(v.rsg, s, EntityId(k))]
        subscribed(v.rsg, s, EntityId(k)) <==> v.interest.active_of(s).contains(k)
}

proof fn lemma_pairs(s: u64, set: Set<u64>, p: (SubscriptionId, EntityId))
    requires
        set.finite(),
    ensures
        pairs(s, ascending(set)).contains(p) <==> p.0 == s && set.contains(p.1.0),
{
    let ids = ascending(set);
    lemma_ascending(set);
    if pairs(s, ids).contains(p) {
        let i = choose|i: int| 0 <= i < pairs(s, ids).len() && pairs(s, ids)[i] == p;
        assert(ids.contains(ids[i]));
    }
    if p.0 == s && set.contains(p.1.0) {
        assert(ids.contains(p.1.0));
        let i = choose|i: int| 0 <= i < ids.len() && ids[i] == p.1.0;
        assert(pairs(s, ids)[i] == p);
    }
}

proof fn lemma_joined(
    a: Seq<(SubscriptionId, EntityId)>,
    b: Seq<(SubscriptionId, EntityId)>,
    p: (SubscriptionId, EntityId),
)
    ensures
        (a + b).contains(p) <==> a.contains(p) || b.contains(p),
{
    if a.contains(p) {
        let i = choose|i: int| 0 <= i < a.len() && a[i] == p;
        assert((a + b)[i] == p);
    }
    if b.contains(p) {
        let i = choose|i: int| 0 <= i < b.len() && b[i] == p;
        assert((a + b)[a.len() + i] == p);
    }
    if (a + b).contains(p) {
        let i = choose|i: int| 0 <= i < (a + b).len() && (a + b)[i] == p;
        if i < a.len() {
            assert(a[i] == p);
        } else {
            assert(b[i - a.len()] == p);
        }
    }
}

proof fn lemma_listed(subs: Seq<u64>, s: u64)
    requires
        subs.len() > 0,
    ensures
        subs.contains(s) <==> subs.drop_last().contains(s) || s == subs.last(),
{
    let init = subs.drop_last();
    if init.contains(s) {
        let i = choose|i: int| 0 <= i < init.len() && init[i] == s;
        assert(subs[i] == s);
    }
    assert(subs[subs.len() - 1] == subs.last());
    if subs.contains(s) && s != subs.last() {
        let i = choose|i: int| 0 <= i < subs.len() && subs[i] == s;
        assert(init[i] == s);
    }
}

/// What the lists of an evaluation hold.
proof fn lemma_transitions(
    v: InterestView,
    lsg: LsgView,
    hits: Map<u64, Vec<Hit>>,
    subs: Seq<u64>,
    p: (SubscriptionId, EntityId),
)
    requires
        forall|s: u64| (#[trigger] v.active_of(s)).finite(),
    ensures
        gained(v, lsg, hits, subs).contains(p) <==> subs.contains(p.0) && v.target(
            lsg,
            hits,
            p.0,
        ).contains(p.1.0) && !v.active_of(p.0).contains(p.1.0),
        lost(v, lsg, hits, subs).contains(p) <==> subs.contains(p.0) && !v.target(
            lsg,
            hits,
            p.0,
        ).contains(p.1.0) && v.active_of(p.0).contains(p.1.0),
        dropped(v, subs).contains(p) <==> subs.contains(p.0) && v.active_of(p.0).contains(p.1.0),
    decreases subs.len(),
{
    if subs.len() > 0 {
        let init = subs.drop_last();
        let s = subs.last();
        let want = v.target(lsg, hits, s);
        lemma_transitions(v, lsg, hits, init, p);
        lemma_listed(subs, p.0);
        law_budget_is_kept(lsg, v.subs[s], hits_for(hits, s));
        let on = want.difference(v.active_of(s));
        let off = v.active_of(s).difference(want);
        assert(v.active_of(s).finite());
        assert(on.subset_of(want));
        assert(off.subset_of(v.active_of(s)));
        vstd::set_lib::lemma_set_subset_finite(want, on);
        vstd::set_lib::lemma_set_subset_finite(v.active_of(s), off);
        lemma_pairs(s, on, p);
        lemma_pairs(s, off, p);
        lemma_pairs(s, v.active_of(s), p);
        lemma_joined(gained(v, lsg, hits, init), pairs(s, ascending(on)), p);
        lemma_joined(lost(v, lsg, hits, init), pairs(s, ascending(off)), p);
        lemma_joined(dropped(v, init), pairs(s, ascending(v.active_of(s))), p);
    }
}

proof fn lemma_last(list: Seq<(SubscriptionId, EntityId)>, p: (SubscriptionId, EntityId))
    requires
        list.len() > 0,
    ensures
        list.contains(p) <==> list.drop_last().contains(p) || p == list.last(),
{
    assert(list =~= list.drop_last() + seq![list.last()]);
    lemma_joined(list.drop_last(), seq![list.last()], p);
    assert(seq![list.last()].contains(p) <==> p == list.last()) by {
        assert(seq![list.last()][0] == list.last());
    }
}

proof fn lemma_after_activations(
    v: RsgView,
    c: CacheView,
    lsg: LsgView,
    list: Seq<(SubscriptionId, EntityId)>,
    s: SubscriptionId,
    id: EntityId,
)
    requires
        forall|i: int| 0 <= i < list.len() ==> lsg.has((#[trigger] list[i]).1),
    ensures
        subscribed(all_activated(v, c, lsg, list).0, s, id) <==> subscribed(v, s, id)
            || list.contains((s, id)),
    decreases list.len(),
{
    if list.len() > 0 {
        let init = list.drop_last();
        assert forall|i: int| 0 <= i < init.len() implies lsg.has((#[trigger] init[i]).1) by {
            assert(lsg.has(list[i].1));
        }
        lemma_after_activations(v, c, lsg, init, s, id);
        lemma_last(list, (s, id));
        assert(lsg.has(list[list.len() - 1].1));
    }
}

proof fn lemma_after_deactivations(
    v: RsgView,
    list: Seq<(SubscriptionId, EntityId)>,
    now: u64,
    s: SubscriptionId,
    id: EntityId,
)
    ensures
        subscribed(all_deactivated(v, list, now), s, id) <==> subscribed(v, s, id)
            && !list.contains((s, id)),
    decreases list.len(),
{
    if list.len() > 0 {
        lemma_after_deactivations(v, list.drop_last(), now, s, id);
        lemma_last(list, (s, id));
    }
}

/// What becomes active is in the index.
proof fn lemma_taken_are_indexed(v: InterestView, lsg: LsgView, hits: Map<u64, Vec<Hit>>)
    requires
        v.subs.dom().finite(),
        forall|s: u64| (#[trigger] v.active_of(s)).finite(),
    ensures
        forall|i: int|
            0 <= i < taken_by(v, lsg, hits).len() ==> lsg.has(
                (#[trigger] taken_by(v, lsg, hits)[i]).1,
            ),
{
    let on = taken_by(v, lsg, hits);
    let subs = ascending(v.subs.dom());
    assert forall|i: int| 0 <= i < on.len() implies lsg.has((#[trigger] on[i]).1) by {
        let p = on[i];
        assert(on.contains(p));
        lemma_transitions(v, lsg, hits, subs, p);
        law_only_hits_are_active(lsg, v.subs[p.0], hits_for(hits, p.0), p.1.0);
    }
}

/// After each step the working set mirrors the subscriptions, as it did before:
/// what a bridge is shown of a subscription is what is active for it.
pub proof fn law_working_set_mirrors_interest(
    v: FlowView,
    lsg: LsgView,
    hits: Map<u64, Vec<Hit>>,
    now: u64,
)
    requires
        mirrors(v),
        v.interest.subs.dom().finite(),
        v.interest.active.dom().finite(),
        forall|s: u64| (#[trigger] v.interest.active_of(s)).finite(),
    ensures
        mirrors(v.followed(lsg, hits, now)),
{
    let i = v.interest;
    let w = v.followed(lsg, hits, now);
    let subs = ascending(i.subs.dom());
    let gone = ascending(i.gone());
    let on = taken_by(i, lsg, hits);
    let off = released_by(i, lsg, hits);
    assert(i.gone().subset_of(i.active.dom()));
    vstd::set_lib::lemma_set_subset_finite(i.active.dom(), i.gone());
    lemma_ascending(i.subs.dom());
    lemma_ascending(i.gone());
    lemma_taken_are_indexed(i, lsg, hits);
    let mid = all_activated(v.rsg, v.payloads, lsg, on).0;
    assert forall|s: u64, k: u64| subscribed(w.rsg, s, EntityId(k))
        <==> #[trigger] w.interest.active_of(s).contains(k) by {
        let p = (s, EntityId(k));
        assert(subscribed(v.rsg, s, EntityId(k)) <==> i.active_of(s).contains(k));
        lemma_transitions(i, lsg, hits, subs, p);
        lemma_transitions(i, lsg, hits, gone, p);
        lemma_joined(dropped(i, gone), lost(i, lsg, hits, subs), p);
        lemma_after_activations(v.rsg, v.payloads, lsg, on, s, EntityId(k));
        lemma_after_deactivations(mid, off, now, s, EntityId(k));
        assert(subs.contains(s) <==> i.subs.dom().contains(s));
        assert(gone.contains(s) <==> i.gone().contains(s));
        if i.subs.contains_key(s) {
            assert(w.interest.active_of(s) == i.target(lsg, hits, s));
        } else {
            assert(w.interest.active_of(s) =~= Set::empty());
        }
    }
}

/// Eviction takes nothing from what a subscription sees.
pub proof fn law_eviction_keeps_the_mirror(v: FlowView, now: u64)
    requires
        mirrors(v),
        v.rsg.valid(),
    ensures
        mirrors(v.evicted(now)),
{
    let w = v.evicted(now);
    assert forall|s: u64, k: u64| subscribed(w.rsg, s, EntityId(k))
        <==> #[trigger] w.interest.active_of(s).contains(k) by {
        assert(subscribed(v.rsg, s, EntityId(k)) <==> v.interest.active_of(s).contains(k));
        if v.rsg.pending.contains_key(k) {
            assert(!v.rsg.pages[k].subscribers.contains(s));
        }
    }
}

proof fn lemma_upserts_after(
    v: RsgView,
    c: CacheView,
    lsg: LsgView,
    list: Seq<(SubscriptionId, EntityId)>,
    s: SubscriptionId,
    id: EntityId,
)
    requires
        forall|i: int| 0 <= i < list.len() ==> lsg.has((#[trigger] list[i]).1),
    ensures
        ({
            let w = all_activated(v, c, lsg, list).0;
            &&& w.diff_of(s).upserts.contains(id) <==> v.diff_of(s).upserts.contains(id)
                || list.contains((s, id))
            &&& w.diff_of(s).removes.contains(id) <==> v.diff_of(s).removes.contains(id)
                && !list.contains((s, id))
        }),
    decreases list.len(),
{
    if list.len() > 0 {
        let init = list.drop_last();
        assert forall|i: int| 0 <= i < init.len() implies lsg.has((#[trigger] init[i]).1) by {
            assert(lsg.has(list[i].1));
        }
        lemma_upserts_after(v, c, lsg, init, s, id);
        lemma_last(list, (s, id));
        assert(lsg.has(list[list.len() - 1].1));
        let d = all_activated(v, c, lsg, init).0.diff_of(s);
        lemma_pushed(d.upserts, list.last().1, id);
        lemma_without(d.removes, list.last().1);
    }
}

proof fn lemma_removes_after(
    v: RsgView,
    list: Seq<(SubscriptionId, EntityId)>,
    now: u64,
    s: SubscriptionId,
    id: EntityId,
)
    ensures
        ({
            let w = all_deactivated(v, list, now);
            &&& w.diff_of(s).removes.contains(id) <==> v.diff_of(s).removes.contains(id)
                || list.contains((s, id))
            &&& w.diff_of(s).upserts.contains(id) <==> v.diff_of(s).upserts.contains(id)
                && !list.contains((s, id))
        }),
    decreases list.len(),
{
    if list.len() > 0 {
        let init = list.drop_last();
        lemma_removes_after(v, init, now, s, id);
        lemma_last(list, (s, id));
        let d = all_deactivated(v, init, now).diff_of(s);
        lemma_pushed(d.removes, list.last().1, id);
        lemma_without(d.upserts, list.last().1);
    }
}

/// What a subscription collects over a step, where its diff was drained before, is
/// the change of its active set: it upserts what came in and removes what went,
/// and nothing else.
pub proof fn law_diff_is_the_change(
    v: FlowView,
    lsg: LsgView,
    hits: Map<u64, Vec<Hit>>,
    now: u64,
    s: SubscriptionId,
    k: u64,
)
    requires
        v.rsg.diff_of(s) == no_change(),
        v.interest.subs.dom().finite(),
        v.interest.active.dom().finite(),
        forall|s: u64| (#[trigger] v.interest.active_of(s)).finite(),
    ensures
        ({
            let w = v.followed(lsg, hits, now).evicted(now);
            let before = v.interest.active_of(s).contains(k);
            let after = w.interest.active_of(s).contains(k);
            &&& w.rsg.diff_of(s).upserts.contains(EntityId(k)) <==> after && !before
            &&& w.rsg.diff_of(s).removes.contains(EntityId(k)) <==> before && !after
            &&& after ==> lsg.has(EntityId(k))
        }),
{
    let i = v.interest;
    let w = v.followed(lsg, hits, now);
    let p = (s, EntityId(k));
    let subs = ascending(i.subs.dom());
    let gone = ascending(i.gone());
    let on = taken_by(i, lsg, hits);
    let off = released_by(i, lsg, hits);
    assert(i.gone().subset_of(i.active.dom()));
    vstd::set_lib::lemma_set_subset_finite(i.active.dom(), i.gone());
    lemma_ascending(i.subs.dom());
    lemma_ascending(i.gone());
    lemma_taken_are_indexed(i, lsg, hits);
    lemma_transitions(i, lsg, hits, subs, p);
    lemma_transitions(i, lsg, hits, gone, p);
    lemma_joined(dropped(i, gone), lost(i, lsg, hits, subs), p);
    let mid = all_activated(v.rsg, v.payloads, lsg, on).0;
    lemma_upserts_after(v.rsg, v.payloads, lsg, on, s, EntityId(k));
    lemma_removes_after(mid, off, now, s, EntityId(k));
    assert(subs.contains(s) <==> i.subs.dom().contains(s));
    assert(gone.contains(s) <==> i.gone().contains(s));
    assert(w.evicted(now).rsg.diff_of(s) == w.rsg.diff_of(s));
    if i.subs.contains_key(s) {
        assert(w.interest.active_of(s) == i.target(lsg, hits, s));
        if w.interest.active_of(s).contains(k) {
            law_only_hits_are_active(lsg, i.subs[s], hits_for(hits, s), k);
        }
    } else {
        assert(w.interest.active_of(s) =~= Set::empty());
    }
}

proof fn lemma_activations_keep_balance(
    v: RsgView,
    c: CacheView,
    lsg: LsgView,
    list: Seq<(SubscriptionId, EntityId)>,
)
    requires
        v.valid(),
        v.pages.dom().finite(),
        balanced(v.pages, c),
    ensures
        all_activated(v, c, lsg, list).0.valid(),
        balanced(all_activated(v, c, lsg, list).0.pages, all_activated(v, c, lsg, list).1),
        all_activated(v, c, lsg, list).0.pages.dom().finite(),
    decreases list.len(),
{
    if list.len() > 0 {
        lemma_activations_keep_balance(v, c, lsg, list.drop_last());
        let (w, d) = all_activated(v, c, lsg, list.drop_last());
        law_activation_keeps_balance(w, d, lsg, list.last().0, list.last().1);
        lemma_activated_valid(w, lsg, list.last().0, list.last().1);
    }
}

proof fn lemma_deactivations_keep_balance(
    v: RsgView,
    c: CacheView,
    list: Seq<(SubscriptionId, EntityId)>,
    now: u64,
)
    requires
        v.valid(),
        v.pages.dom().finite(),
        balanced(v.pages, c),
    ensures
        all_deactivated(v, list, now).valid(),
        balanced(all_deactivated(v, list, now).pages, c),
        all_deactivated(v, list, now).pages.dom().finite(),
    decreases list.len(),
{
    if list.len() > 0 {
        lemma_deactivations_keep_balance(v, c, list.drop_last(), now);
        let w = all_deactivated(v, list.drop_last(), now);
        law_deactivation_keeps_balance(w, c, list.last().0, list.last().1, now);
        lemma_deactivated_valid(w, list.last().0, list.last().1, now);
    }
}

proof fn lemma_activations_keep_count(
    v: RsgView,
    c: CacheView,
    lsg: LsgView,
    list: Seq<(SubscriptionId, EntityId)>,
)
    requires
        v.pages.dom().finite(),
        counted(v.pages, c),
    ensures
        counted(all_activated(v, c, lsg, list).0.pages, all_activated(v, c, lsg, list).1),
        all_activated(v, c, lsg, list).0.pages.dom().finite(),
    decreases list.len(),
{
    if list.len() > 0 {
        lemma_activations_keep_count(v, c, lsg, list.drop_last());
        let (w, d) = all_activated(v, c, lsg, list.drop_last());
        lemma_activation_keeps_count(w, d, lsg, list.last().0, list.last().1);
    }
}

proof fn lemma_deactivations_keep_count(
    v: RsgView,
    c: CacheView,
    list: Seq<(SubscriptionId, EntityId)>,
    now: u64,
)
    requires
        counted(v.pages, c),
    ensures
        counted(all_deactivated(v, list, now).pages, c),
    decreases list.len(),
{
    if list.len() > 0 {
        lemma_deactivations_keep_count(v, c, list.drop_last(), now);
        let w = all_deactivated(v, list.drop_last(), now);
        lemma_counted_grows(w.pages, all_deactivated(v, list, now).pages, c, c);
    }
}

/// A step keeps payloads and pages in balance: a payload is open just while a
/// resident page holds it, and it is open once, however many pages do.
pub proof fn law_step_keeps_balance(
    v: FlowView,
    lsg: LsgView,
    hits: Map<u64, Vec<Hit>>,
    now: u64,
)
    requires
        v.rsg.valid(),
        v.rsg.pages.dom().finite(),
        balanced(v.rsg.pages, v.payloads),
    ensures
        balanced(v.followed(lsg, hits, now).rsg.pages, v.followed(lsg, hits, now).payloads),
        balanced(
            v.followed(lsg, hits, now).evicted(now).rsg.pages,
            v.followed(lsg, hits, now).evicted(now).payloads,
        ),
{
    let on = taken_by(v.interest, lsg, hits);
    let off = released_by(v.interest, lsg, hits);
    lemma_activations_keep_balance(v.rsg, v.payloads, lsg, on);
    let (w, d) = all_activated(v.rsg, v.payloads, lsg, on);
    lemma_deactivations_keep_balance(w, d, off, now);
    law_eviction_keeps_balance(all_deactivated(w, off, now), d, now);
}

/// An edit of opinions does not storm the working set: where no subscription
/// filters by tags, or the edit leaves all tags alone, evaluating again after it
/// activates nothing and deactivates nothing.
pub proof fn law_reload_does_not_storm(
    v: InterestView,
    lsg: LsgView,
    hits: Map<u64, Vec<Hit>>,
    prev: Seq<StoredOpinionView>,
    new: Seq<StoredOpinionView>,
)
    requires
        v.subs.dom().finite(),
        ({
            let edited = reconciled(lsg, prev, new).0;
            ||| forall|s: u64| #[trigger]
                v.subs.contains_key(s) ==> v.subs[s].tags_filter.len() == 0
            ||| forall|k: u64| #[trigger]
                lsg.entities.contains_key(k) ==> edited.entities[k].tags == lsg.entities[k].tags
        }),
    ensures
        ({
            let w = evaluated(v, lsg, hits);
            let edited = reconciled(lsg, prev, new).0;
            &&& evaluated(w, edited, hits) == w
            &&& taken_by(w, edited, hits).len() == 0
            &&& released_by(w, edited, hits).len() == 0
        }),
{
    let edited = reconciled(lsg, prev, new).0;
    let w = evaluated(v, lsg, hits);
    law_reload_edits_in_place(lsg, prev, new);
    assert forall|s: u64| #[trigger] v.subs.contains_key(s) implies v.target(edited, hits, s)
        == v.target(lsg, hits, s) by {
        lemma_same_target(lsg, edited, v.subs[s], hits_for(hits, s));
    }
    assert(evaluated(v, edited, hits).active =~= w.active);
    assert(evaluated(v, edited, hits) == w);
    law_second_evaluation_is_quiet(v, edited, hits);
}

proof fn lemma_same_target(lsg: LsgView, edited: LsgView, sub: SubscriptionView, hits: Seq<Hit>)
    requires
        edited.entities.dom() == lsg.entities.dom(),
        sub.tags_filter.len() == 0 || forall|k: u64| #[trigger]
            lsg.entities.contains_key(k) ==> edited.entities[k].tags == lsg.entities[k].tags,
    ensures
        target_of(edited, sub, hits) == target_of(lsg, sub, hits),
{
    assert forall|k: u64|
        edited.entities.contains_key(k) == #[trigger] lsg.entities.contains_key(k) by {
        assert(edited.entities.dom().contains(k) == lsg.entities.dom().contains(k));
    }
    assert(selection(edited, sub.entity_ids) =~= selection(lsg, sub.entity_ids));
    lemma_same_taken(lsg, edited, Set::empty(), sub.entity_ids, sub.budget);
    let f = |h: Hit| crate::interest::counts(edited, sub, h);
    let g = |h: Hit| crate::interest::counts(lsg, sub, h);
    assert(f =~= g);
}

proof fn lemma_same_taken(
    lsg: LsgView,
    edited: LsgView,
    target: Set<u64>,
    ids: Seq<EntityId>,
    budget: usize,
)
    requires
        forall|k: u64|
            edited.entities.contains_key(k) == #[trigger] lsg.entities.contains_key(k),
    ensures
        taken(edited, target, ids, budget) == taken(lsg, target, ids, budget),
    decreases ids.len(),
{
    if ids.len() > 0 && target.len() < budget {
        assert(edited.has(ids[0]) == lsg.has(ids[0])) by {
            assert(edited.entities.contains_key(ids[0].0) == lsg.entities.contains_key(ids[0].0));
        }
        if lsg.has(ids[0]) {
            lemma_same_taken(lsg, edited, target.insert(ids[0].0), ids.drop_first(), budget);
        } else {
            lemma_same_taken(lsg, edited, target, ids.drop_first(), budget);
        }
    }
}

/// Draining hands the diff of one subscription out and leaves it none; the diffs of the
/// others, the pages and all else stay.
pub proof fn law_draining_empties_one_diff(v: FlowView, s: SubscriptionId, other: SubscriptionId)
    requires
        other != s,
    ensures
        v.drained(s).rsg.diff_of(s) == no_change(),
        v.drained(s).rsg.diff_of(other) == v.rsg.diff_of(other),
        v.drained(s).rsg.pages == v.rsg.pages,
        v.drained(s).rsg.pending == v.rsg.pending,
        v.drained(s).interest == v.interest,
        v.drained(s).payloads == v.payloads,
{
}

} // verus!
