//! Alerts: a narrow push path that makes entities active wherever the camera is.

use crate::interest::{
    Interaction, InterestManager, InterestView, SubscriberKind, Subscription, SubscriptionId,
    SubscriptionView,
};
use crate::lsg::{EntityId, Lsg, LsgView};
use crate::model::{group_models, views};
use vstd::prelude::*;
use vstd::string::*;

verus! {

/// An alert about an asset.
#[derive(Debug, Clone, PartialEq, Eq)]
pub struct AlertEvent {
    /// An asset tag (`PUMP-01`) or a prim path.
    pub selector: String,
    /// The cause, for people (`high_vibration`).
    pub reason: String,
}

pub struct AlertEventView {
    pub selector: Seq<char>,
    pub reason: Seq<char>,
}

impl View for AlertEvent {
    type V = AlertEventView;

    open spec fn view(&self) -> AlertEventView {
        AlertEventView { selector: self.selector@, reason: self.reason@ }
    }
}

impl AlertEvent {
    pub fn new(selector: &str, reason: &str) -> (e: Self)
        ensures
            e@ == (AlertEventView { selector: selector@, reason: reason@ }),
    {
        AlertEvent { selector: selector.to_owned(), reason: reason.to_owned() }
    }
}

/// A source of alerts, emptied each tick.
pub trait AlertSource {
    fn drain(&mut self) -> Vec<AlertEvent>;
}

/// A source in memory.
#[derive(Debug)]
pub struct StubAlertSource {
    queued: Vec<AlertEvent>,
}

impl StubAlertSource {
    /// The alerts that wait.
    pub closed spec fn waiting(&self) -> Seq<AlertEventView> {
        views(self.queued@)
    }

    pub fn new() -> (s: Self)
        ensures
            s.waiting() == Seq::<AlertEventView>::empty(),
    {
        let s = StubAlertSource { queued: Vec::new() };
        proof {
            assert(s.waiting() =~= Seq::empty());
        }
        s
    }

    /// Queues an alert.
    pub fn push(&mut self, selector: &str, reason: &str)
        ensures
            final(self).waiting() == old(self).waiting().push(
                (AlertEventView { selector: selector@, reason: reason@ }),
            ),
    {
        broadcast use group_models;

        self.queued.push(AlertEvent::new(selector, reason));
    }
}

impl AlertSource for StubAlertSource {
    /// Hands the queued alerts over, in order, and forgets them.
    fn drain(&mut self) -> (out: Vec<AlertEvent>)
        ensures
            views(out@) == old(self).waiting(),
            final(self).waiting() == Seq::<AlertEventView>::empty(),
    {
        let mut out: Vec<AlertEvent> = Vec::new();
        out.append(&mut self.queued);
        proof {
            assert(views(out@) =~= old(self).waiting());
            assert(self.waiting() =~= Seq::empty());
        }
        out
    }
}

/// The entities that alerts are about, each once, in the order of the alerts.
pub open spec fn alerted(lsg: LsgView, events: Seq<AlertEventView>) -> Seq<EntityId>
    decreases events.len(),
{
    if events.len() == 0 {
        Seq::empty()
    } else {
        let init = alerted(lsg, events.drop_last());
        match lsg.selected(events.last().selector) {
            Some(id) if !init.contains(id) => init.push(id),
            _ => init,
        }
    }
}

/// The subscription that keeps alerted entities active.
pub open spec fn alert_subscription(
    id: SubscriptionId,
    ids: Seq<EntityId>,
    budget: usize,
) -> SubscriptionView {
    SubscriptionView {
        id,
        kind: SubscriberKind::AlertRule,
        viewer_profile: None,
        region: None,
        entity_ids: ids,
        tags_filter: Seq::empty(),
        budget,
        interaction: Interaction::ReadOnly,
    }
}

/// Is an id in a list?
pub fn holds_id(ids: &Vec<EntityId>, id: EntityId) -> (b: bool)
    ensures
        b == ids@.contains(id),
{
    let mut i: usize = 0;
    while i < ids.len()
        invariant
            i <= ids@.len(),
            forall|j: int| 0 <= j < i ==> ids@[j] != id,
        decreases ids@.len() - i,
    {
        if ids[i] == id {
            return true;
        }
        i = i + 1;
    }
    false
}

/// Turns alerts into one subscription that selects the entities they are about,
/// whatever the camera sees. Returns those entities; without any, nothing is
/// registered.
pub fn force_subscription(
    events: &[AlertEvent],
    lsg: &Lsg,
    im: &mut InterestManager,
    sub_id: SubscriptionId,
    budget: usize,
) -> (ids: Vec<EntityId>)
    requires
        lsg.wf(),
        old(im).wf(),
    ensures
        final(im).wf(),
        ids@ == alerted(lsg@, views(events@)),
        ids@.len() == 0 ==> *final(im) == *old(im),
        ids@.len() > 0 ==> final(im)@ == (InterestView {
            subs: old(im)@.subs.insert(sub_id, alert_subscription(sub_id, ids@, budget)),
            active: old(im)@.active.insert(sub_id, old(im)@.active_of(sub_id)),
        }),
{
    let ghost all = views(events@);
    let mut ids: Vec<EntityId> = Vec::new();
    let mut i: usize = 0;
    proof {
        assert(ids@ =~= alerted(lsg@, all.take(0)));
    }
    while i < events.len()
        invariant
            i <= events@.len(),
            lsg.wf(),
            all == views(events@),
            ids@ == alerted(lsg@, all.take(i as int)),
        decreases events@.len() - i,
    {
        proof {
            assert(all.take(i + 1).drop_last() =~= all.take(i as int));
            assert(all.take(i + 1).last() == events@[i as int]@);
        }
        if let Some(e) = lsg.resolve_selector(events[i].selector.as_str()) {
            if !holds_id(&ids, e.id) {
                ids.push(e.id);
            }
        }
        i = i + 1;
    }
    proof {
        assert(all.take(i as int) =~= all);
    }
    if ids.len() == 0 {
        return ids;
    }
    let chosen = ids.clone();
    let sub = Subscription {
        id: sub_id,
        kind: SubscriberKind::AlertRule,
        viewer_profile: None,
        region: None,
        entity_ids: chosen,
        tags_filter: Vec::new(),
        budget,
        interaction: Interaction::ReadOnly,
    };
    proof {
        assert(chosen@ =~= ids@);
        assert(sub@.tags_filter =~= Seq::empty());
        assert(sub@ == alert_subscription(sub_id, ids@, budget));
    }
    let _ = im.upsert(sub);
    ids
}

/// An entity that an alert is about is active, whatever the areas, where the budget
/// has room for the entities that the alerts are about.
pub proof fn law_alerted_entities_are_active(
    lsg: LsgView,
    events: Seq<AlertEventView>,
    sub_id: SubscriptionId,
    budget: usize,
    hits: Seq<crate::interest::Hit>,
    i: int,
)
    requires
        lsg.valid(),
        0 <= i < events.len(),
        lsg.selected(events[i].selector) is Some,
        crate::interest::selection(lsg, alerted(lsg, events)).len() <= budget,
    ensures
        crate::interest::target_of(
            lsg,
            alert_subscription(sub_id, alerted(lsg, events), budget),
            hits,
        ).contains((lsg.selected(events[i].selector)->0).0),
{
    let id = lsg.selected(events[i].selector)->0;
    lemma_alerted(lsg, events, i);
    crate::interest::law_selection_comes_first(
        lsg,
        alert_subscription(sub_id, alerted(lsg, events), budget),
        hits,
    );
    assert(EntityId(id.0) == id);
    assert(lsg.has(id));
}

proof fn lemma_alerted(lsg: LsgView, events: Seq<AlertEventView>, i: int)
    requires
        0 <= i < events.len(),
        lsg.selected(events[i].selector) is Some,
    ensures
        alerted(lsg, events).contains(lsg.selected(events[i].selector)->0),
    decreases events.len(),
{
    let id = lsg.selected(events[i].selector)->0;
    let init = alerted(lsg, events.drop_last());
    let all = alerted(lsg, events);
    if i < events.len() - 1 {
        assert(events.drop_last()[i] == events[i]);
        lemma_alerted(lsg, events.drop_last(), i);
        let j = choose|j: int| 0 <= j < init.len() && init[j] == id;
        assert(all[j] == id);
    } else if !init.contains(id) {
        assert(all[init.len() as int] == id);
    }
}

} // verus!
