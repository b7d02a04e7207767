//! What subscriptions and alerts make active, and what is told of it.

use crate::alert::{alert_subscription, alerted, AlertEventView};
use crate::interest::{
    counts, dropped, eligible, gained, law_nearest_hits_are_active, law_only_hits_are_active, lost,
    no_farther, pairs, passes, refusal, selection, taken, target_of, Hit, Interaction, InterestView,
    Region, SubscriberKind, SubscriptionId, SubscriptionView, ViewerProfile,
};
use crate::lsg::{Aabb, EntityId, LsgView};
use crate::model::{lemma_filter_from, lemma_filter_keeps};
use crate::scalar::Double;
use crate::spatial::{block, line, overlap, slab, Cell, SpatialIndex};
use crate::table::{ascending, lemma_ascending};
use crate::text::decimal_of;
use vstd::prelude::*;
use vstd::string::*;

verus! {

// ---------------------------------------------------------------------------
// Who may ask for what.

/// An operator may ask for any interaction, an engineer for all but the full one, and
/// an observer only to look. Without a profile anything may be asked for.
pub proof fn law_profiles_limit_interaction(sub: SubscriptionView)
    ensures
        sub.viewer_profile is None ==> sub.permitted(),
        sub.viewer_profile == Some(ViewerProfile::Operator) ==> sub.permitted(),
        sub.viewer_profile == Some(ViewerProfile::Engineer) ==> (sub.permitted() <==> sub.interaction
            != Interaction::Full),
        sub.viewer_profile == Some(ViewerProfile::Observer) ==> (sub.permitted() <==> sub.interaction
            == Interaction::ReadOnly),
{
    assert(sub.interaction == Interaction::Full || sub.interaction == Interaction::Limited
        || sub.interaction == Interaction::ReadOnly);
}

/// A refusal names the subscription, the profile and the interaction.
pub proof fn law_refusals_name_what_was_asked(id: SubscriptionId)
    ensures
        forall|p: ViewerProfile, i: Interaction| #[trigger]
            refusal(id, p, i) == "subscription "@ + decimal_of(id as nat) + ": profile "@ + (match p {
                ViewerProfile::Operator => "Operator"@,
                ViewerProfile::Engineer => "Engineer"@,
                ViewerProfile::Observer => "Observer"@,
            }) + " may not request interaction "@ + (match i {
                Interaction::Full => "Full"@,
                Interaction::Limited => "Limited"@,
                Interaction::ReadOnly => "ReadOnly"@,
            }),
{
    assert forall|p: ViewerProfile, i: Interaction| #[trigger]
        refusal(id, p, i) == "subscription "@ + decimal_of(id as nat) + ": profile "@ + (match p {
            ViewerProfile::Operator => "Operator"@,
            ViewerProfile::Engineer => "Engineer"@,
            ViewerProfile::Observer => "Observer"@,
        }) + " may not request interaction "@ + (match i {
            Interaction::Full => "Full"@,
            Interaction::Limited => "Limited"@,
            Interaction::ReadOnly => "ReadOnly"@,
        }) by {
        assert(refusal(id, p, i) =~= "subscription "@ + decimal_of(id as nat) + ": profile "@
            + p.name_of() + " may not request interaction "@ + i.name_of());
    }
}

// ---------------------------------------------------------------------------
// What is active.

/// Two lists of texts share one.
pub open spec fn share_a_text(a: Seq<Seq<char>>, b: Seq<Seq<char>>) -> bool {
    exists|i: int, j: int| 0 <= i < a.len() && 0 <= j < b.len() && #[trigger] a[i] == #[trigger] b[j]
}

/// An entity passes a tag filter that is empty, and otherwise one with which it shares
/// a tag.
pub proof fn law_one_shared_tag_passes(filter: Seq<Seq<char>>, tags: Seq<Seq<char>>)
    ensures
        passes(filter, tags) <==> filter.len() == 0 || share_a_text(filter, tags),
{
    if share_a_text(filter, tags) {
        let (i, j) = choose|i: int, j: int|
            0 <= i < filter.len() && 0 <= j < tags.len() && #[trigger] filter[i]
                == #[trigger] tags[j];
        assert(filter.contains(filter[i]) && tags.contains(filter[i]));
    }
    if filter.len() > 0 && passes(filter, tags) {
        let t = choose|t: Seq<char>| #[trigger] filter.contains(t) && tags.contains(t);
        let i = choose|i: int| 0 <= i < filter.len() && filter[i] == t;
        let j = choose|j: int| 0 <= j < tags.len() && tags[j] == t;
        assert(filter[i] == tags[j]);
    }
}

/// The nearer of two hits comes first; of two at one distance that with the smaller id.
pub proof fn law_nearer_hits_come_first(a: Hit, b: Hit)
    requires
        !a.distance.nan(),
        !b.distance.nan(),
    ensures
        a.distance.less(b.distance) ==> no_farther(a, b) && !no_farther(b, a),
        a.distance.same(b.distance) && a.id.0 < b.id.0 ==> no_farther(a, b) && !no_farther(b, a),
        no_farther(a, b) || no_farther(b, a),
{
}

/// Whatever is active is in the index, and was selected by the subscription or lies in
/// its area and shares a tag with its filter, where there is one.
pub proof fn law_active_entities_are_wanted(
    lsg: LsgView,
    sub: SubscriptionView,
    hits: Seq<Hit>,
    k: u64,
)
    requires
        target_of(lsg, sub, hits).contains(k),
    ensures
        lsg.entities.contains_key(k),
        sub.entity_ids.contains(EntityId(k)) || {
            &&& exists|i: int| 0 <= i < hits.len() && (#[trigger] hits[i]).id == EntityId(k)
            &&& sub.tags_filter.len() > 0 ==> share_a_text(sub.tags_filter, lsg.entities[k].tags)
        },
{
    law_only_hits_are_active(lsg, sub, hits, k);
    if !selection(lsg, sub.entity_ids).contains(k) {
        let h = choose|h: Hit|
            #![trigger hits.contains(h)]
            hits.contains(h) && h.id == EntityId(k) && counts(lsg, sub, h);
        let i = choose|i: int| 0 <= i < hits.len() && hits[i] == h;
        assert(hits[i].id == EntityId(k));
        law_one_shared_tag_passes(sub.tags_filter, lsg.entities[k].tags);
    }
}

/// An entity of the index that lies in the area of a subscription and shares a tag with
/// its filter, where there is one, is active unless the budget is full; and then none
/// that lies farther is active without being selected.
pub proof fn law_hits_are_active_while_there_is_room(
    lsg: LsgView,
    sub: SubscriptionView,
    hits: Seq<Hit>,
    i: int,
    k: u64,
)
    requires
        sub.region is Some,
        0 <= i < hits.len(),
        lsg.entities.contains_key(hits[i].id.0),
        !sub.entity_ids.contains(hits[i].id),
        sub.tags_filter.len() == 0 || share_a_text(
            sub.tags_filter,
            lsg.entities[hits[i].id.0].tags,
        ),
        !target_of(lsg, sub, hits).contains(hits[i].id.0),
    ensures
        target_of(lsg, sub, hits).len() >= sub.budget,
        target_of(lsg, sub, hits).contains(k) && !sub.entity_ids.contains(EntityId(k))
            ==> exists|j: int|
            0 <= j < hits.len() && (#[trigger] hits[j]).id == EntityId(k) && no_farther(
                hits[j],
                hits[i],
            ),
{
    let h = hits[i];
    law_one_shared_tag_passes(sub.tags_filter, lsg.entities[h.id.0].tags);
    let f = |h: Hit| counts(lsg, sub, h);
    assert(h.id == EntityId(h.id.0));
    assert(f(h));
    lemma_filter_keeps(hits, f, i);
    assert(eligible(lsg, sub, hits).contains(h));
    law_nearest_hits_are_active(lsg, sub, hits, h, k);
    if target_of(lsg, sub, hits).contains(k) && !sub.entity_ids.contains(EntityId(k)) {
        let e = eligible(lsg, sub, hits);
        let g = choose|g: Hit|
            #![trigger e.contains(g)]
            e.contains(g) && g.id == EntityId(k) && no_farther(g, h);
        let a = choose|a: int| 0 <= a < e.len() && e[a] == g;
        lemma_filter_from(hits, f, a);
        let j = choose|j: int| 0 <= j < hits.len() && hits[j] == g;
        assert(hits[j].id == EntityId(k) && no_farther(hits[j], hits[i]));
    }
}

/// A selection is taken in its order: an entity that is left out stands behind all that
/// are taken, and the budget is full.
pub proof fn law_selection_is_taken_in_order(
    lsg: LsgView,
    target: Set<u64>,
    ids: Seq<EntityId>,
    budget: usize,
    i: int,
    j: int,
)
    requires
        target.finite(),
        0 <= i < j < ids.len(),
        lsg.entities.contains_key(ids[i].0),
        !taken(lsg, target, ids, budget).contains(ids[i].0),
    ensures
        taken(lsg, target, ids, budget).len() >= budget,
        taken(lsg, target, ids, budget).contains(ids[j].0) ==> target.contains(ids[j].0) || exists|
            a: int,
        |
            0 <= a < i && #[trigger] ids[a] == ids[j],
    decreases ids.len(),
{
    if target.len() >= budget {
    } else {
        let rest = ids.drop_first();
        let next = if lsg.has(ids[0]) {
            target.insert(ids[0].0)
        } else {
            target
        };
        lemma_taken_grows(lsg, next, rest, budget);
        if i == 0 {
            assert(next.contains(ids[0].0));
        } else {
            assert(rest[i - 1] == ids[i] && rest[j - 1] == ids[j]);
            law_selection_is_taken_in_order(lsg, next, rest, budget, i - 1, j - 1);
            if taken(lsg, target, ids, budget).contains(ids[j].0) && !target.contains(ids[j].0) {
                if next.contains(ids[j].0) {
                    assert(ids[0] == ids[j]);
                } else {
                    let a = choose|a: int| 0 <= a < i - 1 && #[trigger] rest[a] == rest[j - 1];
                    assert(ids[a + 1] == ids[j]);
                }
            }
        }
    }
}

proof fn lemma_taken_grows(lsg: LsgView, target: Set<u64>, ids: Seq<EntityId>, budget: usize)
    ensures
        target.subset_of(taken(lsg, target, ids, budget)),
    decreases ids.len(),
{
    if ids.len() == 0 || target.len() >= budget {
    } else if lsg.has(ids[0]) {
        lemma_taken_grows(lsg, target.insert(ids[0].0), ids.drop_first(), budget);
    } else {
        lemma_taken_grows(lsg, target, ids.drop_first(), budget);
    }
}

// ---------------------------------------------------------------------------
// What an evaluation tells.

proof fn lemma_pairs(s: u64, set: Set<u64>, p: (SubscriptionId, EntityId))
    requires
        set.finite(),
    ensures
        pairs(s, ascending(set)).contains(p) <==> p.0 == s && set.contains(p.1.0),
        pairs(s, ascending(set)).no_duplicates(),
{
    let ids = ascending(set);
    lemma_ascending(set);
    let all = pairs(s, ids);
    if all.contains(p) {
        let i = choose|i: int| 0 <= i < all.len() && all[i] == p;
        assert(ids.contains(ids[i]));
    }
    if p.0 == s && set.contains(p.1.0) {
        assert(ids.contains(p.1.0));
        let i = choose|i: int| 0 <= i < ids.len() && ids[i] == p.1.0;
        assert(all[i] == p);
    }
    assert forall|i: int, j: int| 0 <= i < all.len() && 0 <= j < all.len() && i != j implies all[i]
        != all[j] by {
        if i < j {
            assert(ids[i] < ids[j]);
        } else {
            assert(ids[j] < ids[i]);
        }
    }
}

proof fn lemma_concat_contains<A>(a: Seq<A>, b: Seq<A>, x: A)
    ensures
        (a + b).contains(x) <==> a.contains(x) || b.contains(x),
{
    if a.contains(x) {
        let i = choose|i: int| 0 <= i < a.len() && a[i] == x;
        assert((a + b)[i] == x);
    }
    if b.contains(x) {
        let i = choose|i: int| 0 <= i < b.len() && b[i] == x;
        assert((a + b)[a.len() + i] == x);
    }
    if (a + b).contains(x) {
        let i = choose|i: int| 0 <= i < (a + b).len() && (a + b)[i] == x;
        if i < a.len() {
            assert(a[i] == x);
        } else {
            assert(b[i - a.len()] == x);
        }
    }
}

proof fn lemma_push_contains<A>(a: Seq<A>, last: A, x: A)
    ensures
        a.push(last).contains(x) <==> a.contains(x) || last == x,
{
    if a.contains(x) {
        let i = choose|i: int| 0 <= i < a.len() && a[i] == x;
        assert(a.push(last)[i] == x);
    }
    assert(a.push(last)[a.len() as int] == last);
}

/// An evaluation tells of an entity that it became active for one of the listed
/// subscriptions exactly where it is wanted now and was not active before, and that it
/// is so no longer exactly where it was and is not wanted.
pub proof fn law_changes_are_told(
    v: InterestView,
    lsg: LsgView,
    hits: Map<u64, Vec<Hit>>,
    subs: Seq<u64>,
    s: SubscriptionId,
    k: u64,
)
    requires
        forall|q: u64| (#[trigger] v.active_of(q)).finite(),
    ensures
        gained(v, lsg, hits, subs).contains((s, EntityId(k))) <==> subs.contains(s) && v.target(
            lsg,
            hits,
            s,
        ).contains(k) && !v.active_of(s).contains(k),
        lost(v, lsg, hits, subs).contains((s, EntityId(k))) <==> subs.contains(s)
            && v.active_of(s).contains(k) && !v.target(lsg, hits, s).contains(k),
        dropped(v, subs).contains((s, EntityId(k))) <==> subs.contains(s) && v.active_of(
            s,
        ).contains(k),
    decreases subs.len(),
{
    if subs.len() > 0 {
        let init = subs.drop_last();
        let q = subs.last();
        let p = (s, EntityId(k));
        law_changes_are_told(v, lsg, hits, init, s, k);
        crate::interest::law_budget_is_kept(
            lsg,
            v.subs[q],
            crate::interest::hits_for(hits, q),
        );
        let target = v.target(lsg, hits, q);
        assert(v.active_of(q).finite());
        lemma_pairs(q, target.difference(v.active_of(q)), p);
        lemma_pairs(q, v.active_of(q).difference(target), p);
        lemma_pairs(q, v.active_of(q), p);
        lemma_concat_contains(
            gained(v, lsg, hits, init),
            pairs(q, ascending(target.difference(v.active_of(q)))),
            p,
        );
        lemma_concat_contains(
            lost(v, lsg, hits, init),
            pairs(q, ascending(v.active_of(q).difference(target))),
            p,
        );
        lemma_concat_contains(dropped(v, init), pairs(q, ascending(v.active_of(q))), p);
        assert(subs =~= init.push(q));
        lemma_push_contains(init, q, s);
    }
}

/// Moving the area of a subscription changes its area and nothing else of it, and
/// nothing of another; a subscription that is not there is not made. What is active
/// stays until the next evaluation.
pub proof fn law_only_the_area_moves(
    v: InterestView,
    id: SubscriptionId,
    region: Region,
    s: SubscriptionId,
)
    ensures
        ({
            let w = v.moved(id, region);
            &&& w.subs.dom() =~= v.subs.dom()
            &&& w.active == v.active
            &&& s != id ==> w.subs[s] == v.subs[s]
            &&& v.subs.contains_key(id) ==> {
                &&& w.subs[id].region == Some(region)
                &&& w.subs[id].entity_ids == v.subs[id].entity_ids
                &&& w.subs[id].tags_filter == v.subs[id].tags_filter
                &&& w.subs[id].budget == v.subs[id].budget
                &&& w.subs[id].interaction == v.subs[id].interaction
                &&& w.subs[id].viewer_profile == v.subs[id].viewer_profile
                &&& w.subs[id].kind == v.subs[id].kind
                &&& w.subs[id].id == v.subs[id].id
            }
        }),
{
}

/// Removing a subscription removes no other. What was active for it is dropped by the
/// next evaluation, all of it and nothing that was not.
pub proof fn law_removed_subscriptions_drop_their_entities(
    v: InterestView,
    lsg: LsgView,
    hits: Map<u64, Vec<Hit>>,
    id: SubscriptionId,
    s: SubscriptionId,
    k: u64,
)
    requires
        v.active.dom().finite(),
        forall|q: u64| (#[trigger] v.active_of(q)).finite(),
        v.active.contains_key(id),
    ensures
        ({
            let w = v.unregistered(id);
            &&& !w.subs.contains_key(id)
            &&& s != id ==> w.subs.contains_key(s) == v.subs.contains_key(s) && w.subs[s]
                == v.subs[s]
            &&& w.active == v.active
            &&& dropped(w, ascending(w.gone())).contains((id, EntityId(k))) <==> v.active_of(
                id,
            ).contains(k)
        }),
{
    let w = v.unregistered(id);
    let gone = w.gone();
    assert(gone.subset_of(v.active.dom()));
    vstd::set_lib::lemma_len_subset(gone, v.active.dom());
    lemma_ascending(gone);
    assert(gone.contains(id));
    assert forall|q: u64| (#[trigger] w.active_of(q)).finite() by {
        assert(w.active_of(q) == v.active_of(q));
    }
    assert(w.active_of(id) == v.active_of(id));
    law_changes_are_told(w, lsg, hits, ascending(gone), id, k);
}

// ---------------------------------------------------------------------------
// Alerts.

/// Alerts are about the entities that their selectors lead to: all of them, each once,
/// and no others.
pub proof fn law_alerts_name_their_entities(
    lsg: LsgView,
    events: Seq<AlertEventView>,
    id: EntityId,
)
    ensures
        alerted(lsg, events).contains(id) <==> exists|i: int|
            0 <= i < events.len() && lsg.selected((#[trigger] events[i]).selector) == Some(id),
        alerted(lsg, events).no_duplicates(),
    decreases events.len(),
{
    if events.len() > 0 {
        let init = events.drop_last();
        law_alerts_name_their_entities(lsg, init, id);
        let before = alerted(lsg, init);
        let last = events.last();
        if before.contains(id) {
            let i = choose|i: int|
                0 <= i < init.len() && lsg.selected((#[trigger] init[i]).selector) == Some(id);
            assert(events[i] == init[i]);
        }
        if exists|i: int|
            0 <= i < events.len() && lsg.selected((#[trigger] events[i]).selector) == Some(id) {
            let i = choose|i: int|
                0 <= i < events.len() && lsg.selected((#[trigger] events[i]).selector) == Some(id);
            if i < init.len() {
                assert(init[i] == events[i]);
            }
        }
        assert(events[events.len() - 1] == last);
        if let Some(new) = lsg.selected(last.selector) {
            lemma_push_contains(before, new, id);
        }
    }
}

/// Later alerts come behind: the entities of some alerts are the first of those of more.
pub proof fn law_earlier_alerts_come_first(
    lsg: LsgView,
    events: Seq<AlertEventView>,
    more: Seq<AlertEventView>,
)
    ensures
        alerted(lsg, events).is_prefix_of(alerted(lsg, events + more)),
    decreases more.len(),
{
    if more.len() == 0 {
        assert(events + more =~= events);
    } else {
        law_earlier_alerts_come_first(lsg, events, more.drop_last());
        assert((events + more).drop_last() =~= events + more.drop_last());
    }
}

/// The subscription of alerts asks for exactly the entities, without an area, a filter
/// or a profile, and only to look at them.
pub proof fn law_alerts_only_look(id: SubscriptionId, ids: Seq<EntityId>, budget: usize)
    ensures
        ({
            let s = alert_subscription(id, ids, budget);
            &&& s.id == id && s.entity_ids == ids && s.budget == budget
            &&& s.kind == SubscriberKind::AlertRule && s.interaction == Interaction::ReadOnly
            &&& s.region is None && s.viewer_profile is None && s.tags_filter.len() == 0
        }),
{
}

// ---------------------------------------------------------------------------
// Cells and boxes.

proof fn lemma_line_from(
    g: SpatialIndex,
    lo: Cell,
    hi: Cell,
    x: i64,
    y: i64,
    z: int,
    id: EntityId,
)
    requires
        lo.z <= z,
        line(g, lo, hi, x as int, y as int, z).contains(id),
    ensures
        exists|c: Cell| c.x == x && c.y == y && z <= c.z <= hi.z && #[trigger] g.at(c).contains(id),
    decreases hi.z - z + 1,
{
    if z <= hi.z {
        let c = Cell { x, y, z: z as i64 };
        lemma_concat_contains(g.at(c), line(g, lo, hi, x as int, y as int, z + 1), id);
        if !g.at(c).contains(id) {
            lemma_line_from(g, lo, hi, x, y, z + 1, id);
        }
    }
}

proof fn lemma_slab_from(g: SpatialIndex, lo: Cell, hi: Cell, x: i64, y: int, id: EntityId)
    requires
        lo.y <= y,
        slab(g, lo, hi, x as int, y).contains(id),
    ensures
        exists|c: Cell|
            c.x == x && y <= c.y <= hi.y && lo.z <= c.z <= hi.z && #[trigger] g.at(c).contains(id),
    decreases hi.y - y + 1,
{
    if y <= hi.y {
        let first = line(g, lo, hi, x as int, y, lo.z as int);
        lemma_concat_contains(first, slab(g, lo, hi, x as int, y + 1), id);
        if first.contains(id) {
            lemma_line_from(g, lo, hi, x, y as i64, lo.z as int, id);
        } else {
            lemma_slab_from(g, lo, hi, x, y + 1, id);
        }
    }
}

proof fn lemma_block_from(g: SpatialIndex, lo: Cell, hi: Cell, x: int, id: EntityId)
    requires
        lo.x <= x,
        block(g, lo, hi, x).contains(id),
    ensures
        exists|c: Cell|
            x <= c.x <= hi.x && lo.y <= c.y <= hi.y && lo.z <= c.z <= hi.z && #[trigger] g.at(
                c,
            ).contains(id),
    decreases hi.x - x + 1,
{
    if x <= hi.x {
        let first = slab(g, lo, hi, x, lo.y as int);
        lemma_concat_contains(first, block(g, lo, hi, x + 1), id);
        if first.contains(id) {
            lemma_slab_from(g, lo, hi, x as i64, lo.y as int, id);
        } else {
            lemma_block_from(g, lo, hi, x + 1, id);
        }
    }
}

/// A candidate of a block of cells lies in one of them.
pub proof fn law_candidates_lie_in_the_block(g: SpatialIndex, lo: Cell, hi: Cell, id: EntityId)
    requires
        block(g, lo, hi, lo.x as int).contains(id),
    ensures
        exists|c: Cell|
            lo.x <= c.x <= hi.x && lo.y <= c.y <= hi.y && lo.z <= c.z <= hi.z && #[trigger] g.at(
                c,
            ).contains(id),
{
    lemma_block_from(g, lo, hi, lo.x as int, id);
}

/// Two boxes overlap exactly where on no axis one ends before the other begins, as far
/// as all their corners are numbers; touching is enough.
pub proof fn law_boxes_overlap_unless_apart(a: Aabb, b: Aabb)
    requires
        forall|i: int|
            0 <= i < 3 ==> !(#[trigger] a.min@[i]).nan() && !(#[trigger] a.max@[i]).nan() && !(
            #[trigger] b.min@[i]).nan() && !(#[trigger] b.max@[i]).nan(),
    ensures
        overlap(a, b.min@, b.max@) <==> !exists|i: int|
            0 <= i < 3 && ((#[trigger] a.max@[i]).less(b.min@[i]) || b.max@[i].less(a.min@[i])),
        overlap(a, b.min@, b.max@) <==> overlap(b, a.min@, a.max@),
{
    if overlap(a, b.min@, b.max@) {
        assert forall|i: int| 0 <= i < 3 implies !(#[trigger] a.max@[i]).less(b.min@[i])
            && !b.max@[i].less(a.min@[i]) by {
            assert(!a.min@[i].nan());
        }
        assert forall|i: int| 0 <= i < 3 implies crate::spatial::at_most(
            #[trigger] b.min@[i],
            a.max@[i],
        ) && crate::spatial::at_most(a.min@[i], b.max@[i]) by {
            assert(!a.min@[i].nan());
        }
    }
    if overlap(b, a.min@, a.max@) {
        assert forall|i: int| 0 <= i < 3 implies crate::spatial::at_most(
            #[trigger] a.min@[i],
            b.max@[i],
        ) && crate::spatial::at_most(b.min@[i], a.max@[i]) by {
            assert(!b.min@[i].nan());
        }
    }
    if !exists|i: int|
        0 <= i < 3 && ((#[trigger] a.max@[i]).less(b.min@[i]) || b.max@[i].less(a.min@[i])) {
        assert forall|i: int| 0 <= i < 3 implies crate::spatial::at_most(
            #[trigger] a.min@[i],
            b.max@[i],
        ) && crate::spatial::at_most(b.min@[i], a.max@[i]) by {
            assert(!a.max@[i].less(b.min@[i]));
            assert(!a.min@[i].nan() && !b.min@[i].nan());
        }
    }
}

/// Numbers are in the order of their bits where they are not negative, in the opposite
/// order where they are, and a negative number is below one that is not, but for the
/// two zeros, which are the same.
pub proof fn law_numbers_are_ordered(a: Double, b: Double)
    requires
        !a.nan(),
        !b.nan(),
    ensures
        a.bits < 0x8000_0000_0000_0000 && b.bits < 0x8000_0000_0000_0000 ==> (a.less(b) <==> a.bits
            < b.bits),
        a.bits >= 0x8000_0000_0000_0000 && b.bits >= 0x8000_0000_0000_0000 ==> (a.less(b) <==> a.bits
            > b.bits),
        a.bits >= 0x8000_0000_0000_0000 && b.bits < 0x8000_0000_0000_0000 ==> !b.less(a) && (a.less(
            b,
        ) <==> a.bits != 0x8000_0000_0000_0000 || b.bits != 0),
        a.same(b) <==> !a.less(b) && !b.less(a),
{
}

/// The bits that stand for no number have all bits of the exponent set and some below
/// it.
pub proof fn law_not_a_number_has_its_bits(a: Double)
    ensures
        a.nan() <==> 0x7ff0_0000_0000_0000 < a.bits < 0x8000_0000_0000_0000 || a.bits
            > 0xfff0_0000_0000_0000,
        a.nan() ==> forall|b: Double| !(#[trigger] a.less(b)) && !(#[trigger] b.less(a))
            && !a.same(b),
{
}

} // verus!
