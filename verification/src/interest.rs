//! Interest management: which entities must be active, given areas of interest,
//! explicit selections, tags and budgets.
//!
//! A [`Subscription`] does not say where it came from. This module decides over
//! plain values: which entities lie in an area, and how far from its centre, is
//! handed in.

use crate::dict::contains_text;
use crate::lsg::{EntityId, Lsg, LsgView};
use crate::model::{group_models, map_views, views};
use crate::scalar::Double;
use crate::spatial::Frustum;
use crate::table::{ascending, lemma_ascending, lemma_lists, lists, IdMap, IdSet};
use crate::text::{cat, cat3, decimal, decimal_of};
use vstd::prelude::*;
use vstd::relations::{sorted_by, total_ordering};
use vstd::string::*;

verus! {

/// Identifies a subscription within one process.
pub type SubscriptionId = u64;

/// Who made a subscription.
#[derive(Debug, Clone, Copy, PartialEq, Eq, Structural)]
pub enum SubscriberKind {
    Viewer,
    Ai,
    AlertRule,
    Automation,
    System,
}

/// The class of a viewer.
#[derive(Debug, Clone, Copy, PartialEq, Eq, Structural)]
pub enum ViewerProfile {
    Operator,
    Engineer,
    Observer,
}

/// How far a subscription may interact.
#[derive(Debug, Clone, Copy, PartialEq, Eq, Structural)]
pub enum Interaction {
    Full,
    Limited,
    ReadOnly,
}

/// How strong an interaction is.
pub open spec fn strength(i: Interaction) -> u8 {
    match i {
        Interaction::ReadOnly => 0,
        Interaction::Limited => 1,
        Interaction::Full => 2,
    }
}

impl Interaction {
    pub open spec fn name_of(self) -> Seq<char> {
        match self {
            Interaction::Full => "Full"@,
            Interaction::Limited => "Limited"@,
            Interaction::ReadOnly => "ReadOnly"@,
        }
    }

    fn name(self) -> (s: &'static str)
        ensures
            s@ == self.name_of(),
    {
        match self {
            Interaction::Full => "Full",
            Interaction::Limited => "Limited",
            Interaction::ReadOnly => "ReadOnly",
        }
    }
}

impl ViewerProfile {
    pub open spec fn name_of(self) -> Seq<char> {
        match self {
            ViewerProfile::Operator => "Operator"@,
            ViewerProfile::Engineer => "Engineer"@,
            ViewerProfile::Observer => "Observer"@,
        }
    }

    fn name(self) -> (s: &'static str)
        ensures
            s@ == self.name_of(),
    {
        match self {
            ViewerProfile::Operator => "Operator",
            ViewerProfile::Engineer => "Engineer",
            ViewerProfile::Observer => "Observer",
        }
    }

    pub open spec fn strongest(self) -> Interaction {
        match self {
            ViewerProfile::Operator => Interaction::Full,
            ViewerProfile::Engineer => Interaction::Limited,
            ViewerProfile::Observer => Interaction::ReadOnly,
        }
    }

    /// The strongest interaction that a profile may ask for.
    pub fn max_interaction(self) -> (i: Interaction)
        ensures
            i == self.strongest(),
    {
        match self {
            ViewerProfile::Operator => Interaction::Full,
            ViewerProfile::Engineer => Interaction::Limited,
            ViewerProfile::Observer => Interaction::ReadOnly,
        }
    }

    pub fn rank(i: Interaction) -> (n: u8)
        ensures
            n == strength(i),
    {
        match i {
            Interaction::ReadOnly => 0,
            Interaction::Limited => 1,
            Interaction::Full => 2,
        }
    }

    /// May the profile ask for an interaction?
    pub fn allows(self, requested: Interaction) -> (b: bool)
        ensures
            b == (strength(requested) <= strength(self.strongest())),
    {
        ViewerProfile::rank(requested) <= ViewerProfile::rank(self.max_interaction())
    }
}

/// An area of interest.
#[derive(Debug, Clone, Copy, PartialEq)]
pub enum Region {
    Sphere { center: [Double; 3], radius: Double },
    Aabb { min: [Double; 3], max: [Double; 3] },
    Frustum(Frustum),
}

/// A registered interest.
#[derive(Debug, Clone)]
pub struct Subscription {
    pub id: SubscriptionId,
    pub kind: SubscriberKind,
    pub viewer_profile: Option<ViewerProfile>,
    /// The area of interest; without one only the selection counts.
    pub region: Option<Region>,
    /// Entities that stay active wherever the area is.
    pub entity_ids: Vec<EntityId>,
    /// An entity of the area must have one of these tags, where there are any.
    pub tags_filter: Vec<String>,
    /// How many entities the subscription may make active.
    pub budget: usize,
    pub interaction: Interaction,
}

pub struct SubscriptionView {
    pub id: SubscriptionId,
    pub kind: SubscriberKind,
    pub viewer_profile: Option<ViewerProfile>,
    pub region: Option<Region>,
    pub entity_ids: Seq<EntityId>,
    pub tags_filter: Seq<Seq<char>>,
    pub budget: usize,
    pub interaction: Interaction,
}

impl View for Subscription {
    type V = SubscriptionView;

    open spec fn view(&self) -> SubscriptionView {
        SubscriptionView {
            id: self.id,
            kind: self.kind,
            viewer_profile: self.viewer_profile,
            region: self.region,
            entity_ids: self.entity_ids@,
            tags_filter: views(self.tags_filter@),
            budget: self.budget,
            interaction: self.interaction,
        }
    }
}

impl SubscriptionView {
    /// The profile, where there is one, permits the interaction.
    pub open spec fn permitted(self) -> bool {
        self.viewer_profile matches Some(p) ==> strength(self.interaction) <= strength(
            p.strongest(),
        )
    }
}

/// Why a subscription is refused.
pub open spec fn refusal(id: SubscriptionId, p: ViewerProfile, i: Interaction) -> Seq<char> {
    "subscription "@ + decimal_of(id as nat) + (": profile "@ + p.name_of() + (
    " may not request interaction "@ + i.name_of()))
}

impl Subscription {
    /// A subscription of an operator to an area.
    pub fn spatial(id: SubscriptionId, region: Region, budget: usize) -> (s: Self)
        ensures
            s@ == (SubscriptionView {
                id,
                kind: SubscriberKind::Viewer,
                viewer_profile: Some(ViewerProfile::Operator),
                region: Some(region),
                entity_ids: Seq::empty(),
                tags_filter: Seq::empty(),
                budget,
                interaction: Interaction::Full,
            }),
    {
        let s = Subscription {
            id,
            kind: SubscriberKind::Viewer,
            viewer_profile: Some(ViewerProfile::Operator),
            region: Some(region),
            entity_ids: Vec::new(),
            tags_filter: Vec::new(),
            budget,
            interaction: Interaction::Full,
        };
        proof {
            assert(s@.entity_ids =~= Seq::empty());
            assert(s@.tags_filter =~= Seq::empty());
        }
        s
    }

    /// The profile must permit the interaction.
    pub fn validate(&self) -> (r: Result<(), String>)
        ensures
            r is Ok <==> self@.permitted(),
            r matches Err(e) ==> e@ == refusal(
                self.id,
                self.viewer_profile->0,
                self.interaction,
            ),
    {
        if let Some(profile) = self.viewer_profile {
            if !profile.allows(self.interaction) {
                let tail = cat(" may not request interaction ", self.interaction.name());
                let rest = cat3(": profile ", profile.name(), tail.as_str());
                return Err(
                    cat3("subscription ", decimal(self.id).as_str(), rest.as_str()),
                );
            }
        }
        Ok(())
    }
}

/// What one evaluation changed: which entities became active for which
/// subscription, and which are so no longer.
#[derive(Debug)]
pub struct Transitions {
    pub activated: Vec<(SubscriptionId, EntityId)>,
    pub deactivated: Vec<(SubscriptionId, EntityId)>,
}

impl Transitions {
    pub fn is_empty(&self) -> (b: bool)
        ensures
            b == (self.activated@.len() == 0 && self.deactivated@.len() == 0),
    {
        self.activated.len() == 0 && self.deactivated.len() == 0
    }
}

// ---------------------------------------------------------------------------
// Hits.

/// An entity of an area, with the square of its distance from the centre.
#[derive(Debug, Clone, Copy, PartialEq, Eq, Structural)]
pub struct Hit {
    pub distance: Double,
    pub id: EntityId,
}

/// Nearer, or as near with a smaller id. (The same entity at the two zeros is put
/// in order too, which makes the order total.)
pub open spec fn no_farther(a: Hit, b: Hit) -> bool {
    if a.distance.rank() != b.distance.rank() {
        a.distance.rank() < b.distance.rank()
    } else if a.id != b.id {
        a.id.0 < b.id.0
    } else {
        a.distance.bits <= b.distance.bits
    }
}

pub open spec fn by_distance() -> spec_fn(Hit, Hit) -> bool {
    |a: Hit, b: Hit| no_farther(a, b)
}

/// Hits with the nearest first.
pub open spec fn nearest_first(hits: Seq<Hit>) -> Seq<Hit> {
    hits.sort_by(by_distance())
}

proof fn lemma_total()
    ensures
        total_ordering(by_distance()),
{
    let r = by_distance();
    assert forall|a: Hit, b: Hit| #[trigger] r(a, b) && #[trigger] r(b, a) implies a == b by {
        assert(a.distance.rank() == b.distance.rank());
        assert(a.id == b.id);
    }
}

fn is_no_farther(a: &Hit, b: &Hit) -> (r: bool)
    ensures
        r == no_farther(*a, *b),
{
    let x: i64 = a.distance.rank_value();
    let y: i64 = b.distance.rank_value();
    if x != y {
        x < y
    } else if a.id != b.id {
        a.id.0 < b.id.0
    } else {
        a.distance.bits <= b.distance.bits
    }
}

fn merge_hits(a: &Vec<Hit>, b: &Vec<Hit>) -> (out: Vec<Hit>)
    requires
        sorted_by(a@, by_distance()),
        sorted_by(b@, by_distance()),
    ensures
        sorted_by(out@, by_distance()),
        out@.to_multiset() == a@.to_multiset().add(b@.to_multiset()),
{
    broadcast use vstd::seq_lib::group_to_multiset_ensures;

    let ghost r = by_distance();
    let mut out: Vec<Hit> = Vec::new();
    let mut i: usize = 0;
    let mut j: usize = 0;
    proof {
        lemma_total();
        assert(a@.take(0) =~= Seq::empty());
        assert(b@.take(0) =~= Seq::empty());
        assert(out@.to_multiset() =~= a@.take(0).to_multiset().add(b@.take(0).to_multiset()));
    }
    while i < a.len() || j < b.len()
        invariant
            i <= a@.len(),
            j <= b@.len(),
            r == by_distance(),
            total_ordering(r),
            sorted_by(a@, r),
            sorted_by(b@, r),
            sorted_by(out@, r),
            out@.to_multiset() == a@.take(i as int).to_multiset().add(
                b@.take(j as int).to_multiset(),
            ),
            forall|k: int, m: int|
                0 <= k < out@.len() && i <= m < a@.len() ==> r(#[trigger] out@[k], #[trigger] a@[m]),
            forall|k: int, m: int|
                0 <= k < out@.len() && j <= m < b@.len() ==> r(#[trigger] out@[k], #[trigger] b@[m]),
        decreases (a@.len() - i) + (b@.len() - j),
    {
        let ghost o0 = out@;
        let left = i < a.len() && (j >= b.len() || is_no_farther(&a[i], &b[j]));
        if left {
            let x = a[i];
            proof {
                assert(a@.take(i + 1) =~= a@.take(i as int).push(x));
                assert forall|m: int| j <= m < b@.len() implies r(x, #[trigger] b@[m]) by {
                    assert(r(x, b@[j as int]));
                    if m > j {
                        assert(r(b@[j as int], b@[m]));
                    }
                }
            }
            out.push(x);
            i = i + 1;
            proof {
                assert(a@.take(i as int) == a@.take(i - 1).push(x));
                a@.take(i - 1).to_multiset_ensures();
                assert(out@ == o0.push(x));
                o0.to_multiset_ensures();
            }
        } else {
            let x = b[j];
            proof {
                assert(b@.take(j + 1) =~= b@.take(j as int).push(x));
                assert forall|m: int| i <= m < a@.len() implies r(x, #[trigger] a@[m]) by {
                    assert(r(x, a@[i as int]) || r(a@[i as int], x));
                    assert(r(x, a@[i as int]));
                    if m > i {
                        assert(r(a@[i as int], a@[m]));
                    }
                }
            }
            out.push(x);
            j = j + 1;
            proof {
                assert(b@.take(j as int) == b@.take(j - 1).push(x));
                b@.take(j - 1).to_multiset_ensures();
                assert(out@ == o0.push(x));
                o0.to_multiset_ensures();
            }
        }
        proof {
            assert(out@.to_multiset() =~= a@.take(i as int).to_multiset().add(
                b@.take(j as int).to_multiset(),
            ));
        }
    }
    proof {
        assert(a@.take(i as int) =~= a@);
        assert(b@.take(j as int) =~= b@);
    }
    out
}

fn sort_range(hits: &Vec<Hit>, from: usize, to: usize) -> (out: Vec<Hit>)
    requires
        from <= to <= hits@.len(),
    ensures
        sorted_by(out@, by_distance()),
        out@.to_multiset() == hits@.subrange(from as int, to as int).to_multiset(),
    decreases to - from,
{
    proof {
        lemma_total();
    }
    if to - from <= 1 {
        let mut out: Vec<Hit> = Vec::new();
        if from < to {
            out.push(hits[from]);
        }
        proof {
            assert(out@ =~= hits@.subrange(from as int, to as int));
        }
        out
    } else {
        let mid: usize = from + (to - from) / 2;
        let a = sort_range(hits, from, mid);
        let b = sort_range(hits, mid, to);
        proof {
            let x = hits@.subrange(from as int, mid as int);
            let y = hits@.subrange(mid as int, to as int);
            assert(x + y =~= hits@.subrange(from as int, to as int));
            vstd::seq_lib::lemma_multiset_commutative(x, y);
        }
        merge_hits(&a, &b)
    }
}

/// Sorts hits, the nearest first.
pub fn sort_hits(hits: &Vec<Hit>) -> (out: Vec<Hit>)
    ensures
        out@ == nearest_first(hits@),
{
    let out = sort_range(hits, 0, hits.len());
    proof {
        lemma_total();
        assert(hits@.subrange(0, hits@.len() as int) =~= hits@);
        hits@.lemma_sort_by_ensures(by_distance());
        vstd::seq_lib::lemma_sorted_unique(out@, nearest_first(hits@), by_distance());
    }
    out
}

// ---------------------------------------------------------------------------
// The target of a subscription.

/// The selected entities that the index has.
pub open spec fn selection(lsg: LsgView, ids: Seq<EntityId>) -> Set<u64> {
    Set::new(|k: u64| ids.contains(EntityId(k)) && lsg.entities.contains_key(k))
}

/// An entity with these tags passes a filter: the filter is empty, or they share
/// a tag.
pub open spec fn passes(filter: Seq<Seq<char>>, tags: Seq<Seq<char>>) -> bool {
    filter.len() == 0 || exists|t: Seq<char>| #[trigger] filter.contains(t) && tags.contains(t)
}

/// A hit counts: the index has the entity, it is not selected anyway, and it
/// passes the tag filter.
pub open spec fn counts(lsg: LsgView, sub: SubscriptionView, h: Hit) -> bool {
    &&& lsg.has(h.id)
    &&& !selection(lsg, sub.entity_ids).contains(h.id.0)
    &&& passes(sub.tags_filter, lsg.entities[h.id.0].tags)
}

/// The hits of a subscription that count.
pub open spec fn eligible(lsg: LsgView, sub: SubscriptionView, hits: Seq<Hit>) -> Seq<Hit> {
    hits.filter(|h: Hit| counts(lsg, sub, h))
}

/// A set with the selected entities that the index has taken in, in order, until it
/// has as many members as the budget.
pub open spec fn taken(
    lsg: LsgView,
    target: Set<u64>,
    ids: Seq<EntityId>,
    budget: usize,
) -> Set<u64>
    decreases ids.len(),
{
    if ids.len() == 0 || target.len() >= budget {
        target
    } else if lsg.has(ids[0]) {
        taken(lsg, target.insert(ids[0].0), ids.drop_first(), budget)
    } else {
        taken(lsg, target, ids.drop_first(), budget)
    }
}

/// A set filled with hits in order, until it has as many members as the budget.
pub open spec fn filled(target: Set<u64>, hits: Seq<Hit>, budget: usize) -> Set<u64>
    decreases hits.len(),
{
    if hits.len() == 0 || target.len() >= budget {
        target
    } else {
        filled(target.insert(hits[0].id.0), hits.drop_first(), budget)
    }
}

/// What a subscription wants active: first its selection, and then the nearest
/// hits, as far as the budget reaches.
pub open spec fn target_of(lsg: LsgView, sub: SubscriptionView, hits: Seq<Hit>) -> Set<u64> {
    let chosen = taken(lsg, Set::empty(), sub.entity_ids, sub.budget);
    if sub.region is Some {
        filled(chosen, nearest_first(eligible(lsg, sub, hits)), sub.budget)
    } else {
        chosen
    }
}

fn select(lsg: &Lsg, ids: &Vec<EntityId>) -> (r: IdSet)
    ensures
        r@ == selection(lsg@, ids@),
{
    let mut r = IdSet::new();
    let mut i: usize = 0;
    proof {
        assert(r@ =~= selection(lsg@, ids@.take(0)));
    }
    while i < ids.len()
        invariant
            i <= ids@.len(),
            r@ == selection(lsg@, ids@.take(i as int)),
        decreases ids@.len() - i,
    {
        let id = ids[i];
        let ghost r0 = r@;
        if lsg.get(id).is_some() {
            r.insert(id.0);
        }
        i = i + 1;
        proof {
            let a = ids@.take(i - 1);
            let b = ids@.take(i as int);
            assert(b =~= a.push(id));
            assert forall|k: u64| r@.contains(k) <==> selection(lsg@, b).contains(k) by {
                let e = EntityId(k);
                if a.contains(e) {
                    let j = choose|j: int| 0 <= j < a.len() && a[j] == e;
                    assert(b[j] == e);
                }
                if b.contains(e) {
                    let j = choose|j: int| 0 <= j < b.len() && b[j] == e;
                    if j < a.len() {
                        assert(a[j] == e);
                    }
                }
                assert(b[i - 1] == id);
                assert(r0.contains(k) <==> selection(lsg@, a).contains(k));
            }
            assert(r@ =~= selection(lsg@, b));
        }
    }
    proof {
        assert(ids@.take(i as int) =~= ids@);
    }
    r
}

fn passes_filter(filter: &Vec<String>, tags: &Vec<String>) -> (b: bool)
    ensures
        b == passes(views(filter@), views(tags@)),
{
    if filter.len() == 0 {
        return true;
    }
    let mut i: usize = 0;
    while i < filter.len()
        invariant
            i <= filter@.len(),
            filter@.len() > 0,
            forall|j: int| 0 <= j < i ==> !views(tags@).contains(#[trigger] views(filter@)[j]),
        decreases filter@.len() - i,
    {
        if contains_text(tags, filter[i].as_str()) {
            proof {
                assert(views(filter@)[i as int] == filter@[i as int]@);
                assert(views(filter@).contains(filter@[i as int]@));
            }
            return true;
        }
        i = i + 1;
    }
    proof {
        if passes(views(filter@), views(tags@)) {
            let t = choose|t: Seq<char>| #[trigger]
                views(filter@).contains(t) && views(tags@).contains(t);
            let j = choose|j: int| 0 <= j < views(filter@).len() && views(filter@)[j] == t;
            assert(!views(tags@).contains(views(filter@)[j]));
        }
    }
    false
}

/// What a subscription wants active.
pub fn target_set(lsg: &Lsg, sub: &Subscription, hits: &Vec<Hit>) -> (r: IdSet)
    ensures
        r@ == target_of(lsg@, sub@, hits@),
{
    let ids = &sub.entity_ids;
    let mut target = IdSet::new();
    let mut n: usize = 0;
    proof {
        assert(ids@.skip(0) =~= ids@);
    }
    while n < ids.len() && target.len() < sub.budget
        invariant
            n <= ids@.len(),
            ids@ == sub@.entity_ids,
            taken(lsg@, Set::empty(), ids@, sub.budget) == taken(
                lsg@,
                target@,
                ids@.skip(n as int),
                sub.budget,
            ),
        decreases ids@.len() - n,
    {
        proof {
            assert(ids@.skip(n as int)[0] == ids@[n as int]);
            assert(ids@.skip(n as int).drop_first() =~= ids@.skip(n + 1));
        }
        if lsg.get(ids[n]).is_some() {
            target.insert(ids[n].0);
        }
        n = n + 1;
    }
    if sub.region.is_none() {
        return target;
    }
    let ghost chosen = target@;
    let selected = select(lsg, ids);
    let ghost f = |h: Hit| counts(lsg@, sub@, h);
    let mut found: Vec<Hit> = Vec::new();
    let mut i: usize = 0;
    proof {
        reveal(Seq::filter);
        assert(hits@.take(0) =~= Seq::empty());
        assert(found@ =~= hits@.take(0).filter(f));
    }
    while i < hits.len()
        invariant
            i <= hits@.len(),
            selected@ == selection(lsg@, sub@.entity_ids),
            f == (|h: Hit| counts(lsg@, sub@, h)),
            found@ == hits@.take(i as int).filter(f),
        decreases hits@.len() - i,
    {
        let h = hits[i];
        proof {
            reveal(Seq::filter);
            assert(hits@.take(i + 1).drop_last() =~= hits@.take(i as int));
            assert(hits@.take(i + 1).last() == h);
        }
        if !selected.contains(h.id.0) {
            if let Some(e) = lsg.get(h.id) {
                if passes_filter(&sub.tags_filter, &e.tags) {
                    found.push(h);
                }
            }
        }
        i = i + 1;
    }
    proof {
        assert(hits@.take(i as int) =~= hits@);
    }
    let near = sort_hits(&found);
    let mut j: usize = 0;
    proof {
        assert(near@.skip(0) =~= near@);
    }
    while j < near.len() && target.len() < sub.budget
        invariant
            j <= near@.len(),
            filled(chosen, near@, sub.budget) == filled(target@, near@.skip(j as int), sub.budget),
        decreases near@.len() - j,
    {
        proof {
            assert(near@.skip(j as int)[0] == near@[j as int]);
            assert(near@.skip(j as int).drop_first() =~= near@.skip(j + 1));
        }
        target.insert(near[j].id.0);
        j = j + 1;
    }
    target
}

// ---------------------------------------------------------------------------
// The manager.

/// The model of an [`InterestManager`].
pub struct InterestView {
    pub subs: Map<u64, SubscriptionView>,
    /// What was active for each subscription after the last evaluation.
    pub active: Map<u64, Set<u64>>,
}

/// What is handed in for a subscription.
pub open spec fn hits_for(hits: Map<u64, Vec<Hit>>, s: u64) -> Seq<Hit> {
    if hits.contains_key(s) {
        hits[s]@
    } else {
        Seq::empty()
    }
}

impl InterestView {
    pub open spec fn active_of(self, s: u64) -> Set<u64> {
        if self.active.contains_key(s) {
            self.active[s]
        } else {
            Set::empty()
        }
    }

    /// What a subscription wants active now.
    pub open spec fn target(self, lsg: LsgView, hits: Map<u64, Vec<Hit>>, s: u64) -> Set<u64> {
        target_of(lsg, self.subs[s], hits_for(hits, s))
    }

    /// The area of a subscription moved, where there is such a subscription.
    pub open spec fn moved(self, id: SubscriptionId, region: Region) -> InterestView {
        if self.subs.contains_key(id) {
            InterestView {
                subs: self.subs.insert(
                    id,
                    SubscriptionView { region: Some(region), ..self.subs[id] },
                ),
                ..self
            }
        } else {
            self
        }
    }

    /// A subscription removed. What is active for it stays on record.
    pub open spec fn unregistered(self, id: SubscriptionId) -> InterestView {
        InterestView { subs: self.subs.remove(id), ..self }
    }

    /// The subscriptions that are gone, but still have active entities on record.
    pub open spec fn gone(self) -> Set<u64> {
        self.active.dom().difference(self.subs.dom())
    }
}

/// The entities of a list, each with a subscription.
pub open spec fn pairs(s: u64, ids: Seq<u64>) -> Seq<(SubscriptionId, EntityId)> {
    ids.map_values(|k: u64| (s, EntityId(k)))
}

/// All that was active for the listed subscriptions.
pub open spec fn dropped(v: InterestView, subs: Seq<u64>) -> Seq<(SubscriptionId, EntityId)>
    decreases subs.len(),
{
    if subs.len() == 0 {
        Seq::empty()
    } else {
        dropped(v, subs.drop_last()) + pairs(subs.last(), ascending(v.active_of(subs.last())))
    }
}

/// What becomes active for the listed subscriptions.
pub open spec fn gained(
    v: InterestView,
    lsg: LsgView,
    hits: Map<u64, Vec<Hit>>,
    subs: Seq<u64>,
) -> Seq<(SubscriptionId, EntityId)>
    decreases subs.len(),
{
    if subs.len() == 0 {
        Seq::empty()
    } else {
        let s = subs.last();
        gained(v, lsg, hits, subs.drop_last()) + pairs(
            s,
            ascending(v.target(lsg, hits, s).difference(v.active_of(s))),
        )
    }
}

/// What is no longer active for the listed subscriptions.
pub open spec fn lost(
    v: InterestView,
    lsg: LsgView,
    hits: Map<u64, Vec<Hit>>,
    subs: Seq<u64>,
) -> Seq<(SubscriptionId, EntityId)>
    decreases subs.len(),
{
    if subs.len() == 0 {
        Seq::empty()
    } else {
        let s = subs.last();
        lost(v, lsg, hits, subs.drop_last()) + pairs(
            s,
            ascending(v.active_of(s).difference(v.target(lsg, hits, s))),
        )
    }
}

/// What an evaluation leaves: the targets are active, and nothing else.
pub open spec fn evaluated(
    v: InterestView,
    lsg: LsgView,
    hits: Map<u64, Vec<Hit>>,
) -> InterestView {
    InterestView {
        active: Map::new(
            |s: u64| v.subs.contains_key(s),
            |s: u64| v.target(lsg, hits, s),
        ),
        ..v
    }
}

/// The subscriptions, and what was last active for each, so that an evaluation
/// hands out only what changed.
pub struct InterestManager {
    subs: IdMap<Subscription>,
    active: IdMap<IdSet>,
}

impl View for InterestManager {
    type V = InterestView;

    closed spec fn view(&self) -> InterestView {
        InterestView { subs: map_views(self.subs@), active: map_views(self.active@) }
    }
}

fn push_pairs(list: &mut Vec<(SubscriptionId, EntityId)>, s: u64, ids: &Vec<u64>)
    ensures
        final(list)@ == old(list)@ + pairs(s, ids@),
{
    let ghost l0 = list@;
    let ghost all = pairs(s, ids@);
    let mut i: usize = 0;
    proof {
        assert(l0 + all.take(0) =~= l0);
    }
    while i < ids.len()
        invariant
            i <= ids@.len(),
            all == pairs(s, ids@),
            list@ == l0 + all.take(i as int),
        decreases ids@.len() - i,
    {
        list.push((s, EntityId(ids[i])));
        i = i + 1;
        proof {
            assert(l0 + all.take(i as int) =~= (l0 + all.take(i - 1)).push(all[i - 1]));
        }
    }
    proof {
        assert(all.take(i as int) =~= all);
    }
}

impl InterestManager {
    /// What has been active is on record for every subscription.
    pub open spec fn wf(&self) -> bool {
        &&& forall|s: u64| #[trigger]
            self@.subs.contains_key(s) ==> self@.active.contains_key(s)
        &&& forall|s: u64| #[trigger] self@.active.contains_key(s) ==> self@.active[s].finite()
    }

    /// There are finitely many subscriptions, with finitely many active entities.
    pub proof fn lemma_finite(&self)
        requires
            self.wf(),
        ensures
            self@.subs.dom().finite(),
            self@.active.dom().finite(),
            forall|s: u64| (#[trigger] self@.active_of(s)).finite(),
    {
        self.subs.lemma_finite();
        self.active.lemma_finite();
        assert(self@.subs.dom() =~= self.subs@.dom());
        assert(self@.active.dom() =~= self.active@.dom());
    }

    pub fn new() -> (r: Self)
        ensures
            r.wf(),
            r@ == (InterestView { subs: Map::empty(), active: Map::empty() }),
    {
        broadcast use group_models;

        InterestManager { subs: IdMap::new(), active: IdMap::new() }
    }

    /// Registers a subscription, in place of one with its id, where its profile
    /// permits it.
    pub fn upsert(&mut self, sub: Subscription) -> (r: Result<(), String>)
        requires
            old(self).wf(),
        ensures
            final(self).wf(),
            r is Ok <==> sub@.permitted(),
            match r {
                Ok(_) => final(self)@ == (InterestView {
                    subs: old(self)@.subs.insert(sub.id, sub@),
                    active: old(self)@.active.insert(sub.id, old(self)@.active_of(sub.id)),
                }),
                Err(e) => {
                    &&& *final(self) == *old(self)
                    &&& e@ == refusal(sub.id, sub.viewer_profile->0, sub.interaction)
                },
            },
    {
        broadcast use group_models;

        match sub.validate() {
            Ok(_) => {},
            Err(e) => return Err(e),
        }
        if !self.active.contains(sub.id) {
            self.active.insert(sub.id, IdSet::new());
        } else {
            proof {
                crate::model::lemma_insert_same(self@.active, sub.id);
            }
        }
        let id: u64 = sub.id;
        self.subs.insert(id, sub);
        proof {
            assert forall|s: u64| #[trigger]
                self@.subs.contains_key(s) implies self@.active.contains_key(s) by {
                assert(s == id || old(self)@.subs.contains_key(s));
            }
            assert forall|s: u64| #[trigger]
                self@.active.contains_key(s) implies self@.active[s].finite() by {
                assert(old(self)@.active_of(s).finite());
            }
        }
        Ok(())
    }

    /// Moves the area of a subscription.
    pub fn set_region(&mut self, id: SubscriptionId, region: Region)
        requires
            old(self).wf(),
        ensures
            final(self).wf(),
            final(self)@ == old(self)@.moved(id, region),
    {
        broadcast use group_models;

        match self.subs.remove(id) {
            Some(mut s) => {
                s.region = Some(region);
                self.subs.insert(id, s);
                proof {
                    assert(old(self)@.subs.contains_key(id));
                    assert(self@.subs =~= old(self)@.moved(id, region).subs);
                    assert(self@.active == old(self)@.active);
                    assert forall|q: u64| #[trigger]
                        self@.subs.contains_key(q) implies self@.active.contains_key(q) by {
                        assert(old(self)@.subs.contains_key(q));
                    }
                }
            },
            None => {
                proof {
                    assert(self@.subs =~= old(self)@.subs);
                }
            },
        }
    }

    pub fn get(&self, id: SubscriptionId) -> (r: Option<&Subscription>)
        ensures
            match r {
                Some(s) => self@.subs.contains_key(id) && s@ == self@.subs[id],
                None => !self@.subs.contains_key(id),
            },
    {
        self.subs.get(id)
    }

    /// The ids of the subscriptions, in ascending order.
    pub fn ids(&self) -> (r: Vec<u64>)
        ensures
            r@ == ascending(self@.subs.dom()),
            lists(r@, self@.subs.dom()),
    {
        proof {
            assert(self@.subs.dom() =~= self.subs@.dom());
        }
        self.subs.keys()
    }

    pub fn subscription_count(&self) -> (n: usize)
        ensures
            n == self@.subs.dom().len(),
    {
        proof {
            assert(self@.subs.dom() =~= self.subs@.dom());
        }
        self.subs.len()
    }

    /// Removes a subscription. What is active for it is dropped by the next
    /// evaluation.
    pub fn remove(&mut self, id: SubscriptionId)
        requires
            old(self).wf(),
        ensures
            final(self).wf(),
            final(self)@ == old(self)@.unregistered(id),
    {
        broadcast use group_models;

        self.subs.remove(id);
    }

    /// Evaluates every subscription, and hands out what changed since the last
    /// time. `hits` holds, for each subscription with an area, the entities that
    /// lie in it.
    pub fn evaluate(&mut self, lsg: &Lsg, hits: &IdMap<Vec<Hit>>) -> (t: Transitions)
        requires
            old(self).wf(),
        ensures
            final(self).wf(),
            final(self)@ == evaluated(old(self)@, lsg@, hits@),
            t.activated@ == gained(
                old(self)@,
                lsg@,
                hits@,
                ascending(old(self)@.subs.dom()),
            ),
            t.deactivated@ == dropped(old(self)@, ascending(old(self)@.gone())) + lost(
                old(self)@,
                lsg@,
                hits@,
                ascending(old(self)@.subs.dom()),
            ),
    {
        broadcast use group_models;

        let ghost v = self@;
        let mut t = Transitions { activated: Vec::new(), deactivated: Vec::new() };
        let live = self.ids();
        let mut live_set = IdSet::new();
        let mut known = IdSet::new();
        let keys = self.active.keys();
        proof {
            assert(v.active.dom() =~= self.active@.dom());
            lemma_lists(live@, v.subs.dom());
            lemma_lists(keys@, v.active.dom());
        }
        fill_set(&mut live_set, &live);
        fill_set(&mut known, &keys);
        let gone = known.difference(&live_set);
        proof {
            assert(live_set@ =~= v.subs.dom());
            assert(known@ =~= v.active.dom());
            assert(gone@ == ascending(v.gone()));
        }
        let mut i: usize = 0;
        while i < gone.len()
            invariant
                i <= gone@.len(),
                lists(gone@, v.gone()),
                self@.subs == v.subs,
                forall|s: u64| #[trigger]
                    self@.active.contains_key(s) <==> v.active.contains_key(s)
                        && !gone@.take(i as int).contains(s),
                forall|s: u64| #[trigger]
                    self@.active.contains_key(s) ==> self@.active[s] == v.active[s],
                t.activated@.len() == 0,
                t.deactivated@ == dropped(v, gone@.take(i as int)),
            decreases gone@.len() - i,
        {
            let s: u64 = gone[i];
            let ghost before = self@;
            proof {
                assert(gone@.contains(s));
                assert(v.gone().contains(s));
                assert(v.active.dom().contains(s));
                assert(gone@.take(i + 1).drop_last() =~= gone@.take(i as int));
                assert(!gone@.take(i as int).contains(s)) by {
                    let a = gone@.take(i as int);
                    if a.contains(s) {
                        let j = choose|j: int| 0 <= j < a.len() && a[j] == s;
                        assert(gone@[j] < gone@[i as int]);
                    }
                }
                assert(self@.active.contains_key(s));
            }
            if let Some(prev) = self.active.remove(s) {
                let ids = prev.items();
                proof {
                    assert(prev@ == v.active_of(s));
                }
                push_pairs(&mut t.deactivated, s, &ids);
            }
            i = i + 1;
            proof {
                let a = gone@.take(i - 1);
                let b = gone@.take(i as int);
                assert(b =~= a.push(s));
                assert(self@.active =~= before.active.remove(s));
                assert forall|k: u64| #[trigger] self@.active.contains_key(k) <==> v.active.contains_key(
                    k,
                ) && !b.contains(k) by {
                    assert(before.active.contains_key(k) <==> v.active.contains_key(k)
                        && !a.contains(k));
                    if a.contains(k) {
                        let j = choose|j: int| 0 <= j < a.len() && a[j] == k;
                        assert(b[j] == k);
                    }
                    if b.contains(k) {
                        let j = choose|j: int| 0 <= j < b.len() && b[j] == k;
                        if j < a.len() {
                            assert(a[j] == k);
                        }
                    }
                    assert(b[i - 1] == s);
                }
            }
        }
        proof {
            assert(gone@.take(i as int) =~= gone@);
            assert forall|s: u64| #[trigger] self@.active.contains_key(s) <==> v.subs.contains_key(
                s,
            ) by {
                assert(gone@.contains(s) <==> v.gone().contains(s));
            }
        }
        let ghost first = t.deactivated@;
        let mut j: usize = 0;
        proof {
            assert(t.activated@ =~= gained(v, lsg@, hits@, live@.take(0)));
            assert(first + Seq::<(SubscriptionId, EntityId)>::empty() =~= first);
        }
        while j < live.len()
            invariant
                j <= live@.len(),
                lists(live@, v.subs.dom()),
                self@.subs == v.subs,
                self@.subs == map_views(self.subs@),
                forall|s: u64| #[trigger]
                    self@.active.contains_key(s) <==> v.subs.contains_key(s),
                forall|s: u64| #[trigger]
                    v.subs.contains_key(s) ==> v.active.contains_key(s),
                forall|s: u64| #[trigger]
                    self@.active.contains_key(s) ==> self@.active[s].finite(),
                forall|s: u64| #[trigger]
                    self@.active.contains_key(s) ==> self@.active[s] == if live@.take(
                        j as int,
                    ).contains(s) {
                        v.target(lsg@, hits@, s)
                    } else {
                        v.active[s]
                    },
                t.activated@ == gained(v, lsg@, hits@, live@.take(j as int)),
                t.deactivated@ == first + lost(v, lsg@, hits@, live@.take(j as int)),
            decreases live@.len() - j,
        {
            let s: u64 = live[j];
            let ghost before = self@;
            let ghost a = live@.take(j as int);
            let ghost b = live@.take(j + 1);
            proof {
                assert(live@.contains(s));
                assert(v.subs.dom().contains(s));
                assert(v.subs.contains_key(s));
                assert(b.drop_last() =~= a);
                assert(b =~= a.push(s));
                assert(!a.contains(s)) by {
                    if a.contains(s) {
                        let x = choose|x: int| 0 <= x < a.len() && a[x] == s;
                        assert(live@[x] < live@[j as int]);
                    }
                }
                assert(self@.active.contains_key(s));
            }
            let target = self.target_now(s, lsg, hits);
            let prev = match self.active.remove(s) {
                Some(prev) => prev,
                None => IdSet::new(),
            };
            proof {
                assert(prev@ == v.active_of(s));
            }
            let on = target.difference(&prev);
            let off = prev.difference(&target);
            push_pairs(&mut t.activated, s, &on);
            let ghost d0 = t.deactivated@;
            push_pairs(&mut t.deactivated, s, &off);
            proof {
                target.lemma_finite();
                assert(t.deactivated@ =~= first + (lost(v, lsg@, hits@, a) + pairs(s, off@)));
            }
            self.active.insert(s, target);
            proof {
                assert(self@.active =~= before.active.insert(s, target@));
                assert forall|k: u64| #[trigger] b.contains(k) <==> a.contains(k) || k == s by {
                    if a.contains(k) {
                        let x = choose|x: int| 0 <= x < a.len() && a[x] == k;
                        assert(b[x] == k);
                    }
                    if b.contains(k) {
                        let x = choose|x: int| 0 <= x < b.len() && b[x] == k;
                        if x < a.len() {
                            assert(a[x] == k);
                        }
                    }
                    assert(b[j as int] == s);
                }
                assert forall|k: u64| #[trigger] self@.active.contains_key(k) implies self@.active[k]
                    == if b.contains(k) {
                    v.target(lsg@, hits@, k)
                } else {
                    v.active[k]
                } by {
                    if k != s {
                        assert(before.active.contains_key(k));
                    }
                }
            }
            j = j + 1;
        }
        proof {
            assert(live@.take(j as int) =~= live@);
            assert(self@.active =~= evaluated(v, lsg@, hits@).active) by {
                assert forall|s: u64| #[trigger] self@.active.contains_key(s) implies self@.active[s]
                    == v.target(lsg@, hits@, s) by {
                    assert(v.subs.dom().contains(s));
                    assert(live@.contains(s));
                }
            }
        }
        t
    }

    fn target_now(&self, s: u64, lsg: &Lsg, hits: &IdMap<Vec<Hit>>) -> (r: IdSet)
        requires
            self@.subs.contains_key(s),
        ensures
            r@ == self@.target(lsg@, hits@, s),
    {
        let none: Vec<Hit> = Vec::new();
        proof {
            assert(none@ =~= Seq::empty());
        }
        match self.subs.get(s) {
            Some(sub) => match hits.get(s) {
                Some(h) => target_set(lsg, sub, h),
                None => target_set(lsg, sub, &none),
            },
            None => IdSet::new(),
        }
    }

    /// How many entities are active for a subscription.
    pub fn active_count(&self, id: SubscriptionId) -> (n: usize)
        ensures
            n == self@.active_of(id).len(),
    {
        match self.active.get(id) {
            Some(s) => s.len(),
            None => 0,
        }
    }
}

fn fill_set(set: &mut IdSet, ids: &Vec<u64>)
    ensures
        final(set)@ == old(set)@.union(ids@.to_set()),
{
    let mut i: usize = 0;
    let ghost s0 = set@;
    proof {
        assert(s0.union(ids@.take(0).to_set()) =~= s0);
    }
    while i < ids.len()
        invariant
            i <= ids@.len(),
            set@ == s0.union(ids@.take(i as int).to_set()),
        decreases ids@.len() - i,
    {
        set.insert(ids[i]);
        i = i + 1;
        proof {
            let a = ids@.take(i - 1);
            let b = ids@.take(i as int);
            assert(b =~= a.push(ids@[i - 1]));
            assert forall|x: u64| b.contains(x) <==> a.contains(x) || x == ids@[i - 1] by {
                if a.contains(x) {
                    let j = choose|j: int| 0 <= j < a.len() && a[j] == x;
                    assert(b[j] == x);
                }
                if b.contains(x) {
                    let j = choose|j: int| 0 <= j < b.len() && b[j] == x;
                    if j < a.len() {
                        assert(a[j] == x);
                    }
                }
                assert(b[i - 1] == ids@[i - 1]);
            }
            assert(set@ =~= s0.union(b.to_set()));
        }
    }
    proof {
        assert(ids@.take(i as int) =~= ids@);
    }
}

// ---------------------------------------------------------------------------
// What holds of targets and evaluations.

proof fn lemma_filled(target: Set<u64>, hits: Seq<Hit>, budget: usize)
    requires
        target.finite(),
    ensures
        target.subset_of(filled(target, hits, budget)),
        filled(target, hits, budget).finite(),
        filled(target, hits, budget).len() <= if target.len() > budget {
            target.len()
        } else {
            budget as nat
        },
        forall|k: u64|
            filled(target, hits, budget).contains(k) && !target.contains(k) ==> exists|i: int|
                0 <= i < hits.len() && (#[trigger] hits[i]).id == EntityId(k),
    decreases hits.len(),
{
    if hits.len() > 0 && target.len() < budget {
        let t = target.insert(hits[0].id.0);
        let rest = hits.drop_first();
        lemma_filled(t, rest, budget);
        assert forall|k: u64|
            filled(target, hits, budget).contains(k) && !target.contains(k) implies exists|i: int|
            0 <= i < hits.len() && (#[trigger] hits[i]).id == EntityId(k) by {
            if t.contains(k) {
                assert(hits[0].id == EntityId(k));
            } else {
                let i = choose|i: int| 0 <= i < rest.len() && (#[trigger] rest[i]).id == EntityId(k);
                assert(hits[i + 1].id == EntityId(k));
            }
        }
    }
}

/// A hit that is left out was left out for want of room: the budget is full, and
/// with nothing farther away.
proof fn lemma_left_out(target: Set<u64>, hits: Seq<Hit>, budget: usize, j: int)
    requires
        target.finite(),
        0 <= j < hits.len(),
        !filled(target, hits, budget).contains(hits[j].id.0),
    ensures
        filled(target, hits, budget).len() >= budget,
        forall|k: u64|
            filled(target, hits, budget).contains(k) && !target.contains(k) ==> exists|i: int|
                0 <= i < j && (#[trigger] hits[i]).id == EntityId(k),
    decreases hits.len(),
{
    if target.len() < budget {
        let t = target.insert(hits[0].id.0);
        let rest = hits.drop_first();
        lemma_filled(t, rest, budget);
        if j == 0 {
            assert(t.contains(hits[0].id.0));
        } else {
            assert(rest[j - 1] == hits[j]);
            lemma_left_out(t, rest, budget, j - 1);
            assert forall|k: u64|
                filled(target, hits, budget).contains(k) && !target.contains(k) implies exists|
                i: int,
            |
                0 <= i < j && (#[trigger] hits[i]).id == EntityId(k) by {
                if t.contains(k) {
                    assert(hits[0].id == EntityId(k));
                } else {
                    let i = choose|i: int|
                        0 <= i < j - 1 && (#[trigger] rest[i]).id == EntityId(k);
                    assert(hits[i + 1].id == EntityId(k));
                }
            }
        }
    }
}

proof fn lemma_selection_finite(lsg: LsgView, ids: Seq<EntityId>)
    ensures
        selection(lsg, ids).finite(),
    decreases ids.len(),
{
    if ids.len() > 0 {
        lemma_selection_finite(lsg, ids.drop_last());
        let a = selection(lsg, ids.drop_last()).insert(ids.last().0);
        assert(selection(lsg, ids).subset_of(a)) by {
            assert forall|k: u64| selection(lsg, ids).contains(k) implies a.contains(k) by {
                let i = choose|i: int| 0 <= i < ids.len() && ids[i] == EntityId(k);
                if i < ids.len() - 1 {
                    assert(ids.drop_last()[i] == EntityId(k));
                }
            }
        }
        vstd::set_lib::lemma_set_subset_finite(a, selection(lsg, ids));
    } else {
        assert(selection(lsg, ids) =~= Set::empty());
    }
}

/// What the selection fills: members of it, no more than the budget, and all where
/// there is room.
proof fn lemma_taken(lsg: LsgView, target: Set<u64>, ids: Seq<EntityId>, budget: usize)
    requires
        target.finite(),
        target.len() <= budget,
    ensures
        target.subset_of(taken(lsg, target, ids, budget)),
        taken(lsg, target, ids, budget).subset_of(target.union(selection(lsg, ids))),
        taken(lsg, target, ids, budget).finite(),
        taken(lsg, target, ids, budget).len() <= budget,
        taken(lsg, target, ids, budget).len() < budget ==> selection(lsg, ids).subset_of(
            taken(lsg, target, ids, budget),
        ),
    decreases ids.len(),
{
    if ids.len() > 0 && target.len() < budget {
        let rest = ids.drop_first();
        let t = if lsg.has(ids[0]) {
            target.insert(ids[0].0)
        } else {
            target
        };
        lemma_taken(lsg, t, rest, budget);
        assert forall|k: u64| #[trigger] selection(lsg, ids).contains(k) <==> selection(
            lsg,
            rest,
        ).contains(k) || (k == ids[0].0 && lsg.has(ids[0])) by {
            if rest.contains(EntityId(k)) {
                let i = choose|i: int| 0 <= i < rest.len() && rest[i] == EntityId(k);
                assert(ids[i + 1] == EntityId(k));
            }
            if ids.contains(EntityId(k)) {
                let i = choose|i: int| 0 <= i < ids.len() && ids[i] == EntityId(k);
                if i > 0 {
                    assert(rest[i - 1] == EntityId(k));
                }
            }
            assert(ids[0] == EntityId(ids[0].0));
        }
    }
}

/// A selection that the budget has room for stays active wherever the area is; of
/// a larger one as much as there is room for is active, and nothing else.
pub proof fn law_selection_comes_first(lsg: LsgView, sub: SubscriptionView, hits: Seq<Hit>)
    ensures
        selection(lsg, sub.entity_ids).finite(),
        selection(lsg, sub.entity_ids).len() <= sub.budget ==> selection(
            lsg,
            sub.entity_ids,
        ).subset_of(target_of(lsg, sub, hits)),
        selection(lsg, sub.entity_ids).len() >= sub.budget ==> {
            &&& target_of(lsg, sub, hits).subset_of(selection(lsg, sub.entity_ids))
            &&& target_of(lsg, sub, hits).len() == sub.budget
        },
{
    let sel = selection(lsg, sub.entity_ids);
    let chosen = taken(lsg, Set::empty(), sub.entity_ids, sub.budget);
    lemma_selection_finite(lsg, sub.entity_ids);
    lemma_taken(lsg, Set::empty(), sub.entity_ids, sub.budget);
    lemma_filled(chosen, nearest_first(eligible(lsg, sub, hits)), sub.budget);
    assert(chosen.subset_of(sel)) by {
        assert(Set::<u64>::empty().union(sel) =~= sel);
    }
    vstd::set_lib::lemma_len_subset(chosen, sel);
    if chosen.len() < sub.budget {
        assert(chosen =~= sel);
    } else if sel.len() <= sub.budget {
        vstd::set_lib::lemma_subset_equality(chosen, sel);
    }
}

/// No more is active than the budget allows.
pub proof fn law_budget_is_kept(lsg: LsgView, sub: SubscriptionView, hits: Seq<Hit>)
    ensures
        target_of(lsg, sub, hits).finite(),
        target_of(lsg, sub, hits).len() <= sub.budget,
{
    lemma_taken(lsg, Set::empty(), sub.entity_ids, sub.budget);
    lemma_filled(
        taken(lsg, Set::empty(), sub.entity_ids, sub.budget),
        nearest_first(eligible(lsg, sub, hits)),
        sub.budget,
    );
}

/// After an evaluation no subscription has more active than its budget.
pub proof fn law_evaluation_keeps_budgets(
    v: InterestView,
    lsg: LsgView,
    hits: Map<u64, Vec<Hit>>,
    s: SubscriptionId,
)
    requires
        v.subs.contains_key(s),
    ensures
        evaluated(v, lsg, hits).active_of(s).finite(),
        evaluated(v, lsg, hits).active_of(s).len() <= v.subs[s].budget,
{
    law_budget_is_kept(lsg, v.subs[s], hits_for(hits, s));
}

/// What is active is selected, or is a hit of the index that passes the tag
/// filter.
pub proof fn law_only_hits_are_active(
    lsg: LsgView,
    sub: SubscriptionView,
    hits: Seq<Hit>,
    k: u64,
)
    requires
        target_of(lsg, sub, hits).contains(k),
    ensures
        lsg.entities.contains_key(k),
        selection(lsg, sub.entity_ids).contains(k) || exists|h: Hit|
            #![trigger hits.contains(h)]
            hits.contains(h) && h.id == EntityId(k) && counts(lsg, sub, h),
{
    let sel = selection(lsg, sub.entity_ids);
    if sel.contains(k) {
        assert(lsg.entities.contains_key(k));
    } else {
        let e = eligible(lsg, sub, hits);
        let near = nearest_first(e);
        let chosen = taken(lsg, Set::empty(), sub.entity_ids, sub.budget);
        lemma_taken(lsg, Set::empty(), sub.entity_ids, sub.budget);
        assert(!chosen.contains(k)) by {
            assert(!Set::<u64>::empty().union(sel).contains(k));
        }
        lemma_filled(chosen, near, sub.budget);
        let i = choose|i: int| 0 <= i < near.len() && (#[trigger] near[i]).id == EntityId(k);
        let h = near[i];
        lemma_total();
        e.lemma_sort_by_ensures(by_distance());
        assert(near.contains(h));
        assert(e.contains(h));
        lemma_eligible(lsg, sub, hits, h);
    }
}

proof fn lemma_eligible(lsg: LsgView, sub: SubscriptionView, hits: Seq<Hit>, h: Hit)
    requires
        eligible(lsg, sub, hits).contains(h),
    ensures
        hits.contains(h),
        counts(lsg, sub, h),
    decreases hits.len(),
{
    reveal(Seq::filter);
    if hits.len() > 0 {
        let init = hits.drop_last();
        let e = eligible(lsg, sub, hits);
        let e0 = eligible(lsg, sub, init);
        let i = choose|i: int| 0 <= i < e.len() && e[i] == h;
        if i < e0.len() {
            assert(e0[i] == h);
            assert(e0.contains(h));
            lemma_eligible(lsg, sub, init, h);
            let j = choose|j: int| 0 <= j < init.len() && init[j] == h;
            assert(hits[j] == h);
        } else {
            assert(hits[hits.len() - 1] == h);
        }
    }
}

/// Among the hits that count, the nearest are the active ones: one that is left
/// out is no nearer than any that is in, and the budget is full.
pub proof fn law_nearest_hits_are_active(
    lsg: LsgView,
    sub: SubscriptionView,
    hits: Seq<Hit>,
    out: Hit,
    k: u64,
)
    requires
        sub.region is Some,
        eligible(lsg, sub, hits).contains(out),
        !target_of(lsg, sub, hits).contains(out.id.0),
    ensures
        target_of(lsg, sub, hits).len() >= sub.budget,
        target_of(lsg, sub, hits).contains(k) && !selection(lsg, sub.entity_ids).contains(k)
            ==> exists|h: Hit|
            #![trigger eligible(lsg, sub, hits).contains(h)]
            eligible(lsg, sub, hits).contains(h) && h.id == EntityId(k) && no_farther(h, out),
{
    broadcast use vstd::seq_lib::group_to_multiset_ensures;

    let sel = selection(lsg, sub.entity_ids);
    let e = eligible(lsg, sub, hits);
    let near = nearest_first(e);
    let chosen = taken(lsg, Set::empty(), sub.entity_ids, sub.budget);
    lemma_taken(lsg, Set::empty(), sub.entity_ids, sub.budget);
    lemma_total();
    e.lemma_sort_by_ensures(by_distance());
    e.to_multiset_ensures();
    near.to_multiset_ensures();
    assert(e.to_multiset().count(out) > 0);
    assert(near.contains(out));
    let j = choose|j: int| 0 <= j < near.len() && near[j] == out;
    lemma_left_out(chosen, near, sub.budget, j);
    let t = target_of(lsg, sub, hits);
    if t.contains(k) && !sel.contains(k) {
        assert(!chosen.contains(k)) by {
            assert(!Set::<u64>::empty().union(sel).contains(k));
        }
        let i = choose|i: int| 0 <= i < j && (#[trigger] near[i]).id == EntityId(k);
        let h = near[i];
        assert(near.contains(h));
        assert(e.contains(h));
        assert(by_distance()(near[i], near[j]));
    }
}

/// Evaluating again over the same scene changes nothing.
pub proof fn law_second_evaluation_is_quiet(
    v: InterestView,
    lsg: LsgView,
    hits: Map<u64, Vec<Hit>>,
)
    requires
        v.subs.dom().finite(),
    ensures
        ({
            let w = evaluated(v, lsg, hits);
            &&& evaluated(w, lsg, hits) == w
            &&& gained(w, lsg, hits, ascending(w.subs.dom())).len() == 0
            &&& lost(w, lsg, hits, ascending(w.subs.dom())).len() == 0
            &&& dropped(w, ascending(w.gone())).len() == 0
        }),
{
    let w = evaluated(v, lsg, hits);
    assert(evaluated(w, lsg, hits).active =~= w.active);
    assert(w.gone() =~= Set::empty());
    lemma_ascending(w.gone());
    lemma_ascending(w.subs.dom());
    let subs = ascending(w.subs.dom());
    assert forall|i: int| 0 <= i < subs.len() implies w.subs.contains_key(#[trigger] subs[i]) by {
        assert(subs.contains(subs[i]));
        assert(w.subs.dom().contains(subs[i]));
    }
    lemma_quiet(w, lsg, hits, subs);
}

proof fn lemma_quiet(w: InterestView, lsg: LsgView, hits: Map<u64, Vec<Hit>>, subs: Seq<u64>)
    requires
        evaluated(w, lsg, hits) == w,
        forall|i: int| 0 <= i < subs.len() ==> w.subs.contains_key(#[trigger] subs[i]),
    ensures
        gained(w, lsg, hits, subs).len() == 0,
        lost(w, lsg, hits, subs).len() == 0,
    decreases subs.len(),
{
    if subs.len() > 0 {
        assert forall|i: int| 0 <= i < subs.drop_last().len() implies w.subs.contains_key(
            #[trigger] subs.drop_last()[i],
        ) by {
            assert(w.subs.contains_key(subs[i]));
        }
        lemma_quiet(w, lsg, hits, subs.drop_last());
        let s = subs.last();
        assert(w.subs.contains_key(subs[subs.len() - 1]));
        assert(evaluated(w, lsg, hits).active.contains_key(s));
        assert(w.active_of(s) == w.target(lsg, hits, s));
        let none = Set::<u64>::empty();
        assert(w.target(lsg, hits, s).difference(w.active_of(s)) =~= none);
        assert(w.active_of(s).difference(w.target(lsg, hits, s)) =~= none);
        lemma_ascending(none);
    }
}

} // verus!
