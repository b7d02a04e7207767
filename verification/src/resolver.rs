//! Telemetry resolution: lazy, and only for what is active.
//!
//! A resolver turns declarative bindings into values, for entities that some
//! subscription has brought into the runtime graph. Bindings of inactive entities
//! cause no traffic. Values live in the runtime graph and nowhere else.

use crate::dict::TextMap;
use crate::lsg::{EntityId, Lsg, LsgView, TelemetryBindingView};
use crate::model::{capped, group_models, opt_view, views};
use crate::order::{
    before, distinct_texts, is_before, lemma_order, sort_distinct_texts, sort_texts, sorted_texts,
};
use crate::rsg::{with_telemetry, Rsg, RsgView};
use crate::scalar::Double;
use crate::table::{ascending, lists, IdMap};
use crate::text::{cat3, chars_of};
use vstd::prelude::*;
use vstd::string::*;

pub use crate::promql::{
    build_batched_query, escape_regex, extract_quoted, join, parse_query, ParsedQuery,
};
use crate::promql::{batched_query, joined, parse_of, ParsedQueryView};

verus! {

/// How good a resolved value is.
#[derive(Debug, Clone, Copy, PartialEq, Eq, Structural)]
pub enum Quality {
    /// Freshly resolved.
    Good,
    /// An earlier value, kept because a refresh failed.
    Stale,
    /// No value, and none from before.
    Unavailable,
    /// The binding could not be resolved.
    Error,
}

impl Quality {
    pub open spec fn name(self) -> Seq<char> {
        match self {
            Quality::Good => "ok"@,
            Quality::Stale => "stale"@,
            Quality::Unavailable => "unavailable"@,
            Quality::Error => "error"@,
        }
    }

    pub fn as_str(self) -> (s: &'static str)
        ensures
            s@ == self.name(),
    {
        match self {
            Quality::Good => "ok",
            Quality::Stale => "stale",
            Quality::Unavailable => "unavailable",
            Quality::Error => "error",
        }
    }
}

/// A resolved sample, as the runtime graph caches it.
#[derive(Debug, Clone, Copy, PartialEq, Structural)]
pub struct TelemetryValue {
    pub value: Double,
    /// When the value was resolved or last touched, in milliseconds.
    pub as_of_ms: i64,
    pub ttl_ms: Double,
    pub quality: Quality,
}

/// A sum, held to the range of a timestamp.
pub open spec fn clamped(n: int) -> int {
    if n > i64::MAX {
        i64::MAX as int
    } else if n < i64::MIN {
        i64::MIN as int
    } else {
        n
    }
}

impl TelemetryValue {
    /// The time to live has not run out. A failed entry is never fresh, so that
    /// it is tried again.
    pub open spec fn fresh(self, now_ms: i64) -> bool {
        &&& self.quality != Quality::Unavailable
        &&& self.quality != Quality::Error
        &&& clamped(self.as_of_ms + self.ttl_ms.whole()) > now_ms
    }

    /// Is the value still fresh?
    pub fn is_fresh(&self, now_ms: i64) -> (b: bool)
        ensures
            b == self.fresh(now_ms),
    {
        if self.quality == Quality::Unavailable || self.quality == Quality::Error {
            return false;
        }
        let ttl: i64 = self.ttl_ms.to_whole();
        let until: i128 = self.as_of_ms as i128 + ttl as i128;
        until > now_ms as i128 && now_ms < i64::MAX
    }
}

/// How urgent a binding is.
#[derive(Debug, Clone, Copy, PartialEq, Eq, Structural)]
pub enum Priority {
    High,
    Background,
}

/// An ASCII letter in lower case; any other character as it is.
pub open spec fn lower(c: char) -> char {
    if 'A' <= c <= 'Z' {
        (c as u32 + 32) as char
    } else {
        c
    }
}

impl Priority {
    /// `high` in any case is high; everything else is background.
    pub open spec fn of(s: Seq<char>) -> Priority {
        if s.map_values(|c: char| lower(c)) == "high"@ {
            Priority::High
        } else {
            Priority::Background
        }
    }

    pub fn from_binding(s: &str) -> (p: Self)
        ensures
            p == Priority::of(s@),
    {
        proof {
            reveal_strlit("high");
        }
        let c = chars_of(s);
        let high = c.len() == 4 && (c[0] == 'h' || c[0] == 'H') && (c[1] == 'i' || c[1] == 'I') && (
        c[2] == 'g' || c[2] == 'G') && (c[3] == 'h' || c[3] == 'H');
        proof {
            let m = s@.map_values(|c: char| lower(c));
            if high {
                assert(m =~= "high"@);
            } else if m == "high"@ {
                assert(m.len() == 4);
                assert(m[0] == 'h' && m[1] == 'i' && m[2] == 'g' && m[3] == 'h');
            }
        }
        if high {
            Priority::High
        } else {
            Priority::Background
        }
    }

    /// High comes before background.
    pub fn rank(self) -> (n: u8)
        ensures
            n == (if self == Priority::High {
                0u8
            } else {
                1u8
            }),
    {
        match self {
            Priority::High => 0,
            Priority::Background => 1,
        }
    }
}

/// One unit of work for a resolver.
#[derive(Debug, Clone)]
pub struct ResolveRequest {
    pub entity_id: EntityId,
    pub attribute: String,
    pub source_id: String,
    pub query: String,
    pub ttl_ms: Double,
    pub priority: Priority,
}

pub struct RequestView {
    pub entity_id: EntityId,
    pub attribute: Seq<char>,
    pub source_id: Seq<char>,
    pub query: Seq<char>,
    pub ttl_ms: Double,
    pub priority: Priority,
}

impl View for ResolveRequest {
    type V = RequestView;

    open spec fn view(&self) -> RequestView {
        RequestView {
            entity_id: self.entity_id,
            attribute: self.attribute@,
            source_id: self.source_id@,
            query: self.query@,
            ttl_ms: self.ttl_ms,
            priority: self.priority,
        }
    }
}

/// A resolver's answer to one request.
#[derive(Debug, Clone, PartialEq)]
pub struct ResolvedSample {
    pub entity_id: EntityId,
    pub attribute: String,
    pub value: Double,
    pub quality: Quality,
}

pub struct SampleView {
    pub entity_id: EntityId,
    pub attribute: Seq<char>,
    pub value: Double,
    pub quality: Quality,
}

impl View for ResolvedSample {
    type V = SampleView;

    open spec fn view(&self) -> SampleView {
        SampleView {
            entity_id: self.entity_id,
            attribute: self.attribute@,
            value: self.value,
            quality: self.quality,
        }
    }
}

/// The answer to a request for which a value was found, or was not.
pub open spec fn sample_of(r: RequestView, value: Option<Double>) -> SampleView {
    match value {
        Some(value) => SampleView {
            entity_id: r.entity_id,
            attribute: r.attribute,
            value,
            quality: Quality::Good,
        },
        None => SampleView {
            entity_id: r.entity_id,
            attribute: r.attribute,
            value: Double::nan_spec(),
            quality: Quality::Unavailable,
        },
    }
}

impl ResolvedSample {
    /// The answer to a request for which a value was found, or was not.
    pub fn answer(r: &ResolveRequest, value: Option<Double>) -> (s: Self)
        ensures
            s@ == sample_of(r@, value),
    {
        match value {
            Some(value) => ResolvedSample {
                entity_id: r.entity_id,
                attribute: r.attribute.clone(),
                value,
                quality: Quality::Good,
            },
            None => ResolvedSample {
                entity_id: r.entity_id,
                attribute: r.attribute.clone(),
                value: Double::not_a_number(),
                quality: Quality::Unavailable,
            },
        }
    }
}

/// A way to turn declarative bindings into values.
pub trait Resolver: Sized {
    /// What the resolver may answer to requests, and become by it: anything, unless
    /// it says more.
    open spec fn may_answer(
        &self,
        reqs: Seq<RequestView>,
        samples: Seq<SampleView>,
        after: &Self,
    ) -> bool {
        true
    }

    /// What the resolver may report of its round trips: anything, unless it says
    /// more.
    open spec fn may_count(&self, n: u64) -> bool {
        true
    }

    /// Resolves requests, with one sample for each.
    fn resolve(&mut self, reqs: &[ResolveRequest]) -> (samples: Vec<ResolvedSample>)
        ensures
            old(self).may_answer(views(reqs@), views(samples@), final(self)),
    ;

    /// How many upstream round trips there have been.
    fn upstream_requests(&self) -> (n: u64)
        ensures
            self.may_count(n),
    ;

    /// How often [`Resolver::resolve`] has been called.
    fn batch_calls(&self) -> u64;
}

// ---------------------------------------------------------------------------
// Batching.

/// How many assets one query asks for at most.
pub const MAX_ASSETS_PER_QUERY: usize = 512;

/// One upstream query and the requests that it answers, each with the asset by
/// which its answer is found; without one, the first row of the reply answers.
#[derive(Debug)]
pub struct Batch {
    pub query: String,
    pub members: Vec<BatchMember>,
}

#[derive(Debug)]
pub struct BatchMember {
    /// The position of the request.
    pub index: usize,
    pub asset: Option<String>,
}

pub struct MemberView {
    pub index: int,
    pub asset: Option<Seq<char>>,
}

impl View for BatchMember {
    type V = MemberView;

    open spec fn view(&self) -> MemberView {
        MemberView { index: self.index as int, asset: opt_view(self.asset) }
    }
}

pub struct BatchView {
    pub query: Seq<char>,
    pub members: Seq<MemberView>,
}

impl View for Batch {
    type V = BatchView;

    open spec fn view(&self) -> BatchView {
        BatchView { query: self.query@, members: views(self.members@) }
    }
}

/// Requests that one metric and the same other labels bring together.
struct Group {
    key: String,
    metric: String,
    others: Vec<String>,
    members: Vec<BatchMember>,
}

pub struct GroupView {
    pub key: Seq<char>,
    pub metric: Seq<char>,
    pub others: Seq<Seq<char>>,
    pub members: Seq<MemberView>,
}

impl View for Group {
    type V = GroupView;

    closed spec fn view(&self) -> GroupView {
        GroupView {
            key: self.key@,
            metric: self.metric@,
            others: views(self.others@),
            members: views(self.members@),
        }
    }
}

/// A request that can share a query: one for the metrics backend in the shape
/// that can be taken apart.
pub open spec fn groupable(r: RequestView) -> Option<ParsedQueryView> {
    if r.source_id == "victoriametrics"@ {
        parse_of(r.query)
    } else {
        None
    }
}

/// What a query is grouped by: its metric and its other labels, in order.
pub open spec fn group_key(p: ParsedQueryView) -> Seq<char> {
    p.metric + "\u{1}"@ + joined(sorted_texts(p.others), ","@)
}

/// How many groups at the head of a list come before a key.
pub open spec fn group_place(groups: Seq<GroupView>, key: Seq<char>) -> int
    decreases groups.len(),
{
    if groups.len() > 0 && before(groups[0].key, key) {
        1 + group_place(groups.drop_first(), key)
    } else {
        0
    }
}

/// The groups with a request in the group of its key, in the order of the keys.
pub open spec fn grouped(groups: Seq<GroupView>, p: ParsedQueryView, index: int) -> Seq<GroupView> {
    let key = group_key(p);
    let at = group_place(groups, key);
    let member = MemberView { index, asset: Some(p.asset) };
    if at < groups.len() && groups[at].key == key {
        let g = groups[at];
        groups.update(at, GroupView { members: g.members.push(member), ..g })
    } else {
        groups.insert(
            at,
            GroupView {
                key,
                metric: p.metric,
                others: sorted_texts(p.others),
                members: seq![member],
            },
        )
    }
}

/// The groups of the first `n` requests.
pub open spec fn groups_of(reqs: Seq<RequestView>, n: int) -> Seq<GroupView>
    decreases n,
{
    if n <= 0 {
        Seq::empty()
    } else {
        match groupable(reqs[n - 1]) {
            Some(p) => grouped(groups_of(reqs, n - 1), p, n - 1),
            None => groups_of(reqs, n - 1),
        }
    }
}

/// The requests among the first `n` that share no query, each by itself.
pub open spec fn singles_of(reqs: Seq<RequestView>, n: int) -> Seq<BatchView>
    decreases n,
{
    if n <= 0 {
        Seq::empty()
    } else if groupable(reqs[n - 1]) is Some {
        singles_of(reqs, n - 1)
    } else {
        singles_of(reqs, n - 1).push(
            BatchView {
                query: reqs[n - 1].query,
                members: seq![MemberView { index: n - 1, asset: None }],
            },
        )
    }
}

pub open spec fn assets_of(members: Seq<MemberView>) -> Seq<Seq<char>> {
    members.map_values(
        |m: MemberView|
            match m.asset {
                Some(a) => a,
                None => Seq::empty(),
            },
    )
}

/// The length of the next chunk.
pub open spec fn chunk_len(n: nat) -> int {
    if n <= 512 {
        n as int
    } else {
        512
    }
}

/// The queries of a group: its members in chunks of bounded length, each of which
/// asks for its distinct assets.
pub open spec fn group_batches(g: GroupView) -> Seq<BatchView>
    decreases g.members.len(),
{
    if g.members.len() == 0 {
        Seq::empty()
    } else {
        let n = chunk_len(g.members.len());
        let chunk = g.members.take(n);
        let batch = BatchView {
            query: batched_query(g.metric, g.others, distinct_texts(assets_of(chunk))),
            members: chunk,
        };
        seq![batch] + group_batches(GroupView { members: g.members.skip(n), ..g })
    }
}

/// The queries of groups, one after the other.
pub open spec fn all_group_batches(groups: Seq<GroupView>) -> Seq<BatchView>
    decreases groups.len(),
{
    if groups.len() == 0 {
        Seq::empty()
    } else {
        all_group_batches(groups.drop_last()) + group_batches(groups.last())
    }
}

/// The queries for requests: those of the groups, then the single ones.
pub open spec fn batches_of(reqs: Seq<RequestView>) -> Seq<BatchView> {
    all_group_batches(groups_of(reqs, reqs.len() as int)) + singles_of(reqs, reqs.len() as int)
}

pub proof fn lemma_group_place(groups: Seq<GroupView>, key: Seq<char>)
    ensures
        0 <= group_place(groups, key) <= groups.len(),
    decreases groups.len(),
{
    if groups.len() > 0 && before(groups[0].key, key) {
        lemma_group_place(groups.drop_first(), key);
    }
}

fn find_group(groups: &Vec<Group>, key: &str) -> (at: usize)
    ensures
        at == group_place(views(groups@), key@),
        at <= groups@.len(),
{
    let ghost all = views(groups@);
    let mut p: usize = 0;
    proof {
        assert(all.skip(0) =~= all);
    }
    while p < groups.len()
        invariant
            p <= groups@.len(),
            all == views(groups@),
            group_place(all, key@) == p + group_place(all.skip(p as int), key@),
        decreases groups@.len() - p,
    {
        proof {
            assert(all.skip(p as int)[0] == groups@[p as int]@);
            assert(all.skip(p as int).drop_first() =~= all.skip(p + 1));
        }
        if !is_before(groups[p].key.as_str(), key) {
            return p;
        }
        p = p + 1;
    }
    p
}

fn add_to_group(groups: &mut Vec<Group>, p: ParsedQuery, index: usize)
    ensures
        views(final(groups)@) == grouped(views(old(groups)@), p@, index as int),
{
    broadcast use group_models;

    let others = sort_texts(&p.others);
    let key = cat3(p.metric.as_str(), "\u{1}", join(&others, ",").as_str());
    let at: usize = find_group(groups, key.as_str());
    let member = BatchMember { index, asset: Some(p.asset) };
    let ghost g0 = views(groups@);
    if at < groups.len() && groups[at].key == key {
        let ghost m0 = views(groups@[at as int].members@);
        groups[at].members.push(member);
        proof {
            assert(views(groups@) =~= grouped(g0, p@, index as int));
        }
    } else {
        let mut members: Vec<BatchMember> = Vec::new();
        members.push(member);
        proof {
            assert(views(members@) =~= seq![member@]);
        }
        groups.insert(at, Group { key, metric: p.metric, others, members });
        proof {
            assert(views(groups@) =~= grouped(g0, p@, index as int));
        }
    }
}

/// The query of a chunk of a group's members.
fn chunk_batch(g: &Group, from: usize, to: usize) -> (b: Batch)
    requires
        from <= to <= g.members@.len(),
    ensures
        b@.members == g@.members.subrange(from as int, to as int),
        b@.query == batched_query(
            g@.metric,
            g@.others,
            distinct_texts(assets_of(g@.members.subrange(from as int, to as int))),
        ),
{
    broadcast use group_models;

    let ghost all = g@.members;
    let mut members: Vec<BatchMember> = Vec::new();
    let mut assets: Vec<String> = Vec::new();
    let mut i: usize = from;
    proof {
        assert(views(members@) =~= all.subrange(from as int, from as int));
        assert(views(assets@) =~= assets_of(all.subrange(from as int, from as int)));
    }
    while i < to
        invariant
            from <= i <= to <= g.members@.len(),
            all == views(g.members@),
            views(members@) == all.subrange(from as int, i as int),
            views(assets@) == assets_of(all.subrange(from as int, i as int)),
        decreases to - i,
    {
        let asset = match &g.members[i].asset {
            Some(a) => Some(a.clone()),
            None => None,
        };
        let name = match &asset {
            Some(a) => a.clone(),
            None => String::new(),
        };
        let ghost m0 = all.subrange(from as int, i as int);
        members.push(BatchMember { index: g.members[i].index, asset });
        assets.push(name);
        i = i + 1;
        proof {
            let m1 = all.subrange(from as int, i as int);
            assert(all[i - 1] == g.members@[i - 1]@);
            assert(m1 =~= m0.push(all[i - 1]));
            assert(assets_of(m1) =~= assets_of(m0).push(name@));
            assert(views(members@) =~= m1);
        }
    }
    let distinct = sort_distinct_texts(&assets);
    let query = build_batched_query(g.metric.as_str(), &g.others, &distinct);
    Batch { query, members }
}

/// Adds the queries of a group.
fn add_group_batches(g: &Group, batches: &mut Vec<Batch>)
    ensures
        views(final(batches)@) == views(old(batches)@) + group_batches(g@),
{
    broadcast use group_models;

    let ghost all = g@.members;
    let mut from: usize = 0;
    let ghost b0 = views(batches@);
    proof {
        assert(all.skip(0) =~= all);
        assert(b0 + group_batches(g@) =~= views(batches@) + group_batches(
            GroupView { members: all.skip(0), ..g@ },
        ));
    }
    while from < g.members.len()
        invariant
            from <= g.members@.len(),
            all == views(g.members@),
            all == g@.members,
            b0 + group_batches(g@) == views(batches@) + group_batches(
                GroupView { members: all.skip(from as int), ..g@ },
            ),
        decreases g.members@.len() - from,
    {
        let left: usize = g.members.len() - from;
        let to: usize = if left <= MAX_ASSETS_PER_QUERY {
            g.members.len()
        } else {
            from + MAX_ASSETS_PER_QUERY
        };
        let b = chunk_batch(g, from, to);
        proof {
            let rest = GroupView { members: all.skip(from as int), ..g@ };
            let n = chunk_len(rest.members.len());
            assert(n == to - from);
            assert(rest.members.take(n) =~= all.subrange(from as int, to as int));
            assert(rest.members.skip(n) =~= all.skip(to as int));
            let next = GroupView { members: all.skip(to as int), ..g@ };
            assert(group_batches(rest) == seq![b@] + group_batches(next));
            assert(views(batches@) + (seq![b@] + group_batches(next)) =~= views(batches@).push(
                b@,
            ) + group_batches(next));
        }
        batches.push(b);
        from = to;
    }
    proof {
        assert(all.skip(from as int) =~= Seq::empty());
        assert(views(batches@) + Seq::<BatchView>::empty() =~= views(batches@));
    }
}

/// Collapses requests into few upstream queries: those that share a metric and
/// the other labels go into one, split so that none asks for too many assets;
/// every other request has a query of its own.
pub fn plan_batches(reqs: &[ResolveRequest]) -> (batches: Vec<Batch>)
    ensures
        views(batches@) == batches_of(views(reqs@)),
{
    broadcast use group_models;

    let ghost all = views(reqs@);
    let mut groups: Vec<Group> = Vec::new();
    let mut singles: Vec<Batch> = Vec::new();
    let mut i: usize = 0;
    proof {
        assert(views(groups@) =~= groups_of(all, 0));
        assert(views(singles@) =~= singles_of(all, 0));
    }
    let metrics = "victoriametrics".to_owned();
    while i < reqs.len()
        invariant
            i <= reqs@.len(),
            all == views(reqs@),
            metrics@ == "victoriametrics"@,
            views(groups@) == groups_of(all, i as int),
            views(singles@) == singles_of(all, i as int),
        decreases reqs@.len() - i,
    {
        proof {
            assert(all[i as int] == reqs@[i as int]@);
        }
        let parsed = if reqs[i].source_id == metrics {
            parse_query(reqs[i].query.as_str())
        } else {
            None
        };
        match parsed {
            Some(p) => add_to_group(&mut groups, p, i),
            None => {
                let mut members: Vec<BatchMember> = Vec::new();
                members.push(BatchMember { index: i, asset: None });
                proof {
                    assert(views(members@) =~= seq![MemberView { index: i as int, asset: None }]);
                }
                singles.push(Batch { query: reqs[i].query.clone(), members });
            },
        }
        i = i + 1;
    }
    let ghost gs = views(groups@);
    let mut batches: Vec<Batch> = Vec::new();
    let mut j: usize = 0;
    proof {
        assert(views(batches@) =~= all_group_batches(gs.take(0)));
    }
    while j < groups.len()
        invariant
            j <= groups@.len(),
            gs == views(groups@),
            views(batches@) == all_group_batches(gs.take(j as int)),
        decreases groups@.len() - j,
    {
        add_group_batches(&groups[j], &mut batches);
        j = j + 1;
        proof {
            assert(gs.take(j as int).drop_last() =~= gs.take(j - 1));
            assert(gs.take(j as int).last() == groups@[j - 1]@);
        }
    }
    proof {
        assert(gs.take(j as int) =~= gs);
    }
    let ghost b0 = views(batches@);
    let ghost ss = views(singles@);
    batches.append(&mut singles);
    proof {
        assert(views(batches@) =~= b0 + ss);
    }
    batches
}

// ---------------------------------------------------------------------------
// Replies.

/// A row of a reply: the asset label, where there is one, and the value.
#[derive(Debug, Clone, PartialEq)]
pub struct VmRow {
    pub asset: Option<String>,
    pub value: Double,
}

pub struct VmRowView {
    pub asset: Option<Seq<char>>,
    pub value: Double,
}

impl View for VmRow {
    type V = VmRowView;

    open spec fn view(&self) -> VmRowView {
        VmRowView { asset: opt_view(self.asset), value: self.value }
    }
}

/// A series of a reply: the asset label, and the value where it is a number.
#[derive(Debug, Clone)]
pub struct VmSeries {
    pub asset: Option<String>,
    pub value: Option<Double>,
}

pub struct VmSeriesView {
    pub asset: Option<Seq<char>>,
    pub value: Option<Double>,
}

impl View for VmSeries {
    type V = VmSeriesView;

    open spec fn view(&self) -> VmSeriesView {
        VmSeriesView { asset: opt_view(self.asset), value: self.value }
    }
}

/// Why a reply cannot be used.
#[derive(Debug, Clone, PartialEq)]
pub enum VmError {
    /// The backend reports another status than success.
    Status(String),
    /// The reply holds no data.
    MissingData,
}

/// The series that carry a number, as rows.
pub open spec fn rows_of(series: Seq<VmSeriesView>) -> Seq<VmRowView>
    decreases series.len(),
{
    if series.len() == 0 {
        Seq::empty()
    } else {
        let init = rows_of(series.drop_last());
        match series.last().value {
            Some(value) => init.push(VmRowView { asset: series.last().asset, value }),
            None => init,
        }
    }
}

/// The rows of a reply to an instant query.
pub fn vm_rows(status: &str, data: Option<&[VmSeries]>) -> (r: Result<Vec<VmRow>, VmError>)
    ensures
        match r {
            Ok(rows) => status@ == "success"@ && data is Some && views(rows@) == rows_of(
                views(data->0@),
            ),
            Err(VmError::Status(s)) => status@ != "success"@ && s@ == status@,
            Err(VmError::MissingData) => status@ == "success"@ && data is None,
        },
{
    broadcast use group_models;

    if status.to_owned() != "success".to_owned() {
        return Err(VmError::Status(status.to_owned()));
    }
    let series = match data {
        Some(series) => series,
        None => return Err(VmError::MissingData),
    };
    let ghost all = views(series@);
    let mut rows: Vec<VmRow> = Vec::new();
    let mut i: usize = 0;
    proof {
        assert(views(rows@) =~= rows_of(all.take(0)));
    }
    while i < series.len()
        invariant
            i <= series@.len(),
            all == views(series@),
            views(rows@) == rows_of(all.take(i as int)),
        decreases series@.len() - i,
    {
        proof {
            assert(all.take(i + 1).drop_last() =~= all.take(i as int));
            assert(all.take(i + 1).last() == series@[i as int]@);
        }
        if let Some(value) = series[i].value {
            let asset = match &series[i].asset {
                Some(a) => Some(a.clone()),
                None => None,
            };
            rows.push(VmRow { asset, value });
        }
        i = i + 1;
    }
    proof {
        assert(all.take(i as int) =~= all);
    }
    Ok(rows)
}

/// The value of the first row that answers: one with the asset, or any where no
/// asset is asked for.
pub open spec fn answer_in(rows: Seq<VmRowView>, asset: Option<Seq<char>>) -> Option<Double>
    decreases rows.len(),
{
    if rows.len() == 0 {
        None
    } else if asset is None || rows[0].asset == asset {
        Some(rows[0].value)
    } else {
        answer_in(rows.drop_first(), asset)
    }
}

fn find_answer(rows: &[VmRow], asset: &Option<String>) -> (r: Option<Double>)
    ensures
        r == answer_in(views(rows@), opt_view(*asset)),
{
    let ghost all = views(rows@);
    let mut i: usize = 0;
    proof {
        assert(all.skip(0) =~= all);
    }
    while i < rows.len()
        invariant
            i <= rows@.len(),
            all == views(rows@),
            answer_in(all, opt_view(*asset)) == answer_in(all.skip(i as int), opt_view(*asset)),
        decreases rows@.len() - i,
    {
        proof {
            assert(all.skip(i as int)[0] == rows@[i as int]@);
            assert(all.skip(i as int).drop_first() =~= all.skip(i + 1));
        }
        let answers = match asset {
            None => true,
            Some(a) => match &rows[i].asset {
                Some(b) => *a == *b,
                None => false,
            },
        };
        if answers {
            return Some(rows[i].value);
        }
        i = i + 1;
    }
    None
}

/// The samples that a reply gives to the members of a batch, one each; without a
/// reply no value is available.
pub open spec fn answers(
    reqs: Seq<RequestView>,
    members: Seq<MemberView>,
    reply: Option<Seq<VmRowView>>,
) -> Seq<SampleView> {
    members.map_values(
        |m: MemberView|
            sample_of(
                reqs[m.index],
                match reply {
                    Some(rows) => answer_in(rows, m.asset),
                    None => None,
                },
            ),
    )
}

/// The members of a batch are requests.
pub open spec fn members_in(members: Seq<MemberView>, n: int) -> bool {
    forall|i: int| 0 <= i < members.len() ==> 0 <= (#[trigger] members[i]).index < n
}

/// Hands the rows of a reply out to the members of a batch; `None` is a query
/// that failed.
pub fn demux(
    reqs: &[ResolveRequest],
    batch: &Batch,
    reply: Option<&[VmRow]>,
    out: &mut Vec<ResolvedSample>,
)
    requires
        members_in(batch@.members, reqs@.len() as int),
    ensures
        views(final(out)@) == views(old(out)@) + answers(
            views(reqs@),
            batch@.members,
            match reply {
                Some(rows) => Some(views(rows@)),
                None => None,
            },
        ),
{
    broadcast use group_models;

    let ghost rv = match reply {
        Some(rows) => Some(views(rows@)),
        None => None,
    };
    let ghost all = answers(views(reqs@), batch@.members, rv);
    let ghost o0 = views(out@);
    let mut i: usize = 0;
    proof {
        assert(o0 + all.take(0) =~= o0);
    }
    while i < batch.members.len()
        invariant
            i <= batch.members@.len(),
            members_in(batch@.members, reqs@.len() as int),
            rv == match reply {
                Some(rows) => Some(views(rows@)),
                None => None,
            },
            all == answers(views(reqs@), batch@.members, rv),
            views(out@) == o0 + all.take(i as int),
        decreases batch.members@.len() - i,
    {
        proof {
            assert(batch@.members[i as int] == batch.members@[i as int]@);
        }
        let value = match reply {
            Some(rows) => find_answer(rows, &batch.members[i].asset),
            None => None,
        };
        out.push(ResolvedSample::answer(&reqs[batch.members[i].index], value));
        i = i + 1;
        proof {
            assert(o0 + all.take(i as int) =~= (o0 + all.take(i - 1)).push(all[i - 1]));
        }
    }
    proof {
        assert(all.take(i as int) =~= all);
    }
}

// ---------------------------------------------------------------------------
// What holds of every plan.

/// How often a request stands among members.
pub open spec fn times(members: Seq<MemberView>, index: int) -> nat
    decreases members.len(),
{
    if members.len() == 0 {
        0
    } else {
        times(members.drop_last(), index) + if members.last().index == index {
            1nat
        } else {
            0
        }
    }
}

/// How often a request stands among the members of batches.
pub open spec fn times_in_batches(batches: Seq<BatchView>, index: int) -> nat
    decreases batches.len(),
{
    if batches.len() == 0 {
        0
    } else {
        times_in_batches(batches.drop_last(), index) + times(batches.last().members, index)
    }
}

spec fn times_in_groups(groups: Seq<GroupView>, index: int) -> nat
    decreases groups.len(),
{
    if groups.len() == 0 {
        0
    } else {
        times_in_groups(groups.drop_last(), index) + times(groups.last().members, index)
    }
}

proof fn lemma_one_member(m: MemberView, index: int)
    ensures
        times(seq![m], index) == if m.index == index {
            1nat
        } else {
            0
        },
{
    assert(seq![m].drop_last() =~= Seq::<MemberView>::empty());
    assert(times(Seq::<MemberView>::empty(), index) == 0);
}

proof fn lemma_one_batch(b: BatchView, index: int)
    ensures
        times_in_batches(seq![b], index) == times(b.members, index),
{
    assert(seq![b].drop_last() =~= Seq::<BatchView>::empty());
    assert(times_in_batches(Seq::<BatchView>::empty(), index) == 0);
}

proof fn lemma_times_split(members: Seq<MemberView>, n: int, index: int)
    requires
        0 <= n <= members.len(),
    ensures
        times(members, index) == times(members.take(n), index) + times(members.skip(n), index),
    decreases members.len(),
{
    if n == members.len() {
        assert(members.take(n) =~= members);
        assert(members.skip(n) =~= Seq::empty());
    } else {
        lemma_times_split(members.drop_last(), n, index);
        assert(members.drop_last().take(n) =~= members.take(n));
        assert(members.skip(n).drop_last() =~= members.drop_last().skip(n));
        assert(members.skip(n).last() == members.last());
    }
}

proof fn lemma_times_member(members: Seq<MemberView>, i: int)
    requires
        0 <= i < members.len(),
    ensures
        times(members, members[i].index) >= 1,
    decreases members.len(),
{
    if i < members.len() - 1 {
        assert(members.drop_last()[i] == members[i]);
        lemma_times_member(members.drop_last(), i);
    }
}

proof fn lemma_batches_concat(a: Seq<BatchView>, b: Seq<BatchView>, index: int)
    ensures
        times_in_batches(a + b, index) == times_in_batches(a, index) + times_in_batches(b, index),
    decreases b.len(),
{
    if b.len() == 0 {
        assert(a + b =~= a);
    } else {
        lemma_batches_concat(a, b.drop_last(), index);
        assert((a + b).drop_last() =~= a + b.drop_last());
        assert((a + b).last() == b.last());
    }
}

proof fn lemma_groups_update(groups: Seq<GroupView>, at: int, g: GroupView, index: int)
    requires
        0 <= at < groups.len(),
    ensures
        times_in_groups(groups.update(at, g), index) + times(groups[at].members, index)
            == times_in_groups(groups, index) + times(g.members, index),
    decreases groups.len(),
{
    let u = groups.update(at, g);
    if at == groups.len() - 1 {
        assert(u.drop_last() =~= groups.drop_last());
    } else {
        lemma_groups_update(groups.drop_last(), at, g, index);
        assert(u.drop_last() =~= groups.drop_last().update(at, g));
        assert(u.last() == groups.last());
    }
}

proof fn lemma_groups_insert(groups: Seq<GroupView>, at: int, g: GroupView, index: int)
    requires
        0 <= at <= groups.len(),
    ensures
        times_in_groups(groups.insert(at, g), index) == times_in_groups(groups, index) + times(
            g.members,
            index,
        ),
    decreases groups.len(),
{
    let u = groups.insert(at, g);
    if at == groups.len() {
        assert(u.drop_last() =~= groups);
    } else {
        lemma_groups_insert(groups.drop_last(), at, g, index);
        assert(u.drop_last() =~= groups.drop_last().insert(at, g));
        assert(u.last() == groups.last());
    }
}

proof fn lemma_grouped(groups: Seq<GroupView>, p: ParsedQueryView, n: int, index: int)
    ensures
        times_in_groups(grouped(groups, p, n), index) == times_in_groups(groups, index) + if n
            == index {
            1nat
        } else {
            0
        },
{
    let key = group_key(p);
    let at = group_place(groups, key);
    let member = MemberView { index: n, asset: Some(p.asset) };
    lemma_group_place(groups, key);
    if at < groups.len() && groups[at].key == key {
        let g = groups[at];
        let h = GroupView { members: g.members.push(member), ..g };
        assert(h.members.drop_last() =~= g.members);
        lemma_groups_update(groups, at, h, index);
    } else {
        let one = seq![member];
        lemma_one_member(member, index);
        lemma_groups_insert(
            groups,
            at,
            GroupView { key, metric: p.metric, others: sorted_texts(p.others), members: one },
            index,
        );
    }
}

proof fn lemma_group_batches(g: GroupView, index: int)
    ensures
        times_in_batches(group_batches(g), index) == times(g.members, index),
        forall|i: int|
            0 <= i < group_batches(g).len() ==> (#[trigger] group_batches(g)[i]).members.len()
                <= MAX_ASSETS_PER_QUERY,
    decreases g.members.len(),
{
    if g.members.len() > 0 {
        let n = chunk_len(g.members.len());
        let rest = GroupView { members: g.members.skip(n), ..g };
        lemma_group_batches(rest, index);
        let all = group_batches(g);
        let head = seq![all[0]];
        assert(all =~= head + group_batches(rest));
        lemma_batches_concat(head, group_batches(rest), index);
        lemma_one_batch(all[0], index);
        lemma_times_split(g.members, n, index);
        assert forall|i: int| 0 <= i < all.len() implies (#[trigger] all[i]).members.len()
            <= MAX_ASSETS_PER_QUERY by {
            if i > 0 {
                assert(all[i] == group_batches(rest)[i - 1]);
            }
        }
    }
}

proof fn lemma_all_group_batches(groups: Seq<GroupView>, index: int)
    ensures
        times_in_batches(all_group_batches(groups), index) == times_in_groups(groups, index),
        forall|i: int|
            0 <= i < all_group_batches(groups).len() ==> (#[trigger] all_group_batches(
                groups,
            )[i]).members.len() <= MAX_ASSETS_PER_QUERY,
    decreases groups.len(),
{
    if groups.len() > 0 {
        lemma_all_group_batches(groups.drop_last(), index);
        lemma_group_batches(groups.last(), index);
        let a = all_group_batches(groups.drop_last());
        let b = group_batches(groups.last());
        lemma_batches_concat(a, b, index);
        assert forall|i: int| 0 <= i < (a + b).len() implies (#[trigger] (a + b)[i]).members.len()
            <= MAX_ASSETS_PER_QUERY by {
            if i >= a.len() {
                assert((a + b)[i] == b[i - a.len()]);
            }
        }
    }
}

proof fn lemma_planned(reqs: Seq<RequestView>, n: int, index: int)
    requires
        0 <= n <= reqs.len(),
    ensures
        times_in_groups(groups_of(reqs, n), index) + times_in_batches(singles_of(reqs, n), index)
            == if 0 <= index < n {
            1nat
        } else {
            0
        },
        forall|i: int|
            0 <= i < singles_of(reqs, n).len() ==> (#[trigger] singles_of(
                reqs,
                n,
            )[i]).members.len() == 1,
    decreases n,
{
    if n > 0 {
        lemma_planned(reqs, n - 1, index);
        match groupable(reqs[n - 1]) {
            Some(p) => {
                lemma_grouped(groups_of(reqs, n - 1), p, n - 1, index);
            },
            None => {
                let s = singles_of(reqs, n);
                assert(s.drop_last() =~= singles_of(reqs, n - 1));
                lemma_one_member(MemberView { index: n - 1, asset: None }, index);
            },
        }
    }
}

/// Every request stands in exactly one batch, once, and nothing else does; no
/// batch is longer than the limit.
pub proof fn law_each_request_in_one_batch(reqs: Seq<RequestView>, index: int)
    ensures
        times_in_batches(batches_of(reqs), index) == if 0 <= index < reqs.len() {
            1nat
        } else {
            0
        },
        forall|i: int|
            0 <= i < batches_of(reqs).len() ==> (#[trigger] batches_of(reqs)[i]).members.len()
                <= MAX_ASSETS_PER_QUERY,
{
    let n = reqs.len() as int;
    let a = all_group_batches(groups_of(reqs, n));
    let b = singles_of(reqs, n);
    lemma_planned(reqs, n, index);
    lemma_all_group_batches(groups_of(reqs, n), index);
    lemma_batches_concat(a, b, index);
    assert forall|i: int| 0 <= i < (a + b).len() implies (#[trigger] (a + b)[i]).members.len()
        <= MAX_ASSETS_PER_QUERY by {
        if i >= a.len() {
            assert((a + b)[i] == b[i - a.len()]);
        } else {
            assert((a + b)[i] == a[i]);
        }
    }
}

proof fn lemma_batch_member(batches: Seq<BatchView>, i: int, j: int)
    requires
        0 <= i < batches.len(),
        0 <= j < batches[i].members.len(),
    ensures
        times_in_batches(batches, batches[i].members[j].index) >= 1,
    decreases batches.len(),
{
    if i < batches.len() - 1 {
        assert(batches.drop_last()[i] == batches[i]);
        lemma_batch_member(batches.drop_last(), i, j);
    } else {
        lemma_times_member(batches[i].members, j);
    }
}

/// The members of every planned batch are requests.
pub proof fn law_members_are_requests(reqs: Seq<RequestView>, i: int)
    requires
        0 <= i < batches_of(reqs).len(),
    ensures
        members_in(batches_of(reqs)[i].members, reqs.len() as int),
{
    let batches = batches_of(reqs);
    assert forall|j: int| 0 <= j < batches[i].members.len() implies 0 <= (
    #[trigger] batches[i].members[j]).index < reqs.len() by {
        lemma_batch_member(batches, i, j);
        law_each_request_in_one_batch(reqs, batches[i].members[j].index);
    }
}

// ---------------------------------------------------------------------------
// The stub.

/// A resolver without a network. It plans batches as the real one does, and
/// answers every request alike.
pub struct StubResolver {
    /// The answer; `None` is an outage.
    pub value: Option<Double>,
    upstream_requests: u64,
    batch_calls: u64,
}

/// What the stub answers: a sample for each member of each batch, in turn.
pub open spec fn stub_answers(
    reqs: Seq<RequestView>,
    batches: Seq<BatchView>,
    value: Option<Double>,
) -> Seq<SampleView>
    decreases batches.len(),
{
    if batches.len() == 0 {
        Seq::empty()
    } else {
        stub_answers(reqs, batches.drop_last(), value) + batches.last().members.map_values(
            |m: MemberView| sample_of(reqs[m.index], value),
        )
    }
}

/// A count of one more, which stops at the largest.
pub open spec fn counted(n: u64, more: nat) -> int {
    if n + more > u64::MAX {
        u64::MAX as int
    } else {
        n + more
    }
}

impl StubResolver {
    /// What the stub answers.
    pub closed spec fn canned(&self) -> Option<Double> {
        self.value
    }

    /// How many upstream queries the stub has counted.
    pub closed spec fn upstream(&self) -> u64 {
        self.upstream_requests
    }

    /// How often the stub has been asked.
    pub closed spec fn calls(&self) -> u64 {
        self.batch_calls
    }

    /// A stub that answers every request with a value.
    pub fn new(value: Double) -> (r: Self)
        ensures
            r.canned() == Some(value),
            r.upstream() == 0,
            r.calls() == 0,
    {
        StubResolver { value: Some(value), upstream_requests: 0, batch_calls: 0 }
    }

    /// A stub that always fails.
    pub fn outage() -> (r: Self)
        ensures
            r.canned() is None,
            r.upstream() == 0,
            r.calls() == 0,
    {
        StubResolver { value: None, upstream_requests: 0, batch_calls: 0 }
    }

    /// Answers requests, and counts the queries that they would take.
    pub fn answer(&mut self, reqs: &[ResolveRequest]) -> (out: Vec<ResolvedSample>)
        ensures
            final(self).canned() == old(self).canned(),
            final(self).calls() == counted(old(self).calls(), 1),
            final(self).upstream() == counted(
                old(self).upstream(),
                batches_of(views(reqs@)).len(),
            ),
            views(out@) == stub_answers(
                views(reqs@),
                batches_of(views(reqs@)),
                old(self).canned(),
            ),
    {
        broadcast use group_models;

        let ghost rs = views(reqs@);
        let ghost bs = batches_of(rs);
        self.batch_calls = self.batch_calls.saturating_add(1);
        let batches = plan_batches(reqs);
        let mut out: Vec<ResolvedSample> = Vec::new();
        let mut i: usize = 0;
        proof {
            assert(views(out@) =~= stub_answers(rs, bs.take(0), self.value));
        }
        while i < batches.len()
            invariant
                i <= batches@.len(),
                rs == views(reqs@),
                bs == views(batches@),
                bs == batches_of(rs),
                self.value == old(self).value,
                self.calls() == counted(old(self).calls(), 1),
                self.upstream() == counted(old(self).upstream(), i as nat),
                views(out@) == stub_answers(rs, bs.take(i as int), self.value),
            decreases batches@.len() - i,
        {
            self.upstream_requests = self.upstream_requests.saturating_add(1);
            let batch = &batches[i];
            let ghost o0 = views(out@);
            let ghost all = batch@.members.map_values(
                |m: MemberView| sample_of(rs[m.index], self.value),
            );
            proof {
                assert(bs[i as int] == batch@);
                law_members_are_requests(rs, i as int);
                assert(o0 + all.take(0) =~= o0);
            }
            let mut j: usize = 0;
            while j < batch.members.len()
                invariant
                    j <= batch.members@.len(),
                    rs == views(reqs@),
                    members_in(batch@.members, rs.len() as int),
                    all == batch@.members.map_values(
                        |m: MemberView| sample_of(rs[m.index], self.value),
                    ),
                    views(out@) == o0 + all.take(j as int),
                decreases batch.members@.len() - j,
            {
                proof {
                    assert(batch@.members[j as int] == batch.members@[j as int]@);
                }
                out.push(ResolvedSample::answer(&reqs[batch.members[j].index], self.value));
                j = j + 1;
                proof {
                    assert(o0 + all.take(j as int) =~= (o0 + all.take(j - 1)).push(all[j - 1]));
                }
            }
            i = i + 1;
            proof {
                assert(all.take(j as int) =~= all);
                assert(bs.take(i as int).drop_last() =~= bs.take(i - 1));
                assert(bs.take(i as int).last() == batch@);
            }
        }
        proof {
            assert(bs.take(i as int) =~= bs);
        }
        out
    }
}

impl Resolver for StubResolver {
    /// Every request is answered alike, and the queries that it would take are
    /// counted.
    open spec fn may_answer(
        &self,
        reqs: Seq<RequestView>,
        samples: Seq<SampleView>,
        after: &Self,
    ) -> bool {
        &&& samples == stub_answers(reqs, batches_of(reqs), self.canned())
        &&& after.canned() == self.canned()
        &&& after.calls() == counted(self.calls(), 1)
        &&& after.upstream() == counted(self.upstream(), batches_of(reqs).len())
    }

    open spec fn may_count(&self, n: u64) -> bool {
        n == self.upstream()
    }

    fn resolve(&mut self, reqs: &[ResolveRequest]) -> (out: Vec<ResolvedSample>) {
        self.answer(reqs)
    }

    fn upstream_requests(&self) -> (n: u64) {
        self.upstream_requests
    }

    fn batch_calls(&self) -> (n: u64)
        ensures
            n == self.calls(),
    {
        self.batch_calls
    }
}

/// The members of batches, one batch after the other.
pub open spec fn all_members(batches: Seq<BatchView>) -> Seq<MemberView>
    decreases batches.len(),
{
    if batches.len() == 0 {
        Seq::empty()
    } else {
        all_members(batches.drop_last()) + batches.last().members
    }
}

proof fn lemma_all_members(batches: Seq<BatchView>, index: int)
    ensures
        times(all_members(batches), index) == times_in_batches(batches, index),
    decreases batches.len(),
{
    if batches.len() > 0 {
        let init = all_members(batches.drop_last());
        lemma_all_members(batches.drop_last(), index);
        let all = init + batches.last().members;
        lemma_times_split(all, init.len() as int, index);
        assert(all.take(init.len() as int) =~= init);
        assert(all.skip(init.len() as int) =~= batches.last().members);
    }
}

proof fn lemma_stub_answers(reqs: Seq<RequestView>, batches: Seq<BatchView>, value: Option<Double>)
    ensures
        stub_answers(reqs, batches, value) == all_members(batches).map_values(
            |m: MemberView| sample_of(reqs[m.index], value),
        ),
    decreases batches.len(),
{
    let f = |m: MemberView| sample_of(reqs[m.index], value);
    if batches.len() > 0 {
        lemma_stub_answers(reqs, batches.drop_last(), value);
    }
    assert(stub_answers(reqs, batches, value) =~= all_members(batches).map_values(f));
}

/// Every request is answered once: the stub's samples are those of the members of
/// the planned batches, and among these each request stands exactly once.
pub proof fn law_every_request_is_answered(
    reqs: Seq<RequestView>,
    value: Option<Double>,
    index: int,
)
    ensures
        stub_answers(reqs, batches_of(reqs), value) == all_members(batches_of(reqs)).map_values(
            |m: MemberView| sample_of(reqs[m.index], value),
        ),
        times(all_members(batches_of(reqs)), index) == if 0 <= index < reqs.len() {
            1nat
        } else {
            0
        },
{
    lemma_stub_answers(reqs, batches_of(reqs), value);
    lemma_all_members(batches_of(reqs), index);
    law_each_request_in_one_batch(reqs, index);
}

// ---------------------------------------------------------------------------
// The resolve pass over the working set.

/// What one pass did.
#[derive(Debug, Clone, Copy, PartialEq, Structural)]
pub struct ResolveStats {
    /// Bindings that had to be fetched.
    pub requests_issued: usize,
    /// Bindings whose value was still fresh.
    pub cache_hits: usize,
    /// Upstream round trips of this pass.
    pub upstream_delta: u64,
    pub ok: usize,
    pub stale: usize,
    pub unavailable: usize,
}

/// The request for a binding of an entity.
pub open spec fn request_of(id: EntityId, b: TelemetryBindingView) -> RequestView {
    RequestView {
        entity_id: id,
        attribute: b.attribute,
        source_id: b.source_id,
        query: b.query,
        ttl_ms: b.ttl_ms,
        priority: Priority::of(b.priority),
    }
}

/// A page has a fresh value of an attribute.
pub open spec fn has_fresh(
    telemetry: Map<Seq<char>, TelemetryValue>,
    attribute: Seq<char>,
    now_ms: i64,
) -> bool {
    telemetry.contains_key(attribute) && telemetry[attribute].fresh(now_ms)
}

/// The requests for those of some bindings that have no fresh value.
pub open spec fn due_bindings(
    telemetry: Map<Seq<char>, TelemetryValue>,
    id: EntityId,
    bindings: Seq<TelemetryBindingView>,
    now_ms: i64,
) -> Seq<RequestView>
    decreases bindings.len(),
{
    if bindings.len() == 0 {
        Seq::empty()
    } else {
        let init = due_bindings(telemetry, id, bindings.drop_last(), now_ms);
        if has_fresh(telemetry, bindings.last().attribute, now_ms) {
            init
        } else {
            init.push(request_of(id, bindings.last()))
        }
    }
}

/// The bindings of an entity of the index; none where it has no such entity.
pub open spec fn bindings_at(lsg: LsgView, id: u64) -> Seq<TelemetryBindingView> {
    if lsg.entities.contains_key(id) {
        lsg.entities[id].bindings
    } else {
        Seq::empty()
    }
}

/// The requests that the listed pages need.
pub open spec fn due_of(v: RsgView, lsg: LsgView, ids: Seq<u64>, now_ms: i64) -> Seq<RequestView>
    decreases ids.len(),
{
    if ids.len() == 0 {
        Seq::empty()
    } else {
        due_of(v, lsg, ids.drop_last(), now_ms) + due_bindings(
            v.pages[ids.last()].telemetry,
            EntityId(ids.last()),
            bindings_at(lsg, ids.last()),
            now_ms,
        )
    }
}

/// How many bindings the listed pages have.
pub open spec fn considered(lsg: LsgView, ids: Seq<u64>) -> nat
    decreases ids.len(),
{
    if ids.len() == 0 {
        0
    } else {
        considered(lsg, ids.drop_last()) + bindings_at(lsg, ids.last()).len()
    }
}

/// The requests that a working set needs.
pub open spec fn requests_for(v: RsgView, lsg: LsgView, now_ms: i64) -> Seq<RequestView> {
    due_of(v, lsg, ascending(v.pages.dom()), now_ms)
}

/// Urgent requests first, each kind in the order it came in.
pub open spec fn urgent_first(reqs: Seq<RequestView>) -> Seq<RequestView> {
    reqs.filter(|r: RequestView| r.priority == Priority::High) + reqs.filter(
        |r: RequestView| r.priority != Priority::High,
    )
}

/// The time to live that the latest request for an attribute asked for; zero
/// where there is none.
pub open spec fn ttl_of(reqs: Seq<RequestView>, id: EntityId, attribute: Seq<char>) -> Double
    decreases reqs.len(),
{
    if reqs.len() == 0 {
        Double::zero_spec()
    } else if reqs.last().entity_id == id && reqs.last().attribute == attribute {
        reqs.last().ttl_ms
    } else {
        ttl_of(reqs.drop_last(), id, attribute)
    }
}

/// What became of one sample.
pub enum Outcome {
    Resolved,
    Stale,
    Unavailable,
    /// The entity is no longer in the working set.
    Dropped,
}

/// What a sample comes to.
pub open spec fn outcome_of(v: RsgView, s: SampleView) -> Outcome {
    let t = v.pages[s.entity_id.0].telemetry;
    if !v.has(s.entity_id) {
        Outcome::Dropped
    } else if s.quality == Quality::Good {
        Outcome::Resolved
    } else if s.quality == Quality::Stale {
        Outcome::Stale
    } else if t.contains_key(s.attribute) && (t[s.attribute].quality == Quality::Good
        || t[s.attribute].quality == Quality::Stale) {
        Outcome::Stale
    } else {
        Outcome::Unavailable
    }
}

/// The value that a sample leaves behind, if it sets one. A value is taken over.
/// A failure keeps an earlier value and marks it stale; without one it is noted.
pub open spec fn value_left(v: RsgView, ttl: Double, s: SampleView, now_ms: i64) -> Option<
    TelemetryValue,
> {
    let t = v.pages[s.entity_id.0].telemetry;
    if !v.has(s.entity_id) || s.quality == Quality::Stale {
        None
    } else if s.quality == Quality::Good {
        Some(
            TelemetryValue {
                value: s.value,
                as_of_ms: now_ms,
                ttl_ms: ttl,
                quality: Quality::Good,
            },
        )
    } else if !t.contains_key(s.attribute) {
        Some(
            TelemetryValue {
                value: Double::nan_spec(),
                as_of_ms: now_ms,
                ttl_ms: ttl,
                quality: s.quality,
            },
        )
    } else if outcome_of(v, s) is Stale {
        Some(TelemetryValue { quality: Quality::Stale, ..t[s.attribute] })
    } else {
        Some(TelemetryValue { as_of_ms: now_ms, quality: s.quality, ..t[s.attribute] })
    }
}

/// The working set with one sample taken in.
pub open spec fn absorbed_one(v: RsgView, ttl: Double, s: SampleView, now_ms: i64) -> RsgView {
    match value_left(v, ttl, s, now_ms) {
        Some(value) => with_telemetry(v, s.entity_id, s.attribute, value),
        None => v,
    }
}

/// How many samples came to what.
pub struct Tally {
    pub ok: nat,
    pub stale: nat,
    pub unavailable: nat,
}

pub open spec fn tally_of(s: ResolveStats) -> Tally {
    Tally { ok: s.ok as nat, stale: s.stale as nat, unavailable: s.unavailable as nat }
}

pub open spec fn tallied(t: Tally, o: Outcome) -> Tally {
    match o {
        Outcome::Resolved => Tally { ok: t.ok + 1, ..t },
        Outcome::Stale => Tally { stale: t.stale + 1, ..t },
        Outcome::Unavailable => Tally { unavailable: t.unavailable + 1, ..t },
        Outcome::Dropped => t,
    }
}

/// The working set with samples taken in, one after the other.
pub open spec fn absorbed(
    v: RsgView,
    reqs: Seq<RequestView>,
    samples: Seq<SampleView>,
    now_ms: i64,
) -> (RsgView, Tally)
    decreases samples.len(),
{
    if samples.len() == 0 {
        (v, Tally { ok: 0, stale: 0, unavailable: 0 })
    } else {
        let (w, t) = absorbed(v, reqs, samples.drop_last(), now_ms);
        let s = samples.last();
        (
            absorbed_one(w, ttl_of(reqs, s.entity_id, s.attribute), s, now_ms),
            tallied(t, outcome_of(w, s)),
        )
    }
}

/// The requests that the bindings of one page need, and how many it has fresh.
fn page_requests(
    telemetry: &TextMap<TelemetryValue>,
    id: EntityId,
    entity: &crate::lsg::Entity,
    now_ms: i64,
    reqs: &mut Vec<ResolveRequest>,
) -> (hits: usize)
    ensures
        views(final(reqs)@) == views(old(reqs)@) + due_bindings(
            telemetry@,
            id,
            entity@.bindings,
            now_ms,
        ),
        hits + due_bindings(telemetry@, id, entity@.bindings, now_ms).len()
            == entity@.bindings.len(),
{
    broadcast use group_models;

    let ghost bs = entity@.bindings;
    let ghost r0 = views(reqs@);
    let mut hits: usize = 0;
    let mut i: usize = 0;
    proof {
        assert(r0 + due_bindings(telemetry@, id, bs.take(0), now_ms) =~= r0);
    }
    while i < entity.bindings.len()
        invariant
            i <= entity.bindings@.len(),
            bs == views(entity.bindings@),
            views(reqs@) == r0 + due_bindings(telemetry@, id, bs.take(i as int), now_ms),
            hits + due_bindings(telemetry@, id, bs.take(i as int), now_ms).len() == i,
        decreases entity.bindings@.len() - i,
    {
        let b = &entity.bindings[i];
        proof {
            assert(bs.take(i + 1).drop_last() =~= bs.take(i as int));
            assert(bs.take(i + 1).last() == b@);
        }
        let fresh = match telemetry.get(b.attribute.as_str()) {
            Some(tv) => tv.is_fresh(now_ms),
            None => false,
        };
        let ghost d0 = due_bindings(telemetry@, id, bs.take(i as int), now_ms);
        if fresh {
            hits = hits + 1;
        } else {
            let r = ResolveRequest {
                entity_id: id,
                attribute: b.attribute.clone(),
                source_id: b.source_id.clone(),
                query: b.query.clone(),
                ttl_ms: b.ttl_ms,
                priority: Priority::from_binding(b.priority.as_str()),
            };
            proof {
                assert(r@ == request_of(id, b@));
                assert((r0 + d0).push(r@) =~= r0 + d0.push(r@));
            }
            reqs.push(r);
        }
        i = i + 1;
    }
    proof {
        assert(bs.take(i as int) =~= bs);
    }
    hits
}

/// How many values of the working set are still fresh.
pub open spec fn fresh_count(v: RsgView, lsg: LsgView, now_ms: i64) -> int {
    considered(lsg, ascending(v.pages.dom())) - requests_for(v, lsg, now_ms).len()
}

/// What a pass has to fetch: the requests that the working set needs, and how
/// many of its values are still fresh (a count that stops at the largest). Only
/// active entities are asked about.
pub fn plan_requests(rsg: &Rsg, lsg: &Lsg, now_ms: i64) -> (r: (Vec<ResolveRequest>, usize))
    requires
        rsg.wf(),
    ensures
        views(r.0@) == requests_for(rsg@, lsg@, now_ms),
        r.1 == capped(fresh_count(rsg@, lsg@, now_ms)),
{
    let ids = rsg.ids();
    let mut reqs: Vec<ResolveRequest> = Vec::new();
    let mut hits: usize = 0;
    let mut i: usize = 0;
    proof {
        assert(views(reqs@) =~= due_of(rsg@, lsg@, ids@.take(0), now_ms));
    }
    while i < ids.len()
        invariant
            i <= ids@.len(),
            rsg.wf(),
            lists(ids@, rsg@.pages.dom()),
            views(reqs@) == due_of(rsg@, lsg@, ids@.take(i as int), now_ms),
            reqs@.len() <= considered(lsg@, ids@.take(i as int)),
            hits == capped(considered(lsg@, ids@.take(i as int)) - reqs@.len()),
        decreases ids@.len() - i,
    {
        let id = EntityId(ids[i]);
        proof {
            assert(ids@.take(i + 1).drop_last() =~= ids@.take(i as int));
            assert(ids@.contains(ids@[i as int]));
            assert(rsg@.pages.dom().contains(ids@[i as int]));
            assert(due_bindings(
                rsg@.pages[id.0].telemetry,
                id,
                Seq::empty(),
                now_ms,
            ) =~= Seq::empty());
        }
        let ghost r0 = views(reqs@);
        proof {
            assert(r0.len() == reqs@.len());
        }
        if let Some(re) = rsg.get(id) {
            if let Some(e) = lsg.get(id) {
                let more: usize = page_requests(&re.telemetry, id, e, now_ms, &mut reqs);
                proof {
                    assert(views(reqs@).len() == reqs@.len());
                    assert(r0.len() + e@.bindings.len() == reqs@.len() + more);
                }
                hits = hits.saturating_add(more);
            } else {
                proof {
                    assert(r0 + Seq::<RequestView>::empty() =~= r0);
                }
            }
        }
        i = i + 1;
    }
    proof {
        assert(ids@.take(i as int) =~= ids@);
        assert(views(reqs@).len() == reqs@.len());
    }
    (reqs, hits)
}

fn copy_request(r: &ResolveRequest) -> (c: ResolveRequest)
    ensures
        c@ == r@,
{
    ResolveRequest {
        entity_id: r.entity_id,
        attribute: r.attribute.clone(),
        source_id: r.source_id.clone(),
        query: r.query.clone(),
        ttl_ms: r.ttl_ms,
        priority: r.priority,
    }
}

/// Puts urgent requests first.
pub fn order_by_urgency(reqs: &Vec<ResolveRequest>) -> (r: Vec<ResolveRequest>)
    ensures
        views(r@) == urgent_first(views(reqs@)),
{
    broadcast use group_models;

    let ghost all = views(reqs@);
    let ghost f = |r: RequestView| r.priority == Priority::High;
    let ghost g = |r: RequestView| r.priority != Priority::High;
    let mut high: Vec<ResolveRequest> = Vec::new();
    let mut low: Vec<ResolveRequest> = Vec::new();
    let mut i: usize = 0;
    proof {
        reveal(Seq::filter);
        assert(all.take(0) =~= Seq::empty());
        assert(views(high@) =~= all.take(0).filter(f));
        assert(views(low@) =~= all.take(0).filter(g));
    }
    while i < reqs.len()
        invariant
            i <= reqs@.len(),
            all == views(reqs@),
            f == (|r: RequestView| r.priority == Priority::High),
            g == (|r: RequestView| r.priority != Priority::High),
            views(high@) == all.take(i as int).filter(f),
            views(low@) == all.take(i as int).filter(g),
        decreases reqs@.len() - i,
    {
        proof {
            reveal(Seq::filter);
            assert(all.take(i + 1).drop_last() =~= all.take(i as int));
            assert(all.take(i + 1).last() == reqs@[i as int]@);
        }
        if reqs[i].priority == Priority::High {
            high.push(copy_request(&reqs[i]));
        } else {
            low.push(copy_request(&reqs[i]));
        }
        i = i + 1;
    }
    let ghost h = views(high@);
    let ghost l = views(low@);
    high.append(&mut low);
    proof {
        assert(all.take(i as int) =~= all);
        assert(views(high@) =~= h + l);
    }
    high
}

/// The times to live that requests asked for, by entity and attribute.
spec fn ttls_ok(m: Map<u64, TextMap<Double>>, reqs: Seq<RequestView>) -> bool {
    forall|id: EntityId, a: Seq<char>| #[trigger]
        ttl_in(m, id, a) == ttl_of(reqs, id, a)
}

spec fn ttl_in(m: Map<u64, TextMap<Double>>, id: EntityId, a: Seq<char>) -> Double {
    if m.contains_key(id.0) && m[id.0]@.contains_key(a) {
        m[id.0]@[a]
    } else {
        Double::zero_spec()
    }
}

fn index_ttls(reqs: &Vec<ResolveRequest>) -> (m: IdMap<TextMap<Double>>)
    ensures
        ttls_ok(m@, views(reqs@)),
{
    broadcast use group_models;

    let ghost all = views(reqs@);
    let mut m: IdMap<TextMap<Double>> = IdMap::new();
    let mut i: usize = 0;
    while i < reqs.len()
        invariant
            i <= reqs@.len(),
            all == views(reqs@),
            ttls_ok(m@, all.take(i as int)),
        decreases reqs@.len() - i,
    {
        let ghost before = m@;
        let r = &reqs[i];
        let mut d = match m.remove(r.entity_id.0) {
            Some(d) => d,
            None => TextMap::new(),
        };
        let ghost d0 = d@;
        d.insert(r.attribute.clone(), r.ttl_ms);
        m.insert(r.entity_id.0, d);
        proof {
            assert(all.take(i + 1).drop_last() =~= all.take(i as int));
            assert(all.take(i + 1).last() == r@);
            assert forall|id: EntityId, a: Seq<char>| #[trigger] ttl_in(m@, id, a) == ttl_of(
                all.take(i + 1),
                id,
                a,
            ) by {
                assert(ttl_in(before, id, a) == ttl_of(all.take(i as int), id, a));
                assert(m@ =~= before.insert(r.entity_id.0, d));
                if id.0 == r.entity_id.0 {
                    assert(id == r.entity_id);
                }
            }
        }
        i = i + 1;
    }
    proof {
        assert(all.take(i as int) =~= all);
    }
    m
}

/// Takes the samples of a resolver into the working set. Returns how many were
/// resolved, stale and unavailable.
pub fn absorb(
    rsg: &mut Rsg,
    reqs: &Vec<ResolveRequest>,
    samples: &Vec<ResolvedSample>,
    now_ms: i64,
) -> (counts: (usize, usize, usize))
    requires
        old(rsg).wf(),
    ensures
        final(rsg).wf(),
        final(rsg)@ == absorbed(old(rsg)@, views(reqs@), views(samples@), now_ms).0,
        (Tally { ok: counts.0 as nat, stale: counts.1 as nat, unavailable: counts.2 as nat })
            == absorbed(old(rsg)@, views(reqs@), views(samples@), now_ms).1,
        forall|id: EntityId| #[trigger]
            old(rsg)@.has(id) ==> final(rsg)@.has(id) && final(rsg).payload(id) == old(
                rsg,
            ).payload(id),
{
    let ghost rs = views(reqs@);
    let ghost all = views(samples@);
    let ttls = index_ttls(reqs);
    let mut ok: usize = 0;
    let mut stale: usize = 0;
    let mut unavailable: usize = 0;
    let mut i: usize = 0;
    while i < samples.len()
        invariant
            i <= samples@.len(),
            all == views(samples@),
            ttls_ok(ttls@, rs),
            rsg.wf(),
            ok <= i,
            stale <= i,
            unavailable <= i,
            (
                rsg@,
                Tally { ok: ok as nat, stale: stale as nat, unavailable: unavailable as nat },
            ) == absorbed(old(rsg)@, rs, all.take(i as int), now_ms),
            forall|id: EntityId| #[trigger]
                old(rsg)@.has(id) ==> rsg@.has(id) && rsg.payload(id) == old(rsg).payload(id),
        decreases samples@.len() - i,
    {
        let s = &samples[i];
        proof {
            assert(all.take(i + 1).drop_last() =~= all.take(i as int));
            assert(all.take(i + 1).last() == s@);
            assert(ttl_in(ttls@, s.entity_id, s.attribute@) == ttl_of(
                rs,
                s.entity_id,
                s.attribute@,
            ));
        }
        let ttl_ms = match ttls.get(s.entity_id.0) {
            Some(d) => match d.get(s.attribute.as_str()) {
                Some(t) => *t,
                None => Double::zero(),
            },
            None => Double::zero(),
        };
        let (present, prior) = match rsg.get(s.entity_id) {
            Some(re) => (
                true,
                match re.telemetry.get(s.attribute.as_str()) {
                    Some(tv) => Some(*tv),
                    None => None,
                },
            ),
            None => (false, None),
        };
        if present {
            match s.quality {
                Quality::Good => {
                    rsg.set_telemetry(
                        s.entity_id,
                        s.attribute.clone(),
                        TelemetryValue {
                            value: s.value,
                            as_of_ms: now_ms,
                            ttl_ms,
                            quality: Quality::Good,
                        },
                    );
                    ok = ok + 1;
                },
                Quality::Stale => {
                    stale = stale + 1;
                },
                Quality::Unavailable | Quality::Error => {
                    match prior {
                        Some(tv) => {
                            if tv.quality == Quality::Good || tv.quality == Quality::Stale {
                                rsg.set_telemetry(
                                    s.entity_id,
                                    s.attribute.clone(),
                                    TelemetryValue {
                                        value: tv.value,
                                        as_of_ms: tv.as_of_ms,
                                        ttl_ms: tv.ttl_ms,
                                        quality: Quality::Stale,
                                    },
                                );
                                stale = stale + 1;
                            } else {
                                rsg.set_telemetry(
                                    s.entity_id,
                                    s.attribute.clone(),
                                    TelemetryValue {
                                        value: tv.value,
                                        as_of_ms: now_ms,
                                        ttl_ms: tv.ttl_ms,
                                        quality: s.quality,
                                    },
                                );
                                unavailable = unavailable + 1;
                            }
                        },
                        None => {
                            rsg.set_telemetry(
                                s.entity_id,
                                s.attribute.clone(),
                                TelemetryValue {
                                    value: Double::not_a_number(),
                                    as_of_ms: now_ms,
                                    ttl_ms,
                                    quality: s.quality,
                                },
                            );
                            unavailable = unavailable + 1;
                        },
                    }
                },
            }
        }
        i = i + 1;
    }
    proof {
        assert(all.take(i as int) =~= all);
    }
    (ok, stale, unavailable)
}

/// Resolves the telemetry of the working set. Only active entities are asked
/// about, and only what is no longer fresh; urgent bindings go first, in one call
/// of the resolver. What it answers goes into the working set and nowhere else.
/// Where nothing has to be fetched the resolver is not called.
pub fn resolve_active<R: Resolver>(
    rsg: &mut Rsg,
    lsg: &Lsg,
    resolver: &mut R,
    now_ms: i64,
) -> (stats: ResolveStats)
    requires
        old(rsg).wf(),
    ensures
        final(rsg).wf(),
        stats.requests_issued == requests_for(old(rsg)@, lsg@, now_ms).len(),
        stats.cache_hits == capped(fresh_count(old(rsg)@, lsg@, now_ms)),
        stats.requests_issued == 0 ==> {
            &&& *final(rsg) == *old(rsg)
            &&& *final(resolver) == *old(resolver)
            &&& stats.upstream_delta == 0
            &&& stats.ok == 0 && stats.stale == 0 && stats.unavailable == 0
        },
        stats.requests_issued > 0 ==> exists|samples: Seq<SampleView>|
            {
                &&& #[trigger] old(resolver).may_answer(
                    urgent_first(requests_for(old(rsg)@, lsg@, now_ms)),
                    samples,
                    final(resolver),
                )
                &&& (final(rsg)@, tally_of(stats)) == absorbed(
                    old(rsg)@,
                    urgent_first(requests_for(old(rsg)@, lsg@, now_ms)),
                    samples,
                    now_ms,
                )
            },
        stats.requests_issued > 0 ==> exists|before: u64, after: u64|
            {
                &&& #[trigger] old(resolver).may_count(before)
                &&& #[trigger] final(resolver).may_count(after)
                &&& stats.upstream_delta == if after > before {
                    after - before
                } else {
                    0
                }
            },
        forall|id: EntityId| #[trigger]
            old(rsg)@.has(id) ==> final(rsg)@.has(id) && final(rsg).payload(id) == old(
                rsg,
            ).payload(id),
{
    let (found, hits) = plan_requests(rsg, lsg, now_ms);
    let mut stats = ResolveStats {
        requests_issued: found.len(),
        cache_hits: hits,
        upstream_delta: 0,
        ok: 0,
        stale: 0,
        unavailable: 0,
    };
    if found.len() == 0 {
        return stats;
    }
    let reqs = order_by_urgency(&found);
    let before: u64 = resolver.upstream_requests();
    let samples = resolver.resolve(&reqs);
    let after: u64 = resolver.upstream_requests();
    stats.upstream_delta = if after > before {
        after - before
    } else {
        0
    };
    let (ok, stale, unavailable) = absorb(rsg, &reqs, &samples, now_ms);
    stats.ok = ok;
    stats.stale = stale;
    stats.unavailable = unavailable;
    proof {
        assert(absorbed(
            old(rsg)@,
            urgent_first(requests_for(old(rsg)@, lsg@, now_ms)),
            views(samples@),
            now_ms,
        ).0 == rsg@);
    }
    stats
}

// ---------------------------------------------------------------------------
// What holds of every pass.

/// A request is one that a page needs: the entity is in the working set, the
/// index has the binding, and the page has no fresh value of it.
pub open spec fn needed(v: RsgView, lsg: LsgView, r: RequestView, now_ms: i64) -> bool {
    &&& v.has(r.entity_id)
    &&& lsg.has(r.entity_id)
    &&& !has_fresh(v.pages[r.entity_id.0].telemetry, r.attribute, now_ms)
    &&& exists|b: TelemetryBindingView| #[trigger]
        lsg.entities[r.entity_id.0].bindings.contains(b) && r == request_of(r.entity_id, b)
}

proof fn lemma_due_bindings(
    telemetry: Map<Seq<char>, TelemetryValue>,
    id: EntityId,
    bindings: Seq<TelemetryBindingView>,
    now_ms: i64,
    i: int,
)
    requires
        0 <= i < due_bindings(telemetry, id, bindings, now_ms).len(),
    ensures
        ({
            let r = due_bindings(telemetry, id, bindings, now_ms)[i];
            &&& r.entity_id == id
            &&& !has_fresh(telemetry, r.attribute, now_ms)
            &&& exists|b: TelemetryBindingView| #[trigger]
                bindings.contains(b) && r == request_of(id, b)
        }),
    decreases bindings.len(),
{
    let r = due_bindings(telemetry, id, bindings, now_ms)[i];
    let init = due_bindings(telemetry, id, bindings.drop_last(), now_ms);
    if i < init.len() {
        lemma_due_bindings(telemetry, id, bindings.drop_last(), now_ms, i);
        let b = choose|b: TelemetryBindingView| #[trigger]
            bindings.drop_last().contains(b) && r == request_of(id, b);
        let j = choose|j: int| 0 <= j < bindings.len() - 1 && bindings.drop_last()[j] == b;
        assert(bindings[j] == b);
        assert(bindings.contains(b));
    } else {
        assert(bindings[bindings.len() - 1] == bindings.last());
        assert(bindings.contains(bindings.last()));
    }
}

proof fn lemma_due_of(v: RsgView, lsg: LsgView, ids: Seq<u64>, now_ms: i64, i: int)
    requires
        0 <= i < due_of(v, lsg, ids, now_ms).len(),
        forall|j: int| 0 <= j < ids.len() ==> v.pages.contains_key(#[trigger] ids[j]),
    ensures
        needed(v, lsg, due_of(v, lsg, ids, now_ms)[i], now_ms),
    decreases ids.len(),
{
    let init = due_of(v, lsg, ids.drop_last(), now_ms);
    if i < init.len() {
        assert forall|j: int| 0 <= j < ids.drop_last().len() implies v.pages.contains_key(
            #[trigger] ids.drop_last()[j],
        ) by {
            assert(v.pages.contains_key(ids[j]));
        }
        lemma_due_of(v, lsg, ids.drop_last(), now_ms, i);
    } else {
        let id = ids.last();
        assert(v.pages.contains_key(ids[ids.len() - 1]));
        lemma_due_bindings(
            v.pages[id].telemetry,
            EntityId(id),
            bindings_at(lsg, id),
            now_ms,
            i - init.len(),
        );
    }
}

/// Only entities of the working set are asked about, and only what is not fresh:
/// bindings of inactive entities cause no request.
pub proof fn law_only_active_entities_are_asked(v: RsgView, lsg: LsgView, now_ms: i64, i: int)
    requires
        v.pages.dom().finite(),
        0 <= i < requests_for(v, lsg, now_ms).len(),
    ensures
        needed(v, lsg, requests_for(v, lsg, now_ms)[i], now_ms),
{
    let ids = ascending(v.pages.dom());
    crate::table::lemma_ascending(v.pages.dom());
    assert forall|j: int| 0 <= j < ids.len() implies v.pages.contains_key(#[trigger] ids[j]) by {
        assert(ids.contains(ids[j]));
        assert(v.pages.dom().contains(ids[j]));
    }
    lemma_due_of(v, lsg, ids, now_ms, i);
}

/// An empty working set asks for nothing.
pub proof fn law_nothing_active_asks_nothing(v: RsgView, lsg: LsgView, now_ms: i64)
    requires
        v.pages =~= Map::<u64, crate::rsg::PageView>::empty(),
    ensures
        requests_for(v, lsg, now_ms).len() == 0,
{
    assert(v.pages.dom() =~= Set::<u64>::empty());
    crate::table::lemma_ascending(v.pages.dom());
}

/// No urgent request stands behind one that is not, and none is lost.
pub proof fn law_urgent_requests_come_first(reqs: Seq<RequestView>)
    ensures
        forall|i: int, j: int|
            0 <= i < j < urgent_first(reqs).len() && (#[trigger] urgent_first(reqs)[j]).priority
                == Priority::High ==> (#[trigger] urgent_first(reqs)[i]).priority
                == Priority::High,
        urgent_first(reqs).len() == reqs.len(),
        urgent_first(reqs).to_multiset() == reqs.to_multiset(),
{
    broadcast use vstd::seq_lib::group_filter_ensures;

    let f = |r: RequestView| r.priority == Priority::High;
    let g = |r: RequestView| r.priority != Priority::High;
    let a = reqs.filter(f);
    let b = reqs.filter(g);
    assert forall|i: int, j: int|
        0 <= i < j < (a + b).len() && (#[trigger] (a + b)[j]).priority
            == Priority::High implies (#[trigger] (a + b)[i]).priority == Priority::High by {
        if j < a.len() {
            assert((a + b)[i] == a[i]);
            assert(f(a[i]));
        } else {
            assert((a + b)[j] == b[j - a.len()]);
            assert(g(b[j - a.len()]));
        }
    }
    lemma_two_ways(reqs, f, g);
}

proof fn lemma_two_ways(
    reqs: Seq<RequestView>,
    f: spec_fn(RequestView) -> bool,
    g: spec_fn(RequestView) -> bool,
)
    requires
        forall|r: RequestView| #[trigger] f(r) <==> !g(r),
    ensures
        reqs.filter(f).len() + reqs.filter(g).len() == reqs.len(),
        (reqs.filter(f) + reqs.filter(g)).to_multiset() == reqs.to_multiset(),
    decreases reqs.len(),
{
    broadcast use vstd::seq_lib::group_to_multiset_ensures;

    reveal(Seq::filter);
    if reqs.len() > 0 {
        let init = reqs.drop_last();
        let x = reqs.last();
        lemma_two_ways(init, f, g);
        let a = init.filter(f);
        let b = init.filter(g);
        assert(reqs =~= init.push(x));
        vstd::seq_lib::lemma_multiset_commutative(a, b);
        if f(x) {
            assert(!g(x));
            vstd::seq_lib::lemma_multiset_commutative(a.push(x), b);
        } else {
            assert(g(x));
            vstd::seq_lib::lemma_multiset_commutative(a, b.push(x));
        }
        assert((reqs.filter(f) + reqs.filter(g)).to_multiset() =~= reqs.to_multiset());
    } else {
        assert(reqs.filter(f) + reqs.filter(g) =~= reqs);
    }
}

/// A failed refresh keeps the earlier value and its time, and marks it stale.
pub proof fn law_failed_refresh_keeps_value(
    v: RsgView,
    ttl: Double,
    s: SampleView,
    now_ms: i64,
)
    requires
        v.has(s.entity_id),
        s.quality == Quality::Unavailable || s.quality == Quality::Error,
        v.pages[s.entity_id.0].telemetry.contains_key(s.attribute),
        ({
            let q = v.pages[s.entity_id.0].telemetry[s.attribute].quality;
            q == Quality::Good || q == Quality::Stale
        }),
    ensures
        ({
            let old_value = v.pages[s.entity_id.0].telemetry[s.attribute];
            let new_value = absorbed_one(
                v,
                ttl,
                s,
                now_ms,
            ).pages[s.entity_id.0].telemetry[s.attribute];
            new_value == (TelemetryValue { quality: Quality::Stale, ..old_value })
        }),
{
}

/// A value that was resolved serves its time to live: until it runs out the
/// binding is not asked about, and from then on it is.
pub proof fn law_resolved_value_serves_its_time(
    v: RsgView,
    ttl: Double,
    s: SampleView,
    now_ms: i64,
    later_ms: i64,
)
    requires
        v.has(s.entity_id),
        s.quality == Quality::Good,
    ensures
        ({
            let t = absorbed_one(v, ttl, s, now_ms).pages[s.entity_id.0].telemetry;
            &&& t[s.attribute].value == s.value
            &&& has_fresh(t, s.attribute, later_ms) <==> clamped(now_ms + ttl.whole()) > later_ms
        }),
{
}

/// A value that could not be had is never fresh, so that it is asked for again.
pub proof fn law_failures_are_retried(t: TelemetryValue, now_ms: i64)
    requires
        t.quality == Quality::Unavailable || t.quality == Quality::Error,
    ensures
        !t.fresh(now_ms),
{
}

/// Taking samples in changes telemetry and nothing else of the working set.
pub proof fn law_resolution_changes_only_telemetry(
    v: RsgView,
    reqs: Seq<RequestView>,
    samples: Seq<SampleView>,
    now_ms: i64,
)
    ensures
        ({
            let w = absorbed(v, reqs, samples, now_ms).0;
            &&& w.pages.dom() == v.pages.dom()
            &&& w.pending == v.pending
            &&& w.grace == v.grace
            &&& w.diffs == v.diffs
            &&& forall|k: u64| #[trigger]
                w.pages.contains_key(k) ==> w.pages[k] == (crate::rsg::PageView {
                    telemetry: w.pages[k].telemetry,
                    ..v.pages[k]
                })
        }),
    decreases samples.len(),
{
    if samples.len() > 0 {
        law_resolution_changes_only_telemetry(v, reqs, samples.drop_last(), now_ms);
        let u = absorbed(v, reqs, samples.drop_last(), now_ms).0;
        let w = absorbed(v, reqs, samples, now_ms).0;
        assert(w.pages.dom() =~= u.pages.dom());
        assert forall|k: u64| #[trigger] w.pages.contains_key(k) implies w.pages[k] == (
        crate::rsg::PageView { telemetry: w.pages[k].telemetry, ..v.pages[k] }) by {
            assert(u.pages.contains_key(k));
        }
    }
}

/// The keys of the groups are distinct and in order: requests that share a metric
/// and the other labels share a group.
pub proof fn law_groups_have_distinct_keys(reqs: Seq<RequestView>, n: int)
    requires
        0 <= n <= reqs.len(),
    ensures
        forall|i: int, j: int|
            0 <= i < j < groups_of(reqs, n).len() ==> before(
                (#[trigger] groups_of(reqs, n)[i]).key,
                (#[trigger] groups_of(reqs, n)[j]).key,
            ),
    decreases n,
{
    if n > 0 {
        law_groups_have_distinct_keys(reqs, n - 1);
        if let Some(p) = groupable(reqs[n - 1]) {
            let g = groups_of(reqs, n - 1);
            let key = group_key(p);
            let at = group_place(g, key);
            let h = grouped(g, p, n - 1);
            lemma_group_place(g, key);
            lemma_group_place_meaning(g, key);
            if at < g.len() && g[at].key == key {
                assert forall|i: int, j: int| 0 <= i < j < h.len() implies before(
                    (#[trigger] h[i]).key,
                    (#[trigger] h[j]).key,
                ) by {
                    assert(h[i].key == g[i].key);
                    assert(h[j].key == g[j].key);
                }
            } else {
                assert forall|i: int, j: int| 0 <= i < j < h.len() implies before(
                    (#[trigger] h[i]).key,
                    (#[trigger] h[j]).key,
                ) by {
                    if j == at {
                        assert(h[i] == g[i]);
                    } else if i == at {
                        assert(h[j] == g[j - 1]);
                        lemma_order(g[at].key, key, key);
                        if at < j - 1 {
                            assert(before(g[at].key, g[j - 1].key));
                        }
                        lemma_order(key, g[at].key, g[j - 1].key);
                    } else {
                        let a = if i < at {
                            i
                        } else {
                            i - 1
                        };
                        let b = if j < at {
                            j
                        } else {
                            j - 1
                        };
                        assert(h[i] == g[a]);
                        assert(h[j] == g[b]);
                    }
                }
            }
        }
    }
}

proof fn lemma_group_place_meaning(groups: Seq<GroupView>, key: Seq<char>)
    ensures
        forall|i: int| 0 <= i < group_place(groups, key) ==> before((#[trigger] groups[i]).key, key),
        group_place(groups, key) < groups.len() ==> !before(
            groups[group_place(groups, key)].key,
            key,
        ),
    decreases groups.len(),
{
    if groups.len() > 0 && before(groups[0].key, key) {
        let rest = groups.drop_first();
        lemma_group_place_meaning(rest, key);
        lemma_group_place(rest, key);
        assert forall|i: int| 0 <= i < group_place(groups, key) implies before(
            (#[trigger] groups[i]).key,
            key,
        ) by {
            if i > 0 {
                assert(groups[i] == rest[i - 1]);
            }
        }
        if group_place(groups, key) < groups.len() {
            assert(groups[group_place(groups, key)] == rest[group_place(rest, key)]);
        }
    }
}

} // verus!
