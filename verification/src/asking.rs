//! What a pass asks for, what the answers to it say, and what they leave behind.

use crate::lsg::{EntityId, LsgView, TelemetryBindingView};
use crate::resolver::{
    absorbed, absorbed_one, answer_in, answers, bindings_at, due_bindings, due_of,
    outcome_of, requests_for, rows_of, sample_of, ttl_of, urgent_first, MemberView, Priority,
    Quality, RequestView, SampleView, TelemetryValue, VmRowView, VmSeriesView,
};
use crate::rsg::RsgView;
use crate::scalar::Double;
use crate::table::{ascending, lemma_ascending};
use vstd::prelude::*;
use vstd::string::*;

verus! {

/// A value serves exactly while it is good or kept from before and the time at which
/// it was read, with its time to live added, lies ahead. Nothing serves at the last
/// moment that a timestamp can say.
pub proof fn law_values_serve_their_time(t: TelemetryValue, now_ms: i64)
    ensures
        t.fresh(now_ms) <==> (t.quality == Quality::Good || t.quality == Quality::Stale)
            && t.as_of_ms + t.ttl_ms.whole() > now_ms && now_ms < i64::MAX,
{
    assert(t.quality == Quality::Good || t.quality == Quality::Stale || t.quality
        == Quality::Unavailable || t.quality == Quality::Error);
}

/// Exactly the word `high`, each letter in either case, is urgent.
pub proof fn law_high_is_urgent(s: Seq<char>)
    ensures
        Priority::of(s) == Priority::High <==> s.len() == 4 && (s[0] == 'h' || s[0] == 'H') && (s[1]
            == 'i' || s[1] == 'I') && (s[2] == 'g' || s[2] == 'G') && (s[3] == 'h' || s[3] == 'H'),
        Priority::of(s) == Priority::High || Priority::of(s) == Priority::Background,
{
    reveal_strlit("high");
    let m = s.map_values(|c: char| crate::resolver::lower(c));
    if m == "high"@ {
        assert(m.len() == 4);
        assert(m[0] == 'h' && m[1] == 'i' && m[2] == 'g' && m[3] == 'h');
    } else if s.len() == 4 && (s[0] == 'h' || s[0] == 'H') && (s[1] == 'i' || s[1] == 'I') && (s[2]
        == 'g' || s[2] == 'G') && (s[3] == 'h' || s[3] == 'H') {
        assert(m =~= "high"@);
    }
}

/// A page has a value of an attribute that still serves.
pub open spec fn still_serves(
    telemetry: Map<Seq<char>, TelemetryValue>,
    attribute: Seq<char>,
    now_ms: i64,
) -> bool {
    &&& telemetry.contains_key(attribute)
    &&& telemetry[attribute].quality == Quality::Good || telemetry[attribute].quality
        == Quality::Stale
    &&& telemetry[attribute].as_of_ms + telemetry[attribute].ttl_ms.whole() > now_ms
    &&& now_ms < i64::MAX
}

/// A request asks for a binding of an entity.
pub open spec fn asks_binding(r: RequestView, id: u64, b: TelemetryBindingView) -> bool {
    &&& r.entity_id == EntityId(id)
    &&& r.attribute == b.attribute
    &&& r.source_id == b.source_id
    &&& r.query == b.query
    &&& r.ttl_ms == b.ttl_ms
    &&& r.priority == Priority::of(b.priority)
}

/// Some request asks for a binding of an entity.
pub open spec fn is_asked(reqs: Seq<RequestView>, id: u64, b: TelemetryBindingView) -> bool {
    exists|i: int| 0 <= i < reqs.len() && asks_binding(#[trigger] reqs[i], id, b)
}

proof fn lemma_due_asked(
    telemetry: Map<Seq<char>, TelemetryValue>,
    id: u64,
    bindings: Seq<TelemetryBindingView>,
    now_ms: i64,
    k: int,
)
    requires
        0 <= k < bindings.len(),
        !still_serves(telemetry, bindings[k].attribute, now_ms),
    ensures
        is_asked(due_bindings(telemetry, EntityId(id), bindings, now_ms), id, bindings[k]),
    decreases bindings.len(),
{
    let all = due_bindings(telemetry, EntityId(id), bindings, now_ms);
    let init = due_bindings(telemetry, EntityId(id), bindings.drop_last(), now_ms);
    if k == bindings.len() - 1 {
        if telemetry.contains_key(bindings[k].attribute) {
            law_values_serve_their_time(telemetry[bindings[k].attribute], now_ms);
        }
        assert(asks_binding(all[all.len() - 1], id, bindings[k]));
    } else {
        lemma_due_asked(telemetry, id, bindings.drop_last(), now_ms, k);
        assert(bindings.drop_last()[k] == bindings[k]);
        let i = choose|i: int|
            0 <= i < init.len() && asks_binding(#[trigger] init[i], id, bindings[k]);
        assert(all[i] == init[i]);
    }
}

proof fn lemma_page_asked(
    v: RsgView,
    lsg: LsgView,
    ids: Seq<u64>,
    now_ms: i64,
    j: int,
    b: TelemetryBindingView,
)
    requires
        0 <= j < ids.len(),
        bindings_at(lsg, ids[j]).contains(b),
        !still_serves(v.pages[ids[j]].telemetry, b.attribute, now_ms),
    ensures
        is_asked(due_of(v, lsg, ids, now_ms), ids[j], b),
    decreases ids.len(),
{
    let all = due_of(v, lsg, ids, now_ms);
    let init = due_of(v, lsg, ids.drop_last(), now_ms);
    if j == ids.len() - 1 {
        let bs = bindings_at(lsg, ids[j]);
        let k = choose|k: int| 0 <= k < bs.len() && bs[k] == b;
        lemma_due_asked(v.pages[ids[j]].telemetry, ids[j], bs, now_ms, k);
        let more = due_bindings(v.pages[ids[j]].telemetry, EntityId(ids[j]), bs, now_ms);
        let i = choose|i: int| 0 <= i < more.len() && asks_binding(#[trigger] more[i], ids[j], b);
        assert(all[init.len() + i] == more[i]);
    } else {
        assert(ids.drop_last()[j] == ids[j]);
        lemma_page_asked(v, lsg, ids.drop_last(), now_ms, j, b);
        let i = choose|i: int| 0 <= i < init.len() && asks_binding(#[trigger] init[i], ids[j], b);
        assert(all[i] == init[i]);
    }
}

/// Every binding of an entity in the working set is asked for unless the page has a
/// value that still serves.
pub proof fn law_missing_values_are_asked_for(
    v: RsgView,
    lsg: LsgView,
    now_ms: i64,
    id: u64,
    b: TelemetryBindingView,
)
    requires
        v.pages.dom().finite(),
        v.pages.contains_key(id),
        lsg.entities.contains_key(id),
        lsg.entities[id].bindings.contains(b),
        !still_serves(v.pages[id].telemetry, b.attribute, now_ms),
    ensures
        is_asked(requests_for(v, lsg, now_ms), id, b),
{
    let ids = ascending(v.pages.dom());
    lemma_ascending(v.pages.dom());
    assert(v.pages.dom().contains(id));
    assert(ids.contains(id));
    let j = choose|j: int| 0 <= j < ids.len() && ids[j] == id;
    lemma_page_asked(v, lsg, ids, now_ms, j, b);
}

/// What is asked for is a binding of an entity in the working set, of which the page
/// has no value that still serves.
pub proof fn law_only_missing_values_are_asked_for(v: RsgView, lsg: LsgView, now_ms: i64, i: int)
    requires
        v.pages.dom().finite(),
        0 <= i < requests_for(v, lsg, now_ms).len(),
    ensures
        ({
            let r = requests_for(v, lsg, now_ms)[i];
            let id = r.entity_id.0;
            &&& v.pages.contains_key(id)
            &&& lsg.entities.contains_key(id)
            &&& !still_serves(v.pages[id].telemetry, r.attribute, now_ms)
            &&& exists|b: TelemetryBindingView| #[trigger]
                lsg.entities[id].bindings.contains(b) && asks_binding(r, id, b)
        }),
{
    crate::resolver::law_only_active_entities_are_asked(v, lsg, now_ms, i);
    let r = requests_for(v, lsg, now_ms)[i];
    let id = r.entity_id.0;
    if v.pages[id].telemetry.contains_key(r.attribute) {
        law_values_serve_their_time(v.pages[id].telemetry[r.attribute], now_ms);
    }
    let b = choose|b: TelemetryBindingView| #[trigger]
        lsg.entities[id].bindings.contains(b) && r == crate::resolver::request_of(r.entity_id, b);
    assert(asks_binding(r, id, b));
}

proof fn lemma_filter_concat<A>(a: Seq<A>, b: Seq<A>, f: spec_fn(A) -> bool)
    ensures
        (a + b).filter(f) == a.filter(f) + b.filter(f),
    decreases b.len(),
{
    reveal(Seq::filter);
    if b.len() == 0 {
        assert(a + b =~= a);
        assert(a.filter(f) + b.filter(f) =~= a.filter(f));
    } else {
        lemma_filter_concat(a, b.drop_last(), f);
        assert((a + b).drop_last() =~= a + b.drop_last());
        assert((a + b).last() == b.last());
        if f(b.last()) {
            assert(a.filter(f) + b.drop_last().filter(f).push(b.last()) =~= (a.filter(f)
                + b.drop_last().filter(f)).push(b.last()));
        }
    }
}

proof fn lemma_filter_same<A>(a: Seq<A>, f: spec_fn(A) -> bool, g: spec_fn(A) -> bool)
    ensures
        (forall|x: A| #[trigger] f(x) ==> g(x)) ==> a.filter(f).filter(g) == a.filter(f),
        (forall|x: A| #[trigger] f(x) ==> !g(x)) ==> a.filter(f).filter(g) == Seq::<A>::empty(),
    decreases a.len(),
{
    reveal(Seq::filter);
    if a.len() > 0 {
        lemma_filter_same(a.drop_last(), f, g);
        if f(a.last()) {
            let rest = a.drop_last().filter(f);
            assert(rest.push(a.last()).drop_last() =~= rest);
        }
    }
}

/// Putting the urgent requests first leaves the urgent ones in their order, and the
/// others in theirs.
pub proof fn law_urgent_first_keeps_order(reqs: Seq<RequestView>)
    ensures
        urgent_first(reqs).filter(|r: RequestView| r.priority == Priority::High) == reqs.filter(
            |r: RequestView| r.priority == Priority::High,
        ),
        urgent_first(reqs).filter(|r: RequestView| r.priority != Priority::High) == reqs.filter(
            |r: RequestView| r.priority != Priority::High,
        ),
{
    let f = |r: RequestView| r.priority == Priority::High;
    let g = |r: RequestView| r.priority != Priority::High;
    let a = reqs.filter(f);
    let b = reqs.filter(g);
    lemma_filter_concat(a, b, f);
    lemma_filter_concat(a, b, g);
    lemma_filter_same(reqs, f, f);
    lemma_filter_same(reqs, g, f);
    lemma_filter_same(reqs, f, g);
    lemma_filter_same(reqs, g, g);
    assert(a + Seq::empty() =~= a);
    assert(Seq::empty() + b =~= b);
}

// ---------------------------------------------------------------------------
// Answers.

/// Every series of a reply that carries a number becomes a row, with its asset and
/// its number, and the rows stand in the order of the series.
pub proof fn law_numbered_series_become_rows(series: Seq<VmSeriesView>)
    ensures
        rows_of(series).len() == series.filter(|s: VmSeriesView| s.value is Some).len(),
        forall|i: int|
            0 <= i < rows_of(series).len() ==> {
                let s = series.filter(|s: VmSeriesView| s.value is Some)[i];
                &&& (#[trigger] rows_of(series)[i]).asset == s.asset
                &&& Some(rows_of(series)[i].value) == s.value
            },
    decreases series.len(),
{
    reveal(Seq::filter);
    if series.len() > 0 {
        law_numbered_series_become_rows(series.drop_last());
        let rows = rows_of(series);
        let init = rows_of(series.drop_last());
        let f = |s: VmSeriesView| s.value is Some;
        let kept = series.filter(f);
        let before = series.drop_last().filter(f);
        assert forall|i: int| 0 <= i < rows.len() implies (#[trigger] rows[i]).asset
            == kept[i].asset && Some(rows[i].value) == kept[i].value by {
            if i < init.len() {
                assert(rows[i] == init[i]);
                assert(kept[i] == before[i]);
            }
        }
    }
}

/// A row answers for an asset; every row does where none is asked for.
pub open spec fn row_answers(row: VmRowView, asset: Option<Seq<char>>) -> bool {
    match asset {
        None => true,
        Some(a) => row.asset == Some(a),
    }
}

/// The answer for an asset is the value of the first row that answers for it; there is
/// none exactly where no row does.
pub proof fn law_first_row_answers(rows: Seq<VmRowView>, asset: Option<Seq<char>>)
    ensures
        answer_in(rows, asset) is None <==> (forall|i: int|
            0 <= i < rows.len() ==> !row_answers(#[trigger] rows[i], asset)),
        forall|i: int|
            0 <= i < rows.len() && row_answers(#[trigger] rows[i], asset) && (forall|j: int|
                0 <= j < i ==> !row_answers(#[trigger] rows[j], asset)) ==> answer_in(rows, asset)
                == Some(rows[i].value),
    decreases rows.len(),
{
    if rows.len() > 0 {
        let rest = rows.drop_first();
        law_first_row_answers(rest, asset);
        if row_answers(rows[0], asset) {
        } else {
            assert forall|i: int|
                0 <= i < rows.len() && row_answers(#[trigger] rows[i], asset) && (forall|j: int|
                    0 <= j < i ==> !row_answers(#[trigger] rows[j], asset)) implies answer_in(
                rows,
                asset,
            ) == Some(rows[i].value) by {
                assert(rest[i - 1] == rows[i]);
                assert forall|j: int| 0 <= j < i - 1 implies !row_answers(
                    #[trigger] rest[j],
                    asset,
                ) by {
                    assert(rest[j] == rows[j + 1]);
                }
            }
            if answer_in(rows, asset) is None {
                assert forall|i: int| 0 <= i < rows.len() implies !row_answers(
                    #[trigger] rows[i],
                    asset,
                ) by {
                    if i > 0 {
                        assert(rest[i - 1] == rows[i]);
                    }
                }
            } else {
                let i = choose|i: int| 0 <= i < rest.len() && row_answers(#[trigger] rest[i], asset);
                assert(rows[i + 1] == rest[i]);
            }
        }
    }
}

/// Each member of a batch is answered for its own request: with a good value where a
/// row of the reply answers for its asset, the first such; otherwise as unavailable.
pub proof fn law_members_are_answered(
    reqs: Seq<RequestView>,
    members: Seq<MemberView>,
    reply: Option<Seq<VmRowView>>,
    i: int,
)
    requires
        0 <= i < members.len(),
    ensures
        answers(reqs, members, reply).len() == members.len(),
        ({
            let s = answers(reqs, members, reply)[i];
            let m = members[i];
            &&& s.entity_id == reqs[m.index].entity_id
            &&& s.attribute == reqs[m.index].attribute
            &&& s.quality == Quality::Good || s.quality == Quality::Unavailable
            &&& s.quality == Quality::Good <==> reply is Some && exists|k: int|
                0 <= k < reply->0.len() && row_answers(#[trigger] reply->0[k], m.asset)
            &&& forall|k: int|
                reply is Some && 0 <= k < reply->0.len() && row_answers(
                    #[trigger] reply->0[k],
                    m.asset,
                ) && (forall|j: int|
                    0 <= j < k ==> !row_answers(#[trigger] reply->0[j], m.asset)) ==> s.value
                    == reply->0[k].value
        }),
{
    if reply is Some {
        law_first_row_answers(reply->0, members[i].asset);
    }
}

/// An answer is about the entity and the attribute of its request; it is good with the
/// value that was found, and unavailable where none was.
pub proof fn law_answers_are_about_their_request(r: RequestView, value: Option<Double>)
    ensures
        sample_of(r, value).entity_id == r.entity_id,
        sample_of(r, value).attribute == r.attribute,
        value is Some <==> sample_of(r, value).quality == Quality::Good,
        value is None <==> sample_of(r, value).quality == Quality::Unavailable,
        value is Some ==> sample_of(r, value).value == value->0,
{
}

// ---------------------------------------------------------------------------
// What samples leave behind.

/// The time to live that a sample gets is that of the last request for its entity and
/// attribute.
pub proof fn law_time_to_live_is_that_asked_for(
    reqs: Seq<RequestView>,
    id: EntityId,
    attribute: Seq<char>,
    k: int,
)
    requires
        0 <= k < reqs.len(),
        reqs[k].entity_id == id,
        reqs[k].attribute == attribute,
        forall|j: int|
            k < j < reqs.len() ==> (#[trigger] reqs[j]).entity_id != id || reqs[j].attribute
                != attribute,
    ensures
        ttl_of(reqs, id, attribute) == reqs[k].ttl_ms,
    decreases reqs.len(),
{
    if k < reqs.len() - 1 {
        assert(reqs[reqs.len() - 1] == reqs.last());
        let init = reqs.drop_last();
        assert forall|j: int| k < j < init.len() implies (#[trigger] init[j]).entity_id != id
            || init[j].attribute != attribute by {
            assert(init[j] == reqs[j]);
        }
        law_time_to_live_is_that_asked_for(init, id, attribute, k);
    }
}

/// A good sample is kept with the moment and its time to live. A stale one changes
/// nothing. A failure notes itself where there was no value, marks a value that was
/// good or kept from before as kept from before, and leaves another failure as a
/// failure of now. No other value changes, and a sample of an entity outside the
/// working set changes nothing.
pub proof fn law_samples_leave_values(v: RsgView, ttl: Double, s: SampleView, now_ms: i64)
    ensures
        ({
            let w = absorbed_one(v, ttl, s, now_ms);
            let id = s.entity_id.0;
            let old_t = v.pages[id].telemetry;
            let t = w.pages[id].telemetry;
            let failed = s.quality == Quality::Unavailable || s.quality == Quality::Error;
            let had = old_t.contains_key(s.attribute);
            let usable = had && (old_t[s.attribute].quality == Quality::Good
                || old_t[s.attribute].quality == Quality::Stale);
            &&& !v.pages.contains_key(id) || s.quality == Quality::Stale ==> w == v
            &&& v.pages.contains_key(id) && s.quality == Quality::Good ==> t.contains_key(
                s.attribute,
            ) && t[s.attribute].value == s.value && t[s.attribute].as_of_ms == now_ms
                && t[s.attribute].ttl_ms == ttl && t[s.attribute].quality == Quality::Good
            &&& v.pages.contains_key(id) && failed ==> t.contains_key(s.attribute)
            &&& v.pages.contains_key(id) && failed && usable ==> t[s.attribute].quality
                == Quality::Stale && t[s.attribute].value == old_t[s.attribute].value
                && t[s.attribute].as_of_ms == old_t[s.attribute].as_of_ms
                && t[s.attribute].ttl_ms == old_t[s.attribute].ttl_ms
            &&& v.pages.contains_key(id) && failed && !usable ==> t[s.attribute].quality
                == s.quality && t[s.attribute].as_of_ms == now_ms
            &&& v.pages.contains_key(id) && failed && !had ==> t[s.attribute].ttl_ms == ttl
            &&& v.pages.contains_key(id) && failed && had ==> t[s.attribute].value
                == old_t[s.attribute].value && t[s.attribute].ttl_ms == old_t[s.attribute].ttl_ms
            &&& forall|a: Seq<char>|
                a != s.attribute ==> (t.contains_key(a) <==> old_t.contains_key(a)) && (
                #[trigger] t[a] == old_t[a])
            &&& forall|k: u64| k != id ==> #[trigger] w.pages[k] == v.pages[k]
            &&& w.pages.dom() =~= v.pages.dom()
        }),
{
    assert(s.quality == Quality::Good || s.quality == Quality::Stale || s.quality
        == Quality::Unavailable || s.quality == Quality::Error);
}

/// The tally of a pass counts every sample of an entity in the working set once: the
/// good ones as such, and the others as stale or unavailable.
pub proof fn law_tally_counts_the_samples(
    v: RsgView,
    reqs: Seq<RequestView>,
    samples: Seq<SampleView>,
    now_ms: i64,
)
    ensures
        absorbed(v, reqs, samples, now_ms).1.ok == samples.filter(
            |s: SampleView| v.pages.contains_key(s.entity_id.0) && s.quality == Quality::Good,
        ).len(),
        absorbed(v, reqs, samples, now_ms).1.stale + absorbed(
            v,
            reqs,
            samples,
            now_ms,
        ).1.unavailable == samples.filter(
            |s: SampleView| v.pages.contains_key(s.entity_id.0) && s.quality != Quality::Good,
        ).len(),
    decreases samples.len(),
{
    reveal(Seq::filter);
    if samples.len() > 0 {
        law_tally_counts_the_samples(v, reqs, samples.drop_last(), now_ms);
        crate::resolver::law_resolution_changes_only_telemetry(
            v,
            reqs,
            samples.drop_last(),
            now_ms,
        );
        let w = absorbed(v, reqs, samples.drop_last(), now_ms).0;
        let s = samples.last();
        assert(w.pages.contains_key(s.entity_id.0) == v.pages.contains_key(s.entity_id.0)) by {
            assert(w.pages.dom().contains(s.entity_id.0) == v.pages.dom().contains(
                s.entity_id.0,
            ));
        }
    }
}

/// A sample counts as stale where it says so or where it failed and a usable value was
/// there, and as unavailable where it failed and none was.
pub proof fn law_outcomes_tell_what_is_left(v: RsgView, s: SampleView)
    requires
        v.pages.contains_key(s.entity_id.0),
    ensures
        ({
            let t = v.pages[s.entity_id.0].telemetry;
            let usable = t.contains_key(s.attribute) && (t[s.attribute].quality == Quality::Good
                || t[s.attribute].quality == Quality::Stale);
            let failed = s.quality == Quality::Unavailable || s.quality == Quality::Error;
            &&& outcome_of(v, s) is Resolved <==> s.quality == Quality::Good
            &&& outcome_of(v, s) is Stale <==> s.quality == Quality::Stale || (failed && usable)
            &&& outcome_of(v, s) is Unavailable <==> failed && !usable
        }),
{
    assert(s.quality == Quality::Good || s.quality == Quality::Stale || s.quality
        == Quality::Unavailable || s.quality == Quality::Error);
}

// ---------------------------------------------------------------------------
// What is counted.

proof fn lemma_due_counted(
    telemetry: Map<Seq<char>, TelemetryValue>,
    id: EntityId,
    bindings: Seq<TelemetryBindingView>,
    now_ms: i64,
)
    ensures
        due_bindings(telemetry, id, bindings, now_ms).len() == bindings.filter(
            |b: TelemetryBindingView| !still_serves(telemetry, b.attribute, now_ms),
        ).len(),
    decreases bindings.len(),
{
    reveal(Seq::filter);
    if bindings.len() > 0 {
        lemma_due_counted(telemetry, id, bindings.drop_last(), now_ms);
        let a = bindings.last().attribute;
        if telemetry.contains_key(a) {
            law_values_serve_their_time(telemetry[a], now_ms);
        }
    }
}

/// How many bindings of some pages have a value that still serves.
pub open spec fn serving(v: RsgView, lsg: LsgView, ids: Seq<u64>, now_ms: i64) -> nat
    decreases ids.len(),
{
    if ids.len() == 0 {
        0
    } else {
        serving(v, lsg, ids.drop_last(), now_ms) + bindings_at(lsg, ids.last()).filter(
            |b: TelemetryBindingView|
                still_serves(v.pages[ids.last()].telemetry, b.attribute, now_ms),
        ).len()
    }
}

proof fn lemma_filter_split(
    bs: Seq<TelemetryBindingView>,
    f: spec_fn(TelemetryBindingView) -> bool,
    g: spec_fn(TelemetryBindingView) -> bool,
)
    requires
        forall|b: TelemetryBindingView| #[trigger] f(b) <==> !g(b),
    ensures
        bs.filter(f).len() + bs.filter(g).len() == bs.len(),
    decreases bs.len(),
{
    reveal(Seq::filter);
    if bs.len() > 0 {
        lemma_filter_split(bs.drop_last(), f, g);
        assert(f(bs.last()) <==> !g(bs.last()));
    }
}

proof fn lemma_serving(v: RsgView, lsg: LsgView, ids: Seq<u64>, now_ms: i64)
    ensures
        crate::resolver::considered(lsg, ids) == serving(v, lsg, ids, now_ms) + due_of(
            v,
            lsg,
            ids,
            now_ms,
        ).len(),
    decreases ids.len(),
{
    if ids.len() > 0 {
        lemma_serving(v, lsg, ids.drop_last(), now_ms);
        let k = ids.last();
        let t = v.pages[k].telemetry;
        let bs = bindings_at(lsg, k);
        let f = |b: TelemetryBindingView| still_serves(t, b.attribute, now_ms);
        let g = |b: TelemetryBindingView| !still_serves(t, b.attribute, now_ms);
        lemma_due_counted(t, EntityId(k), bs, now_ms);
        lemma_filter_split(bs, f, g);
        assert(bs.filter(f).len() == bs.filter(
            |b: TelemetryBindingView|
                still_serves(v.pages[ids.last()].telemetry, b.attribute, now_ms),
        ).len());
    }
}

/// The values that a pass counts as fresh are those of bindings of the working set that
/// still serve.
pub proof fn law_serving_values_are_counted(v: RsgView, lsg: LsgView, now_ms: i64)
    ensures
        crate::resolver::fresh_count(v, lsg, now_ms) == serving(
            v,
            lsg,
            ascending(v.pages.dom()),
            now_ms,
        ),
{
    lemma_serving(v, lsg, ascending(v.pages.dom()), now_ms);
}

proof fn lemma_due_about(
    telemetry: Map<Seq<char>, TelemetryValue>,
    id: EntityId,
    bindings: Seq<TelemetryBindingView>,
    now_ms: i64,
)
    ensures
        forall|i: int|
            0 <= i < due_bindings(telemetry, id, bindings, now_ms).len() ==> (
            #[trigger] due_bindings(telemetry, id, bindings, now_ms)[i]).entity_id == id,
    decreases bindings.len(),
{
    if bindings.len() > 0 {
        let init = due_bindings(telemetry, id, bindings.drop_last(), now_ms);
        lemma_due_about(telemetry, id, bindings.drop_last(), now_ms);
        let all = due_bindings(telemetry, id, bindings, now_ms);
        assert forall|i: int| 0 <= i < all.len() implies (#[trigger] all[i]).entity_id == id by {
            if i < init.len() {
                assert(all[i] == init[i]);
            }
        }
    }
}

proof fn lemma_due_ordered(v: RsgView, lsg: LsgView, ids: Seq<u64>, now_ms: i64)
    requires
        forall|i: int, j: int| 0 <= i < j < ids.len() ==> #[trigger] ids[i] < #[trigger] ids[j],
    ensures
        forall|i: int|
            0 <= i < due_of(v, lsg, ids, now_ms).len() ==> ids.contains(
                (#[trigger] due_of(v, lsg, ids, now_ms)[i]).entity_id.0,
            ),
        forall|i: int, j: int|
            0 <= i < j < due_of(v, lsg, ids, now_ms).len() ==> (
            #[trigger] due_of(v, lsg, ids, now_ms)[i]).entity_id.0 <= (
            #[trigger] due_of(v, lsg, ids, now_ms)[j]).entity_id.0,
    decreases ids.len(),
{
    if ids.len() > 0 {
        let init = ids.drop_last();
        let k = ids.last();
        assert forall|i: int, j: int| 0 <= i < j < init.len() implies #[trigger] init[i]
            < #[trigger] init[j] by {
            assert(init[i] == ids[i] && init[j] == ids[j]);
        }
        lemma_due_ordered(v, lsg, init, now_ms);
        let a = due_of(v, lsg, init, now_ms);
        let b = due_bindings(v.pages[k].telemetry, EntityId(k), bindings_at(lsg, k), now_ms);
        lemma_due_about(v.pages[k].telemetry, EntityId(k), bindings_at(lsg, k), now_ms);
        let all = due_of(v, lsg, ids, now_ms);
        assert(ids[ids.len() - 1] == k);
        assert forall|i: int| 0 <= i < all.len() implies ids.contains(
            (#[trigger] all[i]).entity_id.0,
        ) && (i < a.len() ==> all[i].entity_id.0 < k) && (i >= a.len() ==> all[i].entity_id.0
            == k) by {
            if i < a.len() {
                assert(all[i] == a[i]);
                let j = choose|j: int| 0 <= j < init.len() && init[j] == a[i].entity_id.0;
                assert(ids[j] == init[j]);
                assert(ids[j] < ids[ids.len() - 1]);
            } else {
                assert(all[i] == b[i - a.len()]);
            }
        }
        assert forall|i: int, j: int| 0 <= i < j < all.len() implies (
        #[trigger] all[i]).entity_id.0 <= (#[trigger] all[j]).entity_id.0 by {
            if j < a.len() {
                assert(all[i] == a[i] && all[j] == a[j]);
            }
        }
    }
}

/// What is asked for comes entity by entity, in ascending order of their ids.
pub proof fn law_requests_come_entity_by_entity(
    v: RsgView,
    lsg: LsgView,
    now_ms: i64,
    i: int,
    j: int,
)
    requires
        v.pages.dom().finite(),
        0 <= i < j < requests_for(v, lsg, now_ms).len(),
    ensures
        requests_for(v, lsg, now_ms)[i].entity_id.0 <= requests_for(v, lsg, now_ms)[j].entity_id.0,
{
    lemma_ascending(v.pages.dom());
    lemma_due_ordered(v, lsg, ascending(v.pages.dom()), now_ms);
}

/// The counts of a pass are told as they are.
pub proof fn law_counts_are_told(s: crate::resolver::ResolveStats)
    ensures
        crate::resolver::tally_of(s).ok == s.ok,
        crate::resolver::tally_of(s).stale == s.stale,
        crate::resolver::tally_of(s).unavailable == s.unavailable,
{
}

/// Where no value was found none is told: the sample of such a request, and what it
/// leaves where nothing was before, is no number.
pub proof fn law_missing_values_are_no_numbers(
    r: RequestView,
    v: RsgView,
    ttl: Double,
    s: SampleView,
    now_ms: i64,
)
    ensures
        sample_of(r, None).value.nan(),
        v.pages.contains_key(s.entity_id.0) && (s.quality == Quality::Unavailable || s.quality
            == Quality::Error) && !v.pages[s.entity_id.0].telemetry.contains_key(s.attribute)
            ==> absorbed_one(
            v,
            ttl,
            s,
            now_ms,
        ).pages[s.entity_id.0].telemetry[s.attribute].value.nan(),
{
}

/// A sample that no request asked for lives for no time.
pub proof fn law_unasked_samples_do_not_live(
    reqs: Seq<RequestView>,
    id: EntityId,
    attribute: Seq<char>,
)
    requires
        forall|j: int|
            0 <= j < reqs.len() ==> (#[trigger] reqs[j]).entity_id != id || reqs[j].attribute
                != attribute,
    ensures
        ttl_of(reqs, id, attribute).bits == 0,
    decreases reqs.len(),
{
    if reqs.len() > 0 {
        assert(reqs[reqs.len() - 1] == reqs.last());
        let init = reqs.drop_last();
        assert forall|j: int| 0 <= j < init.len() implies (#[trigger] init[j]).entity_id != id
            || init[j].attribute != attribute by {
            assert(init[j] == reqs[j]);
        }
        law_unasked_samples_do_not_live(init, id, attribute);
    }
}

} // verus!
