//! What shares a query, and what a query asks for.

use crate::order::{before, law_distinct_texts, law_sorted_texts, lemma_order, sorted_texts};
use crate::promql::{
    batched_query, first_of, first_outside, joined, label_name, labels_of, literal_pattern,
    operator_at, parse_of, quoted, with_label, Labels, ParsedQueryView,
};
use crate::resolver::{
    all_group_batches, assets_of, batches_of, chunk_len, group_batches, group_key, group_place,
    groupable, groups_of, law_groups_have_distinct_keys, lemma_group_place, singles_of, BatchView,
    GroupView, MemberView, RequestView,
};
use crate::text::{trimmed, white};
use vstd::prelude::*;
use vstd::string::*;

verus! {

/// Whether a text ends within double quotes. `inside` tells whether it starts there;
/// a backslash in quotes takes the next character along.
pub open spec fn ends_inside(s: Seq<char>, inside: bool) -> bool
    decreases s.len(),
{
    if s.len() == 0 {
        inside
    } else if inside {
        if s[0] == '\\' && s.len() > 1 {
            ends_inside(s.skip(2), true)
        } else {
            ends_inside(s.drop_first(), s[0] != '"')
        }
    } else {
        ends_inside(s.drop_first(), s[0] == '"')
    }
}

/// A label matcher that is whole: it is not empty, its quotes are closed, and no comma
/// stands outside them.
pub open spec fn whole_label(s: Seq<char>) -> bool {
    s.len() > 0 && !ends_inside(s, false) && first_outside(s, ',', false) is None
}

/// The parts of a query can be told apart when they are written one behind the other:
/// its labels are whole, and its metric holds no control character of value one.
pub open spec fn separable(p: ParsedQueryView) -> bool {
    &&& forall|i: int| 0 <= i < p.metric.len() ==> #[trigger] p.metric[i] != '\u{1}'
    &&& forall|i: int| 0 <= i < p.others.len() ==> whole_label(#[trigger] p.others[i])
}

proof fn lemma_comma_behind(x: Seq<char>, rest: Seq<char>, inside: bool)
    requires
        !ends_inside(x, inside),
        first_outside(x, ',', inside) is None,
    ensures
        first_outside(x + seq![','] + rest, ',', inside) == Some(x.len() as int),
    decreases x.len(),
{
    let all = x + seq![','] + rest;
    if x.len() == 0 {
        assert(all[0] == ',');
    } else {
        assert(all[0] == x[0]);
        if inside && x[0] == '\\' && x.len() > 1 {
            assert(all.skip(2) =~= x.skip(2) + seq![','] + rest);
            lemma_comma_behind(x.skip(2), rest, true);
        } else {
            let next = if inside {
                x[0] != '"'
            } else {
                x[0] == '"'
            };
            if inside && x[0] == '\\' {
                assert(ends_inside(x.drop_first(), true));
            }
            assert(all.drop_first() =~= x.drop_first() + seq![','] + rest);
            lemma_comma_behind(x.drop_first(), rest, next);
        }
    }
}

/// Joined texts, taken apart at the front.
pub proof fn lemma_joined_first(list: Seq<Seq<char>>, sep: Seq<char>)
    requires
        list.len() > 1,
    ensures
        joined(list, sep) == list[0] + sep + joined(list.drop_first(), sep),
    decreases list.len(),
{
    if list.len() == 2 {
        assert(joined(list.drop_last(), sep) == list[0]);
        assert(joined(list.drop_first(), sep) == list[1]);
    } else {
        lemma_joined_first(list.drop_last(), sep);
        assert(list.drop_last().drop_first() =~= list.drop_first().drop_last());
        assert(list.drop_first().last() == list.last());
        let mid = joined(list.drop_first().drop_last(), sep);
        assert(list[0] + sep + mid + sep + list.last() =~= list[0] + sep + (mid + sep
            + list.last()));
    }
}

/// Lists of whole labels that read the same when they are joined are the same.
pub proof fn lemma_joined_distinct(a: Seq<Seq<char>>, b: Seq<Seq<char>>)
    requires
        forall|i: int| 0 <= i < a.len() ==> whole_label(#[trigger] a[i]),
        forall|i: int| 0 <= i < b.len() ==> whole_label(#[trigger] b[i]),
        joined(a, seq![',']) == joined(b, seq![',']),
    ensures
        a == b,
    decreases a.len(),
{
    let sep = seq![','];
    if a.len() == 0 {
        if b.len() > 0 {
            lemma_joined_starts(b);
        }
        assert(a =~= b);
    } else if b.len() == 0 {
        lemma_joined_starts(a);
    } else {
        lemma_joined_starts(a);
        lemma_joined_starts(b);
        assert(whole_label(a[0]) && whole_label(b[0]));
        if a.len() > 1 && b.len() > 1 {
            let (ra, rb) = (a.drop_first(), b.drop_first());
            lemma_joined_first(a, sep);
            lemma_joined_first(b, sep);
            let n = a[0].len() as int;
            assert(joined(a, sep).take(n) =~= a[0]);
            assert(joined(b, sep).take(n) =~= b[0]);
            assert(joined(a, sep).skip(n + 1) =~= joined(ra, sep));
            assert(joined(b, sep).skip(n + 1) =~= joined(rb, sep));
            assert forall|i: int| 0 <= i < ra.len() implies whole_label(#[trigger] ra[i]) by {
                assert(ra[i] == a[i + 1]);
            }
            assert forall|i: int| 0 <= i < rb.len() implies whole_label(#[trigger] rb[i]) by {
                assert(rb[i] == b[i + 1]);
            }
            lemma_joined_distinct(ra, rb);
            assert(a =~= seq![a[0]] + ra);
            assert(b =~= seq![b[0]] + rb);
        } else {
            assert(a.len() == 1 && b.len() == 1);
            assert(a =~= b);
        }
    }
}

proof fn lemma_joined_starts(a: Seq<Seq<char>>)
    requires
        a.len() > 0,
        whole_label(a[0]),
    ensures
        joined(a, seq![',']).len() > 0,
        first_outside(joined(a, seq![',']), ',', false) == if a.len() > 1 {
            Some(a[0].len() as int)
        } else {
            None
        },
{
    let sep = seq![','];
    if a.len() > 1 {
        lemma_joined_first(a, sep);
        lemma_comma_behind(a[0], joined(a.drop_first(), sep), false);
    }
}

/// The first place of a character.
proof fn lemma_split_at(a: Seq<char>, x: Seq<char>, b: Seq<char>, y: Seq<char>, c: char)
    requires
        a + seq![c] + x == b + seq![c] + y,
        forall|i: int| 0 <= i < a.len() ==> #[trigger] a[i] != c,
        forall|i: int| 0 <= i < b.len() ==> #[trigger] b[i] != c,
    ensures
        a == b,
        x == y,
{
    let s = a + seq![c] + x;
    let t = b + seq![c] + y;
    if a.len() < b.len() {
        assert(t[a.len() as int] == b[a.len() as int]);
        assert(s[a.len() as int] == c);
    }
    if b.len() < a.len() {
        assert(s[b.len() as int] == a[b.len() as int]);
        assert(t[b.len() as int] == c);
    }
    assert(s.take(a.len() as int) =~= a);
    assert(t.take(a.len() as int) =~= b);
    assert(s.skip(a.len() as int + 1) =~= x);
    assert(t.skip(a.len() as int + 1) =~= y);
}

proof fn lemma_sorted_members(list: Seq<Seq<char>>)
    ensures
        forall|t: Seq<char>| #[trigger] sorted_texts(list).contains(t) <==> list.contains(t),
{
    law_sorted_texts(list);
    let s = sorted_texts(list);
    assert forall|t: Seq<char>| #[trigger] s.contains(t) <==> list.contains(t) by {
        s.to_multiset_ensures();
        list.to_multiset_ensures();
        assert(s.contains(t) <==> s.to_multiset().count(t) > 0);
        assert(list.contains(t) <==> list.to_multiset().count(t) > 0);
    }
}

proof fn lemma_sorted_whole(p: ParsedQueryView)
    requires
        separable(p),
    ensures
        forall|i: int|
            0 <= i < sorted_texts(p.others).len() ==> whole_label(
                #[trigger] sorted_texts(p.others)[i],
            ),
{
    let s = sorted_texts(p.others);
    lemma_sorted_members(p.others);
    assert forall|i: int| 0 <= i < s.len() implies whole_label(#[trigger] s[i]) by {
        assert(s.contains(s[i]));
        let j = choose|j: int| 0 <= j < p.others.len() && p.others[j] == s[i];
        assert(whole_label(p.others[j]));
    }
}

/// What a request of a group asks for: the group's metric under the group's labels.
spec fn belongs(reqs: Seq<RequestView>, g: GroupView, m: MemberView) -> bool {
    &&& 0 <= m.index < reqs.len()
    &&& groupable(reqs[m.index]) matches Some(p) && {
        &&& m.asset == Some(p.asset)
        &&& p.metric == g.metric
        &&& sorted_texts(p.others) == g.others
    }
}

spec fn group_fits(reqs: Seq<RequestView>, g: GroupView) -> bool {
    &&& g.key == g.metric + "\u{1}"@ + joined(g.others, ","@)
    &&& forall|i: int| 0 <= i < g.metric.len() ==> #[trigger] g.metric[i] != '\u{1}'
    &&& forall|i: int| 0 <= i < g.others.len() ==> whole_label(#[trigger] g.others[i])
    &&& forall|i: int| 0 <= i < g.members.len() ==> belongs(reqs, g, #[trigger] g.members[i])
}

/// The queries of requests that can share one are separable.
pub open spec fn all_separable(reqs: Seq<RequestView>) -> bool {
    forall|i: int|
        0 <= i < reqs.len() ==> (groupable(#[trigger] reqs[i]) matches Some(p) ==> separable(p))
}

proof fn lemma_groups_fit(reqs: Seq<RequestView>, n: int)
    requires
        0 <= n <= reqs.len(),
        all_separable(reqs),
    ensures
        forall|i: int|
            0 <= i < groups_of(reqs, n).len() ==> group_fits(reqs, #[trigger] groups_of(reqs, n)[i]),
    decreases n,
{
    if n > 0 {
        lemma_groups_fit(reqs, n - 1);
        if let Some(p) = groupable(reqs[n - 1]) {
            let groups = groups_of(reqs, n - 1);
            let after = groups_of(reqs, n);
            let key = group_key(p);
            let at = group_place(groups, key);
            let member = MemberView { index: n - 1, asset: Some(p.asset) };
            lemma_group_place(groups, key);
            assert(separable(p));
            lemma_sorted_whole(p);
            reveal_strlit("\u{1}");
            reveal_strlit(",");
            assert("\u{1}"@ =~= seq!['\u{1}']);
            assert(","@ =~= seq![',']);
            if at < groups.len() && groups[at].key == key {
                let g = groups[at];
                assert(group_fits(reqs, g));
                lemma_split_at(
                    g.metric,
                    joined(g.others, seq![',']),
                    p.metric,
                    joined(sorted_texts(p.others), seq![',']),
                    '\u{1}',
                );
                lemma_joined_distinct(g.others, sorted_texts(p.others));
                let h = GroupView { members: g.members.push(member), ..g };
                assert forall|i: int| 0 <= i < h.members.len() implies belongs(
                    reqs,
                    h,
                    #[trigger] h.members[i],
                ) by {
                    if i < g.members.len() {
                        assert(belongs(reqs, g, g.members[i]));
                    }
                }
                assert forall|i: int| 0 <= i < after.len() implies group_fits(
                    reqs,
                    #[trigger] after[i],
                ) by {
                    if i != at {
                        assert(after[i] == groups[i]);
                    } else {
                        assert(after[i] == h);
                    }
                }
            } else {
                let h = GroupView {
                    key,
                    metric: p.metric,
                    others: sorted_texts(p.others),
                    members: seq![member],
                };
                assert(belongs(reqs, h, h.members[0]));
                assert(group_fits(reqs, h));
                assert forall|i: int| 0 <= i < after.len() implies group_fits(
                    reqs,
                    #[trigger] after[i],
                ) by {
                    if i < at {
                        assert(after[i] == groups[i]);
                    } else if i > at {
                        assert(after[i] == groups[i - 1]);
                    } else {
                        assert(after[i] == h);
                    }
                }
            }
        }
    }
}

/// A batch asks for what its members ask for: each is a request to the metrics backend
/// whose query takes apart into the metric, the other labels and the asset, and the
/// query of the batch asks for that metric under these labels, of just the assets of
/// its members.
pub open spec fn asks_together(reqs: Seq<RequestView>, b: BatchView) -> bool {
    exists|metric: Seq<char>, others: Seq<Seq<char>>, assets: Seq<Seq<char>>|
        #[trigger] asks_for(reqs, b, metric, others, assets)
}

pub open spec fn asks_for(
    reqs: Seq<RequestView>,
    b: BatchView,
    metric: Seq<char>,
    others: Seq<Seq<char>>,
    assets: Seq<Seq<char>>,
) -> bool {
    &&& b.query == batched_query(metric, others, assets)
    &&& forall|j: int|
        0 <= j < b.members.len() ==> {
            let m = #[trigger] b.members[j];
            &&& 0 <= m.index < reqs.len()
            &&& reqs[m.index].source_id == "victoriametrics"@
            &&& parse_of(reqs[m.index].query) matches Some(p) && {
                &&& m.asset == Some(p.asset)
                &&& p.metric == metric
                &&& p.others.to_multiset() == others.to_multiset()
                &&& assets.contains(p.asset)
            }
        }
    &&& forall|a: Seq<char>| #[trigger]
        assets.contains(a) ==> exists|j: int|
            0 <= j < b.members.len() && (#[trigger] b.members[j]).asset == Some(a)
}

/// A batch is one request, whose query is asked as it is.
pub open spec fn asks_alone(reqs: Seq<RequestView>, b: BatchView) -> bool {
    &&& b.members.len() == 1
    &&& 0 <= b.members[0].index < reqs.len()
    &&& b.members[0].asset is None
    &&& b.query == reqs[b.members[0].index].query
    &&& reqs[b.members[0].index].source_id != "victoriametrics"@ || parse_of(
        reqs[b.members[0].index].query,
    ) is None
}

proof fn lemma_group_asks(reqs: Seq<RequestView>, g: GroupView)
    requires
        group_fits(reqs, g),
    ensures
        forall|i: int|
            0 <= i < group_batches(g).len() ==> asks_together(
                reqs,
                #[trigger] group_batches(g)[i],
            ) && group_batches(g)[i].members.len() > 0,
    decreases g.members.len(),
{
    if g.members.len() > 0 {
        let n = chunk_len(g.members.len());
        let chunk = g.members.take(n);
        let rest = GroupView { members: g.members.skip(n), ..g };
        let all = group_batches(g);
        let b = all[0];
        assert forall|i: int| 0 <= i < rest.members.len() implies belongs(
            reqs,
            rest,
            #[trigger] rest.members[i],
        ) by {
            assert(belongs(reqs, g, g.members[n + i]));
        }
        lemma_group_asks(reqs, rest);
        let assets = crate::order::distinct_texts(assets_of(chunk));
        law_distinct_texts(assets_of(chunk));
        assert forall|j: int| 0 <= j < b.members.len() implies {
            let m = #[trigger] b.members[j];
            &&& 0 <= m.index < reqs.len()
            &&& reqs[m.index].source_id == "victoriametrics"@
            &&& parse_of(reqs[m.index].query) matches Some(p) && {
                &&& m.asset == Some(p.asset)
                &&& p.metric == g.metric
                &&& p.others.to_multiset() == g.others.to_multiset()
                &&& assets.contains(p.asset)
            }
        } by {
            assert(b.members[j] == g.members[j]);
            assert(belongs(reqs, g, g.members[j]));
            let p = groupable(reqs[b.members[j].index])->0;
            law_sorted_texts(p.others);
            assert(assets_of(chunk)[j] == p.asset);
            assert(assets_of(chunk).contains(p.asset));
        }
        assert forall|a: Seq<char>| #[trigger] assets.contains(a) implies exists|j: int|
            0 <= j < b.members.len() && (#[trigger] b.members[j]).asset == Some(a) by {
            assert(assets_of(chunk).contains(a));
            let j = choose|j: int|
                0 <= j < assets_of(chunk).len() && assets_of(chunk)[j] == a;
            assert(b.members[j] == g.members[j]);
            assert(belongs(reqs, g, g.members[j]));
            assert(b.members[j].asset == Some(a));
        }
        assert(asks_for(reqs, b, g.metric, g.others, assets));
        assert forall|i: int| 0 <= i < all.len() implies asks_together(reqs, #[trigger] all[i])
            && all[i].members.len() > 0 by {
            if i > 0 {
                assert(all[i] == group_batches(rest)[i - 1]);
            }
        }
    }
}

proof fn lemma_all_groups_ask(reqs: Seq<RequestView>, groups: Seq<GroupView>)
    requires
        forall|i: int| 0 <= i < groups.len() ==> group_fits(reqs, #[trigger] groups[i]),
    ensures
        forall|i: int|
            0 <= i < all_group_batches(groups).len() ==> asks_together(
                reqs,
                #[trigger] all_group_batches(groups)[i],
            ),
    decreases groups.len(),
{
    if groups.len() > 0 {
        let init = groups.drop_last();
        assert forall|i: int| 0 <= i < init.len() implies group_fits(reqs, #[trigger] init[i]) by {
            assert(init[i] == groups[i]);
        }
        lemma_all_groups_ask(reqs, init);
        assert(group_fits(reqs, groups[groups.len() - 1]));
        lemma_group_asks(reqs, groups.last());
        let a = all_group_batches(init);
        let all = all_group_batches(groups);
        assert forall|i: int| 0 <= i < all.len() implies asks_together(
            reqs,
            #[trigger] all[i],
        ) by {
            if i < a.len() {
                assert(all[i] == a[i]);
            } else {
                assert(all[i] == group_batches(groups.last())[i - a.len()]);
            }
        }
    }
}

proof fn lemma_singles_ask(reqs: Seq<RequestView>, n: int)
    requires
        0 <= n <= reqs.len(),
    ensures
        forall|i: int|
            0 <= i < singles_of(reqs, n).len() ==> asks_alone(
                reqs,
                #[trigger] singles_of(reqs, n)[i],
            ),
    decreases n,
{
    if n > 0 {
        lemma_singles_ask(reqs, n - 1);
        let before = singles_of(reqs, n - 1);
        let all = singles_of(reqs, n);
        assert forall|i: int| 0 <= i < all.len() implies asks_alone(reqs, #[trigger] all[i]) by {
            if i < before.len() {
                assert(all[i] == before[i]);
            }
        }
    }
}

/// Requests share a query only where they ask for one metric under the same other
/// labels. Every planned batch is either such a query, of the assets of its members,
/// or a single request whose query is asked as it is.
pub proof fn law_batches_ask_for_their_members(reqs: Seq<RequestView>, i: int)
    requires
        all_separable(reqs),
        0 <= i < batches_of(reqs).len(),
    ensures
        asks_together(reqs, batches_of(reqs)[i]) || asks_alone(reqs, batches_of(reqs)[i]),
{
    let n = reqs.len() as int;
    let a = all_group_batches(groups_of(reqs, n));
    lemma_groups_fit(reqs, n);
    lemma_all_groups_ask(reqs, groups_of(reqs, n));
    lemma_singles_ask(reqs, n);
    if i < a.len() {
        assert(batches_of(reqs)[i] == a[i]);
    } else {
        assert(batches_of(reqs)[i] == singles_of(reqs, n)[i - a.len()]);
    }
}

/// Two requests of one batch ask for one metric under the same other labels.
pub proof fn law_only_equal_labels_share_a_query(
    reqs: Seq<RequestView>,
    i: int,
    j: int,
    k: int,
)
    requires
        all_separable(reqs),
        0 <= i < batches_of(reqs).len(),
        0 <= j < batches_of(reqs)[i].members.len(),
        0 <= k < batches_of(reqs)[i].members.len(),
        j != k,
    ensures
        ({
            let b = batches_of(reqs)[i];
            let p = parse_of(reqs[b.members[j].index].query);
            let q = parse_of(reqs[b.members[k].index].query);
            &&& p is Some && q is Some
            &&& p->0.metric == q->0.metric
            &&& p->0.others.to_multiset() == q->0.others.to_multiset()
        }),
{
    law_batches_ask_for_their_members(reqs, i);
    let b = batches_of(reqs)[i];
    let (metric, others, assets) = choose|
        metric: Seq<char>,
        others: Seq<Seq<char>>,
        assets: Seq<Seq<char>>,
    | #[trigger] asks_for(reqs, b, metric, others, assets);
    assert(asks_for(reqs, b, metric, others, assets));
    assert(b.members[j] == b.members[j] && b.members[k] == b.members[k]);
}

// ---------------------------------------------------------------------------
// What a query says.

/// A text that is not empty, and without white space at its ends.
pub open spec fn bare(s: Seq<char>) -> bool {
    s.len() > 0 && !white(s[0]) && !white(s.last())
}

/// A label matcher as a query can hold it beside the asset: whole, bare, of another
/// name, and without a brace outside quotes.
pub open spec fn other_label(s: Seq<char>) -> bool {
    &&& whole_label(s)
    &&& bare(s)
    &&& label_name(s) != "asset"@
    &&& first_outside(s, '{', false) is None
    &&& first_outside(s, '}', false) is None
}

/// The matcher that asks for one asset.
pub open spec fn asset_label(tag: Seq<char>) -> Seq<char> {
    "asset=\""@ + tag + "\""@
}

proof fn lemma_none_outside(x: Seq<char>, y: Seq<char>, c: char, inside: bool)
    requires
        !ends_inside(x, inside),
        first_outside(x, c, inside) is None,
        first_outside(y, c, false) is None,
    ensures
        first_outside(x + y, c, inside) is None,
    decreases x.len(),
{
    let all = x + y;
    if x.len() == 0 {
        assert(all =~= y);
    } else {
        assert(all[0] == x[0]);
        if inside && x[0] == '\\' && x.len() > 1 {
            assert(all.skip(2) =~= x.skip(2) + y);
            lemma_none_outside(x.skip(2), y, c, true);
        } else {
            let next = if inside {
                x[0] != '"'
            } else {
                x[0] == '"'
            };
            if inside && x[0] == '\\' {
                assert(x.drop_first().len() == 0);
                assert(ends_inside(x.drop_first(), true));
            }
            assert(all.drop_first() =~= x.drop_first() + y);
            lemma_none_outside(x.drop_first(), y, c, next);
        }
    }
}

proof fn lemma_quoted_hides(tag: Seq<char>, c: char)
    requires
        forall|i: int| 0 <= i < tag.len() ==> #[trigger] tag[i] != '"' && tag[i] != '\\',
        c != '"',
    ensures
        first_outside(tag + seq!['"'], c, true) is None,
    decreases tag.len(),
{
    let all = tag + seq!['"'];
    if tag.len() == 0 {
        assert(all[0] == '"');
        assert(all.drop_first().len() == 0);
        assert(first_outside(all.drop_first(), c, false) is None);
    } else {
        assert(all[0] == tag[0]);
        assert(all.drop_first() =~= tag.drop_first() + seq!['"']);
        assert forall|i: int| 0 <= i < tag.drop_first().len() implies #[trigger] tag.drop_first()[i]
            != '"' && tag.drop_first()[i] != '\\' by {
            assert(tag.drop_first()[i] == tag[i + 1]);
        }
        lemma_quoted_hides(tag.drop_first(), c);
    }
}

proof fn lemma_asset_label_outside(tag: Seq<char>, c: char)
    requires
        forall|i: int| 0 <= i < tag.len() ==> #[trigger] tag[i] != '"' && tag[i] != '\\',
        c == ',' || c == '{' || c == '}',
    ensures
        first_outside(asset_label(tag), c, false) is None,
{
    reveal_strlit("asset=\"");
    reveal_strlit("\"");
    let a = asset_label(tag);
    lemma_quoted_hides(tag, c);
    assert(a.skip(7) =~= tag + seq!['"']);
    assert(a[0] == 'a' && a[1] == 's' && a[2] == 's' && a[3] == 'e' && a[4] == 't' && a[5] == '='
        && a[6] == '"');
    assert(first_outside(a.skip(7), c, true) is None);
    assert(a.skip(6).drop_first() =~= a.skip(7));
    assert(a.skip(6)[0] == '"');
    assert(first_outside(a.skip(6), c, false) is None);
    assert(a.skip(5).drop_first() =~= a.skip(6));
    assert(a.skip(5)[0] == '=');
    assert(first_outside(a.skip(5), c, false) is None);
    assert(a.skip(4).drop_first() =~= a.skip(5));
    assert(a.skip(4)[0] == 't');
    assert(first_outside(a.skip(4), c, false) is None);
    assert(a.skip(3).drop_first() =~= a.skip(4));
    assert(a.skip(3)[0] == 'e');
    assert(first_outside(a.skip(3), c, false) is None);
    assert(a.skip(2).drop_first() =~= a.skip(3));
    assert(a.skip(2)[0] == 's');
    assert(first_outside(a.skip(2), c, false) is None);
    assert(a.skip(1).drop_first() =~= a.skip(2));
    assert(a.skip(1)[0] == 's');
    assert(first_outside(a.skip(1), c, false) is None);
    assert(a.drop_first() =~= a.skip(1));
}

proof fn lemma_first_behind(x: Seq<char>, c: char, rest: Seq<char>)
    requires
        forall|i: int| 0 <= i < x.len() ==> #[trigger] x[i] != c,
    ensures
        first_of(x + seq![c] + rest, c) == Some(x.len() as int),
    decreases x.len(),
{
    let all = x + seq![c] + rest;
    if x.len() == 0 {
        assert(all[0] == c);
    } else {
        assert(all[0] == x[0]);
        assert(x[0] != c);
        assert(all.drop_first() =~= x.drop_first() + seq![c] + rest);
        assert forall|i: int| 0 <= i < x.drop_first().len() implies #[trigger] x.drop_first()[i]
            != c by {
            assert(x.drop_first()[i] == x[i + 1]);
        }
        lemma_first_behind(x.drop_first(), c, rest);
    }
}

proof fn lemma_bare_trimmed(s: Seq<char>)
    requires
        bare(s),
    ensures
        trimmed(s) == s,
{
    crate::text::law_trimming_takes_white_space_off(Seq::empty(), s, Seq::empty());
    assert(Seq::empty() + s + Seq::empty() =~= s);
}

proof fn lemma_asset_label_taken(l: Labels, tag: Seq<char>)
    requires
        forall|i: int| 0 <= i < tag.len() ==> #[trigger] tag[i] != '"' && tag[i] != '\\',
        l.asset is None,
    ensures
        trimmed(asset_label(tag)) == asset_label(tag),
        with_label(l, asset_label(tag)) == Some(Labels { asset: Some(tag), ..l }),
{
    reveal_strlit("asset=\"");
    reveal_strlit("\"");
    reveal_strlit("asset");
    let a = asset_label(tag);
    assert(a.last() == '"');
    lemma_bare_trimmed(a);
    assert(a.skip(5)[0] == '=');
    assert(operator_at(a.skip(5)) == 0);
    assert(a.skip(4).drop_first() =~= a.skip(5));
    assert(a.skip(4)[0] == 't');
    assert(operator_at(a.skip(4)) == 1);
    assert(a.skip(3).drop_first() =~= a.skip(4));
    assert(a.skip(3)[0] == 'e');
    assert(operator_at(a.skip(3)) == 2);
    assert(a.skip(2).drop_first() =~= a.skip(3));
    assert(a.skip(2)[0] == 's');
    assert(operator_at(a.skip(2)) == 3);
    assert(a.skip(1).drop_first() =~= a.skip(2));
    assert(a.skip(1)[0] == 's');
    assert(operator_at(a.skip(1)) == 4);
    assert(a.drop_first() =~= a.skip(1));
    assert(operator_at(a) == 5);
    assert(a.take(5) =~= "asset"@);
    lemma_bare_trimmed("asset"@);
    let m = a.skip(5);
    let value = m.skip(1);
    assert(value =~= seq!['"'] + tag + seq!['"']);
    lemma_bare_trimmed(value);
    lemma_first_behind(Seq::empty(), '"', tag + seq!['"']);
    assert(Seq::<char>::empty() + seq!['"'] + (tag + seq!['"']) =~= value);
    let rest = value.skip(1);
    assert(rest =~= tag + seq!['"'] + Seq::empty());
    lemma_first_behind(tag, '"', Seq::empty());
    assert(rest.take(tag.len() as int) =~= tag);
    assert(quoted(value) == Some(tag));
}

proof fn lemma_labels_read(l: Labels, others: Seq<Seq<char>>, tag: Seq<char>)
    requires
        l.asset is None,
        forall|i: int| 0 <= i < others.len() ==> other_label(#[trigger] others[i]),
        forall|i: int| 0 <= i < tag.len() ==> #[trigger] tag[i] != '"' && tag[i] != '\\',
    ensures
        labels_of(l, joined(others.push(asset_label(tag)), ","@)) == Some(
            Labels { asset: Some(tag), others: l.others + others },
        ),
        first_outside(joined(others.push(asset_label(tag)), ","@), '{', false) is None,
        first_outside(joined(others.push(asset_label(tag)), ","@), '}', false) is None,
    decreases others.len(),
{
    reveal_strlit(",");
    assert(","@ =~= seq![',']);
    let a = asset_label(tag);
    let all = others.push(a);
    lemma_asset_label_outside(tag, ',');
    lemma_asset_label_outside(tag, '{');
    lemma_asset_label_outside(tag, '}');
    if others.len() == 0 {
        assert(joined(all, ","@) == a);
        lemma_asset_label_taken(l, tag);
        assert(l.others + others =~= l.others);
    } else {
        let x = others[0];
        let rest = others.drop_first();
        assert(other_label(x));
        assert forall|i: int| 0 <= i < rest.len() implies other_label(#[trigger] rest[i]) by {
            assert(rest[i] == others[i + 1]);
        }
        let l1 = Labels { others: l.others.push(x), ..l };
        lemma_labels_read(l1, rest, tag);
        lemma_joined_first(all, ","@);
        assert(all[0] == x);
        assert(all.drop_first() =~= rest.push(a));
        let tail = joined(rest.push(a), ","@);
        let whole = joined(all, ","@);
        assert(whole =~= x + seq![','] + tail);
        lemma_comma_behind(x, tail, false);
        lemma_bare_trimmed(x);
        assert(whole.take(x.len() as int) =~= x);
        assert(whole.skip(x.len() as int + 1) =~= tail);
        assert(with_label(l, x) == Some(l1));
        assert(labels_of(l, whole) == labels_of(l1, tail));
        assert(l1.others + rest =~= l.others + others);
        let more = seq![','] + tail;
        assert(more[0] == ',' && more.drop_first() =~= tail);
        assert(first_outside(more, '{', false) is None);
        assert(first_outside(more, '}', false) is None);
        assert(whole =~= x + more);
        lemma_none_outside(x, more, '{', false);
        lemma_none_outside(x, more, '}', false);
    }
}

/// A query that is written as a metric and, in braces, other labels and the matcher of
/// one asset is taken apart into just these.
pub proof fn law_queries_come_apart(metric: Seq<char>, others: Seq<Seq<char>>, tag: Seq<char>)
    requires
        bare(metric),
        forall|i: int| 0 <= i < metric.len() ==> #[trigger] metric[i] != '{',
        forall|i: int| 0 <= i < others.len() ==> other_label(#[trigger] others[i]),
        forall|i: int| 0 <= i < tag.len() ==> #[trigger] tag[i] != '"' && tag[i] != '\\',
    ensures
        parse_of(metric + "{"@ + joined(others.push(asset_label(tag)), ","@) + "}"@) == Some(
            ParsedQueryView { metric, asset: tag, others },
        ),
{
    reveal_strlit("{");
    reveal_strlit("}");
    let inner = joined(others.push(asset_label(tag)), ","@);
    let q = metric + "{"@ + inner + "}"@;
    assert(q[0] == metric[0]);
    assert(q.last() == '}');
    lemma_bare_trimmed(q);
    assert(q =~= metric + seq!['{'] + (inner + seq!['}']));
    lemma_first_behind(metric, '{', inner + seq!['}']);
    assert(q.take(metric.len() as int) =~= metric);
    lemma_bare_trimmed(metric);
    assert(q.subrange(metric.len() as int + 1, q.len() - 1) =~= inner);
    let none = Labels { asset: None, others: Seq::empty() };
    lemma_labels_read(none, others, tag);
    assert(none.others + others =~= others);
}

/// A pattern matches a text literally: each character stands for itself, behind a
/// backslash exactly where it would have another meaning.
pub proof fn law_patterns_are_literal(a: Seq<char>, b: Seq<char>, c: char)
    ensures
        literal_pattern(a + b) == literal_pattern(a) + literal_pattern(b),
        literal_pattern(Seq::empty()).len() == 0,
        literal_pattern(seq![c]) == if c == '\\' || c == '.' || c == '+' || c == '*' || c == '?' || c
            == '(' || c == ')' || c == '|' || c == '[' || c == ']' || c == '{' || c == '}' || c
            == '^' || c == '$' {
            seq!['\\', c]
        } else {
            seq![c]
        },
    decreases b.len(),
{
    assert(seq![c].drop_last() =~= Seq::<char>::empty());
    assert(literal_pattern(Seq::<char>::empty()) =~= Seq::<char>::empty());
    assert(Seq::<char>::empty().push('\\').push(c) =~= seq!['\\', c]);
    assert(Seq::<char>::empty().push(c) =~= seq![c]);
    if b.len() == 0 {
        assert(a + b =~= a);
        assert(literal_pattern(a) + literal_pattern(b) =~= literal_pattern(a));
    } else {
        law_patterns_are_literal(a, b.drop_last(), c);
        assert((a + b).drop_last() =~= a + b.drop_last());
        assert((a + b).last() == b.last());
        assert(literal_pattern(a + b) =~= literal_pattern(a) + literal_pattern(b));
    }
}

/// Each text with a separator behind it.
pub open spec fn each_with(list: Seq<Seq<char>>, sep: Seq<char>) -> Seq<char>
    decreases list.len(),
{
    if list.len() == 0 {
        Seq::empty()
    } else {
        list[0] + sep + each_with(list.drop_first(), sep)
    }
}

proof fn lemma_joined_each(list: Seq<Seq<char>>, last: Seq<char>, sep: Seq<char>)
    ensures
        joined(list.push(last), sep) == each_with(list, sep) + last,
    decreases list.len(),
{
    if list.len() == 0 {
        assert(joined(list.push(last), sep) == last);
        assert(each_with(list, sep) + last =~= last);
    } else {
        lemma_joined_first(list.push(last), sep);
        assert(list.push(last).drop_first() =~= list.drop_first().push(last));
        lemma_joined_each(list.drop_first(), last, sep);
        assert(list[0] + sep + (each_with(list.drop_first(), sep) + last) =~= each_with(list, sep)
            + last);
    }
}

/// A query for many assets reads as its metric and, in braces, the other labels, each
/// with a comma behind it, and a matcher whose pattern has the assets as alternatives,
/// each to be matched literally.
pub proof fn law_batched_queries_name_their_assets(
    metric: Seq<char>,
    others: Seq<Seq<char>>,
    assets: Seq<Seq<char>>,
    asset: Seq<char>,
)
    ensures
        batched_query(metric, others, assets.push(asset)) == metric + "{"@ + each_with(others, ","@)
            + "asset=~\""@ + each_with(
            assets.map_values(|a: Seq<char>| literal_pattern(a)),
            "|"@,
        ) + literal_pattern(asset) + "\"}"@,
{
    reveal_strlit("\"}");
    reveal_strlit("\"");
    reveal_strlit("}");
    let patterns = assets.map_values(|a: Seq<char>| literal_pattern(a));
    let all = assets.push(asset).map_values(|a: Seq<char>| literal_pattern(a));
    assert(all =~= patterns.push(literal_pattern(asset)));
    lemma_joined_each(patterns, literal_pattern(asset), "|"@);
    let matcher = "asset=~\""@ + joined(all, "|"@) + "\""@;
    lemma_joined_each(others, matcher, ","@);
    assert(batched_query(metric, others, assets.push(asset)) =~= metric + "{"@ + each_with(
        others,
        ","@,
    ) + "asset=~\""@ + each_with(patterns, "|"@) + literal_pattern(asset) + "\"}"@);
}

// ---------------------------------------------------------------------------
// What shares a query.

proof fn lemma_chunks_are_full(reqs: Seq<RequestView>, g: GroupView)
    requires
        group_fits(reqs, g),
    ensures
        forall|i: int|
            0 <= i < group_batches(g).len() - 1 ==> (#[trigger] group_batches(g)[i]).members.len()
                == 512,
        forall|i: int|
            0 <= i < group_batches(g).len() ==> {
                let b = #[trigger] group_batches(g)[i];
                b.members.len() > 0 && belongs(reqs, g, b.members[0])
            },
    decreases g.members.len(),
{
    if g.members.len() > 0 {
        let n = chunk_len(g.members.len());
        let rest = GroupView { members: g.members.skip(n), ..g };
        assert forall|i: int| 0 <= i < rest.members.len() implies belongs(
            reqs,
            rest,
            #[trigger] rest.members[i],
        ) by {
            assert(belongs(reqs, g, g.members[n + i]));
        }
        lemma_chunks_are_full(reqs, rest);
        let all = group_batches(g);
        let tail = group_batches(rest);
        assert(g.members.take(n)[0] == g.members[0]);
        assert(belongs(reqs, g, g.members[0]));
        if rest.members.len() == 0 {
            assert(tail.len() == 0);
        }
        assert forall|i: int| 0 <= i < all.len() - 1 implies (#[trigger] all[i]).members.len()
            == 512 by {
            if i > 0 {
                assert(all[i] == tail[i - 1]);
            }
        }
        assert forall|i: int| 0 <= i < all.len() implies {
            let b = #[trigger] all[i];
            b.members.len() > 0 && belongs(reqs, g, b.members[0])
        } by {
            if i > 0 {
                assert(all[i] == tail[i - 1]);
                assert(belongs(reqs, rest, tail[i - 1].members[0]));
            }
        }
    }
}

/// The first members of two batches ask for one metric under the same other labels.
pub open spec fn same_labels(reqs: Seq<RequestView>, a: BatchView, b: BatchView) -> bool {
    match (
        parse_of(reqs[a.members[0].index].query),
        parse_of(reqs[b.members[0].index].query),
    ) {
        (Some(p), Some(q)) => p.metric == q.metric && sorted_texts(p.others) == sorted_texts(
            q.others,
        ),
        _ => false,
    }
}

/// A batch is of a group.
spec fn of_group(reqs: Seq<RequestView>, g: GroupView, b: BatchView) -> bool {
    b.members.len() > 0 && belongs(reqs, g, b.members[0])
}

proof fn lemma_batches_of_groups(reqs: Seq<RequestView>, groups: Seq<GroupView>)
    requires
        forall|i: int| 0 <= i < groups.len() ==> group_fits(reqs, #[trigger] groups[i]),
        forall|i: int, j: int|
            0 <= i < j < groups.len() ==> before(
                (#[trigger] groups[i]).key,
                (#[trigger] groups[j]).key,
            ),
    ensures
        forall|i: int|
            0 <= i < all_group_batches(groups).len() ==> exists|k: int|
                0 <= k < groups.len() && of_group(
                    reqs,
                    #[trigger] groups[k],
                    #[trigger] all_group_batches(groups)[i],
                ),
        forall|i: int, j: int|
            0 <= i < j < all_group_batches(groups).len() && same_labels(
                reqs,
                #[trigger] all_group_batches(groups)[i],
                #[trigger] all_group_batches(groups)[j],
            ) ==> all_group_batches(groups)[i].members.len() == 512,
    decreases groups.len(),
{
    if groups.len() > 0 {
        let init = groups.drop_last();
        let g = groups.last();
        assert forall|i: int| 0 <= i < init.len() implies group_fits(reqs, #[trigger] init[i]) by {
            assert(init[i] == groups[i]);
        }
        assert forall|i: int, j: int| 0 <= i < j < init.len() implies before(
            (#[trigger] init[i]).key,
            (#[trigger] init[j]).key,
        ) by {
            assert(init[i] == groups[i] && init[j] == groups[j]);
        }
        lemma_batches_of_groups(reqs, init);
        assert(group_fits(reqs, groups[groups.len() - 1]));
        lemma_chunks_are_full(reqs, g);
        let a = all_group_batches(init);
        let b = group_batches(g);
        let all = all_group_batches(groups);
        assert forall|i: int| 0 <= i < all.len() implies exists|k: int|
            0 <= k < groups.len() && of_group(reqs, #[trigger] groups[k], #[trigger] all[i]) by {
            if i < a.len() {
                assert(all[i] == a[i]);
                let k = choose|k: int|
                    0 <= k < init.len() && of_group(reqs, #[trigger] init[k], a[i]);
                assert(groups[k] == init[k]);
            } else {
                assert(all[i] == b[i - a.len()]);
                assert(of_group(reqs, groups[groups.len() - 1], all[i]));
            }
        }
        assert forall|i: int, j: int|
            0 <= i < j < all.len() && same_labels(
                reqs,
                #[trigger] all[i],
                #[trigger] all[j],
            ) implies all[i].members.len() == 512 by {
            if j < a.len() {
                assert(all[i] == a[i] && all[j] == a[j]);
            } else if i >= a.len() {
                assert(all[i] == b[i - a.len()]);
            } else {
                assert(all[i] == a[i]);
                assert(all[j] == b[j - a.len()]);
                let k = choose|k: int|
                    0 <= k < init.len() && of_group(reqs, #[trigger] init[k], a[i]);
                assert(init[k] == groups[k]);
                assert(group_fits(reqs, groups[k]));
                assert(belongs(reqs, g, all[j].members[0]));
                assert(groups[k].key == g.key);
                assert(before(groups[k].key, groups[groups.len() - 1].key));
                lemma_order(g.key, g.key, g.key);
            }
        }
    }
}

/// Requests for one metric under the same other labels share a query: a second one is
/// planned for them only where the first has as many members as a query may have.
pub proof fn law_equal_labels_share_a_query(reqs: Seq<RequestView>, i: int, j: int)
    requires
        all_separable(reqs),
        0 <= i < j < batches_of(reqs).len(),
        batches_of(reqs)[i].members[0].asset is Some,
        batches_of(reqs)[j].members[0].asset is Some,
        same_labels(reqs, batches_of(reqs)[i], batches_of(reqs)[j]),
    ensures
        batches_of(reqs)[i].members.len() == 512,
{
    let n = reqs.len() as int;
    let groups = groups_of(reqs, n);
    let a = all_group_batches(groups);
    lemma_groups_fit(reqs, n);
    law_groups_have_distinct_keys(reqs, n);
    lemma_batches_of_groups(reqs, groups);
    lemma_singles_ask(reqs, n);
    if j < a.len() {
        assert(batches_of(reqs)[i] == a[i] && batches_of(reqs)[j] == a[j]);
    } else {
        let b = singles_of(reqs, n)[j - a.len()];
        assert(batches_of(reqs)[j] == b);
        assert(asks_alone(reqs, b));
    }
}

proof fn lemma_none_of(s: Seq<char>, c: char)
    ensures
        first_of(s, c) is None <==> !s.contains(c),
    decreases s.len(),
{
    if s.len() > 0 {
        let rest = s.drop_first();
        lemma_none_of(rest, c);
        if s.contains(c) {
            let i = choose|i: int| 0 <= i < s.len() && s[i] == c;
            if i > 0 {
                assert(rest[i - 1] == c);
            } else {
                assert(s[0] == c);
            }
        }
        if rest.contains(c) {
            let i = choose|i: int| 0 <= i < rest.len() && rest[i] == c;
            assert(s[i + 1] == c);
        }
    }
}

/// The text between the first two double quotes is found, whatever stands around them;
/// there is none where fewer than two stand.
pub proof fn law_quoted_texts_are_found(front: Seq<char>, text: Seq<char>, back: Seq<char>)
    requires
        !front.contains('"'),
        !text.contains('"'),
    ensures
        quoted(front + seq!['"'] + text + seq!['"'] + back) == Some(text),
        quoted(front + seq!['"'] + text) is None,
        quoted(front) is None,
{
    assert forall|i: int| 0 <= i < front.len() implies #[trigger] front[i] != '"' by {
        assert(front.contains(front[i]));
    }
    assert forall|i: int| 0 <= i < text.len() implies #[trigger] text[i] != '"' by {
        assert(text.contains(text[i]));
    }
    let tail = text + seq!['"'] + back;
    let all = front + seq!['"'] + text + seq!['"'] + back;
    assert(all =~= front + seq!['"'] + tail);
    lemma_first_behind(front, '"', tail);
    assert(all.skip(front.len() as int + 1) =~= tail);
    lemma_first_behind(text, '"', back);
    assert(tail.take(text.len() as int) =~= text);
    let one = front + seq!['"'] + text;
    lemma_first_behind(front, '"', text);
    assert(one.skip(front.len() as int + 1) =~= text);
    lemma_none_of(text, '"');
    lemma_none_of(front, '"');
}

/// Members stand in the order of their requests, all of them among the first `n`.
spec fn in_request_order(members: Seq<MemberView>, n: int) -> bool {
    &&& forall|i: int| 0 <= i < members.len() ==> (#[trigger] members[i]).index < n
    &&& forall|i: int, j: int|
        0 <= i < j < members.len() ==> (#[trigger] members[i]).index < (#[trigger] members[j]).index
}

proof fn lemma_groups_in_order(reqs: Seq<RequestView>, n: int)
    requires
        0 <= n <= reqs.len(),
    ensures
        forall|i: int|
            0 <= i < groups_of(reqs, n).len() ==> in_request_order(
                (#[trigger] groups_of(reqs, n)[i]).members,
                n,
            ),
    decreases n,
{
    if n > 0 {
        lemma_groups_in_order(reqs, n - 1);
        let groups = groups_of(reqs, n - 1);
        let after = groups_of(reqs, n);
        assert forall|i: int| 0 <= i < groups.len() implies in_request_order(
            (#[trigger] groups[i]).members,
            n,
        ) by {
            assert(in_request_order(groups[i].members, n - 1));
        }
        if let Some(p) = groupable(reqs[n - 1]) {
            let key = group_key(p);
            let at = group_place(groups, key);
            lemma_group_place(groups, key);
            assert forall|i: int| 0 <= i < after.len() implies in_request_order(
                (#[trigger] after[i]).members,
                n,
            ) by {
                if at < groups.len() && groups[at].key == key {
                    assert(in_request_order(groups[i].members, n - 1));
                    assert(in_request_order(groups[i].members, n));
                } else if i < at {
                    assert(after[i] == groups[i]);
                } else if i > at {
                    assert(after[i] == groups[i - 1]);
                }
            }
        }
    }
}

proof fn lemma_chunks_in_order(g: GroupView, n: int)
    requires
        in_request_order(g.members, n),
    ensures
        forall|i: int|
            0 <= i < group_batches(g).len() ==> in_request_order(
                (#[trigger] group_batches(g)[i]).members,
                n,
            ),
    decreases g.members.len(),
{
    if g.members.len() > 0 {
        let k = chunk_len(g.members.len());
        let rest = GroupView { members: g.members.skip(k), ..g };
        assert forall|i: int| 0 <= i < rest.members.len() implies (#[trigger] rest.members[i]).index
            < n by {
            assert(rest.members[i] == g.members[k + i]);
        }
        assert forall|i: int, j: int| 0 <= i < j < rest.members.len() implies (
        #[trigger] rest.members[i]).index < (#[trigger] rest.members[j]).index by {
            assert(rest.members[i] == g.members[k + i]);
            assert(rest.members[j] == g.members[k + j]);
        }
        lemma_chunks_in_order(rest, n);
        let all = group_batches(g);
        let chunk = g.members.take(k);
        assert forall|i: int| 0 <= i < chunk.len() implies (#[trigger] chunk[i]).index < n by {
            assert(chunk[i] == g.members[i]);
        }
        assert forall|i: int, j: int| 0 <= i < j < chunk.len() implies (#[trigger] chunk[i]).index
            < (#[trigger] chunk[j]).index by {
            assert(chunk[i] == g.members[i] && chunk[j] == g.members[j]);
        }
        assert forall|i: int| 0 <= i < all.len() implies in_request_order(
            (#[trigger] all[i]).members,
            n,
        ) by {
            if i > 0 {
                assert(all[i] == group_batches(rest)[i - 1]);
            }
        }
    }
}

proof fn lemma_all_chunks_in_order(groups: Seq<GroupView>, n: int)
    requires
        forall|i: int|
            0 <= i < groups.len() ==> in_request_order((#[trigger] groups[i]).members, n),
    ensures
        forall|i: int|
            0 <= i < all_group_batches(groups).len() ==> in_request_order(
                (#[trigger] all_group_batches(groups)[i]).members,
                n,
            ),
    decreases groups.len(),
{
    if groups.len() > 0 {
        let init = groups.drop_last();
        assert forall|i: int| 0 <= i < init.len() implies in_request_order(
            (#[trigger] init[i]).members,
            n,
        ) by {
            assert(init[i] == groups[i]);
        }
        lemma_all_chunks_in_order(init, n);
        assert(in_request_order(groups[groups.len() - 1].members, n));
        lemma_chunks_in_order(groups.last(), n);
        let a = all_group_batches(init);
        let all = all_group_batches(groups);
        assert forall|i: int| 0 <= i < all.len() implies in_request_order(
            (#[trigger] all[i]).members,
            n,
        ) by {
            if i < a.len() {
                assert(all[i] == a[i]);
            } else {
                assert(all[i] == group_batches(groups.last())[i - a.len()]);
            }
        }
    }
}

/// The members of a batch stand in the order of their requests.
pub proof fn law_members_keep_their_order(reqs: Seq<RequestView>, k: int, i: int, j: int)
    requires
        0 <= k < batches_of(reqs).len(),
        0 <= i < j < batches_of(reqs)[k].members.len(),
    ensures
        batches_of(reqs)[k].members[i].index < batches_of(reqs)[k].members[j].index,
{
    let n = reqs.len() as int;
    let groups = groups_of(reqs, n);
    let a = all_group_batches(groups);
    lemma_groups_in_order(reqs, n);
    lemma_all_chunks_in_order(groups, n);
    lemma_singles_ask(reqs, n);
    if k < a.len() {
        assert(batches_of(reqs)[k] == a[k]);
        assert(in_request_order(a[k].members, n));
    } else {
        assert(batches_of(reqs)[k] == singles_of(reqs, n)[k - a.len()]);
        assert(asks_alone(reqs, singles_of(reqs, n)[k - a.len()]));
    }
}

/// What a request that can share a query asks for, as one text: its metric and its
/// sorted other labels.
pub open spec fn asked_text(r: RequestView) -> Seq<char> {
    match parse_of(r.query) {
        Some(p) => p.metric + "\u{1}"@ + joined(sorted_texts(p.others), ","@),
        None => Seq::empty(),
    }
}

/// The members of a group can share a query, and read as its key.
spec fn reads_as_key(reqs: Seq<RequestView>, key: Seq<char>, members: Seq<MemberView>) -> bool {
    forall|i: int|
        0 <= i < members.len() ==> {
            let m = #[trigger] members[i];
            &&& 0 <= m.index < reqs.len()
            &&& m.asset is Some
            &&& groupable(reqs[m.index]) is Some
            &&& asked_text(reqs[m.index]) == key
        }
}

proof fn lemma_groups_read(reqs: Seq<RequestView>, n: int)
    requires
        0 <= n <= reqs.len(),
    ensures
        forall|i: int|
            0 <= i < groups_of(reqs, n).len() ==> reads_as_key(
                reqs,
                (#[trigger] groups_of(reqs, n)[i]).key,
                groups_of(reqs, n)[i].members,
            ),
    decreases n,
{
    if n > 0 {
        lemma_groups_read(reqs, n - 1);
        if let Some(p) = groupable(reqs[n - 1]) {
            let groups = groups_of(reqs, n - 1);
            let after = groups_of(reqs, n);
            let key = group_key(p);
            let at = group_place(groups, key);
            lemma_group_place(groups, key);
            assert(asked_text(reqs[n - 1]) == key);
            assert forall|i: int| 0 <= i < after.len() implies reads_as_key(
                reqs,
                (#[trigger] after[i]).key,
                after[i].members,
            ) by {
                if at < groups.len() && groups[at].key == key {
                    assert(reads_as_key(reqs, groups[i].key, groups[i].members));
                } else if i < at {
                    assert(after[i] == groups[i]);
                } else if i > at {
                    assert(after[i] == groups[i - 1]);
                }
            }
        }
    }
}

proof fn lemma_chunks_read(reqs: Seq<RequestView>, g: GroupView)
    requires
        reads_as_key(reqs, g.key, g.members),
    ensures
        forall|i: int|
            0 <= i < group_batches(g).len() ==> reads_as_key(
                reqs,
                g.key,
                (#[trigger] group_batches(g)[i]).members,
            ),
    decreases g.members.len(),
{
    if g.members.len() > 0 {
        let n = chunk_len(g.members.len());
        let rest = GroupView { members: g.members.skip(n), ..g };
        assert forall|i: int| 0 <= i < rest.members.len() implies {
            let m = #[trigger] rest.members[i];
            &&& 0 <= m.index < reqs.len()
            &&& m.asset is Some
            &&& groupable(reqs[m.index]) is Some
            &&& asked_text(reqs[m.index]) == g.key
        } by {
            assert(rest.members[i] == g.members[n + i]);
        }
        lemma_chunks_read(reqs, rest);
        let all = group_batches(g);
        let chunk = g.members.take(n);
        assert forall|i: int| 0 <= i < chunk.len() implies {
            let m = #[trigger] chunk[i];
            &&& 0 <= m.index < reqs.len()
            &&& m.asset is Some
            &&& groupable(reqs[m.index]) is Some
            &&& asked_text(reqs[m.index]) == g.key
        } by {
            assert(chunk[i] == g.members[i]);
        }
        assert forall|i: int| 0 <= i < all.len() implies reads_as_key(
            reqs,
            g.key,
            (#[trigger] all[i]).members,
        ) by {
            if i > 0 {
                assert(all[i] == group_batches(rest)[i - 1]);
            }
        }
    }
}

/// The members of a batch read alike.
spec fn reads_alike(reqs: Seq<RequestView>, b: BatchView) -> bool {
    exists|key: Seq<char>| #[trigger] reads_as_key(reqs, key, b.members)
}

proof fn lemma_all_chunks_read(reqs: Seq<RequestView>, groups: Seq<GroupView>)
    requires
        forall|i: int|
            0 <= i < groups.len() ==> reads_as_key(
                reqs,
                (#[trigger] groups[i]).key,
                groups[i].members,
            ),
    ensures
        forall|i: int|
            0 <= i < all_group_batches(groups).len() ==> reads_alike(
                reqs,
                #[trigger] all_group_batches(groups)[i],
            ),
    decreases groups.len(),
{
    if groups.len() > 0 {
        let init = groups.drop_last();
        assert forall|i: int| 0 <= i < init.len() implies reads_as_key(
            reqs,
            (#[trigger] init[i]).key,
            init[i].members,
        ) by {
            assert(init[i] == groups[i]);
        }
        lemma_all_chunks_read(reqs, init);
        let g = groups[groups.len() - 1];
        assert(reads_as_key(reqs, g.key, g.members));
        lemma_chunks_read(reqs, g);
        let a = all_group_batches(init);
        let all = all_group_batches(groups);
        assert forall|i: int| 0 <= i < all.len() implies reads_alike(reqs, #[trigger] all[i]) by {
            if i < a.len() {
                assert(all[i] == a[i]);
            } else {
                assert(all[i] == group_batches(g)[i - a.len()]);
                assert(reads_as_key(reqs, g.key, all[i].members));
            }
        }
    }
}

/// Whatever the requests are, two of one batch are both for the metrics backend, and
/// their metrics and sorted other labels read the same.
pub proof fn law_shared_queries_read_alike(reqs: Seq<RequestView>, k: int, i: int, j: int)
    requires
        0 <= k < batches_of(reqs).len(),
        0 <= i < j < batches_of(reqs)[k].members.len(),
    ensures
        ({
            let a = reqs[batches_of(reqs)[k].members[i].index];
            let b = reqs[batches_of(reqs)[k].members[j].index];
            &&& a.source_id == "victoriametrics"@ && b.source_id == "victoriametrics"@
            &&& parse_of(a.query) is Some && parse_of(b.query) is Some
            &&& asked_text(a) == asked_text(b)
        }),
{
    let n = reqs.len() as int;
    let groups = groups_of(reqs, n);
    let a = all_group_batches(groups);
    lemma_groups_read(reqs, n);
    lemma_all_chunks_read(reqs, groups);
    lemma_singles_ask(reqs, n);
    if k < a.len() {
        let b = a[k];
        assert(batches_of(reqs)[k] == b);
        assert(reads_alike(reqs, b));
        let key = choose|key: Seq<char>| #[trigger] reads_as_key(reqs, key, b.members);
        assert(asked_text(reqs[b.members[i].index]) == key);
        assert(asked_text(reqs[b.members[j].index]) == key);
    } else {
        assert(batches_of(reqs)[k] == singles_of(reqs, n)[k - a.len()]);
        assert(asks_alone(reqs, singles_of(reqs, n)[k - a.len()]));
    }
}

} // verus!
