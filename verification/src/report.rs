//! What the command line reports of a scene, and what it makes of its arguments.

use crate::dsl::diag::{Diagnostic, DiagnosticView};
use crate::lsg::{
    bound_by, vf_text, Entity, EntityId, EntityView, Lsg, LsgView, Transform,
};
use crate::model::{group_models, views};
use crate::order::{before, distinct_texts, is_before, lemma_order, sort_distinct_texts};
use crate::overlay::{OverlayView, TwinOverlay};
use crate::promql::{first_of, join, joined};
use crate::table::{ascending, lemma_ascending, lists};
use crate::text::{cat3, chars_of, decimal, decimal_of, part, text_of, trim, trimmed};
use vstd::prelude::*;
use vstd::string::*;

verus! {

/// How many entities are of the kinds that a report counts.
#[derive(Debug, Clone, Copy, PartialEq, Eq, Structural)]
pub struct KindCounts {
    pub assemblies: usize,
    pub groups: usize,
    pub components: usize,
}

/// How many of the listed entities are of a kind.
pub open spec fn of_kind(lsg: LsgView, ids: Seq<u64>, kind: Seq<char>) -> nat
    decreases ids.len(),
{
    if ids.len() == 0 {
        0
    } else {
        of_kind(lsg, ids.drop_last(), kind) + if lsg.entities[ids.last()].kind == Some(kind) {
            1nat
        } else {
            0
        }
    }
}

fn is_kind(e: &Entity, kind: &str) -> (b: bool)
    ensures
        b == (e@.kind == Some(kind@)),
{
    match &e.kind {
        Some(k) => *k == kind.to_owned(),
        None => false,
    }
}

/// Counts the kinds of entities.
pub fn kind_counts(lsg: &Lsg) -> (c: KindCounts)
    ensures
        c.assemblies == of_kind(lsg@, ascending(lsg@.entities.dom()), "assembly"@),
        c.groups == of_kind(lsg@, ascending(lsg@.entities.dom()), "group"@),
        c.components == of_kind(lsg@, ascending(lsg@.entities.dom()), "component"@),
{
    let all = lsg.entities();
    let ghost ids = ascending(lsg@.entities.dom());
    let mut c = KindCounts { assemblies: 0, groups: 0, components: 0 };
    let mut i: usize = 0;
    while i < all.len()
        invariant
            i <= all@.len(),
            all@.len() == ids.len(),
            forall|j: int|
                0 <= j < all@.len() ==> (#[trigger] all@[j])@ == lsg@.entities[ids[j]],
            c.assemblies <= i,
            c.groups <= i,
            c.components <= i,
            c.assemblies == of_kind(lsg@, ids.take(i as int), "assembly"@),
            c.groups == of_kind(lsg@, ids.take(i as int), "group"@),
            c.components == of_kind(lsg@, ids.take(i as int), "component"@),
        decreases all@.len() - i,
    {
        proof {
            assert(ids.take(i + 1).drop_last() =~= ids.take(i as int));
            assert(all@[i as int]@ == lsg@.entities[ids[i as int]]);
        }
        if is_kind(all[i], "assembly") {
            c.assemblies = c.assemblies + 1;
        }
        if is_kind(all[i], "group") {
            c.groups = c.groups + 1;
        }
        if is_kind(all[i], "component") {
            c.components = c.components + 1;
        }
        i = i + 1;
    }
    proof {
        assert(ids.take(i as int) =~= ids);
    }
    c
}

/// The attributes that the listed entities bind, in turn.
pub open spec fn attributes_of(lsg: LsgView, ids: Seq<u64>) -> Seq<Seq<char>>
    decreases ids.len(),
{
    if ids.len() == 0 {
        Seq::empty()
    } else {
        attributes_of(lsg, ids.drop_last()) + lsg.entities[ids.last()].bindings.map_values(
            |b: crate::lsg::TelemetryBindingView| b.attribute,
        )
    }
}

/// The distinct attributes that are bound, in order.
pub fn bound_attributes(lsg: &Lsg) -> (r: Vec<String>)
    ensures
        views(r@) == distinct_texts(
            attributes_of(lsg@, ascending(lsg@.entities.dom())),
        ),
{
    broadcast use group_models;

    let all = lsg.entities();
    let ghost ids = ascending(lsg@.entities.dom());
    let mut found: Vec<String> = Vec::new();
    let mut i: usize = 0;
    proof {
        assert(views(found@) =~= attributes_of(lsg@, ids.take(0)));
    }
    while i < all.len()
        invariant
            i <= all@.len(),
            all@.len() == ids.len(),
            forall|j: int|
                0 <= j < all@.len() ==> (#[trigger] all@[j])@ == lsg@.entities[ids[j]],
            views(found@) == attributes_of(lsg@, ids.take(i as int)),
        decreases all@.len() - i,
    {
        proof {
            assert(ids.take(i + 1).drop_last() =~= ids.take(i as int));
            assert(all@[i as int]@ == lsg@.entities[ids[i as int]]);
        }
        let e = all[i];
        let ghost f0 = views(found@);
        let ghost more = e@.bindings.map_values(
            |b: crate::lsg::TelemetryBindingView| b.attribute,
        );
        let mut j: usize = 0;
        proof {
            assert(f0 + more.take(0) =~= f0);
        }
        while j < e.bindings.len()
            invariant
                j <= e.bindings@.len(),
                more == e@.bindings.map_values(
                    |b: crate::lsg::TelemetryBindingView| b.attribute,
                ),
                views(found@) == f0 + more.take(j as int),
            decreases e.bindings@.len() - j,
        {
            found.push(e.bindings[j].attribute.clone());
            j = j + 1;
            proof {
                assert(f0 + more.take(j as int) =~= (f0 + more.take(j - 1)).push(more[j - 1]));
            }
        }
        proof {
            assert(more.take(j as int) =~= more);
        }
        i = i + 1;
    }
    proof {
        assert(ids.take(i as int) =~= ids);
    }
    sort_distinct_texts(&found)
}

pub open spec fn binding_entry(lsg: LsgView, a: Seq<char>) -> Seq<char> {
    a + "="@ + decimal_of(bound_by(lsg.binding_index, a).len())
}

/// Says how many entities bind each of the attributes: `flow=2 level=1`.
pub fn binding_summary(lsg: &Lsg, attributes: &Vec<String>) -> (s: String)
    requires
        lsg.wf(),
    ensures
        s@ == joined(
            views(attributes@).map_values(|a: Seq<char>| binding_entry(lsg@, a)),
            " "@,
        ),
{
    broadcast use group_models;

    let ghost all = views(attributes@).map_values(|a: Seq<char>| binding_entry(lsg@, a));
    let mut entries: Vec<String> = Vec::new();
    let mut i: usize = 0;
    proof {
        assert(views(entries@) =~= all.take(0));
    }
    while i < attributes.len()
        invariant
            i <= attributes@.len(),
            lsg.wf(),
            all == views(attributes@).map_values(|a: Seq<char>| binding_entry(lsg@, a)),
            views(entries@) == all.take(i as int),
        decreases attributes@.len() - i,
    {
        let a = &attributes[i];
        let n: usize = lsg.entities_binding(a.as_str()).len();
        entries.push(cat3(a.as_str(), "=", decimal(n as u64).as_str()));
        i = i + 1;
        proof {
            assert(all.take(i as int) =~= all.take(i - 1).push(all[i - 1]));
        }
    }
    proof {
        assert(all.take(i as int) =~= all);
    }
    join(&entries, " ")
}

/// The asset tag of an entity, where it has one.
pub open spec fn tag_of(e: EntityView) -> Option<Seq<char>> {
    vf_text(e, "assetTag"@)
}

/// One tagged entity comes before another: by its tag, and by its id where the
/// tags are the same.
pub open spec fn tagged_before(a: EntityView, b: EntityView) -> bool {
    before(tag_of(a)->0, tag_of(b)->0) || (tag_of(a) == tag_of(b) && a.id.0 < b.id.0)
}

/// The list has the entities of the index that have an asset tag, and no others,
/// in order.
pub open spec fn lists_assets(list: Seq<EntityView>, lsg: LsgView) -> bool {
    &&& forall|i: int, j: int|
        0 <= i < j < list.len() ==> tagged_before(#[trigger] list[i], #[trigger] list[j])
    &&& forall|i: int|
        0 <= i < list.len() ==> tag_of(#[trigger] list[i]) is Some && lsg.has(list[i].id)
            && lsg.entities[list[i].id.0] == list[i]
    &&& forall|k: u64| #[trigger]
        lsg.entities.contains_key(k) && tag_of(lsg.entities[k]) is Some ==> list.contains(
            lsg.entities[k],
        )
}

/// The place of an entity with this tag among tagged entities: behind all whose
/// tag does not come after it.
fn asset_place(list: &Vec<&Entity>, tag: &str) -> (p: usize)
    requires
        forall|i: int| 0 <= i < list@.len() ==> tag_of((#[trigger] list@[i])@) is Some,
        forall|i: int, j: int|
            0 <= i < j < list@.len() ==> tagged_before(
                (#[trigger] list@[i])@,
                (#[trigger] list@[j])@,
            ),
    ensures
        p <= list@.len(),
        forall|i: int| 0 <= i < p ==> !before(tag@, tag_of((#[trigger] list@[i])@)->0),
        forall|i: int| p <= i < list@.len() ==> before(tag@, tag_of((#[trigger] list@[i])@)->0),
{
    let mut lo: usize = 0;
    let mut hi: usize = list.len();
    while lo < hi
        invariant
            lo <= hi <= list@.len(),
            forall|i: int| 0 <= i < list@.len() ==> tag_of((#[trigger] list@[i])@) is Some,
            forall|i: int, j: int|
                0 <= i < j < list@.len() ==> tagged_before(
                    (#[trigger] list@[i])@,
                    (#[trigger] list@[j])@,
                ),
            forall|i: int| 0 <= i < lo ==> !before(tag@, tag_of((#[trigger] list@[i])@)->0),
            forall|i: int|
                hi <= i < list@.len() ==> before(tag@, tag_of((#[trigger] list@[i])@)->0),
        decreases hi - lo,
    {
        let mid: usize = lo + (hi - lo) / 2;
        let ghost m = tag_of(list@[mid as int]@)->0;
        let after = match list[mid].asset_tag() {
            Some(t) => is_before(tag, t),
            None => false,
        };
        if after {
            proof {
                assert forall|i: int| mid <= i < list@.len() implies before(
                    tag@,
                    tag_of((#[trigger] list@[i])@)->0,
                ) by {
                    if i > mid {
                        assert(tagged_before(list@[mid as int]@, list@[i]@));
                        lemma_order(tag@, m, tag_of(list@[i]@)->0);
                    }
                }
            }
            hi = mid;
        } else {
            proof {
                assert forall|i: int| 0 <= i < mid + 1 implies !before(
                    tag@,
                    tag_of((#[trigger] list@[i])@)->0,
                ) by {
                    if i < mid {
                        assert(tagged_before(list@[i]@, list@[mid as int]@));
                        lemma_order(tag@, tag_of(list@[i]@)->0, m);
                    }
                }
            }
            lo = mid + 1;
        }
    }
    lo
}

/// The entities that have an asset tag, in the order of their tags.
pub fn tagged_assets(lsg: &Lsg) -> (r: Vec<&Entity>)
    requires
        lsg.wf(),
    ensures
        lists_assets(r@.map_values(|e: &Entity| e@), lsg@),
{
    let all = lsg.entities();
    let ghost ids = ascending(lsg@.entities.dom());
    let mut r: Vec<&Entity> = Vec::new();
    let mut i: usize = 0;
    proof {
        lsg.lemma_finite();
        lemma_ascending(lsg@.entities.dom());
    }
    while i < all.len()
        invariant
            i <= all@.len(),
            all@.len() == ids.len(),
            lsg@.valid(),
            lists(ids, lsg@.entities.dom()),
            forall|j: int|
                0 <= j < all@.len() ==> (#[trigger] all@[j])@ == lsg@.entities[ids[j]],
            forall|a: int, b: int|
                0 <= a < b < r@.len() ==> tagged_before((#[trigger] r@[a])@, (#[trigger] r@[b])@),
            forall|a: int|
                0 <= a < r@.len() ==> tag_of((#[trigger] r@[a])@) is Some && lsg@.has(r@[a]@.id)
                    && lsg@.entities[r@[a]@.id.0] == r@[a]@,
            forall|a: int, m: int|
                0 <= a < r@.len() && i <= m < ids.len() ==> (#[trigger] r@[a])@.id.0
                    < #[trigger] ids[m],
            forall|m: int|
                0 <= m < i && tag_of(lsg@.entities[#[trigger] ids[m]]) is Some
                    ==> r@.map_values(|e: &Entity| e@).contains(lsg@.entities[ids[m]]),
        decreases all@.len() - i,
    {
        let e = all[i];
        let ghost k = ids[i as int];
        let ghost r0 = r@;
        let ghost f = |e: &Entity| e@;
        proof {
            assert(ids.contains(k));
            assert(lsg@.entities.dom().contains(k));
            assert(lsg@.entities.contains_key(k));
            assert(all@[i as int]@ == lsg@.entities[k]);
            assert(e@.id == EntityId(k));
            assert forall|m: int| i < m < ids.len() implies k < #[trigger] ids[m] by {
                assert(ids[i as int] < ids[m]);
            }
        }
        match e.asset_tag() {
            Some(tag) => {
                let p = asset_place(&r, tag);
                r.insert(p, e);
                proof {
                    assert(r@ == r0.insert(p as int, e));
                    assert forall|a: int, b: int| 0 <= a < b < r@.len() implies tagged_before(
                        (#[trigger] r@[a])@,
                        (#[trigger] r@[b])@,
                    ) by {
                        let a0 = if a > p { a - 1 } else { a };
                        let b0 = if b > p { b - 1 } else { b };
                        if a == p {
                            assert(r@[b] == r0[b0]);
                            assert(before(tag@, tag_of(r0[b0]@)->0));
                        } else if b == p {
                            assert(r@[a] == r0[a0]);
                            assert(!before(tag@, tag_of(r0[a0]@)->0));
                            assert(r0[a0]@.id.0 < ids[i as int]);
                            lemma_order(tag@, tag_of(r0[a0]@)->0, tag@);
                        } else {
                            assert(r@[a] == r0[a0]);
                            assert(r@[b] == r0[b0]);
                            assert(tagged_before(r0[a0]@, r0[b0]@));
                        }
                    }
                    assert forall|a: int| 0 <= a < r@.len() implies tag_of((#[trigger] r@[a])@)
                        is Some && lsg@.has(r@[a]@.id) && lsg@.entities[r@[a]@.id.0]
                        == r@[a]@ by {
                        if a != p {
                            let a0 = if a > p { a - 1 } else { a };
                            assert(r@[a] == r0[a0]);
                        }
                    }
                    assert forall|a: int, m: int|
                        0 <= a < r@.len() && i + 1 <= m < ids.len() implies (#[trigger] r@[a])@.id.0
                        < #[trigger] ids[m] by {
                        if a != p {
                            let a0 = if a > p { a - 1 } else { a };
                            assert(r@[a] == r0[a0]);
                            assert(r0[a0]@.id.0 < ids[m]);
                        }
                    }
                    assert forall|m: int|
                        0 <= m < i + 1 && tag_of(lsg@.entities[#[trigger] ids[m]])
                            is Some implies r@.map_values(f).contains(
                        lsg@.entities[ids[m]],
                    ) by {
                        if m == i {
                            assert(r@.map_values(f)[p as int] == e@);
                        } else {
                            let x = lsg@.entities[ids[m]];
                            assert(r0.map_values(f).contains(x));
                            let a0 = choose|a0: int|
                                0 <= a0 < r0.len() && r0.map_values(f)[a0] == x;
                            let a = if a0 >= p { a0 + 1 } else { a0 };
                            assert(r@[a] == r0[a0]);
                            assert(r@.map_values(f)[a] == x);
                        }
                    }
                }
            },
            None => {},
        }
        i = i + 1;
    }
    proof {
        let list = r@.map_values(|e: &Entity| e@);
        assert forall|k: u64| #[trigger]
            lsg@.entities.contains_key(k) && tag_of(lsg@.entities[k]) is Some implies list.contains(
            lsg@.entities[k],
        ) by {
            assert(lsg@.entities.dom().contains(k));
            assert(ids.contains(k));
            let m = choose|m: int| 0 <= m < ids.len() && ids[m] == k;
            assert(tag_of(lsg@.entities[ids[m]]) is Some);
        }
    }
    r
}

/// What a selector on the command line stands for.
#[derive(Debug)]
pub struct Target {
    pub id: EntityId,
    pub prim_path: String,
    /// The authored transform, where a scene says it.
    pub authored: Option<Transform>,
}

/// Why a selector stands for nothing.
#[derive(Debug, Clone, Copy, PartialEq, Eq, Structural)]
pub enum TargetError {
    /// The scene has no such entity.
    NotFound,
    /// An asset tag means something only in a scene.
    NeedsScene,
}

/// Resolves a selector: in a scene it has to lead somewhere; without one it has to
/// be a prim path, which gives the id by itself.
pub fn resolve_target(selector: &str, lsg: Option<&Lsg>) -> (r: Result<Target, TargetError>)
    requires
        lsg matches Some(l) ==> l.wf(),
    ensures
        match (lsg, r) {
            (Some(l), Ok(t)) => l@.selected(selector@) matches Some(id) && {
                &&& t.id == id
                &&& t.prim_path@ == l@.entities[id.0].prim_path
                &&& t.authored == Some(l@.entities[id.0].transform_default)
            },
            (Some(l), Err(e)) => l@.selected(selector@) is None && e == TargetError::NotFound,
            (None, Ok(t)) => {
                &&& selector@.len() > 0 && selector@[0] == '/'
                &&& t.id == EntityId::of_path(selector@)
                &&& t.prim_path@ == selector@
                &&& t.authored is None
            },
            (None, Err(e)) => !(selector@.len() > 0 && selector@[0] == '/') && e
                == TargetError::NeedsScene,
        },
{
    match lsg {
        Some(l) => match l.resolve_selector(selector) {
            Some(e) => Ok(
                Target {
                    id: e.id,
                    prim_path: e.prim_path.clone(),
                    authored: Some(e.transform_default),
                },
            ),
            None => Err(TargetError::NotFound),
        },
        None => if selector.unicode_len() > 0 && selector.get_char(0) == '/' {
            Ok(
                Target {
                    id: EntityId::from_prim_path(selector),
                    prim_path: selector.to_owned(),
                    authored: None,
                },
            )
        } else {
            Err(TargetError::NeedsScene)
        },
    }
}

/// The pieces of a list that commas separate, each without the white space around
/// it.
pub open spec fn pieces(s: Seq<char>) -> Seq<Seq<char>>
    decreases s.len(),
    via pieces_shrink
{
    match first_of(s, ',') {
        Some(i) => seq![trimmed(s.take(i))] + pieces(s.skip(i + 1)),
        None => seq![trimmed(s)],
    }
}

#[via_fn]
proof fn pieces_shrink(s: Seq<char>) {
    crate::promql::lemma_first_of(s, ',');
}

/// Splits a list at its commas.
pub fn split_list(s: &str) -> (r: Vec<String>)
    ensures
        views(r@) == pieces(s@),
{
    broadcast use group_models;

    let mut rest = chars_of(s);
    let mut r: Vec<String> = Vec::new();
    proof {
        assert(views(r@) + pieces(rest@) =~= pieces(s@));
    }
    loop
        invariant
            pieces(s@) == views(r@) + pieces(rest@),
        decreases rest@.len(),
    {
        match crate::promql::find_first(&rest, ',') {
            Some(i) => {
                let head = part(&rest, 0, i);
                let n: usize = rest.len();
                let tail = part(&rest, i + 1, n);
                let t = trim(&head);
                let piece = text_of(&t);
                proof {
                    assert(head@ =~= rest@.take(i as int));
                    assert(tail@ =~= rest@.skip(i + 1));
                    assert(views(r@) + (seq![piece@] + pieces(tail@)) =~= views(r@).push(piece@)
                        + pieces(tail@));
                }
                r.push(piece);
                rest = tail;
            },
            None => {
                let t = trim(&rest);
                let piece = text_of(&t);
                proof {
                    assert(views(r@) + seq![piece@] =~= views(r@).push(piece@));
                }
                r.push(piece);
                return r;
            },
        }
    }
}

/// What a list of selectors stands for: the entities that are found, and the
/// selectors that lead nowhere.
#[derive(Debug)]
pub struct Selection {
    pub ids: Vec<EntityId>,
    pub missing: Vec<String>,
}

/// The entities that the named selectors lead to, in turn.
pub open spec fn found(lsg: LsgView, names: Seq<Seq<char>>) -> Seq<EntityId>
    decreases names.len(),
{
    if names.len() == 0 {
        Seq::empty()
    } else {
        let init = found(lsg, names.drop_last());
        match lsg.selected(names.last()) {
            Some(id) if names.last().len() > 0 => init.push(id),
            _ => init,
        }
    }
}

/// The named selectors that lead nowhere, in turn. An empty one is no selector.
pub open spec fn not_found(lsg: LsgView, names: Seq<Seq<char>>) -> Seq<Seq<char>>
    decreases names.len(),
{
    if names.len() == 0 {
        Seq::empty()
    } else {
        let init = not_found(lsg, names.drop_last());
        if names.last().len() > 0 && lsg.selected(names.last()) is None {
            init.push(names.last())
        } else {
            init
        }
    }
}

/// Resolves a list of selectors that commas separate.
pub fn resolve_selection(lsg: &Lsg, list: &str) -> (r: Selection)
    requires
        lsg.wf(),
    ensures
        r.ids@ == found(lsg@, pieces(list@)),
        views(r.missing@) == not_found(lsg@, pieces(list@)),
{
    broadcast use group_models;

    let names = split_list(list);
    let ghost all = pieces(list@);
    let mut ids: Vec<EntityId> = Vec::new();
    let mut missing: Vec<String> = Vec::new();
    let mut i: usize = 0;
    proof {
        assert(all.take(0) =~= Seq::empty());
        assert(views(missing@) =~= Seq::empty());
    }
    while i < names.len()
        invariant
            i <= names@.len(),
            lsg.wf(),
            all == views(names@),
            ids@ == found(lsg@, all.take(i as int)),
            views(missing@) == not_found(lsg@, all.take(i as int)),
        decreases names@.len() - i,
    {
        proof {
            assert(all.take(i + 1).drop_last() =~= all.take(i as int));
            assert(all.take(i + 1).last() == names@[i as int]@);
        }
        let name = &names[i];
        if name.as_str().unicode_len() > 0 {
            match lsg.resolve_selector(name.as_str()) {
                Some(e) => ids.push(e.id),
                None => missing.push(name.clone()),
            }
        }
        i = i + 1;
    }
    proof {
        assert(all.take(i as int) =~= all);
    }
    Selection { ids, missing }
}

/// The three numerals of `x,y,z`; `None` where there are not three.
pub fn split_triple(s: &str) -> (r: Option<(String, String, String)>)
    ensures
        match r {
            Some(t) => pieces(s@) == seq![t.0@, t.1@, t.2@],
            None => pieces(s@).len() != 3,
        },
{
    let mut list = split_list(s);
    proof {
        assert(views(list@).len() == list@.len());
    }
    if list.len() != 3 {
        return None;
    }
    let ghost all = views(list@);
    let x = list[0].clone();
    let y = list[1].clone();
    let z = list[2].clone();
    proof {
        assert(all =~= seq![x@, y@, z@]);
    }
    Some((x, y, z))
}

/// The transform to show for a target: the one in force where the scene has the
/// entity, or else that of the pin, or else the authored one.
pub open spec fn shown_transform(
    overlay: OverlayView,
    entity: Option<EntityView>,
    id: EntityId,
    authored: Option<Transform>,
) -> Option<Transform> {
    match entity {
        Some(e) => Some(overlay.resolved(e)),
        None => if overlay.pins.contains_key(id.0) {
            Some(overlay.pins[id.0].transform)
        } else {
            authored
        },
    }
}

/// The transform to show for a target.
pub fn transform_to_show(
    overlay: &TwinOverlay,
    entity: Option<&Entity>,
    id: EntityId,
    authored: Option<Transform>,
) -> (r: Option<Transform>)
    ensures
        r == shown_transform(
            overlay@,
            match entity {
                Some(e) => Some(e@),
                None => None,
            },
            id,
            authored,
        ),
{
    match entity {
        Some(e) => Some(overlay.resolved_transform(e)),
        None => match overlay.get_pin(id) {
            Some(p) => Some(p.transform),
            None => authored,
        },
    }
}

/// The messages that are errors, or those that are not.
pub open spec fn of_severity(diags: Seq<DiagnosticView>, errors: bool) -> Seq<DiagnosticView> {
    diags.filter(|d: DiagnosticView| d.is_error() == errors)
}

/// Picks the messages that are errors, or those that are not.
pub fn select_diagnostics(diags: &Vec<Diagnostic>, errors: bool) -> (r: Vec<Diagnostic>)
    ensures
        views(r@) == of_severity(views(diags@), errors),
{
    broadcast use group_models;

    let ghost all = views(diags@);
    let ghost f = |d: DiagnosticView| d.is_error() == errors;
    let mut r: Vec<Diagnostic> = Vec::new();
    let mut i: usize = 0;
    proof {
        reveal(Seq::filter);
        assert(all.take(0) =~= Seq::empty());
        assert(views(r@) =~= all.take(0).filter(f));
    }
    while i < diags.len()
        invariant
            i <= diags@.len(),
            all == views(diags@),
            f == (|d: DiagnosticView| d.is_error() == errors),
            views(r@) == all.take(i as int).filter(f),
        decreases diags@.len() - i,
    {
        proof {
            reveal(Seq::filter);
            assert(all.take(i + 1).drop_last() =~= all.take(i as int));
            assert(all.take(i + 1).last() == diags@[i as int]@);
        }
        if diags[i].is_error() == errors {
            r.push(
                Diagnostic {
                    severity: diags[i].severity,
                    message: diags[i].message.clone(),
                    span: diags[i].span,
                },
            );
        }
        i = i + 1;
    }
    proof {
        assert(all.take(i as int) =~= all);
    }
    r
}

// ---------------------------------------------------------------------------
// What holds of reports and lists.

/// A text that a list can hold: without a comma, and without white space at its ends.
pub open spec fn plain_piece(s: Seq<char>) -> bool {
    trimmed(s) == s && forall|i: int| 0 <= i < s.len() ==> #[trigger] s[i] != ','
}

proof fn lemma_first_comma(s: Seq<char>, rest: Seq<char>)
    requires
        forall|i: int| 0 <= i < s.len() ==> #[trigger] s[i] != ',',
    ensures
        first_of(s + seq![','] + rest, ',') == Some(s.len() as int),
        first_of(s, ',') is None,
    decreases s.len(),
{
    let all = s + seq![','] + rest;
    if s.len() == 0 {
        assert(all[0] == ',');
    } else {
        assert(all[0] == s[0]);
        assert(s[0] != ',');
        assert(all.drop_first() =~= s.drop_first() + seq![','] + rest);
        assert forall|i: int| 0 <= i < s.drop_first().len() implies #[trigger] s.drop_first()[i]
            != ',' by {
            assert(s[i + 1] != ',');
        }
        lemma_first_comma(s.drop_first(), rest);
    }
}

/// A list that is written with commas in between is taken apart into the texts that it
/// was written from.
pub proof fn law_lists_come_apart_at_commas(list: Seq<Seq<char>>)
    requires
        list.len() > 0,
        forall|i: int| 0 <= i < list.len() ==> plain_piece(#[trigger] list[i]),
    ensures
        pieces(joined(list, ","@)) == list,
    decreases list.len(),
{
    reveal_strlit(",");
    assert(","@ =~= seq![',']);
    assert(plain_piece(list[0]));
    lemma_first_comma(list[0], Seq::empty());
    if list.len() == 1 {
        assert(pieces(list[0]) =~= seq![list[0]]);
        assert(list =~= seq![list[0]]);
    } else {
        let rest = list.drop_first();
        assert forall|i: int| 0 <= i < rest.len() implies plain_piece(#[trigger] rest[i]) by {
            assert(rest[i] == list[i + 1]);
        }
        law_lists_come_apart_at_commas(rest);
        crate::batching::lemma_joined_first(list, ","@);
        let all = joined(list, ","@);
        let tail = joined(rest, ","@);
        assert(all =~= list[0] + seq![','] + tail);
        lemma_first_comma(list[0], tail);
        assert(all.take(list[0].len() as int) =~= list[0]);
        assert(all.skip(list[0].len() as int + 1) =~= tail);
        assert(pieces(all) == seq![list[0]] + pieces(tail));
        assert(seq![list[0]] + rest =~= list);
    }
}

/// Every selector that is named leads to an entity or is reported to lead nowhere, in
/// the order of the list; an empty one is passed over.
pub proof fn law_selectors_are_accounted_for(
    lsg: LsgView,
    a: Seq<Seq<char>>,
    b: Seq<Seq<char>>,
    name: Seq<char>,
)
    ensures
        found(lsg, a + b) == found(lsg, a) + found(lsg, b),
        not_found(lsg, a + b) == not_found(lsg, a) + not_found(lsg, b),
        name.len() > 0 && lsg.selected(name) is Some ==> found(lsg, seq![name]) == seq![
            lsg.selected(name)->0,
        ] && not_found(lsg, seq![name]).len() == 0,
        name.len() > 0 && lsg.selected(name) is None ==> not_found(lsg, seq![name]) == seq![name]
            && found(lsg, seq![name]).len() == 0,
        name.len() == 0 ==> found(lsg, seq![name]).len() == 0 && not_found(
            lsg,
            seq![name],
        ).len() == 0,
    decreases b.len(),
{
    assert(seq![name].drop_last() =~= Seq::<Seq<char>>::empty());
    assert(found(lsg, Seq::<Seq<char>>::empty()) =~= Seq::<EntityId>::empty());
    assert(not_found(lsg, Seq::<Seq<char>>::empty()) =~= Seq::<Seq<char>>::empty());
    if name.len() > 0 && lsg.selected(name) is Some {
        assert(found(lsg, seq![name]) =~= seq![lsg.selected(name)->0]);
    }
    if name.len() > 0 && lsg.selected(name) is None {
        assert(not_found(lsg, seq![name]) =~= seq![name]);
    }
    if b.len() == 0 {
        assert(a + b =~= a);
        assert(found(lsg, a) + found(lsg, b) =~= found(lsg, a));
        assert(not_found(lsg, a) + not_found(lsg, b) =~= not_found(lsg, a));
    } else {
        law_selectors_are_accounted_for(lsg, a, b.drop_last(), name);
        assert((a + b).drop_last() =~= a + b.drop_last());
        assert((a + b).last() == b.last());
        assert(found(lsg, a + b) =~= found(lsg, a) + found(lsg, b));
        assert(not_found(lsg, a + b) =~= not_found(lsg, a) + not_found(lsg, b));
    }
}

/// The number of entities of a kind is that of the listed ones that say it.
pub proof fn law_kinds_are_counted(lsg: LsgView, ids: Seq<u64>, kind: Seq<char>)
    ensures
        of_kind(lsg, ids, kind) == ids.filter(|k: u64| lsg.entities[k].kind == Some(kind)).len(),
    decreases ids.len(),
{
    reveal(Seq::filter);
    if ids.len() > 0 {
        law_kinds_are_counted(lsg, ids.drop_last(), kind);
    }
}

/// The attributes of listed entities are those of their bindings, all and no others.
pub proof fn law_attributes_are_those_bound(lsg: LsgView, ids: Seq<u64>, a: Seq<char>)
    ensures
        attributes_of(lsg, ids).contains(a) <==> exists|i: int, j: int|
            0 <= i < ids.len() && 0 <= j < lsg.entities[ids[i]].bindings.len() && (
            #[trigger] lsg.entities[ids[i]].bindings[j]).attribute == a,
    decreases ids.len(),
{
    if ids.len() > 0 {
        let init = ids.drop_last();
        law_attributes_are_those_bound(lsg, init, a);
        let bs = lsg.entities[ids.last()].bindings;
        let more = bs.map_values(|b: crate::lsg::TelemetryBindingView| b.attribute);
        let before = attributes_of(lsg, init);
        let all = attributes_of(lsg, ids);
        if all.contains(a) {
            let i = choose|i: int| 0 <= i < all.len() && all[i] == a;
            if i < before.len() {
                assert(before[i] == a);
                let (p, q) = choose|p: int, q: int|
                    0 <= p < init.len() && 0 <= q < lsg.entities[init[p]].bindings.len() && (
                    #[trigger] lsg.entities[init[p]].bindings[q]).attribute == a;
                assert(lsg.entities[ids[p]].bindings[q].attribute == a);
            } else {
                assert(more[i - before.len()] == a);
                assert(lsg.entities[ids[ids.len() - 1]].bindings[i - before.len()].attribute == a);
            }
        }
        if exists|i: int, j: int|
            0 <= i < ids.len() && 0 <= j < lsg.entities[ids[i]].bindings.len() && (
            #[trigger] lsg.entities[ids[i]].bindings[j]).attribute == a {
            let (p, q) = choose|p: int, q: int|
                0 <= p < ids.len() && 0 <= q < lsg.entities[ids[p]].bindings.len() && (
                #[trigger] lsg.entities[ids[p]].bindings[q]).attribute == a;
            if p < init.len() {
                assert(lsg.entities[init[p]].bindings[q].attribute == a);
                assert(before.contains(a));
                let i = choose|i: int| 0 <= i < before.len() && before[i] == a;
                assert(all[i] == a);
            } else {
                assert(more[q] == a);
                assert(all[before.len() + q] == a);
            }
        }
    }
}

/// An entry of the summary says how many entities bind the attribute.
pub proof fn law_summary_counts_the_entities(lsg: LsgView, a: Seq<char>)
    requires
        lsg.valid(),
    ensures
        exists|n: nat, ids: Seq<EntityId>|
            {
                &&& #[trigger] binding_entry(lsg, a) == a + "="@ + #[trigger] decimal_of(n)
                &&& ids.len() == n && #[trigger] ids.no_duplicates()
                &&& forall|id: EntityId| #[trigger]
                    ids.contains(id) <==> lsg.has(id) && crate::lsg::binds(lsg.entities[id.0], a)
            },
{
    let ids = bound_by(lsg.binding_index, a);
    assert(binding_entry(lsg, a) == a + "="@ + decimal_of(ids.len()));
    assert(ids.no_duplicates());
}

/// The transform that is shown is that of a pin, where there is one; else the authored
/// one of the entity that the scene has, and else the one that is handed in.
pub proof fn law_pins_are_shown(
    overlay: OverlayView,
    entity: Option<EntityView>,
    id: EntityId,
    authored: Option<Transform>,
)
    requires
        entity is Some ==> entity->0.id == id,
    ensures
        overlay.pins.contains_key(id.0) ==> shown_transform(overlay, entity, id, authored) == Some(
            overlay.pins[id.0].transform,
        ),
        !overlay.pins.contains_key(id.0) && entity is Some ==> shown_transform(
            overlay,
            entity,
            id,
            authored,
        ) == Some(entity->0.transform_default),
        !overlay.pins.contains_key(id.0) && entity is None ==> shown_transform(
            overlay,
            entity,
            id,
            authored,
        ) == authored,
{
}

/// Messages are picked by their severity, and keep their order.
pub proof fn law_messages_are_picked_by_severity(diags: Seq<DiagnosticView>)
    ensures
        of_severity(diags, true) == diags.filter(
            |d: DiagnosticView| d.severity == crate::dsl::diag::Severity::Error,
        ),
        of_severity(diags, false) == diags.filter(
            |d: DiagnosticView| d.severity == crate::dsl::diag::Severity::Warning,
        ),
    decreases diags.len(),
{
    reveal(Seq::filter);
    if diags.len() > 0 {
        law_messages_are_picked_by_severity(diags.drop_last());
    }
}

} // verus!
