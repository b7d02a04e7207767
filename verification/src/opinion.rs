//! Twin-overlay opinions: the durable, renderer-independent edits that Flow3D
//! lowers into.
//!
//! An [`Opinion`] is the unit of persistence and of reload. [`Opinion::key`] names
//! the slot that it fills, so that an edit reads as a change and not as a removal
//! and an addition. The content hash of its payload tells whether the slot
//! changed at all; an unchanged slot is never applied again.

use crate::hash::{content_hash, content_hash_of};
use crate::lsg::{
    anchor_noted, anchor_restored, binding_at, binding_noted, binding_restored, binding_set,
    bindings_indexed, bound_by, edge_noted, edge_restored, first_binding, found, lemma_binding_at,
    lemma_binding_removed_valid, lemma_binding_set_valid, lemma_binds, lemma_edited_valid,
    lemma_noted_valid, lemma_other_bindings, names, tag_added, tag_noted, tag_restored, vf_noted,
    vf_restored, vf_set, vf_value, with_binding, without_binding, without_id, without_tag, Anchor,
    AnchorView, Edge, EdgeView, EntityId, EntityView, Lsg, LsgView, TelemetryBinding,
    TelemetryBindingView, VfValue, VfValueView,
};
use crate::model::{group_models, views};
use crate::overridden::OverriddenView;
use crate::table::IdSet;
use crate::text::{cat, cat3, hex16_of, lemma_hex16_distinct};
use vstd::hash_map::StringHashMap;
use vstd::prelude::*;
use vstd::string::*;
use vstd::utf8::encode_utf8;

verus! {

/// A single durable edit.
#[derive(Debug, PartialEq)]
pub enum Opinion {
    /// Sets a telemetry binding of an entity.
    Binding { entity: EntityId, binding: TelemetryBinding },
    /// Adds a tag to an entity.
    Tag { entity: EntityId, tag: String },
    /// Sets a metadata key of an entity.
    Meta { entity: EntityId, key: String, value: String },
    /// An anchor point.
    Anchor(Anchor),
    /// An edge.
    Edge(Edge),
}

pub enum OpinionView {
    Binding { entity: EntityId, binding: TelemetryBindingView },
    Tag { entity: EntityId, tag: Seq<char> },
    Meta { entity: EntityId, key: Seq<char>, value: Seq<char> },
    Anchor(AnchorView),
    Edge(EdgeView),
}

impl View for Opinion {
    type V = OpinionView;

    open spec fn view(&self) -> OpinionView {
        match self {
            Opinion::Binding { entity, binding } => OpinionView::Binding {
                entity: *entity,
                binding: binding@,
            },
            Opinion::Tag { entity, tag } => OpinionView::Tag { entity: *entity, tag: tag@ },
            Opinion::Meta { entity, key, value } => OpinionView::Meta {
                entity: *entity,
                key: key@,
                value: value@,
            },
            Opinion::Anchor(a) => OpinionView::Anchor(a@),
            Opinion::Edge(e) => OpinionView::Edge(e@),
        }
    }
}

impl Clone for Opinion {
    fn clone(&self) -> (o: Self)
        ensures
            o@ == self@,
    {
        match self {
            Opinion::Binding { entity, binding } => Opinion::Binding {
                entity: *entity,
                binding: binding.clone(),
            },
            Opinion::Tag { entity, tag } => Opinion::Tag { entity: *entity, tag: tag.clone() },
            Opinion::Meta { entity, key, value } => Opinion::Meta {
                entity: *entity,
                key: key.clone(),
                value: value.clone(),
            },
            Opinion::Anchor(a) => Opinion::Anchor(a.clone()),
            Opinion::Edge(e) => Opinion::Edge(e.clone()),
        }
    }
}

impl OpinionView {
    /// The name of the slot that an opinion fills.
    pub open spec fn key(self) -> Seq<char> {
        match self {
            OpinionView::Binding { entity, binding } => "bind:"@ + hex16_of(entity.0) + (":"@
                + binding.attribute),
            OpinionView::Tag { entity, tag } => "tag:"@ + hex16_of(entity.0) + (":"@ + tag),
            OpinionView::Meta { entity, key, .. } => "meta:"@ + hex16_of(entity.0) + (":"@ + key),
            OpinionView::Anchor(a) => "anchor:"@ + hex16_of(a.id.0),
            OpinionView::Edge(e) => "edge:"@ + hex16_of(e.id.0),
        }
    }

    /// What sort of opinion it is.
    pub open spec fn kind(self) -> Seq<char> {
        match self {
            OpinionView::Binding { .. } => "binding"@,
            OpinionView::Tag { .. } => "tag"@,
            OpinionView::Meta { .. } => "meta"@,
            OpinionView::Anchor(_) => "anchor"@,
            OpinionView::Edge(_) => "edge"@,
        }
    }

    /// The entity that it touches; for an edge, the one that it starts from.
    pub open spec fn primary_entity(self) -> EntityId {
        match self {
            OpinionView::Binding { entity, .. } => entity,
            OpinionView::Tag { entity, .. } => entity,
            OpinionView::Meta { entity, .. } => entity,
            OpinionView::Anchor(a) => a.entity,
            OpinionView::Edge(e) => e.from.0,
        }
    }
}

impl Opinion {
    /// The name of the slot that the opinion fills. The same key in two
    /// compilations is the same logical opinion.
    pub fn key(&self) -> (s: String)
        ensures
            s@ == self@.key(),
    {
        match self {
            Opinion::Binding { entity, binding } => cat3(
                "bind:",
                entity.as_hex().as_str(),
                cat(":", binding.attribute.as_str()).as_str(),
            ),
            Opinion::Tag { entity, tag } => cat3(
                "tag:",
                entity.as_hex().as_str(),
                cat(":", tag.as_str()).as_str(),
            ),
            Opinion::Meta { entity, key, .. } => cat3(
                "meta:",
                entity.as_hex().as_str(),
                cat(":", key.as_str()).as_str(),
            ),
            Opinion::Anchor(a) => cat("anchor:", a.id.as_hex().as_str()),
            Opinion::Edge(e) => cat("edge:", e.id.as_hex().as_str()),
        }
    }

    /// What sort of opinion it is, as stored beside it.
    pub fn kind(&self) -> (s: &'static str)
        ensures
            s@ == self@.kind(),
    {
        match self {
            Opinion::Binding { .. } => "binding",
            Opinion::Tag { .. } => "tag",
            Opinion::Meta { .. } => "meta",
            Opinion::Anchor(_) => "anchor",
            Opinion::Edge(_) => "edge",
        }
    }

    /// The entity that the opinion touches.
    pub fn primary_entity(&self) -> (id: EntityId)
        ensures
            id == self@.primary_entity(),
    {
        match self {
            Opinion::Binding { entity, .. } => *entity,
            Opinion::Tag { entity, .. } => *entity,
            Opinion::Meta { entity, .. } => *entity,
            Opinion::Anchor(a) => a.entity,
            Opinion::Edge(e) => e.from.0,
        }
    }
}

/// An opinion with its payload as it is written down.
#[derive(Debug)]
pub struct StoredOpinion {
    pub opinion: Opinion,
    /// The whole opinion as JSON text.
    pub payload_json: String,
}

pub struct StoredOpinionView {
    pub opinion: OpinionView,
    pub payload_json: Seq<char>,
}

impl View for StoredOpinion {
    type V = StoredOpinionView;

    open spec fn view(&self) -> StoredOpinionView {
        StoredOpinionView { opinion: self.opinion@, payload_json: self.payload_json@ }
    }
}

impl Clone for StoredOpinion {
    fn clone(&self) -> (o: Self)
        ensures
            o@ == self@,
    {
        StoredOpinion { opinion: self.opinion.clone(), payload_json: self.payload_json.clone() }
    }
}

impl StoredOpinionView {
    pub open spec fn key(self) -> Seq<char> {
        self.opinion.key()
    }

    /// The digest of the payload.
    pub open spec fn hash(self) -> Seq<char> {
        content_hash_of(encode_utf8(self.payload_json))
    }
}

impl StoredOpinion {
    pub fn key(&self) -> (s: String)
        ensures
            s@ == self@.key(),
    {
        self.opinion.key()
    }

    /// The SHA-256 digest of the payload, in hexadecimal. Two opinions with one
    /// key and different hashes are an edit.
    pub fn content_hash(&self) -> (s: String)
        ensures
            s@ == self@.hash(),
    {
        content_hash(self.payload_json.as_str().as_bytes())
    }
}

// ---------------------------------------------------------------------------
// Reload diff.

/// A slot as it was stored: its key and the hash of its payload.
#[derive(Debug)]
pub struct SlotHash {
    pub key: String,
    pub hash: String,
}

pub struct SlotHashView {
    pub key: Seq<char>,
    pub hash: Seq<char>,
}

impl View for SlotHash {
    type V = SlotHashView;

    open spec fn view(&self) -> SlotHashView {
        SlotHashView { key: self.key@, hash: self.hash@ }
    }
}

/// Which slots of a new set of opinions are new, changed, gone or as they were.
#[derive(Debug)]
pub struct OpinionDiff {
    pub added: Vec<String>,
    pub changed: Vec<String>,
    pub removed: Vec<String>,
    pub unchanged: Vec<String>,
}

pub struct OpinionDiffView {
    pub added: Seq<Seq<char>>,
    pub changed: Seq<Seq<char>>,
    pub removed: Seq<Seq<char>>,
    pub unchanged: Seq<Seq<char>>,
}

impl View for OpinionDiff {
    type V = OpinionDiffView;

    open spec fn view(&self) -> OpinionDiffView {
        OpinionDiffView {
            added: views(self.added@),
            changed: views(self.changed@),
            removed: views(self.removed@),
            unchanged: views(self.unchanged@),
        }
    }
}

impl OpinionDiffView {
    /// How many slots moved.
    pub open spec fn touched(self) -> nat {
        self.added.len() + self.changed.len() + self.removed.len()
    }
}

impl OpinionDiff {
    pub fn is_empty(&self) -> (b: bool)
        ensures
            b == (self@.touched() == 0),
    {
        self.added.len() == 0 && self.changed.len() == 0 && self.removed.len() == 0
    }

    /// How many slots moved: those added, changed or removed.
    pub fn touched(&self) -> (n: usize)
        requires
            self@.touched() <= usize::MAX,
        ensures
            n == self@.touched(),
    {
        self.added.len() + self.changed.len() + self.removed.len()
    }
}

/// The slots of stored opinions.
pub open spec fn slots_of(ops: Seq<StoredOpinionView>) -> Seq<SlotHashView> {
    ops.map_values(|o: StoredOpinionView| SlotHashView { key: o.key(), hash: o.hash() })
}

pub open spec fn keys_of(slots: Seq<SlotHashView>) -> Seq<Seq<char>> {
    slots.map_values(|s: SlotHashView| s.key)
}

/// The hash that each key was stored with; of two slots with one key the later
/// counts.
pub open spec fn hash_map_of(slots: Seq<SlotHashView>) -> Map<Seq<char>, Seq<char>>
    decreases slots.len(),
{
    if slots.len() == 0 {
        Map::empty()
    } else {
        hash_map_of(slots.drop_last()).insert(slots.last().key, slots.last().hash)
    }
}

/// The last slot of each key, in order.
pub open spec fn last_of_each(slots: Seq<SlotHashView>) -> Seq<SlotHashView>
    decreases slots.len(),
{
    if slots.len() == 0 {
        Seq::empty()
    } else {
        let rest = slots.drop_first();
        if keys_of(rest).contains(slots[0].key) {
            last_of_each(rest)
        } else {
            seq![slots[0]] + last_of_each(rest)
        }
    }
}

/// The diff of new slots against the stored ones. Of two new slots with one key
/// the later counts.
pub open spec fn diff_of(new: Seq<SlotHashView>, prev: Seq<SlotHashView>) -> OpinionDiffView {
    compared(last_of_each(new), prev)
}

/// New slots, each sorted by what is stored under its key.
pub open spec fn compared(new: Seq<SlotHashView>, prev: Seq<SlotHashView>) -> OpinionDiffView {
    let stored = hash_map_of(prev);
    OpinionDiffView {
        added: keys_of(new.filter(|s: SlotHashView| !stored.contains_key(s.key))),
        changed: keys_of(
            new.filter(
                |s: SlotHashView| stored.contains_key(s.key) && stored[s.key] != s.hash,
            ),
        ),
        removed: keys_of(prev.filter(|s: SlotHashView| !keys_of(new).contains(s.key))),
        unchanged: keys_of(
            new.filter(
                |s: SlotHashView| stored.contains_key(s.key) && stored[s.key] == s.hash,
            ),
        ),
    }
}

proof fn lemma_filter_step(s: Seq<SlotHashView>, i: int, f: spec_fn(SlotHashView) -> bool)
    requires
        0 <= i < s.len(),
    ensures
        keys_of(s.take(i + 1).filter(f)) == if f(s[i]) {
            keys_of(s.take(i).filter(f)).push(s[i].key)
        } else {
            keys_of(s.take(i).filter(f))
        },
{
    reveal(Seq::filter);
    assert(s.take(i + 1).drop_last() =~= s.take(i));
    assert(s.take(i + 1).last() == s[i]);
    if f(s[i]) {
        assert(keys_of(s.take(i).filter(f).push(s[i])) =~= keys_of(s.take(i).filter(f)).push(
            s[i].key,
        ));
    }
}

proof fn lemma_filter_none(s: Seq<SlotHashView>, f: spec_fn(SlotHashView) -> bool)
    ensures
        keys_of(s.take(0).filter(f)) == Seq::<Seq<char>>::empty(),
{
    reveal(Seq::filter);
    assert(s.take(0) =~= Seq::empty());
    assert(keys_of(s.take(0).filter(f)) =~= Seq::<Seq<char>>::empty());
}

/// The slots that opinions fill.
pub fn slots(ops: &[StoredOpinion]) -> (r: Vec<SlotHash>)
    ensures
        views(r@) == slots_of(views(ops@)),
{
    broadcast use group_models;

    let ghost all = slots_of(views(ops@));
    let mut r: Vec<SlotHash> = Vec::new();
    let mut i: usize = 0;
    proof {
        assert(views(r@) =~= all.take(0));
    }
    while i < ops.len()
        invariant
            i <= ops@.len(),
            all == slots_of(views(ops@)),
            views(r@) == all.take(i as int),
        decreases ops@.len() - i,
    {
        r.push(SlotHash { key: ops[i].key(), hash: ops[i].content_hash() });
        i = i + 1;
        proof {
            assert(all.take(i as int) =~= all.take(i - 1).push(all[i - 1]));
        }
    }
    proof {
        assert(all.take(i as int) =~= all);
    }
    r
}

/// The last slot of each key, in order.
fn last_slots(slots: &[SlotHash]) -> (r: Vec<SlotHash>)
    ensures
        views(r@) == last_of_each(views(slots@)),
{
    broadcast use group_models;

    let ghost all = views(slots@);
    let latest = latest_positions(slots);
    let mut r: Vec<SlotHash> = Vec::new();
    let mut i: usize = 0;
    proof {
        assert(all.skip(0) =~= all);
        assert(views(r@) + last_of_each(all) =~= last_of_each(all));
    }
    while i < slots.len()
        invariant
            i <= slots@.len(),
            all == views(slots@),
            latest_map_ok(latest@, all, all.len() as int),
            views(r@) + last_of_each(all.skip(i as int)) == last_of_each(all),
        decreases slots@.len() - i,
    {
        let key = &slots[i].key;
        let last = match latest.get(key.as_str()) {
            Some(at) => *at == i,
            None => false,
        };
        let ghost rest = all.skip(i as int).drop_first();
        proof {
            assert(rest =~= all.skip(i + 1));
            assert(all.skip(i as int)[0] == all[i as int]);
            assert(all[i as int] == slots@[i as int]@);
            assert(latest@.contains_key(all[i as int].key));
            if last {
                if keys_of(rest).contains(key@) {
                    let x = choose|x: int| 0 <= x < keys_of(rest).len() && keys_of(rest)[x] == key@;
                    assert(rest[x] == all[i + 1 + x]);
                    assert(all[i + 1 + x].key == key@);
                }
            } else {
                let at = latest@[key@] as int;
                assert(all[at].key == key@);
                assert(at > i);
                assert(keys_of(rest)[at - i - 1] == key@);
            }
        }
        let ghost r0 = views(r@);
        if last {
            r.push(SlotHash { key: slots[i].key.clone(), hash: slots[i].hash.clone() });
            proof {
                let tail = last_of_each(rest);
                assert(r0 + (seq![all[i as int]] + tail) =~= views(r@) + tail);
            }
        }
        i = i + 1;
    }
    proof {
        assert(all.skip(i as int) =~= Seq::empty());
        assert(views(r@) + last_of_each(all.skip(i as int)) =~= views(r@));
    }
    r
}

/// Compares the slots of a new set with those that are stored. Of two new slots
/// with one key the later counts.
pub fn diff_slots(new: &[SlotHash], prev: &[SlotHash]) -> (out: OpinionDiff)
    requires
        keys_of(views(prev@)).no_duplicates(),
    ensures
        out@ == diff_of(views(new@), views(prev@)),
{
    compare(&last_slots(new), prev)
}

fn compare(new: &[SlotHash], prev: &[SlotHash]) -> (out: OpinionDiff)
    ensures
        out@ == compared(views(new@), views(prev@)),
{
    broadcast use group_models;

    let ghost n = views(new@);
    let ghost p = views(prev@);
    let ghost stored = hash_map_of(p);
    let ghost fa = |s: SlotHashView| !stored.contains_key(s.key);
    let ghost fc = |s: SlotHashView| stored.contains_key(s.key) && stored[s.key] != s.hash;
    let ghost fu = |s: SlotHashView| stored.contains_key(s.key) && stored[s.key] == s.hash;
    let ghost fr = |s: SlotHashView| !keys_of(n).contains(s.key);

    let mut hashes: StringHashMap<String> = StringHashMap::new();
    let mut i: usize = 0;
    while i < prev.len()
        invariant
            i <= prev@.len(),
            p == views(prev@),
            forall|k: Seq<char>| #[trigger]
                hashes@.contains_key(k) <==> hash_map_of(p.take(i as int)).contains_key(k),
            forall|k: Seq<char>| #[trigger]
                hashes@.contains_key(k) ==> hashes@[k]@ == hash_map_of(p.take(i as int))[k],
        decreases prev@.len() - i,
    {
        hashes.insert(prev[i].key.clone(), prev[i].hash.clone());
        i = i + 1;
        proof {
            assert(p.take(i as int).drop_last() =~= p.take(i - 1));
            assert(p.take(i as int).last() == prev@[i - 1]@);
        }
    }
    proof {
        assert(p.take(i as int) =~= p);
    }

    let mut out = OpinionDiff {
        added: Vec::new(),
        changed: Vec::new(),
        removed: Vec::new(),
        unchanged: Vec::new(),
    };
    let mut new_keys: StringHashMap<()> = StringHashMap::new();
    proof {
        lemma_filter_none(n, fa);
        lemma_filter_none(n, fc);
        lemma_filter_none(n, fu);
        lemma_filter_none(p, fr);
        assert(views(out.added@) =~= Seq::<Seq<char>>::empty());
        assert(keys_of(n).take(0) =~= Seq::<Seq<char>>::empty());
    }
    let mut j: usize = 0;
    while j < new.len()
        invariant
            j <= new@.len(),
            n == views(new@),
            fa == (|s: SlotHashView| !stored.contains_key(s.key)),
            fc == (|s: SlotHashView| stored.contains_key(s.key) && stored[s.key] != s.hash),
            fu == (|s: SlotHashView| stored.contains_key(s.key) && stored[s.key] == s.hash),
            forall|k: Seq<char>| #[trigger]
                hashes@.contains_key(k) <==> stored.contains_key(k),
            forall|k: Seq<char>| #[trigger]
                hashes@.contains_key(k) ==> hashes@[k]@ == stored[k],
            views(out.added@) == keys_of(n.take(j as int).filter(fa)),
            views(out.changed@) == keys_of(n.take(j as int).filter(fc)),
            views(out.unchanged@) == keys_of(n.take(j as int).filter(fu)),
            views(out.removed@) == Seq::<Seq<char>>::empty(),
            forall|k: Seq<char>| #[trigger]
                new_keys@.contains_key(k) <==> keys_of(n).take(j as int).contains(k),
        decreases new@.len() - j,
    {
        let key = new[j].key.clone();
        let hash = new[j].hash.clone();
        proof {
            lemma_filter_step(n, j as int, fa);
            lemma_filter_step(n, j as int, fc);
            lemma_filter_step(n, j as int, fu);
            assert(n[j as int].key == key@);
            assert(n[j as int].hash == hash@);
        }
        match hashes.get(key.as_str()) {
            None => {
                out.added.push(key.clone());
            },
            Some(stored_hash) => {
                if *stored_hash == hash {
                    out.unchanged.push(key.clone());
                } else {
                    out.changed.push(key.clone());
                }
            },
        }
        let ghost before = new_keys@;
        new_keys.insert(key, ());
        proof {
            let a = keys_of(n).take(j as int);
            let b = keys_of(n).take(j + 1);
            assert(b =~= a.push(key@));
            assert forall|k: Seq<char>| #[trigger]
                new_keys@.contains_key(k) <==> b.contains(k) by {
                if a.contains(k) {
                    let x = choose|x: int| 0 <= x < a.len() && a[x] == k;
                    assert(b[x] == k);
                }
                if b.contains(k) {
                    let x = choose|x: int| 0 <= x < b.len() && b[x] == k;
                    if x < a.len() {
                        assert(a[x] == k);
                    }
                }
                assert(b[j as int] == key@);
                assert(before.contains_key(k) <==> a.contains(k));
            }
        }
        j = j + 1;
    }
    proof {
        assert(n.take(j as int) =~= n);
        assert(keys_of(n).take(j as int) =~= keys_of(n));
    }
    let mut m: usize = 0;
    while m < prev.len()
        invariant
            m <= prev@.len(),
            p == views(prev@),
            fr == (|s: SlotHashView| !keys_of(n).contains(s.key)),
            views(out.removed@) == keys_of(p.take(m as int).filter(fr)),
            views(out.added@) == keys_of(n.filter(fa)),
            views(out.changed@) == keys_of(n.filter(fc)),
            views(out.unchanged@) == keys_of(n.filter(fu)),
            forall|k: Seq<char>| #[trigger]
                new_keys@.contains_key(k) <==> keys_of(n).contains(k),
        decreases prev@.len() - m,
    {
        proof {
            lemma_filter_step(p, m as int, fr);
            assert(p[m as int] == prev@[m as int]@);
        }
        if !new_keys.contains_key(prev[m].key.as_str()) {
            out.removed.push(prev[m].key.clone());
        }
        m = m + 1;
    }
    proof {
        assert(p.take(m as int) =~= p);
    }
    out
}

/// Compares a freshly compiled set of opinions with the stored slots.
pub fn diff(new: &[StoredOpinion], prev: &[SlotHash]) -> (out: OpinionDiff)
    requires
        keys_of(views(prev@)).no_duplicates(),
    ensures
        out@ == diff_of(slots_of(views(new@)), views(prev@)),
{
    diff_slots(&slots(new), prev)
}

// ---------------------------------------------------------------------------
// Applying opinions.

/// What one opinion does to the index, and whether it changes anything: it fills
/// its slot, and what stood there is noted where no opinion had filled it before.
pub open spec fn applied_one(v: LsgView, op: OpinionView) -> (LsgView, bool) {
    match op {
        OpinionView::Binding { entity, binding } => binding_set(
            binding_noted(v, entity, binding.attribute),
            entity,
            binding,
        ),
        OpinionView::Tag { entity, tag } => tag_added(tag_noted(v, entity, tag), entity, tag),
        OpinionView::Meta { entity, key, value } => vf_set(
            vf_noted(v, entity, key),
            entity,
            key,
            VfValueView::Text(value),
        ),
        OpinionView::Anchor(a) => {
            let w = anchor_noted(v, a.id);
            (LsgView { anchors: w.anchors.insert(a.id.0, a), ..w }, true)
        },
        OpinionView::Edge(e) => {
            let w = edge_noted(v, e.id);
            (LsgView { edges: w.edges.insert(e.id.0, e), ..w }, true)
        },
    }
}

/// What taking one opinion back does, and whether it changes anything: what stood in
/// its slot before opinions stands there again.
pub open spec fn unapplied_one(v: LsgView, op: OpinionView) -> (LsgView, bool) {
    match op {
        OpinionView::Binding { entity, binding } => binding_restored(
            v,
            entity,
            binding.attribute,
        ),
        OpinionView::Tag { entity, tag } => tag_restored(v, entity, tag),
        OpinionView::Meta { entity, key, .. } => vf_restored(v, entity, key),
        OpinionView::Anchor(a) => anchor_restored(v, a.id),
        OpinionView::Edge(e) => edge_restored(v, e.id),
    }
}

/// The set of touched entities with that of an opinion that changed something.
pub open spec fn touched_with(t: Set<u64>, op: OpinionView, changed: bool) -> Set<u64> {
    if changed {
        t.insert(op.primary_entity().0)
    } else {
        t
    }
}

/// Opinions applied one after the other, and the entities that they touch.
pub open spec fn applied(v: LsgView, ops: Seq<OpinionView>) -> (LsgView, Set<u64>)
    decreases ops.len(),
{
    if ops.len() == 0 {
        (v, Set::empty())
    } else {
        let (w, t) = applied(v, ops.drop_last());
        let (x, changed) = applied_one(w, ops.last());
        (x, touched_with(t, ops.last(), changed))
    }
}

/// Opinions taken back one after the other, and the entities that that touches.
pub open spec fn unapplied(v: LsgView, ops: Seq<OpinionView>) -> (LsgView, Set<u64>)
    decreases ops.len(),
{
    if ops.len() == 0 {
        (v, Set::empty())
    } else {
        let (w, t) = unapplied(v, ops.drop_last());
        let (x, changed) = unapplied_one(w, ops.last());
        (x, touched_with(t, ops.last(), changed))
    }
}

/// One revision later, where something happened.
pub open spec fn revised(v: LsgView, happened: bool) -> LsgView {
    if happened {
        LsgView { revision: (v.revision + 1) as u64, ..v }
    } else {
        v
    }
}

/// The distinct entities that opinions are about.
pub open spec fn entities_of(ops: Seq<OpinionView>) -> Set<u64>
    decreases ops.len(),
{
    if ops.len() == 0 {
        Set::empty()
    } else {
        entities_of(ops.drop_last()).insert(ops.last().primary_entity().0)
    }
}

/// The distinct entities that opinions are about.
pub fn touched_entities(opinions: &[Opinion]) -> (r: IdSet)
    ensures
        r@ == entities_of(views(opinions@)),
{
    let mut r = IdSet::new();
    let mut i: usize = 0;
    while i < opinions.len()
        invariant
            i <= opinions@.len(),
            r@ == entities_of(views(opinions@).take(i as int)),
        decreases opinions@.len() - i,
    {
        r.insert(opinions[i].primary_entity().0);
        i = i + 1;
        proof {
            let ops = views(opinions@);
            assert(ops.take(i as int).drop_last() =~= ops.take(i - 1));
            assert(ops.take(i as int).last() == opinions@[i - 1]@);
        }
    }
    proof {
        assert(views(opinions@).take(i as int) =~= views(opinions@));
    }
    r
}

fn apply_one(lsg: &mut Lsg, op: &Opinion) -> (changed: bool)
    requires
        old(lsg).wf(),
    ensures
        final(lsg).wf(),
        (final(lsg)@, changed) == applied_one(old(lsg)@, op@),
{
    match op {
        Opinion::Binding { entity, binding } => {
            lsg.note_binding(*entity, binding.attribute.as_str());
            lsg.upsert_binding(*entity, binding.clone())
        },
        Opinion::Tag { entity, tag } => {
            lsg.note_tag(*entity, tag.as_str());
            lsg.add_tag(*entity, tag.as_str())
        },
        Opinion::Meta { entity, key, value } => {
            lsg.note_vf(*entity, key.as_str());
            lsg.set_vf(*entity, key.as_str(), VfValue::Text(value.clone()))
        },
        Opinion::Anchor(a) => {
            lsg.note_anchor(a.id);
            lsg.insert_anchor(a.clone());
            true
        },
        Opinion::Edge(e) => {
            lsg.note_edge(e.id);
            lsg.insert_edge(e.clone());
            true
        },
    }
}

fn unapply_one(lsg: &mut Lsg, op: &Opinion) -> (changed: bool)
    requires
        old(lsg).wf(),
    ensures
        final(lsg).wf(),
        (final(lsg)@, changed) == unapplied_one(old(lsg)@, op@),
{
    match op {
        Opinion::Binding { entity, binding } => lsg.restore_binding(
            *entity,
            binding.attribute.as_str(),
        ),
        Opinion::Tag { entity, tag } => lsg.restore_tag(*entity, tag.as_str()),
        Opinion::Meta { entity, key, .. } => lsg.restore_vf(*entity, key.as_str()),
        Opinion::Anchor(a) => lsg.restore_anchor(a.id),
        Opinion::Edge(e) => lsg.restore_edge(e.id),
    }
}

/// Applies opinions to the index in place, as one revision. Returns the entities
/// whose records changed.
pub fn apply(lsg: &mut Lsg, opinions: &[Opinion]) -> (touched: IdSet)
    requires
        old(lsg).wf(),
        old(lsg)@.revision < u64::MAX,
    ensures
        final(lsg).wf(),
        touched@ == applied(old(lsg)@, views(opinions@)).1,
        final(lsg)@ == revised(
            applied(old(lsg)@, views(opinions@)).0,
            opinions@.len() > 0,
        ),
{
    let mut touched = IdSet::new();
    let mut i: usize = 0;
    while i < opinions.len()
        invariant
            i <= opinions@.len(),
            lsg.wf(),
            (lsg@, touched@) == applied(old(lsg)@, views(opinions@).take(i as int)),
            lsg@.revision == old(lsg)@.revision,
        decreases opinions@.len() - i,
    {
        let changed = apply_one(lsg, &opinions[i]);
        if changed {
            touched.insert(opinions[i].primary_entity().0);
        }
        i = i + 1;
        proof {
            let ops = views(opinions@);
            assert(ops.take(i as int).drop_last() =~= ops.take(i - 1));
            assert(ops.take(i as int).last() == opinions@[i - 1]@);
        }
    }
    proof {
        assert(views(opinions@).take(i as int) =~= views(opinions@));
    }
    if opinions.len() > 0 {
        lsg.bump_revision();
    }
    touched
}

/// Reverses [`apply`]: takes opinions back, as one revision where that changes
/// anything. What they overrode stands again; one that was never applied leaves all
/// as it is. Returns the entities whose records changed.
pub fn unapply(lsg: &mut Lsg, opinions: &[Opinion]) -> (touched: IdSet)
    requires
        old(lsg).wf(),
        old(lsg)@.revision < u64::MAX,
    ensures
        final(lsg).wf(),
        touched@ == unapplied(old(lsg)@, views(opinions@)).1,
        final(lsg)@ == revised(
            unapplied(old(lsg)@, views(opinions@)).0,
            touched@.len() > 0,
        ),
{
    let mut touched = IdSet::new();
    let mut i: usize = 0;
    while i < opinions.len()
        invariant
            i <= opinions@.len(),
            lsg.wf(),
            (lsg@, touched@) == unapplied(old(lsg)@, views(opinions@).take(i as int)),
            lsg@.revision == old(lsg)@.revision,
        decreases opinions@.len() - i,
    {
        let changed = unapply_one(lsg, &opinions[i]);
        if changed {
            touched.insert(opinions[i].primary_entity().0);
        }
        i = i + 1;
        proof {
            let ops = views(opinions@);
            assert(ops.take(i as int).drop_last() =~= ops.take(i - 1));
            assert(ops.take(i as int).last() == opinions@[i - 1]@);
        }
    }
    proof {
        assert(views(opinions@).take(i as int) =~= views(opinions@));
    }
    if !touched.is_empty() {
        lsg.bump_revision();
    }
    touched
}

// ---------------------------------------------------------------------------
// Reconciling.

/// No later slot has the same key.
pub open spec fn is_latest(slots: Seq<SlotHashView>, i: int) -> bool {
    forall|j: int| i < j < slots.len() ==> (#[trigger] slots[j]).key != slots[i].key
}

/// A new slot is to be applied: it is the latest of its key, and was not there
/// before with the same hash.
pub open spec fn is_due(prev: Seq<SlotHashView>, new: Seq<SlotHashView>, i: int) -> bool {
    let stored = hash_map_of(prev);
    is_latest(new, i) && !(stored.contains_key(new[i].key) && stored[new[i].key] == new[i].hash)
}

/// An old slot is to be taken back: it is the latest of its key, and is not there
/// any more.
pub open spec fn is_gone(prev: Seq<SlotHashView>, new: Seq<SlotHashView>, i: int) -> bool {
    is_latest(prev, i) && !hash_map_of(new).contains_key(prev[i].key)
}

/// The positions below `n` that a test holds of, in order.
pub open spec fn positions(n: nat, f: spec_fn(int) -> bool) -> Seq<int> {
    Seq::new(n, |i: int| i).filter(f)
}

/// The opinions at the positions that a test holds of, in order.
pub open spec fn picked(ops: Seq<StoredOpinionView>, f: spec_fn(int) -> bool) -> Seq<OpinionView> {
    positions(ops.len(), f).map_values(|i: int| ops[i].opinion)
}

/// The new opinions whose slots are new or changed.
pub open spec fn to_apply(
    prev: Seq<StoredOpinionView>,
    new: Seq<StoredOpinionView>,
) -> Seq<OpinionView> {
    picked(new, |i: int| is_due(slots_of(prev), slots_of(new), i))
}

/// The old opinions whose slots are gone.
pub open spec fn to_remove(
    prev: Seq<StoredOpinionView>,
    new: Seq<StoredOpinionView>,
) -> Seq<OpinionView> {
    picked(prev, |i: int| is_gone(slots_of(prev), slots_of(new), i))
}

/// What [`reconcile`] makes of an index, and the entities that it touches.
pub open spec fn reconciled(
    v: LsgView,
    prev: Seq<StoredOpinionView>,
    new: Seq<StoredOpinionView>,
) -> (LsgView, Set<u64>) {
    let (v1, t1) = applied(v, to_apply(prev, new));
    let v2 = revised(v1, to_apply(prev, new).len() > 0);
    let (v3, t2) = unapplied(v2, to_remove(prev, new));
    (revised(v3, t2.len() > 0), t1.union(t2))
}

/// A table has the position of the latest of the first `n` slots with each key.
pub open spec fn latest_map_ok(m: Map<Seq<char>, usize>, ops: Seq<SlotHashView>, n: int) -> bool {
    &&& forall|j: int| 0 <= j < n ==> m.contains_key((#[trigger] ops[j]).key)
    &&& forall|k: Seq<char>| #[trigger]
        m.contains_key(k) ==> {
            &&& m[k] < n
            &&& ops[m[k] as int].key == k
            &&& forall|j: int| m[k] < j < n ==> (#[trigger] ops[j]).key != k
        }
}

/// The position of the latest slot of each key.
pub fn latest_positions(ops: &[SlotHash]) -> (m: StringHashMap<usize>)
    ensures
        latest_map_ok(m@, views(ops@), ops@.len() as int),
{
    let mut m: StringHashMap<usize> = StringHashMap::new();
    let mut i: usize = 0;
    while i < ops.len()
        invariant
            i <= ops@.len(),
            latest_map_ok(m@, views(ops@), i as int),
        decreases ops@.len() - i,
    {
        let key = ops[i].key.clone();
        m.insert(key, i);
        i = i + 1;
    }
    m
}

/// What the table of latest positions says about hashes.
proof fn lemma_slot_hashes(ops: Seq<SlotHashView>, m: Map<Seq<char>, usize>, n: int)
    requires
        0 <= n <= ops.len(),
        latest_map_ok(m, ops, n),
    ensures
        forall|k: Seq<char>| #[trigger]
            m.contains_key(k) <==> hash_map_of(ops.take(n)).contains_key(k),
        forall|k: Seq<char>| #[trigger]
            m.contains_key(k) ==> hash_map_of(ops.take(n))[k] == ops[m[k] as int].hash,
    decreases n,
{
    let slots = ops.take(n);
    if n > 0 {
        let last = ops[n - 1];
        assert(slots.drop_last() =~= ops.take(n - 1));
        assert(slots.last().key == last.key);
        let m1 = Map::<Seq<char>, usize>::new(
            |k: Seq<char>| exists|j: int| 0 <= j < n - 1 && (#[trigger] ops[j]).key == k,
            |k: Seq<char>|
                if m[k] < n - 1 {
                    m[k]
                } else {
                    latest_before(ops, n - 1, k) as usize
                },
        );
        assert forall|k: Seq<char>| #[trigger] m1.contains_key(k) implies {
            &&& m1[k] < n - 1
            &&& ops[m1[k] as int].key == k
            &&& forall|j: int| m1[k] < j < n - 1 ==> (#[trigger] ops[j]).key != k
        } by {
            let j = choose|j: int| 0 <= j < n - 1 && (#[trigger] ops[j]).key == k;
            assert(m.contains_key(ops[j].key));
            if m[k] >= n - 1 {
                lemma_latest_before(ops, n - 1, k, j);
            }
        }
        assert(latest_map_ok(m1, ops, n - 1));
        lemma_slot_hashes(ops, m1, n - 1);
        assert(m.contains_key(ops[n - 1].key));
        assert forall|k: Seq<char>| #[trigger] m.contains_key(k) <==> hash_map_of(
            ops.take(n),
        ).contains_key(k) by {
            if m.contains_key(k) && k != last.key {
                assert(ops[m[k] as int].key == k);
                assert(m1.contains_key(k));
            }
            if hash_map_of(ops.take(n)).contains_key(k) && k != last.key {
                assert(m1.contains_key(k));
                let j = choose|j: int| 0 <= j < n - 1 && (#[trigger] ops[j]).key == k;
                assert(m.contains_key(ops[j].key));
            }
        }
        assert forall|k: Seq<char>| #[trigger] m.contains_key(k) implies hash_map_of(
            ops.take(n),
        )[k] == ops[m[k] as int].hash by {
            if k == last.key {
                assert(m[k] == n - 1);
            } else {
                assert(ops[m[k] as int].key == k);
                assert(m1.contains_key(k));
                assert(m1[k] == m[k]);
            }
        }
    }
}

/// The latest position before `n` with a key.
spec fn latest_before(ops: Seq<SlotHashView>, n: int, k: Seq<char>) -> int
    decreases n,
{
    if n <= 0 {
        0
    } else if ops[n - 1].key == k {
        n - 1
    } else {
        latest_before(ops, n - 1, k)
    }
}

proof fn lemma_latest_before(ops: Seq<SlotHashView>, n: int, k: Seq<char>, j: int)
    requires
        0 <= j < n <= ops.len(),
        ops[j].key == k,
    ensures
        0 <= latest_before(ops, n, k) < n,
        ops[latest_before(ops, n, k)].key == k,
        forall|i: int| latest_before(ops, n, k) < i < n ==> (#[trigger] ops[i]).key != k,
    decreases n,
{
    if ops[n - 1].key != k {
        lemma_latest_before(ops, n - 1, k, j);
    }
}

/// The positions below `m` of those below `n` that a test holds of.
spec fn positions_below(n: nat, f: spec_fn(int) -> bool, m: int) -> Seq<int> {
    Seq::new(n, |i: int| i).take(m).filter(f)
}

proof fn lemma_positions_step(n: nat, f: spec_fn(int) -> bool, m: int)
    requires
        0 <= m < n,
    ensures
        positions_below(n, f, m + 1) == if f(m) {
            positions_below(n, f, m).push(m)
        } else {
            positions_below(n, f, m)
        },
{
    reveal(Seq::filter);
    let s = Seq::new(n, |i: int| i);
    assert(s.take(m + 1).drop_last() =~= s.take(m));
    assert(s.take(m + 1).last() == m);
}

proof fn lemma_positions_ends(n: nat, f: spec_fn(int) -> bool)
    ensures
        positions_below(n, f, 0) == Seq::<int>::empty(),
        positions_below(n, f, n as int) == positions(n, f),
{
    reveal(Seq::filter);
    let s = Seq::new(n, |i: int| i);
    assert(s.take(0) =~= Seq::empty());
    assert(s.take(n as int) =~= s);
}

/// Positions rise, and the test holds of each.
proof fn lemma_positions_rise(n: nat, f: spec_fn(int) -> bool, m: int)
    requires
        0 <= m <= n,
    ensures
        forall|i: int|
            0 <= i < positions_below(n, f, m).len() ==> {
                &&& 0 <= #[trigger] positions_below(n, f, m)[i] < m
                &&& f(positions_below(n, f, m)[i])
            },
        forall|i: int, j: int|
            0 <= i < j < positions_below(n, f, m).len() ==> #[trigger] positions_below(
                n,
                f,
                m,
            )[i] < #[trigger] positions_below(n, f, m)[j],
    decreases m,
{
    if m > 0 {
        lemma_positions_rise(n, f, m - 1);
        lemma_positions_step(n, f, m - 1);
    } else {
        lemma_positions_ends(n, f);
    }
}

pub open spec fn as_ints(s: Seq<usize>) -> Seq<int> {
    s.map_values(|i: usize| i as int)
}

/// Finds the new slots that are to be applied.
pub fn due_positions(prev: &[SlotHash], new: &[SlotHash]) -> (r: Vec<usize>)
    ensures
        as_ints(r@) == positions(new@.len(), |i: int| is_due(views(prev@), views(new@), i)),
{
    let ghost p = views(prev@);
    let ghost n = views(new@);
    let ghost f = |i: int| is_due(p, n, i);
    let in_prev = latest_positions(prev);
    let in_new = latest_positions(new);
    let mut r: Vec<usize> = Vec::new();
    proof {
        lemma_slot_hashes(p, in_prev@, p.len() as int);
        assert(p.take(p.len() as int) =~= p);
        lemma_positions_ends(n.len(), f);
        assert(as_ints(r@) =~= Seq::<int>::empty());
    }
    let mut i: usize = 0;
    while i < new.len()
        invariant
            i <= new@.len(),
            p == views(prev@),
            n == views(new@),
            f == (|i: int| is_due(p, n, i)),
            latest_map_ok(in_prev@, p, p.len() as int),
            latest_map_ok(in_new@, n, n.len() as int),
            forall|k: Seq<char>| #[trigger]
                in_prev@.contains_key(k) <==> hash_map_of(p).contains_key(k),
            forall|k: Seq<char>| #[trigger]
                in_prev@.contains_key(k) ==> hash_map_of(p)[k] == p[in_prev@[k] as int].hash,
            as_ints(r@) == positions_below(n.len(), f, i as int),
        decreases new@.len() - i,
    {
        let key = &new[i].key;
        let latest = match in_new.get(key.as_str()) {
            Some(at) => *at == i,
            None => false,
        };
        proof {
            lemma_positions_step(n.len(), f, i as int);
            assert(n[i as int] == new@[i as int]@);
            assert(in_new@.contains_key(n[i as int].key));
            let at = in_new@[key@];
            if at != i {
                assert(n[at as int].key == n[i as int].key);
                assert(at > i);
            }
            assert(latest == is_latest(n, i as int));
        }
        let same = match in_prev.get(key.as_str()) {
            Some(at) => prev[*at].hash == new[i].hash,
            None => false,
        };
        proof {
            if in_prev@.contains_key(key@) {
                assert(p[in_prev@[key@] as int] == prev@[in_prev@[key@] as int]@);
            }
        }
        let ghost r0 = r@;
        if latest && !same {
            r.push(i);
            proof {
                assert(as_ints(r@) =~= as_ints(r0).push(i as int));
            }
        }
        i = i + 1;
    }
    r
}

/// Finds the old slots that are to be taken back.
pub fn gone_positions(prev: &[SlotHash], new: &[SlotHash]) -> (r: Vec<usize>)
    ensures
        as_ints(r@) == positions(prev@.len(), |i: int| is_gone(views(prev@), views(new@), i)),
{
    let ghost p = views(prev@);
    let ghost n = views(new@);
    let ghost f = |i: int| is_gone(p, n, i);
    let in_prev = latest_positions(prev);
    let in_new = latest_positions(new);
    let mut r: Vec<usize> = Vec::new();
    proof {
        lemma_slot_hashes(n, in_new@, n.len() as int);
        assert(n.take(n.len() as int) =~= n);
        lemma_positions_ends(p.len(), f);
        assert(as_ints(r@) =~= Seq::<int>::empty());
    }
    let mut i: usize = 0;
    while i < prev.len()
        invariant
            i <= prev@.len(),
            p == views(prev@),
            n == views(new@),
            f == (|i: int| is_gone(p, n, i)),
            latest_map_ok(in_prev@, p, p.len() as int),
            forall|k: Seq<char>| #[trigger]
                in_new@.contains_key(k) <==> hash_map_of(n).contains_key(k),
            as_ints(r@) == positions_below(p.len(), f, i as int),
        decreases prev@.len() - i,
    {
        let key = &prev[i].key;
        let latest = match in_prev.get(key.as_str()) {
            Some(at) => *at == i,
            None => false,
        };
        proof {
            lemma_positions_step(p.len(), f, i as int);
            assert(p[i as int] == prev@[i as int]@);
            assert(in_prev@.contains_key(p[i as int].key));
            let at = in_prev@[key@];
            if at != i {
                assert(p[at as int].key == p[i as int].key);
                assert(at > i);
            }
            assert(latest == is_latest(p, i as int));
        }
        let ghost r0 = r@;
        if latest && !in_new.contains_key(key.as_str()) {
            r.push(i);
            proof {
                assert(as_ints(r@) =~= as_ints(r0).push(i as int));
            }
        }
        i = i + 1;
    }
    r
}

/// Copies the opinions at some positions.
fn pick(ops: &[StoredOpinion], at: &Vec<usize>) -> (r: Vec<Opinion>)
    requires
        forall|i: int| 0 <= i < at@.len() ==> #[trigger] at@[i] < ops@.len(),
    ensures
        views(r@) == as_ints(at@).map_values(|i: int| views(ops@)[i].opinion),
{
    broadcast use group_models;

    let ghost all = as_ints(at@).map_values(|i: int| views(ops@)[i].opinion);
    let mut r: Vec<Opinion> = Vec::new();
    let mut i: usize = 0;
    proof {
        assert(views(r@) =~= all.take(0));
    }
    while i < at.len()
        invariant
            i <= at@.len(),
            all == as_ints(at@).map_values(|i: int| views(ops@)[i].opinion),
            forall|i: int| 0 <= i < at@.len() ==> #[trigger] at@[i] < ops@.len(),
            views(r@) == all.take(i as int),
        decreases at@.len() - i,
    {
        let k: usize = at[i];
        r.push(ops[k].opinion.clone());
        i = i + 1;
        proof {
            assert(all.take(i as int) =~= all.take(i - 1).push(all[i - 1]));
        }
    }
    proof {
        assert(all.take(i as int) =~= all);
    }
    r
}

fn changed_opinions(prev: &[StoredOpinion], new: &[StoredOpinion]) -> (r: Vec<Opinion>)
    ensures
        views(r@) == to_apply(views(prev@), views(new@)),
{
    let before = slots(prev);
    let after = slots(new);
    let at = due_positions(&before, &after);
    proof {
        assert(views(after@).len() == views(new@).len());
        let f = |i: int| is_due(slots_of(views(prev@)), slots_of(views(new@)), i);
        let n = new@.len();
        lemma_positions_rise(n, f, n as int);
        lemma_positions_ends(n, f);
        assert forall|i: int| 0 <= i < at@.len() implies #[trigger] at@[i] < new@.len() by {
            assert(as_ints(at@)[i] == at@[i] as int);
            assert(positions_below(n, f, n as int)[i] < n);
        }
    }
    pick(new, &at)
}

fn dropped_opinions(prev: &[StoredOpinion], new: &[StoredOpinion]) -> (r: Vec<Opinion>)
    ensures
        views(r@) == to_remove(views(prev@), views(new@)),
{
    let before = slots(prev);
    let after = slots(new);
    let at = gone_positions(&before, &after);
    proof {
        assert(views(before@).len() == views(prev@).len());
        let f = |i: int| is_gone(slots_of(views(prev@)), slots_of(views(new@)), i);
        let n = prev@.len();
        lemma_positions_rise(n, f, n as int);
        lemma_positions_ends(n, f);
        assert forall|i: int| 0 <= i < at@.len() implies #[trigger] at@[i] < prev@.len() by {
            assert(as_ints(at@)[i] == at@[i] as int);
            assert(positions_below(n, f, n as int)[i] < n);
        }
    }
    pick(prev, &at)
}

/// Brings the index from one set of opinions to another by the smallest patch in
/// place: only added and changed opinions are applied, and only removed ones are
/// taken back, which leaves their slots as authored. Returns the entities whose
/// records changed.
pub fn reconcile(lsg: &mut Lsg, prev: &[StoredOpinion], new: &[StoredOpinion]) -> (touched: IdSet)
    requires
        old(lsg).wf(),
        old(lsg)@.revision < u64::MAX - 1,
    ensures
        final(lsg).wf(),
        (final(lsg)@, touched@) == reconciled(old(lsg)@, views(prev@), views(new@)),
{
    let added = changed_opinions(prev, new);
    let gone = dropped_opinions(prev, new);
    proof {
        lemma_applied_keeps(lsg@, views(added@));
    }
    let mut touched = apply(lsg, &added);
    let removed = unapply(lsg, &gone);
    let ids = removed.items();
    let mut i: usize = 0;
    let ghost before = touched@;
    while i < ids.len()
        invariant
            i <= ids@.len(),
            touched@ == before.union(ids@.take(i as int).to_set()),
        decreases ids@.len() - i,
    {
        touched.insert(ids[i]);
        i = i + 1;
        proof {
            let a = ids@.take(i - 1);
            let b = ids@.take(i as int);
            assert(b =~= a.push(ids@[i - 1]));
            assert(b.to_set() =~= a.to_set().insert(ids@[i - 1])) by {
                assert forall|x: u64| b.contains(x) <==> a.contains(x) || x == ids@[i - 1] by {
                    if a.contains(x) {
                        let j = choose|j: int| 0 <= j < a.len() && a[j] == x;
                        assert(b[j] == x);
                    }
                    if b.contains(x) {
                        let j = choose|j: int| 0 <= j < b.len() && b[j] == x;
                        if j < a.len() {
                            assert(a[j] == x);
                        }
                    }
                    assert(b[i - 1] == ids@[i - 1]);
                }
            }
            assert(touched@ =~= before.union(b.to_set()));
        }
    }
    proof {
        assert(ids@.take(i as int) =~= ids@);
        assert(ids@.to_set() =~= removed@) by {
            assert forall|x: u64| ids@.to_set().contains(x) <==> removed@.contains(x) by {
                assert(ids@.contains(x) <==> removed@.contains(x));
            }
        }
    }
    touched
}

// ---------------------------------------------------------------------------
// What holds of reloads.

/// No opinion gives an entity another id, makes one or drops one, or counts a
/// revision.
pub proof fn lemma_applied_keeps(v: LsgView, ops: Seq<OpinionView>)
    requires
        v.valid(),
    ensures
        applied(v, ops).0.revision == v.revision,
        applied(v, ops).0.entities.dom() == v.entities.dom(),
        applied(v, ops).0.valid(),
        applied(v, ops).1.finite(),
        applied(v, ops).1.subset_of(entities_of(ops)),
    decreases ops.len(),
{
    if ops.len() > 0 {
        lemma_applied_keeps(v, ops.drop_last());
        let w = applied(v, ops.drop_last()).0;
        lemma_one_keeps(w, ops.last());
    }
}

proof fn lemma_unapplied_keeps(v: LsgView, ops: Seq<OpinionView>)
    requires
        v.valid(),
    ensures
        unapplied(v, ops).0.revision == v.revision,
        unapplied(v, ops).0.entities.dom() == v.entities.dom(),
        unapplied(v, ops).0.valid(),
        unapplied(v, ops).1.finite(),
        unapplied(v, ops).1.subset_of(entities_of(ops)),
    decreases ops.len(),
{
    if ops.len() > 0 {
        lemma_unapplied_keeps(v, ops.drop_last());
        let w = unapplied(v, ops.drop_last()).0;
        lemma_one_keeps(w, ops.last());
    }
}

proof fn lemma_one_keeps(v: LsgView, op: OpinionView)
    requires
        v.valid(),
    ensures
        applied_one(v, op).0.revision == v.revision,
        applied_one(v, op).0.entities.dom() == v.entities.dom(),
        applied_one(v, op).0.valid(),
        unapplied_one(v, op).0.revision == v.revision,
        unapplied_one(v, op).0.entities.dom() == v.entities.dom(),
        unapplied_one(v, op).0.valid(),
{
    let a = applied_one(v, op).0;
    let u = unapplied_one(v, op).0;
    assert(a.entities.dom() =~= v.entities.dom());
    assert(u.entities.dom() =~= v.entities.dom());
    match op {
        OpinionView::Binding { entity, binding } => {
            let w = binding_noted(v, entity, binding.attribute);
            if v.has(entity) {
                lemma_binds(v.entities[entity.0].bindings, binding.attribute);
            }
            lemma_noted_valid(v, w);
            lemma_binding_set_valid(w, entity, binding);
            let k = (entity.0, binding.attribute);
            if v.overridden.bindings.contains_key(k) {
                let x = LsgView {
                    overridden: OverriddenView {
                        bindings: v.overridden.bindings.remove(k),
                        ..v.overridden
                    },
                    ..v
                };
                lemma_noted_valid(v, x);
                match v.overridden.bindings[k] {
                    Some(b) => lemma_binding_set_valid(x, entity, b),
                    None => lemma_binding_removed_valid(x, entity, binding.attribute),
                }
            }
        },
        OpinionView::Anchor(_) | OpinionView::Edge(_) => {
            lemma_noted_valid(v, a);
            lemma_noted_valid(v, u);
        },
        _ => {
            lemma_edited_valid(v, a);
            lemma_edited_valid(v, u);
        },
    }
}

/// A reload keeps every entity and its id, and touches only entities of opinions
/// whose slots moved.
pub proof fn law_reload_is_a_patch(
    v: LsgView,
    prev: Seq<StoredOpinionView>,
    new: Seq<StoredOpinionView>,
)
    requires
        v.valid(),
    ensures
        reconciled(v, prev, new).0.entities.dom() == v.entities.dom(),
        reconciled(v, prev, new).0.valid(),
        reconciled(v, prev, new).1.subset_of(
            entities_of(to_apply(prev, new)).union(entities_of(to_remove(prev, new))),
        ),
{
    lemma_applied_keeps(v, to_apply(prev, new));
    let v2 = revised(applied(v, to_apply(prev, new)).0, to_apply(prev, new).len() > 0);
    lemma_unapplied_keeps(v2, to_remove(prev, new));
}

/// One entity is another but for its tags, its fields and its bindings.
pub open spec fn in_place(a: EntityView, b: EntityView) -> bool {
    b == EntityView { tags: b.tags, vf: b.vf, bindings: b.bindings, ..a }
}

/// One index is another but for the touched entities, and those are in place.
pub open spec fn patched(v: LsgView, w: LsgView, touched: Set<u64>) -> bool {
    &&& w.entities.dom() == v.entities.dom()
    &&& forall|k: u64| #[trigger]
        v.entities.contains_key(k) ==> in_place(v.entities[k], w.entities[k])
    &&& forall|k: u64|
        #![trigger w.entities[k]]
        v.entities.contains_key(k) && !touched.contains(k) ==> w.entities[k] == v.entities[k]
}

proof fn lemma_one_patches(v: LsgView, op: OpinionView)
    ensures
        patched(
            v,
            applied_one(v, op).0,
            touched_with(Set::empty(), op, applied_one(v, op).1),
        ),
        patched(
            v,
            unapplied_one(v, op).0,
            touched_with(Set::empty(), op, unapplied_one(v, op).1),
        ),
{
    assert(applied_one(v, op).0.entities.dom() =~= v.entities.dom());
    assert(unapplied_one(v, op).0.entities.dom() =~= v.entities.dom());
}

proof fn lemma_applied_patches(v: LsgView, ops: Seq<OpinionView>)
    ensures
        patched(v, applied(v, ops).0, applied(v, ops).1),
        patched(v, unapplied(v, ops).0, unapplied(v, ops).1),
    decreases ops.len(),
{
    if ops.len() > 0 {
        lemma_applied_patches(v, ops.drop_last());
        let w = applied(v, ops.drop_last()).0;
        let u = unapplied(v, ops.drop_last()).0;
        lemma_one_patches(w, ops.last());
        lemma_one_patches(u, ops.last());
        assert forall|k: u64| #[trigger] v.entities.contains_key(k) implies in_place(
            v.entities[k],
            applied(v, ops).0.entities[k],
        ) && in_place(v.entities[k], unapplied(v, ops).0.entities[k]) by {
            assert(w.entities.dom().contains(k));
            assert(u.entities.dom().contains(k));
            assert(w.entities.contains_key(k));
            assert(u.entities.contains_key(k));
        }
    }
}

/// A reload leaves every entity that it does not touch as it is, and of one that
/// it touches it changes tags, fields and bindings alone: no place, no extents, no
/// handle to geometry.
pub proof fn law_reload_edits_in_place(
    v: LsgView,
    prev: Seq<StoredOpinionView>,
    new: Seq<StoredOpinionView>,
)
    ensures
        patched(v, reconciled(v, prev, new).0, reconciled(v, prev, new).1),
{
    let (v1, t1) = applied(v, to_apply(prev, new));
    let v2 = revised(v1, to_apply(prev, new).len() > 0);
    let (v3, t2) = unapplied(v2, to_remove(prev, new));
    lemma_applied_patches(v, to_apply(prev, new));
    lemma_applied_patches(v2, to_remove(prev, new));
    let w = reconciled(v, prev, new).0;
    assert(w.entities == v3.entities);
    assert forall|k: u64| #[trigger] v.entities.contains_key(k) implies in_place(
        v.entities[k],
        w.entities[k],
    ) by {
        assert(v2.entities.dom().contains(k));
        assert(v2.entities.contains_key(k));
    }
    assert forall|k: u64|
        #![trigger w.entities[k]]
        v.entities.contains_key(k) && !t1.union(t2).contains(k) implies w.entities[k]
        == v.entities[k] by {
        assert(v2.entities.dom().contains(k));
        assert(v2.entities[k] == v.entities[k]);
    }
}

/// A reload that leaves every slot with its hash changes nothing and touches
/// nothing, whatever order the opinions come in.
pub proof fn law_unchanged_reload_touches_nothing(
    v: LsgView,
    prev: Seq<StoredOpinionView>,
    new: Seq<StoredOpinionView>,
)
    requires
        hash_map_of(slots_of(prev)) == hash_map_of(slots_of(new)),
    ensures
        reconciled(v, prev, new) == (v, Set::<u64>::empty()),
{
    let p = slots_of(prev);
    let n = slots_of(new);
    let f = |i: int| is_due(p, n, i);
    let g = |i: int| is_gone(p, n, i);
    assert forall|i: int| 0 <= i < new.len() implies !#[trigger] f(i) by {
        lemma_latest_hash(n, i);
    }
    assert forall|i: int| 0 <= i < prev.len() implies !#[trigger] g(i) by {
        lemma_latest_hash(p, i);
    }
    lemma_no_positions(new.len(), f, new.len() as int);
    lemma_no_positions(prev.len(), g, prev.len() as int);
    lemma_positions_ends(new.len(), f);
    lemma_positions_ends(prev.len(), g);
    assert(to_apply(prev, new) =~= Seq::empty());
    assert(to_remove(prev, new) =~= Seq::empty());
    assert(Set::<u64>::empty().union(Set::empty()) =~= Set::<u64>::empty());
}

/// The latest slot of a key gives the key its hash.
pub proof fn lemma_latest_hash(slots: Seq<SlotHashView>, i: int)
    requires
        0 <= i < slots.len(),
    ensures
        hash_map_of(slots).contains_key(slots[i].key),
        is_latest(slots, i) ==> hash_map_of(slots)[slots[i].key] == slots[i].hash,
    decreases slots.len(),
{
    if i < slots.len() - 1 {
        let init = slots.drop_last();
        lemma_latest_hash(init, i);
        if is_latest(slots, i) {
            assert(is_latest(init, i)) by {
                assert forall|j: int| i < j < init.len() implies (#[trigger] init[j]).key
                    != init[i].key by {
                    assert(slots[j].key != slots[i].key);
                }
            }
            assert(slots[slots.len() - 1].key != slots[i].key);
        }
    }
}

proof fn lemma_no_positions(n: nat, f: spec_fn(int) -> bool, m: int)
    requires
        0 <= m <= n,
        forall|i: int| 0 <= i < n ==> !#[trigger] f(i),
    ensures
        positions_below(n, f, m) == Seq::<int>::empty(),
    decreases m,
{
    if m > 0 {
        lemma_no_positions(n, f, m - 1);
        lemma_positions_step(n, f, m - 1);
    } else {
        lemma_positions_ends(n, f);
    }
}

/// The slot stands at a place after which none has its key.
pub open spec fn stands_last(slots: Seq<SlotHashView>, j: int, s: SlotHashView) -> bool {
    0 <= j < slots.len() && is_latest(slots, j) && slots[j] == s
}

/// The slot is the last of its key.
pub open spec fn is_last(slots: Seq<SlotHashView>, s: SlotHashView) -> bool {
    exists|j: int| #[trigger] stands_last(slots, j, s)
}

proof fn lemma_last_item(slots: Seq<SlotHashView>, i: int) -> (j: int)
    requires
        0 <= i < last_of_each(slots).len(),
    ensures
        0 <= j < slots.len(),
        is_latest(slots, j),
        slots[j] == last_of_each(slots)[i],
    decreases slots.len(),
{
    let rest = slots.drop_first();
    let repeated = keys_of(rest).contains(slots[0].key);
    if !repeated && i == 0 {
        assert forall|y: int| 0 < y < slots.len() implies (#[trigger] slots[y]).key
            != slots[0].key by {
            assert(keys_of(rest)[y - 1] == slots[y].key);
        }
        0
    } else {
        let x = if repeated {
            lemma_last_item(rest, i)
        } else {
            lemma_last_item(rest, i - 1)
        };
        assert forall|y: int| x + 1 < y < slots.len() implies (#[trigger] slots[y]).key != slots[x
            + 1].key by {
            assert(rest[y - 1].key != rest[x].key);
        }
        x + 1
    }
}

proof fn lemma_last_has(slots: Seq<SlotHashView>, j: int)
    requires
        0 <= j < slots.len(),
        is_latest(slots, j),
    ensures
        last_of_each(slots).contains(slots[j]),
    decreases slots.len(),
{
    let rest = slots.drop_first();
    let tail = last_of_each(rest);
    let last = last_of_each(slots);
    let repeated = keys_of(rest).contains(slots[0].key);
    if j == 0 {
        if repeated {
            let x = choose|x: int|
                0 <= x < keys_of(rest).len() && keys_of(rest)[x] == slots[0].key;
            assert(slots[x + 1].key == slots[0].key);
        }
        assert(last[0] == slots[0]);
    } else {
        assert forall|y: int| j - 1 < y < rest.len() implies (#[trigger] rest[y]).key != rest[j
            - 1].key by {
            assert(slots[y + 1].key != slots[j].key);
        }
        lemma_last_has(rest, j - 1);
        let x = choose|x: int| 0 <= x < tail.len() && tail[x] == rest[j - 1];
        assert(last[if repeated {
            x
        } else {
            x + 1
        }] == slots[j]);
    }
}

proof fn lemma_last_distinct(slots: Seq<SlotHashView>, i: int, j: int)
    requires
        0 <= i < j < last_of_each(slots).len(),
    ensures
        last_of_each(slots)[i].key != last_of_each(slots)[j].key,
    decreases slots.len(),
{
    let rest = slots.drop_first();
    if keys_of(rest).contains(slots[0].key) {
        lemma_last_distinct(rest, i, j);
    } else if i > 0 {
        lemma_last_distinct(rest, i - 1, j - 1);
    } else {
        let y = lemma_last_item(rest, j - 1);
        assert(keys_of(rest)[y] == last_of_each(slots)[j].key);
    }
}

/// What stands in the list of the last slots: each key once, and with it the slot
/// that no later one replaces.
pub proof fn lemma_last_of_each(slots: Seq<SlotHashView>)
    ensures
        forall|i: int|
            0 <= i < last_of_each(slots).len() ==> is_last(
                slots,
                #[trigger] last_of_each(slots)[i],
            ),
        forall|j: int|
            0 <= j < slots.len() && is_latest(slots, j) ==> last_of_each(slots).contains(
                #[trigger] slots[j],
            ),
        forall|i: int, j: int|
            0 <= i < j < last_of_each(slots).len() ==> (#[trigger] last_of_each(slots)[i]).key != (
            #[trigger] last_of_each(slots)[j]).key,
{
    let last = last_of_each(slots);
    assert forall|i: int| 0 <= i < last.len() implies is_last(slots, #[trigger] last[i]) by {
        let j = lemma_last_item(slots, i);
        assert(stands_last(slots, j, last[i]));
    }
    assert forall|j: int| 0 <= j < slots.len() && is_latest(slots, j) implies last.contains(
        #[trigger] slots[j],
    ) by {
        lemma_last_has(slots, j);
    }
    assert forall|i: int, j: int| 0 <= i < j < last.len() implies (#[trigger] last[i]).key != (
    #[trigger] last[j]).key by {
        lemma_last_distinct(slots, i, j);
    }
}

/// A key among the slots is a key of one that no later one replaces.
pub proof fn lemma_latest_exists(slots: Seq<SlotHashView>, k: Seq<char>)
    requires
        keys_of(slots).contains(k),
    ensures
        exists|j: int| 0 <= j < slots.len() && (#[trigger] slots[j]).key == k && is_latest(slots, j),
        keys_of(last_of_each(slots)).contains(k),
{
    let i = choose|i: int| 0 <= i < keys_of(slots).len() && keys_of(slots)[i] == k;
    assert(slots[i].key == k);
    let n = slots.len() as int;
    lemma_latest_before(slots, n, k, i);
    let j = latest_before(slots, n, k);
    assert(slots[j].key == k && is_latest(slots, j));
    lemma_last_of_each(slots);
    let last = last_of_each(slots);
    let x = choose|x: int| 0 <= x < last.len() && last[x] == slots[j];
    assert(keys_of(last)[x] == k);
}

/// Compared with its own slots, a set of opinions has moved nothing.
pub proof fn law_unchanged_diff_is_empty(ops: Seq<StoredOpinionView>)
    ensures
        diff_of(slots_of(ops), slots_of(ops)).touched() == 0,
        diff_of(slots_of(ops), slots_of(ops)).unchanged == keys_of(last_of_each(slots_of(ops))),
{
    let n = slots_of(ops);
    let last = last_of_each(n);
    let stored = hash_map_of(n);
    lemma_last_of_each(n);
    assert forall|i: int| 0 <= i < last.len() implies stored.contains_key((#[trigger] last[i]).key)
        && stored[last[i].key] == last[i].hash by {
        let j = choose|j: int| #[trigger] stands_last(n, j, last[i]);
        lemma_latest_hash(n, j);
    }
    assert forall|i: int| 0 <= i < n.len() implies keys_of(last).contains(
        (#[trigger] n[i]).key,
    ) by {
        assert(keys_of(n)[i] == n[i].key);
        lemma_latest_exists(n, n[i].key);
    }
    lemma_filter_all(last, |s: SlotHashView| !stored.contains_key(s.key), false);
    lemma_filter_all(
        last,
        |s: SlotHashView| stored.contains_key(s.key) && stored[s.key] != s.hash,
        false,
    );
    lemma_filter_all(
        last,
        |s: SlotHashView| stored.contains_key(s.key) && stored[s.key] == s.hash,
        true,
    );
    lemma_filter_all(n, |s: SlotHashView| !keys_of(last).contains(s.key), false);
}

/// A filter that holds of all items keeps them; one that holds of none keeps
/// none.
pub proof fn lemma_filter_all(s: Seq<SlotHashView>, f: spec_fn(SlotHashView) -> bool, b: bool)
    requires
        forall|i: int| 0 <= i < s.len() ==> f(#[trigger] s[i]) == b,
    ensures
        s.filter(f) == if b {
            s
        } else {
            Seq::empty()
        },
    decreases s.len(),
{
    reveal(Seq::filter);
    if s.len() > 0 {
        assert forall|i: int| 0 <= i < s.drop_last().len() implies f(#[trigger] s.drop_last()[i])
            == b by {
            assert(f(s[i]) == b);
        }
        lemma_filter_all(s.drop_last(), f, b);
        assert(f(s[s.len() - 1]) == b);
        assert(s =~= s.drop_last().push(s.last()));
    } else {
        assert(s =~= Seq::empty());
    }
}

/// Every new key is added, changed or unchanged, and only one of these, however
/// often it occurs; no removed key is among the new ones.
pub proof fn law_diff_partitions_slots(new: Seq<SlotHashView>, prev: Seq<SlotHashView>)
    ensures
        diff_of(new, prev).added.len() + diff_of(new, prev).changed.len() + diff_of(
            new,
            prev,
        ).unchanged.len() == last_of_each(new).len(),
        keys_of(last_of_each(new)).no_duplicates(),
        forall|k: Seq<char>| #[trigger]
            keys_of(last_of_each(new)).contains(k) <==> keys_of(new).contains(k),
        forall|k: Seq<char>|
            diff_of(new, prev).removed.contains(k) ==> !keys_of(new).contains(k) && keys_of(
                prev,
            ).contains(k),
{
    let last = last_of_each(new);
    let stored = hash_map_of(prev);
    lemma_last_of_each(new);
    lemma_three_ways(last, stored, last.len() as int);
    assert(last.take(last.len() as int) =~= last);
    assert forall|k: Seq<char>| #[trigger] keys_of(last).contains(k) <==> keys_of(new).contains(
        k,
    ) by {
        if keys_of(last).contains(k) {
            let i = choose|i: int| 0 <= i < keys_of(last).len() && keys_of(last)[i] == k;
            assert(last[i].key == k);
            let j = choose|j: int| #[trigger] stands_last(new, j, last[i]);
            assert(keys_of(new)[j] == k);
        }
        if keys_of(new).contains(k) {
            lemma_latest_exists(new, k);
        }
    }
    assert(keys_of(last).no_duplicates()) by {
        assert forall|i: int, j: int|
            0 <= i < keys_of(last).len() && 0 <= j < keys_of(last).len() && i != j implies keys_of(
            last,
        )[i] != keys_of(last)[j] by {
            if i < j {
                assert(last[i].key != last[j].key);
            } else {
                assert(last[j].key != last[i].key);
            }
        }
    }
    let f = |s: SlotHashView| !keys_of(last).contains(s.key);
    let r = prev.filter(f);
    assert forall|k: Seq<char>| diff_of(new, prev).removed.contains(k) implies !keys_of(
        new,
    ).contains(k) && keys_of(prev).contains(k) by {
        let i = choose|i: int| 0 <= i < keys_of(r).len() && keys_of(r)[i] == k;
        assert(r[i].key == k);
        lemma_filter_member(prev, f, i);
        let j = choose|j: int| 0 <= j < prev.len() && prev[j] == r[i];
        assert(keys_of(prev)[j] == k);
    }
}

proof fn lemma_filter_member(s: Seq<SlotHashView>, f: spec_fn(SlotHashView) -> bool, i: int)
    requires
        0 <= i < s.filter(f).len(),
    ensures
        f(s.filter(f)[i]),
        exists|j: int| 0 <= j < s.len() && s[j] == s.filter(f)[i],
    decreases s.len(),
{
    reveal(Seq::filter);
    if s.len() > 0 {
        let r = s.drop_last().filter(f);
        if i < r.len() {
            lemma_filter_member(s.drop_last(), f, i);
            let j = choose|j: int| 0 <= j < s.len() - 1 && s.drop_last()[j] == r[i];
            assert(s[j] == s.filter(f)[i]);
        } else {
            assert(s[s.len() - 1] == s.filter(f)[i]);
        }
    }
}

proof fn lemma_three_ways(new: Seq<SlotHashView>, stored: Map<Seq<char>, Seq<char>>, n: int)
    requires
        0 <= n <= new.len(),
    ensures
        new.take(n).filter(|s: SlotHashView| !stored.contains_key(s.key)).len() + new.take(n).filter(
            |s: SlotHashView| stored.contains_key(s.key) && stored[s.key] != s.hash,
        ).len() + new.take(n).filter(
            |s: SlotHashView| stored.contains_key(s.key) && stored[s.key] == s.hash,
        ).len() == n,
    decreases n,
{
    reveal(Seq::filter);
    if n > 0 {
        lemma_three_ways(new, stored, n - 1);
        assert(new.take(n).drop_last() =~= new.take(n - 1));
    }
}

// ---------------------------------------------------------------------------
// What is authored below opinions.

/// What a slot holds.
pub enum ContentView {
    Binding(Option<TelemetryBindingView>),
    Tag(bool),
    Meta(Option<VfValueView>),
    Anchor(Option<AnchorView>),
    Edge(Option<EdgeView>),
}

/// What stands in the slot of an opinion.
pub open spec fn content(v: LsgView, op: OpinionView) -> ContentView {
    match op {
        OpinionView::Binding { entity, binding } => ContentView::Binding(
            first_binding(v.bindings_at(entity), binding.attribute),
        ),
        OpinionView::Tag { entity, tag } => ContentView::Tag(
            v.has(entity) && v.entities[entity.0].tags.contains(tag),
        ),
        OpinionView::Meta { entity, key, .. } => ContentView::Meta(
            if v.has(entity) {
                vf_value(v.entities[entity.0], key)
            } else {
                None
            },
        ),
        OpinionView::Anchor(a) => ContentView::Anchor(found(v.anchors, a.id.0)),
        OpinionView::Edge(e) => ContentView::Edge(found(v.edges, e.id.0)),
    }
}

/// What an opinion puts into its slot.
pub open spec fn said(op: OpinionView) -> ContentView {
    match op {
        OpinionView::Binding { binding, .. } => ContentView::Binding(Some(binding)),
        OpinionView::Tag { .. } => ContentView::Tag(true),
        OpinionView::Meta { value, .. } => ContentView::Meta(Some(VfValueView::Text(value))),
        OpinionView::Anchor(a) => ContentView::Anchor(Some(a)),
        OpinionView::Edge(e) => ContentView::Edge(Some(e)),
    }
}

/// The slot of an opinion has been filled by one, and what it overrode is noted.
pub open spec fn overrides(v: LsgView, op: OpinionView) -> bool {
    match op {
        OpinionView::Binding { entity, binding } => v.overridden.bindings.contains_key(
            (entity.0, binding.attribute),
        ),
        OpinionView::Tag { entity, tag } => v.overridden.tags.contains_key((entity.0, tag)),
        OpinionView::Meta { entity, key, .. } => v.overridden.vf.contains_key((entity.0, key)),
        OpinionView::Anchor(a) => v.overridden.anchors.contains_key(a.id.0),
        OpinionView::Edge(e) => v.overridden.edges.contains_key(e.id.0),
    }
}

/// What is authored in the slot of an opinion: what is noted as overridden there, or
/// else what stands there.
pub open spec fn authored(v: LsgView, op: OpinionView) -> ContentView {
    if !overrides(v, op) {
        content(v, op)
    } else {
        match op {
            OpinionView::Binding { entity, binding } => ContentView::Binding(
                v.overridden.bindings[(entity.0, binding.attribute)],
            ),
            OpinionView::Tag { entity, tag } => ContentView::Tag(
                v.overridden.tags[(entity.0, tag)],
            ),
            OpinionView::Meta { entity, key, .. } => ContentView::Meta(
                v.overridden.vf[(entity.0, key)],
            ),
            OpinionView::Anchor(a) => ContentView::Anchor(v.overridden.anchors[a.id.0]),
            OpinionView::Edge(e) => ContentView::Edge(v.overridden.edges[e.id.0]),
        }
    }
}

/// The index has what an opinion is to be set on. Anchors and edges are set on the
/// index itself.
pub open spec fn has_place(v: LsgView, op: OpinionView) -> bool {
    match op {
        OpinionView::Binding { entity, .. } => v.has(entity),
        OpinionView::Tag { entity, .. } => v.has(entity),
        OpinionView::Meta { entity, .. } => v.has(entity),
        _ => true,
    }
}

/// The two opinions fill one slot.
pub open spec fn same_slot(a: OpinionView, b: OpinionView) -> bool {
    match (a, b) {
        (
            OpinionView::Binding { entity: x, binding: p },
            OpinionView::Binding { entity: y, binding: q },
        ) => x == y && p.attribute == q.attribute,
        (
            OpinionView::Tag { entity: x, tag: p },
            OpinionView::Tag { entity: y, tag: q },
        ) => x == y && p == q,
        (
            OpinionView::Meta { entity: x, key: p, .. },
            OpinionView::Meta { entity: y, key: q, .. },
        ) => x == y && p == q,
        (OpinionView::Anchor(x), OpinionView::Anchor(y)) => x.id == y.id,
        (OpinionView::Edge(x), OpinionView::Edge(y)) => x.id == y.id,
        _ => false,
    }
}

/// The key of an opinion names its slot: two opinions have one key just where they
/// fill one slot.
pub proof fn law_keys_name_slots(a: OpinionView, b: OpinionView)
    ensures
        a.key() == b.key() <==> same_slot(a, b),
{
    if a.key() == b.key() {
        reveal_strlit("bind:");
        reveal_strlit("tag:");
        reveal_strlit("meta:");
        reveal_strlit("anchor:");
        reveal_strlit("edge:");
        reveal_strlit(":");
        assert(a.key()[0] == b.key()[0]);
        match (a, b) {
            (
                OpinionView::Binding { entity: x, binding: p },
                OpinionView::Binding { entity: y, binding: q },
            ) => {
                lemma_key_parts("bind:"@, x.0, ":"@ + p.attribute);
                lemma_key_parts("bind:"@, y.0, ":"@ + q.attribute);
                lemma_hex16_distinct(x.0, y.0);
                assert((":"@ + p.attribute).skip(1) =~= p.attribute);
                assert((":"@ + q.attribute).skip(1) =~= q.attribute);
            },
            (OpinionView::Tag { entity: x, tag: p }, OpinionView::Tag { entity: y, tag: q }) => {
                lemma_key_parts("tag:"@, x.0, ":"@ + p);
                lemma_key_parts("tag:"@, y.0, ":"@ + q);
                lemma_hex16_distinct(x.0, y.0);
                assert((":"@ + p).skip(1) =~= p);
                assert((":"@ + q).skip(1) =~= q);
            },
            (
                OpinionView::Meta { entity: x, key: p, .. },
                OpinionView::Meta { entity: y, key: q, .. },
            ) => {
                lemma_key_parts("meta:"@, x.0, ":"@ + p);
                lemma_key_parts("meta:"@, y.0, ":"@ + q);
                lemma_hex16_distinct(x.0, y.0);
                assert((":"@ + p).skip(1) =~= p);
                assert((":"@ + q).skip(1) =~= q);
            },
            (OpinionView::Anchor(x), OpinionView::Anchor(y)) => {
                assert(a.key().skip(7) =~= hex16_of(x.id.0));
                assert(b.key().skip(7) =~= hex16_of(y.id.0));
                lemma_hex16_distinct(x.id.0, y.id.0);
            },
            (OpinionView::Edge(x), OpinionView::Edge(y)) => {
                assert(a.key().skip(5) =~= hex16_of(x.id.0));
                assert(b.key().skip(5) =~= hex16_of(y.id.0));
                lemma_hex16_distinct(x.id.0, y.id.0);
            },
            _ => {},
        }
    }
}

proof fn lemma_key_parts(prefix: Seq<char>, id: u64, tail: Seq<char>)
    ensures
        (prefix + hex16_of(id) + tail).subrange(prefix.len() as int, prefix.len() as int + 16)
            == hex16_of(id),
        (prefix + hex16_of(id) + tail).skip(prefix.len() as int + 16) == tail,
{
    let key = prefix + hex16_of(id) + tail;
    assert(key.subrange(prefix.len() as int, prefix.len() as int + 16) =~= hex16_of(id));
    assert(key.skip(prefix.len() as int + 16) =~= tail);
}

proof fn lemma_set_elsewhere(
    bs: Seq<TelemetryBindingView>,
    p: TelemetryBindingView,
    a: Seq<char>,
)
    requires
        a != p.attribute,
    ensures
        first_binding(with_binding(bs, p), a) == first_binding(bs, a),
        names(with_binding(bs, p), a) == names(bs, a),
        names(bs, a) || names(bs, p.attribute) ==> binding_at(with_binding(bs, p), a)
            == binding_at(bs, a),
{
    let more = with_binding(bs, p);
    let i = binding_at(bs, p.attribute);
    let x = binding_at(bs, a);
    lemma_binds(bs, a);
    lemma_binds(bs, p.attribute);
    if names(bs, a) {
        assert(more[x] == bs[x]);
        assert forall|y: int| 0 <= y < x implies (#[trigger] more[y]).attribute != a by {
            if y != i {
                assert(more[y] == bs[y]);
            }
        }
        lemma_binding_at(more, a, x);
    } else {
        assert forall|y: int| 0 <= y < more.len() implies (#[trigger] more[y]).attribute != a by {
            if y != i {
                assert(more[y] == bs[y]);
            }
        }
        lemma_binding_at(more, a, more.len() as int);
    }
}

proof fn lemma_set_here(bs: Seq<TelemetryBindingView>, p: TelemetryBindingView)
    ensures
        first_binding(with_binding(bs, p), p.attribute) == Some(p),
        binding_at(with_binding(bs, p), p.attribute) == binding_at(bs, p.attribute),
        names(with_binding(bs, p), p.attribute),
{
    let more = with_binding(bs, p);
    let i = binding_at(bs, p.attribute);
    lemma_binds(bs, p.attribute);
    assert forall|y: int| 0 <= y < i implies (#[trigger] more[y]).attribute != p.attribute by {
        assert(more[y] == bs[y]);
    }
    assert(more[i] == p);
    lemma_binding_at(more, p.attribute, i);
}

proof fn lemma_first_push(bs: Seq<TelemetryBindingView>, b: TelemetryBindingView, a: Seq<char>)
    ensures
        first_binding(bs.push(b), a) == if names(bs, a) {
            first_binding(bs, a)
        } else if b.attribute == a {
            Some(b)
        } else {
            None
        },
        binding_at(bs.push(b), a) == if names(bs, a) || b.attribute == a {
            binding_at(bs, a)
        } else {
            bs.len() as int + 1
        },
{
    let more = bs.push(b);
    let x = binding_at(bs, a);
    lemma_binds(bs, a);
    if names(bs, a) {
        assert(more[x] == bs[x]);
        assert forall|y: int| 0 <= y < x implies (#[trigger] more[y]).attribute != a by {
            assert(more[y] == bs[y]);
        }
        lemma_binding_at(more, a, x);
    } else {
        assert forall|y: int| 0 <= y < bs.len() implies (#[trigger] more[y]).attribute != a by {
            assert(more[y] == bs[y]);
        }
        assert(more[bs.len() as int] == b);
        if b.attribute == a {
            lemma_binding_at(more, a, bs.len() as int);
        } else {
            lemma_binding_at(more, a, more.len() as int);
        }
    }
}

proof fn lemma_drop_elsewhere(bs: Seq<TelemetryBindingView>, gone: Seq<char>, a: Seq<char>)
    requires
        a != gone,
    ensures
        first_binding(without_binding(bs, gone), a) == first_binding(bs, a),
    decreases bs.len(),
{
    reveal(Seq::filter);
    if bs.len() > 0 {
        let init = bs.drop_last();
        lemma_drop_elsewhere(init, gone, a);
        assert(bs =~= init.push(bs.last()));
        lemma_first_push(init, bs.last(), a);
        lemma_first_push(without_binding(init, gone), bs.last(), a);
        lemma_other_bindings(init, gone, a);
    }
}

proof fn lemma_tag_dropped(tags: Seq<Seq<char>>, gone: Seq<char>, tag: Seq<char>)
    ensures
        without_tag(tags, gone).contains(tag) <==> tags.contains(tag) && tag != gone,
    decreases tags.len(),
{
    reveal(Seq::filter);
    if tags.len() > 0 {
        let init = tags.drop_last();
        lemma_tag_dropped(init, gone, tag);
        assert(tags =~= init.push(tags.last()));
        lemma_tag_pushed(init, tags.last(), tag);
        lemma_tag_pushed(without_tag(init, gone), tags.last(), tag);
    }
}

proof fn lemma_tag_pushed(tags: Seq<Seq<char>>, last: Seq<char>, tag: Seq<char>)
    ensures
        tags.push(last).contains(tag) <==> tags.contains(tag) || tag == last,
{
    let more = tags.push(last);
    if tags.contains(tag) {
        let i = choose|i: int| 0 <= i < tags.len() && tags[i] == tag;
        assert(more[i] == tag);
    }
    assert(more[tags.len() as int] == last);
    if more.contains(tag) && tag != last {
        let i = choose|i: int| 0 <= i < more.len() && more[i] == tag;
        assert(tags[i] == tag);
    }
}

/// An opinion, applied or taken back, leaves the slots of others alone.
proof fn lemma_other_slots(v: LsgView, a: OpinionView, b: OpinionView)
    requires
        v.valid(),
        !same_slot(a, b),
    ensures
        content(applied_one(v, a).0, b) == content(v, b),
        content(unapplied_one(v, a).0, b) == content(v, b),
        overrides(applied_one(v, a).0, b) == overrides(v, b),
        overrides(unapplied_one(v, a).0, b) == overrides(v, b),
        authored(applied_one(v, a).0, b) == authored(v, b),
        authored(unapplied_one(v, a).0, b) == authored(v, b),
{
    match (a, b) {
        (
            OpinionView::Binding { entity: x, binding: p },
            OpinionView::Binding { entity: y, binding: q },
        ) => {
            assert(x == y <==> x.0 == y.0);
            let bs = v.bindings_at(x);
            if x == y {
                lemma_set_elsewhere(bs, p, q.attribute);
                lemma_drop_elsewhere(bs, p.attribute, q.attribute);
                let k = (x.0, p.attribute);
                if v.overridden.bindings.contains_key(k) {
                    if let Some(o) = v.overridden.bindings[k] {
                        assert(o.attribute == p.attribute);
                        lemma_set_elsewhere(bs, o, q.attribute);
                    }
                }
            }
        },
        (OpinionView::Tag { entity: x, tag: p }, OpinionView::Tag { entity: y, tag: q }) => {
            assert(x == y <==> x.0 == y.0);
            if x == y && v.has(x) {
                lemma_tag_pushed(v.entities[x.0].tags, p, q);
                lemma_tag_dropped(v.entities[x.0].tags, p, q);
            }
        },
        (OpinionView::Meta { entity: x, .. }, OpinionView::Meta { entity: y, .. }) => {
            assert(x == y <==> x.0 == y.0);
        },
        _ => {},
    }
}

/// What an opinion does to its own slot: applied, it fills the slot, and what is
/// authored there stays noted; taken back, the slot holds what is authored.
proof fn lemma_own_slot(v: LsgView, op: OpinionView)
    requires
        v.valid(),
    ensures
        authored(applied_one(v, op).0, op) == authored(v, op),
        has_place(v, op) ==> overrides(applied_one(v, op).0, op) && content(
            applied_one(v, op).0,
            op,
        ) == said(op),
        content(unapplied_one(v, op).0, op) == authored(v, op),
        authored(unapplied_one(v, op).0, op) == authored(v, op),
        !overrides(unapplied_one(v, op).0, op),
{
    match op {
        OpinionView::Binding { entity, binding } => {
            let bs = v.bindings_at(entity);
            lemma_set_here(bs, binding);
            lemma_other_bindings(bs, binding.attribute, binding.attribute);
            let k = (entity.0, binding.attribute);
            if v.overridden.bindings.contains_key(k) {
                assert(v.entities.contains_key(k.0));
                if let Some(o) = v.overridden.bindings[k] {
                    assert(o.attribute == binding.attribute);
                    lemma_set_here(bs, o);
                }
            }
        },
        OpinionView::Tag { entity, tag } => {
            if v.has(entity) {
                lemma_tag_pushed(v.entities[entity.0].tags, tag, tag);
                lemma_tag_dropped(v.entities[entity.0].tags, tag, tag);
            }
            if v.overridden.tags.contains_key((entity.0, tag)) {
                assert(v.entities.contains_key((entity.0, tag).0));
            }
        },
        OpinionView::Meta { entity, key, .. } => {
            if v.overridden.vf.contains_key((entity.0, key)) {
                assert(v.entities.contains_key((entity.0, key).0));
            }
        },
        _ => {},
    }
}

/// The content of a slot, and what is authored there, are the same for all opinions
/// that fill it.
proof fn lemma_one_slot(v: LsgView, a: OpinionView, b: OpinionView)
    requires
        same_slot(a, b),
    ensures
        content(v, a) == content(v, b),
        overrides(v, a) == overrides(v, b),
        authored(v, a) == authored(v, b),
        a.key() == b.key(),
{
}

/// Opinions come and go above what is authored: neither applying nor taking back
/// changes what is authored in any slot.
pub proof fn law_authored_values_stay(v: LsgView, ops: Seq<OpinionView>, op: OpinionView)
    requires
        v.valid(),
    ensures
        authored(applied(v, ops).0, op) == authored(v, op),
        authored(unapplied(v, ops).0, op) == authored(v, op),
    decreases ops.len(),
{
    if ops.len() > 0 {
        let init = ops.drop_last();
        let last = ops.last();
        law_authored_values_stay(v, init, op);
        lemma_applied_keeps(v, init);
        lemma_unapplied_keeps(v, init);
        let w = applied(v, init).0;
        let u = unapplied(v, init).0;
        if same_slot(last, op) {
            lemma_own_slot(w, last);
            lemma_own_slot(u, last);
            lemma_one_slot(w, last, op);
            lemma_one_slot(u, last, op);
            lemma_one_slot(applied(v, ops).0, last, op);
            lemma_one_slot(unapplied(v, ops).0, last, op);
        } else {
            lemma_other_slots(w, last, op);
            lemma_other_slots(u, last, op);
        }
    }
}

/// Opinions that are taken back leave no note in their slots.
proof fn lemma_taken_back(v: LsgView, ops: Seq<OpinionView>, i: int)
    requires
        v.valid(),
        0 <= i < ops.len(),
    ensures
        !overrides(unapplied(v, ops).0, ops[i]),
    decreases ops.len(),
{
    let init = ops.drop_last();
    let last = ops.last();
    let u = unapplied(v, init).0;
    lemma_unapplied_keeps(v, init);
    lemma_own_slot(u, last);
    if i < init.len() {
        lemma_taken_back(v, init, i);
        assert(init[i] == ops[i]);
        if same_slot(last, ops[i]) {
            lemma_one_slot(unapplied(v, ops).0, last, ops[i]);
        } else {
            lemma_other_slots(u, last, ops[i]);
        }
    }
}

/// A position that a test holds of is among the positions.
proof fn lemma_position_found(n: nat, f: spec_fn(int) -> bool, m: int, i: int)
    requires
        0 <= i < m <= n,
        f(i),
    ensures
        positions_below(n, f, m).contains(i),
    decreases m,
{
    lemma_positions_step(n, f, m - 1);
    let init = positions_below(n, f, m - 1);
    let all = positions_below(n, f, m);
    if i < m - 1 {
        lemma_position_found(n, f, m - 1, i);
        let j = choose|j: int| 0 <= j < init.len() && init[j] == i;
        assert(all[j] == i);
    } else {
        assert(all[init.len() as int] == i);
    }
}

/// A slot that a reload removes ends at its authored value: what stood there before
/// the first opinion stands there again, and nothing is noted of it.
pub proof fn law_removed_slots_end_authored(
    v: LsgView,
    prev: Seq<StoredOpinionView>,
    new: Seq<StoredOpinionView>,
    i: int,
)
    requires
        v.valid(),
        0 <= i < prev.len(),
        !keys_of(slots_of(new)).contains(prev[i].key()),
    ensures
        ({
            let w = reconciled(v, prev, new).0;
            let op = prev[i].opinion;
            &&& content(w, op) == authored(v, op)
            &&& !overrides(w, op)
        }),
{
    let op = prev[i].opinion;
    let p = slots_of(prev);
    let f = |j: int| is_gone(p, slots_of(new), j);
    let gone = to_remove(prev, new);
    let v1 = applied(v, to_apply(prev, new)).0;
    let v2 = revised(v1, to_apply(prev, new).len() > 0);
    lemma_applied_keeps(v, to_apply(prev, new));
    lemma_noted_valid(v1, v2);
    law_authored_values_stay(v, to_apply(prev, new), op);
    law_authored_values_stay(v2, gone, op);
    assert(p[i].key == op.key());
    lemma_latest_before(p, p.len() as int, op.key(), i);
    let at = latest_before(p, p.len() as int, op.key());
    lemma_absent_key(slots_of(new), op.key());
    assert(f(at));
    lemma_position_found(p.len(), f, p.len() as int, at);
    lemma_positions_ends(p.len(), f);
    let j = choose|j: int| 0 <= j < positions(p.len(), f).len() && positions(p.len(), f)[j] == at;
    assert(gone[j] == prev[at].opinion);
    lemma_taken_back(v2, gone, j);
    let v3 = unapplied(v2, gone).0;
    let w = reconciled(v, prev, new).0;
    assert(prev[at].opinion.key() == op.key());
    law_keys_name_slots(prev[at].opinion, op);
    lemma_one_slot(v3, prev[at].opinion, op);
    assert(content(w, op) == content(v3, op));
    assert(overrides(w, op) == overrides(v3, op));
}

/// Opinions that are taken back leave the slots of others alone.
proof fn lemma_slot_left(v: LsgView, a: OpinionView, ops: Seq<OpinionView>)
    requires
        v.valid(),
        forall|i: int| 0 <= i < ops.len() ==> !same_slot(#[trigger] ops[i], a),
    ensures
        content(unapplied(v, ops).0, a) == content(v, a),
    decreases ops.len(),
{
    if ops.len() > 0 {
        let init = ops.drop_last();
        assert forall|i: int| 0 <= i < init.len() implies !same_slot(#[trigger] init[i], a) by {
            assert(!same_slot(ops[i], a));
        }
        lemma_slot_left(v, a, init);
        lemma_unapplied_keeps(v, init);
        assert(!same_slot(ops[ops.len() - 1], a));
        lemma_other_slots(unapplied(v, init).0, ops.last(), a);
    }
}

/// What an opinion puts into its slot stays there when opinions of other slots
/// follow.
proof fn lemma_slot_filled(v: LsgView, ops: Seq<OpinionView>, j: int)
    requires
        v.valid(),
        0 <= j < ops.len(),
        has_place(v, ops[j]),
        forall|i: int| 0 <= i < ops.len() && i != j ==> !same_slot(#[trigger] ops[i], ops[j]),
    ensures
        content(applied(v, ops).0, ops[j]) == said(ops[j]),
    decreases ops.len(),
{
    let init = ops.drop_last();
    let w = applied(v, init).0;
    lemma_applied_keeps(v, init);
    if j == init.len() {
        assert(has_place(w, ops[j])) by {
            assert forall|k: u64| v.entities.contains_key(k) implies #[trigger] w.entities.contains_key(
                k,
            ) by {
                assert(v.entities.dom().contains(k));
                assert(w.entities.dom().contains(k));
            }
        }
        lemma_own_slot(w, ops[j]);
    } else {
        assert(init[j] == ops[j]);
        assert forall|i: int| 0 <= i < init.len() && i != j implies !same_slot(
            #[trigger] init[i],
            init[j],
        ) by {
            assert(!same_slot(ops[i], ops[j]));
        }
        lemma_slot_filled(v, init, j);
        assert(!same_slot(ops[ops.len() - 1], ops[j]));
        lemma_other_slots(w, ops.last(), ops[j]);
    }
}

/// A slot that a reload adds or changes ends with what the new opinion puts there.
pub proof fn law_changed_slots_end_as_said(
    v: LsgView,
    prev: Seq<StoredOpinionView>,
    new: Seq<StoredOpinionView>,
    i: int,
)
    requires
        v.valid(),
        0 <= i < new.len(),
        is_due(slots_of(prev), slots_of(new), i),
        has_place(v, new[i].opinion),
    ensures
        content(reconciled(v, prev, new).0, new[i].opinion) == said(new[i].opinion),
{
    let op = new[i].opinion;
    let p = slots_of(prev);
    let n = slots_of(new);
    let f = |j: int| is_due(p, n, j);
    let g = |j: int| is_gone(p, n, j);
    let due = to_apply(prev, new);
    let gone = to_remove(prev, new);
    let at = positions(n.len(), f);
    let off = positions(p.len(), g);
    lemma_positions_ends(n.len(), f);
    lemma_positions_ends(p.len(), g);
    lemma_positions_rise(n.len(), f, n.len() as int);
    lemma_positions_rise(p.len(), g, p.len() as int);
    lemma_position_found(n.len(), f, n.len() as int, i);
    let x = choose|x: int| 0 <= x < at.len() && at[x] == i;
    assert(due[x] == op);
    assert forall|y: int| 0 <= y < due.len() && y != x implies !same_slot(
        #[trigger] due[y],
        due[x],
    ) by {
        let k = at[y];
        assert(f(k) && f(i));
        assert(due[y] == new[k].opinion);
        assert(n[k].key != n[i].key);
        law_keys_name_slots(due[y], due[x]);
    }
    lemma_slot_filled(v, due, x);
    lemma_applied_keeps(v, due);
    let v1 = applied(v, due).0;
    let v2 = revised(v1, due.len() > 0);
    lemma_noted_valid(v1, v2);
    assert forall|y: int| 0 <= y < gone.len() implies !same_slot(#[trigger] gone[y], op) by {
        let k = off[y];
        assert(g(k));
        assert(gone[y] == prev[k].opinion);
        lemma_latest_hash(n, i);
        assert(p[k].key != n[i].key);
        law_keys_name_slots(gone[y], op);
    }
    lemma_slot_left(v2, op, gone);
    assert(content(v2, op) == content(v1, op));
}

proof fn lemma_absent_key(slots: Seq<SlotHashView>, k: Seq<char>)
    requires
        !keys_of(slots).contains(k),
    ensures
        !hash_map_of(slots).contains_key(k),
    decreases slots.len(),
{
    if slots.len() > 0 {
        let init = slots.drop_last();
        assert forall|i: int| 0 <= i < keys_of(init).len() implies keys_of(init)[i] != k by {
            assert(keys_of(slots)[i] == keys_of(init)[i]);
        }
        assert(keys_of(slots)[slots.len() - 1] == slots.last().key);
        lemma_absent_key(init, k);
    }
}

/// An opinion that is applied to a slot and then taken back leaves the index as it
/// was, whatever stood in the slot.
pub proof fn law_taking_back_restores(v: LsgView, op: OpinionView)
    requires
        v.valid(),
        !overrides(v, op),
    ensures
        unapplied_one(applied_one(v, op).0, op).0 == v,
{
    let w = applied_one(v, op).0;
    let u = unapplied_one(w, op).0;
    match op {
        OpinionView::Binding { entity, binding } => {
            if v.has(entity) {
                lemma_binding_back(v, entity, binding);
            }
        },
        OpinionView::Tag { entity, tag } => {
            if v.has(entity) {
                let tags = v.entities[entity.0].tags;
                if !tags.contains(tag) {
                    let more = tags.push(tag);
                    assert(more[tags.len() as int] == tag);
                    assert(without_tag(more, tag) == tags) by {
                        reveal(Seq::filter);
                        assert(more.drop_last() =~= tags);
                        lemma_tags_kept(tags, tag);
                    }
                }
                assert(u.entities =~= v.entities);
                assert(u.overridden.tags =~= v.overridden.tags);
            }
        },
        OpinionView::Meta { entity, key, .. } => {
            if v.has(entity) {
                assert(u.entities[entity.0].vf =~= v.entities[entity.0].vf);
                assert(u.entities =~= v.entities);
                assert(u.overridden.vf =~= v.overridden.vf);
            }
        },
        OpinionView::Anchor(_) => {
            assert(u.anchors =~= v.anchors);
            assert(u.overridden.anchors =~= v.overridden.anchors);
        },
        OpinionView::Edge(_) => {
            assert(u.edges =~= v.edges);
            assert(u.overridden.edges =~= v.overridden.edges);
        },
    }
}

proof fn lemma_binding_back(v: LsgView, id: EntityId, b: TelemetryBindingView)
    requires
        v.valid(),
        v.has(id),
        !v.overridden.bindings.contains_key((id.0, b.attribute)),
    ensures
        binding_restored(
            binding_set(binding_noted(v, id, b.attribute), id, b).0,
            id,
            b.attribute,
        ).0 == v,
{
    let w = binding_set(binding_noted(v, id, b.attribute), id, b).0;
    let u = binding_restored(w, id, b.attribute).0;
    let bs = v.entities[id.0].bindings;
    let i = binding_at(bs, b.attribute);
    lemma_binds(bs, b.attribute);
    lemma_set_here(bs, b);
    if i < bs.len() {
        assert(bs.update(i, b).update(i, bs[i]) =~= bs);
    } else {
        let more = bs.push(b);
        assert(without_binding(more, b.attribute) == bs) by {
            reveal(Seq::filter);
            assert(more.drop_last() =~= bs);
            lemma_bindings_kept(bs, b.attribute);
        }
        let list = bound_by(v.binding_index, b.attribute);
        assert(bindings_indexed(v));
        assert(!list.contains(id));
        assert(without_id(list.push(id), id) == list) by {
            reveal(Seq::filter);
            assert(list.push(id).drop_last() =~= list);
            lemma_ids_kept(list, id);
        }
        if list.len() == 0 {
            assert(list =~= Seq::empty());
        }
    }
    assert(u.binding_index =~= v.binding_index);
    assert(u.entities =~= v.entities);
    assert(u.overridden.bindings =~= v.overridden.bindings);
}

/// Where a slot overrode a binding or a tag, there is still one.
spec fn stands(v: LsgView, op: OpinionView) -> bool {
    match op {
        OpinionView::Binding { .. } => authored(v, op)->Binding_0 is Some ==> content(
            v,
            op,
        )->Binding_0 is Some,
        OpinionView::Tag { .. } => authored(v, op)->Tag_0 ==> content(v, op)->Tag_0,
        _ => true,
    }
}

/// Taking an opinion back and applying one of another slot can trade places: what
/// the second adds comes behind what is there in either order.
proof fn lemma_trade_places(x: LsgView, a: OpinionView, b: OpinionView)
    requires
        x.valid(),
        overrides(x, a),
        stands(x, a),
        !same_slot(a, b),
    ensures
        unapplied_one(applied_one(x, b).0, a).0 == applied_one(unapplied_one(x, a).0, b).0,
{
    let y = unapplied_one(x, a).0;
    let w = applied_one(x, b).0;
    let z = applied_one(y, b).0;
    let u = unapplied_one(w, a).0;
    lemma_other_slots(x, a, b);
    lemma_other_slots(x, b, a);
    match (a, b) {
        (
            OpinionView::Binding { entity: i, binding: p },
            OpinionView::Binding { entity: j, binding: q },
        ) => {
            lemma_trade_bindings(x, i, p, j, q);
        },
        (OpinionView::Tag { entity: i, tag: p }, OpinionView::Tag { entity: j, tag: q }) => {
            assert(i == j <==> i.0 == j.0);
            assert(x.entities.contains_key((i.0, p).0));
            if i == j {
                let tags = x.entities[i.0].tags;
                lemma_tag_pushed(tags, q, p);
                lemma_tag_dropped(tags, p, q);
                assert(without_tag(tags.push(q), p) == without_tag(tags, p).push(q)) by {
                    reveal(Seq::filter);
                    assert(tags.push(q).drop_last() =~= tags);
                }
            }
            assert(u.entities =~= z.entities);
            assert(u.overridden.tags =~= z.overridden.tags);
        },
        (OpinionView::Meta { entity: i, key: p, .. }, OpinionView::Meta { entity: j, key: q, .. }) => {
            assert(i == j <==> i.0 == j.0);
            if i == j && x.has(i) {
                assert(u.entities[i.0].vf =~= z.entities[i.0].vf);
            }
            assert(u.entities =~= z.entities);
            assert(u.overridden.vf =~= z.overridden.vf);
        },
        (OpinionView::Anchor(_), OpinionView::Anchor(_)) => {
            assert(u.anchors =~= z.anchors);
            assert(u.overridden.anchors =~= z.overridden.anchors);
        },
        (OpinionView::Edge(_), OpinionView::Edge(_)) => {
            assert(u.edges =~= z.edges);
            assert(u.overridden.edges =~= z.overridden.edges);
        },
        _ => {
            assert(u.entities =~= z.entities);
        },
    }
}

proof fn lemma_drop_and_set(bs: Seq<TelemetryBindingView>, gone: Seq<char>, q: TelemetryBindingView)
    requires
        q.attribute != gone,
    ensures
        without_binding(with_binding(bs, q), gone) == with_binding(
            without_binding(bs, gone),
            q,
        ),
    decreases bs.len(),
{
    reveal(Seq::filter);
    let a = q.attribute;
    let left = without_binding(bs, gone);
    lemma_binds(bs, a);
    lemma_binds(left, a);
    lemma_other_bindings(bs, gone, a);
    if !names(bs, a) {
        assert(bs.push(q).drop_last() =~= bs);
    } else {
        let init = bs.drop_last();
        let last = bs.last();
        let some = without_binding(init, gone);
        lemma_drop_and_set(init, gone, q);
        lemma_binds(init, a);
        lemma_binds(some, a);
        lemma_other_bindings(init, gone, a);
        assert(bs =~= init.push(last));
        lemma_first_push(init, last, a);
        lemma_first_push(some, last, a);
        if names(init, a) {
            let i = binding_at(init, a);
            let k = binding_at(some, a);
            assert(bs.update(i, q) =~= init.update(i, q).push(last));
            assert(bs.update(i, q).drop_last() =~= init.update(i, q));
            if last.attribute != gone {
                assert(some.push(last).update(k, q) =~= some.update(k, q).push(last));
            }
        } else {
            assert(bs.update(bs.len() - 1, q) =~= init.push(q));
            assert(init.push(q).drop_last() =~= init);
            assert(some.push(last).update(some.len() as int, q) =~= some.push(q));
        }
    }
}

proof fn lemma_two_sets(
    bs: Seq<TelemetryBindingView>,
    p: TelemetryBindingView,
    q: TelemetryBindingView,
)
    requires
        p.attribute != q.attribute,
        names(bs, p.attribute),
    ensures
        with_binding(with_binding(bs, q), p) == with_binding(with_binding(bs, p), q),
{
    lemma_set_elsewhere(bs, p, q.attribute);
    lemma_set_elsewhere(bs, q, p.attribute);
    lemma_binds(bs, p.attribute);
    lemma_binds(bs, q.attribute);
    assert(with_binding(with_binding(bs, q), p) =~= with_binding(with_binding(bs, p), q));
}

proof fn lemma_trade_bindings(
    x: LsgView,
    i: EntityId,
    p: TelemetryBindingView,
    j: EntityId,
    q: TelemetryBindingView,
)
    requires
        x.valid(),
        x.overridden.bindings.contains_key((i.0, p.attribute)),
        stands(x, OpinionView::Binding { entity: i, binding: p }),
        i != j || p.attribute != q.attribute,
    ensures
        ({
            let a = OpinionView::Binding { entity: i, binding: p };
            let b = OpinionView::Binding { entity: j, binding: q };
            unapplied_one(applied_one(x, b).0, a).0 == applied_one(unapplied_one(x, a).0, b).0
        }),
{
    let a = OpinionView::Binding { entity: i, binding: p };
    let b = OpinionView::Binding { entity: j, binding: q };
    let y = unapplied_one(x, a).0;
    let w = applied_one(x, b).0;
    let z = applied_one(y, b).0;
    let u = unapplied_one(w, a).0;
    lemma_other_slots(x, a, b);
    lemma_other_slots(x, b, a);
    let k = (i.0, p.attribute);
    assert(x.entities.contains_key(k.0));
    assert(i == j <==> i.0 == j.0);
    let bs = x.entities[i.0].bindings;
    let prior = x.overridden.bindings[k];
    lemma_binds(bs, p.attribute);
    if let Some(o) = prior {
        assert(o.attribute == p.attribute);
        assert(names(bs, p.attribute));
        if i == j {
            lemma_two_sets(bs, o, q);
            lemma_set_elsewhere(bs, q, p.attribute);
            lemma_set_elsewhere(bs, o, q.attribute);
        }
    } else if i == j {
        lemma_drop_and_set(bs, p.attribute, q);
        lemma_set_elsewhere(bs, q, p.attribute);
        lemma_other_bindings(bs, p.attribute, q.attribute);
        if !names(bs, p.attribute) {
            assert(u.entities[i.0].bindings == with_binding(bs, q));
        }
    }
    if p.attribute == q.attribute {
        let list = bound_by(x.binding_index, p.attribute);
        assert(without_id(list.push(j), i) == without_id(list, i).push(j)) by {
            reveal(Seq::filter);
            assert(list.push(j).drop_last() =~= list);
        }
        let kept = without_id(list, i);
        if kept.len() == 0 {
            assert(kept =~= Seq::empty());
        }
    }
    assert(u.binding_index =~= z.binding_index);
    assert(u.entities =~= z.entities);
    assert(u.overridden.bindings =~= z.overridden.bindings);
}

/// Opinions applied behind a first one.
proof fn lemma_applied_first(v: LsgView, ops: Seq<OpinionView>)
    requires
        ops.len() > 0,
    ensures
        applied(v, ops).0 == applied(applied_one(v, ops[0]).0, ops.drop_first()).0,
        unapplied(v, ops).0 == unapplied(unapplied_one(v, ops[0]).0, ops.drop_first()).0,
    decreases ops.len(),
{
    let rest = ops.drop_first();
    if ops.len() == 1 {
        assert(ops.drop_last() =~= Seq::<OpinionView>::empty());
        assert(rest =~= Seq::<OpinionView>::empty());
        assert(applied(v, ops.drop_last()).0 == v);
        assert(unapplied(v, ops.drop_last()).0 == v);
    } else {
        lemma_applied_first(v, ops.drop_last());
        assert(ops.drop_last().drop_first() =~= rest.drop_last());
        assert(rest.last() == ops.last());
    }
}

/// The opinions have different keys.
pub open spec fn distinct_keys(ops: Seq<OpinionView>) -> bool {
    forall|i: int, j: int|
        0 <= i < j < ops.len() ==> (#[trigger] ops[i]).key() != (#[trigger] ops[j]).key()
}

/// Opinions of other slots leave a slot alone.
proof fn lemma_slot_stands(v: LsgView, a: OpinionView, ops: Seq<OpinionView>)
    requires
        v.valid(),
        stands(v, a),
        forall|i: int| 0 <= i < ops.len() ==> !same_slot(#[trigger] ops[i], a),
    ensures
        stands(applied(v, ops).0, a),
        overrides(applied(v, ops).0, a) == overrides(v, a),
        content(applied(v, ops).0, a) == content(v, a),
    decreases ops.len(),
{
    if ops.len() > 0 {
        let init = ops.drop_last();
        assert forall|i: int| 0 <= i < init.len() implies !same_slot(#[trigger] init[i], a) by {
            assert(!same_slot(ops[i], a));
        }
        lemma_slot_stands(v, a, init);
        lemma_applied_keeps(v, init);
        assert(!same_slot(ops[ops.len() - 1], a));
        lemma_other_slots(applied(v, init).0, ops.last(), a);
    }
}

/// Taking the first opinion back, behind others, leaves what the others set.
proof fn lemma_first_back(v: LsgView, a: OpinionView, ops: Seq<OpinionView>)
    requires
        v.valid(),
        !overrides(v, a),
        forall|i: int| 0 <= i < ops.len() ==> !same_slot(#[trigger] ops[i], a),
    ensures
        unapplied_one(applied(applied_one(v, a).0, ops).0, a).0 == applied(v, ops).0,
    decreases ops.len(),
{
    if ops.len() == 0 {
        law_taking_back_restores(v, a);
    } else {
        let init = ops.drop_last();
        let b = ops.last();
        assert forall|i: int| 0 <= i < init.len() implies !same_slot(#[trigger] init[i], a) by {
            assert(!same_slot(ops[i], a));
        }
        assert(!same_slot(ops[ops.len() - 1], a));
        lemma_first_back(v, a, init);
        let w = applied_one(v, a).0;
        lemma_one_keeps(v, a);
        lemma_own_slot(v, a);
        lemma_applied_keeps(w, init);
        let x = applied(w, init).0;
        if overrides(w, a) {
            assert(stands(w, a)) by {
                lemma_own_slot(w, a);
            }
            lemma_slot_stands(w, a, init);
            lemma_same_slot_swaps(a, b);
            lemma_trade_places(x, a, b);
        } else {
            assert(stands(w, a));
            lemma_slot_stands(w, a, init);
            lemma_other_slots(x, b, a);
        }
    }
}

proof fn lemma_same_slot_swaps(a: OpinionView, b: OpinionView)
    ensures
        same_slot(a, b) == same_slot(b, a),
{
}

/// The revision plays no part in what opinions do.
proof fn lemma_any_revision(v: LsgView, ops: Seq<OpinionView>, revision: u64)
    ensures
        unapplied(LsgView { revision, ..v }, ops).0 == (LsgView {
            revision,
            ..unapplied(v, ops).0
        }),
    decreases ops.len(),
{
    if ops.len() > 0 {
        lemma_any_revision(v, ops.drop_last(), revision);
    }
}

proof fn lemma_all_back(v: LsgView, ops: Seq<OpinionView>)
    requires
        v.valid(),
        distinct_keys(ops),
        forall|i: int| 0 <= i < ops.len() ==> !overrides(v, #[trigger] ops[i]),
    ensures
        unapplied(applied(v, ops).0, ops).0 == v,
    decreases ops.len(),
{
    if ops.len() > 0 {
        let a = ops[0];
        let rest = ops.drop_first();
        assert forall|i: int| 0 <= i < rest.len() implies !same_slot(#[trigger] rest[i], a) by {
            assert(ops[0].key() != ops[i + 1].key());
        }
        lemma_first_back(v, a, rest);
        lemma_applied_first(v, ops);
        lemma_applied_first(applied(v, ops).0, ops);
        assert forall|i: int| 0 <= i < rest.len() implies !overrides(v, #[trigger] rest[i]) by {
            assert(!overrides(v, ops[i + 1]));
        }
        assert forall|i: int, j: int| 0 <= i < j < rest.len() implies (#[trigger] rest[i]).key()
            != (#[trigger] rest[j]).key() by {
            assert(ops[i + 1].key() != ops[j + 1].key());
        }
        lemma_all_back(v, rest);
    }
}

/// Taking opinions back reverses applying them: opinions with different keys that
/// are applied to slots no opinion had filled, and then taken back, leave the index
/// as it was but for its revision. Bindings, tags and values that they overrode are
/// there again, each in its place.
pub proof fn law_taking_all_back_restores(v: LsgView, ops: Seq<OpinionView>)
    requires
        v.valid(),
        distinct_keys(ops),
        forall|i: int| 0 <= i < ops.len() ==> !overrides(v, #[trigger] ops[i]),
    ensures
        ({
            let w = revised(applied(v, ops).0, ops.len() > 0);
            let (x, touched) = unapplied(w, ops);
            let u = revised(x, touched.len() > 0);
            u == LsgView { revision: u.revision, ..v }
        }),
{
    let w = revised(applied(v, ops).0, ops.len() > 0);
    lemma_all_back(v, ops);
    lemma_any_revision(applied(v, ops).0, ops, w.revision);
    assert(w == LsgView { revision: w.revision, ..applied(v, ops).0 });
}

proof fn lemma_bindings_kept(s: Seq<TelemetryBindingView>, attribute: Seq<char>)
    requires
        forall|i: int| 0 <= i < s.len() ==> (#[trigger] s[i]).attribute != attribute,
    ensures
        without_binding(s, attribute) == s,
    decreases s.len(),
{
    reveal(Seq::filter);
    if s.len() > 0 {
        lemma_bindings_kept(s.drop_last(), attribute);
        assert(s =~= s.drop_last().push(s.last()));
        assert(s[s.len() - 1].attribute != attribute);
    }
}

proof fn lemma_ids_kept(s: Seq<EntityId>, id: EntityId)
    requires
        !s.contains(id),
    ensures
        without_id(s, id) == s,
    decreases s.len(),
{
    reveal(Seq::filter);
    if s.len() > 0 {
        assert forall|i: int| 0 <= i < s.drop_last().len() implies s.drop_last()[i] != id by {
            assert(s[i] == s.drop_last()[i]);
        }
        lemma_ids_kept(s.drop_last(), id);
        assert(s =~= s.drop_last().push(s.last()));
        assert(s[s.len() - 1] != id);
    }
}

proof fn lemma_tags_kept(s: Seq<Seq<char>>, tag: Seq<char>)
    requires
        !s.contains(tag),
    ensures
        without_tag(s, tag) == s,
    decreases s.len(),
{
    reveal(Seq::filter);
    if s.len() > 0 {
        assert forall|i: int| 0 <= i < s.drop_last().len() implies s.drop_last()[i] != tag by {
            assert(s[i] == s.drop_last()[i]);
        }
        lemma_tags_kept(s.drop_last(), tag);
        assert(s =~= s.drop_last().push(s.last()));
        assert(s[s.len() - 1] != tag);
    }
}

// ---------------------------------------------------------------------------
// How slots are named, compared and told of.

/// A key says what sort of opinion it is, and which entity and name, or which anchor or
/// edge, it is about. It is what the opinion is stored under.
pub proof fn law_keys_are_written(op: OpinionView)
    ensures
        match op {
            OpinionView::Binding { entity, binding } => op.key() == "bind:"@ + hex16_of(entity.0)
                + ":"@ + binding.attribute && op.kind() == "binding"@,
            OpinionView::Tag { entity, tag } => op.key() == "tag:"@ + hex16_of(entity.0) + ":"@ + tag
                && op.kind() == "tag"@,
            OpinionView::Meta { entity, key, value } => op.key() == "meta:"@ + hex16_of(entity.0)
                + ":"@ + key && op.kind() == "meta"@,
            OpinionView::Anchor(a) => op.key() == "anchor:"@ + hex16_of(a.id.0) && op.kind()
                == "anchor"@,
            OpinionView::Edge(e) => op.key() == "edge:"@ + hex16_of(e.id.0) && op.kind() == "edge"@,
        },
{
    match op {
        OpinionView::Binding { entity, binding } => {
            assert(op.key() =~= "bind:"@ + hex16_of(entity.0) + ":"@ + binding.attribute);
        },
        OpinionView::Tag { entity, tag } => {
            assert(op.key() =~= "tag:"@ + hex16_of(entity.0) + ":"@ + tag);
        },
        OpinionView::Meta { entity, key, value } => {
            assert(op.key() =~= "meta:"@ + hex16_of(entity.0) + ":"@ + key);
        },
        _ => {},
    }
}

/// The hash of a stored opinion is the SHA-256 digest of its payload, two hexadecimal
/// digits for each byte.
pub proof fn law_hashes_are_of_the_payload(o: StoredOpinionView, i: int)
    requires
        0 <= i < crate::hash::sha256(encode_utf8(o.payload_json)).len(),
    ensures
        ({
            let digest = crate::hash::sha256(encode_utf8(o.payload_json));
            &&& o.hash().len() == 2 * digest.len()
            &&& 16 * crate::text::hex_value(o.hash()[2 * i]) + crate::text::hex_value(
                o.hash()[2 * i + 1],
            ) == digest[i]
        }),
{
    crate::text::law_hex_stands_for_its_bytes(
        crate::hash::sha256(encode_utf8(o.payload_json)),
        i,
    );
}

/// No later slot has the key of the one at a place.
pub open spec fn counts_last(slots: Seq<SlotHashView>, i: int) -> bool {
    0 <= i < slots.len() && forall|j: int|
        i < j < slots.len() ==> (#[trigger] slots[j]).key != slots[i].key
}

/// Some slot has a key.
pub open spec fn has_key(slots: Seq<SlotHashView>, key: Seq<char>) -> bool {
    exists|j: int| 0 <= j < slots.len() && (#[trigger] slots[j]).key == key
}

proof fn lemma_hash_map_keys(slots: Seq<SlotHashView>, key: Seq<char>)
    ensures
        hash_map_of(slots).contains_key(key) <==> has_key(slots, key),
    decreases slots.len(),
{
    if slots.len() > 0 {
        let init = slots.drop_last();
        lemma_hash_map_keys(init, key);
        if has_key(init, key) {
            let j = choose|j: int| 0 <= j < init.len() && (#[trigger] init[j]).key == key;
            assert(slots[j] == init[j]);
        }
        if has_key(slots, key) {
            let j = choose|j: int| 0 <= j < slots.len() && (#[trigger] slots[j]).key == key;
            if j < init.len() {
                assert(init[j] == slots[j]);
            }
        }
        assert(slots[slots.len() - 1] == slots.last());
    }
}

proof fn lemma_filtered_keys(
    slots: Seq<SlotHashView>,
    f: spec_fn(SlotHashView) -> bool,
    key: Seq<char>,
)
    ensures
        keys_of(slots.filter(f)).contains(key) <==> exists|j: int|
            0 <= j < slots.len() && f(#[trigger] slots[j]) && slots[j].key == key,
    decreases slots.len(),
{
    reveal(Seq::filter);
    let all = keys_of(slots.filter(f));
    if slots.len() > 0 {
        let init = slots.drop_last();
        let last = slots.last();
        lemma_filtered_keys(init, f, key);
        let before = keys_of(init.filter(f));
        if f(last) {
            assert(all =~= before.push(last.key));
        } else {
            assert(all =~= before);
        }
        if all.contains(key) {
            let i = choose|i: int| 0 <= i < all.len() && all[i] == key;
            if i < before.len() {
                assert(before[i] == key);
                let j = choose|j: int|
                    0 <= j < init.len() && f(#[trigger] init[j]) && init[j].key == key;
                assert(slots[j] == init[j]);
            } else {
                assert(slots[slots.len() - 1] == last);
            }
        }
        if exists|j: int| 0 <= j < slots.len() && f(#[trigger] slots[j]) && slots[j].key == key {
            let j = choose|j: int|
                0 <= j < slots.len() && f(#[trigger] slots[j]) && slots[j].key == key;
            if j < init.len() {
                assert(init[j] == slots[j]);
                let i = choose|i: int| 0 <= i < before.len() && before[i] == key;
                assert(all[i] == key);
            } else {
                assert(all[before.len() as int] == key);
            }
        }
    }
}

/// A new slot is added where nothing was stored under its key; otherwise it is changed
/// where what was stored last under the key has another hash, and unchanged where it
/// has the same. Of several new slots with one key the last counts.
pub proof fn law_slots_are_compared_by_hash(
    new: Seq<SlotHashView>,
    prev: Seq<SlotHashView>,
    i: int,
    j: int,
)
    requires
        counts_last(new, i),
    ensures
        ({
            let d = diff_of(new, prev);
            let key = new[i].key;
            &&& d.added.contains(key) <==> !has_key(prev, key)
            &&& counts_last(prev, j) && prev[j].key == key ==> {
                &&& d.changed.contains(key) <==> prev[j].hash != new[i].hash
                &&& d.unchanged.contains(key) <==> prev[j].hash == new[i].hash
            }
            &&& !has_key(prev, key) ==> !d.changed.contains(key) && !d.unchanged.contains(key)
            &&& is_due(prev, new, i) <==> d.added.contains(key) || d.changed.contains(key)
        }),
{
    let key = new[i].key;
    let last = last_of_each(new);
    let stored = hash_map_of(prev);
    let d = diff_of(new, prev);
    lemma_last_of_each(new);
    assert(is_latest(new, i));
    assert(stands_last(new, i, new[i]));
    assert(last.contains(new[i]));
    let a = choose|a: int| 0 <= a < last.len() && last[a] == new[i];
    lemma_hash_map_keys(prev, key);
    assert forall|b: int| 0 <= b < last.len() && (#[trigger] last[b]).key == key implies last[b]
        == new[i] by {
        assert(last.contains(last[b]));
        let c = choose|c: int| #[trigger] stands_last(new, c, last[b]);
        if c < i {
            assert(new[i].key != new[c].key);
        } else if c > i {
            assert(new[c].key != new[i].key);
        }
    }
    let f = |s: SlotHashView| !stored.contains_key(s.key);
    let g = |s: SlotHashView| stored.contains_key(s.key) && stored[s.key] != s.hash;
    let h = |s: SlotHashView| stored.contains_key(s.key) && stored[s.key] == s.hash;
    lemma_filtered_keys(last, f, key);
    lemma_filtered_keys(last, g, key);
    lemma_filtered_keys(last, h, key);
    assert(d.added == keys_of(last.filter(f)));
    assert(d.changed == keys_of(last.filter(g)));
    assert(d.unchanged == keys_of(last.filter(h)));
    if f(new[i]) {
        assert(f(last[a]));
    }
    if g(new[i]) {
        assert(g(last[a]));
    }
    if h(new[i]) {
        assert(h(last[a]));
    }
    if counts_last(prev, j) && prev[j].key == key {
        lemma_latest_hash(prev, j);
        assert(is_latest(prev, j));
        assert(has_key(prev, key));
    }
}

/// A stored slot is removed exactly where no new one has its key.
pub proof fn law_missing_slots_are_removed(
    new: Seq<SlotHashView>,
    prev: Seq<SlotHashView>,
    j: int,
)
    requires
        0 <= j < prev.len(),
    ensures
        diff_of(new, prev).removed.contains(prev[j].key) <==> !has_key(new, prev[j].key),
        is_gone(prev, new, j) <==> counts_last(prev, j) && !has_key(new, prev[j].key),
{
    let key = prev[j].key;
    let last = last_of_each(new);
    law_diff_partitions_slots(new, prev);
    lemma_hash_map_keys(new, key);
    let f = |s: SlotHashView| !keys_of(last).contains(s.key);
    assert(diff_of(new, prev).removed == keys_of(prev.filter(f)));
    lemma_filtered_keys(prev, f, key);
    assert(keys_of(new).contains(key) <==> has_key(new, key)) by {
        if keys_of(new).contains(key) {
            let a = choose|a: int| 0 <= a < keys_of(new).len() && keys_of(new)[a] == key;
            assert(new[a].key == key);
        }
        if has_key(new, key) {
            let a = choose|a: int| 0 <= a < new.len() && (#[trigger] new[a]).key == key;
            assert(keys_of(new)[a] == key);
        }
    }
    if !has_key(new, key) {
        assert(f(prev[j]));
    }
}

/// What is applied touches the entity that it is about: that of a binding, a tag or a
/// metadata value, where it changes, that of an anchor, and for an edge the one that it
/// starts from. Nothing else is touched.
pub proof fn law_touched_entities_are_told(v: LsgView, ops: Seq<OpinionView>, i: int)
    requires
        0 <= i < ops.len(),
    ensures
        ({
            let (before, _) = applied(v, ops.take(i));
            let touched = applied(v, ops).1;
            match ops[i] {
                OpinionView::Anchor(a) => touched.contains(a.entity.0),
                OpinionView::Edge(e) => touched.contains(e.from.0.0),
                OpinionView::Tag { entity, tag } => before.has(entity)
                    && !before.entities[entity.0].tags.contains(tag) ==> touched.contains(entity.0),
                OpinionView::Meta { entity, key, value } => before.has(entity)
                    ==> touched.contains(entity.0),
                OpinionView::Binding { entity, binding } => before.has(entity)
                    ==> touched.contains(entity.0),
            }
        }),
    decreases ops.len(),
{
    if i < ops.len() - 1 {
        assert(ops.drop_last()[i] == ops[i]);
        assert(ops.drop_last().take(i) =~= ops.take(i));
        law_touched_entities_are_told(v, ops.drop_last(), i);
    } else {
        assert(ops.take(i) =~= ops.drop_last());
    }
}

proof fn lemma_revision_stays(v: LsgView, ops: Seq<OpinionView>)
    ensures
        applied(v, ops).0.revision == v.revision,
        unapplied(v, ops).0.revision == v.revision,
    decreases ops.len(),
{
    if ops.len() > 0 {
        lemma_revision_stays(v, ops.drop_last());
    }
}

/// A reload counts one revision where it applies anything, and one where it takes
/// something back that was there; otherwise the revision stays.
pub proof fn law_reloads_count_revisions(
    v: LsgView,
    prev: Seq<StoredOpinionView>,
    new: Seq<StoredOpinionView>,
)
    requires
        v.revision < u64::MAX - 1,
    ensures
        ({
            let w = reconciled(v, prev, new).0;
            let mid = revised(applied(v, to_apply(prev, new)).0, to_apply(prev, new).len() > 0);
            let back = unapplied(mid, to_remove(prev, new)).1;
            &&& to_apply(prev, new).len() == 0 && back.len() == 0 ==> w.revision == v.revision
            &&& to_apply(prev, new).len() > 0 && back.len() == 0 ==> w.revision == v.revision + 1
            &&& to_apply(prev, new).len() == 0 && back.len() > 0 ==> w.revision == v.revision + 1
            &&& to_apply(prev, new).len() > 0 && back.len() > 0 ==> w.revision == v.revision + 2
        }),
{
    lemma_revision_stays(v, to_apply(prev, new));
    let mid = revised(applied(v, to_apply(prev, new)).0, to_apply(prev, new).len() > 0);
    lemma_revision_stays(mid, to_remove(prev, new));
}

/// The entity that an opinion is about: that of a binding, a tag, a value or an anchor,
/// and for an edge the one that it starts from.
pub open spec fn is_about(op: OpinionView, k: u64) -> bool {
    match op {
        OpinionView::Binding { entity, binding } => entity.0 == k,
        OpinionView::Tag { entity, tag } => entity.0 == k,
        OpinionView::Meta { entity, key, value } => entity.0 == k,
        OpinionView::Anchor(a) => a.entity.0 == k,
        OpinionView::Edge(e) => e.from.0.0 == k,
    }
}

/// The entities that opinions are about are told, all and no others.
pub proof fn law_entities_of_opinions_are_told(ops: Seq<OpinionView>, k: u64)
    ensures
        entities_of(ops).contains(k) <==> exists|i: int|
            0 <= i < ops.len() && is_about(#[trigger] ops[i], k),
    decreases ops.len(),
{
    if ops.len() > 0 {
        let init = ops.drop_last();
        law_entities_of_opinions_are_told(init, k);
        assert(ops[ops.len() - 1] == ops.last());
        if entities_of(init).contains(k) {
            let i = choose|i: int| 0 <= i < init.len() && is_about(#[trigger] init[i], k);
            assert(is_about(ops[i], k));
        }
        if exists|i: int| 0 <= i < ops.len() && is_about(#[trigger] ops[i], k) {
            let i = choose|i: int| 0 <= i < ops.len() && is_about(#[trigger] ops[i], k);
            if i < init.len() {
                assert(is_about(init[i], k));
            }
        }
    }
}

} // verus!
