//! Twin Overlay: runtime-authored opinions that must outlive a process without
//! touching the authored layers.
//!
//! It holds pins (committed transforms, stronger than the authored default) and,
//! for each Flow3D source, the opinions of its last compilation with a stamp. Each
//! mutation counts one revision. The contents are plain values; a durable store
//! reads them in with [`TwinOverlay::restore`] and writes changes through.

use crate::dict::TextMap;
use crate::lsg::{Entity, EntityId, EntityView, Transform};
use crate::model::{group_models, map_views, opt_view, views};
use crate::opinion::{
    diff_of, diff_slots, is_last, is_latest, keys_of, last_of_each, latest_map_ok,
    latest_positions, lemma_filter_all, lemma_last_of_each, lemma_latest_exists,
    lemma_latest_hash, slots, slots_of, stands_last, OpinionDiff, SlotHash, SlotHashView,
    StoredOpinion, StoredOpinionView,
};
use crate::order::{before, is_before, lemma_order};
use crate::table::{ascending, lemma_ascending, IdMap};
use vstd::prelude::*;
use vstd::string::*;

verus! {

/// A record of the last compilation of a source.
#[derive(Debug, Clone)]
pub struct CompileStamp {
    pub source_hash: String,
    pub opinion_count: usize,
    pub revision: u64,
    pub at_ms: i64,
}

pub struct StampView {
    pub source_hash: Seq<char>,
    pub opinion_count: usize,
    pub revision: u64,
    pub at_ms: i64,
}

impl View for CompileStamp {
    type V = StampView;

    open spec fn view(&self) -> StampView {
        StampView {
            source_hash: self.source_hash@,
            opinion_count: self.opinion_count,
            revision: self.revision,
            at_ms: self.at_ms,
        }
    }
}

/// A committed transform.
#[derive(Debug, Clone)]
pub struct Pin {
    pub prim_path: String,
    pub transform: Transform,
    pub pinned_by: Option<String>,
    pub at_ms: i64,
    pub revision: u64,
}

pub struct PinView {
    pub prim_path: Seq<char>,
    pub transform: Transform,
    pub pinned_by: Option<Seq<char>>,
    pub at_ms: i64,
    pub revision: u64,
}

impl View for Pin {
    type V = PinView;

    open spec fn view(&self) -> PinView {
        PinView {
            prim_path: self.prim_path@,
            transform: self.transform,
            pinned_by: opt_view(self.pinned_by),
            at_ms: self.at_ms,
            revision: self.revision,
        }
    }
}

/// A stored opinion: its slot, the hash and the text of its payload, and the
/// revision that wrote it.
#[derive(Debug)]
pub struct OpinionRow {
    pub key: String,
    pub hash: String,
    pub stored: StoredOpinion,
    pub revision: u64,
}

pub struct RowView {
    pub key: Seq<char>,
    pub hash: Seq<char>,
    pub stored: StoredOpinionView,
    pub revision: u64,
}

impl View for OpinionRow {
    type V = RowView;

    open spec fn view(&self) -> RowView {
        RowView {
            key: self.key@,
            hash: self.hash@,
            stored: self.stored@,
            revision: self.revision,
        }
    }
}

/// What is stored of one source: its opinions in the order of their keys, and the
/// stamp of the last compilation.
#[derive(Debug)]
pub struct SourceRecord {
    pub rows: Vec<OpinionRow>,
    pub stamp: Option<CompileStamp>,
}

pub struct SourceView {
    pub rows: Seq<RowView>,
    pub stamp: Option<StampView>,
}

impl View for SourceRecord {
    type V = SourceView;

    open spec fn view(&self) -> SourceView {
        SourceView { rows: views(self.rows@), stamp: opt_view(self.stamp) }
    }
}

/// The model of a [`TwinOverlay`].
pub struct OverlayView {
    pub revision: u64,
    pub pins: Map<u64, PinView>,
    pub sources: Map<Seq<char>, SourceView>,
}

/// Rows stand in the order of their keys, no two with one key.
pub open spec fn rows_ordered(rows: Seq<RowView>) -> bool {
    forall|i: int, j: int|
        0 <= i < j < rows.len() ==> before((#[trigger] rows[i]).key, (#[trigger] rows[j]).key)
}

/// How many rows at the head of a list come before a key.
pub open spec fn row_place(rows: Seq<RowView>, key: Seq<char>) -> int
    decreases rows.len(),
{
    if rows.len() > 0 && before(rows[0].key, key) {
        1 + row_place(rows.drop_first(), key)
    } else {
        0
    }
}

/// There is a row with the key.
pub open spec fn has_row(rows: Seq<RowView>, key: Seq<char>) -> bool {
    exists|i: int| 0 <= i < rows.len() && (#[trigger] rows[i]).key == key
}

/// Rows with one more, in place of one with its key.
pub open spec fn with_row(rows: Seq<RowView>, row: RowView) -> Seq<RowView> {
    let at = row_place(rows, row.key);
    if at < rows.len() && rows[at].key == row.key {
        rows.update(at, row)
    } else {
        rows.insert(at, row)
    }
}

/// Rows without the one with a key.
pub open spec fn without_row(rows: Seq<RowView>, key: Seq<char>) -> Seq<RowView> {
    let at = row_place(rows, key);
    if at < rows.len() && rows[at].key == key {
        rows.remove(at)
    } else {
        rows
    }
}

/// The slots of rows.
pub open spec fn row_slots(rows: Seq<RowView>) -> Seq<SlotHashView> {
    rows.map_values(|r: RowView| SlotHashView { key: r.key, hash: r.hash })
}

/// The last of some opinions with a key.
pub open spec fn latest_of(ops: Seq<StoredOpinionView>, key: Seq<char>) -> Option<StoredOpinionView>
    decreases ops.len(),
{
    if ops.len() == 0 {
        None
    } else if ops.last().key() == key {
        Some(ops.last())
    } else {
        latest_of(ops.drop_last(), key)
    }
}

/// The row that an opinion is written as.
pub open spec fn row_of(op: StoredOpinionView, revision: u64) -> RowView {
    RowView { key: op.key(), hash: op.hash(), stored: op, revision }
}

/// Rows with the opinions of the listed keys written.
pub open spec fn rows_written(
    rows: Seq<RowView>,
    ops: Seq<StoredOpinionView>,
    keys: Seq<Seq<char>>,
    revision: u64,
) -> Seq<RowView>
    decreases keys.len(),
{
    if keys.len() == 0 {
        rows
    } else {
        let init = rows_written(rows, ops, keys.drop_last(), revision);
        match latest_of(ops, keys.last()) {
            Some(op) => with_row(init, row_of(op, revision)),
            None => init,
        }
    }
}

/// Rows without those of the listed keys.
pub open spec fn rows_dropped(rows: Seq<RowView>, keys: Seq<Seq<char>>) -> Seq<RowView>
    decreases keys.len(),
{
    if keys.len() == 0 {
        rows
    } else {
        without_row(rows_dropped(rows, keys.drop_last()), keys.last())
    }
}

/// The smallest patch that brings rows to new opinions: what is added or changed
/// is written, what is gone is dropped, and the rest stays as it is.
pub open spec fn patched(
    rows: Seq<RowView>,
    ops: Seq<StoredOpinionView>,
    revision: u64,
) -> Seq<RowView> {
    let d = diff_of(slots_of(ops), row_slots(rows));
    rows_dropped(rows_written(rows, ops, d.added + d.changed, revision), d.removed)
}

impl OverlayView {
    /// The rows of every source are in order.
    pub open spec fn valid(self) -> bool {
        forall|s: Seq<char>| #[trigger]
            self.sources.contains_key(s) ==> rows_ordered(self.sources[s].rows)
    }

    pub open spec fn rows_of(self, source: Seq<char>) -> Seq<RowView> {
        if self.sources.contains_key(source) {
            self.sources[source].rows
        } else {
            Seq::empty()
        }
    }

    pub open spec fn stamp_of(self, source: Seq<char>) -> Option<StampView> {
        if self.sources.contains_key(source) {
            self.sources[source].stamp
        } else {
            None
        }
    }

    /// A stored pin taken in as it is.
    pub open spec fn with_stored_pin(self, id: u64, pin: PinView) -> OverlayView {
        OverlayView { pins: self.pins.insert(id, pin), ..self }
    }

    /// A stored row of a source taken in as it is.
    pub open spec fn with_stored_row(self, source: Seq<char>, row: RowView) -> OverlayView {
        OverlayView {
            sources: self.sources.insert(
                source,
                SourceView {
                    rows: with_row(self.rows_of(source), row),
                    stamp: self.stamp_of(source),
                },
            ),
            ..self
        }
    }

    /// The transform in force: that of the pin, or else the authored one.
    pub open spec fn resolved(self, e: EntityView) -> Transform {
        if self.pins.contains_key(e.id.0) {
            self.pins[e.id.0].transform
        } else {
            e.transform_default
        }
    }

    /// A pin committed, as a revision of its own.
    pub open spec fn pinned(self, id: EntityId, pin: PinView) -> OverlayView {
        OverlayView {
            revision: (self.revision + 1) as u64,
            pins: self.pins.insert(
                id.0,
                PinView { revision: (self.revision + 1) as u64, ..pin },
            ),
            ..self
        }
    }

    /// A pin removed, as a revision of its own.
    pub open spec fn unpinned(self, id: EntityId) -> OverlayView {
        OverlayView {
            revision: (self.revision + 1) as u64,
            pins: self.pins.remove(id.0),
            ..self
        }
    }

    /// New opinions of a source stored, as a revision of their own.
    pub open spec fn recompiled(
        self,
        source: Seq<char>,
        source_hash: Seq<char>,
        ops: Seq<StoredOpinionView>,
        at_ms: i64,
    ) -> OverlayView {
        let revision = (self.revision + 1) as u64;
        OverlayView {
            revision,
            sources: self.sources.insert(
                source,
                SourceView {
                    rows: patched(self.rows_of(source), ops, revision),
                    stamp: Some(
                        StampView {
                            source_hash,
                            opinion_count: ops.len() as usize,
                            revision,
                            at_ms,
                        },
                    ),
                },
            ),
            ..self
        }
    }
}

proof fn lemma_row_place(rows: Seq<RowView>, key: Seq<char>)
    ensures
        0 <= row_place(rows, key) <= rows.len(),
        forall|i: int| 0 <= i < row_place(rows, key) ==> before((#[trigger] rows[i]).key, key),
        row_place(rows, key) < rows.len() ==> !before(rows[row_place(rows, key)].key, key),
    decreases rows.len(),
{
    if rows.len() > 0 && before(rows[0].key, key) {
        let rest = rows.drop_first();
        lemma_row_place(rest, key);
        assert forall|i: int| 0 <= i < row_place(rows, key) implies before(
            (#[trigger] rows[i]).key,
            key,
        ) by {
            if i > 0 {
                assert(rows[i] == rest[i - 1]);
            }
        }
        if row_place(rows, key) < rows.len() {
            assert(rows[row_place(rows, key)] == rest[row_place(rest, key)]);
        }
    }
}

/// In ordered rows a key stands at its place or nowhere.
proof fn lemma_row_found(rows: Seq<RowView>, key: Seq<char>)
    requires
        rows_ordered(rows),
    ensures
        has_row(rows, key) <==> row_place(rows, key) < rows.len() && rows[row_place(
            rows,
            key,
        )].key == key,
{
    lemma_row_place(rows, key);
    let at = row_place(rows, key);
    if has_row(rows, key) {
        let i = choose|i: int| 0 <= i < rows.len() && (#[trigger] rows[i]).key == key;
        lemma_order(key, key, key);
        if i < at {
            assert(before(rows[i].key, key));
        } else if i > at {
            assert(before(rows[at].key, rows[i].key));
        }
    } else if at < rows.len() && rows[at].key == key {
        assert(has_row(rows, key));
    }
}

/// Writing a row keeps the order, sets its key and leaves the others.
proof fn lemma_with_row(rows: Seq<RowView>, row: RowView)
    requires
        rows_ordered(rows),
    ensures
        rows_ordered(with_row(rows, row)),
        forall|r: RowView| #[trigger]
            with_row(rows, row).contains(r) <==> r == row || (rows.contains(r) && r.key != row.key),
{
    let at = row_place(rows, row.key);
    let w = with_row(rows, row);
    lemma_row_place(rows, row.key);
    lemma_row_found(rows, row.key);
    let replaced = at < rows.len() && rows[at].key == row.key;
    assert forall|i: int, j: int| 0 <= i < j < w.len() implies before(
        (#[trigger] w[i]).key,
        (#[trigger] w[j]).key,
    ) by {
        if replaced {
            assert(w[i].key == rows[i].key);
            assert(w[j].key == rows[j].key);
        } else if j == at {
            assert(w[i] == rows[i]);
        } else if i == at {
            assert(w[j] == rows[j - 1]);
            lemma_order(rows[at].key, row.key, row.key);
            if at < j - 1 {
                assert(before(rows[at].key, rows[j - 1].key));
            }
            lemma_order(row.key, rows[at].key, rows[j - 1].key);
        } else {
            let a = if i < at {
                i
            } else {
                i - 1
            };
            let b = if j < at {
                j
            } else {
                j - 1
            };
            assert(w[i] == rows[a]);
            assert(w[j] == rows[b]);
        }
    }
    assert(w[at] == row);
    assert forall|r: RowView| #[trigger] w.contains(r) <==> r == row || (rows.contains(r) && r.key
        != row.key) by {
        if w.contains(r) {
            let i = choose|i: int| 0 <= i < w.len() && w[i] == r;
            if i != at {
                let x = if replaced || i < at {
                    i
                } else {
                    i - 1
                };
                assert(rows[x] == r);
                if r.key == row.key {
                    assert(has_row(rows, row.key));
                    lemma_order(row.key, row.key, row.key);
                    if x < at {
                        assert(before(rows[x].key, row.key));
                    } else {
                        assert(before(rows[at].key, rows[x].key));
                    }
                }
            }
        }
        if rows.contains(r) && r.key != row.key {
            let x = choose|x: int| 0 <= x < rows.len() && rows[x] == r;
            if replaced || x < at {
                assert(w[x] == r);
            } else {
                assert(w[x + 1] == r);
            }
        }
    }
}

/// Dropping a row keeps the order and leaves the others.
proof fn lemma_without_row(rows: Seq<RowView>, key: Seq<char>)
    requires
        rows_ordered(rows),
    ensures
        rows_ordered(without_row(rows, key)),
        forall|r: RowView| #[trigger]
            without_row(rows, key).contains(r) <==> rows.contains(r) && r.key != key,
{
    let at = row_place(rows, key);
    let w = without_row(rows, key);
    lemma_row_place(rows, key);
    lemma_row_found(rows, key);
    let removed = at < rows.len() && rows[at].key == key;
    if removed {
        assert forall|i: int, j: int| 0 <= i < j < w.len() implies before(
            (#[trigger] w[i]).key,
            (#[trigger] w[j]).key,
        ) by {
            let a = if i < at {
                i
            } else {
                i + 1
            };
            let b = if j < at {
                j
            } else {
                j + 1
            };
            assert(w[i] == rows[a]);
            assert(w[j] == rows[b]);
        }
    }
    assert forall|r: RowView| #[trigger] w.contains(r) <==> rows.contains(r) && r.key != key by {
        if w.contains(r) {
            let i = choose|i: int| 0 <= i < w.len() && w[i] == r;
            let x = if !removed || i < at {
                i
            } else {
                i + 1
            };
            assert(rows[x] == r);
            if r.key == key {
                assert(has_row(rows, key));
                lemma_order(key, key, key);
                if x < at {
                    assert(before(rows[x].key, key));
                } else {
                    assert(before(rows[at].key, rows[x].key));
                }
            }
        }
        if rows.contains(r) && r.key != key {
            let x = choose|x: int| 0 <= x < rows.len() && rows[x] == r;
            if !removed || x < at {
                assert(w[x] == r);
            } else {
                assert(w[x - 1] == r);
            }
        }
    }
}

proof fn lemma_rows_written(
    rows: Seq<RowView>,
    ops: Seq<StoredOpinionView>,
    keys: Seq<Seq<char>>,
    revision: u64,
)
    requires
        rows_ordered(rows),
    ensures
        rows_ordered(rows_written(rows, ops, keys, revision)),
        forall|r: RowView| #[trigger]
            rows_written(rows, ops, keys, revision).contains(r) <==> if keys.contains(r.key)
                && latest_of(ops, r.key) is Some {
                r == row_of(latest_of(ops, r.key)->0, revision)
            } else {
                rows.contains(r)
            },
    decreases keys.len(),
{
    if keys.len() > 0 {
        let init = keys.drop_last();
        let key = keys.last();
        lemma_rows_written(rows, ops, init, revision);
        let w = rows_written(rows, ops, init, revision);
        let all = rows_written(rows, ops, keys, revision);
        lemma_latest_of(ops, key);
        if let Some(op) = latest_of(ops, key) {
            lemma_with_row(w, row_of(op, revision));
        }
        assert forall|r: RowView| #[trigger] all.contains(r) <==> if keys.contains(r.key)
            && latest_of(ops, r.key) is Some {
            r == row_of(latest_of(ops, r.key)->0, revision)
        } else {
            rows.contains(r)
        } by {
            assert(w.contains(r) <==> if init.contains(r.key) && latest_of(ops, r.key) is Some {
                r == row_of(latest_of(ops, r.key)->0, revision)
            } else {
                rows.contains(r)
            });
            if init.contains(r.key) {
                let i = choose|i: int| 0 <= i < init.len() && init[i] == r.key;
                assert(keys[i] == r.key);
            }
            if keys.contains(r.key) {
                let i = choose|i: int| 0 <= i < keys.len() && keys[i] == r.key;
                if i < init.len() {
                    assert(init[i] == r.key);
                }
            }
            assert(keys[keys.len() - 1] == key);
        }
    }
}

proof fn lemma_latest_of(ops: Seq<StoredOpinionView>, key: Seq<char>)
    ensures
        match latest_of(ops, key) {
            Some(op) => op.key() == key && ops.contains(op),
            None => forall|i: int| 0 <= i < ops.len() ==> (#[trigger] ops[i]).key() != key,
        },
    decreases ops.len(),
{
    if ops.len() > 0 {
        let init = ops.drop_last();
        if ops.last().key() == key {
            assert(ops[ops.len() - 1] == ops.last());
        } else {
            lemma_latest_of(init, key);
            match latest_of(init, key) {
                Some(op) => {
                    let i = choose|i: int| 0 <= i < init.len() && init[i] == op;
                    assert(ops[i] == op);
                },
                None => {
                    assert forall|i: int| 0 <= i < ops.len() implies (#[trigger] ops[i]).key()
                        != key by {
                        if i < init.len() {
                            assert(init[i].key() != key);
                        }
                    }
                },
            }
        }
    }
}

proof fn lemma_rows_dropped(rows: Seq<RowView>, keys: Seq<Seq<char>>)
    requires
        rows_ordered(rows),
    ensures
        rows_ordered(rows_dropped(rows, keys)),
        forall|r: RowView| #[trigger]
            rows_dropped(rows, keys).contains(r) <==> rows.contains(r) && !keys.contains(r.key),
    decreases keys.len(),
{
    if keys.len() > 0 {
        let init = keys.drop_last();
        lemma_rows_dropped(rows, init);
        let w = rows_dropped(rows, init);
        lemma_without_row(w, keys.last());
        assert forall|r: RowView| #[trigger] rows_dropped(rows, keys).contains(r)
            <==> rows.contains(r) && !keys.contains(r.key) by {
            assert(w.contains(r) <==> rows.contains(r) && !init.contains(r.key));
            if init.contains(r.key) {
                let i = choose|i: int| 0 <= i < init.len() && init[i] == r.key;
                assert(keys[i] == r.key);
            }
            if keys.contains(r.key) {
                let i = choose|i: int| 0 <= i < keys.len() && keys[i] == r.key;
                if i < init.len() {
                    assert(init[i] == r.key);
                }
            }
            assert(keys[keys.len() - 1] == keys.last());
        }
    }
}

/// The latest opinion with a key is the one behind which no other has it.
proof fn lemma_latest_at(ops: Seq<StoredOpinionView>, key: Seq<char>, i: int)
    requires
        0 <= i < ops.len(),
        ops[i].key() == key,
        forall|j: int| i < j < ops.len() ==> (#[trigger] ops[j]).key() != key,
    ensures
        latest_of(ops, key) == Some(ops[i]),
    decreases ops.len(),
{
    if i < ops.len() - 1 {
        let init = ops.drop_last();
        assert(ops[ops.len() - 1].key() != key);
        assert forall|j: int| i < j < init.len() implies (#[trigger] init[j]).key() != key by {
            assert(ops[j].key() != key);
        }
        lemma_latest_at(init, key, i);
    }
}

/// The slots of ordered rows have distinct keys.
proof fn lemma_row_slots(rows: Seq<RowView>)
    requires
        rows_ordered(rows),
    ensures
        keys_of(row_slots(rows)).no_duplicates(),
{
    let k = keys_of(row_slots(rows));
    assert forall|i: int, j: int| 0 <= i < k.len() && 0 <= j < k.len() && i != j implies k[i]
        != k[j] by {
        assert(k[i] == rows[i].key && k[j] == rows[j].key);
        lemma_order(k[i], k[i], k[i]);
        if i < j {
            assert(before(rows[i].key, rows[j].key));
        } else {
            assert(before(rows[j].key, rows[i].key));
        }
    }
}

fn find_row(rows: &Vec<OpinionRow>, key: &str) -> (p: usize)
    ensures
        p == row_place(views(rows@), key@),
        p <= rows@.len(),
{
    let ghost all = views(rows@);
    let mut p: usize = 0;
    proof {
        assert(all.skip(0) =~= all);
    }
    while p < rows.len()
        invariant
            p <= rows@.len(),
            all == views(rows@),
            row_place(all, key@) == p + row_place(all.skip(p as int), key@),
        decreases rows@.len() - p,
    {
        proof {
            assert(all.skip(p as int)[0] == rows@[p as int]@);
            assert(all.skip(p as int).drop_first() =~= all.skip(p + 1));
        }
        if !is_before(rows[p].key.as_str(), key) {
            return p;
        }
        p = p + 1;
    }
    p
}

fn write_row(rows: &mut Vec<OpinionRow>, row: OpinionRow)
    ensures
        views(final(rows)@) == with_row(views(old(rows)@), row@),
{
    let ghost r0 = views(rows@);
    let at: usize = find_row(rows, row.key.as_str());
    if at < rows.len() && rows[at].key == row.key {
        rows.set(at, row);
        proof {
            assert(views(rows@) =~= with_row(r0, row@));
        }
    } else {
        rows.insert(at, row);
        proof {
            assert(views(rows@) =~= with_row(r0, row@));
        }
    }
}

fn drop_row(rows: &mut Vec<OpinionRow>, key: &String)
    ensures
        views(final(rows)@) == without_row(views(old(rows)@), key@),
{
    let ghost r0 = views(rows@);
    let at: usize = find_row(rows, key.as_str());
    if at < rows.len() && rows[at].key == *key {
        rows.remove(at);
    }
    proof {
        assert(views(rows@) =~= without_row(r0, key@));
    }
}

/// Writes the latest opinion of each of the listed keys.
fn write_rows(
    rows: &mut Vec<OpinionRow>,
    ops: &[StoredOpinion],
    slots: &Vec<SlotHash>,
    keys: &Vec<String>,
    revision: u64,
)
    requires
        views(slots@) == slots_of(views(ops@)),
    ensures
        views(final(rows)@) == rows_written(views(old(rows)@), views(ops@), views(keys@), revision),
{
    let ghost all = views(ops@);
    let ghost ks = views(keys@);
    let ghost filled = views(slots@);
    let latest = latest_positions(slots);
    let mut i: usize = 0;
    proof {
        assert(ks.take(0) =~= Seq::empty());
    }
    while i < keys.len()
        invariant
            i <= keys@.len(),
            ks == views(keys@),
            all == views(ops@),
            filled == views(slots@),
            filled == slots_of(all),
            latest_map_ok(latest@, filled, filled.len() as int),
            views(rows@) == rows_written(views(old(rows)@), all, ks.take(i as int), revision),
        decreases keys@.len() - i,
    {
        proof {
            assert(ks.take(i + 1).drop_last() =~= ks.take(i as int));
            assert(ks.take(i + 1).last() == keys@[i as int]@);
            lemma_latest_of(all, keys@[i as int]@);
        }
        match latest.get(keys[i].as_str()) {
            Some(at) => {
                let op = &ops[*at];
                let slot = &slots[*at];
                proof {
                    assert(all[*at as int] == op@);
                    assert(filled[*at as int] == slot@);
                    assert forall|j: int| *at < j < all.len() implies (#[trigger] all[j]).key()
                        != keys@[i as int]@ by {
                        assert(filled[j].key == all[j].key());
                    }
                    lemma_latest_at(all, keys@[i as int]@, *at as int);
                }
                write_row(
                    rows,
                    OpinionRow {
                        key: slot.key.clone(),
                        hash: slot.hash.clone(),
                        stored: op.clone(),
                        revision,
                    },
                );
            },
            None => {
                proof {
                    if let Some(op) = latest_of(all, keys@[i as int]@) {
                        let j = choose|j: int| 0 <= j < all.len() && all[j] == op;
                        assert(latest@.contains_key(filled[j].key));
                    }
                }
            },
        }
        i = i + 1;
    }
    proof {
        assert(ks.take(i as int) =~= ks);
    }
}

proof fn lemma_rows_written_concat(
    rows: Seq<RowView>,
    ops: Seq<StoredOpinionView>,
    a: Seq<Seq<char>>,
    b: Seq<Seq<char>>,
    revision: u64,
)
    ensures
        rows_written(rows, ops, a + b, revision) == rows_written(
            rows_written(rows, ops, a, revision),
            ops,
            b,
            revision,
        ),
    decreases b.len(),
{
    if b.len() == 0 {
        assert(a + b =~= a);
    } else {
        lemma_rows_written_concat(rows, ops, a, b.drop_last(), revision);
        assert((a + b).drop_last() =~= a + b.drop_last());
        assert((a + b).last() == b.last());
    }
}

/// The overlay.
pub struct TwinOverlay {
    revision: u64,
    pins: IdMap<Pin>,
    sources: TextMap<SourceRecord>,
}

impl View for TwinOverlay {
    type V = OverlayView;

    closed spec fn view(&self) -> OverlayView {
        OverlayView {
            revision: self.revision,
            pins: map_views(self.pins@),
            sources: map_views(self.sources@),
        }
    }
}

impl TwinOverlay {
    /// The rows of every source are in order.
    pub open spec fn wf(&self) -> bool {
        self@.valid()
    }

    /// An empty overlay.
    pub fn new() -> (r: Self)
        ensures
            r.wf(),
            r@ == (OverlayView { revision: 0, pins: Map::empty(), sources: Map::empty() }),
    {
        broadcast use group_models;

        TwinOverlay { revision: 0, pins: IdMap::new(), sources: TextMap::new() }
    }

    /// An overlay at a stored revision, to be filled with what was stored.
    pub fn restore(revision: u64) -> (r: Self)
        ensures
            r.wf(),
            r@ == (OverlayView { revision, pins: Map::empty(), sources: Map::empty() }),
    {
        broadcast use group_models;

        TwinOverlay { revision, pins: IdMap::new(), sources: TextMap::new() }
    }

    /// Takes a stored pin in as it is.
    pub fn restore_pin(&mut self, id: EntityId, pin: Pin)
        requires
            old(self).wf(),
        ensures
            final(self).wf(),
            final(self)@ == old(self)@.with_stored_pin(id.0, pin@),
    {
        broadcast use group_models;

        self.pins.insert(id.0, pin);
    }

    /// Takes a stored row of a source in as it is.
    pub fn restore_row(&mut self, source: &str, row: OpinionRow)
        requires
            old(self).wf(),
        ensures
            final(self).wf(),
            final(self)@ == old(self)@.with_stored_row(source@, row@),
    {
        broadcast use group_models;

        let ghost v = self@;
        let mut rec = self.take_source(source);
        proof {
            lemma_with_row(v.rows_of(source@), row@);
        }
        write_row(&mut rec.rows, row);
        self.sources.insert(source.to_owned(), rec);
        proof {
            assert(self@.sources =~= v.with_stored_row(source@, row@).sources);
            assert forall|s: Seq<char>| #[trigger]
                self@.sources.contains_key(s) implies rows_ordered(self@.sources[s].rows) by {
                if s != source@ {
                    assert(v.sources.contains_key(s));
                }
            }
        }
    }

    /// Takes the stored stamp of a source in as it is.
    pub fn restore_stamp(&mut self, source: &str, stamp: CompileStamp)
        requires
            old(self).wf(),
        ensures
            final(self).wf(),
            final(self)@ == (OverlayView {
                sources: old(self)@.sources.insert(
                    source@,
                    SourceView {
                        rows: old(self)@.rows_of(source@),
                        stamp: Some(stamp@),
                    },
                ),
                ..old(self)@
            }),
    {
        broadcast use group_models;

        let ghost v = self@;
        let mut rec = self.take_source(source);
        rec.stamp = Some(stamp);
        self.sources.insert(source.to_owned(), rec);
        proof {
            assert forall|s: Seq<char>| #[trigger]
                self@.sources.contains_key(s) implies rows_ordered(self@.sources[s].rows) by {
                if s != source@ {
                    assert(v.sources.contains_key(s));
                }
            }
        }
    }

    fn take_source(&mut self, source: &str) -> (rec: SourceRecord)
        requires
            old(self).wf(),
        ensures
            rec@.rows == old(self)@.rows_of(source@),
            rec@.stamp == old(self)@.stamp_of(source@),
            rows_ordered(rec@.rows),
            final(self)@ == (OverlayView {
                sources: old(self)@.sources.remove(source@),
                ..old(self)@
            }),
    {
        broadcast use group_models;

        match self.sources.take(source) {
            Some(rec) => {
                proof {
                    assert(old(self)@.sources.contains_key(source@));
                }
                rec
            },
            None => {
                let rec = SourceRecord { rows: Vec::new(), stamp: None };
                proof {
                    assert(rec@.rows =~= Seq::empty());
                }
                rec
            },
        }
    }

    /// The revision, which each mutation counts up.
    pub fn revision(&self) -> (n: u64)
        ensures
            n == self@.revision,
    {
        self.revision
    }

    /// Commits a transform for an entity. Returns the new revision.
    pub fn pin(
        &mut self,
        entity_id: EntityId,
        prim_path: &str,
        transform: Transform,
        pinned_by: Option<&str>,
        at_ms: i64,
    ) -> (revision: u64)
        requires
            old(self).wf(),
            old(self)@.revision < u64::MAX,
        ensures
            final(self).wf(),
            revision == old(self)@.revision + 1,
            final(self)@ == old(self)@.pinned(
                entity_id,
                (PinView {
                    prim_path: prim_path@,
                    transform,
                    pinned_by: match pinned_by {
                        Some(s) => Some(s@),
                        None => None,
                    },
                    at_ms,
                    revision: 0,
                }),
            ),
    {
        broadcast use group_models;

        self.revision = self.revision + 1;
        let who = match pinned_by {
            Some(s) => Some(s.to_owned()),
            None => None,
        };
        self.pins.insert(
            entity_id.0,
            Pin {
                prim_path: prim_path.to_owned(),
                transform,
                pinned_by: who,
                at_ms,
                revision: self.revision,
            },
        );
        self.revision
    }

    /// Removes a pin. Returns the new revision, and whether there was a pin.
    pub fn unpin(&mut self, entity_id: EntityId) -> (r: (u64, bool))
        requires
            old(self).wf(),
            old(self)@.revision < u64::MAX,
        ensures
            final(self).wf(),
            r == ((old(self)@.revision + 1) as u64, old(self)@.pins.contains_key(entity_id.0)),
            final(self)@ == old(self)@.unpinned(entity_id),
    {
        broadcast use group_models;

        self.revision = self.revision + 1;
        let existed = self.pins.remove(entity_id.0).is_some();
        (self.revision, existed)
    }

    /// The pin of an entity, if there is one.
    pub fn get_pin(&self, entity_id: EntityId) -> (r: Option<&Pin>)
        ensures
            match r {
                Some(p) => self@.pins.contains_key(entity_id.0) && p@ == self@.pins[entity_id.0],
                None => !self@.pins.contains_key(entity_id.0),
            },
    {
        self.pins.get(entity_id.0)
    }

    pub fn pin_count(&self) -> (n: usize)
        ensures
            n == self@.pins.dom().len(),
    {
        proof {
            assert(self@.pins.dom() =~= self.pins@.dom());
        }
        self.pins.len()
    }

    /// The transform in force for an entity: that of the pin, or else the
    /// authored one.
    pub fn resolved_transform(&self, entity: &Entity) -> (t: Transform)
        ensures
            t == self@.resolved(entity@),
    {
        match self.get_pin(entity.id) {
            Some(pin) => pin.transform,
            None => entity.transform_default,
        }
    }

    /// The stored slots of a source, in the order of their keys.
    pub fn opinion_hashes(&self, source: &str) -> (r: Vec<SlotHash>)
        requires
            self.wf(),
        ensures
            views(r@) == row_slots(self@.rows_of(source@)),
            keys_of(views(r@)).no_duplicates(),
    {
        broadcast use group_models;

        let ghost rows = self@.rows_of(source@);
        let ghost slots = row_slots(rows);
        let mut r: Vec<SlotHash> = Vec::new();
        proof {
            assert(views(r@) =~= slots.take(0));
            if self@.sources.contains_key(source@) {
                assert(rows_ordered(rows));
            }
            lemma_row_slots(rows);
        }
        if let Some(rec) = self.sources.get(source) {
            let mut i: usize = 0;
            while i < rec.rows.len()
                invariant
                    i <= rec.rows@.len(),
                    rows == views(rec.rows@),
                    slots == row_slots(rows),
                    views(r@) == slots.take(i as int),
                decreases rec.rows@.len() - i,
            {
                r.push(
                    SlotHash { key: rec.rows[i].key.clone(), hash: rec.rows[i].hash.clone() },
                );
                i = i + 1;
                proof {
                    assert(slots.take(i as int) =~= slots.take(i - 1).push(slots[i - 1]));
                }
            }
        }
        proof {
            assert(slots.take(slots.len() as int) =~= slots);
        }
        r
    }

    /// The stored opinions of a source, in the order of their keys.
    pub fn load_opinions(&self, source: &str) -> (r: Vec<StoredOpinion>)
        ensures
            views(r@) == self@.rows_of(source@).map_values(|row: RowView| row.stored),
    {
        broadcast use group_models;

        let ghost rows = self@.rows_of(source@);
        let ghost all = rows.map_values(|row: RowView| row.stored);
        let mut r: Vec<StoredOpinion> = Vec::new();
        proof {
            assert(views(r@) =~= all.take(0));
        }
        if let Some(rec) = self.sources.get(source) {
            let mut i: usize = 0;
            while i < rec.rows.len()
                invariant
                    i <= rec.rows@.len(),
                    rows == views(rec.rows@),
                    all == rows.map_values(|row: RowView| row.stored),
                    views(r@) == all.take(i as int),
                decreases rec.rows@.len() - i,
            {
                r.push(rec.rows[i].stored.clone());
                i = i + 1;
                proof {
                    assert(all.take(i as int) =~= all.take(i - 1).push(all[i - 1]));
                }
            }
        }
        proof {
            assert(all.take(all.len() as int) =~= all);
        }
        r
    }

    /// The rows of a source, for a store to write.
    pub fn rows(&self, source: &str) -> (r: Option<&Vec<OpinionRow>>)
        ensures
            match r {
                Some(rows) => views(rows@) == self@.rows_of(source@)
                    && self@.sources.contains_key(source@),
                None => !self@.sources.contains_key(source@),
            },
    {
        match self.sources.get(source) {
            Some(rec) => Some(&rec.rows),
            None => None,
        }
    }

    /// The stamp of the last compilation of a source.
    pub fn compile_stamp(&self, source: &str) -> (r: Option<&CompileStamp>)
        ensures
            match r {
                Some(stamp) => self@.stamp_of(source@) == Some(stamp@),
                None => self@.stamp_of(source@) is None,
            },
    {
        match self.sources.get(source) {
            Some(rec) => match &rec.stamp {
                Some(stamp) => Some(stamp),
                None => None,
            },
            None => None,
        }
    }

    /// Stores the opinions of a compilation by the smallest patch: what is added
    /// or changed is written and what is gone is dropped, while unchanged rows
    /// keep their revision. Returns the new revision and the diff.
    pub fn apply_opinions(
        &mut self,
        source: &str,
        source_hash: &str,
        opinions: &[StoredOpinion],
        at_ms: i64,
    ) -> (r: (u64, OpinionDiff))
        requires
            old(self).wf(),
            old(self)@.revision < u64::MAX,
        ensures
            final(self).wf(),
            r.0 == old(self)@.revision + 1,
            r.1@ == diff_of(slots_of(views(opinions@)), row_slots(old(self)@.rows_of(source@))),
            final(self)@ == old(self)@.recompiled(
                source@,
                source_hash@,
                views(opinions@),
                at_ms,
            ),
    {
        broadcast use group_models;

        let ghost v = self@;
        let ghost ops = views(opinions@);
        let ghost rows = v.rows_of(source@);
        let prev = self.opinion_hashes(source);
        let filled = slots(opinions);
        let d = diff_slots(&filled, &prev);
        self.revision = self.revision + 1;
        let revision: u64 = self.revision;
        let mut rec = self.take_source(source);
        write_rows(&mut rec.rows, opinions, &filled, &d.added, revision);
        write_rows(&mut rec.rows, opinions, &filled, &d.changed, revision);
        proof {
            lemma_rows_written_concat(rows, ops, d@.added, d@.changed, revision);
            lemma_rows_written(rows, ops, d@.added + d@.changed, revision);
            lemma_rows_dropped(
                rows_written(rows, ops, d@.added + d@.changed, revision),
                d@.removed,
            );
        }
        let ghost written = rec@.rows;
        let mut i: usize = 0;
        proof {
            assert(d@.removed.take(0) =~= Seq::empty());
        }
        while i < d.removed.len()
            invariant
                i <= d.removed@.len(),
                rec@.rows == rows_dropped(written, d@.removed.take(i as int)),
            decreases d.removed@.len() - i,
        {
            drop_row(&mut rec.rows, &d.removed[i]);
            i = i + 1;
            proof {
                let k = d@.removed;
                assert(k.take(i as int).drop_last() =~= k.take(i - 1));
                assert(k.take(i as int).last() == d.removed@[i - 1]@);
            }
        }
        proof {
            assert(d@.removed.take(i as int) =~= d@.removed);
        }
        rec.stamp = Some(
            CompileStamp {
                source_hash: source_hash.to_owned(),
                opinion_count: opinions.len(),
                revision,
                at_ms,
            },
        );
        let ghost last = rec@;
        self.sources.insert(source.to_owned(), rec);
        proof {
            assert(last.rows == patched(rows, ops, revision));
            assert(self@ == v.recompiled(source@, source_hash@, ops, at_ms));
            assert forall|s: Seq<char>| #[trigger]
                self@.sources.contains_key(s) implies rows_ordered(self@.sources[s].rows) by {
                if s != source@ {
                    assert(v.sources.contains_key(s));
                }
            }
        }
        (revision, d)
    }

    /// How many opinions of a source are stored.
    pub fn opinion_count(&self, source: &str) -> (n: usize)
        ensures
            n == self@.rows_of(source@).len(),
    {
        match self.sources.get(source) {
            Some(rec) => rec.rows.len(),
            None => 0,
        }
    }
}

// ---------------------------------------------------------------------------
// What holds of the overlay.

/// A pin is stronger than the authored transform, and leaves other entities
/// alone.
pub proof fn law_pin_wins(v: OverlayView, e: EntityView, other: EntityView, pin: PinView)
    requires
        other.id != e.id,
    ensures
        v.pinned(e.id, pin).resolved(e) == pin.transform,
        v.pinned(e.id, pin).resolved(other) == v.resolved(other),
{
}

/// Without its pin an entity is back at the authored transform.
pub proof fn law_unpin_reverts(v: OverlayView, e: EntityView, other: EntityView)
    requires
        other.id != e.id,
    ensures
        v.unpinned(e.id).resolved(e) == e.transform_default,
        v.unpinned(e.id).resolved(other) == v.resolved(other),
{
}

/// Each mutation counts one revision.
pub proof fn law_revision_grows(
    v: OverlayView,
    id: EntityId,
    pin: PinView,
    source: Seq<char>,
    source_hash: Seq<char>,
    ops: Seq<StoredOpinionView>,
    at_ms: i64,
)
    requires
        v.revision < u64::MAX,
    ensures
        v.pinned(id, pin).revision == v.revision + 1,
        v.unpinned(id).revision == v.revision + 1,
        v.recompiled(source, source_hash, ops, at_ms).revision == v.revision + 1,
{
}

/// Pins and the opinions of each source are kept apart.
pub proof fn law_parts_are_independent(
    v: OverlayView,
    id: EntityId,
    pin: PinView,
    source: Seq<char>,
    other: Seq<char>,
    source_hash: Seq<char>,
    ops: Seq<StoredOpinionView>,
    at_ms: i64,
)
    requires
        source != other,
    ensures
        v.pinned(id, pin).sources == v.sources,
        v.unpinned(id).sources == v.sources,
        v.recompiled(source, source_hash, ops, at_ms).pins == v.pins,
        v.recompiled(source, source_hash, ops, at_ms).rows_of(other) == v.rows_of(other),
{
}

/// What is in the filtered keys.
proof fn lemma_filtered_keys(s: Seq<SlotHashView>, f: spec_fn(SlotHashView) -> bool, k: Seq<char>)
    ensures
        keys_of(s.filter(f)).contains(k) <==> exists|i: int|
            0 <= i < s.len() && (#[trigger] s[i]).key == k && f(s[i]),
    decreases s.len(),
{
    reveal(Seq::filter);
    if s.len() > 0 {
        let init = s.drop_last();
        lemma_filtered_keys(init, f, k);
        let a = keys_of(init.filter(f));
        let b = keys_of(s.filter(f));
        if f(s.last()) {
            assert(b =~= a.push(s.last().key));
            assert(b[a.len() as int] == s.last().key);
        }
        if a.contains(k) {
            let i = choose|i: int| 0 <= i < a.len() && a[i] == k;
            assert(b[i] == k);
        }
        if b.contains(k) {
            let i = choose|i: int| 0 <= i < b.len() && b[i] == k;
            if i < a.len() {
                assert(a[i] == k);
                let j = choose|j: int|
                    0 <= j < init.len() && (#[trigger] init[j]).key == k && f(init[j]);
                assert(s[j].key == k && f(s[j]));
            } else {
                assert(s[s.len() - 1].key == k && f(s[s.len() - 1]));
            }
        }
        if exists|i: int| 0 <= i < s.len() && (#[trigger] s[i]).key == k && f(s[i]) {
            let i = choose|i: int| 0 <= i < s.len() && (#[trigger] s[i]).key == k && f(s[i]);
            if i < init.len() {
                assert(init[i].key == k && f(init[i]));
            }
        }
    } else {
        assert(keys_of(s.filter(f)) =~= Seq::empty());
    }
}

/// The stored hash of a key among rows with distinct keys.
proof fn lemma_stored_hash(rows: Seq<RowView>, i: int)
    requires
        rows_ordered(rows),
        0 <= i < rows.len(),
    ensures
        crate::opinion::hash_map_of(row_slots(rows)).contains_key(rows[i].key),
        crate::opinion::hash_map_of(row_slots(rows))[rows[i].key] == rows[i].hash,
    decreases rows.len(),
{
    let init = rows.drop_last();
    assert(row_slots(rows).drop_last() =~= row_slots(init));
    if i < rows.len() - 1 {
        assert forall|a: int, b: int| 0 <= a < b < init.len() implies before(
            (#[trigger] init[a]).key,
            (#[trigger] init[b]).key,
        ) by {
            assert(before(rows[a].key, rows[b].key));
        }
        lemma_stored_hash(init, i);
        assert(before(rows[i].key, rows[rows.len() - 1].key));
        lemma_order(rows[i].key, rows[i].key, rows[i].key);
    }
}

proof fn lemma_stored_key(rows: Seq<RowView>, k: Seq<char>)
    ensures
        crate::opinion::hash_map_of(row_slots(rows)).contains_key(k) <==> has_row(rows, k),
    decreases rows.len(),
{
    if rows.len() > 0 {
        let init = rows.drop_last();
        assert(row_slots(rows).drop_last() =~= row_slots(init));
        lemma_stored_key(init, k);
        if has_row(init, k) {
            let i = choose|i: int| 0 <= i < init.len() && (#[trigger] init[i]).key == k;
            assert(rows[i].key == k);
        }
        if has_row(rows, k) {
            let i = choose|i: int| 0 <= i < rows.len() && (#[trigger] rows[i]).key == k;
            if i < init.len() {
                assert(init[i].key == k);
            }
        }
        if k == rows.last().key {
            assert(rows[rows.len() - 1].key == k);
        }
    }
}

/// Which slots a patch writes: of each key the last one, where its hash is not
/// stored; and none of the new keys is dropped.
proof fn lemma_written_slots(rows: Seq<RowView>, ops: Seq<StoredOpinionView>, i: int)
    requires
        0 <= i < ops.len(),
        is_latest(slots_of(ops), i),
    ensures
        ({
            let d = diff_of(slots_of(ops), row_slots(rows));
            let stored = crate::opinion::hash_map_of(row_slots(rows));
            let k = ops[i].key();
            &&& (d.added + d.changed).contains(k) <==> !(stored.contains_key(k) && stored[k]
                == ops[i].hash())
            &&& !d.removed.contains(k)
            &&& latest_of(ops, k) == Some(ops[i])
        }),
{
    let n = slots_of(ops);
    let last = last_of_each(n);
    let p = row_slots(rows);
    let stored = crate::opinion::hash_map_of(p);
    let d = diff_of(n, p);
    let k = ops[i].key();
    let fa = |s: SlotHashView| !stored.contains_key(s.key);
    let fc = |s: SlotHashView| stored.contains_key(s.key) && stored[s.key] != s.hash;
    let fr = |s: SlotHashView| !keys_of(last).contains(s.key);
    lemma_filtered_keys(last, fa, k);
    lemma_filtered_keys(last, fc, k);
    lemma_filtered_keys(p, fr, k);
    assert(n[i].key == k && n[i].hash == ops[i].hash());
    lemma_last_of_each(n);
    assert(last.contains(n[i]));
    let x = choose|x: int| 0 <= x < last.len() && last[x] == n[i];
    assert(keys_of(last)[x] == k);
    assert forall|j: int| 0 <= j < last.len() && (#[trigger] last[j]).key == k implies j == x by {
        if j < x {
            assert(last[j].key != last[x].key);
        } else if x < j {
            assert(last[x].key != last[j].key);
        }
    }
    lemma_concat_contains(d.added, d.changed, k);
    assert forall|j: int| i < j < ops.len() implies (#[trigger] ops[j]).key() != k by {
        assert(n[j].key != n[i].key);
    }
    lemma_latest_at(ops, k, i);
}

/// After a compilation a source has one row for each key of its opinions, with
/// the hash of the last opinion that has the key, and no other row. A row that was
/// there with the same hash is left as it was, revision and all.
pub proof fn law_reload_stores_the_opinions(
    rows: Seq<RowView>,
    ops: Seq<StoredOpinionView>,
    revision: u64,
)
    requires
        rows_ordered(rows),
    ensures
        rows_ordered(patched(rows, ops, revision)),
        forall|r: RowView| #[trigger]
            patched(rows, ops, revision).contains(r) ==> is_last(
                slots_of(ops),
                (SlotHashView { key: r.key, hash: r.hash }),
            ),
        forall|i: int|
            0 <= i < ops.len() ==> has_row(patched(rows, ops, revision), (#[trigger] ops[i]).key()),
        forall|r: RowView| #[trigger]
            rows.contains(r) && is_last(slots_of(ops), (SlotHashView { key: r.key, hash: r.hash }))
                ==> patched(rows, ops, revision).contains(r),
{
    let n = slots_of(ops);
    let last = last_of_each(n);
    let p = row_slots(rows);
    let stored = crate::opinion::hash_map_of(p);
    let d = diff_of(n, p);
    let keys = d.added + d.changed;
    let w = rows_written(rows, ops, keys, revision);
    let all = patched(rows, ops, revision);
    lemma_rows_written(rows, ops, keys, revision);
    lemma_rows_dropped(w, d.removed);
    lemma_last_of_each(n);
    assert forall|r: RowView| #[trigger] all.contains(r) implies is_last(
        n,
        (SlotHashView { key: r.key, hash: r.hash }),
    ) by {
        assert(w.contains(r) && !d.removed.contains(r.key));
        if !keys_of(n).contains(r.key) {
            assert(!keys_of(last).contains(r.key)) by {
                if keys_of(last).contains(r.key) {
                    let x = choose|x: int| 0 <= x < keys_of(last).len() && keys_of(last)[x] == r.key;
                    assert(is_last(n, last[x]));
                    let j = choose|j: int| #[trigger] stands_last(n, j, last[x]);
                    assert(keys_of(n)[j] == r.key);
                }
            }
            lemma_latest_of(ops, r.key);
            assert(latest_of(ops, r.key) is None) by {
                if latest_of(ops, r.key) is Some {
                    let op = latest_of(ops, r.key)->0;
                    let i = choose|i: int| 0 <= i < ops.len() && ops[i] == op;
                    assert(keys_of(n)[i] == r.key);
                }
            }
            assert(rows.contains(r));
            let x = choose|x: int| 0 <= x < rows.len() && rows[x] == r;
            let fr = |s: SlotHashView| !keys_of(last).contains(s.key);
            lemma_filtered_keys(p, fr, r.key);
            assert(p[x].key == r.key);
            assert(false);
        }
        lemma_latest_exists(n, r.key);
        let i = choose|i: int|
            0 <= i < n.len() && (#[trigger] n[i]).key == r.key && is_latest(n, i);
        assert(ops[i].key() == r.key);
        lemma_written_slots(rows, ops, i);
        if keys.contains(r.key) {
            assert(r.hash == ops[i].hash());
        } else {
            assert(rows.contains(r));
            let x = choose|x: int| 0 <= x < rows.len() && rows[x] == r;
            lemma_stored_hash(rows, x);
        }
        assert(stands_last(n, i, (SlotHashView { key: r.key, hash: r.hash })));
    }
    assert forall|m: int| 0 <= m < ops.len() implies has_row(
        all,
        (#[trigger] ops[m]).key(),
    ) by {
        let k = ops[m].key();
        assert(keys_of(n)[m] == k);
        lemma_latest_exists(n, k);
        let i = choose|i: int| 0 <= i < n.len() && (#[trigger] n[i]).key == k && is_latest(n, i);
        assert(ops[i].key() == k);
        lemma_written_slots(rows, ops, i);
        if keys.contains(k) {
            let r = row_of(ops[i], revision);
            assert(w.contains(r));
            assert(all.contains(r));
            let x = choose|x: int| 0 <= x < all.len() && all[x] == r;
            assert(all[x].key == k);
        } else {
            lemma_stored_key(rows, k);
            let x = choose|x: int| 0 <= x < rows.len() && (#[trigger] rows[x]).key == k;
            let r = rows[x];
            assert(rows.contains(r));
            assert(w.contains(r));
            assert(all.contains(r));
            let y = choose|y: int| 0 <= y < all.len() && all[y] == r;
            assert(all[y].key == k);
        }
    }
    assert forall|r: RowView| #[trigger]
        rows.contains(r) && is_last(
            n,
            (SlotHashView { key: r.key, hash: r.hash }),
        ) implies all.contains(r) by {
        let i = choose|i: int| #[trigger]
            stands_last(n, i, (SlotHashView { key: r.key, hash: r.hash }));
        lemma_written_slots(rows, ops, i);
        let x = choose|x: int| 0 <= x < rows.len() && rows[x] == r;
        lemma_stored_hash(rows, x);
        assert(!keys.contains(r.key));
        assert(w.contains(r));
    }
}

/// Two last slots with one key are one.
proof fn lemma_last_is_one(slots: Seq<SlotHashView>, a: SlotHashView, b: SlotHashView)
    requires
        is_last(slots, a),
        is_last(slots, b),
        a.key == b.key,
    ensures
        a == b,
{
    let i = choose|i: int| #[trigger] stands_last(slots, i, a);
    let j = choose|j: int| #[trigger] stands_last(slots, j, b);
    if i < j {
        assert(slots[j].key != slots[i].key);
    } else if j < i {
        assert(slots[i].key != slots[j].key);
    }
}

proof fn lemma_concat_contains(a: Seq<Seq<char>>, b: Seq<Seq<char>>, k: Seq<char>)
    ensures
        (a + b).contains(k) <==> a.contains(k) || b.contains(k),
{
    let c = a + b;
    if a.contains(k) {
        let i = choose|i: int| 0 <= i < a.len() && a[i] == k;
        assert(c[i] == k);
    }
    if b.contains(k) {
        let i = choose|i: int| 0 <= i < b.len() && b[i] == k;
        assert(c[a.len() + i] == k);
    }
    if c.contains(k) {
        let i = choose|i: int| 0 <= i < c.len() && c[i] == k;
        if i < a.len() {
            assert(a[i] == k);
        } else {
            assert(b[i - a.len()] == k);
        }
    }
}

/// Storing the same opinions again changes no row: the diff is empty.
pub proof fn law_second_reload_is_quiet(
    rows: Seq<RowView>,
    ops: Seq<StoredOpinionView>,
    revision: u64,
    later: u64,
)
    requires
        rows_ordered(rows),
    ensures
        ({
            let stored = patched(rows, ops, revision);
            &&& diff_of(slots_of(ops), row_slots(stored)).touched() == 0
            &&& patched(stored, ops, later) == stored
        }),
{
    let stored = patched(rows, ops, revision);
    let new = slots_of(ops);
    let last = last_of_each(new);
    let old = row_slots(stored);
    let hashes = crate::opinion::hash_map_of(old);
    law_reload_stores_the_opinions(rows, ops, revision);
    lemma_last_of_each(new);
    let added = |s: SlotHashView| !hashes.contains_key(s.key);
    let changed = |s: SlotHashView| hashes.contains_key(s.key) && hashes[s.key] != s.hash;
    let removed = |s: SlotHashView| !keys_of(last).contains(s.key);
    assert forall|i: int| 0 <= i < last.len() implies !added(#[trigger] last[i]) && !changed(
        last[i],
    ) by {
        assert(is_last(new, last[i]));
        let m = choose|m: int| #[trigger] stands_last(new, m, last[i]);
        assert(ops[m].key() == last[i].key);
        assert(has_row(stored, ops[m].key()));
        let j = choose|j: int|
            0 <= j < stored.len() && (#[trigger] stored[j]).key == last[i].key;
        lemma_stored_hash(stored, j);
        assert(stored.contains(stored[j]));
        lemma_last_is_one(
            new,
            last[i],
            SlotHashView { key: stored[j].key, hash: stored[j].hash },
        );
    }
    assert forall|i: int| 0 <= i < old.len() implies !removed(#[trigger] old[i]) by {
        assert(stored.contains(stored[i]));
        let s = SlotHashView { key: stored[i].key, hash: stored[i].hash };
        assert(is_last(new, s));
        let m = choose|m: int| #[trigger] stands_last(new, m, s);
        assert(keys_of(new)[m] == stored[i].key);
        lemma_latest_exists(new, stored[i].key);
    }
    lemma_filter_all(last, added, false);
    lemma_filter_all(last, changed, false);
    lemma_filter_all(old, removed, false);
    let d = diff_of(new, old);
    assert(d.added =~= Seq::empty());
    assert(d.changed =~= Seq::empty());
    assert(d.removed =~= Seq::empty());
    assert(d.added + d.changed =~= Seq::<Seq<char>>::empty());
}

/// Each row has the key and the hash of its opinion.
pub open spec fn honest(rows: Seq<RowView>) -> bool {
    forall|i: int|
        0 <= i < rows.len() ==> (#[trigger] rows[i]).key == rows[i].stored.key() && rows[i].hash
            == rows[i].stored.hash()
}

proof fn lemma_written_honest(
    rows: Seq<RowView>,
    ops: Seq<StoredOpinionView>,
    keys: Seq<Seq<char>>,
    revision: u64,
)
    requires
        honest(rows),
    ensures
        honest(rows_written(rows, ops, keys, revision)),
    decreases keys.len(),
{
    if keys.len() > 0 {
        let init = rows_written(rows, ops, keys.drop_last(), revision);
        lemma_written_honest(rows, ops, keys.drop_last(), revision);
        if let Some(op) = latest_of(ops, keys.last()) {
            let row = row_of(op, revision);
            lemma_row_place(init, row.key);
            let at = row_place(init, row.key);
            let w = with_row(init, row);
            assert forall|i: int| 0 <= i < w.len() implies (#[trigger] w[i]).key
                == w[i].stored.key() && w[i].hash == w[i].stored.hash() by {
                if i != at {
                    let j = if w.len() > init.len() && i > at {
                        i - 1
                    } else {
                        i
                    };
                    assert(w[i] == init[j]);
                }
            }
        }
    }
}

proof fn lemma_dropped_honest(rows: Seq<RowView>, keys: Seq<Seq<char>>)
    requires
        honest(rows),
    ensures
        honest(rows_dropped(rows, keys)),
    decreases keys.len(),
{
    if keys.len() > 0 {
        let init = rows_dropped(rows, keys.drop_last());
        lemma_dropped_honest(rows, keys.drop_last());
        lemma_row_place(init, keys.last());
        let at = row_place(init, keys.last());
        let w = without_row(init, keys.last());
        assert forall|i: int| 0 <= i < w.len() implies (#[trigger] w[i]).key == w[i].stored.key()
            && w[i].hash == w[i].stored.hash() by {
            let j = if w.len() < init.len() && i >= at {
                i + 1
            } else {
                i
            };
            assert(w[i] == init[j]);
        }
    }
}

proof fn lemma_slot_key(slots: Seq<SlotHashView>, k: Seq<char>)
    ensures
        crate::opinion::hash_map_of(slots).contains_key(k) ==> exists|i: int|
            0 <= i < slots.len() && (#[trigger] slots[i]).key == k,
    decreases slots.len(),
{
    if slots.len() > 0 {
        let init = slots.drop_last();
        lemma_slot_key(init, k);
        if crate::opinion::hash_map_of(slots).contains_key(k) {
            if k == slots.last().key {
                assert(slots[slots.len() - 1].key == k);
            } else {
                let i = choose|i: int| 0 <= i < init.len() && (#[trigger] init[i]).key == k;
                assert(slots[i].key == k);
            }
        }
    }
}

/// What is stored of a compilation fills the slots that the compilation filled.
pub proof fn law_stored_slots_are_those_compiled(
    rows: Seq<RowView>,
    ops: Seq<StoredOpinionView>,
    revision: u64,
)
    requires
        rows_ordered(rows),
        honest(rows),
    ensures
        honest(patched(rows, ops, revision)),
        ({
            let stored = patched(rows, ops, revision).map_values(|row: RowView| row.stored);
            crate::opinion::hash_map_of(slots_of(stored)) == crate::opinion::hash_map_of(
                slots_of(ops),
            )
        }),
{
    let d = diff_of(slots_of(ops), row_slots(rows));
    let after = patched(rows, ops, revision);
    let stored = after.map_values(|row: RowView| row.stored);
    let new = slots_of(ops);
    lemma_written_honest(rows, ops, d.added + d.changed, revision);
    lemma_dropped_honest(rows_written(rows, ops, d.added + d.changed, revision), d.removed);
    assert(slots_of(stored) =~= row_slots(after));
    law_reload_stores_the_opinions(rows, ops, revision);
    let a = crate::opinion::hash_map_of(row_slots(after));
    let b = crate::opinion::hash_map_of(new);
    assert forall|k: Seq<char>| #[trigger] a.contains_key(k) <==> b.contains_key(k) by {
        lemma_stored_key(after, k);
        if a.contains_key(k) {
            let j = choose|j: int| 0 <= j < after.len() && (#[trigger] after[j]).key == k;
            assert(after.contains(after[j]));
            let s = SlotHashView { key: after[j].key, hash: after[j].hash };
            let m = choose|m: int| #[trigger] stands_last(new, m, s);
            lemma_latest_hash(new, m);
        }
        if b.contains_key(k) {
            lemma_slot_key(new, k);
            let m = choose|m: int| 0 <= m < new.len() && (#[trigger] new[m]).key == k;
            assert(ops[m].key() == k);
            assert(has_row(after, ops[m].key()));
        }
    }
    assert forall|k: Seq<char>| #[trigger] a.contains_key(k) implies a[k] == b[k] by {
        lemma_stored_key(after, k);
        let j = choose|j: int| 0 <= j < after.len() && (#[trigger] after[j]).key == k;
        lemma_stored_hash(after, j);
        assert(after.contains(after[j]));
        let s = SlotHashView { key: after[j].key, hash: after[j].hash };
        let m = choose|m: int| #[trigger] stands_last(new, m, s);
        lemma_latest_hash(new, m);
    }
    assert(a =~= b);
}

/// Stored pins taken in, one after the other.
pub open spec fn pins_restored(v: OverlayView, pins: Map<u64, PinView>, ids: Seq<u64>) -> OverlayView
    decreases ids.len(),
{
    if ids.len() == 0 {
        v
    } else {
        pins_restored(v, pins, ids.drop_last()).with_stored_pin(ids.last(), pins[ids.last()])
    }
}

/// Stored rows taken in, one after the other.
pub open spec fn rows_restored(rows: Seq<RowView>) -> Seq<RowView>
    decreases rows.len(),
{
    if rows.len() == 0 {
        Seq::empty()
    } else {
        with_row(rows_restored(rows.drop_last()), rows.last())
    }
}

/// Pins survive a restart: an overlay that is filled with the stored pins has them
/// all, and is at the stored revision.
pub proof fn law_pins_survive_a_restart(v: OverlayView)
    requires
        v.pins.dom().finite(),
    ensures
        ({
            let blank = OverlayView {
                revision: v.revision,
                pins: Map::empty(),
                sources: Map::empty(),
            };
            let w = pins_restored(blank, v.pins, ascending(v.pins.dom()));
            w.pins == v.pins && w.revision == v.revision
        }),
{
    let blank = OverlayView { revision: v.revision, pins: Map::empty(), sources: Map::empty() };
    let ids = ascending(v.pins.dom());
    lemma_ascending(v.pins.dom());
    lemma_pins_restored(blank, v.pins, ids);
    let w = pins_restored(blank, v.pins, ids);
    assert forall|k: u64| w.pins.dom().contains(k) <==> v.pins.dom().contains(k) by {
        assert(w.pins.contains_key(k) <==> ids.contains(k));
        assert(ids.contains(k) <==> v.pins.dom().contains(k));
    }
    assert(w.pins =~= v.pins);
}

/// A thing that happens to the pins of an overlay.
pub enum PinStep {
    Pin { id: EntityId, pin: PinView },
    Unpin { id: EntityId },
    /// The overlay is filled anew with the stored pins.
    Restart,
}

/// What one step does.
pub open spec fn stepped(v: OverlayView, step: PinStep) -> OverlayView {
    match step {
        PinStep::Pin { id, pin } => v.pinned(id, pin),
        PinStep::Unpin { id } => v.unpinned(id),
        PinStep::Restart => pins_restored(
            OverlayView { revision: v.revision, pins: Map::empty(), sources: Map::empty() },
            v.pins,
            ascending(v.pins.dom()),
        ),
    }
}

/// What steps do, one after the other.
pub open spec fn all_stepped(v: OverlayView, steps: Seq<PinStep>) -> OverlayView
    decreases steps.len(),
{
    if steps.len() == 0 {
        v
    } else {
        stepped(all_stepped(v, steps.drop_last()), steps.last())
    }
}

/// How many of the steps pin or unpin.
pub open spec fn pin_changes(steps: Seq<PinStep>) -> nat
    decreases steps.len(),
{
    if steps.len() == 0 {
        0
    } else {
        pin_changes(steps.drop_last()) + if steps.last() is Restart {
            0nat
        } else {
            1
        }
    }
}

/// Where an entity is after steps, when it was at `at` before them: where the last
/// step about it pinned it, or at the authored transform if that unpinned it.
pub open spec fn left_at(steps: Seq<PinStep>, e: EntityView, at: Transform) -> Transform
    decreases steps.len(),
{
    if steps.len() == 0 {
        at
    } else {
        match steps.last() {
            PinStep::Pin { id, pin } if id == e.id => pin.transform,
            PinStep::Unpin { id } if id == e.id => e.transform_default,
            _ => left_at(steps.drop_last(), e, at),
        }
    }
}

/// Over any run of pins, unpins and restarts an entity is where the last step about
/// it left it, and each pin and unpin counts one revision.
pub proof fn law_last_pin_wins(v: OverlayView, steps: Seq<PinStep>, e: EntityView)
    requires
        v.pins.dom().finite(),
        v.revision + steps.len() <= u64::MAX,
    ensures
        all_stepped(v, steps).resolved(e) == left_at(steps, e, v.resolved(e)),
        all_stepped(v, steps).revision == v.revision + pin_changes(steps),
        all_stepped(v, steps).pins.dom().finite(),
        pin_changes(steps) <= steps.len(),
    decreases steps.len(),
{
    if steps.len() > 0 {
        law_last_pin_wins(v, steps.drop_last(), e);
        let w = all_stepped(v, steps.drop_last());
        match steps.last() {
            PinStep::Pin { id, pin } => {
                assert(id == e.id <==> id.0 == e.id.0);
            },
            PinStep::Unpin { id } => {
                assert(id == e.id <==> id.0 == e.id.0);
            },
            PinStep::Restart => {
                law_pins_survive_a_restart(w);
            },
        }
    }
}

proof fn lemma_pins_restored(v: OverlayView, pins: Map<u64, PinView>, ids: Seq<u64>)
    requires
        v.pins == Map::<u64, PinView>::empty(),
    ensures
        ({
            let w = pins_restored(v, pins, ids);
            &&& w.revision == v.revision
            &&& forall|k: u64| #[trigger] w.pins.contains_key(k) <==> ids.contains(k)
            &&& forall|k: u64| #[trigger] w.pins.contains_key(k) ==> w.pins[k] == pins[k]
        }),
    decreases ids.len(),
{
    if ids.len() > 0 {
        let init = ids.drop_last();
        lemma_pins_restored(v, pins, init);
        let u = pins_restored(v, pins, init);
        let w = pins_restored(v, pins, ids);
        assert forall|k: u64| #[trigger] w.pins.contains_key(k) <==> ids.contains(k) by {
            assert(u.pins.contains_key(k) <==> init.contains(k));
            if init.contains(k) {
                let i = choose|i: int| 0 <= i < init.len() && init[i] == k;
                assert(ids[i] == k);
            }
            assert(ids[ids.len() - 1] == ids.last());
            if ids.contains(k) && k != ids.last() {
                let i = choose|i: int| 0 <= i < ids.len() && ids[i] == k;
                assert(init[i] == k);
            }
        }
        assert forall|k: u64| #[trigger] w.pins.contains_key(k) implies w.pins[k] == pins[k] by {
            if k != ids.last() {
                assert(u.pins.contains_key(k));
            }
        }
    }
}

/// Opinions survive a restart: stored rows that are taken in come to the rows that
/// were stored.
pub proof fn law_opinions_survive_a_restart(rows: Seq<RowView>)
    requires
        rows_ordered(rows),
    ensures
        rows_restored(rows) == rows,
    decreases rows.len(),
{
    if rows.len() > 0 {
        let init = rows.drop_last();
        law_opinions_survive_a_restart(init);
        let at = row_place(init, rows.last().key);
        lemma_row_place(init, rows.last().key);
        if at < init.len() {
            assert(init[at] == rows[at]);
            assert(before(rows[at].key, rows[rows.len() - 1].key));
        }
        assert(init.insert(at, rows.last()) =~= rows);
    } else {
        assert(rows =~= Seq::empty());
    }
}

/// A pin is kept with the path, the transform, the author and the time that it was
/// committed with, under a revision of its own; other pins and what is stored of
/// sources stay. Taking it away takes nothing else away.
pub proof fn law_pins_keep_their_record(v: OverlayView, id: EntityId, pin: PinView, k: u64)
    requires
        v.revision < u64::MAX,
    ensures
        ({
            let w = v.pinned(id, pin);
            &&& w.revision == v.revision + 1
            &&& w.pins.contains_key(id.0)
            &&& w.pins[id.0].prim_path == pin.prim_path
            &&& w.pins[id.0].transform == pin.transform
            &&& w.pins[id.0].pinned_by == pin.pinned_by
            &&& w.pins[id.0].at_ms == pin.at_ms
            &&& w.pins[id.0].revision == v.revision + 1
            &&& k != id.0 ==> w.pins.contains_key(k) == v.pins.contains_key(k) && w.pins[k]
                == v.pins[k]
            &&& w.sources == v.sources
        }),
        ({
            let w = v.unpinned(id);
            &&& w.revision == v.revision + 1
            &&& !w.pins.contains_key(id.0)
            &&& k != id.0 ==> w.pins.contains_key(k) == v.pins.contains_key(k) && w.pins[k]
                == v.pins[k]
            &&& w.sources == v.sources
        }),
{
}

/// A compilation leaves a stamp with the hash of the source, the number of its
/// opinions, the revision that it took and its time. Pins and what is stored of other
/// sources stay.
pub proof fn law_compilations_are_stamped(
    v: OverlayView,
    source: Seq<char>,
    source_hash: Seq<char>,
    ops: Seq<StoredOpinionView>,
    at_ms: i64,
    other: Seq<char>,
)
    requires
        v.revision < u64::MAX,
        ops.len() <= usize::MAX,
        other != source,
    ensures
        ({
            let w = v.recompiled(source, source_hash, ops, at_ms);
            &&& w.revision == v.revision + 1
            &&& w.stamp_of(source) is Some
            &&& w.stamp_of(source)->0.source_hash == source_hash
            &&& w.stamp_of(source)->0.opinion_count == ops.len()
            &&& w.stamp_of(source)->0.revision == v.revision + 1
            &&& w.stamp_of(source)->0.at_ms == at_ms
            &&& w.stamp_of(other) == v.stamp_of(other)
            &&& w.rows_of(other) == v.rows_of(other)
            &&& w.pins == v.pins
        }),
{
}

/// The opinion is one of some, and no later one has its key.
pub open spec fn last_with_key(ops: Seq<StoredOpinionView>, op: StoredOpinionView) -> bool {
    exists|i: int|
        0 <= i < ops.len() && #[trigger] ops[i] == op && forall|j: int|
            i < j < ops.len() ==> (#[trigger] ops[j]).key() != op.key()
}

proof fn lemma_latest_is_last(ops: Seq<StoredOpinionView>, key: Seq<char>)
    ensures
        latest_of(ops, key) matches Some(op) ==> op.key() == key && last_with_key(ops, op),
    decreases ops.len(),
{
    if ops.len() > 0 {
        let init = ops.drop_last();
        lemma_latest_is_last(init, key);
        assert(ops[ops.len() - 1] == ops.last());
        if ops.last().key() != key {
            if let Some(op) = latest_of(init, key) {
                let i = choose|i: int|
                    0 <= i < init.len() && #[trigger] init[i] == op && forall|j: int|
                        i < j < init.len() ==> (#[trigger] init[j]).key() != op.key();
                assert(ops[i] == op);
                assert forall|j: int| i < j < ops.len() implies (#[trigger] ops[j]).key()
                    != op.key() by {
                    if j < init.len() {
                        assert(init[j] == ops[j]);
                    }
                }
            }
        }
    }
}

proof fn lemma_with_row_has(rows: Seq<RowView>, row: RowView, r: RowView)
    requires
        with_row(rows, row).contains(r),
    ensures
        r == row || rows.contains(r),
{
    let at = row_place(rows, row.key);
    lemma_row_place(rows, row.key);
    let w = with_row(rows, row);
    let i = choose|i: int| 0 <= i < w.len() && w[i] == r;
    if at < rows.len() && rows[at].key == row.key {
        if i != at {
            assert(rows[i] == r);
        }
    } else {
        if i < at {
            assert(rows[i] == r);
        } else if i > at {
            assert(rows[i - 1] == r);
        }
    }
}

proof fn lemma_written_rows(
    rows: Seq<RowView>,
    ops: Seq<StoredOpinionView>,
    keys: Seq<Seq<char>>,
    revision: u64,
    r: RowView,
)
    requires
        rows_written(rows, ops, keys, revision).contains(r),
    ensures
        rows.contains(r) || (r.revision == revision && r.key == r.stored.key() && r.hash
            == r.stored.hash() && last_with_key(ops, r.stored)),
    decreases keys.len(),
{
    if keys.len() > 0 {
        let init = rows_written(rows, ops, keys.drop_last(), revision);
        lemma_latest_is_last(ops, keys.last());
        if let Some(op) = latest_of(ops, keys.last()) {
            lemma_with_row_has(init, row_of(op, revision), r);
        }
        if init.contains(r) {
            lemma_written_rows(rows, ops, keys.drop_last(), revision, r);
        }
    }
}

proof fn lemma_dropped_rows(rows: Seq<RowView>, keys: Seq<Seq<char>>, r: RowView)
    requires
        rows_dropped(rows, keys).contains(r),
    ensures
        rows.contains(r),
    decreases keys.len(),
{
    if keys.len() > 0 {
        let init = rows_dropped(rows, keys.drop_last());
        let at = row_place(init, keys.last());
        lemma_row_place(init, keys.last());
        let w = without_row(init, keys.last());
        let i = choose|i: int| 0 <= i < w.len() && w[i] == r;
        if at < init.len() && init[at].key == keys.last() {
            if i < at {
                assert(init[i] == r);
            } else {
                assert(init[i + 1] == r);
            }
        }
        assert(init.contains(r));
        lemma_dropped_rows(rows, keys.drop_last(), r);
    }
}

/// A row that a compilation writes is that of the last opinion with its key, under the
/// revision of the compilation, with the key and the hash of that opinion.
pub proof fn law_written_rows_are_of_the_last_opinion(
    rows: Seq<RowView>,
    ops: Seq<StoredOpinionView>,
    revision: u64,
    r: RowView,
)
    requires
        patched(rows, ops, revision).contains(r),
    ensures
        rows.contains(r) || (r.revision == revision && r.key == r.stored.key() && r.hash
            == r.stored.hash() && last_with_key(ops, r.stored)),
{
    let d = diff_of(slots_of(ops), row_slots(rows));
    lemma_dropped_rows(rows_written(rows, ops, d.added + d.changed, revision), d.removed, r);
    lemma_written_rows(rows, ops, d.added + d.changed, revision, r);
}

/// A stored row that is taken in is among the rows of its source, in place of one with
/// its key; the other rows, the other sources, their stamps, the pins and the revision
/// stay.
pub proof fn law_stored_rows_are_taken_in(
    v: OverlayView,
    source: Seq<char>,
    row: RowView,
    other: Seq<char>,
    r: RowView,
)
    requires
        v.valid(),
        other != source,
    ensures
        ({
            let w = v.with_stored_row(source, row);
            &&& w.rows_of(source).contains(r) <==> r == row || (v.rows_of(source).contains(r)
                && r.key != row.key)
            &&& rows_ordered(w.rows_of(source))
            &&& w.stamp_of(source) == v.stamp_of(source)
            &&& w.rows_of(other) == v.rows_of(other) && w.stamp_of(other) == v.stamp_of(other)
            &&& w.pins == v.pins && w.revision == v.revision
        }),
{
    lemma_with_row(v.rows_of(source), row);
}

} // verus!
