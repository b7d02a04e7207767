//! From compiled opinions to the overlay and the scene.
//!
//! The opinions of a source are stored by the smallest patch, and the same edit is
//! made to the scene in memory: what is new or changed is applied, what is gone is
//! taken back, and all else stays as it is.

use crate::interest::Transitions;
use crate::lsg::{Lsg, LsgView};
use crate::model::views;
use crate::opinion::{
    diff_of, law_unchanged_reload_touches_nothing, reconcile, reconciled, slots_of, OpinionDiff,
    StoredOpinion, StoredOpinionView,
};
use crate::overlay::{
    honest, law_second_reload_is_quiet, law_stored_slots_are_those_compiled, patched, row_slots,
    rows_ordered, OverlayView, RowView, TwinOverlay,
};
use crate::table::IdSet;
use vstd::prelude::*;

verus! {

/// What publishing the opinions of a source did.
pub struct Published {
    /// The revision of the overlay that it took.
    pub revision: u64,
    pub diff: OpinionDiff,
    /// The entities of the scene that it touched.
    pub touched: IdSet,
}

/// The opinions that a source has left in an overlay.
pub open spec fn stored_by(v: OverlayView, source: Seq<char>) -> Seq<StoredOpinionView> {
    v.rows_of(source).map_values(|row: RowView| row.stored)
}

/// Stores the opinions of a compilation, and brings the scene from those of the
/// last one to them.
pub fn publish(
    lsg: &mut Lsg,
    overlay: &mut TwinOverlay,
    source: &str,
    source_hash: &str,
    opinions: &[StoredOpinion],
    at_ms: i64,
) -> (p: Published)
    requires
        old(lsg).wf(),
        old(lsg)@.revision < u64::MAX - 1,
        old(overlay).wf(),
        old(overlay)@.revision < u64::MAX,
    ensures
        final(lsg).wf(),
        final(overlay).wf(),
        p.revision == old(overlay)@.revision + 1,
        p.diff@ == diff_of(slots_of(views(opinions@)), row_slots(old(overlay)@.rows_of(source@))),
        final(overlay)@ == old(overlay)@.recompiled(
            source@,
            source_hash@,
            views(opinions@),
            at_ms,
        ),
        (final(lsg)@, p.touched@) == reconciled(
            old(lsg)@,
            stored_by(old(overlay)@, source@),
            views(opinions@),
        ),
{
    let prev = overlay.load_opinions(source);
    let (revision, diff) = overlay.apply_opinions(source, source_hash, opinions, at_ms);
    let touched = reconcile(lsg, &prev, opinions);
    Published { revision, diff, touched }
}

/// Publishing the same opinions again takes a revision of the overlay, and leaves
/// all else alone: no row differs, and the scene is not touched.
pub proof fn law_publishing_again_touches_nothing(
    lsg: LsgView,
    rows: Seq<RowView>,
    ops: Seq<StoredOpinionView>,
    revision: u64,
    later: u64,
)
    requires
        rows_ordered(rows),
        honest(rows),
    ensures
        ({
            let after = patched(rows, ops, revision);
            let stored = after.map_values(|row: RowView| row.stored);
            &&& diff_of(slots_of(ops), row_slots(after)).touched() == 0
            &&& patched(after, ops, later) == after
            &&& reconciled(lsg, stored, ops) == (lsg, Set::<u64>::empty())
        }),
{
    law_second_reload_is_quiet(rows, ops, revision, later);
    law_stored_slots_are_those_compiled(rows, ops, revision);
    let stored = patched(rows, ops, revision).map_values(|row: RowView| row.stored);
    law_unchanged_reload_touches_nothing(lsg, stored, ops);
}

/// Did an evaluation move more entities than an edit touched?
pub fn stormed(t: &Transitions, touched: usize) -> (b: bool)
    ensures
        b == (t.activated@.len() + t.deactivated@.len() > touched),
{
    let on: usize = t.activated.len();
    let off: usize = t.deactivated.len();
    on > touched || off > touched - on
}

/// The opinions that a source has left are those of its rows, in their order.
pub proof fn law_stored_opinions_are_those_of_the_rows(v: OverlayView, source: Seq<char>, i: int)
    requires
        0 <= i < v.rows_of(source).len(),
    ensures
        stored_by(v, source).len() == v.rows_of(source).len(),
        stored_by(v, source)[i] == v.rows_of(source)[i].stored,
{
}

} // verus!
