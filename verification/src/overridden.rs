//! What opinions override: the authored values below them.
//!
//! The first opinion that fills a slot notes what stood there. Later ones in the
//! same slot leave the note alone, so that the last one to go gives the authored
//! value back.

use crate::dict::TextMap;
use crate::lsg::{
    Anchor, AnchorView, Edge, EdgeView, TelemetryBinding, TelemetryBindingView, VfValue,
    VfValueView,
};
use crate::model::{group_models, opt_views};
use crate::table::IdMap;
use vstd::prelude::*;
use vstd::string::*;

verus! {

/// A table keyed by a 64-bit id and a text.
#[derive(Debug)]
#[verifier::reject_recursive_types(V)]
pub struct SlotMap<V> {
    rows: IdMap<TextMap<V>>,
}

impl<V> View for SlotMap<V> {
    type V = Map<(u64, Seq<char>), V>;

    closed spec fn view(&self) -> Map<(u64, Seq<char>), V> {
        Map::new(
            |k: (u64, Seq<char>)| self.rows@.contains_key(k.0) && self.rows@[k.0]@.contains_key(k.1),
            |k: (u64, Seq<char>)| self.rows@[k.0]@[k.1],
        )
    }
}

/// A table without the keys of an id.
pub open spec fn without_row<V>(m: Map<(u64, Seq<char>), V>, id: u64) -> Map<(u64, Seq<char>), V> {
    m.restrict(Set::new(|k: (u64, Seq<char>)| k.0 != id))
}

impl<V> SlotMap<V> {
    pub fn new() -> (r: Self)
        ensures
            r@ == Map::<(u64, Seq<char>), V>::empty(),
    {
        let r = SlotMap { rows: IdMap::new() };
        proof {
            assert(r@ =~= Map::empty());
        }
        r
    }

    pub fn contains(&self, id: u64, name: &str) -> (b: bool)
        ensures
            b == self@.contains_key((id, name@)),
    {
        match self.rows.get(id) {
            Some(row) => row.contains_key(name),
            None => false,
        }
    }

    /// Sets the value of a key.
    pub fn insert(&mut self, id: u64, name: String, value: V)
        ensures
            final(self)@ == old(self)@.insert((id, name@), value),
    {
        let ghost before = self@;
        let ghost k = (id, name@);
        let mut row = match self.rows.remove(id) {
            Some(row) => row,
            None => TextMap::new(),
        };
        row.insert(name, value);
        self.rows.insert(id, row);
        proof {
            assert(self@ =~= before.insert(k, value));
        }
    }

    /// Takes a key out, and returns the value that it had.
    pub fn take(&mut self, id: u64, name: &str) -> (r: Option<V>)
        ensures
            final(self)@ == old(self)@.remove((id, name@)),
            r == (if old(self)@.contains_key((id, name@)) {
                Some(old(self)@[(id, name@)])
            } else {
                None
            }),
    {
        let ghost before = self@;
        match self.rows.remove(id) {
            Some(mut row) => {
                let r = row.take(name);
                self.rows.insert(id, row);
                proof {
                    assert(self@ =~= before.remove((id, name@)));
                }
                r
            },
            None => {
                proof {
                    assert(self@ =~= before.remove((id, name@)));
                }
                None
            },
        }
    }

    /// Takes out all keys of an id.
    pub fn drop_row(&mut self, id: u64)
        ensures
            final(self)@ == without_row(old(self)@, id),
    {
        let ghost before = self@;
        self.rows.remove(id);
        proof {
            assert(self@ =~= without_row(before, id));
        }
    }
}

/// The model of [`Overridden`].
#[verifier::ext_equal]
pub struct OverriddenView {
    pub bindings: Map<(u64, Seq<char>), Option<TelemetryBindingView>>,
    pub tags: Map<(u64, Seq<char>), bool>,
    pub vf: Map<(u64, Seq<char>), Option<VfValueView>>,
    pub anchors: Map<u64, Option<AnchorView>>,
    pub edges: Map<u64, Option<EdgeView>>,
}

impl OverriddenView {
    /// Nothing is overridden.
    pub open spec fn nothing() -> OverriddenView {
        OverriddenView {
            bindings: Map::empty(),
            tags: Map::empty(),
            vf: Map::empty(),
            anchors: Map::empty(),
            edges: Map::empty(),
        }
    }

    /// Without the notes on an entity.
    pub open spec fn without(self, id: u64) -> OverriddenView {
        OverriddenView {
            bindings: without_row(self.bindings, id),
            tags: without_row(self.tags, id),
            vf: without_row(self.vf, id),
            ..self
        }
    }
}

/// What stood in the slots that opinions have filled, from before the first of
/// them: the binding of an attribute, whether there was the tag, the value of a
/// metadata key, the anchor, the edge. A slot that no opinion fills is not noted.
#[derive(Debug)]
pub struct Overridden {
    pub bindings: SlotMap<Option<TelemetryBinding>>,
    pub tags: SlotMap<bool>,
    pub vf: SlotMap<Option<VfValue>>,
    pub anchors: IdMap<Option<Anchor>>,
    pub edges: IdMap<Option<Edge>>,
}

impl View for Overridden {
    type V = OverriddenView;

    open spec fn view(&self) -> OverriddenView {
        OverriddenView {
            bindings: opt_views(self.bindings@),
            tags: self.tags@,
            vf: opt_views(self.vf@),
            anchors: opt_views(self.anchors@),
            edges: opt_views(self.edges@),
        }
    }
}

impl Overridden {
    pub fn new() -> (r: Self)
        ensures
            r@ == OverriddenView::nothing(),
    {
        broadcast use group_models;

        Overridden {
            bindings: SlotMap::new(),
            tags: SlotMap::new(),
            vf: SlotMap::new(),
            anchors: IdMap::new(),
            edges: IdMap::new(),
        }
    }

    /// Drops the notes on an entity.
    pub fn forget(&mut self, id: u64)
        ensures
            final(self)@ == old(self)@.without(id),
    {
        let ghost before = self@;
        self.bindings.drop_row(id);
        self.tags.drop_row(id);
        self.vf.drop_row(id);
        proof {
            assert(self@.bindings =~= before.without(id).bindings);
            assert(self@.vf =~= before.without(id).vf);
        }
    }
}

} // verus!
