//! Broad-phase index over the scene: a uniform grid of cells.
//!
//! Entities are kept by the cell of their centroid. A query names a block of
//! cells, and the caller applies the precise test to what it finds there. Which
//! cell a point lies in is computed where coordinates are arithmetic.

use crate::lsg::{Aabb, EntityId};
use crate::model::{capped, group_models};
use crate::scalar::Double;
use crate::table::IdMap;
use vstd::prelude::*;

verus! {

/// A cell of the grid.
#[derive(Debug, Clone, Copy, PartialEq, Eq, Structural)]
pub struct Cell {
    pub x: i64,
    pub y: i64,
    pub z: i64,
}

/// The cells of one row, each with its entities.
struct Row {
    cells: Vec<(i64, Vec<EntityId>)>,
}

/// What a row holds in a cell.
spec fn in_row(cells: Seq<(i64, Vec<EntityId>)>, z: i64) -> Seq<EntityId>
    decreases cells.len(),
{
    if cells.len() == 0 {
        Seq::empty()
    } else if cells[0].0 == z {
        cells[0].1@
    } else {
        in_row(cells.drop_first(), z)
    }
}

/// A place on a line of keys for a signed coordinate.
spec fn key_spec(n: i64) -> u64 {
    n as u64
}

fn key(n: i64) -> (k: u64)
    ensures
        k == key_spec(n),
{
    n as u64
}

proof fn lemma_key(a: i64, b: i64)
    ensures
        key_spec(a) == key_spec(b) ==> a == b,
{
    assert(a as u64 == b as u64 ==> a == b) by (bit_vector);
}

/// A uniform grid of cells.
pub struct SpatialIndex {
    columns: IdMap<IdMap<Row>>,
    occupied: usize,
}

impl SpatialIndex {
    /// The entities of a cell, in the order in which they came in.
    pub closed spec fn at(&self, c: Cell) -> Seq<EntityId> {
        in_columns(self.columns@, c)
    }

    /// The cells that hold an entity.
    pub open spec fn cells(&self) -> Set<Cell> {
        Set::new(|c: Cell| self.at(c).len() > 0)
    }

    /// The cells are counted.
    pub closed spec fn wf(&self) -> bool {
        &&& self.cells().finite()
        &&& self.occupied == capped(self.cells().len() as int)
    }

    pub fn new() -> (r: Self)
        ensures
            r.wf(),
            forall|c: Cell| #[trigger] r.at(c) == Seq::<EntityId>::empty(),
    {
        let r = SpatialIndex { columns: IdMap::new(), occupied: 0 };
        proof {
            assert(r.cells() =~= Set::empty());
        }
        r
    }

    /// How many cells hold an entity.
    pub fn cell_count(&self) -> (n: usize)
        requires
            self.wf(),
        ensures
            self.cells().finite(),
            n == capped(self.cells().len() as int),
    {
        self.occupied
    }

    /// Puts an entity into a cell.
    pub fn insert(&mut self, cell: Cell, id: EntityId)
        requires
            old(self).wf(),
        ensures
            final(self).wf(),
            forall|c: Cell| #[trigger]
                final(self).at(c) == if c == cell {
                    old(self).at(c).push(id)
                } else {
                    old(self).at(c)
                },
    {
        broadcast use group_models;

        let ghost before = self.columns@;
        let mut column = match self.columns.remove(key(cell.x)) {
            Some(column) => column,
            None => IdMap::new(),
        };
        let ghost column0 = column@;
        let mut row = match column.remove(key(cell.y)) {
            Some(row) => row,
            None => Row { cells: Vec::new() },
        };
        let ghost row0 = row.cells@;
        let first = row_insert(&mut row, cell.z, id);
        column.insert(key(cell.y), row);
        self.columns.insert(key(cell.x), column);
        if first && self.occupied < usize::MAX {
            self.occupied = self.occupied + 1;
        }
        proof {
            assert(in_row(Seq::<(i64, Vec<EntityId>)>::empty(), cell.z) =~= Seq::empty());
            assert(in_row(row0, cell.z) == old(self).at(cell));
            assert forall|c: Cell| #[trigger] self.at(c) == if c == cell {
                old(self).at(c).push(id)
            } else {
                old(self).at(c)
            } by {
                lemma_key(c.x, cell.x);
                lemma_key(c.y, cell.y);
                assert(in_row(Seq::<(i64, Vec<EntityId>)>::empty(), c.z) =~= Seq::empty());
                if c.x == cell.x && c.y == cell.y {
                    assert(in_row(row0, c.z) == in_columns(before, c));
                } else if c.x == cell.x {
                    assert(in_column(column0, c) == in_columns(before, c));
                }
            }
            assert forall|c: Cell| self.cells().contains(c) <==> old(self).cells().insert(
                cell,
            ).contains(c) by {
                assert(self.at(c) == if c == cell {
                    old(self).at(c).push(id)
                } else {
                    old(self).at(c)
                });
            }
            assert(self.cells() =~= old(self).cells().insert(cell));
        }
    }

    /// The entities of the cells from `lo` to `hi`, cell by cell.
    pub fn candidates_in_cells(&self, lo: Cell, hi: Cell) -> (r: Vec<EntityId>)
        ensures
            r@ == block(*self, lo, hi, lo.x as int),
    {
        let mut r: Vec<EntityId> = Vec::new();
        let mut x: i64 = lo.x;
        let mut more = lo.x <= hi.x;
        proof {
            assert(r@ + block(*self, lo, hi, lo.x as int) =~= block(*self, lo, hi, lo.x as int));
        }
        while more
            invariant
                more ==> lo.x <= x <= hi.x,
                more ==> block(*self, lo, hi, lo.x as int) == r@ + block(*self, lo, hi, x as int),
                !more ==> block(*self, lo, hi, lo.x as int) == r@,
            decreases hi.x - x, if more { 1int } else { 0 },
        {
            let ghost r0 = r@;
            self.collect_slab(x, lo, hi, &mut r);
            proof {
                assert(r0 + (slab(*self, lo, hi, x as int, lo.y as int) + block(
                    *self,
                    lo,
                    hi,
                    x + 1,
                )) =~= r@ + block(*self, lo, hi, x + 1));
                assert(r@ + Seq::<EntityId>::empty() =~= r@);
            }
            if x < hi.x {
                x = x + 1;
            } else {
                more = false;
            }
        }
        r
    }

    fn collect_slab(&self, x: i64, lo: Cell, hi: Cell, r: &mut Vec<EntityId>)
        ensures
            final(r)@ == old(r)@ + slab(*self, lo, hi, x as int, lo.y as int),
    {
        let ghost r0 = r@;
        let mut y: i64 = lo.y;
        let mut more = lo.y <= hi.y;
        proof {
            assert(r0 + Seq::<EntityId>::empty() =~= r0);
        }
        while more
            invariant
                more ==> lo.y <= y <= hi.y,
                more ==> r0 + slab(*self, lo, hi, x as int, lo.y as int) == r@ + slab(
                    *self,
                    lo,
                    hi,
                    x as int,
                    y as int,
                ),
                !more ==> r0 + slab(*self, lo, hi, x as int, lo.y as int) == r@,
            decreases hi.y - y, if more { 1int } else { 0 },
        {
            let ghost r1 = r@;
            self.collect_line(x, y, lo, hi, r);
            proof {
                assert(r1 + (line(*self, lo, hi, x as int, y as int, lo.z as int) + slab(
                    *self,
                    lo,
                    hi,
                    x as int,
                    y + 1,
                )) =~= r@ + slab(*self, lo, hi, x as int, y + 1));
                assert(r@ + Seq::<EntityId>::empty() =~= r@);
            }
            if y < hi.y {
                y = y + 1;
            } else {
                more = false;
            }
        }
    }

    fn collect_line(&self, x: i64, y: i64, lo: Cell, hi: Cell, r: &mut Vec<EntityId>)
        ensures
            final(r)@ == old(r)@ + line(*self, lo, hi, x as int, y as int, lo.z as int),
    {
        let ghost r0 = r@;
        let mut z: i64 = lo.z;
        let mut more = lo.z <= hi.z;
        proof {
            assert(r0 + Seq::<EntityId>::empty() =~= r0);
        }
        while more
            invariant
                more ==> lo.z <= z <= hi.z,
                more ==> r0 + line(*self, lo, hi, x as int, y as int, lo.z as int) == r@ + line(
                    *self,
                    lo,
                    hi,
                    x as int,
                    y as int,
                    z as int,
                ),
                !more ==> r0 + line(*self, lo, hi, x as int, y as int, lo.z as int) == r@,
            decreases hi.z - z, if more { 1int } else { 0 },
        {
            let ghost r1 = r@;
            self.collect_cell(Cell { x, y, z }, r);
            proof {
                assert(r1 + (self.at(Cell { x, y, z }) + line(
                    *self,
                    lo,
                    hi,
                    x as int,
                    y as int,
                    z + 1,
                )) =~= r@ + line(*self, lo, hi, x as int, y as int, z + 1));
                assert(r@ + Seq::<EntityId>::empty() =~= r@);
            }
            if z < hi.z {
                z = z + 1;
            } else {
                more = false;
            }
        }
    }

    fn collect_cell(&self, c: Cell, r: &mut Vec<EntityId>)
        ensures
            final(r)@ == old(r)@ + self.at(c),
    {
        let ghost r0 = r@;
        proof {
            assert(r0 + Seq::<EntityId>::empty() =~= r0);
        }
        if let Some(column) = self.columns.get(key(c.x)) {
            if let Some(row) = column.get(key(c.y)) {
                row_collect(row, c.z, r);
            }
        }
    }
}

spec fn in_column(column: Map<u64, Row>, c: Cell) -> Seq<EntityId> {
    if column.contains_key(key_spec(c.y)) {
        in_row(column[key_spec(c.y)].cells@, c.z)
    } else {
        Seq::empty()
    }
}

spec fn in_columns(columns: Map<u64, IdMap<Row>>, c: Cell) -> Seq<EntityId> {
    if columns.contains_key(key_spec(c.x)) {
        in_column(columns[key_spec(c.x)]@, c)
    } else {
        Seq::empty()
    }
}

/// The entities of a line of cells, from `z` on.
pub open spec fn line(g: SpatialIndex, lo: Cell, hi: Cell, x: int, y: int, z: int) -> Seq<EntityId>
    decreases hi.z - z + 1,
{
    if z > hi.z {
        Seq::empty()
    } else {
        g.at(Cell { x: x as i64, y: y as i64, z: z as i64 }) + line(g, lo, hi, x, y, z + 1)
    }
}

/// The entities of a slab of cells, from the line `y` on.
pub open spec fn slab(g: SpatialIndex, lo: Cell, hi: Cell, x: int, y: int) -> Seq<EntityId>
    decreases hi.y - y + 1,
{
    if y > hi.y {
        Seq::empty()
    } else {
        line(g, lo, hi, x, y, lo.z as int) + slab(g, lo, hi, x, y + 1)
    }
}

/// The entities of a block of cells, from the slab `x` on.
pub open spec fn block(g: SpatialIndex, lo: Cell, hi: Cell, x: int) -> Seq<EntityId>
    decreases hi.x - x + 1,
{
    if x > hi.x {
        Seq::empty()
    } else {
        slab(g, lo, hi, x, lo.y as int) + block(g, lo, hi, x + 1)
    }
}

/// Puts an entity into a cell of a row. Returns whether it is the first one there.
fn row_insert(row: &mut Row, z: i64, id: EntityId) -> (first: bool)
    ensures
        first == (in_row(old(row).cells@, z).len() == 0),
        forall|k: i64| #[trigger]
            in_row(final(row).cells@, k) == if k == z {
                in_row(old(row).cells@, k).push(id)
            } else {
                in_row(old(row).cells@, k)
            },
{
    let mut i: usize = 0;
    while i < row.cells.len()
        invariant
            i <= row.cells@.len(),
            *row == *old(row),
            forall|j: int| 0 <= j < i ==> (#[trigger] row.cells@[j]).0 != z,
        decreases row.cells@.len() - i,
    {
        if row.cells[i].0 == z {
            let ghost before = row.cells@;
            let first = row.cells[i].1.len() == 0;
            row.cells[i].1.push(id);
            proof {
                let after = row.cells@;
                lemma_row_at(before, i as int);
                assert forall|k: i64| #[trigger] in_row(after, k) == if k == z {
                    in_row(before, k).push(id)
                } else {
                    in_row(before, k)
                } by {
                    lemma_row_update(before, after, i as int, k, id);
                }
            }
            return first;
        }
        i = i + 1;
    }
    let ghost before = row.cells@;
    let mut ids: Vec<EntityId> = Vec::new();
    ids.push(id);
    row.cells.push((z, ids));
    proof {
        assert forall|k: i64| #[trigger] in_row(row.cells@, k) == if k == z {
            in_row(before, k).push(id)
        } else {
            in_row(before, k)
        } by {
            lemma_row_push(before, (z, ids), k);
            assert(ids@ =~= Seq::empty().push(id));
        }
        lemma_row_push(before, (z, ids), z);
    }
    true
}

proof fn lemma_row_at(cells: Seq<(i64, Vec<EntityId>)>, i: int)
    requires
        0 <= i < cells.len(),
        forall|j: int| 0 <= j < i ==> (#[trigger] cells[j]).0 != cells[i].0,
    ensures
        in_row(cells, cells[i].0) == cells[i].1@,
    decreases i,
{
    if i > 0 {
        let rest = cells.drop_first();
        assert forall|j: int| 0 <= j < i - 1 implies (#[trigger] rest[j]).0 != rest[i - 1].0 by {
            assert(cells[j + 1].0 != cells[i].0);
        }
        lemma_row_at(rest, i - 1);
        assert(cells[0].0 != cells[i].0);
    }
}

proof fn lemma_row_update(
    before: Seq<(i64, Vec<EntityId>)>,
    after: Seq<(i64, Vec<EntityId>)>,
    i: int,
    k: i64,
    id: EntityId,
)
    requires
        0 <= i < before.len(),
        forall|j: int| 0 <= j < i ==> (#[trigger] before[j]).0 != before[i].0,
        after == before.update(i, after[i]),
        after[i].0 == before[i].0,
        after[i].1@ == before[i].1@.push(id),
    ensures
        in_row(after, k) == if k == before[i].0 {
            in_row(before, k).push(id)
        } else {
            in_row(before, k)
        },
    decreases before.len(),
{
    let z = before[i].0;
    if i == 0 {
        assert(after.drop_first() =~= before.drop_first());
    } else {
        let b = before.drop_first();
        let a = after.drop_first();
        assert(a =~= b.update(i - 1, a[i - 1]));
        assert forall|j: int| 0 <= j < i - 1 implies (#[trigger] b[j]).0 != b[i - 1].0 by {
            assert(before[j + 1].0 != before[i].0);
        }
        lemma_row_update(b, a, i - 1, k, id);
        assert(before[0].0 != z);
        assert(after[0] == before[0]);
    }
}

proof fn lemma_row_push(cells: Seq<(i64, Vec<EntityId>)>, new: (i64, Vec<EntityId>), k: i64)
    requires
        forall|j: int| 0 <= j < cells.len() ==> (#[trigger] cells[j]).0 != new.0,
    ensures
        in_row(cells.push(new), k) == if k == new.0 {
            new.1@
        } else {
            in_row(cells, k)
        },
        in_row(cells, new.0) == Seq::<EntityId>::empty(),
    decreases cells.len(),
{
    let longer = cells.push(new);
    if cells.len() > 0 {
        let rest = cells.drop_first();
        assert forall|j: int| 0 <= j < rest.len() implies (#[trigger] rest[j]).0 != new.0 by {
            assert(cells[j + 1].0 != new.0);
        }
        lemma_row_push(rest, new, k);
        assert(longer.drop_first() =~= rest.push(new));
        assert(longer[0] == cells[0]);
        assert(cells[0].0 != new.0);
    } else {
        assert(longer.drop_first() =~= Seq::empty());
        assert(in_row(longer.drop_first(), k) =~= Seq::empty());
    }
}

fn row_collect(row: &Row, z: i64, r: &mut Vec<EntityId>)
    ensures
        final(r)@ == old(r)@ + in_row(row.cells@, z),
{
    let ghost all = row.cells@;
    let mut i: usize = 0;
    proof {
        assert(all.skip(0) =~= all);
    }
    while i < row.cells.len()
        invariant
            i <= row.cells@.len(),
            all == row.cells@,
            *r == *old(r),
            in_row(all, z) == in_row(all.skip(i as int), z),
        decreases row.cells@.len() - i,
    {
        proof {
            assert(all.skip(i as int)[0] == all[i as int]);
            assert(all.skip(i as int).drop_first() =~= all.skip(i + 1));
        }
        if row.cells[i].0 == z {
            let ids = &row.cells[i].1;
            let ghost r0 = r@;
            let mut j: usize = 0;
            proof {
                assert(r0 + ids@.take(0) =~= r0);
            }
            while j < ids.len()
                invariant
                    j <= ids@.len(),
                    r@ == r0 + ids@.take(j as int),
                decreases ids@.len() - j,
            {
                r.push(ids[j]);
                j = j + 1;
                proof {
                    assert(r0 + ids@.take(j as int) =~= (r0 + ids@.take(j - 1)).push(ids@[j - 1]));
                }
            }
            proof {
                assert(ids@.take(j as int) =~= ids@);
            }
            return ;
        }
        i = i + 1;
    }
    proof {
        assert(all.skip(i as int) =~= Seq::empty());
        assert(r@ + Seq::<EntityId>::empty() =~= r@);
    }
}

/// An entity is among the candidates of a block where it is in one of its cells.
pub proof fn law_candidates_are_the_cells(g: SpatialIndex, lo: Cell, hi: Cell, c: Cell, id: EntityId)
    requires
        lo.x <= c.x <= hi.x,
        lo.y <= c.y <= hi.y,
        lo.z <= c.z <= hi.z,
        g.at(c).contains(id),
    ensures
        block(g, lo, hi, lo.x as int).contains(id),
{
    lemma_line(g, lo, hi, c, lo.z as int, id);
    lemma_slab(g, lo, hi, c, lo.y as int, id);
    lemma_block(g, lo, hi, c, lo.x as int, id);
}

proof fn lemma_line(g: SpatialIndex, lo: Cell, hi: Cell, c: Cell, z: int, id: EntityId)
    requires
        z <= c.z <= hi.z,
        g.at(c).contains(id),
    ensures
        line(g, lo, hi, c.x as int, c.y as int, z).contains(id),
    decreases c.z - z,
{
    let rest = line(g, lo, hi, c.x as int, c.y as int, z + 1);
    let here = g.at(Cell { x: c.x, y: c.y, z: z as i64 });
    let all = here + rest;
    if z == c.z {
        let i = choose|i: int| 0 <= i < here.len() && here[i] == id;
        assert(all[i] == id);
    } else {
        lemma_line(g, lo, hi, c, z + 1, id);
        let i = choose|i: int| 0 <= i < rest.len() && rest[i] == id;
        assert(all[here.len() + i] == id);
    }
}

proof fn lemma_slab(g: SpatialIndex, lo: Cell, hi: Cell, c: Cell, y: int, id: EntityId)
    requires
        y <= c.y <= hi.y,
        line(g, lo, hi, c.x as int, c.y as int, lo.z as int).contains(id),
    ensures
        slab(g, lo, hi, c.x as int, y).contains(id),
    decreases c.y - y,
{
    let rest = slab(g, lo, hi, c.x as int, y + 1);
    let here = line(g, lo, hi, c.x as int, y, lo.z as int);
    let all = here + rest;
    if y == c.y {
        let i = choose|i: int| 0 <= i < here.len() && here[i] == id;
        assert(all[i] == id);
    } else {
        lemma_slab(g, lo, hi, c, y + 1, id);
        let i = choose|i: int| 0 <= i < rest.len() && rest[i] == id;
        assert(all[here.len() + i] == id);
    }
}

proof fn lemma_block(g: SpatialIndex, lo: Cell, hi: Cell, c: Cell, x: int, id: EntityId)
    requires
        x <= c.x <= hi.x,
        slab(g, lo, hi, c.x as int, lo.y as int).contains(id),
    ensures
        block(g, lo, hi, x).contains(id),
    decreases c.x - x,
{
    let rest = block(g, lo, hi, x + 1);
    let here = slab(g, lo, hi, x, lo.y as int);
    let all = here + rest;
    if x == c.x {
        let i = choose|i: int| 0 <= i < here.len() && here[i] == id;
        assert(all[i] == id);
    } else {
        lemma_block(g, lo, hi, c, x + 1, id);
        let i = choose|i: int| 0 <= i < rest.len() && rest[i] == id;
        assert(all[here.len() + i] == id);
    }
}

// ---------------------------------------------------------------------------
// Boxes.

/// Both are numbers, and the first is not larger.
pub open spec fn at_most(a: Double, b: Double) -> bool {
    a.less(b) || a.same(b)
}

/// Two boxes overlap, or touch, on every axis.
pub open spec fn overlap(a: Aabb, min: Seq<Double>, max: Seq<Double>) -> bool {
    forall|i: int|
        0 <= i < 3 ==> at_most(#[trigger] a.min@[i], max[i]) && at_most(min[i], a.max@[i])
}

fn is_at_most(a: Double, b: Double) -> (r: bool)
    ensures
        r == at_most(a, b),
{
    a.lt(b) || a.eq_value(b)
}

/// Do two boxes overlap, or touch?
pub fn aabb_overlaps(a: &Aabb, b_min: [Double; 3], b_max: [Double; 3]) -> (r: bool)
    ensures
        r == overlap(*a, b_min@, b_max@),
{
    let r = is_at_most(a.min[0], b_max[0]) && is_at_most(b_min[0], a.max[0]) && is_at_most(
        a.min[1],
        b_max[1],
    ) && is_at_most(b_min[1], a.max[1]) && is_at_most(a.min[2], b_max[2]) && is_at_most(
        b_min[2],
        a.max[2],
    );
    proof {
        if overlap(*a, b_min@, b_max@) {
            assert(at_most(a.min@[0], b_max@[0]));
            assert(at_most(a.min@[1], b_max@[1]));
            assert(at_most(a.min@[2], b_max@[2]));
        }
        if r {
            assert forall|i: int| 0 <= i < 3 implies at_most(#[trigger] a.min@[i], b_max@[i])
                && at_most(b_min@[i], a.max@[i]) by {
                assert(i == 0 || i == 1 || i == 2);
            }
        }
    }
    r
}

/// A view frustum: six planes that face inward, and a box around it. A plane
/// `[a, b, c, d]` has a point `p` inside where `a*px + b*py + c*pz + d >= 0`.
#[derive(Debug, Clone, Copy, PartialEq)]
pub struct Frustum {
    pub planes: [[Double; 4]; 6],
    pub bounds: Aabb,
}

impl Frustum {
    pub fn new(planes: [[Double; 4]; 6], bounds: Aabb) -> (f: Self)
        ensures
            f.planes == planes,
            f.bounds == bounds,
    {
        Frustum { planes, bounds }
    }
}

} // verus!
