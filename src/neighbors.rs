use vstd::prelude::*;

use crate::consts::{CLASS_COUNT, NEIGHBOR_RADIUS, NEIGHBOR_SPAN};

verus! {

/// A particle, named by its class and its slot in that class.
pub type ParticleId = (usize, usize);

/// Key of a cell in the map: its two coordinates.
pub type CellKey = (i32, i32);

/// The cell map itself, keyed by cell coordinates.
pub type CellMap = fnv::FnvHashMap<CellKey, Vec<ParticleId>>;

#[verifier::external_type_specification]
#[verifier::external_body]
pub struct ExFnvHasher(fnv::FnvHasher);

#[verifier::external_type_specification]
#[verifier::external_body]
#[verifier::reject_recursive_types(H)]
pub struct ExBuildHasherDefault<H>(std::hash::BuildHasherDefault<H>);

/// The contents of a map without cells.
pub open spec fn no_cells() -> Map<CellKey, Seq<ParticleId>> {
    Map::empty()
}

/// What a cell map holds: the particles listed under each cell.
pub uninterp spec fn cell_contents(m: CellMap) -> Map<CellKey, Seq<ParticleId>>;

/// Relies on `FnvHashMap::default` (std's `HashMap::default` with fnv's
/// hasher): a new map holds nothing.
#[verifier::external_body]
fn empty_cell_map() -> (m: CellMap)
    ensures
        cell_contents(m) == no_cells(),
{
    CellMap::default()
}

/// Relies on `HashMap::remove` with fnv's hasher: the entry under `key`
/// leaves the map and is handed back, if there was one.
#[verifier::external_body]
fn take_cell(m: &mut CellMap, key: CellKey) -> (r: Option<Vec<ParticleId>>)
    ensures
        cell_contents(*final(m)) == cell_contents(*old(m)).remove(key),
        match r {
            Some(v) => cell_contents(*old(m)).contains_key(key) && v@ == cell_contents(*old(m))[key],
            None => !cell_contents(*old(m)).contains_key(key),
        },
{
    m.remove(&key)
}

/// Relies on `HashMap::insert` with fnv's hasher: afterwards `key` maps to
/// `members`.
#[verifier::external_body]
fn put_cell(m: &mut CellMap, key: CellKey, members: Vec<ParticleId>)
    ensures
        cell_contents(*final(m)) == cell_contents(*old(m)).insert(key, members@),
{
    m.insert(key, members);
}

/// Relies on `HashMap::get` with fnv's hasher: the entry under `key`, if
/// there is one.
#[verifier::external_body]
fn cell_members(m: &CellMap, key: CellKey) -> (r: Option<&Vec<ParticleId>>)
    ensures
        match r {
            Some(v) => cell_contents(*m).contains_key(key) && v@ == cell_contents(*m)[key],
            None => !cell_contents(*m).contains_key(key),
        },
{
    m.get(&key)
}

/// A cell of the spatial grid: the integer part of a position divided by
/// the cell size, on each axis.
#[derive(Debug, Clone, Copy, Hash, PartialEq, Eq, Structural)]
pub struct Cell(pub i32, pub i32);

/// Cells whose coordinates leave room for a whole block around them.
pub open spec fn block_fits(c: Cell) -> bool {
    i32::MIN + NEIGHBOR_RADIUS <= c.0 <= i32::MAX - NEIGHBOR_RADIUS
        && i32::MIN + NEIGHBOR_RADIUS <= c.1 <= i32::MAX - NEIGHBOR_RADIUS
}

/// `k` lies in the square block of cells searched around `center`.
pub open spec fn in_block(center: Cell, k: CellKey) -> bool {
    -NEIGHBOR_RADIUS <= k.0 - center.0 <= NEIGHBOR_RADIUS
        && -NEIGHBOR_RADIUS <= k.1 - center.1 <= NEIGHBOR_RADIUS
}

impl Cell {
    pub open spec fn key(self) -> CellKey {
        (self.0, self.1)
    }

    /// The cells of the block around this one, column offset outermost:
    /// entry `k` is offset by `k / 7 - 3` on the first axis and by
    /// `k % 7 - 3` on the second.
    pub fn get_neighbors(&self) -> (r: Vec<Cell>)
        requires
            block_fits(*self),
        ensures
            r@.len() == NEIGHBOR_SPAN * NEIGHBOR_SPAN,
            forall|k: int|
                0 <= k < r@.len() ==> #[trigger] r@[k] == Cell(
                    (self.0 + k / NEIGHBOR_SPAN as int - NEIGHBOR_RADIUS) as i32,
                    (self.1 + k % NEIGHBOR_SPAN as int - NEIGHBOR_RADIUS) as i32,
                ),
    {
        let Cell(x, y) = *self;
        let mut r: Vec<Cell> = Vec::with_capacity(NEIGHBOR_SPAN * NEIGHBOR_SPAN);
        let mut i: i32 = -NEIGHBOR_RADIUS;
        while i <= NEIGHBOR_RADIUS
            invariant
                block_fits(Cell(x, y)),
                -NEIGHBOR_RADIUS <= i <= NEIGHBOR_RADIUS + 1,
                r@.len() == (i + NEIGHBOR_RADIUS) * NEIGHBOR_SPAN,
                forall|k: int|
                    0 <= k < r@.len() ==> #[trigger] r@[k] == Cell(
                        (x + k / NEIGHBOR_SPAN as int - NEIGHBOR_RADIUS) as i32,
                        (y + k % NEIGHBOR_SPAN as int - NEIGHBOR_RADIUS) as i32,
                    ),
            decreases NEIGHBOR_RADIUS + 1 - i,
        {
            let mut j: i32 = -NEIGHBOR_RADIUS;
            while j <= NEIGHBOR_RADIUS
                invariant
                    block_fits(Cell(x, y)),
                    -NEIGHBOR_RADIUS <= i <= NEIGHBOR_RADIUS,
                    -NEIGHBOR_RADIUS <= j <= NEIGHBOR_RADIUS + 1,
                    r@.len() == (i + NEIGHBOR_RADIUS) * NEIGHBOR_SPAN + (j + NEIGHBOR_RADIUS),
                    forall|k: int|
                        0 <= k < r@.len() ==> #[trigger] r@[k] == Cell(
                            (x + k / NEIGHBOR_SPAN as int - NEIGHBOR_RADIUS) as i32,
                            (y + k % NEIGHBOR_SPAN as int - NEIGHBOR_RADIUS) as i32,
                        ),
                decreases NEIGHBOR_RADIUS + 1 - j,
            {
                let ghost k = r@.len() as int;
                proof {
                    assert(k / 7 == i + 3 && k % 7 == j + 3) by (nonlinear_arith)
                        requires
                            k == (i + 3) * 7 + (j + 3),
                            0 <= j + 3 < 7,
                            0 <= i + 3,
                    ;
                }
                r.push(Cell(x + i, y + j));
                j += 1;
            }
            i += 1;
        }
        r
    }
}

/// The particles listed under `key`, none where the map has no entry.
pub open spec fn members_of(m: Map<CellKey, Seq<ParticleId>>, key: CellKey) -> Seq<ParticleId> {
    if m.contains_key(key) {
        m[key]
    } else {
        Seq::empty()
    }
}

/// The map that places each particle of `entries` under its cell, in the
/// order of `entries`; cells without particles have no entry.
pub open spec fn index_of(entries: Seq<(ParticleId, Cell)>) -> Map<CellKey, Seq<ParticleId>>
    decreases entries.len(),
{
    if entries.len() == 0 {
        Map::empty()
    } else {
        let m = index_of(entries.drop_last());
        let key = entries.last().1.key();
        m.insert(key, members_of(m, key).push(entries.last().0))
    }
}

/// `id` is listed under cell `key`.
pub open spec fn listed(m: Map<CellKey, Seq<ParticleId>>, key: CellKey, id: ParticleId) -> bool {
    m.contains_key(key) && m[key].contains(id)
}

/// The particles that a search around `center` may return: those of an
/// enabled class that are listed under a cell of the block.
pub open spec fn near(
    m: Map<CellKey, Seq<ParticleId>>,
    center: Cell,
    enabled: [bool; CLASS_COUNT],
    id: ParticleId,
) -> bool {
    &&& id.0 < CLASS_COUNT
    &&& enabled[id.0 as int]
    &&& exists|k: CellKey| in_block(center, k) && #[trigger] listed(m, k, id)
}

/// Appending `x` adds exactly `x` to what a sequence contains.
pub proof fn lemma_push_contains<A>(s: Seq<A>, x: A)
    ensures
        forall|p: A| #[trigger] s.push(x).contains(p) <==> (s.contains(p) || p == x),
{
    assert forall|p: A| #[trigger] s.push(x).contains(p) <==> (s.contains(p) || p == x) by {
        if s.contains(p) {
            let w = choose|w: int| 0 <= w < s.len() && s[w] == p;
            assert(s.push(x)[w] == p);
        }
        if p == x {
            assert(s.push(x)[s.len() as int] == p);
        }
        if s.push(x).contains(p) {
            let w = choose|w: int| 0 <= w < s.len() + 1 && s.push(x)[w] == p;
            if w < s.len() {
                assert(s[w] == p);
            }
        }
    }
}

/// Maps grid cells to the particles that lie in them.
pub struct NeighborIndex {
    cells: CellMap,
}

impl View for NeighborIndex {
    type V = Map<CellKey, Seq<ParticleId>>;

    closed spec fn view(&self) -> Map<CellKey, Seq<ParticleId>> {
        cell_contents(self.cells)
    }
}

impl NeighborIndex {
    /// An index with no cells.
    pub fn new() -> (r: Self)
        ensures
            r@ == no_cells(),
    {
        NeighborIndex { cells: empty_cell_map() }
    }

    /// Forgets every cell and lists each particle of `entries` under its
    /// cell.
    pub fn rebuild(&mut self, entries: &Vec<(ParticleId, Cell)>)
        ensures
            final(self)@ == index_of(entries@),
    {
        let mut cells = empty_cell_map();
        let mut k: usize = 0;
        while k < entries.len()
            invariant
                k <= entries@.len(),
                cell_contents(cells) == index_of(entries@.subrange(0, k as int)),
            decreases entries@.len() - k,
        {
            let (id, cell) = entries[k];
            let key: CellKey = (cell.0, cell.1);
            let ghost before = cell_contents(cells);
            let mut members = match take_cell(&mut cells, key) {
                Some(v) => v,
                None => Vec::new(),
            };
            assert(members@ == members_of(before, key));
            members.push(id);
            put_cell(&mut cells, key, members);
            proof {
                let s = entries@.subrange(0, k + 1);
                assert(s.drop_last() =~= entries@.subrange(0, k as int));
                assert(cell_contents(cells) =~= before.insert(key, members_of(before, key).push(id)));
            }
            k += 1;
        }
        assert(entries@.subrange(0, entries@.len() as int) =~= entries@);
        self.cells = cells;
    }

    /// The particles of enabled classes listed under the cells of the block
    /// around `cell`.
    pub fn neighbors_of(&self, cell: Cell, enabled: &[bool; CLASS_COUNT]) -> (r: Vec<ParticleId>)
        ensures
            forall|id: ParticleId| #[trigger] r@.contains(id) <==> near(self@, cell, *enabled, id),
    {
        let Cell(x, y) = cell;
        let mut r: Vec<ParticleId> = Vec::new();
        let mut i: i32 = -NEIGHBOR_RADIUS;
        while i <= NEIGHBOR_RADIUS
            invariant
                x == cell.0,
                y == cell.1,
                -NEIGHBOR_RADIUS <= i <= NEIGHBOR_RADIUS + 1,
                forall|id: ParticleId| #[trigger]
                    r@.contains(id) <==> (id.0 < CLASS_COUNT && enabled[id.0 as int] && exists|k: CellKey|
                        in_block(cell, k) && k.0 < x + i && #[trigger] listed(self@, k, id)),
            decreases NEIGHBOR_RADIUS + 1 - i,
        {
            let mut j: i32 = -NEIGHBOR_RADIUS;
            while j <= NEIGHBOR_RADIUS
                invariant
                    x == cell.0,
                    y == cell.1,
                    -NEIGHBOR_RADIUS <= i <= NEIGHBOR_RADIUS,
                    -NEIGHBOR_RADIUS <= j <= NEIGHBOR_RADIUS + 1,
                    forall|id: ParticleId| #[trigger]
                        r@.contains(id) <==> (id.0 < CLASS_COUNT && enabled[id.0 as int]
                            && exists|k: CellKey|
                            in_block(cell, k) && (k.0 < x + i || (k.0 == x + i && k.1 < y + j))
                                && #[trigger] listed(self@, k, id)),
                decreases NEIGHBOR_RADIUS + 1 - j,
            {
                let kx: i64 = x as i64 + i as i64;
                let ky: i64 = y as i64 + j as i64;
                let ghost before = r@;
                if kx >= i32::MIN as i64 && kx <= i32::MAX as i64 && ky >= i32::MIN as i64 && ky <= i32::MAX as i64 {
                let key: CellKey = (kx as i32, ky as i32);
                match cell_members(&self.cells, key) {
                    Some(members) => {
                        let mut t: usize = 0;
                        while t < members.len()
                            invariant
                                t <= members@.len(),
                                members@ == self@[key],
                                self@.contains_key(key),
                                forall|id: ParticleId| #[trigger]
                                    r@.contains(id) <==> (before.contains(id) || (id.0 < CLASS_COUNT
                                        && enabled[id.0 as int] && exists|w: int|
                                        0 <= w < t && #[trigger] members@[w] == id)),
                            decreases members@.len() - t,
                        {
                            let id = members[t];
                            let ghost r0 = r@;
                            if id.0 < CLASS_COUNT && enabled[id.0] {
                                r.push(id);
                                proof {
                                    lemma_push_contains(r0, id);
                                }
                            }
                            proof {
                                assert forall|p: ParticleId| #[trigger] r@.contains(p) <==> (before.contains(p)
                                    || (p.0 < CLASS_COUNT && enabled[p.0 as int] && exists|w: int|
                                    0 <= w < t + 1 && #[trigger] members@[w] == p)) by {
                                    if p == id {
                                        assert(members@[t as int] == p);
                                    }
                                    if exists|w: int| 0 <= w < t + 1 && #[trigger] members@[w] == p {
                                        let w = choose|w: int| 0 <= w < t + 1 && #[trigger] members@[w] == p;
                                        if w < t {
                                            assert(r0.contains(p) || !(p.0 < CLASS_COUNT && enabled[p.0 as int]));
                                        }
                                    }
                                }
                            }
                            t += 1;
                        }
                    },
                    None => {},
                }
                }
                proof {
                    assert forall|id: ParticleId| #[trigger]
                        r@.contains(id) <==> (id.0 < CLASS_COUNT && enabled[id.0 as int]
                            && exists|k: CellKey|
                            in_block(cell, k) && (k.0 < x + i || (k.0 == x + i && k.1 < y + j + 1))
                                && #[trigger] listed(self@, k, id)) by {
                        let kk: CellKey = (kx as i32, ky as i32);
                        if i32::MIN <= kx <= i32::MAX && i32::MIN <= ky <= i32::MAX && listed(self@, kk, id) {
                            assert(in_block(cell, kk));
                        }
                        if exists|k: CellKey| in_block(cell, k) && (k.0 < x + i || (k.0 == x + i && k.1 < y + j + 1))
                            && #[trigger] listed(self@, k, id) {
                            let k = choose|k: CellKey| in_block(cell, k) && (k.0 < x + i || (k.0 == x + i && k.1
                                < y + j + 1)) && #[trigger] listed(self@, k, id);
                            if k.0 == x + i && k.1 == y + j {
                                assert(kx == k.0 && ky == k.1);
                            }
                        }
                    }
                }
                j += 1;
            }
            proof {
                assert forall|id: ParticleId| #[trigger]
                    r@.contains(id) <==> (id.0 < CLASS_COUNT && enabled[id.0 as int] && exists|k: CellKey|
                        in_block(cell, k) && k.0 < x + i + 1 && #[trigger] listed(self@, k, id)) by {
                    if r@.contains(id) {
                        let k = choose|k: CellKey| in_block(cell, k) && (k.0 < x + i || (k.0 == x + i
                            && k.1 < y + NEIGHBOR_RADIUS + 1)) && #[trigger] listed(self@, k, id);
                        assert(k.0 < x + i + 1);
                    }
                    if id.0 < CLASS_COUNT && enabled[id.0 as int] && exists|k: CellKey|
                        in_block(cell, k) && k.0 < x + i + 1 && #[trigger] listed(self@, k, id) {
                        let k = choose|k: CellKey| in_block(cell, k) && k.0 < x + i + 1 && #[trigger] listed(self@, k, id);
                        assert(k.0 < x + i || (k.0 == x + i && k.1 < y + NEIGHBOR_RADIUS + 1));
                    }
                }
            }
            i += 1;
        }
        r
    }
}

} // verus!

verus! {

/// A particle is listed under its own cell once the index is built.
pub proof fn lemma_listed_in_own_cell(entries: Seq<(ParticleId, Cell)>, b: int)
    requires
        0 <= b < entries.len(),
    ensures
        listed(index_of(entries), entries[b].1.key(), entries[b].0),
    decreases entries.len(),
{
    let m = index_of(entries.drop_last());
    let key = entries.last().1.key();
    let last = entries.len() - 1;
    if b == last {
        lemma_push_contains(members_of(m, key), entries.last().0);
    } else {
        assert(entries.drop_last()[b] == entries[b]);
        lemma_listed_in_own_cell(entries.drop_last(), b);
        let kb = entries[b].1.key();
        if kb == key {
            lemma_push_contains(members_of(m, key), entries.last().0);
        }
    }
}

/// Two coordinates at most `NEIGHBOR_RADIUS` cell widths apart fall in
/// cells at most `NEIGHBOR_RADIUS` apart.
pub proof fn lemma_cells_close(x1: int, x2: int, size: int)
    requires
        size > 0,
        -NEIGHBOR_RADIUS * size <= x1 - x2 <= NEIGHBOR_RADIUS * size,
    ensures
        -NEIGHBOR_RADIUS <= x1 / size - x2 / size <= NEIGHBOR_RADIUS,
{
    let q1 = x1 / size;
    let q2 = x2 / size;
    assert(-NEIGHBOR_RADIUS * size == -3 * size);
    assert(-3 * size == -(3 * size)) by (nonlinear_arith);
    assert(q1 * size <= x1 < q1 * size + size) by (nonlinear_arith)
        requires size > 0, q1 == x1 / size;
    assert(q2 * size <= x2 < q2 * size + size) by (nonlinear_arith)
        requires size > 0, q2 == x2 / size;
    assert(q1 - q2 <= 3) by (nonlinear_arith)
        requires
            size > 0,
            q1 * size <= x1,
            x2 < q2 * size + size,
            x1 - x2 <= 3 * size,
    ;
    assert(q2 - q1 <= 3) by (nonlinear_arith)
        requires
            size > 0,
            q2 * size <= x2,
            x1 < q1 * size + size,
            x2 - x1 <= 3 * size,
    ;
}

/// The grid cell of a point, for cells `size` units wide.
pub open spec fn cell_at(x: int, y: int, size: int) -> (int, int) {
    (x / size, y / size)
}

/// The neighbor search misses nothing: where each particle is listed under
/// the cell of its position, and the grid's cells are a third of the
/// interaction range wide, a search around the cell of any particle `a`
/// returns every particle `b` of an enabled class whose distance to `a` is
/// at most the interaction range. Positions are points of an integer grid
/// finer than the cells.
pub proof fn lemma_search_covers_range(
    entries: Seq<(ParticleId, Cell)>,
    positions: Seq<(int, int)>,
    size: int,
    a: int,
    b: int,
    enabled: [bool; CLASS_COUNT],
)
    requires
        size > 0,
        positions.len() == entries.len(),
        forall|k: int|
            0 <= k < entries.len() ==> ((#[trigger] entries[k]).1.0 as int, entries[k].1.1 as int) == cell_at(
                positions[k].0,
                positions[k].1,
                size,
            ),
        0 <= a < entries.len(),
        0 <= b < entries.len(),
        ({
            let dx = positions[a].0 - positions[b].0;
            let dy = positions[a].1 - positions[b].1;
            dx * dx + dy * dy <= (NEIGHBOR_RADIUS * size) * (NEIGHBOR_RADIUS * size)
        }),
        entries[b].0.0 < CLASS_COUNT,
        enabled[entries[b].0.0 as int],
    ensures
        near(index_of(entries), entries[a].1, enabled, entries[b].0),
{
    let ea = entries[a];
    let eb = entries[b];
    let range = NEIGHBOR_RADIUS * size;
    let dx = positions[a].0 - positions[b].0;
    let dy = positions[a].1 - positions[b].1;
    assert(-range <= dx <= range && -range <= dy <= range) by (nonlinear_arith)
        requires
            dx * dx + dy * dy <= range * range,
            range > 0,
    ;
    lemma_cells_close(positions[b].0, positions[a].0, size);
    lemma_cells_close(positions[b].1, positions[a].1, size);
    lemma_listed_in_own_cell(entries, b);
    assert(in_block(ea.1, eb.1.key()));
    assert(listed(index_of(entries), eb.1.key(), eb.0));
}

} // verus!
