use vstd::prelude::*;

use crate::consts::{CLASS_COUNT, MAX_PARTICLE_COUNT};
use crate::mat::{Mat2D, MatModel};
use crate::neighbors::{index_of, near, Cell, NeighborIndex, ParticleId};

verus! {

/// The active particles of the enabled classes among the first `c`
/// classes, class by class, each class's slots in order.
pub open spec fn active_ids(counts: [usize; CLASS_COUNT], enabled: [bool; CLASS_COUNT], c: int) -> Seq<ParticleId>
    decreases c,
{
    if c <= 0 {
        Seq::empty()
    } else {
        active_ids(counts, enabled, c - 1) + if enabled[c - 1] {
            Seq::new(counts[c - 1] as nat, |p: int| ((c - 1) as usize, p as usize))
        } else {
            Seq::empty()
        }
    }
}

/// The active particles of all enabled classes.
pub open spec fn all_active_ids(counts: [usize; CLASS_COUNT], enabled: [bool; CLASS_COUNT]) -> Seq<ParticleId> {
    active_ids(counts, enabled, CLASS_COUNT as int)
}

/// Entry `id` of a class-by-slot matrix.
pub open spec fn slot<P>(m: MatModel<P>, id: ParticleId) -> P {
    m.at(id.0 as int, id.1 as int)
}

/// `cells[k]` is a cell that `cell_of` may give for the position of
/// particle `ids[k]`.
pub open spec fn placed<P, F: Fn(&P) -> Cell>(cell_of: F, positions: MatModel<P>, ids: Seq<ParticleId>, cells: Seq<Cell>) -> bool {
    &&& cells.len() == ids.len()
    &&& forall|k: int| 0 <= k < ids.len() ==> cell_of.ensures((&slot(positions, ids[k]),), #[trigger] cells[k])
}

/// None of the first `n` updates is for `id`.
pub open spec fn untouched<P>(updates: Seq<(ParticleId, P)>, n: int, id: ParticleId) -> bool {
    forall|q: int| 0 <= q < n ==> (#[trigger] updates[q]).0 != id
}

/// Slot `id` is reset once classes below `c`, and the first `p` slots of
/// class `c`, are done.
pub open spec fn reset_done(id: ParticleId, counts: [usize; CLASS_COUNT], c: int, p: int) -> bool {
    (id.0 < c && id.1 < counts[id.0 as int]) || (id.0 == c && id.1 < p)
}

/// Distinct slots are stored at distinct places.
pub proof fn lemma_distinct_slots(a: ParticleId, b: ParticleId)
    requires
        a.0 < CLASS_COUNT,
        a.1 < MAX_PARTICLE_COUNT,
        b.0 < CLASS_COUNT,
        b.1 < MAX_PARTICLE_COUNT,
        a != b,
    ensures
        a.0 * MAX_PARTICLE_COUNT + a.1 != b.0 * MAX_PARTICLE_COUNT + b.1,
        0 <= a.0 * MAX_PARTICLE_COUNT + a.1 < CLASS_COUNT * MAX_PARTICLE_COUNT,
        0 <= b.0 * MAX_PARTICLE_COUNT + b.1 < CLASS_COUNT * MAX_PARTICLE_COUNT,
{
    assert(a.0 * 15000 + a.1 != b.0 * 15000 + b.1) by (nonlinear_arith)
        requires
            a.1 < 15000,
            b.1 < 15000,
            a.0 != b.0 || a.1 != b.1,
    ;
    crate::mat::lemma_offset_in_bounds(CLASS_COUNT as int, MAX_PARTICLE_COUNT as int, a.0 as int, a.1 as int);
    crate::mat::lemma_offset_in_bounds(CLASS_COUNT as int, MAX_PARTICLE_COUNT as int, b.0 as int, b.1 as int);
}

/// The power that class `from` applies to class `to`: the opposite of
/// entry `(from, to)` of the power matrix.
pub open spec fn power_on(m: MatModel<i8>, from: usize, to: usize) -> i16 {
    (-m.at(from as int, to as int)) as i16
}

/// `ns` is what the integration step of particle `id` sees when its cell
/// is `cell`: each slot that the search around `cell` returns, with its
/// position and the power of its class on the class of `id`.
pub open spec fn sees<P>(sim: Simulation<P>, id: ParticleId, cell: Cell, ns: Seq<(P, i16)>) -> bool {
    exists|nids: Seq<ParticleId>|
        {
            &&& #[trigger] nids.len() == ns.len()
            &&& forall|x: ParticleId|
                nids.contains(x) <==> (near(sim.cell_map@, cell, sim.enabled_classes, x) && x.1 < MAX_PARTICLE_COUNT)
            &&& forall|j: int|
                0 <= j < ns.len() ==> #[trigger] ns[j] == (
                    slot(sim.particle_positions@, nids[j]),
                    power_on(sim.power_matrix@, nids[j].0, id.0),
                )
        }
}

/// `new_pos` is a position that `step` may give particle `id` of `sim`:
/// from its position, its previous position and what it sees from a cell
/// that `cell_of` may give for its position.
pub open spec fn moved_by<P, F: Fn(&P) -> Cell, G: Fn(P, P, &Vec<(P, i16)>) -> P>(
    cell_of: F,
    step: G,
    sim: Simulation<P>,
    id: ParticleId,
    cell: Cell,
    ns: Vec<(P, i16)>,
    new_pos: P,
) -> bool {
    &&& cell_of.ensures((&slot(sim.particle_positions@, id),), cell)
    &&& sees(sim, id, cell, ns@)
    &&& step.ensures(
        (slot(sim.particle_positions@, id), slot(sim.particle_prev_positions@, id), &ns),
        new_pos,
    )
}

/// Some cell and some view of the neighbors lead `step` to `new_pos` for
/// particle `id`.
pub open spec fn stepped_to<P, F: Fn(&P) -> Cell, G: Fn(P, P, &Vec<(P, i16)>) -> P>(
    cell_of: F,
    step: G,
    sim: Simulation<P>,
    id: ParticleId,
    new_pos: P,
) -> bool {
    exists|cell: Cell, ns: Vec<(P, i16)>| #[trigger] moved_by(cell_of, step, sim, id, cell, ns, new_pos)
}

/// The active particles of the first `c` classes are distinct valid slots,
/// each within its class's count.
pub proof fn lemma_active_ids(counts: [usize; CLASS_COUNT], enabled: [bool; CLASS_COUNT], c: int)
    requires
        0 <= c <= CLASS_COUNT,
        forall|q: int| 0 <= q < CLASS_COUNT ==> #[trigger] counts[q] <= MAX_PARTICLE_COUNT,
    ensures
        forall|k: int|
            0 <= k < active_ids(counts, enabled, c).len() ==> {
                let id = #[trigger] active_ids(counts, enabled, c)[k];
                &&& id.0 < c
                &&& enabled[id.0 as int]
                &&& id.1 < counts[id.0 as int]
                &&& id.1 < MAX_PARTICLE_COUNT
            },
        forall|k1: int, k2: int|
            0 <= k1 < k2 < active_ids(counts, enabled, c).len() ==> #[trigger] active_ids(counts, enabled, c)[k1]
                != #[trigger] active_ids(counts, enabled, c)[k2],
    decreases c,
{
    if c > 0 {
        lemma_active_ids(counts, enabled, c - 1);
        let a = active_ids(counts, enabled, c - 1);
        let b = if enabled[c - 1] {
            Seq::new(counts[c - 1] as nat, |p: int| ((c - 1) as usize, p as usize))
        } else {
            Seq::<ParticleId>::empty()
        };
        let s = active_ids(counts, enabled, c);
        assert(s == a + b);
        assert forall|k: int| 0 <= k < s.len() implies {
            let id = #[trigger] s[k];
            &&& id.0 < c
            &&& enabled[id.0 as int]
            &&& id.1 < counts[id.0 as int]
            &&& id.1 < MAX_PARTICLE_COUNT
        } by {
            if k >= a.len() {
                assert(s[k] == b[k - a.len()]);
            } else {
                assert(s[k] == a[k]);
            }
        }
        assert forall|k1: int, k2: int| 0 <= k1 < k2 < s.len() implies #[trigger] s[k1] != #[trigger] s[k2] by {
            if k2 < a.len() {
                assert(s[k1] == a[k1] && s[k2] == a[k2]);
            } else if k1 < a.len() {
                assert(s[k1] == a[k1] && s[k2] == b[k2 - a.len()]);
            } else {
                assert(s[k1] == b[k1 - a.len()] && s[k2] == b[k2 - a.len()]);
            }
        }
    }
}

/// Particle classes that interact through a matrix of coefficients. Each
/// class has `MAX_PARTICLE_COUNT` slots of which the first
/// `particle_counts[c]` are active; positions are of type `P`.
pub struct Simulation<P> {
    pub enabled_classes: [bool; CLASS_COUNT],
    pub particle_counts: [usize; CLASS_COUNT],
    /// Entry `(i, j)` is the power of class `i` on class `j`.
    pub power_matrix: Mat2D<i8>,
    pub particle_prev_positions: Mat2D<P>,
    pub particle_positions: Mat2D<P>,
    pub cell_map: NeighborIndex,
}

impl<P: Copy> Simulation<P> {
    /// Counts within the slots, and matrices of the right shapes.
    pub open spec fn wf(&self) -> bool {
        &&& forall|c: int| 0 <= c < CLASS_COUNT ==> #[trigger] self.particle_counts[c] <= MAX_PARTICLE_COUNT
        &&& self.power_matrix@.wf()
        &&& self.power_matrix@.rows == CLASS_COUNT
        &&& self.power_matrix@.cols == CLASS_COUNT
        &&& self.particle_positions@.wf()
        &&& self.particle_positions@.rows == CLASS_COUNT
        &&& self.particle_positions@.cols == MAX_PARTICLE_COUNT
        &&& self.particle_prev_positions@.wf()
        &&& self.particle_prev_positions@.rows == CLASS_COUNT
        &&& self.particle_prev_positions@.cols == MAX_PARTICLE_COUNT
    }

    /// A simulation with every class enabled and empty, every coefficient
    /// zero, every slot at `origin` and no cells.
    pub fn new(origin: P) -> (r: Self)
        ensures
            r.wf(),
            forall|c: int| 0 <= c < CLASS_COUNT ==> #[trigger] r.enabled_classes[c] && r.particle_counts[c] == 0,
            forall|k: int| 0 <= k < r.power_matrix@.data.len() ==> #[trigger] r.power_matrix@.data[k] == 0,
            forall|k: int| 0 <= k < r.particle_positions@.data.len() ==> #[trigger] r.particle_positions@.data[k] == origin,
            r.particle_prev_positions@ == r.particle_positions@,
            r.cell_map@ == Map::<(i32, i32), Seq<ParticleId>>::empty(),
    {
        let particle_positions = Mat2D::filled_with(origin, CLASS_COUNT, MAX_PARTICLE_COUNT);
        let particle_prev_positions = Mat2D::filled_with(origin, CLASS_COUNT, MAX_PARTICLE_COUNT);
        Simulation {
            enabled_classes: [true; CLASS_COUNT],
            particle_counts: [0; CLASS_COUNT],
            power_matrix: Mat2D::filled_with(0, CLASS_COUNT, CLASS_COUNT),
            particle_prev_positions,
            particle_positions,
            cell_map: NeighborIndex::new(),
        }
    }

    /// Total number of active particles.
    pub fn particle_count(&self) -> (n: usize)
        requires
            self.wf(),
        ensures
            n == self.particle_counts@.fold_left(0, |acc: int, x: usize| acc + x),
    {
        let mut n: usize = 0;
        let mut c: usize = 0;
        while c < CLASS_COUNT
            invariant
                c <= CLASS_COUNT,
                self.wf(),
                n == self.particle_counts@.subrange(0, c as int).fold_left(0, |acc: int, x: usize| acc + x),
                n <= c * MAX_PARTICLE_COUNT,
            decreases CLASS_COUNT - c,
        {
            proof {
                let s = self.particle_counts@.subrange(0, c + 1);
                assert(s.drop_last() =~= self.particle_counts@.subrange(0, c as int));
                assert(self.particle_counts[c as int] <= MAX_PARTICLE_COUNT);
            }
            n = n + self.particle_counts[c];
            c += 1;
        }
        assert(self.particle_counts@.subrange(0, CLASS_COUNT as int) =~= self.particle_counts@);
        n
    }

    /// The active particles of the enabled classes, class by class.
    pub fn active_particles(&self) -> (r: Vec<ParticleId>)
        requires
            self.wf(),
        ensures
            r@ == all_active_ids(self.particle_counts, self.enabled_classes),
    {
        let mut r: Vec<ParticleId> = Vec::new();
        let mut c: usize = 0;
        while c < CLASS_COUNT
            invariant
                c <= CLASS_COUNT,
                self.wf(),
                r@ == active_ids(self.particle_counts, self.enabled_classes, c as int),
            decreases CLASS_COUNT - c,
        {
            let ghost start = r@;
            if self.enabled_classes[c] {
                let n = self.particle_counts[c];
                let mut p: usize = 0;
                while p < n
                    invariant
                        c < CLASS_COUNT,
                        p <= n,
                        r@ == start + Seq::new(p as nat, |q: int| (c, q as usize)),
                    decreases n - p,
                {
                    r.push((c, p));
                    p += 1;
                    assert(r@ =~= start + Seq::new(p as nat, |q: int| (c, q as usize)));
                }
            } else {
                assert(r@ =~= start + Seq::<ParticleId>::empty());
            }
            c += 1;
        }
        r
    }

    /// One tick. Each active particle of an enabled class finds its cell
    /// with `cell_of` and its neighbors in the index as it stands; `step`
    /// gives its next position from its position, its previous position and
    /// each neighbor's position with the power of the neighbor's class on
    /// its own. Every step reads the state from before the tick; then all
    /// new positions are committed at once, each particle's old position
    /// becoming its previous one, and the index is rebuilt.
    pub fn move_particles<F, G>(&mut self, cell_of: F, step: G)
        where
            F: Fn(&P) -> Cell,
            G: Fn(P, P, &Vec<(P, i16)>) -> P,
        requires
            old(self).wf(),
            forall|p: P| cell_of.requires((&p,)),
            forall|a: P, b: P, ns: Vec<(P, i16)>| step.requires((a, b, &ns)),
        ensures
            final(self).wf(),
            final(self).enabled_classes == old(self).enabled_classes,
            final(self).particle_counts == old(self).particle_counts,
            final(self).power_matrix == old(self).power_matrix,
            forall|id: ParticleId|
                all_active_ids(old(self).particle_counts, old(self).enabled_classes).contains(id) ==> {
                    &&& stepped_to(cell_of, step, *old(self), id, #[trigger] slot(final(self).particle_positions@, id))
                    &&& slot(final(self).particle_prev_positions@, id) == slot(old(self).particle_positions@, id)
                },
            forall|id: ParticleId|
                id.0 < CLASS_COUNT && id.1 < MAX_PARTICLE_COUNT && !all_active_ids(
                    old(self).particle_counts,
                    old(self).enabled_classes,
                ).contains(id) ==> {
                    &&& #[trigger] slot(final(self).particle_positions@, id) == slot(old(self).particle_positions@, id)
                    &&& slot(final(self).particle_prev_positions@, id) == slot(old(self).particle_prev_positions@, id)
                },
            exists|cells: Seq<Cell>|
                #[trigger] placed(cell_of, final(self).particle_positions@, all_active_ids(old(self).particle_counts, old(self).enabled_classes), cells)
                    && final(self).cell_map@ == index_of(all_active_ids(old(self).particle_counts, old(self).enabled_classes).zip_with(cells)),
    {
        let ghost before = *self;
        let ids = self.active_particles();
        proof {
            lemma_active_ids(self.particle_counts, self.enabled_classes, CLASS_COUNT as int);
        }
        let mut updates: Vec<(ParticleId, P)> = Vec::with_capacity(ids.len());
        let mut k: usize = 0;
        while k < ids.len()
            invariant
                k <= ids@.len(),
                *self == before,
                self.wf(),
                ids@ == all_active_ids(self.particle_counts, self.enabled_classes),
                forall|q: int|
                    0 <= q < ids@.len() ==> (#[trigger] ids@[q]).0 < CLASS_COUNT && ids@[q].1 < MAX_PARTICLE_COUNT,
                forall|p: P| cell_of.requires((&p,)),
                forall|a: P, b: P, ns: Vec<(P, i16)>| step.requires((a, b, &ns)),
                updates@.len() == k,
                forall|q: int| 0 <= q < k ==> (#[trigger] updates@[q]).0 == ids@[q],
                forall|q: int| 0 <= q < k ==> stepped_to(cell_of, step, before, ids@[q], (#[trigger] updates@[q]).1),
            decreases ids@.len() - k,
        {
            let id = ids[k];
            let (c1, p1) = id;
            assert(ids@[k as int].0 < CLASS_COUNT);
            let pos = *self.particle_positions.get(c1, p1);
            let prev = *self.particle_prev_positions.get(c1, p1);
            let cell = cell_of(&pos);
            let nids = self.get_neighboring_particles(cell);
            let mut ns: Vec<(P, i16)> = Vec::with_capacity(nids.len());
            let mut kept: Vec<ParticleId> = Vec::with_capacity(nids.len());
            let mut j: usize = 0;
            while j < nids.len()
                invariant
                    *self == before,
                    self.wf(),
                    c1 < CLASS_COUNT,
                    j <= nids@.len(),
                    forall|x: ParticleId| #[trigger] nids@.contains(x) <==> near(self.cell_map@, cell, self.enabled_classes, x),
                    ns@.len() == kept@.len(),
                    forall|x: ParticleId| #[trigger] kept@.contains(x) <==> (x.1 < MAX_PARTICLE_COUNT && exists|w: int| 0 <= w < j && #[trigger] nids@[w] == x),
                    forall|t: int| 0 <= t < kept@.len() ==> (#[trigger] kept@[t]).0 < CLASS_COUNT && kept@[t].1 < MAX_PARTICLE_COUNT,
                    forall|t: int|
                        0 <= t < ns@.len() ==> #[trigger] ns@[t] == (
                            slot(self.particle_positions@, kept@[t]),
                            power_on(self.power_matrix@, kept@[t].0, c1),
                        ),
                decreases nids@.len() - j,
            {
                let (c2, p2) = nids[j];
                let ghost kept0 = kept@;
                assert(nids@.contains(nids@[j as int]));
                if p2 < MAX_PARTICLE_COUNT {
                    let other = *self.particle_positions.get(c2, p2);
                    let power: i16 = -(*self.power_matrix.get(c2, c1) as i16);
                    ns.push((other, power));
                    kept.push((c2, p2));
                    proof {
                        crate::neighbors::lemma_push_contains(kept0, (c2, p2));
                    }
                }
                proof {
                    assert forall|x: ParticleId| #[trigger] kept@.contains(x) <==> (x.1 < MAX_PARTICLE_COUNT && exists|w: int|
                        0 <= w < j + 1 && #[trigger] nids@[w] == x) by {
                        if x == nids@[j as int] && x.1 < MAX_PARTICLE_COUNT {
                            assert(kept@.contains(x));
                        }
                        if exists|w: int| 0 <= w < j + 1 && #[trigger] nids@[w] == x {
                            let w = choose|w: int| 0 <= w < j + 1 && #[trigger] nids@[w] == x;
                            if w < j {
                                assert(exists|w2: int| 0 <= w2 < j && #[trigger] nids@[w2] == x);
                            }
                        }
                    }
                }
                j += 1;
            }
            let new_pos = step(pos, prev, &ns);
            proof {
                assert(slot(before.particle_positions@, id) == pos);
                assert(slot(before.particle_prev_positions@, id) == prev);
                assert forall|x: ParticleId| kept@.contains(x) <==> (near(before.cell_map@, cell, before.enabled_classes, x)
                    && x.1 < MAX_PARTICLE_COUNT) by {
                    if near(before.cell_map@, cell, before.enabled_classes, x) && x.1 < MAX_PARTICLE_COUNT {
                        assert(nids@.contains(x));
                        let w = choose|w: int| 0 <= w < nids@.len() && nids@[w] == x;
                        assert(nids@[w] == x);
                    }
                    if kept@.contains(x) {
                        let w = choose|w: int| 0 <= w < nids@.len() && #[trigger] nids@[w] == x;
                        assert(nids@.contains(x));
                    }
                }
                assert(sees(before, id, cell, ns@));
                assert(moved_by(cell_of, step, before, id, cell, ns, new_pos));
                assert(stepped_to(cell_of, step, before, id, new_pos));
            }
            let ghost updates0 = updates@;
            updates.push((id, new_pos));
            proof {
                assert forall|q: int| 0 <= q < k + 1 implies stepped_to(cell_of, step, before, ids@[q], (#[trigger] updates@[q]).1) by {
                    if q < k {
                        assert(updates@[q] == updates0[q]);
                    }
                }
            }
            k += 1;
        }
        proof {
            assert forall|k1: int, k2: int| 0 <= k1 < k2 < updates@.len() implies (#[trigger] updates@[k1]).0 != (#[trigger] updates@[k2]).0 by {
                assert(ids@[k1] != ids@[k2]);
            }
        }
        self.commit_positions(&updates);
        let ghost committed = *self;
        self.organize_particles(cell_of);
        proof {
            let ids_s = all_active_ids(before.particle_counts, before.enabled_classes);
            assert forall|id: ParticleId| ids_s.contains(id) implies {
                &&& stepped_to(cell_of, step, before, id, #[trigger] slot(self.particle_positions@, id))
                &&& slot(self.particle_prev_positions@, id) == slot(before.particle_positions@, id)
            } by {
                let q = choose|q: int| 0 <= q < ids_s.len() && ids_s[q] == id;
                assert(updates@[q].0 == id);
                assert(slot(committed.particle_positions@, updates@[q].0) == updates@[q].1);
            }
            assert forall|id: ParticleId| id.0 < CLASS_COUNT && id.1 < MAX_PARTICLE_COUNT && !ids_s.contains(id) implies {
                &&& #[trigger] slot(self.particle_positions@, id) == slot(before.particle_positions@, id)
                &&& slot(self.particle_prev_positions@, id) == slot(before.particle_prev_positions@, id)
            } by {
                assert forall|q: int| 0 <= q < updates@.len() implies (#[trigger] updates@[q]).0 != id by {
                    assert(ids_s[q] == updates@[q].0);
                }
                assert(untouched(updates@, updates@.len() as int, id));
            }
        }
    }

    /// Lists every active particle of an enabled class under the cell that
    /// `cell_of` gives for its position; nothing else changes.
    pub fn organize_particles<F: Fn(&P) -> Cell>(&mut self, cell_of: F)
        requires
            old(self).wf(),
            forall|p: P| cell_of.requires((&p,)),
        ensures
            final(self).wf(),
            final(self).enabled_classes == old(self).enabled_classes,
            final(self).particle_counts == old(self).particle_counts,
            final(self).power_matrix == old(self).power_matrix,
            final(self).particle_positions == old(self).particle_positions,
            final(self).particle_prev_positions == old(self).particle_prev_positions,
            exists|cells: Seq<Cell>|
                #[trigger] placed(cell_of, old(self).particle_positions@, all_active_ids(old(self).particle_counts, old(self).enabled_classes), cells)
                    && final(self).cell_map@ == index_of(all_active_ids(old(self).particle_counts, old(self).enabled_classes).zip_with(cells)),
    {
        let ghost counts = self.particle_counts;
        let ghost enabled = self.enabled_classes;
        let mut entries: Vec<(ParticleId, Cell)> = Vec::new();
        let mut c: usize = 0;
        while c < CLASS_COUNT
            invariant
                c <= CLASS_COUNT,
                self.wf(),
                counts == self.particle_counts,
                enabled == self.enabled_classes,
                forall|p: P| cell_of.requires((&p,)),
                entries@.len() == active_ids(counts, enabled, c as int).len(),
                forall|k: int| 0 <= k < entries@.len() ==> (#[trigger] entries@[k]).0 == active_ids(counts, enabled, c as int)[k],
                forall|k: int|
                    0 <= k < entries@.len() ==> cell_of.ensures(
                        (&slot(self.particle_positions@, (#[trigger] entries@[k]).0),),
                        entries@[k].1,
                    ),
            decreases CLASS_COUNT - c,
        {
            let ghost start = entries@.len();
            if self.enabled_classes[c] {
                let n = self.particle_counts[c];
                assert(n <= MAX_PARTICLE_COUNT);
                let mut p: usize = 0;
                while p < n
                    invariant
                        c < CLASS_COUNT,
                        p <= n,
                        n == counts[c as int],
                        n <= MAX_PARTICLE_COUNT,
                        self.wf(),
                        forall|q: P| cell_of.requires((&q,)),
                        entries@.len() == start + p,
                        start == active_ids(counts, enabled, c as int).len(),
                        forall|k: int| 0 <= k < start ==> (#[trigger] entries@[k]).0 == active_ids(counts, enabled, c as int)[k],
                        forall|k: int| start <= k < entries@.len() ==> (#[trigger] entries@[k]).0 == (c, (k - start) as usize),
                        forall|k: int|
                            0 <= k < entries@.len() ==> cell_of.ensures(
                                (&slot(self.particle_positions@, (#[trigger] entries@[k]).0),),
                                entries@[k].1,
                            ),
                    decreases n - p,
                {
                    let pos = self.particle_positions.get(c, p);
                    let cell = cell_of(pos);
                    entries.push(((c, p), cell));
                    p += 1;
                }
            }
            proof {
                let next = active_ids(counts, enabled, c + 1);
                assert(next == active_ids(counts, enabled, c as int) + if enabled[c as int] {
                    Seq::new(counts[c as int] as nat, |p: int| (c, p as usize))
                } else {
                    Seq::empty()
                });
                assert forall|k: int| 0 <= k < entries@.len() implies (#[trigger] entries@[k]).0 == next[k] by {
                    if k >= start {
                        assert(next[k] == (c, (k - start) as usize));
                    }
                }
            }
            c += 1;
        }
        let ghost ids = all_active_ids(counts, enabled);
        let ghost cells = entries@.map_values(|e: (ParticleId, Cell)| e.1);
        proof {
            assert(ids.zip_with(cells) =~= entries@);
        }
        self.cell_map.rebuild(&entries);
        proof {
            assert forall|k: int| 0 <= k < ids.len() implies cell_of.ensures(
                (&slot(self.particle_positions@, ids[k]),),
                #[trigger] cells[k],
            ) by {
                assert(entries@[k].0 == ids[k]);
            }
            assert(placed(cell_of, self.particle_positions@, ids, cells));
        }
    }

    /// The particles of enabled classes listed under the cells of the block
    /// around `cell`.
    pub fn get_neighboring_particles(&self, cell: Cell) -> (r: Vec<ParticleId>)
        ensures
            forall|id: ParticleId| #[trigger] r@.contains(id) <==> near(self.cell_map@, cell, self.enabled_classes, id),
    {
        self.cell_map.neighbors_of(cell, &self.enabled_classes)
    }

    /// Commits the positions computed for one tick: each particle of
    /// `updates` moves to its new position and its old position becomes its
    /// previous one; every other slot keeps both.
    pub fn commit_positions(&mut self, updates: &Vec<(ParticleId, P)>)
        requires
            old(self).wf(),
            forall|k: int|
                0 <= k < updates@.len() ==> (#[trigger] updates@[k]).0.0 < CLASS_COUNT && updates@[k].0.1
                    < MAX_PARTICLE_COUNT,
            forall|k1: int, k2: int|
                0 <= k1 < k2 < updates@.len() ==> (#[trigger] updates@[k1]).0 != (#[trigger] updates@[k2]).0,
        ensures
            final(self).wf(),
            final(self).enabled_classes == old(self).enabled_classes,
            final(self).particle_counts == old(self).particle_counts,
            final(self).power_matrix == old(self).power_matrix,
            final(self).cell_map == old(self).cell_map,
            forall|k: int|
                0 <= k < updates@.len() ==> {
                    &&& slot(final(self).particle_positions@, (#[trigger] updates@[k]).0) == updates@[k].1
                    &&& slot(final(self).particle_prev_positions@, updates@[k].0) == slot(
                        old(self).particle_positions@,
                        updates@[k].0,
                    )
                },
            forall|id: ParticleId|
                id.0 < CLASS_COUNT && id.1 < MAX_PARTICLE_COUNT && untouched(updates@, updates@.len() as int, id) ==> {
                    &&& #[trigger] slot(final(self).particle_positions@, id) == slot(old(self).particle_positions@, id)
                    &&& slot(final(self).particle_prev_positions@, id) == slot(old(self).particle_prev_positions@, id)
                },
    {
        let ghost old_pos = self.particle_positions@;
        let ghost old_prev = self.particle_prev_positions@;
        let mut k: usize = 0;
        while k < updates.len()
            invariant
                k <= updates@.len(),
                self.wf(),
                self.enabled_classes == old(self).enabled_classes,
                self.particle_counts == old(self).particle_counts,
                self.power_matrix == old(self).power_matrix,
                self.cell_map == old(self).cell_map,
                self.particle_positions@.rows == old_pos.rows,
                self.particle_positions@.cols == old_pos.cols,
                forall|q: int|
                    0 <= q < updates@.len() ==> (#[trigger] updates@[q]).0.0 < CLASS_COUNT && updates@[q].0.1
                        < MAX_PARTICLE_COUNT,
                forall|k1: int, k2: int|
                    0 <= k1 < k2 < updates@.len() ==> (#[trigger] updates@[k1]).0 != (#[trigger] updates@[k2]).0,
                forall|q: int|
                    0 <= q < k ==> {
                        &&& slot(self.particle_positions@, (#[trigger] updates@[q]).0) == updates@[q].1
                        &&& slot(self.particle_prev_positions@, updates@[q].0) == slot(old_pos, updates@[q].0)
                    },
                forall|id: ParticleId|
                    id.0 < CLASS_COUNT && id.1 < MAX_PARTICLE_COUNT && untouched(updates@, k as int, id) ==> {
                        &&& #[trigger] slot(self.particle_positions@, id) == slot(old_pos, id)
                        &&& slot(self.particle_prev_positions@, id) == slot(old_prev, id)
                    },
            decreases updates@.len() - k,
        {
            let (id, new_pos) = updates[k];
            let (c, p) = id;
            let pos = *self.particle_positions.get(c, p);
            let ghost pos_before = self.particle_positions@;
            let ghost prev_before = self.particle_prev_positions@;
            proof {
                assert(slot(pos_before, id) == slot(old_pos, id)) by {
                    assert forall|q: int| 0 <= q < k implies (#[trigger] updates@[q]).0 != id by {
                        assert(updates@[q].0 != updates@[k as int].0);
                    }
                    assert(untouched(updates@, k as int, id));
                }
            }
            self.particle_prev_positions.set(c, p, pos);
            self.particle_positions.set(c, p, new_pos);
            proof {
                assert forall|q: int| 0 <= q < k + 1 implies {
                    &&& slot(self.particle_positions@, (#[trigger] updates@[q]).0) == updates@[q].1
                    &&& slot(self.particle_prev_positions@, updates@[q].0) == slot(old_pos, updates@[q].0)
                } by {
                    if q < k {
                        lemma_distinct_slots(updates@[q].0, id);
                    }
                }
                assert forall|o: ParticleId|
                    o.0 < CLASS_COUNT && o.1 < MAX_PARTICLE_COUNT && untouched(updates@, k + 1, o) implies {
                        &&& #[trigger] slot(self.particle_positions@, o) == slot(old_pos, o)
                        &&& slot(self.particle_prev_positions@, o) == slot(old_prev, o)
                    } by {
                    assert(updates@[k as int].0 != o);
                    assert(untouched(updates@, k as int, o));
                    assert(slot(pos_before, o) == slot(old_pos, o));
                    assert(slot(prev_before, o) == slot(old_prev, o));
                    lemma_distinct_slots(o, id);
                }
            }
            k += 1;
            proof {
                assert forall|o: ParticleId|
                    o.0 < CLASS_COUNT && o.1 < MAX_PARTICLE_COUNT && untouched(updates@, k as int, o) implies {
                        &&& #[trigger] slot(self.particle_positions@, o) == slot(old_pos, o)
                        &&& slot(self.particle_prev_positions@, o) == slot(old_prev, o)
                    } by {
                }
            }
        }
    }

    /// Puts every active slot at `origin`, with no velocity.
    pub fn reset_particles_positions(&mut self, origin: P)
        requires
            old(self).wf(),
        ensures
            final(self).wf(),
            final(self).enabled_classes == old(self).enabled_classes,
            final(self).particle_counts == old(self).particle_counts,
            final(self).power_matrix == old(self).power_matrix,
            final(self).cell_map == old(self).cell_map,
            forall|id: ParticleId|
                id.0 < CLASS_COUNT && id.1 < MAX_PARTICLE_COUNT ==> #[trigger] slot(final(self).particle_positions@, id)
                    == (if id.1 < old(self).particle_counts[id.0 as int] {
                    origin
                } else {
                    slot(old(self).particle_positions@, id)
                }),
            forall|id: ParticleId|
                id.0 < CLASS_COUNT && id.1 < MAX_PARTICLE_COUNT ==> #[trigger] slot(final(self).particle_prev_positions@, id)
                    == (if id.1 < old(self).particle_counts[id.0 as int] {
                    origin
                } else {
                    slot(old(self).particle_prev_positions@, id)
                }),
    {
        let ghost old_pos = self.particle_positions@;
        let ghost old_prev = self.particle_prev_positions@;
        let ghost counts = self.particle_counts;
        let mut c: usize = 0;
        while c < CLASS_COUNT
            invariant
                c <= CLASS_COUNT,
                self.wf(),
                counts == old(self).particle_counts,
                self.particle_counts == counts,
                self.enabled_classes == old(self).enabled_classes,
                self.power_matrix == old(self).power_matrix,
                self.cell_map == old(self).cell_map,
                forall|id: ParticleId|
                    id.0 < CLASS_COUNT && id.1 < MAX_PARTICLE_COUNT ==> #[trigger] slot(self.particle_positions@, id) == (if reset_done(id, counts, c as int, 0) { origin } else { slot(old_pos, id) }),
                forall|id: ParticleId|
                    id.0 < CLASS_COUNT && id.1 < MAX_PARTICLE_COUNT ==> #[trigger] slot(self.particle_prev_positions@, id) == (if reset_done(id, counts, c as int, 0) { origin } else { slot(old_prev, id) }),
            decreases CLASS_COUNT - c,
        {
            let n = self.particle_counts[c];
            assert(n <= MAX_PARTICLE_COUNT);
            let mut p: usize = 0;
            while p < n
                invariant
                    c < CLASS_COUNT,
                    p <= n,
                    n == counts[c as int],
                    n <= MAX_PARTICLE_COUNT,
                    self.wf(),
                    self.particle_counts == counts,
                    self.enabled_classes == old(self).enabled_classes,
                    self.power_matrix == old(self).power_matrix,
                    self.cell_map == old(self).cell_map,
                    forall|id: ParticleId|
                        id.0 < CLASS_COUNT && id.1 < MAX_PARTICLE_COUNT ==> #[trigger] slot(self.particle_positions@, id) == (if reset_done(id, counts, c as int, p as int) { origin } else { slot(old_pos, id) }),
                forall|id: ParticleId|
                        id.0 < CLASS_COUNT && id.1 < MAX_PARTICLE_COUNT ==> #[trigger] slot(self.particle_prev_positions@, id) == (if reset_done(id, counts, c as int, p as int) { origin } else { slot(old_prev, id) }),
                decreases n - p,
            {
                let ghost pos_before = self.particle_positions@;
                let ghost prev_before = self.particle_prev_positions@;
                self.particle_positions.set(c, p, origin);
                self.particle_prev_positions.set(c, p, origin);
                proof {
                    assert forall|o: ParticleId| o.0 < CLASS_COUNT && o.1 < MAX_PARTICLE_COUNT implies #[trigger] slot(self.particle_positions@, o) == (if reset_done(o, counts, c as int, p + 1) { origin } else { slot(old_pos, o) }) by {
                        assert(slot(pos_before, o) == if reset_done(o, counts, c as int, p as int) { origin } else { slot(old_pos, o) });
                        if o.0 != c || o.1 != p {
                            lemma_distinct_slots(o, (c, p));
                        }
                    }
                    assert forall|o: ParticleId| o.0 < CLASS_COUNT && o.1 < MAX_PARTICLE_COUNT implies #[trigger] slot(self.particle_prev_positions@, o) == (if reset_done(o, counts, c as int, p + 1) { origin } else { slot(old_prev, o) }) by {
                        assert(slot(prev_before, o) == if reset_done(o, counts, c as int, p as int) { origin } else { slot(old_prev, o) });
                        if o.0 != c || o.1 != p {
                            lemma_distinct_slots(o, (c, p));
                        }
                    }
                }
                p += 1;
            }
            proof {
                assert forall|id: ParticleId| #[trigger] reset_done(id, counts, c as int, n as int) == reset_done(id, counts, c + 1, 0) by {}
            }
            c += 1;
        }
        proof {
            assert forall|id: ParticleId| id.0 < CLASS_COUNT && id.1 < MAX_PARTICLE_COUNT implies
                #[trigger] reset_done(id, counts, CLASS_COUNT as int, 0) == (id.1 < counts[id.0 as int]) by {}
            assert forall|id: ParticleId| id.0 < CLASS_COUNT && id.1 < MAX_PARTICLE_COUNT implies
                #[trigger] slot(self.particle_positions@, id) == if id.1 < counts[id.0 as int] { origin } else { slot(old_pos, id) } by {
                assert(reset_done(id, counts, CLASS_COUNT as int, 0) == (id.1 < counts[id.0 as int]));
            }
            assert forall|id: ParticleId| id.0 < CLASS_COUNT && id.1 < MAX_PARTICLE_COUNT implies
                #[trigger] slot(self.particle_prev_positions@, id) == if id.1 < counts[id.0 as int] { origin } else { slot(old_prev, id) } by {
                assert(reset_done(id, counts, CLASS_COUNT as int, 0) == (id.1 < counts[id.0 as int]));
                assert(slot(self.particle_positions@, id) == slot(self.particle_positions@, id));
            }
        }
    }
}

} // verus!
