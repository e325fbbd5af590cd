use vstd::prelude::*;

use crate::net::Network;

verus! {

/// Where the bit pattern of an `f32` stands in IEEE 754 total order, as
/// `f32::total_cmp` compares: non-negative patterns by their value, and
/// patterns with the sign bit set below them, in reverse.
pub open spec fn score_key(bits: u32) -> int {
    if bits < 0x8000_0000 {
        bits as int
    } else {
        -1 - (bits - 0x8000_0000)
    }
}

/// `a` comes before `b` in a ranking: a higher score, or an equal score and
/// a smaller index.
pub open spec fn ranks_before(a: (usize, u32), b: (usize, u32)) -> bool {
    score_key(a.1) > score_key(b.1) || (score_key(a.1) == score_key(b.1) && a.0 < b.0)
}

/// `r` pairs each index of `scores` with its score, best first, equal
/// scores in index order.
pub open spec fn is_ranking(scores: Seq<u32>, r: Seq<(usize, u32)>) -> bool {
    &&& r.len() == scores.len()
    &&& forall|k: int| 0 <= k < r.len() ==> (#[trigger] r[k]).0 < scores.len() && r[k].1 == scores[r[k].0 as int]
    &&& forall|k1: int, k2: int| 0 <= k1 < k2 < r.len() ==> ranks_before(#[trigger] r[k1], #[trigger] r[k2])
}

/// A ranking names every network exactly once: each index of `scores`
/// stands at exactly one position.
pub proof fn lemma_ranking_is_permutation(scores: Seq<u32>, r: Seq<(usize, u32)>, i: int)
    requires
        is_ranking(scores, r),
        0 <= i < scores.len(),
    ensures
        exists|k: int| 0 <= k < r.len() && (#[trigger] r[k]).0 == i,
        forall|k1: int, k2: int| 0 <= k1 < r.len() && 0 <= k2 < r.len() && k1 != k2 ==> (#[trigger] r[k1]).0 != (#[trigger] r[k2]).0,
{
    let n = r.len() as int;
    let idx = r.map_values(|e: (usize, u32)| e.0 as int);
    assert forall|k1: int, k2: int| 0 <= k1 < n && 0 <= k2 < n && k1 != k2 implies (#[trigger] r[k1]).0 != (#[trigger] r[k2]).0 by {
        if k1 < k2 {
            assert(ranks_before(r[k1], r[k2]));
        } else {
            assert(ranks_before(r[k2], r[k1]));
        }
    }
    assert(idx.no_duplicates()) by {
        assert forall|k1: int, k2: int| 0 <= k1 < idx.len() && 0 <= k2 < idx.len() && k1 != k2 implies idx[k1] != idx[k2] by {
            assert(r[k1].0 != r[k2].0);
        }
    }
    idx.unique_seq_to_set();
    vstd::set_lib::lemma_int_range(0, n);
    assert(idx.to_set().subset_of(vstd::set_lib::set_int_range(0, n))) by {
        assert forall|x: int| idx.to_set().contains(x) implies vstd::set_lib::set_int_range(0, n).contains(x) by {
            let k = choose|k: int| 0 <= k < idx.len() && idx[k] == x;
            assert(r[k].0 < scores.len());
        }
    }
    vstd::seq_lib::seq_to_set_is_finite(idx);
    vstd::set_lib::lemma_subset_equality(idx.to_set(), vstd::set_lib::set_int_range(0, n));
    assert(vstd::set_lib::set_int_range(0, n).contains(i));
    assert(idx.to_set().contains(i));
    let k = choose|k: int| 0 <= k < idx.len() && idx[k] == i;
    assert(r[k].0 == i);
}

/// The key of `bits` in IEEE 754 total order.
pub fn total_order_key(bits: u32) -> (k: i64)
    ensures
        k == score_key(bits),
{
    if bits < 0x8000_0000 {
        bits as i64
    } else {
        -1 - ((bits - 0x8000_0000) as i64)
    }
}

/// How a ranking position weighs when parents are drawn.
#[derive(Debug, Clone, Copy, PartialEq, Eq, Structural)]
pub enum SelectionTier {
    /// Top half: weight grows with the score.
    Scored,
    /// Third quarter: half the weight of the last scored position.
    HalfOfLastScored,
    /// Last quarter: never drawn.
    Excluded,
}

/// The tier of ranking position `position` among `len`.
pub open spec fn tier_of(position: int, len: int) -> SelectionTier {
    if position < len / 2 {
        SelectionTier::Scored
    } else if position < 3 * len / 4 {
        SelectionTier::HalfOfLastScored
    } else {
        SelectionTier::Excluded
    }
}

/// The tier of ranking position `position` in a ranking of `len` networks.
pub fn selection_tier(position: usize, len: usize) -> (t: SelectionTier)
    requires
        3 * len <= usize::MAX,
    ensures
        t == tier_of(position as int, len as int),
{
    if position < len / 2 {
        SelectionTier::Scored
    } else if position < 3 * len / 4 {
        SelectionTier::HalfOfLastScored
    } else {
        SelectionTier::Excluded
    }
}

/// Two parents drawn for one child, and how hard the child is mutated.
#[derive(Debug, Clone, Copy, PartialEq, Eq, Structural)]
pub struct Pairing {
    /// Index of the first parent in the population.
    pub first: usize,
    /// Index of the second parent in the population.
    pub second: usize,
    /// Ranking position of the first parent.
    pub first_position: usize,
    /// Ranking position of the second parent.
    pub second_position: usize,
    /// Numerator of the share of the mutation rate for the final pass.
    pub pressure_num: usize,
    /// Denominator of that share.
    pub pressure_den: usize,
}

/// The pairing for the draw of ranking positions `draw` in a population
/// of `len`: the final mutation uses `(i1 + i2 + len) / (3 * len)` of the
/// rate, less for better ranked parents.
pub open spec fn pairing_of(ranking: Seq<(usize, u32)>, draw: (usize, usize), len: nat) -> Pairing {
    Pairing {
        first: ranking[draw.0 as int].0,
        second: ranking[draw.1 as int].0,
        first_position: draw.0,
        second_position: draw.1,
        pressure_num: (draw.0 + draw.1 + len) as usize,
        pressure_den: (3 * len) as usize,
    }
}

/// `child` may come out of `parents` under `p`: a crossover of the two
/// parents where the drawn positions differ, else the first parent mutated
/// at half the rate; then one more mutation at the pairing's share.
pub open spec fn bred<T, C, M>(
    cross: C,
    mutate: M,
    first: Network<T>,
    second: Network<T>,
    p: Pairing,
    child: Network<T>,
) -> bool where C: Fn(&Network<T>, &Network<T>, usize, usize) -> Network<T>, M: Fn(&Network<T>, usize, usize) -> Network<T> {
    exists|mid: Network<T>|
        {
            &&& if p.first_position != p.second_position {
                cross.ensures((&first, &second, p.first_position, p.second_position), mid)
            } else {
                mutate.ensures((&first, 1usize, 2usize), mid)
            }
            &&& #[trigger] mutate.ensures((&mid, p.pressure_num, p.pressure_den), child)
        }
}

/// A population of networks and the number of generations it has gone
/// through.
pub struct Batch<T> {
    pub networks: Vec<Network<T>>,
    pub generation: usize,
}

impl<T: Copy> Batch<T> {
    /// A first generation made of `networks`.
    pub fn new(networks: Vec<Network<T>>) -> (r: Self)
        ensures
            r.networks@ == networks@,
            r.generation == 0,
    {
        Batch { networks, generation: 0 }
    }

    /// Ranks the networks by their scores, given as `f32` bit patterns:
    /// best first, equal scores in index order.
    pub fn rank(&self, scores: &Vec<u32>) -> (r: Vec<(usize, u32)>)
        ensures
            is_ranking(scores@, r@),
    {
        let mut r: Vec<(usize, u32)> = Vec::with_capacity(scores.len());
        let mut i: usize = 0;
        while i < scores.len()
            invariant
                i <= scores@.len(),
                r@.len() == i,
                forall|k: int| 0 <= k < r@.len() ==> (#[trigger] r@[k]).0 < i && r@[k].1 == scores@[r@[k].0 as int],
                forall|k1: int, k2: int| 0 <= k1 < k2 < r@.len() ==> ranks_before(#[trigger] r@[k1], #[trigger] r@[k2]),
            decreases scores@.len() - i,
        {
            let e: (usize, u32) = (i, scores[i]);
            let key = total_order_key(scores[i]);
            let mut p: usize = 0;
            while p < r.len() && total_order_key(r[p].1) >= key
                invariant
                    p <= r@.len(),
                    forall|q: int| 0 <= q < p ==> score_key(#[trigger] r@[q].1) >= key,
                decreases r@.len() - p,
            {
                p += 1;
            }
            let ghost before = r@;
            proof {
                assert forall|q: int| p <= q < before.len() implies score_key(#[trigger] before[q].1) < key by {
                    if q > p {
                        assert(ranks_before(before[p as int], before[q]));
                    }
                }
            }
            r.insert(p, e);
            proof {
                assert forall|k: int| 0 <= k < r@.len() implies (#[trigger] r@[k]).0 < i + 1 && r@[k].1
                    == scores@[r@[k].0 as int] by {
                    if k < p {
                        assert(r@[k] == before[k]);
                    } else if k > p {
                        assert(r@[k] == before[k - 1]);
                    }
                }
                assert forall|k1: int, k2: int| 0 <= k1 < k2 < r@.len() implies ranks_before(
                    #[trigger] r@[k1],
                    #[trigger] r@[k2],
                ) by {
                    if k1 < p {
                        assert(r@[k1] == before[k1]);
                        if k2 < p {
                            assert(r@[k2] == before[k2]);
                        } else if k2 > p {
                            assert(r@[k2] == before[k2 - 1]);
                        }
                    } else if k1 == p {
                        assert(r@[k2] == before[k2 - 1]);
                    } else {
                        assert(r@[k1] == before[k1 - 1]);
                        assert(r@[k2] == before[k2 - 1]);
                    }
                }
            }
            i += 1;
        }
        r
    }

    /// Replaces the population by a new generation of the same size. Child
    /// `k` is bred from the networks at ranking positions `draws[k]`: a
    /// crossover of the two where the positions differ, else a mutation of
    /// the one at half the rate, then in every case one more mutation at a
    /// share of the rate that grows with the positions. `cross` and `mutate`
    /// do the arithmetic on the scalars; `mutate` takes the share of the
    /// rate as a fraction.
    pub fn evolve<C, M>(&mut self, ranking: &Vec<(usize, u32)>, draws: &Vec<(usize, usize)>, cross: C, mutate: M)
        where
            C: Fn(&Network<T>, &Network<T>, usize, usize) -> Network<T>,
            M: Fn(&Network<T>, usize, usize) -> Network<T>,
        requires
            ranking@.len() == old(self).networks@.len(),
            forall|k: int| 0 <= k < ranking@.len() ==> (#[trigger] ranking@[k]).0 < old(self).networks@.len(),
            draws@.len() == old(self).networks@.len(),
            forall|k: int| 0 <= k < draws@.len() ==> (#[trigger] draws@[k]).0 < ranking@.len() && draws@[k].1 < ranking@.len(),
            3 * old(self).networks@.len() <= usize::MAX,
            old(self).generation < usize::MAX,
            forall|a: Network<T>, b: Network<T>, i: usize, j: usize| cross.requires((&a, &b, i, j)),
            forall|a: Network<T>, n: usize, d: usize| mutate.requires((&a, n, d)),
        ensures
            final(self).networks@.len() == old(self).networks@.len(),
            final(self).generation == old(self).generation + 1,
            forall|k: int| 0 <= k < draws@.len() ==> {
                let p = pairing_of(ranking@, #[trigger] draws@[k], old(self).networks@.len());
                bred(cross, mutate, old(self).networks@[p.first as int], old(self).networks@[p.second as int], p, final(self).networks@[k])
            },
    {
        let l = self.networks.len();
        let ghost len = l as nat;
        let mut children: Vec<Network<T>> = Vec::with_capacity(l);
        while children.len() < l
            invariant
                l == self.networks@.len(),
                len == l,
                ranking@.len() == l,
                children@.len() <= l,
                draws@.len() == l,
                3 * l <= usize::MAX,
                forall|k: int| 0 <= k < ranking@.len() ==> (#[trigger] ranking@[k]).0 < l,
                forall|k: int| 0 <= k < draws@.len() ==> (#[trigger] draws@[k]).0 < ranking@.len() && draws@[k].1 < ranking@.len(),
                forall|a: Network<T>, b: Network<T>, i: usize, j: usize| cross.requires((&a, &b, i, j)),
                forall|a: Network<T>, n: usize, d: usize| mutate.requires((&a, n, d)),
                forall|k: int| 0 <= k < children@.len() ==> {
                    let p = pairing_of(ranking@, #[trigger] draws@[k], len);
                    bred(cross, mutate, self.networks@[p.first as int], self.networks@[p.second as int], p, children@[k])
                },
            decreases l - children@.len(),
        {
            let k = children.len();
            let (i1, i2) = draws[k];
            assert(draws@[k as int].0 < ranking@.len());
            let first = &self.networks[ranking[i1].0];
            let second = &self.networks[ranking[i2].0];
            let pairing = Pairing {
                first: ranking[i1].0,
                second: ranking[i2].0,
                first_position: i1,
                second_position: i2,
                pressure_num: i1 + i2 + l,
                pressure_den: 3 * l,
            };
            let mid = if i1 != i2 {
                cross(first, second, i1, i2)
            } else {
                mutate(first, 1, 2)
            };
            let child = mutate(&mid, pairing.pressure_num, pairing.pressure_den);
            proof {
                assert(pairing == pairing_of(ranking@, draws@[k as int], len));
                assert(bred(cross, mutate, *first, *second, pairing, child));
            }
            children.push(child);
        }
        self.networks = children;
        self.generation = self.generation + 1;
    }
}

} // verus!
