use vstd::prelude::*;

use crate::consts::{CLASS_COUNT, MAX_POWER};
use crate::mat::Mat2D;
use crate::simulation::{slot, Simulation};
use crate::neighbors::ParticleId;

verus! {

/// Number of networks in a population.
pub const BATCH_SIZE: usize = 50;

/// Inputs of a controller: the target angle and the power matrix.
pub const NETWORK_INPUT_SIZE: usize = 1 + CLASS_COUNT * CLASS_COUNT;

/// Outputs of a controller: one change per power matrix entry.
pub const NETWORK_OUTPUT_SIZE: usize = CLASS_COUNT * CLASS_COUNT;

/// Simulation ticks between two inferences of the controller.
pub const INFERENCE_TICK_INTERVAL: usize = 20;

/// Particles per class in an evaluation episode.
pub const EPISODE_PARTICLE_COUNT: usize = 8;

/// `v` clamped to the interaction coefficients' range.
pub open spec fn clamp_power(v: int) -> int {
    if v < -MAX_POWER {
        -MAX_POWER as int
    } else if v > MAX_POWER {
        MAX_POWER as int
    } else {
        v
    }
}

/// Adds `deltas[k]` to entry `k` of the power matrix, clamping the sum to
/// the coefficients' range.
pub fn apply_output(deltas: &Vec<i8>, power_matrix: &mut Mat2D<i8>)
    requires
        old(power_matrix)@.wf(),
        deltas@.len() == old(power_matrix)@.data.len(),
    ensures
        final(power_matrix)@.wf(),
        final(power_matrix)@.rows == old(power_matrix)@.rows,
        final(power_matrix)@.cols == old(power_matrix)@.cols,
        final(power_matrix)@.data.len() == old(power_matrix)@.data.len(),
        forall|k: int|
            0 <= k < deltas@.len() ==> #[trigger] final(power_matrix)@.data[k] == clamp_power(
                old(power_matrix)@.data[k] + deltas@[k],
            ),
{
    let ghost before = power_matrix@;
    let entries = power_matrix.vec_mut();
    let mut k: usize = 0;
    while k < deltas.len()
        invariant
            k <= deltas@.len(),
            entries@.len() == deltas@.len(),
            deltas@.len() == before.data.len(),
            forall|q: int| 0 <= q < k ==> #[trigger] entries@[q] == clamp_power(before.data[q] + deltas@[q]),
            forall|q: int| k <= q < entries@.len() ==> #[trigger] entries@[q] == before.data[q],
        decreases deltas@.len() - k,
    {
        let sum: i16 = entries[k] as i16 + deltas[k] as i16;
        let clamped: i8 = if sum < -(MAX_POWER as i16) {
            -MAX_POWER
        } else if sum > MAX_POWER as i16 {
            MAX_POWER
        } else {
            sum as i8
        };
        entries.set(k, clamped);
        k += 1;
    }
}

/// Prepares a simulation for an evaluation episode: eight particles in
/// every class, every power coefficient zero, and every active slot at
/// `origin`.
pub fn setup_simulation_for_networks<P: Copy>(sim: &mut Simulation<P>, origin: P)
    requires
        old(sim).wf(),
    ensures
        final(sim).wf(),
        final(sim).enabled_classes == old(sim).enabled_classes,
        forall|c: int| 0 <= c < CLASS_COUNT ==> #[trigger] final(sim).particle_counts[c] == EPISODE_PARTICLE_COUNT,
        final(sim).power_matrix@.rows == CLASS_COUNT,
        final(sim).power_matrix@.cols == CLASS_COUNT,
        forall|k: int| 0 <= k < final(sim).power_matrix@.data.len() ==> #[trigger] final(sim).power_matrix@.data[k] == 0,
        forall|id: ParticleId|
            id.0 < CLASS_COUNT && id.1 < EPISODE_PARTICLE_COUNT ==> #[trigger] slot(final(sim).particle_positions@, id) == origin
                && slot(final(sim).particle_prev_positions@, id) == origin,
{
    sim.particle_counts = [EPISODE_PARTICLE_COUNT; CLASS_COUNT];
    assert(sim.wf());
    let entries = sim.power_matrix.vec_mut();
    let n = entries.len();
    let mut k: usize = 0;
    while k < n
        invariant
            n == entries@.len(),
            k <= n,
            forall|q: int| 0 <= q < k ==> #[trigger] entries@[q] == 0i8,
        decreases n - k,
    {
        entries.set(k, 0);
        k += 1;
    }
    sim.reset_particles_positions(origin);
}

} // verus!
