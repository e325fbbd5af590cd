use vstd::prelude::*;

use crate::consts::{CLASS_COUNT, MAX_PARTICLE_COUNT};
use crate::mat::Mat2D;
use crate::simulation::Simulation;

verus! {

/// Whether the simulation advances on its own.
#[derive(Debug, Clone, Copy, PartialEq, Eq, Structural)]
pub enum SimulationState {
    Paused,
    Running,
}

/// A request to the simulation from outside.
pub enum Command {
    Exit,
    SpawnParticles,
    EnableClass(usize),
    DisableClass(usize),
    SimulationStart,
    SimulationPause,
    SetPowerMatrix(Mat2D<i8>),
    SetParticleCounts([usize; CLASS_COUNT]),
}

/// What the loop driving the simulation does after a command.
#[derive(Debug, Clone, Copy, PartialEq, Eq, Structural)]
pub enum Reaction {
    /// Nothing more.
    Continue,
    /// Place the active particles afresh and publish their positions.
    Spawn,
    /// Stop the loop.
    Exit,
}

/// A command that would break the simulation's invariants.
#[derive(Debug, Clone, Copy, PartialEq, Eq, Structural)]
pub enum CommandError {
    /// The power matrix is not `CLASS_COUNT` by `CLASS_COUNT`.
    WrongMatrixShape,
    /// A class would hold more particles than it has slots.
    TooManyParticles,
    /// The class does not exist.
    NoSuchClass,
}

/// Every class's count fits in its slots.
fn counts_fit(counts: &[usize; CLASS_COUNT]) -> (r: bool)
    ensures
        r == forall|c: int| 0 <= c < CLASS_COUNT ==> #[trigger] counts[c] <= MAX_PARTICLE_COUNT,
{
    let mut c: usize = 0;
    while c < CLASS_COUNT
        invariant
            c <= CLASS_COUNT,
            forall|q: int| 0 <= q < c ==> #[trigger] counts[q] <= MAX_PARTICLE_COUNT,
        decreases CLASS_COUNT - c,
    {
        if counts[c] > MAX_PARTICLE_COUNT {
            return false;
        }
        c += 1;
    }
    true
}

/// The simulation, apart from the fields a command may change, is as it
/// was.
pub open spec fn same_particles<P>(a: Simulation<P>, b: Simulation<P>) -> bool {
    &&& a.particle_positions == b.particle_positions
    &&& a.particle_prev_positions == b.particle_prev_positions
    &&& a.cell_map == b.cell_map
}

/// Applies `command` to the simulation and its running state. A command
/// that would break the simulation's invariants changes nothing and is
/// answered by an error.
pub fn apply_command<P: Copy>(state: &mut SimulationState, sim: &mut Simulation<P>, command: Command) -> (r: Result<
    Reaction,
    CommandError,
>)
    requires
        old(sim).wf(),
    ensures
        final(sim).wf(),
        same_particles(*final(sim), *old(sim)),
        match command {
            Command::Exit => r == Ok::<Reaction, CommandError>(Reaction::Exit) && *final(sim) == *old(sim) && *final(state) == *old(state),
            Command::SpawnParticles => r == Ok::<Reaction, CommandError>(Reaction::Spawn) && *final(sim) == *old(sim) && *final(state) == *old(state),
            Command::SimulationStart => r == Ok::<Reaction, CommandError>(Reaction::Continue) && *final(sim) == *old(sim) && *final(state) == SimulationState::Running,
            Command::SimulationPause => r == Ok::<Reaction, CommandError>(Reaction::Continue) && *final(sim) == *old(sim) && *final(state) == SimulationState::Paused,
            Command::EnableClass(c) => *final(state) == *old(state) && if c < CLASS_COUNT {
                &&& r == Ok::<Reaction, CommandError>(Reaction::Spawn)
                &&& final(sim).enabled_classes@ == old(sim).enabled_classes@.update(c as int, true)
                &&& final(sim).particle_counts == old(sim).particle_counts
                &&& final(sim).power_matrix == old(sim).power_matrix
            } else {
                r == Err::<Reaction, CommandError>(CommandError::NoSuchClass) && *final(sim) == *old(sim)
            },
            Command::DisableClass(c) => *final(state) == *old(state) && if c < CLASS_COUNT {
                &&& r == Ok::<Reaction, CommandError>(Reaction::Continue)
                &&& final(sim).enabled_classes@ == old(sim).enabled_classes@.update(c as int, false)
                &&& final(sim).particle_counts == old(sim).particle_counts
                &&& final(sim).power_matrix == old(sim).power_matrix
            } else {
                r == Err::<Reaction, CommandError>(CommandError::NoSuchClass) && *final(sim) == *old(sim)
            },
            Command::SetPowerMatrix(m) => *final(state) == *old(state) && if m@.wf() && m@.rows == CLASS_COUNT
                && m@.cols == CLASS_COUNT {
                &&& r == Ok::<Reaction, CommandError>(Reaction::Continue)
                &&& final(sim).power_matrix == m
                &&& final(sim).enabled_classes == old(sim).enabled_classes
                &&& final(sim).particle_counts == old(sim).particle_counts
            } else {
                r == Err::<Reaction, CommandError>(CommandError::WrongMatrixShape) && *final(sim) == *old(sim)
            },
            Command::SetParticleCounts(counts) => *final(state) == *old(state) && if forall|c: int|
                0 <= c < CLASS_COUNT ==> #[trigger] counts[c] <= MAX_PARTICLE_COUNT {
                &&& r == Ok::<Reaction, CommandError>(Reaction::Continue)
                &&& final(sim).particle_counts == counts
                &&& final(sim).enabled_classes == old(sim).enabled_classes
                &&& final(sim).power_matrix == old(sim).power_matrix
            } else {
                r == Err::<Reaction, CommandError>(CommandError::TooManyParticles) && *final(sim) == *old(sim)
            },
        },
{
    match command {
        Command::Exit => Ok(Reaction::Exit),
        Command::SpawnParticles => Ok(Reaction::Spawn),
        Command::SimulationStart => {
            *state = SimulationState::Running;
            Ok(Reaction::Continue)
        },
        Command::SimulationPause => {
            *state = SimulationState::Paused;
            Ok(Reaction::Continue)
        },
        Command::EnableClass(c) => {
            if c < CLASS_COUNT {
                sim.enabled_classes[c] = true;
                Ok(Reaction::Spawn)
            } else {
                Err(CommandError::NoSuchClass)
            }
        },
        Command::DisableClass(c) => {
            if c < CLASS_COUNT {
                sim.enabled_classes[c] = false;
                Ok(Reaction::Continue)
            } else {
                Err(CommandError::NoSuchClass)
            }
        },
        Command::SetPowerMatrix(m) => {
            let (cols, rows) = m.shape();
            if rows == CLASS_COUNT && cols == CLASS_COUNT && m.len() == CLASS_COUNT * CLASS_COUNT {
                sim.power_matrix = m;
                Ok(Reaction::Continue)
            } else {
                Err(CommandError::WrongMatrixShape)
            }
        },
        Command::SetParticleCounts(counts) => {
            if counts_fit(&counts) {
                sim.particle_counts = counts;
                Ok(Reaction::Continue)
            } else {
                Err(CommandError::TooManyParticles)
            }
        },
    }
}

} // verus!
