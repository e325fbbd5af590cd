use smarticles::consts::{CLASS_COUNT, MAX_PARTICLE_COUNT};
use smarticles::mat::Mat2D;
use smarticles::neighbors::Cell;
use smarticles::simulation::Simulation;
use smarticles::simulation_manager::{apply_command, Command, CommandError, Reaction, SimulationState};
use smarticles::training::{apply_output, setup_simulation_for_networks, EPISODE_PARTICLE_COUNT};

type Point = (i32, i32);

fn cell_of(p: &Point) -> Cell {
    Cell(p.0.div_euclid(10), p.1.div_euclid(10))
}

#[test]
fn new_simulation_is_empty() {
    let sim: Simulation<Point> = Simulation::new((0, 0));

    assert_eq!(sim.particle_count(), 0);
    assert_eq!(sim.enabled_classes, [true; CLASS_COUNT]);
    assert_eq!(sim.power_matrix, Mat2D::filled_with(0i8, CLASS_COUNT, CLASS_COUNT));
    assert_eq!(sim.particle_positions.num_columns(), MAX_PARTICLE_COUNT);
}

#[test]
fn organize_particles_indexes_active_particles_of_enabled_classes() {
    let mut sim: Simulation<Point> = Simulation::new((0, 0));
    sim.particle_counts[0] = 2;
    sim.particle_counts[1] = 1;
    sim.particle_counts[2] = 1;
    sim.particle_positions.set(0, 0, (5, 5));
    sim.particle_positions.set(0, 1, (25, -5));
    sim.particle_positions.set(1, 0, (-15, 15));
    sim.particle_positions.set(2, 0, (0, 0));
    sim.particle_positions.set(0, 2, (1, 1));
    sim.enabled_classes[2] = false;

    sim.organize_particles(cell_of);

    let mut found = sim.get_neighboring_particles(Cell(0, 0));
    found.sort();
    assert_eq!(found, vec![(0, 0), (0, 1), (1, 0)]);
    assert_eq!(sim.get_neighboring_particles(Cell(5, 0)), vec![(0, 1)]);
    assert!(sim.get_neighboring_particles(Cell(-10, 0)).is_empty());
}

#[test]
fn commit_moves_particles_and_keeps_previous_positions() {
    let mut sim: Simulation<Point> = Simulation::new((0, 0));
    sim.particle_counts[0] = 2;
    sim.particle_positions.set(0, 0, (1, 1));
    sim.particle_positions.set(0, 1, (2, 2));

    sim.commit_positions(&vec![((0, 0), (3, 4))]);

    assert_eq!(*sim.particle_positions.get(0, 0), (3, 4));
    assert_eq!(*sim.particle_prev_positions.get(0, 0), (1, 1));
    assert_eq!(*sim.particle_positions.get(0, 1), (2, 2));
    assert_eq!(*sim.particle_prev_positions.get(0, 1), (0, 0));
}

#[test]
fn reset_puts_active_particles_at_origin() {
    let mut sim: Simulation<Point> = Simulation::new((0, 0));
    sim.particle_counts[3] = 1;
    sim.particle_positions.set(3, 0, (7, 7));
    sim.particle_positions.set(3, 1, (8, 8));

    sim.reset_particles_positions((-1, -1));

    assert_eq!(*sim.particle_positions.get(3, 0), (-1, -1));
    assert_eq!(*sim.particle_prev_positions.get(3, 0), (-1, -1));
    assert_eq!(*sim.particle_positions.get(3, 1), (8, 8));
}

#[test]
fn commands_change_state_and_settings() {
    let mut sim: Simulation<Point> = Simulation::new((0, 0));
    let mut state = SimulationState::Paused;

    assert_eq!(apply_command(&mut state, &mut sim, Command::SimulationStart), Ok(Reaction::Continue));
    assert_eq!(state, SimulationState::Running);
    assert_eq!(apply_command(&mut state, &mut sim, Command::SimulationPause), Ok(Reaction::Continue));
    assert_eq!(state, SimulationState::Paused);
    assert_eq!(apply_command(&mut state, &mut sim, Command::SpawnParticles), Ok(Reaction::Spawn));
    assert_eq!(apply_command(&mut state, &mut sim, Command::DisableClass(4)), Ok(Reaction::Continue));
    assert!(!sim.enabled_classes[4]);
    assert_eq!(apply_command(&mut state, &mut sim, Command::EnableClass(4)), Ok(Reaction::Spawn));
    assert!(sim.enabled_classes[4]);
    assert_eq!(
        apply_command(&mut state, &mut sim, Command::SetParticleCounts([3; CLASS_COUNT])),
        Ok(Reaction::Continue)
    );
    assert_eq!(sim.particle_count(), 3 * CLASS_COUNT);
    let m = Mat2D::filled_with(5i8, CLASS_COUNT, CLASS_COUNT);
    assert_eq!(apply_command(&mut state, &mut sim, Command::SetPowerMatrix(m.clone())), Ok(Reaction::Continue));
    assert_eq!(sim.power_matrix, m);
    assert_eq!(apply_command(&mut state, &mut sim, Command::Exit), Ok(Reaction::Exit));
}

#[test]
fn commands_that_break_invariants_are_refused() {
    let mut sim: Simulation<Point> = Simulation::new((0, 0));
    let mut state = SimulationState::Paused;

    let mut counts = [1; CLASS_COUNT];
    counts[2] = MAX_PARTICLE_COUNT + 1;
    assert_eq!(
        apply_command(&mut state, &mut sim, Command::SetParticleCounts(counts)),
        Err(CommandError::TooManyParticles)
    );
    assert_eq!(sim.particle_count(), 0);

    let m = Mat2D::filled_with(5i8, CLASS_COUNT, CLASS_COUNT + 1);
    assert_eq!(
        apply_command(&mut state, &mut sim, Command::SetPowerMatrix(m)),
        Err(CommandError::WrongMatrixShape)
    );
    assert_eq!(sim.power_matrix, Mat2D::filled_with(0i8, CLASS_COUNT, CLASS_COUNT));

    assert_eq!(
        apply_command(&mut state, &mut sim, Command::EnableClass(CLASS_COUNT)),
        Err(CommandError::NoSuchClass)
    );
    assert_eq!(
        apply_command(&mut state, &mut sim, Command::DisableClass(CLASS_COUNT)),
        Err(CommandError::NoSuchClass)
    );
    assert_eq!(sim.enabled_classes, [true; CLASS_COUNT]);
}

#[test]
fn counts_at_the_maximum_are_accepted() {
    let mut sim: Simulation<Point> = Simulation::new((0, 0));
    let mut state = SimulationState::Running;

    assert_eq!(
        apply_command(&mut state, &mut sim, Command::SetParticleCounts([MAX_PARTICLE_COUNT; CLASS_COUNT])),
        Ok(Reaction::Continue)
    );
    assert_eq!(sim.particle_count(), MAX_PARTICLE_COUNT * CLASS_COUNT);
}

#[test]
fn apply_output_clamps_to_the_power_range() {
    let mut m = Mat2D::from_rows(vec![90i8, -90, 0, 100], 2, 2);
    apply_output(&vec![20, -20, -7, 127], &mut m);

    assert_eq!(m.vec(), vec![100, -100, -7, 100]);
}

#[test]
fn setup_prepares_an_episode() {
    let mut sim: Simulation<Point> = Simulation::new((0, 0));
    sim.power_matrix.set(1, 2, 40);
    sim.particle_positions.set(5, 7, (9, 9));

    setup_simulation_for_networks(&mut sim, (0, 0));

    assert_eq!(sim.particle_counts, [EPISODE_PARTICLE_COUNT; CLASS_COUNT]);
    assert_eq!(sim.power_matrix, Mat2D::filled_with(0i8, CLASS_COUNT, CLASS_COUNT));
    assert_eq!(*sim.particle_positions.get(5, 7), (0, 0));
}

#[test]
fn active_particles_lists_enabled_classes_in_order() {
    let mut sim: Simulation<Point> = Simulation::new((0, 0));
    sim.particle_counts[0] = 2;
    sim.particle_counts[1] = 3;
    sim.particle_counts[4] = 1;
    sim.enabled_classes[1] = false;

    assert_eq!(sim.active_particles(), vec![(0, 0), (0, 1), (4, 0)]);
}

#[test]
fn tick_steps_every_particle_from_the_state_before_the_tick() {
    let mut sim: Simulation<Point> = Simulation::new((0, 0));
    sim.particle_counts[0] = 1;
    sim.particle_counts[1] = 1;
    sim.particle_counts[2] = 1;
    sim.particle_positions.set(0, 0, (0, 0));
    sim.particle_prev_positions.set(0, 0, (-1, 0));
    sim.particle_positions.set(1, 0, (5, 0));
    sim.particle_prev_positions.set(1, 0, (5, 0));
    sim.particle_positions.set(2, 0, (500, 500));
    sim.particle_prev_positions.set(2, 0, (500, 500));
    sim.power_matrix.set(1, 0, 3);
    sim.power_matrix.set(0, 1, -2);
    sim.organize_particles(cell_of);

    // An integer Verlet step: the sum of power times offset is the force.
    sim.move_particles(cell_of, |pos: Point, prev: Point, ns: &Vec<(Point, i16)>| {
        let (mut fx, mut fy) = (0, 0);
        for &((x, y), power) in ns {
            fx += power as i32 * (x - pos.0);
            fy += power as i32 * (y - pos.1);
        }
        (2 * pos.0 - prev.0 + fx, 2 * pos.1 - prev.1 + fy)
    });

    // Class 1 applies -3 to class 0: 2*0 - (-1) + (-3)*5.
    assert_eq!(*sim.particle_positions.get(0, 0), (-14, 0));
    assert_eq!(*sim.particle_prev_positions.get(0, 0), (0, 0));
    // Class 0 applies 2 to class 1: 2*5 - 5 + 2*(0 - 5).
    assert_eq!(*sim.particle_positions.get(1, 0), (-5, 0));
    assert_eq!(*sim.particle_prev_positions.get(1, 0), (5, 0));
    // Alone in its block: nothing moves it.
    assert_eq!(*sim.particle_positions.get(2, 0), (500, 500));
    // The index follows the new positions.
    let mut found = sim.get_neighboring_particles(Cell(-1, 0));
    found.sort();
    assert_eq!(found, vec![(0, 0), (1, 0)]);
}

#[test]
fn tick_with_floats_is_a_verlet_step() {
    type V = (f32, f32);
    let mut sim: Simulation<V> = Simulation::new((0., 0.));
    sim.particle_counts[0] = 2;
    sim.particle_positions.set(0, 0, (1.0, 2.0));
    sim.particle_prev_positions.set(0, 0, (0.5, 2.0));
    sim.particle_positions.set(0, 1, (4.0, 2.0));
    sim.particle_prev_positions.set(0, 1, (4.0, 2.0));
    sim.power_matrix.set(0, 0, -10);
    let cell = |p: &V| Cell((p.0 / 10.).floor() as i32, (p.1 / 10.).floor() as i32);
    sim.organize_particles(cell);

    let dt = 0.01f32;
    sim.move_particles(cell, |pos: V, prev: V, ns: &Vec<(V, i16)>| {
        let mut f = (0f32, 0f32);
        for &(o, power) in ns {
            f.0 += power as f32 * (o.0 - pos.0);
            f.1 += power as f32 * (o.1 - pos.1);
        }
        (2. * pos.0 - prev.0 + f.0 * dt * dt, 2. * pos.1 - prev.1 + f.1 * dt * dt)
    });

    let expected_x = 2. * 1.0 - 0.5 + 10. * (4.0 - 1.0) * dt * dt;
    let got = *sim.particle_positions.get(0, 0);
    assert!((got.0 - expected_x).abs() < 1e-6);
    assert!((got.1 - 2.0).abs() < 1e-6);
    let other = *sim.particle_positions.get(0, 1);
    assert!((other.0 - (4.0 + 10. * (1.0 - 4.0) * dt * dt)).abs() < 1e-6);
}
