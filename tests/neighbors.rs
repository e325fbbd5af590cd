use smarticles::consts::CLASS_COUNT;
use smarticles::neighbors::{Cell, NeighborIndex};

#[test]
fn neighbors_block_is_seven_by_seven() {
    let cells = Cell(10, -4).get_neighbors();

    assert_eq!(cells.len(), 49);
    assert_eq!(cells[0], Cell(7, -7));
    assert_eq!(cells[1], Cell(7, -6));
    assert_eq!(cells[7], Cell(8, -7));
    assert_eq!(cells[24], Cell(10, -4));
    assert_eq!(cells[48], Cell(13, -1));
}

#[test]
fn rebuild_lists_particles_under_their_cells() {
    let mut index = NeighborIndex::new();
    index.rebuild(&vec![((0, 0), Cell(0, 0)), ((1, 3), Cell(2, 1)), ((0, 1), Cell(0, 0))]);

    let mut found = index.neighbors_of(Cell(0, 0), &[true; CLASS_COUNT]);
    found.sort();
    assert_eq!(found, vec![(0, 0), (0, 1), (1, 3)]);
}

#[test]
fn search_skips_cells_outside_the_block() {
    let mut index = NeighborIndex::new();
    index.rebuild(&vec![((0, 0), Cell(0, 0)), ((0, 1), Cell(3, -3)), ((0, 2), Cell(4, 0)), ((0, 3), Cell(0, -4))]);

    let mut found = index.neighbors_of(Cell(0, 0), &[true; CLASS_COUNT]);
    found.sort();
    assert_eq!(found, vec![(0, 0), (0, 1)]);
}

#[test]
fn search_leaves_out_disabled_classes() {
    let mut index = NeighborIndex::new();
    index.rebuild(&vec![((0, 0), Cell(0, 0)), ((2, 0), Cell(1, 1)), ((9, 0), Cell(0, 0))]);

    let mut enabled = [true; CLASS_COUNT];
    enabled[2] = false;
    assert_eq!(index.neighbors_of(Cell(0, 0), &enabled), vec![(0, 0)]);
}

#[test]
fn rebuild_forgets_earlier_cells() {
    let mut index = NeighborIndex::new();
    index.rebuild(&vec![((0, 0), Cell(0, 0))]);
    index.rebuild(&vec![((0, 0), Cell(100, 100))]);

    assert!(index.neighbors_of(Cell(0, 0), &[true; CLASS_COUNT]).is_empty());
    assert_eq!(index.neighbors_of(Cell(98, 103), &[true; CLASS_COUNT]), vec![(0, 0)]);
}

#[test]
fn search_at_the_edge_of_the_grid() {
    let mut index = NeighborIndex::new();
    index.rebuild(&vec![((1, 0), Cell(i32::MAX, i32::MIN)), ((1, 1), Cell(i32::MAX - 3, i32::MIN + 3))]);

    let mut found = index.neighbors_of(Cell(i32::MAX, i32::MIN), &[true; CLASS_COUNT]);
    found.sort();
    assert_eq!(found, vec![(1, 0), (1, 1)]);
}

#[test]
fn particles_within_range_are_found() {
    // Cells are a third of the interaction range wide: with a range of 44,
    // two particles 44 apart along an axis are three cells apart at most.
    let size = 44.0f32 / 3.0;
    let positions = [(0.5f32, 0.5f32), (44.4, 0.5), (0.5, -43.4), (31.0, 31.0), (60.0, 0.5)];
    let entries: Vec<((usize, usize), Cell)> = positions
        .iter()
        .enumerate()
        .map(|(p, (x, y))| ((0, p), Cell((x / size).floor() as i32, (y / size).floor() as i32)))
        .collect();
    let mut index = NeighborIndex::new();
    index.rebuild(&entries);

    let found = index.neighbors_of(entries[0].1, &[true; CLASS_COUNT]);
    for p in 0..4 {
        assert!(found.contains(&(0, p)));
    }
    assert!(!found.contains(&(0, 4)));
}
