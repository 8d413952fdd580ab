use nbodysim::grid::{index_pairs, ChunkGrid};

fn cells(g: &ChunkGrid) -> Vec<(i32, i32, Vec<usize>)> {
    g.chunks().iter().map(|c| (c.x, c.y, c.indices.clone())).collect()
}

#[test]
fn rebuild_groups_particles_by_coordinate() {
    let coords = vec![(0, 0), (1, 0), (0, 0), (-1, 2)];
    let g = ChunkGrid::from_coords(&coords);
    assert_eq!(
        cells(&g),
        vec![(0, 0, vec![0, 2]), (1, 0, vec![1]), (-1, 2, vec![3])]
    );
    assert_eq!(g.len(), 3);
}

#[test]
fn rebuild_of_no_particles_has_no_cells() {
    let g = ChunkGrid::from_coords(&Vec::new());
    assert_eq!(g.len(), 0);
}

#[test]
fn rebuild_discards_previous_cells() {
    let mut g = ChunkGrid::from_coords(&vec![(7, 7), (8, 8)]);
    g.rebuild(&vec![(1, 1)]);
    assert_eq!(cells(&g), vec![(1, 1, vec![0])]);
}

#[test]
fn rebucketing_twice_gives_identical_membership() {
    let coords = vec![(3, -1), (0, 0), (3, -1), (2, 2), (0, 0), (0, 0)];
    let mut g = ChunkGrid::from_coords(&coords);
    let first = cells(&g);
    g.rebuild(&coords);
    assert_eq!(cells(&g), first);
    assert_eq!(
        first,
        vec![(3, -1, vec![0, 2]), (0, 0, vec![1, 4, 5]), (2, 2, vec![3])]
    );
}

#[test]
fn find_locates_occupied_cells_only() {
    let g = ChunkGrid::from_coords(&vec![(0, 0), (4, -2)]);
    assert_eq!(g.find(4, -2), Some(1));
    assert_eq!(g.find(0, 0), Some(0));
    assert_eq!(g.find(-2, 4), None);
}

#[test]
fn insert_opens_then_appends() {
    let mut g = ChunkGrid::new();
    g.insert(5, 1, 1);
    g.insert(2, 0, 0);
    g.insert(9, 1, 1);
    assert_eq!(cells(&g), vec![(1, 1, vec![5, 9]), (0, 0, vec![2])]);
}

#[test]
fn neighbourhood_takes_cell_and_four_edge_neighbours() {
    // 0 centre, 1 right, 2 above, 3 far, 4 left, 5 below, 6 diagonal
    let coords = vec![(0, 0), (1, 0), (0, 1), (5, 5), (-1, 0), (0, -1), (1, 1)];
    let g = ChunkGrid::from_coords(&coords);
    let c = g.find(0, 0).unwrap();
    assert_eq!(g.neighbourhood(c), vec![0, 4, 1, 5, 2]);
}

#[test]
fn neighbourhood_lists_each_particle_once() {
    let coords = vec![(0, 0), (0, 0), (1, 0)];
    let g = ChunkGrid::from_coords(&coords);
    assert_eq!(g.neighbourhood(0), vec![0, 1, 2]);
    assert_eq!(g.neighbourhood(1), vec![2, 0, 1]);
}

#[test]
fn neighbourhood_at_coordinate_limits() {
    let coords = vec![(i32::MIN, i32::MAX), (i32::MIN + 1, i32::MAX)];
    let g = ChunkGrid::from_coords(&coords);
    assert_eq!(g.neighbourhood(0), vec![0, 1]);
}

#[test]
fn collision_pairs_cover_the_neighbourhood() {
    let coords = vec![(0, 0), (1, 0), (0, 1), (5, 5)];
    let g = ChunkGrid::from_coords(&coords);
    assert_eq!(
        g.collision_pairs(0),
        vec![(0, 1), (0, 2), (1, 2)]
    );
    assert_eq!(g.collision_pairs(3), Vec::<(usize, usize)>::new());
}

#[test]
fn member_pairs_stay_inside_one_cell() {
    let coords = vec![(0, 0), (1, 0), (0, 0), (0, 0)];
    let g = ChunkGrid::from_coords(&coords);
    assert_eq!(g.member_pairs(0), vec![(0, 2), (0, 3), (2, 3)]);
    assert_eq!(g.member_pairs(1), Vec::<(usize, usize)>::new());
}

#[test]
fn cell_pairs_are_all_ordered_pairs_of_distinct_cells() {
    let g = ChunkGrid::from_coords(&vec![(0, 0), (1, 0), (2, 0)]);
    assert_eq!(
        g.cell_pairs(),
        vec![(0, 1), (0, 2), (1, 0), (1, 2), (2, 0), (2, 1)]
    );
    let single = ChunkGrid::from_coords(&vec![(0, 0), (0, 0)]);
    assert_eq!(single.cell_pairs(), Vec::<(usize, usize)>::new());
}

#[test]
fn index_pairs_of_small_inputs() {
    assert_eq!(index_pairs(&vec![]), Vec::<(usize, usize)>::new());
    assert_eq!(index_pairs(&vec![4]), Vec::<(usize, usize)>::new());
    assert_eq!(
        index_pairs(&vec![0, 1, 2, 3]),
        vec![(0, 1), (0, 2), (0, 3), (1, 2), (1, 3), (2, 3)]
    );
}
