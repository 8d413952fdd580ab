use nbodysim::pool::{focal_tasks, partition, Gather};

#[test]
fn partition_cuts_contiguous_slices() {
    assert_eq!(partition(5, 2), vec![(0, 3), (3, 5)]);
    assert_eq!(partition(10, 3), vec![(0, 4), (4, 8), (8, 10)]);
    assert_eq!(partition(6, 3), vec![(0, 2), (2, 4), (4, 6)]);
    assert_eq!(partition(7, 1), vec![(0, 7)]);
}

#[test]
fn partition_skips_empty_slices() {
    assert_eq!(partition(0, 4), Vec::<(usize, usize)>::new());
    assert_eq!(partition(2, 4), vec![(0, 1), (1, 2)]);
    assert_eq!(partition(9, 4), vec![(0, 3), (3, 6), (6, 9)]);
}

#[test]
fn focal_tasks_cover_the_particles_after_the_focal_one() {
    assert_eq!(focal_tasks(10, 2, 3), vec![(3, 6), (6, 9), (9, 10)]);
    assert_eq!(focal_tasks(10, 9, 3), Vec::<(usize, usize)>::new());
    assert_eq!(focal_tasks(4, 0, 8), vec![(1, 2), (2, 3), (3, 4)]);
}

#[test]
fn three_particle_tasks_reach_every_pair_once() {
    let mut pairs = Vec::new();
    for focal in 0..3 {
        for (start, end) in focal_tasks(3, focal, 4) {
            for other in start..end {
                pairs.push((focal, other));
            }
        }
    }
    assert_eq!(pairs, vec![(0, 1), (0, 2), (1, 2)]);
}

#[test]
fn gather_applies_only_when_all_answers_arrived() {
    let mut g = Gather::new(2);
    assert!(!g.is_done());
    g.record(true);
    assert!(!g.is_done());
    assert!(!g.may_apply());
    g.record(true);
    assert!(g.is_done());
    assert!(g.may_apply());

    let mut h = Gather::new(2);
    h.record(false);
    h.record(true);
    assert!(h.is_done());
    assert!(!h.may_apply());

    let empty = Gather::new(0);
    assert!(empty.is_done());
    assert!(empty.may_apply());
}
