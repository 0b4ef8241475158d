use symbios_ground::{diamond_step_count, subdivision_schedule};

#[test]
fn subdivision_of_side_two_is_empty() {
    assert!(subdivision_schedule(2).is_empty());
}

#[test]
fn subdivision_of_side_three_lists_centre_then_edges() {
    let levels = subdivision_schedule(3);
    assert_eq!(levels.len(), 1);
    let steps: Vec<(usize, Vec<usize>)> =
        levels[0].iter().map(|m| (m.target, m.sources.clone())).collect();
    assert_eq!(
        steps,
        vec![
            (4, vec![0, 2, 6, 8]),
            (1, vec![4, 0, 2]),
            (3, vec![0, 6, 4]),
            (5, vec![2, 8, 4]),
            (7, vec![4, 6, 8]),
        ]
    );
}

#[test]
fn subdivision_level_sizes_follow_the_halving_squares() {
    let levels = subdivision_schedule(17);
    assert_eq!(levels.len(), 4);
    for (j, level) in levels.iter().enumerate() {
        let n = 1usize << j;
        // n * n diamond steps, then (n + 1) rows of n and n rows of n + 1 square steps.
        assert_eq!(level.len(), n * n + (n + 1) * n + n * (n + 1));
    }
}

#[test]
fn subdivision_assigns_every_cell_once_from_assigned_cells() {
    for size in [3usize, 5, 9, 17, 33, 65] {
        let corners = [0, size - 1, (size - 1) * size, size * size - 1];
        let mut assigned = vec![false; size * size];
        for c in corners {
            assigned[c] = true;
        }
        for level in subdivision_schedule(size) {
            for step in level {
                for &s in &step.sources {
                    assert!(assigned[s], "side {size}: source {s} read before it is assigned");
                }
                assert!(!assigned[step.target], "side {size}: cell {} assigned twice", step.target);
                assigned[step.target] = true;
            }
        }
        assert!(assigned.iter().all(|&a| a), "side {size}: a cell is never assigned");
    }
}

#[test]
fn diamond_steps_open_each_level_one_per_square() {
    let size = 17;
    let levels = subdivision_schedule(size);
    for (j, level) in levels.iter().enumerate() {
        let d = diamond_step_count(size, j);
        assert_eq!(d, 1usize << (2 * j));
        let side = (size - 1) >> j;
        for (q, step) in level.iter().enumerate() {
            let (x, z) = (step.target % size, step.target / size);
            let centre = x % side == side / 2 && z % side == side / 2;
            assert_eq!(q < d, centre, "level {} step {}", j, q);
        }
    }
}
