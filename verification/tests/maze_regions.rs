use tank_trouble::regions::{find_regions, generate_tank_starts, pick_squares, TANK_COUNT};

fn split_row() -> Vec<Vec<(bool, bool)>> {
    // three columns of one row, with a wall right of the first column
    vec![vec![(false, true)], vec![(false, false)], vec![(false, false)]]
}

fn open_square() -> Vec<Vec<(bool, bool)>> {
    vec![vec![(false, true), (true, false)], vec![(false, false), (false, false)]]
}

#[test]
fn regions_of_split_row() {
    let r = find_regions(&split_row());
    assert_eq!(r.labels, vec![vec![0], vec![1], vec![1]]);
    assert_eq!(r.seeds, vec![(0, 0), (1, 0)]);
    assert_eq!(r.sizes, vec![1, 2]);
    assert_eq!(r.best, 1);
}

#[test]
fn regions_of_connected_square() {
    let r = find_regions(&open_square());
    assert_eq!(r.labels, vec![vec![0, 0], vec![0, 0]]);
    assert_eq!(r.seeds, vec![(0, 0)]);
    assert_eq!(r.sizes, vec![4]);
    assert_eq!(r.best, 0);
}

#[test]
fn walled_cells_are_their_own_regions() {
    let walls = vec![vec![(true, true), (true, true)], vec![(true, true), (true, true)]];
    let r = find_regions(&walls);
    assert_eq!(r.labels, vec![vec![0, 1], vec![2, 3]]);
    assert_eq!(r.seeds, vec![(0, 0), (0, 1), (1, 0), (1, 1)]);
    assert_eq!(r.sizes, vec![1, 1, 1, 1]);
    // ties go to the first region in scan order
    assert_eq!(r.best, 0);
}

#[test]
fn wall_below_splits_a_column() {
    // one column of three rows, a wall below the middle cell
    let walls = vec![vec![(false, false), (true, false), (false, false)]];
    let r = find_regions(&walls);
    assert_eq!(r.labels, vec![vec![0, 0, 1]]);
    assert_eq!(r.sizes, vec![2, 1]);
    assert_eq!(r.best, 0);
}

#[test]
fn regions_reach_around_walls() {
    // a U-shaped corridor: the two top cells are joined through the bottom row
    // columns 0 and 1, rows 0 and 1; wall right of (0, 0) only
    let walls = vec![vec![(false, true), (false, false)], vec![(false, false), (false, false)]];
    let r = find_regions(&walls);
    assert_eq!(r.labels, vec![vec![0, 0], vec![0, 0]]);
    assert_eq!(r.sizes, vec![4]);
}

#[test]
fn longer_columns_are_read_only_to_the_first_column_length() {
    let walls = vec![vec![(true, true)], vec![(false, false), (false, false)]];
    let r = find_regions(&walls);
    assert_eq!(r.labels, vec![vec![0], vec![1]]);
    assert_eq!(r.sizes, vec![1, 1]);
}

#[test]
fn picks_name_cells_of_the_best_region_in_scan_order() {
    let r = find_regions(&split_row());
    assert_eq!(pick_squares(&r, &vec![0, 1]), vec![(1, 0), (2, 0)]);
    assert_eq!(pick_squares(&r, &vec![1, 1]), vec![(2, 0), (2, 0)]);
    assert_eq!(pick_squares(&r, &vec![]), vec![]);
}

#[test]
fn tank_starts_lie_in_the_largest_region() {
    let walls = split_row();
    let mut rng = rand::thread_rng();
    for _ in 0..200 {
        let starts = generate_tank_starts(&walls, &mut rng);
        assert_eq!(starts.len(), TANK_COUNT);
        for s in &starts {
            assert!(*s == (1, 0) || *s == (2, 0), "start {:?} outside the largest region", s);
        }
    }
}

#[test]
fn tank_starts_cover_the_whole_largest_region() {
    let walls = split_row();
    let mut rng = rand::thread_rng();
    let mut seen_first = false;
    let mut seen_second = false;
    for _ in 0..400 {
        let starts = generate_tank_starts(&walls, &mut rng);
        for s in &starts {
            if *s == (1, 0) {
                seen_first = true;
            }
            if *s == (2, 0) {
                seen_second = true;
            }
        }
    }
    assert!(seen_first && seen_second);
}
