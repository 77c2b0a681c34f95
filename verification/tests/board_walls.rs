use tank_trouble::board::{
    generate_random_gameboard, horizontal_wall_layout, vertical_wall_layout, Gameboard, HorizontalWalls,
    VerticalWalls,
};
use tank_trouble::regions::{find_regions, TANK_COUNT};

fn square_board() -> Gameboard {
    Gameboard {
        walls: vec![vec![(false, true), (true, false)], vec![(false, false), (false, false)]],
        tank_starts: vec![(0, 0), (1, 1)],
    }
}

#[test]
fn random_board_has_the_arena_shape() {
    let mut rng = rand::thread_rng();
    for _ in 0..20 {
        let board = generate_random_gameboard((12, 9), &mut rng);
        assert_eq!(board.walls.len(), 12);
        for column in &board.walls {
            assert_eq!(column.len(), 9);
        }
        assert_eq!(board.tank_starts.len(), TANK_COUNT);
        let regions = find_regions(&board.walls);
        for &(i, j) in &board.tank_starts {
            assert!(i < 12 && j < 9);
            assert_eq!(regions.labels[i][j], regions.best);
        }
    }
}

#[test]
fn random_boards_differ() {
    let mut rng = rand::thread_rng();
    let first = generate_random_gameboard((12, 9), &mut rng);
    let mut differs = false;
    for _ in 0..10 {
        if generate_random_gameboard((12, 9), &mut rng).walls != first.walls {
            differs = true;
        }
    }
    assert!(differs);
}

#[test]
fn horizontal_layout_has_border_and_inner_walls() {
    let board = square_board();
    assert_eq!(horizontal_wall_layout(&board), vec![vec![true, false, true], vec![true, false, true]]);
}

#[test]
fn vertical_layout_has_border_and_inner_walls() {
    let board = square_board();
    assert_eq!(vertical_wall_layout(&board), vec![vec![true, true, true], vec![true, false, true]]);
}

#[test]
fn layouts_of_a_fully_walled_board() {
    let board = Gameboard {
        walls: vec![vec![(true, true), (true, true)], vec![(true, true), (true, true)]],
        tank_starts: vec![],
    };
    assert_eq!(horizontal_wall_layout(&board), vec![vec![true; 3], vec![true; 3]]);
    assert_eq!(vertical_wall_layout(&board), vec![vec![true; 3], vec![true; 3]]);
}

#[test]
fn horizontal_feed_walks_down_each_column() {
    let board = Gameboard {
        walls: vec![vec![(true, false), (false, false)], vec![(false, false), (true, false)]],
        tank_starts: vec![],
    };
    let mut feed = HorizontalWalls::new(&board);
    let got: Vec<bool> = (0..6).map(|_| feed.next()).collect();
    // column 0: top, below (0,0), bottom; column 1: top, below (1,0), bottom
    assert_eq!(got, vec![true, true, true, true, false, true]);
    assert_eq!((feed.i, feed.j), (2, 0));
}

#[test]
fn vertical_feed_walks_along_each_row() {
    let board = Gameboard {
        walls: vec![vec![(false, true), (false, false)], vec![(false, false), (false, true)]],
        tank_starts: vec![],
    };
    let mut feed = VerticalWalls::new(&board);
    let got: Vec<bool> = (0..6).map(|_| feed.next()).collect();
    // row 0: left, right of (0,0), right; row 1: left, right of (0,1), right
    assert_eq!(got, vec![true, true, true, true, false, true]);
    assert_eq!((feed.i, feed.j), (0, 2));
}

#[test]
fn drawn_walls_match_the_regions() {
    let mut rng = rand::thread_rng();
    for _ in 0..20 {
        let board = generate_random_gameboard((6, 5), &mut rng);
        let regions = find_regions(&board.walls);
        let horizontal = horizontal_wall_layout(&board);
        let vertical = vertical_wall_layout(&board);
        for i in 0..6 {
            assert!(horizontal[i][0] && horizontal[i][5]);
        }
        for j in 0..5 {
            assert!(vertical[j][0] && vertical[j][6]);
        }
        for i in 0..6 {
            for j in 0..5 {
                if j + 1 < 5 && !horizontal[i][j + 1] {
                    assert_eq!(regions.labels[i][j], regions.labels[i][j + 1]);
                }
                if i + 1 < 6 && !vertical[j][i + 1] {
                    assert_eq!(regions.labels[i][j], regions.labels[i + 1][j]);
                }
            }
        }
    }
}

#[test]
fn region_numbering_depends_on_the_maze_alone() {
    let mut rng = rand::thread_rng();
    let board = generate_random_gameboard((12, 9), &mut rng);
    let first = find_regions(&board.walls);
    let second = find_regions(&board.walls.clone());
    assert_eq!(first.labels, second.labels);
    assert_eq!(first.seeds, second.seeds);
    assert_eq!(first.sizes, second.sizes);
    assert_eq!(first.best, second.best);
    assert_eq!(first.sizes.iter().sum::<usize>(), 12 * 9);
}
