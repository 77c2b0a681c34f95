use tank_trouble::render::{render_wall_mat, render_wall_mat_plus};

fn square() -> Vec<Vec<(bool, bool)>> {
    vec![vec![(false, true), (true, false)], vec![(false, false), (false, false)]]
}

#[test]
fn plain_picture_of_a_square() {
    assert_eq!(render_wall_mat(&square()), " - - \n| | |\n    +\n|   |\n - - \n");
}

#[test]
fn plus_picture_of_a_square() {
    assert_eq!(render_wall_mat_plus(&square()), "+-+-+\n| | |\n+ + +\n|   |\n+-+-+\n");
}

#[test]
fn pictures_of_a_single_cell() {
    let one = vec![vec![(true, true)]];
    assert_eq!(render_wall_mat(&one), " - \n| |\n - \n");
    assert_eq!(render_wall_mat_plus(&one), "+-+\n| |\n+-+\n");
}

#[test]
fn floor_line_shows_walls_below() {
    // two columns of two rows, walls below both top cells, no walls right
    let walls = vec![vec![(true, false), (false, false)], vec![(true, false), (false, false)]];
    assert_eq!(render_wall_mat(&walls), " - - \n|   |\n - -+\n|   |\n - - \n");
    assert_eq!(render_wall_mat_plus(&walls), "+-+-+\n|   |\n+-+-+\n|   |\n+-+-+\n");
}

#[test]
fn last_column_may_lack_its_last_cell() {
    // the last row of the last column is never drawn
    let walls = vec![vec![(false, true), (true, true)], vec![(true, false)]];
    assert_eq!(render_wall_mat(&walls), " - - \n| | |\n   -+\n| | |\n - - \n");
    assert_eq!(render_wall_mat_plus(&walls), "+-+-+\n| | |\n+ +-+\n| | |\n+-+-+\n");
}

#[test]
fn plain_picture_is_the_plus_picture_without_corners() {
    let mut rng = rand::thread_rng();
    for _ in 0..10 {
        let board = tank_trouble::board::generate_random_gameboard((7, 4), &mut rng);
        let plain = render_wall_mat(&board.walls);
        let plus = render_wall_mat_plus(&board.walls);
        let plain_lines: Vec<&str> = plain.split('\n').collect();
        let plus_lines: Vec<&str> = plus.split('\n').collect();
        assert_eq!(plain_lines.len(), plus_lines.len());
        // the text ends in a newline, so the last piece is empty
        let count = plus_lines.len() - 1;
        for l in 0..plus_lines.len() {
            let p: Vec<char> = plus_lines[l].chars().collect();
            let q: Vec<char> = plain_lines[l].chars().collect();
            assert_eq!(p.len(), q.len());
            let inner_floor = l > 0 && l + 1 < count && l % 2 == 0;
            for x in 0..p.len() {
                let keep = inner_floor && x + 1 == p.len();
                let expected = if p[x] == '+' && !keep { ' ' } else { p[x] };
                assert_eq!(q[x], expected);
            }
        }
    }
}
