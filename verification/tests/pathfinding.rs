use game_five_balls::ball::BallColor;
use game_five_balls::grid::Grid;
use game_five_balls::pathfinding::find_path;

fn assert_valid_path(grid: &Grid, path: &[(usize, usize)], start: (usize, usize), goal: (usize, usize)) {
    assert_eq!(path[0], start);
    assert_eq!(path[path.len() - 1], goal);
    for i in 1..path.len() {
        let (pr, pc) = path[i - 1];
        let (r, c) = path[i];
        let steps = pr.abs_diff(r) + pc.abs_diff(c);
        assert_eq!(steps, 1);
        assert!(grid.cells[r][c].is_none());
    }
}

#[test]
fn open_board_paths_have_manhattan_length() {
    let n = 5;
    for sr in 0..n {
        for sc in 0..n {
            let mut grid = Grid::new(n);
            grid.place_ball_at(sr, sc, BallColor::Red);
            for gr in 0..n {
                for gc in 0..n {
                    if (gr, gc) == (sr, sc) {
                        continue;
                    }
                    let path = find_path(&grid, (sr, sc), (gr, gc)).unwrap();
                    assert_eq!(path.len(), sr.abs_diff(gr) + sc.abs_diff(gc) + 1);
                    assert_valid_path(&grid, &path, (sr, sc), (gr, gc));
                }
            }
        }
    }
}

#[test]
fn no_path_to_an_occupied_goal() {
    let mut grid = Grid::new(4);
    grid.place_ball_at(0, 0, BallColor::Red);
    grid.place_ball_at(0, 1, BallColor::Blue);
    grid.place_ball_at(3, 3, BallColor::Blue);
    assert_eq!(find_path(&grid, (0, 0), (0, 1)), None);
    assert_eq!(find_path(&grid, (0, 0), (3, 3)), None);
    assert_eq!(find_path(&grid, (0, 0), (0, 0)), None);
}

#[test]
fn no_path_from_an_empty_start_or_across_the_edge() {
    let mut grid = Grid::new(4);
    grid.place_ball_at(0, 0, BallColor::Red);
    assert_eq!(find_path(&grid, (1, 1), (2, 2)), None);
    assert_eq!(find_path(&grid, (0, 0), (4, 0)), None);
    assert_eq!(find_path(&grid, (0, 4), (1, 1)), None);
}

#[test]
fn no_path_through_a_wall() {
    let mut grid = Grid::new(4);
    grid.place_ball_at(0, 0, BallColor::Red);
    for r in 0..4 {
        grid.place_ball_at(r, 2, BallColor::Blue);
    }
    assert_eq!(find_path(&grid, (0, 0), (0, 3)), None);
    assert!(find_path(&grid, (0, 0), (3, 1)).is_some());
}

#[test]
fn diagonal_neighbours_are_not_linked() {
    let mut grid = Grid::new(3);
    grid.place_ball_at(0, 0, BallColor::Red);
    grid.place_ball_at(0, 1, BallColor::Blue);
    grid.place_ball_at(1, 0, BallColor::Blue);
    assert_eq!(find_path(&grid, (0, 0), (1, 1)), None);
}

#[test]
fn the_path_around_a_wall_is_a_shortest_one() {
    let mut grid = Grid::new(5);
    grid.place_ball_at(2, 0, BallColor::Red);
    for r in 0..4 {
        grid.place_ball_at(r, 2, BallColor::Blue);
    }
    let path = find_path(&grid, (2, 0), (2, 4)).unwrap();
    assert_valid_path(&grid, &path, (2, 0), (2, 4));
    assert_eq!(path.len(), 9);
}

#[test]
fn the_first_direction_tried_wins_a_tie() {
    let mut grid = Grid::new(3);
    grid.place_ball_at(0, 0, BallColor::Red);
    let path = find_path(&grid, (0, 0), (1, 1)).unwrap();
    assert_eq!(path, vec![(0, 0), (0, 1), (1, 1)]);
    assert_eq!(find_path(&grid, (0, 0), (0, 1)), Some(vec![(0, 0), (0, 1)]));
}
