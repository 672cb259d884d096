use game_five_balls::ball::BallColor;
use game_five_balls::grid::Grid;
use game_five_balls::solver::{BallSequence, Solver};

#[test]
fn a_full_row_is_one_line_from_end_to_end() {
    for n in 5..=9usize {
        let mut grid = Grid::new(n);
        for c in 0..n {
            grid.place_ball_at(2, c, BallColor::Yellow);
        }
        let lines = Solver::scan_and_collect_lines_to_clear(&grid);
        let row: Vec<(usize, usize)> = (0..n).map(|c| (2, c)).collect();
        assert_eq!(lines, vec![row]);
    }
}

#[test]
fn a_run_of_four_is_no_line() {
    let mut grid = Grid::new(9);
    for i in 0..4 {
        grid.place_ball_at(3, i + 2, BallColor::Red);
        grid.place_ball_at(i + 4, 8, BallColor::Blue);
        grid.place_ball_at(i + 5, i, BallColor::Green);
        grid.place_ball_at(i, 3 - i, BallColor::Brown);
    }
    assert!(Solver::scan_and_collect_lines_to_clear(&grid).is_empty());
}

#[test]
fn a_run_of_seven_is_recorded_once_and_whole() {
    let mut grid = Grid::new(9);
    for c in 1..8 {
        grid.place_ball_at(0, c, BallColor::Red);
    }
    let lines = Solver::scan_and_collect_lines_to_clear(&grid);
    assert_eq!(lines, vec![vec![(0, 1), (0, 2), (0, 3), (0, 4), (0, 5), (0, 6), (0, 7)]]);
}

#[test]
fn diagonals_off_the_main_diagonal_are_found() {
    let mut grid = Grid::new(7);
    for i in 0..5 {
        grid.place_ball_at(i, i + 2, BallColor::Red);
    }
    assert_eq!(
        Solver::find_diagonals_top_left_to_bottom_right(&grid),
        vec![vec![(0, 2), (1, 3), (2, 4), (3, 5), (4, 6)]]
    );
    assert!(Solver::find_diagonals_top_right_to_bottom_left(&grid).is_empty());

    let mut grid = Grid::new(7);
    for i in 0..5 {
        grid.place_ball_at(i + 2, i, BallColor::Red);
    }
    assert_eq!(
        Solver::find_diagonals_top_left_to_bottom_right(&grid),
        vec![vec![(2, 0), (3, 1), (4, 2), (5, 3), (6, 4)]]
    );

    let mut grid = Grid::new(7);
    for i in 0..5 {
        grid.place_ball_at(i, 4 - i, BallColor::Blue);
    }
    assert_eq!(
        Solver::find_diagonals_top_right_to_bottom_left(&grid),
        vec![vec![(0, 4), (1, 3), (2, 2), (3, 1), (4, 0)]]
    );
    assert!(Solver::find_diagonals_top_left_to_bottom_right(&grid).is_empty());

    let mut grid = Grid::new(7);
    for i in 0..5 {
        grid.place_ball_at(i + 2, 6 - i, BallColor::Blue);
    }
    assert_eq!(
        Solver::find_diagonals_top_right_to_bottom_left(&grid),
        vec![vec![(2, 6), (3, 5), (4, 4), (5, 3), (6, 2)]]
    );
}

#[test]
fn lines_come_rows_first_then_columns_then_diagonals() {
    let mut grid = Grid::new(5);
    for r in 0..5 {
        for c in 0..5 {
            if r == 0 || c == 0 || r == c || r + c == 4 {
                grid.place_ball_at(r, c, BallColor::Green);
            }
        }
    }
    let lines = Solver::scan_and_collect_lines_to_clear(&grid);
    assert_eq!(
        lines,
        vec![
            vec![(0, 0), (0, 1), (0, 2), (0, 3), (0, 4)],
            vec![(0, 0), (1, 0), (2, 0), (3, 0), (4, 0)],
            vec![(0, 0), (1, 1), (2, 2), (3, 3), (4, 4)],
            vec![(0, 4), (1, 3), (2, 2), (3, 1), (4, 0)],
        ]
    );
    assert_eq!(Solver::find_horizontal_lines(&grid), vec![lines[0].clone()]);
    assert_eq!(Solver::find_vertical_lines(&grid), vec![lines[1].clone()]);
    assert_eq!(grid.check_lines(), vec![lines[0].clone(), lines[1].clone()]);
}

#[test]
fn a_gap_or_another_colour_ends_a_run() {
    let mut grid = Grid::new(9);
    for c in 0..9 {
        if c != 4 {
            grid.place_ball_at(0, c, BallColor::Red);
        }
    }
    for r in 0..9 {
        let color = if r == 4 { BallColor::Blue } else { BallColor::Red };
        grid.place_ball_at(r, 8, color);
    }
    assert!(Solver::scan_and_collect_lines_to_clear(&grid).is_empty());
}

#[test]
fn crossing_lines_are_both_found_and_removed_together() {
    let mut grid = Grid::new(7);
    for i in 0..5 {
        grid.place_ball_at(3, i, BallColor::Red);
        grid.place_ball_at(i + 1, 2, BallColor::Red);
    }
    grid.place_ball_at(6, 6, BallColor::Blue);
    let lines = Solver::scan_and_collect_lines_to_clear(&grid);
    assert_eq!(
        lines,
        vec![
            vec![(3, 0), (3, 1), (3, 2), (3, 3), (3, 4)],
            vec![(1, 2), (2, 2), (3, 2), (4, 2), (5, 2)],
        ]
    );
    grid.remove_lines(&lines);
    for r in 0..7 {
        for c in 0..7 {
            assert_eq!(grid.cells[r][c].is_some(), (r, c) == (6, 6));
        }
    }
}

#[test]
fn ball_sequence_counts_up_to_a_line() {
    let mut sequence = BallSequence::new(BallColor::Red, 1, vec![(0, 0)]);
    assert_eq!(sequence.color, BallColor::Red);
    assert_eq!(sequence.count, 1);
    assert_eq!(sequence.positions, vec![(0, 0)]);
    for _ in 0..3 {
        sequence.increment();
        assert!(!sequence.is_five_or_more());
    }
    sequence.increment();
    assert_eq!(sequence.count, 5);
    assert!(sequence.is_five_or_more());
    sequence.increment();
    assert!(sequence.is_five_or_more());
}
