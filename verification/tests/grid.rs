use game_five_balls::ball::{Ball, BallColor};
use game_five_balls::grid::{Grid, GridError};

fn count_balls(grid: &Grid) -> usize {
    let mut count = 0;
    for r in 0..grid.size {
        for c in 0..grid.size {
            if grid.cells[r][c].is_some() {
                count += 1;
            }
        }
    }
    count
}

#[test]
fn test_grid_new() {
    let size = 9;
    let grid = Grid::new(size);
    assert_eq!(grid.size, size);
    assert_eq!(grid.cells.len(), size);
    for row in grid.cells {
        assert_eq!(row.len(), size);
        for cell in row {
            assert!(cell.is_none());
        }
    }
    assert_eq!(grid.ball_count, 0);
}

#[test]
fn test_grid_place_and_clear_ball() {
    let mut grid = Grid::new(5);
    let color = BallColor::Red;

    let ball_id_opt = grid.place_ball_at(2, 2, color);
    assert!(ball_id_opt.is_some());
    assert!(grid.cells[2][2].is_some());
    assert_eq!(grid.cells[2][2].as_ref().unwrap().color, color);

    grid.clear_balls(&vec![(2, 2)]);
    assert!(grid.cells[2][2].is_none());
}

#[test]
fn test_grid_is_full() {
    let size = 2;
    let mut grid = Grid::new(size);
    assert!(!grid.is_full(), "Empty grid should not be full.");

    grid.place_ball_at(0, 0, BallColor::Red);
    grid.place_ball_at(0, 1, BallColor::Blue);
    grid.place_ball_at(1, 0, BallColor::Green);
    assert!(!grid.is_full(), "Grid with one empty cell should not be full.");

    grid.place_ball_at(1, 1, BallColor::Yellow);
    assert!(grid.is_full(), "Completely filled grid should be full.");
}

#[test]
fn test_grid_check_lines_basic() {
    let size = 5;
    let mut grid = Grid::new(size);
    let color = BallColor::Red;

    assert!(grid.check_lines().is_empty(), "Empty grid should have no lines.");

    for i in 0..4 {
        grid.place_ball_at(0, i, color);
    }
    assert!(grid.check_lines().is_empty(), "Line of 4 should not be detected.");

    grid.place_ball_at(0, 4, color);
    let lines_h = grid.check_lines();
    assert_eq!(lines_h.len(), 1, "Horizontal line of 5 not detected. Lines: {:?}", lines_h);
    if !lines_h.is_empty() {
        assert_eq!(lines_h[0].len(), 5, "Horizontal line length is not 5.");
        assert_eq!(lines_h[0][0], (0, 0));
    }

    grid = Grid::new(size);
    for i in 0..5 {
        grid.place_ball_at(i, 0, color);
    }
    let lines_v = grid.check_lines();
    assert_eq!(lines_v.len(), 1, "Vertical line of 5 not detected. Lines: {:?}", lines_v);
    if !lines_v.is_empty() {
        assert_eq!(lines_v[0].len(), 5, "Vertical line length is not 5.");
        assert_eq!(lines_v[0][0], (0, 0));
    }
}

#[test]
fn test_grid_remove_lines() {
    let size = 5;
    let mut grid = Grid::new(size);
    let color = BallColor::Blue;

    for i in 0..5 {
        grid.place_ball_at(1, i, color);
    }

    let lines_to_remove = grid.check_lines();
    assert!(!lines_to_remove.is_empty(), "No lines found to remove, test setup error.");

    grid.remove_lines(&lines_to_remove);

    for i in 0..5 {
        assert!(grid.cells[1][i].is_none(), "Cell (1,{}) was not cleared after remove_lines.", i);
    }
}

#[test]
fn ball_ids_are_handed_out_in_order() {
    let mut grid = Grid::new(3);
    assert_eq!(grid.get_next_ball_id(), 1);
    assert_eq!(grid.get_next_ball_id(), 2);
    assert_eq!(grid.place_ball_at(0, 0, BallColor::Green), Some(3));
    assert_eq!(grid.cells[0][0], Some(Ball::new(3, BallColor::Green)));
    assert_eq!(grid.ball_count, 3);
}

#[test]
fn place_ball_at_refuses_occupied_and_outside_cells() {
    let mut grid = Grid::new(3);
    assert_eq!(grid.place_ball_at(1, 1, BallColor::Red), Some(1));
    assert_eq!(grid.place_ball_at(1, 1, BallColor::Blue), None);
    assert_eq!(grid.place_ball_at(3, 0, BallColor::Blue), None);
    assert_eq!(grid.place_ball_at(0, 3, BallColor::Blue), None);
    assert_eq!(grid.ball_count, 1);
    assert_eq!(grid.cells[1][1], Some(Ball::new(1, BallColor::Red)));
    assert_eq!(count_balls(&grid), 1);
}

#[test]
fn is_within_bounds_checks_both_coordinates() {
    let grid = Grid::new(4);
    assert!(grid.is_within_bounds(0, 0));
    assert!(grid.is_within_bounds(3, 3));
    assert!(!grid.is_within_bounds(4, 0));
    assert!(!grid.is_within_bounds(0, 4));
}

#[test]
fn cell_reads_without_changing() {
    let mut grid = Grid::new(3);
    grid.place_ball_at(2, 1, BallColor::Brown);
    assert_eq!(grid.cell(2, 1), Some(Ball::new(1, BallColor::Brown)));
    assert_eq!(grid.cell(1, 2), None);
    assert_eq!(grid.cell(3, 3), None);
    assert_eq!(count_balls(&grid), 1);
}

#[test]
fn is_full_agrees_with_occupancy_on_every_small_board() {
    for size in 1..=2usize {
        let cells = size * size;
        for mask in 0..(1u32 << cells) {
            let mut grid = Grid::new(size);
            for k in 0..cells {
                if mask & (1 << k) != 0 {
                    grid.place_ball_at(k / size, k % size, BallColor::Red);
                }
            }
            let every_cell_occupied = mask == (1u32 << cells) - 1;
            assert_eq!(grid.is_full(), every_cell_occupied);
        }
    }
}

#[test]
fn empty_cells_are_listed_row_by_row() {
    let mut grid = Grid::new(3);
    grid.place_ball_at(0, 1, BallColor::Red);
    grid.place_ball_at(1, 0, BallColor::Red);
    grid.place_ball_at(2, 2, BallColor::Red);
    assert_eq!(grid.empty_cells(), vec![(0, 0), (0, 2), (1, 1), (1, 2), (2, 0), (2, 1)]);
}

#[test]
fn random_placement_fills_the_last_cell_then_reports_full() {
    let mut grid = Grid::new(2);
    grid.place_ball_at(0, 0, BallColor::Red);
    grid.place_ball_at(0, 1, BallColor::Blue);
    grid.place_ball_at(1, 0, BallColor::Green);
    assert!(!grid.is_full());

    assert_eq!(grid.place_ball_at_random_empty(BallColor::Yellow), Ok((1, 1)));
    assert_eq!(grid.cells[1][1], Some(Ball::new(4, BallColor::Yellow)));
    assert!(grid.is_full());

    let before = grid.cells.clone();
    assert_eq!(grid.place_ball_at_random_empty(BallColor::Brown), Err(GridError::BoardFull));
    assert_eq!(grid.cells, before);
    assert_eq!(grid.ball_count, 4);
}

#[test]
fn random_placement_lands_on_an_empty_cell() {
    for _ in 0..50 {
        let mut grid = Grid::new(3);
        grid.place_ball_at(1, 1, BallColor::Red);
        let before = grid.cells.clone();
        let (r, c) = grid.place_ball_at_random_empty(BallColor::Blue).unwrap();
        assert!(before[r][c].is_none());
        assert_eq!(grid.cells[r][c], Some(Ball::new(2, BallColor::Blue)));
        assert_eq!(count_balls(&grid), 2);
        assert_eq!(grid.cells[1][1], Some(Ball::new(1, BallColor::Red)));
    }
}

#[test]
fn move_ball_takes_the_ball_along() {
    let mut grid = Grid::new(3);
    grid.place_ball_at(0, 0, BallColor::Yellow);
    assert_eq!(grid.move_ball((0, 0), (2, 1)), Ok(()));
    assert_eq!(grid.cells[0][0], None);
    assert_eq!(grid.cells[2][1], Some(Ball::new(1, BallColor::Yellow)));
    assert_eq!(count_balls(&grid), 1);
}

#[test]
fn move_ball_reports_each_refusal() {
    let mut grid = Grid::new(3);
    grid.place_ball_at(0, 0, BallColor::Yellow);
    grid.place_ball_at(1, 1, BallColor::Red);
    let before = grid.cells.clone();
    assert_eq!(grid.move_ball((3, 0), (1, 0)), Err(GridError::OutOfBounds));
    assert_eq!(grid.move_ball((0, 0), (0, 3)), Err(GridError::OutOfBounds));
    assert_eq!(grid.move_ball((2, 2), (1, 0)), Err(GridError::CellEmpty));
    assert_eq!(grid.move_ball((0, 0), (1, 1)), Err(GridError::CellOccupied));
    assert_eq!(grid.move_ball((0, 0), (0, 0)), Err(GridError::CellOccupied));
    assert_eq!(grid.cells, before);
}

#[test]
fn clear_balls_is_a_set_operation() {
    let mut grid = Grid::new(3);
    grid.place_ball_at(0, 0, BallColor::Red);
    grid.place_ball_at(1, 1, BallColor::Blue);
    grid.place_ball_at(2, 2, BallColor::Green);
    grid.clear_balls(&vec![(0, 0), (0, 0), (5, 5), (0, 1), (1, 1)]);
    assert_eq!(grid.cells[0][0], None);
    assert_eq!(grid.cells[1][1], None);
    assert_eq!(grid.cells[2][2], Some(Ball::new(3, BallColor::Green)));
    let once = grid.cells.clone();
    grid.clear_balls(&vec![(0, 0), (1, 1)]);
    assert_eq!(grid.cells, once);
}

#[test]
fn check_lines_reads_rows_then_columns() {
    let mut grid = Grid::new(6);
    for i in 0..6 {
        grid.place_ball_at(i, 2, BallColor::Red);
    }
    for i in 0..6 {
        if i != 2 {
            grid.place_ball_at(4, i, BallColor::Red);
        }
    }
    let lines = grid.check_lines();
    assert_eq!(
        lines,
        vec![
            vec![(4, 0), (4, 1), (4, 2), (4, 3), (4, 4), (4, 5)],
            vec![(0, 2), (1, 2), (2, 2), (3, 2), (4, 2), (5, 2)],
        ]
    );
}

#[test]
fn check_lines_leaves_diagonals_alone() {
    let mut grid = Grid::new(5);
    for i in 0..5 {
        grid.place_ball_at(i, i, BallColor::Blue);
    }
    assert!(grid.check_lines().is_empty());
}

#[test]
fn check_lines_splits_a_row_at_a_colour_change_and_at_a_gap() {
    let mut grid = Grid::new(11);
    for c in 0..5 {
        grid.place_ball_at(0, c, BallColor::Red);
    }
    for c in 5..10 {
        grid.place_ball_at(0, c, BallColor::Blue);
    }
    for c in 0..4 {
        grid.place_ball_at(1, c, BallColor::Green);
    }
    for c in 5..11 {
        grid.place_ball_at(1, c, BallColor::Green);
    }
    let lines = grid.check_lines();
    assert_eq!(
        lines,
        vec![
            vec![(0, 0), (0, 1), (0, 2), (0, 3), (0, 4)],
            vec![(0, 5), (0, 6), (0, 7), (0, 8), (0, 9)],
            vec![(1, 5), (1, 6), (1, 7), (1, 8), (1, 9), (1, 10)],
        ]
    );
}
