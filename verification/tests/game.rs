use game_five_balls::ball::{Ball, BallColor};
use game_five_balls::game::{calculate_score_for_lines, Game};

fn place_ball_in_game_grid(game: &mut Game, row: usize, col: usize, color: BallColor) {
    if game.grid.is_within_bounds(row, col) && game.grid.cells[row][col].is_none() {
        let id = game.grid.get_next_ball_id();
        game.grid.cells[row][col] = Some(Ball::new(id, color));
    }
}

fn ball_count(game: &Game) -> usize {
    let mut count = 0;
    for r in 0..game.grid.size {
        for c in 0..game.grid.size {
            if game.grid.cells[r][c].is_some() {
                count += 1;
            }
        }
    }
    count
}

#[test]
fn test_game_new() {
    let game = Game::new(9);
    assert_eq!(game.score, 0, "Initial score should be 0.");
    assert!(!game.game_over, "Game should not be over initially.");
    assert_eq!(game.selected_ball_pos, None, "No ball should be selected initially.");
    assert_eq!(game.grid.size, 9, "Grid size should be set.");
}

#[test]
fn test_game_select_cell_selection_logic() {
    let mut game = Game::new(5);

    game.select_cell(0, 0);
    assert_eq!(game.selected_ball_pos, None, "Selecting empty cell on empty grid should not select.");

    place_ball_in_game_grid(&mut game, 1, 1, BallColor::Red);
    game.select_cell(1, 1);
    assert_eq!(game.selected_ball_pos, Some((1, 1)), "Should select the ball at (1,1).");

    game.select_cell(1, 1);
    assert_eq!(game.selected_ball_pos, None, "Selecting the same ball should deselect it.");

    game.select_cell(1, 1);
    assert_eq!(game.selected_ball_pos, Some((1, 1)), "Ball (1,1) should be re-selected.");

    // The corner is walled in, so that no path leads to it.
    place_ball_in_game_grid(&mut game, 0, 1, BallColor::Blue);
    place_ball_in_game_grid(&mut game, 1, 0, BallColor::Green);
    game.select_cell(0, 0);
    assert_eq!(
        game.selected_ball_pos,
        Some((1, 1)),
        "Selecting empty cell when no path exists should not change selection."
    );
    assert_eq!(ball_count(&game), 3);
    assert!(game.grid.cells[1][1].is_some());
    assert!(game.grid.cells[0][0].is_none());
}

#[test]
fn test_game_add_random_balls() {
    let mut game = Game::new(3);
    game.add_random_balls(3);
    let mut ball_count = 0;
    for r in 0..game.grid.size {
        for c in 0..game.grid.size {
            if game.grid.cells[r][c].is_some() {
                ball_count += 1;
            }
        }
    }
    assert_eq!(ball_count, 3, "Should have added 3 balls to 3x3 grid.");

    let mut game_small = Game::new(2);
    place_ball_in_game_grid(&mut game_small, 0, 0, BallColor::Red);
    place_ball_in_game_grid(&mut game_small, 0, 1, BallColor::Blue);
    place_ball_in_game_grid(&mut game_small, 1, 0, BallColor::Green);

    game_small.add_random_balls(3);
    ball_count = 0;
    for r in 0..game_small.grid.size {
        for c in 0..game_small.grid.size {
            if game_small.grid.cells[r][c].is_some() {
                ball_count += 1;
            }
        }
    }
    assert_eq!(ball_count, 4, "Should fill the grid, adding only 1 more ball to 2x2 grid.");
    assert!(game_small.game_over, "Game should be over if grid becomes full after add_random_balls.");
}

#[test]
fn test_game_check_game_over() {
    let mut game = Game::new(2);
    assert!(!game.game_over, "Game should not be over with non-full grid initially.");
    game.check_game_over();
    assert!(!game.game_over, "Game should not be over with non-full grid after check.");

    place_ball_in_game_grid(&mut game, 0, 0, BallColor::Red);
    place_ball_in_game_grid(&mut game, 0, 1, BallColor::Blue);
    place_ball_in_game_grid(&mut game, 1, 0, BallColor::Green);
    assert!(!game.game_over, "Game should not be over with 1 cell empty.");

    place_ball_in_game_grid(&mut game, 1, 1, BallColor::Yellow);
    assert!(!game.game_over, "Game should not be over yet (check_game_over not called).");
    game.check_game_over();
    assert!(game.game_over, "Game should be over when grid is full and check_game_over is called.");
}

#[test]
fn test_calculate_score_for_lines_logic() {
    let line5 = vec![(0, 0), (0, 1), (0, 2), (0, 3), (0, 4)];
    assert_eq!(calculate_score_for_lines(&vec![line5.clone()]), 6, "Score for 5 balls: (5-4)^2+5 = 6");

    let line6 = vec![(1, 0), (1, 1), (1, 2), (1, 3), (1, 4), (1, 5)];
    assert_eq!(calculate_score_for_lines(&vec![line6.clone()]), 10, "Score for 6 balls: (6-4)^2+6 = 10");

    let line7 = vec![(2, 0), (2, 1), (2, 2), (2, 3), (2, 4), (2, 5), (2, 6)];
    assert_eq!(calculate_score_for_lines(&vec![line7.clone()]), 16, "Score for 7 balls: (7-4)^2+7 = 16");

    assert_eq!(calculate_score_for_lines(&vec![line5, line6]), 6 + 10, "Score for multiple lines (5 and 6).");

    let line4 = vec![(3, 0), (3, 1), (3, 2), (3, 3)];
    assert_eq!(calculate_score_for_lines(&vec![line4]), 0, "Score for 4 balls should be 0.");

    assert_eq!(calculate_score_for_lines(&vec![]), 0, "Score for no lines should be 0.");
}

#[test]
fn test_game_select_cell_move_and_consequences() {
    let mut game = Game::new(5);

    place_ball_in_game_grid(&mut game, 0, 0, BallColor::Red);

    for i in 0..4 {
        place_ball_in_game_grid(&mut game, 1, i, BallColor::Red);
    }

    game.select_cell(0, 0);
    assert_eq!(game.selected_ball_pos, Some((0, 0)));

    // The move by itself, on a copy of the board: the turn that follows it
    // in the game removes the line at once.
    let mut moved = game.grid.clone();
    assert_eq!(moved.move_ball((0, 0), (1, 4)), Ok(()));
    assert!(moved.cells[1][4].is_some(), "Ball should be at (1,4).");
    assert_eq!(moved.cells[1][4].as_ref().unwrap().color, BallColor::Red);

    game.select_cell(1, 4);

    assert!(game.grid.cells[0][0].is_none(), "Original cell (0,0) should be empty.");
    assert_eq!(game.selected_ball_pos, None, "Selection should be cleared after move.");

    for i in 0..5 {
        assert!(game.grid.cells[1][i].is_none(), "Cell (1,{}) should be cleared due to line formation.", i);
    }
    assert_eq!(game.score, 6, "Score should be 6 for a line of 5.");

    let mut current_ball_count = 0;
    for r_idx in 0..game.grid.size {
        for c_idx in 0..game.grid.size {
            if game.grid.cells[r_idx][c_idx].is_some() {
                current_ball_count += 1;
            }
        }
    }
    assert_eq!(current_ball_count, 0, "Ball count should be 0 after line clear.");
    assert!(!game.game_over);
    assert_eq!(game.upcoming_balls.len(), 3);
}
