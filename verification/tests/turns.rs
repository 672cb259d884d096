use game_five_balls::ball::{Ball, BallColor};
use game_five_balls::game::{calculate_score_for_lines, Game};

fn put(game: &mut Game, row: usize, col: usize, color: BallColor) {
    assert!(game.grid.place_ball_at(row, col, color).is_some());
}

fn balls_on(game: &Game) -> usize {
    let mut count = 0;
    for r in 0..game.grid.size {
        for c in 0..game.grid.size {
            if game.grid.cells[r][c].is_some() {
                count += 1;
            }
        }
    }
    count
}

#[test]
fn nine_by_nine_move_completes_a_row_of_five() {
    let mut game = Game::new(9);
    for c in 0..4 {
        put(&mut game, 1, c, BallColor::Red);
    }
    put(&mut game, 0, 0, BallColor::Red);
    game.select_cell(0, 0);
    assert_eq!(game.selected_ball_pos, Some((0, 0)));
    game.select_cell(1, 4);
    assert_eq!(game.selected_ball_pos, None);
    for c in 0..5 {
        assert!(game.grid.cells[1][c].is_none());
    }
    assert!(game.grid.cells[0][0].is_none());
    assert_eq!(game.score, 6);
    assert_eq!(balls_on(&game), 0);
    assert_eq!(game.upcoming_balls.len(), 3);
    assert!(!game.game_over);
}

#[test]
fn two_by_two_board_fills_up_and_ends_the_game() {
    let mut game = Game::new(2);
    put(&mut game, 0, 0, BallColor::Red);
    put(&mut game, 0, 1, BallColor::Blue);
    put(&mut game, 1, 0, BallColor::Green);
    assert_eq!(game.grid.place_ball_at_random_empty(BallColor::Yellow), Ok((1, 1)));
    assert!(game.grid.place_ball_at_random_empty(BallColor::Yellow).is_err());
    assert!(game.grid.is_full());
    assert!(!game.game_over);
    game.check_game_over();
    assert!(game.game_over);
}

#[test]
fn check_game_over_twice_gives_the_same_flag() {
    let mut open = Game::new(2);
    put(&mut open, 0, 0, BallColor::Red);
    open.check_game_over();
    let once = open.game_over;
    open.check_game_over();
    assert_eq!(open.game_over, once);
    assert!(!once);

    let mut full = Game::new(1);
    put(&mut full, 0, 0, BallColor::Red);
    full.check_game_over();
    let once = full.game_over;
    full.check_game_over();
    assert_eq!(full.game_over, once);
    assert!(once);
}

#[test]
fn a_move_over_open_ground_is_made() {
    let mut game = Game::new(5);
    put(&mut game, 1, 1, BallColor::Red);
    game.select_cell(1, 1);
    game.select_cell(0, 0);
    assert_eq!(game.selected_ball_pos, None);
    assert_eq!(game.grid.cells[0][0], Some(Ball::new(1, BallColor::Red)));
    assert!(game.grid.cells[1][1].is_none());
    assert_eq!(game.score, 0);
    assert_eq!(game.upcoming_balls.len(), 3);
    assert_eq!(balls_on(&game), 1);
}

#[test]
fn a_move_without_a_line_brings_the_previewed_balls() {
    let mut game = Game::new(5);
    put(&mut game, 2, 2, BallColor::Red);
    game.upcoming_balls = vec![BallColor::Blue, BallColor::Green, BallColor::Yellow];
    game.select_cell(2, 2);
    game.select_cell(4, 4);
    assert_eq!(game.grid.cells[4][4], Some(Ball::new(1, BallColor::Red)));
    assert_eq!(balls_on(&game), 4);
    let mut seen = vec![];
    for r in 0..5 {
        for c in 0..5 {
            if let Some(ball) = game.grid.cells[r][c] {
                if ball.id > 1 {
                    seen.push((ball.id, ball.color));
                }
            }
        }
    }
    seen.sort_by_key(|entry| entry.0);
    assert_eq!(seen, vec![(2, BallColor::Blue), (3, BallColor::Green), (4, BallColor::Yellow)]);
    assert_eq!(game.score, 0);
    assert_eq!(game.upcoming_balls.len(), 3);
    assert_eq!(game.selected_ball_pos, None);
    assert!(!game.game_over);
}

#[test]
fn replenishment_that_fills_the_board_ends_the_game() {
    let mut game = Game::new(2);
    put(&mut game, 0, 0, BallColor::Red);
    put(&mut game, 0, 1, BallColor::Blue);
    game.upcoming_balls = vec![BallColor::Green, BallColor::Yellow, BallColor::Brown];
    game.select_cell(0, 0);
    game.select_cell(1, 0);
    assert_eq!(balls_on(&game), 4);
    assert!(game.game_over);
    assert_eq!(game.score, 0);
    assert_eq!(game.upcoming_balls.len(), 3);

    let board = game.grid.cells.clone();
    game.select_cell(0, 1);
    assert_eq!(game.selected_ball_pos, None);
    assert_eq!(game.grid.cells, board);
    game.add_random_balls(2);
    game.generate_upcoming_balls();
    game.initialize_game();
    assert_eq!(game.grid.cells, board);
    assert!(game.game_over);
}

#[test]
fn clicks_outside_the_board_change_nothing() {
    let mut game = Game::new(3);
    put(&mut game, 1, 1, BallColor::Red);
    game.select_cell(1, 1);
    game.select_cell(3, 0);
    game.select_cell(0, 3);
    assert_eq!(game.selected_ball_pos, Some((1, 1)));
    assert_eq!(balls_on(&game), 1);
}

#[test]
fn clicking_another_ball_moves_the_selection() {
    let mut game = Game::new(3);
    put(&mut game, 0, 0, BallColor::Red);
    put(&mut game, 2, 2, BallColor::Blue);
    game.select_cell(0, 0);
    game.select_cell(2, 2);
    assert_eq!(game.selected_ball_pos, Some((2, 2)));
    assert_eq!(balls_on(&game), 2);
}

#[test]
fn initialize_game_seeds_the_board_and_the_preview() {
    let mut game = Game::new(9);
    game.initialize_game();
    assert_eq!(balls_on(&game), 5);
    assert_eq!(game.upcoming_balls.len(), 3);
    assert_eq!(game.score, 0);
    assert!(!game.game_over);
    assert_eq!(game.grid.ball_count, 5);

    let mut tiny = Game::new(2);
    tiny.initialize_game();
    assert_eq!(balls_on(&tiny), 4);
    assert!(tiny.game_over);
}

#[test]
fn generate_upcoming_balls_draws_three_colours() {
    let mut game = Game::new(4);
    assert!(game.upcoming_balls.is_empty());
    game.generate_upcoming_balls();
    assert_eq!(game.upcoming_balls.len(), 3);
    game.game_over = true;
    let kept = game.upcoming_balls.clone();
    game.generate_upcoming_balls();
    assert_eq!(game.upcoming_balls, kept);
}

#[test]
fn score_grows_with_the_length_of_a_line() {
    let mut previous = 0;
    for len in 5..=12usize {
        let line: Vec<(usize, usize)> = (0..len).map(|c| (0, c)).collect();
        let score = calculate_score_for_lines(&vec![line]);
        assert_eq!(score as usize, (len - 4) * (len - 4) + len);
        assert!(score > previous);
        previous = score;
    }
    let line9: Vec<(usize, usize)> = (0..9).map(|c| (0, c)).collect();
    assert_eq!(calculate_score_for_lines(&vec![line9]), 34);
    for len in 0..5usize {
        let line: Vec<(usize, usize)> = (0..len).map(|c| (0, c)).collect();
        assert_eq!(calculate_score_for_lines(&vec![line]), 0);
    }
}

#[test]
fn crossing_lines_score_each_and_clear_once() {
    let mut game = Game::new(9);
    for c in 0..4 {
        put(&mut game, 4, c, BallColor::Green);
    }
    for r in 5..9 {
        put(&mut game, r, 4, BallColor::Green);
    }
    put(&mut game, 0, 8, BallColor::Green);
    put(&mut game, 0, 0, BallColor::Blue);
    game.select_cell(0, 8);
    game.select_cell(4, 4);
    assert_eq!(game.score, 12);
    assert_eq!(balls_on(&game), 1);
    assert_eq!(game.grid.cells[0][0], Some(Ball::new(10, BallColor::Blue)));
    for c in 0..5 {
        assert!(game.grid.cells[4][c].is_none());
    }
    for r in 4..9 {
        assert!(game.grid.cells[r][4].is_none());
    }
}

#[test]
fn a_diagonal_formed_by_a_move_is_scored() {
    let mut game = Game::new(6);
    for i in 0..4 {
        put(&mut game, i, i, BallColor::Brown);
    }
    put(&mut game, 5, 0, BallColor::Brown);
    game.select_cell(5, 0);
    game.select_cell(4, 4);
    assert_eq!(game.score, 6);
    assert_eq!(balls_on(&game), 0);
}
