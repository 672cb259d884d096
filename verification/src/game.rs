//! A session of the game: the board, the score, the preview of the balls to
//! come, the selection, and the sequence of one turn.

use crate::ball::{Ball, BallColor};
use crate::board::{
    lemma_full_no_vacancies, lemma_moved_vacancies, lemma_placed_vacancies, lemma_with_cell, Board,
    Pos,
};
use crate::grid::{covered, Grid};
use crate::lines::{all_lines, lines_model, pos_model};
use crate::pathfinding::{find_path, reachable};
use crate::scoring::{
    lemma_score_limit, lemma_total_score_prefix, lemma_total_score_push, line_score, total_score,
    turn_score_limit,
};
use crate::solver::Solver;
use vstd::prelude::*;

verus! {

/// Number of colours shown in the preview.
pub const PREVIEW_SIZE: usize = 3;

/// Number of balls put on the board when a session begins.
pub const INITIAL_BALLS: usize = 5;

/// `after` can come of `before` by putting down one new ball for each colour
/// of `colors` in turn, each on some cell that is empty at that moment, and
/// stopping as soon as the board is full.
pub open spec fn replenished(before: Board, colors: Seq<BallColor>, after: Board) -> bool
    decreases colors.len(),
{
    if colors.len() == 0 || before.is_full() {
        after == before
    } else {
        exists|p: Pos| #[trigger]
            before.vacant(p) && replenished(before.placed(p, colors[0]), colors.drop_first(), after)
    }
}

/// A board that is not full has an empty cell to count.
proof fn lemma_room_left(b: Board)
    requires
        b.well_formed(),
    ensures
        !b.is_full() ==> b.vacancies() >= 1,
{
    if !b.is_full() {
        let p = choose|p: Pos| #[trigger] b.in_bounds(p) && !b.occupied(p);
        lemma_placed_vacancies(b, p, BallColor::Red);
    }
}

/// Replenishment brings as many balls as were asked for, or as many as the
/// board had room for, and hands out one identity for each.
pub proof fn lemma_replenished_count(before: Board, colors: Seq<BallColor>, after: Board)
    requires
        before.square(),
        replenished(before, colors, after),
    ensures
        after.ball_count == before.ball_count + before.room_for(colors.len()),
        after.vacancies() + before.room_for(colors.len()) == before.vacancies(),
        after.size() == before.size(),
    decreases colors.len(),
{
    if colors.len() == 0 {
    } else if before.is_full() {
        lemma_full_no_vacancies(before);
    } else {
        let p = choose|p: Pos| #[trigger]
            before.vacant(p) && replenished(before.placed(p, colors[0]), colors.drop_first(), after);
        let next = before.placed(p, colors[0]);
        lemma_placed_vacancies(before, p, colors[0]);
        lemma_with_cell(
            before,
            p,
            Some(Ball { id: (before.ball_count + 1) as u32, color: colors[0] }),
        );
        assert(next.square());
        lemma_replenished_count(next, colors.drop_first(), after);
    }
}

/// The state of a session, apart from how it is stored.
pub struct Session {
    pub board: Board,
    pub score: nat,
    pub upcoming: Seq<BallColor>,
    pub selected: Option<Pos>,
    pub game_over: bool,
}

impl Session {
    /// The session after a look at whether the board is full. The flag is
    /// raised when it is, and never lowered.
    pub open spec fn checked(self) -> Session {
        Session { game_over: self.game_over || self.board.is_full(), ..self }
    }

    /// A click on `p` sets off a move: the game is on, `p` is an empty cell,
    /// and the selected ball can reach it.
    pub open spec fn moves_on(self, p: Pos) -> bool {
        &&& !self.game_over
        &&& self.board.vacant(p)
        &&& self.selected.is_some()
        &&& reachable(self.board, self.selected.unwrap(), p)
    }

    /// The session after a click on `p` that sets off no move. A click on a
    /// ball selects it, or deselects it if it was the selected one; any other
    /// click changes nothing.
    pub open spec fn clicked(self, p: Pos) -> Session {
        if !self.game_over && self.board.occupied(p) {
            Session {
                selected: if self.selected == Some(p) {
                    None
                } else {
                    Some(p)
                },
                ..self
            }
        } else {
            self
        }
    }

    /// `post` can come of `self` by the move that a click on `p` sets off,
    /// with `mid` as the board on which lines are looked for.
    ///
    /// The selected ball goes to `p`. If that forms a line, `mid` is the
    /// board right after the move; if not, the previewed balls are put down
    /// first. The lines of `mid` are scored and their cells emptied, the
    /// selection is dropped, the preview is drawn anew, and the game is over
    /// exactly if the board is then full.
    pub open spec fn turn(self, p: Pos, mid: Board, post: Session) -> bool {
        let moved = self.board.moved(self.selected.unwrap(), p);
        &&& if all_lines(moved).len() > 0 {
            mid == moved
        } else {
            replenished(moved, self.upcoming, mid)
        }
        &&& post.board == mid.cleared(covered(all_lines(mid)))
        &&& post.score == self.score + total_score(all_lines(mid))
        &&& post.selected.is_none()
        &&& post.upcoming.len() == PREVIEW_SIZE
        &&& post.game_over == post.board.is_full()
    }
}

/// Looking twice whether the board is full, with nothing done in between,
/// gives what looking once gives.
pub proof fn lemma_check_is_idempotent(session: Session)
    ensures
        session.checked().checked() == session.checked(),
{
}

/// Points for a batch of lines: each line of five or more balls counts for
/// itself; shorter ones count for nothing.
pub fn calculate_score_for_lines(lines_data: &[Vec<(usize, usize)>]) -> (score: u32)
    requires
        total_score(lines_model(lines_data@)) <= u32::MAX,
    ensures
        score == total_score(lines_model(lines_data@)),
{
    let ghost all = lines_model(lines_data@);
    let mut score: u32 = 0;
    let mut i: usize = 0;
    while i < lines_data.len()
        invariant
            i <= lines_data@.len(),
            all == lines_model(lines_data@),
            total_score(all) <= u32::MAX,
            score == total_score(all.subrange(0, i as int)),
        decreases lines_data@.len() - i,
    {
        let len = lines_data[i].len();
        proof {
            assert(all.subrange(0, i + 1) =~= all.subrange(0, i as int).push(all[i as int]));
            lemma_total_score_push(all.subrange(0, i as int), all[i as int]);
            lemma_total_score_prefix(all, i + 1);
            assert(all[i as int].len() == len);
            assert(line_score(len as nat) <= u32::MAX);
        }
        if len >= 5 {
            let extra = len - 4;
            assert(extra * extra + len <= u32::MAX);
            assert(extra * extra <= u32::MAX) by (nonlinear_arith)
                requires
                    extra * extra + len <= u32::MAX,
                    len >= 0,
            ;
            let points = extra * extra + len;
            score = score + (points as u32);
        }
        i += 1;
    }
    assert(all.subrange(0, i as int) =~= all);
    score
}

/// A session of the game.
#[derive(Debug)]
pub struct Game {
    pub grid: Grid,
    pub score: u32,
    pub upcoming_balls: Vec<BallColor>,
    pub solver: Solver,
    pub selected_ball_pos: Option<(usize, usize)>,
    pub game_over: bool,
}

impl View for Game {
    type V = Session;

    open spec fn view(&self) -> Session {
        Session {
            board: self.grid@,
            score: self.score as nat,
            upcoming: self.upcoming_balls@,
            selected: match self.selected_ball_pos {
                Some(p) => Some(pos_model(p)),
                None => None,
            },
            game_over: self.game_over,
        }
    }
}

impl Game {
    /// The grid is well formed.
    pub open spec fn well_formed(&self) -> bool {
        self.grid.well_formed()
    }

    /// A session on an empty board of side `grid_size`: no points, no
    /// preview yet, nothing selected, and the game is on.
    pub fn new(grid_size: usize) -> (game: Self)
        requires
            grid_size >= 1,
        ensures
            game.well_formed(),
            game.grid.size == grid_size,
            game@ == (Session {
                board: Board::empty(grid_size as nat),
                score: 0,
                upcoming: Seq::empty(),
                selected: None,
                game_over: false,
            }),
    {
        let game_grid = Grid::new(grid_size);
        let solver = Solver;
        Self {
            grid: game_grid,
            solver,
            score: 0,
            upcoming_balls: Vec::new(),
            selected_ball_pos: None,
            game_over: false,
        }
    }

    /// Draws a new preview, unless the game is over.
    pub fn generate_upcoming_balls(&mut self)
        ensures
            final(self).grid == old(self).grid,
            final(self).score == old(self).score,
            final(self).selected_ball_pos == old(self).selected_ball_pos,
            final(self).game_over == old(self).game_over,
            old(self).game_over ==> final(self).upcoming_balls == old(self).upcoming_balls,
            !old(self).game_over ==> final(self).upcoming_balls@.len() == PREVIEW_SIZE,
    {
        if self.game_over {
            return ;
        }
        let mut upcoming: Vec<BallColor> = Vec::new();
        let mut i: usize = 0;
        while i < PREVIEW_SIZE
            invariant
                i <= PREVIEW_SIZE,
                upcoming@.len() == i,
            decreases PREVIEW_SIZE - i,
        {
            upcoming.push(BallColor::random_color());
            i += 1;
        }
        self.upcoming_balls = upcoming;
    }

    /// Ends the game if the board is full. The flag is never lowered.
    pub fn check_game_over(&mut self)
        requires
            old(self).well_formed(),
        ensures
            final(self)@ == old(self)@.checked(),
            final(self).grid == old(self).grid,
            final(self).upcoming_balls == old(self).upcoming_balls,
            final(self).selected_ball_pos == old(self).selected_ball_pos,
            final(self).score == old(self).score,
    {
        if self.grid.is_full() {
            self.game_over = true;
        }
    }

    /// Puts down the previewed balls, one after the other, each on an empty
    /// cell chosen at random, until all are down or the board is full.
    fn place_upcoming_balls(&mut self)
        requires
            old(self).well_formed(),
            old(self).grid.ball_count + old(self).grid@.room_for(old(self).upcoming_balls@.len())
                <= u32::MAX,
        ensures
            final(self).well_formed(),
            final(self).grid.size == old(self).grid.size,
            replenished(old(self).grid@, old(self).upcoming_balls@, final(self).grid@),
            final(self).score == old(self).score,
            final(self).upcoming_balls == old(self).upcoming_balls,
            final(self).selected_ball_pos == old(self).selected_ball_pos,
            final(self).game_over == old(self).game_over,
    {
        let ghost before = self.grid@;
        let ghost colors = self.upcoming_balls@;
        let mut i: usize = 0;
        assert(colors.subrange(0, colors.len() as int) =~= colors);
        while i < self.upcoming_balls.len()
            invariant_except_break
                i <= colors.len(),
            invariant
                self.well_formed(),
                self.grid.size == old(self).grid.size,
                self.score == old(self).score,
                self.upcoming_balls == old(self).upcoming_balls,
                self.selected_ball_pos == old(self).selected_ball_pos,
                self.game_over == old(self).game_over,
                colors == self.upcoming_balls@,
                before == old(self).grid@,
                i <= colors.len(),
                self.grid.ball_count + self.grid@.room_for((colors.len() - i) as nat) <= u32::MAX,
                forall|target: Board| #[trigger]
                    replenished(self.grid@, colors.subrange(i as int, colors.len() as int), target)
                        ==> replenished(before, colors, target),
            ensures
                i == colors.len() || self.grid@.is_full(),
            decreases colors.len() - i,
        {
            let color = self.upcoming_balls[i];
            let ghost now = self.grid@;
            let ghost rest = colors.subrange(i as int, colors.len() as int);
            proof {
                lemma_room_left(now);
            }
            let placed = self.grid.place_ball_at_random_empty(color);
            if placed.is_err() {
                break ;
            }
            proof {
                let p = pos_model(placed.unwrap());
                lemma_placed_vacancies(now, p, color);
                assert(rest.drop_first() =~= colors.subrange(i + 1, colors.len() as int));
                assert forall|target: Board| #[trigger]
                    replenished(
                        self.grid@,
                        colors.subrange(i + 1, colors.len() as int),
                        target,
                    ) implies replenished(before, colors, target) by {
                    assert(now.vacant(p));
                    assert(replenished(now, rest, target));
                }
            }
            i += 1;
        }
        assert(replenished(
            self.grid@,
            colors.subrange(i as int, colors.len() as int),
            self.grid@,
        ));
    }

    /// Puts `count` balls of random colours on empty cells chosen at random,
    /// or as many as the board has room for, and then looks whether the
    /// board is full. Once the game is over this does nothing.
    pub fn add_random_balls(&mut self, count: usize)
        requires
            old(self).well_formed(),
            !old(self).game_over ==> old(self).grid.ball_count + old(self).grid@.room_for(
                count as nat,
            ) <= u32::MAX,
        ensures
            final(self).well_formed(),
            final(self).grid.size == old(self).grid.size,
            final(self).score == old(self).score,
            final(self).upcoming_balls == old(self).upcoming_balls,
            final(self).selected_ball_pos == old(self).selected_ball_pos,
            old(self).game_over ==> final(self).game_over && final(self).grid == old(self).grid,
            !old(self).game_over ==> final(self).game_over == final(self).grid@.is_full()
                && exists|colors: Seq<BallColor>|
                colors.len() == count && #[trigger] replenished(
                    old(self).grid@,
                    colors,
                    final(self).grid@,
                ),
    {
        if self.game_over {
            return ;
        }
        let ghost before = self.grid@;
        let ghost mut drawn: Seq<BallColor> = Seq::empty();
        let mut i: usize = 0;
        assert forall|rest: Seq<BallColor>, target: Board| #[trigger]
            replenished(self.grid@, rest, target) implies replenished(
            before,
            drawn + rest,
            target,
        ) by {
            assert(drawn + rest =~= rest);
        }
        while i < count
            invariant
                i <= count,
                self.well_formed(),
                self.grid.size == old(self).grid.size,
                self.score == old(self).score,
                self.upcoming_balls == old(self).upcoming_balls,
                self.selected_ball_pos == old(self).selected_ball_pos,
                !self.game_over,
                before == old(self).grid@,
                self.grid.ball_count + self.grid@.room_for((count - i) as nat) <= u32::MAX,
                drawn.len() == i,
                forall|rest: Seq<BallColor>, target: Board| #[trigger]
                    replenished(self.grid@, rest, target) ==> replenished(
                        before,
                        drawn + rest,
                        target,
                    ),
            ensures
                i == count || self.grid@.is_full(),
            decreases count - i,
        {
            let color = BallColor::random_color();
            let ghost now = self.grid@;
            let ghost earlier = drawn;
            proof {
                lemma_room_left(now);
            }
            let placed = self.grid.place_ball_at_random_empty(color);
            if placed.is_err() {
                break ;
            }
            proof {
                let p = pos_model(placed.unwrap());
                lemma_placed_vacancies(now, p, color);
                drawn = earlier.push(color);
                assert forall|rest: Seq<BallColor>, target: Board| #[trigger]
                    replenished(self.grid@, rest, target) implies replenished(
                    before,
                    drawn + rest,
                    target,
                ) by {
                    let longer = seq![color] + rest;
                    assert(longer.drop_first() =~= rest);
                    assert(longer[0] == color);
                    assert(now.vacant(p));
                    assert(replenished(now, longer, target));
                    assert(earlier + longer =~= drawn + rest);
                }
            }
            i += 1;
        }
        proof {
            let rest = Seq::new((count - i) as nat, |k: int| BallColor::Red);
            assert(replenished(self.grid@, rest, self.grid@));
            assert((drawn + rest).len() == count);
        }
        self.check_game_over();
    }

    /// Begins the game: puts the first balls on the board, draws the first
    /// preview, and looks whether the board is already full.
    pub fn initialize_game(&mut self)
        requires
            old(self).well_formed(),
            !old(self).game_over ==> old(self).grid.ball_count + old(self).grid@.room_for(
                INITIAL_BALLS as nat,
            ) <= u32::MAX,
        ensures
            final(self).well_formed(),
            final(self).grid.size == old(self).grid.size,
            final(self).score == old(self).score,
            final(self).selected_ball_pos == old(self).selected_ball_pos,
            old(self).game_over ==> final(self).game_over && final(self).grid == old(self).grid
                && final(self).upcoming_balls == old(self).upcoming_balls,
            !old(self).game_over ==> final(self).game_over == final(self).grid@.is_full()
                && exists|colors: Seq<BallColor>|
                colors.len() == INITIAL_BALLS && #[trigger] replenished(
                    old(self).grid@,
                    colors,
                    final(self).grid@,
                ),
            !final(self).game_over ==> final(self).upcoming_balls@.len() == PREVIEW_SIZE,
            final(self).game_over ==> final(self).upcoming_balls == old(self).upcoming_balls,
    {
        self.add_random_balls(INITIAL_BALLS);
        self.generate_upcoming_balls();
        self.check_game_over();
    }

    /// Scores the lines found on the board and empties their cells.
    fn settle_lines(&mut self, lines_formed: &Vec<Vec<(usize, usize)>>)
        requires
            old(self).well_formed(),
            lines_model(lines_formed@) == all_lines(old(self).grid@),
            old(self).score + turn_score_limit(old(self).grid.size as int) <= u32::MAX,
        ensures
            final(self).well_formed(),
            final(self).grid.size == old(self).grid.size,
            final(self).grid@ == old(self).grid@.cleared(covered(all_lines(old(self).grid@))),
            final(self).score == old(self).score + total_score(all_lines(old(self).grid@)),
            final(self).upcoming_balls == old(self).upcoming_balls,
            final(self).selected_ball_pos == old(self).selected_ball_pos,
            final(self).game_over == old(self).game_over,
    {
        proof {
            lemma_score_limit(self.grid@);
        }
        self.score += calculate_score_for_lines(lines_formed.as_slice());
        self.grid.remove_lines(lines_formed.as_slice());
    }

    /// The player points at a cell.
    ///
    /// Pointing at a ball selects it, or deselects it if it was selected.
    /// Pointing at an empty cell that the selected ball can reach takes the
    /// ball there and plays the turn out: lines formed by the move are
    /// scored and removed; if there are none, the previewed balls come onto
    /// the board and the lines they form are scored and removed; then a new
    /// preview is drawn and the game ends if the board is full. Any other
    /// click, and every click once the game is over, changes nothing.
    pub fn select_cell(&mut self, row: usize, col: usize)
        requires
            old(self).well_formed(),
            !old(self).game_over ==> old(self).grid.ball_count + old(self).grid@.room_for(
                old(self).upcoming_balls@.len(),
            ) <= u32::MAX,
            !old(self).game_over ==> old(self).score + turn_score_limit(
                old(self).grid.size as int,
            ) <= u32::MAX,
        ensures
            final(self).well_formed(),
            final(self).grid.size == old(self).grid.size,
            !old(self)@.moves_on(pos_model((row, col))) ==> final(self)@ == old(self)@.clicked(
                pos_model((row, col)),
            ),
            old(self)@.moves_on(pos_model((row, col))) ==> exists|mid: Board| #[trigger]
                old(self)@.turn(pos_model((row, col)), mid, final(self)@),
    {
        let ghost p = pos_model((row, col));
        let ghost pre = self@;
        if self.game_over {
            return ;
        }
        if !(row < self.grid.size && col < self.grid.size) {
            return ;
        }
        assert(pre.board.cells[row as int].len() == pre.board.size());
        if self.grid.cells[row][col].is_some() {
            let same = match self.selected_ball_pos {
                Some(selected_pos) => selected_pos.0 == row && selected_pos.1 == col,
                None => false,
            };
            if same {
                self.selected_ball_pos = None;
            } else {
                self.selected_ball_pos = Some((row, col));
            }
        } else {
            if let Some(selected_pos) = self.selected_ball_pos {
                if find_path(&self.grid, selected_pos, (row, col)).is_some() {
                    let ghost from = pos_model(selected_pos);
                    proof {
                        lemma_moved_vacancies(pre.board, from, p);
                    }
                    let moved = self.grid.move_ball(selected_pos, (row, col));
                    assert(moved.is_ok());
                    self.selected_ball_pos = None;
                    let mut lines_formed = Solver::scan_and_collect_lines_to_clear(&self.grid);
                    if lines_formed.len() == 0 {
                        self.place_upcoming_balls();
                        lines_formed = Solver::scan_and_collect_lines_to_clear(&self.grid);
                    }
                    let ghost mid = self.grid@;
                    self.settle_lines(&lines_formed);
                    self.generate_upcoming_balls();
                    self.check_game_over();
                    assert(pre.turn(p, mid, self@));
                }
            }
        }
    }
}

} // verus!
