//! The board as it is stored, and the operations that change it.

use crate::ball::{Ball, BallColor};
use crate::board::{
    lemma_cleared, lemma_cleared_none, lemma_cleared_twice, lemma_board_equal,
    lemma_moved_well_formed, lemma_placed_well_formed, lemma_with_cell, Board, Pos,
};
use crate::chance::random_below;
use crate::lines::{
    direction_lines, direction_lines_upto, lane_lines, lane_lines_upto, lane_of, lane_position,
    lemma_line_model_push, lemma_lines_model_push, lemma_run_closed, line_model, line_starts_at,
    lines_model, pos_model,
    orthogonal_lines, Direction, Lane, MIN_LINE_LEN,
};
use vstd::prelude::*;

verus! {

/// Why a board operation was refused.
#[derive(Debug, Copy, Clone, PartialEq, Eq, Structural)]
pub enum GridError {
    /// A coordinate lies outside the board.
    OutOfBounds,
    /// The cell that had to be empty holds a ball.
    CellOccupied,
    /// The cell that had to hold a ball is empty.
    CellEmpty,
    /// No cell is left for a new ball.
    BoardFull,
}

/// A square grid of cells. `ball_count` is the highest identity handed out.
#[derive(Debug, Clone)]
pub struct Grid {
    pub size: usize,
    pub cells: Vec<Vec<Option<Ball>>>,
    pub ball_count: u32,
}

impl View for Grid {
    type V = Board;

    open spec fn view(&self) -> Board {
        Board {
            cells: Seq::new(self.cells@.len(), |r: int| self.cells@[r]@),
            ball_count: self.ball_count as nat,
        }
    }
}

/// `p` comes before `q` when the cells are read row by row.
pub open spec fn row_major_before(p: Pos, q: Pos) -> bool {
    p.0 < q.0 || (p.0 == q.0 && p.1 < q.1)
}

/// `list` names the empty cells of the board, each once, row by row.
pub open spec fn is_vacancy_list(b: Board, list: Seq<Pos>) -> bool {
    &&& forall|k: int| 0 <= k < list.len() ==> b.vacant(#[trigger] list[k])
    &&& forall|p: Pos| #[trigger] b.vacant(p) ==> list.contains(p)
    &&& forall|i: int, j: int|
        0 <= i < j < list.len() ==> row_major_before(#[trigger] list[i], #[trigger] list[j])
}

/// The cells that lie on at least one of the lines.
pub open spec fn covered(lines: Seq<Seq<Pos>>) -> Set<Pos> {
    Set::new(|p: Pos| exists|k: int| 0 <= k < lines.len() && (#[trigger] lines[k]).contains(p))
}

/// What becomes of a request to take the ball on `from` to `to`.
pub open spec fn move_outcome(b: Board, from: Pos, to: Pos) -> Result<(), GridError> {
    if !b.in_bounds(from) || !b.in_bounds(to) {
        Err(GridError::OutOfBounds)
    } else if !b.occupied(from) {
        Err(GridError::CellEmpty)
    } else if b.occupied(to) {
        Err(GridError::CellOccupied)
    } else {
        Ok(())
    }
}

/// Once lines are removed, every cell that lay on one of them is empty, also
/// a cell where two lines cross, and every other cell is as it was.
pub proof fn lemma_lines_removed(b: Board, lines: Seq<Seq<Pos>>, p: Pos)
    requires
        b.well_formed(),
    ensures
        b.cleared(covered(lines)).well_formed(),
        covered(lines).contains(p) ==> b.cleared(covered(lines)).at(p).is_none(),
        !covered(lines).contains(p) ==> b.cleared(covered(lines)).at(p) == b.at(p),
        forall|k: int, i: int|
            0 <= k < lines.len() && 0 <= i < lines[k].len() ==> covered(lines).contains(
                #[trigger] lines[k][i],
            ),
{
    lemma_cleared(b, covered(lines));
    assert forall|k: int, i: int| 0 <= k < lines.len() && 0 <= i < lines[k].len() implies covered(
        lines,
    ).contains(#[trigger] lines[k][i]) by {
        assert(lines[k].contains(lines[k][i]));
    }
}

impl Grid {
    /// The stored size agrees with the cells, and the board is well formed.
    pub open spec fn well_formed(&self) -> bool {
        &&& self.size == self.cells@.len()
        &&& self@.well_formed()
    }

    /// A grid of side `size` with no ball on it.
    pub fn new(size: usize) -> (grid: Self)
        requires
            size >= 1,
        ensures
            grid.well_formed(),
            grid.size == size,
            grid@ == Board::empty(size as nat),
    {
        let mut cells: Vec<Vec<Option<Ball>>> = Vec::new();
        let mut r: usize = 0;
        while r < size
            invariant
                r <= size,
                cells@.len() == r,
                forall|i: int| 0 <= i < r ==> (#[trigger] cells@[i])@ == Seq::new(
                    size as nat,
                    |c: int| None::<Ball>,
                ),
            decreases size - r,
        {
            let mut row: Vec<Option<Ball>> = Vec::new();
            let mut c: usize = 0;
            while c < size
                invariant
                    c <= size,
                    row@.len() == c,
                    forall|j: int| 0 <= j < c ==> (#[trigger] row@[j]).is_none(),
                decreases size - c,
            {
                row.push(None);
                c += 1;
            }
            assert(row@ =~= Seq::new(size as nat, |c: int| None::<Ball>));
            cells.push(row);
            r += 1;
        }
        let grid = Self { size, cells, ball_count: 0 };
        assert(grid@.cells =~= Board::empty(size as nat).cells);
        grid
    }

    pub fn is_within_bounds(&self, row: usize, col: usize) -> (inside: bool)
        ensures
            inside == (row < self.size && col < self.size),
    {
        row < self.size && col < self.size
    }

    /// Hands out the next ball identity.
    pub fn get_next_ball_id(&mut self) -> (id: u32)
        requires
            old(self).ball_count < u32::MAX,
        ensures
            id == old(self).ball_count + 1,
            final(self).ball_count == id,
            final(self).size == old(self).size,
            final(self).cells == old(self).cells,
    {
        self.ball_count += 1;
        self.ball_count
    }

    /// The content of a cell; nothing outside the board.
    pub fn cell(&self, row: usize, col: usize) -> (content: Option<Ball>)
        requires
            self.well_formed(),
        ensures
            content == self@.at((row as int, col as int)),
    {
        if row < self.size && col < self.size {
            self.cells[row][col]
        } else {
            None
        }
    }

    /// Puts a new ball on the given cell if that cell exists and is empty.
    pub fn place_ball_at(&mut self, row: usize, col: usize, color: BallColor) -> (id: Option<u32>)
        requires
            old(self).well_formed(),
            old(self)@.vacant((row as int, col as int)) ==> old(self).ball_count < u32::MAX,
        ensures
            final(self).well_formed(),
            final(self).size == old(self).size,
            old(self)@.vacant((row as int, col as int)) ==> id == Some(
                (old(self).ball_count + 1) as u32,
            ) && final(self)@ == old(self)@.placed((row as int, col as int), color),
            !old(self)@.vacant((row as int, col as int)) ==> id.is_none() && *final(self) == *old(
                self,
            ),
    {
        if self.is_within_bounds(row, col) && self.cells[row][col].is_none() {
            let id = self.get_next_ball_id();
            assert(self@.cells[row as int].len() == self.size);
            self.cells[row][col] = Some(Ball::new(id, color));
            proof {
                let p: Pos = (row as int, col as int);
                assert(self@.cells =~= old(self)@.placed(p, color).cells);
                lemma_placed_well_formed(old(self)@, p, color);
            }
            Some(id)
        } else {
            None
        }
    }

    /// Whether no cell is empty.
    pub fn is_full(&self) -> (full: bool)
        requires
            self.well_formed(),
        ensures
            full == self@.is_full(),
    {
        let ghost b = self@;
        let mut r: usize = 0;
        while r < self.size
            invariant
                r <= self.size,
                self.well_formed(),
                b == self@,
                forall|p: Pos| 0 <= p.0 < r && 0 <= p.1 < b.size() ==> #[trigger] b.occupied(p),
            decreases self.size - r,
        {
            let mut c: usize = 0;
            while c < self.size
                invariant
                    r < self.size,
                    c <= self.size,
                    self.well_formed(),
                    b == self@,
                    forall|p: Pos|
                        0 <= p.0 < r && 0 <= p.1 < b.size() ==> #[trigger] b.occupied(p),
                    forall|p: Pos| p.0 == r && 0 <= p.1 < c ==> #[trigger] b.occupied(p),
                decreases self.size - c,
            {
                assert(b.cells[r as int].len() == b.size());
                if self.cells[r][c].is_none() {
                    assert(b.in_bounds((r as int, c as int)));
                    assert(!b.occupied((r as int, c as int)));
                    return false;
                }
                c += 1;
            }
            r += 1;
        }
        assert forall|p: Pos| #[trigger] b.in_bounds(p) implies b.occupied(p) by {}
        true
    }

    /// The empty cells, row by row from the top, each row from the left.
    pub fn empty_cells(&self) -> (empties: Vec<(usize, usize)>)
        requires
            self.well_formed(),
        ensures
            is_vacancy_list(self@, line_model(empties@)),
    {
        let ghost b = self@;
        let mut empty_cells: Vec<(usize, usize)> = Vec::new();
        let mut r: usize = 0;
        while r < self.size
            invariant
                r <= self.size,
                self.well_formed(),
                b == self@,
                forall|k: int|
                    0 <= k < empty_cells@.len() ==> b.vacant(
                        pos_model(#[trigger] empty_cells@[k]),
                    ) && empty_cells@[k].0 < r,
                forall|i: int, j: int|
                    0 <= i < j < empty_cells@.len() ==> row_major_before(
                        pos_model(#[trigger] empty_cells@[i]),
                        pos_model(#[trigger] empty_cells@[j]),
                    ),
                forall|p: Pos|
                    #[trigger] b.vacant(p) && p.0 < r ==> exists|k: int|
                        0 <= k < empty_cells@.len() && pos_model(#[trigger] empty_cells@[k]) == p,
            decreases self.size - r,
        {
            let mut c: usize = 0;
            while c < self.size
                invariant
                    r < self.size,
                    c <= self.size,
                    self.well_formed(),
                    b == self@,
                    forall|k: int|
                        0 <= k < empty_cells@.len() ==> b.vacant(
                            pos_model(#[trigger] empty_cells@[k]),
                        ) && (empty_cells@[k].0 < r || (empty_cells@[k].0 == r
                            && empty_cells@[k].1 < c)),
                    forall|i: int, j: int|
                        0 <= i < j < empty_cells@.len() ==> row_major_before(
                            pos_model(#[trigger] empty_cells@[i]),
                            pos_model(#[trigger] empty_cells@[j]),
                        ),
                    forall|p: Pos|
                        #[trigger] b.vacant(p) && (p.0 < r || (p.0 == r && p.1 < c))
                            ==> exists|k: int|
                            0 <= k < empty_cells@.len() && pos_model(#[trigger] empty_cells@[k])
                                == p,
                decreases self.size - c,
            {
                assert(b.cells[r as int].len() == b.size());
                let ghost earlier = empty_cells@;
                if self.cells[r][c].is_none() {
                    empty_cells.push((r, c));
                    proof {
                        assert forall|p: Pos|
                            #[trigger] b.vacant(p) && (p.0 < r || (p.0 == r && p.1 < c + 1))
                                implies exists|k: int|
                            0 <= k < empty_cells@.len() && pos_model(#[trigger] empty_cells@[k])
                                == p by {
                            if p.0 == r && p.1 == c {
                                assert(pos_model(empty_cells@[earlier.len() as int]) == p);
                            } else {
                                let k = choose|k: int|
                                    0 <= k < earlier.len() && pos_model(#[trigger] earlier[k])
                                        == p;
                                assert(empty_cells@[k] == earlier[k]);
                            }
                        }
                    }
                }
                c += 1;
            }
            r += 1;
        }
        proof {
            let list = line_model(empty_cells@);
            assert forall|p: Pos| #[trigger] b.vacant(p) implies list.contains(p) by {
                let k = choose|k: int|
                    0 <= k < empty_cells@.len() && pos_model(#[trigger] empty_cells@[k]) == p;
                assert(list[k] == p);
            }
        }
        empty_cells
    }

    /// Puts a new ball of the given colour on an empty cell chosen at random
    /// and says where. Exactly when the board is full this is refused, and
    /// nothing changes.
    pub fn place_ball_at_random_empty(&mut self, color: BallColor) -> (placed: Result<
        (usize, usize),
        GridError,
    >)
        requires
            old(self).well_formed(),
            !old(self)@.is_full() ==> old(self).ball_count < u32::MAX,
        ensures
            final(self).well_formed(),
            final(self).size == old(self).size,
            old(self)@.is_full() ==> placed == Err::<(usize, usize), GridError>(
                GridError::BoardFull,
            ) && *final(self) == *old(self),
            !old(self)@.is_full() ==> placed.is_ok() && old(self)@.vacant(
                pos_model(placed.unwrap()),
            ) && final(self)@ == old(self)@.placed(pos_model(placed.unwrap()), color),
    {
        let empty_cells = self.empty_cells();
        let ghost list = line_model(empty_cells@);
        if empty_cells.len() == 0 {
            proof {
                assert forall|p: Pos| #[trigger] self@.in_bounds(p) implies self@.occupied(p) by {
                    if !self@.occupied(p) {
                        assert(self@.vacant(p));
                        assert(list.contains(p));
                    }
                }
            }
            return Err(GridError::BoardFull);
        }
        let k: usize = random_below(empty_cells.len());
        let (row, col) = empty_cells[k];
        proof {
            assert(list[k as int] == pos_model((row, col)));
            assert(self@.vacant(pos_model((row, col))));
            assert(!self@.occupied(pos_model((row, col))));
        }
        self.place_ball_at(row, col, color);
        Ok((row, col))
    }

    /// Takes the ball on `from` to the empty cell `to`. Whether the ball
    /// could get there by itself is not asked here.
    pub fn move_ball(&mut self, from: (usize, usize), to: (usize, usize)) -> (moved: Result<
        (),
        GridError,
    >)
        requires
            old(self).well_formed(),
        ensures
            final(self).well_formed(),
            final(self).size == old(self).size,
            moved == move_outcome(old(self)@, pos_model(from), pos_model(to)),
            moved.is_ok() ==> final(self)@ == old(self)@.moved(pos_model(from), pos_model(to)),
            moved.is_err() ==> *final(self) == *old(self),
    {
        let ghost b = self@;
        if !self.is_within_bounds(from.0, from.1) || !self.is_within_bounds(to.0, to.1) {
            return Err(GridError::OutOfBounds);
        }
        assert(b.cells[from.0 as int].len() == b.size());
        assert(b.cells[to.0 as int].len() == b.size());
        let ball = self.cells[from.0][from.1];
        if ball.is_none() {
            return Err(GridError::CellEmpty);
        }
        if self.cells[to.0][to.1].is_some() {
            return Err(GridError::CellOccupied);
        }
        self.cells[to.0][to.1] = ball;
        assert(self@.cells =~= b.with_cell(pos_model(to), b.at(pos_model(from))).cells);
        proof {
            lemma_with_cell(b, pos_model(to), b.at(pos_model(from)));
        }
        assert(self@.cells[from.0 as int].len() == b.size());
        self.cells[from.0][from.1] = None;
        proof {
            assert(self@.cells =~= b.moved(pos_model(from), pos_model(to)).cells);
            lemma_moved_well_formed(b, pos_model(from), pos_model(to));
        }
        Ok(())
    }

    /// Empties every listed cell. Positions outside the board, positions
    /// listed twice and cells already empty do no harm.
    pub fn clear_balls(&mut self, ball_coords: &Vec<(usize, usize)>)
        requires
            old(self).well_formed(),
        ensures
            final(self).well_formed(),
            final(self).size == old(self).size,
            final(self)@ == old(self)@.cleared(line_model(ball_coords@).to_set()),
    {
        let ghost b = self@;
        let mut i: usize = 0;
        proof {
            lemma_cleared_none(b);
            assert(line_model(ball_coords@.subrange(0, 0)).to_set() =~= Set::<Pos>::empty());
        }
        while i < ball_coords.len()
            invariant
                i <= ball_coords@.len(),
                b.well_formed(),
                self.size == b.size(),
                self.well_formed(),
                self@ == b.cleared(line_model(ball_coords@.subrange(0, i as int)).to_set()),
            decreases ball_coords@.len() - i,
        {
            let (row, col) = ball_coords[i];
            let ghost p = pos_model((row, col));
            let ghost gone = line_model(ball_coords@.subrange(0, i as int)).to_set();
            let ghost more = line_model(ball_coords@.subrange(0, i + 1)).to_set();
            let ghost now = self@;
            proof {
                assert(line_model(ball_coords@.subrange(0, i + 1)) =~= line_model(
                    ball_coords@.subrange(0, i as int),
                ).push(p));
                assert(more =~= gone.insert(p)) by {
                    let shorter = line_model(ball_coords@.subrange(0, i as int));
                    let longer = shorter.push(p);
                    assert forall|q: Pos| more.contains(q) <==> gone.insert(p).contains(q) by {
                        if longer.contains(q) {
                            let k = choose|k: int| 0 <= k < longer.len() && longer[k] == q;
                            if k < shorter.len() {
                                assert(shorter[k] == q);
                            }
                        }
                        if shorter.contains(q) {
                            let k = choose|k: int| 0 <= k < shorter.len() && shorter[k] == q;
                            assert(longer[k] == q);
                        }
                        assert(longer[shorter.len() as int] == p);
                    }
                }
                lemma_cleared(b, gone);
                lemma_cleared(b, more);
            }
            if self.is_within_bounds(row, col) {
                assert(now.cells[row as int].len() == now.size());
                self.cells[row][col] = None;
                proof {
                    assert(self@.cells =~= now.with_cell(p, None).cells);
                    lemma_with_cell(now, p, None);
                    lemma_board_equal(self@, b.cleared(more));
                }
            } else {
                proof {
                    lemma_board_equal(self@, b.cleared(more));
                }
            }
            i += 1;
        }
        assert(ball_coords@.subrange(0, i as int) =~= ball_coords@);
    }

    /// Empties every cell that lies on one of the lines. A cell shared by
    /// several lines is emptied like any other.
    pub fn remove_lines(&mut self, lines_to_remove: &[Vec<(usize, usize)>])
        requires
            old(self).well_formed(),
        ensures
            final(self).well_formed(),
            final(self).size == old(self).size,
            final(self)@ == old(self)@.cleared(covered(lines_model(lines_to_remove@))),
    {
        let ghost b = self@;
        let mut i: usize = 0;
        proof {
            lemma_cleared_none(b);
            assert(covered(lines_model(lines_to_remove@.subrange(0, 0))) =~= Set::<Pos>::empty());
        }
        while i < lines_to_remove.len()
            invariant
                i <= lines_to_remove@.len(),
                b.well_formed(),
                self.size == b.size(),
                self.well_formed(),
                self@ == b.cleared(covered(lines_model(lines_to_remove@.subrange(0, i as int)))),
            decreases lines_to_remove@.len() - i,
        {
            let ghost gone = covered(lines_model(lines_to_remove@.subrange(0, i as int)));
            let ghost line = line_model(lines_to_remove@[i as int]@);
            proof {
                lemma_cleared_twice(b, gone, line.to_set());
                let shorter = lines_model(lines_to_remove@.subrange(0, i as int));
                let longer = lines_model(lines_to_remove@.subrange(0, i + 1));
                assert(longer =~= shorter.push(line));
                assert(covered(longer) =~= gone.union(line.to_set())) by {
                    assert forall|q: Pos| covered(longer).contains(q) <==> gone.union(
                        line.to_set(),
                    ).contains(q) by {
                        if covered(longer).contains(q) {
                            let k = choose|k: int|
                                0 <= k < longer.len() && (#[trigger] longer[k]).contains(q);
                            if k < shorter.len() {
                                assert(shorter[k].contains(q));
                            }
                        }
                        if covered(shorter).contains(q) {
                            let k = choose|k: int|
                                0 <= k < shorter.len() && (#[trigger] shorter[k]).contains(q);
                            assert(longer[k].contains(q));
                        }
                        if line.contains(q) {
                            assert(longer[shorter.len() as int].contains(q));
                        }
                    }
                }
            }
            self.clear_balls(&lines_to_remove[i]);
            i += 1;
        }
        assert(lines_to_remove@.subrange(0, i as int) =~= lines_to_remove@);
    }

    /// Appends to `out` the lines of one lane, in the order met. A run is
    /// gathered cell by cell and handed over when it ends.
    fn collect_lane(
        &self,
        dir: Direction,
        r0: usize,
        c0: usize,
        len: usize,
        out: &mut Vec<Vec<(usize, usize)>>,
    )
        requires
            self.well_formed(),
            (Lane { dir, origin: (r0 as int, c0 as int), len: len as int }).lies_on(self@),
        ensures
            lines_model(final(out)@) == lines_model(old(out)@) + lane_lines(
                self@,
                Lane { dir, origin: (r0 as int, c0 as int), len: len as int },
            ),
    {
        let ghost lane = Lane { dir, origin: (r0 as int, c0 as int), len: len as int };
        let ghost b = self@;
        let ghost before = lines_model(out@);
        let mut current_line: Vec<(usize, usize)> = Vec::new();
        let mut current_color: Option<BallColor> = None;
        let mut j: usize = 0;
        assert(lines_model(out@) =~= before + lane_lines_upto(b, lane, 0));
        while j < len
            invariant
                j <= len,
                self.well_formed(),
                b == self@,
                lane == (Lane { dir, origin: (r0 as int, c0 as int), len: len as int }),
                lane.lies_on(b),
                current_line@.len() <= j,
                line_model(current_line@) == lane.cells(
                    j - current_line@.len(),
                    current_line@.len() as nat,
                ),
                current_color.is_none() <==> current_line@.len() == 0,
                current_line@.len() == 0 && j > 0 ==> b.color_at(lane.cell(j - 1)).is_none(),
                current_line@.len() > 0 ==> {
                    let s = j - current_line@.len();
                    &&& forall|k: int|
                        s <= k < j ==> b.color_at(#[trigger] lane.cell(k)) == current_color
                    &&& (s == 0 || b.color_at(lane.cell(s - 1)) != current_color)
                },
                lines_model(out@) == before + lane_lines_upto(b, lane, j - current_line@.len()),
            decreases len - j,
        {
            let ghost s = j - current_line@.len();
            let ghost n = current_line@.len();
            let ghost upto_s = lane_lines_upto(b, lane, s);
            assert(b.in_bounds(lane.cell(j as int)));
            let (r, c) = lane_position(dir, r0, c0, j);
            assert(pos_model((r, c)) == lane.cell(j as int));
            assert(b.cells[r as int].len() == b.size());
            let continues = match (&self.cells[r][c], current_color) {
                (Some(ball), Some(color)) => ball.color == color,
                _ => false,
            };
            assert(continues <==> (n > 0 && b.color_at(lane.cell(j as int)) == current_color));
            if continues {
                let ghost gathered = current_line@;
                current_line.push((r, c));
                proof {
                    lemma_line_model_push(gathered, (r, c));
                    assert(lane.cells(s, n).push(lane.cell(j as int)) =~= lane.cells(
                        s,
                        (n + 1) as nat,
                    ));
                }
            } else {
                proof {
                    if n > 0 {
                        lemma_run_closed(b, lane, s, j as int, current_color.unwrap());
                    }
                }
                if current_line.len() >= MIN_LINE_LEN {
                    proof {
                        lemma_lines_model_push(out@, current_line);
                        assert((before + upto_s).push(line_model(current_line@)) =~= before
                            + upto_s.push(line_model(current_line@)));
                    }
                    out.push(current_line);
                }
                assert(lines_model(out@) == before + lane_lines_upto(b, lane, j as int));
                match &self.cells[r][c] {
                    Some(ball) => {
                        current_line = Vec::new();
                        current_line.push((r, c));
                        current_color = Some(ball.color);
                        assert(line_model(current_line@) =~= lane.cells(j as int, 1));
                    },
                    None => {
                        current_line = Vec::new();
                        current_color = None;
                        assert(!line_starts_at(b, lane, j as int));
                        assert(line_model(current_line@) =~= lane.cells(j + 1, 0));
                    },
                }
            }
            j += 1;
        }
        proof {
            let s = j - current_line@.len();
            if current_line@.len() > 0 {
                lemma_run_closed(b, lane, s, j as int, current_color.unwrap());
            }
        }
        if current_line.len() >= MIN_LINE_LEN {
            proof {
                let upto_s = lane_lines_upto(b, lane, j - current_line@.len());
                lemma_lines_model_push(out@, current_line);
                assert((before + upto_s).push(line_model(current_line@)) =~= before + upto_s.push(
                    line_model(current_line@),
                ));
            }
            out.push(current_line);
        }
    }

    /// The lines along rows, then those along columns: every run of five or
    /// more balls of one colour, each once and whole.
    pub fn check_lines(&self) -> (lines: Vec<Vec<(usize, usize)>>)
        requires
            self.well_formed(),
        ensures
            lines_model(lines@) == orthogonal_lines(self@),
    {
        let ghost b = self@;
        let mut all_lines_coords: Vec<Vec<(usize, usize)>> = Vec::new();
        let mut r: usize = 0;
        assert(lines_model(all_lines_coords@) =~= direction_lines_upto(b, Direction::Right, 0));
        while r < self.size
            invariant
                r <= self.size,
                self.well_formed(),
                b == self@,
                lines_model(all_lines_coords@) == direction_lines_upto(
                    b,
                    Direction::Right,
                    r as int,
                ),
            decreases self.size - r,
        {
            assert(lane_of(b.size(), Direction::Right, r as int).lies_on(b));
            self.collect_lane(Direction::Right, r, 0, self.size, &mut all_lines_coords);
            r += 1;
        }
        let mut c: usize = 0;
        assert(lines_model(all_lines_coords@) =~= direction_lines(b, Direction::Right)
            + direction_lines_upto(b, Direction::Down, 0));
        while c < self.size
            invariant
                c <= self.size,
                self.well_formed(),
                b == self@,
                lines_model(all_lines_coords@) == direction_lines(b, Direction::Right)
                    + direction_lines_upto(b, Direction::Down, c as int),
            decreases self.size - c,
        {
            assert(lane_of(b.size(), Direction::Down, c as int).lies_on(b));
            let ghost so_far = direction_lines_upto(b, Direction::Down, c as int);
            let ghost lane = lane_of(b.size(), Direction::Down, c as int);
            self.collect_lane(Direction::Down, 0, c, self.size, &mut all_lines_coords);
            assert((direction_lines(b, Direction::Right) + so_far) + lane_lines(b, lane)
                =~= direction_lines(b, Direction::Right) + (so_far + lane_lines(b, lane)));
            c += 1;
        }
        all_lines_coords
    }
}

} // verus!
