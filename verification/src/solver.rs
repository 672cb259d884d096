//! Line detection over a whole board, in all four directions.

use crate::ball::BallColor;
use crate::grid::Grid;
use crate::lines::{
    all_lines, direction_lines, direction_lines_upto, lane_lines, lane_lines_upto, lane_of,
    lane_position, lemma_line_model_push, lemma_lines_model_concat, lemma_lines_model_push,
    lemma_run_closed, line_model,
    line_starts_at, lines_model, Direction, Lane, MIN_LINE_LEN,
};
use vstd::prelude::*;

verus! {

/// A stretch of balls of one colour while it is being followed: its colour,
/// how many balls it has so far, and where they lie.
#[derive(Debug, Clone)]
pub struct BallSequence {
    pub color: BallColor,
    pub count: usize,
    pub positions: Vec<(usize, usize)>,
}

impl BallSequence {
    pub fn new(color: BallColor, count: usize, positions: Vec<(usize, usize)>) -> (sequence: Self)
        ensures
            sequence.color == color,
            sequence.count == count,
            sequence.positions == positions,
    {
        Self { color, count, positions }
    }

    /// Counts one more ball.
    pub fn increment(&mut self)
        requires
            old(self).count < usize::MAX,
        ensures
            final(self).count == old(self).count + 1,
            final(self).color == old(self).color,
            final(self).positions == old(self).positions,
    {
        self.count += 1;
    }

    pub fn is_five_or_more(&self) -> (enough: bool)
        ensures
            enough == (self.count >= MIN_LINE_LEN),
    {
        self.count >= 5
    }
}

/// The line detector. It holds no state of its own.
#[derive(Debug, Copy, Clone)]
pub struct Solver;

impl Solver {
    /// Appends to `out` the lines of one lane, in the order met. From each
    /// ball that begins a run the run is followed to its end, and the walk
    /// goes on behind it.
    fn follow_lane(
        grid: &Grid,
        dir: Direction,
        r0: usize,
        c0: usize,
        len: usize,
        out: &mut Vec<Vec<(usize, usize)>>,
    )
        requires
            grid.well_formed(),
            (Lane { dir, origin: (r0 as int, c0 as int), len: len as int }).lies_on(grid@),
        ensures
            lines_model(final(out)@) == lines_model(old(out)@) + lane_lines(
                grid@,
                Lane { dir, origin: (r0 as int, c0 as int), len: len as int },
            ),
    {
        let ghost lane = Lane { dir, origin: (r0 as int, c0 as int), len: len as int };
        let ghost b = grid@;
        let ghost before = lines_model(out@);
        let mut j: usize = 0;
        assert(lines_model(out@) =~= before + lane_lines_upto(b, lane, 0));
        while j < len
            invariant
                j <= len,
                grid.well_formed(),
                b == grid@,
                lane == (Lane { dir, origin: (r0 as int, c0 as int), len: len as int }),
                lane.lies_on(b),
                0 < j < len ==> b.color_at(lane.cell(j - 1)).is_none() || b.color_at(
                    lane.cell(j - 1),
                ) != b.color_at(lane.cell(j as int)),
                lines_model(out@) == before + lane_lines_upto(b, lane, j as int),
            decreases len - j,
        {
            assert(b.in_bounds(lane.cell(j as int)));
            let (r, c) = lane_position(dir, r0, c0, j);
            assert(b.cells[r as int].len() == b.size());
            match &grid.cells[r][c] {
                None => {
                    assert(!line_starts_at(b, lane, j as int));
                    j += 1;
                },
                Some(ball) => {
                    let color = ball.color;
                    let mut first: Vec<(usize, usize)> = Vec::new();
                    first.push((r, c));
                    let mut sequence = BallSequence::new(color, 1, first);
                    assert(line_model(sequence.positions@) =~= lane.cells(j as int, 1));
                    let mut k: usize = j + 1;
                    loop
                        invariant
                            j < k <= len,
                            grid.well_formed(),
                            b == grid@,
                            lane == (Lane {
                                dir,
                                origin: (r0 as int, c0 as int),
                                len: len as int,
                            }),
                            lane.lies_on(b),
                            sequence.color == color,
                            sequence.count == k - j,
                            line_model(sequence.positions@) == lane.cells(
                                j as int,
                                (k - j) as nat,
                            ),
                            forall|i: int|
                                j <= i < k ==> b.color_at(#[trigger] lane.cell(i)) == Some(color),
                        ensures
                            j < k <= len,
                            sequence.count == k - j,
                            line_model(sequence.positions@) == lane.cells(
                                j as int,
                                (k - j) as nat,
                            ),
                            forall|i: int|
                                j <= i < k ==> b.color_at(#[trigger] lane.cell(i)) == Some(color),
                            k == len || b.color_at(lane.cell(k as int)) != Some(color),
                        decreases len - k,
                    {
                        if k >= len {
                            break ;
                        }
                        assert(b.in_bounds(lane.cell(k as int)));
                        let (nr, nc) = lane_position(dir, r0, c0, k);
                        assert(b.cells[nr as int].len() == b.size());
                        let same = match &grid.cells[nr][nc] {
                            Some(next) => next.color == color,
                            None => false,
                        };
                        if !same {
                            break ;
                        }
                        let ghost followed = sequence.positions@;
                        sequence.positions.push((nr, nc));
                        sequence.increment();
                        proof {
                            lemma_line_model_push(followed, (nr, nc));
                            assert(lane.cells(j as int, (k - j) as nat).push(lane.cell(k as int))
                                =~= lane.cells(j as int, (k + 1 - j) as nat));
                        }
                        k += 1;
                    }
                    proof {
                        lemma_run_closed(b, lane, j as int, k as int, color);
                    }
                    if sequence.is_five_or_more() {
                        proof {
                            let upto = lane_lines_upto(b, lane, j as int);
                            lemma_lines_model_push(out@, sequence.positions);
                            assert((before + upto).push(line_model(sequence.positions@)) =~= before
                                + upto.push(line_model(sequence.positions@)));
                        }
                        out.push(sequence.positions);
                    }
                    j = k;
                },
            }
        }
    }

    /// The lines along rows, from the top row down.
    pub fn find_horizontal_lines(grid: &Grid) -> (lines: Vec<Vec<(usize, usize)>>)
        requires
            grid.well_formed(),
        ensures
            lines_model(lines@) == direction_lines(grid@, Direction::Right),
    {
        let ghost b = grid@;
        let mut lines_to_clear: Vec<Vec<(usize, usize)>> = Vec::new();
        let n = grid.size;
        let mut r: usize = 0;
        assert(lines_model(lines_to_clear@) =~= direction_lines_upto(b, Direction::Right, 0));
        while r < n
            invariant
                r <= n,
                n == grid.size,
                grid.well_formed(),
                b == grid@,
                lines_model(lines_to_clear@) == direction_lines_upto(b, Direction::Right, r as int),
            decreases n - r,
        {
            assert(lane_of(b.size(), Direction::Right, r as int).lies_on(b));
            Self::follow_lane(grid, Direction::Right, r, 0, n, &mut lines_to_clear);
            r += 1;
        }
        lines_to_clear
    }

    /// The lines along columns, from the left column on.
    pub fn find_vertical_lines(grid: &Grid) -> (lines: Vec<Vec<(usize, usize)>>)
        requires
            grid.well_formed(),
        ensures
            lines_model(lines@) == direction_lines(grid@, Direction::Down),
    {
        let ghost b = grid@;
        let mut lines_to_clear: Vec<Vec<(usize, usize)>> = Vec::new();
        let n = grid.size;
        let mut c: usize = 0;
        assert(lines_model(lines_to_clear@) =~= direction_lines_upto(b, Direction::Down, 0));
        while c < n
            invariant
                c <= n,
                n == grid.size,
                grid.well_formed(),
                b == grid@,
                lines_model(lines_to_clear@) == direction_lines_upto(b, Direction::Down, c as int),
            decreases n - c,
        {
            assert(lane_of(b.size(), Direction::Down, c as int).lies_on(b));
            Self::follow_lane(grid, Direction::Down, 0, c, n, &mut lines_to_clear);
            c += 1;
        }
        lines_to_clear
    }

    /// The lines on the diagonals that fall to the right: first those that
    /// start on the top row, then those that start on the left column.
    pub fn find_diagonals_top_left_to_bottom_right(grid: &Grid) -> (lines: Vec<
        Vec<(usize, usize)>,
    >)
        requires
            grid.well_formed(),
        ensures
            lines_model(lines@) == direction_lines(grid@, Direction::DownRight),
    {
        let ghost b = grid@;
        let mut lines_to_clear: Vec<Vec<(usize, usize)>> = Vec::new();
        let n = grid.size;
        let mut start_c: usize = 0;
        assert(lines_model(lines_to_clear@) =~= direction_lines_upto(b, Direction::DownRight, 0));
        while start_c < n
            invariant
                start_c <= n,
                n == grid.size,
                grid.well_formed(),
                b == grid@,
                lines_model(lines_to_clear@) == direction_lines_upto(
                    b,
                    Direction::DownRight,
                    start_c as int,
                ),
            decreases n - start_c,
        {
            assert(lane_of(b.size(), Direction::DownRight, start_c as int).lies_on(b));
            Self::follow_lane(
                grid,
                Direction::DownRight,
                0,
                start_c,
                n - start_c,
                &mut lines_to_clear,
            );
            start_c += 1;
        }
        let mut start_r: usize = 1;
        while start_r < n
            invariant
                1 <= start_r <= n,
                n == grid.size,
                grid.well_formed(),
                b == grid@,
                lines_model(lines_to_clear@) == direction_lines_upto(
                    b,
                    Direction::DownRight,
                    n - 1 + start_r,
                ),
            decreases n - start_r,
        {
            assert(lane_of(b.size(), Direction::DownRight, n - 1 + start_r).lies_on(b));
            Self::follow_lane(
                grid,
                Direction::DownRight,
                start_r,
                0,
                n - start_r,
                &mut lines_to_clear,
            );
            start_r += 1;
        }
        lines_to_clear
    }

    /// The lines on the diagonals that fall to the left: first those that
    /// start on the top row, then those that start on the right column.
    pub fn find_diagonals_top_right_to_bottom_left(grid: &Grid) -> (lines: Vec<
        Vec<(usize, usize)>,
    >)
        requires
            grid.well_formed(),
        ensures
            lines_model(lines@) == direction_lines(grid@, Direction::DownLeft),
    {
        let ghost b = grid@;
        let mut lines_to_clear: Vec<Vec<(usize, usize)>> = Vec::new();
        let n = grid.size;
        let mut start_c: usize = 0;
        assert(lines_model(lines_to_clear@) =~= direction_lines_upto(b, Direction::DownLeft, 0));
        while start_c < n
            invariant
                start_c <= n,
                n == grid.size,
                grid.well_formed(),
                b == grid@,
                lines_model(lines_to_clear@) == direction_lines_upto(
                    b,
                    Direction::DownLeft,
                    start_c as int,
                ),
            decreases n - start_c,
        {
            assert(lane_of(b.size(), Direction::DownLeft, start_c as int).lies_on(b));
            Self::follow_lane(
                grid,
                Direction::DownLeft,
                0,
                start_c,
                start_c + 1,
                &mut lines_to_clear,
            );
            start_c += 1;
        }
        let mut start_r: usize = 1;
        while start_r < n
            invariant
                1 <= start_r <= n,
                n == grid.size,
                grid.well_formed(),
                b == grid@,
                lines_model(lines_to_clear@) == direction_lines_upto(
                    b,
                    Direction::DownLeft,
                    n - 1 + start_r,
                ),
            decreases n - start_r,
        {
            assert(lane_of(b.size(), Direction::DownLeft, n - 1 + start_r).lies_on(b));
            Self::follow_lane(
                grid,
                Direction::DownLeft,
                start_r,
                n - 1,
                n - start_r,
                &mut lines_to_clear,
            );
            start_r += 1;
        }
        lines_to_clear
    }

    /// Every line of the board: each run of five or more balls of one colour
    /// along a row, a column or a diagonal, once and whole. Rows come first,
    /// then columns, then the two diagonal directions.
    pub fn scan_and_collect_lines_to_clear(grid: &Grid) -> (lines: Vec<Vec<(usize, usize)>>)
        requires
            grid.well_formed(),
        ensures
            lines_model(lines@) == all_lines(grid@),
    {
        let mut all_lines: Vec<Vec<(usize, usize)>> = Vec::new();
        let mut horizontal = Self::find_horizontal_lines(grid);
        let mut vertical = Self::find_vertical_lines(grid);
        let mut falling_right = Self::find_diagonals_top_left_to_bottom_right(grid);
        let mut falling_left = Self::find_diagonals_top_right_to_bottom_left(grid);
        proof {
            lemma_lines_model_concat(all_lines@, horizontal@);
            lemma_lines_model_concat(all_lines@ + horizontal@, vertical@);
            lemma_lines_model_concat(all_lines@ + horizontal@ + vertical@, falling_right@);
            lemma_lines_model_concat(
                all_lines@ + horizontal@ + vertical@ + falling_right@,
                falling_left@,
            );
            assert(lines_model(all_lines@) + lines_model(horizontal@) =~= lines_model(horizontal@));
        }
        all_lines.append(&mut horizontal);
        all_lines.append(&mut vertical);
        all_lines.append(&mut falling_right);
        all_lines.append(&mut falling_left);
        all_lines
    }
}

} // verus!
