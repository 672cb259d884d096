//! Runs and lines: what counts as a line of balls on a board.
//!
//! A *lane* is a straight walk over the board in one of four directions. A
//! *run* is a maximal stretch of balls of one colour on a lane, and a *line*
//! is a run of at least five balls.

use crate::ball::BallColor;
use crate::board::{Board, Pos};
use vstd::prelude::*;

verus! {

/// Fewest balls that make a line.
pub const MIN_LINE_LEN: usize = 5;

/// The four directions along which a line may run.
#[derive(Debug, Copy, Clone, PartialEq, Eq, Structural)]
pub enum Direction {
    /// Along a row, towards higher columns.
    Right,
    /// Along a column, towards higher rows.
    Down,
    /// Diagonally, towards higher rows and higher columns.
    DownRight,
    /// Diagonally, towards higher rows and lower columns.
    DownLeft,
}

/// `len` cells met when walking from `origin` in direction `dir`.
pub struct Lane {
    pub dir: Direction,
    pub origin: Pos,
    pub len: int,
}

impl Lane {
    /// The cell reached after `j` steps.
    pub open spec fn cell(self, j: int) -> Pos {
        match self.dir {
            Direction::Right => (self.origin.0, self.origin.1 + j),
            Direction::Down => (self.origin.0 + j, self.origin.1),
            Direction::DownRight => (self.origin.0 + j, self.origin.1 + j),
            Direction::DownLeft => (self.origin.0 + j, self.origin.1 - j),
        }
    }

    /// The `count` cells that begin with the one at index `first`.
    pub open spec fn cells(self, first: int, count: nat) -> Seq<Pos> {
        Seq::new(count, |k: int| self.cell(first + k))
    }

    /// Every cell of the lane is a cell of the board.
    pub open spec fn lies_on(self, b: Board) -> bool {
        &&& self.len >= 0
        &&& forall|j: int| 0 <= j < self.len ==> b.in_bounds(#[trigger] self.cell(j))
    }
}

/// How many cells in a row, from index `j` of the lane on, hold `color`.
pub open spec fn stretch(b: Board, lane: Lane, j: int, color: BallColor) -> nat
    decreases lane.len - j,
{
    if 0 <= j < lane.len && b.color_at(lane.cell(j)) == Some(color) {
        1 + stretch(b, lane, j + 1, color)
    } else {
        0
    }
}

/// A run begins at index `j`: a ball lies there, and the cell before it on
/// the lane, if there is one, does not hold a ball of the same colour.
pub open spec fn run_starts_at(b: Board, lane: Lane, j: int) -> bool {
    &&& 0 <= j < lane.len
    &&& b.color_at(lane.cell(j)).is_some()
    &&& (j == 0 || b.color_at(lane.cell(j - 1)) != b.color_at(lane.cell(j)))
}

/// Length of the stretch of one colour that begins at index `j`; zero where
/// no ball lies.
pub open spec fn run_length(b: Board, lane: Lane, j: int) -> nat {
    match b.color_at(lane.cell(j)) {
        Some(color) => stretch(b, lane, j, color),
        None => 0,
    }
}

/// A line begins at index `j`: a run begins there and is long enough.
pub open spec fn line_starts_at(b: Board, lane: Lane, j: int) -> bool {
    run_starts_at(b, lane, j) && run_length(b, lane, j) >= MIN_LINE_LEN
}

/// The lines of a lane that begin before index `k`, in the order met.
pub open spec fn lane_lines_upto(b: Board, lane: Lane, k: int) -> Seq<Seq<Pos>>
    decreases k,
{
    if k <= 0 {
        Seq::empty()
    } else if line_starts_at(b, lane, k - 1) {
        lane_lines_upto(b, lane, k - 1).push(lane.cells(k - 1, run_length(b, lane, k - 1)))
    } else {
        lane_lines_upto(b, lane, k - 1)
    }
}

/// All lines of a lane, in the order met.
pub open spec fn lane_lines(b: Board, lane: Lane) -> Seq<Seq<Pos>> {
    lane_lines_upto(b, lane, lane.len)
}

/// Number of lanes that cover a board of side `n` in direction `dir`.
pub open spec fn lane_count(n: int, dir: Direction) -> int {
    match dir {
        Direction::Right | Direction::Down => n,
        Direction::DownRight | Direction::DownLeft => 2 * n - 1,
    }
}

/// Lane number `i` of direction `dir` on a board of side `n`. Rows run from
/// the top, columns from the left; diagonals start on the top row, from its
/// left end to its right end, and then on the side column, from the second
/// row downwards. Each lane starts on the edge of the board and ends on it.
pub open spec fn lane_of(n: int, dir: Direction, i: int) -> Lane {
    match dir {
        Direction::Right => Lane { dir, origin: (i, 0), len: n },
        Direction::Down => Lane { dir, origin: (0, i), len: n },
        Direction::DownRight => if i < n {
            Lane { dir, origin: (0, i), len: n - i }
        } else {
            Lane { dir, origin: (i - n + 1, 0), len: 2 * n - 1 - i }
        },
        Direction::DownLeft => if i < n {
            Lane { dir, origin: (0, i), len: i + 1 }
        } else {
            Lane { dir, origin: (i - n + 1, n - 1), len: 2 * n - 1 - i }
        },
    }
}

/// The lines of the first `k` lanes of a direction, lane after lane.
pub open spec fn direction_lines_upto(b: Board, dir: Direction, k: int) -> Seq<Seq<Pos>>
    decreases k,
{
    if k <= 0 {
        Seq::empty()
    } else {
        direction_lines_upto(b, dir, k - 1) + lane_lines(b, lane_of(b.size(), dir, k - 1))
    }
}

/// All lines of a board that run in direction `dir`.
pub open spec fn direction_lines(b: Board, dir: Direction) -> Seq<Seq<Pos>> {
    direction_lines_upto(b, dir, lane_count(b.size(), dir))
}

/// The lines along rows, then those along columns.
pub open spec fn orthogonal_lines(b: Board) -> Seq<Seq<Pos>> {
    direction_lines(b, Direction::Right) + direction_lines(b, Direction::Down)
}

/// Every line of the board: rows, columns, then the two diagonal directions.
pub open spec fn all_lines(b: Board) -> Seq<Seq<Pos>> {
    orthogonal_lines(b) + direction_lines(b, Direction::DownRight) + direction_lines(
        b,
        Direction::DownLeft,
    )
}

/// A stored position as a position of the board.
pub open spec fn pos_model(p: (usize, usize)) -> Pos {
    (p.0 as int, p.1 as int)
}

/// A stored list of positions as a sequence of board positions.
pub open spec fn line_model(line: Seq<(usize, usize)>) -> Seq<Pos> {
    Seq::new(line.len(), |i: int| pos_model(line[i]))
}

/// Stored lines as sequences of board positions.
pub open spec fn lines_model(lines: Seq<Vec<(usize, usize)>>) -> Seq<Seq<Pos>> {
    Seq::new(lines.len(), |i: int| line_model(lines[i]@))
}

/// A stored list with one more position stands for the sequence with that
/// position more.
pub proof fn lemma_line_model_push(line: Seq<(usize, usize)>, p: (usize, usize))
    ensures
        line_model(line.push(p)) == line_model(line).push(pos_model(p)),
{
    assert(line_model(line.push(p)) =~= line_model(line).push(pos_model(p)));
}

/// Stored lines with one more line stand for the sequences with that line
/// more.
pub proof fn lemma_lines_model_push(lines: Seq<Vec<(usize, usize)>>, line: Vec<(usize, usize)>)
    ensures
        lines_model(lines.push(line)) == lines_model(lines).push(line_model(line@)),
{
    assert(lines_model(lines.push(line)) =~= lines_model(lines).push(line_model(line@)));
}

/// Two batches of stored lines, joined, stand for the two batches of
/// sequences, joined.
pub proof fn lemma_lines_model_concat(a: Seq<Vec<(usize, usize)>>, b: Seq<Vec<(usize, usize)>>)
    ensures
        lines_model(a + b) == lines_model(a) + lines_model(b),
{
    assert(lines_model(a + b) =~= lines_model(a) + lines_model(b));
}

/// If the cells from `s` up to `j` all hold `color`, the stretch from `s` is
/// those cells and then the stretch from `j`.
pub proof fn lemma_stretch_split(b: Board, lane: Lane, s: int, j: int, color: BallColor)
    requires
        0 <= s <= j <= lane.len,
        forall|k: int| s <= k < j ==> b.color_at(#[trigger] lane.cell(k)) == Some(color),
    ensures
        stretch(b, lane, s, color) == (j - s) + stretch(b, lane, j, color),
    decreases j - s,
{
    if s < j {
        assert(b.color_at(lane.cell(s)) == Some(color));
        lemma_stretch_split(b, lane, s + 1, j, color);
    }
}

/// No line begins at an index in `[from, to)` where no run begins.
pub proof fn lemma_no_line_between(b: Board, lane: Lane, from: int, to: int)
    requires
        0 <= from <= to,
        forall|k: int| from <= k < to ==> !line_starts_at(b, lane, k),
    ensures
        lane_lines_upto(b, lane, to) == lane_lines_upto(b, lane, from),
    decreases to - from,
{
    if from < to {
        lemma_no_line_between(b, lane, from, to - 1);
    }
}

/// A stretch of one colour that is closed at both ends is a run, and the
/// lines up to its end are the lines up to its start and, if it is long
/// enough, the run itself.
pub proof fn lemma_run_closed(b: Board, lane: Lane, s: int, j: int, color: BallColor)
    requires
        0 <= s < j <= lane.len,
        forall|k: int| s <= k < j ==> b.color_at(#[trigger] lane.cell(k)) == Some(color),
        s == 0 || b.color_at(lane.cell(s - 1)) != Some(color),
        j == lane.len || b.color_at(lane.cell(j)) != Some(color),
    ensures
        run_starts_at(b, lane, s),
        run_length(b, lane, s) == j - s,
        lane_lines_upto(b, lane, j) == if j - s >= MIN_LINE_LEN {
            lane_lines_upto(b, lane, s).push(lane.cells(s, (j - s) as nat))
        } else {
            lane_lines_upto(b, lane, s)
        },
{
    assert(b.color_at(lane.cell(s)) == Some(color));
    lemma_stretch_split(b, lane, s, j, color);
    assert(stretch(b, lane, j, color) == 0);
    assert forall|k: int| s + 1 <= k < j implies !line_starts_at(b, lane, k) by {
        assert(b.color_at(lane.cell(k - 1)) == Some(color));
        assert(b.color_at(lane.cell(k)) == Some(color));
    }
    lemma_no_line_between(b, lane, s + 1, j);
}

/// `line` is a line of the lane: the whole of a run of five or more balls.
pub open spec fn is_line_on(b: Board, lane: Lane, line: Seq<Pos>) -> bool {
    exists|j: int| #[trigger]
        line_starts_at(b, lane, j) && line == lane.cells(j, run_length(b, lane, j))
}

/// `line` is a line of the board that runs in direction `dir`.
pub open spec fn is_line_along(b: Board, dir: Direction, line: Seq<Pos>) -> bool {
    exists|i: int|
        0 <= i < lane_count(b.size(), dir) && is_line_on(
            b,
            #[trigger] lane_of(b.size(), dir, i),
            line,
        )
}

/// `line` is a line of the board: the cells, in order, of a run of five or
/// more balls of one colour along a row, a column or a diagonal, which no
/// ball of that colour continues at either end.
pub open spec fn is_line(b: Board, line: Seq<Pos>) -> bool {
    ||| is_line_along(b, Direction::Right, line)
    ||| is_line_along(b, Direction::Down, line)
    ||| is_line_along(b, Direction::DownRight, line)
    ||| is_line_along(b, Direction::DownLeft, line)
}

/// The lines listed for the cells of a lane before index `k` are the lines
/// of the lane that begin before `k`, no more and no fewer.
pub proof fn lemma_lane_lines_exact(b: Board, lane: Lane, k: int, line: Seq<Pos>)
    ensures
        lane_lines_upto(b, lane, k).contains(line) <==> exists|j: int|
            j < k && #[trigger] line_starts_at(b, lane, j) && line == lane.cells(
                j,
                run_length(b, lane, j),
            ),
    decreases k,
{
    if k > 0 {
        lemma_lane_lines_exact(b, lane, k - 1, line);
        let shorter = lane_lines_upto(b, lane, k - 1);
        let full = lane_lines_upto(b, lane, k);
        let last = lane.cells(k - 1, run_length(b, lane, k - 1));
        if line_starts_at(b, lane, k - 1) {
            assert(full == shorter.push(last));
            if full.contains(line) {
                let i = choose|i: int| 0 <= i < full.len() && full[i] == line;
                if i < shorter.len() {
                    assert(shorter[i] == line);
                } else {
                    assert(line == last);
                }
            }
            if shorter.contains(line) {
                let i = choose|i: int| 0 <= i < shorter.len() && shorter[i] == line;
                assert(full[i] == line);
            }
            if line == last {
                assert(full[shorter.len() as int] == line);
            }
        }
    }
}

/// The lines listed for the first `k` lanes of a direction are the lines of
/// those lanes.
pub proof fn lemma_direction_lines_exact(b: Board, dir: Direction, k: int, line: Seq<Pos>)
    ensures
        direction_lines_upto(b, dir, k).contains(line) <==> exists|i: int|
            0 <= i < k && is_line_on(b, #[trigger] lane_of(b.size(), dir, i), line),
    decreases k,
{
    if k > 0 {
        lemma_direction_lines_exact(b, dir, k - 1, line);
        let lane = lane_of(b.size(), dir, k - 1);
        lemma_lane_lines_exact(b, lane, lane.len, line);
        let shorter = direction_lines_upto(b, dir, k - 1);
        let added = lane_lines(b, lane);
        lemma_concat_contains(shorter, added, line);
        if is_line_on(b, lane, line) {
            let j = choose|j: int| #[trigger]
                line_starts_at(b, lane, j) && line == lane.cells(j, run_length(b, lane, j));
            assert(j < lane.len);
        }
    }
}

/// What one of two joined lists holds, the joined list holds, and nothing
/// else.
pub proof fn lemma_concat_contains(first: Seq<Seq<Pos>>, second: Seq<Seq<Pos>>, line: Seq<Pos>)
    ensures
        (first + second).contains(line) <==> first.contains(line) || second.contains(line),
{
    let joined = first + second;
    if joined.contains(line) {
        let i = choose|i: int| 0 <= i < joined.len() && joined[i] == line;
        if i < first.len() {
            assert(first[i] == line);
        } else {
            assert(second[i - first.len()] == line);
        }
    }
    if first.contains(line) {
        let i = choose|i: int| 0 <= i < first.len() && first[i] == line;
        assert(joined[i] == line);
    }
    if second.contains(line) {
        let i = choose|i: int| 0 <= i < second.len() && second[i] == line;
        assert(joined[i + first.len()] == line);
    }
}

/// What is listed as the lines of a board is a line of the board, and every
/// line of the board is listed. In particular nothing shorter than five
/// balls is listed, and a run longer than five is listed whole.
pub proof fn lemma_all_lines_exact(b: Board, line: Seq<Pos>)
    ensures
        all_lines(b).contains(line) <==> is_line(b, line),
        orthogonal_lines(b).contains(line) <==> is_line_along(b, Direction::Right, line)
            || is_line_along(b, Direction::Down, line),
        is_line(b, line) ==> line.len() >= MIN_LINE_LEN,
{
    let n = b.size();
    lemma_direction_lines_exact(b, Direction::Right, lane_count(n, Direction::Right), line);
    lemma_direction_lines_exact(b, Direction::Down, lane_count(n, Direction::Down), line);
    lemma_direction_lines_exact(b, Direction::DownRight, lane_count(n, Direction::DownRight), line);
    lemma_direction_lines_exact(b, Direction::DownLeft, lane_count(n, Direction::DownLeft), line);
    lemma_concat_contains(
        direction_lines(b, Direction::Right),
        direction_lines(b, Direction::Down),
        line,
    );
    lemma_concat_contains(orthogonal_lines(b), direction_lines(b, Direction::DownRight), line);
    lemma_concat_contains(
        orthogonal_lines(b) + direction_lines(b, Direction::DownRight),
        direction_lines(b, Direction::DownLeft),
        line,
    );
}

/// A line of a lane begins on a cell of the lane and goes on to the next.
proof fn lemma_line_begins(b: Board, lane: Lane, line: Seq<Pos>) -> (j: int)
    requires
        is_line_on(b, lane, line),
    ensures
        0 <= j < lane.len,
        line.len() >= MIN_LINE_LEN,
        line[0] == lane.cell(j),
        line[1] == lane.cell(j + 1),
{
    let j = choose|j: int| #[trigger]
        line_starts_at(b, lane, j) && line == lane.cells(j, run_length(b, lane, j));
    j
}

/// No line is listed twice for a lane.
pub proof fn lemma_lane_lines_distinct(b: Board, lane: Lane, k: int)
    ensures
        lane_lines_upto(b, lane, k).no_duplicates(),
    decreases k,
{
    if k > 0 {
        lemma_lane_lines_distinct(b, lane, k - 1);
        if line_starts_at(b, lane, k - 1) {
            let earlier = lane_lines_upto(b, lane, k - 1);
            let last = lane.cells(k - 1, run_length(b, lane, k - 1));
            lemma_lane_lines_exact(b, lane, k - 1, last);
            if earlier.contains(last) {
                let j = choose|j: int|
                    j < k - 1 && #[trigger] line_starts_at(b, lane, j) && last == lane.cells(
                        j,
                        run_length(b, lane, j),
                    );
                assert(last[0] == lane.cell(k - 1));
                assert(lane.cells(j, run_length(b, lane, j))[0] == lane.cell(j));
            }
            assert forall|i: int| 0 <= i < earlier.len() implies earlier[i] != last by {
                if earlier[i] == last {
                    assert(earlier.contains(last));
                }
            }
        }
    }
}

/// No line is listed twice for a direction.
pub proof fn lemma_direction_lines_distinct(b: Board, dir: Direction, k: int)
    requires
        0 <= k <= lane_count(b.size(), dir),
    ensures
        direction_lines_upto(b, dir, k).no_duplicates(),
    decreases k,
{
    if k > 0 {
        lemma_direction_lines_distinct(b, dir, k - 1);
        let n = b.size();
        let lane = lane_of(n, dir, k - 1);
        let earlier = direction_lines_upto(b, dir, k - 1);
        let added = lane_lines(b, lane);
        lemma_lane_lines_distinct(b, lane, lane.len);
        assert forall|x: int, y: int| 0 <= x < earlier.len() && 0 <= y < added.len() implies earlier[x]
            != added[y] by {
            let line = earlier[x];
            if line == added[y] {
                assert(earlier.contains(line));
                assert(added.contains(line));
                lemma_direction_lines_exact(b, dir, k - 1, line);
                lemma_lane_lines_exact(b, lane, lane.len, line);
                let i = choose|i: int|
                    0 <= i < k - 1 && is_line_on(b, #[trigger] lane_of(n, dir, i), line);
                let other = lane_of(n, dir, i);
                let j1 = lemma_line_begins(b, other, line);
                let j2 = lemma_line_begins(b, lane, line);
                assert(other.cell(j1) == lane.cell(j2));
            }
        }
        vstd::seq_lib::lemma_no_dup_in_concat(earlier, added);
    }
}

/// The step from the first cell of a line to its second tells the direction
/// of the line.
proof fn lemma_line_heading(b: Board, dir: Direction, line: Seq<Pos>)
    requires
        is_line_along(b, dir, line),
    ensures
        line.len() >= MIN_LINE_LEN,
        (line[1].0 - line[0].0, line[1].1 - line[0].1) == match dir {
            Direction::Right => (0int, 1int),
            Direction::Down => (1int, 0int),
            Direction::DownRight => (1int, 1int),
            Direction::DownLeft => (1int, -1int),
        },
{
    let n = b.size();
    let i = choose|i: int|
        0 <= i < lane_count(n, dir) && is_line_on(b, #[trigger] lane_of(n, dir, i), line);
    let j = lemma_line_begins(b, lane_of(n, dir, i), line);
}

/// Every line of a board is listed once: a run is never listed twice, and
/// never in parts.
pub proof fn lemma_all_lines_distinct(b: Board)
    requires
        b.well_formed(),
    ensures
        all_lines(b).no_duplicates(),
        orthogonal_lines(b).no_duplicates(),
{
    let n = b.size();
    let rows = direction_lines(b, Direction::Right);
    let columns = direction_lines(b, Direction::Down);
    let falling_right = direction_lines(b, Direction::DownRight);
    let falling_left = direction_lines(b, Direction::DownLeft);
    lemma_direction_lines_distinct(b, Direction::Right, lane_count(n, Direction::Right));
    lemma_direction_lines_distinct(b, Direction::Down, lane_count(n, Direction::Down));
    lemma_direction_lines_distinct(b, Direction::DownRight, lane_count(n, Direction::DownRight));
    lemma_direction_lines_distinct(b, Direction::DownLeft, lane_count(n, Direction::DownLeft));
    assert forall|line: Seq<Pos>, dir: Direction| #[trigger]
        direction_lines(b, dir).contains(line) implies is_line_along(b, dir, line) by {
        lemma_direction_lines_exact(b, dir, lane_count(n, dir), line);
    }
    assert forall|x: int, y: int| 0 <= x < rows.len() && 0 <= y < columns.len() implies rows[x]
        != columns[y] by {
        assert(rows.contains(rows[x]));
        assert(columns.contains(columns[y]));
        lemma_line_heading(b, Direction::Right, rows[x]);
        lemma_line_heading(b, Direction::Down, columns[y]);
    }
    vstd::seq_lib::lemma_no_dup_in_concat(rows, columns);
    let orthogonal = rows + columns;
    assert forall|x: int, y: int|
        0 <= x < orthogonal.len() && 0 <= y < falling_right.len() implies orthogonal[x]
        != falling_right[y] by {
        assert(falling_right.contains(falling_right[y]));
        lemma_line_heading(b, Direction::DownRight, falling_right[y]);
        if x < rows.len() {
            assert(rows.contains(rows[x]));
            lemma_line_heading(b, Direction::Right, rows[x]);
        } else {
            assert(columns.contains(columns[x - rows.len()]));
            lemma_line_heading(b, Direction::Down, columns[x - rows.len()]);
        }
    }
    vstd::seq_lib::lemma_no_dup_in_concat(orthogonal, falling_right);
    let three = orthogonal + falling_right;
    assert forall|x: int, y: int|
        0 <= x < three.len() && 0 <= y < falling_left.len() implies three[x]
        != falling_left[y] by {
        assert(falling_left.contains(falling_left[y]));
        lemma_line_heading(b, Direction::DownLeft, falling_left[y]);
        if x < rows.len() {
            assert(rows.contains(rows[x]));
            lemma_line_heading(b, Direction::Right, rows[x]);
        } else if x < orthogonal.len() {
            assert(columns.contains(columns[x - rows.len()]));
            lemma_line_heading(b, Direction::Down, columns[x - rows.len()]);
        } else {
            assert(falling_right.contains(falling_right[x - orthogonal.len()]));
            lemma_line_heading(b, Direction::DownRight, falling_right[x - orthogonal.len()]);
        }
    }
    vstd::seq_lib::lemma_no_dup_in_concat(three, falling_left);
}

/// A lane of five or more cells that all hold balls of one colour has one
/// line, and that line is the whole lane.
pub proof fn lemma_uniform_lane(b: Board, lane: Lane, color: BallColor)
    requires
        lane.len >= MIN_LINE_LEN,
        forall|j: int| 0 <= j < lane.len ==> b.color_at(#[trigger] lane.cell(j)) == Some(color),
    ensures
        lane_lines(b, lane) == seq![lane.cells(0, lane.len as nat)],
{
    lemma_run_closed(b, lane, 0, lane.len, color);
    assert(lane_lines_upto(b, lane, 0).push(lane.cells(0, lane.len as nat)) =~= seq![
        lane.cells(0, lane.len as nat),
    ]);
}

/// A lane on which no stretch of one colour has five balls has no line.
pub proof fn lemma_short_runs_no_line(b: Board, lane: Lane)
    requires
        forall|j: int| 0 <= j < lane.len ==> #[trigger] run_length(b, lane, j) < MIN_LINE_LEN,
    ensures
        lane_lines(b, lane) == Seq::<Seq<Pos>>::empty(),
{
    if lane.len > 0 {
        assert forall|j: int| 0 <= j < lane.len implies !line_starts_at(b, lane, j) by {
            assert(run_length(b, lane, j) < MIN_LINE_LEN);
        }
        lemma_no_line_between(b, lane, 0, lane.len);
    }
}

/// Row `r` holds a ball of colour `color` in every cell, and no ball lies
/// anywhere else.
pub open spec fn only_row_filled(b: Board, r: int, color: BallColor) -> bool {
    &&& 0 <= r < b.size()
    &&& forall|p: Pos| b.in_bounds(p) && p.0 == r ==> #[trigger] b.color_at(p) == Some(color)
    &&& forall|p: Pos| p.0 != r ==> #[trigger] b.color_at(p).is_none()
}

proof fn lemma_single_row_rows(b: Board, r: int, color: BallColor, k: int)
    requires
        b.well_formed(),
        b.size() >= MIN_LINE_LEN,
        only_row_filled(b, r, color),
        0 <= k <= b.size(),
    ensures
        direction_lines_upto(b, Direction::Right, k) == if k <= r {
            Seq::<Seq<Pos>>::empty()
        } else {
            seq![lane_of(b.size(), Direction::Right, r).cells(0, b.size() as nat)]
        },
    decreases k,
{
    if k > 0 {
        lemma_single_row_rows(b, r, color, k - 1);
        let lane = lane_of(b.size(), Direction::Right, k - 1);
        let earlier = direction_lines_upto(b, Direction::Right, k - 1);
        if k - 1 == r {
            assert forall|j: int| 0 <= j < lane.len implies b.color_at(#[trigger] lane.cell(j))
                == Some(color) by {
                assert(b.in_bounds(lane.cell(j)));
            }
            lemma_uniform_lane(b, lane, color);
            assert(earlier + lane_lines(b, lane) =~= lane_lines(b, lane));
        } else {
            assert forall|j: int| 0 <= j < lane.len implies #[trigger] run_length(b, lane, j)
                < MIN_LINE_LEN by {
                assert(b.color_at(lane.cell(j)).is_none());
            }
            lemma_short_runs_no_line(b, lane);
            assert(earlier + lane_lines(b, lane) =~= earlier);
        }
    }
}

proof fn lemma_single_row_others(b: Board, r: int, color: BallColor, dir: Direction, k: int)
    requires
        b.well_formed(),
        only_row_filled(b, r, color),
        dir != Direction::Right,
        0 <= k <= lane_count(b.size(), dir),
    ensures
        direction_lines_upto(b, dir, k) == Seq::<Seq<Pos>>::empty(),
    decreases k,
{
    if k > 0 {
        lemma_single_row_others(b, r, color, dir, k - 1);
        let lane = lane_of(b.size(), dir, k - 1);
        assert forall|j: int| 0 <= j < lane.len implies #[trigger] run_length(b, lane, j)
            < MIN_LINE_LEN by {
            match b.color_at(lane.cell(j)) {
                Some(c) => {
                    let here = lane.cell(j);
                    let next = lane.cell(j + 1);
                    assert(here.0 == r) by {
                        if here.0 != r {
                            assert(b.color_at(here).is_none());
                        }
                    }
                    assert(next.0 == r + 1);
                    assert(b.color_at(lane.cell(j + 1)).is_none());
                    assert(stretch(b, lane, j + 1, c) == 0);
                    assert(stretch(b, lane, j, c) == 1);
                },
                None => {},
            }
        }
        lemma_short_runs_no_line(b, lane);
        assert(direction_lines_upto(b, dir, k - 1) + lane_lines(b, lane) =~= Seq::<
            Seq<Pos>,
        >::empty());
    }
}

/// On a board of side five or more whose only balls fill one row with one
/// colour, there is exactly one line, and it is that row from end to end.
pub proof fn lemma_single_row_line(b: Board, r: int, color: BallColor)
    requires
        b.well_formed(),
        b.size() >= MIN_LINE_LEN,
        only_row_filled(b, r, color),
    ensures
        all_lines(b) == seq![lane_of(b.size(), Direction::Right, r).cells(0, b.size() as nat)],
        orthogonal_lines(b) == all_lines(b),
{
    let n = b.size();
    lemma_single_row_rows(b, r, color, n);
    lemma_single_row_others(b, r, color, Direction::Down, n);
    lemma_single_row_others(b, r, color, Direction::DownRight, 2 * n - 1);
    lemma_single_row_others(b, r, color, Direction::DownLeft, 2 * n - 1);
    let row = seq![lane_of(n, Direction::Right, r).cells(0, n as nat)];
    let none = Seq::<Seq<Pos>>::empty();
    assert(row + none =~= row);
}

/// The stored position of the cell reached after `j` steps on a lane.
pub fn lane_position(dir: Direction, r0: usize, c0: usize, j: usize) -> (p: (usize, usize))
    requires
        ({
            let cell = (Lane { dir, origin: (r0 as int, c0 as int), len: j + 1 }).cell(j as int);
            0 <= cell.0 <= usize::MAX && 0 <= cell.1 <= usize::MAX
        }),
    ensures
        pos_model(p) == (Lane { dir, origin: (r0 as int, c0 as int), len: j + 1 }).cell(j as int),
{
    match dir {
        Direction::Right => (r0, c0 + j),
        Direction::Down => (r0 + j, c0),
        Direction::DownRight => (r0 + j, c0 + j),
        Direction::DownLeft => (r0 + j, c0 - j),
    }
}

} // verus!
