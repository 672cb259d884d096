//! What lines are worth.

use crate::ball::BallColor;
use crate::board::{Board, Pos};
use crate::lines::{
    all_lines, direction_lines, direction_lines_upto, lane_count, lane_lines, lane_lines_upto,
    lane_of, lemma_run_closed, line_starts_at, orthogonal_lines, Direction, Lane, MIN_LINE_LEN,
};
use vstd::prelude::*;

verus! {

/// Points for one line of `len` balls: nothing below five; from five on, the
/// square of what exceeds four, plus the length.
pub open spec fn line_score(len: nat) -> nat {
    if len >= MIN_LINE_LEN {
        ((len - 4) * (len - 4) + len) as nat
    } else {
        0
    }
}

/// Points for several lines: each counts for itself, whatever cells it shares
/// with the others.
pub open spec fn total_score(lines: Seq<Seq<Pos>>) -> nat
    decreases lines.len(),
{
    if lines.len() == 0 {
        0
    } else {
        total_score(lines.drop_last()) + line_score(lines.last().len())
    }
}

/// Most points that the lines of one board of side `n` can be worth.
pub open spec fn turn_score_limit(n: int) -> int {
    6 * n * n * n
}

/// Fewer than five balls are worth nothing.
pub proof fn lemma_short_line_scores_nothing(len: nat)
    requires
        len < MIN_LINE_LEN,
    ensures
        line_score(len) == 0,
{
}

/// A longer line is worth more, and a line of five or more is worth
/// something.
pub proof fn lemma_line_score_increases(shorter: nat, longer: nat)
    requires
        MIN_LINE_LEN <= shorter < longer,
    ensures
        0 < line_score(shorter) < line_score(longer),
{
    assert((shorter - 4) * (shorter - 4) <= (longer - 4) * (longer - 4)) by (nonlinear_arith)
        requires
            4 <= shorter < longer,
    ;
    assert((shorter - 4) * (shorter - 4) >= 0) by (nonlinear_arith);
}

/// Two lines are worth what each is worth by itself, whether or not they
/// share a cell.
pub proof fn lemma_two_lines_score(first: Seq<Pos>, second: Seq<Pos>)
    ensures
        total_score(seq![first, second]) == line_score(first.len()) + line_score(second.len()),
{
    let both = seq![first, second];
    assert(both.drop_last() =~= seq![first]);
    assert(seq![first].drop_last() =~= Seq::<Seq<Pos>>::empty());
    assert(total_score(seq![first]) == line_score(first.len())) by {
        assert(seq![first].last() == first);
        assert(total_score(seq![first].drop_last()) == 0);
    }
}

/// A list of lines with one more line is worth that line more.
pub proof fn lemma_total_score_push(lines: Seq<Seq<Pos>>, line: Seq<Pos>)
    ensures
        total_score(lines.push(line)) == total_score(lines) + line_score(line.len()),
{
    assert(lines.push(line).drop_last() =~= lines);
}

/// The lines of two batches together are worth the sum of what the batches
/// are worth.
pub proof fn lemma_total_score_concat(first: Seq<Seq<Pos>>, second: Seq<Seq<Pos>>)
    ensures
        total_score(first + second) == total_score(first) + total_score(second),
    decreases second.len(),
{
    if second.len() == 0 {
        assert(first + second =~= first);
    } else {
        lemma_total_score_concat(first, second.drop_last());
        assert((first + second).drop_last() =~= first + second.drop_last());
        assert((first + second).last() == second.last());
    }
}

/// The first lines of a batch are worth no more than the whole batch.
pub proof fn lemma_total_score_prefix(lines: Seq<Seq<Pos>>, k: int)
    requires
        0 <= k <= lines.len(),
    ensures
        total_score(lines.subrange(0, k)) <= total_score(lines),
    decreases lines.len() - k,
{
    if k < lines.len() {
        lemma_total_score_prefix(lines, k + 1);
        assert(lines.subrange(0, k + 1).drop_last() =~= lines.subrange(0, k));
    } else {
        assert(lines.subrange(0, k) =~= lines);
    }
}

/// First index of the stretch of colour `color` that ends just before `j`.
spec fn run_begin(b: Board, lane: Lane, j: int, color: BallColor) -> int
    decreases j,
{
    if j > 0 && b.color_at(lane.cell(j - 1)) == Some(color) {
        run_begin(b, lane, j - 1, color)
    } else {
        j
    }
}

proof fn lemma_run_begin(b: Board, lane: Lane, j: int, color: BallColor)
    requires
        0 <= j,
    ensures
        0 <= run_begin(b, lane, j, color) <= j,
        forall|i: int|
            run_begin(b, lane, j, color) <= i < j ==> b.color_at(#[trigger] lane.cell(i)) == Some(
                color,
            ),
        run_begin(b, lane, j, color) == 0 || b.color_at(
            lane.cell(run_begin(b, lane, j, color) - 1),
        ) != Some(color),
    decreases j,
{
    if j > 0 && b.color_at(lane.cell(j - 1)) == Some(color) {
        lemma_run_begin(b, lane, j - 1, color);
    }
}

/// No run straddles index `k` of the lane.
spec fn run_border(b: Board, lane: Lane, k: int) -> bool {
    ||| k <= 0
    ||| k >= lane.len
    ||| b.color_at(lane.cell(k - 1)).is_none()
    ||| b.color_at(lane.cell(k - 1)) != b.color_at(lane.cell(k))
}

/// The lines that begin and end within the first `k` cells of a lane are
/// worth at most `k * k`.
proof fn lemma_lane_score_bound(b: Board, lane: Lane, k: int)
    requires
        0 <= k <= lane.len,
        run_border(b, lane, k),
    ensures
        total_score(lane_lines_upto(b, lane, k)) <= k * k,
    decreases k,
{
    if k > 0 {
        match b.color_at(lane.cell(k - 1)) {
            None => {
                assert(!line_starts_at(b, lane, k - 1));
                lemma_lane_score_bound(b, lane, k - 1);
                assert((k - 1) * (k - 1) <= k * k) by (nonlinear_arith)
                    requires
                        k >= 1,
                ;
            },
            Some(color) => {
                let s = run_begin(b, lane, k - 1, color);
                lemma_run_begin(b, lane, k - 1, color);
                assert forall|i: int| s <= i < k implies b.color_at(#[trigger] lane.cell(i))
                    == Some(color) by {}
                lemma_run_closed(b, lane, s, k, color);
                lemma_lane_score_bound(b, lane, s);
                let len = (k - s) as nat;
                lemma_total_score_push(lane_lines_upto(b, lane, s), lane.cells(s, len));
                assert(line_score(len) <= len * len) by (nonlinear_arith)
                    requires
                        len >= 0,
                        line_score(len) == if len >= 5 {
                            ((len - 4) * (len - 4) + len) as nat
                        } else {
                            0
                        },
                ;
                assert(s * s + (k - s) * (k - s) <= k * k) by (nonlinear_arith)
                    requires
                        0 <= s <= k,
                ;
            },
        }
    }
}

/// The lines of the first `k` lanes of a direction are worth at most
/// `k * n * n` on a board of side `n`.
proof fn lemma_direction_score_bound(b: Board, dir: Direction, k: int)
    requires
        b.well_formed(),
        0 <= k <= lane_count(b.size(), dir),
    ensures
        total_score(direction_lines_upto(b, dir, k)) <= k * (b.size() * b.size()),
    decreases k,
{
    let n = b.size();
    if k > 0 {
        lemma_direction_score_bound(b, dir, k - 1);
        let lane = lane_of(n, dir, k - 1);
        assert(0 <= lane.len <= n);
        lemma_lane_score_bound(b, lane, lane.len);
        lemma_total_score_concat(direction_lines_upto(b, dir, k - 1), lane_lines(b, lane));
        assert(lane.len * lane.len <= n * n) by (nonlinear_arith)
            requires
                0 <= lane.len <= n,
        ;
        assert((k - 1) * (n * n) + n * n == k * (n * n)) by (nonlinear_arith);
    } else {
        assert(0 <= k * (n * n)) by (nonlinear_arith)
            requires
                k == 0,
        ;
    }
}

/// All lines of a board of side `n` together are worth at most
/// `turn_score_limit(n)`.
pub proof fn lemma_score_limit(b: Board)
    requires
        b.well_formed(),
    ensures
        total_score(all_lines(b)) <= turn_score_limit(b.size()),
        total_score(orthogonal_lines(b)) <= turn_score_limit(b.size()),
{
    let n = b.size();
    lemma_direction_score_bound(b, Direction::Right, n);
    lemma_direction_score_bound(b, Direction::Down, n);
    lemma_direction_score_bound(b, Direction::DownRight, 2 * n - 1);
    lemma_direction_score_bound(b, Direction::DownLeft, 2 * n - 1);
    lemma_total_score_concat(direction_lines(b, Direction::Right), direction_lines(b, Direction::Down));
    lemma_total_score_concat(orthogonal_lines(b), direction_lines(b, Direction::DownRight));
    lemma_total_score_concat(
        orthogonal_lines(b) + direction_lines(b, Direction::DownRight),
        direction_lines(b, Direction::DownLeft),
    );
    assert(n * (n * n) + n * (n * n) + (2 * n - 1) * (n * n) + (2 * n - 1) * (n * n) <= 6 * n * n
        * n) by (nonlinear_arith)
        requires
            n >= 1,
    ;
    assert(n * (n * n) >= 0 && (2 * n - 1) * (n * n) >= 0) by (nonlinear_arith)
        requires
            n >= 1,
    ;
}

} // verus!
