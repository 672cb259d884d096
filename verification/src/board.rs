//! The mathematical board: what a grid is, apart from how it is stored.

use crate::ball::{Ball, BallColor};
use vstd::prelude::*;

verus! {

/// A position: row, then column.
pub type Pos = (int, int);

/// A square board of cells, each empty or holding one ball, together with the
/// highest ball identity handed out so far.
pub struct Board {
    pub cells: Seq<Seq<Option<Ball>>>,
    pub ball_count: nat,
}

/// Number of empty cells among the first `k` of a row.
pub open spec fn row_vacancies(row: Seq<Option<Ball>>, k: int) -> nat
    decreases k,
{
    if k <= 0 {
        0
    } else {
        row_vacancies(row, k - 1) + if row[k - 1].is_none() {
            1nat
        } else {
            0nat
        }
    }
}

impl Board {
    /// Number of rows, which is also the number of columns.
    pub open spec fn size(self) -> int {
        self.cells.len() as int
    }

    pub open spec fn in_bounds(self, p: Pos) -> bool {
        0 <= p.0 < self.size() && 0 <= p.1 < self.size()
    }

    /// The ball at `p`; nothing outside the board.
    pub open spec fn at(self, p: Pos) -> Option<Ball> {
        if self.in_bounds(p) {
            self.cells[p.0][p.1]
        } else {
            None
        }
    }

    pub open spec fn occupied(self, p: Pos) -> bool {
        self.at(p).is_some()
    }

    /// `p` is a cell of the board and holds no ball.
    pub open spec fn vacant(self, p: Pos) -> bool {
        self.in_bounds(p) && self.at(p).is_none()
    }

    /// Colour of the ball at `p`, if there is one.
    pub open spec fn color_at(self, p: Pos) -> Option<BallColor> {
        match self.at(p) {
            Some(ball) => Some(ball.color),
            None => None,
        }
    }

    /// Every row is as long as the board is high.
    pub open spec fn square(self) -> bool {
        forall|r: int| 0 <= r < self.size() ==> (#[trigger] self.cells[r]).len() == self.size()
    }

    /// Square, at least one cell, and every ball carries an identity of its
    /// own that has already been handed out.
    pub open spec fn well_formed(self) -> bool {
        &&& self.size() >= 1
        &&& self.square()
        &&& forall|p: Pos| #[trigger]
            self.occupied(p) ==> 1 <= self.at(p).unwrap().id <= self.ball_count
        &&& forall|p: Pos, q: Pos|
            #![trigger self.occupied(p), self.occupied(q)]
            self.occupied(p) && self.occupied(q) && self.at(p).unwrap().id == self.at(
                q,
            ).unwrap().id ==> p == q
    }

    /// No cell is empty.
    pub open spec fn is_full(self) -> bool {
        forall|p: Pos| #[trigger] self.in_bounds(p) ==> self.occupied(p)
    }

    /// Number of empty cells in the first `k` rows.
    pub open spec fn vacancies_upto(self, k: int) -> nat
        decreases k,
    {
        if k <= 0 {
            0
        } else {
            self.vacancies_upto(k - 1) + row_vacancies(
                self.cells[k - 1],
                self.cells[k - 1].len() as int,
            )
        }
    }

    /// Number of empty cells.
    pub open spec fn vacancies(self) -> nat {
        self.vacancies_upto(self.size())
    }

    /// Number of new balls that come onto the board when `wanted` are asked
    /// for: all of them, or as many as there are empty cells.
    pub open spec fn room_for(self, wanted: nat) -> nat {
        if wanted <= self.vacancies() {
            wanted
        } else {
            self.vacancies()
        }
    }

    /// The board of side `n` with no ball on it.
    pub open spec fn empty(n: nat) -> Board {
        Board { cells: Seq::new(n, |r: int| Seq::new(n, |c: int| None)), ball_count: 0 }
    }

    /// The same board with the content of cell `p` replaced.
    pub open spec fn with_cell(self, p: Pos, content: Option<Ball>) -> Board {
        Board { cells: self.cells.update(p.0, self.cells[p.0].update(p.1, content)), ..self }
    }

    /// A new ball of the given colour put on `p`, under the next identity.
    pub open spec fn placed(self, p: Pos, color: BallColor) -> Board {
        Board {
            cells: self.with_cell(
                p,
                Some(Ball { id: (self.ball_count + 1) as u32, color }),
            ).cells,
            ball_count: self.ball_count + 1,
        }
    }

    /// The ball on `from` taken to `to`; `from` is left empty.
    pub open spec fn moved(self, from: Pos, to: Pos) -> Board {
        self.with_cell(to, self.at(from)).with_cell(from, None)
    }

    /// Every cell whose position is in `gone` emptied; the others untouched.
    pub open spec fn cleared(self, gone: Set<Pos>) -> Board {
        Board {
            cells: Seq::new(
                self.cells.len(),
                |r: int|
                    Seq::new(
                        self.cells[r].len(),
                        |c: int|
                            if gone.contains((r, c)) {
                                None
                            } else {
                                self.cells[r][c]
                            },
                    ),
            ),
            ..self
        }
    }
}

/// Putting a ball on a vacant cell keeps the board well formed, provided the
/// next identity still fits the identity type.
pub proof fn lemma_placed_well_formed(b: Board, p: Pos, color: BallColor)
    requires
        b.well_formed(),
        b.vacant(p),
        b.ball_count < u32::MAX,
    ensures
        b.placed(p, color).well_formed(),
        b.placed(p, color).size() == b.size(),
        b.placed(p, color).at(p) == Some(Ball { id: (b.ball_count + 1) as u32, color }),
        forall|q: Pos| q != p ==> #[trigger] b.placed(p, color).at(q) == b.at(q),
{
    let a = b.placed(p, color);
    assert forall|q: Pos| q != p implies #[trigger] a.at(q) == b.at(q) by {
        if b.in_bounds(q) {
            assert(b.cells[q.0].len() == b.size());
        }
    }
    assert(b.cells[p.0].len() == b.size());
    assert forall|r: int| 0 <= r < a.size() implies (#[trigger] a.cells[r]).len() == a.size() by {
        assert(b.cells[r].len() == b.size());
    }
    assert forall|q: Pos| #[trigger] a.occupied(q) implies 1 <= a.at(q).unwrap().id
        <= a.ball_count by {
        if q != p {
            assert(a.at(q) == b.at(q));
            assert(b.occupied(q));
        }
    }
    assert forall|q: Pos, s: Pos|
        #![trigger a.occupied(q), a.occupied(s)]
        a.occupied(q) && a.occupied(s) && a.at(q).unwrap().id == a.at(
            s,
        ).unwrap().id implies q == s by {
        if q != p {
            assert(a.at(q) == b.at(q));
            assert(b.occupied(q));
        }
        if s != p {
            assert(a.at(s) == b.at(s));
            assert(b.occupied(s));
        }
    }
}

/// What is found on a board after one cell was replaced.
pub proof fn lemma_with_cell(b: Board, p: Pos, content: Option<Ball>)
    requires
        b.square(),
        b.in_bounds(p),
    ensures
        b.with_cell(p, content).square(),
        b.with_cell(p, content).size() == b.size(),
        b.with_cell(p, content).ball_count == b.ball_count,
        b.with_cell(p, content).at(p) == content,
        forall|q: Pos| q != p ==> #[trigger] b.with_cell(p, content).at(q) == b.at(q),
        forall|q: Pos| #[trigger] b.with_cell(p, content).in_bounds(q) == b.in_bounds(q),
{
    let a = b.with_cell(p, content);
    assert(b.cells[p.0].len() == b.size());
    assert forall|q: Pos| q != p implies #[trigger] a.at(q) == b.at(q) by {
        if b.in_bounds(q) {
            assert(b.cells[q.0].len() == b.size());
        }
    }
    assert forall|r: int| 0 <= r < b.size() implies (#[trigger] a.cells[r]).len() == b.size() by {
        assert(b.cells[r].len() == b.size());
    }
}

/// Taking a ball to a vacant cell keeps the board well formed: the ball is
/// on its new cell, its old cell is empty, and nothing else has changed.
pub proof fn lemma_moved_well_formed(b: Board, from: Pos, to: Pos)
    requires
        b.well_formed(),
        b.occupied(from),
        b.vacant(to),
    ensures
        b.moved(from, to).well_formed(),
        b.moved(from, to).size() == b.size(),
        b.moved(from, to).ball_count == b.ball_count,
        b.moved(from, to).at(to) == b.at(from),
        b.moved(from, to).at(from).is_none(),
        forall|q: Pos| q != from && q != to ==> #[trigger] b.moved(from, to).at(q) == b.at(q),
{
    let mid = b.with_cell(to, b.at(from));
    let a = b.moved(from, to);
    lemma_with_cell(b, to, b.at(from));
    lemma_with_cell(mid, from, None);
    assert forall|q: Pos| q != from && q != to implies #[trigger] a.at(q) == b.at(q) by {
        assert(mid.at(q) == b.at(q));
    }
    assert forall|q: Pos| #[trigger] a.occupied(q) implies 1 <= a.at(q).unwrap().id
        <= a.ball_count by {
        if q == to {
            assert(b.occupied(from));
        } else {
            assert(b.occupied(q));
        }
    }
    assert forall|q: Pos, s: Pos|
        #![trigger a.occupied(q), a.occupied(s)]
        a.occupied(q) && a.occupied(s) && a.at(q).unwrap().id == a.at(
            s,
        ).unwrap().id implies q == s by {
        let qq = if q == to {
            from
        } else {
            q
        };
        let ss = if s == to {
            from
        } else {
            s
        };
        assert(b.occupied(qq) && b.occupied(ss));
        assert(b.at(qq) == a.at(q));
        assert(b.at(ss) == a.at(s));
    }
}

/// Emptying cells keeps the board well formed; what is found on it after.
pub proof fn lemma_cleared(b: Board, gone: Set<Pos>)
    requires
        b.well_formed(),
    ensures
        b.cleared(gone).well_formed(),
        b.cleared(gone).size() == b.size(),
        b.cleared(gone).ball_count == b.ball_count,
        forall|q: Pos| #[trigger] b.cleared(gone).in_bounds(q) == b.in_bounds(q),
        forall|q: Pos|
            #[trigger] b.cleared(gone).at(q) == if gone.contains(q) {
                None
            } else {
                b.at(q)
            },
{
    let a = b.cleared(gone);
    assert forall|q: Pos|
        #[trigger] a.at(q) == if gone.contains(q) {
            None
        } else {
            b.at(q)
        } by {
        if b.in_bounds(q) {
            assert(b.cells[q.0].len() == b.size());
        }
    }
    assert forall|q: Pos| #[trigger] a.occupied(q) implies 1 <= a.at(q).unwrap().id
        <= a.ball_count by {
        assert(b.occupied(q));
    }
    assert forall|q: Pos, s: Pos|
        #![trigger a.occupied(q), a.occupied(s)]
        a.occupied(q) && a.occupied(s) && a.at(q).unwrap().id == a.at(
            s,
        ).unwrap().id implies q == s by {
        assert(b.occupied(q) && b.occupied(s));
    }
}

/// Two square boards with the same counter and the same content in every
/// cell are the same board.
pub proof fn lemma_board_equal(a: Board, b: Board)
    requires
        a.square(),
        b.square(),
        a.size() == b.size(),
        a.ball_count == b.ball_count,
        forall|q: Pos| a.in_bounds(q) ==> #[trigger] a.at(q) == b.at(q),
    ensures
        a == b,
{
    assert forall|r: int| 0 <= r < a.size() implies #[trigger] a.cells[r] =~= b.cells[r] by {
        assert(a.cells[r].len() == a.size());
        assert(b.cells[r].len() == b.size());
        assert forall|c: int| 0 <= c < a.size() implies a.cells[r][c] == b.cells[r][c] by {
            assert(a.at((r, c)) == b.at((r, c)));
        }
    }
    assert(a.cells =~= b.cells);
}

/// Emptying one set of cells and then another empties their union.
pub proof fn lemma_cleared_twice(b: Board, first: Set<Pos>, second: Set<Pos>)
    requires
        b.well_formed(),
    ensures
        b.cleared(first).cleared(second) == b.cleared(first.union(second)),
{
    lemma_cleared(b, first);
    lemma_cleared(b.cleared(first), second);
    lemma_cleared(b, first.union(second));
    lemma_board_equal(b.cleared(first).cleared(second), b.cleared(first.union(second)));
}

/// Emptying no cell changes nothing.
pub proof fn lemma_cleared_none(b: Board)
    requires
        b.well_formed(),
    ensures
        b.cleared(Set::empty()) == b,
{
    lemma_cleared(b, Set::empty());
    lemma_board_equal(b.cleared(Set::empty()), b);
}

/// Filling one empty cell of a row leaves one empty cell fewer among the
/// cells counted, if the cell is among them.
proof fn lemma_row_filled(row: Seq<Option<Ball>>, c: int, ball: Ball, k: int)
    requires
        0 <= c < row.len(),
        row[c].is_none(),
        0 <= k <= row.len(),
    ensures
        row_vacancies(row, k) == row_vacancies(row.update(c, Some(ball)), k) + if c < k {
            1nat
        } else {
            0nat
        },
    decreases k,
{
    if k > 0 {
        lemma_row_filled(row, c, ball, k - 1);
    }
}

/// A row counts the same whatever the other rows hold.
proof fn lemma_rows_filled(b: Board, p: Pos, ball: Ball, k: int)
    requires
        b.square(),
        b.vacant(p),
        0 <= k <= b.size(),
    ensures
        b.vacancies_upto(k) == b.with_cell(p, Some(ball)).vacancies_upto(k) + if p.0 < k {
            1nat
        } else {
            0nat
        },
    decreases k,
{
    if k > 0 {
        lemma_rows_filled(b, p, ball, k - 1);
        assert(b.cells[p.0].len() == b.size());
        if p.0 == k - 1 {
            lemma_row_filled(b.cells[p.0], p.1, ball, b.size());
        }
    }
}

/// A new ball takes up one empty cell.
pub proof fn lemma_placed_vacancies(b: Board, p: Pos, color: BallColor)
    requires
        b.square(),
        b.vacant(p),
    ensures
        b.vacancies() == b.placed(p, color).vacancies() + 1,
{
    let ball = Ball { id: (b.ball_count + 1) as u32, color };
    lemma_rows_filled(b, p, ball, b.size());
    assert(b.placed(p, color).cells == b.with_cell(p, Some(ball)).cells);
    lemma_same_cells_same_vacancies(b.placed(p, color), b.with_cell(p, Some(ball)), b.size());
}

/// The count of empty cells depends on the cells alone.
proof fn lemma_same_cells_same_vacancies(a: Board, b: Board, k: int)
    requires
        a.cells == b.cells,
    ensures
        a.vacancies_upto(k) == b.vacancies_upto(k),
    decreases k,
{
    if k > 0 {
        lemma_same_cells_same_vacancies(a, b, k - 1);
    }
}

/// Taking a ball from one cell to another leaves as many cells empty as
/// before.
pub proof fn lemma_moved_vacancies(b: Board, from: Pos, to: Pos)
    requires
        b.well_formed(),
        b.occupied(from),
        b.vacant(to),
    ensures
        b.moved(from, to).vacancies() == b.vacancies(),
{
    let ball = b.at(from).unwrap();
    let mid = b.with_cell(to, Some(ball));
    let after = mid.with_cell(from, None);
    lemma_with_cell(b, to, Some(ball));
    lemma_with_cell(mid, from, None);
    lemma_rows_filled(b, to, ball, b.size());
    // Putting the ball back on `from` would undo the second step.
    assert(after.vacant(from));
    lemma_with_cell(after, from, Some(ball));
    lemma_rows_filled(after, from, ball, b.size());
    let back = after.with_cell(from, Some(ball));
    assert(mid.cells[from.0].len() == b.size());
    assert(back.cells[from.0] =~= mid.cells[from.0]);
    assert(back.cells =~= mid.cells);
    lemma_same_cells_same_vacancies(back, mid, b.size());
}

/// A row without an empty cell counts none.
proof fn lemma_row_full(row: Seq<Option<Ball>>, k: int)
    requires
        0 <= k <= row.len(),
        forall|c: int| 0 <= c < row.len() ==> (#[trigger] row[c]).is_some(),
    ensures
        row_vacancies(row, k) == 0,
    decreases k,
{
    if k > 0 {
        lemma_row_full(row, k - 1);
    }
}

proof fn lemma_rows_full(b: Board, k: int)
    requires
        b.square(),
        b.is_full(),
        0 <= k <= b.size(),
    ensures
        b.vacancies_upto(k) == 0,
    decreases k,
{
    if k > 0 {
        lemma_rows_full(b, k - 1);
        let row = b.cells[k - 1];
        assert forall|c: int| 0 <= c < row.len() implies (#[trigger] row[c]).is_some() by {
            assert(b.in_bounds((k - 1, c)));
            assert(b.occupied((k - 1, c)));
        }
        lemma_row_full(row, row.len() as int);
    }
}

/// A full board has no empty cell to count.
pub proof fn lemma_full_no_vacancies(b: Board)
    requires
        b.square(),
        b.is_full(),
    ensures
        b.vacancies() == 0,
{
    lemma_rows_full(b, b.size());
}

} // verus!
