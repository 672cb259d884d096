//! Can a ball reach a cell? Breadth-first search over the empty cells.

use crate::board::{Board, Pos};
use crate::grid::Grid;
use crate::lines::{lemma_line_model_push, line_model, pos_model};
use std::collections::VecDeque;
use vstd::prelude::*;

verus! {

/// Two cells that share a side. Cells that touch only at a corner are not
/// adjacent: a ball never moves diagonally.
pub open spec fn adjacent(p: Pos, q: Pos) -> bool {
    ||| (p.0 == q.0 && (p.1 == q.1 + 1 || p.1 + 1 == q.1))
    ||| (p.1 == q.1 && (p.0 == q.0 + 1 || p.0 + 1 == q.0))
}

/// A walk from `start`: it begins on `start`, and every further cell is an
/// empty cell of the board next to the one before it.
pub open spec fn is_walk(b: Board, start: Pos, walk: Seq<Pos>) -> bool {
    &&& walk.len() >= 1
    &&& walk[0] == start
    &&& b.in_bounds(start)
    &&& forall|i: int|
        1 <= i < walk.len() ==> b.vacant(#[trigger] walk[i]) && adjacent(walk[i - 1], walk[i])
}

/// A path for the ball on `start` to the empty cell `goal`.
pub open spec fn is_path(b: Board, start: Pos, goal: Pos, path: Seq<Pos>) -> bool {
    &&& b.occupied(start)
    &&& b.vacant(goal)
    &&& is_walk(b, start, path)
    &&& path.last() == goal
}

/// The ball on `start` can be taken to `goal` through empty cells.
pub open spec fn reachable(b: Board, start: Pos, goal: Pos) -> bool {
    exists|path: Seq<Pos>| is_path(b, start, goal, path)
}

/// A path that no other path undercuts.
pub open spec fn is_shortest_path(b: Board, start: Pos, goal: Pos, path: Seq<Pos>) -> bool {
    &&& is_path(b, start, goal, path)
    &&& forall|other: Seq<Pos>| #[trigger]
        is_path(b, start, goal, other) ==> path.len() <= other.len()
}

/// The cell next to `p` in the `d`-th direction tried: right, left, down, up.
pub open spec fn step(p: Pos, d: int) -> Pos {
    if d == 0 {
        (p.0, p.1 + 1)
    } else if d == 1 {
        (p.0, p.1 - 1)
    } else if d == 2 {
        (p.0 + 1, p.1)
    } else {
        (p.0 - 1, p.1)
    }
}

/// What a search knows at some moment: for each cell found, a walk to it; and
/// the cells whose neighbours have all been looked at.
struct Search {
    found: Map<Pos, Seq<Pos>>,
    done: Set<Pos>,
}

impl Search {
    /// The walks recorded are walks, and around every finished cell each
    /// empty neighbour has been found, by a walk at most one step longer.
    spec fn sound(self, b: Board, start: Pos) -> bool {
        &&& self.found.contains_key(start)
        &&& self.found[start].len() == 1
        &&& forall|v: Pos| #[trigger]
            self.found.contains_key(v) ==> is_walk(b, start, self.found[v])
                && self.found[v].last() == v
        &&& forall|v: Pos| #[trigger] self.done.contains(v) ==> self.found.contains_key(v)
        &&& forall|v: Pos, w: Pos|
            #![trigger self.done.contains(v), adjacent(v, w)]
            self.done.contains(v) && adjacent(v, w) && b.vacant(w) ==> self.found.contains_key(w)
                && self.found[w].len() <= self.found[v].len() + 1
    }

    /// Every cell found but not finished was found by a walk of at least
    /// `level` cells.
    spec fn frontier_from(self, level: int) -> bool {
        forall|v: Pos| #[trigger]
            self.found.contains_key(v) && !self.done.contains(v) ==> self.found[v].len() >= level
    }
}

/// Along any walk, each cell has been found by a walk no longer than the
/// part of the walk that leads to it, unless that part already has `level`
/// cells.
proof fn lemma_walk_is_tracked(
    s: Search,
    b: Board,
    start: Pos,
    level: int,
    walk: Seq<Pos>,
    i: int,
)
    requires
        s.sound(b, start),
        s.frontier_from(level),
        is_walk(b, start, walk),
        0 <= i < walk.len(),
    ensures
        (s.found.contains_key(walk[i]) && s.found[walk[i]].len() <= i + 1) || level <= i + 1,
    decreases i,
{
    if i > 0 {
        lemma_walk_is_tracked(s, b, start, level, walk, i - 1);
        if level > i {
            let v = walk[i - 1];
            let w = walk[i];
            assert(s.found.contains_key(v));
            assert(s.done.contains(v));
            assert(b.vacant(w) && adjacent(v, w));
        }
    }
}

/// Cells of a board of side `n` are told apart by `row * n + column`.
proof fn lemma_cell_codes(n: int, r1: int, c1: int, r2: int, c2: int)
    requires
        0 <= r1 < n,
        0 <= c1 < n,
        0 <= r2 < n,
        0 <= c2 < n,
    ensures
        0 <= r1 * n + c1 < n * n,
        r1 * n + c1 == r2 * n + c2 ==> r1 == r2 && c1 == c2,
{
    assert(0 <= r1 * n + c1 < n * n) by (nonlinear_arith)
        requires
            0 <= r1 < n,
            0 <= c1 < n,
    ;
    assert(r1 * n + c1 == r2 * n + c2 ==> r1 == r2) by (nonlinear_arith)
        requires
            0 <= r1 < n,
            0 <= c1 < n,
            0 <= r2 < n,
            0 <= c2 < n,
    ;
}

/// The neighbour of a cell in the `d`-th direction, unless it falls off a
/// board of side `n`.
fn neighbor(n: usize, r: usize, c: usize, d: usize) -> (next: Option<(usize, usize)>)
    requires
        r < n,
        c < n,
        d < 4,
    ensures
        ({
            let q = step((r as int, c as int), d as int);
            match next {
                Some(cell) => pos_model(cell) == q && cell.0 < n && cell.1 < n,
                None => !(0 <= q.0 < n && 0 <= q.1 < n),
            }
        }),
{
    if d == 0 {
        if c + 1 < n {
            Some((r, c + 1))
        } else {
            None
        }
    } else if d == 1 {
        if c > 0 {
            Some((r, c - 1))
        } else {
            None
        }
    } else if d == 2 {
        if r + 1 < n {
            Some((r + 1, c))
        } else {
            None
        }
    } else {
        if r > 0 {
            Some((r - 1, c))
        } else {
            None
        }
    }
}

/// An `n` by `n` table of marks, none of them set.
fn blank_marks(n: usize) -> (marks: Vec<Vec<bool>>)
    ensures
        marks@.len() == n,
        forall|r: int| 0 <= r < n ==> (#[trigger] marks@[r])@.len() == n,
        forall|r: int, c: int| 0 <= r < n && 0 <= c < n ==> !(#[trigger] marks@[r]@[c]),
{
    let mut marks: Vec<Vec<bool>> = Vec::new();
    let mut r: usize = 0;
    while r < n
        invariant
            r <= n,
            marks@.len() == r,
            forall|i: int| 0 <= i < r ==> (#[trigger] marks@[i])@.len() == n,
            forall|i: int, c: int| 0 <= i < r && 0 <= c < n ==> !(#[trigger] marks@[i]@[c]),
        decreases n - r,
    {
        let mut row: Vec<bool> = Vec::new();
        let mut c: usize = 0;
        while c < n
            invariant
                c <= n,
                row@.len() == c,
                forall|j: int| 0 <= j < c ==> !(#[trigger] row@[j]),
            decreases n - c,
        {
            row.push(false);
            c += 1;
        }
        marks.push(row);
        r += 1;
    }
    marks
}

/// A copy of a list of positions.
fn copy_path(path: &Vec<(usize, usize)>) -> (copy: Vec<(usize, usize)>)
    ensures
        copy@ == path@,
{
    let mut copy: Vec<(usize, usize)> = Vec::new();
    let mut i: usize = 0;
    while i < path.len()
        invariant
            i <= path@.len(),
            copy@ == path@.subrange(0, i as int),
        decreases path@.len() - i,
    {
        copy.push(path[i]);
        assert(copy@ =~= path@.subrange(0, i + 1));
        i += 1;
    }
    assert(copy@ =~= path@);
    copy
}

/// Number of steps between two cells when nothing is in the way.
pub open spec fn manhattan(p: Pos, q: Pos) -> int {
    (if p.0 <= q.0 {
        q.0 - p.0
    } else {
        p.0 - q.0
    }) + (if p.1 <= q.1 {
        q.1 - p.1
    } else {
        p.1 - q.1
    })
}

/// No ball but the one on `start` lies on the board.
pub open spec fn open_board(b: Board, start: Pos) -> bool {
    &&& b.occupied(start)
    &&& forall|p: Pos| b.in_bounds(p) && p != start ==> #[trigger] b.vacant(p)
}

/// A walk cannot get further from its start than it has steps.
pub proof fn lemma_walk_covers_distance(b: Board, start: Pos, walk: Seq<Pos>, i: int)
    requires
        is_walk(b, start, walk),
        0 <= i < walk.len(),
    ensures
        manhattan(start, walk[i]) <= i,
    decreases i,
{
    if i > 0 {
        lemma_walk_covers_distance(b, start, walk, i - 1);
        assert(b.vacant(walk[i]) && adjacent(walk[i - 1], walk[i]));
    }
}

/// On a board with no other ball, a walk leads from the start to any cell
/// in as many steps as the two are apart.
proof fn lemma_open_walk(b: Board, start: Pos, goal: Pos) -> (walk: Seq<Pos>)
    requires
        b.well_formed(),
        open_board(b, start),
        b.in_bounds(goal),
    ensures
        is_walk(b, start, walk),
        walk.last() == goal,
        walk.len() == manhattan(start, goal) + 1,
    decreases manhattan(start, goal),
{
    if goal == start {
        seq![start]
    } else {
        let before: Pos = if goal.0 < start.0 {
            (goal.0 + 1, goal.1)
        } else if goal.0 > start.0 {
            (goal.0 - 1, goal.1)
        } else if goal.1 < start.1 {
            (goal.0, goal.1 + 1)
        } else {
            (goal.0, goal.1 - 1)
        };
        assert(b.in_bounds(before));
        assert(manhattan(start, before) == manhattan(start, goal) - 1);
        let shorter = lemma_open_walk(b, start, before);
        let walk = shorter.push(goal);
        assert(adjacent(before, goal));
        assert(b.vacant(goal));
        assert forall|i: int| 1 <= i < walk.len() implies b.vacant(#[trigger] walk[i]) && adjacent(
            walk[i - 1],
            walk[i],
        ) by {
            if i < shorter.len() {
                assert(walk[i] == shorter[i]);
                assert(walk[i - 1] == shorter[i - 1]);
            }
        }
        walk
    }
}

/// On a board that holds no ball but the one to move, every other cell can
/// be reached, and a shortest path to it has as many steps as the two cells
/// are apart: it lists one cell more than that.
pub proof fn lemma_open_board_distance(b: Board, start: Pos, goal: Pos, path: Seq<Pos>)
    requires
        b.well_formed(),
        open_board(b, start),
        b.in_bounds(goal),
        goal != start,
    ensures
        reachable(b, start, goal),
        is_shortest_path(b, start, goal, path) ==> path.len() == manhattan(start, goal) + 1,
{
    let direct = lemma_open_walk(b, start, goal);
    assert(b.vacant(goal));
    assert(is_path(b, start, goal, direct));
    if is_shortest_path(b, start, goal, path) {
        lemma_walk_covers_distance(b, start, path, path.len() - 1);
    }
}

/// One entry of the search frontier: a cell and the walk that found it.
type Waiting = ((usize, usize), Vec<(usize, usize)>);

/// `v` is the cell of some entry of the frontier.
spec fn in_queue(queue: Seq<Waiting>, v: Pos) -> bool {
    exists|i: int| 0 <= i < queue.len() && pos_model((#[trigger] queue[i]).0) == v
}

/// Each entry of the frontier carries the walk recorded for its cell, the
/// entries are unfinished, and their walks have `level` cells or one more,
/// the shorter ones in front.
spec fn queue_ok(queue: Seq<Waiting>, s: Search, level: int) -> bool {
    &&& forall|i: int|
        0 <= i < queue.len() ==> {
            let v = pos_model((#[trigger] queue[i]).0);
            &&& s.found.contains_key(v)
            &&& !s.done.contains(v)
            &&& line_model(queue[i].1@) == s.found[v]
            &&& level <= queue[i].1@.len() <= level + 1
        }
    &&& forall|i: int, j: int|
        0 <= i <= j < queue.len() ==> (#[trigger] queue[i]).1@.len() <= (
        #[trigger] queue[j]).1@.len()
    &&& forall|i: int, j: int|
        0 <= i < j < queue.len() ==> pos_model((#[trigger] queue[i]).0) != pos_model(
            (#[trigger] queue[j]).0,
        )
}

/// The table of marks has a mark exactly on the cells found, and `seen`
/// holds exactly their codes.
spec fn marks_ok(marks: Seq<Vec<bool>>, n: int, s: Search, seen: Set<int>) -> bool {
    &&& marks.len() == n
    &&& forall|r: int| 0 <= r < n ==> (#[trigger] marks[r])@.len() == n
    &&& forall|v: Pos| #[trigger] s.found.contains_key(v) ==> 0 <= v.0 < n && 0 <= v.1 < n
    &&& forall|r: int, c: int|
        0 <= r < n && 0 <= c < n ==> (#[trigger] marks[r]@[c] <==> s.found.contains_key((r, c)))
    &&& forall|r: int, c: int|
        0 <= r < n && 0 <= c < n ==> (#[trigger] marks[r]@[c] <==> seen.contains(r * n + c))
    &&& seen.finite()
    &&& forall|x: int| #[trigger] seen.contains(x) ==> 0 <= x < n * n
}

/// What holds of a search between two steps. `current` is the cell whose
/// neighbours are being looked at, if one is.
#[verifier::opaque]
spec fn search_inv(
    b: Board,
    start: Pos,
    goal: Pos,
    s: Search,
    queue: Seq<Waiting>,
    level: int,
    marks: Seq<Vec<bool>>,
    seen: Set<int>,
    current: Option<Pos>,
) -> bool {
    &&& b.well_formed()
    &&& s.sound(b, start)
    &&& queue_ok(queue, s, level)
    &&& level >= 1
    &&& forall|v: Pos| #[trigger]
        s.found.contains_key(v) && !s.done.contains(v) ==> Some(v) == current || in_queue(queue, v)
    &&& forall|v: Pos| #[trigger] s.done.contains(v) ==> s.found[v].len() <= level
    &&& forall|v: Pos| #[trigger] s.found.contains_key(v) ==> s.found[v].len() <= level + 1
    &&& !s.done.contains(goal)
    &&& marks_ok(marks, b.size(), s, seen)
    &&& current matches Some(u) ==> s.found.contains_key(u) && !s.done.contains(u)
        && s.found[u].len() == level && !in_queue(queue, u)
}

/// The table of marks is as wide and as high as the board, and a cell is
/// marked exactly when it has been found.
proof fn lemma_search_marks(
    b: Board,
    start: Pos,
    goal: Pos,
    s: Search,
    queue: Seq<Waiting>,
    level: int,
    marks: Seq<Vec<bool>>,
    seen: Set<int>,
    current: Option<Pos>,
)
    requires
        search_inv(b, start, goal, s, queue, level, marks, seen, current),
    ensures
        marks.len() == b.size(),
        forall|r: int| 0 <= r < b.size() ==> (#[trigger] marks[r])@.len() == b.size(),
        forall|r: int, c: int|
            0 <= r < b.size() && 0 <= c < b.size() ==> (#[trigger] marks[r]@[c]
                <==> s.found.contains_key((r, c))),
        seen.finite(),
        seen.len() <= b.size() * b.size(),
        current matches Some(u) ==> s.found.contains_key(u),
{
    reveal(search_inv);
    lemma_seen_bounded(seen, b.size());
}

/// At most `n * n` codes have been seen.
proof fn lemma_seen_bounded(seen: Set<int>, n: int)
    requires
        n >= 0,
        seen.finite(),
        forall|x: int| #[trigger] seen.contains(x) ==> 0 <= x < n * n,
    ensures
        seen.len() <= n * n,
{
    assert(n * n >= 0) by (nonlinear_arith)
        requires
            n >= 0,
    ;
    vstd::set_lib::lemma_int_range(0, n * n);
    vstd::set_lib::lemma_len_subset(seen, vstd::set_lib::set_int_range(0, n * n));
}

/// The search as it begins: only the start is found, and it waits.
proof fn lemma_search_begins(
    b: Board,
    start: Pos,
    goal: Pos,
    queue: Seq<Waiting>,
    marks: Seq<Vec<bool>>,
) -> (r: (Search, Set<int>))
    requires
        b.well_formed(),
        b.occupied(start),
        b.vacant(goal),
        queue.len() == 1,
        pos_model(queue[0].0) == start,
        line_model(queue[0].1@) == seq![start],
        marks.len() == b.size(),
        forall|r: int| 0 <= r < b.size() ==> (#[trigger] marks[r])@.len() == b.size(),
        forall|r: int, c: int|
            0 <= r < b.size() && 0 <= c < b.size() ==> (#[trigger] marks[r]@[c] <==> (r, c)
                == start),
    ensures
        search_inv(b, start, goal, r.0, queue, 1, marks, r.1, None),
        r.1.len() == 1,
{
    reveal(search_inv);
    let n = b.size();
    let s = Search {
        found: Map::<Pos, Seq<Pos>>::empty().insert(start, seq![start]),
        done: Set::empty(),
    };
    let seen = Set::<int>::empty().insert(start.0 * n + start.1);
    assert(in_queue(queue, start));
    assert forall|r: int, c: int| 0 <= r < n && 0 <= c < n implies (#[trigger] marks[r]@[c]
        <==> seen.contains(r * n + c)) by {
        lemma_cell_codes(n, r, c, start.0, start.1);
    }
    lemma_cell_codes(n, start.0, start.1, start.0, start.1);
    assert(queue[0].1@.len() == line_model(queue[0].1@).len());
    (s, seen)
}

/// Taking the first entry off the frontier makes its cell the current one.
proof fn lemma_search_pop(
    b: Board,
    start: Pos,
    goal: Pos,
    s: Search,
    queue: Seq<Waiting>,
    level: int,
    marks: Seq<Vec<bool>>,
    seen: Set<int>,
)
    requires
        search_inv(b, start, goal, s, queue, level, marks, seen, None),
        queue.len() > 0,
    ensures
        search_inv(
            b,
            start,
            goal,
            s,
            queue.subrange(1, queue.len() as int),
            queue[0].1@.len() as int,
            marks,
            seen,
            Some(pos_model(queue[0].0)),
        ),
        s.found[pos_model(queue[0].0)] == line_model(queue[0].1@),
{
    reveal(search_inv);
    let rest = queue.subrange(1, queue.len() as int);
    let u = pos_model(queue[0].0);
    let next = queue[0].1@.len() as int;
    assert(forall|i: int| 0 <= i < rest.len() ==> #[trigger] rest[i] == queue[i + 1]);
    assert(queue_ok(rest, s, next));
    assert forall|v: Pos| #[trigger]
        s.found.contains_key(v) && !s.done.contains(v) implies Some(v) == Some(u) || in_queue(
        rest,
        v,
    ) by {
        assert(in_queue(queue, v));
        let i = choose|i: int| 0 <= i < queue.len() && pos_model((#[trigger] queue[i]).0) == v;
        if i > 0 {
            assert(rest[i - 1] == queue[i]);
        }
    }
    assert(s.found[u].len() == line_model(queue[0].1@).len());
    assert(!in_queue(rest, u)) by {
        if in_queue(rest, u) {
            let i = choose|i: int| 0 <= i < rest.len() && pos_model((#[trigger] rest[i]).0) == u;
            assert(rest[i] == queue[i + 1]);
        }
    }
}

/// When the goal is the current cell, the walk recorded for it is a path,
/// and no path is shorter.
proof fn lemma_search_arrived(
    b: Board,
    start: Pos,
    goal: Pos,
    s: Search,
    queue: Seq<Waiting>,
    level: int,
    marks: Seq<Vec<bool>>,
    seen: Set<int>,
)
    requires
        search_inv(b, start, goal, s, queue, level, marks, seen, Some(goal)),
        b.occupied(start),
        b.vacant(goal),
    ensures
        is_shortest_path(b, start, goal, s.found[goal]),
{
    reveal(search_inv);
    assert(is_path(b, start, goal, s.found[goal]));
    assert(s.frontier_from(level)) by {
        assert forall|v: Pos| #[trigger]
            s.found.contains_key(v) && !s.done.contains(v) implies s.found[v].len() >= level by {
            if v != goal {
                assert(in_queue(queue, v));
            }
        }
    }
    assert forall|other: Seq<Pos>| #[trigger]
        is_path(b, start, goal, other) implies s.found[goal].len() <= other.len() by {
        lemma_walk_is_tracked(s, b, start, level, other, other.len() - 1);
    }
}

/// When nothing waits any more, the goal cannot be reached.
proof fn lemma_search_exhausted(
    b: Board,
    start: Pos,
    goal: Pos,
    s: Search,
    queue: Seq<Waiting>,
    level: int,
    marks: Seq<Vec<bool>>,
    seen: Set<int>,
)
    requires
        search_inv(b, start, goal, s, queue, level, marks, seen, None),
        queue.len() == 0,
    ensures
        !reachable(b, start, goal),
{
    reveal(search_inv);
    assert forall|p: Seq<Pos>| !is_path(b, start, goal, p) by {
        if is_path(b, start, goal, p) {
            assert forall|v: Pos| #[trigger] s.found.contains_key(v) implies s.done.contains(
                v,
            ) by {
                if !s.done.contains(v) {
                    assert(in_queue(queue, v));
                }
            }
            lemma_walk_is_tracked(s, b, start, p.len() as int + 1, p, p.len() - 1);
        }
    }
}

/// A newly met empty neighbour of the current cell joins the frontier.
proof fn lemma_search_push(
    b: Board,
    start: Pos,
    goal: Pos,
    s: Search,
    queue: Seq<Waiting>,
    level: int,
    marks: Seq<Vec<bool>>,
    seen: Set<int>,
    u: Pos,
    entry: Waiting,
    marked: Seq<Vec<bool>>,
) -> (r: (Search, Set<int>))
    requires
        search_inv(b, start, goal, s, queue, level, marks, seen, Some(u)),
        b.vacant(pos_model(entry.0)),
        adjacent(u, pos_model(entry.0)),
        !s.found.contains_key(pos_model(entry.0)),
        line_model(entry.1@) == s.found[u].push(pos_model(entry.0)),
        marked.len() == b.size(),
        forall|r: int| 0 <= r < b.size() ==> (#[trigger] marked[r])@.len() == b.size(),
        forall|r: int, c: int|
            0 <= r < b.size() && 0 <= c < b.size() ==> (#[trigger] marked[r]@[c] <==> (
            marks[r]@[c] || (r, c) == pos_model(entry.0))),
    ensures
        search_inv(b, start, goal, r.0, queue.push(entry), level, marked, r.1, Some(u)),
        r.1.finite(),
        seen.finite(),
        r.1.len() == seen.len() + 1,
        r.0.found[u] == s.found[u],
        r.0.found.contains_key(pos_model(entry.0)),
        forall|v: Pos| s.found.contains_key(v) ==> r.0.found.contains_key(v),
{
    reveal(search_inv);
    let n = b.size();
    let w = pos_model(entry.0);
    let after = Search { found: s.found.insert(w, s.found[u].push(w)), done: s.done };
    let seen_after = seen.insert(w.0 * n + w.1);
    let longer = queue.push(entry);
    assert(forall|i: int| 0 <= i < queue.len() ==> #[trigger] longer[i] == queue[i]);
    assert(longer[queue.len() as int] == entry);
    assert(entry.1@.len() == line_model(entry.1@).len());
    assert(after.sound(b, start)) by {
        assert forall|v: Pos| #[trigger] after.found.contains_key(v) implies is_walk(
            b,
            start,
            after.found[v],
        ) && after.found[v].last() == v by {
            if v == w {
                let walk = s.found[u];
                assert(is_walk(b, start, walk));
                assert(walk.last() == u);
                let grown = walk.push(w);
                assert forall|i: int| 1 <= i < grown.len() implies b.vacant(#[trigger] grown[i])
                    && adjacent(grown[i - 1], grown[i]) by {
                    if i < walk.len() {
                        assert(grown[i] == walk[i]);
                        assert(grown[i - 1] == walk[i - 1]);
                    }
                }
            } else {
                assert(s.found.contains_key(v));
            }
        }
        assert forall|v: Pos, x: Pos|
            #![trigger after.done.contains(v), adjacent(v, x)]
            after.done.contains(v) && adjacent(v, x) && b.vacant(
                x,
            ) implies after.found.contains_key(x) && after.found[x].len() <= after.found[v].len()
            + 1 by {
            assert(s.done.contains(v));
            assert(s.found.contains_key(x));
            assert(s.found.contains_key(v));
        }
    }
    assert(queue_ok(longer, after, level)) by {
        assert forall|i: int| 0 <= i < longer.len() implies {
            let v = pos_model((#[trigger] longer[i]).0);
            &&& after.found.contains_key(v)
            &&& !after.done.contains(v)
            &&& line_model(longer[i].1@) == after.found[v]
            &&& level <= longer[i].1@.len() <= level + 1
        } by {
            if i < queue.len() {
                assert(longer[i] == queue[i]);
                assert(s.found.contains_key(pos_model(queue[i].0)));
            }
        }
    }
    assert forall|v: Pos| #[trigger]
        after.found.contains_key(v) && !after.done.contains(v) implies Some(v) == Some(u)
        || in_queue(longer, v) by {
        if v == w {
            assert(pos_model(longer[queue.len() as int].0) == w);
        } else if v != u {
            assert(s.found.contains_key(v));
            assert(in_queue(queue, v));
            let i = choose|i: int| 0 <= i < queue.len() && pos_model((#[trigger] queue[i]).0) == v;
            assert(longer[i] == queue[i]);
        }
    }
    assert forall|v: Pos| #[trigger] after.done.contains(v) implies after.found[v].len()
        <= level by {
        assert(s.done.contains(v));
        assert(s.found.contains_key(v));
    }
    assert forall|v: Pos| #[trigger] after.found.contains_key(v) implies after.found[v].len()
        <= level + 1 by {
        if v != w {
            assert(s.found.contains_key(v));
        }
    }
    assert(marks_ok(marked, n, after, seen_after)) by {
        assert forall|r: int, c: int| 0 <= r < n && 0 <= c < n implies (#[trigger] marked[r]@[c]
            <==> seen_after.contains(r * n + c)) by {
            lemma_cell_codes(n, r, c, w.0, w.1);
        }
        assert forall|r: int, c: int| 0 <= r < n && 0 <= c < n implies (#[trigger] marked[r]@[c]
            <==> after.found.contains_key((r, c))) by {
            assert(marks[r]@[c] <==> s.found.contains_key((r, c)));
        }
        lemma_cell_codes(n, w.0, w.1, w.0, w.1);
        assert forall|v: Pos| #[trigger] after.found.contains_key(v) implies 0 <= v.0 < n && 0
            <= v.1 < n by {
            if v != w {
                assert(s.found.contains_key(v));
            }
        }
    }
    assert(!seen.contains(w.0 * n + w.1)) by {
        assert(marks[w.0]@[w.1] <==> seen.contains(w.0 * n + w.1));
        assert(marks[w.0]@[w.1] <==> s.found.contains_key((w.0, w.1)));
    }
    assert(!in_queue(longer, u)) by {
        if in_queue(longer, u) {
            let i = choose|i: int|
                0 <= i < longer.len() && pos_model((#[trigger] longer[i]).0) == u;
            if i < queue.len() {
                assert(longer[i] == queue[i]);
                assert(in_queue(queue, u));
            }
        }
    }
    (after, seen_after)
}

/// Once all four neighbours of the current cell have been looked at, the
/// cell is finished.
proof fn lemma_search_finish(
    b: Board,
    start: Pos,
    goal: Pos,
    s: Search,
    queue: Seq<Waiting>,
    level: int,
    marks: Seq<Vec<bool>>,
    seen: Set<int>,
    u: Pos,
) -> (after: Search)
    requires
        search_inv(b, start, goal, s, queue, level, marks, seen, Some(u)),
        u != goal,
        forall|e: int|
            0 <= e < 4 ==> (b.vacant(#[trigger] step(u, e)) ==> s.found.contains_key(step(u, e))),
    ensures
        search_inv(b, start, goal, after, queue, level, marks, seen, None),
{
    reveal(search_inv);
    let after = Search { found: s.found, done: s.done.insert(u) };
    assert forall|v: Pos, w: Pos|
        #![trigger after.done.contains(v), adjacent(v, w)]
        after.done.contains(v) && adjacent(v, w) && b.vacant(w) implies after.found.contains_key(
        w,
    ) && after.found[w].len() <= after.found[v].len() + 1 by {
        if v == u {
            assert(w == step(u, 0) || w == step(u, 1) || w == step(u, 2) || w == step(u, 3));
            assert(s.found.contains_key(w));
        } else {
            assert(s.done.contains(v));
        }
    }
    assert(after.sound(b, start)) by {
        assert forall|v: Pos| #[trigger] after.done.contains(v) implies after.found.contains_key(
            v,
        ) by {
            if v != u {
                assert(s.done.contains(v));
            }
        }
    }
    assert(queue_ok(queue, after, level)) by {
        assert forall|i: int| 0 <= i < queue.len() implies !after.done.contains(
            pos_model((#[trigger] queue[i]).0),
        ) by {
            let v = pos_model(queue[i].0);
            assert(!s.done.contains(v));
            if v == u {
                assert(in_queue(queue, u));
            }
        }
    }
    assert forall|v: Pos| #[trigger] after.done.contains(v) implies after.found[v].len()
        <= level by {
        if v != u {
            assert(s.done.contains(v));
        }
    }
    after
}

/// Searches breadth-first for a way to take the ball on `start_coords` to
/// `end_coords`, stepping only onto empty cells next to the one before.
///
/// A path is returned exactly when there is one: when a ball lies on the
/// start, the end is an empty cell, and empty cells link the two. The path
/// lists the cells from the start to the end, and no path is shorter.
pub fn find_path(grid: &Grid, start_coords: (usize, usize), end_coords: (usize, usize)) -> (path:
    Option<Vec<(usize, usize)>>)
    requires
        grid.well_formed(),
    ensures
        path.is_some() <==> reachable(grid@, pos_model(start_coords), pos_model(end_coords)),
        path matches Some(cells) ==> is_shortest_path(
            grid@,
            pos_model(start_coords),
            pos_model(end_coords),
            line_model(cells@),
        ),
        grid@.occupied(pos_model(end_coords)) ==> path.is_none(),
{
    let (start_row, start_col) = start_coords;
    let (end_row, end_col) = end_coords;
    let ghost b = grid@;
    let ghost start = pos_model(start_coords);
    let ghost goal = pos_model(end_coords);
    if !grid.is_within_bounds(start_row, start_col) || !grid.is_within_bounds(end_row, end_col) {
        assert forall|p: Seq<Pos>| !is_path(b, start, goal, p) by {}
        return None;
    }
    assert(b.cells[start.0].len() == b.size());
    assert(b.cells[goal.0].len() == b.size());
    if grid.cells[start_row][start_col].is_none() || grid.cells[end_row][end_col].is_some() {
        assert forall|p: Seq<Pos>| !is_path(b, start, goal, p) by {}
        return None;
    }
    let n = grid.size;
    let mut queue: VecDeque<Waiting> = VecDeque::new();
    let mut visited = blank_marks(n);
    let mut first: Vec<(usize, usize)> = Vec::new();
    first.push(start_coords);
    assert(line_model(first@) =~= seq![start]);
    queue.push_back((start_coords, first));
    visited[start_row][start_col] = true;
    let ghost mut level: int = 1;
    let ghost begun = lemma_search_begins(b, start, goal, queue@, visited@);
    let ghost mut s = begun.0;
    let ghost mut seen = begun.1;
    loop
        invariant
            grid.well_formed(),
            b == grid@,
            n == grid.size,
            start == pos_model(start_coords),
            goal == pos_model((end_row, end_col)),
            end_coords == (end_row, end_col),
            b.occupied(start),
            b.vacant(goal),
            search_inv(b, start, goal, s, queue@, level, visited@, seen, None),
        decreases 2 * (n * n - seen.len()) + queue@.len(),
    {
        let ghost measure = 2 * (n * n - seen.len()) + queue@.len();
        let ghost waiting = queue@;
        proof {
            lemma_search_marks(b, start, goal, s, queue@, level, visited@, seen, None);
        }
        match queue.pop_front() {
            None => {
                proof {
                    lemma_search_exhausted(b, start, goal, s, queue@, level, visited@, seen);
                }
                return None;
            },
            Some(((current_row, current_col), path)) => {
                let ghost u = pos_model((current_row, current_col));
                proof {
                    assert(waiting[0] == ((current_row, current_col), path));
                    lemma_search_pop(b, start, goal, s, waiting, level, visited@, seen);
                    level = path@.len() as int;
                    lemma_search_marks(b, start, goal, s, queue@, level, visited@, seen, Some(u));
                    reveal(search_inv);
                    assert(b.in_bounds(u));
                }
                if current_row == end_row && current_col == end_col {
                    proof {
                        lemma_search_arrived(b, start, goal, s, queue@, level, visited@, seen);
                    }
                    return Some(path);
                }
                let mut d: usize = 0;
                while d < 4
                    invariant
                        d <= 4,
                        grid.well_formed(),
                        b == grid@,
                        n == grid.size,
                        u == pos_model((current_row, current_col)),
                        current_row < n,
                        current_col < n,
                        search_inv(b, start, goal, s, queue@, level, visited@, seen, Some(u)),
                        s.found[u] == line_model(path@),
                        forall|e: int|
                            0 <= e < d ==> (b.vacant(#[trigger] step(u, e))
                                ==> s.found.contains_key(step(u, e))),
                        seen.finite(),
                        2 * (n * n - seen.len()) + queue@.len() < measure,
                    decreases 4 - d,
                {
                    proof {
                        lemma_search_marks(
                            b,
                            start,
                            goal,
                            s,
                            queue@,
                            level,
                            visited@,
                            seen,
                            Some(u),
                        );
                    }
                    match neighbor(n, current_row, current_col, d) {
                        None => {},
                        Some((new_row, new_col)) => {
                            let ghost w = pos_model((new_row, new_col));
                            assert(w == step(u, d as int));
                            assert(b.cells[w.0].len() == b.size());
                            if !visited[new_row][new_col] && grid.cells[new_row][new_col].is_none() {
                                let mut new_path = copy_path(&path);
                                new_path.push((new_row, new_col));
                                let ghost marks = visited@;
                                visited[new_row][new_col] = true;
                                let ghost earlier = queue@;
                                queue.push_back(((new_row, new_col), new_path));
                                proof {
                                    lemma_line_model_push(path@, (new_row, new_col));
                                    assert(adjacent(u, w));
                                    let grown = lemma_search_push(
                                        b,
                                        start,
                                        goal,
                                        s,
                                        earlier,
                                        level,
                                        marks,
                                        seen,
                                        u,
                                        ((new_row, new_col), new_path),
                                        visited@,
                                    );
                                    s = grown.0;
                                    seen = grown.1;
                                }
                            }
                        },
                    }
                    d += 1;
                }
                proof {
                    s = lemma_search_finish(b, start, goal, s, queue@, level, visited@, seen, u);
                    lemma_search_marks(b, start, goal, s, queue@, level, visited@, seen, None);
                }
            },
        }
    }
}

} // verus!
