//! The reachable-space evaluator: a breadth-first flood fill over open cells.
use vstd::prelude::*;

use crate::grid::{adjacent, body_contains, has_neighbors, step, Board, Coord, Direction};

verus! {

/// `p` is a walk from `start` whose every later cell is open and next to the
/// cell before it. The start itself is not required to be open.
pub open spec fn is_walk(board: Board, start: Coord, p: Seq<Coord>) -> bool {
    &&& p.len() >= 1
    &&& p[0] == start
    &&& forall|i: int|
        1 <= i < p.len() ==> adjacent(p[i - 1], #[trigger] p[i]) && board.open_cell(p[i])
}

/// Some walk from `start` ends at `c`.
pub open spec fn reachable(board: Board, start: Coord, c: Coord) -> bool {
    exists|p: Seq<Coord>| is_walk(board, start, p) && p.last() == c
}

/// The cells that a flood fill from `start` reaches, `start` included.
pub open spec fn reach_set(board: Board, start: Coord) -> Set<Coord> {
    Set::new(|c: Coord| reachable(board, start, c))
}

/// The cells with `0 <= x < w` and `0 <= y < h`.
pub open spec fn rect(w: int, h: int) -> Set<Coord> {
    Set::new(|c: Coord| 0 <= c.x < w && 0 <= c.y < h)
}

/// The cells of row `y` with `0 <= x < w`.
pub open spec fn row(w: int, y: int) -> Set<Coord> {
    Set::new(|c: Coord| 0 <= c.x < w && c.y == y)
}

proof fn lemma_row_len(w: int, y: int)
    requires
        0 <= w <= i32::MAX,
        0 <= y <= i32::MAX,
    ensures
        row(w, y).finite(),
        row(w, y).len() == w,
    decreases w,
{
    if w == 0 {
        assert(row(w, y) =~= Set::empty());
    } else {
        lemma_row_len(w - 1, y);
        let c = Coord { x: (w - 1) as i32, y: y as i32 };
        assert(row(w, y) =~= row(w - 1, y).insert(c));
    }
}

/// The rectangle of `w` columns and `h` rows holds `w * h` cells.
pub proof fn lemma_rect_len(w: int, h: int)
    requires
        0 <= w <= i32::MAX,
        0 <= h <= i32::MAX,
    ensures
        rect(w, h).finite(),
        rect(w, h).len() == w * h,
    decreases h,
{
    if h == 0 {
        assert(rect(w, h) =~= Set::empty());
    } else {
        lemma_rect_len(w, h - 1);
        lemma_row_len(w, h - 1);
        assert(rect(w, h) =~= rect(w, h - 1) + row(w, h - 1));
        assert(rect(w, h - 1).disjoint(row(w, h - 1)));
        vstd::set_lib::lemma_set_disjoint_lens(rect(w, h - 1), row(w, h - 1));
        assert(w * (h - 1) + w == w * h) by (nonlinear_arith);
    }
}

/// Every open neighbour of `c` is in `vis`.
pub open spec fn closed(board: Board, vis: Seq<Coord>, c: Coord) -> bool {
    &&& board.open_cell(step(c, Direction::Up)) ==> vis.contains(step(c, Direction::Up))
    &&& board.open_cell(step(c, Direction::Down)) ==> vis.contains(step(c, Direction::Down))
    &&& board.open_cell(step(c, Direction::Left)) ==> vis.contains(step(c, Direction::Left))
    &&& board.open_cell(step(c, Direction::Right)) ==> vis.contains(step(c, Direction::Right))
}

/// A walk to `c` extends by one open neighbour of `c`.
pub proof fn lemma_reach_extend(board: Board, start: Coord, c: Coord, n: Coord)
    requires
        reachable(board, start, c),
        adjacent(c, n),
        board.open_cell(n),
    ensures
        reachable(board, start, n),
{
    let p = choose|p: Seq<Coord>| is_walk(board, start, p) && p.last() == c;
    let q = p.push(n);
    assert forall|i: int| 1 <= i < q.len() implies adjacent(q[i - 1], #[trigger] q[i])
        && board.open_cell(q[i]) by {
        if i < p.len() {
            assert(q[i] == p[i] && q[i - 1] == p[i - 1]);
        }
    }
    assert(is_walk(board, start, q) && q.last() == n);
}

proof fn lemma_walk_stays(board: Board, start: Coord, vis: Seq<Coord>, p: Seq<Coord>, i: int)
    requires
        vis.contains(start),
        forall|c: Coord| #[trigger] vis.contains(c) ==> closed(board, vis, c),
        is_walk(board, start, p),
        0 <= i < p.len(),
    ensures
        vis.contains(p[i]),
    decreases i,
{
    if i > 0 {
        lemma_walk_stays(board, start, vis, p, i - 1);
        assert(adjacent(p[i - 1], p[i]) && board.open_cell(p[i]));
        assert(closed(board, vis, p[i - 1]));
    }
}

/// A set of cells that holds `start` and every open neighbour of each of
/// its cells holds every cell reachable from `start`.
pub proof fn lemma_closed_holds_reach(board: Board, start: Coord, vis: Seq<Coord>)
    requires
        vis.contains(start),
        forall|c: Coord| #[trigger] vis.contains(c) ==> closed(board, vis, c),
    ensures
        forall|c: Coord| reachable(board, start, c) ==> #[trigger] vis.contains(c),
{
    assert forall|c: Coord| reachable(board, start, c) implies #[trigger] vis.contains(c) by {
        let p = choose|p: Seq<Coord>| is_walk(board, start, p) && p.last() == c;
        lemma_walk_stays(board, start, vis, p, p.len() - 1);
    }
}

/// Marks `n` visited and queues it, if it is open and not yet visited.
fn try_visit(board: &Board, visited: &mut Vec<Coord>, frontier: &mut Vec<Coord>, n: Coord) -> (added:
    bool)
    ensures
        added == (!old(visited)@.contains(n) && board.open_cell(n)),
        added ==> final(visited)@ == old(visited)@.push(n) && final(frontier)@ == old(
            frontier,
        )@.push(n),
        !added ==> final(visited)@ == old(visited)@ && final(frontier)@ == old(frontier)@,
        forall|c: Coord| #[trigger]
            final(visited)@.contains(c) <==> (old(visited)@.contains(c) || (added && c == n)),
        forall|c: Coord| #[trigger]
            final(frontier)@.contains(c) <==> (old(frontier)@.contains(c) || (added && c == n)),
        old(visited)@.no_duplicates() ==> final(visited)@.no_duplicates(),
{
    let seen = body_contains(visited, &n);
    assert(seen == visited@.contains(n));
    if !seen && board.is_empty(&n) {
        let ghost v0 = visited@;
        let ghost f0 = frontier@;
        visited.push(n);
        frontier.push(n);
        assert forall|c: Coord| #[trigger] visited@.contains(c) <==> (v0.contains(c) || c == n) by {
            if v0.contains(c) {
                let j = choose|j: int| 0 <= j < v0.len() && v0[j] == c;
                assert(visited@[j] == c);
            }
            if c == n {
                assert(visited@[v0.len() as int] == c);
            }
        }
        assert forall|c: Coord| #[trigger] frontier@.contains(c) <==> (f0.contains(c) || c == n) by {
            if f0.contains(c) {
                let j = choose|j: int| 0 <= j < f0.len() && f0[j] == c;
                assert(frontier@[j] == c);
            }
            if c == n {
                assert(frontier@[f0.len() as int] == c);
            }
        }
        assert forall|i: int, j: int|
            0 <= i < visited@.len() && 0 <= j < visited@.len() && i != j && v0.no_duplicates()
            implies visited@[i] != visited@[j] by {
            if i < v0.len() && j == v0.len() {
                assert(v0[i] != n);
            }
            if j < v0.len() && i == v0.len() {
                assert(v0[j] != n);
            }
        }
        true
    } else {
        false
    }
}

proof fn lemma_visited_bound(board: Board, start: Coord, vis: Seq<Coord>)
    requires
        board.wf(),
        vis.no_duplicates(),
        forall|c: Coord| #[trigger] vis.contains(c) ==> c == start || board.in_bounds(c),
    ensures
        vis.len() <= board.width * board.height + 1,
{
    lemma_rect_len(board.width as int, board.height as int);
    let r = rect(board.width as int, board.height as int).insert(start);
    assert(vis.to_set().subset_of(r));
    vstd::set_lib::lemma_len_subset(vis.to_set(), r);
    vis.unique_seq_to_set();
}

proof fn lemma_reach_open_board(board: Board, start: Coord, c: Coord)
    requires
        board.wf(),
        board.in_bounds(start),
        board.in_bounds(c),
        forall|x: Coord| !board.occupied(x),
    ensures
        reachable(board, start, c),
    decreases
            (if c.x >= start.x { c.x - start.x } else { start.x - c.x }) + (if c.y >= start.y {
                c.y - start.y
            } else {
                start.y - c.y
            }),
{
    if c == start {
        assert(is_walk(board, start, seq![start]) && seq![start].last() == c);
    } else if c.x > start.x {
        let b = Coord { x: (c.x - 1) as i32, y: c.y };
        lemma_reach_open_board(board, start, b);
        assert(c == step(b, Direction::Right));
        lemma_reach_extend(board, start, b, c);
    } else if c.x < start.x {
        let b = Coord { x: (c.x + 1) as i32, y: c.y };
        lemma_reach_open_board(board, start, b);
        assert(c == step(b, Direction::Left));
        lemma_reach_extend(board, start, b, c);
    } else if c.y > start.y {
        let b = Coord { x: c.x, y: (c.y - 1) as i32 };
        lemma_reach_open_board(board, start, b);
        assert(c == step(b, Direction::Up));
        lemma_reach_extend(board, start, b, c);
    } else {
        let b = Coord { x: c.x, y: (c.y + 1) as i32 };
        lemma_reach_open_board(board, start, b);
        assert(c == step(b, Direction::Down));
        lemma_reach_extend(board, start, b, c);
    }
}

/// On a board with no snake segment anywhere, a flood fill from any cell of
/// the board reaches all `width * height` cells.
pub proof fn lemma_open_board_fill(board: Board, start: Coord)
    requires
        board.wf(),
        board.in_bounds(start),
        forall|x: Coord| !board.occupied(x),
    ensures
        reach_set(board, start).finite(),
        reach_set(board, start).len() == board.width * board.height,
{
    let r = rect(board.width as int, board.height as int);
    assert forall|c: Coord| #[trigger] r.contains(c) <==> reachable(board, start, c) by {
        if r.contains(c) {
            lemma_reach_open_board(board, start, c);
        }
        if reachable(board, start, c) {
            let p = choose|p: Seq<Coord>| is_walk(board, start, p) && p.last() == c;
            if p.len() > 1 {
                assert(board.open_cell(p[p.len() - 1]));
            }
        }
    }
    assert(reach_set(board, start) =~= r);
    lemma_rect_len(board.width as int, board.height as int);
}

/// Visits the open unvisited neighbours of `c`, queueing them on `next`.
fn expand(
    board: &Board,
    start: &Coord,
    c: Coord,
    visited: &mut Vec<Coord>,
    next: &mut Vec<Coord>,
)
    requires
        board.wf(),
        has_neighbors(*start),
        old(visited)@.no_duplicates(),
        old(visited)@.contains(c),
        forall|x: Coord| #[trigger]
            old(visited)@.contains(x) ==> x == *start || board.in_bounds(x),
        forall|x: Coord| #[trigger]
            old(visited)@.contains(x) ==> reachable(*board, *start, x),
        forall|k: int| 0 <= k < old(next)@.len() ==> old(visited)@.contains(#[trigger] old(next)@[k]),
    ensures
        final(visited)@.no_duplicates(),
        forall|x: Coord| #[trigger]
            final(visited)@.contains(x) ==> x == *start || board.in_bounds(x),
        forall|x: Coord| #[trigger]
            final(visited)@.contains(x) ==> reachable(*board, *start, x),
        forall|k: int|
            0 <= k < final(next)@.len() ==> final(visited)@.contains(#[trigger] final(next)@[k]),
        forall|x: Coord| #[trigger]
            final(visited)@.contains(x) ==> old(visited)@.contains(x) || final(next)@.contains(x),
        forall|x: Coord| old(visited)@.contains(x) ==> #[trigger] final(visited)@.contains(x),
        forall|x: Coord| old(next)@.contains(x) ==> #[trigger] final(next)@.contains(x),
        final(visited)@.len() - old(visited)@.len() == final(next)@.len() - old(next)@.len(),
        closed(*board, final(visited)@, c),
{
    let ghost v0 = visited@;
    let ghost n0 = next@;
    assert(c == *start || board.in_bounds(c));
    try_visit(board, visited, next, c.moved(Direction::Up));
    try_visit(board, visited, next, c.moved(Direction::Down));
    try_visit(board, visited, next, c.moved(Direction::Left));
    try_visit(board, visited, next, c.moved(Direction::Right));
    proof {
        assert forall|x: Coord| #[trigger] visited@.contains(x) implies reachable(
            *board,
            *start,
            x,
        ) by {
            if !v0.contains(x) {
                if x == step(c, Direction::Up) {
                    lemma_reach_extend(*board, *start, c, x);
                } else if x == step(c, Direction::Down) {
                    lemma_reach_extend(*board, *start, c, x);
                } else if x == step(c, Direction::Left) {
                    lemma_reach_extend(*board, *start, c, x);
                } else {
                    lemma_reach_extend(*board, *start, c, x);
                }
            }
        }
        assert forall|k: int| 0 <= k < next@.len() implies visited@.contains(#[trigger] next@[k]) by {
            if k < n0.len() {
                assert(n0.contains(n0[k]));
                assert(next@[k] == n0[k]);
            } else {
                assert(next@.contains(next@[k]));
            }
        }
    }
}

/// Counts the cells that a breadth-first flood fill from `start` reaches over
/// open cells, `start` included. `start` itself is taken as occupied by the
/// move and is not tested.
pub fn flood_fill_count(board: &Board, start: &Coord) -> (r: usize)
    requires
        board.wf(),
        has_neighbors(*start),
    ensures
        reach_set(*board, *start).finite(),
        r == reach_set(*board, *start).len(),
{
    let mut visited: Vec<Coord> = Vec::new();
    visited.push(*start);
    let mut frontier: Vec<Coord> = Vec::new();
    frontier.push(*start);
    proof {
        assert(visited@[0] == *start);
        assert(frontier@[0] == *start);
        assert(is_walk(*board, *start, seq![*start]));
        assert(seq![*start].last() == *start);
    }
    while frontier.len() > 0
        invariant
            board.wf(),
            has_neighbors(*start),
            visited@.no_duplicates(),
            visited@.contains(*start),
            forall|c: Coord| #[trigger]
                visited@.contains(c) ==> c == *start || board.in_bounds(c),
            forall|c: Coord| #[trigger]
                visited@.contains(c) ==> reachable(*board, *start, c),
            forall|c: Coord| #[trigger]
                visited@.contains(c) ==> frontier@.contains(c) || closed(*board, visited@, c),
            forall|k: int| 0 <= k < frontier@.len() ==> visited@.contains(#[trigger] frontier@[k]),
            visited@.len() <= board.width * board.height + 1,
        decreases board.width * board.height + 1 - visited@.len(), frontier@.len(),
    {
        let ghost len0 = visited@.len();
        let mut next: Vec<Coord> = Vec::new();
        let mut i: usize = 0;
        assert(frontier@.subrange(0, frontier@.len() as int) =~= frontier@);
        while i < frontier.len()
            invariant
                board.wf(),
                has_neighbors(*start),
                0 <= i <= frontier@.len(),
                visited@.no_duplicates(),
                visited@.contains(*start),
                forall|c: Coord| #[trigger]
                    visited@.contains(c) ==> c == *start || board.in_bounds(c),
                forall|c: Coord| #[trigger]
                    visited@.contains(c) ==> reachable(*board, *start, c),
                forall|c: Coord| #[trigger]
                    visited@.contains(c) ==> frontier@.subrange(i as int, frontier@.len() as int).contains(c)
                        || next@.contains(c) || closed(*board, visited@, c),
                forall|k: int|
                    0 <= k < frontier@.len() ==> visited@.contains(#[trigger] frontier@[k]),
                forall|k: int| 0 <= k < next@.len() ==> visited@.contains(#[trigger] next@[k]),
                visited@.len() == len0 + next@.len(),
            decreases frontier@.len() - i,
        {
            let c = frontier[i];
            assert(visited@.contains(c));
            let ghost v_before = visited@;
            expand(board, start, c, &mut visited, &mut next);
            proof {
                let rest = frontier@.subrange(i as int + 1, frontier@.len() as int);
                let rest0 = frontier@.subrange(i as int, frontier@.len() as int);
                assert forall|x: Coord| #[trigger] visited@.contains(x) implies rest.contains(x)
                    || next@.contains(x) || closed(*board, visited@, x) by {
                    if v_before.contains(x) && x != c {
                        if rest0.contains(x) {
                            let j = choose|j: int| 0 <= j < rest0.len() && rest0[j] == x;
                            assert(j != 0);
                            assert(rest[j - 1] == x);
                        }
                    }
                }
            }
            i += 1;
        }
        proof {
            assert forall|x: Coord| #[trigger] visited@.contains(x) implies next@.contains(x)
                || closed(*board, visited@, x) by {
                assert(frontier@.subrange(frontier@.len() as int, frontier@.len() as int).len() == 0);
            }
            lemma_visited_bound(*board, *start, visited@);
        }
        frontier = next;
    }
    proof {
        lemma_closed_holds_reach(*board, *start, visited@);
        assert(visited@.to_set() =~= reach_set(*board, *start));
        visited@.unique_seq_to_set();
    }
    visited.len()
}

} // verus!
