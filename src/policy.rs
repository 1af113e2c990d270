//! The decision policy: food preference, reachable-space ranking and the
//! final choice of move, plus the game lifecycle hooks.
use vstd::prelude::*;

use crate::flood::{flood_fill_count, reach_set};
use crate::grid::{step, Battlesnake, Board, Coord, Direction, Game};
use crate::safety::{agent_ok, move_safety, safe_move, SafetyMap};

verus! {

/// Manhattan distance between two cells.
pub open spec fn manhattan(a: Coord, b: Coord) -> int {
    (if a.x >= b.x { a.x - b.x } else { b.x - a.x }) + (if a.y >= b.y { a.y - b.y } else { b.y - a.y })
}

/// `k` is the first index of `food` at the least distance from `head`.
pub open spec fn first_nearest(head: Coord, food: Seq<Coord>, k: int) -> bool {
    &&& 0 <= k < food.len()
    &&& forall|i: int| 0 <= i < food.len() ==> manhattan(head, food[k]) <= manhattan(head, #[trigger] food[i])
    &&& forall|i: int| 0 <= i < k ==> manhattan(head, food[k]) < manhattan(head, #[trigger] food[i])
}

/// The move that corrects the horizontal offset to `target` first, then the
/// vertical one; `fallback` when `target` is `head`.
pub open spec fn toward(head: Coord, target: Coord, fallback: Direction) -> Direction {
    if target.x < head.x {
        Direction::Left
    } else if target.x > head.x {
        Direction::Right
    } else if target.y < head.y {
        Direction::Down
    } else if target.y > head.y {
        Direction::Up
    } else {
        fallback
    }
}

/// The food-preferred move: toward the first nearest food, `Left` when there
/// is no food or the nearest food is under the head.
pub open spec fn preferred(head: Coord, food: Seq<Coord>) -> Direction {
    if food.len() == 0 {
        Direction::Left
    } else {
        toward(head, food[choose|k: int| first_nearest(head, food, k)], Direction::Left)
    }
}

/// Manhattan distance between two cells, computed without overflow.
pub fn manhattan_distance(a: &Coord, b: &Coord) -> (r: i64)
    ensures
        r == manhattan(*a, *b),
{
    let dx: i64 = if a.x >= b.x { a.x as i64 - b.x as i64 } else { b.x as i64 - a.x as i64 };
    let dy: i64 = if a.y >= b.y { a.y as i64 - b.y as i64 } else { b.y as i64 - a.y as i64 };
    dx + dy
}

/// The index of the first food at the least Manhattan distance from `head`,
/// or `None` when there is no food.
pub fn nearest_food(head: &Coord, food: &Vec<Coord>) -> (r: Option<usize>)
    ensures
        r.is_none() <==> food@.len() == 0,
        r.is_some() ==> first_nearest(*head, food@, r.unwrap() as int),
{
    if food.len() == 0 {
        return None;
    }
    let mut best: usize = 0;
    let mut best_dist = manhattan_distance(head, &food[0]);
    let mut i: usize = 1;
    while i < food.len()
        invariant
            1 <= i <= food@.len(),
            best < i,
            best_dist == manhattan(*head, food@[best as int]),
            forall|j: int| 0 <= j < i ==> best_dist <= manhattan(*head, #[trigger] food@[j]),
            forall|j: int| 0 <= j < best ==> best_dist < manhattan(*head, #[trigger] food@[j]),
        decreases food@.len() - i,
    {
        let d = manhattan_distance(head, &food[i]);
        if d < best_dist {
            best = i;
            best_dist = d;
        }
        i += 1;
    }
    Some(best)
}

/// The food-preferred move from `head` (see `preferred`).
pub fn preferred_direction(head: &Coord, food: &Vec<Coord>) -> (r: Direction)
    ensures
        r == preferred(*head, food@),
{
    match nearest_food(head, food) {
        None => Direction::Left,
        Some(k) => {
            proof {
                let c = choose|c: int| first_nearest(*head, food@, c);
                if c < k {
                    assert(manhattan(*head, food@[k as int]) < manhattan(*head, food@[c]));
                } else if c > k {
                    assert(manhattan(*head, food@[c]) < manhattan(*head, food@[k as int]));
                }
            }
            let f = food[k];
            if f.x < head.x {
                Direction::Left
            } else if f.x > head.x {
                Direction::Right
            } else if f.y < head.y {
                Direction::Down
            } else if f.y > head.y {
                Direction::Up
            } else {
                Direction::Left
            }
        },
    }
}

/// Reachable-space counts, one per direction.
#[derive(Clone, Copy, Debug, PartialEq, Eq)]
pub struct ReachMap {
    pub up: usize,
    pub down: usize,
    pub left: usize,
    pub right: usize,
}

impl ReachMap {
    /// The count of direction `d`.
    pub open spec fn at(self, d: Direction) -> usize {
        match d {
            Direction::Up => self.up,
            Direction::Down => self.down,
            Direction::Left => self.left,
            Direction::Right => self.right,
        }
    }

    /// The count recorded for direction `d`.
    pub fn get(&self, d: Direction) -> (r: usize)
        ensures
            r == self.at(d),
    {
        match d {
            Direction::Up => self.up,
            Direction::Down => self.down,
            Direction::Left => self.left,
            Direction::Right => self.right,
        }
    }
}

/// The fixed order in which equally good moves are considered.
pub open spec fn rank(d: Direction) -> int {
    match d {
        Direction::Up => 0,
        Direction::Down => 1,
        Direction::Left => 2,
        Direction::Right => 3,
    }
}

/// `d` is safe and no safe direction has a larger count.
pub open spec fn is_best(safety: SafetyMap, counts: ReachMap, d: Direction) -> bool {
    safety.at(d) && forall|e: Direction| #[trigger] safety.at(e) ==> counts.at(e) <= counts.at(d)
}

/// Picks the move: `Up` when nothing is safe; else the preferred move when it
/// is among the safe moves of largest count; else the first such move in the
/// order up, down, left, right.
pub fn choose_move(safety: &SafetyMap, counts: &ReachMap, preferred: Direction) -> (r: Direction)
    ensures
        !(exists|d: Direction| safety.at(d)) ==> r == Direction::Up,
        (exists|d: Direction| safety.at(d)) ==> {
            &&& is_best(*safety, *counts, r)
            &&& is_best(*safety, *counts, preferred) ==> r == preferred
            &&& !is_best(*safety, *counts, preferred) ==> forall|e: Direction|
                rank(e) < rank(r) ==> !is_best(*safety, *counts, e)
        },
{
    if !safety.any_safe() {
        return Direction::Up;
    }
    let mut max: usize = 0;
    if safety.up && counts.up > max {
        max = counts.up;
    }
    if safety.down && counts.down > max {
        max = counts.down;
    }
    if safety.left && counts.left > max {
        max = counts.left;
    }
    if safety.right && counts.right > max {
        max = counts.right;
    }
    assert forall|e: Direction| #[trigger] safety.at(e) implies counts.at(e) <= max by {}
    let r = if safety.get(preferred) && counts.get(preferred) == max {
        preferred
    } else if safety.up && counts.up == max {
        Direction::Up
    } else if safety.down && counts.down == max {
        Direction::Down
    } else if safety.left && counts.left == max {
        Direction::Left
    } else {
        Direction::Right
    };
    proof {
        assert(safety.at(r) && counts.at(r) == max);
        assert(is_best(*safety, *counts, r));
        assert forall|e: Direction| is_best(*safety, *counts, e) implies counts.at(e) == max by {
            assert(safety.at(r));
        }
    }
    r
}

/// The number of cells reachable after moving from the agent's head in
/// direction `d`.
pub open spec fn fill_of(board: Board, you: Battlesnake, d: Direction) -> nat {
    reach_set(board, step(you.body@[0], d)).len()
}

/// `d` is safe and no safe move leaves more reachable cells.
pub open spec fn best_move(board: Board, you: Battlesnake, d: Direction) -> bool {
    safe_move(board, you, d) && forall|e: Direction| #[trigger]
        safe_move(board, you, e) ==> fill_of(board, you, e) <= fill_of(board, you, d)
}

/// Chooses this turn's move. With no safe move it is `Up`. Otherwise it is a
/// safe move that leaves the most reachable cells: the food-preferred move
/// when it is one of those, else the first of them in the order up, down,
/// left, right.
pub fn get_move(_game: &Game, _turn: &i32, board: &Board, you: &Battlesnake) -> (r: Direction)
    requires
        agent_ok(*board, *you),
    ensures
        (forall|d: Direction| !safe_move(*board, *you, d)) ==> r == Direction::Up,
        (exists|d: Direction| safe_move(*board, *you, d)) ==> {
            let pref = preferred(you.body@[0], board.food@);
            &&& safe_move(*board, *you, r)
            &&& best_move(*board, *you, r)
            &&& best_move(*board, *you, pref) ==> r == pref
            &&& !best_move(*board, *you, pref) ==> forall|e: Direction|
                rank(e) < rank(r) ==> !best_move(*board, *you, e)
        },
{
    let safety = move_safety(board, you);
    let head = you.body[0];
    let pref = preferred_direction(&head, &board.food);
    let mut counts = ReachMap { up: 0, down: 0, left: 0, right: 0 };
    if safety.up {
        assert(safety.at(Direction::Up));
        assert(safe_move(*board, *you, Direction::Up));
        counts.up = flood_fill_count(board, &head.moved(Direction::Up));
    }
    if safety.down {
        assert(safety.at(Direction::Down));
        assert(safe_move(*board, *you, Direction::Down));
        counts.down = flood_fill_count(board, &head.moved(Direction::Down));
    }
    if safety.left {
        assert(safety.at(Direction::Left));
        assert(safe_move(*board, *you, Direction::Left));
        counts.left = flood_fill_count(board, &head.moved(Direction::Left));
    }
    if safety.right {
        assert(safety.at(Direction::Right));
        assert(safe_move(*board, *you, Direction::Right));
        counts.right = flood_fill_count(board, &head.moved(Direction::Right));
    }
    assert forall|d: Direction| #[trigger] safety.at(d) implies counts.at(d) == fill_of(*board, *you, d) by {}
    assert forall|d: Direction| #[trigger] is_best(safety, counts, d) == best_move(*board, *you, d) by {
        if is_best(safety, counts, d) {
            assert forall|e: Direction| #[trigger] safe_move(*board, *you, e) implies fill_of(*board, *you, e)
                <= fill_of(*board, *you, d) by {
                assert(safety.at(e));
            }
        }
        if best_move(*board, *you, d) {
            assert forall|e: Direction| #[trigger] safety.at(e) implies counts.at(e) <= counts.at(d) by {
                assert(safe_move(*board, *you, e));
            }
        }
    }
    let r = choose_move(&safety, &counts, pref);
    proof {
        if exists|d: Direction| safe_move(*board, *you, d) {
            let d = choose|d: Direction| safe_move(*board, *you, d);
            assert(safety.at(d));
            assert(is_best(safety, counts, r) == best_move(*board, *you, r));
            assert(is_best(safety, counts, pref) == best_move(*board, *you, pref));
            if !best_move(*board, *you, pref) {
                assert forall|e: Direction| rank(e) < rank(r) implies !best_move(*board, *you, e) by {
                    assert(is_best(safety, counts, e) == best_move(*board, *you, e));
                }
            }
        } else {
            assert forall|d: Direction| !safety.at(d) by {
                assert(!safe_move(*board, *you, d));
            }
        }
    }
    r
}

/// Called when a game begins; the policy keeps no state, so nothing is done.
pub fn start(_game: &Game, _turn: &i32, _board: &Board, _you: &Battlesnake) {
}

/// Called when a game ends; the policy keeps no state, so nothing is done.
pub fn end(_game: &Game, _turn: &i32, _board: &Board, _you: &Battlesnake) {
}

} // verus!
