//! The safety filter: which moves do not run into a wall or a snake at once.
use vstd::prelude::*;

use crate::grid::{has_neighbors, on_body, step, Battlesnake, Board, Coord, Direction};

verus! {

/// One flag per direction: whether that move is safe this turn.
#[derive(Clone, Copy, Debug, PartialEq, Eq)]
pub struct SafetyMap {
    pub up: bool,
    pub down: bool,
    pub left: bool,
    pub right: bool,
}

impl SafetyMap {
    /// The flag of direction `d`.
    pub open spec fn at(self, d: Direction) -> bool {
        match d {
            Direction::Up => self.up,
            Direction::Down => self.down,
            Direction::Left => self.left,
            Direction::Right => self.right,
        }
    }

    /// Whether direction `d` is marked safe.
    pub fn get(&self, d: Direction) -> (r: bool)
        ensures
            r == self.at(d),
    {
        match d {
            Direction::Up => self.up,
            Direction::Down => self.down,
            Direction::Left => self.left,
            Direction::Right => self.right,
        }
    }

    /// Whether some direction is marked safe.
    pub fn any_safe(&self) -> (r: bool)
        ensures
            r == exists|d: Direction| self.at(d),
    {
        let r = self.up || self.down || self.left || self.right;
        proof {
            if r {
                if self.up {
                    assert(self.at(Direction::Up));
                } else if self.down {
                    assert(self.at(Direction::Down));
                } else if self.left {
                    assert(self.at(Direction::Left));
                } else {
                    assert(self.at(Direction::Right));
                }
            }
        }
        r
    }

    /// Marks unsafe the direction, if any, that leads from `head` onto `part`.
    fn block(&mut self, head: &Coord, part: &Coord)
        requires
            has_neighbors(*head),
        ensures
            forall|d: Direction| #[trigger]
                final(self).at(d) == (old(self).at(d) && *part != step(*head, d)),
    {
        if *part == head.moved(Direction::Up) {
            self.up = false;
        }
        if *part == head.moved(Direction::Down) {
            self.down = false;
        }
        if *part == head.moved(Direction::Left) {
            self.left = false;
        }
        if *part == head.moved(Direction::Right) {
            self.right = false;
        }
    }
}

/// The agent's snake has a head, and the head is on a well-formed board.
pub open spec fn agent_ok(board: Board, you: Battlesnake) -> bool {
    &&& board.wf()
    &&& you.body@.len() >= 1
    &&& board.in_bounds(you.body@[0])
}

/// Moving from the agent's head in direction `d` lands on a cell of the board
/// that neither the agent's body nor any snake on the board occupies.
pub open spec fn safe_move(board: Board, you: Battlesnake, d: Direction) -> bool {
    let dest = step(you.body@[0], d);
    board.in_bounds(dest) && !on_body(you.body@, dest) && !board.occupied(dest)
}

/// The move in direction `d` from `head` does not cross the board's edge.
pub open spec fn inside_walls(board: Board, head: Coord, d: Direction) -> bool {
    match d {
        Direction::Up => head.y != board.height - 1,
        Direction::Down => head.y != 0,
        Direction::Left => head.x != 0,
        Direction::Right => head.x != board.width - 1,
    }
}

/// Some cell of `body` before index `j` is `c`.
pub open spec fn on_prefix(body: Seq<Coord>, j: int, c: Coord) -> bool {
    exists|k: int| 0 <= k < j && body[k] == c
}

/// Computes which of the four moves from the agent's head are safe: a move
/// is unsafe when it leaves the board or lands on any segment of the agent's
/// own body or of any snake on the board.
pub fn move_safety(board: &Board, you: &Battlesnake) -> (r: SafetyMap)
    requires
        agent_ok(*board, *you),
    ensures
        forall|d: Direction| #[trigger] r.at(d) == safe_move(*board, *you, d),
{
    let head = you.body[0];
    let mut map = SafetyMap { up: true, down: true, left: true, right: true };
    if head.x == 0 {
        map.left = false;
    }
    if head.x == board.width - 1 {
        map.right = false;
    }
    if head.y == 0 {
        map.down = false;
    }
    if head.y == board.height - 1 {
        map.up = false;
    }
    let body = &you.body;
    let mut j: usize = 0;
    while j < body.len()
        invariant
            agent_ok(*board, *you),
            head == you.body@[0],
            body == &you.body,
            j <= body@.len(),
            forall|d: Direction| #[trigger]
                map.at(d) == (inside_walls(*board, head, d) && !on_prefix(body@, j as int, step(head, d))),
        decreases body@.len() - j,
    {
        map.block(&head, &body[j]);
        assert forall|d: Direction| #[trigger]
            map.at(d) == (inside_walls(*board, head, d) && !on_prefix(body@, j + 1, step(head, d))) by {
            if on_prefix(body@, j as int, step(head, d)) {
                let k = choose|k: int| 0 <= k < j && body@[k] == step(head, d);
                assert(on_prefix(body@, j + 1, step(head, d)));
            }
            if body@[j as int] == step(head, d) {
                assert(on_prefix(body@, j + 1, step(head, d)));
            }
            if on_prefix(body@, j + 1, step(head, d)) {
                let k = choose|k: int| 0 <= k < j + 1 && body@[k] == step(head, d);
                if k < j {
                    assert(on_prefix(body@, j as int, step(head, d)));
                }
            }
        }
        j += 1;
    }
    let snakes = &board.snakes;
    let mut i: usize = 0;
    while i < snakes.len()
        invariant
            agent_ok(*board, *you),
            head == you.body@[0],
            snakes == &board.snakes,
            i <= snakes@.len(),
            forall|d: Direction| #[trigger]
                map.at(d) == (inside_walls(*board, head, d) && !on_body(you.body@, step(head, d))
                    && !(exists|k: int| 0 <= k < i && #[trigger] on_body(snakes@[k].body@, step(head, d)))),
        decreases snakes@.len() - i,
    {
        let part_of = &snakes[i].body;
        let mut j: usize = 0;
        while j < part_of.len()
            invariant
                agent_ok(*board, *you),
                head == you.body@[0],
                snakes == &board.snakes,
                i < snakes@.len(),
                part_of == &snakes@[i as int].body,
                j <= part_of@.len(),
                forall|d: Direction| #[trigger]
                    map.at(d) == (inside_walls(*board, head, d) && !on_body(you.body@, step(head, d))
                        && !(exists|k: int| 0 <= k < i && #[trigger] on_body(snakes@[k].body@, step(head, d)))
                        && !on_prefix(part_of@, j as int, step(head, d))),
            decreases part_of@.len() - j,
        {
            map.block(&head, &part_of[j]);
            assert forall|d: Direction| #[trigger]
                map.at(d) == (inside_walls(*board, head, d) && !on_body(you.body@, step(head, d))
                    && !(exists|k: int| 0 <= k < i && #[trigger] on_body(snakes@[k].body@, step(head, d)))
                    && !on_prefix(part_of@, j + 1, step(head, d))) by {
                let c = step(head, d);
                if on_prefix(part_of@, j as int, c) {
                    let k = choose|k: int| 0 <= k < j && part_of@[k] == c;
                    assert(on_prefix(part_of@, j + 1, c));
                }
                if part_of@[j as int] == c {
                    assert(on_prefix(part_of@, j + 1, c));
                }
                if on_prefix(part_of@, j + 1, c) {
                    let k = choose|k: int| 0 <= k < j + 1 && part_of@[k] == c;
                    if k < j {
                        assert(on_prefix(part_of@, j as int, c));
                    }
                }
            }
            j += 1;
        }
        assert forall|d: Direction| #[trigger]
            map.at(d) == (inside_walls(*board, head, d) && !on_body(you.body@, step(head, d))
                && !(exists|k: int| 0 <= k < i + 1 && #[trigger] on_body(snakes@[k].body@, step(head, d)))) by {
            let c = step(head, d);
            assert(on_prefix(part_of@, j as int, c) == on_body(snakes@[i as int].body@, c));
            if exists|k: int| 0 <= k < i + 1 && #[trigger] on_body(snakes@[k].body@, c) {
                let k = choose|k: int| 0 <= k < i + 1 && #[trigger] on_body(snakes@[k].body@, c);
                if k < i {
                    assert(exists|k: int| 0 <= k < i && #[trigger] on_body(snakes@[k].body@, c));
                }
            }
        }
        i += 1;
    }
    map
}

} // verus!
