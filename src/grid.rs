//! The grid model: coordinates, directions, snakes and the board snapshot.
use vstd::prelude::*;

verus! {

/// One grid cell, identified by its column `x` and row `y`.
#[derive(Clone, Copy, Debug, PartialEq, Eq, Hash, Structural)]
pub struct Coord {
    pub x: i32,
    pub y: i32,
}

/// One of the four moves; `Up` is `+y`, `Right` is `+x`.
#[derive(Clone, Copy, Debug, PartialEq, Eq, Hash, Structural)]
pub enum Direction {
    Up,
    Down,
    Left,
    Right,
}

/// The cell one step from `c` in direction `d`.
pub open spec fn step(c: Coord, d: Direction) -> Coord {
    match d {
        Direction::Up => Coord { x: c.x, y: (c.y + 1) as i32 },
        Direction::Down => Coord { x: c.x, y: (c.y - 1) as i32 },
        Direction::Left => Coord { x: (c.x - 1) as i32, y: c.y },
        Direction::Right => Coord { x: (c.x + 1) as i32, y: c.y },
    }
}

/// `b` is one of the four cells next to `a`.
pub open spec fn adjacent(a: Coord, b: Coord) -> bool {
    b == step(a, Direction::Up) || b == step(a, Direction::Down) || b == step(a, Direction::Left)
        || b == step(a, Direction::Right)
}

/// Every neighbour of `c` is representable with `i32` coordinates.
pub open spec fn has_neighbors(c: Coord) -> bool {
    i32::MIN < c.x < i32::MAX && i32::MIN < c.y < i32::MAX
}

/// The text name of a direction, as the game protocol writes it.
pub open spec fn direction_name(d: Direction) -> Seq<char> {
    match d {
        Direction::Up => "up"@,
        Direction::Down => "down"@,
        Direction::Left => "left"@,
        Direction::Right => "right"@,
    }
}

impl Direction {
    /// The protocol's name of this direction.
    pub fn as_str(&self) -> (r: &'static str)
        ensures
            r@ == direction_name(*self),
    {
        match self {
            Direction::Up => "up",
            Direction::Down => "down",
            Direction::Left => "left",
            Direction::Right => "right",
        }
    }
}

impl Coord {
    /// The cell one step away in direction `d`.
    pub fn moved(&self, d: Direction) -> (r: Coord)
        requires
            has_neighbors(*self),
        ensures
            r == step(*self, d),
    {
        match d {
            Direction::Up => Coord { x: self.x, y: self.y + 1 },
            Direction::Down => Coord { x: self.x, y: self.y - 1 },
            Direction::Left => Coord { x: self.x - 1, y: self.y },
            Direction::Right => Coord { x: self.x + 1, y: self.y },
        }
    }

    /// The four neighbouring cells: up, down, right, left.
    pub fn neighbors(&self) -> (r: [Coord; 4])
        requires
            has_neighbors(*self),
        ensures
            r@[0] == step(*self, Direction::Up),
            r@[1] == step(*self, Direction::Down),
            r@[2] == step(*self, Direction::Right),
            r@[3] == step(*self, Direction::Left),
    {
        [
            Coord { x: self.x, y: self.y + 1 },
            Coord { x: self.x, y: self.y - 1 },
            Coord { x: self.x + 1, y: self.y },
            Coord { x: self.x - 1, y: self.y },
        ]
    }
}

/// A game's identity and timing, as announced at its start.
pub struct Game {
    pub id: String,
    pub timeout: u32,
}

/// One snake: its cells head first (a stacked tail may repeat a cell).
pub struct Battlesnake {
    pub id: String,
    pub name: String,
    pub health: i32,
    pub body: Vec<Coord>,
    pub head: Coord,
    pub length: i32,
    pub latency: String,
    pub shout: Option<String>,
}

/// The board of one turn: its size, food, hazards and every snake on it
/// (the agent's own snake included).
pub struct Board {
    pub height: i32,
    pub width: i32,
    pub food: Vec<Coord>,
    pub snakes: Vec<Battlesnake>,
    pub hazards: Vec<Coord>,
}

/// `c` lies on `body`.
pub open spec fn on_body(body: Seq<Coord>, c: Coord) -> bool {
    exists|j: int| 0 <= j < body.len() && body[j] == c
}

impl Board {
    /// The board has at least one row and one column.
    pub open spec fn wf(&self) -> bool {
        self.width >= 1 && self.height >= 1
    }

    /// `c` is a cell of the board.
    pub open spec fn in_bounds(&self, c: Coord) -> bool {
        0 <= c.x < self.width && 0 <= c.y < self.height
    }

    /// Some segment of some snake stands on `c`.
    pub open spec fn occupied(&self, c: Coord) -> bool {
        exists|i: int| 0 <= i < self.snakes@.len() && #[trigger] on_body(self.snakes@[i].body@, c)
    }

    /// `c` is on the board and free of snakes.
    pub open spec fn open_cell(&self, c: Coord) -> bool {
        self.in_bounds(c) && !self.occupied(c)
    }

    /// Whether `c` is on the board and no snake segment stands on it; food
    /// does not block a cell.
    pub fn is_empty(&self, c: &Coord) -> (r: bool)
        ensures
            r == self.open_cell(*c),
    {
        if c.x < 0 || c.x >= self.width || c.y < 0 || c.y >= self.height {
            return false;
        }
        let mut i: usize = 0;
        while i < self.snakes.len()
            invariant
                i <= self.snakes@.len(),
                forall|k: int| 0 <= k < i ==> !on_body(#[trigger] self.snakes@[k].body@, *c),
            decreases self.snakes@.len() - i,
        {
            if body_contains(&self.snakes[i].body, c) {
                return false;
            }
            i += 1;
        }
        true
    }
}

/// Whether some segment of `body` stands on `c`.
pub fn body_contains(body: &Vec<Coord>, c: &Coord) -> (r: bool)
    ensures
        r == on_body(body@, *c),
{
    let mut j: usize = 0;
    while j < body.len()
        invariant
            j <= body@.len(),
            forall|k: int| 0 <= k < j ==> body@[k] != *c,
        decreases body@.len() - j,
    {
        if body[j] == *c {
            return true;
        }
        j += 1;
    }
    false
}

} // verus!
