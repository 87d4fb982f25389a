use vstd::prelude::*;

verus! {

/// A pair of grid coordinates.
#[derive(Clone, Copy, Debug, PartialEq, Eq, Structural)]
pub struct Position {
    pub x: usize,
    pub y: usize,
}

/// The corner where generation starts.
pub open spec fn origin() -> Position {
    Position { x: 0, y: 0 }
}

impl Position {
    pub open spec fn at(x: nat, y: nat) -> Position {
        Position { x: x as usize, y: y as usize }
    }

    pub fn new(x: usize, y: usize) -> (r: Position)
        ensures
            r.x == x,
            r.y == y,
    {
        Position { x, y }
    }
}

/// One of the four moves between orthogonally adjacent cells.
#[derive(Clone, Copy, Debug, PartialEq, Eq, Structural)]
pub enum Direction {
    Top,
    Right,
    Left,
    Bottom,
}

impl Direction {
    /// Whether the move stays inside a `width` by `height` grid from `p`.
    pub open spec fn fits(self, p: Position, width: int, height: int) -> bool {
        match self {
            Direction::Top => p.y > 0,
            Direction::Right => p.x + 1 < width,
            Direction::Left => p.x > 0,
            Direction::Bottom => p.y + 1 < height,
        }
    }

    /// The position reached from `p` by this move.
    pub open spec fn target(self, p: Position) -> Position {
        match self {
            Direction::Top => Position { x: p.x, y: (p.y - 1) as usize },
            Direction::Right => Position { x: (p.x + 1) as usize, y: p.y },
            Direction::Left => Position { x: (p.x - 1) as usize, y: p.y },
            Direction::Bottom => Position { x: p.x, y: (p.y + 1) as usize },
        }
    }

    /// Moves `pos` one cell in this direction.
    pub fn apply(&self, pos: &mut Position)
        requires
            *self == Direction::Top ==> old(pos).y > 0,
            *self == Direction::Left ==> old(pos).x > 0,
            *self == Direction::Right ==> old(pos).x < usize::MAX,
            *self == Direction::Bottom ==> old(pos).y < usize::MAX,
        ensures
            *final(pos) == self.target(*old(pos)),
    {
        match self {
            Direction::Top => {
                pos.y = pos.y - 1;
            },
            Direction::Right => {
                pos.x = pos.x + 1;
            },
            Direction::Left => {
                pos.x = pos.x - 1;
            },
            Direction::Bottom => {
                pos.y = pos.y + 1;
            },
        }
    }
}

} // verus!
