use vstd::prelude::*;

verus! {

/// A grid coordinate: `x` is the column, `y` the row.
#[derive(Clone, Copy, Debug, PartialEq, Eq, Structural, Hash)]
pub struct Position {
    pub x: u32,
    pub y: u32,
}

pub const UP: usize = 0;
pub const DOWN: usize = 1;
pub const LEFT: usize = 2;
pub const RIGHT: usize = 3;

/// One unit step from `p` in `direction`, kept inside `[0, max_x] x [0, max_y]`.
pub open spec fn step(p: Position, direction: int, max_x: int, max_y: int) -> Option<Position> {
    if direction == UP {
        if p.y == 0 { None } else { Some(Position { x: p.x, y: (p.y - 1) as u32 }) }
    } else if direction == DOWN {
        if p.y >= max_y { None } else { Some(Position { x: p.x, y: (p.y + 1) as u32 }) }
    } else if direction == LEFT {
        if p.x == 0 { None } else { Some(Position { x: (p.x - 1) as u32, y: p.y }) }
    } else if direction == RIGHT {
        if p.x >= max_x { None } else { Some(Position { x: (p.x + 1) as u32, y: p.y }) }
    } else {
        None
    }
}

/// `a` and `b` differ by exactly one unit on exactly one axis.
pub open spec fn adjacent(a: Position, b: Position) -> bool {
    (a.x == b.x && (a.y + 1 == b.y || b.y + 1 == a.y))
        || (a.y == b.y && (a.x + 1 == b.x || b.x + 1 == a.x))
}

impl Position {
    /// Moves one unit in `direction` (0 up, 1 down, 2 left, 3 right); `None`
    /// at the edge of `[0, max_width] x [0, max_height]` or for any other direction.
    pub fn advance(&self, direction: usize, max_width: u32, max_height: u32) -> (r: Option<Position>)
        requires
            self.x <= max_width,
            self.y <= max_height,
        ensures
            r == step(*self, direction as int, max_width as int, max_height as int),
    {
        if direction == UP {
            if self.y == 0 {
                return None;
            }
            Some(Position { x: self.x, y: self.y - 1 })
        } else if direction == DOWN {
            if self.y == max_height {
                return None;
            }
            Some(Position { x: self.x, y: self.y + 1 })
        } else if direction == LEFT {
            if self.x == 0 {
                return None;
            }
            Some(Position { x: self.x - 1, y: self.y })
        } else if direction == RIGHT {
            if self.x == max_width {
                return None;
            }
            Some(Position { x: self.x + 1, y: self.y })
        } else {
            None
        }
    }
}

/// Every step that succeeds lands on a neighbour inside the bounds, and every
/// direction fails exactly at its own edge: up at `y == 0` for every `x`,
/// down at `y == max_y`, left at `x == 0`, right at `x == max_x`.
pub proof fn lemma_step_edges(p: Position, direction: int, max_x: int, max_y: int)
    requires
        p.x <= max_x,
        p.y <= max_y,
        max_x <= u32::MAX,
        max_y <= u32::MAX,
        0 <= direction < 4,
    ensures
        step(p, UP as int, max_x, max_y).is_none() <==> p.y == 0,
        step(p, DOWN as int, max_x, max_y).is_none() <==> p.y == max_y,
        step(p, LEFT as int, max_x, max_y).is_none() <==> p.x == 0,
        step(p, RIGHT as int, max_x, max_y).is_none() <==> p.x == max_x,
        step(p, direction, max_x, max_y) matches Some(q) ==> adjacent(p, q) && q.x <= max_x
            && q.y <= max_y,
{
}

} // verus!
