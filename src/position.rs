//! Positions on the grid and the four unit movements between them.
use vstd::prelude::*;

verus! {

/// A cell of the lattice, as a mathematical pair (row, column).
pub type Cell = (int, int);

/// A position in a two-dimensional grid.
///
/// Coordinates are signed so that a step off the top or left edge can be
/// represented (and then rejected by a bounds check).
#[derive(Debug, Clone, Copy, PartialEq, Eq, Structural, Hash)]
pub struct Position {
    /// Row index.
    pub i: i16,
    /// Column index.
    pub j: i16,
}

/// One step of the agent; the origin is the top-left cell and rows grow down.
#[derive(Debug, Clone, Copy, PartialEq, Eq, Structural, Hash)]
pub enum Movement {
    Up,
    Down,
    Left,
    Right,
}

impl View for Position {
    type V = Cell;

    open spec fn view(&self) -> Cell {
        (self.i as int, self.j as int)
    }
}

/// Row and column increment of a movement.
pub open spec fn delta(m: Movement) -> Cell {
    match m {
        Movement::Up => (-1, 0),
        Movement::Down => (1, 0),
        Movement::Left => (0, -1),
        Movement::Right => (0, 1),
    }
}

/// The cell reached from `c` by `m`.
pub open spec fn shift(c: Cell, m: Movement) -> Cell {
    (c.0 + delta(m).0, c.1 + delta(m).1)
}

/// The cell from which `m` lands on `c`.
pub open spec fn unshift(c: Cell, m: Movement) -> Cell {
    (c.0 - delta(m).0, c.1 - delta(m).1)
}

/// Whether both coordinates of `c` fit in an `i16`.
pub open spec fn fits_i16(c: Cell) -> bool {
    i16::MIN <= c.0 <= i16::MAX && i16::MIN <= c.1 <= i16::MAX
}

/// Manhattan distance between two cells.
pub open spec fn manhattan(a: Cell, b: Cell) -> int {
    (if a.0 >= b.0 { a.0 - b.0 } else { b.0 - a.0 }) + (if a.1 >= b.1 { a.1 - b.1 } else { b.1 - a.1 })
}

/// The letter of a movement in the path text format.
pub open spec fn letter(m: Movement) -> char {
    match m {
        Movement::Up => 'U',
        Movement::Down => 'D',
        Movement::Left => 'L',
        Movement::Right => 'R',
    }
}

impl Movement {
    /// Row and column increment of this movement.
    pub fn to_tuple(self) -> (r: (i16, i16))
        ensures
            r.0 as int == delta(self).0,
            r.1 as int == delta(self).1,
    {
        match self {
            Movement::Up => (-1, 0),
            Movement::Down => (1, 0),
            Movement::Left => (0, -1),
            Movement::Right => (0, 1),
        }
    }

    /// The letter of this movement: `U`, `D`, `L` or `R`.
    pub fn to_char(self) -> (r: char)
        ensures
            r == letter(self),
    {
        match self {
            Movement::Up => 'U',
            Movement::Down => 'D',
            Movement::Left => 'L',
            Movement::Right => 'R',
        }
    }
}

impl Position {
    /// Returns the new position after a `movement` from `self`.
    pub fn next(self, movement: Movement) -> (r: Position)
        requires
            fits_i16(shift(self@, movement)),
        ensures
            r@ == shift(self@, movement),
    {
        let inc = movement.to_tuple();
        Position { i: self.i + inc.0, j: self.j + inc.1 }
    }

    /// The position from which a `movement` would land on `self`.
    pub fn previous(self, movement: Movement) -> (r: Position)
        requires
            fits_i16(unshift(self@, movement)),
        ensures
            r@ == unshift(self@, movement),
    {
        let inc = movement.to_tuple();
        Position { i: self.i - inc.0, j: self.j - inc.1 }
    }

    /// Manhattan distance between `self` and `other`.
    pub fn distance(&self, other: &Position) -> (r: u16)
        requires
            manhattan(self@, other@) <= u16::MAX,
        ensures
            r as int == manhattan(self@, other@),
    {
        let di: u16 = if self.i >= other.i {
            (self.i as i32 - other.i as i32) as u16
        } else {
            (other.i as i32 - self.i as i32) as u16
        };
        let dj: u16 = if self.j >= other.j {
            (self.j as i32 - other.j as i32) as u16
        } else {
            (other.j as i32 - self.j as i32) as u16
        };
        di + dj
    }
}

impl From<Movement> for char {
    fn from(value: Movement) -> (r: char) {
        value.to_char()
    }
}

impl vstd::std_specs::convert::FromSpecImpl<Movement> for char {
    open spec fn obeys_from_spec() -> bool {
        true
    }

    open spec fn from_spec(v: Movement) -> char {
        letter(v)
    }
}

} // verus!
