use vstd::prelude::*;

verus! {

/// One slot of the grid: empty, or a tile holding a power of two.
#[derive(Clone, Copy, PartialEq, Eq, Structural, Debug)]
pub enum Cell {
    Value(u16),
    Empty,
}

/// The direction in which a move pushes the tiles.
#[derive(Clone, Copy, PartialEq, Eq, Structural, Debug)]
pub enum Direction {
    Up,
    Down,
    Left,
    Right,
}

/// 1 for an empty cell, 0 for a tile.
pub open spec fn empty_weight(c: Cell) -> int {
    if c is Empty {
        1
    } else {
        0
    }
}

/// A cell whose value can still be doubled within `u16`.
pub open spec fn doubleable(c: Cell) -> bool {
    match c {
        Cell::Value(v) => v <= 0x7fff,
        Cell::Empty => true,
    }
}

/// Cells that have a symbol on screen: empty, or a tile from 2 to 2048.
pub open spec fn drawable(c: Cell) -> bool {
    match c {
        Cell::Empty => true,
        Cell::Value(v) => v == 2 || v == 4 || v == 8 || v == 16 || v == 32 || v == 64 || v == 128
            || v == 256 || v == 512 || v == 1024 || v == 2048,
    }
}

/// The symbol that stands for a cell on screen.
pub open spec fn icon_of(c: Cell) -> char {
    match c {
        Cell::Empty => '#',
        Cell::Value(v) => if v == 2 {
            '2'
        } else if v == 4 {
            '4'
        } else if v == 8 {
            '8'
        } else if v == 16 {
            'A'
        } else if v == 32 {
            'B'
        } else if v == 64 {
            'C'
        } else if v == 128 {
            'D'
        } else if v == 256 {
            'E'
        } else if v == 512 {
            'F'
        } else if v == 1024 {
            'G'
        } else {
            '*'
        },
    }
}

impl Cell {
    /// The symbol of this cell: `#` when empty, the digit for 2, 4 and 8,
    /// `A` to `G` for 16 to 1024, and `*` for 2048.
    pub fn get_icon(&self) -> (r: char)
        requires
            drawable(*self),
        ensures
            r == icon_of(*self),
    {
        match self {
            Cell::Empty => '#',
            Cell::Value(x) => match x {
                2 => '2',
                4 => '4',
                8 => '8',
                16 => 'A',
                32 => 'B',
                64 => 'C',
                128 => 'D',
                256 => 'E',
                512 => 'F',
                1024 => 'G',
                _ => '*',
            },
        }
    }
}

} // verus!
