//! Compass directions with their unit offsets on a grid whose `y` grows southwards.
use vstd::prelude::*;

verus! {

#[derive(Copy, Clone, Debug, PartialEq, Eq)]
pub enum Dir {
    North,
    South,
    West,
    East,
}

impl Dir {
    /// The direction after a quarter turn clockwise.
    pub fn right(&self) -> (r: Dir)
        ensures
            r == (match *self {
                Dir::North => Dir::East,
                Dir::East => Dir::South,
                Dir::South => Dir::West,
                Dir::West => Dir::North,
            }),
    {
        match *self {
            Dir::North => Dir::East,
            Dir::East => Dir::South,
            Dir::South => Dir::West,
            Dir::West => Dir::North,
        }
    }

    /// The direction after a quarter turn anticlockwise.
    pub fn left(&self) -> (r: Dir)
        ensures
            r == (match *self {
                Dir::South => Dir::East,
                Dir::West => Dir::South,
                Dir::North => Dir::West,
                Dir::East => Dir::North,
            }),
    {
        match *self {
            Dir::South => Dir::East,
            Dir::West => Dir::South,
            Dir::North => Dir::West,
            Dir::East => Dir::North,
        }
    }

    /// The unit step `(dx, dy)` of this direction.
    pub fn offset(&self) -> (r: (isize, isize))
        ensures
            r == step_of(*self),
    {
        match self {
            Dir::North => (0, -1),
            Dir::East => (1, 0),
            Dir::West => (-1, 0),
            Dir::South => (0, 1),
        }
    }

    /// The neighbour of a grid position in this direction.
    pub fn next_pos(&self, pos: (usize, usize)) -> (r: (usize, usize))
        requires
            in_grid(pos, step_of(*self)),
        ensures
            r == moved(pos, step_of(*self)),
    {
        let off = self.offset();
        offset_pos(pos, off)
    }
}

/// The unit step of a direction.
pub open spec fn step_of(d: Dir) -> (isize, isize) {
    match d {
        Dir::North => (0isize, -1isize),
        Dir::East => (1isize, 0isize),
        Dir::West => (-1isize, 0isize),
        Dir::South => (0isize, 1isize),
    }
}

/// Moving `pt` by `offset` stays on the grid of indices that fit an `isize`.
pub open spec fn in_grid(pt: (usize, usize), offset: (isize, isize)) -> bool {
    &&& 0 <= pt.0 + offset.0 <= isize::MAX
    &&& 0 <= pt.1 + offset.1 <= isize::MAX
    &&& pt.0 <= isize::MAX
    &&& pt.1 <= isize::MAX
}

pub open spec fn moved(pt: (usize, usize), offset: (isize, isize)) -> (usize, usize) {
    ((pt.0 + offset.0) as usize, (pt.1 + offset.1) as usize)
}

/// A grid position moved by an offset.
pub fn offset_pos(pt: (usize, usize), offset: (isize, isize)) -> (r: (usize, usize))
    requires
        in_grid(pt, offset),
    ensures
        r == moved(pt, offset),
{
    let x = (pt.0 as isize) + offset.0;
    let y = (pt.1 as isize) + offset.1;
    (x as usize, y as usize)
}

} // verus!
