//! A signed grid point and the four compass directions that move it.
use vstd::prelude::*;

verus! {

/// Whether an integer fits in an `isize`.
pub open spec fn fits(v: int) -> bool {
    isize::MIN <= v <= isize::MAX
}

/// A point on an unbounded grid; `y` grows southwards.
#[derive(Copy, Clone, Debug, PartialEq, Eq, Hash)]
pub struct Point2D(pub isize, pub isize);

impl Point2D {
    pub fn new(x: isize, y: isize) -> (r: Point2D)
        ensures
            r == Point2D(x, y),
    {
        Point2D(x, y)
    }

    /// The point as a pair of indices, if neither coordinate is negative.
    pub fn into_index(&self) -> (r: Option<(usize, usize)>)
        ensures
            r == (if self.0 >= 0 && self.1 >= 0 {
                Some((self.0 as usize, self.1 as usize))
            } else {
                None
            }),
    {
        if self.0 >= 0 && self.1 >= 0 {
            Some((self.0 as usize, self.1 as usize))
        } else {
            None
        }
    }

    /// The point moved by `x` and `y`.
    pub fn add(&self, x: isize, y: isize) -> (r: Point2D)
        requires
            fits(self.0 + x),
            fits(self.1 + y),
        ensures
            r == Point2D((self.0 + x) as isize, (self.1 + y) as isize),
    {
        Point2D(self.0 + x, self.1 + y)
    }
}

#[derive(Copy, Clone, Debug, PartialEq, Eq)]
pub enum Dir {
    North,
    South,
    West,
    East,
}

/// The step that `Dir::next_pos` takes in each direction (West takes the
/// same step as North).
pub open spec fn step_of(d: Dir) -> (int, int) {
    match d {
        Dir::North => (0, -1),
        Dir::East => (1, 0),
        Dir::West => (0, -1),
        Dir::South => (0, 1),
    }
}

impl Dir {
    /// The direction after a quarter turn clockwise.
    pub fn right(&self) -> (r: Dir)
        ensures
            r == (match *self {
                Dir::North => Dir::East,
                Dir::East => Dir::South,
                Dir::South => Dir::West,
                Dir::West => Dir::North,
            }),
    {
        match *self {
            Dir::North => Dir::East,
            Dir::East => Dir::South,
            Dir::South => Dir::West,
            Dir::West => Dir::North,
        }
    }

    /// The direction after a quarter turn anticlockwise.
    pub fn left(&self) -> (r: Dir)
        ensures
            r == (match *self {
                Dir::South => Dir::East,
                Dir::West => Dir::South,
                Dir::North => Dir::West,
                Dir::East => Dir::North,
            }),
    {
        match *self {
            Dir::South => Dir::East,
            Dir::West => Dir::South,
            Dir::North => Dir::West,
            Dir::East => Dir::North,
        }
    }

    /// The neighbour of `pos` in this direction.
    pub fn next_pos(&self, pos: &Point2D) -> (r: Point2D)
        requires
            fits(pos.0 + step_of(*self).0),
            fits(pos.1 + step_of(*self).1),
        ensures
            r == Point2D((pos.0 + step_of(*self).0) as isize, (pos.1 + step_of(*self).1) as isize),
    {
        let off: (isize, isize) = match self {
            Dir::North => (0, -1),
            Dir::East => (1, 0),
            Dir::West => (0, -1),
            Dir::South => (0, 1),
        };
        pos.add(off.0, off.1)
    }
}

} // verus!
