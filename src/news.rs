//! The four cardinal directions and their algebra.
use vstd::prelude::*;

verus! {

/// A cardinal direction on the grid. North is toward smaller `y`, East toward larger `x`.
#[derive(Clone, Copy, Debug, PartialEq, Eq, Structural)]
pub enum News {
    North,
    East,
    South,
    West,
}

/// The order in which the four sides of a cell are examined.
pub const NEWS: [News; 4] = [News::South, News::East, News::West, News::North];

/// The direction reached by a quarter turn clockwise.
pub open spec fn spec_turn_right(d: News) -> News {
    match d {
        News::North => News::East,
        News::East => News::South,
        News::South => News::West,
        News::West => News::North,
    }
}

/// The direction reached by a quarter turn counter-clockwise.
pub open spec fn spec_turn_left(d: News) -> News {
    match d {
        News::North => News::West,
        News::West => News::South,
        News::South => News::East,
        News::East => News::North,
    }
}

/// The reverse direction.
pub open spec fn spec_back(d: News) -> News {
    match d {
        News::North => News::South,
        News::South => News::North,
        News::East => News::West,
        News::West => News::East,
    }
}

/// Unit step along `x` for a direction.
pub open spec fn spec_dx(d: News) -> int {
    match d {
        News::East => 1,
        News::West => -1,
        _ => 0,
    }
}

/// Unit step along `y` for a direction.
pub open spec fn spec_dy(d: News) -> int {
    match d {
        News::South => 1,
        News::North => -1,
        _ => 0,
    }
}

impl News {
    pub fn turn_right(self) -> (r: News)
        ensures
            r == spec_turn_right(self),
    {
        match self {
            News::North => News::East,
            News::East => News::South,
            News::South => News::West,
            News::West => News::North,
        }
    }

    pub fn turn_left(self) -> (r: News)
        ensures
            r == spec_turn_left(self),
    {
        match self {
            News::North => News::West,
            News::West => News::South,
            News::South => News::East,
            News::East => News::North,
        }
    }

    pub fn back(self) -> (r: News)
        ensures
            r == spec_back(self),
    {
        match self {
            News::North => News::South,
            News::South => News::North,
            News::East => News::West,
            News::West => News::East,
        }
    }

    /// The unit offset `(dx, dy)` of one step in this direction.
    pub fn offset(self) -> (r: (i32, i32))
        ensures
            r.0 as int == spec_dx(self),
            r.1 as int == spec_dy(self),
    {
        match self {
            News::North => (0, -1),
            News::East => (1, 0),
            News::South => (0, 1),
            News::West => (-1, 0),
        }
    }
}

/// Turning right then left, or left then right, gives back the starting direction;
/// four right turns make a full circle; the reverse of the reverse is the direction
/// itself, and a step forward followed by a step back returns to the same place.
pub proof fn lemma_direction_algebra(d: News)
    ensures
        spec_turn_left(spec_turn_right(d)) == d,
        spec_turn_right(spec_turn_left(d)) == d,
        spec_turn_right(spec_turn_right(spec_turn_right(spec_turn_right(d)))) == d,
        spec_back(spec_back(d)) == d,
        spec_turn_right(spec_turn_right(d)) == spec_back(d),
        spec_dx(d) + spec_dx(spec_back(d)) == 0,
        spec_dy(d) + spec_dy(spec_back(d)) == 0,
{
}

} // verus!
