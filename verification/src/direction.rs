//! The four grid directions.
use vstd::prelude::*;

verus! {

/// One of the four directions on the tile grid.
#[derive(Clone, Copy, Debug, PartialEq, Eq, Hash, Structural)]
pub enum Direction {
    Left,
    Up,
    Right,
    Down,
}

/// The unit vector of a direction, as a pair of integers.
pub open spec fn dir_vec(d: Direction) -> (int, int) {
    match d {
        Direction::Left => (-1, 0),
        Direction::Up => (0, -1),
        Direction::Right => (1, 0),
        Direction::Down => (0, 1),
    }
}

/// The opposite direction.
pub open spec fn dir_reverse(d: Direction) -> Direction {
    match d {
        Direction::Left => Direction::Right,
        Direction::Up => Direction::Down,
        Direction::Right => Direction::Left,
        Direction::Down => Direction::Up,
    }
}

/// The sign of an integer: -1, 0 or 1.
pub open spec fn sign(x: int) -> int {
    if x < 0 { -1 } else if x > 0 { 1 } else { 0 }
}

/// The direction a vector points to: the sign of the x component decides first,
/// and only a vector with no x component can point up or down.
pub open spec fn dir_from_vec(x: int, y: int) -> Option<Direction> {
    if sign(x) == -1 {
        Some(Direction::Left)
    } else if sign(x) == 1 {
        Some(Direction::Right)
    } else if sign(y) == -1 {
        Some(Direction::Up)
    } else if sign(y) == 1 {
        Some(Direction::Down)
    } else {
        None
    }
}

/// The byte that identifies a direction when it is hashed.
pub open spec fn dir_byte(d: Direction) -> u8 {
    match d {
        Direction::Left => 0,
        Direction::Up => 1,
        Direction::Right => 2,
        Direction::Down => 3,
    }
}

fn signum(x: i32) -> (r: i32)
    ensures
        r == sign(x as int),
{
    if x < 0 {
        -1
    } else if x > 0 {
        1
    } else {
        0
    }
}

impl Direction {
    /// All four directions, in the order left, up, right, down.
    pub fn all() -> (r: [Direction; 4])
        ensures
            r@ == seq![Direction::Left, Direction::Up, Direction::Right, Direction::Down],
    {
        [Direction::Left, Direction::Up, Direction::Right, Direction::Down]
    }

    /// The unit vector of this direction.
    pub fn to_vec(&self) -> (r: [i32; 2])
        ensures
            (r[0] as int, r[1] as int) == dir_vec(*self),
    {
        match self {
            Direction::Left => [-1, 0],
            Direction::Up => [0, -1],
            Direction::Right => [1, 0],
            Direction::Down => [0, 1],
        }
    }

    /// The direction a vector points to, or `None` for the zero vector.
    pub fn from_vec(v: [i32; 2]) -> (r: Option<Direction>)
        ensures
            r == dir_from_vec(v[0] as int, v[1] as int),
    {
        let sx = signum(v[0]);
        let sy = signum(v[1]);
        if sx == -1 {
            Some(Direction::Left)
        } else if sx == 1 {
            Some(Direction::Right)
        } else if sy == -1 {
            Some(Direction::Up)
        } else if sy == 1 {
            Some(Direction::Down)
        } else {
            None
        }
    }

    /// The opposite direction.
    pub fn reverse(&self) -> (r: Direction)
        ensures
            r == dir_reverse(*self),
    {
        match self {
            Direction::Left => Direction::Right,
            Direction::Up => Direction::Down,
            Direction::Right => Direction::Left,
            Direction::Down => Direction::Up,
        }
    }
}

/// Reversing a direction twice gives it back, and a reversed direction never equals itself.
pub proof fn lemma_reverse_involution(d: Direction)
    ensures
        dir_reverse(dir_reverse(d)) == d,
        dir_reverse(d) != d,
{
}

/// The vector of the reversed direction is the negated vector.
pub proof fn lemma_reverse_negates_vec(d: Direction)
    ensures
        dir_vec(dir_reverse(d)).0 == -dir_vec(d).0,
        dir_vec(dir_reverse(d)).1 == -dir_vec(d).1,
{
}

/// A direction is recovered from its own unit vector.
pub proof fn lemma_from_vec_of_to_vec(d: Direction)
    ensures
        dir_from_vec(dir_vec(d).0, dir_vec(d).1) == Some(d),
{
}

/// Scaling a vector by a positive factor does not change the direction it points to.
pub proof fn lemma_from_vec_scale(x: int, y: int, k: int)
    requires
        k > 0,
    ensures
        dir_from_vec(k * x, k * y) == dir_from_vec(x, y),
{
    assert(sign(k * x) == sign(x)) by (nonlinear_arith)
        requires
            k > 0,
    {
    }
    assert(sign(k * y) == sign(y)) by (nonlinear_arith)
        requires
            k > 0,
    {
    }
}

} // verus!
