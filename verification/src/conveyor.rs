//! Conveyor belts laid on tiles, stacked up to two levels.
use vstd::prelude::*;

use crate::direction::{dir_byte, dir_reverse, Direction};

verus! {

/// A conveyor on a tile. Conveyors can stack up to two levels.
#[derive(Clone, Copy, Debug, Eq, Hash)]
pub enum Conveyor {
    /// No conveyor.
    Empty,
    /// A single belt from the first direction to the second.
    One(Direction, Direction),
    /// Two crossing belts on two levels.
    Two((Direction, Direction), (Direction, Direction)),
    /// A splitter takes items from one direction and splits them to the other three.
    Splitter(Direction),
    /// A merger takes items from three directions and merges them to the given one.
    Merger(Direction),
}

/// The direction the (first) belt takes items from.
pub open spec fn conv_from(c: Conveyor) -> Option<Direction> {
    match c {
        Conveyor::Empty => None,
        Conveyor::One(from, _) => Some(from),
        Conveyor::Two((from, _), _) => Some(from),
        Conveyor::Splitter(from) => Some(from),
        Conveyor::Merger(to) => Some(dir_reverse(to)),
    }
}

/// The direction the (first) belt hands items to.
pub open spec fn conv_to(c: Conveyor) -> Option<Direction> {
    match c {
        Conveyor::Empty => None,
        Conveyor::One(_, to) => Some(to),
        Conveyor::Two((_, to), _) => Some(to),
        Conveyor::Splitter(from) => Some(dir_reverse(from)),
        Conveyor::Merger(to) => Some(to),
    }
}

/// Whether the conveyor accepts items coming from `dir`.
pub open spec fn conv_has_from(c: Conveyor, dir: Direction) -> bool {
    match c {
        Conveyor::Empty => false,
        Conveyor::One(from, _) => from == dir,
        Conveyor::Two((from1, _), (from2, _)) => from1 == dir || from2 == dir,
        Conveyor::Splitter(from) => from == dir,
        Conveyor::Merger(to) => to != dir,
    }
}

/// Whether the conveyor hands items towards `dir`.
pub open spec fn conv_has_to(c: Conveyor, dir: Direction) -> bool {
    match c {
        Conveyor::Empty => false,
        Conveyor::One(_, to) => to == dir,
        Conveyor::Two((_, to1), (_, to2)) => to1 == dir || to2 == dir,
        Conveyor::Splitter(from) => from != dir,
        Conveyor::Merger(to) => to == dir,
    }
}

/// Whether the conveyor has any connection towards `dir`, regardless of the flow.
pub open spec fn conv_has(c: Conveyor, dir: Direction) -> bool {
    match c {
        Conveyor::Empty => false,
        Conveyor::One(from, to) => from == dir || to == dir,
        Conveyor::Two((from1, to1), (from2, to2)) => from1 == dir || to1 == dir || from2 == dir
            || to2 == dir,
        Conveyor::Splitter(from) => from == dir,
        Conveyor::Merger(to) => to == dir,
    }
}

/// The bytes a conveyor contributes when a tile is hashed: a tag byte, then its directions.
pub open spec fn conv_bytes(c: Conveyor) -> Seq<u8> {
    match c {
        Conveyor::Empty => seq![0u8],
        Conveyor::One(a, b) => seq![1u8, dir_byte(a), dir_byte(b)],
        Conveyor::Two((a, b), (c, d)) => seq![2u8, dir_byte(a), dir_byte(b), dir_byte(c), dir_byte(d)],
        Conveyor::Splitter(a) => seq![3u8, dir_byte(a)],
        Conveyor::Merger(a) => seq![4u8, dir_byte(a)],
    }
}

impl PartialEq for Conveyor {
    fn eq(&self, other: &Self) -> (r: bool) {
        match (*self, *other) {
            (Conveyor::Empty, Conveyor::Empty) => true,
            (Conveyor::One(a, b), Conveyor::One(c, d)) => dir_eq(a, c) && dir_eq(b, d),
            (Conveyor::Two((a, b), (c, d)), Conveyor::Two((e, f), (g, h))) => dir_eq(a, e)
                && dir_eq(b, f) && dir_eq(c, g) && dir_eq(d, h),
            (Conveyor::Splitter(a), Conveyor::Splitter(b)) => dir_eq(a, b),
            (Conveyor::Merger(a), Conveyor::Merger(b)) => dir_eq(a, b),
            _ => false,
        }
    }
}

impl vstd::std_specs::cmp::PartialEqSpecImpl for Conveyor {
    open spec fn obeys_eq_spec() -> bool {
        true
    }

    open spec fn eq_spec(&self, other: &Self) -> bool {
        *self == *other
    }
}

fn dir_eq(a: Direction, b: Direction) -> (r: bool)
    ensures
        r == (a == b),
{
    a == b
}

impl Conveyor {
    /// Whether there is no conveyor.
    pub fn is_none(&self) -> (r: bool)
        ensures
            r == (*self == Conveyor::Empty),
    {
        matches!(self, Conveyor::Empty)
    }

    /// Whether there is a conveyor of any kind.
    pub fn is_some(&self) -> (r: bool)
        ensures
            r == (*self != Conveyor::Empty),
    {
        !matches!(self, Conveyor::Empty)
    }

    /// The direction the (first) belt takes items from.
    pub fn from(&self) -> (r: Option<Direction>)
        ensures
            r == conv_from(*self),
    {
        match self {
            Conveyor::Empty => None,
            Conveyor::One(from, _) => Some(*from),
            Conveyor::Two((from, _), _) => Some(*from),
            Conveyor::Splitter(from) => Some(*from),
            Conveyor::Merger(to) => Some(to.reverse()),
        }
    }

    /// The direction the (first) belt hands items to.
    pub fn to(&self) -> (r: Option<Direction>)
        ensures
            r == conv_to(*self),
    {
        match self {
            Conveyor::Empty => None,
            Conveyor::One(_, to) => Some(*to),
            Conveyor::Two((_, to), _) => Some(*to),
            Conveyor::Splitter(from) => Some(from.reverse()),
            Conveyor::Merger(to) => Some(*to),
        }
    }

    /// Whether the conveyor accepts items coming from `dir`.
    pub fn has_from(&self, dir: Direction) -> (r: bool)
        ensures
            r == conv_has_from(*self, dir),
    {
        match *self {
            Conveyor::Empty => false,
            Conveyor::One(from, _) => dir_eq(from, dir),
            Conveyor::Two((from1, _), (from2, _)) => dir_eq(from1, dir) || dir_eq(from2, dir),
            Conveyor::Splitter(from) => dir_eq(from, dir),
            Conveyor::Merger(to) => !dir_eq(to, dir),
        }
    }

    /// Whether the conveyor hands items towards `dir`.
    pub fn has_to(&self, dir: Direction) -> (r: bool)
        ensures
            r == conv_has_to(*self, dir),
    {
        match *self {
            Conveyor::Empty => false,
            Conveyor::One(_, to) => dir_eq(to, dir),
            Conveyor::Two((_, to1), (_, to2)) => dir_eq(to1, dir) || dir_eq(to2, dir),
            Conveyor::Splitter(from) => !dir_eq(from, dir),
            Conveyor::Merger(to) => dir_eq(to, dir),
        }
    }

    /// Whether the conveyor has any connection to the given direction, regardless of the flow.
    pub fn has(&self, dir: Direction) -> (r: bool)
        ensures
            r == conv_has(*self, dir),
    {
        match *self {
            Conveyor::Empty => false,
            Conveyor::One(from, to) => dir_eq(from, dir) || dir_eq(to, dir),
            Conveyor::Two((from1, to1), (from2, to2)) => dir_eq(from1, dir) || dir_eq(to1, dir)
                || dir_eq(from2, dir) || dir_eq(to2, dir),
            Conveyor::Splitter(from) => dir_eq(from, dir),
            Conveyor::Merger(to) => dir_eq(to, dir),
        }
    }

    /// Whether the conveyor has a second level (a crossing).
    pub fn has_two(&self) -> (r: bool)
        ensures
            r == (*self matches Conveyor::Two(_, _)),
    {
        matches!(self, Conveyor::Two(_, _))
    }

    /// The bytes this conveyor contributes to a tile's hash.
    pub fn hash_bytes(&self, out: &mut Vec<u8>)
        ensures
            final(out)@ == old(out)@ + conv_bytes(*self),
    {
        match *self {
            Conveyor::Empty => {
                out.push(0);
            },
            Conveyor::One(a, b) => {
                out.push(1);
                out.push(direction_byte(a));
                out.push(direction_byte(b));
            },
            Conveyor::Two((a, b), (c, d)) => {
                out.push(2);
                out.push(direction_byte(a));
                out.push(direction_byte(b));
                out.push(direction_byte(c));
                out.push(direction_byte(d));
            },
            Conveyor::Splitter(a) => {
                out.push(3);
                out.push(direction_byte(a));
            },
            Conveyor::Merger(a) => {
                out.push(4);
                out.push(direction_byte(a));
            },
        }
        proof {
            assert(final(out)@ =~= old(out)@ + conv_bytes(*self));
        }
    }
}

/// The byte that identifies a direction in a hash.
pub fn direction_byte(d: Direction) -> (r: u8)
    ensures
        r == dir_byte(d),
{
    match d {
        Direction::Left => 0,
        Direction::Up => 1,
        Direction::Right => 2,
        Direction::Down => 3,
    }
}

/// A conveyor accepts items from its own `from` direction and hands them to its own `to`
/// direction; it has a `from` exactly when it is not `None`.
pub proof fn lemma_from_to_consistent(c: Conveyor)
    ensures
        conv_from(c) is Some <==> c != Conveyor::Empty,
        conv_to(c) is Some <==> c != Conveyor::Empty,
        conv_from(c) matches Some(f) ==> conv_has_from(c, f),
        conv_to(c) matches Some(t) ==> conv_has_to(c, t),
{
}

/// A single belt connects exactly its two ends.
pub proof fn lemma_one_connects(a: Direction, b: Direction, d: Direction)
    ensures
        conv_has(Conveyor::One(a, b), d) <==> (d == a || d == b),
        conv_has_from(Conveyor::One(a, b), d) ==> conv_has(Conveyor::One(a, b), d),
        conv_has_to(Conveyor::One(a, b), d) ==> conv_has(Conveyor::One(a, b), d),
{
}

} // verus!
