//! Tasks of buildings and colony-wide tasks.
use vstd::prelude::*;

use crate::direction::Direction;
use crate::entity::EntityId;
use crate::inventory::CountableInventory;
use crate::Pos;
use vstd::arithmetic::power2::{lemma2_to64, lemma2_to64_rest, lemma_pow2_adds, lemma_pow2_pos, lemma_pow2_strictly_increases, lemma_pow2_unfold, pow2};

verus! {

/// A timer or progress value of the game, which runs in floating point, held by the bit
/// pattern of its `f64` value (`f64::to_bits`). The library carries such values from place to
/// place without computing with them.
#[derive(Clone, Copy, Debug, PartialEq, Eq, Hash, Structural)]
pub struct FloatBits(pub u64);

/// Ticks an excavator takes to excavate a tile.
pub const EXCAVATE_TIME: u32 = 10;
/// Ticks of human labour to excavate a tile.
pub const LABOR_EXCAVATE_TIME: u32 = 100;
/// How many times faster an excavator digs than a crew.
pub const EXCAVATOR_SPEED: u32 = 10;
/// Ticks to move one tile.
pub const MOVE_TIME: u32 = 2;
/// `MOVE_TIME` as the bits of a float, for the timer of a moving building.
pub const MOVE_TIME_BITS: u64 = 0x4000_0000_0000_0000;
/// Ticks to build a power grid tile.
pub const BUILD_POWER_GRID_TIME: u32 = 60;
/// Ticks to build a conveyor tile.
pub const BUILD_CONVEYOR_TIME: u32 = 90;
/// Ticks to move an item one tile.
pub const MOVE_ITEM_TIME: u32 = 2;
/// Ticks to smelt raw ore.
pub const RAW_ORE_SMELT_TIME: u32 = 30;
/// Raw ore obtained from excavating a tile.
pub const EXCAVATE_ORE_AMOUNT: usize = 5;

/// What a building is busy with.
#[derive(Clone, Debug)]
pub enum BuildingTask {
    /// Nothing to do.
    Idle,
    /// Excavating towards a direction for a colony-wide excavation task.
    Excavate(Direction, EntityId<GlobalTask>),
    /// Moving along a path (the next position is last), with the time to the next step.
    Move(FloatBits, Vec<Pos>),
    /// Moving to a place to excavate from.
    MoveToExcavate {
        t: FloatBits,
        path: Vec<Pos>,
        dir: Direction,
        /// The colony-wide task of the excavation.
        target: EntityId<GlobalTask>,
    },
    /// Assembling items, with the remaining and the total time.
    Assemble { t: FloatBits, max_t: FloatBits, outputs: CountableInventory },
}

/// A colony-wide task that crews and excavators pick up.
#[derive(Clone, Copy, Debug)]
pub enum GlobalTask {
    /// Excavate a tile, with the remaining work. Human labour is slow.
    Excavate(FloatBits, Pos),
    /// Pick up items left at a position.
    Cleanup(Pos),
}

/// The direction from `pos` to the adjacent tile `target`, if they are adjacent.
pub open spec fn spec_choose_direction(pos: Pos, target: Pos) -> Option<Direction> {
    let (px, py, ix, iy) = (pos[0] as int, pos[1] as int, target[0] as int, target[1] as int);
    if iy == py && ix - px == 1 {
        Some(Direction::Right)
    } else if iy == py && ix - px == -1 {
        Some(Direction::Left)
    } else if ix == px && iy - py == 1 {
        Some(Direction::Down)
    } else if ix == px && iy - py == -1 {
        Some(Direction::Up)
    } else {
        None
    }
}

/// The direction from `pos` to the adjacent tile `target`, or `None` when they are not
/// adjacent.
pub fn choose_direction(pos: &Pos, target: &Pos) -> (r: Option<Direction>)
    ensures
        r == spec_choose_direction(*pos, *target),
{
    let ix = target[0];
    let iy = target[1];
    if iy == pos[1] {
        if ix as i64 - pos[0] as i64 == 1 {
            return Some(Direction::Right);
        } else if ix as i64 - pos[0] as i64 == -1 {
            return Some(Direction::Left);
        }
    }
    if ix == pos[0] {
        if iy as i64 - pos[1] as i64 == 1 {
            return Some(Direction::Down);
        } else if iy as i64 - pos[1] as i64 == -1 {
            return Some(Direction::Up);
        }
    }
    None
}

/// The bits of the `f64` equal to `n` where `2^e <= n < 2^(e + 1)`: the biased exponent
/// `1023 + e` above the 52 bits of the fraction, which hold the bits of `n` below its leading
/// one, moved up to the fraction's top.
pub open spec fn float_bits_at(n: nat, e: nat) -> int {
    (1023 + e) * pow2(52) + (n - pow2(e)) * pow2((52 - e) as nat)
}

/// `e` is the position of the leading one of `n`.
pub open spec fn leading_one(n: nat, e: nat) -> bool {
    pow2(e) <= n < pow2(e + 1)
}

/// The bits of the `f64` equal to a whole number `n` below `2^53`: zero for zero.
pub open spec fn whole_float_bits(n: nat) -> int {
    if n == 0 {
        0
    } else {
        float_bits_at(n, choose|e: nat| leading_one(n, e))
    }
}

proof fn lemma_leading_one_unique(n: nat, e1: nat, e2: nat)
    requires
        leading_one(n, e1),
        leading_one(n, e2),
    ensures
        e1 == e2,
{
    if e1 < e2 {
        if e1 + 1 < e2 {
            lemma_pow2_strictly_increases(e1 + 1, e2);
        }
    } else if e2 < e1 {
        if e2 + 1 < e1 {
            lemma_pow2_strictly_increases(e2 + 1, e1);
        }
    }
}

/// The bits of the `f64` equal to the whole number `n` (what `f64::from(n).to_bits()` gives).
pub fn whole_to_float_bits(n: u32) -> (r: u64)
    ensures
        r == whole_float_bits(n as nat),
{
    if n == 0 {
        return 0;
    }
    let n64 = n as u64;
    let mut p: u64 = 1;
    let mut q: u64 = 0x0010_0000_0000_0000;
    let mut e: u64 = 0;
    proof {
        lemma2_to64();
        lemma2_to64_rest();
    }
    while p <= n64 / 2
        invariant
            n64 == n,
            1 <= n64 <= u32::MAX,
            1 <= p <= n64,
            e <= 31,
            p == pow2(e as nat),
            q == pow2((52 - e) as nat),
            pow2(32) == 0x1_0000_0000,
            pow2(52) == 0x0010_0000_0000_0000,
        decreases n64 - p,
    {
        proof {
            lemma_pow2_unfold((e + 1) as nat);
            lemma_pow2_unfold((52 - e) as nat);
        }
        p = p * 2;
        q = q / 2;
        e = e + 1;
        proof {
            if e > 31 {
                assert(e == 32);
                assert(p == pow2(32));
            }
        }
    }
    proof {
        lemma_pow2_unfold((e + 1) as nat);
        assert(leading_one(n as nat, e as nat));
        lemma_pow2_adds(e as nat, (52 - e) as nat);
        assert(p * q == pow2(52));
        assert((n64 - p) * q < p * q) by (nonlinear_arith)
            requires
                n64 - p < p,
                q > 0,
        {
        }
        let c = choose|x: nat| leading_one(n as nat, x);
        lemma_leading_one_unique(n as nat, c, e as nat);
    }
    (1023 + e) * 0x0010_0000_0000_0000 + (n64 - p) * q
}

/// Law: the direction chosen towards an adjacent tile points to it.
pub proof fn lemma_choose_direction_points(pos: Pos, target: Pos)
    ensures
        spec_choose_direction(pos, target) matches Some(d) ==> {
            &&& target[0] as int == pos[0] as int + crate::direction::dir_vec(d).0
            &&& target[1] as int == pos[1] as int + crate::direction::dir_vec(d).1
        },
{
}

} // verus!
