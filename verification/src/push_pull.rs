//! Pushing and pulling items over the conveyor network.
use vstd::prelude::*;

use crate::conveyor::{conv_has, conv_has_from, conv_has_to, Conveyor};
use crate::direction::{dir_reverse, dir_vec, Direction};
use crate::tile::{Tile, Tiles};
use crate::building::{pos_in_range, rect_contains, spec_capacity, spec_is_storage, spec_size, Building, BuildingType};
use crate::entity::{
    count_occupied, insert_gen, insert_index, lemma_insert_keeps_resolved, lemma_insert_len,
    lemma_insert_then_get, lemma_len_after_insert_remove, lookup, slots_can_insert, slots_after_insert, EntityEntry, EntryPayload,
    EntitySet,
};
use crate::inventory::{entries_sum, lemma_inventory_parts, lemma_total_is_sum, lemma_entries_of_view, sorted_entries, CountableInventory, Inventory};
use crate::items::{item_index, ItemType};
use crate::transport::{
    delivers, delivery_count, delivery_total, expected_deliveries, lemma_delivery_total_same, lemma_no_delivery_total,
    find_multipath_should_expand, next_to_goal, pos_eq, found_path, step_to, CPos, LevelTarget, Transport, TransportId};
use crate::Pos;

verus! {

/// A map of tiles that can be sampled by position. The game samples its chunked tile map;
/// tests sample small hand-made boards.
pub trait TileSampler {
    /// The sampler can be read.
    spec fn sampler_ok(&self) -> bool;

    /// The tile at `pos`, if the sampler has one.
    spec fn sample(&self, pos: Pos) -> Option<Tile>;

    /// The tile at `pos`, if the sampler has one.
    fn at(&self, pos: Pos) -> (r: Option<Tile>)
        requires
            self.sampler_ok(),
        ensures
            r == self.sample(pos),
    ;
}

impl TileSampler for Tiles {
    open spec fn sampler_ok(&self) -> bool {
        self.wf()
    }

    open spec fn sample(&self, pos: Pos) -> Option<Tile> {
        Some(self.spec_tile_at(pos))
    }

    fn at(&self, pos: Pos) -> (r: Option<Tile>) {
        Some(self.index(pos))
    }
}

/// The tile one step from `p` in direction `d` scaled by `sign` (1 or -1), unless it leaves
/// the coordinate range.
pub open spec fn offset(p: Pos, d: Direction, sign: int) -> Option<Pos> {
    let x = p[0] as int + sign * dir_vec(d).0;
    let y = p[1] as int + sign * dir_vec(d).1;
    if i32::MIN <= x <= i32::MAX && i32::MIN <= y <= i32::MAX {
        Some([x as i32, y as i32])
    } else {
        None
    }
}

fn offset_exec(p: Pos, d: Direction, sign: i32) -> (r: Option<Pos>)
    requires
        sign == 1 || sign == -1,
    ensures
        r == offset(p, d, sign as int),
{
    let v = d.to_vec();
    let dx = if sign == 1 { v[0] } else { -v[0] };
    let dy = if sign == 1 { v[1] } else { -v[1] };
    match (p[0].checked_add(dx), p[1].checked_add(dy)) {
        (Some(x), Some(y)) => {
            let r = [x, y];
            proof {
                assert(r@ =~= offset(p, d, sign as int).unwrap()@);
            }
            Some(r)
        },
        _ => None,
    }
}

/// Whether the tile the search came from hands items towards `pos`. Coming from nowhere, from
/// a tile the sampler lacks, or from outside the coordinate range counts as connected: a path
/// may leave a building.
pub open spec fn spec_prev_tile_connects_to<S: TileSampler>(
    tiles: &S,
    from_dir: Option<Direction>,
    pos: Pos,
) -> bool {
    match from_dir {
        None => true,
        Some(dir) => match offset(pos, dir, -1) {
            None => true,
            Some(prev) => match tiles.sample(prev) {
                None => true,
                Some(prev_tile) => conv_has_to(prev_tile.conveyor, dir),
            },
        },
    }
}

/// Whether a push or pull path may pass `pos`, coming from `from_direction`: a conveyor next
/// to the start (`next_to_start`) always may; otherwise the previous tile must hand items here
/// and this tile must take them from there (or, at the start, just carry a conveyor).
pub open spec fn spec_push_pull_passable<S: TileSampler>(
    tiles: &S,
    from_direction: Option<Direction>,
    next_to_start: bool,
    pos: Pos,
) -> bool {
    match tiles.sample(pos) {
        None => false,
        Some(tile) => if tile.conveyor != Conveyor::Empty && next_to_start {
            true
        } else if !spec_prev_tile_connects_to(tiles, from_direction, pos) {
            false
        } else {
            match from_direction {
                Some(from) => conv_has_from(tile.conveyor, dir_reverse(from)),
                None => tile.conveyor != Conveyor::Empty,
            }
        },
    }
}

/// Where a push or pull search expands: onto the second level of a crossing that the
/// vertical belt passes, onto the first level from a single belt, and straight on only from
/// a crossing.
pub open spec fn spec_push_pull_should_expand<S: TileSampler>(
    tiles: &S,
    to: Direction,
    cpos: CPos,
    from: Option<Direction>,
) -> LevelTarget {
    match tiles.sample(cpos.pos) {
        None => LevelTarget::One,
        Some(tile) => match offset(cpos.pos, to, 1) {
            None => LevelTarget::One,
            Some(next_pos) => match tiles.sample(next_pos) {
                None => LevelTarget::One,
                Some(next_tile) => {
                    let conv = tile.conveyor;
                    let next_conv = next_tile.conveyor;
                    if next_conv matches Conveyor::Two(_, _) && (conv_has_to(conv, Direction::Up)
                        || conv_has_to(conv, Direction::Down)) && (conv_has(next_conv, Direction::Up)
                        || conv_has(next_conv, Direction::Down)) {
                        LevelTarget::Two
                    } else {
                        match conv {
                            Conveyor::One(_, _) => LevelTarget::One,
                            Conveyor::Two(_, _) => if from == Some(to) {
                                LevelTarget::One
                            } else {
                                LevelTarget::Blocked
                            },
                            _ => LevelTarget::One,
                        }
                    }
                },
            },
        },
    }
}

/// Whether the tile the search came from hands items towards `pos`.
pub fn prev_tile_connects_to<S: TileSampler>(tiles: &S, from_dir: Option<Direction>, pos: Pos) -> (r: bool)
    requires
        tiles.sampler_ok(),
    ensures
        r == spec_prev_tile_connects_to(tiles, from_dir, pos),
{
    let dir = match from_dir {
        None => {
            return true;
        },
        Some(dir) => dir,
    };
    let prev_pos = match offset_exec(pos, dir, -1) {
        None => {
            return true;
        },
        Some(p) => p,
    };
    match tiles.at(prev_pos) {
        None => true,
        Some(prev_tile) => prev_tile.conveyor.has_to(dir),
    }
}

pub(crate) fn pos_in(v: &Vec<Pos>, p: Pos) -> (r: bool)
    ensures
        r == v@.contains(p),
{
    let mut i: usize = 0;
    while i < v.len()
        invariant
            i <= v@.len(),
            forall|k: int| 0 <= k < i ==> v@[k] != p,
        decreases v@.len() - i,
    {
        if v[i][0] == p[0] && v[i][1] == p[1] {
            proof {
                assert(v@[i as int]@ =~= p@);
                assert(v@[i as int] == p);
            }
            return true;
        }
        proof {
            if v@[i as int] == p {
                assert(v@[i as int]@[0] == p@[0]);
            }
        }
        i = i + 1;
    }
    false
}

/// Whether a push or pull path may pass `pos`, coming from `from_direction`.
pub fn push_pull_passable<S: TileSampler>(
    tiles: &S,
    from_direction: Option<Direction>,
    start_neighbors: &Vec<Pos>,
    pos: Pos,
) -> (r: bool)
    requires
        tiles.sampler_ok(),
    ensures
        r == spec_push_pull_passable(tiles, from_direction, start_neighbors@.contains(pos), pos),
{
    let tile = match tiles.at(pos) {
        None => {
            return false;
        },
        Some(t) => t,
    };
    if tile.conveyor.is_some() && pos_in(start_neighbors, pos) {
        return true;
    }
    if !prev_tile_connects_to(tiles, from_direction, pos) {
        return false;
    }
    match from_direction {
        Some(from) => tile.conveyor.has_from(from.reverse()),
        None => tile.conveyor.is_some(),
    }
}

/// Where a push or pull search expands from `cpos` towards `to`.
pub fn push_pull_should_expand<S: TileSampler>(
    tiles: &S,
    to: Direction,
    cpos: CPos,
    from: Option<Direction>,
) -> (r: LevelTarget)
    requires
        tiles.sampler_ok(),
    ensures
        r == spec_push_pull_should_expand(tiles, to, cpos, from),
{
    let tile = match tiles.at(cpos.pos) {
        None => {
            return LevelTarget::One;
        },
        Some(t) => t,
    };
    let conv = tile.conveyor;
    let next_pos = match offset_exec(cpos.pos, to, 1) {
        None => {
            return LevelTarget::One;
        },
        Some(p) => p,
    };
    let next_tile = match tiles.at(next_pos) {
        None => {
            return LevelTarget::One;
        },
        Some(t) => t,
    };
    let next_conv = next_tile.conveyor;
    if next_conv.has_two() && (conv.has_to(Direction::Up) || conv.has_to(Direction::Down)) && (
    next_conv.has(Direction::Up) || next_conv.has(Direction::Down)) {
        return LevelTarget::Two;
    }
    match conv {
        Conveyor::One(_, _) => LevelTarget::One,
        Conveyor::Two(_, _) => {
            let same = match from {
                Some(f) => f == to,
                None => false,
            };
            if same {
                LevelTarget::One
            } else {
                LevelTarget::Blocked
            }
        },
        _ => LevelTarget::One,
    }
}

/// Tile `q` lies one step from a tile of the rectangle at `pos` of size `size`.
pub open spec fn near_rect(pos: Pos, size: (int, int), q: Pos) -> bool {
    exists|p: Pos, d: Direction| rect_contains(pos, size, p) && #[trigger] step_to(p, d, q)
}

proof fn lemma_rect_index(ix: int, iy: int, s0: int, s1: int)
    by (nonlinear_arith)
    requires
        0 <= ix < s0,
        0 <= iy < s1,
    ensures
        0 <= ix * s1 + iy < s0 * s1,
        ix * s1 + iy < (ix + 1) * s1,
        (ix + 1) * s1 <= s0 * s1,
{
}

proof fn lemma_rect_index_mono(a: int, b: int, ix: int, s1: int)
    by (nonlinear_arith)
    requires
        0 <= a < ix,
        0 <= b < s1,
    ensures
        a * s1 + b < ix * s1,
{
}

/// The tiles of the rectangle of size `size` whose top left tile is `pos`, column by column:
/// the tile `[pos[0] + ix, pos[1] + iy]` comes at index `ix * size[1] + iy`.
pub fn rect_iter(pos: Pos, size: [usize; 2]) -> (r: Vec<Pos>)
    requires
        size[0] <= i32::MAX,
        size[1] <= i32::MAX,
        pos[0] + size[0] <= i32::MAX + 1,
        pos[1] + size[1] <= i32::MAX + 1,
    ensures
        r@.len() == size[0] * size[1],
        forall|ix: int, iy: int|
            0 <= ix < size[0] && 0 <= iy < size[1] ==> {
                &&& #[trigger] r@[ix * size[1] + iy][0] == pos[0] + ix
                &&& r@[ix * size[1] + iy][1] == pos[1] + iy
            },
        forall|p: Pos| r@.contains(p) <==> rect_contains(pos, (size[0] as int, size[1] as int), p),
{
    let ghost sz = (size[0] as int, size[1] as int);
    let mut r: Vec<Pos> = Vec::new();
    let mut ix: usize = 0;
    while ix < size[0]
        invariant
            ix <= size[0],
            size[0] <= i32::MAX,
            size[1] <= i32::MAX,
            pos[0] + size[0] <= i32::MAX + 1,
            pos[1] + size[1] <= i32::MAX + 1,
            sz == (size[0] as int, size[1] as int),
            r@.len() == ix * size[1],
            forall|a: int, b: int|
                0 <= a < ix && 0 <= b < size[1] ==> {
                    &&& #[trigger] r@[a * size[1] + b][0] == pos[0] + a
                    &&& r@[a * size[1] + b][1] == pos[1] + b
                },
            forall|k: int| 0 <= k < r@.len() ==> rect_contains(pos, sz, #[trigger] r@[k]),
        decreases size[0] - ix,
    {
        let mut iy: usize = 0;
        while iy < size[1]
            invariant
                ix < size[0],
                iy <= size[1],
                size[0] <= i32::MAX,
                size[1] <= i32::MAX,
                pos[0] + size[0] <= i32::MAX + 1,
                pos[1] + size[1] <= i32::MAX + 1,
                sz == (size[0] as int, size[1] as int),
                r@.len() == ix * size[1] + iy,
                forall|a: int, b: int|
                    0 <= a < ix && 0 <= b < size[1] ==> {
                        &&& #[trigger] r@[a * size[1] + b][0] == pos[0] + a
                        &&& r@[a * size[1] + b][1] == pos[1] + b
                    },
                forall|b: int|
                    0 <= b < iy ==> {
                        &&& #[trigger] r@[ix * size[1] + b][0] == pos[0] + ix
                        &&& r@[ix * size[1] + b][1] == pos[1] + b
                    },
                forall|k: int| 0 <= k < r@.len() ==> rect_contains(pos, sz, #[trigger] r@[k]),
            decreases size[1] - iy,
        {
            let p: Pos = [pos[0] + ix as i32, pos[1] + iy as i32];
            let ghost before = r@;
            r.push(p);
            proof {
                assert forall|a: int, b: int|
                    0 <= a < ix && 0 <= b < size[1] implies {
                        &&& #[trigger] r@[a * size[1] + b][0] == pos[0] + a
                        &&& r@[a * size[1] + b][1] == pos[1] + b
                    } by {
                    lemma_rect_index_mono(a, b, ix as int, size[1] as int);
                    assert(r@[a * size[1] + b] == before[a * size[1] + b]);
                }
                assert forall|b: int|
                    0 <= b < iy + 1 implies {
                        &&& #[trigger] r@[ix * size[1] + b][0] == pos[0] + ix
                        &&& r@[ix * size[1] + b][1] == pos[1] + b
                    } by {
                    if b < iy {
                        assert(r@[ix * size[1] + b] == before[ix * size[1] + b]);
                    }
                }
            }
            iy = iy + 1;
        }
        proof {
            assert((ix + 1) * size[1] == ix * size[1] + size[1]) by (nonlinear_arith);
            assert forall|a: int, b: int|
                0 <= a < ix + 1 && 0 <= b < size[1] implies {
                    &&& #[trigger] r@[a * size[1] + b][0] == pos[0] + a
                    &&& r@[a * size[1] + b][1] == pos[1] + b
                } by {
                if a == ix {
                }
            }
        }
        ix = ix + 1;
    }
    proof {
        assert forall|p: Pos| rect_contains(pos, sz, p) implies r@.contains(p) by {
            let a = p[0] - pos[0];
            let b = p[1] - pos[1];
            lemma_rect_index(a, b, size[0] as int, size[1] as int);
            let k = a * size[1] + b;
            assert(r@[k][0] == p[0] && r@[k][1] == p[1]);
            assert(r@[k]@ =~= p@);
            assert(r@[k] == p);
        }
    }
    r
}

fn pos_step(p: Pos, d: Direction) -> (r: Pos)
    requires
        i32::MIN < p[0] < i32::MAX,
        i32::MIN < p[1] < i32::MAX,
    ensures
        step_to(p, d, r),
{
    let v = d.to_vec();
    [p[0] + v[0], p[1] + v[1]]
}

/// The tiles one step from some tile of `tiles`, each once.
pub fn neighbors_set(tiles: &Vec<Pos>) -> (r: Vec<Pos>)
    requires
        forall|k: int|
            0 <= k < tiles@.len() ==> i32::MIN < (#[trigger] tiles@[k])[0] < i32::MAX && i32::MIN
                < tiles@[k][1] < i32::MAX,
    ensures
        forall|q: Pos|
            r@.contains(q) <==> exists|k: int, d: Direction|
                0 <= k < tiles@.len() && #[trigger] step_to(tiles@[k], d, q),
        r@.no_duplicates(),
{
    let mut set: Vec<Pos> = Vec::new();
    let mut i: usize = 0;
    while i < tiles.len()
        invariant
            i <= tiles@.len(),
            forall|k: int|
                0 <= k < tiles@.len() ==> i32::MIN < (#[trigger] tiles@[k])[0] < i32::MAX && i32::MIN
                    < tiles@[k][1] < i32::MAX,
            forall|q: Pos|
                set@.contains(q) <==> exists|k: int, d: Direction|
                    0 <= k < i && #[trigger] step_to(tiles@[k], d, q),
            set@.no_duplicates(),
        decreases tiles@.len() - i,
    {
        let dirs = Direction::all();
        let mut j: usize = 0;
        while j < 4
            invariant
                i < tiles@.len(),
                j <= 4,
                dirs@ == seq![Direction::Left, Direction::Up, Direction::Right, Direction::Down],
                i32::MIN < tiles@[i as int][0] < i32::MAX,
                i32::MIN < tiles@[i as int][1] < i32::MAX,
                forall|q: Pos|
                    set@.contains(q) <==> (exists|k: int, d: Direction|
                        0 <= k < i && #[trigger] step_to(tiles@[k], d, q)) || (exists|m: int|
                        0 <= m < j && #[trigger] step_to(tiles@[i as int], dirs@[m], q)),
                set@.no_duplicates(),
            decreases 4 - j,
        {
            let q = pos_step(tiles[i], dirs[j]);
            let ghost before = set@;
            if !pos_in(&set, q) {
                set.push(q);
            }
            proof {
                assert(step_to(tiles@[i as int], dirs@[j as int], q));
                assert forall|x: Pos| set@.contains(x) <==> (before.contains(x) || x == q) by {
                    if before.contains(x) {
                        let idx = choose|idx: int| 0 <= idx < before.len() && before[idx] == x;
                        assert(set@[idx] == x);
                    }
                    if x == q && !before.contains(x) {
                        assert(set@[set@.len() - 1] == q);
                    }
                    if set@.contains(x) {
                        let idx = choose|idx: int| 0 <= idx < set@.len() && set@[idx] == x;
                        if idx < before.len() {
                            assert(before[idx] == x);
                        }
                    }
                }
                assert forall|q2: Pos|
                    set@.contains(q2) <==> (exists|k: int, d: Direction|
                        0 <= k < i && #[trigger] step_to(tiles@[k], d, q2)) || (exists|m: int|
                        0 <= m < j + 1 && #[trigger] step_to(tiles@[i as int], dirs@[m], q2)) by {
                    if set@.contains(q2) {
                        if before.contains(q2) {
                            if exists|m: int| 0 <= m < j && #[trigger] step_to(tiles@[i as int], dirs@[m], q2) {
                                let m = choose|m: int| 0 <= m < j && #[trigger] step_to(tiles@[i as int], dirs@[m], q2);
                                assert(0 <= m < j + 1 && step_to(tiles@[i as int], dirs@[m], q2));
                            }
                        } else {
                            assert(q2 == q);
                            assert(step_to(tiles@[i as int], dirs@[j as int], q2));
                        }
                    }
                    if exists|k: int, d: Direction| 0 <= k < i && #[trigger] step_to(tiles@[k], d, q2) {
                        assert(before.contains(q2));
                    }
                    if exists|m: int| 0 <= m < j + 1 && #[trigger] step_to(tiles@[i as int], dirs@[m], q2) {
                        let m = choose|m: int| 0 <= m < j + 1 && #[trigger] step_to(tiles@[i as int], dirs@[m], q2);
                        if m == j {
                            assert(q2@ =~= q@);
                            assert(q2 == q);
                        } else {
                            assert(before.contains(q2));
                        }
                    }
                }
            }
            j = j + 1;
        }
        proof {
            assert forall|q: Pos|
                set@.contains(q) <==> exists|k: int, d: Direction|
                    0 <= k < i + 1 && #[trigger] step_to(tiles@[k], d, q) by {
                if exists|k: int, d: Direction| 0 <= k < i + 1 && #[trigger] step_to(tiles@[k], d, q) {
                    let (k, d) = choose|k: int, d: Direction| 0 <= k < i + 1 && #[trigger] step_to(tiles@[k], d, q);
                    if k == i {
                        let m: int = match d {
                            Direction::Left => 0,
                            Direction::Up => 1,
                            Direction::Right => 2,
                            Direction::Down => 3,
                        };
                        assert(dirs@[m] == d);
                        assert(step_to(tiles@[i as int], dirs@[m], q));
                    }
                }
                if exists|m: int| 0 <= m < 4 && #[trigger] step_to(tiles@[i as int], dirs@[m], q) {
                    let m = choose|m: int| 0 <= m < 4 && #[trigger] step_to(tiles@[i as int], dirs@[m], q);
                    assert(step_to(tiles@[i as int], dirs@[m], q));
                }
            }
        }
        i = i + 1;
    }
    set
}

/// The count of `ty` in an inventory, 0 when there is no entry.
pub open spec fn map_count(m: Map<ItemType, usize>, ty: ItemType) -> int {
    if m.contains_key(ty) {
        m[ty] as int
    } else {
        0
    }
}

/// The entity of an occupied slot.
pub open spec fn occupant<T>(e: EntityEntry<T>) -> T {
    e.payload->Occupied_0
}

/// Every building of the slots has a well formed inventory and a position a building fits at.
pub open spec fn buildings_ok(s: Seq<EntityEntry<Building>>) -> bool {
    forall|i: int|
        0 <= i < s.len() && #[trigger] s[i].payload is Occupied ==> occupant(s[i]).inventory.wf()
            && pos_in_range(occupant(s[i]).pos)
}

/// The slot holds a building that has some of `ty`.
pub open spec fn holds_item(e: EntityEntry<Building>, ty: ItemType) -> bool {
    e.payload is Occupied && map_count(occupant(e).inventory@, ty) != 0
}

/// Slot `i` holds the first building, in slot order, that has some of `ty`.
pub open spec fn first_holder(s: Seq<EntityEntry<Building>>, ty: ItemType, i: int) -> bool {
    &&& 0 <= i < s.len()
    &&& holds_item(s[i], ty)
    &&& forall|j: int| 0 <= j < i ==> !#[trigger] holds_item(s[j], ty)
}

/// Two buildings agree on everything but their inventories.
pub open spec fn same_but_inventory(a: Building, b: Building) -> bool {
    &&& a.pos == b.pos
    &&& a.type_ == b.type_
    &&& a.task == b.task
    &&& a.crews == b.crews
    &&& a.recipe == b.recipe
    &&& a.direction == b.direction
    &&& a.energy == b.energy
    &&& a.expected_transports == b.expected_transports
}

/// Two slot sequences of buildings agree on everything but the buildings' inventories, and the
/// new inventories are well formed.
pub open spec fn slots_same_but_inventories(a: Seq<EntityEntry<Building>>, b: Seq<EntityEntry<Building>>) -> bool {
    &&& a.len() == b.len()
    &&& forall|i: int|
        0 <= i < a.len() ==> {
            &&& (#[trigger] b[i]).gen == a[i].gen
            &&& (b[i].payload is Occupied <==> a[i].payload is Occupied)
            &&& (a[i].payload matches EntryPayload::Free(n) ==> b[i].payload == EntryPayload::<Building>::Free(n))
            &&& (a[i].payload is Occupied ==> same_but_inventory(occupant(a[i]), occupant(b[i]))
                && occupant(b[i]).inventory.wf())
        }
}

/// Every building of `a` stays in its slot in `b`, at the same place and of the same type.
pub open spec fn places_kept(a: Seq<EntityEntry<Building>>, b: Seq<EntityEntry<Building>>) -> bool {
    &&& a.len() <= b.len()
    &&& forall|i: int|
        0 <= i < a.len() && #[trigger] a[i].payload is Occupied ==> {
            &&& b[i].payload is Occupied
            &&& occupant(b[i]).pos == occupant(a[i]).pos
            &&& occupant(b[i]).type_ == occupant(a[i]).type_
        }
}

/// Whether a building of type `ty` stands with its top left tile at `p`.
pub open spec fn has_building_at(bs: Seq<EntityEntry<Building>>, p: Pos, ty: BuildingType) -> bool {
    exists|j: int|
        0 <= j < bs.len() && #[trigger] bs[j].payload is Occupied && occupant(bs[j]).pos == p && occupant(
            bs[j],
        ).type_ == ty
}

/// Buildings whose places are kept are still found.
pub proof fn lemma_places_kept_find(a: Seq<EntityEntry<Building>>, b: Seq<EntityEntry<Building>>, p: Pos, ty: BuildingType)
    requires
        places_kept(a, b),
        has_building_at(a, p, ty),
    ensures
        has_building_at(b, p, ty),
{
    let j = choose|j: int|
        0 <= j < a.len() && #[trigger] a[j].payload is Occupied && occupant(a[j]).pos == p && occupant(a[j]).type_ == ty;
    assert(b[j].payload is Occupied);
}

/// Keeping places is transitive.
pub proof fn lemma_places_kept_trans(a: Seq<EntityEntry<Building>>, b: Seq<EntityEntry<Building>>, c: Seq<EntityEntry<Building>>)
    requires
        places_kept(a, b),
        places_kept(b, c),
    ensures
        places_kept(a, c),
{
    assert forall|i: int| 0 <= i < a.len() && #[trigger] a[i].payload is Occupied implies {
        &&& c[i].payload is Occupied
        &&& occupant(c[i]).pos == occupant(a[i]).pos
        &&& occupant(c[i]).type_ == occupant(a[i]).type_
    } by {
        assert(b[i].payload is Occupied);
    }
}

/// Changing inventories only keeps places.
pub proof fn lemma_same_but_inventories_keeps_places(a: Seq<EntityEntry<Building>>, b: Seq<EntityEntry<Building>>)
    requires
        slots_same_but_inventories(a, b),
    ensures
        places_kept(a, b),
{
    assert forall|i: int| 0 <= i < a.len() && #[trigger] a[i].payload is Occupied implies {
        &&& b[i].payload is Occupied
        &&& occupant(b[i]).pos == occupant(a[i]).pos
        &&& occupant(b[i]).type_ == occupant(a[i]).type_
    } by {
        assert(same_but_inventory(occupant(a[i]), occupant(b[i])));
    }
}

/// `after` is `before` with `n` of `ty` taken away: nothing changes when `n` is 0; otherwise
/// the count drops by `n` and the entry goes when nothing is left.
pub open spec fn inv_taken(before: Map<ItemType, usize>, after: Map<ItemType, usize>, ty: ItemType, n: int) -> bool {
    if n == 0 {
        &&& after.contains_key(ty) == before.contains_key(ty)
        &&& before.contains_key(ty) ==> after[ty] == before[ty]
    } else {
        &&& n <= map_count(before, ty)
        &&& after.contains_key(ty) <==> n < map_count(before, ty)
        &&& after.contains_key(ty) ==> after[ty] == map_count(before, ty) - n
    }
}

/// What a pull of `amount` of `ty` takes of `ty2` from the building in slot `i`: the amount,
/// if the types agree and the building is the first holder of `ty`, else nothing.
pub open spec fn pull_taken(s: Seq<EntityEntry<Building>>, ty: ItemType, amount: int, i: int, ty2: ItemType) -> int {
    if ty2 == ty && first_holder(s, ty, i) {
        amount
    } else {
        0
    }
}

/// A path for an item from the rectangle at `start_pos` into the rectangle at `dest_pos`,
/// destination first: at least two tiles, the last in the start rectangle, and every other
/// tile one step from the next one, in the destination or passable for push and pull.
pub open spec fn conveyor_path_ok<S: TileSampler>(
    tiles: &S,
    start_pos: Pos,
    start_size: (int, int),
    dest_pos: Pos,
    dest_size: (int, int),
    path: Seq<Pos>,
) -> bool {
    &&& path.len() >= 2
    &&& rect_contains(start_pos, start_size, path.last())
    &&& forall|k: int|
        0 <= k < path.len() - 1 ==> #[trigger] conveyor_step_ok(tiles, start_pos, start_size, dest_pos, dest_size, path, k)
}

/// Tile `k` of a path is one step from tile `k + 1`, in the destination rectangle or passable
/// for push and pull coming from that step's direction.
pub open spec fn conveyor_step_ok<S: TileSampler>(
    tiles: &S,
    start_pos: Pos,
    start_size: (int, int),
    dest_pos: Pos,
    dest_size: (int, int),
    path: Seq<Pos>,
    k: int,
) -> bool {
    exists|d: Direction|
        #[trigger] step_to(path[k + 1], d, path[k]) && (rect_contains(dest_pos, dest_size, path[k])
            || spec_push_pull_passable(tiles, Some(d), near_rect(start_pos, start_size, path[k]), path[k]))
}

pub(crate) fn in_rect(pos: Pos, size: [usize; 2], p: Pos) -> (r: bool)
    requires
        size[0] <= i32::MAX,
        size[1] <= i32::MAX,
    ensures
        r == rect_contains(pos, (size[0] as int, size[1] as int), p),
{
    let x0 = pos[0] as i64;
    let y0 = pos[1] as i64;
    x0 <= p[0] as i64 && (p[0] as i64) < x0 + size[0] as i64 && y0 <= p[1] as i64 && (p[1] as i64)
        < y0 + size[1] as i64
}

/// The slot of the first building, in slot order, that has some of `item`, with its count.
fn find_from_inventory(item: ItemType, buildings: &EntitySet<Building>) -> (r: Option<(usize, usize)>)
    requires
        buildings_ok(buildings.slots()),
    ensures
        match r {
            Some((i, c)) => first_holder(buildings.slots(), item, i as int) && c == map_count(
                occupant(buildings.slots()[i as int]).inventory@,
                item,
            ),
            None => forall|j: int| 0 <= j < buildings.slots().len() ==> !#[trigger] holds_item(buildings.slots()[j], item),
        },
{
    let n = buildings.num_slots();
    let mut i: usize = 0;
    while i < n
        invariant
            n == buildings.slots().len(),
            i <= n,
            buildings_ok(buildings.slots()),
            forall|j: int| 0 <= j < i ==> !#[trigger] holds_item(buildings.slots()[j], item),
        decreases n - i,
    {
        match buildings.get_at(i) {
            Some(b) => {
                proof {
                    assert(buildings.slots()[i as int].payload is Occupied);
                }
                let count = b.inventory.get(&item);
                if count != 0 {
                    return Some((i, count));
                }
            },
            None => {},
        }
        i = i + 1;
    }
    None
}

/// The path of a pull from the building `src` to the rectangle at `this_pos`: it starts in the
/// building, ends in the rectangle and keeps to conveyors on the way.
pub open spec fn pull_path_ok<S: TileSampler>(
    tiles: &S,
    src: Building,
    this_pos: Pos,
    this_size: (int, int),
    path: Seq<Pos>,
) -> bool {
    &&& conveyor_path_ok(tiles, src.pos, spec_size(src.type_), this_pos, this_size, path)
    &&& rect_contains(this_pos, this_size, path[0])
}

/// A transport that pulls `lack` (or what the holder has, if less) of its item from the first
/// building in `bslots` that has some, to the rectangle at `this_pos`.
pub open spec fn pulled_from_holder<S: TileSampler>(
    tiles: &S,
    bslots: Seq<EntityEntry<Building>>,
    lack: int,
    this_pos: Pos,
    this_size: (int, int),
    t: Transport,
) -> bool {
    exists|i: int|
        #[trigger] first_holder(bslots, t.item, i) && {
            let b = occupant(bslots[i]);
            let have = map_count(b.inventory@, t.item);
            &&& t.src == b.pos
            &&& t.dest == this_pos
            &&& t.amount == (if have < lack { have } else { lack })
            &&& pull_path_ok(tiles, b, this_pos, this_size, t.path@)
        }
}

proof fn lemma_near_rect_neighbors(starts: Seq<Pos>, nb: Seq<Pos>, pos: Pos, size: (int, int), q: Pos)
    requires
        forall|p: Pos| starts.contains(p) <==> rect_contains(pos, size, p),
        forall|q: Pos|
            nb.contains(q) <==> exists|k: int, d: Direction| 0 <= k < starts.len() && #[trigger] step_to(starts[k], d, q),
    ensures
        nb.contains(q) == near_rect(pos, size, q),
{
    if nb.contains(q) {
        let (k, d) = choose|k: int, d: Direction| 0 <= k < starts.len() && #[trigger] step_to(starts[k], d, q);
        assert(starts.contains(starts[k]));
        assert(rect_contains(pos, size, starts[k]) && step_to(starts[k], d, q));
    }
    if near_rect(pos, size, q) {
        let (p, d) = choose|p: Pos, d: Direction| rect_contains(pos, size, p) && #[trigger] step_to(p, d, q);
        assert(starts.contains(p));
        let k = choose|k: int| 0 <= k < starts.len() && starts[k] == p;
        assert(step_to(starts[k], d, q));
    }
}

/// A path that the search found over the start rectangle, with a passability test that lets
/// the destination rectangle through and otherwise tests push and pull passability next to the
/// start's neighbors, is a conveyor path.
proof fn lemma_found_conveyor_path<S: TileSampler, G: Fn(Pos) -> bool, P: Fn(Option<Direction>, Pos) -> bool>(
    tiles: &S,
    starts: Seq<Pos>,
    nb: Seq<Pos>,
    path: Seq<Pos>,
    goal: G,
    pass: P,
    start_pos: Pos,
    start_size: (int, int),
    dest_pos: Pos,
    dest_size: (int, int),
)
    requires
        found_path(starts, path, goal, pass),
        forall|p: Pos| starts.contains(p) <==> rect_contains(start_pos, start_size, p),
        forall|q: Pos|
            nb.contains(q) <==> exists|k: int, d: Direction| 0 <= k < starts.len() && #[trigger] step_to(starts[k], d, q),
        forall|d: Option<Direction>, p: Pos, r: bool|
            call_ensures(pass, (d, p), r) ==> r == (rect_contains(dest_pos, dest_size, p)
                || spec_push_pull_passable(tiles, d, nb.contains(p), p)),
    ensures
        conveyor_path_ok(tiles, start_pos, start_size, dest_pos, dest_size, path),
{
    assert forall|k: int| 0 <= k < path.len() - 1 implies #[trigger] conveyor_step_ok(
        tiles,
        start_pos,
        start_size,
        dest_pos,
        dest_size,
        path,
        k,
    ) by {
        assert(path.contains(path[k]));
        let d = choose|d: Direction| step_to(path[k + 1], d, path[k]) && call_ensures(pass, (Some(d), path[k]), true);
        lemma_near_rect_neighbors(starts, nb, start_pos, start_size, path[k]);
        assert(step_to(path[k + 1], d, path[k]));
        assert(rect_contains(dest_pos, dest_size, path[k])
            || spec_push_pull_passable(tiles, Some(d), near_rect(start_pos, start_size, path[k]), path[k]));
    }
    assert(starts.contains(path.last()));
    assert(path.len() >= 2);
    assert(rect_contains(start_pos, start_size, path.last()));
    assert(conveyor_path_ok(tiles, start_pos, start_size, dest_pos, dest_size, path));
}

/// Pulls up to `lack` of `ty` from the first building that has some, if a conveyor path leads
/// from it to the rectangle at `this_pos`: sets off a transport, expects it and takes the items
/// from the building.
/// Tile `s` of building `b` lies next to tile `g` of the rectangle at `this_pos` of
/// `this_size`, a step `d` away, with `g` outside `b`, and a push or pull search expands from
/// `s` that way when it sets out.
pub open spec fn holder_next_to<S: TileSampler>(
    tiles: &S,
    b: Building,
    this_pos: Pos,
    this_size: (int, int),
    s: Pos,
    d: Direction,
    g: Pos,
) -> bool {
    &&& rect_contains(b.pos, spec_size(b.type_), s)
    &&& step_to(s, d, g)
    &&& rect_contains(this_pos, this_size, g)
    &&& !rect_contains(b.pos, spec_size(b.type_), g)
    &&& spec_push_pull_should_expand(tiles, d, CPos { pos: s, level: false }, None) != LevelTarget::Blocked
}

/// The first building holding some of `ty` lies next to the rectangle at `this_pos` of
/// `this_size`, so that a pull reaches it in one step.
pub open spec fn holder_adjacent<S: TileSampler>(
    tiles: &S,
    bs: Seq<EntityEntry<Building>>,
    ty: ItemType,
    this_pos: Pos,
    this_size: (int, int),
) -> bool {
    exists|i: int, s: Pos, d: Direction, g: Pos|
        #[trigger] first_holder(bs, ty, i) && #[trigger] holder_next_to(tiles, occupant(bs[i]), this_pos, this_size, s, d, g)
}

fn pull_item<S: TileSampler>(
    ty: ItemType,
    lack: usize,
    tiles: &S,
    transports: &mut EntitySet<Transport>,
    expected_transports: &mut Vec<TransportId>,
    this_pos: Pos,
    this_size: [usize; 2],
    buildings: &mut EntitySet<Building>,
) -> (r: Option<TransportId>)
    requires
        lack > 0,
        tiles.sampler_ok(),
        old(transports).can_insert(),
        buildings_ok(old(buildings).slots()),
        this_size[0] <= i32::MAX,
        this_size[1] <= i32::MAX,
    ensures
        buildings_ok(final(buildings).slots()),
        slots_same_but_inventories(old(buildings).slots(), final(buildings).slots()),
        final(buildings).free_head() == old(buildings).free_head(),
        final(transports).free_head() == old(transports).free_head(),
        match r {
            None => {
                &&& final(transports).slots() == old(transports).slots()
                &&& final(expected_transports)@ == old(expected_transports)@
                &&& final(buildings).slots() == old(buildings).slots()
                &&& !holder_adjacent(tiles, old(buildings).slots(), ty, this_pos, (this_size[0] as int, this_size[1] as int))
            },
            Some(id) => {
                let t = lookup(final(transports).slots(), id)->Some_0;
                &&& id.index() == insert_index(old(transports).slots())
                &&& id.generation() == insert_gen(old(transports).slots())
                &&& final(transports).slots() == slots_after_insert(old(transports).slots(), t)
                &&& final(expected_transports)@ == old(expected_transports)@.push(id)
                &&& t.item == ty
                &&& pulled_from_holder(tiles, old(buildings).slots(), lack as int, this_pos,
                    (this_size[0] as int, this_size[1] as int), t)
                &&& forall|i: int, ty2: ItemType|
                    0 <= i < old(buildings).slots().len() && old(buildings).slots()[i].payload is Occupied
                        ==> #[trigger] inv_taken(
                        occupant(old(buildings).slots()[i]).inventory@,
                        occupant(final(buildings).slots()[i]).inventory@,
                        ty2,
                        pull_taken(old(buildings).slots(), ty, t.amount as int, i, ty2),
                    )
            },
        },
{
    let ghost tsz = (this_size[0] as int, this_size[1] as int);
    let ghost bs0 = buildings.slots();
    let (holder, count) = match find_from_inventory(ty, buildings) {
        Some(x) => x,
        None => {
            proof {
                assert forall|i: int, s: Pos, d: Direction, g: Pos|
                    !(#[trigger] first_holder(bs0, ty, i) && #[trigger] holder_next_to(tiles, occupant(bs0[i]), this_pos, tsz, s, d, g)) by {
                    if first_holder(bs0, ty, i) {
                        assert(!holds_item(bs0[i], ty));
                    }
                }
            }
            return None;
        },
    };
    let src = buildings.get_at(holder).unwrap();
    let src_pos = src.pos;
    let src_type = src.type_;
    let size = src_type.size();
    let ghost ssz = spec_size(src_type);
    let starts = rect_iter(src_pos, size);
    proof {
        assert(pos_in_range(src_pos));
        assert forall|k: int| 0 <= k < starts@.len() implies i32::MIN < (#[trigger] starts@[k])[0] < i32::MAX
            && i32::MIN < starts@[k][1] < i32::MAX by {
            assert(starts@.contains(starts@[k]));
        }
    }
    let nb = neighbors_set(&starts);
    let goal = |p: Pos| -> (r: bool)
        requires
            this_size[0] <= i32::MAX,
            this_size[1] <= i32::MAX,
        ensures
            r == rect_contains(this_pos, (this_size[0] as int, this_size[1] as int), p),
        { in_rect(this_pos, this_size, p) };
    let nbr = &nb;
    let pass = |d: Option<Direction>, p: Pos| -> (r: bool)
        requires
            tiles.sampler_ok(),
            this_size[0] <= i32::MAX,
            this_size[1] <= i32::MAX,
        ensures
            r == (rect_contains(this_pos, (this_size[0] as int, this_size[1] as int), p)
                || spec_push_pull_passable(tiles, d, nbr@.contains(p), p)),
        {
            if in_rect(this_pos, this_size, p) {
                true
            } else {
                push_pull_passable(tiles, d, nbr, p)
            }
        };
    let expand = |to: Direction, c: CPos, from: Option<Direction>| -> (r: LevelTarget)
        requires
            tiles.sampler_ok(),
        ensures
            r == spec_push_pull_should_expand(tiles, to, c, from),
        { push_pull_should_expand(tiles, to, c, from) };
    let path = match find_multipath_should_expand(&starts, goal, pass, expand) {
        Some(p) => p,
        None => {
            proof {
                lemma_pull_none(tiles, bs0, ty, holder as int, this_pos, tsz, starts@, goal, pass, expand);
            }
            return None;
        },
    };
    let ghost pv = path@;
    proof {
        lemma_found_conveyor_path(tiles, starts@, nb@, pv, goal, pass, src_pos, ssz, this_pos, tsz);
    }
    let amount = if count < lack { count } else { lack };
    let t = Transport { src: src_pos, dest: this_pos, item: ty, amount, path };
    let ghost tv = t;
    let id = transports.insert(t);
    proof {
        lemma_insert_then_get(old(transports).slots(), tv, id);
        assert(pulled_from_holder(tiles, bs0, lack as int, this_pos, tsz, tv)) by {
            assert(first_holder(bs0, tv.item, holder as int));
            assert(tv.path@ == pv);
            assert(occupant(bs0[holder as int]).pos == src_pos);
            assert(spec_size(occupant(bs0[holder as int]).type_) == ssz);
            assert(pull_path_ok(tiles, occupant(bs0[holder as int]), this_pos, tsz, tv.path@));
        }
    }
    expected_transports.push(id);
    let b = buildings.get_mut_at(holder).unwrap();
    if count <= amount {
        b.inventory.remove(&ty);
    } else {
        let c = b.inventory.get_mut(&ty).unwrap();
        *c = *c - amount;
    }
    proof {
        let bs1 = buildings.slots();
        assert forall|i: int, ty2: ItemType|
            0 <= i < bs0.len() && bs0[i].payload is Occupied implies #[trigger] inv_taken(
            occupant(bs0[i]).inventory@,
            occupant(bs1[i]).inventory@,
            ty2,
            pull_taken(bs0, ty, tv.amount as int, i, ty2),
        ) by {
            if first_holder(bs0, ty, i) {
                assert(i == holder) by {
                    if i < holder {
                        assert(!holds_item(bs0[i], ty));
                    }
                    if i > holder as int {
                        assert(!holds_item(bs0[holder as int], ty));
                    }
                }
            }
        }
    }
    Some(id)
}

/// Which building holds `ty` first, and where it stands, does not change while only other
/// counts change.
proof fn lemma_holder_adjacent_kept<S: TileSampler>(
    tiles: &S,
    bs0: Seq<EntityEntry<Building>>,
    bs1: Seq<EntityEntry<Building>>,
    ty: ItemType,
    this_pos: Pos,
    this_size: (int, int),
)
    requires
        holder_adjacent(tiles, bs0, ty, this_pos, this_size),
        slots_same_but_inventories(bs0, bs1),
        forall|i: int| 0 <= i < bs0.len() && bs0[i].payload is Occupied ==> map_count(occupant(bs0[i]).inventory@, ty)
            == map_count(occupant(bs1[i]).inventory@, ty),
    ensures
        holder_adjacent(tiles, bs1, ty, this_pos, this_size),
{
    let (i, s, d, g) = choose|i: int, s: Pos, d: Direction, g: Pos|
        #[trigger] first_holder(bs0, ty, i) && #[trigger] holder_next_to(tiles, occupant(bs0[i]), this_pos, this_size, s, d, g);
    assert(bs1[i].gen == bs0[i].gen);
    assert forall|j: int| 0 <= j < i implies !#[trigger] holds_item(bs1[j], ty) by {
        assert(!holds_item(bs0[j], ty));
        assert(bs1[j].gen == bs0[j].gen);
    }
    assert(first_holder(bs1, ty, i));
    assert(holder_next_to(tiles, occupant(bs1[i]), this_pos, this_size, s, d, g));
}

/// A pull search that set out from the first holder and found nothing leaves that holder not
/// next to the target rectangle.
proof fn lemma_pull_none<S: TileSampler, G: Fn(Pos) -> bool, P: Fn(Option<Direction>, Pos) -> bool, E: Fn(Direction, CPos, Option<Direction>) -> LevelTarget>(
    tiles: &S,
    bs: Seq<EntityEntry<Building>>,
    ty: ItemType,
    holder: int,
    this_pos: Pos,
    this_size: (int, int),
    starts: Seq<Pos>,
    goal: G,
    pass: P,
    expand: E,
)
    requires
        first_holder(bs, ty, holder),
        forall|p: Pos| starts.contains(p) <==> rect_contains(occupant(bs[holder]).pos, spec_size(occupant(bs[holder]).type_), p),
        forall|p: Pos, r: bool| #[trigger] call_ensures(goal, (p,), r) ==> r == rect_contains(this_pos, this_size, p),
        forall|f: Option<Direction>, p: Pos, r: bool| #[trigger] call_ensures(pass, (f, p), r) ==> (rect_contains(this_pos, this_size, p) ==> r),
        forall|to: Direction, c: CPos, f: Option<Direction>, r: LevelTarget| #[trigger] call_ensures(expand, (to, c, f), r) ==> r
            == spec_push_pull_should_expand(tiles, to, c, f),
        forall|s: Pos, d: Direction, g: Pos| !#[trigger] next_to_goal(starts, s, d, g, goal, pass, expand),
    ensures
        !holder_adjacent(tiles, bs, ty, this_pos, this_size),
{
    assert forall|i: int, s: Pos, d: Direction, g: Pos|
        !(#[trigger] first_holder(bs, ty, i) && #[trigger] holder_next_to(tiles, occupant(bs[i]), this_pos, this_size, s, d, g)) by {
        if first_holder(bs, ty, i) && holder_next_to(tiles, occupant(bs[i]), this_pos, this_size, s, d, g) {
            assert(i == holder) by {
                if i < holder {
                    assert(!holds_item(bs[i], ty));
                }
                if i > holder {
                    assert(!holds_item(bs[holder], ty));
                }
            }
            assert(starts.contains(s));
            assert(!starts.contains(g));
            assert(forall|r: bool| #[trigger] call_ensures(goal, (g,), r) ==> r);
            assert(next_to_goal(starts, s, d, g, goal, pass, expand));
        }
    }
}

/// How many of `ty` a site that demands `inputs` and holds `have` lacks, counting what is on
/// its way through the transports `ids` refer to.
pub open spec fn pull_lack(
    inputs: Map<ItemType, usize>,
    have: Map<ItemType, usize>,
    ts: Seq<EntityEntry<Transport>>,
    ids: Seq<TransportId>,
    ty: ItemType,
) -> int {
    map_count(inputs, ty) - (map_count(have, ty) + delivery_total(ts, ids, ty))
}

proof fn lemma_inv_taken_compose(
    a: Map<ItemType, usize>,
    b: Map<ItemType, usize>,
    c: Map<ItemType, usize>,
    ty: ItemType,
    n: int,
    m: int,
)
    requires
        inv_taken(a, b, ty, n),
        inv_taken(b, c, ty, m),
        n == 0 || m == 0,
        n >= 0,
        m >= 0,
    ensures
        inv_taken(a, c, ty, n + m),
{
}

/// When no building's count of `ty` changed, the first holder of `ty` and what was pulled from
/// it are the same in both slot sequences.
proof fn lemma_holder_transfer<S: TileSampler>(
    tiles: &S,
    a: Seq<EntityEntry<Building>>,
    b: Seq<EntityEntry<Building>>,
    ty: ItemType,
    lack: int,
    this_pos: Pos,
    this_size: (int, int),
    t: Transport,
)
    requires
        slots_same_but_inventories(a, b),
        forall|i: int|
            0 <= i < a.len() && a[i].payload is Occupied ==> map_count(occupant(a[i]).inventory@, ty)
                == map_count(occupant(b[i]).inventory@, ty),
    ensures
        forall|i: int| first_holder(b, ty, i) <==> first_holder(a, ty, i),
        t.item == ty && pulled_from_holder(tiles, b, lack, this_pos, this_size, t) ==> pulled_from_holder(
            tiles,
            a,
            lack,
            this_pos,
            this_size,
            t,
        ),
{
    assert forall|j: int| 0 <= j < a.len() implies #[trigger] holds_item(b[j], ty) == holds_item(a[j], ty) by {
        assert(b[j].gen == a[j].gen);
    }
    assert forall|i: int| first_holder(b, ty, i) <==> first_holder(a, ty, i) by {
        if first_holder(b, ty, i) {
            assert forall|j: int| 0 <= j < i implies !#[trigger] holds_item(a[j], ty) by {
                assert(!holds_item(b[j], ty));
            }
        }
        if first_holder(a, ty, i) {
            assert forall|j: int| 0 <= j < i implies !#[trigger] holds_item(b[j], ty) by {
                assert(!holds_item(a[j], ty));
            }
        }
    }
    if t.item == ty && pulled_from_holder(tiles, b, lack, this_pos, this_size, t) {
        let i = choose|i: int|
            #[trigger] first_holder(b, t.item, i) && {
                let bb = occupant(b[i]);
                let have = map_count(bb.inventory@, t.item);
                &&& t.src == bb.pos
                &&& t.dest == this_pos
                &&& t.amount == (if have < lack { have } else { lack })
                &&& pull_path_ok(tiles, bb, this_pos, this_size, t.path@)
            };
        assert(first_holder(a, t.item, i));
        assert(b[i].gen == a[i].gen);
    }
}

/// Pulls the items of `inputs` that the site at `this_pos` of size `this_size` lacks, counting
/// what it holds and what `expected_transports` are bringing: for each lacking item type, in
/// item order, the first building in `buildings` that has some sends what it can of the lack
/// over the conveyors, if a conveyor path leads from it to the site. Each transport set off is
/// expected by the site and taken out of the sending building's inventory.
///
/// `buildings` holds the buildings to pull from; the site itself is not among them.
pub fn pull_inputs<S: TileSampler>(
    inputs: &CountableInventory,
    tiles: &S,
    transports: &mut EntitySet<Transport>,
    expected_transports: &mut Vec<TransportId>,
    this_pos: Pos,
    this_size: [usize; 2],
    this_inventory: &mut Inventory,
    buildings: &mut EntitySet<Building>,
)
    requires
        inputs.wf(),
        old(this_inventory).wf(),
        tiles.sampler_ok(),
        buildings_ok(old(buildings).slots()),
        this_size[0] <= i32::MAX,
        this_size[1] <= i32::MAX,
        old(transports).can_insert(),
        old(transports).slots().len() + inputs.entries().len() < u32::MAX,
    ensures
        *final(this_inventory) == *old(this_inventory),
        buildings_ok(final(buildings).slots()),
        slots_same_but_inventories(old(buildings).slots(), final(buildings).slots()),
        final(buildings).free_head() == old(buildings).free_head(),
        final(transports).free_head() == old(transports).free_head(),
        final(expected_transports)@.len() >= old(expected_transports)@.len(),
        final(expected_transports)@.take(old(expected_transports)@.len() as int)
            == old(expected_transports)@,
        forall|k: int|
            old(expected_transports)@.len() <= k < final(expected_transports)@.len() ==> {
                let t = lookup(final(transports).slots(), #[trigger] final(expected_transports)@[k])->Some_0;
                let lack = pull_lack(
                    inputs@,
                    old(this_inventory)@,
                    old(transports).slots(),
                    old(expected_transports)@,
                    t.item,
                );
                &&& lookup(final(transports).slots(), final(expected_transports)@[k]) is Some
                &&& inputs@.contains_key(t.item)
                &&& lack > 0
                &&& pulled_from_holder(
                    tiles,
                    old(buildings).slots(),
                    lack,
                    this_pos,
                    (this_size[0] as int, this_size[1] as int),
                    t,
                )
            },
        forall|k1: int, k2: int|
            old(expected_transports)@.len() <= k1 < k2 < final(expected_transports)@.len() ==> lookup(
                final(transports).slots(),
                #[trigger] final(expected_transports)@[k1],
            )->Some_0.item != lookup(final(transports).slots(), #[trigger] final(expected_transports)@[k2])->Some_0.item,
        forall|id: TransportId|
            lookup(old(transports).slots(), id) is Some ==> #[trigger] lookup(final(transports).slots(), id)
                == lookup(old(transports).slots(), id),
        count_occupied(final(transports).slots()) == count_occupied(old(transports).slots())
            + final(expected_transports)@.len() - old(expected_transports)@.len(),
        final(expected_transports)@.len() - old(expected_transports)@.len() <= inputs.entries().len(),
        final(transports).slots().len() <= old(transports).slots().len() + final(expected_transports)@.len()
            - old(expected_transports)@.len(),
        forall|i: int|
            0 <= i < final(transports).slots().len() && #[trigger] final(transports).slots()[i].payload is Free ==> i
                < old(transports).slots().len() && final(transports).slots()[i] == old(transports).slots()[i],
        forall|i: int, ty: ItemType|
            0 <= i < old(buildings).slots().len() && old(buildings).slots()[i].payload is Occupied
                ==> #[trigger] inv_taken(
                occupant(old(buildings).slots()[i]).inventory@,
                occupant(final(buildings).slots()[i]).inventory@,
                ty,
                pull_taken(
                    old(buildings).slots(),
                    ty,
                    delivery_total(
                        final(transports).slots(),
                        final(expected_transports)@.skip(old(expected_transports)@.len() as int),
                        ty,
                    ) as int,
                    i,
                    ty,
                ),
            ),
        forall|ty: ItemType|
            inputs@.contains_key(ty) && pull_lack(inputs@, old(this_inventory)@, old(transports).slots(), old(expected_transports)@, ty)
                > 0 && #[trigger] holder_adjacent(
                tiles,
                old(buildings).slots(),
                ty,
                this_pos,
                (this_size[0] as int, this_size[1] as int),
            ) ==> exists|k: int|
                old(expected_transports)@.len() <= k < final(expected_transports)@.len() && lookup(
                    final(transports).slots(),
                    #[trigger] final(expected_transports)@[k],
                )->Some_0.item == ty,
{
    let ghost tsz = (this_size[0] as int, this_size[1] as int);
    let ghost ts0 = transports.slots();
    let ghost ids0 = expected_transports@;
    let ghost bs0 = buildings.slots();
    let ghost inv0 = this_inventory@;
    let ents = inputs.iter();
    proof {
        lemma_entries_of_view(*inputs);
    }
    let mut comings: Vec<usize> = Vec::new();
    let mut k: usize = 0;
    while k < ents.len()
        invariant
            k <= ents@.len(),
            comings@.len() == k,
            ts0 == transports.slots(),
            ids0 == expected_transports@,
            forall|m: int|
                0 <= m < k ==> #[trigger] comings@[m] == (if delivery_total(ts0, ids0, ents@[m].0) <= usize::MAX {
                    delivery_total(ts0, ids0, ents@[m].0)
                } else {
                    usize::MAX as nat
                }),
        decreases ents@.len() - k,
    {
        comings.push(delivery_count(transports, expected_transports, ents[k].0));
        k = k + 1;
    }
    let ghost mut added: Seq<TransportId> = Seq::empty();
    let mut idx: usize = 0;
    while idx < ents.len()
        invariant
            idx <= ents@.len(),
            ents@ == inputs.entries(),
            sorted_entries(ents@),
            forall|i: int| 0 <= i < ents@.len() ==> #[trigger] inputs@[ents@[i].0] == ents@[i].1,
            forall|i: int| 0 <= i < ents@.len() ==> inputs@.contains_key(#[trigger] ents@[i].0),
            comings@.len() == ents@.len(),
            forall|m: int|
                0 <= m < ents@.len() ==> #[trigger] comings@[m] == (if delivery_total(ts0, ids0, ents@[m].0) <= usize::MAX {
                    delivery_total(ts0, ids0, ents@[m].0)
                } else {
                    usize::MAX as nat
                }),
            *this_inventory == *old(this_inventory),
            this_inventory@ == inv0,
            this_inventory.wf(),
            tiles.sampler_ok(),
            this_size[0] <= i32::MAX,
            this_size[1] <= i32::MAX,
            tsz == (this_size[0] as int, this_size[1] as int),
            ts0 == old(transports).slots(),
            ids0 == old(expected_transports)@,
            bs0 == old(buildings).slots(),
            slots_can_insert(ts0),
            ts0.len() + ents@.len() < u32::MAX,
            expected_transports@ == ids0 + added,
            added.len() <= idx,
            transports.slots().len() <= ts0.len() + added.len(),
            forall|i: int|
                0 <= i < transports.slots().len() && #[trigger] transports.slots()[i].payload is Free ==> i
                    < ts0.len() && transports.slots()[i] == ts0[i],
            count_occupied(transports.slots()) == count_occupied(ts0) + added.len(),
            forall|id: TransportId|
                lookup(ts0, id) is Some ==> #[trigger] lookup(transports.slots(), id) == lookup(ts0, id),
            forall|k: int|
                0 <= k < added.len() ==> {
                    let t = lookup(transports.slots(), #[trigger] added[k])->Some_0;
                    &&& lookup(transports.slots(), added[k]) is Some
                    &&& exists|j: int| 0 <= j < idx && ents@[j].0 == t.item
                    &&& inputs@.contains_key(t.item)
                    &&& pull_lack(inputs@, inv0, ts0, ids0, t.item) > 0
                    &&& pulled_from_holder(tiles, bs0, pull_lack(inputs@, inv0, ts0, ids0, t.item), this_pos, tsz, t)
                },
            forall|k1: int, k2: int|
                0 <= k1 < k2 < added.len() ==> lookup(transports.slots(), #[trigger] added[k1])->Some_0.item
                    != lookup(transports.slots(), #[trigger] added[k2])->Some_0.item,
            buildings_ok(buildings.slots()),
            slots_same_but_inventories(bs0, buildings.slots()),
            buildings.free_head() == old(buildings).free_head(),
            transports.free_head() == old(transports).free_head(),
            forall|i: int, ty: ItemType|
                0 <= i < bs0.len() && bs0[i].payload is Occupied ==> #[trigger] inv_taken(
                    occupant(bs0[i]).inventory@,
                    occupant(buildings.slots()[i]).inventory@,
                    ty,
                    pull_taken(bs0, ty, delivery_total(transports.slots(), added, ty) as int, i, ty),
                ),
            forall|m: int|
                0 <= m < idx && pull_lack(inputs@, inv0, ts0, ids0, ents@[m].0) > 0 && #[trigger] holder_adjacent(
                    tiles,
                    bs0,
                    ents@[m].0,
                    this_pos,
                    tsz,
                ) ==> exists|k: int| 0 <= k < added.len() && lookup(transports.slots(), #[trigger] added[k])->Some_0.item == ents@[m].0,
        decreases ents@.len() - idx,
    {
        let (ty, count) = ents[idx];
        let have = this_inventory.get(&ty);
        let coming = comings[idx];
        let this_count = have.saturating_add(coming);
        if count <= this_count {
            proof {
                assert(inputs@[ty] == count);
                assert(pull_lack(inputs@, inv0, ts0, ids0, ty) <= 0);
            }
            idx = idx + 1;
            continue;
        }
        let lack = count - this_count;
        let ghost ts1 = transports.slots();
        let ghost bs1 = buildings.slots();
        let ghost added1 = added;
        proof {
            assert(inputs@[ty] == count);
            assert(lack as int == pull_lack(inputs@, inv0, ts0, ids0, ty));
            // nothing of `ty` has been pulled yet
            assert forall|k: int| 0 <= k < added.len() implies !(#[trigger] lookup(ts1, added[k]) matches Some(t) && t.item == ty) by {
                let t = lookup(ts1, added[k])->Some_0;
                let j = choose|j: int| 0 <= j < idx && ents@[j].0 == t.item;
                assert(item_index(ents@[j].0) < item_index(ents@[idx as int].0));
            }
            assert(!delivers(ts1, added, ty));
            lemma_no_delivery_total(ts1, added, ty);
            assert forall|i: int|
                0 <= i < bs0.len() && bs0[i].payload is Occupied implies map_count(occupant(bs0[i]).inventory@, ty)
                    == map_count(occupant(bs1[i]).inventory@, ty) by {
                assert(inv_taken(
                    occupant(bs0[i]).inventory@,
                    occupant(bs1[i]).inventory@,
                    ty,
                    pull_taken(bs0, ty, delivery_total(ts1, added, ty) as int, i, ty),
                ));
            }
            assert(slots_can_insert(ts1)) by {
                assert forall|i: int| 0 <= i < ts1.len() && ts1[i].payload is Free implies ts1[i].gen < u32::MAX by {
                    assert(ts1[i] == ts0[i]);
                }
            }
        }
        let r = pull_item(ty, lack, tiles, transports, expected_transports, this_pos, this_size, buildings);
        match r {
            None => {
                proof {
                    if holder_adjacent(tiles, bs0, ty, this_pos, tsz) {
                        lemma_holder_adjacent_kept(tiles, bs0, bs1, ty, this_pos, tsz);
                    }
                }
            },
            Some(id) => {
                let ghost t = lookup(transports.slots(), id)->Some_0;
                let ghost ts2 = transports.slots();
                let ghost bs2 = buildings.slots();
                proof {
                    lemma_holder_transfer(tiles, bs0, bs1, ty, lack as int, this_pos, tsz, t);
                    lemma_insert_then_get(ts1, t, id);
                    lemma_insert_len(ts1, t);
                    lemma_len_after_insert_remove(ts1, t, id);
                    // earlier transports keep resolving
                    assert forall|k: int| 0 <= k < added1.len() implies lookup(ts2, #[trigger] added1[k]) == lookup(ts1, added1[k]) by {
                        lemma_insert_keeps_resolved(ts1, t, added1[k]);
                    }
                    assert forall|tid: TransportId| lookup(ts0, tid) is Some implies #[trigger] lookup(ts2, tid) == lookup(ts0, tid) by {
                        assert(lookup(ts1, tid) == lookup(ts0, tid));
                        lemma_insert_keeps_resolved(ts1, t, tid);
                    }
                    added = added1.push(id);
                    assert forall|ty2: ItemType| #[trigger] delivery_total(ts2, added, ty2) == delivery_total(ts1, added1, ty2)
                        + (if ty2 == ty { t.amount as int } else { 0 }) by {
                        lemma_delivery_total_same(ts1, ts2, added1, ty2);
                        assert(added.drop_last() =~= added1);
                    }
                    assert forall|i: int, ty2: ItemType|
                        0 <= i < bs0.len() && bs0[i].payload is Occupied implies #[trigger] inv_taken(
                            occupant(bs0[i]).inventory@,
                            occupant(bs2[i]).inventory@,
                            ty2,
                            pull_taken(bs0, ty2, delivery_total(ts2, added, ty2) as int, i, ty2),
                        ) by {
                        let prev = pull_taken(bs0, ty2, delivery_total(ts1, added1, ty2) as int, i, ty2);
                        assert(inv_taken(occupant(bs0[i]).inventory@, occupant(bs1[i]).inventory@, ty2, prev));
                        assert(inv_taken(
                            occupant(bs1[i]).inventory@,
                            occupant(bs2[i]).inventory@,
                            ty2,
                            pull_taken(bs1, ty, t.amount as int, i, ty2),
                        ));
                        if ty2 == ty {
                            assert(first_holder(bs1, ty, i) == first_holder(bs0, ty, i));
                        }
                        lemma_inv_taken_compose(
                            occupant(bs0[i]).inventory@,
                            occupant(bs1[i]).inventory@,
                            occupant(bs2[i]).inventory@,
                            ty2,
                            prev,
                            pull_taken(bs1, ty, t.amount as int, i, ty2),
                        );
                    }
                    assert forall|k: int| 0 <= k < added.len() implies {
                        let tk = lookup(ts2, #[trigger] added[k])->Some_0;
                        &&& lookup(ts2, added[k]) is Some
                        &&& exists|j: int| 0 <= j < idx + 1 && ents@[j].0 == tk.item
                        &&& inputs@.contains_key(tk.item)
                        &&& pull_lack(inputs@, inv0, ts0, ids0, tk.item) > 0
                        &&& pulled_from_holder(tiles, bs0, pull_lack(inputs@, inv0, ts0, ids0, tk.item), this_pos, tsz, tk)
                    } by {
                        if k < added1.len() {
                            assert(added[k] == added1[k]);
                            let j = choose|j: int| 0 <= j < idx && ents@[j].0 == lookup(ts1, added1[k])->Some_0.item;
                            assert(0 <= j < idx + 1);
                        } else {
                            assert(added[k] == id);
                            assert(ents@[idx as int].0 == t.item);
                        }
                    }
                    assert forall|k1: int, k2: int|
                        0 <= k1 < k2 < added.len() implies lookup(ts2, #[trigger] added[k1])->Some_0.item
                            != lookup(ts2, #[trigger] added[k2])->Some_0.item by {
                        assert(added[k1] == added1[k1]);
                        if k2 < added1.len() {
                            assert(added[k2] == added1[k2]);
                        } else {
                            let tk = lookup(ts1, added1[k1])->Some_0;
                            let j = choose|j: int| 0 <= j < idx && ents@[j].0 == tk.item;
                            assert(item_index(ents@[j].0) < item_index(ents@[idx as int].0));
                        }
                    }
                    assert forall|i: int|
                        0 <= i < ts2.len() && #[trigger] ts2[i].payload is Free implies i < ts0.len() && ts2[i] == ts0[i] by {
                        if i < ts1.len() {
                            assert(ts1[i].payload is Free);
                        }
                    }
                    assert forall|m: int|
                        0 <= m < idx + 1 && pull_lack(inputs@, inv0, ts0, ids0, ents@[m].0) > 0 && #[trigger] holder_adjacent(
                            tiles,
                            bs0,
                            ents@[m].0,
                            this_pos,
                            tsz,
                        ) implies exists|k: int| 0 <= k < added.len() && lookup(ts2, #[trigger] added[k])->Some_0.item == ents@[m].0 by {
                        if m < idx {
                            let k = choose|k: int| 0 <= k < added1.len() && lookup(ts1, #[trigger] added1[k])->Some_0.item == ents@[m].0;
                            assert(added[k] == added1[k]);
                            assert(lookup(ts2, added1[k]) == lookup(ts1, added1[k]));
                        } else {
                            assert(added[added1.len() as int] == id);
                        }
                    }
                }
            },
        }
        idx = idx + 1;
    }
    proof {
        assert(expected_transports@.take(ids0.len() as int) =~= ids0);
        assert(expected_transports@.skip(ids0.len() as int) =~= added);
        assert forall|k: int| ids0.len() <= k < expected_transports@.len() implies expected_transports@[k] == added[k - ids0.len()] by {
        }
        assert forall|ty: ItemType|
            inputs@.contains_key(ty) && pull_lack(inputs@, inv0, ts0, ids0, ty) > 0 && #[trigger] holder_adjacent(
                tiles,
                bs0,
                ty,
                this_pos,
                tsz,
            ) implies exists|k: int|
                ids0.len() <= k < expected_transports@.len() && lookup(transports.slots(), #[trigger] expected_transports@[k])->Some_0.item
                    == ty by {
            let m = choose|m: int| 0 <= m < ents@.len() && ents@[m].0 == ty;
            assert(holder_adjacent(tiles, bs0, ents@[m].0, this_pos, tsz));
            let k = choose|k: int| 0 <= k < added.len() && lookup(transports.slots(), #[trigger] added[k])->Some_0.item == ents@[m].0;
            assert(expected_transports@[ids0.len() + k] == added[k]);
        }
    }
}

/// The total amount on its way through the transports that `ids` refer to (ids that no
/// longer resolve count for nothing).
pub open spec fn delivery_sum(s: Seq<EntityEntry<Transport>>, ids: Seq<TransportId>) -> nat
    decreases ids.len(),
{
    if ids.len() == 0 {
        0
    } else {
        delivery_sum(s, ids.drop_last()) + match lookup(s, ids.last()) {
            Some(t) => t.amount as nat,
            None => 0nat,
        }
    }
}

/// A storage building with room for more than it holds and has coming.
pub open spec fn storage_with_room(b: Building, ts: Seq<EntityEntry<Transport>>) -> bool {
    &&& spec_is_storage(b.type_)
    &&& spec_capacity(b.type_) > b.inventory.total() + delivery_sum(ts, b.expected_transports@)
}

/// Whether the building has room for more than it holds and has coming.
fn has_room(b: &Building, transports: &EntitySet<Transport>) -> (r: bool)
    requires
        b.inventory.wf(),
    ensures
        r == (spec_capacity(b.type_) > b.inventory.total() + delivery_sum(transports.slots(), b.expected_transports@)),
{
    let ents = b.inventory.iter();
    proof {
        lemma_total_is_sum(b.inventory.spec_countable());
    }
    let mut sum: usize = 0;
    let mut i: usize = 0;
    while i < ents.len()
        invariant
            i <= ents@.len(),
            sum == (if entries_sum(ents@.take(i as int)) <= usize::MAX { entries_sum(ents@.take(i as int)) } else { usize::MAX as nat }),
        decreases ents@.len() - i,
    {
        proof {
            assert(ents@.take(i + 1).drop_last() =~= ents@.take(i as int));
        }
        sum = sum.saturating_add(ents[i].1);
        i = i + 1;
    }
    proof {
        assert(ents@.take(i as int) =~= ents@);
    }
    let ids = &b.expected_transports;
    let mut j: usize = 0;
    while j < ids.len()
        invariant
            j <= ids@.len(),
            sum == (if entries_sum(ents@) + delivery_sum(transports.slots(), ids@.take(j as int)) <= usize::MAX {
                entries_sum(ents@) + delivery_sum(transports.slots(), ids@.take(j as int))
            } else {
                usize::MAX as nat
            }),
        decreases ids@.len() - j,
    {
        proof {
            assert(ids@.take(j + 1).drop_last() =~= ids@.take(j as int));
        }
        match transports.get(ids[j]) {
            Some(t) => {
                sum = sum.saturating_add(t.amount);
            },
            None => {},
        }
        j = j + 1;
    }
    proof {
        assert(ids@.take(j as int) =~= ids@);
    }
    b.type_.capacity() > sum
}

/// The entry at `k` of `ents` is the first, in item order, with a positive count of an item
/// that `is_output` accepts.
pub open spec fn first_output<F: Fn(ItemType) -> bool>(ents: Seq<(ItemType, usize)>, is_output: F, k: int) -> bool {
    &&& 0 <= k < ents.len()
    &&& ents[k].1 > 0
    &&& call_ensures(is_output, (ents[k].0,), true)
    &&& forall|j: int| 0 <= j < k ==> ents[j].1 == 0 || call_ensures(is_output, (#[trigger] ents[j].0,), false)
}

/// No entry of `ents` has a positive count of an item that `is_output` accepts.
pub open spec fn no_output<F: Fn(ItemType) -> bool>(ents: Seq<(ItemType, usize)>, is_output: F) -> bool {
    forall|j: int| 0 <= j < ents.len() ==> ents[j].1 == 0 || call_ensures(is_output, (#[trigger] ents[j].0,), false)
}

/// The first entry of the inventory, in item order, with a positive count of an item that
/// `is_output` accepts.
fn find_output<F: Fn(ItemType) -> bool>(inventory: &Inventory, is_output: &F) -> (r: Option<(ItemType, usize)>)
    requires
        inventory.wf(),
        forall|t: ItemType| call_requires(*is_output, (t,)),
    ensures
        match r {
            Some((t, c)) => exists|k: int|
                first_output(inventory.spec_countable().entries(), *is_output, k)
                    && #[trigger] inventory.spec_countable().entries()[k] == (t, c),
            None => no_output(inventory.spec_countable().entries(), *is_output),
        },
{
    let ents = inventory.iter();
    let mut i: usize = 0;
    while i < ents.len()
        invariant
            i <= ents@.len(),
            ents@ == inventory.spec_countable().entries(),
            forall|t: ItemType| call_requires(*is_output, (t,)),
            forall|j: int| 0 <= j < i ==> ents@[j].1 == 0 || call_ensures(*is_output, (#[trigger] ents@[j].0,), false),
        decreases ents@.len() - i,
    {
        let (t, c) = ents[i];
        if 0 < c && is_output(t) {
            proof {
                assert(first_output(ents@, *is_output, i as int));
            }
            return Some((t, c));
        }
        i = i + 1;
    }
    None
}

/// The path of a push from the rectangle at `this_pos` to the building `dest`: it starts in
/// the rectangle, ends on the building's top left tile and keeps to conveyors on the way.
pub open spec fn push_path_ok<S: TileSampler>(
    tiles: &S,
    this_pos: Pos,
    this_size: (int, int),
    dest: Building,
    path: Seq<Pos>,
) -> bool {
    &&& conveyor_path_ok(tiles, this_pos, this_size, dest.pos, spec_size(dest.type_), path)
    &&& path[0] == dest.pos
}

/// Searches a conveyor path from the rectangle at `this_pos` to the building `dest`, ending on
/// its top left tile (`to_corner`) or anywhere on it.
fn search_to_building<S: TileSampler>(
    tiles: &S,
    starts: &Vec<Pos>,
    nb: &Vec<Pos>,
    this_pos: Pos,
    this_size: [usize; 2],
    dest: &Building,
    to_corner: bool,
) -> (r: Option<Vec<Pos>>)
    requires
        tiles.sampler_ok(),
        pos_in_range(dest.pos),
        forall|p: Pos| starts@.contains(p) <==> rect_contains(this_pos, (this_size[0] as int, this_size[1] as int), p),
        forall|q: Pos|
            nb@.contains(q) <==> exists|k: int, d: Direction| 0 <= k < starts@.len() && #[trigger] step_to(starts@[k], d, q),
    ensures
        r matches Some(path) ==> {
            &&& conveyor_path_ok(tiles, this_pos, (this_size[0] as int, this_size[1] as int), dest.pos, spec_size(dest.type_), path@)
            &&& to_corner ==> path@[0] == dest.pos
            &&& !to_corner ==> rect_contains(dest.pos, spec_size(dest.type_), path@[0])
        },
{
    let dpos = dest.pos;
    let dsize = dest.type_.size();
    let goal = |p: Pos| -> (r: bool)
        ensures
            r == (if to_corner { p == dpos } else { rect_contains(dpos, (dsize[0] as int, dsize[1] as int), p) }),
        {
            if to_corner {
                pos_eq(p, dpos)
            } else {
                in_rect(dpos, dsize, p)
            }
        };
    let pass = |d: Option<Direction>, p: Pos| -> (r: bool)
        requires
            tiles.sampler_ok(),
        ensures
            r == (rect_contains(dpos, (dsize[0] as int, dsize[1] as int), p)
                || spec_push_pull_passable(tiles, d, nb@.contains(p), p)),
        {
            if in_rect(dpos, dsize, p) {
                true
            } else {
                push_pull_passable(tiles, d, nb, p)
            }
        };
    let expand = |to: Direction, c: CPos, from: Option<Direction>| -> (r: LevelTarget)
        requires
            tiles.sampler_ok(),
        { push_pull_should_expand(tiles, to, c, from) };
    let r = find_multipath_should_expand(starts, goal, pass, expand);
    proof {
        if let Some(ref path) = r {
            lemma_found_conveyor_path(
                tiles,
                starts@,
                nb@,
                path@,
                goal,
                pass,
                this_pos,
                (this_size[0] as int, this_size[1] as int),
                dpos,
                spec_size(dest.type_),
            );
        }
    }
    r
}

/// One for `item` itself, nothing for any other type.
pub open spec fn one_of(item: ItemType, ty: ItemType) -> int {
    if ty == item {
        1
    } else {
        0
    }
}

/// Two buildings agree on everything but the transports they expect.
pub open spec fn same_but_expected(a: Building, b: Building) -> bool {
    &&& a.pos == b.pos
    &&& a.type_ == b.type_
    &&& a.task == b.task
    &&& a.inventory == b.inventory
    &&& a.crews == b.crews
    &&& a.recipe == b.recipe
    &&& a.direction == b.direction
    &&& a.energy == b.energy
}

/// The building in slot `j` has room for more than it holds and has coming.
pub open spec fn has_room_at(bs: Seq<EntityEntry<Building>>, j: int, ts: Seq<EntityEntry<Transport>>) -> bool {
    let b = occupant(bs[j]);
    spec_capacity(b.type_) > b.inventory.total() + delivery_sum(ts, b.expected_transports@)
}

/// One item of `item` was sent from the rectangle at `this_pos` to the building in slot `j`:
/// a transport of it set off along a conveyor path that ends on the building's top left tile
/// (`to_corner`) or anywhere on it, the building expects the transport, and the item left the
/// sender's inventory. Nothing else changed.
pub open spec fn sent_to<S: TileSampler>(
    tiles: &S,
    ts0: Seq<EntityEntry<Transport>>,
    ts1: Seq<EntityEntry<Transport>>,
    bs0: Seq<EntityEntry<Building>>,
    bs1: Seq<EntityEntry<Building>>,
    inv0: Map<ItemType, usize>,
    inv1: Map<ItemType, usize>,
    this_pos: Pos,
    this_size: (int, int),
    j: int,
    item: ItemType,
    to_corner: bool,
) -> bool {
    exists|t: Transport, id: TransportId|
        #![trigger slots_after_insert(ts0, t), id.index()]
        {
            let dest = occupant(bs0[j]);
            &&& id.index() == insert_index(ts0)
            &&& id.generation() == insert_gen(ts0)
            &&& ts1 == slots_after_insert(ts0, t)
            &&& t.src == this_pos
            &&& t.dest == dest.pos
            &&& t.item == item
            &&& t.amount == 1
            &&& conveyor_path_ok(tiles, this_pos, this_size, dest.pos, spec_size(dest.type_), t.path@)
            &&& to_corner ==> t.path@[0] == dest.pos
            &&& !to_corner ==> rect_contains(dest.pos, spec_size(dest.type_), t.path@[0])
            &&& bs1.len() == bs0.len()
            &&& forall|i: int| 0 <= i < bs0.len() && i != j ==> #[trigger] bs1[i] == bs0[i]
            &&& bs1[j].gen == bs0[j].gen
            &&& bs1[j].payload is Occupied
            &&& same_but_expected(dest, occupant(bs1[j]))
            &&& occupant(bs1[j]).expected_transports@ == dest.expected_transports@.push(id)
            &&& forall|ty: ItemType| #[trigger] inv_taken(inv0, inv1, ty, one_of(item, ty))
        }
}

/// Sets off one `item` along `path` from `this_pos` to the building in slot `j`, which expects
/// it, and takes the item out of `this_inventory`.
fn send_along(
    transports: &mut EntitySet<Transport>,
    this_pos: Pos,
    this_inventory: &mut Inventory,
    item: ItemType,
    count: usize,
    j: usize,
    path: Vec<Pos>,
    buildings: &mut EntitySet<Building>,
) -> (r: TransportId)
    requires
        old(transports).can_insert(),
        old(this_inventory).wf(),
        count > 0,
        count == map_count(old(this_inventory)@, item),
        j < old(buildings).slots().len(),
        old(buildings).slots()[j as int].payload is Occupied,
    ensures
        final(this_inventory).wf(),
        final(buildings).free_head() == old(buildings).free_head(),
        final(transports).free_head() == old(transports).free_head(),
        r.index() == insert_index(old(transports).slots()),
        r.generation() == insert_gen(old(transports).slots()),
        ({
            let t = Transport { src: this_pos, dest: occupant(old(buildings).slots()[j as int]).pos, item, amount: 1, path };
            final(transports).slots() == slots_after_insert(old(transports).slots(), t)
        }),
        final(buildings).slots().len() == old(buildings).slots().len(),
        forall|i: int| 0 <= i < old(buildings).slots().len() && i != j ==> #[trigger] final(buildings).slots()[i] == old(buildings).slots()[i],
        final(buildings).slots()[j as int].gen == old(buildings).slots()[j as int].gen,
        final(buildings).slots()[j as int].payload is Occupied,
        same_but_expected(occupant(old(buildings).slots()[j as int]), occupant(final(buildings).slots()[j as int])),
        occupant(final(buildings).slots()[j as int]).expected_transports@
            == occupant(old(buildings).slots()[j as int]).expected_transports@.push(r),
        forall|ty: ItemType| #[trigger] inv_taken(old(this_inventory)@, final(this_inventory)@, ty, one_of(item, ty)),
{
    let dest_pos = buildings.get_at(j).unwrap().pos;
    let id = transports.insert(Transport { src: this_pos, dest: dest_pos, item, amount: 1, path });
    let dest = buildings.get_mut_at(j).unwrap();
    dest.expected_transports.push(id);
    if count <= 1 {
        this_inventory.remove(&item);
    } else {
        let c = this_inventory.get_mut(&item).unwrap();
        *c = *c - 1;
    }
    id
}

/// Pushes one output away to a storage: the first storage building, in slot order, that has
/// room for more than it holds and has coming and that a conveyor path leads to from the
/// rectangle at `this_pos` receives one item of the first type, in item order, that
/// `is_output` accepts and `this_inventory` has. Nothing happens without such a storage or
/// such an item.
///
/// `buildings` holds the buildings to push to; the pushing site is not among them. Which
/// storage a path is found to is up to the search.
pub fn push_outputs<S: TileSampler, F: Fn(ItemType) -> bool>(
    tiles: &S,
    transports: &mut EntitySet<Transport>,
    this_pos: Pos,
    this_size: [usize; 2],
    this_inventory: &mut Inventory,
    buildings: &mut EntitySet<Building>,
    is_output: &F,
)
    requires
        tiles.sampler_ok(),
        old(transports).can_insert(),
        old(this_inventory).wf(),
        buildings_ok(old(buildings).slots()),
        i32::MIN < this_pos[0],
        i32::MIN < this_pos[1],
        this_size[0] <= i32::MAX,
        this_size[1] <= i32::MAX,
        this_pos[0] + this_size[0] < i32::MAX,
        this_pos[1] + this_size[1] < i32::MAX,
        forall|t: ItemType| call_requires(*is_output, (t,)),
    ensures
        final(this_inventory).wf(),
        buildings_ok(final(buildings).slots()),
        final(buildings).free_head() == old(buildings).free_head(),
        final(transports).free_head() == old(transports).free_head(),
        ({
            &&& final(transports).slots() == old(transports).slots()
            &&& final(buildings).slots() == old(buildings).slots()
            &&& *final(this_inventory) == *old(this_inventory)
        }) || exists|j: int, k: int|
            #![trigger first_output(old(this_inventory).spec_countable().entries(), *is_output, k), old(buildings).slots()[j]]
            {
                &&& first_output(old(this_inventory).spec_countable().entries(), *is_output, k)
                &&& 0 <= j < old(buildings).slots().len()
                &&& old(buildings).slots()[j].payload is Occupied
                &&& storage_with_room(occupant(old(buildings).slots()[j]), old(transports).slots())
                &&& sent_to(
                    tiles,
                    old(transports).slots(),
                    final(transports).slots(),
                    old(buildings).slots(),
                    final(buildings).slots(),
                    old(this_inventory)@,
                    final(this_inventory)@,
                    this_pos,
                    (this_size[0] as int, this_size[1] as int),
                    j,
                    old(this_inventory).spec_countable().entries()[k].0,
                    true,
                )
            },
{
    let ghost tsz = (this_size[0] as int, this_size[1] as int);
    let starts = rect_iter(this_pos, this_size);
    proof {
        assert forall|k: int| 0 <= k < starts@.len() implies i32::MIN < (#[trigger] starts@[k])[0] < i32::MAX
            && i32::MIN < starts@[k][1] < i32::MAX by {
            assert(starts@.contains(starts@[k]));
        }
    }
    let nb = neighbors_set(&starts);
    let n = buildings.num_slots();
    let mut found: Option<(usize, Vec<Pos>)> = None;
    let mut j: usize = 0;
    while j < n
        invariant
            n == buildings.slots().len(),
            j <= n,
            buildings_ok(buildings.slots()),
            tiles.sampler_ok(),
            tsz == (this_size[0] as int, this_size[1] as int),
            forall|p: Pos| starts@.contains(p) <==> rect_contains(this_pos, tsz, p),
            forall|q: Pos|
                nb@.contains(q) <==> exists|k: int, d: Direction| 0 <= k < starts@.len() && #[trigger] step_to(starts@[k], d, q),
            found matches Some((fj, path)) ==> {
                &&& fj < n
                &&& buildings.slots()[fj as int].payload is Occupied
                &&& storage_with_room(occupant(buildings.slots()[fj as int]), transports.slots())
                &&& conveyor_path_ok(tiles, this_pos, tsz, occupant(buildings.slots()[fj as int]).pos,
                    spec_size(occupant(buildings.slots()[fj as int]).type_), path@)
                &&& path@[0] == occupant(buildings.slots()[fj as int]).pos
            },
        decreases n - j,
    {
        if found.is_some() {
            break;
        }
        match buildings.get_at(j) {
            Some(b) => {
                proof {
                    assert(buildings.slots()[j as int].payload is Occupied);
                }
                if b.type_.is_storage() && has_room(b, transports) {
                    match search_to_building(tiles, &starts, &nb, this_pos, this_size, b, true) {
                        Some(path) => {
                            found = Some((j, path));
                        },
                        None => {},
                    }
                }
            },
            None => {},
        }
        j = j + 1;
    }
    let (dj, path) = match found {
        Some(x) => x,
        None => {
            return;
        },
    };
    let (item, count) = match find_output(this_inventory, is_output) {
        Some(x) => x,
        None => {
            return;
        },
    };
    let ghost ts0 = transports.slots();
    let ghost bs0 = buildings.slots();
    let ghost inv0 = this_inventory@;
    let ghost pv = path@;
    proof {
        let k = choose|k: int| first_output(this_inventory.spec_countable().entries(), *is_output, k)
            && #[trigger] this_inventory.spec_countable().entries()[k] == (item, count);
        lemma_inventory_parts(*this_inventory);
        lemma_entries_of_view(this_inventory.spec_countable());
        assert(this_inventory@[item] == count);
    }
    let id = send_along(transports, this_pos, this_inventory, item, count, dj, path, buildings);
    proof {
        let t = Transport { src: this_pos, dest: occupant(bs0[dj as int]).pos, item, amount: 1, path };
        let k = choose|k: int| first_output(old(this_inventory).spec_countable().entries(), *is_output, k)
            && #[trigger] old(this_inventory).spec_countable().entries()[k] == (item, count);
        assert(t.path@ == pv);
        assert(sent_to(tiles, ts0, transports.slots(), bs0, buildings.slots(), inv0, this_inventory@, this_pos, tsz, dj as int, item, true)) by {
            assert(transports.slots() == slots_after_insert(ts0, t));
            assert(id.index() == insert_index(ts0));
        }
        assert(old(buildings).slots()[dj as int] == bs0[dj as int]);
        assert(buildings_ok(buildings.slots())) by {
            assert forall|i: int| 0 <= i < buildings.slots().len() && #[trigger] buildings.slots()[i].payload is Occupied
                implies occupant(buildings.slots()[i]).inventory.wf() && pos_in_range(occupant(buildings.slots()[i]).pos) by {
                if i != dj {
                    assert(buildings.slots()[i] == bs0[i]);
                }
            }
        }
    }
}

/// The errors of `send_item` tell its failures apart.
proof fn lemma_send_errors_differ()
    ensures
        "Destination did not have a building"@ != "Destination capacity is full"@,
        "Destination did not have a building"@ != "Could not find a path from source to dest"@,
        "Destination did not have a building"@ != "The designated item was not found"@,
        "Destination capacity is full"@ != "Could not find a path from source to dest"@,
        "Destination capacity is full"@ != "The designated item was not found"@,
{
    reveal_strlit("Destination did not have a building");
    reveal_strlit("Destination capacity is full");
    reveal_strlit("Could not find a path from source to dest");
    reveal_strlit("The designated item was not found");
    assert("Destination did not have a building"@.len() == 35);
    assert("Destination capacity is full"@.len() == 28);
    assert("Could not find a path from source to dest"@.len() == 41);
    assert("The designated item was not found"@.len() == 33);
}

/// Slot `j` holds the first building, in slot order, that covers tile `p`.
pub open spec fn first_at(bs: Seq<EntityEntry<Building>>, p: Pos, j: int) -> bool {
    &&& 0 <= j < bs.len()
    &&& bs[j].payload is Occupied
    &&& rect_contains(occupant(bs[j]).pos, spec_size(occupant(bs[j]).type_), p)
    &&& forall|i: int|
        0 <= i < j ==> !(#[trigger] bs[i].payload is Occupied && rect_contains(
            occupant(bs[i]).pos,
            spec_size(occupant(bs[i]).type_),
            p,
        ))
}

/// No building of the slots covers tile `p`.
pub open spec fn none_at(bs: Seq<EntityEntry<Building>>, p: Pos) -> bool {
    forall|i: int|
        0 <= i < bs.len() ==> !(#[trigger] bs[i].payload is Occupied && rect_contains(
            occupant(bs[i]).pos,
            spec_size(occupant(bs[i]).type_),
            p,
        ))
}

/// Sends one item that `is_output` accepts from the site at `src_pos` to the building covering
/// `dest_pos` over the conveyors: the first such building, in slot order, must have room for
/// more than it holds and has coming, a conveyor path must lead to it, and the site must have
/// an item that `is_output` accepts (the first in item order is sent). Each failing condition
/// has its error, in that order, and then nothing changes.
///
/// `buildings` holds the buildings to send to; the sending site is not among them.
pub fn send_item<S: TileSampler, F: Fn(ItemType) -> bool>(
    tiles: &S,
    transports: &mut EntitySet<Transport>,
    src_pos: Pos,
    src_size: [usize; 2],
    src_inventory: &mut Inventory,
    dest_pos: Pos,
    buildings: &mut EntitySet<Building>,
    is_output: &F,
) -> (r: Result<(), String>)
    requires
        tiles.sampler_ok(),
        old(transports).can_insert(),
        old(src_inventory).wf(),
        buildings_ok(old(buildings).slots()),
        i32::MIN < src_pos[0],
        i32::MIN < src_pos[1],
        src_size[0] <= i32::MAX,
        src_size[1] <= i32::MAX,
        src_pos[0] + src_size[0] < i32::MAX,
        src_pos[1] + src_size[1] < i32::MAX,
        forall|t: ItemType| call_requires(*is_output, (t,)),
    ensures
        final(src_inventory).wf(),
        buildings_ok(final(buildings).slots()),
        final(buildings).free_head() == old(buildings).free_head(),
        final(transports).free_head() == old(transports).free_head(),
        r is Err ==> {
            &&& final(transports).slots() == old(transports).slots()
            &&& final(buildings).slots() == old(buildings).slots()
            &&& *final(src_inventory) == *old(src_inventory)
        },
        none_at(old(buildings).slots(), dest_pos) ==> (r matches Err(e) && e@
            == "Destination did not have a building"@),
        forall|j: int|
            #[trigger] first_at(old(buildings).slots(), dest_pos, j) && !has_room_at(old(buildings).slots(), j, old(transports).slots())
                ==> (r matches Err(e) && e@ == "Destination capacity is full"@),
        (r matches Err(e) && (e@ == "Could not find a path from source to dest"@ || e@
            == "The designated item was not found"@)) ==> exists|j: int|
            #[trigger] first_at(old(buildings).slots(), dest_pos, j) && has_room_at(old(buildings).slots(), j, old(transports).slots()),
        r is Ok ==> exists|j: int, k: int|
            #![trigger first_output(old(src_inventory).spec_countable().entries(), *is_output, k), old(buildings).slots()[j]]
            {
                &&& first_at(old(buildings).slots(), dest_pos, j)
                &&& has_room_at(old(buildings).slots(), j, old(transports).slots())
                &&& first_output(old(src_inventory).spec_countable().entries(), *is_output, k)
                &&& sent_to(
                    tiles,
                    old(transports).slots(),
                    final(transports).slots(),
                    old(buildings).slots(),
                    final(buildings).slots(),
                    old(src_inventory)@,
                    final(src_inventory)@,
                    src_pos,
                    (src_size[0] as int, src_size[1] as int),
                    j,
                    old(src_inventory).spec_countable().entries()[k].0,
                    false,
                )
            },
{
    let ghost ssz = (src_size[0] as int, src_size[1] as int);
    let ghost bs0 = buildings.slots();
    let ghost ts0 = transports.slots();
    let n = buildings.num_slots();
    let mut dj: usize = 0;
    let mut hit = false;
    while dj < n && !hit
        invariant
            n == buildings.slots().len(),
            dj <= n,
            bs0 == buildings.slots(),
            buildings_ok(buildings.slots()),
            forall|i: int|
                0 <= i < dj ==> !(#[trigger] bs0[i].payload is Occupied && rect_contains(
                    occupant(bs0[i]).pos,
                    spec_size(occupant(bs0[i]).type_),
                    dest_pos,
                )),
            hit ==> dj < n && first_at(bs0, dest_pos, dj as int),
        decreases n - dj + (if hit { 0int } else { 1int }),
    {
        let covers = match buildings.get_at(dj) {
            Some(b) => {
                proof {
                    assert(bs0[dj as int].payload is Occupied);
                }
                b.intersects(dest_pos)
            },
            None => false,
        };
        if covers {
            hit = true;
        } else {
            dj = dj + 1;
        }
    }
    proof {
        lemma_send_errors_differ();
    }
    if !hit {
        proof {
            assert forall|j: int| !#[trigger] first_at(bs0, dest_pos, j) by {
                if first_at(bs0, dest_pos, j) {
                    assert(!(bs0[j].payload is Occupied && rect_contains(occupant(bs0[j]).pos, spec_size(occupant(bs0[j]).type_), dest_pos)));
                }
            }
        }
        return Err(String::from_str("Destination did not have a building"));
    }
    proof {
        assert forall|j: int| #[trigger] first_at(bs0, dest_pos, j) implies j == dj by {
            if j < dj {
                assert(!(bs0[j].payload is Occupied && rect_contains(occupant(bs0[j]).pos, spec_size(occupant(bs0[j]).type_), dest_pos)));
            }
            if j > dj {
                assert(!(bs0[dj as int].payload is Occupied && rect_contains(occupant(bs0[dj as int]).pos, spec_size(occupant(bs0[dj as int]).type_), dest_pos)));
            }
        }
    }
    let dest = buildings.get_at(dj).unwrap();
    if !has_room(dest, transports) {
        proof {
            assert(!none_at(bs0, dest_pos)) by {
                assert(!!(bs0[dj as int].payload is Occupied && rect_contains(occupant(bs0[dj as int]).pos, spec_size(occupant(bs0[dj as int]).type_), dest_pos)));
            }
        }
        return Err(String::from_str("Destination capacity is full"));
    }
    proof {
        assert(has_room_at(bs0, dj as int, ts0));
        assert(!none_at(bs0, dest_pos)) by {
            assert(!!(bs0[dj as int].payload is Occupied && rect_contains(occupant(bs0[dj as int]).pos, spec_size(occupant(bs0[dj as int]).type_), dest_pos)));
        }
    }
    let starts = rect_iter(src_pos, src_size);
    proof {
        assert forall|k: int| 0 <= k < starts@.len() implies i32::MIN < (#[trigger] starts@[k])[0] < i32::MAX
            && i32::MIN < starts@[k][1] < i32::MAX by {
            assert(starts@.contains(starts@[k]));
        }
    }
    let nb = neighbors_set(&starts);
    let path = match search_to_building(tiles, &starts, &nb, src_pos, src_size, dest, false) {
        Some(p) => p,
        None => {
            return Err(String::from_str("Could not find a path from source to dest"));
        },
    };
    let (item, count) = match find_output(src_inventory, is_output) {
        Some(x) => x,
        None => {
            return Err(String::from_str("The designated item was not found"));
        },
    };
    let ghost inv0 = src_inventory@;
    let ghost pv = path@;
    proof {
        lemma_inventory_parts(*src_inventory);
        lemma_entries_of_view(src_inventory.spec_countable());
        let k = choose|k: int| first_output(src_inventory.spec_countable().entries(), *is_output, k)
            && #[trigger] src_inventory.spec_countable().entries()[k] == (item, count);
        assert(src_inventory@[item] == count);
    }
    let id = send_along(transports, src_pos, src_inventory, item, count, dj, path, buildings);
    proof {
        let t = Transport { src: src_pos, dest: occupant(bs0[dj as int]).pos, item, amount: 1, path };
        let k = choose|k: int| first_output(old(src_inventory).spec_countable().entries(), *is_output, k)
            && #[trigger] old(src_inventory).spec_countable().entries()[k] == (item, count);
        assert(t.path@ == pv);
        assert(sent_to(tiles, ts0, transports.slots(), bs0, buildings.slots(), inv0, src_inventory@, src_pos, ssz, dj as int, item, false)) by {
            assert(transports.slots() == slots_after_insert(ts0, t));
            assert(id.index() == insert_index(ts0));
        }
        assert(buildings_ok(buildings.slots())) by {
            assert forall|i: int| 0 <= i < buildings.slots().len() && #[trigger] buildings.slots()[i].payload is Occupied
                implies occupant(buildings.slots()[i]).inventory.wf() && pos_in_range(occupant(buildings.slots()[i]).pos) by {
                if i != dj {
                    assert(buildings.slots()[i] == bs0[i]);
                }
            }
        }
        assert(first_at(bs0, dest_pos, dj as int));
    }
    Ok(())
}

} // verus!
