//! Colony-wide tasks: excavators take on excavations, and finished tasks are cleared.
use vstd::prelude::*;

use crate::building::Building;
use crate::building_tick::{float_bits_le_zero, float_le_zero};
use crate::crew::{find_building_at, GlobalTaskId};
use crate::direction::Direction;
use crate::entity::{retained_slot, EntityEntry, EntitySet, EntryPayload};
use crate::game::{move_passable, occupied_tiles, AsteroidColoniesGame};
use crate::push_pull::{buildings_ok, occupant};
use crate::task::{choose_direction, spec_choose_direction, BuildingTask, FloatBits, GlobalTask, MOVE_TIME_BITS};
use crate::tile::{chunk_pos_of, lemma_write_then_read, lookup_chunk, Chunk, Tile, TileState, Tiles};
use crate::transport::{find_path, pos_eq, step_to, Transport};
use crate::Pos;

verus! {

/// A tile an excavator may pass on its way to excavate `goal`: an excavated, powered tile that
/// no building covers, or the goal itself.
pub open spec fn excavate_passable(tiles: Tiles, bs: Seq<EntityEntry<Building>>, goal: Pos, p: Pos) -> bool {
    move_passable(tiles, bs, p) || p == goal
}

/// A path for an excavator from `start` to `goal`, goal first: at least two tiles, every one
/// but the start passable and one step from the next.
pub open spec fn excavate_path_ok(
    tiles: Tiles,
    bs: Seq<EntityEntry<Building>>,
    start: Pos,
    goal: Pos,
    path: Seq<Pos>,
) -> bool {
    &&& path.len() >= 2
    &&& path[0] == goal
    &&& path.last() == start
    &&& forall|k: int|
        0 <= k < path.len() - 1 ==> excavate_passable(tiles, bs, goal, #[trigger] path[k]) && exists|d: Direction|
            #[trigger] step_to(path[k + 1], d, path[k])
}

fn excavate_path(tiles: &Tiles, buildings: &EntitySet<Building>, start: Pos, goal: Pos) -> (r: Option<Vec<Pos>>)
    requires
        tiles.wf(),
        buildings_ok(buildings.slots()),
    ensures
        r matches Some(path) ==> excavate_path_ok(*tiles, buildings.slots(), start, goal, path@),
{
    let pass = |p: Pos| -> (r: bool)
        requires
            tiles.wf(),
            buildings_ok(buildings.slots()),
        ensures
            r == excavate_passable(*tiles, buildings.slots(), goal, p),
        {
            let t = tiles.index(p);
            find_building_at(buildings, p).is_none() && matches!(t.state, TileState::Empty) && t.power_grid
                || pos_eq(p, goal)
        };
    let r = find_path(start, goal, pass);
    proof {
        if let Some(ref path) = r {
            assert forall|k: int| 0 <= k < path@.len() - 1 implies excavate_passable(
                *tiles,
                buildings.slots(),
                goal,
                #[trigger] path@[k],
            ) && exists|d: Direction| #[trigger] step_to(path@[k + 1], d, path@[k]) by {
                assert(call_ensures(pass, (path@[k],), true));
            }
        }
    }
    r
}

/// `b1` is `b0` with only its task and direction changed.
pub open spec fn same_but_task(b0: Building, b1: Building) -> bool {
    b1 == Building { task: b1.task, direction: b1.direction, ..b0 }
}

impl AsteroidColoniesGame {
    /// An idle excavator takes on an excavation of the colony: when a path over excavated,
    /// powered tiles that no other building covers leads to the tile, it starts excavating
    /// towards the tile if it is next to it, and otherwise starts moving along the path (with
    /// the goal left off) to excavate from its end. Cleanups are not for excavators.
    ///
    /// `buildings` holds the other buildings.
    pub fn process_excavate_global_task(
        building: &mut Building,
        buildings: &EntitySet<Building>,
        tiles: &Tiles,
        gt_id: GlobalTaskId,
        gt: &GlobalTask,
    )
        requires
            tiles.wf(),
            buildings_ok(buildings.slots()),
        ensures
            same_but_task(*old(building), *final(building)),
            match *gt {
                GlobalTask::Cleanup(_) => *final(building) == *old(building),
                GlobalTask::Excavate(_, goal) => {
                    ||| *final(building) == *old(building)
                    ||| exists|d: Direction|
                        #[trigger] spec_choose_direction(old(building).pos, goal) == Some(d) && final(building).task
                            == BuildingTask::Excavate(d, gt_id) && final(building).direction == Some(d)
                    ||| final(building).direction == old(building).direction && (final(building).task matches BuildingTask::MoveToExcavate {
                        t,
                        path,
                        dir,
                        target,
                    } && {
                        &&& t == FloatBits(MOVE_TIME_BITS)
                        &&& target == gt_id
                        &&& path@.len() >= 2
                        &&& excavate_path_ok(*tiles, buildings.slots(), old(building).pos, goal, seq![goal] + path@)
                        &&& spec_choose_direction(path@[0], goal) == Some(dir)
                    })
                },
            },
    {
        let goal = match *gt {
            GlobalTask::Excavate(_, p) => p,
            GlobalTask::Cleanup(_) => {
                return;
            },
        };
        let path = match excavate_path(tiles, buildings, building.pos, goal) {
            Some(p) => p,
            None => {
                return;
            },
        };
        if path.len() <= 2 {
            match choose_direction(&building.pos, &goal) {
                Some(d) => {
                    building.direction = Some(d);
                    building.task = BuildingTask::Excavate(d, gt_id);
                },
                None => {},
            }
        } else {
            let mut path = path;
            let ghost full = path@;
            let last_pos = path.remove(0);
            proof {
                assert(full =~= seq![goal] + path@);
            }
            let next_to_last = path[0];
            match choose_direction(&next_to_last, &last_pos) {
                Some(d) => {
                    building.task = BuildingTask::MoveToExcavate {
                        t: FloatBits(MOVE_TIME_BITS),
                        path,
                        dir: d,
                        target: gt_id,
                    };
                },
                None => {},
            }
        }
    }
}

/// A colony-wide task that stays: an excavation with work left, or a cleanup of a tile some
/// transport ends at.
pub open spec fn gtask_stays(g: GlobalTask, ts: Seq<EntityEntry<Transport>>) -> bool {
    match g {
        GlobalTask::Excavate(t, _) => !float_le_zero(t.0),
        GlobalTask::Cleanup(p) => occupied_tiles(ts, p),
    }
}

/// The slot holds a finished excavation of tile `p`.
pub open spec fn done_at(e: EntityEntry<GlobalTask>, p: Pos) -> bool {
    &&& e.payload is Occupied
    &&& occupant(e) matches GlobalTask::Excavate(t, q) && float_le_zero(t.0) && q == p
}

/// Some finished excavation of the slots is at tile `p`.
pub open spec fn excavated_at(gs: Seq<EntityEntry<GlobalTask>>, p: Pos) -> bool {
    exists|i: int| 0 <= i < gs.len() && #[trigger] done_at(gs[i], p)
}

/// Whether some transport ends at tile `p`.
fn transport_ends_at(transports: &EntitySet<Transport>, p: Pos) -> (r: bool)
    ensures
        r == occupied_tiles(transports.slots(), p),
{
    let ghost s = transports.slots();
    let n = transports.num_slots();
    let mut k: usize = 0;
    while k < n
        invariant
            n == s.len(),
            s == transports.slots(),
            k <= n,
            forall|j: int|
                0 <= j < k ==> !(#[trigger] s[j].payload is Occupied && s[j].payload->Occupied_0.path@.len() > 0
                    && s[j].payload->Occupied_0.path@.last() == p),
        decreases n - k,
    {
        match transports.get_at(k) {
            Some(t) => {
                let len = t.path.len();
                if len > 0 && pos_eq(t.path[len - 1], p) {
                    assert(s[k as int].payload is Occupied);
                    return true;
                }
            },
            None => {},
        }
        k = k + 1;
    }
    false
}

impl AsteroidColoniesGame {
    /// Clears finished colony-wide tasks: the tile of every finished excavation (one with no
    /// work left) is made excavated ground, then finished excavations and cleanups of tiles no
    /// transport ends at are dropped.
    pub fn process_global_tasks(&mut self)
        requires
            old(self).tiles.wf(),
        ensures
            final(self).tiles.wf(),
            forall|p: Pos| #[trigger]
                excavated_at(old(self).global_tasks.slots(), p) ==> final(self).tiles.spec_tile_at(p).state
                    == TileState::Empty,
            forall|q: Pos|
                (forall|p: Pos| #[trigger] excavated_at(old(self).global_tasks.slots(), p) ==> chunk_pos_of(p)
                    != chunk_pos_of(q)) ==> #[trigger] final(self).tiles.spec_tile_at(q) == old(self).tiles.spec_tile_at(q),
            final(self).global_tasks.slots().len() == old(self).global_tasks.slots().len(),
            final(self).global_tasks.free_head() == old(self).global_tasks.free_head(),
            forall|i: int|
                0 <= i < old(self).global_tasks.slots().len() ==> {
                    let e0 = old(self).global_tasks.slots()[i];
                    let e1 = #[trigger] final(self).global_tasks.slots()[i];
                    match e0.payload {
                        EntryPayload::Free(_) => e1 == e0,
                        EntryPayload::Occupied(g) => if gtask_stays(g, old(self).transports.slots()) {
                            e1 == e0
                        } else {
                            e1 == EntityEntry {
                                gen: e0.gen,
                                payload: EntryPayload::<GlobalTask>::Free(old(self).global_tasks.free_head()),
                            }
                        },
                    }
                },
            final(self).buildings == old(self).buildings,
            final(self).crews == old(self).crews,
            final(self).transports == old(self).transports,
            final(self).constructions == old(self).constructions,
            final(self).global_time == old(self).global_time,
    {
        let ghost gs = self.global_tasks.slots();
        let ghost tiles0 = self.tiles;
        let n = self.global_tasks.num_slots();
        let mut i: usize = 0;
        while i < n
            invariant
                n == gs.len(),
                gs == self.global_tasks.slots(),
                gs == old(self).global_tasks.slots(),
                tiles0 == old(self).tiles,
                i <= n,
                self.tiles.wf(),
                self.buildings == old(self).buildings,
                self.crews == old(self).crews,
                self.transports == old(self).transports,
                self.constructions == old(self).constructions,
                self.global_time == old(self).global_time,
                self.global_tasks == old(self).global_tasks,
                forall|j: int, p: Pos|
                    0 <= j < i && #[trigger] done_at(gs[j], p) ==> self.tiles.spec_tile_at(p).state == TileState::Empty
                        && lookup_chunk(self.tiles.chunk_seq(), chunk_pos_of(p)) matches Some(Chunk::Tiles(_, _)),
                forall|q: Pos|
                    (forall|j: int, p: Pos| 0 <= j < i && #[trigger] done_at(gs[j], p) ==> chunk_pos_of(p) != chunk_pos_of(q))
                        ==> #[trigger] self.tiles.spec_tile_at(q) == tiles0.spec_tile_at(q),
            decreases n - i,
        {
            let done = match self.global_tasks.get_at(i) {
                Some(g) => match *g {
                    GlobalTask::Excavate(t, p) => if float_bits_le_zero(t.0) {
                        Some(p)
                    } else {
                        None
                    },
                    GlobalTask::Cleanup(_) => None,
                },
                None => None,
            };
            match done {
                Some(p) => {
                    let ghost before = self.tiles;
                    let tile = self.tiles.index_mut(p);
                    let ghost t0 = *tile;
                    tile.state = TileState::Empty;
                    proof {
                        let t1 = Tile { state: TileState::Empty, ..t0 };
                        let after = self.tiles;
                        assert(done_at(gs[i as int], p));
                        lemma_write_then_read(before, after, p, t1, p);
                        assert forall|j: int, x: Pos|
                            0 <= j < i + 1 && #[trigger] done_at(gs[j], x) implies after.spec_tile_at(x).state == TileState::Empty
                                && lookup_chunk(after.chunk_seq(), chunk_pos_of(x)) matches Some(Chunk::Tiles(_, _)) by {
                            lemma_write_then_read(before, after, p, t1, x);
                            if j == i {
                                assert(x == p);
                            }
                        }
                        assert forall|q: Pos|
                            (forall|j: int, x: Pos| 0 <= j < i + 1 && #[trigger] done_at(gs[j], x) ==> chunk_pos_of(x) != chunk_pos_of(q))
                                implies #[trigger] after.spec_tile_at(q) == tiles0.spec_tile_at(q) by {
                            assert(chunk_pos_of(p) != chunk_pos_of(q));
                            lemma_write_then_read(before, after, p, t1, q);
                            assert forall|j: int, x: Pos| 0 <= j < i && #[trigger] done_at(gs[j], x) implies chunk_pos_of(x) != chunk_pos_of(q) by {
                            }
                        }
                    }
                },
                None => {},
            }
            i = i + 1;
        }
        proof {
            assert forall|p: Pos| #[trigger] excavated_at(gs, p) implies self.tiles.spec_tile_at(p).state == TileState::Empty by {
                let j = choose|j: int| 0 <= j < gs.len() && #[trigger] done_at(gs[j], p);
            }
            assert forall|q: Pos|
                (forall|p: Pos| #[trigger] excavated_at(gs, p) ==> chunk_pos_of(p) != chunk_pos_of(q)) implies #[trigger]
                self.tiles.spec_tile_at(q) == tiles0.spec_tile_at(q) by {
                assert forall|j: int, p: Pos| 0 <= j < n && #[trigger] done_at(gs[j], p) implies chunk_pos_of(p) != chunk_pos_of(q) by {
                    assert(excavated_at(gs, p));
                }
            }
        }
        let transports = &self.transports;
        let keep = |g: &GlobalTask| -> (b: bool)
            ensures
                b == gtask_stays(*g, transports.slots()),
            {
                match *g {
                    GlobalTask::Excavate(t, _) => !float_bits_le_zero(t.0),
                    GlobalTask::Cleanup(p) => transport_ends_at(transports, p),
                }
            };
        self.global_tasks.retain(keep);
    }
}

} // verus!
