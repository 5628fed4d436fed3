//! Crews: workers that leave their cabin to build, excavate and carry items by hand.
use vstd::prelude::*;

use crate::building::{pos_in_range, rect_contains, spec_size, Building};
use crate::push_pull::{buildings_ok, first_at, none_at, occupant, same_but_inventory};
use crate::construction::{count_of, with_progress, Construction};
use crate::direction::Direction;
use crate::entity::{occupied_values, EntityEntry, EntityId, EntitySet, EntryPayload};
use crate::inventory::{lemma_entries_of_view, lemma_inventory_parts, sorted_entries, CountableInventory, Inventory};
use crate::items::ItemType;
use crate::task::GlobalTask;
use crate::tile::{TileState, Tiles};
use crate::transport::{find_path, is_path_between, lemma_open_over, open_path, path_over, pos_eq, step_to};
use crate::Pos;
use crate::transport::Transport;
use crate::crew_cabin::{any_crew_builds_at, may_build};
use crate::game::{recipes_ok, AsteroidColoniesGame};
use crate::task::FloatBits;

verus! {

/// The id of a building.
pub type BuildingId = EntityId<Building>;

/// The id of a colony-wide task.
pub type GlobalTaskId = EntityId<GlobalTask>;

/// What a crew is doing.
#[derive(Clone, Copy, Debug)]
pub enum CrewTask {
    /// Nothing assigned; the crew looks for work.
    Unassigned,
    /// Waiting for the given ticks before looking for work again.
    Idle(usize),
    /// Going back to its cabin.
    Return,
    /// Excavating for a colony-wide task.
    Excavate(GlobalTaskId),
    /// Building the construction site at a position.
    Build(Pos),
    /// Picking up an item (any, when there is no filter) and taking it to the destination.
    Pickup { src: Pos, dest: Pos, item: Option<ItemType> },
    /// Delivering an item.
    Deliver { dst: Pos, item: ItemType },
}

/// A crew out of its cabin.
#[derive(Debug)]
pub struct Crew {
    pub pos: Pos,
    /// The way ahead; the next position is last.
    pub path: Option<Vec<Pos>>,
    /// The cabin the crew came from.
    pub from: BuildingId,
    task: CrewTask,
    inventory: Inventory,
}

/// A crew walks on excavated tiles, and onto its target.
pub open spec fn crew_passable(tiles: Tiles, target: Pos, p: Pos) -> bool {
    tiles.spec_tile_at(p).state == TileState::Empty || p == target
}

/// A walking path of a crew from `start` to `goal`, goal first: at least two tiles, every one
/// but the start walkable and one step from the next.
pub open spec fn crew_path_ok(tiles: Tiles, start: Pos, goal: Pos, path: Seq<Pos>) -> bool {
    &&& path.len() >= 2
    &&& path[0] == goal
    &&& path.last() == start
    &&& forall|k: int|
        0 <= k < path.len() - 1 ==> crew_passable(tiles, goal, #[trigger] path[k]) && exists|d: Direction|
            #[trigger] step_to(path[k + 1], d, path[k])
}

/// The tiles a crew heading for `goal` walks on.
pub open spec fn crew_pass_fn(tiles: Tiles, goal: Pos) -> spec_fn(Pos) -> bool {
    |p: Pos| crew_passable(tiles, goal, p)
}

/// A crew at `start` can walk to another tile `goal`: a walking path of at most `usize::MAX`
/// tiles leads there.
pub open spec fn crew_reachable(tiles: Tiles, start: Pos, goal: Pos) -> bool {
    start != goal && exists|q: Seq<Pos>| #[trigger] crew_path_ok(tiles, start, goal, q) && q.len() <= usize::MAX
}

/// A walking path is a path over the tiles a crew walks on.
proof fn lemma_crew_path_over(tiles: Tiles, start: Pos, goal: Pos, q: Seq<Pos>)
    requires
        crew_path_ok(tiles, start, goal, q),
    ensures
        path_over(start, goal, q, crew_pass_fn(tiles, goal)),
{
    assert forall|k: int| 0 <= k < q.len() - 1 implies crew_pass_fn(tiles, goal)(#[trigger] q[k]) && exists|d: Direction|
        #[trigger] step_to(q[k + 1], d, q[k]) by {
        assert(crew_passable(tiles, goal, q[k]));
    }
}

/// Searches a walking path for a crew from `start` to `goal`: found exactly when the crew can
/// walk there.
#[verifier::spinoff_prover]
#[verifier::rlimit(40)]
pub(crate) fn crew_path(tiles: &Tiles, start: Pos, goal: Pos) -> (r: Option<Vec<Pos>>)
    requires
        tiles.wf(),
    ensures
        r matches Some(path) ==> crew_path_ok(*tiles, start, goal, path@),
        r is Some <==> crew_reachable(*tiles, start, goal),
{
    let pass = |p: Pos| -> (r: bool)
        requires
            tiles.wf(),
        ensures
            r == crew_passable(*tiles, goal, p),
        { tiles.index(p).state == TileState::Empty || pos_eq(p, goal) };
    let r = find_path(start, goal, pass);
    proof {
        if let Some(ref path) = r {
            assert forall|k: int| 0 <= k < path@.len() - 1 implies crew_passable(*tiles, goal, #[trigger] path@[k])
                && exists|d: Direction| #[trigger] step_to(path@[k + 1], d, path@[k]) by {
                assert(call_ensures(pass, (path@[k],), true));
            }
            assert(crew_path_ok(*tiles, start, goal, path@));
            assert(path@.len() == path.len());
            assert(start != goal);
            assert(crew_reachable(*tiles, start, goal));
        }
        if r is None && start != goal {
            lemma_crew_none(*tiles, start, goal, pass);
        }
    }
    r
}

/// With no open path of at most `usize::MAX` tiles for the crew's test, the crew cannot walk
/// there.
proof fn lemma_crew_none<P: Fn(Pos) -> bool>(tiles: Tiles, start: Pos, goal: Pos, pass: P)
    requires
        forall|p: Pos, rr: bool| #[trigger] call_ensures(pass, (p,), rr) ==> rr == crew_passable(tiles, goal, p),
        forall|q: Seq<Pos>| #[trigger] open_path(start, goal, q, pass) ==> q.len() > usize::MAX,
    ensures
        !crew_reachable(tiles, start, goal),
{
    assert forall|p: Pos, rr: bool| #[trigger] call_ensures(pass, (p,), rr) implies rr == crew_pass_fn(tiles, goal)(p) by {
    }
    lemma_open_over(start, goal, pass, crew_pass_fn(tiles, goal));
    assert forall|q: Seq<Pos>| #[trigger] crew_path_ok(tiles, start, goal, q) implies q.len() > usize::MAX by {
        lemma_crew_path_over(tiles, start, goal, q);
    }
}

impl Crew {
    /// Where the crew is.
    pub closed spec fn spec_pos(&self) -> Pos {
        self.pos
    }

    /// The way ahead.
    pub closed spec fn spec_path(&self) -> Option<Vec<Pos>> {
        self.path
    }

    /// The cabin the crew came from.
    pub closed spec fn spec_from(&self) -> BuildingId {
        self.from
    }

    /// What the crew is doing.
    pub closed spec fn spec_task(&self) -> CrewTask {
        self.task
    }

    /// What the crew carries.
    pub closed spec fn spec_inventory(&self) -> Inventory {
        self.inventory
    }

    /// A crew from the cabin `from_building` (of id `from_id`) for a colony-wide task: to
    /// excavate, or to clean up items and bring them to the cabin. None when no walking path
    /// leads to the task's position.
    pub fn new_task(
        from_id: BuildingId,
        from_building: &Building,
        gt_id: GlobalTaskId,
        gtask: &GlobalTask,
        tiles: &Tiles,
    ) -> (r: Option<Self>)
        requires
            tiles.wf(),
        ensures
            r matches Some(c) ==> {
                let target = match *gtask {
                    GlobalTask::Excavate(_, p) => p,
                    GlobalTask::Cleanup(p) => p,
                };
                &&& c.spec_pos() == from_building.pos
                &&& c.spec_from() == from_id
                &&& c.spec_path() matches Some(path) && crew_path_ok(*tiles, from_building.pos, target, path@)
                &&& c.spec_task() == match *gtask {
                    GlobalTask::Excavate(_, _) => CrewTask::Excavate(gt_id),
                    GlobalTask::Cleanup(p) => CrewTask::Pickup { src: p, dest: from_building.pos, item: None },
                }
                &&& c.spec_inventory().wf()
                &&& c.spec_inventory()@ == Map::<ItemType, usize>::empty()
            },
            r is Some <==> crew_reachable(
                *tiles,
                from_building.pos,
                match *gtask {
                    GlobalTask::Excavate(_, p) => p,
                    GlobalTask::Cleanup(p) => p,
                },
            ),
    {
        let (target, task) = match *gtask {
            GlobalTask::Excavate(_, pos) => (pos, CrewTask::Excavate(gt_id)),
            GlobalTask::Cleanup(spos) => (spos, CrewTask::Pickup { src: spos, dest: from_building.pos, item: None }),
        };
        let path = match crew_path(tiles, from_building.pos, target) {
            Some(p) => p,
            None => {
                return None;
            },
        };
        Some(Crew { pos: from_building.pos, path: Some(path), from: from_id, task, inventory: Inventory::new() })
    }

    /// A crew from `from_pos` to build the construction site at `dest`.
    pub fn new_build(from_id: BuildingId, from_pos: Pos, dest: Pos, tiles: &Tiles) -> (r: Option<Self>)
        requires
            tiles.wf(),
        ensures
            r matches Some(c) ==> {
                &&& c.spec_pos() == from_pos
                &&& c.spec_from() == from_id
                &&& c.spec_path() matches Some(path) && crew_path_ok(*tiles, from_pos, dest, path@)
                &&& c.spec_task() == CrewTask::Build(dest)
                &&& c.spec_inventory().wf()
                &&& c.spec_inventory()@ == Map::<ItemType, usize>::empty()
            },
    {
        let path = match crew_path(tiles, from_pos, dest) {
            Some(p) => p,
            None => {
                return None;
            },
        };
        Some(Crew { pos: from_pos, path: Some(path), from: from_id, task: CrewTask::Build(dest), inventory: Inventory::new() })
    }

    /// A crew from `from_pos` to pick up an `item` at `src` and take it to `dest`. None unless
    /// walking paths lead to `src` and from there to `dest`.
    pub fn new_pickup(
        from_id: BuildingId,
        from_pos: Pos,
        src: Pos,
        dest: Pos,
        item: ItemType,
        tiles: &Tiles,
    ) -> (r: Option<Self>)
        requires
            tiles.wf(),
        ensures
            r matches Some(c) ==> {
                &&& c.spec_pos() == from_pos
                &&& c.spec_from() == from_id
                &&& c.spec_path() matches Some(path) && crew_path_ok(*tiles, from_pos, src, path@)
                &&& c.spec_task() == CrewTask::Pickup { src, dest, item: Some(item) }
                &&& c.spec_inventory().wf()
                &&& c.spec_inventory()@ == Map::<ItemType, usize>::empty()
            },
    {
        let path = match crew_path(tiles, from_pos, src) {
            Some(p) => p,
            None => {
                return None;
            },
        };
        if crew_path(tiles, src, dest).is_none() {
            return None;
        }
        Some(
            Crew {
                pos: from_pos,
                path: Some(path),
                from: from_id,
                task: CrewTask::Pickup { src, dest, item: Some(item) },
                inventory: Inventory::new(),
            },
        )
    }

    /// A crew from `from_pos` carrying one `item` to `dest`.
    pub fn new_deliver(from_id: BuildingId, from_pos: Pos, dest: Pos, item: ItemType, tiles: &Tiles) -> (r: Option<Self>)
        requires
            tiles.wf(),
        ensures
            r matches Some(c) ==> {
                &&& c.spec_pos() == from_pos
                &&& c.spec_from() == from_id
                &&& c.spec_path() matches Some(path) && crew_path_ok(*tiles, from_pos, dest, path@)
                &&& c.spec_task() == CrewTask::Deliver { dst: dest, item }
                &&& c.spec_inventory().wf()
                &&& c.spec_inventory()@ == map![item => 1usize]
            },
    {
        let path = match crew_path(tiles, from_pos, dest) {
            Some(p) => p,
            None => {
                return None;
            },
        };
        let mut inventory = Inventory::new();
        inventory.insert(item, 1);
        proof {
            assert(inventory@ =~= map![item => 1usize]);
        }
        Some(Crew { pos: from_pos, path: Some(path), from: from_id, task: CrewTask::Deliver { dst: dest, item }, inventory })
    }

    /// The colony-wide task the crew excavates for, if any.
    pub fn gt_id(&self) -> (r: Option<GlobalTaskId>)
        ensures
            r == (match self.spec_task() {
                CrewTask::Excavate(id) => Some(id),
                _ => None,
            }),
    {
        match self.task {
            CrewTask::Excavate(id) => Some(id),
            _ => None,
        }
    }

    /// The construction site the crew builds, if any.
    pub fn target(&self) -> (r: Option<Pos>)
        ensures
            r == spec_target(self.spec_task()),
    {
        match self.task {
            CrewTask::Build(pos) => Some(pos),
            _ => None,
        }
    }
}

/// The construction site a task builds, if any.
pub open spec fn spec_target(t: CrewTask) -> Option<Pos> {
    match t {
        CrewTask::Build(pos) => Some(pos),
        _ => None,
    }
}

/// How many of the tasks satisfy `f`.
pub open spec fn count_tasks(s: Seq<Crew>, f: spec_fn(CrewTask) -> bool) -> nat
    decreases s.len(),
{
    if s.len() == 0 {
        0
    } else {
        count_tasks(s.drop_last(), f) + if f(s.last().spec_task()) {
            1nat
        } else {
            0nat
        }
    }
}

proof fn lemma_count_tasks_le(s: Seq<Crew>, f: spec_fn(CrewTask) -> bool)
    ensures
        count_tasks(s, f) <= s.len(),
    decreases s.len(),
{
    if s.len() > 0 {
        lemma_count_tasks_le(s.drop_last(), f);
    }
}

/// A pickup from `src` without an item filter.
pub open spec fn is_pickup_any(src: Pos) -> spec_fn(CrewTask) -> bool {
    |t: CrewTask| t matches CrewTask::Pickup { src: s, item: None, .. } && s == src
}

/// The number of crews that pick up items from `src` without an item filter.
pub fn expected_crew_pickup_any(crews: &EntitySet<Crew>, src: Pos) -> (r: usize)
    ensures
        r == count_tasks(occupied_values(crews.slots()), is_pickup_any(src)),
{
    let all = crews.iter();
    let ghost s = occupied_values(crews.slots());
    let mut n: usize = 0;
    let mut i: usize = 0;
    while i < all.len()
        invariant
            i <= all@.len(),
            all@.len() == s.len(),
            forall|k: int| 0 <= k < all@.len() ==> *all@[k] == s[k],
            n == count_tasks(s.take(i as int), is_pickup_any(src)),
        decreases all@.len() - i,
    {
        proof {
            assert(s.take(i + 1).drop_last() =~= s.take(i as int));
            lemma_count_tasks_le(s.take(i as int), is_pickup_any(src));
        }
        let hit = match all[i].task {
            CrewTask::Pickup { src: ps, item: None, .. } => pos_eq(ps, src),
            _ => false,
        };
        if hit {
            n = n + 1;
        }
        i = i + 1;
    }
    proof {
        assert(s.take(i as int) =~= s);
    }
    n
}

/// The item a task delivers to `dest`: a delivery there, or a pickup with an item bound
/// there.
pub open spec fn delivery_key(dest: Pos) -> spec_fn(CrewTask) -> Option<ItemType> {
    |t: CrewTask|
        match t {
            CrewTask::Deliver { dst, item } => if dst == dest {
                Some(item)
            } else {
                None
            },
            CrewTask::Pickup { dest: d, item, .. } => if d == dest {
                item
            } else {
                None
            },
            _ => None,
        }
}

/// The item a task picks up from `src`, when it names one.
pub open spec fn pickup_key(src: Pos) -> spec_fn(CrewTask) -> Option<ItemType> {
    |t: CrewTask|
        match t {
            CrewTask::Pickup { src: s, item, .. } => if s == src {
                item
            } else {
                None
            },
            _ => None,
        }
}

/// How many of the crews' tasks have `it` as their key.
pub open spec fn count_keyed(s: Seq<Crew>, key: spec_fn(CrewTask) -> Option<ItemType>, it: ItemType) -> nat
    decreases s.len(),
{
    if s.len() == 0 {
        0
    } else {
        count_keyed(s.drop_last(), key, it) + if key(s.last().spec_task()) == Some(it) {
            1nat
        } else {
            0nat
        }
    }
}

proof fn lemma_count_keyed_le(s: Seq<Crew>, key: spec_fn(CrewTask) -> Option<ItemType>, it: ItemType)
    ensures
        count_keyed(s, key, it) <= s.len(),
    decreases s.len(),
{
    if s.len() > 0 {
        lemma_count_keyed_le(s.drop_last(), key, it);
    }
}

fn task_key(t: CrewTask, pos: Pos, deliveries: bool) -> (r: Option<ItemType>)
    ensures
        r == (if deliveries { delivery_key(pos)(t) } else { pickup_key(pos)(t) }),
{
    if deliveries {
        match t {
            CrewTask::Deliver { dst, item } => if pos_eq(dst, pos) {
                Some(item)
            } else {
                None
            },
            CrewTask::Pickup { dest, item, .. } => if pos_eq(dest, pos) {
                item
            } else {
                None
            },
            _ => None,
        }
    } else {
        match t {
            CrewTask::Pickup { src, item, .. } => if pos_eq(src, pos) {
                item
            } else {
                None
            },
            _ => None,
        }
    }
}

/// Counts the crews by the item their tasks deliver to `pos` (or pick up from it).
fn count_by_item(all: &Vec<&Crew>, pos: Pos, deliveries: bool) -> (r: CountableInventory)
    ensures
        r.wf(),
        ({
            let s = all@.map_values(|c: &Crew| *c);
            let key = if deliveries { delivery_key(pos) } else { pickup_key(pos) };
            &&& forall|it: ItemType| #[trigger] r@.contains_key(it) <==> count_keyed(s, key, it) > 0
            &&& forall|it: ItemType| r@.contains_key(it) ==> #[trigger] r@[it] == count_keyed(s, key, it)
        }),
{
    let ghost s = all@.map_values(|c: &Crew| *c);
    let ghost key = if deliveries { delivery_key(pos) } else { pickup_key(pos) };
    let mut counts = CountableInventory::new();
    let mut i: usize = 0;
    while i < all.len()
        invariant
            i <= all@.len(),
            s == all@.map_values(|c: &Crew| *c),
            key == (if deliveries { delivery_key(pos) } else { pickup_key(pos) }),
            counts.wf(),
            forall|it: ItemType| #[trigger] counts@.contains_key(it) <==> count_keyed(s.take(i as int), key, it) > 0,
            forall|it: ItemType| counts@.contains_key(it) ==> #[trigger] counts@[it] == count_keyed(s.take(i as int), key, it),
        decreases all@.len() - i,
    {
        let k = task_key(all[i].task, pos, deliveries);
        proof {
            assert(s.take(i + 1).drop_last() =~= s.take(i as int));
            assert(s.take(i + 1).last() == *all@[i as int]);
        }
        match k {
            Some(it) => {
                proof {
                    lemma_count_keyed_le(s.take(i as int), key, it);
                }
                let e = counts.entry_or_default(it);
                *e = *e + 1;
            },
            None => {},
        }
        i = i + 1;
    }
    proof {
        assert(s.take(i as int) =~= s);
    }
    counts
}

/// Counts, by item, the crews that deliver to `dest`: deliveries there and pickups with an
/// item bound there.
pub fn expected_crew_deliveries(crews: &EntitySet<Crew>, dest: Pos) -> (r: CountableInventory)
    ensures
        r.wf(),
        forall|it: ItemType| #[trigger] r@.contains_key(it) <==> count_keyed(occupied_values(crews.slots()), delivery_key(dest), it) > 0,
        forall|it: ItemType|
            r@.contains_key(it) ==> #[trigger] r@[it] == count_keyed(occupied_values(crews.slots()), delivery_key(dest), it),
{
    let all = crews.iter();
    proof {
        assert(all@.map_values(|c: &Crew| *c) =~= occupied_values(crews.slots()));
    }
    count_by_item(&all, dest, true)
}

/// Counts, by item, the crews that pick up an item named in their task from `src`.
pub fn _expected_crew_pickups(crews: &EntitySet<Crew>, src: Pos) -> (r: CountableInventory)
    ensures
        r.wf(),
        forall|it: ItemType| #[trigger] r@.contains_key(it) <==> count_keyed(occupied_values(crews.slots()), pickup_key(src), it) > 0,
        forall|it: ItemType|
            r@.contains_key(it) ==> #[trigger] r@[it] == count_keyed(occupied_values(crews.slots()), pickup_key(src), it),
{
    let all = crews.iter();
    proof {
        assert(all@.map_values(|c: &Crew| *c) =~= occupied_values(crews.slots()));
    }
    count_by_item(&all, src, false)
}

/// A crew building at `ct_pos` works on the site `c`: one at that position with work left to
/// do, or, when canceling, left to undo.
pub open spec fn works_on(c: Construction, ct_pos: Pos) -> bool {
    &&& c.spec_pos() == ct_pos
    &&& if c.spec_canceling() {
        c.spec_progress() > 0
    } else {
        c.spec_progress() < c.spec_recipe().time
    }
}

/// The progress after one tick of work on `c`: one step towards done, or towards undone.
pub open spec fn worked_progress(c: Construction) -> u32 {
    if c.spec_canceling() {
        (c.spec_progress() - 1) as u32
    } else {
        (c.spec_progress() + 1) as u32
    }
}

/// Whether work on `c` is over once its progress is `p`.
pub open spec fn work_done(c: Construction, p: u32) -> bool {
    if c.spec_canceling() {
        p == 0
    } else {
        c.spec_recipe().time <= p
    }
}

/// Slot `j` holds the first site, in slot order, that a crew building at `ct_pos` works on.
pub open spec fn first_worked(s: Seq<EntityEntry<Construction>>, ct_pos: Pos, j: int) -> bool {
    &&& 0 <= j < s.len()
    &&& s[j].payload is Occupied
    &&& works_on(s[j].payload->Occupied_0, ct_pos)
    &&& forall|i: int| 0 <= i < j ==> !(#[trigger] s[i].payload is Occupied && works_on(s[i].payload->Occupied_0, ct_pos))
}

/// Setting the work done of one site keeps the sites well formed.
proof fn lemma_progress_keeps_ok(s: Seq<EntityEntry<Construction>>, j: int, p: u32)
    requires
        0 <= j < s.len(),
        s[j].payload is Occupied,
    ensures
        ({
            let s2 = s.update(j, EntityEntry { gen: s[j].gen, payload: EntryPayload::Occupied(with_progress(s[j].payload->Occupied_0, p)) });
            &&& sites_ok(s) ==> sites_ok(s2)
            &&& recipes_ok(s) ==> recipes_ok(s2)
        }),
{
    let s2 = s.update(j, EntityEntry { gen: s[j].gen, payload: EntryPayload::Occupied(with_progress(s[j].payload->Occupied_0, p)) });
    crate::construction::lemma_with_progress(s[j].payload->Occupied_0, p);
    if sites_ok(s) {
        assert forall|i: int| 0 <= i < s2.len() && #[trigger] s2[i].payload is Occupied implies s2[i].payload->Occupied_0.spec_ingredients().wf() by {
            if i != j {
                assert(s2[i] == s[i]);
            }
        }
    }
    if recipes_ok(s) {
        assert forall|i: int| 0 <= i < s2.len() && #[trigger] s2[i].payload is Occupied implies s2[i].payload->Occupied_0.spec_recipe().ingredients.wf() by {
            if i != j {
                assert(s2[i] == s[i]);
            }
        }
    }
}

impl Crew {
    /// One tick of building at `ct_pos`: the first site there with work left (or left to undo)
    /// progresses by one tick; the crew is done when that finishes the work, or when there is
    /// no such site.
    pub fn process_build_task(&mut self, constructions: &mut EntitySet<Construction>, ct_pos: Pos)
        ensures
            final(self).spec_pos() == old(self).spec_pos(),
            final(self).spec_path() == old(self).spec_path(),
            final(self).spec_from() == old(self).spec_from(),
            final(self).spec_inventory() == old(self).spec_inventory(),
            final(constructions).free_head() == old(constructions).free_head(),
            sites_ok(old(constructions).slots()) ==> sites_ok(final(constructions).slots()),
            recipes_ok(old(constructions).slots()) ==> recipes_ok(final(constructions).slots()),
            (forall|j: int| !#[trigger] first_worked(old(constructions).slots(), ct_pos, j)) ==> {
                &&& final(constructions).slots() == old(constructions).slots()
                &&& final(self).spec_task() == CrewTask::Unassigned
            },
            forall|j: int| #[trigger] first_worked(old(constructions).slots(), ct_pos, j) ==> {
                let c = old(constructions).slots()[j].payload->Occupied_0;
                let p = worked_progress(c);
                &&& final(constructions).slots() == old(constructions).slots().update(
                    j,
                    EntityEntry { gen: old(constructions).slots()[j].gen, payload: EntryPayload::Occupied(with_progress(c, p)) },
                )
                &&& final(self).spec_task() == (if work_done(c, p) { CrewTask::Unassigned } else { old(self).spec_task() })
            },
    {
        let ghost s0 = constructions.slots();
        let n = constructions.num_slots();
        let mut i: usize = 0;
        while i < n
            invariant
                n == s0.len(),
                i <= n,
                constructions.slots() == s0,
                constructions.free_head() == old(constructions).free_head(),
                s0 == old(constructions).slots(),
                *self == *old(self),
                forall|k: int| 0 <= k < i ==> !(#[trigger] s0[k].payload is Occupied && works_on(s0[k].payload->Occupied_0, ct_pos)),
            decreases n - i,
        {
            match constructions.get_mut_at(i) {
                Some(con) => {
                    let canceling = con.canceling();
                    let t = con.progress();
                    let here = pos_eq(ct_pos, con.pos());
                    if canceling {
                        if here && 0 < t {
                            let p = t - 1;
                            con.set_progress(p);
                            if p == 0 {
                                self.task = CrewTask::Unassigned;
                            }
                            proof {
                                lemma_progress_keeps_ok(s0, i as int, p);
                                assert(first_worked(s0, ct_pos, i as int));
                                assert forall|j: int| #[trigger] first_worked(s0, ct_pos, j) implies j == i by {
                                    if j < i {
                                    } else if j > i {
                                        assert(!(s0[i as int].payload is Occupied && works_on(s0[i as int].payload->Occupied_0, ct_pos)));
                                    }
                                }
                            }
                            return;
                        }
                    } else if here && t < con.recipe().time {
                        let p = t + 1;
                        let time = con.recipe().time;
                        con.set_progress(p);
                        if time <= p {
                            self.task = CrewTask::Unassigned;
                        }
                        proof {
                            lemma_progress_keeps_ok(s0, i as int, p);
                            assert(first_worked(s0, ct_pos, i as int));
                            assert forall|j: int| #[trigger] first_worked(s0, ct_pos, j) implies j == i by {
                                if j < i {
                                } else if j > i {
                                    assert(!(s0[i as int].payload is Occupied && works_on(s0[i as int].payload->Occupied_0, ct_pos)));
                                }
                            }
                        }
                        return;
                    }
                },
                None => {},
            }
            i = i + 1;
        }
        self.task = CrewTask::Unassigned;
        proof {
            assert forall|j: int| !#[trigger] first_worked(s0, ct_pos, j) by {
                if first_worked(s0, ct_pos, j) {
                    assert(!(s0[j].payload is Occupied && works_on(s0[j].payload->Occupied_0, ct_pos)));
                }
            }
        }
    }
}

/// Slot `j` holds the first site, in slot order, at `dest`.
pub open spec fn first_site_at(s: Seq<EntityEntry<Construction>>, dest: Pos, j: int) -> bool {
    &&& 0 <= j < s.len()
    &&& s[j].payload is Occupied
    &&& s[j].payload->Occupied_0.spec_pos() == dest
    &&& forall|i: int| 0 <= i < j ==> !(#[trigger] s[i].payload is Occupied && s[i].payload->Occupied_0.spec_pos() == dest)
}

/// Every site of the slots has well formed ingredients.
pub open spec fn sites_ok(s: Seq<EntityEntry<Construction>>) -> bool {
    forall|i: int| 0 <= i < s.len() && #[trigger] s[i].payload is Occupied ==> s[i].payload->Occupied_0.spec_ingredients().wf()
}

/// The site `b` is `a` with `n` more of `item` among its ingredients (an entry of 0 is made
/// when it had none).
pub open spec fn site_given(a: Construction, b: Construction, item: ItemType, n: int) -> bool {
    &&& b.spec_type() == a.spec_type()
    &&& b.spec_pos() == a.spec_pos()
    &&& b.spec_recipe() == a.spec_recipe()
    &&& b.spec_canceling() == a.spec_canceling()
    &&& b.spec_progress() == a.spec_progress()
    &&& b.expected() == a.expected()
    &&& b.spec_ingredients().wf()
    &&& b.spec_ingredients()@ == a.spec_ingredients()@.insert(item, (count_of(a.spec_ingredients()@, item) + n) as usize)
}

/// The building `b` is `a` with `n` more of `item` (an entry of 0 is made when it had none).
pub open spec fn building_given(a: Building, b: Building, item: ItemType, n: int) -> bool {
    &&& same_but_inventory(a, b)
    &&& b.inventory.wf()
    &&& b.inventory@ == a.inventory@.insert(item, (count_of(a.inventory@, item) + n) as usize)
}

impl Crew {
    /// Delivers what the crew carries of `item` to `dest`: all of it into the first site there,
    /// if any, and what is left into the first building covering `dest`, if any. The crew is
    /// done afterwards, and also when it carries none of the item.
    pub fn process_deliver_task(
        &mut self,
        item: ItemType,
        dest: Pos,
        constructions: &mut EntitySet<Construction>,
        buildings: &mut EntitySet<Building>,
    )
        requires
            old(self).spec_inventory().wf(),
            sites_ok(old(constructions).slots()),
            buildings_ok(old(buildings).slots()),
            forall|i: int|
                0 <= i < old(constructions).slots().len() && #[trigger] old(constructions).slots()[i].payload is Occupied
                    ==> count_of(old(constructions).slots()[i].payload->Occupied_0.spec_ingredients()@, item)
                    + count_of(old(self).spec_inventory()@, item) <= usize::MAX,
            forall|i: int|
                0 <= i < old(buildings).slots().len() && #[trigger] old(buildings).slots()[i].payload is Occupied
                    ==> count_of(occupant(old(buildings).slots()[i]).inventory@, item) + count_of(old(self).spec_inventory()@, item)
                    <= usize::MAX,
        ensures
            final(self).spec_task() == CrewTask::Unassigned,
            final(self).spec_pos() == old(self).spec_pos(),
            final(self).spec_path() == old(self).spec_path(),
            final(self).spec_from() == old(self).spec_from(),
            final(self).spec_inventory().wf(),
            final(constructions).free_head() == old(constructions).free_head(),
            sites_ok(final(constructions).slots()),
            recipes_ok(old(constructions).slots()) ==> recipes_ok(final(constructions).slots()),
            buildings_ok(final(buildings).slots()),
            count_of(old(self).spec_inventory()@, item) == 0 ==> {
                &&& final(self).spec_inventory() == old(self).spec_inventory()
                &&& final(constructions).slots() == old(constructions).slots()
                &&& final(buildings).slots() == old(buildings).slots()
            },
            count_of(old(self).spec_inventory()@, item) > 0 ==> {
                let n = count_of(old(self).spec_inventory()@, item);
                let cs = old(constructions).slots();
                let bs = old(buildings).slots();
                let to_site = exists|j: int| #[trigger] first_site_at(cs, dest, j);
                &&& final(self).spec_inventory()@ == old(self).spec_inventory()@.insert(item, 0)
                &&& (forall|j: int| #[trigger] first_site_at(cs, dest, j) ==> {
                    &&& final(constructions).slots().len() == cs.len()
                    &&& forall|i: int| 0 <= i < cs.len() && i != j ==> #[trigger] final(constructions).slots()[i] == cs[i]
                    &&& final(constructions).slots()[j].gen == cs[j].gen
                    &&& final(constructions).slots()[j].payload is Occupied
                    &&& site_given(cs[j].payload->Occupied_0, final(constructions).slots()[j].payload->Occupied_0, item, n)
                })
                &&& !to_site ==> final(constructions).slots() == cs
                &&& (forall|j: int| #[trigger] first_at(bs, dest, j) ==> {
                    &&& final(buildings).slots().len() == bs.len()
                    &&& forall|i: int| 0 <= i < bs.len() && i != j ==> #[trigger] final(buildings).slots()[i] == bs[i]
                    &&& final(buildings).slots()[j].gen == bs[j].gen
                    &&& final(buildings).slots()[j].payload is Occupied
                    &&& building_given(occupant(bs[j]), occupant(final(buildings).slots()[j]), item, if to_site { 0 } else { n })
                })
                &&& none_at(bs, dest) ==> final(buildings).slots() == bs
            },
    {
        let ghost cs = constructions.slots();
        let ghost bs = buildings.slots();
        let amount = self.inventory.get(&item);
        if amount == 0 {
            self.task = CrewTask::Unassigned;
            return;
        }
        let mut left = amount;
        match find_site_at(constructions, dest) {
            Some(j) => {
                proof {
                    assert(cs[j as int].payload->Occupied_0.spec_ingredients().wf());
                    assert(count_of(cs[j as int].payload->Occupied_0.spec_ingredients()@, item) + amount <= usize::MAX);
                }
                let con = constructions.get_mut_at(j).unwrap();
                let inv = con.inventory();
                let e = inv.entry(item);
                *e = *e + amount;
                left = 0;
                proof {
                    assert(sites_ok(constructions.slots())) by {
                        assert forall|m: int| 0 <= m < constructions.slots().len() && #[trigger] constructions.slots()[m].payload is Occupied
                            implies constructions.slots()[m].payload->Occupied_0.spec_ingredients().wf() by {
                            if m != j {
                                assert(constructions.slots()[m] == cs[m]);
                            }
                        }
                    }
                }
            },
            None => {},
        }
        match find_building_at(buildings, dest) {
            Some(k) => {
                proof {
                    assert(occupant(bs[k as int]).inventory.wf());
                    assert(count_of(occupant(bs[k as int]).inventory@, item) + amount <= usize::MAX);
                }
                let b = buildings.get_mut_at(k).unwrap();
                let e = b.inventory.entry(item);
                *e = *e + left;
                left = 0;
                proof {
                    assert(buildings_ok(buildings.slots())) by {
                        assert forall|m: int| 0 <= m < buildings.slots().len() && #[trigger] buildings.slots()[m].payload is Occupied
                            implies occupant(buildings.slots()[m]).inventory.wf() && pos_in_range(occupant(buildings.slots()[m]).pos) by {
                            if m != k {
                                assert(buildings.slots()[m] == bs[m]);
                            }
                        }
                    }
                }
            },
            None => {},
        }
        let c = self.inventory.get_mut(&item).unwrap();
        *c = 0;
        self.task = CrewTask::Unassigned;
    }
}

/// The slot of the first site, in slot order, at `dest`.
pub fn find_site_at(constructions: &EntitySet<Construction>, dest: Pos) -> (r: Option<usize>)
    ensures
        r matches Some(j) ==> first_site_at(constructions.slots(), dest, j as int),
        r is None ==> forall|j: int| !#[trigger] first_site_at(constructions.slots(), dest, j),
        forall|j: int| #[trigger] first_site_at(constructions.slots(), dest, j) ==> r == Some(j as usize),
{
    let ghost cs = constructions.slots();
    let n = constructions.num_slots();
    let mut i: usize = 0;
    while i < n
        invariant
            n == cs.len(),
            i <= n,
            cs == constructions.slots(),
            forall|k: int| 0 <= k < i ==> !(#[trigger] cs[k].payload is Occupied && cs[k].payload->Occupied_0.spec_pos() == dest),
        decreases n - i,
    {
        let at = match constructions.get_at(i) {
            Some(c) => pos_eq(c.pos(), dest),
            None => false,
        };
        if at {
            proof {
                assert(first_site_at(cs, dest, i as int));
                assert forall|j: int| #[trigger] first_site_at(cs, dest, j) implies j == i by {
                    if j > i {
                        assert(!(cs[i as int].payload is Occupied && cs[i as int].payload->Occupied_0.spec_pos() == dest));
                    }
                }
            }
            return Some(i);
        }
        i = i + 1;
    }
    proof {
        assert forall|j: int| !#[trigger] first_site_at(cs, dest, j) by {
            if first_site_at(cs, dest, j) {
                assert(!(cs[j].payload is Occupied && cs[j].payload->Occupied_0.spec_pos() == dest));
            }
        }
    }
    None
}

/// The slot of the first building, in slot order, that covers `dest`.
pub fn find_building_at(buildings: &EntitySet<Building>, dest: Pos) -> (r: Option<usize>)
    requires
        buildings_ok(buildings.slots()),
    ensures
        r matches Some(j) ==> first_at(buildings.slots(), dest, j as int),
        r is None ==> none_at(buildings.slots(), dest),
        forall|j: int| #[trigger] first_at(buildings.slots(), dest, j) ==> r == Some(j as usize),
{
    let ghost bs = buildings.slots();
    let n = buildings.num_slots();
    let mut k: usize = 0;
    while k < n
        invariant
            n == bs.len(),
            k <= n,
            bs == buildings.slots(),
            buildings_ok(bs),
            forall|m: int| 0 <= m < k ==> !(#[trigger] bs[m].payload is Occupied && rect_contains(
                occupant(bs[m]).pos,
                spec_size(occupant(bs[m]).type_),
                dest,
            )),
        decreases n - k,
    {
        let at = match buildings.get_at(k) {
            Some(b) => {
                proof {
                    assert(bs[k as int].payload is Occupied);
                }
                b.intersects(dest)
            },
            None => false,
        };
        if at {
            proof {
                assert(first_at(bs, dest, k as int));
                assert forall|j: int| #[trigger] first_at(bs, dest, j) implies j == k by {
                    if j > k {
                        assert(!(bs[k as int].payload is Occupied && rect_contains(
                            occupant(bs[k as int]).pos,
                            spec_size(occupant(bs[k as int]).type_),
                            dest,
                        )));
                    }
                }
            }
            return Some(k);
        }
        k = k + 1;
    }
    proof {
        assert forall|j: int| !#[trigger] first_at(bs, dest, j) by {
            if first_at(bs, dest, j) {
                assert(!(bs[j].payload is Occupied && rect_contains(occupant(bs[j]).pos, spec_size(occupant(bs[j]).type_), dest)));
            }
        }
    }
    None
}

/// The inventory `a` with everything of `b` added: the keys of both, with the counts summed.
pub open spec fn merged(a: Map<ItemType, usize>, b: Map<ItemType, usize>) -> Map<ItemType, usize> {
    Map::new(
        |t: ItemType| a.contains_key(t) || b.contains_key(t),
        |t: ItemType| (count_of(a, t) + count_of(b, t)) as usize,
    )
}

impl Crew {
    /// Returns the crew to its cabin, if the cabin still exists: the cabin gets the crew back
    /// and everything it carries. Tells whether the crew stays out (its cabin is gone).
    pub fn try_return(&mut self, buildings: &mut EntitySet<Building>) -> (r: bool)
        requires
            old(self).spec_inventory().wf(),
            old(buildings).spec_get(old(self).spec_from()) matches Some(b) ==> {
                &&& b.crews < usize::MAX
                &&& b.inventory.wf()
                &&& forall|t: ItemType| count_of(b.inventory@, t) + count_of(old(self).spec_inventory()@, t) <= usize::MAX
            },
        ensures
            *final(self) == *old(self),
            final(buildings).free_head() == old(buildings).free_head(),
            buildings_ok(old(buildings).slots()) ==> buildings_ok(final(buildings).slots()),
            r == old(buildings).spec_get(old(self).spec_from()) is None,
            r ==> final(buildings).slots() == old(buildings).slots(),
            !r ==> {
                let id = old(self).spec_from();
                let b = old(buildings).spec_get(id)->Some_0;
                let b2 = final(buildings).spec_get(id)->Some_0;
                &&& final(buildings).slots() == old(buildings).slots().update(
                    id.index() as int,
                    EntityEntry { gen: id.generation(), payload: EntryPayload::Occupied(b2) },
                )
                &&& b2.crews == b.crews + 1
                &&& b2.pos == b.pos
                &&& b2.type_ == b.type_
                &&& b2.task == b.task
                &&& b2.recipe == b.recipe
                &&& b2.direction == b.direction
                &&& b2.energy == b.energy
                &&& b2.expected_transports == b.expected_transports
                &&& b2.inventory.wf()
                &&& b2.inventory@ == merged(b.inventory@, old(self).spec_inventory()@)
            },
    {
        let ents = self.inventory.iter();
        let ghost inv = self.inventory@;
        proof {
            lemma_inventory_parts(self.inventory);
            lemma_entries_of_view(self.inventory.spec_countable());
        }
        match buildings.get_mut(self.from) {
            Some(b) => {
                let ghost b0 = *b;
                b.crews = b.crews + 1;
                let mut i: usize = 0;
                while i < ents.len()
                    invariant
                        i <= ents@.len(),
                        ents@ == self.inventory.spec_countable().entries(),
                        inv == self.inventory@,
                        sorted_entries(ents@),
                        forall|k: int| 0 <= k < ents@.len() ==> #[trigger] inv[ents@[k].0] == ents@[k].1,
                        forall|t: ItemType| #[trigger] inv.contains_key(t) <==> exists|k: int| 0 <= k < ents@.len() && ents@[k].0 == t,
                        b0.inventory.wf(),
                        forall|t: ItemType| count_of(b0.inventory@, t) + count_of(inv, t) <= usize::MAX,
                        b.inventory.wf(),
                        b.crews == b0.crews + 1,
                        b.pos == b0.pos,
                        b.type_ == b0.type_,
                        b.task == b0.task,
                        b.recipe == b0.recipe,
                        b.direction == b0.direction,
                        b.energy == b0.energy,
                        b.expected_transports == b0.expected_transports,
                        forall|t: ItemType| #[trigger] b.inventory@.contains_key(t) <==> (b0.inventory@.contains_key(t)
                            || exists|k: int| 0 <= k < i && ents@[k].0 == t),
                        forall|t: ItemType| #[trigger] count_of(b.inventory@, t) == count_of(b0.inventory@, t) + if exists|k: int|
                            0 <= k < i && ents@[k].0 == t {
                            count_of(inv, t)
                        } else {
                            0
                        },
                    decreases ents@.len() - i,
                {
                    let (t, n) = ents[i];
                    proof {
                        assert(inv.contains_key(t));
                        assert(!(exists|k: int| 0 <= k < i && ents@[k].0 == t)) by {
                            if exists|k: int| 0 <= k < i && ents@[k].0 == t {
                                let k = choose|k: int| 0 <= k < i && ents@[k].0 == t;
                                assert(crate::items::item_index(ents@[k].0) < crate::items::item_index(ents@[i as int].0));
                            }
                        }
                        assert(count_of(b.inventory@, t) == count_of(b0.inventory@, t));
                        assert(count_of(b0.inventory@, t) + count_of(inv, t) <= usize::MAX);
                        assert(inv[ents@[i as int].0] == ents@[i as int].1);
                        assert(inv[t] == n);
                    }
                    let ghost before = b.inventory@;
                    let e = b.inventory.entry(t);
                    *e = *e + n;
                    proof {
                        assert forall|t2: ItemType| #[trigger] b.inventory@.contains_key(t2) <==> (b0.inventory@.contains_key(t2)
                            || exists|k: int| 0 <= k < i + 1 && ents@[k].0 == t2) by {
                            if t2 == t {
                                assert(0 <= i < i + 1 && ents@[i as int].0 == t2);
                            }
                            if exists|k: int| 0 <= k < i + 1 && ents@[k].0 == t2 {
                                let k = choose|k: int| 0 <= k < i + 1 && ents@[k].0 == t2;
                                if k < i {
                                    assert(exists|k2: int| 0 <= k2 < i && ents@[k2].0 == t2);
                                }
                            }
                        }
                        assert forall|t2: ItemType| #[trigger] count_of(b.inventory@, t2) == count_of(b0.inventory@, t2) + if exists|k: int|
                            0 <= k < i + 1 && ents@[k].0 == t2 {
                            count_of(inv, t2)
                        } else {
                            0
                        } by {
                            if t2 == t {
                                assert(0 <= i < i + 1 && ents@[i as int].0 == t2);
                                assert(b.inventory@ == before.insert(t, (count_of(before, t) + n) as usize));
                            } else {
                                assert(count_of(b.inventory@, t2) == count_of(before, t2));
                                if exists|k: int| 0 <= k < i + 1 && ents@[k].0 == t2 {
                                    let k = choose|k: int| 0 <= k < i + 1 && ents@[k].0 == t2;
                                    assert(k != i);
                                    assert(exists|k2: int| 0 <= k2 < i && ents@[k2].0 == t2);
                                }
                                if exists|k: int| 0 <= k < i && ents@[k].0 == t2 {
                                    let k = choose|k: int| 0 <= k < i && ents@[k].0 == t2;
                                    assert(0 <= k < i + 1);
                                }
                            }
                        }
                    }
                    i = i + 1;
                }
                proof {
                    assert forall|t: ItemType| #[trigger] b.inventory@.contains_key(t) implies b.inventory@[t]
                        == merged(b0.inventory@, inv)[t] by {
                        assert(count_of(b.inventory@, t) == b.inventory@[t]);
                        if !(exists|k: int| 0 <= k < ents@.len() && ents@[k].0 == t) {
                            assert(!inv.contains_key(t));
                        }
                    }
                    assert(b.inventory@ =~= merged(b0.inventory@, inv));
                }
                false
            },
            None => true,
        }
    }
}

/// Slot `j` holds the first site, in slot order, that a crew may be sent to build.
pub open spec fn first_buildable(s: Seq<EntityEntry<Construction>>, cs: Seq<EntityEntry<Crew>>, j: int) -> bool {
    &&& 0 <= j < s.len()
    &&& s[j].payload is Occupied
    &&& may_build(occupant(s[j]), cs)
    &&& forall|i: int| 0 <= i < j ==> !(#[trigger] s[i].payload is Occupied && may_build(occupant(s[i]), cs))
}

/// A walking path back to the cabin `b`, goal first: every tile but the start excavated
/// ground or covered by the cabin, and one step from the next.
pub open spec fn home_path_ok(tiles: Tiles, b: Building, start: Pos, path: Seq<Pos>) -> bool {
    &&& path.len() >= 2
    &&& path[0] == b.pos
    &&& path.last() == start
    &&& forall|k: int|
        0 <= k < path.len() - 1 ==> (tiles.spec_tile_at(#[trigger] path[k]).state == TileState::Empty || rect_contains(
            b.pos,
            spec_size(b.type_),
            path[k],
        )) && exists|d: Direction| #[trigger] step_to(path[k + 1], d, path[k])
}

/// The cabin of the crew can take it back with what it carries.
pub open spec fn can_take_back(bs: Seq<EntityEntry<Building>>, c: Crew) -> bool {
    crate::entity::lookup(bs, c.spec_from()) matches Some(b) ==> {
        &&& b.crews < usize::MAX
        &&& b.inventory.wf()
        &&& forall|t: ItemType| count_of(b.inventory@, t) + count_of(c.spec_inventory()@, t) <= usize::MAX
    }
}

/// Index of the first site, in slot order, that a crew may be sent to build.
fn find_buildable(constructions: &EntitySet<Construction>, crews: &EntitySet<Crew>) -> (r: Option<usize>)
    requires
        sites_ok(constructions.slots()),
        recipes_ok(constructions.slots()),
    ensures
        match r {
            Some(j) => first_buildable(constructions.slots(), crews.slots(), j as int),
            None => forall|j: int| !#[trigger] first_buildable(constructions.slots(), crews.slots(), j),
        },
{
    let ghost s = constructions.slots();
    let n = constructions.num_slots();
    let mut i: usize = 0;
    while i < n
        invariant
            n == s.len(),
            s == constructions.slots(),
            i <= n,
            sites_ok(s),
            recipes_ok(s),
            forall|k: int| 0 <= k < i ==> !(#[trigger] s[k].payload is Occupied && may_build(occupant(s[k]), crews.slots())),
        decreases n - i,
    {
        match constructions.get_at(i) {
            Some(c) => {
                proof {
                    assert(s[i as int].payload is Occupied);
                }
                if !any_crew_builds_at(crews, c.pos()) && c.ingredients_satisfied() {
                    return Some(i);
                }
            },
            None => {},
        }
        i = i + 1;
    }
    proof {
        assert forall|j: int| !#[trigger] first_buildable(s, crews.slots(), j) by {
            if first_buildable(s, crews.slots(), j) {
                assert(!(s[j].payload is Occupied && may_build(occupant(s[j]), crews.slots())));
            }
        }
    }
    None
}

/// A walking path from `start` back to the cabin `b`.
fn home_path(tiles: &Tiles, b: &Building, start: Pos) -> (r: Option<Vec<Pos>>)
    requires
        tiles.wf(),
        crate::building::pos_in_range(b.pos),
    ensures
        r matches Some(path) ==> home_path_ok(*tiles, *b, start, path@),
{
    let goal = b.pos;
    let pass = |p: Pos| -> (r: bool)
        requires
            tiles.wf(),
            crate::building::pos_in_range(b.pos),
        ensures
            r == (tiles.spec_tile_at(p).state == TileState::Empty || rect_contains(b.pos, spec_size(b.type_), p)),
        { tiles.index(p).state == TileState::Empty || b.intersects(p) };
    let r = find_path(start, goal, pass);
    proof {
        if let Some(ref path) = r {
            assert forall|k: int| 0 <= k < path@.len() - 1 implies (tiles.spec_tile_at(#[trigger] path@[k]).state
                == TileState::Empty || rect_contains(b.pos, spec_size(b.type_), path@[k])) && exists|d: Direction|
                #[trigger] step_to(path@[k + 1], d, path@[k]) by {
                assert(call_ensures(pass, (path@[k],), true));
            }
        }
    }
    r
}

impl Crew {
    /// What an idle crew does next: it goes to build the first site, in slot order, that it may
    /// be sent to build, if it can walk there; else, if its cabin still exists, it goes back in
    /// when it stands on the cabin, or walks back to it, or, with no way back, waits ten
    /// ticks. Tells whether the crew stays out.
    pub fn process_idle(
        &mut self,
        crews: &EntitySet<Crew>,
        tiles: &Tiles,
        constructions: &EntitySet<Construction>,
        buildings: &mut EntitySet<Building>,
    ) -> (r: bool)
        requires
            tiles.wf(),
            sites_ok(constructions.slots()),
            recipes_ok(constructions.slots()),
            buildings_ok(old(buildings).slots()),
            old(self).spec_inventory().wf(),
            can_take_back(old(buildings).slots(), *old(self)),
        ensures
            final(self).spec_pos() == old(self).spec_pos(),
            final(self).spec_from() == old(self).spec_from(),
            final(self).spec_inventory() == old(self).spec_inventory(),
            ({
                let home = old(buildings).spec_get(old(self).spec_from());
                let sent = exists|j: int| #[trigger] first_buildable(constructions.slots(), crews.slots(), j) && {
                    let site = occupant(constructions.slots()[j]).spec_pos();
                    &&& final(self).spec_task() == CrewTask::Build(site)
                    &&& final(self).spec_path() matches Some(path) && crew_path_ok(*tiles, old(self).spec_pos(), site, path@)
                };
                ||| sent && r && final(buildings).slots() == old(buildings).slots()
                ||| home is None && r && *final(self) == *old(self) && final(buildings).slots() == old(buildings).slots()
                ||| home matches Some(b) && {
                    let inside = rect_contains(b.pos, spec_size(b.type_), old(self).spec_pos());
                    ||| inside && !r && *final(self) == *old(self) && {
                        let id = old(self).spec_from();
                        let b2 = final(buildings).spec_get(id)->Some_0;
                        &&& final(buildings).slots() == old(buildings).slots().update(
                            id.index() as int,
                            EntityEntry { gen: id.generation(), payload: EntryPayload::Occupied(b2) },
                        )
                        &&& b2 == Building { crews: (b.crews + 1) as usize, inventory: b2.inventory, ..b }
                        &&& b2.inventory.wf()
                        &&& b2.inventory@ == merged(b.inventory@, old(self).spec_inventory()@)
                    }
                    ||| !inside && r && final(buildings).slots() == old(buildings).slots() && {
                        ||| final(self).spec_task() == CrewTask::Return && (final(self).spec_path() matches Some(path)
                            && home_path_ok(*tiles, b, old(self).spec_pos(), path@))
                        ||| final(self).spec_task() == CrewTask::Idle(10) && final(self).spec_path() == old(self).spec_path()
                    }
                }
            }),
            final(buildings).free_head() == old(buildings).free_head(),
            buildings_ok(final(buildings).slots()),
    {
        match find_buildable(constructions, crews) {
            Some(j) => {
                let dest = constructions.get_at(j).unwrap().pos();
                match crew_path(tiles, self.pos, dest) {
                    Some(path) => {
                        self.task = CrewTask::Build(dest);
                        self.path = Some(path);
                        return true;
                    },
                    None => {},
                }
            },
            None => {},
        }
        let (home_pos, inside) = match buildings.get(self.from) {
            Some(b) => {
                proof {
                    assert(buildings.slots()[self.from.index() as int].payload is Occupied);
                }
                (b.pos, b.intersects(self.pos))
            },
            None => {
                return true;
            },
        };
        if inside {
            return self.try_return(buildings);
        }
        let b = buildings.get(self.from).unwrap();
        proof {
            assert(buildings.slots()[self.from.index() as int].payload is Occupied);
        }
        match home_path(tiles, b, self.pos) {
            Some(path) => {
                self.task = CrewTask::Return;
                self.path = Some(path);
                return true;
            },
            None => {},
        }
        self.task = CrewTask::Idle(10);
        true
    }
}


/// The item a pickup takes from an inventory: the one asked for, or else the first item type
/// the inventory has an entry for.
pub open spec fn picked_item(inv: Inventory, item: Option<ItemType>) -> Option<ItemType> {
    match item {
        Some(t) => Some(t),
        None => if inv.spec_countable().entries().len() > 0 {
            Some(inv.spec_countable().entries()[0].0)
        } else {
            None
        },
    }
}

/// `after` is `before` with one `t` taken away, the entry going when none is left.
pub open spec fn one_taken(before: Map<ItemType, usize>, after: Map<ItemType, usize>, t: ItemType) -> bool {
    after == if before[t] == 1 {
        before.remove(t)
    } else {
        before.insert(t, (before[t] - 1) as usize)
    }
}

/// `after` is `before` with one more `t`.
pub open spec fn one_added(before: Map<ItemType, usize>, after: Map<ItemType, usize>, t: ItemType) -> bool {
    after == before.insert(t, (count_of(before, t) + 1) as usize)
}

/// A pick of one item from the inventory `inv0` (it becomes `inv1`) into a crew's load `c0`
/// (it becomes `c1`), with the item picked as `r`: the picked item type is taken when the
/// inventory has some, and nothing happens otherwise.
pub open spec fn picked_from(
    inv0: Inventory,
    inv1: Inventory,
    c0: Map<ItemType, usize>,
    c1: Map<ItemType, usize>,
    item: Option<ItemType>,
    r: Option<ItemType>,
) -> bool {
    if picked_item(inv0, item) is Some && count_of(inv0@, picked_item(inv0, item)->Some_0) > 0 {
        let t = picked_item(inv0, item)->Some_0;
        &&& r == Some(t)
        &&& inv1.wf()
        &&& one_taken(inv0@, inv1@, t)
        &&& one_added(c0, c1, t)
    } else {
        &&& r is None
        &&& inv1 == inv0
        &&& c1 == c0
    }
}

/// What a pick from the inventory takes: the picked item type when the inventory has some.
pub open spec fn pick_result(inv0: Inventory, item: Option<ItemType>) -> Option<ItemType> {
    if picked_item(inv0, item) is Some && count_of(inv0@, picked_item(inv0, item)->Some_0) > 0 {
        picked_item(inv0, item)
    } else {
        None
    }
}

/// No count of the load is at its limit, so one more of anything fits.
pub open spec fn load_has_room(c: Map<ItemType, usize>) -> bool {
    forall|t: ItemType| #[trigger] count_of(c, t) < usize::MAX
}

/// Takes one item (the one asked for, or the first the inventory has) from `inv` into the
/// crew's load, if `inv` has some.
fn take_one(load: &mut Inventory, inv: &mut Inventory, item: Option<ItemType>) -> (r: Option<ItemType>)
    requires
        old(load).wf(),
        old(inv).wf(),
        load_has_room(old(load)@),
    ensures
        final(load).wf(),
        picked_from(*old(inv), *final(inv), old(load)@, final(load)@, item, r),
{
    let t = match item {
        Some(t) => t,
        None => {
            let keys = inv.keys();
            if keys.len() == 0 {
                return None;
            }
            keys[0]
        },
    };
    let n = inv.get(&t);
    if n == 0 {
        return None;
    }
    if n == 1 {
        inv.remove(&t);
    } else {
        inv.insert(t, n - 1);
    }
    let c = load.get(&t);
    proof {
        assert(count_of(load@, t) < usize::MAX);
    }
    load.insert(t, c + 1);
    Some(t)
}

/// The site in this slot stands at `src` and its ingredients may be picked up: it is not
/// being deconstructed, or its work is all undone.
pub open spec fn site_pickable(e: EntityEntry<Construction>, src: Pos) -> bool {
    &&& e.payload is Occupied
    &&& e.payload->Occupied_0.spec_pos() == src
    &&& (!e.payload->Occupied_0.spec_canceling() || e.payload->Occupied_0.spec_progress() == 0)
}

/// Slot `j` holds the first site, in slot order, that items may be picked up from at `src`.
pub open spec fn first_pickable_site(s: Seq<EntityEntry<Construction>>, src: Pos, j: int) -> bool {
    &&& 0 <= j < s.len()
    &&& site_pickable(s[j], src)
    &&& forall|i: int| 0 <= i < j ==> !#[trigger] site_pickable(s[i], src)
}

/// The transport in this slot ends at `src`.
pub open spec fn ends_at(e: EntityEntry<Transport>, src: Pos) -> bool {
    e.payload is Occupied && e.payload->Occupied_0.path@.len() > 0 && e.payload->Occupied_0.path@.last() == src
}

/// Slot `k` holds the first transport, in slot order, that ends at `src`.
pub open spec fn first_ending(s: Seq<EntityEntry<Transport>>, src: Pos, k: int) -> bool {
    &&& 0 <= k < s.len()
    &&& ends_at(s[k], src)
    &&& forall|i: int| 0 <= i < k ==> !#[trigger] ends_at(s[i], src)
}

/// A pick from the first building covering `src`, if any.
pub open spec fn building_pick(
    bs0: Seq<EntityEntry<Building>>,
    bs1: Seq<EntityEntry<Building>>,
    c0: Map<ItemType, usize>,
    c1: Map<ItemType, usize>,
    src: Pos,
    item: Option<ItemType>,
) -> bool {
    ||| bs1 == bs0 && c1 == c0
    ||| exists|j: int|
        #[trigger] first_at(bs0, src, j) && {
            let inv1 = occupant(bs1[j]).inventory;
            &&& picked_from(occupant(bs0[j]).inventory, inv1, c0, c1, item, pick_result(occupant(bs0[j]).inventory, item))
            &&& bs1 == bs0.update(
                j,
                EntityEntry { gen: bs0[j].gen, payload: EntryPayload::Occupied(Building { inventory: inv1, ..occupant(bs0[j]) }) },
            )
        }
}

/// A pick from the ingredients of the first site at `src` that allows it, if any.
pub open spec fn site_pick(
    ss0: Seq<EntityEntry<Construction>>,
    ss1: Seq<EntityEntry<Construction>>,
    c0: Map<ItemType, usize>,
    c1: Map<ItemType, usize>,
    src: Pos,
    item: Option<ItemType>,
) -> bool {
    ||| ss1 == ss0 && c1 == c0
    ||| exists|j: int|
        #[trigger] first_pickable_site(ss0, src, j) && {
            let site0 = occupant(ss0[j]);
            let site1 = occupant(ss1[j]);
            &&& picked_from(site0.spec_ingredients(), site1.spec_ingredients(), c0, c1, item, pick_result(site0.spec_ingredients(), item))
            &&& site1.spec_type() == site0.spec_type()
            &&& site1.spec_pos() == site0.spec_pos()
            &&& site1.spec_recipe() == site0.spec_recipe()
            &&& site1.spec_canceling() == site0.spec_canceling()
            &&& site1.spec_progress() == site0.spec_progress()
            &&& site1.expected() == site0.expected()
            &&& ss1 == ss0.update(j, EntityEntry { gen: ss0[j].gen, payload: EntryPayload::Occupied(site1) })
        }
}

/// A pick from the first transport ending at `src`, if any: one of its items, when it carries
/// any, goes into the load; a transport left with nothing is removed.
pub open spec fn transport_pick(
    ts0: Seq<EntityEntry<Transport>>,
    ts1: Seq<EntityEntry<Transport>>,
    c0: Map<ItemType, usize>,
    c1: Map<ItemType, usize>,
    src: Pos,
) -> bool {
    ||| ts1 == ts0 && c1 == c0
    ||| exists|k: int|
        #[trigger] first_ending(ts0, src, k) && {
            let t = occupant(ts0[k]);
            let left = if t.amount > 0 { t.amount - 1 } else { 0 };
            &&& c1 == (if t.amount > 0 { c0.insert(t.item, (count_of(c0, t.item) + 1) as usize) } else { c0 })
            &&& ts1 == ts0.update(k, if left == 0 {
                EntityEntry { gen: ts0[k].gen, payload: EntryPayload::<Transport>::Free(None) }
            } else {
                EntityEntry { gen: ts0[k].gen, payload: EntryPayload::Occupied(Transport { amount: left as usize, ..t }) }
            })
        }
}

/// The index of the first site, in slot order, that items may be picked up from at `src`.
fn find_pickable_site(constructions: &EntitySet<Construction>, src: Pos) -> (r: Option<usize>)
    ensures
        r matches Some(j) ==> first_pickable_site(constructions.slots(), src, j as int),
        r is None ==> forall|k: int| 0 <= k < constructions.slots().len() ==> !#[trigger] site_pickable(constructions.slots()[k], src),
{
    let ghost s = constructions.slots();
    let n = constructions.num_slots();
    let mut i: usize = 0;
    while i < n
        invariant
            n == s.len(),
            s == constructions.slots(),
            i <= n,
            forall|k: int| 0 <= k < i ==> !#[trigger] site_pickable(s[k], src),
        decreases n - i,
    {
        match constructions.get_at(i) {
            Some(c) => {
                if pos_eq(c.pos(), src) && (!c.canceling() || c.progress() == 0) {
                    return Some(i);
                }
            },
            None => {},
        }
        i = i + 1;
    }
    None
}

/// The index of the first transport, in slot order, that ends at `src`.
fn find_ending(transports: &EntitySet<Transport>, src: Pos) -> (r: Option<usize>)
    ensures
        r matches Some(k) ==> first_ending(transports.slots(), src, k as int),
        r is None ==> forall|k: int| 0 <= k < transports.slots().len() ==> !#[trigger] ends_at(transports.slots()[k], src),
{
    let ghost s = transports.slots();
    let n = transports.num_slots();
    let mut i: usize = 0;
    while i < n
        invariant
            n == s.len(),
            s == transports.slots(),
            i <= n,
            forall|k: int| 0 <= k < i ==> !#[trigger] ends_at(s[k], src),
        decreases n - i,
    {
        match transports.get_at(i) {
            Some(t) => {
                let len = t.path.len();
                if len > 0 && pos_eq(t.path[len - 1], src) {
                    return Some(i);
                }
            },
            None => {},
        }
        i = i + 1;
    }
    None
}

impl Crew {
    /// One tick of a pickup at `src` for `dest`: the crew picks one item (the one asked for,
    /// or else the first the source has) from the first building covering `src`, else from
    /// the first site there that allows it, else one of the items of the first transport
    /// ending there, and heads for `dest` to deliver it once a walking path leads there; a
    /// source is tried only while no earlier one set the crew off. With nothing picked up or
    /// no path, the crew is done.
    #[verifier::rlimit(40)]
    pub fn process_pickup_task(
        &mut self,
        item: Option<ItemType>,
        src: Pos,
        dest: Pos,
        tiles: &Tiles,
        buildings: &mut EntitySet<Building>,
        constructions: &mut EntitySet<Construction>,
        transports: &mut EntitySet<Transport>,
    )
        requires
            tiles.wf(),
            buildings_ok(old(buildings).slots()),
            sites_ok(old(constructions).slots()),
            old(self).spec_inventory().wf(),
            forall|t: ItemType| #[trigger] count_of(old(self).spec_inventory()@, t) + 3 <= usize::MAX,
        ensures
            final(self).spec_pos() == old(self).spec_pos(),
            final(self).spec_from() == old(self).spec_from(),
            final(self).spec_inventory().wf(),
            buildings_ok(final(buildings).slots()),
            sites_ok(final(constructions).slots()),
            recipes_ok(old(constructions).slots()) ==> recipes_ok(final(constructions).slots()),
            exists|c1: Map<ItemType, usize>, c2: Map<ItemType, usize>|
                #![trigger building_pick(old(buildings).slots(), final(buildings).slots(), old(self).spec_inventory()@, c1, src, item), site_pick(old(constructions).slots(), final(constructions).slots(), c1, c2, src, item)]
                building_pick(old(buildings).slots(), final(buildings).slots(), old(self).spec_inventory()@, c1, src, item)
                    && site_pick(old(constructions).slots(), final(constructions).slots(), c1, c2, src, item) && transport_pick(
                    old(transports).slots(),
                    final(transports).slots(),
                    c2,
                    final(self).spec_inventory()@,
                    src,
                ),
            ({
                ||| (final(self).spec_task() matches CrewTask::Deliver { dst, .. } && dst == dest && (final(self).spec_path() matches Some(path)
                    && crew_path_ok(*tiles, old(self).spec_pos(), dest, path@)))
                ||| (final(self).spec_task() == CrewTask::Unassigned && final(self).spec_path() == old(self).spec_path())
            }),
            final(buildings).free_head() == old(buildings).free_head(),
            final(constructions).free_head() == old(constructions).free_head(),
            final(transports).free_head() == old(transports).free_head(),
    {
        let ghost c0 = self.inventory@;
        let ghost bs0 = buildings.slots();
        let ghost ss0 = constructions.slots();
        let ghost ts0 = transports.slots();
        // from the first building covering the source
        match find_building_at(buildings, src) {
            Some(j) => {
                let ghost b0 = occupant(bs0[j as int]);
                let b = buildings.get_mut_at(j).unwrap();
                let picked = take_one(&mut self.inventory, &mut b.inventory, item);
                proof {
                    assert(buildings_ok(buildings.slots())) by {
                        assert forall|m: int| 0 <= m < buildings.slots().len() && #[trigger] buildings.slots()[m].payload is Occupied
                            implies occupant(buildings.slots()[m]).inventory.wf() && pos_in_range(occupant(buildings.slots()[m]).pos) by {
                            if m != j {
                                assert(buildings.slots()[m] == bs0[m]);
                            }
                        }
                    }
                    let inv1 = occupant(buildings.slots()[j as int]).inventory;
                    assert(occupant(buildings.slots()[j as int]) == Building { inventory: inv1, ..b0 });
                    assert(building_pick(bs0, buildings.slots(), c0, self.inventory@, src, item));
                }
                match picked {
                    Some(t) => {
                        match crew_path(tiles, self.pos, dest) {
                            Some(path) => {
                                self.path = Some(path);
                                self.task = CrewTask::Deliver { dst: dest, item: t };
                                proof {
                                    assert(site_pick(ss0, constructions.slots(), self.inventory@, self.inventory@, src, item));
                                    assert(transport_pick(ts0, transports.slots(), self.inventory@, self.inventory@, src));
                                }
                                return;
                            },
                            None => {},
                        }
                    },
                    None => {},
                }
            },
            None => {
                proof {
                    assert(building_pick(bs0, buildings.slots(), c0, self.inventory@, src, item));
                }
            },
        }
        let ghost c1 = self.inventory@;
        proof {
            assert forall|t: ItemType| #[trigger] count_of(self.inventory@, t) < usize::MAX by {
                assert(count_of(c0, t) + 3 <= usize::MAX);
            }
        }
        // from the first site at the source that allows it
        match find_pickable_site(constructions, src) {
            Some(j) => {
                let ghost site0 = occupant(ss0[j as int]);
                let site = constructions.get_mut_at(j).unwrap();
                proof {
                    assert(ss0[j as int].payload is Occupied);
                }
                let picked = take_one(&mut self.inventory, site.inventory(), item);
                proof {
                    let site1 = occupant(constructions.slots()[j as int]);
                    assert(site_pick(ss0, constructions.slots(), c1, self.inventory@, src, item));
                }
                match picked {
                    Some(t) => {
                        match crew_path(tiles, self.pos, dest) {
                            Some(path) => {
                                self.path = Some(path);
                                self.task = CrewTask::Deliver { dst: dest, item: t };
                                proof {
                                    assert(transport_pick(ts0, transports.slots(), self.inventory@, self.inventory@, src));
                                }
                                return;
                            },
                            None => {},
                        }
                    },
                    None => {},
                }
            },
            None => {
                proof {
                    assert(site_pick(ss0, constructions.slots(), c1, self.inventory@, src, item));
                }
            },
        }
        let ghost c2 = self.inventory@;
        proof {
            assert forall|t: ItemType| #[trigger] count_of(self.inventory@, t) < usize::MAX by {
                assert(count_of(c0, t) + 3 <= usize::MAX);
            }
        }
        // from the first transport ending at the source
        match find_ending(transports, src) {
            Some(k) => {
                let ghost t0 = occupant(ts0[k as int]);
                proof {
                    assert(ts0[k as int].payload is Occupied);
                    assert(count_of(self.inventory@, t0.item) < usize::MAX);
                }
                let tr = transports.get_mut_at(k).unwrap();
                let t_item = tr.item;
                if tr.amount > 0 {
                    tr.amount = tr.amount - 1;
                    let c = self.inventory.get(&t_item);
                    self.inventory.insert(t_item, c + 1);
                }
                let left = tr.amount;
                if left == 0 {
                    transports.remove_at(k);
                }
                proof {
                    let l: int = if t0.amount > 0 { t0.amount - 1 } else { 0 };
                    assert(left == l);
                    if l != 0 {
                        assert(occupant(transports.slots()[k as int]) == Transport { amount: l as usize, ..t0 });
                    }
                    assert(transports.slots() =~= ts0.update(k as int, if l == 0 {
                        EntityEntry { gen: ts0[k as int].gen, payload: EntryPayload::<Transport>::Free(None) }
                    } else {
                        EntityEntry { gen: ts0[k as int].gen, payload: EntryPayload::Occupied(Transport { amount: l as usize, ..t0 }) }
                    }));
                    assert(transport_pick(ts0, transports.slots(), c2, self.inventory@, src));
                }
                match crew_path(tiles, self.pos, dest) {
                    Some(path) => {
                        self.path = Some(path);
                        self.task = CrewTask::Deliver { dst: dest, item: t_item };
                        return;
                    },
                    None => {},
                }
            },
            None => {
                proof {
                    assert(transport_pick(ts0, transports.slots(), c2, self.inventory@, src));
                }
            },
        }
        self.task = CrewTask::Unassigned;
    }
}


/// `c1` is `c0` with the given position, way and task: same cabin, same load.
pub open spec fn crew_with(c0: Crew, c1: Crew, pos: Pos, path: Option<Seq<Pos>>, task: CrewTask) -> bool {
    &&& c1.spec_pos() == pos
    &&& match (c1.spec_path(), path) {
        (Some(q), Some(w)) => q@ == w,
        (None, None) => true,
        _ => false,
    }
    &&& c1.spec_from() == c0.spec_from()
    &&& c1.spec_task() == task
    &&& c1.spec_inventory() == c0.spec_inventory()
}

/// Whether a tick leaves the crew out whatever the world holds: it is on its way (and not at
/// the end of a way home) or it waits.
pub open spec fn walks_or_waits(c: Crew) -> bool {
    match c.spec_path() {
        Some(p) => p@.len() > 1 || !(c.spec_task() is Return),
        None => c.spec_task() is Idle,
    }
}

/// What a tick does to a crew that stays out, as far as it does not depend on the world: on a
/// way of more than one position the crew steps onto the next one, which leaves the way; at
/// the end of its way it stops there; a waiting crew counts down its wait and then looks for
/// work. Other work is left open here.
pub open spec fn crew_ticked(c0: Crew, c1: Crew) -> bool {
    match c0.spec_path() {
        Some(p) => if p@.len() > 1 {
            crew_with(c0, c1, p@.last(), Some(p@.drop_last()), c0.spec_task())
        } else {
            crew_with(c0, c1, c0.spec_pos(), None, c0.spec_task())
        },
        None => match c0.spec_task() {
            CrewTask::Idle(t) => crew_with(
                c0,
                c1,
                c0.spec_pos(),
                None,
                if t == 0 { CrewTask::Unassigned } else { CrewTask::Idle((t - 1) as usize) },
            ),
            _ => true,
        },
    }
}

/// A tick of a crew building at `p`, with no way left to walk, from sites `s0` to `s1` and
/// crew `c0` to `c1`: the first site at `p` with work left (left to undo, when canceling)
/// gains one step of progress (loses one, when canceling), nothing else of it or the other
/// sites changing, and the crew stays assigned until that work is finished; with no such
/// site the sites stay as they are and the crew is unassigned. The crew stays where it is.
pub open spec fn built_one_tick(
    s0: Seq<EntityEntry<Construction>>,
    s1: Seq<EntityEntry<Construction>>,
    p: Pos,
    c0: Crew,
    c1: Crew,
) -> bool {
    &&& c1.spec_pos() == c0.spec_pos()
    &&& c1.spec_path() == c0.spec_path()
    &&& c1.spec_inventory() == c0.spec_inventory()
    &&& (forall|j: int| !#[trigger] first_worked(s0, p, j)) ==> s1 == s0 && c1.spec_task() == CrewTask::Unassigned
    &&& forall|j: int| #[trigger] first_worked(s0, p, j) ==> {
        let c = s0[j].payload->Occupied_0;
        let np: int = if c.spec_canceling() { c.spec_progress() - 1 } else { c.spec_progress() + 1 };
        &&& s1.len() == s0.len()
        &&& forall|i: int| 0 <= i < s0.len() && i != j ==> #[trigger] s1[i] == s0[i]
        &&& s1[j].gen == s0[j].gen
        &&& s1[j].payload is Occupied
        &&& s1[j].payload->Occupied_0.spec_progress() == np
        &&& s1[j].payload->Occupied_0.spec_pos() == c.spec_pos()
        &&& s1[j].payload->Occupied_0.spec_type() == c.spec_type()
        &&& s1[j].payload->Occupied_0.spec_recipe() == c.spec_recipe()
        &&& s1[j].payload->Occupied_0.spec_canceling() == c.spec_canceling()
        &&& s1[j].payload->Occupied_0.spec_ingredients() == c.spec_ingredients()
        &&& c1.spec_task() == if (c.spec_canceling() && np == 0) || (!c.spec_canceling() && c.spec_recipe().time <= np) {
            CrewTask::Unassigned
        } else {
            CrewTask::Build(p)
        }
    }
}

/// Every crew of the slots carries a well formed load.
pub open spec fn crews_ok(s: Seq<EntityEntry<Crew>>) -> bool {
    forall|i: int| 0 <= i < s.len() && #[trigger] s[i].payload is Occupied ==> occupant(s[i]).spec_inventory().wf()
}

/// Whether one more of `n` of every item the load has fits its counts.
fn load_fits(load: &Inventory, n: usize) -> (r: bool)
    requires
        load.wf(),
    ensures
        r == forall|t: ItemType| #[trigger] count_of(load@, t) + n <= usize::MAX,
{
    let ents = load.iter();
    proof {
        lemma_inventory_parts(*load);
        lemma_entries_of_view(load.spec_countable());
    }
    let mut i: usize = 0;
    while i < ents.len()
        invariant
            i <= ents@.len(),
            ents@ == load.spec_countable().entries(),
            load@ == load.spec_countable()@,
            forall|k: int| 0 <= k < ents@.len() ==> #[trigger] load@[ents@[k].0] == ents@[k].1,
            forall|t: ItemType| #[trigger] load@.contains_key(t) <==> exists|k: int| 0 <= k < ents@.len() && ents@[k].0 == t,
            forall|k: int| 0 <= k < i ==> #[trigger] ents@[k].1 + n <= usize::MAX,
        decreases ents@.len() - i,
    {
        if ents[i].1 > usize::MAX - n {
            proof {
                assert(count_of(load@, ents@[i as int].0) + n > usize::MAX);
            }
            return false;
        }
        i = i + 1;
    }
    proof {
        assert forall|t: ItemType| #[trigger] count_of(load@, t) + n <= usize::MAX by {
            if load@.contains_key(t) {
                let k = choose|k: int| 0 <= k < ents@.len() && ents@[k].0 == t;
            }
        }
    }
    true
}

/// Whether the cabin of the crew, if it still exists, can take it back with its load.
fn take_back_fits(buildings: &EntitySet<Building>, crew: &Crew) -> (r: bool)
    requires
        buildings_ok(buildings.slots()),
        crew.spec_inventory().wf(),
    ensures
        r == can_take_back(buildings.slots(), *crew),
{
    let b = match buildings.get(crew.from) {
        Some(b) => b,
        None => {
            return true;
        },
    };
    proof {
        assert(buildings.slots()[crew.from.index() as int].payload is Occupied);
    }
    proof {
        assert(crate::entity::lookup(buildings.slots(), crew.spec_from()) == Some(*b));
    }
    if b.crews == usize::MAX {
        return false;
    }
    let ents = crew.inventory.iter();
    let ghost load = crew.inventory@;
    proof {
        lemma_inventory_parts(crew.inventory);
        lemma_entries_of_view(crew.inventory.spec_countable());
    }
    let mut i: usize = 0;
    while i < ents.len()
        invariant
            i <= ents@.len(),
            ents@ == crew.inventory.spec_countable().entries(),
            load == crew.inventory@,
            b.inventory.wf(),
            crate::entity::lookup(buildings.slots(), crew.spec_from()) == Some(*b),
            forall|k: int| 0 <= k < ents@.len() ==> #[trigger] load[ents@[k].0] == ents@[k].1,
            forall|t: ItemType| #[trigger] load.contains_key(t) <==> exists|k: int| 0 <= k < ents@.len() && ents@[k].0 == t,
            forall|k: int| 0 <= k < i ==> count_of(b.inventory@, #[trigger] ents@[k].0) + ents@[k].1 <= usize::MAX,
        decreases ents@.len() - i,
    {
        let (t, n) = ents[i];
        if b.inventory.get(&t) > usize::MAX - n {
            proof {
                assert(count_of(b.inventory@, t) + count_of(load, t) > usize::MAX);
            }
            return false;
        }
        i = i + 1;
    }
    proof {
        assert forall|t: ItemType| count_of(b.inventory@, t) + count_of(load, t) <= usize::MAX by {
            if load.contains_key(t) {
                let k = choose|k: int| 0 <= k < ents@.len() && ents@[k].0 == t;
            }
        }
    }
    true
}

/// Whether what the crew carries of `item` fits onto every site and into every building.
fn deliver_fits(
    constructions: &EntitySet<Construction>,
    buildings: &EntitySet<Building>,
    crew: &Crew,
    item: ItemType,
) -> (r: bool)
    requires
        crew.spec_inventory().wf(),
        sites_ok(constructions.slots()),
        buildings_ok(buildings.slots()),
    ensures
        r == ((forall|i: int|
            0 <= i < constructions.slots().len() && #[trigger] constructions.slots()[i].payload is Occupied
                ==> count_of(constructions.slots()[i].payload->Occupied_0.spec_ingredients()@, item)
                + count_of(crew.spec_inventory()@, item) <= usize::MAX) && (forall|i: int|
            0 <= i < buildings.slots().len() && #[trigger] buildings.slots()[i].payload is Occupied
                ==> count_of(occupant(buildings.slots()[i]).inventory@, item) + count_of(crew.spec_inventory()@, item)
                <= usize::MAX)),
{
    let n = crew.inventory.get(&item);
    let ns = constructions.num_slots();
    let mut i: usize = 0;
    while i < ns
        invariant
            ns == constructions.slots().len(),
            i <= ns,
            sites_ok(constructions.slots()),
            n == count_of(crew.spec_inventory()@, item),
            forall|k: int|
                0 <= k < i && #[trigger] constructions.slots()[k].payload is Occupied
                    ==> count_of(constructions.slots()[k].payload->Occupied_0.spec_ingredients()@, item) + n <= usize::MAX,
        decreases ns - i,
    {
        match constructions.get_at(i) {
            Some(c) => {
                proof {
                    assert(constructions.slots()[i as int].payload is Occupied);
                }
                let have = c.ingredients().get(&item);
                if have > usize::MAX - n {
                    proof {
                        assert(constructions.slots()[i as int].payload is Occupied);
                    }
                    return false;
                }
            },
            None => {},
        }
        i = i + 1;
    }
    let nb = buildings.num_slots();
    let mut j: usize = 0;
    while j < nb
        invariant
            nb == buildings.slots().len(),
            j <= nb,
            buildings_ok(buildings.slots()),
            n == count_of(crew.spec_inventory()@, item),
            forall|k: int|
                0 <= k < constructions.slots().len() && #[trigger] constructions.slots()[k].payload is Occupied
                    ==> count_of(constructions.slots()[k].payload->Occupied_0.spec_ingredients()@, item) + n <= usize::MAX,
            forall|k: int|
                0 <= k < j && #[trigger] buildings.slots()[k].payload is Occupied
                    ==> count_of(occupant(buildings.slots()[k]).inventory@, item) + n <= usize::MAX,
        decreases nb - j,
    {
        match buildings.get_at(j) {
            Some(b) => {
                proof {
                    assert(buildings.slots()[j as int].payload is Occupied);
                }
                if b.inventory.get(&item) > usize::MAX - n {
                    proof {
                        assert(buildings.slots()[j as int].payload is Occupied);
                    }
                    return false;
                }
            },
            None => {},
        }
        j = j + 1;
    }
    true
}

impl AsteroidColoniesGame {
    /// One tick of a crew taken out of the crew set: a crew on its way takes one step (and
    /// goes back into its cabin when a way home ends); otherwise it works on its task: it
    /// digs for an excavation with `dig` (which says what is left of the work and how many
    /// raw ores come out, or None when the work is done), builds, picks up, delivers, looks for
    /// work, or waits. Tells whether the crew stays out. A step that would overflow a count is
    /// skipped.
    fn crew_tick<D: Fn(FloatBits) -> Option<(FloatBits, usize)>>(&mut self, crew: &mut Crew, dig: &D) -> (r: bool)
        requires
            old(self).tiles.wf(),
            buildings_ok(old(self).buildings.slots()),
            sites_ok(old(self).constructions.slots()),
            recipes_ok(old(self).constructions.slots()),
            old(crew).spec_inventory().wf(),
            forall|t: FloatBits| call_requires(*dig, (t,)),
        ensures
            buildings_ok(final(self).buildings.slots()),
            sites_ok(final(self).constructions.slots()),
            recipes_ok(final(self).constructions.slots()),
            final(crew).spec_inventory().wf(),
            final(self).tiles == old(self).tiles,
            final(self).crews == old(self).crews,
            r ==> crew_ticked(*old(crew), *final(crew)),
            walks_or_waits(*old(crew)) ==> r && *final(self) == *old(self),
            old(crew).spec_path() is None ==> (old(crew).spec_task() matches CrewTask::Build(p) ==> built_one_tick(
                old(self).constructions.slots(),
                final(self).constructions.slots(),
                p,
                *old(crew),
                *final(crew),
            ) && r && final(self).buildings == old(self).buildings && final(self).transports == old(self).transports
                && final(self).global_tasks == old(self).global_tasks),
    {
        if crew.path.is_some() {
            let mut path = crew.path.take().unwrap();
            if path.len() <= 1 {
                crew.path = None;
                if matches!(crew.task, CrewTask::Return) {
                    if take_back_fits(&self.buildings, crew) {
                        return crew.try_return(&mut self.buildings);
                    }
                }
            } else {
                crew.pos = path.pop().unwrap();
                crew.path = Some(path);
            }
            return true;
        }
        match crew.task {
            CrewTask::Excavate(gt_id) => {
                match self.global_tasks.get_mut(gt_id) {
                    Some(GlobalTask::Excavate(t, _)) => {
                        match dig(*t) {
                            Some((left, ores)) => {
                                *t = left;
                                let have = crew.inventory.get(&ItemType::RawOre);
                                if ores > 0 && have <= usize::MAX - ores {
                                    crew.inventory.insert(ItemType::RawOre, have + ores);
                                }
                                if crew.inventory.is_empty() {
                                    return true;
                                }
                            },
                            None => {},
                        }
                    },
                    _ => {},
                }
                crew.task = CrewTask::Unassigned;
            },
            CrewTask::Build(ct_pos) => {
                let ghost s0 = self.constructions.slots();
                let ghost c0 = *crew;
                crew.process_build_task(&mut self.constructions, ct_pos);
                proof {
                    let s1 = self.constructions.slots();
                    assert forall|j: int| #[trigger] first_worked(s0, ct_pos, j) implies {
                        let c = s0[j].payload->Occupied_0;
                        let np: int = if c.spec_canceling() { c.spec_progress() - 1 } else { c.spec_progress() + 1 };
                        &&& s1.len() == s0.len()
                        &&& forall|i: int| 0 <= i < s0.len() && i != j ==> #[trigger] s1[i] == s0[i]
                        &&& s1[j].gen == s0[j].gen
                        &&& s1[j].payload is Occupied
                        &&& s1[j].payload->Occupied_0.spec_progress() == np
                        &&& s1[j].payload->Occupied_0.spec_pos() == c.spec_pos()
                        &&& s1[j].payload->Occupied_0.spec_type() == c.spec_type()
                        &&& s1[j].payload->Occupied_0.spec_recipe() == c.spec_recipe()
                        &&& s1[j].payload->Occupied_0.spec_canceling() == c.spec_canceling()
                        &&& s1[j].payload->Occupied_0.spec_ingredients() == c.spec_ingredients()
                        &&& crew.spec_task() == if (c.spec_canceling() && np == 0) || (!c.spec_canceling() && c.spec_recipe().time
                            <= np) {
                            CrewTask::Unassigned
                        } else {
                            CrewTask::Build(ct_pos)
                        }
                    } by {
                        let c = s0[j].payload->Occupied_0;
                        crate::construction::lemma_with_progress(c, worked_progress(c));
                        assert(works_on(c, ct_pos));
                        assert(s1[j].payload->Occupied_0 == with_progress(c, worked_progress(c)));
                    }
                    assert(built_one_tick(s0, s1, ct_pos, c0, *crew));
                }
            },
            CrewTask::Pickup { src, dest, item } => {
                if load_fits(&crew.inventory, 3) {
                    crew.process_pickup_task(
                        item,
                        src,
                        dest,
                        &self.tiles,
                        &mut self.buildings,
                        &mut self.constructions,
                        &mut self.transports,
                    );
                }
            },
            CrewTask::Deliver { dst, item } => {
                if deliver_fits(&self.constructions, &self.buildings, crew, item) {
                    crew.process_deliver_task(item, dst, &mut self.constructions, &mut self.buildings);
                    if matches!(crew.task, CrewTask::Unassigned) && take_back_fits(&self.buildings, crew) {
                        return crew.process_idle(&self.crews, &self.tiles, &self.constructions, &mut self.buildings);
                    }
                }
            },
            CrewTask::Unassigned => {
                if take_back_fits(&self.buildings, crew) {
                    return crew.process_idle(&self.crews, &self.tiles, &self.constructions, &mut self.buildings);
                }
            },
            CrewTask::Idle(t) => {
                if t == 0 {
                    crew.task = CrewTask::Unassigned;
                } else {
                    crew.task = CrewTask::Idle(t - 1);
                }
            },
            CrewTask::Return => {},
        }
        true
    }

    /// One tick of every crew, in slot order (see `crew_tick`); a crew that goes back into its
    /// cabin leaves the crew set, its slot freed the way `retain` frees it.
    pub fn process_crews<D: Fn(FloatBits) -> Option<(FloatBits, usize)>>(&mut self, dig: D)
        requires
            old(self).tiles.wf(),
            buildings_ok(old(self).buildings.slots()),
            sites_ok(old(self).constructions.slots()),
            recipes_ok(old(self).constructions.slots()),
            crews_ok(old(self).crews.slots()),
            forall|t: FloatBits| call_requires(dig, (t,)),
        ensures
            buildings_ok(final(self).buildings.slots()),
            sites_ok(final(self).constructions.slots()),
            recipes_ok(final(self).constructions.slots()),
            crews_ok(final(self).crews.slots()),
            final(self).tiles == old(self).tiles,
            final(self).crews.slots().len() == old(self).crews.slots().len(),
            final(self).crews.free_head() == old(self).crews.free_head(),
            forall|i: int|
                0 <= i < old(self).crews.slots().len() ==> {
                    let e0 = old(self).crews.slots()[i];
                    let e1 = #[trigger] final(self).crews.slots()[i];
                    &&& e1.gen == e0.gen
                    &&& e0.payload is Free ==> e1 == e0
                    &&& e0.payload is Occupied ==> (e1.payload is Occupied || e1.payload == EntryPayload::<Crew>::Free(
                        old(self).crews.free_head(),
                    ))
                    &&& e0.payload is Occupied && e1.payload is Occupied ==> crew_ticked(occupant(e0), occupant(e1))
                    &&& e0.payload is Occupied && walks_or_waits(occupant(e0)) ==> e1.payload is Occupied
                },
    {
        let n = self.crews.num_slots();
        let ghost s0 = self.crews.slots();
        let mut i: usize = 0;
        while i < n
            invariant
                n == s0.len(),
                s0 == old(self).crews.slots(),
                i <= n,
                self.crews.slots().len() == n,
                self.crews.free_head() == old(self).crews.free_head(),
                self.tiles == old(self).tiles,
                self.tiles.wf(),
                buildings_ok(self.buildings.slots()),
                sites_ok(self.constructions.slots()),
                recipes_ok(self.constructions.slots()),
                crews_ok(self.crews.slots()),
                forall|t: FloatBits| call_requires(dig, (t,)),
                forall|k: int| i <= k < n ==> #[trigger] self.crews.slots()[k] == s0[k],
                forall|k: int|
                    0 <= k < i ==> {
                        let e0 = s0[k];
                        let e1 = #[trigger] self.crews.slots()[k];
                        &&& e1.gen == e0.gen
                        &&& e0.payload is Free ==> e1 == e0
                        &&& e0.payload is Occupied ==> (e1.payload is Occupied || e1.payload == EntryPayload::<Crew>::Free(
                            old(self).crews.free_head(),
                        ))
                        &&& e0.payload is Occupied && e1.payload is Occupied ==> crew_ticked(occupant(e0), occupant(e1))
                        &&& e0.payload is Occupied && walks_or_waits(occupant(e0)) ==> e1.payload is Occupied
                    },
            decreases n - i,
        {
            if self.crews.get_at(i).is_some() {
                let ghost before = self.crews.slots();
                let mut crew = self.crews.remove_at(i).unwrap();
                proof {
                    assert(before[i as int].payload is Occupied);
                    assert(crews_ok(self.crews.slots())) by {
                        assert forall|m: int| 0 <= m < self.crews.slots().len() && #[trigger] self.crews.slots()[m].payload is Occupied
                            implies occupant(self.crews.slots()[m]).spec_inventory().wf() by {
                            assert(self.crews.slots()[m] == before[m]);
                        }
                    }
                }
                let stays = self.crew_tick(&mut crew, &dig);
                if stays {
                    self.crews.put_at(i, crew);
                } else {
                    self.crews.drop_at(i);
                }
                proof {
                    let s1 = self.crews.slots();
                    assert forall|m: int| 0 <= m < s1.len() && #[trigger] s1[m].payload is Occupied
                        implies occupant(s1[m]).spec_inventory().wf() by {
                        if m != i {
                            assert(s1[m] == before[m]);
                        }
                    }
                }
            }
            i = i + 1;
        }
    }
}

} // verus!
