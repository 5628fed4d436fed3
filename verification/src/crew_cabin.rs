//! How a crew cabin sends its crews out to construction sites.
use vstd::prelude::*;

use crate::building::{rect_contains, spec_capacity, spec_size, Building};
use crate::construction::{count_of, lacking, Construction};
use crate::crew::{count_keyed, crew_path_ok, delivery_key, spec_target, BuildingId, Crew, CrewTask};
use crate::direction::Direction;
use crate::entity::{occupied_values, EntityEntry, EntitySet};
use crate::inventory::{entries_sum, lemma_total_is_sum};
use crate::items::ItemType;
use crate::push_pull::{buildings_ok, holds_item, in_rect, occupant, same_but_inventory};
use crate::tile::{TileState, Tiles};
use crate::transport::{delivery_total, find_multipath, found_path, pos_eq, Transport};
use crate::Pos;

verus! {

/// The crew in this slot is sent to build the site at `p`.
pub open spec fn builds_at(e: EntityEntry<Crew>, p: Pos) -> bool {
    e.payload is Occupied && spec_target(occupant(e).spec_task()) == Some(p)
}

/// Some crew of the slots is sent to build the site at `p`.
pub open spec fn crew_builds_at(cs: Seq<EntityEntry<Crew>>, p: Pos) -> bool {
    exists|i: int| 0 <= i < cs.len() && #[trigger] builds_at(cs[i], p)
}

/// Whether some crew is sent to build the site at `p`.
pub fn any_crew_builds_at(crews: &EntitySet<Crew>, p: Pos) -> (r: bool)
    ensures
        r == crew_builds_at(crews.slots(), p),
{
    let n = crews.num_slots();
    let mut i: usize = 0;
    while i < n
        invariant
            n == crews.slots().len(),
            i <= n,
            forall|j: int| 0 <= j < i ==> !#[trigger] builds_at(crews.slots()[j], p),
        decreases n - i,
    {
        match crews.get_at(i) {
            Some(c) => {
                match c.target() {
                    Some(t) => {
                        if pos_eq(t, p) {
                            assert(builds_at(crews.slots()[i as int], p));
                            return true;
                        }
                    },
                    None => {},
                }
            },
            None => {},
        }
        i = i + 1;
    }
    false
}

/// The building in this slot has some `ty` and covers tile `p`.
pub open spec fn holder_at(e: EntityEntry<Building>, ty: ItemType, p: Pos) -> bool {
    holds_item(e, ty) && rect_contains(occupant(e).pos, spec_size(occupant(e).type_), p)
}

/// Some building of the slots has some `ty` and covers tile `p`.
pub open spec fn holder_covers(bs: Seq<EntityEntry<Building>>, ty: ItemType, p: Pos) -> bool {
    exists|j: int| 0 <= j < bs.len() && #[trigger] holder_at(bs[j], ty, p)
}

/// Whether some building has some `ty` and covers tile `p`.
fn covers_holder(buildings: &EntitySet<Building>, ty: ItemType, p: Pos) -> (r: bool)
    requires
        buildings_ok(buildings.slots()),
    ensures
        r == holder_covers(buildings.slots(), ty, p),
{
    let n = buildings.num_slots();
    let mut j: usize = 0;
    while j < n
        invariant
            n == buildings.slots().len(),
            j <= n,
            buildings_ok(buildings.slots()),
            forall|i: int| 0 <= i < j ==> !#[trigger] holder_at(buildings.slots()[i], ty, p),
        decreases n - j,
    {
        match buildings.get_at(j) {
            Some(b) => {
                proof {
                    assert(buildings.slots()[j as int].payload is Occupied);
                }
                if b.inventory.get(&ty) != 0 {
                    let size = b.type_.size();
                    if in_rect(b.pos, size, p) {
                        assert(holder_at(buildings.slots()[j as int], ty, p));
                        return true;
                    }
                }
            },
            None => {},
        }
        j = j + 1;
    }
    false
}

/// The building in this slot stands at `p` and holds less than its capacity.
pub open spec fn room_at(e: EntityEntry<Building>, p: Pos) -> bool {
    e.payload is Occupied && occupant(e).pos == p && occupant(e).inventory.total() < spec_capacity(
        occupant(e).type_,
    )
}

/// Some building of the slots stands at `p` and holds less than its capacity.
pub open spec fn room_covers(bs: Seq<EntityEntry<Building>>, p: Pos) -> bool {
    exists|j: int| 0 <= j < bs.len() && #[trigger] room_at(bs[j], p)
}

/// Whether the building holds less than its capacity.
fn below_capacity(b: &Building) -> (r: bool)
    requires
        b.inventory.wf(),
    ensures
        r == (b.inventory.total() < spec_capacity(b.type_)),
{
    let ents = b.inventory.iter();
    proof {
        lemma_total_is_sum(b.inventory.spec_countable());
    }
    let mut sum: usize = 0;
    let mut i: usize = 0;
    while i < ents.len()
        invariant
            i <= ents@.len(),
            sum == (if entries_sum(ents@.take(i as int)) <= usize::MAX {
                entries_sum(ents@.take(i as int))
            } else {
                usize::MAX as nat
            }),
        decreases ents@.len() - i,
    {
        proof {
            assert(ents@.take(i + 1).drop_last() =~= ents@.take(i as int));
        }
        sum = sum.saturating_add(ents[i].1);
        i = i + 1;
    }
    proof {
        assert(ents@.take(i as int) =~= ents@);
    }
    sum < b.type_.capacity()
}

/// Whether some building stands at `p` and holds less than its capacity.
fn room_at_pos(buildings: &EntitySet<Building>, p: Pos) -> (r: bool)
    requires
        buildings_ok(buildings.slots()),
    ensures
        r == room_covers(buildings.slots(), p),
{
    let n = buildings.num_slots();
    let mut j: usize = 0;
    while j < n
        invariant
            n == buildings.slots().len(),
            j <= n,
            buildings_ok(buildings.slots()),
            forall|i: int| 0 <= i < j ==> !#[trigger] room_at(buildings.slots()[i], p),
        decreases n - j,
    {
        match buildings.get_at(j) {
            Some(b) => {
                proof {
                    assert(buildings.slots()[j as int].payload is Occupied);
                }
                if pos_eq(b.pos, p) && below_capacity(b) {
                    assert(room_at(buildings.slots()[j as int], p));
                    return true;
                }
            },
            None => {},
        }
        j = j + 1;
    }
    false
}

/// The amount of an ingredient a site has at hand: on site, coming by transport and coming by
/// crew.
pub open spec fn site_amount(
    c: Construction,
    ts: Seq<EntityEntry<Transport>>,
    cs: Seq<EntityEntry<Crew>>,
) -> spec_fn(ItemType) -> int {
    |it: ItemType|
        count_of(c.spec_ingredients()@, it) + delivery_total(ts, c.expected(), it) + count_keyed(
            occupied_values(cs),
            delivery_key(c.spec_pos()),
            it,
        )
}

/// The ingredients a site still lacks, in item order, each with the amount it has at hand;
/// none while it is canceling.
pub open spec fn site_requirements(
    c: Construction,
    ts: Seq<EntityEntry<Transport>>,
    cs: Seq<EntityEntry<Crew>>,
) -> Seq<(ItemType, usize)> {
    if c.spec_canceling() {
        Seq::empty()
    } else {
        lacking(c.spec_recipe().ingredients.entries(), site_amount(c, ts, cs))
    }
}

/// A crew to build the site is sent only when none is on its way and the site has all its
/// ingredients.
pub open spec fn may_build(c: Construction, cs: Seq<EntityEntry<Crew>>) -> bool {
    &&& !crew_builds_at(cs, c.spec_pos())
    &&& forall|t: ItemType| #[trigger] c.spec_recipe().ingredients@.contains_key(t)
        ==> c.spec_recipe().ingredients@[t] <= count_of(c.spec_ingredients()@, t)
}

/// A crew that leaves the cabin `id` at `from` for `dest` with task `task`, carrying nothing.
pub open spec fn sent_crew(c: Crew, id: BuildingId, from: Pos, dest: Pos, tiles: Tiles, task: CrewTask) -> bool {
    &&& c.spec_pos() == from
    &&& c.spec_from() == id
    &&& c.spec_path() matches Some(path) && crew_path_ok(tiles, from, dest, path@)
    &&& c.spec_task() == task
    &&& c.spec_inventory().wf()
    &&& c.spec_inventory()@ == Map::<ItemType, usize>::empty()
}

/// The cabin's inventory after it takes, for each entry of `reqs` in order, one of the entry's
/// type when it still has some.
pub open spec fn deliver_draws(inv: Map<ItemType, usize>, reqs: Seq<(ItemType, usize)>) -> Map<ItemType, usize>
    decreases reqs.len(),
{
    if reqs.len() == 0 {
        inv
    } else {
        let m = deliver_draws(inv, reqs.drop_last());
        let ty = reqs.last().0;
        if m.contains_key(ty) && m[ty] > 0 {
            m.insert(ty, (m[ty] - 1) as usize)
        } else {
            m
        }
    }
}

/// A crew that fetches one `ty` for the site at `dest`, from a cabin `id` at `from` that had
/// the inventory `inv`: it carries one from the cabin's own stock, or it walks to a tile of
/// a building that has some.
pub open spec fn fetch_crew(
    c: Crew,
    id: BuildingId,
    from: Pos,
    dest: Pos,
    ty: ItemType,
    inv: Map<ItemType, usize>,
    bs: Seq<EntityEntry<Building>>,
    tiles: Tiles,
) -> bool {
    ||| {
        &&& count_of(inv, ty) > 0
        &&& c.spec_pos() == from
        &&& c.spec_from() == id
        &&& c.spec_path() matches Some(path) && crew_path_ok(tiles, from, dest, path@)
        &&& c.spec_task() == CrewTask::Deliver { dst: dest, item: ty }
        &&& c.spec_inventory().wf()
        &&& c.spec_inventory()@ == map![ty => 1usize]
    }
    ||| exists|src: Pos|
        #[trigger] holder_covers(bs, ty, src) && sent_crew(
            c,
            id,
            from,
            src,
            tiles,
            CrewTask::Pickup { src, dest, item: Some(ty) },
        )
}

/// The ingredients a site hands back: those with a positive count, once a canceling site is
/// fully deconstructed; none otherwise.
pub open spec fn site_extras(c: Construction) -> Seq<(ItemType, usize)> {
    if c.spec_canceling() && c.spec_progress() == 0 {
        c.spec_ingredients().spec_countable().entries().filter(|e: (ItemType, usize)| e.1 > 0)
    } else {
        Seq::empty()
    }
}

impl Building {
    /// A crew from this cabin to build the site, when none is on its way to build it and the
    /// site has all its ingredients. None also when no walking path leads there.
    pub fn try_send_to_build(
        &self,
        id: BuildingId,
        construction: &Construction,
        crews: &EntitySet<Crew>,
        tiles: &Tiles,
    ) -> (r: Option<Crew>)
        requires
            tiles.wf(),
            construction.spec_recipe().ingredients.wf(),
            construction.spec_ingredients().wf(),
        ensures
            !may_build(*construction, crews.slots()) ==> r is None,
            r matches Some(c) ==> sent_crew(
                c,
                id,
                self.pos,
                construction.spec_pos(),
                *tiles,
                CrewTask::Build(construction.spec_pos()),
            ),
    {
        if any_crew_builds_at(crews, construction.pos()) {
            return None;
        }
        if construction.ingredients_satisfied() {
            Crew::new_build(id, self.pos, construction.pos(), tiles)
        } else {
            None
        }
    }

    /// A crew from this cabin to fetch the first ingredient the site lacks, in item order, for
    /// which one can be sent: one carrying it from the cabin's stock, or else one walking to
    /// pick it up from a building that has some. For every lacking ingredient tried, the cabin
    /// gives up one of its own stock, if it has some, even when no crew could be sent with it.
    pub fn try_find_deliver(
        &mut self,
        id: BuildingId,
        construction: &Construction,
        buildings: &EntitySet<Building>,
        transports: &EntitySet<Transport>,
        crews: &EntitySet<Crew>,
        tiles: &Tiles,
    ) -> (r: Option<Crew>)
        requires
            old(self).inventory.wf(),
            tiles.wf(),
            buildings_ok(buildings.slots()),
            construction.spec_recipe().ingredients.wf(),
            construction.spec_ingredients().wf(),
        ensures
            final(self).inventory.wf(),
            same_but_inventory(*old(self), *final(self)),
            ({
                let reqs = site_requirements(*construction, transports.slots(), crews.slots());
                match r {
                    None => final(self).inventory@ == deliver_draws(old(self).inventory@, reqs),
                    Some(c) => exists|k: int|
                        0 <= k < reqs.len() && final(self).inventory@ == deliver_draws(
                            old(self).inventory@,
                            #[trigger] reqs.take(k + 1),
                        ) && fetch_crew(
                            c,
                            id,
                            old(self).pos,
                            construction.spec_pos(),
                            reqs[k].0,
                            deliver_draws(old(self).inventory@, reqs.take(k)),
                            buildings.slots(),
                            *tiles,
                        ),
                }
            }),
    {
        let ghost ts = transports.slots();
        let ghost cs = crews.slots();
        proof {
            let c = *construction;
            assert(site_amount(c, ts, cs) =~= (|it: ItemType|
                count_of(c.spec_ingredients()@, it) + delivery_total(ts, c.expected(), it) + count_keyed(
                    occupied_values(cs),
                    delivery_key(c.spec_pos()),
                    it,
                )));
        }
        let reqs = construction.required_ingredients(transports, crews);
        let ghost old_inv = self.inventory@;
        let dest = construction.pos();
        let mut i: usize = 0;
        while i < reqs.len()
            invariant
                i <= reqs@.len(),
                reqs@ == site_requirements(*construction, ts, cs),
                ts == transports.slots(),
                cs == crews.slots(),
                dest == construction.spec_pos(),
                old_inv == old(self).inventory@,
                self.inventory.wf(),
                same_but_inventory(*old(self), *self),
                self.inventory@ == deliver_draws(old_inv, reqs@.take(i as int)),
                tiles.wf(),
                buildings_ok(buildings.slots()),
            decreases reqs@.len() - i,
        {
            let ty = reqs[i].0;
            let ghost before = self.inventory@;
            proof {
                assert(reqs@.take(i + 1).drop_last() =~= reqs@.take(i as int));
            }
            let have = self.inventory.get(&ty);
            if have > 0 {
                self.inventory.insert(ty, have - 1);
                let c = Crew::new_deliver(id, self.pos, dest, ty, tiles);
                if c.is_some() {
                    proof {
                        assert(count_of(before, ty) > 0);
                        assert(fetch_crew(c.unwrap(), id, old(self).pos, dest, ty, before, buildings.slots(), *tiles));
                        assert(reqs@[i as int].0 == ty);
                        assert(self.inventory@ == deliver_draws(old_inv, reqs@.take(i + 1)));
                        let rq = site_requirements(*construction, transports.slots(), crews.slots());
                        assert(rq == reqs@);
                        assert(0 <= i < rq.len() && self.inventory@ == deliver_draws(old(self).inventory@, rq.take(i + 1))
                            && fetch_crew(c.unwrap(), id, old(self).pos, construction.spec_pos(), rq[i as int].0,
                            deliver_draws(old(self).inventory@, rq.take(i as int)), buildings.slots(), *tiles));
                    }
                    return c;
                }
            }
            let mut starts: Vec<Pos> = Vec::new();
            starts.push(self.pos);
            let goal = |p: Pos| -> (b: bool)
                requires
                    buildings_ok(buildings.slots()),
                ensures
                    b == holder_covers(buildings.slots(), ty, p),
                { covers_holder(buildings, ty, p) };
            let pass = |_d: Option<Direction>, p: Pos| -> (b: bool)
                requires
                    tiles.wf(),
                ensures
                    b == (tiles.spec_tile_at(p).state == TileState::Empty),
                { tiles.index(p).state == TileState::Empty };
            let found = find_multipath(&starts, goal, pass);
            match found {
                Some(path) => {
                    let src = path[0];
                    let c = Crew::new_pickup(id, self.pos, src, dest, ty, tiles);
                    if c.is_some() {
                        proof {
                            assert(call_ensures(goal, (path@[0],), true));
                            assert(holder_covers(buildings.slots(), ty, src));
                            assert(fetch_crew(c.unwrap(), id, old(self).pos, dest, ty, before, buildings.slots(), *tiles));
                            assert(reqs@[i as int].0 == ty);
                            assert(self.inventory@ == deliver_draws(old_inv, reqs@.take(i + 1)));
                        let rq = site_requirements(*construction, transports.slots(), crews.slots());
                        assert(rq == reqs@);
                        assert(0 <= i < rq.len() && self.inventory@ == deliver_draws(old(self).inventory@, rq.take(i + 1))
                            && fetch_crew(c.unwrap(), id, old(self).pos, construction.spec_pos(), rq[i as int].0,
                            deliver_draws(old(self).inventory@, rq.take(i as int)), buildings.slots(), *tiles));
                        }
                        return c;
                    }
                },
                None => {},
            }
            i = i + 1;
        }
        proof {
            assert(reqs@.take(i as int) =~= reqs@);
        }
        None
    }

    /// A crew from this cabin to take an ingredient of a fully deconstructed site to a
    /// building that has room: for the first ingredient, in item order, for which one can be
    /// sent, the crew walks to the site to pick it up for the tile at the end of a walk from
    /// the site to a building with room.
    pub fn try_find_pickup_and_deliver(
        &self,
        id: BuildingId,
        construction: &Construction,
        buildings: &EntitySet<Building>,
        tiles: &Tiles,
    ) -> (r: Option<Crew>)
        requires
            tiles.wf(),
            buildings_ok(buildings.slots()),
            construction.spec_ingredients().wf(),
        ensures
            r matches Some(c) ==> exists|k: int, dst: Pos|
                0 <= k < site_extras(*construction).len() && #[trigger] room_covers(buildings.slots(), dst)
                    && sent_crew(
                    c,
                    id,
                    self.pos,
                    construction.spec_pos(),
                    *tiles,
                    CrewTask::Pickup {
                        src: construction.spec_pos(),
                        dest: dst,
                        item: Some(#[trigger] site_extras(*construction)[k].0),
                    },
                ),
    {
        let extras = construction.extra_ingredients();
        let site = construction.pos();
        let mut i: usize = 0;
        while i < extras.len()
            invariant
                i <= extras@.len(),
                extras@ == site_extras(*construction),
                site == construction.spec_pos(),
                tiles.wf(),
                buildings_ok(buildings.slots()),
            decreases extras@.len() - i,
        {
            let ty = extras[i].0;
            let mut starts: Vec<Pos> = Vec::new();
            starts.push(site);
            let goal = |p: Pos| -> (b: bool)
                requires
                    buildings_ok(buildings.slots()),
                ensures
                    b == room_covers(buildings.slots(), p),
                { room_at_pos(buildings, p) };
            let pass = |_d: Option<Direction>, p: Pos| -> (b: bool)
                requires
                    tiles.wf(),
                ensures
                    b == (tiles.spec_tile_at(p).state == TileState::Empty),
                { tiles.index(p).state == TileState::Empty };
            let found = find_multipath(&starts, goal, pass);
            match found {
                Some(path) => {
                    let dst = path[0];
                    let c = Crew::new_pickup(id, self.pos, site, dst, ty, tiles);
                    if c.is_some() {
                        proof {
                            assert(call_ensures(goal, (path@[0],), true));
                            assert(room_covers(buildings.slots(), dst));
                            assert(extras@[i as int].0 == ty);
                        }
                        return c;
                    }
                },
                None => {},
            }
            i = i + 1;
        }
        None
    }
}

} // verus!
