//! The state of a colony and the player's commands on it.
use vstd::prelude::*;

use crate::building::{pos_in_range, rect_contains, rects_overlap, spec_size, Building, BuildingType};
use crate::items::{item_index, item_name, recipe_is, recipe_list, recipes, ItemType};
use crate::building::Recipe;
use crate::construction::ingredients_of;
use crate::inventory::{lemma_entries_of_view, CountableInventory, Inventory, lemma_single_entry};
use crate::{HEIGHT, WIDTH};
use crate::construction::{toggled, without};
use crate::construction::count_of;
use crate::crew::{building_given, find_site_at, first_site_at, sites_ok, BuildingId};
use crate::push_pull::{first_at, first_output, in_rect, none_at, pos_in, send_item, slots_same_but_inventories};
use crate::building::{spec_capacity, spec_is_mobile};
use crate::push_pull::{
    buildings_ok, has_building_at, lemma_places_kept_find, lemma_places_kept_trans, lemma_same_but_inventories_keeps_places,
    occupant, places_kept,
};
use crate::transport::pos_eq;
use crate::construction::{build_menu, get_build_menu, menu_item_is, Construction, ConstructionType};
use crate::conveyor::Conveyor;
use crate::crew::Crew;
use crate::entity::{insert_gen, insert_index, lemma_insert_keeps_insertable, lemma_insert_keeps_occupied, lemma_insert_len, occupied_values, slots_after_insert, slots_after_inserts, EntityEntry, EntityId, EntitySet, EntryPayload};
use crate::task::{BuildingTask, FloatBits, GlobalTask, MOVE_TIME_BITS};
use crate::tile::{
    chunk_pos_of, lemma_point_write, lemma_try_write_then_read, lemma_uniformify_preserves_reads, no_uniform_chunk, tile_eq, local_index, lookup_chunk, uniformified_seq, Chunk, Position, Tile, TileState, Tiles,
    CHUNK_TILES,
};
use crate::direction::{dir_from_vec, Direction};
use crate::transport::{admissible_walk, find_multipath, find_path, lemma_open_over, passes_into, path_over, step_to, walk_from, Transport, TransportId};
use crate::Pos;

verus! {

/// The state of a colony.
pub struct AsteroidColoniesGame {
    pub tiles: Tiles,
    pub buildings: EntitySet<Building>,
    pub crews: EntitySet<Crew>,
    pub global_tasks: EntitySet<GlobalTask>,
    /// The power ratio of the last tick, as the bits of a float.
    pub power_ratio: FloatBits,
    /// The power used in the last tick, in kW, as the bits of a float.
    pub used_power: FloatBits,
    pub global_time: usize,
    pub transports: EntitySet<Transport>,
    pub constructions: EntitySet<Construction>,
    /// Ghost conveyors staged for commit, by position.
    pub conveyor_staged: Vec<(Pos, Conveyor)>,
    /// A preview of ghost conveyors, by position.
    pub conveyor_preview: Vec<(Pos, Conveyor)>,
}

/// The decimal digits of a number, as `Display` writes them.
pub open spec fn decimal(n: nat) -> Seq<char>
    decreases n,
{
    let d = n % 10;
    let c = if d == 0 { '0' } else if d == 1 { '1' } else if d == 2 { '2' } else if d == 3 { '3' } else if d
        == 4 { '4' } else if d == 5 { '5' } else if d == 6 { '6' } else if d == 7 { '7' } else if d == 8 {
        '8'
    } else {
        '9'
    };
    if n < 10 {
        seq![c]
    } else {
        decimal(n / 10).push(c)
    }
}

/// The message for a site already taken by the building of id `(index, gen)`, written with
/// `format!`: the id shows as `(index,gen)` in decimal.
#[verifier::external_body]
fn occupied_message(index: u32, gen: u32) -> (r: String)
    ensures
        r@ == "The destination is already occupied by a building ("@ + decimal(index as nat) + ","@ + decimal(
            gen as nat,
        ) + ")"@,
{
    format!("The destination is already occupied by a building ({},{})", index, gen)
}

/// Every tile of the rectangle of size `size` at `pos` is excavated ground: neither solid
/// rock nor space.
pub open spec fn all_excavated(tiles: Tiles, pos: Pos, size: (int, int)) -> bool {
    forall|p: Pos| rect_contains(pos, size, p) ==> #[trigger] tiles.spec_tile_at(p).state == TileState::Empty
}

/// The first tile of the rectangle at `pos`, row by row, that is not excavated ground is at
/// `q`.
pub open spec fn first_unexcavated(tiles: Tiles, pos: Pos, size: (int, int), q: Pos) -> bool {
    &&& rect_contains(pos, size, q)
    &&& tiles.spec_tile_at(q).state != TileState::Empty
    &&& forall|p: Pos|
        rect_contains(pos, size, p) && (p[1] < q[1] || (p[1] == q[1] && p[0] < q[0])) ==> #[trigger] tiles.spec_tile_at(
            p,
        ).state == TileState::Empty
}

proof fn lemma_first_unexcavated_unique(tiles: Tiles, pos: Pos, size: (int, int), q1: Pos, q2: Pos)
    requires
        first_unexcavated(tiles, pos, size, q1),
        first_unexcavated(tiles, pos, size, q2),
    ensures
        q1 == q2,
{
    if q1[1] < q2[1] || (q1[1] == q2[1] && q1[0] < q2[0]) {
        assert(tiles.spec_tile_at(q1).state == TileState::Empty);
    } else if q2[1] < q1[1] || (q2[1] == q1[1] && q2[0] < q1[0]) {
        assert(tiles.spec_tile_at(q2).state == TileState::Empty);
    } else {
        assert(q1@ =~= q2@);
    }
}

/// Some building of the slots overlaps the rectangle of size `size` at `pos`.
pub open spec fn building_overlaps(s: Seq<EntityEntry<Building>>, pos: Pos, size: (int, int), j: int) -> bool {
    &&& 0 <= j < s.len()
    &&& s[j].payload is Occupied
    &&& rects_overlap(s[j].payload->Occupied_0.pos, spec_size(s[j].payload->Occupied_0.type_), pos, size)
}

/// Some site of the slots overlaps the rectangle of size `size` at `pos`.
pub open spec fn site_overlaps(s: Seq<EntityEntry<Construction>>, pos: Pos, size: (int, int)) -> bool {
    exists|j: int|
        0 <= j < s.len() && #[trigger] s[j].payload is Occupied && rects_overlap(
            s[j].payload->Occupied_0.spec_pos(),
            s[j].payload->Occupied_0.spec_size(),
            pos,
            size,
        )
}

/// The tile at column `ix` and row `iy`.
pub open spec fn pos_of(ix: i32, iy: i32) -> Pos {
    [ix, iy]
}

/// The error for building on a tile that is not excavated ground.
pub open spec fn unexcavated_error(state: TileState) -> Seq<char> {
    if state == TileState::Solid {
        "Needs excavation before building"@
    } else {
        "You cannot build in space!"@
    }
}

/// The slot of the first building that overlaps the rectangle at `pos` of size `size`.
fn find_overlapping_building(buildings: &EntitySet<Building>, pos: Pos, size: [usize; 2]) -> (r: Option<usize>)
    requires
        buildings_ok(buildings.slots()),
        pos_in_range(pos),
        size[0] <= 2,
        size[1] <= 2,
    ensures
        r matches Some(j) ==> building_overlaps(buildings.slots(), pos, (size[0] as int, size[1] as int), j as int)
            && forall|i: int| 0 <= i < j ==> !#[trigger] building_overlaps(buildings.slots(), pos, (size[0] as int, size[1] as int), i),
        r is None ==> forall|i: int| !#[trigger] building_overlaps(buildings.slots(), pos, (size[0] as int, size[1] as int), i),
{
    let ghost sz = (size[0] as int, size[1] as int);
    let n = buildings.num_slots();
    let mut i: usize = 0;
    while i < n
        invariant
            n == buildings.slots().len(),
            i <= n,
            buildings_ok(buildings.slots()),
            pos_in_range(pos),
            size[0] <= 2,
            size[1] <= 2,
            sz == (size[0] as int, size[1] as int),
            forall|k: int| 0 <= k < i ==> !#[trigger] building_overlaps(buildings.slots(), pos, sz, k),
        decreases n - i,
    {
        match buildings.get_at(i) {
            Some(b) => {
                proof {
                    assert(buildings.slots()[i as int].payload is Occupied);
                }
                if b.intersects_rect(pos, size) {
                    return Some(i);
                }
            },
            None => {},
        }
        i = i + 1;
    }
    None
}

/// Whether some site overlaps the rectangle at `pos` of size `size`.
fn any_site_overlaps(constructions: &EntitySet<Construction>, pos: Pos, size: [usize; 2]) -> (r: bool)
    requires
        size[0] <= 2,
        size[1] <= 2,
    ensures
        r == site_overlaps(constructions.slots(), pos, (size[0] as int, size[1] as int)),
{
    let ghost sz = (size[0] as int, size[1] as int);
    let ghost s = constructions.slots();
    let n = constructions.num_slots();
    let mut i: usize = 0;
    while i < n
        invariant
            n == s.len(),
            s == constructions.slots(),
            i <= n,
            size[0] <= 2,
            size[1] <= 2,
            sz == (size[0] as int, size[1] as int),
            forall|k: int|
                0 <= k < i ==> !(#[trigger] s[k].payload is Occupied && rects_overlap(
                    s[k].payload->Occupied_0.spec_pos(),
                    s[k].payload->Occupied_0.spec_size(),
                    pos,
                    sz,
                )),
        decreases n - i,
    {
        match constructions.get_at(i) {
            Some(c) => {
                if c.intersects_rect(pos, size) {
                    return true;
                }
            },
            None => {},
        }
        i = i + 1;
    }
    false
}

/// The first tile of the rectangle at `pos` of size `size`, row by row, that is not
/// excavated ground.
fn find_unexcavated(tiles: &Tiles, pos: Pos, size: [usize; 2]) -> (r: Option<Pos>)
    requires
        tiles.wf(),
        pos_in_range(pos),
        size[0] <= 2,
        size[1] <= 2,
    ensures
        r matches Some(q) ==> first_unexcavated(*tiles, pos, (size[0] as int, size[1] as int), q),
        r is None ==> all_excavated(*tiles, pos, (size[0] as int, size[1] as int)),
{
    let ghost sz = (size[0] as int, size[1] as int);
    let h = size[1] as i32;
    let w = size[0] as i32;
    let mut jy: i32 = pos[1];
    while jy < pos[1] + h
        invariant
            tiles.wf(),
            pos_in_range(pos),
            size[0] <= 2,
            size[1] <= 2,
            h == size[1],
            w == size[0],
            sz == (size[0] as int, size[1] as int),
            pos[1] <= jy <= pos[1] + h,
            forall|p: Pos| rect_contains(pos, sz, p) && p[1] < jy ==> #[trigger] tiles.spec_tile_at(p).state == TileState::Empty,
        decreases pos[1] + h - jy,
    {
        let mut jx: i32 = pos[0];
        while jx < pos[0] + w
            invariant
                tiles.wf(),
                pos_in_range(pos),
                size[0] <= 2,
                size[1] <= 2,
                h == size[1],
                w == size[0],
                sz == (size[0] as int, size[1] as int),
                pos[1] <= jy < pos[1] + h,
                pos[0] <= jx <= pos[0] + w,
                forall|p: Pos|
                    rect_contains(pos, sz, p) && (p[1] < jy || (p[1] == jy && p[0] < jx)) ==> #[trigger] tiles.spec_tile_at(
                        p,
                    ).state == TileState::Empty,
            decreases pos[0] + w - jx,
        {
            let q: Pos = [jx, jy];
            let t = tiles.index(q);
            if !matches!(t.state, TileState::Empty) {
                proof {
                    assert forall|p: Pos|
                        rect_contains(pos, sz, p) && (p[1] < q[1] || (p[1] == q[1] && p[0] < q[0])) implies #[trigger] tiles.spec_tile_at(
                            p,
                        ).state == TileState::Empty by {
                    }
                }
                return Some(q);
            }
            proof {
                assert forall|p: Pos|
                    rect_contains(pos, sz, p) && (p[1] < jy || (p[1] == jy && p[0] < jx + 1)) implies #[trigger] tiles.spec_tile_at(
                        p,
                    ).state == TileState::Empty by {
                    if p[1] == jy && p[0] == jx {
                        assert(p@ =~= q@);
                        assert(p == q);
                    }
                }
            }
            jx = jx + 1;
        }
        jy = jy + 1;
    }
    None
}

/// The first menu entry for a building type.
fn menu_item_for(type_: BuildingType) -> (r: Option<crate::construction::BuildMenuItem>)
    ensures
        r matches Some(m) ==> exists|i: int|
            0 <= i < build_menu().len() && #[trigger] build_menu()[i].0 == type_ && menu_item_is(m, i),
        r is None ==> forall|i: int| 0 <= i < build_menu().len() ==> #[trigger] build_menu()[i].0 != type_,
{
    let mut menu = get_build_menu();
    let mut i: usize = 0;
    while i < menu.len()
        invariant
            i <= menu@.len(),
            menu@.len() == build_menu().len(),
            forall|k: int| 0 <= k < menu@.len() ==> menu_item_is(#[trigger] menu@[k], k),
            forall|k: int| 0 <= k < i ==> build_menu()[k].0 != type_,
        decreases menu@.len() - i,
    {
        proof {
            assert(menu_item_is(menu@[i as int], i as int));
        }
        if menu[i].type_ == ConstructionType::Building(type_) {
            let m = menu.remove(i);
            return Some(m);
        }
        i = i + 1;
    }
    None
}

impl AsteroidColoniesGame {
    /// Plans a building of type `type_` with its top left tile at `[ix, iy]`. Every tile it
    /// covers must be excavated ground (row by row, the first that is not tells why), and no
    /// building or site may overlap it. The plan is a site for the building's menu entry; a type
    /// without a menu entry (a power plant, a battery) plans nothing and is no error.
    pub fn build(&mut self, ix: i32, iy: i32, type_: BuildingType) -> (r: Result<(), String>)
        requires
            old(self).tiles.wf(),
            buildings_ok(old(self).buildings.slots()),
            old(self).buildings.slots().len() <= u32::MAX,
            pos_in_range(pos_of(ix, iy)),
            old(self).constructions.can_insert(),
        ensures
            final(self).tiles == old(self).tiles,
            final(self).buildings == old(self).buildings,
            final(self).crews == old(self).crews,
            final(self).transports == old(self).transports,
            final(self).global_tasks == old(self).global_tasks,
            final(self).global_time == old(self).global_time,
            r is Err ==> final(self).constructions.slots() == old(self).constructions.slots(),
            forall|q: Pos| #[trigger] first_unexcavated(old(self).tiles, pos_of(ix, iy), spec_size(type_), q) ==> (r matches Err(e)
                && e@ == unexcavated_error(old(self).tiles.spec_tile_at(q).state)),
            forall|j: int|
                all_excavated(old(self).tiles, pos_of(ix, iy), spec_size(type_)) && #[trigger] building_overlaps(
                    old(self).buildings.slots(),
                    pos_of(ix, iy),
                    spec_size(type_),
                    j,
                ) && (forall|i: int| 0 <= i < j ==> !#[trigger] building_overlaps(old(self).buildings.slots(), pos_of(ix, iy), spec_size(type_), i))
                    ==> (r matches Err(e) && e@ == "The destination is already occupied by a building ("@ + decimal(j as nat) + ","@
                    + decimal(old(self).buildings.slots()[j].gen as nat) + ")"@),
            (all_excavated(old(self).tiles, pos_of(ix, iy), spec_size(type_)) && (forall|j: int|
                !#[trigger] building_overlaps(old(self).buildings.slots(), pos_of(ix, iy), spec_size(type_), j)) && site_overlaps(
                old(self).constructions.slots(),
                pos_of(ix, iy),
                spec_size(type_),
            )) ==> (r matches Err(e) && e@ == "The destination is already occupied by a construction plan"@),
            (all_excavated(old(self).tiles, pos_of(ix, iy), spec_size(type_)) && (forall|j: int|
                !#[trigger] building_overlaps(old(self).buildings.slots(), pos_of(ix, iy), spec_size(type_), j)) && !site_overlaps(
                old(self).constructions.slots(),
                pos_of(ix, iy),
                spec_size(type_),
            )) ==> r is Ok,
            r is Ok ==> (exists|c: Construction, i: int|
                #![trigger slots_after_insert(old(self).constructions.slots(), c), build_menu()[i]]
                {
                    &&& final(self).constructions.slots() == slots_after_insert(old(self).constructions.slots(), c)
                    &&& 0 <= i < build_menu().len()
                    &&& build_menu()[i].0 == type_
                    &&& c.spec_type() == ConstructionType::Building(type_)
                    &&& c.spec_pos() == pos_of(ix, iy)
                    &&& c.spec_ingredients().wf()
                    &&& c.spec_ingredients()@ == Map::<ItemType, usize>::empty()
                    &&& c.spec_recipe().ingredients@ == crate::construction::ingredients_of(build_menu()[i].1)
                    &&& c.spec_recipe().time == build_menu()[i].2
                    &&& !c.spec_canceling()
                    &&& c.spec_progress() == 0
                    &&& c.expected().len() == 0
                }) || ((forall|i: int| 0 <= i < build_menu().len() ==> #[trigger] build_menu()[i].0 != type_)
                    && final(self).constructions.slots() == old(self).constructions.slots()),
    {
        let pos: Pos = [ix, iy];
        let size = type_.size();
        let ghost sz = spec_size(type_);
        proof {
            assert(pos == pos_of(ix, iy));
        }
        match find_unexcavated(&self.tiles, pos, size) {
            Some(q) => {
                proof {
                    assert forall|q2: Pos| #[trigger] first_unexcavated(self.tiles, pos, sz, q2) implies q2 == q by {
                        lemma_first_unexcavated_unique(self.tiles, pos, sz, q, q2);
                    }
                }
                let t = self.tiles.index(q);
                if matches!(t.state, TileState::Solid) {
                    return Err(String::from_str("Needs excavation before building"));
                } else {
                    return Err(String::from_str("You cannot build in space!"));
                }
            },
            None => {
                proof {
                    assert forall|q2: Pos| !#[trigger] first_unexcavated(self.tiles, pos, sz, q2) by {
                        if first_unexcavated(self.tiles, pos, sz, q2) {
                            assert(self.tiles.spec_tile_at(q2).state == TileState::Empty);
                        }
                    }
                }
            },
        }
        match find_overlapping_building(&self.buildings, pos, size) {
            Some(j) => {
                proof {
                    assert forall|j2: int|
                        #[trigger] building_overlaps(self.buildings.slots(), pos, sz, j2) && (forall|i: int|
                            0 <= i < j2 ==> !#[trigger] building_overlaps(self.buildings.slots(), pos, sz, i)) implies j2 == j by {
                        if j2 < j {
                        } else if j2 > j {
                            assert(building_overlaps(self.buildings.slots(), pos, sz, j as int));
                        }
                    }
                }
                let gen = self.buildings.slot_gen(j);
                return Err(occupied_message(j as u32, gen));
            },
            None => {},
        }
        if any_site_overlaps(&self.constructions, pos, size) {
            return Err(String::from_str("The destination is already occupied by a construction plan"));
        }
        match menu_item_for(type_) {
            Some(m) => {
                let c = Construction::new(&m, pos);
                let ghost cv = c;
                self.constructions.insert(c);
                proof {
                    let i = choose|i: int| 0 <= i < build_menu().len() && #[trigger] build_menu()[i].0 == type_ && menu_item_is(m, i);
                    assert(self.constructions.slots() == slots_after_insert(old(self).constructions.slots(), cv));
                    assert(build_menu()[i].0 == type_);
                }
            },
            None => {},
        }
        Ok(())
    }
}

/// Slot `j` holds the first building, in slot order, whose top left tile is `pos`.
pub open spec fn first_building_at_corner(s: Seq<EntityEntry<Building>>, pos: Pos, j: int) -> bool {
    &&& 0 <= j < s.len()
    &&& s[j].payload is Occupied
    &&& s[j].payload->Occupied_0.pos == pos
    &&& forall|i: int| 0 <= i < j ==> !(#[trigger] s[i].payload is Occupied && s[i].payload->Occupied_0.pos == pos)
}

/// The slot of the first building whose top left tile is `pos`.
fn find_building_by_corner(buildings: &EntitySet<Building>, pos: Pos) -> (r: Option<usize>)
    ensures
        r matches Some(j) ==> first_building_at_corner(buildings.slots(), pos, j as int),
        r is None ==> forall|j: int| !#[trigger] first_building_at_corner(buildings.slots(), pos, j),
        forall|j: int| #[trigger] first_building_at_corner(buildings.slots(), pos, j) ==> r == Some(j as usize),
{
    let ghost s = buildings.slots();
    let n = buildings.num_slots();
    let mut i: usize = 0;
    while i < n
        invariant
            n == s.len(),
            s == buildings.slots(),
            i <= n,
            forall|k: int| 0 <= k < i ==> !(#[trigger] s[k].payload is Occupied && s[k].payload->Occupied_0.pos == pos),
        decreases n - i,
    {
        let at = match buildings.get_at(i) {
            Some(b) => pos_eq(b.pos, pos),
            None => false,
        };
        if at {
            proof {
                assert forall|j: int| #[trigger] first_building_at_corner(s, pos, j) implies j == i by {
                    if j > i {
                        assert(!(s[i as int].payload is Occupied && s[i as int].payload->Occupied_0.pos == pos));
                    }
                }
            }
            return Some(i);
        }
        i = i + 1;
    }
    proof {
        assert forall|j: int| !#[trigger] first_building_at_corner(s, pos, j) by {
            if first_building_at_corner(s, pos, j) {
                assert(!(s[j].payload is Occupied && s[j].payload->Occupied_0.pos == pos));
            }
        }
    }
    None
}

impl AsteroidColoniesGame {
    /// Plans the deconstruction of the building whose top left tile is `[ix, iy]` (the first
    /// one, in slot order): the building is removed and a canceling site takes its place, with
    /// the building's recipe ingredients and inventory to hand back.
    pub fn deconstruct(&mut self, ix: i32, iy: i32) -> (r: Result<(), String>)
        requires
            old(self).constructions.can_insert(),
            buildings_ok(old(self).buildings.slots()),
        ensures
            final(self).tiles == old(self).tiles,
            final(self).crews == old(self).crews,
            final(self).transports == old(self).transports,
            final(self).global_tasks == old(self).global_tasks,
            final(self).global_time == old(self).global_time,
            r is Err ==> final(self).constructions.slots() == old(self).constructions.slots()
                && final(self).buildings.slots() == old(self).buildings.slots(),
            (forall|j: int| !#[trigger] first_building_at_corner(old(self).buildings.slots(), pos_of(ix, iy), j)) ==> (r matches Err(e)
                && e@ == "Building not found at given position"@),
            forall|j: int| #[trigger] first_building_at_corner(old(self).buildings.slots(), pos_of(ix, iy), j) ==> {
                let b = old(self).buildings.slots()[j].payload->Occupied_0;
                let in_menu = exists|i: int| 0 <= i < build_menu().len() && #[trigger] build_menu()[i].0 == b.type_;
                &&& !in_menu ==> (r matches Err(e) && e@ == "No build recipe was found to deconstruct"@)
                &&& in_menu ==> r is Ok
                &&& r is Ok ==> {
                    &&& final(self).buildings.slots() == old(self).buildings.slots().update(
                        j,
                        EntityEntry { gen: old(self).buildings.slots()[j].gen, payload: EntryPayload::Free(None) },
                    )
                    &&& exists|c: Construction, i: int|
                        #![trigger slots_after_insert(old(self).constructions.slots(), c), build_menu()[i]]
                        {
                            &&& final(self).constructions.slots() == slots_after_insert(old(self).constructions.slots(), c)
                            &&& 0 <= i < build_menu().len()
                            &&& build_menu()[i].0 == b.type_
                            &&& c.spec_type() == ConstructionType::Building(b.type_)
                            &&& c.spec_pos() == pos_of(ix, iy)
                            &&& c.spec_ingredients().wf()
                            &&& c.spec_ingredients()@ == crate::construction::ingredients_of(build_menu()[i].1).union_prefer_right(b.inventory@)
                            &&& c.spec_recipe().ingredients@ == crate::construction::ingredients_of(build_menu()[i].1)
                            &&& c.spec_recipe().time == build_menu()[i].2
                            &&& c.spec_canceling()
                            &&& c.spec_progress() == build_menu()[i].2
                            &&& c.expected().len() == 0
                        }
                }
            },
    {
        let pos: Pos = [ix, iy];
        proof {
            assert(pos == pos_of(ix, iy));
        }
        let j = match find_building_by_corner(&self.buildings, pos) {
            Some(j) => j,
            None => {
                return Err(String::from_str("Building not found at given position"));
            },
        };
        let gen = self.buildings.slot_gen(j);
        let b = self.buildings.get_at(j).unwrap();
        proof {
            assert(self.buildings.slots()[j as int].payload is Occupied);
            assert(occupant(self.buildings.slots()[j as int]).inventory.wf());
        }
        let decon = match Construction::new_deconstruct(b.type_, pos, &b.inventory) {
            Some(c) => c,
            None => {
                return Err(String::from_str("No build recipe was found to deconstruct"));
            },
        };
        let ghost cv = decon;
        self.constructions.insert(decon);
        proof {
            assert(j < self.buildings.slots().len());
        }
        self.buildings.remove_at(j);
        proof {
            let i = choose|i: int|
                #![trigger build_menu()[i]]
                {
                    &&& 0 <= i < build_menu().len()
                    &&& build_menu()[i].0 == occupant(old(self).buildings.slots()[j as int]).type_
                    &&& forall|k: int| 0 <= k < i ==> build_menu()[k].0 != occupant(old(self).buildings.slots()[j as int]).type_
                    &&& cv.spec_type() == ConstructionType::Building(occupant(old(self).buildings.slots()[j as int]).type_)
                    &&& cv.spec_pos() == pos
                    &&& cv.spec_ingredients().wf()
                    &&& cv.spec_ingredients()@ == crate::construction::ingredients_of(build_menu()[i].1).union_prefer_right(
                        occupant(old(self).buildings.slots()[j as int]).inventory@,
                    )
                    &&& cv.spec_recipe().type_ == ConstructionType::Building(occupant(old(self).buildings.slots()[j as int]).type_)
                    &&& cv.spec_recipe().ingredients@ == crate::construction::ingredients_of(build_menu()[i].1)
                    &&& cv.spec_recipe().time == build_menu()[i].2
                    &&& cv.spec_canceling()
                    &&& cv.spec_progress() == build_menu()[i].2
                    &&& cv.expected().len() == 0
                };
            assert(self.constructions.slots() == slots_after_insert(old(self).constructions.slots(), cv));
        }
        Ok(())
    }

    /// Plans the deconstruction of the conveyor at `[ix, iy]`: the conveyor leaves the tile and
    /// a canceling site for it takes its place. The tile must lie in a stored chunk of tiles.
    pub fn deconstruct_conveyor(&mut self, ix: i32, iy: i32) -> (r: Result<(), &'static str>)
        requires
            old(self).tiles.wf(),
            old(self).constructions.can_insert(),
        ensures
            final(self).tiles.wf(),
            final(self).buildings == old(self).buildings,
            final(self).crews == old(self).crews,
            final(self).transports == old(self).transports,
            final(self).global_tasks == old(self).global_tasks,
            final(self).global_time == old(self).global_time,
            !(lookup_chunk(old(self).tiles.chunk_seq(), chunk_pos_of(pos_of(ix, iy))) matches Some(Chunk::Tiles(_, _)))
                ==> (r matches Err(e) && e@ == "Tile does not exist"@),
            (lookup_chunk(old(self).tiles.chunk_seq(), chunk_pos_of(pos_of(ix, iy))) matches Some(Chunk::Tiles(_, _)))
                && old(self).tiles.spec_tile_at(pos_of(ix, iy)).conveyor == Conveyor::Empty ==> (r matches Err(e) && e@
                == "Conveyor does not exist"@),
            r is Err ==> final(self).constructions.slots() == old(self).constructions.slots(),
            r is Err ==> forall|q: Pos| #[trigger] final(self).tiles.spec_tile_at(q) == old(self).tiles.spec_tile_at(q),
            r is Ok ==> {
                let t = old(self).tiles.spec_tile_at(pos_of(ix, iy));
                &&& t.conveyor != Conveyor::Empty
                &&& final(self).tiles.spec_tile_at(pos_of(ix, iy)) == (Tile { conveyor: Conveyor::Empty, ..t })
                &&& forall|q: Pos| q != pos_of(ix, iy) ==> #[trigger] final(self).tiles.spec_tile_at(q) == old(self).tiles.spec_tile_at(q)
                &&& exists|c: Construction|
                    #![trigger slots_after_insert(old(self).constructions.slots(), c)]
                    {
                        &&& final(self).constructions.slots() == slots_after_insert(old(self).constructions.slots(), c)
                        &&& c.spec_type() == ConstructionType::Conveyor(t.conveyor)
                        &&& c.spec_pos() == pos_of(ix, iy)
                        &&& c.spec_canceling()
                        &&& c.spec_ingredients().wf()
                        &&& c.spec_ingredients()@ == c.spec_recipe().ingredients@
                        &&& c.spec_progress() == crate::task::BUILD_CONVEYOR_TIME
                        &&& c.expected().len() == 0
                    }
            },
    {
        let pos: Pos = [ix, iy];
        proof {
            assert(pos == pos_of(ix, iy));
        }
        let ghost t0 = self.tiles;
        let tile = match self.tiles.try_get_mut(pos) {
            Some(t) => t,
            None => {
                return Err("Tile does not exist");
            },
        };
        if matches!(tile.conveyor, Conveyor::Empty) {
            proof {
                let tv = *tile;
                assert forall|q: Pos| #[trigger] self.tiles.spec_tile_at(q) == t0.spec_tile_at(q) by {
                    lemma_try_write_then_read(t0, self.tiles, pos, tv, q);
                }
            }
            return Err("Conveyor does not exist");
        }
        let decon = Construction::new_conveyor(pos, tile.conveyor, true);
        let ghost told = *tile;
        tile.conveyor = Conveyor::Empty;
        proof {
            assert forall|q: Pos| q != pos_of(ix, iy) implies #[trigger] self.tiles.spec_tile_at(q) == t0.spec_tile_at(q) by {
                lemma_try_write_then_read(t0, self.tiles, pos, Tile { conveyor: Conveyor::Empty, ..told }, q);
            }
            lemma_try_write_then_read(t0, self.tiles, pos, Tile { conveyor: Conveyor::Empty, ..told }, pos);
        }
        let ghost cv = decon;
        self.constructions.insert(decon);
        proof {
            assert(self.constructions.slots() == slots_after_insert(old(self).constructions.slots(), cv));
        }
        Ok(())
    }

    /// Plans the deconstruction of the power grid at `[ix, iy]`: the grid leaves the tile and a
    /// canceling site for it takes its place. The tile must lie in a stored chunk of tiles.
    pub fn deconstruct_power_grid(&mut self, ix: i32, iy: i32) -> (r: Result<(), &'static str>)
        requires
            old(self).tiles.wf(),
            old(self).constructions.can_insert(),
        ensures
            final(self).tiles.wf(),
            final(self).buildings == old(self).buildings,
            final(self).crews == old(self).crews,
            final(self).transports == old(self).transports,
            final(self).global_tasks == old(self).global_tasks,
            final(self).global_time == old(self).global_time,
            !(lookup_chunk(old(self).tiles.chunk_seq(), chunk_pos_of(pos_of(ix, iy))) matches Some(Chunk::Tiles(_, _)))
                ==> (r matches Err(e) && e@ == "Tile does not exist"@),
            (lookup_chunk(old(self).tiles.chunk_seq(), chunk_pos_of(pos_of(ix, iy))) matches Some(Chunk::Tiles(_, _)))
                && !old(self).tiles.spec_tile_at(pos_of(ix, iy)).power_grid ==> (r matches Err(e) && e@
                == "Power grid does not exist"@),
            r is Err ==> final(self).constructions.slots() == old(self).constructions.slots(),
            r is Err ==> forall|q: Pos| #[trigger] final(self).tiles.spec_tile_at(q) == old(self).tiles.spec_tile_at(q),
            r is Ok ==> {
                let t = old(self).tiles.spec_tile_at(pos_of(ix, iy));
                &&& t.power_grid
                &&& final(self).tiles.spec_tile_at(pos_of(ix, iy)) == (Tile { power_grid: false, ..t })
                &&& forall|q: Pos| q != pos_of(ix, iy) ==> #[trigger] final(self).tiles.spec_tile_at(q) == old(self).tiles.spec_tile_at(q)
                &&& exists|c: Construction|
                    #![trigger slots_after_insert(old(self).constructions.slots(), c)]
                    {
                        &&& final(self).constructions.slots() == slots_after_insert(old(self).constructions.slots(), c)
                        &&& c.spec_type() == ConstructionType::PowerGrid
                        &&& c.spec_pos() == pos_of(ix, iy)
                        &&& c.spec_canceling()
                        &&& c.spec_ingredients().wf()
                        &&& c.spec_ingredients()@ == map![ItemType::PowerGridComponent => 1usize]
                        &&& c.spec_progress() == crate::task::BUILD_POWER_GRID_TIME
                        &&& c.expected().len() == 0
                    }
            },
    {
        let pos: Pos = [ix, iy];
        proof {
            assert(pos == pos_of(ix, iy));
        }
        let ghost t0 = self.tiles;
        let tile = match self.tiles.try_get_mut(pos) {
            Some(t) => t,
            None => {
                return Err("Tile does not exist");
            },
        };
        if !tile.power_grid {
            proof {
                let tv = *tile;
                assert forall|q: Pos| #[trigger] self.tiles.spec_tile_at(q) == t0.spec_tile_at(q) by {
                    lemma_try_write_then_read(t0, self.tiles, pos, tv, q);
                }
            }
            return Err("Power grid does not exist");
        }
        let decon = Construction::new_power_grid(pos, true);
        let ghost told = *tile;
        tile.power_grid = false;
        proof {
            assert forall|q: Pos| q != pos_of(ix, iy) implies #[trigger] self.tiles.spec_tile_at(q) == t0.spec_tile_at(q) by {
                lemma_try_write_then_read(t0, self.tiles, pos, Tile { power_grid: false, ..told }, q);
            }
            lemma_try_write_then_read(t0, self.tiles, pos, Tile { power_grid: false, ..told }, pos);
        }
        let ghost cv = decon;
        self.constructions.insert(decon);
        proof {
            assert(self.constructions.slots() == slots_after_insert(old(self).constructions.slots(), cv));
        }
        Ok(())
    }

    /// Switches the first site, in slot order, at `[ix, iy]` between building and
    /// deconstructing; nothing happens without one.
    pub fn cancel_build(&mut self, ix: i32, iy: i32)
        ensures
            final(self).tiles == old(self).tiles,
            final(self).buildings == old(self).buildings,
            final(self).crews == old(self).crews,
            final(self).transports == old(self).transports,
            final(self).global_tasks == old(self).global_tasks,
            final(self).global_time == old(self).global_time,
            final(self).constructions.free_head() == old(self).constructions.free_head(),
            (forall|j: int| !#[trigger] first_site_at(old(self).constructions.slots(), pos_of(ix, iy), j))
                ==> final(self).constructions.slots() == old(self).constructions.slots(),
            forall|j: int| #[trigger] first_site_at(old(self).constructions.slots(), pos_of(ix, iy), j)
                ==> final(self).constructions.slots() == old(self).constructions.slots().update(
                j,
                EntityEntry {
                    gen: old(self).constructions.slots()[j].gen,
                    payload: EntryPayload::Occupied(toggled(old(self).constructions.slots()[j].payload->Occupied_0)),
                },
            ),
    {
        let pos: Pos = [ix, iy];
        proof {
            assert(pos == pos_of(ix, iy));
        }
        match find_site_at(&self.constructions, pos) {
            Some(j) => {
                let c = self.constructions.get_mut_at(j).unwrap();
                c.toggle_cancel();
            },
            None => {},
        }
    }

    /// Adds construction sites, one after the other in the given order.
    pub fn build_plan(&mut self, constructions: Vec<Construction>)
        requires
            old(self).constructions.can_insert(),
            old(self).constructions.slots().len() + constructions@.len() + 1 < u32::MAX,
        ensures
            final(self).constructions.slots() == slots_after_inserts(old(self).constructions.slots(), constructions@),
            final(self).constructions.free_head() == old(self).constructions.free_head(),
            final(self).tiles == old(self).tiles,
            final(self).buildings == old(self).buildings,
            final(self).crews == old(self).crews,
            final(self).transports == old(self).transports,
            final(self).global_tasks == old(self).global_tasks,
            final(self).global_time == old(self).global_time,
    {
        let ghost all = constructions@;
        let mut rest = constructions;
        let mut k: usize = 0;
        while rest.len() > 0
            invariant
                k <= all.len(),
                rest@ == all.skip(k as int),
                self.constructions.slots() == slots_after_inserts(old(self).constructions.slots(), all.take(k as int)),
                self.constructions.slots().len() <= old(self).constructions.slots().len() + k,
                old(self).constructions.slots().len() + all.len() + 1 < u32::MAX,
                self.constructions.can_insert(),
                self.constructions.free_head() == old(self).constructions.free_head(),
                self.tiles == old(self).tiles,
                self.buildings == old(self).buildings,
                self.crews == old(self).crews,
                self.transports == old(self).transports,
                self.global_tasks == old(self).global_tasks,
                self.global_time == old(self).global_time,
            decreases rest@.len(),
        {
            let c = rest.remove(0);
            proof {
                assert(c == all[k as int]);
                assert(all.take(k + 1).drop_last() =~= all.take(k as int));
                assert(rest@ =~= all.skip(k + 1));
                lemma_insert_keeps_insertable(self.constructions.slots(), c);
            }
            self.constructions.insert(c);
            k = k + 1;
        }
        proof {
            assert(all.take(k as int) =~= all);
        }
    }

    /// Compresses the uniform chunks of the map and drops the chunks that are all space.
    pub fn uniformify_tiles(&mut self)
        requires
            old(self).tiles.wf(),
        ensures
            final(self).tiles.wf(),
            final(self).tiles.chunk_seq() == uniformified_seq(old(self).tiles.chunk_seq()),
            final(self).buildings == old(self).buildings,
            final(self).crews == old(self).crews,
            final(self).transports == old(self).transports,
            final(self).constructions == old(self).constructions,
            final(self).global_tasks == old(self).global_tasks,
            final(self).global_time == old(self).global_time,
    {
        self.tiles.uniformify();
    }

    /// Asks the crews to clean up the items left at `pos`.
    pub fn cleanup_item(&mut self, pos: Pos) -> (r: Result<(), String>)
        requires
            old(self).global_tasks.can_insert(),
        ensures
            r is Ok,
            final(self).global_tasks.slots() == slots_after_insert(old(self).global_tasks.slots(), GlobalTask::Cleanup(pos)),
            final(self).tiles == old(self).tiles,
            final(self).buildings == old(self).buildings,
            final(self).crews == old(self).crews,
            final(self).transports == old(self).transports,
            final(self).constructions == old(self).constructions,
            final(self).global_time == old(self).global_time,
    {
        self.global_tasks.insert(GlobalTask::Cleanup(pos));
        Ok(())
    }

    /// The ticks since the game began.
    pub fn get_global_time(&self) -> (r: usize)
        ensures
            r == self.global_time,
    {
        self.global_time
    }

    /// The power ratio of the last tick, as the bits of a float.
    pub fn get_power_ratio(&self) -> (r: FloatBits)
        ensures
            r == self.power_ratio,
    {
        self.power_ratio
    }

    /// The tile map.
    pub fn tiles(&self) -> (r: &Tiles)
        ensures
            *r == self.tiles,
    {
        &self.tiles
    }

    /// The number of tiles covered by stored chunks.
    pub fn count_tiles(&self) -> (r: usize)
        requires
            self.tiles.chunk_seq().len() * CHUNK_TILES <= usize::MAX,
        ensures
            r == self.tiles.chunk_seq().len() * CHUNK_TILES,
    {
        self.tiles.count_tiles()
    }

    /// The tile at `pos`.
    pub fn tile_at(&self, pos: Pos) -> (r: Tile)
        requires
            self.tiles.wf(),
        ensures
            r == self.tiles.spec_tile_at(pos),
    {
        self.tiles.index(pos)
    }

    /// The number of transports on their way.
    pub fn num_transports(&self) -> (r: usize)
        ensures
            r == crate::entity::count_occupied(self.transports.slots()),
    {
        self.transports.len()
    }

    /// The buildings, in slot order.
    pub fn iter_building(&self) -> (r: Vec<&Building>)
        ensures
            r@.len() == occupied_values(self.buildings.slots()).len(),
            forall|k: int| 0 <= k < r@.len() ==> *r@[k] == occupied_values(self.buildings.slots())[k],
    {
        self.buildings.iter()
    }

    /// The construction sites, in slot order.
    pub fn iter_construction(&self) -> (r: Vec<&Construction>)
        ensures
            r@.len() == occupied_values(self.constructions.slots()).len(),
            forall|k: int| 0 <= k < r@.len() ==> *r@[k] == occupied_values(self.constructions.slots())[k],
    {
        self.constructions.iter()
    }

    /// The crews, in slot order.
    pub fn iter_crew(&self) -> (r: Vec<&Crew>)
        ensures
            r@.len() == occupied_values(self.crews.slots()).len(),
            forall|k: int| 0 <= k < r@.len() ==> *r@[k] == occupied_values(self.crews.slots())[k],
    {
        self.crews.iter()
    }

    /// The colony-wide tasks, in slot order.
    pub fn iter_global_task(&self) -> (r: Vec<&GlobalTask>)
        ensures
            r@.len() == occupied_values(self.global_tasks.slots()).len(),
            forall|k: int| 0 <= k < r@.len() ==> *r@[k] == occupied_values(self.global_tasks.slots())[k],
    {
        self.global_tasks.iter()
    }

    /// The transports on their way, in slot order.
    pub fn iter_transport(&self) -> (r: Vec<&Transport>)
        ensures
            r@.len() == occupied_values(self.transports.slots()).len(),
            forall|k: int| 0 <= k < r@.len() ==> *r@[k] == occupied_values(self.transports.slots())[k],
    {
        self.transports.iter()
    }
}

/// Slot `j` holds the first site, in slot order, that covers tile `p`.
pub open spec fn first_site_covering(s: Seq<EntityEntry<Construction>>, p: Pos, j: int) -> bool {
    &&& 0 <= j < s.len()
    &&& s[j].payload is Occupied
    &&& rect_contains(s[j].payload->Occupied_0.spec_pos(), s[j].payload->Occupied_0.spec_size(), p)
    &&& forall|i: int|
        0 <= i < j ==> !(#[trigger] s[i].payload is Occupied && rect_contains(
            s[i].payload->Occupied_0.spec_pos(),
            s[i].payload->Occupied_0.spec_size(),
            p,
        ))
}

/// The slot of the first site that covers `p`.
fn find_site_covering(constructions: &EntitySet<Construction>, p: Pos) -> (r: Option<usize>)
    ensures
        r matches Some(j) ==> first_site_covering(constructions.slots(), p, j as int),
        r is None ==> forall|j: int| !#[trigger] first_site_covering(constructions.slots(), p, j),
        forall|j: int| #[trigger] first_site_covering(constructions.slots(), p, j) ==> r == Some(j as usize),
{
    let ghost s = constructions.slots();
    let n = constructions.num_slots();
    let mut i: usize = 0;
    while i < n
        invariant
            n == s.len(),
            s == constructions.slots(),
            i <= n,
            forall|k: int|
                0 <= k < i ==> !(#[trigger] s[k].payload is Occupied && rect_contains(
                    s[k].payload->Occupied_0.spec_pos(),
                    s[k].payload->Occupied_0.spec_size(),
                    p,
                )),
        decreases n - i,
    {
        let at = match constructions.get_at(i) {
            Some(c) => in_rect(c.pos(), c.size(), p),
            None => false,
        };
        if at {
            proof {
                assert forall|j: int| #[trigger] first_site_covering(s, p, j) implies j == i by {
                    if j > i {
                        assert(!(s[i as int].payload is Occupied && rect_contains(
                            s[i as int].payload->Occupied_0.spec_pos(),
                            s[i as int].payload->Occupied_0.spec_size(),
                            p,
                        )));
                    }
                }
            }
            return Some(i);
        }
        i = i + 1;
    }
    proof {
        assert forall|j: int| !#[trigger] first_site_covering(s, p, j) by {
            if first_site_covering(s, p, j) {
                assert(!(s[j].payload is Occupied && rect_contains(s[j].payload->Occupied_0.spec_pos(), s[j].payload->Occupied_0.spec_size(), p)));
            }
        }
    }
    None
}

/// The site `b` is `a` with `n` more of `item` among its ingredients and no longer expecting
/// the transport `id`.
pub open spec fn site_received(a: Construction, b: Construction, item: ItemType, n: int, id: TransportId) -> bool {
    &&& b.spec_type() == a.spec_type()
    &&& b.spec_pos() == a.spec_pos()
    &&& b.spec_recipe() == a.spec_recipe()
    &&& b.spec_canceling() == a.spec_canceling()
    &&& b.spec_progress() == a.spec_progress()
    &&& b.expected() == without(a.expected(), id)
    &&& b.spec_ingredients().wf()
    &&& b.spec_ingredients()@ == a.spec_ingredients()@.insert(item, (count_of(a.spec_ingredients()@, item) + n) as usize)
}

/// Where a transport that has arrived is taken in: the first site covering its destination,
/// if that site still demands the amount; else the first building covering it, if that has
/// room for the amount.
pub open spec fn delivered_to(
    cs: Seq<EntityEntry<Construction>>,
    bs: Seq<EntityEntry<Building>>,
    t: Transport,
) -> Option<(bool, int)> {
    let site_ok = exists|j: int|
        #[trigger] first_site_covering(cs, t.dest, j) && {
            let c = cs[j].payload->Occupied_0;
            count_of(c.spec_ingredients()@, t.item) + t.amount <= count_of(c.spec_recipe().ingredients@, t.item)
        };
    let bld_ok = exists|k: int|
        #[trigger] first_at(bs, t.dest, k) && {
            let b = occupant(bs[k]);
            b.inventory.total() + t.amount <= spec_capacity(b.type_)
        };
    if site_ok {
        Some((true, choose|j: int| #[trigger] first_site_covering(cs, t.dest, j)))
    } else if bld_ok {
        Some((false, choose|k: int| #[trigger] first_at(bs, t.dest, k)))
    } else {
        None
    }
}

/// What taking in the arrived transport `t` (of id `id`) does to the sites and buildings:
/// nothing when no one takes it in; the site that does gets its amount of the item and no
/// longer expects it; the building that does gets its amount of the item.
pub open spec fn delivery_effect(
    cs0: Seq<EntityEntry<Construction>>,
    bs0: Seq<EntityEntry<Building>>,
    cs1: Seq<EntityEntry<Construction>>,
    bs1: Seq<EntityEntry<Building>>,
    t: Transport,
    id: TransportId,
) -> bool {
    match delivered_to(cs0, bs0, t) {
        None => cs1 == cs0 && bs1 == bs0,
        Some((true, j)) => {
            &&& bs1 == bs0
            &&& cs1.len() == cs0.len()
            &&& forall|i: int| 0 <= i < cs0.len() && i != j ==> #[trigger] cs1[i] == cs0[i]
            &&& cs1[j].gen == cs0[j].gen
            &&& cs1[j].payload is Occupied
            &&& site_received(cs0[j].payload->Occupied_0, cs1[j].payload->Occupied_0, t.item, t.amount as int, id)
        },
        Some((false, k)) => {
            &&& cs1 == cs0
            &&& bs1.len() == bs0.len()
            &&& forall|i: int| 0 <= i < bs0.len() && i != k ==> #[trigger] bs1[i] == bs0[i]
            &&& bs1[k].gen == bs0[k].gen
            &&& bs1[k].payload is Occupied
            &&& building_given(occupant(bs0[k]), occupant(bs1[k]), t.item, t.amount as int)
        },
    }
}

/// A transport that has arrived: one tile of its way or none is left.
pub open spec fn arrived(e: EntityEntry<Transport>) -> bool {
    e.payload is Occupied && e.payload->Occupied_0.path@.len() <= 1
}

/// What the transport of slot `i` does to the sites and buildings in its turn of the tick: an
/// arrived one is taken in (see `delivery_effect`), any other leaves them alone.
pub open spec fn transport_delivery(
    e: EntityEntry<Transport>,
    i: int,
    cs0: Seq<EntityEntry<Construction>>,
    bs0: Seq<EntityEntry<Building>>,
    cs1: Seq<EntityEntry<Construction>>,
    bs1: Seq<EntityEntry<Building>>,
) -> bool {
    if arrived(e) {
        forall|id: TransportId|
            id.index() == i && id.generation() == e.gen ==> #[trigger] delivery_effect(
                cs0,
                bs0,
                cs1,
                bs1,
                e.payload->Occupied_0,
                id,
            )
    } else {
        cs1 == cs0 && bs1 == bs0
    }
}

/// Hands an arrived transport `t` (of id `id`) to the site or building that takes it in, if
/// any, and tells whether one did.
fn deliver(
    constructions: &mut EntitySet<Construction>,
    buildings: &mut EntitySet<Building>,
    id: TransportId,
    t: &Transport,
) -> (r: bool)
    requires
        sites_ok(old(constructions).slots()),
        forall|i: int| 0 <= i < old(constructions).slots().len() && #[trigger] old(constructions).slots()[i].payload is Occupied
            ==> old(constructions).slots()[i].payload->Occupied_0.spec_recipe().ingredients.wf(),
        buildings_ok(old(buildings).slots()),
    ensures
        sites_ok(final(constructions).slots()),
        forall|i: int| 0 <= i < final(constructions).slots().len() && #[trigger] final(constructions).slots()[i].payload is Occupied
            ==> final(constructions).slots()[i].payload->Occupied_0.spec_recipe().ingredients.wf(),
        buildings_ok(final(buildings).slots()),
        final(constructions).free_head() == old(constructions).free_head(),
        r == delivered_to(old(constructions).slots(), old(buildings).slots(), *t) is Some,
        delivery_effect(
            old(constructions).slots(),
            old(buildings).slots(),
            final(constructions).slots(),
            final(buildings).slots(),
            *t,
            id,
        ),
{
    let ghost cs = constructions.slots();
    let ghost bs = buildings.slots();
    let item = t.item;
    let amount = t.amount;
    match find_site_covering(constructions, t.dest) {
        Some(j) => {
            let c = constructions.get_at(j).unwrap();
            proof {
                assert(cs[j as int].payload is Occupied);
            }
            let arrived = c.ingredients().get(&item);
            let demand = match c.recipe().ingredients.get(&item) {
                Some(d) => *d,
                None => 0,
            };
            if amount <= demand && arrived <= demand - amount {
                let c = constructions.get_mut_at(j).unwrap();
                let inv = c.inventory();
                let e = inv.entry(item);
                *e = *e + amount;
                c.clear_expected(id);
                proof {
                    assert(first_site_covering(cs, t.dest, j as int));
                    assert(delivered_to(cs, bs, *t) == Some((true, j as int)));
                    assert(sites_ok(constructions.slots())) by {
                        assert forall|m: int| 0 <= m < constructions.slots().len() && #[trigger] constructions.slots()[m].payload is Occupied
                            implies constructions.slots()[m].payload->Occupied_0.spec_ingredients().wf() by {
                            if m != j {
                                assert(constructions.slots()[m] == cs[m]);
                            }
                        }
                    }
                    assert forall|m: int| 0 <= m < constructions.slots().len() && #[trigger] constructions.slots()[m].payload is Occupied
                        implies constructions.slots()[m].payload->Occupied_0.spec_recipe().ingredients.wf() by {
                        if m != j {
                            assert(constructions.slots()[m] == cs[m]);
                        }
                    }
                }
                return true;
            }
        },
        None => {},
    }
    match crate::crew::find_building_at(buildings, t.dest) {
        Some(k) => {
            let b = buildings.get_at(k).unwrap();
            proof {
                assert(bs[k as int].payload is Occupied);
                assert(occupant(bs[k as int]).inventory.wf());
            }
            if has_room_for(b, amount) {
                proof {
                    crate::inventory::lemma_inventory_parts(occupant(bs[k as int]).inventory);
                    crate::inventory::lemma_count_le_total(occupant(bs[k as int]).inventory.spec_countable(), item);
                }
                let b = buildings.get_mut_at(k).unwrap();
                let e = b.inventory.entry(item);
                *e = *e + amount;
                proof {
                    assert(buildings_ok(buildings.slots())) by {
                        assert forall|m: int| 0 <= m < buildings.slots().len() && #[trigger] buildings.slots()[m].payload is Occupied
                            implies occupant(buildings.slots()[m]).inventory.wf() && pos_in_range(occupant(buildings.slots()[m]).pos) by {
                            if m != k {
                                assert(buildings.slots()[m] == bs[m]);
                            }
                        }
                    }
                }
                return true;
            }
        },
        None => {},
    }
    false
}

/// Whether the building has room for `amount` more items than it holds.
fn has_room_for(b: &Building, amount: usize) -> (r: bool)
    requires
        b.inventory.wf(),
    ensures
        r == (b.inventory.total() + amount <= spec_capacity(b.type_)),
{
    let ents = b.inventory.iter();
    proof {
        crate::inventory::lemma_total_is_sum(b.inventory.spec_countable());
    }
    let cap = b.type_.capacity();
    if amount > cap {
        return false;
    }
    let mut sum: usize = amount;
    let mut i: usize = 0;
    while i < ents.len()
        invariant
            i <= ents@.len(),
            sum == amount + crate::inventory::entries_sum(ents@.take(i as int)),
            sum <= cap,
            crate::inventory::entries_sum(ents@) == b.inventory.total(),
            cap == spec_capacity(b.type_),
        decreases ents@.len() - i,
    {
        proof {
            assert(ents@.take(i + 1).drop_last() =~= ents@.take(i as int));
        }
        if ents[i].1 > cap - sum {
            proof {
                crate::inventory::lemma_sum_prefix(ents@, i + 1);
            }
            return false;
        }
        sum = sum + ents[i].1;
        i = i + 1;
    }
    proof {
        assert(ents@.take(i as int) =~= ents@);
    }
    true
}

/// A transport may return over tile `p` coming from `from`: a single belt handing items that
/// way, or, at the start, any conveyor.
pub open spec fn return_passable(tiles: Tiles, from: Option<Direction>, p: Pos) -> bool {
    let c = tiles.spec_tile_at(p).conveyor;
    match from {
        Some(d) => c matches Conveyor::One(_, to) && to == d,
        None => c != Conveyor::Empty,
    }
}

/// A way back for a transport from `start` to `goal`, goal first: at least two tiles, every
/// one but the start one step from the next and passable for a return.
pub open spec fn return_path_ok(tiles: Tiles, start: Pos, goal: Pos, path: Seq<Pos>) -> bool {
    &&& path.len() >= 2
    &&& path[0] == goal
    &&& path.last() == start
    &&& forall|k: int| 0 <= k < path.len() - 1 ==> #[trigger] return_step_ok(tiles, path, k)
}

/// Tile `k` of a way back is one step from tile `k + 1` and passable coming that way.
pub open spec fn return_step_ok(tiles: Tiles, path: Seq<Pos>, k: int) -> bool {
    exists|d: Direction| #[trigger] step_to(path[k + 1], d, path[k]) && return_passable(tiles, Some(d), path[k])
}

/// Searches a way back over the conveyors from `start` to `goal`.
/// Tile `w[i]` of a walk is passable for a return, entered from tile `w[i - 1]`.
pub open spec fn return_into(tiles: Tiles, w: Seq<Pos>, i: int) -> bool {
    forall|d: Direction| #[trigger] step_to(w[i - 1], d, w[i]) ==> return_passable(tiles, Some(d), w[i])
}

/// A way back over the conveyors from `start` to another tile `goal`, read from the start.
pub open spec fn return_walk(tiles: Tiles, start: Pos, goal: Pos, w: Seq<Pos>) -> bool {
    &&& walk_from(seq![start], w)
    &&& w.len() >= 2
    &&& w.last() == goal
    &&& goal != start
    &&& forall|i: int| 1 <= i < w.len() ==> #[trigger] return_into(tiles, w, i)
}

/// What a search for a way back that found none states, read over the conveyors.
proof fn lemma_return_none<G: Fn(Pos) -> bool, P: Fn(Option<Direction>, Pos) -> bool>(
    tiles: Tiles,
    start: Pos,
    goal: Pos,
    goal_fn: G,
    pass: P,
)
    requires
        forall|p: Pos, r: bool| #[trigger] call_ensures(goal_fn, (p,), r) ==> r == (p == goal),
        forall|f: Option<Direction>, p: Pos, r: bool| #[trigger] call_ensures(pass, (f, p), r) ==> r == return_passable(tiles, f, p),
        forall|w: Seq<Pos>| #[trigger] admissible_walk(seq![start], w, goal_fn, pass) ==> w.len() > usize::MAX,
    ensures
        forall|w: Seq<Pos>| #[trigger] return_walk(tiles, start, goal, w) ==> w.len() > usize::MAX,
{
    assert forall|w: Seq<Pos>| #[trigger] return_walk(tiles, start, goal, w) implies w.len() > usize::MAX by {
        assert forall|i: int| 1 <= i < w.len() implies #[trigger] passes_into(pass, w, i) by {
            assert(return_into(tiles, w, i));
        }
        assert forall|r: bool| #[trigger] call_ensures(goal_fn, (w.last(),), r) implies r by {
        }
        assert(!seq![start].contains(w.last())) by {
            if seq![start].contains(w.last()) {
                let j = choose|j: int| 0 <= j < seq![start].len() && seq![start][j] == w.last();
                assert(seq![start][j] == start);
            }
        }
        assert(admissible_walk(seq![start], w, goal_fn, pass));
    }
}

fn return_path(tiles: &Tiles, start: Pos, goal: Pos) -> (r: Option<Vec<Pos>>)
    requires
        tiles.wf(),
    ensures
        r matches Some(path) ==> return_path_ok(*tiles, start, goal, path@),
        r is None ==> forall|w: Seq<Pos>| #[trigger] return_walk(*tiles, start, goal, w) ==> w.len() > usize::MAX,
{
    let mut starts: Vec<Pos> = Vec::new();
    starts.push(start);
    let goal_fn = |p: Pos| -> (r: bool)
        ensures
            r == (p == goal),
        { pos_eq(p, goal) };
    let pass = |from: Option<Direction>, p: Pos| -> (r: bool)
        requires
            tiles.wf(),
        ensures
            r == return_passable(*tiles, from, p),
        {
            let c = tiles.index(p).conveyor;
            match from {
                Some(d) => match c {
                    Conveyor::One(_, to) => to == d,
                    _ => false,
                },
                None => c.is_some(),
            }
        };
    let r = find_multipath(&starts, goal_fn, pass);
    proof {
        if let Some(ref path) = r {
            assert(starts@.contains(path@.last()));
            assert(starts@[0] == start);
            assert forall|k: int| 0 <= k < path@.len() - 1 implies #[trigger] return_step_ok(*tiles, path@, k) by {
                assert(path@.contains(path@[k]));
                let d = choose|d: Direction| step_to(path@[k + 1], d, path@[k]) && call_ensures(pass, (Some(d), path@[k]), true);
                assert(step_to(path@[k + 1], d, path@[k]));
            }
        }
        if r is None {
            assert(starts@ =~= seq![start]);
            lemma_return_none(*tiles, start, goal, goal_fn, pass);
        }
    }
    r
}

/// A transport under way moves on: its last tile is left behind when the path has at most
/// two tiles or no transport occupied the next tile at the start of the tick; otherwise it
/// waits.
pub open spec fn moved_on(t0: Transport, t1: Transport, ts: Seq<EntityEntry<Transport>>) -> bool {
    let p = t0.path@;
    &&& t1.src == t0.src
    &&& t1.dest == t0.dest
    &&& t1.item == t0.item
    &&& t1.amount == t0.amount
    &&& t1.path@ == (if p.len() <= 2 || !occupied_tiles(ts, p[p.len() - 2]) { p.drop_last() } else { p })
}

/// An arrived transport that no site or building took in turns back, when a way back is
/// found, or stays where it is; it stays only when no way back over the conveyors of at most
/// `usize::MAX` tiles exists.
pub open spec fn turned_back(tiles: Tiles, t0: Transport, t1: Transport) -> bool {
    &&& t1.item == t0.item
    &&& t1.amount == t0.amount
    &&& (t1.src == t0.dest && t1.dest == t0.src && return_path_ok(tiles, t0.dest, t0.src, t1.path@)) || (t1.src == t0.src
        && t1.dest == t0.dest && t1.path@ == t0.path@ && forall|w: Seq<Pos>|
        #[trigger] return_walk(tiles, t0.dest, t0.src, w) ==> w.len() > usize::MAX)
}

/// What becomes of an arrived transport `t0` that no one took in (slot `e1` after the tick):
/// it is still there and turned back or stayed; only one that had no tile of its way left
/// and found no way back is dropped.
pub open spec fn kept_back(tiles: Tiles, t0: Transport, e1: EntityEntry<Transport>) -> bool {
    ||| e1.payload matches EntryPayload::Occupied(t1) && turned_back(tiles, t0, t1)
    ||| t0.path@.len() == 0 && e1.payload is Free
}

/// The last tiles of the paths of the transports, where they are now.
pub open spec fn occupied_tiles(s: Seq<EntityEntry<Transport>>, p: Pos) -> bool {
    exists|k: int|
        0 <= k < s.len() && #[trigger] s[k].payload is Occupied && s[k].payload->Occupied_0.path@.len() > 0
            && s[k].payload->Occupied_0.path@.last() == p
}

fn occupied_list(transports: &EntitySet<Transport>) -> (r: Vec<Pos>)
    ensures
        forall|p: Pos| r@.contains(p) <==> occupied_tiles(transports.slots(), p),
{
    let ghost s = transports.slots();
    let mut out: Vec<Pos> = Vec::new();
    let n = transports.num_slots();
    let mut i: usize = 0;
    while i < n
        invariant
            n == s.len(),
            s == transports.slots(),
            i <= n,
            forall|p: Pos|
                out@.contains(p) <==> exists|k: int|
                    0 <= k < i && #[trigger] s[k].payload is Occupied && s[k].payload->Occupied_0.path@.len() > 0
                        && s[k].payload->Occupied_0.path@.last() == p,
        decreases n - i,
    {
        match transports.get_at(i) {
            Some(t) => {
                let len = t.path.len();
                if len > 0 {
                    let last = t.path[len - 1];
                    let ghost before = out@;
                    out.push(last);
                    proof {
                        assert forall|p: Pos|
                            out@.contains(p) <==> exists|k: int|
                                0 <= k < i + 1 && #[trigger] s[k].payload is Occupied && s[k].payload->Occupied_0.path@.len()
                                    > 0 && s[k].payload->Occupied_0.path@.last() == p by {
                            if out@.contains(p) {
                                let m = choose|m: int| 0 <= m < out@.len() && out@[m] == p;
                                if m < before.len() {
                                    assert(before.contains(p));
                                } else {
                                    assert(s[i as int].payload is Occupied);
                                }
                            }
                            if exists|k: int|
                                0 <= k < i + 1 && #[trigger] s[k].payload is Occupied && s[k].payload->Occupied_0.path@.len() > 0
                                    && s[k].payload->Occupied_0.path@.last() == p {
                                let k = choose|k: int|
                                    0 <= k < i + 1 && #[trigger] s[k].payload is Occupied && s[k].payload->Occupied_0.path@.len()
                                        > 0 && s[k].payload->Occupied_0.path@.last() == p;
                                if k < i {
                                    assert(before.contains(p));
                                    let m = choose|m: int| 0 <= m < before.len() && before[m] == p;
                                    assert(out@[m] == p);
                                } else {
                                    assert(out@[out@.len() - 1] == p);
                                }
                            }
                        }
                    }
                } else {
                    proof {
                        assert forall|p: Pos|
                            out@.contains(p) <==> exists|k: int|
                                0 <= k < i + 1 && #[trigger] s[k].payload is Occupied && s[k].payload->Occupied_0.path@.len()
                                    > 0 && s[k].payload->Occupied_0.path@.last() == p by {
                            if exists|k: int|
                                0 <= k < i + 1 && #[trigger] s[k].payload is Occupied && s[k].payload->Occupied_0.path@.len() > 0
                                    && s[k].payload->Occupied_0.path@.last() == p {
                                let k = choose|k: int|
                                    0 <= k < i + 1 && #[trigger] s[k].payload is Occupied && s[k].payload->Occupied_0.path@.len()
                                        > 0 && s[k].payload->Occupied_0.path@.last() == p;
                                assert(k < i);
                            }
                        }
                    }
                }
            },
            None => {},
        }
        i = i + 1;
    }
    out
}

/// Every site of the slots has a well formed recipe.
pub open spec fn recipes_ok(s: Seq<EntityEntry<Construction>>) -> bool {
    forall|i: int| 0 <= i < s.len() && #[trigger] s[i].payload is Occupied ==> s[i].payload->Occupied_0.spec_recipe().ingredients.wf()
}

/// Two slot sequences of sites agree on everything but the sites' ingredients and expected
/// transports.
pub open spec fn sites_same_but_contents(a: Seq<EntityEntry<Construction>>, b: Seq<EntityEntry<Construction>>) -> bool {
    &&& a.len() == b.len()
    &&& forall|i: int|
        0 <= i < a.len() ==> {
            &&& (#[trigger] b[i]).gen == a[i].gen
            &&& (b[i].payload is Occupied <==> a[i].payload is Occupied)
            &&& (a[i].payload matches EntryPayload::Free(n) ==> b[i].payload == EntryPayload::<Construction>::Free(n))
            &&& (a[i].payload is Occupied ==> {
                let x = a[i].payload->Occupied_0;
                let y = b[i].payload->Occupied_0;
                &&& y.spec_type() == x.spec_type()
                &&& y.spec_pos() == x.spec_pos()
                &&& y.spec_recipe() == x.spec_recipe()
                &&& y.spec_canceling() == x.spec_canceling()
                &&& y.spec_progress() == x.spec_progress()
            })
        }
}

/// What the first pass of a tick does to one transport slot, before the transports taken in
/// are dropped: those have an empty path.
pub open spec fn transport_stepped(tiles: Tiles, ts: Seq<EntityEntry<Transport>>, e0: EntityEntry<Transport>, e1: EntityEntry<Transport>) -> bool {
    &&& e1.gen == e0.gen
    &&& match e0.payload {
        EntryPayload::Free(_) => e1 == e0,
        EntryPayload::Occupied(t0) => e1.payload matches EntryPayload::Occupied(t1) && if t0.path@.len() > 1 {
            moved_on(t0, t1, ts)
        } else {
            t1.path@.len() == 0 || turned_back(tiles, t0, t1)
        },
    }
}

/// What a tick does to one transport slot: a free slot stays; a transport under way moves on;
/// an arrived transport is taken in (its slot is freed) or turns back or stays.
pub open spec fn transport_ticked(
    tiles: Tiles,
    ts: Seq<EntityEntry<Transport>>,
    free: Option<usize>,
    e0: EntityEntry<Transport>,
    e1: EntityEntry<Transport>,
) -> bool {
    &&& e1.gen == e0.gen
    &&& match e0.payload {
        EntryPayload::Free(_) => e1 == e0,
        EntryPayload::Occupied(t0) => if t0.path@.len() > 1 {
            e1.payload matches EntryPayload::Occupied(t1) && moved_on(t0, t1, ts)
        } else {
            e1.payload == EntryPayload::<Transport>::Free(free) || (e1.payload matches EntryPayload::Occupied(t1)
                && turned_back(tiles, t0, t1) && t1.path@.len() > 0)
        },
    }
}

impl AsteroidColoniesGame {
    /// One tick of transports: a transport under way moves one tile on unless the next tile was
    /// occupied by a transport at the start of the tick (the last two tiles are never
    /// blocked); an arrived transport is taken in by the first site covering its destination
    /// that still demands it, else by the first building covering it that has room; one that
    /// is not taken in turns back over the conveyors if it can, else stays where it is.
    /// Transports taken in are gone, and so is one not taken in with no tile of its way left
    /// and no way back.
    pub fn process_transports(&mut self)
        requires
            old(self).tiles.wf(),
            sites_ok(old(self).constructions.slots()),
            recipes_ok(old(self).constructions.slots()),
            buildings_ok(old(self).buildings.slots()),
            old(self).transports.slots().len() <= u32::MAX,
        ensures
            final(self).tiles == old(self).tiles,
            final(self).crews == old(self).crews,
            final(self).global_tasks == old(self).global_tasks,
            final(self).global_time == old(self).global_time,
            sites_ok(final(self).constructions.slots()),
            recipes_ok(final(self).constructions.slots()),
            buildings_ok(final(self).buildings.slots()),
            sites_same_but_contents(old(self).constructions.slots(), final(self).constructions.slots()),
            slots_same_but_inventories(old(self).buildings.slots(), final(self).buildings.slots()),
            final(self).transports.free_head() == old(self).transports.free_head(),
            final(self).transports.slots().len() == old(self).transports.slots().len(),
            forall|i: int|
                0 <= i < old(self).transports.slots().len() ==> transport_ticked(
                    old(self).tiles,
                    old(self).transports.slots(),
                    old(self).transports.free_head(),
                    old(self).transports.slots()[i],
                    #[trigger] final(self).transports.slots()[i],
                ),
            exists|css: Seq<Seq<EntityEntry<Construction>>>, bss: Seq<Seq<EntityEntry<Building>>>|
                {
                    &&& css.len() == old(self).transports.slots().len() + 1
                    &&& bss.len() == old(self).transports.slots().len() + 1
                    &&& css[0] == old(self).constructions.slots()
                    &&& bss[0] == old(self).buildings.slots()
                    &&& css.last() == final(self).constructions.slots()
                    &&& bss.last() == final(self).buildings.slots()
                    &&& forall|i: int|
                        0 <= i < old(self).transports.slots().len() ==> #[trigger] transport_delivery(
                            old(self).transports.slots()[i],
                            i,
                            css[i],
                            bss[i],
                            css[i + 1],
                            bss[i + 1],
                        )
                    &&& forall|i: int|
                        0 <= i < old(self).transports.slots().len() && #[trigger] arrived(old(self).transports.slots()[i])
                            && delivered_to(css[i], bss[i], old(self).transports.slots()[i].payload->Occupied_0) is Some
                            ==> final(self).transports.slots()[i].payload is Free
                    &&& forall|i: int|
                        0 <= i < old(self).transports.slots().len() && #[trigger] arrived(old(self).transports.slots()[i])
                            && delivered_to(css[i], bss[i], old(self).transports.slots()[i].payload->Occupied_0) is None
                            ==> kept_back(old(self).tiles, old(self).transports.slots()[i].payload->Occupied_0, final(self).transports.slots()[i])
                },
    {
        let occupied = occupied_list(&self.transports);
        let ghost ts0 = self.transports.slots();
        let ghost cs0 = self.constructions.slots();
        let ghost bs0 = self.buildings.slots();
        let n = self.transports.num_slots();
        let ghost mut css: Seq<Seq<EntityEntry<Construction>>> = seq![cs0];
        let ghost mut bss: Seq<Seq<EntityEntry<Building>>> = seq![bs0];
        let mut i: usize = 0;
        while i < n
            invariant
                css.len() == i + 1,
                bss.len() == i + 1,
                css[0] == cs0,
                bss[0] == bs0,
                css.last() == self.constructions.slots(),
                bss.last() == self.buildings.slots(),
                forall|k: int| 0 <= k < i ==> #[trigger] transport_delivery(ts0[k], k, css[k], bss[k], css[k + 1], bss[k + 1]),
                forall|k: int|
                    0 <= k < i && #[trigger] arrived(ts0[k]) && delivered_to(css[k], bss[k], ts0[k].payload->Occupied_0) is Some
                        ==> self.transports.slots()[k].payload is Occupied && self.transports.slots()[k].payload->Occupied_0.path@.len() == 0,
                forall|k: int|
                    0 <= k < i && #[trigger] arrived(ts0[k]) && delivered_to(css[k], bss[k], ts0[k].payload->Occupied_0) is None
                        ==> self.transports.slots()[k].payload is Occupied && turned_back(
                        self.tiles,
                        ts0[k].payload->Occupied_0,
                        self.transports.slots()[k].payload->Occupied_0,
                    ),
                n == ts0.len(),
                ts0 == old(self).transports.slots(),
                cs0 == old(self).constructions.slots(),
                bs0 == old(self).buildings.slots(),
                n <= u32::MAX,
                i <= n,
                self.tiles == old(self).tiles,
                self.tiles.wf(),
                self.crews == old(self).crews,
                self.global_tasks == old(self).global_tasks,
                self.global_time == old(self).global_time,
                self.transports.slots().len() == n,
                self.transports.free_head() == old(self).transports.free_head(),
                sites_ok(self.constructions.slots()),
                recipes_ok(self.constructions.slots()),
                buildings_ok(self.buildings.slots()),
                sites_same_but_contents(cs0, self.constructions.slots()),
                slots_same_but_inventories(bs0, self.buildings.slots()),
                forall|p: Pos| occupied@.contains(p) <==> occupied_tiles(ts0, p),
                forall|k: int| i <= k < n ==> #[trigger] self.transports.slots()[k] == ts0[k],
                forall|k: int|
                    0 <= k < i ==> transport_stepped(self.tiles, ts0, ts0[k], #[trigger] self.transports.slots()[k]),
            decreases n - i,
        {
            let gen = self.transports.slot_gen(i);
            let id: TransportId = EntityId::new(i as u32, gen);
            let ghost tsb = self.transports.slots();
            let ghost csb = self.constructions.slots();
            let ghost bsb = self.buildings.slots();
            match self.transports.get_mut_at(i) {
                Some(t) => {
                    let len = t.path.len();
                    if len <= 1 {
                        let delivered = deliver(&mut self.constructions, &mut self.buildings, id, t);
                        if delivered {
                            t.path.clear();
                        } else {
                            match return_path(&self.tiles, t.dest, t.src) {
                                Some(rp) => {
                                    let src = t.src;
                                    t.src = t.dest;
                                    t.dest = src;
                                    t.path = rp;
                                },
                                None => {},
                            }
                        }
                    } else if len <= 2 || !pos_in(&occupied, t.path[len - 2]) {
                        t.path.pop();
                    }
                },
                None => {},
            }
            proof {
                let ghost cs1 = self.constructions.slots();
                let ghost bs1 = self.buildings.slots();
                assert(css.last() == csb);
                if arrived(ts0[i as int]) {
                    assert forall|x: TransportId|
                        x.index() == i && x.generation() == ts0[i as int].gen implies #[trigger] delivery_effect(
                            csb,
                            bsb,
                            cs1,
                            bs1,
                            ts0[i as int].payload->Occupied_0,
                            x,
                        ) by {
                        crate::entity::lemma_id_ext(x, id);
                    }
                }
                css = css.push(cs1);
                bss = bss.push(bs1);
                assert forall|k: int| 0 <= k < i + 1 implies #[trigger] transport_delivery(ts0[k], k, css[k], bss[k], css[k + 1], bss[k + 1]) by {
                    if k == i {
                        assert(css[k] == csb && bss[k] == bsb && css[k + 1] == cs1 && bss[k + 1] == bs1);
                    }
                }
            }
            i = i + 1;
        }
        let ghost tsm = self.transports.slots();
        self.transports.retain(|t: &Transport| -> (r: bool)
            ensures
                r == (t.path@.len() > 0),
            { t.path.len() > 0 });
        proof {
            assert forall|k: int|
                0 <= k < n && #[trigger] arrived(ts0[k]) && delivered_to(css[k], bss[k], ts0[k].payload->Occupied_0) is Some
                    implies self.transports.slots()[k].payload is Free by {
                assert(tsm[k].payload is Occupied && tsm[k].payload->Occupied_0.path@.len() == 0);
            }
            assert forall|k: int|
                0 <= k < n && #[trigger] arrived(ts0[k]) && delivered_to(css[k], bss[k], ts0[k].payload->Occupied_0) is None
                    implies kept_back(self.tiles, ts0[k].payload->Occupied_0, self.transports.slots()[k]) by {
                assert(tsm[k].payload is Occupied);
                assert(turned_back(self.tiles, ts0[k].payload->Occupied_0, tsm[k].payload->Occupied_0));
                if tsm[k].payload->Occupied_0.path@.len() > 0 {
                    assert(self.transports.slots()[k].payload == tsm[k].payload);
                }
            }
        }
    }
}

/// The type of item the recipe at `i` of the list makes: its first output.
pub open spec fn recipe_key(i: int) -> ItemType {
    recipe_list()[i].1[0].0
}

/// The entries of a well formed inventory with a single type are that one entry.
impl AsteroidColoniesGame {
    /// The recipes an assembler at `[ix, iy]` can take. The point must lie in the initial area,
    /// and the first building covering it must be an assembler.
    pub fn get_recipes(&self, ix: i32, iy: i32) -> (r: Result<Vec<Recipe>, String>)
        requires
            buildings_ok(self.buildings.slots()),
        ensures
            !(0 <= ix < WIDTH && 0 <= iy < HEIGHT) ==> (r matches Err(e) && e@ == "Point outside tile"@),
            0 <= ix < WIDTH && 0 <= iy < HEIGHT && none_at(self.buildings.slots(), pos_of(ix, iy)) ==> (r matches Err(e) && e@
                == "The building does not exist at the target"@),
            forall|j: int|
                0 <= ix < WIDTH && 0 <= iy < HEIGHT && #[trigger] first_at(self.buildings.slots(), pos_of(ix, iy), j) ==> {
                    &&& occupant(self.buildings.slots()[j]).type_ != BuildingType::Assembler ==> (r matches Err(e) && e@
                        == "The building is not an assembler"@)
                    &&& occupant(self.buildings.slots()[j]).type_ == BuildingType::Assembler ==> (r matches Ok(list) && list@.len()
                        == recipe_list().len() && forall|i: int| 0 <= i < list@.len() ==> recipe_is(#[trigger] list@[i], i))
                },
    {
        if ix < 0 || WIDTH as i32 <= ix || iy < 0 || HEIGHT as i32 <= iy {
            return Err(String::from_str("Point outside tile"));
        }
        let pos: Pos = [ix, iy];
        proof {
            assert(pos == pos_of(ix, iy));
        }
        let j = match crate::crew::find_building_at(&self.buildings, pos) {
            Some(j) => j,
            None => {
                return Err(String::from_str("The building does not exist at the target"));
            },
        };
        let b = self.buildings.get_at(j).unwrap();
        if !matches!(b.type_, BuildingType::Assembler) {
            return Err(String::from_str("The building is not an assembler"));
        }
        Ok(recipes())
    }

    /// Sets the recipe of the assembler covering `[ix, iy]` (the first building covering it):
    /// none, or the first recipe whose product is named `name`; an unknown name leaves the
    /// recipe as it was.
    pub fn set_recipe(&mut self, ix: i32, iy: i32, name: Option<&str>) -> (r: Result<(), String>)
        requires
            buildings_ok(old(self).buildings.slots()),
        ensures
            final(self).tiles == old(self).tiles,
            final(self).crews == old(self).crews,
            final(self).transports == old(self).transports,
            final(self).constructions == old(self).constructions,
            final(self).global_tasks == old(self).global_tasks,
            final(self).global_time == old(self).global_time,
            buildings_ok(final(self).buildings.slots()),
            r is Err ==> final(self).buildings.slots() == old(self).buildings.slots(),
            none_at(old(self).buildings.slots(), pos_of(ix, iy)) ==> (r matches Err(e) && e@
                == "The building does not exist at the target"@),
            forall|j: int|
                #[trigger] first_at(old(self).buildings.slots(), pos_of(ix, iy), j) ==> {
                    let b = occupant(old(self).buildings.slots()[j]);
                    &&& b.type_ != BuildingType::Assembler ==> (r matches Err(e) && e@ == "The building is not an assembler"@)
                    &&& b.type_ == BuildingType::Assembler ==> {
                        &&& r is Ok
                        &&& final(self).buildings.slots().len() == old(self).buildings.slots().len()
                        &&& forall|i: int| 0 <= i < old(self).buildings.slots().len() && i != j ==> #[trigger] final(self).buildings.slots()[i]
                            == old(self).buildings.slots()[i]
                        &&& final(self).buildings.slots()[j].gen == old(self).buildings.slots()[j].gen
                        &&& final(self).buildings.slots()[j].payload is Occupied
                        &&& {
                            let b2 = occupant(final(self).buildings.slots()[j]);
                            &&& b2.pos == b.pos
                            &&& b2.type_ == b.type_
                            &&& b2.task == b.task
                            &&& b2.inventory == b.inventory
                            &&& b2.crews == b.crews
                            &&& b2.direction == b.direction
                            &&& b2.energy == b.energy
                            &&& b2.expected_transports == b.expected_transports
                            &&& match name {
                                None => b2.recipe is None,
                                Some(n) => {
                                    let found = exists|i: int| 0 <= i < recipe_list().len() && item_name(#[trigger] recipe_key(i)) == n@;
                                    &&& !found ==> b2.recipe == b.recipe
                                    &&& forall|i: int|
                                        0 <= i < recipe_list().len() && item_name(#[trigger] recipe_key(i)) == n@ && (forall|k: int|
                                            0 <= k < i ==> item_name(recipe_key(k)) != n@) ==> (b2.recipe matches Some(x) && x.inputs@
                                            == ingredients_of(recipe_list()[i].0) && x.outputs@ == ingredients_of(recipe_list()[i].1)
                                            && x.time == recipe_list()[i].2)
                                },
                            }
                        }
                    }
                },
    {
        let pos: Pos = [ix, iy];
        proof {
            assert(pos == pos_of(ix, iy));
        }
        let j = match crate::crew::find_building_at(&self.buildings, pos) {
            Some(j) => j,
            None => {
                return Err(String::from_str("The building does not exist at the target"));
            },
        };
        let ghost bs0 = self.buildings.slots();
        let is_assembler = matches!(self.buildings.get_at(j).unwrap().type_, BuildingType::Assembler);
        if !is_assembler {
            return Err(String::from_str("The building is not an assembler"));
        }
        let n = match name {
            None => {
                let b = self.buildings.get_mut_at(j).unwrap();
                let _ = b.set_recipe(None);
                proof {
                    assert(buildings_ok(self.buildings.slots())) by {
                        assert forall|m: int| 0 <= m < self.buildings.slots().len() && #[trigger] self.buildings.slots()[m].payload is Occupied
                            implies occupant(self.buildings.slots()[m]).inventory.wf() && pos_in_range(occupant(self.buildings.slots()[m]).pos) by {
                            if m != j {
                                assert(self.buildings.slots()[m] == bs0[m]);
                            }
                        }
                    }
                }
                return Ok(());
            },
            Some(n) => n,
        };
        let wanted = String::from_str(n);
        let list = recipes();
        let mut i: usize = 0;
        while i < list.len()
            invariant
                i <= list@.len(),
                list@.len() == recipe_list().len(),
                forall|k: int| 0 <= k < list@.len() ==> recipe_is(#[trigger] list@[k], k),
                wanted@ == n@,
                name == Some(n),
                forall|k: int| 0 <= k < i ==> item_name(#[trigger] recipe_key(k)) != n@,
                self.buildings.slots() == bs0,
                bs0 == old(self).buildings.slots(),
                j < bs0.len(),
                bs0[j as int].payload is Occupied,
                occupant(bs0[j as int]).type_ == BuildingType::Assembler,
                buildings_ok(bs0),
                first_at(bs0, pos_of(ix, iy), j as int),
                forall|j2: int| #[trigger] first_at(bs0, pos_of(ix, iy), j2) ==> j2 == j,
                self.tiles == old(self).tiles,
                self.crews == old(self).crews,
                self.transports == old(self).transports,
                self.constructions == old(self).constructions,
                self.global_tasks == old(self).global_tasks,
                self.global_time == old(self).global_time,
            decreases list@.len() - i,
        {
            proof {
                assert(recipe_is(list@[i as int], i as int));
                reveal_with_fuel(ingredients_of, 2);
                lemma_single_entry(list@[i as int].outputs, recipe_key(i as int), recipe_list()[i as int].1[0].1);
            }
            let keys = list[i].outputs.keys();
            if keys.len() > 0 {
                let key_name = String::from_str(keys[0].name());
                if key_name == wanted {
                    let b = self.buildings.get_mut_at(j).unwrap();
                    let _ = b.set_recipe(Some(&list[i]));
                    proof {
                        assert(buildings_ok(self.buildings.slots())) by {
                            assert forall|m: int| 0 <= m < self.buildings.slots().len() && #[trigger] self.buildings.slots()[m].payload is Occupied
                                implies occupant(self.buildings.slots()[m]).inventory.wf() && pos_in_range(occupant(self.buildings.slots()[m]).pos) by {
                                if m != j {
                                    assert(self.buildings.slots()[m] == bs0[m]);
                                }
                            }
                        }
                        assert(keys@[0] == recipe_key(i as int));
                        assert(item_name(recipe_key(i as int)) == n@);
                        assert forall|i2: int|
                            0 <= i2 < recipe_list().len() && item_name(#[trigger] recipe_key(i2)) == n@ && (forall|k: int|
                                0 <= k < i2 ==> item_name(recipe_key(k)) != n@) implies i2 == i by {
                            if i2 > i {
                                assert(item_name(recipe_key(i as int)) != n@);
                            }
                        }

                    }
                    return Ok(());
                }
            }
            i = i + 1;
        }
        Ok(())
    }
}

proof fn lemma_move_errors_differ()
    ensures
        "Building at that position is not mobile"@ != "Failed to find the path"@,
        "The building is busy; wait for the building to finish the current task"@ != "Failed to find the path"@,
{
    reveal_strlit("Building at that position is not mobile");
    reveal_strlit("Failed to find the path");
    reveal_strlit("The building is busy; wait for the building to finish the current task");
    assert("Building at that position is not mobile"@.len() == 39);
    assert("Failed to find the path"@.len() == 23);
    assert("The building is busy; wait for the building to finish the current task"@.len() == 70);
}

/// A moving building may pass tile `p`: no building covers it, and it is excavated ground
/// with a power grid.
pub open spec fn move_passable(tiles: Tiles, bs: Seq<EntityEntry<Building>>, p: Pos) -> bool {
    &&& none_at(bs, p)
    &&& tiles.spec_tile_at(p).state == TileState::Empty
    &&& tiles.spec_tile_at(p).power_grid
}

/// The test a moving building passes tiles by.
pub open spec fn move_pass_fn(tiles: Tiles, bs: Seq<EntityEntry<Building>>) -> spec_fn(Pos) -> bool {
    |p: Pos| move_passable(tiles, bs, p)
}

/// A path for a moving building from `start` to `goal`, goal first: at least two tiles, every
/// one but the start passable and one step from the next.
pub open spec fn move_path_ok(tiles: Tiles, bs: Seq<EntityEntry<Building>>, start: Pos, goal: Pos, path: Seq<Pos>) -> bool {
    path_over(start, goal, path, move_pass_fn(tiles, bs))
}

fn move_path(tiles: &Tiles, buildings: &EntitySet<Building>, start: Pos, goal: Pos) -> (r: Option<Vec<Pos>>)
    requires
        tiles.wf(),
        buildings_ok(buildings.slots()),
    ensures
        r matches Some(path) ==> move_path_ok(*tiles, buildings.slots(), start, goal, path@),
        start == goal ==> r is None,
        start != goal && r is None ==> forall|q: Seq<Pos>|
            #[trigger] move_path_ok(*tiles, buildings.slots(), start, goal, q) ==> q.len() > usize::MAX,
{
    let pass = |p: Pos| -> (r: bool)
        requires
            tiles.wf(),
            buildings_ok(buildings.slots()),
        ensures
            r == move_passable(*tiles, buildings.slots(), p),
        {
            let t = tiles.index(p);
            crate::crew::find_building_at(buildings, p).is_none() && matches!(t.state, TileState::Empty) && t.power_grid
        };
    let r = find_path(start, goal, pass);
    proof {
        if let Some(ref path) = r {
            assert forall|k: int| 0 <= k < path@.len() - 1 implies move_pass_fn(*tiles, buildings.slots())(#[trigger] path@[k])
                && exists|d: Direction| #[trigger] step_to(path@[k + 1], d, path@[k]) by {
                assert(call_ensures(pass, (path@[k],), true));
            }
        }
        if start != goal && r is None {
            assert forall|p: Pos, rr: bool| #[trigger] call_ensures(pass, (p,), rr) implies rr == move_pass_fn(*tiles, buildings.slots())(p) by {
            }
            lemma_open_over(start, goal, pass, move_pass_fn(*tiles, buildings.slots()));
        }
    }
    r
}

impl AsteroidColoniesGame {
    /// Starts moving the building whose top left tile is `src` (the first one, in slot order)
    /// to `dest`: it must be of a mobile type and idle, and a path over excavated, powered
    /// tiles that no building covers must lead there. The building then moves along it.
    pub fn move_building(&mut self, src: Pos, dest: Pos) -> (r: Result<(), String>)
        requires
            old(self).tiles.wf(),
            buildings_ok(old(self).buildings.slots()),
        ensures
            final(self).tiles == old(self).tiles,
            final(self).crews == old(self).crews,
            final(self).transports == old(self).transports,
            final(self).constructions == old(self).constructions,
            final(self).global_tasks == old(self).global_tasks,
            final(self).global_time == old(self).global_time,
            buildings_ok(final(self).buildings.slots()),
            r is Err ==> final(self).buildings.slots() == old(self).buildings.slots(),
            (forall|j: int| !#[trigger] first_building_at_corner(old(self).buildings.slots(), src, j)) ==> (r matches Err(e)
                && e@ == "Building does not exist at that position"@),
            forall|j: int| #[trigger] first_building_at_corner(old(self).buildings.slots(), src, j) ==> {
                let b = occupant(old(self).buildings.slots()[j]);
                &&& !spec_is_mobile(b.type_) ==> (r matches Err(e) && e@ == "Building at that position is not mobile"@)
                &&& spec_is_mobile(b.type_) && !(b.task is Idle) ==> (r matches Err(e) && e@
                    == "The building is busy; wait for the building to finish the current task"@)
                &&& (r matches Err(e) && e@ == "Failed to find the path"@) ==> spec_is_mobile(b.type_) && b.task is Idle
                &&& spec_is_mobile(b.type_) && b.task is Idle && src == dest ==> (r matches Err(e) && e@ == "Failed to find the path"@)
                &&& spec_is_mobile(b.type_) && b.task is Idle && src != dest && (exists|full: Seq<Pos>|
                    #[trigger] move_path_ok(old(self).tiles, old(self).buildings.slots(), src, dest, full) && full.len()
                    <= usize::MAX) ==> r is Ok
                &&& r is Ok ==> {
                    &&& spec_is_mobile(b.type_)
                    &&& b.task is Idle
                    &&& final(self).buildings.slots().len() == old(self).buildings.slots().len()
                    &&& forall|i: int| 0 <= i < old(self).buildings.slots().len() && i != j ==> #[trigger] final(self).buildings.slots()[i]
                        == old(self).buildings.slots()[i]
                    &&& final(self).buildings.slots()[j].gen == old(self).buildings.slots()[j].gen
                    &&& final(self).buildings.slots()[j].payload is Occupied
                    &&& {
                        let b2 = occupant(final(self).buildings.slots()[j]);
                        &&& b2.pos == b.pos
                        &&& b2.type_ == b.type_
                        &&& b2.inventory == b.inventory
                        &&& b2.crews == b.crews
                        &&& b2.recipe == b.recipe
                        &&& b2.direction == b.direction
                        &&& b2.energy == b.energy
                        &&& b2.expected_transports == b.expected_transports
                        &&& b2.task matches BuildingTask::Move(t, path) && t == FloatBits(MOVE_TIME_BITS) && exists|full: Seq<Pos>|
                            move_path_ok(old(self).tiles, old(self).buildings.slots(), src, dest, full) && path@ == full.drop_last()
                    }
                }
            },
    {
        let j = match find_building_by_corner(&self.buildings, src) {
            Some(j) => j,
            None => {
                return Err(String::from_str("Building does not exist at that position"));
            },
        };
        proof {
            lemma_move_errors_differ();
        }
        let b = self.buildings.get_at(j).unwrap();
        if !b.type_.is_mobile() {
            return Err(String::from_str("Building at that position is not mobile"));
        }
        if !matches!(b.task, BuildingTask::Idle) {
            return Err(String::from_str("The building is busy; wait for the building to finish the current task"));
        }
        let mut path = match move_path(&self.tiles, &self.buildings, src, dest) {
            Some(p) => p,
            None => {
                return Err(String::from_str("Failed to find the path"));
            },
        };
        let ghost full = path@;
        let ghost bs0 = self.buildings.slots();
        path.pop();
        let ghost popped = path@;
        proof {
            assert(popped == full.drop_last());
            assert(move_path_ok(old(self).tiles, old(self).buildings.slots(), src, dest, full));
        }
        let b = self.buildings.get_mut_at(j).unwrap();
        b.task = BuildingTask::Move(FloatBits(MOVE_TIME_BITS), path);
        proof {
            assert(buildings_ok(self.buildings.slots())) by {
                assert forall|m: int| 0 <= m < self.buildings.slots().len() && #[trigger] self.buildings.slots()[m].payload is Occupied
                    implies occupant(self.buildings.slots()[m]).inventory.wf() && pos_in_range(occupant(self.buildings.slots()[m]).pos) by {
                    if m != j {
                        assert(self.buildings.slots()[m] == bs0[m]);
                    }
                }
            }
        }
        Ok(())
    }
}

/// A position where a site can stand: a building fits there and the tiles next to it exist.
pub open spec fn site_pos_ok(p: Pos) -> bool {
    &&& pos_in_range(p)
    &&& p[0] < i32::MAX - 2
    &&& p[1] < i32::MAX - 2
}

/// Every site of the slots stands at a position where a site can stand.
pub open spec fn sites_in_range(s: Seq<EntityEntry<Construction>>) -> bool {
    forall|i: int| 0 <= i < s.len() && #[trigger] s[i].payload is Occupied ==> site_pos_ok(s[i].payload->Occupied_0.spec_pos())
}

/// Whether the site is done: all its work is done, to build; all its ingredients are gone,
/// to deconstruct.
pub open spec fn site_done(c: Construction) -> bool {
    if c.spec_canceling() {
        c.spec_ingredients()@.dom() == Set::<ItemType>::empty()
    } else {
        c.spec_progress() >= c.spec_recipe().time
    }
}

/// What a tick does to one site slot: a done site is dropped; a site to build pulls its
/// ingredients (it expects more transports, nothing else changes); a site to deconstruct whose
/// work is undone may push one ingredient away; others stay.
pub open spec fn site_ticked(free: Option<usize>, e0: EntityEntry<Construction>, e1: EntityEntry<Construction>) -> bool {
    &&& e1.gen == e0.gen
    &&& match e0.payload {
        EntryPayload::Free(_) => e1 == e0,
        EntryPayload::Occupied(c0) => if site_done(c0) {
            e1.payload == EntryPayload::<Construction>::Free(free)
        } else {
            e1.payload matches EntryPayload::Occupied(c1) && {
                &&& c1.spec_type() == c0.spec_type()
                &&& c1.spec_pos() == c0.spec_pos()
                &&& c1.spec_recipe() == c0.spec_recipe()
                &&& c1.spec_canceling() == c0.spec_canceling()
                &&& c1.spec_progress() == c0.spec_progress()
                &&& c1.spec_ingredients().wf()
                &&& if c0.spec_canceling() {
                    &&& c1.expected() == c0.expected()
                    &&& c0.spec_progress() > 0 ==> c1 == c0
                } else {
                    &&& c1.spec_ingredients() == c0.spec_ingredients()
                    &&& c1.expected().len() >= c0.expected().len()
                    &&& c1.expected().take(c0.expected().len() as int) == c0.expected()
                }
            }
        },
    }
}

/// The place and type of the building that the site of the slot leaves this tick: a site to
/// build a building whose work is all done.
pub open spec fn built_building(e: EntityEntry<Construction>) -> Option<(Pos, BuildingType)> {
    match e.payload {
        EntryPayload::Occupied(c) => if !c.spec_canceling() && c.spec_progress() >= c.spec_recipe().time {
            match c.spec_type() {
                ConstructionType::Building(ty) => Some((c.spec_pos(), ty)),
                _ => None,
            }
        } else {
            None
        },
        EntryPayload::Free(_) => None,
    }
}

/// Whether the building that the site of the slot leaves this tick, if any, stands in `bs`.
pub open spec fn building_left(bs: Seq<EntityEntry<Building>>, e: EntityEntry<Construction>) -> bool {
    built_building(e) matches Some((p, ty)) ==> has_building_at(bs, p, ty)
}

/// The tile `t` at `q` as the site of the slot leaves it this tick: a finished power grid site
/// there powers it, a finished conveyor site there lays its conveyor on it.
pub open spec fn tile_after_site(t: Tile, e: EntityEntry<Construction>, q: Pos) -> Tile {
    match e.payload {
        EntryPayload::Occupied(c) => if !c.spec_canceling() && c.spec_progress() >= c.spec_recipe().time
            && c.spec_pos() == q {
            match c.spec_type() {
                ConstructionType::PowerGrid => Tile { power_grid: true, ..t },
                ConstructionType::Conveyor(conv) => Tile { conveyor: conv, ..t },
                ConstructionType::Building(_) => t,
            }
        } else {
            t
        },
        EntryPayload::Free(_) => t,
    }
}

/// The tile `t` at `q` after the sites of the first `n` slots of `s`, in slot order.
pub open spec fn tile_after_sites(t: Tile, s: Seq<EntityEntry<Construction>>, n: int, q: Pos) -> Tile
    decreases n,
{
    if n <= 0 {
        t
    } else {
        tile_after_site(tile_after_sites(t, s, n - 1, q), s[n - 1], q)
    }
}

/// Whether the tile at `q` lies in a chunk stored tile by tile (not as one uniform tile).
pub open spec fn stored_as_tiles(t: Tiles, q: Pos) -> bool {
    lookup_chunk(t.chunk_seq(), chunk_pos_of(q)) matches Some(Chunk::Tiles(_, _))
}

/// The tiles after the sites of the first `n` slots, as the sites leave them: chunks stored
/// tile by tile change as the sites say, other chunks not at all.
pub open spec fn tiles_after_sites(t: Tiles, t0: Tiles, s: Seq<EntityEntry<Construction>>, n: int) -> bool {
    &&& forall|q: Pos| #[trigger] stored_as_tiles(t, q) == stored_as_tiles(t0, q)
    &&& forall|q: Pos| #[trigger]
        t.spec_tile_at(q) == if stored_as_tiles(t0, q) {
            tile_after_sites(t0.spec_tile_at(q), s, n, q)
        } else {
            t0.spec_tile_at(q)
        }
}

/// Whether the site of the slot lays a power grid or a conveyor on the tile at `q` this tick.
pub open spec fn site_lays_at(e: EntityEntry<Construction>, q: Pos) -> bool {
    e.payload matches EntryPayload::Occupied(c) && !c.spec_canceling() && c.spec_progress() >= c.spec_recipe().time
        && c.spec_pos() == q && !(c.spec_type() is Building)
}

/// A site of slot `i` that lays nothing on a stored tile keeps the tiles as they are.
proof fn lemma_site_tile_kept(t0: Tiles, t: Tiles, s: Seq<EntityEntry<Construction>>, i: int)
    requires
        0 <= i < s.len(),
        tiles_after_sites(t, t0, s, i),
        forall|q: Pos| #[trigger] stored_as_tiles(t0, q) ==> !site_lays_at(s[i], q),
    ensures
        tiles_after_sites(t, t0, s, i + 1),
{
    assert forall|q: Pos| #[trigger]
        t.spec_tile_at(q) == if stored_as_tiles(t0, q) {
            tile_after_sites(t0.spec_tile_at(q), s, i + 1, q)
        } else {
            t0.spec_tile_at(q)
        } by {
        if stored_as_tiles(t0, q) {
            assert(!site_lays_at(s[i], q));
        }
    }
}

/// A site of slot `i` that lays its power grid or conveyor on the stored tile at `p`, written
/// through `try_get_mut`, leaves the tiles as the sites say.
proof fn lemma_site_tile_written(
    t0: Tiles,
    tb: Tiles,
    t1: Tiles,
    s: Seq<EntityEntry<Construction>>,
    i: int,
    p: Pos,
    nt: Tile,
)
    requires
        0 <= i < s.len(),
        tb.wf(),
        tiles_after_sites(tb, t0, s, i),
        site_lays_at(s[i], p),
        nt == tile_after_site(tb.spec_tile_at(p), s[i], p),
        forall|cp: Position|
            cp != chunk_pos_of(p) ==> lookup_chunk(t1.chunk_seq(), cp) == lookup_chunk(tb.chunk_seq(), cp),
        lookup_chunk(t1.chunk_seq(), chunk_pos_of(p)) matches Some(Chunk::Tiles(v, h))
            && lookup_chunk(tb.chunk_seq(), chunk_pos_of(p)) matches Some(Chunk::Tiles(v0, h0))
            && v@ == v0@.update(local_index(p), nt) && h == h0,
    ensures
        tiles_after_sites(t1, t0, s, i + 1),
{
    assert(stored_as_tiles(tb, p));
    assert forall|q: Pos| #[trigger] stored_as_tiles(t1, q) == stored_as_tiles(t0, q) by {
        assert(stored_as_tiles(tb, q) == stored_as_tiles(t0, q));
    }
    assert forall|q: Pos| #[trigger]
        t1.spec_tile_at(q) == if stored_as_tiles(t0, q) {
            tile_after_sites(t0.spec_tile_at(q), s, i + 1, q)
        } else {
            t0.spec_tile_at(q)
        } by {
        lemma_try_write_then_read(tb, t1, p, nt, q);
        assert(tb.spec_tile_at(q) == if stored_as_tiles(t0, q) {
            tile_after_sites(t0.spec_tile_at(q), s, i, q)
        } else {
            t0.spec_tile_at(q)
        });
        assert(stored_as_tiles(tb, p) == stored_as_tiles(t0, p));
    }
}

impl AsteroidColoniesGame {
    /// One tick of construction sites, in slot order: a site to deconstruct is dropped once
    /// all its ingredients are gone, and pushes one ingredient away to a storage once its work
    /// is undone; a site to build pulls the ingredients it lacks and, once all its work is
    /// done, is dropped and its building, power grid or conveyor takes its place.
    pub fn process_constructions(&mut self)
        requires
            old(self).tiles.wf(),
            sites_ok(old(self).constructions.slots()),
            recipes_ok(old(self).constructions.slots()),
            sites_in_range(old(self).constructions.slots()),
            buildings_ok(old(self).buildings.slots()),
            old(self).buildings.can_insert(),
            old(self).buildings.slots().len() + old(self).constructions.slots().len() < u32::MAX,
            old(self).transports.can_insert(),
            old(self).transports.slots().len() + 10 * old(self).constructions.slots().len() < u32::MAX,
        ensures
            final(self).crews == old(self).crews,
            final(self).global_tasks == old(self).global_tasks,
            final(self).global_time == old(self).global_time,
            final(self).tiles.wf(),
            buildings_ok(final(self).buildings.slots()),
            final(self).constructions.slots().len() == old(self).constructions.slots().len(),
            final(self).constructions.free_head() == old(self).constructions.free_head(),
            forall|i: int|
                0 <= i < old(self).constructions.slots().len() ==> site_ticked(
                    old(self).constructions.free_head(),
                    old(self).constructions.slots()[i],
                    #[trigger] final(self).constructions.slots()[i],
                ),
            places_kept(old(self).buildings.slots(), final(self).buildings.slots()),
            forall|i: int|
                0 <= i < old(self).constructions.slots().len() ==> #[trigger] building_left(
                    final(self).buildings.slots(),
                    old(self).constructions.slots()[i],
                ),
            forall|q: Pos| #[trigger]
                final(self).tiles.spec_tile_at(q) == if stored_as_tiles(old(self).tiles, q) {
                    tile_after_sites(
                        old(self).tiles.spec_tile_at(q),
                        old(self).constructions.slots(),
                        old(self).constructions.slots().len() as int,
                        q,
                    )
                } else {
                    old(self).tiles.spec_tile_at(q)
                },
    {
        let ghost cs0 = self.constructions.slots();
        let ghost tiles0 = self.tiles;
        let ghost free = self.constructions.free_head();
        let ghost nt0 = self.transports.slots().len();
        let ghost nb0 = self.buildings.slots().len();
        let n = self.constructions.num_slots();
        let mut i: usize = 0;
        while i < n
            invariant
                n == cs0.len(),
                cs0 == old(self).constructions.slots(),
                free == old(self).constructions.free_head(),
                i <= n,
                self.crews == old(self).crews,
                self.global_tasks == old(self).global_tasks,
                self.global_time == old(self).global_time,
                self.tiles.wf(),
                buildings_ok(self.buildings.slots()),
                self.constructions.slots().len() == n,
                self.constructions.free_head() == free,
                sites_ok(cs0),
                recipes_ok(cs0),
                sites_in_range(cs0),
                forall|k: int| i <= k < n ==> #[trigger] self.constructions.slots()[k] == cs0[k],
                forall|k: int| 0 <= k < i ==> site_ticked(free, cs0[k], #[trigger] self.constructions.slots()[k]),
                self.buildings.can_insert(),
                self.buildings.slots().len() <= nb0 + i,
                nb0 + n < u32::MAX,
                self.transports.can_insert(),
                self.transports.slots().len() <= nt0 + 10 * i,
                nt0 + 10 * n < u32::MAX,
                places_kept(old(self).buildings.slots(), self.buildings.slots()),
                forall|k: int| 0 <= k < i ==> #[trigger] building_left(self.buildings.slots(), cs0[k]),
                tiles0 == old(self).tiles,
                tiles_after_sites(self.tiles, tiles0, cs0, i as int),
            decreases n - i,
        {
            let ghost tsb = self.transports.slots();
            let ghost bsb = self.buildings.slots();
            let ghost tlb = self.tiles;
            let ghost mut touched = false;
            proof {
                assert(self.constructions.slots()[i as int] == cs0[i as int]);
                assert(10 * i + 10 <= 10 * n) by (nonlinear_arith)
                    requires
                        i < n,
                ;
            }
            match self.constructions.get_mut_at(i) {
                Some(c) => {
                    proof {
                        assert(cs0[i as int].payload is Occupied);
                    }
                    if c.canceling() {
                        if c.ingredients().is_empty() {
                            self.constructions.drop_at(i);
                        } else if c.progress() == 0 {
                            c.push_ingredients(&self.tiles, &mut self.transports, &mut self.buildings);
                        }
                    } else {
                        c.pull_ingredients(&self.tiles, &mut self.transports, &mut self.buildings);
                        proof {
                            lemma_same_but_inventories_keeps_places(bsb, self.buildings.slots());
                        }
                        if c.progress() >= c.recipe().time {
                            let pos = c.pos();
                            match c.get_type() {
                                ConstructionType::Building(ty) => {
                                    let ghost bsp = self.buildings.slots();
                                    let nb = Building::new(pos, ty);
                                    self.buildings.insert(nb);
                                    proof {
                                        lemma_insert_keeps_occupied(bsp, nb);
                                        lemma_insert_len(bsp, nb);
                                        lemma_places_kept_trans(bsb, bsp, self.buildings.slots());
                                        let j = insert_index(bsp) as int;
                                        assert(self.buildings.slots()[j].payload is Occupied);
                                        assert(has_building_at(self.buildings.slots(), pos, ty));
                                    }
                                },
                                ConstructionType::PowerGrid => {
                                    match self.tiles.try_get_mut(pos) {
                                        Some(tile) => {
                                            let ghost told = *tile;
                                            tile.power_grid = true;
                                            proof {
                                                lemma_site_tile_written(tiles0, tlb, self.tiles, cs0, i as int, pos, Tile { power_grid: true, ..told });
                                                touched = true;
                                            }
                                        },
                                        None => {},
                                    }
                                },
                                ConstructionType::Conveyor(conv) => {
                                    match self.tiles.try_get_mut(pos) {
                                        Some(tile) => {
                                            let ghost told = *tile;
                                            tile.conveyor = conv;
                                            proof {
                                                lemma_site_tile_written(tiles0, tlb, self.tiles, cs0, i as int, pos, Tile { conveyor: conv, ..told });
                                                touched = true;
                                            }
                                        },
                                        None => {},
                                    }
                                },
                            }
                            self.constructions.drop_at(i);
                        }
                    }
                },
                None => {},
            }
            proof {
                let bs1 = self.buildings.slots();
                if !touched {
                    assert(self.tiles.chunk_seq() == tlb.chunk_seq());
                    assert forall|q: Pos| #[trigger] stored_as_tiles(tiles0, q) implies !site_lays_at(cs0[i as int], q) by {
                        assert(stored_as_tiles(tlb, q) == stored_as_tiles(tiles0, q));
                    }
                    assert(tiles_after_sites(self.tiles, tiles0, cs0, i as int)) by {
                        assert forall|q: Pos| #[trigger] stored_as_tiles(self.tiles, q) == stored_as_tiles(tiles0, q) by {
                            assert(stored_as_tiles(tlb, q) == stored_as_tiles(tiles0, q));
                        }
                        assert forall|q: Pos| #[trigger] self.tiles.spec_tile_at(q) == tlb.spec_tile_at(q) by {}
                    }
                    lemma_site_tile_kept(tiles0, self.tiles, cs0, i as int);
                }
                lemma_places_kept_trans(old(self).buildings.slots(), bsb, bs1);
                assert forall|k: int| 0 <= k <= i implies #[trigger] building_left(bs1, cs0[k]) by {
                    if k < i && built_building(cs0[k]) is Some {
                        let (p, ty) = built_building(cs0[k])->Some_0;
                        assert(building_left(bsb, cs0[k]));
                        lemma_places_kept_find(bsb, bs1, p, ty);
                    }
                }
            }
            i = i + 1;
        }
        proof {
            assert(tiles_after_sites(self.tiles, tiles0, cs0, n as int));
        }
    }
}

/// Where the starting colony lies: `p` relative to its corner.
pub open spec fn start_ofs(p: (int, int)) -> (int, int) {
    (p.0 + 23, p.1 - 5 + HEIGHT as int / 2)
}

/// The buildings of the starting colony, in order: their corners relative to the colony's
/// corner, types and inventories.
pub open spec fn starting_buildings() -> Seq<((int, int), BuildingType, Map<ItemType, usize>)> {
    seq![
        ((1, 7), BuildingType::CrewCabin, Map::empty()),
        ((3, 4), BuildingType::Power, Map::empty()),
        ((2, 3), BuildingType::Battery, Map::empty()),
        ((3, 3), BuildingType::Battery, Map::empty()),
        ((4, 4), BuildingType::Excavator, Map::empty()),
        ((5, 4), BuildingType::Storage, Map::empty()),
        ((6, 3), BuildingType::MediumStorage, map![ItemType::PowerGridComponent => 2usize, ItemType::ConveyorComponent => 20usize]),
        ((1, 10), BuildingType::Assembler, Map::empty()),
        ((1, 4), BuildingType::Furnace, Map::empty()),
    ]
}

/// The building in slot `i` of the starting colony.
pub open spec fn starting_building_is(e: EntityEntry<Building>, i: int) -> bool {
    let (p, ty, inv) = starting_buildings()[i];
    let b = e.payload->Occupied_0;
    &&& e.gen == 0
    &&& e.payload is Occupied
    &&& b.pos[0] == start_ofs(p).0
    &&& b.pos[1] == start_ofs(p).1
    &&& b.type_ == ty
    &&& b.task is Idle
    &&& b.inventory.wf()
    &&& b.inventory@ == inv
    &&& b.crews == crate::building::spec_max_crews(ty)
    &&& b.recipe is None
    &&& b.direction is None
    &&& b.energy == crate::building::spec_energy_capacity(ty)
    &&& b.expected_transports@.len() == 0
}

/// Whether `p` lies under one of the first `n` buildings of the starting colony.
pub open spec fn under_start_buildings(n: int, p: Pos) -> bool
    decreases n,
{
    if n <= 0 {
        false
    } else {
        under_start_buildings(n - 1, p) || {
            let (c, ty, _) = starting_buildings()[n - 1];
            let o = start_ofs(c);
            &&& o.0 <= p[0] < o.0 + spec_size(ty).0
            &&& o.1 <= p[1] < o.1 + spec_size(ty).1
        }
    }
}

/// The tile under a building of the starting colony.
pub open spec fn start_building_tile() -> Tile {
    Tile {
        state: TileState::Empty,
        power_grid: true,
        conveyor: Conveyor::Empty,
        image_lt: 8,
        image_lb: 8,
        image_rb: 8,
        image_rt: 8,
    }
}

/// The loop of conveyors of the starting colony, relative to its corner, in belt order.
pub open spec fn start_ring() -> Seq<(int, int)> {
    seq![
        (3, 5), (3, 6), (3, 7), (3, 8), (3, 9), (3, 10), (4, 10), (5, 10), (6, 10), (6, 9), (7, 9), (7, 8), (7, 7),
        (6, 7), (6, 6), (6, 5), (5, 5), (4, 5),
    ]
}

/// What step `c` of laying the loop does to the tile `t` at `q`: it lays the loop's tile
/// `(c + 1) % 18`, excavating and powering it and, where the tiles before and after it give
/// directions, laying a conveyor from the one to the other.
pub open spec fn ring_step(t: Tile, c: int, q: Pos) -> Tile {
    let r = start_ring();
    let p0 = r[c % 18];
    let p1 = r[(c + 1) % 18];
    let p2 = r[(c + 2) % 18];
    let o = start_ofs(p1);
    if q[0] == o.0 && q[1] == o.1 {
        let conveyor = match (dir_from_vec(p0.0 - p1.0, p0.1 - p1.1), dir_from_vec(p2.0 - p1.0, p2.1 - p1.1)) {
            (Some(a), Some(b)) => Conveyor::One(a, b),
            _ => t.conveyor,
        };
        Tile { state: TileState::Empty, conveyor, power_grid: true, ..t }
    } else {
        t
    }
}

/// The tile `t` at `q` after the first `c` steps of laying the loop.
pub open spec fn ring_steps(t: Tile, c: int, q: Pos) -> Tile
    decreases c,
{
    if c <= 0 {
        t
    } else {
        ring_step(ring_steps(t, c - 1, q), c - 1, q)
    }
}

/// Whether `p` lies in the excavated ground around the starting colony.
pub open spec fn in_start_ground(p: Pos) -> bool {
    let lo = start_ofs((2, 4));
    let hi = start_ofs((7, 10));
    lo.0 <= p[0] < hi.0 && lo.1 <= p[1] < hi.1
}

/// The tile at `p` of the terrain `t0` once the starting colony stands on it: building tiles
/// under its buildings, then the conveyor loop laid, then the ground around excavated.
pub open spec fn start_tile(t0: Tiles, p: Pos) -> Tile {
    let t1 = if under_start_buildings(9, p) { start_building_tile() } else { t0.spec_tile_at(p) };
    let t2 = ring_steps(t1, 18, p);
    if in_start_ground(p) {
        Tile { state: TileState::Empty, ..t2 }
    } else {
        t2
    }
}

/// Positions with equal coordinates are equal.
proof fn lemma_pos_eq(p: Pos, q: Pos)
    requires
        p[0] == q[0],
        p[1] == q[1],
    ensures
        p == q,
{
    assert(p@ =~= q@);
}

fn ofs(x: i32, y: i32) -> (r: Pos)
    requires
        -100 <= x <= 100,
        -100 <= y <= 100,
    ensures
        r[0] == start_ofs((x as int, y as int)).0,
        r[1] == start_ofs((x as int, y as int)).1,
{
    [x + 23, y - 5 + HEIGHT as i32 / 2]
}

/// The tiles of the conveyor loop of the starting colony, relative to its corner.
fn conveyor_ring() -> (r: Vec<Pos>)
    ensures
        r@.len() == 18,
        forall|k: int| 0 <= k < 18 ==> -100 <= #[trigger] r@[k][0] <= 100 && -100 <= r@[k][1] <= 100,
        forall|k: int| 0 <= k < 18 ==> #[trigger] r@[k][0] == start_ring()[k].0 && r@[k][1] == start_ring()[k].1,
{
    let v: Vec<Pos> = vec![
        [3, 5], [3, 6], [3, 7], [3, 8], [3, 9], [3, 10], [4, 10], [5, 10], [6, 10], [6, 9], [7, 9], [7, 8], [7, 7], [6, 7],
        [6, 6], [6, 5], [5, 5], [4, 5],
    ];
    v
}

impl AsteroidColoniesGame {
    /// The starting colony on the given terrain: its buildings, with the tiles under them made
    /// building tiles, a loop of powered conveyors between them and the ground around them
    /// excavated; the map is then compressed. No crews, sites, transports or tasks yet.
    #[verifier::spinoff_prover]
    pub fn new(tiles: Tiles) -> (r: Result<Self, String>)
        requires
            tiles.wf(),
        ensures
            r matches Ok(g) && {
                &&& g.tiles.wf()
                &&& g.buildings.slots().len() == starting_buildings().len()
                &&& forall|i: int| 0 <= i < starting_buildings().len() ==> starting_building_is(#[trigger] g.buildings.slots()[i], i)
                &&& g.crews.slots().len() == 0
                &&& g.global_tasks.slots().len() == 0
                &&& g.transports.slots().len() == 0
                &&& g.constructions.slots().len() == 0
                &&& g.global_time == 0
                &&& g.power_ratio == FloatBits(0x3ff0_0000_0000_0000)
                &&& g.used_power == FloatBits(0)
                &&& g.conveyor_staged@.len() == 0
                &&& g.conveyor_preview@.len() == 0
                &&& no_uniform_chunk(tiles) ==> forall|p: Pos| #[trigger]
                    tile_eq(g.tiles.spec_tile_at(p), start_tile(tiles, p))
            },
    {
        let mut tiles = tiles;
        let mut stock = Inventory::new();
        stock.insert(ItemType::ConveyorComponent, 20);
        stock.insert(ItemType::PowerGridComponent, 2);
        proof {
            assert(stock@ =~= map![ItemType::PowerGridComponent => 2usize, ItemType::ConveyorComponent => 20usize]);
        }
        let list: Vec<Building> = vec![
            Building::new(ofs(1, 7), BuildingType::CrewCabin),
            Building::new(ofs(3, 4), BuildingType::Power),
            Building::new(ofs(2, 3), BuildingType::Battery),
            Building::new(ofs(3, 3), BuildingType::Battery),
            Building::new(ofs(4, 4), BuildingType::Excavator),
            Building::new(ofs(5, 4), BuildingType::Storage),
            Building::new_inventory(ofs(6, 3), BuildingType::MediumStorage, stock),
            Building::new(ofs(1, 10), BuildingType::Assembler),
            Building::new(ofs(1, 4), BuildingType::Furnace),
        ];
        let ghost t0 = tiles;
        let ghost lv = list@;
        let ghost sb = starting_buildings();
        proof {
            assert forall|m: int| 0 <= m < 9 implies #[trigger] lv[m].pos[0] == start_ofs(sb[m].0).0 && lv[m].pos[1]
                == start_ofs(sb[m].0).1 && lv[m].type_ == sb[m].1 by {}
        }
        let mut k: usize = 0;
        while k < list.len()
            invariant
                tiles.wf(),
                k <= list@.len(),
                list@ == lv,
                lv.len() == 9,
                sb == starting_buildings(),
                forall|m: int| 0 <= m < lv.len() ==> -100 <= #[trigger] lv[m].pos[0] <= 100 && -100 <= lv[m].pos[1] <= 100,
                forall|m: int|
                    0 <= m < 9 ==> #[trigger] lv[m].pos[0] == start_ofs(sb[m].0).0 && lv[m].pos[1] == start_ofs(sb[m].0).1
                        && lv[m].type_ == sb[m].1,
                no_uniform_chunk(t0) ==> no_uniform_chunk(tiles),
                no_uniform_chunk(t0) ==> forall|q: Pos| #[trigger]
                    tiles.spec_tile_at(q) == if under_start_buildings(k as int, q) {
                        start_building_tile()
                    } else {
                        t0.spec_tile_at(q)
                    },
            decreases list@.len() - k,
        {
            let pos = list[k].pos;
            let size = list[k].type_.size();
            let ghost kk = k as int;
            let mut iy: usize = 0;
            while iy < size[1]
                invariant
                    tiles.wf(),
                    size[1] <= 2,
                    size[0] <= 2,
                    iy <= size[1],
                    -100 <= pos[0] <= 100,
                    -100 <= pos[1] <= 100,
                    no_uniform_chunk(t0) ==> no_uniform_chunk(tiles),
                    no_uniform_chunk(t0) ==> forall|q: Pos| #[trigger]
                        tiles.spec_tile_at(q) == if under_start_buildings(kk, q) || (pos[0] <= q[0] < pos[0] + size[0]
                            && pos[1] <= q[1] < pos[1] + iy) {
                            start_building_tile()
                        } else {
                            t0.spec_tile_at(q)
                        },
                decreases size[1] - iy,
            {
                let mut ix: usize = 0;
                while ix < size[0]
                    invariant
                        tiles.wf(),
                        size[1] <= 2,
                        size[0] <= 2,
                        iy < size[1],
                        ix <= size[0],
                        -100 <= pos[0] <= 100,
                        -100 <= pos[1] <= 100,
                        no_uniform_chunk(t0) ==> no_uniform_chunk(tiles),
                        no_uniform_chunk(t0) ==> forall|q: Pos| #[trigger]
                            tiles.spec_tile_at(q) == if under_start_buildings(kk, q) || (pos[0] <= q[0] < pos[0] + size[0]
                                && pos[1] <= q[1] < pos[1] + iy) || (q[1] == pos[1] + iy && pos[0] <= q[0] < pos[0] + ix) {
                                start_building_tile()
                            } else {
                                t0.spec_tile_at(q)
                            },
                    decreases size[0] - ix,
                {
                    let x = pos[0] + ix as i32;
                    let y = pos[1] + iy as i32;
                    let ghost tb = tiles;
                    *tiles.index_mut([x, y]) = Tile::building();
                    proof {
                        if no_uniform_chunk(t0) {
                            lemma_point_write(tb, tiles, [x, y], start_building_tile());
                            assert forall|q: Pos| #[trigger]
                                tiles.spec_tile_at(q) == if under_start_buildings(kk, q) || (pos[0] <= q[0] < pos[0] + size[0]
                                    && pos[1] <= q[1] < pos[1] + iy) || (q[1] == pos[1] + iy && pos[0] <= q[0] < pos[0] + ix + 1) {
                                    start_building_tile()
                                } else {
                                    t0.spec_tile_at(q)
                                } by {
                                if q[0] == x && q[1] == y {
                                    lemma_pos_eq(q, [x, y]);
                                }
                            }
                        }
                    }
                    ix = ix + 1;
                }
                iy = iy + 1;
            }
            proof {
                if no_uniform_chunk(t0) {
                    assert forall|q: Pos| #[trigger]
                        tiles.spec_tile_at(q) == if under_start_buildings(kk + 1, q) {
                            start_building_tile()
                        } else {
                            t0.spec_tile_at(q)
                        } by {
                        assert(lv[kk].pos[0] == start_ofs(sb[kk].0).0 && lv[kk].type_ == sb[kk].1);
                    }
                }
            }
            k = k + 1;
        }
        let buildings = EntitySet::from_vec(list);
        proof {
            assert forall|i: int| 0 <= i < starting_buildings().len() implies starting_building_is(#[trigger] buildings.slots()[i], i) by {
                assert(buildings.slots()[i] == (EntityEntry { gen: 0, payload: EntryPayload::Occupied(lv[i]) }));
            }
        }
        let ghost t1 = tiles;
        let convs = conveyor_ring();
        let ghost cv = convs@;
        let n = convs.len();
        proof {
            assert forall|m: int| 0 <= m < 18 implies #[trigger] cv[m][0] == start_ring()[m].0 && cv[m][1] == start_ring()[m].1 by {
            }
        }
        let mut c: usize = 0;
        while c < n
            invariant
                tiles.wf(),
                n == convs@.len(),
                n == 18,
                c <= n,
                forall|m: int| 0 <= m < 18 ==> -100 <= #[trigger] convs@[m][0] <= 100 && -100 <= convs@[m][1] <= 100,
                forall|m: int| 0 <= m < 18 ==> #[trigger] convs@[m][0] == start_ring()[m].0 && convs@[m][1] == start_ring()[m].1,
                no_uniform_chunk(t0) ==> no_uniform_chunk(tiles),
                no_uniform_chunk(t0) ==> forall|q: Pos| #[trigger] tiles.spec_tile_at(q) == ring_steps(t1.spec_tile_at(q), c as int, q),
            decreases n - c,
        {
            let p0 = convs[c];
            let p1 = convs[(c + 1) % n];
            let p2 = convs[(c + 2) % n];
            let o = ofs(p1[0], p1[1]);
            let ghost tb = tiles;
            let t = tiles.index_mut(o);
            let ghost told = *t;
            t.state = TileState::Empty;
            match (Direction::from_vec([p0[0] - p1[0], p0[1] - p1[1]]), Direction::from_vec([p2[0] - p1[0], p2[1] - p1[1]])) {
                (Some(a), Some(b)) => {
                    t.conveyor = Conveyor::One(a, b);
                },
                _ => {},
            }
            t.power_grid = true;
            proof {
                if no_uniform_chunk(t0) {
                    let nt = ring_step(told, c as int, o);
                    lemma_point_write(tb, tiles, o, nt);
                    assert forall|q: Pos| #[trigger] tiles.spec_tile_at(q) == ring_steps(t1.spec_tile_at(q), c + 1, q) by {
                        if q[0] == o[0] && q[1] == o[1] {
                            lemma_pos_eq(q, o);
                        }
                    }
                }
            }
            c = c + 1;
        }
        let ghost t2 = tiles;
        let mut iy: i32 = 4;
        while iy < 10
            invariant
                tiles.wf(),
                4 <= iy <= 10,
                no_uniform_chunk(t0) ==> no_uniform_chunk(tiles),
                no_uniform_chunk(t0) ==> forall|q: Pos| #[trigger]
                    tiles.spec_tile_at(q) == if start_ofs((2, 4)).0 <= q[0] < start_ofs((7, 4)).0 && start_ofs((2, 4)).1
                        <= q[1] < start_ofs((2, iy as int)).1 {
                        Tile { state: TileState::Empty, ..t2.spec_tile_at(q) }
                    } else {
                        t2.spec_tile_at(q)
                    },
            decreases 10 - iy,
        {
            let mut ix: i32 = 2;
            while ix < 7
                invariant
                    tiles.wf(),
                    4 <= iy < 10,
                    2 <= ix <= 7,
                    no_uniform_chunk(t0) ==> no_uniform_chunk(tiles),
                    no_uniform_chunk(t0) ==> forall|q: Pos| #[trigger]
                        tiles.spec_tile_at(q) == if (start_ofs((2, 4)).0 <= q[0] < start_ofs((7, 4)).0 && start_ofs((2, 4)).1
                            <= q[1] < start_ofs((2, iy as int)).1) || (q[1] == start_ofs((2, iy as int)).1
                            && start_ofs((2, 4)).0 <= q[0] < start_ofs((ix as int, 4)).0) {
                            Tile { state: TileState::Empty, ..t2.spec_tile_at(q) }
                        } else {
                            t2.spec_tile_at(q)
                        },
                decreases 7 - ix,
            {
                let o = ofs(ix, iy);
                let ghost tb = tiles;
                let t = tiles.index_mut(o);
                let ghost told = *t;
                t.state = TileState::Empty;
                proof {
                    if no_uniform_chunk(t0) {
                        lemma_point_write(tb, tiles, o, Tile { state: TileState::Empty, ..told });
                        assert forall|q: Pos| #[trigger]
                            tiles.spec_tile_at(q) == if (start_ofs((2, 4)).0 <= q[0] < start_ofs((7, 4)).0 && start_ofs(
                                (2, 4),
                            ).1 <= q[1] < start_ofs((2, iy as int)).1) || (q[1] == start_ofs((2, iy as int)).1 && start_ofs(
                                (2, 4),
                            ).0 <= q[0] < start_ofs((ix + 1, 4)).0) {
                                Tile { state: TileState::Empty, ..t2.spec_tile_at(q) }
                            } else {
                                t2.spec_tile_at(q)
                            } by {
                            if q[0] == o[0] && q[1] == o[1] {
                                lemma_pos_eq(q, o);
                            }
                        }
                    }
                }
                ix = ix + 1;
            }
            iy = iy + 1;
        }
        let ghost t3 = tiles;
        tiles.uniformify();
        proof {
            if no_uniform_chunk(t0) {
                assert forall|p: Pos| #[trigger] tile_eq(tiles.spec_tile_at(p), start_tile(t0, p)) by {
                    lemma_uniformify_preserves_reads(t3, tiles, p);
                    assert(t2.spec_tile_at(p) == ring_steps(t1.spec_tile_at(p), 18, p));
                }
            }
        }
        Ok(
            AsteroidColoniesGame {
                tiles,
                buildings,
                crews: EntitySet::new(),
                global_tasks: EntitySet::new(),
                power_ratio: FloatBits(0x3ff0_0000_0000_0000),
                used_power: FloatBits(0),
                global_time: 0,
                transports: EntitySet::new(),
                constructions: EntitySet::new(),
                conveyor_staged: Vec::new(),
                conveyor_preview: Vec::new(),
            },
        )
    }
}

/// The message when neither conveyors nor a crew can move an item, written with `format!`:
/// the conveyors' error shows as it is.
#[verifier::external_body]
fn neither_message(e: &String) -> (r: String)
    ensures
        r@ == "Neither conveyors ("@ + e@ + ") or a crew cannot move the item"@,
{
    format!("Neither conveyors ({e}) or a crew cannot move the item")
}

impl AsteroidColoniesGame {
    /// Moves an item from the building covering `from` (the first one, in slot order) towards
    /// `to`: over the conveyors when that works (see `send_item`; only items of type `item`
    /// go); otherwise by a crew, for the first item type the source holds: from the source
    /// itself when it is a cabin with a crew at home, else from the first other building with
    /// a crew at home that a crew can walk from, to the source and on to `to`.
    pub fn move_item(&mut self, from: Pos, to: Pos, item: ItemType) -> (r: Result<(), String>)
        requires
            old(self).tiles.wf(),
            buildings_ok(old(self).buildings.slots()),
            old(self).buildings.slots().len() <= u32::MAX,
            old(self).transports.can_insert(),
            old(self).crews.can_insert(),
            forall|i: int|
                0 <= i < old(self).buildings.slots().len() && #[trigger] old(self).buildings.slots()[i].payload is Occupied
                    ==> occupant(old(self).buildings.slots()[i]).pos[0] < i32::MAX - 2 && occupant(
                    old(self).buildings.slots()[i],
                ).pos[1] < i32::MAX - 2,
        ensures
            final(self).tiles == old(self).tiles,
            final(self).constructions == old(self).constructions,
            final(self).global_tasks == old(self).global_tasks,
            final(self).global_time == old(self).global_time,
            buildings_ok(final(self).buildings.slots()),
            none_at(old(self).buildings.slots(), from) ==> (r matches Err(e) && e@
                == "Moving an item needs a building at the source"@),
            r is Err ==> {
                &&& final(self).buildings.slots() == old(self).buildings.slots()
                &&& final(self).transports.slots() == old(self).transports.slots()
                &&& final(self).crews.slots() == old(self).crews.slots()
            },
            r is Ok ==> {
                ||| (final(self).crews.slots() == old(self).crews.slots() && exists|t: Transport|
                    #[trigger] slots_after_insert(old(self).transports.slots(), t) == final(self).transports.slots() && t.item
                        == item && t.amount == 1)
                ||| (final(self).transports.slots() == old(self).transports.slots() && exists|c: Crew|
                    #[trigger] slots_after_insert(old(self).crews.slots(), c) == final(self).crews.slots())
            },
    {
        let ghost bs0 = self.buildings.slots();
        let j = match crate::crew::find_building_at(&self.buildings, from) {
            Some(j) => j,
            None => {
                return Err(String::from_str("Moving an item needs a building at the source"));
            },
        };
        let gen = self.buildings.slot_gen(j);
        let src_id: BuildingId = EntityId::new(j as u32, gen);
        let mut src = self.buildings.remove_at(j).unwrap();
        proof {
            assert(bs0[j as int].payload is Occupied);
            assert(buildings_ok(self.buildings.slots())) by {
                assert forall|m: int| 0 <= m < self.buildings.slots().len() && #[trigger] self.buildings.slots()[m].payload is Occupied
                    implies occupant(self.buildings.slots()[m]).inventory.wf() && pos_in_range(occupant(self.buildings.slots()[m]).pos) by {
                    assert(m != j);
                    assert(self.buildings.slots()[m] == bs0[m]);
                }
            }
        }
        let wanted = |it: ItemType| -> (r: bool)
            ensures
                r == (it == item),
            { it == item };
        let sent = send_item(&self.tiles, &mut self.transports, src.pos, src.type_.size(), &mut src.inventory, to, &mut self.buildings, &wanted);
        let e = match sent {
            Ok(()) => {
                self.buildings.put_at(j, src);
                return Ok(());
            },
            Err(e) => e,
        };
        let keys = src.inventory.keys();
        if keys.len() == 0 {
            self.buildings.put_at(j, src);
            return Err(String::from_str("Moving item source does not have an item"));
        }
        let key = keys[0];
        if matches!(src.type_, BuildingType::CrewCabin) && 0 < src.crews {
            match Crew::new_deliver(src_id, src.pos, to, key, &self.tiles) {
                Some(crew) => {
                    self.crews.insert(crew);
                    src.crews = src.crews - 1;
                    self.buildings.put_at(j, src);
                    proof {
                        assert(buildings_ok(self.buildings.slots())) by {
                            assert forall|m: int| 0 <= m < self.buildings.slots().len() && #[trigger] self.buildings.slots()[m].payload is Occupied
                                implies occupant(self.buildings.slots()[m]).inventory.wf() && pos_in_range(occupant(self.buildings.slots()[m]).pos) by {
                                if m != j {
                                    assert(self.buildings.slots()[m] == bs0[m]);
                                }
                            }
                        }
                    }
                    return Ok(());
                },
                None => {},
            }
        } else {
            let ghost bs1 = self.buildings.slots();
            let n = self.buildings.num_slots();
            let mut k: usize = 0;
            while k < n
                invariant
                    n == self.buildings.slots().len(),
                    self.buildings.slots() == bs1,
                    k <= n,
                    n <= u32::MAX,
                    self.tiles.wf(),
                    self.tiles == old(self).tiles,
                    self.crews == old(self).crews,
                    self.crews.can_insert(),
                    self.transports.slots() == old(self).transports.slots(),
                    self.constructions == old(self).constructions,
                    self.global_tasks == old(self).global_tasks,
                    self.global_time == old(self).global_time,
                    j < n,
                    bs0 == old(self).buildings.slots(),
                    first_at(bs0, from, j as int),
                    buildings_ok(bs1),
                    src.inventory.wf(),
                    pos_in_range(src.pos),
                decreases n - k,
            {
                let gen_k = self.buildings.slot_gen(k);
                let cand = match self.buildings.get_at(k) {
                    Some(b) => if b.crews > 0 {
                        Crew::new_pickup(EntityId::new(k as u32, gen_k), b.pos, from, to, key, &self.tiles)
                    } else {
                        None
                    },
                    None => None,
                };
                match cand {
                    Some(crew) => {
                        self.crews.insert(crew);
                        proof {
                            assert(bs1[k as int].payload is Occupied);
                        }
                        let b = self.buildings.get_mut_at(k).unwrap();
                        b.crews = b.crews - 1;
                        let ghost bs2 = self.buildings.slots();
                        self.buildings.put_at(j, src);
                        proof {
                            assert(buildings_ok(self.buildings.slots())) by {
                                assert forall|m: int| 0 <= m < self.buildings.slots().len() && #[trigger] self.buildings.slots()[m].payload is Occupied
                                    implies occupant(self.buildings.slots()[m]).inventory.wf() && pos_in_range(occupant(self.buildings.slots()[m]).pos) by {
                                    if m != j && m != k {
                                        assert(self.buildings.slots()[m] == bs1[m]);
                                    }
                                }
                            }
                        }
                        return Ok(());
                    },
                    None => {},
                }
                k = k + 1;
            }
        }
        self.buildings.put_at(j, src);
        Err(neither_message(&e))
    }
}

} // verus!
