//! Construction sites: planned buildings, conveyors and power grid tiles that gather their
//! ingredients on site before crews build them, and deconstruction sites that hand them back.
use vstd::prelude::*;

use crate::building::{rect_contains, rects_overlap, spec_size, BuildingType};
use crate::conveyor::Conveyor;
use crate::direction::Direction;
use crate::inventory::{lemma_entries_of_view, lemma_inventory_parts, CountableInventory, Inventory};
use crate::items::ItemType;
use crate::task::{BUILD_CONVEYOR_TIME, BUILD_POWER_GRID_TIME};
use crate::crew::{count_keyed, delivery_key, expected_crew_deliveries, Crew};
use crate::entity::{occupied_values, EntitySet};
use crate::transport::{delivers, delivery_count, delivery_total, expected_deliveries, lemma_no_delivery_total, Transport, TransportId};
use crate::Pos;
use crate::building::{pos_in_range, Building};
use crate::entity::{insert_gen, insert_index, lemma_insert_len, lookup, slots_after_insert};
use crate::push_pull::{
    buildings_ok, conveyor_path_ok, first_output, inv_taken, occupant, one_of, places_kept, pull_inputs, push_outputs,
    same_but_expected, sent_to, slots_same_but_inventories, TileSampler, holder_adjacent, pull_lack, pull_taken, pulled_from_holder,
};
use vstd::std_specs::cmp::PartialEqSpecImpl;

verus! {

/// What a construction site builds.
#[derive(Clone, Copy, Debug)]
pub enum ConstructionType {
    PowerGrid,
    Conveyor(Conveyor),
    Building(BuildingType),
}

impl PartialEq for ConstructionType {
    fn eq(&self, other: &Self) -> (r: bool) {
        match (*self, *other) {
            (ConstructionType::PowerGrid, ConstructionType::PowerGrid) => true,
            (ConstructionType::Conveyor(a), ConstructionType::Conveyor(b)) => a == b,
            (ConstructionType::Building(a), ConstructionType::Building(b)) => a == b,
            _ => false,
        }
    }
}

impl PartialEqSpecImpl for ConstructionType {
    open spec fn obeys_eq_spec() -> bool {
        true
    }

    open spec fn eq_spec(&self, other: &Self) -> bool {
        *self == *other
    }
}

impl Eq for ConstructionType {

}

/// An entry of the build menu: what it builds, the ingredients it takes and the ticks of work.
#[derive(Debug)]
pub struct BuildMenuItem {
    pub type_: ConstructionType,
    pub ingredients: CountableInventory,
    pub time: u32,
}

impl Clone for BuildMenuItem {
    fn clone(&self) -> (r: Self)
        ensures
            r.type_ == self.type_,
            r.ingredients.entries() == self.ingredients.entries(),
            r.ingredients@ == self.ingredients@,
            r.time == self.time,
    {
        BuildMenuItem { type_: self.type_, ingredients: self.ingredients.clone(), time: self.time }
    }
}

/// The ingredients of a menu entry: a sequence of item types and counts.
pub open spec fn ingredients_of(pairs: Seq<(ItemType, usize)>) -> Map<ItemType, usize>
    decreases pairs.len(),
{
    if pairs.len() == 0 {
        Map::empty()
    } else {
        ingredients_of(pairs.drop_last()).insert(pairs.last().0, pairs.last().1)
    }
}

/// The build menu: the buildings that can be planned, in menu order, with their ingredients
/// and ticks of work. Power plants and batteries are not on it: no item type makes a battery,
/// so a battery can be neither planned nor taken apart into its ingredients.
pub open spec fn build_menu() -> Seq<(BuildingType, Seq<(ItemType, usize)>, u32)> {
    seq![
        (BuildingType::Storage, seq![(ItemType::IronIngot, 1usize), (ItemType::Cilicate, 5usize)], 100u32),
        (
            BuildingType::Excavator,
            seq![(ItemType::IronIngot, 3usize), (ItemType::Gear, 2usize), (ItemType::Circuit, 2usize)],
            200u32,
        ),
        (
            BuildingType::MediumStorage,
            seq![(ItemType::IronIngot, 2usize), (ItemType::Gear, 2usize), (ItemType::Cilicate, 10usize)],
            200u32,
        ),
        (
            BuildingType::Furnace,
            seq![(ItemType::IronIngot, 2usize), (ItemType::Wire, 1usize), (ItemType::Cilicate, 6usize)],
            300u32,
        ),
        (BuildingType::Assembler, seq![(ItemType::AssemblerComponent, 4usize)], 300u32),
    ]
}

/// The menu entry at `i` is the one a `BuildMenuItem` stands for.
pub open spec fn menu_item_is(m: BuildMenuItem, i: int) -> bool {
    &&& m.ingredients.wf()
    &&& m.type_ == ConstructionType::Building(build_menu()[i].0)
    &&& m.ingredients@ == ingredients_of(build_menu()[i].1)
    &&& m.time == build_menu()[i].2
}

pub(crate) fn inventory_of(pairs: &[(ItemType, usize)]) -> (r: CountableInventory)
    ensures
        r.wf(),
        r@ == ingredients_of(pairs@),
{
    let mut inv = CountableInventory::new();
    let mut i: usize = 0;
    while i < pairs.len()
        invariant
            i <= pairs@.len(),
            inv.wf(),
            inv@ == ingredients_of(pairs@.take(i as int)),
        decreases pairs@.len() - i,
    {
        proof {
            assert(pairs@.take(i + 1).drop_last() =~= pairs@.take(i as int));
        }
        inv.insert(pairs[i].0, pairs[i].1);
        i = i + 1;
    }
    proof {
        assert(pairs@.take(i as int) =~= pairs@);
    }
    inv
}

fn menu_item(type_: BuildingType, pairs: &[(ItemType, usize)], time: u32) -> (r: BuildMenuItem)
    ensures
        r.ingredients.wf(),
        r.type_ == ConstructionType::Building(type_),
        r.ingredients@ == ingredients_of(pairs@),
        r.time == time,
{
    BuildMenuItem { type_: ConstructionType::Building(type_), ingredients: inventory_of(pairs), time }
}

/// The build menu, in menu order.
pub fn get_build_menu() -> (r: Vec<BuildMenuItem>)
    ensures
        r@.len() == build_menu().len(),
        forall|i: int| 0 <= i < r@.len() ==> menu_item_is(#[trigger] r@[i], i),
{
    let mut menu: Vec<BuildMenuItem> = Vec::new();
    menu.push(menu_item(BuildingType::Storage, &[(ItemType::IronIngot, 1), (ItemType::Cilicate, 5)], 100));
    menu.push(
        menu_item(
            BuildingType::Excavator,
            &[(ItemType::IronIngot, 3), (ItemType::Gear, 2), (ItemType::Circuit, 2)],
            200,
        ),
    );
    menu.push(
        menu_item(
            BuildingType::MediumStorage,
            &[(ItemType::IronIngot, 2), (ItemType::Gear, 2), (ItemType::Cilicate, 10)],
            200,
        ),
    );
    menu.push(
        menu_item(
            BuildingType::Furnace,
            &[(ItemType::IronIngot, 2), (ItemType::Wire, 1), (ItemType::Cilicate, 6)],
            300,
        ),
    );
    menu.push(menu_item(BuildingType::Assembler, &[(ItemType::AssemblerComponent, 4)], 300));
    proof {
        assert forall|i: int| 0 <= i < menu@.len() implies menu_item_is(#[trigger] menu@[i], i) by {
            reveal_with_fuel(ingredients_of, 4);
        }
    }
    menu
}

/// A planned location for a construction. It gathers ingredients on site until crews build
/// it; a canceling site is deconstructed and hands its ingredients back.
#[derive(Debug)]
pub struct Construction {
    type_: ConstructionType,
    pub pos: Pos,
    pub ingredients: Inventory,
    pub recipe: BuildMenuItem,
    canceling: bool,
    /// Ticks of work done.
    pub progress: u32,
    /// The transports on their way to this site, each once.
    expected_transports: Vec<TransportId>,
}

impl Construction {
    /// What the site builds.
    pub closed spec fn spec_type(&self) -> ConstructionType {
        self.type_
    }

    /// The top left tile of the site.
    pub closed spec fn spec_pos(&self) -> Pos {
        self.pos
    }

    /// The ingredients gathered on site.
    pub closed spec fn spec_ingredients(&self) -> Inventory {
        self.ingredients
    }

    /// The recipe of the site.
    pub closed spec fn spec_recipe(&self) -> BuildMenuItem {
        self.recipe
    }

    /// The ticks of work done.
    pub closed spec fn spec_progress(&self) -> u32 {
        self.progress
    }

    /// Whether the site is being deconstructed.
    pub closed spec fn spec_canceling(&self) -> bool {
        self.canceling
    }

    /// The transports the site expects.
    pub closed spec fn expected(&self) -> Seq<TransportId> {
        self.expected_transports@
    }

    /// The size of the site.
    pub open spec fn spec_size(&self) -> (int, int) {
        match self.spec_type() {
            ConstructionType::Building(b) => spec_size(b),
            _ => (1, 1),
        }
    }

    /// A site for `item`'s recipe at `pos`. A canceling site starts with all ingredients and
    /// all the work done, to be undone.
    pub fn new_ex(type_: ConstructionType, item: &BuildMenuItem, pos: Pos, canceling: bool) -> (r: Self)
        requires
            item.ingredients.wf(),
        ensures
            r.spec_type() == type_,
            r.spec_pos() == pos,
            r.spec_ingredients().wf(),
            r.spec_ingredients()@ == (if canceling { item.ingredients@ } else { Map::<ItemType, usize>::empty() }),
            r.spec_recipe().type_ == item.type_,
            r.spec_recipe().ingredients@ == item.ingredients@,
            r.spec_recipe().ingredients.entries() == item.ingredients.entries(),
            r.spec_recipe().time == item.time,
            r.spec_canceling() == canceling,
            r.spec_progress() == (if canceling { item.time } else { 0 }),
            r.expected().len() == 0,
    {
        let ingredients = if canceling {
            Inventory::from_countable(item.ingredients.clone())
        } else {
            Inventory::new()
        };
        Construction {
            type_,
            pos,
            ingredients,
            recipe: item.clone(),
            canceling,
            progress: if canceling { item.time } else { 0 },
            expected_transports: Vec::new(),
        }
    }

    /// A site for a menu entry at `pos`.
    pub fn new(item: &BuildMenuItem, pos: Pos) -> (r: Self)
        requires
            item.ingredients.wf(),
        ensures
            r.spec_type() == item.type_,
            r.spec_pos() == pos,
            r.spec_ingredients().wf(),
            r.spec_ingredients()@ == Map::<ItemType, usize>::empty(),
            r.spec_recipe().type_ == item.type_,
            r.spec_recipe().ingredients@ == item.ingredients@,
            r.spec_recipe().time == item.time,
            !r.spec_canceling(),
            r.spec_progress() == 0,
            r.expected().len() == 0,
    {
        Self::new_ex(item.type_, item, pos, false)
    }

    /// A site for a power grid tile: one power grid component.
    pub fn new_power_grid(pos: Pos, canceling: bool) -> (r: Self)
        ensures
            r.spec_type() == ConstructionType::PowerGrid,
            r.spec_pos() == pos,
            r.spec_ingredients().wf(),
            r.spec_recipe().type_ == ConstructionType::PowerGrid,
            r.spec_recipe().ingredients@ == map![ItemType::PowerGridComponent => 1usize],
            r.spec_recipe().time == BUILD_POWER_GRID_TIME,
            r.spec_ingredients()@ == (if canceling { r.spec_recipe().ingredients@ } else { Map::<ItemType, usize>::empty() }),
            r.spec_canceling() == canceling,
            r.spec_progress() == (if canceling { BUILD_POWER_GRID_TIME } else { 0 }),
            r.expected().len() == 0,
    {
        let mut ingredients = CountableInventory::new();
        ingredients.insert(ItemType::PowerGridComponent, 1);
        let recipe = BuildMenuItem { type_: ConstructionType::PowerGrid, ingredients, time: BUILD_POWER_GRID_TIME };
        proof {
            assert(recipe.ingredients@ =~= map![ItemType::PowerGridComponent => 1usize]);
        }
        Self::new_ex(ConstructionType::PowerGrid, &recipe, pos, canceling)
    }

    /// The recipe of a plain conveyor: one conveyor component.
    pub fn build_recipe() -> (r: BuildMenuItem)
        ensures
            r.type_ == ConstructionType::Conveyor(Conveyor::One(Direction::Left, Direction::Right)),
            r.ingredients.wf(),
            r.ingredients@ == map![ItemType::ConveyorComponent => 1usize],
            r.time == BUILD_CONVEYOR_TIME,
    {
        let mut ingredients = CountableInventory::new();
        ingredients.insert(ItemType::ConveyorComponent, 1);
        proof {
            assert(ingredients@ =~= map![ItemType::ConveyorComponent => 1usize]);
        }
        BuildMenuItem {
            type_: ConstructionType::Conveyor(Conveyor::One(Direction::Left, Direction::Right)),
            ingredients,
            time: BUILD_CONVEYOR_TIME,
        }
    }

    /// The recipe of a splitter or a merger: a conveyor component, a circuit and a gear.
    pub fn splitter_recipe() -> (r: BuildMenuItem)
        ensures
            r.type_ == ConstructionType::Conveyor(Conveyor::One(Direction::Left, Direction::Right)),
            r.ingredients.wf(),
            r.ingredients@ == map![
                ItemType::ConveyorComponent => 1usize,
                ItemType::Circuit => 1usize,
                ItemType::Gear => 1usize
            ],
            r.time == BUILD_CONVEYOR_TIME,
    {
        let mut ingredients = CountableInventory::new();
        ingredients.insert(ItemType::ConveyorComponent, 1);
        ingredients.insert(ItemType::Circuit, 1);
        ingredients.insert(ItemType::Gear, 1);
        proof {
            assert(ingredients@ =~= map![
                ItemType::ConveyorComponent => 1usize,
                ItemType::Circuit => 1usize,
                ItemType::Gear => 1usize
            ]);
        }
        BuildMenuItem {
            type_: ConstructionType::Conveyor(Conveyor::One(Direction::Left, Direction::Right)),
            ingredients,
            time: BUILD_CONVEYOR_TIME,
        }
    }

    /// A site for a conveyor tile; splitters and mergers take the splitter recipe.
    pub fn new_conveyor(pos: Pos, conv: Conveyor, canceling: bool) -> (r: Self)
        ensures
            r.spec_type() == ConstructionType::Conveyor(conv),
            r.spec_pos() == pos,
            r.spec_ingredients().wf(),
            r.spec_recipe().type_ == ConstructionType::Conveyor(Conveyor::One(Direction::Left, Direction::Right)),
            r.spec_recipe().ingredients@ == (if conv is Splitter || conv is Merger {
                map![ItemType::ConveyorComponent => 1usize, ItemType::Circuit => 1usize, ItemType::Gear => 1usize]
            } else {
                map![ItemType::ConveyorComponent => 1usize]
            }),
            r.spec_recipe().time == BUILD_CONVEYOR_TIME,
            r.spec_ingredients()@ == (if canceling { r.spec_recipe().ingredients@ } else { Map::<ItemType, usize>::empty() }),
            r.spec_canceling() == canceling,
            r.spec_progress() == (if canceling { BUILD_CONVEYOR_TIME } else { 0 }),
            r.expected().len() == 0,
    {
        if matches!(conv, Conveyor::Splitter(_) | Conveyor::Merger(_)) {
            Self::new_ex(ConstructionType::Conveyor(conv), &Self::splitter_recipe(), pos, canceling)
        } else {
            Self::new_ex(ConstructionType::Conveyor(conv), &Self::build_recipe(), pos, canceling)
        }
    }

    /// A site that deconstructs a building of type `building` at `pos`: it holds the
    /// building's recipe ingredients and, over them, the building's inventory, and starts with
    /// all the work done, to be undone. None when the menu has no entry for the type.
    pub fn new_deconstruct(building: BuildingType, pos: Pos, inventory: &Inventory) -> (r: Option<Self>)
        requires
            inventory.wf(),
        ensures
            r is Some <==> exists|i: int| 0 <= i < build_menu().len() && #[trigger] build_menu()[i].0 == building,
            r matches Some(c) ==> exists|i: int|
                #![trigger build_menu()[i]]
                {
                    &&& 0 <= i < build_menu().len()
                    &&& build_menu()[i].0 == building
                    &&& forall|j: int| 0 <= j < i ==> build_menu()[j].0 != building
                    &&& c.spec_type() == ConstructionType::Building(building)
                    &&& c.spec_pos() == pos
                    &&& c.spec_ingredients().wf()
                    &&& c.spec_ingredients()@ == ingredients_of(build_menu()[i].1).union_prefer_right(inventory@)
                    &&& c.spec_recipe().type_ == ConstructionType::Building(building)
                    &&& c.spec_recipe().ingredients@ == ingredients_of(build_menu()[i].1)
                    &&& c.spec_recipe().time == build_menu()[i].2
                    &&& c.spec_canceling()
                    &&& c.spec_progress() == build_menu()[i].2
                    &&& c.expected().len() == 0
                },
    {
        let con_ty = ConstructionType::Building(building);
        let menu = get_build_menu();
        let mut i: usize = 0;
        while i < menu.len()
            invariant
                i <= menu@.len(),
                menu@.len() == build_menu().len(),
                forall|k: int| 0 <= k < menu@.len() ==> menu_item_is(#[trigger] menu@[k], k),
                forall|j: int| 0 <= j < i ==> build_menu()[j].0 != building,
                inventory.wf(),
                con_ty == ConstructionType::Building(building),
            decreases menu@.len() - i,
        {
            proof {
                assert(menu_item_is(menu@[i as int], i as int));
            }
            if menu[i].type_ == con_ty {
                proof {
                    assert(build_menu()[i as int].0 == building);
                }
                let recipe = &menu[i];
                let mut ingredients = recipe.ingredients.clone();
                let ents = inventory.iter();
                proof {
                    lemma_inventory_parts(*inventory);
                    lemma_entries_of_view(inventory.spec_countable());
                }
                let mut k: usize = 0;
                while k < ents.len()
                    invariant
                        k <= ents@.len(),
                        ents@ == inventory.spec_countable().entries(),
                        ingredients.wf(),
                        forall|t: ItemType| #[trigger] ingredients@.contains_key(t) <==> (recipe.ingredients@.contains_key(t)
                            || exists|m: int| 0 <= m < k && ents@[m].0 == t),
                        forall|m: int| 0 <= m < k ==> #[trigger] ingredients@[ents@[m].0] == ents@[m].1,
                        forall|t: ItemType|
                            recipe.ingredients@.contains_key(t) && !(exists|m: int| 0 <= m < k && ents@[m].0 == t)
                                ==> #[trigger] ingredients@[t] == recipe.ingredients@[t],
                        crate::inventory::sorted_entries(ents@),
                    decreases ents@.len() - k,
                {
                    ingredients.insert(ents[k].0, ents[k].1);
                    proof {
                        assert forall|m: int| 0 <= m < k + 1 implies #[trigger] ingredients@[ents@[m].0] == ents@[m].1 by {
                            if m < k {
                                assert(crate::items::item_index(ents@[m].0) < crate::items::item_index(ents@[k as int].0));
                            }
                        }
                        assert forall|t: ItemType| #[trigger] ingredients@.contains_key(t) <==> (recipe.ingredients@.contains_key(t)
                            || exists|m: int| 0 <= m < k + 1 && ents@[m].0 == t) by {
                            if t == ents@[k as int].0 {
                                assert(0 <= k < k + 1 && ents@[k as int].0 == t);
                            }
                            if exists|m: int| 0 <= m < k + 1 && ents@[m].0 == t {
                                let m = choose|m: int| 0 <= m < k + 1 && ents@[m].0 == t;
                                if m < k {
                                    assert(exists|m2: int| 0 <= m2 < k && ents@[m2].0 == t);
                                }
                            }
                        }
                        assert forall|t: ItemType|
                            recipe.ingredients@.contains_key(t) && !(exists|m: int| 0 <= m < k + 1 && ents@[m].0 == t)
                                implies #[trigger] ingredients@[t] == recipe.ingredients@[t] by {
                            assert(t != ents@[k as int].0) by {
                                if t == ents@[k as int].0 {
                                    assert(0 <= k < k + 1 && ents@[k as int].0 == t);
                                }
                            }
                            if exists|m: int| 0 <= m < k && ents@[m].0 == t {
                                let m = choose|m: int| 0 <= m < k && ents@[m].0 == t;
                                assert(0 <= m < k + 1);
                            }
                        }
                    }
                    k = k + 1;
                }
                proof {
                    let target = recipe.ingredients@.union_prefer_right(inventory@);
                    assert forall|t: ItemType| #[trigger] ingredients@.contains_key(t) == target.contains_key(t) by {
                        if inventory@.contains_key(t) {
                            let m = choose|m: int| 0 <= m < ents@.len() && ents@[m].0 == t;
                        }
                        if exists|m: int| 0 <= m < ents@.len() && ents@[m].0 == t {
                            assert(inventory@.contains_key(t));
                        }
                    }
                    assert forall|t: ItemType| #[trigger] ingredients@.contains_key(t) implies ingredients@[t] == target[t] by {
                        if inventory@.contains_key(t) {
                            let m = choose|m: int| 0 <= m < ents@.len() && ents@[m].0 == t;
                            assert(inventory@[ents@[m].0] == ents@[m].1);
                        }
                    }
                    assert(ingredients@ =~= target);
                }
                let c = Construction {
                    type_: con_ty,
                    pos,
                    ingredients: Inventory::from_countable(ingredients),
                    recipe: recipe.clone(),
                    canceling: true,
                    progress: recipe.time,
                    expected_transports: Vec::new(),
                };
                return Some(c);
            }
            i = i + 1;
        }
        None
    }

    /// What the site builds.
    pub fn get_type(&self) -> (r: ConstructionType)
        ensures
            r == self.spec_type(),
    {
        self.type_
    }

    /// The building type, if the site builds a building.
    pub fn _building(&self) -> (r: Option<BuildingType>)
        ensures
            r == (match self.spec_type() {
                ConstructionType::Building(b) => Some(b),
                _ => None,
            }),
    {
        match self.type_ {
            ConstructionType::Building(b) => Some(b),
            _ => None,
        }
    }

    /// The size of the site: the building's, or one tile.
    pub fn size(&self) -> (r: [usize; 2])
        ensures
            (r[0] as int, r[1] as int) == self.spec_size(),
    {
        match self.type_ {
            ConstructionType::Building(b) => b.size(),
            _ => [1, 1],
        }
    }

    /// Whether tile `pos` lies on the site, counting one tile past its right and bottom
    /// edges.
    pub fn intersects(&self, pos: Pos) -> (r: bool)
        ensures
            r == (self.spec_pos()[0] <= pos[0] <= self.spec_pos()[0] + self.spec_size().0 && self.spec_pos()[1] <= pos[1]
                <= self.spec_pos()[1] + self.spec_size().1),
    {
        let size = self.size();
        let x = self.pos[0] as i64;
        let y = self.pos[1] as i64;
        x <= pos[0] as i64 && (pos[0] as i64) <= x + size[0] as i64 && y <= pos[1] as i64 && (pos[1] as i64)
            <= y + size[1] as i64
    }

    /// Whether the site overlaps the rectangle of size `other_size` at `pos`.
    pub fn intersects_rect(&self, pos: Pos, other_size: [usize; 2]) -> (r: bool)
        requires
            other_size[0] <= i32::MAX,
            other_size[1] <= i32::MAX,
        ensures
            r == rects_overlap(self.spec_pos(), self.spec_size(), pos, (other_size[0] as int, other_size[1] as int)),
    {
        let size = self.size();
        let x = self.pos[0] as i64;
        let y = self.pos[1] as i64;
        let px = pos[0] as i64;
        let py = pos[1] as i64;
        x < px + other_size[0] as i64 && px < x + size[0] as i64 && y < py + other_size[1] as i64 && py < y
            + size[1] as i64
    }

    /// Whether the site is being deconstructed.
    pub fn canceling(&self) -> (r: bool)
        ensures
            r == self.spec_canceling(),
    {
        self.canceling
    }

    /// Switches between building and deconstructing.
    pub fn toggle_cancel(&mut self)
        ensures
            *final(self) == toggled(*old(self)),
    {
        self.canceling = !self.canceling;
    }

    /// The ticks of work done.
    pub fn progress(&self) -> (r: u32)
        ensures
            r == self.spec_progress(),
    {
        self.progress
    }

    /// Whether the site holds all the ingredients of its recipe.
    pub fn ingredients_satisfied(&self) -> (r: bool)
        requires
            self.spec_recipe().ingredients.wf(),
            self.spec_ingredients().wf(),
        ensures
            r == (forall|t: ItemType| #[trigger] self.spec_recipe().ingredients@.contains_key(t)
                ==> self.spec_recipe().ingredients@[t] <= count_of(self.spec_ingredients()@, t)),
    {
        let ents = self.recipe.ingredients.iter();
        proof {
            lemma_entries_of_view(self.recipe.ingredients);
        }
        let mut i: usize = 0;
        while i < ents.len()
            invariant
                i <= ents@.len(),
                ents@ == self.recipe.ingredients.entries(),
                self.ingredients.wf(),
                forall|k: int| 0 <= k < ents@.len() ==> #[trigger] self.recipe.ingredients@[ents@[k].0] == ents@[k].1,
                forall|t: ItemType| #[trigger]
                    self.recipe.ingredients@.contains_key(t) <==> exists|k: int| 0 <= k < ents@.len() && ents@[k].0 == t,
                forall|k: int| 0 <= k < i ==> ents@[k].1 <= #[trigger] count_of(self.ingredients@, ents@[k].0),
            decreases ents@.len() - i,
        {
            let (t, n) = ents[i];
            if self.ingredients.get(&t) < n {
                proof {
                    assert(self.recipe.ingredients@.contains_key(t));
                }
                return false;
            }
            i = i + 1;
        }
        proof {
            assert forall|t: ItemType| #[trigger] self.recipe.ingredients@.contains_key(t)
                implies self.recipe.ingredients@[t] <= count_of(self.ingredients@, t) by {
                let k = choose|k: int| 0 <= k < ents@.len() && ents@[k].0 == t;
            }
        }
        true
    }

    /// The ingredients of the recipe the site still lacks, in item order, each with the amount
    /// it has or has coming (on site, by transport or by crew); none while canceling.
    pub fn required_ingredients(&self, transports: &EntitySet<Transport>, crews: &EntitySet<Crew>) -> (r: Vec<(ItemType, usize)>)
        requires
            self.spec_recipe().ingredients.wf(),
            self.spec_ingredients().wf(),
        ensures
            self.spec_canceling() ==> r@.len() == 0,
            !self.spec_canceling() ==> r@ == lacking(
                self.spec_recipe().ingredients.entries(),
                |it: ItemType|
                    count_of(self.spec_ingredients()@, it) + delivery_total(transports.slots(), self.expected(), it)
                        + count_keyed(occupied_values(crews.slots()), delivery_key(self.spec_pos()), it),
            ),
    {
        let mut out: Vec<(ItemType, usize)> = Vec::new();
        if self.canceling {
            return out;
        }
        let ghost amount = |it: ItemType|
            count_of(self.ingredients@, it) + delivery_total(transports.slots(), self.expected_transports@, it)
                + count_keyed(occupied_values(crews.slots()), delivery_key(self.pos), it);
        let crew_expected = expected_crew_deliveries(crews, self.pos);
        let ents = self.recipe.ingredients.iter();
        let mut i: usize = 0;
        while i < ents.len()
            invariant
                i <= ents@.len(),
                ents@ == self.recipe.ingredients.entries(),
                self.ingredients.wf(),
                crew_expected.wf(),
                amount == (|it: ItemType|
                    count_of(self.ingredients@, it) + delivery_total(transports.slots(), self.expected_transports@, it)
                        + count_keyed(occupied_values(crews.slots()), delivery_key(self.pos), it)),
                forall|it: ItemType| #[trigger] crew_expected@.contains_key(it) <==> count_keyed(occupied_values(crews.slots()), delivery_key(self.pos), it) > 0,
                forall|it: ItemType|
                    crew_expected@.contains_key(it) ==> #[trigger] crew_expected@[it] == count_keyed(occupied_values(crews.slots()), delivery_key(self.pos), it),
                out@ == lacking(ents@.take(i as int), amount),
            decreases ents@.len() - i,
        {
            let (ty, recipe_count) = ents[i];
            let have = self.ingredients.get(&ty);
            let coming = delivery_count(transports, &self.expected_transports, ty);
            let crew_coming = match crew_expected.get(&ty) {
                Some(c) => *c,
                None => 0,
            };
            proof {
                assert(ents@.take(i + 1).drop_last() =~= ents@.take(i as int));
            }
            // a sum that saturates falls short of a recipe count only where the true sum does
            let required = have.saturating_add(coming).saturating_add(crew_coming);
            if recipe_count > required {
                out.push((ty, required));
            }
            i = i + 1;
        }
        proof {
            assert(ents@.take(i as int) =~= ents@);
        }
        out
    }

    /// The ingredients to hand back, in item order: those with a positive count, once a
    /// canceling site is fully deconstructed; none otherwise.
    pub fn extra_ingredients(&self) -> (r: Vec<(ItemType, usize)>)
        requires
            self.spec_ingredients().wf(),
        ensures
            !self.spec_canceling() || self.spec_progress() > 0 ==> r@.len() == 0,
            self.spec_canceling() && self.spec_progress() == 0 ==> r@ == self.spec_ingredients().spec_countable().entries().filter(
                |e: (ItemType, usize)| e.1 > 0,
            ),
    {
        let mut out: Vec<(ItemType, usize)> = Vec::new();
        if !self.canceling || 0 < self.progress {
            return out;
        }
        let ents = self.ingredients.iter();
        let ghost pred = |e: (ItemType, usize)| e.1 > 0;
        let mut i: usize = 0;
        while i < ents.len()
            invariant
                i <= ents@.len(),
                pred == (|e: (ItemType, usize)| e.1 > 0),
                out@ == ents@.take(i as int).filter(pred),
            decreases ents@.len() - i,
        {
            proof {
                assert(ents@.take(i + 1) =~= ents@.take(i as int).push(ents@[i as int]));
                ents@.take(i as int).lemma_filter_push(ents@[i as int], pred);
            }
            if 0 < ents[i].1 {
                out.push(ents[i]);
            }
            i = i + 1;
        }
        proof {
            assert(ents@.take(i as int) =~= ents@);
        }
        out
    }

    /// Expects a transport, once.
    pub fn insert_expected_transports(&mut self, id: TransportId)
        ensures
            forall|x: TransportId| #[trigger] final(self).expected().contains(x) <==> (old(self).expected().contains(x) || x == id),
            old(self).expected().no_duplicates() ==> final(self).expected().no_duplicates(),
            final(self).spec_type() == old(self).spec_type(),
            final(self).spec_pos() == old(self).spec_pos(),
            final(self).spec_ingredients() == old(self).spec_ingredients(),
            final(self).spec_recipe() == old(self).spec_recipe(),
            final(self).spec_canceling() == old(self).spec_canceling(),
            final(self).spec_progress() == old(self).spec_progress(),
    {
        let mut i: usize = 0;
        while i < self.expected_transports.len()
            invariant
                i <= self.expected_transports@.len(),
                self.expected_transports@ == old(self).expected_transports@,
                forall|k: int| 0 <= k < i ==> self.expected_transports@[k] != id,
            decreases self.expected_transports@.len() - i,
        {
            if self.expected_transports[i] == id {
                proof {
                    crate::entity::lemma_id_ext(self.expected_transports@[i as int], id);
                }
                return;
            }
            i = i + 1;
        }
        self.expected_transports.push(id);
        proof {
            assert forall|x: TransportId| #[trigger] self.expected().contains(x) <==> (old(self).expected().contains(x) || x == id) by {
                if old(self).expected().contains(x) {
                    let k = choose|k: int| 0 <= k < old(self).expected().len() && old(self).expected()[k] == x;
                    assert(self.expected()[k] == x);
                }
                if x == id {
                    assert(self.expected()[self.expected().len() - 1] == id);
                }
                if self.expected().contains(x) {
                    let k = choose|k: int| 0 <= k < self.expected().len() && self.expected()[k] == x;
                    if k < old(self).expected().len() {
                        assert(old(self).expected()[k] == x);
                    }
                }
            }
        }
    }

    /// No longer expects a transport.
    pub fn clear_expected(&mut self, id: TransportId)
        ensures
            final(self).expected() == without(old(self).expected(), id),
            final(self).spec_type() == old(self).spec_type(),
            final(self).spec_pos() == old(self).spec_pos(),
            final(self).spec_ingredients() == old(self).spec_ingredients(),
            final(self).spec_recipe() == old(self).spec_recipe(),
            final(self).spec_canceling() == old(self).spec_canceling(),
            final(self).spec_progress() == old(self).spec_progress(),
    {
        let ghost pred = other_than(id);
        let mut kept: Vec<TransportId> = Vec::new();
        let mut i: usize = 0;
        while i < self.expected_transports.len()
            invariant
                i <= self.expected_transports@.len(),
                pred == other_than(id),
                kept@ == self.expected_transports@.take(i as int).filter(pred),
            decreases self.expected_transports@.len() - i,
        {
            let x = self.expected_transports[i];
            proof {
                assert(self.expected_transports@.take(i + 1) =~= self.expected_transports@.take(i as int).push(x));
                self.expected_transports@.take(i as int).lemma_filter_push(x, pred);
            }
            if x != id {
                kept.push(x);
            } else {
                proof {
                    crate::entity::lemma_id_ext(x, id);
                }
            }
            i = i + 1;
        }
        proof {
            assert(self.expected_transports@.take(i as int) =~= self.expected_transports@);
        }
        self.expected_transports = kept;
    }

    /// No longer expects any transport.
    pub fn clear_expected_all(&mut self)
        ensures
            final(self).expected().len() == 0,
            final(self).spec_type() == old(self).spec_type(),
            final(self).spec_pos() == old(self).spec_pos(),
            final(self).spec_ingredients() == old(self).spec_ingredients(),
            final(self).spec_recipe() == old(self).spec_recipe(),
            final(self).spec_canceling() == old(self).spec_canceling(),
            final(self).spec_progress() == old(self).spec_progress(),
    {
        self.expected_transports.clear();
    }

    /// The ingredients gathered on site.
    pub fn ingredients(&self) -> (r: &Inventory)
        ensures
            *r == self.spec_ingredients(),
    {
        &self.ingredients
    }

    /// The recipe of the site.
    pub fn recipe(&self) -> (r: &BuildMenuItem)
        ensures
            *r == self.spec_recipe(),
    {
        &self.recipe
    }

    /// Sets the ticks of work done.
    pub fn set_progress(&mut self, progress: u32)
        ensures
            *final(self) == with_progress(*old(self), progress),
    {
        self.progress = progress;
    }

    /// Pulls the ingredients the site lacks over the conveyors from the buildings (see
    /// `pull_inputs`): the site expects the transports set off; its ingredients stay as they
    /// are until the transports arrive.
    pub fn pull_ingredients<S: TileSampler>(
        &mut self,
        tiles: &S,
        transports: &mut EntitySet<Transport>,
        buildings: &mut EntitySet<Building>,
    )
        requires
            old(self).spec_ingredients().wf(),
            old(self).spec_recipe().ingredients.wf(),
            tiles.sampler_ok(),
            buildings_ok(old(buildings).slots()),
            old(transports).can_insert(),
            old(transports).slots().len() + 10 < u32::MAX,
        ensures
            final(self).spec_type() == old(self).spec_type(),
            final(self).spec_pos() == old(self).spec_pos(),
            final(self).spec_ingredients() == old(self).spec_ingredients(),
            final(self).spec_recipe() == old(self).spec_recipe(),
            final(self).spec_canceling() == old(self).spec_canceling(),
            final(self).spec_progress() == old(self).spec_progress(),
            final(self).expected().len() >= old(self).expected().len(),
            final(self).expected().take(old(self).expected().len() as int) == old(self).expected(),
            buildings_ok(final(buildings).slots()),
            slots_same_but_inventories(old(buildings).slots(), final(buildings).slots()),
            final(buildings).free_head() == old(buildings).free_head(),
            final(transports).free_head() == old(transports).free_head(),
            final(transports).slots().len() <= old(transports).slots().len() + 10,
            forall|i: int|
                0 <= i < final(transports).slots().len() && #[trigger] final(transports).slots()[i].payload is Free ==> i
                    < old(transports).slots().len() && final(transports).slots()[i] == old(transports).slots()[i],
            forall|id: TransportId|
                lookup(old(transports).slots(), id) is Some ==> #[trigger] lookup(final(transports).slots(), id)
                    == lookup(old(transports).slots(), id),
            forall|k: int|
                old(self).expected().len() <= k < final(self).expected().len() ==> {
                    let t = lookup(final(transports).slots(), #[trigger] final(self).expected()[k])->Some_0;
                    let lack = pull_lack(
                        old(self).spec_recipe().ingredients@,
                        old(self).spec_ingredients()@,
                        old(transports).slots(),
                        old(self).expected(),
                        t.item,
                    );
                    &&& lookup(final(transports).slots(), final(self).expected()[k]) is Some
                    &&& lack > 0
                    &&& pulled_from_holder(tiles, old(buildings).slots(), lack, old(self).spec_pos(), old(self).spec_size(), t)
                },
            forall|ty: ItemType|
                old(self).spec_recipe().ingredients@.contains_key(ty) && pull_lack(
                    old(self).spec_recipe().ingredients@,
                    old(self).spec_ingredients()@,
                    old(transports).slots(),
                    old(self).expected(),
                    ty,
                ) > 0 && #[trigger] holder_adjacent(tiles, old(buildings).slots(), ty, old(self).spec_pos(), old(self).spec_size())
                    ==> exists|k: int|
                    old(self).expected().len() <= k < final(self).expected().len() && lookup(
                        final(transports).slots(),
                        #[trigger] final(self).expected()[k],
                    )->Some_0.item == ty,
            forall|i: int, ty: ItemType|
                0 <= i < old(buildings).slots().len() && old(buildings).slots()[i].payload is Occupied
                    ==> #[trigger] inv_taken(
                    occupant(old(buildings).slots()[i]).inventory@,
                    occupant(final(buildings).slots()[i]).inventory@,
                    ty,
                    pull_taken(
                        old(buildings).slots(),
                        ty,
                        delivery_total(
                            final(transports).slots(),
                            final(self).expected().skip(old(self).expected().len() as int),
                            ty,
                        ) as int,
                        i,
                        ty,
                    ),
                ),
    {
        let size = self.size();
        proof {
            crate::inventory::lemma_entries_bound(self.recipe.ingredients);
        }
        pull_inputs(
            &self.recipe.ingredients,
            tiles,
            transports,
            &mut self.expected_transports,
            self.pos,
            size,
            &mut self.ingredients,
            buildings,
        );
    }

    /// Pushes one ingredient away to a storage over the conveyors (see `push_outputs`).
    pub fn push_ingredients<S: TileSampler>(
        &mut self,
        tiles: &S,
        transports: &mut EntitySet<Transport>,
        buildings: &mut EntitySet<Building>,
    )
        requires
            old(self).spec_ingredients().wf(),
            tiles.sampler_ok(),
            buildings_ok(old(buildings).slots()),
            old(transports).can_insert(),
            pos_in_range(old(self).spec_pos()),
            old(self).spec_pos()[0] < i32::MAX - 2,
            old(self).spec_pos()[1] < i32::MAX - 2,
        ensures
            final(self).spec_type() == old(self).spec_type(),
            final(self).spec_pos() == old(self).spec_pos(),
            final(self).spec_ingredients().wf(),
            final(self).spec_recipe() == old(self).spec_recipe(),
            final(self).spec_canceling() == old(self).spec_canceling(),
            final(self).spec_progress() == old(self).spec_progress(),
            final(self).expected() == old(self).expected(),
            buildings_ok(final(buildings).slots()),
            places_kept(old(buildings).slots(), final(buildings).slots()),
            final(buildings).slots().len() == old(buildings).slots().len(),
            forall|i: int|
                0 <= i < old(buildings).slots().len() ==> (#[trigger] final(buildings).slots()[i]).gen == old(buildings).slots()[i].gen
                    && (final(buildings).slots()[i].payload is Occupied <==> old(buildings).slots()[i].payload is Occupied)
                    && (old(buildings).slots()[i].payload is Free ==> final(buildings).slots()[i] == old(buildings).slots()[i]),
            final(buildings).free_head() == old(buildings).free_head(),
            final(transports).free_head() == old(transports).free_head(),
            final(transports).slots().len() <= old(transports).slots().len() + 1,
            forall|i: int|
                0 <= i < final(transports).slots().len() && #[trigger] final(transports).slots()[i].payload is Free ==> i
                    < old(transports).slots().len() && final(transports).slots()[i] == old(transports).slots()[i],
    {
        let size = self.size();
        let ghost ts0 = transports.slots();
        let ghost bs0 = buildings.slots();
        let all = |_t: ItemType| -> (r: bool)
            ensures
                r,
            { true };
        push_outputs(tiles, transports, self.pos, size, &mut self.ingredients, buildings, &all);
        proof {
            if transports.slots() != ts0 {
                let (j, k) = choose|j: int, k: int|
                    #![trigger first_output(old(self).ingredients.spec_countable().entries(), all, k), bs0[j]]
                    {
                        &&& first_output(old(self).ingredients.spec_countable().entries(), all, k)
                        &&& 0 <= j < bs0.len()
                        &&& bs0[j].payload is Occupied
                        &&& crate::push_pull::storage_with_room(occupant(bs0[j]), ts0)
                        &&& sent_to(tiles, ts0, transports.slots(), bs0, buildings.slots(), old(self).ingredients@,
                            self.ingredients@, self.pos, (size[0] as int, size[1] as int), j,
                            old(self).ingredients.spec_countable().entries()[k].0, true)
                    };
                let (t, id) = choose|t: Transport, id: TransportId|
                    #![trigger slots_after_insert(ts0, t), id.index()]
                    {
                        let dest = occupant(bs0[j]);
                        &&& id.index() == insert_index(ts0)
                        &&& id.generation() == insert_gen(ts0)
                        &&& transports.slots() == slots_after_insert(ts0, t)
                        &&& t.src == self.pos
                        &&& t.dest == dest.pos
                        &&& t.item == old(self).ingredients.spec_countable().entries()[k].0
                        &&& t.amount == 1
                        &&& conveyor_path_ok(tiles, self.pos, (size[0] as int, size[1] as int), dest.pos, crate::building::spec_size(dest.type_), t.path@)
                        &&& true ==> t.path@[0] == dest.pos
                        &&& !true ==> rect_contains(dest.pos, crate::building::spec_size(dest.type_), t.path@[0])
                        &&& buildings.slots().len() == bs0.len()
                        &&& forall|i: int| 0 <= i < bs0.len() && i != j ==> #[trigger] buildings.slots()[i] == bs0[i]
                        &&& buildings.slots()[j].gen == bs0[j].gen
                        &&& buildings.slots()[j].payload is Occupied
                        &&& same_but_expected(dest, occupant(buildings.slots()[j]))
                        &&& occupant(buildings.slots()[j]).expected_transports@ == dest.expected_transports@.push(id)
                        &&& forall|ty: ItemType| #[trigger] inv_taken(old(self).ingredients@, self.ingredients@, ty, one_of(old(self).ingredients.spec_countable().entries()[k].0, ty))
                    };
                lemma_insert_len(ts0, t);
                assert forall|i: int| 0 <= i < bs0.len() && #[trigger] bs0[i].payload is Occupied implies {
                    &&& buildings.slots()[i].payload is Occupied
                    &&& occupant(buildings.slots()[i]).pos == occupant(bs0[i]).pos
                    &&& occupant(buildings.slots()[i]).type_ == occupant(bs0[i]).type_
                } by {
                    if i != j {
                        assert(buildings.slots()[i] == bs0[i]);
                    }
                }
            }
        }
    }

    /// The top left tile of the site.
    pub fn pos(&self) -> (r: Pos)
        ensures
            r == self.spec_pos(),
    {
        self.pos
    }

    /// The ingredients gathered on site.
    pub fn inventory(&mut self) -> (r: &mut Inventory)
        ensures
            *r == old(self).spec_ingredients(),
            final(self).spec_ingredients() == *final(r),
            final(self).spec_type() == old(self).spec_type(),
            final(self).spec_pos() == old(self).spec_pos(),
            final(self).spec_recipe() == old(self).spec_recipe(),
            final(self).spec_canceling() == old(self).spec_canceling(),
            final(self).spec_progress() == old(self).spec_progress(),
            final(self).expected() == old(self).expected(),
    {
        &mut self.ingredients
    }
}

/// The count of `t` in an inventory, 0 when there is no entry.
pub open spec fn count_of(m: Map<ItemType, usize>, t: ItemType) -> int {
    if m.contains_key(t) {
        m[t] as int
    } else {
        0
    }
}

/// The entries whose count is above the amount at hand, each with that amount, in order.
pub open spec fn lacking(entries: Seq<(ItemType, usize)>, amount: spec_fn(ItemType) -> int) -> Seq<(ItemType, usize)>
    decreases entries.len(),
{
    if entries.len() == 0 {
        Seq::empty()
    } else {
        let rest = lacking(entries.drop_last(), amount);
        let e = entries.last();
        if e.1 > amount(e.0) {
            rest.push((e.0, amount(e.0) as usize))
        } else {
            rest
        }
    }
}

/// The ids other than `id`, in order.
pub open spec fn without(ids: Seq<TransportId>, id: TransportId) -> Seq<TransportId> {
    ids.filter(other_than(id))
}

/// The test for an id other than `id`.
pub open spec fn other_than(id: TransportId) -> spec_fn(TransportId) -> bool {
    |x: TransportId| x != id
}

/// The site with `p` ticks of work done.
pub closed spec fn with_progress(c: Construction, p: u32) -> Construction {
    Construction { progress: p, ..c }
}

/// Setting the work done changes only that.
pub proof fn lemma_with_progress(c: Construction, p: u32)
    ensures
        with_progress(c, p).spec_progress() == p,
        with_progress(c, p).spec_type() == c.spec_type(),
        with_progress(c, p).spec_pos() == c.spec_pos(),
        with_progress(c, p).spec_ingredients() == c.spec_ingredients(),
        with_progress(c, p).spec_recipe() == c.spec_recipe(),
        with_progress(c, p).spec_canceling() == c.spec_canceling(),
        with_progress(c, p).expected() == c.expected(),
{
}

/// The site with building and deconstructing switched.
pub closed spec fn toggled(c: Construction) -> Construction {
    Construction { canceling: !c.canceling, ..c }
}

/// Law: switching a site between building and deconstructing changes only that, and
/// switching twice gives the site back.
pub proof fn lemma_toggle_twice(c: Construction)
    ensures
        toggled(toggled(c)) == c,
        toggled(c).spec_canceling() == !c.spec_canceling(),
        toggled(c).spec_type() == c.spec_type(),
        toggled(c).spec_pos() == c.spec_pos(),
        toggled(c).spec_ingredients() == c.spec_ingredients(),
        toggled(c).spec_recipe() == c.spec_recipe(),
        toggled(c).spec_progress() == c.spec_progress(),
        toggled(c).expected() == c.expected(),
{
}

} // verus!
