//! Buildings: their types, what they hold and how much power they draw.
use vstd::prelude::*;

use crate::direction::Direction;
use crate::entity::EntityId;
use crate::inventory::{CountableInventory, Inventory};
use crate::items::ItemType;
use crate::task::BuildingTask;
use crate::transport::TransportId;
use crate::Pos;

verus! {

/// The kind of a building.
#[derive(Clone, Copy, PartialEq, Eq, Debug, Hash, Structural)]
pub enum BuildingType {
    Power,
    Battery,
    Excavator,
    Storage,
    MediumStorage,
    CrewCabin,
    Assembler,
    Furnace,
}

/// The width and height of a building type, in tiles.
pub open spec fn spec_size(t: BuildingType) -> (int, int) {
    match t {
        BuildingType::MediumStorage | BuildingType::CrewCabin | BuildingType::Assembler
        | BuildingType::Furnace => (2, 2),
        _ => (1, 1),
    }
}

/// Whether buildings of a type can move.
pub open spec fn spec_is_mobile(t: BuildingType) -> bool {
    t == BuildingType::Excavator
}

/// Whether a building type stores items for others.
pub open spec fn spec_is_storage(t: BuildingType) -> bool {
    t == BuildingType::Storage || t == BuildingType::MediumStorage
}

/// The number of items a building type can hold.
pub open spec fn spec_capacity(t: BuildingType) -> usize {
    match t {
        BuildingType::Power => 5,
        BuildingType::Battery => 0,
        BuildingType::Excavator => 10,
        BuildingType::Storage => 20,
        BuildingType::MediumStorage => 100,
        BuildingType::CrewCabin => 20,
        BuildingType::Assembler => 40,
        BuildingType::Furnace => 30,
    }
}

/// The base power a building type generates (positive) or consumes (negative).
pub open spec fn spec_power_gen(t: BuildingType) -> int {
    match t {
        BuildingType::Power => 250,
        BuildingType::Battery => 0,
        BuildingType::CrewCabin => -100,
        BuildingType::Excavator => -10,
        BuildingType::Storage => 0,
        BuildingType::MediumStorage => 0,
        BuildingType::Assembler => -20,
        BuildingType::Furnace => -10,
    }
}

/// The energy a building type can store.
pub open spec fn spec_energy_capacity(t: BuildingType) -> Option<usize> {
    match t {
        BuildingType::Battery => Some(10000),
        _ => None,
    }
}

/// The number of crews a building type houses.
pub open spec fn spec_max_crews(t: BuildingType) -> usize {
    match t {
        BuildingType::CrewCabin => 4,
        _ => 0,
    }
}

impl BuildingType {
    /// The number of items this building type can hold.
    pub fn capacity(&self) -> (r: usize)
        ensures
            r == spec_capacity(*self),
    {
        match self {
            BuildingType::Power => 5,
            BuildingType::Battery => 0,
            BuildingType::Excavator => 10,
            BuildingType::Storage => 20,
            BuildingType::MediumStorage => 100,
            BuildingType::CrewCabin => 20,
            BuildingType::Assembler => 40,
            BuildingType::Furnace => 30,
        }
    }

    /// The width and height of this building type, in tiles.
    pub fn size(&self) -> (r: [usize; 2])
        ensures
            (r[0] as int, r[1] as int) == spec_size(*self),
    {
        match self {
            BuildingType::MediumStorage | BuildingType::CrewCabin | BuildingType::Assembler
            | BuildingType::Furnace => [2, 2],
            _ => [1, 1],
        }
    }

    /// The number of crews this building type houses.
    pub fn max_crews(&self) -> (r: usize)
        ensures
            r == spec_max_crews(*self),
    {
        match self {
            BuildingType::CrewCabin => 4,
            _ => 0,
        }
    }

    /// The base power this building type generates (positive) or consumes (negative).
    pub fn power_gen(&self) -> (r: isize)
        ensures
            r == spec_power_gen(*self),
    {
        match self {
            BuildingType::Power => 250,
            BuildingType::Battery => 0,
            BuildingType::CrewCabin => -100,
            BuildingType::Excavator => -10,
            BuildingType::Storage => 0,
            BuildingType::MediumStorage => 0,
            BuildingType::Assembler => -20,
            BuildingType::Furnace => -10,
        }
    }

    /// The energy this building type can store, if it stores any.
    pub fn energy_capacity(&self) -> (r: Option<usize>)
        ensures
            r == spec_energy_capacity(*self),
    {
        match self {
            BuildingType::Battery => Some(10000),
            _ => None,
        }
    }

    /// Whether this building type is a storage.
    pub fn is_storage(&self) -> (r: bool)
        ensures
            r == spec_is_storage(*self),
    {
        matches!(self, BuildingType::Storage | BuildingType::MediumStorage)
    }

    /// Whether buildings of this type can move.
    pub fn is_mobile(&self) -> (r: bool)
        ensures
            r == spec_is_mobile(*self),
    {
        matches!(self, BuildingType::Excavator)
    }

    /// The name of the building type.
    pub fn name(&self) -> (r: &'static str)
        ensures
            r@ == building_type_name(*self),
    {
        match self {
            BuildingType::Power => "Power",
            BuildingType::Battery => "Battery",
            BuildingType::Excavator => "Excavator",
            BuildingType::Storage => "Storage",
            BuildingType::MediumStorage => "MediumStorage",
            BuildingType::CrewCabin => "CrewCabin",
            BuildingType::Assembler => "Assembler",
            BuildingType::Furnace => "Furnace",
        }
    }
}

/// The name of a building type, as its variant is written.
pub open spec fn building_type_name(t: BuildingType) -> Seq<char> {
    match t {
        BuildingType::Power => "Power"@,
        BuildingType::Battery => "Battery"@,
        BuildingType::Excavator => "Excavator"@,
        BuildingType::Storage => "Storage"@,
        BuildingType::MediumStorage => "MediumStorage"@,
        BuildingType::CrewCabin => "CrewCabin"@,
        BuildingType::Assembler => "Assembler"@,
        BuildingType::Furnace => "Furnace"@,
    }
}

/// A recipe: the items consumed, the items produced and the ticks it takes.
#[derive(Debug)]
pub struct Recipe {
    pub inputs: CountableInventory,
    pub outputs: CountableInventory,
    /// Ticks the recipe takes at full power.
    pub time: u32,
}

impl Clone for Recipe {
    fn clone(&self) -> (r: Self)
        ensures
            r.inputs.entries() == self.inputs.entries(),
            r.inputs@ == self.inputs@,
            r.outputs.entries() == self.outputs.entries(),
            r.outputs@ == self.outputs@,
            r.time == self.time,
    {
        Recipe { inputs: self.inputs.clone(), outputs: self.outputs.clone(), time: self.time }
    }
}

/// A building on the map.
#[derive(Debug)]
pub struct Building {
    /// The top left tile.
    pub pos: Pos,
    pub type_: BuildingType,
    pub task: BuildingTask,
    pub inventory: Inventory,
    /// The number of crews attending this building.
    pub crews: usize,
    pub recipe: Option<Recipe>,
    /// Some buildings have a direction.
    pub direction: Option<Direction>,
    /// Some buildings store energy, like batteries.
    pub energy: Option<usize>,
    /// The transports on their way to this building.
    pub expected_transports: Vec<TransportId>,
}

/// Whether tile `p` lies in the rectangle of size `size` whose top left tile is `pos`.
pub open spec fn rect_contains(pos: Pos, size: (int, int), p: Pos) -> bool {
    &&& pos[0] <= p[0] < pos[0] + size.0
    &&& pos[1] <= p[1] < pos[1] + size.1
}

/// Whether two rectangles, given by top left tile and size, overlap.
pub open spec fn rects_overlap(a: Pos, a_size: (int, int), b: Pos, b_size: (int, int)) -> bool {
    &&& a[0] < b[0] + b_size.0
    &&& b[0] < a[0] + a_size.0
    &&& a[1] < b[1] + b_size.1
    &&& b[1] < a[1] + a_size.1
}

/// The power a building takes from the grid for its task.
pub open spec fn task_power(task: BuildingTask) -> int {
    match task {
        BuildingTask::Excavate(_, _) => 200,
        BuildingTask::Assemble { .. } => 300,
        _ => 0,
    }
}

/// A position of which a building of up to 2x2 tiles can be placed without overflowing a
/// coordinate.
pub open spec fn pos_in_range(p: Pos) -> bool {
    i32::MIN + 2 <= p[0] <= i32::MAX - 2 && i32::MIN + 2 <= p[1] <= i32::MAX - 2
}

impl Building {
    /// A new building of a type, with an empty inventory, its full crew and full energy.
    pub fn new(pos: Pos, type_: BuildingType) -> (r: Self)
        ensures
            r.pos == pos,
            r.type_ == type_,
            r.task is Idle,
            r.inventory.wf(),
            r.inventory@ == Map::<ItemType, usize>::empty(),
            r.crews == spec_max_crews(type_),
            r.recipe is None,
            r.direction is None,
            r.energy == spec_energy_capacity(type_),
            r.expected_transports@.len() == 0,
    {
        Building {
            pos,
            type_,
            task: BuildingTask::Idle,
            inventory: Inventory::new(),
            crews: type_.max_crews(),
            recipe: None,
            direction: None,
            energy: type_.energy_capacity(),
            expected_transports: Vec::new(),
        }
    }

    /// A new building of a type holding the given inventory.
    pub fn new_inventory(pos: Pos, type_: BuildingType, inventory: Inventory) -> (r: Self)
        ensures
            r.pos == pos,
            r.type_ == type_,
            r.task is Idle,
            r.inventory == inventory,
            r.crews == spec_max_crews(type_),
            r.recipe is None,
            r.direction is None,
            r.energy == spec_energy_capacity(type_),
            r.expected_transports@.len() == 0,
    {
        Building {
            pos,
            type_,
            task: BuildingTask::Idle,
            inventory,
            crews: type_.max_crews(),
            recipe: None,
            direction: None,
            energy: type_.energy_capacity(),
            expected_transports: Vec::new(),
        }
    }

    /// The power the building generates (positive) or consumes (negative): the base power of
    /// its type, less what its task takes.
    pub fn power_gen(&self) -> (r: isize)
        ensures
            r == spec_power_gen(self.type_) - task_power(self.task),
    {
        let base = self.type_.power_gen();
        let task_power: isize = match self.task {
            BuildingTask::Excavate(_, _) => 200,
            BuildingTask::Assemble { .. } => 300,
            _ => 0,
        };
        base - task_power
    }

    /// The power a battery demands to charge: what it lacks to its capacity, at most 500.
    pub fn power_charge(&self) -> (r: isize)
        requires
            self.type_ == BuildingType::Battery ==> (self.energy matches Some(e) ==> e <= 10000),
        ensures
            r == (if self.type_ == BuildingType::Battery {
                match self.energy {
                    Some(e) => if 10000 - e < 500 { (10000 - e) as isize } else { 500 },
                    None => 0,
                }
            } else {
                0
            }),
    {
        if matches!(self.type_, BuildingType::Battery) {
            let max = self.type_.energy_capacity();
            return match (self.energy, max) {
                (Some(e), Some(max)) => {
                    let lack = max - e;
                    (if lack < 500 { lack } else { 500 }) as isize
                },
                _ => 0,
            };
        }
        0
    }

    /// The power a battery can provide: its stored energy, at most 500.
    pub fn power_discharge(&self) -> (r: isize)
        ensures
            r == (if self.type_ == BuildingType::Battery {
                match self.energy {
                    Some(e) => if e < 500 { e as isize } else { 500 },
                    None => 0,
                }
            } else {
                0
            }),
    {
        if matches!(self.type_, BuildingType::Battery) {
            return match self.energy {
                Some(e) => (if e < 500 { e } else { 500 }) as isize,
                None => 0,
            };
        }
        0
    }

    /// The number of items in the inventory.
    pub fn inventory_size(&self) -> (r: usize)
        requires
            self.inventory.wf(),
            self.inventory.total() <= usize::MAX,
        ensures
            r == self.inventory.total(),
    {
        self.inventory.countable_size()
    }

    /// Whether the building covers tile `pos`.
    pub fn intersects(&self, pos: Pos) -> (r: bool)
        requires
            pos_in_range(self.pos),
        ensures
            r == rect_contains(self.pos, spec_size(self.type_), pos),
    {
        let size = self.type_.size();
        self.pos[0] <= pos[0] && pos[0] < self.pos[0] + size[0] as i32 && self.pos[1] <= pos[1]
            && pos[1] < self.pos[1] + size[1] as i32
    }

    /// Whether the building overlaps the rectangle of size `other_size` at `pos`.
    pub fn intersects_rect(&self, pos: Pos, other_size: [usize; 2]) -> (r: bool)
        requires
            pos_in_range(self.pos),
            other_size[0] <= 2,
            other_size[1] <= 2,
            pos_in_range(pos),
        ensures
            r == rects_overlap(
                self.pos,
                spec_size(self.type_),
                pos,
                (other_size[0] as int, other_size[1] as int),
            ),
    {
        let size = self.type_.size();
        self.pos[0] < pos[0] + other_size[0] as i32 && pos[0] < self.pos[0] + size[0] as i32
            && self.pos[1] < pos[1] + other_size[1] as i32 && pos[1] < self.pos[1] + size[1] as i32
    }

    /// Sets the recipe of an assembler; other buildings refuse.
    pub fn set_recipe(&mut self, recipe: Option<&Recipe>) -> (r: Result<(), String>)
        ensures
            r is Ok <==> old(self).type_ == BuildingType::Assembler,
            r is Ok ==> match recipe {
                Some(rc) => final(self).recipe matches Some(x) && x.inputs@ == rc.inputs@
                    && x.outputs@ == rc.outputs@ && x.inputs.entries() == rc.inputs.entries()
                    && x.outputs.entries() == rc.outputs.entries() && x.time == rc.time,
                None => final(self).recipe is None,
            },
            r is Ok ==> final(self).pos == old(self).pos && final(self).type_ == old(self).type_ && final(self).task
                == old(self).task && final(self).inventory == old(self).inventory && final(self).crews == old(self).crews
                && final(self).direction == old(self).direction && final(self).energy == old(self).energy
                && final(self).expected_transports == old(self).expected_transports,
            r is Err ==> *final(self) == *old(self),
    {
        if !matches!(self.type_, BuildingType::Assembler) {
            return Err(String::from_str("The building is not an assembler"));
        }
        self.recipe = match recipe {
            Some(rc) => Some(rc.clone()),
            None => None,
        };
        Ok(())
    }
}

} // verus!
