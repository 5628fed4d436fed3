//! Item types.
use vstd::prelude::*;

use crate::building::Recipe;
use crate::construction::{ingredients_of, inventory_of};

verus! {

/// A kind of item that buildings and crews carry around.
#[derive(Clone, Copy, Debug, PartialEq, Eq, PartialOrd, Ord, Hash, Structural)]
pub enum ItemType {
    /// Freshly dug soil from the asteroid body. Hardly useful unless refined.
    RawOre,
    IronIngot,
    CopperIngot,
    Cilicate,
    Gear,
    Wire,
    Circuit,
    PowerGridComponent,
    ConveyorComponent,
    AssemblerComponent,
}

/// The position of an item type in the declaration order, which is the order items are
/// sorted by.
pub open spec fn item_index(t: ItemType) -> nat {
    match t {
        ItemType::RawOre => 0,
        ItemType::IronIngot => 1,
        ItemType::CopperIngot => 2,
        ItemType::Cilicate => 3,
        ItemType::Gear => 4,
        ItemType::Wire => 5,
        ItemType::Circuit => 6,
        ItemType::PowerGridComponent => 7,
        ItemType::ConveyorComponent => 8,
        ItemType::AssemblerComponent => 9,
    }
}

/// Different item types have different indices.
pub proof fn lemma_item_index_injective(a: ItemType, b: ItemType)
    ensures
        item_index(a) == item_index(b) <==> a == b,
{
}

impl ItemType {
    /// The position of this item type in the declaration order.
    pub fn index(&self) -> (r: u8)
        ensures
            r == item_index(*self),
    {
        match self {
            ItemType::RawOre => 0,
            ItemType::IronIngot => 1,
            ItemType::CopperIngot => 2,
            ItemType::Cilicate => 3,
            ItemType::Gear => 4,
            ItemType::Wire => 5,
            ItemType::Circuit => 6,
            ItemType::PowerGridComponent => 7,
            ItemType::ConveyorComponent => 8,
            ItemType::AssemblerComponent => 9,
        }
    }
}

/// The name of an item type, as `Debug` writes it.
pub open spec fn item_name(t: ItemType) -> Seq<char> {
    match t {
        ItemType::RawOre => "RawOre"@,
        ItemType::IronIngot => "IronIngot"@,
        ItemType::CopperIngot => "CopperIngot"@,
        ItemType::Cilicate => "Cilicate"@,
        ItemType::Gear => "Gear"@,
        ItemType::Wire => "Wire"@,
        ItemType::Circuit => "Circuit"@,
        ItemType::PowerGridComponent => "PowerGridComponent"@,
        ItemType::ConveyorComponent => "ConveyorComponent"@,
        ItemType::AssemblerComponent => "AssemblerComponent"@,
    }
}

impl ItemType {
    /// The name of this item type, as `Debug` writes it.
    pub fn name(&self) -> (r: &'static str)
        ensures
            r@ == item_name(*self),
    {
        match self {
            ItemType::RawOre => "RawOre",
            ItemType::IronIngot => "IronIngot",
            ItemType::CopperIngot => "CopperIngot",
            ItemType::Cilicate => "Cilicate",
            ItemType::Gear => "Gear",
            ItemType::Wire => "Wire",
            ItemType::Circuit => "Circuit",
            ItemType::PowerGridComponent => "PowerGridComponent",
            ItemType::ConveyorComponent => "ConveyorComponent",
            ItemType::AssemblerComponent => "AssemblerComponent",
        }
    }
}

/// The assembler recipes, in order: inputs, outputs and ticks of work.
pub open spec fn recipe_list() -> Seq<(Seq<(ItemType, usize)>, Seq<(ItemType, usize)>, u32)> {
    seq![
        (seq![(ItemType::Wire, 1usize), (ItemType::IronIngot, 1usize)], seq![(ItemType::PowerGridComponent, 1usize)], 100u32),
        (seq![(ItemType::IronIngot, 1usize)], seq![(ItemType::ConveyorComponent, 1usize)], 120u32),
        (seq![(ItemType::IronIngot, 1usize)], seq![(ItemType::Gear, 2usize)], 70u32),
        (seq![(ItemType::CopperIngot, 1usize)], seq![(ItemType::Wire, 2usize)], 50u32),
        (seq![(ItemType::Wire, 1usize), (ItemType::IronIngot, 1usize)], seq![(ItemType::Circuit, 1usize)], 120u32),
        (seq![(ItemType::Gear, 2usize), (ItemType::Circuit, 2usize)], seq![(ItemType::AssemblerComponent, 1usize)], 200u32),
    ]
}

/// The recipe at `i` of the list is the one a `Recipe` stands for.
pub open spec fn recipe_is(r: Recipe, i: int) -> bool {
    &&& r.inputs.wf()
    &&& r.outputs.wf()
    &&& r.inputs@ == ingredients_of(recipe_list()[i].0)
    &&& r.outputs@ == ingredients_of(recipe_list()[i].1)
    &&& r.time == recipe_list()[i].2
}

fn recipe_of(inputs: &[(ItemType, usize)], outputs: &[(ItemType, usize)], time: u32) -> (r: Recipe)
    ensures
        r.inputs.wf(),
        r.outputs.wf(),
        r.inputs@ == ingredients_of(inputs@),
        r.outputs@ == ingredients_of(outputs@),
        r.time == time,
{
    Recipe { inputs: inventory_of(inputs), outputs: inventory_of(outputs), time }
}

/// The assembler recipes, in order.
pub fn recipes() -> (r: Vec<Recipe>)
    ensures
        r@.len() == recipe_list().len(),
        forall|i: int| 0 <= i < r@.len() ==> recipe_is(#[trigger] r@[i], i),
{
    let mut v: Vec<Recipe> = Vec::new();
    v.push(recipe_of(&[(ItemType::Wire, 1), (ItemType::IronIngot, 1)], &[(ItemType::PowerGridComponent, 1)], 100));
    v.push(recipe_of(&[(ItemType::IronIngot, 1)], &[(ItemType::ConveyorComponent, 1)], 120));
    v.push(recipe_of(&[(ItemType::IronIngot, 1)], &[(ItemType::Gear, 2)], 70));
    v.push(recipe_of(&[(ItemType::CopperIngot, 1)], &[(ItemType::Wire, 2)], 50));
    v.push(recipe_of(&[(ItemType::Wire, 1), (ItemType::IronIngot, 1)], &[(ItemType::Circuit, 1)], 120));
    v.push(recipe_of(&[(ItemType::Gear, 2), (ItemType::Circuit, 2)], &[(ItemType::AssemblerComponent, 1)], 200));
    proof {
        assert forall|i: int| 0 <= i < v@.len() implies recipe_is(#[trigger] v@[i], i) by {
            reveal_with_fuel(ingredients_of, 3);
        }
    }
    v
}

} // verus!
