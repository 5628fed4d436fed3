//! What a building does in one tick: it pushes its products out, pulls the inputs of its
//! recipe in and starts assembling, and, depending on its type, excavates, smelts or sends
//! crews out.
use vstd::prelude::*;

use crate::building::{pos_in_range, spec_size, Building, BuildingType};
use crate::game::{recipes_ok, site_pos_ok, AsteroidColoniesGame};
use crate::entity::{lemma_insert_keeps_insertable, EntryPayload, EntityId, count_occupied, insert_index, lemma_insert_len, lookup, slots_after_insert, slots_can_insert, EntityEntry, EntitySet};
use crate::construction::count_of;
use crate::crew::{expected_crew_pickup_any, sites_ok, count_tasks, crew_path_ok, crew_reachable, is_pickup_any, BuildingId, Crew, CrewTask, GlobalTaskId};
use crate::crew_cabin::{any_crew_builds_at, crew_builds_at, deliver_draws, fetch_crew, may_build, room_covers, sent_crew, site_extras, site_requirements};
use crate::construction::Construction;
use crate::entity::occupied_values;
use crate::task::GlobalTask;
use crate::tile::TileState;
use crate::Pos;
use crate::inventory::{lemma_entries_bound, lemma_entries_of_view, lemma_single_entry, CountableInventory, Inventory};
use crate::task::{whole_float_bits, whole_to_float_bits, BuildingTask, FloatBits, RAW_ORE_SMELT_TIME};
use crate::items::{item_index, ItemType};
use crate::push_pull::{
    buildings_ok, first_output, inv_taken, occupant, pull_inputs, pull_lack, pull_taken, pulled_from_holder,
    push_outputs, same_but_expected, same_but_inventory, sent_to, slots_same_but_inventories, storage_with_room,
};
use crate::tile::Tiles;
use crate::transport::{delivery_total, Transport};

verus! {

/// The entry at `k` is the first, in item order, with a positive count of an item that
/// `pred` accepts.
pub open spec fn first_accepted(ents: Seq<(ItemType, usize)>, pred: spec_fn(ItemType) -> bool, k: int) -> bool {
    &&& 0 <= k < ents.len()
    &&& ents[k].1 > 0
    &&& pred(ents[k].0)
    &&& forall|j: int| 0 <= j < k ==> ents[j].1 == 0 || !pred(#[trigger] ents[j].0)
}

/// One push of the outputs of building `b0` that `pred` accepts (it becomes `b1`; the
/// transports go from `ts0` to `ts1` and the other buildings from `bs0` to `bs1`): nothing
/// changes, or the first storage in slot order with room that a conveyor path leads to
/// receives one item of the first accepted type in item order that the building has.
pub open spec fn push_step(
    tiles: Tiles,
    b0: Building,
    b1: Building,
    ts0: Seq<EntityEntry<Transport>>,
    ts1: Seq<EntityEntry<Transport>>,
    bs0: Seq<EntityEntry<Building>>,
    bs1: Seq<EntityEntry<Building>>,
    pred: spec_fn(ItemType) -> bool,
) -> bool {
    &&& same_but_inventory(b0, b1)
    &&& b1.inventory.wf()
    &&& buildings_ok(bs1)
    &&& ({
        ||| {
            &&& ts1 == ts0
            &&& bs1 == bs0
            &&& b1.inventory == b0.inventory
        }
        ||| exists|j: int, k: int|
            #![trigger first_accepted(b0.inventory.spec_countable().entries(), pred, k), bs0[j]]
            {
                &&& first_accepted(b0.inventory.spec_countable().entries(), pred, k)
                &&& 0 <= j < bs0.len()
                &&& bs0[j].payload is Occupied
                &&& storage_with_room(occupant(bs0[j]), ts0)
                &&& sent_to(
                    &tiles,
                    ts0,
                    ts1,
                    bs0,
                    bs1,
                    b0.inventory@,
                    b1.inventory@,
                    b0.pos,
                    spec_size(b0.type_),
                    j,
                    b0.inventory.spec_countable().entries()[k].0,
                    true,
                )
            }
    })
}

/// The other buildings keep their slots, positions, types and recipes; only what they hold
/// and what they expect may change.
pub open spec fn others_kept(bs0: Seq<EntityEntry<Building>>, bs1: Seq<EntityEntry<Building>>) -> bool {
    &&& bs1.len() == bs0.len()
    &&& forall|i: int|
        0 <= i < bs0.len() ==> {
            &&& (#[trigger] bs1[i]).gen == bs0[i].gen
            &&& (bs1[i].payload is Occupied <==> bs0[i].payload is Occupied)
            &&& (bs0[i].payload is Free ==> bs1[i] == bs0[i])
            &&& (bs0[i].payload is Occupied ==> {
                &&& occupant(bs1[i]).pos == occupant(bs0[i]).pos
                &&& occupant(bs1[i]).type_ == occupant(bs0[i]).type_
                &&& occupant(bs1[i]).recipe == occupant(bs0[i]).recipe
            })
        }
}

proof fn lemma_others_kept_trans(a: Seq<EntityEntry<Building>>, b: Seq<EntityEntry<Building>>, c: Seq<EntityEntry<Building>>)
    requires
        others_kept(a, b),
        others_kept(b, c),
    ensures
        others_kept(a, c),
{
    assert forall|i: int| 0 <= i < a.len() implies {
        &&& (#[trigger] c[i]).gen == a[i].gen
        &&& (c[i].payload is Occupied <==> a[i].payload is Occupied)
        &&& (a[i].payload is Free ==> c[i] == a[i])
        &&& (a[i].payload is Occupied ==> {
            &&& occupant(c[i]).pos == occupant(a[i]).pos
            &&& occupant(c[i]).type_ == occupant(a[i]).type_
            &&& occupant(c[i]).recipe == occupant(a[i]).recipe
        })
    } by {
        assert(b[i].gen == a[i].gen);
        assert(c[i].gen == b[i].gen);
    }
}

/// A push keeps the other buildings.
proof fn lemma_push_keeps_others(
    tiles: Tiles,
    b0: Building,
    b1: Building,
    ts0: Seq<EntityEntry<Transport>>,
    ts1: Seq<EntityEntry<Transport>>,
    bs0: Seq<EntityEntry<Building>>,
    bs1: Seq<EntityEntry<Building>>,
    pred: spec_fn(ItemType) -> bool,
)
    requires
        push_step(tiles, b0, b1, ts0, ts1, bs0, bs1, pred),
    ensures
        others_kept(bs0, bs1),
{
    if bs1 != bs0 {
        let (j, k) = choose|j: int, k: int|
            #![trigger first_accepted(b0.inventory.spec_countable().entries(), pred, k), bs0[j]]
            {
                &&& first_accepted(b0.inventory.spec_countable().entries(), pred, k)
                &&& 0 <= j < bs0.len()
                &&& bs0[j].payload is Occupied
                &&& storage_with_room(occupant(bs0[j]), ts0)
                &&& sent_to(
                    &tiles,
                    ts0,
                    ts1,
                    bs0,
                    bs1,
                    b0.inventory@,
                    b1.inventory@,
                    b0.pos,
                    spec_size(b0.type_),
                    j,
                    b0.inventory.spec_countable().entries()[k].0,
                    true,
                )
            };
        assert forall|i: int| 0 <= i < bs0.len() implies {
            &&& (#[trigger] bs1[i]).gen == bs0[i].gen
            &&& (bs1[i].payload is Occupied <==> bs0[i].payload is Occupied)
            &&& (bs0[i].payload is Free ==> bs1[i] == bs0[i])
            &&& (bs0[i].payload is Occupied ==> {
                &&& occupant(bs1[i]).pos == occupant(bs0[i]).pos
                &&& occupant(bs1[i]).type_ == occupant(bs0[i]).type_
                &&& occupant(bs1[i]).recipe == occupant(bs0[i]).recipe
            })
        } by {
            if i != j {
                assert(bs1[i] == bs0[i]);
            }
        }
    }
}

/// A pull keeps the other buildings.
proof fn lemma_pull_keeps_others(bs0: Seq<EntityEntry<Building>>, bs1: Seq<EntityEntry<Building>>)
    requires
        slots_same_but_inventories(bs0, bs1),
    ensures
        others_kept(bs0, bs1),
{
    assert forall|i: int| 0 <= i < bs0.len() implies {
        &&& (#[trigger] bs1[i]).gen == bs0[i].gen
        &&& (bs1[i].payload is Occupied <==> bs0[i].payload is Occupied)
        &&& (bs0[i].payload is Free ==> bs1[i] == bs0[i])
        &&& (bs0[i].payload is Occupied ==> {
            &&& occupant(bs1[i]).pos == occupant(bs0[i]).pos
            &&& occupant(bs1[i]).type_ == occupant(bs0[i]).type_
            &&& occupant(bs1[i]).recipe == occupant(bs0[i]).recipe
        })
    } by {
        assert(bs1[i].gen == bs0[i].gen);
    }
}

/// The building keeps its position, type and recipe, and a well formed inventory.
pub open spec fn self_kept(b0: Building, b1: Building) -> bool {
    &&& b1.pos == b0.pos
    &&& b1.type_ == b0.type_
    &&& b1.recipe == b0.recipe
    &&& b1.inventory.wf()
}

/// Pushes out one output of the building that `is_output` accepts; `pred` says what it
/// accepts.
fn push_from<F: Fn(ItemType) -> bool>(
    b: &mut Building,
    tiles: &Tiles,
    transports: &mut EntitySet<Transport>,
    buildings: &mut EntitySet<Building>,
    is_output: &F,
    Ghost(pred): Ghost<spec_fn(ItemType) -> bool>,
)
    requires
        tiles.wf(),
        old(transports).can_insert(),
        old(b).inventory.wf(),
        buildings_ok(old(buildings).slots()),
        site_pos_ok(old(b).pos),
        forall|t: ItemType| call_requires(*is_output, (t,)),
        forall|t: ItemType, r: bool| call_ensures(*is_output, (t,), r) ==> r == pred(t),
    ensures
        push_step(
            *tiles,
            *old(b),
            *final(b),
            old(transports).slots(),
            final(transports).slots(),
            old(buildings).slots(),
            final(buildings).slots(),
            pred,
        ),
        others_kept(old(buildings).slots(), final(buildings).slots()),
        final(transports).slots().len() <= old(transports).slots().len() + 1,
        old(transports).slots().len() + 1 < u32::MAX ==> final(transports).can_insert(),
        final(buildings).free_head() == old(buildings).free_head(),
        final(transports).free_head() == old(transports).free_head(),
{
    let size = b.type_.size();
    let ghost ents = b.inventory.spec_countable().entries();
    assert(size[0] <= 2 && size[1] <= 2);
    push_outputs(tiles, transports, b.pos, size, &mut b.inventory, buildings, is_output);
    proof {
        assert forall|k: int| #[trigger] first_output(ents, *is_output, k) implies first_accepted(ents, pred, k) by {
            assert forall|j: int| 0 <= j < k implies ents[j].1 == 0 || !pred(#[trigger] ents[j].0) by {
                if ents[j].1 != 0 {
                    assert(call_ensures(*is_output, (ents[j].0,), false));
                }
            }
        }
    }
    proof {
        let bs0 = old(buildings).slots();
        let ts0 = old(transports).slots();
        assert(push_step(*tiles, *old(b), *b, ts0, transports.slots(), bs0, buildings.slots(), pred));
        lemma_push_keeps_others(*tiles, *old(b), *b, ts0, transports.slots(), bs0, buildings.slots(), pred);
        if ts0.len() + 1 < u32::MAX {
            lemma_push_keeps_insertable(*tiles, *old(b), *b, ts0, transports.slots(), bs0, buildings.slots(), pred);
        } else if transports.slots() != ts0 {
            lemma_push_len(*tiles, *old(b), *b, ts0, transports.slots(), bs0, buildings.slots(), pred);
        }
    }
}

/// One pull of the inputs of building `b0` (it becomes `b1`): each input it lacks, counting
/// what it holds and has coming, is pulled from the first building in slot order that has
/// some, by a transport that the building then expects; `pull_inputs` says it in full.
pub open spec fn pull_step(
    tiles: Tiles,
    inputs: Map<ItemType, usize>,
    n_inputs: nat,
    b0: Building,
    b1: Building,
    ts0: Seq<EntityEntry<Transport>>,
    ts1: Seq<EntityEntry<Transport>>,
    bs0: Seq<EntityEntry<Building>>,
    bs1: Seq<EntityEntry<Building>>,
) -> bool {
    let ids0 = b0.expected_transports@;
    let ids1 = b1.expected_transports@;
    let size = spec_size(b0.type_);
    &&& same_but_expected(b0, b1)
    &&& buildings_ok(bs1)
    &&& slots_same_but_inventories(bs0, bs1)
    &&& ids1.len() >= ids0.len()
    &&& ids1.take(ids0.len() as int) == ids0
    &&& forall|k: int|
        ids0.len() <= k < ids1.len() ==> {
            let t = lookup(ts1, #[trigger] ids1[k])->Some_0;
            let lack = pull_lack(inputs, b0.inventory@, ts0, ids0, t.item);
            &&& lookup(ts1, ids1[k]) is Some
            &&& inputs.contains_key(t.item)
            &&& lack > 0
            &&& pulled_from_holder(&tiles, bs0, lack, b0.pos, size, t)
        }
    &&& forall|k1: int, k2: int|
        ids0.len() <= k1 < k2 < ids1.len() ==> lookup(ts1, #[trigger] ids1[k1])->Some_0.item != lookup(
            ts1,
            #[trigger] ids1[k2],
        )->Some_0.item
    &&& forall|id: crate::transport::TransportId|
        lookup(ts0, id) is Some ==> #[trigger] lookup(ts1, id) == lookup(ts0, id)
    &&& count_occupied(ts1) == count_occupied(ts0) + ids1.len() - ids0.len()
    &&& ids1.len() - ids0.len() <= n_inputs
    &&& ts1.len() <= ts0.len() + ids1.len() - ids0.len()
    &&& forall|i: int| 0 <= i < ts1.len() && #[trigger] ts1[i].payload is Free ==> i < ts0.len() && ts1[i] == ts0[i]
    &&& forall|i: int, ty: ItemType|
        0 <= i < bs0.len() && bs0[i].payload is Occupied ==> #[trigger] inv_taken(
            occupant(bs0[i]).inventory@,
            occupant(bs1[i]).inventory@,
            ty,
            pull_taken(bs0, ty, delivery_total(ts1, ids1.skip(ids0.len() as int), ty) as int, i, ty),
        )
}

/// Pulls the inputs the building lacks.
fn pull_into(
    b: &mut Building,
    inputs: &CountableInventory,
    tiles: &Tiles,
    transports: &mut EntitySet<Transport>,
    buildings: &mut EntitySet<Building>,
)
    requires
        inputs.wf(),
        tiles.wf(),
        old(b).inventory.wf(),
        buildings_ok(old(buildings).slots()),
        old(transports).can_insert(),
        old(transports).slots().len() + inputs.entries().len() < u32::MAX,
    ensures
        pull_step(
            *tiles,
            inputs@,
            inputs.entries().len(),
            *old(b),
            *final(b),
            old(transports).slots(),
            final(transports).slots(),
            old(buildings).slots(),
            final(buildings).slots(),
        ),
        others_kept(old(buildings).slots(), final(buildings).slots()),
        final(transports).slots().len() <= old(transports).slots().len() + inputs.entries().len(),
        final(transports).can_insert(),
        final(buildings).free_head() == old(buildings).free_head(),
        final(transports).free_head() == old(transports).free_head(),
{
    let size = b.type_.size();
    pull_inputs(inputs, tiles, transports, &mut b.expected_transports, b.pos, size, &mut b.inventory, buildings);
    proof {
        lemma_pull_keeps_others(old(buildings).slots(), buildings.slots());
        lemma_pull_keeps_insertable(*tiles, inputs@, inputs.entries().len(), *old(b), *b, old(transports).slots(),
            transports.slots(), old(buildings).slots(), buildings.slots());
    }
}

/// What a tick of a building acts on: the building, the transports, the other buildings and
/// the crews, by their slots.
pub type TickState = (Building, Seq<EntityEntry<Transport>>, Seq<EntityEntry<Building>>, Seq<EntityEntry<Crew>>);

/// The test for an item among the outputs `outs`.
pub open spec fn among(outs: Map<ItemType, usize>) -> spec_fn(ItemType) -> bool {
    |t: ItemType| outs.contains_key(t)
}

/// A building with a recipe pushes out one of the recipe's outputs.
pub open spec fn recipe_push(tiles: Tiles, s0: TickState, s1: TickState) -> bool {
    match s0.0.recipe {
        Some(rc) => s1.3 == s0.3 && push_step(tiles, s0.0, s1.0, s0.1, s1.1, s0.2, s1.2, among(rc.outputs@)),
        None => s1 == s0,
    }
}

/// The inventory holds every input in its amount.
pub open spec fn has_inputs(inv: Map<ItemType, usize>, inputs: Map<ItemType, usize>) -> bool {
    forall|t: ItemType| #[trigger] inputs.contains_key(t) ==> inputs[t] <= count_of(inv, t)
}

/// `inv1` is `inv0` with the inputs taken away, entries of 0 kept.
pub open spec fn inputs_taken(inv0: Map<ItemType, usize>, inv1: Map<ItemType, usize>, inputs: Map<ItemType, usize>) -> bool {
    &&& inv1.dom() == inv0.dom()
    &&& forall|t: ItemType| #[trigger] inv0.contains_key(t) ==> inv1[t] == inv0[t] - count_of(inputs, t)
}

/// The building `b` with the inventory and task of `from`.
pub open spec fn with_inventory_task(b: Building, from: Building) -> Building {
    Building { inventory: from.inventory, task: from.task, ..b }
}

/// An idle building with a recipe pulls the inputs it lacks; when it then holds all of them,
/// it takes them and starts assembling for the recipe's time, and the tick goes on;
/// otherwise the tick stops. Any other building is left alone and the tick goes on.
pub open spec fn recipe_start(tiles: Tiles, s1: TickState, s2: TickState, go_on: bool) -> bool {
    if s1.0.task is Idle && s1.0.recipe is Some {
        let rc = s1.0.recipe->Some_0;
        let inv1 = s1.0.inventory@;
        &&& s2.3 == s1.3
        &&& pull_step(
            tiles,
            rc.inputs@,
            rc.inputs.entries().len(),
            s1.0,
            with_inventory_task(s2.0, s1.0),
            s1.1,
            s2.1,
            s1.2,
            s2.2,
        )
        &&& s2.0.inventory.wf()
        &&& if has_inputs(inv1, rc.inputs@) {
            &&& go_on
            &&& inputs_taken(inv1, s2.0.inventory@, rc.inputs@)
            &&& s2.0.task matches BuildingTask::Assemble { t, max_t, outputs } && {
                &&& t == FloatBits(whole_float_bits(rc.time as nat) as u64)
                &&& max_t == t
                &&& outputs.entries() == rc.outputs.entries()
                &&& outputs@ == rc.outputs@
            }
        } else {
            &&& !go_on
            &&& s2.0.inventory == s1.0.inventory
            &&& s2.0.task == s1.0.task
        }
    } else {
        go_on && s2 == s1
    }
}


/// Whether the inventory holds every input in its amount.
fn holds_inputs(inv: &Inventory, inputs: &CountableInventory) -> (r: bool)
    requires
        inv.wf(),
        inputs.wf(),
    ensures
        r == has_inputs(inv@, inputs@),
{
    let ents = inputs.iter();
    proof {
        lemma_entries_of_view(*inputs);
    }
    let mut i: usize = 0;
    while i < ents.len()
        invariant
            i <= ents@.len(),
            ents@ == inputs.entries(),
            inv.wf(),
            forall|k: int| 0 <= k < ents@.len() ==> #[trigger] inputs@[ents@[k].0] == ents@[k].1,
            forall|t: ItemType| #[trigger]
                inputs@.contains_key(t) <==> exists|k: int| 0 <= k < ents@.len() && ents@[k].0 == t,
            forall|k: int| 0 <= k < i ==> ents@[k].1 <= #[trigger] count_of(inv@, ents@[k].0),
        decreases ents@.len() - i,
    {
        let (ty, n) = ents[i];
        if inv.get(&ty) < n {
            proof {
                assert(inputs@.contains_key(ty));
            }
            return false;
        }
        i = i + 1;
    }
    proof {
        assert forall|t: ItemType| #[trigger] inputs@.contains_key(t) implies inputs@[t] <= count_of(inv@, t) by {
            let k = choose|k: int| 0 <= k < ents@.len() && ents@[k].0 == t;
        }
    }
    true
}

/// Takes the inputs from an inventory that holds them all.
fn take_inputs(inv: &mut Inventory, inputs: &CountableInventory)
    requires
        old(inv).wf(),
        inputs.wf(),
        has_inputs(old(inv)@, inputs@),
    ensures
        final(inv).wf(),
        inputs_taken(old(inv)@, final(inv)@, inputs@),
{
    let ghost inv1 = inv@;
    let ents = inputs.iter();
    proof {
        lemma_entries_of_view(*inputs);
        assert forall|k1: int, k2: int| 0 <= k1 < k2 < ents@.len() implies #[trigger] ents@[k1].0 != #[trigger] ents@[k2].0 by {
            assert(item_index(ents@[k1].0) < item_index(ents@[k2].0));
        }
    }
    let mut j: usize = 0;
    while j < ents.len()
        invariant
            j <= ents@.len(),
            ents@ == inputs.entries(),
            inv.wf(),
            inv1 == old(inv)@,
            has_inputs(inv1, inputs@),
            forall|k: int| 0 <= k < ents@.len() ==> #[trigger] inputs@[ents@[k].0] == ents@[k].1,
            forall|t: ItemType| #[trigger]
                inputs@.contains_key(t) <==> exists|k: int| 0 <= k < ents@.len() && ents@[k].0 == t,
            forall|k1: int, k2: int| 0 <= k1 < k2 < ents@.len() ==> #[trigger] ents@[k1].0 != #[trigger] ents@[k2].0,
            inv@.dom() == inv1.dom(),
            forall|t: ItemType| #[trigger] inv1.contains_key(t) ==> inv@[t] == inv1[t] - (
                if exists|k: int| 0 <= k < j && ents@[k].0 == t { count_of(inputs@, t) } else { 0 }),
        decreases ents@.len() - j,
    {
        let (ty, n) = ents[j];
        match inv.get_mut(&ty) {
            Some(entry) => {
                if n <= *entry {
                    *entry = *entry - n;
                }
            },
            None => {},
        }
        proof {
            assert forall|t: ItemType| #[trigger] inv1.contains_key(t) implies inv@[t] == inv1[t] - (
                if exists|k: int| 0 <= k < j + 1 && ents@[k].0 == t { count_of(inputs@, t) } else { 0 }) by {
                if t == ty {
                    assert(ents@[j as int].0 == t);
                    assert(!exists|k: int| 0 <= k < j && ents@[k].0 == t);
                    assert(inputs@.contains_key(t));
                    assert(inputs@[t] <= count_of(inv1, t));
                } else {
                    if exists|k: int| 0 <= k < j + 1 && ents@[k].0 == t {
                        let k = choose|k: int| 0 <= k < j + 1 && ents@[k].0 == t;
                        assert(k < j);
                    }
                }
            }
        }
        j = j + 1;
    }
    proof {
        assert forall|t: ItemType| #[trigger] inv1.contains_key(t) implies inv@[t] == inv1[t] - count_of(inputs@, t) by {
            if inputs@.contains_key(t) {
                let k = choose|k: int| 0 <= k < ents@.len() && ents@[k].0 == t;
            }
        }
    }
}

impl Building {
    /// Pushes out one of the outputs of the recipe, if the building has a recipe.
    fn push_recipe_outputs(
        &mut self,
        tiles: &Tiles,
        transports: &mut EntitySet<Transport>,
        buildings: &mut EntitySet<Building>,
    )
        requires
            tiles.wf(),
            old(transports).can_insert(),
            old(self).inventory.wf(),
            old(self).recipe matches Some(rc) ==> rc.outputs.wf(),
            buildings_ok(old(buildings).slots()),
            site_pos_ok(old(self).pos),
        ensures
            recipe_push(
                *tiles,
                (*old(self), old(transports).slots(), old(buildings).slots(), Seq::empty()),
                (*final(self), final(transports).slots(), final(buildings).slots(), Seq::empty()),
            ),
            final(buildings).free_head() == old(buildings).free_head(),
            final(transports).free_head() == old(transports).free_head(),
            self_kept(*old(self), *final(self)),
            others_kept(old(buildings).slots(), final(buildings).slots()),
            buildings_ok(final(buildings).slots()),
            final(transports).slots().len() <= old(transports).slots().len() + 1,
            old(transports).slots().len() + 1 < u32::MAX ==> final(transports).can_insert(),
    {
        let outs = match &self.recipe {
            Some(rc) => rc.outputs.clone(),
            None => {
                return;
            },
        };
        let ghost pred = among(outs@);
        let is_output = |t: ItemType| -> (b: bool)
            requires
                outs.wf(),
            ensures
                b == outs@.contains_key(t),
            { outs.get(&t).is_some() };
        push_from(self, tiles, transports, buildings, &is_output, Ghost(pred));
    }

    /// Starts assembling, if the building is idle and has a recipe: it pulls the inputs it
    /// lacks and, when it holds all of them, takes them. Returns whether the tick goes on.
    fn start_recipe(
        &mut self,
        tiles: &Tiles,
        transports: &mut EntitySet<Transport>,
        buildings: &mut EntitySet<Building>,
    ) -> (go_on: bool)
        requires
            tiles.wf(),
            old(transports).can_insert(),
            old(transports).slots().len() + 10 < u32::MAX,
            old(self).inventory.wf(),
            old(self).recipe matches Some(rc) ==> rc.inputs.wf() && rc.outputs.wf(),
            buildings_ok(old(buildings).slots()),
        ensures
            recipe_start(
                *tiles,
                (*old(self), old(transports).slots(), old(buildings).slots(), Seq::empty()),
                (*final(self), final(transports).slots(), final(buildings).slots(), Seq::empty()),
                go_on,
            ),
            final(self).recipe == old(self).recipe,
            final(buildings).free_head() == old(buildings).free_head(),
            final(transports).free_head() == old(transports).free_head(),
            self_kept(*old(self), *final(self)),
            others_kept(old(buildings).slots(), final(buildings).slots()),
            buildings_ok(final(buildings).slots()),
            final(transports).slots().len() <= old(transports).slots().len() + 10,
            final(transports).can_insert(),
    {
        if !matches!(self.task, BuildingTask::Idle) {
            return true;
        }
        let (inputs, outputs, time) = match &self.recipe {
            Some(rc) => (rc.inputs.clone(), rc.outputs.clone(), rc.time),
            None => {
                return true;
            },
        };
        proof {
            lemma_entries_bound(inputs);
        }
        pull_into(self, &inputs, tiles, transports, buildings);
        if !holds_inputs(&self.inventory, &inputs) {
            return false;
        }
        take_inputs(&mut self.inventory, &inputs);
        let t = FloatBits(whole_to_float_bits(time));
        self.task = BuildingTask::Assemble { t, max_t: t, outputs };
        true
    }
}


/// A push keeps the transports able to take an insertion, and adds at most one slot.
proof fn lemma_push_keeps_insertable(
    tiles: Tiles,
    b0: Building,
    b1: Building,
    ts0: Seq<EntityEntry<Transport>>,
    ts1: Seq<EntityEntry<Transport>>,
    bs0: Seq<EntityEntry<Building>>,
    bs1: Seq<EntityEntry<Building>>,
    pred: spec_fn(ItemType) -> bool,
)
    requires
        push_step(tiles, b0, b1, ts0, ts1, bs0, bs1, pred),
        slots_can_insert(ts0),
        ts0.len() + 1 < u32::MAX,
    ensures
        slots_can_insert(ts1),
        ts1.len() <= ts0.len() + 1,
{
    if ts1 != ts0 {
        let (j, k) = choose|j: int, k: int|
            #![trigger first_accepted(b0.inventory.spec_countable().entries(), pred, k), bs0[j]]
            {
                &&& first_accepted(b0.inventory.spec_countable().entries(), pred, k)
                &&& 0 <= j < bs0.len()
                &&& bs0[j].payload is Occupied
                &&& storage_with_room(occupant(bs0[j]), ts0)
                &&& sent_to(
                    &tiles,
                    ts0,
                    ts1,
                    bs0,
                    bs1,
                    b0.inventory@,
                    b1.inventory@,
                    b0.pos,
                    spec_size(b0.type_),
                    j,
                    b0.inventory.spec_countable().entries()[k].0,
                    true,
                )
            };
        let (t, id) = choose|t: Transport, id: crate::transport::TransportId|
            #![trigger slots_after_insert(ts0, t), id.index()]
            id.index() == insert_index(ts0) && ts1 == slots_after_insert(ts0, t);
        lemma_insert_keeps_insertable(ts0, t);
    }
}

/// A push adds at most one slot.
proof fn lemma_push_len(
    tiles: Tiles,
    b0: Building,
    b1: Building,
    ts0: Seq<EntityEntry<Transport>>,
    ts1: Seq<EntityEntry<Transport>>,
    bs0: Seq<EntityEntry<Building>>,
    bs1: Seq<EntityEntry<Building>>,
    pred: spec_fn(ItemType) -> bool,
)
    requires
        push_step(tiles, b0, b1, ts0, ts1, bs0, bs1, pred),
    ensures
        ts1.len() <= ts0.len() + 1,
{
    if ts1 != ts0 {
        let (j, k) = choose|j: int, k: int|
            #![trigger first_accepted(b0.inventory.spec_countable().entries(), pred, k), bs0[j]]
            {
                &&& first_accepted(b0.inventory.spec_countable().entries(), pred, k)
                &&& 0 <= j < bs0.len()
                &&& bs0[j].payload is Occupied
                &&& storage_with_room(occupant(bs0[j]), ts0)
                &&& sent_to(
                    &tiles,
                    ts0,
                    ts1,
                    bs0,
                    bs1,
                    b0.inventory@,
                    b1.inventory@,
                    b0.pos,
                    spec_size(b0.type_),
                    j,
                    b0.inventory.spec_countable().entries()[k].0,
                    true,
                )
            };
        let (t, id) = choose|t: Transport, id: crate::transport::TransportId|
            #![trigger slots_after_insert(ts0, t), id.index()]
            id.index() == insert_index(ts0) && ts1 == slots_after_insert(ts0, t);
        lemma_insert_len(ts0, t);
    }
}

/// The test for raw ore.
pub open spec fn is_raw_ore() -> spec_fn(ItemType) -> bool {
    |t: ItemType| t == ItemType::RawOre
}

/// The test for anything but raw ore.
pub open spec fn not_raw_ore() -> spec_fn(ItemType) -> bool {
    |t: ItemType| t != ItemType::RawOre
}

/// What smelting one raw ore yields for a draw `dice` of the random number generator: by
/// `dice % 8`, cilicate for 0 to 3, an iron ingot for 4 and 5, a copper ingot otherwise (the
/// item types hold no lighter metal for the last quarter of draws).
pub open spec fn smelt_output(dice: u32) -> ItemType {
    let d = dice % 8;
    if d <= 3 {
        ItemType::Cilicate
    } else if d <= 5 {
        ItemType::IronIngot
    } else {
        ItemType::CopperIngot
    }
}

/// What smelting one raw ore yields for a draw `dice` of the random number generator.
pub fn smelt_output_of(dice: u32) -> (r: ItemType)
    ensures
        r == smelt_output(dice),
{
    let d = dice % 8;
    if d <= 3 {
        ItemType::Cilicate
    } else if d <= 5 {
        ItemType::IronIngot
    } else {
        ItemType::CopperIngot
    }
}

/// An excavator pushes out one raw ore.
pub open spec fn excavator_step(tiles: Tiles, s2: TickState, s3: TickState) -> bool {
    s3.3 == s2.3 && push_step(tiles, s2.0, s3.0, s2.1, s3.1, s2.2, s3.2, is_raw_ore())
}

/// A furnace pushes out one of its products (anything but raw ore); when it is then idle,
/// it pulls one raw ore if it lacks it and, holding one, takes it and starts smelting it into
/// `smelt_output(dice)` for the smelting time.
pub open spec fn furnace_step(tiles: Tiles, s2: TickState, s3: TickState, dice: u32) -> bool {
    exists|ba: Building, tsa: Seq<EntityEntry<Transport>>, bsa: Seq<EntityEntry<Building>>|
        #[trigger] push_step(tiles, s2.0, ba, s2.1, tsa, s2.2, bsa, not_raw_ore()) && {
        let sa: TickState = (ba, tsa, bsa, s2.3);
        if !(sa.0.task is Idle) {
            s3 == sa
        } else {
            let inv = sa.0.inventory@;
            &&& s3.3 == sa.3
            &&& pull_step(
                tiles,
                map![ItemType::RawOre => 1usize],
                1,
                sa.0,
                with_inventory_task(s3.0, sa.0),
                sa.1,
                s3.1,
                sa.2,
                s3.2,
            )
            &&& s3.0.inventory.wf()
            &&& if count_of(inv, ItemType::RawOre) >= 1 {
                &&& s3.0.inventory@ == inv.insert(ItemType::RawOre, (inv[ItemType::RawOre] - 1) as usize)
                &&& s3.0.task matches BuildingTask::Assemble { t, max_t, outputs } && {
                    &&& t == FloatBits(whole_float_bits(RAW_ORE_SMELT_TIME as nat) as u64)
                    &&& max_t == t
                    &&& outputs.wf()
                    &&& outputs@ == map![smelt_output(dice) => 1usize]
                }
            } else {
                &&& s3.0.inventory == sa.0.inventory
                &&& s3.0.task == sa.0.task
            }
        }
    }
}

impl Building {
    /// An excavator's part of a tick: it pushes out one raw ore.
    fn excavator_tick(
        &mut self,
        tiles: &Tiles,
        transports: &mut EntitySet<Transport>,
        buildings: &mut EntitySet<Building>,
    )
        requires
            tiles.wf(),
            old(transports).can_insert(),
            old(self).inventory.wf(),
            buildings_ok(old(buildings).slots()),
            site_pos_ok(old(self).pos),
        ensures
            excavator_step(
                *tiles,
                (*old(self), old(transports).slots(), old(buildings).slots(), Seq::empty()),
                (*final(self), final(transports).slots(), final(buildings).slots(), Seq::empty()),
            ),
            final(buildings).free_head() == old(buildings).free_head(),
            final(transports).free_head() == old(transports).free_head(),
            self_kept(*old(self), *final(self)),
            others_kept(old(buildings).slots(), final(buildings).slots()),
            buildings_ok(final(buildings).slots()),
            final(transports).slots().len() <= old(transports).slots().len() + 1,
            old(transports).slots().len() + 1 < u32::MAX ==> final(transports).can_insert(),
    {
        let is_output = |t: ItemType| -> (b: bool)
            ensures
                b == (t == ItemType::RawOre),
            { matches!(t, ItemType::RawOre) };
        push_from(self, tiles, transports, buildings, &is_output, Ghost(is_raw_ore()));
    }

    /// A furnace's part of a tick: it pushes out one of its products and, when idle, pulls
    /// one raw ore and starts smelting one into what the draw `dice` decides.
    fn furnace_tick(
        &mut self,
        tiles: &Tiles,
        transports: &mut EntitySet<Transport>,
        buildings: &mut EntitySet<Building>,
        dice: u32,
        Ghost(cs): Ghost<Seq<EntityEntry<Crew>>>,
    )
        requires
            tiles.wf(),
            old(transports).can_insert(),
            old(transports).slots().len() + 2 < u32::MAX,
            old(self).inventory.wf(),
            buildings_ok(old(buildings).slots()),
            site_pos_ok(old(self).pos),
        ensures
            furnace_step(
                *tiles,
                (*old(self), old(transports).slots(), old(buildings).slots(), cs),
                (*final(self), final(transports).slots(), final(buildings).slots(), cs),
                dice,
            ),
            final(self).recipe == old(self).recipe,
            final(buildings).free_head() == old(buildings).free_head(),
            final(transports).free_head() == old(transports).free_head(),
            self_kept(*old(self), *final(self)),
            others_kept(old(buildings).slots(), final(buildings).slots()),
            buildings_ok(final(buildings).slots()),
            final(transports).slots().len() <= old(transports).slots().len() + 2,
            final(transports).can_insert(),
    {
        let is_output = |t: ItemType| -> (b: bool)
            ensures
                b == (t != ItemType::RawOre),
            { !matches!(t, ItemType::RawOre) };
        push_from(self, tiles, transports, buildings, &is_output, Ghost(not_raw_ore()));
        let ghost sa: TickState = (*self, transports.slots(), buildings.slots(), cs);
        if !matches!(self.task, BuildingTask::Idle) {
            let ghost s2: TickState = (*old(self), old(transports).slots(), old(buildings).slots(), cs);
            let ghost s3: TickState = (*self, transports.slots(), buildings.slots(), cs);
            assert(push_step(*tiles, s2.0, sa.0, s2.1, sa.1, s2.2, sa.2, not_raw_ore()) && {
                let sa2: TickState = (sa.0, sa.1, sa.2, s2.3);
                !(sa2.0.task is Idle) && s3 == sa2
            });
            assert(furnace_step(*tiles, s2, s3, dice));
            return;
        }
        assert(slots_can_insert(transports.slots())) by {
            lemma_push_keeps_insertable(*tiles, *old(self), sa.0, old(transports).slots(), transports.slots(), old(buildings).slots(), buildings.slots(), not_raw_ore());
        }
        let mut inputs = CountableInventory::new();
        inputs.insert(ItemType::RawOre, 1);
        proof {
            assert(inputs@ =~= map![ItemType::RawOre => 1usize]);
            lemma_entries_bound(inputs);
            lemma_single_entry(inputs, ItemType::RawOre, 1);
        }
        pull_into(self, &inputs, tiles, transports, buildings);
        let ghost sb: TickState = (*self, transports.slots(), buildings.slots(), cs);
        proof {
            assert(with_inventory_task(sb.0, sa.0) == sb.0);
            assert(push_step(*tiles, *old(self), sa.0, old(transports).slots(), sa.1, old(buildings).slots(), sa.2, not_raw_ore()));
            assert(pull_step(*tiles, map![ItemType::RawOre => 1usize], 1, sa.0, sb.0, sa.1, sb.1, sa.2, sb.2));
        }
        let have = self.inventory.get(&ItemType::RawOre);
        let ghost s2: TickState = (*old(self), old(transports).slots(), old(buildings).slots(), cs);
        if have < 1 {
            let ghost s3: TickState = (*self, transports.slots(), buildings.slots(), cs);
            assert(s3 == sb);
            assert(count_of(sa.0.inventory@, ItemType::RawOre) < 1);
            assert(push_step(*tiles, s2.0, sa.0, s2.1, sa.1, s2.2, sa.2, not_raw_ore()) && {
                let sa2: TickState = (sa.0, sa.1, sa.2, s2.3);
                let inv = sa2.0.inventory@;
                &&& sa2.0.task is Idle
                &&& s3.3 == sa2.3
                &&& pull_step(*tiles, map![ItemType::RawOre => 1usize], 1, sa2.0, with_inventory_task(s3.0, sa2.0), sa2.1, s3.1, sa2.2, s3.2)
                &&& s3.0.inventory.wf()
                &&& !(count_of(inv, ItemType::RawOre) >= 1)
                &&& s3.0.inventory == sa2.0.inventory
                &&& s3.0.task == sa2.0.task
            });
            assert(furnace_step(*tiles, s2, s3, dice));
            return;
        }
        self.inventory.insert(ItemType::RawOre, have - 1);
        let mut outputs = CountableInventory::new();
        outputs.insert(smelt_output_of(dice), 1);
        let t = FloatBits(whole_to_float_bits(RAW_ORE_SMELT_TIME));
        self.task = BuildingTask::Assemble { t, max_t: t, outputs };
        proof {
            let s3: TickState = (*self, transports.slots(), buildings.slots(), cs);
            assert(with_inventory_task(s3.0, sa.0) == sb.0);
            assert(count_of(sa.0.inventory@, ItemType::RawOre) >= 1);
            assert(push_step(*tiles, s2.0, sa.0, s2.1, sa.1, s2.2, sa.2, not_raw_ore()) && {
                let sa2: TickState = (sa.0, sa.1, sa.2, s2.3);
                let inv = sa2.0.inventory@;
                &&& sa2.0.task is Idle
                &&& s3.3 == sa2.3
                &&& pull_step(*tiles, map![ItemType::RawOre => 1usize], 1, sa2.0, with_inventory_task(s3.0, sa2.0), sa2.1, s3.1, sa2.2, s3.2)
                &&& s3.0.inventory.wf()
                &&& count_of(inv, ItemType::RawOre) >= 1
                &&& s3.0.inventory@ == inv.insert(ItemType::RawOre, (inv[ItemType::RawOre] - 1) as usize)
            });
            assert(furnace_step(*tiles, s2, s3, dice));
        }
    }
}


/// Whether the bits stand for an `f64` that is at most zero: zero, or negative and not a NaN.
pub open spec fn float_le_zero(bits: u64) -> bool {
    bits == 0 || (0x8000_0000_0000_0000 <= bits && bits <= 0xfff0_0000_0000_0000)
}

/// Whether the bits stand for an `f64` that is at most zero.
pub fn float_bits_le_zero(bits: u64) -> (r: bool)
    ensures
        r == float_le_zero(bits),
{
    bits == 0 || (0x8000_0000_0000_0000 <= bits && bits <= 0xfff0_0000_0000_0000)
}

/// A colony-wide task that a cabin may send a crew to: an excavation with work left, or a
/// cleanup no crew picks up from yet, and either way no crew sent to build at its position.
pub open spec fn gtask_open(g: GlobalTask, cs: Seq<EntityEntry<Crew>>) -> bool {
    match g {
        GlobalTask::Excavate(t, p) => !float_le_zero(t.0) && !crew_builds_at(cs, p),
        GlobalTask::Cleanup(p) => count_tasks(occupied_values(cs), is_pickup_any(p)) == 0 && !crew_builds_at(cs, p),
    }
}

/// A colony-wide task that the cabin at `from` sends a crew to when it comes first: open, and
/// a crew can walk from the cabin to its position.
pub open spec fn gtask_reachable(g: GlobalTask, cs: Seq<EntityEntry<Crew>>, from: Pos, tiles: Tiles) -> bool {
    gtask_open(g, cs) && crew_reachable(tiles, from, gtask_pos(g))
}

/// No colony-wide task in a slot before `n` is one the cabin at `from` sends a crew to.
pub open spec fn no_gtask_before(gs: Seq<EntityEntry<GlobalTask>>, n: int, cs: Seq<EntityEntry<Crew>>, from: Pos, tiles: Tiles) -> bool {
    forall|j: int| 0 <= j < n && #[trigger] gs[j].payload is Occupied ==> !gtask_reachable(occupant(gs[j]), cs, from, tiles)
}

/// Law: a cleanup that no crew picks up from yet, and an excavation with work left, are open
/// to a cabin when no crew is sent to build at their position; a cleanup some crew picks up
/// from, and an excavation with no work left, are not.
pub proof fn lemma_gtask_open_cases(g: GlobalTask, cs: Seq<EntityEntry<Crew>>)
    ensures
        g matches GlobalTask::Cleanup(p) ==> (gtask_open(g, cs) <==> count_tasks(occupied_values(cs), is_pickup_any(p)) == 0
            && !crew_builds_at(cs, p)),
        g matches GlobalTask::Excavate(t, p) ==> (gtask_open(g, cs) <==> !float_le_zero(t.0) && !crew_builds_at(cs, p)),
{
}

/// Law: a cabin with crews at home sends one to the first colony-wide task, in slot order,
/// that is open and that a crew can walk to: its crews at home drop by one and the crew set
/// gains a crew for that task, walking there from the cabin.
pub proof fn lemma_cabin_sends_to_first_reachable(
    tiles: Tiles,
    s2: TickState,
    s3: TickState,
    id: BuildingId,
    sites: Seq<EntityEntry<Construction>>,
    gs: Seq<EntityEntry<GlobalTask>>,
    i: int,
)
    requires
        cabin_step(tiles, s2, s3, id, sites, gs),
        s2.0.crews > 0,
        0 <= i < gs.len(),
        gs[i].payload is Occupied,
        gtask_reachable(occupant(gs[i]), s2.3, s2.0.pos, tiles),
        no_gtask_before(gs, i, s2.3, s2.0.pos, tiles),
    ensures
        s3.0.crews == s2.0.crews - 1,
        exists|c: Crew, gid: GlobalTaskId|
            s3.3 == slots_after_insert(s2.3, c) && gid.index() == i && gid.generation() == gs[i].gen && #[trigger] task_crew(
                c,
                id,
                s2.0.pos,
                gid,
                occupant(gs[i]),
                tiles,
            ),
{
    let b = s2.0;
    if exists|i2: int, c: Crew|
        #![trigger gs[i2], slots_after_insert(s2.3, c)]
        {
            &&& 0 <= i2 < gs.len()
            &&& gs[i2].payload is Occupied
            &&& gtask_open(occupant(gs[i2]), s2.3)
            &&& gtask_reachable(occupant(gs[i2]), s2.3, b.pos, tiles)
            &&& no_gtask_before(gs, i2, s2.3, b.pos, tiles)
            &&& exists|gid: GlobalTaskId|
                gid.index() == i2 && gid.generation() == gs[i2].gen && #[trigger] task_crew(c, id, b.pos, gid, occupant(gs[i2]), tiles)
            &&& s3.3 == slots_after_insert(s2.3, c)
            &&& s3.0 == Building { crews: (b.crews - 1) as usize, ..b }
        } {
        let (i2, c) = choose|i2: int, c: Crew|
            #![trigger gs[i2], slots_after_insert(s2.3, c)]
            {
                &&& 0 <= i2 < gs.len()
                &&& gs[i2].payload is Occupied
                &&& gtask_open(occupant(gs[i2]), s2.3)
                &&& gtask_reachable(occupant(gs[i2]), s2.3, b.pos, tiles)
                &&& no_gtask_before(gs, i2, s2.3, b.pos, tiles)
                &&& exists|gid: GlobalTaskId|
                    gid.index() == i2 && gid.generation() == gs[i2].gen && #[trigger] task_crew(c, id, b.pos, gid, occupant(gs[i2]), tiles)
                &&& s3.3 == slots_after_insert(s2.3, c)
                &&& s3.0 == Building { crews: (b.crews - 1) as usize, ..b }
            };
        assert(i2 == i) by {
            if i2 < i {
                assert(!gtask_reachable(occupant(gs[i2]), s2.3, s2.0.pos, tiles));
            }
            if i < i2 {
                assert(!gtask_reachable(occupant(gs[i]), s2.3, s2.0.pos, tiles));
            }
        }
        let gid = choose|gid: GlobalTaskId|
            gid.index() == i2 && gid.generation() == gs[i2].gen && #[trigger] task_crew(c, id, b.pos, gid, occupant(gs[i2]), tiles);
        assert(task_crew(c, id, s2.0.pos, gid, occupant(gs[i]), tiles));
    } else {
        assert(!no_gtask_before(gs, gs.len() as int, s2.3, b.pos, tiles));
    }
}

/// The position of a colony-wide task.
pub open spec fn gtask_pos(g: GlobalTask) -> Pos {
    match g {
        GlobalTask::Excavate(_, p) => p,
        GlobalTask::Cleanup(p) => p,
    }
}

/// A crew from the cabin `id` at `from` for the colony-wide task `g` of id `gid`.
pub open spec fn task_crew(c: Crew, id: BuildingId, from: Pos, gid: GlobalTaskId, g: GlobalTask, tiles: Tiles) -> bool {
    &&& c.spec_pos() == from
    &&& c.spec_from() == id
    &&& c.spec_path() matches Some(path) && crew_path_ok(tiles, from, gtask_pos(g), path@)
    &&& c.spec_task() == match g {
        GlobalTask::Excavate(_, _) => CrewTask::Excavate(gid),
        GlobalTask::Cleanup(p) => CrewTask::Pickup { src: p, dest: from, item: None },
    }
    &&& c.spec_inventory().wf()
    &&& c.spec_inventory()@ == Map::<ItemType, usize>::empty()
}

/// The site in this slot is one a cabin tries: it stands on an empty tile.
pub open spec fn site_tried(e: EntityEntry<Construction>, tiles: Tiles) -> bool {
    e.payload is Occupied && tiles.spec_tile_at(occupant(e).spec_pos()).state == TileState::Empty
}

/// The cabin's inventory after it tried the sites in order without sending a crew: each
/// site tried takes one of each lacking ingredient it still has.
pub open spec fn cabin_draws(
    inv: Map<ItemType, usize>,
    sites: Seq<EntityEntry<Construction>>,
    tiles: Tiles,
    ts: Seq<EntityEntry<Transport>>,
    cs: Seq<EntityEntry<Crew>>,
) -> Map<ItemType, usize>
    decreases sites.len(),
{
    if sites.len() == 0 {
        inv
    } else {
        let m = cabin_draws(inv, sites.drop_last(), tiles, ts, cs);
        if site_tried(sites.last(), tiles) {
            deliver_draws(m, site_requirements(occupant(sites.last()), ts, cs))
        } else {
            m
        }
    }
}

/// A crew from the cabin `b` (of id `id`, with inventory `inv0` before the try) for the site
/// `site`, the cabin's inventory becoming `inv1`: one that fetches a lacking ingredient, or,
/// when no lacking ingredient could be fetched, one that takes an ingredient of the site
/// away, or one that builds it.
pub open spec fn site_crew(
    c: Crew,
    id: BuildingId,
    b: Building,
    site: Construction,
    inv0: Map<ItemType, usize>,
    inv1: Map<ItemType, usize>,
    ts: Seq<EntityEntry<Transport>>,
    bs: Seq<EntityEntry<Building>>,
    cs: Seq<EntityEntry<Crew>>,
    tiles: Tiles,
) -> bool {
    let reqs = site_requirements(site, ts, cs);
    ||| exists|k: int|
        0 <= k < reqs.len() && inv1 == deliver_draws(inv0, #[trigger] reqs.take(k + 1)) && fetch_crew(
            c,
            id,
            b.pos,
            site.spec_pos(),
            reqs[k].0,
            deliver_draws(inv0, reqs.take(k)),
            bs,
            tiles,
        )
    ||| inv1 == deliver_draws(inv0, reqs) && exists|k: int, dst: Pos|
        0 <= k < site_extras(site).len() && #[trigger] room_covers(bs, dst) && sent_crew(
            c,
            id,
            b.pos,
            site.spec_pos(),
            tiles,
            CrewTask::Pickup { src: site.spec_pos(), dest: dst, item: Some(#[trigger] site_extras(site)[k].0) },
        )
    ||| inv1 == deliver_draws(inv0, reqs) && may_build(site, cs) && sent_crew(
        c,
        id,
        b.pos,
        site.spec_pos(),
        tiles,
        CrewTask::Build(site.spec_pos()),
    )
}

/// A crew cabin with crews at home sends one out: to the first open colony-wide task in slot
/// order it finds a path to, or else to the first site on an empty tile, in slot order, for
/// which it can send one (see `site_crew`); a crew sent leaves the cabin. Trying sites costs
/// the cabin some of its stock (see `cabin_draws`) even when no crew can be sent.
pub open spec fn cabin_step(
    tiles: Tiles,
    s2: TickState,
    s3: TickState,
    id: BuildingId,
    sites: Seq<EntityEntry<Construction>>,
    gs: Seq<EntityEntry<GlobalTask>>,
) -> bool {
    let b = s2.0;
    if b.crews == 0 {
        s3 == s2
    } else {
        &&& s3.1 == s2.1
        &&& s3.2 == s2.2
        &&& s3.0.inventory.wf()
        &&& ({
            ||| exists|i: int, c: Crew|
                #![trigger gs[i], slots_after_insert(s2.3, c)]
                {
                    &&& 0 <= i < gs.len()
                    &&& gs[i].payload is Occupied
                    &&& gtask_open(occupant(gs[i]), s2.3)
                    &&& gtask_reachable(occupant(gs[i]), s2.3, b.pos, tiles)
                    &&& no_gtask_before(gs, i, s2.3, b.pos, tiles)
                    &&& exists|gid: GlobalTaskId|
                        gid.index() == i && gid.generation() == gs[i].gen && #[trigger] task_crew(
                            c,
                            id,
                            b.pos,
                            gid,
                            occupant(gs[i]),
                            tiles,
                        )
                    &&& s3.3 == slots_after_insert(s2.3, c)
                    &&& s3.0 == Building { crews: (b.crews - 1) as usize, ..b }
                }
            ||| exists|i: int, c: Crew|
                #![trigger sites[i], slots_after_insert(s2.3, c)]
                {
                    &&& no_gtask_before(gs, gs.len() as int, s2.3, b.pos, tiles)
                    &&& 0 <= i < sites.len()
                    &&& site_tried(sites[i], tiles)
                    &&& site_crew(
                        c,
                        id,
                        b,
                        occupant(sites[i]),
                        cabin_draws(b.inventory@, sites.take(i), tiles, s2.1, s2.3),
                        s3.0.inventory@,
                        s2.1,
                        s2.2,
                        s2.3,
                        tiles,
                    )
                    &&& s3.3 == slots_after_insert(s2.3, c)
                    &&& s3.0 == Building { crews: (b.crews - 1) as usize, inventory: s3.0.inventory, ..b }
                }
            ||| {
                &&& no_gtask_before(gs, gs.len() as int, s2.3, b.pos, tiles)
                &&& s3.3 == s2.3
                &&& s3.0 == Building { inventory: s3.0.inventory, ..b }
                &&& s3.0.inventory@ == cabin_draws(b.inventory@, sites, tiles, s2.1, s2.3)
            }
        })
    }
}


impl Building {
    /// A crew cabin's part of a tick: with crews at home, it sends one out to a colony-wide
    /// task, or else to a construction site.
    #[verifier::spinoff_prover]
    #[verifier::rlimit(30)]
    fn cabin_tick(
        &mut self,
        id: BuildingId,
        tiles: &Tiles,
        transports: &EntitySet<Transport>,
        buildings: &EntitySet<Building>,
        constructions: &EntitySet<Construction>,
        crews: &mut EntitySet<Crew>,
        gtasks: &EntitySet<GlobalTask>,
    )
        requires
            tiles.wf(),
            old(self).inventory.wf(),
            buildings_ok(buildings.slots()),
            old(crews).can_insert(),
            sites_ok(constructions.slots()),
            recipes_ok(constructions.slots()),
            gtasks.slots().len() <= u32::MAX,
        ensures
            cabin_step(
                *tiles,
                (*old(self), transports.slots(), buildings.slots(), old(crews).slots()),
                (*final(self), transports.slots(), buildings.slots(), final(crews).slots()),
                id,
                constructions.slots(),
                gtasks.slots(),
            ),
            final(crews).free_head() == old(crews).free_head(),
            self_kept(*old(self), *final(self)),
            final(crews).slots().len() <= old(crews).slots().len() + 1,
            old(crews).slots().len() + 1 < u32::MAX ==> final(crews).can_insert(),
    {
        if self.crews == 0 {
            return;
        }
        let ghost s2: TickState = (*self, transports.slots(), buildings.slots(), crews.slots());
        let ng = gtasks.num_slots();
        let mut gi: usize = 0;
        while gi < ng
            invariant
                ng == gtasks.slots().len(),
                gi <= ng,
                ng <= u32::MAX,
                *self == *old(self),
                self.inventory.wf(),
                crews.slots() == old(crews).slots(),
                crews.free_head() == old(crews).free_head(),
                old(crews).can_insert(),
                self.crews > 0,
                tiles.wf(),
                no_gtask_before(gtasks.slots(), gi as int, old(crews).slots(), old(self).pos, *tiles),
            decreases ng - gi,
        {
            match gtasks.get_at(gi) {
                Some(g) => {
                    let goal = match *g {
                        GlobalTask::Excavate(t, p) => if float_bits_le_zero(t.0) {
                            None
                        } else {
                            Some(p)
                        },
                        GlobalTask::Cleanup(p) => if expected_crew_pickup_any(crews, p) != 0 {
                            None
                        } else {
                            Some(p)
                        },
                    };
                    match goal {
                        Some(p) => {
                            if !any_crew_builds_at(crews, p) {
                                let gid = EntityId::new(gi as u32, gtasks.slot_gen(gi));
                                match Crew::new_task(id, self, gid, g, tiles) {
                                    Some(c) => {
                                        let ghost cs0 = crews.slots();
                                        crews.insert(c);
                                        self.crews = self.crews - 1;
                                        proof {
                                            let gt = occupant(gtasks.slots()[gi as int]);
                                            assert(gtask_pos(gt) == p);
                                            assert(gtask_open(gt, cs0));
                                            assert(gtask_reachable(gt, cs0, old(self).pos, *tiles));
                                            assert(task_crew(c, id, old(self).pos, gid, gt, *tiles));
                                            assert(*self == Building { crews: (old(self).crews - 1) as usize, ..*old(self) });
                                            assert(crews.slots() == slots_after_insert(cs0, c));
                                            let gs = gtasks.slots();
                                            let i = gi as int;
                                            assert(gid.index() == i && gid.generation() == gs[i].gen);
                                            assert(exists|gid: GlobalTaskId|
                                                gid.index() == i && gid.generation() == gs[i].gen && #[trigger] task_crew(
                                                    c, id, old(self).pos, gid, occupant(gs[i]), *tiles));
                                        }
                                        return;
                                    },
                                    None => {
                                        proof {
                                            assert(gtask_pos(*g) == p);
                                        }
                                    },
                                }
                            }
                        },
                        None => {},
                    }
                    proof {
                        assert(gtasks.slots()[gi as int].payload == EntryPayload::Occupied(*g));
                        assert(!gtask_reachable(*g, old(crews).slots(), old(self).pos, *tiles));
                    }
                },
                None => {},
            }
            proof {
                let gs = gtasks.slots();
                assert forall|j: int| 0 <= j < gi + 1 && #[trigger] gs[j].payload is Occupied implies !gtask_reachable(
                    occupant(gs[j]),
                    old(crews).slots(),
                    old(self).pos,
                    *tiles,
                ) by {
                    if j < gi {
                        assert(no_gtask_before(gs, gi as int, old(crews).slots(), old(self).pos, *tiles));
                    }
                }
            }
            gi = gi + 1;
        }
        let ghost inv0 = self.inventory@;
        let ghost sites = constructions.slots();
        let ns = constructions.num_slots();
        let mut si: usize = 0;
        while si < ns
            invariant
                ns == sites.len(),
                sites == constructions.slots(),
                si <= ns,
                inv0 == old(self).inventory@,
                self.inventory.wf(),
                *self == (Building { inventory: self.inventory, ..*old(self) }),
                self.inventory@ == cabin_draws(inv0, sites.take(si as int), *tiles, transports.slots(), crews.slots()),
                crews.slots() == old(crews).slots(),
                no_gtask_before(gtasks.slots(), gtasks.slots().len() as int, old(crews).slots(), old(self).pos, *tiles),
                crews.free_head() == old(crews).free_head(),
                old(crews).can_insert(),
                self.crews > 0,
                tiles.wf(),
                buildings_ok(buildings.slots()),
                sites_ok(sites),
                recipes_ok(sites),
            decreases ns - si,
        {
            proof {
                assert(sites.take(si + 1).drop_last() =~= sites.take(si as int));
            }
            match constructions.get_at(si) {
                Some(site) => {
                    proof {
                        assert(sites[si as int].payload is Occupied);
                    }
                    if tiles.index(site.pos()).state == TileState::Empty {
                        let ghost before = self.inventory@;
                        let mut sent = self.try_find_deliver(id, site, buildings, transports, crews, tiles);
                        let ghost delivered = sent.is_some();
                        if sent.is_none() {
                            sent = self.try_find_pickup_and_deliver(id, site, buildings, tiles);
                        }
                        if sent.is_none() {
                            sent = self.try_send_to_build(id, site, crews, tiles);
                        }
                        match sent {
                            Some(c) => {
                                let ghost cs0 = crews.slots();
                                let ghost inv1 = self.inventory@;
                                crews.insert(c);
                                self.crews = self.crews - 1;
                                proof {
                                    assert(site_tried(sites[si as int], *tiles));
                                    assert(site_crew(c, id, *old(self), *site, before, inv1, transports.slots(), buildings.slots(), cs0, *tiles));
                                    assert(*self == Building { crews: (old(self).crews - 1) as usize, inventory: self.inventory, ..*old(self) });
                                    assert(crews.slots() == slots_after_insert(cs0, c));
                                    assert(no_gtask_before(gtasks.slots(), gtasks.slots().len() as int, old(crews).slots(), old(self).pos, *tiles));
                                    assert(cs0 == old(crews).slots());
                                }
                                return;
                            },
                            None => {},
                        }
                    }
                },
                None => {},
            }
            si = si + 1;
        }
        proof {
            assert(sites.take(si as int) =~= sites);
        }
    }
}


/// A pull keeps the transports able to take an insertion while the slot count stays below the
/// limit, and adds at most as many slots as there are inputs.
proof fn lemma_pull_keeps_insertable(
    tiles: Tiles,
    inputs: Map<ItemType, usize>,
    n: nat,
    b0: Building,
    b1: Building,
    ts0: Seq<EntityEntry<Transport>>,
    ts1: Seq<EntityEntry<Transport>>,
    bs0: Seq<EntityEntry<Building>>,
    bs1: Seq<EntityEntry<Building>>,
)
    requires
        pull_step(tiles, inputs, n, b0, b1, ts0, ts1, bs0, bs1),
        slots_can_insert(ts0),
        ts0.len() + n < u32::MAX,
    ensures
        slots_can_insert(ts1),
        ts1.len() <= ts0.len() + n,
{
    assert forall|i: int| 0 <= i < ts1.len() && ts1[i].payload is Free implies ts1[i].gen < u32::MAX by {
        assert(ts1[i] == ts0[i]);
    }
}

/// One tick of a building, from `s0` to `s3`: a building with a recipe pushes out one of its
/// outputs (`recipe_push`); an idle one with a recipe pulls its inputs and starts assembling
/// (`recipe_start`), the tick stopping when it lacks some; then an excavator pushes out raw
/// ore (`excavator_step`), a crew cabin sends a crew out (`cabin_step`) and a furnace pushes
/// out its products and starts smelting (`furnace_step`); other buildings do nothing more.
pub open spec fn tick_step(
    tiles: Tiles,
    s0: TickState,
    s3: TickState,
    id: BuildingId,
    sites: Seq<EntityEntry<Construction>>,
    gs: Seq<EntityEntry<GlobalTask>>,
    dice: u32,
) -> bool {
    exists|b1: Building, ts1: Seq<EntityEntry<Transport>>, bs1: Seq<EntityEntry<Building>>, b2: Building,
        ts2: Seq<EntityEntry<Transport>>, bs2: Seq<EntityEntry<Building>>, go_on: bool|
        #![trigger tick_stages(tiles, s0, b1, ts1, bs1, b2, ts2, bs2, go_on)]
        tick_stages(tiles, s0, b1, ts1, bs1, b2, ts2, bs2, go_on) && {
            let s2: TickState = (b2, ts2, bs2, s0.3);
            if !go_on {
                s3 == s2
            } else {
                match b2.type_ {
                    BuildingType::Excavator => excavator_step(tiles, s2, s3),
                    BuildingType::CrewCabin => cabin_step(tiles, s2, s3, id, sites, gs),
                    BuildingType::Furnace => furnace_step(tiles, s2, s3, dice),
                    _ => s3 == s2,
                }
            }
        }
}

/// The first two stages of a tick: the push of a recipe's outputs, then the start of the
/// recipe.
pub open spec fn tick_stages(
    tiles: Tiles,
    s0: TickState,
    b1: Building,
    ts1: Seq<EntityEntry<Transport>>,
    bs1: Seq<EntityEntry<Building>>,
    b2: Building,
    ts2: Seq<EntityEntry<Transport>>,
    bs2: Seq<EntityEntry<Building>>,
    go_on: bool,
) -> bool {
    &&& recipe_push(tiles, s0, (b1, ts1, bs1, s0.3))
    &&& recipe_start(tiles, (b1, ts1, bs1, s0.3), (b2, ts2, bs2, s0.3), go_on)
}

impl Building {
    /// One tick of the building: it pushes out one output of its recipe; when idle with a
    /// recipe, it pulls the inputs it lacks and, holding them all, takes them and starts
    /// assembling (else the tick ends there); then an excavator pushes out raw ore, a crew
    /// cabin sends a crew out and a furnace pushes out its products and starts smelting one
    /// raw ore into what `dice`, a draw of the game's random number generator, decides.
    ///
    /// `buildings` holds the other buildings; `id` is this building's id. The tick always
    /// succeeds.
    pub fn tick(
        &mut self,
        id: BuildingId,
        buildings: &mut EntitySet<Building>,
        tiles: &Tiles,
        transports: &mut EntitySet<Transport>,
        constructions: &EntitySet<Construction>,
        crews: &mut EntitySet<Crew>,
        gtasks: &EntitySet<GlobalTask>,
        dice: u32,
    ) -> (r: Result<(), String>)
        requires
            tiles.wf(),
            old(self).inventory.wf(),
            old(self).recipe matches Some(rc) ==> rc.inputs.wf() && rc.outputs.wf(),
            site_pos_ok(old(self).pos),
            buildings_ok(old(buildings).slots()),
            old(transports).can_insert(),
            old(transports).slots().len() + 16 < u32::MAX,
            old(crews).can_insert(),
            sites_ok(constructions.slots()),
            recipes_ok(constructions.slots()),
            gtasks.slots().len() <= u32::MAX,
        ensures
            r is Ok,
            tick_step(
                *tiles,
                (*old(self), old(transports).slots(), old(buildings).slots(), old(crews).slots()),
                (*final(self), final(transports).slots(), final(buildings).slots(), final(crews).slots()),
                id,
                constructions.slots(),
                gtasks.slots(),
                dice,
            ),
            self_kept(*old(self), *final(self)),
            others_kept(old(buildings).slots(), final(buildings).slots()),
            buildings_ok(final(buildings).slots()),
            final(transports).slots().len() <= old(transports).slots().len() + 13,
            final(transports).can_insert(),
            final(crews).slots().len() <= old(crews).slots().len() + 1,
            old(crews).slots().len() + 1 < u32::MAX ==> final(crews).can_insert(),
            final(buildings).free_head() == old(buildings).free_head(),
            final(transports).free_head() == old(transports).free_head(),
            final(crews).free_head() == old(crews).free_head(),
    {
        let ghost s0: TickState = (*self, transports.slots(), buildings.slots(), crews.slots());
        self.push_recipe_outputs(tiles, transports, buildings);
        let ghost b1 = *self;
        let ghost ts1 = transports.slots();
        let ghost bs1 = buildings.slots();
        proof {
            match s0.0.recipe {
                Some(rc) => {
                    lemma_push_keeps_insertable(*tiles, s0.0, b1, s0.1, ts1, s0.2, bs1, among(rc.outputs@));
                },
                None => {},
            }
        }
        let go_on = self.start_recipe(tiles, transports, buildings);
        proof {
            lemma_others_kept_trans(s0.2, bs1, buildings.slots());
        }
        let ghost b2 = *self;
        let ghost ts2 = transports.slots();
        let ghost bs2 = buildings.slots();
        let ghost s2: TickState = (b2, ts2, bs2, s0.3);
        proof {
            assert(recipe_push(*tiles, s0, (b1, ts1, bs1, s0.3)));
            assert(recipe_start(*tiles, (b1, ts1, bs1, s0.3), s2, go_on));
            assert(tick_stages(*tiles, s0, b1, ts1, bs1, b2, ts2, bs2, go_on));
        }
        if !go_on {
            return Ok(());
        }
        proof {
            if b1.task is Idle && b1.recipe is Some {
                let rc = b1.recipe->Some_0;
                lemma_entries_bound(rc.inputs);
                lemma_pull_keeps_insertable(*tiles, rc.inputs@, rc.inputs.entries().len(), b1, with_inventory_task(b2, b1), ts1, ts2, bs1, bs2);
            }
        }
        match self.type_ {
            BuildingType::Excavator => {
                self.excavator_tick(tiles, transports, buildings);
                proof {
                    lemma_others_kept_trans(s0.2, bs2, buildings.slots());
                    let s3: TickState = (*self, transports.slots(), buildings.slots(), crews.slots());
                    assert(excavator_step(*tiles, s2, s3));
                }
            },
            BuildingType::CrewCabin => {
                self.cabin_tick(id, tiles, transports, buildings, constructions, crews, gtasks);
                proof {
                    let s3: TickState = (*self, transports.slots(), buildings.slots(), crews.slots());
                    assert(cabin_step(*tiles, s2, s3, id, constructions.slots(), gtasks.slots()));
                }
            },
            BuildingType::Furnace => {
                self.furnace_tick(tiles, transports, buildings, dice, Ghost(crews.slots()));
                proof {
                    lemma_others_kept_trans(s0.2, bs2, buildings.slots());
                    let s3: TickState = (*self, transports.slots(), buildings.slots(), crews.slots());
                    assert(furnace_step(*tiles, s2, s3, dice));
                }
            },
            _ => {},
        }
        proof {
            let s3: TickState = (*self, transports.slots(), buildings.slots(), crews.slots());
            assert(tick_stages(*tiles, s0, b1, ts1, bs1, b2, ts2, bs2, go_on));
        }
        Ok(())
    }
}


/// Every building of the slots stands where a tick can push and pull from it, and its recipe,
/// if any, is well formed.
pub open spec fn tickable(bs: Seq<EntityEntry<Building>>) -> bool {
    forall|i: int|
        0 <= i < bs.len() && #[trigger] bs[i].payload is Occupied ==> {
            &&& site_pos_ok(occupant(bs[i]).pos)
            &&& occupant(bs[i]).recipe matches Some(rc) ==> rc.inputs.wf() && rc.outputs.wf()
        }
}

/// What a tick of the building in slot `i` does to the buildings, transports and crews (from
/// state 0 to state 1): the building is taken out of its slot, ticks with the others and is
/// put back; a free slot changes nothing.
pub open spec fn slot_ticked(
    tiles: Tiles,
    sites: Seq<EntityEntry<Construction>>,
    gs: Seq<EntityEntry<GlobalTask>>,
    dice: u32,
    i: int,
    bs0: Seq<EntityEntry<Building>>,
    ts0: Seq<EntityEntry<Transport>>,
    cs0: Seq<EntityEntry<Crew>>,
    bs1: Seq<EntityEntry<Building>>,
    ts1: Seq<EntityEntry<Transport>>,
    cs1: Seq<EntityEntry<Crew>>,
) -> bool {
    if bs0[i].payload is Occupied {
        let gen = bs0[i].gen;
        let others0 = bs0.update(i, EntityEntry { gen, payload: EntryPayload::Free(None) });
        exists|b1: Building, others1: Seq<EntityEntry<Building>>, id: BuildingId|
            #[trigger] tick_step(tiles, (occupant(bs0[i]), ts0, others0, cs0), (b1, ts1, others1, cs1), id, sites, gs, dice)
                && id.index() == i && id.generation() == gen && bs1 == others1.update(
                i,
                EntityEntry { gen, payload: EntryPayload::Occupied(b1) },
            )
    } else {
        bs1 == bs0 && ts1 == ts0 && cs1 == cs0
    }
}

/// The buildings, transports and crews at one moment of a round of ticks.
pub type SlotsState = (Seq<EntityEntry<Building>>, Seq<EntityEntry<Transport>>, Seq<EntityEntry<Crew>>);

/// The states of a round of ticks: state `k + 1` follows state `k` by a tick of the building
/// in slot `k` with the draw `dice[k]`.
pub open spec fn tick_round(
    tiles: Tiles,
    sites: Seq<EntityEntry<Construction>>,
    gs: Seq<EntityEntry<GlobalTask>>,
    dice: Seq<u32>,
    states: Seq<SlotsState>,
) -> bool {
    forall|k: int|
        0 <= k < states.len() - 1 ==> slot_ticked(
            tiles,
            sites,
            gs,
            dice[k],
            k,
            (#[trigger] states[k]).0,
            states[k].1,
            states[k].2,
            states[k + 1].0,
            states[k + 1].1,
            states[k + 1].2,
        )
}

/// The dice of a round of ticks, extended by the tick of the next slot with the next unused
/// draw.
proof fn lemma_dice_step(dice: Seq<u32>, states: Seq<SlotsState>, ds: Seq<u32>, cur: Seq<int>, next: SlotsState, u: int)
    requires
        dice_drawn(dice, states, ds, cur),
        cur.last() == u,
    ensures
        dice_drawn(
            dice,
            states.push(next),
            ds.push(dice[u]),
            cur.push(u + if drew_die(states.last().0[ds.len() as int], next.0[ds.len() as int]) { 1int } else { 0int }),
        ),
{
    let i = ds.len() as int;
    let st2 = states.push(next);
    let ds2 = ds.push(dice[u]);
    let cur2 = cur.push(u + if drew_die(states.last().0[i], next.0[i]) { 1int } else { 0int });
    assert forall|k: int| 0 <= k < ds2.len() implies {
        &&& #[trigger] ds2[k] == dice[cur2[k]]
        &&& cur2[k + 1] == cur2[k] + if drew_die(st2[k].0[k], st2[k + 1].0[k]) {
            1int
        } else {
            0int
        }
    } by {
        if k < i {
            assert(ds2[k] == ds[k] && cur2[k] == cur[k] && cur2[k + 1] == cur[k + 1]);
            assert(st2[k] == states[k] && st2[k + 1] == states[k + 1]);
        } else {
            assert(st2[k] == states.last() && st2[k + 1] == next);
            assert(cur2[k] == cur.last());
            assert(cur2[k + 1] == u + if drew_die(states.last().0[i], next.0[i]) { 1int } else { 0int });
        }
    }
}

/// A round of ticks keeps to the dice it used when more are drawn after them.
proof fn lemma_round_dice(
    tiles: Tiles,
    sites: Seq<EntityEntry<Construction>>,
    gs: Seq<EntityEntry<GlobalTask>>,
    ds: Seq<u32>,
    ds2: Seq<u32>,
    states: Seq<SlotsState>,
)
    requires
        tick_round(tiles, sites, gs, ds, states),
        ds.len() == states.len() - 1,
        ds2.len() >= ds.len(),
        forall|k: int| 0 <= k < ds.len() ==> ds2[k] == ds[k],
    ensures
        tick_round(tiles, sites, gs, ds2, states),
{
    assert forall|k: int| 0 <= k < states.len() - 1 implies slot_ticked(tiles, sites, gs, ds2[k], k, (#[trigger] states[k]).0,
        states[k].1, states[k].2, states[k + 1].0, states[k + 1].1, states[k + 1].2) by {
        assert(ds2[k] == ds[k]);
    }
}

/// A round of ticks extended by the tick of the next slot is a round of ticks.
proof fn lemma_round_step(
    tiles: Tiles,
    sites: Seq<EntityEntry<Construction>>,
    gs: Seq<EntityEntry<GlobalTask>>,
    dice: Seq<u32>,
    states: Seq<SlotsState>,
    next: SlotsState,
)
    requires
        states.len() >= 1,
        tick_round(tiles, sites, gs, dice, states),
        slot_ticked(tiles, sites, gs, dice[states.len() - 1], states.len() - 1, states.last().0, states.last().1,
            states.last().2, next.0, next.1, next.2),
    ensures
        tick_round(tiles, sites, gs, dice, states.push(next)),
{
    let s2 = states.push(next);
    assert forall|k: int| 0 <= k < s2.len() - 1 implies slot_ticked(tiles, sites, gs, dice[k], k, (#[trigger] s2[k]).0,
        s2[k].1, s2[k].2, s2[k + 1].0, s2[k + 1].1, s2[k + 1].2) by {
        if k < states.len() - 1 {
            assert(s2[k] == states[k]);
            assert(s2[k + 1] == states[k + 1]);
            assert(slot_ticked(tiles, sites, gs, dice[k], k, states[k].0, states[k].1, states[k].2, states[k + 1].0,
                states[k + 1].1, states[k + 1].2));
        }
    }
}

/// The tick of a slot drew a number: an idle furnace in it started smelting.
pub open spec fn drew_die(e0: EntityEntry<Building>, e1: EntityEntry<Building>) -> bool {
    &&& e0.payload is Occupied
    &&& occupant(e0).type_ == BuildingType::Furnace
    &&& occupant(e0).task is Idle
    &&& e1.payload is Occupied
    &&& occupant(e1).task is Assemble
}

/// The dice a round of ticks used: slot `k` ticks with `ds[k]`, the next unused draw of
/// `dice`, counted by `cur[k]`; the count moves on past the slots that drew one.
pub open spec fn dice_drawn(dice: Seq<u32>, states: Seq<SlotsState>, ds: Seq<u32>, cur: Seq<int>) -> bool {
    &&& ds.len() == states.len() - 1
    &&& cur.len() == states.len()
    &&& cur[0] == 0
    &&& forall|k: int|
        0 <= k < ds.len() ==> {
            &&& #[trigger] ds[k] == dice[cur[k]]
            &&& cur[k + 1] == cur[k] + if drew_die(states[k].0[k], states[k + 1].0[k]) {
                1int
            } else {
                0int
            }
        }
}

impl AsteroidColoniesGame {
    /// Ticks every building once, in slot order: each is taken out of its slot, ticks with the
    /// others (see `Building::tick`) and is put back. `dice` holds draws of the game's random
    /// number generator, one for each slot at most: an idle furnace that starts smelting takes
    /// the next one. Returns how many were taken.
    pub fn tick_buildings(&mut self, dice: &Vec<u32>) -> (used: usize)
        requires
            old(self).tiles.wf(),
            buildings_ok(old(self).buildings.slots()),
            tickable(old(self).buildings.slots()),
            old(self).buildings.slots().len() <= u32::MAX,
            dice@.len() >= old(self).buildings.slots().len(),
            old(self).transports.can_insert(),
            old(self).transports.slots().len() + 13 * old(self).buildings.slots().len() + 16 < u32::MAX,
            old(self).crews.can_insert(),
            old(self).crews.slots().len() + old(self).buildings.slots().len() + 1 < u32::MAX,
            sites_ok(old(self).constructions.slots()),
            recipes_ok(old(self).constructions.slots()),
            old(self).global_tasks.slots().len() <= u32::MAX,
        ensures
            exists|states: Seq<SlotsState>, ds: Seq<u32>, cur: Seq<int>|
                #[trigger] tick_round(old(self).tiles, old(self).constructions.slots(), old(self).global_tasks.slots(), ds, states)
                && #[trigger] dice_drawn(dice@, states, ds, cur)
                && states.len() == old(self).buildings.slots().len() + 1
                && states[0] == (old(self).buildings.slots(), old(self).transports.slots(), old(self).crews.slots())
                && states.last() == (final(self).buildings.slots(), final(self).transports.slots(), final(self).crews.slots())
                && cur.last() == used,
            buildings_ok(final(self).buildings.slots()),
            tickable(final(self).buildings.slots()),
            final(self).tiles == old(self).tiles,
            final(self).constructions == old(self).constructions,
            final(self).global_tasks == old(self).global_tasks,
            final(self).global_time == old(self).global_time,
            final(self).power_ratio == old(self).power_ratio,
            final(self).used_power == old(self).used_power,
            final(self).buildings.free_head() == old(self).buildings.free_head(),
            final(self).transports.free_head() == old(self).transports.free_head(),
            final(self).crews.free_head() == old(self).crews.free_head(),
    {
        let ghost tiles0 = self.tiles;
        let ghost sites = self.constructions.slots();
        let ghost gs = self.global_tasks.slots();
        let ghost bs0 = self.buildings.slots();
        let ghost ts0 = self.transports.slots();
        let ghost cs0 = self.crews.slots();
        let n = self.buildings.num_slots();
        let ghost mut states: Seq<SlotsState> = seq![(bs0, ts0, cs0)];
        let ghost mut ds: Seq<u32> = Seq::empty();
        let ghost mut cur: Seq<int> = seq![0int];
        let mut used: usize = 0;
        let mut i: usize = 0;
        while i < n
            invariant
                n == bs0.len(),
                n <= u32::MAX,
                i <= n,
                dice@.len() >= n,
                self.buildings.slots().len() == n,
                self.tiles == tiles0,
                self.tiles.wf(),
                self.constructions.slots() == sites,
                self.constructions == old(self).constructions,
                self.global_tasks == old(self).global_tasks,
                self.global_tasks.slots() == gs,
                gs.len() <= u32::MAX,
                tiles0 == old(self).tiles,
                sites == old(self).constructions.slots(),
                gs == old(self).global_tasks.slots(),
                bs0 == old(self).buildings.slots(),
                ts0 == old(self).transports.slots(),
                cs0 == old(self).crews.slots(),
                self.global_time == old(self).global_time,
                self.power_ratio == old(self).power_ratio,
                self.used_power == old(self).used_power,
                self.buildings.free_head() == old(self).buildings.free_head(),
                self.transports.free_head() == old(self).transports.free_head(),
                self.crews.free_head() == old(self).crews.free_head(),
                sites_ok(sites),
                recipes_ok(sites),
                buildings_ok(self.buildings.slots()),
                tickable(self.buildings.slots()),
                self.transports.can_insert(),
                self.transports.slots().len() <= ts0.len() + 13 * i,
                ts0.len() + 13 * n + 16 < u32::MAX,
                self.crews.can_insert(),
                self.crews.slots().len() <= cs0.len() + i,
                cs0.len() + n + 1 < u32::MAX,
                states.len() == i + 1,
                states[0] == (bs0, ts0, cs0),
                states.last() == (self.buildings.slots(), self.transports.slots(), self.crews.slots()),
                tick_round(tiles0, sites, gs, ds, states),
                dice_drawn(dice@, states, ds, cur),
                used <= i,
                cur.last() == used,
            decreases n - i,
        {
            let ghost bsc = self.buildings.slots();
            let ghost tsc = self.transports.slots();
            let ghost csc = self.crews.slots();
            if self.buildings.get_at(i).is_some() {
                let gen = self.buildings.slot_gen(i);
                let id: BuildingId = EntityId::new(i as u32, gen);
                let mut b = self.buildings.remove_at(i).unwrap();
                let ghost others0 = self.buildings.slots();
                proof {
                    assert(others0 == bsc.update(i as int, EntityEntry { gen, payload: EntryPayload::Free(None) }));
                    assert(buildings_ok(others0)) by {
                        assert forall|m: int| 0 <= m < others0.len() && #[trigger] others0[m].payload is Occupied
                            implies occupant(others0[m]).inventory.wf() && pos_in_range(occupant(others0[m]).pos) by {
                            assert(others0[m] == bsc[m]);
                        }
                    }
                    assert(bsc[i as int].payload is Occupied);
                    assert(site_pos_ok(b.pos));
                }
                let idle_furnace = matches!(b.type_, BuildingType::Furnace) && matches!(b.task, BuildingTask::Idle);
                let die = dice[used];
                let _ = b.tick(
                    id,
                    &mut self.buildings,
                    &self.tiles,
                    &mut self.transports,
                    &self.constructions,
                    &mut self.crews,
                    &self.global_tasks,
                    die,
                );
                let drew = idle_furnace && matches!(b.task, BuildingTask::Assemble { .. });
                let ghost b1 = b;
                let ghost others1 = self.buildings.slots();
                self.buildings.put_at(i, b);
                proof {
                    assert(others1[i as int] == others0[i as int]);
                    assert(self.buildings.slots() == others1.update(i as int, EntityEntry { gen, payload: EntryPayload::Occupied(b1) }));
                    assert(tick_step(tiles0, (occupant(bsc[i as int]), tsc, others0, csc),
                        (b1, self.transports.slots(), others1, self.crews.slots()), id, sites, gs, die));
                    let ds2 = ds.push(die);
                    lemma_round_dice(tiles0, sites, gs, ds, ds2, states);
                    assert(slot_ticked(tiles0, sites, gs, ds2[i as int], i as int, bsc, tsc, csc,
                        self.buildings.slots(), self.transports.slots(), self.crews.slots()));
                    lemma_round_step(tiles0, sites, gs, ds2, states, (self.buildings.slots(), self.transports.slots(), self.crews.slots()));
                    let next = (self.buildings.slots(), self.transports.slots(), self.crews.slots());
                    assert(drew == drew_die(bsc[i as int], next.0[i as int]));
                    let st2 = states.push(next);
                    let cur2 = cur.push(if drew { used + 1 } else { used as int });
                    lemma_dice_step(dice@, states, ds, cur, next, used as int);
                    states = st2;
                    ds = ds2;
                    cur = cur2;
                    let bs2 = self.buildings.slots();
                    assert forall|m: int| 0 <= m < bs2.len() && #[trigger] bs2[m].payload is Occupied
                        implies occupant(bs2[m]).inventory.wf() && pos_in_range(occupant(bs2[m]).pos) by {
                        if m != i {
                            assert(bs2[m] == others1[m]);
                        }
                    }
                    assert forall|m: int| 0 <= m < bs2.len() && #[trigger] bs2[m].payload is Occupied
                        implies site_pos_ok(occupant(bs2[m]).pos) && (occupant(bs2[m]).recipe matches Some(rc)
                            ==> rc.inputs.wf() && rc.outputs.wf()) by {
                        if m != i {
                            assert(bs2[m] == others1[m]);
                            assert(others0[m] == bsc[m]);
                        }
                    }
                }
                if drew {
                    used = used + 1;
                }
            } else {
                proof {
                    assert(!(bsc[i as int].payload is Occupied));
                    let ds2 = ds.push(dice@[used as int]);
                    lemma_round_dice(tiles0, sites, gs, ds, ds2, states);
                    assert(slot_ticked(tiles0, sites, gs, ds2[i as int], i as int, bsc, tsc, csc, bsc, tsc, csc));
                    lemma_round_step(tiles0, sites, gs, ds2, states, (bsc, tsc, csc));
                    let st2 = states.push((bsc, tsc, csc));
                    let cur2 = cur.push(used as int);
                    lemma_dice_step(dice@, states, ds, cur, (bsc, tsc, csc), used as int);
                    states = st2;
                    ds = ds2;
                    cur = cur2;
                }
            }
            i = i + 1;
        }
        used
    }
}

} // verus!
