//! The steps of building tasks that follow from a timer running out: a step along a path,
//! and the end of an assembly.
use vstd::prelude::*;

use crate::building::{spec_capacity, Building};
use crate::construction::count_of;
use crate::crew::merged;
use crate::direction::{dir_from_vec, Direction};
use crate::inventory::{entries_sum, lemma_entries_of_view, lemma_inventory_parts, lemma_total_is_sum, sorted_entries, CountableInventory, Inventory};
use crate::items::ItemType;
use crate::task::BuildingTask;
use crate::Pos;

verus! {

/// The direction from `a` towards `b`, as `Direction::from_vec` gives it for `b - a`.
pub fn dir_toward(a: Pos, b: Pos) -> (r: Option<Direction>)
    ensures
        r == dir_from_vec(b[0] - a[0], b[1] - a[1]),
{
    if b[0] < a[0] {
        Some(Direction::Left)
    } else if b[0] > a[0] {
        Some(Direction::Right)
    } else if b[1] < a[1] {
        Some(Direction::Up)
    } else if b[1] > a[1] {
        Some(Direction::Down)
    } else {
        None
    }
}

/// One step of a move along `path` (the next tile last). When the step is `due`, the mover
/// goes to the next tile and faces the one after it, if any; with no tile left, the move is
/// over. Otherwise it faces the next tile. Tells whether the move is over.
pub fn step_move(path: &mut Vec<Pos>, pos: &mut Pos, direction: &mut Option<Direction>, due: bool) -> (done: bool)
    ensures
        done == (due && old(path)@.len() == 0),
        due && old(path)@.len() > 0 ==> {
            let rest = old(path)@.drop_last();
            &&& final(path)@ == rest
            &&& *final(pos) == old(path)@.last()
            &&& *final(direction) == (if rest.len() > 0 {
                dir_from_vec(rest.last()[0] - old(path)@.last()[0], rest.last()[1] - old(path)@.last()[1])
            } else {
                *old(direction)
            })
        },
        !(due && old(path)@.len() > 0) ==> {
            &&& final(path)@ == old(path)@
            &&& *final(pos) == *old(pos)
            &&& *final(direction) == (if !due && old(path)@.len() > 0 {
                dir_from_vec(old(path)@.last()[0] - old(pos)[0], old(path)@.last()[1] - old(pos)[1])
            } else {
                *old(direction)
            })
        },
{
    if due {
        match path.pop() {
            Some(next) => {
                *pos = next;
                let n = path.len();
                if n > 0 {
                    let nn = path[n - 1];
                    *direction = dir_toward(next, nn);
                }
                false
            },
            None => true,
        }
    } else {
        let n = path.len();
        if n > 0 {
            let next = path[n - 1];
            *direction = dir_toward(*pos, next);
        }
        false
    }
}

/// Adds every entry of `add` to the inventory.
fn add_all(inv: &mut Inventory, add: &CountableInventory)
    requires
        old(inv).wf(),
        add.wf(),
        forall|t: ItemType| count_of(old(inv)@, t) + count_of(add@, t) <= usize::MAX,
    ensures
        final(inv).wf(),
        final(inv)@ == merged(old(inv)@, add@),
{
    let ents = add.iter();
    let ghost a = add@;
    let ghost b0 = inv@;
    proof {
        lemma_entries_of_view(*add);
    }
    let mut i: usize = 0;
    while i < ents.len()
        invariant
            i <= ents@.len(),
            ents@ == add.entries(),
            a == add@,
            b0 == old(inv)@,
            sorted_entries(ents@),
            forall|k: int| 0 <= k < ents@.len() ==> #[trigger] a[ents@[k].0] == ents@[k].1,
            forall|t: ItemType| #[trigger] a.contains_key(t) <==> exists|k: int| 0 <= k < ents@.len() && ents@[k].0 == t,
            forall|t: ItemType| count_of(b0, t) + count_of(a, t) <= usize::MAX,
            inv.wf(),
            forall|t: ItemType| #[trigger] inv@.contains_key(t) <==> (b0.contains_key(t) || exists|k: int|
                0 <= k < i && ents@[k].0 == t),
            forall|t: ItemType| #[trigger] count_of(inv@, t) == count_of(b0, t) + if exists|k: int|
                0 <= k < i && ents@[k].0 == t {
                count_of(a, t)
            } else {
                0
            },
        decreases ents@.len() - i,
    {
        let (t, n) = ents[i];
        proof {
            assert(a.contains_key(t));
            assert(!(exists|k: int| 0 <= k < i && ents@[k].0 == t)) by {
                if exists|k: int| 0 <= k < i && ents@[k].0 == t {
                    let k = choose|k: int| 0 <= k < i && ents@[k].0 == t;
                    assert(crate::items::item_index(ents@[k].0) < crate::items::item_index(ents@[i as int].0));
                }
            }
            assert(count_of(inv@, t) == count_of(b0, t));
            assert(count_of(b0, t) + count_of(a, t) <= usize::MAX);
            assert(a[ents@[i as int].0] == ents@[i as int].1);
        }
        let ghost before = inv@;
        let e = inv.entry(t);
        *e = *e + n;
        proof {
            assert forall|t2: ItemType| #[trigger] inv@.contains_key(t2) <==> (b0.contains_key(t2) || exists|k: int|
                0 <= k < i + 1 && ents@[k].0 == t2) by {
                if t2 == t {
                    assert(0 <= i < i + 1 && ents@[i as int].0 == t2);
                }
                if exists|k: int| 0 <= k < i + 1 && ents@[k].0 == t2 {
                    let k = choose|k: int| 0 <= k < i + 1 && ents@[k].0 == t2;
                    if k < i {
                        assert(exists|k2: int| 0 <= k2 < i && ents@[k2].0 == t2);
                    }
                }
            }
            assert forall|t2: ItemType| #[trigger] count_of(inv@, t2) == count_of(b0, t2) + if exists|k: int|
                0 <= k < i + 1 && ents@[k].0 == t2 {
                count_of(a, t2)
            } else {
                0
            } by {
                if t2 == t {
                    assert(0 <= i < i + 1 && ents@[i as int].0 == t2);
                    assert(inv@ == before.insert(t, (count_of(before, t) + n) as usize));
                } else {
                    assert(count_of(inv@, t2) == count_of(before, t2));
                    if exists|k: int| 0 <= k < i + 1 && ents@[k].0 == t2 {
                        let k = choose|k: int| 0 <= k < i + 1 && ents@[k].0 == t2;
                        assert(k != i);
                        assert(exists|k2: int| 0 <= k2 < i && ents@[k2].0 == t2);
                    }
                    if exists|k: int| 0 <= k < i && ents@[k].0 == t2 {
                        let k = choose|k: int| 0 <= k < i && ents@[k].0 == t2;
                        assert(0 <= k < i + 1);
                    }
                }
            }
        }
        i = i + 1;
    }
    proof {
        assert forall|t: ItemType| #[trigger] inv@.contains_key(t) implies inv@[t] == merged(b0, a)[t] by {
            assert(count_of(inv@, t) == inv@[t]);
            if !(exists|k: int| 0 <= k < ents@.len() && ents@[k].0 == t) {
                assert(!a.contains_key(t));
            }
        }
        assert(inv@ =~= merged(b0, a));
    }
}

/// The sum of the counts, or `usize::MAX` when it is more.
fn total_capped(c: &CountableInventory) -> (r: usize)
    requires
        c.wf(),
    ensures
        r == (if c.total() <= usize::MAX { c.total() } else { usize::MAX as nat }),
{
    let ents = c.iter();
    proof {
        lemma_total_is_sum(*c);
    }
    let mut sum: usize = 0;
    let mut i: usize = 0;
    while i < ents.len()
        invariant
            i <= ents@.len(),
            ents@ == c.entries(),
            sum == (if entries_sum(ents@.take(i as int)) <= usize::MAX {
                entries_sum(ents@.take(i as int))
            } else {
                usize::MAX as nat
            }),
        decreases ents@.len() - i,
    {
        proof {
            assert(ents@.take(i + 1).drop_last() =~= ents@.take(i as int));
        }
        sum = sum.saturating_add(ents[i].1);
        i = i + 1;
    }
    proof {
        assert(ents@.take(i as int) =~= ents@);
    }
    sum
}

impl Building {
    /// Ends an assembly whose time is up: when the products fit, counting what the building
    /// already holds, below its capacity, they go into its inventory and it becomes idle.
    /// Tells whether the assembly ended.
    pub fn finish_assembly(&mut self) -> (r: bool)
        requires
            old(self).inventory.wf(),
            old(self).task matches BuildingTask::Assemble { outputs, .. } ==> outputs.wf(),
        ensures
            final(self).inventory.wf(),
            r == (old(self).task matches BuildingTask::Assemble { outputs, .. } && (outputs.total()
                + old(self).inventory.total() < spec_capacity(old(self).type_))),
            r ==> (old(self).task matches BuildingTask::Assemble { outputs, .. } && *final(self) == (Building {
                inventory: final(self).inventory,
                task: BuildingTask::Idle,
                ..*old(self)
            }) && final(self).inventory@ == merged(old(self).inventory@, outputs@)),
            !r ==> *final(self) == *old(self),
    {
        let outputs = match &self.task {
            BuildingTask::Assemble { outputs, .. } => outputs.clone(),
            _ => {
                return false;
            },
        };
        proof {
            if let BuildingTask::Assemble { outputs: o, .. } = old(self).task {
                lemma_total_is_sum(o);
                lemma_total_is_sum(outputs);
                assert(o.total() == outputs.total());
                assert(o@ == outputs@);
            }
            lemma_inventory_parts(self.inventory);
        }
        let a = total_capped(&outputs);
        let b = total_capped(self.inventory.countable());
        let cap = self.type_.capacity();
        if a >= cap || b >= cap || a + b >= cap {
            return false;
        }
        proof {
            lemma_inventory_parts(self.inventory);
            assert forall|t: ItemType| count_of(self.inventory@, t) + count_of(outputs@, t) <= usize::MAX by {
                crate::inventory::lemma_count_le_total(outputs, t);
                crate::inventory::lemma_count_le_total(self.inventory.spec_countable(), t);
            }
        }
        add_all(&mut self.inventory, &outputs);
        self.task = BuildingTask::Idle;
        true
    }
}

} // verus!
