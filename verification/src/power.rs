//! The power balance of the colony: what buildings generate and demand, and how batteries
//! charge and drain.
use vstd::prelude::*;

use crate::building::{spec_energy_capacity, spec_power_gen, task_power, Building, BuildingType};
use crate::entity::{EntityEntry, EntitySet, EntryPayload};
use crate::game::AsteroidColoniesGame;
use crate::push_pull::occupant;

verus! {

/// What a building demands to charge: what a battery lacks to its capacity, at most 500.
pub open spec fn spec_charge(b: Building) -> int {
    if b.type_ == BuildingType::Battery {
        match b.energy {
            Some(e) => if 10000 - e < 500 { 10000 - e } else { 500 },
            None => 0,
        }
    } else {
        0
    }
}

/// What a building can provide from storage: a battery's energy, at most 500.
pub open spec fn spec_discharge(b: Building) -> int {
    if b.type_ == BuildingType::Battery {
        match b.energy {
            Some(e) => if e < 500 { e as int } else { 500 },
            None => 0,
        }
    } else {
        0
    }
}

/// What a building generates (positive) or consumes (negative).
pub open spec fn spec_gen(b: Building) -> int {
    spec_power_gen(b.type_) - task_power(b.task)
}

/// No battery of the slots holds more than its capacity.
pub open spec fn energies_ok(bs: Seq<EntityEntry<Building>>) -> bool {
    forall|i: int|
        0 <= i < bs.len() && #[trigger] bs[i].payload is Occupied ==> (occupant(bs[i]).type_ == BuildingType::Battery
            ==> (occupant(bs[i]).energy matches Some(e) ==> e <= 10000))
}

/// The power totals of the buildings of the slots: what can be charged, what can be
/// discharged, what is generated and what is demanded.
pub open spec fn power_totals(bs: Seq<EntityEntry<Building>>) -> (int, int, int, int)
    decreases bs.len(),
{
    if bs.len() == 0 {
        (0, 0, 0, 0)
    } else {
        let r = power_totals(bs.drop_last());
        match bs.last().payload {
            EntryPayload::Occupied(b) => {
                let g = spec_gen(b);
                (
                    r.0 + spec_charge(b),
                    r.1 + spec_discharge(b),
                    r.2 + (if g > 0 { g } else { 0 }),
                    r.3 + (if g < 0 { -g } else { 0 }),
                )
            },
            EntryPayload::Free(_) => r,
        }
    }
}

proof fn lemma_totals_bounds(bs: Seq<EntityEntry<Building>>)
    requires
        energies_ok(bs),
    ensures
        0 <= power_totals(bs).0 <= 500 * bs.len(),
        0 <= power_totals(bs).1 <= 500 * bs.len(),
        0 <= power_totals(bs).2 <= 500 * bs.len(),
        0 <= power_totals(bs).3 <= 500 * bs.len(),
    decreases bs.len(),
{
    if bs.len() > 0 {
        let t = bs.drop_last();
        assert forall|i: int| 0 <= i < t.len() && #[trigger] t[i].payload is Occupied implies (occupant(t[i]).type_
            == BuildingType::Battery ==> (occupant(t[i]).energy matches Some(e) ==> e <= 10000)) by {
            assert(t[i] == bs[i]);
        }
        lemma_totals_bounds(t);
        assert(bs.last() == bs[bs.len() - 1]);
    }
}

/// The energy a building is left with after a tick whose generation exceeds the demand by
/// `balance` (negative when short): when short, every battery gives up its share of the
/// shortfall in proportion to what it can discharge, down to empty; otherwise every battery
/// takes its share of the surplus in proportion to what it demands, up to its capacity.
pub open spec fn energy_after(b: Building, balance: int, chargeable: int, dischargeable: int) -> Option<usize> {
    if balance < 0 {
        if 0 < dischargeable {
            match b.energy {
                Some(e) => {
                    let drain = (-balance) * spec_discharge(b) / dischargeable;
                    Some(if drain >= e { 0 } else { (e - drain) as usize })
                },
                None => None,
            }
        } else {
            b.energy
        }
    } else if 0 < chargeable {
        match (b.energy, spec_energy_capacity(b.type_)) {
            (Some(e), Some(max)) => {
                let charge = balance * spec_charge(b) / chargeable;
                Some(if e + charge >= max { max } else { (e + charge) as usize })
            },
            _ => b.energy,
        }
    } else {
        b.energy
    }
}

/// The power a building demands to charge.
fn charge_of(b: &Building) -> (r: u64)
    requires
        b.type_ == BuildingType::Battery ==> (b.energy matches Some(e) ==> e <= 10000),
    ensures
        r == spec_charge(*b),
{
    let c = b.power_charge();
    c as u64
}

/// The power a building can provide from storage.
fn discharge_of(b: &Building) -> (r: u64)
    ensures
        r == spec_discharge(*b),
{
    let c = b.power_discharge();
    c as u64
}

/// The power totals of the buildings: what can be charged, what can be discharged, what is
/// generated and what is demanded.
pub fn power_totals_of(buildings: &EntitySet<Building>) -> (r: (i64, i64, i64, i64))
    requires
        buildings.slots().len() <= u32::MAX,
        energies_ok(buildings.slots()),
    ensures
        (r.0 as int, r.1 as int, r.2 as int, r.3 as int) == power_totals(buildings.slots()),
{
    let ghost s = buildings.slots();
    let n = buildings.num_slots();
    let mut acc: (i64, i64, i64, i64) = (0, 0, 0, 0);
    let mut i: usize = 0;
    while i < n
        invariant
            n == s.len(),
            s == buildings.slots(),
            n <= u32::MAX,
            i <= n,
            energies_ok(s),
            (acc.0 as int, acc.1 as int, acc.2 as int, acc.3 as int) == power_totals(s.take(i as int)),
        decreases n - i,
    {
        proof {
            let t = s.take(i as int);
            assert(s.take(i + 1).drop_last() =~= t);
            assert forall|k: int| 0 <= k < t.len() && #[trigger] t[k].payload is Occupied implies (occupant(t[k]).type_
                == BuildingType::Battery ==> (occupant(t[k]).energy matches Some(e) ==> e <= 10000)) by {
                assert(t[k] == s[k]);
            }
            lemma_totals_bounds(t);
        }
        match buildings.get_at(i) {
            Some(b) => {
                proof {
                    assert(s[i as int].payload is Occupied);
                }
                let g = b.power_gen() as i64;
                let c = charge_of(b) as i64;
                let d = discharge_of(b) as i64;
                acc = (
                    acc.0 + c,
                    acc.1 + d,
                    acc.2 + (if g > 0 { g } else { 0 }),
                    acc.3 + (if g < 0 { -g } else { 0 }),
                );
            },
            None => {},
        }
        i = i + 1;
    }
    proof {
        assert(s.take(i as int) =~= s);
    }
    acc
}

impl AsteroidColoniesGame {
    /// Charges or drains the batteries by the power balance of a tick (see `energy_after`),
    /// given the totals of what can be charged and discharged.
    pub fn update_energy(&mut self, balance: i64, chargeable: i64, dischargeable: i64)
        requires
            -18_446_744_073_709_551 <= balance <= 18_446_744_073_709_551,
            energies_ok(old(self).buildings.slots()),
        ensures
            final(self).buildings.slots().len() == old(self).buildings.slots().len(),
            forall|i: int|
                0 <= i < old(self).buildings.slots().len() ==> {
                    let e0 = old(self).buildings.slots()[i];
                    let e1 = #[trigger] final(self).buildings.slots()[i];
                    match e0.payload {
                        EntryPayload::Free(_) => e1 == e0,
                        EntryPayload::Occupied(b) => e1 == EntityEntry {
                            gen: e0.gen,
                            payload: EntryPayload::Occupied(
                                Building { energy: energy_after(b, balance as int, chargeable as int, dischargeable as int), ..b },
                            ),
                        },
                    }
                },
            final(self).buildings.free_head() == old(self).buildings.free_head(),
            final(self).tiles == old(self).tiles,
            final(self).crews == old(self).crews,
            final(self).transports == old(self).transports,
            final(self).constructions == old(self).constructions,
            final(self).global_tasks == old(self).global_tasks,
            final(self).global_time == old(self).global_time,
    {
        let ghost s = self.buildings.slots();
        let n = self.buildings.num_slots();
        let mut i: usize = 0;
        while i < n
            invariant
                n == s.len(),
                s == old(self).buildings.slots(),
                i <= n,
                -18_446_744_073_709_551 <= balance <= 18_446_744_073_709_551,
                energies_ok(s),
                self.buildings.slots().len() == n,
                self.buildings.free_head() == old(self).buildings.free_head(),
                self.tiles == old(self).tiles,
                self.crews == old(self).crews,
                self.transports == old(self).transports,
                self.constructions == old(self).constructions,
                self.global_tasks == old(self).global_tasks,
                self.global_time == old(self).global_time,
                forall|k: int| i <= k < n ==> #[trigger] self.buildings.slots()[k] == s[k],
                forall|k: int|
                    0 <= k < i ==> {
                        let e0 = s[k];
                        let e1 = #[trigger] self.buildings.slots()[k];
                        match e0.payload {
                            EntryPayload::Free(_) => e1 == e0,
                            EntryPayload::Occupied(b) => e1 == EntityEntry {
                                gen: e0.gen,
                                payload: EntryPayload::Occupied(
                                    Building {
                                        energy: energy_after(b, balance as int, chargeable as int, dischargeable as int),
                                        ..b
                                    },
                                ),
                            },
                        }
                    },
            decreases n - i,
        {
            let ghost before = self.buildings.slots();
            match self.buildings.get_mut_at(i) {
                Some(b) => {
                    proof {
                        assert(s[i as int].payload is Occupied);
                    }
                    let ghost b0 = *b;
                    let cap = discharge_of(b);
                    let max_charge = charge_of(b);
                    let max_energy = b.type_.energy_capacity();
                    if balance < 0 {
                        if 0 < dischargeable {
                            match b.energy {
                                Some(e) => {
                                    let drain_total = (-balance) as u64;
                                    assert(drain_total * cap <= 18_446_744_073_709_551 * 500) by (nonlinear_arith)
                                        requires
                                            drain_total <= 18_446_744_073_709_551,
                                            cap <= 500,
                                    ;
                                    let drain = drain_total * cap / (dischargeable as u64);
                                    let d64 = e as u64;
                                    b.energy = Some(if drain >= d64 { 0 } else { (d64 - drain) as usize });
                                },
                                None => {},
                            }
                        }
                    } else if 0 < chargeable {
                        match (b.energy, max_energy) {
                            (Some(e), Some(max)) => {
                                let bal = balance as u64;
                                assert(bal * max_charge <= 18_446_744_073_709_551 * 500) by (nonlinear_arith)
                                    requires
                                        bal <= 18_446_744_073_709_551,
                                        max_charge <= 500,
                                ;
                                let prod = bal * max_charge;
                                let ch = chargeable as u64;
                                let charge = prod / ch;
                                proof {
                                    assert(charge <= prod) by (nonlinear_arith)
                                        requires
                                            ch > 0,
                                            charge == prod / ch,
                                    ;
                                }
                                let sum = (e as u64) + charge;
                                b.energy = Some(if sum >= max as u64 { max } else { sum as usize });
                            },
                            _ => {},
                        }
                    }
                    proof {
                        assert(b0 == occupant(s[i as int]));
                    }
                },
                None => {},
            }
            i = i + 1;
        }
    }
}

} // verus!
