//! Orders of the player that plan work: an excavation by crews, a power grid tile.
use vstd::prelude::*;

use crate::building::{Building, BuildingType};
use crate::construction::{Construction, ConstructionType};
use crate::crew::{crew_path, crew_path_ok};
use crate::entity::{slots_after_insert, EntityEntry, EntitySet};
use crate::game::{pos_of, AsteroidColoniesGame};
use crate::push_pull::occupant;
use crate::task::{whole_float_bits, whole_to_float_bits, FloatBits, GlobalTask, LABOR_EXCAVATE_TIME};
use crate::tile::TileState;
use crate::Pos;

verus! {

/// The building in this slot is a crew cabin from which a crew can walk to `p`.
pub open spec fn cabin_reaches(e: EntityEntry<Building>, tiles: crate::tile::Tiles, p: Pos) -> bool {
    &&& e.payload is Occupied
    &&& occupant(e).type_ == BuildingType::CrewCabin
    &&& exists|path: Seq<Pos>| #[trigger] crew_path_ok(tiles, occupant(e).pos, p, path)
}

impl AsteroidColoniesGame {
    /// Orders the excavation of the solid tile `[ix, iy]` by crews: a colony-wide task with
    /// the work of human labour. Some crew cabin must have a walking path there.
    pub fn excavate(&mut self, ix: i32, iy: i32) -> (r: Result<bool, String>)
        requires
            old(self).tiles.wf(),
            old(self).global_tasks.can_insert(),
        ensures
            (old(self).tiles.spec_tile_at([ix, iy]).state != TileState::Solid) <==> (r matches Err(e) && e@
                == "Already excavated"@),
            old(self).tiles.spec_tile_at([ix, iy]).state == TileState::Solid ==> (r is Ok || (r matches Err(e) && e@
                == "No crew cabin that can reach the position found"@)),
            r is Err ==> final(self).global_tasks == old(self).global_tasks,
            r is Ok ==> {
                &&& r == Ok::<bool, String>(true)
                &&& exists|j: int| 0 <= j < old(self).buildings.slots().len() && #[trigger] cabin_reaches(
                    old(self).buildings.slots()[j],
                    old(self).tiles,
                    pos_of(ix, iy),
                )
                &&& final(self).global_tasks.slots() == slots_after_insert(
                    old(self).global_tasks.slots(),
                    GlobalTask::Excavate(FloatBits(whole_float_bits(LABOR_EXCAVATE_TIME as nat) as u64), [ix, iy]),
                )
                &&& final(self).global_tasks.free_head() == old(self).global_tasks.free_head()
            },
            final(self).tiles == old(self).tiles,
            final(self).buildings == old(self).buildings,
            final(self).constructions == old(self).constructions,
            final(self).crews == old(self).crews,
            final(self).transports == old(self).transports,
    {
        let target: Pos = [ix, iy];
        assert(target == pos_of(ix, iy));
        if self.tiles.index(target).state != TileState::Solid {
            return Err(String::from_str("Already excavated"));
        }
        let n = self.buildings.num_slots();
        let mut j: usize = 0;
        let mut found = false;
        while j < n
            invariant
                n == self.buildings.slots().len(),
                j <= n,
                self.tiles.wf(),
                target == pos_of(ix, iy),
                found ==> exists|k: int| 0 <= k < n && #[trigger] cabin_reaches(self.buildings.slots()[k], self.tiles, target),
            decreases n - j,
        {
            match self.buildings.get_at(j) {
                Some(b) => {
                    if b.type_ == BuildingType::CrewCabin {
                        match crew_path(&self.tiles, b.pos, target) {
                            Some(path) => {
                                proof {
                                    assert(self.buildings.slots()[j as int].payload is Occupied);
                                    assert(crew_path_ok(self.tiles, b.pos, target, path@));
                                    assert(cabin_reaches(self.buildings.slots()[j as int], self.tiles, target));
                                }
                                found = true;
                                break;
                            },
                            None => {},
                        }
                    }
                },
                None => {},
            }
            j = j + 1;
        }
        if !found {
            proof {
                reveal_strlit("No crew cabin that can reach the position found");
                reveal_strlit("Already excavated");
                assert("No crew cabin that can reach the position found"@.len() != "Already excavated"@.len());
            }
            return Err(String::from_str("No crew cabin that can reach the position found"));
        }
        let t = FloatBits(whole_to_float_bits(LABOR_EXCAVATE_TIME));
        self.global_tasks.insert(GlobalTask::Excavate(t, target));
        Ok(true)
    }

    /// Orders a power grid on the excavated tile `[ix, iy]`, which must not have one yet: a
    /// site for it is planned.
    pub fn build_power_grid(&mut self, ix: i32, iy: i32) -> (r: Result<bool, String>)
        requires
            old(self).tiles.wf(),
            old(self).constructions.can_insert(),
        ensures
            ({
                let tile = old(self).tiles.spec_tile_at([ix, iy]);
                if tile.state == TileState::Solid {
                    r matches Err(e) && e@ == "Needs excavation before building power grid"@
                } else if tile.state == TileState::Space {
                    r matches Err(e) && e@ == "You cannot build power grid in space!"@
                } else if tile.power_grid {
                    r matches Err(e) && e@ == "Power grid is already installed in this tile"@
                } else {
                    r == Ok::<bool, String>(true)
                }
            }),
            r is Err ==> final(self).constructions == old(self).constructions,
            r is Ok ==> exists|c: Construction|
                #[trigger] slots_after_insert(old(self).constructions.slots(), c) == final(self).constructions.slots()
                    && c.spec_type() == ConstructionType::PowerGrid && c.spec_pos() == [ix, iy] && !c.spec_canceling()
                    && c.spec_progress() == 0 && c.spec_ingredients()@.dom().len() == 0,
            final(self).constructions.free_head() == old(self).constructions.free_head(),
            final(self).tiles == old(self).tiles,
            final(self).buildings == old(self).buildings,
            final(self).global_tasks == old(self).global_tasks,
    {
        let tile = self.tiles.index([ix, iy]);
        if tile.state == TileState::Solid {
            return Err(String::from_str("Needs excavation before building power grid"));
        }
        if tile.state == TileState::Space {
            return Err(String::from_str("You cannot build power grid in space!"));
        }
        if tile.power_grid {
            return Err(String::from_str("Power grid is already installed in this tile"));
        }
        let c = Construction::new_power_grid([ix, iy], false);
        self.constructions.insert(c);
        proof {
            assert(c.spec_ingredients()@.dom() =~= Set::<crate::items::ItemType>::empty());
        }
        Ok(true)
    }
}

} // verus!
