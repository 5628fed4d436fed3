use asteroid_colonies_logic::building::{Building, BuildingType};
use asteroid_colonies_logic::construction::ConstructionType;
use asteroid_colonies_logic::conveyor::Conveyor::{self, Merger, One, Splitter};
use asteroid_colonies_logic::direction::Direction::{self, Down, Left, Right, Up};
use asteroid_colonies_logic::game::AsteroidColoniesGame;
use asteroid_colonies_logic::items::ItemType;
use asteroid_colonies_logic::power::power_totals_of;
use asteroid_colonies_logic::task::{BuildingTask, FloatBits, GlobalTask};
use asteroid_colonies_logic::task_steps::step_move;
use asteroid_colonies_logic::tile::{Tile, TileState, Tiles};
use asteroid_colonies_logic::inventory::{CountableInventory, Inventory};

/// Solid rock around the starting colony, an excavated patch `[0, 4) x [0, 4)` and a solid
/// tile at `[5, 0]`.
fn terrain() -> Tiles {
    let mut tiles = Tiles::new();
    let mut solid = Tile::new();
    solid.state = TileState::Solid;
    for y in 40..62 {
        for x in 14..40 {
            *tiles.index_mut([x, y]) = solid;
        }
    }
    for y in 0..4 {
        for x in 0..4 {
            *tiles.index_mut([x, y]) = Tile::new_with_conveyor(Conveyor::Empty);
        }
    }
    *tiles.index_mut([5, 0]) = solid;
    tiles
}

fn game() -> AsteroidColoniesGame {
    AsteroidColoniesGame::new(terrain()).unwrap()
}

/// A solid tile next to an excavated one of the starting colony.
fn solid_next_to_colony(g: &AsteroidColoniesGame) -> [i32; 2] {
    for y in 41..61 {
        for x in 15..39 {
            if g.tile_at([x, y]).state == TileState::Solid
                && Direction::all().iter().any(|d| {
                    let v = d.to_vec();
                    g.tile_at([x + v[0], y + v[1]]).state == TileState::Empty
                })
            {
                return [x, y];
            }
        }
    }
    panic!("no solid tile next to the colony")
}

/// One unit of digging work per tick, bringing one raw ore each time.
fn dig_one(t: FloatBits) -> Option<(FloatBits, usize)> {
    let left = f64::from_bits(t.0);
    if left <= 0.0 {
        None
    } else {
        Some((FloatBits((left - 1.0).max(0.0).to_bits()), 1))
    }
}

fn route_entries() -> Vec<([i32; 2], Conveyor)> {
    vec![
        ([0, 0], One(Up, Down)),
        ([0, 1], One(Up, Down)),
        ([0, 2], One(Up, Right)),
        ([1, 2], One(Left, Right)),
        ([2, 2], One(Left, Right)),
    ]
}

#[test]
fn preview_lays_a_route() {
    let mut g = game();
    assert_eq!(g.preview_build_conveyor(0, 0, 2, 2, true), Ok(()));
    assert_eq!(g.conveyor_preview, route_entries());
    assert!(g.conveyor_staged.is_empty());
    // a route back the other way
    assert_eq!(g.preview_build_conveyor(2, 2, 1, 0, true), Ok(()));
    assert_eq!(
        g.conveyor_preview,
        vec![([2, 2], One(Down, Up)), ([2, 1], One(Down, Up)), ([2, 0], One(Down, Left)), ([1, 0], One(Right, Left))]
    );
}

#[test]
fn staging_and_committing_a_route() {
    let mut g = game();
    assert_eq!(g.preview_build_conveyor(0, 0, 2, 2, false), Ok(()));
    assert!(g.conveyor_preview.is_empty());
    assert_eq!(g.conveyor_staged, route_entries());
    // a route across the staged one makes a crossing
    assert_eq!(g.preview_build_conveyor(1, 1, 1, 3, true), Ok(()));
    assert_eq!(
        g.conveyor_preview,
        vec![([1, 1], One(Up, Down)), ([1, 2], Conveyor::Two((Left, Right), (Up, Down))), ([1, 3], One(Up, Down))]
    );
    g.cancel_build_conveyor(true);
    assert!(g.conveyor_preview.is_empty());
    assert_eq!(g.conveyor_staged.len(), 5);
    g.build_splitter(1, 2);
    assert_eq!(g.conveyor_staged.last(), Some(&([1, 2], Splitter(Left))));
    assert_eq!(g.conveyor_staged.len(), 5);
    let sites = g.commit_build_conveyor();
    assert_eq!(sites.len(), 5);
    assert!(g.conveyor_staged.is_empty());
    assert_eq!(g.iter_construction().len(), 5);
    assert_eq!(sites[4].pos(), [1, 2]);
    assert_eq!(sites[4].get_type(), ConstructionType::Conveyor(Splitter(Left)));
    assert!(sites.iter().all(|s| !s.canceling() && s.progress() == 0));
    g.cancel_build_conveyor(false);
    assert!(g.conveyor_staged.is_empty());
}

#[test]
fn merger_keeps_the_belt_output() {
    let mut g = game();
    let corner = [26, 50];
    let to = g.tile_at(corner).conveyor.to().unwrap();
    g.build_merger(corner[0], corner[1]);
    assert_eq!(g.conveyor_staged, vec![(corner, Merger(to))]);
    g.build_merger(3, 3);
    assert_eq!(g.conveyor_staged[1], ([3, 3], Merger(Right)));
    g.build_splitter(3, 3);
    assert_eq!(g.conveyor_staged[1], ([3, 3], Splitter(Left)));
}

#[test]
fn excavation_orders() {
    let mut g = game();
    assert_eq!(g.excavate(1, 1), Err(String::from("Already excavated")));
    assert_eq!(g.excavate(5, 0), Err(String::from("No crew cabin that can reach the position found")));
    let target = solid_next_to_colony(&g);
    assert_eq!(g.excavate(target[0], target[1]), Ok(true));
    let tasks = g.iter_global_task();
    assert_eq!(tasks.len(), 1);
    match tasks[0] {
        GlobalTask::Excavate(t, p) => {
            assert_eq!(*p, target);
            assert_eq!(*t, FloatBits(100.0f64.to_bits()));
        }
        _ => panic!("not an excavation"),
    }
}

#[test]
fn power_grid_orders() {
    let mut g = game();
    assert_eq!(g.build_power_grid(5, 0), Err(String::from("Needs excavation before building power grid")));
    assert_eq!(g.build_power_grid(300, 300), Err(String::from("You cannot build power grid in space!")));
    assert_eq!(g.build_power_grid(26, 50), Err(String::from("Power grid is already installed in this tile")));
    assert_eq!(g.build_power_grid(1, 1), Ok(true));
    let sites = g.iter_construction();
    assert_eq!(sites.len(), 1);
    assert_eq!(sites[0].get_type(), ConstructionType::PowerGrid);
    assert_eq!(sites[0].pos(), [1, 1]);
}

#[test]
fn finished_global_tasks_are_cleared() {
    let mut g = game();
    g.global_tasks.insert(GlobalTask::Excavate(FloatBits(0.0f64.to_bits()), [5, 0]));
    let left = g.global_tasks.insert(GlobalTask::Excavate(FloatBits(50.0f64.to_bits()), [6, 0]));
    g.global_tasks.insert(GlobalTask::Cleanup([1, 1]));
    g.process_global_tasks();
    assert_eq!(g.tile_at([5, 0]).state, TileState::Empty);
    assert_eq!(g.iter_global_task().len(), 1);
    assert!(g.global_tasks.get(left).is_some());
}

#[test]
fn power_of_the_starting_colony() {
    let mut g = game();
    // batteries are full: nothing to charge, 500 each to discharge; the power plant makes
    // 250; the cabin, excavator, assembler and furnace take 140
    assert_eq!(power_totals_of(&g.buildings), (0, 1000, 250, 140));
    g.update_energy(-200, 0, 1000);
    let energies: Vec<Option<usize>> = g.iter_building().iter().map(|b| b.energy).collect();
    assert_eq!(energies[2], Some(9900));
    assert_eq!(energies[3], Some(9900));
    g.update_energy(300, 200, 0);
    let energies: Vec<Option<usize>> = g.iter_building().iter().map(|b| b.energy).collect();
    assert_eq!(energies[2], Some(10000));
    assert_eq!(energies[0], None);
}

#[test]
fn moving_one_step() {
    let mut path = vec![[3, 1], [2, 1]];
    let mut pos = [1, 1];
    let mut dir = None;
    assert!(!step_move(&mut path, &mut pos, &mut dir, false));
    assert_eq!((pos, dir), ([1, 1], Some(Right)));
    assert!(!step_move(&mut path, &mut pos, &mut dir, true));
    assert_eq!((pos, dir, path.len()), ([2, 1], Some(Right), 1));
    assert!(!step_move(&mut path, &mut pos, &mut dir, true));
    assert_eq!((pos, path.len()), ([3, 1], 0));
    assert!(step_move(&mut path, &mut pos, &mut dir, true));
}

#[test]
fn assembly_ends_when_products_fit() {
    let mut outputs = CountableInventory::new();
    outputs.insert(ItemType::Gear, 2);
    let mut b = Building::new([0, 0], BuildingType::Assembler);
    b.inventory.insert(ItemType::Gear, 1);
    b.task = BuildingTask::Assemble { t: FloatBits(0), max_t: FloatBits(0), outputs };
    assert!(b.finish_assembly());
    assert!(matches!(b.task, BuildingTask::Idle));
    assert_eq!(b.inventory.get(&ItemType::Gear), 3);
    // a full building waits
    let mut outputs = CountableInventory::new();
    outputs.insert(ItemType::Gear, 2);
    let mut full = Inventory::new();
    full.insert(ItemType::IronIngot, 39);
    let mut b = Building::new_inventory([0, 0], BuildingType::Assembler, full);
    b.task = BuildingTask::Assemble { t: FloatBits(0), max_t: FloatBits(0), outputs };
    assert!(!b.finish_assembly());
    assert!(matches!(b.task, BuildingTask::Assemble { .. }));
    assert!(!Building::new([0, 0], BuildingType::Storage).finish_assembly());
}

#[test]
fn a_round_of_building_ticks() {
    let mut g = game();
    let n = g.buildings.num_slots();
    let dice = vec![0u32; n];
    g.tick_buildings(&dice);
    assert_eq!(g.iter_building().len(), 9);
    assert_eq!(g.iter_crew().len(), 0);
}

#[test]
fn crews_walk_to_an_excavation_and_dig() {
    let mut g = game();
    let target = solid_next_to_colony(&g);
    assert_eq!(g.excavate(target[0], target[1]), Ok(true));
    let dice = vec![0u32; g.buildings.num_slots()];
    g.tick_buildings(&dice);
    assert_eq!(g.iter_crew().len(), 1);
    let start = g.iter_crew()[0].pos;
    let steps = g.iter_crew()[0].path.as_ref().unwrap().len();
    assert!(steps >= 3);
    // the way begins where the crew stands
    g.process_crews(dig_one);
    assert_eq!(g.iter_crew()[0].pos, start);
    assert_eq!(g.iter_crew()[0].path.as_ref().unwrap().len(), steps - 1);
    g.process_crews(dig_one);
    assert_ne!(g.iter_crew()[0].pos, start);
    for _ in 2..steps {
        g.process_crews(dig_one);
    }
    assert!(g.iter_crew()[0].path.is_none());
    // the work is still untouched: the crew has just arrived
    match g.iter_global_task()[0] {
        GlobalTask::Excavate(t, _) => assert_eq!(*t, FloatBits(100.0f64.to_bits())),
        _ => panic!("not an excavation"),
    }
    g.process_crews(dig_one);
    match g.iter_global_task()[0] {
        GlobalTask::Excavate(t, _) => assert_eq!(*t, FloatBits(99.0f64.to_bits())),
        _ => panic!("not an excavation"),
    }
    // with ore in hand the crew heads back to its cabin
    g.process_crews(dig_one);
    assert!(g.iter_crew()[0].path.is_some());
}

#[test]
fn a_smelting_furnace_takes_the_next_draw() {
    let mut g = game();
    let n = g.buildings.num_slots();
    let furnace = g.buildings.get_mut_at(8).unwrap();
    assert_eq!(furnace.type_, BuildingType::Furnace);
    furnace.inventory.insert(ItemType::RawOre, 1);
    let mut dice = vec![0u32; n];
    dice[0] = 6;
    let used = g.tick_buildings(&dice);
    assert_eq!(used, 1);
    let furnace = g.iter_building().into_iter().find(|b| b.type_ == BuildingType::Furnace).unwrap();
    assert!(
        matches!(&furnace.task, BuildingTask::Assemble { outputs, .. } if outputs.get(&ItemType::CopperIngot) == Some(&1))
    );
    assert_eq!(furnace.inventory.get(&ItemType::RawOre), 0);
}
