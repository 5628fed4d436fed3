use asteroid_colonies_logic::building::BuildingType;
use asteroid_colonies_logic::construction::{get_build_menu, Construction, ConstructionType};
use asteroid_colonies_logic::conveyor::Conveyor;
use asteroid_colonies_logic::direction::Direction;
use asteroid_colonies_logic::entity::EntitySet;
use asteroid_colonies_logic::game::AsteroidColoniesGame;
use asteroid_colonies_logic::transport::Transport;
use asteroid_colonies_logic::items::ItemType;
use asteroid_colonies_logic::task::{BuildingTask, FloatBits};
use asteroid_colonies_logic::tile::{Tile, TileState, Tiles};

/// A terrain of space with an excavated patch `[0, 4) x [0, 4)` and a solid tile at `[5, 0]`.
fn terrain() -> Tiles {
    let mut tiles = Tiles::new();
    for y in 0..4 {
        for x in 0..4 {
            *tiles.index_mut([x, y]) = Tile::new_with_conveyor(Conveyor::Empty);
        }
    }
    let mut solid = Tile::new();
    solid.state = TileState::Solid;
    *tiles.index_mut([5, 0]) = solid;
    tiles
}

fn game() -> AsteroidColoniesGame {
    AsteroidColoniesGame::new(terrain()).unwrap()
}

#[test]
fn new_game_has_the_starting_colony() {
    let g = game();
    let b: Vec<(BuildingType, [i32; 2])> = g.iter_building().iter().map(|b| (b.type_, b.pos)).collect();
    assert_eq!(
        b,
        vec![
            (BuildingType::CrewCabin, [24, 52]),
            (BuildingType::Power, [26, 49]),
            (BuildingType::Battery, [25, 48]),
            (BuildingType::Battery, [26, 48]),
            (BuildingType::Excavator, [27, 49]),
            (BuildingType::Storage, [28, 49]),
            (BuildingType::MediumStorage, [29, 48]),
            (BuildingType::Assembler, [24, 55]),
            (BuildingType::Furnace, [24, 49]),
        ]
    );
    let stock = &g.iter_building()[6].inventory;
    assert_eq!(stock.get(&ItemType::ConveyorComponent), 20);
    assert_eq!(stock.get(&ItemType::PowerGridComponent), 2);
    assert_eq!(g.get_global_time(), 0);
    assert_eq!(g.get_power_ratio(), FloatBits(1.0f64.to_bits()));
    assert_eq!(g.iter_crew().len(), 0);
    assert_eq!(g.iter_construction().len(), 0);
    assert_eq!(g.num_transports(), 0);
    // the tiles under the buildings are building tiles
    assert_eq!(g.tile_at([24, 52]).state, TileState::Empty);
    assert!(g.tile_at([26, 49]).power_grid);
    // the excavated patch of the terrain is kept
    assert_eq!(g.tile_at([1, 1]).state, TileState::Empty);
}

#[test]
fn build_plans_a_site() {
    let mut g = game();
    assert!(g.build(1, 1, BuildingType::Storage).is_ok());
    let sites = g.iter_construction();
    assert_eq!(sites.len(), 1);
    assert_eq!(sites[0].pos(), [1, 1]);
    assert_eq!(sites[0].get_type(), ConstructionType::Building(BuildingType::Storage));
    assert!(!sites[0].canceling());
    assert_eq!(sites[0].progress(), 0);
}

#[test]
fn build_refusals() {
    let mut g = game();
    assert_eq!(g.build(1, 1, BuildingType::Storage), Ok(()));
    assert_eq!(
        g.build(1, 1, BuildingType::Storage),
        Err(String::from("The destination is already occupied by a construction plan"))
    );
    // a 2x2 building reaching into the other site
    assert_eq!(
        g.build(0, 0, BuildingType::Assembler),
        Err(String::from("The destination is already occupied by a construction plan"))
    );
    assert_eq!(g.build(60, 90, BuildingType::Storage), Err(String::from("You cannot build in space!")));
    assert_eq!(g.build(5, 0, BuildingType::Storage), Err(String::from("Needs excavation before building")));
    // a 2x2 building whose lower row is outside the excavated patch
    assert_eq!(g.build(2, 3, BuildingType::Assembler), Err(String::from("You cannot build in space!")));
    let e = g.build(24, 52, BuildingType::Storage).unwrap_err();
    assert!(e.starts_with("The destination is already occupied by a building ("), "{e}");
}

#[test]
fn deconstruct_leaves_a_canceling_site() {
    let mut g = game();
    assert_eq!(g.deconstruct(0, 0), Err(String::from("Building not found at given position")));
    assert_eq!(g.deconstruct(28, 49), Ok(()));
    assert_eq!(g.iter_building().len(), 8);
    let sites = g.iter_construction();
    assert_eq!(sites.len(), 1);
    assert!(sites[0].canceling());
    assert_eq!(sites[0].get_type(), ConstructionType::Building(BuildingType::Storage));
    assert_eq!(sites[0].progress(), sites[0].recipe().time);
}

#[test]
fn cancel_build_toggles_twice_back() {
    let mut g = game();
    g.build(1, 1, BuildingType::Storage).unwrap();
    g.cancel_build(1, 1);
    assert!(g.iter_construction()[0].canceling());
    g.cancel_build(1, 1);
    assert!(!g.iter_construction()[0].canceling());
}

#[test]
fn finished_site_becomes_a_building() {
    let mut g = game();
    g.build(1, 1, BuildingType::Storage).unwrap();
    let n = g.iter_building().len();
    {
        let sites = &mut g.constructions;
        let id = sites.items()[0].0;
        let site = sites.get_mut(id).unwrap();
        let time = site.recipe().time;
        site.set_progress(time);
    }
    g.process_constructions();
    assert_eq!(g.iter_construction().len(), 0);
    let b = g.iter_building();
    assert_eq!(b.len(), n + 1);
    assert!(b.iter().any(|b| b.pos == [1, 1] && b.type_ == BuildingType::Storage));
}

#[test]
fn conveyor_and_power_grid_deconstruction() {
    let mut g = game();
    assert_eq!(g.deconstruct_conveyor(500, 500), Err("Tile does not exist"));
    assert_eq!(g.deconstruct_power_grid(500, 500), Err("Tile does not exist"));
    assert_eq!(g.deconstruct_conveyor(1, 1), Err("Conveyor does not exist"));
    assert_eq!(g.deconstruct_power_grid(1, 1), Err("Power grid does not exist"));
    // the starting colony has a loop of powered conveyors
    let corner = [23 + 3, 45 + 5];
    assert!(g.tile_at(corner).conveyor.is_some());
    assert_eq!(g.deconstruct_conveyor(corner[0], corner[1]), Ok(()));
    assert!(g.tile_at(corner).conveyor.is_none());
    assert_eq!(g.iter_construction().len(), 1);
    assert!(g.iter_construction()[0].canceling());
    assert_eq!(g.deconstruct_power_grid(corner[0], corner[1]), Ok(()));
    assert!(!g.tile_at(corner).power_grid);
    assert_eq!(g.iter_construction().len(), 2);
}

#[test]
fn recipes_of_the_assembler() {
    let mut g = game();
    assert_eq!(g.get_recipes(-1, 0).err(), Some(String::from("Point outside tile")));
    assert_eq!(g.get_recipes(1, 1).err(), Some(String::from("The building does not exist at the target")));
    assert_eq!(g.get_recipes(24, 52).err(), Some(String::from("The building is not an assembler")));
    let list = g.get_recipes(25, 56).unwrap();
    assert_eq!(list.len(), 6);
    assert_eq!(list[1].outputs.iter(), vec![(ItemType::ConveyorComponent, 1)]);
    assert_eq!(list[1].time, 120);
    assert_eq!(g.set_recipe(24, 52, Some("Gear")), Err(String::from("The building is not an assembler")));
    assert_eq!(g.set_recipe(1, 1, None), Err(String::from("The building does not exist at the target")));
    assert_eq!(g.set_recipe(24, 55, Some("Gear")), Ok(()));
    let assembler = g.iter_building().into_iter().find(|b| b.type_ == BuildingType::Assembler).unwrap();
    let r = assembler.recipe.as_ref().unwrap();
    assert_eq!(r.outputs.iter(), vec![(ItemType::Gear, 2)]);
    assert_eq!(r.inputs.iter(), vec![(ItemType::IronIngot, 1)]);
    // an unknown name keeps the recipe
    assert_eq!(g.set_recipe(24, 55, Some("Nothing")), Ok(()));
    let assembler = g.iter_building().into_iter().find(|b| b.type_ == BuildingType::Assembler).unwrap();
    assert_eq!(assembler.recipe.as_ref().unwrap().outputs.iter(), vec![(ItemType::Gear, 2)]);
    assert_eq!(g.set_recipe(24, 55, None), Ok(()));
    let assembler = g.iter_building().into_iter().find(|b| b.type_ == BuildingType::Assembler).unwrap();
    assert!(assembler.recipe.is_none());
}

#[test]
fn move_building_refusals() {
    let mut g = game();
    assert_eq!(
        g.move_building([0, 0], [1, 1]),
        Err(String::from("Building does not exist at that position"))
    );
    assert_eq!(
        g.move_building([24, 52], [1, 1]),
        Err(String::from("Building at that position is not mobile"))
    );
    assert_eq!(g.move_building([27, 49], [1, 1]), Err(String::from("Failed to find the path")));
    assert_eq!(g.move_building([27, 49], [27, 49]), Err(String::from("Failed to find the path")));
}

#[test]
fn move_building_along_the_ring() {
    let mut g = game();
    assert_eq!(g.move_building([27, 49], [27, 50]), Ok(()));
    let excavator = g.iter_building().into_iter().find(|b| b.type_ == BuildingType::Excavator).unwrap();
    assert!(matches!(excavator.task, BuildingTask::Move(_, ref path) if path == &vec![[27, 50]]));
}

#[test]
fn move_item_refusals() {
    let mut g = game();
    assert_eq!(
        g.move_item([0, 0], [1, 1], ItemType::RawOre),
        Err(String::from("Moving an item needs a building at the source"))
    );
    assert_eq!(
        g.move_item([28, 49], [1, 1], ItemType::RawOre),
        Err(String::from("Moving item source does not have an item"))
    );
}

#[test]
fn build_menu_entries() {
    let menu = get_build_menu();
    assert_eq!(menu.len(), 5);
    assert_eq!(menu[0].type_, ConstructionType::Building(BuildingType::Storage));
    assert_eq!(menu[0].time, 100);
    assert_eq!(menu[0].ingredients.iter(), vec![(ItemType::IronIngot, 1), (ItemType::Cilicate, 5)]);
    assert!(menu.iter().any(|m| m.type_ == ConstructionType::Building(BuildingType::Excavator)));
    let conveyor = Construction::build_recipe();
    assert_eq!(conveyor.ingredients.iter(), vec![(ItemType::ConveyorComponent, 1)]);
    assert_eq!(conveyor.type_, ConstructionType::Conveyor(Conveyor::One(Direction::Left, Direction::Right)));
    assert_eq!(conveyor.time, 90);
}

#[test]
fn toggling_a_site_twice_restores_it() {
    let item = Construction::build_recipe();
    let mut c = Construction::new(&item, [3, 3]);
    c.toggle_cancel();
    assert!(c.canceling());
    c.toggle_cancel();
    assert!(!c.canceling());
    assert!(c.intersects([3, 3]));
    assert!(!c.intersects([5, 3]));
}

#[test]
fn finished_grid_and_conveyor_sites_lay_on_their_tiles() {
    let mut g = game();
    let belt = Conveyor::One(Direction::Left, Direction::Right);
    g.build_plan(vec![
        Construction::new_power_grid([1, 1], false),
        Construction::new_conveyor([2, 2], belt, false),
    ]);
    assert_eq!(g.iter_construction().len(), 2);
    for id in g.constructions.items().iter().map(|(id, _)| *id).collect::<Vec<_>>() {
        let site = g.constructions.get_mut(id).unwrap();
        let time = site.recipe().time;
        site.set_progress(time);
    }
    assert!(!g.tile_at([1, 1]).power_grid);
    g.process_constructions();
    assert_eq!(g.iter_construction().len(), 0);
    assert!(g.tile_at([1, 1]).power_grid);
    assert_eq!(g.tile_at([2, 2]).conveyor, belt);
    // a tile no site lays on stays as it was
    assert!(!g.tile_at([3, 3]).power_grid);
    assert_eq!(g.tile_at([3, 3]).conveyor, Conveyor::Empty);
}

#[test]
fn conveyor_plan_shows_staged_then_preview() {
    let mut g = game();
    g.conveyor_staged.push(([0, 0], Conveyor::One(Direction::Up, Direction::Down)));
    g.conveyor_staged.push(([1, 0], Conveyor::One(Direction::Left, Direction::Right)));
    g.conveyor_preview.push(([1, 0], Conveyor::One(Direction::Down, Direction::Up)));
    let plan = g.iter_conveyor_plan();
    assert_eq!(
        plan,
        vec![
            ([0, 0], Conveyor::One(Direction::Up, Direction::Down)),
            ([1, 0], Conveyor::One(Direction::Down, Direction::Up)),
        ]
    );
}

#[test]
fn uniformifying_keeps_every_tile() {
    let mut g = game();
    let spots: Vec<[i32; 2]> = vec![[0, 0], [3, 3], [5, 0], [6, 6], [26, 50], [24, 52], [200, 200]];
    let before: Vec<Tile> = spots.iter().map(|p| g.tile_at(*p)).collect();
    g.uniformify_tiles();
    for (p, t) in spots.iter().zip(before.iter()) {
        let now = g.tile_at(*p);
        assert_eq!(now.state, t.state);
        assert_eq!(now.conveyor, t.conveyor);
        assert_eq!(now.power_grid, t.power_grid);
    }
}

#[test]
fn starting_tiles_follow_the_layout() {
    let g = game();
    // the first tile of the conveyor loop takes the belt from its right and sends it down
    let first = g.tile_at([26, 50]);
    assert_eq!(first.conveyor, Conveyor::One(Direction::Right, Direction::Down));
    assert!(first.power_grid);
    assert_eq!(first.state, TileState::Empty);
    // the last one takes it from its right and sends it left
    let last = g.tile_at([27, 50]);
    assert_eq!(last.conveyor, Conveyor::One(Direction::Right, Direction::Left));
    // excavated ground around the colony, without power or conveyors
    let ground = g.tile_at([28, 52]);
    assert_eq!(ground.state, TileState::Empty);
    assert_eq!(ground.conveyor, Conveyor::Empty);
    assert!(!ground.power_grid);
    // outside the colony the terrain is untouched: space
    assert_eq!(g.tile_at([40, 40]).state, TileState::Space);
    assert!(!g.tile_at([40, 40]).power_grid);
}

#[test]
fn restoring_rebuilds_expected_transports() {
    let mut g = game();
    let buildings = std::mem::replace(&mut g.buildings, EntitySet::new());
    let mut transports = EntitySet::new();
    // the last tile of a way is where the transport stands: one stands on the storage at
    // [28, 49], one on no building, one has no way left
    let to_storage = transports.insert(Transport {
        src: [26, 50],
        dest: [28, 49],
        item: ItemType::RawOre,
        amount: 1,
        path: vec![[29, 52], [28, 49]],
    });
    transports.insert(Transport { src: [26, 50], dest: [1, 1], item: ItemType::RawOre, amount: 1, path: vec![[1, 1]] });
    transports.insert(Transport { src: [26, 50], dest: [28, 49], item: ItemType::RawOre, amount: 1, path: vec![] });
    g.restore(vec![], buildings, EntitySet::new(), EntitySet::new(), 7, transports, EntitySet::new());
    assert_eq!(g.get_global_time(), 7);
    assert_eq!(g.num_transports(), 3);
    for b in g.iter_building() {
        if b.pos == [28, 49] {
            assert_eq!(b.expected_transports, vec![to_storage]);
        } else {
            assert!(b.expected_transports.is_empty());
        }
    }
}

fn arrived_ore(src: [i32; 2], dest: [i32; 2]) -> Transport {
    Transport { src, dest, item: ItemType::RawOre, amount: 1, path: vec![dest] }
}

#[test]
fn an_arrived_transport_is_taken_in_by_a_storage() {
    let mut g = game();
    g.transports.insert(arrived_ore([27, 49], [28, 49]));
    g.process_transports();
    assert_eq!(g.num_transports(), 0);
    let storage = g.iter_building().into_iter().find(|b| b.type_ == BuildingType::Storage).unwrap();
    assert_eq!(storage.inventory.get(&ItemType::RawOre), 1);
}

#[test]
fn an_arrived_transport_with_no_way_back_stays() {
    let mut g = game();
    g.transports.insert(arrived_ore([2, 2], [1, 1]));
    g.process_transports();
    assert_eq!(g.num_transports(), 1);
    let t = g.iter_transport()[0].clone();
    assert_eq!(t.src, [2, 2]);
    assert_eq!(t.dest, [1, 1]);
    assert_eq!(t.path, vec![[1, 1]]);
}

#[test]
fn a_transport_under_way_moves_one_tile() {
    let mut g = game();
    g.transports.insert(Transport {
        src: [2, 2],
        dest: [0, 0],
        item: ItemType::RawOre,
        amount: 1,
        path: vec![[0, 0], [1, 0], [2, 0]],
    });
    g.process_transports();
    assert_eq!(g.iter_transport()[0].path, vec![[0, 0], [1, 0]]);
}
