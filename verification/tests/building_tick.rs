use asteroid_colonies_logic::building::{Building, BuildingType};
use asteroid_colonies_logic::building_tick::{float_bits_le_zero, smelt_output_of};
use asteroid_colonies_logic::construction::Construction;
use asteroid_colonies_logic::conveyor::Conveyor;
use asteroid_colonies_logic::crew::Crew;
use asteroid_colonies_logic::entity::{EntityId, EntitySet};
use asteroid_colonies_logic::inventory::Inventory;
use asteroid_colonies_logic::items::{recipes, ItemType};
use asteroid_colonies_logic::task::{whole_to_float_bits, BuildingTask, FloatBits, GlobalTask};
use asteroid_colonies_logic::tile::{Tile, Tiles};
use asteroid_colonies_logic::transport::Transport;
use asteroid_colonies_logic::Pos;

/// A board whose tiles in `[0, 6) x [0, 6)` are excavated.
fn open_tiles() -> Tiles {
    let mut tiles = Tiles::new();
    for y in 0..6 {
        for x in 0..6 {
            *tiles.index_mut([x, y]) = Tile::new_with_conveyor(Conveyor::Empty);
        }
    }
    tiles
}

struct World {
    tiles: Tiles,
    others: EntitySet<Building>,
    transports: EntitySet<Transport>,
    sites: EntitySet<Construction>,
    crews: EntitySet<Crew>,
    gtasks: EntitySet<GlobalTask>,
}

fn world() -> World {
    World {
        tiles: open_tiles(),
        others: EntitySet::new(),
        transports: EntitySet::new(),
        sites: EntitySet::new(),
        crews: EntitySet::new(),
        gtasks: EntitySet::new(),
    }
}

fn tick(w: &mut World, b: &mut Building, dice: u32) {
    let r = b.tick(
        EntityId::new(0, 0),
        &mut w.others,
        &w.tiles,
        &mut w.transports,
        &w.sites,
        &mut w.crews,
        &w.gtasks,
        dice,
    );
    assert!(r.is_ok());
}

fn inventory_of(pairs: &[(ItemType, usize)]) -> Inventory {
    let mut inv = Inventory::new();
    for (t, n) in pairs {
        inv.insert(*t, *n);
    }
    inv
}

#[test]
fn float_bits_of_whole_numbers() {
    for n in [0u32, 1, 2, 3, 30, 50, 70, 100, 120, 200, 12345, u32::MAX] {
        assert_eq!(whole_to_float_bits(n), (n as f64).to_bits());
    }
}

#[test]
fn float_bits_at_most_zero() {
    assert!(float_bits_le_zero(0.0f64.to_bits()));
    assert!(float_bits_le_zero((-0.0f64).to_bits()));
    assert!(float_bits_le_zero((-3.5f64).to_bits()));
    assert!(float_bits_le_zero(f64::NEG_INFINITY.to_bits()));
    assert!(!float_bits_le_zero(1.0f64.to_bits()));
    assert!(!float_bits_le_zero(f64::MIN_POSITIVE.to_bits()));
    assert!(!float_bits_le_zero(f64::NAN.to_bits()));
    assert!(!float_bits_le_zero((-f64::NAN).to_bits()));
}

#[test]
fn smelting_outputs_by_draw() {
    let expected = [
        ItemType::Cilicate,
        ItemType::Cilicate,
        ItemType::Cilicate,
        ItemType::Cilicate,
        ItemType::IronIngot,
        ItemType::IronIngot,
        ItemType::CopperIngot,
        ItemType::CopperIngot,
    ];
    for d in 0..16u32 {
        assert_eq!(smelt_output_of(d), expected[(d % 8) as usize]);
    }
}

#[test]
fn assembler_with_inputs_starts_assembling() {
    let mut w = world();
    let mut b = Building::new_inventory(
        [1, 1],
        BuildingType::Assembler,
        inventory_of(&[(ItemType::IronIngot, 3)]),
    );
    // iron ingot to gears
    let recipe = recipes()[2].clone();
    assert!(b.set_recipe(Some(&recipe)).is_ok());
    tick(&mut w, &mut b, 0);
    assert_eq!(b.inventory.get(&ItemType::IronIngot), 2);
    match &b.task {
        BuildingTask::Assemble { t, max_t, outputs } => {
            assert_eq!(*t, FloatBits(70.0f64.to_bits()));
            assert_eq!(*max_t, *t);
            assert_eq!(outputs.iter(), vec![(ItemType::Gear, 2)]);
        }
        other => panic!("unexpected task {other:?}"),
    }
    assert_eq!(w.transports.len(), 0);
}

#[test]
fn assembler_lacking_inputs_waits() {
    let mut w = world();
    let mut b = Building::new([1, 1], BuildingType::Assembler);
    let recipe = recipes()[2].clone();
    assert!(b.set_recipe(Some(&recipe)).is_ok());
    tick(&mut w, &mut b, 0);
    assert!(matches!(b.task, BuildingTask::Idle));
    assert!(b.inventory.is_empty());
}

#[test]
fn furnace_smelts_raw_ore() {
    for (dice, out) in [(0u32, ItemType::Cilicate), (5, ItemType::IronIngot), (6, ItemType::CopperIngot)] {
        let mut w = world();
        let mut b = Building::new_inventory(
            [1, 1],
            BuildingType::Furnace,
            inventory_of(&[(ItemType::RawOre, 2)]),
        );
        tick(&mut w, &mut b, dice);
        assert_eq!(b.inventory.get(&ItemType::RawOre), 1);
        match &b.task {
            BuildingTask::Assemble { t, max_t, outputs } => {
                assert_eq!(*t, FloatBits(30.0f64.to_bits()));
                assert_eq!(*max_t, *t);
                assert_eq!(outputs.iter(), vec![(out, 1)]);
            }
            other => panic!("unexpected task {other:?}"),
        }
    }
}

#[test]
fn furnace_without_ore_stays_idle() {
    let mut w = world();
    let mut b = Building::new([1, 1], BuildingType::Furnace);
    tick(&mut w, &mut b, 3);
    assert!(matches!(b.task, BuildingTask::Idle));
}

#[test]
fn cabin_sends_crew_to_excavate() {
    let mut w = world();
    let gpos: Pos = [4, 4];
    let gid = w.gtasks.insert(GlobalTask::Excavate(FloatBits(100.0f64.to_bits()), gpos));
    let mut b = Building::new([0, 0], BuildingType::CrewCabin);
    assert_eq!(b.crews, 4);
    tick(&mut w, &mut b, 0);
    assert_eq!(b.crews, 3);
    let crews = w.crews.iter();
    assert_eq!(crews.len(), 1);
    assert_eq!(crews[0].gt_id(), Some(gid));
}

#[test]
fn cabin_skips_finished_excavation() {
    let mut w = world();
    w.gtasks.insert(GlobalTask::Excavate(FloatBits(0.0f64.to_bits()), [4, 4]));
    let mut b = Building::new([0, 0], BuildingType::CrewCabin);
    tick(&mut w, &mut b, 0);
    assert_eq!(b.crews, 4);
    assert_eq!(w.crews.len(), 0);
}

#[test]
fn cabin_without_crews_does_nothing() {
    let mut w = world();
    w.gtasks.insert(GlobalTask::Excavate(FloatBits(100.0f64.to_bits()), [4, 4]));
    let mut b = Building::new([0, 0], BuildingType::CrewCabin);
    b.crews = 0;
    tick(&mut w, &mut b, 0);
    assert_eq!(w.crews.len(), 0);
}

#[test]
fn cabin_sends_builder_to_ready_site() {
    let mut w = world();
    let item = Construction::build_recipe();
    let mut site = Construction::new(&item, [3, 3]);
    for (t, n) in item.ingredients.iter() {
        site.inventory().insert(t, n);
    }
    w.sites.insert(site);
    let mut b = Building::new([0, 0], BuildingType::CrewCabin);
    tick(&mut w, &mut b, 0);
    assert_eq!(b.crews, 3);
    let crews = w.crews.iter();
    assert_eq!(crews.len(), 1);
    assert_eq!(crews[0].target(), Some([3, 3]));
}

#[test]
fn cabin_delivers_from_its_stock() {
    let mut w = world();
    let item = Construction::build_recipe();
    let (ty, _) = item.ingredients.iter()[0];
    w.sites.insert(Construction::new(&item, [3, 3]));
    let mut b = Building::new_inventory([0, 0], BuildingType::CrewCabin, inventory_of(&[(ty, 5)]));
    tick(&mut w, &mut b, 0);
    assert_eq!(b.crews, 3);
    assert_eq!(b.inventory.get(&ty), 4);
    assert_eq!(w.crews.len(), 1);
}
