use asteroid_colonies_logic::building::{Building, BuildingType};
use asteroid_colonies_logic::conveyor::Conveyor::{One, Two};
use asteroid_colonies_logic::direction::Direction::{Down, Left, Right, Up};
use asteroid_colonies_logic::entity::EntitySet;
use asteroid_colonies_logic::inventory::{CountableInventory, Inventory};
use asteroid_colonies_logic::items::ItemType;
use asteroid_colonies_logic::push_pull::{pull_inputs, push_outputs, send_item};
use asteroid_colonies_logic::tile::{Tile, Tiles};
use asteroid_colonies_logic::transport::{Transport, TransportId};
use asteroid_colonies_logic::Pos;

/// A loop of conveyors around [1, 1], running counterclockwise as seen from the top left.
fn mock_tiles() -> Tiles {
    let mut tiles = Tiles::new();
    let board = [
        ([0, 0], One(Right, Down)),
        ([0, 1], One(Up, Down)),
        ([0, 2], One(Up, Right)),
        ([1, 2], One(Left, Right)),
        ([2, 2], One(Left, Up)),
        ([2, 1], One(Down, Up)),
        ([2, 0], One(Down, Left)),
        ([1, 0], One(Right, Left)),
    ];
    for (pos, conv) in board {
        *tiles.index_mut(pos) = Tile::new_with_conveyor(conv);
    }
    tiles
}

/// A board with a conveyor crossing at [2, 2].
fn mock_tiles2() -> Tiles {
    let mut tiles = Tiles::new();
    let board = [
        ([0, 0], One(Right, Down)),
        ([0, 1], One(Up, Down)),
        ([0, 2], One(Up, Down)),
        ([0, 3], One(Up, Right)),
        ([1, 3], One(Left, Right)),
        ([2, 3], One(Left, Up)),
        ([2, 2], Two((Down, Up), (Left, Right))),
        ([2, 1], One(Down, Left)),
        ([1, 1], One(Right, Down)),
        ([1, 2], One(Up, Right)),
        ([3, 2], One(Left, Up)),
        ([3, 1], One(Down, Up)),
        ([3, 0], One(Down, Left)),
        ([2, 0], One(Right, Left)),
        ([1, 0], One(Right, Left)),
    ];
    for (pos, conv) in board {
        *tiles.index_mut(pos) = Tile::new_with_conveyor(conv);
    }
    tiles
}

fn raw_ore_inputs() -> CountableInventory {
    let mut inputs = CountableInventory::new();
    inputs.insert(ItemType::RawOre, 1);
    inputs
}

fn raw_ore_inventory() -> Inventory {
    let mut inv = Inventory::new();
    inv.insert(ItemType::RawOre, 1);
    inv
}

fn only_transport(transports: &EntitySet<Transport>) -> Transport {
    let all = transports.iter();
    assert_eq!(all.len(), 1);
    all[0].clone()
}

fn assert_transport(t: &Transport, src: Pos, dest: Pos, item: ItemType, amount: usize, path: Vec<Pos>) {
    assert_eq!(t.src, src);
    assert_eq!(t.dest, dest);
    assert_eq!(t.item, item);
    assert_eq!(t.amount, amount);
    assert_eq!(t.path, path);
}

fn pull_from_storage(tiles: &Tiles, this_pos: Pos) -> (EntitySet<Transport>, EntitySet<Building>, Vec<TransportId>) {
    let inputs = raw_ore_inputs();
    let mut storage = EntitySet::from_vec(vec![Building::new_inventory(
        [1, -1],
        BuildingType::Storage,
        raw_ore_inventory(),
    )]);
    let mut transports = EntitySet::new();
    let mut expected = Vec::new();
    pull_inputs(
        &inputs,
        tiles,
        &mut transports,
        &mut expected,
        this_pos,
        [1, 1],
        &mut Inventory::new(),
        &mut storage,
    );
    (transports, storage, expected)
}

#[test]
fn tests_test_pull_inputs() {
    let (transports, _, _) = pull_from_storage(&mock_tiles(), [1, 3]);
    let t = only_transport(&transports);
    assert_transport(
        &t,
        [1, -1],
        [1, 3],
        ItemType::RawOre,
        1,
        vec![[1, 3], [1, 2], [0, 2], [0, 1], [0, 0], [1, 0], [1, -1]],
    );
}

#[test]
fn building_test_pull_inputs() {
    let (transports, _, _) = pull_from_storage(&mock_tiles(), [1, 3]);
    let t = only_transport(&transports);
    assert_transport(
        &t,
        [1, -1],
        [1, 3],
        ItemType::RawOre,
        1,
        vec![[1, 3], [1, 2], [0, 2], [0, 1], [0, 0], [1, 0], [1, -1]],
    );
}

#[test]
fn tests_test_push_outputs() {
    let mut storage = EntitySet::from_vec(vec![Building::new([1, -1], BuildingType::Storage)]);
    let mut transports = EntitySet::new();
    let mut outputs = raw_ore_inventory();
    push_outputs(&mock_tiles(), &mut transports, [1, 3], [1, 1], &mut outputs, &mut storage, &|_| true);
    let t = only_transport(&transports);
    assert_transport(
        &t,
        [1, 3],
        [1, -1],
        ItemType::RawOre,
        1,
        vec![[1, -1], [1, 0], [2, 0], [2, 1], [2, 2], [1, 2], [1, 3]],
    );
}

#[test]
fn test_pull_inputs2() {
    let (transports, _, _) = pull_from_storage(&mock_tiles2(), [1, 4]);
    let t = only_transport(&transports);
    assert_transport(
        &t,
        [1, -1],
        [1, 4],
        ItemType::RawOre,
        1,
        vec![[1, 4], [1, 3], [0, 3], [0, 2], [0, 1], [0, 0], [1, 0], [1, -1]],
    );
}

#[test]
fn test_push_outputs2() {
    let mut storage = EntitySet::from_vec(vec![Building::new([1, -1], BuildingType::Storage)]);
    let mut transports = EntitySet::new();
    let mut outputs = raw_ore_inventory();
    push_outputs(&mock_tiles2(), &mut transports, [1, 4], [1, 1], &mut outputs, &mut storage, &|_| true);
    let t = only_transport(&transports);
    assert_transport(
        &t,
        [1, 4],
        [1, -1],
        ItemType::RawOre,
        1,
        vec![
            [1, -1],
            [1, 0],
            [2, 0],
            [3, 0],
            [3, 1],
            [3, 2],
            [2, 2],
            [1, 2],
            [1, 1],
            [2, 1],
            [2, 2],
            [2, 3],
            [1, 3],
            [1, 4],
        ],
    );
}

#[test]
fn pull_takes_from_the_source_and_expects_the_transport() {
    let (transports, storage, expected) = pull_from_storage(&mock_tiles(), [1, 3]);
    assert_eq!(expected.len(), 1);
    assert!(transports.get(expected[0]).is_some());
    let b = storage.iter();
    assert!(b[0].inventory.is_empty());
}

#[test]
fn pull_does_nothing_without_a_path() {
    let (transports, storage, expected) = pull_from_storage(&Tiles::new(), [1, 3]);
    assert_eq!(transports.len(), 0);
    assert!(expected.is_empty());
    assert_eq!(storage.iter()[0].inventory.get(&ItemType::RawOre), 1);
}

#[test]
fn pull_skips_items_already_held() {
    let inputs = raw_ore_inputs();
    let mut storage = EntitySet::from_vec(vec![Building::new_inventory(
        [1, -1],
        BuildingType::Storage,
        raw_ore_inventory(),
    )]);
    let mut transports = EntitySet::new();
    let mut expected = Vec::new();
    let mut have = raw_ore_inventory();
    pull_inputs(
        &inputs,
        &mock_tiles(),
        &mut transports,
        &mut expected,
        [1, 3],
        [1, 1],
        &mut have,
        &mut storage,
    );
    assert_eq!(transports.len(), 0);
    assert_eq!(storage.iter()[0].inventory.get(&ItemType::RawOre), 1);
}

#[test]
fn pull_takes_only_what_is_lacking() {
    let mut inputs = CountableInventory::new();
    inputs.insert(ItemType::RawOre, 2);
    let mut src = Inventory::new();
    src.insert(ItemType::RawOre, 5);
    let mut storage = EntitySet::from_vec(vec![Building::new_inventory([1, -1], BuildingType::Storage, src)]);
    let mut transports = EntitySet::new();
    let mut expected = Vec::new();
    pull_inputs(
        &inputs,
        &mock_tiles(),
        &mut transports,
        &mut expected,
        [1, 3],
        [1, 1],
        &mut Inventory::new(),
        &mut storage,
    );
    let t = only_transport(&transports);
    assert_eq!(t.amount, 2);
    assert_eq!(storage.iter()[0].inventory.get(&ItemType::RawOre), 3);
}

#[test]
fn push_moves_one_item_and_expects_it_at_the_storage() {
    let mut storage = EntitySet::from_vec(vec![Building::new([1, -1], BuildingType::Storage)]);
    let mut transports = EntitySet::new();
    let mut outputs = Inventory::new();
    outputs.insert(ItemType::IronIngot, 3);
    push_outputs(&mock_tiles(), &mut transports, [1, 3], [1, 1], &mut outputs, &mut storage, &|_| true);
    assert_eq!(outputs.get(&ItemType::IronIngot), 2);
    assert_eq!(storage.iter()[0].expected_transports.len(), 1);
}

#[test]
fn push_ignores_items_that_are_not_outputs() {
    let mut storage = EntitySet::from_vec(vec![Building::new([1, -1], BuildingType::Storage)]);
    let mut transports = EntitySet::new();
    let mut outputs = raw_ore_inventory();
    push_outputs(&mock_tiles(), &mut transports, [1, 3], [1, 1], &mut outputs, &mut storage, &|t| t != ItemType::RawOre);
    assert_eq!(transports.len(), 0);
    assert_eq!(outputs.get(&ItemType::RawOre), 1);
}

#[test]
fn push_skips_buildings_that_do_not_store() {
    let mut storage = EntitySet::from_vec(vec![Building::new([1, -1], BuildingType::Excavator)]);
    let mut transports = EntitySet::new();
    let mut outputs = raw_ore_inventory();
    push_outputs(&mock_tiles(), &mut transports, [1, 3], [1, 1], &mut outputs, &mut storage, &|_| true);
    assert_eq!(transports.len(), 0);
}

#[test]
fn send_item_reports_each_failure() {
    let tiles = mock_tiles();
    let mut transports = EntitySet::new();
    let mut inv = raw_ore_inventory();
    let mut none: EntitySet<Building> = EntitySet::new();
    let r = send_item(&tiles, &mut transports, [1, 3], [1, 1], &mut inv, [1, -1], &mut none, &|_| true);
    assert_eq!(r, Err("Destination did not have a building".to_string()));

    let mut full = Inventory::new();
    full.insert(ItemType::RawOre, 20);
    let mut storage = EntitySet::from_vec(vec![Building::new_inventory([1, -1], BuildingType::Storage, full)]);
    let r = send_item(&tiles, &mut transports, [1, 3], [1, 1], &mut inv, [1, -1], &mut storage, &|_| true);
    assert_eq!(r, Err("Destination capacity is full".to_string()));

    let mut storage = EntitySet::from_vec(vec![Building::new([1, -1], BuildingType::Storage)]);
    let r = send_item(&Tiles::new(), &mut transports, [1, 3], [1, 1], &mut inv, [1, -1], &mut storage, &|_| true);
    assert_eq!(r, Err("Could not find a path from source to dest".to_string()));

    let r = send_item(&tiles, &mut transports, [1, 3], [1, 1], &mut inv, [1, -1], &mut storage, &|_| false);
    assert_eq!(r, Err("The designated item was not found".to_string()));
    assert_eq!(transports.len(), 0);
    assert_eq!(inv.get(&ItemType::RawOre), 1);
}

#[test]
fn send_item_sends_one_item() {
    let tiles = mock_tiles();
    let mut transports = EntitySet::new();
    let mut inv = raw_ore_inventory();
    let mut storage = EntitySet::from_vec(vec![Building::new([1, -1], BuildingType::Storage)]);
    let r = send_item(&tiles, &mut transports, [1, 3], [1, 1], &mut inv, [1, -1], &mut storage, &|_| true);
    assert_eq!(r, Ok(()));
    let t = only_transport(&transports);
    assert_eq!(t.src, [1, 3]);
    assert_eq!(t.dest, [1, -1]);
    assert_eq!(t.path.first(), Some(&[1, -1]));
    assert_eq!(t.path.last(), Some(&[1, 3]));
    assert!(inv.is_empty());
}
