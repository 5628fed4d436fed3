use std::hash::Hasher;

use asteroid_colonies_logic::conveyor::Conveyor;
use asteroid_colonies_logic::direction::Direction;
use asteroid_colonies_logic::entity::{EntityId, EntitySet};
use asteroid_colonies_logic::heap::DistHeap;
use asteroid_colonies_logic::inventory::{CountableInventory, Inventory};
use asteroid_colonies_logic::items::ItemType;
use asteroid_colonies_logic::task::choose_direction;
use asteroid_colonies_logic::tile::{hash_tile, hash_tiles, Chunk, Position, Tile, TileState, Tiles};

fn fnv(bytes: &[u8]) -> u64 {
    let mut h = fnv::FnvHasher::default();
    h.write(bytes);
    h.finish()
}

#[test]
fn direction_vectors_and_reverse() {
    for d in Direction::all() {
        let v = d.to_vec();
        assert_eq!(Direction::from_vec(v), Some(d));
        let r = d.reverse();
        assert_eq!(r.to_vec(), [-v[0], -v[1]]);
        assert_eq!(r.reverse(), d);
    }
    assert_eq!(Direction::Left.to_vec(), [-1, 0]);
    assert_eq!(Direction::Down.to_vec(), [0, 1]);
    // the horizontal sign decides first
    assert_eq!(Direction::from_vec([1, 1]), Some(Direction::Right));
    assert_eq!(Direction::from_vec([-3, 7]), Some(Direction::Left));
    assert_eq!(Direction::from_vec([0, -9]), Some(Direction::Up));
    assert_eq!(Direction::from_vec([0, 0]), None);
}

#[test]
fn choose_direction_of_neighbours() {
    assert_eq!(choose_direction(&[3, 3], &[4, 3]), Some(Direction::Right));
    assert_eq!(choose_direction(&[3, 3], &[2, 3]), Some(Direction::Left));
    assert_eq!(choose_direction(&[3, 3], &[3, 4]), Some(Direction::Down));
    assert_eq!(choose_direction(&[3, 3], &[3, 2]), Some(Direction::Up));
    assert_eq!(choose_direction(&[3, 3], &[5, 3]), None);
    assert_eq!(choose_direction(&[3, 3], &[4, 4]), None);
    assert_eq!(choose_direction(&[i32::MAX, 0], &[i32::MIN, 0]), None);
}

#[test]
fn conveyor_ends() {
    let c = Conveyor::One(Direction::Left, Direction::Right);
    assert!(c.is_some());
    assert!(!c.is_none());
    assert_eq!(c.from(), Some(Direction::Left));
    assert_eq!(c.to(), Some(Direction::Right));
    assert!(c.has_from(Direction::Left));
    assert!(!c.has_from(Direction::Right));
    assert!(c.has_to(Direction::Right));
    assert!(c.has(Direction::Left) && c.has(Direction::Right) && !c.has(Direction::Up));
    assert!(!c.has_two());
    let x = Conveyor::Two((Direction::Up, Direction::Down), (Direction::Left, Direction::Right));
    assert!(x.has_two());
    assert!(x.has_from(Direction::Up) && x.has_from(Direction::Left));
    assert!(x.has_to(Direction::Down) && x.has_to(Direction::Right));
    assert!(Conveyor::Empty.is_none());
    assert_eq!(Conveyor::Empty.from(), None);
    assert_eq!(Conveyor::Empty.to(), None);
}

#[test]
fn conveyor_hash_bytes() {
    let mut out = vec![9u8];
    Conveyor::One(Direction::Up, Direction::Down).hash_bytes(&mut out);
    assert_eq!(out, vec![9, 1, 1, 3]);
    let mut out = Vec::new();
    Conveyor::Empty.hash_bytes(&mut out);
    Conveyor::Splitter(Direction::Right).hash_bytes(&mut out);
    Conveyor::Merger(Direction::Left).hash_bytes(&mut out);
    assert_eq!(out, vec![0, 3, 2, 4, 0]);
}

#[test]
fn heap_pops_least_distance_first() {
    let mut h: DistHeap<u8> = DistHeap::new();
    for (d, x) in [(5usize, 1u8), (1, 2), (3, 3), (1, 4), (0, 5)] {
        h.push(d, x);
    }
    assert_eq!(h.len(), 5);
    let mut dists = Vec::new();
    while let Some((d, _)) = h.pop() {
        dists.push(d);
    }
    assert_eq!(dists, vec![0, 1, 1, 3, 5]);
    assert_eq!(h.pop(), None);
}

#[test]
fn entity_ids_stay_valid_until_removed() {
    let mut set: EntitySet<u32> = EntitySet::new();
    let a = set.insert(10);
    let b = set.insert(20);
    assert_eq!(set.len(), 2);
    assert_eq!(set.get(a), Some(&10));
    assert_eq!(set.get(b), Some(&20));
    assert_eq!(set.remove(a), Some(10));
    assert_eq!(set.get(a), None);
    assert_eq!(set.len(), 1);
    // the freed slot is reused with a new generation; the stale id stays stale
    let c = set.insert(30);
    assert_eq!(c.get_index(), a.get_index());
    assert_ne!(c.get_generation(), a.get_generation());
    assert_eq!(set.get(a), None);
    assert_eq!(set.get(c), Some(&30));
    assert_eq!(set.remove(a), None);
    if let Some(x) = set.get_mut(b) {
        *x = 21;
    }
    assert_eq!(set.get(b), Some(&21));
    let all: Vec<u32> = set.iter().into_iter().copied().collect();
    assert_eq!(all, vec![30, 21]);
    let items = set.items();
    assert_eq!(items.len(), 2);
    assert_eq!(items[0].0, c);
    assert_eq!(items[1].0, b);
}

#[test]
fn entity_retain_keeps_matching() {
    let mut set = EntitySet::from_vec(vec![1u32, 2, 3, 4]);
    let ids: Vec<EntityId<u32>> = set.items().into_iter().map(|(id, _)| id).collect();
    set.retain(|x: &u32| *x % 2 == 0);
    assert_eq!(set.len(), 2);
    assert_eq!(set.get(ids[0]), None);
    assert_eq!(set.get(ids[1]), Some(&2));
    assert_eq!(set.get(ids[3]), Some(&4));
}

#[test]
fn inventories_count_items() {
    let mut inv = Inventory::new();
    assert!(inv.is_empty());
    assert_eq!(inv.insert(ItemType::Wire, 3), None);
    assert_eq!(inv.insert(ItemType::RawOre, 2), None);
    assert_eq!(inv.insert(ItemType::Wire, 4), Some(3));
    assert_eq!(inv.get(&ItemType::Wire), 4);
    assert_eq!(inv.get(&ItemType::Gear), 0);
    assert_eq!(inv.countable_size(), 6);
    // entries come in item order
    assert_eq!(inv.iter(), vec![(ItemType::RawOre, 2), (ItemType::Wire, 4)]);
    assert_eq!(inv.keys(), vec![ItemType::RawOre, ItemType::Wire]);
    *inv.entry(ItemType::Gear) += 5;
    assert_eq!(inv.get(&ItemType::Gear), 5);
    assert_eq!(inv.remove(&ItemType::RawOre), Some(2));
    assert_eq!(inv.remove(&ItemType::RawOre), None);
    assert_eq!(inv.iter(), vec![(ItemType::Gear, 5), (ItemType::Wire, 4)]);
    let from = Inventory::from_pairs(&[(ItemType::Circuit, 1), (ItemType::Circuit, 2)]);
    assert_eq!(from.get(&ItemType::Circuit), 2);
    let mut c = CountableInventory::new();
    c.insert(ItemType::Gear, 1);
    assert_eq!(c.get(&ItemType::Gear), Some(&1));
    assert_eq!(c.total_count(), 1);
}

#[test]
fn tiles_read_back_what_was_written() {
    let mut tiles = Tiles::new();
    assert_eq!(tiles.index([5, 5]).state, TileState::Space);
    *tiles.index_mut([5, 5]) = Tile::new_with_conveyor(Conveyor::Empty);
    assert_eq!(tiles.index([5, 5]).state, TileState::Empty);
    assert_eq!(tiles.index([6, 5]).state, TileState::Space);
    *tiles.index_mut([-40, 70]) = Tile::building();
    assert!(tiles.index([-40, 70]).power_grid);
    assert_eq!(tiles.index([5, 5]).state, TileState::Empty);
    assert_eq!(tiles.count_tiles(), 2 * 256);
}

#[test]
fn tile_hashes_are_fnv_of_their_bytes() {
    let space = Tile::new();
    assert_eq!(hash_tile(&space), fnv(&[2, 0, 0]));
    let belt = Tile::new_with_conveyor(Conveyor::One(Direction::Left, Direction::Right));
    assert_eq!(hash_tile(&belt), fnv(&[1, 0, 1, 0, 2]));
    assert_eq!(hash_tiles(&vec![space, belt]), fnv(&[2, 0, 0, 1, 0, 1, 0, 2]));
    let chunk = Chunk::new();
    assert_eq!(chunk.get_hash(), hash_tile(&space));
}

#[test]
fn uniformify_collapses_uniform_chunks() {
    let mut tiles = Tiles::new();
    *tiles.index_mut([1, 1]) = Tile::new_with_conveyor(Conveyor::Empty);
    *tiles.index_mut([1, 1]) = Tile::new();
    tiles.uniformify();
    // a chunk of nothing but space is dropped
    assert_eq!(tiles.count_tiles(), 0);
    assert_eq!(tiles.index([1, 1]).state, TileState::Space);
    let mut c = Chunk::Tiles(vec![Tile::building(); 256], 0);
    assert!(c.uniformify());
    assert!(matches!(c, Chunk::Uniform(_, _)));
    assert_eq!(c.get_hash(), hash_tile(&Tile::building()));
    let mut s = Chunk::new();
    assert!(!s.uniformify());
    let _ = Position::new(0, 0);
}

#[test]
fn building_type_names() {
    assert_eq!(asteroid_colonies_logic::building::BuildingType::Power.name(), "Power");
    assert_eq!(asteroid_colonies_logic::building::BuildingType::MediumStorage.name(), "MediumStorage");
    assert_eq!(asteroid_colonies_logic::building::BuildingType::CrewCabin.name(), "CrewCabin");
}
