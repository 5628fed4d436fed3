//! Tiles of the asteroid map, stored in square chunks that are allocated on demand and
//! compressed when uniform.
use vstd::prelude::*;

use crate::conveyor::{conv_bytes, Conveyor};
use crate::hash::{fnv1a, fnv_hash};
use crate::Pos;
use vstd::std_specs::cmp::PartialEqSpecImpl;

verus! {

/// The side length of a chunk, in tiles.
pub const CHUNK_SIZE: usize = 16;

/// The number of tiles in a chunk.
pub const CHUNK_TILES: usize = 256;

/// What a tile is made of.
#[derive(Clone, Copy, Debug, PartialEq, Eq, Hash, Structural)]
pub enum TileState {
    Solid,
    Empty,
    Space,
}

/// The byte a tile state contributes to a hash.
pub open spec fn state_byte(s: TileState) -> u8 {
    match s {
        TileState::Solid => 0,
        TileState::Empty => 1,
        TileState::Space => 2,
    }
}

/// A tile of the map. The image indices are a rendering cache and take no part in equality
/// or hashing.
#[derive(Clone, Copy, Debug)]
pub struct Tile {
    pub state: TileState,
    pub power_grid: bool,
    pub conveyor: Conveyor,
    /// Indices into the background image, for quick rendering.
    pub image_lt: u8,
    pub image_lb: u8,
    pub image_rb: u8,
    pub image_rt: u8,
}

/// Tiles are equal when their state, power grid and conveyor are.
pub open spec fn tile_eq(a: Tile, b: Tile) -> bool {
    a.state == b.state && a.power_grid == b.power_grid && a.conveyor == b.conveyor
}

impl PartialEq for Tile {
    fn eq(&self, other: &Self) -> (r: bool) {
        self.state == other.state && self.power_grid == other.power_grid && self.conveyor
            == other.conveyor
    }
}

impl PartialEqSpecImpl for Tile {
    open spec fn obeys_eq_spec() -> bool {
        true
    }

    open spec fn eq_spec(&self, other: &Self) -> bool {
        tile_eq(*self, *other)
    }
}

impl Eq for Tile {

}

/// The empty space tile that fills every place no chunk covers.
pub open spec fn space_tile() -> Tile {
    Tile {
        state: TileState::Space,
        power_grid: false,
        conveyor: Conveyor::Empty,
        image_lt: 0,
        image_lb: 0,
        image_rb: 0,
        image_rt: 0,
    }
}

/// The bytes a tile contributes to a hash: its state, its power grid flag, its conveyor.
pub open spec fn tile_bytes(t: Tile) -> Seq<u8> {
    seq![state_byte(t.state), if t.power_grid { 1u8 } else { 0u8 }] + conv_bytes(t.conveyor)
}

/// The bytes a sequence of tiles contributes to a hash, tile after tile.
pub open spec fn tiles_bytes(v: Seq<Tile>) -> Seq<u8>
    decreases v.len(),
{
    if v.len() == 0 {
        Seq::empty()
    } else {
        tiles_bytes(v.drop_last()) + tile_bytes(v.last())
    }
}

impl Tile {
    /// A space tile.
    pub fn new() -> (r: Self)
        ensures
            r == space_tile(),
    {
        Tile {
            state: TileState::Space,
            power_grid: false,
            conveyor: Conveyor::Empty,
            image_lt: 0,
            image_lb: 0,
            image_rb: 0,
            image_rt: 0,
        }
    }

    /// An excavated tile carrying a conveyor.
    pub fn new_with_conveyor(conveyor: Conveyor) -> (r: Self)
        ensures
            r == (Tile {
                state: TileState::Empty,
                power_grid: false,
                conveyor,
                image_lt: 0,
                image_lb: 0,
                image_rb: 0,
                image_rt: 0,
            }),
    {
        Tile {
            state: TileState::Empty,
            power_grid: false,
            conveyor,
            image_lt: 0,
            image_lb: 0,
            image_rb: 0,
            image_rt: 0,
        }
    }

    /// The tile under a building: excavated, on the power grid.
    pub fn building() -> (r: Self)
        ensures
            r == (Tile {
                state: TileState::Empty,
                power_grid: true,
                conveyor: Conveyor::Empty,
                image_lt: 8,
                image_lb: 8,
                image_rb: 8,
                image_rt: 8,
            }),
    {
        Tile {
            state: TileState::Empty,
            power_grid: true,
            conveyor: Conveyor::Empty,
            image_lt: 8,
            image_lb: 8,
            image_rb: 8,
            image_rt: 8,
        }
    }

    /// Appends the bytes this tile contributes to a hash.
    pub fn hash_bytes(&self, out: &mut Vec<u8>)
        ensures
            final(out)@ == old(out)@ + tile_bytes(*self),
    {
        let s: u8 = match self.state {
            TileState::Solid => 0,
            TileState::Empty => 1,
            TileState::Space => 2,
        };
        out.push(s);
        out.push(if self.power_grid { 1 } else { 0 });
        let ghost mid = out@;
        self.conveyor.hash_bytes(out);
        proof {
            assert(final(out)@ =~= old(out)@ + tile_bytes(*self));
        }
    }
}

/// The FNV-1a hash of a single tile.
pub fn hash_tile(t: &Tile) -> (h: u64)
    ensures
        h == fnv1a(tile_bytes(*t)),
{
    let mut bytes: Vec<u8> = Vec::new();
    t.hash_bytes(&mut bytes);
    proof {
        assert(bytes@ =~= tile_bytes(*t));
    }
    fnv_hash(bytes.as_slice())
}

/// The FNV-1a hash of a sequence of tiles, hashed one after the other.
pub fn hash_tiles(tiles: &Vec<Tile>) -> (h: u64)
    ensures
        h == fnv1a(tiles_bytes(tiles@)),
{
    let mut bytes: Vec<u8> = Vec::new();
    let mut i: usize = 0;
    while i < tiles.len()
        invariant
            i <= tiles@.len(),
            bytes@ == tiles_bytes(tiles@.take(i as int)),
        decreases tiles@.len() - i,
    {
        proof {
            assert(tiles@.take(i + 1).drop_last() =~= tiles@.take(i as int));
        }
        tiles[i].hash_bytes(&mut bytes);
        i = i + 1;
    }
    proof {
        assert(tiles@.take(i as int) =~= tiles@);
    }
    fnv_hash(bytes.as_slice())
}

/// A chunk position: chunk coordinates, not tile coordinates.
#[derive(Clone, Copy, Debug, PartialEq, Eq, Hash, Structural)]
pub struct Position {
    pub x: i32,
    pub y: i32,
}

impl Position {
    pub fn new(x: i32, y: i32) -> (r: Self)
        ensures
            r.x == x,
            r.y == y,
    {
        Position { x, y }
    }
}

/// A square chunk of tiles with its cached hash.
#[derive(Debug)]
pub enum Chunk {
    /// Every tile stored, row after row.
    Tiles(Vec<Tile>, u64),
    /// All tiles alike, stored once.
    Uniform(Tile, u64),
}

/// A chunk has the right number of tiles.
pub open spec fn chunk_wf(c: Chunk) -> bool {
    match c {
        Chunk::Tiles(v, _) => v@.len() == CHUNK_TILES,
        Chunk::Uniform(_, _) => true,
    }
}

/// The tile at local index `k` of a chunk.
pub open spec fn chunk_tile(c: Chunk, k: int) -> Tile {
    match c {
        Chunk::Tiles(v, _) => v@[k],
        Chunk::Uniform(t, _) => t,
    }
}

/// The cached hash of a chunk.
pub open spec fn chunk_hash(c: Chunk) -> u64 {
    match c {
        Chunk::Tiles(_, h) => h,
        Chunk::Uniform(_, h) => h,
    }
}

/// The cached hash of a chunk matches its tiles.
pub open spec fn chunk_hash_valid(c: Chunk) -> bool {
    match c {
        Chunk::Tiles(v, h) => h == fnv1a(tiles_bytes(v@)),
        Chunk::Uniform(t, h) => h == fnv1a(tile_bytes(t)),
    }
}

/// Every tile of a chunk equals (in the sense of `==` on tiles) the tile `t`.
pub open spec fn chunk_all_eq(c: Chunk, t: Tile) -> bool {
    match c {
        Chunk::Tiles(v, _) => forall|k: int| 0 <= k < v@.len() ==> tile_eq(v@[k], t),
        Chunk::Uniform(u, _) => tile_eq(u, t),
    }
}

/// Whether `uniformify` keeps a chunk: it is dropped only when all of it is space.
pub open spec fn chunk_keeps(c: Chunk) -> bool {
    !chunk_all_eq(c, space_tile())
}

/// What `uniformify` makes of a chunk that it keeps: a chunk of tiles all equal to the first
/// one becomes uniform, any other chunk of tiles gets its hash refreshed.
pub open spec fn chunk_uniformified(c: Chunk) -> Chunk {
    match c {
        Chunk::Tiles(v, h) => if chunk_all_eq(c, v@[0]) {
            if tile_eq(v@[0], space_tile()) {
                c
            } else {
                Chunk::Uniform(v@[0], fnv1a(tile_bytes(v@[0])))
            }
        } else {
            Chunk::Tiles(v, fnv1a(tiles_bytes(v@)))
        },
        Chunk::Uniform(_, _) => c,
    }
}

/// Two chunks hold the same tiles in the same form and the same cached hash.
pub open spec fn chunk_same(a: Chunk, b: Chunk) -> bool {
    match (a, b) {
        (Chunk::Tiles(v, h), Chunk::Tiles(w, g)) => v@ == w@ && h == g,
        (Chunk::Uniform(t, h), Chunk::Uniform(u, g)) => t == u && h == g,
        _ => false,
    }
}

impl Clone for Chunk {
    fn clone(&self) -> (r: Self)
        ensures
            chunk_same(r, *self),
    {
        match self {
            Chunk::Tiles(v, h) => {
                let w = v.clone();
                proof {
                    assert(w@ =~= v@);
                }
                Chunk::Tiles(w, *h)
            },
            Chunk::Uniform(t, h) => Chunk::Uniform(*t, *h),
        }
    }
}

impl Chunk {
    /// A uniform chunk of space.
    pub fn new() -> (r: Self)
        ensures
            r == Chunk::Uniform(space_tile(), fnv1a(tile_bytes(space_tile()))),
    {
        let cell = Tile::new();
        let hash = hash_tile(&cell);
        Chunk::Uniform(Tile::new(), hash)
    }

    /// Compresses a chunk whose tiles are all alike and refreshes the hash of any other chunk
    /// of tiles. Returns false when the chunk is all space and can be dropped without losing
    /// anything.
    pub fn uniformify(&mut self) -> (r: bool)
        requires
            chunk_wf(*old(self)),
        ensures
            r == chunk_keeps(*old(self)),
            *final(self) == chunk_uniformified(*old(self)),
    {
        match self {
            Chunk::Tiles(tiles, hash) => {
                let first = tiles[0];
                let mut is_uniform = true;
                let mut i: usize = 0;
                while i < tiles.len()
                    invariant
                        i <= tiles@.len(),
                        tiles@.len() == CHUNK_TILES,
                        first == tiles@[0],
                        is_uniform == (forall|k: int| 0 <= k < i ==> tile_eq(tiles@[k], first)),
                    decreases tiles@.len() - i,
                {
                    is_uniform = is_uniform && first == tiles[i];
                    i = i + 1;
                }
                if !is_uniform {
                    let h = hash_tiles(tiles);
                    *hash = h;
                    return true;
                }
                if first == Tile::new() {
                    return false;
                }
                let h = hash_tile(&first);
                *self = Chunk::Uniform(first, h);
                true
            },
            Chunk::Uniform(tile, _) => *tile != Tile::new(),
        }
    }

    /// The cached hash.
    pub fn get_hash(&self) -> (r: u64)
        ensures
            r == chunk_hash(*self),
    {
        match self {
            Chunk::Tiles(_, hash) => *hash,
            Chunk::Uniform(_, hash) => *hash,
        }
    }
}

/// The chunk coordinate of a tile coordinate (floor division by the chunk size).
pub open spec fn chunk_coord(x: int) -> int {
    x / (CHUNK_SIZE as int)
}

/// The coordinate of a tile inside its chunk (Euclidean remainder by the chunk size).
pub open spec fn local_coord(x: int) -> int {
    x % (CHUNK_SIZE as int)
}

/// The position of the chunk holding tile `p`.
pub open spec fn chunk_pos_of(p: Pos) -> Position {
    Position { x: chunk_coord(p[0] as int) as i32, y: chunk_coord(p[1] as int) as i32 }
}

/// The index of tile `p` inside its chunk, row after row.
pub open spec fn local_index(p: Pos) -> int {
    local_coord(p[0] as int) + local_coord(p[1] as int) * (CHUNK_SIZE as int)
}

/// The chunk stored under `cp`: the last entry with that position.
pub open spec fn lookup_chunk(s: Seq<(Position, Chunk)>, cp: Position) -> Option<Chunk>
    decreases s.len(),
{
    if s.len() == 0 {
        None
    } else if s.last().0 == cp {
        Some(s.last().1)
    } else {
        lookup_chunk(s.drop_last(), cp)
    }
}

/// No two entries share a position.
pub open spec fn positions_unique(s: Seq<(Position, Chunk)>) -> bool {
    forall|i: int, j: int| 0 <= i < j < s.len() ==> s[i].0 != s[j].0
}

/// The tile read at `p` from a sequence of chunks: space where no chunk covers it.
pub open spec fn tile_in(s: Seq<(Position, Chunk)>, p: Pos) -> Tile {
    match lookup_chunk(s, chunk_pos_of(p)) {
        None => space_tile(),
        Some(c) => chunk_tile(c, local_index(p)),
    }
}

proof fn lemma_local_index_bounds(p: Pos)
    ensures
        0 <= local_index(p) < CHUNK_TILES,
        0 <= local_coord(p[0] as int) < CHUNK_SIZE,
        0 <= local_coord(p[1] as int) < CHUNK_SIZE,
{
}

/// Two tiles in the same chunk at the same local index are the same tile.
proof fn lemma_same_chunk_local(p: Pos, q: Pos)
    requires
        chunk_pos_of(p) == chunk_pos_of(q),
        local_index(p) == local_index(q),
    ensures
        p == q,
{
    let px = p[0] as int;
    let py = p[1] as int;
    let qx = q[0] as int;
    let qy = q[1] as int;
    assert(px == 16 * (px / 16) + px % 16);
    assert(qx == 16 * (qx / 16) + qx % 16);
    assert(py == 16 * (py / 16) + py % 16);
    assert(qy == 16 * (qy / 16) + qy % 16);
    assert(px % 16 == qx % 16 && py % 16 == qy % 16);
    assert(p@ =~= q@);
}

proof fn lemma_lookup_some_index(s: Seq<(Position, Chunk)>, cp: Position)
    ensures
        lookup_chunk(s, cp) is Some ==> exists|i: int|
            0 <= i < s.len() && s[i].0 == cp && lookup_chunk(s, cp) == Some(s[i].1),
        lookup_chunk(s, cp) is None ==> forall|i: int| 0 <= i < s.len() ==> s[i].0 != cp,
    decreases s.len(),
{
    if s.len() > 0 {
        lemma_lookup_some_index(s.drop_last(), cp);
        if lookup_chunk(s, cp) is Some && s.last().0 != cp {
            let i = choose|i: int|
                0 <= i < s.drop_last().len() && s.drop_last()[i].0 == cp && lookup_chunk(
                    s.drop_last(),
                    cp,
                ) == Some(s.drop_last()[i].1);
            assert(s[i] == s.drop_last()[i]);
        }
        if lookup_chunk(s, cp) is None {
            assert forall|i: int| 0 <= i < s.len() implies s[i].0 != cp by {
                if i < s.len() - 1 {
                    assert(s[i] == s.drop_last()[i]);
                }
            }
        }
    }
}

/// With unique positions, the entry at `i` is the one looked up under its position.
proof fn lemma_lookup_unique(s: Seq<(Position, Chunk)>, i: int)
    requires
        positions_unique(s),
        0 <= i < s.len(),
    ensures
        lookup_chunk(s, s[i].0) == Some(s[i].1),
    decreases s.len(),
{
    if i < s.len() - 1 {
        assert(s.drop_last()[i] == s[i]);
        assert(positions_unique(s.drop_last()));
        lemma_lookup_unique(s.drop_last(), i);
    }
}

/// Replacing the chunk of entry `i` changes the lookup of that position only.
proof fn lemma_lookup_update(s: Seq<(Position, Chunk)>, i: int, c: Chunk, cp: Position)
    requires
        positions_unique(s),
        0 <= i < s.len(),
    ensures
        lookup_chunk(s.update(i, (s[i].0, c)), cp) == if cp == s[i].0 {
            Some(c)
        } else {
            lookup_chunk(s, cp)
        },
        positions_unique(s.update(i, (s[i].0, c))),
    decreases s.len(),
{
    let u = s.update(i, (s[i].0, c));
    if i == s.len() - 1 {
        assert(u.drop_last() =~= s.drop_last());
    } else {
        assert(u.drop_last() =~= s.drop_last().update(i, (s[i].0, c)));
        assert(positions_unique(s.drop_last()));
        lemma_lookup_update(s.drop_last(), i, c, cp);
        if cp == s[i].0 {
            assert(s.last().0 != cp);
        }
    }
}

/// `lemma_lookup_update` for every replacement chunk and every position at once.
proof fn lemma_lookup_update_all(s: Seq<(Position, Chunk)>, i: int)
    requires
        positions_unique(s),
        0 <= i < s.len(),
    ensures
        forall|c: Chunk, cp: Position|
            #[trigger] lookup_chunk(s.update(i, (s[i].0, c)), cp) == if cp == s[i].0 {
                Some(c)
            } else {
                lookup_chunk(s, cp)
            },
        forall|c: Chunk| #[trigger] positions_unique(s.update(i, (s[i].0, c))),
{
    assert forall|c: Chunk, cp: Position|
        #[trigger] lookup_chunk(s.update(i, (s[i].0, c)), cp) == if cp == s[i].0 {
            Some(c)
        } else {
            lookup_chunk(s, cp)
        } by {
        lemma_lookup_update(s, i, c, cp);
    }
    assert forall|c: Chunk| #[trigger] positions_unique(s.update(i, (s[i].0, c))) by {
        lemma_lookup_update(s, i, c, s[i].0);
    }
}

/// The tile map: chunks stored under their positions.
#[derive(Clone, Debug)]
pub struct Tiles {
    chunks: Vec<(Position, Chunk)>,
}

/// Splits a tile coordinate into its chunk coordinate and its coordinate inside the chunk.
fn split_coord(x: i32) -> (r: (i32, usize))
    ensures
        r.0 == chunk_coord(x as int),
        r.1 == local_coord(x as int),
{
    let q = x.checked_div_euclid(16);
    let m = x.checked_rem_euclid(16);
    match (q, m) {
        (Some(q), Some(m)) => (q, m as usize),
        _ => vstd::pervasive::unreached(),
    }
}

/// The chunk position of tile `p` and its index inside the chunk.
fn locate(p: Pos) -> (r: (Position, usize))
    ensures
        r.0 == chunk_pos_of(p),
        r.1 == local_index(p),
        r.1 < CHUNK_TILES,
{
    let (cx, lx) = split_coord(p[0]);
    let (cy, ly) = split_coord(p[1]);
    (Position { x: cx, y: cy }, lx + ly * CHUNK_SIZE)
}

impl Tiles {
    /// The chunks, in storage order.
    pub closed spec fn chunk_seq(&self) -> Seq<(Position, Chunk)> {
        self.chunks@
    }

    /// The map is well formed: positions are unique and every chunk has the right size.
    pub open spec fn wf(&self) -> bool {
        &&& positions_unique(self.chunk_seq())
        &&& forall|i: int| 0 <= i < self.chunk_seq().len() ==> chunk_wf(#[trigger] self.chunk_seq()[i].1)
    }

    /// The tile read at `p`.
    pub open spec fn spec_tile_at(&self, p: Pos) -> Tile {
        tile_in(self.chunk_seq(), p)
    }

    /// An empty map: every tile is space.
    pub fn new() -> (r: Self)
        ensures
            r.wf(),
            r.chunk_seq() == Seq::<(Position, Chunk)>::empty(),
    {
        Tiles { chunks: Vec::new() }
    }

    /// The chunks, in storage order.
    pub fn chunks(&self) -> (r: &Vec<(Position, Chunk)>)
        ensures
            r@ == self.chunk_seq(),
    {
        &self.chunks
    }

    /// The index of the entry stored under `cp`.
    fn find(&self, cp: Position) -> (r: Option<usize>)
        ensures
            r is None <==> lookup_chunk(self.chunk_seq(), cp) is None,
            r matches Some(i) ==> i < self.chunk_seq().len() && self.chunk_seq()[i as int].0 == cp
                && lookup_chunk(self.chunk_seq(), cp) == Some(self.chunk_seq()[i as int].1),
    {
        let mut i = self.chunks.len();
        proof {
            assert(self.chunks@.take(i as int) =~= self.chunks@);
        }
        while i > 0
            invariant
                i <= self.chunks@.len(),
                lookup_chunk(self.chunks@, cp) == lookup_chunk(self.chunks@.take(i as int), cp),
            decreases i,
        {
            proof {
                assert(self.chunks@.take(i as int).drop_last() =~= self.chunks@.take(i - 1));
            }
            if self.chunks[i - 1].0 == cp {
                return Some(i - 1);
            }
            i = i - 1;
        }
        proof {
            assert(self.chunks@.take(0) =~= Seq::<(Position, Chunk)>::empty());
        }
        None
    }

    /// The tile at `index`; space where no chunk covers it.
    pub fn index(&self, index: Pos) -> (r: Tile)
        requires
            self.wf(),
        ensures
            r == self.spec_tile_at(index),
    {
        let (cp, k) = locate(index);
        match self.find(cp) {
            Some(i) => {
                proof {
                    assert(chunk_wf(self.chunk_seq()[i as int].1));
                }
                match &self.chunks[i].1 {
                    Chunk::Tiles(tiles, _) => tiles[k],
                    Chunk::Uniform(tile, _) => *tile,
                }
            },
            None => Tile::new(),
        }
    }

    /// Makes sure the chunk at `cp` is stored as a chunk of tiles, allocating a missing chunk
    /// and expanding a uniform one, and returns the index of its entry.
    fn expand_chunk(&mut self, cp: Position, k: usize) -> (i: usize)
        requires
            old(self).wf(),
            k < CHUNK_TILES,
        ensures
            final(self).wf(),
            i < final(self).chunk_seq().len(),
            final(self).chunk_seq()[i as int].0 == cp,
            final(self).chunk_seq()[i as int].1 matches Chunk::Tiles(v, h) && v@ == expanded_tiles(
                lookup_chunk(old(self).chunk_seq(), cp),
                k as int,
            ) && h == expanded_hash(lookup_chunk(old(self).chunk_seq(), cp), k as int),
            forall|c2: Position|
                c2 != cp ==> lookup_chunk(final(self).chunk_seq(), c2) == lookup_chunk(
                    old(self).chunk_seq(),
                    c2,
                ),
    {
        let i = match self.find(cp) {
            Some(i) => i,
            None => {
                proof {
                    lemma_lookup_some_index(self.chunks@, cp);
                }
                let c = Chunk::new();
                self.chunks.push((cp, c));
                proof {
                    assert(self.chunks@.drop_last() =~= old(self).chunks@);
                    assert forall|c2: Position| c2 != cp implies lookup_chunk(self.chunks@, c2)
                        == lookup_chunk(old(self).chunks@, c2) by {
                        assert(self.chunks@.last().0 == cp);
                    }
                    assert forall|x: int, y: int|
                        0 <= x < y < self.chunks@.len() implies self.chunks@[x].0
                        != self.chunks@[y].0 by {
                        if y == self.chunks@.len() - 1 {
                            assert(old(self).chunks@[x] == self.chunks@[x]);
                        } else {
                            assert(old(self).chunks@[x] == self.chunks@[x]);
                            assert(old(self).chunks@[y] == self.chunks@[y]);
                        }
                    }
                }
                self.chunks.len() - 1
            },
        };
        let ghost mid = self.chunks@;
        proof {
            lemma_lookup_unique(mid, i as int);
            assert(forall|c2: Position|
                c2 != cp ==> lookup_chunk(mid, c2) == lookup_chunk(old(self).chunks@, c2));
        }
        let uniform = match &self.chunks[i].1 {
            Chunk::Uniform(t, _) => Some(*t),
            Chunk::Tiles(_, _) => None,
        };
        if let Some(t) = uniform {
            let mut tiles: Vec<Tile> = Vec::new();
            let mut j: usize = 0;
            while j < CHUNK_TILES
                invariant
                    j <= CHUNK_TILES,
                    tiles@ == Seq::new(j as nat, |_i: int| space_tile()),
                decreases CHUNK_TILES - j,
            {
                tiles.push(Tile::new());
                j = j + 1;
            }
            tiles.set(k, t);
            let h = hash_tiles(&tiles);
            let ghost c = Chunk::Tiles(tiles, h);
            proof {
                lemma_lookup_update(mid, i as int, c, cp);
                assert forall|c2: Position| c2 != cp implies lookup_chunk(
                    mid.update(i as int, (cp, c)),
                    c2,
                ) == lookup_chunk(mid, c2) by {
                    lemma_lookup_update(mid, i as int, c, c2);
                }
                assert(tiles@ =~= expanded_tiles(lookup_chunk(old(self).chunks@, cp), k as int));
            }
            self.chunks.set(i, (cp, Chunk::Tiles(tiles, h)));
        }
        i
    }

    /// A mutable reference to the tile at `index`. A missing chunk is allocated first, and a
    /// uniform chunk is expanded into a chunk of tiles: the expanded chunk holds space
    /// everywhere except at `index`, which gets the uniform tile.
    pub fn index_mut(&mut self, index: Pos) -> (r: &mut Tile)
        requires
            old(self).wf(),
        ensures
            final(self).wf(),
            *r == expanded_tiles(
                lookup_chunk(old(self).chunk_seq(), chunk_pos_of(index)),
                local_index(index),
            )[local_index(index)],
            forall|cp: Position|
                cp != chunk_pos_of(index) ==> lookup_chunk(final(self).chunk_seq(), cp)
                    == lookup_chunk(old(self).chunk_seq(), cp),
            lookup_chunk(final(self).chunk_seq(), chunk_pos_of(index)) matches Some(
                Chunk::Tiles(v, h),
            ) && v@ == expanded_tiles(
                lookup_chunk(old(self).chunk_seq(), chunk_pos_of(index)),
                local_index(index),
            ).update(local_index(index), *final(r)) && h == expanded_hash(
                lookup_chunk(old(self).chunk_seq(), chunk_pos_of(index)),
                local_index(index),
            ),
    {
        let (cp, k) = locate(index);
        let i = self.expand_chunk(cp, k);
        let ghost mid = self.chunks@;
        proof {
            lemma_lookup_update_all(mid, i as int);
        }
        let entry = &mut self.chunks[i];
        let r = match &mut entry.1 {
            Chunk::Tiles(tiles, _) => &mut tiles[k],
            Chunk::Uniform(_, _) => vstd::pervasive::unreached(),
        };
        r
    }
}

/// The tiles of the chunk that `index_mut` writes into, before the write: the chunk's own
/// tiles, or, for a uniform or missing chunk, space everywhere but at `k`, which holds the
/// uniform tile.
pub open spec fn expanded_tiles(c: Option<Chunk>, k: int) -> Seq<Tile> {
    match c {
        Some(Chunk::Tiles(v, _)) => v@,
        Some(Chunk::Uniform(t, _)) => Seq::new(CHUNK_TILES as nat, |_i: int| space_tile()).update(k, t),
        None => Seq::new(CHUNK_TILES as nat, |_i: int| space_tile()),
    }
}

/// The hash the chunk that `index_mut` writes into carries: the chunk's own cached hash, or
/// the hash of the freshly expanded tiles.
pub open spec fn expanded_hash(c: Option<Chunk>, k: int) -> u64 {
    match c {
        Some(Chunk::Tiles(_, h)) => h,
        _ => fnv1a(tiles_bytes(expanded_tiles(c, k))),
    }
}

/// A well-formed map only stores well-formed chunks.
pub proof fn lemma_lookup_wf(t: Tiles, cp: Position)
    requires
        t.wf(),
    ensures
        lookup_chunk(t.chunk_seq(), cp) matches Some(c) ==> chunk_wf(c),
{
    lemma_lookup_some_index(t.chunk_seq(), cp);
    if lookup_chunk(t.chunk_seq(), cp) is Some {
        let i = choose|i: int|
            0 <= i < t.chunk_seq().len() && t.chunk_seq()[i].0 == cp && lookup_chunk(
                t.chunk_seq(),
                cp,
            ) == Some(t.chunk_seq()[i].1);
        assert(chunk_wf(t.chunk_seq()[i].1));
    }
}

/// Law (write, then read): after `index_mut(p)` and a write of `t` through the returned
/// reference, reading `p` gives `t`; tiles of other chunks read as before; other tiles of the
/// same chunk read as before, unless that chunk was stored uniform, in which case they read as
/// space (the expansion fills the chunk with space and copies the uniform tile to `p` only).
pub proof fn lemma_write_then_read(before: Tiles, after: Tiles, p: Pos, t: Tile, q: Pos)
    requires
        before.wf(),
        forall|cp: Position|
            cp != chunk_pos_of(p) ==> lookup_chunk(after.chunk_seq(), cp) == lookup_chunk(
                before.chunk_seq(),
                cp,
            ),
        lookup_chunk(after.chunk_seq(), chunk_pos_of(p)) matches Some(Chunk::Tiles(v, h)) && v@
            == expanded_tiles(lookup_chunk(before.chunk_seq(), chunk_pos_of(p)), local_index(p)).update(
            local_index(p),
            t,
        ),
    ensures
        after.spec_tile_at(p) == t,
        chunk_pos_of(q) != chunk_pos_of(p) ==> after.spec_tile_at(q) == before.spec_tile_at(q),
        chunk_pos_of(q) == chunk_pos_of(p) && q != p ==> after.spec_tile_at(q) == if lookup_chunk(
            before.chunk_seq(),
            chunk_pos_of(p),
        ) matches Some(Chunk::Uniform(_, _)) {
            space_tile()
        } else {
            before.spec_tile_at(q)
        },
{
    lemma_local_index_bounds(p);
    lemma_local_index_bounds(q);
    lemma_lookup_wf(before, chunk_pos_of(p));
    if chunk_pos_of(q) == chunk_pos_of(p) && q != p && local_index(q) == local_index(p) {
        lemma_same_chunk_local(p, q);
    }
}

/// No chunk of the map is stored as one uniform tile.
pub open spec fn no_uniform_chunk(t: Tiles) -> bool {
    forall|cp: Position| !(#[trigger] lookup_chunk(t.chunk_seq(), cp) matches Some(Chunk::Uniform(_, _)))
}

/// On a map without uniform chunks a write through `index_mut` is a point update: the tile it
/// hands out is the tile read there, after the write of `t` the tile reads `t`, every other tile
/// reads as before, and still no chunk is uniform.
pub proof fn lemma_point_write(before: Tiles, after: Tiles, p: Pos, t: Tile)
    requires
        before.wf(),
        no_uniform_chunk(before),
        forall|cp: Position|
            cp != chunk_pos_of(p) ==> lookup_chunk(after.chunk_seq(), cp) == lookup_chunk(
                before.chunk_seq(),
                cp,
            ),
        lookup_chunk(after.chunk_seq(), chunk_pos_of(p)) matches Some(Chunk::Tiles(v, h)) && v@
            == expanded_tiles(lookup_chunk(before.chunk_seq(), chunk_pos_of(p)), local_index(p)).update(
            local_index(p),
            t,
        ),
    ensures
        expanded_tiles(lookup_chunk(before.chunk_seq(), chunk_pos_of(p)), local_index(p))[local_index(p)]
            == before.spec_tile_at(p),
        after.spec_tile_at(p) == t,
        forall|q: Pos| q != p ==> #[trigger] after.spec_tile_at(q) == before.spec_tile_at(q),
        no_uniform_chunk(after),
{
    lemma_local_index_bounds(p);
    assert(!(lookup_chunk(before.chunk_seq(), chunk_pos_of(p)) matches Some(Chunk::Uniform(_, _))));
    assert forall|q: Pos| q != p implies #[trigger] after.spec_tile_at(q) == before.spec_tile_at(q) by {
        lemma_write_then_read(before, after, p, t, q);
    }
    lemma_write_then_read(before, after, p, t, p);
    assert forall|cp: Position| !(#[trigger] lookup_chunk(after.chunk_seq(), cp) matches Some(Chunk::Uniform(_, _))) by {
        if cp != chunk_pos_of(p) {
            assert(!(lookup_chunk(before.chunk_seq(), cp) matches Some(Chunk::Uniform(_, _))));
        }
    }
}

/// Law (write through `try_get_mut`, then read): a write to a tile of a stored chunk of
/// tiles reads back, and every other tile reads as before.
pub proof fn lemma_try_write_then_read(before: Tiles, after: Tiles, p: Pos, t: Tile, q: Pos)
    requires
        before.wf(),
        forall|cp: Position|
            cp != chunk_pos_of(p) ==> lookup_chunk(after.chunk_seq(), cp) == lookup_chunk(before.chunk_seq(), cp),
        lookup_chunk(after.chunk_seq(), chunk_pos_of(p)) matches Some(Chunk::Tiles(v, h))
            && lookup_chunk(before.chunk_seq(), chunk_pos_of(p)) matches Some(Chunk::Tiles(v0, h0))
            && v@ == v0@.update(local_index(p), t) && h == h0,
    ensures
        after.spec_tile_at(p) == t,
        q != p ==> after.spec_tile_at(q) == before.spec_tile_at(q),
{
    lemma_write_then_read(before, after, p, t, q);
}

/// The chunks that `uniformify` keeps, each uniformified, in storage order.
pub open spec fn uniformified_seq(s: Seq<(Position, Chunk)>) -> Seq<(Position, Chunk)>
    decreases s.len(),
{
    if s.len() == 0 {
        Seq::empty()
    } else {
        let rest = uniformified_seq(s.drop_last());
        if chunk_keeps(s.last().1) {
            rest.push((s.last().0, chunk_uniformified(s.last().1)))
        } else {
            rest
        }
    }
}

proof fn lemma_uniformified_from(s: Seq<(Position, Chunk)>)
    ensures
        forall|i: int|
            #![trigger uniformified_seq(s)[i]]
            0 <= i < uniformified_seq(s).len() ==> exists|j: int|
                #![trigger s[j]]
                0 <= j < s.len() && uniformified_seq(s)[i].0 == s[j].0 && chunk_keeps(s[j].1)
                    && uniformified_seq(s)[i].1 == chunk_uniformified(s[j].1),
    decreases s.len(),
{
    if s.len() > 0 {
        let d = s.drop_last();
        lemma_uniformified_from(d);
        let r = uniformified_seq(d);
        let u = uniformified_seq(s);
        assert forall|i: int|
            #![trigger u[i]]
            0 <= i < u.len() implies exists|j: int|
                #![trigger s[j]]
                0 <= j < s.len() && u[i].0 == s[j].0 && chunk_keeps(s[j].1) && u[i].1
                    == chunk_uniformified(s[j].1) by {
            if i < r.len() {
                assert(u[i] == r[i]);
                let j = choose|j: int|
                    #![trigger d[j]]
                    0 <= j < d.len() && r[i].0 == d[j].0 && chunk_keeps(d[j].1) && r[i].1
                        == chunk_uniformified(d[j].1);
                assert(d[j] == s[j]);
            } else {
                assert(u[i] == (s[s.len() - 1].0, chunk_uniformified(s[s.len() - 1].1)));
            }
        }
    }
}

proof fn lemma_uniformified_unique(s: Seq<(Position, Chunk)>)
    requires
        positions_unique(s),
    ensures
        positions_unique(uniformified_seq(s)),
    decreases s.len(),
{
    if s.len() > 0 {
        let d = s.drop_last();
        assert(positions_unique(d));
        lemma_uniformified_unique(d);
        lemma_uniformified_from(d);
        let r = uniformified_seq(d);
        assert forall|i: int| 0 <= i < r.len() implies r[i].0 != s.last().0 by {
            let j = choose|j: int|
                #![trigger d[j]]
                0 <= j < d.len() && r[i].0 == d[j].0 && chunk_keeps(d[j].1) && r[i].1
                    == chunk_uniformified(d[j].1);
            assert(d[j] == s[j]);
        }
    }
}

proof fn lemma_uniformified_lookup(s: Seq<(Position, Chunk)>, cp: Position)
    requires
        positions_unique(s),
    ensures
        lookup_chunk(uniformified_seq(s), cp) == match lookup_chunk(s, cp) {
            Some(c) => if chunk_keeps(c) {
                Some(chunk_uniformified(c))
            } else {
                None
            },
            None => None,
        },
    decreases s.len(),
{
    if s.len() > 0 {
        let d = s.drop_last();
        assert(positions_unique(d));
        lemma_uniformified_lookup(d, cp);
        if s.last().0 == cp {
            lemma_lookup_some_index(d, cp);
            if lookup_chunk(d, cp) is Some {
                let i = choose|i: int|
                    0 <= i < d.len() && d[i].0 == cp && lookup_chunk(d, cp) == Some(d[i].1);
                assert(d[i] == s[i]);
                assert(false);
            }
        }
        let r = uniformified_seq(d);
        if chunk_keeps(s.last().1) {
            let u = r.push((s.last().0, chunk_uniformified(s.last().1)));
            assert(u.drop_last() =~= r);
            assert(uniformified_seq(s) == u);
        } else {
            assert(uniformified_seq(s) == r);
        }
    }
}

/// A uniformified chunk is well formed, and reads like the original chunk (in the sense of
/// `==` on tiles) at every local index; a dropped chunk reads like space everywhere.
pub proof fn lemma_uniformified_reads(c: Chunk, k: int)
    requires
        chunk_wf(c),
        0 <= k < CHUNK_TILES,
    ensures
        chunk_keeps(c) ==> chunk_wf(chunk_uniformified(c)),
        chunk_keeps(c) ==> tile_eq(chunk_tile(chunk_uniformified(c), k), chunk_tile(c, k)),
        !chunk_keeps(c) ==> tile_eq(space_tile(), chunk_tile(c, k)),
{
}

/// Law (hash consistency): a chunk that `uniformify` keeps carries the hash of its tiles when
/// it was a chunk of tiles before, and a uniform chunk is left exactly as it was.
pub proof fn lemma_uniformify_hash(c: Chunk)
    requires
        chunk_wf(c),
    ensures
        c is Tiles && chunk_keeps(c) ==> chunk_hash_valid(chunk_uniformified(c)),
        c is Uniform ==> chunk_uniformified(c) == c,
{
}

impl Tiles {
    /// Compresses uniform chunks and drops chunks that are all space.
    pub fn uniformify(&mut self)
        requires
            old(self).wf(),
        ensures
            final(self).wf(),
            final(self).chunk_seq() == uniformified_seq(old(self).chunk_seq()),
    {
        let mut old_chunks: Vec<(Position, Chunk)> = Vec::new();
        std::mem::swap(&mut self.chunks, &mut old_chunks);
        let ghost orig = old_chunks@;
        let n = old_chunks.len();
        let mut rev: Vec<(Position, Chunk)> = Vec::new();
        while old_chunks.len() > 0
            invariant
                rev@.len() + old_chunks@.len() == n,
                n == orig.len(),
                old_chunks@ == orig.take(old_chunks@.len() as int),
                forall|k: int| 0 <= k < rev@.len() ==> rev@[k] == orig[n - 1 - k],
            decreases old_chunks@.len(),
        {
            let x = old_chunks.pop().unwrap();
            rev.push(x);
        }
        let mut out: Vec<(Position, Chunk)> = Vec::new();
        let mut j: usize = 0;
        while rev.len() > 0
            invariant
                j + rev@.len() == n,
                n == orig.len(),
                forall|k: int| 0 <= k < rev@.len() ==> rev@[k] == orig[n - 1 - k],
                forall|k: int| 0 <= k < n ==> chunk_wf(#[trigger] orig[k].1),
                out@ == uniformified_seq(orig.take(j as int)),
            decreases rev@.len(),
        {
            let (pos, mut c) = rev.pop().unwrap();
            proof {
                assert(orig.take(j + 1).drop_last() =~= orig.take(j as int));
                assert(orig[j as int] == (pos, c));
            }
            if c.uniformify() {
                out.push((pos, c));
            }
            j = j + 1;
        }
        proof {
            assert(orig.take(j as int) =~= orig);
            lemma_uniformified_from(orig);
            lemma_uniformified_unique(orig);
            assert forall|i: int| 0 <= i < out@.len() implies chunk_wf(#[trigger] out@[i].1) by {
                let jj = choose|jj: int|
                    0 <= jj < orig.len() && out@[i].0 == orig[jj].0 && chunk_keeps(orig[jj].1)
                        && out@[i].1 == chunk_uniformified(orig[jj].1);
                lemma_uniformified_reads(orig[jj].1, 0);
            }
        }
        self.chunks = out;
    }
}

/// Law (uniformify preserves the map): every tile reads the same (in the sense of `==` on
/// tiles) after `uniformify` as before.
pub proof fn lemma_uniformify_preserves_reads(before: Tiles, after: Tiles, p: Pos)
    requires
        before.wf(),
        after.chunk_seq() == uniformified_seq(before.chunk_seq()),
    ensures
        tile_eq(after.spec_tile_at(p), before.spec_tile_at(p)),
{
    lemma_uniformified_lookup(before.chunk_seq(), chunk_pos_of(p));
    lemma_lookup_wf(before, chunk_pos_of(p));
    lemma_local_index_bounds(p);
    if let Some(c) = lookup_chunk(before.chunk_seq(), chunk_pos_of(p)) {
        lemma_uniformified_reads(c, local_index(p));
    }
}

/// The hash a digest records for chunk position `cp`: the last entry under it.
pub open spec fn digest_lookup(d: Seq<(Position, u64)>, cp: Position) -> Option<u64>
    decreases d.len(),
{
    if d.len() == 0 {
        None
    } else if d.last().0 == cp {
        Some(d.last().1)
    } else {
        digest_lookup(d.drop_last(), cp)
    }
}

/// A chunk differs from a digest when the digest has no hash for its position or a different
/// one.
pub open spec fn differs_from_digest(d: Seq<(Position, u64)>, cp: Position, c: Chunk) -> bool {
    match digest_lookup(d, cp) {
        Some(h) => chunk_hash(c) != h,
        None => true,
    }
}

/// Two sequences of chunks hold the same positions and the same chunks, entry by entry.
pub open spec fn seq_same(a: Seq<(Position, Chunk)>, b: Seq<(Position, Chunk)>) -> bool {
    &&& a.len() == b.len()
    &&& forall|i: int| 0 <= i < a.len() ==> #[trigger] a[i].0 == b[i].0 && chunk_same(a[i].1, b[i].1)
}

/// The chunks that differ from a digest, in storage order.
pub open spec fn filtered_seq(s: Seq<(Position, Chunk)>, d: Seq<(Position, u64)>) -> Seq<
    (Position, Chunk),
>
    decreases s.len(),
{
    if s.len() == 0 {
        Seq::empty()
    } else {
        let rest = filtered_seq(s.drop_last(), d);
        if differs_from_digest(d, s.last().0, s.last().1) {
            rest.push(s.last())
        } else {
            rest
        }
    }
}

proof fn lemma_filtered_from(s: Seq<(Position, Chunk)>, d: Seq<(Position, u64)>)
    ensures
        forall|i: int|
            #![trigger filtered_seq(s, d)[i]]
            0 <= i < filtered_seq(s, d).len() ==> exists|j: int|
                #![trigger s[j]]
                0 <= j < s.len() && filtered_seq(s, d)[i] == s[j],
        forall|i: int, k: int|
            0 <= i < k < filtered_seq(s, d).len() ==> exists|j1: int, j2: int|
                0 <= j1 < j2 < s.len() && #[trigger] filtered_seq(s, d)[i] == s[j1]
                    && #[trigger] filtered_seq(s, d)[k] == s[j2],
    decreases s.len(),
{
    if s.len() > 0 {
        let dl = s.drop_last();
        lemma_filtered_from(dl, d);
        let r = filtered_seq(dl, d);
        let u = filtered_seq(s, d);
        assert forall|i: int|
            #![trigger u[i]]
            0 <= i < u.len() implies exists|j: int| #![trigger s[j]] 0 <= j < s.len() && u[i] == s[j] by {
            if i < r.len() {
                assert(u[i] == r[i]);
                let j = choose|j: int| #![trigger dl[j]] 0 <= j < dl.len() && r[i] == dl[j];
                assert(dl[j] == s[j]);
            } else {
                assert(u[i] == s[s.len() - 1]);
            }
        }
        assert forall|i: int, k: int| 0 <= i < k < u.len() implies exists|j1: int, j2: int|
            0 <= j1 < j2 < s.len() && #[trigger] u[i] == s[j1] && #[trigger] u[k] == s[j2] by {
            if k < r.len() {
                assert(u[i] == r[i] && u[k] == r[k]);
                let (j1, j2) = choose|j1: int, j2: int|
                    0 <= j1 < j2 < dl.len() && #[trigger] r[i] == dl[j1] && #[trigger] r[k] == dl[j2];
                assert(dl[j1] == s[j1] && dl[j2] == s[j2]);
            } else {
                assert(u[i] == r[i]);
                let j1 = choose|j: int| #![trigger dl[j]] 0 <= j < dl.len() && r[i] == dl[j];
                assert(dl[j1] == s[j1]);
                assert(u[k] == s[s.len() - 1]);
            }
        }
    }
}

impl Tiles {
    /// The hash a digest records for a chunk position.
    fn digest_get(digest: &Vec<(Position, u64)>, cp: Position) -> (r: Option<u64>)
        ensures
            r == digest_lookup(digest@, cp),
    {
        let mut i = digest.len();
        proof {
            assert(digest@.take(i as int) =~= digest@);
        }
        while i > 0
            invariant
                i <= digest@.len(),
                digest_lookup(digest@, cp) == digest_lookup(digest@.take(i as int), cp),
            decreases i,
        {
            proof {
                assert(digest@.take(i as int).drop_last() =~= digest@.take(i - 1));
            }
            if digest[i - 1].0 == cp {
                return Some(digest[i - 1].1);
            }
            i = i - 1;
        }
        None
    }

    /// A copy of the map holding only the chunks that differ from `chunks_digest`: those
    /// whose position the digest lacks or records a different hash for.
    pub fn filter_with_diffs(&self, chunks_digest: &Vec<(Position, u64)>) -> (r: Result<
        Self,
        String,
    >)
        requires
            self.wf(),
        ensures
            r is Ok,
            r matches Ok(t) ==> t.wf(),
            r matches Ok(t) ==> seq_same(t.chunk_seq(), filtered_seq(self.chunk_seq(), chunks_digest@)),
    {
        let mut out: Vec<(Position, Chunk)> = Vec::new();
        let mut i: usize = 0;
        while i < self.chunks.len()
            invariant
                i <= self.chunks@.len(),
                out@.len() == filtered_seq(self.chunks@.take(i as int), chunks_digest@).len(),
                forall|k: int|
                    0 <= k < out@.len() ==> #[trigger] out@[k].0 == filtered_seq(
                        self.chunks@.take(i as int),
                        chunks_digest@,
                    )[k].0 && chunk_same(out@[k].1, filtered_seq(self.chunks@.take(i as int), chunks_digest@)[k].1),
            decreases self.chunks@.len() - i,
        {
            proof {
                assert(self.chunks@.take(i + 1).drop_last() =~= self.chunks@.take(i as int));
            }
            let pos = self.chunks[i].0;
            let keep = match Self::digest_get(chunks_digest, pos) {
                Some(d) => self.chunks[i].1.get_hash() != d,
                None => true,
            };
            if keep {
                let c = self.chunks[i].1.clone();
                out.push((pos, c));
            }
            i = i + 1;
        }
        proof {
            assert(self.chunks@.take(i as int) =~= self.chunks@);
            let f = filtered_seq(self.chunks@, chunks_digest@);
            lemma_filtered_from(self.chunks@, chunks_digest@);
            assert forall|x: int, y: int| 0 <= x < y < out@.len() implies out@[x].0 != out@[y].0 by {
                assert(out@[x].0 == f[x].0);
                assert(out@[y].0 == f[y].0);
                let (j1, j2) = choose|j1: int, j2: int|
                    0 <= j1 < j2 < self.chunks@.len() && #[trigger] f[x] == self.chunks@[j1]
                        && #[trigger] f[y] == self.chunks@[j2];
            }
            assert forall|x: int| 0 <= x < out@.len() implies chunk_wf(#[trigger] out@[x].1) by {
                assert(out@[x].0 == f[x].0);
                assert(chunk_same(out@[x].1, f[x].1));
                let j = choose|j: int| #![trigger self.chunks@[j]] 0 <= j < self.chunks@.len() && f[x] == self.chunks@[j];
                assert(chunk_wf(self.chunks@[j].1));
            }
        }
        let t = Tiles { chunks: out };
        proof {
            let f = filtered_seq(self.chunks@, chunks_digest@);
            assert(t.chunk_seq() == out@);
            assert(t.wf());
            assert(t.chunk_seq().len() == f.len());
            assert(seq_same(t.chunk_seq(), f));
        }
        Ok(t)
    }

    /// Stores `chunk` under `cp`, replacing a chunk already stored there.
    pub fn insert_chunk(&mut self, cp: Position, chunk: Chunk)
        requires
            old(self).wf(),
            chunk_wf(chunk),
        ensures
            final(self).wf(),
            lookup_chunk(final(self).chunk_seq(), cp) == Some(chunk),
            forall|c2: Position|
                c2 != cp ==> lookup_chunk(final(self).chunk_seq(), c2) == lookup_chunk(
                    old(self).chunk_seq(),
                    c2,
                ),
    {
        match self.find(cp) {
            Some(i) => {
                proof {
                    lemma_lookup_update_all(self.chunks@, i as int);
                }
                self.chunks.set(i, (cp, chunk));
            },
            None => {
                proof {
                    lemma_lookup_some_index(self.chunks@, cp);
                }
                self.chunks.push((cp, chunk));
                proof {
                    assert(self.chunks@.drop_last() =~= old(self).chunks@);
                    assert forall|c2: Position| c2 != cp implies lookup_chunk(self.chunks@, c2)
                        == lookup_chunk(old(self).chunks@, c2) by {
                        assert(self.chunks@.last().0 == cp);
                    }
                    assert forall|x: int, y: int|
                        0 <= x < y < self.chunks@.len() implies self.chunks@[x].0
                        != self.chunks@[y].0 by {
                        assert(old(self).chunks@[x] == self.chunks@[x]);
                        if y < self.chunks@.len() - 1 {
                            assert(old(self).chunks@[y] == self.chunks@[y]);
                        }
                    }
                }
            },
        }
    }

    /// A mutable reference to the tile at `index`, only if its chunk is stored as tiles:
    /// nothing is allocated or expanded.
    pub fn try_get_mut(&mut self, index: Pos) -> (r: Option<&mut Tile>)
        requires
            old(self).wf(),
        ensures
            final(self).wf(),
            r is Some <==> lookup_chunk(old(self).chunk_seq(), chunk_pos_of(index)) matches Some(
                Chunk::Tiles(_, _),
            ),
            r matches Some(x) ==> {
                &&& *x == old(self).spec_tile_at(index)
                &&& lookup_chunk(final(self).chunk_seq(), chunk_pos_of(index)) matches Some(
                    Chunk::Tiles(v, h),
                ) && lookup_chunk(old(self).chunk_seq(), chunk_pos_of(index)) matches Some(
                    Chunk::Tiles(v0, h0),
                ) && v@ == v0@.update(local_index(index), *final(x)) && h == h0
            },
            r is None ==> final(self).chunk_seq() == old(self).chunk_seq(),
            forall|c2: Position|
                c2 != chunk_pos_of(index) ==> lookup_chunk(final(self).chunk_seq(), c2)
                    == lookup_chunk(old(self).chunk_seq(), c2),
    {
        let (cp, k) = locate(index);
        match self.find(cp) {
            Some(i) => {
                proof {
                    lemma_lookup_update_all(self.chunks@, i as int);
                    assert(chunk_wf(self.chunks@[i as int].1));
                }
                let entry = &mut self.chunks[i];
                match &mut entry.1 {
                    Chunk::Tiles(tiles, _) => Some(&mut tiles[k]),
                    Chunk::Uniform(_, _) => None,
                }
            },
            None => None,
        }
    }

    /// The number of tiles covered by stored chunks.
    pub fn count_tiles(&self) -> (r: usize)
        requires
            self.chunk_seq().len() * CHUNK_TILES <= usize::MAX,
        ensures
            r == self.chunk_seq().len() * CHUNK_TILES,
    {
        self.chunks.len() * CHUNK_SIZE * CHUNK_SIZE
    }
}

} // verus!
