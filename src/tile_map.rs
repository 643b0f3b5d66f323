//! A sparse, chunked grid of tiles.
use vstd::prelude::*;
use crate::geom::Vec as Pos;
use crate::persistent::ChunkMap;

verus! {

/// Side of a square chunk, in tiles.
pub const CHUNK_SIZE: usize = 32;

/// Number of tiles in a chunk.
pub const CHUNK_TILES: usize = 1024;

#[derive(Debug, Copy, Clone, PartialEq, Eq, Structural)]
pub enum GroundKind {
    Grass,
    Rock,
    Water,
}

#[derive(Debug, Copy, Clone, PartialEq, Eq, Structural)]
pub enum TerrainKind {
    Tree,
    Cliff,
    Entrance,
}

#[derive(Debug, Copy, Clone, PartialEq, Eq, Structural)]
pub enum RoofKind {
    Mountain,
}

/// One cell of the grid.
#[derive(Debug, Copy, Clone, PartialEq, Eq, Structural)]
pub struct Tile {
    pub ground: Option<GroundKind>,
    pub terrain: Option<TerrainKind>,
    pub roof: Option<RoofKind>,
}

/// The tile that an absent chunk reads as.
pub open spec fn default_tile() -> Tile {
    Tile { ground: None, terrain: None, roof: None }
}

/// A tile can be walked on: not water, and no terrain but an entrance.
pub open spec fn tile_is_free(t: Tile) -> bool {
    t.ground != Some(GroundKind::Water) && (t.terrain.is_none() || t.terrain == Some(
        TerrainKind::Entrance,
    ))
}

impl Tile {
    pub fn empty() -> (r: Tile)
        ensures
            r == default_tile(),
    {
        Tile { ground: None, terrain: None, roof: None }
    }

    pub fn is_free(self) -> (r: bool)
        ensures
            r == tile_is_free(self),
    {
        let not_water = match self.ground {
            Some(GroundKind::Water) => false,
            _ => true,
        };
        let walkable = match self.terrain {
            None => true,
            Some(TerrainKind::Entrance) => true,
            _ => false,
        };
        not_water && walkable
    }
}

impl Default for Tile {
    fn default() -> (r: Tile)
        ensures
            r == default_tile(),
    {
        Tile::empty()
    }
}

/// A square block of `CHUNK_SIZE` by `CHUNK_SIZE` tiles, the tile at
/// sub-position `(px, py)` standing at index `px * CHUNK_SIZE + py`.
#[derive(Debug, Clone)]
pub struct Chunk {
    pub tiles: std::vec::Vec<Tile>,
}

impl Chunk {
    pub open spec fn wf(&self) -> bool {
        self.tiles@.len() == CHUNK_TILES
    }

    /// A chunk of default tiles.
    pub fn new() -> (r: Chunk)
        ensures
            r.wf(),
            r.tiles@ == Seq::new(CHUNK_TILES as nat, |i: int| default_tile()),
    {
        let mut tiles: std::vec::Vec<Tile> = std::vec::Vec::new();
        let mut i: usize = 0;
        while i < CHUNK_TILES
            invariant
                i <= CHUNK_TILES,
                tiles@ == Seq::new(i as nat, |j: int| default_tile()),
            decreases CHUNK_TILES - i,
        {
            tiles.push(Tile::empty());
            i = i + 1;
            assert(tiles@ =~= Seq::new(i as nat, |j: int| default_tile()));
        }
        Chunk { tiles }
    }

    /// A copy of this chunk.
    pub fn copy(&self) -> (r: Chunk)
        ensures
            r.tiles@ == self.tiles@,
    {
        let mut tiles: std::vec::Vec<Tile> = std::vec::Vec::new();
        let mut i: usize = 0;
        while i < self.tiles.len()
            invariant
                i <= self.tiles@.len(),
                tiles@ == self.tiles@.take(i as int),
            decreases self.tiles@.len() - i,
        {
            tiles.push(self.tiles[i]);
            i = i + 1;
            assert(tiles@ =~= self.tiles@.take(i as int));
        }
        assert(tiles@ =~= self.tiles@);
        Chunk { tiles }
    }
}

/// The chunk that holds `pos`, by Euclidean division.
pub open spec fn chunk_of(pos: Pos) -> (i32, i32) {
    ((pos.x as int / CHUNK_SIZE as int) as i32, (pos.y as int / CHUNK_SIZE as int) as i32)
}

/// Where `pos` stands inside its chunk, by Euclidean remainder.
pub open spec fn index_in_chunk(pos: Pos) -> int {
    (pos.x as int % CHUNK_SIZE as int) * CHUNK_SIZE as int + (pos.y as int % CHUNK_SIZE as int)
}

/// The tile at `pos` of a map whose chunks hold the given tiles.
pub open spec fn tile_in(chunks: Map<(i32, i32), Seq<Tile>>, pos: Pos) -> Tile {
    if chunks.contains_key(chunk_of(pos)) {
        chunks[chunk_of(pos)][index_in_chunk(pos)]
    } else {
        default_tile()
    }
}

/// A grid of tiles held as chunks; absent chunks read as default tiles.
pub struct TileMap {
    pub chunks: ChunkMap,
}

impl View for TileMap {
    type V = Map<(i32, i32), Seq<Tile>>;

    open spec fn view(&self) -> Map<(i32, i32), Seq<Tile>> {
        self.chunks.contents().map_values(|c: Chunk| c.tiles@)
    }
}

impl TileMap {
    /// Every chunk holds `CHUNK_TILES` tiles.
    pub open spec fn wf(&self) -> bool {
        forall|k: (i32, i32)| #[trigger] self@.contains_key(k) ==> self@[k].len() == CHUNK_TILES
    }

    /// The tile at `pos`.
    pub open spec fn spec_get(&self, pos: Pos) -> Tile {
        tile_in(self@, pos)
    }

    pub fn new() -> (r: TileMap)
        ensures
            r.wf(),
            r@ =~= Map::empty(),
    {
        TileMap { chunks: ChunkMap::empty() }
    }

    /// A map sharing this one's chunks.
    pub fn share(&self) -> (r: TileMap)
        ensures
            r@ == self@,
            self.wf() ==> r.wf(),
    {
        let r = TileMap { chunks: self.chunks.share() };
        assert(r@ == self@);
        r
    }

    /// Puts a whole chunk at chunk coordinates `(cx, cy)`.
    pub fn set_chunk(&mut self, cx: i32, cy: i32, ch: Chunk)
        requires
            old(self).wf(),
            ch.wf(),
        ensures
            final(self).wf(),
            final(self)@ == old(self)@.insert((cx, cy), ch.tiles@),
    {
        self.chunks.insert((cx, cy), ch);
        assert(self@ =~= old(self)@.insert((cx, cy), ch.tiles@));
    }

    /// The coordinates of the chunks present, each once.
    pub fn chunk_coords(&self) -> (r: std::vec::Vec<(i32, i32)>)
        ensures
            r@.no_duplicates(),
            r@.to_set() == self@.dom(),
    {
        self.chunks.keys()
    }

    /// The tiles of the chunk at `(cx, cy)`, if present.
    pub fn chunk_tiles(&self, cx: i32, cy: i32) -> (r: Option<std::vec::Vec<Tile>>)
        ensures
            self@.contains_key((cx, cy)) ==> r.is_some() && r.unwrap()@ == self@[(cx, cy)],
            !self@.contains_key((cx, cy)) ==> r.is_none(),
    {
        match self.chunks.get((cx, cy)) {
            Some(c) => Some(c.copy().tiles),
            None => None,
        }
    }

    /// Chunk coordinates and index inside the chunk of `pos`.
    fn conv_pos(pos: Pos) -> (r: (i32, i32, usize))
        ensures
            (r.0, r.1) == chunk_of(pos),
            r.2 as int == index_in_chunk(pos),
            r.2 < CHUNK_TILES,
    {
        let cx = pos.x.checked_div_euclid(32).unwrap();
        let cy = pos.y.checked_div_euclid(32).unwrap();
        let px = (pos.x as i64 - 32 * cx as i64) as usize;
        let py = (pos.y as i64 - 32 * cy as i64) as usize;
        (cx, cy, px * 32 + py)
    }

    /// The tile at `pos`.
    pub fn get(&self, pos: Pos) -> (r: Tile)
        requires
            self.wf(),
        ensures
            r == self.spec_get(pos),
    {
        let (cx, cy, i) = TileMap::conv_pos(pos);
        match self.chunks.get((cx, cy)) {
            Some(chunk) => {
                assert(self@.contains_key((cx, cy)));
                chunk.tiles[i]
            },
            None => Tile::empty(),
        }
    }

    /// Replaces the tile at `pos`, copying its chunk so that maps sharing the
    /// old chunk are left as they were.
    pub fn set(&mut self, pos: Pos, tile: Tile)
        requires
            old(self).wf(),
        ensures
            final(self).wf(),
            final(self)@ == set_chunks(old(self)@, pos, tile),
    {
        let (cx, cy, i) = TileMap::conv_pos(pos);
        let mut chunk = match self.chunks.get((cx, cy)) {
            Some(chunk) => {
                assert(self@.contains_key((cx, cy)));
                chunk.copy()
            },
            None => Chunk::new(),
        };
        chunk.tiles.set(i, tile);
        self.set_chunk(cx, cy, chunk);
    }
}

/// The chunks after `set(pos, tile)`: the chunk of `pos`, or a default one,
/// with `tile` in place.
pub open spec fn set_chunks(before: Map<(i32, i32), Seq<Tile>>, pos: Pos, tile: Tile) -> Map<
    (i32, i32),
    Seq<Tile>,
> {
    before.insert(
        chunk_of(pos),
        (if before.contains_key(chunk_of(pos)) {
            before[chunk_of(pos)]
        } else {
            Seq::new(CHUNK_TILES as nat, |i: int| default_tile())
        }).update(index_in_chunk(pos), tile),
    )
}

/// Setting a tile and reading it back gives that tile, and every other
/// chunk stays exactly as it was.
pub proof fn lemma_set_then_get(before: Map<(i32, i32), Seq<Tile>>, pos: Pos, tile: Tile)
    requires
        forall|k: (i32, i32)| #[trigger] before.contains_key(k) ==> before[k].len() == CHUNK_TILES,
    ensures
        tile_in(set_chunks(before, pos, tile), pos) == tile,
        forall|k: (i32, i32)|
            k != chunk_of(pos) ==> (#[trigger] set_chunks(before, pos, tile).contains_key(k)
                == before.contains_key(k) && (before.contains_key(k) ==> set_chunks(before, pos, tile)[k]
                == before[k])),
        forall|q: Pos|
            chunk_of(q) != chunk_of(pos) ==> #[trigger] tile_in(set_chunks(before, pos, tile), q)
                == tile_in(before, q),
{
}

} // verus!
