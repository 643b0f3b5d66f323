//! Building the tile map from a decoded level image: one pixel per tile, colours
//! naming tile kinds, and a black anchor pixel marking the origin.
use vstd::prelude::*;
use crate::tile_map::{
    Chunk, GroundKind, TerrainKind, Tile, TileMap, CHUNK_SIZE, CHUNK_TILES, default_tile,
};

verus! {

/// Why a level image gives no map.
#[derive(Debug, Copy, Clone, PartialEq, Eq, Structural)]
pub enum LevelError {
    /// The pixel data does not match the image's size, or the image is too
    /// large for the grid's coordinates.
    BadSize,
    /// No anchor pixel marks the origin.
    NoOrigin,
    /// An opaque pixel of a colour that names no tile.
    UnknownColor(u8, u8, u8, u8),
}

pub type Rgba = (u8, u8, u8, u8);

/// An image as rows of RGBA bytes, row after row.
pub struct Image {
    pub width: u32,
    pub height: u32,
    pub rgba: Vec<u8>,
}

/// The colour of the anchor pixel.
pub open spec fn anchor_color() -> Rgba {
    (0, 0, 0, 255)
}

/// The tile a colour names, if any.
pub open spec fn color_tile(c: Rgba) -> Option<Tile> {
    if c == (0u8, 255u8, 0u8, 255u8) {
        Some(Tile { ground: Some(GroundKind::Grass), terrain: None, roof: None })
    } else if c == (0u8, 0u8, 255u8, 255u8) {
        Some(Tile { ground: Some(GroundKind::Water), terrain: None, roof: None })
    } else if c == (0u8, 127u8, 0u8, 255u8) {
        Some(Tile { ground: Some(GroundKind::Grass), terrain: Some(TerrainKind::Tree), roof: None })
    } else if c == (127u8, 51u8, 0u8, 255u8) {
        Some(Tile { ground: Some(GroundKind::Rock), terrain: Some(TerrainKind::Cliff), roof: None })
    } else {
        None
    }
}

impl Image {
    /// The pixel data matches the size, and coordinates fit the grid.
    pub open spec fn wf(&self) -> bool {
        &&& self.width <= 0x1000_0000
        &&& self.height <= 0x1000_0000
        &&& self.rgba@.len() == 4 * self.width * self.height
    }

    pub open spec fn raw(&self, x: int, y: int) -> Rgba {
        let i = 4 * (y * self.width + x);
        (self.rgba@[i], self.rgba@[i + 1], self.rgba@[i + 2], self.rgba@[i + 3])
    }

    pub open spec fn in_range(&self, x: int, y: int) -> bool {
        0 <= x < self.width && 0 <= y < self.height
    }

    pub open spec fn is_anchor(&self, x: int, y: int) -> bool {
        self.in_range(x, y) && self.raw(x, y) == anchor_color()
    }

    /// The colour a tile is read from: an anchor pixel reads as its lower
    /// right neighbour, or as transparent where it has none.
    pub open spec fn color(&self, x: int, y: int) -> Rgba {
        if self.is_anchor(x, y) {
            if self.in_range(x + 1, y + 1) {
                self.raw(x + 1, y + 1)
            } else {
                (0, 0, 0, 0)
            }
        } else {
            self.raw(x, y)
        }
    }

    /// `(x, y)` is the last anchor, scanning column after column.
    pub open spec fn is_origin(&self, x: int, y: int) -> bool {
        &&& self.is_anchor(x, y)
        &&& forall|x2: int, y2: int| #[trigger] self.is_anchor(x2, y2) ==> x2 < x || (x2 == x && y2 <= y)
    }

    /// What the world position `(wx, wy)` holds with the origin at
    /// `(ox, oy)`: nothing, a tile, or the colour that names none.
    pub open spec fn level_tile(&self, ox: int, oy: int, wx: int, wy: int) -> Result<Option<Tile>, Rgba> {
        let sx = wx + ox;
        let sy = wy + oy;
        if !self.in_range(sx, sy) || self.color(sx, sy).3 == 0 {
            Ok(None)
        } else {
            match color_tile(self.color(sx, sy)) {
                Some(t) => Ok(Some(t)),
                None => Err(self.color(sx, sy)),
            }
        }
    }

    /// The world position of sub-position `(px, py)` of chunk `(cx, cy)`.
    pub open spec fn chunk_tile(&self, ox: int, oy: int, cx: int, cy: int, px: int, py: int) -> Result<Option<Tile>, Rgba> {
        self.level_tile(ox, oy, cx * CHUNK_SIZE + px, cy * CHUNK_SIZE + py)
    }
}

/// Whether every position of chunk `(cx, cy)` reads without error.
pub open spec fn chunk_ok(img: Image, ox: int, oy: int, cx: int, cy: int) -> bool {
    forall|px: int, py: int|
        0 <= px < CHUNK_SIZE && 0 <= py < CHUNK_SIZE ==> #[trigger] img.chunk_tile(ox, oy, cx, cy, px, py) is Ok
}

/// `e` reports the colour that the read failed on.
pub open spec fn reports(r: Result<Option<Tile>, Rgba>, e: LevelError) -> bool {
    match r {
        Err(c) => e == LevelError::UnknownColor(c.0, c.1, c.2, c.3),
        Ok(_) => false,
    }
}

/// A read that found a tile.
pub open spec fn holds_tile(r: Result<Option<Tile>, Rgba>) -> bool {
    match r {
        Ok(Some(_)) => true,
        _ => false,
    }
}

/// Whether some position of chunk `(cx, cy)` holds a tile.
pub open spec fn chunk_used(img: Image, ox: int, oy: int, cx: int, cy: int) -> bool {
    exists|px: int, py: int|
        0 <= px < CHUNK_SIZE && 0 <= py < CHUNK_SIZE && holds_tile(#[trigger] img.chunk_tile(ox, oy, cx, cy, px, py))
}

/// The chunk coordinates the level covers with the origin at `(ox, oy)`:
/// every chunk that holds a pixel of the image.
pub open spec fn in_chunk_range(img: Image, ox: int, oy: int, cx: int, cy: int) -> bool {
    &&& -((ox + CHUNK_SIZE - 1) / CHUNK_SIZE as int) <= cx < (img.width - ox + CHUNK_SIZE - 1) / CHUNK_SIZE as int
    &&& -((oy + CHUNK_SIZE - 1) / CHUNK_SIZE as int) <= cy < (img.height - oy + CHUNK_SIZE - 1) / CHUNK_SIZE as int
}

/// The origin of the level: the last anchor pixel, column after column.
pub open spec fn spec_origin(img: Image) -> Option<(int, int)> {
    if exists|x: int, y: int| img.is_origin(x, y) {
        let (x, y) = choose|x: int, y: int| img.is_origin(x, y);
        Some((x, y))
    } else {
        None
    }
}

/// What building the level from `img` gives: a size error, a missing
/// origin, the map of the covered chunks, or the first colour naming no tile.
pub open spec fn level_outcome(img: Image, r: Result<TileMap, LevelError>) -> bool {
    &&& !img.wf() ==> r == Err::<TileMap, LevelError>(LevelError::BadSize)
    &&& img.wf() && spec_origin(img).is_none() ==> r == Err::<TileMap, LevelError>(LevelError::NoOrigin)
    &&& img.wf() && spec_origin(img).is_some() ==> match r {
        Ok(m) => m.wf() && level_map(img, spec_origin(img).unwrap().0, spec_origin(img).unwrap().1, m@),
        Err(e) => level_error(img, spec_origin(img).unwrap().0, spec_origin(img).unwrap().1, e),
    }
}

/// `e` reports a colour that names no tile, read in a covered chunk.
pub open spec fn level_error(img: Image, ox: int, oy: int, e: LevelError) -> bool {
    exists|cx: int, cy: int|
        #[trigger] in_chunk_range(img, ox, oy, cx, cy) && !chunk_ok(img, ox, oy, cx, cy) && exists|px: int, py: int|
            0 <= px < CHUNK_SIZE && 0 <= py < CHUNK_SIZE && reports(#[trigger] img.chunk_tile(ox, oy, cx, cy, px, py), e)
}

/// `m` holds exactly the used chunks of the covered range, each with the
/// tiles read for it, and every covered chunk reads without error.
pub open spec fn level_map(img: Image, ox: int, oy: int, m: Map<(i32, i32), Seq<Tile>>) -> bool {
    &&& forall|cx: int, cy: int| #[trigger] in_chunk_range(img, ox, oy, cx, cy) ==> chunk_ok(img, ox, oy, cx, cy)
    &&& forall|k: (i32, i32)|
        #[trigger] m.contains_key(k) <==> (in_chunk_range(img, ox, oy, k.0 as int, k.1 as int)
            && chunk_used(img, ox, oy, k.0 as int, k.1 as int))
    &&& forall|k: (i32, i32)| #[trigger] m.contains_key(k) ==> m[k].len() == CHUNK_TILES
    &&& forall|k: (i32, i32), px: int, py: int|
        #![trigger m[k][px * CHUNK_SIZE + py]]
        m.contains_key(k) && 0 <= px < CHUNK_SIZE && 0 <= py < CHUNK_SIZE ==> m[k][px * CHUNK_SIZE + py]
            == placed_tile(img, ox, oy, k.0 as int, k.1 as int, px, py)
}

/// The tile that goes to sub-position `(px, py)`: the one read, else default.
pub open spec fn placed_tile(img: Image, ox: int, oy: int, cx: int, cy: int, px: int, py: int) -> Tile {
    match img.chunk_tile(ox, oy, cx, cy, px, py) {
        Ok(Some(t)) => t,
        _ => default_tile(),
    }
}

fn tile_of_color(c: Rgba) -> (r: Option<Tile>)
    ensures
        r == color_tile(c),
{
    match c {
        (0, 255, 0, 255) => Some(Tile { ground: Some(GroundKind::Grass), terrain: None, roof: None }),
        (0, 0, 255, 255) => Some(Tile { ground: Some(GroundKind::Water), terrain: None, roof: None }),
        (0, 127, 0, 255) => Some(
            Tile { ground: Some(GroundKind::Grass), terrain: Some(TerrainKind::Tree), roof: None },
        ),
        (127, 51, 0, 255) => Some(
            Tile { ground: Some(GroundKind::Rock), terrain: Some(TerrainKind::Cliff), roof: None },
        ),
        _ => None,
    }
}

impl Image {
    fn raw_exec(&self, x: u32, y: u32) -> (r: Rgba)
        requires
            self.wf(),
            self.in_range(x as int, y as int),
        ensures
            r == self.raw(x as int, y as int),
    {
        proof {
            assert((y as int) * (self.width as int) + (x as int) < (self.width as int) * (self.height as int)) by (nonlinear_arith)
                requires
                    0 <= x < self.width,
                    0 <= y < self.height,
            ;
            assert((self.width as int) * (self.height as int) <= 0x1000_0000 * 0x1000_0000) by (nonlinear_arith)
                requires
                    self.width <= 0x1000_0000,
                    self.height <= 0x1000_0000,
            ;
        }
        assert((y as int) * (self.width as int) <= 0x1000_0000 * 0x1000_0000) by (nonlinear_arith)
            requires
                y < self.height,
                self.width <= 0x1000_0000,
                self.height <= 0x1000_0000,
        ;
        assert(4 * self.width * self.height == 4 * ((self.width as int) * (self.height as int))) by (nonlinear_arith);
        let n = self.rgba.len();
        let k: u64 = (y as u64) * (self.width as u64) + (x as u64);
        let i = (4 * k) as usize;
        (self.rgba[i], self.rgba[i + 1], self.rgba[i + 2], self.rgba[i + 3])
    }

    /// The colour the tile at image position `(x, y)` is read from.
    fn color_exec(&self, x: u32, y: u32) -> (r: Rgba)
        requires
            self.wf(),
            self.in_range(x as int, y as int),
        ensures
            r == self.color(x as int, y as int),
    {
        let c = self.raw_exec(x, y);
        if c.0 == 0 && c.1 == 0 && c.2 == 0 && c.3 == 255 {
            if x + 1 < self.width && y + 1 < self.height {
                self.raw_exec(x + 1, y + 1)
            } else {
                (0, 0, 0, 0)
            }
        } else {
            c
        }
    }

    /// The last anchor pixel, scanning column after column.
    pub fn find_origin(&self) -> (r: Option<(u32, u32)>)
        requires
            self.wf(),
        ensures
            match r {
                Some((x, y)) => self.is_origin(x as int, y as int),
                None => forall|x: int, y: int| !#[trigger] self.is_anchor(x, y),
            },
    {
        let mut found: Option<(u32, u32)> = None;
        let mut x: u32 = 0;
        while x < self.width
            invariant
                self.wf(),
                x <= self.width,
                match found {
                    Some((a, b)) => self.is_anchor(a as int, b as int) && forall|x2: int, y2: int|
                        #[trigger] self.is_anchor(x2, y2) && x2 < x ==> x2 < a || (x2 == a && y2 <= b),
                    None => forall|x2: int, y2: int| #[trigger] self.is_anchor(x2, y2) ==> x2 >= x,
                },
            decreases self.width - x,
        {
            let mut y: u32 = 0;
            while y < self.height
                invariant
                    self.wf(),
                    x < self.width,
                    y <= self.height,
                    match found {
                        Some((a, b)) => self.is_anchor(a as int, b as int) && forall|x2: int, y2: int|
                            #[trigger] self.is_anchor(x2, y2) && (x2 < x || (x2 == x && y2 < y)) ==> x2 < a || (
                            x2 == a && y2 <= b),
                        None => forall|x2: int, y2: int|
                            #[trigger] self.is_anchor(x2, y2) ==> x2 > x || (x2 == x && y2 >= y),
                    },
                decreases self.height - y,
            {
                let c = self.raw_exec(x, y);
                if c.0 == 0 && c.1 == 0 && c.2 == 0 && c.3 == 255 {
                    found = Some((x, y));
                }
                y = y + 1;
            }
            x = x + 1;
        }
        found
    }

    /// Builds chunk `(cx, cy)`: `None` where it holds no tile.
    fn build_chunk(&self, ox: i64, oy: i64, cx: i64, cy: i64) -> (r: Result<Option<Chunk>, LevelError>)
        requires
            self.wf(),
            -0x2000_0000 <= ox <= 0x2000_0000,
            -0x2000_0000 <= oy <= 0x2000_0000,
            -0x2000_0000 <= cx <= 0x2000_0000,
            -0x2000_0000 <= cy <= 0x2000_0000,
        ensures
            match r {
                Ok(Some(ch)) => {
                    &&& chunk_ok(*self, ox as int, oy as int, cx as int, cy as int)
                    &&& chunk_used(*self, ox as int, oy as int, cx as int, cy as int)
                    &&& ch.wf()
                    &&& forall|px: int, py: int|
                        0 <= px < CHUNK_SIZE && 0 <= py < CHUNK_SIZE ==> ch.tiles@[px * CHUNK_SIZE + py]
                            == #[trigger] placed_tile(*self, ox as int, oy as int, cx as int, cy as int, px, py)
                },
                Ok(None) => chunk_ok(*self, ox as int, oy as int, cx as int, cy as int) && !chunk_used(
                    *self,
                    ox as int,
                    oy as int,
                    cx as int,
                    cy as int,
                ),
                Err(e) => !chunk_ok(*self, ox as int, oy as int, cx as int, cy as int) && exists|px: int, py: int|
                    0 <= px < CHUNK_SIZE && 0 <= py < CHUNK_SIZE && reports(
                        #[trigger] self.chunk_tile(ox as int, oy as int, cx as int, cy as int, px, py),
                        e,
                    ),
            },
    {
        let ghost (o_x, o_y, c_x, c_y) = (ox as int, oy as int, cx as int, cy as int);
        let mut chunk = Chunk::new();
        let mut used = false;
        let mut px: i64 = 0;
        while px < 32
            invariant
                self.wf(),
                0 <= px <= 32,
                o_x == ox && o_y == oy && c_x == cx && c_y == cy,
                -0x2000_0000 <= ox <= 0x2000_0000,
                -0x2000_0000 <= oy <= 0x2000_0000,
                -0x2000_0000 <= cx <= 0x2000_0000,
                -0x2000_0000 <= cy <= 0x2000_0000,
                chunk.wf(),
                forall|p: int, q: int|
                    0 <= p < px && 0 <= q < CHUNK_SIZE ==> #[trigger] self.chunk_tile(o_x, o_y, c_x, c_y, p, q) is Ok,
                forall|p: int, q: int|
                    0 <= p < px && 0 <= q < CHUNK_SIZE ==> chunk.tiles@[p * CHUNK_SIZE + q]
                        == #[trigger] placed_tile(*self, o_x, o_y, c_x, c_y, p, q),
                forall|i: int| px * CHUNK_SIZE <= i < CHUNK_TILES ==> #[trigger] chunk.tiles@[i] == default_tile(),
                used == exists|p: int, q: int|
                    0 <= p < px && 0 <= q < CHUNK_SIZE && holds_tile(#[trigger] self.chunk_tile(o_x, o_y, c_x, c_y, p, q)),
            decreases 32 - px,
        {
            let mut py: i64 = 0;
            while py < 32
                invariant
                    self.wf(),
                    0 <= px < 32,
                    0 <= py <= 32,
                    o_x == ox && o_y == oy && c_x == cx && c_y == cy,
                    -0x2000_0000 <= ox <= 0x2000_0000,
                    -0x2000_0000 <= oy <= 0x2000_0000,
                    -0x2000_0000 <= cx <= 0x2000_0000,
                    -0x2000_0000 <= cy <= 0x2000_0000,
                    chunk.wf(),
                    forall|p: int, q: int|
                        (0 <= p < px && 0 <= q < CHUNK_SIZE) || (p == px && 0 <= q < py) ==> #[trigger] self.chunk_tile(
                            o_x,
                            o_y,
                            c_x,
                            c_y,
                            p,
                            q,
                        ) is Ok,
                    forall|p: int, q: int|
                        (0 <= p < px && 0 <= q < CHUNK_SIZE) || (p == px && 0 <= q < py) ==> chunk.tiles@[p
                            * CHUNK_SIZE + q] == #[trigger] placed_tile(*self, o_x, o_y, c_x, c_y, p, q),
                    forall|i: int| px * CHUNK_SIZE + py <= i < CHUNK_TILES ==> #[trigger] chunk.tiles@[i] == default_tile(),
                    used == exists|p: int, q: int|
                        ((0 <= p < px && 0 <= q < CHUNK_SIZE) || (p == px && 0 <= q < py)) && holds_tile(
                            #[trigger] self.chunk_tile(o_x, o_y, c_x, c_y, p, q),
                        ),
                decreases 32 - py,
            {
                let sx = cx * 32 + px + ox;
                let sy = cy * 32 + py + oy;
                let ghost read = self.chunk_tile(o_x, o_y, c_x, c_y, px as int, py as int);
                if 0 <= sx && sx < self.width as i64 && 0 <= sy && sy < self.height as i64 {
                    let c = self.color_exec(sx as u32, sy as u32);
                    if c.3 != 0 {
                        match tile_of_color(c) {
                            None => {
                                assert(read == Err::<Option<Tile>, Rgba>(c));
                                return Err(LevelError::UnknownColor(c.0, c.1, c.2, c.3));
                            },
                            Some(t) => {
                                chunk.tiles.set((px * 32 + py) as usize, t);
                                used = true;
                                assert(read == Ok::<Option<Tile>, Rgba>(Some(t)));
                                assert(holds_tile(read));
                            },
                        }
                    }
                }
                py = py + 1;
            }
            px = px + 1;
        }
        if used {
            Ok(Some(chunk))
        } else {
            Ok(None)
        }
    }

    /// The tile map the level describes.
    pub fn build_level(&self) -> (r: Result<TileMap, LevelError>)
        ensures
            level_outcome(*self, r),
    {
        if self.width > 0x1000_0000 || self.height > 0x1000_0000 {
            return Err(LevelError::BadSize);
        }
        proof {
            assert((self.width as int) * (self.height as int) <= 0x1000_0000 * 0x1000_0000) by (nonlinear_arith)
                requires
                    self.width <= 0x1000_0000,
                    self.height <= 0x1000_0000,
            ;
        }
        assert(4 * self.width * self.height == 4 * ((self.width as int) * (self.height as int))) by (nonlinear_arith);
        if self.rgba.len() as u64 != 4 * (self.width as u64 * self.height as u64) {
            return Err(LevelError::BadSize);
        }
        let (ox32, oy32) = match self.find_origin() {
            None => {
                proof {
                    if exists|x: int, y: int| self.is_origin(x, y) {
                        let (x, y) = choose|x: int, y: int| self.is_origin(x, y);
                        assert(self.is_anchor(x, y));
                    }
                }
                return Err(LevelError::NoOrigin);
            },
            Some(o) => o,
        };
        let ghost (gox, goy) = (ox32 as int, oy32 as int);
        proof {
            let (x, y) = choose|x: int, y: int| self.is_origin(x, y);
            assert(self.is_anchor(x, y) && self.is_anchor(gox, goy));
            assert(x == gox && y == goy);
            assert(spec_origin(*self) == Some((gox, goy)));
        }
        let ox = ox32 as i64;
        let oy = oy32 as i64;
        let left = (ox + 31) / 32;
        let top = (oy + 31) / 32;
        let right = (self.width as i64 - ox + 31) / 32;
        let bottom = (self.height as i64 - oy + 31) / 32;
        let mut map = TileMap::new();
        let mut cx: i64 = -left;
        while cx < right
            invariant
                self.wf(),
                spec_origin(*self) == Some((gox, goy)),
                gox == ox && goy == oy,
                0 <= ox < self.width,
                0 <= oy < self.height,
                left == (gox + CHUNK_SIZE - 1) / CHUNK_SIZE as int,
                top == (goy + CHUNK_SIZE - 1) / CHUNK_SIZE as int,
                right == (self.width - gox + CHUNK_SIZE - 1) / CHUNK_SIZE as int,
                bottom == (self.height - goy + CHUNK_SIZE - 1) / CHUNK_SIZE as int,
                -left <= cx <= right || (cx == -left && right < -left),
                map.wf(),
                forall|k: (i32, i32)|
                    #[trigger] map@.contains_key(k) <==> (in_chunk_range(*self, gox, goy, k.0 as int, k.1 as int)
                        && k.0 < cx && chunk_used(*self, gox, goy, k.0 as int, k.1 as int)),
                forall|k: (i32, i32), px: int, py: int|
                    #![trigger map@[k][px * CHUNK_SIZE + py]]
                    map@.contains_key(k) && 0 <= px < CHUNK_SIZE && 0 <= py < CHUNK_SIZE ==> map@[k][px
                        * CHUNK_SIZE + py] == placed_tile(*self, gox, goy, k.0 as int, k.1 as int, px, py),
                forall|a: int, b: int|
                    #[trigger] in_chunk_range(*self, gox, goy, a, b) && a < cx ==> chunk_ok(*self, gox, goy, a, b),
            decreases right - cx,
        {
            let mut cy: i64 = -top;
            while cy < bottom
                invariant
                    self.wf(),
                    spec_origin(*self) == Some((gox, goy)),
                    gox == ox && goy == oy,
                    0 <= ox < self.width,
                    0 <= oy < self.height,
                    left == (gox + CHUNK_SIZE - 1) / CHUNK_SIZE as int,
                    top == (goy + CHUNK_SIZE - 1) / CHUNK_SIZE as int,
                    right == (self.width - gox + CHUNK_SIZE - 1) / CHUNK_SIZE as int,
                    bottom == (self.height - goy + CHUNK_SIZE - 1) / CHUNK_SIZE as int,
                    -left <= cx < right,
                    -top <= cy <= bottom || (cy == -top && bottom < -top),
                    map.wf(),
                    forall|k: (i32, i32)|
                        #[trigger] map@.contains_key(k) <==> (in_chunk_range(*self, gox, goy, k.0 as int, k.1 as int)
                            && (k.0 < cx || (k.0 == cx && k.1 < cy)) && chunk_used(
                            *self,
                            gox,
                            goy,
                            k.0 as int,
                            k.1 as int,
                        )),
                    forall|k: (i32, i32), px: int, py: int|
                        #![trigger map@[k][px * CHUNK_SIZE + py]]
                        map@.contains_key(k) && 0 <= px < CHUNK_SIZE && 0 <= py < CHUNK_SIZE ==> map@[k][px
                            * CHUNK_SIZE + py] == placed_tile(*self, gox, goy, k.0 as int, k.1 as int, px, py),
                    forall|a: int, b: int|
                        #[trigger] in_chunk_range(*self, gox, goy, a, b) && (a < cx || (a == cx && b < cy))
                            ==> chunk_ok(*self, gox, goy, a, b),
                decreases bottom - cy,
            {
                match self.build_chunk(ox, oy, cx, cy) {
                    Err(e) => {
                        proof {
                            let (a, b) = (cx as int, cy as int);
                            assert(in_chunk_range(*self, gox, goy, a, b));
                            let (px, py) = choose|px: int, py: int|
                                0 <= px < CHUNK_SIZE && 0 <= py < CHUNK_SIZE && reports(
                                    #[trigger] self.chunk_tile(gox, goy, a, b, px, py),
                                    e,
                                );
                            assert(reports(self.chunk_tile(gox, goy, a, b, px, py), e));
                            assert(level_error(*self, gox, goy, e));
                        }
                        return Err(e);
                    },
                    Ok(None) => {
                        proof {
                            assert forall|k: (i32, i32)|
                                #[trigger] map@.contains_key(k) <==> (in_chunk_range(*self, gox, goy, k.0 as int, k.1 as int)
                                    && (k.0 < cx || (k.0 == cx && k.1 < cy + 1)) && chunk_used(*self, gox, goy, k.0 as int, k.1 as int)) by {
                                if k.0 == cx && k.1 == cy {
                                }
                            }
                        }
                    },
                    Ok(Some(ch)) => {
                        let ghost before = map@;
                        let ghost tiles = ch.tiles@;
                        map.set_chunk(cx as i32, cy as i32, ch);
                        proof {
                            let key = (cx as i32, cy as i32);
                            assert(in_chunk_range(*self, gox, goy, cx as int, cy as int));
                            assert forall|k: (i32, i32)|
                                #[trigger] map@.contains_key(k) <==> (in_chunk_range(*self, gox, goy, k.0 as int, k.1 as int)
                                    && (k.0 < cx || (k.0 == cx && k.1 < cy + 1)) && chunk_used(*self, gox, goy, k.0 as int, k.1 as int)) by {
                                if k != key {
                                    assert(map@.contains_key(k) == before.contains_key(k));
                                }
                            }
                            assert forall|k: (i32, i32), px: int, py: int|
                                map@.contains_key(k) && 0 <= px < CHUNK_SIZE && 0 <= py < CHUNK_SIZE implies #[trigger] map@[k][px
                                    * CHUNK_SIZE + py] == placed_tile(*self, gox, goy, k.0 as int, k.1 as int, px, py) by {
                                if k != key {
                                    assert(before.contains_key(k));
                                    assert(map@[k] == before[k]);
                                    assert(before[k][px * CHUNK_SIZE + py] == placed_tile(*self, gox, goy, k.0 as int, k.1 as int, px, py));
                                } else {
                                    assert(map@[k] == tiles);
                                    assert(tiles[px * CHUNK_SIZE + py] == placed_tile(*self, gox, goy, cx as int, cy as int, px, py));
                                }
                            }
                        }
                    },
                }
                cy = cy + 1;
            }
            proof {
                assert forall|k: (i32, i32)|
                    #[trigger] map@.contains_key(k) <==> (in_chunk_range(*self, gox, goy, k.0 as int, k.1 as int)
                        && k.0 < cx + 1 && chunk_used(*self, gox, goy, k.0 as int, k.1 as int)) by {
                    if in_chunk_range(*self, gox, goy, k.0 as int, k.1 as int) && k.0 == cx {
                        assert(k.1 < cy);
                    }
                }
                assert forall|a: int, b: int|
                    #[trigger] in_chunk_range(*self, gox, goy, a, b) && a < cx + 1 implies chunk_ok(*self, gox, goy, a, b) by {
                    if a == cx {
                        assert(b < cy);
                    }
                }
            }
            cx = cx + 1;
        }
        proof {
            assert forall|k: (i32, i32)|
                #[trigger] map@.contains_key(k) <==> (in_chunk_range(*self, gox, goy, k.0 as int, k.1 as int)
                    && chunk_used(*self, gox, goy, k.0 as int, k.1 as int)) by {
                if in_chunk_range(*self, gox, goy, k.0 as int, k.1 as int) {
                    assert(k.0 < cx);
                }
            }
            assert forall|a: int, b: int| #[trigger] in_chunk_range(*self, gox, goy, a, b) implies chunk_ok(*self, gox, goy, a, b) by {
                assert(a < cx);
            }
        }
        Ok(map)
    }
}

} // verus!
