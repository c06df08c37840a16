use vstd::prelude::*;
use std::rc::Rc;
use crate::types::{Rect, Texture, Vec2i};
use vstd::arithmetic::div_mod::{
    lemma_div_is_ordered,
    lemma_fundamental_div_mod,
    lemma_fundamental_div_mod_converse,
};

verus! {

/// Side length, in pixels, of every tile.
pub const TILE_SZ: usize = 16;

/// A graphical tile: small and freely copied.
#[derive(Clone, Copy, Debug, PartialEq, Eq, Structural)]
pub struct Tile {
    pub solid: bool,
}

/// An index into a `Tileset`.
#[derive(Clone, Copy, Debug, PartialEq, Eq, Structural)]
pub struct TileID(pub usize);

/// The atlas rectangle of tile `id` in an atlas `w` pixels wide, laid out as a
/// dense row-major grid of tiles.
pub open spec fn rect_for(w: int, id: int) -> Rect {
    let tw = w / (TILE_SZ as int);
    let row = id / tw;
    let col = id - row * tw;
    Rect {
        x: (col * TILE_SZ as int) as i32,
        y: (row * TILE_SZ as int) as i32,
        w: TILE_SZ as u16,
        h: TILE_SZ as u16,
    }
}

/// An atlas of width `w` holding `n` tiles has, when `n > 0`, room for at least
/// one tile per row, and the atlas coordinates of its last column and of the
/// row of its last tile fit in a `Rect`.
pub open spec fn atlas_fits(w: int, n: int) -> bool {
    n > 0 ==> {
        &&& TILE_SZ <= w
        &&& (w / (TILE_SZ as int) - 1) * TILE_SZ as int <= i32::MAX
        &&& ((n - 1) / (w / (TILE_SZ as int))) * TILE_SZ as int <= i32::MAX
    }
}

/// A set of tiles used by several tilemaps, drawn from one atlas texture.
pub struct Tileset {
    pub tiles: Vec<Tile>,
    texture: Rc<Texture>,
}

impl Tileset {
    pub closed spec fn descriptors(&self) -> Seq<Tile> {
        self.tiles@
    }

    pub closed spec fn atlas(&self) -> Texture {
        *self.texture
    }

    pub open spec fn wf(&self) -> bool {
        atlas_fits(self.atlas().width as int, self.descriptors().len() as int)
    }

    pub open spec fn has(&self, id: TileID) -> bool {
        id.0 < self.descriptors().len()
    }

    /// Create a new tileset.
    pub fn new(tiles: Vec<Tile>, texture: &Rc<Texture>) -> (r: Self)
        requires
            atlas_fits(texture.width as int, tiles@.len() as int),
        ensures
            r.wf(),
            r.descriptors() == tiles@,
            r.atlas() == **texture,
    {
        Self { tiles, texture: Rc::clone(texture) }
    }

    /// The atlas rectangle of tile `id`.
    pub fn get_rect(&self, id: TileID) -> (r: Rect)
        requires
            self.wf(),
            self.has(id),
        ensures
            r == rect_for(self.atlas().width as int, id.0 as int),
    {
        let idx = id.0;
        let (w, _h) = self.texture.size();
        let tw = w / TILE_SZ;
        let row = idx / tw;
        proof {
            let n = self.tiles@.len() as int;
            assert(1 <= tw);
            assert(row * tw <= idx) by (nonlinear_arith)
                requires row == idx / tw, 1 <= tw;
            assert(idx - row * tw < tw) by (nonlinear_arith)
                requires row == idx / tw, 1 <= tw;
            lemma_div_is_ordered(idx as int, n - 1, tw as int);
            assert(row * 16 <= ((n - 1) / (tw as int)) * 16) by (nonlinear_arith)
                requires row <= (n - 1) / (tw as int);
        }
        let col = idx - (row * tw);
        proof {
            assert(col * 16 <= (tw - 1) * 16) by (nonlinear_arith)
                requires col < tw;
        }
        Rect {
            x: (col * TILE_SZ) as i32,
            y: (row * TILE_SZ) as i32,
            w: TILE_SZ as u16,
            h: TILE_SZ as u16,
        }
    }

    /// Does this tileset have a tile for `id`?
    pub fn contains(&self, id: TileID) -> (r: bool)
        ensures
            r == self.has(id),
    {
        id.0 < self.tiles.len()
    }

    /// The tile with index `id`.
    pub fn lookup(&self, id: TileID) -> (r: Tile)
        requires
            self.has(id),
        ensures
            r == self.descriptors()[id.0 as int],
    {
        self.tiles[id.0]
    }
}

/// Every tile of a tileset whose atlas has room for all its tiles maps to a
/// full tile-sized rectangle inside the atlas.
pub proof fn lemma_rect_in_atlas(ts: &Tileset, i: int)
    requires
        ts.wf(),
        0 <= i < ts.descriptors().len(),
        ts.descriptors().len() <= (ts.atlas().width as int / 16) * (ts.atlas().height as int / 16),
    ensures
        rect_for(ts.atlas().width as int, i).w == TILE_SZ,
        rect_for(ts.atlas().width as int, i).h == TILE_SZ,
        0 <= rect_for(ts.atlas().width as int, i).x,
        rect_for(ts.atlas().width as int, i).x + TILE_SZ <= ts.atlas().width,
        0 <= rect_for(ts.atlas().width as int, i).y,
        rect_for(ts.atlas().width as int, i).y + TILE_SZ <= ts.atlas().height,
{
    let w = ts.atlas().width as int;
    let h = ts.atlas().height as int;
    let n = ts.descriptors().len() as int;
    let tw = w / 16;
    let th = h / 16;
    let row = i / tw;
    let col = i - row * tw;
    assert(1 <= tw);
    assert(0 <= row) by (nonlinear_arith)
        requires row == i / tw, 1 <= tw, 0 <= i;
    lemma_div_is_ordered(i, n - 1, tw);
    assert(row * 16 <= ((n - 1) / tw) * 16) by (nonlinear_arith)
        requires row <= (n - 1) / tw;
    assert(row * tw <= i && i - row * tw < tw) by (nonlinear_arith)
        requires row == i / tw, 1 <= tw, 0 <= i;
    assert(col * 16 <= (tw - 1) * 16) by (nonlinear_arith)
        requires col < tw;
    assert(tw * 16 <= w && th * 16 <= h) by (nonlinear_arith)
        requires tw == w / 16, th == h / 16, 0 <= h;
    assert(row < th) by (nonlinear_arith)
        requires row * tw <= i, i < n, n <= tw * th, 1 <= tw, 0 <= row;
    assert(0 <= col * 16 && col * 16 + 16 <= tw * 16) by (nonlinear_arith)
        requires 0 <= col < tw;
    assert(0 <= row * 16 && row * 16 + 16 <= th * 16) by (nonlinear_arith)
        requires 0 <= row < th;
}

/// Grid coordinate of a pixel offset: division by the tile size, truncating
/// toward zero.
pub open spec fn cell_of(a: int) -> int {
    if a >= 0 {
        a / (TILE_SZ as int)
    } else {
        -((-a) / (TILE_SZ as int))
    }
}

fn cell_coord(a: i64) -> (r: i64)
    requires
        a > i64::MIN,
    ensures
        r == cell_of(a as int),
{
    if a >= 0 {
        a / (TILE_SZ as i64)
    } else {
        -((-a) / (TILE_SZ as i64))
    }
}

/// Why a tilemap could not be built.
#[derive(Clone, Copy, Debug, PartialEq, Eq, Structural)]
pub enum TilemapError {
    /// The index list does not hold exactly `width * height` entries.
    WrongSize,
    /// Some index has no tile in the tileset.
    UnknownTile,
}

/// Every index of `map` names a tile of a tileset with `n` tiles.
pub open spec fn all_known(map: Seq<usize>, n: int) -> bool {
    forall|i: int| 0 <= i < map.len() ==> map[i] < n
}

/// One draw request: copy the atlas rectangle `frame` to world position `dest`.
#[derive(Clone, Copy, Debug, PartialEq, Eq, Structural)]
pub struct Blit {
    pub frame: Rect,
    pub dest: Vec2i,
}

/// `v` clamped into `[0, hi]`.
pub open spec fn clamp_to(v: int, hi: int) -> int {
    if v < 0 {
        0
    } else if v > hi {
        hi
    } else {
        v
    }
}

fn clamp_cell(v: i64, hi: i64) -> (r: i64)
    requires
        0 <= hi,
    ensures
        r == clamp_to(v as int, hi as int),
{
    if v < 0 {
        0
    } else if v > hi {
        hi
    } else {
        v
    }
}

/// A grid of tile indices placed in world space.
pub struct Tilemap {
    /// Where the tilemap is in space.
    pub position: Vec2i,
    dims: (usize, usize),
    tileset: Rc<Tileset>,
    map: Vec<TileID>,
}

impl Tilemap {
    pub closed spec fn width(&self) -> int {
        self.dims.0 as int
    }

    pub closed spec fn height(&self) -> int {
        self.dims.1 as int
    }

    pub closed spec fn grid(&self) -> Seq<TileID> {
        self.map@
    }

    pub closed spec fn tiles(&self) -> Tileset {
        *self.tileset
    }

    pub closed spec fn origin(&self) -> Vec2i {
        self.position
    }

    /// The grid has one index per cell, in row-major order, each naming a tile
    /// of the tileset.
    pub open spec fn wf(&self) -> bool {
        &&& self.tiles().wf()
        &&& self.grid().len() == self.width() * self.height()
        &&& forall|i: int| 0 <= i < self.grid().len() ==> self.tiles().has(#[trigger] self.grid()[i])
    }

    /// Column of the cell holding world point `p`.
    pub open spec fn cell_x(&self, p: Vec2i) -> int {
        cell_of(p.0 - self.origin().0)
    }

    /// Row of the cell holding world point `p`.
    pub open spec fn cell_y(&self, p: Vec2i) -> int {
        cell_of(p.1 - self.origin().1)
    }

    pub open spec fn in_map(&self, p: Vec2i) -> bool {
        0 <= self.cell_x(p) < self.width() && 0 <= self.cell_y(p) < self.height()
    }

    /// The index stored at world point `p`.
    pub open spec fn id_at(&self, p: Vec2i) -> TileID {
        self.grid()[self.cell_y(p) * self.width() + self.cell_x(p)]
    }

    /// The tile at world point `p`.
    pub open spec fn tile_at_spec(&self, p: Vec2i) -> Tile {
        self.tiles().descriptors()[self.id_at(p).0 as int]
    }

    pub fn new(position: Vec2i, dims: (usize, usize), tileset: &Rc<Tileset>, map: Vec<usize>) -> (r:
        Result<Self, TilemapError>)
        requires
            tileset.wf(),
        ensures
            r is Ok <==> (dims.0 as int * dims.1 as int == map@.len() && all_known(map@, tileset.descriptors().len() as int)),
            r == Err::<Self, TilemapError>(TilemapError::WrongSize) <==> dims.0 as int * dims.1 as int != map@.len(),
            r is Ok ==> r->Ok_0.wf(),
            r is Ok ==> r->Ok_0.origin() == position,
            r is Ok ==> r->Ok_0.width() == dims.0 && r->Ok_0.height() == dims.1,
            r is Ok ==> r->Ok_0.tiles() == **tileset,
            r is Ok ==> r->Ok_0.grid().len() == map@.len(),
            r is Ok ==> forall|i: int| 0 <= i < map@.len() ==> (#[trigger] r->Ok_0.grid()[i]).0 == map@[i],
    {
        let len = map.len();
        let size = dims.0.checked_mul(dims.1);
        match size {
            None => {
                return Err(TilemapError::WrongSize);
            },
            Some(n) => {
                if n != len {
                    return Err(TilemapError::WrongSize);
                }
            },
        }
        let mut ids: Vec<TileID> = Vec::new();
        let mut i: usize = 0;
        while i < map.len()
            invariant
                0 <= i <= map@.len(),
                ids@.len() == i,
                dims.0 as int * dims.1 as int == map@.len(),
                tileset.wf(),
                forall|j: int| 0 <= j < i ==> (#[trigger] ids@[j]).0 == map@[j],
                forall|j: int| 0 <= j < i ==> map@[j] < tileset.descriptors().len(),
            decreases map@.len() - i,
        {
            let id = TileID(map[i]);
            if !tileset.contains(id) {
                return Err(TilemapError::UnknownTile);
            }
            ids.push(id);
            i = i + 1;
        }
        let r = Self { position, dims, tileset: Rc::clone(tileset), map: ids };
        assert(forall|j: int| 0 <= j < r.grid().len() ==> r.tiles().has(#[trigger] r.grid()[j]));
        Ok(r)
    }

    /// The tile index at world point `p`.
    pub fn tile_id_at(&self, p: Vec2i) -> (r: TileID)
        requires
            self.wf(),
            self.in_map(p),
        ensures
            r == self.id_at(p),
    {
        let Vec2i(x, y) = p;
        let x = cell_coord(x as i64 - self.position.0 as i64);
        let y = cell_coord(y as i64 - self.position.1 as i64);
        let cx = x as usize;
        let cy = y as usize;
        let len = self.map.len();
        proof {
            let w = self.width();
            let h = self.height();
            assert(cy * w + cx < w * h) by (nonlinear_arith)
                requires 0 <= cx < w, 0 <= cy < h;
            assert(cy * w + cx < len);
        }
        self.map[cy * self.dims.0 + cx]
    }

    /// The viewport `b` covers pixels `b.x .. b.x + b.w - 1` and
    /// `b.y .. b.y + b.h - 1`, and overlaps the map's pixel footprint.
    pub open spec fn overlaps(&self, b: Rect) -> bool {
        &&& self.width() > 0 && self.height() > 0
        &&& b.w > 0 && b.h > 0
        &&& b.x < self.origin().0 + TILE_SZ * self.width()
        &&& b.x + b.w > self.origin().0
        &&& b.y < self.origin().1 + TILE_SZ * self.height()
        &&& b.y + b.h > self.origin().1
    }

    pub open spec fn first_col(&self, b: Rect) -> int {
        clamp_to(cell_of(b.x - self.origin().0), self.width() - 1)
    }

    pub open spec fn last_col(&self, b: Rect) -> int {
        clamp_to(cell_of(b.x + b.w - 1 - self.origin().0), self.width() - 1)
    }

    pub open spec fn first_row(&self, b: Rect) -> int {
        clamp_to(cell_of(b.y - self.origin().1), self.height() - 1)
    }

    pub open spec fn last_row(&self, b: Rect) -> int {
        clamp_to(cell_of(b.y + b.h - 1 - self.origin().1), self.height() - 1)
    }

    /// The pixel footprint of cell `(x, y)` shares a pixel with viewport `b`.
    pub open spec fn cell_meets(&self, b: Rect, x: int, y: int) -> bool {
        &&& b.w > 0 && b.h > 0
        &&& b.x < self.origin().0 + TILE_SZ * x + TILE_SZ
        &&& self.origin().0 + TILE_SZ * x < b.x + b.w
        &&& b.y < self.origin().1 + TILE_SZ * y + TILE_SZ
        &&& self.origin().1 + TILE_SZ * y < b.y + b.h
    }

    /// Position of cell `(x, y)`'s request among the requests for viewport `b`.
    pub open spec fn slot_of(&self, b: Rect, x: int, y: int) -> int {
        (y - self.first_row(b)) * (self.last_col(b) - self.first_col(b) + 1) + (x - self.first_col(b))
    }

    /// Column of the cell whose request stands at position `k` for viewport `b`.
    pub open spec fn col_at(&self, b: Rect, k: int) -> int {
        self.first_col(b) + k % (self.last_col(b) - self.first_col(b) + 1)
    }

    /// Row of the cell whose request stands at position `k` for viewport `b`.
    pub open spec fn row_at(&self, b: Rect, k: int) -> int {
        self.first_row(b) + k / (self.last_col(b) - self.first_col(b) + 1)
    }

    /// The draw request for cell `(x, y)`.
    pub open spec fn blit_for(&self, x: int, y: int) -> Blit {
        Blit {
            frame: rect_for(self.tiles().atlas().width as int, self.grid()[y * self.width() + x].0 as int),
            dest: Vec2i((self.origin().0 + TILE_SZ * x) as i32, (self.origin().1 + TILE_SZ * y) as i32),
        }
    }

    /// The draw requests for viewport `b`: none when it misses the map, else one
    /// per cell of the clamped range, row by row from the top, left to right.
    pub open spec fn visible_blits(&self, b: Rect) -> Seq<Blit> {
        if !self.overlaps(b) {
            Seq::empty()
        } else {
            let cols = self.last_col(b) - self.first_col(b) + 1;
            let rows = self.last_row(b) - self.first_row(b) + 1;
            Seq::new(
                (cols * rows) as nat,
                |k: int| self.blit_for(self.first_col(b) + k % cols, self.first_row(b) + k / cols),
            )
        }
    }

    /// The draw requests for the cells visible in the world-space viewport
    /// `bounds`.
    pub fn draw(&self, bounds: Rect) -> (r: Vec<Blit>)
        requires
            self.wf(),
            self.origin().0 + TILE_SZ * self.width() <= i32::MAX,
            self.origin().1 + TILE_SZ * self.height() <= i32::MAX,
        ensures
            r@ == self.visible_blits(bounds),
    {
        let mut out: Vec<Blit> = Vec::new();
        let Rect { x: sx, y: sy, w: sw, h: sh } = bounds;
        let (w, h) = self.dims;
        if w == 0 || h == 0 || sw == 0 || sh == 0 {
            return out;
        }
        let px = self.position.0 as i64;
        let py = self.position.1 as i64;
        let sx = sx as i64;
        let sy = sy as i64;
        let wi = w as i64;
        let hi = h as i64;
        if sx >= px + 16 * wi || sx + sw as i64 <= px || sy >= py + 16 * hi || sy + sh as i64 <= py {
            return out;
        }
        let left = clamp_cell(cell_coord(sx - px), wi - 1);
        let right = clamp_cell(cell_coord(sx + sw as i64 - 1 - px), wi - 1);
        let top = clamp_cell(cell_coord(sy - py), hi - 1);
        let bot = clamp_cell(cell_coord(sy + sh as i64 - 1 - py), hi - 1);
        proof {
            lemma_cell_of_monotone(sx - px, sx + sw - 1 - px);
            lemma_cell_of_monotone(sy - py, sy + sh - 1 - py);
        }
        let left = left as usize;
        let right = right as usize;
        let top = top as usize;
        let bot = bot as usize;
        let ghost cols = right - left + 1;
        let ghost rows = bot - top + 1;
        let len = self.map.len();
        let mut y: usize = top;
        while y <= bot
            invariant
                self.wf(),
                self.origin().0 + TILE_SZ * self.width() <= i32::MAX,
                self.origin().1 + TILE_SZ * self.height() <= i32::MAX,
                len == self.grid().len(),
                px == self.origin().0,
                py == self.origin().1,
                w == self.width(),
                h == self.height(),
                left <= right < w,
                top <= bot < h,
                top <= y <= bot + 1,
                cols == right - left + 1,
                out@.len() == (y - top) * cols,
                forall|k: int| 0 <= k < out@.len() ==> out@[k] == self.blit_for(left + k % cols, top + k / cols),
            decreases bot + 1 - y,
        {
            let mut x: usize = left;
            while x <= right
                invariant
                    self.wf(),
                    self.origin().0 + TILE_SZ * self.width() <= i32::MAX,
                    self.origin().1 + TILE_SZ * self.height() <= i32::MAX,
                    len == self.grid().len(),
                    px == self.origin().0,
                    py == self.origin().1,
                    w == self.width(),
                    h == self.height(),
                    left <= right < w,
                    top <= y <= bot < h,
                    left <= x <= right + 1,
                    cols == right - left + 1,
                    out@.len() == (y - top) * cols + (x - left),
                    forall|k: int| 0 <= k < out@.len() ==> out@[k] == self.blit_for(left + k % cols, top + k / cols),
                decreases right + 1 - x,
            {
                proof {
                    assert(y * w + x < w * h) by (nonlinear_arith)
                        requires x < w, y < h;
                    assert(self.tiles().has(self.grid()[y * w + x]));
                    assert(16 * x < 16 * w && 16 * y < 16 * h) by (nonlinear_arith)
                        requires x < w, y < h;
                    lemma_fundamental_div_mod_converse(out@.len() as int, cols, y - top, x - left);
                }
                let id = self.map[y * w + x];
                let frame = self.tileset.get_rect(id);
                let xpx = (x as i64 * 16 + px) as i32;
                let ypx = (y as i64 * 16 + py) as i32;
                let b = Blit { frame, dest: Vec2i(xpx, ypx) };
                proof {
                    assert(b == self.blit_for(x as int, y as int));
                    let c = out@.len() as int;
                    assert(c % cols == x - left);
                    assert(c / cols == y - top);
                    assert(b == self.blit_for(left + c % cols, top + c / cols));
                }
                out.push(b);
                x = x + 1;
            }
            proof {
                assert((y - top) * cols + cols == (y + 1 - top) * cols) by (nonlinear_arith);
            }
            y = y + 1;
        }
        proof {
            assert(left == self.first_col(bounds));
            assert(right == self.last_col(bounds));
            assert(top == self.first_row(bounds));
            assert(bot == self.last_row(bounds));
            assert(self.overlaps(bounds));
            assert((y - top) * cols == cols * rows) by (nonlinear_arith)
                requires y == bot + 1, rows == bot - top + 1;
            assert(out@ =~= self.visible_blits(bounds));
        }
        out
    }

    /// Move the map to world position `p`; its grid and tileset stay as they were.
    pub fn set_position(&mut self, p: Vec2i)
        ensures
            final(self).origin() == p,
            final(self).width() == old(self).width(),
            final(self).height() == old(self).height(),
            final(self).grid() == old(self).grid(),
            final(self).tiles() == old(self).tiles(),
            old(self).wf() ==> final(self).wf(),
    {
        self.position = p;
    }

    /// Width and height in cells.
    pub fn size(&self) -> (r: (usize, usize))
        ensures
            r.0 == self.width() && r.1 == self.height(),
    {
        self.dims
    }

    /// The tile at world point `p`.
    pub fn tile_at(&self, posn: Vec2i) -> (r: Tile)
        requires
            self.wf(),
            self.in_map(posn),
        ensures
            r == self.tile_at_spec(posn),
    {
        let id = self.tile_id_at(posn);
        proof {
            let w = self.width();
            let h = self.height();
            let cx = self.cell_x(posn);
            let cy = self.cell_y(posn);
            assert(cy * w + cx < w * h) by (nonlinear_arith)
                requires 0 <= cx < w, 0 <= cy < h;
            assert(self.tiles().has(self.grid()[cy * w + cx]));
        }
        self.tileset.lookup(id)
    }
}

/// A query at any point of cell `(x, y)`'s pixel footprint finds the tile
/// stored for that cell.
pub proof fn lemma_tile_at_footprint(m: &Tilemap, x: int, y: int, p: Vec2i)
    requires
        m.wf(),
        0 <= x < m.width(),
        0 <= y < m.height(),
        m.origin().0 + TILE_SZ * x <= p.0 < m.origin().0 + TILE_SZ * x + TILE_SZ,
        m.origin().1 + TILE_SZ * y <= p.1 < m.origin().1 + TILE_SZ * y + TILE_SZ,
    ensures
        m.in_map(p),
        m.tile_at_spec(p) == m.tiles().descriptors()[m.grid()[y * m.width() + x].0 as int],
{
    let ax = p.0 - m.origin().0;
    let ay = p.1 - m.origin().1;
    lemma_fundamental_div_mod_converse(ax, 16, x, ax - 16 * x);
    lemma_fundamental_div_mod_converse(ay, 16, y, ay - 16 * y);
}

/// Truncating division by the tile size never decreases.
pub proof fn lemma_cell_of_monotone(a: int, b: int)
    requires
        a <= b,
    ensures
        cell_of(a) <= cell_of(b),
{
    if a >= 0 {
        lemma_div_is_ordered(a, b, 16);
    } else if b < 0 {
        lemma_div_is_ordered(-b, -a, 16);
    } else {
        assert((-a) / 16 >= 0);
        assert(b / 16 >= 0);
    }
}

/// Along one axis: the cells `0 .. n - 1` of a grid starting at `o` that share
/// a pixel with the span `bx .. bx + bw - 1` are exactly those of the clamped
/// range, when the span overlaps the grid.
proof fn lemma_axis_range(o: int, n: int, bx: int, bw: int, x: int)
    requires
        0 <= x < n,
        bw > 0,
        bx < o + TILE_SZ * n,
        bx + bw > o,
    ensures
        (bx < o + TILE_SZ * x + TILE_SZ && o + TILE_SZ * x < bx + bw) <==> (clamp_to(cell_of(bx - o), n - 1)
            <= x <= clamp_to(cell_of(bx + bw - 1 - o), n - 1)),
{
    let a = bx - o;
    let c = bx + bw - 1 - o;
    lemma_fundamental_div_mod(a, 16);
    lemma_fundamental_div_mod(c, 16);
    if a < 0 {
        lemma_fundamental_div_mod(-a, 16);
    }
}

/// Drawing issues exactly one request per cell whose pixel footprint shares a
/// pixel with the viewport, and none for any other cell: the request at each
/// position belongs to one such cell, each such cell has its request at its
/// own position, and no two requests go to the same place.
pub proof fn lemma_draw_exactly_visible(m: &Tilemap, b: Rect)
    requires
        m.wf(),
        m.origin().0 + TILE_SZ * m.width() <= i32::MAX,
        m.origin().1 + TILE_SZ * m.height() <= i32::MAX,
    ensures
        forall|x: int, y: int|
            0 <= x < m.width() && 0 <= y < m.height() && #[trigger] m.cell_meets(b, x, y) ==> {
                &&& 0 <= m.slot_of(b, x, y) < m.visible_blits(b).len()
                &&& m.visible_blits(b)[m.slot_of(b, x, y)] == m.blit_for(x, y)
            },
        forall|k: int|
            #![trigger m.row_at(b, k)]
            0 <= k < m.visible_blits(b).len() ==> {
                &&& 0 <= m.col_at(b, k) < m.width() && 0 <= m.row_at(b, k) < m.height()
                &&& m.cell_meets(b, m.col_at(b, k), m.row_at(b, k))
                &&& k == m.slot_of(b, m.col_at(b, k), m.row_at(b, k))
                &&& m.visible_blits(b)[k] == m.blit_for(m.col_at(b, k), m.row_at(b, k))
            },
        forall|k1: int, k2: int|
            0 <= k1 < m.visible_blits(b).len() && 0 <= k2 < m.visible_blits(b).len() && k1 != k2
                ==> #[trigger] m.visible_blits(b)[k1].dest != #[trigger] m.visible_blits(b)[k2].dest,
{
    let w = m.width();
    let h = m.height();
    if !m.overlaps(b) {
        assert forall|x: int, y: int|
            0 <= x < w && 0 <= y < h implies !#[trigger] m.cell_meets(b, x, y) by {}
        assert(m.visible_blits(b).len() == 0);
    } else {
        lemma_draw_exactly_visible_overlapping(m, b);
    }
}

proof fn lemma_draw_exactly_visible_overlapping(m: &Tilemap, b: Rect)
    requires
        m.wf(),
        m.overlaps(b),
        m.origin().0 + TILE_SZ * m.width() <= i32::MAX,
        m.origin().1 + TILE_SZ * m.height() <= i32::MAX,
    ensures
        forall|x: int, y: int|
            0 <= x < m.width() && 0 <= y < m.height() && #[trigger] m.cell_meets(b, x, y) ==> {
                &&& 0 <= m.slot_of(b, x, y) < m.visible_blits(b).len()
                &&& m.visible_blits(b)[m.slot_of(b, x, y)] == m.blit_for(x, y)
            },
        forall|k: int|
            #![trigger m.row_at(b, k)]
            0 <= k < m.visible_blits(b).len() ==> {
                &&& 0 <= m.col_at(b, k) < m.width() && 0 <= m.row_at(b, k) < m.height()
                &&& m.cell_meets(b, m.col_at(b, k), m.row_at(b, k))
                &&& k == m.slot_of(b, m.col_at(b, k), m.row_at(b, k))
                &&& m.visible_blits(b)[k] == m.blit_for(m.col_at(b, k), m.row_at(b, k))
            },
        forall|k1: int, k2: int|
            0 <= k1 < m.visible_blits(b).len() && 0 <= k2 < m.visible_blits(b).len() && k1 != k2
                ==> #[trigger] m.visible_blits(b)[k1].dest != #[trigger] m.visible_blits(b)[k2].dest,
{
    let w = m.width();
    let h = m.height();
    let ox = m.origin().0 as int;
    let oy = m.origin().1 as int;
    let l = m.first_col(b);
    let t = m.first_row(b);
    let cols = m.last_col(b) - l + 1;
    let rows = m.last_row(b) - t + 1;
    lemma_cell_of_monotone(b.x - ox, b.x + b.w - 1 - ox);
    lemma_cell_of_monotone(b.y - oy, b.y + b.h - 1 - oy);
    assert(cols >= 1 && rows >= 1);
    assert forall|x: int, y: int|
        0 <= x < w && 0 <= y < h && #[trigger] m.cell_meets(b, x, y) implies {
            &&& 0 <= m.slot_of(b, x, y) < m.visible_blits(b).len()
            &&& m.visible_blits(b)[m.slot_of(b, x, y)] == m.blit_for(x, y)
        } by {
        lemma_axis_range(ox, w, b.x as int, b.w as int, x);
        lemma_axis_range(oy, h, b.y as int, b.h as int, y);
        let k = m.slot_of(b, x, y);
        assert(0 <= k < cols * rows) by (nonlinear_arith)
            requires k == (y - t) * cols + (x - l), 0 <= x - l < cols, 0 <= y - t < rows;
        lemma_fundamental_div_mod_converse(k, cols, y - t, x - l);
    }
    assert forall|k: int|
        #![trigger m.row_at(b, k)]
        0 <= k < m.visible_blits(b).len() implies {
            &&& 0 <= m.col_at(b, k) < m.width() && 0 <= m.row_at(b, k) < m.height()
            &&& m.cell_meets(b, m.col_at(b, k), m.row_at(b, k))
            &&& k == m.slot_of(b, m.col_at(b, k), m.row_at(b, k))
            &&& m.visible_blits(b)[k] == m.blit_for(m.col_at(b, k), m.row_at(b, k))
        } by {
        lemma_fundamental_div_mod(k, cols);
        let x = l + k % cols;
        let y = t + k / cols;
        assert(0 <= k / cols < rows) by (nonlinear_arith)
            requires 0 <= k < cols * rows, cols >= 1, k == cols * (k / cols) + k % cols, 0 <= k % cols < cols;
        lemma_axis_range(ox, w, b.x as int, b.w as int, x);
        lemma_axis_range(oy, h, b.y as int, b.h as int, y);
        assert(k == (y - t) * cols + (x - l)) by (nonlinear_arith)
            requires k == cols * (k / cols) + k % cols, x == l + k % cols, y == t + k / cols;
        assert(m.cell_meets(b, x, y));
        assert(m.visible_blits(b)[k] == m.blit_for(x, y));
        assert(k == m.slot_of(b, x, y));
    }
    assert forall|k1: int, k2: int|
        0 <= k1 < m.visible_blits(b).len() && 0 <= k2 < m.visible_blits(b).len() && k1 != k2
            implies #[trigger] m.visible_blits(b)[k1].dest != #[trigger] m.visible_blits(b)[k2].dest by {
        lemma_fundamental_div_mod(k1, cols);
        lemma_fundamental_div_mod(k2, cols);
        assert(0 <= k1 / cols < rows && 0 <= k2 / cols < rows) by (nonlinear_arith)
            requires 0 <= k1 < cols * rows, 0 <= k2 < cols * rows, cols >= 1,
                k1 == cols * (k1 / cols) + k1 % cols, 0 <= k1 % cols < cols,
                k2 == cols * (k2 / cols) + k2 % cols, 0 <= k2 % cols < cols;
        let x1 = l + k1 % cols;
        let x2 = l + k2 % cols;
        let y1 = t + k1 / cols;
        let y2 = t + k2 / cols;
        assert(x1 != x2 || y1 != y2);
    }
}

} // verus!
