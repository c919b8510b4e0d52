use vstd::arithmetic::power2::{lemma2_to64, lemma_pow2_strictly_increases, lemma_pow2_unfold, pow2};
use vstd::prelude::*;

verus! {

/// Side of a square map tile, in pixels.
pub const TILE_SIZE: u32 = 256;

/// Largest zoom level whose tile count per axis, two to the power of the
/// level, still fits the 32 bit tile indices.
pub const MAX_ZOOM: u8 = 31;

/// The number of tiles across the world map at `zoom`: two to the power of
/// the zoom level.
pub fn tiles_across(zoom: u8) -> (n: u32)
    requires
        zoom <= MAX_ZOOM,
    ensures
        n == pow2(zoom as nat),
{
    let mut n: u32 = 1;
    let mut level: u8 = 0;
    proof {
        lemma2_to64();
    }
    while level < zoom
        invariant
            level <= zoom <= MAX_ZOOM,
            n == pow2(level as nat),
        decreases zoom - level,
    {
        proof {
            lemma_pow2_unfold((level + 1) as nat);
            lemma_pow2_strictly_increases((level + 1) as nat, 32);
            lemma2_to64();
        }
        n = n * 2;
        level += 1;
    }
    n
}

/// A cell of a screen or of the tile grid: column `x`, row `y`.
#[derive(Clone, Copy, PartialEq, Eq, Structural, Debug, Hash)]
pub struct Coord {
    pub x: u32,
    pub y: u32,
}

/// What a [`Viewport`] says, as mathematical integers.
///
/// A viewport is a window of `size` pixels onto the tiled world map at one
/// zoom level. Its top left corner lies in the tile `first_tile`, `offset`
/// pixels right of and below that tile's own corner; its bottom right pixel
/// lies in the tile `last_tile`.
pub struct ViewportView {
    pub first_tile: (int, int),
    pub last_tile: (int, int),
    pub offset: (int, int),
    pub size: (int, int),
    pub zoom: int,
}

/// The tile that holds the last of `size` pixels that begin `offset` pixels
/// into the tile `first`.
pub open spec fn last_tile_of(first: int, offset: int, size: int) -> int {
    first + (offset + size - 1) / (TILE_SIZE as int)
}

impl ViewportView {
    /// The offset stays inside one tile, the picture has at least one pixel
    /// each way, the last tile is the one that holds the last pixel, and all
    /// tiles exist at the zoom level.
    pub open spec fn wf(self) -> bool {
        &&& 0 <= self.first_tile.0
        &&& 0 <= self.first_tile.1
        &&& 0 <= self.offset.0 < TILE_SIZE
        &&& 0 <= self.offset.1 < TILE_SIZE
        &&& 1 <= self.size.0 <= u32::MAX
        &&& 1 <= self.size.1 <= u32::MAX
        &&& 0 <= self.zoom <= MAX_ZOOM
        &&& self.last_tile.0 == last_tile_of(self.first_tile.0, self.offset.0, self.size.0)
        &&& self.last_tile.1 == last_tile_of(self.first_tile.1, self.offset.1, self.size.1)
        &&& self.last_tile.0 < pow2(self.zoom as nat)
        &&& self.last_tile.1 < pow2(self.zoom as nat)
    }

    /// Number of tile columns that the viewport touches.
    pub open spec fn columns(self) -> int {
        self.last_tile.0 - self.first_tile.0 + 1
    }

    /// Number of tile rows that the viewport touches.
    pub open spec fn rows(self) -> int {
        self.last_tile.1 - self.first_tile.1 + 1
    }
}

/// The tiles of a viewport are in order and fit the machine's numbers, and a
/// viewport touches no more columns and rows of tiles than its size allows.
pub proof fn lemma_viewport(view: ViewportView)
    requires
        view.wf(),
    ensures
        view.first_tile.0 <= view.last_tile.0 < 0x8000_0000,
        view.first_tile.1 <= view.last_tile.1 < 0x8000_0000,
        1 <= view.columns() <= 0x100_0001,
        1 <= view.rows() <= 0x100_0001,
{
    lemma2_to64();
    if view.zoom < 31 {
        lemma_pow2_strictly_increases(view.zoom as nat, 31);
    }
}

impl ViewportView {
    /// The tile that holds the pixel in column `x`, row `y` of the picture.
    pub open spec fn tile_under(self, x: int, y: int) -> (int, int) {
        (
            self.first_tile.0 + (self.offset.0 + x) / (TILE_SIZE as int),
            self.first_tile.1 + (self.offset.1 + y) / (TILE_SIZE as int),
        )
    }

    /// Whether the picture shows a pixel of the tile in column `tx`, row `ty`.
    pub open spec fn shows(self, tx: int, ty: int) -> bool {
        exists|x: int, y: int|
            0 <= x < self.size.0 && 0 <= y < self.size.1 && #[trigger] self.tile_under(x, y) == (
                tx,
                ty,
            )
    }

    /// Whether the tile in column `tx`, row `ty` lies between the first and
    /// the last tile of the viewport.
    pub open spec fn spans(self, tx: int, ty: int) -> bool {
        self.first_tile.0 <= tx <= self.last_tile.0 && self.first_tile.1 <= ty <= self.last_tile.1
    }
}

/// A viewport spans the least set of tiles that covers its picture: every
/// tile that it spans shows in the picture, and the picture shows no other.
pub proof fn lemma_spans_what_shows(view: ViewportView, tx: int, ty: int)
    requires
        view.wf(),
    ensures
        view.spans(tx, ty) <==> view.shows(tx, ty),
{
    if view.spans(tx, ty) {
        let x = if tx == view.first_tile.0 {
            0
        } else {
            (tx - view.first_tile.0) * TILE_SIZE - view.offset.0
        };
        let y = if ty == view.first_tile.1 {
            0
        } else {
            (ty - view.first_tile.1) * TILE_SIZE - view.offset.1
        };
        assert(0 <= x < view.size.0 && 0 <= y < view.size.1);
        assert(view.tile_under(x, y) == (tx, ty));
    }
    if view.shows(tx, ty) {
        let (x, y) = choose|x: int, y: int|
            0 <= x < view.size.0 && 0 <= y < view.size.1 && #[trigger] view.tile_under(x, y) == (
                tx,
                ty,
            );
        assert(view.tile_under(x, y) == (tx, ty));
    }
}

/// A reference map: a viewport of a fixed pixel size onto the tiled world map
/// at one zoom level, described by the tiles that it spans.
#[derive(Clone, Copy, Debug)]
pub struct Viewport {
    first_tile: (u32, u32),
    last_tile: (u32, u32),
    offset: (u32, u32),
    size: (u32, u32),
    zoom: u8,
}

impl View for Viewport {
    type V = ViewportView;

    closed spec fn view(&self) -> ViewportView {
        ViewportView {
            first_tile: (self.first_tile.0 as int, self.first_tile.1 as int),
            last_tile: (self.last_tile.0 as int, self.last_tile.1 as int),
            offset: (self.offset.0 as int, self.offset.1 as int),
            size: (self.size.0 as int, self.size.1 as int),
            zoom: self.zoom as int,
        }
    }
}

impl Viewport {
    /// The description that `from` accepts: see [`ViewportView::wf`].
    pub open spec fn wf(&self) -> bool {
        self@.wf()
    }

    /// The viewport that the given numbers describe.
    pub open spec fn described(
        first_tile: (u32, u32),
        offset: (u32, u32),
        width: u32,
        height: u32,
        zoom: u8,
    ) -> ViewportView {
        ViewportView {
            first_tile: (first_tile.0 as int, first_tile.1 as int),
            last_tile: (
                last_tile_of(first_tile.0 as int, offset.0 as int, width as int),
                last_tile_of(first_tile.1 as int, offset.1 as int, height as int),
            ),
            offset: (offset.0 as int, offset.1 as int),
            size: (width as int, height as int),
            zoom: zoom as int,
        }
    }

    /// The viewport of `width` by `height` pixels at `zoom` whose top left
    /// corner lies `offset` pixels into the tile `first_tile`. Its last tile
    /// is the one that holds its last pixel, so that the viewport spans the
    /// tiles that it shows and no others. `None` when an offset reaches the
    /// next tile, the picture has no pixel, the zoom level is above
    /// [`MAX_ZOOM`], or the viewport reaches beyond the tiles of its zoom
    /// level.
    pub fn from(first_tile: (u32, u32), offset: (u32, u32), width: u32, height: u32, zoom: u8) -> (viewport:
        Option<Viewport>)
        ensures
            viewport.is_some() <==> Self::described(first_tile, offset, width, height, zoom).wf(),
            viewport matches Some(m) ==> m.wf() && m@ == Self::described(
                first_tile,
                offset,
                width,
                height,
                zoom,
            ),
    {
        if offset.0 >= TILE_SIZE || offset.1 >= TILE_SIZE || width == 0 || height == 0 || zoom
            > MAX_ZOOM {
            return None;
        }
        let across: u64 = tiles_across(zoom) as u64;
        let last_x: u64 = first_tile.0 as u64 + (offset.0 as u64 + width as u64 - 1) / 256;
        let last_y: u64 = first_tile.1 as u64 + (offset.1 as u64 + height as u64 - 1) / 256;
        if last_x >= across || last_y >= across {
            return None;
        }
        proof {
            lemma2_to64();
            if zoom < 31 {
                lemma_pow2_strictly_increases(zoom as nat, 31);
            }
        }
        Some(
            Viewport {
                first_tile,
                last_tile: (last_x as u32, last_y as u32),
                offset,
                size: (width, height),
                zoom,
            },
        )
    }

    /// Width and height in pixels.
    pub fn pixel_size(&self) -> (size: (u32, u32))
        ensures
            size.0 == self@.size.0,
            size.1 == self@.size.1,
    {
        self.size
    }

    /// How many pixels the top left corner lies right of and below the corner
    /// of its tile.
    pub fn pixel_offsets(&self) -> (offsets: (u32, u32))
        ensures
            offsets.0 == self@.offset.0,
            offsets.1 == self@.offset.1,
    {
        self.offset
    }

    /// Column and row of the tile that holds the top left corner.
    pub fn tile_offsets(&self) -> (tile: (u32, u32))
        ensures
            tile.0 == self@.first_tile.0,
            tile.1 == self@.first_tile.1,
    {
        self.first_tile
    }

    /// The tile columns that the viewport touches, first to last.
    pub fn tile_xs(&self) -> (xs: std::ops::RangeInclusive<u32>)
        ensures
            xs@.start == self@.first_tile.0,
            xs@.end == self@.last_tile.0,
            !xs@.exhausted,
    {
        std::ops::RangeInclusive::new(self.first_tile.0, self.last_tile.0)
    }

    /// The tile rows that the viewport touches, first to last.
    pub fn tile_ys(&self) -> (ys: std::ops::RangeInclusive<u32>)
        ensures
            ys@.start == self@.first_tile.1,
            ys@.end == self@.last_tile.1,
            !ys@.exhausted,
    {
        std::ops::RangeInclusive::new(self.first_tile.1, self.last_tile.1)
    }

    /// Column and row of the tile that holds the bottom right pixel.
    pub fn last_tile(&self) -> (tile: (u32, u32))
        ensures
            tile.0 == self@.last_tile.0,
            tile.1 == self@.last_tile.1,
    {
        self.last_tile
    }

    /// Zoom level of the viewport.
    pub fn zoom(&self) -> (zoom: u8)
        ensures
            zoom == self@.zoom,
    {
        self.zoom
    }
}

} // verus!
