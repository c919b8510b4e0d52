use crate::activity::{date_text, Timestamp};
use crate::raster::{clear, fill_rect, lemma_offset_bounds, nth_pixel, Color, Raster};
use crate::slippy::{tiles_across, Coord, Viewport, ViewportView, MAX_ZOOM};
use vstd::arithmetic::power2::pow2;
use vstd::prelude::*;

verus! {

/// The weakest intensity that a visited cell is drawn with.
pub const FAINTEST: u8 = 6;

/// The strongest intensity: that of the most visited cell.
pub const TOP: u8 = 255;

/// Whether `levels` can serve as the intensities of a ramp: `levels[c]` for a
/// cell visited `c` times. Unvisited cells have none; visited ones have at
/// least [`FAINTEST`]; more visits never give less; and the last entry of a
/// table that reaches beyond zero is [`TOP`].
pub open spec fn valid_levels(levels: Seq<u8>) -> bool {
    &&& levels.len() >= 1
    &&& levels[0] == 0
    &&& forall|c: int| 1 <= c < levels.len() ==> #[trigger] levels[c] >= FAINTEST
    &&& forall|a: int, b: int| 0 <= a <= b < levels.len() ==> #[trigger] levels[a] <= #[trigger] levels[b]
    &&& levels.len() >= 2 ==> levels.last() == TOP
}

/// The intensity of a cell visited `count` times under the table `levels`:
/// nothing for an unvisited cell, the table's entry where it has one, and
/// [`TOP`] beyond the table's end.
pub open spec fn level_of(levels: Seq<u8>, count: u32) -> u8 {
    if count == 0 {
        0
    } else if count < levels.len() {
        levels[count as int]
    } else {
        TOP
    }
}

/// The colour of intensity `level`: red, and as opaque as it is red.
pub open spec fn shade(level: u8) -> Color {
    Color { r: level, g: 0, b: 0, a: level }
}

/// The intensities with which visit counts are drawn, from no visit up to
/// the count that the ramp was made for.
#[derive(Debug)]
pub struct Ramp {
    levels: Vec<u8>,
}

impl View for Ramp {
    type V = Seq<u8>;

    closed spec fn view(&self) -> Seq<u8> {
        self.levels@
    }
}

impl Ramp {
    /// The table of a ramp is valid: see [`valid_levels`].
    pub open spec fn wf(&self) -> bool {
        valid_levels(self@)
    }

    /// The count that gets the last entry of the table.
    pub open spec fn spec_peak(&self) -> int {
        self@.len() - 1
    }

    /// Takes `levels` as a ramp; `None` unless [`valid_levels`] holds of it.
    pub fn from_levels(levels: Vec<u8>) -> (ramp: Option<Ramp>)
        ensures
            ramp.is_some() <==> valid_levels(levels@),
            ramp matches Some(r) ==> r.wf() && r@ == levels@,
    {
        let n = levels.len();
        if n == 0 || levels[0] != 0 {
            return None;
        }
        if n >= 2 && levels[n - 1] != TOP {
            return None;
        }
        let mut i: usize = 1;
        while i < n
            invariant
                1 <= i <= n,
                n == levels@.len(),
                levels@[0] == 0,
                forall|c: int| 1 <= c < i ==> #[trigger] levels@[c] >= FAINTEST,
                forall|a: int, b: int| 0 <= a <= b < i ==> #[trigger] levels@[a] <= #[trigger] levels@[b],
            decreases n - i,
        {
            if levels[i] < FAINTEST || levels[i] < levels[i - 1] {
                proof {
                    if levels@[i as int] >= FAINTEST {
                        assert(levels@[i - 1] > levels@[i as int]);
                    }
                }
                return None;
            }
            proof {
                assert forall|a: int, b: int| 0 <= a <= b < i + 1 implies #[trigger] levels@[a]
                    <= #[trigger] levels@[b] by {
                    if b == i && a < i {
                        assert(levels@[a] <= levels@[i - 1]);
                    }
                }
            }
            i += 1;
        }
        Some(Ramp { levels })
    }

    /// The count that gets the last entry of the table.
    pub fn peak(&self) -> (count: usize)
        requires
            self.wf(),
        ensures
            count == self.spec_peak(),
    {
        self.levels.len() - 1
    }

    /// The intensity of a cell visited `count` times.
    pub fn level(&self, count: u32) -> (level: u8)
        requires
            self.wf(),
        ensures
            level == level_of(self@, count),
    {
        if count == 0 {
            0
        } else if (count as usize) < self.levels.len() {
            self.levels[count as usize]
        } else {
            TOP
        }
    }
}

/// More visits never look fainter, a visited cell is never fainter than
/// [`FAINTEST`], and only an unvisited cell has no intensity at all.
pub proof fn lemma_levels_rise(levels: Seq<u8>, fewer: u32, more: u32)
    requires
        valid_levels(levels),
        fewer <= more,
    ensures
        level_of(levels, fewer) <= level_of(levels, more),
        more > 0 ==> level_of(levels, more) >= FAINTEST,
        level_of(levels, 0) == 0,
{
    if fewer > 0 && more < levels.len() {
        assert(levels[fewer as int] <= levels[more as int]);
    }
    if more > 0 && more < levels.len() {
        assert(levels[more as int] >= FAINTEST);
    }
}

/// A cell visited as often as the ramp's last count, a count of at least
/// one, is drawn with [`TOP`].
pub proof fn lemma_peak_is_top(levels: Seq<u8>, count: u32)
    requires
        valid_levels(levels),
        count >= 1,
        count >= levels.len() - 1,
    ensures
        level_of(levels, count) == TOP,
{
}

/// The cells that a heatmap counts for: `width` columns and `height` rows,
/// the first of them column `origin.0`, row `origin.1`.
pub struct Grid {
    pub origin: (int, int),
    pub width: int,
    pub height: int,
}

impl Grid {
    /// Whether the grid has a cell for `point`.
    pub open spec fn covers(self, point: Coord) -> bool {
        &&& self.origin.0 <= point.x < self.origin.0 + self.width
        &&& self.origin.1 <= point.y < self.origin.1 + self.height
    }

    /// Where the counter of `point` stands among the counters, which run row
    /// after row.
    pub open spec fn slot(self, point: Coord) -> int {
        (point.x - self.origin.0) + (point.y - self.origin.1) * self.width
    }

    /// The number of cells.
    pub open spec fn cells(self) -> int {
        self.width * self.height
    }

    /// The slots of `points`, in their order.
    pub open spec fn slots(self, points: Seq<Coord>) -> Seq<int> {
        Seq::new(points.len(), |i: int| self.slot(points[i]))
    }
}

/// A covered point has its slot among the cells, and two covered points
/// share a slot only if they are the same.
pub proof fn lemma_slot(grid: Grid, a: Coord, b: Coord)
    requires
        grid.covers(a),
        grid.covers(b),
    ensures
        0 <= grid.slot(a) < grid.cells(),
        grid.slot(a) == grid.slot(b) ==> a == b,
{
    let ax = a.x - grid.origin.0;
    let ay = a.y - grid.origin.1;
    let bx = b.x - grid.origin.0;
    let by = b.y - grid.origin.1;
    let w = grid.width;
    let h = grid.height;
    assert(0 <= ay * w <= (h - 1) * w) by (nonlinear_arith)
        requires
            0 <= ay <= h - 1,
            0 <= w,
    ;
    assert((h - 1) * w + w == w * h) by (nonlinear_arith);
    if ax + ay * w == bx + by * w {
        assert(ay == by) by (nonlinear_arith)
            requires
                ax + ay * w == bx + by * w,
                0 <= ax < w,
                0 <= bx < w,
        ;
        assert(a.x == b.x && a.y == b.y);
    }
}

/// The counters of a heatmap and the greatest count ever seen in them.
pub struct Tally {
    pub counts: Seq<u32>,
    pub max_value: u32,
}

impl Tally {
    /// The tally of a heatmap that nothing was added to.
    pub open spec fn fresh(cells: nat) -> Tally {
        Tally { counts: Seq::new(cells, |i: int| 0u32), max_value: 0 }
    }

    /// Whether the counter at `slot` exists and can still grow.
    pub open spec fn can_add(self, slot: int) -> bool {
        0 <= slot < self.counts.len() && self.counts[slot] < u32::MAX
    }

    /// One more visit at `slot`: that counter grows by one, and the greatest
    /// count follows it where the counter now exceeds it.
    pub open spec fn add(self, slot: int) -> Tally {
        let count = (self.counts[slot] + 1) as u32;
        Tally {
            counts: self.counts.update(slot, count),
            max_value: if count > self.max_value {
                count
            } else {
                self.max_value
            },
        }
    }

    /// The visits at `slots`, one after the other.
    pub open spec fn add_all(self, slots: Seq<int>) -> Tally
        decreases slots.len(),
    {
        if slots.len() == 0 {
            self
        } else {
            self.add_all(slots.drop_last()).add(slots.last())
        }
    }

    /// Whether each of `slots` can be added in turn.
    pub open spec fn can_add_all(self, slots: Seq<int>) -> bool
        decreases slots.len(),
    {
        slots.len() == 0 || (self.can_add_all(slots.drop_last()) && self.add_all(
            slots.drop_last(),
        ).can_add(slots.last()))
    }

    /// A counter above `amount` loses `amount`; any other stays.
    pub open spec fn decayed_count(count: u32, amount: u32) -> u32 {
        if count > amount {
            (count - amount) as u32
        } else {
            count
        }
    }

    /// Every counter decayed by `amount`, and the greatest count one lower,
    /// whatever the counters hold.
    pub open spec fn decay(self, amount: u32) -> Tally {
        Tally {
            counts: Seq::new(self.counts.len(), |i: int| Self::decayed_count(self.counts[i], amount)),
            max_value: (self.max_value - 1) as u32,
        }
    }

    /// The greatest count is exact: no counter exceeds it, and unless all
    /// are zero one counter holds it.
    pub open spec fn peak_is_exact(self) -> bool {
        &&& forall|i: int| 0 <= i < self.counts.len() ==> #[trigger] self.counts[i] <= self.max_value
        &&& self.max_value > 0 ==> exists|i: int|
            0 <= i < self.counts.len() && #[trigger] self.counts[i] == self.max_value
    }
}

/// Column at which captions begin.
pub const CAPTION_LEFT: u32 = 20;

/// A picture is this many caption lines high.
pub const CAPTION_LINES: u32 = 15;

/// How the date of a caption is written: the month's name, the day in two
/// digits, and the year.
pub const CAPTION_DATE: &'static str = "%B %d, %Y";

/// A line of text to be drawn onto a picture, with the top left corner of
/// its first letter at column `x`, row `y`.
#[derive(Debug)]
pub struct Label {
    pub x: u32,
    pub y: u32,
    pub text: String,
}

/// How a heatmap lays its cells out: what does not change while it counts.
pub struct Layout {
    /// The viewport that the heatmap was made for.
    pub viewport: ViewportView,
    /// The zoom level of the cells that are counted.
    pub zoom: int,
    /// The cells that are counted.
    pub grid: Grid,
    /// Width and height of the picture, in pixels.
    pub picture: (int, int),
    /// Side of the square that one cell fills on the picture, in pixels.
    pub cell_size: int,
    /// Where on the picture the top left corner of the grid's first cell
    /// comes to lie; it may lie outside.
    pub cell_origin: (int, int),
    /// Whether a point outside the grid is turned away when it is projected.
    pub bounded: bool,
    /// Whether a picture with captions names the date.
    pub render_date: bool,
    /// Whether a picture with captions names the title.
    pub render_title: bool,
}

impl Layout {
    /// The picture is that of the viewport, the grid and the picture fit
    /// their machine types, and a cell is at least one pixel wide.
    pub open spec fn wf(self) -> bool {
        &&& self.viewport.wf()
        &&& self.picture == self.viewport.size
        &&& 0 <= self.zoom <= u8::MAX
        &&& 0 <= self.grid.origin.0
        &&& 0 <= self.grid.origin.1
        &&& 0 <= self.grid.width
        &&& 0 <= self.grid.height
        &&& self.grid.origin.0 + self.grid.width <= u32::MAX
        &&& self.grid.origin.1 + self.grid.height <= u32::MAX
        &&& 1 <= self.cell_size
    }

    /// The cell whose square holds the pixel in column `x`, row `y`, counted
    /// from the grid's first cell; it may lie outside the grid.
    pub open spec fn cell_under(self, x: int, y: int) -> (int, int) {
        ((x - self.cell_origin.0) / self.cell_size, (y - self.cell_origin.1) / self.cell_size)
    }

    /// Whether the cell in column `i`, row `j` from the grid's first cell
    /// belongs to the grid.
    pub open spec fn has_cell(self, i: int, j: int) -> bool {
        0 <= i < self.grid.width && 0 <= j < self.grid.height
    }
}

/// What the picture of a heatmap shows in column `x`, row `y`: the shade of
/// the cell whose square holds the pixel, by the cell's count; transparency
/// for an unvisited cell and outside every square.
pub open spec fn shown(layout: Layout, tally: Tally, levels: Seq<u8>, x: int, y: int) -> Color {
    let (i, j) = layout.cell_under(x, y);
    if layout.has_cell(i, j) {
        shade(level_of(levels, tally.counts[i + j * layout.grid.width]))
    } else {
        clear()
    }
}

/// The cell that a point is counted in. `raw` is the cell that the point's
/// coordinates fall on, `None` for a point outside the viewport. A bounded
/// layout also turns away a cell that its grid does not cover.
pub open spec fn screen_cell(layout: Layout, raw: Option<Coord>) -> Option<Coord> {
    match raw {
        Some(cell) => if !layout.bounded || layout.grid.covers(cell) {
            Some(cell)
        } else {
            None
        },
        None => None,
    }
}

/// Height of one caption line: the picture's height over [`CAPTION_LINES`],
/// rounded down.
pub open spec fn caption_line(layout: Layout) -> int {
    layout.picture.1 / (CAPTION_LINES as int)
}

/// The captions of a picture, in the order in which they are drawn: column,
/// row and text of each. The lowest line stands one line above the bottom
/// edge. The date takes it, where dates are drawn and `date` can be
/// written; the title stands above the date's line, or in its place where
/// dates are not drawn.
pub open spec fn captions(layout: Layout, name: Seq<char>, date: Timestamp) -> Seq<
    (int, int, Seq<char>),
> {
    let line = caption_line(layout);
    let lowest = layout.picture.1 - line;
    let dated: Seq<(int, int, Seq<char>)> = if layout.render_date && date_text(
        date.secs,
        date.nanos,
        CAPTION_DATE@,
    ) is Some {
        seq![(CAPTION_LEFT as int, lowest, date_text(date.secs, date.nanos, CAPTION_DATE@)->0)]
    } else {
        seq![]
    };
    let titled: Seq<(int, int, Seq<char>)> = if layout.render_title {
        seq![
            (
                CAPTION_LEFT as int,
                if layout.render_date {
                    lowest - line
                } else {
                    lowest
                },
                name,
            ),
        ]
    } else {
        seq![]
    };
    dated + titled
}

/// What the labels say, as [`captions`] lists them.
pub open spec fn label_views(labels: Seq<Label>) -> Seq<(int, int, Seq<char>)> {
    Seq::new(labels.len(), |i: int| (labels[i].x as int, labels[i].y as int, labels[i].text@))
}

/// A representation of a heatmap: counters over the cells of a grid, and the
/// picture that shows them.
pub trait Heatmap {
    /// The heatmap's own invariant.
    spec fn wf(&self) -> bool;

    /// How the cells are laid out.
    spec fn layout(&self) -> Layout;

    /// The counters and the greatest count seen.
    spec fn tally(&self) -> Tally;

    /// A well formed heatmap has a well formed layout, one counter for each
    /// cell of its grid, and a picture that fits the memory.
    proof fn lemma_wf(&self)
        requires
            self.wf(),
        ensures
            self.layout().wf(),
            self.tally().counts.len() == self.layout().grid.cells(),
            4 * (self.layout().picture.0 * self.layout().picture.1) <= usize::MAX,
    ;

    /// Renders the heatmap: each pixel as [`shown`] says, with the
    /// intensities of `ramp`, which must be the ramp of the greatest count
    /// seen, so that the most visited cell is drawn strongest.
    fn as_image(&self, ramp: &Ramp) -> (img: Raster)
        requires
            self.wf(),
            ramp.wf(),
            ramp.spec_peak() == self.tally().max_value,
        ensures
            img.wf(),
            img@.width == self.layout().picture.0,
            img@.height == self.layout().picture.1,
            forall|x: int, y: int| #[trigger]
                img@.contains(x, y) ==> img@.at(x, y) == shown(
                    self.layout(),
                    self.tally(),
                    ramp@,
                    x,
                    y,
                ),
    ;

    /// Renders the heatmap as `as_image` does, and lists the captions to
    /// draw onto the picture: see [`captions`].
    fn as_image_with_overlay(&self, ramp: &Ramp, name: &str, date: &Timestamp) -> (out: (
        Raster,
        Vec<Label>,
    ))
        requires
            self.wf(),
            ramp.wf(),
            ramp.spec_peak() == self.tally().max_value,
        ensures
            out.0.wf(),
            out.0@.width == self.layout().picture.0,
            out.0@.height == self.layout().picture.1,
            forall|x: int, y: int| #[trigger]
                out.0@.contains(x, y) ==> out.0@.at(x, y) == shown(
                    self.layout(),
                    self.tally(),
                    ramp@,
                    x,
                    y,
                ),
            label_views(out.1@) == captions(self.layout(), name@, *date),
    ;

    /// The count of the cell `point`; `None` where the grid has no such
    /// cell.
    fn count_at(&self, point: &Coord) -> (count: Option<u32>)
        requires
            self.wf(),
        ensures
            count == (if self.layout().grid.covers(*point) {
                Some(self.tally().counts[self.layout().grid.slot(*point)])
            } else {
                None
            }),
    ;

    /// The greatest count seen.
    fn max_value(&self) -> (max: u32)
        requires
            self.wf(),
        ensures
            max == self.tally().max_value,
    ;

    /// Adds a point to the heatmap: one more visit of its cell.
    fn add_point(&mut self, point: &Coord)
        requires
            old(self).wf(),
            old(self).layout().grid.covers(*point),
            old(self).tally().can_add(old(self).layout().grid.slot(*point)),
        ensures
            final(self).wf(),
            final(self).layout() == old(self).layout(),
            final(self).tally() == old(self).tally().add(old(self).layout().grid.slot(*point)),
    ;

    /// Reduces the heatmap by the given amount: see [`Tally::decay`].
    fn decay(&mut self, amount: u32)
        requires
            old(self).wf(),
            old(self).tally().max_value > 0,
        ensures
            final(self).wf(),
            final(self).layout() == old(self).layout(),
            final(self).tally() == old(self).tally().decay(amount),
    ;

    /// Decides in which cell a point is counted, if in any: see
    /// [`screen_cell`].
    fn project_to_screen(&self, raw: &Option<Coord>) -> (cell: Option<Coord>)
        requires
            self.wf(),
        ensures
            cell == screen_cell(self.layout(), *raw),
    ;
}

/// The captions for a picture of the given height.
fn make_labels(
    height: u32,
    render_date: bool,
    render_title: bool,
    name: &str,
    date: &Timestamp,
    Ghost(layout): Ghost<Layout>,
) -> (labels: Vec<Label>)
    requires
        layout.picture.1 == height,
        layout.render_date == render_date,
        layout.render_title == render_title,
    ensures
        label_views(labels@) == captions(layout, name@, *date),
{
    let line = height / CAPTION_LINES;
    let lowest = height - line;
    let mut labels: Vec<Label> = Vec::new();
    let mut y = lowest;
    if render_date {
        match date.format(CAPTION_DATE) {
            Some(text) => {
                labels.push(Label { x: CAPTION_LEFT, y, text });
            },
            None => {},
        }
        y = y - line;
    }
    if render_title {
        labels.push(Label { x: CAPTION_LEFT, y, text: name.to_owned() });
    }
    proof {
        assert(label_views(labels@) =~= captions(layout, name@, *date));
    }
    labels
}

/// Heatmap with one cell for each pixel of the viewport.
#[derive(Debug)]
pub struct PixelHeatmap {
    map: Viewport,
    heatmap: Vec<u32>,
    height: u32,
    width: u32,
    max_value: u32,
    render_date: bool,
    render_title: bool,
}

impl PixelHeatmap {
    /// The layout of a pixel heatmap over the viewport `map`: one cell for
    /// each pixel, drawn onto that pixel.
    pub open spec fn layout_for(map: ViewportView, render_date: bool, render_title: bool) -> Layout {
        Layout {
            viewport: map,
            zoom: map.zoom,
            grid: Grid { origin: (0, 0), width: map.size.0, height: map.size.1 },
            picture: map.size,
            cell_size: 1,
            cell_origin: (0, 0),
            bounded: false,
            render_date,
            render_title,
        }
    }

    /// Whether a heatmap for `map` fits the memory.
    pub open spec fn fits(map: ViewportView) -> bool {
        4 * (map.size.0 * map.size.1) <= usize::MAX
    }

    /// What a well formed pixel heatmap is: its layout is the one that
    /// [`PixelHeatmap::layout_for`] gives for its viewport, and that viewport
    /// is well formed and fits the memory.
    pub proof fn lemma_layout(&self)
        requires
            self.wf(),
        ensures
            self.layout().viewport.wf(),
            Self::fits(self.layout().viewport),
            self.layout() == Self::layout_for(
                self.layout().viewport,
                self.layout().render_date,
                self.layout().render_title,
            ),
    {
    }

    /// Whether a heatmap for `map` fits the memory: see [`PixelHeatmap::fits`].
    pub fn can_hold(map: &Viewport) -> (yes: bool)
        requires
            map.wf(),
        ensures
            yes == Self::fits(map@),
    {
        let (width, height) = map.pixel_size();
        assert(width * height <= 0xffff_ffff * 0xffff_ffff) by (nonlinear_arith)
            requires
                width <= 0xffff_ffff,
                height <= 0xffff_ffff,
        ;
        4u128 * (width as u128 * height as u128) <= usize::MAX as u128
    }

    /// A heatmap for `map` with every count at zero.
    pub fn from(map: Viewport, render_date: bool, render_title: bool) -> (made: Self)
        requires
            map.wf(),
            Self::fits(map@),
        ensures
            made.wf(),
            made.layout() == Self::layout_for(map@, render_date, render_title),
            made.tally() == Tally::fresh((map@.size.0 * map@.size.1) as nat),
    {
        let (width, height) = map.pixel_size();
        assert(width * height <= 4 * (width * height)) by (nonlinear_arith);
        let size: usize = width as usize * height as usize;
        let heatmap: Vec<u32> = vec![0u32; size];
        let made = PixelHeatmap { map, heatmap, height, width, max_value: 0, render_date, render_title };
        proof {
            assert(made.tally().counts =~= Tally::fresh((map@.size.0 * map@.size.1) as nat).counts);
        }
        made
    }
}

impl Heatmap for PixelHeatmap {
    closed spec fn wf(&self) -> bool {
        &&& self.map.wf()
        &&& self.map@.size == (self.width as int, self.height as int)
        &&& self.heatmap@.len() == self.width * self.height
        &&& 4 * (self.width * self.height) <= usize::MAX
    }

    closed spec fn layout(&self) -> Layout {
        Self::layout_for(self.map@, self.render_date, self.render_title)
    }

    closed spec fn tally(&self) -> Tally {
        Tally { counts: self.heatmap@, max_value: self.max_value }
    }

    proof fn lemma_wf(&self) {
    }

    fn as_image(&self, ramp: &Ramp) -> (img: Raster) {
        let n = self.heatmap.len();
        let mut pixels: Vec<u8> = Vec::new();
        let mut i: usize = 0;
        while i < n
            invariant
                i <= n,
                n == self.heatmap@.len(),
                4 * n <= usize::MAX,
                ramp.wf(),
                pixels@.len() == 4 * i,
                forall|k: int|
                    0 <= k < i ==> {
                        #[trigger] nth_pixel(pixels@, k) == shade(level_of(ramp@, self.heatmap@[k]))
                    },
            decreases n - i,
        {
            let ghost before = pixels@;
            let heat = ramp.level(self.heatmap[i]);
            pixels.push(heat);
            pixels.push(0);
            pixels.push(0);
            pixels.push(heat);
            proof {
                assert forall|k: int| 0 <= k < i implies #[trigger] nth_pixel(pixels@, k) == nth_pixel(
                    before,
                    k,
                ) by {}
            }
            i += 1;
        }
        let img = Raster::from_raw(self.width, self.height, pixels).unwrap();
        proof {
            let layout = self.layout();
            assert forall|x: int, y: int| #[trigger] img@.contains(x, y) implies img@.at(x, y)
                == shown(layout, self.tally(), ramp@, x, y) by {
                lemma_offset_bounds(img@, x, y);
                let k = y * self.width + x;
                assert(0 <= k < n);
                assert(img@.at(x, y) == nth_pixel(pixels@, k));
                assert(layout.cell_under(x, y) == (x, y));
                assert(x + y * layout.grid.width == k) by (nonlinear_arith)
                    requires
                        k == y * self.width + x,
                        layout.grid.width == self.width,
                ;
            }
        }
        img
    }

    fn as_image_with_overlay(&self, ramp: &Ramp, name: &str, date: &Timestamp) -> (out: (
        Raster,
        Vec<Label>,
    )) {
        let img = self.as_image(ramp);
        let labels = make_labels(
            self.height,
            self.render_date,
            self.render_title,
            name,
            date,
            Ghost(self.layout()),
        );
        (img, labels)
    }

    fn count_at(&self, point: &Coord) -> (count: Option<u32>) {
        if point.x >= self.width || point.y >= self.height {
            return None;
        }
        proof {
            lemma_slot(self.layout().grid, *point, *point);
        }
        let index: usize = point.x as usize + point.y as usize * self.width as usize;
        Some(self.heatmap[index])
    }

    fn max_value(&self) -> (max: u32) {
        self.max_value
    }

    fn add_point(&mut self, point: &Coord) {
        proof {
            lemma_slot(self.layout().grid, *point, *point);
        }
        let index: usize = point.x as usize + point.y as usize * self.width as usize;
        let px = self.heatmap[index] + 1;
        self.heatmap.set(index, px);
        if px > self.max_value {
            self.max_value = px;
        }
    }

    fn decay(&mut self, amount: u32) {
        self.max_value = self.max_value - 1;
        let n = self.heatmap.len();
        let mut i: usize = 0;
        while i < n
            invariant
                i <= n,
                n == self.heatmap@.len(),
                n == old(self).heatmap@.len(),
                self.map == old(self).map,
                self.width == old(self).width,
                self.height == old(self).height,
                self.render_date == old(self).render_date,
                self.render_title == old(self).render_title,
                self.max_value == old(self).max_value - 1,
                forall|k: int|
                    0 <= k < i ==> #[trigger] self.heatmap@[k] == Tally::decayed_count(
                        old(self).heatmap@[k],
                        amount,
                    ),
                forall|k: int| i <= k < n ==> #[trigger] self.heatmap@[k] == old(self).heatmap@[k],
            decreases n - i,
        {
            let px = self.heatmap[i];
            if px > amount {
                self.heatmap.set(i, px - amount);
            }
            i += 1;
        }
        proof {
            assert(self.tally().counts =~= old(self).tally().decay(amount).counts);
        }
    }

    fn project_to_screen(&self, raw: &Option<Coord>) -> (cell: Option<Coord>) {
        *raw
    }
}

/// What the picture of a tile heatmap shows in column `x`, row `y` once the
/// cells before column `column`, and in that column those before row `row`,
/// have been drawn.
pub open spec fn drawn(
    layout: Layout,
    tally: Tally,
    levels: Seq<u8>,
    x: int,
    y: int,
    column: int,
    row: int,
) -> Color {
    let (i, j) = layout.cell_under(x, y);
    if i < column || (i == column && j < row) {
        shown(layout, tally, levels, x, y)
    } else {
        clear()
    }
}

/// Squares of side `side` that follow one another: the distance `d` falls
/// into the square number `i` exactly when `d / side` is `i`.
pub proof fn lemma_square_of(d: int, side: int, i: int)
    requires
        side >= 1,
    ensures
        (i * side <= d < i * side + side) <==> d / side == i,
{
    vstd::arithmetic::div_mod::lemma_fundamental_div_mod(d, side);
    if i * side <= d < i * side + side {
        vstd::arithmetic::div_mod::lemma_fundamental_div_mod_converse(d, side, i, d - i * side);
    }
    if d / side == i {
        assert(side * i == i * side) by (nonlinear_arith);
    }
}

/// Heatmap with one cell for each map tile of a zoom level of its own.
#[derive(Debug)]
pub struct TileHeatmap {
    map: Viewport,
    heatmap: Vec<u32>,
    height: u32,
    width: u32,
    min: Coord,
    max: Coord,
    max_value: u32,
    zoom: u8,
    tile_size: u32,
    tile_origin: (i32, i32),
}

impl TileHeatmap {
    /// The layout of a tile heatmap over the viewport `map` that counts the
    /// tiles of zoom level `zoom` from `min` up to, but not including, `max`,
    /// and draws each as a square of `tile_size` pixels, the first with its
    /// corner at `tile_origin`.
    pub open spec fn layout_for(
        map: ViewportView,
        zoom: u8,
        min: Coord,
        max: Coord,
        tile_size: u32,
        tile_origin: (i32, i32),
    ) -> Layout {
        Layout {
            viewport: map,
            zoom: zoom as int,
            grid: Grid {
                origin: (min.x as int, min.y as int),
                width: max.x - min.x,
                height: max.y - min.y,
            },
            picture: map.size,
            cell_size: tile_size as int,
            cell_origin: (tile_origin.0 as int, tile_origin.1 as int),
            bounded: true,
            render_date: false,
            render_title: false,
        }
    }

    /// Whether the given numbers describe a tile heatmap over `map` that the
    /// machine can hold and draw: the zoom level has tiles and the bounds
    /// lie among them, in order; the tiles are at least one pixel wide;
    /// counters and picture fit the memory; and the picture, the side of a
    /// tile and the squares of all tiles lie within the signed coordinates
    /// of the drawing routine.
    pub open spec fn describes_grid(
        map: ViewportView,
        zoom: u8,
        min: Coord,
        max: Coord,
        tile_size: u32,
        tile_origin: (i32, i32),
    ) -> bool {
        &&& zoom <= MAX_ZOOM
        &&& min.x <= max.x <= pow2(zoom as nat)
        &&& min.y <= max.y <= pow2(zoom as nat)
        &&& 1 <= tile_size <= i32::MAX
        &&& (max.x - min.x) * (max.y - min.y) <= usize::MAX
        &&& tile_origin.0 + (max.x - min.x) * tile_size <= i32::MAX
        &&& tile_origin.1 + (max.y - min.y) * tile_size <= i32::MAX
        &&& map.size.0 <= i32::MAX
        &&& map.size.1 <= i32::MAX
        &&& 4 * (map.size.0 * map.size.1) <= usize::MAX
    }

    /// The square of a tile on the picture, told by two pixels: `first` is
    /// where the far corner of the grid's first tile comes to lie, `second`
    /// where the far corner of the tile diagonally behind it does. The side
    /// of the square is the distance of their columns, and the near corner
    /// of the first tile lies one side before `first`. `None` where the side
    /// is no positive number, or a number does not fit the signed
    /// coordinates of the drawing routine.
    pub open spec fn tile_square(first: Coord, second: Coord) -> Option<(u32, (i32, i32))> {
        let side = second.x - first.x;
        if 1 <= side <= i32::MAX && first.x <= i32::MAX && first.y <= i32::MAX {
            Some((side as u32, ((first.x - side) as i32, (first.y - side) as i32)))
        } else {
            None
        }
    }

    /// A heatmap over `map` that counts the tiles of zoom level `zoom` from
    /// column `min.x`, row `min.y` up to, but not including, column `max.x`,
    /// row `max.y`, with every count at zero. The pixels `first` and
    /// `second` tell where the tiles lie on the picture: see
    /// [`TileHeatmap::tile_square`]. `None` unless they give a square and
    /// [`TileHeatmap::describes_grid`] holds with it.
    pub fn from(map: Viewport, zoom: u8, min: Coord, max: Coord, first: Coord, second: Coord) -> (made:
        Option<Self>)
        requires
            map.wf(),
        ensures
            made.is_some() <==> (Self::tile_square(first, second) matches Some((side, origin))
                && Self::describes_grid(map@, zoom, min, max, side, origin)),
            made matches Some(heat) ==> {
                let (side, origin) = Self::tile_square(first, second)->0;
                &&& heat.wf()
                &&& heat.layout() == Self::layout_for(map@, zoom, min, max, side, origin)
                &&& heat.tally() == Tally::fresh(((max.x - min.x) * (max.y - min.y)) as nat)
            },
    {
        if second.x <= first.x || first.x > i32::MAX as u32 || first.y > i32::MAX as u32 {
            return None;
        }
        let tile_size: u32 = second.x - first.x;
        if tile_size > i32::MAX as u32 {
            return None;
        }
        let size: i32 = tile_size as i32;
        let tile_origin: (i32, i32) = (first.x as i32 - size, first.y as i32 - size);
        Self::with_squares(map, zoom, min, max, tile_size, tile_origin)
    }

    /// As `from`, with the square of a tile given by its side and by the
    /// near corner of the first tile.
    fn with_squares(
        map: Viewport,
        zoom: u8,
        min: Coord,
        max: Coord,
        tile_size: u32,
        tile_origin: (i32, i32),
    ) -> (made: Option<Self>)
        requires
            map.wf(),
        ensures
            made.is_some() <==> Self::describes_grid(map@, zoom, min, max, tile_size, tile_origin),
            made matches Some(heat) ==> {
                &&& heat.wf()
                &&& heat.layout() == Self::layout_for(map@, zoom, min, max, tile_size, tile_origin)
                &&& heat.tally() == Tally::fresh(((max.x - min.x) * (max.y - min.y)) as nat)
            },
    {
        let (picture_width, picture_height) = map.pixel_size();
        if zoom > MAX_ZOOM || min.x > max.x || min.y > max.y || tile_size == 0 || tile_size
            > i32::MAX as u32 {
            return None;
        }
        let across = tiles_across(zoom);
        if max.x > across || max.y > across {
            return None;
        }
        let width: u32 = max.x - min.x;
        let height: u32 = max.y - min.y;
        assert(width * height <= 0xffff_ffff * 0xffff_ffff && width * tile_size <= 0xffff_ffff
            * 0xffff_ffff && height * tile_size <= 0xffff_ffff * 0xffff_ffff && picture_width
            * picture_height <= 0xffff_ffff * 0xffff_ffff) by (nonlinear_arith)
            requires
                width <= 0xffff_ffff,
                height <= 0xffff_ffff,
                tile_size <= 0xffff_ffff,
                picture_width <= 0xffff_ffff,
                picture_height <= 0xffff_ffff,
        ;
        let cells: u128 = width as u128 * height as u128;
        let right: i128 = tile_origin.0 as i128 + width as i128 * tile_size as i128;
        let bottom: i128 = tile_origin.1 as i128 + height as i128 * tile_size as i128;
        let bytes: u128 = 4u128 * (picture_width as u128 * picture_height as u128);
        if cells > usize::MAX as u128 || right > i32::MAX as i128 || bottom > i32::MAX as i128
            || picture_width > i32::MAX as u32 || picture_height > i32::MAX as u32 || bytes
            > usize::MAX as u128 {
            return None;
        }
        let heatmap: Vec<u32> = vec![0u32; cells as usize];
        let made = TileHeatmap {
            map,
            heatmap,
            height,
            width,
            min,
            max,
            max_value: 0,
            zoom,
            tile_size,
            tile_origin,
        };
        proof {
            assert(made.tally().counts =~= Tally::fresh(
                ((max.x - min.x) * (max.y - min.y)) as nat,
            ).counts);
        }
        Some(made)
    }

    /// What a well formed tile heatmap is: its layout is the one that
    /// [`TileHeatmap::layout_for`] gives for the numbers that the layout
    /// itself holds, and [`TileHeatmap::describes_grid`] holds of them.
    pub proof fn lemma_layout(&self)
        requires
            self.wf(),
        ensures
            ({
                let l = self.layout();
                let min = Coord { x: l.grid.origin.0 as u32, y: l.grid.origin.1 as u32 };
                let max = Coord {
                    x: (l.grid.origin.0 + l.grid.width) as u32,
                    y: (l.grid.origin.1 + l.grid.height) as u32,
                };
                let side = l.cell_size as u32;
                let origin = (l.cell_origin.0 as i32, l.cell_origin.1 as i32);
                &&& l.viewport.wf()
                &&& Self::describes_grid(l.viewport, l.zoom as u8, min, max, side, origin)
                &&& l == Self::layout_for(l.viewport, l.zoom as u8, min, max, side, origin)
            }),
    {
    }

    /// The zoom level of the counted tiles.
    pub fn zoom(&self) -> (zoom: u8)
        ensures
            zoom == self.layout().zoom,
    {
        self.zoom
    }
}

impl Heatmap for TileHeatmap {
    closed spec fn wf(&self) -> bool {
        &&& self.map.wf()
        &&& Self::describes_grid(
            self.map@,
            self.zoom,
            self.min,
            self.max,
            self.tile_size,
            self.tile_origin,
        )
        &&& self.width == self.max.x - self.min.x
        &&& self.height == self.max.y - self.min.y
        &&& self.heatmap@.len() == self.width * self.height
    }

    closed spec fn layout(&self) -> Layout {
        Self::layout_for(
            self.map@,
            self.zoom,
            self.min,
            self.max,
            self.tile_size,
            self.tile_origin,
        )
    }

    closed spec fn tally(&self) -> Tally {
        Tally { counts: self.heatmap@, max_value: self.max_value }
    }

    proof fn lemma_wf(&self) {
    }

    fn as_image(&self, ramp: &Ramp) -> (img: Raster) {
        let (picture_width, picture_height) = self.map.pixel_size();
        let mut canvas = Raster::new(picture_width, picture_height);
        let ghost layout = self.layout();
        let ghost tally = self.tally();
        proof {
            assert forall|x: int, y: int| #[trigger] canvas@.contains(x, y) implies canvas@.at(x, y)
                == clear() by {
                lemma_offset_bounds(canvas@, x, y);
            }
        }
        let mut i: u32 = 0;
        while i < self.width
            invariant
                self.wf(),
                ramp.wf(),
                layout == self.layout(),
                tally == self.tally(),
                canvas.wf(),
                canvas@.width == picture_width,
                canvas@.height == picture_height,
                0 < picture_width <= i32::MAX,
                0 < picture_height <= i32::MAX,
                i <= self.width,
                forall|x: int, y: int| #[trigger]
                    canvas@.contains(x, y) ==> canvas@.at(x, y) == drawn(
                        layout,
                        tally,
                        ramp@,
                        x,
                        y,
                        i as int,
                        0,
                    ),
            decreases self.width - i,
        {
            let mut j: u32 = 0;
            while j < self.height
                invariant
                    self.wf(),
                    ramp.wf(),
                    layout == self.layout(),
                    tally == self.tally(),
                    canvas.wf(),
                    canvas@.width == picture_width,
                    canvas@.height == picture_height,
                    0 < picture_width <= i32::MAX,
                    0 < picture_height <= i32::MAX,
                    i < self.width,
                    j <= self.height,
                    forall|x: int, y: int| #[trigger]
                        canvas@.contains(x, y) ==> canvas@.at(x, y) == drawn(
                            layout,
                            tally,
                            ramp@,
                            x,
                            y,
                            i as int,
                            j as int,
                        ),
                decreases self.height - j,
            {
                let ghost cell = Coord { x: (self.min.x + i) as u32, y: (self.min.y + j) as u32 };
                proof {
                    lemma_slot(layout.grid, cell, cell);
                    assert(i * self.tile_size + self.tile_size <= self.width * self.tile_size)
                        by (nonlinear_arith)
                        requires
                            i + 1 <= self.width,
                            0 <= self.tile_size,
                    ;
                    assert(j * self.tile_size + self.tile_size <= self.height * self.tile_size)
                        by (nonlinear_arith)
                        requires
                            j + 1 <= self.height,
                            0 <= self.tile_size,
                    ;
                    assert(0 <= i * self.tile_size && 0 <= j * self.tile_size) by (nonlinear_arith)
                        requires
                            0 <= i,
                            0 <= j,
                            0 <= self.tile_size,
                    ;
                }
                let count = self.heatmap[i as usize + j as usize * self.width as usize];
                let heat = ramp.level(count);
                let left: i64 = self.tile_origin.0 as i64 + i as i64 * self.tile_size as i64;
                let top: i64 = self.tile_origin.1 as i64 + j as i64 * self.tile_size as i64;
                let ghost before = canvas@;
                fill_rect(
                    &mut canvas,
                    left as i32,
                    top as i32,
                    self.tile_size,
                    self.tile_size,
                    Color { r: heat, g: 0, b: 0, a: heat },
                );
                proof {
                    assert forall|x: int, y: int| #[trigger]
                        canvas@.contains(x, y) implies canvas@.at(x, y) == drawn(
                        layout,
                        tally,
                        ramp@,
                        x,
                        y,
                        i as int,
                        j + 1,
                    ) by {
                        assert(before.contains(x, y));
                        lemma_square_of(x - layout.cell_origin.0, layout.cell_size, i as int);
                        lemma_square_of(y - layout.cell_origin.1, layout.cell_size, j as int);
                    }
                }
                j += 1;
            }
            proof {
                assert forall|x: int, y: int| #[trigger]
                    canvas@.contains(x, y) implies canvas@.at(x, y) == drawn(
                    layout,
                    tally,
                    ramp@,
                    x,
                    y,
                    i + 1,
                    0,
                ) by {}
            }
            i += 1;
        }
        canvas
    }

    /// Captions are not supported: the list of labels is empty.
    fn as_image_with_overlay(&self, ramp: &Ramp, _name: &str, _date: &Timestamp) -> (out: (
        Raster,
        Vec<Label>,
    )) {
        let img = self.as_image(ramp);
        let labels: Vec<Label> = Vec::new();
        proof {
            assert(label_views(labels@) =~= captions(self.layout(), _name@, *_date));
        }
        (img, labels)
    }

    fn count_at(&self, point: &Coord) -> (count: Option<u32>) {
        if self.min.x <= point.x && point.x < self.max.x && self.min.y <= point.y && point.y
            < self.max.y {
            proof {
                lemma_slot(self.layout().grid, *point, *point);
            }
            let index: usize = (point.x - self.min.x) as usize + (point.y - self.min.y) as usize
                * self.width as usize;
            return Some(self.heatmap[index]);
        }
        None
    }

    fn max_value(&self) -> (max: u32) {
        self.max_value
    }

    fn add_point(&mut self, point: &Coord) {
        proof {
            lemma_slot(self.layout().grid, *point, *point);
        }
        let index: usize = (point.x - self.min.x) as usize + (point.y - self.min.y) as usize
            * self.width as usize;
        let px = self.heatmap[index] + 1;
        self.heatmap.set(index, px);
        if px > self.max_value {
            self.max_value = px;
        }
    }

    fn decay(&mut self, amount: u32) {
        self.max_value = self.max_value - 1;
        let n = self.heatmap.len();
        let mut i: usize = 0;
        while i < n
            invariant
                i <= n,
                n == self.heatmap@.len(),
                n == old(self).heatmap@.len(),
                self.map == old(self).map,
                self.width == old(self).width,
                self.height == old(self).height,
                self.min == old(self).min,
                self.max == old(self).max,
                self.zoom == old(self).zoom,
                self.tile_size == old(self).tile_size,
                self.tile_origin == old(self).tile_origin,
                self.max_value == old(self).max_value - 1,
                forall|k: int|
                    0 <= k < i ==> #[trigger] self.heatmap@[k] == Tally::decayed_count(
                        old(self).heatmap@[k],
                        amount,
                    ),
                forall|k: int| i <= k < n ==> #[trigger] self.heatmap@[k] == old(self).heatmap@[k],
            decreases n - i,
        {
            let px = self.heatmap[i];
            if px > amount {
                self.heatmap.set(i, px - amount);
            }
            i += 1;
        }
        proof {
            assert(self.tally().counts =~= old(self).tally().decay(amount).counts);
        }
    }

    fn project_to_screen(&self, raw: &Option<Coord>) -> (cell: Option<Coord>) {
        match raw {
            Some(c) => {
                if self.min.x <= c.x && c.x < self.max.x && self.min.y <= c.y && c.y < self.max.y {
                    Some(*c)
                } else {
                    None
                }
            },
            None => None,
        }
    }
}

/// One more visit keeps the greatest count exact: without decay, the
/// greatest count is the greatest counter.
pub proof fn lemma_peak_stays_exact(tally: Tally, slot: int)
    requires
        tally.peak_is_exact(),
        tally.can_add(slot),
    ensures
        tally.add(slot).peak_is_exact(),
{
    let after = tally.add(slot);
    assert forall|i: int| 0 <= i < after.counts.len() implies #[trigger] after.counts[i]
        <= after.max_value by {
        if i != slot {
            assert(tally.counts[i] <= tally.max_value);
        } else {
            assert(tally.counts[slot] <= tally.max_value);
        }
    }
    if after.max_value > 0 {
        if after.counts[slot] == after.max_value {
            assert(0 <= slot < after.counts.len() && after.counts[slot] == after.max_value);
        } else {
            let i = choose|i: int|
                0 <= i < tally.counts.len() && #[trigger] tally.counts[i] == tally.max_value;
            assert(i != slot);
            assert(after.counts[i] == after.max_value);
        }
    }
}

/// A visit lowers no counter and leaves the number of counters as it is.
pub proof fn lemma_add_only_grows(tally: Tally, slot: int)
    requires
        tally.can_add(slot),
    ensures
        tally.add(slot).counts.len() == tally.counts.len(),
        tally.add(slot).max_value >= tally.max_value,
        forall|i: int|
            0 <= i < tally.counts.len() ==> #[trigger] tally.add(slot).counts[i] >= tally.counts[i],
{
}

/// Visits to cells that are all different raise each visited counter by
/// one and leave every other counter as it was.
pub proof fn lemma_one_visit_each(tally: Tally, slots: Seq<int>)
    requires
        slots.no_duplicates(),
        forall|k: int|
            0 <= k < slots.len() ==> 0 <= #[trigger] slots[k] < tally.counts.len()
                && tally.counts[slots[k]] < u32::MAX,
    ensures
        tally.can_add_all(slots),
        tally.add_all(slots).counts.len() == tally.counts.len(),
        forall|i: int|
            0 <= i < tally.counts.len() ==> #[trigger] tally.add_all(slots).counts[i]
                == tally.counts[i] + (if slots.contains(i) {
                1int
            } else {
                0int
            }),
    decreases slots.len(),
{
    if slots.len() > 0 {
        let front = slots.drop_last();
        let last = slots.last();
        assert forall|k: int| 0 <= k < front.len() implies 0 <= #[trigger] front[k]
            < tally.counts.len() && tally.counts[front[k]] < u32::MAX by {
            assert(front[k] == slots[k]);
        }
        assert(front.no_duplicates()) by {
            assert forall|i: int, j: int|
                0 <= i < front.len() && 0 <= j < front.len() && i != j implies front[i]
                != front[j] by {
                assert(front[i] == slots[i] && front[j] == slots[j]);
            }
        }
        lemma_one_visit_each(tally, front);
        let before = tally.add_all(front);
        assert(!front.contains(last)) by {
            if front.contains(last) {
                let k = choose|k: int| 0 <= k < front.len() && front[k] == last;
                assert(slots[k] == slots[slots.len() - 1]);
            }
        }
        assert(0 <= last < tally.counts.len() && tally.counts[last] < u32::MAX) by {
            assert(slots[slots.len() - 1] == last);
        }
        assert(before.counts[last] == tally.counts[last]);
        let after = before.add(last);
        assert forall|i: int| 0 <= i < tally.counts.len() implies #[trigger] after.counts[i]
            == tally.counts[i] + (if slots.contains(i) {
            1int
        } else {
            0int
        }) by {
            if i == last {
                assert(slots[slots.len() - 1] == i);
            } else {
                if slots.contains(i) {
                    let k = choose|k: int| 0 <= k < slots.len() && slots[k] == i;
                    assert(front[k] == i);
                }
                if front.contains(i) {
                    let k = choose|k: int| 0 <= k < front.len() && front[k] == i;
                    assert(slots[k] == i);
                }
            }
        }
    } else {
        assert forall|i: int| 0 <= i < tally.counts.len() implies !slots.contains(i) by {}
    }
}

/// A tally that nothing was added to has an exact greatest count.
pub proof fn lemma_fresh_is_exact(cells: nat)
    ensures
        Tally::fresh(cells).peak_is_exact(),
{
}

/// Visits one after the other keep the greatest count exact.
pub proof fn lemma_visits_keep_peak_exact(tally: Tally, slots: Seq<int>)
    requires
        tally.peak_is_exact(),
        tally.can_add_all(slots),
    ensures
        tally.add_all(slots).peak_is_exact(),
    decreases slots.len(),
{
    if slots.len() > 0 {
        lemma_visits_keep_peak_exact(tally, slots.drop_last());
        lemma_peak_stays_exact(tally.add_all(slots.drop_last()), slots.last());
    }
}

/// After visits to cells that are all different, on a fresh tally, every
/// visited counter stands at one and every other at zero; the greatest count
/// is one as soon as there is a visit.
pub proof fn lemma_distinct_visits(cells: nat, slots: Seq<int>)
    requires
        slots.no_duplicates(),
        forall|k: int| 0 <= k < slots.len() ==> 0 <= #[trigger] slots[k] < cells,
    ensures
        Tally::fresh(cells).can_add_all(slots),
        Tally::fresh(cells).add_all(slots).counts.len() == cells,
        forall|i: int|
            0 <= i < cells ==> #[trigger] Tally::fresh(cells).add_all(slots).counts[i] == (if slots.contains(
                i,
            ) {
                1u32
            } else {
                0u32
            }),
        Tally::fresh(cells).add_all(slots).max_value == (if slots.len() > 0 {
            1u32
        } else {
            0u32
        }),
{
    let fresh = Tally::fresh(cells);
    lemma_one_visit_each(fresh, slots);
    lemma_fresh_is_exact(cells);
    lemma_visits_keep_peak_exact(fresh, slots);
    let after = fresh.add_all(slots);
    if slots.len() > 0 {
        assert(slots.contains(slots[0]));
        assert(after.counts[slots[0]] == 1);
    }
}

/// Covered points that are all different have slots that are all different.
pub proof fn lemma_slots_differ(grid: Grid, points: Seq<Coord>)
    requires
        points.no_duplicates(),
        forall|k: int| 0 <= k < points.len() ==> grid.covers(#[trigger] points[k]),
    ensures
        grid.slots(points).no_duplicates(),
        grid.slots(points).len() == points.len(),
        forall|k: int| 0 <= k < points.len() ==> 0 <= #[trigger] grid.slots(points)[k] < grid.cells(),
{
    let slots = grid.slots(points);
    assert forall|i: int, j: int| 0 <= i < slots.len() && 0 <= j < slots.len() && i != j implies slots[i]
        != slots[j] by {
        lemma_slot(grid, points[i], points[j]);
    }
    assert forall|k: int| 0 <= k < points.len() implies 0 <= #[trigger] slots[k] < grid.cells() by {
        lemma_slot(grid, points[k], points[k]);
    }
}

/// The picture of a heatmap without visits is transparent throughout.
pub proof fn lemma_unvisited_is_transparent(
    layout: Layout,
    tally: Tally,
    levels: Seq<u8>,
    x: int,
    y: int,
)
    requires
        layout.wf(),
        tally.counts.len() == layout.grid.cells(),
        forall|i: int| 0 <= i < tally.counts.len() ==> #[trigger] tally.counts[i] == 0,
    ensures
        shown(layout, tally, levels, x, y) == clear(),
{
    let (i, j) = layout.cell_under(x, y);
    if layout.has_cell(i, j) {
        lemma_cell_index(layout, i, j);
        assert(tally.counts[i + j * layout.grid.width] == 0);
    }
}

/// The counter of a cell of the grid is one of the counters.
pub proof fn lemma_cell_index(layout: Layout, i: int, j: int)
    requires
        layout.wf(),
        layout.has_cell(i, j),
    ensures
        0 <= i + j * layout.grid.width < layout.grid.cells(),
{
    let w = layout.grid.width;
    let h = layout.grid.height;
    assert(0 <= j * w <= (h - 1) * w) by (nonlinear_arith)
        requires
            0 <= j <= h - 1,
            0 <= w,
    ;
    assert((h - 1) * w + w == w * h) by (nonlinear_arith);
}

/// Under a ramp made for the greatest count, a pixel whose cell holds that
/// count, a count of at least one, shows the strongest shade; a pixel whose
/// cell was never visited is transparent.
pub proof fn lemma_peak_is_strongest(
    layout: Layout,
    tally: Tally,
    levels: Seq<u8>,
    x: int,
    y: int,
)
    requires
        layout.wf(),
        valid_levels(levels),
        levels.len() == tally.max_value + 1,
        layout.has_cell(layout.cell_under(x, y).0, layout.cell_under(x, y).1),
    ensures
        ({
            let (i, j) = layout.cell_under(x, y);
            let count = tally.counts[i + j * layout.grid.width];
            &&& count == tally.max_value && count >= 1 ==> shown(layout, tally, levels, x, y)
                == shade(TOP)
            &&& count == 0 ==> shown(layout, tally, levels, x, y) == clear()
        }),
{
}

/// Adds the points to the heatmap in their order, up to the first that
/// cannot be added: one outside the grid, or one whose counter is full.
/// Hands back how many were added.
pub fn add_points<H: Heatmap>(map: &mut H, points: &Vec<Coord>) -> (added: usize)
    requires
        old(map).wf(),
    ensures
        final(map).wf(),
        final(map).layout() == old(map).layout(),
        added <= points@.len(),
        old(map).tally().can_add_all(old(map).layout().grid.slots(points@.take(added as int))),
        final(map).tally() == old(map).tally().add_all(
            old(map).layout().grid.slots(points@.take(added as int)),
        ),
        forall|k: int|
            0 <= k < added ==> old(map).layout().grid.covers(#[trigger] points@[k]),
        added < points@.len() ==> !(old(map).layout().grid.covers(points@[added as int])
            && final(map).tally().can_add(old(map).layout().grid.slot(points@[added as int]))),
{
    let ghost grid = map.layout().grid;
    let ghost start = map.tally();
    let n = points.len();
    let mut i: usize = 0;
    proof {
        assert(grid.slots(points@.take(0)) =~= Seq::<int>::empty());
    }
    while i < n
        invariant
            map.wf(),
            map.layout() == old(map).layout(),
            grid == map.layout().grid,
            start == old(map).tally(),
            n == points@.len(),
            i <= n,
            start.can_add_all(grid.slots(points@.take(i as int))),
            map.tally() == start.add_all(grid.slots(points@.take(i as int))),
            forall|k: int| 0 <= k < i ==> grid.covers(#[trigger] points@[k]),
        decreases n - i,
    {
        let point = points[i];
        let addable = match map.count_at(&point) {
            Some(count) => count < u32::MAX,
            None => false,
        };
        if !addable {
            proof {
                map.lemma_wf();
                if grid.covers(point) {
                    lemma_slot(grid, point, point);
                }
            }
            return i;
        }
        proof {
            map.lemma_wf();
            lemma_slot(grid, point, point);
            let next = grid.slots(points@.take(i + 1));
            assert(next.drop_last() =~= grid.slots(points@.take(i as int)));
            assert(next.last() == grid.slot(point));
        }
        map.add_point(&point);
        i += 1;
    }
    i
}

/// Counts the points that were added and tells when a frame of a film is
/// due: one after every `frame_rate` points.
#[derive(Clone, Copy, Debug)]
pub struct FrameClock {
    counter: u64,
    frame_rate: u32,
}

impl FrameClock {
    /// The number of points counted.
    pub closed spec fn counter(&self) -> u64 {
        self.counter
    }

    /// The number of points from one frame to the next.
    pub closed spec fn frame_rate(&self) -> u32 {
        self.frame_rate
    }

    /// A clock has a frame rate above zero.
    pub open spec fn wf(&self) -> bool {
        self.frame_rate() > 0
    }

    /// A clock that has counted nothing; `None` for a frame rate of zero.
    pub fn new(frame_rate: u32) -> (clock: Option<FrameClock>)
        ensures
            clock.is_some() <==> frame_rate > 0,
            clock matches Some(c) ==> c.wf() && c.counter() == 0 && c.frame_rate() == frame_rate,
    {
        if frame_rate == 0 {
            None
        } else {
            Some(FrameClock { counter: 0, frame_rate })
        }
    }

    /// The number of points counted.
    pub fn count(&self) -> (count: u64)
        ensures
            count == self.counter(),
    {
        self.counter
    }

    /// Counts one more point and tells whether a frame is due with it.
    pub fn tick(&mut self) -> (due: bool)
        requires
            old(self).wf(),
            old(self).counter() < u64::MAX,
        ensures
            final(self).wf(),
            final(self).frame_rate() == old(self).frame_rate(),
            final(self).counter() == old(self).counter() + 1,
            due == (final(self).counter() % (final(self).frame_rate() as u64) == 0),
    {
        self.counter = self.counter + 1;
        self.counter % (self.frame_rate as u64) == 0
    }
}

} // verus!
