use vstd::prelude::*;

verus! {

/// One pixel: red, green, blue and opacity, each from 0 to 255.
#[derive(Clone, Copy, PartialEq, Eq, Structural, Debug)]
pub struct Color {
    pub r: u8,
    pub g: u8,
    pub b: u8,
    pub a: u8,
}

/// The mathematical content of a [`Raster`]: its size and its bytes, four per
/// pixel (red, green, blue, opacity), row after row from the top left.
pub struct Pixels {
    pub width: int,
    pub height: int,
    pub data: Seq<u8>,
}

impl Pixels {
    /// The byte count matches the size, and the size fits the machine's types.
    pub open spec fn wf(self) -> bool {
        &&& 0 <= self.width <= u32::MAX
        &&& 0 <= self.height <= u32::MAX
        &&& self.data.len() == 4 * (self.width * self.height)
    }

    /// Whether column `x`, row `y` lies on the raster.
    pub open spec fn contains(self, x: int, y: int) -> bool {
        0 <= x < self.width && 0 <= y < self.height
    }

    /// Where the four bytes of the pixel in column `x`, row `y` start.
    pub open spec fn offset(self, x: int, y: int) -> int {
        4 * (y * self.width + x)
    }

    /// The pixel in column `x`, row `y`.
    pub open spec fn at(self, x: int, y: int) -> Color {
        let i = self.offset(x, y);
        Color { r: self.data[i], g: self.data[i + 1], b: self.data[i + 2], a: self.data[i + 3] }
    }

    /// Every pixel has all four bytes zero.
    pub open spec fn is_clear(self) -> bool {
        forall|i: int| 0 <= i < self.data.len() ==> self.data[i] == 0
    }
}

/// A rectangular RGBA image held as plain bytes.
pub struct Raster {
    width: u32,
    height: u32,
    data: Vec<u8>,
}

impl View for Raster {
    type V = Pixels;

    closed spec fn view(&self) -> Pixels {
        Pixels { width: self.width as int, height: self.height as int, data: self.data@ }
    }
}

/// The pixel that the bytes `data` hold at place `k`, counted row after row
/// from the top left, four bytes for each pixel.
pub open spec fn nth_pixel(data: Seq<u8>, k: int) -> Color {
    Color { r: data[4 * k], g: data[4 * k + 1], b: data[4 * k + 2], a: data[4 * k + 3] }
}

/// The fully transparent black pixel.
pub open spec fn clear() -> Color {
    Color { r: 0, g: 0, b: 0, a: 0 }
}

/// The rows of a raster do not overlap: a pixel on the raster has its four
/// bytes inside the data, and two different pixels start at different bytes.
pub proof fn lemma_offset_bounds(p: Pixels, x: int, y: int)
    requires
        p.wf(),
        p.contains(x, y),
    ensures
        0 <= p.offset(x, y),
        p.offset(x, y) + 4 <= p.data.len(),
        p.offset(x, y) == 4 * (y * p.width) + 4 * x,
        0 <= y * p.width <= (p.height - 1) * p.width,
        (p.height - 1) * p.width + p.width == p.width * p.height,
{
    assert(0 <= y * p.width <= (p.height - 1) * p.width) by (nonlinear_arith)
        requires
            0 <= y <= p.height - 1,
            0 <= p.width,
    ;
    assert((p.height - 1) * p.width + p.width == p.width * p.height) by (nonlinear_arith);
}

impl Raster {
    /// A raster is well formed when its byte count matches its size.
    pub open spec fn wf(&self) -> bool {
        self@.wf()
    }

    /// A fully transparent raster of the given size.
    pub fn new(width: u32, height: u32) -> (r: Raster)
        requires
            4 * (width * height) <= usize::MAX,
        ensures
            r.wf(),
            r@.width == width,
            r@.height == height,
            r@.is_clear(),
    {
        assert(width * height <= 4 * (width * height)) by (nonlinear_arith);
        let cells: usize = width as usize * height as usize;
        let data: Vec<u8> = vec![0u8; 4 * cells];
        Raster { width, height, data }
    }

    /// Wraps `data` as a raster of the given size; `None` unless `data` holds
    /// exactly four bytes for each pixel.
    pub fn from_raw(width: u32, height: u32, data: Vec<u8>) -> (r: Option<Raster>)
        ensures
            r.is_some() <==> data@.len() == 4 * (width * height),
            r matches Some(img) ==> img.wf() && img@.width == width && img@.height == height
                && img@.data == data@,
    {
        assert(width * height <= 0xffff_ffff * 0xffff_ffff) by (nonlinear_arith)
            requires
                width <= 0xffff_ffff,
                height <= 0xffff_ffff,
        ;
        let need: u128 = 4u128 * (width as u128 * height as u128);
        if data.len() as u128 == need {
            Some(Raster { width, height, data })
        } else {
            None
        }
    }

    /// The number of columns.
    pub fn width(&self) -> (w: u32)
        ensures
            w == self@.width,
    {
        self.width
    }

    /// The number of rows.
    pub fn height(&self) -> (h: u32)
        ensures
            h == self@.height,
    {
        self.height
    }

    /// The bytes of the raster, four per pixel, row after row.
    pub fn as_raw(&self) -> (data: &Vec<u8>)
        ensures
            data@ == self@.data,
    {
        &self.data
    }

    /// Gives up the raster for its bytes.
    pub fn into_raw(self) -> (data: Vec<u8>)
        ensures
            data@ == self@.data,
    {
        self.data
    }

    /// The pixel in column `x`, row `y`; `None` off the raster.
    pub fn get_pixel(&self, x: u32, y: u32) -> (p: Option<Color>)
        requires
            self.wf(),
        ensures
            p.is_some() <==> self@.contains(x as int, y as int),
            p matches Some(c) ==> c == self@.at(x as int, y as int),
    {
        if x >= self.width || y >= self.height {
            return None;
        }
        let len = self.data.len();
        proof {
            lemma_offset_bounds(self@, x as int, y as int);
            assert(4 * (y * self.width + x) + 4 <= len);
        }
        let i: usize = 4 * (y as usize * self.width as usize + x as usize);
        Some(Color { r: self.data[i], g: self.data[i + 1], b: self.data[i + 2], a: self.data[i + 3] })
    }
}

/// What `image`'s `Blend::blend` for `Rgba<u8>` leaves in the lower pixel
/// when `top` is laid over `bottom`.
pub uninterp spec fn blend(bottom: Color, top: Color) -> Color;

/// Calls `image::imageops::overlay`: lays `top` over `bottom` with its top
/// left corner at column `x`, row `y`. The contract claims that the size of
/// `bottom` stays, that each of its pixels under `top` becomes the blend of
/// the old pixel with the pixel of `top` above it, and that every other pixel
/// stays as it was.
#[verifier::external_body]
pub(crate) fn overlay(bottom: &mut Raster, top: &Raster, x: u32, y: u32)
    requires
        old(bottom).wf(),
        top.wf(),
    ensures
        final(bottom).wf(),
        final(bottom)@.width == old(bottom)@.width,
        final(bottom)@.height == old(bottom)@.height,
        forall|px: int, py: int| #[trigger]
            final(bottom)@.contains(px, py) ==> final(bottom)@.at(px, py) == (if top@.contains(
                px - x,
                py - y,
            ) {
                blend(old(bottom)@.at(px, py), top@.at(px - x, py - y))
            } else {
                old(bottom)@.at(px, py)
            }),
{
    let data = std::mem::take(&mut bottom.data);
    let mut canvas = image::RgbaImage::from_raw(bottom.width, bottom.height, data).unwrap();
    let layer = image::ImageBuffer::<image::Rgba<u8>, &[u8]>::from_raw(
        top.width,
        top.height,
        &top.data[..],
    ).unwrap();
    image::imageops::overlay(&mut canvas, &layer, x, y);
    bottom.data = canvas.into_raw();
}

/// Calls `image::imageops::crop_imm` and copies the view out: the part of
/// `source` that starts at column `x`, row `y` and is at most `width` by
/// `height` pixels. The contract claims that the part ends where `source`
/// ends, and that its pixels are those of `source`, moved by `x` and `y`.
#[verifier::external_body]
pub(crate) fn crop(source: &Raster, x: u32, y: u32, width: u32, height: u32) -> (part: Raster)
    requires
        source.wf(),
    ensures
        part.wf(),
        part@.width == vstd::math::min(
            width as int,
            source@.width - vstd::math::min(x as int, source@.width),
        ),
        part@.height == vstd::math::min(
            height as int,
            source@.height - vstd::math::min(y as int, source@.height),
        ),
        forall|px: int, py: int| #[trigger]
            part@.contains(px, py) ==> part@.at(px, py) == source@.at(px + x, py + y),
{
    let whole = image::RgbaImage::from_raw(source.width, source.height, source.data.clone()).unwrap();
    let part = image::imageops::crop_imm(&whole, x, y, width, height).to_image();
    Raster { width: part.width(), height: part.height(), data: part.into_raw() }
}

/// Calls `imageproc::drawing::draw_filled_rect_mut` with the rectangle whose
/// top left corner is at column `left`, row `top`. The contract claims that
/// the size of `canvas` stays, that each of its pixels inside the rectangle
/// becomes `color`, and that every other pixel stays as it was.
#[verifier::external_body]
pub(crate) fn fill_rect(
    canvas: &mut Raster,
    left: i32,
    top: i32,
    width: u32,
    height: u32,
    color: Color,
)
    requires
        old(canvas).wf(),
        0 < old(canvas)@.width <= i32::MAX,
        0 < old(canvas)@.height <= i32::MAX,
        0 < width <= i32::MAX,
        0 < height <= i32::MAX,
        left + width <= i32::MAX,
        top + height <= i32::MAX,
    ensures
        final(canvas).wf(),
        final(canvas)@.width == old(canvas)@.width,
        final(canvas)@.height == old(canvas)@.height,
        forall|px: int, py: int| #[trigger]
            final(canvas)@.contains(px, py) ==> final(canvas)@.at(px, py) == (if left <= px < left
                + width && top <= py < top + height {
                color
            } else {
                old(canvas)@.at(px, py)
            }),
{
    let data = std::mem::take(&mut canvas.data);
    let mut img = image::RgbaImage::from_raw(canvas.width, canvas.height, data).unwrap();
    let rect = imageproc::rect::Rect::at(left, top).of_size(width, height);
    let ink = image::Rgba([color.r, color.g, color.b, color.a]);
    imageproc::drawing::draw_filled_rect_mut(&mut img, rect, ink);
    canvas.data = img.into_raw();
}

} // verus!
