//! Band geometry and the frame-by-frame compositing loop.
//!
//! A band is a 1-pixel-thick rectangle `(x, y, width, height)` inside an
//! image's bounds, perpendicular to the scan direction. For each scan index
//! the geometry either yields the band to copy, or signals that the scan is
//! exhausted, which terminates compositing.

use vstd::prelude::*;
use vstd::pervasive::VecAdditionalExecFns;

use crate::Direction;
use crate::errors::ErrorKind;
use crate::file_processing::dec_digits;
use crate::file_processing::format_index;

verus! {

/// A rectangle `(x, y, width, height)` within an image, or the whole image's
/// extent.
pub type Bounds = (u32, u32, u32, u32);

/// True when the rectangle's far edges stay within `u32` range, as they do for
/// any rectangle that describes part of a real image.
pub open spec fn bounds_fit(bounds: Bounds) -> bool {
    &&& bounds.0 + bounds.2 <= u32::MAX
    &&& bounds.1 + bounds.3 <= u32::MAX
}

/// The band of scan step `index` inside `bounds`, or `None` once the scan is
/// exhausted.
///
/// North sweeps rows top to bottom, South bottom to top; West sweeps columns
/// left to right, East right to left.
pub open spec fn band_spec(bounds: Bounds, index: u32, direction: Direction) -> Option<Bounds> {
    let (bx, by, bw, bh) = bounds;
    match direction {
        Direction::N => if index >= bh {
            None
        } else {
            Some((bx, (by + index) as u32, bw, 1u32))
        },
        Direction::S => if index >= bh {
            None
        } else {
            Some((bx, (by + bh - index - 1) as u32, bw, 1u32))
        },
        Direction::W => if index >= bw {
            None
        } else {
            Some(((bx + index) as u32, by, 1u32, bh))
        },
        Direction::E => if index >= bw {
            None
        } else {
            Some(((bx + bw - index - 1) as u32, by, 1u32, bh))
        },
    }
}

/// Computes the band of scan step `index` inside `bounds` for the given
/// direction, or `None` once the scan is exhausted.
///
/// The scan is exhausted exactly when `index` has reached the bounds' height
/// (North/South) or width (West/East); this is the sole termination signal of
/// the compositing loop.
pub fn generage_subimage_coords(bounds: Bounds, index: u32, direction: Direction) -> (r: Option<
    Bounds,
>)
    requires
        bounds_fit(bounds),
    ensures
        r == band_spec(bounds, index, direction),
        matches!(direction, Direction::N | Direction::S) ==> (r is None <==> index >= bounds.3),
        matches!(direction, Direction::E | Direction::W) ==> (r is None <==> index >= bounds.2),
{
    let (bx, by, bw, bh) = bounds;
    match direction {
        Direction::N => {
            if index >= bh {
                return None;
            }
            Some((bx, by + index, bw, 1))
        },
        Direction::S => {
            if index >= bh {
                return None;
            }
            Some((bx, by + bh - index - 1, bw, 1))
        },
        Direction::W => {
            if index >= bw {
                return None;
            }
            Some((bx + index, by, 1, bh))
        },
        Direction::E => {
            if index >= bw {
                return None;
            }
            Some((bx + bw - index - 1, by, 1, bh))
        },
    }
}

/// Whether the point `(x, y)` lies inside the rectangle `b`.
pub open spec fn in_band(b: Bounds, x: int, y: int) -> bool {
    &&& b.0 <= x < b.0 + b.2
    &&& b.1 <= y < b.1 + b.3
}

/// How many scan steps a `width` by `height` image admits in a direction: its
/// height for a row scan, its width for a column scan.
pub open spec fn scan_limit(width: u32, height: u32, direction: Direction) -> int {
    match direction {
        Direction::N | Direction::S => height as int,
        Direction::E | Direction::W => width as int,
    }
}

/// The scan step at which the point `(x, y)` of a `width` by `height` image is
/// written: the inverse of the band formulas over the image's own extent.
pub open spec fn band_index_of(width: u32, height: u32, direction: Direction, x: int, y: int) -> int {
    match direction {
        Direction::N => y,
        Direction::S => height - 1 - y,
        Direction::W => x,
        Direction::E => width - 1 - x,
    }
}

/// Over an image's own extent, a band stays inside the image.
proof fn lemma_band_within(width: u32, height: u32, index: u32, direction: Direction)
    ensures
        band_spec((0, 0, width, height), index, direction) matches Some(b) ==> b.0 + b.2 <= width
            && b.1 + b.3 <= height,
{
}

/// Over an image's own extent, a band stays inside the image; a point lies in
/// the band of step `index` exactly when `index` is the point's own scan step,
/// and that step is always ahead of the scan limit.
proof fn lemma_band_facts(width: u32, height: u32, index: u32, direction: Direction, x: int, y: int)
    requires
        0 <= x < width,
        0 <= y < height,
    ensures
        band_spec((0, 0, width, height), index, direction) matches Some(b) ==> b.0 + b.2 <= width
            && b.1 + b.3 <= height,
        band_spec((0, 0, width, height), index, direction) matches Some(b) ==> (in_band(b, x, y)
            <==> band_index_of(width, height, direction, x, y) == index),
        0 <= band_index_of(width, height, direction, x, y) < scan_limit(width, height, direction),
        band_spec((0, 0, width, height), index, direction) is None <==> index >= scan_limit(
            width,
            height,
            direction,
        ),
{
}

/// North's band `i` and South's band `height - 1 - i` denote the same row, for
/// every valid `i`: the two sweeps visit the same rows in opposite orders.
pub proof fn lemma_band_symmetry_rows(bounds: Bounds, i: u32)
    requires
        i < bounds.3,
    ensures
        band_spec(bounds, i, Direction::N) == band_spec(
            bounds,
            (bounds.3 - 1 - i) as u32,
            Direction::S,
        ),
{
}

/// West's band `i` and East's band `width - 1 - i` denote the same column, for
/// every valid `i`: the two sweeps visit the same columns in opposite orders.
pub proof fn lemma_band_symmetry_columns(bounds: Bounds, i: u32)
    requires
        i < bounds.2,
    ensures
        band_spec(bounds, i, Direction::W) == band_spec(
            bounds,
            (bounds.2 - 1 - i) as u32,
            Direction::E,
        ),
{
}

/// One pixel, in the RGBA channel layout of the output image.
#[derive(Copy, Clone, Debug, PartialEq, Eq, Structural)]
pub struct Rgba {
    pub r: u8,
    pub g: u8,
    pub b: u8,
    pub a: u8,
}

/// The fully transparent zero pixel that a fresh output buffer is filled with.
pub open spec fn rgba_zero() -> Rgba {
    Rgba { r: 0, g: 0, b: 0, a: 0 }
}

/// A decoded frame or the output buffer: a `width` by `height` grid of pixels,
/// stored row by row.
pub struct PixelBuffer {
    pub width: u32,
    pub height: u32,
    pub pixels: Vec<Rgba>,
}

/// A point's position in the row-by-row pixel storage.
pub open spec fn grid_index(width: u32, x: int, y: int) -> int {
    y * width + x
}

/// A point inside the grid has its storage position inside the storage.
proof fn lemma_grid_index(width: u32, height: u32, x: int, y: int)
    requires
        0 <= x < width,
        0 <= y < height,
    ensures
        0 <= grid_index(width, x, y) < width * height,
        y * width <= grid_index(width, x, y),
{
    assert(0 <= y * width + x < width * height) by (nonlinear_arith)
        requires 0 <= x < width && 0 <= y < height;
    assert(0 <= y * width) by (nonlinear_arith)
        requires 0 <= y && 0 < width;
}

/// Distinct points of the grid have distinct storage positions.
proof fn lemma_grid_index_injective(width: u32, x1: int, y1: int, x2: int, y2: int)
    requires
        0 <= x1 < width,
        0 <= x2 < width,
        0 <= y1,
        0 <= y2,
        grid_index(width, x1, y1) == grid_index(width, x2, y2),
    ensures
        x1 == x2,
        y1 == y2,
{
    assert(y1 == y2 && x1 == x2) by (nonlinear_arith)
        requires
            0 <= x1 < width,
            0 <= x2 < width,
            0 <= y1,
            0 <= y2,
            y1 * width + x1 == y2 * width + x2,
    ;
}

impl PixelBuffer {
    /// The storage holds exactly one pixel for every point of the grid, and
    /// the grid fits the machine's address range.
    pub open spec fn wf(&self) -> bool {
        &&& self.pixels@.len() == self.width * self.height
        &&& self.width * self.height <= usize::MAX
    }

    /// The pixel at `(x, y)`.
    pub open spec fn pixel_at(&self, x: int, y: int) -> Rgba {
        self.pixels@[grid_index(self.width, x, y)]
    }

    /// Allocates a `width` by `height` buffer of fully transparent pixels.
    pub fn new(width: u32, height: u32) -> (r: PixelBuffer)
        requires
            width * height <= usize::MAX,
        ensures
            r.wf(),
            r.width == width,
            r.height == height,
            forall|x: int, y: int|
                0 <= x < width && 0 <= y < height ==> r.pixel_at(x, y) == rgba_zero(),
    {
        let n = (width as usize) * (height as usize);
        let mut pixels: Vec<Rgba> = Vec::with_capacity(n);
        let mut k: usize = 0;
        while k < n
            invariant
                k <= n,
                pixels@.len() == k,
                forall|j: int| 0 <= j < k ==> pixels@[j] == rgba_zero(),
            decreases n - k,
        {
            pixels.push(Rgba { r: 0, g: 0, b: 0, a: 0 });
            k = k + 1;
        }
        let buf = PixelBuffer { width, height, pixels };
        proof {
            assert forall|x: int, y: int|
                0 <= x < width && 0 <= y < height implies buf.pixel_at(x, y) == rgba_zero() by {
                lemma_grid_index(width, height, x, y);
            }
        }
        buf
    }

    /// Reads the pixel at `(x, y)`.
    pub fn get_pixel(&self, x: u32, y: u32) -> (r: Rgba)
        requires
            self.wf(),
            x < self.width,
            y < self.height,
        ensures
            r == self.pixel_at(x as int, y as int),
    {
        proof {
            lemma_grid_index(self.width, self.height, x as int, y as int);
        }
        let idx = (y as usize) * (self.width as usize) + (x as usize);
        self.pixels[idx]
    }

    /// Overwrites the pixel at `(x, y)`, leaving every other pixel as it was.
    pub fn set_pixel(&mut self, x: u32, y: u32, p: Rgba)
        requires
            old(self).wf(),
            x < old(self).width,
            y < old(self).height,
        ensures
            final(self).wf(),
            final(self).width == old(self).width,
            final(self).height == old(self).height,
            final(self).pixel_at(x as int, y as int) == p,
            forall|px: int, py: int|
                0 <= px < old(self).width && 0 <= py < old(self).height && !(px == x && py == y)
                    ==> final(self).pixel_at(px, py) == old(self).pixel_at(px, py),
    {
        proof {
            lemma_grid_index(self.width, self.height, x as int, y as int);
        }
        let idx = (y as usize) * (self.width as usize) + (x as usize);
        self.pixels.set(idx, p);
        proof {
            assert forall|px: int, py: int|
                0 <= px < old(self).width && 0 <= py < old(self).height && !(px == x && py == y)
                    implies final(self).pixel_at(px, py) == old(self).pixel_at(px, py) by {
                lemma_grid_index(old(self).width, old(self).height, px, py);
                if grid_index(old(self).width, px, py) == grid_index(
                    old(self).width,
                    x as int,
                    y as int,
                ) {
                    lemma_grid_index_injective(old(self).width, px, py, x as int, y as int);
                }
            }
        }
    }

    /// Reads a pixel grid out of a flat RGBA byte string, four bytes per pixel
    /// in row-by-row order; refuses a byte string whose length is not exactly
    /// four bytes per grid point.
    pub fn from_rgba_bytes(width: u32, height: u32, bytes: &Vec<u8>) -> (r: Option<PixelBuffer>)
        ensures
            r is Some <==> bytes@.len() == 4 * (width as int) * (height as int),
            r matches Some(b) ==> ({
                &&& b.wf()
                &&& b.width == width
                &&& b.height == height
                &&& forall|x: int, y: int|
                    0 <= x < width && 0 <= y < height ==> #[trigger] b.pixel_at(x, y) == (Rgba {
                        r: bytes@[4 * grid_index(width, x, y)],
                        g: bytes@[4 * grid_index(width, x, y) + 1],
                        b: bytes@[4 * grid_index(width, x, y) + 2],
                        a: bytes@[4 * grid_index(width, x, y) + 3],
                    })
            }),
    {
        let len = bytes.len();
        proof {
            vstd::arithmetic::div_mod::lemma_fundamental_div_mod(len as int, 4);
            assert((width as int) * (height as int) <= 0xffff_ffff * 0xffff_ffff)
                by (nonlinear_arith)
                requires width as int <= 0xffff_ffff && height as int <= 0xffff_ffff
                    && 0 <= width as int && 0 <= height as int;
        }
        if len % 4 != 0 || (len / 4) as u64 != (width as u64) * (height as u64) {
            proof {
                if bytes@.len() == 4 * (width as int) * (height as int) {
                    let w = (width as int) * (height as int);
                    assert(4 * ((width as int) * (height as int)) == 4 * (width as int) * (
                    height as int)) by (nonlinear_arith);
                    vstd::arithmetic::div_mod::lemma_div_multiples_vanish(w, 4);
                    vstd::arithmetic::div_mod::lemma_mod_multiples_basic(w, 4);
                    assert(len % 4 == 0);
                    assert((len / 4) as int == (width as int) * (height as int));
                }
            }
            return None;
        }
        proof {
            assert(4 * ((width as int) * (height as int)) == 4 * (width as int) * (height as int))
                by (nonlinear_arith);
            assert(bytes@.len() == 4 * ((width as int) * (height as int)));
        }
        let n = len / 4;
        let mut pixels: Vec<Rgba> = Vec::with_capacity(n);
        let mut k: usize = 0;
        while k < n
            invariant
                k <= n,
                bytes@.len() <= usize::MAX,
                bytes@.len() == 4 * n,
                pixels@.len() == k,
                forall|j: int|
                    0 <= j < k ==> pixels@[j] == (Rgba {
                        r: bytes@[4 * j],
                        g: bytes@[4 * j + 1],
                        b: bytes@[4 * j + 2],
                        a: bytes@[4 * j + 3],
                    }),
            decreases n - k,
        {
            let p = Rgba {
                r: bytes[4 * k],
                g: bytes[4 * k + 1],
                b: bytes[4 * k + 2],
                a: bytes[4 * k + 3],
            };
            pixels.push(p);
            k = k + 1;
        }
        let buf = PixelBuffer { width, height, pixels };
        proof {
            assert(buf.wf());
            assert forall|x: int, y: int|
                0 <= x < width && 0 <= y < height implies #[trigger] buf.pixel_at(x, y) == (Rgba {
                r: bytes@[4 * grid_index(width, x, y)],
                g: bytes@[4 * grid_index(width, x, y) + 1],
                b: bytes@[4 * grid_index(width, x, y) + 2],
                a: bytes@[4 * grid_index(width, x, y) + 3],
            }) by {
                lemma_grid_index(width, height, x, y);
            }
        }
        Some(buf)
    }

    /// Writes the pixel grid out as a flat RGBA byte string, four bytes per
    /// pixel in row-by-row order.
    pub fn to_rgba_bytes(&self) -> (r: Vec<u8>)
        ensures
            r@.len() == 4 * self.pixels@.len(),
            forall|j: int|
                0 <= j < self.pixels@.len() ==> r@[4 * j] == (#[trigger] self.pixels@[j]).r && r@[4
                    * j + 1] == self.pixels@[j].g && r@[4 * j + 2] == self.pixels@[j].b && r@[4 * j
                    + 3] == self.pixels@[j].a,
    {
        let mut out: Vec<u8> = Vec::new();
        let mut k: usize = 0;
        while k < self.pixels.len()
            invariant
                k <= self.pixels@.len(),
                out@.len() == 4 * k,
                forall|j: int|
                    0 <= j < k ==> out@[4 * j] == (#[trigger] self.pixels@[j]).r && out@[4 * j + 1]
                        == self.pixels@[j].g && out@[4 * j + 2] == self.pixels@[j].b && out@[4 * j
                        + 3] == self.pixels@[j].a,
            decreases self.pixels@.len() - k,
        {
            let p = self.pixels[k];
            out.push(p.r);
            out.push(p.g);
            out.push(p.b);
            out.push(p.a);
            k = k + 1;
        }
        out
    }
}

/// Whether the rectangle `b` lies fully inside a `width` by `height` image.
pub open spec fn rect_fits(b: Bounds, width: u32, height: u32) -> bool {
    &&& b.0 + b.2 <= width
    &&& b.1 + b.3 <= height
}

/// Copies the rectangle `(x, y, w, h)` of `src` onto the same coordinates of
/// `dst`, when `src` has the whole rectangle to give; reports whether it did
/// and leaves `dst` untouched otherwise. The rectangle itself must lie inside
/// `dst`.
fn copy_rect(dst: &mut PixelBuffer, src: &PixelBuffer, x: u32, y: u32, w: u32, h: u32) -> (r: bool)
    requires
        old(dst).wf(),
        src.wf(),
        x + w <= old(dst).width,
        y + h <= old(dst).height,
    ensures
        final(dst).wf(),
        final(dst).width == old(dst).width,
        final(dst).height == old(dst).height,
        r <==> rect_fits((x, y, w, h), src.width, src.height),
        r ==> forall|px: int, py: int|
            0 <= px < old(dst).width && 0 <= py < old(dst).height
                ==> final(dst).pixel_at(px, py) == (if in_band((x, y, w, h), px, py) {
                src.pixel_at(px, py)
            } else {
                old(dst).pixel_at(px, py)
            }),
        !r ==> *final(dst) == *old(dst),
{
    if !(x <= src.width && w <= src.width - x && y <= src.height && h <= src.height - y) {
        return false;
    }
    let mut row = y;
    while row < y + h
        invariant
            dst.wf(),
            src.wf(),
            dst.width == old(dst).width,
            dst.height == old(dst).height,
            x + w <= src.width,
            y + h <= src.height,
            x + w <= dst.width,
            y + h <= dst.height,
            y <= row <= y + h,
            forall|px: int, py: int|
                0 <= px < dst.width && 0 <= py < dst.height ==> dst.pixel_at(px, py) == (if x <= px
                    < x + w && y <= py < row {
                    src.pixel_at(px, py)
                } else {
                    old(dst).pixel_at(px, py)
                }),
        decreases y + h - row,
    {
        let mut col = x;
        while col < x + w
            invariant
                dst.wf(),
                src.wf(),
                dst.width == old(dst).width,
                dst.height == old(dst).height,
                x + w <= src.width,
                y + h <= src.height,
                x + w <= dst.width,
                y + h <= dst.height,
                y <= row < y + h,
                x <= col <= x + w,
                forall|px: int, py: int|
                    0 <= px < dst.width && 0 <= py < dst.height ==> dst.pixel_at(px, py) == (if (x
                        <= px < x + w && y <= py < row) || (py == row && x <= px < col) {
                        src.pixel_at(px, py)
                    } else {
                        old(dst).pixel_at(px, py)
                    }),
            decreases x + w - col,
        {
            let p = src.get_pixel(col, row);
            dst.set_pixel(col, row, p);
            col = col + 1;
        }
        row = row + 1;
    }
    true
}

/// What one compositing step did: copied this step's band, found the scan
/// exhausted, or found a frame that cannot supply the band.
#[derive(Copy, Clone, Debug, PartialEq, Eq, Structural)]
pub enum BandStep {
    /// The band was copied from the frame into the output buffer.
    Copied,
    /// The scan index has passed the output buffer's extent; nothing was copied.
    Exhausted,
    /// The frame does not hold the whole band; nothing was copied.
    DoesNotFit,
}

/// Copies scan step `index`'s band of `image` onto the same coordinates of
/// `current_buffer`.
///
/// The band is computed over the output buffer's own extent; once `index`
/// passes that extent the step reports the scan exhausted. A frame that does
/// not hold the whole band (one smaller than the output buffer) cannot supply
/// it, and the step reports that instead of copying. In both of those cases
/// the buffer is left untouched.
pub fn process_image(
    current_buffer: &mut PixelBuffer,
    image: &PixelBuffer,
    index: u32,
    direction: Direction,
) -> (r: BandStep)
    requires
        old(current_buffer).wf(),
        image.wf(),
    ensures
        final(current_buffer).wf(),
        final(current_buffer).width == old(current_buffer).width,
        final(current_buffer).height == old(current_buffer).height,
        ({
            let band = band_spec(
                (0, 0, old(current_buffer).width, old(current_buffer).height),
                index,
                direction,
            );
            match band {
                None => r == BandStep::Exhausted && *final(current_buffer) == *old(current_buffer),
                Some(b) => {
                    if rect_fits(b, image.width, image.height) {
                        &&& r == BandStep::Copied
                        &&& forall|px: int, py: int|
                            0 <= px < old(current_buffer).width && 0 <= py < old(
                                current_buffer,
                            ).height ==> final(current_buffer).pixel_at(px, py) == (if in_band(
                                b,
                                px,
                                py,
                            ) {
                                image.pixel_at(px, py)
                            } else {
                                old(current_buffer).pixel_at(px, py)
                            })
                    } else {
                        r == BandStep::DoesNotFit && *final(current_buffer) == *old(current_buffer)
                    }
                },
            }
        }),
{
    let bw = current_buffer.width;
    let bh = current_buffer.height;
    proof {
        lemma_band_within(bw, bh, index, direction);
    }
    match generage_subimage_coords((0, 0, bw, bh), index, direction) {
        None => BandStep::Exhausted,
        Some((x, y, w, h)) => {
            if copy_rect(current_buffer, image, x, y, w, h) {
                BandStep::Copied
            } else {
                BandStep::DoesNotFit
            }
        },
    }
}

/// Whether every frame has the extent of the first one.
pub open spec fn uniform_dims(frames: Seq<PixelBuffer>) -> bool {
    forall|i: int|
        0 <= i < frames.len() ==> (#[trigger] frames[i]).width == frames[0].width && frames[i].height
            == frames[0].height
}

/// The pixel the finished composite holds at `(x, y)`: the pixel of the frame
/// whose scan step writes that point, or the transparent zero pixel when the
/// sequence is shorter than the scan.
pub open spec fn composite_pixel(frames: Seq<PixelBuffer>, direction: Direction, x: int, y: int) -> Rgba {
    let bi = band_index_of(frames[0].width, frames[0].height, direction, x, y);
    if bi < frames.len() {
        frames[bi].pixel_at(x, y)
    } else {
        rgba_zero()
    }
}

/// Whether frame `i` can supply scan step `i`'s band of the output buffer,
/// whose extent is the first frame's: either the scan is already exhausted at
/// that step, or the frame holds the whole band.
pub open spec fn frame_supplies_band(frames: Seq<PixelBuffer>, direction: Direction, i: int) -> bool {
    match band_spec((0, 0, frames[0].width, frames[0].height), i as u32, direction) {
        Some(b) => rect_fits(b, frames[i].width, frames[i].height),
        None => true,
    }
}

/// Composites a sequence of already decoded frames: frame `i` contributes the
/// band of scan step `i` over the output's extent (the first frame's), and
/// the loop stops at the first exhausted step.
///
/// The composite succeeds exactly when every frame before the scan limit can
/// supply its band — in particular whenever every frame has the first frame's
/// extent — and then each pixel of the output is pinned down by
/// `composite_pixel`. The first frame that cannot supply its band fails the
/// run with `CouldNotProcessImage` naming that frame's position in decimal.
pub fn process_frames(frames: &Vec<PixelBuffer>, direction: Direction) -> (r: Result<
    PixelBuffer,
    ErrorKind,
>)
    requires
        frames@.len() >= 1,
        frames@.len() <= u32::MAX,
        forall|i: int| 0 <= i < frames@.len() ==> (#[trigger] frames@[i]).wf(),
    ensures
        r is Ok <==> forall|i: int|
            0 <= i < frames@.len() ==> frame_supplies_band(frames@, direction, i),
        uniform_dims(frames@) ==> r is Ok,
        r matches Ok(out) ==> out.wf() && out.width == frames@[0].width && out.height
            == frames@[0].height && (forall|x: int, y: int|
            0 <= x < frames@[0].width && 0 <= y < frames@[0].height ==> #[trigger] out.pixel_at(
                x,
                y,
            ) == composite_pixel(frames@, direction, x, y)),
        r matches Err(e) ==> exists|i: int|
            0 <= i < frames@.len() && !(#[trigger] frame_supplies_band(frames@, direction, i)) && (
            forall|j: int| 0 <= j < i ==> frame_supplies_band(frames@, direction, j)) && (e matches
                ErrorKind::CouldNotProcessImage(t)
                && t@ == dec_digits(i as nat)),
{
    let first_width = frames[0].width;
    let first_height = frames[0].height;
    let mut out = PixelBuffer::new(first_width, first_height);
    let mut i: usize = 0;
    while i < frames.len()
        invariant
            frames@.len() >= 1,
            frames@.len() <= u32::MAX,
            forall|j: int| 0 <= j < frames@.len() ==> (#[trigger] frames@[j]).wf(),
            first_width == frames@[0].width,
            first_height == frames@[0].height,
            out.wf(),
            out.width == first_width,
            out.height == first_height,
            i <= frames@.len(),
            forall|j: int| 0 <= j < i ==> frame_supplies_band(frames@, direction, j),
            forall|x: int, y: int|
                0 <= x < first_width && 0 <= y < first_height ==> #[trigger] out.pixel_at(x, y)
                    == ({
                    let bi = band_index_of(first_width, first_height, direction, x, y);
                    if bi < i {
                        frames@[bi].pixel_at(x, y)
                    } else {
                        rgba_zero()
                    }
                }),
        decreases frames@.len() - i,
    {
        let step = process_image(&mut out, &frames[i], i as u32, direction);
        proof {
            assert forall|x: int, y: int|
                0 <= x < first_width && 0 <= y < first_height implies #[trigger] out.pixel_at(
                x,
                y,
            ) == ({
                let bi = band_index_of(first_width, first_height, direction, x, y);
                if bi < i + 1 && step == BandStep::Copied {
                    frames@[bi].pixel_at(x, y)
                } else if bi < i {
                    frames@[bi].pixel_at(x, y)
                } else {
                    rgba_zero()
                }
            }) by {
                lemma_band_facts(first_width, first_height, i as u32, direction, x, y);
            }
        }
        match step {
            BandStep::Copied => {},
            BandStep::Exhausted => {
                proof {
                    assert forall|x: int, y: int|
                        0 <= x < first_width && 0 <= y < first_height implies #[trigger] out.pixel_at(
                        x,
                        y,
                    ) == composite_pixel(frames@, direction, x, y) by {
                        lemma_band_facts(first_width, first_height, i as u32, direction, x, y);
                    }
                    // Past an exhausted step every later step is exhausted too.
                    assert forall|j: int|
                        0 <= j < frames@.len() implies frame_supplies_band(
                        frames@,
                        direction,
                        j,
                    ) by {
                        if j >= i {
                            assert(j as u32 >= i as u32);
                        }
                    }
                }
                return Ok(out);
            },
            BandStep::DoesNotFit => {
                proof {
                    assert(!frame_supplies_band(frames@, direction, i as int));
                    // A frame of the output's own extent always holds its band.
                    if uniform_dims(frames@) {
                        lemma_band_within(first_width, first_height, i as u32, direction);
                        assert(false);
                    }
                }
                let e = ErrorKind::CouldNotProcessImage(format_index(i as u32, 0));
                proof {
                    assert(exists|k: int|
                        0 <= k < frames@.len() && !(#[trigger] frame_supplies_band(
                            frames@,
                            direction,
                            k,
                        )) && (forall|j: int| 0 <= j < k ==> frame_supplies_band(frames@, direction, j))
                            && (e matches ErrorKind::CouldNotProcessImage(t) && t@ == dec_digits(
                            k as nat,
                        ))) by {
                        assert(!frame_supplies_band(frames@, direction, i as int));
                    }
                }
                return Err(e);
            },
        }
        i = i + 1;
    }
    proof {
        assert forall|x: int, y: int|
            0 <= x < first_width && 0 <= y < first_height implies #[trigger] out.pixel_at(x, y)
            == composite_pixel(frames@, direction, x, y) by {
            lemma_band_facts(first_width, first_height, 0, direction, x, y);
        }
    }
    Ok(out)
}

/// How many frames of the sequence the scan can use: the sequence's length,
/// capped at the scan limit of the output's extent.
pub fn num_usable_frames(count: u64, width: u32, height: u32, direction: Direction) -> (r: u64)
    ensures
        r == if count <= scan_limit(width, height, direction) {
            count as int
        } else {
            scan_limit(width, height, direction)
        },
{
    let limit: u64 = match direction {
        Direction::N | Direction::S => height as u64,
        Direction::E | Direction::W => width as u64,
    };
    if count < limit {
        count
    } else {
        limit
    }
}

} // verus!
