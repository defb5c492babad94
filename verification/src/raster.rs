//! Pixel buffers: 8-bit RGBA images held row by row.

use vstd::prelude::*;
use crate::color::{IntoSerializableRgb, SerializableRgb};

verus! {

/// One RGBA pixel. An alpha of 0 is fully transparent, 255 fully opaque.
#[derive(Debug, Copy, Clone, PartialEq, Eq, Structural)]
pub struct Pixel {
    pub red: u8,
    pub green: u8,
    pub blue: u8,
    pub alpha: u8,
}

impl Pixel {
    pub fn new(red: u8, green: u8, blue: u8, alpha: u8) -> (p: Pixel)
        ensures
            p == (Pixel { red, green, blue, alpha }),
    {
        Pixel { red, green, blue, alpha }
    }

    /// The opaque pixel of a colour.
    pub fn opaque(rgb: SerializableRgb) -> (p: Pixel)
        ensures
            p == (Pixel { red: rgb.0, green: rgb.1, blue: rgb.2, alpha: 255 }),
    {
        Pixel { red: rgb.0, green: rgb.1, blue: rgb.2, alpha: 255 }
    }
}

impl IntoSerializableRgb for Pixel {
    open spec fn rgb(self) -> SerializableRgb {
        SerializableRgb(self.red, self.green, self.blue)
    }

    fn into_serializable_rgb(self) -> (rgb: SerializableRgb) {
        SerializableRgb(self.red, self.green, self.blue)
    }
}

/// The pixel of a freshly made canvas: transparent black.
pub open spec fn blank() -> Pixel {
    Pixel { red: 0, green: 0, blue: 0, alpha: 0 }
}

/// A rectangular image. Pixel `(x, y)` is at place `y * width + x`.
#[derive(Debug)]
pub struct Image {
    pub(crate) width: u32,
    pub(crate) height: u32,
    pub(crate) pixels: Vec<Pixel>,
}

/// `y * width + x` is below `width * height` for a place inside the image.
pub proof fn lemma_place_in_bounds(x: int, y: int, width: int, height: int)
    requires
        0 <= x < width,
        0 <= y < height,
    ensures
        0 <= y * width + x < width * height,
{
    assert(y * width + x < width * height) by (nonlinear_arith)
        requires
            0 <= x < width,
            0 <= y < height,
    {
        assert((y + 1) * width <= height * width);
    }
    assert(0 <= y * width) by (nonlinear_arith)
        requires
            0 <= y,
            0 <= width,
    ;
}

/// Two places inside an image share an index only if they are the same.
pub proof fn lemma_place_unique(x1: int, y1: int, x2: int, y2: int, width: int)
    requires
        0 <= x1 < width,
        0 <= x2 < width,
        y1 * width + x1 == y2 * width + x2,
    ensures
        x1 == x2,
        y1 == y2,
{
    if y1 < y2 {
        assert((y1 + 1) * width <= y2 * width) by (nonlinear_arith)
            requires
                y1 + 1 <= y2,
                0 <= width,
        ;
        assert((y1 + 1) * width == y1 * width + width) by (nonlinear_arith);
    } else if y2 < y1 {
        assert((y2 + 1) * width <= y1 * width) by (nonlinear_arith)
            requires
                y2 + 1 <= y1,
                0 <= width,
        ;
        assert((y2 + 1) * width == y2 * width + width) by (nonlinear_arith);
    }
}

impl Image {
    #[verifier::type_invariant]
    pub closed spec fn well_formed(&self) -> bool {
        &&& self.pixels@.len() == self.width * self.height
        &&& 4 * self.width * self.height <= usize::MAX
    }

    pub open(crate) spec fn spec_width(&self) -> int {
        self.width as int
    }

    pub open(crate) spec fn spec_height(&self) -> int {
        self.height as int
    }

    /// The pixels, row after row.
    pub open(crate) spec fn spec_pixels(&self) -> Seq<Pixel> {
        self.pixels@
    }

    /// The pixel at column `x` of row `y`.
    pub open(crate) spec fn spec_pixel(&self, x: int, y: int) -> Pixel {
        self.pixels@[y * self.width + x]
    }

    /// Whether the image could be built: its raw form must fit in memory.
    pub open spec fn fits(width: u32, height: u32) -> bool {
        4 * width * height <= usize::MAX
    }

    /// An image with every pixel equal to `fill`; `None` when it is too
    /// large to hold.
    pub fn filled(width: u32, height: u32, fill: Pixel) -> (made: Option<Image>)
        ensures
            made.is_some() <==> Self::fits(width, height),
            made matches Some(img) ==> {
                &&& img.spec_width() == width
                &&& img.spec_height() == height
                &&& forall|x: int, y: int|
                    0 <= x < width && 0 <= y < height ==> #[trigger] img.spec_pixel(x, y) == fill
            },
    {
        assert(width * height <= 0xffff_ffff * 0xffff_ffff) by (nonlinear_arith)
            requires
                width <= 0xffff_ffff,
                height <= 0xffff_ffff,
        ;
        assert(4 * width * height == 4 * (width * height)) by (nonlinear_arith);
        let area: u64 = (width as u64) * (height as u64);
        if area > (usize::MAX / 4) as u64 {
            return None;
        }
        let count: usize = area as usize;
        let mut pixels: Vec<Pixel> = Vec::new();
        let mut i: usize = 0;
        while i < count
            invariant
                i <= count,
                pixels@.len() == i,
                forall|k: int| 0 <= k < i ==> pixels@[k] == fill,
            decreases count - i,
        {
            pixels.push(fill);
            i += 1;
        }
        let img = Image { width, height, pixels };
        assert forall|x: int, y: int| 0 <= x < width && 0 <= y < height implies #[trigger]
            img.spec_pixel(x, y) == fill by {
            lemma_place_in_bounds(x, y, width as int, height as int);
        }
        Some(img)
    }

    /// A blank canvas: every pixel transparent black.
    pub fn new(width: u32, height: u32) -> (made: Option<Image>)
        ensures
            made.is_some() <==> Self::fits(width, height),
            made matches Some(img) ==> {
                &&& img.spec_width() == width
                &&& img.spec_height() == height
                &&& forall|x: int, y: int|
                    0 <= x < width && 0 <= y < height ==> #[trigger] img.spec_pixel(x, y)
                        == blank()
            },
    {
        Image::filled(width, height, Pixel { red: 0, green: 0, blue: 0, alpha: 0 })
    }

    pub fn width(&self) -> (w: u32)
        ensures
            w == self.spec_width(),
    {
        self.width
    }

    pub fn height(&self) -> (h: u32)
        ensures
            h == self.spec_height(),
    {
        self.height
    }

    pub fn get_pixel(&self, x: u32, y: u32) -> (p: Pixel)
        requires
            x < self.spec_width(),
            y < self.spec_height(),
        ensures
            p == self.spec_pixel(x as int, y as int),
    {
        proof {
            use_type_invariant(self);
            lemma_place_in_bounds(x as int, y as int, self.width as int, self.height as int);
            assert(4 * self.width * self.height == 4 * (self.width * self.height))
                by (nonlinear_arith);
            assert(0 <= y * self.width) by (nonlinear_arith)
                requires
                    0 <= y,
                    0 <= self.width,
            ;
        }
        let place: usize = (y as usize) * (self.width as usize) + (x as usize);
        self.pixels[place]
    }

    pub fn put_pixel(&mut self, x: u32, y: u32, pixel: Pixel)
        requires
            x < old(self).spec_width(),
            y < old(self).spec_height(),
        ensures
            final(self).spec_width() == old(self).spec_width(),
            final(self).spec_height() == old(self).spec_height(),
            final(self).spec_pixel(x as int, y as int) == pixel,
            forall|i: int, j: int|
                0 <= i < old(self).spec_width() && 0 <= j < old(self).spec_height() && (i != x
                    || j != y) ==> #[trigger] final(self).spec_pixel(i, j) == old(self).spec_pixel(
                    i,
                    j,
                ),
    {
        proof {
            use_type_invariant(&*self);
            lemma_place_in_bounds(x as int, y as int, self.width as int, self.height as int);
            assert(4 * self.width * self.height == 4 * (self.width * self.height))
                by (nonlinear_arith);
            assert(0 <= y * self.width) by (nonlinear_arith)
                requires
                    0 <= y,
                    0 <= self.width,
            ;
        }
        let place: usize = (y as usize) * (self.width as usize) + (x as usize);
        self.pixels[place] = pixel;
        proof {
            let width = self.width as int;
            assert forall|i: int, j: int|
                0 <= i < old(self).spec_width() && 0 <= j < old(self).spec_height() && (i != x
                    || j != y) implies #[trigger] self.spec_pixel(i, j) == old(self).spec_pixel(
                i,
                j,
            ) by {
                lemma_place_in_bounds(i, j, width, self.height as int);
                if j * width + i == y * width + x {
                    lemma_place_unique(i, j, x as int, y as int, width);
                }
            }
        }
    }
}

impl Clone for Image {
    fn clone(&self) -> (copy: Image)
        ensures
            copy.spec_width() == self.spec_width(),
            copy.spec_height() == self.spec_height(),
            copy.spec_pixels() == self.spec_pixels(),
    {
        proof {
            use_type_invariant(self);
        }
        let mut pixels: Vec<Pixel> = Vec::new();
        let mut i: usize = 0;
        while i < self.pixels.len()
            invariant
                i <= self.pixels@.len(),
                pixels@ == self.pixels@.take(i as int),
            decreases self.pixels@.len() - i,
        {
            pixels.push(self.pixels[i]);
            i += 1;
            assert(pixels@ =~= self.pixels@.take(i as int));
        }
        assert(self.pixels@.take(i as int) =~= self.pixels@);
        Image { width: self.width, height: self.height, pixels }
    }
}

/// The pixel that four consecutive bytes of a raw RGBA buffer stand for.
pub open spec fn pixel_from_raw(data: Seq<u8>, place: int) -> Pixel {
    Pixel {
        red: data[4 * place],
        green: data[4 * place + 1],
        blue: data[4 * place + 2],
        alpha: data[4 * place + 3],
    }
}

impl Image {
    /// The number of pixels is the width times the height.
    pub proof fn lemma_area(&self)
        requires
            self.well_formed(),
        ensures
            self.spec_pixels().len() == self.spec_width() * self.spec_height(),
            4 * self.spec_pixels().len() <= usize::MAX,
            Self::fits(self.spec_width() as u32, self.spec_height() as u32),
    {
        assert(4 * self.width * self.height == 4 * (self.width * self.height))
            by (nonlinear_arith);
    }

    /// Reads an image from raw bytes, four per pixel (red, green, blue,
    /// alpha), row after row. `None` unless there are exactly
    /// `4 * width * height` bytes.
    pub fn from_raw(width: u32, height: u32, data: &Vec<u8>) -> (made: Option<Image>)
        ensures
            made.is_some() <==> data@.len() == 4 * width * height,
            made matches Some(img) ==> {
                &&& img.spec_width() == width
                &&& img.spec_height() == height
                &&& img.spec_pixels().len() == width * height
                &&& forall|k: int|
                    0 <= k < width * height ==> #[trigger] img.spec_pixels()[k] == pixel_from_raw(
                        data@,
                        k,
                    )
            },
    {
        assert(width * height <= 0xffff_ffff * 0xffff_ffff) by (nonlinear_arith)
            requires
                width <= 0xffff_ffff,
                height <= 0xffff_ffff,
        ;
        assert(4 * width * height == 4 * (width * height)) by (nonlinear_arith);
        let area: u64 = (width as u64) * (height as u64);
        let given: usize = data.len();
        if area > (usize::MAX / 4) as u64 {
            return None;
        }
        let count: usize = area as usize;
        if given != 4 * count {
            return None;
        }
        let mut pixels: Vec<Pixel> = Vec::new();
        let mut i: usize = 0;
        while i < count
            invariant
                i <= count,
                4 * count <= usize::MAX,
                data@.len() == 4 * count,
                pixels@.len() == i,
                forall|k: int| 0 <= k < i ==> #[trigger] pixels@[k] == pixel_from_raw(data@, k),
            decreases count - i,
        {
            let pixel = Pixel {
                red: data[4 * i],
                green: data[4 * i + 1],
                blue: data[4 * i + 2],
                alpha: data[4 * i + 3],
            };
            pixels.push(pixel);
            i += 1;
        }
        Some(Image { width, height, pixels })
    }

    /// The image as raw bytes, four per pixel, row after row.
    pub fn to_raw(&self) -> (data: Vec<u8>)
        ensures
            data@.len() == 4 * self.spec_pixels().len(),
            forall|k: int|
                0 <= k < self.spec_pixels().len() ==> pixel_from_raw(data@, k)
                    == #[trigger] self.spec_pixels()[k],
    {
        proof {
            use_type_invariant(self);
            self.lemma_area();
        }
        let count: usize = self.pixels.len();
        let mut data: Vec<u8> = Vec::new();
        let mut i: usize = 0;
        while i < count
            invariant
                i <= count,
                count == self.pixels@.len(),
                4 * count <= usize::MAX,
                data@.len() == 4 * i,
                forall|k: int|
                    0 <= k < i ==> pixel_from_raw(data@, k) == #[trigger] self.pixels@[k],
            decreases count - i,
        {
            let pixel = self.pixels[i];
            let ghost before = data@;
            data.push(pixel.red);
            data.push(pixel.green);
            data.push(pixel.blue);
            data.push(pixel.alpha);
            proof {
                assert forall|k: int| 0 <= k < i + 1 implies pixel_from_raw(data@, k)
                    == #[trigger] self.pixels@[k] by {
                    if k < i {
                        assert(pixel_from_raw(before, k) == self.pixels@[k]);
                        assert(data@[4 * k] == before[4 * k]);
                        assert(data@[4 * k + 1] == before[4 * k + 1]);
                        assert(data@[4 * k + 2] == before[4 * k + 2]);
                        assert(data@[4 * k + 3] == before[4 * k + 3]);
                    }
                }
            }
            i += 1;
        }
        data
    }
}

/// The sum of `weigh` over `count` pixels of row `y`, from column `left` on.
pub open spec fn row_sum(
    img: &Image,
    weigh: spec_fn(Pixel) -> int,
    y: int,
    left: int,
    count: int,
) -> int
    decreases count,
{
    if count <= 0 {
        0
    } else {
        row_sum(img, weigh, y, left, count - 1) + weigh(img.spec_pixel(left + count - 1, y))
    }
}

/// The sum of `weigh` over the pixels with `left <= x < left + width` and
/// `top <= y < top + rows`.
pub open spec fn rect_sum(
    img: &Image,
    weigh: spec_fn(Pixel) -> int,
    left: int,
    top: int,
    width: int,
    rows: int,
) -> int
    decreases rows,
{
    if rows <= 0 {
        0
    } else {
        rect_sum(img, weigh, left, top, width, rows - 1) + row_sum(
            img,
            weigh,
            top + rows - 1,
            left,
            width,
        )
    }
}

/// The sum of `weigh` over the rectangle `(left, top, width, height)`.
pub open spec fn rect_total(
    img: &Image,
    weigh: spec_fn(Pixel) -> int,
    rect: (u32, u32, u32, u32),
) -> int {
    rect_sum(img, weigh, rect.0 as int, rect.1 as int, rect.2 as int, rect.3 as int)
}

pub open spec fn red_of() -> spec_fn(Pixel) -> int {
    |p: Pixel| p.red as int
}

pub open spec fn green_of() -> spec_fn(Pixel) -> int {
    |p: Pixel| p.green as int
}

pub open spec fn blue_of() -> spec_fn(Pixel) -> int {
    |p: Pixel| p.blue as int
}

/// 1 for a fully transparent pixel, 0 for any other.
pub open spec fn transparent_of() -> spec_fn(Pixel) -> int {
    |p: Pixel| if p.alpha == 0 { 1int } else { 0int }
}

/// Whether a rectangle `(left, top, width, height)` lies inside the image.
pub open spec fn rect_inside(img: &Image, rect: (u32, u32, u32, u32)) -> bool {
    &&& rect.0 + rect.2 <= img.spec_width()
    &&& rect.1 + rect.3 <= img.spec_height()
}

/// Sums of a rectangle: red, green, blue, and the number of fully
/// transparent pixels.
pub struct RegionTotals {
    pub red: u128,
    pub green: u128,
    pub blue: u128,
    pub transparent: u128,
}

impl Image {
    /// Adds up a rectangle of the image in one pass.
    pub fn region_totals(&self, rect: &(u32, u32, u32, u32)) -> (totals: RegionTotals)
        requires
            rect_inside(self, *rect),
        ensures
            totals.red == rect_total(self, red_of(), *rect),
            totals.green == rect_total(self, green_of(), *rect),
            totals.blue == rect_total(self, blue_of(), *rect),
            totals.transparent == rect_total(self, transparent_of(), *rect),
            totals.red <= 255 * (rect.2 * rect.3),
            totals.green <= 255 * (rect.2 * rect.3),
            totals.blue <= 255 * (rect.2 * rect.3),
            totals.transparent <= rect.2 * rect.3,
    {
        let left: u32 = rect.0;
        let top: u32 = rect.1;
        let width: u32 = rect.2;
        let height: u32 = rect.3;
        let mut red: u128 = 0;
        let mut green: u128 = 0;
        let mut blue: u128 = 0;
        let mut transparent: u128 = 0;
        let ghost x0 = left as int;
        let ghost y0 = top as int;
        let mut row: u32 = 0;
        while row < height
            invariant
                row <= height,
                x0 == left,
                y0 == top,
                left + width <= self.spec_width(),
                top + height <= self.spec_height(),
                red == rect_sum(self, red_of(), x0, y0, width as int, row as int),
                green == rect_sum(self, green_of(), x0, y0, width as int, row as int),
                blue == rect_sum(self, blue_of(), x0, y0, width as int, row as int),
                transparent == rect_sum(self, transparent_of(), x0, y0, width as int, row as int),
                red <= 255 * (width * row),
                green <= 255 * (width * row),
                blue <= 255 * (width * row),
                transparent <= width * row,
            decreases height - row,
        {
            let y: u32 = top + row;
            let mut row_red: u128 = 0;
            let mut row_green: u128 = 0;
            let mut row_blue: u128 = 0;
            let mut row_clear: u128 = 0;
            let mut col: u32 = 0;
            while col < width
                invariant
                    col <= width,
                    y < self.spec_height(),
                    left + width <= self.spec_width(),
                    row_red == row_sum(self, red_of(), y as int, left as int, col as int),
                    row_green == row_sum(self, green_of(), y as int, left as int, col as int),
                    row_blue == row_sum(self, blue_of(), y as int, left as int, col as int),
                    row_clear == row_sum(self, transparent_of(), y as int, left as int, col as int),
                    row_red <= 255 * col,
                    row_green <= 255 * col,
                    row_blue <= 255 * col,
                    row_clear <= col,
                decreases width - col,
            {
                let pixel = self.get_pixel(left + col, y);
                row_red += pixel.red as u128;
                row_green += pixel.green as u128;
                row_blue += pixel.blue as u128;
                if pixel.alpha == 0 {
                    row_clear += 1;
                }
                col += 1;
            }
            proof {
                assert(width * (row + 1) == width * row + width) by (nonlinear_arith);
                assert(width * row <= 0xffff_ffff * 0xffff_ffff) by (nonlinear_arith)
                    requires
                        width <= 0xffff_ffff,
                        row <= 0xffff_ffff,
                ;
            }
            red += row_red;
            green += row_green;
            blue += row_blue;
            transparent += row_clear;
            row += 1;
        }
        RegionTotals { red, green, blue, transparent }
    }
}

/// Where one weight is `factor` times another on every pixel of a row, so
/// are the sums.
pub proof fn lemma_row_sum_scaled(
    img: &Image,
    weigh: spec_fn(Pixel) -> int,
    unit: spec_fn(Pixel) -> int,
    factor: int,
    y: int,
    left: int,
    count: int,
)
    requires
        forall|x: int|
            left <= x < left + count ==> weigh(#[trigger] img.spec_pixel(x, y)) == factor * unit(
                img.spec_pixel(x, y),
            ),
    ensures
        row_sum(img, weigh, y, left, count) == factor * row_sum(img, unit, y, left, count),
    decreases count,
{
    if count > 0 {
        lemma_row_sum_scaled(img, weigh, unit, factor, y, left, count - 1);
        let last = img.spec_pixel(left + count - 1, y);
        let rest = row_sum(img, unit, y, left, count - 1);
        assert(factor * (rest + unit(last)) == factor * rest + factor * unit(last))
            by (nonlinear_arith);
    } else {
        assert(factor * 0 == 0);
    }
}

/// Where one weight is `factor` times another on every pixel of a
/// rectangle, so are the sums.
pub proof fn lemma_rect_sum_scaled(
    img: &Image,
    weigh: spec_fn(Pixel) -> int,
    unit: spec_fn(Pixel) -> int,
    factor: int,
    left: int,
    top: int,
    width: int,
    rows: int,
)
    requires
        forall|x: int, y: int|
            left <= x < left + width && top <= y < top + rows ==> weigh(
                #[trigger] img.spec_pixel(x, y),
            ) == factor * unit(img.spec_pixel(x, y)),
    ensures
        rect_sum(img, weigh, left, top, width, rows) == factor * rect_sum(
            img,
            unit,
            left,
            top,
            width,
            rows,
        ),
    decreases rows,
{
    if rows > 0 {
        lemma_rect_sum_scaled(img, weigh, unit, factor, left, top, width, rows - 1);
        lemma_row_sum_scaled(img, weigh, unit, factor, top + rows - 1, left, width);
        let above = rect_sum(img, unit, left, top, width, rows - 1);
        let last = row_sum(img, unit, top + rows - 1, left, width);
        assert(factor * (above + last) == factor * above + factor * last) by (nonlinear_arith);
    } else {
        assert(factor * 0 == 0);
    }
}

/// The weight that is 1 on every pixel.
pub open spec fn one_of() -> spec_fn(Pixel) -> int {
    |p: Pixel| 1int
}

/// Counting every pixel of a rectangle once gives its area.
pub proof fn lemma_rect_sum_ones(img: &Image, left: int, top: int, width: int, rows: int)
    requires
        width >= 0,
        rows >= 0,
    ensures
        rect_sum(img, one_of(), left, top, width, rows) == width * rows,
    decreases rows,
{
    if rows > 0 {
        lemma_rect_sum_ones(img, left, top, width, rows - 1);
        lemma_row_sum_ones(img, top + rows - 1, left, width);
        assert(width * rows == width * (rows - 1) + width) by (nonlinear_arith);
    } else {
        assert(width * 0 == 0);
    }
}

proof fn lemma_row_sum_ones(img: &Image, y: int, left: int, count: int)
    requires
        count >= 0,
    ensures
        row_sum(img, one_of(), y, left, count) == count,
    decreases count,
{
    if count > 0 {
        lemma_row_sum_ones(img, y, left, count - 1);
    }
}

} // verus!
