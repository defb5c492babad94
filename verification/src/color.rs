//! Colours, colour signatures and the weighted distance between them.

use vstd::prelude::*;
use crate::raster::{
    blue_of, green_of, lemma_rect_sum_ones, lemma_rect_sum_scaled, one_of, rect_inside,
    rect_total, red_of, Image, Pixel, RegionTotals,
};

verus! {

/// An RGB colour with byte-valued channels.
#[derive(Debug, Copy, Clone, PartialEq, Eq, Structural)]
pub struct SerializableRgb(pub u8, pub u8, pub u8);

impl SerializableRgb {
    pub fn new(red: u8, green: u8, blue: u8) -> (rgb: SerializableRgb)
        ensures
            rgb == SerializableRgb(red, green, blue),
    {
        SerializableRgb(red, green, blue)
    }

    pub fn red(&self) -> (r: u8)
        ensures
            r == self.0,
    {
        self.0
    }

    pub fn green(&self) -> (g: u8)
        ensures
            g == self.1,
    {
        self.1
    }

    pub fn blue(&self) -> (b: u8)
        ensures
            b == self.2,
    {
        self.2
    }
}

/// Conversion of a pixel value into an RGB colour.
pub trait IntoSerializableRgb: Sized {
    /// The colour that the value stands for.
    spec fn rgb(self) -> SerializableRgb;

    fn into_serializable_rgb(self) -> (rgb: SerializableRgb)
        ensures
            rgb == self.rgb(),
    ;
}

impl IntoSerializableRgb for [u8; 3] {
    open spec fn rgb(self) -> SerializableRgb {
        SerializableRgb(self[0], self[1], self[2])
    }

    fn into_serializable_rgb(self) -> (rgb: SerializableRgb) {
        SerializableRgb(self[0], self[1], self[2])
    }
}

impl From<SerializableRgb> for [u8; 3] {
    /// The channels as an array, red first.
    fn from(rgb: SerializableRgb) -> (channels: [u8; 3]) {
        [rgb.0, rgb.1, rgb.2]
    }
}

impl vstd::std_specs::convert::FromSpecImpl<SerializableRgb> for [u8; 3] {
    open spec fn obeys_from_spec() -> bool {
        true
    }

    open spec fn from_spec(rgb: SerializableRgb) -> [u8; 3] {
        [rgb.0, rgb.1, rgb.2]
    }
}

/// `x` times `x`.
pub open spec fn square(x: int) -> int {
    x * x
}

/// The weighted squared distance between two colours, in hundredths:
/// 30 parts red, 59 parts green, 11 parts blue.
pub open spec fn weighted_distance(a: SerializableRgb, b: SerializableRgb) -> int {
    30 * square(a.0 - b.0) + 59 * square(a.1 - b.1) + 11 * square(a.2 - b.2)
}

/// The largest value of `weighted_distance`.
pub const MAX_DISTANCE: u32 = 6_502_500;

fn channel_gap(x: u8, y: u8) -> (gap: u32)
    ensures
        gap * gap == square(x - y),
        gap * gap <= 65025,
{
    let gap: u32 = if x >= y {
        (x - y) as u32
    } else {
        (y - x) as u32
    };
    assert(gap * gap == square(x - y)) by (nonlinear_arith)
        requires
            gap == x - y || gap == y - x,
    ;
    assert(gap * gap <= 65025) by (nonlinear_arith)
        requires
            gap <= 255,
    ;
    gap
}

/// Colour metric: `0.30 dr^2 + 0.59 dg^2 + 0.11 db^2`, returned in
/// hundredths so that it is a whole number.
pub fn compare(a: &SerializableRgb, b: &SerializableRgb) -> (d: u32)
    ensures
        d == weighted_distance(*a, *b),
        d <= MAX_DISTANCE,
{
    let dr = channel_gap(a.0, b.0);
    let dg = channel_gap(a.1, b.1);
    let db = channel_gap(a.2, b.2);
    30 * (dr * dr) + 59 * (dg * dg) + 11 * (db * db)
}

/// The metric is symmetric and never negative.
pub proof fn lemma_compare_symmetric(a: SerializableRgb, b: SerializableRgb)
    ensures
        weighted_distance(a, b) == weighted_distance(b, a),
        weighted_distance(a, b) >= 0,
{
    lemma_square(a.0 - b.0);
    lemma_square(a.1 - b.1);
    lemma_square(a.2 - b.2);
    assert(square(a.0 - b.0) == square(b.0 - a.0)) by (nonlinear_arith);
    assert(square(a.1 - b.1) == square(b.1 - a.1)) by (nonlinear_arith);
    assert(square(a.2 - b.2) == square(b.2 - a.2)) by (nonlinear_arith);
}

/// The metric is zero exactly between colours with equal channels.
pub proof fn lemma_compare_zero(a: SerializableRgb, b: SerializableRgb)
    ensures
        weighted_distance(a, b) == 0 <==> a == b,
        weighted_distance(a, a) == 0,
{
    lemma_square(a.0 - b.0);
    lemma_square(a.1 - b.1);
    lemma_square(a.2 - b.2);
}

/// A square is never negative, and zero only for zero.
pub proof fn lemma_square(x: int)
    ensures
        square(x) >= 0,
        square(x) == 0 <==> x == 0,
{
    assert(x * x >= 0) by (nonlinear_arith);
    assert(x * x == 0 <==> x == 0) by (nonlinear_arith);
}

/// `total / count`, rounded to the nearest whole number, halves upward.
pub open spec fn rounded_mean(total: int, count: int) -> int {
    (2 * total + count) / (2 * count)
}

/// The rounded mean of a weight over the rectangle
/// `(left, top, width, height)` of an image.
pub open spec fn region_mean(
    img: &Image,
    weigh: spec_fn(Pixel) -> int,
    rect: (u32, u32, u32, u32),
) -> int {
    rounded_mean(rect_total(img, weigh, rect), rect.2 * rect.3)
}

/// A quotient is pinned by the two multiples of the divisor around the
/// dividend.
proof fn lemma_quotient(x: int, d: int, q: int)
    requires
        d > 0,
        d * q <= x < d * (q + 1),
    ensures
        x / d == q,
{
    assert(d * (q + 1) == d * q + d) by (nonlinear_arith);
    assert(q * d == d * q) by (nonlinear_arith);
    vstd::arithmetic::div_mod::lemma_fundamental_div_mod_converse(x, d, q, x - d * q);
}

/// The rounded mean of a total that is at most 255 per item is a byte.
proof fn lemma_mean_is_byte(total: int, count: int)
    requires
        count > 0,
        0 <= total <= 255 * count,
    ensures
        0 <= rounded_mean(total, count) <= 255,
{
    let q = (2 * total + count) / (2 * count);
    vstd::arithmetic::div_mod::lemma_fundamental_div_mod(2 * total + count, 2 * count);
    vstd::arithmetic::div_mod::lemma_mod_bound(2 * total + count, 2 * count);
    assert(q <= 255) by (nonlinear_arith)
        requires
            (2 * count) * q <= 2 * total + count,
            total <= 255 * count,
            count > 0,
    ;
    assert(q >= 0) by (nonlinear_arith)
        requires
            (2 * count) * q + 2 * count > 2 * total + count,
            total >= 0,
            count > 0,
    ;
}

/// The average colour of a rectangle: the rounded mean of each channel.
pub open spec fn mean_color(img: &Image, rect: (u32, u32, u32, u32)) -> SerializableRgb {
    SerializableRgb(
        region_mean(img, red_of(), rect) as u8,
        region_mean(img, green_of(), rect) as u8,
        region_mean(img, blue_of(), rect) as u8,
    )
}

/// The rounded means of the three colour sums of a rectangle.
pub fn mean_of_totals(totals: &RegionTotals, width: u32, height: u32) -> (rgb: SerializableRgb)
    requires
        width >= 1,
        height >= 1,
        totals.red <= 255 * (width * height),
        totals.green <= 255 * (width * height),
        totals.blue <= 255 * (width * height),
    ensures
        rgb.0 == rounded_mean(totals.red as int, width * height),
        rgb.1 == rounded_mean(totals.green as int, width * height),
        rgb.2 == rounded_mean(totals.blue as int, width * height),
{
    assert(1 <= width * height <= 0xffff_ffff * 0xffff_ffff) by (nonlinear_arith)
        requires
            1 <= width <= 0xffff_ffff,
            1 <= height <= 0xffff_ffff,
    ;
    let count: u128 = (width as u128) * (height as u128);
    proof {
        lemma_mean_is_byte(totals.red as int, count as int);
        lemma_mean_is_byte(totals.green as int, count as int);
        lemma_mean_is_byte(totals.blue as int, count as int);
    }
    let red: u128 = (2 * totals.red + count) / (2 * count);
    let green: u128 = (2 * totals.green + count) / (2 * count);
    let blue: u128 = (2 * totals.blue + count) / (2 * count);
    SerializableRgb(red as u8, green as u8, blue as u8)
}

/// Average colour of the rectangle `(left, top, width, height)`: per channel
/// the arithmetic mean over the pixels with `left <= x < left + width` and
/// `top <= y < top + height`, rounded to the nearest integer.
pub fn average_color(img: &Image, rect: &(u32, u32, u32, u32)) -> (rgb: SerializableRgb)
    requires
        rect_inside(img, *rect),
        rect.2 >= 1,
        rect.3 >= 1,
    ensures
        rgb == mean_color(img, *rect),
        rgb.0 == region_mean(img, red_of(), *rect),
        rgb.1 == region_mean(img, green_of(), *rect),
        rgb.2 == region_mean(img, blue_of(), *rect),
{
    let totals = img.region_totals(rect);
    mean_of_totals(&totals, rect.2, rect.3)
}

/// Over a rectangle on which a channel has one value everywhere, the mean
/// of the channel is that value.
pub proof fn lemma_average_uniform(
    img: &Image,
    weigh: spec_fn(Pixel) -> int,
    rect: (u32, u32, u32, u32),
    value: int,
)
    requires
        rect.2 >= 1,
        rect.3 >= 1,
        forall|x: int, y: int|
            rect.0 <= x < rect.0 + rect.2 && rect.1 <= y < rect.1 + rect.3 ==> weigh(
                #[trigger] img.spec_pixel(x, y),
            ) == value,
    ensures
        region_mean(img, weigh, rect) == value,
{
    let (left, top, width, rows) = (rect.0 as int, rect.1 as int, rect.2 as int, rect.3 as int);
    assert forall|x: int, y: int|
        left <= x < left + width && top <= y < top + rows implies weigh(
        #[trigger] img.spec_pixel(x, y),
    ) == value * one_of()(img.spec_pixel(x, y)) by {
        assert(value * 1 == value);
    }
    lemma_rect_sum_scaled(img, weigh, one_of(), value, left, top, width, rows);
    lemma_rect_sum_ones(img, left, top, width, rows);
    let area = width * rows;
    assert(area >= 1) by (nonlinear_arith)
        requires
            area == width * rows,
            width >= 1,
            rows >= 1,
    ;
    assert((2 * area) * value <= 2 * (value * area) + area < (2 * area) * (value + 1))
        by (nonlinear_arith)
        requires
            area >= 1,
    ;
    lemma_quotient(2 * (value * area) + area, 2 * area, value);
}

/// Over a rectangle of one colour, the average colour is that colour.
pub proof fn lemma_average_of_one_color(
    img: &Image,
    rect: (u32, u32, u32, u32),
    color: SerializableRgb,
)
    requires
        rect.2 >= 1,
        rect.3 >= 1,
        forall|x: int, y: int|
            rect.0 <= x < rect.0 + rect.2 && rect.1 <= y < rect.1 + rect.3 ==> (
            #[trigger] img.spec_pixel(x, y)).rgb() == color,
    ensures
        mean_color(img, rect) == color,
{
    assert forall|x: int, y: int|
        rect.0 <= x < rect.0 + rect.2 && rect.1 <= y < rect.1 + rect.3 implies red_of()(
        #[trigger] img.spec_pixel(x, y),
    ) == color.0 && green_of()(img.spec_pixel(x, y)) == color.1 && blue_of()(
        img.spec_pixel(x, y),
    ) == color.2 by {
        assert(img.spec_pixel(x, y).rgb() == color);
    }
    lemma_average_uniform(img, red_of(), rect, color.0 as int);
    lemma_average_uniform(img, green_of(), rect, color.1 as int);
    lemma_average_uniform(img, blue_of(), rect, color.2 as int);
}

/// 1 where a weight is 255, 0 elsewhere.
pub open spec fn full_of(weigh: spec_fn(Pixel) -> int) -> spec_fn(Pixel) -> int {
    |p: Pixel| if weigh(p) == 255 { 1int } else { 0int }
}

/// Over a rectangle on which a channel is 0 or 255 everywhere, the mean of
/// the channel is `255 * n / area` rounded, `n` being the number of pixels
/// at 255.
pub proof fn lemma_average_two_valued(
    img: &Image,
    weigh: spec_fn(Pixel) -> int,
    rect: (u32, u32, u32, u32),
)
    requires
        forall|x: int, y: int|
            rect.0 <= x < rect.0 + rect.2 && rect.1 <= y < rect.1 + rect.3 ==> {
                ||| weigh(#[trigger] img.spec_pixel(x, y)) == 0
                ||| weigh(img.spec_pixel(x, y)) == 255
            },
    ensures
        region_mean(img, weigh, rect) == rounded_mean(
            255 * rect_total(img, full_of(weigh), rect),
            rect.2 * rect.3,
        ),
{
    let (left, top, width, rows) = (rect.0 as int, rect.1 as int, rect.2 as int, rect.3 as int);
    lemma_rect_sum_scaled(img, weigh, full_of(weigh), 255, left, top, width, rows);
}

/// A colour signature: what a tile or a unit of the source is matched by.
pub trait Signature: Sized {
    /// The distance between two signatures, in hundredths.
    spec fn distance(&self, other: &Self) -> int;

    /// The distance is symmetric, never negative, and zero from a signature
    /// to itself.
    proof fn lemma_distance(a: &Self, b: &Self)
        ensures
            a.distance(b) == b.distance(a),
            a.distance(b) >= 0,
            a.distance(a) == 0,
    ;

    fn measure(&self, other: &Self) -> (d: u32)
        ensures
            d == self.distance(other),
    ;
}

impl Signature for SerializableRgb {
    open spec fn distance(&self, other: &Self) -> int {
        weighted_distance(*self, *other)
    }

    proof fn lemma_distance(a: &Self, b: &Self) {
        lemma_compare_symmetric(*a, *b);
        lemma_compare_zero(*a, *a);
    }

    fn measure(&self, other: &Self) -> (d: u32) {
        compare(self, other)
    }
}

/// The distance between two signatures of four colours (top left, top
/// right, bottom right, bottom left): the sum over the quadrants.
pub open spec fn quad_distance(a: [SerializableRgb; 4], b: [SerializableRgb; 4]) -> int {
    weighted_distance(a[0], b[0]) + weighted_distance(a[1], b[1]) + weighted_distance(a[2], b[2])
        + weighted_distance(a[3], b[3])
}

impl Signature for [SerializableRgb; 4] {
    open spec fn distance(&self, other: &Self) -> int {
        quad_distance(*self, *other)
    }

    proof fn lemma_distance(a: &Self, b: &Self) {
        lemma_compare_symmetric(a[0], b[0]);
        lemma_compare_symmetric(a[1], b[1]);
        lemma_compare_symmetric(a[2], b[2]);
        lemma_compare_symmetric(a[3], b[3]);
        lemma_compare_zero(a[0], a[0]);
        lemma_compare_zero(a[1], a[1]);
        lemma_compare_zero(a[2], a[2]);
        lemma_compare_zero(a[3], a[3]);
    }

    fn measure(&self, other: &Self) -> (d: u32) {
        let d0 = compare(&self[0], &other[0]);
        let d1 = compare(&self[1], &other[1]);
        let d2 = compare(&self[2], &other[2]);
        let d3 = compare(&self[3], &other[3]);
        d0 + d1 + d2 + d3
    }
}

} // verus!
