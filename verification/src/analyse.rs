//! Analysis of a corpus: the signature of each tile image, and the tile set
//! made of those that have one.

use vstd::prelude::*;
use crate::color::{mean_color, mean_of_totals, SerializableRgb};
use crate::raster::{rect_inside, rect_total, transparent_of, Image};
use crate::tile::{Tile, TileSet};

verus! {

/// More than half of the rectangle's pixels are fully transparent.
pub open spec fn mostly_transparent(img: &Image, rect: (u32, u32, u32, u32)) -> bool {
    2 * rect_total(img, transparent_of(), rect) > rect.2 * rect.3
}

/// What a rectangle yields: its average colour, or nothing where more than
/// half of it is fully transparent.
pub open spec fn extracted(img: &Image, rect: (u32, u32, u32, u32)) -> Option<SerializableRgb> {
    if mostly_transparent(img, rect) {
        None
    } else {
        Some(mean_color(img, rect))
    }
}

/// The average colour of a rectangle, unless the rectangle is mostly
/// transparent.
pub fn extract_color(img: &Image, rect: &(u32, u32, u32, u32)) -> (color: Option<SerializableRgb>)
    requires
        rect_inside(img, *rect),
        rect.2 >= 1,
        rect.3 >= 1,
    ensures
        color == extracted(img, *rect),
{
    let totals = img.region_totals(rect);
    assert(1 <= rect.2 * rect.3 <= 0xffff_ffff * 0xffff_ffff) by (nonlinear_arith)
        requires
            1 <= rect.2 <= 0xffff_ffff,
            1 <= rect.3 <= 0xffff_ffff,
    ;
    let area: u128 = (rect.2 as u128) * (rect.3 as u128);
    if 2 * totals.transparent > area {
        None
    } else {
        Some(mean_of_totals(&totals, rect.2, rect.3))
    }
}

/// The whole image as a rectangle.
pub open spec fn whole(img: &Image) -> (u32, u32, u32, u32) {
    (0u32, 0u32, img.spec_width() as u32, img.spec_height() as u32)
}

/// The signature of a tile matched pixel by pixel: the average colour of
/// the whole image. An image without pixels has none.
pub open spec fn mono_signature(img: &Image) -> Option<SerializableRgb> {
    if img.spec_width() == 0 || img.spec_height() == 0 {
        None
    } else {
        extracted(img, whole(img))
    }
}

pub fn signature_1to1(img: &Image) -> (signature: Option<SerializableRgb>)
    ensures
        signature == mono_signature(img),
{
    if img.width() == 0 || img.height() == 0 {
        return None;
    }
    extract_color(img, &(0, 0, img.width(), img.height()))
}

/// The four quadrants of an image, clockwise from the top left. Each is
/// half the width and half the height, rounded down, so that a last odd
/// row or column belongs to none.
pub open spec fn quadrant(img: &Image, k: int) -> (u32, u32, u32, u32) {
    let half_width = (img.spec_width() / 2) as u32;
    let half_height = (img.spec_height() / 2) as u32;
    if k == 0 {
        (0u32, 0u32, half_width, half_height)
    } else if k == 1 {
        (half_width, 0u32, half_width, half_height)
    } else if k == 2 {
        (half_width, half_height, half_width, half_height)
    } else {
        (0u32, half_height, half_width, half_height)
    }
}

/// Whether an image has a signature of four colours: its quadrants are not
/// empty, and none is mostly transparent.
pub open spec fn has_quad_signature(img: &Image) -> bool {
    &&& img.spec_width() >= 2
    &&& img.spec_height() >= 2
    &&& forall|k: int| 0 <= k < 4 ==> !mostly_transparent(img, #[trigger] quadrant(img, k))
}

/// The signature of a tile matched by blocks of four pixels: the average
/// colours of its quadrants.
pub open spec fn quad_signature(img: &Image) -> Option<[SerializableRgb; 4]> {
    if has_quad_signature(img) {
        Some(
            [
                mean_color(img, quadrant(img, 0)),
                mean_color(img, quadrant(img, 1)),
                mean_color(img, quadrant(img, 2)),
                mean_color(img, quadrant(img, 3)),
            ],
        )
    } else {
        None
    }
}

pub fn signature_4to1(img: &Image) -> (signature: Option<[SerializableRgb; 4]>)
    ensures
        signature == quad_signature(img),
{
    let half_width: u32 = img.width() / 2;
    let half_height: u32 = img.height() / 2;
    if half_width == 0 || half_height == 0 {
        return None;
    }
    let top_left = extract_color(img, &(0, 0, half_width, half_height));
    let top_right = extract_color(img, &(half_width, 0, half_width, half_height));
    let bottom_right = extract_color(img, &(half_width, half_height, half_width, half_height));
    let bottom_left = extract_color(img, &(0, half_height, half_width, half_height));
    assert(quadrant(img, 0) == (0u32, 0u32, half_width, half_height));
    assert(quadrant(img, 1) == (half_width, 0u32, half_width, half_height));
    assert(quadrant(img, 2) == (half_width, half_height, half_width, half_height));
    assert(quadrant(img, 3) == (0u32, half_height, half_width, half_height));
    match (top_left, top_right, bottom_right, bottom_left) {
        (Some(c0), Some(c1), Some(c2), Some(c3)) => {
            let colors: [SerializableRgb; 4] = [c0, c1, c2, c3];
            assert(has_quad_signature(img)) by {
                assert forall|k: int| 0 <= k < 4 implies !mostly_transparent(
                    img,
                    #[trigger] quadrant(img, k),
                ) by {}
            }
            assert(colors =~= quad_signature(img).unwrap());
            Some(colors)
        },
        _ => None,
    }
}

/// The tiles made of the results that carry a signature, in the order of
/// the results.
pub open spec fn kept<T>(results: Seq<(String, Option<T>)>) -> Seq<Tile<T>>
    decreases results.len(),
{
    if results.len() == 0 {
        Seq::empty()
    } else {
        let rest = kept(results.drop_last());
        match results.last().1 {
            Some(colors) => rest.push(Tile { path_buf: results.last().0, colors }),
            None => rest,
        }
    }
}

/// The number of results that carry a signature.
pub open spec fn with_signature<T>(results: Seq<(String, Option<T>)>) -> nat
    decreases results.len(),
{
    if results.len() == 0 {
        0
    } else if results.last().1.is_some() {
        with_signature(results.drop_last()) + 1
    } else {
        with_signature(results.drop_last())
    }
}

/// Gathers the results of the workers into a tile set: one tile for each
/// result with a signature, the others dropped.
pub fn collect_tiles<T: Copy>(results: Vec<(String, Option<T>)>) -> (set: TileSet<T>)
    ensures
        set@ == kept(results@),
{
    let mut set: TileSet<T> = TileSet::new();
    let mut i: usize = 0;
    while i < results.len()
        invariant
            i <= results@.len(),
            set@ == kept(results@.take(i as int)),
        decreases results@.len() - i,
    {
        proof {
            assert(results@.take(i + 1).drop_last() =~= results@.take(i as int));
        }
        match results[i].1 {
            Some(colors) => {
                set.push(Tile::new(results[i].0.clone(), colors));
            },
            None => {},
        }
        i += 1;
    }
    assert(results@.take(i as int) =~= results@);
    set
}

/// One tile is collected for each result with a signature.
pub proof fn lemma_collect_count<T>(results: Seq<(String, Option<T>)>)
    ensures
        kept(results).len() == with_signature(results),
    decreases results.len(),
{
    if results.len() > 0 {
        lemma_collect_count(results.drop_last());
    }
}

/// A tile is collected as often as its path and signature occur among the
/// results.
pub proof fn lemma_collect_occurrences<T>(results: Seq<(String, Option<T>)>, tile: Tile<T>)
    ensures
        kept(results).to_multiset().count(tile) == results.to_multiset().count(
            (tile.path_buf, Some(tile.colors)),
        ),
    decreases results.len(),
{
    broadcast use vstd::multiset::group_multiset_axioms;

    let entry = (tile.path_buf, Some(tile.colors));
    if results.len() == 0 {
        assert(results.to_multiset().count(entry) == 0) by {
            results.to_multiset_ensures();
            if results.to_multiset().count(entry) > 0 {
                assert(results.contains(entry));
            }
        }
        kept(results).to_multiset_ensures();
        if kept(results).to_multiset().count(tile) > 0 {
            assert(kept(results).contains(tile));
        }
    } else {
        let front = results.drop_last();
        let last = results.last();
        lemma_collect_occurrences(front, tile);
        assert(results =~= front.push(last));
        vstd::seq_lib::to_multiset_build(front, last);
        match last.1 {
            Some(colors) => {
                let made = Tile { path_buf: last.0, colors };
                vstd::seq_lib::to_multiset_build(kept(front), made);
                assert(made == tile <==> last == entry);
            },
            None => {
                assert(last != entry);
            },
        }
    }
}

/// The collected tiles are the same, each as often, in whatever order the
/// results arrive.
pub proof fn lemma_collect_order_free<T>(
    first: Seq<(String, Option<T>)>,
    second: Seq<(String, Option<T>)>,
)
    requires
        first.to_multiset() == second.to_multiset(),
    ensures
        kept(first).to_multiset() == kept(second).to_multiset(),
        kept(first).len() == kept(second).len(),
{
    assert forall|tile: Tile<T>|
        kept(first).to_multiset().count(tile) == kept(second).to_multiset().count(tile) by {
        lemma_collect_occurrences(first, tile);
        lemma_collect_occurrences(second, tile);
    }
    assert(kept(first).to_multiset() =~= kept(second).to_multiset());
    kept(first).to_multiset_ensures();
    kept(second).to_multiset_ensures();
}

/// The results of analysing images one colour each.
pub open spec fn mono_results(images: Seq<(String, Image)>) -> Seq<
    (String, Option<SerializableRgb>),
> {
    images.map_values(|entry: (String, Image)| (entry.0, mono_signature(&entry.1)))
}

/// The results of analysing images four colours each.
pub open spec fn quad_results(images: Seq<(String, Image)>) -> Seq<
    (String, Option<[SerializableRgb; 4]>),
> {
    images.map_values(|entry: (String, Image)| (entry.0, quad_signature(&entry.1)))
}

/// Analyses a corpus for matching pixel by pixel: a tile for each image
/// that has a signature, with the average colour of the whole image.
pub fn analyse_1to1(images: Vec<(String, Image)>) -> (set: TileSet<SerializableRgb>)
    ensures
        set@ == kept(mono_results(images@)),
{
    let mut results: Vec<(String, Option<SerializableRgb>)> = Vec::new();
    let mut i: usize = 0;
    while i < images.len()
        invariant
            i <= images@.len(),
            results@ == mono_results(images@.take(i as int)),
        decreases images@.len() - i,
    {
        let signature = signature_1to1(&images[i].1);
        results.push((images[i].0.clone(), signature));
        i += 1;
        assert(results@ =~= mono_results(images@.take(i as int)));
    }
    assert(images@.take(i as int) =~= images@);
    collect_tiles(results)
}

/// Analyses a corpus for matching by blocks of four pixels: a tile for
/// each image that has a signature, with the average colours of its
/// quadrants.
pub fn analyse_4to1(images: Vec<(String, Image)>) -> (set: TileSet<[SerializableRgb; 4]>)
    ensures
        set@ == kept(quad_results(images@)),
{
    let mut results: Vec<(String, Option<[SerializableRgb; 4]>)> = Vec::new();
    let mut i: usize = 0;
    while i < images.len()
        invariant
            i <= images@.len(),
            results@ == quad_results(images@.take(i as int)),
        decreases images@.len() - i,
    {
        let signature = signature_4to1(&images[i].1);
        results.push((images[i].0.clone(), signature));
        i += 1;
        assert(results@ =~= quad_results(images@.take(i as int)));
    }
    assert(images@.take(i as int) =~= images@);
    collect_tiles(results)
}

/// The number of batches of `size` items that `len` items make.
pub open spec fn batch_count(len: int, size: int) -> int {
    (len + size - 1) / size
}

/// Batch `k` of `len` items: from `k * size` up to, not including, the
/// start of the next batch or `len`.
pub open spec fn batch_of(len: int, size: int, k: int) -> (int, int) {
    (k * size, if (k + 1) * size < len { (k + 1) * size } else { len })
}

/// Splits `len` items into batches of `size`, the last one shorter where
/// `size` does not divide `len`. Each batch is a pair of bounds, the second
/// one excluded.
pub fn batch_bounds(len: usize, size: usize) -> (bounds: Vec<(usize, usize)>)
    requires
        size >= 1,
    ensures
        bounds@.len() == batch_count(len as int, size as int),
        forall|k: int|
            0 <= k < bounds@.len() ==> (#[trigger] bounds@[k]).0 == batch_of(
                len as int,
                size as int,
                k,
            ).0 && bounds@[k].1 == batch_of(len as int, size as int, k).1,
{
    let mut bounds: Vec<(usize, usize)> = Vec::new();
    let mut start: usize = 0;
    assert(0 * size == 0);
    while start < len
        invariant
            size >= 1,
            start <= len,
            start < len ==> start == bounds@.len() * size,
            start == len ==> (bounds@.len() - 1) * size < len <= bounds@.len() * size
                || (len == 0 && bounds@.len() == 0),
            forall|k: int|
                0 <= k < bounds@.len() ==> (#[trigger] bounds@[k]).0 == batch_of(
                    len as int,
                    size as int,
                    k,
                ).0 && bounds@[k].1 == batch_of(len as int, size as int, k).1,
        decreases len - start,
    {
        let ghost k = bounds@.len() as int;
        assert((k + 1) * size == k * size + size) by (nonlinear_arith);
        let end: usize = if len - start > size {
            start + size
        } else {
            len
        };
        bounds.push((start, end));
        start = end;
    }
    proof {
        let count = bounds@.len() as int;
        if len == 0 {
            assert(batch_count(0, size as int) == 0) by {
                vstd::arithmetic::div_mod::lemma_basic_div(size as int - 1, size as int);
            }
        } else {
            assert(size * count == count * size) by (nonlinear_arith);
            assert(size * (count - 1) == (count - 1) * size) by (nonlinear_arith);
            assert(size * (count - 1) + size == size * count) by (nonlinear_arith);
            vstd::arithmetic::div_mod::lemma_fundamental_div_mod_converse(
                len + size - 1,
                size as int,
                count,
                len + size - 1 - size * count,
            );
        }
    }
    bounds
}

} // verus!
