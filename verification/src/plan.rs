//! The plan of a mosaic: for each unit of the source, in raster order, the
//! place of its tile in the tile set.

use vstd::prelude::*;
use crate::color::{IntoSerializableRgb, SerializableRgb};
use crate::index::{MonoIndex, QuadIndex};
use crate::raster::Image;
use crate::render::RenderError;
use crate::tile::{is_first_nearest, is_nearest, TileRng, TileSet};

verus! {

/// How the nearest tile is searched.
#[derive(Debug, Copy, Clone, PartialEq, Eq, Structural)]
pub enum Strategy {
    /// Every tile is compared; of tiles equally near the first wins.
    LinearScan,
    /// A k-d tree is built once and asked for each unit.
    KdTree,
}

/// The tile planned for the unit in column `ux` of row `uy`, where a row
/// has `across` units.
pub open spec fn planned(plan: Seq<usize>, across: int, ux: int, uy: int) -> int {
    plan[uy * across + ux] as int
}

/// The colour of the source at a pixel.
pub open spec fn unit_color(source: &Image, ux: int, uy: int) -> SerializableRgb {
    source.spec_pixel(ux, uy).rgb()
}

/// The colours of a block of two by two pixels, clockwise from the top
/// left.
pub open spec fn block_colors(source: &Image, ux: int, uy: int) -> [SerializableRgb; 4] {
    [
        source.spec_pixel(2 * ux, 2 * uy).rgb(),
        source.spec_pixel(2 * ux + 1, 2 * uy).rgb(),
        source.spec_pixel(2 * ux + 1, 2 * uy + 1).rgb(),
        source.spec_pixel(2 * ux, 2 * uy + 1).rgb(),
    ]
}

/// The colours of the block of two by two pixels at unit `(ux, uy)`.
pub fn read_block(source: &Image, ux: u32, uy: u32) -> (colors: [SerializableRgb; 4])
    requires
        2 * ux + 1 < source.spec_width(),
        2 * uy + 1 < source.spec_height(),
    ensures
        colors == block_colors(source, ux as int, uy as int),
{
    let colors: [SerializableRgb; 4] = [
        source.get_pixel(2 * ux, 2 * uy).into_serializable_rgb(),
        source.get_pixel(2 * ux + 1, 2 * uy).into_serializable_rgb(),
        source.get_pixel(2 * ux + 1, 2 * uy + 1).into_serializable_rgb(),
        source.get_pixel(2 * ux, 2 * uy + 1).into_serializable_rgb(),
    ];
    assert(colors =~= block_colors(source, ux as int, uy as int));
    colors
}

/// The plan that matches each pixel of the source with the tile nearest to
/// its colour.
pub fn plan_1to1(source: &Image, set: &TileSet<SerializableRgb>, strategy: Strategy) -> (plan: Vec<
    usize,
>)
    requires
        set@.len() > 0,
    ensures
        plan@.len() == source.spec_width() * source.spec_height(),
        forall|ux: int, uy: int|
            0 <= ux < source.spec_width() && 0 <= uy < source.spec_height() ==> is_nearest(
                set@,
                unit_color(source, ux, uy),
                #[trigger] planned(plan@, source.spec_width(), ux, uy),
            ),
        strategy == Strategy::LinearScan ==> forall|ux: int, uy: int|
            0 <= ux < source.spec_width() && 0 <= uy < source.spec_height() ==> is_first_nearest(
                set@,
                unit_color(source, ux, uy),
                #[trigger] planned(plan@, source.spec_width(), ux, uy),
            ),
{
    let linear = match strategy {
        Strategy::LinearScan => true,
        Strategy::KdTree => false,
    };
    let index: Option<MonoIndex> = if linear {
        None
    } else {
        Some(MonoIndex::build(set))
    };
    let width: u32 = source.width();
    let height: u32 = source.height();
    let ghost across = width as int;
    let mut plan: Vec<usize> = Vec::new();
    let mut uy: u32 = 0;
    while uy < height
        invariant
            uy <= height,
            width == source.spec_width(),
            height == source.spec_height(),
            across == width,
            set@.len() > 0,
            linear <==> strategy == Strategy::LinearScan,
            linear <==> index.is_none(),
            index matches Some(ix) ==> ix.tiles() == set@,
            plan@.len() == uy * across,
            forall|x: int, y: int|
                0 <= x < across && 0 <= y < uy ==> is_nearest(
                    set@,
                    unit_color(source, x, y),
                    #[trigger] planned(plan@, across, x, y),
                ),
            linear ==> forall|x: int, y: int|
                0 <= x < across && 0 <= y < uy ==> is_first_nearest(
                    set@,
                    unit_color(source, x, y),
                    #[trigger] planned(plan@, across, x, y),
                ),
        decreases height - uy,
    {
        let mut ux: u32 = 0;
        while ux < width
            invariant
                ux <= width,
                uy < height,
                width == source.spec_width(),
                height == source.spec_height(),
                across == width,
                set@.len() > 0,
                linear <==> index.is_none(),
                index matches Some(ix) ==> ix.tiles() == set@,
                plan@.len() == uy * across + ux,
                forall|x: int, y: int|
                    0 <= x < across && (0 <= y < uy || (y == uy && x < ux)) ==> is_nearest(
                        set@,
                        unit_color(source, x, y),
                        #[trigger] planned(plan@, across, x, y),
                    ),
                linear ==> forall|x: int, y: int|
                    0 <= x < across && (0 <= y < uy || (y == uy && x < ux)) ==> is_first_nearest(
                        set@,
                        unit_color(source, x, y),
                        #[trigger] planned(plan@, across, x, y),
                    ),
            decreases width - ux,
        {
            let color = source.get_pixel(ux, uy).into_serializable_rgb();
            let tile: usize = match &index {
                Some(ix) => ix.nearest(&color),
                None => set.nearest(&color).0,
            };
            let ghost before = plan@;
            plan.push(tile);
            proof {
                assert forall|x: int, y: int|
                    0 <= x < across && (0 <= y < uy || (y == uy && x < ux + 1)) implies planned(
                    plan@,
                    across,
                    x,
                    y,
                ) == if y == uy && x == ux {
                    tile as int
                } else {
                    planned(before, across, x, y)
                } by {
                    lemma_row_major(x, y, ux as int, uy as int, across);
                }
            }
            ux += 1;
        }
        proof {
            assert((uy + 1) * across == uy * across + across) by (nonlinear_arith);
        }
        uy += 1;
    }
    assert(height * across == source.spec_width() * source.spec_height()) by (nonlinear_arith)
        requires
            across == source.spec_width(),
            height == source.spec_height(),
    ;
    plan
}

/// In raster order, a unit that comes before `(ux, uy)` has a smaller
/// place.
pub proof fn lemma_row_major(x: int, y: int, ux: int, uy: int, across: int)
    requires
        0 <= x < across,
        0 <= ux < across,
        0 <= y,
        0 <= uy,
    ensures
        y < uy || (y == uy && x < ux) ==> 0 <= y * across + x < uy * across + ux,
        y == uy && x == ux ==> y * across + x == uy * across + ux,
        y > uy || (y == uy && x > ux) ==> y * across + x > uy * across + ux,
{
    if y < uy {
        assert((y + 1) * across <= uy * across) by (nonlinear_arith)
            requires
                y + 1 <= uy,
                across >= 0,
        ;
        assert((y + 1) * across == y * across + across) by (nonlinear_arith);
    }
    if y > uy {
        assert((uy + 1) * across <= y * across) by (nonlinear_arith)
            requires
                uy + 1 <= y,
                across >= 0,
        ;
        assert((uy + 1) * across == uy * across + across) by (nonlinear_arith);
    }
    assert(0 <= y * across) by (nonlinear_arith)
        requires
            0 <= y,
            0 <= across,
    ;
}

/// The plan that matches each block of two by two pixels of the source
/// with the tile nearest to its four colours. A source of odd width or
/// height is refused.
pub fn plan_4to1(
    source: &Image,
    set: &TileSet<[SerializableRgb; 4]>,
    strategy: Strategy,
) -> (made: Result<Vec<usize>, RenderError>)
    requires
        set@.len() > 0,
    ensures
        made is Err <==> source.spec_width() % 2 != 0 || source.spec_height() % 2 != 0,
        made matches Err(e) ==> e == RenderError::OddDimensions,
        made matches Ok(plan) ==> {
            &&& plan@.len() == (source.spec_width() / 2) * (source.spec_height() / 2)
            &&& forall|ux: int, uy: int|
                0 <= ux < source.spec_width() / 2 && 0 <= uy < source.spec_height() / 2
                    ==> is_nearest(
                    set@,
                    block_colors(source, ux, uy),
                    #[trigger] planned(plan@, source.spec_width() / 2, ux, uy),
                )
            &&& strategy == Strategy::LinearScan ==> forall|ux: int, uy: int|
                0 <= ux < source.spec_width() / 2 && 0 <= uy < source.spec_height() / 2
                    ==> is_first_nearest(
                    set@,
                    block_colors(source, ux, uy),
                    #[trigger] planned(plan@, source.spec_width() / 2, ux, uy),
                )
        },
{
    if source.width() % 2 != 0 || source.height() % 2 != 0 {
        return Err(RenderError::OddDimensions);
    }
    let linear = match strategy {
        Strategy::LinearScan => true,
        Strategy::KdTree => false,
    };
    let index: Option<QuadIndex> = if linear {
        None
    } else {
        Some(QuadIndex::build(set))
    };
    let width: u32 = source.width() / 2;
    let height: u32 = source.height() / 2;
    let ghost across = width as int;
    let mut plan: Vec<usize> = Vec::new();
    let mut uy: u32 = 0;
    while uy < height
        invariant
            uy <= height,
            2 * width == source.spec_width(),
            2 * height == source.spec_height(),
            across == width,
            set@.len() > 0,
            linear <==> strategy == Strategy::LinearScan,
            linear <==> index.is_none(),
            index matches Some(ix) ==> ix.tiles() == set@,
            plan@.len() == uy * across,
            forall|x: int, y: int|
                0 <= x < across && 0 <= y < uy ==> is_nearest(
                    set@,
                    block_colors(source, x, y),
                    #[trigger] planned(plan@, across, x, y),
                ),
            linear ==> forall|x: int, y: int|
                0 <= x < across && 0 <= y < uy ==> is_first_nearest(
                    set@,
                    block_colors(source, x, y),
                    #[trigger] planned(plan@, across, x, y),
                ),
        decreases height - uy,
    {
        let mut ux: u32 = 0;
        while ux < width
            invariant
                ux <= width,
                uy < height,
                2 * width == source.spec_width(),
                2 * height == source.spec_height(),
                across == width,
                set@.len() > 0,
                linear <==> index.is_none(),
                index matches Some(ix) ==> ix.tiles() == set@,
                plan@.len() == uy * across + ux,
                forall|x: int, y: int|
                    0 <= x < across && (0 <= y < uy || (y == uy && x < ux)) ==> is_nearest(
                        set@,
                        block_colors(source, x, y),
                        #[trigger] planned(plan@, across, x, y),
                    ),
                linear ==> forall|x: int, y: int|
                    0 <= x < across && (0 <= y < uy || (y == uy && x < ux)) ==> is_first_nearest(
                        set@,
                        block_colors(source, x, y),
                        #[trigger] planned(plan@, across, x, y),
                    ),
            decreases width - ux,
        {
            let colors = read_block(source, ux, uy);
            let tile: usize = match &index {
                Some(ix) => ix.nearest(&colors),
                None => set.nearest(&colors).0,
            };
            let ghost before = plan@;
            plan.push(tile);
            proof {
                assert forall|x: int, y: int|
                    0 <= x < across && (0 <= y < uy || (y == uy && x < ux + 1)) implies planned(
                    plan@,
                    across,
                    x,
                    y,
                ) == if y == uy && x == ux {
                    tile as int
                } else {
                    planned(before, across, x, y)
                } by {
                    lemma_row_major(x, y, ux as int, uy as int, across);
                }
            }
            ux += 1;
        }
        proof {
            assert((uy + 1) * across == uy * across + across) by (nonlinear_arith);
        }
        uy += 1;
    }
    assert(height * across == (source.spec_width() / 2) * (source.spec_height() / 2))
        by (nonlinear_arith)
        requires
            across == source.spec_width() / 2,
            height == source.spec_height() / 2,
    ;
    Ok(plan)
}

/// The plan that gives each pixel of the source a tile picked at random.
pub fn plan_random<T>(source: &Image, set: &TileSet<T>, rng: &mut TileRng) -> (plan: Vec<usize>)
    requires
        set@.len() > 0,
    ensures
        plan@.len() == source.spec_width() * source.spec_height(),
        forall|k: int| 0 <= k < plan@.len() ==> #[trigger] plan@[k] < set@.len(),
{
    let width: u32 = source.width();
    let height: u32 = source.height();
    let mut plan: Vec<usize> = Vec::new();
    let mut uy: u32 = 0;
    while uy < height
        invariant
            uy <= height,
            set@.len() > 0,
            plan@.len() == uy * width,
            forall|k: int| 0 <= k < plan@.len() ==> #[trigger] plan@[k] < set@.len(),
        decreases height - uy,
    {
        let mut ux: u32 = 0;
        while ux < width
            invariant
                ux <= width,
                set@.len() > 0,
                plan@.len() == uy * width + ux,
                forall|k: int| 0 <= k < plan@.len() ==> #[trigger] plan@[k] < set@.len(),
            decreases width - ux,
        {
            let tile = set.random_index(rng);
            plan.push(tile);
            ux += 1;
        }
        proof {
            assert((uy + 1) * width == uy * width + width) by (nonlinear_arith);
        }
        uy += 1;
    }
    assert(height * width == source.spec_width() * source.spec_height()) by (nonlinear_arith)
        requires
            width == source.spec_width(),
            height == source.spec_height(),
    ;
    plan
}

} // verus!
