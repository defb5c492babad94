//! The compositor: which tile goes where, the cache of resized tile images,
//! and the canvas made of them.

use vstd::prelude::*;
use vstd::hash_map::StringHashMap;
use crate::color::{IntoSerializableRgb, SerializableRgb};
use crate::plan::{block_colors, planned, read_block, unit_color};
use crate::raster::{blank, lemma_place_in_bounds, Image, Pixel};
use crate::tile::{Tile, TileSet};

verus! {

/// How the pixels of the source map to tiles of the output.
#[derive(Debug, Copy, Clone, PartialEq, Eq, Structural)]
pub enum Mode {
    /// One tile for each pixel, the tile nearest to its colour.
    OneToOne,
    /// One tile for each block of two by two pixels, matched by its four
    /// colours.
    FourToOne,
    /// One tile for each pixel, picked at random.
    Random,
}

/// Why a render is refused.
#[derive(Debug, Copy, Clone, PartialEq, Eq, Structural)]
pub enum RenderError {
    /// The tile size is zero.
    InvalidTileSize,
    /// Blocks of two by two pixels need an even width and height.
    OddDimensions,
    /// The canvas would be larger than an image can be.
    CanvasTooLarge,
    /// The plan does not fit the source and the tile set, or the cache lacks
    /// the image of a planned tile or is for another tile size.
    NotReady,
}

/// The number of units in a row and in a column of the source.
pub open spec fn unit_grid(width: u32, height: u32, mode: Mode) -> (int, int) {
    if mode == Mode::FourToOne {
        (width as int / 2, height as int / 2)
    } else {
        (width as int, height as int)
    }
}

/// The reason for which a source of `width` by `height` pixels cannot be
/// rendered with tiles of `tile_size`, if there is one.
pub open spec fn refusal(width: u32, height: u32, tile_size: u32, mode: Mode) -> Option<
    RenderError,
> {
    let (across, down) = unit_grid(width, height, mode);
    if tile_size == 0 {
        Some(RenderError::InvalidTileSize)
    } else if mode == Mode::FourToOne && (width % 2 != 0 || height % 2 != 0) {
        Some(RenderError::OddDimensions)
    } else if across * tile_size > u32::MAX || down * tile_size > u32::MAX || 4 * (across
        * tile_size) * (down * tile_size) > usize::MAX {
        Some(RenderError::CanvasTooLarge)
    } else {
        None
    }
}

/// The size of the canvas: a tile for each unit of the source. One pixel is
/// a unit, or in `FourToOne` a block of two by two, which asks for an even
/// width and height.
pub fn canvas_size(width: u32, height: u32, tile_size: u32, mode: Mode) -> (size: Result<
    (u32, u32),
    RenderError,
>)
    ensures
        match size {
            Ok(dims) => {
                &&& refusal(width, height, tile_size, mode).is_none()
                &&& dims.0 == unit_grid(width, height, mode).0 * tile_size
                &&& dims.1 == unit_grid(width, height, mode).1 * tile_size
                &&& Image::fits(dims.0, dims.1)
            },
            Err(e) => refusal(width, height, tile_size, mode) == Some(e),
        },
{
    if tile_size == 0 {
        return Err(RenderError::InvalidTileSize);
    }
    let four = match mode {
        Mode::FourToOne => true,
        _ => false,
    };
    if four && (width % 2 != 0 || height % 2 != 0) {
        return Err(RenderError::OddDimensions);
    }
    let across: u32 = if four { width / 2 } else { width };
    let down: u32 = if four { height / 2 } else { height };
    assert(across * tile_size <= 0xffff_ffff * 0xffff_ffff) by (nonlinear_arith)
        requires
            across <= 0xffff_ffff,
            tile_size <= 0xffff_ffff,
    ;
    assert(down * tile_size <= 0xffff_ffff * 0xffff_ffff) by (nonlinear_arith)
        requires
            down <= 0xffff_ffff,
            tile_size <= 0xffff_ffff,
    ;
    let wide: u64 = (across as u64) * (tile_size as u64);
    let high: u64 = (down as u64) * (tile_size as u64);
    if wide > u32::MAX as u64 || high > u32::MAX as u64 {
        return Err(RenderError::CanvasTooLarge);
    }
    assert(wide * high <= 0xffff_ffff * 0xffff_ffff) by (nonlinear_arith)
        requires
            wide <= 0xffff_ffff,
            high <= 0xffff_ffff,
    ;
    assert(4 * wide * high == 4 * (wide * high)) by (nonlinear_arith);
    if wide * high > (usize::MAX / 4) as u64 {
        return Err(RenderError::CanvasTooLarge);
    }
    Ok((wide as u32, high as u32))
}

/// What a pixel becomes when another is laid over it.
pub uninterp spec fn blended(bottom: Pixel, top: Pixel) -> Pixel;

/// `Pixel::blend` of the image crate on RGBA pixels: source-over alpha
/// compositing of `top` onto `bottom`. The result depends on the two pixels
/// alone.
#[verifier::external_body]
fn blend(bottom: Pixel, top: Pixel) -> (out: Pixel)
    ensures
        out == blended(bottom, top),
{
    let mut under = image::Rgba([bottom.red, bottom.green, bottom.blue, bottom.alpha]);
    image::Pixel::blend(&mut under, &image::Rgba([top.red, top.green, top.blue, top.alpha]));
    Pixel { red: under.0[0], green: under.0[1], blue: under.0[2], alpha: under.0[3] }
}

/// `imageops::resize` of the image crate with the Lanczos filter, on raw
/// RGBA bytes: the bytes of an image of `size` by `size` pixels. Nothing is
/// claimed of the pixels. The crate fails on an image without pixels and on
/// buffers too large to index, which `requires` leaves out.
#[verifier::external_body]
fn resize_raw(data: Vec<u8>, width: u32, height: u32, size: u32) -> (out: Vec<u8>)
    requires
        width >= 1,
        height >= 1,
        size >= 1,
        data@.len() == 4 * width * height,
        4 * width * size <= usize::MAX,
        4 * size * size <= usize::MAX,
    ensures
        out@.len() == 4 * size * size,
{
    let source = image::RgbaImage::from_raw(width, height, data).unwrap();
    image::imageops::resize(&source, size, size, image::FilterType::Lanczos3).into_raw()
}

/// Whether a decoded image can be resized to tiles of `tile_size`: it has
/// pixels, and the image between the two passes of the resize fits in
/// memory.
pub open spec fn resizable(img: &Image, tile_size: u32) -> bool {
    &&& img.spec_width() >= 1
    &&& img.spec_height() >= 1
    &&& 4 * img.spec_width() * tile_size <= usize::MAX
}

/// A decoded image, resized to a square of `tile_size`; `None` where it
/// cannot be resized.
pub fn resize_tile(img: &Image, tile_size: u32) -> (tile: Option<Image>)
    requires
        tile_size >= 1,
        Image::fits(tile_size, tile_size),
    ensures
        tile.is_some() <==> resizable(img, tile_size),
        tile matches Some(t) ==> t.spec_width() == tile_size && t.spec_height() == tile_size,
{
    if img.width() == 0 || img.height() == 0 {
        return None;
    }
    assert(img.spec_width() * tile_size <= 0xffff_ffff * 0xffff_ffff) by (nonlinear_arith)
        requires
            img.spec_width() <= 0xffff_ffff,
            tile_size <= 0xffff_ffff,
    ;
    assert(4 * img.spec_width() * tile_size == 4 * (img.spec_width() * tile_size))
        by (nonlinear_arith);
    if (img.width() as u64) * (tile_size as u64) > (usize::MAX / 4) as u64 {
        return None;
    }
    let data = img.to_raw();
    proof {
        use_type_invariant(img);
        img.lemma_area();
        assert(4 * img.spec_width() * img.spec_height() == 4 * (img.spec_width()
            * img.spec_height())) by (nonlinear_arith);
    }
    let resized = resize_raw(data, img.width(), img.height(), tile_size);
    Image::from_raw(tile_size, tile_size, &resized)
}

/// Resized tile images by the path of their tile. An image is put in when
/// its tile is first needed and stays until the render is over.
pub struct ResizeCache {
    tile_size: u32,
    images: StringHashMap<Image>,
}

/// What became of an image handed to the cache.
#[derive(Debug, Copy, Clone, PartialEq, Eq, Structural)]
pub enum Stored {
    /// It was resized and put in.
    Fresh,
    /// The path was in the cache already: nothing was resized or changed.
    AlreadyCached,
    /// It cannot be resized: nothing was changed.
    Unusable,
}

impl ResizeCache {
    #[verifier::type_invariant]
    pub closed spec fn well_formed(&self) -> bool {
        &&& self.tile_size >= 1
        &&& Image::fits(self.tile_size, self.tile_size)
        &&& forall|path: Seq<char>| #[trigger]
            self.images@.contains_key(path) ==> self.images@[path].spec_width() == self.tile_size
                && self.images@[path].spec_height() == self.tile_size
    }

    /// The side of the cached images.
    pub closed spec fn spec_tile_size(&self) -> u32 {
        self.tile_size
    }

    /// The cached images by path.
    pub closed spec fn spec_images(&self) -> Map<Seq<char>, Image> {
        self.images@
    }

    /// Every cached image is a square of the tile size.
    pub proof fn lemma_sizes(&self)
        requires
            self.well_formed(),
        ensures
            self.spec_tile_size() >= 1,
            Image::fits(self.spec_tile_size(), self.spec_tile_size()),
            forall|path: Seq<char>| #[trigger]
                self.spec_images().contains_key(path) ==> self.spec_images()[path].spec_width()
                    == self.spec_tile_size() && self.spec_images()[path].spec_height()
                    == self.spec_tile_size(),
    {
    }

    /// An empty cache for tiles of `tile_size`; `None` where the size is
    /// zero or too large for an image.
    pub fn new(tile_size: u32) -> (cache: Option<ResizeCache>)
        ensures
            cache.is_some() <==> tile_size >= 1 && Image::fits(tile_size, tile_size),
            cache matches Some(c) ==> c.spec_tile_size() == tile_size && c.spec_images()
                == Map::<Seq<char>, Image>::empty(),
    {
        if tile_size == 0 {
            return None;
        }
        assert(tile_size * tile_size <= 0xffff_ffff * 0xffff_ffff) by (nonlinear_arith)
            requires
                tile_size <= 0xffff_ffff,
        ;
        assert(4 * tile_size * tile_size == 4 * (tile_size * tile_size)) by (nonlinear_arith);
        if (tile_size as u64) * (tile_size as u64) > (usize::MAX / 4) as u64 {
            return None;
        }
        Some(ResizeCache { tile_size, images: StringHashMap::new() })
    }

    pub fn tile_size(&self) -> (size: u32)
        ensures
            size == self.spec_tile_size(),
    {
        self.tile_size
    }

    /// The number of images in the cache: one for each path that was
    /// resized.
    pub fn len(&self) -> (n: usize)
        ensures
            n == self.spec_images().len(),
    {
        self.images.len()
    }

    pub fn contains(&self, path: &str) -> (cached: bool)
        ensures
            cached == self.spec_images().contains_key(path@),
    {
        self.images.contains_key(path)
    }

    pub fn get(&self, path: &str) -> (found: Option<&Image>)
        ensures
            match found {
                Some(img) => self.spec_images().contains_key(path@) && *img
                    == self.spec_images()[path@],
                None => !self.spec_images().contains_key(path@),
            },
    {
        self.images.get(path)
    }

    /// Takes the decoded image of the tile at `path`: resizes it to the
    /// tile size and keeps it, unless the path is cached already.
    pub fn store(&mut self, path: String, decoded: &Image) -> (stored: Stored)
        ensures
            final(self).spec_tile_size() == old(self).spec_tile_size(),
            stored == Stored::AlreadyCached <==> old(self).spec_images().contains_key(path@),
            stored == Stored::Unusable <==> !old(self).spec_images().contains_key(path@)
                && !resizable(decoded, old(self).spec_tile_size()),
            stored != Stored::Fresh ==> final(self).spec_images() == old(self).spec_images(),
            stored == Stored::Fresh ==> {
                let before = old(self).spec_images();
                let after = final(self).spec_images();
                &&& after.dom() == before.dom().insert(path@)
                &&& after[path@].spec_width() == old(self).spec_tile_size()
                &&& after[path@].spec_height() == old(self).spec_tile_size()
                &&& forall|other: Seq<char>|
                    other != path@ && before.contains_key(other) ==> after[other]
                        == #[trigger] before[other]
            },
    {
        proof {
            use_type_invariant(&*self);
        }
        if self.images.contains_key(path.as_str()) {
            return Stored::AlreadyCached;
        }
        match resize_tile(decoded, self.tile_size) {
            None => Stored::Unusable,
            Some(tile) => {
                let mut images: StringHashMap<Image> = StringHashMap::new();
                std::mem::swap(&mut self.images, &mut images);
                images.insert(path, tile);
                std::mem::swap(&mut self.images, &mut images);
                assert(self.images@.dom() =~= old(self).images@.dom().insert(path@));
                Stored::Fresh
            },
        }
    }
}

/// The tint of one unit: the colour of the source that is laid over its
/// tile.
#[derive(Debug, Copy, Clone)]
pub enum Tint {
    /// No tint.
    Plain,
    /// One colour over the whole tile.
    Flat(SerializableRgb),
    /// One colour over each quarter of the tile, clockwise from the top
    /// left. A quarter is half the tile size wide and high, rounded down: the
    /// last row and column of a tile of odd size are left as they are.
    Quarters([SerializableRgb; 4]),
}

/// The colour that a tint lays over the pixel at `(ox, oy)` of a tile of
/// `size`, if any.
pub open spec fn tint_at(tint: Tint, size: int, ox: int, oy: int) -> Option<SerializableRgb> {
    let half = size / 2;
    match tint {
        Tint::Plain => None,
        Tint::Flat(color) => Some(color),
        Tint::Quarters(colors) => if ox < half && oy < half {
            Some(colors[0])
        } else if half <= ox < 2 * half && oy < half {
            Some(colors[1])
        } else if half <= ox < 2 * half && half <= oy < 2 * half {
            Some(colors[2])
        } else if ox < half && half <= oy < 2 * half {
            Some(colors[3])
        } else {
            None
        },
    }
}

fn tint_for(tint: &Tint, size: u32, ox: u32, oy: u32) -> (color: Option<SerializableRgb>)
    ensures
        color == tint_at(*tint, size as int, ox as int, oy as int),
{
    let half: u32 = size / 2;
    match tint {
        Tint::Plain => None,
        Tint::Flat(color) => Some(*color),
        Tint::Quarters(colors) => if ox < half && oy < half {
            Some(colors[0])
        } else if half <= ox && ox < 2 * half && oy < half {
            Some(colors[1])
        } else if half <= ox && ox < 2 * half && half <= oy && oy < 2 * half {
            Some(colors[2])
        } else if ox < half && half <= oy && oy < 2 * half {
            Some(colors[3])
        } else {
            None
        },
    }
}

/// A canvas pixel once a tile pixel is laid over it and, where there is a
/// tint, the tint's colour at opacity `alpha` over that.
pub open spec fn finished(
    under: Pixel,
    tile: Pixel,
    tint: Option<SerializableRgb>,
    alpha: u8,
) -> Pixel {
    let placed = blended(under, tile);
    match tint {
        Some(color) => blended(
            placed,
            Pixel { red: color.0, green: color.1, blue: color.2, alpha },
        ),
        None => placed,
    }
}

/// Whether `(x, y)` lies in the square of `size` whose top left corner is
/// `(left, top)`.
pub open spec fn in_square(x: int, y: int, left: int, top: int, size: int) -> bool {
    left <= x < left + size && top <= y < top + size
}

/// Lays a tile over the canvas with its top left corner at `(left, top)`,
/// and the tint over the tile.
pub fn stamp(canvas: &mut Image, tile: &Image, left: u32, top: u32, tint: &Tint, alpha: u8)
    requires
        tile.spec_width() == tile.spec_height(),
        left + tile.spec_width() <= old(canvas).spec_width(),
        top + tile.spec_height() <= old(canvas).spec_height(),
    ensures
        final(canvas).spec_width() == old(canvas).spec_width(),
        final(canvas).spec_height() == old(canvas).spec_height(),
        forall|x: int, y: int|
            0 <= x < old(canvas).spec_width() && 0 <= y < old(canvas).spec_height()
                ==> #[trigger] final(canvas).spec_pixel(x, y)
                == if in_square(x, y, left as int, top as int, tile.spec_width()) {
                finished(
                    old(canvas).spec_pixel(x, y),
                    tile.spec_pixel(x - left, y - top),
                    tint_at(*tint, tile.spec_width(), x - left, y - top),
                    alpha,
                )
            } else {
                old(canvas).spec_pixel(x, y)
            },
{
    let size: u32 = tile.width();
    let ghost wide = canvas.spec_width();
    let ghost high = canvas.spec_height();
    let mut oy: u32 = 0;
    while oy < size
        invariant
            oy <= size,
            size == tile.spec_width(),
            size == tile.spec_height(),
            canvas.spec_width() == wide,
            canvas.spec_height() == high,
            wide == old(canvas).spec_width(),
            high == old(canvas).spec_height(),
            left + size <= wide,
            top + size <= high,
            forall|x: int, y: int|
                0 <= x < wide && 0 <= y < high ==> #[trigger] canvas.spec_pixel(x, y)
                    == if in_square(
                    x,
                    y,
                    left as int,
                    top as int,
                    size as int,
                ) && y - top < oy {
                    finished(
                        old(canvas).spec_pixel(x, y),
                        tile.spec_pixel(x - left, y - top),
                        tint_at(*tint, size as int, x - left, y - top),
                        alpha,
                    )
                } else {
                    old(canvas).spec_pixel(x, y)
                },
        decreases size - oy,
    {
        let mut ox: u32 = 0;
        while ox < size
            invariant
                ox <= size,
                oy < size,
                size == tile.spec_width(),
                size == tile.spec_height(),
                canvas.spec_width() == wide,
                canvas.spec_height() == high,
                wide == old(canvas).spec_width(),
                high == old(canvas).spec_height(),
                left + size <= wide,
                top + size <= high,
                forall|x: int, y: int|
                    0 <= x < wide && 0 <= y < high ==> #[trigger] canvas.spec_pixel(x, y)
                        == if in_square(x, y, left as int, top as int, size as int) && (y - top < oy
                        || (y - top == oy && x - left < ox)) {
                        finished(
                            old(canvas).spec_pixel(x, y),
                            tile.spec_pixel(x - left, y - top),
                            tint_at(*tint, size as int, x - left, y - top),
                            alpha,
                        )
                    } else {
                        old(canvas).spec_pixel(x, y)
                    },
            decreases size - ox,
        {
            let under = canvas.get_pixel(left + ox, top + oy);
            let placed = blend(under, tile.get_pixel(ox, oy));
            let pixel = match tint_for(tint, size, ox, oy) {
                Some(color) => blend(
                    placed,
                    Pixel { red: color.0, green: color.1, blue: color.2, alpha },
                ),
                None => placed,
            };
            canvas.put_pixel(left + ox, top + oy, pixel);
            ox += 1;
        }
        oy += 1;
    }
}

/// The tint of the unit `(ux, uy)`: none at opacity zero, else the colour
/// of its pixel or, for a block, the colours of its four pixels.
pub open spec fn unit_tint(source: &Image, mode: Mode, alpha: u8, ux: int, uy: int) -> Tint {
    if alpha == 0 {
        Tint::Plain
    } else if mode == Mode::FourToOne {
        Tint::Quarters(block_colors(source, ux, uy))
    } else {
        Tint::Flat(unit_color(source, ux, uy))
    }
}

/// Whether a render can go ahead: the cache is for this tile size, the
/// plan names a tile of the set for each unit, and the image of each of
/// those tiles is in the cache.
pub open spec fn ready<T>(
    plan: Seq<usize>,
    tiles: Seq<Tile<T>>,
    cache: &ResizeCache,
    tile_size: u32,
    units: int,
) -> bool {
    &&& cache.spec_tile_size() == tile_size
    &&& plan.len() == units
    &&& forall|u: int|
        0 <= u < units ==> (#[trigger] plan[u]) < tiles.len() && cache.spec_images().contains_key(
            tiles[plan[u] as int].path_buf@,
        )
}

fn is_ready<T>(
    plan: &Vec<usize>,
    set: &TileSet<T>,
    cache: &ResizeCache,
    tile_size: u32,
    units: usize,
) -> (ok: bool)
    ensures
        ok == ready(plan@, set@, cache, tile_size, units as int),
{
    if cache.tile_size() != tile_size || plan.len() != units {
        return false;
    }
    let mut u: usize = 0;
    while u < units
        invariant
            u <= units,
            plan@.len() == units,
            cache.spec_tile_size() == tile_size,
            forall|k: int|
                0 <= k < u ==> (#[trigger] plan@[k]) < set@.len()
                    && cache.spec_images().contains_key(set@[plan@[k] as int].path_buf@),
        decreases units - u,
    {
        let tile = plan[u];
        if tile >= set.len() {
            return false;
        }
        if !cache.contains(set.tile(tile).path()) {
            return false;
        }
        u += 1;
    }
    true
}

/// The pixel at `(x, y)` of the finished canvas: the pixel of its unit's
/// tile image over a blank canvas, and the unit's tint over that.
pub open spec fn rendered_pixel<T>(
    source: &Image,
    tiles: Seq<Tile<T>>,
    plan: Seq<usize>,
    images: Map<Seq<char>, Image>,
    mode: Mode,
    tile_size: u32,
    alpha: u8,
    x: int,
    y: int,
) -> Pixel {
    let across = unit_grid(source.spec_width() as u32, source.spec_height() as u32, mode).0;
    let ux = x / (tile_size as int);
    let uy = y / (tile_size as int);
    let tile = images[tiles[planned(plan, across, ux, uy)].path_buf@];
    finished(
        blank(),
        tile.spec_pixel(x % (tile_size as int), y % (tile_size as int)),
        tint_at(
            unit_tint(source, mode, alpha, ux, uy),
            tile_size as int,
            x % (tile_size as int),
            y % (tile_size as int),
        ),
        alpha,
    )
}

/// The reason for which a render is refused, if there is one: that of the
/// canvas first, then a plan or cache that is not ready.
pub open spec fn render_refusal<T>(
    source: &Image,
    tiles: Seq<Tile<T>>,
    tile_size: u32,
    mode: Mode,
    plan: Seq<usize>,
    cache: &ResizeCache,
) -> Option<RenderError> {
    let (width, height) = (source.spec_width() as u32, source.spec_height() as u32);
    let (across, down) = unit_grid(width, height, mode);
    if refusal(width, height, tile_size, mode).is_some() {
        refusal(width, height, tile_size, mode)
    } else if !ready(plan, tiles, cache, tile_size, across * down) {
        Some(RenderError::NotReady)
    } else {
        None
    }
}

/// What a render returns: the refusal where there is one, else the canvas
/// of a tile's size for each unit, with every pixel as `rendered_pixel`
/// says.
pub open spec fn rendering<T>(
    output: Result<Image, RenderError>,
    source: &Image,
    tiles: Seq<Tile<T>>,
    tile_size: u32,
    mode: Mode,
    alpha: u8,
    plan: Seq<usize>,
    cache: &ResizeCache,
) -> bool {
    let grid = unit_grid(source.spec_width() as u32, source.spec_height() as u32, mode);
    match output {
        Ok(canvas) => {
            &&& render_refusal(source, tiles, tile_size, mode, plan, cache).is_none()
            &&& canvas.spec_width() == grid.0 * tile_size
            &&& canvas.spec_height() == grid.1 * tile_size
            &&& forall|x: int, y: int|
                0 <= x < canvas.spec_width() && 0 <= y < canvas.spec_height()
                    ==> #[trigger] canvas.spec_pixel(x, y) == rendered_pixel(
                    source,
                    tiles,
                    plan,
                    cache.spec_images(),
                    mode,
                    tile_size,
                    alpha,
                    x,
                    y,
                )
        },
        Err(e) => render_refusal(source, tiles, tile_size, mode, plan, cache) == Some(e),
    }
}

/// A position falls in unit `u` exactly when it lies in the unit's span,
/// and its offset in the tile is what is left over.
pub proof fn lemma_unit_span(x: int, size: int, u: int)
    requires
        size > 0,
        0 <= x,
        0 <= u,
    ensures
        (u * size <= x < u * size + size) <==> x / size == u,
        x / size == u ==> x % size == x - u * size,
        0 <= x / size,
{
    vstd::arithmetic::div_mod::lemma_fundamental_div_mod(x, size);
    vstd::arithmetic::div_mod::lemma_mod_bound(x, size);
    assert(size * (x / size) == (x / size) * size) by (nonlinear_arith);
    if u * size <= x < u * size + size {
        vstd::arithmetic::div_mod::lemma_fundamental_div_mod_converse(x, size, u, x - u * size);
    }
    assert(0 <= x / size) by (nonlinear_arith)
        requires
            size > 0,
            size * (x / size) + size > 0,
    ;
}

/// Whether the unit of `(x, y)` comes before unit `(ux, uy)` in raster
/// order.
pub open spec fn unit_done(x: int, y: int, size: int, ux: int, uy: int) -> bool {
    y / size < uy || (y / size == uy && x / size < ux)
}

/// The pixel at `(x, y)` of the canvas while it is composed: finished where
/// the unit comes before `(ux, uy)`, blank elsewhere.
pub open spec fn so_far<T>(
    source: &Image,
    tiles: Seq<Tile<T>>,
    plan: Seq<usize>,
    images: Map<Seq<char>, Image>,
    mode: Mode,
    tile_size: u32,
    alpha: u8,
    x: int,
    y: int,
    ux: int,
    uy: int,
) -> Pixel {
    if unit_done(x, y, tile_size as int, ux, uy) {
        rendered_pixel(source, tiles, plan, images, mode, tile_size, alpha, x, y)
    } else {
        blank()
    }
}

/// Composes the mosaic: the tile planned for each unit, in raster order,
/// is laid on a blank canvas at the unit's place, and the unit's tint over
/// it at opacity `tint_alpha`.
pub fn render<T>(
    source_img: &Image,
    tile_set: &TileSet<T>,
    tile_size: u32,
    mode: Mode,
    tint_alpha: u8,
    plan: &Vec<usize>,
    cache: &ResizeCache,
) -> (output: Result<Image, RenderError>)
    ensures
        rendering(output, source_img, tile_set@, tile_size, mode, tint_alpha, plan@, cache),
{
    let width: u32 = source_img.width();
    let height: u32 = source_img.height();
    let dims = match canvas_size(width, height, tile_size, mode) {
        Ok(dims) => dims,
        Err(e) => {
            return Err(e);
        },
    };
    let four = match mode {
        Mode::FourToOne => true,
        _ => false,
    };
    let across: u32 = if four { width / 2 } else { width };
    let down: u32 = if four { height / 2 } else { height };
    proof {
        assert(across * down <= 4 * (across * tile_size) * (down * tile_size))
            by (nonlinear_arith)
            requires
                tile_size >= 1,
                across >= 0,
                down >= 0,
        ;
    }
    let units: usize = (across as usize) * (down as usize);
    if !is_ready(plan, tile_set, cache, tile_size, units) {
        return Err(RenderError::NotReady);
    }
    let mut canvas = match Image::new(dims.0, dims.1) {
        Some(canvas) => canvas,
        None => {
            return Err(RenderError::CanvasTooLarge);
        },
    };
    let ghost size = tile_size as int;
    let ghost tiles = tile_set@;
    let ghost images = cache.spec_images();
    proof {
        use_type_invariant(cache);
        cache.lemma_sizes();
    }
    let mut uy: u32 = 0;
    while uy < down
        invariant
            uy <= down,
            size == tile_size,
            size >= 1,
            tiles == tile_set@,
            images == cache.spec_images(),
            width == source_img.spec_width(),
            height == source_img.spec_height(),
            four <==> mode == Mode::FourToOne,
            four ==> 2 * across == width && 2 * down == height,
            !four ==> across == width && down == height,
            across == unit_grid(width, height, mode).0,
            canvas.spec_width() == across * size,
            canvas.spec_height() == down * size,
            canvas.spec_width() <= u32::MAX,
            canvas.spec_height() <= u32::MAX,
            units == across * down,
            ready(plan@, tiles, cache, tile_size, units as int),
            forall|path: Seq<char>| #[trigger]
                images.contains_key(path) ==> images[path].spec_width() == size
                    && images[path].spec_height() == size,
            forall|x: int, y: int|
                0 <= x < across * size && 0 <= y < down * size ==> #[trigger] canvas.spec_pixel(
                    x,
                    y,
                ) == so_far(
                    source_img,
                    tiles,
                    plan@,
                    images,
                    mode,
                    tile_size,
                    tint_alpha,
                    x,
                    y,
                    0,
                    uy as int,
                ),
        decreases down - uy,
    {
        let mut ux: u32 = 0;
        while ux < across
            invariant
                ux <= across,
                uy < down,
                size == tile_size,
                size >= 1,
                tiles == tile_set@,
                images == cache.spec_images(),
                width == source_img.spec_width(),
                height == source_img.spec_height(),
                four <==> mode == Mode::FourToOne,
                four ==> 2 * across == width && 2 * down == height,
                !four ==> across == width && down == height,
                across == unit_grid(width, height, mode).0,
                canvas.spec_width() == across * size,
                canvas.spec_height() == down * size,
                canvas.spec_width() <= u32::MAX,
                canvas.spec_height() <= u32::MAX,
                units == across * down,
                ready(plan@, tiles, cache, tile_size, units as int),
                forall|path: Seq<char>| #[trigger]
                    images.contains_key(path) ==> images[path].spec_width() == size
                        && images[path].spec_height() == size,
                forall|x: int, y: int|
                    0 <= x < across * size && 0 <= y < down * size ==> #[trigger] canvas.spec_pixel(
                        x,
                        y,
                    ) == so_far(
                        source_img,
                        tiles,
                        plan@,
                        images,
                        mode,
                        tile_size,
                        tint_alpha,
                        x,
                        y,
                        ux as int,
                        uy as int,
                    ),
            decreases across - ux,
        {
            proof {
                lemma_place_in_bounds(ux as int, uy as int, across as int, down as int);
                assert(0 <= uy * across) by (nonlinear_arith)
                    requires
                        0 <= uy,
                        0 <= across,
                ;
                assert(ux * size + size <= across * size) by (nonlinear_arith)
                    requires
                        ux + 1 <= across,
                        size >= 0,
                ;
                assert(uy * size + size <= down * size) by (nonlinear_arith)
                    requires
                        uy + 1 <= down,
                        size >= 0,
                ;
                assert(0 <= ux * size && 0 <= uy * size) by (nonlinear_arith)
                    requires
                        0 <= ux,
                        0 <= uy,
                        0 <= size,
                ;
            }
            let unit: usize = (uy as usize) * (across as usize) + (ux as usize);
            let chosen: usize = plan[unit];
            let tile_img = match cache.get(tile_set.tile(chosen).path()) {
                Some(img) => img,
                None => {
                    return Err(RenderError::NotReady);
                },
            };
            let tint = if tint_alpha == 0 {
                Tint::Plain
            } else if four {
                Tint::Quarters(read_block(source_img, ux, uy))
            } else {
                Tint::Flat(source_img.get_pixel(ux, uy).into_serializable_rgb())
            };
            assert(tint == unit_tint(source_img, mode, tint_alpha, ux as int, uy as int));
            let left: u32 = ux * tile_size;
            let top: u32 = uy * tile_size;
            let ghost before = canvas;
            stamp(&mut canvas, tile_img, left, top, &tint, tint_alpha);
            proof {
                assert forall|x: int, y: int|
                    0 <= x < across * size && 0 <= y < down * size implies
                    #[trigger] canvas.spec_pixel(x, y) == so_far(
                        source_img,
                        tiles,
                        plan@,
                        images,
                        mode,
                        tile_size,
                        tint_alpha,
                        x,
                        y,
                        ux + 1,
                        uy as int,
                    ) by {
                    lemma_unit_span(x, size, ux as int);
                    lemma_unit_span(y, size, uy as int);
                    assert(before.spec_pixel(x, y) == so_far(
                        source_img,
                        tiles,
                        plan@,
                        images,
                        mode,
                        tile_size,
                        tint_alpha,
                        x,
                        y,
                        ux as int,
                        uy as int,
                    ));
                    if in_square(x, y, left as int, top as int, size) {
                        assert(planned(plan@, across as int, ux as int, uy as int) == chosen);
                    }
                }
            }
            ux += 1;
        }
        proof {
            assert forall|x: int, y: int|
                0 <= x < across * size && 0 <= y < down * size implies (unit_done(
                x,
                y,
                size,
                across as int,
                uy as int,
            ) <==> unit_done(x, y, size, 0, uy + 1)) by {
                lemma_unit_span(x, size, 0);
                vstd::arithmetic::div_mod::lemma_div_is_ordered(x, across * size - 1, size);
                lemma_unit_span(across * size - 1, size, across - 1);
                assert((across - 1) * size + size == across * size) by (nonlinear_arith);
            }
        }
        uy += 1;
    }
    proof {
        assert forall|x: int, y: int|
            0 <= x < across * size && 0 <= y < down * size implies unit_done(
            x,
            y,
            size,
            0,
            down as int,
        ) by {
            assert(down >= 1) by (nonlinear_arith)
                requires
                    0 < down * size,
                    size >= 1,
                    down >= 0,
            ;
            vstd::arithmetic::div_mod::lemma_div_is_ordered(y, down * size - 1, size);
            lemma_unit_span(down * size - 1, size, down - 1);
            assert((down - 1) * size + size == down * size) by (nonlinear_arith);
        }
    }
    Ok(canvas)
}

/// Renders a plan made pixel by pixel: a tile for each pixel of the source.
pub fn render_1to1(
    source_img: &Image,
    tile_set: &TileSet<SerializableRgb>,
    tile_size: u32,
    tint_alpha: u8,
    plan: &Vec<usize>,
    cache: &ResizeCache,
) -> (output: Result<Image, RenderError>)
    ensures
        rendering(
            output,
            source_img,
            tile_set@,
            tile_size,
            Mode::OneToOne,
            tint_alpha,
            plan@,
            cache,
        ),
{
    render(source_img, tile_set, tile_size, Mode::OneToOne, tint_alpha, plan, cache)
}

/// Renders a plan made block by block: a tile for each block of two by two
/// pixels of the source, which must have an even width and height.
pub fn render_4to1(
    source_img: &Image,
    tile_set: &TileSet<[SerializableRgb; 4]>,
    tile_size: u32,
    tint_alpha: u8,
    plan: &Vec<usize>,
    cache: &ResizeCache,
) -> (output: Result<Image, RenderError>)
    ensures
        rendering(
            output,
            source_img,
            tile_set@,
            tile_size,
            Mode::FourToOne,
            tint_alpha,
            plan@,
            cache,
        ),
{
    render(source_img, tile_set, tile_size, Mode::FourToOne, tint_alpha, plan, cache)
}

/// Renders a plan of tiles picked at random: a tile for each pixel of the
/// source.
pub fn render_random(
    source_img: &Image,
    tile_set: &TileSet<()>,
    tile_size: u32,
    tint_alpha: u8,
    plan: &Vec<usize>,
    cache: &ResizeCache,
) -> (output: Result<Image, RenderError>)
    ensures
        rendering(output, source_img, tile_set@, tile_size, Mode::Random, tint_alpha, plan@, cache),
{
    render(source_img, tile_set, tile_size, Mode::Random, tint_alpha, plan, cache)
}

/// The path of tile `i`.
pub open spec fn path_of<T>(tiles: Seq<Tile<T>>, i: usize) -> Seq<char> {
    tiles[i as int].path_buf@
}

/// Whether `wanted` lists what a plan still needs: tiles of the set whose
/// paths are not cached, no path twice, and among them the path of every
/// planned tile that the cache lacks.
pub open spec fn lists_missing<T>(
    wanted: Seq<usize>,
    plan: Seq<usize>,
    tiles: Seq<Tile<T>>,
    cached: Set<Seq<char>>,
) -> bool {
    &&& forall|k: int|
        0 <= k < wanted.len() ==> (#[trigger] wanted[k]) < tiles.len() && !cached.contains(
            path_of(tiles, wanted[k]),
        )
    &&& forall|j: int, k: int|
        0 <= j < k < wanted.len() ==> path_of(tiles, #[trigger] wanted[j]) != path_of(
            tiles,
            #[trigger] wanted[k],
        )
    &&& forall|u: int|
        0 <= u < plan.len() && (#[trigger] plan[u]) < tiles.len() ==> cached.contains(
            path_of(tiles, plan[u]),
        ) || exists|k: int|
            0 <= k < wanted.len() && path_of(tiles, #[trigger] wanted[k]) == path_of(
                tiles,
                plan[u],
            )
}

/// Whether one of the listed tiles has the path.
pub open spec fn lists_path<T>(wanted: Seq<usize>, tiles: Seq<Tile<T>>, path: Seq<char>) -> bool {
    exists|k: int| 0 <= k < wanted.len() && path_of(tiles, #[trigger] wanted[k]) == path
}

/// The tiles that a plan needs and the cache lacks, each path once, in the
/// order in which the plan first names them.
pub open spec fn first_needs<T>(
    plan: Seq<usize>,
    tiles: Seq<Tile<T>>,
    cached: Set<Seq<char>>,
) -> Seq<usize>
    decreases plan.len(),
{
    if plan.len() == 0 {
        Seq::empty()
    } else {
        let earlier = first_needs(plan.drop_last(), tiles, cached);
        let tile = plan.last();
        if tile < tiles.len() && !cached.contains(path_of(tiles, tile)) && !lists_path(
            earlier,
            tiles,
            path_of(tiles, tile),
        ) {
            earlier.push(tile)
        } else {
            earlier
        }
    }
}

/// The tiles whose images a plan needs and the cache lacks, in the order
/// in which the plan first needs them. Tiles that share a path are listed
/// once, so that each path is decoded and resized once.
pub fn missing_tiles<T>(plan: &Vec<usize>, tile_set: &TileSet<T>, cache: &ResizeCache) -> (wanted:
    Vec<usize>)
    ensures
        wanted@ == first_needs(plan@, tile_set@, cache.spec_images().dom()),
        lists_missing(wanted@, plan@, tile_set@, cache.spec_images().dom()),
        forall|k: int| 0 <= k < wanted@.len() ==> plan@.contains(#[trigger] wanted@[k]),
{
    let ghost tiles = tile_set@;
    let ghost cached = cache.spec_images().dom();
    let mut wanted: Vec<usize> = Vec::new();
    let mut seen: StringHashMap<bool> = StringHashMap::new();
    let mut u: usize = 0;
    while u < plan.len()
        invariant
            u <= plan@.len(),
            tiles == tile_set@,
            cached == cache.spec_images().dom(),
            forall|p: Seq<char>|
                seen@.contains_key(p) <==> exists|k: int|
                    0 <= k < wanted@.len() && path_of(tiles, #[trigger] wanted@[k]) == p,
            lists_missing(wanted@, plan@.take(u as int), tiles, cached),
            wanted@ == first_needs(plan@.take(u as int), tiles, cached),
            forall|k: int|
                0 <= k < wanted@.len() ==> plan@.take(u as int).contains(#[trigger] wanted@[k]),
        decreases plan@.len() - u,
    {
        let chosen: usize = plan[u];
        proof {
            assert(plan@.take(u + 1).drop_last() =~= plan@.take(u as int));
            assert(plan@.take(u + 1).last() == chosen);
            assert(seen@.contains_key(path_of(tiles, chosen)) <==> lists_path(
                wanted@,
                tiles,
                path_of(tiles, chosen),
            ));
        }
        let ghost before = wanted@;
        let ghost seen_before = seen@;
        if chosen < tile_set.len() {
            let tile = tile_set.tile(chosen);
            if !cache.contains(tile.path()) && !seen.contains_key(tile.path()) {
                seen.insert(tile.path_buf.clone(), true);
                wanted.push(chosen);
                proof {
                    let last = before.len() as int;
                    assert(wanted@[last] == chosen);
                    assert forall|p: Seq<char>|
                        seen@.contains_key(p) <==> exists|k: int|
                            0 <= k < wanted@.len() && path_of(tiles, #[trigger] wanted@[k])
                                == p by {
                        if seen@.contains_key(p) {
                            if p == path_of(tiles, chosen) {
                                assert(path_of(tiles, wanted@[last]) == p);
                            } else {
                                assert(seen_before.contains_key(p));
                                let k = choose|k: int|
                                    0 <= k < before.len() && path_of(tiles, #[trigger] before[k])
                                        == p;
                                assert(wanted@[k] == before[k]);
                            }
                        }
                        if exists|k: int|
                            0 <= k < wanted@.len() && path_of(tiles, #[trigger] wanted@[k]) == p {
                            let k = choose|k: int|
                                0 <= k < wanted@.len() && path_of(tiles, #[trigger] wanted@[k])
                                    == p;
                            if k < last {
                                assert(before[k] == wanted@[k]);
                            }
                        }
                    }
                    assert forall|j: int, k: int| 0 <= j < k < wanted@.len() implies path_of(
                        tiles,
                        #[trigger] wanted@[j],
                    ) != path_of(tiles, #[trigger] wanted@[k]) by {
                        assert(before[j] == wanted@[j]);
                        if k < last {
                            assert(before[k] == wanted@[k]);
                        }
                    }
                    assert(plan@.take(u + 1)[u as int] == chosen);
                }
            }
        }
        proof {
            let grown = plan@.take(u + 1);
            assert forall|k: int| 0 <= k < wanted@.len() implies grown.contains(
                #[trigger] wanted@[k],
            ) by {
                if k < before.len() {
                    assert(before[k] == wanted@[k]);
                    let v = choose|v: int|
                        0 <= v < plan@.take(u as int).len() && plan@.take(u as int)[v]
                            == before[k];
                    assert(grown[v] == wanted@[k]);
                } else {
                    assert(grown[u as int] == wanted@[k]);
                }
            }
            assert forall|v: int|
                0 <= v < grown.len() && (#[trigger] grown[v]) < tiles.len() implies cached.contains(
                path_of(tiles, grown[v]),
            ) || exists|k: int|
                0 <= k < wanted@.len() && path_of(tiles, #[trigger] wanted@[k]) == path_of(
                    tiles,
                    grown[v],
                ) by {
                let p = path_of(tiles, grown[v]);
                if v < u {
                    assert(plan@.take(u as int)[v] == grown[v]);
                    if !cached.contains(p) {
                        let k = choose|k: int|
                            0 <= k < before.len() && path_of(tiles, #[trigger] before[k]) == p;
                        assert(wanted@[k] == before[k]);
                    }
                } else {
                    if !cached.contains(p) {
                        assert(seen@.contains_key(p));
                    }
                }
            }
            assert forall|k: int| 0 <= k < wanted@.len() implies (#[trigger] wanted@[k])
                < tiles.len() && !cached.contains(path_of(tiles, wanted@[k])) by {
                if k < before.len() {
                    assert(before[k] == wanted@[k]);
                }
            }
            assert forall|j: int, k: int| 0 <= j < k < wanted@.len() implies path_of(
                tiles,
                #[trigger] wanted@[j],
            ) != path_of(tiles, #[trigger] wanted@[k]) by {
                if wanted@.len() == before.len() {
                    assert(wanted@ =~= before);
                }
            }
        }
        u += 1;
    }
    assert(plan@.take(u as int) =~= plan@);
    wanted
}

/// Once the images of the listed tiles are in the cache, a plan that names
/// a tile of the set for each unit is ready to render.
pub proof fn lemma_filled_cache_is_ready<T>(
    plan: Seq<usize>,
    tiles: Seq<Tile<T>>,
    wanted: Seq<usize>,
    before: &ResizeCache,
    after: &ResizeCache,
)
    requires
        forall|u: int| 0 <= u < plan.len() ==> (#[trigger] plan[u]) < tiles.len(),
        lists_missing(wanted, plan, tiles, before.spec_images().dom()),
        forall|p: Seq<char>| #[trigger]
            before.spec_images().contains_key(p) ==> after.spec_images().contains_key(p),
        forall|k: int|
            0 <= k < wanted.len() ==> after.spec_images().contains_key(
                path_of(tiles, #[trigger] wanted[k]),
            ),
    ensures
        ready(plan, tiles, after, after.spec_tile_size(), plan.len() as int),
{
    assert forall|u: int| 0 <= u < plan.len() implies (#[trigger] plan[u]) < tiles.len()
        && after.spec_images().contains_key(tiles[plan[u] as int].path_buf@) by {
        let p = path_of(tiles, plan[u]);
        if !before.spec_images().dom().contains(p) {
            let k = choose|k: int|
                0 <= k < wanted.len() && path_of(tiles, #[trigger] wanted[k]) == p;
            assert(after.spec_images().contains_key(path_of(tiles, wanted[k])));
        }
    }
}

/// The paths of the listed tiles.
pub open spec fn paths_of<T>(wanted: Seq<usize>, tiles: Seq<Tile<T>>) -> Set<Seq<char>> {
    Set::new(|path: Seq<char>| lists_path(wanted, tiles, path))
}

/// A cache that takes in the images of the listed tiles grows by one image
/// for each of them: no path is resized twice, and none that was cached.
pub proof fn lemma_one_resize_for_each_path<T>(
    wanted: Seq<usize>,
    plan: Seq<usize>,
    tiles: Seq<Tile<T>>,
    cached: Set<Seq<char>>,
)
    requires
        cached.finite(),
        lists_missing(wanted, plan, tiles, cached),
    ensures
        cached.union(paths_of(wanted, tiles)).finite(),
        cached.union(paths_of(wanted, tiles)).len() == cached.len() + wanted.len(),
    decreases wanted.len(),
{
    if wanted.len() == 0 {
        assert(cached.union(paths_of(wanted, tiles)) =~= cached);
    } else {
        let front = wanted.drop_last();
        let path = path_of(tiles, wanted.last());
        assert forall|k: int| 0 <= k < front.len() implies (#[trigger] front[k]) < tiles.len()
            && !cached.contains(path_of(tiles, front[k])) by {
            assert(front[k] == wanted[k]);
        }
        assert forall|j: int, k: int| 0 <= j < k < front.len() implies path_of(
            tiles,
            #[trigger] front[j],
        ) != path_of(tiles, #[trigger] front[k]) by {
            assert(front[j] == wanted[j] && front[k] == wanted[k]);
        }
        lemma_one_resize_for_each_path(front, Seq::<usize>::empty(), tiles, cached);
        let smaller = cached.union(paths_of(front, tiles));
        assert(!smaller.contains(path)) by {
            if lists_path(front, tiles, path) {
                let k = choose|k: int|
                    0 <= k < front.len() && path_of(tiles, #[trigger] front[k]) == path;
                assert(front[k] == wanted[k]);
                assert(path_of(tiles, wanted[k]) != path_of(tiles, wanted[wanted.len() - 1]));
            }
            assert(wanted[wanted.len() - 1] == wanted.last());
        }
        assert(cached.union(paths_of(wanted, tiles)) =~= smaller.insert(path)) by {
            assert forall|p: Seq<char>| lists_path(wanted, tiles, p) <==> (lists_path(
                front,
                tiles,
                p,
            ) || p == path) by {
                if lists_path(wanted, tiles, p) {
                    let k = choose|k: int|
                        0 <= k < wanted.len() && path_of(tiles, #[trigger] wanted[k]) == p;
                    if k < front.len() {
                        assert(front[k] == wanted[k]);
                    }
                }
                if lists_path(front, tiles, p) {
                    let k = choose|k: int|
                        0 <= k < front.len() && path_of(tiles, #[trigger] front[k]) == p;
                    assert(wanted[k] == front[k]);
                }
                if p == path {
                    assert(path_of(tiles, wanted[wanted.len() - 1]) == p);
                }
            }
        }
    }
}

} // verus!
