use emosaic::analyse::{analyse_1to1, analyse_4to1};
use emosaic::color::SerializableRgb;
use emosaic::plan::{plan_1to1, plan_4to1, plan_random, Strategy};
use emosaic::raster::{Image, Pixel};
use emosaic::render::{
    canvas_size, missing_tiles, render, render_1to1, render_4to1, render_random, resize_tile,
    stamp, Mode, RenderError, ResizeCache, Stored, Tint,
};
use emosaic::tile::{Tile, TileRng, TileSet};

fn image_of(width: u32, height: u32, pixels: &[(u8, u8, u8)]) -> Image {
    let mut data = Vec::new();
    for p in pixels {
        data.extend_from_slice(&[p.0, p.1, p.2, 255]);
    }
    Image::from_raw(width, height, &data).unwrap()
}

fn pixels_of(img: &Image) -> Vec<(u8, u8, u8, u8)> {
    let mut out = Vec::new();
    for y in 0..img.height() {
        for x in 0..img.width() {
            let p = img.get_pixel(x, y);
            out.push((p.red, p.green, p.blue, p.alpha));
        }
    }
    out
}

fn blend_of(bottom: (u8, u8, u8, u8), top: (u8, u8, u8, u8)) -> (u8, u8, u8, u8) {
    let mut under = image::Rgba([bottom.0, bottom.1, bottom.2, bottom.3]);
    image::Pixel::blend(&mut under, &image::Rgba([top.0, top.1, top.2, top.3]));
    (under.0[0], under.0[1], under.0[2], under.0[3])
}

/// Fills the cache with what the plan needs, and counts the decodes.
fn fill<T>(
    cache: &mut ResizeCache,
    plan: &Vec<usize>,
    set: &TileSet<T>,
    corpus: &[(String, Image)],
) -> usize {
    let mut decodes = 0;
    for i in missing_tiles(plan, set, cache) {
        let path = set.tile(i).path();
        let decoded = &corpus.iter().find(|entry| entry.0 == path).unwrap().1;
        decodes += 1;
        assert_eq!(cache.store(path.to_string(), decoded), Stored::Fresh);
    }
    decodes
}

fn four_colour_corpus() -> Vec<(String, Image)> {
    vec![
        (String::from("yellow"), image_of(1, 1, &[(255, 255, 0)])),
        (String::from("blue"), image_of(1, 1, &[(0, 0, 255)])),
        (String::from("red"), image_of(1, 1, &[(255, 0, 0)])),
        (String::from("green"), image_of(1, 1, &[(0, 255, 0)])),
    ]
}

#[test]
fn canvas_is_a_tile_for_each_unit() {
    assert_eq!(canvas_size(3, 2, 16, Mode::OneToOne), Ok((48, 32)));
    assert_eq!(canvas_size(3, 2, 16, Mode::Random), Ok((48, 32)));
    assert_eq!(canvas_size(4, 2, 16, Mode::FourToOne), Ok((32, 16)));
    assert_eq!(canvas_size(4, 2, 15, Mode::FourToOne), Ok((30, 15)));
    assert_eq!(canvas_size(0, 0, 16, Mode::OneToOne), Ok((0, 0)));
    assert_eq!(canvas_size(7, 5, 1, Mode::OneToOne), Ok((7, 5)));
}

#[test]
fn canvas_is_refused_for_odd_blocks() {
    assert_eq!(canvas_size(3, 2, 16, Mode::FourToOne), Err(RenderError::OddDimensions));
    assert_eq!(canvas_size(2, 3, 16, Mode::FourToOne), Err(RenderError::OddDimensions));
    assert_eq!(canvas_size(3, 3, 16, Mode::OneToOne), Ok((48, 48)));
}

#[test]
fn canvas_is_refused_for_bad_sizes() {
    assert_eq!(canvas_size(3, 2, 0, Mode::OneToOne), Err(RenderError::InvalidTileSize));
    assert_eq!(canvas_size(3, 3, 0, Mode::FourToOne), Err(RenderError::InvalidTileSize));
    assert_eq!(
        canvas_size(70_000, 2, 70_000, Mode::OneToOne),
        Err(RenderError::CanvasTooLarge)
    );
    assert_eq!(
        canvas_size(2, 70_000, 70_000, Mode::OneToOne),
        Err(RenderError::CanvasTooLarge)
    );
    // Each side fits, the buffer does not.
    assert_eq!(
        canvas_size(65_536, 65_536, 65_535, Mode::OneToOne),
        Err(RenderError::CanvasTooLarge)
    );
}

#[test]
fn end_to_end_each_pixel_gets_its_own_tile() {
    let source = image_of(2, 2, &[(255, 0, 0), (0, 255, 0), (0, 0, 255), (255, 255, 0)]);
    for strategy in [Strategy::LinearScan, Strategy::KdTree] {
        let corpus = four_colour_corpus();
        let set = analyse_1to1(corpus.clone());
        assert_eq!(set.len(), 4);
        let plan = plan_1to1(&source, &set, strategy);
        assert_eq!(plan, vec![2, 3, 1, 0]);
        let mut cache = ResizeCache::new(1).unwrap();
        assert_eq!(fill(&mut cache, &plan, &set, &corpus), 4);
        let out = render_1to1(&source, &set, 1, 0, &plan, &cache).unwrap();
        assert_eq!((out.width(), out.height()), (2, 2));
        assert_eq!(
            pixels_of(&out),
            vec![(255, 0, 0, 255), (0, 255, 0, 255), (0, 0, 255, 255), (255, 255, 0, 255)]
        );
    }
}

#[test]
fn tiles_are_laid_out_in_raster_order() {
    let source = image_of(3, 2, &[
        (250, 0, 0),
        (0, 250, 0),
        (0, 0, 250),
        (0, 0, 250),
        (250, 250, 0),
        (250, 0, 0),
    ]);
    let corpus = four_colour_corpus();
    let set = analyse_1to1(corpus.clone());
    let plan = plan_1to1(&source, &set, Strategy::KdTree);
    assert_eq!(plan, vec![2, 3, 1, 1, 0, 2]);
    let mut cache = ResizeCache::new(2).unwrap();
    assert_eq!(fill(&mut cache, &plan, &set, &corpus), 4);
    let out = render_1to1(&source, &set, 2, 0, &plan, &cache).unwrap();
    assert_eq!((out.width(), out.height()), (6, 4));
    for y in 0..4 {
        for x in 0..6 {
            let tile = cache.get(set.tile(plan[((y / 2) * 3 + x / 2) as usize]).path()).unwrap();
            assert_eq!(out.get_pixel(x, y), tile.get_pixel(x % 2, y % 2));
        }
    }
    assert_eq!(out.get_pixel(0, 0), cache.get("red").unwrap().get_pixel(0, 0));
    assert_eq!(out.get_pixel(5, 0), cache.get("blue").unwrap().get_pixel(1, 0));
    assert_eq!(out.get_pixel(2, 3), cache.get("yellow").unwrap().get_pixel(0, 1));
}

#[test]
fn one_decode_for_each_path() {
    let source = image_of(2, 2, &[(250, 0, 0); 4]);
    let corpus = four_colour_corpus();
    let set = analyse_1to1(corpus.clone());
    let plan = plan_1to1(&source, &set, Strategy::LinearScan);
    assert_eq!(plan, vec![2, 2, 2, 2]);
    let mut cache = ResizeCache::new(1).unwrap();
    assert_eq!(missing_tiles(&plan, &set, &cache), vec![2]);
    assert_eq!(fill(&mut cache, &plan, &set, &corpus), 1);
    assert_eq!(cache.len(), 1);
    assert!(cache.contains("red"));
    assert_eq!(missing_tiles(&plan, &set, &cache), Vec::<usize>::new());
    assert_eq!(fill(&mut cache, &plan, &set, &corpus), 0);
    assert!(render_1to1(&source, &set, 1, 0, &plan, &cache).is_ok());
}

#[test]
fn tiles_that_share_a_path_are_decoded_once() {
    let mut set: TileSet<()> = TileSet::new();
    set.push(Tile::new(String::from("same"), ()));
    set.push(Tile::new(String::from("other"), ()));
    set.push(Tile::new(String::from("same"), ()));
    let cache = ResizeCache::new(1).unwrap();
    assert_eq!(missing_tiles(&vec![2, 0, 1, 2, 1, 7], &set, &cache), vec![2, 1]);
}

#[test]
fn the_cache_resizes_a_path_once() {
    let mut cache = ResizeCache::new(1).unwrap();
    assert_eq!(cache.tile_size(), 1);
    assert_eq!(cache.len(), 0);
    assert!(cache.get("a").is_none());
    let first = image_of(1, 1, &[(10, 20, 30)]);
    let second = image_of(1, 1, &[(200, 200, 200)]);
    assert_eq!(cache.store(String::from("a"), &first), Stored::Fresh);
    assert_eq!(cache.store(String::from("a"), &second), Stored::AlreadyCached);
    assert_eq!(cache.len(), 1);
    assert_eq!(cache.get("a").unwrap().get_pixel(0, 0), Pixel::new(10, 20, 30, 255));
    assert_eq!(cache.store(String::from("b"), &Image::new(0, 3).unwrap()), Stored::Unusable);
    assert_eq!(cache.store(String::from("a"), &Image::new(0, 3).unwrap()), Stored::AlreadyCached);
    assert!(!cache.contains("b"));
    assert_eq!(cache.len(), 1);
}

#[test]
fn a_cache_needs_a_tile_size() {
    assert!(ResizeCache::new(0).is_none());
    assert!(ResizeCache::new(16).is_some());
}

#[test]
fn tiles_are_resized_as_the_image_crate_does() {
    let mut data = Vec::new();
    for i in 0..(5 * 3 * 4) {
        data.push((i * 37 % 256) as u8);
    }
    let decoded = Image::from_raw(5, 3, &data).unwrap();
    let tile = resize_tile(&decoded, 4).unwrap();
    assert_eq!((tile.width(), tile.height()), (4, 4));
    let outside = image::RgbaImage::from_raw(5, 3, data).unwrap();
    let expected = image::imageops::resize(&outside, 4, 4, image::FilterType::Lanczos3);
    assert_eq!(tile.to_raw(), expected.into_raw());
    assert!(resize_tile(&Image::new(0, 0).unwrap(), 4).is_none());
}

#[test]
fn render_is_refused_until_the_cache_is_filled() {
    let source = image_of(2, 1, &[(255, 0, 0), (0, 255, 0)]);
    let corpus = four_colour_corpus();
    let set = analyse_1to1(corpus.clone());
    let plan = plan_1to1(&source, &set, Strategy::KdTree);
    let mut cache = ResizeCache::new(1).unwrap();
    assert_eq!(
        render_1to1(&source, &set, 1, 0, &plan, &cache).err(),
        Some(RenderError::NotReady)
    );
    fill(&mut cache, &plan, &set, &corpus);
    assert!(render_1to1(&source, &set, 1, 0, &plan, &cache).is_ok());
    // A plan of the wrong length, a tile that the set lacks, another tile
    // size.
    assert_eq!(
        render_1to1(&source, &set, 1, 0, &vec![2], &cache).err(),
        Some(RenderError::NotReady)
    );
    assert_eq!(
        render_1to1(&source, &set, 1, 0, &vec![2, 9], &cache).err(),
        Some(RenderError::NotReady)
    );
    assert_eq!(
        render_1to1(&source, &set, 2, 0, &plan, &cache).err(),
        Some(RenderError::NotReady)
    );
    assert_eq!(
        render_1to1(&source, &set, 0, 0, &plan, &cache).err(),
        Some(RenderError::InvalidTileSize)
    );
}

#[test]
fn blocks_of_odd_sources_are_rejected() {
    let corpus = vec![(String::from("grey"), image_of(2, 2, &[(9, 9, 9); 4]))];
    let set = analyse_4to1(corpus.clone());
    assert_eq!(set.len(), 1);
    let cache = ResizeCache::new(2).unwrap();
    for (width, height) in [(3, 2), (2, 3), (1, 1)] {
        let source = Image::filled(width, height, Pixel::new(1, 2, 3, 255)).unwrap();
        assert_eq!(
            plan_4to1(&source, &set, Strategy::LinearScan),
            Err(RenderError::OddDimensions)
        );
        assert_eq!(
            render_4to1(&source, &set, 2, 0, &Vec::new(), &cache).err(),
            Some(RenderError::OddDimensions)
        );
    }
}

#[test]
fn blocks_are_matched_by_their_four_colours() {
    let source = image_of(4, 2, &[
        (10, 0, 0),
        (20, 0, 0),
        (0, 10, 0),
        (0, 20, 0),
        (40, 0, 0),
        (30, 0, 0),
        (0, 40, 0),
        (0, 30, 0),
    ]);
    let corpus = vec![
        (
            String::from("greens"),
            image_of(2, 2, &[(0, 10, 0), (0, 20, 0), (0, 40, 0), (0, 30, 0)]),
        ),
        (
            String::from("reds"),
            image_of(2, 2, &[(10, 0, 0), (20, 0, 0), (40, 0, 0), (30, 0, 0)]),
        ),
        (
            String::from("turned"),
            image_of(2, 2, &[(20, 0, 0), (10, 0, 0), (30, 0, 0), (40, 0, 0)]),
        ),
    ];
    let set = analyse_4to1(corpus.clone());
    for strategy in [Strategy::LinearScan, Strategy::KdTree] {
        assert_eq!(plan_4to1(&source, &set, strategy), Ok(vec![1, 0]));
    }
    let plan = vec![1, 0];
    let mut cache = ResizeCache::new(1).unwrap();
    assert_eq!(fill(&mut cache, &plan, &set, &corpus), 2);
    let out = render_4to1(&source, &set, 1, 0, &plan, &cache).unwrap();
    assert_eq!((out.width(), out.height()), (2, 1));
    assert_eq!(out.get_pixel(0, 0), cache.get("reds").unwrap().get_pixel(0, 0));
    assert_eq!(out.get_pixel(1, 0), cache.get("greens").unwrap().get_pixel(0, 0));
}

#[test]
fn a_flat_tint_is_blended_over_the_tile() {
    let source = image_of(1, 1, &[(200, 100, 0)]);
    let corpus = vec![(String::from("dark"), image_of(1, 1, &[(20, 40, 60)]))];
    let set = analyse_1to1(corpus.clone());
    let plan = plan_1to1(&source, &set, Strategy::LinearScan);
    let mut cache = ResizeCache::new(1).unwrap();
    fill(&mut cache, &plan, &set, &corpus);
    let plain = render_1to1(&source, &set, 1, 0, &plan, &cache).unwrap();
    assert_eq!(pixels_of(&plain), vec![(20, 40, 60, 255)]);
    let full = render_1to1(&source, &set, 1, 255, &plan, &cache).unwrap();
    assert_eq!(pixels_of(&full), vec![(200, 100, 0, 255)]);
    let half = render_1to1(&source, &set, 1, 128, &plan, &cache).unwrap();
    let expected = blend_of(blend_of((0, 0, 0, 0), (20, 40, 60, 255)), (200, 100, 0, 128));
    assert_eq!(pixels_of(&half), vec![expected]);
    assert!(expected.0 > 100 && expected.0 < 120);
    assert!(expected.1 > 60 && expected.1 < 80);
    assert!(expected.2 > 20 && expected.2 < 40);
}

#[test]
fn each_quarter_is_tinted_with_its_corner() {
    let source = image_of(2, 2, &[(10, 0, 0), (20, 0, 0), (40, 0, 0), (30, 0, 0)]);
    let corpus = vec![(String::from("grey"), image_of(2, 2, &[(99, 99, 99); 4]))];
    let set = analyse_4to1(corpus.clone());
    let plan = plan_4to1(&source, &set, Strategy::KdTree).unwrap();
    assert_eq!(plan, vec![0]);
    let mut cache = ResizeCache::new(5).unwrap();
    fill(&mut cache, &plan, &set, &corpus);
    let tile = cache.get("grey").unwrap().clone();
    let out = render_4to1(&source, &set, 5, 255, &plan, &cache).unwrap();
    assert_eq!((out.width(), out.height()), (5, 5));
    for y in 0..5 {
        for x in 0..5 {
            let expected = if x == 4 || y == 4 {
                tile.get_pixel(x, y)
            } else if x < 2 && y < 2 {
                Pixel::new(10, 0, 0, 255)
            } else if y < 2 {
                Pixel::new(20, 0, 0, 255)
            } else if x < 2 {
                Pixel::new(40, 0, 0, 255)
            } else {
                Pixel::new(30, 0, 0, 255)
            };
            assert_eq!(out.get_pixel(x, y), expected);
        }
    }
}

#[test]
fn stamp_changes_the_square_of_the_tile_alone() {
    let mut canvas = Image::filled(4, 3, Pixel::new(1, 1, 1, 255)).unwrap();
    let tile = image_of(2, 2, &[(10, 0, 0), (20, 0, 0), (30, 0, 0), (40, 0, 0)]);
    stamp(&mut canvas, &tile, 2, 1, &Tint::Plain, 0);
    let expected = [1, 1, 1, 1, 1, 1, 10, 20, 1, 1, 30, 40];
    let reds: Vec<u8> = pixels_of(&canvas).iter().map(|p| p.0).collect();
    assert_eq!(reds, expected);
    stamp(&mut canvas, &tile, 0, 0, &Tint::Flat(SerializableRgb::new(7, 8, 9)), 255);
    assert_eq!(canvas.get_pixel(0, 0), Pixel::new(7, 8, 9, 255));
    assert_eq!(canvas.get_pixel(1, 1), Pixel::new(7, 8, 9, 255));
    assert_eq!(canvas.get_pixel(2, 1), Pixel::new(10, 0, 0, 255));
    assert_eq!(canvas.get_pixel(2, 0), Pixel::new(1, 1, 1, 255));
}

#[test]
fn a_translucent_tile_is_blended_with_the_canvas() {
    let mut canvas = Image::filled(1, 1, Pixel::new(0, 0, 200, 255)).unwrap();
    let tile = Image::filled(1, 1, Pixel::new(200, 0, 0, 64)).unwrap();
    stamp(&mut canvas, &tile, 0, 0, &Tint::Plain, 0);
    let expected = blend_of((0, 0, 200, 255), (200, 0, 0, 64));
    assert_eq!(pixels_of(&canvas), vec![expected]);
    assert!(expected.0 > 40 && expected.0 < 60);
    assert!(expected.2 > 140 && expected.2 < 160);
}

#[test]
fn random_plans_pick_tiles_of_the_set() {
    let source = image_of(3, 2, &[(0, 0, 0); 6]);
    let corpus = four_colour_corpus();
    let mut set: TileSet<()> = TileSet::new();
    for entry in corpus.iter() {
        set.push(Tile::new(entry.0.clone(), ()));
    }
    let plan = plan_random(&source, &set, &mut TileRng::seeded(3));
    assert_eq!(plan.len(), 6);
    assert!(plan.iter().all(|&i| i < 4));
    assert_eq!(plan, plan_random(&source, &set, &mut TileRng::seeded(3)));
    let mut cache = ResizeCache::new(1).unwrap();
    let decodes = fill(&mut cache, &plan, &set, &corpus);
    assert_eq!(decodes, cache.len());
    let out = render_random(&source, &set, 1, 0, &plan, &cache).unwrap();
    assert_eq!((out.width(), out.height()), (3, 2));
    for (unit, &chosen) in plan.iter().enumerate() {
        let tile = cache.get(set.tile(chosen).path()).unwrap();
        assert_eq!(out.get_pixel(unit as u32 % 3, unit as u32 / 3), tile.get_pixel(0, 0));
    }
}

#[test]
fn render_with_a_mode_is_the_render_of_that_mode() {
    let source = image_of(2, 2, &[(255, 0, 0), (0, 255, 0), (0, 0, 255), (255, 255, 0)]);
    let corpus = four_colour_corpus();
    let set = analyse_1to1(corpus.clone());
    let plan = plan_1to1(&source, &set, Strategy::LinearScan);
    let mut cache = ResizeCache::new(3).unwrap();
    fill(&mut cache, &plan, &set, &corpus);
    let by_mode = render(&source, &set, 3, Mode::OneToOne, 40, &plan, &cache).unwrap();
    let by_name = render_1to1(&source, &set, 3, 40, &plan, &cache).unwrap();
    assert_eq!((by_mode.width(), by_mode.height()), (6, 6));
    assert_eq!(by_mode.to_raw(), by_name.to_raw());
    // Identical inputs give identical output.
    let again = render_1to1(&source, &set, 3, 40, &plan, &cache).unwrap();
    assert_eq!(again.to_raw(), by_name.to_raw());
}
