use emosaic::analyse::{
    analyse_1to1, analyse_4to1, batch_bounds, collect_tiles, extract_color, signature_1to1,
    signature_4to1,
};
use emosaic::color::SerializableRgb;
use emosaic::raster::{Image, Pixel};

fn image_of(width: u32, height: u32, pixels: &[(u8, u8, u8, u8)]) -> Image {
    let mut data = Vec::new();
    for p in pixels {
        data.extend_from_slice(&[p.0, p.1, p.2, p.3]);
    }
    Image::from_raw(width, height, &data).unwrap()
}

fn entries(set: &emosaic::tile::TileSet<SerializableRgb>) -> Vec<(String, SerializableRgb)> {
    let mut out = Vec::new();
    for i in 0..set.len() {
        out.push((set.tile(i).path().to_string(), *set.tile(i).colors()));
    }
    out
}

#[test]
fn the_signature_of_an_image_is_its_average() {
    let img = image_of(2, 1, &[(10, 20, 30, 255), (30, 40, 50, 255)]);
    assert_eq!(signature_1to1(&img), Some(SerializableRgb::new(20, 30, 40)));
}

#[test]
fn an_image_without_pixels_has_no_signature() {
    assert_eq!(signature_1to1(&Image::new(0, 0).unwrap()), None);
    assert_eq!(signature_1to1(&Image::new(4, 0).unwrap()), None);
    assert_eq!(signature_4to1(&Image::new(0, 4).unwrap()), None);
    let narrow = Image::filled(1, 4, Pixel::new(1, 1, 1, 255)).unwrap();
    assert_eq!(signature_4to1(&narrow), None);
}

#[test]
fn a_mostly_transparent_rect_yields_nothing() {
    let img = image_of(
        4,
        1,
        &[(10, 10, 10, 0), (20, 20, 20, 0), (30, 30, 30, 0), (40, 40, 40, 255)],
    );
    assert_eq!(extract_color(&img, &(0, 0, 4, 1)), None);
    assert_eq!(signature_1to1(&img), None);
    // Exactly half is not more than half.
    assert_eq!(extract_color(&img, &(2, 0, 2, 1)), Some(SerializableRgb::new(35, 35, 35)));
    // Translucent pixels are not fully transparent.
    let faint = image_of(2, 1, &[(10, 10, 10, 1), (20, 20, 20, 1)]);
    assert_eq!(extract_color(&faint, &(0, 0, 2, 1)), Some(SerializableRgb::new(15, 15, 15)));
}

#[test]
fn quadrants_are_averaged_clockwise_from_the_top_left() {
    let img = image_of(
        2,
        2,
        &[(1, 0, 0, 255), (2, 0, 0, 255), (4, 0, 0, 255), (3, 0, 0, 255)],
    );
    assert_eq!(
        signature_4to1(&img),
        Some([
            SerializableRgb::new(1, 0, 0),
            SerializableRgb::new(2, 0, 0),
            SerializableRgb::new(3, 0, 0),
            SerializableRgb::new(4, 0, 0),
        ])
    );
}

#[test]
fn an_odd_row_and_column_are_left_out_of_the_quadrants() {
    let mut pixels = Vec::new();
    for y in 0..5u8 {
        for x in 0..5u8 {
            let v = if x == 4 || y == 4 { 255 } else if x < 2 { 10 } else { 20 };
            let g = if y < 2 { 30 } else { 40 };
            pixels.push((v, if x == 4 || y == 4 { 255 } else { g }, 0, 255));
        }
    }
    let img = image_of(5, 5, &pixels);
    assert_eq!(
        signature_4to1(&img),
        Some([
            SerializableRgb::new(10, 30, 0),
            SerializableRgb::new(20, 30, 0),
            SerializableRgb::new(20, 40, 0),
            SerializableRgb::new(10, 40, 0),
        ])
    );
}

#[test]
fn a_transparent_quadrant_drops_the_tile() {
    let img = image_of(
        2,
        2,
        &[(1, 0, 0, 255), (2, 0, 0, 0), (4, 0, 0, 255), (3, 0, 0, 255)],
    );
    assert_eq!(signature_4to1(&img), None);
}

#[test]
fn results_without_a_signature_are_dropped() {
    let a = SerializableRgb::new(1, 1, 1);
    let b = SerializableRgb::new(2, 2, 2);
    let results = vec![
        (String::from("a"), Some(a)),
        (String::from("bad1"), None),
        (String::from("b"), Some(b)),
        (String::from("bad2"), None),
        (String::from("bad3"), None),
    ];
    let set = collect_tiles(results);
    assert_eq!(entries(&set), vec![(String::from("a"), a), (String::from("b"), b)]);
}

#[test]
fn the_order_of_the_results_does_not_change_the_tiles() {
    let a = SerializableRgb::new(1, 1, 1);
    let b = SerializableRgb::new(2, 2, 2);
    let c = SerializableRgb::new(3, 3, 3);
    let forward = vec![
        (String::from("a"), Some(a)),
        (String::from("x"), None),
        (String::from("b"), Some(b)),
        (String::from("c"), Some(c)),
    ];
    let mut backward = forward.clone();
    backward.reverse();
    let mut first = entries(&collect_tiles(forward));
    let mut second = entries(&collect_tiles(backward));
    assert_eq!(first.len(), 3);
    first.sort_by(|l, r| l.0.cmp(&r.0));
    second.sort_by(|l, r| l.0.cmp(&r.0));
    assert_eq!(first, second);
}

#[test]
fn an_empty_corpus_gives_an_empty_tile_set() {
    assert!(analyse_1to1(Vec::new()).is_empty());
    assert!(analyse_4to1(Vec::new()).is_empty());
    let none: Vec<(String, Option<SerializableRgb>)> = Vec::new();
    assert!(collect_tiles(none).is_empty());
}

#[test]
fn analysis_keeps_the_images_with_a_signature() {
    let images = vec![
        (String::from("red"), image_of(1, 1, &[(255, 0, 0, 255)])),
        (String::from("empty"), Image::new(0, 0).unwrap()),
        (String::from("clear"), image_of(1, 1, &[(9, 9, 9, 0)])),
        (String::from("mix"), image_of(2, 1, &[(0, 0, 0, 255), (0, 255, 1, 255)])),
    ];
    let set = analyse_1to1(images);
    assert_eq!(
        entries(&set),
        vec![
            (String::from("red"), SerializableRgb::new(255, 0, 0)),
            (String::from("mix"), SerializableRgb::new(0, 128, 1)),
        ]
    );
}

#[test]
fn analysis_by_quadrants_keeps_the_images_with_a_signature() {
    let images = vec![
        (String::from("thin"), image_of(1, 2, &[(1, 1, 1, 255), (1, 1, 1, 255)])),
        (
            String::from("ok"),
            image_of(2, 2, &[(1, 1, 1, 255), (2, 2, 2, 255), (4, 4, 4, 255), (3, 3, 3, 255)]),
        ),
    ];
    let set = analyse_4to1(images);
    assert_eq!(set.len(), 1);
    assert_eq!(set.tile(0).path(), "ok");
    assert_eq!(
        *set.tile(0).colors(),
        [
            SerializableRgb::new(1, 1, 1),
            SerializableRgb::new(2, 2, 2),
            SerializableRgb::new(3, 3, 3),
            SerializableRgb::new(4, 4, 4),
        ]
    );
}

#[test]
fn batches_cover_the_items_in_order() {
    assert_eq!(batch_bounds(0, 500), Vec::new());
    assert_eq!(batch_bounds(1, 500), vec![(0, 1)]);
    assert_eq!(batch_bounds(500, 500), vec![(0, 500)]);
    assert_eq!(batch_bounds(501, 500), vec![(0, 500), (500, 501)]);
    assert_eq!(batch_bounds(7, 3), vec![(0, 3), (3, 6), (6, 7)]);
    assert_eq!(batch_bounds(3, 1), vec![(0, 1), (1, 2), (2, 3)]);
}
