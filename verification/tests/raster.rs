use emosaic::raster::{Image, Pixel};

#[test]
fn a_new_image_is_blank() {
    let img = Image::new(3, 2).unwrap();
    assert_eq!((img.width(), img.height()), (3, 2));
    for y in 0..2 {
        for x in 0..3 {
            assert_eq!(img.get_pixel(x, y), Pixel::new(0, 0, 0, 0));
        }
    }
}

#[test]
fn an_image_without_pixels_can_be_made() {
    let img = Image::new(0, 5).unwrap();
    assert_eq!((img.width(), img.height()), (0, 5));
    assert_eq!(img.to_raw().len(), 0);
}

#[test]
fn put_pixel_changes_one_pixel() {
    let mut img = Image::filled(2, 2, Pixel::new(1, 2, 3, 4)).unwrap();
    img.put_pixel(1, 0, Pixel::new(9, 9, 9, 9));
    assert_eq!(img.get_pixel(0, 0), Pixel::new(1, 2, 3, 4));
    assert_eq!(img.get_pixel(1, 0), Pixel::new(9, 9, 9, 9));
    assert_eq!(img.get_pixel(0, 1), Pixel::new(1, 2, 3, 4));
    assert_eq!(img.get_pixel(1, 1), Pixel::new(1, 2, 3, 4));
}

#[test]
fn raw_bytes_are_read_row_by_row() {
    let data: Vec<u8> = vec![1, 2, 3, 4, 5, 6, 7, 8, 9, 10, 11, 12];
    let img = Image::from_raw(3, 1, &data).unwrap();
    assert_eq!(img.get_pixel(0, 0), Pixel::new(1, 2, 3, 4));
    assert_eq!(img.get_pixel(2, 0), Pixel::new(9, 10, 11, 12));
    let tall = Image::from_raw(1, 3, &data).unwrap();
    assert_eq!(tall.get_pixel(0, 1), Pixel::new(5, 6, 7, 8));
    assert_eq!(tall.to_raw(), data);
}

#[test]
fn raw_bytes_of_the_wrong_length_are_refused() {
    let data: Vec<u8> = vec![0; 11];
    assert!(Image::from_raw(3, 1, &data).is_none());
    assert!(Image::from_raw(1, 1, &data).is_none());
    assert!(Image::from_raw(0, 0, &data).is_none());
    assert!(Image::from_raw(0, 0, &Vec::new()).is_some());
}

#[test]
fn region_totals_add_up_a_rect() {
    let data: Vec<u8> = vec![1, 2, 3, 0, 10, 20, 30, 255, 100, 200, 50, 0, 5, 5, 5, 9];
    let img = Image::from_raw(2, 2, &data).unwrap();
    let all = img.region_totals(&(0, 0, 2, 2));
    assert_eq!((all.red, all.green, all.blue, all.transparent), (116, 227, 88, 2));
    let right = img.region_totals(&(1, 0, 1, 2));
    assert_eq!((right.red, right.green, right.blue, right.transparent), (15, 25, 35, 0));
    let none = img.region_totals(&(1, 1, 0, 0));
    assert_eq!((none.red, none.green, none.blue, none.transparent), (0, 0, 0, 0));
}
