use pixel_grid::raster::{Mask, Pixel, PixelBuffer};

#[test]
fn new_canvas_is_transparent_black() {
    let img = PixelBuffer::new(3, 2);
    assert_eq!(img.dimensions(), (3, 2));
    for y in 0..2 {
        for x in 0..3 {
            assert_eq!(img.get_pixel(x, y), Pixel::new(0, 0, 0, 0));
        }
    }
}

#[test]
fn from_pixel_paints_every_cell() {
    let p = Pixel::new(10, 20, 30, 40);
    let img = PixelBuffer::from_pixel(4, 5, p);
    assert_eq!(img.width(), 4);
    assert_eq!(img.height(), 5);
    assert_eq!(img.get_pixel(0, 0), p);
    assert_eq!(img.get_pixel(3, 4), p);
}

#[test]
fn put_pixel_changes_one_cell_only() {
    let mut img = PixelBuffer::new(3, 3);
    let p = Pixel::new(1, 2, 3, 4);
    img.put_pixel(2, 1, p);
    for y in 0..3 {
        for x in 0..3 {
            let expected = if (x, y) == (2, 1) { p } else { Pixel::transparent() };
            assert_eq!(img.get_pixel(x, y), expected);
        }
    }
}

#[test]
fn rows_are_stored_one_after_another() {
    let mut img = PixelBuffer::new(2, 3);
    img.put_pixel(1, 0, Pixel::new(1, 0, 0, 255));
    img.put_pixel(0, 1, Pixel::new(2, 0, 0, 255));
    img.put_pixel(1, 2, Pixel::new(3, 0, 0, 255));
    assert_eq!(img.get_pixel(1, 0).r, 1);
    assert_eq!(img.get_pixel(0, 1).r, 2);
    assert_eq!(img.get_pixel(1, 2).r, 3);
    assert_eq!(img.get_pixel(0, 0).r, 0);
}

#[test]
fn duplicate_is_independent() {
    let mut img = PixelBuffer::from_pixel(2, 2, Pixel::new(5, 5, 5, 5));
    let copy = img.duplicate();
    img.put_pixel(0, 0, Pixel::new(9, 9, 9, 9));
    assert_eq!(copy.get_pixel(0, 0), Pixel::new(5, 5, 5, 5));
    assert_eq!(copy.dimensions(), (2, 2));
}

#[test]
fn empty_canvas_has_no_cells() {
    let img = PixelBuffer::new(0, 7);
    assert_eq!(img.dimensions(), (0, 7));
}

#[test]
fn mask_cells_can_be_set() {
    let mut mask = Mask::filled(3, 2, false);
    mask.set(1, 1, true);
    assert!(mask.get(1, 1));
    assert!(!mask.get(0, 1));
    assert!(!mask.get(1, 0));
}

#[test]
fn pixel_rgb_drops_alpha() {
    assert_eq!(Pixel::new(7, 8, 9, 200).rgb(), [7, 8, 9]);
}
