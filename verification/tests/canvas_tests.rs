use pixel_grid::canvas::{
    auto_trim, can_pad_to, count_opaque_pixels, crop, find_content_bounds, pad_to_multiple,
};
use pixel_grid::raster::{Pixel, PixelBuffer};
use pixel_grid::resample::downsample_with_phase;

fn opaque(v: u8) -> Pixel {
    Pixel::new(v, v, v, 255)
}

/// Column and row of every pixel written into red and green.
fn numbered(width: u32, height: u32) -> PixelBuffer {
    let mut img = PixelBuffer::new(width, height);
    for y in 0..height {
        for x in 0..width {
            img.put_pixel(x, y, Pixel::new(x as u8, y as u8, 0, 255));
        }
    }
    img
}

#[test]
fn trim_cuts_to_the_visible_pixels() {
    let mut img = PixelBuffer::new(10, 8);
    img.put_pixel(3, 2, opaque(1));
    img.put_pixel(6, 5, opaque(2));
    img.put_pixel(4, 4, Pixel::new(9, 9, 9, 1));
    let bounds = find_content_bounds(&img).expect("content");
    assert_eq!((bounds.left, bounds.top, bounds.right, bounds.bottom), (3, 2, 6, 5));
    let out = auto_trim(&img);
    assert_eq!(out.dimensions(), (4, 4));
    assert_eq!(out.get_pixel(0, 0), opaque(1));
    assert_eq!(out.get_pixel(3, 3), opaque(2));
    assert_eq!(out.get_pixel(1, 2), Pixel::new(9, 9, 9, 1));
    assert_eq!(out.get_pixel(1, 1), Pixel::transparent());
}

#[test]
fn trim_keeps_the_colour_of_transparent_pixels_inside_the_box() {
    let mut img = PixelBuffer::from_pixel(5, 5, Pixel::new(50, 60, 70, 0));
    img.put_pixel(1, 1, opaque(1));
    img.put_pixel(3, 2, opaque(2));
    let out = auto_trim(&img);
    assert_eq!(out.dimensions(), (3, 2));
    assert_eq!(out.get_pixel(1, 0), Pixel::new(50, 60, 70, 0));
}

#[test]
fn trim_of_a_full_image_changes_nothing() {
    let img = numbered(6, 4);
    let out = auto_trim(&img);
    assert_eq!(out.dimensions(), (6, 4));
    for y in 0..4 {
        for x in 0..6 {
            assert_eq!(out.get_pixel(x, y), img.get_pixel(x, y));
        }
    }
}

#[test]
fn trim_of_a_single_visible_pixel() {
    let mut img = PixelBuffer::new(9, 9);
    img.put_pixel(8, 0, opaque(3));
    let out = auto_trim(&img);
    assert_eq!(out.dimensions(), (1, 1));
    assert_eq!(out.get_pixel(0, 0), opaque(3));
}

#[test]
fn trim_of_a_transparent_image_is_one_blank_pixel() {
    let img = PixelBuffer::from_pixel(12, 7, Pixel::new(200, 100, 50, 0));
    assert!(find_content_bounds(&img).is_none());
    let out = auto_trim(&img);
    assert_eq!(out.dimensions(), (1, 1));
    assert_eq!(out.get_pixel(0, 0), Pixel::new(0, 0, 0, 0));
    let out = auto_trim(&PixelBuffer::new(0, 0));
    assert_eq!(out.dimensions(), (1, 1));
}

#[test]
fn crop_copies_a_rectangle() {
    let img = numbered(8, 8);
    let out = crop(&img, 2, 3, 4, 5);
    assert_eq!(out.dimensions(), (4, 5));
    assert_eq!(out.get_pixel(0, 0), Pixel::new(2, 3, 0, 255));
    assert_eq!(out.get_pixel(3, 4), Pixel::new(5, 7, 0, 255));
    assert_eq!(crop(&img, 8, 8, 0, 0).dimensions(), (0, 0));
}

#[test]
fn padding_rounds_the_sides_up() {
    let img = numbered(20, 16);
    assert_eq!(pad_to_multiple(&img, 16).dimensions(), (32, 16));
    assert_eq!(pad_to_multiple(&img, 4).dimensions(), (20, 16));
    assert_eq!(pad_to_multiple(&img, 7).dimensions(), (21, 21));
    assert_eq!(pad_to_multiple(&img, 1).dimensions(), (20, 16));
    assert_eq!(pad_to_multiple(&img, 100).dimensions(), (100, 100));
    assert_eq!(pad_to_multiple(&PixelBuffer::new(1, 1), 16).dimensions(), (16, 16));
}

#[test]
fn padding_centres_the_image() {
    let img = numbered(3, 2);
    let out = pad_to_multiple(&img, 8);
    assert_eq!(out.dimensions(), (8, 8));
    // 5 columns are added: 2 on the left, 3 on the right; 6 rows: 3 above, 3 below
    for y in 0..8u32 {
        for x in 0..8u32 {
            let inside = (2..5).contains(&x) && (3..5).contains(&y);
            let expected =
                if inside { Pixel::new((x - 2) as u8, (y - 3) as u8, 0, 255) } else { Pixel::transparent() };
            assert_eq!(out.get_pixel(x, y), expected, "at {} {}", x, y);
        }
    }
}

#[test]
fn padding_keeps_half_transparent_pixels_as_they_are() {
    let mut img = PixelBuffer::new(2, 1);
    img.put_pixel(0, 0, Pixel::new(100, 101, 102, 1));
    img.put_pixel(1, 0, Pixel::new(7, 8, 9, 0));
    let out = pad_to_multiple(&img, 4);
    assert_eq!(out.dimensions(), (4, 4));
    assert_eq!(out.get_pixel(1, 1), Pixel::new(100, 101, 102, 1));
    // a fully transparent pixel leaves the canvas as it is
    assert_eq!(out.get_pixel(2, 1), Pixel::new(0, 0, 0, 0));
}

#[test]
fn padding_of_a_fitting_image_is_a_copy() {
    let mut img = numbered(8, 4);
    img.put_pixel(0, 0, Pixel::new(7, 8, 9, 0));
    let out = pad_to_multiple(&img, 4);
    assert_eq!(out.dimensions(), (8, 4));
    assert_eq!(out.get_pixel(0, 0), Pixel::new(7, 8, 9, 0));
    assert_eq!(out.get_pixel(7, 3), Pixel::new(7, 3, 0, 255));
}

#[test]
fn trimmed_and_padded_sides_are_multiples_and_the_content_is_centred() {
    for m in [1u32, 2, 3, 5, 8, 16] {
        let mut img = PixelBuffer::new(40, 30);
        for y in 7..18 {
            for x in 11..30 {
                img.put_pixel(x, y, Pixel::new(x as u8, y as u8, 1, 200));
            }
        }
        let trimmed = auto_trim(&img);
        assert_eq!(trimmed.dimensions(), (19, 11));
        let out = pad_to_multiple(&trimmed, m);
        let (w, h) = out.dimensions();
        assert_eq!(w % m, 0);
        assert_eq!(h % m, 0);
        assert!(w >= 19 && w < 19 + m && h >= 11 && h < 11 + m);
        let ox = (w - 19) / 2;
        let oy = (h - 11) / 2;
        for y in 7..18 {
            for x in 11..30 {
                assert_eq!(out.get_pixel(x - 11 + ox, y - 7 + oy), img.get_pixel(x, y));
            }
        }
        let visible = (0..h).flat_map(|y| (0..w).map(move |x| (x, y))).filter(|&(x, y)| out.get_pixel(x, y).a > 0);
        assert_eq!(visible.count(), 19 * 11);
    }
}

#[test]
fn downsampling_takes_the_centre_of_each_cell() {
    let img = numbered(20, 12);
    let out = downsample_with_phase(&img, 4, 0, 0);
    assert_eq!(out.dimensions(), (5, 3));
    for y in 0..3u32 {
        for x in 0..5u32 {
            assert_eq!(out.get_pixel(x, y), Pixel::new((4 * x + 2) as u8, (4 * y + 2) as u8, 0, 255));
        }
    }
    let out = downsample_with_phase(&img, 5, 3, 1);
    // (20 - 3) / 5 = 3 columns, (12 - 1) / 5 = 2 rows, centres at 3 + 5x + 2 and 1 + 5y + 2
    assert_eq!(out.dimensions(), (3, 2));
    assert_eq!(out.get_pixel(0, 0), Pixel::new(5, 3, 0, 255));
    assert_eq!(out.get_pixel(2, 1), Pixel::new(15, 8, 0, 255));
    let out = downsample_with_phase(&img, 1, 0, 0);
    assert_eq!(out.dimensions(), (20, 12));
    assert_eq!(out.get_pixel(19, 11), Pixel::new(19, 11, 0, 255));
}

#[test]
fn downsampling_without_a_whole_cell_copies_the_image() {
    let img = numbered(20, 12);
    for (scale, px, py) in [(13u32, 0u32, 0u32), (4, 17, 0), (4, 0, 9), (4, 20, 0), (4, 50, 50), (21, 0, 0)] {
        let out = downsample_with_phase(&img, scale, px, py);
        assert_eq!(out.dimensions(), (20, 12));
        assert_eq!(out.get_pixel(7, 5), Pixel::new(7, 5, 0, 255));
    }
    let out = downsample_with_phase(&PixelBuffer::new(1, 1), 10, 0, 0);
    assert_eq!(out.dimensions(), (1, 1));
}

#[test]
fn visible_pixels_are_counted() {
    let mut img = PixelBuffer::new(7, 5);
    assert_eq!(count_opaque_pixels(&img), 0);
    img.put_pixel(0, 0, opaque(1));
    img.put_pixel(6, 4, Pixel::new(0, 0, 0, 1));
    img.put_pixel(3, 2, Pixel::new(255, 255, 255, 0));
    assert_eq!(count_opaque_pixels(&img), 2);
    assert_eq!(count_opaque_pixels(&numbered(7, 5)), 35);
    assert_eq!(count_opaque_pixels(&PixelBuffer::new(0, 3)), 0);
}

#[test]
fn padding_is_refused_where_the_canvas_cannot_be() {
    let img = numbered(20, 16);
    assert!(!can_pad_to(&img, 0));
    assert!(can_pad_to(&img, 1));
    assert!(can_pad_to(&img, 16));
    assert!(can_pad_to(&img, 65535));
    // sides of 4294967295 pixels each are more than memory can hold
    assert!(!can_pad_to(&img, u32::MAX));
    // the next multiple of 4294967290 above 1 fits in 32 bits, that of
    // 2147483649 above 2147483650 does not
    let wide = PixelBuffer::new(2_147_483_650, 0);
    assert!(!can_pad_to(&wide, 2_147_483_649));
    assert!(can_pad_to(&wide, 2_147_483_650));
}
