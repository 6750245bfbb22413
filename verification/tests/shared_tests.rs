use image::Rgb;
use median_filter::shared::add_noise;
use median_filter::shared::byte_len;
use median_filter::shared::fits_window;
use median_filter::shared::collect_neighborhood;
use median_filter::shared::corrupt_pixel;
use median_filter::shared::filter_row_into;
use median_filter::shared::median;
use median_filter::shared::median_rgb;
use median_filter::shared::Image;

fn ramp_image() -> Image {
    let mut img = Image::new_empty(3, 3);
    for y in 0..3u32 {
        for x in 0..3u32 {
            let v = (3 * y + x + 1) as u8;
            img.put_pixel(x, y, Rgb([v, 10 * v, 255 - v]));
        }
    }
    img
}

fn red_values(pixels: &[Rgb<u8>]) -> Vec<u8> {
    pixels.iter().map(|p| p.0[0]).collect()
}

#[test]
fn median_of_nine_values() {
    let mut values = vec![9u8, 1, 8, 2, 7, 3, 6, 4, 5];
    assert_eq!(median(&mut values), 5);
    assert_eq!(values, vec![1u8, 2, 3, 4, 5, 6, 7, 8, 9]);
}

#[test]
fn median_of_one_value() {
    let mut values = vec![42u8];
    assert_eq!(median(&mut values), 42);
}

#[test]
fn median_of_even_count_takes_upper_middle() {
    let mut values = vec![40u8, 10, 30, 20];
    assert_eq!(median(&mut values), 30);
}

#[test]
fn median_of_equal_values_is_that_value() {
    let mut values = vec![17u8; 25];
    assert_eq!(median(&mut values), 17);
}

#[test]
fn median_with_repeated_values() {
    let mut values = vec![255u8, 0, 0, 255, 0];
    assert_eq!(median(&mut values), 0);
    assert_eq!(values, vec![0u8, 0, 0, 255, 255]);
}

#[test]
fn median_rgb_is_taken_per_channel() {
    let pixels = vec![Rgb([1u8, 30, 200]), Rgb([2u8, 10, 100]), Rgb([3u8, 20, 150])];
    assert_eq!(median_rgb(&pixels), Rgb([2u8, 20, 150]));
}

#[test]
fn median_rgb_of_single_pixel() {
    let pixels = vec![Rgb([9u8, 8, 7])];
    assert_eq!(median_rgb(&pixels), Rgb([9u8, 8, 7]));
}

#[test]
fn new_empty_is_black_with_given_dimensions() {
    let img = Image::new_empty(4, 2);
    assert_eq!(img.width, 4);
    assert_eq!(img.height, 2);
    for y in 0..2 {
        for x in 0..4 {
            assert_eq!(*img.get_pixel(x, y), Rgb([0u8, 0, 0]));
        }
    }
}

#[test]
fn new_empty_with_no_pixels() {
    let img = Image::new_empty(0, 5);
    assert_eq!(img.width, 0);
    assert_eq!(img.height, 5);
}

#[test]
fn put_pixel_changes_one_pixel_only() {
    let mut img = Image::new_empty(3, 2);
    img.put_pixel(2, 1, Rgb([10u8, 20, 30]));
    for y in 0..2 {
        for x in 0..3 {
            let expected = if x == 2 && y == 1 { Rgb([10u8, 20, 30]) } else { Rgb([0u8, 0, 0]) };
            assert_eq!(*img.get_pixel(x, y), expected);
        }
    }
    assert_eq!(img.width, 3);
    assert_eq!(img.height, 2);
}

#[test]
fn padded_access_inside_reads_the_pixel() {
    let img = ramp_image();
    assert_eq!(img.get_pixel_padded(0, 0), Rgb([1u8, 10, 254]));
    assert_eq!(img.get_pixel_padded(2, 1), Rgb([6u8, 60, 249]));
    assert_eq!(img.get_pixel_padded(1, 2), Rgb([8u8, 80, 247]));
}

#[test]
fn padded_access_reflects_below_zero() {
    let img = ramp_image();
    assert_eq!(img.get_pixel_padded(-1, 0), Rgb([2u8, 20, 253]));
    assert_eq!(img.get_pixel_padded(-2, 0), Rgb([3u8, 30, 252]));
    assert_eq!(img.get_pixel_padded(0, -1), Rgb([4u8, 40, 251]));
    assert_eq!(img.get_pixel_padded(-1, -1), Rgb([5u8, 50, 250]));
}

#[test]
fn padded_access_reflects_at_the_far_edge() {
    let img = ramp_image();
    assert_eq!(img.get_pixel_padded(3, 0), Rgb([2u8, 20, 253]));
    assert_eq!(img.get_pixel_padded(4, 0), Rgb([1u8, 10, 254]));
    assert_eq!(img.get_pixel_padded(0, 3), Rgb([4u8, 40, 251]));
    assert_eq!(img.get_pixel_padded(3, 3), Rgb([5u8, 50, 250]));
}

#[test]
fn padded_access_clamps_what_reflection_leaves_outside() {
    let img = ramp_image();
    assert_eq!(img.get_pixel_padded(-5, 0), Rgb([3u8, 30, 252]));
    assert_eq!(img.get_pixel_padded(7, 0), Rgb([1u8, 10, 254]));
    assert_eq!(img.get_pixel_padded(0, i32::MIN), Rgb([7u8, 70, 248]));
    assert_eq!(img.get_pixel_padded(i32::MAX, 0), Rgb([1u8, 10, 254]));
}

#[test]
fn padded_access_on_single_pixel_always_reads_it() {
    let mut img = Image::new_empty(1, 1);
    img.put_pixel(0, 0, Rgb([11u8, 22, 33]));
    for y in -3..=3 {
        for x in -3..=3 {
            assert_eq!(img.get_pixel_padded(x, y), Rgb([11u8, 22, 33]));
        }
    }
}

#[test]
fn neighborhood_is_collected_row_by_row() {
    let img = ramp_image();
    let middle = collect_neighborhood(&img, 1, 1, 3);
    assert_eq!(red_values(&middle), vec![1u8, 2, 3, 4, 5, 6, 7, 8, 9]);
    let corner = collect_neighborhood(&img, 0, 0, 3);
    assert_eq!(red_values(&corner), vec![5u8, 4, 5, 2, 1, 2, 5, 4, 5]);
}

#[test]
fn neighborhood_has_the_square_of_the_side_as_length() {
    let img = ramp_image();
    assert_eq!(collect_neighborhood(&img, 1, 1, 1).len(), 1);
    assert_eq!(collect_neighborhood(&img, 1, 1, 3).len(), 9);
    assert_eq!(collect_neighborhood(&img, 1, 1, 5).len(), 25);
    assert_eq!(collect_neighborhood(&img, 1, 1, 4).len(), 25);
}

#[test]
fn filter_row_into_writes_one_row() {
    let img = ramp_image();
    let mut output = Image::new_empty(3, 2);
    filter_row_into(&img, 0, 3, &mut output, 1);
    assert_eq!(*output.get_pixel(0, 1), Rgb([4u8, 40, 251]));
    assert_eq!(*output.get_pixel(1, 1), Rgb([4u8, 40, 251]));
    assert_eq!(*output.get_pixel(2, 1), Rgb([5u8, 50, 250]));
    for x in 0..3 {
        assert_eq!(*output.get_pixel(x, 0), Rgb([0u8, 0, 0]));
    }
}

#[test]
fn corrupt_pixel_makes_salt_white_and_pepper_black() {
    let mut img = ramp_image();
    corrupt_pixel(&mut img, 1, 0, true);
    corrupt_pixel(&mut img, 2, 2, false);
    assert_eq!(*img.get_pixel(1, 0), Rgb([255u8, 255, 255]));
    assert_eq!(*img.get_pixel(2, 2), Rgb([0u8, 0, 0]));
    assert_eq!(*img.get_pixel(0, 0), Rgb([1u8, 10, 254]));
    assert_eq!(*img.get_pixel(1, 1), Rgb([5u8, 50, 250]));
}

#[test]
fn add_noise_of_nothing_changes_nothing() {
    let mut img = ramp_image();
    add_noise(&mut img, 0);
    let same = ramp_image();
    for y in 0..3 {
        for x in 0..3 {
            assert_eq!(img.get_pixel(x, y), same.get_pixel(x, y));
        }
    }
}

#[test]
fn add_noise_on_empty_image_with_no_pixels_to_corrupt() {
    let mut img = Image::new_empty(0, 0);
    add_noise(&mut img, 0);
    assert_eq!(img.width, 0);
    assert_eq!(img.height, 0);
}

#[test]
fn add_noise_leaves_pixels_as_they_were_or_white_or_black() {
    let mut img = ramp_image();
    add_noise(&mut img, 4);
    let before = ramp_image();
    let mut changed = 0;
    for y in 0..3 {
        for x in 0..3 {
            let p = *img.get_pixel(x, y);
            if p != *before.get_pixel(x, y) {
                changed += 1;
                assert!(p == Rgb([255u8, 255, 255]) || p == Rgb([0u8, 0, 0]));
            }
        }
    }
    assert!(changed >= 1);
    assert!(changed <= 4);
    assert_eq!(img.width, 3);
    assert_eq!(img.height, 3);
}

#[test]
fn add_noise_with_many_samples_reaches_every_pixel_of_a_small_image() {
    let mut img = Image::new_empty(2, 1);
    img.put_pixel(0, 0, Rgb([7u8, 7, 7]));
    img.put_pixel(1, 0, Rgb([7u8, 7, 7]));
    add_noise(&mut img, 400);
    for x in 0..2 {
        let p = *img.get_pixel(x, 0);
        assert!(p == Rgb([255u8, 255, 255]) || p == Rgb([0u8, 0, 0]));
    }
}

#[test]
fn byte_len_is_three_bytes_for_each_pixel() {
    assert_eq!(byte_len(4, 3), Some(36));
    assert_eq!(byte_len(0, 3), Some(0));
    assert_eq!(byte_len(1920, 1080), Some(6220800));
}

#[test]
fn byte_len_that_cannot_be_allocated_is_none() {
    assert_eq!(byte_len(u32::MAX, u32::MAX), None);
}

#[test]
fn fits_window_for_images_whose_coordinates_are_small_enough() {
    assert!(fits_window(1920, 1080, 3));
    assert!(fits_window(1920, 1080, 5));
    assert!(fits_window(0x7fff_ffff, 1, 3));
    assert!(fits_window(0x7fff_ffff, 0x7fff_ffff, 2));
}

#[test]
fn fits_window_not_where_a_coordinate_would_pass_the_largest() {
    assert!(!fits_window(0x8000_0000, 1, 3));
    assert!(!fits_window(1, 0x8000_0000, 3));
    assert!(!fits_window(u32::MAX, 1, 1));
    assert!(!fits_window(4, 4, usize::MAX));
}

#[test]
fn fits_window_always_for_an_image_without_pixels() {
    assert!(fits_window(0, u32::MAX, usize::MAX));
    assert!(fits_window(u32::MAX, 0, 7));
}
