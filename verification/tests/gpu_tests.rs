use image::Rgb;
use median_filter::gpu::pack_pixel;
use median_filter::gpu::pack_pixels;
use median_filter::gpu::unpack_pixel;
use median_filter::gpu::unpack_pixels;
use median_filter::gpu::workgroup_count;
use median_filter::gpu::WORKGROUP_SIZE;
use median_filter::shared::Image;

#[test]
fn pack_pixel_puts_red_highest() {
    assert_eq!(pack_pixel(&Rgb([1u8, 2, 3])), 0x0001_0203);
    assert_eq!(pack_pixel(&Rgb([255u8, 0, 0])), 0x00ff_0000);
    assert_eq!(pack_pixel(&Rgb([0u8, 255, 0])), 0x0000_ff00);
    assert_eq!(pack_pixel(&Rgb([0u8, 0, 255])), 0x0000_00ff);
    assert_eq!(pack_pixel(&Rgb([255u8, 255, 255])), 0x00ff_ffff);
}

#[test]
fn unpack_pixel_ignores_the_highest_byte() {
    assert_eq!(unpack_pixel(0x0001_0203), Rgb([1u8, 2, 3]));
    assert_eq!(unpack_pixel(0xff01_0203), Rgb([1u8, 2, 3]));
    assert_eq!(unpack_pixel(0), Rgb([0u8, 0, 0]));
    assert_eq!(unpack_pixel(u32::MAX), Rgb([255u8, 255, 255]));
}

#[test]
fn unpack_pixel_gives_a_packed_pixel_back() {
    for r in [0u8, 1, 127, 128, 255] {
        for g in [0u8, 1, 127, 128, 255] {
            for b in [0u8, 1, 127, 128, 255] {
                assert_eq!(unpack_pixel(pack_pixel(&Rgb([r, g, b]))), Rgb([r, g, b]));
            }
        }
    }
}

#[test]
fn pack_pixels_goes_row_by_row() {
    let mut img = Image::new_empty(2, 2);
    img.put_pixel(0, 0, Rgb([1u8, 0, 0]));
    img.put_pixel(1, 0, Rgb([0u8, 2, 0]));
    img.put_pixel(0, 1, Rgb([0u8, 0, 3]));
    img.put_pixel(1, 1, Rgb([4u8, 5, 6]));
    assert_eq!(pack_pixels(&img), vec![0x0001_0000u32, 0x0000_0200, 0x0000_0003, 0x0004_0506]);
}

#[test]
fn unpack_pixels_goes_row_by_row() {
    let img = unpack_pixels(&[0x0001_0000u32, 0x0000_0200, 0x0000_0003, 0x0004_0506, 7, 8], 2, 3);
    assert_eq!(img.width, 2);
    assert_eq!(img.height, 3);
    assert_eq!(*img.get_pixel(0, 0), Rgb([1u8, 0, 0]));
    assert_eq!(*img.get_pixel(1, 0), Rgb([0u8, 2, 0]));
    assert_eq!(*img.get_pixel(0, 1), Rgb([0u8, 0, 3]));
    assert_eq!(*img.get_pixel(1, 1), Rgb([4u8, 5, 6]));
    assert_eq!(*img.get_pixel(0, 2), Rgb([0u8, 0, 7]));
    assert_eq!(*img.get_pixel(1, 2), Rgb([0u8, 0, 8]));
}

#[test]
fn unpack_pixels_gives_a_packed_image_back() {
    let mut img = Image::new_empty(5, 3);
    for y in 0..3u32 {
        for x in 0..5u32 {
            let v = (y * 5 + x) as u8;
            img.put_pixel(x, y, Rgb([v, 200 - v, v.wrapping_mul(17)]));
        }
    }
    let back = unpack_pixels(&pack_pixels(&img), 5, 3);
    for y in 0..3 {
        for x in 0..5 {
            assert_eq!(back.get_pixel(x, y), img.get_pixel(x, y));
        }
    }
}

#[test]
fn pack_pixels_of_an_image_without_pixels() {
    assert_eq!(pack_pixels(&Image::new_empty(0, 3)), Vec::<u32>::new());
    assert_eq!(unpack_pixels(&[], 0, 3).height, 3);
}

#[test]
fn workgroup_count_rounds_up() {
    assert_eq!(WORKGROUP_SIZE, 8);
    assert_eq!(workgroup_count(0), 0);
    assert_eq!(workgroup_count(1), 1);
    assert_eq!(workgroup_count(8), 1);
    assert_eq!(workgroup_count(9), 2);
    assert_eq!(workgroup_count(1920), 240);
    assert_eq!(workgroup_count(u32::MAX), 536870912);
}
