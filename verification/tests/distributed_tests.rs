use image::Rgb;
use median_filter::distributed::deserialize_chunk;
use median_filter::distributed::extract_chunk;
use median_filter::distributed::partition;
use median_filter::distributed::process_chunk;
use median_filter::distributed::serialize_chunk;
use median_filter::distributed::RowRange;
use median_filter::distributed::WorkAssignment;
use median_filter::shared::Image;

fn numbered_image(width: u32, height: u32) -> Image {
    let mut img = Image::new_empty(width, height);
    for y in 0..height {
        for x in 0..width {
            let v = (y * width + x) as u8;
            img.put_pixel(x, y, Rgb([v, v.wrapping_mul(3), 255 - v]));
        }
    }
    img
}

fn same_pixels(a: &Image, b: &Image) -> bool {
    if a.width != b.width || a.height != b.height {
        return false;
    }
    for y in 0..a.height {
        for x in 0..a.width {
            if a.get_pixel(x, y) != b.get_pixel(x, y) {
                return false;
            }
        }
    }
    true
}

fn assignment(worker_id: i32, owned: (i32, i32), halo: (i32, i32)) -> WorkAssignment {
    WorkAssignment {
        worker_id,
        owned: RowRange { start: owned.0, end: owned.1 },
        halo: RowRange { start: halo.0, end: halo.1 },
    }
}

#[test]
fn partition_of_ten_rows_among_three_workers() {
    let parts = partition(10, 3, 1);
    assert_eq!(
        parts,
        vec![
            assignment(0, (0, 4), (0, 5)),
            assignment(1, (4, 8), (3, 9)),
            assignment(2, (8, 10), (7, 10)),
        ]
    );
}

#[test]
fn partition_with_wider_halo() {
    let parts = partition(10, 3, 2);
    assert_eq!(
        parts,
        vec![
            assignment(0, (0, 4), (0, 6)),
            assignment(1, (4, 8), (2, 10)),
            assignment(2, (8, 10), (6, 10)),
        ]
    );
}

#[test]
fn partition_for_one_worker_is_the_whole_image() {
    assert_eq!(partition(7, 1, 2), vec![assignment(0, (0, 7), (0, 7))]);
}

#[test]
fn partition_with_more_workers_than_rows_leaves_workers_empty() {
    let parts = partition(2, 5, 1);
    assert_eq!(
        parts,
        vec![
            assignment(0, (0, 1), (0, 2)),
            assignment(1, (1, 2), (0, 2)),
            assignment(2, (2, 2), (1, 2)),
            assignment(3, (2, 2), (1, 2)),
            assignment(4, (2, 2), (1, 2)),
        ]
    );
    assert!(!parts[1].owned.is_empty());
    assert!(parts[2].owned.is_empty());
}

#[test]
fn partition_where_rounding_up_leaves_the_last_worker_empty() {
    let parts = partition(4, 3, 1);
    assert_eq!(
        parts,
        vec![
            assignment(0, (0, 2), (0, 3)),
            assignment(1, (2, 4), (1, 4)),
            assignment(2, (4, 4), (3, 4)),
        ]
    );
}

#[test]
fn partition_of_no_rows() {
    assert_eq!(
        partition(0, 2, 1),
        vec![assignment(0, (0, 0), (0, 0)), assignment(1, (0, 0), (0, 0))]
    );
}

#[test]
fn partition_with_no_halo() {
    assert_eq!(
        partition(4, 2, 0),
        vec![assignment(0, (0, 2), (0, 2)), assignment(1, (2, 4), (2, 4))]
    );
}

#[test]
fn partition_of_the_tallest_image() {
    let parts = partition(i32::MAX as u32, 4, i32::MAX);
    assert_eq!(
        parts,
        vec![
            assignment(0, (0, 536870912), (0, i32::MAX)),
            assignment(1, (536870912, 1073741824), (0, i32::MAX)),
            assignment(2, (1073741824, 1610612736), (0, i32::MAX)),
            assignment(3, (1610612736, i32::MAX), (0, i32::MAX)),
        ]
    );
}

#[test]
fn partition_covers_every_row_once() {
    for height in 1..40u32 {
        for workers in 1..12i32 {
            let parts = partition(height, workers, 2);
            assert_eq!(parts.len(), workers as usize);
            let mut owners = vec![0u32; height as usize];
            for part in &parts {
                for row in part.owned.start..part.owned.end {
                    owners[row as usize] += 1;
                }
            }
            assert!(owners.iter().all(|&n| n == 1));
        }
    }
}

#[test]
fn partition_halo_holds_the_owned_rows_and_stays_inside() {
    for height in 0..30u32 {
        for workers in 1..9i32 {
            for half_kernel in 0..4i32 {
                for part in partition(height, workers, half_kernel) {
                    assert!(0 <= part.halo.start && part.halo.start <= part.owned.start);
                    assert!(part.owned.start <= part.owned.end);
                    assert!(part.owned.end <= part.halo.end && part.halo.end <= height as i32);
                    assert_eq!(part.halo.start, (part.owned.start - half_kernel).max(0));
                    assert_eq!(part.halo.end, (part.owned.end + half_kernel).min(height as i32));
                }
            }
        }
    }
}

#[test]
fn serialize_chunk_gives_rows_pixels_and_channels_in_order() {
    let img = numbered_image(2, 3);
    assert_eq!(
        serialize_chunk(&img, 0, 3),
        vec![0u8, 0, 255, 1, 3, 254, 2, 6, 253, 3, 9, 252, 4, 12, 251, 5, 15, 250]
    );
    assert_eq!(serialize_chunk(&img, 1, 2), vec![2u8, 6, 253, 3, 9, 252]);
    assert_eq!(serialize_chunk(&img, 2, 2), Vec::<u8>::new());
}

#[test]
fn deserialize_chunk_reads_bytes_in_the_same_order() {
    let data = vec![1u8, 2, 3, 4, 5, 6, 7, 8, 9, 10, 11, 12];
    let img = deserialize_chunk(&data, 2, 2);
    assert_eq!(img.width, 2);
    assert_eq!(img.height, 2);
    assert_eq!(*img.get_pixel(0, 0), Rgb([1u8, 2, 3]));
    assert_eq!(*img.get_pixel(1, 0), Rgb([4u8, 5, 6]));
    assert_eq!(*img.get_pixel(0, 1), Rgb([7u8, 8, 9]));
    assert_eq!(*img.get_pixel(1, 1), Rgb([10u8, 11, 12]));
}

#[test]
fn deserialize_chunk_of_nothing() {
    let img = deserialize_chunk(&[], 3, 0);
    assert_eq!(img.width, 3);
    assert_eq!(img.height, 0);
}

#[test]
fn codec_round_trip_gives_the_region_back() {
    let img = numbered_image(5, 7);
    for start in 0..=7i32 {
        for end in start..=7i32 {
            let bytes = serialize_chunk(&img, start, end);
            assert_eq!(bytes.len(), 5 * (end - start) as usize * 3);
            let back = deserialize_chunk(&bytes, 5, (end - start) as u32);
            assert!(same_pixels(&back, &extract_chunk(&img, start, end)));
            assert_eq!(serialize_chunk(&back, 0, end - start), bytes);
        }
    }
}

#[test]
fn extract_chunk_copies_the_rows() {
    let img = numbered_image(3, 4);
    let chunk = extract_chunk(&img, 1, 3);
    assert_eq!(chunk.width, 3);
    assert_eq!(chunk.height, 2);
    for y in 0..2 {
        for x in 0..3 {
            assert_eq!(chunk.get_pixel(x, y), img.get_pixel(x, y + 1));
        }
    }
    assert_eq!(extract_chunk(&img, 4, 4).height, 0);
}

#[test]
fn process_chunk_filters_the_rows_asked_for() {
    let mut img = Image::new_empty(3, 3);
    for y in 0..3u32 {
        for x in 0..3u32 {
            let v = (3 * y + x + 1) as u8;
            img.put_pixel(x, y, Rgb([v, 10 * v, 255 - v]));
        }
    }
    let rows = process_chunk(&img, 1, 3, 3);
    assert_eq!(rows.width, 3);
    assert_eq!(rows.height, 2);
    let expected = [
        [Rgb([5u8, 50, 250]), Rgb([5u8, 50, 250]), Rgb([5u8, 50, 250])],
        [Rgb([5u8, 50, 250]), Rgb([6u8, 60, 249]), Rgb([6u8, 60, 249])],
    ];
    for y in 0..2 {
        for x in 0..3 {
            assert_eq!(*rows.get_pixel(x, y), expected[y as usize][x as usize]);
        }
    }
    assert_eq!(process_chunk(&img, 2, 2, 3).height, 0);
}
