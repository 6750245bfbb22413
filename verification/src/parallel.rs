use vstd::prelude::*;
use crate::shared::collect_neighborhood;
use crate::shared::filtered;
use crate::shared::filtered_row;
use crate::shared::Image;
use crate::shared::median_rgb;
use crate::shared::triples;
use crate::shared::window_fits;
use image::Rgb;
use rayon::iter::IntoParallelIterator;
use rayon::iter::ParallelIterator;

verus! {

/// Row `y` of the median filter of the image, with its number.
pub fn filter_row(img: &Image, y: u32, kernel_size: usize) -> (row: (u32, Vec<Rgb<u8>>))
    requires
        img.wf(),
        y < img.height,
        window_fits(img.width, img.height, kernel_size),
    ensures
        row.0 == y,
        triples(row.1@) == filtered_row(img@, y as int, kernel_size as int / 2),
{
    let ghost target = filtered_row(img@, y as int, kernel_size as int / 2);
    let mut row_pixels: Vec<Rgb<u8>> = Vec::new();
    let mut x: u32 = 0;
    while x < img.width
        invariant
            img.wf(),
            y < img.height,
            window_fits(img.width, img.height, kernel_size),
            target == filtered_row(img@, y as int, kernel_size as int / 2),
            x <= img.width,
            row_pixels@.len() == x,
            triples(row_pixels@) == target.take(x as int),
        decreases img.width - x,
    {
        let neighborhood = collect_neighborhood(img, x, y, kernel_size);
        proof {
            let side = 2 * (kernel_size as int / 2) + 1;
            assert(side * side > 0) by (nonlinear_arith)
                requires
                    side > 0,
            ;
            assert(triples(neighborhood@).len() == neighborhood@.len());
        }
        let median_pixel = median_rgb(neighborhood.as_slice());
        let ghost before = row_pixels@;
        row_pixels.push(median_pixel);
        proof {
            assert(target.len() == img.width);
            assert forall|i: int| 0 <= i < x + 1 implies triples(row_pixels@)[i] == target[i] by {
                if i < x {
                    assert(triples(before)[i] == target.take(x as int)[i]);
                }
            }
            assert(triples(row_pixels@) =~= target.take(x + 1));
        }
        x += 1;
    }
    proof {
        assert(triples(row_pixels@) =~= target);
    }
    (y, row_pixels)
}

/// Some entry of `rows` carries the number `y`.
pub open spec fn has_row(rows: Seq<(u32, Vec<Rgb<u8>>)>, y: int) -> bool {
    exists|i: int| 0 <= i < rows.len() && (#[trigger] rows[i]).0 == y
}

/// rayon's `into_par_iter`, `map` and `collect` on the range of the rows:
/// the result holds what `filter_row` returns for each row of the image,
/// each row once, in an order that is not stated.
#[verifier::external_body]
fn filter_rows_in_parallel(img: &Image, kernel_size: usize) -> (rows: Vec<(u32, Vec<Rgb<u8>>)>)
    requires
        img.wf(),
        window_fits(img.width, img.height, kernel_size),
    ensures
        rows@.len() == img.height,
        forall|i: int|
            0 <= i < rows@.len() ==> (#[trigger] rows@[i]).0 < img.height && triples(rows@[i].1@)
                == filtered_row(img@, rows@[i].0 as int, kernel_size as int / 2),
        forall|y: int| 0 <= y < img.height ==> #[trigger] has_row(rows@, y),
{
    (0..img.height).into_par_iter().map(|y| filter_row(img, y, kernel_size)).collect()
}

/// Writes a row of pixels to row `y` of `output`.
fn write_row(output: &mut Image, y: u32, row_pixels: &Vec<Rgb<u8>>)
    requires
        old(output).wf(),
        y < old(output).height,
        row_pixels@.len() == old(output).width,
    ensures
        final(output).wf(),
        final(output).width == old(output).width,
        final(output).height == old(output).height,
        final(output)@ == old(output)@.update(y as int, triples(row_pixels@)),
{
    let ghost row: int = y as int;
    let mut x: usize = 0;
    while x < row_pixels.len()
        invariant
            output.wf(),
            output.width == old(output).width,
            output.height == old(output).height,
            y < output.height,
            row == y,
            row_pixels@.len() == output.width,
            x <= row_pixels@.len(),
            forall|j: int| 0 <= j < output.height && j != row ==> output@[j] == old(output)@[j],
            forall|i: int|
                0 <= i < x ==> #[trigger] output@[row][i] == triples(row_pixels@)[i],
        decreases row_pixels@.len() - x,
    {
        output.put_pixel(x as u32, y, row_pixels[x]);
        x += 1;
    }
    proof {
        assert(output@[row] =~= triples(row_pixels@));
        assert(output@ =~= old(output)@.update(row, triples(row_pixels@)));
    }
}

/// Applies the median filter to the whole image, the rows computed in
/// parallel.
pub fn apply_median_filter(img: &Image, kernel_size: usize) -> (output: Image)
    requires
        img.wf(),
        window_fits(img.width, img.height, kernel_size),
    ensures
        output.wf(),
        output.width == img.width,
        output.height == img.height,
        output@ == filtered(img@, kernel_size as int / 2),
{
    let ghost radius: int = kernel_size as int / 2;
    let ghost target = filtered(img@, radius);
    let mut output = Image::new_empty(img.width, img.height);
    let rows = filter_rows_in_parallel(img, kernel_size);
    let mut i: usize = 0;
    while i < rows.len()
        invariant
            img.wf(),
            output.wf(),
            output.width == img.width,
            output.height == img.height,
            radius == kernel_size as int / 2,
            target == filtered(img@, radius),
            i <= rows@.len(),
            rows@.len() == img.height,
            forall|k: int|
                0 <= k < rows@.len() ==> (#[trigger] rows@[k]).0 < img.height && triples(
                    rows@[k].1@,
                ) == filtered_row(img@, rows@[k].0 as int, radius),
            forall|y: int| 0 <= y < img.height ==> #[trigger] has_row(rows@, y),
            forall|k: int|
                0 <= k < i ==> output@[(#[trigger] rows@[k]).0 as int] == target[rows@[k].0 as int],
        decreases rows@.len() - i,
    {
        let ghost before = output@;
        proof {
            assert(triples(rows@[i as int].1@).len() == rows@[i as int].1@.len());
            assert(filtered_row(img@, rows@[i as int].0 as int, radius).len() == img.width);
        }
        write_row(&mut output, rows[i].0, &rows[i].1);
        proof {
            assert forall|k: int| 0 <= k <= i implies output@[(#[trigger] rows@[k]).0 as int]
                == target[rows@[k].0 as int] by {
                if rows@[k].0 != rows@[i as int].0 {
                    assert(output@[rows@[k].0 as int] == before[rows@[k].0 as int]);
                }
            }
        }
        i += 1;
    }
    proof {
        assert forall|y: int| 0 <= y < img.height implies output@[y] == target[y] by {
            assert(has_row(rows@, y));
            let k = choose|k: int| 0 <= k < rows@.len() && (#[trigger] rows@[k]).0 == y;
            assert(output@[rows@[k].0 as int] == target[rows@[k].0 as int]);
        }
        assert(output@ =~= target);
    }
    output
}

} // verus!
