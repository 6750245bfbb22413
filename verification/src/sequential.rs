use vstd::prelude::*;
use crate::shared::filter_row_into;
use crate::shared::filtered;
use crate::shared::Image;
use crate::shared::window_fits;

verus! {

/// Applies the median filter to the whole image, one row after another.
pub fn apply_median_filter(img: &Image, kernel_size: usize) -> (output: Image)
    requires
        img.wf(),
        window_fits(img.width, img.height, kernel_size),
    ensures
        output.wf(),
        output.width == img.width,
        output.height == img.height,
        output@ == filtered(img@, kernel_size as int / 2),
{
    let ghost radius: int = kernel_size as int / 2;
    let mut output = Image::new_empty(img.width, img.height);
    let mut y: u32 = 0;
    while y < img.height
        invariant
            img.wf(),
            output.wf(),
            output.width == img.width,
            output.height == img.height,
            window_fits(img.width, img.height, kernel_size),
            radius == kernel_size as int / 2,
            y <= img.height,
            output@.len() == img.height,
            forall|j: int| 0 <= j < y ==> output@[j] == filtered(img@, radius)[j],
        decreases img.height - y,
    {
        filter_row_into(img, y, kernel_size, &mut output, y);
        y += 1;
    }
    proof {
        assert(output@ =~= filtered(img@, radius));
    }
    output
}

} // verus!
