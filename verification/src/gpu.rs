use vstd::prelude::*;
use vstd::arithmetic::div_mod::lemma_fundamental_div_mod_converse;
use crate::shared::channels;
use crate::shared::Image;
use crate::shared::Raster;
use crate::shared::rectangular;
use crate::shared::Triple;
use image::Rgb;

verus! {

/// The side of the square of pixels that one workgroup of the compute
/// kernel handles.
pub const WORKGROUP_SIZE: u32 = 8;

/// A pixel as one word: red in bits 16 to 23, green in bits 8 to 15, blue
/// in bits 0 to 7.
pub open spec fn packed(p: Triple) -> u32 {
    (p.0 as int * 65536 + p.1 as int * 256 + p.2 as int) as u32
}

/// The pixel that a word stands for; bits 24 to 31 are not read.
pub open spec fn unpacked(word: u32) -> Triple {
    (((word / 65536) % 256) as u8, ((word / 256) % 256) as u8, (word % 256) as u8)
}

/// Unpacking a packed pixel gives the pixel back.
pub proof fn lemma_unpack_pack(p: Triple)
    ensures
        unpacked(packed(p)) == p,
{
}

/// Packs a pixel into a word.
pub fn pack_pixel(p: &Rgb<u8>) -> (word: u32)
    ensures
        word == packed(channels(*p)),
{
    let r: u32 = p.0[0] as u32;
    let g: u32 = p.0[1] as u32;
    let b: u32 = p.0[2] as u32;
    proof {
        assert((r << 16) | (g << 8) | b == r * 65536 + g * 256 + b) by (bit_vector)
            requires
                r < 256,
                g < 256,
                b < 256,
        ;
    }
    (r << 16) | (g << 8) | b
}

/// Unpacks a word into a pixel.
pub fn unpack_pixel(word: u32) -> (p: Rgb<u8>)
    ensures
        channels(p) == unpacked(word),
{
    proof {
        assert((word >> 16) & 0xFF == (word / 65536) % 256) by (bit_vector);
        assert((word >> 8) & 0xFF == (word / 256) % 256) by (bit_vector);
        assert(word & 0xFF == word % 256) by (bit_vector);
    }
    let r: u8 = ((word >> 16) & 0xFF) as u8;
    let g: u8 = ((word >> 8) & 0xFF) as u8;
    let b: u8 = (word & 0xFF) as u8;
    Rgb([r, g, b])
}

/// The words of a raster whose rows have `width` pixels, row after row.
pub open spec fn packed_raster(g: Raster, width: int) -> Seq<u32> {
    Seq::new((g.len() * width) as nat, |i: int| packed(g[i / width][i % width]))
}

/// The raster of the given dimensions that words in that order stand for.
pub open spec fn unpacked_raster(words: Seq<u32>, width: int, height: int) -> Raster {
    Seq::new(
        height as nat,
        |y: int| Seq::new(width as nat, |x: int| unpacked(words[y * width + x])),
    )
}

/// The pixel at `(x, y)` has its place among the words of `height` rows,
/// and the place gives back `x` and `y`.
pub proof fn lemma_word_index(width: int, height: int, x: int, y: int)
    requires
        0 <= x < width,
        0 <= y < height,
    ensures
        0 <= y * width + x < height * width,
        (y * width + x) % width == x,
        (y * width + x) / width == y,
{
    assert(0 <= y * width <= (height - 1) * width) by (nonlinear_arith)
        requires
            0 <= y <= height - 1,
            width > 0,
    ;
    assert((height - 1) * width == height * width - width) by (nonlinear_arith);
    lemma_fundamental_div_mod_converse(y * width + x, width, y, x);
}

/// Unpacking the words of a raster gives the raster back.
pub proof fn lemma_unpack_pack_raster(g: Raster, width: int)
    requires
        width >= 0,
        rectangular(g, width),
    ensures
        unpacked_raster(packed_raster(g, width), width, g.len() as int) == g,
{
    let back = unpacked_raster(packed_raster(g, width), width, g.len() as int);
    assert forall|y: int| 0 <= y < g.len() implies back[y] =~= g[y] by {
        assert forall|x: int| 0 <= x < width implies back[y][x] == g[y][x] by {
            lemma_word_index(width, g.len() as int, x, y);
            lemma_unpack_pack(g[y][x]);
        }
    }
    assert(back =~= g);
}

/// The pixels of the image as words, for the compute kernel's input.
pub fn pack_pixels(img: &Image) -> (words: Vec<u32>)
    requires
        img.wf(),
    ensures
        words@ == packed_raster(img@, img.width as int),
{
    let ghost width: int = img.width as int;
    let ghost height: int = img.height as int;
    let ghost all = packed_raster(img@, width);
    let mut words: Vec<u32> = Vec::new();
    let mut y: u32 = 0;
    proof {
        assert(0 * width + 0 == 0) by (nonlinear_arith);
        assert(words@ =~= all.take(0));
    }
    while y < img.height
        invariant
            img.wf(),
            width == img.width,
            height == img.height,
            all == packed_raster(img@, width),
            y <= img.height,
            words@ == all.take(y * width + 0),
        decreases img.height - y,
    {
        let mut x: u32 = 0;
        while x < img.width
            invariant
                img.wf(),
                width == img.width,
                height == img.height,
                all == packed_raster(img@, width),
                y < img.height,
                x <= img.width,
                words@ == all.take(y * width + x),
            decreases img.width - x,
        {
            proof {
                lemma_word_index(width, height, x as int, y as int);
            }
            words.push(pack_pixel(img.get_pixel(x, y)));
            proof {
                assert(words@ =~= all.take(y * width + (x + 1)));
            }
            x += 1;
        }
        proof {
            assert(y * width + width == (y + 1) * width + 0) by (nonlinear_arith);
        }
        y += 1;
    }
    proof {
        assert(words@ =~= all);
    }
    words
}

/// The image of the given dimensions that the compute kernel's output
/// words stand for.
pub fn unpack_pixels(words: &[u32], width: u32, height: u32) -> (output: Image)
    requires
        words@.len() == width * height,
        width * height * 3 <= isize::MAX,
    ensures
        output.wf(),
        output.width == width,
        output.height == height,
        output@ == unpacked_raster(words@, width as int, height as int),
{
    let ghost all = unpacked_raster(words@, width as int, height as int);
    let mut output = Image::new_empty(width, height);
    let mut y: u32 = 0;
    while y < height
        invariant
            words@.len() == width * height,
            width * height * 3 <= isize::MAX,
            output.wf(),
            output.width == width,
            output.height == height,
            all == unpacked_raster(words@, width as int, height as int),
            y <= height,
            forall|j: int| 0 <= j < y ==> output@[j] == all[j],
        decreases height - y,
    {
        let ghost row: int = y as int;
        let mut x: u32 = 0;
        while x < width
            invariant
                words@.len() == width * height,
                width * height * 3 <= isize::MAX,
                output.wf(),
                output.width == width,
                output.height == height,
                all == unpacked_raster(words@, width as int, height as int),
                y < height,
                row == y,
                x <= width,
                forall|j: int| 0 <= j < y ==> output@[j] == all[j],
                forall|i: int| 0 <= i < x ==> #[trigger] output@[row][i] == all[row][i],
            decreases width - x,
        {
            proof {
                lemma_word_index(width as int, height as int, x as int, y as int);
                assert(height * width == width * height) by (nonlinear_arith);
                assert(0 <= y * width) by (nonlinear_arith)
                    requires
                        0 <= y,
                        0 <= width,
                ;
            }
            let i: usize = y as usize * width as usize + x as usize;
            output.put_pixel(x, y, unpack_pixel(words[i]));
            x += 1;
        }
        proof {
            assert(output@[row] =~= all[row]);
        }
        y += 1;
    }
    proof {
        assert(output@ =~= all);
    }
    output
}

/// The number of workgroups that cover `extent` pixels in one direction.
pub fn workgroup_count(extent: u32) -> (count: u32)
    ensures
        count == (extent + WORKGROUP_SIZE - 1) / (WORKGROUP_SIZE as int),
{
    ((extent as u64 + WORKGROUP_SIZE as u64 - 1) / WORKGROUP_SIZE as u64) as u32
}

} // verus!
