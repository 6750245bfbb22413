use vstd::prelude::*;
use vstd::arithmetic::div_mod::lemma_fundamental_div_mod_converse;
use vstd::relations::sorted_by;
use vstd::relations::total_ordering;
use vstd::seq_lib::lemma_sorted_unique;
use image::Rgb;
use image::RgbImage;
use rand::Rng;
use rand::rngs::ThreadRng;

verus! {

/// `image::Rgb` as the crate defines it: a pixel is an array of its three
/// channels.
#[verifier::external_type_specification]
#[verifier::reject_recursive_types(T)]
pub struct ExRgb<T>(Rgb<T>);

/// A pixel as a triple of its red, green and blue bytes.
pub type Triple = (u8, u8, u8);

/// A raster as its rows from top to bottom, each a row of pixels from left
/// to right.
pub type Raster = Seq<Seq<Triple>>;

/// The three channels of a pixel.
pub open spec fn channels(p: Rgb<u8>) -> Triple {
    (p.0[0], p.0[1], p.0[2])
}

/// The coordinates that lie inside a raster of the given dimensions.
pub open spec fn in_bounds(x: int, y: int, dims: (u32, u32)) -> bool {
    0 <= x < dims.0 && 0 <= y < dims.1
}

/// An `image::RgbImage`, kept whole. What it holds is known through
/// `buffer_dimensions` and `buffer_pixels` alone.
#[verifier::external_body]
pub struct PixelBuffer {
    inner: RgbImage,
}

/// The width and the height of a buffer.
pub uninterp spec fn buffer_dimensions(buf: PixelBuffer) -> (u32, u32);

/// The pixels of a buffer, by column and row.
pub uninterp spec fn buffer_pixels(buf: PixelBuffer) -> Map<(int, int), Triple>;

/// `RgbImage::new`: a buffer of the given dimensions whose every pixel is
/// black. The outside function panics when the byte length overflows, and
/// the allocation fails above `isize::MAX` bytes.
#[verifier::external_body]
fn buffer_new(width: u32, height: u32) -> (buf: PixelBuffer)
    requires
        width * height * 3 <= isize::MAX,
    ensures
        buffer_dimensions(buf) == (width, height),
        buffer_pixels(buf) == Map::new(
            |k: (int, int)| in_bounds(k.0, k.1, (width, height)),
            |k: (int, int)| (0u8, 0u8, 0u8),
        ),
{
    PixelBuffer { inner: RgbImage::new(width, height) }
}

/// `RgbImage::get_pixel`: the pixel at column `x` of row `y`. The outside
/// function panics outside the buffer's dimensions.
#[verifier::external_body]
fn buffer_get(buf: &PixelBuffer, x: u32, y: u32) -> (p: &Rgb<u8>)
    requires
        in_bounds(x as int, y as int, buffer_dimensions(*buf)),
    ensures
        channels(*p) == buffer_pixels(*buf)[(x as int, y as int)],
{
    buf.inner.get_pixel(x, y)
}

/// `RgbImage::put_pixel`: overwrites the pixel at column `x` of row `y` and
/// nothing else. The outside function panics outside the buffer's
/// dimensions.
#[verifier::external_body]
fn buffer_put(buf: &mut PixelBuffer, x: u32, y: u32, pixel: Rgb<u8>)
    requires
        in_bounds(x as int, y as int, buffer_dimensions(*old(buf))),
    ensures
        buffer_dimensions(*final(buf)) == buffer_dimensions(*old(buf)),
        buffer_pixels(*final(buf)) == buffer_pixels(*old(buf)).insert(
            (x as int, y as int),
            channels(pixel),
        ),
{
    buf.inner.put_pixel(x, y, pixel)
}

/// An RGB raster with its dimensions.
pub struct Image {
    pub data: PixelBuffer,
    pub width: u32,
    pub height: u32,
}

impl View for Image {
    type V = Raster;

    open spec fn view(&self) -> Raster {
        Seq::new(
            self.height as nat,
            |y: int| Seq::new(self.width as nat, |x: int| buffer_pixels(self.data)[(x, y)]),
        )
    }
}

impl Image {
    /// The fields agree with the buffer, and the buffer holds exactly the
    /// pixels inside its dimensions.
    pub open spec fn wf(self) -> bool {
        &&& buffer_dimensions(self.data) == (self.width, self.height)
        &&& buffer_pixels(self.data).dom() =~= Set::new(
            |k: (int, int)| in_bounds(k.0, k.1, (self.width, self.height)),
        )
        &&& self.width * self.height * 3 <= isize::MAX
    }

    /// Creates a black image of the given dimensions.
    pub fn new_empty(width: u32, height: u32) -> (img: Image)
        requires
            width * height * 3 <= isize::MAX,
        ensures
            img.wf(),
            img.width == width,
            img.height == height,
            img@ == blank(width as nat, height as nat),
    {
        let img = Image { data: buffer_new(width, height), width, height };
        assert(img@ =~~= blank(width as nat, height as nat));
        img
    }

    /// The pixel at column `x` of row `y`.
    pub fn get_pixel(&self, x: u32, y: u32) -> (p: &Rgb<u8>)
        requires
            self.wf(),
            x < self.width,
            y < self.height,
        ensures
            channels(*p) == self@[y as int][x as int],
    {
        buffer_get(&self.data, x, y)
    }

    /// Overwrites the pixel at column `x` of row `y`.
    pub fn put_pixel(&mut self, x: u32, y: u32, pixel: Rgb<u8>)
        requires
            old(self).wf(),
            x < old(self).width,
            y < old(self).height,
        ensures
            final(self).wf(),
            final(self).width == old(self).width,
            final(self).height == old(self).height,
            final(self)@ == old(self)@.update(
                y as int,
                old(self)@[y as int].update(x as int, channels(pixel)),
            ),
    {
        buffer_put(&mut self.data, x, y, pixel);
        assert(self@ =~~= old(self)@.update(
            y as int,
            old(self)@[y as int].update(x as int, channels(pixel)),
        ));
    }

    /// The pixel at `(x, y)`, with mirror padding for coordinates outside
    /// the image.
    pub fn get_pixel_padded(&self, x: i32, y: i32) -> (p: Rgb<u8>)
        requires
            self.wf(),
            self.width > 0,
            self.height > 0,
        ensures
            channels(p) == padded(self@, x as int, y as int),
    {
        let px = mirror_index(x, self.width);
        let py = mirror_index(y, self.height);
        *self.get_pixel(px, py)
    }
}

/// Where a coordinate that may lie outside `[0, limit)` is read instead:
/// one below 0 is reflected at 0, one at or above `limit` is reflected at
/// the last coordinate, and what comes of it is clamped into
/// `[0, limit - 1]`.
pub open spec fn mirror(c: int, limit: int) -> int
    recommends
        limit > 0,
{
    let m = if c < 0 {
        -c
    } else if c >= limit {
        2 * limit - c - 2
    } else {
        c
    };
    if m < 0 {
        0
    } else if m > limit - 1 {
        limit - 1
    } else {
        m
    }
}

/// The width of a raster that has a row.
pub open spec fn raster_width(g: Raster) -> int
    recommends
        g.len() > 0,
{
    g[0].len() as int
}

/// Every row of the raster has `width` pixels.
pub open spec fn rectangular(g: Raster, width: int) -> bool {
    forall|y: int| 0 <= y < g.len() ==> (#[trigger] g[y]).len() == width
}

/// The pixel read at `(x, y)` of a raster with a row and a column, with
/// mirror padding outside it.
pub open spec fn padded(g: Raster, x: int, y: int) -> Triple
    recommends
        g.len() > 0,
        raster_width(g) > 0,
{
    g[mirror(y, g.len() as int)][mirror(x, raster_width(g))]
}

/// Computes `mirror(c, limit)`.
fn mirror_index(c: i32, limit: u32) -> (m: u32)
    requires
        limit > 0,
    ensures
        m == mirror(c as int, limit as int),
        m < limit,
{
    let c: i64 = c as i64;
    let limit: i64 = limit as i64;
    let m: i64 = if c < 0 {
        -c
    } else if c >= limit {
        2 * limit - c - 2
    } else {
        c
    };
    if m < 0 {
        0
    } else if m > limit - 1 {
        (limit - 1) as u32
    } else {
        m as u32
    }
}

/// The raster of the given dimensions whose every pixel is black.
pub open spec fn blank(width: nat, height: nat) -> Raster {
    Seq::new(height, |y: int| Seq::new(width, |x: int| (0u8, 0u8, 0u8)))
}

/// The order in which channel values are sorted: the usual one on bytes.
pub open spec fn byte_leq() -> spec_fn(u8, u8) -> bool {
    |a: u8, b: u8| a <= b
}

/// The median of a non-empty sequence of bytes: the element at index
/// `len / 2` of the sequence put in ascending order.
pub open spec fn median_of(values: Seq<u8>) -> u8
    recommends
        values.len() > 0,
{
    values.sort_by(byte_leq())[values.len() as int / 2]
}

/// `<[u8]>::sort_unstable`: afterwards the slice holds the same bytes,
/// each as often as before, in ascending order.
#[verifier::external_body]
fn sort_bytes(values: &mut [u8])
    ensures
        final(values)@.to_multiset() == old(values)@.to_multiset(),
        sorted_by(final(values)@, byte_leq()),
{
    values.sort_unstable();
}

pub proof fn lemma_byte_leq_total()
    ensures
        total_ordering(byte_leq()),
{
}

/// Sorts `values` in place and returns their median.
pub fn median(values: &mut [u8]) -> (m: u8)
    requires
        old(values)@.len() > 0,
    ensures
        m == median_of(old(values)@),
        final(values)@ == old(values)@.sort_by(byte_leq()),
{
    sort_bytes(values);
    proof {
        lemma_byte_leq_total();
        let before = old(values)@;
        before.lemma_sort_by_ensures(byte_leq());
        lemma_sorted_unique(values@, before.sort_by(byte_leq()), byte_leq());
        before.to_multiset_ensures();
        values@.to_multiset_ensures();
    }
    values[values.len() / 2]
}

/// Channel `c` of a pixel: 0 is red, 1 green, anything else blue.
pub open spec fn channel(p: Triple, c: int) -> u8 {
    if c == 0 {
        p.0
    } else if c == 1 {
        p.1
    } else {
        p.2
    }
}

/// The values that a run of pixels holds in channel `c`.
pub open spec fn channel_values(pixels: Seq<Triple>, c: int) -> Seq<u8> {
    Seq::new(pixels.len(), |i: int| channel(pixels[i], c))
}

/// The pixel made of the medians of the three channels of a run of pixels.
pub open spec fn median_pixel(pixels: Seq<Triple>) -> Triple
    recommends
        pixels.len() > 0,
{
    (
        median_of(channel_values(pixels, 0)),
        median_of(channel_values(pixels, 1)),
        median_of(channel_values(pixels, 2)),
    )
}

/// A run of pixels as triples.
pub open spec fn triples(pixels: Seq<Rgb<u8>>) -> Seq<Triple> {
    Seq::new(pixels.len(), |i: int| channels(pixels[i]))
}

/// The values that `pixels` hold in channel `c`, which is 0, 1 or 2.
fn channel_of_each(pixels: &[Rgb<u8>], c: usize) -> (values: Vec<u8>)
    requires
        c < 3,
    ensures
        values@ == channel_values(triples(pixels@), c as int),
{
    let mut values: Vec<u8> = Vec::new();
    let mut i: usize = 0;
    while i < pixels.len()
        invariant
            c < 3,
            i <= pixels.len(),
            values@ == channel_values(triples(pixels@), c as int).take(i as int),
        decreases pixels.len() - i,
    {
        values.push(pixels[i].0[c]);
        proof {
            assert(values@ =~= channel_values(triples(pixels@), c as int).take(i + 1));
        }
        i += 1;
    }
    proof {
        assert(values@ =~= channel_values(triples(pixels@), c as int));
    }
    values
}

/// The per-channel median of a non-empty run of pixels.
pub fn median_rgb(pixels: &[Rgb<u8>]) -> (m: Rgb<u8>)
    requires
        pixels@.len() > 0,
    ensures
        channels(m) == median_pixel(triples(pixels@)),
{
    let mut r_values = channel_of_each(pixels, 0);
    let mut g_values = channel_of_each(pixels, 1);
    let mut b_values = channel_of_each(pixels, 2);
    let r = median(r_values.as_mut_slice());
    let g = median(g_values.as_mut_slice());
    let b = median(b_values.as_mut_slice());
    Rgb([r, g, b])
}

/// The pixels of the square window of the given radius round `(x, y)`, row
/// by row from the top, each row from the left, read with mirror padding.
pub open spec fn window(g: Raster, x: int, y: int, radius: int) -> Seq<Triple>
    recommends
        g.len() > 0,
        raster_width(g) > 0,
        radius >= 0,
{
    let side = 2 * radius + 1;
    Seq::new(
        (side * side) as nat,
        |i: int| padded(g, x + i % side - radius, y + i / side - radius),
    )
}

/// Collects the window of radius `kernel_size / 2` round `(x, y)`.
pub fn collect_neighborhood(img: &Image, x: u32, y: u32, kernel_size: usize) -> (pixels: Vec<
    Rgb<u8>,
>)
    requires
        img.wf(),
        img.width > 0,
        img.height > 0,
        x + kernel_size / 2 <= i32::MAX,
        y + kernel_size / 2 <= i32::MAX,
    ensures
        triples(pixels@) == window(img@, x as int, y as int, kernel_size as int / 2),
{
    let radius: i64 = (kernel_size / 2) as i64;
    let ghost side: int = 2 * radius + 1;
    let ghost all = window(img@, x as int, y as int, radius as int);
    let mut pixels: Vec<Rgb<u8>> = Vec::new();
    let mut dy: i64 = -radius;
    proof {
        assert((dy + radius) * side == 0) by (nonlinear_arith)
            requires
                dy + radius == 0,
        ;
        assert(triples(pixels@) =~= all.take(0));
    }
    while dy <= radius
        invariant
            img.wf(),
            img.width > 0,
            img.height > 0,
            radius == kernel_size / 2,
            x + radius <= i32::MAX,
            y + radius <= i32::MAX,
            side == 2 * radius + 1,
            all == window(img@, x as int, y as int, radius as int),
            -radius <= dy <= radius + 1,
            pixels@.len() == (dy + radius) * side,
            triples(pixels@) == all.take((dy + radius) * side),
        decreases radius - dy + 1,
    {
        let mut dx: i64 = -radius;
        while dx <= radius
            invariant
                img.wf(),
                img.width > 0,
                img.height > 0,
                radius == kernel_size / 2,
                x + radius <= i32::MAX,
                y + radius <= i32::MAX,
                side == 2 * radius + 1,
                all == window(img@, x as int, y as int, radius as int),
                -radius <= dy <= radius,
                -radius <= dx <= radius + 1,
                pixels@.len() == (dy + radius) * side + (dx + radius),
                triples(pixels@) == all.take((dy + radius) * side + (dx + radius)),
            decreases radius - dx + 1,
        {
            let px: i32 = (x as i64 + dx) as i32;
            let py: i32 = (y as i64 + dy) as i32;
            let ghost at: int = (dy + radius) * side + (dx + radius);
            proof {
                lemma_fundamental_div_mod_converse(at, side, dy + radius, dx + radius);
                assert((dy + radius) * side + side <= (2 * radius) * side + side)
                    by (nonlinear_arith)
                    requires
                        dy + radius <= 2 * radius,
                        side > 0,
                ;
                assert((2 * radius) * side + side == side * side) by (nonlinear_arith)
                    requires
                        side == 2 * radius + 1,
                ;
                assert(0 <= (dy + radius) * side) by (nonlinear_arith)
                    requires
                        dy + radius >= 0,
                        side > 0,
                ;
            }
            let pixel = img.get_pixel_padded(px, py);
            pixels.push(pixel);
            proof {
                assert(triples(pixels@) =~= all.take(at + 1));
            }
            dx += 1;
        }
        proof {
            assert((dy + radius) * side + side == (dy + 1 + radius) * side)
                by (nonlinear_arith);
        }
        dy += 1;
    }
    proof {
        assert((2 * radius + 1) * side == side * side) by (nonlinear_arith)
            requires
                side == 2 * radius + 1,
        ;
        assert(triples(pixels@) =~= all);
    }
    pixels
}

/// The median filter's value at `(x, y)`: the per-channel median of the
/// window round it.
pub open spec fn filtered_pixel(g: Raster, x: int, y: int, radius: int) -> Triple {
    median_pixel(window(g, x, y, radius))
}

/// Row `y` of the median filter's output.
pub open spec fn filtered_row(g: Raster, y: int, radius: int) -> Seq<Triple> {
    Seq::new(raster_width(g) as nat, |x: int| filtered_pixel(g, x, y, radius))
}

/// The median filter's output on a whole raster.
pub open spec fn filtered(g: Raster, radius: int) -> Raster {
    Seq::new(g.len(), |y: int| filtered_row(g, y, radius))
}

/// Every pixel of the raster is `color`.
pub open spec fn constant(g: Raster, color: Triple) -> bool {
    forall|x: int, y: int| 0 <= y < g.len() && 0 <= x < g[y].len() ==> #[trigger] g[y][x] == color
}

/// The median of equal values is that value.
pub proof fn lemma_median_of_equal(values: Seq<u8>, v: u8)
    requires
        values.len() > 0,
        forall|i: int| 0 <= i < values.len() ==> values[i] == v,
    ensures
        median_of(values) == v,
{
    lemma_byte_leq_total();
    values.lemma_sort_by_ensures(byte_leq());
    let sorted = values.sort_by(byte_leq());
    values.to_multiset_ensures();
    sorted.to_multiset_ensures();
    let m = sorted[values.len() as int / 2];
    assert(sorted.contains(m));
    assert(values.contains(m));
}

/// Filtering a raster of one colour gives the raster back, whatever the
/// radius of the window.
pub proof fn lemma_constant_fixed_point(g: Raster, width: int, color: Triple, radius: int)
    requires
        rectangular(g, width),
        constant(g, color),
        radius >= 0,
    ensures
        filtered(g, radius) == g,
{
    let out = filtered(g, radius);
    let side = 2 * radius + 1;
    assert(side * side > 0) by (nonlinear_arith)
        requires
            side > 0,
    ;
    assert forall|y: int| 0 <= y < g.len() implies out[y] =~= g[y] by {
        assert(raster_width(g) == width);
        assert forall|x: int| 0 <= x < width implies out[y][x] == g[y][x] by {
            let w = window(g, x, y, radius);
            assert forall|i: int| 0 <= i < w.len() implies w[i] == color by {
                let row = mirror(y + i / side - radius, g.len() as int);
                let column = mirror(x + i % side - radius, width);
                assert(w[i] == g[row][column]);
            }
            lemma_median_of_equal(channel_values(w, 0), color.0);
            lemma_median_of_equal(channel_values(w, 1), color.1);
            lemma_median_of_equal(channel_values(w, 2), color.2);
            assert(out[y][x] == median_pixel(w));
        }
    }
    assert(out =~= g);
}

/// Filtering a raster of a single pixel gives the pixel back, whatever
/// the radius of the window.
pub proof fn lemma_single_pixel_unchanged(g: Raster, radius: int)
    requires
        g.len() == 1,
        g[0].len() == 1,
        radius >= 0,
    ensures
        filtered(g, radius) == g,
{
    lemma_constant_fixed_point(g, 1, g[0][0], radius);
}

/// Every window coordinate of the image can be written as an `i32`.
pub open spec fn window_fits(width: u32, height: u32, kernel_size: usize) -> bool {
    width > 0 && height > 0 ==> width + kernel_size / 2 <= i32::MAX + 1 && height + kernel_size
        / 2 <= i32::MAX + 1
}

/// Whether every window coordinate of an image of the given dimensions
/// can be written as an `i32`.
pub fn fits_window(width: u32, height: u32, kernel_size: usize) -> (fits: bool)
    ensures
        fits == window_fits(width, height, kernel_size),
{
    if width == 0 || height == 0 {
        return true;
    }
    let radius: usize = kernel_size / 2;
    let limit: usize = 0x8000_0000;
    radius <= limit && width as usize <= limit - radius && height as usize <= limit - radius
}

/// The number of bytes that an image of the given dimensions takes, where
/// that number can be allocated.
pub fn byte_len(width: u32, height: u32) -> (len: Option<usize>)
    ensures
        len.is_some() <==> width * height * 3 <= isize::MAX,
        len.is_some() ==> len.unwrap() == width * height * 3,
{
    proof {
        assert(width * height <= 0xffff_ffff * 0xffff_ffff) by (nonlinear_arith)
            requires
                0 <= width <= 0xffff_ffff,
                0 <= height <= 0xffff_ffff,
        ;
    }
    let total: u128 = width as u128 * height as u128 * 3;
    if total <= isize::MAX as u128 {
        Some(total as usize)
    } else {
        None
    }
}

/// Computes row `y` of the median filter of `img` and writes it to row
/// `out_y` of `output`.
pub fn filter_row_into(
    img: &Image,
    y: u32,
    kernel_size: usize,
    output: &mut Image,
    out_y: u32,
)
    requires
        img.wf(),
        old(output).wf(),
        old(output).width == img.width,
        y < img.height,
        out_y < old(output).height,
        window_fits(img.width, img.height, kernel_size),
    ensures
        final(output).wf(),
        final(output).width == old(output).width,
        final(output).height == old(output).height,
        final(output)@ == old(output)@.update(
            out_y as int,
            filtered_row(img@, y as int, kernel_size as int / 2),
        ),
{
    let ghost radius: int = kernel_size as int / 2;
    let ghost row = filtered_row(img@, y as int, radius);
    let mut x: u32 = 0;
    proof {
        assert(row.take(0) + output@[out_y as int].skip(0) =~= output@[out_y as int]);
        assert(output@ =~= output@.update(out_y as int, output@[out_y as int]));
    }
    while x < img.width
        invariant
            img.wf(),
            output.wf(),
            output.width == img.width,
            output.width == old(output).width,
            output.height == old(output).height,
            y < img.height,
            out_y < output.height,
            window_fits(img.width, img.height, kernel_size),
            radius == kernel_size as int / 2,
            row == filtered_row(img@, y as int, radius),
            x <= img.width,
            output@ == old(output)@.update(
                out_y as int,
                row.take(x as int) + old(output)@[out_y as int].skip(x as int),
            ),
        decreases img.width - x,
    {
        let neighborhood = collect_neighborhood(img, x, y, kernel_size);
        proof {
            let side = 2 * radius + 1;
            assert(side * side > 0) by (nonlinear_arith)
                requires
                    side > 0,
            ;
            assert(triples(neighborhood@).len() == neighborhood@.len());
        }
        let median_pixel = median_rgb(neighborhood.as_slice());
        output.put_pixel(x, out_y, median_pixel);
        proof {
            assert(output@ =~~= old(output)@.update(
                out_y as int,
                row.take(x + 1) + old(output)@[out_y as int].skip(x + 1),
            ));
        }
        x += 1;
    }
    proof {
        assert(output@ =~~= old(output)@.update(out_y as int, row));
    }
}

/// `rand::rngs::ThreadRng`: a handle to the calling thread's generator, of
/// which nothing is known.
#[verifier::external_type_specification]
#[verifier::external_body]
pub struct ExThreadRng(ThreadRng);

/// `rand::thread_rng`: the calling thread's generator.
#[verifier::external_body]
fn thread_generator() -> ThreadRng {
    rand::thread_rng()
}

/// `Rng::gen_range` on `0..limit`: some number below `limit`. The outside
/// function panics on an empty range.
#[verifier::external_body]
fn random_below(rng: &mut ThreadRng, limit: u32) -> (n: u32)
    requires
        limit > 0,
    ensures
        n < limit,
{
    rng.gen_range(0..limit)
}

/// `Rng::gen_ratio` with one chance in two: one of the two truth values.
#[verifier::external_body]
fn random_bool(rng: &mut ThreadRng) -> bool {
    rng.gen_ratio(1, 2)
}

/// The colour of a corrupted pixel: white for salt, black for pepper.
pub open spec fn noise_color(salt: bool) -> Triple {
    if salt {
        (255u8, 255u8, 255u8)
    } else {
        (0u8, 0u8, 0u8)
    }
}

/// Where each corrupted pixel lies and whether it is salt: column, row,
/// salt.
pub type Sample = (int, int, bool);

/// The raster after the pixels of `samples` were corrupted one after
/// another.
pub open spec fn corrupted(g: Raster, samples: Seq<Sample>) -> Raster
    decreases samples.len(),
{
    if samples.len() == 0 {
        g
    } else {
        let before = corrupted(g, samples.drop_last());
        let s = samples.last();
        before.update(s.1, before[s.1].update(s.0, noise_color(s.2)))
    }
}

/// Every sample lies inside a raster of the given dimensions.
pub open spec fn samples_within(samples: Seq<Sample>, width: int, height: int) -> bool {
    forall|i: int|
        0 <= i < samples.len() ==> 0 <= (#[trigger] samples[i]).0 < width && 0 <= samples[i].1
            < height
}

/// Makes the pixel at column `x` of row `y` white for salt, black for
/// pepper.
pub fn corrupt_pixel(img: &mut Image, x: u32, y: u32, salt: bool)
    requires
        old(img).wf(),
        x < old(img).width,
        y < old(img).height,
    ensures
        final(img).wf(),
        final(img).width == old(img).width,
        final(img).height == old(img).height,
        final(img)@ == old(img)@.update(
            y as int,
            old(img)@[y as int].update(x as int, noise_color(salt)),
        ),
{
    let value: u8 = if salt {
        255
    } else {
        0
    };
    img.put_pixel(x, y, Rgb([value, value, value]));
}

/// Corrupts `pixels_to_corrupt` pixels, each chosen at random and made
/// white or black at random; one pixel may be chosen more than once.
pub fn add_noise(img: &mut Image, pixels_to_corrupt: u32)
    requires
        old(img).wf(),
        pixels_to_corrupt > 0 ==> old(img).width > 0 && old(img).height > 0,
    ensures
        final(img).wf(),
        final(img).width == old(img).width,
        final(img).height == old(img).height,
        exists|samples: Seq<Sample>|
            {
                &&& samples.len() == pixels_to_corrupt
                &&& samples_within(samples, old(img).width as int, old(img).height as int)
                &&& final(img)@ == #[trigger] corrupted(old(img)@, samples)
            },
{
    let mut rng = thread_generator();
    let ghost mut samples: Seq<Sample> = Seq::empty();
    let mut done: u32 = 0;
    while done < pixels_to_corrupt
        invariant
            img.wf(),
            img.width == old(img).width,
            img.height == old(img).height,
            pixels_to_corrupt > 0 ==> img.width > 0 && img.height > 0,
            done <= pixels_to_corrupt,
            samples.len() == done,
            samples_within(samples, img.width as int, img.height as int),
            img@ == corrupted(old(img)@, samples),
        decreases pixels_to_corrupt - done,
    {
        let x = random_below(&mut rng, img.width);
        let y = random_below(&mut rng, img.height);
        let salt = random_bool(&mut rng);
        corrupt_pixel(img, x, y, salt);
        proof {
            let next = samples.push((x as int, y as int, salt));
            assert(next.drop_last() =~= samples);
            samples = next;
        }
        done += 1;
    }
}

} // verus!
