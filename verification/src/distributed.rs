use vstd::prelude::*;
use vstd::arithmetic::div_mod::lemma_basic_div;
use vstd::arithmetic::div_mod::lemma_fundamental_div_mod;
use vstd::arithmetic::div_mod::lemma_fundamental_div_mod_converse;
use vstd::arithmetic::div_mod::lemma_mod_bound;
use crate::shared::channel;
use crate::shared::filter_row_into;
use crate::shared::filtered;
use crate::shared::filtered_pixel;
use crate::shared::filtered_row;
use crate::shared::Image;
use crate::shared::mirror;
use crate::shared::padded;
use crate::shared::Raster;
use crate::shared::raster_width;
use crate::shared::rectangular;
use crate::shared::window;
use crate::shared::window_fits;
use image::Rgb;

verus! {

/// A run of rows: `start` is the first, `end` the one after the last.
#[derive(Clone, Copy, Debug, PartialEq, Eq, Structural)]
pub struct RowRange {
    pub start: i32,
    pub end: i32,
}

/// What one worker is given: the rows it produces, and the rows it needs
/// to read for them.
#[derive(Clone, Copy, Debug, PartialEq, Eq, Structural)]
pub struct WorkAssignment {
    pub worker_id: i32,
    pub owned: RowRange,
    pub halo: RowRange,
}

/// The smaller of two integers.
pub open spec fn least(a: int, b: int) -> int {
    if a <= b {
        a
    } else {
        b
    }
}

/// The larger of two integers.
pub open spec fn greatest(a: int, b: int) -> int {
    if a >= b {
        a
    } else {
        b
    }
}

/// The rows in each band: `height / worker_count`, rounded up.
pub open spec fn rows_per_worker(height: int, worker_count: int) -> int
    recommends
        worker_count >= 1,
{
    (height + worker_count - 1) / worker_count
}

/// The first row of worker `id`, cut off at `height`.
pub open spec fn owned_start(height: int, worker_count: int, id: int) -> int {
    least(height, id * rows_per_worker(height, worker_count))
}

/// The row after the last row of worker `id`, cut off at `height`.
pub open spec fn owned_end(height: int, worker_count: int, id: int) -> int {
    least(height, (id + 1) * rows_per_worker(height, worker_count))
}

/// The first row that a worker reads: `half_kernel` rows above its own,
/// cut off at the top of the image.
pub open spec fn halo_start(start: int, half_kernel: int) -> int {
    greatest(0, start - half_kernel)
}

/// The row after the last that a worker reads: `half_kernel` rows below
/// its own, cut off at the bottom of the image.
pub open spec fn halo_end(height: int, end: int, half_kernel: int) -> int {
    least(height, end + half_kernel)
}

impl RowRange {
    /// Both ends lie in `[0, height]`, in order.
    pub open spec fn within(self, height: int) -> bool {
        0 <= self.start <= self.end <= height
    }

    /// The range holds the row.
    pub open spec fn holds(self, row: int) -> bool {
        self.start <= row < self.end
    }

    /// The number of rows.
    pub open spec fn rows(self) -> int {
        self.end - self.start
    }

    /// Whether the range holds no row.
    pub fn is_empty(&self) -> (empty: bool)
        ensures
            empty == (self.start >= self.end),
    {
        self.start >= self.end
    }
}

impl WorkAssignment {
    /// The assignment is the one that worker `worker_id` has among
    /// `worker_count` workers on an image of `height` rows.
    pub open spec fn is_for(self, height: int, worker_count: int, half_kernel: int) -> bool {
        &&& self.owned.start == owned_start(height, worker_count, self.worker_id as int)
        &&& self.owned.end == owned_end(height, worker_count, self.worker_id as int)
        &&& self.halo.start == halo_start(self.owned.start as int, half_kernel)
        &&& self.halo.end == halo_end(height, self.owned.end as int, half_kernel)
    }

    /// The four numbers that stand for an assignment on the wire, in the
    /// order in which they are sent: the owned rows' start and end, then
    /// the halo rows' start and end.
    pub open spec fn wire(self) -> Seq<i32> {
        seq![self.owned.start, self.owned.end, self.halo.start, self.halo.end]
    }

    /// The assignment as it is sent.
    pub fn to_wire(&self) -> (scalars: [i32; 4])
        ensures
            scalars@ == self.wire(),
    {
        let scalars = [self.owned.start, self.owned.end, self.halo.start, self.halo.end];
        proof {
            assert(scalars@ =~= self.wire());
        }
        scalars
    }

    /// The assignment of worker `worker_id` as it was received.
    pub fn from_wire(worker_id: i32, scalars: &[i32; 4]) -> (assignment: WorkAssignment)
        ensures
            assignment.worker_id == worker_id,
            assignment.wire() == scalars@,
    {
        let assignment = WorkAssignment {
            worker_id,
            owned: RowRange { start: scalars[0], end: scalars[1] },
            halo: RowRange { start: scalars[2], end: scalars[3] },
        };
        proof {
            assert(assignment.wire() =~= scalars@);
        }
        assignment
    }

    /// The halo rows lie inside the image and hold the owned rows.
    pub open spec fn wf(self, height: int) -> bool {
        &&& self.owned.within(height)
        &&& self.halo.within(height)
        &&& self.halo.start <= self.owned.start
        &&& self.owned.end <= self.halo.end
    }
}

/// The assignment of worker `id`.
fn assignment_of(height: u32, worker_count: i32, half_kernel: i32, id: i32) -> (a:
    WorkAssignment)
    requires
        height <= i32::MAX,
        worker_count >= 1,
        half_kernel >= 0,
        0 <= id < worker_count,
    ensures
        a.worker_id == id,
        a.is_for(height as int, worker_count as int, half_kernel as int),
        a.wf(height as int),
{
    let h: i64 = height as i64;
    let n: i64 = worker_count as i64;
    let k: i64 = half_kernel as i64;
    let rows: i64 = (h + n - 1) / n;
    proof {
        assert(0 <= rows <= h) by (nonlinear_arith)
            requires
                rows == (h + n - 1) / (n as int),
                h >= 0,
                n >= 1,
        ;
        assert(0 <= id * rows <= (id + 1) * rows <= n * rows) by (nonlinear_arith)
            requires
                0 <= id < n,
                rows >= 0,
        ;
        assert(n * rows <= 0x8000_0000 * 0x8000_0000) by (nonlinear_arith)
            requires
                0 <= n <= 0x8000_0000,
                0 <= rows <= 0x8000_0000,
        ;
    }
    let first: i64 = id as i64 * rows;
    let after: i64 = (id as i64 + 1) * rows;
    let start: i64 = if first < h {
        first
    } else {
        h
    };
    let end: i64 = if after < h {
        after
    } else {
        h
    };
    let above: i64 = if start - k > 0 {
        start - k
    } else {
        0
    };
    let below: i64 = if end + k < h {
        end + k
    } else {
        h
    };
    WorkAssignment {
        worker_id: id,
        owned: RowRange { start: start as i32, end: end as i32 },
        halo: RowRange { start: above as i32, end: below as i32 },
    }
}

/// Divides the rows of an image among `worker_count` workers: one
/// assignment for each worker, in the order of their ids.
pub fn partition(height: u32, worker_count: i32, half_kernel: i32) -> (assignments: Vec<
    WorkAssignment,
>)
    requires
        height <= i32::MAX,
        worker_count >= 1,
        half_kernel >= 0,
    ensures
        assignments@.len() == worker_count,
        forall|id: int|
            0 <= id < worker_count ==> {
                &&& (#[trigger] assignments@[id]).worker_id == id
                &&& assignments@[id].is_for(
                    height as int,
                    worker_count as int,
                    half_kernel as int,
                )
                &&& assignments@[id].wf(height as int)
            },
{
    let mut assignments: Vec<WorkAssignment> = Vec::new();
    let mut id: i32 = 0;
    while id < worker_count
        invariant
            height <= i32::MAX,
            worker_count >= 1,
            half_kernel >= 0,
            0 <= id <= worker_count,
            assignments@.len() == id,
            forall|j: int|
                0 <= j < id ==> {
                    &&& (#[trigger] assignments@[j]).worker_id == j
                    &&& assignments@[j].is_for(
                        height as int,
                        worker_count as int,
                        half_kernel as int,
                    )
                    &&& assignments@[j].wf(height as int)
                },
        decreases worker_count - id,
    {
        assignments.push(assignment_of(height, worker_count, half_kernel, id));
        id += 1;
    }
    assignments
}

/// Worker `id` owns the row.
pub open spec fn owns(height: int, worker_count: int, id: int, row: int) -> bool {
    owned_start(height, worker_count, id) <= row < owned_end(height, worker_count, id)
}

/// The worker in whose band a row falls.
pub open spec fn owner_of(height: int, worker_count: int, row: int) -> int
    recommends
        height > 0,
        worker_count >= 1,
{
    row / rows_per_worker(height, worker_count)
}

/// The bands hold at least one row each and together at least `height`
/// rows.
pub proof fn lemma_rows_per_worker(height: int, worker_count: int)
    requires
        height > 0,
        worker_count >= 1,
    ensures
        rows_per_worker(height, worker_count) >= 1,
        rows_per_worker(height, worker_count) * worker_count >= height,
{
    let n = worker_count;
    let t = height + n - 1;
    lemma_fundamental_div_mod(t, n);
    lemma_mod_bound(t, n);
    let rows = t / n;
    assert(n * rows == t - t % n);
    assert(rows >= 1) by (nonlinear_arith)
        requires
            n * rows >= height,
            height > 0,
            n >= 1,
    ;
    assert(rows * n == n * rows) by (nonlinear_arith);
}

/// Partition coverage: the rows that the workers own are the rows of the
/// image, and each of them belongs to exactly one worker, whose id is
/// `owner_of` the row.
pub proof fn lemma_partition_covers(height: int, worker_count: int, row: int)
    requires
        height > 0,
        worker_count >= 1,
    ensures
        0 <= row < height ==> 0 <= owner_of(height, worker_count, row) < worker_count,
        forall|id: int|
            0 <= id < worker_count ==> (owns(height, worker_count, id, row) <==> 0 <= row < height
                && id == owner_of(height, worker_count, row)),
{
    lemma_rows_per_worker(height, worker_count);
    let rows = rows_per_worker(height, worker_count);
    let owner = row / rows;
    lemma_fundamental_div_mod(row, rows);
    lemma_mod_bound(row, rows);
    assert(rows * owner <= row < rows * owner + rows);
    if 0 <= row < height {
        assert(0 <= owner < worker_count) by (nonlinear_arith)
            requires
                rows * owner <= row < rows * owner + rows,
                0 <= row < height,
                rows * worker_count >= height,
                rows >= 1,
        ;
    }
    assert forall|id: int| 0 <= id < worker_count implies (owns(height, worker_count, id, row)
        <==> 0 <= row < height && id == owner) by {
        assert((id + 1) * rows == id * rows + rows) by (nonlinear_arith);
        assert(0 <= id * rows) by (nonlinear_arith)
            requires
                0 <= id,
                rows >= 1,
        ;
        if id * rows <= row < id * rows + rows {
            lemma_fundamental_div_mod_converse(row, rows, id, row - id * rows);
        }
        if id == owner {
            assert(id * rows == rows * owner) by (nonlinear_arith)
                requires
                    id == owner,
            ;
        }
    }
}

/// Ghost sufficiency: the row that the whole image gives for a window row
/// of an owned row lies among the worker's halo rows, and mirror padding
/// inside the halo rows alone reads that same row. A window row inside the
/// image is read as it is.
pub proof fn lemma_halo_suffices(
    height: int,
    start: int,
    end: int,
    half_kernel: int,
    y: int,
    dy: int,
)
    requires
        0 <= start <= y < end <= height,
        half_kernel >= 0,
        -half_kernel <= dy <= half_kernel,
    ensures
        ({
            let top = halo_start(start, half_kernel);
            let bottom = halo_end(height, end, half_kernel);
            let source = mirror(y + dy, height);
            &&& top <= source < bottom
            &&& top + mirror(y + dy - top, bottom - top) == source
            &&& 0 <= y + dy < height ==> source == y + dy
        }),
{
}

/// The bytes of a raster whose rows have `width` pixels: row after row,
/// pixel after pixel, and red, green, blue of each pixel.
pub open spec fn encoded(g: Raster, width: int) -> Seq<u8> {
    Seq::new(
        (g.len() * width * 3) as nat,
        |i: int| channel(g[(i / 3) / width][(i / 3) % width], i % 3),
    )
}

/// Where the bytes of the pixel at column `x` of row `y` begin.
pub open spec fn byte_offset(width: int, x: int, y: int) -> int {
    (y * width + x) * 3
}

/// The raster of the given dimensions that bytes in that order stand for.
pub open spec fn decoded(bytes: Seq<u8>, width: int, height: int) -> Raster {
    Seq::new(
        height as nat,
        |y: int|
            Seq::new(
                width as nat,
                |x: int|
                    (
                        bytes[byte_offset(width, x, y)],
                        bytes[byte_offset(width, x, y) + 1],
                        bytes[byte_offset(width, x, y) + 2],
                    ),
            ),
    )
}

/// The byte `c` of the pixel at `(x, y)` has its place among the bytes of
/// `height` rows, and the place gives back `x`, `y` and `c`.
pub proof fn lemma_byte_offset(width: int, height: int, x: int, y: int, c: int)
    requires
        0 <= x < width,
        0 <= y < height,
        0 <= c < 3,
    ensures
        0 <= byte_offset(width, x, y) + c < height * width * 3,
        (byte_offset(width, x, y) + c) % 3 == c,
        ((byte_offset(width, x, y) + c) / 3) % width == x,
        ((byte_offset(width, x, y) + c) / 3) / width == y,
{
    let p = y * width + x;
    assert(0 <= y * width <= (height - 1) * width) by (nonlinear_arith)
        requires
            0 <= y <= height - 1,
            width > 0,
    ;
    assert((height - 1) * width == height * width - width) by (nonlinear_arith);
    assert(p * 3 + 3 <= height * width * 3);
    lemma_fundamental_div_mod_converse(p * 3 + c, 3, p, c);
    lemma_fundamental_div_mod_converse(p, width, y, x);
}

/// Codec round trip: decoding the bytes of a raster gives the raster back.
pub proof fn lemma_decode_encode(g: Raster, width: int)
    requires
        width >= 0,
        rectangular(g, width),
    ensures
        decoded(encoded(g, width), width, g.len() as int) == g,
{
    let bytes = encoded(g, width);
    let back = decoded(bytes, width, g.len() as int);
    assert forall|y: int| 0 <= y < g.len() implies back[y] =~= g[y] by {
        assert forall|x: int| 0 <= x < width implies back[y][x] == g[y][x] by {
            lemma_byte_offset(width, g.len() as int, x, y, 0);
            lemma_byte_offset(width, g.len() as int, x, y, 1);
            lemma_byte_offset(width, g.len() as int, x, y, 2);
        }
    }
    assert(back =~= g);
}

/// The bytes of rows `start_row` up to `end_row` of the image.
pub fn serialize_chunk(img: &Image, start_row: i32, end_row: i32) -> (data: Vec<u8>)
    requires
        img.wf(),
        0 <= start_row <= end_row <= img.height,
    ensures
        data@ == encoded(img@.subrange(start_row as int, end_row as int), img.width as int),
{
    let ghost width: int = img.width as int;
    let ghost rows: int = end_row - start_row;
    let ghost region = img@.subrange(start_row as int, end_row as int);
    let ghost all = encoded(region, width);
    let mut data: Vec<u8> = Vec::new();
    let mut y: i32 = start_row;
    proof {
        assert(byte_offset(width, 0, 0) == 0) by (nonlinear_arith);
        assert(data@ =~= all.take(0));
    }
    while y < end_row
        invariant
            img.wf(),
            0 <= start_row <= y <= end_row <= img.height,
            width == img.width,
            rows == end_row - start_row,
            region == img@.subrange(start_row as int, end_row as int),
            all == encoded(region, width),
            data@ == all.take(byte_offset(width, 0, y - start_row)),
        decreases end_row - y,
    {
        let mut x: u32 = 0;
        while x < img.width
            invariant
                img.wf(),
                0 <= start_row <= y < end_row <= img.height,
                width == img.width,
                rows == end_row - start_row,
                region == img@.subrange(start_row as int, end_row as int),
                all == encoded(region, width),
                x <= img.width,
                data@ == all.take(byte_offset(width, x as int, y - start_row)),
            decreases img.width - x,
        {
            let pixel = img.get_pixel(x, y as u32);
            proof {
                lemma_byte_offset(width, rows, x as int, y - start_row, 0);
                lemma_byte_offset(width, rows, x as int, y - start_row, 1);
                lemma_byte_offset(width, rows, x as int, y - start_row, 2);
                assert(byte_offset(width, x + 1, y - start_row) == byte_offset(
                    width,
                    x as int,
                    y - start_row,
                ) + 3) by (nonlinear_arith);
            }
            data.push(pixel.0[0]);
            data.push(pixel.0[1]);
            data.push(pixel.0[2]);
            proof {
                assert(data@ =~= all.take(byte_offset(width, x + 1, y - start_row)));
            }
            x += 1;
        }
        proof {
            assert(byte_offset(width, width, y - start_row) == byte_offset(
                width,
                0,
                y + 1 - start_row,
            )) by (nonlinear_arith);
        }
        y += 1;
    }
    proof {
        assert(byte_offset(width, 0, rows) == rows * width * 3) by (nonlinear_arith);
        assert(data@ =~= all);
    }
    data
}

/// The image of the given dimensions that `data` holds the bytes of.
pub fn deserialize_chunk(data: &[u8], width: u32, height: u32) -> (chunk: Image)
    requires
        data@.len() == width * height * 3,
        width * height * 3 <= isize::MAX,
    ensures
        chunk.wf(),
        chunk.width == width,
        chunk.height == height,
        chunk@ == decoded(data@, width as int, height as int),
{
    let ghost all = decoded(data@, width as int, height as int);
    let mut chunk = Image::new_empty(width, height);
    let mut y: u32 = 0;
    while y < height
        invariant
            data@.len() == width * height * 3,
            width * height * 3 <= isize::MAX,
            chunk.wf(),
            chunk.width == width,
            chunk.height == height,
            all == decoded(data@, width as int, height as int),
            y <= height,
            forall|j: int| 0 <= j < y ==> chunk@[j] == all[j],
        decreases height - y,
    {
        let mut x: u32 = 0;
        while x < width
            invariant
                data@.len() == width * height * 3,
                width * height * 3 <= isize::MAX,
                chunk.wf(),
                chunk.width == width,
                chunk.height == height,
                all == decoded(data@, width as int, height as int),
                y < height,
                x <= width,
                forall|j: int| 0 <= j < y ==> chunk@[j] == all[j],
                forall|i: int| 0 <= i < x ==> chunk@[y as int][i] == all[y as int][i],
            decreases width - x,
        {
            proof {
                lemma_byte_offset(width as int, height as int, x as int, y as int, 0);
                lemma_byte_offset(width as int, height as int, x as int, y as int, 2);
                assert(0 <= y * width <= byte_offset(width as int, x as int, y as int))
                    by (nonlinear_arith)
                    requires
                        0 <= x,
                        0 <= y,
                        0 <= width,
                ;
            }
            let idx: usize = (y as usize * width as usize + x as usize) * 3;
            let pixel = Rgb([data[idx], data[idx + 1], data[idx + 2]]);
            chunk.put_pixel(x, y, pixel);
            x += 1;
        }
        proof {
            assert(chunk@[y as int] =~= all[y as int]);
        }
        y += 1;
    }
    proof {
        assert(chunk@ =~= all);
    }
    chunk
}

/// Rows `start_row` up to `end_row` of the image as an image of their own.
pub fn extract_chunk(img: &Image, start_row: i32, end_row: i32) -> (chunk: Image)
    requires
        img.wf(),
        0 <= start_row <= end_row <= img.height,
    ensures
        chunk.wf(),
        chunk.width == img.width,
        chunk.height == end_row - start_row,
        chunk@ == img@.subrange(start_row as int, end_row as int),
{
    let ghost region = img@.subrange(start_row as int, end_row as int);
    let height: u32 = (end_row - start_row) as u32;
    proof {
        assert(img.width * height * 3 <= img.width * img.height * 3) by (nonlinear_arith)
            requires
                0 <= height <= img.height,
                0 <= img.width,
        ;
    }
    let mut chunk = Image::new_empty(img.width, height);
    let mut y: i32 = start_row;
    while y < end_row
        invariant
            img.wf(),
            0 <= start_row <= y <= end_row <= img.height,
            chunk.wf(),
            chunk.width == img.width,
            chunk.height == end_row - start_row,
            region == img@.subrange(start_row as int, end_row as int),
            forall|j: int| 0 <= j < y - start_row ==> chunk@[j] == region[j],
        decreases end_row - y,
    {
        let ghost row: int = y - start_row;
        let mut x: u32 = 0;
        while x < img.width
            invariant
                img.wf(),
                0 <= start_row <= y < end_row <= img.height,
                chunk.wf(),
                chunk.width == img.width,
                chunk.height == end_row - start_row,
                region == img@.subrange(start_row as int, end_row as int),
                row == y - start_row,
                x <= img.width,
                forall|j: int| 0 <= j < row ==> chunk@[j] == region[j],
                forall|i: int| 0 <= i < x ==> #[trigger] chunk@[row][i] == region[row][i],
            decreases img.width - x,
        {
            let pixel = img.get_pixel(x, y as u32);
            chunk.put_pixel(x, (y - start_row) as u32, *pixel);
            x += 1;
        }
        proof {
            assert(chunk@[row] =~= region[row]);
        }
        y += 1;
    }
    proof {
        assert(chunk@ =~= region);
    }
    chunk
}

/// The median filter of rows `start_row` up to `end_row` of `chunk`, each
/// computed with all of `chunk` to read from.
pub fn process_chunk(chunk: &Image, start_row: i32, end_row: i32, kernel_size: usize) -> (output:
    Image)
    requires
        chunk.wf(),
        0 <= start_row <= end_row <= chunk.height,
        window_fits(chunk.width, chunk.height, kernel_size),
    ensures
        output.wf(),
        output.width == chunk.width,
        output.height == end_row - start_row,
        output@ == filtered(chunk@, kernel_size as int / 2).subrange(
            start_row as int,
            end_row as int,
        ),
{
    let ghost radius: int = kernel_size as int / 2;
    let ghost region = filtered(chunk@, radius).subrange(start_row as int, end_row as int);
    let output_height: u32 = (end_row - start_row) as u32;
    proof {
        assert(chunk.width * output_height * 3 <= chunk.width * chunk.height * 3)
            by (nonlinear_arith)
            requires
                0 <= output_height <= chunk.height,
                0 <= chunk.width,
        ;
    }
    let mut output = Image::new_empty(chunk.width, output_height);
    let mut y: i32 = start_row;
    while y < end_row
        invariant
            chunk.wf(),
            0 <= start_row <= y <= end_row <= chunk.height,
            window_fits(chunk.width, chunk.height, kernel_size),
            output.wf(),
            output.width == chunk.width,
            output.height == end_row - start_row,
            radius == kernel_size as int / 2,
            region == filtered(chunk@, radius).subrange(start_row as int, end_row as int),
            forall|j: int| 0 <= j < y - start_row ==> output@[j] == region[j],
        decreases end_row - y,
    {
        filter_row_into(chunk, y as u32, kernel_size, &mut output, (y - start_row) as u32);
        y += 1;
    }
    proof {
        assert(output@ =~= region);
    }
    output
}

/// A window round a pixel of an owned row reads the same pixels from the
/// worker's halo rows alone as from the whole raster.
pub proof fn lemma_window_in_halo(
    g: Raster,
    width: int,
    start: int,
    end: int,
    radius: int,
    x: int,
    y: int,
)
    requires
        width > 0,
        rectangular(g, width),
        0 <= start <= y < end <= g.len(),
        radius >= 0,
    ensures
        ({
            let top = halo_start(start, radius);
            let bottom = halo_end(g.len() as int, end, radius);
            window(g.subrange(top, bottom), x, y - top, radius) == window(g, x, y, radius)
        }),
{
    let height = g.len() as int;
    let top = halo_start(start, radius);
    let bottom = halo_end(height, end, radius);
    let part = g.subrange(top, bottom);
    let side = 2 * radius + 1;
    let inside = window(part, x, y - top, radius);
    let whole = window(g, x, y, radius);
    assert(raster_width(part) == width);
    assert(raster_width(g) == width);
    assert forall|i: int| 0 <= i < side * side implies inside[i] == whole[i] by {
        lemma_fundamental_div_mod(i, side);
        lemma_mod_bound(i, side);
        let dy = i / side - radius;
        let dx = i % side - radius;
        assert(0 <= i / side < side) by (nonlinear_arith)
            requires
                0 <= i < side * side,
                side > 0,
                i == side * (i / side) + i % side,
                0 <= i % side < side,
        ;
        lemma_halo_suffices(height, start, end, radius, y, dy);
        let source = mirror(y + dy, height);
        let column = mirror(x + dx, width);
        assert(part[source - top] == g[source]);
        assert(inside[i] == padded(part, x + dx, y - top + dy));
        assert(whole[i] == padded(g, x + dx, y + dy));
    }
    assert(inside =~= whole);
}

/// The median filter of a worker's halo rows agrees on its owned rows with
/// the median filter of the whole raster.
pub proof fn lemma_filtered_in_halo(g: Raster, width: int, start: int, end: int, radius: int)
    requires
        width >= 0,
        rectangular(g, width),
        0 <= start <= end <= g.len(),
        radius >= 0,
    ensures
        ({
            let top = halo_start(start, radius);
            let bottom = halo_end(g.len() as int, end, radius);
            filtered(g.subrange(top, bottom), radius).subrange(start - top, end - top)
                == filtered(g, radius).subrange(start, end)
        }),
{
    let top = halo_start(start, radius);
    let bottom = halo_end(g.len() as int, end, radius);
    let part = g.subrange(top, bottom);
    let local = filtered(part, radius).subrange(start - top, end - top);
    let global = filtered(g, radius).subrange(start, end);
    assert forall|j: int| 0 <= j < end - start implies local[j] =~= global[j] by {
        let y = start + j;
        assert(raster_width(part) == width);
        assert(raster_width(g) == width);
        assert(local[j] == filtered_row(part, y - top, radius));
        assert(global[j] == filtered_row(g, y, radius));
        assert forall|x: int| 0 <= x < width implies filtered_pixel(part, x, y - top, radius)
            == filtered_pixel(g, x, y, radius) by {
            lemma_window_in_halo(g, width, start, end, radius, x, y);
        }
    }
    assert(local =~= global);
}

/// The number of workers that own at least one row: enough bands to hold
/// `height` rows.
pub open spec fn active_workers(height: int, worker_count: int) -> int
    recommends
        worker_count >= 1,
{
    if height <= 0 {
        0
    } else {
        (height + rows_per_worker(height, worker_count) - 1) / rows_per_worker(
            height,
            worker_count,
        )
    }
}

/// The workers that own a row are those with the lowest ids, and
/// `active_workers` is their number.
pub proof fn lemma_active_workers(height: int, worker_count: int, id: int)
    requires
        height >= 0,
        worker_count >= 1,
        0 <= id < worker_count,
    ensures
        0 <= active_workers(height, worker_count) <= worker_count,
        height > 0 ==> active_workers(height, worker_count) >= 1,
        id < active_workers(height, worker_count) <==> owned_start(height, worker_count, id)
            < owned_end(height, worker_count, id),
        0 <= owned_start(height, worker_count, id) <= owned_end(height, worker_count, id)
            <= height,
{
    let rows = rows_per_worker(height, worker_count);
    let active = active_workers(height, worker_count);
    assert((id + 1) * rows == id * rows + rows) by (nonlinear_arith);
    if height > 0 {
        lemma_rows_per_worker(height, worker_count);
        let t = height + rows - 1;
        lemma_fundamental_div_mod(t, rows);
        lemma_mod_bound(t, rows);
        assert(rows * active == t - t % rows);
        assert(active <= worker_count) by (nonlinear_arith)
            requires
                rows * active <= height + rows - 1,
                rows * worker_count >= height,
                rows >= 1,
        ;
        assert(active >= 1) by (nonlinear_arith)
            requires
                rows * active >= height,
                height > 0,
                rows >= 1,
        ;
        assert(0 <= id * rows) by (nonlinear_arith)
            requires
                0 <= id,
                rows >= 1,
        ;
        if id < active {
            assert(id * rows < height) by (nonlinear_arith)
                requires
                    id <= active - 1,
                    rows * active <= height + rows - 1,
                    rows >= 1,
            ;
        } else {
            assert(id * rows >= height) by (nonlinear_arith)
                requires
                    id >= active,
                    rows * active >= height,
                    rows >= 1,
            ;
        }
    } else {
        lemma_basic_div(worker_count - 1, worker_count);
        assert(rows == 0);
        assert(id * rows == 0) by (nonlinear_arith)
            requires
                rows == 0,
        ;
    }
}

} // verus!
