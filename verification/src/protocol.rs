use vstd::prelude::*;
use crate::distributed::active_workers;
use crate::distributed::decoded;
use crate::distributed::deserialize_chunk;
use crate::distributed::encoded;
use crate::distributed::extract_chunk;
use crate::distributed::greatest;
use crate::distributed::halo_end;
use crate::distributed::halo_start;
use crate::distributed::least;
use crate::distributed::lemma_active_workers;
use crate::distributed::lemma_decode_encode;
use crate::distributed::lemma_filtered_in_halo;
use crate::distributed::lemma_partition_covers;
use crate::distributed::owned_end;
use crate::distributed::owned_start;
use crate::distributed::owner_of;
use crate::distributed::owns;
use crate::distributed::partition;
use crate::distributed::process_chunk;
use crate::distributed::RowRange;
use crate::distributed::serialize_chunk;
use crate::distributed::WorkAssignment;
use crate::shared::blank;
use crate::shared::byte_len;
use crate::shared::filtered;
use crate::shared::fits_window;
use crate::shared::Image;
use crate::shared::Raster;
use crate::shared::raster_width;
use crate::shared::rectangular;
use crate::shared::window_fits;

verus! {

/// What a participant does, by its rank.
#[derive(Clone, Copy, Debug, PartialEq, Eq, Structural)]
pub enum Role {
    /// Holds the whole image, hands out the work and puts the result
    /// together.
    Coordinator,
    /// Filters the rows it is sent and sends them back.
    Worker,
}

/// Rank 0 coordinates; every other rank works.
pub fn role_of(rank: i32) -> (role: Role)
    ensures
        role == if rank == 0 {
            Role::Coordinator
        } else {
            Role::Worker
        },
{
    if rank == 0 {
        Role::Coordinator
    } else {
        Role::Worker
    }
}

/// The number of bytes that the rows of `range` take at the given width,
/// where the range is in order and that number can be allocated.
pub fn payload_len(width: u32, range: RowRange) -> (len: Option<usize>)
    ensures
        len.is_some() <==> range.start <= range.end && width * range.rows() * 3 <= isize::MAX,
        len.is_some() ==> len.unwrap() == width * range.rows() * 3,
{
    if range.start > range.end {
        return None;
    }
    byte_len(width, (range.end as i64 - range.start as i64) as u32)
}

/// What a worker sends back: the bytes of the median filter of its owned
/// rows, computed from the bytes of its halo rows.
pub fn worker_reply(
    width: u32,
    owned: RowRange,
    halo: RowRange,
    payload: &[u8],
    kernel_size: usize,
) -> (reply: Vec<u8>)
    requires
        0 <= halo.start <= owned.start <= owned.end <= halo.end,
        payload@.len() == width * halo.rows() * 3,
        width * halo.rows() * 3 <= isize::MAX,
        window_fits(width, halo.rows() as u32, kernel_size),
    ensures
        reply@ == encoded(
            filtered(
                decoded(payload@, width as int, halo.rows()),
                kernel_size as int / 2,
            ).subrange(owned.start - halo.start, owned.end - halo.start),
            width as int,
        ),
{
    let halo_height: u32 = (halo.end - halo.start) as u32;
    let chunk = deserialize_chunk(payload, width, halo_height);
    let processed = process_chunk(
        &chunk,
        owned.start - halo.start,
        owned.end - halo.start,
        kernel_size,
    );
    let reply = serialize_chunk(&processed, 0, processed.height as i32);
    proof {
        assert(processed@.subrange(0, processed.height as int) =~= processed@);
    }
    reply
}

/// What a worker was sent fits together: the halo rows hold the owned
/// rows, the payload has three bytes for each pixel of the halo rows, and
/// the window fits.
pub open spec fn acceptable(
    width: u32,
    assignment: WorkAssignment,
    payload_len: nat,
    kernel_size: usize,
) -> bool {
    &&& 0 <= assignment.halo.start <= assignment.owned.start
    &&& assignment.owned.start <= assignment.owned.end <= assignment.halo.end
    &&& payload_len == width * assignment.halo.rows() * 3
    &&& width * assignment.halo.rows() * 3 <= isize::MAX
    &&& window_fits(width, assignment.halo.rows() as u32, kernel_size)
}

/// A worker's whole turn: its reply to what it was sent, or nothing where
/// that does not fit together.
pub fn worker_turn(
    width: u32,
    assignment: &WorkAssignment,
    payload: &[u8],
    kernel_size: usize,
) -> (reply: Option<Vec<u8>>)
    ensures
        reply.is_some() <==> acceptable(width, *assignment, payload@.len(), kernel_size),
        reply.is_some() ==> reply.unwrap()@ == encoded(
            filtered(
                decoded(payload@, width as int, assignment.halo.rows()),
                kernel_size as int / 2,
            ).subrange(
                assignment.owned.start - assignment.halo.start,
                assignment.owned.end - assignment.halo.start,
            ),
            width as int,
        ),
{
    let owned = assignment.owned;
    let halo = assignment.halo;
    if halo.start < 0 || halo.start > owned.start || owned.start > owned.end || owned.end
        > halo.end {
        return None;
    }
    match payload_len(width, halo) {
        None => None,
        Some(len) => {
            if payload.len() != len || !fits_window(
                width,
                (halo.end - halo.start) as u32,
                kernel_size,
            ) {
                None
            } else {
                Some(worker_reply(width, owned, halo, payload, kernel_size))
            }
        },
    }
}

/// The coordinator's own share: the median filter of the owned rows of an
/// assignment, computed from its halo rows.
pub fn local_fragment(img: &Image, assignment: &WorkAssignment, kernel_size: usize) -> (fragment:
    Image)
    requires
        img.wf(),
        assignment.wf(img.height as int),
        assignment.halo.start == halo_start(
            assignment.owned.start as int,
            kernel_size as int / 2,
        ),
        assignment.halo.end == halo_end(
            img.height as int,
            assignment.owned.end as int,
            kernel_size as int / 2,
        ),
        window_fits(img.width, img.height, kernel_size),
    ensures
        fragment.wf(),
        fragment.width == img.width,
        fragment.height == assignment.owned.rows(),
        fragment@ == filtered(img@, kernel_size as int / 2).subrange(
            assignment.owned.start as int,
            assignment.owned.end as int,
        ),
{
    let owned = assignment.owned;
    let halo = assignment.halo;
    let chunk = extract_chunk(img, halo.start, halo.end);
    proof {
        lemma_filtered_in_halo(
            img@,
            img.width as int,
            owned.start as int,
            owned.end as int,
            kernel_size as int / 2,
        );
    }
    process_chunk(&chunk, owned.start - halo.start, owned.end - halo.start, kernel_size)
}

/// What the coordinator sends to one worker: its assignment, then the
/// bytes of its halo rows.
pub struct Dispatch {
    pub assignment: WorkAssignment,
    pub payload: Vec<u8>,
}

/// What the coordinator sends, in the order in which it sends it: one
/// dispatch for each worker but itself that owns a row, by rising id.
pub fn plan_dispatch(img: &Image, worker_count: i32, kernel_size: usize) -> (plan: Vec<Dispatch>)
    requires
        img.wf(),
        img.height <= i32::MAX,
        worker_count >= 1,
        kernel_size / 2 <= i32::MAX,
    ensures
        plan@.len() == greatest(0, active_workers(img.height as int, worker_count as int) - 1),
        plan@.len() < worker_count,
        forall|j: int|
            0 <= j < plan@.len() ==> {
                &&& (#[trigger] plan@[j]).assignment.worker_id == j + 1
                &&& plan@[j].assignment.is_for(
                    img.height as int,
                    worker_count as int,
                    kernel_size as int / 2,
                )
                &&& plan@[j].assignment.wf(img.height as int)
                &&& plan@[j].payload@ == encoded(
                    img@.subrange(
                        plan@[j].assignment.halo.start as int,
                        plan@[j].assignment.halo.end as int,
                    ),
                    img.width as int,
                )
            },
{
    let half_kernel: i32 = (kernel_size / 2) as i32;
    let assignments = partition(img.height, worker_count, half_kernel);
    let ghost active = active_workers(img.height as int, worker_count as int);
    let mut plan: Vec<Dispatch> = Vec::new();
    let mut id: i32 = 1;
    proof {
        lemma_active_workers(img.height as int, worker_count as int, 0);
    }
    while id < worker_count
        invariant
            img.wf(),
            img.height <= i32::MAX,
            worker_count >= 1,
            half_kernel == kernel_size / 2,
            1 <= id <= worker_count,
            active == active_workers(img.height as int, worker_count as int),
            assignments@.len() == worker_count,
            forall|i: int|
                0 <= i < worker_count ==> {
                    &&& (#[trigger] assignments@[i]).worker_id == i
                    &&& assignments@[i].is_for(
                        img.height as int,
                        worker_count as int,
                        half_kernel as int,
                    )
                    &&& assignments@[i].wf(img.height as int)
                },
            plan@.len() == greatest(0, least(id as int, active) - 1),
            forall|j: int|
                0 <= j < plan@.len() ==> {
                    &&& (#[trigger] plan@[j]).assignment.worker_id == j + 1
                    &&& plan@[j].assignment.is_for(
                        img.height as int,
                        worker_count as int,
                        half_kernel as int,
                    )
                    &&& plan@[j].assignment.wf(img.height as int)
                    &&& plan@[j].payload@ == encoded(
                        img@.subrange(
                            plan@[j].assignment.halo.start as int,
                            plan@[j].assignment.halo.end as int,
                        ),
                        img.width as int,
                    )
                },
        decreases worker_count - id,
    {
        let assignment = assignments[id as usize];
        proof {
            lemma_active_workers(img.height as int, worker_count as int, id as int);
        }
        if !assignment.owned.is_empty() {
            let payload = serialize_chunk(img, assignment.halo.start, assignment.halo.end);
            plan.push(Dispatch { assignment, payload });
        }
        id += 1;
    }
    plan
}

/// One thing that the coordinator does with the transport. A dispatch is
/// named by its place in the plan.
#[derive(Clone, Copy, Debug, PartialEq, Eq, Structural)]
pub enum Step {
    /// Send the image's width and height to a worker.
    SendDimensions { dest: i32 },
    /// Send a worker the four numbers of its assignment.
    SendAssignment { dest: i32, dispatch: usize },
    /// Send a worker the bytes of its halo rows.
    SendPayload { dest: i32, dispatch: usize },
    /// Wait for the bytes of a worker's owned rows.
    ReceiveResult { source: i32, dispatch: usize },
}

/// The dimensions go to every worker but the coordinator, by rising rank.
pub open spec fn broadcast_steps(worker_count: int) -> Seq<Step> {
    Seq::new((worker_count - 1) as nat, |i: int| Step::SendDimensions { dest: (i + 1) as i32 })
}

/// Each dispatch of the plan goes out in its order: the assignment, then
/// the payload.
pub open spec fn dispatch_steps(dispatched: int) -> Seq<Step> {
    Seq::new(
        (2 * dispatched) as nat,
        |i: int|
            if i % 2 == 0 {
                Step::SendAssignment { dest: (i / 2 + 1) as i32, dispatch: (i / 2) as usize }
            } else {
                Step::SendPayload { dest: (i / 2 + 1) as i32, dispatch: (i / 2) as usize }
            },
    )
}

/// The results are awaited in the order of the plan.
pub open spec fn gather_steps(dispatched: int) -> Seq<Step> {
    Seq::new(
        dispatched as nat,
        |i: int| Step::ReceiveResult { source: (i + 1) as i32, dispatch: i as usize },
    )
}

/// The coordinator's steps in their order: the broadcast, then every
/// dispatch, then every result.
pub open spec fn schedule(worker_count: int, dispatched: int) -> Seq<Step> {
    broadcast_steps(worker_count) + dispatch_steps(dispatched) + gather_steps(dispatched)
}

/// The steps that the coordinator takes with `worker_count` participants
/// and a plan of `dispatched` dispatches.
pub fn coordinator_steps(worker_count: i32, dispatched: usize) -> (steps: Vec<Step>)
    requires
        worker_count >= 1,
        dispatched < worker_count,
    ensures
        steps@ == schedule(worker_count as int, dispatched as int),
{
    let ghost broadcast = broadcast_steps(worker_count as int);
    let ghost dispatches = dispatch_steps(dispatched as int);
    let ghost gathers = gather_steps(dispatched as int);
    let mut steps: Vec<Step> = Vec::new();
    let mut dest: i32 = 1;
    while dest < worker_count
        invariant
            1 <= dest <= worker_count,
            broadcast == broadcast_steps(worker_count as int),
            steps@ == broadcast.take(dest - 1),
        decreases worker_count - dest,
    {
        steps.push(Step::SendDimensions { dest });
        proof {
            assert(steps@ =~= broadcast.take(dest as int));
        }
        dest += 1;
    }
    proof {
        assert(steps@ =~= broadcast);
    }
    let mut j: usize = 0;
    while j < dispatched
        invariant
            dispatched < worker_count,
            j <= dispatched,
            dispatches == dispatch_steps(dispatched as int),
            steps@ == broadcast + dispatches.take(2 * j),
        decreases dispatched - j,
    {
        let worker: i32 = j as i32 + 1;
        steps.push(Step::SendAssignment { dest: worker, dispatch: j });
        steps.push(Step::SendPayload { dest: worker, dispatch: j });
        proof {
            assert(steps@ =~= broadcast + dispatches.take(2 * (j + 1)));
        }
        j += 1;
    }
    proof {
        assert(steps@ =~= broadcast + dispatches);
    }
    let mut k: usize = 0;
    while k < dispatched
        invariant
            dispatched < worker_count,
            k <= dispatched,
            gathers == gather_steps(dispatched as int),
            steps@ == broadcast + dispatches + gathers.take(k as int),
        decreases dispatched - k,
    {
        steps.push(Step::ReceiveResult { source: k as i32 + 1, dispatch: k });
        proof {
            assert(steps@ =~= broadcast + dispatches + gathers.take(k + 1));
        }
        k += 1;
    }
    proof {
        assert(steps@ =~= broadcast + dispatches + gathers);
    }
    steps
}

/// Rows of the result with their place in it.
pub struct Fragment {
    pub start_row: i32,
    pub end_row: i32,
    pub image: Image,
}

impl Fragment {
    /// The fragment holds rows `start_row` up to `end_row` of an image of
    /// the given dimensions.
    pub open spec fn fits(self, width: u32, height: u32) -> bool {
        &&& self.image.wf()
        &&& self.image.width == width
        &&& 0 <= self.start_row <= self.end_row <= height
        &&& self.image.height == self.end_row - self.start_row
    }
}

/// The fragment that a worker's reply stands for: the owned rows of its
/// assignment, read from the bytes of the reply. Nothing where the reply
/// has not three bytes for each pixel of those rows.
pub fn fragment_of_reply(width: u32, owned: RowRange, reply: &[u8]) -> (fragment: Option<
    Fragment,
>)
    ensures
        fragment.is_some() <==> 0 <= owned.start <= owned.end && reply@.len() == width
            * owned.rows() * 3 && width * owned.rows() * 3 <= isize::MAX,
        fragment.is_some() ==> {
            &&& fragment.unwrap().start_row == owned.start
            &&& fragment.unwrap().end_row == owned.end
            &&& fragment.unwrap().image.wf()
            &&& fragment.unwrap().image.width == width
            &&& fragment.unwrap().image.height == owned.rows()
            &&& fragment.unwrap().image@ == decoded(reply@, width as int, owned.rows())
        },
{
    if owned.start < 0 {
        return None;
    }
    match payload_len(width, owned) {
        None => None,
        Some(len) => {
            if reply.len() != len {
                None
            } else {
                let image = deserialize_chunk(reply, width, (owned.end - owned.start) as u32);
                Some(Fragment { start_row: owned.start, end_row: owned.end, image })
            }
        },
    }
}

/// A raster with `rows` written over it from row `start` on.
pub open spec fn pasted(g: Raster, start: int, rows: Raster) -> Raster {
    Seq::new(
        g.len(),
        |y: int|
            if start <= y < start + rows.len() {
                rows[y - start]
            } else {
                g[y]
            },
    )
}

/// The fragments written, one after another, over a black raster of the
/// given dimensions.
pub open spec fn assembled(fragments: Seq<Fragment>, width: nat, height: nat) -> Raster
    decreases fragments.len(),
{
    if fragments.len() == 0 {
        blank(width, height)
    } else {
        pasted(
            assembled(fragments.drop_last(), width, height),
            fragments.last().start_row as int,
            fragments.last().image@,
        )
    }
}

/// Writes the rows of a fragment to their place in `output`.
pub fn paste_fragment(output: &mut Image, fragment: &Fragment)
    requires
        old(output).wf(),
        fragment.fits(old(output).width, old(output).height),
    ensures
        final(output).wf(),
        final(output).width == old(output).width,
        final(output).height == old(output).height,
        final(output)@ == pasted(old(output)@, fragment.start_row as int, fragment.image@),
{
    let ghost target = pasted(old(output)@, fragment.start_row as int, fragment.image@);
    let mut y: i32 = fragment.start_row;
    while y < fragment.end_row
        invariant
            output.wf(),
            output.width == old(output).width,
            output.height == old(output).height,
            fragment.fits(output.width, output.height),
            fragment.start_row <= y <= fragment.end_row,
            target == pasted(old(output)@, fragment.start_row as int, fragment.image@),
            forall|j: int|
                0 <= j < output.height && !(fragment.start_row <= j < y) ==> output@[j] == old(
                    output,
                )@[j],
            forall|j: int| fragment.start_row <= j < y ==> output@[j] == target[j],
        decreases fragment.end_row - y,
    {
        let ghost row: int = y as int;
        let mut x: u32 = 0;
        while x < output.width
            invariant
                output.wf(),
                output.width == old(output).width,
                output.height == old(output).height,
                fragment.fits(output.width, output.height),
                fragment.start_row <= y < fragment.end_row,
                row == y,
                x <= output.width,
                target == pasted(old(output)@, fragment.start_row as int, fragment.image@),
                forall|j: int|
                    0 <= j < output.height && !(fragment.start_row <= j <= y) ==> output@[j]
                        == old(output)@[j],
                forall|j: int| fragment.start_row <= j < y ==> output@[j] == target[j],
                forall|i: int| 0 <= i < x ==> #[trigger] output@[row][i] == target[row][i],
            decreases output.width - x,
        {
            let pixel = fragment.image.get_pixel(x, (y - fragment.start_row) as u32);
            output.put_pixel(x, y as u32, *pixel);
            x += 1;
        }
        proof {
            assert(output@[row] =~= target[row]);
        }
        y += 1;
    }
    proof {
        assert(output@ =~= target);
    }
}

/// Puts the fragments together: an image of the given dimensions, black
/// where no fragment has a row, with the fragments written over it in
/// their order.
pub fn assemble(width: u32, height: u32, fragments: &Vec<Fragment>) -> (output: Image)
    requires
        width * height * 3 <= isize::MAX,
        forall|i: int| 0 <= i < fragments@.len() ==> (#[trigger] fragments@[i]).fits(width, height),
    ensures
        output.wf(),
        output.width == width,
        output.height == height,
        output@ == assembled(fragments@, width as nat, height as nat),
{
    let mut output = Image::new_empty(width, height);
    let mut i: usize = 0;
    proof {
        assert(fragments@.take(0) =~= Seq::<Fragment>::empty());
    }
    while i < fragments.len()
        invariant
            output.wf(),
            output.width == width,
            output.height == height,
            i <= fragments@.len(),
            forall|k: int|
                0 <= k < fragments@.len() ==> (#[trigger] fragments@[k]).fits(width, height),
            output@ == assembled(fragments@.take(i as int), width as nat, height as nat),
        decreases fragments@.len() - i,
    {
        proof {
            assert(fragments@.take(i + 1).drop_last() =~= fragments@.take(i as int));
            assert(fragments@.take(i + 1).last() == fragments@[i as int]);
        }
        paste_fragment(&mut output, &fragments[i]);
        i += 1;
    }
    proof {
        assert(fragments@.take(fragments@.len() as int) =~= fragments@);
    }
    output
}

/// A fragment holds the rows of `target` at its place.
pub open spec fn agrees(fragment: Fragment, target: Raster) -> bool {
    fragment.image@ == target.subrange(fragment.start_row as int, fragment.end_row as int)
}

/// Where every fragment holds rows of `target` at their place, what is
/// put together holds the row of `target` wherever a fragment has one.
pub proof fn lemma_assembled_agrees(
    fragments: Seq<Fragment>,
    width: u32,
    height: u32,
    target: Raster,
    y: int,
)
    requires
        target.len() == height,
        forall|i: int| 0 <= i < fragments.len() ==> (#[trigger] fragments[i]).fits(width, height),
        forall|i: int| 0 <= i < fragments.len() ==> agrees(#[trigger] fragments[i], target),
        0 <= y < height,
        exists|i: int|
            0 <= i < fragments.len() && (#[trigger] fragments[i]).start_row <= y
                < fragments[i].end_row,
    ensures
        assembled(fragments, width as nat, height as nat).len() == height,
        assembled(fragments, width as nat, height as nat)[y] == target[y],
    decreases fragments.len(),
{
    let last = fragments.last();
    let rest = fragments.drop_last();
    lemma_assembled_len(rest, width as nat, height as nat);
    if last.start_row <= y < last.end_row {
        assert(last.image@[y - last.start_row] == target[y]);
    } else {
        let i = choose|i: int|
            0 <= i < fragments.len() && (#[trigger] fragments[i]).start_row <= y
                < fragments[i].end_row;
        assert(rest[i] == fragments[i]);
        lemma_assembled_agrees(rest, width, height, target, y);
    }
}

/// What is put together has `height` rows.
pub proof fn lemma_assembled_len(fragments: Seq<Fragment>, width: nat, height: nat)
    ensures
        assembled(fragments, width, height).len() == height,
    decreases fragments.len(),
{
    if fragments.len() > 0 {
        lemma_assembled_len(fragments.drop_last(), width, height);
    }
}

/// Runs the whole distributed filter in one process: the coordinator's
/// plan, each worker's reply to what it is sent, and the assembly of the
/// replies. Whatever the number of workers, the result is the median
/// filter of the image.
pub fn apply_median_filter_in_process(img: &Image, worker_count: i32, kernel_size: usize) -> (output:
    Image)
    requires
        img.wf(),
        img.height <= i32::MAX,
        worker_count >= 1,
        kernel_size / 2 <= i32::MAX,
        window_fits(img.width, img.height, kernel_size),
    ensures
        output.wf(),
        output.width == img.width,
        output.height == img.height,
        output@ == filtered(img@, kernel_size as int / 2),
{
    let ghost radius: int = kernel_size as int / 2;
    let ghost height: int = img.height as int;
    let ghost workers: int = worker_count as int;
    let ghost target = filtered(img@, radius);
    let ghost active = active_workers(height, workers);
    let half_kernel: i32 = (kernel_size / 2) as i32;
    let assignments = partition(img.height, worker_count, half_kernel);
    let plan = plan_dispatch(img, worker_count, kernel_size);
    let mut fragments: Vec<Fragment> = Vec::new();
    let own = assignments[0];
    proof {
        lemma_active_workers(height, workers, 0);
    }
    if !own.owned.is_empty() {
        let image = local_fragment(img, &own, kernel_size);
        fragments.push(Fragment { start_row: own.owned.start, end_row: own.owned.end, image });
    }
    let mut j: usize = 0;
    while j < plan.len()
        invariant
            img.wf(),
            img.height <= i32::MAX,
            worker_count >= 1,
            window_fits(img.width, img.height, kernel_size),
            radius == kernel_size as int / 2,
            height == img.height,
            workers == worker_count,
            target == filtered(img@, radius),
            active == active_workers(height, workers),
            0 <= active <= workers,
            plan@.len() == greatest(0, active - 1),
            j <= plan@.len(),
            forall|k: int|
                0 <= k < plan@.len() ==> {
                    &&& (#[trigger] plan@[k]).assignment.worker_id == k + 1
                    &&& plan@[k].assignment.is_for(height, workers, radius)
                    &&& plan@[k].assignment.wf(height)
                    &&& plan@[k].payload@ == encoded(
                        img@.subrange(
                            plan@[k].assignment.halo.start as int,
                            plan@[k].assignment.halo.end as int,
                        ),
                        img.width as int,
                    )
                },
            fragments@.len() == least(active, j + 1),
            forall|i: int|
                0 <= i < fragments@.len() ==> {
                    &&& (#[trigger] fragments@[i]).fits(img.width, img.height)
                    &&& agrees(fragments@[i], target)
                    &&& fragments@[i].start_row == owned_start(height, workers, i)
                    &&& fragments@[i].end_row == owned_end(height, workers, i)
                },
        decreases plan@.len() - j,
    {
        let dispatch = &plan[j];
        let scalars = dispatch.assignment.to_wire();
        let received = WorkAssignment::from_wire(dispatch.assignment.worker_id, &scalars);
        let owned = received.owned;
        let halo = received.halo;
        let ghost part = img@.subrange(halo.start as int, halo.end as int);
        let ghost rows = target.subrange(owned.start as int, owned.end as int);
        proof {
            assert(received.wire()[0] == dispatch.assignment.wire()[0]);
            assert(received.wire()[1] == dispatch.assignment.wire()[1]);
            assert(received.wire()[2] == dispatch.assignment.wire()[2]);
            assert(received.wire()[3] == dispatch.assignment.wire()[3]);
            assert(received == dispatch.assignment);
            lemma_decode_encode(part, img.width as int);
            lemma_filtered_in_halo(
                img@,
                img.width as int,
                owned.start as int,
                owned.end as int,
                radius,
            );
            assert(rectangular(rows, img.width as int)) by {
                assert forall|y: int| 0 <= y < rows.len() implies (#[trigger] rows[y]).len()
                    == img.width by {
                    assert(rows[y] == target[owned.start + y]);
                    assert(raster_width(img@) == img.width);
                }
            }
            lemma_decode_encode(rows, img.width as int);
            assert(img.width * halo.rows() * 3 <= img.width * img.height * 3)
                by (nonlinear_arith)
                requires
                    0 <= halo.rows() <= img.height,
                    0 <= img.width,
            ;
            assert(img.width * owned.rows() * 3 <= img.width * img.height * 3)
                by (nonlinear_arith)
                requires
                    0 <= owned.rows() <= img.height,
                    0 <= img.width,
            ;
            assert(part.len() * img.width * 3 == img.width * halo.rows() * 3)
                by (nonlinear_arith)
                requires
                    part.len() == halo.rows(),
            ;
            assert(rows.len() * img.width * 3 == img.width * owned.rows() * 3)
                by (nonlinear_arith)
                requires
                    rows.len() == owned.rows(),
            ;
        }
        let reply = worker_turn(img.width, &received, dispatch.payload.as_slice(), kernel_size);
        let bytes = reply.unwrap();
        let fragment = fragment_of_reply(img.width, owned, bytes.as_slice());
        fragments.push(fragment.unwrap());
        j += 1;
    }
    let output = assemble(img.width, img.height, &fragments);
    proof {
        assert forall|y: int| 0 <= y < height implies output@[y] == target[y] by {
            lemma_partition_covers(height, workers, y);
            let owner = owner_of(height, workers, y);
            assert(owns(height, workers, owner, y));
            lemma_active_workers(height, workers, owner);
            assert(fragments@[owner].start_row <= y < fragments@[owner].end_row);
            lemma_assembled_agrees(fragments@, img.width, img.height, target, y);
        }
        assert(output@ =~= target);
    }
    output
}

} // verus!
