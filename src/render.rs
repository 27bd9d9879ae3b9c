//! The discrete side of the integrator: when a path stops bouncing, how an
//! image is cut into horizontal slices for the render threads, in which order
//! rows are rendered and buffers are joined, and how a channel is brought
//! into the displayable range.

use vstd::prelude::*;

verus! {

/// Number of bounces after which a path is cut off and contributes black.
pub const DEPTH_MAX: i32 = 50;

/// Largest value of an output channel.
pub const CHANNEL_MAX: i32 = 255;

/// Depth of the ray scattered at a hit reached at `depth`, or `None` when the
/// path has reached the cutoff and is terminated.
pub fn next_depth(depth: i32) -> (r: Option<i32>)
    ensures
        depth >= DEPTH_MAX ==> r is None,
        depth < DEPTH_MAX ==> r == Some((depth + 1) as i32),
{
    if depth >= DEPTH_MAX {
        None
    } else {
        Some(depth + 1)
    }
}

/// A channel value clamped into `[0, CHANNEL_MAX]`.
pub open spec fn clamp_channel(v: int) -> int {
    if v < 0 {
        0
    } else if v > CHANNEL_MAX {
        CHANNEL_MAX as int
    } else {
        v
    }
}

/// Brings a scaled channel value into the displayable range.
pub fn to_channel(v: i32) -> (r: i32)
    ensures
        r == clamp_channel(v as int),
        0 <= r <= CHANNEL_MAX,
{
    if v < 0 {
        0
    } else if v > CHANNEL_MAX {
        CHANNEL_MAX
    } else {
        v
    }
}

/// Rows between two progress reports of a slice of `slice` rows: a tenth of
/// the slice, and at least one.
pub open spec fn report_interval(slice: int) -> int {
    if slice / 10 > 1 {
        slice / 10
    } else {
        1
    }
}

/// Whether a thread reports its progress after rendering row `j` of a slice
/// of `slice` rows: about ten times per slice.
pub fn progress_due(j: i32, slice: i32) -> (r: bool)
    requires
        0 <= j,
        0 <= slice,
    ensures
        r == ((j as int) % report_interval(slice as int) == 0),
{
    let tenth = slice / 10;
    let interval = if tenth > 1 {
        tenth
    } else {
        1
    };
    j % interval == 0
}

/// The integers from `hi - 1` down to `lo`.
pub open spec fn descending(lo: int, hi: int) -> Seq<i32> {
    Seq::new((hi - lo) as nat, |k: int| (hi - 1 - k) as i32)
}

/// First row of the slice that thread `nth` of `nthreads` renders.
pub open spec fn slice_start(nth: int, nthreads: int, ny: int) -> int {
    (ny / nthreads) * nth
}

/// Row past the end of the slice of thread `nth`; the last thread also takes
/// the rows that the integer division leaves over.
pub open spec fn slice_end(nth: int, nthreads: int, ny: int) -> int {
    if nth == nthreads - 1 {
        ny
    } else {
        (ny / nthreads) * (nth + 1)
    }
}

/// Rows of the slices of the first `m` threads to run, in the order they run
/// (the thread of the top slice first), each slice from its top row down.
pub open spec fn slices_in_order(ny: int, nthreads: int, m: int) -> Seq<Seq<i32>> {
    Seq::new(
        m as nat,
        |k: int|
            descending(
                slice_start(nthreads - 1 - k, nthreads, ny),
                slice_end(nthreads - 1 - k, nthreads, ny),
            ),
    )
}

proof fn lemma_slice_bounds(nth: int, nthreads: int, ny: int)
    requires
        0 < nthreads,
        0 <= nth < nthreads,
        0 <= ny,
    ensures
        0 <= slice_start(nth, nthreads, ny) <= slice_end(nth, nthreads, ny) <= ny,
        nth + 1 < nthreads ==> slice_end(nth, nthreads, ny) == slice_start(nth + 1, nthreads, ny),
        nth == 0 ==> slice_start(nth, nthreads, ny) == 0,
{
    let q = ny / nthreads;
    assert(0 <= q) by (nonlinear_arith)
        requires
            0 < nthreads,
            0 <= ny,
            q == ny / nthreads,
    ;
    assert(q * nthreads <= ny) by (nonlinear_arith)
        requires
            0 < nthreads,
            0 <= ny,
            q == ny / nthreads,
    ;
    assert(0 <= q * nth <= q * (nth + 1) <= q * nthreads) by (nonlinear_arith)
        requires
            0 <= q,
            0 <= nth < nthreads,
    ;
}

proof fn lemma_descending_concat(lo: int, mid: int, hi: int)
    requires
        lo <= mid <= hi,
    ensures
        descending(mid, hi) + descending(lo, mid) =~= descending(lo, hi),
{
}

/// Rendering the slices thread after thread, each from its top row down,
/// visits every row of the image exactly once, from the top row down.
pub proof fn lemma_slices_cover_rows(ny: int, nthreads: int)
    requires
        0 < nthreads,
        0 <= ny,
    ensures
        slices_in_order(ny, nthreads, nthreads).flatten() == descending(0, ny),
{
    lemma_slices_prefix(ny, nthreads, nthreads);
    lemma_slice_bounds(0, nthreads, ny);
}

proof fn lemma_slices_prefix(ny: int, nthreads: int, m: int)
    requires
        0 < nthreads,
        0 <= ny,
        1 <= m <= nthreads,
    ensures
        slices_in_order(ny, nthreads, m).flatten() == descending(
            slice_start(nthreads - m, nthreads, ny),
            ny,
        ),
    decreases m,
{
    let s = slices_in_order(ny, nthreads, m);
    lemma_slice_bounds(nthreads - m, nthreads, ny);
    if m == 1 {
        s.lemma_flatten_one_element();
    } else {
        lemma_slices_prefix(ny, nthreads, m - 1);
        let prev = slices_in_order(ny, nthreads, m - 1);
        assert(s =~= prev.push(s[m - 1]));
        prev.lemma_flatten_push(s[m - 1]);
        lemma_slice_bounds(nthreads - m + 1, nthreads, ny);
        lemma_descending_concat(
            slice_start(nthreads - m, nthreads, ny),
            slice_start(nthreads - m + 1, nthreads, ny),
            ny,
        );
    }
}

/// First row and end row of the horizontal slice that thread `nth` of
/// `nthreads` renders in an image of `ny` rows.
pub fn slice_bounds(nth: i32, nthreads: i32, ny: i32) -> (r: (i32, i32))
    requires
        0 < nthreads,
        0 <= nth < nthreads,
        0 <= ny,
    ensures
        r.0 == slice_start(nth as int, nthreads as int, ny as int),
        r.1 == slice_end(nth as int, nthreads as int, ny as int),
        0 <= r.0 <= r.1 <= ny,
{
    proof {
        lemma_slice_bounds(nth as int, nthreads as int, ny as int);
        lemma_slice_bounds(nthreads - 1, nthreads as int, ny as int);
    }
    let q = ny / nthreads;
    assert(q * (nth + 1) <= q * nthreads) by (nonlinear_arith)
        requires
            0 <= q,
            0 <= nth < nthreads,
    ;
    let start = q * nth;
    let end = if nth == nthreads - 1 {
        ny
    } else {
        q * (nth + 1)
    };
    (start, end)
}

fn count_down(lo: i32, hi: i32) -> (r: Vec<i32>)
    requires
        lo <= hi,
    ensures
        r@ == descending(lo as int, hi as int),
{
    let mut r: Vec<i32> = Vec::new();
    let mut x: i32 = hi;
    while x > lo
        invariant
            lo <= x <= hi,
            r@ =~= descending(x as int, hi as int),
        decreases x - lo,
    {
        x = x - 1;
        r.push(x);
    }
    r
}

/// Rows of a slice in the order they are rendered: from `end - 1` down to
/// `start`.
pub fn slice_rows(start: i32, end: i32) -> (r: Vec<i32>)
    requires
        start <= end,
    ensures
        r@ == descending(start as int, end as int),
{
    count_down(start, end)
}

/// Threads in the order they are started, and their buffers joined: the
/// thread of the top slice first.
pub fn thread_order(nthreads: i32) -> (r: Vec<i32>)
    requires
        0 <= nthreads,
    ensures
        r@ == descending(0, nthreads as int),
{
    count_down(0, nthreads)
}

/// The rows of an image of `ny` rows in the order that `nthreads` threads
/// render them and their buffers are joined.
pub fn render_rows(ny: i32, nthreads: i32) -> (r: Vec<i32>)
    requires
        0 < nthreads,
        0 <= ny,
    ensures
        r@ == slices_in_order(ny as int, nthreads as int, nthreads as int).flatten(),
        r@ == descending(0, ny as int),
{
    let order = thread_order(nthreads);
    let mut rows: Vec<i32> = Vec::new();
    let mut m: usize = 0;
    while m < order.len()
        invariant
            0 < nthreads,
            0 <= ny,
            order@ == descending(0, nthreads as int),
            m <= order@.len(),
            rows@ == slices_in_order(ny as int, nthreads as int, m as int).flatten(),
        decreases order@.len() - m,
    {
        let nth = order[m];
        let (start, end) = slice_bounds(nth, nthreads, ny);
        let mut slice = slice_rows(start, end);
        proof {
            let prev = slices_in_order(ny as int, nthreads as int, m as int);
            let next = slices_in_order(ny as int, nthreads as int, m + 1);
            assert(next =~= prev.push(slice@));
            prev.lemma_flatten_push(slice@);
        }
        rows.append(&mut slice);
        m = m + 1;
    }
    proof {
        lemma_slices_cover_rows(ny as int, nthreads as int);
    }
    rows
}

/// The views of a sequence of buffers.
pub open spec fn buffer_views(bufs: Seq<Vec<i32>>) -> Seq<Seq<i32>> {
    bufs.map_values(|b: Vec<i32>| b@)
}

/// Joins the buffers of the render threads, in the order given, into one.
pub fn assemble(slices: Vec<Vec<i32>>) -> (r: Vec<i32>)
    ensures
        r@ == buffer_views(slices@).flatten(),
{
    let mut out: Vec<i32> = Vec::new();
    let mut i: usize = 0;
    while i < slices.len()
        invariant
            i <= slices@.len(),
            out@ == buffer_views(slices@.subrange(0, i as int)).flatten(),
        decreases slices@.len() - i,
    {
        let buf = &slices[i];
        proof {
            let prev = buffer_views(slices@.subrange(0, i as int));
            assert(buffer_views(slices@.subrange(0, i + 1)) =~= prev.push(buf@));
            prev.lemma_flatten_push(buf@);
        }
        let mut j: usize = 0;
        let ghost before = out@;
        while j < buf.len()
            invariant
                j <= buf@.len(),
                out@ =~= before + buf@.subrange(0, j as int),
            decreases buf@.len() - j,
        {
            out.push(buf[j]);
            j = j + 1;
        }
        assert(buf@.subrange(0, buf@.len() as int) =~= buf@);
        i = i + 1;
    }
    assert(slices@.subrange(0, slices@.len() as int) =~= slices@);
    out
}

/// The buffer of a run of rows: the data of each row, one row after another.
pub open spec fn rows_buffer(rows: Seq<i32>, row: spec_fn(i32) -> Seq<i32>) -> Seq<i32> {
    rows.map_values(row).flatten()
}

proof fn lemma_buffers_of_runs(runs: Seq<Seq<i32>>, row: spec_fn(i32) -> Seq<i32>)
    ensures
        runs.map_values(|rows: Seq<i32>| rows_buffer(rows, row)).flatten() == rows_buffer(
            runs.flatten(),
            row,
        ),
    decreases runs.len(),
{
    let f = |rows: Seq<i32>| rows_buffer(rows, row);
    if runs.len() == 0 {
        assert(runs.map_values(f) =~= Seq::<Seq<i32>>::empty());
        assert(runs.flatten() =~= Seq::<i32>::empty());
        assert(runs.flatten().map_values(row) =~= Seq::<Seq<i32>>::empty());
    } else {
        let init = runs.drop_last();
        let x = runs.last();
        assert(runs =~= init.push(x));
        lemma_buffers_of_runs(init, row);
        assert(runs.map_values(f) =~= init.map_values(f).push(f(x)));
        init.map_values(f).lemma_flatten_push(f(x));
        init.lemma_flatten_push(x);
        assert((init.flatten() + x).map_values(row) =~= init.flatten().map_values(row)
            + x.map_values(row));
        vstd::seq_lib::lemma_flatten_concat(init.flatten().map_values(row), x.map_values(row));
    }
}

/// When each thread's buffer holds the data of its slice's rows, from the
/// slice's top row down, joining the buffers in thread order gives the data
/// of every row of the image, from the top row down: the row-major image.
pub proof fn lemma_assembled_buffer(ny: int, nthreads: int, row: spec_fn(i32) -> Seq<i32>)
    requires
        0 < nthreads,
        0 <= ny,
    ensures
        slices_in_order(ny, nthreads, nthreads).map_values(
            |rows: Seq<i32>| rows_buffer(rows, row),
        ).flatten() == rows_buffer(descending(0, ny), row),
{
    lemma_buffers_of_runs(slices_in_order(ny, nthreads, nthreads), row);
    lemma_slices_cover_rows(ny, nthreads);
}

} // verus!
