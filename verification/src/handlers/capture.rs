//! Screen capture into clients' shared memory.
use std::ops::Range;
use vstd::prelude::*;

verus! {

/// Pixel formats that a client may offer.
#[derive(Debug, Clone, Copy, PartialEq, Eq, Structural)]
pub enum ShmFormat {
    Argb8888,
    Xrgb8888,
}

/// What a capture buffer has to be: as large as the output, in one of two
/// formats.
#[derive(Debug)]
pub struct BufferConstraints {
    pub size: (i32, i32),
    pub shm: Vec<ShmFormat>,
}

/// The constraints for an output whose mode has a given size.
pub fn buffer_constraints_for_mode(size: (i32, i32)) -> (r: BufferConstraints)
    ensures
        r.size == size,
        r.shm@ == seq![ShmFormat::Argb8888, ShmFormat::Xrgb8888],
{
    let mut shm: Vec<ShmFormat> = Vec::new();
    shm.push(ShmFormat::Argb8888);
    shm.push(ShmFormat::Xrgb8888);
    assert(shm@ =~= seq![ShmFormat::Argb8888, ShmFormat::Xrgb8888]);
    BufferConstraints { size, shm }
}

/// Why a capture fails.
#[derive(Debug, Clone, Copy, PartialEq, Eq, Structural)]
pub enum FailureReason {
    Unknown,
    BufferConstraints,
}

/// What a capture needs to know before anything is drawn.
#[derive(Debug, Clone, Copy, PartialEq, Eq)]
pub struct CaptureJob {
    pub output_index: usize,
    pub size: (i32, i32),
    /// The pixel format to draw in, as a DRM format code.
    pub fourcc: u32,
    pub offset: i32,
    pub stride: i32,
}

/// A client's buffer: the DRM code of its format, if it has one, where its
/// pixels start and how far apart its rows are.
#[derive(Debug, Clone, Copy, PartialEq, Eq)]
pub struct ShmBuffer {
    pub fourcc: Option<u32>,
    pub offset: i32,
    pub stride: i32,
}

/// Prepares a capture into a client's buffer. It takes an output that is one
/// of the stack's and has a mode, a readable buffer in a known format and a
/// renderer; just an unknown format is the client's own fault.
pub fn prepare_capture(
    output_index: Option<usize>,
    mode: Option<(i32, i32)>,
    buffer: Option<ShmBuffer>,
    has_renderer: bool,
) -> (r: Result<CaptureJob, FailureReason>)
    ensures
        match r {
            Ok(job) => {
                &&& output_index == Some(job.output_index)
                &&& mode == Some(job.size)
                &&& buffer == Some(
                    ShmBuffer {
                        fourcc: Some(job.fourcc),
                        offset: job.offset,
                        stride: job.stride,
                    },
                )
                &&& has_renderer
            },
            Err(FailureReason::BufferConstraints) => {
                output_index is Some && mode is Some && buffer is Some && buffer->0.fourcc is None
            },
            Err(FailureReason::Unknown) => {
                ||| output_index is None
                ||| mode is None
                ||| buffer is None
                ||| buffer->0.fourcc is Some && !has_renderer
            },
        },
{
    match (output_index, mode, buffer) {
        (Some(output_index), Some(size), Some(b)) => match b.fourcc {
            None => Err(FailureReason::BufferConstraints),
            Some(fourcc) => if has_renderer {
                Ok(CaptureJob { output_index, size, fourcc, offset: b.offset, stride: b.stride })
            } else {
                Err(FailureReason::Unknown)
            },
        },
        _ => Err(FailureReason::Unknown),
    }
}

/// Whether row `row` of a capture lies within the pixels and within the
/// client's buffer.
pub open spec fn row_fits(
    row: int,
    row_bytes: int,
    offset: int,
    stride: int,
    src_len: int,
    dst_len: int,
) -> bool {
    (row + 1) * row_bytes <= src_len && offset + row * stride + row_bytes <= dst_len
}

/// The bytes of row `row`: in the pixels, packed tightly, and in the client's
/// buffer.
pub open spec fn row_ranges(row: int, row_bytes: int, offset: int, stride: int) -> (
    Range<usize>,
    Range<usize>,
) {
    (
        Range {
            start: (row * row_bytes) as usize,
            end: (row * row_bytes + row_bytes) as usize,
        },
        Range {
            start: (offset + row * stride) as usize,
            end: (offset + row * stride + row_bytes) as usize,
        },
    )
}

/// Whether a plan copies the first rows of a capture, all of which fit.
pub open spec fn planned(
    plan: Seq<(Range<usize>, Range<usize>)>,
    row_bytes: int,
    offset: int,
    stride: int,
    src_len: int,
    dst_len: int,
) -> bool {
    forall|i: int|
        0 <= i < plan.len() ==> #[trigger] plan[i] == row_ranges(i, row_bytes, offset, stride)
            && row_fits(i, row_bytes, offset, stride, src_len, dst_len)
}

/// The copies that bring a capture into a client's buffer, row by row: every
/// row up to the first that does not fit. `size` is the capture's, `offset` and
/// `stride` are the buffer's.
pub fn shm_copy_plan(
    size: (i32, i32),
    offset: i32,
    stride: i32,
    src_len: usize,
    dst_len: usize,
) -> (r: Vec<(Range<usize>, Range<usize>)>)
    requires
        0 <= size.0,
        0 <= size.1,
        0 <= offset,
        0 <= stride,
        size.0 * 4 <= usize::MAX,
        size.1 * (size.0 * 4) <= usize::MAX,
        offset + size.1 * stride + size.0 * 4 <= usize::MAX,
    ensures
        r@.len() <= size.1,
        planned(
            r@,
            size.0 * 4,
            offset as int,
            stride as int,
            src_len as int,
            dst_len as int,
        ),
        r@.len() < size.1 ==> !row_fits(
            r@.len() as int,
            size.0 * 4,
            offset as int,
            stride as int,
            src_len as int,
            dst_len as int,
        ),
{
    let row_bytes: usize = size.0 as usize * 4;
    let height: usize = size.1 as usize;
    let from: usize = offset as usize;
    let step: usize = stride as usize;
    let mut plan: Vec<(Range<usize>, Range<usize>)> = Vec::new();
    for row in 0..height
        invariant
            row_bytes == size.0 * 4,
            height == size.1,
            from == offset,
            step == stride,
            0 <= size.1,
            0 <= offset,
            0 <= stride,
            size.1 * (size.0 * 4) <= usize::MAX,
            offset + size.1 * stride + size.0 * 4 <= usize::MAX,
            plan@.len() == row,
            planned(
                plan@,
                size.0 * 4,
                offset as int,
                stride as int,
                src_len as int,
                dst_len as int,
            ),
    {
        proof {
            assert(row * row_bytes + row_bytes == (row + 1) * row_bytes) by (nonlinear_arith);
            assert((row + 1) * row_bytes <= height * row_bytes) by (nonlinear_arith)
                requires
                    row + 1 <= height,
                    0 <= row_bytes,
            ;
            assert(row * step <= height * step) by (nonlinear_arith)
                requires
                    row <= height,
                    0 <= step,
            ;
            assert(0 <= row * row_bytes) by (nonlinear_arith)
                requires
                    0 <= row,
                    0 <= row_bytes,
            ;
            assert(0 <= row * step) by (nonlinear_arith)
                requires
                    0 <= row,
                    0 <= step,
            ;
        }
        let src_start: usize = row * row_bytes;
        let dst_start: usize = from + row * step;
        let src_end: usize = src_start + row_bytes;
        let dst_end: usize = dst_start + row_bytes;
        if src_end > src_len || dst_end > dst_len {
            return plan;
        }
        plan.push((src_start..src_end, dst_start..dst_end));
    }
    plan
}

/// Once a row does not fit, no later one does.
pub proof fn law_rows_stop_fitting_for_good(
    row: int,
    later: int,
    row_bytes: int,
    offset: int,
    stride: int,
    src_len: int,
    dst_len: int,
)
    requires
        0 <= row <= later,
        0 <= row_bytes,
        0 <= stride,
        !row_fits(row, row_bytes, offset, stride, src_len, dst_len),
    ensures
        !row_fits(later, row_bytes, offset, stride, src_len, dst_len),
{
    assert((row + 1) * row_bytes <= (later + 1) * row_bytes) by (nonlinear_arith)
        requires
            row <= later,
            0 <= row_bytes,
    ;
    assert(row * stride <= later * stride) by (nonlinear_arith)
        requires
            row <= later,
            0 <= stride,
    ;
}

/// With rows at least as far apart as they are long, no two rows are written to
/// the same bytes.
pub proof fn law_rows_do_not_overlap(
    row: int,
    later: int,
    row_bytes: int,
    offset: int,
    stride: int,
)
    requires
        0 <= row < later,
        0 <= row_bytes <= stride,
    ensures
        offset + row * stride + row_bytes <= offset + later * stride,
{
    assert(row * stride + stride <= later * stride) by (nonlinear_arith)
        requires
            row + 1 <= later,
            0 <= stride,
    ;
}

/// A capture session: its number, and its output, while that is there.
#[derive(Debug, Clone, Copy, PartialEq, Eq)]
pub struct CaptureSession {
    pub id: u64,
    pub output: Option<u64>,
}

/// The capture sessions that are going on. They have to be kept: one that is
/// dropped is stopped.
#[derive(Debug)]
pub struct CaptureSessions {
    pub sessions: Vec<CaptureSession>,
}

/// The size to tell a session of, given the outputs that have a mode.
pub open spec fn mode_of(modes: Seq<(u64, (i32, i32))>, output: u64) -> Option<(i32, i32)>
    decreases modes.len(),
{
    if modes.len() == 0 {
        None
    } else if modes[0].0 == output {
        Some(modes[0].1)
    } else {
        mode_of(modes.drop_first(), output)
    }
}

/// What the first `n` sessions have to be told: the size of its output, for each
/// whose output is there and has a mode.
pub open spec fn updates(
    sessions: Seq<CaptureSession>,
    modes: Seq<(u64, (i32, i32))>,
    n: int,
) -> Seq<(u64, (i32, i32))>
    decreases n,
{
    if n <= 0 {
        Seq::empty()
    } else {
        let before = updates(sessions, modes, n - 1);
        let s = sessions[n - 1];
        match s.output {
            Some(output) => match mode_of(modes, output) {
                Some(size) => before.push((s.id, size)),
                None => before,
            },
            None => before,
        }
    }
}

fn find_mode(modes: &Vec<(u64, (i32, i32))>, output: u64) -> (r: Option<(i32, i32)>)
    ensures
        r == mode_of(modes@, output),
{
    assert(modes@.skip(0) =~= modes@);
    for i in 0..modes.len()
        invariant
            mode_of(modes@, output) == mode_of(modes@.skip(i as int), output),
    {
        assert(modes@.skip(i as int)[0] == modes@[i as int]);
        assert(modes@.skip(i as int).drop_first() =~= modes@.skip(i + 1));
        if modes[i].0 == output {
            return Some(modes[i].1);
        }
    }
    None
}

impl CaptureSessions {
    pub fn new() -> (r: Self)
        ensures
            r.sessions@ == Seq::<CaptureSession>::empty(),
    {
        CaptureSessions { sessions: Vec::new() }
    }

    pub fn new_session(&mut self, session: CaptureSession)
        ensures
            final(self).sessions@ == old(self).sessions@.push(session),
    {
        self.sessions.push(session);
    }

    pub fn session_destroyed(&mut self, id: u64)
        ensures
            final(self).sessions@ == old(self).sessions@.filter(|s: CaptureSession| s.id != id),
    {
        let mut kept: Vec<CaptureSession> = Vec::new();
        let ghost keep = |s: CaptureSession| s.id != id;
        proof {
            reveal(Seq::filter);
            assert(self.sessions@.take(0) =~= Seq::empty());
        }
        for i in 0..self.sessions.len()
            invariant
                keep == (|s: CaptureSession| s.id != id),
                kept@ == self.sessions@.take(i as int).filter(keep),
        {
            proof {
                reveal(Seq::filter);
                assert(self.sessions@.take(i + 1).drop_last() =~= self.sessions@.take(i as int));
                assert(self.sessions@.take(i + 1).last() == self.sessions@[i as int]);
            }
            if self.sessions[i].id != id {
                kept.push(self.sessions[i]);
            }
        }
        assert(self.sessions@.take(self.sessions@.len() as int) =~= self.sessions@);
        self.sessions = kept;
    }

    /// The sessions to tell of their output's size, after outputs changed.
    /// `modes` holds the size of every output that has a mode.
    pub fn refresh_capture_constraints(&self, modes: &Vec<(u64, (i32, i32))>) -> (r: Vec<
        (u64, (i32, i32)),
    >)
        ensures
            r@ == updates(self.sessions@, modes@, self.sessions@.len() as int),
    {
        let mut out: Vec<(u64, (i32, i32))> = Vec::new();
        for i in 0..self.sessions.len()
            invariant
                out@ == updates(self.sessions@, modes@, i as int),
        {
            let s = self.sessions[i];
            if let Some(output) = s.output {
                if let Some(size) = find_mode(modes, output) {
                    out.push((s.id, size));
                }
            }
        }
        out
    }
}

/// The rows of a capture lie one behind the other in the pixels, from their
/// start on, and in the client's buffer a stride apart, from the offset on. A
/// row has the same length in both.
pub proof fn law_rows_lie_a_stride_apart(row: int, row_bytes: int, offset: int, stride: int)
    requires
        0 <= row,
        0 <= row_bytes,
        0 <= offset,
        0 <= stride,
        (row + 2) * row_bytes <= usize::MAX,
        offset + (row + 1) * stride + row_bytes <= usize::MAX,
    ensures
        ({
            let (from, to) = row_ranges(row, row_bytes, offset, stride);
            let (next_from, next_to) = row_ranges(row + 1, row_bytes, offset, stride);
            &&& row == 0 ==> from.start == 0 && to.start == offset
            &&& from.end - from.start == row_bytes
            &&& to.end - to.start == row_bytes
            &&& next_from.start == from.end
            &&& next_to.start == to.start + stride
        }),
{
    assert((row + 1) * row_bytes == row * row_bytes + row_bytes && (row + 2) * row_bytes == row
        * row_bytes + row_bytes + row_bytes && (row + 1) * stride == row * stride + stride && 0
        <= row * row_bytes && 0 <= row * stride) by (nonlinear_arith)
        requires
            0 <= row,
            0 <= row_bytes,
            0 <= stride,
    ;
    assert(0 * row_bytes == 0 && 0 * stride == 0) by (nonlinear_arith);
}

/// A row fits exactly if it ends within the pixels and within the buffer.
pub proof fn law_when_a_row_fits(
    row: int,
    row_bytes: int,
    offset: int,
    stride: int,
    src_len: int,
    dst_len: int,
)
    requires
        0 <= row,
        0 <= row_bytes,
        0 <= offset,
        0 <= stride,
        (row + 1) * row_bytes <= usize::MAX,
        offset + row * stride + row_bytes <= usize::MAX,
    ensures
        row_fits(row, row_bytes, offset, stride, src_len, dst_len) <==> row_ranges(
            row,
            row_bytes,
            offset,
            stride,
        ).0.end <= src_len && row_ranges(row, row_bytes, offset, stride).1.end <= dst_len,
{
    assert((row + 1) * row_bytes == row * row_bytes + row_bytes && 0 <= row * row_bytes && 0 <= row
        * stride) by (nonlinear_arith)
        requires
            0 <= row,
            0 <= row_bytes,
            0 <= stride,
    ;
}

/// The size found for an output is that of the first mode listed for it.
pub proof fn law_mode_of_an_output(modes: Seq<(u64, (i32, i32))>, output: u64)
    ensures
        match mode_of(modes, output) {
            Some(size) => exists|i: int|
                0 <= i < modes.len() && (#[trigger] modes[i]).0 == output && modes[i].1 == size
                    && forall|k: int| 0 <= k < i ==> (#[trigger] modes[k]).0 != output,
            None => forall|i: int| 0 <= i < modes.len() ==> (#[trigger] modes[i]).0 != output,
        },
    decreases modes.len(),
{
    if modes.len() > 0 {
        let t = modes.drop_first();
        if modes[0].0 == output {
            assert(modes[0].1 == mode_of(modes, output)->0);
        } else {
            law_mode_of_an_output(t, output);
            match mode_of(t, output) {
                Some(size) => {
                    let i = choose|i: int|
                        0 <= i < t.len() && (#[trigger] t[i]).0 == output && t[i].1 == size
                            && forall|k: int| 0 <= k < i ==> (#[trigger] t[k]).0 != output;
                    assert(modes[i + 1] == t[i]);
                    assert forall|k: int| 0 <= k < i + 1 implies (#[trigger] modes[k]).0
                        != output by {
                        if k > 0 {
                            assert(t[k - 1] == modes[k]);
                        }
                    }
                },
                None => {
                    assert forall|i: int| 0 <= i < modes.len() implies (#[trigger] modes[i]).0
                        != output by {
                        if i > 0 {
                            assert(t[i - 1] == modes[i]);
                        }
                    }
                },
            }
        }
    }
}

/// A session is told of its own output's size, under its own number, where that
/// output has a mode; a session without an output is told nothing. Sessions are
/// told in the order in which they began.
pub proof fn law_sessions_are_told_their_own_size(
    sessions: Seq<CaptureSession>,
    modes: Seq<(u64, (i32, i32))>,
    n: int,
)
    requires
        0 <= n < sessions.len(),
    ensures
        ({
            let before = updates(sessions, modes, n);
            let after = updates(sessions, modes, n + 1);
            let session = sessions[n];
            let told = session.output is Some && mode_of(modes, session.output->0) is Some;
            &&& told ==> after == before.push(
                (session.id, mode_of(modes, session.output->0)->0),
            )
            &&& !told ==> after == before
        }),
        updates(sessions, modes, 0) == Seq::<(u64, (i32, i32))>::empty(),
{
}

/// A plan's rows come in order and within both sides: row `i` is read from behind
/// the `i` rows before it, written as many strides behind the offset, and neither
/// ends outside.
pub proof fn law_planned_rows_stay_inside(
    plan: Seq<(Range<usize>, Range<usize>)>,
    row_bytes: int,
    offset: int,
    stride: int,
    src_len: usize,
    dst_len: usize,
    i: int,
)
    requires
        planned(plan, row_bytes, offset, stride, src_len as int, dst_len as int),
        0 <= i < plan.len(),
        0 <= row_bytes,
        0 <= offset,
        0 <= stride,
    ensures
        plan[i].0.start == i * row_bytes,
        plan[i].0.end == i * row_bytes + row_bytes,
        plan[i].0.end <= src_len,
        plan[i].1.start == offset + i * stride,
        plan[i].1.end == offset + i * stride + row_bytes,
        plan[i].1.end <= dst_len,
{
    assert((i + 1) * row_bytes == i * row_bytes + row_bytes && 0 <= i * row_bytes && 0 <= i
        * stride) by (nonlinear_arith)
        requires
            0 <= i,
            0 <= row_bytes,
            0 <= stride,
    ;
}

} // verus!
