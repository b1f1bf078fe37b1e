//! The video stream of a screen cast: when its node is reported, and what a
//! frame puts into a buffer.
use vstd::prelude::*;

use crate::portal::capture::CapturedImage;

verus! {

/// A state of the stream.
#[derive(Debug)]
pub enum StreamState {
    Paused,
    Error(String),
    Other,
}

/// Whether the stream's node has still to be reported.
#[derive(Debug, Clone, Copy, PartialEq, Eq, Structural)]
pub struct StreamData {
    pub awaited: bool,
}

impl StreamData {
    pub fn new() -> (r: Self)
        ensures
            r.awaited,
    {
        StreamData { awaited: true }
    }

    /// What to report on a change of state: the node when the stream pauses
    /// first, or the error if that comes before. Nothing is reported twice.
    pub fn state_changed(&mut self, state: StreamState, node_id: u32) -> (r: Option<
        Result<u32, String>,
    >)
        ensures
            final(self).awaited == (old(self).awaited && state is Other),
            r == if !old(self).awaited {
                None
            } else {
                match state {
                    StreamState::Paused => Some(Ok(node_id)),
                    StreamState::Error(err) => Some(Err(err)),
                    StreamState::Other => None,
                }
            },
    {
        match state {
            StreamState::Paused => {
                if self.awaited {
                    self.awaited = false;
                    return Some(Ok(node_id));
                }
                None
            },
            StreamState::Error(err) => {
                if self.awaited {
                    self.awaited = false;
                    return Some(Err(err));
                }
                None
            },
            StreamState::Other => None,
        }
    }
}

/// How a buffer is filled: how many bytes of the frame go into it, and how far
/// apart its rows are.
#[derive(Debug, Clone, Copy, PartialEq, Eq, Structural)]
pub struct Chunk {
    pub offset: u32,
    pub stride: i32,
    pub size: u32,
}

/// How a buffer of `len` bytes is filled with a frame: with as much of it as
/// there is room for.
pub fn frame_chunk(len: usize, image: &CapturedImage) -> (r: Chunk)
    requires
        image.width * 4 <= u32::MAX,
    ensures
        r == (Chunk {
            offset: 0,
            stride: (image.width * 4) as i32,
            size: (if len < image.rgba@.len() {
                len as int
            } else {
                image.rgba@.len() as int
            }) as u32,
        }),
{
    let n: usize = if len < image.rgba.len() {
        len
    } else {
        image.rgba.len()
    };
    Chunk { offset: 0, stride: (image.width * 4) as i32, size: n as u32 }
}

/// A buffer once it is filled with a frame.
pub open spec fn filled(buf: Seq<u8>, rgba: Seq<u8>) -> Seq<u8> {
    Seq::new(
        buf.len(),
        |i: int|
            if i < rgba.len() {
                rgba[i]
            } else {
                buf[i]
            },
    )
}

/// Fills a buffer with a frame, as far as there is room.
pub fn fill(buf: &mut [u8], image: &CapturedImage)
    ensures
        final(buf)@ == filled(old(buf)@, image.rgba@),
{
    let n: usize = if buf.len() < image.rgba.len() {
        buf.len()
    } else {
        image.rgba.len()
    };
    let ghost start = buf@;
    let mut i: usize = 0;
    while i < n
        invariant
            i <= n,
            n <= buf@.len(),
            n <= image.rgba@.len(),
            buf@.len() == start.len(),
            forall|k: int| 0 <= k < i ==> buf@[k] == image.rgba@[k],
            forall|k: int| i <= k < buf@.len() ==> buf@[k] == start[k],
        decreases n - i,
    {
        buf[i] = image.rgba[i];
        i = i + 1;
    }
    assert(buf@ =~= filled(start, image.rgba@));
}

/// A filled buffer keeps its length. As far as the frame reaches it holds the
/// frame, and what it held behind that.
pub proof fn law_filled_buffer(buf: Seq<u8>, rgba: Seq<u8>, i: int)
    requires
        0 <= i < buf.len(),
    ensures
        filled(buf, rgba).len() == buf.len(),
        i < rgba.len() ==> filled(buf, rgba)[i] == rgba[i],
        i >= rgba.len() ==> filled(buf, rgba)[i] == buf[i],
{
}

} // verus!
