//! Capturing an output as a client: what the compositor announces, the buffer
//! to allocate, and its conversion to plain RGBA.
use vstd::arithmetic::div_mod::*;
use vstd::prelude::*;

verus! {

/// A pixel format of shared memory.
#[derive(Debug, Clone, Copy, PartialEq, Eq, Structural)]
pub enum PixelFormat {
    Argb8888,
    Xrgb8888,
    Other(u32),
}

/// What the compositor says about a capture session.
#[derive(Debug, Clone, Copy, PartialEq, Eq, Structural)]
pub enum SessionEvent {
    BufferSize { width: u32, height: u32 },
    ShmFormat(PixelFormat),
    Done,
    Stopped,
    Other,
}

/// What is known of a capture session so far.
#[derive(Debug, Clone, Copy, PartialEq, Eq)]
pub struct SessionCapture {
    pub width: u32,
    pub height: u32,
    pub shm_format: Option<PixelFormat>,
    pub done: bool,
    pub stopped: bool,
}

impl Default for SessionCapture {
    fn default() -> (r: Self)
        ensures
            r == (SessionCapture {
                width: 0,
                height: 0,
                shm_format: None,
                done: false,
                stopped: false,
            }),
    {
        SessionCapture { width: 0, height: 0, shm_format: None, done: false, stopped: false }
    }
}

/// The format to use once another one is offered: the first, until the one with
/// an alpha channel comes.
pub open spec fn preferred(known: Option<PixelFormat>, offered: PixelFormat) -> Option<PixelFormat> {
    if known is None || offered is Argb8888 {
        Some(offered)
    } else {
        known
    }
}

/// What is known of a capture session after an event.
pub open spec fn session_after(s: SessionCapture, event: SessionEvent) -> SessionCapture {
    match event {
        SessionEvent::BufferSize { width, height } => SessionCapture { width, height, ..s },
        SessionEvent::ShmFormat(format) => SessionCapture {
            shm_format: preferred(s.shm_format, format),
            ..s
        },
        SessionEvent::Done => SessionCapture { done: true, ..s },
        SessionEvent::Stopped => SessionCapture { stopped: true, ..s },
        SessionEvent::Other => s,
    }
}

/// Once the format with an alpha channel was offered, it is the one used,
/// whatever else is offered after it.
pub proof fn law_alpha_format_stays(s: SessionCapture, event: SessionEvent)
    requires
        s.shm_format == Some(PixelFormat::Argb8888),
    ensures
        session_after(s, event).shm_format == Some(PixelFormat::Argb8888),
{
}

/// Why a capture fails.
#[derive(Debug, Clone, Copy, PartialEq, Eq, Structural)]
pub enum CaptureError {
    NoOutput,
    NoSourceManager,
    NoCaptureManager,
    NoShm,
    /// The session was stopped before its constraints came.
    Stopped,
    /// No format was offered.
    NoFormat,
    /// The buffer would be empty.
    ZeroSize,
    /// The captured buffer is shorter than announced.
    ShortBuffer,
}

/// The buffer to allocate for a capture.
#[derive(Debug, Clone, Copy, PartialEq, Eq, Structural)]
pub struct BufferPlan {
    pub width: u32,
    pub height: u32,
    pub stride: u32,
    pub size: u64,
    pub format: PixelFormat,
}

/// Whether everything that a capture needs is there; else what is missing
/// first.
pub fn check_globals(output: bool, source_manager: bool, capture_manager: bool, shm: bool) -> (r:
    Result<(), CaptureError>)
    ensures
        r == if !output {
            Err(CaptureError::NoOutput)
        } else if !source_manager {
            Err(CaptureError::NoSourceManager)
        } else if !capture_manager {
            Err(CaptureError::NoCaptureManager)
        } else if !shm {
            Err(CaptureError::NoShm)
        } else {
            Ok(())
        },
{
    if !output {
        return Err(CaptureError::NoOutput);
    }
    if !source_manager {
        return Err(CaptureError::NoSourceManager);
    }
    if !capture_manager {
        return Err(CaptureError::NoCaptureManager);
    }
    if !shm {
        return Err(CaptureError::NoShm);
    }
    Ok(())
}

impl SessionCapture {
    /// Takes in what the compositor says.
    pub fn event(&mut self, event: SessionEvent)
        ensures
            *final(self) == session_after(*old(self), event),
    {
        match event {
            SessionEvent::BufferSize { width, height } => {
                self.width = width;
                self.height = height;
            },
            SessionEvent::ShmFormat(format) => {
                if self.shm_format.is_none() || matches!(format, PixelFormat::Argb8888) {
                    self.shm_format = Some(format);
                }
            },
            SessionEvent::Done => {
                self.done = true;
            },
            SessionEvent::Stopped => {
                self.stopped = true;
            },
            SessionEvent::Other => {},
        }
    }

    /// Whether the constraints are complete; an error if they will never be.
    pub fn ready(&self) -> (r: Result<bool, CaptureError>)
        ensures
            r == if self.stopped {
                Err(CaptureError::Stopped)
            } else {
                Ok(self.done)
            },
    {
        if self.stopped {
            return Err(CaptureError::Stopped);
        }
        Ok(self.done)
    }

    /// The buffer that meets the constraints.
    pub fn plan(&self) -> (r: Result<BufferPlan, CaptureError>)
        requires
            self.width * 4 <= u32::MAX,
        ensures
            r == match self.shm_format {
                None => Err(CaptureError::NoFormat),
                Some(format) => if self.width == 0 || self.height == 0 {
                    Err(CaptureError::ZeroSize)
                } else {
                    Ok(
                        BufferPlan {
                            width: self.width,
                            height: self.height,
                            stride: (self.width * 4) as u32,
                            size: (self.width * 4 * self.height) as u64,
                            format,
                        },
                    )
                },
            },
    {
        let format = match self.shm_format {
            None => {
                return Err(CaptureError::NoFormat);
            },
            Some(format) => format,
        };
        if self.width == 0 || self.height == 0 {
            return Err(CaptureError::ZeroSize);
        }
        let stride: u32 = self.width * 4;
        assert(0 <= stride * self.height <= 0xffff_ffff * 0xffff_ffff) by (nonlinear_arith)
            requires
                0 <= stride <= 0xffff_ffff,
                0 <= self.height <= 0xffff_ffff,
        ;
        let size: u64 = stride as u64 * self.height as u64;
        Ok(BufferPlan { width: self.width, height: self.height, stride, size, format })
    }
}

/// What the compositor says about a frame.
#[derive(Debug)]
pub enum FrameEvent {
    Ready,
    Failed(String),
    Other,
}

/// What is known of a frame so far.
#[derive(Debug)]
pub struct FrameCapture {
    pub ready: bool,
    pub failed: Option<String>,
}

impl Default for FrameCapture {
    fn default() -> (r: Self)
        ensures
            !r.ready,
            r.failed is None,
    {
        FrameCapture { ready: false, failed: None }
    }
}

impl FrameCapture {
    /// Takes in what the compositor says.
    pub fn event(&mut self, event: FrameEvent)
        ensures
            final(self).ready == (old(self).ready || event is Ready),
            final(self).failed == match event {
                FrameEvent::Failed(reason) => Some(reason),
                _ => old(self).failed,
            },
    {
        match event {
            FrameEvent::Ready => {
                self.ready = true;
            },
            FrameEvent::Failed(reason) => {
                self.failed = Some(reason);
            },
            FrameEvent::Other => {},
        }
    }

    /// What the frame has come to: `None` while it is awaited. A failure counts
    /// even for a frame that is ready.
    pub fn outcome(&self) -> (r: Option<bool>)
        ensures
            r == if self.failed is Some {
                Some(false)
            } else if self.ready {
                Some(true)
            } else {
                None
            },
    {
        if self.failed.is_some() {
            Some(false)
        } else if self.ready {
            Some(true)
        } else {
            None
        }
    }
}

/// A captured frame: tightly packed rows of RGBA pixels, the top row first.
#[derive(Debug)]
pub struct CapturedImage {
    pub width: u32,
    pub height: u32,
    pub rgba: Vec<u8>,
}

/// Whether a buffer holds every pixel of an image whose rows are `stride` bytes
/// apart.
pub open spec fn holds_image(len: int, width: int, height: int, stride: int) -> bool {
    width == 0 || height == 0 || (height - 1) * stride + width * 4 <= len
}

/// Byte `i` of the RGBA image out of a buffer whose pixels are in the order
/// blue, green, red, alpha. Without an alpha channel every pixel is opaque.
pub open spec fn rgba_byte(buf: Seq<u8>, width: int, stride: int, alpha: bool, i: int) -> u8 {
    let at = i / 4 / width * stride + i / 4 % width * 4;
    if i % 4 == 3 {
        if alpha {
            buf[at + 3]
        } else {
            255
        }
    } else {
        buf[at + 2 - i % 4]
    }
}

/// The RGBA image out of a buffer.
pub open spec fn rgba_image(
    buf: Seq<u8>,
    width: int,
    height: int,
    stride: int,
    alpha: bool,
) -> Seq<u8> {
    Seq::new((width * height * 4) as nat, |i: int| rgba_byte(buf, width, stride, alpha, i))
}

/// Converts a captured buffer to tightly packed RGBA.
pub fn convert_to_rgba(
    buf: &[u8],
    width: u32,
    height: u32,
    stride: u32,
    format: PixelFormat,
) -> (r: Result<Vec<u8>, CaptureError>)
    requires
        width * 4 <= u32::MAX,
        height * stride <= u32::MAX,
        width * height * 4 <= u32::MAX,
        width * height * 4 <= usize::MAX,
        height * stride + width * 4 <= usize::MAX,
    ensures
        r is Ok <==> holds_image(buf@.len() as int, width as int, height as int, stride as int),
        r is Err ==> r->Err_0 == CaptureError::ShortBuffer,
        r matches Ok(out) ==> out@ == rgba_image(
            buf@,
            width as int,
            height as int,
            stride as int,
            format is Argb8888,
        ),
{
    let alpha = matches!(format, PixelFormat::Argb8888);
    let ghost image = rgba_image(buf@, width as int, height as int, stride as int, alpha);
    let mut out: Vec<u8> = Vec::new();
    assert(width * height == height * width) by (nonlinear_arith);
    assert(out@ =~= image.take(0));
    assert(0 <= width * height) by (nonlinear_arith)
        requires
            0 <= width,
            0 <= height,
    ;
    let mut y: u32 = 0;
    while y < height
        invariant
            y <= height,
            width * 4 <= u32::MAX,
            height * stride <= u32::MAX,
            width * height * 4 <= u32::MAX,
            height * stride + width * 4 <= usize::MAX,
            alpha == (format is Argb8888),
            image == rgba_image(buf@, width as int, height as int, stride as int, alpha),
            out@ == image.take(y * width * 4),
            y > 0 && width > 0 ==> (y - 1) * stride + width * 4 <= buf@.len(),
        decreases height - y,
    {
        proof {
            assert(0 <= y * stride <= height * stride) by (nonlinear_arith)
                requires
                    0 <= y <= height,
                    0 <= stride,
            ;
        }
        let row_start: usize = (y * stride) as usize;
        let mut x: u32 = 0;
        assert(out@ =~= image.take((y * width + 0) * 4));
        while x < width
            invariant
                x <= width,
                y < height,
                width * 4 <= u32::MAX,
                height * stride <= u32::MAX,
                width * height * 4 <= u32::MAX,
                height * stride + width * 4 <= usize::MAX,
                0 <= y * stride <= height * stride,
                row_start == y * stride,
                alpha == (format is Argb8888),
                image == rgba_image(buf@, width as int, height as int, stride as int, alpha),
                out@ == image.take((y * width + x) * 4),
                x > 0 ==> y * stride + x * 4 <= buf@.len(),
            decreases width - x,
        {
            let px: usize = row_start + (x * 4) as usize;
            if buf.len() < 4 || px > buf.len() - 4 {
                proof {
                    assert(y * stride <= (height - 1) * stride) by (nonlinear_arith)
                        requires
                            y <= height - 1,
                            0 <= stride,
                    ;
                }
                return Err(CaptureError::ShortBuffer);
            }
            let b: u8 = buf[px];
            let g: u8 = buf[px + 1];
            let red: u8 = buf[px + 2];
            let a: u8 = if alpha {
                buf[px + 3]
            } else {
                255
            };
            out.push(red);
            out.push(g);
            out.push(b);
            out.push(a);
            proof {
                let p = y * width + x;
                assert(0 <= y * width) by (nonlinear_arith)
                    requires
                        0 <= y,
                        0 <= width,
                ;
                assert(p + 1 <= width * height) by (nonlinear_arith)
                    requires
                        p == y * width + x,
                        0 <= x <= width - 1,
                        0 <= y <= height - 1,
                ;
                lemma_fundamental_div_mod_converse(p, width as int, y as int, x as int);
                let i = p * 4;
                assert(i / 4 == p && (i + 1) / 4 == p && (i + 2) / 4 == p && (i + 3) / 4 == p);
                assert(p / width as int == y && p % width as int == x);
                assert(image[i] == red);
                assert(image[i + 1] == g);
                assert(image[i + 2] == b);
                assert(image[i + 3] == a);
                assert(out@ =~= image.take((y * width + x + 1) * 4));
            }
            x = x + 1;
        }
        proof {
            assert(y * width + width == (y + 1) * width) by (nonlinear_arith);
        }
        y = y + 1;
    }
    assert(height * width * 4 == image.len()) by {
        assert(width * height == height * width) by (nonlinear_arith);
    }
    assert(out@ =~= image);
    Ok(out)
}

/// Each event changes what it speaks of, and nothing else: a size takes the place
/// of the last one; the first format is kept until the one with an alpha channel
/// is offered; the end of the constraints and of the session are noted.
pub proof fn law_event_changes_its_own(
    s: SessionCapture,
    width: u32,
    height: u32,
    format: PixelFormat,
)
    ensures
        ({
            let sized = session_after(s, SessionEvent::BufferSize { width, height });
            &&& sized.width == width && sized.height == height
            &&& sized.shm_format == s.shm_format && sized.done == s.done && sized.stopped
                == s.stopped
        }),
        ({
            let offered = session_after(s, SessionEvent::ShmFormat(format));
            &&& s.shm_format is None || format is Argb8888 ==> offered.shm_format == Some(format)
            &&& s.shm_format is Some && !(format is Argb8888) ==> offered.shm_format
                == s.shm_format
            &&& offered.width == s.width && offered.height == s.height && offered.done == s.done
                && offered.stopped == s.stopped
        }),
        ({
            let done = session_after(s, SessionEvent::Done);
            &&& done.done
            &&& done.width == s.width && done.height == s.height && done.shm_format
                == s.shm_format && done.stopped == s.stopped
        }),
        ({
            let stopped = session_after(s, SessionEvent::Stopped);
            &&& stopped.stopped
            &&& stopped.width == s.width && stopped.height == s.height && stopped.shm_format
                == s.shm_format && stopped.done == s.done
        }),
        session_after(s, SessionEvent::Other) == s,
{
}

/// The pixel in column `x` of row `y` of the image is the one there in the
/// buffer, whose bytes are in the order blue, green, red, alpha. Without an alpha
/// channel it is opaque.
pub proof fn law_pixels_are_reordered(
    buf: Seq<u8>,
    width: int,
    height: int,
    stride: int,
    alpha: bool,
    x: int,
    y: int,
)
    requires
        0 <= x < width,
        0 <= y < height,
    ensures
        ({
            let image = rgba_image(buf, width, height, stride, alpha);
            let to = (y * width + x) * 4;
            let from = y * stride + x * 4;
            &&& image.len() == width * height * 4
            &&& 0 <= to && to + 3 < image.len()
            &&& image[to] == buf[from + 2]
            &&& image[to + 1] == buf[from + 1]
            &&& image[to + 2] == buf[from]
            &&& image[to + 3] == (if alpha {
                buf[from + 3]
            } else {
                255
            })
        }),
{
    let to = (y * width + x) * 4;
    assert(0 <= y * width && y * width + x < width * height) by (nonlinear_arith)
        requires
            0 <= x < width,
            0 <= y < height,
    ;
    assert((y * width + x) / width == y && (y * width + x) % width == x) by (nonlinear_arith)
        requires
            0 <= x < width,
            0 <= y,
    ;
    assert(to / 4 == y * width + x && (to + 1) / 4 == y * width + x && (to + 2) / 4 == y * width + x
        && (to + 3) / 4 == y * width + x);
    assert(to % 4 == 0 && (to + 1) % 4 == 1 && (to + 2) % 4 == 2 && (to + 3) % 4 == 3);
    assert(width * height * 4 == (width * height) * 4);
}

/// A buffer holds an image exactly if it holds the last byte of its last pixel;
/// an image without pixels needs nothing.
pub proof fn law_when_an_image_is_held(
    len: int,
    width: int,
    height: int,
    stride: int,
    x: int,
    y: int,
)
    requires
        0 <= width,
        0 <= height,
        width * 4 <= stride,
        0 <= len,
    ensures
        width == 0 || height == 0 ==> holds_image(len, width, height, stride),
        holds_image(len, width, height, stride) && 0 <= x < width && 0 <= y < height ==> y * stride
            + x * 4 + 3 < len,
        0 < width && 0 < height && !holds_image(len, width, height, stride) ==> len <= (height - 1)
            * stride + (width - 1) * 4 + 3,
{
    if 0 <= x < width && 0 <= y < height {
        assert(y * stride <= (height - 1) * stride) by (nonlinear_arith)
            requires
                y <= height - 1,
                0 <= stride,
        ;
    }
}

} // verus!
