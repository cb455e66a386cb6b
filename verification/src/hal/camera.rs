//! Cameras, and one that makes test frames without hardware.
use vstd::prelude::*;
use crate::hal::types::{FrameInfo, HalError, PixelFormat};

verus! {

/// A source of frames.
pub trait Camera {
    /// Whether a frame of the current geometry can be grabbed at all: its size
    /// and its number fit the machine.
    spec fn can_grab(&self) -> bool;

    /// Sets the geometry of the frames.
    fn configure(&mut self, width: u32, height: u32, format: PixelFormat) -> Result<(), HalError>;

    /// Captures one frame into `buf`.
    fn grab(&mut self, buf: &mut Vec<u8>, info: &mut FrameInfo) -> Result<(), HalError>
        requires
            old(self).can_grab(),
    ;
}

/// Nanoseconds from one frame to the next (about 30 per second).
pub const FRAME_NS: u64 = 33_333_333;

/// Generates flat ramp frames of the configured geometry.
#[derive(Debug)]
pub struct NullCamera {
    width: u32,
    height: u32,
    format: PixelFormat,
    seq: u64,
}

/// Geometry and frame count of a [`NullCamera`].
pub ghost struct Setup {
    pub width: u32,
    pub height: u32,
    pub format: PixelFormat,
    pub grabbed: u64,
}

impl View for NullCamera {
    type V = Setup;

    closed spec fn view(&self) -> Setup {
        Setup {
            width: self.width,
            height: self.height,
            format: self.format,
            grabbed: self.seq,
        }
    }
}

impl Setup {
    /// How many bytes a frame takes.
    pub open spec fn size(self) -> nat {
        self.format.size(self.width, self.height)
    }
}

/// `after` is `before` with a ramp pattern in its first `n` bytes.
pub open spec fn ramped(before: Seq<u8>, after: Seq<u8>, n: nat) -> bool {
    &&& after.len() == before.len()
    &&& forall|i: int| 0 <= i < n ==> #[trigger] after[i] == (i % 251) as u8
    &&& forall|i: int| n <= i < after.len() ==> #[trigger] after[i] == before[i]
}

impl NullCamera {
    /// Unconfigured camera; call [`configure`](Camera::configure) first.
    pub fn new() -> (r: NullCamera)
        ensures
            r@ == (Setup { width: 0, height: 0, format: PixelFormat::GrayY8, grabbed: 0 }),
    {
        NullCamera { width: 0, height: 0, format: PixelFormat::GrayY8, seq: 0 }
    }
}

impl Default for NullCamera {
    fn default() -> (r: NullCamera)
        ensures
            r@ == (Setup { width: 0, height: 0, format: PixelFormat::GrayY8, grabbed: 0 }),
    {
        NullCamera::new()
    }
}

impl Camera for NullCamera {
    open spec fn can_grab(&self) -> bool {
        &&& self@.size() <= usize::MAX
        &&& (self@.grabbed + 1) * FRAME_NS <= u64::MAX
    }

    fn configure(&mut self, width: u32, height: u32, format: PixelFormat) -> (r: Result<
        (),
        HalError,
    >)
        ensures
            r is Ok,
            final(self)@ == (Setup { width, height, format, grabbed: old(self)@.grabbed }),
    {
        self.width = width;
        self.height = height;
        self.format = format;
        Ok(())
    }

    fn grab(&mut self, buf: &mut Vec<u8>, info: &mut FrameInfo) -> (r: Result<(), HalError>)
        ensures
            ({
                let s = old(self)@;
                if s.width == 0 {
                    &&& r matches Err(HalError::Device(why)) && why@ == "not configured"@
                    &&& final(self)@ == s
                    &&& final(buf)@ == old(buf)@
                    &&& *final(info) == *old(info)
                } else if old(buf)@.len() < s.size() {
                    &&& r == Err::<(), HalError>(
                        HalError::BufferTooSmall {
                            needed: s.size() as usize,
                            got: old(buf)@.len() as usize,
                        },
                    )
                    &&& final(self)@ == s
                    &&& final(buf)@ == old(buf)@
                    &&& *final(info) == *old(info)
                } else {
                    &&& r is Ok
                    &&& final(self)@ == (Setup { grabbed: (s.grabbed + 1) as u64, ..s })
                    &&& ramped(old(buf)@, final(buf)@, s.size())
                    &&& *final(info) == (FrameInfo {
                        seq: (s.grabbed + 1) as u64,
                        timestamp_ns: ((s.grabbed + 1) * FRAME_NS) as u64,
                        width: s.width,
                        height: s.height,
                        stride: s.width,
                        format: s.format.number(),
                    })
                }
            }),
    {
        if self.width == 0 {
            return Err(HalError::Device("not configured"));
        }
        let needed: usize = self.format.min_buffer_len(self.width, self.height);
        if buf.len() < needed {
            return Err(HalError::BufferTooSmall { needed, got: buf.len() });
        }
        // A ramp, so that pipelines can detect corruption.
        let mut i: usize = 0;
        while i < needed
            invariant
                i <= needed <= buf@.len(),
                buf@.len() == old(buf)@.len(),
                forall|j: int| 0 <= j < i ==> #[trigger] buf@[j] == (j % 251) as u8,
                forall|j: int| i <= j < buf@.len() ==> #[trigger] buf@[j] == old(buf)@[j],
            decreases needed - i,
        {
            buf[i] = (i % 251) as u8;
            i = i + 1;
        }
        self.seq = self.seq + 1;
        *info = FrameInfo {
            seq: self.seq,
            timestamp_ns: self.seq * FRAME_NS,
            width: self.width,
            height: self.height,
            stride: self.width * self.format.bytes_per_pixel(),
            format: self.format.as_u32(),
        };
        Ok(())
    }
}

/// The test pattern counts up from 0 and starts again behind 250, so that a byte
/// that is lost or doubled shows; what lies behind the image is not touched.
pub proof fn law_pattern_counts_up(before: Seq<u8>, after: Seq<u8>, n: nat, i: int)
    requires
        ramped(before, after, n),
        n <= after.len(),
        0 <= i < n,
    ensures
        after[0] == 0,
        i + 1 < n && after[i] < 250 ==> after[i + 1] == after[i] + 1,
        i + 1 < n && after[i] == 250 ==> after[i + 1] == 0,
        after[i] <= 250,
        after.skip(n as int) == before.skip(n as int),
{
    assert(after[i] == (i % 251) as u8);
    if i + 1 < n {
        assert(after[i + 1] == ((i + 1) % 251) as u8);
    }
    assert(after[0] == (0int % 251) as u8);
    assert(after.skip(n as int) =~= before.skip(n as int));
}

} // verus!
