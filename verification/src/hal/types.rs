//! Plain data that devices exchange.
use vstd::prelude::*;

verus! {

/// Why a device refused.
#[derive(Debug, Clone, Copy, PartialEq, Eq)]
pub enum HalError {
    /// The device is missing or misbehaves.
    Device(&'static str),
    /// The caller's buffer cannot hold the data.
    BufferTooSmall { needed: usize, got: usize },
    /// The frame was dropped (queue full or injected fault).
    Dropped,
    /// Not available on this platform.
    Unsupported(&'static str),
}

/// One CAN frame: an id and up to eight bytes.
#[derive(Debug, Clone, Copy, PartialEq, Eq)]
pub struct CanFrame {
    /// Frame id (11 or 29 bits).
    pub id: u32,
    /// Valid byte count in [`CanFrame::data`].
    pub len: u8,
    /// Payload bytes (valid prefix is `len`).
    pub data: [u8; 8],
}

/// What a [`CanFrame`] carries.
#[verifier::ext_equal]
pub ghost struct Can {
    pub id: u32,
    pub payload: Seq<u8>,
}

/// At most the first eight bytes.
pub open spec fn up_to_eight(payload: Seq<u8>) -> Seq<u8> {
    if payload.len() > 8 {
        payload.take(8)
    } else {
        payload
    }
}

impl View for CanFrame {
    type V = Can;

    open spec fn view(&self) -> Can {
        Can { id: self.id, payload: self.data@.take(self.len as int) }
    }
}

impl CanFrame {
    /// The length is one that a frame can have, and the rest is zero.
    pub open spec fn wf(&self) -> bool {
        &&& self.len <= 8
        &&& forall|i: int| self.len <= i < 8 ==> #[trigger] self.data@[i] == 0
    }

    /// Builds a frame (bytes past the eighth are cut off).
    pub fn new(id: u32, payload: &[u8]) -> (f: CanFrame)
        ensures
            f.wf(),
            f@ == (Can { id, payload: up_to_eight(payload@) }),
    {
        let n: usize = if payload.len() > 8 {
            8
        } else {
            payload.len()
        };
        let mut data: [u8; 8] = [0u8; 8];
        let mut i: usize = 0;
        while i < n
            invariant
                i <= n <= 8,
                n <= payload@.len(),
                forall|j: int| 0 <= j < i ==> data@[j] == payload@[j],
                forall|j: int| i <= j < 8 ==> data@[j] == 0,
            decreases n - i,
        {
            data[i] = payload[i];
            i = i + 1;
        }
        let f: CanFrame = CanFrame { id, len: n as u8, data };
        assert(f@.payload =~= up_to_eight(payload@));
        f
    }

    /// The valid payload slice.
    pub fn payload(&self) -> (r: &[u8])
        requires
            self.len <= 8,
        ensures
            r@ == self@.payload,
    {
        let r: &[u8] = vstd::slice::slice_subrange(self.data.as_slice(), 0, self.len as usize);
        assert(r@ =~= self@.payload);
        r
    }
}

/// Layout of the pixels of a frame.
#[derive(Debug, Clone, Copy, PartialEq, Eq, Structural)]
pub enum PixelFormat {
    /// One byte of luminance per pixel.
    GrayY8,
    /// Full-size luminance, then interleaved chroma at a quarter of the pixels.
    Nv12,
}

impl PixelFormat {
    /// The number of the format.
    pub open spec fn number(self) -> u32 {
        match self {
            PixelFormat::GrayY8 => 0,
            PixelFormat::Nv12 => 1,
        }
    }

    /// How many bytes a frame takes.
    pub open spec fn size(self, width: u32, height: u32) -> nat {
        match self {
            PixelFormat::GrayY8 => (width * height) as nat,
            PixelFormat::Nv12 => (width * height * 3 / 2) as nat,
        }
    }

    /// The number of the format.
    pub fn as_u32(self) -> (r: u32)
        ensures
            r == self.number(),
    {
        match self {
            PixelFormat::GrayY8 => 0,
            PixelFormat::Nv12 => 1,
        }
    }

    /// Smallest buffer that holds a frame.
    pub fn min_buffer_len(self, width: u32, height: u32) -> (r: usize)
        requires
            self.size(width, height) <= usize::MAX,
        ensures
            r == self.size(width, height),
    {
        proof {
            assert(width * height <= u32::MAX * u32::MAX) by (nonlinear_arith)
                requires
                    width <= u32::MAX,
                    height <= u32::MAX,
            ;
            assert(0 <= width * height) by (nonlinear_arith)
                requires
                    0 <= width,
                    0 <= height,
            ;
        }
        let pixels: u128 = width as u128 * height as u128;
        match self {
            PixelFormat::GrayY8 => pixels as usize,
            PixelFormat::Nv12 => (pixels * 3 / 2) as usize,
        }
    }

    /// Bytes per pixel of the first plane.
    pub fn bytes_per_pixel(self) -> (r: u32)
        ensures
            r == 1,
    {
        1
    }
}

/// What is known of a captured frame.
#[derive(Debug, Clone, Copy, PartialEq, Eq, Structural)]
pub struct FrameInfo {
    /// Frame number, from 1.
    pub seq: u64,
    /// Capture time (ns).
    pub timestamp_ns: u64,
    /// Width in pixels.
    pub width: u32,
    /// Height in pixels.
    pub height: u32,
    /// Bytes from one line to the next.
    pub stride: u32,
    /// Number of the [`PixelFormat`].
    pub format: u32,
}

impl Default for FrameInfo {
    fn default() -> (r: FrameInfo)
        ensures
            r == (FrameInfo {
                seq: 0,
                timestamp_ns: 0,
                width: 0,
                height: 0,
                stride: 0,
                format: 0,
            }),
    {
        FrameInfo { seq: 0, timestamp_ns: 0, width: 0, height: 0, stride: 0, format: 0 }
    }
}

/// A gray image has one byte per pixel, and an NV12 image half as many again for
/// its colours.
pub proof fn law_image_sizes(width: u32, height: u32)
    ensures
        PixelFormat::GrayY8.size(width, height) == width * height,
        (width * height) % 2 == 0 ==> 2 * PixelFormat::Nv12.size(width, height) == 3 * (width
            * height),
        PixelFormat::GrayY8.number() == 0,
        PixelFormat::Nv12.number() == 1,
{
    assert(width * height >= 0) by (nonlinear_arith)
        requires
            width >= 0,
            height >= 0,
    ;
    let p = width * height;
    assert(width * height * 3 == 3 * p) by (nonlinear_arith)
        requires
            p == width * height,
    ;
}

} // verus!
