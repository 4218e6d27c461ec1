//! Frame geometry: the size of a frame, the centred pixel coordinates that
//! rays are cast through, and where each of them lands in the frame buffer.

use vstd::prelude::*;

verus! {

/// Largest width or height of a frame. Centred coordinates are `i32`, so a
/// side has to fit in the non-negative half of that type.
pub const MAX_DIMENSION: u32 = 0x7FFF_FFFF;

/// A display colour, one byte per channel.
#[derive(Clone, Copy, Debug, PartialEq, Eq, Structural)]
pub struct Rgb8 {
    pub r: u8,
    pub g: u8,
    pub b: u8,
}

/// The value of `v` after clamping to the displayable range `[0, 255]`.
pub open spec fn spec_clamp_channel(v: int) -> int {
    if v < 0 {
        0
    } else if v > 255 {
        255
    } else {
        v
    }
}

/// Clamps a channel that was scaled to the display range (radiance times
/// 255, rounded towards zero) to a byte.
pub fn clamp_channel(scaled: i64) -> (c: u8)
    ensures
        c as int == spec_clamp_channel(scaled as int),
{
    if scaled < 0 {
        0
    } else if scaled > 255 {
        255
    } else {
        scaled as u8
    }
}

impl Rgb8 {
    /// Black, the colour of a pixel that nothing was written to.
    pub open spec fn spec_black() -> Rgb8 {
        Rgb8 { r: 0, g: 0, b: 0 }
    }

    pub fn black() -> (c: Rgb8)
        ensures
            c == Rgb8::spec_black(),
    {
        Rgb8 { r: 0, g: 0, b: 0 }
    }

    /// The display colour of three scaled channels, each clamped on its own.
    pub fn from_scaled(r: i64, g: i64, b: i64) -> (c: Rgb8)
        ensures
            c.r as int == spec_clamp_channel(r as int),
            c.g as int == spec_clamp_channel(g as int),
            c.b as int == spec_clamp_channel(b as int),
    {
        Rgb8 { r: clamp_channel(r), g: clamp_channel(g), b: clamp_channel(b) }
    }
}

/// One finished pixel on its way from a worker to the frame buffer: the
/// centred coordinates it was traced for and its averaged colour.
#[derive(Clone, Copy, Debug, PartialEq, Eq, Structural)]
pub struct PixelSample {
    pub x: i32,
    pub y: i32,
    pub color: Rgb8,
}

/// The centred coordinates of a sequence of samples.
pub open spec fn sample_coordinates(samples: Seq<PixelSample>) -> Seq<(int, int)> {
    samples.map_values(|s: PixelSample| (s.x as int, s.y as int))
}

/// The size of a frame in pixels.
///
/// Rays are cast through centred coordinates: column `x` runs over
/// `[-half_width, width - half_width)` and row `y` over
/// `[-half_height, height - half_height)`, where a half is the side divided
/// by two, rounded down. The frame buffer is addressed from its corner, by
/// `(x + half_width, y + half_height)`.
#[derive(Clone, Copy, Debug)]
pub struct FrameSize {
    width: u32,
    height: u32,
}

impl FrameSize {
    pub closed spec fn spec_width(self) -> int {
        self.width as int
    }

    pub closed spec fn spec_height(self) -> int {
        self.height as int
    }

    /// Both sides are within [`MAX_DIMENSION`]. Holds of every size that
    /// [`FrameSize::new`] gave out.
    #[verifier::type_invariant]
    pub open spec fn wf(self) -> bool {
        &&& 0 <= self.spec_width() <= MAX_DIMENSION
        &&& 0 <= self.spec_height() <= MAX_DIMENSION
    }

    pub open spec fn spec_half_width(self) -> int {
        self.spec_width() / 2
    }

    pub open spec fn spec_half_height(self) -> int {
        self.spec_height() / 2
    }

    pub open spec fn spec_pixel_count(self) -> int {
        self.spec_width() * self.spec_height()
    }

    /// Whether the centred coordinates `(x, y)` lie in the frame.
    pub open spec fn spec_contains(self, x: int, y: int) -> bool {
        &&& -self.spec_half_width() <= x < self.spec_width() - self.spec_half_width()
        &&& -self.spec_half_height() <= y < self.spec_height() - self.spec_half_height()
    }

    /// The frame-buffer position of the centred coordinates `(x, y)`.
    pub open spec fn spec_position(self, x: int, y: int) -> Option<(int, int)> {
        if self.spec_contains(x, y) {
            Some((x + self.spec_half_width(), y + self.spec_half_height()))
        } else {
            None
        }
    }

    /// The centred coordinates that are written to the frame-buffer position
    /// `(px, py)`.
    pub open spec fn spec_coordinates(self, px: int, py: int) -> (int, int) {
        (px - self.spec_half_width(), py - self.spec_half_height())
    }

    /// A frame of `width` by `height` pixels, unless a side is larger than
    /// [`MAX_DIMENSION`].
    pub fn new(width: u32, height: u32) -> (size: Option<FrameSize>)
        ensures
            size is Some <==> width <= MAX_DIMENSION && height <= MAX_DIMENSION,
            size matches Some(s) ==> s.wf() && s.spec_width() == width && s.spec_height()
                == height,
    {
        if width <= MAX_DIMENSION && height <= MAX_DIMENSION {
            Some(FrameSize { width, height })
        } else {
            None
        }
    }

    pub fn width(&self) -> (w: u32)
        ensures
            w == self.spec_width(),
            w <= MAX_DIMENSION,
    {
        proof {
            use_type_invariant(self);
        }
        self.width
    }

    pub fn height(&self) -> (h: u32)
        ensures
            h == self.spec_height(),
            h <= MAX_DIMENSION,
    {
        proof {
            use_type_invariant(self);
        }
        self.height
    }

    pub fn half_width(&self) -> (half: i32)
        ensures
            half == self.spec_half_width(),
    {
        (self.width() / 2) as i32
    }

    pub fn half_height(&self) -> (half: i32)
        ensures
            half == self.spec_half_height(),
    {
        (self.height() / 2) as i32
    }

    /// The number of pixels of a frame, which is the number of samples that
    /// completes one.
    pub fn pixel_count(&self) -> (n: u64)
        ensures
            n == self.spec_pixel_count(),
    {
        let w: u64 = self.width() as u64;
        let h: u64 = self.height() as u64;
        assert(w * h <= 0x7FFF_FFFF * 0x7FFF_FFFF) by (nonlinear_arith)
            requires
                w <= 0x7FFF_FFFF,
                h <= 0x7FFF_FFFF,
        ;
        w * h
    }

    /// Whether the centred coordinates `(x, y)` lie in the frame.
    pub fn contains(&self, x: i32, y: i32) -> (inside: bool)
        ensures
            inside == self.spec_contains(x as int, y as int),
    {
        let w: i64 = self.width() as i64;
        let h: i64 = self.height() as i64;
        let hw: i64 = self.half_width() as i64;
        let hh: i64 = self.half_height() as i64;
        let x: i64 = x as i64;
        let y: i64 = y as i64;
        -hw <= x && x < w - hw && -hh <= y && y < h - hh
    }

    /// Where the centred coordinates `(x, y)` land in the frame buffer:
    /// `(x + half_width, y + half_height)`, or nothing for coordinates
    /// outside the frame.
    pub fn position(&self, x: i32, y: i32) -> (at: Option<(u32, u32)>)
        ensures
            at is Some <==> self.spec_contains(x as int, y as int),
            at matches Some((px, py)) ==> {
                &&& self.spec_position(x as int, y as int) == Some((px as int, py as int))
                &&& px < self.spec_width()
                &&& py < self.spec_height()
            },
    {
        if self.contains(x, y) {
            let px: i64 = x as i64 + self.half_width() as i64;
            let py: i64 = y as i64 + self.half_height() as i64;
            Some((px as u32, py as u32))
        } else {
            None
        }
    }
}

} // verus!
