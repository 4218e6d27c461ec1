//! The frame buffer: an RGB image of the `image` crate that holds one colour
//! per pixel of a frame, together with the progress of the frame that is
//! being collected into it.

use crate::frame::{FrameSize, PixelSample, Rgb8};
use image::{DynamicImage, GenericImage, GenericImageView};
use vstd::prelude::*;

verus! {

/// `image::DynamicImage`, an image of any pixel format. Nothing inside it is
/// seen; what it holds is spoken of through [`image_rows`] and
/// [`image_is_rgb8`].
#[verifier::external_type_specification]
#[verifier::external_body]
pub struct ExDynamicImage(image::DynamicImage);

/// The pixels of an image as `GenericImageView::get_pixel` reads them, red,
/// green, blue and alpha: one sequence per row, from the top row down, each
/// row from left to right.
pub uninterp spec fn image_rows(image: DynamicImage) -> Seq<Seq<(u8, u8, u8, u8)>>;

/// Whether an image is backed by a buffer of 8-bit RGB pixels, as one made by
/// `DynamicImage::new_rgb8` is.
pub uninterp spec fn image_is_rgb8(image: DynamicImage) -> bool;

/// The rows of an image of `width` by `height` pixels that are all `pixel`.
pub open spec fn uniform_rows<T>(width: nat, height: nat, pixel: T) -> Seq<Seq<T>> {
    Seq::new(height, |y: int| Seq::new(width, |x: int| pixel))
}

/// Whether `rows` are `height` rows of `width` pixels each.
pub open spec fn rows_have_shape<T>(rows: Seq<Seq<T>>, width: int, height: int) -> bool {
    &&& rows.len() == height
    &&& forall|y: int| 0 <= y < height ==> (#[trigger] rows[y]).len() == width
}

/// The colours of the rows of an image, without their alpha channel.
pub open spec fn colors_of(rows: Seq<Seq<(u8, u8, u8, u8)>>) -> Seq<Seq<Rgb8>> {
    Seq::new(
        rows.len(),
        |y: int|
            Seq::new(
                rows[y].len(),
                |x: int| Rgb8 { r: rows[y][x].0, g: rows[y][x].1, b: rows[y][x].2 },
            ),
    )
}

/// `DynamicImage::new_rgb8`: a new image backed by a zeroed buffer of 8-bit
/// RGB pixels. Every pixel reads as black with full alpha. The call works
/// out the length of the buffer as three times the width, times the height,
/// and panics where either product leaves `usize` or the length is more than
/// one allocation may hold; `requires` keeps both within their limits.
#[verifier::external_body]
fn image_new_rgb8(width: u32, height: u32) -> (image: DynamicImage)
    requires
        3 * width <= usize::MAX,
        3 * (width * height) <= isize::MAX,
    ensures
        image_is_rgb8(image),
        image_rows(image) == uniform_rows(width as nat, height as nat, (0u8, 0u8, 0u8, 255u8)),
{
    DynamicImage::new_rgb8(width, height)
}

/// `GenericImage::put_pixel` on an image backed by 8-bit RGB pixels: the
/// pixel at `(x, y)` takes the three colour channels and then reads with full
/// alpha, whatever `a` is; every other pixel stays. `requires` keeps `(x, y)`
/// inside the image, outside of which the call panics.
#[verifier::external_body]
fn image_put_pixel(image: &mut DynamicImage, x: u32, y: u32, r: u8, g: u8, b: u8, a: u8)
    requires
        image_is_rgb8(*old(image)),
        y < image_rows(*old(image)).len(),
        x < image_rows(*old(image))[y as int].len(),
    ensures
        image_is_rgb8(*final(image)),
        image_rows(*final(image)) == image_rows(*old(image)).update(
            y as int,
            image_rows(*old(image))[y as int].update(x as int, (r, g, b, 255u8)),
        ),
{
    image.put_pixel(x, y, image::Rgba([r, g, b, a]))
}

/// `GenericImageView::get_pixel`: the pixel at `(x, y)`. `requires` keeps
/// `(x, y)` inside the image, outside of which the call panics.
#[verifier::external_body]
fn image_get_pixel(image: &DynamicImage, x: u32, y: u32) -> (pixel: (u8, u8, u8, u8))
    requires
        y < image_rows(*image).len(),
        x < image_rows(*image)[y as int].len(),
    ensures
        pixel == image_rows(*image)[y as int][x as int],
{
    let image::Rgba([r, g, b, a]) = image.get_pixel(x, y);
    (r, g, b, a)
}

/// The pixels after one sample was written: the colour of `sample` at the
/// position of its coordinates, and `pixels` unchanged where the coordinates
/// lie outside the frame.
pub open spec fn spec_write(pixels: Seq<Seq<Rgb8>>, size: FrameSize, sample: PixelSample) -> Seq<
    Seq<Rgb8>,
> {
    match size.spec_position(sample.x as int, sample.y as int) {
        Some((px, py)) => pixels.update(py, pixels[py].update(px, sample.color)),
        None => pixels,
    }
}

/// The pixels after the samples of `log` were written in the order of their
/// arrival.
pub open spec fn spec_replay(pixels: Seq<Seq<Rgb8>>, size: FrameSize, log: Seq<PixelSample>) -> Seq<
    Seq<Rgb8>,
>
    decreases log.len(),
{
    if log.len() == 0 {
        pixels
    } else {
        spec_write(spec_replay(pixels, size, log.drop_last()), size, log.last())
    }
}

/// A frame buffer and the progress of the frame that is collected into it.
///
/// Its view is the image: one sequence of colours per row, addressed as
/// `buffer@[py][px]` from the top left corner. The samples accepted since the
/// frame was begun are its log.
pub struct FrameBuffer {
    size: FrameSize,
    image: DynamicImage,
    received: u64,
    log: Ghost<Seq<PixelSample>>,
}

impl View for FrameBuffer {
    type V = Seq<Seq<Rgb8>>;

    closed spec fn view(&self) -> Seq<Seq<Rgb8>> {
        colors_of(image_rows(self.image))
    }
}

impl FrameBuffer {
    pub closed spec fn spec_size(self) -> FrameSize {
        self.size
    }

    /// The samples accepted since the frame was begun, in the order of their
    /// arrival.
    pub closed spec fn log(self) -> Seq<PixelSample> {
        self.log@
    }

    /// The image that backs the buffer.
    pub closed spec fn spec_image(self) -> DynamicImage {
        self.image
    }

    /// What holds of every frame buffer that [`FrameBuffer::new`] gave out
    /// and of whatever its methods made of it: the image is backed by RGB
    /// pixels and has the shape of the frame, the samples of the log are
    /// counted, are no more than the frame has pixels, and lie in the frame.
    pub closed spec fn wf(self) -> bool {
        &&& self.size.wf()
        &&& image_is_rgb8(self.image)
        &&& rows_have_shape(
            image_rows(self.image),
            self.size.spec_width(),
            self.size.spec_height(),
        )
        &&& self.received == self.log@.len()
        &&& self.received <= self.size.spec_pixel_count()
        &&& forall|i: int|
            0 <= i < self.log@.len() ==> self.size.spec_contains(
                (#[trigger] self.log@[i]).x as int,
                self.log@[i].y as int,
            )
    }

    /// What a well-formed frame buffer shows to the outside.
    pub proof fn lemma_wf(self)
        requires
            self.wf(),
        ensures
            self.spec_size().wf(),
            self@ == colors_of(image_rows(self.spec_image())),
            rows_have_shape(self@, self.spec_size().spec_width(), self.spec_size().spec_height()),
            self.log().len() <= self.spec_size().spec_pixel_count(),
            forall|i: int|
                0 <= i < self.log().len() ==> self.spec_size().spec_contains(
                    (#[trigger] self.log()[i]).x as int,
                    self.log()[i].y as int,
                ),
    {
    }

    /// Whether a frame of `size` is within what one image buffer may hold:
    /// three bytes per pixel, `isize::MAX` bytes at most, and a row of no
    /// more than `usize::MAX` bytes even where the frame has no row.
    pub open spec fn spec_fits(size: FrameSize) -> bool {
        &&& 3 * size.spec_width() <= usize::MAX
        &&& 3 * size.spec_pixel_count() <= isize::MAX
    }

    /// A black frame buffer for frames of `size` with nothing collected yet,
    /// unless `size` is more than one image buffer may hold.
    pub fn new(size: FrameSize) -> (buffer: Option<FrameBuffer>)
        ensures
            buffer is Some <==> Self::spec_fits(size),
            buffer matches Some(b) ==> {
                &&& b.wf()
                &&& b.spec_size() == size
                &&& b.log() == Seq::<PixelSample>::empty()
                &&& b@ == uniform_rows(
                    size.spec_width() as nat,
                    size.spec_height() as nat,
                    Rgb8::spec_black(),
                )
            },
    {
        let count: u64 = size.pixel_count();
        let width: u32 = size.width();
        let height: u32 = size.height();
        assert(count <= 0x7FFF_FFFF * 0x7FFF_FFFF) by (nonlinear_arith)
            requires
                count == width * height,
                width <= 0x7FFF_FFFF,
                height <= 0x7FFF_FFFF,
        ;
        if 3 * (width as u64) <= usize::MAX as u64 && 3 * count <= isize::MAX as u64 {
            let image = image_new_rgb8(width, height);
            let buffer = FrameBuffer { size, image, received: 0, log: Ghost(Seq::empty()) };
            assert(buffer@ =~~= uniform_rows(
                size.spec_width() as nat,
                size.spec_height() as nat,
                Rgb8::spec_black(),
            ));
            Some(buffer)
        } else {
            None
        }
    }

    pub fn size(&self) -> (size: FrameSize)
        ensures
            size == self.spec_size(),
    {
        self.size
    }

    /// The image that backs the buffer, for presentation.
    pub fn image(&self) -> (image: &DynamicImage)
        ensures
            *image == self.spec_image(),
            colors_of(image_rows(*image)) == self@,
            self.wf() ==> image_is_rgb8(*image),
    {
        &self.image
    }

    /// The colour at the frame-buffer position `(px, py)`, or nothing for a
    /// position outside the frame.
    pub fn pixel(&self, px: u32, py: u32) -> (color: Option<Rgb8>)
        requires
            self.wf(),
        ensures
            color is Some <==> px < self.spec_size().spec_width() && py
                < self.spec_size().spec_height(),
            color matches Some(c) ==> c == self@[py as int][px as int],
    {
        if px < self.size.width() && py < self.size.height() {
            let (r, g, b, _a) = image_get_pixel(&self.image, px, py);
            Some(Rgb8 { r, g, b })
        } else {
            None
        }
    }

    /// The number of samples accepted since the frame was begun.
    pub fn received(&self) -> (n: u64)
        requires
            self.wf(),
        ensures
            n == self.log().len(),
    {
        self.received
    }

    /// Whether as many samples were accepted as the frame has pixels.
    pub fn is_complete(&self) -> (complete: bool)
        requires
            self.wf(),
        ensures
            complete == (self.log().len() == self.spec_size().spec_pixel_count()),
    {
        self.received == self.size.pixel_count()
    }

    /// Begins the next frame: the log is emptied, the image stays as the last
    /// frame left it.
    pub fn begin_frame(&mut self)
        requires
            old(self).wf(),
        ensures
            final(self).wf(),
            final(self).spec_size() == old(self).spec_size(),
            final(self)@ == old(self)@,
            final(self).spec_image() == old(self).spec_image(),
            final(self).log() == Seq::<PixelSample>::empty(),
    {
        self.received = 0;
        self.log = Ghost(Seq::empty());
    }

    /// Takes one sample off a worker and writes its colour, with full alpha,
    /// at `(x + half_width, y + half_height)`.
    ///
    /// A sample whose coordinates lie outside the frame is rejected, and so
    /// is any sample once the frame is complete; the buffer then stays as it
    /// was. Otherwise the result says whether this sample completed the
    /// frame.
    pub fn accept(&mut self, sample: PixelSample) -> (outcome: Result<bool, RejectedSample>)
        requires
            old(self).wf(),
        ensures
            final(self).wf(),
            final(self).spec_size() == old(self).spec_size(),
            match outcome {
                Ok(complete) => {
                    &&& old(self).spec_size().spec_contains(sample.x as int, sample.y as int)
                    &&& old(self).log().len() < old(self).spec_size().spec_pixel_count()
                    &&& final(self).log() == old(self).log().push(sample)
                    &&& final(self)@ == spec_write(old(self)@, old(self).spec_size(), sample)
                    &&& complete == (final(self).log().len() == old(
                        self,
                    ).spec_size().spec_pixel_count())
                },
                Err(RejectedSample::OutOfFrame) => {
                    &&& !old(self).spec_size().spec_contains(sample.x as int, sample.y as int)
                    &&& *final(self) == *old(self)
                },
                Err(RejectedSample::FrameComplete) => {
                    &&& old(self).spec_size().spec_contains(sample.x as int, sample.y as int)
                    &&& old(self).log().len() == old(self).spec_size().spec_pixel_count()
                    &&& *final(self) == *old(self)
                },
            },
    {
        let count: u64 = self.size.pixel_count();
        match self.size.position(sample.x, sample.y) {
            None => Err(RejectedSample::OutOfFrame),
            Some((px, py)) => {
                if self.received >= count {
                    Err(RejectedSample::FrameComplete)
                } else {
                    let ghost before = image_rows(self.image);
                    image_put_pixel(
                        &mut self.image,
                        px,
                        py,
                        sample.color.r,
                        sample.color.g,
                        sample.color.b,
                        255,
                    );
                    self.received = self.received + 1;
                    self.log = Ghost(self.log@.push(sample));
                    proof {
                        let after = image_rows(self.image);
                        assert(after == before.update(
                            py as int,
                            before[py as int].update(
                                px as int,
                                (sample.color.r, sample.color.g, sample.color.b, 255u8),
                            ),
                        ));
                        assert(colors_of(after) =~~= spec_write(
                            colors_of(before),
                            self.size,
                            sample,
                        ));
                    }
                    Ok(self.received == count)
                }
            },
        }
    }
}

/// Why a frame buffer did not accept a sample.
#[derive(Clone, Copy, Debug, PartialEq, Eq, Structural)]
pub enum RejectedSample {
    /// The coordinates of the sample lie outside the frame.
    OutOfFrame,
    /// As many samples were accepted already as the frame has pixels.
    FrameComplete,
}

} // verus!
