//! The consumer side of the renderer: the dispatching thread drains the
//! channel that the row tasks send their samples on and writes each sample
//! into the frame buffer, until as many have arrived as the frame has pixels.

use crate::buffer::{rows_have_shape, spec_replay, spec_write, FrameBuffer};
use crate::frame::{sample_coordinates, FrameSize, PixelSample, Rgb8};
use crate::schedule::{
    lemma_distinct_arrivals_are_the_schedule,
    lemma_every_pixel_written_once,
    lemma_schedule_no_duplicates,
};
use crossbeam::channel::{Receiver, RecvError};
use vstd::prelude::*;

verus! {

/// `crossbeam::channel::Receiver`, the receiving side of a channel. Nothing
/// inside it is seen, and nothing is said of what it holds: that changes with
/// every send of another thread.
#[verifier::external_type_specification]
#[verifier::external_body]
#[verifier::reject_recursive_types(T)]
pub struct ExReceiver<T>(Receiver<T>);

/// `crossbeam::channel::RecvError`: the channel is empty and every sender is
/// gone.
#[verifier::external_type_specification]
#[verifier::external_body]
pub struct ExRecvError(RecvError);

/// `Receiver::recv`: blocks until a message can be taken off the channel, or
/// until the channel is empty and every sender is gone. Which of the two
/// happens, and which message comes, depends on the other threads: nothing is
/// claimed of the result.
#[verifier::external_body]
fn receive(results: &Receiver<PixelSample>) -> (message: Result<PixelSample, RecvError>) {
    results.recv()
}

/// Why a frame could not be collected.
#[derive(Clone, Copy, Debug, PartialEq, Eq, Structural)]
pub enum CollectError {
    /// Every sender was gone before the frame was complete: a task failed
    /// before it had sent its row.
    Disconnected,
    /// A sample arrived whose coordinates lie outside the frame.
    OutOfFrame(PixelSample),
}

/// One step of collecting a frame that is not yet complete. `message` is what
/// the channel gave: a sample, or nothing once every sender is gone.
///
/// A sample from inside the frame is written at `(x + half_width,
/// y + half_height)` and logged, and the result says whether it completed the
/// frame. A sample from outside the frame and a channel without senders each
/// end the frame with their error and leave the buffer as it was.
pub fn take(buffer: &mut FrameBuffer, message: Option<PixelSample>) -> (outcome: Result<
    bool,
    CollectError,
>)
    requires
        old(buffer).wf(),
        old(buffer).log().len() < old(buffer).spec_size().spec_pixel_count(),
    ensures
        final(buffer).wf(),
        final(buffer).spec_size() == old(buffer).spec_size(),
        match message {
            None => {
                &&& outcome == Err::<bool, CollectError>(CollectError::Disconnected)
                &&& *final(buffer) == *old(buffer)
            },
            Some(sample) => if old(buffer).spec_size().spec_contains(
                sample.x as int,
                sample.y as int,
            ) {
                &&& outcome == Ok::<bool, CollectError>(
                    old(buffer).log().len() + 1 == old(buffer).spec_size().spec_pixel_count(),
                )
                &&& final(buffer).log() == old(buffer).log().push(sample)
                &&& final(buffer)@ == spec_write(old(buffer)@, old(buffer).spec_size(), sample)
            } else {
                &&& outcome == Err::<bool, CollectError>(CollectError::OutOfFrame(sample))
                &&& *final(buffer) == *old(buffer)
            },
        },
{
    match message {
        None => Err(CollectError::Disconnected),
        Some(sample) => match buffer.accept(sample) {
            Ok(complete) => Ok(complete),
            Err(_) => Err(CollectError::OutOfFrame(sample)),
        },
    }
}

/// Collects one frame: begins a new frame in `buffer`, then takes samples off
/// `results` and hands each to [`take`], in the order of their arrival, until
/// as many have arrived as the frame has pixels.
///
/// Whatever arrives, the image is afterwards the image from before with the
/// samples of the log written over it in order, and every sample of the log
/// lies in the frame. The frame is complete on `Ok`: as many samples were
/// written as the frame has pixels, and unless a pixel arrived twice they are
/// the scheduled pixels and every position of the image was written exactly
/// once. The frame is abandoned, short of at least one sample, when the
/// channel is disconnected or a sample from outside the frame arrives.
pub fn collect(buffer: &mut FrameBuffer, results: &Receiver<PixelSample>) -> (outcome: Result<
    (),
    CollectError,
>)
    requires
        old(buffer).wf(),
    ensures
        final(buffer).wf(),
        final(buffer).spec_size() == old(buffer).spec_size(),
        final(buffer)@ == spec_replay(
            old(buffer)@,
            old(buffer).spec_size(),
            final(buffer).log(),
        ),
        forall|i: int|
            0 <= i < final(buffer).log().len() ==> old(buffer).spec_size().spec_contains(
                (#[trigger] final(buffer).log()[i]).x as int,
                final(buffer).log()[i].y as int,
            ),
        match outcome {
            Ok(()) => {
                &&& final(buffer).log().len() == old(buffer).spec_size().spec_pixel_count()
                &&& sample_coordinates(final(buffer).log()).no_duplicates() ==> {
                    &&& sample_coordinates(final(buffer).log()).to_multiset() == old(
                        buffer,
                    ).spec_size().spec_schedule().to_multiset()
                    &&& forall|px: int, py: int|
                        0 <= px < old(buffer).spec_size().spec_width() && 0 <= py < old(
                            buffer,
                        ).spec_size().spec_height() ==> #[trigger] old(
                            buffer,
                        ).spec_size().spec_writes_to(
                            sample_coordinates(final(buffer).log()),
                            px,
                            py,
                        ) == 1
                }
            },
            Err(CollectError::Disconnected) => final(buffer).log().len() < old(
                buffer,
            ).spec_size().spec_pixel_count(),
            Err(CollectError::OutOfFrame(sample)) => {
                &&& final(buffer).log().len() < old(buffer).spec_size().spec_pixel_count()
                &&& !old(buffer).spec_size().spec_contains(sample.x as int, sample.y as int)
            },
        },
{
    buffer.begin_frame();
    while !buffer.is_complete()
        invariant
            buffer.wf(),
            buffer.spec_size() == old(buffer).spec_size(),
            buffer@ == spec_replay(old(buffer)@, old(buffer).spec_size(), buffer.log()),
        decreases old(buffer).spec_size().spec_pixel_count() - buffer.log().len(),
    {
        proof {
            buffer.lemma_wf();
        }
        let ghost log_before = buffer.log();
        let message = match receive(results) {
            Ok(sample) => Some(sample),
            Err(_) => None,
        };
        match take(buffer, message) {
            Ok(_) => {
                assert(buffer.log().drop_last() =~= log_before);
            },
            Err(error) => {
                proof {
                    buffer.lemma_wf();
                }
                return Err(error);
            },
        }
    }
    proof {
        buffer.lemma_wf();
        if sample_coordinates(buffer.log()).no_duplicates() {
            lemma_complete_frame_written_once(*buffer);
        }
    }
    Ok(())
}

/// Writing samples keeps the shape of the image.
pub proof fn lemma_replay_keeps_shape(
    pixels: Seq<Seq<Rgb8>>,
    size: FrameSize,
    log: Seq<PixelSample>,
)
    requires
        size.wf(),
        rows_have_shape(pixels, size.spec_width(), size.spec_height()),
    ensures
        rows_have_shape(spec_replay(pixels, size, log), size.spec_width(), size.spec_height()),
    decreases log.len(),
{
    if log.len() > 0 {
        lemma_replay_keeps_shape(pixels, size, log.drop_last());
    }
}

/// A position that no sample of the log is written to keeps its colour.
pub proof fn lemma_unwritten_pixel_stays(
    pixels: Seq<Seq<Rgb8>>,
    size: FrameSize,
    log: Seq<PixelSample>,
    px: int,
    py: int,
)
    requires
        size.wf(),
        rows_have_shape(pixels, size.spec_width(), size.spec_height()),
        0 <= px < size.spec_width(),
        0 <= py < size.spec_height(),
        forall|j: int|
            0 <= j < log.len() ==> size.spec_position(
                (#[trigger] log[j]).x as int,
                log[j].y as int,
            ) != Some((px, py)),
    ensures
        spec_replay(pixels, size, log)[py][px] == pixels[py][px],
    decreases log.len(),
{
    if log.len() > 0 {
        let rest = log.drop_last();
        assert forall|j: int| 0 <= j < rest.len() implies size.spec_position(
            (#[trigger] rest[j]).x as int,
            rest[j].y as int,
        ) != Some((px, py)) by {
            assert(rest[j] == log[j]);
        }
        lemma_unwritten_pixel_stays(pixels, size, rest, px, py);
        lemma_replay_keeps_shape(pixels, size, rest);
        let last = log.last();
        assert(log[log.len() - 1] == last);
    }
}

/// The last sample that is written to a position decides its colour: where no
/// later sample of the log has the coordinates of the `i`-th, the image shows
/// the colour of the `i`-th at its position.
pub proof fn lemma_last_write_wins(
    pixels: Seq<Seq<Rgb8>>,
    size: FrameSize,
    log: Seq<PixelSample>,
    i: int,
)
    requires
        size.wf(),
        rows_have_shape(pixels, size.spec_width(), size.spec_height()),
        0 <= i < log.len(),
        size.spec_contains(log[i].x as int, log[i].y as int),
        forall|j: int|
            i < j < log.len() ==> (#[trigger] log[j]).x != log[i].x || log[j].y != log[i].y,
    ensures
        spec_replay(pixels, size, log)[log[i].y + size.spec_half_height()][log[i].x
            + size.spec_half_width()] == log[i].color,
    decreases log.len(),
{
    let rest = log.drop_last();
    let last = log.last();
    lemma_replay_keeps_shape(pixels, size, rest);
    if i == log.len() - 1 {
    } else {
        assert(rest[i] == log[i]);
        assert forall|j: int| i < j < rest.len() implies (#[trigger] rest[j]).x != rest[i].x
            || rest[j].y != rest[i].y by {
            assert(rest[j] == log[j]);
        }
        lemma_last_write_wins(pixels, size, rest, i);
        assert(log[log.len() - 1] == last);
    }
}

/// Every pixel of a complete frame has been written exactly once, unless a
/// pixel arrived twice: where as many samples were accepted as the frame has
/// pixels and no two of them are for the same pixel, the samples are the
/// scheduled pixels in some order, and every position of the image was
/// written exactly once, with no gap and no position written twice.
pub proof fn lemma_complete_frame_written_once(buffer: FrameBuffer)
    requires
        buffer.wf(),
        buffer.log().len() == buffer.spec_size().spec_pixel_count(),
        sample_coordinates(buffer.log()).no_duplicates(),
    ensures
        sample_coordinates(buffer.log()).to_multiset()
            == buffer.spec_size().spec_schedule().to_multiset(),
        forall|px: int, py: int|
            0 <= px < buffer.spec_size().spec_width() && 0 <= py < buffer.spec_size().spec_height()
                ==> #[trigger] buffer.spec_size().spec_writes_to(
                sample_coordinates(buffer.log()),
                px,
                py,
            ) == 1,
{
    buffer.lemma_wf();
    let log = buffer.log();
    let coordinates = sample_coordinates(log);
    assert forall|i: int| 0 <= i < coordinates.len() implies buffer.spec_size().spec_contains(
        (#[trigger] coordinates[i]).0,
        coordinates[i].1,
    ) by {
        assert(coordinates[i] == (log[i].x as int, log[i].y as int));
    }
    lemma_distinct_arrivals_are_the_schedule(buffer.spec_size(), coordinates);
    lemma_every_pixel_written_once(buffer.spec_size(), coordinates);
}

/// A complete frame shows every sample. Where the samples of the log are the
/// scheduled pixels, each once and in whatever order they arrived, the frame
/// is complete, every position of the image was written exactly once, and
/// the image shows the colour of each sample at the position of that sample.
pub proof fn lemma_complete_frame_shows_every_sample(
    pixels: Seq<Seq<Rgb8>>,
    size: FrameSize,
    log: Seq<PixelSample>,
)
    requires
        size.wf(),
        rows_have_shape(pixels, size.spec_width(), size.spec_height()),
        sample_coordinates(log).to_multiset() == size.spec_schedule().to_multiset(),
    ensures
        log.len() == size.spec_pixel_count(),
        forall|px: int, py: int|
            0 <= px < size.spec_width() && 0 <= py < size.spec_height()
                ==> #[trigger] size.spec_writes_to(sample_coordinates(log), px, py) == 1,
        forall|i: int|
            0 <= i < log.len() ==> {
                &&& size.spec_contains((#[trigger] log[i]).x as int, log[i].y as int)
                &&& spec_replay(pixels, size, log)[log[i].y + size.spec_half_height()][log[i].x
                    + size.spec_half_width()] == log[i].color
            },
{
    let coordinates = sample_coordinates(log);
    lemma_every_pixel_written_once(size, coordinates);
    lemma_schedule_no_duplicates(size);
    size.spec_schedule().lemma_multiset_has_no_duplicates();
    coordinates.lemma_multiset_has_no_duplicates_conv();
    assert forall|i: int| 0 <= i < log.len() implies {
        &&& size.spec_contains((#[trigger] log[i]).x as int, log[i].y as int)
        &&& spec_replay(pixels, size, log)[log[i].y + size.spec_half_height()][log[i].x
            + size.spec_half_width()] == log[i].color
    } by {
        assert(coordinates[i] == (log[i].x as int, log[i].y as int));
        assert forall|j: int| i < j < log.len() implies (#[trigger] log[j]).x != log[i].x
            || log[j].y != log[i].y by {
            assert(coordinates[j] == (log[j].x as int, log[j].y as int));
        }
        lemma_last_write_wins(pixels, size, log, i);
    }
}

} // verus!
