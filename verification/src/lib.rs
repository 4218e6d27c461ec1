//! The verified core of a CPU path tracer.
//!
//! A frame is rendered by one task per scanline. Each task shades the pixels
//! of its row and sends them on a channel; the dispatching thread collects
//! them into the frame buffer until the frame is complete. This crate holds
//! what of that is exact: the geometry of a frame ([`frame`]), the row
//! schedule and its tasks ([`schedule`]), the frame buffer ([`buffer`]) and
//! the collector ([`collect`]), the size of the worker pool ([`pool`]), and
//! nearest-hit resolution over the primitives that a ray hits ([`nearest`],
//! [`distance`]). The intersection tests and the shading compute in floating
//! point and are the caller's.

pub mod buffer;
pub mod collect;
pub mod distance;
pub mod frame;
pub mod nearest;
pub mod pool;
pub mod schedule;
