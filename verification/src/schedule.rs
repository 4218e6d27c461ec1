//! The row schedule of a frame: one task per scanline, each task tracing the
//! pixels of its row from left to right. The laws at the end relate the
//! schedule to the frame buffer: whatever order the results of the tasks
//! arrive in, every pixel of the buffer is written exactly once.

use crate::frame::{sample_coordinates, FrameSize, PixelSample, Rgb8};
use vstd::arithmetic::div_mod::{
    lemma_fundamental_div_mod,
    lemma_fundamental_div_mod_converse,
    lemma_mod_bound,
    lemma_multiply_divide_lt,
};
use vstd::prelude::*;
use vstd::seq_lib::{
    seq_to_set_is_finite,
    to_multiset_build,
    to_multiset_contains,
    to_multiset_len,
};
use vstd::set_lib::lemma_subset_equality;

verus! {

/// The coordinates of a sequence of pixels as mathematical integers.
pub open spec fn coordinates_of(pixels: Seq<(i32, i32)>) -> Seq<(int, int)> {
    pixels.map_values(|p: (i32, i32)| (p.0 as int, p.1 as int))
}

impl FrameSize {
    /// The scanlines of the frame in the order in which their tasks are
    /// dispatched: from the top row down.
    pub open spec fn spec_rows(self) -> Seq<int> {
        Seq::new(self.spec_height() as nat, |i: int| i - self.spec_half_height())
    }

    /// The pixels that the task of row `y` traces, in the order in which it
    /// sends them: from the leftmost column to the right.
    pub open spec fn spec_row_pixels(self, y: int) -> Seq<(int, int)> {
        Seq::new(self.spec_width() as nat, |i: int| (i - self.spec_half_width(), y))
    }

    /// Every pixel that the tasks of one frame send: the pixels of the rows,
    /// one row after the other in dispatch order.
    pub open spec fn spec_schedule(self) -> Seq<(int, int)> {
        self.spec_rows().map_values(|y: int| self.spec_row_pixels(y)).flatten()
    }

    /// How many of `arrivals`, taken as centred coordinates, are written to
    /// the frame-buffer position `(px, py)`.
    pub open spec fn spec_writes_to(self, arrivals: Seq<(int, int)>, px: int, py: int) -> nat
        decreases arrivals.len(),
    {
        if arrivals.len() == 0 {
            0
        } else {
            let last = arrivals.last();
            let rest = self.spec_writes_to(arrivals.drop_last(), px, py);
            if self.spec_position(last.0, last.1) == Some((px, py)) {
                rest + 1
            } else {
                rest
            }
        }
    }

    /// The scanlines of the frame in dispatch order, one task each.
    pub fn rows(&self) -> (rows: Vec<i32>)
        ensures
            rows@.map_values(|y: i32| y as int) == self.spec_rows(),
    {
        let height: u32 = self.height();
        let half: i32 = self.half_height();
        let mut rows: Vec<i32> = Vec::new();
        let mut i: u32 = 0;
        while i < height
            invariant
                i <= height,
                height == self.spec_height(),
                height <= crate::frame::MAX_DIMENSION,
                half == self.spec_half_height(),
                rows@.len() == i,
                forall|j: int| 0 <= j < i ==> rows@[j] == j - half,
            decreases height - i,
        {
            let y: i64 = i as i64 - half as i64;
            rows.push(y as i32);
            i = i + 1;
        }
        assert(rows@.map_values(|y: i32| y as int) =~= self.spec_rows());
        rows
    }

    /// The pixels of row `y` in the order in which its task traces and sends
    /// them.
    pub fn row_pixels(&self, y: i32) -> (pixels: Vec<(i32, i32)>)
        ensures
            coordinates_of(pixels@) == self.spec_row_pixels(y as int),
    {
        let width: u32 = self.width();
        let half: i32 = self.half_width();
        let mut pixels: Vec<(i32, i32)> = Vec::new();
        let mut i: u32 = 0;
        while i < width
            invariant
                i <= width,
                width == self.spec_width(),
                width <= crate::frame::MAX_DIMENSION,
                half == self.spec_half_width(),
                pixels@.len() == i,
                forall|j: int| 0 <= j < i ==> pixels@[j] == ((j - half) as i32, y),
            decreases width - i,
        {
            let x: i64 = i as i64 - half as i64;
            pixels.push((x as i32, y));
            i = i + 1;
        }
        assert(coordinates_of(pixels@) =~= self.spec_row_pixels(y as int));
        pixels
    }

    /// The task of row `y`: shades the pixels of the row from left to right
    /// and gives the samples to send, in that order. `shade` takes the
    /// centred coordinates of a pixel and gives its display colour.
    pub fn render_row<F: Fn(i32, i32) -> Rgb8>(&self, y: i32, shade: F) -> (samples: Vec<
        PixelSample,
    >)
        requires
            forall|x: i32|
                -self.spec_half_width() <= x < self.spec_width() - self.spec_half_width()
                    ==> call_requires(shade, (x, y)),
        ensures
            sample_coordinates(samples@) == self.spec_row_pixels(y as int),
            forall|i: int|
                0 <= i < samples@.len() ==> call_ensures(
                    shade,
                    ((#[trigger] samples@[i]).x, y),
                    samples@[i].color,
                ),
    {
        let width: u32 = self.width();
        let half: i32 = self.half_width();
        let mut samples: Vec<PixelSample> = Vec::new();
        let mut i: u32 = 0;
        while i < width
            invariant
                i <= width,
                width == self.spec_width(),
                width <= crate::frame::MAX_DIMENSION,
                half == self.spec_half_width(),
                samples@.len() == i,
                forall|x: i32|
                    -self.spec_half_width() <= x < self.spec_width() - self.spec_half_width()
                        ==> call_requires(shade, (x, y)),
                forall|j: int|
                    0 <= j < i ==> {
                        &&& (#[trigger] samples@[j]).x == j - half
                        &&& samples@[j].y == y
                        &&& call_ensures(shade, (samples@[j].x, y), samples@[j].color)
                    },
            decreases width - i,
        {
            let x: i32 = (i as i64 - half as i64) as i32;
            let color = shade(x, y);
            samples.push(PixelSample { x, y, color });
            i = i + 1;
        }
        assert(sample_coordinates(samples@) =~= self.spec_row_pixels(y as int));
        samples
    }
}

/// Row and column of the `k`-th cell of a grid that is `w` cells wide and `h`
/// cells high, counted row after row.
proof fn lemma_cell_of_index(w: int, h: int, k: int)
    requires
        0 < w,
        0 <= k < w * h,
    ensures
        0 <= k % w < w,
        0 <= k / w < h,
        k == (k / w) * w + k % w,
{
    lemma_mod_bound(k, w);
    lemma_fundamental_div_mod(k, w);
    lemma_multiply_divide_lt(k, w, h);
    assert(w * (k / w) == (k / w) * w) by (nonlinear_arith);
    assert(0 <= k / w) by (nonlinear_arith)
        requires
            0 < w,
            0 <= k,
            k == w * (k / w) + k % w,
            k % w < w,
    ;
}

/// The index of the cell in row `r` and column `c` of a grid that is `w`
/// cells wide.
proof fn lemma_index_of_cell(w: int, h: int, r: int, c: int)
    requires
        0 <= c < w,
        0 <= r < h,
    ensures
        0 <= r * w + c < w * h,
        (r * w + c) / w == r,
        (r * w + c) % w == c,
{
    lemma_fundamental_div_mod_converse(r * w + c, w, r, c);
    assert(0 <= r * w + c < w * h) by (nonlinear_arith)
        requires
            0 <= c < w,
            0 <= r < h,
    ;
}

/// The pixels of the first `n` rows of the frame, one sequence per row.
spec fn first_rows(size: FrameSize, n: nat) -> Seq<Seq<(int, int)>> {
    Seq::new(n, |r: int| size.spec_row_pixels(r - size.spec_half_height()))
}

/// The first `n` rows, one after the other, are `n` times the width long, and
/// their `k`-th pixel stands in column `k % width` of row `k / width`.
proof fn lemma_first_rows_by_index(size: FrameSize, n: nat)
    requires
        size.wf(),
    ensures
        first_rows(size, n).flatten().len() == n * size.spec_width(),
        forall|k: int|
            0 <= k < n * size.spec_width() ==> (#[trigger] first_rows(size, n).flatten()[k]) == (
                k % size.spec_width() - size.spec_half_width(),
                k / size.spec_width() - size.spec_half_height(),
            ),
    decreases n,
{
    let w = size.spec_width();
    if n == 0 {
        assert(0 * w == 0);
    } else {
        let m = (n - 1) as nat;
        let row = size.spec_row_pixels(m - size.spec_half_height());
        lemma_first_rows_by_index(size, m);
        assert(first_rows(size, n) =~= first_rows(size, m).push(row));
        first_rows(size, m).lemma_flatten_push(row);
        let before = first_rows(size, m).flatten();
        let all = first_rows(size, n).flatten();
        assert(all =~= before + row);
        assert(n * w == m * w + w) by (nonlinear_arith)
            requires
                n == m + 1,
        ;
        assert forall|k: int| 0 <= k < n * w implies (#[trigger] all[k]) == (
            k % w - size.spec_half_width(),
            k / w - size.spec_half_height(),
        ) by {
            if k < m * w {
                assert(all[k] == before[k]);
            } else {
                let c = k - m * w;
                assert(all[k] == row[c]);
                lemma_index_of_cell(w, n as int, m as int, c);
            }
        }
    }
}

/// The `k`-th pixel of the schedule stands in column `k % width` of row
/// `k / width` of the frame buffer, and the schedule has as many pixels as
/// the frame.
pub proof fn lemma_schedule_by_index(size: FrameSize)
    requires
        size.wf(),
    ensures
        size.spec_schedule().len() == size.spec_pixel_count(),
        forall|k: int|
            0 <= k < size.spec_pixel_count() ==> (#[trigger] size.spec_schedule()[k]) == (
                k % size.spec_width() - size.spec_half_width(),
                k / size.spec_width() - size.spec_half_height(),
            ),
{
    let h = size.spec_height() as nat;
    lemma_first_rows_by_index(size, h);
    assert(size.spec_rows().map_values(|y: int| size.spec_row_pixels(y)) =~= first_rows(size, h));
    assert(h * size.spec_width() == size.spec_width() * size.spec_height()) by (nonlinear_arith)
        requires
            h == size.spec_height(),
    ;
}

/// Every pixel of the schedule lies in the frame.
pub proof fn lemma_schedule_in_frame(size: FrameSize, k: int)
    requires
        size.wf(),
        0 <= k < size.spec_schedule().len(),
    ensures
        size.spec_contains(size.spec_schedule()[k].0, size.spec_schedule()[k].1),
{
    let w = size.spec_width();
    let h = size.spec_height();
    lemma_schedule_by_index(size);
    assert(0 < w) by (nonlinear_arith)
        requires
            0 <= w,
            0 <= k < w * h,
    ;
    lemma_cell_of_index(w, h, k);
}

/// No two tasks send the same pixel, and no task sends one twice.
pub proof fn lemma_schedule_no_duplicates(size: FrameSize)
    requires
        size.wf(),
    ensures
        size.spec_schedule().no_duplicates(),
{
    let w = size.spec_width();
    let h = size.spec_height();
    let s = size.spec_schedule();
    lemma_schedule_by_index(size);
    assert forall|i: int, j: int| 0 <= i < s.len() && 0 <= j < s.len() && i != j implies s[i]
        != s[j] by {
        assert(0 < w) by (nonlinear_arith)
            requires
                0 <= w,
                0 <= i < w * h,
        ;
        lemma_cell_of_index(w, h, i);
        lemma_cell_of_index(w, h, j);
    }
}

/// Every pixel of the frame is in the schedule, and nothing else is.
pub proof fn lemma_schedule_covers_frame(size: FrameSize, x: int, y: int)
    requires
        size.wf(),
    ensures
        size.spec_schedule().contains((x, y)) <==> size.spec_contains(x, y),
{
    let w = size.spec_width();
    let h = size.spec_height();
    let s = size.spec_schedule();
    lemma_schedule_by_index(size);
    if size.spec_contains(x, y) {
        let c = x + size.spec_half_width();
        let r = y + size.spec_half_height();
        lemma_index_of_cell(w, h, r, c);
        assert(s[r * w + c] == (x, y));
    }
    if s.contains((x, y)) {
        let k = choose|k: int| 0 <= k < s.len() && s[k] == (x, y);
        lemma_schedule_in_frame(size, k);
    }
}

/// The number of arrivals written to a position of the frame buffer is the
/// number of times that the coordinates of that position arrived.
pub proof fn lemma_writes_count_arrivals(
    size: FrameSize,
    arrivals: Seq<(int, int)>,
    px: int,
    py: int,
)
    requires
        size.wf(),
        0 <= px < size.spec_width(),
        0 <= py < size.spec_height(),
    ensures
        size.spec_writes_to(arrivals, px, py) == arrivals.to_multiset().count(
            size.spec_coordinates(px, py),
        ),
    decreases arrivals.len(),
{
    broadcast use vstd::multiset::group_multiset_axioms;

    if arrivals.len() == 0 {
        to_multiset_len(arrivals);
        assert(arrivals.to_multiset().count(size.spec_coordinates(px, py)) == 0) by {
            to_multiset_contains(arrivals, size.spec_coordinates(px, py));
        }
    } else {
        let rest = arrivals.drop_last();
        let last = arrivals.last();
        lemma_writes_count_arrivals(size, rest, px, py);
        assert(rest.push(last) =~= arrivals);
        to_multiset_build(rest, last);
    }
}

/// Distinct arrivals that fill the frame are the schedule: where as many
/// samples arrived as the frame has pixels, each of them in the frame and no
/// two for the same pixel, the arrivals are the scheduled pixels in some
/// order.
pub proof fn lemma_distinct_arrivals_are_the_schedule(size: FrameSize, arrivals: Seq<(int, int)>)
    requires
        size.wf(),
        arrivals.len() == size.spec_pixel_count(),
        arrivals.no_duplicates(),
        forall|i: int|
            0 <= i < arrivals.len() ==> size.spec_contains(
                (#[trigger] arrivals[i]).0,
                arrivals[i].1,
            ),
    ensures
        arrivals.to_multiset() == size.spec_schedule().to_multiset(),
{
    let s = size.spec_schedule();
    lemma_schedule_by_index(size);
    lemma_schedule_no_duplicates(size);
    seq_to_set_is_finite(arrivals);
    seq_to_set_is_finite(s);
    arrivals.unique_seq_to_set();
    s.unique_seq_to_set();
    assert(arrivals.to_set().subset_of(s.to_set())) by {
        assert forall|c: (int, int)| arrivals.to_set().contains(c) implies s.to_set().contains(
            c,
        ) by {
            let i = choose|i: int| 0 <= i < arrivals.len() && arrivals[i] == c;
            assert(size.spec_contains(arrivals[i].0, arrivals[i].1));
            lemma_schedule_covers_frame(size, c.0, c.1);
        }
    }
    lemma_subset_equality(arrivals.to_set(), s.to_set());
    arrivals.lemma_multiset_has_no_duplicates();
    s.lemma_multiset_has_no_duplicates();
    assert forall|c: (int, int)| arrivals.to_multiset().count(c) == s.to_multiset().count(c) by {
        to_multiset_contains(arrivals, c);
        to_multiset_contains(s, c);
        assert(arrivals.contains(c) == arrivals.to_set().contains(c));
        assert(s.contains(c) == s.to_set().contains(c));
    }
    assert(arrivals.to_multiset() =~= s.to_multiset());
}

/// Once the scheduled pixels have arrived, in whatever order the workers
/// finished them, the frame is complete: as many samples arrived as the frame
/// has pixels, each of them lies in the frame, and every position of the
/// frame buffer has been written exactly once, with no gap and no position
/// written twice.
pub proof fn lemma_every_pixel_written_once(size: FrameSize, arrivals: Seq<(int, int)>)
    requires
        size.wf(),
        arrivals.to_multiset() == size.spec_schedule().to_multiset(),
    ensures
        arrivals.len() == size.spec_pixel_count(),
        forall|i: int|
            0 <= i < arrivals.len() ==> size.spec_contains(
                (#[trigger] arrivals[i]).0,
                arrivals[i].1,
            ),
        forall|px: int, py: int|
            0 <= px < size.spec_width() && 0 <= py < size.spec_height()
                ==> #[trigger] size.spec_writes_to(arrivals, px, py) == 1,
{
    let s = size.spec_schedule();
    lemma_schedule_by_index(size);
    to_multiset_len(arrivals);
    to_multiset_len(s);
    assert(size.spec_pixel_count() >= 0) by (nonlinear_arith)
        requires
            size.spec_pixel_count() == size.spec_width() * size.spec_height(),
            0 <= size.spec_width(),
            0 <= size.spec_height(),
    ;
    assert forall|i: int| 0 <= i < arrivals.len() implies size.spec_contains(
        (#[trigger] arrivals[i]).0,
        arrivals[i].1,
    ) by {
        let a = arrivals[i];
        assert(arrivals.contains(a));
        to_multiset_contains(arrivals, a);
        to_multiset_contains(s, a);
        lemma_schedule_covers_frame(size, a.0, a.1);
    }
    assert forall|px: int, py: int|
        0 <= px < size.spec_width() && 0 <= py < size.spec_height()
        implies #[trigger] size.spec_writes_to(arrivals, px, py) == 1 by {
        let c = size.spec_coordinates(px, py);
        lemma_writes_count_arrivals(size, arrivals, px, py);
        lemma_schedule_covers_frame(size, c.0, c.1);
        to_multiset_contains(s, c);
        lemma_schedule_no_duplicates(size);
        s.lemma_multiset_has_no_duplicates();
    }
}

} // verus!
