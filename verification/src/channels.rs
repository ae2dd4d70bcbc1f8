use vstd::prelude::*;
use crate::grid::{lemma_fewer_channels_fit, at, dim, frame_cells, frame_shape, frame_wf, in_shape, put, zeros, Frame};

verus! {

/// Every pixel before `(row, col)` in row-major order holds the first three
/// channels of the same pixel of `src` in reverse.
pub open spec fn swapped_before(out: Frame, src: Frame, row: int, col: int) -> bool {
    forall|i: int, j: int, k: int|
        in_shape(frame_shape(out), i, j, k) && (i < row || (i == row && j < col)) ==> #[trigger] frame_cells(out)[(
            i,
            j,
            k,
        )] == frame_cells(src)[(i, j, 2 - k)]
}

/// Whether `out` is `src` with its first and third channel exchanged, cut to
/// three channels.
pub open spec fn is_channel_swap(out: Frame, src: Frame) -> bool {
    &&& frame_shape(out) == (frame_shape(src).0, frame_shape(src).1, 3int)
    &&& frame_wf(out)
    &&& forall|i: int, j: int, k: int|
        in_shape(frame_shape(out), i, j, k) ==> #[trigger] frame_cells(out)[(i, j, k)] == frame_cells(src)[(
            i,
            j,
            2 - k,
        )]
}

/// Turns an image with channels blue, green, red into one with channels
/// red, green, blue: a new frame of three channels in which channel `k` of
/// every pixel is channel `2 - k` of the same pixel of `frame`.
pub fn bgr_to_rgb(frame: &Frame) -> (out: Frame)
    requires
        frame_shape(*frame).2 >= 3,
    ensures
        is_channel_swap(out, *frame),
{
    let (h, w, c) = dim(frame);
    proof {
        lemma_fewer_channels_fit(h as int, w as int, c as int, 3);
    }
    let mut out = zeros(h, w, 3);
    let mut i: usize = 0;
    while i < h
        invariant
            i <= h,
            frame_shape(*frame) == (h as int, w as int, c as int),
            c >= 3,
            frame_shape(out) == (h as int, w as int, 3int),
            frame_wf(out),
            swapped_before(out, *frame, i as int, 0),
        decreases h - i,
    {
        let mut j: usize = 0;
        while j < w
            invariant
                i < h,
                j <= w,
                frame_shape(*frame) == (h as int, w as int, c as int),
                c >= 3,
                frame_shape(out) == (h as int, w as int, 3int),
                frame_wf(out),
                swapped_before(out, *frame, i as int, j as int),
            decreases w - j,
        {
            let b: u8 = at(frame, i, j, 0);
            let g: u8 = at(frame, i, j, 1);
            let r: u8 = at(frame, i, j, 2);
            put(&mut out, i, j, 0, r);
            put(&mut out, i, j, 1, g);
            put(&mut out, i, j, 2, b);
            j = j + 1;
        }
        i = i + 1;
    }
    out
}

/// Turns an image with channels red, green, blue into one with channels
/// blue, green, red. The exchange is its own inverse, so this is the same
/// transform as `bgr_to_rgb`.
pub fn rgb_to_bgr(frame: &Frame) -> (out: Frame)
    requires
        frame_shape(*frame).2 >= 3,
    ensures
        is_channel_swap(out, *frame),
{
    bgr_to_rgb(frame)
}

} // verus!
