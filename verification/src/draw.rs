use vstd::prelude::*;
use crate::grid::{dim, duplicate, frame_cells, frame_shape, frame_wf, in_shape, put, shape_fits, zeros, Frame};

verus! {

/// A box in whole pixels: left, top, right and bottom edge. The edges may
/// lie outside the image; drawing pulls them onto it.
#[derive(Clone, Copy, Debug)]
pub struct PixelBox {
    pub x1: isize,
    pub y1: isize,
    pub x2: isize,
    pub y2: isize,
}

/// Row `i`, column `j` lies in the rectangle of rows `top..bottom` and
/// columns `left..right`.
pub open spec fn in_rect(i: int, j: int, top: int, bottom: int, left: int, right: int) -> bool {
    top <= i < bottom && left <= j < right
}

/// A coordinate pulled onto an axis of `len` positions.
pub open spec fn on_axis(v: int, len: int) -> int {
    if v < 0 {
        0
    } else if v > len - 1 {
        len - 1
    } else {
        v
    }
}

/// The smaller of two numbers.
pub open spec fn least(a: int, b: int) -> int {
    if a < b {
        a
    } else {
        b
    }
}

/// Whether drawing `b` with the given line thickness on an image of `h`
/// rows and `w` columns paints pixel `(i, j)`: the pixel lies on the box,
/// pulled onto the image, within `thickness` of one of its four edges. A box
/// that is then empty paints nothing.
pub open spec fn paints(b: PixelBox, thickness: int, h: int, w: int, i: int, j: int) -> bool {
    let x1 = on_axis(b.x1 as int, w);
    let y1 = on_axis(b.y1 as int, h);
    let x2 = on_axis(b.x2 as int, w);
    let y2 = on_axis(b.y2 as int, h);
    let th = least(thickness, y2 - y1);
    let tw = least(thickness, x2 - x1);
    &&& x1 < x2 && y1 < y2
    &&& y1 <= i <= y2 && x1 <= j <= x2
    &&& (i < y1 + th || i > y2 - th || j < x1 + tw || j > x2 - tw)
}

/// Whether one of the first `n` boxes paints pixel `(i, j)`.
pub open spec fn painted(boxes: Seq<PixelBox>, n: int, thickness: int, h: int, w: int, i: int, j: int) -> bool {
    exists|b: int| 0 <= b < n && paints(#[trigger] boxes[b], thickness, h, w, i, j)
}

/// Channel `k` of a colour.
pub open spec fn channel_of(color: (u8, u8, u8), k: int) -> u8 {
    if k == 0 {
        color.0
    } else if k == 1 {
        color.1
    } else {
        color.2
    }
}

/// Sets channel `k` of every pixel of the rectangle of rows `top..bottom`
/// and columns `left..right` to `v`, and leaves every other sample as it
/// was.
pub fn fill_rect(frame: &mut Frame, top: usize, bottom: usize, left: usize, right: usize, k: usize, v: u8)
    requires
        bottom <= frame_shape(*old(frame)).0,
        right <= frame_shape(*old(frame)).1,
        k < frame_shape(*old(frame)).2,
    ensures
        frame_shape(*final(frame)) == frame_shape(*old(frame)),
        frame_wf(*old(frame)) ==> frame_wf(*final(frame)),
        forall|i: int, j: int, c: int|
            in_shape(frame_shape(*old(frame)), i, j, c) ==> #[trigger] frame_cells(*final(frame))[(i, j, c)] == (if c
                == k && in_rect(i, j, top as int, bottom as int, left as int, right as int) {
                v
            } else {
                frame_cells(*old(frame))[(i, j, c)]
            }),
{
    let ghost start = *frame;
    let mut i: usize = top;
    while i < bottom
        invariant
            bottom <= frame_shape(start).0,
            right <= frame_shape(start).1,
            k < frame_shape(start).2,
            top <= i,
            frame_shape(*frame) == frame_shape(start),
            frame_wf(start) ==> frame_wf(*frame),
            forall|a: int, b: int, c: int|
                in_shape(frame_shape(start), a, b, c) ==> #[trigger] frame_cells(*frame)[(a, b, c)] == (if c == k
                    && in_rect(a, b, top as int, bottom as int, left as int, right as int) && a < i {
                    v
                } else {
                    frame_cells(start)[(a, b, c)]
                }),
        decreases bottom - i,
    {
        let mut j: usize = left;
        while j < right
            invariant
                bottom <= frame_shape(start).0,
                right <= frame_shape(start).1,
                k < frame_shape(start).2,
                top <= i < bottom,
                left <= j,
                frame_shape(*frame) == frame_shape(start),
                frame_wf(start) ==> frame_wf(*frame),
                forall|a: int, b: int, c: int|
                    in_shape(frame_shape(start), a, b, c) ==> #[trigger] frame_cells(*frame)[(a, b, c)] == (if c == k
                        && in_rect(a, b, top as int, bottom as int, left as int, right as int) && (a < i || (a == i
                        && b < j)) {
                        v
                    } else {
                        frame_cells(start)[(a, b, c)]
                    }),
            decreases right - j,
        {
            put(frame, i, j, k, v);
            j = j + 1;
        }
        i = i + 1;
    }
}

/// Sets the first three channels of every pixel of the rectangle to
/// `color`.
pub fn fill_rect_color(frame: &mut Frame, top: usize, bottom: usize, left: usize, right: usize, color: (u8, u8, u8))
    requires
        bottom <= frame_shape(*old(frame)).0,
        right <= frame_shape(*old(frame)).1,
        3 <= frame_shape(*old(frame)).2,
    ensures
        frame_shape(*final(frame)) == frame_shape(*old(frame)),
        frame_wf(*old(frame)) ==> frame_wf(*final(frame)),
        forall|i: int, j: int, c: int|
            in_shape(frame_shape(*old(frame)), i, j, c) ==> #[trigger] frame_cells(*final(frame))[(i, j, c)] == (if c
                < 3 && in_rect(i, j, top as int, bottom as int, left as int, right as int) {
                channel_of(color, c)
            } else {
                frame_cells(*old(frame))[(i, j, c)]
            }),
{
    fill_rect(frame, top, bottom, left, right, 0, color.0);
    fill_rect(frame, top, bottom, left, right, 1, color.1);
    fill_rect(frame, top, bottom, left, right, 2, color.2);
}

/// Pulls a coordinate onto an axis of `len` positions.
pub fn clamp_to_axis(v: isize, len: usize) -> (r: usize)
    requires
        len >= 1,
    ensures
        r == on_axis(v as int, len as int),
        r < len,
{
    if v < 0 {
        0
    } else {
        let u: usize = v as usize;
        if u > len - 1 {
            len - 1
        } else {
            u
        }
    }
}

/// Draws the outline of one box: four bars of the given thickness along the
/// edges of the box, pulled onto the image. A box that is empty after that
/// leaves the image as it was.
pub fn draw_box(frame: &mut Frame, b: PixelBox, color: (u8, u8, u8), thickness: usize)
    requires
        1 <= frame_shape(*old(frame)).0,
        1 <= frame_shape(*old(frame)).1,
        3 <= frame_shape(*old(frame)).2,
    ensures
        frame_shape(*final(frame)) == frame_shape(*old(frame)),
        frame_wf(*old(frame)) ==> frame_wf(*final(frame)),
        forall|i: int, j: int, c: int|
            in_shape(frame_shape(*old(frame)), i, j, c) ==> #[trigger] frame_cells(*final(frame))[(i, j, c)] == (if c
                < 3 && paints(b, thickness as int, frame_shape(*old(frame)).0, frame_shape(*old(frame)).1, i, j) {
                channel_of(color, c)
            } else {
                frame_cells(*old(frame))[(i, j, c)]
            }),
{
    let (h, w, _c) = dim(frame);
    let x1: usize = clamp_to_axis(b.x1, w);
    let y1: usize = clamp_to_axis(b.y1, h);
    let x2: usize = clamp_to_axis(b.x2, w);
    let y2: usize = clamp_to_axis(b.y2, h);
    if x2 <= x1 || y2 <= y1 {
        return ;
    }
    let th: usize = if thickness < y2 - y1 { thickness } else { y2 - y1 };
    let tw: usize = if thickness < x2 - x1 { thickness } else { x2 - x1 };
    fill_rect_color(frame, y1, y1 + th, x1, x2 + 1, color);
    fill_rect_color(frame, y2 + 1 - th, y2 + 1, x1, x2 + 1, color);
    fill_rect_color(frame, y1, y2 + 1, x1, x1 + tw, color);
    fill_rect_color(frame, y1, y2 + 1, x2 + 1 - tw, x2 + 1, color);
}

/// Draws the outlines of all boxes on a copy of `frame`: a sample of the
/// first three channels becomes the colour's where some box paints its
/// pixel, and every other sample is that of `frame`.
pub fn draw_bboxes_on_frame(frame: &Frame, boxes: &Vec<PixelBox>, color: (u8, u8, u8), thickness: usize) -> (out:
    Frame)
    requires
        3 <= frame_shape(*frame).2,
        boxes.len() > 0 ==> 1 <= frame_shape(*frame).0 && 1 <= frame_shape(*frame).1,
    ensures
        frame_shape(out) == frame_shape(*frame),
        frame_wf(*frame) ==> frame_wf(out),
        forall|i: int, j: int, c: int|
            in_shape(frame_shape(*frame), i, j, c) ==> #[trigger] frame_cells(out)[(i, j, c)] == (if c < 3 && painted(
                boxes@,
                boxes.len() as int,
                thickness as int,
                frame_shape(*frame).0,
                frame_shape(*frame).1,
                i,
                j,
            ) {
                channel_of(color, c)
            } else {
                frame_cells(*frame)[(i, j, c)]
            }),
{
    let mut out = duplicate(frame);
    let mut n: usize = 0;
    while n < boxes.len()
        invariant
            n <= boxes.len(),
            3 <= frame_shape(*frame).2,
            boxes.len() > 0 ==> 1 <= frame_shape(*frame).0 && 1 <= frame_shape(*frame).1,
            frame_shape(out) == frame_shape(*frame),
            frame_wf(*frame) ==> frame_wf(out),
            forall|i: int, j: int, c: int|
                in_shape(frame_shape(*frame), i, j, c) ==> #[trigger] frame_cells(out)[(i, j, c)] == (if c < 3
                    && painted(
                    boxes@,
                    n as int,
                    thickness as int,
                    frame_shape(*frame).0,
                    frame_shape(*frame).1,
                    i,
                    j,
                ) {
                    channel_of(color, c)
                } else {
                    frame_cells(*frame)[(i, j, c)]
                }),
        decreases boxes.len() - n,
    {
        let ghost h = frame_shape(*frame).0;
        let ghost w = frame_shape(*frame).1;
        let ghost t = thickness as int;
        let b: PixelBox = boxes[n];
        draw_box(&mut out, b, color, thickness);
        proof {
            assert forall|i: int, j: int| painted(boxes@, n + 1, t, h, w, i, j) == (painted(boxes@, n as int, t, h, w, i, j)
                || paints(b, t, h, w, i, j)) by {
                if painted(boxes@, n + 1, t, h, w, i, j) {
                    let x = choose|x: int| 0 <= x < n + 1 && paints(#[trigger] boxes@[x], t, h, w, i, j);
                    if x < n {
                        assert(painted(boxes@, n as int, t, h, w, i, j));
                    }
                }
                if painted(boxes@, n as int, t, h, w, i, j) {
                    let x = choose|x: int| 0 <= x < n && paints(#[trigger] boxes@[x], t, h, w, i, j);
                    assert(paints(boxes@[x], t, h, w, i, j));
                }
                if paints(b, t, h, w, i, j) {
                    assert(paints(boxes@[n as int], t, h, w, i, j));
                }
            }
        }
        n = n + 1;
    }
    out
}

/// A black test frame of `h` rows, `w` columns and three channels with a
/// square of full green, 80 pixels a side and cut at the frame's edges,
/// whose top left corner is at row `y`, column `x`.
pub fn generate_dummy_frame(h: usize, w: usize, x: usize, y: usize) -> (out: Frame)
    requires
        shape_fits(h as int, w as int, 3),
    ensures
        frame_shape(out) == (h as int, w as int, 3int),
        frame_wf(out),
        forall|i: int, j: int, c: int|
            in_shape(frame_shape(out), i, j, c) ==> #[trigger] frame_cells(out)[(i, j, c)] == (if c == 1 && in_rect(
                i,
                j,
                y as int,
                least(y + 80, h as int),
                x as int,
                least(x + 80, w as int),
            ) {
                255u8
            } else {
                0u8
            }),
{
    let mut out = zeros(h, w, 3);
    let x_far: usize = x.saturating_add(80);
    let y_far: usize = y.saturating_add(80);
    let x_end: usize = if x_far < w { x_far } else { w };
    let y_end: usize = if y_far < h { y_far } else { h };
    fill_rect(&mut out, y, y_end, x, x_end, 1, 255);
    out
}

} // verus!
