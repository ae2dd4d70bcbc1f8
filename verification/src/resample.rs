use vstd::prelude::*;
use crate::grid::{dim, duplicate, frame_cells, frame_shape, Frame};

verus! {

/// The first of the two source positions that an output sample blends: the
/// truncated source coordinate, held back so that its neighbour still lies
/// on the axis.
pub open spec fn near_index(position: int, len: int) -> int {
    if len < 2 {
        0
    } else if position < len - 2 {
        position
    } else {
        len - 2
    }
}

/// The second source position: the next one, or the same one on an axis too
/// short to have a next.
pub open spec fn far_index(position: int, len: int) -> int {
    if len < 2 {
        0
    } else {
        near_index(position, len) + 1
    }
}

/// The two neighbouring source positions along one axis of length `len` for
/// a truncated source coordinate `position`. On an axis with a sample, both
/// are positions of the axis.
pub fn source_pair(position: usize, len: usize) -> (pair: (usize, usize))
    ensures
        pair.0 == near_index(position as int, len as int),
        pair.1 == far_index(position as int, len as int),
        len >= 1 ==> pair.0 < len && pair.1 < len,
        len >= 2 ==> pair.1 == pair.0 + 1,
{
    if len < 2 {
        (0, 0)
    } else {
        let last: usize = len - 2;
        let near: usize = if position < last { position } else { last };
        (near, near + 1)
    }
}

/// The identity path of resizing: when the target size is the size of
/// `frame`, a copy with the same shape and the same samples; otherwise
/// nothing, and the samples have to be blended.
pub fn resize_same_size(frame: &Frame, new_h: usize, new_w: usize) -> (r: Option<Frame>)
    ensures
        r is Some <==> frame_shape(*frame).0 == new_h && frame_shape(*frame).1 == new_w,
        r matches Some(out) ==> frame_shape(out) == frame_shape(*frame) && frame_cells(out) == frame_cells(*frame),
{
    let (h, w, _c) = dim(frame);
    if h == new_h && w == new_w {
        Some(duplicate(frame))
    } else {
        None
    }
}

/// The pixel that a point of the cloud stands for: points follow the pixels
/// row by row, so point `idx` of a map `w` wide is pixel
/// `(idx / w, idx % w)`.
pub fn pixel_of_point(idx: usize, w: usize) -> (pixel: (usize, usize))
    requires
        w > 0,
    ensures
        pixel.0 == idx as int / w as int,
        pixel.1 == idx as int % w as int,
        pixel.0 * w + pixel.1 == idx,
        pixel.1 < w,
{
    proof {
        vstd::arithmetic::div_mod::lemma_fundamental_div_mod(idx as int, w as int);
        vstd::arithmetic::div_mod::lemma_mod_bound(idx as int, w as int);
        assert((idx as int / w as int) * w == w * (idx as int / w as int)) by (nonlinear_arith);
    }
    (idx / w, idx % w)
}

} // verus!
