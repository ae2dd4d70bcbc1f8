use vstd::prelude::*;

verus! {

/// A dense grid of bytes with three axes: rows, columns and channels. The
/// samples live in an `ndarray::Array3<u8>`, which Verus does not look into;
/// what it holds is named by `frame_shape` and `frame_cells`.
#[verifier::external_body]
pub struct Frame {
    cells: ndarray::Array3<u8>,
}

/// The lengths of the three axes of a frame: rows, columns, channels.
pub uninterp spec fn frame_shape(f: Frame) -> (int, int, int);

/// The samples of a frame, by row, column and channel.
pub uninterp spec fn frame_cells(f: Frame) -> Map<(int, int, int), u8>;

/// An axis length as it counts towards the size limit: an empty axis counts
/// as one.
pub open spec fn axis_weight(len: int) -> int {
    if len == 0 {
        1
    } else {
        len
    }
}

/// The shape can be allocated: the product of its non-empty axis lengths
/// fits in `isize`.
pub open spec fn shape_fits(h: int, w: int, c: int) -> bool {
    axis_weight(h) * axis_weight(w) * axis_weight(c) <= isize::MAX
}

/// A grid that can be allocated can still be with fewer channels.
pub proof fn lemma_fewer_channels_fit(h: int, w: int, c: int, d: int)
    requires
        0 <= h,
        0 <= w,
        1 <= d <= c,
        shape_fits(h, w, c),
    ensures
        shape_fits(h, w, d),
{
    let a = axis_weight(h);
    let b = axis_weight(w);
    assert(a * b * d <= a * b * c) by (nonlinear_arith)
        requires
            1 <= a,
            1 <= b,
            1 <= d <= c,
    ;
}

/// `(i, j, k)` addresses a sample of a grid of the given shape.
pub open spec fn in_shape(shape: (int, int, int), i: int, j: int, k: int) -> bool {
    0 <= i < shape.0 && 0 <= j < shape.1 && 0 <= k < shape.2
}

/// The named samples are exactly those that the shape addresses.
pub open spec fn frame_wf(f: Frame) -> bool {
    &&& 0 <= frame_shape(f).0 && 0 <= frame_shape(f).1 && 0 <= frame_shape(f).2
    &&& forall|i: int, j: int, k: int| #[trigger]
        frame_cells(f).dom().contains((i, j, k)) <==> in_shape(frame_shape(f), i, j, k)
}

/// `Array3::<u8>::zeros`: a new array of the given shape with every sample
/// zero. The call panics when the product of the non-empty axis lengths
/// overflows `isize`, which the precondition excludes.
#[verifier::external_body]
pub(crate) fn zeros(h: usize, w: usize, c: usize) -> (f: Frame)
    requires
        shape_fits(h as int, w as int, c as int),
    ensures
        frame_shape(f) == (h as int, w as int, c as int),
        frame_wf(f),
        forall|i: int, j: int, k: int| in_shape(frame_shape(f), i, j, k) ==> #[trigger] frame_cells(f)[(i, j, k)] == 0,
{
    Frame { cells: ndarray::Array3::<u8>::zeros((h, w, c)) }
}

/// `ArrayBase::dim`: the three axis lengths. Every array that ndarray builds
/// keeps the product of its non-empty axis lengths within `isize`.
#[verifier::external_body]
pub(crate) fn dim(f: &Frame) -> (d: (usize, usize, usize))
    ensures
        frame_shape(*f) == (d.0 as int, d.1 as int, d.2 as int),
        shape_fits(d.0 as int, d.1 as int, d.2 as int),
{
    f.cells.dim()
}

/// Indexing an array by `[i, j, k]`: the sample at that place. The index
/// panics outside the shape, which the precondition excludes.
#[verifier::external_body]
pub(crate) fn at(f: &Frame, i: usize, j: usize, k: usize) -> (v: u8)
    requires
        in_shape(frame_shape(*f), i as int, j as int, k as int),
    ensures
        v == frame_cells(*f)[(i as int, j as int, k as int)],
{
    f.cells[[i, j, k]]
}

/// Assigning through an index `[i, j, k]`: that sample changes, no other
/// does, and the shape stays.
#[verifier::external_body]
pub(crate) fn put(f: &mut Frame, i: usize, j: usize, k: usize, v: u8)
    requires
        in_shape(frame_shape(*old(f)), i as int, j as int, k as int),
    ensures
        frame_shape(*final(f)) == frame_shape(*old(f)),
        frame_cells(*final(f)) == frame_cells(*old(f)).insert((i as int, j as int, k as int), v),
{
    f.cells[[i, j, k]] = v;
}

/// `ArrayBase::to_owned`: a new array with the same shape and samples.
#[verifier::external_body]
pub(crate) fn duplicate(f: &Frame) -> (g: Frame)
    ensures
        frame_shape(g) == frame_shape(*f),
        frame_cells(g) == frame_cells(*f),
{
    Frame { cells: f.cells.to_owned() }
}

/// Whether a grid of this shape can be allocated.
pub fn can_allocate(h: usize, w: usize, c: usize) -> (ok: bool)
    ensures
        ok == shape_fits(h as int, w as int, c as int),
{
    let a: usize = if h == 0 { 1 } else { h };
    let b: usize = if w == 0 { 1 } else { w };
    let d: usize = if c == 0 { 1 } else { c };
    let limit: usize = isize::MAX as usize;
    match a.checked_mul(b) {
        None => {
            assert(a * b * d > isize::MAX) by (nonlinear_arith)
                requires
                    a * b > usize::MAX,
                    d >= 1,
                    usize::MAX >= isize::MAX,
            ;
            false
        },
        Some(ab) => match ab.checked_mul(d) {
            None => false,
            Some(abd) => abd <= limit,
        },
    }
}

impl Frame {
    /// A new frame of the given shape with every sample zero, or `None`
    /// when a grid of that shape cannot be allocated.
    pub fn new(h: usize, w: usize, c: usize) -> (r: Option<Frame>)
        ensures
            r is Some <==> shape_fits(h as int, w as int, c as int),
            r matches Some(f) ==> frame_shape(f) == (h as int, w as int, c as int) && frame_wf(f) && forall|
                i: int,
                j: int,
                k: int,
            |
                in_shape(frame_shape(f), i, j, k) ==> #[trigger] frame_cells(f)[(i, j, k)] == 0,
    {
        if can_allocate(h, w, c) {
            Some(zeros(h, w, c))
        } else {
            None
        }
    }

    /// The lengths of the three axes: rows, columns, channels.
    pub fn shape(&self) -> (d: (usize, usize, usize))
        ensures
            frame_shape(*self) == (d.0 as int, d.1 as int, d.2 as int),
            shape_fits(d.0 as int, d.1 as int, d.2 as int),
    {
        dim(self)
    }

    /// The sample at row `i`, column `j`, channel `k`, or `None` outside
    /// the shape.
    pub fn get(&self, i: usize, j: usize, k: usize) -> (r: Option<u8>)
        ensures
            r is Some <==> in_shape(frame_shape(*self), i as int, j as int, k as int),
            r matches Some(v) ==> v == frame_cells(*self)[(i as int, j as int, k as int)],
    {
        let (h, w, c) = dim(self);
        if i < h && j < w && k < c {
            Some(at(self, i, j, k))
        } else {
            None
        }
    }

    /// Stores `v` at row `i`, column `j`, channel `k` and returns `true`;
    /// outside the shape it changes nothing and returns `false`.
    pub fn set(&mut self, i: usize, j: usize, k: usize, v: u8) -> (done: bool)
        ensures
            done == in_shape(frame_shape(*old(self)), i as int, j as int, k as int),
            frame_shape(*final(self)) == frame_shape(*old(self)),
            done ==> frame_cells(*final(self)) == frame_cells(*old(self)).insert((i as int, j as int, k as int), v),
            !done ==> frame_cells(*final(self)) == frame_cells(*old(self)),
            frame_wf(*old(self)) ==> frame_wf(*final(self)),
    {
        let (h, w, c) = dim(self);
        if i < h && j < w && k < c {
            put(self, i, j, k, v);
            true
        } else {
            false
        }
    }

    /// A copy with the same shape and samples.
    pub fn copy(&self) -> (g: Frame)
        ensures
            frame_shape(g) == frame_shape(*self),
            frame_cells(g) == frame_cells(*self),
    {
        duplicate(self)
    }
}

} // verus!
