use vstd::prelude::*;
use crate::grid::{at, dim, frame_cells, frame_shape, frame_wf, in_shape, put, shape_fits, zeros, Frame};

verus! {

/// The red ramp of the colour map: off in the two lowest bands, rising in
/// the third, full in the fourth, falling in the highest.
pub open spec fn jet_red(i: int) -> int {
    if i <= 95 {
        0
    } else if i <= 159 {
        4 * i - 383
    } else if i <= 223 {
        255
    } else {
        1147 - 4 * i
    }
}

/// The green ramp: off in the lowest band, rising, full, falling, and off
/// again in the highest band.
pub open spec fn jet_green(i: int) -> int {
    if i <= 31 {
        0
    } else if i <= 95 {
        4 * i - 128
    } else if i <= 159 {
        255
    } else if i <= 223 {
        892 - 4 * i
    } else {
        0
    }
}

/// The blue ramp: rising from half in the lowest band, full, falling, and
/// off in the upper bands.
pub open spec fn jet_blue(i: int) -> int {
    if i <= 31 {
        127 + 4 * i
    } else if i <= 95 {
        255
    } else if i <= 159 {
        637 - 4 * i
    } else {
        0
    }
}

/// Channel `k` of the colour of index `i`, in the order blue, green, red.
pub open spec fn jet_channel(i: int, k: int) -> int {
    if k == 0 {
        jet_blue(i)
    } else if k == 1 {
        jet_green(i)
    } else {
        jet_red(i)
    }
}

/// The colour of one index, as blue, green, red.
pub fn jet_color(index: u8) -> (color: (u8, u8, u8))
    ensures
        color.0 == jet_blue(index as int),
        color.1 == jet_green(index as int),
        color.2 == jet_red(index as int),
{
    let i: u16 = index as u16;
    let red: u16 = if i <= 95 {
        0
    } else if i <= 159 {
        4 * i - 383
    } else if i <= 223 {
        255
    } else {
        1147 - 4 * i
    };
    let green: u16 = if i <= 31 {
        0
    } else if i <= 95 {
        4 * i - 128
    } else if i <= 159 {
        255
    } else if i <= 223 {
        892 - 4 * i
    } else {
        0
    };
    let blue: u16 = if i <= 31 {
        127 + 4 * i
    } else if i <= 95 {
        255
    } else if i <= 159 {
        637 - 4 * i
    } else {
        0
    };
    (blue as u8, green as u8, red as u8)
}

/// The whole table: entry `i` is the colour of index `i`, as blue, green,
/// red. The lowest index is half blue and the highest is half red.
pub fn build_jet_lut() -> (lut: Vec<(u8, u8, u8)>)
    ensures
        lut.len() == 256,
        forall|i: int|
            0 <= i < 256 ==> (#[trigger] lut[i]).0 == jet_blue(i) && lut[i].1 == jet_green(i) && lut[i].2 == jet_red(i),
        lut[0] == (127u8, 0u8, 0u8),
        lut[255] == (0u8, 0u8, 127u8),
{
    let mut lut: Vec<(u8, u8, u8)> = Vec::new();
    let mut i: usize = 0;
    while i < 256
        invariant
            i <= 256,
            lut.len() == i,
            forall|x: int|
                0 <= x < i ==> (#[trigger] lut[x]).0 == jet_blue(x) && lut[x].1 == jet_green(x) && lut[x].2 == jet_red(x),
        decreases 256 - i,
    {
        lut.push(jet_color(i as u8));
        i = i + 1;
    }
    lut
}

/// Every pixel before `(row, col)` in row-major order holds the colour of
/// the first channel of the same pixel of `depth`.
pub open spec fn coloured_before(out: Frame, depth: Frame, row: int, col: int) -> bool {
    forall|i: int, j: int, k: int|
        in_shape(frame_shape(out), i, j, k) && (i < row || (i == row && j < col)) ==> #[trigger] frame_cells(out)[(
            i,
            j,
            k,
        )] == jet_channel(frame_cells(depth)[(i, j, 0)] as int, k)
}

/// Whether `out` is the colour image of `depth`: three channels, and each
/// sample a function of the depth sample of its own pixel alone.
pub open spec fn is_jet_image(out: Frame, depth: Frame) -> bool {
    &&& frame_shape(out) == (frame_shape(depth).0, frame_shape(depth).1, 3int)
    &&& frame_wf(out)
    &&& forall|i: int, j: int, k: int|
        in_shape(frame_shape(out), i, j, k) ==> #[trigger] frame_cells(out)[(i, j, k)] == jet_channel(
            frame_cells(depth)[(i, j, 0)] as int,
            k,
        )
}

/// Colours an 8-bit depth image, held in the first channel of `depth`: a
/// new frame of three channels (blue, green, red) in which every pixel is
/// the table's colour for the depth sample of that pixel.
pub fn depth_to_colormap_jet(depth: &Frame) -> (out: Frame)
    requires
        frame_shape(*depth).2 >= 1,
        shape_fits(frame_shape(*depth).0, frame_shape(*depth).1, 3),
    ensures
        is_jet_image(out, *depth),
{
    let (h, w, c) = dim(depth);
    let lut = build_jet_lut();
    let mut out = zeros(h, w, 3);
    let mut i: usize = 0;
    while i < h
        invariant
            i <= h,
            frame_shape(*depth) == (h as int, w as int, c as int),
            c >= 1,
            lut.len() == 256,
            forall|x: int|
                0 <= x < 256 ==> (#[trigger] lut[x]).0 == jet_blue(x) && lut[x].1 == jet_green(x) && lut[x].2 == jet_red(x),
            frame_shape(out) == (h as int, w as int, 3int),
            frame_wf(out),
            coloured_before(out, *depth, i as int, 0),
        decreases h - i,
    {
        let mut j: usize = 0;
        while j < w
            invariant
                i < h,
                j <= w,
                frame_shape(*depth) == (h as int, w as int, c as int),
                c >= 1,
                lut.len() == 256,
                forall|x: int|
                    0 <= x < 256 ==> (#[trigger] lut[x]).0 == jet_blue(x) && lut[x].1 == jet_green(x) && lut[x].2
                        == jet_red(x),
                frame_shape(out) == (h as int, w as int, 3int),
                frame_wf(out),
                coloured_before(out, *depth, i as int, j as int),
            decreases w - j,
        {
            let idx: usize = at(depth, i, j, 0) as usize;
            let color: (u8, u8, u8) = lut[idx];
            put(&mut out, i, j, 0, color.0);
            put(&mut out, i, j, 1, color.1);
            put(&mut out, i, j, 2, color.2);
            j = j + 1;
        }
        i = i + 1;
    }
    out
}

} // verus!
