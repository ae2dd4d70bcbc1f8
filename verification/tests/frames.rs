use vision_kernels::channels::{bgr_to_rgb, rgb_to_bgr};
use vision_kernels::colormap::{build_jet_lut, depth_to_colormap_jet, jet_color};
use vision_kernels::grid::{can_allocate, Frame};
use vision_kernels::resample::{pixel_of_point, resize_same_size, source_pair};

fn frame_from(h: usize, w: usize, c: usize, data: &[u8]) -> Frame {
    let mut f = Frame::new(h, w, c).unwrap();
    for i in 0..h {
        for j in 0..w {
            for k in 0..c {
                assert!(f.set(i, j, k, data[(i * w + j) * c + k]));
            }
        }
    }
    f
}

fn samples(f: &Frame) -> Vec<u8> {
    let (h, w, c) = f.shape();
    let mut out = Vec::new();
    for i in 0..h {
        for j in 0..w {
            for k in 0..c {
                out.push(f.get(i, j, k).unwrap());
            }
        }
    }
    out
}

fn float_jet(i: usize) -> (u8, u8, u8) {
    let t = i as f32 / 255.0;
    let r = if t < 0.375 {
        0.0
    } else if t < 0.625 {
        (t - 0.375) / 0.25
    } else if t < 0.875 {
        1.0
    } else {
        1.0 - (t - 0.875) / 0.25
    };
    let g = if t < 0.125 {
        0.0
    } else if t < 0.375 {
        (t - 0.125) / 0.25
    } else if t < 0.625 {
        1.0
    } else if t < 0.875 {
        1.0 - (t - 0.625) / 0.25
    } else {
        0.0
    };
    let b = if t < 0.125 {
        0.5 + t / 0.125 * 0.5
    } else if t < 0.375 {
        1.0
    } else if t < 0.625 {
        1.0 - (t - 0.375) / 0.25
    } else {
        0.0
    };
    (
        (b.clamp(0.0, 1.0) * 255.0) as u8,
        (g.clamp(0.0, 1.0) * 255.0) as u8,
        (r.clamp(0.0, 1.0) * 255.0) as u8,
    )
}

#[test]
fn new_frame_is_zero_with_its_shape() {
    let f = Frame::new(2, 3, 4).unwrap();
    assert_eq!(f.shape(), (2, 3, 4));
    assert_eq!(samples(&f), vec![0u8; 24]);
    let empty = Frame::new(0, 5, 3).unwrap();
    assert_eq!(empty.shape(), (0, 5, 3));
    assert_eq!(empty.get(0, 0, 0), None);
}

#[test]
fn new_frame_refuses_shape_too_large() {
    assert!(Frame::new(usize::MAX, 2, 1).is_none());
    assert!(Frame::new(0, usize::MAX, 3).is_none());
    assert!(!can_allocate(usize::MAX, usize::MAX, usize::MAX));
    assert!(!can_allocate(isize::MAX as usize, 2, 1));
    assert!(can_allocate(isize::MAX as usize, 1, 0));
    assert!(can_allocate(0, 0, 0));
    assert!(can_allocate(480, 640, 3));
}

#[test]
fn set_changes_one_sample_only() {
    let mut f = Frame::new(2, 2, 3).unwrap();
    assert!(f.set(1, 0, 2, 200));
    assert_eq!(f.get(1, 0, 2), Some(200));
    assert_eq!(samples(&f), vec![0, 0, 0, 0, 0, 0, 0, 0, 200, 0, 0, 0]);
    assert_eq!(f.shape(), (2, 2, 3));
}

#[test]
fn get_and_set_outside_the_shape_do_nothing() {
    let mut f = frame_from(1, 2, 3, &[1, 2, 3, 4, 5, 6]);
    assert_eq!(f.get(1, 0, 0), None);
    assert_eq!(f.get(0, 2, 0), None);
    assert_eq!(f.get(0, 0, 3), None);
    assert!(!f.set(1, 0, 0, 9));
    assert!(!f.set(0, 2, 0, 9));
    assert!(!f.set(0, 0, 3, 9));
    assert_eq!(samples(&f), vec![1, 2, 3, 4, 5, 6]);
}

#[test]
fn copy_is_independent_of_its_source() {
    let mut f = frame_from(1, 1, 3, &[1, 2, 3]);
    let g = f.copy();
    assert!(f.set(0, 0, 0, 50));
    assert_eq!(samples(&g), vec![1, 2, 3]);
    assert_eq!(samples(&f), vec![50, 2, 3]);
}

#[test]
fn bgr_to_rgb_exchanges_first_and_third_channel() {
    let f = frame_from(2, 2, 3, &[1, 2, 3, 4, 5, 6, 7, 8, 9, 10, 11, 12]);
    let g = bgr_to_rgb(&f);
    assert_eq!(g.shape(), (2, 2, 3));
    assert_eq!(samples(&g), vec![3, 2, 1, 6, 5, 4, 9, 8, 7, 12, 11, 10]);
    assert_eq!(samples(&f), vec![1, 2, 3, 4, 5, 6, 7, 8, 9, 10, 11, 12]);
}

#[test]
fn bgr_to_rgb_cuts_further_channels() {
    let f = frame_from(1, 2, 4, &[1, 2, 3, 99, 4, 5, 6, 98]);
    let g = bgr_to_rgb(&f);
    assert_eq!(g.shape(), (1, 2, 3));
    assert_eq!(samples(&g), vec![3, 2, 1, 6, 5, 4]);
}

#[test]
fn rgb_to_bgr_undoes_bgr_to_rgb() {
    let data = [9, 8, 7, 6, 5, 4, 3, 2, 1, 0, 255, 254];
    let f = frame_from(2, 2, 3, &data);
    let back = rgb_to_bgr(&bgr_to_rgb(&f));
    assert_eq!(samples(&back), data.to_vec());
    assert_eq!(samples(&rgb_to_bgr(&f)), samples(&bgr_to_rgb(&f)));
}

#[test]
fn channel_swap_of_empty_frame_is_empty() {
    let f = Frame::new(0, 4, 3).unwrap();
    let g = bgr_to_rgb(&f);
    assert_eq!(g.shape(), (0, 4, 3));
}

#[test]
fn jet_extremes_are_half_blue_and_half_red() {
    let lut = build_jet_lut();
    assert_eq!(lut.len(), 256);
    assert_eq!(lut[0], (127, 0, 0));
    assert_eq!(lut[255], (0, 0, 127));
    assert_eq!(jet_color(0), (127, 0, 0));
    assert_eq!(jet_color(255), (0, 0, 127));
}

#[test]
fn jet_band_edges() {
    assert_eq!(jet_color(31), (251, 0, 0));
    assert_eq!(jet_color(32), (255, 0, 0));
    assert_eq!(jet_color(95), (255, 252, 0));
    assert_eq!(jet_color(96), (253, 255, 1));
    assert_eq!(jet_color(128), (125, 255, 129));
    assert_eq!(jet_color(159), (1, 255, 253));
    assert_eq!(jet_color(160), (0, 252, 255));
    assert_eq!(jet_color(223), (0, 0, 255));
    assert_eq!(jet_color(224), (0, 0, 251));
}

#[test]
fn jet_table_agrees_with_the_ramps_in_floating_point() {
    let lut = build_jet_lut();
    for i in 0..256 {
        assert_eq!(lut[i], float_jet(i), "index {}", i);
        assert_eq!(jet_color(i as u8), lut[i]);
    }
}

#[test]
fn colormap_looks_up_each_pixel() {
    let depth = frame_from(2, 2, 1, &[0, 255, 128, 32]);
    let out = depth_to_colormap_jet(&depth);
    assert_eq!(out.shape(), (2, 2, 3));
    assert_eq!(samples(&out), vec![127, 0, 0, 0, 0, 127, 125, 255, 129, 255, 0, 0]);
}

#[test]
fn colormap_depends_on_the_pixel_alone() {
    let a = depth_to_colormap_jet(&frame_from(1, 3, 1, &[10, 200, 77]));
    let b = depth_to_colormap_jet(&frame_from(1, 3, 1, &[99, 200, 3]));
    assert_eq!(a.get(0, 1, 0), b.get(0, 1, 0));
    assert_eq!(a.get(0, 1, 1), b.get(0, 1, 1));
    assert_eq!(a.get(0, 1, 2), b.get(0, 1, 2));
    let lut = build_jet_lut();
    assert_eq!((a.get(0, 0, 0).unwrap(), a.get(0, 0, 1).unwrap(), a.get(0, 0, 2).unwrap()), lut[10]);
}

#[test]
fn source_pair_holds_back_at_the_axis_end() {
    assert_eq!(source_pair(0, 5), (0, 1));
    assert_eq!(source_pair(1, 5), (1, 2));
    assert_eq!(source_pair(3, 5), (3, 4));
    assert_eq!(source_pair(4, 5), (3, 4));
    assert_eq!(source_pair(7, 5), (3, 4));
    assert_eq!(source_pair(usize::MAX, 2), (0, 1));
}

#[test]
fn source_pair_on_short_axes_stays_inside() {
    assert_eq!(source_pair(0, 1), (0, 0));
    assert_eq!(source_pair(3, 1), (0, 0));
    assert_eq!(source_pair(0, 0), (0, 0));
}

#[test]
fn resize_to_same_size_copies() {
    let data = [1, 2, 3, 4, 5, 6, 7, 8, 9, 10, 11, 12];
    let f = frame_from(2, 2, 3, &data);
    let g = resize_same_size(&f, 2, 2).unwrap();
    assert_eq!(g.shape(), (2, 2, 3));
    assert_eq!(samples(&g), data.to_vec());
}

#[test]
fn resize_to_other_size_is_left_to_blending() {
    let f = Frame::new(2, 2, 3).unwrap();
    assert!(resize_same_size(&f, 2, 3).is_none());
    assert!(resize_same_size(&f, 3, 2).is_none());
    assert!(resize_same_size(&f, 4, 4).is_none());
}

#[test]
fn pixel_of_point_is_row_major() {
    assert_eq!(pixel_of_point(0, 4), (0, 0));
    assert_eq!(pixel_of_point(3, 4), (0, 3));
    assert_eq!(pixel_of_point(4, 4), (1, 0));
    assert_eq!(pixel_of_point(11, 4), (2, 3));
    assert_eq!(pixel_of_point(5, 1), (5, 0));
}
