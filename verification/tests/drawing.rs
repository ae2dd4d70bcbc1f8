use vision_kernels::draw::{clamp_to_axis, draw_bboxes_on_frame, draw_box, fill_rect, fill_rect_color, generate_dummy_frame, PixelBox};
use vision_kernels::grid::Frame;

fn plane(f: &Frame, k: usize) -> Vec<Vec<u8>> {
    let (h, w, _c) = f.shape();
    (0..h).map(|i| (0..w).map(|j| f.get(i, j, k).unwrap()).collect()).collect()
}

fn boxed(x1: isize, y1: isize, x2: isize, y2: isize) -> PixelBox {
    PixelBox { x1, y1, x2, y2 }
}

#[test]
fn fill_rect_sets_one_channel_inside_only() {
    let mut f = Frame::new(3, 4, 3).unwrap();
    fill_rect(&mut f, 1, 3, 1, 3, 2, 9);
    assert_eq!(plane(&f, 2), vec![vec![0, 0, 0, 0], vec![0, 9, 9, 0], vec![0, 9, 9, 0]]);
    assert_eq!(plane(&f, 0), vec![vec![0; 4]; 3]);
    assert_eq!(plane(&f, 1), vec![vec![0; 4]; 3]);
}

#[test]
fn fill_rect_with_no_rows_or_columns_changes_nothing() {
    let mut f = Frame::new(2, 2, 3).unwrap();
    fill_rect(&mut f, 1, 1, 0, 2, 0, 5);
    fill_rect(&mut f, 2, 1, 0, 2, 0, 5);
    fill_rect(&mut f, 0, 2, 2, 2, 0, 5);
    assert_eq!(plane(&f, 0), vec![vec![0; 2]; 2]);
}

#[test]
fn fill_rect_color_sets_three_channels() {
    let mut f = Frame::new(2, 2, 4).unwrap();
    fill_rect_color(&mut f, 0, 1, 1, 2, (10, 20, 30));
    assert_eq!(plane(&f, 0), vec![vec![0, 10], vec![0, 0]]);
    assert_eq!(plane(&f, 1), vec![vec![0, 20], vec![0, 0]]);
    assert_eq!(plane(&f, 2), vec![vec![0, 30], vec![0, 0]]);
    assert_eq!(plane(&f, 3), vec![vec![0, 0], vec![0, 0]]);
}

#[test]
fn clamp_to_axis_pulls_coordinates_in() {
    assert_eq!(clamp_to_axis(-5, 10), 0);
    assert_eq!(clamp_to_axis(0, 10), 0);
    assert_eq!(clamp_to_axis(9, 10), 9);
    assert_eq!(clamp_to_axis(10, 10), 9);
    assert_eq!(clamp_to_axis(isize::MAX, 1), 0);
    assert_eq!(clamp_to_axis(isize::MIN, 3), 0);
}

#[test]
fn draw_box_outline_of_thickness_one() {
    let mut f = Frame::new(6, 6, 3).unwrap();
    draw_box(&mut f, boxed(1, 1, 4, 4), (7, 8, 9), 1);
    let outline = |v: u8| {
        vec![
            vec![0, 0, 0, 0, 0, 0],
            vec![0, v, v, v, v, 0],
            vec![0, v, 0, 0, v, 0],
            vec![0, v, 0, 0, v, 0],
            vec![0, v, v, v, v, 0],
            vec![0, 0, 0, 0, 0, 0],
        ]
    };
    assert_eq!(plane(&f, 0), outline(7));
    assert_eq!(plane(&f, 1), outline(8));
    assert_eq!(plane(&f, 2), outline(9));
}

#[test]
fn draw_box_thickness_is_capped_by_the_box() {
    let mut f = Frame::new(5, 5, 3).unwrap();
    draw_box(&mut f, boxed(1, 1, 3, 3), (1, 1, 1), 9);
    assert_eq!(
        plane(&f, 0),
        vec![
            vec![0, 0, 0, 0, 0],
            vec![0, 1, 1, 1, 0],
            vec![0, 1, 1, 1, 0],
            vec![0, 1, 1, 1, 0],
            vec![0, 0, 0, 0, 0],
        ]
    );
}

#[test]
fn draw_box_of_thickness_two() {
    let mut f = Frame::new(7, 7, 3).unwrap();
    draw_box(&mut f, boxed(0, 0, 6, 6), (1, 1, 1), 2);
    let mut expected = vec![vec![1u8; 7]; 7];
    for i in 2..5 {
        for j in 2..5 {
            expected[i][j] = 0;
        }
    }
    assert_eq!(plane(&f, 1), expected);
}

#[test]
fn draw_box_is_pulled_onto_the_image() {
    let mut f = Frame::new(4, 4, 3).unwrap();
    draw_box(&mut f, boxed(-10, 2, 100, 50), (5, 5, 5), 1);
    assert_eq!(
        plane(&f, 0),
        vec![vec![0, 0, 0, 0], vec![0, 0, 0, 0], vec![5, 5, 5, 5], vec![5, 5, 5, 5]]
    );
}

#[test]
fn draw_box_that_is_empty_or_of_no_thickness_paints_nothing() {
    let mut f = Frame::new(4, 4, 3).unwrap();
    draw_box(&mut f, boxed(2, 2, 2, 3), (5, 5, 5), 1);
    draw_box(&mut f, boxed(3, 1, 1, 3), (5, 5, 5), 1);
    draw_box(&mut f, boxed(9, 9, 12, 12), (5, 5, 5), 1);
    draw_box(&mut f, boxed(0, 0, 3, 3), (5, 5, 5), 0);
    for k in 0..3 {
        assert_eq!(plane(&f, k), vec![vec![0; 4]; 4]);
    }
}

#[test]
fn draw_bboxes_leaves_the_input_and_other_samples_alone() {
    let mut f = Frame::new(4, 5, 4).unwrap();
    for i in 0..4 {
        for j in 0..5 {
            for k in 0..4 {
                f.set(i, j, k, 100);
            }
        }
    }
    let out = draw_bboxes_on_frame(&f, &vec![boxed(0, 0, 2, 2), boxed(3, 1, 4, 3)], (0, 255, 0), 1);
    assert_eq!(out.shape(), (4, 5, 4));
    assert_eq!(
        plane(&out, 1),
        vec![
            vec![255, 255, 255, 100, 100],
            vec![255, 100, 255, 255, 255],
            vec![255, 255, 255, 255, 255],
            vec![100, 100, 100, 255, 255],
        ]
    );
    assert_eq!(plane(&out, 0)[0], vec![0, 0, 0, 100, 100]);
    assert_eq!(plane(&out, 3), vec![vec![100; 5]; 4]);
    assert_eq!(plane(&f, 1), vec![vec![100; 5]; 4]);
}

#[test]
fn draw_no_boxes_copies_the_frame() {
    let f = Frame::new(0, 0, 3).unwrap();
    let out = draw_bboxes_on_frame(&f, &Vec::new(), (1, 2, 3), 2);
    assert_eq!(out.shape(), (0, 0, 3));
}

#[test]
fn dummy_frame_has_a_green_square() {
    let f = generate_dummy_frame(100, 120, 10, 5);
    assert_eq!(f.shape(), (100, 120, 3));
    for i in 0..100 {
        for j in 0..120 {
            let inside = (5..85).contains(&i) && (10..90).contains(&j);
            assert_eq!(f.get(i, j, 1), Some(if inside { 255 } else { 0 }));
            assert_eq!(f.get(i, j, 0), Some(0));
            assert_eq!(f.get(i, j, 2), Some(0));
        }
    }
}

#[test]
fn dummy_frame_square_is_cut_at_the_edges() {
    let f = generate_dummy_frame(50, 60, 40, 45);
    assert_eq!(f.get(44, 40, 1), Some(0));
    assert_eq!(f.get(45, 39, 1), Some(0));
    assert_eq!(f.get(45, 40, 1), Some(255));
    assert_eq!(f.get(49, 59, 1), Some(255));
    let far = generate_dummy_frame(10, 10, usize::MAX, 0);
    assert_eq!(plane(&far, 1), vec![vec![0; 10]; 10]);
    let low = generate_dummy_frame(10, 10, 0, usize::MAX - 3);
    assert_eq!(plane(&low, 1), vec![vec![0; 10]; 10]);
}
