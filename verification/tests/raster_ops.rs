use triangulator::ndgrid::Raster;
use triangulator::utl::{array_to_image, brush, build_mesh_image, color, color_lookup_table, image_to_array};

fn raster(height: u32, width: u32, raw: Vec<u8>) -> Raster {
    image_to_array(height, width, raw)
}

fn at(raw: &[u8], width: usize, row: usize, col: usize, c: usize) -> u8 {
    raw[(row * width + col) * 3 + c]
}

#[test]
fn image_array_roundtrip() {
    let raw: Vec<u8> = (0..18).collect();
    let r = raster(2, 3, raw.clone());
    let (w, h, back) = array_to_image(&r);
    assert_eq!(w, 3);
    assert_eq!(h, 2);
    assert_eq!(back, raw);
}

#[test]
fn empty_image_roundtrip() {
    let r = raster(0, 5, Vec::new());
    let (w, h, back) = array_to_image(&r);
    assert_eq!((w, h), (5, 0));
    assert!(back.is_empty());
}

#[test]
fn brush_paints_square_inside() {
    let mut r = raster(5, 5, vec![200u8; 75]);
    brush(&mut r, 2, 2, 1);
    let (_, _, raw) = array_to_image(&r);
    for row in 0..5 {
        for col in 0..5 {
            for c in 0..3 {
                let expect = if (1..3).contains(&row) && (1..3).contains(&col) { 0 } else { 200 };
                assert_eq!(at(&raw, 5, row, col, c), expect, "pixel {} {} {}", row, col, c);
            }
        }
    }
}

#[test]
fn brush_at_edge_does_nothing() {
    let mut r = raster(5, 5, vec![9u8; 75]);
    brush(&mut r, 0, 2, 1);
    brush(&mut r, 4, 2, 1);
    brush(&mut r, 2, 4, 1);
    let (_, _, raw) = array_to_image(&r);
    assert!(raw.iter().all(|&v| v == 9));
}

#[test]
fn brush_twice_is_brush_once() {
    let mut once = raster(6, 6, (0..108).map(|v| v as u8).collect());
    brush(&mut once, 3, 2, 2);
    let mut twice = raster(6, 6, (0..108).map(|v| v as u8).collect());
    brush(&mut twice, 3, 2, 2);
    brush(&mut twice, 3, 2, 2);
    assert_eq!(array_to_image(&once), array_to_image(&twice));
}

#[test]
fn brush_of_size_zero_paints_nothing() {
    let mut r = raster(3, 3, vec![7u8; 27]);
    brush(&mut r, 1, 1, 0);
    let (_, _, raw) = array_to_image(&r);
    assert!(raw.iter().all(|&v| v == 7));
}

#[test]
fn mesh_image_marks_and_white_background() {
    let marks = vec![(1, 1), (0, 0), (3, 3)];
    let img = build_mesh_image(4, 5, &marks);
    let (w, h, raw) = array_to_image(&img);
    assert_eq!((w, h), (5, 4));
    for row in 0..4 {
        for col in 0..5 {
            let expect = if row < 2 && col < 2 { 0 } else { 255 };
            for c in 0..3 {
                assert_eq!(at(&raw, 5, row, col, c), expect);
            }
        }
    }
}

#[test]
fn mesh_image_mark_order_does_not_matter() {
    let a = build_mesh_image(6, 6, &vec![(1, 1), (3, 4), (2, 2)]);
    let b = build_mesh_image(6, 6, &vec![(2, 2), (1, 1), (3, 4)]);
    assert_eq!(array_to_image(&a), array_to_image(&b));
}

fn sample_image() -> Raster {
    // 2 rows, 2 columns
    raster(2, 2, vec![10, 20, 30, 40, 50, 60, 70, 80, 90, 101, 111, 121])
}

#[test]
fn lookup_table_groups_and_means() {
    let owner = vec![vec![0usize, 1], vec![1, 1]];
    let img = sample_image();
    let (groups, colors) = color_lookup_table(2, 2, 3, &owner, &img);
    assert_eq!(groups, vec![vec![(0, 0)], vec![(1, 0), (0, 1), (1, 1)], vec![]]);
    // triangle 1: pixels (row 1, col 0) = 70 80 90, (0,1) = 40 50 60, (1,1) = 101 111 121
    assert_eq!(colors[0], [10, 20, 30]);
    assert_eq!(colors[1], [70, 80, 90]);
    assert_eq!(colors[2], [0, 0, 0]);
}

#[test]
fn lookup_table_scan_leaves_out_nothing_when_full() {
    let owner = vec![vec![0usize; 2]; 2];
    let (groups, colors) = color_lookup_table(2, 2, 1, &owner, &sample_image());
    assert_eq!(groups[0], vec![(0, 0), (1, 0), (0, 1), (1, 1)]);
    assert_eq!(colors[0], [55, 65, 75]);
}

#[test]
fn color_paints_groups_and_leaves_rest_black() {
    let groups = vec![vec![(0usize, 0usize), (1, 1)], vec![(1, 1)]];
    let colors = vec![[1u8, 2, 3], [4, 5, 6]];
    let out = color((groups, colors), sample_image());
    let (_, _, raw) = array_to_image(&out);
    assert_eq!(&raw[0..3], &[1, 2, 3]);
    assert_eq!(&raw[3..6], &[0, 0, 0]);
    assert_eq!(&raw[6..9], &[0, 0, 0]);
    assert_eq!(&raw[9..12], &[4, 5, 6]);
}

#[test]
fn color_ignores_groups_without_colour() {
    let groups = vec![vec![(0usize, 0usize)], vec![(1, 1)]];
    let colors = vec![[9u8, 9, 9]];
    let out = color((groups, colors), sample_image());
    let (_, _, raw) = array_to_image(&out);
    assert_eq!(&raw[0..3], &[9, 9, 9]);
    assert_eq!(&raw[9..12], &[0, 0, 0]);
}

#[test]
fn lookup_then_color_paints_triangle_means() {
    let owner = vec![vec![0usize, 1], vec![1, 1]];
    let lut = color_lookup_table(2, 2, 2, &owner, &sample_image());
    let means = lut.1.clone();
    let out = color(lut, sample_image());
    let (_, _, raw) = array_to_image(&out);
    assert_eq!(&raw[0..3], &means[0]);
    for p in [3usize, 6, 9] {
        assert_eq!(&raw[p..p + 3], &means[1]);
    }
}

#[test]
fn lookup_then_color_leaves_unscanned_pixels_black() {
    // the scan covers one column and one row only, as a mesh sized one pixel short does
    let owner = vec![vec![0usize]];
    let lut = color_lookup_table(1, 1, 1, &owner, &sample_image());
    let out = color(lut, sample_image());
    let (_, _, raw) = array_to_image(&out);
    assert_eq!(&raw[0..3], &[10, 20, 30]);
    assert_eq!(&raw[3..12], &[0; 9]);
}

#[test]
fn brush_with_negative_size_counts_the_end_from_the_far_edge() {
    // rows and columns 5..(10 - 1) are painted, as ndarray reads a negative range end
    let mut r = raster(10, 10, vec![9u8; 300]);
    brush(&mut r, 2, 2, -3);
    let (_, _, raw) = array_to_image(&r);
    for row in 0..10 {
        for col in 0..10 {
            for c in 0..3 {
                let expect = if (5..9).contains(&row) && (5..9).contains(&col) { 0 } else { 9 };
                assert_eq!(at(&raw, 10, row, col, c), expect, "pixel {} {} {}", row, col, c);
            }
        }
    }
}

#[test]
fn brush_with_negative_size_at_the_edge_does_nothing() {
    let mut r = raster(3, 3, vec![4u8; 27]);
    brush(&mut r, 4, 1, -1);
    brush(&mut r, 1, 4, -1);
    let (_, _, raw) = array_to_image(&r);
    assert!(raw.iter().all(|&v| v == 4));
}

#[test]
fn raster_image_raster_roundtrip() {
    let r = build_mesh_image(4, 5, &vec![(2, 2), (1, 1)]);
    let (width, height, raw) = array_to_image(&r);
    assert_eq!((width, height), (5, 4));
    let back = image_to_array(height, width, raw.clone());
    assert_eq!(back.shape(), r.shape());
    assert_eq!(array_to_image(&back), (width, height, raw));
}

#[test]
fn lookup_table_of_repainted_image_is_the_same() {
    let owner = vec![vec![0usize, 1], vec![1, 2]];
    let lut = color_lookup_table(2, 2, 3, &owner, &sample_image());
    let painted = color(lut.clone(), sample_image());
    let again = color_lookup_table(2, 2, 3, &owner, &painted);
    assert_eq!(again, lut);
}
