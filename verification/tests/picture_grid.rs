use triangulator::ndgrid::{ByteGrid, IndexGrid, ShapeMismatch};
use triangulator::picture::Picture;
use triangulator::utl::image_to_array;

fn square_picture() -> Picture {
    let raw: Vec<u8> = (0..12).collect();
    Picture::new(2, 2, image_to_array(2, 2, raw)).expect("shape matches")
}

#[test]
fn picture_rejects_wrong_shape() {
    let r = image_to_array(2, 3, vec![0u8; 18]);
    assert!(Picture::new(3, 2, r).is_none());
    let r = image_to_array(2, 3, vec![0u8; 18]);
    assert!(Picture::new(2, 3, r).is_some());
}

#[test]
fn picture_dimension_is_width_then_height() {
    let p = Picture::new(2, 3, image_to_array(2, 3, vec![0u8; 18])).unwrap();
    assert_eq!(p.dimension(), (3, 2));
}

#[test]
fn picture_get_pixel() {
    let p = square_picture();
    assert_eq!(p.get_pixel(0, 0), [0, 1, 2]);
    assert_eq!(p.get_pixel(0, 1), [3, 4, 5]);
    assert_eq!(p.get_pixel(1, 0), [6, 7, 8]);
    assert_eq!(p.get_pixel(1, 1), [9, 10, 11]);
}

#[test]
fn picture_save_does_nothing() {
    let p = square_picture();
    p.save("ignored.png");
    assert_eq!(p.get_pixel(1, 1), [9, 10, 11]);
}

#[test]
fn apply_colormap_then_read_gives_lookup_colour() {
    let mut p = square_picture();
    let colors = ByteGrid::new(2, 3, vec![100, 101, 102, 200, 201, 202]).unwrap();
    let lookup = IndexGrid::new(2, 2, vec![1, 0, 0, 1]).unwrap();
    let (w, h) = p.apply_colormap((colors, lookup)).dimension();
    assert_eq!((w, h), (2, 2));
    assert_eq!(p.get_pixel(0, 0), [200, 201, 202]);
    assert_eq!(p.get_pixel(0, 1), [100, 101, 102]);
    assert_eq!(p.get_pixel(1, 0), [100, 101, 102]);
    assert_eq!(p.get_pixel(1, 1), [200, 201, 202]);
}

#[test]
fn apply_colormap_on_empty_picture() {
    let mut p = Picture::new(0, 0, image_to_array(0, 0, Vec::new())).unwrap();
    let colors = ByteGrid::new(0, 0, Vec::new()).unwrap();
    let lookup = IndexGrid::new(0, 0, Vec::new()).unwrap();
    assert_eq!(p.apply_colormap((colors, lookup)).dimension(), (0, 0));
}

#[test]
fn grids_reject_wrong_length() {
    assert_eq!(ByteGrid::new(2, 2, vec![0u8; 3]).err(), Some(ShapeMismatch::BadShape));
    assert_eq!(IndexGrid::new(1, 2, vec![0usize; 3]).err(), Some(ShapeMismatch::BadShape));
    assert!(ByteGrid::new(usize::MAX, 2, Vec::new()).is_err());
}
