use raytracer::canvas::{can_allocate, Canvas};

#[test]
fn a_new_canvas_is_black() {
    let canvas = Canvas::new(3, 2);
    assert_eq!(canvas.width(), 3);
    assert_eq!(canvas.height(), 2);
    for y in 0..2 {
        for x in 0..3 {
            assert_eq!(canvas.pixel(x, y), Some((0, 0, 0)));
        }
    }
}

#[test]
fn no_pixel_outside_the_canvas() {
    let canvas = Canvas::new(3, 2);
    assert_eq!(canvas.pixel(3, 0), None);
    assert_eq!(canvas.pixel(0, 2), None);
    assert_eq!(canvas.pixel(u32::MAX, u32::MAX), None);
    let empty = Canvas::new(0, 0);
    assert_eq!(empty.pixel(0, 0), None);
}

#[test]
fn set_pixel_changes_one_pixel() {
    let mut canvas = Canvas::new(3, 2);
    assert!(canvas.set_pixel(2, 1, (10, 20, 30)));
    assert_eq!(canvas.pixel(2, 1), Some((10, 20, 30)));
    for y in 0..2 {
        for x in 0..3 {
            if (x, y) != (2, 1) {
                assert_eq!(canvas.pixel(x, y), Some((0, 0, 0)));
            }
        }
    }
    assert_eq!((canvas.width(), canvas.height()), (3, 2));
}

#[test]
fn set_pixel_outside_changes_nothing() {
    let mut canvas = Canvas::new(3, 2);
    assert!(!canvas.set_pixel(3, 1, (10, 20, 30)));
    assert!(!canvas.set_pixel(0, 2, (10, 20, 30)));
    assert_eq!(canvas.into_samples(), vec![0u8; 18]);
}

#[test]
fn paste_copies_the_other_image() {
    let mut small = Canvas::new(2, 2);
    small.set_pixel(0, 0, (1, 2, 3));
    small.set_pixel(1, 0, (4, 5, 6));
    small.set_pixel(0, 1, (7, 8, 9));
    small.set_pixel(1, 1, (10, 11, 12));
    let mut big = Canvas::new(4, 3);
    big.set_pixel(0, 0, (99, 99, 99));
    big.set_pixel(2, 1, (98, 98, 98));
    assert!(big.paste(&small, 2, 1));
    assert_eq!(big.pixel(2, 1), Some((1, 2, 3)));
    assert_eq!(big.pixel(3, 1), Some((4, 5, 6)));
    assert_eq!(big.pixel(2, 2), Some((7, 8, 9)));
    assert_eq!(big.pixel(3, 2), Some((10, 11, 12)));
    assert_eq!(big.pixel(0, 0), Some((99, 99, 99)));
    assert_eq!(big.pixel(1, 1), Some((0, 0, 0)));
    assert_eq!(big.pixel(3, 0), Some((0, 0, 0)));
    assert_eq!((big.width(), big.height()), (4, 3));
    // the other image is as it was
    assert_eq!(small.pixel(1, 1), Some((10, 11, 12)));
}

#[test]
fn paste_beyond_the_edge_changes_nothing() {
    let mut small = Canvas::new(2, 2);
    small.set_pixel(0, 0, (1, 2, 3));
    let mut big = Canvas::new(4, 3);
    assert!(!big.paste(&small, 3, 0));
    assert!(!big.paste(&small, 0, 2));
    assert!(!big.paste(&small, u32::MAX, 0));
    assert!(!big.paste(&small, 0, u32::MAX));
    assert_eq!(big.into_samples(), vec![0u8; 36]);
}

#[test]
fn paste_of_the_same_size() {
    let mut a = Canvas::new(2, 1);
    let mut b = Canvas::new(2, 1);
    b.set_pixel(1, 0, (5, 6, 7));
    assert!(a.paste(&b, 0, 0));
    assert_eq!(a.into_samples(), vec![0, 0, 0, 5, 6, 7]);
}

#[test]
fn samples_come_row_by_row() {
    let mut canvas = Canvas::new(2, 2);
    canvas.set_pixel(0, 0, (1, 2, 3));
    canvas.set_pixel(1, 0, (4, 5, 6));
    canvas.set_pixel(0, 1, (7, 8, 9));
    canvas.set_pixel(1, 1, (10, 11, 12));
    assert_eq!(
        canvas.into_samples(),
        vec![1, 2, 3, 4, 5, 6, 7, 8, 9, 10, 11, 12]
    );
}

#[test]
fn samples_of_an_empty_canvas() {
    assert_eq!(Canvas::new(0, 5).into_samples(), Vec::<u8>::new());
    assert_eq!(Canvas::new(5, 0).into_samples(), Vec::<u8>::new());
}

fn fits(width: u32, height: u32) -> bool {
    let row = 3 * width as u128;
    row <= usize::MAX as u128 && row * height as u128 <= isize::MAX as u128
}

#[test]
fn what_can_be_allocated() {
    assert!(can_allocate(0, 0));
    assert!(can_allocate(800, 600));
    assert!(can_allocate(0, u32::MAX));
    assert!(!can_allocate(u32::MAX, u32::MAX));
    assert!(!can_allocate(1, u32::MAX) || usize::MAX as u128 > u32::MAX as u128);
    for (width, height) in [
        (u32::MAX, 0),
        (u32::MAX, 1),
        (1, u32::MAX),
        (1431655765, 0),
        (1431655766, 0),
        (715827882, 1),
        (715827883, 1),
        (65536, 65536),
    ] {
        assert_eq!(can_allocate(width, height), fits(width, height));
    }
}

#[test]
fn the_row_counts_even_without_rows() {
    // three samples for each pixel of a row must be countable, whatever the
    // number of rows
    let row_fits = 3 * u32::MAX as u128 <= usize::MAX as u128;
    assert_eq!(can_allocate(u32::MAX, 0), row_fits);
    if can_allocate(u32::MAX, 0) {
        let wide = Canvas::new(u32::MAX, 0);
        assert_eq!((wide.width(), wide.height()), (u32::MAX, 0));
        assert_eq!(wide.into_samples(), Vec::<u8>::new());
    }
}
