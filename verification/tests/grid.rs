use mandelbrot::grid::Bounds;

#[test]
fn bounds_new_accepts_positive_sides() {
    assert_eq!(Bounds::new(100, 200), Some(Bounds { width: 100, height: 200 }));
    assert_eq!(Bounds::new(1, 1), Some(Bounds { width: 1, height: 1 }));
    assert_eq!(Bounds::new(usize::MAX, 1), Some(Bounds { width: usize::MAX, height: 1 }));
}

#[test]
fn bounds_new_refuses_zero_sides_and_overflow() {
    assert_eq!(Bounds::new(0, 200), None);
    assert_eq!(Bounds::new(100, 0), None);
    assert_eq!(Bounds::new(0, 0), None);
    assert_eq!(Bounds::new(usize::MAX, 2), None);
    assert_eq!(Bounds::new(usize::MAX / 2 + 1, 2), None);
}

#[test]
fn bounds_len_is_the_pixel_count() {
    assert_eq!(Bounds { width: 100, height: 200 }.len(), 20000);
    assert_eq!(Bounds { width: 1, height: 1 }.len(), 1);
    assert_eq!(Bounds { width: usize::MAX, height: 1 }.len(), usize::MAX);
}

#[test]
fn bounds_offset_is_row_major() {
    let bounds = Bounds { width: 100, height: 200 };
    assert_eq!(bounds.offset(0, 0), 0);
    assert_eq!(bounds.offset(99, 0), 99);
    assert_eq!(bounds.offset(0, 1), 100);
    assert_eq!(bounds.offset(25, 175), 17525);
    assert_eq!(bounds.offset(99, 199), 19999);
}

#[test]
fn bounds_offsets_are_distinct_and_in_range() {
    let bounds = Bounds { width: 7, height: 5 };
    let mut seen = vec![false; bounds.len()];
    for row in 0..5 {
        for column in 0..7 {
            let at = bounds.offset(column, row);
            assert!(!seen[at]);
            seen[at] = true;
        }
    }
    assert!(seen.iter().all(|&s| s));
}
