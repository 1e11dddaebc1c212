use mandelbrot::escape::EscapeResult;
use mandelbrot::field::{compute_field, compute_rows};
use mandelbrot::grid::ImageSpec;
use std::cell::RefCell;

/// A sampler that tells the pixel in its result.
fn tag(x: usize, y: usize) -> EscapeResult {
    EscapeResult::Escaped((1000 * y + x) as u32)
}

#[test]
fn compute_field_is_row_major() {
    let spec = ImageSpec { width: 3, height: 2 };
    assert_eq!(
        compute_field(&spec, &tag),
        vec![
            EscapeResult::Escaped(0),
            EscapeResult::Escaped(1),
            EscapeResult::Escaped(2),
            EscapeResult::Escaped(1000),
            EscapeResult::Escaped(1001),
            EscapeResult::Escaped(1002),
        ]
    );
}

#[test]
fn compute_field_has_one_result_per_pixel() {
    for (width, height) in [(1usize, 1usize), (1, 7), (7, 1), (5, 4), (16, 9)] {
        let spec = ImageSpec { width, height };
        let field = compute_field(&spec, &tag);
        assert_eq!(field.len(), width * height);
        for y in 0..height {
            for x in 0..width {
                assert_eq!(field[spec.pixel_index(x, y)], tag(x, y));
            }
        }
    }
}

#[test]
fn compute_field_asks_once_for_each_pixel_in_order() {
    let spec = ImageSpec { width: 2, height: 3 };
    let asked = RefCell::new(Vec::new());
    compute_field(&spec, &|x, y| {
        asked.borrow_mut().push((x, y));
        EscapeResult::Bounded
    });
    assert_eq!(asked.into_inner(), vec![(0, 0), (1, 0), (0, 1), (1, 1), (0, 2), (1, 2)]);
}

#[test]
fn compute_field_of_empty_grid_is_empty() {
    for spec in [
        ImageSpec { width: 0, height: 0 },
        ImageSpec { width: 0, height: 9 },
        ImageSpec { width: 9, height: 0 },
    ] {
        assert_eq!(compute_field(&spec, &tag), Vec::new());
    }
}

#[test]
fn compute_rows_holds_the_rows_asked_for() {
    let spec = ImageSpec { width: 2, height: 4 };
    assert_eq!(
        compute_rows(&spec, &tag, 1, 3),
        vec![
            EscapeResult::Escaped(1000),
            EscapeResult::Escaped(1001),
            EscapeResult::Escaped(2000),
            EscapeResult::Escaped(2001),
        ]
    );
}

#[test]
fn compute_rows_of_empty_range_is_empty() {
    let spec = ImageSpec { width: 2, height: 4 };
    for row in 0..=4 {
        assert_eq!(compute_rows(&spec, &tag, row, row), Vec::new());
    }
}

#[test]
fn compute_rows_of_whole_grid_is_compute_field() {
    let spec = ImageSpec { width: 5, height: 3 };
    assert_eq!(compute_rows(&spec, &tag, 0, 3), compute_field(&spec, &tag));
}

#[test]
fn rows_computed_apart_join_to_the_field() {
    let spec = ImageSpec { width: 4, height: 5 };
    let whole = compute_field(&spec, &tag);
    for cuts in [vec![0, 5], vec![0, 3, 5], vec![0, 1, 2, 3, 4, 5], vec![0, 0, 2, 2, 5, 5]] {
        let mut joined = Vec::new();
        for band in cuts.windows(2) {
            joined.extend(compute_rows(&spec, &tag, band[0], band[1]));
        }
        assert_eq!(joined, whole);
    }
}

#[test]
fn compute_field_twice_gives_the_same_field() {
    let spec = ImageSpec { width: 9, height: 9 };
    assert_eq!(compute_field(&spec, &tag), compute_field(&spec, &tag));
}
