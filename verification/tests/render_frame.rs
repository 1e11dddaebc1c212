use mandelbrot::escape::{advance, EscapeResult, Step};
use mandelbrot::field::{compute_field, compute_rows};
use mandelbrot::gradient::{colorize, Gradient, Preset};
use mandelbrot::grid::ImageSpec;
use mandelbrot::render::{generate_image, pixel_at, render, render_rows};
use num_complex::Complex;

/// The escape result of the point that the pixel at column `x` of row `y`
/// samples, in double precision.
fn escape_at(spec: &ImageSpec, max_iter: u32, zoom: f64, x: usize, y: usize) -> EscapeResult {
    let cx = (x as f64 / spec.width as f64 - 0.5) * 3.5 / zoom - 0.5;
    let cy = (y as f64 / spec.height as f64 - 0.5) * 2.0 / zoom;
    let c = Complex::new(cx, cy);
    let mut z = Complex::new(0.0, 0.0);
    let mut iter = 0;
    loop {
        match advance(iter, max_iter, z.norm() <= 2.0) {
            Step::Iterate(next) => {
                z = z * z + c;
                iter = next;
            }
            Step::Stop(result) => return result,
        }
    }
}

fn mandelbrot_field(spec: &ImageSpec, max_iter: u32, zoom: f64) -> Vec<EscapeResult> {
    compute_field(spec, &|x, y| escape_at(spec, max_iter, zoom, x, y))
}

fn sample_field() -> Vec<EscapeResult> {
    vec![
        EscapeResult::Escaped(0),
        EscapeResult::Escaped(1),
        EscapeResult::Bounded,
        EscapeResult::Escaped(9),
        EscapeResult::Escaped(5),
        EscapeResult::Escaped(10),
    ]
}

#[test]
fn render_packs_four_bytes_per_pixel_in_row_order() {
    let spec = ImageSpec { width: 3, height: 2 };
    let field = sample_field();
    assert!(spec.admits(field.len()));
    let pixels = render(&spec, 10, &field, &Preset::Rainbow.gradient());
    assert_eq!(
        pixels,
        vec![
            255, 0, 0, 255, 229, 0, 25, 255, 0, 0, 0, 255, 25, 0, 229, 255, 127, 0, 127, 255, 0, 0,
            0, 255,
        ]
    );
}

#[test]
fn render_agrees_with_colorize_pixel_by_pixel() {
    let spec = ImageSpec { width: 2, height: 3 };
    let field = sample_field();
    let gradient = Gradient { start_color: [9, 99, 199], end_color: [250, 150, 50] };
    let pixels = render(&spec, 12, &field, &gradient);
    assert_eq!(pixels.len(), 24);
    for y in 0..3 {
        for x in 0..2 {
            let i = spec.pixel_index(x, y);
            assert_eq!(i, y * 2 + x);
            assert_eq!(pixels[4 * i..4 * i + 4], colorize(field[i], 12, &gradient));
            assert_eq!(pixel_at(&spec, &pixels, x, y), colorize(field[i], 12, &gradient));
        }
    }
}

#[test]
fn render_empty_grid_is_empty() {
    let gradient = Preset::Green.gradient();
    for spec in [
        ImageSpec { width: 0, height: 0 },
        ImageSpec { width: 0, height: 5 },
        ImageSpec { width: 7, height: 0 },
    ] {
        assert!(spec.admits(0));
        assert_eq!(render(&spec, 100, &[], &gradient), Vec::<u8>::new());
    }
}

#[test]
fn render_zero_budget_is_all_black() {
    let spec = ImageSpec { width: 3, height: 2 };
    let pixels = render(&spec, 0, &sample_field(), &Preset::Purple.gradient());
    assert_eq!(pixels.len(), 24);
    for pixel in pixels.chunks(4) {
        assert_eq!(pixel, [0, 0, 0, 255]);
    }
}

#[test]
fn render_twice_gives_identical_buffers() {
    let spec = ImageSpec { width: 8, height: 8 };
    let field = mandelbrot_field(&spec, 100, 1.0);
    let gradient = Preset::Purple.gradient();
    let first = render(&spec, 100, &field, &gradient);
    let second = render(&spec, 100, &field, &gradient);
    assert_eq!(first, second);
}

#[test]
fn render_four_by_four_scenario() {
    let spec = ImageSpec { width: 4, height: 4 };
    let field = mandelbrot_field(&spec, 10, 1.0);
    assert!(spec.admits(field.len()));
    let pixels = render(&spec, 10, &field, &Preset::Rainbow.gradient());
    assert_eq!(pixels.len(), 64);
    for pixel in pixels.chunks(4) {
        assert_eq!(pixel[3], 255);
    }
    assert_eq!(pixel_at(&spec, &pixels, 2, 2), [0, 0, 0, 255]);
    assert_eq!(pixels[40..44], [0, 0, 0, 255]);
}

#[test]
fn render_four_by_four_exact_bytes() {
    let spec = ImageSpec { width: 4, height: 4 };
    let field = mandelbrot_field(&spec, 10, 1.0);
    let counts = [1u32, 3, 4, 3, 1, 3, 10, 9, 1, 10, 10, 7, 1, 3, 10, 9];
    for (result, count) in field.iter().zip(counts) {
        let expected =
            if count < 10 { EscapeResult::Escaped(count) } else { EscapeResult::Bounded };
        assert_eq!(*result, expected);
    }
    let pixels = render(&spec, 10, &field, &Preset::Rainbow.gradient());
    assert_eq!(
        pixels,
        vec![
            229, 0, 25, 255, 178, 0, 76, 255, 153, 0, 102, 255, 178, 0, 76, 255, 229, 0, 25, 255,
            178, 0, 76, 255, 0, 0, 0, 255, 25, 0, 229, 255, 229, 0, 25, 255, 0, 0, 0, 255, 0, 0, 0,
            255, 76, 0, 178, 255, 229, 0, 25, 255, 178, 0, 76, 255, 0, 0, 0, 255, 25, 0, 229, 255,
        ]
    );
}

#[test]
fn render_rows_of_whole_grid_is_render() {
    let spec = ImageSpec { width: 3, height: 2 };
    let field = sample_field();
    let gradient = Preset::Rainbow.gradient();
    assert_eq!(
        render_rows(&spec, 10, &field, &gradient, 0, 2),
        render(&spec, 10, &field, &gradient)
    );
}

#[test]
fn render_rows_of_empty_range_is_empty() {
    let spec = ImageSpec { width: 3, height: 2 };
    let field = sample_field();
    let gradient = Preset::Rainbow.gradient();
    for row in 0..=2 {
        assert_eq!(render_rows(&spec, 10, &field, &gradient, row, row), Vec::<u8>::new());
    }
}

#[test]
fn render_rows_single_row() {
    let spec = ImageSpec { width: 3, height: 2 };
    let field = sample_field();
    let gradient = Preset::Rainbow.gradient();
    assert_eq!(
        render_rows(&spec, 10, &field, &gradient, 1, 2),
        vec![25, 0, 229, 255, 127, 0, 127, 255, 0, 0, 0, 255]
    );
}

#[test]
fn rows_rendered_apart_join_to_the_whole() {
    let spec = ImageSpec { width: 8, height: 8 };
    let field = mandelbrot_field(&spec, 100, 1.0);
    let gradient = Preset::Green.gradient();
    let whole = render(&spec, 100, &field, &gradient);
    for cuts in [vec![0, 8], vec![0, 4, 8], vec![0, 1, 2, 3, 4, 5, 6, 7, 8], vec![0, 0, 3, 3, 8, 8]]
    {
        let mut joined = Vec::new();
        for band in cuts.windows(2) {
            joined.extend(render_rows(&spec, 100, &field, &gradient, band[0], band[1]));
        }
        assert_eq!(joined, whole);
    }
}

#[test]
fn rows_join_at_every_zoom_tried() {
    let gradient = Preset::Rainbow.gradient();
    for (width, height, max_iter, zoom) in
        [(4usize, 4usize, 10u32, 1.0f64), (5, 3, 25, 0.1), (3, 7, 40, 5.0), (1, 1, 1, 2.5)]
    {
        let spec = ImageSpec { width, height };
        let field = mandelbrot_field(&spec, max_iter, zoom);
        let whole = render(&spec, max_iter, &field, &gradient);
        for mid in 0..=height {
            let mut joined = render_rows(&spec, max_iter, &field, &gradient, 0, mid);
            joined.extend(render_rows(&spec, max_iter, &field, &gradient, mid, height));
            assert_eq!(joined, whole);
        }
    }
}

#[test]
fn admits_field_of_matching_length_only() {
    let spec = ImageSpec { width: 3, height: 2 };
    assert!(spec.admits(6));
    assert!(!spec.admits(5));
    assert!(!spec.admits(7));
    assert!(!spec.admits(0));
}

#[test]
fn admits_nothing_when_buffer_cannot_be_addressed() {
    let wide = ImageSpec { width: usize::MAX, height: 2 };
    assert!(!wide.admits(usize::MAX));
    let quarter = ImageSpec { width: usize::MAX / 4 + 1, height: 1 };
    assert!(!quarter.admits(usize::MAX / 4 + 1));
    let largest = ImageSpec { width: usize::MAX / 4, height: 1 };
    assert!(largest.admits(usize::MAX / 4));
}

#[test]
fn pixel_index_is_row_major() {
    let spec = ImageSpec { width: 800, height: 600 };
    assert_eq!(spec.pixel_index(0, 0), 0);
    assert_eq!(spec.pixel_index(799, 0), 799);
    assert_eq!(spec.pixel_index(0, 1), 800);
    assert_eq!(spec.pixel_index(13, 7), 5613);
    assert_eq!(spec.pixel_index(799, 599), 479_999);
}

#[test]
fn pixel_at_reads_the_four_bytes_of_a_pixel() {
    let spec = ImageSpec { width: 2, height: 2 };
    let pixels: Vec<u8> = (0..16).collect();
    assert_eq!(pixel_at(&spec, &pixels, 0, 0), [0, 1, 2, 3]);
    assert_eq!(pixel_at(&spec, &pixels, 1, 0), [4, 5, 6, 7]);
    assert_eq!(pixel_at(&spec, &pixels, 0, 1), [8, 9, 10, 11]);
    assert_eq!(pixel_at(&spec, &pixels, 1, 1), [12, 13, 14, 15]);
}

#[test]
fn admits_buffer_up_to_the_addressable_size() {
    assert!(ImageSpec { width: 0, height: 0 }.admits_buffer());
    assert!(ImageSpec { width: 800, height: 800 }.admits_buffer());
    assert!(ImageSpec { width: usize::MAX / 4, height: 1 }.admits_buffer());
    assert!(ImageSpec { width: 0, height: usize::MAX }.admits_buffer());
    assert!(!ImageSpec { width: usize::MAX / 4 + 1, height: 1 }.admits_buffer());
    assert!(!ImageSpec { width: usize::MAX, height: usize::MAX }.admits_buffer());
}

#[test]
fn generate_image_four_by_four_scenario() {
    let spec = ImageSpec { width: 4, height: 4 };
    let gradient = Preset::Rainbow.gradient();
    let pixels = generate_image(&spec, 10, &gradient, &|x, y| escape_at(&spec, 10, 1.0, x, y))
        .expect("a 4 by 4 image is addressable");
    assert_eq!(pixels.len(), 64);
    for pixel in pixels.chunks(4) {
        assert_eq!(pixel[3], 255);
    }
    assert_eq!(pixel_at(&spec, &pixels, 2, 2), [0, 0, 0, 255]);
}

#[test]
fn generate_image_is_compute_then_render() {
    let gradient = Preset::Purple.gradient();
    for (width, height, max_iter, zoom) in
        [(4usize, 4usize, 10u32, 1.0f64), (6, 5, 30, 0.5), (2, 9, 100, 3.0), (0, 3, 10, 1.0)]
    {
        let spec = ImageSpec { width, height };
        let field = mandelbrot_field(&spec, max_iter, zoom);
        let image = generate_image(&spec, max_iter, &gradient, &|x, y| {
            escape_at(&spec, max_iter, zoom, x, y)
        });
        assert_eq!(image, Some(render(&spec, max_iter, &field, &gradient)));
    }
}

#[test]
fn generate_image_twice_gives_identical_buffers() {
    let spec = ImageSpec { width: 16, height: 12 };
    let gradient = Preset::Green.gradient();
    let sampler = |x, y| escape_at(&spec, 100, 2.0, x, y);
    let first = generate_image(&spec, 100, &gradient, &sampler);
    let second = generate_image(&spec, 100, &gradient, &sampler);
    assert!(first.is_some());
    assert_eq!(first, second);
}

#[test]
fn generate_image_refuses_a_grid_too_large_to_address() {
    let spec = ImageSpec { width: usize::MAX, height: 2 };
    let gradient = Preset::Rainbow.gradient();
    assert_eq!(generate_image(&spec, 10, &gradient, &|_, _| EscapeResult::Bounded), None);
    let spec = ImageSpec { width: usize::MAX / 4 + 1, height: 1 };
    assert_eq!(generate_image(&spec, 10, &gradient, &|_, _| EscapeResult::Bounded), None);
}

#[test]
fn generate_image_of_empty_grid_is_empty() {
    let gradient = Preset::Rainbow.gradient();
    for spec in [ImageSpec { width: 0, height: 4 }, ImageSpec { width: 4, height: 0 }] {
        let image = generate_image(&spec, 10, &gradient, &|_, _| EscapeResult::Escaped(1));
        assert_eq!(image, Some(Vec::new()));
    }
}

#[test]
fn bands_computed_and_rendered_apart_join_to_the_image() {
    let spec = ImageSpec { width: 7, height: 6 };
    let gradient = Preset::Rainbow.gradient();
    let sampler = |x, y| escape_at(&spec, 50, 1.5, x, y);
    let whole = generate_image(&spec, 50, &gradient, &sampler).expect("addressable");
    for cuts in [vec![0, 6], vec![0, 2, 6], vec![0, 1, 2, 3, 4, 5, 6], vec![0, 0, 5, 5, 6]] {
        let mut joined = Vec::new();
        for band in cuts.windows(2) {
            let rows = ImageSpec { width: spec.width, height: band[1] - band[0] };
            let part = compute_rows(&spec, &sampler, band[0], band[1]);
            assert!(rows.admits(part.len()));
            joined.extend(render(&rows, 50, &part, &gradient));
        }
        assert_eq!(joined, whole);
    }
}
