//! Packing a field of escape results into an RGBA pixel buffer.
//!
//! A field holds one escape result per pixel in row-major order. The buffer
//! holds four bytes per pixel in the same order.

use crate::escape::EscapeResult;
use crate::field::{compute_field, deterministic, lemma_field_unique, samples};
use crate::gradient::{colorize, shade, Gradient};
use crate::grid::{lemma_row_bounds, rows, splits_rows, ImageSpec};
use vstd::prelude::*;

verus! {

/// The bytes of a field under a gradient: pixel after pixel, the four bytes
/// of each pixel's colour.
pub open spec fn frame(field: Seq<EscapeResult>, max_iter: u32, gradient: Gradient) -> Seq<u8> {
    Seq::new(4 * field.len(), |i: int| shade(field[i / 4], max_iter, gradient)[i % 4])
}

/// The frame of a field extended by one result is the frame of the field
/// followed by the colour of that result.
pub proof fn lemma_frame_push(
    field: Seq<EscapeResult>,
    result: EscapeResult,
    max_iter: u32,
    gradient: Gradient,
)
    ensures
        frame(field.push(result), max_iter, gradient) == frame(field, max_iter, gradient) + shade(
            result,
            max_iter,
            gradient,
        ),
{
    let whole = frame(field.push(result), max_iter, gradient);
    let parts = frame(field, max_iter, gradient) + shade(result, max_iter, gradient);
    assert(whole.len() == parts.len());
    assert forall|i: int| 0 <= i < whole.len() implies whole[i] == parts[i] by {
        if i < 4 * field.len() {
            assert(field.push(result)[i / 4] == field[i / 4]);
        } else {
            assert(i / 4 == field.len());
            assert(i % 4 == i - 4 * field.len());
        }
    }
    assert(whole =~= parts);
}

/// Renders the rows `row_start` up to, not including, `row_end` of a field.
pub fn render_rows(
    spec: &ImageSpec,
    max_iter: u32,
    field: &[EscapeResult],
    gradient: &Gradient,
    row_start: usize,
    row_end: usize,
) -> (pixels: Vec<u8>)
    requires
        field@.len() == spec.pixel_count(),
        spec.addressable(),
        row_start <= row_end <= spec.height,
    ensures
        pixels@ == frame(rows(*spec, field@, row_start as int, row_end as int), max_iter, *gradient),
        pixels@.len() == 4 * ((row_end - row_start) * spec.width),
{
    proof {
        lemma_row_bounds(*spec, row_start as int, row_end as int);
    }
    let first: usize = row_start * spec.width;
    let end: usize = row_end * spec.width;
    let mut pixels: Vec<u8> = Vec::new();
    let mut i: usize = first;
    while i < end
        invariant
            first <= i <= end <= field@.len(),
            4 * field@.len() <= usize::MAX,
            pixels@ == frame(field@.subrange(first as int, i as int), max_iter, *gradient),
        decreases end - i,
    {
        let color = colorize(field[i], max_iter, gradient);
        proof {
            lemma_frame_push(
                field@.subrange(first as int, i as int),
                field@[i as int],
                max_iter,
                *gradient,
            );
            assert(field@.subrange(first as int, i as int).push(field@[i as int])
                =~= field@.subrange(first as int, i + 1));
        }
        pixels.push(color[0]);
        pixels.push(color[1]);
        pixels.push(color[2]);
        pixels.push(color[3]);
        assert(pixels@ =~= frame(field@.subrange(first as int, i as int), max_iter, *gradient)
            + color@);
        i += 1;
    }
    pixels
}

/// Renders a whole field: the pixel buffer of the image, four bytes per
/// pixel, row after row.
pub fn render(spec: &ImageSpec, max_iter: u32, field: &[EscapeResult], gradient: &Gradient) -> (pixels:
    Vec<u8>)
    requires
        field@.len() == spec.pixel_count(),
        spec.addressable(),
    ensures
        pixels@ == frame(field@, max_iter, *gradient),
        pixels@.len() == 4 * spec.pixel_count(),
{
    proof {
        lemma_row_bounds(*spec, 0, spec.height as int);
        assert(rows(*spec, field@, 0, spec.height as int) =~= field@) by {
            assert(spec.height * spec.width == spec.width * spec.height) by (nonlinear_arith);
        }
    }
    render_rows(spec, max_iter, field, gradient, 0, spec.height)
}

/// Computes the escape field of the grid with `escape_at` and renders it
/// under `gradient`, unless the buffer would be too large to address.
pub fn generate_image<F: Fn(usize, usize) -> EscapeResult>(
    spec: &ImageSpec,
    max_iter: u32,
    gradient: &Gradient,
    escape_at: &F,
) -> (image: Option<Vec<u8>>)
    requires
        forall|x: usize, y: usize|
            x < spec.width && y < spec.height ==> call_requires(*escape_at, (x, y)),
    ensures
        image is None <==> !spec.addressable(),
        image matches Some(pixels) ==> exists|field: Seq<EscapeResult>|
            samples(*spec, *escape_at, field) && pixels@ == #[trigger] frame(
                field,
                max_iter,
                *gradient,
            ),
{
    if !spec.admits_buffer() {
        return None;
    }
    let field = compute_field(spec, escape_at);
    let pixels = render(spec, max_iter, field.as_slice(), gradient);
    Some(pixels)
}

/// Reads the colour of the pixel at column `x` of row `y` out of a buffer.
pub fn pixel_at(spec: &ImageSpec, pixels: &[u8], x: usize, y: usize) -> (color: [u8; 4])
    requires
        pixels@.len() == 4 * spec.pixel_count(),
        x < spec.width,
        y < spec.height,
    ensures
        color@ == pixels@.subrange(
            4 * spec.index_of(x as int, y as int),
            4 * spec.index_of(x as int, y as int) + 4,
        ),
{
    let len = pixels.len();
    assert(4 * spec.pixel_count() == len);
    let at = 4 * spec.pixel_index(x, y);
    let color = [pixels[at], pixels[at + 1], pixels[at + 2], pixels[at + 3]];
    assert(color@ =~= pixels@.subrange(at as int, at + 4));
    color
}

/// The bytes of pixel `i` of a frame are the colour of result `i` of the
/// field.
pub proof fn lemma_frame_pixel(field: Seq<EscapeResult>, max_iter: u32, gradient: Gradient, i: int)
    requires
        0 <= i < field.len(),
    ensures
        frame(field, max_iter, gradient).subrange(4 * i, 4 * i + 4) == shade(
            field[i],
            max_iter,
            gradient,
        ),
{
    let bytes = frame(field, max_iter, gradient).subrange(4 * i, 4 * i + 4);
    let color = shade(field[i], max_iter, gradient);
    assert forall|c: int| 0 <= c < 4 implies bytes[c] == color[c] by {
        assert((4 * i + c) / 4 == i);
        assert((4 * i + c) % 4 == c);
    }
    assert(bytes =~= color);
}

/// A frame is the only buffer that holds, for every result of the field, that
/// result's colour at that pixel's place.
pub proof fn lemma_frame_unique(
    pixels: Seq<u8>,
    field: Seq<EscapeResult>,
    max_iter: u32,
    gradient: Gradient,
)
    requires
        pixels.len() == 4 * field.len(),
        forall|i: int|
            0 <= i < field.len() ==> #[trigger] pixels.subrange(4 * i, 4 * i + 4) == shade(
                field[i],
                max_iter,
                gradient,
            ),
    ensures
        pixels == frame(field, max_iter, gradient),
{
    let whole = frame(field, max_iter, gradient);
    assert forall|k: int| 0 <= k < pixels.len() implies pixels[k] == whole[k] by {
        let i = k / 4;
        let c = k % 4;
        assert(pixels.subrange(4 * i, 4 * i + 4)[c] == pixels[k]);
    }
    assert(pixels =~= whole);
}

/// Every fourth byte of a frame, the alpha channel, is 255.
pub proof fn lemma_frame_opaque(field: Seq<EscapeResult>, max_iter: u32, gradient: Gradient, i: int)
    requires
        0 <= i < field.len(),
    ensures
        frame(field, max_iter, gradient)[4 * i + 3] == 255,
{
    assert((4 * i + 3) / 4 == i);
    assert((4 * i + 3) % 4 == 3);
}

/// Rendering is a function of its inputs: two buffers rendered from the same
/// field, budget and gradient are byte for byte the same.
pub proof fn lemma_render_repeatable(
    first: Seq<u8>,
    second: Seq<u8>,
    field: Seq<EscapeResult>,
    max_iter: u32,
    gradient: Gradient,
)
    requires
        first == frame(field, max_iter, gradient),
        second == frame(field, max_iter, gradient),
    ensures
        first == second,
{
}

/// Where each pixel has one result only, the grid has one image only:
/// generating it again gives the same bytes.
pub proof fn lemma_generate_repeatable<F: Fn(usize, usize) -> EscapeResult>(
    spec: ImageSpec,
    escape_at: F,
    max_iter: u32,
    gradient: Gradient,
    first: Seq<u8>,
    second: Seq<u8>,
)
    requires
        deterministic(spec, escape_at),
        exists|field: Seq<EscapeResult>|
            samples(spec, escape_at, field) && first == #[trigger] frame(field, max_iter, gradient),
        exists|field: Seq<EscapeResult>|
            samples(spec, escape_at, field) && second == #[trigger] frame(field, max_iter, gradient),
    ensures
        first == second,
{
    let first_field = choose|field: Seq<EscapeResult>|
        samples(spec, escape_at, field) && first == #[trigger] frame(field, max_iter, gradient);
    let second_field = choose|field: Seq<EscapeResult>|
        samples(spec, escape_at, field) && second == #[trigger] frame(field, max_iter, gradient);
    lemma_field_unique(spec, escape_at, first_field, second_field);
}

/// The frame of two fields laid end to end is the two frames laid end to end.
pub proof fn lemma_frame_concat(
    head: Seq<EscapeResult>,
    tail: Seq<EscapeResult>,
    max_iter: u32,
    gradient: Gradient,
)
    ensures
        frame(head + tail, max_iter, gradient) == frame(head, max_iter, gradient) + frame(
            tail,
            max_iter,
            gradient,
        ),
{
    let whole = frame(head + tail, max_iter, gradient);
    let parts = frame(head, max_iter, gradient) + frame(tail, max_iter, gradient);
    assert forall|k: int| 0 <= k < whole.len() implies whole[k] == parts[k] by {
        if k >= 4 * head.len() {
            assert((k - 4 * head.len()) / 4 == k / 4 - head.len());
            assert((k - 4 * head.len()) % 4 == k % 4);
        }
    }
    assert(whole =~= parts);
}

/// Two adjacent row ranges rendered apart and joined give the rendering of
/// the range they cover together.
pub proof fn lemma_rows_join(
    spec: ImageSpec,
    field: Seq<EscapeResult>,
    max_iter: u32,
    gradient: Gradient,
    row_start: int,
    row_mid: int,
    row_end: int,
)
    requires
        field.len() == spec.pixel_count(),
        0 <= row_start <= row_mid <= row_end <= spec.height,
    ensures
        frame(rows(spec, field, row_start, row_mid), max_iter, gradient) + frame(
            rows(spec, field, row_mid, row_end),
            max_iter,
            gradient,
        ) == frame(rows(spec, field, row_start, row_end), max_iter, gradient),
{
    lemma_row_bounds(spec, row_start, row_mid);
    lemma_row_bounds(spec, row_mid, row_end);
    assert(rows(spec, field, row_start, row_mid) + rows(spec, field, row_mid, row_end) =~= rows(
        spec,
        field,
        row_start,
        row_end,
    ));
    lemma_frame_concat(
        rows(spec, field, row_start, row_mid),
        rows(spec, field, row_mid, row_end),
        max_iter,
        gradient,
    );
}

/// The renderings of the row ranges between consecutive cut points, joined
/// in order.
pub open spec fn banded_frame(
    spec: ImageSpec,
    field: Seq<EscapeResult>,
    max_iter: u32,
    gradient: Gradient,
    cuts: Seq<int>,
) -> Seq<u8>
    decreases cuts.len(),
{
    if cuts.len() < 2 {
        Seq::empty()
    } else {
        banded_frame(spec, field, max_iter, gradient, cuts.drop_last()) + frame(
            rows(spec, field, cuts[cuts.len() - 2], cuts.last()),
            max_iter,
            gradient,
        )
    }
}

/// However the rows of the grid are split into consecutive ranges, rendering
/// each range on its own and joining the results in order gives the
/// rendering of the whole field.
pub proof fn lemma_banded_frame_is_frame(
    spec: ImageSpec,
    field: Seq<EscapeResult>,
    max_iter: u32,
    gradient: Gradient,
    cuts: Seq<int>,
)
    requires
        field.len() == spec.pixel_count(),
        splits_rows(spec, cuts),
    ensures
        banded_frame(spec, field, max_iter, gradient, cuts) == frame(field, max_iter, gradient),
{
    lemma_bands_up_to(spec, field, max_iter, gradient, cuts);
    lemma_row_bounds(spec, 0, spec.height as int);
    assert(rows(spec, field, 0, spec.height as int) =~= field) by {
        assert(spec.height * spec.width == spec.width * spec.height) by (nonlinear_arith);
    }
}

/// Bands over nondecreasing cut points that start at row 0 render the rows
/// up to the last cut point.
proof fn lemma_bands_up_to(
    spec: ImageSpec,
    field: Seq<EscapeResult>,
    max_iter: u32,
    gradient: Gradient,
    cuts: Seq<int>,
)
    requires
        field.len() == spec.pixel_count(),
        cuts.len() >= 1,
        cuts[0] == 0,
        cuts.last() <= spec.height,
        forall|k: int| 0 <= k < cuts.len() - 1 ==> cuts[k] <= #[trigger] cuts[k + 1],
    ensures
        0 <= cuts.last(),
        banded_frame(spec, field, max_iter, gradient, cuts) == frame(
            rows(spec, field, 0, cuts.last()),
            max_iter,
            gradient,
        ),
    decreases cuts.len(),
{
    if cuts.len() == 1 {
        assert(rows(spec, field, 0, 0) =~= Seq::<EscapeResult>::empty());
        assert(frame(Seq::<EscapeResult>::empty(), max_iter, gradient) =~= Seq::<u8>::empty());
    } else {
        let earlier = cuts.drop_last();
        assert(earlier.last() == cuts[cuts.len() - 2]);
        assert(cuts[cuts.len() - 2] <= cuts[cuts.len() - 2 + 1]);
        assert forall|k: int| 0 <= k < earlier.len() - 1 implies earlier[k] <= #[trigger] earlier[k
            + 1] by {
            assert(cuts[k] <= cuts[k + 1]);
        }
        lemma_bands_up_to(spec, field, max_iter, gradient, earlier);
        lemma_rows_join(spec, field, max_iter, gradient, 0, earlier.last(), cuts.last());
    }
}

} // verus!
