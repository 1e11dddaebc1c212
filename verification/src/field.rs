//! The escape field of a pixel grid: one escape result per pixel, row after
//! row.
//!
//! How a pixel's result is found is the caller's business: it hands over a
//! function from pixel coordinates to an escape result. This module owns the
//! traversal of the grid and the layout of the field.

use crate::escape::EscapeResult;
use crate::grid::{lemma_index_covers, lemma_rows_in_order, rows, splits_rows, ImageSpec};
use vstd::prelude::*;

verus! {

/// Whether `field` holds the rows `row_start` up to, not including,
/// `row_end`: for each of their pixels, in row-major order, a result that
/// `escape_at` gives for that pixel.
pub open spec fn samples_rows<F: Fn(usize, usize) -> EscapeResult>(
    spec: ImageSpec,
    escape_at: F,
    field: Seq<EscapeResult>,
    row_start: int,
    row_end: int,
) -> bool {
    &&& field.len() == (row_end - row_start) * spec.width
    &&& forall|x: usize, y: usize|
        x < spec.width && row_start <= y < row_end ==> call_ensures(
            escape_at,
            (x, y),
            #[trigger] field[spec.index_of(x as int, y - row_start)],
        )
}

/// Whether `field` holds, for each pixel of the grid, in row-major order, a
/// result that `escape_at` gives for that pixel.
pub open spec fn samples<F: Fn(usize, usize) -> EscapeResult>(
    spec: ImageSpec,
    escape_at: F,
    field: Seq<EscapeResult>,
) -> bool {
    samples_rows(spec, escape_at, field, 0, spec.height as int)
}

/// Whether `bands` hold the row ranges between consecutive cut points, each
/// computed on its own.
pub open spec fn samples_bands<F: Fn(usize, usize) -> EscapeResult>(
    spec: ImageSpec,
    escape_at: F,
    cuts: Seq<int>,
    bands: Seq<Seq<EscapeResult>>,
) -> bool {
    &&& bands.len() == cuts.len() - 1
    &&& forall|k: int|
        0 <= k < bands.len() ==> samples_rows(spec, escape_at, #[trigger] bands[k], cuts[k], cuts[k + 1])
}

/// Whether `escape_at` gives each pixel of the grid one result only.
pub open spec fn deterministic<F: Fn(usize, usize) -> EscapeResult>(
    spec: ImageSpec,
    escape_at: F,
) -> bool {
    forall|x: usize, y: usize, first: EscapeResult, second: EscapeResult|
        x < spec.width && y < spec.height && #[trigger] call_ensures(escape_at, (x, y), first)
            && #[trigger] call_ensures(escape_at, (x, y), second) ==> first == second
}

/// Computes the escape results of the rows `row_start` up to, not including,
/// `row_end`, by asking `escape_at` once for each of their pixels.
pub fn compute_rows<F: Fn(usize, usize) -> EscapeResult>(
    spec: &ImageSpec,
    escape_at: &F,
    row_start: usize,
    row_end: usize,
) -> (field: Vec<EscapeResult>)
    requires
        row_start <= row_end <= spec.height,
        forall|x: usize, y: usize|
            x < spec.width && row_start <= y < row_end ==> call_requires(*escape_at, (x, y)),
    ensures
        samples_rows(*spec, *escape_at, field@, row_start as int, row_end as int),
{
    let mut field: Vec<EscapeResult> = Vec::new();
    let mut y: usize = row_start;
    while y < row_end
        invariant
            row_start <= y <= row_end <= spec.height,
            forall|x: usize, y: usize|
                x < spec.width && row_start <= y < row_end ==> call_requires(*escape_at, (x, y)),
            samples_rows(*spec, *escape_at, field@, row_start as int, y as int),
        decreases row_end - y,
    {
        let mut x: usize = 0;
        while x < spec.width
            invariant
                x <= spec.width,
                row_start <= y < row_end,
                forall|x: usize, y: usize|
                    x < spec.width && row_start <= y < row_end ==> call_requires(
                        *escape_at,
                        (x, y),
                    ),
                field@.len() == (y - row_start) * spec.width + x,
                forall|px: usize, py: usize|
                    px < spec.width && row_start <= py < y ==> call_ensures(
                        *escape_at,
                        (px, py),
                        #[trigger] field@[spec.index_of(px as int, py - row_start)],
                    ),
                forall|px: usize|
                    px < x ==> call_ensures(
                        *escape_at,
                        (px, y),
                        #[trigger] field@[spec.index_of(px as int, y - row_start)],
                    ),
            decreases spec.width - x,
        {
            let result = escape_at(x, y);
            let ghost before = field@;
            field.push(result);
            proof {
                assert forall|px: usize, py: usize|
                    px < spec.width && row_start <= py < y implies call_ensures(
                    *escape_at,
                    (px, py),
                    #[trigger] field@[spec.index_of(px as int, py - row_start)],
                ) by {
                    lemma_rows_in_order(
                        spec.width as int,
                        px as int,
                        py - row_start,
                        x as int,
                        y - row_start,
                    );
                    assert(field@[spec.index_of(px as int, py - row_start)]
                        == before[spec.index_of(px as int, py - row_start)]);
                }
                assert forall|px: usize| px < x + 1 implies call_ensures(
                    *escape_at,
                    (px, y),
                    #[trigger] field@[spec.index_of(px as int, y - row_start)],
                ) by {
                    if px < x {
                        assert(field@[spec.index_of(px as int, y - row_start)]
                            == before[spec.index_of(px as int, y - row_start)]);
                    }
                }
            }
            x += 1;
        }
        proof {
            assert((y + 1 - row_start) * spec.width == (y - row_start) * spec.width + spec.width)
                by (nonlinear_arith);
        }
        y += 1;
    }
    field
}

/// Computes the escape field of the grid by asking `escape_at` once for each
/// pixel. A grid without pixels has an empty field.
pub fn compute_field<F: Fn(usize, usize) -> EscapeResult>(spec: &ImageSpec, escape_at: &F) -> (field:
    Vec<EscapeResult>)
    requires
        forall|x: usize, y: usize|
            x < spec.width && y < spec.height ==> call_requires(*escape_at, (x, y)),
    ensures
        samples(*spec, *escape_at, field@),
        field@.len() == spec.pixel_count(),
{
    let field = compute_rows(spec, escape_at, 0, spec.height);
    proof {
        assert(spec.height * spec.width == spec.width * spec.height) by (nonlinear_arith);
    }
    field
}

/// Two adjacent row ranges computed apart and joined hold the range that
/// they cover together.
pub proof fn lemma_samples_rows_join<F: Fn(usize, usize) -> EscapeResult>(
    spec: ImageSpec,
    escape_at: F,
    upper: Seq<EscapeResult>,
    lower: Seq<EscapeResult>,
    row_start: int,
    row_mid: int,
    row_end: int,
)
    requires
        0 <= row_start <= row_mid <= row_end,
        samples_rows(spec, escape_at, upper, row_start, row_mid),
        samples_rows(spec, escape_at, lower, row_mid, row_end),
    ensures
        samples_rows(spec, escape_at, upper + lower, row_start, row_end),
{
    let joined = upper + lower;
    let w = spec.width as int;
    assert((row_end - row_start) * w == (row_mid - row_start) * w + (row_end - row_mid) * w)
        by (nonlinear_arith);
    assert forall|x: usize, y: usize| x < spec.width && row_start <= y < row_end implies call_ensures(
        escape_at,
        (x, y),
        #[trigger] joined[spec.index_of(x as int, y - row_start)],
    ) by {
        if y < row_mid {
            lemma_rows_in_order(w, x as int, y - row_start, 0, row_mid - row_start);
            assert(joined[spec.index_of(x as int, y - row_start)] == upper[spec.index_of(
                x as int,
                y - row_start,
            )]);
        } else {
            assert((y - row_start) * w == (row_mid - row_start) * w + (y - row_mid) * w)
                by (nonlinear_arith);
            assert(0 <= (y - row_mid) * w) by (nonlinear_arith)
                requires
                    0 <= y - row_mid,
                    0 <= w,
            ;
            lemma_rows_in_order(w, x as int, y - row_mid, 0, row_end - row_mid);
            assert(joined[spec.index_of(x as int, y - row_start)] == lower[spec.index_of(
                x as int,
                y - row_mid,
            )]);
        }
    }
}

/// Where each pixel has one result only, a row range computed on its own
/// holds what the field of the whole grid holds in those rows.
pub proof fn lemma_band_is_rows_of_field<F: Fn(usize, usize) -> EscapeResult>(
    spec: ImageSpec,
    escape_at: F,
    field: Seq<EscapeResult>,
    band: Seq<EscapeResult>,
    row_start: int,
    row_end: int,
)
    requires
        deterministic(spec, escape_at),
        samples(spec, escape_at, field),
        0 <= row_start <= row_end <= spec.height,
        samples_rows(spec, escape_at, band, row_start, row_end),
    ensures
        band == rows(spec, field, row_start, row_end),
{
    let w = spec.width as int;
    let part = rows(spec, field, row_start, row_end);
    assert(0 <= row_start * w <= row_end * w <= spec.height * w && row_end * w - row_start * w == (
    row_end - row_start) * w) by (nonlinear_arith)
        requires
            0 <= row_start <= row_end <= spec.height,
            0 <= w,
    ;
    assert(band.len() == part.len());
    assert forall|i: int| 0 <= i < band.len() implies band[i] == part[i] by {
        let grid = ImageSpec { width: spec.width, height: (row_end - row_start) as usize };
        assert(grid.width * grid.height == (row_end - row_start) * w) by (nonlinear_arith)
            requires
                grid.width == w,
                grid.height == row_end - row_start,
        ;
        lemma_index_covers(grid, i);
        let x = (i % w) as usize;
        let y = (row_start + i / w) as usize;
        assert(band[i] == band[spec.index_of(x as int, y - row_start)]);
        assert((row_start + i / w) * w == row_start * w + (i / w) * w) by (nonlinear_arith);
        assert(part[i] == field[spec.index_of(x as int, y - 0)]);
        assert(call_ensures(escape_at, (x, y), band[spec.index_of(x as int, y - row_start)]));
        assert(call_ensures(escape_at, (x, y), field[spec.index_of(x as int, y - 0)]));
    }
    assert(band =~= part);
}

/// Where each pixel has one result only, the grid has one field only:
/// computing it again gives the same field.
pub proof fn lemma_field_unique<F: Fn(usize, usize) -> EscapeResult>(
    spec: ImageSpec,
    escape_at: F,
    first: Seq<EscapeResult>,
    second: Seq<EscapeResult>,
)
    requires
        deterministic(spec, escape_at),
        samples(spec, escape_at, first),
        samples(spec, escape_at, second),
    ensures
        first == second,
{
    lemma_band_is_rows_of_field(spec, escape_at, first, second, 0, spec.height as int);
    assert(rows(spec, first, 0, spec.height as int) =~= first);
}

/// However the rows of the grid are split into consecutive ranges, the
/// ranges computed each on its own and joined in order hold a field of the
/// grid.
pub proof fn lemma_bands_join_to_a_field<F: Fn(usize, usize) -> EscapeResult>(
    spec: ImageSpec,
    escape_at: F,
    cuts: Seq<int>,
    bands: Seq<Seq<EscapeResult>>,
)
    requires
        splits_rows(spec, cuts),
        samples_bands(spec, escape_at, cuts, bands),
    ensures
        samples(spec, escape_at, bands.flatten()),
{
    lemma_bands_up_to(spec, escape_at, cuts, bands);
}

/// Where each pixel has one result only, the row ranges of any split,
/// computed each on its own and joined in order, are the field that one pass
/// over the whole grid computes.
pub proof fn lemma_bands_join_to_the_field<F: Fn(usize, usize) -> EscapeResult>(
    spec: ImageSpec,
    escape_at: F,
    cuts: Seq<int>,
    bands: Seq<Seq<EscapeResult>>,
    field: Seq<EscapeResult>,
)
    requires
        deterministic(spec, escape_at),
        samples(spec, escape_at, field),
        splits_rows(spec, cuts),
        samples_bands(spec, escape_at, cuts, bands),
    ensures
        bands.flatten() == field,
{
    lemma_bands_join_to_a_field(spec, escape_at, cuts, bands);
    lemma_field_unique(spec, escape_at, bands.flatten(), field);
}

/// Bands over nondecreasing cut points that start at row 0 hold the rows up
/// to the last cut point.
proof fn lemma_bands_up_to<F: Fn(usize, usize) -> EscapeResult>(
    spec: ImageSpec,
    escape_at: F,
    cuts: Seq<int>,
    bands: Seq<Seq<EscapeResult>>,
)
    requires
        cuts.len() >= 1,
        cuts[0] == 0,
        forall|k: int| 0 <= k < cuts.len() - 1 ==> cuts[k] <= #[trigger] cuts[k + 1],
        samples_bands(spec, escape_at, cuts, bands),
    ensures
        0 <= cuts.last(),
        samples_rows(spec, escape_at, bands.flatten(), 0, cuts.last()),
    decreases cuts.len(),
{
    if cuts.len() == 1 {
        assert(bands.flatten() =~= Seq::<EscapeResult>::empty());
        assert((cuts.last() - 0) * spec.width == 0) by (nonlinear_arith)
            requires
                cuts.last() == 0,
        ;
    } else {
        let earlier_cuts = cuts.drop_last();
        let earlier_bands = bands.drop_last();
        assert(cuts[cuts.len() - 2] <= cuts[cuts.len() - 2 + 1]);
        assert forall|k: int| 0 <= k < earlier_cuts.len() - 1 implies earlier_cuts[k]
            <= #[trigger] earlier_cuts[k + 1] by {
            assert(cuts[k] <= cuts[k + 1]);
        }
        assert forall|k: int| 0 <= k < earlier_bands.len() implies samples_rows(
            spec,
            escape_at,
            #[trigger] earlier_bands[k],
            earlier_cuts[k],
            earlier_cuts[k + 1],
        ) by {
            assert(samples_rows(spec, escape_at, bands[k], cuts[k], cuts[k + 1]));
        }
        lemma_bands_up_to(spec, escape_at, earlier_cuts, earlier_bands);
        assert(samples_rows(spec, escape_at, bands.last(), cuts[cuts.len() - 2], cuts.last()));
        lemma_samples_rows_join(
            spec,
            escape_at,
            earlier_bands.flatten(),
            bands.last(),
            0,
            earlier_cuts.last(),
            cuts.last(),
        );
        earlier_bands.lemma_flatten_push(bands.last());
        assert(earlier_bands.push(bands.last()) =~= bands);
    }
}

} // verus!
