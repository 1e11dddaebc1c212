//! Two-colour gradients and the linear blend between their ends.

use crate::escape::EscapeResult;
use vstd::prelude::*;

verus! {

/// A two-point linear colour ramp over RGB triples.
#[derive(Clone, Copy, Debug, PartialEq, Eq)]
pub struct Gradient {
    pub start_color: [u8; 3],
    pub end_color: [u8; 3],
}

/// The gradients that are offered by name, in the order in which they are
/// offered.
#[derive(Clone, Copy, Debug, PartialEq, Eq, Structural)]
pub enum Preset {
    Rainbow,
    Purple,
    Green,
}

impl Preset {
    /// The first colour of the preset's ramp.
    pub open spec fn start(self) -> Seq<u8> {
        match self {
            Preset::Rainbow => seq![255u8, 0u8, 0u8],
            Preset::Purple => seq![128u8, 0u8, 128u8],
            Preset::Green => seq![0u8, 128u8, 0u8],
        }
    }

    /// The last colour of the preset's ramp.
    pub open spec fn end(self) -> Seq<u8> {
        match self {
            Preset::Rainbow => seq![0u8, 0u8, 255u8],
            Preset::Purple => seq![255u8, 0u8, 255u8],
            Preset::Green => seq![0u8, 255u8, 0u8],
        }
    }

    /// The preset's gradient.
    pub fn gradient(self) -> (gradient: Gradient)
        ensures
            gradient.start_color@ == self.start(),
            gradient.end_color@ == self.end(),
    {
        let gradient = match self {
            Preset::Rainbow => Gradient { start_color: [255, 0, 0], end_color: [0, 0, 255] },
            Preset::Purple => Gradient { start_color: [128, 0, 128], end_color: [255, 0, 255] },
            Preset::Green => Gradient { start_color: [0, 128, 0], end_color: [0, 255, 0] },
        };
        assert(gradient.start_color@ =~= self.start());
        assert(gradient.end_color@ =~= self.end());
        gradient
    }

    /// The name under which the preset is offered.
    pub fn label(self) -> (name: &'static str)
        ensures
            name@ == self.name(),
    {
        match self {
            Preset::Rainbow => "Rainbow",
            Preset::Purple => "Purple",
            Preset::Green => "Green",
        }
    }

    /// The name under which the preset is offered.
    pub open spec fn name(self) -> Seq<char> {
        match self {
            Preset::Rainbow => "Rainbow"@,
            Preset::Purple => "Purple"@,
            Preset::Green => "Green"@,
        }
    }

    /// All presets, in the order in which they are offered.
    pub fn catalog() -> (presets: [Preset; 3])
        ensures
            presets@ == seq![Preset::Rainbow, Preset::Purple, Preset::Green],
    {
        let presets = [Preset::Rainbow, Preset::Purple, Preset::Green];
        assert(presets@ =~= seq![Preset::Rainbow, Preset::Purple, Preset::Green]);
        presets
    }
}

/// The blend of one channel at step `n` of `max_iter`: the value
/// `start * (1 - n / max_iter) + end * (n / max_iter)`, computed exactly and
/// truncated toward zero.
pub open spec fn blend(start: u8, end: u8, n: nat, max_iter: nat) -> int
    recommends
        n < max_iter,
{
    (start * (max_iter - n) + end * n) / (max_iter as int)
}

/// The weighted sum under `blend` never exceeds the larger weight times 255.
proof fn lemma_blend_in_byte(start: u8, end: u8, n: nat, max_iter: nat)
    requires
        n < max_iter,
    ensures
        0 <= start * (max_iter - n) + end * n <= 255 * max_iter,
        0 <= blend(start, end, n, max_iter) <= 255,
{
    let num = start * (max_iter - n) + end * n;
    assert(0 <= start * (max_iter - n) <= 255 * (max_iter - n)) by (nonlinear_arith)
        requires
            0 <= start <= 255,
            n < max_iter,
    ;
    assert(0 <= end * n <= 255 * n) by (nonlinear_arith)
        requires
            0 <= end <= 255,
            0 <= n,
    ;
    assert(0 <= num / (max_iter as int) <= 255) by (nonlinear_arith)
        requires
            0 <= num <= 255 * max_iter,
            max_iter > 0,
    ;
}

/// At step 0 the blend is exactly the start value.
pub proof fn lemma_blend_starts_at_start(start: u8, end: u8, max_iter: nat)
    requires
        max_iter > 0,
    ensures
        blend(start, end, 0, max_iter) == start,
{
    assert((start * max_iter) / (max_iter as int) == start) by (nonlinear_arith)
        requires
            max_iter > 0,
    ;
}

/// The blend never leaves the interval between the two ends.
pub proof fn lemma_blend_between(start: u8, end: u8, n: nat, max_iter: nat)
    requires
        n < max_iter,
    ensures
        start <= end ==> start <= blend(start, end, n, max_iter) <= end,
        end <= start ==> end <= blend(start, end, n, max_iter) <= start,
{
    let num = start * (max_iter - n) + end * n;
    let lo: int = if start <= end { start as int } else { end as int };
    let hi: int = if start <= end { end as int } else { start as int };
    assert(lo * max_iter <= num <= hi * max_iter) by (nonlinear_arith)
        requires
            num == start * (max_iter - n) + end * n,
            lo <= start <= hi,
            lo <= end <= hi,
            n < max_iter,
    ;
    assert(lo <= num / (max_iter as int) <= hi) by (nonlinear_arith)
        requires
            lo * max_iter <= num <= hi * max_iter,
            max_iter > 0,
    ;
}

/// At the last step before the budget the blend is within
/// `|start - end| / max_iter`, rounded up, of the end value: the larger the
/// budget, the closer the last escaping colour comes to the gradient's end.
pub proof fn lemma_blend_ends_near_end(start: u8, end: u8, max_iter: nat)
    requires
        max_iter > 0,
    ensures
        ({
            let last = blend(start, end, (max_iter - 1) as nat, max_iter);
            let gap = if last >= end { last - end } else { end - last };
            let span = if start >= end { start - end } else { end - start };
            gap * max_iter < span + max_iter
        }),
{
    let num = start * (max_iter - (max_iter - 1)) + end * (max_iter - 1);
    let last = num / (max_iter as int);
    assert(num == start + end * max_iter - end) by (nonlinear_arith)
        requires
            num == start * (max_iter - (max_iter - 1)) + end * (max_iter - 1),
    ;
    assert(last * max_iter <= num < last * max_iter + max_iter) by (nonlinear_arith)
        requires
            last == num / (max_iter as int),
            max_iter > 0,
    ;
    assert((last - end) * max_iter == last * max_iter - end * max_iter) by (nonlinear_arith);
    assert((end - last) * max_iter == end * max_iter - last * max_iter) by (nonlinear_arith);
    lemma_blend_between(start, end, (max_iter - 1) as nat, max_iter);
}

/// Along the ramp the blend moves from the start value toward the end value
/// and never turns back.
pub proof fn lemma_blend_monotonic(start: u8, end: u8, n1: nat, n2: nat, max_iter: nat)
    requires
        n1 <= n2 < max_iter,
    ensures
        start <= end ==> blend(start, end, n1, max_iter) <= blend(start, end, n2, max_iter),
        end <= start ==> blend(start, end, n2, max_iter) <= blend(start, end, n1, max_iter),
{
    let num1 = start * (max_iter - n1) + end * n1;
    let num2 = start * (max_iter - n2) + end * n2;
    assert(num2 - num1 == (end - start) * (n2 - n1)) by (nonlinear_arith)
        requires
            num1 == start * (max_iter - n1) + end * n1,
            num2 == start * (max_iter - n2) + end * n2,
    ;
    if start <= end {
        assert(num1 <= num2) by (nonlinear_arith)
            requires
                num2 - num1 == (end - start) * (n2 - n1),
                start <= end,
                n1 <= n2,
        ;
        vstd::arithmetic::div_mod::lemma_div_is_ordered(num1, num2, max_iter as int);
    }
    if end <= start {
        assert(num2 <= num1) by (nonlinear_arith)
            requires
                num2 - num1 == (end - start) * (n2 - n1),
                end <= start,
                n1 <= n2,
        ;
        vstd::arithmetic::div_mod::lemma_div_is_ordered(num2, num1, max_iter as int);
    }
}

/// Blends one channel between `start` and `end` at step `n` of `max_iter`.
pub fn interpolate(start: u8, end: u8, n: u32, max_iter: u32) -> (c: u8)
    requires
        n < max_iter,
    ensures
        c == blend(start, end, n as nat, max_iter as nat),
{
    proof {
        lemma_blend_in_byte(start, end, n as nat, max_iter as nat);
    }
    let toward_start: u64 = start as u64 * (max_iter - n) as u64;
    let toward_end: u64 = end as u64 * n as u64;
    ((toward_start + toward_end) / max_iter as u64) as u8
}

/// The colour of one escape result under a gradient, as the four bytes
/// red, green, blue, alpha.
///
/// An escape at count `n` below the budget gets the blend of the gradient's
/// ends at step `n`; every other result is opaque black.
pub open spec fn shade(result: EscapeResult, max_iter: u32, gradient: Gradient) -> Seq<u8> {
    match result {
        EscapeResult::Escaped(n) if n < max_iter => seq![
            blend(gradient.start_color[0], gradient.end_color[0], n as nat, max_iter as nat) as u8,
            blend(gradient.start_color[1], gradient.end_color[1], n as nat, max_iter as nat) as u8,
            blend(gradient.start_color[2], gradient.end_color[2], n as nat, max_iter as nat) as u8,
            255u8,
        ],
        _ => seq![0u8, 0u8, 0u8, 255u8],
    }
}

/// The colour of an escape below the budget holds, channel by channel, the
/// blend of the gradient's ends, and is opaque.
pub proof fn lemma_shade_of_escape(gradient: Gradient, n: u32, max_iter: u32)
    requires
        n < max_iter,
    ensures
        shade(EscapeResult::Escaped(n), max_iter, gradient).len() == 4,
        forall|k: int|
            0 <= k < 3 ==> #[trigger] shade(EscapeResult::Escaped(n), max_iter, gradient)[k]
                == blend(gradient.start_color[k], gradient.end_color[k], n as nat, max_iter as nat),
        shade(EscapeResult::Escaped(n), max_iter, gradient)[3] == 255,
{
    lemma_blend_in_byte(gradient.start_color[0], gradient.end_color[0], n as nat, max_iter as nat);
    lemma_blend_in_byte(gradient.start_color[1], gradient.end_color[1], n as nat, max_iter as nat);
    lemma_blend_in_byte(gradient.start_color[2], gradient.end_color[2], n as nat, max_iter as nat);
}

/// Maps an escape result to its RGBA colour under `gradient`.
pub fn colorize(result: EscapeResult, max_iter: u32, gradient: &Gradient) -> (color: [u8; 4])
    ensures
        color@ == shade(result, max_iter, *gradient),
        color[3] == 255,
        result == EscapeResult::Bounded ==> color@ == seq![0u8, 0u8, 0u8, 255u8],
        result == EscapeResult::Escaped(0) && max_iter > 0 ==> color@ == seq![
            gradient.start_color[0],
            gradient.start_color[1],
            gradient.start_color[2],
            255u8,
        ],
{
    proof {
        if max_iter > 0 {
            lemma_blend_starts_at_start(gradient.start_color[0], gradient.end_color[0], max_iter as nat);
            lemma_blend_starts_at_start(gradient.start_color[1], gradient.end_color[1], max_iter as nat);
            lemma_blend_starts_at_start(gradient.start_color[2], gradient.end_color[2], max_iter as nat);
        }
    }
    match result {
        EscapeResult::Escaped(n) if n < max_iter => {
            let r = interpolate(gradient.start_color[0], gradient.end_color[0], n, max_iter);
            let g = interpolate(gradient.start_color[1], gradient.end_color[1], n, max_iter);
            let b = interpolate(gradient.start_color[2], gradient.end_color[2], n, max_iter);
            [r, g, b, 255]
        },
        _ => [0, 0, 0, 255],
    }
}

} // verus!
