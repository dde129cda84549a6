//! Counting the inked pixels of a pattern against a solid fill.
//!
//! Both images are RGBA bytes, four per pixel, of the same size. A pixel is
//! inked when one of its colour channels is below the background threshold.
use vstd::prelude::*;

verus! {

/// Channels at or above this value are background.
pub const BACKGROUND_THRESHOLD: u8 = 250;

/// Pixel `p` of the RGBA bytes `img` is inked: its red, green or blue
/// channel is below the background threshold.
pub open spec fn inked(img: Seq<u8>, p: int) -> bool {
    img[4 * p] < BACKGROUND_THRESHOLD || img[4 * p + 1] < BACKGROUND_THRESHOLD
        || img[4 * p + 2] < BACKGROUND_THRESHOLD
}

/// Among the first `n` pixels: how many are inked in the solid fill, how
/// many in the pattern, and how many of the pattern's lie inside and outside
/// the solid fill.
pub open spec fn tally(solid: Seq<u8>, pattern: Seq<u8>, n: nat) -> (nat, nat, nat, nat)
    decreases n,
{
    if n == 0 {
        (0, 0, 0, 0)
    } else {
        let (s, t, i, o) = tally(solid, pattern, (n - 1) as nat);
        let p = n - 1;
        let is_solid = inked(solid, p);
        let has_pattern = inked(pattern, p);
        (
            s + if is_solid { 1nat } else { 0nat },
            t + if has_pattern { 1nat } else { 0nat },
            i + if has_pattern && is_solid { 1nat } else { 0nat },
            o + if has_pattern && !is_solid { 1nat } else { 0nat },
        )
    }
}

/// The pixel counts of a comparison.
#[derive(Clone, Copy, Debug, PartialEq, Eq)]
pub struct PixelCounts {
    /// Pixels inked in the solid fill.
    pub solid_fill: u64,
    /// Pixels inked in the pattern.
    pub pattern: u64,
    /// Pattern pixels where the solid fill is inked too.
    pub in_bounds: u64,
    /// Pattern pixels where the solid fill is not inked.
    pub out_of_bounds: u64,
}

proof fn lemma_tally_bound(solid: Seq<u8>, pattern: Seq<u8>, n: nat)
    ensures
        tally(solid, pattern, n).0 <= n,
        tally(solid, pattern, n).1 <= n,
        tally(solid, pattern, n).2 <= n,
        tally(solid, pattern, n).3 <= n,
    decreases n,
{
    if n > 0 {
        lemma_tally_bound(solid, pattern, (n - 1) as nat);
    }
}

/// Count, pixel by pixel, the inked pixels of the solid fill and of the
/// pattern, and split the pattern's into those inside and outside the solid
/// fill.
pub fn count_pixels(solid: &[u8], pattern: &[u8]) -> (c: PixelCounts)
    requires
        solid@.len() == pattern@.len(),
    ensures
        c.solid_fill == tally(solid@, pattern@, solid@.len() / 4).0,
        c.pattern == tally(solid@, pattern@, solid@.len() / 4).1,
        c.in_bounds == tally(solid@, pattern@, solid@.len() / 4).2,
        c.out_of_bounds == tally(solid@, pattern@, solid@.len() / 4).3,
        c.in_bounds + c.out_of_bounds == c.pattern,
        c.in_bounds <= c.solid_fill,
{
    let total = solid.len();
    let n = total / 4;
    let mut s: u64 = 0;
    let mut t: u64 = 0;
    let mut i: u64 = 0;
    let mut o: u64 = 0;
    let mut p: usize = 0;
    while p < n
        invariant
            total == solid@.len(),
            n == solid@.len() / 4,
            solid@.len() == pattern@.len(),
            p <= n,
            (s as nat, t as nat, i as nat, o as nat) == tally(solid@, pattern@, p as nat),
        decreases n - p,
    {
        proof {
            lemma_tally_bound(solid@, pattern@, p as nat);
            let len = solid@.len();
            assert(4 * p + 3 < len) by (nonlinear_arith)
                requires
                    p < n,
                    n == len / 4,
            ;
        }
        let k = 4 * p;
        let is_solid = solid[k] < BACKGROUND_THRESHOLD || solid[k + 1] < BACKGROUND_THRESHOLD
            || solid[k + 2] < BACKGROUND_THRESHOLD;
        let has_pattern = pattern[k] < BACKGROUND_THRESHOLD || pattern[k + 1] < BACKGROUND_THRESHOLD
            || pattern[k + 2] < BACKGROUND_THRESHOLD;
        if is_solid {
            s = s + 1;
        }
        if has_pattern {
            t = t + 1;
            if is_solid {
                i = i + 1;
            } else {
                o = o + 1;
            }
        }
        p = p + 1;
    }
    proof {
        lemma_pattern_pixels_split(solid@, pattern@, n as nat);
    }
    PixelCounts { solid_fill: s, pattern: t, in_bounds: i, out_of_bounds: o }
}

/// Every pattern pixel lies either inside or outside the solid fill: the
/// pattern pixels split into those in bounds and those out of bounds, and
/// the pixels in bounds are inked in both images, so there are no more of
/// them than solid-fill pixels.
pub proof fn lemma_pattern_pixels_split(solid: Seq<u8>, pattern: Seq<u8>, n: nat)
    ensures
        tally(solid, pattern, n).2 + tally(solid, pattern, n).3 == tally(solid, pattern, n).1,
        tally(solid, pattern, n).2 <= tally(solid, pattern, n).0,
    decreases n,
{
    if n > 0 {
        lemma_pattern_pixels_split(solid, pattern, (n - 1) as nat);
    }
}

/// Swapping the two images swaps the solid-fill and pattern counts and
/// keeps the pixels inked in both; a pixel out of bounds one way is a solid
/// pixel the pattern misses the other way, so solid-fill count plus
/// out-of-bounds count is the same both ways (the pixels inked in either).
pub proof fn lemma_tally_swap(solid: Seq<u8>, pattern: Seq<u8>, n: nat)
    ensures
        tally(pattern, solid, n).0 == tally(solid, pattern, n).1,
        tally(pattern, solid, n).1 == tally(solid, pattern, n).0,
        tally(pattern, solid, n).2 == tally(solid, pattern, n).2,
        tally(pattern, solid, n).0 + tally(pattern, solid, n).3 == tally(solid, pattern, n).0 + tally(solid, pattern, n).3,
    decreases n,
{
    if n > 0 {
        lemma_tally_swap(solid, pattern, (n - 1) as nat);
    }
}

} // verus!
