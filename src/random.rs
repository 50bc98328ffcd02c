use vstd::prelude::*;
use rand::Rng;
use crate::geometry::{Triangle, triangle_fits};
use crate::render::{
    Color, Draw, channels_in_range, filled_in_range, colored_draws, draw_count, halvings, splits,
    colors_needed, render_colored, lemma_fresh_fills_in_range, lemma_render_draw_count,
};

verus! {

/// Exclusive upper bound of a freshly drawn color channel.
pub const CHANNEL_BOUND: u8 = 255;

/// Relies on `rand::thread_rng` and `rand::Rng::gen_range`: for the
/// non-empty range `0..high`, `gen_range` returns a value of that range.
#[verifier::external_body]
fn random_below(high: u8) -> (r: u8)
    requires
        high > 0,
    ensures
        r < high,
{
    rand::thread_rng().gen_range(0..high)
}

/// A color whose channels are drawn independently from `[0, 255)`.
pub fn random_color() -> (c: Color)
    ensures
        channels_in_range(c),
{
    let red = random_below(CHANNEL_BOUND);
    let green = random_below(CHANNEL_BOUND);
    let blue = random_below(CHANNEL_BOUND);
    Color { red, green, blue }
}

/// `n` random colors, each with its channels in `[0, 255)`.
pub fn random_colors(n: u64) -> (r: Vec<Color>)
    ensures
        r@.len() == n,
        forall|j: int| 0 <= j < r@.len() ==> channels_in_range(#[trigger] r@[j]),
{
    let mut out: Vec<Color> = Vec::new();
    let mut i: u64 = 0;
    while i < n
        invariant
            i <= n,
            out@.len() == i,
            forall|j: int| 0 <= j < out@.len() ==> channels_in_range(#[trigger] out@[j]),
        decreases n - i,
    {
        out.push(random_color());
        i = i + 1;
    }
    out
}

/// Renders `t` filled with `color`, giving the children of each split
/// triangle one fresh random color. Every triangle drawn after the first is
/// filled with a color whose channels lie in `[0, 255)`.
pub fn render_colored_random(t: Triangle, color: Color, depth: u8) -> (r: Vec<Draw>)
    requires
        triangle_fits(t, halvings(depth as nat)),
    ensures
        exists|colors: Seq<Color>|
            {
                &&& colors.len() == splits(depth as nat)
                &&& forall|j: int| 0 <= j < colors.len() ==> channels_in_range(#[trigger] colors[j])
                &&& r@ == colored_draws(t, color, depth as nat, colors)
            },
        r@.len() == draw_count(depth as nat),
        r@[0] == (Draw { triangle: t, fill: Some(color) }),
        forall|i: int| 1 <= i < r@.len() ==> filled_in_range(#[trigger] r@[i]),
{
    let n = colors_needed(depth);
    let colors = random_colors(n);
    let r = render_colored(t, color, depth, &colors);
    proof {
        lemma_fresh_fills_in_range(t, color, depth as nat, colors@);
        lemma_render_draw_count(t, color, if depth == 0 { 1 } else { depth as nat }, colors@);
        assert(draw_count(depth as nat) == draw_count(if depth == 0 { 1 } else { depth as nat }));
    }
    r
}

} // verus!
