use vstd::prelude::*;
use vstd::arithmetic::power::pow;
use vstd::arithmetic::power2::{pow2, lemma_pow2_unfold, lemma_pow2_strictly_increases, lemma2_to64_rest};
use crate::geometry::{
    Triangle, child_top, child_left, child_right, triangle_fits, subdivide, lemma_subdivide_fits,
};

verus! {

/// A fill color as red, green and blue channels.
#[derive(Clone, Copy, Debug, PartialEq, Eq, Structural)]
pub struct Color {
    pub red: u8,
    pub green: u8,
    pub blue: u8,
}

/// One drawing step: stroke the closed outline of `triangle`, and fill it
/// with `fill` when there is one.
#[derive(Clone, Copy, Debug, PartialEq, Eq, Structural)]
pub struct Draw {
    pub triangle: Triangle,
    pub fill: Option<Color>,
}

/// How many halvings a render of the given depth performs below the root.
pub open spec fn halvings(depth: nat) -> nat {
    if depth <= 1 {
        0
    } else {
        (depth - 1) as nat
    }
}

/// Number of triangles drawn at the given depth (depth 0 counts as 1).
pub open spec fn draw_count(depth: nat) -> nat
    decreases depth,
{
    if depth <= 1 {
        1
    } else {
        1 + 3 * draw_count((depth - 1) as nat)
    }
}

/// Number of triangles that split into children, which is also the number
/// of fresh colors a colored render consumes.
pub open spec fn splits(depth: nat) -> nat
    decreases depth,
{
    if depth <= 1 {
        0
    } else {
        1 + 3 * splits((depth - 1) as nat)
    }
}

/// The draws of a monochrome render, in order: the triangle itself, then
/// the renders of its top, left and right children one level shallower.
pub open spec fn mono_draws(t: Triangle, depth: nat) -> Seq<Draw>
    decreases depth,
{
    let here = seq![Draw { triangle: t, fill: None }];
    if depth <= 1 {
        here
    } else {
        let d = (depth - 1) as nat;
        here + mono_draws(child_top(t), d) + mono_draws(child_left(t), d) + mono_draws(
            child_right(t),
            d,
        )
    }
}

/// The draws of a colored render whose fresh colors are taken, in order,
/// from `colors`. The triangle is filled with `color`; when it splits, the
/// first unused color goes to all three children, and each child's subtree
/// takes its own colors from what follows, top first.
pub open spec fn colored_draws(t: Triangle, color: Color, depth: nat, colors: Seq<Color>) -> Seq<
    Draw,
>
    decreases depth,
{
    let here = seq![Draw { triangle: t, fill: Some(color) }];
    if depth <= 1 {
        here
    } else {
        let d = (depth - 1) as nat;
        let k = splits(d);
        let next = colors[0];
        here + colored_draws(child_top(t), next, d, colors.skip(1)) + colored_draws(
            child_left(t),
            next,
            d,
            colors.skip((1 + k) as int),
        ) + colored_draws(child_right(t), next, d, colors.skip((1 + 2 * k) as int))
    }
}

fn mono_into(t: Triangle, depth: u8, out: &mut Vec<Draw>)
    requires
        triangle_fits(t, halvings(depth as nat)),
    ensures
        final(out)@ == old(out)@ + mono_draws(t, depth as nat),
    decreases depth,
{
    let ghost before = out@;
    out.push(Draw { triangle: t, fill: None });
    if depth > 1 {
        let d: u8 = depth - 1;
        proof {
            lemma_subdivide_fits(t, halvings(d as nat));
        }
        let (a, b, c) = subdivide(t);
        mono_into(a, d, out);
        mono_into(b, d, out);
        mono_into(c, d, out);
        assert(out@ =~= before + mono_draws(t, depth as nat));
    }
}

/// Renders `t` without fill: the triangle, then, while more than one level
/// remains, its three children one level shallower. A depth of 0 or 1 draws
/// the triangle alone.
pub fn render_mono(t: Triangle, depth: u8) -> (r: Vec<Draw>)
    requires
        triangle_fits(t, halvings(depth as nat)),
    ensures
        r@ == mono_draws(t, depth as nat),
{
    let mut out: Vec<Draw> = Vec::new();
    mono_into(t, depth, &mut out);
    assert(out@ =~= mono_draws(t, depth as nat));
    out
}

fn colored_into(
    t: Triangle,
    color: Color,
    depth: u8,
    colors: &Vec<Color>,
    pos: usize,
    out: &mut Vec<Draw>,
) -> (next: usize)
    requires
        triangle_fits(t, halvings(depth as nat)),
        pos + splits(depth as nat) <= colors@.len(),
    ensures
        next == pos + splits(depth as nat),
        final(out)@ == old(out)@ + colored_draws(t, color, depth as nat, colors@.skip(pos as int)),
    decreases depth,
{
    let ghost before = out@;
    out.push(Draw { triangle: t, fill: Some(color) });
    if depth <= 1 {
        return pos;
    }
    let d: u8 = depth - 1;
    proof {
        lemma_subdivide_fits(t, halvings(d as nat));
    }
    let next_color = colors[pos];
    let (a, b, c) = subdivide(t);
    let ghost k = splits(d as nat);
    let ghost rest = colors@.skip(pos as int);
    assert(splits(depth as nat) == 1 + 3 * k);
    let available: usize = colors.len();
    assert(pos + 1 <= available);
    let p1 = colored_into(a, next_color, d, colors, pos + 1, out);
    let p2 = colored_into(b, next_color, d, colors, p1, out);
    let p3 = colored_into(c, next_color, d, colors, p2, out);
    assert(rest.skip(1) =~= colors@.skip(pos + 1));
    assert(rest.skip((1 + k) as int) =~= colors@.skip(p1 as int));
    assert(rest.skip((1 + 2 * k) as int) =~= colors@.skip(p2 as int));
    assert(out@ =~= before + colored_draws(t, color, depth as nat, rest));
    p3
}

/// Renders `t` filled with `color`. Each triangle that splits takes the next
/// color of `colors` for all three of its children, in drawing order.
pub fn render_colored(t: Triangle, color: Color, depth: u8, colors: &Vec<Color>) -> (r: Vec<Draw>)
    requires
        triangle_fits(t, halvings(depth as nat)),
        splits(depth as nat) <= colors@.len(),
    ensures
        r@ == colored_draws(t, color, depth as nat, colors@),
{
    let mut out: Vec<Draw> = Vec::new();
    colored_into(t, color, depth, colors, 0, &mut out);
    assert(colors@.skip(0) =~= colors@);
    assert(out@ =~= colored_draws(t, color, depth as nat, colors@));
    out
}

/// All three channels lie in the half-open range `[0, 255)` that fresh
/// random colors are drawn from.
pub open spec fn channels_in_range(c: Color) -> bool {
    c.red < 255 && c.green < 255 && c.blue < 255
}

pub open spec fn filled_in_range(d: Draw) -> bool {
    match d.fill {
        Some(c) => channels_in_range(c),
        None => false,
    }
}

proof fn lemma_mono_len(t: Triangle, depth: nat)
    ensures
        mono_draws(t, depth).len() == draw_count(depth),
    decreases depth,
{
    if depth > 1 {
        let d = (depth - 1) as nat;
        lemma_mono_len(child_top(t), d);
        lemma_mono_len(child_left(t), d);
        lemma_mono_len(child_right(t), d);
    }
}

proof fn lemma_colored_len(t: Triangle, color: Color, depth: nat, colors: Seq<Color>)
    ensures
        colored_draws(t, color, depth, colors).len() == draw_count(depth),
    decreases depth,
{
    if depth > 1 {
        let d = (depth - 1) as nat;
        let k = splits(d);
        lemma_colored_len(child_top(t), colors[0], d, colors.skip(1));
        lemma_colored_len(child_left(t), colors[0], d, colors.skip((1 + k) as int));
        lemma_colored_len(child_right(t), colors[0], d, colors.skip((1 + 2 * k) as int));
    }
}

proof fn lemma_draw_count_closed_form(depth: nat)
    requires
        depth >= 1,
    ensures
        2 * draw_count(depth) + 1 == pow(3, depth),
    decreases depth,
{
    reveal(pow);
    assert(pow(3, depth) == 3 * pow(3, (depth - 1) as nat));
    if depth > 1 {
        lemma_draw_count_closed_form((depth - 1) as nat);
    } else {
        assert(pow(3, 0) == 1);
    }
}

/// A render of depth 0 or 1 draws the given triangle once and does not
/// split it.
pub proof fn lemma_shallow_render_draws_once(
    t: Triangle,
    color: Color,
    depth: nat,
    colors: Seq<Color>,
)
    requires
        depth <= 1,
    ensures
        mono_draws(t, depth) == seq![Draw { triangle: t, fill: None }],
        colored_draws(t, color, depth, colors) == seq![Draw { triangle: t, fill: Some(color) }],
{
}

/// A render of depth `n >= 1` draws `(3^n - 1) / 2` triangles, with or
/// without color.
pub proof fn lemma_render_draw_count(t: Triangle, color: Color, depth: nat, colors: Seq<Color>)
    requires
        depth >= 1,
    ensures
        mono_draws(t, depth).len() == draw_count(depth),
        colored_draws(t, color, depth, colors).len() == draw_count(depth),
        2 * draw_count(depth) + 1 == pow(3, depth),
        draw_count(depth) == (pow(3, depth) - 1) / 2,
{
    lemma_mono_len(t, depth);
    lemma_colored_len(t, color, depth, colors);
    lemma_draw_count_closed_form(depth);
}

/// In a colored render that splits, the three children are drawn right after
/// their parent and one subtree apart, and all three are filled with the
/// same color: the first fresh one.
pub proof fn lemma_children_share_color(t: Triangle, color: Color, depth: nat, colors: Seq<Color>)
    requires
        depth >= 2,
    ensures
        ({
            let draws = colored_draws(t, color, depth, colors);
            let n = draw_count((depth - 1) as nat) as int;
            &&& draws.len() == 1 + 3 * n
            &&& draws[1] == Draw { triangle: child_top(t), fill: Some(colors[0]) }
            &&& draws[1 + n] == Draw { triangle: child_left(t), fill: Some(colors[0]) }
            &&& draws[1 + 2 * n] == Draw { triangle: child_right(t), fill: Some(colors[0]) }
        }),
{
    let d = (depth - 1) as nat;
    let k = splits(d);
    let n = draw_count(d) as int;
    lemma_colored_len(child_top(t), colors[0], d, colors.skip(1));
    lemma_colored_len(child_left(t), colors[0], d, colors.skip((1 + k) as int));
    lemma_colored_len(child_right(t), colors[0], d, colors.skip((1 + 2 * k) as int));
    let a = colored_draws(child_top(t), colors[0], d, colors.skip(1));
    let b = colored_draws(child_left(t), colors[0], d, colors.skip((1 + k) as int));
    let c = colored_draws(child_right(t), colors[0], d, colors.skip((1 + 2 * k) as int));
    let draws = colored_draws(t, color, depth, colors);
    assert(draws == seq![Draw { triangle: t, fill: Some(color) }] + a + b + c);
    assert(draws[1] == a[0]);
    assert(draws[1 + n] == b[0]);
    assert(draws[1 + 2 * n] == c[0]);
}

/// When every fresh color has its channels in `[0, 255)`, so does the fill
/// of every triangle but the first.
pub proof fn lemma_fresh_fills_in_range(t: Triangle, color: Color, depth: nat, colors: Seq<Color>)
    requires
        splits(depth) <= colors.len(),
        forall|j: int| 0 <= j < colors.len() ==> channels_in_range(#[trigger] colors[j]),
    ensures
        colored_draws(t, color, depth, colors)[0].fill == Some(color),
        forall|i: int|
            1 <= i < colored_draws(t, color, depth, colors).len() ==> filled_in_range(
                #[trigger] colored_draws(t, color, depth, colors)[i],
            ),
    decreases depth,
{
    if depth > 1 {
        let d = (depth - 1) as nat;
        let k = splits(d);
        let n = draw_count(d) as int;
        let next = colors[0];
        let sa = colors.skip(1);
        let sb = colors.skip((1 + k) as int);
        let sc = colors.skip((1 + 2 * k) as int);
        assert forall|j: int| 0 <= j < sb.len() implies channels_in_range(#[trigger] sb[j]) by {
            assert(sb[j] == colors[j + 1 + k]);
        }
        assert forall|j: int| 0 <= j < sc.len() implies channels_in_range(#[trigger] sc[j]) by {
            assert(sc[j] == colors[j + 1 + 2 * k]);
        }
        assert forall|j: int| 0 <= j < sa.len() implies channels_in_range(#[trigger] sa[j]) by {
            assert(sa[j] == colors[j + 1]);
        }
        lemma_fresh_fills_in_range(child_top(t), next, d, sa);
        lemma_fresh_fills_in_range(child_left(t), next, d, sb);
        lemma_fresh_fills_in_range(child_right(t), next, d, sc);
        lemma_colored_len(child_top(t), next, d, sa);
        lemma_colored_len(child_left(t), next, d, sb);
        lemma_colored_len(child_right(t), next, d, sc);
        let a = colored_draws(child_top(t), next, d, sa);
        let b = colored_draws(child_left(t), next, d, sb);
        let c = colored_draws(child_right(t), next, d, sc);
        let draws = colored_draws(t, color, depth, colors);
        assert(draws == seq![Draw { triangle: t, fill: Some(color) }] + a + b + c);
        assert(channels_in_range(next));
        assert forall|i: int| 1 <= i < draws.len() implies filled_in_range(#[trigger] draws[i]) by {
            if i < 1 + n {
                assert(draws[i] == a[i - 1]);
            } else if i < 1 + 2 * n {
                assert(draws[i] == b[i - 1 - n]);
            } else {
                assert(draws[i] == c[i - 1 - 2 * n]);
            }
        }
    }
}

/// How many fresh colors a colored render of the given depth consumes.
pub fn colors_needed(depth: u8) -> (n: u64)
    requires
        depth <= 32,
    ensures
        n == splits(depth as nat),
{
    let mut count: u64 = 0;
    let mut k: u8 = 1;
    proof {
        vstd::arithmetic::power2::lemma2_to64();
    }
    while k < depth
        invariant
            1 <= k <= 32,
            k < depth ==> k < 32,
            k <= depth || k == 1,
            depth <= 32,
            count == splits(k as nat),
            count < pow2(2 * k as nat),
        decreases depth - k,
    {
        proof {
            let e = (2 * k) as nat;
            lemma2_to64_rest();
            lemma_pow2_unfold(e + 1);
            lemma_pow2_unfold(e + 2);
            assert((e + 2 - 1) as nat == e + 1);
            assert((e + 1 - 1) as nat == e);
            if e < 62 {
                lemma_pow2_strictly_increases(e, 62);
            }
            assert(2 * (k + 1) as nat == e + 2);
            assert(pow2(e) <= 0x4000000000000000);
            assert(count < 0x4000000000000000);
            assert(splits((k + 1) as nat) == 1 + 3 * splits(k as nat));
        }
        count = 1 + 3 * count;
        k = k + 1;
    }
    assert(splits(0) == splits(1));
    count
}

} // verus!
