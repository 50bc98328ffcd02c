use vstd::prelude::*;
use vstd::arithmetic::power2::{
    pow2, lemma_pow2_adds, lemma_pow2_pos, lemma_pow2_unfold, lemma_pow2_strictly_increases,
    lemma2_to64_rest,
};

verus! {

/// A point of the plane with dyadic rational coordinates
/// `(x / 2^shift, y / 2^shift)`. Halving such a value is always exact.
#[derive(Clone, Copy, Debug, PartialEq, Eq, Structural)]
pub struct Point {
    pub x: i64,
    pub y: i64,
    pub shift: u32,
}

/// A triangle given as apex, left base corner and right base corner.
#[derive(Clone, Copy, Debug, PartialEq, Eq, Structural)]
pub struct Triangle {
    pub top: Point,
    pub left: Point,
    pub right: Point,
}

/// The numerator of `v / 2^from` written over the finer denominator `2^to`.
pub open spec fn align(v: int, from: nat, to: nat) -> int {
    v * pow2((to - from) as nat)
}

/// The finer of the two denominators' exponents.
pub open spec fn common_shift(a: Point, b: Point) -> nat {
    if a.shift >= b.shift {
        a.shift as nat
    } else {
        b.shift as nat
    }
}

/// Numerator of the midpoint's x coordinate over `2^(common_shift + 1)`.
pub open spec fn mid_x(a: Point, b: Point) -> int {
    align(a.x as int, a.shift as nat, common_shift(a, b))
        + align(b.x as int, b.shift as nat, common_shift(a, b))
}

/// Numerator of the midpoint's y coordinate over `2^(common_shift + 1)`.
pub open spec fn mid_y(a: Point, b: Point) -> int {
    align(a.y as int, a.shift as nat, common_shift(a, b))
        + align(b.y as int, b.shift as nat, common_shift(a, b))
}

pub open spec fn is_i64(v: int) -> bool {
    i64::MIN <= v <= i64::MAX
}

/// The midpoint of `a` and `b` is representable: every aligned numerator and
/// both sums fit in an `i64`, and the new exponent fits in a `u32`.
pub open spec fn midpoint_fits(a: Point, b: Point) -> bool {
    &&& common_shift(a, b) < u32::MAX
    &&& is_i64(align(a.x as int, a.shift as nat, common_shift(a, b)))
    &&& is_i64(align(a.y as int, a.shift as nat, common_shift(a, b)))
    &&& is_i64(align(b.x as int, b.shift as nat, common_shift(a, b)))
    &&& is_i64(align(b.y as int, b.shift as nat, common_shift(a, b)))
    &&& is_i64(mid_x(a, b))
    &&& is_i64(mid_y(a, b))
}

/// The midpoint `((a + b) / 2)`, exact: both points are brought to the
/// common denominator, added, and the denominator is doubled.
pub open spec fn mid(a: Point, b: Point) -> Point {
    Point { x: mid_x(a, b) as i64, y: mid_y(a, b) as i64, shift: (common_shift(a, b) + 1) as u32 }
}

/// The three corner triangles of the subdivision, in drawing order.
pub open spec fn child_top(t: Triangle) -> Triangle {
    Triangle { top: t.top, left: mid(t.top, t.left), right: mid(t.top, t.right) }
}

pub open spec fn child_left(t: Triangle) -> Triangle {
    Triangle { top: mid(t.top, t.left), left: t.left, right: mid(t.left, t.right) }
}

pub open spec fn child_right(t: Triangle) -> Triangle {
    Triangle { top: mid(t.top, t.right), left: mid(t.left, t.right), right: t.right }
}

pub open spec fn subdivide_fits(t: Triangle) -> bool {
    &&& midpoint_fits(t.top, t.left)
    &&& midpoint_fits(t.top, t.right)
    &&& midpoint_fits(t.left, t.right)
}

pub open spec fn vertices(t: Triangle) -> Set<Point> {
    set![t.top, t.left, t.right]
}

/// `p` leaves room for `levels` more halvings: its coordinates are at most
/// `2^31` in magnitude and its exponent plus `levels` stays within 31.
pub open spec fn point_fits(p: Point, levels: nat) -> bool {
    &&& p.shift + levels <= 31
    &&& -pow2((p.shift + 31) as nat) <= p.x <= pow2((p.shift + 31) as nat)
    &&& -pow2((p.shift + 31) as nat) <= p.y <= pow2((p.shift + 31) as nat)
}

pub open spec fn triangle_fits(t: Triangle, levels: nat) -> bool {
    &&& point_fits(t.top, levels)
    &&& point_fits(t.left, levels)
    &&& point_fits(t.right, levels)
}

proof fn lemma_align_grows(v: int, from: nat, to: nat)
    requires
        from <= to,
    ensures
        v >= 0 ==> v <= align(v, from, to),
        v <= 0 ==> align(v, from, to) <= v,
{
    let k = pow2((to - from) as nat);
    lemma_pow2_pos((to - from) as nat);
    assert(v >= 0 ==> v <= v * k) by (nonlinear_arith)
        requires
            k >= 1,
    ;
    assert(v <= 0 ==> v * k <= v) by (nonlinear_arith)
        requires
            k >= 1,
    ;
}

proof fn lemma_align_bound(v: int, from: nat, to: nat)
    requires
        from <= to,
        -pow2(from + 31) <= v <= pow2(from + 31),
    ensures
        -pow2(to + 31) <= align(v, from, to) <= pow2(to + 31),
{
    let k = pow2((to - from) as nat);
    let b = pow2(from + 31);
    lemma_pow2_pos((to - from) as nat);
    lemma_pow2_adds(from + 31, (to - from) as nat);
    assert((from + 31) + (to - from) == to + 31);
    assert(-(b * k) <= v * k <= b * k) by (nonlinear_arith)
        requires
            k >= 0,
            -b <= v <= b,
    ;
}

/// Midpoints of points with room for one more halving are representable and
/// keep room for the remaining levels.
pub proof fn lemma_mid_fits(a: Point, b: Point, levels: nat)
    requires
        point_fits(a, levels + 1),
        point_fits(b, levels + 1),
    ensures
        midpoint_fits(a, b),
        point_fits(mid(a, b), levels),
        mid(a, b).x == mid_x(a, b),
        mid(a, b).y == mid_y(a, b),
{
    let s = common_shift(a, b);
    lemma_align_bound(a.x as int, a.shift as nat, s);
    lemma_align_bound(a.y as int, a.shift as nat, s);
    lemma_align_bound(b.x as int, b.shift as nat, s);
    lemma_align_bound(b.y as int, b.shift as nat, s);
    lemma_pow2_unfold(s + 32);
    assert((s + 32 - 1) as nat == s + 31);
    lemma2_to64_rest();
    if s + 32 < 62 {
        lemma_pow2_strictly_increases(s + 32, 62);
    }
}

pub proof fn lemma_subdivide_fits(t: Triangle, levels: nat)
    requires
        triangle_fits(t, levels + 1),
    ensures
        subdivide_fits(t),
        triangle_fits(child_top(t), levels),
        triangle_fits(child_left(t), levels),
        triangle_fits(child_right(t), levels),
        point_fits(t.top, levels),
        point_fits(t.left, levels),
        point_fits(t.right, levels),
{
    lemma_mid_fits(t.top, t.left, levels);
    lemma_mid_fits(t.top, t.right, levels);
    lemma_mid_fits(t.left, t.right, levels);
}

/// `v * 2^by`, computed by repeated doubling.
fn scale_up(v: i64, by: u32) -> (r: i64)
    requires
        is_i64(v * pow2(by as nat)),
    ensures
        r == v * pow2(by as nat),
{
    if v == 0 {
        assert(0 * pow2(by as nat) == 0);
        return 0;
    }
    let mut r: i64 = v;
    let mut i: u32 = 0;
    proof {
        lemma2_to64_rest();
        vstd::arithmetic::power2::lemma2_to64();
    }
    while i < by
        invariant
            i <= by,
            v != 0,
            r == v * pow2(i as nat),
            is_i64(v * pow2(by as nat)),
        decreases by - i,
    {
        proof {
            lemma_pow2_unfold((i + 1) as nat);
            assert(((i + 1) as nat - 1) as nat == i as nat);
            lemma_align_grows(v * pow2((i + 1) as nat), (i + 1) as nat, by as nat);
            lemma_pow2_adds((i + 1) as nat, (by - (i + 1)) as nat);
            assert((i + 1) as nat + (by - (i + 1)) as nat == by as nat);
            assert(v * pow2((i + 1) as nat) * pow2((by - (i + 1)) as nat) == v * pow2(by as nat))
                by (nonlinear_arith)
                requires
                    pow2(by as nat) == pow2((i + 1) as nat) * pow2((by - (i + 1)) as nat),
            ;
            assert(v * pow2((i + 1) as nat) == 2 * r) by (nonlinear_arith)
                requires
                    pow2((i + 1) as nat) == 2 * pow2(i as nat),
                    r == v * pow2(i as nat),
            ;
        }
        r = r * 2;
        i = i + 1;
    }
    r
}

/// The midpoint of `a` and `b`, exactly.
pub fn midpoint(a: Point, b: Point) -> (m: Point)
    requires
        midpoint_fits(a, b),
    ensures
        m == mid(a, b),
        m.x == mid_x(a, b),
        m.y == mid_y(a, b),
        m.shift == common_shift(a, b) + 1,
{
    let s: u32 = if a.shift >= b.shift { a.shift } else { b.shift };
    let ax = scale_up(a.x, s - a.shift);
    let ay = scale_up(a.y, s - a.shift);
    let bx = scale_up(b.x, s - b.shift);
    let by = scale_up(b.y, s - b.shift);
    Point { x: ax + bx, y: ay + by, shift: s + 1 }
}

/// Splits `t` into its three corner triangles (top, left, right); the central
/// inverted triangle is left out.
pub fn subdivide(t: Triangle) -> (r: (Triangle, Triangle, Triangle))
    requires
        subdivide_fits(t),
    ensures
        r.0 == child_top(t),
        r.1 == child_left(t),
        r.2 == child_right(t),
{
    let left_middle = midpoint(t.top, t.left);
    let right_middle = midpoint(t.top, t.right);
    let bottom_middle = midpoint(t.left, t.right);
    (
        Triangle { top: t.top, left: left_middle, right: right_middle },
        Triangle { top: left_middle, left: t.left, right: bottom_middle },
        Triangle { top: right_middle, left: bottom_middle, right: t.right },
    )
}

/// The midpoint does not depend on the order of its arguments, and it lies
/// halfway along the segment: over the midpoint's denominator, twice its
/// numerator is the sum of the two ends' numerators.
pub proof fn lemma_midpoint_symmetric_halfway(a: Point, b: Point)
    requires
        midpoint_fits(a, b),
    ensures
        mid(a, b) == mid(b, a),
        midpoint_fits(b, a),
        2 * mid(a, b).x == align(a.x as int, a.shift as nat, mid(a, b).shift as nat)
            + align(b.x as int, b.shift as nat, mid(a, b).shift as nat),
        2 * mid(a, b).y == align(a.y as int, a.shift as nat, mid(a, b).shift as nat)
            + align(b.y as int, b.shift as nat, mid(a, b).shift as nat),
{
    let s = common_shift(a, b);
    assert(common_shift(a, b) == common_shift(b, a));
    let da = (s - a.shift) as nat;
    let db = (s - b.shift) as nat;
    lemma_pow2_unfold(da + 1);
    lemma_pow2_unfold(db + 1);
    assert((s + 1 - a.shift) as nat == da + 1);
    assert((s + 1 - b.shift) as nat == db + 1);
    assert((((da + 1) as nat) - 1) as nat == da);
    assert((((db + 1) as nat) - 1) as nat == db);
    assert(2 * (a.x * pow2(da)) == a.x * pow2(da + 1)) by (nonlinear_arith)
        requires pow2(da + 1) == 2 * pow2(da);
    assert(2 * (a.y * pow2(da)) == a.y * pow2(da + 1)) by (nonlinear_arith)
        requires pow2(da + 1) == 2 * pow2(da);
    assert(2 * (b.x * pow2(db)) == b.x * pow2(db + 1)) by (nonlinear_arith)
        requires pow2(db + 1) == 2 * pow2(db);
    assert(2 * (b.y * pow2(db)) == b.y * pow2(db + 1)) by (nonlinear_arith)
        requires pow2(db + 1) == 2 * pow2(db);
}

/// The children of a subdivision use exactly the parent's corners and the
/// three edge midpoints as vertices, and nothing else.
pub proof fn lemma_subdivide_vertices(t: Triangle)
    ensures
        vertices(child_top(t)) + vertices(child_left(t)) + vertices(child_right(t))
            == set![t.top, t.left, t.right, mid(t.top, t.left), mid(t.top, t.right), mid(t.left, t.right)],
{
    assert(vertices(child_top(t)) + vertices(child_left(t)) + vertices(child_right(t))
        =~= set![t.top, t.left, t.right, mid(t.top, t.left), mid(t.top, t.right), mid(t.left, t.right)]);
}

} // verus!
