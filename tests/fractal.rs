use sierpinski::geometry::{midpoint, subdivide, Point, Triangle};
use sierpinski::random::{random_color, random_colors, render_colored_random};
use sierpinski::render::{colors_needed, render_colored, render_mono, Color, Draw};
use sierpinski::style::fill_style;

fn pt(x: i64, y: i64) -> Point {
    Point { x, y, shift: 0 }
}

fn root() -> Triangle {
    Triangle { top: pt(300, 0), left: pt(0, 600), right: pt(600, 600) }
}

/// The coordinates of a point as exact fractions scaled to denominator 2^20.
fn scaled(p: Point) -> (i64, i64) {
    (p.x << (20 - p.shift), p.y << (20 - p.shift))
}

fn sequence_colors(n: usize) -> Vec<Color> {
    let mut colors = Vec::new();
    for i in 0..n {
        let base = (30 * i % 200) as u8;
        colors.push(Color { red: base + 10, green: base + 20, blue: base + 30 });
    }
    colors
}

#[test]
fn midpoint_of_integer_points() {
    let m = midpoint(pt(300, 0), pt(0, 600));
    assert_eq!(m, Point { x: 300, y: 600, shift: 1 });
    assert_eq!(scaled(m), (150 << 20, 300 << 20));
}

#[test]
fn midpoint_is_symmetric_and_halfway() {
    let a = Point { x: 1, y: 3, shift: 1 };
    let b = pt(2, 0);
    let m = midpoint(a, b);
    assert_eq!(m, midpoint(b, a));
    assert_eq!(m, Point { x: 5, y: 3, shift: 2 });
    let (ax, ay) = scaled(a);
    let (bx, by) = scaled(b);
    let (mx, my) = scaled(m);
    assert_eq!(2 * mx, ax + bx);
    assert_eq!(2 * my, ay + by);
}

#[test]
fn midpoint_of_negative_coordinates() {
    let m = midpoint(pt(-7, 4), pt(3, -9));
    assert_eq!(m, Point { x: -4, y: -5, shift: 1 });
}

#[test]
fn subdivide_gives_the_three_corners() {
    let (a, b, c) = subdivide(root());
    let lm = Point { x: 300, y: 600, shift: 1 };
    let rm = Point { x: 900, y: 600, shift: 1 };
    let bm = Point { x: 600, y: 1200, shift: 1 };
    assert_eq!(a, Triangle { top: pt(300, 0), left: lm, right: rm });
    assert_eq!(b, Triangle { top: lm, left: pt(0, 600), right: bm });
    assert_eq!(c, Triangle { top: rm, left: bm, right: pt(600, 600) });
}

#[test]
fn subdivide_uses_only_corners_and_edge_midpoints() {
    let t = root();
    let (a, b, c) = subdivide(t);
    let expected = [
        t.top,
        t.left,
        t.right,
        midpoint(t.top, t.left),
        midpoint(t.top, t.right),
        midpoint(t.left, t.right),
    ];
    let mut seen: Vec<Point> = Vec::new();
    for child in [a, b, c] {
        for p in [child.top, child.left, child.right] {
            assert!(expected.contains(&p));
            if !seen.contains(&p) {
                seen.push(p);
            }
        }
    }
    assert_eq!(seen.len(), 6);
}

#[test]
fn depth_one_draws_the_triangle_once() {
    let draws = render_mono(root(), 1);
    assert_eq!(draws, vec![Draw { triangle: root(), fill: None }]);
}

#[test]
fn depth_zero_draws_the_triangle_once() {
    let draws = render_mono(root(), 0);
    assert_eq!(draws, vec![Draw { triangle: root(), fill: None }]);
    let green = Color { red: 0, green: 255, blue: 0 };
    let colored = render_colored(root(), green, 0, &Vec::new());
    assert_eq!(colored, vec![Draw { triangle: root(), fill: Some(green) }]);
}

#[test]
fn monochrome_depth_two_scenario() {
    let draws = render_mono(root(), 2);
    assert_eq!(draws.len(), 4);
    assert!(draws.iter().all(|d| d.fill.is_none()));
    let (a, b, c) = subdivide(root());
    let triangles: Vec<Triangle> = draws.iter().map(|d| d.triangle).collect();
    assert_eq!(triangles, vec![root(), a, b, c]);
}

#[test]
fn draw_count_is_geometric() {
    let mut power: usize = 3;
    for depth in 1..=7u8 {
        assert_eq!(render_mono(root(), depth).len(), (power - 1) / 2);
        power *= 3;
    }
}

#[test]
fn colors_needed_counts_splits() {
    assert_eq!(colors_needed(0), 0);
    assert_eq!(colors_needed(1), 0);
    assert_eq!(colors_needed(2), 1);
    assert_eq!(colors_needed(3), 4);
    assert_eq!(colors_needed(5), 40);
    assert_eq!(colors_needed(32), (3u64.pow(31) - 1) / 2);
}

#[test]
fn colored_depth_five_scenario() {
    let green = Color { red: 0, green: 255, blue: 0 };
    let colors = sequence_colors(40);
    let draws = render_colored(root(), green, 5, &colors);
    assert_eq!(draws.len(), 121);
    assert_eq!(draws[0], Draw { triangle: root(), fill: Some(green) });
    let first = Color { red: 10, green: 20, blue: 30 };
    let (a, b, c) = subdivide(root());
    assert_eq!(draws[1], Draw { triangle: a, fill: Some(first) });
    assert_eq!(draws[41], Draw { triangle: b, fill: Some(first) });
    assert_eq!(draws[81], Draw { triangle: c, fill: Some(first) });
    // The top child's own children take the next color.
    let second = Color { red: 40, green: 50, blue: 60 };
    assert_eq!(draws[2].fill, Some(second));
    // The left child's children take a color after the top subtree's.
    assert_ne!(draws[42].fill, Some(second));
}

#[test]
fn children_share_a_color_at_every_split() {
    let colors = sequence_colors(13);
    let start = Color { red: 1, green: 2, blue: 3 };
    let draws = render_colored(root(), start, 4, &colors);
    assert_eq!(draws.len(), 40);
    // Depth-3 subtrees are 13 draws long, depth-2 subtrees 4.
    for parent in [1usize, 14, 27] {
        let f = draws[parent + 1].fill;
        assert_eq!(draws[parent + 5].fill, f);
        assert_eq!(draws[parent + 9].fill, f);
    }
}

#[test]
fn random_render_fills_in_range() {
    let green = Color { red: 0, green: 255, blue: 0 };
    let draws = render_colored_random(root(), green, 5);
    assert_eq!(draws.len(), 121);
    assert_eq!(draws[0].fill, Some(green));
    for d in &draws[1..] {
        let c = d.fill.unwrap();
        assert!(c.red < 255 && c.green < 255 && c.blue < 255);
    }
    assert_eq!(draws[1].fill, draws[41].fill);
    assert_eq!(draws[1].fill, draws[81].fill);
}

#[test]
fn random_colors_stay_below_255() {
    let colors = random_colors(500);
    assert_eq!(colors.len(), 500);
    for c in colors {
        assert!(c.red < 255 && c.green < 255 && c.blue < 255);
    }
    for _ in 0..500 {
        let c = random_color();
        assert!(c.red < 255 && c.green < 255 && c.blue < 255);
    }
}

#[test]
fn fill_style_is_well_formed() {
    let green = fill_style(Color { red: 0, green: 255, blue: 0 });
    assert_eq!(String::from_utf8(green).unwrap(), "rgb(0, 255, 0)");
    let other = fill_style(Color { red: 10, green: 200, blue: 7 });
    assert_eq!(String::from_utf8(other).unwrap(), "rgb(10, 200, 7)");
}
