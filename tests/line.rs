use renderer::color::Color;
use renderer::line::{Fragment, ScreenVertex};

fn sv(x: i32, y: i32, color: Color) -> ScreenVertex {
    ScreenVertex { x, y, color }
}

fn positions(frags: &[Fragment]) -> Vec<(i32, i32)> {
    frags.iter().map(|f| (f.x, f.y)).collect()
}

fn t_of(f: &Fragment) -> f64 {
    if f.total_sq == 0 {
        0.0
    } else {
        (f.covered_sq as f64).sqrt() / (f.total_sq as f64).sqrt()
    }
}

#[test]
fn diagonal_edge_includes_both_ends() {
    let c = Color::black();
    let frags = renderer::line::line(&sv(0, 0, c), &sv(3, 3, c));
    assert_eq!(positions(&frags), vec![(0, 0), (1, 1), (2, 2), (3, 3)]);
    let expected = [0.0, 1.0 / 3.0, 2.0 / 3.0, 1.0];
    for (f, t) in frags.iter().zip(expected.iter()) {
        assert!((t_of(f) - t).abs() < 1e-9);
    }
}

#[test]
fn axis_aligned_edge() {
    let c = Color::black();
    let frags = renderer::line::line(&sv(0, 0, c), &sv(4, 0, c));
    assert_eq!(positions(&frags), vec![(0, 0), (1, 0), (2, 0), (3, 0), (4, 0)]);
}

#[test]
fn vertical_edge_going_up() {
    let c = Color::black();
    let frags = renderer::line::line(&sv(2, 3, c), &sv(2, -1, c));
    assert_eq!(positions(&frags), vec![(2, 3), (2, 2), (2, 1), (2, 0), (2, -1)]);
}

#[test]
fn zero_length_edge_has_one_fragment() {
    let a = sv(5, 5, Color::new(9, 8, 7));
    let b = sv(5, 5, Color::new(200, 200, 200));
    let frags = renderer::line::line(&a, &b);
    assert_eq!(frags.len(), 1);
    assert_eq!((frags[0].x, frags[0].y), (5, 5));
    assert_eq!(frags[0].color, a.color);
    assert_eq!(frags[0].total_sq, 0);
}

#[test]
fn steep_edge_ends_at_target() {
    let c = Color::black();
    let frags = renderer::line::line(&sv(0, 0, c), &sv(1, 5, c));
    assert_eq!(frags.len(), 6);
    assert_eq!((frags[0].x, frags[0].y), (0, 0));
    assert_eq!((frags[5].x, frags[5].y), (1, 5));
    for w in frags.windows(2) {
        assert!((w[1].x - w[0].x).abs() <= 1 && (w[1].y - w[0].y).abs() == 1);
    }
}

#[test]
fn shallow_edge_right_to_left() {
    let c = Color::black();
    let frags = renderer::line::line(&sv(6, 2, c), &sv(0, 0, c));
    assert_eq!(frags.len(), 7);
    assert_eq!((frags[6].x, frags[6].y), (0, 0));
    for w in frags.windows(2) {
        assert_eq!(w[1].x - w[0].x, -1);
    }
}

#[test]
fn red_to_blue_edge_interpolates_color_and_depth() {
    let red = sv(0, 0, Color::new(255, 0, 0));
    let blue = sv(2, 0, Color::new(0, 0, 255));
    let (z0, z1) = (0.0f64, 10.0f64);
    let frags = renderer::line::line(&red, &blue);
    assert_eq!(positions(&frags), vec![(0, 0), (1, 0), (2, 0)]);
    assert_eq!(frags[0].color, Color::new(255, 0, 0));
    assert_eq!(frags[1].color, Color::new(127, 0, 127));
    assert_eq!(frags[2].color, Color::new(0, 0, 255));
    let depths: Vec<f64> = frags.iter().map(|f| z0 + t_of(f) * (z1 - z0)).collect();
    for (d, e) in depths.iter().zip([0.0, 5.0, 10.0].iter()) {
        assert!((d - e).abs() < 1e-9);
    }
}

#[test]
fn squared_distances_are_exact() {
    let c = Color::black();
    let frags = renderer::line::line(&sv(-1, -1, c), &sv(2, 3, c));
    assert_eq!(frags[0].covered_sq, 0);
    assert!(frags.iter().all(|f| f.total_sq == 25));
    let last = frags.last().unwrap();
    assert_eq!((last.x, last.y, last.covered_sq), (2, 3, 25));
}

#[test]
fn edge_at_coordinate_limits() {
    let c = Color::new(0, 0, 0);
    let a = sv(i32::MAX - 2, i32::MIN, c);
    let b = sv(i32::MAX, i32::MIN + 2, c);
    let frags = renderer::line::line(&a, &b);
    assert_eq!(positions(&frags), vec![(i32::MAX - 2, i32::MIN), (i32::MAX - 1, i32::MIN + 1), (i32::MAX, i32::MIN + 2)]);
    assert_eq!(frags[2].total_sq, 8);
}
