use renderer::color::Color;
use renderer::line::{Fragment, ScreenVertex};
use renderer::pipeline::{assemble_primitives, fragment_writes, rasterize_triangle, render_frame, PixelWrite};

fn sv(x: i32, y: i32) -> ScreenVertex {
    ScreenVertex { x, y, color: Color::new(x as u8, y as u8, 0) }
}

#[test]
fn seven_vertices_make_two_triangles() {
    let vs: Vec<ScreenVertex> = (0..7).map(|i| sv(i, 0)).collect();
    let tris = assemble_primitives(&vs);
    assert_eq!(tris.len(), 2);
    assert_eq!(tris[0], (vs[0], vs[1], vs[2]));
    assert_eq!(tris[1], (vs[3], vs[4], vs[5]));
}

#[test]
fn fewer_than_three_vertices_make_none() {
    assert!(assemble_primitives(&[]).is_empty());
    assert!(assemble_primitives(&[sv(0, 0), sv(1, 1)]).is_empty());
}

#[test]
fn triangle_edges_in_order() {
    let frags = rasterize_triangle((sv(0, 0), sv(2, 0), sv(0, 2)));
    let pos: Vec<(i32, i32)> = frags.iter().map(|f| (f.x, f.y)).collect();
    assert_eq!(
        pos,
        vec![(0, 0), (1, 0), (2, 0), (2, 0), (1, 1), (0, 2), (0, 2), (0, 1), (0, 0)]
    );
}

#[test]
fn writes_pack_color() {
    let f = Fragment { x: 1, y: 2, color: Color::new(255, 0, 0), covered_sq: 0, total_sq: 0 };
    assert_eq!(fragment_writes(4, 4, &[f]), vec![PixelWrite { x: 1, y: 2, color: 0xFF0000 }]);
}

#[test]
fn far_vertex_is_clipped() {
    let (w, h) = (10usize, 10usize);
    let frags = rasterize_triangle((sv(0, 0), sv(1000, 0), sv(0, 5)));
    let writes = fragment_writes(w, h, &frags);
    assert!(writes.iter().all(|p| p.x < w && p.y < h));
    let kept: Vec<PixelWrite> = frags
        .iter()
        .filter(|f| f.x >= 0 && (f.x as usize) < w && f.y >= 0 && (f.y as usize) < h)
        .map(|f| PixelWrite { x: f.x as usize, y: f.y as usize, color: f.color.to_hex() })
        .collect();
    assert!(kept.len() > 0 && kept.len() < frags.len());
    assert_eq!(writes, kept);
}

#[test]
fn negative_coordinates_are_dropped() {
    let f = Fragment { x: -1, y: 0, color: Color::black(), covered_sq: 0, total_sq: 0 };
    let g = Fragment { x: 0, y: -3, color: Color::black(), covered_sq: 0, total_sq: 0 };
    assert!(fragment_writes(4, 4, &[f, g]).is_empty());
}

#[test]
fn render_frame_draws_each_triangle() {
    let vs = vec![sv(0, 0), sv(2, 0), sv(0, 2), sv(3, 3), sv(3, 3), sv(3, 3), sv(9, 9)];
    let writes = render_frame(8, 8, &vs);
    assert_eq!(writes.len(), 9 + 3);
    assert_eq!(writes[9], PixelWrite { x: 3, y: 3, color: Color::new(3, 3, 0).to_hex() });
    assert_eq!(writes[0], PixelWrite { x: 0, y: 0, color: 0 });
}

#[test]
fn render_frame_of_empty_input() {
    assert!(render_frame(8, 8, &[]).is_empty());
}
