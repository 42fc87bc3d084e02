use raytracing_study::{mesh_triangles, next_bounce, trace_step, Bounce, Radiance, MAX_BOUNCE, MAX_DEPTH};

#[test]
fn a_scattered_surviving_path_goes_on() {
    assert_eq!(next_bounce(0, Bounce::Scattered, true), Some(1));
    assert_eq!(next_bounce(48, Bounce::Scattered, true), Some(49));
}

#[test]
fn a_path_stops_at_the_bounce_cap() {
    assert_eq!(MAX_BOUNCE, 50);
    assert_eq!(next_bounce(49, Bounce::Scattered, true), None);
}

#[test]
fn a_path_stops_on_miss_absorption_zero_pdf_or_roulette() {
    assert_eq!(next_bounce(3, Bounce::Miss, true), None);
    assert_eq!(next_bounce(3, Bounce::Absorbed, true), None);
    assert_eq!(next_bounce(3, Bounce::ZeroPdf, true), None);
    assert_eq!(next_bounce(3, Bounce::Scattered, false), None);
}

#[test]
fn recursion_depth_and_outcomes() {
    assert_eq!(MAX_DEPTH, 10);
    assert_eq!(trace_step(0, Bounce::Miss), Radiance::Background);
    assert_eq!(trace_step(0, Bounce::Scattered), Radiance::Trace(1));
    assert_eq!(trace_step(10, Bounce::Scattered), Radiance::Trace(11));
    assert_eq!(trace_step(11, Bounce::Scattered), Radiance::Zero);
    assert_eq!(trace_step(11, Bounce::Miss), Radiance::Zero);
    assert_eq!(trace_step(4, Bounce::Absorbed), Radiance::Zero);
    assert_eq!(trace_step(4, Bounce::ZeroPdf), Radiance::Zero);
}

#[test]
fn index_buffer_becomes_coordinate_offsets() {
    let indices = vec![0, 1, 2, 2, 1, 3];
    let tris = mesh_triangles(&indices, 12, 12).unwrap();
    assert_eq!(tris, vec![[0, 3, 6], [6, 3, 9]]);
    assert_eq!(mesh_triangles(&Vec::new(), 0, 0), Some(Vec::new()));
}

#[test]
fn malformed_index_buffers_are_refused() {
    assert_eq!(mesh_triangles(&vec![0, 1], 12, 12), None);
    assert_eq!(mesh_triangles(&vec![0, 1, 4], 12, 12), None);
    assert_eq!(mesh_triangles(&vec![0, 1, 3], 12, 9), None);
    assert_eq!(mesh_triangles(&vec![0, 1, 3], 9, 12), None);
    assert_eq!(mesh_triangles(&vec![0, 1, 3], 12, 12).map(|t| t.len()), Some(1));
}
