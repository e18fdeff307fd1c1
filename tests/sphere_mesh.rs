use std::collections::HashMap;

use asteroid_gen::sphere_mesh::SphereMesh;

fn expected_vertex_count(r: usize) -> usize {
    8 * ((r + 3) * (r + 2) / 2) - 12 * (r + 2) + 6
}

fn edge_uses(indices: &[u32]) -> HashMap<(u32, u32), usize> {
    let mut uses = HashMap::new();
    for tri in indices.chunks(3) {
        for (a, b) in [(tri[0], tri[1]), (tri[1], tri[2]), (tri[2], tri[0])] {
            let key = if a < b { (a, b) } else { (b, a) };
            *uses.entry(key).or_insert(0) += 1;
        }
    }
    uses
}

#[test]
fn octahedron_at_resolution_zero() {
    let mesh = SphereMesh::new(0);
    assert_eq!(mesh.vertex_count(), 6);
    assert_eq!(mesh.triangle_count(), 8);
    assert_eq!(mesh.indices.len(), 24);
    assert!(mesh.recipes.is_empty());
    assert_eq!(
        mesh.indices,
        vec![0, 2, 1, 0, 3, 2, 0, 4, 3, 0, 1, 4, 5, 1, 2, 5, 2, 3, 5, 3, 4, 5, 4, 1]
    );
}

#[test]
fn vertex_count_follows_closed_form() {
    for r in 0..12 {
        let mesh = SphereMesh::new(r);
        assert_eq!(mesh.vertex_count(), expected_vertex_count(r));
        assert_eq!(mesh.vertex_count(), 4 * r * r + 8 * r + 6);
        assert_eq!(mesh.triangle_count(), 8 * (r + 1) * (r + 1));
        assert_eq!(mesh.indices.len(), 24 * (r + 1) * (r + 1));
    }
}

#[test]
fn vertex_count_at_pipeline_resolution() {
    let mesh = SphereMesh::new(400);
    assert_eq!(mesh.vertex_count(), 643_206);
    assert_eq!(mesh.triangle_count(), 8 * 401 * 401);
}

#[test]
fn every_edge_is_shared_by_two_triangles() {
    for r in 0..8 {
        let mesh = SphereMesh::new(r);
        let uses = edge_uses(&mesh.indices);
        assert!(uses.values().all(|&n| n == 2), "resolution {r}");
        // A closed triangulated sphere satisfies V - E + F = 2.
        let v = mesh.vertex_count() as i64;
        let e = uses.len() as i64;
        let f = mesh.triangle_count() as i64;
        assert_eq!(v - e + f, 2);
    }
}

#[test]
fn indices_in_range_and_no_orphans() {
    for r in 0..8 {
        let mesh = SphereMesh::new(r);
        let n = mesh.vertex_count();
        let mut used = vec![false; n];
        for &i in &mesh.indices {
            assert!((i as usize) < n);
            used[i as usize] = true;
        }
        assert!(used.iter().all(|&u| u));
    }
}

#[test]
fn no_degenerate_triangles() {
    let mesh = SphereMesh::new(5);
    for tri in mesh.indices.chunks(3) {
        assert!(tri[0] != tri[1] && tri[1] != tri[2] && tri[0] != tri[2]);
    }
}

#[test]
fn edge_points_are_placed_along_their_edge() {
    let mesh = SphereMesh::new(1);
    assert_eq!(mesh.vertex_count(), 18);
    // Vertex 6 is the middle of the edge from up (0) to left (1).
    let first = mesh.recipes[0];
    assert_eq!((first.from, first.to, first.step, first.steps), (0, 1, 1, 2));
    // Vertex 17 is the middle of the edge from down (5) to forward (4).
    let last = mesh.recipes[11];
    assert_eq!((last.from, last.to, last.step, last.steps), (5, 4, 1, 2));
}

#[test]
fn face_interior_points_are_interpolated_across_rows() {
    let r = 3;
    let mesh = SphereMesh::new(r);
    // The first interior point of face 0 sits in grid row 2, between the
    // second points of edges 0 (up-left) and 1 (up-back).
    let inner = mesh.recipes[12 * r];
    assert_eq!((inner.from, inner.to, inner.step, inner.steps), (7, 10, 1, 2));
    // Every recipe refers only to vertices that exist before it.
    for (k, rec) in mesh.recipes.iter().enumerate() {
        let v = (k + 6) as u32;
        assert!(rec.from < v && rec.to < v);
        assert!(rec.step >= 1 && rec.step < rec.steps);
    }
}

#[test]
fn build_is_deterministic() {
    let a = SphereMesh::new(6);
    let b = SphereMesh::new(6);
    assert_eq!(a.indices, b.indices);
    assert_eq!(a.recipes, b.recipes);
}

#[test]
fn supported_resolutions_follow_the_u32_limit() {
    assert!(SphereMesh::supports(0));
    assert!(SphereMesh::supports(8193));
    assert!(SphereMesh::supports(32766));
    assert!(!SphereMesh::supports(32767));
    assert!(!SphereMesh::supports(usize::MAX));
    assert_eq!(asteroid_gen::sphere_mesh::MAX_RESOLUTION, 32766);
}
