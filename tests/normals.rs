use asteroid_gen::normals::{accumulate_normals, NormalAccumulator};
use asteroid_gen::sphere_mesh::SphereMesh;

fn acc(x: i32, y: i32, z: i32) -> NormalAccumulator {
    NormalAccumulator { x, y, z }
}

#[test]
fn accumulators_sum_face_normals_per_vertex() {
    // Two triangles sharing the edge 1-2.
    let indices = vec![0, 1, 2, 2, 1, 3];
    let faces = vec![acc(1, 2, 3), acc(10, 20, 30)];
    let r = accumulate_normals(&indices, &faces, 5);
    assert_eq!(r, vec![acc(1, 2, 3), acc(11, 22, 33), acc(11, 22, 33), acc(10, 20, 30), acc(0, 0, 0)]);
}

#[test]
fn accumulation_is_independent_of_triangle_order() {
    let mesh = SphereMesh::new(3);
    let t = mesh.triangle_count();
    let faces: Vec<NormalAccumulator> =
        (0..t).map(|i| acc(i as i32 * 7 - 50, 3 - i as i32, (i as i32 * 13) % 17)).collect();
    let forward = accumulate_normals(&mesh.indices, &faces, mesh.vertex_count());
    let mut rev_indices = Vec::new();
    let mut rev_faces = Vec::new();
    for i in (0..t).rev() {
        rev_indices.extend_from_slice(&mesh.indices[3 * i..3 * i + 3]);
        rev_faces.push(faces[i]);
    }
    let backward = accumulate_normals(&rev_indices, &rev_faces, mesh.vertex_count());
    assert_eq!(forward, backward);
}

#[test]
fn accumulation_wraps_like_an_atomic_add() {
    let indices = vec![0, 1, 2, 0, 2, 3];
    let faces = vec![acc(i32::MAX, i32::MIN, 5), acc(1, -1, -5)];
    let r = accumulate_normals(&indices, &faces, 4);
    assert_eq!(r[0], acc(i32::MIN, i32::MAX, 0));
    assert_eq!(r[1], acc(i32::MAX, i32::MIN, 5));
}

#[test]
fn add_single() {
    let mut a = NormalAccumulator::zero();
    a.add(&acc(4, -5, 6));
    a.add(&acc(1, 1, 1));
    assert_eq!(a, acc(5, -4, 7));
}
