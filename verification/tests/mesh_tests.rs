use graphics_engine::geometry::Vector3;
use graphics_engine::object::{ColorMap, Face, Mesh, MeshColor, MeshError};

fn v(x: u32, y: u32, z: u32) -> Vector3<u32> {
    Vector3::new(x, y, z)
}

fn coords(p: &Vector3<u32>) -> (u32, u32, u32) {
    (p.x(), p.y(), p.z())
}

fn square() -> Mesh<u32> {
    // Two triangles that share an edge, with the shared corners repeated.
    let vertices = vec![v(0, 0, 0), v(1, 0, 0), v(1, 1, 0), v(0, 0, 0), v(1, 1, 0), v(0, 1, 0)];
    let faces: Vec<Face> = vec![(0, 1, 2), (3, 4, 5)];
    let normals = vec![v(0, 0, 1), v(0, 0, 2)];
    Mesh::try_new(vertices, faces, normals).unwrap()
}

#[test]
fn try_new_accepts_consistent_parts() {
    let m = square();
    assert_eq!(m.n_faces(), 2);
    assert_eq!(m.vertex_set().len(), 6);
    assert_eq!(m.face_set(), &vec![(0, 1, 2), (3, 4, 5)]);
    assert_eq!(m.normal_set().len(), 2);
}

#[test]
fn try_new_refuses_length_mismatch() {
    let r = Mesh::try_new(vec![v(0, 0, 0)], vec![(0, 0, 0)], vec![]);
    assert_eq!(r.err(), Some(MeshError::LengthMismatch));
}

#[test]
fn try_new_refuses_missing_vertex() {
    let r = Mesh::try_new(vec![v(0, 0, 0), v(1, 1, 1)], vec![(0, 1, 2)], vec![v(0, 0, 1)]);
    assert_eq!(r.err(), Some(MeshError::IndexOutOfRange));
}

#[test]
fn try_new_checks_lengths_before_indices() {
    let r = Mesh::try_new(vec![v(0, 0, 0)], vec![(0, 5, 0)], vec![]);
    assert_eq!(r.err(), Some(MeshError::LengthMismatch));
}

#[test]
fn try_new_accepts_empty_mesh() {
    let r: Result<Mesh<u32>, MeshError> = Mesh::try_new(vec![], vec![], vec![]);
    assert_eq!(r.unwrap().n_faces(), 0);
}

#[test]
fn optimize_merges_repeated_vertices() {
    let mut m = square();
    m.optimize();
    let verts: Vec<(u32, u32, u32)> = m.vertex_set().iter().map(coords).collect();
    assert_eq!(verts, vec![(0, 0, 0), (1, 0, 0), (1, 1, 0), (0, 1, 0)]);
    assert_eq!(m.face_set(), &vec![(0, 1, 2), (0, 2, 3)]);
    assert_eq!(m.normal_set().len(), 2);
    assert_eq!(m.normal_set()[1].z(), 2);
}

#[test]
fn optimize_twice_changes_nothing_more() {
    let mut m = square();
    m.optimize();
    let verts: Vec<(u32, u32, u32)> = m.vertex_set().iter().map(coords).collect();
    let faces = m.face_set().clone();
    m.optimize();
    let verts2: Vec<(u32, u32, u32)> = m.vertex_set().iter().map(coords).collect();
    assert_eq!(verts, verts2);
    assert_eq!(&faces, m.face_set());
}

#[test]
fn optimize_keeps_triangles() {
    let mut m = square();
    let before: Vec<_> = m.triangle_set().iter().map(|t| (coords(t.p1()), coords(t.p2()), coords(t.p3()))).collect();
    m.optimize();
    let after: Vec<_> = m.triangle_set().iter().map(|t| (coords(t.p1()), coords(t.p2()), coords(t.p3()))).collect();
    assert_eq!(before, after);
}

#[test]
fn optimize_by_key_uses_the_keys() {
    // Vertices with different coordinates but the same key are merged.
    let vertices = vec![Vector3::new(1i32, 0, 0), Vector3::new(2i32, 0, 0), Vector3::new(3i32, 0, 0)];
    let mut m = Mesh::try_new(vertices, vec![(0, 1, 2)], vec![Vector3::new(0i32, 0, 1)]).unwrap();
    let keys = vec![v(7, 7, 7), v(8, 8, 8), v(7, 7, 7)];
    m.optimize_by_key(&keys);
    let xs: Vec<i32> = m.vertex_set().iter().map(|p| p.x()).collect();
    assert_eq!(xs, vec![1, 2]);
    assert_eq!(m.face_set(), &vec![(0, 1, 0)]);
}

#[test]
fn reverse_reverses_faces_and_normals() {
    let mut m = square();
    m.reverse();
    assert_eq!(m.face_set(), &vec![(3, 4, 5), (0, 1, 2)]);
    assert_eq!(m.normal_set()[0].z(), 2);
    assert_eq!(m.normal_set()[1].z(), 1);
    m.reverse();
    assert_eq!(m.face_set(), &vec![(0, 1, 2), (3, 4, 5)]);
    assert_eq!(m.normal_set()[0].z(), 1);
}

#[test]
fn reorder_faces_applies_a_permutation() {
    let mut m = square();
    assert!(m.reorder_faces(&vec![1, 0]));
    assert_eq!(m.face_set(), &vec![(3, 4, 5), (0, 1, 2)]);
    assert_eq!(m.normal_set()[0].z(), 2);
}

#[test]
fn reorder_faces_refuses_non_permutations() {
    let mut m = square();
    assert!(!m.reorder_faces(&vec![0, 0]));
    assert!(!m.reorder_faces(&vec![0]));
    assert!(!m.reorder_faces(&vec![0, 2]));
    assert_eq!(m.face_set(), &vec![(0, 1, 2), (3, 4, 5)]);
}

#[test]
fn retain_faces_keeps_flagged_faces() {
    let mut m = square();
    m.retain_faces(&vec![false, true]);
    assert_eq!(m.face_set(), &vec![(3, 4, 5)]);
    assert_eq!(m.normal_set().len(), 1);
    assert_eq!(m.normal_set()[0].z(), 2);
    assert_eq!(m.vertex_set().len(), 6);
}

#[test]
fn map_vertices_and_normals() {
    let mut m = square();
    m.map_vertices(|p: Vector3<u32>| Vector3::new(p.x() + 10, p.y(), p.z()));
    assert_eq!(m.vertex_set()[1].x(), 11);
    m.map_normals(|p: Vector3<u32>| Vector3::new(p.x(), p.y(), p.z() * 3));
    assert_eq!(m.normal_set()[1].z(), 6);
    assert_eq!(m.face_set(), &vec![(0, 1, 2), (3, 4, 5)]);
}

#[test]
fn triangle_set_follows_faces() {
    let m = square();
    let ts = m.triangle_set();
    assert_eq!(ts.len(), 2);
    assert_eq!(coords(ts[1].p1()), (0, 0, 0));
    assert_eq!(coords(ts[1].p2()), (1, 1, 0));
    assert_eq!(coords(ts[1].p3()), (0, 1, 0));
    assert_eq!(coords(ts[1].normal()), (0, 0, 2));
}

#[test]
fn triangle_color_set_solid_and_per_vertex() {
    let m = square();
    let solid = m.triangle_color_set(&MeshColor::SolidColor('a'));
    assert_eq!(solid.len(), 2);
    assert_eq!((solid[0].1, solid[0].2, solid[0].3), ('a', 'a', 'a'));
    let map = MeshColor::VertexColorMap(ColorMap::new(vec!['a', 'b', 'c', 'd', 'e', 'f']));
    let colored = m.triangle_color_set(&map);
    assert_eq!((colored[1].1, colored[1].2, colored[1].3), ('d', 'e', 'f'));
    assert_eq!(coords(colored[0].0.p2()), (1, 0, 0));
}

#[test]
fn nan_vertices_are_never_merged() {
    let nan = 0x7fc0_0000u32;
    let vertices = vec![v(nan, 0, 0), v(nan, 0, 0), v(nan, 0, 0)];
    let mut m = Mesh::try_new(vertices, vec![(0, 1, 2)], vec![v(0, 0, 1)]).unwrap();
    m.optimize();
    assert_eq!(m.vertex_set().len(), 3);
    assert_eq!(m.face_set(), &vec![(0, 1, 2)]);
}

#[test]
fn negative_nan_and_infinity_patterns() {
    let neg_nan = 0xffc0_0001u32;
    let inf = 0x7f80_0000u32;
    let vertices = vec![v(0, neg_nan, 0), v(inf, 0, 0), v(0, neg_nan, 0), v(inf, 0, 0)];
    let mut m = Mesh::try_new(vertices, vec![(0, 1, 2), (2, 3, 0)], vec![v(0, 0, 1), v(0, 0, 1)]).unwrap();
    m.optimize();
    // Neither NaN nor infinite patterns are ever merged.
    assert_eq!(m.vertex_set().len(), 4);
    assert_eq!(m.face_set(), &vec![(0, 1, 2), (2, 3, 0)]);
}

#[test]
fn infinite_vertices_are_never_merged() {
    let neg_inf = 0xff80_0000u32;
    let big = 0x7f7f_ffffu32;
    let vertices = vec![v(neg_inf, 0, 0), v(neg_inf, 0, 0), v(big, 0, 0), v(big, 0, 0)];
    let mut m = Mesh::try_new(vertices, vec![(0, 1, 2), (1, 2, 3)], vec![v(0, 0, 1), v(0, 0, 1)]).unwrap();
    m.optimize();
    // The largest finite value still merges.
    assert_eq!(m.vertex_set().len(), 3);
    assert_eq!(m.face_set(), &vec![(0, 1, 2), (1, 2, 2)]);
}

#[test]
fn optimize_by_bit_keys_keeps_float_triangles() {
    let f = |x: f32, y: f32| Vector3::new(x, y, 0.0f32);
    let vertices = vec![f(0.0, 0.0), f(1.5, 0.0), f(1.5, 2.5), f(0.0, 0.0), f(1.5, 2.5), f(-0.0, 2.5)];
    let mut m = Mesh::try_new(vertices, vec![(0, 1, 2), (3, 4, 5)], vec![f(0.0, 0.0), f(0.0, 0.0)]).unwrap();
    let corners = |m: &Mesh<f32>| -> Vec<(u32, u32, u32)> {
        m.triangle_set()
            .iter()
            .flat_map(|t| [*t.p1(), *t.p2(), *t.p3()])
            .map(|p| (p.x().to_bits(), p.y().to_bits(), p.z().to_bits()))
            .collect()
    };
    let before = corners(&m);
    let keys: Vec<Vector3<u32>> =
        m.vertex_set().iter().map(|p| v(p.x().to_bits(), p.y().to_bits(), p.z().to_bits())).collect();
    m.optimize_by_key(&keys);
    assert_eq!(m.vertex_set().len(), 4);
    assert_eq!(corners(&m), before);
}
