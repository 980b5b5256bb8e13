use graphics_engine::object::Mesh;

fn xyz(m: &Mesh<i32>) -> Vec<(i32, i32, i32)> {
    m.vertex_set().iter().map(|p| (p.x(), p.y(), p.z())).collect()
}

#[test]
fn smallest_even_plane() {
    let m = Mesh::alternating_plane_grid(1, true);
    assert_eq!(
        xyz(&m),
        vec![(-1, 0, 0), (0, 0, 0), (-1, 1, 0), (0, 1, 0), (0, -1, 0), (1, -1, 0), (0, 0, 0), (1, 0, 0)]
    );
    assert_eq!(m.face_set(), &vec![(0, 1, 3), (0, 2, 3), (4, 5, 7), (4, 6, 7)]);
    assert!(m.normal_set().iter().all(|n| (n.x(), n.y(), n.z()) == (0, 0, 1)));
    assert_eq!(m.normal_set().len(), 4);
}

#[test]
fn smallest_odd_plane() {
    let m = Mesh::alternating_plane_grid(1, false);
    assert_eq!(
        xyz(&m),
        vec![(-1, -1, 0), (0, -1, 0), (-1, 0, 0), (0, 0, 0), (0, 0, 0), (1, 0, 0), (0, 1, 0), (1, 1, 0)]
    );
    assert_eq!(m.n_faces(), 4);
}

#[test]
fn planes_share_the_board() {
    for n in 1..6 {
        let even = Mesh::alternating_plane_grid(n, true);
        let odd = Mesh::alternating_plane_grid(n, false);
        let squares = (2 * n * 2 * n) as usize;
        assert_eq!(even.n_faces() + odd.n_faces(), 2 * squares);
        assert_eq!(even.vertex_set().len() + odd.vertex_set().len(), 4 * squares);
        let mut lower: Vec<(i32, i32)> = Vec::new();
        for m in [&even, &odd] {
            for s in 0..m.vertex_set().len() / 4 {
                let p = &m.vertex_set()[4 * s];
                lower.push((p.x(), p.y()));
            }
        }
        lower.sort();
        lower.dedup();
        assert_eq!(lower.len(), squares);
    }
}

#[test]
fn empty_plane_for_non_positive_size() {
    assert_eq!(Mesh::alternating_plane_grid(0, true).n_faces(), 0);
    assert_eq!(Mesh::alternating_plane_grid(-3, false).vertex_set().len(), 0);
}

#[test]
fn plane_vertices_merge_at_shared_corners() {
    let mut m = Mesh::alternating_plane_grid(1, true);
    let keys: Vec<_> = m
        .vertex_set()
        .iter()
        .map(|p| graphics_engine::geometry::Vector3::new(p.x() as u32, p.y() as u32, p.z() as u32))
        .collect();
    m.optimize_by_key(&keys);
    assert_eq!(m.vertex_set().len(), 7);
    assert_eq!(m.face_set()[2], (4, 5, 6));
    assert_eq!(m.face_set()[3], (4, 1, 6));
}
