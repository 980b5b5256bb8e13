use graphics_engine::geometry::Vector3;
use graphics_engine::object::Mesh;
use graphics_engine::order::painter_order;

#[test]
fn painter_order_descends_and_keeps_ties() {
    let keys = vec![3u32, 9, 3, 1, 9, 5];
    assert_eq!(painter_order(&keys), vec![1, 4, 5, 0, 2, 3]);
}

#[test]
fn painter_order_of_nothing_and_one() {
    assert_eq!(painter_order(&vec![]), Vec::<usize>::new());
    assert_eq!(painter_order(&vec![42]), vec![0]);
}

#[test]
fn painter_order_all_equal_keeps_order() {
    assert_eq!(painter_order(&vec![7u32; 5]), vec![0, 1, 2, 3, 4]);
}

#[test]
fn painter_order_large_input_is_sorted() {
    let keys: Vec<u32> = (0..1000u32).map(|i| (i * 7919) % 101).collect();
    let order = painter_order(&keys);
    assert_eq!(order.len(), 1000);
    for w in order.windows(2) {
        let (a, b) = (w[0], w[1]);
        assert!(keys[a] > keys[b] || (keys[a] == keys[b] && a < b));
    }
}

#[test]
fn sort_faces_by_depth_moves_normals_with_faces() {
    let v = |x: u32| Vector3::new(x, 0u32, 0u32);
    let mut m = Mesh::try_new(
        vec![v(0), v(1), v(2)],
        vec![(0, 0, 0), (1, 1, 1), (2, 2, 2)],
        vec![v(10), v(11), v(12)],
    )
    .unwrap();
    m.sort_faces_by_depth(&vec![1, 5, 1]);
    assert_eq!(m.face_set(), &vec![(1, 1, 1), (0, 0, 0), (2, 2, 2)]);
    let xs: Vec<u32> = m.normal_set().iter().map(|n| n.x()).collect();
    assert_eq!(xs, vec![11, 10, 12]);
}
