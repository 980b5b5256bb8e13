use graphics_engine::object::Mesh;
use graphics_engine::stl::StlError;

fn push_vec(bytes: &mut Vec<u8>, v: [f32; 3]) {
    for c in v {
        bytes.extend_from_slice(&c.to_le_bytes());
    }
}

fn stl(triangles: &[([f32; 3], [[f32; 3]; 3])]) -> Vec<u8> {
    let mut bytes = vec![0u8; 80];
    bytes.extend_from_slice(&(triangles.len() as u32).to_le_bytes());
    for (normal, corners) in triangles {
        push_vec(&mut bytes, *normal);
        for c in corners {
            push_vec(&mut bytes, *c);
        }
        bytes.extend_from_slice(&0u16.to_le_bytes());
    }
    bytes
}

fn floats(v: &graphics_engine::geometry::Vector3<u32>) -> (f32, f32, f32) {
    (f32::from_bits(v.x()), f32::from_bits(v.y()), f32::from_bits(v.z()))
}

#[test]
fn single_triangle() {
    let bytes = stl(&[([0.0, 0.0, 1.0], [[0.0, 0.0, 0.0], [1.0, 0.0, 0.0], [0.0, 1.0, 0.0]])]);
    let m = Mesh::try_from_stl_bytes(&bytes).unwrap();
    assert_eq!(m.n_faces(), 1);
    assert_eq!(m.face_set(), &vec![(0, 1, 2)]);
    let verts: Vec<_> = m.vertex_set().iter().map(floats).collect();
    assert_eq!(verts, vec![(0.0, 0.0, 0.0), (1.0, 0.0, 0.0), (0.0, 1.0, 0.0)]);
    assert_eq!(floats(&m.normal_set()[0]), (0.0, 0.0, 1.0));
}

#[test]
fn words_are_little_endian() {
    let bytes = stl(&[([0.5, -2.0, 3.0], [[1.5, 2.5, 3.5], [4.0, 5.0, 6.0], [7.0, 8.0, 9.0]])]);
    let m = Mesh::try_from_stl_bytes(&bytes).unwrap();
    assert_eq!(m.normal_set()[0].x(), 0.5f32.to_bits());
    assert_eq!(floats(&m.normal_set()[0]), (0.5, -2.0, 3.0));
    assert_eq!(floats(&m.vertex_set()[0]), (1.5, 2.5, 3.5));
    assert_eq!(floats(&m.vertex_set()[2]), (7.0, 8.0, 9.0));
}

#[test]
fn shared_corners_are_merged() {
    let bytes = stl(&[
        ([0.0, 0.0, 1.0], [[0.0, 0.0, 0.0], [1.0, 0.0, 0.0], [1.0, 1.0, 0.0]]),
        ([0.0, 0.0, 1.0], [[0.0, 0.0, 0.0], [1.0, 1.0, 0.0], [0.0, 1.0, 0.0]]),
    ]);
    let m = Mesh::try_from_stl_bytes(&bytes).unwrap();
    assert_eq!(m.vertex_set().len(), 4);
    assert_eq!(m.face_set(), &vec![(0, 1, 2), (0, 2, 3)]);
    assert_eq!(m.normal_set().len(), 2);
}

#[test]
fn empty_file_with_zero_triangles() {
    let bytes = stl(&[]);
    let m = Mesh::try_from_stl_bytes(&bytes).unwrap();
    assert_eq!(m.n_faces(), 0);
    assert_eq!(m.vertex_set().len(), 0);
}

#[test]
fn trailing_bytes_are_ignored() {
    let mut bytes = stl(&[([0.0, 0.0, 1.0], [[0.0, 0.0, 0.0], [1.0, 0.0, 0.0], [0.0, 1.0, 0.0]])]);
    bytes.extend_from_slice(&[1, 2, 3]);
    let m = Mesh::try_from_stl_bytes(&bytes).unwrap();
    assert_eq!(m.n_faces(), 1);
}

#[test]
fn short_header_is_refused() {
    assert_eq!(Mesh::try_from_stl_bytes(&[0u8; 50]).err(), Some(StlError::UnexpectedEof));
    assert_eq!(Mesh::try_from_stl_bytes(&[0u8; 83]).err(), Some(StlError::UnexpectedEof));
}

#[test]
fn missing_triangle_record_is_refused() {
    let mut bytes = stl(&[([0.0, 0.0, 1.0], [[0.0, 0.0, 0.0], [1.0, 0.0, 0.0], [0.0, 1.0, 0.0]])]);
    bytes.pop();
    assert_eq!(Mesh::try_from_stl_bytes(&bytes).err(), Some(StlError::UnexpectedEof));
    let mut announced_two = stl(&[([0.0, 0.0, 1.0], [[0.0, 0.0, 0.0], [1.0, 0.0, 0.0], [0.0, 1.0, 0.0]])]);
    announced_two[80] = 2;
    assert_eq!(Mesh::try_from_stl_bytes(&announced_two).err(), Some(StlError::UnexpectedEof));
}

#[test]
fn nan_corners_stay_apart() {
    let n = f32::NAN;
    let bytes = stl(&[([0.0, 0.0, 1.0], [[n, 0.0, 0.0], [n, 0.0, 0.0], [n, 0.0, 0.0]])]);
    let m = Mesh::try_from_stl_bytes(&bytes).unwrap();
    assert_eq!(m.vertex_set().len(), 3);
    assert_eq!(m.face_set(), &vec![(0, 1, 2)]);
}

#[test]
fn infinite_corners_stay_apart() {
    let i = f32::INFINITY;
    let bytes = stl(&[([0.0, 0.0, 1.0], [[i, 0.0, 0.0], [i, 0.0, 0.0], [0.0, 0.0, 0.0]])]);
    let m = Mesh::try_from_stl_bytes(&bytes).unwrap();
    assert_eq!(m.vertex_set().len(), 3);
    assert_eq!(m.face_set(), &vec![(0, 1, 2)]);
}
