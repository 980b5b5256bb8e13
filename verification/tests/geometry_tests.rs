use graphics_engine::geometry::{Triangle, Vector3};

#[test]
fn vector_getters_return_coordinates() {
    let v = Vector3::new(1.5f32, -2.0, 3.25);
    assert_eq!(v.x(), 1.5);
    assert_eq!(v.y(), -2.0);
    assert_eq!(v.z(), 3.25);
}

#[test]
fn vector_setters_change_one_coordinate() {
    let mut v = Vector3::new(1i32, 2, 3);
    v.set_x(10);
    assert_eq!((v.x(), v.y(), v.z()), (10, 2, 3));
    v.set_y(20);
    assert_eq!((v.x(), v.y(), v.z()), (10, 20, 3));
    v.set_z(30);
    assert_eq!((v.x(), v.y(), v.z()), (10, 20, 30));
}

#[test]
fn zero_vector_is_all_zero() {
    let v: Vector3<f32> = Vector3::zero();
    assert_eq!((v.x(), v.y(), v.z()), (0.0, 0.0, 0.0));
    let w: Vector3<u32> = Vector3::zero();
    assert_eq!((w.x(), w.y(), w.z()), (0, 0, 0));
}

#[test]
fn triangle_getters_and_setters() {
    let a = Vector3::new(0i32, 0, 0);
    let b = Vector3::new(1i32, 0, 0);
    let c = Vector3::new(0i32, 1, 0);
    let n = Vector3::new(0i32, 0, 1);
    let mut t = Triangle::new(a, b, c, n);
    assert_eq!(t.p1().x(), 0);
    assert_eq!(t.p2().x(), 1);
    assert_eq!(t.p3().y(), 1);
    assert_eq!(t.normal().z(), 1);
    t.set_p1(Vector3::new(5, 5, 5));
    t.set_p2(Vector3::new(6, 6, 6));
    t.set_p3(Vector3::new(7, 7, 7));
    assert_eq!((t.p1().x(), t.p2().y(), t.p3().z()), (5, 6, 7));
    assert_eq!(t.normal().z(), 1);
}
