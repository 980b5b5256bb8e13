//! Points in three dimensions and triangles built from them.
use vstd::prelude::*;

verus! {

/// A point or direction in three dimensions.
#[derive(Clone, Copy)]
pub struct Vector3<T> {
    pub x: T,
    pub y: T,
    pub z: T,
}

impl<T: Copy> Vector3<T> {
    /// The vector with the given coordinates.
    pub fn new(x: T, y: T, z: T) -> (v: Self)
        ensures
            v == (Vector3 { x, y, z }),
    {
        Vector3 { x, y, z }
    }

    pub fn x(&self) -> (r: T)
        ensures
            r == self.x,
    {
        self.x
    }

    pub fn set_x(&mut self, value: T)
        ensures
            *final(self) == (Vector3 { x: value, ..*old(self) }),
    {
        self.x = value;
    }

    pub fn y(&self) -> (r: T)
        ensures
            r == self.y,
    {
        self.y
    }

    pub fn set_y(&mut self, value: T)
        ensures
            *final(self) == (Vector3 { y: value, ..*old(self) }),
    {
        self.y = value;
    }

    pub fn z(&self) -> (r: T)
        ensures
            r == self.z,
    {
        self.z
    }

    pub fn set_z(&mut self, value: T)
        ensures
            *final(self) == (Vector3 { z: value, ..*old(self) }),
    {
        self.z = value;
    }
}

impl<T: Copy + From<u8>> Vector3<T> {
    /// The vector whose three coordinates are `T::from(0u8)`.
    pub fn zero() -> (v: Self)
        ensures
            <T as vstd::std_specs::convert::FromSpec<u8>>::obeys_from_spec() ==> v == (Vector3 {
                x: <T as vstd::std_specs::convert::FromSpec<u8>>::from_spec(0u8),
                y: <T as vstd::std_specs::convert::FromSpec<u8>>::from_spec(0u8),
                z: <T as vstd::std_specs::convert::FromSpec<u8>>::from_spec(0u8),
            }),
    {
        Vector3::new(T::from(0u8), T::from(0u8), T::from(0u8))
    }
}

/// A triangle given by its three corners and its normal.
#[derive(Clone, Copy)]
pub struct Triangle<T> {
    p1: Vector3<T>,
    p2: Vector3<T>,
    p3: Vector3<T>,
    normal: Vector3<T>,
}

/// The corners and the normal of a triangle, in the order `p1`, `p2`,
/// `p3`, `normal`.
pub type TriangleView<T> = (Vector3<T>, Vector3<T>, Vector3<T>, Vector3<T>);

impl<T> View for Triangle<T> {
    type V = TriangleView<T>;

    closed spec fn view(&self) -> TriangleView<T> {
        (self.p1, self.p2, self.p3, self.normal)
    }
}

impl<T: Copy> Triangle<T> {
    pub fn new(p1: Vector3<T>, p2: Vector3<T>, p3: Vector3<T>, normal: Vector3<T>) -> (t: Self)
        ensures
            t@ == (p1, p2, p3, normal),
    {
        Triangle { p1, p2, p3, normal }
    }

    pub fn normal(&self) -> (r: &Vector3<T>)
        ensures
            *r == self@.3,
    {
        &self.normal
    }

    pub fn p1(&self) -> (r: &Vector3<T>)
        ensures
            *r == self@.0,
    {
        &self.p1
    }

    pub fn set_p1(&mut self, value: Vector3<T>)
        ensures
            final(self)@ == (value, old(self)@.1, old(self)@.2, old(self)@.3),
    {
        self.p1 = value;
    }

    pub fn p2(&self) -> (r: &Vector3<T>)
        ensures
            *r == self@.1,
    {
        &self.p2
    }

    pub fn set_p2(&mut self, value: Vector3<T>)
        ensures
            final(self)@ == (old(self)@.0, value, old(self)@.2, old(self)@.3),
    {
        self.p2 = value;
    }

    pub fn p3(&self) -> (r: &Vector3<T>)
        ensures
            *r == self@.2,
    {
        &self.p3
    }

    pub fn set_p3(&mut self, value: Vector3<T>)
        ensures
            final(self)@ == (old(self)@.0, old(self)@.1, value, old(self)@.3),
    {
        self.p3 = value;
    }
}

} // verus!
