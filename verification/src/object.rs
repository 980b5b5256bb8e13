//! Triangle meshes: vertices, faces that index them, and one normal per face.
use vstd::prelude::*;

use crate::geometry::{Triangle, TriangleView, Vector3};
use std::collections::HashMap;

verus! {

broadcast use vstd::std_specs::hash::group_hash_axioms;

/// A face of a mesh: the indices of its three corners in the vertex list.
pub type Face = (usize, usize, usize);

/// `true` when the three corners of `f` are indices below `n`.
pub open spec fn face_in_range(f: Face, n: int) -> bool {
    &&& f.0 < n
    &&& f.1 < n
    &&& f.2 < n
}

/// `true` when every face of `faces` indexes a vertex below `n`.
pub open spec fn faces_in_range(faces: Seq<Face>, n: int) -> bool {
    forall|i: int| 0 <= i < faces.len() ==> #[trigger] face_in_range(faces[i], n)
}

/// What a mesh holds: its vertices, its faces, and the normal of each face.
#[verifier::ext_equal]
pub struct MeshView<T> {
    pub vertices: Seq<Vector3<T>>,
    pub faces: Seq<Face>,
    pub normals: Seq<Vector3<T>>,
}

impl<T> MeshView<T> {
    /// A mesh is well formed when it has one normal per face and every
    /// face indexes existing vertices.
    pub open spec fn wf(self) -> bool {
        &&& self.faces.len() == self.normals.len()
        &&& faces_in_range(self.faces, self.vertices.len() as int)
    }

    /// The same mesh with its faces, and their normals, in reverse order.
    pub open spec fn reversed(self) -> MeshView<T> {
        MeshView { vertices: self.vertices, faces: self.faces.reverse(), normals: self.normals.reverse() }
    }

    /// The triangle that face `i` spans, with its normal.
    pub open spec fn triangle(self, i: int) -> TriangleView<T> {
        let f = self.faces[i];
        (self.vertices[f.0 as int], self.vertices[f.1 as int], self.vertices[f.2 as int], self.normals[i])
    }
}

/// `true` when `order` lists each of `0..n` exactly once.
pub open spec fn is_permutation(order: Seq<usize>, n: int) -> bool {
    &&& order.len() == n
    &&& forall|k: int| 0 <= k < n ==> #[trigger] order[k] < n
    &&& order.no_duplicates()
}

/// The elements of `s` whose flag in `keep` is set, in their order.
pub open spec fn kept<A>(s: Seq<A>, keep: Seq<bool>) -> Seq<A>
    decreases s.len(),
{
    if s.len() == 0 {
        Seq::empty()
    } else {
        let prev = kept(s.drop_last(), keep);
        if keep[s.len() - 1] {
            prev.push(s.last())
        } else {
            prev
        }
    }
}

impl<T> MeshView<T> {
    /// The mesh whose face `k`, with its normal, is face `order[k]` of this
    /// one.
    pub open spec fn permuted(self, order: Seq<usize>) -> MeshView<T> {
        MeshView {
            vertices: self.vertices,
            faces: Seq::new(order.len(), |k: int| self.faces[order[k] as int]),
            normals: Seq::new(order.len(), |k: int| self.normals[order[k] as int]),
        }
    }

    /// The mesh that keeps face `k`, with its normal, when `keep[k]` is set.
    pub open spec fn filtered(self, keep: Seq<bool>) -> MeshView<T> {
        MeshView { vertices: self.vertices, faces: kept(self.faces, keep), normals: kept(self.normals, keep) }
    }
}

/// How the vertices of a mesh are coloured: all alike, or each with the
/// colour at its index in a colour map.
#[derive(Clone)]
pub enum MeshColor<C> {
    SolidColor(C),
    VertexColorMap(ColorMap<C>),
}

/// One colour per vertex, by vertex index.
#[derive(Clone)]
pub struct ColorMap<C> {
    colors: Vec<C>,
}

impl<C> View for ColorMap<C> {
    type V = Seq<C>;

    closed spec fn view(&self) -> Seq<C> {
        self.colors@
    }
}

impl<C> ColorMap<C> {
    /// The colour map whose colour for vertex `i` is `colors[i]`.
    pub fn new(colors: Vec<C>) -> (m: Self)
        ensures
            m@ == colors@,
    {
        ColorMap { colors }
    }

    /// The colours, by vertex index.
    pub fn colors(&self) -> (r: &Vec<C>)
        ensures
            r@ == self@,
    {
        &self.colors
    }
}

/// The colour that `color` gives vertex `v`.
pub open spec fn vertex_color<C>(color: MeshColor<C>, v: int) -> C {
    match color {
        MeshColor::SolidColor(c) => c,
        MeshColor::VertexColorMap(map) => map@[v],
    }
}

/// `true` when `color` has a colour for every vertex that `faces` names.
pub open spec fn colors_every_corner<C>(color: MeshColor<C>, faces: Seq<Face>) -> bool {
    match color {
        MeshColor::SolidColor(_) => true,
        MeshColor::VertexColorMap(map) => faces_in_range(faces, map@.len() as int),
    }
}

/// Why a mesh could not be built from its parts.
#[derive(Debug, Clone, Copy, PartialEq, Eq)]
pub enum MeshError {
    /// The face list and the normal list have different lengths.
    LengthMismatch,
    /// A face refers to a vertex that does not exist.
    IndexOutOfRange,
}

/// A triangle mesh: a vertex list, faces given as triples of vertex
/// indices, and one normal per face.
pub struct Mesh<T> {
    vertex_set: Vec<Vector3<T>>,
    face_set: Vec<Face>,
    normal_set: Vec<Vector3<T>>,
}

impl<T> View for Mesh<T> {
    type V = MeshView<T>;

    closed spec fn view(&self) -> MeshView<T> {
        MeshView { vertices: self.vertex_set@, faces: self.face_set@, normals: self.normal_set@ }
    }
}

impl<T> Mesh<T> {
    #[verifier::type_invariant]
    spec fn well_formed(self) -> bool {
        self@.wf()
    }
}

/// A copy of `v`, element by element.
fn copy_vec<A: Copy>(v: &Vec<A>) -> (r: Vec<A>)
    ensures
        r@ == v@,
{
    let mut r: Vec<A> = Vec::new();
    let mut k: usize = 0;
    while k < v.len()
        invariant
            k <= v@.len(),
            r@ == v@.take(k as int),
        decreases v@.len() - k,
    {
        r.push(v[k]);
        k += 1;
        assert(r@ =~= v@.take(k as int));
    }
    assert(r@ =~= v@);
    r
}

impl<T: Copy> Clone for Mesh<T> {
    fn clone(&self) -> (r: Self)
        ensures
            r@ == self@,
    {
        proof {
            use_type_invariant(self);
        }
        Mesh {
            vertex_set: copy_vec(&self.vertex_set),
            face_set: copy_vec(&self.face_set),
            normal_set: copy_vec(&self.normal_set),
        }
    }
}

impl<T: Copy> Mesh<T> {
    /// Builds a mesh from its parts, refusing face and normal lists of
    /// different lengths and faces that refer to missing vertices.
    pub fn try_new(
        vertex_set: Vec<Vector3<T>>,
        face_set: Vec<Face>,
        normal_set: Vec<Vector3<T>>,
    ) -> (r: Result<Self, MeshError>)
        ensures
            r is Ok <==> (face_set@.len() == normal_set@.len() && faces_in_range(
                face_set@,
                vertex_set@.len() as int,
            )),
            r matches Ok(m) ==> m@ == (MeshView {
                vertices: vertex_set@,
                faces: face_set@,
                normals: normal_set@,
            }) && m@.wf(),
            r matches Err(e) ==> match e {
                MeshError::LengthMismatch => face_set@.len() != normal_set@.len(),
                MeshError::IndexOutOfRange => face_set@.len() == normal_set@.len()
                    && !faces_in_range(face_set@, vertex_set@.len() as int),
            },
    {
        if face_set.len() != normal_set.len() {
            return Err(MeshError::LengthMismatch);
        }
        let n_vertexes = vertex_set.len();
        let mut k: usize = 0;
        while k < face_set.len()
            invariant
                k <= face_set@.len(),
                n_vertexes == vertex_set@.len(),
                face_set@.len() == normal_set@.len(),
                forall|j: int| 0 <= j < k ==> #[trigger] face_in_range(face_set@[j], n_vertexes as int),
            decreases face_set@.len() - k,
        {
            let (v1, v2, v3) = face_set[k];
            if v1 >= n_vertexes || v2 >= n_vertexes || v3 >= n_vertexes {
                assert(!face_in_range(face_set@[k as int], n_vertexes as int));
                return Err(MeshError::IndexOutOfRange);
            }
            k += 1;
        }
        Ok(Mesh { vertex_set, face_set, normal_set })
    }

    /// Assembles a mesh from parts that are known to be well formed.
    pub(crate) fn from_parts(
        vertex_set: Vec<Vector3<T>>,
        face_set: Vec<Face>,
        normal_set: Vec<Vector3<T>>,
    ) -> (m: Self)
        requires
            (MeshView { vertices: vertex_set@, faces: face_set@, normals: normal_set@ }).wf(),
        ensures
            m@ == (MeshView { vertices: vertex_set@, faces: face_set@, normals: normal_set@ }),
    {
        Mesh { vertex_set, face_set, normal_set }
    }

    /// The number of faces.
    pub fn n_faces(&self) -> (r: usize)
        ensures
            r == self@.faces.len(),
    {
        self.face_set.len()
    }

    /// The vertex list.
    pub fn vertex_set(&self) -> (r: &Vec<Vector3<T>>)
        ensures
            r@ == self@.vertices,
    {
        &self.vertex_set
    }

    /// The face list.
    pub fn face_set(&self) -> (r: &Vec<Face>)
        ensures
            r@ == self@.faces,
    {
        &self.face_set
    }

    /// The normal of each face.
    pub fn normal_set(&self) -> (r: &Vec<Vector3<T>>)
        ensures
            r@ == self@.normals,
    {
        &self.normal_set
    }

    /// Puts the faces, each with its normal, in the order `order`: face `k`
    /// becomes the former face `order[k]`. Returns `false`, and leaves the
    /// mesh as it was, when `order` does not list each face exactly once.
    pub fn reorder_faces(&mut self, order: &Vec<usize>) -> (ok: bool)
        ensures
            ok == is_permutation(order@, old(self)@.faces.len() as int),
            ok ==> final(self)@ == old(self)@.permuted(order@),
            !ok ==> final(self)@ == old(self)@,
    {
        proof {
            use_type_invariant(&*self);
        }
        let n = self.face_set.len();
        if order.len() != n {
            return false;
        }
        let mut seen: Vec<bool> = Vec::new();
        let mut x: usize = 0;
        while x < n
            invariant
                x <= n,
                seen@.len() == x,
                forall|y: int| 0 <= y < x ==> !#[trigger] seen@[y],
            decreases n - x,
        {
            seen.push(false);
            x += 1;
        }
        let mut k: usize = 0;
        while k < n
            invariant
                k <= n,
                n == order@.len(),
                seen@.len() == n,
                forall|a: int| 0 <= a < k ==> #[trigger] order@[a] < n && seen@[order@[a] as int],
                forall|y: int| 0 <= y < n && #[trigger] seen@[y] ==> exists|a: int| 0 <= a < k && order@[a] == y,
                forall|a: int, b: int| 0 <= a < b < k ==> order@[a] != order@[b],
            decreases n - k,
        {
            let target = order[k];
            if target >= n {
                return false;
            }
            if seen[target] {
                proof {
                    let a = choose|a: int| 0 <= a < k && order@[a] == target;
                    assert(order@[a] == order@[k as int]);
                }
                return false;
            }
            seen.set(target, true);
            k += 1;
        }
        let mut faces: Vec<Face> = Vec::new();
        let mut normals: Vec<Vector3<T>> = Vec::new();
        let mut k: usize = 0;
        while k < n
            invariant
                k <= n,
                n == order@.len(),
                n == self@.faces.len(),
                self@.wf(),
                forall|a: int| 0 <= a < n ==> #[trigger] order@[a] < n,
                faces@ =~= Seq::new(k as nat, |a: int| self@.faces[order@[a] as int]),
                normals@ =~= Seq::new(k as nat, |a: int| self@.normals[order@[a] as int]),
            decreases n - k,
        {
            faces.push(self.face_set[order[k]]);
            normals.push(self.normal_set[order[k]]);
            k += 1;
        }
        proof {
            assert forall|a: int| 0 <= a < faces@.len() implies #[trigger] face_in_range(
                faces@[a],
                self.vertex_set@.len() as int,
            ) by {
                assert(face_in_range(self.face_set@[order@[a] as int], self.vertex_set@.len() as int));
            }
        }
        self.face_set = faces;
        self.normal_set = normals;
        true
    }

    /// Keeps the faces, each with its normal, whose flag in `keep` is set.
    pub fn retain_faces(&mut self, keep: &Vec<bool>)
        requires
            keep@.len() == old(self)@.faces.len(),
        ensures
            final(self)@ == old(self)@.filtered(keep@),
    {
        proof {
            use_type_invariant(&*self);
        }
        let n = self.face_set.len();
        let mut faces: Vec<Face> = Vec::new();
        let mut normals: Vec<Vector3<T>> = Vec::new();
        let mut k: usize = 0;
        while k < n
            invariant
                k <= n,
                n == keep@.len(),
                n == self@.faces.len(),
                self@.wf(),
                faces@ == kept(self@.faces.take(k as int), keep@),
                normals@ == kept(self@.normals.take(k as int), keep@),
                faces@.len() == normals@.len(),
                forall|a: int| 0 <= a < faces@.len() ==> #[trigger] face_in_range(
                    faces@[a],
                    self.vertex_set@.len() as int,
                ),
            decreases n - k,
        {
            proof {
                assert(self@.faces.take(k + 1).drop_last() =~= self@.faces.take(k as int));
                assert(self@.normals.take(k + 1).drop_last() =~= self@.normals.take(k as int));
                assert(face_in_range(self@.faces[k as int], self.vertex_set@.len() as int));
            }
            if keep[k] {
                faces.push(self.face_set[k]);
                normals.push(self.normal_set[k]);
            }
            k += 1;
        }
        assert(self@.faces.take(n as int) =~= self@.faces);
        assert(self@.normals.take(n as int) =~= self@.normals);
        self.replace_faces(faces, normals);
    }

    /// Puts new faces and normals in place of the old ones.
    fn replace_faces(&mut self, faces: Vec<Face>, normals: Vec<Vector3<T>>)
        requires
            faces@.len() == normals@.len(),
            faces_in_range(faces@, old(self)@.vertices.len() as int),
        ensures
            final(self)@ == (MeshView { vertices: old(self)@.vertices, faces: faces@, normals: normals@ }),
    {
        let mut taken = Mesh { vertex_set: Vec::new(), face_set: Vec::new(), normal_set: Vec::new() };
        std::mem::swap(self, &mut taken);
        let Mesh { vertex_set, face_set: _, normal_set: _ } = taken;
        *self = Mesh { vertex_set, face_set: faces, normal_set: normals };
    }

    /// Replaces every vertex `v` by `f(v)`.
    pub fn map_vertices<F: Fn(Vector3<T>) -> Vector3<T>>(&mut self, f: F)
        requires
            forall|i: int|
                0 <= i < old(self)@.vertices.len() ==> call_requires(f, (#[trigger] old(self)@.vertices[i],)),
        ensures
            final(self)@.vertices.len() == old(self)@.vertices.len(),
            forall|i: int|
                0 <= i < old(self)@.vertices.len() ==> call_ensures(
                    f,
                    (#[trigger] old(self)@.vertices[i],),
                    final(self)@.vertices[i],
                ),
            final(self)@.faces == old(self)@.faces,
            final(self)@.normals == old(self)@.normals,
    {
        proof {
            use_type_invariant(&*self);
        }
        let n = self.vertex_set.len();
        let mut vertices: Vec<Vector3<T>> = Vec::new();
        let mut k: usize = 0;
        while k < n
            invariant
                k <= n,
                n == self@.vertices.len(),
                forall|i: int| 0 <= i < n ==> call_requires(f, (#[trigger] self@.vertices[i],)),
                vertices@.len() == k,
                forall|i: int|
                    0 <= i < k ==> call_ensures(f, (#[trigger] self@.vertices[i],), vertices@[i]),
            decreases n - k,
        {
            let v = f(self.vertex_set[k]);
            vertices.push(v);
            k += 1;
        }
        self.vertex_set = vertices;
    }

    /// Replaces the normal `v` of every face by `f(v)`.
    pub fn map_normals<F: Fn(Vector3<T>) -> Vector3<T>>(&mut self, f: F)
        requires
            forall|i: int|
                0 <= i < old(self)@.normals.len() ==> call_requires(f, (#[trigger] old(self)@.normals[i],)),
        ensures
            final(self)@.normals.len() == old(self)@.normals.len(),
            forall|i: int|
                0 <= i < old(self)@.normals.len() ==> call_ensures(
                    f,
                    (#[trigger] old(self)@.normals[i],),
                    final(self)@.normals[i],
                ),
            final(self)@.faces == old(self)@.faces,
            final(self)@.vertices == old(self)@.vertices,
    {
        proof {
            use_type_invariant(&*self);
        }
        let n = self.normal_set.len();
        let mut normals: Vec<Vector3<T>> = Vec::new();
        let mut k: usize = 0;
        while k < n
            invariant
                k <= n,
                n == self@.normals.len(),
                forall|i: int| 0 <= i < n ==> call_requires(f, (#[trigger] self@.normals[i],)),
                normals@.len() == k,
                forall|i: int|
                    0 <= i < k ==> call_ensures(f, (#[trigger] self@.normals[i],), normals@[i]),
            decreases n - k,
        {
            let v = f(self.normal_set[k]);
            normals.push(v);
            k += 1;
        }
        self.normal_set = normals;
    }

    /// The triangle of every face, in face order.
    pub fn triangle_set(&self) -> (r: Vec<Triangle<T>>)
        ensures
            r@.len() == self@.faces.len(),
            forall|i: int| 0 <= i < r@.len() ==> (#[trigger] r@[i])@ == self@.triangle(i),
    {
        proof {
            use_type_invariant(self);
        }
        let n = self.face_set.len();
        let mut triangles: Vec<Triangle<T>> = Vec::new();
        let mut k: usize = 0;
        while k < n
            invariant
                k <= n,
                n == self@.faces.len(),
                self@.wf(),
                triangles@.len() == k,
                forall|i: int| 0 <= i < k ==> (#[trigger] triangles@[i])@ == self@.triangle(i),
            decreases n - k,
        {
            let (v1, v2, v3) = self.face_set[k];
            proof {
                assert(face_in_range(self@.faces[k as int], self@.vertices.len() as int));
            }
            triangles.push(
                Triangle::new(self.vertex_set[v1], self.vertex_set[v2], self.vertex_set[v3], self.normal_set[k]),
            );
            k += 1;
        }
        triangles
    }

    /// The triangle of every face with the colours of its three corners.
    pub fn triangle_color_set<C: Copy>(&self, color: &MeshColor<C>) -> (r: Vec<(Triangle<T>, C, C, C)>)
        requires
            colors_every_corner(*color, self@.faces),
        ensures
            r@.len() == self@.faces.len(),
            forall|i: int|
                0 <= i < r@.len() ==> {
                    let f = self@.faces[i];
                    &&& (#[trigger] r@[i]).0@ == self@.triangle(i)
                    &&& r@[i].1 == vertex_color(*color, f.0 as int)
                    &&& r@[i].2 == vertex_color(*color, f.1 as int)
                    &&& r@[i].3 == vertex_color(*color, f.2 as int)
                },
    {
        proof {
            use_type_invariant(self);
        }
        let n = self.face_set.len();
        let mut result: Vec<(Triangle<T>, C, C, C)> = Vec::new();
        let mut k: usize = 0;
        while k < n
            invariant
                k <= n,
                n == self@.faces.len(),
                self@.wf(),
                colors_every_corner(*color, self@.faces),
                result@.len() == k,
                forall|i: int|
                    0 <= i < k ==> {
                        let f = self@.faces[i];
                        &&& (#[trigger] result@[i]).0@ == self@.triangle(i)
                        &&& result@[i].1 == vertex_color(*color, f.0 as int)
                        &&& result@[i].2 == vertex_color(*color, f.1 as int)
                        &&& result@[i].3 == vertex_color(*color, f.2 as int)
                    },
            decreases n - k,
        {
            let (v1, v2, v3) = self.face_set[k];
            proof {
                assert(face_in_range(self@.faces[k as int], self@.vertices.len() as int));
            }
            let triangle = Triangle::new(
                self.vertex_set[v1],
                self.vertex_set[v2],
                self.vertex_set[v3],
                self.normal_set[k],
            );
            let (c1, c2, c3) = match color {
                MeshColor::SolidColor(c) => (*c, *c, *c),
                MeshColor::VertexColorMap(map) => {
                    proof {
                        assert(face_in_range(self@.faces[k as int], map@.len() as int));
                    }
                    (map.colors[v1], map.colors[v2], map.colors[v3])
                },
            };
            result.push((triangle, c1, c2, c3));
            k += 1;
        }
        result
    }

    /// Reverses the order of the faces, keeping each with its normal.
    pub fn reverse(&mut self)
        ensures
            final(self)@ == old(self)@.reversed(),
    {
        proof {
            use_type_invariant(&*self);
        }
        let len = self.face_set.len();
        let mut faces: Vec<Face> = Vec::new();
        let mut normals: Vec<Vector3<T>> = Vec::new();
        let mut k: usize = len;
        while k > 0
            invariant
                k <= len,
                len == self.face_set@.len(),
                self@.wf(),
                faces@.len() == len - k,
                normals@.len() == len - k,
                forall|i: int| 0 <= i < len - k ==> faces@[i] == self.face_set@[len - 1 - i],
                forall|i: int| 0 <= i < len - k ==> normals@[i] == self.normal_set@[len - 1 - i],
            decreases k,
        {
            k -= 1;
            faces.push(self.face_set[k]);
            normals.push(self.normal_set[k]);
        }
        assert(faces@ =~= self.face_set@.reverse());
        assert(normals@ =~= self.normal_set@.reverse());
        proof {
            assert forall|i: int| 0 <= i < faces@.len() implies #[trigger] face_in_range(
                faces@[i],
                self.vertex_set@.len() as int,
            ) by {
                assert(face_in_range(self.face_set@[len - 1 - i], self.vertex_set@.len() as int));
            }
        }
        self.face_set = faces;
        self.normal_set = normals;
    }
}

/// `true` when `bits` is the bit pattern of an `f32` that is not finite
/// (an infinity or a NaN): every exponent bit set, whatever the sign.
pub open spec fn is_non_finite_pattern(bits: u32) -> bool {
    bits % 0x8000_0000 >= 0x7f80_0000
}

/// A key can be merged with an equal key unless one of its coordinates is
/// an infinity or a NaN: vertices are equal when their coordinates differ
/// by less than `f32::EPSILON`, and a difference with an infinite or NaN
/// coordinate is never that small, even between equal patterns.
pub open spec fn is_mergeable(k: Vector3<u32>) -> bool {
    &&& !is_non_finite_pattern(k.x)
    &&& !is_non_finite_pattern(k.y)
    &&& !is_non_finite_pattern(k.z)
}

/// The positions of the vertices that merging keeps, in increasing order:
/// a position is kept unless its key is mergeable and occurs earlier.
pub open spec fn first_occurrences(keys: Seq<Vector3<u32>>) -> Seq<int>
    decreases keys.len(),
{
    if keys.len() == 0 {
        Seq::empty()
    } else {
        let prefix = keys.drop_last();
        if is_mergeable(keys.last()) && prefix.contains(keys.last()) {
            first_occurrences(prefix)
        } else {
            first_occurrences(prefix).push(keys.len() - 1)
        }
    }
}

/// Corner `new_corner` of a merged mesh names a kept vertex with the key of
/// the former corner `old_corner`, and, where that key cannot be merged,
/// the very vertex `old_corner`. `firsts` lists the kept positions.
pub open spec fn corner_kept(keys: Seq<Vector3<u32>>, firsts: Seq<int>, old_corner: usize, new_corner: usize) -> bool {
    &&& new_corner < firsts.len()
    &&& keys[firsts[new_corner as int]] == keys[old_corner as int]
    &&& !is_mergeable(keys[old_corner as int]) ==> firsts[new_corner as int] == old_corner
}

/// Face `new_face` of a merged mesh names, corner by corner, the kept
/// vertex that stands for the corner of `old_face`.
pub open spec fn same_corner_keys(
    keys: Seq<Vector3<u32>>,
    firsts: Seq<int>,
    old_face: Face,
    new_face: Face,
) -> bool {
    &&& corner_kept(keys, firsts, old_face.0, new_face.0)
    &&& corner_kept(keys, firsts, old_face.1, new_face.1)
    &&& corner_kept(keys, firsts, old_face.2, new_face.2)
}

/// `new` is `old` with vertices of equal mergeable key merged: of each
/// group of vertices that share such a key, the first one is kept; vertices
/// whose key has an infinite or NaN coordinate are all kept. Kept vertices stay in their
/// order, every face is made to name the kept vertex that stands for its
/// former corner, and normals are untouched.
pub open spec fn is_deduplication_of<T>(
    old: MeshView<T>,
    keys: Seq<Vector3<u32>>,
    new: MeshView<T>,
) -> bool {
    let firsts = first_occurrences(keys);
    &&& new.vertices == firsts.map_values(|j: int| old.vertices[j])
    &&& new.normals == old.normals
    &&& new.faces.len() == old.faces.len()
    &&& forall|f: int|
        0 <= f < new.faces.len() ==> same_corner_keys(keys, firsts, old.faces[f], #[trigger] new.faces[f])
}

/// `true` when every key of `s` that equals an earlier one cannot be merged.
pub open spec fn repeats_only_unmergeable(s: Seq<Vector3<u32>>) -> bool {
    forall|i: int, j: int|
        #![trigger s[i], s[j]]
        0 <= i < j < s.len() && s[i] == s[j] ==> !is_mergeable(s[j])
}

/// The number that stands for a key in the hash map of `optimize_by_key`.
pub open spec fn key_code(k: Vector3<u32>) -> u128 {
    (k.x as int * 0x1_0000_0000_0000_0000 + k.y as int * 0x1_0000_0000 + k.z as int) as u128
}

proof fn lemma_key_code_injective(a: Vector3<u32>, b: Vector3<u32>)
    requires
        key_code(a) == key_code(b),
    ensures
        a == b,
{
    let ia = a.x as int * 0x1_0000_0000_0000_0000 + a.y as int * 0x1_0000_0000 + a.z as int;
    let ib = b.x as int * 0x1_0000_0000_0000_0000 + b.y as int * 0x1_0000_0000 + b.z as int;
    assert(ia < 0x1_0000_0000_0000_0000_0000_0000);
    assert(ib < 0x1_0000_0000_0000_0000_0000_0000);
    assert(ia == ib);
    if a.x < b.x {
        assert(ia < ib);
    } else if a.x > b.x {
        assert(ia > ib);
    } else if a.y < b.y {
        assert(ia < ib);
    } else if a.y > b.y {
        assert(ia > ib);
    }
}

fn pack_key(k: &Vector3<u32>) -> (c: u128)
    ensures
        c == key_code(*k),
{
    (k.x as u128) * 0x1_0000_0000_0000_0000u128 + (k.y as u128) * 0x1_0000_0000u128 + (k.z as u128)
}

fn key_is_mergeable(k: &Vector3<u32>) -> (b: bool)
    ensures
        b == is_mergeable(*k),
{
    k.x % 0x8000_0000 < 0x7f80_0000 && k.y % 0x8000_0000 < 0x7f80_0000 && k.z % 0x8000_0000
        < 0x7f80_0000
}

/// Every position that `first_occurrences` lists is a position of `keys`.
pub proof fn lemma_first_occurrences_in_bounds(keys: Seq<Vector3<u32>>)
    ensures
        first_occurrences(keys).len() <= keys.len(),
        forall|r: int|
            0 <= r < first_occurrences(keys).len() ==> 0 <= #[trigger] first_occurrences(keys)[r]
                < keys.len(),
    decreases keys.len(),
{
    if keys.len() > 0 {
        lemma_first_occurrences_in_bounds(keys.drop_last());
    }
}

/// Among the keys at the kept positions, only keys that cannot be merged
/// repeat.
pub proof fn lemma_first_occurrences_distinct(keys: Seq<Vector3<u32>>)
    ensures
        repeats_only_unmergeable(first_occurrences(keys).map_values(|j: int| keys[j])),
    decreases keys.len(),
{
    if keys.len() > 0 {
        let prefix = keys.drop_last();
        lemma_first_occurrences_distinct(prefix);
        lemma_first_occurrences_in_bounds(prefix);
        let fp = first_occurrences(prefix);
        let f = first_occurrences(keys);
        let s = f.map_values(|j: int| keys[j]);
        let sp = fp.map_values(|j: int| prefix[j]);
        assert forall|r: int| 0 <= r < fp.len() implies #[trigger] s[r] == sp[r] by {
            assert(0 <= fp[r] < prefix.len());
        }
        if !(is_mergeable(keys.last()) && prefix.contains(keys.last())) {
            assert forall|r1: int, r2: int|
                0 <= r1 < r2 < s.len() && s[r1] == s[r2] implies !is_mergeable(s[r2]) by {
                if r2 == s.len() - 1 {
                    assert(0 <= fp[r1] < prefix.len());
                    assert(s[r1] == prefix[fp[r1]]);
                    assert(s[r2] == keys.last());
                } else {
                    assert(s[r1] == sp[r1]);
                    assert(s[r2] == sp[r2]);
                }
            }
        } else {
            assert(s =~= sp);
        }
    }
}

/// Where only keys that cannot be merged repeat, every position is kept.
pub proof fn lemma_first_occurrences_of_distinct(keys: Seq<Vector3<u32>>)
    requires
        repeats_only_unmergeable(keys),
    ensures
        first_occurrences(keys) == Seq::new(keys.len(), |i: int| i),
    decreases keys.len(),
{
    if keys.len() > 0 {
        let prefix = keys.drop_last();
        assert(repeats_only_unmergeable(prefix)) by {
            assert forall|i: int, j: int|
                0 <= i < j < prefix.len() && prefix[i] == prefix[j] implies !is_mergeable(prefix[j]) by {
                assert(keys[i] == prefix[i] && keys[j] == prefix[j]);
            }
        }
        lemma_first_occurrences_of_distinct(prefix);
        assert(!(is_mergeable(keys.last()) && prefix.contains(keys.last()))) by {
            if is_mergeable(keys.last()) && prefix.contains(keys.last()) {
                let w = choose|w: int| 0 <= w < prefix.len() && prefix[w] == keys.last();
                assert(keys[w] == keys[keys.len() - 1]);
            }
        }
        assert(first_occurrences(keys) =~= Seq::new(keys.len(), |i: int| i));
    }
}

impl<T: Copy> Mesh<T> {
    /// Merges vertices that share a key. `keys[i]` stands for vertex `i`:
    /// of each group of vertices with equal keys the first is kept, except
    /// that a vertex whose key has an infinite or NaN coordinate is never
    /// merged; the
    /// faces are rewritten to name the kept vertices.
    pub fn optimize_by_key(&mut self, keys: &Vec<Vector3<u32>>)
        requires
            keys@.len() == old(self)@.vertices.len(),
        ensures
            is_deduplication_of(old(self)@, keys@, final(self)@),
            final(self)@.wf(),
    {
        proof {
            use_type_invariant(&*self);
        }
        let n = self.vertex_set.len();
        let ghost old_view = self@;
        let mut unique_vertices: Vec<Vector3<T>> = Vec::new();
        let mut vertex_map: HashMap<u128, usize> = HashMap::new();
        let mut remap: Vec<usize> = Vec::new();
        let mut i: usize = 0;
        while i < n
            invariant
                i <= n,
                n == keys@.len(),
                self@ == old_view,
                old_view.vertices.len() == n,
                ({
                    let firsts = first_occurrences(keys@.take(i as int));
                    &&& firsts.len() <= i
                    &&& unique_vertices@.len() == firsts.len()
                    &&& forall|r: int|
                        0 <= r < firsts.len() ==> 0 <= #[trigger] firsts[r] < i
                            && unique_vertices@[r] == old_view.vertices[firsts[r]]
                            && (is_mergeable(keys@[firsts[r]]) ==> vertex_map@.contains_key(
                            key_code(keys@[firsts[r]]),
                        ) && vertex_map@[key_code(keys@[firsts[r]])] == r)
                    &&& forall|c: u128|
                        #[trigger] vertex_map@.contains_key(c) ==> vertex_map@[c] < firsts.len()
                            && key_code(keys@[firsts[vertex_map@[c] as int]]) == c
                            && is_mergeable(keys@[firsts[vertex_map@[c] as int]])
                    &&& remap@.len() == i
                    &&& forall|j: int|
                        0 <= j < i ==> #[trigger] remap@[j] < firsts.len() && keys@[firsts[remap@[j] as int]]
                            == keys@[j] && (!is_mergeable(keys@[j]) ==> firsts[remap@[j] as int] == j)
                }),
            decreases n - i,
        {
            let ghost firsts = first_occurrences(keys@.take(i as int));
            let ghost next = keys@.take(i + 1);
            assert(next.drop_last() =~= keys@.take(i as int));
            assert(next.last() == keys@[i as int]);
            if !key_is_mergeable(&keys[i]) {
                proof {
                    assert(first_occurrences(next) == firsts.push(i as int));
                }
                let new_idx = unique_vertices.len();
                unique_vertices.push(self.vertex_set[i]);
                remap.push(new_idx);
                proof {
                    let nf = firsts.push(i as int);
                    assert forall|c: u128| #[trigger] vertex_map@.contains_key(c) implies vertex_map@[c]
                        < nf.len() && key_code(keys@[nf[vertex_map@[c] as int]]) == c && is_mergeable(
                        keys@[nf[vertex_map@[c] as int]],
                    ) by {
                        assert(vertex_map@[c] < firsts.len());
                    }
                    assert forall|j: int| 0 <= j < i + 1 implies #[trigger] remap@[j] < nf.len()
                        && keys@[nf[remap@[j] as int]] == keys@[j] && (!is_mergeable(keys@[j])
                        ==> nf[remap@[j] as int] == j) by {
                        if j < i {
                            assert(remap@[j] < firsts.len());
                        }
                    }
                }
            } else {
                let code = pack_key(&keys[i]);
                match vertex_map.get(&code) {
                    Some(id) => {
                        let new_idx = *id;
                        proof {
                            lemma_key_code_injective(keys@[firsts[new_idx as int]], keys@[i as int]);
                            assert(keys@.take(i as int)[firsts[new_idx as int]] == keys@[i as int]);
                            assert(keys@.take(i as int).contains(keys@[i as int]));
                            assert(first_occurrences(next) == firsts);
                        }
                        remap.push(new_idx);
                    },
                    None => {
                        proof {
                            assert(!keys@.take(i as int).contains(keys@[i as int])) by {
                                if keys@.take(i as int).contains(keys@[i as int]) {
                                    let w = choose|w: int|
                                        0 <= w < i && keys@.take(i as int)[w] == keys@[i as int];
                                    let r = remap@[w] as int;
                                    assert(keys@[firsts[r]] == keys@[w]);
                                    assert(vertex_map@.contains_key(key_code(keys@[firsts[r]])));
                                }
                            }
                            assert(first_occurrences(next) == firsts.push(i as int));
                        }
                        let new_idx = unique_vertices.len();
                        vertex_map.insert(code, new_idx);
                        unique_vertices.push(self.vertex_set[i]);
                        remap.push(new_idx);
                        proof {
                            let nf = firsts.push(i as int);
                            assert forall|c: u128| #[trigger] vertex_map@.contains_key(c) implies vertex_map@[c]
                                < nf.len() && key_code(keys@[nf[vertex_map@[c] as int]]) == c && is_mergeable(
                                keys@[nf[vertex_map@[c] as int]],
                            ) by {
                                if c != code {
                                    assert(vertex_map@[c] < firsts.len());
                                }
                            }
                            assert forall|r: int| 0 <= r < nf.len() implies 0 <= #[trigger] nf[r] < i + 1
                                && unique_vertices@[r] == old_view.vertices[nf[r]] && (is_mergeable(
                                keys@[nf[r]],
                            ) ==> vertex_map@.contains_key(key_code(keys@[nf[r]]))
                                && vertex_map@[key_code(keys@[nf[r]])] == r) by {
                                if r < firsts.len() && is_mergeable(keys@[firsts[r]]) {
                                    assert(key_code(keys@[firsts[r]]) != code) by {
                                        if key_code(keys@[firsts[r]]) == code {
                                            assert(vertex_map@.contains_key(code));
                                        }
                                    }
                                }
                            }
                            assert forall|j: int| 0 <= j < i + 1 implies #[trigger] remap@[j] < nf.len()
                                && keys@[nf[remap@[j] as int]] == keys@[j] && (!is_mergeable(keys@[j])
                                ==> nf[remap@[j] as int] == j) by {
                                if j < i {
                                    assert(remap@[j] < firsts.len());
                                }
                            }
                        }
                    },
                }
            }
            i += 1;
        }
        let ghost firsts = first_occurrences(keys@);
        assert(keys@.take(n as int) =~= keys@);

        let n_faces = self.face_set.len();
        let mut faces: Vec<Face> = Vec::new();
        let mut f: usize = 0;
        while f < n_faces
            invariant
                f <= n_faces,
                n_faces == old_view.faces.len(),
                self@ == old_view,
                old_view.wf(),
                old_view.vertices.len() == n,
                remap@.len() == n,
                firsts.len() <= n,
                forall|j: int|
                    0 <= j < n ==> #[trigger] remap@[j] < firsts.len() && keys@[firsts[remap@[j] as int]]
                        == keys@[j] && (!is_mergeable(keys@[j]) ==> firsts[remap@[j] as int] == j),
                faces@.len() == f,
                forall|g: int|
                    0 <= g < f ==> same_corner_keys(keys@, firsts, old_view.faces[g], #[trigger] faces@[g]),
            decreases n_faces - f,
        {
            let (v1, v2, v3) = self.face_set[f];
            proof {
                assert(face_in_range(old_view.faces[f as int], n as int));
            }
            faces.push((remap[v1], remap[v2], remap[v3]));
            f += 1;
        }
        assert(unique_vertices@ =~= firsts.map_values(|j: int| old_view.vertices[j]));
        proof {
            assert forall|g: int| 0 <= g < faces@.len() implies #[trigger] face_in_range(
                faces@[g],
                n as int,
            ) by {
                assert(same_corner_keys(keys@, firsts, old_view.faces[g], faces@[g]));
            }
        }
        self.face_set = faces;
        proof {
            assert forall|g: int| 0 <= g < faces@.len() implies #[trigger] face_in_range(
                faces@[g],
                unique_vertices@.len() as int,
            ) by {
                assert(same_corner_keys(keys@, firsts, old_view.faces[g], faces@[g]));
            }
        }
        self.vertex_set = unique_vertices;
    }
}

impl Mesh<u32> {
    /// Merges vertices with identical coordinate bit patterns, keeping the
    /// first of each group and every vertex with an infinite or NaN coordinate, and
    /// rewrites the faces to name the kept vertices.
    pub fn optimize(&mut self)
        ensures
            is_deduplication_of(old(self)@, old(self)@.vertices, final(self)@),
            final(self)@.wf(),
    {
        let n = self.vertex_set.len();
        let mut keys: Vec<Vector3<u32>> = Vec::new();
        let mut i: usize = 0;
        while i < n
            invariant
                i <= n,
                n == self.vertex_set@.len(),
                keys@ == self.vertex_set@.take(i as int),
            decreases n - i,
        {
            keys.push(self.vertex_set[i]);
            i += 1;
            assert(keys@ =~= self.vertex_set@.take(i as int));
        }
        assert(keys@ =~= self.vertex_set@);
        self.optimize_by_key(&keys);
    }
}

proof fn lemma_same_position(s: Seq<Vector3<u32>>, a: int, b: int)
    requires
        repeats_only_unmergeable(s),
        0 <= a < s.len(),
        0 <= b < s.len(),
        s[a] == s[b],
        is_mergeable(s[a]),
    ensures
        a == b,
{
    if a < b {
        assert(!is_mergeable(s[b]));
    } else if b < a {
        assert(!is_mergeable(s[a]));
    }
}

/// Merging the vertices of a mesh by their own coordinates changes nothing
/// the second time.
pub proof fn optimize_is_idempotent(m0: MeshView<u32>, m1: MeshView<u32>, m2: MeshView<u32>)
    requires
        m0.wf(),
        is_deduplication_of(m0, m0.vertices, m1),
        is_deduplication_of(m1, m1.vertices, m2),
    ensures
        m2 == m1,
{
    let f0 = first_occurrences(m0.vertices);
    lemma_first_occurrences_in_bounds(m0.vertices);
    lemma_first_occurrences_distinct(m0.vertices);
    assert(m1.vertices == f0.map_values(|j: int| m0.vertices[j]));
    lemma_first_occurrences_of_distinct(m1.vertices);
    let f1 = first_occurrences(m1.vertices);
    assert(m2.vertices =~= m1.vertices);
    assert forall|f: int| 0 <= f < m2.faces.len() implies #[trigger] m2.faces[f] == m1.faces[f] by {
        assert(same_corner_keys(m0.vertices, f0, m0.faces[f], m1.faces[f]));
        assert(same_corner_keys(m1.vertices, f1, m1.faces[f], m2.faces[f]));
        let a = m1.faces[f];
        let b = m2.faces[f];
        if is_mergeable(m1.vertices[a.0 as int]) {
            lemma_same_position(m1.vertices, a.0 as int, b.0 as int);
        }
        if is_mergeable(m1.vertices[a.1 as int]) {
            lemma_same_position(m1.vertices, a.1 as int, b.1 as int);
        }
        if is_mergeable(m1.vertices[a.2 as int]) {
            lemma_same_position(m1.vertices, a.2 as int, b.2 as int);
        }
    }
    assert(m2.faces =~= m1.faces);
    assert(m2 =~= m1);
}

/// Merging vertices by keys leaves every triangle, corners and normal,
/// where it was, when vertices with equal keys are equal.
pub proof fn optimize_by_key_keeps_triangles<T>(
    m0: MeshView<T>,
    keys: Seq<Vector3<u32>>,
    m1: MeshView<T>,
)
    requires
        m0.wf(),
        keys.len() == m0.vertices.len(),
        forall|i: int, j: int|
            #![trigger keys[i], keys[j]]
            0 <= i < keys.len() && 0 <= j < keys.len() && keys[i] == keys[j] ==> m0.vertices[i]
                == m0.vertices[j],
        is_deduplication_of(m0, keys, m1),
    ensures
        m1.wf(),
        m1.faces.len() == m0.faces.len(),
        forall|f: int| 0 <= f < m0.faces.len() ==> #[trigger] m1.triangle(f) == m0.triangle(f),
{
    let f0 = first_occurrences(keys);
    lemma_first_occurrences_in_bounds(keys);
    assert forall|f: int| 0 <= f < m0.faces.len() implies #[trigger] m1.triangle(f) == m0.triangle(f) by {
        assert(same_corner_keys(keys, f0, m0.faces[f], m1.faces[f]));
        assert(face_in_range(m0.faces[f], m0.vertices.len() as int));
        let a = m0.faces[f];
        let b = m1.faces[f];
        assert(keys[f0[b.0 as int]] == keys[a.0 as int]);
        assert(keys[f0[b.1 as int]] == keys[a.1 as int]);
        assert(keys[f0[b.2 as int]] == keys[a.2 as int]);
    }
    assert forall|f: int| 0 <= f < m1.faces.len() implies #[trigger] face_in_range(
        m1.faces[f],
        m1.vertices.len() as int,
    ) by {
        assert(same_corner_keys(keys, f0, m0.faces[f], m1.faces[f]));
    }
}

/// Merging the vertices of a mesh by their own coordinates leaves every
/// triangle, corners and normal, where it was.
pub proof fn optimize_keeps_triangles(m0: MeshView<u32>, m1: MeshView<u32>)
    requires
        m0.wf(),
        is_deduplication_of(m0, m0.vertices, m1),
    ensures
        m1.wf(),
        m1.faces.len() == m0.faces.len(),
        forall|f: int| 0 <= f < m0.faces.len() ==> #[trigger] m1.triangle(f) == m0.triangle(f),
{
    optimize_by_key_keeps_triangles(m0, m0.vertices, m1);
}

/// Keeping every element keeps the sequence as it was, in its order.
pub proof fn kept_all_is_identity<A>(s: Seq<A>, keep: Seq<bool>)
    requires
        keep.len() >= s.len(),
        forall|k: int| 0 <= k < s.len() ==> #[trigger] keep[k],
    ensures
        kept(s, keep) == s,
    decreases s.len(),
{
    if s.len() > 0 {
        kept_all_is_identity(s.drop_last(), keep);
        assert(s.drop_last().push(s.last()) =~= s);
    }
}

/// Keeping no element leaves nothing.
pub proof fn kept_none_is_empty<A>(s: Seq<A>, keep: Seq<bool>)
    requires
        keep.len() >= s.len(),
        forall|k: int| 0 <= k < s.len() ==> !#[trigger] keep[k],
    ensures
        kept(s, keep).len() == 0,
    decreases s.len(),
{
    if s.len() > 0 {
        kept_none_is_empty(s.drop_last(), keep);
    }
}

/// Filtering a concatenation filters each part, with the flags of the
/// second part shifted, and puts the results one after the other.
pub proof fn kept_of_concatenation<A>(s1: Seq<A>, s2: Seq<A>, keep: Seq<bool>)
    requires
        keep.len() >= s1.len() + s2.len(),
    ensures
        kept(s1 + s2, keep) == kept(s1, keep) + kept(s2, keep.subrange(s1.len() as int, keep.len() as int)),
    decreases s2.len(),
{
    let shifted = keep.subrange(s1.len() as int, keep.len() as int);
    if s2.len() == 0 {
        assert(s1 + s2 =~= s1);
        assert(kept(s1, keep) + kept(s2, shifted) =~= kept(s1, keep));
    } else {
        let s2p = s2.drop_last();
        kept_of_concatenation(s1, s2p, keep);
        assert((s1 + s2).drop_last() =~= s1 + s2p);
        assert((s1 + s2).last() == s2.last());
        assert(keep[(s1 + s2).len() - 1] == shifted[s2.len() - 1]);
        if shifted[s2.len() - 1] {
            assert(kept(s1 + s2, keep) =~= kept(s1, keep) + kept(s2p, shifted).push(s2.last()));
        }
    }
}

/// A single element is kept exactly when its flag is set.
pub proof fn kept_of_one<A>(x: A, flag: bool)
    ensures
        kept(seq![x], seq![flag]) == (if flag { seq![x] } else { Seq::<A>::empty() }),
{
    reveal_with_fuel(kept, 2);
    assert(seq![x].drop_last() =~= Seq::<A>::empty());
    assert(kept(seq![x], seq![flag]) =~= (if flag { seq![x] } else { Seq::<A>::empty() }));
}

/// Retaining every face leaves the mesh as it was.
pub proof fn filtered_all_is_identity<T>(m: MeshView<T>, keep: Seq<bool>)
    requires
        m.wf(),
        keep.len() == m.faces.len(),
        forall|k: int| 0 <= k < keep.len() ==> #[trigger] keep[k],
    ensures
        m.filtered(keep) == m,
{
    kept_all_is_identity(m.faces, keep);
    kept_all_is_identity(m.normals, keep);
    assert(m.filtered(keep) =~= m);
}

/// The exponent field of an `f32` bit pattern: bits 23 to 30.
pub open spec fn exponent_field(bits: u32) -> u32 {
    (bits >> 23u32) & 0xffu32
}

proof fn lemma_non_finite_is_full_exponent(bits: u32)
    ensures
        is_non_finite_pattern(bits) <==> exponent_field(bits) == 0xff,
{
    assert((bits % 0x8000_0000u32 >= 0x7f80_0000u32) <==> ((bits >> 23u32) & 0xffu32) == 0xffu32)
        by (bit_vector);
}

/// A key can be merged exactly when its three coordinates are finite
/// `f32` patterns, positive or negative: patterns whose exponent field is
/// not all ones.
pub proof fn mergeable_iff_finite(k: Vector3<u32>)
    ensures
        is_mergeable(k) <==> (exponent_field(k.x) != 0xff && exponent_field(k.y) != 0xff
            && exponent_field(k.z) != 0xff),
{
    lemma_non_finite_is_full_exponent(k.x);
    lemma_non_finite_is_full_exponent(k.y);
    lemma_non_finite_is_full_exponent(k.z);
}

/// Corner `c` (0, 1 or 2) of a face.
pub open spec fn corner(f: Face, c: int) -> usize {
    if c == 0 {
        f.0
    } else if c == 1 {
        f.1
    } else {
        f.2
    }
}

/// After merging, two corners whose keys are equal and finite name the
/// same vertex, and two corners at different vertices whose key is not
/// finite still name different vertices.
pub proof fn merged_corners_meet_exactly_at_equal_finite_keys<T>(
    m0: MeshView<T>,
    keys: Seq<Vector3<u32>>,
    m1: MeshView<T>,
    f: int,
    c: int,
    g: int,
    d: int,
)
    requires
        m0.wf(),
        keys.len() == m0.vertices.len(),
        is_deduplication_of(m0, keys, m1),
        0 <= f < m0.faces.len(),
        0 <= g < m0.faces.len(),
        0 <= c < 3,
        0 <= d < 3,
    ensures
        ({
            let k1 = keys[corner(m0.faces[f], c) as int];
            let k2 = keys[corner(m0.faces[g], d) as int];
            k1 == k2 && exponent_field(k1.x) != 0xff && exponent_field(k1.y) != 0xff && exponent_field(
                k1.z,
            ) != 0xff ==> corner(m1.faces[f], c) == corner(m1.faces[g], d)
        }),
        ({
            let k1 = keys[corner(m0.faces[f], c) as int];
            !(exponent_field(k1.x) != 0xff && exponent_field(k1.y) != 0xff && exponent_field(k1.z)
                != 0xff) && corner(m0.faces[f], c) != corner(m0.faces[g], d) ==> corner(m1.faces[f], c)
                != corner(m1.faces[g], d)
        }),
{
    let firsts = first_occurrences(keys);
    lemma_first_occurrences_in_bounds(keys);
    lemma_first_occurrences_distinct(keys);
    assert(same_corner_keys(keys, firsts, m0.faces[f], m1.faces[f]));
    assert(same_corner_keys(keys, firsts, m0.faces[g], m1.faces[g]));
    let o1 = corner(m0.faces[f], c);
    let o2 = corner(m0.faces[g], d);
    let r1 = corner(m1.faces[f], c);
    let r2 = corner(m1.faces[g], d);
    assert(corner_kept(keys, firsts, o1, r1));
    assert(corner_kept(keys, firsts, o2, r2));
    mergeable_iff_finite(keys[o1 as int]);
    let s = firsts.map_values(|j: int| keys[j]);
    if keys[o1 as int] == keys[o2 as int] && is_mergeable(keys[o1 as int]) {
        assert(s[r1 as int] == keys[o1 as int]);
        assert(s[r2 as int] == keys[o2 as int]);
        lemma_same_position(s, r1 as int, r2 as int);
    }
}

/// Reversing the faces of a mesh twice gives the mesh back.
pub proof fn reverse_is_involution<T>(m: MeshView<T>)
    ensures
        m.reversed().reversed() == m,
{
    assert(m.faces.reverse().reverse() =~= m.faces);
    assert(m.normals.reverse().reverse() =~= m.normals);
    assert(m.reversed().reversed() =~= m);
}

} // verus!
