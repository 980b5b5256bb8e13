//! Binary STL: an 80-byte header, a little-endian `u32` triangle count,
//! then per triangle twelve little-endian 32-bit words (the normal and the
//! three corners) and a 16-bit attribute word. Coordinates are kept as the
//! bit patterns of their `f32` values.
use vstd::prelude::*;

use crate::geometry::Vector3;
use crate::object::{is_deduplication_of, Face, Mesh, MeshView};
use byteorder::{ByteOrder, LittleEndian};

verus! {

/// The length of the header that precedes the triangle count.
pub const HEADER_LEN: usize = 80;

/// The length of one triangle record: four vectors of three words and the
/// attribute word.
pub const TRIANGLE_RECORD_LEN: usize = 50;

/// Why a byte string is not a binary STL file.
#[derive(Debug, Clone, Copy, PartialEq, Eq)]
pub enum StlError {
    /// The bytes end before the header, the count, or the last triangle
    /// record that the count announces.
    UnexpectedEof,
}

/// The little-endian 32-bit word at `off` in `b`.
pub open spec fn le_u32_at(b: Seq<u8>, off: int) -> u32 {
    (b[off] as int + b[off + 1] as int * 0x100 + b[off + 2] as int * 0x1_0000 + b[off + 3] as int
        * 0x100_0000) as u32
}

/// The vector of the three little-endian words at `off` in `b`.
pub open spec fn vector_at(b: Seq<u8>, off: int) -> Vector3<u32> {
    Vector3 { x: le_u32_at(b, off), y: le_u32_at(b, off + 4), z: le_u32_at(b, off + 8) }
}

/// The triangle count of an STL file.
pub open spec fn triangle_count(b: Seq<u8>) -> int {
    le_u32_at(b, 80) as int
}

/// `true` when `b` holds the header, the count and every triangle record
/// that the count announces. Bytes after the last record are ignored.
pub open spec fn is_complete_stl(b: Seq<u8>) -> bool {
    &&& b.len() >= 84
    &&& b.len() >= 84 + 50 * triangle_count(b)
}

/// The normal of triangle `t`.
pub open spec fn stl_normal(b: Seq<u8>, t: int) -> Vector3<u32> {
    vector_at(b, 84 + 50 * t)
}

/// Corner `c` (0, 1 or 2) of triangle `t`.
pub open spec fn stl_corner(b: Seq<u8>, t: int, c: int) -> Vector3<u32> {
    vector_at(b, 84 + 50 * t + 12 + 12 * c)
}

/// The mesh that an STL file spells out before vertices are merged:
/// three vertices per triangle, in file order, and face `t` made of the
/// vertices `3t`, `3t + 1`, `3t + 2`.
pub open spec fn stl_mesh(b: Seq<u8>) -> MeshView<u32> {
    let n = triangle_count(b);
    MeshView {
        vertices: Seq::new((3 * n) as nat, |k: int| stl_corner(b, k / 3, k % 3)),
        faces: Seq::new(n as nat, |t: int| ((3 * t) as usize, (3 * t + 1) as usize, (3 * t + 2) as usize)),
        normals: Seq::new(n as nat, |t: int| stl_normal(b, t)),
    }
}

/// `byteorder`'s `LittleEndian::read_u32` on the bytes from `offset` on.
/// The contract claims that it reads the four bytes at `offset` as a
/// little-endian number; it panics on fewer than four bytes, which the
/// `requires` rules out.
#[verifier::external_body]
fn read_le_u32(buf: &[u8], offset: usize) -> (r: u32)
    requires
        offset + 4 <= buf@.len(),
    ensures
        r == le_u32_at(buf@, offset as int),
{
    LittleEndian::read_u32(&buf[offset..])
}

/// Reads three consecutive little-endian words as a vector.
/// Fails when fewer than twelve bytes are left at `offset`.
fn read_vector3(buf: &[u8], offset: usize) -> (r: Result<Vector3<u32>, StlError>)
    ensures
        r is Ok <==> offset + 12 <= buf@.len(),
        r matches Ok(v) ==> v == vector_at(buf@, offset as int),
        r matches Err(e) ==> e == StlError::UnexpectedEof,
{
    assert(buf@.len() == buf.len());
    if offset > buf.len() || buf.len() - offset < 12 {
        return Err(StlError::UnexpectedEof);
    }
    let x = read_le_u32(buf, offset);
    let y = read_le_u32(buf, offset + 4);
    let z = read_le_u32(buf, offset + 8);
    Ok(Vector3::new(x, y, z))
}

/// The number whose little-endian bytes are `b[o..o + 4]`.
pub open spec fn little_endian_word(b: Seq<u8>, o: int) -> int {
    b[o] as int + b[o + 1] as int * 0x100 + b[o + 2] as int * 0x1_0000 + b[o + 3] as int * 0x100_0000
}

/// `true` when the coordinates of `p` are the three little-endian words
/// from byte `o` of `b`.
pub open spec fn has_words_at(p: Vector3<u32>, b: Seq<u8>, o: int) -> bool {
    &&& p.x as int == little_endian_word(b, o)
    &&& p.y as int == little_endian_word(b, o + 4)
    &&& p.z as int == little_endian_word(b, o + 8)
}

proof fn lemma_vector_at_words(b: Seq<u8>, o: int)
    requires
        0 <= o,
        o + 12 <= b.len(),
    ensures
        has_words_at(vector_at(b, o), b, o),
{
    assert forall|q: int| 0 <= q && q + 4 <= b.len() implies (le_u32_at(b, q) as int) == little_endian_word(b, q) by {
        assert(0 <= little_endian_word(b, q) < 0x1_0000_0000);
    }
}

/// Reading a complete STL file gives one face per triangle record, in
/// file order. Face `t` carries the normal of record `t` (the three
/// little-endian words from byte `84 + 50t`), and its three corners have
/// the coordinates of the three vectors that follow in that record.
pub proof fn stl_faces_follow_their_records(b: Seq<u8>, m: MeshView<u32>)
    requires
        b.len() <= usize::MAX,
        is_complete_stl(b),
        is_deduplication_of(stl_mesh(b), stl_mesh(b).vertices, m),
    ensures
        m.faces.len() == little_endian_word(b, 80),
        m.normals.len() == m.faces.len(),
        forall|t: int| 0 <= t < m.faces.len() ==> has_words_at(#[trigger] m.normals[t], b, 84 + 50 * t),
        forall|t: int|
            0 <= t < m.faces.len() ==> {
                &&& has_words_at((#[trigger] m.triangle(t)).0, b, 84 + 50 * t + 12)
                &&& has_words_at(m.triangle(t).1, b, 84 + 50 * t + 24)
                &&& has_words_at(m.triangle(t).2, b, 84 + 50 * t + 36)
            },
{
    let raw = stl_mesh(b);
    let n = triangle_count(b);
    assert((le_u32_at(b, 80) as int) == little_endian_word(b, 80)) by {
        assert(0 <= little_endian_word(b, 80) < 0x1_0000_0000);
    }
    let firsts = crate::object::first_occurrences(raw.vertices);
    crate::object::lemma_first_occurrences_in_bounds(raw.vertices);
    assert forall|t: int| 0 <= t < m.faces.len() implies has_words_at(#[trigger] m.normals[t], b, 84 + 50 * t) by {
        assert(m.normals[t] == raw.normals[t]);
        lemma_vector_at_words(b, 84 + 50 * t);
    }
    assert forall|t: int| 0 <= t < m.faces.len() implies {
        &&& has_words_at((#[trigger] m.triangle(t)).0, b, 84 + 50 * t + 12)
        &&& has_words_at(m.triangle(t).1, b, 84 + 50 * t + 24)
        &&& has_words_at(m.triangle(t).2, b, 84 + 50 * t + 36)
    } by {
        assert(crate::object::same_corner_keys(raw.vertices, firsts, raw.faces[t], m.faces[t]));
        assert((3 * t) / 3 == t && (3 * t) % 3 == 0);
        assert((3 * t + 1) / 3 == t && (3 * t + 1) % 3 == 1);
        assert((3 * t + 2) / 3 == t && (3 * t + 2) % 3 == 2);
        let f = m.faces[t];
        assert(raw.faces[t] == ((3 * t) as usize, (3 * t + 1) as usize, (3 * t + 2) as usize));
        assert(m.vertices[f.0 as int] == raw.vertices[firsts[f.0 as int]]);
        assert(m.vertices[f.1 as int] == raw.vertices[firsts[f.1 as int]]);
        assert(m.vertices[f.2 as int] == raw.vertices[firsts[f.2 as int]]);
        assert(raw.vertices[3 * t] == stl_corner(b, t, 0));
        assert(raw.vertices[3 * t + 1] == stl_corner(b, t, 1));
        assert(raw.vertices[3 * t + 2] == stl_corner(b, t, 2));
        assert(m.triangle(t).0 == stl_corner(b, t, 0));
        assert(m.triangle(t).1 == stl_corner(b, t, 1));
        assert(m.triangle(t).2 == stl_corner(b, t, 2));
        lemma_vector_at_words(b, 84 + 50 * t + 12);
        lemma_vector_at_words(b, 84 + 50 * t + 24);
        lemma_vector_at_words(b, 84 + 50 * t + 36);
    }
}

impl Mesh<u32> {
    /// Reads a binary STL file and merges the vertices that have the same
    /// coordinates.
    pub fn try_from_stl_bytes(bytes: &[u8]) -> (r: Result<Mesh<u32>, StlError>)
        ensures
            r is Ok <==> is_complete_stl(bytes@),
            r matches Ok(m) ==> m@.wf() && is_deduplication_of(
                stl_mesh(bytes@),
                stl_mesh(bytes@).vertices,
                m@,
            ),
            r matches Ok(m) ==> m@.faces.len() == little_endian_word(bytes@, 80),
            r matches Ok(m) ==> forall|t: int|
                0 <= t < m@.faces.len() ==> has_words_at(#[trigger] m@.normals[t], bytes@, 84 + 50 * t),
            r matches Ok(m) ==> forall|t: int|
                0 <= t < m@.faces.len() ==> {
                    &&& has_words_at((#[trigger] m@.triangle(t)).0, bytes@, 84 + 50 * t + 12)
                    &&& has_words_at(m@.triangle(t).1, bytes@, 84 + 50 * t + 24)
                    &&& has_words_at(m@.triangle(t).2, bytes@, 84 + 50 * t + 36)
                },
    {
        if bytes.len() < HEADER_LEN + 4 {
            return Err(StlError::UnexpectedEof);
        }
        let n_triangles = read_le_u32(bytes, HEADER_LEN);
        let n = n_triangles as usize;
        if (bytes.len() - (HEADER_LEN + 4)) / TRIANGLE_RECORD_LEN < n {
            return Err(StlError::UnexpectedEof);
        }
        let ghost b = bytes@;
        assert(b.len() == bytes.len());
        assert(84 + 50 * n <= b.len()) by (nonlinear_arith)
            requires
                (b.len() - 84) / 50 >= n,
                b.len() >= 84,
        ;
        let mut vertexes: Vec<Vector3<u32>> = Vec::new();
        let mut faces: Vec<Face> = Vec::new();
        let mut normals: Vec<Vector3<u32>> = Vec::new();
        let mut index_counter: usize = 0;
        let mut t: usize = 0;
        while t < n
            invariant
                b == bytes@,
                b.len() <= usize::MAX,
                n == triangle_count(b),
                84 + 50 * n <= b.len(),
                t <= n,
                index_counter == 3 * t,
                vertexes@.len() == 3 * t,
                faces@.len() == t,
                normals@.len() == t,
                forall|s: int, c: int|
                    0 <= s < t && 0 <= c < 3 ==> #[trigger] vertexes@[3 * s + c] == stl_corner(b, s, c),
                forall|s: int| 0 <= s < t ==> #[trigger] faces@[s] == ((3 * s) as usize, (3 * s + 1) as usize, (3 * s + 2) as usize),
                forall|s: int| 0 <= s < t ==> #[trigger] normals@[s] == stl_normal(b, s),
            decreases n - t,
        {
            let record = HEADER_LEN + 4 + TRIANGLE_RECORD_LEN * t;
            match read_vector3(bytes, record) {
                Ok(v) => normals.push(v),
                Err(e) => return Err(e),
            }
            let mut c: usize = 0;
            while c < 3
                invariant
                    b == bytes@,
                    b.len() <= usize::MAX,
                    84 + 50 * n <= b.len(),
                    t < n,
                    record == 84 + 50 * t,
                    c <= 3,
                    vertexes@.len() == 3 * t + c,
                    forall|s: int, c2: int|
                        0 <= s < t && 0 <= c2 < 3 ==> #[trigger] vertexes@[3 * s + c2] == stl_corner(b, s, c2),
                    forall|c2: int| 0 <= c2 < c ==> #[trigger] vertexes@[3 * t + c2] == stl_corner(b, t as int, c2),
                decreases 3 - c,
            {
                match read_vector3(bytes, record + 12 + 12 * c) {
                    Ok(v) => vertexes.push(v),
                    Err(e) => return Err(e),
                }
                c += 1;
            }
            faces.push((index_counter, index_counter + 1, index_counter + 2));
            index_counter += 3;
            t += 1;
        }
        let ghost raw = stl_mesh(b);
        proof {
            assert forall|k: int| 0 <= k < 3 * n implies #[trigger] vertexes@[k] == raw.vertices[k] by {
                let s = k / 3;
                let c = k % 3;
                assert(k == 3 * s + c && 0 <= c < 3 && 0 <= s < n);
                assert(vertexes@[3 * s + c] == stl_corner(b, s, c));
            }
            assert(vertexes@ =~= raw.vertices);
            assert(faces@ =~= raw.faces);
            assert(normals@ =~= raw.normals);
            assert forall|s: int| 0 <= s < faces@.len() implies #[trigger] crate::object::face_in_range(
                faces@[s],
                vertexes@.len() as int,
            ) by {
                assert(faces@[s] == raw.faces[s]);
            }
        }
        let mut mesh = Mesh::from_parts(vertexes, faces, normals);
        mesh.optimize();
        proof {
            stl_faces_follow_their_records(b, mesh@);
        }
        Ok(mesh)
    }
}

} // verus!
