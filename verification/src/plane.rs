//! The integer layout of a checkerboard floor: the unit squares of a
//! `2n` by `2n` grid centred on the origin, split into the squares of one
//! colour and the squares of the other, each square made of two triangles.
use vstd::prelude::*;

use crate::geometry::Vector3;
use crate::object::{face_in_range, Face, Mesh, MeshView};

verus! {

/// `true` when the unit square with lower corner `(i, j)` belongs to the
/// plane chosen by `even`: `(i + j) mod 2` is 1 for the `even` plane and 0
/// for the other.
pub open spec fn in_plane(i: int, j: int, even: bool) -> bool {
    (i + j) % 2 == if even {
        1int
    } else {
        0int
    }
}

/// The squares of row `i` among its first `m` columns (columns start at
/// `-n`) that belong to the plane, in column order.
pub open spec fn row_cells(n: int, even: bool, i: int, m: nat) -> Seq<(int, int)>
    decreases m,
{
    if m == 0 {
        Seq::empty()
    } else {
        let prev = row_cells(n, even, i, (m - 1) as nat);
        let j = -n + m - 1;
        if in_plane(i, j, even) {
            prev.push((i, j))
        } else {
            prev
        }
    }
}

/// The squares of the first `m` rows (rows start at `-n`) that belong to
/// the plane, row by row.
pub open spec fn grid_cells(n: int, even: bool, m: nat) -> Seq<(int, int)>
    decreases m,
{
    if m == 0 {
        Seq::empty()
    } else {
        grid_cells(n, even, (m - 1) as nat) + row_cells(n, even, -n + m - 1, (2 * n) as nat)
    }
}

/// The squares of one colour of the `2n` by `2n` board, in row order.
pub open spec fn plane_cells(n: int, even: bool) -> Seq<(int, int)> {
    if n <= 0 {
        Seq::empty()
    } else {
        grid_cells(n, even, (2 * n) as nat)
    }
}

/// The integer point `(x, y, 0)`.
pub open spec fn floor_point(x: int, y: int) -> Vector3<i32> {
    Vector3 { x: x as i32, y: y as i32, z: 0i32 }
}

/// Square number `s` of the mesh `m` is the square with lower corner
/// `cell`: four vertices from index `4s` (the corners `(i, j)`,
/// `(i + 1, j)`, `(i, j + 1)`, `(i + 1, j + 1)`), two faces from index
/// `2s`, and the upward normal on both.
pub open spec fn square_at(cell: (int, int), s: int, m: MeshView<i32>) -> bool {
    let (i, j) = cell;
    &&& m.vertices[4 * s] == floor_point(i, j)
    &&& m.vertices[4 * s + 1] == floor_point(i + 1, j)
    &&& m.vertices[4 * s + 2] == floor_point(i, j + 1)
    &&& m.vertices[4 * s + 3] == floor_point(i + 1, j + 1)
    &&& m.faces[2 * s] == ((4 * s) as usize, (4 * s + 1) as usize, (4 * s + 3) as usize)
    &&& m.faces[2 * s + 1] == ((4 * s) as usize, (4 * s + 2) as usize, (4 * s + 3) as usize)
    &&& m.normals[2 * s] == (Vector3 { x: 0i32, y: 0i32, z: 1i32 })
    &&& m.normals[2 * s + 1] == (Vector3 { x: 0i32, y: 0i32, z: 1i32 })
}

/// `m` is the mesh of the squares `cells`, one after the other.
pub open spec fn is_plane_mesh(cells: Seq<(int, int)>, m: MeshView<i32>) -> bool {
    &&& m.vertices.len() == 4 * cells.len()
    &&& m.faces.len() == 2 * cells.len()
    &&& m.normals.len() == 2 * cells.len()
    &&& forall|s: int| 0 <= s < cells.len() ==> #[trigger] square_at(cells[s], s, m)
}

proof fn lemma_row_cells_contains(n: int, even: bool, i: int, m: nat, a: int, b: int)
    ensures
        row_cells(n, even, i, m).contains((a, b)) <==> (a == i && -n <= b < -n + m && in_plane(
            a,
            b,
            even,
        )),
    decreases m,
{
    if m > 0 {
        lemma_row_cells_contains(n, even, i, (m - 1) as nat, a, b);
        let prev = row_cells(n, even, i, (m - 1) as nat);
        let j = -n + m - 1;
        if in_plane(i, j, even) {
            let cur = prev.push((i, j));
            if cur.contains((a, b)) {
                let w = choose|w: int| 0 <= w < cur.len() && cur[w] == (a, b);
                if w < prev.len() {
                    assert(prev[w] == (a, b));
                }
            }
            if prev.contains((a, b)) {
                let w = choose|w: int| 0 <= w < prev.len() && prev[w] == (a, b);
                assert(cur[w] == (a, b));
            }
            if a == i && b == j {
                assert(cur[prev.len() as int] == (a, b));
            }
        }
    }
}

proof fn lemma_grid_cells_contains(n: int, even: bool, m: nat, a: int, b: int)
    requires
        n > 0,
    ensures
        grid_cells(n, even, m).contains((a, b)) <==> (-n <= a < -n + m && -n <= b < n && in_plane(
            a,
            b,
            even,
        )),
    decreases m,
{
    if m > 0 {
        lemma_grid_cells_contains(n, even, (m - 1) as nat, a, b);
        let prev = grid_cells(n, even, (m - 1) as nat);
        let row = row_cells(n, even, -n + m - 1, (2 * n) as nat);
        lemma_row_cells_contains(n, even, -n + m - 1, (2 * n) as nat, a, b);
        let cur = prev + row;
        if cur.contains((a, b)) {
            let w = choose|w: int| 0 <= w < cur.len() && cur[w] == (a, b);
            if w < prev.len() {
                assert(prev[w] == (a, b));
            } else {
                assert(row[w - prev.len()] == (a, b));
            }
        }
        if prev.contains((a, b)) {
            let w = choose|w: int| 0 <= w < prev.len() && prev[w] == (a, b);
            assert(cur[w] == (a, b));
        }
        if row.contains((a, b)) {
            let w = choose|w: int| 0 <= w < row.len() && row[w] == (a, b);
            assert(cur[prev.len() + w] == (a, b));
        }
    }
}

/// A plane holds exactly the squares of the board whose lower corner has
/// the parity that the plane was chosen by.
pub proof fn plane_cells_are_one_colour(n: int, even: bool, i: int, j: int)
    ensures
        plane_cells(n, even).contains((i, j)) <==> (n > 0 && -n <= i < n && -n <= j < n && (((i + j)
            % 2 == 1) == even)),
{
    if n > 0 {
        lemma_grid_cells_contains(n, even, (2 * n) as nat, i, j);
    }
}

/// Every square of the board lies in exactly one of the two planes.
pub proof fn alternating_planes_partition_the_board(n: int, i: int, j: int)
    requires
        n > 0,
        -n <= i < n,
        -n <= j < n,
    ensures
        plane_cells(n, true).contains((i, j)) != plane_cells(n, false).contains((i, j)),
{
    plane_cells_are_one_colour(n, true, i, j);
    plane_cells_are_one_colour(n, false, i, j);
}

proof fn lemma_row_cells_len(n: int, even: bool, i: int, k: nat)
    requires
        n > 0,
    ensures
        row_cells(n, even, i, 2 * k).len() == k,
    decreases k,
{
    if k > 0 {
        lemma_row_cells_len(n, even, i, (k - 1) as nat);
        let j = -n + 2 * k - 2;
        assert(in_plane(i, j, even) != in_plane(i, j + 1, even));
        assert(row_cells(n, even, i, (2 * k - 1) as nat) == if in_plane(i, j, even) {
            row_cells(n, even, i, (2 * k - 2) as nat).push((i, j))
        } else {
            row_cells(n, even, i, (2 * k - 2) as nat)
        });
        assert(row_cells(n, even, i, 2 * k) == if in_plane(i, j + 1, even) {
            row_cells(n, even, i, (2 * k - 1) as nat).push((i, j + 1))
        } else {
            row_cells(n, even, i, (2 * k - 1) as nat)
        });
    }
}

proof fn lemma_grid_cells_len(n: int, even: bool, m: nat)
    requires
        n > 0,
    ensures
        grid_cells(n, even, m).len() == m * n,
    decreases m,
{
    if m > 0 {
        lemma_grid_cells_len(n, even, (m - 1) as nat);
        lemma_row_cells_len(n, even, -n + m - 1, n as nat);
        assert(2 * (n as nat) == (2 * n) as nat);
        assert(row_cells(n, even, -n + m - 1, (2 * n) as nat).len() == n);
        let mi = m as int;
        assert(((m - 1) as nat) * n == (mi - 1) * n);
        assert((mi - 1) * n + n == mi * n) by (nonlinear_arith);
        assert(grid_cells(n, even, m).len() == grid_cells(n, even, (m - 1) as nat).len() + n);
        assert(grid_cells(n, even, m).len() == mi * n);
    } else {
        assert(m * n == 0) by (nonlinear_arith)
            requires
                m == 0,
        ;
    }
}

proof fn lemma_row_cells_sorted(n: int, even: bool, i: int, m: nat)
    ensures
        forall|s: int|
            0 <= s < row_cells(n, even, i, m).len() ==> (#[trigger] row_cells(n, even, i, m)[s]).0 == i
                && -n <= row_cells(n, even, i, m)[s].1 < -n + m,
        forall|s: int, t: int|
            0 <= s < t < row_cells(n, even, i, m).len() ==> (#[trigger] row_cells(n, even, i, m)[s]).1
                < (#[trigger] row_cells(n, even, i, m)[t]).1,
    decreases m,
{
    if m > 0 {
        lemma_row_cells_sorted(n, even, i, (m - 1) as nat);
        let prev = row_cells(n, even, i, (m - 1) as nat);
        let r = row_cells(n, even, i, m);
        let j = -n + m - 1;
        if in_plane(i, j, even) {
            assert(r == prev.push((i, j)));
            assert forall|s: int| 0 <= s < r.len() implies (#[trigger] r[s]).0 == i && -n <= r[s].1 < -n + m by {
                if s < prev.len() {
                    assert(r[s] == prev[s]);
                }
            }
            assert forall|s: int, t: int| 0 <= s < t < r.len() implies (#[trigger] r[s]).1 < (#[trigger] r[t]).1 by {
                assert(r[s] == prev[s]);
                if t < prev.len() {
                    assert(r[t] == prev[t]);
                }
            }
        } else {
            assert(r == prev);
        }
    }
}

proof fn lemma_grid_cells_sorted(n: int, even: bool, m: nat)
    requires
        n > 0,
    ensures
        forall|s: int|
            0 <= s < grid_cells(n, even, m).len() ==> -n <= (#[trigger] grid_cells(n, even, m)[s]).0 < -n
                + m,
        forall|s: int, t: int|
            #![trigger grid_cells(n, even, m)[s], grid_cells(n, even, m)[t]]
            0 <= s < t < grid_cells(n, even, m).len() ==> grid_cells(n, even, m)[s].0 < grid_cells(
                n,
                even,
                m,
            )[t].0 || (grid_cells(n, even, m)[s].0 == grid_cells(n, even, m)[t].0 && grid_cells(
                n,
                even,
                m,
            )[s].1 < grid_cells(n, even, m)[t].1),
    decreases m,
{
    if m > 0 {
        let prev = grid_cells(n, even, (m - 1) as nat);
        let row = row_cells(n, even, -n + m - 1, (2 * n) as nat);
        lemma_grid_cells_sorted(n, even, (m - 1) as nat);
        lemma_row_cells_sorted(n, even, -n + m - 1, (2 * n) as nat);
        let g = grid_cells(n, even, m);
        assert(g == prev + row);
        assert forall|s: int| 0 <= s < g.len() implies -n <= (#[trigger] g[s]).0 < -n + m by {
            if s >= prev.len() {
                assert(g[s] == row[s - prev.len()]);
            }
        }
        assert forall|s: int, t: int|
            #![trigger g[s], g[t]]
            0 <= s < t < g.len() implies g[s].0 < g[t].0 || (g[s].0 == g[t].0 && g[s].1 < g[t].1) by {
            if t < prev.len() {
                assert(g[s] == prev[s] && g[t] == prev[t]);
            } else if s < prev.len() {
                assert(g[s] == prev[s]);
                assert(g[t] == row[t - prev.len()]);
            } else {
                assert(g[s] == row[s - prev.len()]);
                assert(g[t] == row[t - prev.len()]);
            }
        }
    }
}

/// A plane lists its squares in row order: by the first coordinate of the
/// lower corner, then by the second, each square once.
pub proof fn plane_cells_in_row_order(n: int, even: bool)
    ensures
        forall|s: int, t: int|
            #![trigger plane_cells(n, even)[s], plane_cells(n, even)[t]]
            0 <= s < t < plane_cells(n, even).len() ==> plane_cells(n, even)[s].0 < plane_cells(
                n,
                even,
            )[t].0 || (plane_cells(n, even)[s].0 == plane_cells(n, even)[t].0 && plane_cells(
                n,
                even,
            )[s].1 < plane_cells(n, even)[t].1),
{
    if n > 0 {
        lemma_grid_cells_sorted(n, even, (2 * n) as nat);
    }
}

/// Each plane of a `2n` by `2n` board holds half of its squares: `2n * n`.
pub proof fn plane_holds_half_the_board(n: int, even: bool)
    ensures
        plane_cells(n, even).len() == if n > 0 {
            2 * n * n
        } else {
            0
        },
{
    if n > 0 {
        lemma_grid_cells_len(n, even, (2 * n) as nat);
        assert((2 * n) * n == 2 * n * n) by (nonlinear_arith);
    }
}

/// The mesh of a plane is made of unit squares of that plane's colour,
/// two triangles each: for every face, the first corner is the lower
/// corner `(x, y, 0)` of a square of the board with `x + y` odd exactly
/// for the `even` plane, the third corner is `(x + 1, y + 1, 0)`, the second
/// is `(x + 1, y, 0)` for the first triangle of the square and
/// `(x, y + 1, 0)` for the second, and the normal points up. There are
/// four faces and eight vertices per unit of `n * n`.
pub proof fn plane_mesh_is_unit_squares(n: int, even: bool, m: MeshView<i32>)
    requires
        n > i32::MIN,
        n > 0 ==> 16 * n * n + 4 <= usize::MAX,
        is_plane_mesh(plane_cells(n, even), m),
    ensures
        n <= 0 ==> m.faces.len() == 0 && m.vertices.len() == 0,
        n > 0 ==> m.faces.len() == 4 * n * n && m.vertices.len() == 8 * n * n,
        forall|f: int|
            0 <= f < m.faces.len() ==> {
                let t = #[trigger] m.triangle(f);
                let (x, y) = (t.0.x as int, t.0.y as int);
                &&& -n <= x < n && -n <= y < n
                &&& (((x + y) % 2 == 1) == even)
                &&& t.0.z == 0
                &&& t.2 == (Vector3 { x: (x + 1) as i32, y: (y + 1) as i32, z: 0i32 })
                &&& t.1 == if f % 2 == 0 {
                    Vector3 { x: (x + 1) as i32, y: y as i32, z: 0i32 }
                } else {
                    Vector3 { x: x as i32, y: (y + 1) as i32, z: 0i32 }
                }
                &&& t.3 == (Vector3 { x: 0i32, y: 0i32, z: 1i32 })
            },
{
    let cells = plane_cells(n, even);
    plane_holds_half_the_board(n, even);
    if n > 0 {
        assert(2 * (2 * n * n) == 4 * n * n && 4 * (2 * n * n) == 8 * n * n) by (nonlinear_arith);
        assert(n <= 0x4000_0000) by (nonlinear_arith)
            requires
                n > 0,
                16 * n * n + 4 <= usize::MAX,
                usize::MAX <= 0xffff_ffff_ffff_ffff,
        ;
        assert(4 * (2 * n * n) + 4 <= usize::MAX) by (nonlinear_arith)
            requires
                n > 0,
                16 * n * n + 4 <= usize::MAX,
        ;
    }
    assert forall|f: int| 0 <= f < m.faces.len() implies {
        let t = #[trigger] m.triangle(f);
        let (x, y) = (t.0.x as int, t.0.y as int);
        &&& -n <= x < n && -n <= y < n
        &&& (((x + y) % 2 == 1) == even)
        &&& t.0.z == 0
        &&& t.2 == (Vector3 { x: (x + 1) as i32, y: (y + 1) as i32, z: 0i32 })
        &&& t.1 == if f % 2 == 0 {
            Vector3 { x: (x + 1) as i32, y: y as i32, z: 0i32 }
        } else {
            Vector3 { x: x as i32, y: (y + 1) as i32, z: 0i32 }
        }
        &&& t.3 == (Vector3 { x: 0i32, y: 0i32, z: 1i32 })
    } by {
        let s = f / 2;
        assert(0 <= s < cells.len());
        assert(f == 2 * s || f == 2 * s + 1);
        assert(square_at(cells[s], s, m));
        let (i, j) = cells[s];
        assert(cells.contains((i, j)));
        plane_cells_are_one_colour(n, even, i, j);
        assert(-n <= i < n && -n <= j < n);
        assert(4 * s + 3 < m.vertices.len());
        let t = m.triangle(f);
        if f == 2 * s {
            assert(m.faces[f] == ((4 * s) as usize, (4 * s + 1) as usize, (4 * s + 3) as usize));
            assert(t.0 == floor_point(i, j));
            assert(t.1 == floor_point(i + 1, j));
            assert(t.2 == floor_point(i + 1, j + 1));
            assert(f % 2 == 0);
        } else {
            assert(m.faces[f] == ((4 * s) as usize, (4 * s + 2) as usize, (4 * s + 3) as usize));
            assert(t.0 == floor_point(i, j));
            assert(t.1 == floor_point(i, j + 1));
            assert(t.2 == floor_point(i + 1, j + 1));
            assert(f % 2 == 1);
        }
        assert(t.0.x as int == i && t.0.y as int == j);
    }
}

impl Mesh<i32> {
    /// The squares of one colour of a `2n` by `2n` checkerboard whose
    /// squares have side 1, as a mesh with integer coordinates. Vertices
    /// are not merged: each square brings its own four.
    pub fn alternating_plane_grid(n: i32, even: bool) -> (m: Mesh<i32>)
        requires
            n > i32::MIN,
            n > 0 ==> 16 * n * n + 4 <= usize::MAX,
        ensures
            m@.wf(),
            is_plane_mesh(plane_cells(n as int, even), m@),
    {
        let mut vertexes: Vec<Vector3<i32>> = Vec::new();
        let mut faces: Vec<Face> = Vec::new();
        let mut normals: Vec<Vector3<i32>> = Vec::new();
        let mut index_counter: usize = 0;
        let ghost mut cells: Seq<(int, int)> = Seq::empty();
        if n > 0 {
            assert(n <= 0x4000_0000) by (nonlinear_arith)
                requires
                    n > 0,
                    16 * n * n + 4 <= usize::MAX,
                    usize::MAX <= 0xffff_ffff_ffff_ffff,
            ;
            let mut i: i32 = -n;
            while i < n
                invariant
                    0 < n <= 0x4000_0000,
                    16 * n * n + 4 <= usize::MAX,
                    -n <= i <= n,
                    cells == grid_cells(n as int, even, (i + n) as nat),
                    cells.len() <= (2 * n) * (i + n),
                    index_counter == 4 * cells.len(),
                    is_plane_mesh(cells, MeshView { vertices: vertexes@, faces: faces@, normals: normals@ }),
                decreases n - i,
            {
                let mut j: i32 = -n;
                let ghost row_start = cells;
                while j < n
                    invariant
                        0 < n <= 0x4000_0000,
                        16 * n * n + 4 <= usize::MAX,
                        -n <= i < n,
                        -n <= j <= n,
                        row_start == grid_cells(n as int, even, (i + n) as nat),
                        row_start.len() <= (2 * n) * (i + n),
                        cells == row_start + row_cells(n as int, even, i as int, (j + n) as nat),
                        cells.len() <= (2 * n) * (i + n) + (j + n),
                        index_counter == 4 * cells.len(),
                        is_plane_mesh(cells, MeshView { vertices: vertexes@, faces: faces@, normals: normals@ }),
                    decreases n - j,
                {
                    proof {
                        assert((2 * n) * (i + n) + (j + n) < 4 * n * n) by (nonlinear_arith)
                            requires
                                -n <= i < n,
                                -n <= j < n,
                                n > 0,
                        ;
                        assert(4 * (4 * n * n) == 16 * n * n) by (nonlinear_arith);
                    }
                    let parity = ((i as i64) + (j as i64) + 2 * (n as i64)) % 2;
                    let wanted: i64 = if even {
                        1
                    } else {
                        0
                    };
                    let ghost old_cells = cells;
                    let ghost old_mesh = MeshView { vertices: vertexes@, faces: faces@, normals: normals@ };
                    assert(((i + j) as int) % 2 == ((i as int) + (j as int) + 2 * (n as int)) % 2);
                    if parity == wanted {
                        let s = index_counter;
                        vertexes.push(Vector3::new(i, j, 0));
                        vertexes.push(Vector3::new(i + 1, j, 0));
                        vertexes.push(Vector3::new(i, j + 1, 0));
                        vertexes.push(Vector3::new(i + 1, j + 1, 0));
                        normals.push(Vector3::new(0, 0, 1));
                        normals.push(Vector3::new(0, 0, 1));
                        faces.push((s, s + 1, s + 3));
                        faces.push((s, s + 2, s + 3));
                        index_counter += 4;
                        proof {
                            cells = old_cells.push((i as int, j as int));
                            let m = MeshView { vertices: vertexes@, faces: faces@, normals: normals@ };
                            assert forall|t: int| 0 <= t < cells.len() implies #[trigger] square_at(cells[t], t, m) by {
                                if t < old_cells.len() {
                                    assert(square_at(old_cells[t], t, old_mesh));
                                }
                            }
                        }
                    }
                    proof {
                        let rc = row_cells(n as int, even, i as int, (j + n + 1) as nat);
                        assert(rc == if in_plane(i as int, j as int, even) {
                            row_cells(n as int, even, i as int, (j + n) as nat).push((i as int, j as int))
                        } else {
                            row_cells(n as int, even, i as int, (j + n) as nat)
                        });
                        assert(cells =~= row_start + rc);
                    }
                    j += 1;
                }
                proof {
                    assert(grid_cells(n as int, even, (i + n + 1) as nat) == row_start + row_cells(
                        n as int,
                        even,
                        i as int,
                        (2 * n) as nat,
                    ));
                    assert((2 * n) * (i + n) + 2 * n == (2 * n) * (i + 1 + n)) by (nonlinear_arith);
                }
                i += 1;
            }
        }
        proof {
            let m = MeshView { vertices: vertexes@, faces: faces@, normals: normals@ };
            assert(cells == plane_cells(n as int, even));
            assert forall|f: int| 0 <= f < faces@.len() implies #[trigger] face_in_range(
                faces@[f],
                vertexes@.len() as int,
            ) by {
                let s = f / 2;
                assert(0 <= s < cells.len());
                assert(square_at(cells[s], s, m));
                assert(f == 2 * s || f == 2 * s + 1);
            }
        }
        Mesh::from_parts(vertexes, faces, normals)
    }
}

} // verus!
