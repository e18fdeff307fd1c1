//! The sphere is a closed surface: every edge lies on exactly two triangles.

use vstd::prelude::*;

use crate::sphere_mesh::{
    edge_end, edge_start, edge_vertex, face_bottom, face_inner, face_reversed, face_side_a,
    face_side_b, face_vertex, grid_corner, lemma_edge_vertex_bound, lemma_face_slot_bounds,
    lemma_tri_mono, lemma_tri_nonneg, tri, triangle, as_ints, index_count_for, lemma_triangle_position,
    mesh_indices, SphereMesh,
};
use vstd::arithmetic::div_mod::{lemma_fundamental_div_mod, lemma_mod_bound};

verus! {

/// A triangle of the sphere at resolution `n`: face `f`, grid row `row`,
/// column `col`.
pub open spec fn valid_triangle(n: int, f: int, row: int, col: int) -> bool {
    &&& 0 <= f < 8
    &&& 0 <= row <= n
    &&& 0 <= col < 2 * row + 1
}

/// Whether the triangle traverses the directed edge from vertex `x` to
/// vertex `y` in its winding order.
pub open spec fn has_edge(n: int, f: int, row: int, col: int, x: int, y: int) -> bool {
    let t = triangle(n, f, row, col);
    ||| (t[0] == x && t[1] == y)
    ||| (t[1] == x && t[2] == y)
    ||| (t[2] == x && t[0] == y)
}

/// Grid point of corner `q` of a triangle, before any reversal of winding.
spec fn corner_point(row: int, col: int, q: int) -> (int, int) {
    let m = col / 2;
    if col % 2 == 0 {
        if q == 0 {
            (row, m)
        } else if q == 1 {
            (row + 1, m + 1)
        } else {
            (row + 1, m)
        }
    } else {
        if q == 0 {
            (row, m + 1)
        } else if q == 1 {
            (row + 1, m + 1)
        } else {
            (row, m)
        }
    }
}

spec fn point_vertex(n: int, f: int, p: (int, int)) -> int {
    face_vertex(n, f, p.0, p.1)
}

spec fn next(q: int) -> int {
    if q == 2 {
        0
    } else {
        q + 1
    }
}

/// The face whose first side is the second side of face `f`.
spec fn after(f: int) -> int {
    if f == 3 {
        0
    } else if f == 7 {
        4
    } else {
        f + 1
    }
}

/// The face whose second side is the first side of face `f`.
spec fn before(f: int) -> int {
    if f == 0 {
        3
    } else if f == 4 {
        7
    } else {
        f - 1
    }
}

/// The face on the other side of the bottom edge of face `f`.
spec fn across(f: int) -> int {
    if f < 4 {
        f + 4
    } else {
        f - 4
    }
}

/// The two sides and the bottom of a face's grid are its three base edges.
proof fn lemma_face_border(n: int, f: int)
    requires
        n >= 0,
        0 <= f < 8,
    ensures
        forall|k: int| 0 <= k <= n + 1 ==> #[trigger] face_vertex(n, f, k, 0) == edge_vertex(n, face_side_a(f), k),
        forall|k: int| 0 <= k <= n + 1 ==> #[trigger] face_vertex(n, f, k, k) == edge_vertex(n, face_side_b(f), k),
        forall|c: int| 0 <= c <= n + 1 ==> #[trigger] face_vertex(n, f, n + 1, c) == edge_vertex(n, face_bottom(f), c),
        face_side_a(after(f)) == face_side_b(f),
        face_side_b(before(f)) == face_side_a(f),
        face_bottom(across(f)) == face_bottom(f),
        face_reversed(after(f)) == face_reversed(f),
        face_reversed(before(f)) == face_reversed(f),
        face_reversed(across(f)) != face_reversed(f),
        0 <= after(f) < 8 && 0 <= before(f) < 8 && 0 <= across(f) < 8,
        after(f) != f && before(f) != f && across(f) != f,
{
}

/// Each unreversed grid edge of a triangle is an edge of the triangle, in
/// its own direction on faces wound forwards and reversed on the others.
proof fn lemma_grid_edge_present(n: int, f: int, row: int, col: int, u: int)
    requires
        valid_triangle(n, f, row, col),
        0 <= u < 3,
    ensures
        ({
            let x = point_vertex(n, f, corner_point(row, col, u));
            let y = point_vertex(n, f, corner_point(row, col, next(u)));
            if face_reversed(f) {
                has_edge(n, f, row, col, y, x)
            } else {
                has_edge(n, f, row, col, x, y)
            }
        }),
{
    let t = triangle(n, f, row, col);
    assert(t[0] == grid_corner(n, f, row, col, 0));
    assert(point_vertex(n, f, corner_point(row, col, 0)) == grid_corner(n, f, row, col, 0));
    assert(point_vertex(n, f, corner_point(row, col, 1)) == grid_corner(n, f, row, col, 1));
    assert(point_vertex(n, f, corner_point(row, col, 2)) == grid_corner(n, f, row, col, 2));
}

/// The triangle across each grid edge: another triangle whose grid edge
/// joins the same two vertices, in the opposite direction when the two faces
/// are wound alike, and in the same direction otherwise.
proof fn lemma_partner(n: int, f: int, row: int, col: int, u: int) -> (r: (int, int, int, int))
    requires
        n >= 0,
        valid_triangle(n, f, row, col),
        0 <= u < 3,
    ensures
        valid_triangle(n, r.0, r.1, r.2),
        0 <= r.3 < 3,
        (r.0, r.1, r.2) != (f, row, col),
        ({
            let p = point_vertex(n, f, corner_point(row, col, u));
            let q = point_vertex(n, f, corner_point(row, col, next(u)));
            let p_across = point_vertex(n, r.0, corner_point(r.1, r.2, r.3));
            let q_across = point_vertex(n, r.0, corner_point(r.1, r.2, next(r.3)));
            if face_reversed(r.0) == face_reversed(f) {
                p_across == q && q_across == p
            } else {
                p_across == p && q_across == q
            }
        }),
{
    lemma_face_border(n, f);
    let m = col / 2;
    if col % 2 == 0 {
        if u == 0 {
            if m < row {
                (f, row, 2 * m + 1, 1)
            } else {
                let g = after(f);
                lemma_face_border(n, g);
                assert(face_vertex(n, g, row, 0) == face_vertex(n, f, row, row));
                assert(face_vertex(n, g, row + 1, 0) == face_vertex(n, f, row + 1, row + 1));
                (g, row, 0, 2)
            }
        } else if u == 1 {
            if row < n {
                (f, row + 1, 2 * m + 1, 2)
            } else {
                let g = across(f);
                lemma_face_border(n, g);
                assert(face_vertex(n, g, n + 1, m) == face_vertex(n, f, n + 1, m));
                assert(face_vertex(n, g, n + 1, m + 1) == face_vertex(n, f, n + 1, m + 1));
                (g, row, col, 1)
            }
        } else {
            if m >= 1 {
                (f, row, 2 * m - 1, 0)
            } else {
                let g = before(f);
                lemma_face_border(n, g);
                assert(face_vertex(n, g, row, row) == face_vertex(n, f, row, 0));
                assert(face_vertex(n, g, row + 1, row + 1) == face_vertex(n, f, row + 1, 0));
                (g, row, 2 * row, 0)
            }
        }
    } else {
        if u == 0 {
            (f, row, 2 * m + 2, 2)
        } else if u == 1 {
            (f, row, 2 * m, 0)
        } else {
            (f, row - 1, 2 * m, 1)
        }
    }
}

/// The sphere is closed: every directed edge of every triangle is traversed
/// in the opposite direction by another triangle, so no edge lies on a
/// boundary and all triangles are wound consistently.
proof fn lemma_every_edge_shared(n: int, f: int, row: int, col: int, x: int, y: int)
    requires
        n >= 0,
        valid_triangle(n, f, row, col),
        has_edge(n, f, row, col, x, y),
    ensures
        exists|f2: int, row2: int, col2: int|
            valid_triangle(n, f2, row2, col2) && (f2, row2, col2) != (f, row, col) && #[trigger] has_edge(
                n,
                f2,
                row2,
                col2,
                y,
                x,
            ),
{
    let t = triangle(n, f, row, col);
    let cp0 = point_vertex(n, f, corner_point(row, col, 0));
    let cp1 = point_vertex(n, f, corner_point(row, col, 1));
    let cp2 = point_vertex(n, f, corner_point(row, col, 2));
    assert(cp0 == grid_corner(n, f, row, col, 0));
    assert(cp1 == grid_corner(n, f, row, col, 1));
    assert(cp2 == grid_corner(n, f, row, col, 2));
    // The grid edge `u` whose endpoints are `x` and `y`.
    let u: int = if !face_reversed(f) {
        if t[0] == x && t[1] == y {
            0
        } else if t[1] == x && t[2] == y {
            1
        } else {
            2
        }
    } else {
        if t[0] == x && t[1] == y {
            2
        } else if t[1] == x && t[2] == y {
            1
        } else {
            0
        }
    };
    let p = point_vertex(n, f, corner_point(row, col, u));
    let q = point_vertex(n, f, corner_point(row, col, next(u)));
    assert(if face_reversed(f) { x == q && y == p } else { x == p && y == q });
    let (f2, row2, col2, u2) = lemma_partner(n, f, row, col, u);
    lemma_grid_edge_present(n, f2, row2, col2, u2);
    assert(has_edge(n, f2, row2, col2, y, x));
}

/// Interior points of base edges are numbered edge by edge.
proof fn lemma_edge_interior_unique(n: int, e1: int, i1: int, e2: int, i2: int)
    requires
        0 <= e1 < 12,
        0 <= e2 < 12,
        1 <= i1 <= n,
        1 <= i2 <= n,
        edge_vertex(n, e1, i1) == edge_vertex(n, e2, i2),
    ensures
        e1 == e2,
        i1 == i2,
{
    assert(e1 == e2) by {
        if e1 < e2 {
            assert(e1 * n + i1 - 1 < e2 * n + i2 - 1) by (nonlinear_arith)
                requires e1 < e2, 1 <= i1 <= n, 1 <= i2;
        } else if e2 < e1 {
            assert(e2 * n + i2 - 1 < e1 * n + i1 - 1) by (nonlinear_arith)
                requires e2 < e1, 1 <= i2 <= n, 1 <= i1;
        }
    }
}

/// Face interiors are numbered face by face, row by row.
proof fn lemma_inner_unique(n: int, f1: int, k1: int, c1: int, f2: int, k2: int, c2: int)
    requires
        0 <= f1 < 8,
        0 <= f2 < 8,
        1 <= c1 < k1 <= n,
        1 <= c2 < k2 <= n,
        face_inner(n, f1, k1, c1) == face_inner(n, f2, k2, c2),
    ensures
        f1 == f2,
        k1 == k2,
        c1 == c2,
{
    let t = tri(n - 1);
    lemma_face_slot_bounds(n, f1, k1, c1);
    lemma_face_slot_bounds(n, f2, k2, c2);
    assert(f1 == f2) by {
        if f1 < f2 {
            assert(f1 * t + t <= f2 * t) by (nonlinear_arith)
                requires f1 < f2, t >= 0;
        } else if f2 < f1 {
            assert(f2 * t + t <= f1 * t) by (nonlinear_arith)
                requires f2 < f1, t >= 0;
        }
    }
    lemma_tri_nonneg(n - 1);
    assert(k1 == k2) by {
        if k1 < k2 {
            lemma_tri_mono(k1 - 1, k2 - 2);
        } else if k2 < k1 {
            lemma_tri_mono(k2 - 1, k1 - 2);
        }
        lemma_face_slot_bounds(n, f1, k1, c1);
        lemma_face_slot_bounds(n, f1, k2, c2);
        assert(tri(k1 - 1) == tri(k1 - 2) + k1 - 1);
        assert(tri(k2 - 1) == tri(k2 - 2) + k2 - 1);
    }
}

/// A grid point of a face: row `k` (0 ..= n + 1), column `c` (0 ..= k).
spec fn on_grid(n: int, k: int, c: int) -> bool {
    0 <= c <= k <= n + 1
}

spec fn is_inner(n: int, k: int, c: int) -> bool {
    1 <= c < k <= n
}

/// Within one face, distinct grid points are distinct vertices.
proof fn lemma_face_injective(n: int, f: int, k1: int, c1: int, k2: int, c2: int)
    requires
        n >= 0,
        0 <= f < 8,
        on_grid(n, k1, c1),
        on_grid(n, k2, c2),
        face_vertex(n, f, k1, c1) == face_vertex(n, f, k2, c2),
    ensures
        k1 == k2,
        c1 == c2,
{
    lemma_face_border(n, f);
    let v = face_vertex(n, f, k1, c1);
    if is_inner(n, k1, c1) && is_inner(n, k2, c2) {
        lemma_inner_unique(n, f, k1, c1, f, k2, c2);
    } else if is_inner(n, k1, c1) || is_inner(n, k2, c2) {
        let (k, c, kb, cb) = if is_inner(n, k1, c1) { (k1, c1, k2, c2) } else { (k2, c2, k1, c1) };
        lemma_face_slot_bounds(n, f, k, c);
        lemma_tri_nonneg(n - 1);
        lemma_tri_nonneg(k - 2);
        assert(f * tri(n - 1) >= 0) by (nonlinear_arith)
            requires f >= 0, tri(n - 1) >= 0;
        let e = if cb == 0 { face_side_a(f) } else if cb == kb { face_side_b(f) } else { face_bottom(f) };
        let i = if cb == 0 || cb == kb { kb } else { cb };
        assert(face_vertex(n, f, kb, cb) == edge_vertex(n, e, i));
        lemma_edge_vertex_bound(n, e, i);
    } else {
        let e1 = if c1 == 0 { face_side_a(f) } else if c1 == k1 { face_side_b(f) } else { face_bottom(f) };
        let i1 = if c1 == 0 || c1 == k1 { k1 } else { c1 };
        let e2 = if c2 == 0 { face_side_a(f) } else if c2 == k2 { face_side_b(f) } else { face_bottom(f) };
        let i2 = if c2 == 0 || c2 == k2 { k2 } else { c2 };
        assert(face_vertex(n, f, k1, c1) == edge_vertex(n, e1, i1));
        assert(face_vertex(n, f, k2, c2) == edge_vertex(n, e2, i2));
        if 1 <= i1 <= n && 1 <= i2 <= n {
            lemma_edge_interior_unique(n, e1, i1, e2, i2);
        } else if 1 <= i1 <= n {
            lemma_edge_vertex_bound(n, e1, i1);
            assert(6 + e1 * n >= 6) by (nonlinear_arith)
                requires e1 >= 0, n >= 0;
        } else if 1 <= i2 <= n {
            lemma_edge_vertex_bound(n, e2, i2);
            assert(6 + e2 * n >= 6) by (nonlinear_arith)
                requires e2 >= 0, n >= 0;
        }
    }
}

/// Within a face, the triangle and corner of an unreversed grid edge are
/// determined by the edge's two end points.
proof fn lemma_grid_edge_determines(n: int, r1: int, c1: int, u1: int, r2: int, c2: int, u2: int)
    requires
        0 <= r1 <= n,
        0 <= c1 < 2 * r1 + 1,
        0 <= r2 <= n,
        0 <= c2 < 2 * r2 + 1,
        0 <= u1 < 3,
        0 <= u2 < 3,
        corner_point(r1, c1, u1) == corner_point(r2, c2, u2),
        corner_point(r1, c1, next(u1)) == corner_point(r2, c2, next(u2)),
    ensures
        r1 == r2,
        c1 == c2,
{
    assert(c1 == 2 * (c1 / 2) + c1 % 2);
    assert(c2 == 2 * (c2 / 2) + c2 % 2);
}

/// The unreversed grid edge behind each directed edge of a triangle.
proof fn lemma_edge_on_grid(n: int, f: int, row: int, col: int, x: int, y: int) -> (u: int)
    requires
        valid_triangle(n, f, row, col),
        has_edge(n, f, row, col, x, y),
    ensures
        0 <= u < 3,
        ({
            let p = point_vertex(n, f, corner_point(row, col, u));
            let q = point_vertex(n, f, corner_point(row, col, next(u)));
            if face_reversed(f) {
                x == q && y == p
            } else {
                x == p && y == q
            }
        }),
{
    let t = triangle(n, f, row, col);
    assert(point_vertex(n, f, corner_point(row, col, 0)) == grid_corner(n, f, row, col, 0));
    assert(point_vertex(n, f, corner_point(row, col, 1)) == grid_corner(n, f, row, col, 1));
    assert(point_vertex(n, f, corner_point(row, col, 2)) == grid_corner(n, f, row, col, 2));
    if !face_reversed(f) {
        if t[0] == x && t[1] == y {
            0
        } else if t[1] == x && t[2] == y {
            1
        } else {
            2
        }
    } else {
        if t[0] == x && t[1] == y {
            2
        } else if t[1] == x && t[2] == y {
            1
        } else {
            0
        }
    }
}

proof fn lemma_corner_on_grid(n: int, row: int, col: int, u: int)
    requires
        0 <= row <= n,
        0 <= col < 2 * row + 1,
        0 <= u < 3,
    ensures
        on_grid(n, corner_point(row, col, u).0, corner_point(row, col, u).1),
{
}

/// Two triangles of one face that traverse the same directed edge are the
/// same triangle.
proof fn lemma_same_face_unique(n: int, f: int, r1: int, c1: int, r2: int, c2: int, x: int, y: int)
    requires
        n >= 0,
        valid_triangle(n, f, r1, c1),
        valid_triangle(n, f, r2, c2),
        has_edge(n, f, r1, c1, x, y),
        has_edge(n, f, r2, c2, x, y),
    ensures
        r1 == r2,
        c1 == c2,
{
    let u1 = lemma_edge_on_grid(n, f, r1, c1, x, y);
    let u2 = lemma_edge_on_grid(n, f, r2, c2, x, y);
    let a1 = corner_point(r1, c1, u1);
    let b1 = corner_point(r1, c1, next(u1));
    let a2 = corner_point(r2, c2, u2);
    let b2 = corner_point(r2, c2, next(u2));
    lemma_corner_on_grid(n, r1, c1, u1);
    lemma_corner_on_grid(n, r1, c1, next(u1));
    lemma_corner_on_grid(n, r2, c2, u2);
    lemma_corner_on_grid(n, r2, c2, next(u2));
    lemma_face_injective(n, f, a1.0, a1.1, a2.0, a2.1);
    lemma_face_injective(n, f, b1.0, b1.1, b2.0, b2.1);
    lemma_grid_edge_determines(n, r1, c1, u1, r2, c2, u2);
}

/// The base edge along side `s` of face `f`: 0 its first side, 1 its second
/// side, 2 its bottom.
spec fn side_edge(f: int, s: int) -> int {
    if s == 0 {
        face_side_a(f)
    } else if s == 1 {
        face_side_b(f)
    } else {
        face_bottom(f)
    }
}

spec fn on_side(n: int, s: int, k: int, c: int) -> bool {
    if s == 0 {
        c == 0
    } else if s == 1 {
        c == k
    } else {
        k == n + 1
    }
}

/// Position along its base edge of a grid point on side `s`.
spec fn side_pos(s: int, k: int, c: int) -> int {
    if s == 2 {
        c
    } else {
        k
    }
}

/// Direction, in positions along the base edge, in which the triangles of
/// face `f` traverse its side `s`.
spec fn side_dir(f: int, s: int) -> int {
    let forward = if s == 1 { 1int } else { -1int };
    if face_reversed(f) {
        -forward
    } else {
        forward
    }
}

spec fn is_corner(n: int, k: int, c: int) -> bool {
    k == 0 || (k == n + 1 && (c == 0 || c == n + 1))
}

proof fn lemma_side_vertex(n: int, f: int, s: int, k: int, c: int)
    requires
        n >= 0,
        0 <= f < 8,
        0 <= s < 3,
        on_grid(n, k, c),
        on_side(n, s, k, c),
    ensures
        face_vertex(n, f, k, c) == edge_vertex(n, side_edge(f, s), side_pos(s, k, c)),
        0 <= side_pos(s, k, c) <= n + 1,
        0 <= side_edge(f, s) < 12,
        is_corner(n, k, c) <==> (side_pos(s, k, c) == 0 || side_pos(s, k, c) == n + 1),
{
    lemma_face_border(n, f);
}

/// Two faces share at most one base edge, and on a shared edge their
/// triangles run in opposite directions.
proof fn lemma_shared_edge(f1: int, s1: int, f2: int, s2: int)
    requires
        0 <= f1 < 8,
        0 <= f2 < 8,
        f1 != f2,
        0 <= s1 < 3,
        0 <= s2 < 3,
        side_edge(f1, s1) == side_edge(f2, s2),
    ensures
        side_dir(f1, s1) == -side_dir(f2, s2),
        forall|t1: int, t2: int|
            0 <= t1 < 3 && 0 <= t2 < 3 && t1 != s1 ==> side_edge(f1, t1) != side_edge(f2, t2) || t2 == s2,
{
}

/// The sides of a face are three distinct base edges.
proof fn lemma_sides_distinct(f: int, s1: int, s2: int)
    requires
        0 <= f < 8,
        0 <= s1 < 3,
        0 <= s2 < 3,
        side_edge(f, s1) == side_edge(f, s2),
    ensures
        s1 == s2,
{
}

/// A base edge is determined by its two end points.
proof fn lemma_edge_by_ends(e1: int, e2: int)
    requires
        0 <= e1 < 12,
        0 <= e2 < 12,
        (edge_start(e1) == edge_start(e2) && edge_end(e1) == edge_end(e2)) || (edge_start(e1)
            == edge_end(e2) && edge_end(e1) == edge_start(e2)),
    ensures
        e1 == e2,
        edge_start(e1) != edge_end(e1),
{
}

/// A grid edge with both ends on the border runs along one side, unless it
/// cuts a corner of the grid between two points that are not corners.
proof fn lemma_border_pair(n: int, row: int, col: int, u: int)
    requires
        0 <= row <= n,
        0 <= col < 2 * row + 1,
        0 <= u < 3,
        !is_inner(n, corner_point(row, col, u).0, corner_point(row, col, u).1),
        !is_inner(n, corner_point(row, col, next(u)).0, corner_point(row, col, next(u)).1),
    ensures
        ({
            let a = corner_point(row, col, u);
            let b = corner_point(row, col, next(u));
            ||| exists|s: int| 0 <= s < 3 && on_side(n, s, a.0, a.1) && #[trigger] on_side(n, s, b.0, b.1)
            ||| !is_corner(n, a.0, a.1) && !is_corner(n, b.0, b.1)
        }),
{
    let a = corner_point(row, col, u);
    let b = corner_point(row, col, next(u));
    assert(col == 2 * (col / 2) + col % 2);
    if on_side(n, 0, a.0, a.1) && on_side(n, 0, b.0, b.1) {
    } else if on_side(n, 1, a.0, a.1) && on_side(n, 1, b.0, b.1) {
    } else if on_side(n, 2, a.0, a.1) && on_side(n, 2, b.0, b.1) {
    } else {
        assert(!is_corner(n, a.0, a.1) && !is_corner(n, b.0, b.1));
    }
}

/// Along a side, a grid edge steps one position in the side's direction.
proof fn lemma_side_step(n: int, f: int, row: int, col: int, u: int, s: int)
    requires
        0 <= row <= n,
        0 <= col < 2 * row + 1,
        0 <= u < 3,
        0 <= s < 3,
        on_side(n, s, corner_point(row, col, u).0, corner_point(row, col, u).1),
        on_side(n, s, corner_point(row, col, next(u)).0, corner_point(row, col, next(u)).1),
    ensures
        ({
            let a = corner_point(row, col, u);
            let b = corner_point(row, col, next(u));
            let step = side_pos(s, b.0, b.1) - side_pos(s, a.0, a.1);
            if face_reversed(f) {
                -step == side_dir(f, s)
            } else {
                step == side_dir(f, s)
            }
        }),
{
    assert(col == 2 * (col / 2) + col % 2);
}

/// A side that a border point lies on.
spec fn some_side(k: int, c: int) -> int {
    if c == 0 {
        0
    } else if c == k {
        1
    } else {
        2
    }
}

/// A vertex on the border of two different faces is not inside either.
proof fn lemma_shared_not_inner(n: int, f1: int, k1: int, c1: int, f2: int, k2: int, c2: int)
    requires
        n >= 0,
        0 <= f1 < 8,
        0 <= f2 < 8,
        f1 != f2,
        on_grid(n, k1, c1),
        on_grid(n, k2, c2),
        face_vertex(n, f1, k1, c1) == face_vertex(n, f2, k2, c2),
    ensures
        !is_inner(n, k1, c1),
        !is_inner(n, k2, c2),
{
    if is_inner(n, k1, c1) && is_inner(n, k2, c2) {
        lemma_inner_unique(n, f1, k1, c1, f2, k2, c2);
    } else if is_inner(n, k1, c1) || is_inner(n, k2, c2) {
        let (f, k, c, fb, kb, cb) = if is_inner(n, k1, c1) {
            (f1, k1, c1, f2, k2, c2)
        } else {
            (f2, k2, c2, f1, k1, c1)
        };
        lemma_face_slot_bounds(n, f, k, c);
        lemma_tri_nonneg(n - 1);
        lemma_tri_nonneg(k - 2);
        assert(f * tri(n - 1) >= 0) by (nonlinear_arith)
            requires f >= 0, tri(n - 1) >= 0;
        let sb = some_side(kb, cb);
        lemma_side_vertex(n, fb, sb, kb, cb);
        lemma_edge_vertex_bound(n, side_edge(fb, sb), side_pos(sb, kb, cb));
    }
}

/// Two steps of one position along base edges that join the same two
/// vertices are the same step.
proof fn lemma_positions_match(n: int, e1: int, ix: int, iy: int, e2: int, jx: int, jy: int)
    requires
        n >= 0,
        0 <= e1 < 12,
        0 <= e2 < 12,
        0 <= ix <= n + 1,
        0 <= iy <= n + 1,
        0 <= jx <= n + 1,
        0 <= jy <= n + 1,
        iy - ix == 1 || iy - ix == -1,
        jy - jx == 1 || jy - jx == -1,
        edge_vertex(n, e1, ix) == edge_vertex(n, e2, jx),
        edge_vertex(n, e1, iy) == edge_vertex(n, e2, jy),
    ensures
        e1 == e2,
        ix == jx,
        iy == jy,
{
    lemma_edge_by_ends(e1, e1);
    lemma_edge_by_ends(e2, e2);
    if 1 <= ix <= n || 1 <= jx <= n {
        lemma_edge_vertex_bound(n, e1, ix);
        lemma_edge_vertex_bound(n, e2, jx);
        assert(6 + e1 * n >= 6 && 6 + e2 * n >= 6) by (nonlinear_arith)
            requires e1 >= 0, e2 >= 0, n >= 0;
        lemma_edge_interior_unique(n, e1, ix, e2, jx);
        if 1 <= iy <= n && 1 <= jy <= n {
            lemma_edge_interior_unique(n, e1, iy, e2, jy);
        }
    } else if 1 <= iy <= n || 1 <= jy <= n {
        lemma_edge_vertex_bound(n, e1, iy);
        lemma_edge_vertex_bound(n, e2, jy);
        assert(6 + e1 * n >= 6 && 6 + e2 * n >= 6) by (nonlinear_arith)
            requires e1 >= 0, e2 >= 0, n >= 0;
        lemma_edge_interior_unique(n, e1, iy, e2, jy);
    } else {
        lemma_edge_by_ends(e1, e2);
    }
}

/// A grid edge that cuts a corner of face `f1` joins the interiors of two of
/// its sides, so no other face holds both of its ends.
proof fn lemma_corner_cut(
    n: int,
    f1: int,
    kx1: int,
    cx1: int,
    ky1: int,
    cy1: int,
    f2: int,
    kx2: int,
    cx2: int,
    ky2: int,
    cy2: int,
)
    requires
        n >= 0,
        0 <= f1 < 8,
        0 <= f2 < 8,
        on_grid(n, kx1, cx1),
        on_grid(n, ky1, cy1),
        on_grid(n, kx2, cx2),
        on_grid(n, ky2, cy2),
        !is_inner(n, kx1, cx1),
        !is_inner(n, ky1, cy1),
        !is_inner(n, kx2, cx2),
        !is_inner(n, ky2, cy2),
        !is_corner(n, kx1, cx1),
        !is_corner(n, ky1, cy1),
        forall|s: int| 0 <= s < 3 ==> !(on_side(n, s, kx1, cx1) && #[trigger] on_side(n, s, ky1, cy1)),
        face_vertex(n, f1, kx1, cx1) == face_vertex(n, f2, kx2, cx2),
        face_vertex(n, f1, ky1, cy1) == face_vertex(n, f2, ky2, cy2),
    ensures
        f1 == f2,
{
    if f1 != f2 {
        let sx1 = some_side(kx1, cx1);
        let sy1 = some_side(ky1, cy1);
        let sx2 = some_side(kx2, cx2);
        let sy2 = some_side(ky2, cy2);
        lemma_side_vertex(n, f1, sx1, kx1, cx1);
        lemma_side_vertex(n, f1, sy1, ky1, cy1);
        lemma_side_vertex(n, f2, sx2, kx2, cx2);
        lemma_side_vertex(n, f2, sy2, ky2, cy2);
        let ex1 = side_edge(f1, sx1);
        let ey1 = side_edge(f1, sy1);
        let ex2 = side_edge(f2, sx2);
        let ey2 = side_edge(f2, sy2);
        let ix1 = side_pos(sx1, kx1, cx1);
        let iy1 = side_pos(sy1, ky1, cy1);
        let ix2 = side_pos(sx2, kx2, cx2);
        let iy2 = side_pos(sy2, ky2, cy2);
        lemma_edge_vertex_bound(n, ex1, ix1);
        lemma_edge_vertex_bound(n, ey1, iy1);
        assert(6 + ex1 * n >= 6 && 6 + ey1 * n >= 6) by (nonlinear_arith)
            requires ex1 >= 0, ey1 >= 0, n >= 0;
        assert(sx1 != sy1) by {
            if sx1 == sy1 {
                assert(on_side(n, sx1, ky1, cy1));
            }
        }
        assert(ex1 != ey1) by {
            if ex1 == ey1 {
                lemma_sides_distinct(f1, sx1, sy1);
            }
        }
        lemma_edge_vertex_bound(n, ex2, ix2);
        lemma_edge_vertex_bound(n, ey2, iy2);
        assert(1 <= ix2 <= n);
        assert(1 <= iy2 <= n);
        lemma_edge_interior_unique(n, ex1, ix1, ex2, ix2);
        lemma_edge_interior_unique(n, ey1, iy1, ey2, iy2);
        lemma_shared_edge(f1, sx1, f2, sx2);
        assert(side_edge(f1, sy1) != side_edge(f2, sy2) || sy2 == sx2);
    }
}

/// Two faces that run along the same base edge between the same two vertices
/// are the same face: on a shared edge, two faces run in opposite directions.
proof fn lemma_along_side(
    n: int,
    f1: int,
    s1: int,
    kx1: int,
    cx1: int,
    ky1: int,
    cy1: int,
    f2: int,
    s2: int,
    kx2: int,
    cx2: int,
    ky2: int,
    cy2: int,
)
    requires
        n >= 0,
        0 <= f1 < 8,
        0 <= f2 < 8,
        0 <= s1 < 3,
        0 <= s2 < 3,
        on_grid(n, kx1, cx1),
        on_grid(n, ky1, cy1),
        on_grid(n, kx2, cx2),
        on_grid(n, ky2, cy2),
        on_side(n, s1, kx1, cx1),
        on_side(n, s1, ky1, cy1),
        on_side(n, s2, kx2, cx2),
        on_side(n, s2, ky2, cy2),
        side_pos(s1, ky1, cy1) - side_pos(s1, kx1, cx1) == side_dir(f1, s1),
        side_pos(s2, ky2, cy2) - side_pos(s2, kx2, cx2) == side_dir(f2, s2),
        face_vertex(n, f1, kx1, cx1) == face_vertex(n, f2, kx2, cx2),
        face_vertex(n, f1, ky1, cy1) == face_vertex(n, f2, ky2, cy2),
    ensures
        f1 == f2,
{
    lemma_side_vertex(n, f1, s1, kx1, cx1);
    lemma_side_vertex(n, f1, s1, ky1, cy1);
    lemma_side_vertex(n, f2, s2, kx2, cx2);
    lemma_side_vertex(n, f2, s2, ky2, cy2);
    lemma_positions_match(
        n,
        side_edge(f1, s1),
        side_pos(s1, kx1, cx1),
        side_pos(s1, ky1, cy1),
        side_edge(f2, s2),
        side_pos(s2, kx2, cx2),
        side_pos(s2, ky2, cy2),
    );
    if f1 != f2 {
        lemma_shared_edge(f1, s1, f2, s2);
    }
}

/// The grid points of the two ends of a triangle's directed edge, and the
/// side they run along, if any.
proof fn lemma_edge_ends(n: int, f: int, row: int, col: int, x: int, y: int) -> (r: (
    (int, int),
    (int, int),
))
    requires
        n >= 0,
        valid_triangle(n, f, row, col),
        has_edge(n, f, row, col, x, y),
    ensures
        on_grid(n, r.0.0, r.0.1),
        on_grid(n, r.1.0, r.1.1),
        face_vertex(n, f, r.0.0, r.0.1) == x,
        face_vertex(n, f, r.1.0, r.1.1) == y,
        (!is_inner(n, r.0.0, r.0.1) && !is_inner(n, r.1.0, r.1.1)) ==> ({
            ||| exists|s: int|
                0 <= s < 3 && on_side(n, s, r.0.0, r.0.1) && #[trigger] on_side(n, s, r.1.0, r.1.1)
                    && side_pos(s, r.1.0, r.1.1) - side_pos(s, r.0.0, r.0.1) == side_dir(f, s)
            ||| !is_corner(n, r.0.0, r.0.1) && !is_corner(n, r.1.0, r.1.1) && forall|s: int|
                0 <= s < 3 ==> !(on_side(n, s, r.0.0, r.0.1) && #[trigger] on_side(n, s, r.1.0, r.1.1))
        }),
{
    let u = lemma_edge_on_grid(n, f, row, col, x, y);
    let a = corner_point(row, col, u);
    let b = corner_point(row, col, next(u));
    lemma_corner_on_grid(n, row, col, u);
    lemma_corner_on_grid(n, row, col, next(u));
    let (px, py) = if face_reversed(f) { (b, a) } else { (a, b) };
    if !is_inner(n, px.0, px.1) && !is_inner(n, py.0, py.1) {
        lemma_border_pair(n, row, col, u);
        if exists|s: int| 0 <= s < 3 && on_side(n, s, px.0, px.1) && #[trigger] on_side(n, s, py.0, py.1) {
            let s = choose|s: int| 0 <= s < 3 && on_side(n, s, px.0, px.1) && #[trigger] on_side(n, s, py.0, py.1);
            lemma_side_step(n, f, row, col, u, s);
            assert(on_side(n, s, a.0, a.1) && on_side(n, s, b.0, b.1));
        }
    }
    (px, py)
}

/// Two triangles that traverse the same directed edge lie in the same face.
proof fn lemma_cross_face(
    n: int,
    f1: int,
    r1: int,
    c1: int,
    f2: int,
    r2: int,
    c2: int,
    x: int,
    y: int,
)
    requires
        n >= 0,
        valid_triangle(n, f1, r1, c1),
        valid_triangle(n, f2, r2, c2),
        has_edge(n, f1, r1, c1, x, y),
        has_edge(n, f2, r2, c2, x, y),
    ensures
        f1 == f2,
{
    if f1 != f2 {
        let (px1, py1) = lemma_edge_ends(n, f1, r1, c1, x, y);
        let (px2, py2) = lemma_edge_ends(n, f2, r2, c2, x, y);
        lemma_shared_not_inner(n, f1, px1.0, px1.1, f2, px2.0, px2.1);
        lemma_shared_not_inner(n, f1, py1.0, py1.1, f2, py2.0, py2.1);
        if !is_corner(n, px1.0, px1.1) && !is_corner(n, py1.0, py1.1) && forall|s: int|
            0 <= s < 3 ==> !(on_side(n, s, px1.0, px1.1) && #[trigger] on_side(n, s, py1.0, py1.1)) {
            lemma_corner_cut(n, f1, px1.0, px1.1, py1.0, py1.1, f2, px2.0, px2.1, py2.0, py2.1);
        } else if !is_corner(n, px2.0, px2.1) && !is_corner(n, py2.0, py2.1) && forall|s: int|
            0 <= s < 3 ==> !(on_side(n, s, px2.0, px2.1) && #[trigger] on_side(n, s, py2.0, py2.1)) {
            lemma_corner_cut(n, f2, px2.0, px2.1, py2.0, py2.1, f1, px1.0, px1.1, py1.0, py1.1);
        } else {
            let s1 = choose|s: int|
                0 <= s < 3 && on_side(n, s, px1.0, px1.1) && #[trigger] on_side(n, s, py1.0, py1.1)
                    && side_pos(s, py1.0, py1.1) - side_pos(s, px1.0, px1.1) == side_dir(f1, s);
            let s2 = choose|s: int|
                0 <= s < 3 && on_side(n, s, px2.0, px2.1) && #[trigger] on_side(n, s, py2.0, py2.1)
                    && side_pos(s, py2.0, py2.1) - side_pos(s, px2.0, px2.1) == side_dir(f2, s);
            lemma_along_side(n, f1, s1, px1.0, px1.1, py1.0, py1.1, f2, s2, px2.0, px2.1, py2.0, py2.1);
        }
    }
}

/// Whether the triangle has an edge between `x` and `y`, in either direction.
pub open spec fn on_edge(n: int, f: int, row: int, col: int, x: int, y: int) -> bool {
    has_edge(n, f, row, col, x, y) || has_edge(n, f, row, col, y, x)
}

/// No two triangles traverse the same directed edge.
proof fn lemma_directed_edge_unique(
    n: int,
    f1: int,
    r1: int,
    c1: int,
    f2: int,
    r2: int,
    c2: int,
    x: int,
    y: int,
)
    requires
        n >= 0,
        valid_triangle(n, f1, r1, c1),
        valid_triangle(n, f2, r2, c2),
        has_edge(n, f1, r1, c1, x, y),
        has_edge(n, f2, r2, c2, x, y),
    ensures
        f1 == f2,
        r1 == r2,
        c1 == c2,
{
    lemma_cross_face(n, f1, r1, c1, f2, r2, c2, x, y);
    lemma_same_face_unique(n, f1, r1, c1, r2, c2, x, y);
}

/// The sphere is watertight: every edge lies on exactly two triangles. The
/// triangle that traverses an edge from `x` to `y` is the only one to do so,
/// exactly one other triangle traverses it from `y` to `x`, and no third
/// triangle has an edge between `x` and `y`.
pub proof fn lemma_edge_in_exactly_two(n: int, f: int, row: int, col: int, x: int, y: int)
    requires
        n >= 0,
        valid_triangle(n, f, row, col),
        has_edge(n, f, row, col, x, y),
    ensures
        exists|f2: int, row2: int, col2: int|
            {
                &&& valid_triangle(n, f2, row2, col2)
                &&& (f2, row2, col2) != (f, row, col)
                &&& #[trigger] has_edge(n, f2, row2, col2, y, x)
                &&& forall|f3: int, row3: int, col3: int|
                    valid_triangle(n, f3, row3, col3) && #[trigger] on_edge(n, f3, row3, col3, x, y) ==> (
                    f3, row3, col3) == (f, row, col) || (f3, row3, col3) == (f2, row2, col2)
            },
{
    lemma_every_edge_shared(n, f, row, col, x, y);
    let (f2, row2, col2) = choose|f2: int, row2: int, col2: int|
        valid_triangle(n, f2, row2, col2) && (f2, row2, col2) != (f, row, col) && #[trigger] has_edge(
            n,
            f2,
            row2,
            col2,
            y,
            x,
        );
    assert forall|f3: int, row3: int, col3: int|
        valid_triangle(n, f3, row3, col3) && #[trigger] on_edge(n, f3, row3, col3, x, y) implies (f3, row3,
        col3) == (f, row, col) || (f3, row3, col3) == (f2, row2, col2) by {
        if has_edge(n, f3, row3, col3, x, y) {
            lemma_directed_edge_unique(n, f, row, col, f3, row3, col3, x, y);
        } else {
            lemma_directed_edge_unique(n, f2, row2, col2, f3, row3, col3, y, x);
        }
    }
}

/// Number of triangle `(f, row, col)` in the index list: faces in order,
/// `(n + 1)²` triangles each, and `row²` triangles before row `row`.
pub open spec fn triangle_number(n: int, f: int, row: int, col: int) -> int {
    f * (n + 1) * (n + 1) + row * row + col
}

proof fn lemma_square_root(r: int, top: int) -> (j: int)
    requires
        top >= 0,
        0 <= r < top * top,
    ensures
        0 <= j < top,
        j * j <= r < (j + 1) * (j + 1),
    decreases top,
{
    assert(top > 0) by (nonlinear_arith)
        requires 0 <= r < top * top, top >= 0;
    if r < (top - 1) * (top - 1) {
        lemma_square_root(r, top - 1)
    } else {
        top - 1
    }
}

proof fn lemma_triangle_number_bounds(n: int, f: int, row: int, col: int)
    requires
        n >= 0,
        valid_triangle(n, f, row, col),
    ensures
        f * (n + 1) * (n + 1) <= triangle_number(n, f, row, col) < (f + 1) * (n + 1) * (n + 1),
        0 <= triangle_number(n, f, row, col) < 8 * (n + 1) * (n + 1),
{
    assert(row * row + col < (n + 1) * (n + 1)) by (nonlinear_arith)
        requires 0 <= row <= n, 0 <= col < 2 * row + 1;
    assert(0 <= f * (n + 1) * (n + 1)) by (nonlinear_arith)
        requires f >= 0;
    assert((f + 1) * (n + 1) * (n + 1) == f * (n + 1) * (n + 1) + (n + 1) * (n + 1)) by (nonlinear_arith);
    assert((f + 1) * (n + 1) * (n + 1) <= 8 * (n + 1) * (n + 1)) by (nonlinear_arith)
        requires f < 8;
}

/// Distinct triangles have distinct numbers.
proof fn lemma_triangle_number_injective(n: int, f1: int, r1: int, c1: int, f2: int, r2: int, c2: int)
    requires
        n >= 0,
        valid_triangle(n, f1, r1, c1),
        valid_triangle(n, f2, r2, c2),
        triangle_number(n, f1, r1, c1) == triangle_number(n, f2, r2, c2),
    ensures
        f1 == f2 && r1 == r2 && c1 == c2,
{
    lemma_triangle_number_bounds(n, f1, r1, c1);
    lemma_triangle_number_bounds(n, f2, r2, c2);
    if f1 < f2 {
        assert((f1 + 1) * (n + 1) * (n + 1) <= f2 * (n + 1) * (n + 1)) by (nonlinear_arith)
            requires f1 < f2;
    } else if f2 < f1 {
        assert((f2 + 1) * (n + 1) * (n + 1) <= f1 * (n + 1) * (n + 1)) by (nonlinear_arith)
            requires f2 < f1;
    }
    if r1 < r2 {
        assert(r1 * r1 + c1 < r2 * r2) by (nonlinear_arith)
            requires 0 <= r1 < r2, c1 < 2 * r1 + 1;
    } else if r2 < r1 {
        assert(r2 * r2 + c2 < r1 * r1) by (nonlinear_arith)
            requires 0 <= r2 < r1, c2 < 2 * r2 + 1;
    }
}

/// Every triangle number of the index list names a triangle of the grid:
/// the inverse of `triangle_number`.
pub proof fn lemma_triangle_at(n: int, t: int) -> (g: (int, int, int))
    requires
        n >= 0,
        0 <= t < 8 * (n + 1) * (n + 1),
    ensures
        valid_triangle(n, g.0, g.1, g.2),
        triangle_number(n, g.0, g.1, g.2) == t,
        forall|q: int| 0 <= q < 3 ==> #[trigger] mesh_indices(n, 8)[3 * t + q] == triangle(n, g.0, g.1, g.2)[q],
{
    let sq = (n + 1) * (n + 1);
    assert(sq > 0) by (nonlinear_arith)
        requires n >= 0, sq == (n + 1) * (n + 1);
    assert(8 * (n + 1) * (n + 1) == 8 * sq) by (nonlinear_arith)
        requires sq == (n + 1) * (n + 1);
    lemma_fundamental_div_mod(t, sq);
    lemma_mod_bound(t, sq);
    let f = t / sq;
    let rem = t % sq;
    assert(0 <= f < 8) by (nonlinear_arith)
        requires t == sq * f + rem, 0 <= rem < sq, 0 <= t < 8 * sq;
    let row = lemma_square_root(rem, n + 1);
    let col = rem - row * row;
    assert(col < 2 * row + 1) by (nonlinear_arith)
        requires rem < (row + 1) * (row + 1), col == rem - row * row;
    assert(f * (n + 1) * (n + 1) == sq * f) by (nonlinear_arith)
        requires sq == (n + 1) * (n + 1);
    assert forall|q: int| 0 <= q < 3 implies #[trigger] mesh_indices(n, 8)[3 * t + q] == triangle(n, f, row, col)[q] by {
        lemma_triangle_position(n, f, row, col, q);
    }
    (f, row, col)
}

/// Whether triangle number `t` of an index list has an edge from `x` to `y`
/// in its winding order.
pub open spec fn index_edge(indices: Seq<u32>, t: int, x: int, y: int) -> bool {
    let a = indices[3 * t] as int;
    let b = indices[3 * t + 1] as int;
    let c = indices[3 * t + 2] as int;
    ||| (a == x && b == y)
    ||| (b == x && c == y)
    ||| (c == x && a == y)
}

proof fn lemma_index_edge_grid(m: SphereMesh, t: int, x: int, y: int) -> (g: (int, int, int))
    requires
        m.wf(),
        0 <= t < 8 * (m.resolution + 1) * (m.resolution + 1),
    ensures
        valid_triangle(m.resolution as int, g.0, g.1, g.2),
        triangle_number(m.resolution as int, g.0, g.1, g.2) == t,
        index_edge(m.indices@, t, x, y) == has_edge(m.resolution as int, g.0, g.1, g.2, x, y),
        index_edge(m.indices@, t, y, x) == has_edge(m.resolution as int, g.0, g.1, g.2, y, x),
{
    let n = m.resolution as int;
    let g = lemma_triangle_at(n, t);
    assert(3 * t + 2 < index_count_for(n)) by (nonlinear_arith)
        requires t < 8 * (n + 1) * (n + 1), index_count_for(n) == 24 * (n + 1) * (n + 1);
    assert(m.indices@[3 * t] as int == as_ints(m.indices@)[3 * t]);
    assert(m.indices@[3 * t + 1] as int == as_ints(m.indices@)[3 * t + 1]);
    assert(m.indices@[3 * t + 2] as int == as_ints(m.indices@)[3 * t + 2]);
    assert(mesh_indices(n, 8)[3 * t + 0] == triangle(n, g.0, g.1, g.2)[0]);
    assert(mesh_indices(n, 8)[3 * t + 1] == triangle(n, g.0, g.1, g.2)[1]);
    assert(mesh_indices(n, 8)[3 * t + 2] == triangle(n, g.0, g.1, g.2)[2]);
    g
}

/// The built sphere is watertight, stated over its index list: if triangle
/// number `t` has an edge from `x` to `y`, exactly one other triangle `t2`
/// has the edge from `y` to `x`, and no triangle but `t` and `t2` has an
/// edge between `x` and `y` in either direction.
pub proof fn lemma_mesh_watertight(m: SphereMesh, t: int, x: int, y: int)
    requires
        m.wf(),
        0 <= t < m.indices@.len() / 3,
        index_edge(m.indices@, t, x, y),
    ensures
        exists|t2: int|
            {
                &&& 0 <= t2 < m.indices@.len() / 3
                &&& t2 != t
                &&& #[trigger] index_edge(m.indices@, t2, y, x)
                &&& forall|t3: int|
                    0 <= t3 < m.indices@.len() / 3 && (#[trigger] index_edge(m.indices@, t3, x, y)
                        || index_edge(m.indices@, t3, y, x)) ==> t3 == t || t3 == t2
            },
{
    let n = m.resolution as int;
    assert(m.indices@.len() / 3 == 8 * (n + 1) * (n + 1)) by (nonlinear_arith)
        requires m.indices@.len() == 24 * (n + 1) * (n + 1);
    let g = lemma_index_edge_grid(m, t, x, y);
    lemma_edge_in_exactly_two(n, g.0, g.1, g.2, x, y);
    let (f2, row2, col2) = choose|f2: int, row2: int, col2: int|
        {
            &&& valid_triangle(n, f2, row2, col2)
            &&& (f2, row2, col2) != (g.0, g.1, g.2)
            &&& #[trigger] has_edge(n, f2, row2, col2, y, x)
            &&& forall|f3: int, row3: int, col3: int|
                valid_triangle(n, f3, row3, col3) && #[trigger] on_edge(n, f3, row3, col3, x, y) ==> (
                f3, row3, col3) == (g.0, g.1, g.2) || (f3, row3, col3) == (f2, row2, col2)
        };
    let t2 = triangle_number(n, f2, row2, col2);
    lemma_triangle_number_bounds(n, f2, row2, col2);
    let g2 = lemma_index_edge_grid(m, t2, y, x);
    lemma_triangle_number_injective(n, f2, row2, col2, g2.0, g2.1, g2.2);
    assert(t2 != t) by {
        if t2 == t {
            lemma_triangle_number_injective(n, f2, row2, col2, g.0, g.1, g.2);
        }
    }
    assert forall|t3: int|
        0 <= t3 < m.indices@.len() / 3 && (#[trigger] index_edge(m.indices@, t3, x, y) || index_edge(
            m.indices@,
            t3,
            y,
            x,
        )) implies t3 == t || t3 == t2 by {
        let g3 = lemma_index_edge_grid(m, t3, x, y);
        assert(on_edge(n, g3.0, g3.1, g3.2, x, y));
    }
    assert(index_edge(m.indices@, t2, y, x));
}

} // verus!
