//! The subdivided octahedral sphere: vertex numbering, placement recipes and
//! triangle indices, with their counts and bounds.

use vstd::prelude::*;
use vstd::arithmetic::div_mod::{lemma_fundamental_div_mod, lemma_mod_bound};

verus! {

/// Whether the sphere at resolution `n` can be indexed with `u32`: its
/// `4 (n + 1)² + 2` vertices all get a `u32` index.
pub open spec fn resolution_fits(n: int) -> bool {
    4 * (n + 1) * (n + 1) + 2 <= u32::MAX
}

/// The largest resolution that fits: 32767 would need 2³² + 2 vertices.
pub const MAX_RESOLUTION: usize = 32766;

/// A resolution fits exactly when it is at most `MAX_RESOLUTION`.
pub proof fn lemma_max_resolution(n: int)
    requires
        n >= 0,
    ensures
        resolution_fits(n) <==> n <= MAX_RESOLUTION,
{
    if n <= MAX_RESOLUTION {
        assert(4 * (n + 1) * (n + 1) <= 4 * 32767 * 32767) by (nonlinear_arith)
            requires 0 <= n <= 32766;
    } else {
        assert(4 * (n + 1) * (n + 1) >= 4 * 32768 * 32768) by (nonlinear_arith)
            requires n >= 32767;
    }
}

/// The `k`-th triangular number, `0 + 1 + ... + k`.
pub open spec fn tri(k: int) -> int
    decreases k,
{
    if k <= 0 {
        0
    } else {
        tri(k - 1) + k
    }
}

/// Number of vertices of the sphere at resolution `n`.
pub open spec fn vertex_count_for(n: int) -> int {
    8 * ((n + 3) * (n + 2) / 2) - 12 * (n + 2) + 6
}

/// Number of triangle indices of the sphere at resolution `n`.
pub open spec fn index_count_for(n: int) -> int {
    24 * (n + 1) * (n + 1)
}

/// First base vertex of base edge `e` (0 up, 1 left, 2 back, 3 right,
/// 4 forward, 5 down).
pub open spec fn edge_start(e: int) -> int {
    if e < 4 {
        0
    } else if e < 8 {
        e - 3
    } else {
        5
    }
}

/// Second base vertex of base edge `e`.
pub open spec fn edge_end(e: int) -> int {
    if e < 4 {
        e + 1
    } else if e < 7 {
        e - 2
    } else if e == 7 {
        1
    } else {
        e - 7
    }
}

/// The three base edges bounding face `f`: its two sides from the apex and
/// its bottom edge.
pub open spec fn face_side_a(f: int) -> int {
    if f < 4 {
        f
    } else {
        f + 4
    }
}

pub open spec fn face_side_b(f: int) -> int {
    if f < 3 {
        f + 1
    } else if f == 3 {
        0
    } else if f < 7 {
        f + 5
    } else {
        8
    }
}

pub open spec fn face_bottom(f: int) -> int {
    if f < 4 {
        f + 4
    } else {
        f
    }
}

/// Index of point `i` (0 ..= n + 1) along base edge `e`: its end points are
/// base vertices, and its `n` interior points are created edge by edge right
/// after the six base vertices.
pub open spec fn edge_vertex(n: int, e: int, i: int) -> int {
    if i == 0 {
        edge_start(e)
    } else if i == n + 1 {
        edge_end(e)
    } else {
        6 + e * n + (i - 1)
    }
}

/// Index of the interior vertex at row `k`, column `c` of face `f`
/// (`1 <= c < k <= n`): face interiors follow the edge points, face by face
/// and row by row.
pub open spec fn face_inner(n: int, f: int, k: int, c: int) -> int {
    6 + 12 * n + f * tri(n - 1) + tri(k - 2) + (c - 1)
}

/// Vertex at row `k` (0 ..= n + 1), column `c` (0 ..= k) of the triangular
/// grid of face `f`: the first and last columns are the face's two sides, the
/// last row is its bottom edge.
pub open spec fn face_vertex(n: int, f: int, k: int, c: int) -> int {
    if k == 0 {
        edge_vertex(n, face_side_a(f), 0)
    } else if k <= n {
        if c == 0 {
            edge_vertex(n, face_side_a(f), k)
        } else if c == k {
            edge_vertex(n, face_side_b(f), k)
        } else {
            face_inner(n, f, k, c)
        }
    } else {
        edge_vertex(n, face_bottom(f), c)
    }
}

/// Number of vertices created inside each face at resolution `n`.
pub open spec fn face_inner_count(n: int) -> int {
    tri(n - 1)
}

/// Position `(k, c)` in the grid of corner `q` (0, 1, 2) of the triangle in
/// column `col` of grid row `row`, before any reversal of the winding.
pub open spec fn grid_corner(n: int, f: int, row: int, col: int, q: int) -> int {
    let m = col / 2;
    if col % 2 == 0 {
        if q == 0 {
            face_vertex(n, f, row, m)
        } else if q == 1 {
            face_vertex(n, f, row + 1, m + 1)
        } else {
            face_vertex(n, f, row + 1, m)
        }
    } else {
        if q == 0 {
            face_vertex(n, f, row, m + 1)
        } else if q == 1 {
            face_vertex(n, f, row + 1, m + 1)
        } else {
            face_vertex(n, f, row, m)
        }
    }
}

/// Faces 4 to 7 (the lower half) are wound the other way, so that every
/// triangle faces outwards.
pub open spec fn face_reversed(f: int) -> bool {
    f >= 4
}

/// The three indices of the triangle in column `col` of row `row` of face `f`.
pub open spec fn triangle(n: int, f: int, row: int, col: int) -> Seq<int> {
    let v0 = grid_corner(n, f, row, col, 0);
    let v1 = grid_corner(n, f, row, col, 1);
    let v2 = grid_corner(n, f, row, col, 2);
    if face_reversed(f) {
        seq![v0, v2, v1]
    } else {
        seq![v0, v1, v2]
    }
}

/// Indices of the first `cols` triangles of row `row` of face `f`.
pub open spec fn row_indices(n: int, f: int, row: int, cols: int) -> Seq<int>
    decreases cols,
{
    if cols <= 0 {
        Seq::empty()
    } else {
        row_indices(n, f, row, cols - 1) + triangle(n, f, row, cols - 1)
    }
}

/// Indices of the first `rows` rows of face `f`; row `r` holds `2r + 1`
/// triangles.
pub open spec fn face_indices(n: int, f: int, rows: int) -> Seq<int>
    decreases rows,
{
    if rows <= 0 {
        Seq::empty()
    } else {
        face_indices(n, f, rows - 1) + row_indices(n, f, rows - 1, 2 * (rows - 1) + 1)
    }
}

/// Indices of the first `faces` faces of the sphere at resolution `n`.
pub open spec fn mesh_indices(n: int, faces: int) -> Seq<int>
    decreases faces,
{
    if faces <= 0 {
        Seq::empty()
    } else {
        mesh_indices(n, faces - 1) + face_indices(n, faces - 1, n + 1)
    }
}

/// A new vertex: the point a fraction `step / steps` of the way along the
/// great arc from vertex `from` to vertex `to`.
#[derive(Clone, Copy, Debug, PartialEq, Eq, Structural)]
pub struct VertexRecipe {
    pub from: u32,
    pub to: u32,
    pub step: u32,
    pub steps: u32,
}

impl VertexRecipe {
    pub open spec fn is(self, from: int, to: int, step: int, steps: int) -> bool {
        &&& self.from == from
        &&& self.to == to
        &&& self.step == step
        &&& self.steps == steps
    }
}

/// Every recipe interpolates strictly between two vertices that exist before
/// the vertex it places (vertex `6 + i` for recipe `i`).
pub open spec fn recipes_causal(recipes: Seq<VertexRecipe>) -> bool {
    forall|i: int|
        0 <= i < recipes.len() ==> {
            let r = #[trigger] recipes[i];
            &&& r.from < 6 + i
            &&& r.to < 6 + i
            &&& 1 <= r.step < r.steps
        }
}

pub open spec fn edge_recipe_ok(n: int, recipes: Seq<VertexRecipe>, e: int, d: int) -> bool {
    recipes[e * n + d].is(edge_start(e), edge_end(e), d + 1, n + 1)
}

pub open spec fn face_recipe_ok(n: int, recipes: Seq<VertexRecipe>, f: int, k: int, c: int) -> bool {
    recipes[face_inner(n, f, k, c) - 6].is(
        edge_vertex(n, face_side_a(f), k),
        edge_vertex(n, face_side_b(f), k),
        c,
        k,
    )
}

proof fn lemma_tri_closed(k: int)
    requires
        k >= 0,
    ensures
        2 * tri(k) == k * (k + 1),
    decreases k,
{
    if k > 0 {
        lemma_tri_closed(k - 1);
        let t = tri(k - 1);
        assert(tri(k) == t + k);
        assert(2 * (t + k) == k * (k + 1)) by (nonlinear_arith)
            requires 2 * t == (k - 1) * (k - 1 + 1);
    } else {
        assert(k * (k + 1) == 0) by (nonlinear_arith)
            requires k == 0;
    }
}

pub(crate) proof fn lemma_tri_mono(a: int, b: int)
    requires
        a <= b,
    ensures
        tri(a) <= tri(b),
        0 <= tri(a),
    decreases b - a,
{
    lemma_tri_nonneg(a);
    if a < b {
        lemma_tri_mono(a, b - 1);
    }
}

pub(crate) proof fn lemma_tri_nonneg(a: int)
    ensures
        0 <= tri(a),
    decreases a,
{
    if a > 0 {
        lemma_tri_nonneg(a - 1);
    }
}

/// The vertex count is six base vertices, `n` points on each of the twelve
/// base edges and `tri(n - 1)` points inside each of the eight faces.
/// At a resolution that fits, every vertex count and index below fits `u32`.
proof fn lemma_fits(n: int)
    requires
        n >= 0,
        resolution_fits(n),
    ensures
        n <= MAX_RESOLUTION,
        tri(n - 1) >= 0,
        vertex_count_for(n) == 6 + 12 * n + 8 * tri(n - 1),
        vertex_count_for(n) <= u32::MAX,
{
    lemma_vertex_count(n);
    lemma_tri_nonneg(n - 1);
    assert(4 * n * n + 8 * n + 6 == 4 * (n + 1) * (n + 1) + 2) by (nonlinear_arith);
    lemma_max_resolution(n);
}

proof fn lemma_vertex_count(n: int)
    requires
        n >= 0,
    ensures
        vertex_count_for(n) == 6 + 12 * n + 8 * tri(n - 1),
        vertex_count_for(n) == 4 * n * n + 8 * n + 6,
{
    lemma_tri_closed(n + 2);
    assert((n + 3) * (n + 2) == (n + 2) * (n + 2 + 1)) by (nonlinear_arith);
    assert((n + 3) * (n + 2) / 2 == tri(n + 2));
    assert(tri(n + 2) == tri(n + 1) + n + 2);
    assert(tri(n + 1) == tri(n) + n + 1);
    assert(tri(n) == tri(n - 1) + n);
    if n >= 1 {
        lemma_tri_closed(n - 1);
        let t = tri(n - 1);
        assert(6 + 12 * n + 8 * t == 4 * n * n + 8 * n + 6) by (nonlinear_arith)
            requires 2 * t == (n - 1) * (n - 1 + 1);
    } else {
        assert(4 * n * n == 0) by (nonlinear_arith)
            requires n == 0;
    }
}

fn edge_endpoints(e: usize) -> (r: (u32, u32))
    requires
        e < 12,
    ensures
        r.0 == edge_start(e as int),
        r.1 == edge_end(e as int),
{
    if e < 4 {
        (0, e as u32 + 1)
    } else if e < 8 {
        let end: u32 = if e == 7 { 1 } else { e as u32 - 2 };
        (e as u32 - 3, end)
    } else {
        (5, e as u32 - 7)
    }
}

/// Creates the twelve base edges with `n` interior points each, recording
/// how each interior point is placed.
fn build_edges(n: usize, recipes: &mut Vec<VertexRecipe>) -> (edges: Vec<Vec<u32>>)
    requires
        resolution_fits(n as int),
        n <= MAX_RESOLUTION,
        old(recipes)@.len() == 0,
    ensures
        edges@.len() == 12,
        final(recipes)@.len() == 12 * n,
        forall|e: int| 0 <= e < 12 ==> (#[trigger] edges@[e])@.len() == n + 2,
        forall|e: int, i: int|
            0 <= e < 12 && 0 <= i <= n + 1 ==> (#[trigger] edges@[e]@[i]) == edge_vertex(
                n as int,
                e,
                i,
            ),
        forall|e: int, d: int|
            0 <= e < 12 && 0 <= d < n ==> #[trigger] edge_recipe_ok(n as int, final(recipes)@, e, d),
        recipes_causal(final(recipes)@),
{
    let mut edges: Vec<Vec<u32>> = Vec::new();
    let mut e: usize = 0;
    while e < 12
        invariant
            resolution_fits(n as int),
            n <= MAX_RESOLUTION,
            0 <= e <= 12,
            edges@.len() == e,
            recipes@.len() == e * n,
            forall|ee: int| 0 <= ee < e ==> (#[trigger] edges@[ee])@.len() == n + 2,
            forall|ee: int, i: int|
                0 <= ee < e && 0 <= i <= n + 1 ==> (#[trigger] edges@[ee]@[i]) == edge_vertex(
                    n as int,
                    ee,
                    i,
                ),
            forall|ee: int, d: int|
                0 <= ee < e && 0 <= d < n ==> #[trigger] edge_recipe_ok(n as int, recipes@, ee, d),
            recipes_causal(recipes@),
        decreases 12 - e,
    {
        let (start, end) = edge_endpoints(e);
        let mut edge: Vec<u32> = Vec::new();
        edge.push(start);
        assert(e * n <= 11 * n) by (nonlinear_arith)
            requires e < 12;
        let mut d: usize = 0;
        while d < n
            invariant
                resolution_fits(n as int),
                n <= MAX_RESOLUTION,
                e < 12,
                start == edge_start(e as int),
                end == edge_end(e as int),
                e * n <= 11 * n,
                0 <= d <= n,
                recipes@.len() == e * n + d,
                edge@.len() == d + 1,
                edge@[0] == edge_start(e as int),
                forall|i: int| 1 <= i <= d ==> #[trigger] edge@[i] == 6 + e * n + (i - 1),
                forall|ee: int, dd: int|
                    0 <= ee < e && 0 <= dd < n ==> #[trigger] edge_recipe_ok(n as int, recipes@, ee, dd),
                forall|dd: int|
                    0 <= dd < d ==> #[trigger] edge_recipe_ok(n as int, recipes@, e as int, dd),
                recipes_causal(recipes@),
            decreases n - d,
        {
            edge.push((6 + recipes.len()) as u32);
            let ghost before = recipes@;
            recipes.push(
                VertexRecipe { from: start, to: end, step: d as u32 + 1, steps: n as u32 + 1 },
            );
            assert forall|ee: int, dd: int|
                0 <= ee < e && 0 <= dd < n implies #[trigger] edge_recipe_ok(
                    n as int,
                    recipes@,
                    ee,
                    dd,
                ) by {
                assert(edge_recipe_ok(n as int, before, ee, dd));
                assert(0 <= ee * n + dd < e * n) by (nonlinear_arith)
                    requires 0 <= ee < e, 0 <= dd < n;
            }
            assert forall|dd: int| 0 <= dd < d + 1 implies #[trigger] edge_recipe_ok(
                n as int,
                recipes@,
                e as int,
                dd,
            ) by {
                if dd < d {
                    assert(edge_recipe_ok(n as int, before, e as int, dd));
                } else {
                    assert(recipes@[e * n + d] == recipes@[before.len() as int]);
                    assert(recipes@[e * n + d].is(
                        edge_start(e as int),
                        edge_end(e as int),
                        d + 1,
                        n + 1,
                    ));
                }
            }
            d += 1;
        }
        edge.push(end);
        edges.push(edge);
        assert((e + 1) * n == e * n + n) by (nonlinear_arith);
        e += 1;
    }
    edges
}

/// The edges built by `build_edges` for resolution `n`.
pub open spec fn edges_ok(n: int, edges: Seq<Vec<u32>>) -> bool {
    &&& edges.len() == 12
    &&& forall|e: int| 0 <= e < 12 ==> (#[trigger] edges[e])@.len() == n + 2
    &&& forall|e: int, i: int|
        0 <= e < 12 && 0 <= i <= n + 1 ==> (#[trigger] edges[e]@[i]) == edge_vertex(n, e, i)
}

/// The grid of face `f` as rows of vertex indices, row `k` holding `k + 1`.
pub open spec fn grid_rows_ok(n: int, f: int, rows: Seq<Vec<u32>>, done: int) -> bool {
    &&& rows.len() == done
    &&& forall|k: int| 0 <= k < done ==> (#[trigger] rows[k])@.len() == k + 1
    &&& forall|k: int, c: int|
        0 <= k < done && 0 <= c <= k ==> (#[trigger] rows[k]@[c]) == face_vertex(n, f, k, c)
}

/// Index position of the recipe of interior vertex `(k, c)` of face `f`.
pub open spec fn face_slot(n: int, f: int, k: int, c: int) -> int {
    face_inner(n, f, k, c) - 6
}

pub(crate) proof fn lemma_face_slot_bounds(n: int, f: int, k: int, c: int)
    requires
        0 <= f < 8,
        1 <= c < k <= n,
    ensures
        12 * n + f * tri(n - 1) <= face_slot(n, f, k, c) < 12 * n + f * tri(n - 1) + tri(k - 1),
        tri(k - 1) <= tri(n - 1),
{
    lemma_tri_mono(k - 2, n - 1);
    lemma_tri_mono(k - 1, n - 1);
    assert(tri(k - 1) == tri(k - 2) + k - 1);
}

fn face_edges(f: usize) -> (r: (usize, usize, usize))
    requires
        f < 8,
    ensures
        r.0 == face_side_a(f as int),
        r.1 == face_side_b(f as int),
        r.2 == face_bottom(f as int),
{
    if f < 4 {
        (f, if f == 3 { 0 } else { f + 1 }, f + 4)
    } else {
        (f + 4, if f == 7 { 8 } else { f + 5 }, f)
    }
}

/// Lays out the triangular vertex grid of face `f`: the two sides and the
/// bottom come from the shared edges, the interior points are new vertices
/// interpolated across each row.
fn face_grid(n: usize, f: usize, edges: &Vec<Vec<u32>>, recipes: &mut Vec<VertexRecipe>) -> (rows:
    Vec<Vec<u32>>)
    requires
        resolution_fits(n as int),
        n <= MAX_RESOLUTION,
        f < 8,
        edges_ok(n as int, edges@),
        old(recipes)@.len() == 12 * n + f * tri(n - 1),
        recipes_causal(old(recipes)@),
    ensures
        recipes_causal(final(recipes)@),
        grid_rows_ok(n as int, f as int, rows@, n + 2),
        final(recipes)@.len() == 12 * n + (f + 1) * tri(n - 1),
        forall|i: int| 0 <= i < old(recipes)@.len() ==> #[trigger] final(recipes)@[i] == old(recipes)@[i],
        forall|k: int, c: int|
            1 <= c < k <= n ==> #[trigger] face_recipe_ok(n as int, final(recipes)@, f as int, k, c),
{
    let ghost start = recipes@;
    let ghost t = tri(n - 1);
    proof {
        lemma_tri_nonneg(n - 1);
        lemma_fits(n as int);
        assert(f * t + t <= 8 * t) by (nonlinear_arith)
            requires f < 8, t >= 0;
        assert(f * t >= 0) by (nonlinear_arith)
            requires f >= 0, t >= 0;
    }
    let (a, b, bottom) = face_edges(f);
    let mut rows: Vec<Vec<u32>> = Vec::new();
    let mut apex: Vec<u32> = Vec::new();
    apex.push(edges[a][0]);
    rows.push(apex);
    let mut k: usize = 1;
    while k <= n
        invariant
            resolution_fits(n as int),
            n <= MAX_RESOLUTION,
            f < 8,
            t == tri(n - 1),
            0 <= t,
            6 + 12 * n + 8 * t <= u32::MAX,
            f * t + t <= 8 * t,
            f * t >= 0,
            a == face_side_a(f as int),
            b == face_side_b(f as int),
            bottom == face_bottom(f as int),
            edges_ok(n as int, edges@),
            1 <= k <= n + 1,
            grid_rows_ok(n as int, f as int, rows@, k as int),
            recipes@.len() == 12 * n + f * t + tri(k - 2),
            start.len() == 12 * n + f * t,
            forall|i: int| 0 <= i < start.len() ==> #[trigger] recipes@[i] == start[i],
            forall|kk: int, c: int|
                1 <= c < kk < k && kk <= n ==> #[trigger] face_recipe_ok(n as int, recipes@, f as int, kk, c),
            recipes_causal(recipes@),
        decreases n + 1 - k,
    {
        proof {
            lemma_tri_mono(k - 1, n - 1);
            lemma_tri_nonneg(k - 2);
            assert(tri(k as int - 1) == tri(k - 2) + k - 1);
        }
        let from = edges[a][k];
        let to = edges[b][k];
        let mut row: Vec<u32> = Vec::new();
        row.push(from);
        let mut j: usize = 0;
        while j + 1 < k
            invariant
                resolution_fits(n as int),
                n <= MAX_RESOLUTION,
                f < 8,
                t == tri(n - 1),
                0 <= t,
            6 + 12 * n + 8 * t <= u32::MAX,
                f * t + t <= 8 * t,
                f * t >= 0,
                1 <= k <= n,
                0 <= j < k,
                tri(k - 1) == tri(k - 2) + k - 1,
                tri(k - 1) <= t,
                tri(k - 2) >= 0,
                from == edge_vertex(n as int, face_side_a(f as int), k as int),
                to == edge_vertex(n as int, face_side_b(f as int), k as int),
                row@.len() == j + 1,
                row@[0] == from,
                forall|c: int| 1 <= c <= j ==> #[trigger] row@[c] == face_inner(n as int, f as int, k as int, c),
                recipes@.len() == 12 * n + f * t + tri(k - 2) + j,
                start.len() == 12 * n + f * t,
                forall|i: int| 0 <= i < start.len() ==> #[trigger] recipes@[i] == start[i],
                forall|kk: int, c: int|
                    1 <= c < kk < k && kk <= n ==> #[trigger] face_recipe_ok(n as int, recipes@, f as int, kk, c),
                forall|c: int|
                    1 <= c <= j ==> #[trigger] face_recipe_ok(n as int, recipes@, f as int, k as int, c),
                recipes_causal(recipes@),
            decreases k - j,
        {
            row.push((6 + recipes.len()) as u32);
            let ghost before = recipes@;
            recipes.push(VertexRecipe { from, to, step: j as u32 + 1, steps: k as u32 });
            proof {
                lemma_edge_vertex_bound(n as int, face_side_a(f as int), k as int);
                lemma_edge_vertex_bound(n as int, face_side_b(f as int), k as int);
                assert forall|i: int| 0 <= i < recipes@.len() implies {
                    let r = #[trigger] recipes@[i];
                    &&& r.from < 6 + i
                    &&& r.to < 6 + i
                    &&& 1 <= r.step < r.steps
                } by {
                    if i < before.len() {
                        assert(recipes@[i] == before[i]);
                    }
                }
            }
            assert forall|i: int| 0 <= i < start.len() implies #[trigger] recipes@[i] == start[i] by {
                assert(before[i] == start[i]);
            }
            assert forall|kk: int, c: int|
                1 <= c < kk < k && kk <= n implies #[trigger] face_recipe_ok(
                    n as int,
                    recipes@,
                    f as int,
                    kk,
                    c,
                ) by {
                assert(face_recipe_ok(n as int, before, f as int, kk, c));
                lemma_face_slot_bounds(n as int, f as int, kk, c);
                lemma_tri_mono(kk - 1, k - 2);
            }
            assert forall|c: int| 1 <= c <= j + 1 implies #[trigger] face_recipe_ok(
                n as int,
                recipes@,
                f as int,
                k as int,
                c,
            ) by {
                if c <= j {
                    assert(face_recipe_ok(n as int, before, f as int, k as int, c));
                    assert(face_slot(n as int, f as int, k as int, c) < before.len());
                    assert(recipes@[face_slot(n as int, f as int, k as int, c)] == before[face_slot(n as int, f as int, k as int, c)]);
                } else {
                    assert(face_slot(n as int, f as int, k as int, c) == before.len());
                    assert(recipes@[before.len() as int].is(from as int, to as int, c, k as int));
                }
            }
            j += 1;
        }
        row.push(to);
        rows.push(row);
        k += 1;
    }
    let mut last: Vec<u32> = Vec::new();
    let mut c: usize = 0;
    while c <= n + 1
        invariant
            resolution_fits(n as int),
            n <= MAX_RESOLUTION,
            f < 8,
            bottom == face_bottom(f as int),
            edges_ok(n as int, edges@),
            0 <= c <= n + 2,
            last@.len() == c,
            forall|cc: int| 0 <= cc < c ==> #[trigger] last@[cc] == edge_vertex(n as int, bottom as int, cc),
        decreases n + 2 - c,
    {
        last.push(edges[bottom][c]);
        c += 1;
    }
    rows.push(last);
    proof {
        assert(tri(n as int) == tri(n - 1) + n);
        assert((f + 1) * t == f * t + t) by (nonlinear_arith);
    }
    rows
}

/// Indices as mathematical integers.
pub open spec fn as_ints(s: Seq<u32>) -> Seq<int> {
    s.map_values(|x: u32| x as int)
}

proof fn lemma_as_ints_push3(s: Seq<u32>, a: u32, b: u32, c: u32)
    ensures
        as_ints(s.push(a).push(b).push(c)) == as_ints(s) + seq![a as int, b as int, c as int],
{
    assert(as_ints(s.push(a).push(b).push(c)) =~= as_ints(s) + seq![a as int, b as int, c as int]);
}

pub(crate) proof fn lemma_edge_vertex_bound(n: int, e: int, i: int)
    requires
        n >= 0,
        0 <= e < 12,
        0 <= i <= n + 1,
    ensures
        0 <= edge_vertex(n, e, i) < 6 + 12 * n,
{
    if 0 < i <= n {
        assert(e * n <= 11 * n) by (nonlinear_arith)
            requires e < 12, n >= 0;
        assert(e * n >= 0) by (nonlinear_arith)
            requires e >= 0, n >= 0;
    }
}

/// Every grid point of every face names an existing vertex.
proof fn lemma_face_vertex_bound(n: int, f: int, k: int, c: int)
    requires
        n >= 0,
        0 <= f < 8,
        0 <= c <= k <= n + 1,
    ensures
        0 <= face_vertex(n, f, k, c) < vertex_count_for(n),
{
    lemma_vertex_count(n);
    lemma_tri_nonneg(n - 1);
    if k == 0 {
        lemma_edge_vertex_bound(n, face_side_a(f), 0);
    } else if k <= n {
        if c == 0 {
            lemma_edge_vertex_bound(n, face_side_a(f), k);
        } else if c == k {
            lemma_edge_vertex_bound(n, face_side_b(f), k);
        } else {
            lemma_face_slot_bounds(n, f, k, c);
            let t = tri(n - 1);
            lemma_tri_nonneg(n - 1);
            assert(f * t + t <= 8 * t) by (nonlinear_arith)
                requires f < 8, t >= 0;
            assert(f * t >= 0) by (nonlinear_arith)
                requires f >= 0, t >= 0;
            lemma_tri_nonneg(k - 2);
        }
    } else {
        lemma_edge_vertex_bound(n, face_bottom(f), c);
    }
}

proof fn lemma_triangle_bound(n: int, f: int, row: int, col: int)
    requires
        n >= 0,
        0 <= f < 8,
        0 <= row <= n,
        0 <= col < 2 * row + 1,
    ensures
        forall|q: int| 0 <= q < 3 ==> 0 <= #[trigger] triangle(n, f, row, col)[q] < vertex_count_for(n),
{
    let m = col / 2;
    lemma_face_vertex_bound(n, f, row, m);
    lemma_face_vertex_bound(n, f, row + 1, m + 1);
    lemma_face_vertex_bound(n, f, row + 1, m);
    if col % 2 == 1 {
        lemma_face_vertex_bound(n, f, row, m + 1);
    }
}

/// Appends the triangles of face `f`, row by row, to `indices`.
fn triangulate_face(n: usize, f: usize, rows: &Vec<Vec<u32>>, indices: &mut Vec<u32>)
    requires
        resolution_fits(n as int),
        n <= MAX_RESOLUTION,
        f < 8,
        grid_rows_ok(n as int, f as int, rows@, n + 2),
        as_ints(old(indices)@) == mesh_indices(n as int, f as int),
        forall|i: int| 0 <= i < old(indices)@.len() ==> #[trigger] old(indices)@[i] < vertex_count_for(n as int),
    ensures
        as_ints(final(indices)@) == mesh_indices(n as int, f + 1),
        forall|i: int| 0 <= i < final(indices)@.len() ==> #[trigger] final(indices)@[i] < vertex_count_for(n as int),
{
    let reverse = f >= 4;
    let mut row: usize = 0;
    while row <= n
        invariant
            resolution_fits(n as int),
            n <= MAX_RESOLUTION,
            f < 8,
            reverse == face_reversed(f as int),
            grid_rows_ok(n as int, f as int, rows@, n + 2),
            0 <= row <= n + 1,
            as_ints(indices@) == mesh_indices(n as int, f as int) + face_indices(n as int, f as int, row as int),
            forall|i: int| 0 <= i < indices@.len() ==> #[trigger] indices@[i] < vertex_count_for(n as int),
        decreases n + 1 - row,
    {
        let mut col: usize = 0;
        while col < 2 * row + 1
            invariant
                resolution_fits(n as int),
                n <= MAX_RESOLUTION,
                f < 8,
                reverse == face_reversed(f as int),
                grid_rows_ok(n as int, f as int, rows@, n + 2),
                0 <= row <= n,
                0 <= col <= 2 * row + 1,
                as_ints(indices@) == mesh_indices(n as int, f as int) + face_indices(n as int, f as int, row as int)
                    + row_indices(n as int, f as int, row as int, col as int),
                forall|i: int| 0 <= i < indices@.len() ==> #[trigger] indices@[i] < vertex_count_for(n as int),
            decreases 2 * row + 1 - col,
        {
            let m = col / 2;
            let (v0, v1, v2) = if col % 2 == 0 {
                (rows[row][m], rows[row + 1][m + 1], rows[row + 1][m])
            } else {
                (rows[row][m + 1], rows[row + 1][m + 1], rows[row][m])
            };
            let (w1, w2) = if reverse { (v2, v1) } else { (v1, v2) };
            let ghost before = indices@;
            indices.push(v0);
            indices.push(w1);
            indices.push(w2);
            proof {
                lemma_as_ints_push3(before, v0, w1, w2);
                lemma_triangle_bound(n as int, f as int, row as int, col as int);
                let tr = triangle(n as int, f as int, row as int, col as int);
                assert(tr[0] == v0 && tr[1] == w1 && tr[2] == w2);
                assert(seq![v0 as int, w1 as int, w2 as int] =~= tr);
                let pre = mesh_indices(n as int, f as int) + face_indices(n as int, f as int, row as int);
                assert(pre + row_indices(n as int, f as int, row as int, col + 1) =~= pre
                    + row_indices(n as int, f as int, row as int, col as int) + tr);
                assert forall|i: int| 0 <= i < indices@.len() implies #[trigger] indices@[i]
                    < vertex_count_for(n as int) by {
                    if i >= before.len() {
                        assert(tr[i - before.len()] == indices@[i]);
                    }
                }
            }
            col += 1;
        }
        proof {
            let a = mesh_indices(n as int, f as int);
            let b = face_indices(n as int, f as int, row as int);
            let c = row_indices(n as int, f as int, row as int, 2 * row + 1);
            assert(face_indices(n as int, f as int, row + 1) == b + c);
            assert(a + b + c =~= a + (b + c));
        }
        row += 1;
    }
    proof {
        assert(face_indices(n as int, f as int, 0) =~= Seq::<int>::empty());
    }
}

/// Adds face `f`: its interior vertices to `recipes`, its triangles to
/// `indices`. Faces 4 to 7 are wound the other way round.
fn create_face(
    n: usize,
    f: usize,
    edges: &Vec<Vec<u32>>,
    recipes: &mut Vec<VertexRecipe>,
    indices: &mut Vec<u32>,
)
    requires
        resolution_fits(n as int),
        n <= MAX_RESOLUTION,
        f < 8,
        edges_ok(n as int, edges@),
        old(recipes)@.len() == 12 * n + f * tri(n - 1),
        recipes_causal(old(recipes)@),
        as_ints(old(indices)@) == mesh_indices(n as int, f as int),
        forall|i: int| 0 <= i < old(indices)@.len() ==> #[trigger] old(indices)@[i] < vertex_count_for(n as int),
    ensures
        recipes_causal(final(recipes)@),
        final(recipes)@.len() == 12 * n + (f + 1) * tri(n - 1),
        forall|i: int| 0 <= i < old(recipes)@.len() ==> #[trigger] final(recipes)@[i] == old(recipes)@[i],
        forall|k: int, c: int|
            1 <= c < k <= n ==> #[trigger] face_recipe_ok(n as int, final(recipes)@, f as int, k, c),
        as_ints(final(indices)@) == mesh_indices(n as int, f + 1),
        forall|i: int| 0 <= i < final(indices)@.len() ==> #[trigger] final(indices)@[i] < vertex_count_for(n as int),
{
    let rows = face_grid(n, f, edges, recipes);
    triangulate_face(n, f, &rows, indices);
}

proof fn lemma_row_len(n: int, f: int, row: int, cols: int)
    requires
        cols >= 0,
    ensures
        row_indices(n, f, row, cols).len() == 3 * cols,
    decreases cols,
{
    if cols > 0 {
        lemma_row_len(n, f, row, cols - 1);
    }
}

proof fn lemma_face_len(n: int, f: int, rows: int)
    requires
        rows >= 0,
    ensures
        face_indices(n, f, rows).len() == 3 * rows * rows,
    decreases rows,
{
    if rows > 0 {
        lemma_face_len(n, f, rows - 1);
        lemma_row_len(n, f, rows - 1, 2 * (rows - 1) + 1);
        assert(3 * (rows - 1) * (rows - 1) + 3 * (2 * (rows - 1) + 1) == 3 * rows * rows)
            by (nonlinear_arith);
    } else {
        assert(3 * rows * rows == 0) by (nonlinear_arith)
            requires rows == 0;
    }
}

proof fn lemma_mesh_len(n: int, faces: int)
    requires
        n >= 0,
        faces >= 0,
    ensures
        mesh_indices(n, faces).len() == faces * (3 * (n + 1) * (n + 1)),
    decreases faces,
{
    if faces > 0 {
        lemma_mesh_len(n, faces - 1);
        lemma_face_len(n, faces - 1, n + 1);
        assert((faces - 1) * (3 * (n + 1) * (n + 1)) + 3 * (n + 1) * (n + 1) == faces * (3 * (n + 1)
            * (n + 1))) by (nonlinear_arith);
    } else {
        assert(faces * (3 * (n + 1) * (n + 1)) == 0) by (nonlinear_arith)
            requires faces == 0;
    }
}

/// The vertex count at resolution `n` is `4n² + 8n + 6` and the sphere has
/// `8 (n + 1)²` triangles: at resolution 0, the octahedron with 6 vertices and
/// 8 triangles (24 indices).
pub proof fn lemma_sphere_counts(n: int)
    requires
        n >= 0,
    ensures
        vertex_count_for(n) == 4 * n * n + 8 * n + 6,
        vertex_count_for(n) == 6 + 12 * n + 8 * face_inner_count(n),
        mesh_indices(n, 8).len() == index_count_for(n),
        index_count_for(n) == 3 * (8 * (n + 1) * (n + 1)),
        vertex_count_for(0) == 6,
        index_count_for(0) == 24,
{
    lemma_vertex_count(n);
    lemma_vertex_count(0);
    lemma_mesh_len(n, 8);
    assert(8 * (3 * (n + 1) * (n + 1)) == 24 * (n + 1) * (n + 1)) by (nonlinear_arith);
    assert(3 * (8 * (n + 1) * (n + 1)) == 24 * (n + 1) * (n + 1)) by (nonlinear_arith);
}

proof fn lemma_concat_contains(a: Seq<int>, b: Seq<int>, x: int)
    requires
        a.contains(x) || b.contains(x),
    ensures
        (a + b).contains(x),
{
    if a.contains(x) {
        let i = choose|i: int| 0 <= i < a.len() && a[i] == x;
        assert((a + b)[i] == x);
    } else {
        let i = choose|i: int| 0 <= i < b.len() && b[i] == x;
        assert((a + b)[a.len() + i] == x);
    }
}

/// Some row `j` of a face interior, `tri(j) <= r < tri(j + 1)`, holds the
/// interior position `r`.
proof fn lemma_inner_row(r: int, top: int) -> (j: int)
    requires
        0 <= r < tri(top),
    ensures
        0 <= j < top,
        tri(j) <= r < tri(j + 1),
    decreases top,
{
    lemma_tri_nonneg(top - 1);
    if r < tri(top - 1) {
        lemma_inner_row(r, top - 1)
    } else {
        top - 1
    }
}

/// Every vertex lies at some point of some face's grid.
proof fn lemma_grid_position(n: int, v: int) -> (p: (int, int, int))
    requires
        n >= 0,
        0 <= v < vertex_count_for(n),
    ensures
        0 <= p.0 < 8,
        0 <= p.2 <= p.1 <= n + 1,
        face_vertex(n, p.0, p.1, p.2) == v,
{
    lemma_vertex_count(n);
    if v == 0 {
        (0, 0, 0)
    } else if v == 5 {
        (4, 0, 0)
    } else if v < 6 {
        (v - 1, n + 1, 0)
    } else if v < 6 + 12 * n {
        let x = v - 6;
        lemma_fundamental_div_mod(x, n);
        lemma_mod_bound(x, n);
        let e = x / n;
        let i = x % n + 1;
        assert(0 <= e < 12) by (nonlinear_arith)
            requires x == n * e + (i - 1), 0 <= i - 1 < n, 0 <= x < 12 * n;
        assert(edge_vertex(n, e, i) == v);
        if e < 4 {
            (e, i, 0)
        } else if e < 8 {
            (e - 4, n + 1, i)
        } else {
            (e - 4, i, 0)
        }
    } else {
        let t = tri(n - 1);
        let w = v - 6 - 12 * n;
        assert(t > 0) by (nonlinear_arith)
            requires w >= 0, w < 8 * t;
        lemma_fundamental_div_mod(w, t);
        lemma_mod_bound(w, t);
        let f = w / t;
        let r = w % t;
        assert(0 <= f < 8) by (nonlinear_arith)
            requires w == t * f + r, 0 <= r < t, 0 <= w < 8 * t;
        let j = lemma_inner_row(r, n - 1);
        let k = j + 2;
        let c = r - tri(j) + 1;
        assert(tri(j + 1) == tri(j) + j + 1);
        assert(face_inner(n, f, k, c) == v) by {
            assert(f * t == t * f) by (nonlinear_arith);
        }
        (f, k, c)
    }
}

/// Every point of a face's grid is a corner of one of the face's triangles.
proof fn lemma_grid_point_used(n: int, f: int, k: int, c: int)
    requires
        n >= 0,
        0 <= f < 8,
        0 <= c <= k <= n + 1,
    ensures
        face_indices(n, f, n + 1).contains(face_vertex(n, f, k, c)),
{
    let x = face_vertex(n, f, k, c);
    let (row, col, q) = if k == 0 {
        (0, 0, 0)
    } else if c >= 1 {
        (k - 1, 2 * (c - 1), 1)
    } else {
        (k - 1, 0, 2)
    };
    assert(grid_corner(n, f, row, col, q) == x);
    let tr = triangle(n, f, row, col);
    assert(tr.contains(x)) by {
        if q == 0 {
            assert(tr[0] == x);
        } else if face_reversed(f) {
            assert(tr[3 - q] == x);
        } else {
            assert(tr[q] == x);
        }
    }
    lemma_row_contains(n, f, row, col, 2 * row + 1, x);
    lemma_face_contains(n, f, row, n + 1, x);
}

proof fn lemma_row_contains(n: int, f: int, row: int, col: int, cols: int, x: int)
    requires
        0 <= col < cols,
        triangle(n, f, row, col).contains(x),
    ensures
        row_indices(n, f, row, cols).contains(x),
    decreases cols,
{
    if col < cols - 1 {
        lemma_row_contains(n, f, row, col, cols - 1, x);
    }
    lemma_concat_contains(row_indices(n, f, row, cols - 1), triangle(n, f, row, cols - 1), x);
}

proof fn lemma_face_contains(n: int, f: int, row: int, rows: int, x: int)
    requires
        0 <= row < rows,
        row_indices(n, f, row, 2 * row + 1).contains(x),
    ensures
        face_indices(n, f, rows).contains(x),
    decreases rows,
{
    if row < rows - 1 {
        lemma_face_contains(n, f, row, rows - 1, x);
    }
    lemma_concat_contains(face_indices(n, f, rows - 1), row_indices(n, f, rows - 1, 2 * (rows - 1) + 1), x);
}

proof fn lemma_mesh_contains(n: int, f: int, faces: int, x: int)
    requires
        0 <= f < faces,
        face_indices(n, f, n + 1).contains(x),
    ensures
        mesh_indices(n, faces).contains(x),
    decreases faces,
{
    if f < faces - 1 {
        lemma_mesh_contains(n, f, faces - 1, x);
    }
    lemma_concat_contains(mesh_indices(n, faces - 1), face_indices(n, faces - 1, n + 1), x);
}

/// No vertex is orphaned: every vertex of the sphere at resolution `n` is
/// used by at least one triangle, and every index names a vertex.
pub proof fn lemma_no_orphan_vertices(n: int)
    requires
        0 <= n,
    ensures
        forall|v: int| 0 <= v < vertex_count_for(n) ==> #[trigger] mesh_indices(n, 8).contains(v),
        forall|i: int|
            0 <= i < mesh_indices(n, 8).len() ==> 0 <= #[trigger] mesh_indices(n, 8)[i] < vertex_count_for(n),
{
    assert forall|v: int| 0 <= v < vertex_count_for(n) implies #[trigger] mesh_indices(n, 8).contains(v) by {
        let (f, k, c) = lemma_grid_position(n, v);
        lemma_grid_point_used(n, f, k, c);
        lemma_mesh_contains(n, f, 8, v);
    }
    lemma_mesh_bounded(n, 8);
}

/// All entries of `s` are vertex indices below `hi`.
pub open spec fn bounded(s: Seq<int>, hi: int) -> bool {
    forall|i: int| 0 <= i < s.len() ==> 0 <= #[trigger] s[i] < hi
}

proof fn lemma_concat_bounded(a: Seq<int>, b: Seq<int>, hi: int)
    requires
        bounded(a, hi),
        bounded(b, hi),
    ensures
        bounded(a + b, hi),
{
    assert forall|i: int| 0 <= i < (a + b).len() implies 0 <= #[trigger] (a + b)[i] < hi by {
        if i >= a.len() {
            assert((a + b)[i] == b[i - a.len()]);
        }
    }
}

proof fn lemma_mesh_bounded(n: int, faces: int)
    requires
        0 <= n,
        0 <= faces <= 8,
    ensures
        bounded(mesh_indices(n, faces), vertex_count_for(n)),
    decreases faces,
{
    let hi = vertex_count_for(n);
    if faces > 0 {
        lemma_mesh_bounded(n, faces - 1);
        lemma_face_bounded(n, faces - 1, n + 1);
        lemma_concat_bounded(mesh_indices(n, faces - 1), face_indices(n, faces - 1, n + 1), hi);
    }
}

proof fn lemma_face_bounded(n: int, f: int, rows: int)
    requires
        0 <= n,
        0 <= f < 8,
        0 <= rows <= n + 1,
    ensures
        bounded(face_indices(n, f, rows), vertex_count_for(n)),
    decreases rows,
{
    let hi = vertex_count_for(n);
    if rows > 0 {
        lemma_face_bounded(n, f, rows - 1);
        lemma_row_bounded(n, f, rows - 1, 2 * (rows - 1) + 1);
        lemma_concat_bounded(face_indices(n, f, rows - 1), row_indices(n, f, rows - 1, 2 * (rows - 1) + 1), hi);
    }
}

proof fn lemma_row_bounded(n: int, f: int, row: int, cols: int)
    requires
        0 <= n,
        0 <= f < 8,
        0 <= row <= n,
        0 <= cols <= 2 * row + 1,
    ensures
        bounded(row_indices(n, f, row, cols), vertex_count_for(n)),
    decreases cols,
{
    let hi = vertex_count_for(n);
    if cols > 0 {
        lemma_row_bounded(n, f, row, cols - 1);
        lemma_triangle_bound(n, f, row, cols - 1);
        let tr = triangle(n, f, row, cols - 1);
        assert(bounded(tr, hi)) by {
            assert forall|i: int| 0 <= i < tr.len() implies 0 <= #[trigger] tr[i] < hi by {
                assert(0 <= tr[i] < hi);
            }
        }
        lemma_concat_bounded(row_indices(n, f, row, cols - 1), tr, hi);
    }
}

proof fn lemma_row_position(n: int, f: int, row: int, col: int, cols: int, q: int)
    requires
        0 <= col < cols,
        0 <= q < 3,
    ensures
        row_indices(n, f, row, cols)[3 * col + q] == triangle(n, f, row, col)[q],
    decreases cols,
{
    lemma_row_len(n, f, row, cols - 1);
    if col < cols - 1 {
        lemma_row_position(n, f, row, col, cols - 1, q);
    }
}

proof fn lemma_face_position(n: int, f: int, row: int, rows: int, i: int)
    requires
        0 <= row < rows,
        0 <= i < 3 * (2 * row + 1),
    ensures
        face_indices(n, f, rows)[3 * (row * row) + i] == row_indices(n, f, row, 2 * row + 1)[i],
    decreases rows,
{
    lemma_face_len(n, f, rows - 1);
    lemma_row_len(n, f, rows - 1, 2 * (rows - 1) + 1);
    if row < rows - 1 {
        lemma_face_position(n, f, row, rows - 1, i);
        assert(3 * (row * row) + i < 3 * (rows - 1) * (rows - 1)) by (nonlinear_arith)
            requires 0 <= row < rows - 1, 0 <= i < 3 * (2 * row + 1);
    } else {
        assert(3 * (row * row) == 3 * row * row) by (nonlinear_arith);
    }
}

proof fn lemma_mesh_position(n: int, f: int, faces: int, i: int)
    requires
        n >= 0,
        0 <= f < faces,
        0 <= i < 3 * (n + 1) * (n + 1),
    ensures
        mesh_indices(n, faces)[f * (3 * (n + 1) * (n + 1)) + i] == face_indices(n, f, n + 1)[i],
    decreases faces,
{
    lemma_mesh_len(n, faces - 1);
    lemma_face_len(n, faces - 1, n + 1);
    if f < faces - 1 {
        lemma_mesh_position(n, f, faces - 1, i);
        assert(f * (3 * (n + 1) * (n + 1)) + i < (faces - 1) * (3 * (n + 1) * (n + 1))) by (nonlinear_arith)
            requires 0 <= f < faces - 1, 0 <= i < 3 * (n + 1) * (n + 1);
    }
}

/// Position of a triangle in the index list: the triangles come face by
/// face, row by row, column by column, so triangle `(f, row, col)` is
/// triangle number `f (n + 1)² + row² + col`.
pub proof fn lemma_triangle_position(n: int, f: int, row: int, col: int, q: int)
    requires
        n >= 0,
        0 <= f < 8,
        0 <= row <= n,
        0 <= col < 2 * row + 1,
        0 <= q < 3,
    ensures
        mesh_indices(n, 8)[3 * (f * (n + 1) * (n + 1) + row * row + col) + q] == triangle(n, f, row, col)[q],
{
    lemma_row_position(n, f, row, col, 2 * row + 1, q);
    lemma_face_position(n, f, row, n + 1, 3 * col + q);
    assert(3 * (row * row) + 3 * col + q < 3 * (n + 1) * (n + 1)) by (nonlinear_arith)
        requires 0 <= row <= n, 0 <= col < 2 * row + 1, 0 <= q < 3;
    lemma_mesh_position(n, f, 8, 3 * (row * row) + 3 * col + q);
    assert(3 * (f * (n + 1) * (n + 1) + row * row + col) + q == f * (3 * (n + 1) * (n + 1)) + (3 * (row
        * row) + 3 * col + q)) by (nonlinear_arith);
}

/// A closed triangulated sphere: vertices `0..6` are the octahedron's corners
/// (up, left, back, right, forward, down), every later vertex `v` is placed by
/// `recipes[v - 6]`, and `indices` lists the triangles, three indices each.
pub struct SphereMesh {
    pub resolution: usize,
    pub recipes: Vec<VertexRecipe>,
    pub indices: Vec<u32>,
}

impl SphereMesh {
    /// The mesh built at `self.resolution`, exactly.
    pub open spec fn wf(self) -> bool {
        let n = self.resolution as int;
        &&& resolution_fits(n as int)
        &&& 6 + self.recipes@.len() == vertex_count_for(n)
        &&& self.indices@.len() == index_count_for(n)
        &&& as_ints(self.indices@) == mesh_indices(n, 8)
        &&& forall|i: int|
            0 <= i < self.indices@.len() ==> #[trigger] self.indices@[i] < vertex_count_for(n)
        &&& forall|e: int, d: int|
            0 <= e < 12 && 0 <= d < n ==> #[trigger] edge_recipe_ok(n, self.recipes@, e, d)
        &&& forall|f: int, k: int, c: int|
            0 <= f < 8 && 1 <= c < k <= n ==> #[trigger] face_recipe_ok(n, self.recipes@, f, k, c)
        &&& recipes_causal(self.recipes@)
    }

    /// Builds the sphere at `resolution`: the octahedron's twelve edges get
    /// `resolution` interior points each, created once and shared by the two
    /// faces on either side, and each face is filled with a triangular grid
    /// whose rows are interpolated between its sides.
    pub fn new(resolution: usize) -> (r: SphereMesh)
        requires
            resolution_fits(resolution as int),
            index_count_for(resolution as int) <= usize::MAX,
        ensures
            r.resolution == resolution,
            r.wf(),
    {
        let n = resolution;
        proof {
            lemma_fits(n as int);
        }
        let mut recipes: Vec<VertexRecipe> = Vec::new();
        let mut indices: Vec<u32> = Vec::new();
        let edges = build_edges(n, &mut recipes);
        let ghost t = tri(n - 1);
        proof {
            lemma_tri_nonneg(n - 1);
            assert(0 * t == 0);
            assert(indices@ =~= Seq::<u32>::empty());
            assert(as_ints(indices@) =~= mesh_indices(n as int, 0));
        }
        let mut f: usize = 0;
        while f < 8
            invariant
                n == resolution,
                resolution_fits(n as int),
                n <= MAX_RESOLUTION,
                0 <= f <= 8,
                t == tri(n - 1),
                t >= 0,
                edges_ok(n as int, edges@),
                recipes@.len() == 12 * n + f * t,
                as_ints(indices@) == mesh_indices(n as int, f as int),
                forall|i: int| 0 <= i < indices@.len() ==> #[trigger] indices@[i] < vertex_count_for(n as int),
                forall|e: int, d: int|
                    0 <= e < 12 && 0 <= d < n ==> #[trigger] edge_recipe_ok(n as int, recipes@, e, d),
                forall|ff: int, k: int, c: int|
                    0 <= ff < f && 1 <= c < k <= n ==> #[trigger] face_recipe_ok(n as int, recipes@, ff, k, c),
                recipes_causal(recipes@),
            decreases 8 - f,
        {
            let ghost before = recipes@;
            create_face(n, f, &edges, &mut recipes, &mut indices);
            proof {
                assert forall|e: int, d: int|
                    0 <= e < 12 && 0 <= d < n implies #[trigger] edge_recipe_ok(n as int, recipes@, e, d) by {
                    assert(edge_recipe_ok(n as int, before, e, d));
                    assert(0 <= e * n + d < 12 * n) by (nonlinear_arith)
                        requires 0 <= e < 12, 0 <= d < n;
                    assert(f * t >= 0) by (nonlinear_arith)
                        requires f >= 0, t >= 0;
                }
                assert forall|ff: int, k: int, c: int|
                    0 <= ff < f + 1 && 1 <= c < k <= n implies #[trigger] face_recipe_ok(
                    n as int,
                    recipes@,
                    ff,
                    k,
                    c,
                ) by {
                    if ff < f {
                        assert(face_recipe_ok(n as int, before, ff, k, c));
                        lemma_face_slot_bounds(n as int, ff, k, c);
                        assert(ff * t + t <= f * t) by (nonlinear_arith)
                            requires ff < f, t >= 0;
                    }
                }
            }
            f += 1;
        }
        proof {
            lemma_sphere_counts(n as int);
            assert(8 * t == 8 * tri(n - 1));
        }
        SphereMesh { resolution, recipes, indices }
    }

    /// Whether `SphereMesh::new` can build the sphere at `resolution` on this
    /// machine: its vertices fit `u32` indices and its index list fits in
    /// memory.
    pub fn supports(resolution: usize) -> (r: bool)
        ensures
            r == (resolution_fits(resolution as int) && index_count_for(resolution as int) <= usize::MAX),
    {
        proof {
            lemma_max_resolution(resolution as int);
        }
        if resolution > MAX_RESOLUTION {
            return false;
        }
        let m = resolution as u64 + 1;
        proof {
            assert(24 * m * m <= 24 * 32767 * 32767) by (nonlinear_arith)
                requires 1 <= m <= 32767;
            assert(24 * m * m == index_count_for(resolution as int)) by (nonlinear_arith)
                requires m == resolution + 1;
        }
        24 * m * m <= usize::MAX as u64
    }

    /// Number of vertices: the six base vertices and one per recipe.
    pub fn vertex_count(&self) -> (r: usize)
        requires
            self.wf(),
        ensures
            r == vertex_count_for(self.resolution as int),
    {
        proof {
            lemma_sphere_counts(self.resolution as int);
            lemma_fits(self.resolution as int);
        }
        6 + self.recipes.len()
    }

    /// Number of triangles.
    pub fn triangle_count(&self) -> (r: usize)
        requires
            self.wf(),
        ensures
            3 * r == index_count_for(self.resolution as int),
    {
        proof {
            lemma_sphere_counts(self.resolution as int);
        }
        self.indices.len() / 3
    }
}

} // verus!
