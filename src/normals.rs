//! Fixed-point accumulation of face normals into per-vertex normals.

use vstd::prelude::*;
use vstd::arithmetic::div_mod::{lemma_mod_multiples_vanish, lemma_add_mod_noop_right, lemma_small_mod};
use vstd::seq_lib::lemma_fold_left_permutation;

verus! {

pub open spec fn half_range() -> int {
    0x8000_0000
}

pub open spec fn full_range() -> int {
    0x1_0000_0000
}

/// `x` reduced into the `i32` range modulo 2³², as two's-complement
/// addition does.
pub open spec fn wrap32(x: int) -> int {
    (x + half_range()) % full_range() - half_range()
}

/// A per-vertex normal in fixed point: each face normal is scaled to
/// integers so that concurrent additions from all triangles sharing a vertex
/// commute exactly.
#[derive(Clone, Copy, Debug, PartialEq, Eq, Structural)]
pub struct NormalAccumulator {
    pub x: i32,
    pub y: i32,
    pub z: i32,
}

/// Component `axis` (0, 1, 2) of an accumulator.
pub open spec fn component(a: NormalAccumulator, axis: int) -> int {
    if axis == 0 {
        a.x as int
    } else if axis == 1 {
        a.y as int
    } else {
        a.z as int
    }
}

proof fn lemma_wrap_in_range(x: int)
    requires
        -half_range() <= x < half_range(),
    ensures
        wrap32(x) == x,
{
    lemma_small_mod((x + half_range()) as nat, full_range() as nat);
}

/// Adding to a wrapped sum wraps the exact sum.
proof fn lemma_wrap_add(s: int, b: i32, r: i32)
    requires
        r == vstd::wrapping::i32_specs::wrapping_add(wrap32(s) as i32, b),
    ensures
        r as int == wrap32(s + b),
{
    let w = wrap32(s);
    let m = (s + half_range()) % full_range();
    assert(0 <= m < full_range());
    assert(w == m - half_range());
    lemma_add_mod_noop_right(b + 0, s + half_range(), full_range());
    assert((w + b + half_range()) % full_range() == (s + b + half_range()) % full_range());
    let x = w + b;
    if x > i32::MAX {
        lemma_mod_multiples_vanish(1, x - full_range() + half_range(), full_range());
        lemma_wrap_in_range(x - full_range());
    } else if x < i32::MIN {
        lemma_mod_multiples_vanish(-1, x + full_range() + half_range(), full_range());
        lemma_wrap_in_range(x + full_range());
    } else {
        lemma_wrap_in_range(x);
    }
}

impl NormalAccumulator {
    /// The empty accumulator.
    pub fn zero() -> (r: NormalAccumulator)
        ensures
            r.x == 0 && r.y == 0 && r.z == 0,
    {
        NormalAccumulator { x: 0, y: 0, z: 0 }
    }

    /// Adds `v` component-wise with two's-complement wrap-around, as an
    /// atomic integer add does.
    pub fn add(&mut self, v: &NormalAccumulator)
        ensures
            forall|axis: int| 0 <= axis < 3 ==> #[trigger] component(*final(self), axis) == wrap32(
                component(*old(self), axis) + component(*v, axis),
            ),
    {
        let x = self.x.wrapping_add(v.x);
        let y = self.y.wrapping_add(v.y);
        let z = self.z.wrapping_add(v.z);
        proof {
            lemma_wrap_in_range(self.x as int);
            lemma_wrap_in_range(self.y as int);
            lemma_wrap_in_range(self.z as int);
            lemma_wrap_add(self.x as int, v.x, x);
            lemma_wrap_add(self.y as int, v.y, y);
            lemma_wrap_add(self.z as int, v.z, z);
        }
        self.x = x;
        self.y = y;
        self.z = z;
    }
}

/// Exact sum, along axis `axis`, of the face normals that the first
/// `corners` triangle corners of `indices` contribute to vertex `v`: corner
/// `m` belongs to triangle `m / 3`.
pub open spec fn accumulated(
    indices: Seq<u32>,
    face_normals: Seq<NormalAccumulator>,
    v: int,
    axis: int,
    corners: int,
) -> int
    decreases corners,
{
    if corners <= 0 {
        0
    } else {
        accumulated(indices, face_normals, v, axis, corners - 1) + if indices[corners - 1] == v {
            component(face_normals[(corners - 1) / 3], axis)
        } else {
            0
        }
    }
}

/// The triangle corners in order, each with the face normal of its triangle.
pub open spec fn corners(indices: Seq<u32>, face_normals: Seq<NormalAccumulator>) -> Seq<
    (u32, NormalAccumulator),
> {
    Seq::new(indices.len(), |m: int| (indices[m], face_normals[m / 3]))
}

/// What a corner adds to vertex `v` along axis `axis`.
pub open spec fn corner_step(v: int, axis: int) -> spec_fn(int, (u32, NormalAccumulator)) -> int {
    |acc: int, p: (u32, NormalAccumulator)| acc + if p.0 == v {
        component(p.1, axis)
    } else {
        0
    }
}

proof fn lemma_accumulated_fold(
    indices: Seq<u32>,
    face_normals: Seq<NormalAccumulator>,
    v: int,
    axis: int,
    m: int,
)
    requires
        0 <= m <= indices.len(),
    ensures
        accumulated(indices, face_normals, v, axis, m) == corners(indices, face_normals).take(m).fold_left(
            0,
            corner_step(v, axis),
        ),
    decreases m,
{
    let c = corners(indices, face_normals);
    if m > 0 {
        lemma_accumulated_fold(indices, face_normals, v, axis, m - 1);
        assert(c.take(m).drop_last() =~= c.take(m - 1));
    } else {
        assert(c.take(0) =~= Seq::<(u32, NormalAccumulator)>::empty());
    }
}

/// The accumulated normals do not depend on the order in which triangle
/// corners contribute: any reordering of the corners, each carrying its
/// triangle's face normal, gives the same sums.
pub proof fn lemma_accumulation_order_independent(
    indices1: Seq<u32>,
    face_normals1: Seq<NormalAccumulator>,
    indices2: Seq<u32>,
    face_normals2: Seq<NormalAccumulator>,
    v: int,
    axis: int,
)
    requires
        corners(indices1, face_normals1).to_multiset() == corners(indices2, face_normals2).to_multiset(),
    ensures
        accumulated(indices1, face_normals1, v, axis, indices1.len() as int) == accumulated(
            indices2,
            face_normals2,
            v,
            axis,
            indices2.len() as int,
        ),
{
    let c1 = corners(indices1, face_normals1);
    let c2 = corners(indices2, face_normals2);
    let f = corner_step(v, axis);
    lemma_accumulated_fold(indices1, face_normals1, v, axis, indices1.len() as int);
    lemma_accumulated_fold(indices2, face_normals2, v, axis, indices2.len() as int);
    assert(c1.take(indices1.len() as int) =~= c1);
    assert(c2.take(indices2.len() as int) =~= c2);
    assert(vstd::seq_lib::commutative_foldl(f));
    lemma_fold_left_permutation(c1, c2, f, 0);
}

/// The normal-accumulation stage: every triangle adds its fixed-point face
/// normal to the accumulators of its three vertices. The result is the exact
/// sum wrapped into `i32`, whatever order the additions are made in.
pub fn accumulate_normals(
    indices: &Vec<u32>,
    face_normals: &Vec<NormalAccumulator>,
    vertex_count: usize,
) -> (r: Vec<NormalAccumulator>)
    requires
        indices@.len() == 3 * face_normals@.len(),
        forall|i: int| 0 <= i < indices@.len() ==> #[trigger] indices@[i] < vertex_count,
    ensures
        r@.len() == vertex_count,
        forall|v: int, axis: int|
            0 <= v < vertex_count && 0 <= axis < 3 ==> #[trigger] component(r@[v], axis) == wrap32(
                accumulated(indices@, face_normals@, v, axis, indices@.len() as int),
            ),
{
    let mut acc: Vec<NormalAccumulator> = Vec::new();
    let mut v: usize = 0;
    while v < vertex_count
        invariant
            v <= vertex_count,
            acc@.len() == v,
            forall|u: int| 0 <= u < v ==> #[trigger] acc@[u] == (NormalAccumulator { x: 0, y: 0, z: 0 }),
        decreases vertex_count - v,
    {
        acc.push(NormalAccumulator::zero());
        v += 1;
    }
    proof {
        assert forall|u: int, axis: int|
            0 <= u < vertex_count && 0 <= axis < 3 implies #[trigger] component(acc@[u], axis)
                == wrap32(accumulated(indices@, face_normals@, u, axis, 0)) by {
            lemma_wrap_in_range(0);
        }
    }
    let mut m: usize = 0;
    while m < indices.len()
        invariant
            indices@.len() == 3 * face_normals@.len(),
            forall|i: int| 0 <= i < indices@.len() ==> #[trigger] indices@[i] < vertex_count,
            m <= indices@.len(),
            acc@.len() == vertex_count,
            forall|u: int, axis: int|
                0 <= u < vertex_count && 0 <= axis < 3 ==> #[trigger] component(acc@[u], axis)
                    == wrap32(accumulated(indices@, face_normals@, u, axis, m as int)),
        decreases indices@.len() - m,
    {
        let u = indices[m] as usize;
        let mut a = acc[u];
        a.add(&face_normals[m / 3]);
        let ghost before = acc@;
        acc.set(u, a);
        assert forall|w: int, axis: int|
            0 <= w < vertex_count && 0 <= axis < 3 implies #[trigger] component(acc@[w], axis)
                == wrap32(accumulated(indices@, face_normals@, w, axis, m + 1)) by {
            assert(component(before[w], axis) == wrap32(
                accumulated(indices@, face_normals@, w, axis, m as int),
            ));
            if w != u {
                lemma_wrap_in_range(0);
            }
        }
        m += 1;
    }
    acc
}

} // verus!
