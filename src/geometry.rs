//! Exact integer orientation and segment tests on grid-space vertices.
//!
//! Only the `x` and `z` components take part: the tests work on the XZ-plane.
use vstd::prelude::*;

verus! {

/// A vertex in tile grid space. `y` is the height in cell-height units and
/// `w` carries whatever per-vertex data the caller packs there.
#[derive(Clone, Copy, Debug, PartialEq, Eq, Structural)]
pub struct Vertex {
    pub x: i32,
    pub y: i32,
    pub z: i32,
    pub w: i32,
}

/// Twice the signed area of the triangle `a`, `b`, `c` on the XZ-plane.
pub open spec fn cross(a: Vertex, b: Vertex, c: Vertex) -> int {
    (b.x - a.x) * (c.z - a.z) - (c.x - a.x) * (b.z - a.z)
}

pub open spec fn is_collinear(a: Vertex, b: Vertex, c: Vertex) -> bool {
    cross(a, b, c) == 0
}

pub open spec fn is_left(a: Vertex, b: Vertex, c: Vertex) -> bool {
    cross(a, b, c) < 0
}

pub open spec fn is_left_on(a: Vertex, b: Vertex, c: Vertex) -> bool {
    cross(a, b, c) <= 0
}

/// `ab` and `cd` cross at a single point interior to both segments.
pub open spec fn crosses_properly(a: Vertex, b: Vertex, c: Vertex, d: Vertex) -> bool {
    &&& !is_collinear(a, b, c)
    &&& !is_collinear(a, b, d)
    &&& !is_collinear(c, d, a)
    &&& !is_collinear(c, d, b)
    &&& is_left(a, b, c) != is_left(a, b, d)
    &&& is_left(c, d, a) != is_left(c, d, b)
}

/// `c` lies on the closed segment `ab` (measured along x, or along z when
/// `ab` is parallel to the z axis).
pub open spec fn lies_between(a: Vertex, b: Vertex, c: Vertex) -> bool {
    &&& is_collinear(a, b, c)
    &&& if a.x != b.x {
        (a.x <= c.x && c.x <= b.x) || (a.x >= c.x && c.x >= b.x)
    } else {
        (a.z <= c.z && c.z <= b.z) || (a.z >= c.z && c.z >= b.z)
    }
}

/// The closed segments `ab` and `cd` share at least one point.
pub open spec fn segments_touch(a: Vertex, b: Vertex, c: Vertex, d: Vertex) -> bool {
    crosses_properly(a, b, c, d) || lies_between(a, b, c) || lies_between(a, b, d)
        || lies_between(c, d, a) || lies_between(c, d, b)
}

/// `point` lies strictly inside the interior angle at corner `outline[i]`
/// of a closed outline with its inside on the left, whose neighbours are
/// `outline[i + 1]` and `outline[i - 1]` (wrapping around). At a convex
/// corner the point must be left of both edges; at a reflex corner it must
/// not lie in the outside cone.
pub open spec fn within_cone(outline: Seq<Vertex>, i: int, point: Vertex) -> bool {
    let n = outline.len() as int;
    let pi = outline[i];
    let next = outline[(i + 1) % n];
    let prev = outline[(i + n - 1) % n];
    if is_left_on(prev, pi, next) {
        is_left(pi, point, prev) && is_left(point, pi, next)
    } else {
        !(is_left_on(pi, point, next) && is_left_on(point, pi, prev))
    }
}

proof fn lemma_product_bound(d1: int, d2: int)
    requires
        -0x1_0000_0000 <= d1 <= 0x1_0000_0000,
        -0x1_0000_0000 <= d2 <= 0x1_0000_0000,
    ensures
        -0x1_0000_0000_0000_0000 <= d1 * d2 <= 0x1_0000_0000_0000_0000,
{
    assert(-0x1_0000_0000_0000_0000 <= d1 * d2 <= 0x1_0000_0000_0000_0000) by (nonlinear_arith)
        requires
            -0x1_0000_0000 <= d1 <= 0x1_0000_0000,
            -0x1_0000_0000 <= d2 <= 0x1_0000_0000,
    ;
}

/// Twice the signed area of `a`, `b`, `c`, computed without overflow.
pub fn area_sqr(a: Vertex, b: Vertex, c: Vertex) -> (r: i128)
    ensures
        r == cross(a, b, c),
{
    let bx: i128 = b.x as i128 - a.x as i128;
    let bz: i128 = b.z as i128 - a.z as i128;
    let cx: i128 = c.x as i128 - a.x as i128;
    let cz: i128 = c.z as i128 - a.z as i128;
    proof {
        lemma_product_bound(bx as int, cz as int);
        lemma_product_bound(cx as int, bz as int);
    }
    bx * cz - cx * bz
}

pub fn collinear(a: Vertex, b: Vertex, c: Vertex) -> (r: bool)
    ensures
        r == is_collinear(a, b, c),
{
    area_sqr(a, b, c) == 0
}

pub fn left(a: Vertex, b: Vertex, c: Vertex) -> (r: bool)
    ensures
        r == is_left(a, b, c),
{
    area_sqr(a, b, c) < 0
}

pub fn left_on(a: Vertex, b: Vertex, c: Vertex) -> (r: bool)
    ensures
        r == is_left_on(a, b, c),
{
    area_sqr(a, b, c) <= 0
}

pub fn intersect_prop(a: Vertex, b: Vertex, c: Vertex, d: Vertex) -> (r: bool)
    ensures
        r == crosses_properly(a, b, c, d),
{
    if collinear(a, b, c) || collinear(a, b, d) || collinear(c, d, a) || collinear(c, d, b) {
        return false;
    }
    (left(a, b, c) ^ left(a, b, d)) && (left(c, d, a) ^ left(c, d, b))
}

pub fn between(a: Vertex, b: Vertex, c: Vertex) -> (r: bool)
    ensures
        r == lies_between(a, b, c),
{
    if !collinear(a, b, c) {
        return false;
    }
    if a.x != b.x {
        return (a.x <= c.x && c.x <= b.x) || (a.x >= c.x && c.x >= b.x);
    }
    (a.z <= c.z && c.z <= b.z) || (a.z >= c.z && c.z >= b.z)
}

pub fn intersect(a: Vertex, b: Vertex, c: Vertex, d: Vertex) -> (r: bool)
    ensures
        r == segments_touch(a, b, c, d),
{
    intersect_prop(a, b, c, d) || between(a, b, c) || between(a, b, d) || between(c, d, a)
        || between(c, d, b)
}

pub fn in_cone(i: usize, outline_vertices: &[Vertex], point: Vertex) -> (r: bool)
    requires
        i < outline_vertices@.len(),
    ensures
        r == within_cone(outline_vertices@, i as int, point),
{
    let n = outline_vertices.len();
    let point_i = outline_vertices[i];
    let next_index: usize = if i + 1 == n { 0 } else { i + 1 };
    let previous_index: usize = if i == 0 { n - 1 } else { i - 1 };
    proof {
        let ni = n as int;
        let ii = i as int;
        if ii + 1 == ni {
            vstd::arithmetic::div_mod::lemma_mod_self_0(ni);
        } else {
            vstd::arithmetic::div_mod::lemma_small_mod((ii + 1) as nat, ni as nat);
        }
        if ii == 0 {
            vstd::arithmetic::div_mod::lemma_small_mod((ni - 1) as nat, ni as nat);
        } else {
            vstd::arithmetic::div_mod::lemma_mod_add_multiples_vanish(ii - 1, ni);
            vstd::arithmetic::div_mod::lemma_small_mod((ii - 1) as nat, ni as nat);
        }
    }
    let point_next = outline_vertices[next_index];
    let point_previous = outline_vertices[previous_index];

    if left_on(point_previous, point_i, point_next) {
        return left(point_i, point, point_previous) && left(point, point_i, point_next);
    }
    !(left_on(point_i, point, point_next) && left_on(point, point_i, point_previous))
}

/// The two vertices sit at the same place on the XZ-plane.
pub open spec fn same_xz(a: Vertex, b: Vertex) -> bool {
    a.x == b.x && a.z == b.z
}

/// Outline edge `k` (to vertex `k + 1`, wrapping around) crosses the segment
/// from vertex `i` to vertex `j`, not counting edges that share an end with it.
pub open spec fn edge_blocks(outline: Seq<Vertex>, i: int, j: int, k: int) -> bool {
    let n = outline.len() as int;
    let k1 = (k + 1) % n;
    &&& k != i && k1 != i && k != j && k1 != j
    &&& !same_xz(outline[i], outline[k]) && !same_xz(outline[j], outline[k])
    &&& !same_xz(outline[i], outline[k1]) && !same_xz(outline[j], outline[k1])
    &&& segments_touch(outline[i], outline[j], outline[k], outline[k1])
}

/// No outline edge crosses the segment from vertex `i` to vertex `j`.
pub open spec fn clear_of_edges(outline: Seq<Vertex>, i: int, j: int) -> bool {
    forall|k: int| 0 <= k < outline.len() ==> !edge_blocks(outline, i, j, k)
}

/// The segment from vertex `i` to vertex `j` is a diagonal of the outline:
/// it leaves each end into the inside and crosses no edge.
pub open spec fn is_diagonal(outline: Seq<Vertex>, i: int, j: int) -> bool {
    &&& within_cone(outline, i, outline[j])
    &&& within_cone(outline, j, outline[i])
    &&& clear_of_edges(outline, i, j)
}

fn vequal(a: Vertex, b: Vertex) -> (r: bool)
    ensures
        r == same_xz(a, b),
{
    a.x == b.x && a.z == b.z
}

/// Whether no outline edge crosses the segment from vertex `i` to vertex `j`.
pub fn diagonalie(i: usize, j: usize, outline_vertices: &[Vertex]) -> (r: bool)
    requires
        i < outline_vertices@.len(),
        j < outline_vertices@.len(),
    ensures
        r == clear_of_edges(outline_vertices@, i as int, j as int),
{
    let n = outline_vertices.len();
    let d0 = outline_vertices[i];
    let d1 = outline_vertices[j];
    let mut k: usize = 0;
    while k < n
        invariant
            0 <= k <= n == outline_vertices@.len(),
            i < n,
            j < n,
            d0 == outline_vertices@[i as int],
            d1 == outline_vertices@[j as int],
            forall|m: int| 0 <= m < k ==> !edge_blocks(outline_vertices@, i as int, j as int, m),
        decreases n - k,
    {
        let k1: usize = if k + 1 == n {
            0
        } else {
            k + 1
        };
        proof {
            if k + 1 == n {
                vstd::arithmetic::div_mod::lemma_mod_self_0(n as int);
            } else {
                vstd::arithmetic::div_mod::lemma_small_mod((k + 1) as nat, n as nat);
            }
        }
        if !(k == i || k1 == i || k == j || k1 == j) {
            let p0 = outline_vertices[k];
            let p1 = outline_vertices[k1];
            if !(vequal(d0, p0) || vequal(d1, p0) || vequal(d0, p1) || vequal(d1, p1)) {
                if intersect(d0, d1, p0, p1) {
                    assert(edge_blocks(outline_vertices@, i as int, j as int, k as int));
                    return false;
                }
            }
        }
        k = k + 1;
    }
    true
}

/// Whether the segment from vertex `i` to vertex `j` is a diagonal.
pub fn diagonal(i: usize, j: usize, outline_vertices: &[Vertex]) -> (r: bool)
    requires
        i < outline_vertices@.len(),
        j < outline_vertices@.len(),
    ensures
        r == is_diagonal(outline_vertices@, i as int, j as int),
{
    in_cone(i, outline_vertices, outline_vertices[j]) && in_cone(
        j,
        outline_vertices,
        outline_vertices[i],
    ) && diagonalie(i, j, outline_vertices)
}

} // verus!
