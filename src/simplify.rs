//! Simplification of a traced contour: the vertices kept are the tile-border
//! vertices plus as few others as keep every dropped vertex within the error
//! bound of the edge that replaces it, with long edges split.
use vstd::prelude::*;

use crate::contour::{border_of, is_border_vertex};
use crate::geometry::{area_sqr, cross, Vertex};

verus! {

/// Grid coordinates of a tile with its border fit in 18 bits.
pub open spec fn coord_ok(v: Vertex) -> bool {
    0 <= v.x <= 0x3ffff && 0 <= v.z <= 0x3ffff
}

/// The squared length of `ab` on the XZ-plane.
pub open spec fn len_sq(a: Vertex, b: Vertex) -> int {
    (b.x - a.x) * (b.x - a.x) + (b.z - a.z) * (b.z - a.z)
}

/// How far `p` projects along `ab`, scaled by the length of `ab`.
pub open spec fn along(a: Vertex, b: Vertex, p: Vertex) -> int {
    (p.x - a.x) * (b.x - a.x) + (p.z - a.z) * (b.z - a.z)
}

/// The distance of `p` from the closed segment `ab` is at most `num / den`
/// cells, compared squared: past either end (or when `a == b`) the distance
/// is to the nearer end, otherwise it is `|cross| / |ab|`.
pub open spec fn within_error(a: Vertex, b: Vertex, p: Vertex, num: u16, den: u16) -> bool {
    let l = len_sq(a, b);
    let t = along(a, b, p);
    if l == 0 || t <= 0 {
        len_sq(a, p) * (den * den) <= num * num
    } else if t >= l {
        len_sq(b, p) * (den * den) <= num * num
    } else {
        cross(a, b, p) * cross(a, b, p) * (den * den) <= (num * num) * l
    }
}

/// The kept vertex after the `t`-th, wrapping around.
pub open spec fn next_kept(m: int, t: int) -> int {
    if t + 1 < m {
        t + 1
    } else {
        0
    }
}

/// Raw vertex `v` lies strictly inside the stretch replaced by kept edge `t`.
pub open spec fn between_kept(kept: Seq<usize>, t: int, v: int) -> bool {
    let m = kept.len() as int;
    if t + 1 < m {
        kept[t] < v < kept[t + 1]
    } else {
        v > kept[m - 1] || v < kept[0]
    }
}

/// Kept indices are ascending raw indices, at least one.
pub open spec fn kept_wf(kept: Seq<usize>, n: int) -> bool {
    &&& kept.len() >= 1
    &&& forall|i: int| 0 <= i < kept.len() ==> #[trigger] kept[i] < n
    &&& forall|i: int, j: int| 0 <= i < j < kept.len() ==> #[trigger] kept[i] < #[trigger] kept[j]
}

/// Kept edge `t` leaves every raw vertex it replaces within the error bound,
/// and is no longer than `max_edge_length` unless it replaces no vertex.
pub open spec fn edge_good(
    raw: Seq<Vertex>,
    kept: Seq<usize>,
    t: int,
    num: u16,
    den: u16,
    max_edge_length: u16,
) -> bool {
    let a = raw[kept[t] as int];
    let b = raw[kept[next_kept(kept.len() as int, t)] as int];
    &&& forall|v: int|
        0 <= v < raw.len() && #[trigger] between_kept(kept, t, v) ==> within_error(
            a,
            b,
            raw[v],
            num,
            den,
        )
    &&& len_sq(a, b) <= max_edge_length * max_edge_length || forall|v: int|
        0 <= v < raw.len() ==> !#[trigger] between_kept(kept, t, v)
}

proof fn lemma_product_18(p: int, q: int)
    requires
        -0x3ffff <= p <= 0x3ffff,
        -0x3ffff <= q <= 0x3ffff,
    ensures
        -0x10_0000_0000 <= p * q <= 0x10_0000_0000,
{
    assert(-0x10_0000_0000 <= p * q <= 0x10_0000_0000) by (nonlinear_arith)
        requires
            -0x3ffff <= p <= 0x3ffff,
            -0x3ffff <= q <= 0x3ffff,
    ;
}

proof fn lemma_error_bounds(a: Vertex, b: Vertex, p: Vertex, num: u16, den: u16)
    requires
        coord_ok(a),
        coord_ok(b),
        coord_ok(p),
    ensures
        -0x20_0000_0000 <= cross(a, b, p) <= 0x20_0000_0000,
        0 <= cross(a, b, p) * cross(a, b, p) <= 0x400_0000_0000_0000_0000,
        0 <= cross(a, b, p) * cross(a, b, p) * (den * den) < 0x1_0000_0000_0000_0000_0000_0000_0000,
        0 <= (num * num) * len_sq(a, b) < 0x1_0000_0000_0000_0000_0000_0000_0000,
        0 <= (b.x - a.x) * (b.x - a.x) <= 0x10_0000_0000,
        0 <= (b.z - a.z) * (b.z - a.z) <= 0x10_0000_0000,
        0 <= len_sq(a, b) <= 0x20_0000_0000,
{
    let dx = b.x - a.x;
    let dz = b.z - a.z;
    let ex = p.x - a.x;
    let ez = p.z - a.z;
    lemma_product_18(dx, ez);
    lemma_product_18(ex, dz);
    lemma_product_18(dx, dx);
    lemma_product_18(dz, dz);
    assert(0 <= dx * dx) by (nonlinear_arith);
    assert(0 <= dz * dz) by (nonlinear_arith);
    let c = cross(a, b, p);
    assert(0 <= c * c <= 0x400_0000_0000_0000_0000) by (nonlinear_arith)
        requires
            -0x20_0000_0000 <= c <= 0x20_0000_0000,
    ;
    let dd = den * den;
    lemma_square_u16(den);
    assert(0 <= c * c * dd < 0x1_0000_0000_0000_0000_0000_0000_0000) by (nonlinear_arith)
        requires
            0 <= c * c <= 0x400_0000_0000_0000_0000,
            0 <= dd <= 0xffff * 0xffff,
    ;
    let l = len_sq(a, b);
    let nn = num * num;
    lemma_square_u16(num);
    assert(0 <= nn * l < 0x1_0000_0000_0000_0000_0000_0000_0000) by (nonlinear_arith)
        requires
            0 <= l <= 0x20_0000_0000,
            0 <= nn <= 0xffff * 0xffff,
    ;
}

proof fn lemma_square_u16(v: u16)
    ensures
        0 <= v * v <= 0xffff * 0xffff,
{
    assert(0 <= v * v <= 0xffff * 0xffff) by (nonlinear_arith)
        requires
            0 <= v <= 0xffff,
    ;
}

fn len_sq_value(a: Vertex, b: Vertex) -> (r: i128)
    requires
        coord_ok(a),
        coord_ok(b),
    ensures
        r == len_sq(a, b),
{
    proof {
        lemma_error_bounds(a, b, a, 0, 0);
    }
    let dx = b.x as i128 - a.x as i128;
    let dz = b.z as i128 - a.z as i128;
    dx * dx + dz * dz
}

fn within_error_value(a: Vertex, b: Vertex, p: Vertex, num: u16, den: u16) -> (r: bool)
    requires
        coord_ok(a),
        coord_ok(b),
        coord_ok(p),
    ensures
        r == within_error(a, b, p, num, den),
{
    proof {
        lemma_error_bounds(a, b, p, num, den);
        lemma_error_bounds(a, p, b, num, den);
        lemma_error_bounds(b, p, a, num, den);
        lemma_product_18(p.x - a.x, b.x - a.x);
        lemma_product_18(p.z - a.z, b.z - a.z);
        lemma_square_u16(den);
        lemma_square_u16(num);
    }
    let dd = den as i128 * den as i128;
    let nn = num as i128 * num as i128;
    let l = len_sq_value(a, b);
    let t = (p.x as i128 - a.x as i128) * (b.x as i128 - a.x as i128) + (p.z as i128 - a.z as i128)
        * (b.z as i128 - a.z as i128);
    if l == 0 || t <= 0 {
        let d = len_sq_value(a, p);
        proof {
            assert(0 <= d * dd < 0x1_0000_0000_0000_0000_0000_0000_0000) by (nonlinear_arith)
                requires
                    0 <= d <= 0x20_0000_0000,
                    0 <= dd <= 0xffff * 0xffff,
            ;
        }
        d * dd <= nn
    } else if t >= l {
        let d = len_sq_value(b, p);
        proof {
            assert(0 <= d * dd < 0x1_0000_0000_0000_0000_0000_0000_0000) by (nonlinear_arith)
                requires
                    0 <= d <= 0x20_0000_0000,
                    0 <= dd <= 0xffff * 0xffff,
            ;
        }
        d * dd <= nn
    } else {
        let c = area_sqr(a, b, p);
        proof {
            assert(c * c * dd == cross(a, b, p) * cross(a, b, p) * (den * den));
            assert(nn * l == (num * num) * len_sq(a, b));
        }
        c * c * dd <= nn * l
    }
}

/// A raw vertex that kept edge `t` must not drop: one beyond the error
/// bound, or any it replaces when the edge is too long; `None` when the
/// edge is good.
fn scan_edge(
    raw: &[Vertex],
    kept: &Vec<usize>,
    t: usize,
    num: u16,
    den: u16,
    max_edge_length: u16,
) -> (r: Option<usize>)
    requires
        kept_wf(kept@, raw@.len() as int),
        t < kept@.len(),
        forall|i: int| 0 <= i < raw@.len() ==> coord_ok(#[trigger] raw@[i]),
    ensures
        match r {
            None => edge_good(raw@, kept@, t as int, num, den, max_edge_length),
            Some(v) => v < raw@.len() && between_kept(kept@, t as int, v as int),
        },
{
    let n = raw.len();
    let m = kept.len();
    let next: usize = if t + 1 < m {
        t + 1
    } else {
        0
    };
    let a = raw[kept[t]];
    let b = raw[kept[next]];
    proof {
        lemma_square_u16(max_edge_length);
    }
    let long = len_sq_value(a, b) > max_edge_length as i128 * max_edge_length as i128;
    let mut v: usize = kept[t] + 1;
    let stop: usize = if t + 1 < m {
        kept[t + 1]
    } else {
        n
    };
    while v < stop
        invariant
            kept_wf(kept@, n as int),
            n == raw@.len(),
            m == kept@.len(),
            t < m,
            a == raw@[kept@[t as int] as int],
            b == raw@[kept@[next_kept(m as int, t as int)] as int],
            kept@[t as int] + 1 <= v,
            stop <= n,
            stop == if t + 1 < m {
                kept@[t + 1] as int
            } else {
                n as int
            },
            forall|i: int| 0 <= i < raw@.len() ==> coord_ok(#[trigger] raw@[i]),
            forall|u: int| kept@[t as int] < u < v ==> within_error(a, b, raw@[u], num, den),
            long ==> v == kept@[t as int] + 1,
        decreases stop - v,
    {
        if long || !within_error_value(a, b, raw[v], num, den) {
            return Some(v);
        }
        v = v + 1;
    }
    if t + 1 >= m {
        let mut u: usize = 0;
        while u < kept[0]
            invariant
                kept_wf(kept@, n as int),
                n == raw@.len(),
                m == kept@.len(),
                t + 1 >= m,
                t < m,
                a == raw@[kept@[t as int] as int],
                b == raw@[kept@[0] as int],
                u <= kept@[0],
                forall|i: int| 0 <= i < raw@.len() ==> coord_ok(#[trigger] raw@[i]),
                forall|w: int| kept@[t as int] < w < n ==> within_error(a, b, raw@[w], num, den),
                forall|w: int| 0 <= w < u ==> within_error(a, b, raw@[w], num, den),
                long ==> kept@[t as int] + 1 >= n,
                long ==> u == 0,
            decreases kept@[0] - u,
        {
            if long || !within_error_value(a, b, raw[u], num, den) {
                return Some(u);
            }
            u = u + 1;
        }
    }
    None
}

proof fn lemma_kept_len(kept: Seq<usize>, n: int)
    requires
        kept_wf(kept, n),
    ensures
        kept.len() <= n,
        forall|i: int| 0 <= i < kept.len() ==> #[trigger] kept[i] >= i,
    decreases kept.len(),
{
    if kept.len() > 1 {
        let init = kept.drop_last();
        assert(kept_wf(init, n));
        lemma_kept_len(init, n);
        assert(init[init.len() - 1] >= init.len() - 1);
        assert forall|i: int| 0 <= i < kept.len() implies #[trigger] kept[i] >= i by {
            if i < init.len() {
                assert(kept[i] == init[i]);
            } else {
                assert(kept[i - 1] < kept[i]);
                assert(kept[i - 1] == init[i - 1]);
            }
        }
    }
    assert(kept[kept.len() - 1] >= kept.len() - 1);
    assert(kept[kept.len() - 1] < n);
}

/// The raw vertices of a closed contour to keep. Tile-border vertices (their
/// `w` carries the border flag) are always kept; others are added until
/// every kept edge leaves each vertex it replaces within `num / den` cells
/// of its line and no edge longer than `max_edge_length` replaces any
/// vertex. The indices are ascending.
pub fn simplify_contour(raw: &[Vertex], num: u16, den: u16, max_edge_length: u16) -> (kept: Vec<
    usize,
>)
    requires
        raw@.len() >= 1,
        forall|i: int| 0 <= i < raw@.len() ==> coord_ok(#[trigger] raw@[i]),
    ensures
        kept_wf(kept@, raw@.len() as int),
        forall|v: int|
            0 <= v < raw@.len() && border_of(#[trigger] raw@[v].w as u32) ==> kept@.contains(
                v as usize,
            ),
        forall|t: int|
            0 <= t < kept@.len() ==> #[trigger] edge_good(
                raw@,
                kept@,
                t,
                num,
                den,
                max_edge_length,
            ),
{
    let n = raw.len();
    let mut kept: Vec<usize> = Vec::new();
    let mut i: usize = 0;
    while i < n
        invariant
            0 <= i <= n == raw@.len(),
            forall|j: int| 0 <= j < kept@.len() ==> #[trigger] kept@[j] < i,
            forall|j: int, k: int|
                0 <= j < k < kept@.len() ==> #[trigger] kept@[j] < #[trigger] kept@[k],
            forall|v: int| 0 <= v < i && border_of(#[trigger] raw@[v].w as u32) ==> kept@.contains(
                v as usize,
            ),
        decreases n - i,
    {
        let ghost before = kept@;
        if is_border_vertex(raw[i].w as u32) {
            kept.push(i);
            assert(kept@[kept@.len() - 1] == i);
        }
        proof {
            assert forall|v: int|
                0 <= v < i + 1 && border_of(#[trigger] raw@[v].w as u32) implies kept@.contains(
                v as usize,
            ) by {
                if v < i {
                    let j = choose|j: int| 0 <= j < before.len() && before[j] == v as usize;
                    assert(kept@[j] == before[j]);
                } else {
                    assert(kept@[kept@.len() - 1] == i);
                }
            }
        }
        i = i + 1;
    }
    if kept.len() == 0 {
        kept.push(0);
        if n / 2 > 0 {
            kept.push(n / 2);
        }
    }
    let mut done = false;
    while !done
        invariant
            n == raw@.len(),
            kept_wf(kept@, n as int),
            forall|i: int| 0 <= i < raw@.len() ==> coord_ok(#[trigger] raw@[i]),
            forall|v: int| 0 <= v < n && border_of(#[trigger] raw@[v].w as u32) ==> kept@.contains(
                v as usize,
            ),
            done ==> forall|t: int|
                0 <= t < kept@.len() ==> #[trigger] edge_good(
                    raw@,
                    kept@,
                    t,
                    num,
                    den,
                    max_edge_length,
                ),
        decreases n - kept@.len() + if done {
            0int
        } else {
            1int
        },
    {
        proof {
            lemma_kept_len(kept@, n as int);
        }
        let m = kept.len();
        let mut t: usize = 0;
        let mut found: Option<(usize, usize)> = None;
        while t < m && found.is_none()
            invariant
                n == raw@.len(),
                m == kept@.len(),
                kept_wf(kept@, n as int),
                0 <= t <= m,
                forall|i: int| 0 <= i < raw@.len() ==> coord_ok(#[trigger] raw@[i]),
                found is None ==> forall|u: int|
                    0 <= u < t ==> #[trigger] edge_good(raw@, kept@, u, num, den, max_edge_length),
                match found {
                    Some((e, v)) => e < m && v < n && between_kept(kept@, e as int, v as int),
                    None => true,
                },
            decreases m - t + if found is None {
                1int
            } else {
                0int
            },
        {
            match scan_edge(raw, &kept, t, num, den, max_edge_length) {
                Some(v) => {
                    found = Some((t, v));
                },
                None => {
                    t = t + 1;
                },
            }
        }
        match found {
            None => {
                done = true;
            },
            Some((e, v)) => {
                let ghost before = kept@;
                let pos: usize = if e + 1 < m {
                    e + 1
                } else if v > kept[m - 1] {
                    m
                } else {
                    0
                };
                kept.insert(pos, v);
                proof {
                    assert(kept@ == before.insert(pos as int, v));
                    assert forall|j: int, k: int|
                        0 <= j < k < kept@.len() implies #[trigger] kept@[j] < #[trigger] kept@[k] by {
                        if k < pos {
                        } else if j < pos && k == pos {
                            assert(before[j] <= before[pos - 1]);
                        } else if j < pos {
                            assert(kept@[k] == before[k - 1]);
                        } else if j == pos {
                            assert(kept@[k] == before[k - 1]);
                            assert(before[pos as int] <= before[k - 1]);
                        } else {
                            assert(kept@[j] == before[j - 1]);
                            assert(kept@[k] == before[k - 1]);
                        }
                    }
                    assert forall|w: int|
                        0 <= w < n && border_of(#[trigger] raw@[w].w as u32) implies kept@.contains(
                        w as usize,
                    ) by {
                        let j = choose|j: int| 0 <= j < before.len() && before[j] == w as usize;
                        if j < pos {
                            assert(kept@[j] == before[j]);
                        } else {
                            assert(kept@[j + 1] == before[j]);
                        }
                    }
                    assert(kept_wf(kept@, n as int));
                    lemma_kept_len(kept@, n as int);
                }
            },
        }
    }
    kept
}

/// Consecutive raw vertices of the closed contour are at most
/// `max_edge_length` apart.
pub open spec fn raw_steps_short(raw: Seq<Vertex>, max_edge_length: u16) -> bool {
    &&& forall|i: int|
        0 <= i < raw.len() - 1 ==> #[trigger] len_sq(raw[i], raw[i + 1]) <= max_edge_length
            * max_edge_length
    &&& raw.len() >= 1 ==> len_sq(raw[raw.len() - 1], raw[0]) <= max_edge_length * max_edge_length
}

/// When the traced contour moves in steps no longer than `max_edge_length`,
/// every edge of a simplification whose edges are all good is at most
/// `max_edge_length` long: an edge that replaces no vertex joins two
/// consecutive raw vertices.
pub proof fn lemma_kept_edges_short(
    raw: Seq<Vertex>,
    kept: Seq<usize>,
    num: u16,
    den: u16,
    max_edge_length: u16,
)
    requires
        kept_wf(kept, raw.len() as int),
        raw_steps_short(raw, max_edge_length),
        forall|t: int|
            0 <= t < kept.len() ==> #[trigger] edge_good(raw, kept, t, num, den, max_edge_length),
    ensures
        forall|t: int|
            0 <= t < kept.len() ==> #[trigger] len_sq(
                raw[kept[t] as int],
                raw[kept[next_kept(kept.len() as int, t)] as int],
            ) <= max_edge_length * max_edge_length,
{
    let n = raw.len() as int;
    let m = kept.len() as int;
    assert forall|t: int| 0 <= t < m implies #[trigger] len_sq(
        raw[kept[t] as int],
        raw[kept[next_kept(m, t)] as int],
    ) <= max_edge_length * max_edge_length by {
        assert(edge_good(raw, kept, t, num, den, max_edge_length));
        let a = raw[kept[t] as int];
        let b = raw[kept[next_kept(m, t)] as int];
        if len_sq(a, b) > max_edge_length * max_edge_length {
            if t + 1 < m {
                let v = kept[t] + 1;
                assert(kept[t] < kept[t + 1]);
                if v < kept[t + 1] {
                    assert(between_kept(kept, t, v as int));
                }
                assert(kept[t + 1] == v);
                assert(len_sq(raw[kept[t] as int], raw[kept[t] + 1]) <= max_edge_length
                    * max_edge_length);
            } else {
                if kept[m - 1] < n - 1 {
                    assert(between_kept(kept, t, n - 1));
                }
                if kept[0] > 0 {
                    assert(between_kept(kept, t, 0));
                }
                assert(kept[m - 1] == n - 1 && kept[0] == 0);
            }
        }
    }
}

} // verus!
