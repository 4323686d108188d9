use oxidized_navigation::contour::pack_contour_flags;
use oxidized_navigation::geometry::Vertex;
use oxidized_navigation::simplify::simplify_contour;

fn v(x: i32, z: i32) -> Vertex {
    Vertex { x, y: 0, z, w: 0 }
}

/// The boundary of a `side` by `side` square, one vertex per cell corner.
fn square_outline(side: i32) -> Vec<Vertex> {
    let mut out = Vec::new();
    for x in 0..side {
        out.push(v(x, 0));
    }
    for z in 0..side {
        out.push(v(side, z));
    }
    for x in (1..=side).rev() {
        out.push(v(x, side));
    }
    for z in (1..=side).rev() {
        out.push(v(0, z));
    }
    out
}

fn cross(a: Vertex, b: Vertex, p: Vertex) -> i128 {
    let (ax, az) = (a.x as i128, a.z as i128);
    (b.x as i128 - ax) * (p.z as i128 - az) - (p.x as i128 - ax) * (b.z as i128 - az)
}

fn len_sq(a: Vertex, b: Vertex) -> i128 {
    let (dx, dz) = (b.x as i128 - a.x as i128, b.z as i128 - a.z as i128);
    dx * dx + dz * dz
}

fn along(a: Vertex, b: Vertex, p: Vertex) -> i128 {
    (p.x as i128 - a.x as i128) * (b.x as i128 - a.x as i128)
        + (p.z as i128 - a.z as i128) * (b.z as i128 - a.z as i128)
}

/// The distance of `p` from the closed segment `ab` is at most `num / den`.
fn within_segment_error(a: Vertex, b: Vertex, p: Vertex, num: i128, den: i128) -> bool {
    let l = len_sq(a, b);
    let t = along(a, b, p);
    if l == 0 || t <= 0 {
        len_sq(a, p) * den * den <= num * num
    } else if t >= l {
        len_sq(b, p) * den * den <= num * num
    } else {
        let c = cross(a, b, p);
        c * c * den * den <= num * num * l
    }
}

/// Raw indices replaced by the kept edge starting at position `t`.
fn replaced(kept: &[usize], n: usize, t: usize) -> Vec<usize> {
    let from = kept[t];
    let to = kept[(t + 1) % kept.len()];
    let mut out = Vec::new();
    let mut i = (from + 1) % n;
    while i != to && i != from {
        out.push(i);
        i = (i + 1) % n;
    }
    out
}

fn check_bounds(raw: &[Vertex], kept: &[usize], num: i128, den: i128, max_edge: i128) {
    assert!(kept.windows(2).all(|w| w[0] < w[1]));
    for t in 0..kept.len() {
        let a = raw[kept[t]];
        let b = raw[kept[(t + 1) % kept.len()]];
        let gone = replaced(kept, raw.len(), t);
        for &i in gone.iter() {
            assert!(within_segment_error(a, b, raw[i], num, den));
        }
        assert!(len_sq(a, b) <= max_edge * max_edge || gone.is_empty());
    }
}

#[test]
fn square_keeps_deviation_within_bound() {
    let raw = square_outline(8);
    let kept = simplify_contour(&raw, 1, 1, 100);
    check_bounds(&raw, &kept, 1, 1, 100);
    assert!(kept.len() < raw.len());
    for corner in [0usize, 8, 16, 24] {
        assert!(kept.contains(&corner));
    }
}

#[test]
fn long_edges_are_split() {
    let raw = square_outline(8);
    let kept = simplify_contour(&raw, 100, 1, 3);
    check_bounds(&raw, &kept, 100, 1, 3);
    assert!(kept.len() >= 12);
}

#[test]
fn border_vertices_are_never_dropped() {
    let mut raw = square_outline(6);
    raw[3].w = pack_contour_flags(2, true) as i32;
    raw[10].w = pack_contour_flags(0, true) as i32;
    let kept = simplify_contour(&raw, 5, 1, 1000);
    assert!(kept.contains(&3));
    assert!(kept.contains(&10));
    check_bounds(&raw, &kept, 5, 1, 1000);
}

#[test]
fn zero_tolerance_keeps_every_turn() {
    let raw = vec![v(0, 0), v(2, 0), v(2, 1), v(3, 1), v(3, 3), v(0, 3)];
    let kept = simplify_contour(&raw, 0, 1, 1000);
    assert_eq!(kept, vec![0, 1, 2, 3, 4, 5]);
}

#[test]
fn single_vertex_contour() {
    assert_eq!(simplify_contour(&[v(4, 4)], 1, 1, 10), vec![0]);
}

#[test]
fn one_vertex_cannot_stand_for_a_large_contour() {
    let raw = square_outline(8);
    let kept = simplify_contour(&raw, 1, 1, 1000);
    assert!(kept.len() >= 4);
    check_bounds(&raw, &kept, 1, 1, 1000);
}

#[test]
fn vertex_beyond_segment_end_counts_from_the_end() {
    // A spike: vertex 2 lies on the line through 0 and 1 but far past 1.
    let raw = vec![v(0, 0), v(2, 0), v(9, 0), v(2, 1), v(0, 1)];
    let kept = simplify_contour(&raw, 1, 1, 1000);
    assert!(kept.contains(&2));
    check_bounds(&raw, &kept, 1, 1, 1000);
}
