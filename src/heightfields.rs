//! Open spans of a tile and erosion of the walkable area near obstacles.
use vstd::prelude::*;

use crate::settings::{side_with_border, NavMeshSettings};
use crate::voxels::SolidSpan;

verus! {

/// A walkable candidate interval above solid ground, linked to the spans it
/// connects to in the four grid directions (0: -x, 1: +z, 2: +x, 3: -z).
#[derive(Clone, Copy, Debug, PartialEq, Eq)]
pub struct OpenSpan {
    /// Floor height, in cell heights.
    pub min: u16,
    /// Ceiling height, if anything is above.
    pub max: Option<u16>,
    /// Area id; `None` when not walkable.
    pub area: Option<u16>,
    /// Index of the linked span in each direction, if any.
    pub neighbours: [Option<usize>; 4],
}

/// The open spans of one tile, border included. The spans of the cell at
/// index `c` (cells stored row by row) are `spans[column_starts[c]]` up to
/// `spans[column_starts[c + 1]]`.
pub struct OpenTile {
    pub spans: Vec<OpenSpan>,
    pub column_starts: Vec<usize>,
}

/// Every link points at a span of the tile.
pub open spec fn links_in_range(spans: Seq<OpenSpan>) -> bool {
    forall|i: int, d: int|
        0 <= i < spans.len() && 0 <= d < 4 ==> match #[trigger] spans[i].neighbours[d] {
            Some(j) => j < spans.len(),
            None => true,
        }
}

/// Span `i` is within `k` link steps of a span that is not walkable, or of
/// a missing link (the tile's edge, a wall or a drop), which counts as one
/// step away.
pub open spec fn near_obstacle(spans: Seq<OpenSpan>, i: int, k: nat) -> bool
    decreases k,
{
    if k == 0 {
        spans[i].area is None
    } else {
        near_obstacle(spans, i, (k - 1) as nat) || exists|d: int|
            0 <= d < 4 && match #[trigger] spans[i].neighbours[d] {
                None => true,
                Some(j) => near_obstacle(spans, j as int, (k - 1) as nat),
            }
    }
}

/// Marks not walkable every span within `walkable_radius` link steps of a
/// span that is not walkable or of a missing link; every other span keeps
/// its area.
pub fn erode_walkable_area(open_tile: &mut OpenTile, nav_mesh_settings: &NavMeshSettings)
    requires
        links_in_range(old(open_tile).spans@),
    ensures
        final(open_tile).column_starts@ == old(open_tile).column_starts@,
        final(open_tile).spans@.len() == old(open_tile).spans@.len(),
        forall|i: int|
            0 <= i < old(open_tile).spans@.len() ==> {
                &&& (#[trigger] final(open_tile).spans@[i]).neighbours == old(
                    open_tile,
                ).spans@[i].neighbours
                &&& final(open_tile).spans@[i].min == old(open_tile).spans@[i].min
                &&& final(open_tile).spans@[i].max == old(open_tile).spans@[i].max
                &&& final(open_tile).spans@[i].area == if near_obstacle(
                    old(open_tile).spans@,
                    i,
                    nav_mesh_settings.walkable_radius as nat,
                ) {
                    None
                } else {
                    old(open_tile).spans@[i].area
                }
            },
{
    let ghost orig = open_tile.spans@;
    let n = open_tile.spans.len();
    let radius = nav_mesh_settings.walkable_radius;
    let mut round: u16 = 0;
    while round < radius
        invariant
            0 <= round <= radius,
            open_tile.spans@.len() == n == orig.len(),
            open_tile.column_starts@ == old(open_tile).column_starts@,
            links_in_range(orig),
            forall|i: int|
                0 <= i < n ==> {
                    &&& (#[trigger] open_tile.spans@[i]).neighbours == orig[i].neighbours
                    &&& open_tile.spans@[i].min == orig[i].min
                    &&& open_tile.spans@[i].max == orig[i].max
                    &&& open_tile.spans@[i].area == if near_obstacle(orig, i, round as nat) {
                        None
                    } else {
                        orig[i].area
                    }
                },
        decreases radius - round,
    {
        let mut walkable: Vec<bool> = Vec::new();
        let mut i: usize = 0;
        while i < n
            invariant
                0 <= i <= n,
                open_tile.spans@.len() == n,
                open_tile.column_starts@ == old(open_tile).column_starts@,
                walkable@.len() == i,
                forall|j: int| 0 <= j < i ==> walkable@[j] == (open_tile.spans@[j].area is Some),
            decreases n - i,
        {
            walkable.push(open_tile.spans[i].area.is_some());
            i = i + 1;
        }
        let ghost before = open_tile.spans@;
        let mut i: usize = 0;
        while i < n
            invariant
                0 <= i <= n,
                open_tile.spans@.len() == n == orig.len(),
                open_tile.column_starts@ == old(open_tile).column_starts@,
            open_tile.column_starts@ == old(open_tile).column_starts@,
                before.len() == n,
                links_in_range(orig),
                walkable@.len() == n,
                forall|j: int| 0 <= j < n ==> walkable@[j] == (before[j].area is Some),
                forall|j: int|
                    0 <= j < n ==> {
                        &&& (#[trigger] before[j]).neighbours == orig[j].neighbours
                        &&& before[j].min == orig[j].min
                        &&& before[j].max == orig[j].max
                        &&& before[j].area == if near_obstacle(orig, j, round as nat) {
                            None
                        } else {
                            orig[j].area
                        }
                    },
                forall|j: int|
                    0 <= j < n ==> {
                        &&& (#[trigger] open_tile.spans@[j]).neighbours == orig[j].neighbours
                        &&& open_tile.spans@[j].min == orig[j].min
                        &&& open_tile.spans@[j].max == orig[j].max
                        &&& open_tile.spans@[j].area == if j < i {
                            if near_obstacle(orig, j, (round + 1) as nat) {
                                None
                            } else {
                                orig[j].area
                            }
                        } else {
                            before[j].area
                        }
                    },
            decreases n - i,
        {
            let span = open_tile.spans[i];
            let mut blocked = !walkable[i];
            let mut d: usize = 0;
            while d < 4
                invariant
                    0 <= d <= 4,
                    0 <= i < n,
                    walkable@.len() == n,
                    span == before[i as int],
                    before.len() == n,
                    orig.len() == n,
                    links_in_range(orig),
                    span.neighbours == orig[i as int].neighbours,
                    forall|j: int| 0 <= j < n ==> walkable@[j] == (before[j].area is Some),
                    blocked == (before[i as int].area is None || exists|e: int|
                        0 <= e < d && match #[trigger] span.neighbours[e] {
                            None => true,
                            Some(j) => before[j as int].area is None,
                        }),
                decreases 4 - d,
            {
                match span.neighbours[d] {
                    None => {
                        blocked = true;
                    },
                    Some(j) => {
                        assert(orig[i as int].neighbours[d as int] == Some(j));
                        assert(j < n);
                        if !walkable[j] {
                            blocked = true;
                        }
                    },
                }
                d = d + 1;
            }
            proof {
                let k = (round + 1) as nat;
                assert(near_obstacle(orig, i as int, k) == (near_obstacle(
                    orig,
                    i as int,
                    round as nat,
                ) || exists|e: int|
                    0 <= e < 4 && match #[trigger] orig[i as int].neighbours[e] {
                        None => true,
                        Some(j) => near_obstacle(orig, j as int, round as nat),
                    }));
                assert forall|e: int| 0 <= e < 4 implies match #[trigger] orig[i as int].neighbours[e] {
                    None => true,
                    Some(j) => near_obstacle(orig, j as int, round as nat),
                } == match span.neighbours[e] {
                    None => true,
                    Some(j) => before[j as int].area is None,
                } by {
                    match span.neighbours[e] {
                        None => {},
                        Some(j) => {
                            assert(j < n);
                            lemma_area_none_iff_near(orig, j as int, round as nat);
                        },
                    }
                }
                lemma_area_none_iff_near(orig, i as int, round as nat);
                assert(blocked == near_obstacle(orig, i as int, k));
            }
            if blocked {
                let eroded = OpenSpan { area: None, ..span };
                open_tile.spans.set(i, eroded);
            }
            i = i + 1;
        }
        round = round + 1;
    }
}

/// A span that is not walkable is near an obstacle at every distance.
proof fn lemma_area_none_iff_near(spans: Seq<OpenSpan>, i: int, k: nat)
    ensures
        spans[i].area is None ==> near_obstacle(spans, i, k),
    decreases k,
{
    if k > 0 {
        lemma_area_none_iff_near(spans, i, (k - 1) as nat);
    }
}

/// The gap above solid span `i` is tall enough to stand in: it is open to
/// the sky, or the next span starts at least `walkable_height` above.
pub open spec fn gap_clear(col: Seq<SolidSpan>, i: int, walkable_height: u16) -> bool {
    i + 1 >= col.len() || col[i + 1].min - col[i].max >= walkable_height
}

/// The open span standing on solid span `i`, not yet linked.
pub open spec fn gap_above(col: Seq<SolidSpan>, i: int) -> OpenSpan {
    OpenSpan {
        min: col[i].max,
        max: if i + 1 < col.len() {
            Some(col[i + 1].min)
        } else {
            None
        },
        area: col[i].area,
        neighbours: [None, None, None, None],
    }
}

/// The open spans standing on the first `k` solid spans, bottom up.
pub open spec fn gaps_upto(col: Seq<SolidSpan>, walkable_height: u16, k: int) -> Seq<OpenSpan>
    decreases k,
{
    if k <= 0 {
        Seq::empty()
    } else if gap_clear(col, k - 1, walkable_height) {
        gaps_upto(col, walkable_height, k - 1).push(gap_above(col, k - 1))
    } else {
        gaps_upto(col, walkable_height, k - 1)
    }
}

/// The open spans of one column: the gap above each solid span, kept when it
/// is at least `walkable_height` tall, with the area of the span below it.
pub fn open_spans_of_column(column: &Vec<SolidSpan>, walkable_height: u16) -> (r: Vec<OpenSpan>)
    requires
        crate::voxels::column_wf(column@),
    ensures
        r@ == gaps_upto(column@, walkable_height, column@.len() as int),
{
    let n = column.len();
    let mut out: Vec<OpenSpan> = Vec::new();
    let mut i: usize = 0;
    while i < n
        invariant
            0 <= i <= n == column@.len(),
            crate::voxels::column_wf(column@),
            out@ == gaps_upto(column@, walkable_height, i as int),
        decreases n - i,
    {
        let floor = column[i];
        let ceiling: Option<u16> = if i + 1 < n {
            Some(column[i + 1].min)
        } else {
            None
        };
        let clear = match ceiling {
            None => true,
            Some(top) => {
                assert(column@[i as int].max + 1 < column@[i + 1].min);
                top - floor.max >= walkable_height
            },
        };
        if clear {
            out.push(
                OpenSpan {
                    min: floor.max,
                    max: ceiling,
                    area: floor.area,
                    neighbours: [None, None, None, None],
                },
            );
        }
        i = i + 1;
    }
    out
}

/// The top of the free space of an open span; open to the sky counts as one
/// above the highest cell height.
pub open spec fn ceiling_of(s: OpenSpan) -> int {
    match s.max {
        Some(m) => m as int,
        None => 0x10000,
    }
}

/// The height of the free space two open spans share.
pub open spec fn overlap(a: OpenSpan, b: OpenSpan) -> int {
    let top = if ceiling_of(a) <= ceiling_of(b) {
        ceiling_of(a)
    } else {
        ceiling_of(b)
    };
    let bottom = if a.min >= b.min {
        a.min as int
    } else {
        b.min as int
    };
    top - bottom
}

/// An agent can step from `a` to `b`: the floors differ by at most the step
/// height, and the shared free space is at least the walkable height.
pub open spec fn can_link(a: OpenSpan, b: OpenSpan, s: NavMeshSettings) -> bool {
    &&& a.min - b.min <= s.step_height
    &&& b.min - a.min <= s.step_height
    &&& overlap(a, b) >= s.walkable_height
}

/// `link` is the span of `spans[lo..hi]` that `a` links to: the one sharing
/// the most free space with it, the lowest index among equals; `None` when
/// none qualifies.
pub open spec fn is_best_link(
    spans: Seq<OpenSpan>,
    a: OpenSpan,
    lo: int,
    hi: int,
    s: NavMeshSettings,
    link: Option<usize>,
) -> bool {
    match link {
        None => forall|j: int| lo <= j < hi ==> !can_link(a, #[trigger] spans[j], s),
        Some(j) => {
            &&& lo <= j < hi
            &&& can_link(a, spans[j as int], s)
            &&& forall|k: int|
                lo <= k < hi && can_link(a, #[trigger] spans[k], s) ==> overlap(a, spans[k])
                    < overlap(a, spans[j as int]) || (overlap(a, spans[k]) == overlap(
                    a,
                    spans[j as int],
                ) && j <= k)
        },
    }
}

fn ceiling_value(s: OpenSpan) -> (r: u32)
    ensures
        r == ceiling_of(s),
{
    match s.max {
        Some(m) => m as u32,
        None => 0x10000,
    }
}

fn overlap_value(a: OpenSpan, b: OpenSpan) -> (r: i64)
    ensures
        r == overlap(a, b),
{
    let ca = ceiling_value(a);
    let cb = ceiling_value(b);
    let top = if ca <= cb {
        ca
    } else {
        cb
    };
    let bottom = if a.min >= b.min {
        a.min
    } else {
        b.min
    };
    top as i64 - bottom as i64
}

fn can_link_value(a: OpenSpan, b: OpenSpan, s: &NavMeshSettings) -> (r: bool)
    ensures
        r == can_link(a, b, *s),
{
    let step = a.min as i64 - b.min as i64;
    step <= s.step_height as i64 && -step <= s.step_height as i64 && overlap_value(a, b)
        >= s.walkable_height as i64
}

/// The span of `spans[lo..hi]` that `a` links to, if any.
fn best_link(spans: &Vec<OpenSpan>, a: OpenSpan, lo: usize, hi: usize, s: &NavMeshSettings) -> (r:
    Option<usize>)
    requires
        lo <= hi <= spans@.len(),
    ensures
        is_best_link(spans@, a, lo as int, hi as int, *s, r),
{
    let mut best: Option<usize> = None;
    let mut j: usize = lo;
    while j < hi
        invariant
            lo <= j <= hi <= spans@.len(),
            is_best_link(spans@, a, lo as int, j as int, *s, best),
        decreases hi - j,
    {
        let b = spans[j];
        if can_link_value(a, b, s) {
            match best {
                None => {
                    best = Some(j);
                },
                Some(k) => {
                    if overlap_value(a, b) > overlap_value(a, spans[k]) {
                        best = Some(j);
                    }
                },
            }
        }
        j = j + 1;
    }
    best
}

/// The open spans standing on the solid column of cell `c`.
pub open spec fn cell_gaps(columns: Seq<Vec<SolidSpan>>, c: int, walkable_height: u16) -> Seq<
    OpenSpan,
> {
    gaps_upto(columns[c]@, walkable_height, columns[c]@.len() as int)
}

/// The index of cell `(x, z)` in a grid stored row by row, `side` cells a row.
#[verifier::opaque]
pub open spec fn cell_index(side: int, x: int, z: int) -> int {
    z * side + x
}

/// The cell next to cell `(x, z)` of a `side` by `side` grid in direction
/// `d`, if it lies inside the grid.
pub open spec fn neighbour_cell(side: int, x: int, z: int, d: int) -> Option<int> {
    if d == 0 {
        if x > 0 {
            Some(cell_index(side, x - 1, z))
        } else {
            None
        }
    } else if d == 1 {
        if z + 1 < side {
            Some(cell_index(side, x, z + 1))
        } else {
            None
        }
    } else if d == 2 {
        if x + 1 < side {
            Some(cell_index(side, x + 1, z))
        } else {
            None
        }
    } else {
        if z > 0 {
            Some(cell_index(side, x, z - 1))
        } else {
            None
        }
    }
}

/// `link` is what a span `a` of cell `(x, z)` links to in direction `d`:
/// nothing outside the grid, else its best link in the neighbouring cell.
pub open spec fn link_ok(
    spans: Seq<OpenSpan>,
    starts: Seq<usize>,
    side: int,
    x: int,
    z: int,
    d: int,
    a: OpenSpan,
    link: Option<usize>,
    s: NavMeshSettings,
) -> bool {
    match neighbour_cell(side, x, z, d) {
        None => link is None,
        Some(nc) => is_best_link(spans, a, starts[nc] as int, starts[nc + 1] as int, s, link),
    }
}

/// Span `sp` has the shape of `base[k]` and the links owed to it there.
pub open spec fn span_linked(
    base: Seq<OpenSpan>,
    starts: Seq<usize>,
    side: int,
    x: int,
    z: int,
    k: int,
    sp: OpenSpan,
    s: NavMeshSettings,
) -> bool {
    &&& sp.min == base[k].min
    &&& sp.max == base[k].max
    &&& sp.area == base[k].area
    &&& forall|d: int|
        0 <= d < 4 ==> link_ok(base, starts, side, x, z, d, base[k], #[trigger] sp.neighbours[d], s)
}

/// Cell `(x, z)` of the tile holds the open spans of its solid column, in
/// order, each linked in every direction to its best neighbouring span.
pub open spec fn cell_built(
    columns: Seq<Vec<SolidSpan>>,
    spans: Seq<OpenSpan>,
    starts: Seq<usize>,
    side: int,
    x: int,
    z: int,
    s: NavMeshSettings,
) -> bool {
    let c = cell_index(side, x, z);
    let gaps = cell_gaps(columns, c, s.walkable_height);
    &&& starts[c + 1] - starts[c] == gaps.len()
    &&& forall|t: int|
        0 <= t < gaps.len() ==> {
            &&& (#[trigger] spans[starts[c] + t]).min == gaps[t].min
            &&& spans[starts[c] + t].max == gaps[t].max
            &&& spans[starts[c] + t].area == gaps[t].area
            &&& forall|d: int|
                0 <= d < 4 ==> link_ok(
                    spans,
                    starts,
                    side,
                    x,
                    z,
                    d,
                    spans[starts[c] + t],
                    #[trigger] spans[starts[c] + t].neighbours[d],
                    s,
                )
        }
}

/// Every link of `spans` points below `n`.
pub open spec fn links_below(spans: Seq<OpenSpan>, n: int) -> bool {
    forall|i: int, d: int|
        0 <= i < spans.len() && 0 <= d < 4 ==> match #[trigger] spans[i].neighbours[d] {
            Some(j) => j < n,
            None => true,
        }
}

/// Two span lists of one length whose spans have the same floors and ceilings.
pub open spec fn same_shape(a: Seq<OpenSpan>, b: Seq<OpenSpan>) -> bool {
    &&& a.len() == b.len()
    &&& forall|j: int| 0 <= j < a.len() ==> (#[trigger] a[j]).min == b[j].min && a[j].max == b[j].max
}

proof fn lemma_best_link_shape(
    b1: Seq<OpenSpan>,
    b2: Seq<OpenSpan>,
    a1: OpenSpan,
    a2: OpenSpan,
    lo: int,
    hi: int,
    s: NavMeshSettings,
    link: Option<usize>,
)
    requires
        same_shape(b1, b2),
        a1.min == a2.min,
        a1.max == a2.max,
        0 <= lo <= hi <= b1.len(),
        is_best_link(b1, a1, lo, hi, s, link),
    ensures
        is_best_link(b2, a2, lo, hi, s, link),
{
    assert forall|j: int| lo <= j < hi implies can_link(a2, b2[j], s) == can_link(a1, b1[j], s)
        && overlap(a2, b2[j]) == overlap(a1, b1[j]) by {
        assert(b1[j].min == b2[j].min && b1[j].max == b2[j].max);
    }
}

/// The unlinked open spans of all cells, cell by cell, and where each cell's
/// spans start.
pub open spec fn gathered(
    columns: Seq<Vec<SolidSpan>>,
    base: Seq<OpenSpan>,
    starts: Seq<usize>,
    cells: int,
    walkable_height: u16,
) -> bool {
    &&& starts.len() == cells + 1
    &&& starts[0] == 0
    &&& starts[cells] == base.len()
    &&& forall|c: int| 0 <= c <= cells ==> #[trigger] starts[c] <= base.len()
    &&& forall|i: int, j: int| 0 <= i <= j <= cells ==> #[trigger] starts[i] <= #[trigger] starts[j]
    &&& forall|c: int|
        0 <= c < cells ==> {
            &&& #[trigger] starts[c] <= starts[c + 1]
            &&& starts[c + 1] - starts[c] == cell_gaps(columns, c, walkable_height).len()
            &&& forall|t: int|
                0 <= t < cell_gaps(columns, c, walkable_height).len() ==> base[starts[c] + t]
                    == #[trigger] cell_gaps(columns, c, walkable_height)[t]
        }
}

#[verifier::rlimit(90)]
fn gather_open_spans(columns: &Vec<Vec<SolidSpan>>, walkable_height: u16) -> (r: (
    Vec<OpenSpan>,
    Vec<usize>,
))
    requires
        forall|c: int| 0 <= c < columns@.len() ==> crate::voxels::column_wf(#[trigger] columns@[c]@),
    ensures
        gathered(columns@, r.0@, r.1@, columns@.len() as int, walkable_height),
{
    let cells = columns.len();
    let mut base: Vec<OpenSpan> = Vec::new();
    let mut starts: Vec<usize> = Vec::new();
    starts.push(0);
    let mut c: usize = 0;
    while c < cells
        invariant
            0 <= c <= cells == columns@.len(),
            forall|c: int| 0 <= c < columns@.len() ==> crate::voxels::column_wf(#[trigger] columns@[c]@),
            gathered(columns@, base@, starts@, c as int, walkable_height),
        decreases cells - c,
    {
        let open = open_spans_of_column(&columns[c], walkable_height);
        let ghost before = base@;
        let ghost gaps = cell_gaps(columns@, c as int, walkable_height);
        let mut t: usize = 0;
        while t < open.len()
            invariant
                0 <= t <= open@.len(),
                open@ == gaps,
                base@.len() == before.len() + t,
                forall|j: int| 0 <= j < before.len() ==> base@[j] == before[j],
                forall|j: int| 0 <= j < t ==> base@[before.len() + j] == gaps[j],
            decreases open@.len() - t,
        {
            base.push(open[t]);
            t = t + 1;
        }
        starts.push(base.len());
        c = c + 1;
        proof {
            let cc = c as int;
            assert forall|i: int, j: int| 0 <= i <= j <= cc implies #[trigger] starts@[i]
                <= #[trigger] starts@[j] by {
                if j == cc {
                    assert(starts@[i] <= base@.len());
                }
            }
            assert forall|k: int| 0 <= k < cc implies {
                &&& #[trigger] starts@[k] <= starts@[k + 1]
                &&& starts@[k + 1] - starts@[k] == cell_gaps(columns@, k, walkable_height).len()
                &&& forall|t: int|
                    0 <= t < cell_gaps(columns@, k, walkable_height).len() ==> base@[starts@[k]
                        + t] == #[trigger] cell_gaps(columns@, k, walkable_height)[t]
            } by {
                if k < cc - 1 {
                    assert forall|t: int|
                        0 <= t < cell_gaps(columns@, k, walkable_height).len() implies base@[starts@[k]
                            + t] == #[trigger] cell_gaps(columns@, k, walkable_height)[t] by {
                        assert(base@[starts@[k] + t] == before[starts@[k] + t]);
                    }
                }
            }
        }
    }
    (base, starts)
}

proof fn lemma_cell_index(side: int, x: int, z: int)
    requires
        0 <= x < side,
        0 <= z < side,
    ensures
        0 <= cell_index(side, x, z) < side * side,
        cell_index(side, x, z) == cell_index(side, 0, z) + x,
        cell_index(side, 0, z + 1) == cell_index(side, 0, z) + side,
        cell_index(side, 0, 0) == 0,
        cell_index(side, 0, side) == side * side,
        x > 0 ==> cell_index(side, x - 1, z) == cell_index(side, x, z) - 1,
        x + 1 < side ==> cell_index(side, x + 1, z) == cell_index(side, x, z) + 1,
        z + 1 < side ==> cell_index(side, x, z + 1) == cell_index(side, x, z) + side
            && cell_index(side, x, z + 1) < side * side,
        z > 0 ==> cell_index(side, x, z - 1) == cell_index(side, x, z) - side
            && cell_index(side, x, z - 1) >= 0,
{
    reveal(cell_index);
    assert(0 <= z * side + x < side * side) by (nonlinear_arith)
        requires
            0 <= x < side,
            0 <= z < side,
    ;
    assert((z + 1) * side == z * side + side) by (nonlinear_arith);
    assert(side * side == side * side + 0);
    assert(z + 1 < side ==> (z + 1) * side + x < side * side) by (nonlinear_arith)
        requires
            0 <= x < side,
            0 <= z < side,
    ;
    assert(z > 0 ==> (z - 1) * side + x == z * side + x - side && z * side + x - side >= 0)
        by (nonlinear_arith)
        requires
            0 <= x < side,
            0 <= z < side,
    ;
}

proof fn lemma_cell_order(side: int, xx: int, zz: int, x: int, z: int)
    requires
        0 <= xx < side,
        0 <= x < side,
        0 <= zz < side,
        0 <= z < side,
        zz < z || (zz == z && xx < x),
    ensures
        cell_index(side, xx, zz) + 1 <= cell_index(side, x, z),
{
    reveal(cell_index);
    assert(zz < z ==> zz * side + xx + 1 <= z * side + x) by (nonlinear_arith)
        requires
            0 <= xx < side,
            0 <= x < side,
            0 <= zz,
    ;
}

/// Pushes the spans of cell `(x, z)`, each with its links.
fn link_cell(
    base: &Vec<OpenSpan>,
    starts: &Vec<usize>,
    side: usize,
    x: usize,
    z: usize,
    c: usize,
    linked: &mut Vec<OpenSpan>,
    s: &NavMeshSettings,
)
    requires
        0 <= x < side,
        0 <= z < side,
        c == cell_index(side as int, x as int, z as int),
        side * side <= usize::MAX,
        starts@.len() == side * side + 1,
        forall|i: int| 0 <= i <= side * side ==> #[trigger] starts@[i] <= base@.len(),
        forall|i: int, j: int|
            0 <= i <= j <= side * side ==> #[trigger] starts@[i] <= #[trigger] starts@[j],
        old(linked)@.len() == starts@[c as int],
    ensures
        final(linked)@.len() == starts@[c + 1],
        forall|k: int| 0 <= k < old(linked)@.len() ==> final(linked)@[k] == old(linked)@[k],
        forall|k: int|
            starts@[c as int] <= k < starts@[c + 1] ==> #[trigger] span_linked(
                base@,
                starts@,
                side as int,
                x as int,
                z as int,
                k,
                final(linked)@[k],
                *s,
            ),
        forall|k: int|
            starts@[c as int] <= k < starts@[c + 1] ==> (#[trigger] final(linked)@[k]).min
                == base@[k].min && final(linked)@[k].max == base@[k].max,
        forall|k: int, d: int|
            starts@[c as int] <= k < starts@[c + 1] && 0 <= d < 4 ==> match #[trigger] final(linked)@[k].neighbours[d] {
                Some(j) => j < base@.len(),
                None => true,
            },
{
    proof {
        lemma_cell_index(side as int, x as int, z as int);
    }
    let mut k = starts[c];
    while k < starts[c + 1]
        invariant
            c + 1 <= side * side,
            side * side <= usize::MAX,
            starts@.len() == side * side + 1,
            forall|i: int| 0 <= i <= side * side ==> #[trigger] starts@[i] <= base@.len(),
            forall|i: int, j: int|
                0 <= i <= j <= side * side ==> #[trigger] starts@[i] <= #[trigger] starts@[j],
            0 <= x < side,
            0 <= z < side,
            c == cell_index(side as int, x as int, z as int),
            starts@[c as int] <= k <= starts@[c + 1],
            linked@.len() == k,
            forall|kk: int| 0 <= kk < old(linked)@.len() ==> linked@[kk] == old(linked)@[kk],
            old(linked)@.len() == starts@[c as int],
            forall|kk: int|
                starts@[c as int] <= kk < k ==> #[trigger] span_linked(
                    base@,
                    starts@,
                    side as int,
                    x as int,
                    z as int,
                    kk,
                    linked@[kk],
                    *s,
                ),
            forall|kk: int|
                starts@[c as int] <= kk < k ==> (#[trigger] linked@[kk]).min == base@[kk].min
                    && linked@[kk].max == base@[kk].max,
            forall|kk: int, d: int|
                starts@[c as int] <= kk < k && 0 <= d < 4 ==> match #[trigger] linked@[kk].neighbours[d] {
                    Some(j) => j < base@.len(),
                    None => true,
                },
        decreases starts@[c + 1] - k,
    {
        let sp = link_span(base, starts, side, x, z, c, k, s);
        linked.push(sp);
        k = k + 1;
    }
}

proof fn lemma_cells_done(
    base: Seq<OpenSpan>,
    starts: Seq<usize>,
    sd: int,
    x: int,
    z: int,
    before: Seq<OpenSpan>,
    after: Seq<OpenSpan>,
    s: NavMeshSettings,
)
    requires
        0 <= x < sd,
        0 <= z < sd,
        starts.len() == sd * sd + 1,
        forall|i: int, j: int| 0 <= i <= j <= sd * sd ==> #[trigger] starts[i] <= #[trigger] starts[j],
        before.len() == starts[cell_index(sd, x, z)],
        after.len() == starts[cell_index(sd, x, z) + 1],
        forall|k: int| 0 <= k < before.len() ==> after[k] == before[k],
        forall|k: int| 0 <= k < before.len() ==> (#[trigger] before[k]).min == base[k].min
            && before[k].max == base[k].max,
        links_below(before, base.len() as int),
        forall|xx: int, zz: int, k: int|
            0 <= xx < sd && 0 <= zz < sd && (zz < z || (zz == z && xx < x))
                && starts[cell_index(sd, xx, zz)] <= k < starts[cell_index(sd, xx, zz) + 1]
                ==> #[trigger] span_linked(base, starts, sd, xx, zz, k, before[k], s),
        forall|k: int|
            starts[cell_index(sd, x, z)] <= k < starts[cell_index(sd, x, z) + 1]
                ==> #[trigger] span_linked(base, starts, sd, x, z, k, after[k], s),
        forall|k: int|
            starts[cell_index(sd, x, z)] <= k < starts[cell_index(sd, x, z) + 1] ==> (
            #[trigger] after[k]).min == base[k].min && after[k].max == base[k].max,
        forall|k: int, d: int|
            starts[cell_index(sd, x, z)] <= k < starts[cell_index(sd, x, z) + 1] && 0 <= d < 4
                ==> match #[trigger] after[k].neighbours[d] {
                Some(j) => j < base.len(),
                None => true,
            },
    ensures
        forall|k: int| 0 <= k < after.len() ==> (#[trigger] after[k]).min == base[k].min
            && after[k].max == base[k].max,
        links_below(after, base.len() as int),
        forall|xx: int, zz: int, k: int|
            0 <= xx < sd && 0 <= zz < sd && (zz < z || (zz == z && xx < x + 1))
                && starts[cell_index(sd, xx, zz)] <= k < starts[cell_index(sd, xx, zz) + 1]
                ==> #[trigger] span_linked(base, starts, sd, xx, zz, k, after[k], s),
{
    lemma_cell_index(sd, x, z);
    assert forall|xx: int, zz: int, k: int|
        0 <= xx < sd && 0 <= zz < sd && (zz < z || (zz == z && xx < x + 1))
            && starts[cell_index(sd, xx, zz)] <= k < starts[cell_index(sd, xx, zz) + 1] implies
        #[trigger] span_linked(base, starts, sd, xx, zz, k, after[k], s) by {
        if zz < z || (zz == z && xx < x) {
            lemma_cell_order(sd, xx, zz, x, z);
            lemma_cell_index(sd, xx, zz);
            assert(starts[cell_index(sd, xx, zz) + 1] <= starts[cell_index(sd, x, z)]);
            assert(after[k] == before[k]);
            assert(span_linked(base, starts, sd, xx, zz, k, before[k], s));
        } else {
            assert(xx == x && zz == z);
        }
    }
    assert forall|k: int| 0 <= k < after.len() implies (#[trigger] after[k]).min == base[k].min
        && after[k].max == base[k].max by {
        if k < before.len() {
            assert(after[k] == before[k]);
        }
    }
    assert forall|i: int, d: int|
        0 <= i < after.len() && 0 <= d < 4 implies match #[trigger] after[i].neighbours[d] {
            Some(j) => j < base.len() as int,
            None => true,
        } by {
        if i < before.len() {
            assert(after[i] == before[i]);
        }
    }
}

/// Span `k` of cell `(x, z)` with its links.
fn link_span(
    base: &Vec<OpenSpan>,
    starts: &Vec<usize>,
    side: usize,
    x: usize,
    z: usize,
    c: usize,
    k: usize,
    s: &NavMeshSettings,
) -> (sp: OpenSpan)
    requires
        0 <= x < side,
        0 <= z < side,
        c == cell_index(side as int, x as int, z as int),
        side * side <= usize::MAX,
        starts@.len() == side * side + 1,
        forall|i: int| 0 <= i <= side * side ==> #[trigger] starts@[i] <= base@.len(),
        forall|i: int, j: int|
            0 <= i <= j <= side * side ==> #[trigger] starts@[i] <= #[trigger] starts@[j],
        k < base@.len(),
    ensures
        span_linked(base@, starts@, side as int, x as int, z as int, k as int, sp, *s),
        sp.min == base@[k as int].min,
        sp.max == base@[k as int].max,
        forall|d: int|
            0 <= d < 4 ==> match #[trigger] sp.neighbours[d] {
                Some(j) => j < base@.len(),
                None => true,
            },
{
    let ghost sd = side as int;
    proof {
        lemma_cell_index(sd, x as int, z as int);
    }
    let a = base[k];
    let n0 = if x > 0 {
        best_link(base, a, starts[c - 1], starts[c], s)
    } else {
        None
    };
    let n1 = if z + 1 < side {
        best_link(base, a, starts[c + side], starts[c + side + 1], s)
    } else {
        None
    };
    let n2 = if x + 1 < side {
        best_link(base, a, starts[c + 1], starts[c + 2], s)
    } else {
        None
    };
    let n3 = if z > 0 {
        best_link(base, a, starts[c - side], starts[c - side + 1], s)
    } else {
        None
    };
    let sp = OpenSpan { min: a.min, max: a.max, area: a.area, neighbours: [n0, n1, n2, n3] };
    proof {
        assert forall|d: int| 0 <= d < 4 implies link_ok(
            base@,
            starts@,
            sd,
            x as int,
            z as int,
            d,
            base@[k as int],
            #[trigger] sp.neighbours[d],
            *s,
        ) by {}
        assert forall|d: int| 0 <= d < 4 implies match #[trigger] sp.neighbours[d] {
            Some(j) => j < base@.len(),
            None => true,
        } by {
            assert(link_ok(base@, starts@, sd, x as int, z as int, d, base@[k as int], sp.neighbours[d], *s));
            match neighbour_cell(sd, x as int, z as int, d) {
                None => {},
                Some(nc) => {
                    assert(0 <= nc < sd * sd);
                    assert(starts@[nc + 1] <= base@.len());
                },
            }
        }
    }
    sp
}

/// Builds the open spans of a tile from its solid columns, stored row by row
/// with `side_with_border` cells a row: each column yields the gaps above
/// its solid spans that are tall enough to stand in, and every open span is
/// linked in each direction to the span of the neighbouring cell it can step
/// to sharing the most free space.
#[verifier::rlimit(80)]
pub fn build_open_heightfield_tile(
    columns: &Vec<Vec<SolidSpan>>,
    nav_mesh_settings: &NavMeshSettings,
) -> (r: OpenTile)
    requires
        columns@.len() == side_with_border(*nav_mesh_settings) * side_with_border(
            *nav_mesh_settings,
        ),
        forall|c: int| 0 <= c < columns@.len() ==> crate::voxels::column_wf(#[trigger] columns@[c]@),
    ensures
        r.column_starts@.len() == columns@.len() + 1,
        r.column_starts@[0] == 0,
        r.column_starts@[columns@.len() as int] == r.spans@.len(),
        links_in_range(r.spans@),
        forall|x: int, z: int|
            0 <= x < side_with_border(*nav_mesh_settings) && 0 <= z < side_with_border(
                *nav_mesh_settings,
            ) ==> #[trigger] cell_built(
                columns@,
                r.spans@,
                r.column_starts@,
                side_with_border(*nav_mesh_settings),
                x,
                z,
                *nav_mesh_settings,
            ),
{
    let s = nav_mesh_settings;
    let (base, starts) = gather_open_spans(columns, s.walkable_height);
    let side = s.get_tile_side_with_border();
    let ghost sd = side as int;
    let ghost cells = columns@.len() as int;
    let n_cells = columns.len();
    assert(cells == n_cells);
    let mut linked: Vec<OpenSpan> = Vec::new();
    let mut row: usize = 0;
    let mut z: usize = 0;
    if side == 0 {
        assert(cells == 0) by (nonlinear_arith)
            requires
                cells == sd * sd,
                sd == 0,
        ;
        assert(links_in_range(linked@));
        return OpenTile { spans: linked, column_starts: starts };
    }
    proof {
        lemma_cell_index(sd, 0, 0);
    }
    while z < side
        invariant
            0 <= z <= side,
            sd == side,
            sd > 0,
            cells == sd * sd,
            cells <= usize::MAX,
            row == cell_index(sd, 0, z as int),
            row <= cells,
            gathered(columns@, base@, starts@, cells, s.walkable_height),
            linked@.len() == starts@[row as int],
            forall|k: int| 0 <= k < linked@.len() ==> (#[trigger] linked@[k]).min == base@[k].min
                && linked@[k].max == base@[k].max,
            links_below(linked@, base@.len() as int),
            forall|xx: int, zz: int, k: int|
                0 <= xx < sd && 0 <= zz < z && starts@[cell_index(sd, xx, zz)] <= k
                    < starts@[cell_index(sd, xx, zz) + 1] ==> #[trigger] span_linked(
                    base@,
                    starts@,
                    sd,
                    xx,
                    zz,
                    k,
                    linked@[k],
                    *s,
                ),
        decreases side - z,
    {
        let mut x: usize = 0;
        let mut c: usize = row;
        while x < side
            invariant
                0 <= z < side,
                0 <= x <= side,
                sd == side,
                cells == sd * sd,
                cells <= usize::MAX,
                row == cell_index(sd, 0, z as int),
                c == row + x,
                c <= cells,
                gathered(columns@, base@, starts@, cells, s.walkable_height),
                linked@.len() == starts@[c as int],
                forall|k: int| 0 <= k < linked@.len() ==> (#[trigger] linked@[k]).min
                    == base@[k].min && linked@[k].max == base@[k].max,
                links_below(linked@, base@.len() as int),
                forall|xx: int, zz: int, k: int|
                    0 <= xx < sd && 0 <= zz < sd && (zz < z || (zz == z && xx < x))
                        && starts@[cell_index(sd, xx, zz)] <= k < starts@[cell_index(sd, xx, zz)
                        + 1] ==> #[trigger] span_linked(base@, starts@, sd, xx, zz, k, linked@[k], *s),
            decreases side - x,
        {
            proof {
                lemma_cell_index(sd, x as int, z as int);
            }
            let ghost before = linked@;
            link_cell(&base, &starts, side, x, z, c, &mut linked, s);
            proof {
                lemma_cells_done(base@, starts@, sd, x as int, z as int, before, linked@, *s);
            }
            x = x + 1;
            c = c + 1;
        }
        proof {
            lemma_cell_index(sd, 0, z as int);
        }
        z = z + 1;
        row = row + side;
    }
    proof {
        lemma_cell_index(sd, 0, sd - 1);
        assert forall|x: int, z: int| 0 <= x < sd && 0 <= z < sd implies #[trigger] cell_built(
            columns@,
            linked@,
            starts@,
            sd,
            x,
            z,
            *s,
        ) by {
            lemma_cell_index(sd, x, z);
            let c = cell_index(sd, x, z);
            let gaps = cell_gaps(columns@, c, s.walkable_height);
            assert forall|t: int| 0 <= t < gaps.len() implies {
                &&& (#[trigger] linked@[starts@[c] + t]).min == gaps[t].min
                &&& linked@[starts@[c] + t].max == gaps[t].max
                &&& linked@[starts@[c] + t].area == gaps[t].area
                &&& forall|d: int|
                    0 <= d < 4 ==> link_ok(
                        linked@,
                        starts@,
                        sd,
                        x,
                        z,
                        d,
                        linked@[starts@[c] + t],
                        #[trigger] linked@[starts@[c] + t].neighbours[d],
                        *s,
                    )
            } by {
                let k = starts@[c] + t;
                assert(starts@[c] <= starts@[c + 1]);
                assert(span_linked(base@, starts@, sd, x, z, k, linked@[k], *s));
                assert(base@[k] == gaps[t]);
                assert forall|d: int| 0 <= d < 4 implies link_ok(
                    linked@,
                    starts@,
                    sd,
                    x,
                    z,
                    d,
                    linked@[k],
                    #[trigger] linked@[k].neighbours[d],
                    *s,
                ) by {
                    assert(link_ok(
                        base@,
                        starts@,
                        sd,
                        x,
                        z,
                        d,
                        base@[k],
                        linked@[k].neighbours[d],
                        *s,
                    ));
                    match neighbour_cell(sd, x, z, d) {
                        None => {},
                        Some(nc) => {
                            assert(0 <= nc < cells);
                            assert(starts@[nc] <= starts@[nc + 1]);
                            lemma_best_link_shape(
                                base@,
                                linked@,
                                base@[k],
                                linked@[k],
                                starts@[nc] as int,
                                starts@[nc + 1] as int,
                                *s,
                                linked@[k].neighbours[d],
                            );
                        },
                    }
                }
            }
        }
        assert(links_in_range(linked@));
    }
    OpenTile { spans: linked, column_starts: starts }
}

/// `k` is the distance of span `i` from the nearest obstacle: the fewest link
/// steps at which it is near one.
pub open spec fn is_distance(spans: Seq<OpenSpan>, i: int, k: nat) -> bool {
    near_obstacle(spans, i, k) && (k == 0 || !near_obstacle(spans, i, (k - 1) as nat))
}

/// The number of `true` entries.
pub open spec fn count_true(s: Seq<bool>) -> nat
    decreases s.len(),
{
    if s.len() == 0 {
        0
    } else {
        count_true(s.drop_last()) + if s.last() {
            1nat
        } else {
            0nat
        }
    }
}

proof fn lemma_count_grows(a: Seq<bool>, b: Seq<bool>)
    requires
        a.len() == b.len(),
        forall|i: int| 0 <= i < a.len() && #[trigger] a[i] ==> b[i],
    ensures
        count_true(a) <= count_true(b) <= b.len(),
        (exists|i: int| 0 <= i < a.len() && b[i] && !a[i]) ==> count_true(a) < count_true(b),
    decreases a.len(),
{
    if a.len() > 0 {
        let (a0, b0) = (a.drop_last(), b.drop_last());
        assert forall|i: int| 0 <= i < a0.len() && #[trigger] a0[i] implies b0[i] by {
            assert(a[i] == a0[i] && b[i] == b0[i]);
        }
        lemma_count_grows(a0, b0);
        if exists|i: int| 0 <= i < a.len() && b[i] && !a[i] {
            let i = choose|i: int| 0 <= i < a.len() && b[i] && !a[i];
            if i < a0.len() {
                assert(b0[i] && !a0[i]);
            }
        }
    }
}

/// Once a round marks no new span, no later round does.
proof fn lemma_near_stable(spans: Seq<OpenSpan>, k: nat, m: nat)
    requires
        links_in_range(spans),
        k <= m,
        forall|i: int| 0 <= i < spans.len() ==> near_obstacle(spans, i, k + 1) == near_obstacle(
            spans,
            i,
            k,
        ),
    ensures
        forall|i: int| 0 <= i < spans.len() ==> near_obstacle(spans, i, m) == near_obstacle(
            spans,
            i,
            k,
        ),
    decreases m - k,
{
    if m > k + 1 {
        lemma_near_stable(spans, k, (m - 1) as nat);
        assert forall|i: int| 0 <= i < spans.len() implies near_obstacle(spans, i, m)
            == near_obstacle(spans, i, k) by {
            let p = (m - 1) as nat;
            let q = (m - 2) as nat;
            assert forall|d: int| 0 <= d < 4 implies match #[trigger] spans[i].neighbours[d] {
                None => true,
                Some(j) => near_obstacle(spans, j as int, p),
            } == match spans[i].neighbours[d] {
                None => true,
                Some(j) => near_obstacle(spans, j as int, q),
            } by {
                match spans[i].neighbours[d] {
                    None => {},
                    Some(j) => {
                        if q >= k {
                            lemma_near_stable(spans, k, q);
                        }
                    },
                }
            }
            if q >= k {
                lemma_near_stable(spans, k, q);
            }
        }
    }
}

proof fn lemma_near_monotone(spans: Seq<OpenSpan>, i: int, k: nat, m: nat)
    requires
        k <= m,
        near_obstacle(spans, i, k),
    ensures
        near_obstacle(spans, i, m),
    decreases m - k,
{
    if k < m {
        lemma_near_monotone(spans, i, k, (m - 1) as nat);
    }
}

/// For each span, its distance in link steps from the nearest span that is
/// not walkable or the nearest missing link; `None` where no obstacle can
/// be reached.
pub fn calculate_distance_field(open_tile: &OpenTile) -> (r: Vec<Option<usize>>)
    requires
        links_in_range(open_tile.spans@),
    ensures
        r@.len() == open_tile.spans@.len(),
        forall|i: int|
            0 <= i < r@.len() ==> match #[trigger] r@[i] {
                Some(k) => is_distance(open_tile.spans@, i, k as nat),
                None => forall|k: nat| !near_obstacle(open_tile.spans@, i, k),
            },
{
    let ghost spans = open_tile.spans@;
    let n = open_tile.spans.len();
    let mut near: Vec<bool> = Vec::new();
    let mut dist: Vec<Option<usize>> = Vec::new();
    let mut i: usize = 0;
    while i < n
        invariant
            0 <= i <= n == spans.len(),
            spans == open_tile.spans@,
            near@.len() == i,
            dist@.len() == i,
            forall|j: int| 0 <= j < i ==> #[trigger] near@[j] == near_obstacle(spans, j, 0),
            forall|j: int|
                0 <= j < i ==> #[trigger] dist@[j] == if near_obstacle(spans, j, 0) {
                    Some(0usize)
                } else {
                    None
                },
        decreases n - i,
    {
        let blocked = open_tile.spans[i].area.is_none();
        near.push(blocked);
        dist.push(
            if blocked {
                Some(0)
            } else {
                None
            },
        );
        i = i + 1;
    }
    proof {
        lemma_count_grows(near@, near@);
    }
    let mut round: usize = 0;
    let mut changed = true;
    while changed
        invariant
            n == spans.len(),
            spans == open_tile.spans@,
            links_in_range(spans),
            near@.len() == n,
            dist@.len() == n,
            changed ==> round <= count_true(near@),
            round <= n + 1,
            count_true(near@) <= n,
            forall|j: int| 0 <= j < n ==> #[trigger] near@[j] == near_obstacle(spans, j, round as nat),
            forall|j: int|
                0 <= j < n ==> match #[trigger] dist@[j] {
                    Some(k) => k <= round && is_distance(spans, j, k as nat),
                    None => !near_obstacle(spans, j, round as nat),
                },
            !changed ==> forall|j: int|
                0 <= j < n ==> near_obstacle(spans, j, (round + 1) as nat) == near_obstacle(
                    spans,
                    j,
                    round as nat,
                ),
        decreases n + 1 - round + if changed {
            1int
        } else {
            0int
        },
    {
        let mut next: Vec<bool> = Vec::new();
        let mut i: usize = 0;
        while i < n
            invariant
                0 <= i <= n == spans.len(),
                spans == open_tile.spans@,
                links_in_range(spans),
                near@.len() == n,
                next@.len() == i,
                forall|j: int| 0 <= j < n ==> #[trigger] near@[j] == near_obstacle(spans, j, round as nat),
                forall|j: int|
                    0 <= j < i ==> #[trigger] next@[j] == near_obstacle(spans, j, (round + 1) as nat),
            decreases n - i,
        {
            let span = open_tile.spans[i];
            let mut hit = near[i];
            let mut d: usize = 0;
            while d < 4
                invariant
                    0 <= d <= 4,
                    0 <= i < n == spans.len(),
                    span == spans[i as int],
                    near@.len() == n,
                    links_in_range(spans),
                    forall|j: int| 0 <= j < n ==> #[trigger] near@[j] == near_obstacle(spans, j, round as nat),
                    hit == (near_obstacle(spans, i as int, round as nat) || exists|e: int|
                        0 <= e < d && match #[trigger] span.neighbours[e] {
                            None => true,
                            Some(j) => near_obstacle(spans, j as int, round as nat),
                        }),
                decreases 4 - d,
            {
                match span.neighbours[d] {
                    None => {
                        hit = true;
                    },
                    Some(j) => {
                        assert(spans[i as int].neighbours[d as int] == Some(j));
                        if near[j] {
                            hit = true;
                        }
                    },
                }
                d = d + 1;
            }
            next.push(hit);
            i = i + 1;
        }
        proof {
            assert forall|j: int| 0 <= j < n && #[trigger] near@[j] implies next@[j] by {
                lemma_near_monotone(spans, j, round as nat, (round + 1) as nat);
            }
            lemma_count_grows(near@, next@);
        }
        let mut grew = false;
        let mut i: usize = 0;
        while i < n
            invariant
                0 <= i <= n == spans.len(),
                near@.len() == n,
                next@.len() == n,
                dist@.len() == n,
                round <= count_true(near@),
                count_true(next@) <= n,
                (exists|j: int| 0 <= j < near@.len() && next@[j] && !near@[j]) ==> count_true(
                    near@,
                ) < count_true(next@),
                forall|j: int| 0 <= j < n ==> #[trigger] near@[j] == near_obstacle(spans, j, round as nat),
                forall|j: int|
                    0 <= j < n ==> #[trigger] next@[j] == near_obstacle(spans, j, (round + 1) as nat),
                grew == exists|j: int| 0 <= j < i && next@[j] && !near@[j],
                forall|j: int|
                    0 <= j < n ==> match #[trigger] dist@[j] {
                        Some(k) => k <= round + 1 && is_distance(spans, j, k as nat),
                        None => if j < i {
                            !near_obstacle(spans, j, (round + 1) as nat)
                        } else {
                            !near_obstacle(spans, j, round as nat)
                        },
                    },
            decreases n - i,
        {
            if next[i] && !near[i] {
                assert(next@[i as int] && !near@[i as int]);
                grew = true;
                dist.set(i, Some(round + 1));
            } else {
                proof {
                    if dist@[i as int] is None {
                        assert(!near_obstacle(spans, i as int, round as nat));
                    }
                }
            }
            i = i + 1;
        }
        proof {
            if !grew {
                assert forall|j: int| 0 <= j < n implies near_obstacle(spans, j, (round + 1) as nat)
                    == near_obstacle(spans, j, round as nat) by {
                    if next@[j] && !near@[j] {
                        assert(exists|j: int| 0 <= j < n && next@[j] && !near@[j]);
                    }
                }
            }
        }
        near = next;
        if grew {
            round = round + 1;
        }
        changed = grew;
    }
    proof {
        assert forall|j: int| 0 <= j < n && dist@[j] is None implies forall|k: nat|
            !near_obstacle(spans, j, k) by {
            assert forall|k: nat| !near_obstacle(spans, j, k) by {
                if near_obstacle(spans, j, k) {
                    if k <= round {
                        lemma_near_monotone(spans, j, k, round as nat);
                    } else {
                        lemma_near_stable(spans, round as nat, k);
                    }
                }
            }
        }
    }
    dist
}

/// `spans` with `starts` is what `build_open_heightfield_tile` makes of
/// `columns`.
pub open spec fn open_tile_built(
    columns: Seq<Vec<SolidSpan>>,
    spans: Seq<OpenSpan>,
    starts: Seq<usize>,
    s: NavMeshSettings,
) -> bool {
    &&& starts.len() == columns.len() + 1
    &&& starts[0] == 0
    &&& starts[columns.len() as int] == spans.len()
    &&& links_in_range(spans)
    &&& forall|x: int, z: int|
        0 <= x < side_with_border(s) && 0 <= z < side_with_border(s) ==> #[trigger] cell_built(
            columns,
            spans,
            starts,
            side_with_border(s),
            x,
            z,
            s,
        )
}

/// `after` is `before` with every span within `radius` link steps of an
/// obstacle made not walkable.
pub open spec fn eroded(before: Seq<OpenSpan>, after: Seq<OpenSpan>, radius: nat) -> bool {
    &&& after.len() == before.len()
    &&& forall|i: int|
        0 <= i < before.len() ==> {
            &&& (#[trigger] after[i]).neighbours == before[i].neighbours
            &&& after[i].min == before[i].min
            &&& after[i].max == before[i].max
            &&& after[i].area == if near_obstacle(before, i, radius) {
                None
            } else {
                before[i].area
            }
        }
}

/// A tile's walkable surface and its distance field.
pub struct WalkableTile {
    pub tile: OpenTile,
    pub distances: Vec<Option<usize>>,
}

/// The walkable surface of a tile from its solid columns: the linked open
/// spans, eroded by the walkable radius, with each span's distance from the
/// nearest obstacle.
pub fn build_walkable_tile(columns: &Vec<Vec<SolidSpan>>, nav_mesh_settings: &NavMeshSettings) -> (r:
    WalkableTile)
    requires
        columns@.len() == side_with_border(*nav_mesh_settings) * side_with_border(
            *nav_mesh_settings,
        ),
        forall|c: int| 0 <= c < columns@.len() ==> crate::voxels::column_wf(#[trigger] columns@[c]@),
    ensures
        exists|built: Seq<OpenSpan>|
            #[trigger] open_tile_built(columns@, built, r.tile.column_starts@, *nav_mesh_settings) && eroded(
                built,
                r.tile.spans@,
                nav_mesh_settings.walkable_radius as nat,
            ),
        links_in_range(r.tile.spans@),
        r.distances@.len() == r.tile.spans@.len(),
        forall|i: int|
            0 <= i < r.distances@.len() ==> match #[trigger] r.distances@[i] {
                Some(k) => is_distance(r.tile.spans@, i, k as nat),
                None => forall|k: nat| !near_obstacle(r.tile.spans@, i, k),
            },
{
    let mut tile = build_open_heightfield_tile(columns, nav_mesh_settings);
    let ghost built = tile.spans@;
    erode_walkable_area(&mut tile, nav_mesh_settings);
    proof {
        assert(open_tile_built(columns@, built, tile.column_starts@, *nav_mesh_settings));
        assert(eroded(built, tile.spans@, nav_mesh_settings.walkable_radius as nat));
        assert forall|i: int, d: int|
            0 <= i < tile.spans@.len() && 0 <= d < 4 implies match #[trigger] tile.spans@[i].neighbours[d] {
            Some(j) => j < tile.spans@.len(),
            None => true,
        } by {
            assert(tile.spans@[i].neighbours == built[i].neighbours);
            assert(built[i].neighbours[d] == tile.spans@[i].neighbours[d]);
        }
    }
    let distances = calculate_distance_field(&tile);
    let r = WalkableTile { tile, distances };
    proof {
        assert(open_tile_built(columns@, built, r.tile.column_starts@, *nav_mesh_settings) && eroded(
            built,
            r.tile.spans@,
            nav_mesh_settings.walkable_radius as nat,
        ));
    }
    r
}

} // verus!
