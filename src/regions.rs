//! Filtering of undersized regions: a region with fewer spans than the
//! minimum that does not touch the tile's border is absorbed into its
//! dominant neighbouring region, or discarded when it has none; then small
//! neighbouring regions are merged while they stay below the merge size.
use vstd::prelude::*;

use crate::heightfields::{links_in_range, OpenSpan, OpenTile};

verus! {

/// The number of the first `k` spans labelled `r`.
pub open spec fn count_label(labels: Seq<u16>, r: u16, k: int) -> nat
    decreases k,
{
    if k <= 0 {
        0
    } else {
        count_label(labels, r, k - 1) + if labels[k - 1] == r {
            1nat
        } else {
            0nat
        }
    }
}

/// The number of spans of region `r`.
pub open spec fn region_size(labels: Seq<u16>, r: u16) -> nat {
    count_label(labels, r, labels.len() as int)
}

/// Some span of region `r` lies on the tile's border.
pub open spec fn on_tile_border(labels: Seq<u16>, border: Seq<bool>, r: u16) -> bool {
    exists|i: int| 0 <= i < labels.len() && labels[i] == r && #[trigger] border[i]
}

/// Region `r` may stay: it is large enough or touches the tile's border.
pub open spec fn region_kept(labels: Seq<u16>, border: Seq<bool>, r: u16, min_area: nat) -> bool {
    region_size(labels, r) >= min_area || on_tile_border(labels, border, r)
}

/// No span of region `r` links to a span of another region.
pub open spec fn region_isolated(spans: Seq<OpenSpan>, labels: Seq<u16>, r: u16) -> bool {
    forall|i: int, d: int|
        0 <= i < spans.len() && 0 <= d < 4 && labels[i] == r ==> match #[trigger] spans[i].neighbours[d] {
            Some(j) => labels[j as int] == 0 || labels[j as int] == r,
            None => true,
        }
}

/// Every span that lost its region links only to spans without one: a
/// region is discarded only when none of its spans borders another region.
pub open spec fn discarded_only_isolated(
    spans: Seq<OpenSpan>,
    before: Seq<u16>,
    after: Seq<u16>,
) -> bool {
    forall|i: int, d: int|
        0 <= i < spans.len() && 0 <= d < 4 && before[i] != 0 && after[i] == 0 ==> match #[trigger] spans[i].neighbours[d] {
            Some(j) => after[j as int] == 0,
            None => true,
        }
}

/// The labels after every span of region `r` is given label `s`.
pub open spec fn relabelled(labels: Seq<u16>, r: u16, s: u16) -> Seq<u16> {
    Seq::new(labels.len(), |i: int| if labels[i] == r { s } else { labels[i] })
}

proof fn lemma_count_relabel(labels: Seq<u16>, r: u16, s: u16, q: u16, k: int)
    requires
        0 <= k <= labels.len(),
        r != s,
    ensures
        count_label(relabelled(labels, r, s), q, k) == if q == r {
            0
        } else if q == s {
            count_label(labels, s, k) + count_label(labels, r, k)
        } else {
            count_label(labels, q, k)
        },
    decreases k,
{
    if k > 0 {
        lemma_count_relabel(labels, r, s, q, k - 1);
    }
}

proof fn lemma_count_positive(labels: Seq<u16>, r: u16, k: int, i: int)
    requires
        0 <= i < k <= labels.len(),
        labels[i] == r,
    ensures
        count_label(labels, r, k) > 0,
    decreases k,
{
    if i < k - 1 {
        lemma_count_positive(labels, r, k - 1, i);
    }
}

fn region_size_value(labels: &Vec<u16>, r: u16) -> (c: usize)
    ensures
        c == region_size(labels@, r),
{
    let mut c: usize = 0;
    let mut i: usize = 0;
    while i < labels.len()
        invariant
            0 <= i <= labels@.len(),
            c == count_label(labels@, r, i as int),
            c <= i,
        decreases labels@.len() - i,
    {
        if labels[i] == r {
            c = c + 1;
        }
        i = i + 1;
    }
    c
}

fn touches_border_value(labels: &Vec<u16>, border: &Vec<bool>, r: u16) -> (b: bool)
    requires
        border@.len() == labels@.len(),
    ensures
        b == on_tile_border(labels@, border@, r),
{
    let mut i: usize = 0;
    while i < labels.len()
        invariant
            0 <= i <= labels@.len() == border@.len(),
            forall|j: int| 0 <= j < i ==> !(labels@[j] == r && #[trigger] border@[j]),
        decreases labels@.len() - i,
    {
        if labels[i] == r && border[i] {
            return true;
        }
        i = i + 1;
    }
    false
}

/// The region, other than `r` and "none", that the spans of `r` link to most
/// often (the lowest id among equals); 0 when they link to none.
fn dominant_neighbour(open_tile: &OpenTile, labels: &Vec<u16>, r: u16) -> (s: u16)
    requires
        labels@.len() == open_tile.spans@.len(),
        links_in_range(open_tile.spans@),
    ensures
        s == 0 || (s != r && exists|i: int| 0 <= i < labels@.len() && labels@[i] == s),
        s == 0 ==> region_isolated(open_tile.spans@, labels@, r),
{
    let n = labels.len();
    let mut tally: Vec<usize> = Vec::new();
    let mut t: usize = 0;
    while t < 0x10000
        invariant
            tally@.len() == t,
            t <= 0x10000,
        decreases 0x10000 - t,
    {
        tally.push(0);
        t = t + 1;
    }
    let mut best: u16 = 0;
    let mut best_count: usize = 0;
    let mut i: usize = 0;
    while i < n
        invariant
            0 <= i <= n == labels@.len() == open_tile.spans@.len(),
            links_in_range(open_tile.spans@),
            tally@.len() == 0x10000,
            best == 0 || (best != r && exists|j: int| 0 <= j < n && labels@[j] == best),
            best == 0 ==> forall|ii: int, e: int|
                0 <= ii < i && 0 <= e < 4 && labels@[ii] == r ==> match #[trigger] open_tile.spans@[ii].neighbours[e] {
                    Some(j) => labels@[j as int] == 0 || labels@[j as int] == r,
                    None => true,
                },
        decreases n - i,
    {
        if labels[i] == r {
            let mut d: usize = 0;
            while d < 4
                invariant
                    0 <= d <= 4,
                    0 <= i < n == labels@.len() == open_tile.spans@.len(),
                    links_in_range(open_tile.spans@),
                    tally@.len() == 0x10000,
                    best == 0 || (best != r && exists|j: int| 0 <= j < n && labels@[j] == best),
                    labels@[i as int] == r,
                    best == 0 ==> forall|ii: int, e: int|
                        0 <= ii < i && 0 <= e < 4 && labels@[ii] == r ==> match #[trigger] open_tile.spans@[ii].neighbours[e] {
                            Some(j) => labels@[j as int] == 0 || labels@[j as int] == r,
                            None => true,
                        },
                    best == 0 ==> forall|e: int|
                        0 <= e < d ==> match #[trigger] open_tile.spans@[i as int].neighbours[e] {
                            Some(j) => labels@[j as int] == 0 || labels@[j as int] == r,
                            None => true,
                        },
                decreases 4 - d,
            {
                match open_tile.spans[i].neighbours[d] {
                    Some(j) => {
                        assert(open_tile.spans@[i as int].neighbours[d as int] == Some(j));
                        let s = labels[j];
                        if s != r && s != 0 {
                            let c = tally[s as usize];
                            let c1 = if c < usize::MAX {
                                c + 1
                            } else {
                                c
                            };
                            tally.set(s as usize, c1);
                            if best == 0 || c1 > best_count || (c1 == best_count && s < best) {
                                best = s;
                                best_count = c1;
                            }
                        }
                    },
                    None => {},
                }
                d = d + 1;
            }
        }
        i = i + 1;
    }
    best
}

/// Gives every span of region `r` label `s`.
fn relabel(labels: &mut Vec<u16>, r: u16, s: u16)
    ensures
        final(labels)@ == relabelled(old(labels)@, r, s),
{
    let mut i: usize = 0;
    while i < labels.len()
        invariant
            0 <= i <= labels@.len() == old(labels)@.len(),
            forall|j: int|
                0 <= j < labels@.len() ==> labels@[j] == if j < i && old(labels)@[j] == r {
                    s
                } else {
                    old(labels)@[j]
                },
        decreases labels@.len() - i,
    {
        if labels[i] == r {
            labels.set(i, s);
        }
        i = i + 1;
    }
    assert(labels@ =~= relabelled(old(labels)@, r, s));
}

proof fn lemma_relabel_facts(
    before: Seq<u16>,
    after: Seq<u16>,
    border: Seq<bool>,
    r: u16,
    s: u16,
    min_area: nat,
)
    requires
        after == relabelled(before, r, s),
        border.len() == before.len(),
        r != s,
        !region_kept(before, border, r, min_area),
    ensures
        forall|q: u16|
            region_kept(before, border, q, min_area) ==> region_kept(after, border, q, min_area)
                && region_size(after, q) >= region_size(before, q),
        forall|i: int| 0 <= i < before.len() && before[i] != r ==> after[i] == before[i],
{
    assert forall|q: u16| region_kept(before, border, q, min_area) implies region_kept(
        after,
        border,
        q,
        min_area,
    ) && region_size(after, q) >= region_size(before, q) by {
        lemma_count_relabel(before, r, s, q, before.len() as int);
        if on_tile_border(before, border, q) {
            let i = choose|i: int| 0 <= i < before.len() && before[i] == q && #[trigger] border[i];
            assert(after[i] == q);
        }
    }
}

/// Removes undersized regions: each region (label 0 is "no region") with
/// fewer than `min_region_area` spans and no span on the tile's border
/// (`border[i]` for span `i`) is absorbed into the neighbouring region its
/// spans link to most, or discarded (labelled 0) when it links to none.
/// Afterwards every region left is large enough or touches the border.
pub fn filter_small_regions(
    open_tile: &OpenTile,
    labels: &mut Vec<u16>,
    border: &Vec<bool>,
    min_region_area: usize,
)
    requires
        old(labels)@.len() == open_tile.spans@.len(),
        border@.len() == old(labels)@.len(),
        links_in_range(open_tile.spans@),
    ensures
        final(labels)@.len() == old(labels)@.len(),
        forall|r: u16|
            r != 0 && region_size(final(labels)@, r) > 0 ==> region_kept(
                final(labels)@,
                border@,
                r,
                min_region_area as nat,
            ),
        forall|i: int|
            0 <= i < old(labels)@.len() && old(labels)@[i] == 0 ==> final(labels)@[i] == 0,
        forall|i: int|
            0 <= i < old(labels)@.len() && region_kept(
                old(labels)@,
                border@,
                old(labels)@[i],
                min_region_area as nat,
            ) ==> #[trigger] final(labels)@[i] == old(labels)@[i],
        discarded_only_isolated(open_tile.spans@, old(labels)@, final(labels)@),
{
    let mut r: u32 = 1;
    while r < 0x10000
        invariant
            1 <= r <= 0x10000,
            labels@.len() == old(labels)@.len() == open_tile.spans@.len() == border@.len(),
            links_in_range(open_tile.spans@),
            forall|q: u16|
                1 <= q < r && region_size(labels@, q) > 0 ==> region_kept(
                    labels@,
                    border@,
                    q,
                    min_region_area as nat,
                ),
            forall|i: int|
                0 <= i < old(labels)@.len() && old(labels)@[i] == 0 ==> labels@[i] == 0,
            forall|i: int|
                0 <= i < old(labels)@.len() && region_kept(
                    old(labels)@,
                    border@,
                    old(labels)@[i],
                    min_region_area as nat,
                ) ==> #[trigger] labels@[i] == old(labels)@[i],
            forall|q: u16|
                region_kept(old(labels)@, border@, q, min_region_area as nat) ==> region_kept(
                    labels@,
                    border@,
                    q,
                    min_region_area as nat,
                ) && region_size(labels@, q) >= region_size(old(labels)@, q),
            forall|i: int|
                0 <= i < labels@.len() && labels@[i] != old(labels)@[i] ==> old(labels)@[i] < r,
            discarded_only_isolated(open_tile.spans@, old(labels)@, labels@),
        decreases 0x10000 - r,
    {
        let region = r as u16;
        let size = region_size_value(labels, region);
        if size > 0 && size < min_region_area && !touches_border_value(labels, border, region) {
            let s = dominant_neighbour(open_tile, labels, region);
            let ghost before = labels@;
            relabel(labels, region, s);
            proof {
                assert forall|q: u16|
                    1 <= q < r + 1 && region_size(labels@, q) > 0 implies region_kept(
                    labels@,
                    border@,
                    q,
                    min_region_area as nat,
                ) by {
                    lemma_count_relabel(before, region, s, q, before.len() as int);
                    assert(region != s);
                    if q == region {
                        assert(region_size(labels@, q) == 0);
                    } else if q != s {
                        assert(q < region);
                        assert(region_size(labels@, q) == region_size(before, q));
                        assert(region_kept(before, border@, q, min_region_area as nat));
                        if on_tile_border(before, border@, q) {
                            let i = choose|i: int|
                                0 <= i < before.len() && before[i] == q && #[trigger] border@[i];
                            assert(labels@[i] == q);
                        }
                    } else {
                        assert(s != 0);
                        assert(s < region);
                        let w = choose|w: int| 0 <= w < before.len() && before[w] == s;
                        lemma_count_positive(before, s, before.len() as int, w);
                        assert(region_kept(before, border@, s, min_region_area as nat));
                        if on_tile_border(before, border@, s) {
                            let i = choose|i: int|
                                0 <= i < before.len() && before[i] == s && #[trigger] border@[i];
                            assert(labels@[i] == s);
                        }
                    }
                }
                lemma_relabel_facts(before, labels@, border@, region, s, min_region_area as nat);
                assert forall|i: int, d: int|
                    0 <= i < open_tile.spans@.len() && 0 <= d < 4 && old(labels)@[i] != 0
                        && labels@[i] == 0 implies match #[trigger] open_tile.spans@[i].neighbours[d] {
                    Some(j) => labels@[j as int] == 0,
                    None => true,
                } by {
                    match open_tile.spans@[i].neighbours[d] {
                        Some(j) => {
                            assert(j < open_tile.spans@.len());
                            if before[i] == 0 {
                                assert(before[j as int] == 0);
                            } else {
                                assert(before[i] == region && s == 0);
                            }
                        },
                        None => {},
                    }
                }
            }
        }
        r = r + 1;
    }
}

/// Merges small regions into neighbours: each region, taken in id order,
/// joins the neighbouring region its spans link to most when the two
/// together stay below `merge_region_area` spans. Two regions that are each
/// at or above that size are never combined, no span gains or loses a
/// region, and every region at or above that size afterwards is exactly as
/// large as it was before.
pub fn merge_small_regions(open_tile: &OpenTile, labels: &mut Vec<u16>, merge_region_area: usize)
    requires
        old(labels)@.len() == open_tile.spans@.len(),
        links_in_range(open_tile.spans@),
    ensures
        final(labels)@.len() == old(labels)@.len(),
        forall|i: int|
            0 <= i < old(labels)@.len() ==> (#[trigger] final(labels)@[i] == 0) == (old(labels)@[i]
                == 0),
        forall|i: int|
            0 <= i < old(labels)@.len() && region_size(old(labels)@, old(labels)@[i])
                >= merge_region_area ==> #[trigger] final(labels)@[i] == old(labels)@[i],
        forall|q: u16|
            q != 0 && region_size(final(labels)@, q) >= merge_region_area ==> region_size(
                final(labels)@,
                q,
            ) == region_size(old(labels)@, q),
{
    let mut r: u32 = 1;
    while r < 0x10000
        invariant
            1 <= r <= 0x10000,
            labels@.len() == old(labels)@.len() == open_tile.spans@.len(),
            links_in_range(open_tile.spans@),
            forall|i: int|
                0 <= i < old(labels)@.len() ==> (#[trigger] labels@[i] == 0) == (old(labels)@[i]
                    == 0),
            forall|i: int|
                0 <= i < old(labels)@.len() && region_size(old(labels)@, old(labels)@[i])
                    >= merge_region_area ==> #[trigger] labels@[i] == old(labels)@[i],
            forall|q: u16|
                region_size(labels@, q) >= merge_region_area ==> region_size(labels@, q)
                    == region_size(old(labels)@, q),
            forall|q: u16|
                region_size(old(labels)@, q) >= merge_region_area ==> region_size(labels@, q)
                    == region_size(old(labels)@, q),
        decreases 0x10000 - r,
    {
        let region = r as u16;
        let size = region_size_value(labels, region);
        if size > 0 && size < merge_region_area {
            let s = dominant_neighbour(open_tile, labels, region);
            if s != 0 {
                let other = region_size_value(labels, s);
                if other < merge_region_area && size < merge_region_area - other {
                    let ghost before = labels@;
                    relabel(labels, region, s);
                    proof {
                        assert forall|q: u16|
                            region_size(labels@, q) >= merge_region_area implies region_size(
                            labels@,
                            q,
                        ) == region_size(old(labels)@, q) by {
                            lemma_count_relabel(before, region, s, q, before.len() as int);
                        }
                        assert forall|q: u16|
                            region_size(old(labels)@, q) >= merge_region_area implies region_size(
                            labels@,
                            q,
                        ) == region_size(old(labels)@, q) by {
                            lemma_count_relabel(before, region, s, q, before.len() as int);
                        }
                        assert forall|i: int|
                            0 <= i < old(labels)@.len() && region_size(
                                old(labels)@,
                                old(labels)@[i],
                            ) >= merge_region_area implies #[trigger] labels@[i] == old(labels)@[i] by {
                            let q = old(labels)@[i];
                            assert(before[i] == q);
                            if q == region {
                                assert(region_size(before, region) == region_size(old(labels)@, region));
                            }
                        }
                    }
                }
            }
        }
        r = r + 1;
    }
}

} // verus!
