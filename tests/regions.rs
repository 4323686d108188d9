use oxidized_navigation::heightfields::{OpenSpan, OpenTile};
use oxidized_navigation::regions::{filter_small_regions, merge_small_regions};

fn linked_grid(w: usize, h: usize) -> OpenTile {
    let mut spans = Vec::new();
    for z in 0..h {
        for x in 0..w {
            let i = z * w + x;
            let neighbours = [
                if x > 0 { Some(i - 1) } else { None },
                if z + 1 < h { Some(i + w) } else { None },
                if x + 1 < w { Some(i + 1) } else { None },
                if z > 0 { Some(i - w) } else { None },
            ];
            spans.push(OpenSpan { min: 0, max: None, area: Some(0), neighbours });
        }
    }
    OpenTile { spans, column_starts: (0..=w * h).collect() }
}

fn ring(w: usize, h: usize) -> Vec<bool> {
    let mut out = Vec::new();
    for z in 0..h {
        for x in 0..w {
            out.push(x == 0 || z == 0 || x + 1 == w || z + 1 == h);
        }
    }
    out
}

#[test]
fn small_region_joins_its_dominant_neighbour() {
    let tile = linked_grid(5, 5);
    let mut labels = vec![
        1, 1, 1, 3, 3, //
        1, 1, 1, 3, 3, //
        1, 1, 2, 3, 3, //
        1, 1, 3, 3, 3, //
        1, 1, 3, 3, 3,
    ];
    filter_small_regions(&tile, &mut labels, &ring(5, 5), 3);
    assert_eq!(labels[12], 1);
    assert_eq!(labels.iter().filter(|&&l| l == 2).count(), 0);
    assert_eq!(labels.iter().filter(|&&l| l == 1).count(), 13);
}

#[test]
fn isolated_small_region_is_discarded() {
    let tile = linked_grid(5, 5);
    let mut labels = vec![0; 25];
    labels[12] = 4;
    labels[13] = 4;
    filter_small_regions(&tile, &mut labels, &ring(5, 5), 3);
    assert_eq!(labels, vec![0; 25]);
}

#[test]
fn small_region_on_the_border_stays() {
    let tile = linked_grid(5, 5);
    let mut labels = vec![0; 25];
    labels[0] = 7;
    labels[12] = 5;
    filter_small_regions(&tile, &mut labels, &ring(5, 5), 3);
    assert_eq!(labels[0], 7);
    assert_eq!(labels[12], 0);
}

#[test]
fn large_regions_are_untouched() {
    let tile = linked_grid(4, 1);
    let mut labels = vec![1, 1, 2, 2];
    filter_small_regions(&tile, &mut labels, &vec![false; 4], 2);
    assert_eq!(labels, vec![1, 1, 2, 2]);
}

#[test]
fn chain_of_small_regions_ends_large_enough() {
    // Regions 1, 2 and 3 each have two spans; none touches the border.
    let tile = linked_grid(6, 1);
    let mut labels = vec![1, 1, 2, 2, 3, 3];
    filter_small_regions(&tile, &mut labels, &vec![false; 6], 4);
    for r in 1..=3u16 {
        let size = labels.iter().filter(|&&l| l == r).count();
        assert!(size == 0 || size >= 4);
    }
    assert!(labels.iter().all(|&l| l != 0));
}

#[test]
fn neighbour_of_discarded_region_is_unlabelled() {
    // Region 6 touches region 1, so it is absorbed rather than discarded.
    let tile = linked_grid(5, 1);
    let mut labels = vec![1, 1, 1, 6, 0];
    filter_small_regions(&tile, &mut labels, &vec![false; 5], 3);
    assert_eq!(labels, vec![1, 1, 1, 1, 0]);
}

#[test]
fn merge_joins_small_neighbours_below_cap() {
    let tile = linked_grid(6, 1);
    let mut labels = vec![1, 1, 2, 3, 3, 3];
    merge_small_regions(&tile, &mut labels, 4);
    // 1 and 2 together have three spans, below the cap; 3 is already at
    // three, and joining 2 would reach four.
    assert_eq!(labels, vec![2, 2, 2, 3, 3, 3]);
}

#[test]
fn merge_never_touches_large_regions() {
    let tile = linked_grid(6, 1);
    let mut labels = vec![1, 1, 1, 2, 2, 2];
    merge_small_regions(&tile, &mut labels, 3);
    assert_eq!(labels, vec![1, 1, 1, 2, 2, 2]);
}

#[test]
fn merge_keeps_unlabelled_spans() {
    let tile = linked_grid(4, 1);
    let mut labels = vec![0, 5, 0, 7];
    merge_small_regions(&tile, &mut labels, 10);
    assert_eq!(labels[0], 0);
    assert_eq!(labels[2], 0);
    assert_ne!(labels[1], 0);
    assert_ne!(labels[3], 0);
}
