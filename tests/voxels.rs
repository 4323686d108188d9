use oxidized_navigation::heightfields::{
    build_open_heightfield_tile, build_walkable_tile, calculate_distance_field, erode_walkable_area, open_spans_of_column,
    OpenSpan, OpenTile,
};
use oxidized_navigation::settings::NavMeshSettings;
use oxidized_navigation::voxels::{add_span, SolidSpan};

fn solid(min: u16, max: u16, area: Option<u16>) -> SolidSpan {
    SolidSpan { min, max, area }
}

fn settings_with_radius(walkable_radius: u16) -> NavMeshSettings {
    NavMeshSettings {
        tile_width: 5,
        walkable_height: 2,
        walkable_radius,
        step_height: 1,
        min_region_area: 1,
        merge_region_area: 1,
        max_edge_length: 10,
        max_tile_generation_tasks: None,
    }
}

/// A `w` by `h` grid of single walkable spans, linked to every neighbour
/// inside the grid; spans at the grid's edge have missing links.
fn flat_grid(w: usize, h: usize) -> OpenTile {
    let mut spans = Vec::new();
    for z in 0..h {
        for x in 0..w {
            let i = z * w + x;
            let neighbours = [
                if x > 0 { Some(i - 1) } else { None },
                if z + 1 < h { Some(i + w) } else { None },
                if x + 1 < w { Some(i + 1) } else { None },
                if z > 0 { Some(i - w) } else { None },
            ];
            spans.push(OpenSpan { min: 0, max: None, area: Some(1), neighbours });
        }
    }
    OpenTile { spans, column_starts: (0..=w * h).collect() }
}

fn walkable_map(tile: &OpenTile, w: usize) -> Vec<String> {
    tile.spans
        .chunks(w)
        .map(|row| row.iter().map(|s| if s.area.is_some() { '#' } else { '.' }).collect())
        .collect()
}

#[test]
fn spans_far_apart_stay_separate() {
    let mut col = Vec::new();
    add_span(&mut col, solid(10, 12, Some(1)));
    add_span(&mut col, solid(0, 3, None));
    add_span(&mut col, solid(20, 25, Some(2)));
    assert_eq!(col, vec![solid(0, 3, None), solid(10, 12, Some(1)), solid(20, 25, Some(2))]);
}

#[test]
fn touching_spans_merge_with_higher_area() {
    let mut col = vec![solid(0, 3, Some(1)), solid(10, 12, Some(4)), solid(20, 25, None)];
    add_span(&mut col, solid(4, 9, Some(2)));
    assert_eq!(col, vec![solid(0, 12, Some(4)), solid(20, 25, None)]);
}

#[test]
fn overlapping_span_swallows_column() {
    let mut col = vec![solid(2, 3, None), solid(6, 7, Some(3))];
    add_span(&mut col, solid(0, 100, Some(1)));
    assert_eq!(col, vec![solid(0, 100, Some(3))]);
}

#[test]
fn span_at_the_top_of_the_range() {
    let mut col = vec![solid(0, 1, None)];
    add_span(&mut col, solid(u16::MAX - 1, u16::MAX, Some(0)));
    assert_eq!(col, vec![solid(0, 1, None), solid(u16::MAX - 1, u16::MAX, Some(0))]);
    add_span(&mut col, solid(2, u16::MAX - 2, None));
    assert_eq!(col, vec![solid(0, u16::MAX, Some(0))]);
}

#[test]
fn open_spans_need_walkable_height() {
    let col = vec![solid(0, 3, Some(1)), solid(5, 8, Some(2)), solid(12, 14, None)];
    let open = open_spans_of_column(&col, 3);
    assert_eq!(open.len(), 2);
    assert_eq!((open[0].min, open[0].max, open[0].area), (8, Some(12), Some(2)));
    assert_eq!((open[1].min, open[1].max, open[1].area), (14, None, None));
    assert_eq!(open[0].neighbours, [None; 4]);
}

#[test]
fn empty_column_has_no_open_spans() {
    assert!(open_spans_of_column(&Vec::new(), 1).is_empty());
}

#[test]
fn erosion_pulls_back_from_grid_edge() {
    let mut tile = flat_grid(5, 5);
    erode_walkable_area(&mut tile, &settings_with_radius(1));
    assert_eq!(walkable_map(&tile, 5), vec![".....", ".###.", ".###.", ".###.", "....."]);
    let mut tile = flat_grid(5, 5);
    erode_walkable_area(&mut tile, &settings_with_radius(2));
    assert_eq!(walkable_map(&tile, 5), vec![".....", ".....", "..#..", ".....", "....."]);
}

#[test]
fn erosion_around_obstacle() {
    let mut tile = flat_grid(7, 7);
    // Link the edge spans to themselves so only the obstacle erodes.
    for i in 0..tile.spans.len() {
        for d in 0..4 {
            if tile.spans[i].neighbours[d].is_none() {
                tile.spans[i].neighbours[d] = Some(i);
            }
        }
    }
    tile.spans[3 * 7 + 3].area = None;
    erode_walkable_area(&mut tile, &settings_with_radius(1));
    assert_eq!(
        walkable_map(&tile, 7),
        vec!["#######", "#######", "###.###", "##...##", "###.###", "#######", "#######"]
    );
}

#[test]
fn zero_radius_keeps_areas() {
    let mut tile = flat_grid(3, 3);
    tile.spans[4].area = Some(7);
    erode_walkable_area(&mut tile, &settings_with_radius(0));
    assert_eq!(walkable_map(&tile, 3), vec!["###", "###", "###"]);
    assert_eq!(tile.spans[4].area, Some(7));
}

fn grid_settings() -> NavMeshSettings {
    NavMeshSettings {
        tile_width: 1,
        walkable_height: 2,
        walkable_radius: 1,
        step_height: 1,
        min_region_area: 1,
        merge_region_area: 1,
        max_edge_length: 10,
        max_tile_generation_tasks: None,
    }
}

#[test]
fn open_tile_links_neighbouring_floors() {
    // A 3 by 3 grid; floors at height 3 except a step up to 4 at cell 2 and
    // a wall up to 9 at cell 6.
    let mut columns = Vec::new();
    for c in 0..9 {
        let top = match c {
            2 => 4,
            6 => 9,
            _ => 3,
        };
        columns.push(vec![solid(0, top, Some(1))]);
    }
    let tile = build_open_heightfield_tile(&columns, &grid_settings());
    assert_eq!(tile.column_starts, (0..=9).collect::<Vec<usize>>());
    assert_eq!(tile.spans.len(), 9);
    // The middle cell links to all four neighbours.
    assert_eq!(tile.spans[4].neighbours, [Some(3), Some(7), Some(5), Some(1)]);
    // Cell 1 steps up by one to cell 2.
    assert_eq!(tile.spans[1].neighbours[2], Some(2));
    // Cell 3 cannot climb the wall at 6.
    assert_eq!(tile.spans[3].neighbours[1], None);
    // Grid edges have no links.
    assert_eq!(tile.spans[0].neighbours, [None, Some(3), Some(1), None]);
}

#[test]
fn shared_headroom_decides_link() {
    // Cell 1 has a second solid span above its floor; the gap below it is
    // just tall enough, so cell 1 holds two open spans and cell 0 links to
    // the lower one.
    let mut columns = Vec::new();
    for c in 0..9 {
        if c == 1 {
            columns.push(vec![solid(0, 3, Some(1)), solid(5, 6, None)]);
        } else {
            columns.push(vec![solid(0, 3, Some(1))]);
        }
    }
    let tile = build_open_heightfield_tile(&columns, &grid_settings());
    assert_eq!(tile.column_starts[1], 1);
    assert_eq!(tile.column_starts[2], 3);
    assert_eq!((tile.spans[1].min, tile.spans[1].max), (3, Some(5)));
    assert_eq!((tile.spans[2].min, tile.spans[2].max), (6, None));
    assert_eq!(tile.spans[0].neighbours[2], Some(1));
}

#[test]
fn low_ceiling_blocks_link() {
    // The roof of cell 1 sits one above its floor: no open span stands
    // there, and the span on the roof is too high to step onto.
    let mut columns = Vec::new();
    for c in 0..9 {
        if c == 1 {
            columns.push(vec![solid(0, 3, Some(1)), solid(4, 6, None)]);
        } else {
            columns.push(vec![solid(0, 3, Some(1))]);
        }
    }
    let tile = build_open_heightfield_tile(&columns, &grid_settings());
    assert_eq!(tile.column_starts[2] - tile.column_starts[1], 1);
    assert_eq!(tile.spans[1].min, 6);
    assert_eq!(tile.spans[0].neighbours[2], None);
}

#[test]
fn build_then_erode_pulls_back_from_edges() {
    let mut columns = Vec::new();
    for _ in 0..9 {
        columns.push(vec![solid(0, 3, Some(1))]);
    }
    let mut tile = build_open_heightfield_tile(&columns, &grid_settings());
    erode_walkable_area(&mut tile, &grid_settings());
    assert_eq!(walkable_map(&tile, 3), vec!["...", ".#.", "..."]);
}

#[test]
fn distance_field_counts_steps_from_edge() {
    let tile = flat_grid(5, 5);
    let dist = calculate_distance_field(&tile);
    let rows: Vec<Vec<Option<usize>>> = dist.chunks(5).map(|r| r.to_vec()).collect();
    let s = Some;
    assert_eq!(rows[0], vec![s(1), s(1), s(1), s(1), s(1)]);
    assert_eq!(rows[1], vec![s(1), s(2), s(2), s(2), s(1)]);
    assert_eq!(rows[2], vec![s(1), s(2), s(3), s(2), s(1)]);
}

#[test]
fn distance_field_zero_on_obstacles_and_none_when_unreachable() {
    let mut tile = flat_grid(3, 1);
    for i in 0..3 {
        for d in 0..4 {
            if tile.spans[i].neighbours[d].is_none() {
                tile.spans[i].neighbours[d] = Some(i);
            }
        }
    }
    assert_eq!(calculate_distance_field(&tile), vec![None, None, None]);
    tile.spans[0].area = None;
    assert_eq!(calculate_distance_field(&tile), vec![Some(0), Some(1), Some(2)]);
}

#[test]
fn walkable_tile_is_eroded_with_distances() {
    let mut columns = Vec::new();
    for _ in 0..9 {
        columns.push(vec![solid(0, 3, Some(1))]);
    }
    let walkable = build_walkable_tile(&columns, &grid_settings());
    assert_eq!(walkable_map(&walkable.tile, 3), vec!["...", ".#.", "..."]);
    assert_eq!(walkable.distances[4], Some(1));
    assert_eq!(walkable.distances[0], Some(0));
}
