use oxidized_navigation::affectors::{DirtyTiles, TileAffectors};
use oxidized_navigation::contour::{
    contour_region, is_border_vertex, pack_contour_flags, FLAG_BORDER_VERTEX,
};
use oxidized_navigation::conversion::{
    affector_area, geometry_source, ColliderShape, GeometrySource, PrimitiveKind,
};
use oxidized_navigation::relations::NavMeshAffectorRelations;
use oxidized_navigation::scheduling::{
    can_generate_new_tiles, plan_tile_rebuilds, GenerationTicker, TileAction,
};
use oxidized_navigation::settings::{get_neighbour_index, NavMeshSettings};
use oxidized_navigation::tiles::{tile_key_of, NavMeshTiles, TileCoord};
use oxidized_navigation::tracking::{remove_navmesh_affector, update_navmesh_affector};

fn tc(x: u32, y: u32) -> TileCoord {
    TileCoord { x, y }
}

fn dirty_list(d: &DirtyTiles) -> Vec<TileCoord> {
    (0..d.len()).map(|i| d.get(i)).collect()
}

fn sorted(mut v: Vec<u64>) -> Vec<u64> {
    v.sort();
    v
}

fn settings() -> NavMeshSettings {
    NavMeshSettings {
        tile_width: 10,
        walkable_height: 4,
        walkable_radius: 2,
        step_height: 1,
        min_region_area: 8,
        merge_region_area: 20,
        max_edge_length: 12,
        max_tile_generation_tasks: Some(2),
    }
}

#[test]
fn tile_keys_are_distinct() {
    assert_eq!(tile_key_of(tc(1, 2)), (1u64 << 32) | 2);
    assert_ne!(tile_key_of(tc(1, 2)), tile_key_of(tc(2, 1)));
}

#[test]
fn newer_build_replaces_older() {
    let mut map: NavMeshTiles<&str> = NavMeshTiles::new();
    assert!(map.complete_build(tc(0, 0), 1, "first"));
    assert!(map.complete_build(tc(0, 0), 2, "second"));
    assert_eq!(map.get_tile(tc(0, 0)), Some(&"second"));
    assert_eq!(map.get_generation(tc(0, 0)), 2);
}

#[test]
fn stale_build_is_dropped() {
    let mut map: NavMeshTiles<&str> = NavMeshTiles::new();
    assert!(map.complete_build(tc(3, 4), 5, "newer"));
    assert!(!map.complete_build(tc(3, 4), 4, "older"));
    assert_eq!(map.get_tile(tc(3, 4)), Some(&"newer"));
    assert_eq!(map.get_generation(tc(3, 4)), 5);
}

#[test]
fn out_of_order_completions_keep_highest_stamp() {
    let orders: [[u64; 3]; 6] = [[1, 2, 3], [1, 3, 2], [2, 1, 3], [2, 3, 1], [3, 1, 2], [3, 2, 1]];
    for order in orders.iter() {
        let mut map: NavMeshTiles<u64> = NavMeshTiles::new();
        let mut last = 0;
        for g in order.iter() {
            map.complete_build(tc(7, 7), *g, *g * 100);
            assert!(map.get_generation(tc(7, 7)) >= last);
            last = map.get_generation(tc(7, 7));
        }
        assert_eq!(map.get_generation(tc(7, 7)), 3);
        assert_eq!(map.get_tile(tc(7, 7)), Some(&300));
    }
}

#[test]
fn removal_then_equal_or_lower_removal_does_not_resurrect() {
    let mut map: NavMeshTiles<&str> = NavMeshTiles::new();
    map.complete_build(tc(1, 1), 1, "tile");
    assert!(map.complete_removal(tc(1, 1), 4));
    assert_eq!(map.get_tile(tc(1, 1)), None);
    assert!(map.complete_removal(tc(1, 1), 4));
    assert!(!map.complete_removal(tc(1, 1), 3));
    assert_eq!(map.get_tile(tc(1, 1)), None);
    assert_eq!(map.get_generation(tc(1, 1)), 4);
    assert!(!map.complete_build(tc(1, 1), 2, "stale"));
    assert_eq!(map.get_tile(tc(1, 1)), None);
}

#[test]
fn completion_leaves_other_tiles_alone() {
    let mut map: NavMeshTiles<&str> = NavMeshTiles::new();
    map.complete_build(tc(0, 1), 1, "a");
    map.complete_build(tc(1, 0), 2, "b");
    map.complete_removal(tc(0, 1), 3);
    assert_eq!(map.get_tile(tc(1, 0)), Some(&"b"));
    assert_eq!(map.get_generation(tc(1, 0)), 2);
    assert_eq!(map.get_tile(tc(0, 1)), None);
}

#[test]
fn dirty_tiles_keep_order_without_repeats() {
    let mut d = DirtyTiles::new();
    assert!(d.is_empty());
    d.insert(tc(1, 0));
    d.insert(tc(0, 0));
    d.insert(tc(1, 0));
    assert_eq!(dirty_list(&d), vec![tc(1, 0), tc(0, 0)]);
    assert!(d.contains(tc(0, 0)));
    assert!(!d.contains(tc(2, 2)));
}

#[test]
fn affector_sets_insert_and_remove() {
    let mut a = TileAffectors::new();
    a.insert(tc(0, 0), 5);
    a.insert(tc(0, 0), 5);
    a.insert(tc(0, 0), 9);
    assert_eq!(sorted(a.get(tc(0, 0))), vec![5, 9]);
    a.remove(tc(0, 0), 5);
    assert_eq!(a.get(tc(0, 0)), vec![9]);
    a.remove(tc(4, 4), 9);
    assert!(a.get(tc(4, 4)).is_empty());
}

#[test]
fn update_records_entity_in_rectangle() {
    let mut a = TileAffectors::new();
    let mut r = NavMeshAffectorRelations::new();
    let mut d = DirtyTiles::new();
    update_navmesh_affector(&mut a, &mut r, &mut d, 42, tc(1, 2), tc(2, 3));
    let mut tiles = r.get_tiles(42);
    tiles.sort();
    assert_eq!(tiles, vec![(1, 2), (1, 3), (2, 2), (2, 3)]);
    for (x, y) in tiles.iter() {
        assert_eq!(a.get(tc(*x, *y)), vec![42]);
    }
    assert!(a.get(tc(0, 0)).is_empty());
    let mut dirty = dirty_list(&d);
    dirty.sort_by_key(|c| (c.x, c.y));
    assert_eq!(dirty, vec![tc(1, 2), tc(1, 3), tc(2, 2), tc(2, 3)]);
}

#[test]
fn moving_entity_leaves_old_tiles() {
    let mut a = TileAffectors::new();
    let mut r = NavMeshAffectorRelations::new();
    let mut d = DirtyTiles::new();
    update_navmesh_affector(&mut a, &mut r, &mut d, 7, tc(0, 0), tc(1, 0));
    update_navmesh_affector(&mut a, &mut r, &mut d, 8, tc(0, 0), tc(0, 0));
    let jobs = plan_tile_rebuilds(&mut d, &mut GenerationTicker(0), &a, None, 0);
    assert_eq!(jobs.len(), 2);
    assert!(d.is_empty());
    update_navmesh_affector(&mut a, &mut r, &mut d, 7, tc(1, 0), tc(2, 0));
    assert_eq!(a.get(tc(0, 0)), vec![8]);
    assert_eq!(a.get(tc(1, 0)), vec![7]);
    assert_eq!(a.get(tc(2, 0)), vec![7]);
    let mut tiles = r.get_tiles(7);
    tiles.sort();
    assert_eq!(tiles, vec![(1, 0), (2, 0)]);
    let mut dirty = dirty_list(&d);
    dirty.sort_by_key(|c| (c.x, c.y));
    assert_eq!(dirty, vec![tc(0, 0), tc(1, 0), tc(2, 0)]);
}

#[test]
fn empty_rectangle_records_nothing() {
    let mut a = TileAffectors::new();
    let mut r = NavMeshAffectorRelations::new();
    let mut d = DirtyTiles::new();
    update_navmesh_affector(&mut a, &mut r, &mut d, 1, tc(3, 3), tc(2, 3));
    assert!(r.get_tiles(1).is_empty());
    assert!(d.is_empty());
}

#[test]
fn removed_affector_marks_its_tiles_dirty() {
    let mut a = TileAffectors::new();
    let mut r = NavMeshAffectorRelations::new();
    let mut d = DirtyTiles::new();
    update_navmesh_affector(&mut a, &mut r, &mut d, 3, tc(5, 5), tc(5, 6));
    update_navmesh_affector(&mut a, &mut r, &mut d, 4, tc(5, 6), tc(5, 6));
    let mut ticker = GenerationTicker(0);
    plan_tile_rebuilds(&mut d, &mut ticker, &a, None, 0);
    assert!(d.is_empty());
    remove_navmesh_affector(&mut a, &mut r, &mut d, 3);
    assert!(r.get_tiles(3).is_empty());
    assert_eq!(r.get_tiles(4), vec![(5, 6)]);
    assert!(a.get(tc(5, 5)).is_empty());
    assert_eq!(a.get(tc(5, 6)), vec![4]);
    let mut dirty = dirty_list(&d);
    dirty.sort_by_key(|c| (c.x, c.y));
    assert_eq!(dirty, vec![tc(5, 5), tc(5, 6)]);
    remove_navmesh_affector(&mut a, &mut r, &mut d, 3);
    assert_eq!(d.len(), 2);
    let jobs = plan_tile_rebuilds(&mut d, &mut ticker, &a, None, 0);
    assert!(matches!(jobs[0].action, TileAction::Remove));
    assert!(matches!(jobs[1].action, TileAction::Build(_)));
}

#[test]
fn can_generate_respects_cap_and_dirt() {
    let mut d = DirtyTiles::new();
    assert!(!can_generate_new_tiles(None, 0, &d));
    d.insert(tc(0, 0));
    assert!(can_generate_new_tiles(None, 1000, &d));
    assert!(can_generate_new_tiles(Some(2), 1, &d));
    assert!(!can_generate_new_tiles(Some(2), 2, &d));
    assert!(!can_generate_new_tiles(Some(0), 0, &d));
}

#[test]
fn plan_stamps_jobs_in_order_within_cap() {
    let mut a = TileAffectors::new();
    a.insert(tc(1, 0), 11);
    a.insert(tc(2, 0), 12);
    a.insert(tc(2, 0), 13);
    let mut d = DirtyTiles::new();
    d.insert(tc(0, 0));
    d.insert(tc(1, 0));
    d.insert(tc(2, 0));
    d.insert(tc(3, 0));
    let mut ticker = GenerationTicker(10);
    let jobs = plan_tile_rebuilds(&mut d, &mut ticker, &a, Some(4), 1);
    assert_eq!(jobs.len(), 3);
    assert_eq!(ticker.0, 13);
    assert_eq!(dirty_list(&d), vec![tc(3, 0)]);
    assert_eq!(jobs[0].coord, tc(0, 0));
    assert_eq!(jobs[0].generation, 11);
    assert!(matches!(jobs[0].action, TileAction::Remove));
    assert_eq!(jobs[1].coord, tc(1, 0));
    assert_eq!(jobs[1].generation, 12);
    match &jobs[1].action {
        TileAction::Build(es) => assert_eq!(es, &vec![11]),
        TileAction::Remove => panic!("expected a build"),
    }
    match &jobs[2].action {
        TileAction::Build(es) => assert_eq!(sorted(es.clone()), vec![12, 13]),
        TileAction::Remove => panic!("expected a build"),
    }
    let rest = plan_tile_rebuilds(&mut d, &mut ticker, &a, None, 0);
    assert_eq!(rest.len(), 1);
    assert_eq!(rest[0].generation, 14);
    assert!(d.is_empty());
}

#[test]
fn tile_with_emptied_affectors_is_removed() {
    let mut a = TileAffectors::new();
    a.insert(tc(0, 0), 1);
    a.remove(tc(0, 0), 1);
    let mut d = DirtyTiles::new();
    d.insert(tc(0, 0));
    let jobs = plan_tile_rebuilds(&mut d, &mut GenerationTicker(0), &a, None, 0);
    assert!(matches!(jobs[0].action, TileAction::Remove));
}

#[test]
fn grid_sides_and_neighbours() {
    let s = settings();
    assert_eq!(s.get_tile_side_with_border(), 14);
    assert_eq!(s.get_border_side(), 2);
    assert_eq!(get_neighbour_index(&s, 20, 0), 19);
    assert_eq!(get_neighbour_index(&s, 20, 1), 34);
    assert_eq!(get_neighbour_index(&s, 20, 2), 21);
    assert_eq!(get_neighbour_index(&s, 20, 3), 6);
}

#[test]
fn contour_flags_pack_and_unpack() {
    let f = pack_contour_flags(0x1234, true);
    assert_eq!(f, 0x11234);
    assert_eq!(contour_region(f), 0x1234);
    assert!(is_border_vertex(f));
    assert!(!is_border_vertex(pack_contour_flags(7, false)));
    assert_eq!(contour_region(FLAG_BORDER_VERTEX | 0xffff), 0xffff);
}

#[test]
fn shapes_map_to_sources() {
    assert_eq!(
        geometry_source(ColliderShape::RoundCuboid),
        Some(GeometrySource::Primitive(PrimitiveKind::Cuboid))
    );
    assert_eq!(geometry_source(ColliderShape::ConvexPolyhedron), Some(GeometrySource::TriangleMesh));
    assert_eq!(geometry_source(ColliderShape::HeightField), Some(GeometrySource::HeightField));
    assert_eq!(geometry_source(ColliderShape::Compound), None);
    assert_eq!(geometry_source(ColliderShape::Segment), None);
}

#[test]
fn affector_area_defaults() {
    assert_eq!(affector_area(None), Some(0));
    assert_eq!(affector_area(Some(None)), None);
    assert_eq!(affector_area(Some(Some(3))), Some(3));
}
