//! Keeping the affector bookkeeping in step with moved, changed and removed
//! entities, marking every tile whose geometry changed as dirty.
use vstd::prelude::*;

use crate::affectors::{in_tile_rect, lemma_push_contains, DirtyTiles, TileAffectors};
use crate::relations::{
    relation_tiles, tile_list_get, tile_list_len, tile_list_new, tile_list_push,
    NavMeshAffectorRelations, TileList,
};
use crate::tiles::TileCoord;

verus! {

pub open spec fn coord_pair(c: TileCoord) -> (u32, u32) {
    (c.x, c.y)
}

/// `e` was recorded in tile `c`.
pub open spec fn is_related(relations: NavMeshAffectorRelations, e: u64, c: TileCoord) -> bool {
    relations.tiles_of(e).contains(coord_pair(c))
}

/// The number of tiles in the closed rectangle spanned by `min` and `max`.
pub open spec fn rect_tile_count(min: TileCoord, max: TileCoord) -> int {
    if min.x <= max.x && min.y <= max.y {
        (max.x - min.x + 1) * (max.y - min.y + 1)
    } else {
        0
    }
}

proof fn lemma_take_push<A>(s: Seq<A>, i: int)
    requires
        0 <= i < s.len(),
    ensures
        forall|u: A| #[trigger] s.take(i + 1).contains(u) <==> s.take(i).contains(u) || u == s[i],
{
    assert(s.take(i + 1) =~= s.take(i).push(s[i]));
    lemma_push_contains(s.take(i), s[i]);
}

/// Drops `e` from the tiles of `list` that lie outside the rectangle, and
/// marks those tiles dirty.
fn detach_outside(
    tile_affectors: &mut TileAffectors,
    dirty: &mut DirtyTiles,
    e: u64,
    list: &TileList,
    min_tile: TileCoord,
    max_tile: TileCoord,
)
    requires
        old(tile_affectors).wf(),
        old(dirty).wf(),
    ensures
        final(tile_affectors).wf(),
        final(dirty).wf(),
        forall|c: TileCoord| #[trigger]
            final(tile_affectors).affectors(c) == if !in_tile_rect(c, min_tile, max_tile)
                && relation_tiles(*list).contains(coord_pair(c)) {
                old(tile_affectors).affectors(c).remove(e)
            } else {
                old(tile_affectors).affectors(c)
            },
        final(dirty)@.to_set() == old(dirty)@.to_set().union(
            Set::new(
                |c: TileCoord|
                    !in_tile_rect(c, min_tile, max_tile) && relation_tiles(*list).contains(
                        coord_pair(c),
                    ),
            ),
        ),
{
    let ghost tiles = relation_tiles(*list);
    let n = tile_list_len(list);
    let mut i: usize = 0;
    while i < n
        invariant
            n == tiles.len(),
            tiles == relation_tiles(*list),
            0 <= i <= n,
            tile_affectors.wf(),
            dirty.wf(),
            forall|c: TileCoord| #[trigger]
                tile_affectors.affectors(c) == if !in_tile_rect(c, min_tile, max_tile)
                    && tiles.take(i as int).contains(coord_pair(c)) {
                    old(tile_affectors).affectors(c).remove(e)
                } else {
                    old(tile_affectors).affectors(c)
                },
            dirty@.to_set() == old(dirty)@.to_set().union(
                Set::new(
                    |c: TileCoord|
                        !in_tile_rect(c, min_tile, max_tile) && tiles.take(i as int).contains(
                            coord_pair(c),
                        ),
                ),
            ),
        decreases n - i,
    {
        let t = tile_list_get(list, i);
        let c = TileCoord { x: t.0, y: t.1 };
        proof {
            lemma_take_push(tiles, i as int);
        }
        if !crate::affectors::tile_in_rect(c, min_tile, max_tile) {
            tile_affectors.remove(c, e);
            dirty.insert(c);
        }
        i = i + 1;
        assert forall|o: TileCoord| #[trigger]
            tile_affectors.affectors(o) == if !in_tile_rect(o, min_tile, max_tile)
                && tiles.take(i as int).contains(coord_pair(o)) {
                old(tile_affectors).affectors(o).remove(e)
            } else {
                old(tile_affectors).affectors(o)
            } by {
            assert(tiles.take(i as int).contains(coord_pair(o)) <==> tiles.take(i - 1).contains(
                coord_pair(o),
            ) || coord_pair(o) == t);
            if coord_pair(o) == t {
                assert(o == c);
                assert(old(tile_affectors).affectors(o).remove(e).remove(e)
                    =~= old(tile_affectors).affectors(o).remove(e));
            }
        }
        assert(dirty@.to_set() =~= old(dirty)@.to_set().union(
            Set::new(
                |c: TileCoord|
                    !in_tile_rect(c, min_tile, max_tile) && tiles.take(i as int).contains(
                        coord_pair(c),
                    ),
            ),
        )) by {
            assert forall|o: TileCoord|
                tiles.take(i as int).contains(coord_pair(o)) <==> tiles.take(i - 1).contains(
                    coord_pair(o),
                ) || coord_pair(o) == t by {}
            assert forall|o: TileCoord| coord_pair(o) == t implies o == c by {}
        }
    }
    assert(tiles.take(n as int) =~= tiles);
}

/// Tiles of the rectangle up to column `x`, row `y` (exclusive), in column order.
pub open spec fn rect_done(c: TileCoord, min: TileCoord, max: TileCoord, x: int, y: int) -> bool {
    in_tile_rect(c, min, max) && (c.x < x || (c.x == x && c.y < y))
}

/// Records `e` in every tile of the rectangle, marks them dirty, and returns
/// the list of those tiles.
fn attach_rect(
    tile_affectors: &mut TileAffectors,
    dirty: &mut DirtyTiles,
    e: u64,
    min_tile: TileCoord,
    max_tile: TileCoord,
) -> (r: TileList)
    requires
        old(tile_affectors).wf(),
        old(dirty).wf(),
        rect_tile_count(min_tile, max_tile) < usize::MAX,
    ensures
        final(tile_affectors).wf(),
        final(dirty).wf(),
        forall|c: TileCoord| #[trigger]
            final(tile_affectors).affectors(c) == if in_tile_rect(c, min_tile, max_tile) {
                old(tile_affectors).affectors(c).insert(e)
            } else {
                old(tile_affectors).affectors(c)
            },
        final(dirty)@.to_set() == old(dirty)@.to_set().union(
            Set::new(|c: TileCoord| in_tile_rect(c, min_tile, max_tile)),
        ),
        relation_tiles(r).no_duplicates(),
        forall|c: TileCoord| #[trigger]
            relation_tiles(r).contains(coord_pair(c)) <==> in_tile_rect(c, min_tile, max_tile),
{
    let mut list = tile_list_new();
    if min_tile.y > max_tile.y || min_tile.x > max_tile.x {
        assert(old(dirty)@.to_set() =~= old(dirty)@.to_set().union(
            Set::new(|c: TileCoord| in_tile_rect(c, min_tile, max_tile)),
        ));
        return list;
    }
    let ghost h: int = max_tile.y - min_tile.y + 1;
    let mut x: u64 = min_tile.x as u64;
    while x <= max_tile.x as u64
        invariant
            min_tile.x <= x <= max_tile.x + 1,
            min_tile.y <= max_tile.y,
            h == max_tile.y - min_tile.y + 1,
            rect_tile_count(min_tile, max_tile) < usize::MAX,
            tile_affectors.wf(),
            dirty.wf(),
            forall|c: TileCoord| #[trigger]
                tile_affectors.affectors(c) == if rect_done(c, min_tile, max_tile, x as int, 0) {
                    old(tile_affectors).affectors(c).insert(e)
                } else {
                    old(tile_affectors).affectors(c)
                },
            dirty@.to_set() == old(dirty)@.to_set().union(
                Set::new(|c: TileCoord| rect_done(c, min_tile, max_tile, x as int, 0)),
            ),
            relation_tiles(list).no_duplicates(),
            relation_tiles(list).len() == (x - min_tile.x) * h,
            forall|p: (u32, u32)|
                #[trigger] relation_tiles(list).contains(p) <==> rect_done(
                    TileCoord { x: p.0, y: p.1 },
                    min_tile,
                    max_tile,
                    x as int,
                    0,
                ),
        decreases max_tile.x + 1 - x,
    {
        let mut y: u64 = min_tile.y as u64;
        assert forall|c: TileCoord|
            rect_done(c, min_tile, max_tile, x as int, 0) == rect_done(
                c,
                min_tile,
                max_tile,
                x as int,
                y as int,
            ) by {}
        while y <= max_tile.y as u64
            invariant
                min_tile.x <= x <= max_tile.x,
                min_tile.y <= y <= max_tile.y + 1,
                h == max_tile.y - min_tile.y + 1,
                rect_tile_count(min_tile, max_tile) < usize::MAX,
                tile_affectors.wf(),
                dirty.wf(),
                forall|c: TileCoord| #[trigger]
                    tile_affectors.affectors(c) == if rect_done(
                        c,
                        min_tile,
                        max_tile,
                        x as int,
                        y as int,
                    ) {
                        old(tile_affectors).affectors(c).insert(e)
                    } else {
                        old(tile_affectors).affectors(c)
                    },
                dirty@.to_set() == old(dirty)@.to_set().union(
                    Set::new(|c: TileCoord| rect_done(c, min_tile, max_tile, x as int, y as int)),
                ),
                relation_tiles(list).no_duplicates(),
                relation_tiles(list).len() == (x - min_tile.x) * h + (y - min_tile.y),
                forall|p: (u32, u32)|
                    #[trigger] relation_tiles(list).contains(p) <==> rect_done(
                        TileCoord { x: p.0, y: p.1 },
                        min_tile,
                        max_tile,
                        x as int,
                        y as int,
                    ),
            decreases max_tile.y + 1 - y,
        {
            let c = TileCoord { x: x as u32, y: y as u32 };
            let ghost before = relation_tiles(list);
            proof {
                let w: int = max_tile.x - min_tile.x + 1;
                let dx: int = x - min_tile.x;
                let dy: int = y - min_tile.y;
                assert(dx * h + dy < w * h) by (nonlinear_arith)
                    requires
                        0 <= dx < w,
                        0 <= dy < h,
                ;
                assert(!rect_done(c, min_tile, max_tile, x as int, y as int));
                lemma_push_contains(before, coord_pair(c));
            }
            tile_affectors.insert(c, e);
            tile_list_push(&mut list, (c.x, c.y));
            dirty.insert(c);
            y = y + 1;
            assert forall|o: TileCoord| #[trigger]
                tile_affectors.affectors(o) == if rect_done(
                    o,
                    min_tile,
                    max_tile,
                    x as int,
                    y as int,
                ) {
                    old(tile_affectors).affectors(o).insert(e)
                } else {
                    old(tile_affectors).affectors(o)
                } by {
                if o == c {
                    assert(old(tile_affectors).affectors(o).insert(e).insert(e)
                        =~= old(tile_affectors).affectors(o).insert(e));
                }
            }
            assert(dirty@.to_set() =~= old(dirty)@.to_set().union(
                Set::new(|c: TileCoord| rect_done(c, min_tile, max_tile, x as int, y as int)),
            ));
            assert forall|p: (u32, u32)|
                #[trigger] relation_tiles(list).contains(p) <==> rect_done(
                    TileCoord { x: p.0, y: p.1 },
                    min_tile,
                    max_tile,
                    x as int,
                    y as int,
                ) by {
                assert(before.push(coord_pair(c)).contains(p) <==> before.contains(p) || p
                    == coord_pair(c));
            }
            proof {
                assert((x - min_tile.x) * h + (y - 1 - min_tile.y) + 1 == (x - min_tile.x) * h + (y
                    - min_tile.y));
            }
        }
        x = x + 1;
        proof {
            assert((x - 1 - min_tile.x) * h + h == (x - min_tile.x) * h) by (nonlinear_arith);
            assert forall|o: TileCoord|
                rect_done(o, min_tile, max_tile, (x - 1) as int, y as int) == rect_done(
                    o,
                    min_tile,
                    max_tile,
                    x as int,
                    0,
                ) by {}
            assert(dirty@.to_set() =~= old(dirty)@.to_set().union(
                Set::new(|c: TileCoord| rect_done(c, min_tile, max_tile, x as int, 0)),
            ));
        }
    }
    assert forall|c: TileCoord|
        rect_done(c, min_tile, max_tile, x as int, 0) == in_tile_rect(c, min_tile, max_tile) by {}
    assert(dirty@.to_set() =~= old(dirty)@.to_set().union(
        Set::new(|c: TileCoord| in_tile_rect(c, min_tile, max_tile)),
    ));
    list
}

/// Records that the geometry of entity `e`, widened by the erosion border,
/// now reaches the tiles from `min_tile` to `max_tile`.
///
/// `e` is dropped from the tiles it was recorded in that lie outside that
/// rectangle and added to every tile inside it; its relation list becomes
/// exactly the rectangle. Every tile it left or now covers is marked dirty.
pub fn update_navmesh_affector(
    tile_affectors: &mut TileAffectors,
    relations: &mut NavMeshAffectorRelations,
    dirty: &mut DirtyTiles,
    e: u64,
    min_tile: TileCoord,
    max_tile: TileCoord,
)
    requires
        old(tile_affectors).wf(),
        old(dirty).wf(),
        rect_tile_count(min_tile, max_tile) < usize::MAX,
    ensures
        final(tile_affectors).wf(),
        final(dirty).wf(),
        forall|c: TileCoord| #[trigger]
            final(tile_affectors).affectors(c) == if in_tile_rect(c, min_tile, max_tile) {
                old(tile_affectors).affectors(c).insert(e)
            } else if is_related(*old(relations), e, c) {
                old(tile_affectors).affectors(c).remove(e)
            } else {
                old(tile_affectors).affectors(c)
            },
        final(relations).has(e),
        final(relations).tiles_of(e).no_duplicates(),
        forall|c: TileCoord|
            #[trigger] is_related(*final(relations), e, c) <==> in_tile_rect(c, min_tile, max_tile),
        forall|o: u64|
            o != e ==> final(relations).has(o) == old(relations).has(o) && final(relations).tiles_of(
                o,
            ) == old(relations).tiles_of(o),
        final(dirty)@.to_set() == old(dirty)@.to_set().union(
            Set::new(
                |c: TileCoord|
                    in_tile_rect(c, min_tile, max_tile) || is_related(*old(relations), e, c),
            ),
        ),
{
    let ghost rel0 = *relations;
    let ghost aff0 = *tile_affectors;
    let ghost dirty0 = dirty@;
    let previous = relations.take(e);
    match &previous {
        Some(l) => {
            detach_outside(tile_affectors, dirty, e, l, min_tile, max_tile);
        },
        None => {
            assert(dirty@.to_set() =~= dirty0.to_set().union(
                Set::new(
                    |c: TileCoord|
                        !in_tile_rect(c, min_tile, max_tile) && is_related(rel0, e, c),
                ),
            ));
        },
    }
    let ghost aff1 = *tile_affectors;
    assert forall|c: TileCoord| #[trigger]
        aff1.affectors(c) == if !in_tile_rect(c, min_tile, max_tile) && is_related(rel0, e, c) {
            aff0.affectors(c).remove(e)
        } else {
            aff0.affectors(c)
        } by {}
    let list = attach_rect(tile_affectors, dirty, e, min_tile, max_tile);
    relations.put(e, list);
    assert forall|c: TileCoord| #[trigger]
        tile_affectors.affectors(c) == if in_tile_rect(c, min_tile, max_tile) {
            aff0.affectors(c).insert(e)
        } else if is_related(rel0, e, c) {
            aff0.affectors(c).remove(e)
        } else {
            aff0.affectors(c)
        } by {
        assert(aff1.affectors(c) == if !in_tile_rect(c, min_tile, max_tile) && is_related(
            rel0,
            e,
            c,
        ) {
            aff0.affectors(c).remove(e)
        } else {
            aff0.affectors(c)
        });
    }
    assert(dirty@.to_set() =~= dirty0.to_set().union(
        Set::new(|c: TileCoord| in_tile_rect(c, min_tile, max_tile) || is_related(rel0, e, c)),
    ));
}

/// Forgets entity `e`, whose affector marker was removed: it no longer
/// affects any tile it was recorded in, and those tiles are marked dirty.
pub fn remove_navmesh_affector(
    tile_affectors: &mut TileAffectors,
    relations: &mut NavMeshAffectorRelations,
    dirty: &mut DirtyTiles,
    e: u64,
)
    requires
        old(tile_affectors).wf(),
        old(dirty).wf(),
    ensures
        final(tile_affectors).wf(),
        final(dirty).wf(),
        forall|c: TileCoord| #[trigger]
            final(tile_affectors).affectors(c) == if is_related(*old(relations), e, c) {
                old(tile_affectors).affectors(c).remove(e)
            } else {
                old(tile_affectors).affectors(c)
            },
        !final(relations).has(e),
        forall|o: u64|
            o != e ==> final(relations).has(o) == old(relations).has(o) && final(relations).tiles_of(
                o,
            ) == old(relations).tiles_of(o),
        final(dirty)@.to_set() == old(dirty)@.to_set().union(
            Set::new(|c: TileCoord| is_related(*old(relations), e, c)),
        ),
{
    let ghost rel0 = *relations;
    let nowhere_min = TileCoord { x: 1, y: 1 };
    let nowhere_max = TileCoord { x: 0, y: 0 };
    match relations.take(e) {
        Some(l) => {
            detach_outside(tile_affectors, dirty, e, &l, nowhere_min, nowhere_max);
            assert(dirty@.to_set() =~= old(dirty)@.to_set().union(
                Set::new(|c: TileCoord| is_related(rel0, e, c)),
            ));
        },
        None => {
            assert(old(dirty)@.to_set() =~= old(dirty)@.to_set().union(
                Set::new(|c: TileCoord| is_related(rel0, e, c)),
            ));
        },
    }
}

} // verus!
