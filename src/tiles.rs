//! The shared tile map: finished tiles keyed by tile coordinate, guarded by a
//! per-coordinate generation stamp that rejects stale writes.
use std::collections::HashMap;
use vstd::prelude::*;

verus! {

broadcast use vstd::std_specs::hash::group_hash_axioms;

/// Coordinate of a tile on the XZ-plane, counted from the world's minimum corner.
#[derive(Clone, Copy, Debug, PartialEq, Eq, Structural, Hash)]
pub struct TileCoord {
    pub x: u32,
    pub y: u32,
}

/// The map key of a tile coordinate: `x` in the high half, `y` in the low half.
pub open spec fn tile_key(c: TileCoord) -> u64 {
    ((c.x as u64) << 32u64) | (c.y as u64)
}

pub fn tile_key_of(c: TileCoord) -> (r: u64)
    ensures
        r == tile_key(c),
{
    ((c.x as u64) << 32u64) | (c.y as u64)
}

/// Distinct coordinates have distinct keys.
pub proof fn lemma_tile_key_injective(a: TileCoord, b: TileCoord)
    ensures
        tile_key(a) == tile_key(b) ==> a == b,
{
    let (ax, ay, bx, by) = (a.x, a.y, b.x, b.y);
    assert(((ax as u64) << 32u64) | (ay as u64) == ((bx as u64) << 32u64) | (by as u64) ==> ax
        == bx && ay == by) by (bit_vector);
}

/// What the map records for one coordinate: the newest generation written
/// there (0 when none was) and the tile currently installed, if any.
pub struct TileSlot<T> {
    pub generation: u64,
    pub tile: Option<T>,
}

impl<T> TileSlot<T> {
    /// The slot after a run stamped `generation` completes with `tile`
    /// (`None` for a removal): applied only when the stamp is not older than
    /// the recorded one.
    pub open spec fn complete(self, generation: u64, tile: Option<T>) -> TileSlot<T> {
        if generation >= self.generation {
            TileSlot { generation, tile }
        } else {
            self
        }
    }
}

/// The slot after the runs complete in the order given; each run is its stamp
/// and its result.
pub open spec fn replay<T>(start: TileSlot<T>, runs: Seq<(u64, Option<T>)>) -> TileSlot<T>
    decreases runs.len(),
{
    if runs.len() == 0 {
        start
    } else {
        replay(start, runs.drop_last()).complete(runs.last().0, runs.last().1)
    }
}

/// A completion never lowers the recorded generation.
pub proof fn lemma_completion_never_lowers_generation<T>(
    slot: TileSlot<T>,
    generation: u64,
    tile: Option<T>,
)
    ensures
        slot.complete(generation, tile).generation >= slot.generation,
{
}

/// Over any sequence of completions, the recorded generation after a prefix
/// is never above the one after a longer prefix.
pub proof fn lemma_replay_generation_non_decreasing<T>(
    start: TileSlot<T>,
    runs: Seq<(u64, Option<T>)>,
    j: int,
    k: int,
)
    requires
        0 <= j <= k <= runs.len(),
    ensures
        replay(start, runs.take(j)).generation <= replay(start, runs.take(k)).generation,
    decreases k - j,
{
    if j < k {
        lemma_replay_generation_non_decreasing(start, runs, j, k - 1);
        assert(runs.take(k).drop_last() =~= runs.take(k - 1));
    }
}

proof fn lemma_replay_generation_bounded<T>(
    start: TileSlot<T>,
    runs: Seq<(u64, Option<T>)>,
    bound: u64,
)
    requires
        start.generation <= bound,
        forall|j: int| 0 <= j < runs.len() ==> runs[j].0 <= bound,
    ensures
        replay(start, runs).generation <= bound,
    decreases runs.len(),
{
    if runs.len() > 0 {
        lemma_replay_generation_bounded(start, runs.drop_last(), bound);
    }
}

/// Whatever order the runs of one tile complete in, when their stamps are
/// distinct the map ends up holding the result of the run with the highest
/// stamp, provided that stamp is not older than what was recorded before.
pub proof fn lemma_newest_run_wins<T>(start: TileSlot<T>, runs: Seq<(u64, Option<T>)>, i: int)
    requires
        0 <= i < runs.len(),
        forall|j: int| 0 <= j < runs.len() ==> runs[j].0 <= runs[i].0,
        forall|j: int, k: int|
            0 <= j < runs.len() && 0 <= k < runs.len() && j != k ==> runs[j].0 != runs[k].0,
        runs[i].0 >= start.generation,
    ensures
        replay(start, runs) == (TileSlot { generation: runs[i].0, tile: runs[i].1 }),
    decreases runs.len(),
{
    let prefix = runs.drop_last();
    if i == runs.len() - 1 {
        lemma_replay_generation_bounded(start, prefix, runs[i].0);
    } else {
        lemma_newest_run_wins(start, prefix, i);
    }
}

/// Once a removal is applied, a later removal carrying the same or a lower
/// stamp leaves the coordinate without a tile.
pub proof fn lemma_removal_not_undone<T>(slot: TileSlot<T>, first: u64, second: u64)
    requires
        first >= slot.generation,
        second <= first,
    ensures
        slot.complete(first, None).complete(second, None).tile is None,
        slot.complete(first, None).complete(second, None).generation == first,
{
}

/// The tile map with its generation record.
pub struct NavMeshTiles<T> {
    tiles: HashMap<u64, T>,
    tile_generations: HashMap<u64, u64>,
}

impl<T> NavMeshTiles<T> {
    pub closed spec fn slot(&self, c: TileCoord) -> TileSlot<T> {
        let k = tile_key(c);
        TileSlot {
            generation: if self.tile_generations@.contains_key(k) {
                self.tile_generations@[k]
            } else {
                0
            },
            tile: if self.tiles@.contains_key(k) {
                Some(self.tiles@[k])
            } else {
                None
            },
        }
    }

    pub fn new() -> (r: Self)
        ensures
            forall|c: TileCoord| r.slot(c) == (TileSlot::<T> { generation: 0, tile: None }),
    {
        NavMeshTiles { tiles: HashMap::new(), tile_generations: HashMap::new() }
    }

    /// The generation recorded for `c`.
    pub fn get_generation(&self, c: TileCoord) -> (r: u64)
        ensures
            r == self.slot(c).generation,
    {
        let k = tile_key_of(c);
        match self.tile_generations.get(&k) {
            Some(g) => *g,
            None => 0,
        }
    }

    /// The tile installed at `c`.
    pub fn get_tile(&self, c: TileCoord) -> (r: Option<&T>)
        ensures
            match r {
                Some(t) => self.slot(c).tile == Some(*t),
                None => self.slot(c).tile is None,
            },
    {
        let k = tile_key_of(c);
        self.tiles.get(&k)
    }

    /// Applies the completion of a run stamped `generation` at `c`, whose
    /// result is `tile` (`None` removes the tile). Returns whether it was
    /// applied; a stale completion changes nothing.
    pub fn complete(&mut self, c: TileCoord, generation: u64, tile: Option<T>) -> (r: bool)
        ensures
            r == (generation >= old(self).slot(c).generation),
            final(self).slot(c) == old(self).slot(c).complete(generation, tile),
            forall|o: TileCoord| o != c ==> final(self).slot(o) == old(self).slot(o),
    {
        let k = tile_key_of(c);
        let recorded = self.get_generation(c);
        if generation < recorded {
            return false;
        }
        self.tile_generations.insert(k, generation);
        match tile {
            Some(t) => {
                self.tiles.insert(k, t);
            },
            None => {
                self.tiles.remove(&k);
            },
        }
        assert forall|o: TileCoord| o != c implies final(self).slot(o) == old(self).slot(o) by {
            lemma_tile_key_injective(o, c);
        }
        true
    }

    /// Installs a freshly generated tile unless a newer run already wrote `c`.
    pub fn complete_build(&mut self, c: TileCoord, generation: u64, tile: T) -> (r: bool)
        ensures
            r == (generation >= old(self).slot(c).generation),
            final(self).slot(c) == old(self).slot(c).complete(generation, Some(tile)),
            forall|o: TileCoord| o != c ==> final(self).slot(o) == old(self).slot(o),
    {
        self.complete(c, generation, Some(tile))
    }

    /// Removes the tile at `c` unless a newer run already wrote it.
    pub fn complete_removal(&mut self, c: TileCoord, generation: u64) -> (r: bool)
        ensures
            r == (generation >= old(self).slot(c).generation),
            final(self).slot(c) == old(self).slot(c).complete(generation, None),
            forall|o: TileCoord| o != c ==> final(self).slot(o) == old(self).slot(o),
    {
        self.complete(c, generation, None)
    }
}

} // verus!
