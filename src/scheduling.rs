//! Turning dirty tiles into generation and removal jobs, each stamped with a
//! strictly increasing generation when it is enqueued.
use vstd::prelude::*;

use crate::affectors::{DirtyTiles, TileAffectors};
use crate::tiles::TileCoord;

verus! {

/// The last generation stamp handed out.
pub struct GenerationTicker(pub u64);

/// What a job does to its tile.
pub enum TileAction {
    /// No entity affects the tile any more: remove it from the map.
    Remove,
    /// Regenerate the tile from the geometry of these entities.
    Build(Vec<u64>),
}

/// One unit of work for a tile, stamped with its generation.
pub struct TileJob {
    pub coord: TileCoord,
    pub generation: u64,
    pub action: TileAction,
}

/// The cap on concurrent generation tasks; no cap counts as `u16::MAX`.
pub open spec fn task_cap(max_tile_generation_tasks: Option<u16>) -> int {
    match max_tile_generation_tasks {
        Some(m) => m as int,
        None => u16::MAX as int,
    }
}

/// New jobs may be sent: fewer tasks are running than the cap allows (always,
/// without a cap) and some tile is dirty.
pub fn can_generate_new_tiles(
    max_tile_generation_tasks: Option<u16>,
    active_tasks: usize,
    dirty: &DirtyTiles,
) -> (r: bool)
    ensures
        r == ((match max_tile_generation_tasks {
            Some(m) => active_tasks < m,
            None => true,
        }) && dirty@.len() > 0),
{
    let below_cap = match max_tile_generation_tasks {
        Some(m) => active_tasks < m as usize,
        None => true,
    };
    below_cap && !dirty.is_empty()
}

/// The number of dirty tiles that one round turns into jobs.
pub open spec fn jobs_this_round(
    max_tile_generation_tasks: Option<u16>,
    active_tasks: usize,
    dirty_len: int,
) -> int {
    let room = task_cap(max_tile_generation_tasks) - active_tasks;
    if room < dirty_len {
        room
    } else {
        dirty_len
    }
}

/// The job owed for tile `c` stamped `generation`: a removal when no entity
/// affects it, otherwise a build from exactly its affecting entities.
pub open spec fn is_job_for(job: TileJob, c: TileCoord, generation: u64, affectors: Set<u64>) -> bool {
    &&& job.coord == c
    &&& job.generation == generation
    &&& match job.action {
        TileAction::Remove => affectors.is_empty(),
        TileAction::Build(entities) => !affectors.is_empty() && entities@.to_set() == affectors
            && entities@.no_duplicates(),
    }
}

/// Takes as many dirty tiles, oldest first, as the task cap leaves room for,
/// stamps each with the next generation, and returns one job per tile.
pub fn plan_tile_rebuilds(
    dirty: &mut DirtyTiles,
    ticker: &mut GenerationTicker,
    tile_affectors: &TileAffectors,
    max_tile_generation_tasks: Option<u16>,
    active_tasks: usize,
) -> (jobs: Vec<TileJob>)
    requires
        old(dirty).wf(),
        tile_affectors.wf(),
        active_tasks <= task_cap(max_tile_generation_tasks),
        old(ticker).0 + old(dirty)@.len() <= u64::MAX,
    ensures
        final(dirty).wf(),
        jobs@.len() == jobs_this_round(
            max_tile_generation_tasks,
            active_tasks,
            old(dirty)@.len() as int,
        ),
        final(dirty)@ == old(dirty)@.skip(jobs@.len() as int),
        final(ticker).0 == old(ticker).0 + jobs@.len(),
        forall|i: int|
            0 <= i < jobs@.len() ==> is_job_for(
                #[trigger] jobs@[i],
                old(dirty)@[i],
                (old(ticker).0 + i + 1) as u64,
                tile_affectors.affectors(old(dirty)@[i]),
            ),
{
    let cap: usize = match max_tile_generation_tasks {
        Some(m) => m as usize,
        None => 65535,
    };
    let room = cap - active_tasks;
    let n: usize = if room < dirty.len() {
        room
    } else {
        dirty.len()
    };
    let mut jobs: Vec<TileJob> = Vec::new();
    let mut i: usize = 0;
    while i < n
        invariant
            0 <= i <= n <= dirty@.len(),
            dirty@ == old(dirty)@,
            ticker.0 == old(ticker).0 + i,
            old(ticker).0 + old(dirty)@.len() <= u64::MAX,
            tile_affectors.wf(),
            jobs@.len() == i,
            forall|j: int|
                0 <= j < i ==> is_job_for(
                    #[trigger] jobs@[j],
                    old(dirty)@[j],
                    (old(ticker).0 + j + 1) as u64,
                    tile_affectors.affectors(old(dirty)@[j]),
                ),
        decreases n - i,
    {
        let coord = dirty.get(i);
        ticker.0 = ticker.0 + 1;
        let entities = tile_affectors.get(coord);
        let action = if entities.len() == 0 {
            assert(entities@.to_set() =~= Set::<u64>::empty());
            TileAction::Remove
        } else {
            assert(entities@.to_set().contains(entities@[0]));
            TileAction::Build(entities)
        };
        jobs.push(TileJob { coord, generation: ticker.0, action });
        i = i + 1;
    }
    dirty.remove_first(n);
    jobs
}

} // verus!
