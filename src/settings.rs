//! The integer part of the generation settings, and grid addressing within a
//! tile including its border.
use vstd::prelude::*;

verus! {

/// Settings for nav-mesh generation, in cells and cell heights.
///
/// The world-space scales (cell sizes, world extents, slope limit and
/// contour error) are kept by the host beside these.
#[derive(Clone, Copy, Debug, PartialEq, Eq, Structural)]
pub struct NavMeshSettings {
    /// Length of a tile's side in cells.
    pub tile_width: u16,
    /// Minimum open height, in cell heights, for a span to be walkable.
    pub walkable_height: u16,
    /// How far, in cells, the walkable area is pulled back from obstacles.
    pub walkable_radius: u16,
    /// Maximum height difference, in cell heights, that is still traversable.
    pub step_height: u16,
    /// Regions with fewer spans than this are removed.
    pub min_region_area: usize,
    /// Maximum size of a region that other regions are merged into.
    pub merge_region_area: usize,
    /// Contour edges longer than this are split.
    pub max_edge_length: u32,
    /// Optional cap on tiles generated at once; `None` means no cap.
    pub max_tile_generation_tasks: Option<u16>,
}

/// The side of a tile's voxel grid, border included.
pub open spec fn side_with_border(s: NavMeshSettings) -> int {
    s.tile_width + 2 * s.walkable_radius
}

/// The cell next to `index` in direction `dir`: 0 is -x, 1 is +z, 2 is +x,
/// 3 is -z, on a grid stored row by row.
pub open spec fn neighbour_of(s: NavMeshSettings, index: int, dir: int) -> int {
    if dir == 0 {
        index - 1
    } else if dir == 1 {
        index + side_with_border(s)
    } else if dir == 2 {
        index + 1
    } else {
        index - side_with_border(s)
    }
}

impl NavMeshSettings {
    /// The side of a tile's voxel grid in cells, border included.
    pub fn get_tile_side_with_border(&self) -> (r: usize)
        ensures
            r == side_with_border(*self),
    {
        self.tile_width as usize + self.walkable_radius as usize * 2
    }

    /// The width of the border around a tile, in cells.
    pub fn get_border_side(&self) -> (r: usize)
        ensures
            r == self.walkable_radius,
    {
        self.walkable_radius as usize
    }
}

/// The index of the cell next to `index` in direction `dir`.
pub fn get_neighbour_index(nav_mesh_settings: &NavMeshSettings, index: usize, dir: usize) -> (r:
    usize)
    requires
        dir < 4,
        0 <= neighbour_of(*nav_mesh_settings, index as int, dir as int) <= usize::MAX,
    ensures
        r == neighbour_of(*nav_mesh_settings, index as int, dir as int),
{
    let side = nav_mesh_settings.get_tile_side_with_border();
    if dir == 0 {
        index - 1
    } else if dir == 1 {
        index + side
    } else if dir == 2 {
        index + 1
    } else {
        index - side
    }
}

} // verus!
