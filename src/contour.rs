//! The packed per-vertex data of traced contours: the neighbouring region id
//! in the low 16 bits and a tile-border flag above it.
use vstd::prelude::*;

verus! {

/// Set on a contour vertex that lies on the tile's border.
pub const FLAG_BORDER_VERTEX: u32 = 0x10000;
/// Selects the neighbouring region id of a contour vertex.
pub const MASK_CONTOUR_REGION: u32 = 0xffff;

/// The region id held in `flags`.
pub open spec fn region_of(flags: u32) -> int {
    flags as int % 0x10000
}

/// Whether `flags` marks a tile-border vertex.
pub open spec fn border_of(flags: u32) -> bool {
    (flags / 0x10000) % 2 == 1
}

/// The neighbouring region id of a contour vertex.
pub fn contour_region(flags: u32) -> (r: u16)
    ensures
        r == region_of(flags),
{
    assert(flags & MASK_CONTOUR_REGION == flags % 0x10000) by (bit_vector);
    (flags & MASK_CONTOUR_REGION) as u16
}

/// Whether a contour vertex lies on the tile's border.
pub fn is_border_vertex(flags: u32) -> (r: bool)
    ensures
        r == border_of(flags),
{
    assert((flags & FLAG_BORDER_VERTEX != 0) == ((flags / 0x10000) % 2 == 1)) by (bit_vector);
    flags & FLAG_BORDER_VERTEX != 0
}

/// The packed data of a vertex bordering `region`, on the tile's border or not.
pub fn pack_contour_flags(region: u16, border: bool) -> (r: u32)
    ensures
        r == region + if border {
            0x10000int
        } else {
            0
        },
        region_of(r) == region,
        border_of(r) == border,
{
    let low = region as u32;
    assert(low < 0x10000u32 ==> (low | 0x10000u32) == low + 0x10000u32) by (bit_vector);
    if border {
        low | FLAG_BORDER_VERTEX
    } else {
        low
    }
}

} // verus!
