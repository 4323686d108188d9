//! For each affecting entity, the tiles its geometry was last recorded in.
use smallvec::SmallVec;
use std::collections::HashMap;
use vstd::prelude::*;

verus! {

broadcast use vstd::std_specs::hash::group_hash_axioms;

/// A short list of tiles, kept inline for the usual handful. `SmallVec` is
/// held whole here because its `Array` bound cannot be stated to Verus; its
/// contents are `relation_tiles`, and only the wrappers below touch it.
#[verifier::external_body]
pub struct TileList {
    inner: SmallVec<[(u32, u32); 4]>,
}

/// The tiles held by a relation list, `(x, y)` each, in order.
pub uninterp spec fn relation_tiles(v: TileList) -> Seq<(u32, u32)>;

/// Relies on `SmallVec::new`: the new vector is empty.
#[verifier::external_body]
pub(crate) fn tile_list_new() -> (r: TileList)
    ensures
        relation_tiles(r) == Seq::<(u32, u32)>::empty(),
{
    TileList { inner: SmallVec::new() }
}

/// Relies on `SmallVec::push`: appends the item at the end; it panics only
/// when the length would overflow `usize`.
#[verifier::external_body]
pub(crate) fn tile_list_push(v: &mut TileList, t: (u32, u32))
    requires
        relation_tiles(*old(v)).len() < usize::MAX,
    ensures
        relation_tiles(*final(v)) == relation_tiles(*old(v)).push(t),
{
    v.inner.push(t)
}

/// Relies on `SmallVec::len`: the number of items held.
#[verifier::external_body]
pub(crate) fn tile_list_len(v: &TileList) -> (r: usize)
    ensures
        r == relation_tiles(*v).len(),
{
    v.inner.len()
}

/// Relies on indexing a `SmallVec`, which reads its slice of items.
#[verifier::external_body]
pub(crate) fn tile_list_get(v: &TileList, i: usize) -> (r: (u32, u32))
    requires
        i < relation_tiles(*v).len(),
    ensures
        r == relation_tiles(*v)[i as int],
{
    v.inner[i]
}

} // verus!

verus! {

/// For each affecting entity, the tiles it was last recorded in.
pub struct NavMeshAffectorRelations {
    map: HashMap<u64, TileList>,
}

impl NavMeshAffectorRelations {
    /// `e` has a recorded relation list.
    pub closed spec fn has(&self, e: u64) -> bool {
        self.map@.contains_key(e)
    }

    /// The tiles recorded for `e`, empty when it has none.
    pub closed spec fn tiles_of(&self, e: u64) -> Seq<(u32, u32)> {
        if self.map@.contains_key(e) {
            relation_tiles(self.map@[e])
        } else {
            Seq::empty()
        }
    }

    pub fn new() -> (r: Self)
        ensures
            forall|e: u64| !r.has(e) && r.tiles_of(e) == Seq::<(u32, u32)>::empty(),
    {
        NavMeshAffectorRelations { map: HashMap::new() }
    }

    /// The tiles recorded for `e`, in order.
    pub fn get_tiles(&self, e: u64) -> (r: Vec<(u32, u32)>)
        ensures
            r@ == self.tiles_of(e),
    {
        let mut out: Vec<(u32, u32)> = Vec::new();
        match self.map.get(&e) {
            Some(l) => {
                let n = tile_list_len(l);
                let mut i: usize = 0;
                while i < n
                    invariant
                        n == relation_tiles(*l).len(),
                        0 <= i <= n,
                        out@ == relation_tiles(*l).take(i as int),
                    decreases n - i,
                {
                    out.push(tile_list_get(l, i));
                    i = i + 1;
                    assert(out@ =~= relation_tiles(*l).take(i as int));
                }
                assert(out@ =~= relation_tiles(*l));
            },
            None => {},
        }
        out
    }

    /// Takes the list of `e` out, leaving `e` without one.
    pub fn take(&mut self, e: u64) -> (r: Option<TileList>)
        ensures
            match r {
                Some(l) => old(self).has(e) && relation_tiles(l) == old(self).tiles_of(e),
                None => !old(self).has(e) && old(self).tiles_of(e) == Seq::<(u32, u32)>::empty(),
            },
            !final(self).has(e),
            final(self).tiles_of(e) == Seq::<(u32, u32)>::empty(),
            forall|o: u64|
                o != e ==> final(self).has(o) == old(self).has(o) && final(self).tiles_of(o)
                    == old(self).tiles_of(o),
    {
        self.map.remove(&e)
    }

    /// Records `l` as the list of `e`.
    pub fn put(&mut self, e: u64, l: TileList)
        ensures
            final(self).has(e),
            final(self).tiles_of(e) == relation_tiles(l),
            forall|o: u64|
                o != e ==> final(self).has(o) == old(self).has(o) && final(self).tiles_of(o)
                    == old(self).tiles_of(o),
    {
        self.map.insert(e, l);
    }
}

} // verus!
