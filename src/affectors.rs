//! Which entities affect which tiles, which tiles are dirty, and how dirty
//! tiles are turned into stamped generation or removal jobs.
use std::collections::HashMap;
use vstd::prelude::*;

use crate::tiles::{tile_key, tile_key_of, lemma_tile_key_injective, TileCoord};

verus! {

broadcast use vstd::std_specs::hash::group_hash_axioms;

/// `c` lies in the closed rectangle of tiles spanned by `min` and `max`.
pub open spec fn in_tile_rect(c: TileCoord, min: TileCoord, max: TileCoord) -> bool {
    min.x <= c.x <= max.x && min.y <= c.y <= max.y
}

pub(crate) fn tile_in_rect(c: TileCoord, min: TileCoord, max: TileCoord) -> (r: bool)
    ensures
        r == in_tile_rect(c, min, max),
{
    min.x <= c.x && c.x <= max.x && min.y <= c.y && c.y <= max.y
}

/// Appending one element adds exactly that element.
pub(crate) proof fn lemma_push_contains<A>(s: Seq<A>, x: A)
    ensures
        forall|u: A| #[trigger] s.push(x).contains(u) <==> s.contains(u) || u == x,
        s.no_duplicates() && !s.contains(x) ==> s.push(x).no_duplicates(),
{
    assert forall|u: A| #[trigger] s.push(x).contains(u) <==> s.contains(u) || u == x by {
        if s.contains(u) {
            let j = choose|j: int| 0 <= j < s.len() && s[j] == u;
            assert(s.push(x)[j] == u);
        }
        if u == x {
            assert(s.push(x)[s.len() as int] == x);
        }
        if s.push(x).contains(u) {
            let j = choose|j: int| 0 <= j < s.push(x).len() && s.push(x)[j] == u;
            if j < s.len() {
                assert(s[j] == u);
            }
        }
    }
    if s.no_duplicates() && !s.contains(x) {
        assert forall|j: int, k: int|
            0 <= j < s.push(x).len() && 0 <= k < s.push(x).len() && j != k implies s.push(x)[j]
            != s.push(x)[k] by {
            if j < s.len() && k == s.len() {
                assert(s.contains(s[j]));
            }
            if k < s.len() && j == s.len() {
                assert(s.contains(s[k]));
            }
        }
    }
}

/// Tiles waiting to be regenerated, in the order they were marked.
pub struct DirtyTiles {
    tiles: Vec<TileCoord>,
}

impl View for DirtyTiles {
    type V = Seq<TileCoord>;

    closed spec fn view(&self) -> Seq<TileCoord> {
        self.tiles@
    }
}

impl DirtyTiles {
    /// No tile is marked twice.
    pub open spec fn wf(&self) -> bool {
        self@.no_duplicates()
    }

    pub fn new() -> (r: Self)
        ensures
            r.wf(),
            r@ == Seq::<TileCoord>::empty(),
    {
        DirtyTiles { tiles: Vec::new() }
    }

    pub fn len(&self) -> (r: usize)
        ensures
            r == self@.len(),
    {
        self.tiles.len()
    }

    pub fn is_empty(&self) -> (r: bool)
        ensures
            r == (self@.len() == 0),
    {
        self.tiles.len() == 0
    }

    /// The tile marked `i`-th.
    pub fn get(&self, i: usize) -> (r: TileCoord)
        requires
            i < self@.len(),
        ensures
            r == self@[i as int],
    {
        self.tiles[i]
    }

    pub fn contains(&self, c: TileCoord) -> (r: bool)
        ensures
            r == self@.contains(c),
    {
        let mut i: usize = 0;
        while i < self.tiles.len()
            invariant
                0 <= i <= self.tiles@.len(),
                forall|j: int| 0 <= j < i ==> self.tiles@[j] != c,
            decreases self.tiles@.len() - i,
        {
            if self.tiles[i] == c {
                return true;
            }
            i = i + 1;
        }
        false
    }

    /// Marks `c` dirty; a tile already marked keeps its place.
    pub fn insert(&mut self, c: TileCoord)
        requires
            old(self).wf(),
        ensures
            final(self).wf(),
            final(self)@ == if old(self)@.contains(c) {
                old(self)@
            } else {
                old(self)@.push(c)
            },
            final(self)@.to_set() == old(self)@.to_set().insert(c),
    {
        if !self.contains(c) {
            self.tiles.push(c);
            assert(self@.to_set() =~= old(self)@.to_set().insert(c)) by {
                assert(forall|t: TileCoord| self@.contains(t) <==> old(self)@.contains(t) || t == c)
                    by {
                    assert(self@.last() == c);
                    assert(forall|j: int| 0 <= j < old(self)@.len() ==> self@[j] == old(self)@[j]);
                }
            }
        } else {
            assert(old(self)@.to_set() =~= old(self)@.to_set().insert(c));
        }
    }

    /// Takes the first `n` marked tiles off the front.
    pub(crate) fn remove_first(&mut self, n: usize)
        requires
            old(self).wf(),
            n <= old(self)@.len(),
        ensures
            final(self).wf(),
            final(self)@ == old(self)@.skip(n as int),
    {
        let mut rest: Vec<TileCoord> = Vec::new();
        let mut i: usize = n;
        while i < self.tiles.len()
            invariant
                n <= i <= self.tiles@.len(),
                self.tiles@ == old(self)@,
                rest@ == old(self)@.subrange(n as int, i as int),
            decreases self.tiles@.len() - i,
        {
            rest.push(self.tiles[i]);
            i = i + 1;
            assert(rest@ =~= old(self)@.subrange(n as int, i as int));
        }
        self.tiles = rest;
        assert(self@ =~= old(self)@.skip(n as int));
        assert(self@.no_duplicates()) by {
            assert forall|j: int, k: int|
                0 <= j < self@.len() && 0 <= k < self@.len() && j != k implies self@[j]
                != self@[k] by {
                assert(self@[j] == old(self)@[j + n]);
                assert(self@[k] == old(self)@[k + n]);
            }
        }
    }
}

/// For each tile, the entities whose geometry reaches into it.
pub struct TileAffectors {
    map: HashMap<u64, Vec<u64>>,
}

impl TileAffectors {
    /// The entities affecting `c`.
    pub closed spec fn affectors(&self, c: TileCoord) -> Set<u64> {
        if self.map@.contains_key(tile_key(c)) {
            self.map@[tile_key(c)]@.to_set()
        } else {
            Set::empty()
        }
    }

    /// No tile lists an entity twice.
    pub closed spec fn wf(&self) -> bool {
        forall|k: u64| #[trigger] self.map@.contains_key(k) ==> self.map@[k]@.no_duplicates()
    }

    pub fn new() -> (r: Self)
        ensures
            r.wf(),
            forall|c: TileCoord| r.affectors(c) == Set::<u64>::empty(),
    {
        TileAffectors { map: HashMap::new() }
    }

    /// The entities affecting `c`, each once.
    pub fn get(&self, c: TileCoord) -> (r: Vec<u64>)
        requires
            self.wf(),
        ensures
            r@.to_set() == self.affectors(c),
            r@.no_duplicates(),
    {
        let k = tile_key_of(c);
        match self.map.get(&k) {
            Some(v) => v.clone(),
            None => {
                let r: Vec<u64> = Vec::new();
                assert(r@.to_set() =~= Set::<u64>::empty());
                r
            },
        }
    }

    /// Records that `e` affects `c`.
    pub fn insert(&mut self, c: TileCoord, e: u64)
        requires
            old(self).wf(),
        ensures
            final(self).wf(),
            forall|o: TileCoord|
                #[trigger] final(self).affectors(o) == if o == c {
                    old(self).affectors(o).insert(e)
                } else {
                    old(self).affectors(o)
                },
    {
        let k = tile_key_of(c);
        let mut list = match self.map.get(&k) {
            Some(v) => v.clone(),
            None => Vec::new(),
        };
        let ghost before = list@;
        let mut i: usize = 0;
        let mut found = false;
        while i < list.len()
            invariant
                0 <= i <= list@.len(),
                list@ == before,
                found == exists|j: int| 0 <= j < i && list@[j] == e,
            decreases list@.len() - i,
        {
            if list[i] == e {
                found = true;
            }
            i = i + 1;
        }
        proof {
            lemma_push_contains(before, e);
        }
        if !found {
            list.push(e);
        } else {
            let ghost j = choose|j: int| 0 <= j < i && list@[j] == e;
            assert(before.contains(e));
        }
        assert(list@.to_set() =~= before.to_set().insert(e));
        assert(list@.no_duplicates());
        self.map.insert(k, list);
        assert forall|o: TileCoord| #[trigger]
            self.affectors(o) == if o == c {
                old(self).affectors(o).insert(e)
            } else {
                old(self).affectors(o)
            } by {
            lemma_tile_key_injective(o, c);
            if o == c {
                if !old(self).map@.contains_key(k) {
                    assert(before.to_set() =~= Set::<u64>::empty());
                }
            }
        }
    }

    /// Records that `e` no longer affects `c`.
    pub fn remove(&mut self, c: TileCoord, e: u64)
        requires
            old(self).wf(),
        ensures
            final(self).wf(),
            forall|o: TileCoord|
                #[trigger] final(self).affectors(o) == if o == c {
                    old(self).affectors(o).remove(e)
                } else {
                    old(self).affectors(o)
                },
    {
        let k = tile_key_of(c);
        let list = match self.map.get(&k) {
            Some(v) => v.clone(),
            None => {
                assert forall|o: TileCoord| #[trigger]
                    self.affectors(o) == if o == c {
                        old(self).affectors(o).remove(e)
                    } else {
                        old(self).affectors(o)
                    } by {
                    if o == c {
                        assert(Set::<u64>::empty().remove(e) =~= Set::<u64>::empty());
                    }
                }
                return ;
            },
        };
        let mut kept: Vec<u64> = Vec::new();
        let mut i: usize = 0;
        while i < list.len()
            invariant
                0 <= i <= list@.len(),
                list@.no_duplicates(),
                kept@.no_duplicates(),
                forall|t: u64| kept@.contains(t) <==> (list@.take(i as int).contains(t) && t != e),
            decreases list@.len() - i,
        {
            let t = list[i];
            proof {
                assert(list@.take(i + 1) =~= list@.take(i as int).push(t));
                lemma_push_contains(list@.take(i as int), t);
                assert(!list@.take(i as int).contains(t)) by {
                    if list@.take(i as int).contains(t) {
                        let j = choose|j: int| 0 <= j < i && list@.take(i as int)[j] == t;
                        assert(list@[j] == list@[i as int]);
                    }
                }
            }
            if t != e {
                proof {
                    lemma_push_contains(kept@, t);
                }
                kept.push(t);
            }
            i = i + 1;
        }
        assert(list@.take(list@.len() as int) =~= list@);
        assert(kept@.to_set() =~= list@.to_set().remove(e));
        self.map.insert(k, kept);
        assert forall|o: TileCoord| #[trigger]
            self.affectors(o) == if o == c {
                old(self).affectors(o).remove(e)
            } else {
                old(self).affectors(o)
            } by {
            lemma_tile_key_injective(o, c);
        }
    }
}

} // verus!
