//! The set of tiles of one puzzle, in a fixed order.
use crate::error::InputFault;
use crate::manipulation::Manipulation;
use crate::tile::{Tile, TileId};
use vstd::prelude::*;

verus! {

/// The tiles of one puzzle.  They keep the order in which they were given,
/// so that everything that walks the catalog does so in the same order every
/// time.
pub struct TileCatalog {
    pub tiles: Vec<Tile>,
}

/// Whether the tiles are well formed and of one size.
pub open spec fn same_size(tiles: Seq<Tile>) -> bool {
    forall|i: int| 0 <= i < tiles.len() ==> (#[trigger] tiles[i]).size() == tiles[0].size()
}

/// Whether no two tiles have the same id.
pub open spec fn distinct_ids(tiles: Seq<Tile>) -> bool {
    forall|i: int, j: int|
        0 <= i < j < tiles.len() ==> (#[trigger] tiles[i]).id.val != (#[trigger] tiles[j]).id.val
}

impl TileCatalog {
    /// The tiles.
    pub open spec fn view(&self) -> Seq<Tile> {
        self.tiles@
    }

    /// Well-formed tiles of one size with different ids, few enough for
    /// their positions to be counted in 32 bits.
    pub open spec fn wf(&self) -> bool {
        &&& self@.len() < i32::MAX
        &&& forall|i: int| 0 <= i < self@.len() ==> (#[trigger] self@[i]).wf()
        &&& same_size(self@)
        &&& distinct_ids(self@)
    }

    /// The size of the tiles; 0 for the empty catalog.
    pub open spec fn size(&self) -> nat {
        if self@.len() > 0 {
            self@[0].size()
        } else {
            0
        }
    }

    /// Whether the catalog holds a tile with the id `id`.
    pub open spec fn has(&self, id: i32) -> bool {
        exists|i: int| 0 <= i < self@.len() && (#[trigger] self@[i]).id.val == id
    }

    /// The place of the tile with the id `id` in the catalog.
    pub open spec fn index_of(&self, id: i32) -> int {
        choose|i: int| 0 <= i < self@.len() && (#[trigger] self@[i]).id.val == id
    }

    /// The tile with the id `id`.
    pub open spec fn tile(&self, id: i32) -> Tile {
        self@[self.index_of(id)]
    }

    /// The matrix of the tile `id` turned as `how` says.
    pub open spec fn variant(&self, id: i32, how: Manipulation) -> Seq<Seq<u8>> {
        how.apply(self.tile(id).d@, self.size())
    }

    /// The ids of the tiles.
    pub open spec fn ids(&self) -> Set<i32> {
        Set::new(|id: i32| self.has(id))
    }

    /// Whether `id` is the lowest id of the catalog.
    pub open spec fn is_lowest(&self, id: i32) -> bool {
        self.has(id) && forall|i: int| 0 <= i < self@.len() ==> id <= (#[trigger] self@[i]).id.val
    }

    /// The lowest id of the catalog.
    pub open spec fn lowest(&self) -> i32 {
        choose|id: i32| self.is_lowest(id)
    }

    /// Makes a catalog of `tiles`.  Tiles of different sizes are reported
    /// before tiles with the same id.
    pub fn new(tiles: Vec<Tile>) -> (r: Result<TileCatalog, InputFault>)
        requires
            tiles.len() < i32::MAX,
            forall|i: int| 0 <= i < tiles.len() ==> (#[trigger] tiles[i]).wf(),
        ensures
            r is Ok <==> same_size(tiles@) && distinct_ids(tiles@),
            r matches Ok(c) ==> c.wf() && c@ == tiles@,
            r matches Err(e) ==> e == (if !same_size(tiles@) {
                InputFault::InconsistentSize
            } else {
                InputFault::DuplicateId
            }),
    {
        let n = tiles.len();
        let mut i: usize = 1;
        while i < n
            invariant
                1 <= i || n == 0,
                i <= n || n == 0,
                n == tiles.len(),
                forall|k: int| 0 <= k < tiles.len() ==> (#[trigger] tiles[k]).wf(),
                forall|k: int| 0 <= k < i && k < n ==> (#[trigger] tiles[k]).size() == tiles[0].size(),
            decreases n - i,
        {
            if tiles[i].d.nrows() != tiles[0].d.nrows() {
                return Err(InputFault::InconsistentSize);
            }
            i += 1;
        }
        let mut a: usize = 0;
        while a < n
            invariant
                0 <= a <= n,
                n == tiles.len(),
                same_size(tiles@),
                forall|x: int, y: int|
                    0 <= x < y < n && x < a ==> (#[trigger] tiles[x]).id.val != (
                    #[trigger] tiles[y]).id.val,
            decreases n - a,
        {
            let mut b: usize = a + 1;
            while b < n
                invariant
                    0 <= a < b <= n,
                    n == tiles.len(),
                    same_size(tiles@),
                    forall|x: int, y: int|
                        0 <= x < y < n && x < a ==> (#[trigger] tiles[x]).id.val != (
                        #[trigger] tiles[y]).id.val,
                    forall|y: int| a < y < b ==> tiles[a as int].id.val != (#[trigger] tiles[y]).id.val,
                decreases n - b,
            {
                if tiles[a].id.val == tiles[b].id.val {
                    return Err(InputFault::DuplicateId);
                }
                b += 1;
            }
            a += 1;
        }
        Ok(TileCatalog { tiles })
    }

    /// The size of the tiles; 0 for the empty catalog.
    pub fn size_of_tiles(&self) -> (r: usize)
        requires
            self.wf(),
        ensures
            r == self.size(),
    {
        if self.tiles.len() > 0 {
            assert(self@[0].wf());
            self.tiles[0].d.nrows()
        } else {
            0
        }
    }

    /// The number of tiles.
    pub fn len(&self) -> (r: usize)
        ensures
            r == self@.len(),
    {
        self.tiles.len()
    }

    /// The place of the tile with the id `tile_id`, if the catalog holds it.
    pub fn find(&self, tile_id: &TileId) -> (r: Option<usize>)
        requires
            self.wf(),
        ensures
            r is Some <==> self.has(tile_id.val),
            r matches Some(i) ==> i == self.index_of(tile_id.val) && i < self@.len(),
    {
        let mut i: usize = 0;
        while i < self.tiles.len()
            invariant
                0 <= i <= self.tiles.len(),
                self.wf(),
                forall|k: int| 0 <= k < i ==> (#[trigger] self@[k]).id.val != tile_id.val,
            decreases self.tiles.len() - i,
        {
            if self.tiles[i].id.val == tile_id.val {
                proof {
                    let w = self.index_of(tile_id.val);
                    assert(self@[i as int].id.val == tile_id.val);
                    assert(self@[w].id.val == tile_id.val);
                    if w < i {
                    } else if w > i {
                        assert(self@[i as int].id.val != self@[w].id.val);
                    }
                }
                return Some(i);
            }
            i += 1;
        }
        None
    }

    /// The tile with the id `tile_id`, if the catalog holds it.
    pub fn get(&self, tile_id: &TileId) -> (r: Option<&Tile>)
        requires
            self.wf(),
        ensures
            r is Some <==> self.has(tile_id.val),
            r matches Some(t) ==> *t == self.tile(tile_id.val) && t.wf() && t.id == *tile_id
                && t.size() == self.size(),
    {
        match self.find(tile_id) {
            Some(i) => {
                let t = &self.tiles[i];
                assert(self@[i as int].wf());
                Some(t)
            },
            None => None,
        }
    }

    /// The lowest id, if there is a tile at all.
    pub fn lowest_id(&self) -> (r: Option<TileId>)
        ensures
            r is Some <==> self@.len() > 0,
            r matches Some(id) ==> self.is_lowest(id.val),
    {
        if self.tiles.len() == 0 {
            return None;
        }
        let mut best: i32 = self.tiles[0].id.val;
        let mut i: usize = 1;
        assert(self@[0].id.val == best);
        while i < self.tiles.len()
            invariant
                1 <= i <= self.tiles.len(),
                self.has(best),
                forall|k: int| 0 <= k < i ==> best <= (#[trigger] self@[k]).id.val,
            decreases self.tiles.len() - i,
        {
            if self.tiles[i].id.val < best {
                best = self.tiles[i].id.val;
                assert(self@[i as int].id.val == best);
            }
            i += 1;
        }
        Some(TileId { val: best })
    }
}

} // verus!
