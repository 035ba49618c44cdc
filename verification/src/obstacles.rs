//! Obstacle query: a read-only view over a chunk's collision set, answering
//! whether a tile position is blocked by a wall.

use vstd::prelude::*;

use crate::grid::Pos;

verus! {

/// One wall record of the collision set. A wall occupies exactly one tile
/// and exposes the tile-aligned position of that tile.
#[derive(Clone, Copy, Debug)]
pub struct Wall {
    pub pos: Pos,
}

impl Wall {
    /// A wall occupying the tile at `pos`.
    pub fn new(pos: Pos) -> (r: Wall)
        ensures
            r.pos == pos,
    {
        Wall { pos }
    }
}

/// The collision set of one chunk of the world: an ordered collection of
/// walls. The planners only ever read it; the world mutates it between
/// planning calls (terrain damage removes walls).
#[derive(Debug)]
pub struct Chunk {
    pub colliders: Vec<Wall>,
}

impl Chunk {
    /// Some wall of the collision set sits exactly at coordinates `(x, y)`.
    pub open spec fn blocks_at(self, x: int, y: int) -> bool {
        exists|k: int|
            0 <= k < self.colliders@.len() && self.colliders@[k].pos.x == x
                && self.colliders@[k].pos.y == y
    }

    /// Some wall of the collision set occupies exactly the tile at `p`.
    pub open spec fn blocks(self, p: Pos) -> bool {
        self.blocks_at(p.x as int, p.y as int)
    }

    /// A chunk with no walls at all.
    pub fn new() -> (r: Chunk)
        ensures
            r.colliders@.len() == 0,
            forall|p: Pos| !r.blocks(p),
    {
        Chunk { colliders: Vec::new() }
    }

    /// A chunk whose collision set is exactly `colliders`.
    pub fn from_walls(colliders: Vec<Wall>) -> (r: Chunk)
        ensures
            r.colliders@ == colliders@,
    {
        Chunk { colliders }
    }

    /// True iff some wall occupies exactly the tile at `p`.
    pub fn is_blocked(&self, p: Pos) -> (r: bool)
        ensures
            r == self.blocks(p),
    {
        let mut k: usize = 0;
        while k < self.colliders.len()
            invariant
                0 <= k <= self.colliders@.len(),
                forall|m: int| 0 <= m < k ==> self.colliders@[m].pos != p,
            decreases self.colliders@.len() - k,
        {
            if self.colliders[k].pos == p {
                return true;
            }
            k = k + 1;
        }
        false
    }
}

} // verus!
