//! Chunk data: a chunk is a fixed-size square of tiles, possibly several
//! layers deep, addressed by its coordinate on the chunk grid.

use vstd::prelude::*;

verus! {

/// Tiles per chunk row.
pub const CHUNK_WIDTH: usize = 64;

/// Tile rows per chunk.
pub const CHUNK_HEIGHT: usize = 64;

/// Tiles in one layer of a chunk.
pub const CHUNK_TILES: usize = 4096;

/// Where a chunk lies on the chunk grid.
#[derive(Eq, PartialEq, Hash, Clone, Copy, Debug, Structural)]
pub struct ChunkCoord {
    pub x: usize,
    pub y: usize,
}

impl ChunkCoord {
    /// The coordinate of the chunk in column `x` of row `y`.
    pub fn new(x: usize, y: usize) -> (c: ChunkCoord)
        ensures
            c == (ChunkCoord { x, y }),
    {
        ChunkCoord { x, y }
    }
}

/// A single tile, as an index into a palette kept elsewhere.
#[derive(Clone, Copy)]
pub struct Tile(pub usize);

/// The tiles of one chunk: `depth` layers of `CHUNK_TILES` tiles each.
pub struct Chunk {
    pub data: Vec<[Tile; CHUNK_TILES]>,
    pub depth: usize,
}

impl Chunk {
    /// The layers of the chunk, each as the sequence of its tiles.
    pub open spec fn layers(&self) -> Seq<Seq<Tile>> {
        Seq::new(self.data@.len(), |i: int| self.data@[i]@)
    }

    /// `depth` counts the layers, and every layer is a full `CHUNK_WIDTH` by
    /// `CHUNK_HEIGHT` grid.
    pub open spec fn well_formed(&self) -> bool {
        &&& self.layers().len() == self.depth
        &&& forall|i: int|
            0 <= i < self.layers().len() ==> (#[trigger] self.layers()[i]).len() == CHUNK_WIDTH
                * CHUNK_HEIGHT
    }

    /// Every layer is a full grid, whatever `depth` says: a chunk is well
    /// formed as soon as `depth` counts its layers.
    pub proof fn lemma_layers_full(&self)
        ensures
            forall|i: int|
                0 <= i < self.layers().len() ==> (#[trigger] self.layers()[i]).len()
                    == CHUNK_WIDTH * CHUNK_HEIGHT,
            self.data@.len() == self.depth ==> self.well_formed(),
    {
    }
}

} // verus!
