//! World generation: where chunks come from.

use super::chunk::{Chunk, ChunkCoord, Tile, CHUNK_HEIGHT, CHUNK_TILES, CHUNK_WIDTH};
use vstd::prelude::*;

verus! {

/// A source of chunks. A generator is asked for the chunk at a coordinate and
/// must answer, with the same tiles whenever it is asked for the same
/// coordinate.
///
/// That last demand cannot be checked at run time. A generator that has been
/// verified to meet it says so by giving `lawful`, `layers_at` and `asked`
/// bodies of its own, as [`FlatGenerator`] does; the chunk manager then says
/// which tiles each loaded chunk holds and how often the generator was asked.
/// Of a generator that leaves the three as they are, nothing is assumed.
pub trait WorldGenerator {
    /// Whether this generator is known to generate what [`Self::layers_at`]
    /// says.
    open spec fn lawful(&self) -> bool {
        false
    }

    /// The layers of the chunk at `coord`, each as the sequence of its tiles.
    /// It means something only for a lawful generator.
    open spec fn layers_at(&self, coord: ChunkCoord) -> Seq<Seq<Tile>> {
        Seq::empty()
    }

    /// The coordinates that this generator has been asked for so far, in the
    /// order of the asking. It means something only for a lawful generator,
    /// which keeps count.
    open spec fn asked(&self) -> Seq<ChunkCoord> {
        Seq::empty()
    }

    /// Generates the chunk at `coord`. A lawful generator returns a well
    /// formed chunk with the layers that `layers_at` gives, will return the
    /// same at every coordinate ever after, and has then been asked once
    /// more, for `coord`.
    fn generate(&mut self, coord: ChunkCoord) -> (chunk: Chunk)
        ensures
            final(self).lawful() == old(self).lawful(),
            old(self).lawful() ==> chunk.well_formed() && chunk.layers() == old(self).layers_at(
                coord,
            ),
            old(self).lawful() ==> forall|c: ChunkCoord| #[trigger]
                final(self).layers_at(c) == old(self).layers_at(c),
            old(self).lawful() ==> final(self).asked() == old(self).asked().push(coord),
    ;
}

/// A boxed generator generates what the generator in the box does.
impl<G: WorldGenerator + ?Sized> WorldGenerator for Box<G> {
    open spec fn lawful(&self) -> bool {
        (**self).lawful()
    }

    open spec fn layers_at(&self, coord: ChunkCoord) -> Seq<Seq<Tile>> {
        (**self).layers_at(coord)
    }

    open spec fn asked(&self) -> Seq<ChunkCoord> {
        (**self).asked()
    }

    fn generate(&mut self, coord: ChunkCoord) -> (chunk: Chunk) {
        (**self).generate(coord)
    }
}

/// A world of one tile: every chunk is one layer, filled with the same tile.
/// It is lawful, and keeps count of what it was asked for.
pub struct FlatGenerator {
    tile: Tile,
    asked: Ghost<Seq<ChunkCoord>>,
}

impl FlatGenerator {
    /// The tile that fills the world.
    pub closed spec fn tile(&self) -> Tile {
        self.tile
    }

    /// A generator of the world filled with `tile`, not asked for anything
    /// yet.
    pub fn new(tile: Tile) -> (generator: FlatGenerator)
        ensures
            generator.tile() == tile,
            generator.asked() == Seq::<ChunkCoord>::empty(),
    {
        FlatGenerator { tile, asked: Ghost(Seq::empty()) }
    }
}

impl WorldGenerator for FlatGenerator {
    open spec fn lawful(&self) -> bool {
        true
    }

    open spec fn layers_at(&self, coord: ChunkCoord) -> Seq<Seq<Tile>> {
        seq![Seq::new(CHUNK_TILES as nat, |i: int| self.tile())]
    }

    closed spec fn asked(&self) -> Seq<ChunkCoord> {
        self.asked@
    }

    fn generate(&mut self, coord: ChunkCoord) -> (chunk: Chunk)
        ensures
            final(self).tile() == old(self).tile(),
    {
        let layer: [Tile; CHUNK_TILES] = [self.tile;CHUNK_TILES];
        let mut data: Vec<[Tile; CHUNK_TILES]> = Vec::new();
        data.push(layer);
        let chunk = Chunk { data, depth: 1 };
        self.asked = Ghost(self.asked@.push(coord));
        assert(chunk.layers() =~~= self.layers_at(coord));
        chunk
    }
}

/// Whether `after` is `before` followed by each coordinate in `fresh` once,
/// in any order, and by nothing else.
pub open spec fn asked_once_each(
    before: Seq<ChunkCoord>,
    after: Seq<ChunkCoord>,
    fresh: Set<ChunkCoord>,
) -> bool {
    let kept = before.len() as int;
    let tail = after.skip(kept);
    &&& after.len() >= kept
    &&& after.take(kept) == before
    &&& tail.no_duplicates()
    &&& tail.to_set() == fresh
}

/// Nothing asked is nothing more.
pub proof fn lemma_asked_none(before: Seq<ChunkCoord>)
    ensures
        asked_once_each(before, before, Set::empty()),
{
    assert(before.take(before.len() as int) =~= before);
    assert(before.skip(before.len() as int).to_set() =~= Set::<ChunkCoord>::empty());
}

/// One more coordinate asked for, which was not asked for before.
pub proof fn lemma_asked_step(
    before: Seq<ChunkCoord>,
    mid: Seq<ChunkCoord>,
    fresh: Set<ChunkCoord>,
    coord: ChunkCoord,
)
    requires
        asked_once_each(before, mid, fresh),
        !fresh.contains(coord),
    ensures
        asked_once_each(before, mid.push(coord), fresh.insert(coord)),
{
    let kept = before.len() as int;
    let tail = mid.skip(kept);
    let longer = mid.push(coord).skip(kept);
    assert(mid.push(coord).take(kept) =~= mid.take(kept));
    assert(longer =~= tail.push(coord));
    tail.lemma_push_to_set_commute(coord);
    assert(!tail.to_set().contains(coord));
    assert forall|i: int, j: int|
        0 <= i < longer.len() && 0 <= j < longer.len() && i != j implies longer[i]
        != longer[j] by {
        if i < tail.len() {
            assert(tail.contains(longer[i]));
        }
        if j < tail.len() {
            assert(tail.contains(longer[j]));
        }
    }
}

/// Where in a layer the tile in column `x` of row `y` stands.
pub open spec fn tile_index(x: int, y: int) -> int {
    CHUNK_HEIGHT * y + x
}

/// Whether a chunk at `coord` has room on the tile grid: whether the
/// positions of all its tiles, counted from the world's corner, are numbers
/// that the machine has.
pub open spec fn on_tile_grid(coord: ChunkCoord) -> bool {
    &&& coord.x * CHUNK_WIDTH + CHUNK_WIDTH - 1 <= usize::MAX
    &&& coord.y * CHUNK_HEIGHT + CHUNK_HEIGHT - 1 <= usize::MAX
}

/// Whether a chunk at `coord` has room on the tile grid.
pub fn is_on_tile_grid(coord: &ChunkCoord) -> (ok: bool)
    ensures
        ok == on_tile_grid(*coord),
{
    let last_x: usize = (usize::MAX - (CHUNK_WIDTH - 1)) / CHUNK_WIDTH;
    let last_y: usize = (usize::MAX - (CHUNK_HEIGHT - 1)) / CHUNK_HEIGHT;
    coord.x <= last_x && coord.y <= last_y
}

/// Builds the chunk at `coord` tile by tile: one layer, in which the tile in
/// column `x` of row `y` is what `tile_at` returns for the position of that
/// tile in the world, `coord.x * CHUNK_WIDTH + x` across and
/// `coord.y * CHUNK_HEIGHT + y` down. The tiles are asked for row by row.
pub fn generate_by_tile<F: Fn(usize, usize) -> Tile>(coord: ChunkCoord, tile_at: F) -> (chunk:
    Chunk)
    requires
        on_tile_grid(coord),
        forall|across: usize, down: usize| call_requires(tile_at, (across, down)),
    ensures
        chunk.well_formed(),
        chunk.depth == 1,
        chunk.layers()[0].len() == CHUNK_TILES,
        forall|x: int, y: int|
            0 <= x < CHUNK_WIDTH && 0 <= y < CHUNK_HEIGHT ==> call_ensures(
                tile_at,
                ((coord.x * CHUNK_WIDTH + x) as usize, (coord.y * CHUNK_HEIGHT + y) as usize),
                #[trigger] chunk.layers()[0][tile_index(x, y)],
            ),
{
    let mut data: [Tile; CHUNK_TILES] = [Tile(0);CHUNK_TILES];
    let mut y: usize = 0;
    while y < CHUNK_HEIGHT
        invariant
            y <= CHUNK_HEIGHT,
            on_tile_grid(coord),
            forall|across: usize, down: usize| call_requires(tile_at, (across, down)),
            forall|i: int, j: int|
                0 <= i < CHUNK_WIDTH && 0 <= j < y ==> call_ensures(
                    tile_at,
                    ((coord.x * CHUNK_WIDTH + i) as usize, (coord.y * CHUNK_HEIGHT + j) as usize),
                    #[trigger] data@[tile_index(i, j)],
                ),
        decreases CHUNK_HEIGHT - y,
    {
        let mut x: usize = 0;
        while x < CHUNK_WIDTH
            invariant
                x <= CHUNK_WIDTH,
                y < CHUNK_HEIGHT,
                on_tile_grid(coord),
                forall|across: usize, down: usize| call_requires(tile_at, (across, down)),
                forall|i: int, j: int|
                    0 <= i < CHUNK_WIDTH && 0 <= j < CHUNK_HEIGHT && (j < y || (j == y && i < x))
                        ==> call_ensures(
                        tile_at,
                        (
                            (coord.x * CHUNK_WIDTH + i) as usize,
                            (coord.y * CHUNK_HEIGHT + j) as usize,
                        ),
                        #[trigger] data@[tile_index(i, j)],
                    ),
            decreases CHUNK_WIDTH - x,
        {
            let index = CHUNK_HEIGHT * y + x;
            let tile = tile_at(coord.x * CHUNK_WIDTH + x, coord.y * CHUNK_HEIGHT + y);
            let ghost before = data@;
            data[index] = tile;
            proof {
                assert forall|i: int, j: int|
                    0 <= i < CHUNK_WIDTH && 0 <= j < CHUNK_HEIGHT && (j < y || (j == y && i < x
                        + 1)) implies call_ensures(
                    tile_at,
                    ((coord.x * CHUNK_WIDTH + i) as usize, (coord.y * CHUNK_HEIGHT + j) as usize),
                    #[trigger] data@[tile_index(i, j)],
                ) by {
                    if j == y && i == x {
                        assert(tile_index(i, j) == index);
                    } else {
                        assert(tile_index(i, j) != index);
                        assert(data@[tile_index(i, j)] == before[tile_index(i, j)]);
                    }
                }
            }
            x += 1;
        }
        y += 1;
    }
    let mut layers: Vec<[Tile; CHUNK_TILES]> = Vec::new();
    layers.push(data);
    let chunk = Chunk { data: layers, depth: 1 };
    proof {
        assert(chunk.layers()[0] == data@);
    }
    chunk
}

} // verus!
