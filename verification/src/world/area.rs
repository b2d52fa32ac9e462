//! Square areas of the chunk grid: the chunks within some radius of a centre,
//! handed out one by one, row by row.

use super::chunk::ChunkCoord;
use super::sets::CoordSet;
use vstd::arithmetic::div_mod::{lemma_fundamental_div_mod, lemma_fundamental_div_mod_converse};
use vstd::arithmetic::mul::lemma_mul_is_distributive_add_other_way;
use vstd::prelude::*;

verus! {

/// The coordinates of the rectangle from `start` to `end`, both included, row
/// by row: `y` ascending, and within a row `x` ascending.
pub open spec fn rows(start: ChunkCoord, end: ChunkCoord) -> Seq<ChunkCoord>
    recommends
        start.x <= end.x,
        start.y <= end.y,
{
    let width = end.x - start.x + 1;
    let height = end.y - start.y + 1;
    Seq::new(
        (width * height) as nat,
        |i: int|
            ChunkCoord { x: (start.x + i % width) as usize, y: (start.y + i / width) as usize },
    )
}

/// Whether `c` lies in the rectangle from `start` to `end`, both included.
pub open spec fn within(c: ChunkCoord, start: ChunkCoord, end: ChunkCoord) -> bool {
    start.x <= c.x <= end.x && start.y <= c.y <= end.y
}

/// Where the coordinate `c` of the rectangle stands in [`rows`].
pub open spec fn rank(c: ChunkCoord, start: ChunkCoord, end: ChunkCoord) -> int {
    (c.y - start.y) * (end.x - start.x + 1) + (c.x - start.x)
}

/// A coordinate of the rectangle stands in [`rows`] at its [`rank`].
pub proof fn lemma_rows_at_rank(c: ChunkCoord, start: ChunkCoord, end: ChunkCoord)
    requires
        within(c, start, end),
    ensures
        0 <= rank(c, start, end) < rows(start, end).len(),
        rows(start, end)[rank(c, start, end)] == c,
{
    let width = end.x - start.x + 1;
    let height = end.y - start.y + 1;
    let row = c.y - start.y;
    let col = c.x - start.x;
    let i = rank(c, start, end);
    assert(0 <= row * width) by (nonlinear_arith)
        requires
            0 <= row,
            0 < width,
    ;
    assert(row * width + width <= height * width) by (nonlinear_arith)
        requires
            0 <= row < height,
            0 < width,
    ;
    assert(height * width == width * height) by (nonlinear_arith);
    lemma_fundamental_div_mod_converse(i, width, row, col);
}

/// Every entry of [`rows`] lies in the rectangle, at the index that is its
/// [`rank`].
pub proof fn lemma_rows_entry(i: int, start: ChunkCoord, end: ChunkCoord)
    requires
        start.x <= end.x,
        start.y <= end.y,
        0 <= i < rows(start, end).len(),
    ensures
        within(rows(start, end)[i], start, end),
        rank(rows(start, end)[i], start, end) == i,
{
    let width = end.x - start.x + 1;
    let height = end.y - start.y + 1;
    lemma_fundamental_div_mod(i, width);
    assert(0 <= i % width < width);
    assert(0 <= i / width < height) by (nonlinear_arith)
        requires
            0 <= i < width * height,
            0 < width,
            i == width * (i / width) + i % width,
            0 <= i % width < width,
    ;
    assert(width * (i / width) == (i / width) * width) by (nonlinear_arith);
}

/// A rectangle is enumerated completely and without repetition: [`rows`] has
/// one entry for each of its `width * height` coordinates, no two equal, and
/// holds exactly the coordinates [`within`] it.
pub proof fn lemma_rows_cover(start: ChunkCoord, end: ChunkCoord)
    requires
        start.x <= end.x,
        start.y <= end.y,
    ensures
        rows(start, end).len() == (end.x - start.x + 1) * (end.y - start.y + 1),
        rows(start, end).no_duplicates(),
        forall|c: ChunkCoord| rows(start, end).contains(c) <==> within(c, start, end),
{
    let s = rows(start, end);
    let width = end.x - start.x + 1;
    let height = end.y - start.y + 1;
    assert(0 <= width * height) by (nonlinear_arith)
        requires
            0 < width,
            0 < height,
    ;
    assert forall|i: int, j: int| 0 <= i < s.len() && 0 <= j < s.len() && i != j implies s[i]
        != s[j] by {
        lemma_rows_entry(i, start, end);
        lemma_rows_entry(j, start, end);
    }
    assert forall|c: ChunkCoord| s.contains(c) <==> within(c, start, end) by {
        if s.contains(c) {
            let i = choose|i: int| 0 <= i < s.len() && s[i] == c;
            lemma_rows_entry(i, start, end);
        }
        if within(c, start, end) {
            lemma_rows_at_rank(c, start, end);
        }
    }
}

/// The square of side `2 * radius + 1` around `center`, where it neither
/// reaches below zero nor above the largest coordinate, has
/// `(2 * radius + 1)^2` coordinates, no two equal, each within `radius` of
/// the centre on both axes.
pub proof fn lemma_square_cover(center: ChunkCoord, radius: usize)
    requires
        radius <= center.x,
        radius <= center.y,
        center.x + radius <= usize::MAX,
        center.y + radius <= usize::MAX,
    ensures
        ({
            let s = rows(square_start(center, radius), square_end(center, radius));
            &&& s.len() == (2 * radius + 1) * (2 * radius + 1)
            &&& s.no_duplicates()
            &&& forall|c: ChunkCoord|
                s.contains(c) <==> (center.x - radius <= c.x <= center.x + radius && center.y
                    - radius <= c.y <= center.y + radius)
        }),
{
    let start = square_start(center, radius);
    let end = square_end(center, radius);
    let s = rows(start, end);
    lemma_rows_cover(start, end);
    assert(end.x - start.x + 1 == 2 * radius + 1);
    assert(end.y - start.y + 1 == 2 * radius + 1);
    assert(s.len() == (2 * radius + 1) * (2 * radius + 1));
    assert forall|c: ChunkCoord|
        s.contains(c) <==> (center.x - radius <= c.x <= center.x + radius && center.y - radius
            <= c.y <= center.y + radius) by {
        assert(s.contains(c) <==> within(c, start, end));
    }
}

/// Near the lower edge of the grid the square is cut off at zero: the area
/// then has `(min(center.x, radius) + radius + 1) * (min(center.y, radius) +
/// radius + 1)` coordinates, as long as it does not reach above the largest
/// coordinate.
pub proof fn lemma_square_clamped(center: ChunkCoord, radius: usize)
    requires
        center.x + radius <= usize::MAX,
        center.y + radius <= usize::MAX,
    ensures
        ({
            let s = rows(square_start(center, radius), square_end(center, radius));
            let left = if center.x < radius { center.x } else { radius };
            let below = if center.y < radius { center.y } else { radius };
            &&& s.len() == (left + radius + 1) * (below + radius + 1)
            &&& s.no_duplicates()
            &&& forall|c: ChunkCoord|
                s.contains(c) <==> (center.x - left <= c.x <= center.x + radius && center.y
                    - below <= c.y <= center.y + radius)
        }),
{
    let start = square_start(center, radius);
    let end = square_end(center, radius);
    let s = rows(start, end);
    let left = if center.x < radius { center.x } else { radius };
    let below = if center.y < radius { center.y } else { radius };
    lemma_rows_cover(start, end);
    assert(end.x - start.x + 1 == left + radius + 1);
    assert(end.y - start.y + 1 == below + radius + 1);
    assert(s.len() == (left + radius + 1) * (below + radius + 1));
    assert forall|c: ChunkCoord|
        s.contains(c) <==> (center.x - left <= c.x <= center.x + radius && center.y - below
            <= c.y <= center.y + radius) by {
        assert(s.contains(c) <==> within(c, start, end));
    }
}

/// The lowest corner of the square around `center`: `radius` below the centre
/// on both axes, but never below zero.
pub open spec fn square_start(center: ChunkCoord, radius: usize) -> ChunkCoord {
    ChunkCoord { x: center.x.saturating_sub(radius), y: center.y.saturating_sub(radius) }
}

/// The highest corner of the square around `center`: `radius` above the
/// centre on both axes, but never above the largest coordinate.
pub open spec fn square_end(center: ChunkCoord, radius: usize) -> ChunkCoord {
    ChunkCoord { x: center.x.saturating_add(radius), y: center.y.saturating_add(radius) }
}

/// The chunks of a square around a centre, handed out row by row.
pub struct QuadArea {
    start: ChunkCoord,
    end: ChunkCoord,
    cur: ChunkCoord,
    done: bool,
}

impl QuadArea {
    #[verifier::type_invariant]
    spec fn inv(self) -> bool {
        within(self.cur, self.start, self.end)
    }

    /// The lowest corner of the area.
    pub closed spec fn start(self) -> ChunkCoord {
        self.start
    }

    /// The highest corner of the area.
    pub closed spec fn end(self) -> ChunkCoord {
        self.end
    }

    /// The coordinates still to be handed out, in the order of [`rows`].
    pub closed spec fn remaining(self) -> Seq<ChunkCoord> {
        if self.done {
            Seq::empty()
        } else {
            rows(self.start, self.end).skip(rank(self.cur, self.start, self.end))
        }
    }

    /// The area of the given radius around `coord`, with nothing handed out
    /// yet. At the edges of the grid the square is cut off.
    pub fn new(coord: ChunkCoord, radius: usize) -> (area: QuadArea)
        ensures
            area.start() == square_start(coord, radius),
            area.end() == square_end(coord, radius),
            area.remaining() == rows(area.start(), area.end()),
    {
        let start = ChunkCoord {
            x: coord.x.saturating_sub(radius),
            y: coord.y.saturating_sub(radius),
        };

        let end = ChunkCoord {
            x: coord.x.saturating_add(radius),
            y: coord.y.saturating_add(radius),
        };

        assert(rows(start, end).skip(0) =~= rows(start, end));
        QuadArea { start, end, cur: start, done: false }
    }

    /// Hands out the next coordinate, or `None` once the last row is done.
    /// The cursor never leaves the area: after the last coordinate it stays
    /// where it is and the area is marked as done.
    pub fn next(&mut self) -> (item: Option<ChunkCoord>)
        ensures
            final(self).start() == old(self).start(),
            final(self).end() == old(self).end(),
            match item {
                Some(c) => old(self).remaining().len() > 0 && c == old(self).remaining()[0]
                    && final(self).remaining() == old(self).remaining().skip(1),
                None => old(self).remaining().len() == 0 && *final(self) == *old(self),
            },
    {
        proof {
            use_type_invariant(&*self);
        }
        if self.done {
            None
        } else {
            let ghost all = rows(self.start, self.end);
            let ghost at = rank(self.cur, self.start, self.end);
            let ghost width = self.end.x - self.start.x + 1;
            let ghost height = self.end.y - self.start.y + 1;
            let coord = self.cur;
            proof {
                lemma_rows_at_rank(coord, self.start, self.end);
                assert(all.skip(at).skip(1) =~= all.skip(at + 1));
            }
            if self.cur.x >= self.end.x {
                if self.cur.y >= self.end.y {
                    proof {
                        lemma_mul_is_distributive_add_other_way(width, height - 1, 1);
                        assert(width * height == height * width) by (nonlinear_arith);
                        assert(at + 1 == all.len());
                        assert(all.skip(at + 1) =~= Seq::<ChunkCoord>::empty());
                    }
                    self.done = true;
                } else {
                    proof {
                        lemma_mul_is_distributive_add_other_way(
                            width,
                            self.cur.y - self.start.y,
                            1,
                        );
                    }
                    self.cur = ChunkCoord { x: self.start.x, y: self.cur.y + 1 };
                }
            } else {
                self.cur = ChunkCoord { x: self.cur.x + 1, y: self.cur.y };
            }
            Some(coord)
        }
    }

    /// Everything still to be handed out, as a set.
    pub fn collect(self) -> (coords: CoordSet)
        ensures
            coords@ == self.remaining().to_set(),
    {
        let mut area = self;
        let mut coords = CoordSet::new();
        let ghost mut done: Seq<ChunkCoord> = Seq::empty();
        proof {
            assert(done.to_set() =~= Set::<ChunkCoord>::empty());
        }
        loop
            invariant
                done + area.remaining() == self.remaining(),
                coords@ == done.to_set(),
            decreases area.remaining().len(),
        {
            match area.next() {
                Some(c) => {
                    proof {
                        assert(done.push(c) + area.remaining() =~= self.remaining());
                        done.lemma_push_to_set_commute(c);
                        done = done.push(c);
                    }
                    coords.insert(c);
                },
                None => {
                    assert(done + area.remaining() =~= done);
                    return coords;
                },
            }
        }
    }

    /// Everything still to be handed out, in order.
    pub fn to_vec(self) -> (coords: Vec<ChunkCoord>)
        ensures
            coords@ == self.remaining(),
    {
        let mut area = self;
        let mut coords: Vec<ChunkCoord> = Vec::new();
        loop
            invariant
                coords@ + area.remaining() == self.remaining(),
            decreases area.remaining().len(),
        {
            match area.next() {
                Some(c) => {
                    proof {
                        let before = coords@;
                        let rest = area.remaining();
                        assert(before.push(c) + rest =~= self.remaining());
                    }
                    coords.push(c);
                },
                None => {
                    assert(coords@ + area.remaining() =~= coords@);
                    return coords;
                },
            }
        }
    }
}

} // verus!
