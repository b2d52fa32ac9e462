//! Sets of chunk coordinates and sets of tickets, as the ticket index keeps
//! them and as callers hand them in.

use super::chunk::ChunkCoord;
use super::hashed::{
    ids_contains, ids_in, ids_insert, ids_is_empty, ids_len, ids_new, ids_remove, pairs_contains,
    pairs_difference, pairs_in, pairs_insert, pairs_is_empty, pairs_len, pairs_new, pairs_remove,
};
use super::ticket::Ticket;
use ahash::AHashSet;
use vstd::prelude::*;
use vstd::set_lib::lemma_map_size;

verus! {

/// The coordinate that a pair of numbers stands for.
pub open spec fn coord_of(pair: (usize, usize)) -> ChunkCoord {
    ChunkCoord { x: pair.0, y: pair.1 }
}

/// A set of chunk coordinates.
pub struct CoordSet {
    items: AHashSet<(usize, usize)>,
}

impl View for CoordSet {
    type V = Set<ChunkCoord>;

    closed spec fn view(&self) -> Set<ChunkCoord> {
        Set::new(|c: ChunkCoord| pairs_in(self.items).contains((c.x, c.y)))
    }
}

impl CoordSet {
    /// A set that holds nothing.
    pub fn new() -> (s: CoordSet)
        ensures
            s@ == Set::<ChunkCoord>::empty(),
    {
        let s = CoordSet { items: pairs_new() };
        assert(s@ =~= Set::<ChunkCoord>::empty());
        s
    }

    /// Puts `coord` into the set; says whether it was new.
    pub fn insert(&mut self, coord: ChunkCoord) -> (fresh: bool)
        ensures
            final(self)@ == old(self)@.insert(coord),
            fresh == !old(self)@.contains(coord),
    {
        let fresh = pairs_insert(&mut self.items, (coord.x, coord.y));
        assert(self@ =~= old(self)@.insert(coord));
        fresh
    }

    /// Takes `coord` out of the set; says whether it was there.
    pub fn remove(&mut self, coord: &ChunkCoord) -> (found: bool)
        ensures
            final(self)@ == old(self)@.remove(*coord),
            found == old(self)@.contains(*coord),
    {
        let found = pairs_remove(&mut self.items, (coord.x, coord.y));
        assert(self@ =~= old(self)@.remove(*coord));
        found
    }

    /// Whether the set holds `coord`.
    pub fn contains(&self, coord: &ChunkCoord) -> (found: bool)
        ensures
            found == self@.contains(*coord),
    {
        pairs_contains(&self.items, (coord.x, coord.y))
    }

    /// Whether the set holds nothing.
    pub fn is_empty(&self) -> (empty: bool)
        ensures
            empty == self@.is_empty(),
    {
        let empty = pairs_is_empty(&self.items);
        proof {
            if empty {
                assert(self@ =~= Set::<ChunkCoord>::empty());
            } else {
                let p = choose|p: (usize, usize)| pairs_in(self.items).contains(p);
                assert(self@.contains(coord_of(p)));
            }
        }
        empty
    }

    /// How many coordinates the set holds; they are finitely many.
    pub fn len(&self) -> (n: usize)
        ensures
            self@.finite(),
            n == self@.len(),
    {
        let n = pairs_len(&self.items);
        proof {
            let pairs = pairs_in(self.items);
            let f = |p: (usize, usize)| coord_of(p);
            assert forall|c: ChunkCoord| pairs.map(f).contains(c) <==> self@.contains(c) by {
                if self@.contains(c) {
                    assert(pairs.contains((c.x, c.y)) && c == f((c.x, c.y)));
                }
            }
            assert(pairs.map(f) =~= self@);
            lemma_map_size(pairs, self@, f);
        }
        n
    }

    /// The coordinates that this set holds and `other` does not, each once,
    /// in no particular order.
    pub fn difference(&self, other: &CoordSet) -> (coords: Vec<ChunkCoord>)
        ensures
            coords@.no_duplicates(),
            coords@.to_set() == self@.difference(other@),
    {
        let pairs = pairs_difference(&self.items, &other.items);
        let mut coords: Vec<ChunkCoord> = Vec::new();
        let mut i: usize = 0;
        while i < pairs.len()
            invariant
                i <= pairs.len(),
                coords@.len() == i,
                forall|j: int| 0 <= j < i ==> coords@[j] == coord_of(#[trigger] pairs@[j]),
            decreases pairs.len() - i,
        {
            let p = pairs[i];
            coords.push(ChunkCoord { x: p.0, y: p.1 });
            i += 1;
        }
        proof {
            let wanted = pairs_in(self.items).difference(pairs_in(other.items));
            assert forall|i: int, j: int|
                0 <= i < coords@.len() && 0 <= j < coords@.len() && i != j implies coords@[i]
                != coords@[j] by {
                assert(pairs@[i] != pairs@[j]);
            }
            assert forall|c: ChunkCoord| coords@.to_set().contains(c) <==> self@.difference(
                other@,
            ).contains(c) by {
                if coords@.contains(c) {
                    let j = choose|j: int| 0 <= j < coords@.len() && coords@[j] == c;
                    assert(pairs@.contains(pairs@[j]));
                    assert(pairs@.to_set().contains(pairs@[j]));
                }
                if self@.difference(other@).contains(c) {
                    assert(wanted.contains((c.x, c.y)));
                    assert(pairs@.to_set().contains((c.x, c.y)));
                    let j = choose|j: int| 0 <= j < pairs@.len() && pairs@[j] == (c.x, c.y);
                    assert(coords@[j] == c);
                }
            }
            assert(coords@.to_set() =~= self@.difference(other@));
        }
        coords
    }
}

/// A set of tickets.
pub struct TicketSet {
    items: AHashSet<usize>,
}

impl View for TicketSet {
    type V = Set<Ticket>;

    closed spec fn view(&self) -> Set<Ticket> {
        Set::new(|t: Ticket| ids_in(self.items).contains(t.number()))
    }
}

impl TicketSet {
    /// A set that holds nothing.
    pub fn new() -> (s: TicketSet)
        ensures
            s@ == Set::<Ticket>::empty(),
    {
        let s = TicketSet { items: ids_new() };
        assert(s@ =~= Set::<Ticket>::empty());
        s
    }

    /// Puts `ticket` into the set; says whether it was new.
    pub fn insert(&mut self, ticket: Ticket) -> (fresh: bool)
        ensures
            final(self)@ == old(self)@.insert(ticket),
            fresh == !old(self)@.contains(ticket),
    {
        let fresh = ids_insert(&mut self.items, ticket.number_of());
        proof {
            Ticket::lemma_number_injective();
            assert(self@ =~= old(self)@.insert(ticket));
        }
        fresh
    }

    /// Takes `ticket` out of the set; says whether it was there.
    pub fn remove(&mut self, ticket: &Ticket) -> (found: bool)
        ensures
            final(self)@ == old(self)@.remove(*ticket),
            found == old(self)@.contains(*ticket),
    {
        let found = ids_remove(&mut self.items, ticket.number_of());
        proof {
            Ticket::lemma_number_injective();
            assert(self@ =~= old(self)@.remove(*ticket));
        }
        found
    }

    /// Whether the set holds `ticket`.
    pub fn contains(&self, ticket: &Ticket) -> (found: bool)
        ensures
            found == self@.contains(*ticket),
    {
        ids_contains(&self.items, ticket.number_of())
    }

    /// Whether the set holds nothing.
    pub fn is_empty(&self) -> (empty: bool)
        ensures
            empty == self@.is_empty(),
    {
        let empty = ids_is_empty(&self.items);
        proof {
            if empty {
                assert(self@ =~= Set::<Ticket>::empty());
            } else {
                let n = choose|n: usize| ids_in(self.items).contains(n);
                Ticket::lemma_number_injective();
                assert(self@.contains(Ticket::numbered(n)));
            }
        }
        empty
    }

    /// How many tickets the set holds; they are finitely many.
    pub fn len(&self) -> (n: usize)
        ensures
            self@.finite(),
            n == self@.len(),
    {
        let n = ids_len(&self.items);
        proof {
            let ids = ids_in(self.items);
            let f = |i: usize| Ticket::numbered(i);
            Ticket::lemma_number_injective();
            assert forall|t: Ticket| ids.map(f).contains(t) <==> self@.contains(t) by {
                if self@.contains(t) {
                    assert(ids.contains(t.number()) && t == f(t.number()));
                }
            }
            assert(ids.map(f) =~= self@);
            assert forall|i: usize, j: usize| #[trigger] f(i) == #[trigger] f(j) implies i == j by {
                assert(Ticket::numbered(i).number() == i);
                assert(Ticket::numbered(j).number() == j);
            }
            lemma_map_size(ids, self@, f);
        }
        n
    }
}

} // verus!
