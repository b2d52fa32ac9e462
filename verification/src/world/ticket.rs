//! Tickets and the index of who claims what. A ticket stands for one observer
//! of the world; the index records, in both directions, which tickets claim
//! which chunk coordinates.

use super::chunk::ChunkCoord;
use super::hashed::{
    claims_by_ticket, claims_get, claims_get_mut, claims_insert, claims_new, holders_by_chunk,
    holders_get, holders_get_mut, holders_insert, holders_new, holders_remove,
};
use super::sets::{CoordSet, TicketSet};
use crate::id::{Entity, Id};
use ahash::AHashMap;
use vstd::prelude::*;

verus! {

/// A claim handle: it stands for the observer whose identifier it wraps.
#[derive(Eq, PartialEq, Hash, Clone, Copy, Debug)]
pub struct Ticket(Id<Entity>);

impl Ticket {
    /// The observer this ticket stands for.
    pub closed spec fn holder(self) -> Id<Entity> {
        self.0
    }

    /// The number of the observer this ticket stands for.
    pub open spec fn number(self) -> usize {
        self.holder().value()
    }

    /// The ticket of the observer with the given number.
    pub closed spec fn numbered(n: usize) -> Ticket {
        Ticket(Id::numbered(n))
    }

    /// Tickets and observer numbers correspond one to one.
    pub proof fn lemma_number_injective()
        ensures
            forall|a: Ticket, b: Ticket| a.number() == b.number() ==> a == b,
            forall|n: usize| #[trigger] Ticket::numbered(n).number() == n,
            forall|t: Ticket| #[trigger] Ticket::numbered(t.number()) == t,
    {
        assert forall|a: Ticket, b: Ticket| a.number() == b.number() implies a == b by {
            Id::lemma_value_injective(a.0, b.0);
        }
        assert forall|n: usize| #[trigger] Ticket::numbered(n).number() == n by {
            Id::<Entity>::lemma_numbered(n);
        }
        assert forall|t: Ticket| #[trigger] Ticket::numbered(t.number()) == t by {
            Id::<Entity>::lemma_numbered(t.number());
            Id::lemma_value_injective(Ticket::numbered(t.number()).0, t.0);
        }
    }

    /// The observer this ticket stands for.
    pub fn entity(&self) -> (id: Id<Entity>)
        ensures
            id == self.holder(),
    {
        self.0
    }

    pub(crate) fn number_of(&self) -> (n: usize)
        ensures
            n == self.number(),
    {
        self.0.index()
    }

    pub(crate) fn of(entity: Id<Entity>) -> (t: Ticket)
        ensures
            t.holder() == entity,
    {
        Ticket(entity)
    }
}

/// What a ticket index records: for each chunk coordinate that has an entry,
/// the tickets claiming it, and for each ticket that has an entry, the
/// coordinates it claims. A key without an entry counts as a key with an empty
/// set, except to those who ask whether the entry is there.
pub struct TicketIndex {
    pub by_chunk: Map<ChunkCoord, Set<Ticket>>,
    pub by_ticket: Map<Ticket, Set<ChunkCoord>>,
}

impl TicketIndex {
    /// The index without entries.
    pub open spec fn empty() -> TicketIndex {
        TicketIndex { by_chunk: Map::empty(), by_ticket: Map::empty() }
    }

    /// The tickets that claim `coord`; none where `coord` has no entry.
    pub open spec fn tickets_of(self, coord: ChunkCoord) -> Set<Ticket> {
        if self.by_chunk.contains_key(coord) {
            self.by_chunk[coord]
        } else {
            Set::empty()
        }
    }

    /// The coordinates that `ticket` claims; none where `ticket` has no
    /// entry.
    pub open spec fn coords_of(self, ticket: Ticket) -> Set<ChunkCoord> {
        if self.by_ticket.contains_key(ticket) {
            self.by_ticket[ticket]
        } else {
            Set::empty()
        }
    }

    /// The two directions agree: a ticket is among the claimants of a
    /// coordinate exactly when the coordinate is among the claims of the
    /// ticket.
    pub open spec fn dual(self) -> bool {
        forall|t: Ticket, c: ChunkCoord| #[trigger]
            self.tickets_of(c).contains(t) <==> #[trigger] self.coords_of(t).contains(c)
    }

    /// Every entry is a finite set.
    pub open spec fn finite(self) -> bool {
        &&& forall|c: ChunkCoord| #[trigger]
            self.by_chunk.contains_key(c) ==> self.by_chunk[c].finite()
        &&& forall|t: Ticket| #[trigger]
            self.by_ticket.contains_key(t) ==> self.by_ticket[t].finite()
    }

    /// The index after `ticket` has claimed `coord`.
    pub open spec fn add(self, ticket: Ticket, coord: ChunkCoord) -> TicketIndex {
        TicketIndex {
            by_chunk: self.by_chunk.insert(coord, self.tickets_of(coord).insert(ticket)),
            by_ticket: self.by_ticket.insert(ticket, self.coords_of(ticket).insert(coord)),
        }
    }

    /// The index after `ticket` has given up `coord`. Entries stay, even
    /// where their set has become empty; where there is no entry, nothing
    /// changes.
    pub open spec fn remove(self, ticket: Ticket, coord: ChunkCoord) -> TicketIndex {
        TicketIndex {
            by_chunk: if self.by_chunk.contains_key(coord) {
                self.by_chunk.insert(coord, self.by_chunk[coord].remove(ticket))
            } else {
                self.by_chunk
            },
            by_ticket: if self.by_ticket.contains_key(ticket) {
                self.by_ticket.insert(ticket, self.by_ticket[ticket].remove(coord))
            } else {
                self.by_ticket
            },
        }
    }

    /// The index after the entry of `coord` has been deleted.
    pub open spec fn remove_chunk(self, coord: ChunkCoord) -> TicketIndex {
        TicketIndex { by_chunk: self.by_chunk.remove(coord), by_ticket: self.by_ticket }
    }

    /// The index after the claims of `ticket` have been overwritten, on the
    /// ticket's side only.
    pub open spec fn set_coords(self, ticket: Ticket, coords: Set<ChunkCoord>) -> TicketIndex {
        TicketIndex { by_chunk: self.by_chunk, by_ticket: self.by_ticket.insert(ticket, coords) }
    }

    /// A claim keeps a dual index dual.
    pub proof fn lemma_add_dual(self, ticket: Ticket, coord: ChunkCoord)
        requires
            self.dual(),
        ensures
            self.add(ticket, coord).dual(),
    {
        let after = self.add(ticket, coord);
        assert forall|t: Ticket, c: ChunkCoord| #[trigger]
            after.tickets_of(c).contains(t) <==> #[trigger] after.coords_of(t).contains(c) by {
            assert(self.tickets_of(c).contains(t) <==> self.coords_of(t).contains(c));
        }
    }

    /// Giving up a claim keeps a dual index dual.
    pub proof fn lemma_remove_dual(self, ticket: Ticket, coord: ChunkCoord)
        requires
            self.dual(),
        ensures
            self.remove(ticket, coord).dual(),
    {
        let after = self.remove(ticket, coord);
        assert forall|t: Ticket, c: ChunkCoord| #[trigger]
            after.tickets_of(c).contains(t) <==> #[trigger] after.coords_of(t).contains(c) by {
            assert(self.tickets_of(c).contains(t) <==> self.coords_of(t).contains(c));
            assert(self.tickets_of(coord).contains(ticket) <==> self.coords_of(ticket).contains(
                coord,
            ));
        }
    }

    /// Deleting the entry of a coordinate that nobody claims keeps a dual
    /// index dual.
    pub proof fn lemma_remove_chunk_dual(self, coord: ChunkCoord)
        requires
            self.dual(),
            self.tickets_of(coord).is_empty(),
        ensures
            self.remove_chunk(coord).dual(),
    {
        let after = self.remove_chunk(coord);
        assert forall|t: Ticket, c: ChunkCoord| #[trigger]
            after.tickets_of(c).contains(t) <==> #[trigger] after.coords_of(t).contains(c) by {
            assert(self.tickets_of(c).contains(t) <==> self.coords_of(t).contains(c));
        }
    }

    /// No step makes a finite entry infinite.
    pub proof fn lemma_steps_finite(self, ticket: Ticket, coord: ChunkCoord)
        requires
            self.finite(),
        ensures
            self.add(ticket, coord).finite(),
            self.remove(ticket, coord).finite(),
            self.remove_chunk(coord).finite(),
    {
    }

    /// Claiming twice is claiming once.
    pub proof fn lemma_add_idempotent(self, ticket: Ticket, coord: ChunkCoord)
        ensures
            self.add(ticket, coord).add(ticket, coord) == self.add(ticket, coord),
    {
        let once = self.add(ticket, coord);
        let twice = once.add(ticket, coord);
        assert(once.tickets_of(coord).insert(ticket) =~= once.tickets_of(coord));
        assert(once.coords_of(ticket).insert(coord) =~= once.coords_of(ticket));
        assert(twice.by_chunk =~= once.by_chunk);
        assert(twice.by_ticket =~= once.by_ticket);
    }

    /// Giving up a claim that was never made changes nothing.
    pub proof fn lemma_remove_absent(self, ticket: Ticket, coord: ChunkCoord)
        requires
            !self.tickets_of(coord).contains(ticket),
            !self.coords_of(ticket).contains(coord),
        ensures
            self.remove(ticket, coord) == self,
    {
        let after = self.remove(ticket, coord);
        if self.by_chunk.contains_key(coord) {
            assert(self.by_chunk[coord].remove(ticket) =~= self.by_chunk[coord]);
        }
        if self.by_ticket.contains_key(ticket) {
            assert(self.by_ticket[ticket].remove(coord) =~= self.by_ticket[ticket]);
        }
        assert(after.by_chunk =~= self.by_chunk);
        assert(after.by_ticket =~= self.by_ticket);
    }
}

/// One step in the life of a ticket index: a claim made or given up.
pub enum TicketOp {
    Add(Ticket, ChunkCoord),
    Remove(Ticket, ChunkCoord),
}

impl TicketIndex {
    /// The index after one step.
    pub open spec fn step(self, op: TicketOp) -> TicketIndex {
        match op {
            TicketOp::Add(t, c) => self.add(t, c),
            TicketOp::Remove(t, c) => self.remove(t, c),
        }
    }

    /// The index after the steps `ops`, first to last.
    pub open spec fn run(self, ops: Seq<TicketOp>) -> TicketIndex
        decreases ops.len(),
    {
        if ops.len() == 0 {
            self
        } else {
            self.run(ops.drop_last()).step(ops.last())
        }
    }

    /// Whatever claims are made and given up, in whatever order, a dual
    /// index stays dual.
    pub proof fn lemma_run_dual(self, ops: Seq<TicketOp>)
        requires
            self.dual(),
        ensures
            self.run(ops).dual(),
        decreases ops.len(),
    {
        if ops.len() > 0 {
            self.lemma_run_dual(ops.drop_last());
            let before = self.run(ops.drop_last());
            match ops.last() {
                TicketOp::Add(t, c) => {
                    before.lemma_add_dual(t, c);
                },
                TicketOp::Remove(t, c) => {
                    before.lemma_remove_dual(t, c);
                },
            }
        }
    }

    /// In an index that started without entries, after any claims made and
    /// given up, in any order, a ticket is among the claimants of a
    /// coordinate exactly when the coordinate is among the claims of the
    /// ticket.
    pub proof fn lemma_duality(ops: Seq<TicketOp>, ticket: Ticket, coord: ChunkCoord)
        ensures
            TicketIndex::empty().run(ops).tickets_of(coord).contains(ticket)
                <==> TicketIndex::empty().run(ops).coords_of(ticket).contains(coord),
    {
        TicketIndex::empty().lemma_run_dual(ops);
    }
}

/// The index of who claims what, kept in both directions.
pub struct TicketManager {
    by_chunk: AHashMap<(usize, usize), TicketSet>,
    by_ticket: AHashMap<usize, CoordSet>,
}

impl View for TicketManager {
    type V = TicketIndex;

    closed spec fn view(&self) -> TicketIndex {
        TicketIndex {
            by_chunk: Map::new(
                |c: ChunkCoord| holders_by_chunk(self.by_chunk).contains_key((c.x, c.y)),
                |c: ChunkCoord| holders_by_chunk(self.by_chunk)[(c.x, c.y)]@,
            ),
            by_ticket: Map::new(
                |t: Ticket| claims_by_ticket(self.by_ticket).contains_key(t.number()),
                |t: Ticket| claims_by_ticket(self.by_ticket)[t.number()]@,
            ),
        }
    }
}

impl Default for TicketManager {
    /// An index without entries.
    fn default() -> (manager: TicketManager)
        ensures
            manager@ == TicketIndex::empty(),
            manager@.dual(),
            manager@.finite(),
    {
        let manager = TicketManager { by_chunk: holders_new(), by_ticket: claims_new() };
        proof {
            assert(manager@.by_chunk =~= TicketIndex::empty().by_chunk);
            assert(manager@.by_ticket =~= TicketIndex::empty().by_ticket);
        }
        manager
    }
}

impl TicketManager {
    /// The ticket of the observer `entity`: the same observer always gets
    /// the same ticket, and the index is not touched.
    pub fn new_ticket(&mut self, entity: Id<Entity>) -> (ticket: Ticket)
        ensures
            ticket.holder() == entity,
            *final(self) == *old(self),
    {
        Ticket::of(entity)
    }

    /// Records that `ticket` claims `chunk`, in both directions.
    pub fn add(&mut self, ticket: Ticket, chunk: ChunkCoord)
        ensures
            final(self)@ == old(self)@.add(ticket, chunk),
            old(self)@.dual() ==> final(self)@.dual(),
            old(self)@.finite() ==> final(self)@.finite(),
    {
        match claims_get_mut(&mut self.by_ticket, ticket.number_of()) {
            Some(coords) => {
                coords.insert(chunk);
            },
            None => {
                let mut coords = CoordSet::new();
                coords.insert(chunk);
                claims_insert(&mut self.by_ticket, ticket.number_of(), coords);
            },
        }
        match holders_get_mut(&mut self.by_chunk, (chunk.x, chunk.y)) {
            Some(tickets) => {
                tickets.insert(ticket);
            },
            None => {
                let mut tickets = TicketSet::new();
                tickets.insert(ticket);
                holders_insert(&mut self.by_chunk, (chunk.x, chunk.y), tickets);
            },
        }
        proof {
            Ticket::lemma_number_injective();
            let wanted = old(self)@.add(ticket, chunk);
            assert(self@.by_chunk =~= wanted.by_chunk);
            assert(self@.by_ticket =~= wanted.by_ticket);
            if old(self)@.dual() {
                old(self)@.lemma_add_dual(ticket, chunk);
            }
            if old(self)@.finite() {
                old(self)@.lemma_steps_finite(ticket, chunk);
            }
        }
    }

    /// Records that `ticket` no longer claims `chunk`, in both directions.
    /// Where nothing of the kind was recorded, nothing changes; an entry
    /// whose set becomes empty stays.
    pub fn remove(&mut self, ticket: Ticket, chunk: ChunkCoord)
        ensures
            final(self)@ == old(self)@.remove(ticket, chunk),
            old(self)@.dual() ==> final(self)@.dual(),
            old(self)@.finite() ==> final(self)@.finite(),
    {
        match claims_get_mut(&mut self.by_ticket, ticket.number_of()) {
            Some(coords) => {
                coords.remove(&chunk);
            },
            None => {},
        }
        match holders_get_mut(&mut self.by_chunk, (chunk.x, chunk.y)) {
            Some(tickets) => {
                tickets.remove(&ticket);
            },
            None => {},
        }
        proof {
            Ticket::lemma_number_injective();
            let wanted = old(self)@.remove(ticket, chunk);
            assert(self@.by_chunk =~= wanted.by_chunk);
            assert(self@.by_ticket =~= wanted.by_ticket);
            if old(self)@.dual() {
                old(self)@.lemma_remove_dual(ticket, chunk);
            }
            if old(self)@.finite() {
                old(self)@.lemma_steps_finite(ticket, chunk);
            }
        }
    }

    /// Deletes the entry of `coord` and hands back the tickets it held.
    pub fn remove_chunk(&mut self, coord: &ChunkCoord) -> (tickets: Option<TicketSet>)
        ensures
            final(self)@ == old(self)@.remove_chunk(*coord),
            old(self)@.finite() ==> final(self)@.finite(),
            match tickets {
                Some(set) => old(self)@.by_chunk.contains_key(*coord) && set@ == old(
                    self,
                )@.by_chunk[*coord],
                None => !old(self)@.by_chunk.contains_key(*coord),
            },
    {
        let tickets = holders_remove(&mut self.by_chunk, (coord.x, coord.y));
        proof {
            let wanted = old(self)@.remove_chunk(*coord);
            assert(self@.by_chunk =~= wanted.by_chunk);
            assert(self@.by_ticket =~= wanted.by_ticket);
        }
        tickets
    }

    /// The tickets that claim `coord`: `None` where `coord` has no entry,
    /// which is not the same as an entry with an empty set.
    pub fn get_tickets(&self, coord: &ChunkCoord) -> (tickets: Option<&TicketSet>)
        ensures
            match tickets {
                Some(set) => self@.by_chunk.contains_key(*coord) && set@ == self@.by_chunk[*coord],
                None => !self@.by_chunk.contains_key(*coord),
            },
    {
        holders_get(&self.by_chunk, (coord.x, coord.y))
    }

    /// The coordinates that `ticket` claims: `None` where `ticket` has no
    /// entry, which is not the same as an entry with an empty set.
    pub fn get_coords(&self, ticket: &Ticket) -> (coords: Option<&CoordSet>)
        ensures
            match coords {
                Some(set) => self@.by_ticket.contains_key(*ticket) && set@
                    == self@.by_ticket[*ticket],
                None => !self@.by_ticket.contains_key(*ticket),
            },
    {
        claims_get(&self.by_ticket, ticket.number_of())
    }

    /// Overwrites the claims of `ticket`, on the ticket's side only: the
    /// claimants of the coordinates are left as they are.
    pub fn set_coords(&mut self, ticket: Ticket, coords: CoordSet)
        ensures
            final(self)@ == old(self)@.set_coords(ticket, coords@),
            old(self)@.finite() && coords@.finite() ==> final(self)@.finite(),
    {
        claims_insert(&mut self.by_ticket, ticket.number_of(), coords);
        proof {
            Ticket::lemma_number_injective();
            let wanted = old(self)@.set_coords(ticket, coords@);
            assert(self@.by_chunk =~= wanted.by_chunk);
            assert(self@.by_ticket =~= wanted.by_ticket);
        }
    }
}

} // verus!
