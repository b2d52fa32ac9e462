//! The chunk manager: it loads a chunk when the first ticket claims its
//! coordinate and drops it a grace period after the last ticket has let go.

use super::chunk::{Chunk, ChunkCoord};
use super::clock::{Clock, NANOS_PER_SEC};
use super::generators::{asked_once_each, lemma_asked_none, lemma_asked_step, WorldGenerator};
use super::hashed::{
    chunks_by_pair, chunks_contains_key, chunks_get, chunks_insert, chunks_len, chunks_new,
    chunks_remove,
};
use super::residency::{due_count, evicted, lemma_due_count, lemma_evicted, Residency};
use super::sets::{coord_of, CoordSet};
use super::ticket::{Ticket, TicketManager};
use crate::id::{Entity, Id};
use ahash::AHashMap;
use std::collections::VecDeque;
use vstd::prelude::*;
use vstd::set_lib::lemma_map_size;

verus! {

/// The grace period, in seconds: how long a chunk that nobody claims stays
/// loaded.
pub const TIMEOUT_SECS: u64 = 2;

/// The grace period in nanoseconds, the unit of the manager's clock.
pub const TIMEOUT_NANOS: u128 = 2_000_000_000;

/// The grace period is the same in both units.
pub proof fn lemma_timeout_units()
    ensures
        TIMEOUT_NANOS == TIMEOUT_SECS * NANOS_PER_SEC,
{
}

/// A request to drop the chunk at `coord` once the clock has passed
/// `timeout`. The chunk is not dropped at once, so that a chunk given up and
/// claimed again shortly after need not be made twice.
#[derive(Clone, Copy, Debug, PartialEq, Eq, Structural)]
pub struct ChunkUnloadRequest {
    pub coord: ChunkCoord,
    pub timeout: u128,
}

impl ChunkUnloadRequest {
    /// The request made at the time `now`: it falls due a grace period later.
    pub fn new(coord: ChunkCoord, now: u128) -> (request: ChunkUnloadRequest)
        requires
            now + TIMEOUT_NANOS <= u128::MAX,
        ensures
            request.coord == coord,
            request.timeout == now + TIMEOUT_NANOS,
    {
        ChunkUnloadRequest { coord, timeout: now + TIMEOUT_NANOS }
    }
}

/// Loads chunks on demand and drops them when they are no longer needed.
pub struct ChunkManager<G: WorldGenerator> {
    chunks: AHashMap<(usize, usize), Chunk>,
    to_unload: VecDeque<ChunkUnloadRequest>,
    tickets: TicketManager,
    generator: G,
    clock: Clock,
}

impl<G: WorldGenerator> View for ChunkManager<G> {
    type V = Residency;

    closed spec fn view(&self) -> Residency {
        Residency {
            chunks: Map::new(
                |c: ChunkCoord| chunks_by_pair(self.chunks).contains_key((c.x, c.y)),
                |c: ChunkCoord| chunks_by_pair(self.chunks)[(c.x, c.y)],
            ),
            to_unload: self.to_unload@,
            tickets: self.tickets@,
        }
    }
}

impl<G: WorldGenerator> ChunkManager<G> {
    /// The generator that the manager owns.
    pub closed spec fn generator(&self) -> G {
        self.generator
    }

    /// What holds of every manager: its state is well formed, and where its
    /// generator is lawful, every loaded chunk is what the generator gives at
    /// its coordinate.
    pub open spec fn well_formed(&self) -> bool {
        &&& self@.well_formed()
        &&& self.generator().lawful() ==> forall|c: ChunkCoord| #[trigger]
            self@.is_loaded(c) ==> self@.chunks[c].well_formed() && self@.chunks[c].layers()
                == self.generator().layers_at(c)
    }

    /// A manager with nothing loaded, whose clock starts now.
    pub fn new(generator: G) -> (manager: Self)
        ensures
            manager@ == Residency::empty(),
            manager.generator() == generator,
            manager.well_formed(),
    {
        let manager = ChunkManager {
            chunks: chunks_new(),
            to_unload: VecDeque::new(),
            tickets: TicketManager::default(),
            generator,
            clock: Clock::new(),
        };
        proof {
            assert(manager@.chunks =~= Residency::empty().chunks);
        }
        manager
    }

    /// The ticket of the observer `entity`. The manager is not touched.
    pub fn new_ticket(&mut self, entity: Id<Entity>) -> (ticket: Ticket)
        ensures
            ticket.holder() == entity,
            *final(self) == *old(self),
    {
        self.tickets.new_ticket(entity)
    }

    /// The index of who claims what.
    pub fn tickets(&self) -> (tickets: &TicketManager)
        ensures
            tickets@ == self@.tickets,
    {
        &self.tickets
    }

    /// The requests that are waiting, oldest first.
    pub fn to_unload(&self) -> (queue: &VecDeque<ChunkUnloadRequest>)
        ensures
            queue@ == self@.to_unload,
    {
        &self.to_unload
    }

    /// The chunk at `coord`, if one is loaded there.
    pub fn chunk(&self, coord: &ChunkCoord) -> (chunk: Option<&Chunk>)
        ensures
            chunk == (if self@.is_loaded(*coord) {
                Some(&self@.chunks[*coord])
            } else {
                None
            }),
    {
        chunks_get(&self.chunks, (coord.x, coord.y))
    }

    /// Whether a chunk is loaded at `coord`.
    pub fn is_loaded(&self, coord: &ChunkCoord) -> (loaded: bool)
        ensures
            loaded == self@.is_loaded(*coord),
    {
        chunks_contains_key(&self.chunks, (coord.x, coord.y))
    }

    /// How many chunks are loaded; they are finitely many.
    pub fn loaded(&self) -> (n: usize)
        ensures
            self@.chunks.dom().finite(),
            n == self@.chunks.dom().len(),
    {
        let n = chunks_len(&self.chunks);
        proof {
            let pairs = chunks_by_pair(self.chunks).dom();
            let coords = self@.chunks.dom();
            let f = |p: (usize, usize)| coord_of(p);
            assert forall|c: ChunkCoord| pairs.map(f).contains(c) <==> coords.contains(c) by {
                if coords.contains(c) {
                    assert(pairs.contains((c.x, c.y)) && c == f((c.x, c.y)));
                }
            }
            assert(pairs.map(f) =~= coords);
            lemma_map_size(pairs, coords, f);
        }
        n
    }

    /// The time at which the manager acts when asked now: the reading of its
    /// clock, or, should the clock ever run backwards, the time at which the
    /// newest waiting request was made.
    pub fn now(&self) -> (now: u128)
        requires
            self.well_formed(),
        ensures
            self@.accepts(now),
            now + TIMEOUT_NANOS <= u128::MAX,
    {
        let reading = self.clock.now();
        let waiting = self.to_unload.len();
        if waiting == 0 {
            reading
        } else {
            let last = self.to_unload[waiting - 1].timeout;
            proof {
                let queue = self@.to_unload;
                assert(queue[waiting - 1].timeout >= TIMEOUT_NANOS);
                assert forall|i: int| 0 <= i < queue.len() implies (#[trigger] queue[i]).timeout
                    <= last by {
                    assert(queue[i].timeout <= queue[waiting - 1].timeout);
                }
            }
            let newest = last - TIMEOUT_NANOS;
            if reading < newest {
                newest
            } else {
                reading
            }
        }
    }

    /// Whether the manager can act at the time `now`: whether `now` is no
    /// earlier than the time at which the newest waiting request was made,
    /// and early enough for a grace period to follow it.
    pub fn accepts(&self, now: u128) -> (ok: bool)
        requires
            self.well_formed(),
        ensures
            ok == (self@.accepts(now) && now + TIMEOUT_NANOS <= u128::MAX),
    {
        if now > u128::MAX - TIMEOUT_NANOS {
            return false;
        }
        let waiting = self.to_unload.len();
        if waiting == 0 {
            true
        } else {
            let last = self.to_unload[waiting - 1].timeout;
            proof {
                let queue = self@.to_unload;
                assert(queue[waiting - 1].timeout == last);
                assert forall|i: int| 0 <= i < queue.len() implies (#[trigger] queue[i]).timeout
                    <= last by {
                    assert(queue[i].timeout <= queue[waiting - 1].timeout);
                }
            }
            last <= now + TIMEOUT_NANOS
        }
    }

    /// Claims `coord` for `ticket`. If no chunk is loaded there, the
    /// generator is asked for one, once; if one is, the generator is left
    /// alone.
    pub fn add_ticket(&mut self, ticket: Ticket, coord: ChunkCoord)
        requires
            old(self).well_formed(),
        ensures
            final(self).well_formed(),
            final(self)@ == old(self)@.add_ticket(ticket, coord, final(self)@.chunks[coord]),
            old(self)@.is_loaded(coord) ==> final(self).generator() == old(self).generator(),
            final(self).generator().lawful() == old(self).generator().lawful(),
            old(self).generator().lawful() ==> forall|c: ChunkCoord| #[trigger]
                final(self).generator().layers_at(c) == old(self).generator().layers_at(c),
            old(self).generator().lawful() && !old(self)@.is_loaded(coord)
                ==> final(self).generator().asked() == old(self).generator().asked().push(coord),
    {
        if !chunks_contains_key(&self.chunks, (coord.x, coord.y)) {
            let chunk = self.generator.generate(coord);
            chunks_insert(&mut self.chunks, (coord.x, coord.y), chunk);
        }
        self.tickets.add(ticket, coord);
        proof {
            let wanted = old(self)@.add_ticket(ticket, coord, self@.chunks[coord]);
            assert(self@.chunks =~= wanted.chunks);
            assert(self@ == wanted);
            old(self)@.lemma_add_ticket_well_formed(ticket, coord, self@.chunks[coord]);
            if self.generator().lawful() {
                assert forall|c: ChunkCoord| #[trigger] self@.is_loaded(c) implies self@.chunks[c]
                    .well_formed() && self@.chunks[c].layers() == self.generator().layers_at(c) by {
                    if c != coord || old(self)@.is_loaded(coord) {
                        assert(old(self)@.is_loaded(c));
                    }
                }
            }
        }
    }

    /// Gives up the claim of `ticket` on `coord`, at the time `now`. If that
    /// was the last claim on the coordinate, its chunk stays loaded for a
    /// grace period: a request to drop it joins the queue. Where the ticket
    /// had no such claim, nothing changes.
    pub fn remove_ticket_at(&mut self, ticket: Ticket, coord: ChunkCoord, now: u128)
        requires
            old(self).well_formed(),
            old(self)@.accepts(now),
            now + TIMEOUT_NANOS <= u128::MAX,
        ensures
            final(self).well_formed(),
            final(self)@ == old(self)@.remove_ticket(ticket, coord, now),
            final(self)@.accepts(now),
            final(self).generator() == old(self).generator(),
    {
        self.tickets.remove(ticket, coord);
        if let Some(tickets) = self.tickets.get_tickets(&coord) {
            if tickets.is_empty() {
                self.tickets.remove_chunk(&coord);
                self.to_unload.push_back(ChunkUnloadRequest::new(coord, now))
            }
        }
        proof {
            let wanted = old(self)@.remove_ticket(ticket, coord, now);
            assert(self@.chunks =~= wanted.chunks);
            assert(self@.to_unload =~= wanted.to_unload);
            assert(self@ == wanted);
            old(self)@.lemma_remove_ticket_well_formed(ticket, coord, now);
            if self.generator().lawful() {
                assert forall|c: ChunkCoord| #[trigger] self@.is_loaded(c) implies self@.chunks[c]
                    .well_formed() && self@.chunks[c].layers() == self.generator().layers_at(c) by {
                    assert(old(self)@.is_loaded(c));
                }
            }
        }
    }

    /// Gives up the claim of `ticket` on `coord`, now: at a time that the
    /// manager accepts, which is no earlier than the time at which the newest
    /// waiting request was made.
    pub fn remove_ticket(&mut self, ticket: Ticket, coord: ChunkCoord)
        requires
            old(self).well_formed(),
        ensures
            final(self).well_formed(),
            exists|now: u128|
                old(self)@.accepts(now) && now + TIMEOUT_NANOS <= u128::MAX && final(self)@
                    == #[trigger] old(self)@.remove_ticket(ticket, coord, now),
            final(self).generator() == old(self).generator(),
    {
        let now = self.now();
        self.remove_ticket_at(ticket, coord, now);
    }

    /// Makes the claims of `ticket` exactly `new_coords`, at the time `now`:
    /// first gives up, as [`Self::remove_ticket_at`] does, each claim that is
    /// no longer wanted, then makes, as [`Self::add_ticket`] does, each claim
    /// that is newly wanted. What the ticket claimed before does not matter
    /// to what it claims after.
    pub fn set_ticket_at(&mut self, ticket: Ticket, new_coords: CoordSet, now: u128)
        requires
            old(self).well_formed(),
            old(self)@.accepts(now),
            now + TIMEOUT_NANOS <= u128::MAX,
        ensures
            final(self).well_formed(),
            final(self)@.accepts(now),
            old(self)@.retargets(final(self)@, ticket, new_coords@, now),
            final(self).generator().lawful() == old(self).generator().lawful(),
            old(self).generator().lawful() ==> forall|c: ChunkCoord| #[trigger]
                final(self).generator().layers_at(c) == old(self).generator().layers_at(c),
            old(self).generator().lawful() ==> asked_once_each(
                old(self).generator().asked(),
                final(self).generator().asked(),
                new_coords@.difference(old(self)@.chunks.dom()),
            ),
    {
        let ghost start = self@;
        let ghost held = start.tickets.coords_of(ticket);
        let (removed_coords, added_coords) = match self.tickets.get_coords(&ticket) {
            Some(old_coords) => (
                old_coords.difference(&new_coords),
                new_coords.difference(old_coords),
            ),
            None => {
                let nothing = CoordSet::new();
                (nothing.difference(&new_coords), new_coords.difference(&nothing))
            },
        };
        proof {
            start.lemma_releases_none(ticket, now);
            assert(removed_coords@.take(0).to_set() =~= Set::<ChunkCoord>::empty());
        }
        let mut i: usize = 0;
        while i < removed_coords.len()
            invariant
                i <= removed_coords.len(),
                now + TIMEOUT_NANOS <= u128::MAX,
                self.well_formed(),
                self@.accepts(now),
                self.generator() == old(self).generator(),
                start.well_formed(),
                held == start.tickets.coords_of(ticket),
                removed_coords@.no_duplicates(),
                removed_coords@.to_set() == held.difference(new_coords@),
                added_coords@.no_duplicates(),
                start.releases(self@, ticket, removed_coords@.take(i as int).to_set(), now),
            decreases removed_coords.len() - i,
        {
            let removed = removed_coords[i];
            let ghost mid = self@;
            self.remove_ticket_at(ticket, removed, now);
            proof {
                let before = removed_coords@.take(i as int);
                assert(removed_coords@.contains(removed));
                assert(removed_coords@.to_set().contains(removed));
                if before.contains(removed) {
                    let k = choose|k: int| 0 <= k < before.len() && before[k] == removed;
                    assert(removed_coords@[k] == removed_coords@[i as int]);
                }
                start.lemma_releases_step(mid, ticket, before.to_set(), removed, now);
                assert(removed_coords@.take(i + 1) =~= before.push(removed));
                before.lemma_push_to_set_commute(removed);
            }
            i += 1;
        }
        let ghost mid = self@;
        let ghost loaded = start.chunks.dom();
        proof {
            assert(removed_coords@.take(removed_coords@.len() as int) =~= removed_coords@);
            mid.lemma_claims_none(ticket);
            assert(added_coords@.take(0).to_set() =~= Set::<ChunkCoord>::empty());
            lemma_asked_none(self.generator().asked());
            assert(Set::<ChunkCoord>::empty().difference(loaded) =~= Set::<ChunkCoord>::empty());
        }
        let mut j: usize = 0;
        while j < added_coords.len()
            invariant
                j <= added_coords.len(),
                self.well_formed(),
                self@.accepts(now),
                self.generator().lawful() == old(self).generator().lawful(),
                old(self).generator().lawful() ==> forall|c: ChunkCoord| #[trigger]
                    self.generator().layers_at(c) == old(self).generator().layers_at(c),
                added_coords@.no_duplicates(),
                mid.chunks.dom() == loaded,
                mid.claims(self@, ticket, added_coords@.take(j as int).to_set()),
                old(self).generator().lawful() ==> asked_once_each(
                    old(self).generator().asked(),
                    self.generator().asked(),
                    added_coords@.take(j as int).to_set().difference(loaded),
                ),
            decreases added_coords.len() - j,
        {
            let added = added_coords[j];
            let ghost earlier = self@;
            let ghost asked = self.generator().asked();
            self.add_ticket(ticket, added);
            proof {
                let before = added_coords@.take(j as int);
                if before.contains(added) {
                    let k = choose|k: int| 0 <= k < before.len() && before[k] == added;
                    assert(added_coords@[k] == added_coords@[j as int]);
                }
                let fresh_before = before.to_set().difference(loaded);
                let fresh_after = before.to_set().insert(added).difference(loaded);
                assert(earlier.is_loaded(added) <==> loaded.contains(added));
                if old(self).generator().lawful() {
                    if loaded.contains(added) {
                        assert(fresh_after =~= fresh_before);
                    } else {
                        assert(fresh_after =~= fresh_before.insert(added));
                        lemma_asked_step(
                            old(self).generator().asked(),
                            asked,
                            fresh_before,
                            added,
                        );
                    }
                }
                let fresh = self@.chunks[added];
                mid.lemma_claims_step(earlier, ticket, before.to_set(), added, fresh);
                assert(added_coords@.take(j + 1) =~= before.push(added));
                before.lemma_push_to_set_commute(added);
            }
            j += 1;
        }
        proof {
            assert(added_coords@.take(added_coords@.len() as int) =~= added_coords@);
            start.lemma_retargets(mid, self@, ticket, new_coords@, now);
            assert(new_coords@.difference(held).difference(loaded) =~= new_coords@.difference(
                loaded,
            )) by {
                assert forall|c: ChunkCoord| new_coords@.contains(c) && held.contains(c) implies
                    loaded.contains(c) by {
                    assert(start.tickets.tickets_of(c).contains(ticket));
                    assert(start.is_claimed(c));
                }
            }
        }
    }

    /// Makes the claims of `ticket` exactly `new_coords`, now: at a time that
    /// the manager accepts.
    pub fn set_ticket(&mut self, ticket: Ticket, new_coords: CoordSet)
        requires
            old(self).well_formed(),
        ensures
            final(self).well_formed(),
            exists|now: u128|
                old(self)@.accepts(now) && now + TIMEOUT_NANOS <= u128::MAX
                    && #[trigger] old(self)@.retargets(final(self)@, ticket, new_coords@, now),
            final(self).generator().lawful() == old(self).generator().lawful(),
            old(self).generator().lawful() ==> forall|c: ChunkCoord| #[trigger]
                final(self).generator().layers_at(c) == old(self).generator().layers_at(c),
            old(self).generator().lawful() ==> asked_once_each(
                old(self).generator().asked(),
                final(self).generator().asked(),
                new_coords@.difference(old(self)@.chunks.dom()),
            ),
    {
        let now = self.now();
        self.set_ticket_at(ticket, new_coords, now);
    }

    /// Drops what is due at the time `now`: takes the requests whose deadline
    /// has passed off the front of the queue, up to the first that is not yet
    /// due, and for each drops the chunk at its coordinate, unless somebody
    /// has claimed the coordinate again or the chunk is gone already. Returns
    /// the dropped chunks in the order of their requests.
    pub fn flush_at(&mut self, now: u128) -> (chunks: Vec<Chunk>)
        requires
            old(self).well_formed(),
        ensures
            final(self).well_formed(),
            final(self)@ == old(self)@.flush(now),
            chunks@ == old(self)@.flushed(now),
            final(self).generator() == old(self).generator(),
            forall|c: ChunkCoord| #[trigger]
                old(self)@.is_claimed(c) ==> final(self)@.is_loaded(c) && final(self)@.chunks[c]
                    == old(self)@.chunks[c],
    {
        let mut chunks: Vec<Chunk> = Vec::new();
        let ghost start = self@;
        let ghost loaded = start.chunks.dom();
        let ghost claimed = start.tickets.by_chunk.dom();
        let ghost mut done: int = 0;
        loop
            invariant
                self.generator() == old(self).generator(),
                self@.tickets == start.tickets,
                0 <= done <= start.to_unload.len(),
                self@.to_unload == start.to_unload.skip(done),
                forall|i: int| 0 <= i < done ==> (#[trigger] start.to_unload[i]).timeout < now,
                self@.chunks == start.chunks.remove_keys(
                    evicted(loaded, claimed, start.to_unload.take(done)).to_set(),
                ),
                chunks@ == evicted(loaded, claimed, start.to_unload.take(done)).map_values(
                    |c: ChunkCoord| start.chunks[c],
                ),
                loaded == start.chunks.dom(),
                claimed == start.tickets.by_chunk.dom(),
            ensures
                done == due_count(start.to_unload, now),
            decreases start.to_unload.len() - done,
        {
            if self.to_unload.len() == 0 {
                proof {
                    lemma_due_count(start.to_unload, now, done as nat);
                }
                break ;
            }
            let request = self.to_unload[0];
            assert(request == start.to_unload[done]);
            if !(request.timeout < now) {
                proof {
                    lemma_due_count(start.to_unload, now, done as nat);
                }
                break ;
            }
            let ghost before = evicted(loaded, claimed, start.to_unload.take(done));
            let ghost after = evicted(loaded, claimed, start.to_unload.take(done + 1));
            proof {
                assert(start.to_unload.take(done + 1).drop_last() =~= start.to_unload.take(done));
                assert(start.to_unload.take(done + 1).last() == request);
            }
            let ghost held = self@.chunks;
            let ghost out = chunks@;
            self.to_unload.pop_front();
            if self.tickets.get_tickets(&request.coord).is_none() {
                if let Some(chunk) = chunks_remove(
                    &mut self.chunks,
                    (request.coord.x, request.coord.y),
                ) {
                    chunks.push(chunk);
                }
            }
            proof {
                let c = request.coord;
                assert(self@.to_unload =~= start.to_unload.skip(done + 1));
                assert(held.contains_key(c) <==> loaded.contains(c) && !before.contains(c));
                if loaded.contains(c) && !claimed.contains(c) && !before.contains(c) {
                    assert(after == before.push(c));
                    before.lemma_push_to_set_commute(c);
                    assert(self@.chunks =~= held.remove(c));
                    assert(held[c] == start.chunks[c]);
                    assert(chunks@ =~= out.push(held[c]));
                } else {
                    assert(after == before);
                    assert(self@.chunks =~= held);
                    assert(chunks@ == out);
                }
                assert(self@.chunks =~= start.chunks.remove_keys(after.to_set()));
                assert(chunks@ =~= after.map_values(|c: ChunkCoord| start.chunks[c]));
                done = done + 1;
            }
        }
        proof {
            assert(self@.to_unload =~= start.flush(now).to_unload);
            assert(self@ == start.flush(now));
            start.lemma_flush_well_formed(now);
            lemma_evicted(loaded, claimed, start.due(now));
            if self.generator().lawful() {
                assert forall|c: ChunkCoord| #[trigger] self@.is_loaded(c) implies self@.chunks[c]
                    .well_formed() && self@.chunks[c].layers() == self.generator().layers_at(c) by {
                    assert(old(self)@.is_loaded(c));
                }
            }
        }
        chunks
    }

    /// Drops what is due now: at a time that the manager accepts, which is no
    /// earlier than the time at which the newest waiting request was made, so
    /// that every request made more than a grace period before it is due.
    pub fn flush(&mut self) -> (chunks: Vec<Chunk>)
        requires
            old(self).well_formed(),
        ensures
            final(self).well_formed(),
            exists|now: u128|
                old(self)@.accepts(now) && now + TIMEOUT_NANOS <= u128::MAX && final(self)@
                    == #[trigger] old(self)@.flush(now) && chunks@ == old(self)@.flushed(now),
            final(self).generator() == old(self).generator(),
            forall|c: ChunkCoord| #[trigger]
                old(self)@.is_claimed(c) ==> final(self)@.is_loaded(c) && final(self)@.chunks[c]
                    == old(self)@.chunks[c],
    {
        let now = self.now();
        self.flush_at(now)
    }
}

} // verus!
