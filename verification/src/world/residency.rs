//! The life of a chunk, as a state machine: which chunks are loaded, who
//! claims them, and which are waiting to be dropped.
//!
//! A coordinate is *unloaded* (no chunk), *claimed* (a chunk, and an entry in
//! the ticket index) or *pending* (a chunk, no entry, and a request in the
//! unload queue). The functions here say what each operation of the chunk
//! manager does to that state; the lemmas say what follows.

use super::chunk::{Chunk, ChunkCoord};
use super::manager::{ChunkUnloadRequest, TIMEOUT_NANOS};
use super::ticket::{Ticket, TicketIndex};
use vstd::prelude::*;

verus! {

/// How many requests at the front of `queue` are due at `now`: all those
/// before the first whose deadline has not passed. A deadline has passed
/// when `now` is later, not when `now` has just reached it.
pub open spec fn due_count(queue: Seq<ChunkUnloadRequest>, now: u128) -> nat
    decreases queue.len(),
{
    if queue.len() > 0 && queue[0].timeout < now {
        1 + due_count(queue.skip(1), now)
    } else {
        0
    }
}

/// The coordinates whose chunks the requests `due` drop, in the order in
/// which they go: a request drops the chunk at its coordinate if there is
/// one, if nobody claims the coordinate, and if no earlier request has
/// dropped it already.
pub open spec fn evicted(
    loaded: Set<ChunkCoord>,
    claimed: Set<ChunkCoord>,
    due: Seq<ChunkUnloadRequest>,
) -> Seq<ChunkCoord>
    decreases due.len(),
{
    if due.len() == 0 {
        Seq::empty()
    } else {
        let before = evicted(loaded, claimed, due.drop_last());
        let coord = due.last().coord;
        if loaded.contains(coord) && !claimed.contains(coord) && !before.contains(coord) {
            before.push(coord)
        } else {
            before
        }
    }
}

/// `due_count` is the length of the longest run of due requests at the front.
pub proof fn lemma_due_count(queue: Seq<ChunkUnloadRequest>, now: u128, n: nat)
    requires
        n <= queue.len(),
        forall|i: int| 0 <= i < n ==> (#[trigger] queue[i]).timeout < now,
        n < queue.len() ==> queue[n as int].timeout >= now,
    ensures
        due_count(queue, now) == n,
    decreases n,
{
    if n > 0 {
        let rest = queue.skip(1);
        assert forall|i: int| 0 <= i < n - 1 implies (#[trigger] rest[i]).timeout < now by {
            assert(rest[i] == queue[i + 1]);
        }
        lemma_due_count(rest, now, (n - 1) as nat);
    }
}

/// The requests that `due_count` counts are due, and the next one is not.
pub proof fn lemma_due_count_bounds(queue: Seq<ChunkUnloadRequest>, now: u128)
    ensures
        due_count(queue, now) <= queue.len(),
        forall|i: int| 0 <= i < due_count(queue, now) ==> (#[trigger] queue[i]).timeout < now,
        due_count(queue, now) < queue.len() ==> queue[due_count(queue, now) as int].timeout
            >= now,
    decreases queue.len(),
{
    if queue.len() > 0 && queue[0].timeout < now {
        let rest = queue.skip(1);
        lemma_due_count_bounds(rest, now);
        assert forall|i: int| 0 <= i < due_count(queue, now) implies (#[trigger] queue[i]).timeout
            < now by {
            if i > 0 {
                assert(queue[i] == rest[i - 1]);
            }
        }
        if due_count(queue, now) < queue.len() {
            assert(queue[due_count(queue, now) as int] == rest[due_count(rest, now) as int]);
        }
    }
}

/// In a queue ordered by deadline, once the last request is due all are.
pub proof fn lemma_all_due(queue: Seq<ChunkUnloadRequest>, now: u128)
    requires
        queue.len() > 0,
        forall|i: int, j: int|
            0 <= i <= j < queue.len() ==> (#[trigger] queue[i]).timeout <= (
            #[trigger] queue[j]).timeout,
        queue.last().timeout < now,
    ensures
        due_count(queue, now) == queue.len(),
{
    assert forall|i: int| 0 <= i < queue.len() implies (#[trigger] queue[i]).timeout < now by {
        assert(queue[i].timeout <= queue[queue.len() - 1].timeout);
    }
    lemma_due_count(queue, now, queue.len());
}

/// What `evicted` lists: each coordinate once, and exactly the coordinates
/// of the requests that are loaded and that nobody claims.
pub proof fn lemma_evicted(
    loaded: Set<ChunkCoord>,
    claimed: Set<ChunkCoord>,
    due: Seq<ChunkUnloadRequest>,
)
    ensures
        evicted(loaded, claimed, due).no_duplicates(),
        forall|c: ChunkCoord| #[trigger]
            evicted(loaded, claimed, due).contains(c) <==> (loaded.contains(c)
                && !claimed.contains(c) && exists|i: int|
                0 <= i < due.len() && (#[trigger] due[i]).coord == c),
    decreases due.len(),
{
    let out = evicted(loaded, claimed, due);
    if due.len() > 0 {
        let front = due.drop_last();
        let before = evicted(loaded, claimed, front);
        let coord = due.last().coord;
        lemma_evicted(loaded, claimed, front);
        assert forall|c: ChunkCoord| #[trigger]
            out.contains(c) <==> (loaded.contains(c) && !claimed.contains(c) && exists|i: int|
                0 <= i < due.len() && (#[trigger] due[i]).coord == c) by {
            if out.contains(c) {
                if before.contains(c) {
                    let i = choose|i: int| 0 <= i < front.len() && (#[trigger] front[i]).coord == c;
                    assert(due[i].coord == c);
                } else {
                    let k = choose|k: int| 0 <= k < out.len() && out[k] == c;
                    assert(out == before.push(coord));
                    if k < before.len() {
                        assert(before[k] == c);
                    }
                    assert(c == coord);
                    assert(due[due.len() - 1].coord == c);
                }
            }
            if loaded.contains(c) && !claimed.contains(c) && exists|i: int|
                0 <= i < due.len() && (#[trigger] due[i]).coord == c {
                let i = choose|i: int| 0 <= i < due.len() && (#[trigger] due[i]).coord == c;
                if i < front.len() {
                    assert(front[i].coord == c);
                    assert(before.contains(c));
                    let k = choose|k: int| 0 <= k < before.len() && before[k] == c;
                    if out != before {
                        assert(out[k] == c);
                    }
                } else {
                    assert(c == coord);
                    if !before.contains(c) {
                        assert(out[before.len() as int] == c);
                    }
                }
            }
        }
        if out != before {
            assert forall|i: int, j: int|
                0 <= i < out.len() && 0 <= j < out.len() && i != j implies out[i] != out[j] by {
                if i < before.len() {
                    assert(before.contains(out[i]));
                }
                if j < before.len() {
                    assert(before.contains(out[j]));
                }
            }
        }
    }
}

/// Where a coordinate stands in the life of its chunk.
pub enum Stage {
    /// No chunk is loaded there.
    Unloaded,
    /// A chunk is loaded there and somebody claims it.
    Claimed,
    /// A chunk is loaded there, nobody claims it, and a request to drop it
    /// is waiting.
    Pending,
}

/// Which chunks are loaded, which requests to drop one are waiting, and who
/// claims what.
pub struct Residency {
    pub chunks: Map<ChunkCoord, Chunk>,
    pub to_unload: Seq<ChunkUnloadRequest>,
    pub tickets: TicketIndex,
}

impl Residency {
    /// Nothing loaded, nothing waiting, nothing claimed.
    pub open spec fn empty() -> Residency {
        Residency { chunks: Map::empty(), to_unload: Seq::empty(), tickets: TicketIndex::empty() }
    }

    /// Whether there is a chunk at `coord`.
    pub open spec fn is_loaded(self, coord: ChunkCoord) -> bool {
        self.chunks.contains_key(coord)
    }

    /// Whether the ticket index has an entry for `coord`.
    pub open spec fn is_claimed(self, coord: ChunkCoord) -> bool {
        self.tickets.by_chunk.contains_key(coord)
    }

    /// Whether a request to drop the chunk at `coord` is waiting.
    pub open spec fn is_pending(self, coord: ChunkCoord) -> bool {
        exists|i: int|
            0 <= i < self.to_unload.len() && (#[trigger] self.to_unload[i]).coord == coord
    }

    /// Where `coord` stands.
    pub open spec fn stage(self, coord: ChunkCoord) -> Stage {
        if !self.is_loaded(coord) {
            Stage::Unloaded
        } else if self.is_claimed(coord) {
            Stage::Claimed
        } else {
            Stage::Pending
        }
    }

    /// The queue is in the order of its deadlines.
    pub open spec fn in_order(self) -> bool {
        forall|i: int, j: int|
            0 <= i <= j < self.to_unload.len() ==> (#[trigger] self.to_unload[i]).timeout <= (
            #[trigger] self.to_unload[j]).timeout
    }

    /// Whether a request made at `now` may join the queue: no request already
    /// in it was made later.
    pub open spec fn accepts(self, now: u128) -> bool {
        forall|i: int|
            0 <= i < self.to_unload.len() ==> (#[trigger] self.to_unload[i]).timeout <= now
                + TIMEOUT_NANOS
    }

    /// What holds of every state that the chunk manager reaches: the ticket
    /// index is dual, its entries are finite, and no coordinate has an empty
    /// one; what is claimed is loaded; what is loaded is claimed or waits to
    /// be dropped; and the queue is in the order of its deadlines, each a
    /// full grace period after some moment.
    pub open spec fn well_formed(self) -> bool {
        &&& self.tickets.dual()
        &&& self.tickets.finite()
        &&& forall|c: ChunkCoord| #[trigger]
            self.is_claimed(c) ==> self.is_loaded(c) && !self.tickets.by_chunk[c].is_empty()
        &&& forall|c: ChunkCoord| #[trigger]
            self.is_loaded(c) ==> self.is_claimed(c) || self.is_pending(c)
        &&& self.in_order()
        &&& forall|i: int|
            0 <= i < self.to_unload.len() ==> (#[trigger] self.to_unload[i]).timeout
                >= TIMEOUT_NANOS
        &&& self.chunks.dom().finite()
    }

    /// The state after `ticket` has claimed `coord`. Where no chunk was
    /// loaded there, `fresh` is: the chunk that the generator gave.
    pub open spec fn add_ticket(
        self,
        ticket: Ticket,
        coord: ChunkCoord,
        fresh: Chunk,
    ) -> Residency {
        Residency {
            chunks: if self.is_loaded(coord) {
                self.chunks
            } else {
                self.chunks.insert(coord, fresh)
            },
            to_unload: self.to_unload,
            tickets: self.tickets.add(ticket, coord),
        }
    }

    /// The state after `ticket` has given up `coord` at the time `now`. Where
    /// that leaves the coordinate with an entry and no ticket, the entry goes
    /// and a request to drop the chunk joins the queue, due a grace period
    /// after `now`.
    pub open spec fn remove_ticket(
        self,
        ticket: Ticket,
        coord: ChunkCoord,
        now: u128,
    ) -> Residency {
        let tickets = self.tickets.remove(ticket, coord);
        if tickets.by_chunk.contains_key(coord) && tickets.by_chunk[coord].is_empty() {
            Residency {
                chunks: self.chunks,
                to_unload: self.to_unload.push(
                    ChunkUnloadRequest { coord, timeout: (now + TIMEOUT_NANOS) as u128 },
                ),
                tickets: tickets.remove_chunk(coord),
            }
        } else {
            Residency { chunks: self.chunks, to_unload: self.to_unload, tickets }
        }
    }

    /// The requests that a flush at `now` takes off the queue.
    pub open spec fn due(self, now: u128) -> Seq<ChunkUnloadRequest> {
        self.to_unload.take(due_count(self.to_unload, now) as int)
    }

    /// The coordinates whose chunks a flush at `now` drops, in order.
    pub open spec fn dropped(self, now: u128) -> Seq<ChunkCoord> {
        evicted(self.chunks.dom(), self.tickets.by_chunk.dom(), self.due(now))
    }

    /// The chunks that a flush at `now` hands back, in order.
    pub open spec fn flushed(self, now: u128) -> Seq<Chunk> {
        self.dropped(now).map_values(|c: ChunkCoord| self.chunks[c])
    }

    /// The state after a flush at `now`.
    pub open spec fn flush(self, now: u128) -> Residency {
        Residency {
            chunks: self.chunks.remove_keys(self.dropped(now).to_set()),
            to_unload: self.to_unload.skip(due_count(self.to_unload, now) as int),
            tickets: self.tickets,
        }
    }

    /// Whether `ticket` is the only claimant that `coord` has, if it has any.
    pub open spec fn claims_alone(self, ticket: Ticket, coord: ChunkCoord) -> bool {
        self.tickets.tickets_of(coord).remove(ticket).is_empty()
    }

    /// The coordinates among `given_up` that nobody claims but `ticket`: the
    /// ones that are left without a claimant when `ticket` lets go of them.
    pub open spec fn orphans(self, ticket: Ticket, given_up: Set<ChunkCoord>) -> Set<ChunkCoord> {
        Set::new(|c: ChunkCoord| given_up.contains(c) && self.claims_alone(ticket, c))
    }

    /// Whether `after` has the entries of every ticket but `ticket` as `self`
    /// has them.
    pub open spec fn others_kept(self, after: Residency, ticket: Ticket) -> bool {
        &&& forall|t: Ticket|
            t != ticket ==> (#[trigger] after.tickets.by_ticket.contains_key(t))
                == self.tickets.by_ticket.contains_key(t)
        &&& forall|t: Ticket|
            t != ticket ==> #[trigger] after.tickets.coords_of(t) == self.tickets.coords_of(t)
    }

    /// Whether the queue of `after` is the queue of `self` followed by one
    /// request for each coordinate in `left`, each once, in any order, and
    /// each due a grace period after `now`.
    pub open spec fn queued_behind(
        self,
        after: Residency,
        left: Set<ChunkCoord>,
        now: u128,
    ) -> bool {
        let kept = self.to_unload.len() as int;
        let tail = after.to_unload.skip(kept);
        &&& after.to_unload.len() >= kept
        &&& after.to_unload.take(kept) == self.to_unload
        &&& tail.no_duplicates()
        &&& forall|r: ChunkUnloadRequest| #[trigger]
            tail.contains(r) <==> left.contains(r.coord) && r.timeout == now + TIMEOUT_NANOS
    }

    /// Whether `after` is `self` once `ticket` has given up, at the time
    /// `now`, its claims on the coordinates `gone`, in any order.
    pub open spec fn releases(
        self,
        after: Residency,
        ticket: Ticket,
        gone: Set<ChunkCoord>,
        now: u128,
    ) -> bool {
        &&& after.chunks == self.chunks
        &&& self.others_kept(after, ticket)
        &&& after.tickets.by_ticket.contains_key(ticket) == self.tickets.by_ticket.contains_key(
            ticket,
        )
        &&& after.tickets.coords_of(ticket) == self.tickets.coords_of(ticket).difference(gone)
        &&& forall|c: ChunkCoord| #[trigger]
            after.tickets.tickets_of(c) == (if gone.contains(c) {
                self.tickets.tickets_of(c).remove(ticket)
            } else {
                self.tickets.tickets_of(c)
            })
        &&& self.queued_behind(after, self.orphans(ticket, gone), now)
    }

    /// Whether `after` is `self` once `ticket` has claimed the coordinates
    /// `got`, in any order.
    pub open spec fn claims(self, after: Residency, ticket: Ticket, got: Set<ChunkCoord>) -> bool {
        &&& after.to_unload == self.to_unload
        &&& after.chunks.dom() == self.chunks.dom().union(got)
        &&& forall|c: ChunkCoord| #[trigger]
            self.is_loaded(c) ==> after.chunks[c] == self.chunks[c]
        &&& self.others_kept(after, ticket)
        &&& after.tickets.by_ticket.contains_key(ticket) == (self.tickets.by_ticket.contains_key(
            ticket,
        ) || !got.is_empty())
        &&& after.tickets.coords_of(ticket) == self.tickets.coords_of(ticket).union(got)
        &&& forall|c: ChunkCoord| #[trigger]
            after.tickets.tickets_of(c) == (if got.contains(c) {
                self.tickets.tickets_of(c).insert(ticket)
            } else {
                self.tickets.tickets_of(c)
            })
    }

    /// Whether `after` is `self` once the claims of `ticket` have been made
    /// to be exactly `wanted`, at the time `now`: the ticket claims `wanted`
    /// and nothing else; every coordinate has the claimants it had, with the
    /// ticket among them exactly where it is wanted, and has an entry exactly
    /// where it has a claimant; the other tickets claim what they claimed;
    /// every wanted coordinate is loaded and no chunk that was loaded has
    /// changed; and each coordinate that the ticket let go of and nobody
    /// else claims has one new request at the back of the queue.
    pub open spec fn retargets(
        self,
        after: Residency,
        ticket: Ticket,
        wanted: Set<ChunkCoord>,
        now: u128,
    ) -> bool {
        let given_up = self.tickets.coords_of(ticket).difference(wanted);
        &&& after.tickets.coords_of(ticket) == wanted
        &&& after.tickets.by_ticket.contains_key(ticket) == (self.tickets.by_ticket.contains_key(
            ticket,
        ) || !wanted.is_empty())
        &&& self.others_kept(after, ticket)
        &&& forall|c: ChunkCoord| #[trigger]
            after.tickets.tickets_of(c) == (if wanted.contains(c) {
                self.tickets.tickets_of(c).insert(ticket)
            } else {
                self.tickets.tickets_of(c).remove(ticket)
            })
        &&& forall|c: ChunkCoord| #[trigger]
            after.is_claimed(c) <==> !after.tickets.tickets_of(c).is_empty()
        &&& after.chunks.dom() == self.chunks.dom().union(wanted)
        &&& forall|c: ChunkCoord| #[trigger]
            self.is_loaded(c) ==> after.chunks[c] == self.chunks[c]
        &&& self.queued_behind(after, self.orphans(ticket, given_up), now)
    }

    /// Doing nothing releases nothing.
    pub proof fn lemma_releases_none(self, ticket: Ticket, now: u128)
        ensures
            self.releases(self, ticket, Set::empty(), now),
    {
        assert(self.tickets.coords_of(ticket).difference(Set::empty()) =~= self.tickets.coords_of(
            ticket,
        ));
        assert(self.to_unload.take(self.to_unload.len() as int) =~= self.to_unload);
    }

    /// One more claim given up: if `mid` is `self` with the claims on `gone`
    /// released, then `mid` with the claim on `coord` released is `self`
    /// with the claims on `gone` and on `coord` released.
    pub proof fn lemma_releases_step(
        self,
        mid: Residency,
        ticket: Ticket,
        gone: Set<ChunkCoord>,
        coord: ChunkCoord,
        now: u128,
    )
        requires
            self.well_formed(),
            mid.well_formed(),
            self.releases(mid, ticket, gone, now),
            self.tickets.coords_of(ticket).contains(coord),
            !gone.contains(coord),
            now + TIMEOUT_NANOS <= u128::MAX,
        ensures
            self.releases(mid.remove_ticket(ticket, coord, now), ticket, gone.insert(coord), now),
    {
        let after = mid.remove_ticket(ticket, coord, now);
        let more = gone.insert(coord);
        let kept = self.to_unload.len() as int;
        let tail = mid.to_unload.skip(kept);
        let request = ChunkUnloadRequest { coord, timeout: (now + TIMEOUT_NANOS) as u128 };
        assert(self.tickets.tickets_of(coord).contains(ticket));
        assert(mid.tickets.tickets_of(coord) == self.tickets.tickets_of(coord));
        assert(mid.tickets.tickets_of(coord).contains(ticket));
        assert(mid.is_claimed(coord));
        assert(mid.tickets.coords_of(ticket).contains(coord));
        let removed = mid.tickets.remove(ticket, coord);
        let pushed = removed.by_chunk[coord].is_empty();
        assert(pushed <==> self.claims_alone(ticket, coord));
        assert forall|t: Ticket| t != ticket implies (#[trigger] after.tickets.by_ticket
            .contains_key(t)) == self.tickets.by_ticket.contains_key(t) by {
            assert(mid.tickets.by_ticket.contains_key(t) == self.tickets.by_ticket.contains_key(t));
        }
        assert forall|t: Ticket| t != ticket implies #[trigger] after.tickets.coords_of(t)
            == self.tickets.coords_of(t) by {
            assert(mid.tickets.by_ticket.contains_key(t) == self.tickets.by_ticket.contains_key(t));
            assert(mid.tickets.coords_of(t) == self.tickets.coords_of(t));
        }
        assert(after.tickets.coords_of(ticket) =~= self.tickets.coords_of(ticket).difference(more));
        assert forall|c: ChunkCoord| #[trigger]
            after.tickets.tickets_of(c) == (if more.contains(c) {
                self.tickets.tickets_of(c).remove(ticket)
            } else {
                self.tickets.tickets_of(c)
            }) by {
            if c == coord {
                assert(after.tickets.tickets_of(c) =~= self.tickets.tickets_of(c).remove(ticket));
            } else {
                assert(after.tickets.tickets_of(c) == mid.tickets.tickets_of(c));
            }
        }
        let longer = after.to_unload.skip(kept);
        assert(after.to_unload.take(kept) =~= mid.to_unload.take(kept));
        if pushed {
            assert(longer =~= tail.push(request));
            assert(!tail.contains(request));
            assert forall|i: int, j: int|
                0 <= i < longer.len() && 0 <= j < longer.len() && i != j implies longer[i]
                != longer[j] by {
                if i < tail.len() {
                    assert(tail.contains(longer[i]));
                }
                if j < tail.len() {
                    assert(tail.contains(longer[j]));
                }
            }
            assert forall|r: ChunkUnloadRequest| #[trigger]
                longer.contains(r) <==> self.orphans(ticket, more).contains(r.coord) && r.timeout
                    == now + TIMEOUT_NANOS by {
                if longer.contains(r) {
                    let k = choose|k: int| 0 <= k < longer.len() && longer[k] == r;
                    if k < tail.len() {
                        assert(tail.contains(r));
                    }
                }
                if self.orphans(ticket, more).contains(r.coord) && r.timeout == now
                    + TIMEOUT_NANOS {
                    if r.coord == coord {
                        assert(longer[tail.len() as int] == r);
                    } else {
                        assert(tail.contains(r));
                        let k = choose|k: int| 0 <= k < tail.len() && tail[k] == r;
                        assert(longer[k] == r);
                    }
                }
            }
        } else {
            assert(longer =~= tail);
            assert forall|r: ChunkUnloadRequest| #[trigger]
                longer.contains(r) <==> self.orphans(ticket, more).contains(r.coord) && r.timeout
                    == now + TIMEOUT_NANOS by {
                assert(tail.contains(r) <==> self.orphans(ticket, gone).contains(r.coord)
                    && r.timeout == now + TIMEOUT_NANOS);
            }
        }
    }

    /// Doing nothing claims nothing.
    pub proof fn lemma_claims_none(self, ticket: Ticket)
        ensures
            self.claims(self, ticket, Set::empty()),
    {
        assert(self.chunks.dom().union(Set::empty()) =~= self.chunks.dom());
        assert(self.tickets.coords_of(ticket).union(Set::empty()) =~= self.tickets.coords_of(
            ticket,
        ));
    }

    /// One more claim made: if `mid` is `self` with the claims on `got` made,
    /// then `mid` with the claim on `coord` made is `self` with the claims on
    /// `got` and on `coord` made.
    pub proof fn lemma_claims_step(
        self,
        mid: Residency,
        ticket: Ticket,
        got: Set<ChunkCoord>,
        coord: ChunkCoord,
        fresh: Chunk,
    )
        requires
            self.claims(mid, ticket, got),
        ensures
            self.claims(mid.add_ticket(ticket, coord, fresh), ticket, got.insert(coord)),
    {
        let after = mid.add_ticket(ticket, coord, fresh);
        let more = got.insert(coord);
        assert(more.contains(coord));
        assert(after.chunks.dom() =~= self.chunks.dom().union(more));
        assert forall|t: Ticket| t != ticket implies (#[trigger] after.tickets.by_ticket
            .contains_key(t)) == self.tickets.by_ticket.contains_key(t) by {
            assert(mid.tickets.by_ticket.contains_key(t) == self.tickets.by_ticket.contains_key(t));
        }
        assert forall|t: Ticket| t != ticket implies #[trigger] after.tickets.coords_of(t)
            == self.tickets.coords_of(t) by {
            assert(mid.tickets.by_ticket.contains_key(t) == self.tickets.by_ticket.contains_key(t));
            assert(mid.tickets.coords_of(t) == self.tickets.coords_of(t));
        }
        assert(after.tickets.coords_of(ticket) =~= self.tickets.coords_of(ticket).union(more));
        assert forall|c: ChunkCoord| #[trigger]
            after.tickets.tickets_of(c) == (if more.contains(c) {
                self.tickets.tickets_of(c).insert(ticket)
            } else {
                self.tickets.tickets_of(c)
            }) by {
            if c == coord {
                assert(after.tickets.tickets_of(c) =~= self.tickets.tickets_of(c).insert(ticket));
            } else {
                assert(after.tickets.tickets_of(c) == mid.tickets.tickets_of(c));
            }
        }
        assert forall|c: ChunkCoord| #[trigger] self.is_loaded(c) implies after.chunks[c]
            == self.chunks[c] by {
            assert(mid.chunks[c] == self.chunks[c]);
            assert(mid.is_loaded(c));
        }
    }

    /// Giving up what is no longer wanted and then claiming what is newly
    /// wanted makes the claims of the ticket exactly what is wanted.
    pub proof fn lemma_retargets(
        self,
        mid: Residency,
        after: Residency,
        ticket: Ticket,
        wanted: Set<ChunkCoord>,
        now: u128,
    )
        requires
            self.well_formed(),
            after.well_formed(),
            self.releases(mid, ticket, self.tickets.coords_of(ticket).difference(wanted), now),
            mid.claims(after, ticket, wanted.difference(self.tickets.coords_of(ticket))),
        ensures
            self.retargets(after, ticket, wanted, now),
    {
        let held = self.tickets.coords_of(ticket);
        let gone = held.difference(wanted);
        let got = wanted.difference(held);
        assert(after.tickets.coords_of(ticket) =~= wanted);
        if !self.tickets.by_ticket.contains_key(ticket) {
            assert(got =~= wanted);
        } else if !wanted.is_empty() {
            if got.is_empty() {
                let c = choose|c: ChunkCoord| wanted.contains(c);
                assert(!got.contains(c));
            }
        } else {
            assert(got =~= Set::<ChunkCoord>::empty());
        }
        assert forall|t: Ticket| t != ticket implies (#[trigger] after.tickets.by_ticket
            .contains_key(t)) == self.tickets.by_ticket.contains_key(t) by {
            assert(mid.tickets.by_ticket.contains_key(t) == self.tickets.by_ticket.contains_key(t));
        }
        assert forall|t: Ticket| t != ticket implies #[trigger] after.tickets.coords_of(t)
            == self.tickets.coords_of(t) by {
            assert(mid.tickets.by_ticket.contains_key(t) == self.tickets.by_ticket.contains_key(t));
            assert(mid.tickets.coords_of(t) == self.tickets.coords_of(t));
        }
        assert forall|c: ChunkCoord| #[trigger]
            after.tickets.tickets_of(c) == (if wanted.contains(c) {
                self.tickets.tickets_of(c).insert(ticket)
            } else {
                self.tickets.tickets_of(c).remove(ticket)
            }) by {
            assert(self.tickets.tickets_of(c).contains(ticket) <==> held.contains(c));
            assert(mid.tickets.tickets_of(c) == (if gone.contains(c) {
                self.tickets.tickets_of(c).remove(ticket)
            } else {
                self.tickets.tickets_of(c)
            }));
            if wanted.contains(c) {
                assert(after.tickets.tickets_of(c) =~= self.tickets.tickets_of(c).insert(ticket));
            } else {
                assert(after.tickets.tickets_of(c) =~= self.tickets.tickets_of(c).remove(ticket));
            }
        }
        assert forall|c: ChunkCoord| wanted.contains(c) && held.contains(c) implies self.is_loaded(
            c,
        ) by {
            assert(self.tickets.tickets_of(c).contains(ticket));
            assert(self.is_claimed(c));
        }
        assert(after.chunks.dom() =~= self.chunks.dom().union(wanted));
        assert forall|c: ChunkCoord| #[trigger] self.is_loaded(c) implies after.chunks[c]
            == self.chunks[c] by {
            assert(mid.is_loaded(c));
        }
    }

    /// A claim keeps the state well formed.
    pub proof fn lemma_add_ticket_well_formed(self, ticket: Ticket, coord: ChunkCoord, fresh: Chunk)
        requires
            self.well_formed(),
        ensures
            self.add_ticket(ticket, coord, fresh).well_formed(),
    {
        let after = self.add_ticket(ticket, coord, fresh);
        self.tickets.lemma_add_dual(ticket, coord);
        self.tickets.lemma_steps_finite(ticket, coord);
        assert forall|c: ChunkCoord| #[trigger]
            after.is_claimed(c) implies after.is_loaded(c) && !after.tickets.by_chunk[c]
            .is_empty() by {
            if c == coord {
                assert(after.tickets.by_chunk[c].contains(ticket));
            } else {
                assert(self.is_claimed(c));
            }
        }
        assert forall|c: ChunkCoord| #[trigger]
            after.is_loaded(c) implies after.is_claimed(c) || after.is_pending(c) by {
            if c != coord {
                assert(self.is_loaded(c));
                if self.is_pending(c) {
                    let i = choose|i: int|
                        0 <= i < self.to_unload.len() && (#[trigger] self.to_unload[i]).coord == c;
                    assert(after.to_unload[i].coord == c);
                }
            }
        }
    }

    /// Giving up a claim keeps the state well formed, as long as time does
    /// not run backwards.
    pub proof fn lemma_remove_ticket_well_formed(self, ticket: Ticket, coord: ChunkCoord, now: u128)
        requires
            self.well_formed(),
            self.accepts(now),
            now + TIMEOUT_NANOS <= u128::MAX,
        ensures
            self.remove_ticket(ticket, coord, now).well_formed(),
            self.remove_ticket(ticket, coord, now).accepts(now),
    {
        let after = self.remove_ticket(ticket, coord, now);
        let tickets = self.tickets.remove(ticket, coord);
        self.tickets.lemma_remove_dual(ticket, coord);
        self.tickets.lemma_steps_finite(ticket, coord);
        tickets.lemma_steps_finite(ticket, coord);
        let pushed = tickets.by_chunk.contains_key(coord) && tickets.by_chunk[coord].is_empty();
        if pushed {
            tickets.lemma_remove_chunk_dual(coord);
        }
        assert forall|c: ChunkCoord| #[trigger]
            after.is_claimed(c) implies after.is_loaded(c) && !after.tickets.by_chunk[c]
            .is_empty() by {
            assert(self.is_claimed(c));
        }
        assert forall|c: ChunkCoord| #[trigger]
            after.is_loaded(c) implies after.is_claimed(c) || after.is_pending(c) by {
            assert(self.is_loaded(c));
            if c == coord && pushed {
                assert(after.to_unload[self.to_unload.len() as int].coord == c);
            } else if self.is_claimed(c) {
                assert(after.is_claimed(c));
            } else {
                let i = choose|i: int|
                    0 <= i < self.to_unload.len() && (#[trigger] self.to_unload[i]).coord == c;
                assert(after.to_unload[i].coord == c);
            }
        }
    }

    /// A flush keeps the state well formed.
    pub proof fn lemma_flush_well_formed(self, now: u128)
        requires
            self.well_formed(),
        ensures
            self.flush(now).well_formed(),
    {
        let after = self.flush(now);
        let n = due_count(self.to_unload, now) as int;
        lemma_due_count_bounds(self.to_unload, now);
        lemma_evicted(self.chunks.dom(), self.tickets.by_chunk.dom(), self.due(now));
        assert forall|c: ChunkCoord| #[trigger]
            after.is_claimed(c) implies after.is_loaded(c) && !after.tickets.by_chunk[c]
            .is_empty() by {
            assert(self.is_claimed(c));
        }
        assert forall|c: ChunkCoord| #[trigger]
            after.is_loaded(c) implies after.is_claimed(c) || after.is_pending(c) by {
            assert(self.is_loaded(c));
            if !self.is_claimed(c) {
                let i = choose|i: int|
                    0 <= i < self.to_unload.len() && (#[trigger] self.to_unload[i]).coord == c;
                if i < n {
                    assert(self.due(now)[i].coord == c);
                    assert(self.dropped(now).contains(c));
                    assert(self.dropped(now).to_set().contains(c));
                } else {
                    assert(after.to_unload[i - n].coord == c);
                }
            }
        }
        assert forall|i: int, j: int| 0 <= i <= j < after.to_unload.len() implies (
        #[trigger] after.to_unload[i]).timeout <= (#[trigger] after.to_unload[j]).timeout by {
            assert(self.to_unload[i + n].timeout <= self.to_unload[j + n].timeout);
        }
        assert forall|i: int| 0 <= i < after.to_unload.len() implies (
        #[trigger] after.to_unload[i]).timeout >= TIMEOUT_NANOS by {
            assert(self.to_unload[i + n].timeout >= TIMEOUT_NANOS);
        }
        assert(after.chunks.dom() =~= self.chunks.dom().difference(self.dropped(now).to_set()));
    }

    /// A chunk that somebody claims survives a flush, whenever the flush
    /// comes and whatever requests for it are waiting.
    pub proof fn lemma_claimed_survives(self, now: u128, coord: ChunkCoord)
        requires
            self.is_claimed(coord),
            self.is_loaded(coord),
        ensures
            self.flush(now).is_loaded(coord),
            self.flush(now).chunks[coord] == self.chunks[coord],
            !self.dropped(now).contains(coord),
    {
        lemma_evicted(self.chunks.dom(), self.tickets.by_chunk.dom(), self.due(now));
    }

    /// In a well formed state the stages are what they are called: where no
    /// chunk is loaded nobody claims one; a claimed chunk has a claimant; and
    /// a pending chunk has no claimant and a request waiting.
    pub proof fn lemma_stages(self, coord: ChunkCoord)
        requires
            self.well_formed(),
        ensures
            self.stage(coord) is Unloaded ==> self.tickets.tickets_of(coord).is_empty()
                && !self.is_claimed(coord),
            self.stage(coord) is Claimed ==> !self.tickets.tickets_of(coord).is_empty(),
            self.stage(coord) is Pending ==> self.tickets.tickets_of(coord).is_empty()
                && self.is_pending(coord),
    {
        if self.is_claimed(coord) {
            assert(self.is_loaded(coord));
        } else {
            assert(self.tickets.tickets_of(coord) =~= Set::<Ticket>::empty());
        }
    }

    /// A claim makes the coordinate claimed, whatever it was.
    pub proof fn lemma_stage_after_claim(self, ticket: Ticket, coord: ChunkCoord, fresh: Chunk)
        ensures
            self.add_ticket(ticket, coord, fresh).stage(coord) is Claimed,
            forall|c: ChunkCoord|
                c != coord ==> #[trigger] self.add_ticket(ticket, coord, fresh).stage(c)
                    == self.stage(c),
    {
    }

    /// A release makes a claimed coordinate pending if it was the last claim
    /// on it, and otherwise leaves every coordinate where it stands.
    pub proof fn lemma_stage_after_release(self, ticket: Ticket, coord: ChunkCoord, now: u128)
        requires
            self.well_formed(),
        ensures
            self.remove_ticket(ticket, coord, now).stage(coord) == (if self.tickets.tickets_of(
                coord,
            ).contains(ticket) && self.claims_alone(ticket, coord) {
                Stage::Pending
            } else {
                self.stage(coord)
            }),
            forall|c: ChunkCoord|
                c != coord ==> #[trigger] self.remove_ticket(ticket, coord, now).stage(c)
                    == self.stage(c),
    {
        let tickets = self.tickets.remove(ticket, coord);
        if self.is_claimed(coord) {
            assert(!self.tickets.by_chunk[coord].is_empty());
            if !self.tickets.tickets_of(coord).contains(ticket) {
                assert(tickets.by_chunk[coord] =~= self.tickets.by_chunk[coord]);
            } else if !self.claims_alone(ticket, coord) {
                assert(tickets.by_chunk[coord] =~= self.tickets.tickets_of(coord).remove(ticket));
            }
        }
    }

    /// A flush unloads a pending coordinate if one of the requests for it is
    /// due, and otherwise leaves every coordinate where it stands.
    pub proof fn lemma_stage_after_flush(self, now: u128, coord: ChunkCoord)
        requires
            self.well_formed(),
        ensures
            self.flush(now).stage(coord) == (if self.stage(coord) is Pending && exists|i: int|
                0 <= i < self.due(now).len() && (#[trigger] self.due(now)[i]).coord == coord {
                Stage::Unloaded
            } else {
                self.stage(coord)
            }),
    {
        lemma_evicted(self.chunks.dom(), self.tickets.by_chunk.dom(), self.due(now));
        assert(self.dropped(now).to_set().contains(coord) <==> self.dropped(now).contains(coord));
    }

    /// In a queue that is in the order of its deadlines, a flush leaves
    /// nothing behind that is due: once the request at the front is not due,
    /// none behind it is.
    pub proof fn lemma_nothing_due_is_left(self, now: u128)
        requires
            self.in_order(),
        ensures
            forall|i: int|
                0 <= i < self.flush(now).to_unload.len() ==> (#[trigger] self.flush(
                    now,
                ).to_unload[i]).timeout >= now,
    {
        let n = due_count(self.to_unload, now) as int;
        lemma_due_count_bounds(self.to_unload, now);
        let left = self.flush(now).to_unload;
        assert forall|i: int| 0 <= i < left.len() implies (#[trigger] left[i]).timeout >= now by {
            assert(self.to_unload[n].timeout <= self.to_unload[i + n].timeout);
        }
    }

    /// A flush with nothing waiting changes nothing and hands nothing back.
    pub proof fn lemma_flush_nothing_waiting(self, now: u128)
        requires
            self.to_unload.len() == 0,
        ensures
            self.flush(now) == self,
            self.flushed(now).len() == 0,
    {
        assert(self.due(now) =~= Seq::<ChunkUnloadRequest>::empty());
        assert(self.dropped(now).to_set() =~= Set::<ChunkCoord>::empty());
        assert(self.flush(now).chunks =~= self.chunks);
        assert(self.flush(now).to_unload =~= self.to_unload);
    }

    /// Giving up a claim that was never made changes nothing.
    pub proof fn lemma_release_unclaimed(self, ticket: Ticket, coord: ChunkCoord, now: u128)
        requires
            self.well_formed(),
            !self.tickets.tickets_of(coord).contains(ticket),
        ensures
            self.remove_ticket(ticket, coord, now) == self,
    {
        assert(self.tickets.tickets_of(coord).contains(ticket) <==> self.tickets.coords_of(
            ticket,
        ).contains(coord));
        self.tickets.lemma_remove_absent(ticket, coord);
        if self.is_claimed(coord) {
            assert(!self.tickets.by_chunk[coord].is_empty());
        }
    }

    /// While somebody claims a coordinate its chunk stays what it is: no
    /// claim calls for a new chunk there, and no claim, no release and no
    /// flush replaces or drops the one that is loaded.
    pub proof fn lemma_claimed_keeps_chunk(
        self,
        coord: ChunkCoord,
        ticket: Ticket,
        at: ChunkCoord,
        fresh: Chunk,
        now: u128,
    )
        requires
            self.well_formed(),
            self.is_claimed(coord),
        ensures
            self.is_loaded(coord),
            self.add_ticket(ticket, coord, fresh).chunks == self.chunks,
            self.add_ticket(ticket, at, fresh).is_loaded(coord),
            self.add_ticket(ticket, at, fresh).chunks[coord] == self.chunks[coord],
            self.remove_ticket(ticket, at, now).is_loaded(coord),
            self.remove_ticket(ticket, at, now).chunks[coord] == self.chunks[coord],
            self.flush(now).is_loaded(coord),
            self.flush(now).chunks[coord] == self.chunks[coord],
    {
        self.lemma_claimed_survives(now, coord);
    }

    /// A chunk that is claimed before a flush survives the flush, though a
    /// request to drop it may be waiting and due.
    pub proof fn lemma_reclaimed_survives(
        self,
        ticket: Ticket,
        coord: ChunkCoord,
        fresh: Chunk,
        now: u128,
    )
        ensures
            ({
                let claimed = self.add_ticket(ticket, coord, fresh);
                &&& claimed.is_loaded(coord)
                &&& claimed.flush(now).is_loaded(coord)
                &&& claimed.flush(now).chunks[coord] == claimed.chunks[coord]
                &&& !claimed.dropped(now).contains(coord)
            }),
    {
        let claimed = self.add_ticket(ticket, coord, fresh);
        claimed.lemma_claimed_survives(now, coord);
    }

    /// A chunk whose last ticket was given up at `released` is dropped by a
    /// flush that comes more than a grace period later, if nobody has claimed
    /// it since: the flush hands it back once and it is no longer loaded.
    pub proof fn lemma_released_is_dropped(
        self,
        ticket: Ticket,
        coord: ChunkCoord,
        released: u128,
        now: u128,
    )
        requires
            self.well_formed(),
            self.accepts(released),
            released + TIMEOUT_NANOS < now,
            self.tickets.tickets_of(coord) == set![ticket],
        ensures
            ({
                let waiting = self.remove_ticket(ticket, coord, released);
                let gone = waiting.dropped(now);
                &&& waiting.is_loaded(coord)
                &&& !waiting.is_claimed(coord)
                &&& waiting.is_pending(coord)
                &&& gone.contains(coord)
                &&& gone.no_duplicates()
                &&& waiting.flushed(now)[gone.index_of(coord)] == self.chunks[coord]
                &&& !waiting.flush(now).is_loaded(coord)
                &&& waiting.flush(now).to_unload.len() == 0
            }),
    {
        let waiting = self.remove_ticket(ticket, coord, released);
        let gone = waiting.dropped(now);
        assert(self.tickets.tickets_of(coord).contains(ticket));
        assert(self.is_claimed(coord));
        let tickets = self.tickets.remove(ticket, coord);
        assert(tickets.by_chunk[coord] =~= Set::<Ticket>::empty());
        self.lemma_remove_ticket_well_formed(ticket, coord, released);
        let queue = waiting.to_unload;
        assert(queue.last().coord == coord);
        assert(queue[queue.len() - 1].coord == coord);
        lemma_all_due(queue, now);
        assert(waiting.due(now) =~= queue);
        lemma_evicted(waiting.chunks.dom(), waiting.tickets.by_chunk.dom(), queue);
        assert(gone.contains(coord));
        assert(gone.to_set().contains(coord));
    }

    /// A coordinate that nobody claims is claimed by one ticket and given up
    /// again at `released`. A flush that comes more than a grace period
    /// later, with no claim made in between, hands the chunk back once, and
    /// the chunk is no longer loaded.
    pub proof fn lemma_claim_release_flush(
        self,
        ticket: Ticket,
        coord: ChunkCoord,
        fresh: Chunk,
        released: u128,
        now: u128,
    )
        requires
            self.well_formed(),
            !self.is_claimed(coord),
            self.accepts(released),
            released + TIMEOUT_NANOS < now,
        ensures
            ({
                let claimed = self.add_ticket(ticket, coord, fresh);
                let waiting = claimed.remove_ticket(ticket, coord, released);
                let gone = waiting.dropped(now);
                &&& gone.contains(coord)
                &&& gone.no_duplicates()
                &&& waiting.flushed(now)[gone.index_of(coord)] == claimed.chunks[coord]
                &&& !waiting.flush(now).is_loaded(coord)
            }),
    {
        let claimed = self.add_ticket(ticket, coord, fresh);
        self.lemma_add_ticket_well_formed(ticket, coord, fresh);
        assert(claimed.tickets.tickets_of(coord) =~= set![ticket]);
        claimed.lemma_released_is_dropped(ticket, coord, released, now);
    }
}

} // verus!
