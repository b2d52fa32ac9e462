use std::cell::Cell;
use std::rc::Rc;

use sw_core::id::Id;
use sw_core::world::area::QuadArea;
use sw_core::world::chunk::{Chunk, ChunkCoord, Tile, CHUNK_HEIGHT, CHUNK_TILES, CHUNK_WIDTH};
use sw_core::world::clock::{nanos_of, Clock, CLOCK_LIMIT, NANOS_PER_SEC};
use sw_core::world::generators::WorldGenerator;
use sw_core::world::manager::{ChunkManager, ChunkUnloadRequest, TIMEOUT_NANOS, TIMEOUT_SECS};
use sw_core::world::sets::CoordSet;
use sw_core::world::ticket::Ticket;

/// Fills the chunk at (x, y) with the tile `100 * x + y` and counts its calls.
struct Counting {
    calls: Rc<Cell<usize>>,
}

impl WorldGenerator for Counting {
    fn generate(&mut self, coord: ChunkCoord) -> Chunk {
        self.calls.set(self.calls.get() + 1);
        Chunk { data: vec![[Tile(100 * coord.x + coord.y); CHUNK_TILES]], depth: 1 }
    }
}

fn manager() -> (ChunkManager<Counting>, Rc<Cell<usize>>) {
    let calls = Rc::new(Cell::new(0));
    (ChunkManager::new(Counting { calls: calls.clone() }), calls)
}

fn c(x: usize, y: usize) -> ChunkCoord {
    ChunkCoord::new(x, y)
}

fn set(coords: &[ChunkCoord]) -> CoordSet {
    let mut s = CoordSet::new();
    for &at in coords {
        s.insert(at);
    }
    s
}

fn tile_of(chunk: &Chunk) -> usize {
    chunk.data[0][0].0
}

fn claimants(m: &ChunkManager<Counting>, at: ChunkCoord) -> Option<usize> {
    m.tickets().get_tickets(&at).map(|s| s.len())
}

fn claims(m: &ChunkManager<Counting>, t: Ticket) -> Vec<ChunkCoord> {
    let mut all = match m.tickets().get_coords(&t) {
        Some(s) => s.difference(&CoordSet::new()),
        None => Vec::new(),
    };
    all.sort_by_key(|p| (p.y, p.x));
    all
}

#[test]
fn constants_are_two_seconds() {
    assert_eq!(TIMEOUT_SECS, 2);
    assert_eq!(TIMEOUT_NANOS, 2_000_000_000);
    assert_eq!(CHUNK_WIDTH * CHUNK_HEIGHT, CHUNK_TILES);
    assert_eq!(CHUNK_WIDTH, 64);
    assert_eq!(CHUNK_HEIGHT, 64);
}

#[test]
fn a_request_falls_due_a_grace_period_after_it_was_made() {
    let r = ChunkUnloadRequest::new(c(3, 4), 5);
    assert_eq!(r.coord, c(3, 4));
    assert_eq!(r.timeout, 2_000_000_005);
    let r = ChunkUnloadRequest::new(c(0, 0), 0);
    assert_eq!(r.timeout, 2_000_000_000);
}

#[test]
fn a_span_in_nanoseconds_is_its_seconds_times_a_billion_and_the_rest() {
    assert_eq!(NANOS_PER_SEC, 1_000_000_000);
    assert_eq!(nanos_of(0, 0), 0);
    assert_eq!(nanos_of(0, 7), 7);
    assert_eq!(nanos_of(2, 5), 2_000_000_005);
    assert_eq!(nanos_of(1, 999_999_999), 1_999_999_999);
    assert_eq!(nanos_of(u64::MAX, 999_999_999), CLOCK_LIMIT - 1);
    assert_eq!(nanos_of(3, u32::MAX), 3_000_000_000 + 4_294_967_295);
}

#[test]
fn the_clock_stays_below_its_limit_and_does_not_run_backwards() {
    let clock = Clock::new();
    let a = clock.now();
    let b = clock.now();
    assert!(a <= b);
    assert!(b < CLOCK_LIMIT);
}

#[test]
fn a_new_manager_is_empty() {
    let (m, calls) = manager();
    assert_eq!(m.loaded(), 0);
    assert_eq!(m.to_unload().len(), 0);
    assert!(!m.is_loaded(&c(0, 0)));
    assert!(m.chunk(&c(0, 0)).is_none());
    assert!(m.tickets().get_tickets(&c(0, 0)).is_none());
    assert_eq!(calls.get(), 0);
}

#[test]
fn new_ticket_wraps_the_observer() {
    let (mut m, _) = manager();
    let a = m.new_ticket(Id::new(3));
    let b = m.new_ticket(Id::new(3));
    assert_eq!(a, b);
    assert_eq!(a.entity(), Id::new(3));
    assert_eq!(m.loaded(), 0);
}

#[test]
fn add_ticket_generates_the_chunk_and_records_the_claim() {
    let (mut m, calls) = manager();
    let t = m.new_ticket(Id::new(1));
    m.add_ticket(t, c(2, 3));
    assert_eq!(calls.get(), 1);
    assert!(m.is_loaded(&c(2, 3)));
    assert_eq!(tile_of(m.chunk(&c(2, 3)).unwrap()), 203);
    assert_eq!(m.chunk(&c(2, 3)).unwrap().depth, 1);
    assert_eq!(m.loaded(), 1);
    assert_eq!(claimants(&m, c(2, 3)), Some(1));
    assert_eq!(claims(&m, t), vec![c(2, 3)]);
    assert_eq!(m.to_unload().len(), 0);
}

#[test]
fn a_loaded_chunk_is_not_generated_again() {
    let (mut m, calls) = manager();
    let t = m.new_ticket(Id::new(1));
    let u = m.new_ticket(Id::new(2));
    m.add_ticket(t, c(2, 3));
    m.add_ticket(t, c(2, 3));
    m.add_ticket(u, c(2, 3));
    assert_eq!(calls.get(), 1);
    assert_eq!(claimants(&m, c(2, 3)), Some(2));
    m.remove_ticket_at(t, c(2, 3), 10);
    m.add_ticket(t, c(2, 3));
    assert_eq!(calls.get(), 1);
    m.remove_ticket_at(t, c(2, 3), 20);
    m.remove_ticket_at(u, c(2, 3), 30);
    m.add_ticket(u, c(2, 3));
    assert_eq!(calls.get(), 1);
    assert_eq!(m.loaded(), 1);
}

#[test]
fn the_last_release_queues_the_chunk_and_deletes_the_entry() {
    let (mut m, _) = manager();
    let t = m.new_ticket(Id::new(1));
    let u = m.new_ticket(Id::new(2));
    m.add_ticket(t, c(1, 1));
    m.add_ticket(u, c(1, 1));
    m.remove_ticket_at(t, c(1, 1), 100);
    assert_eq!(claimants(&m, c(1, 1)), Some(1));
    assert_eq!(m.to_unload().len(), 0);
    m.remove_ticket_at(u, c(1, 1), 200);
    assert_eq!(claimants(&m, c(1, 1)), None);
    assert_eq!(m.to_unload().len(), 1);
    assert_eq!(
        m.to_unload()[0],
        ChunkUnloadRequest { coord: c(1, 1), timeout: 200 + TIMEOUT_NANOS }
    );
    assert!(m.is_loaded(&c(1, 1)));
    assert!(claims(&m, t).is_empty());
    assert!(m.tickets().get_coords(&t).is_some());
}

#[test]
fn releasing_what_was_never_claimed_changes_nothing() {
    let (mut m, calls) = manager();
    let t = m.new_ticket(Id::new(1));
    let u = m.new_ticket(Id::new(2));
    m.add_ticket(t, c(1, 1));
    m.remove_ticket_at(u, c(1, 1), 5);
    m.remove_ticket_at(t, c(9, 9), 5);
    m.remove_ticket_at(u, c(9, 9), 5);
    assert_eq!(claimants(&m, c(1, 1)), Some(1));
    assert_eq!(m.to_unload().len(), 0);
    assert_eq!(m.loaded(), 1);
    assert_eq!(calls.get(), 1);
    assert!(m.flush_at(1_000_000_000_000).is_empty());
    assert!(m.is_loaded(&c(1, 1)));
}

#[test]
fn a_chunk_is_dropped_once_its_grace_period_is_over() {
    let (mut m, _) = manager();
    let t = m.new_ticket(Id::new(1));
    m.add_ticket(t, c(4, 2));
    m.remove_ticket_at(t, c(4, 2), 1_000);
    assert!(m.flush_at(1_000).is_empty());
    assert!(m.flush_at(1_000 + TIMEOUT_NANOS - 1).is_empty());
    assert!(m.flush_at(1_000 + TIMEOUT_NANOS).is_empty());
    assert!(m.is_loaded(&c(4, 2)));
    assert_eq!(m.to_unload().len(), 1);
    let gone = m.flush_at(1_000 + TIMEOUT_NANOS + 1);
    assert_eq!(gone.len(), 1);
    assert_eq!(tile_of(&gone[0]), 402);
    assert!(!m.is_loaded(&c(4, 2)));
    assert_eq!(m.loaded(), 0);
    assert_eq!(m.to_unload().len(), 0);
    assert!(m.flush_at(1_000 + 2 * TIMEOUT_NANOS).is_empty());
}

#[test]
fn a_chunk_claimed_again_survives_the_flush() {
    let (mut m, calls) = manager();
    let t = m.new_ticket(Id::new(1));
    let u = m.new_ticket(Id::new(2));
    m.add_ticket(t, c(4, 2));
    m.remove_ticket_at(t, c(4, 2), 1_000);
    m.add_ticket(u, c(4, 2));
    let gone = m.flush_at(1_000 + TIMEOUT_NANOS + 1);
    assert!(gone.is_empty());
    assert!(m.is_loaded(&c(4, 2)));
    assert_eq!(tile_of(m.chunk(&c(4, 2)).unwrap()), 402);
    assert_eq!(m.to_unload().len(), 0);
    assert_eq!(calls.get(), 1);
    assert_eq!(claimants(&m, c(4, 2)), Some(1));
}

#[test]
fn a_flush_stops_at_the_first_request_that_is_not_due() {
    let (mut m, _) = manager();
    let t = m.new_ticket(Id::new(1));
    m.add_ticket(t, c(1, 0));
    m.add_ticket(t, c(2, 0));
    m.add_ticket(t, c(3, 0));
    m.remove_ticket_at(t, c(1, 0), 100);
    m.remove_ticket_at(t, c(2, 0), 200);
    m.remove_ticket_at(t, c(3, 0), 300);
    let gone = m.flush_at(200 + TIMEOUT_NANOS);
    assert_eq!(gone.len(), 1);
    assert_eq!(tile_of(&gone[0]), 100);
    assert_eq!(m.to_unload().len(), 2);
    let gone = m.flush_at(300 + TIMEOUT_NANOS + 1);
    assert_eq!(gone.len(), 2);
    assert_eq!(tile_of(&gone[0]), 200);
    assert_eq!(tile_of(&gone[1]), 300);
    assert_eq!(m.loaded(), 0);
}

#[test]
fn two_requests_for_one_chunk_drop_it_once() {
    let (mut m, calls) = manager();
    let t = m.new_ticket(Id::new(1));
    m.add_ticket(t, c(1, 0));
    m.remove_ticket_at(t, c(1, 0), 100);
    m.add_ticket(t, c(1, 0));
    m.remove_ticket_at(t, c(1, 0), 200);
    assert_eq!(m.to_unload().len(), 2);
    let gone = m.flush_at(200 + TIMEOUT_NANOS + 1);
    assert_eq!(gone.len(), 1);
    assert_eq!(tile_of(&gone[0]), 100);
    assert_eq!(m.to_unload().len(), 0);
    assert!(!m.is_loaded(&c(1, 0)));
    assert_eq!(calls.get(), 1);
    m.add_ticket(t, c(1, 0));
    assert_eq!(calls.get(), 2);
    assert_eq!(tile_of(m.chunk(&c(1, 0)).unwrap()), 100);
}

#[test]
fn a_stale_request_does_not_shorten_a_later_grace_period() {
    let (mut m, _) = manager();
    let t = m.new_ticket(Id::new(1));
    m.add_ticket(t, c(1, 0));
    m.remove_ticket_at(t, c(1, 0), 100);
    m.add_ticket(t, c(1, 0));
    assert!(m.flush_at(100 + TIMEOUT_NANOS + 1).is_empty());
    assert_eq!(m.to_unload().len(), 0);
    m.remove_ticket_at(t, c(1, 0), 100 + TIMEOUT_NANOS + 2);
    assert!(m.flush_at(100 + 2 * TIMEOUT_NANOS).is_empty());
    assert!(m.is_loaded(&c(1, 0)));
    assert_eq!(m.flush_at(100 + 2 * TIMEOUT_NANOS + 3).len(), 1);
}

#[test]
fn set_ticket_makes_the_claims_exactly_what_is_wanted() {
    let (mut m, calls) = manager();
    let t = m.new_ticket(Id::new(1));
    m.set_ticket_at(t, set(&[c(0, 0), c(1, 0), c(2, 0)]), 10);
    assert_eq!(claims(&m, t), vec![c(0, 0), c(1, 0), c(2, 0)]);
    assert_eq!(calls.get(), 3);
    m.set_ticket_at(t, set(&[c(1, 0), c(2, 0), c(3, 0), c(4, 0)]), 20);
    assert_eq!(claims(&m, t), vec![c(1, 0), c(2, 0), c(3, 0), c(4, 0)]);
    assert_eq!(calls.get(), 5);
    assert_eq!(claimants(&m, c(0, 0)), None);
    assert_eq!(claimants(&m, c(1, 0)), Some(1));
    assert_eq!(claimants(&m, c(4, 0)), Some(1));
    assert_eq!(m.to_unload().len(), 1);
    assert_eq!(
        m.to_unload()[0],
        ChunkUnloadRequest { coord: c(0, 0), timeout: 20 + TIMEOUT_NANOS }
    );
    assert_eq!(m.loaded(), 5);
    m.set_ticket_at(t, set(&[c(1, 0), c(2, 0), c(3, 0), c(4, 0)]), 30);
    assert_eq!(calls.get(), 5);
    assert_eq!(m.to_unload().len(), 1);
    m.set_ticket_at(t, CoordSet::new(), 40);
    assert!(claims(&m, t).is_empty());
    assert_eq!(m.to_unload().len(), 5);
    for i in 1..5 {
        assert_eq!(m.to_unload()[i].timeout, 40 + TIMEOUT_NANOS);
    }
    assert_eq!(m.loaded(), 5);
    let gone = m.flush_at(40 + TIMEOUT_NANOS + 1);
    assert_eq!(gone.len(), 5);
    assert_eq!(tile_of(&gone[0]), 0);
    assert_eq!(m.loaded(), 0);
}

#[test]
fn set_ticket_on_a_ticket_without_claims_claims_everything_wanted() {
    let (mut m, _) = manager();
    let t = m.new_ticket(Id::new(1));
    m.set_ticket_at(t, CoordSet::new(), 5);
    assert!(m.tickets().get_coords(&t).is_none());
    m.set_ticket_at(t, QuadArea::new(c(5, 5), 1).collect(), 6);
    assert_eq!(claims(&m, t), QuadArea::new(c(5, 5), 1).to_vec());
    assert_eq!(m.loaded(), 9);
    assert_eq!(m.to_unload().len(), 0);
}

#[test]
fn an_observer_that_moves_keeps_what_stays_in_range() {
    let (mut m, calls) = manager();
    let t = m.new_ticket(Id::new(1));
    m.set_ticket_at(t, QuadArea::new(c(5, 5), 1).collect(), 0);
    assert_eq!(calls.get(), 9);
    m.set_ticket_at(t, QuadArea::new(c(6, 5), 1).collect(), 1_000);
    assert_eq!(calls.get(), 12);
    assert_eq!(m.loaded(), 12);
    assert_eq!(m.to_unload().len(), 3);
    assert_eq!(claims(&m, t), QuadArea::new(c(6, 5), 1).to_vec());
    m.set_ticket_at(t, QuadArea::new(c(5, 5), 1).collect(), 2_000);
    assert_eq!(calls.get(), 12);
    assert_eq!(m.to_unload().len(), 6);
    let gone = m.flush_at(2_000 + TIMEOUT_NANOS + 1);
    assert_eq!(gone.len(), 3);
    let mut tiles: Vec<usize> = gone.iter().map(tile_of).collect();
    tiles.sort();
    assert_eq!(tiles, vec![704, 705, 706]);
    assert_eq!(m.loaded(), 9);
    assert_eq!(m.to_unload().len(), 0);
}

#[test]
fn two_observers_share_a_chunk() {
    let (mut m, calls) = manager();
    let t1 = m.new_ticket(Id::new(1));
    let t2 = m.new_ticket(Id::new(2));
    m.set_ticket_at(t1, set(&[c(0, 0), c(1, 0)]), 0);
    m.set_ticket_at(t2, set(&[c(1, 0), c(2, 0)]), 0);
    assert_eq!(calls.get(), 3);
    m.set_ticket_at(t1, CoordSet::new(), 1_000);

    assert!(m.is_loaded(&c(0, 0)));
    assert_eq!(claimants(&m, c(0, 0)), None);
    assert_eq!(m.to_unload().len(), 1);
    assert_eq!(m.to_unload()[0].coord, c(0, 0));
    assert_eq!(claimants(&m, c(1, 0)), Some(1));
    assert!(m.tickets().get_tickets(&c(1, 0)).unwrap().contains(&t2));
    assert!(!m.tickets().get_tickets(&c(1, 0)).unwrap().contains(&t1));
    assert_eq!(m.loaded(), 3);

    assert!(m.flush_at(1_000 + TIMEOUT_NANOS).is_empty());
    let gone = m.flush_at(1_000 + TIMEOUT_NANOS + 1);
    assert_eq!(gone.len(), 1);
    assert_eq!(tile_of(&gone[0]), 0);
    assert_eq!(m.loaded(), 2);
    assert!(!m.is_loaded(&c(0, 0)));
    assert!(m.is_loaded(&c(1, 0)));
    assert!(m.is_loaded(&c(2, 0)));
    assert_eq!(claims(&m, t2), vec![c(1, 0), c(2, 0)]);
}

#[test]
fn by_the_clock_nothing_is_dropped_before_the_grace_period_is_over() {
    let (mut m, calls) = manager();
    let t = m.new_ticket(Id::new(1));
    m.add_ticket(t, c(1, 1));
    m.add_ticket(t, c(2, 2));
    m.remove_ticket(t, c(1, 1));
    assert_eq!(m.to_unload().len(), 1);
    let deadline = m.to_unload()[0].timeout;
    assert!(deadline >= TIMEOUT_NANOS);
    assert!(deadline <= m.now() + TIMEOUT_NANOS);
    assert!(m.flush().is_empty());
    assert!(m.is_loaded(&c(1, 1)));
    m.set_ticket(t, set(&[c(3, 3)]));
    assert_eq!(m.to_unload().len(), 2);
    assert!(m.to_unload()[0].timeout <= m.to_unload()[1].timeout);
    assert_eq!(claims(&m, t), vec![c(3, 3)]);
    assert!(m.flush().is_empty());
    assert_eq!(m.loaded(), 3);
    assert_eq!(calls.get(), 3);
}

#[test]
fn by_the_clock_the_chunk_is_dropped_after_the_grace_period() {
    let (mut m, _) = manager();
    let t1 = m.new_ticket(Id::new(1));
    let t2 = m.new_ticket(Id::new(2));
    m.set_ticket(t1, set(&[c(0, 0), c(1, 0)]));
    m.set_ticket(t2, set(&[c(1, 0), c(2, 0)]));
    m.set_ticket(t1, CoordSet::new());
    assert_eq!(m.to_unload().len(), 1);
    let deadline = m.to_unload()[0].timeout;
    assert!(m.flush().is_empty());
    while m.now() <= deadline {
        std::hint::spin_loop();
    }
    let gone = m.flush();
    assert_eq!(gone.len(), 1);
    assert_eq!(tile_of(&gone[0]), 0);
    assert_eq!(m.loaded(), 2);
    assert!(m.is_loaded(&c(1, 0)));
    assert!(m.is_loaded(&c(2, 0)));
    assert!(!m.is_loaded(&c(0, 0)));
}

#[test]
fn the_manager_says_which_times_it_accepts() {
    let (mut m, _) = manager();
    let t = m.new_ticket(Id::new(1));
    assert!(m.accepts(0));
    assert!(m.accepts(u128::MAX - TIMEOUT_NANOS));
    assert!(!m.accepts(u128::MAX - TIMEOUT_NANOS + 1));
    m.add_ticket(t, c(1, 1));
    m.remove_ticket_at(t, c(1, 1), 500);
    assert!(m.accepts(500));
    assert!(m.accepts(501));
    assert!(!m.accepts(499));
    m.flush_at(501 + TIMEOUT_NANOS);
    assert!(m.accepts(0));
}
