use sw_core::id::Id;
use sw_core::world::chunk::ChunkCoord;
use sw_core::world::sets::{CoordSet, TicketSet};
use sw_core::world::ticket::{Ticket, TicketManager};

fn ticket(index: &mut TicketManager, n: usize) -> Ticket {
    index.new_ticket(Id::new(n))
}

fn c(x: usize, y: usize) -> ChunkCoord {
    ChunkCoord::new(x, y)
}

fn holds(index: &TicketManager, t: Ticket, coord: ChunkCoord) -> (bool, bool) {
    let by_chunk = index.get_tickets(&coord).map_or(false, |s| s.contains(&t));
    let by_ticket = index.get_coords(&t).map_or(false, |s| s.contains(&coord));
    (by_chunk, by_ticket)
}

#[test]
fn id_wraps_its_number() {
    assert_eq!(Id::<sw_core::id::Entity>::new(42).index(), 42);
    assert_eq!(Id::<sw_core::id::Entity>::new(42), Id::new(42));
    assert_ne!(Id::<sw_core::id::Entity>::new(42), Id::new(43));
}

#[test]
fn same_observer_same_ticket() {
    let mut index = TicketManager::default();
    let a = ticket(&mut index, 7);
    let b = ticket(&mut index, 7);
    let other = ticket(&mut index, 8);
    assert_eq!(a, b);
    assert_ne!(a, other);
    assert_eq!(a.entity(), Id::new(7));
    assert!(index.get_coords(&a).is_none());
}

#[test]
fn a_fresh_index_has_no_entries() {
    let mut index = TicketManager::default();
    let t = ticket(&mut index, 1);
    assert!(index.get_tickets(&c(0, 0)).is_none());
    assert!(index.get_coords(&t).is_none());
}

#[test]
fn add_records_both_directions() {
    let mut index = TicketManager::default();
    let t = ticket(&mut index, 1);
    index.add(t, c(3, 4));
    assert_eq!(holds(&index, t, c(3, 4)), (true, true));
    assert_eq!(holds(&index, t, c(4, 3)), (false, false));
    assert_eq!(index.get_tickets(&c(3, 4)).unwrap().len(), 1);
    assert_eq!(index.get_coords(&t).unwrap().len(), 1);
}

#[test]
fn add_twice_is_add_once() {
    let mut index = TicketManager::default();
    let t = ticket(&mut index, 1);
    index.add(t, c(3, 4));
    index.add(t, c(3, 4));
    assert_eq!(index.get_tickets(&c(3, 4)).unwrap().len(), 1);
    assert_eq!(index.get_coords(&t).unwrap().len(), 1);
}

#[test]
fn remove_leaves_empty_entries_behind() {
    let mut index = TicketManager::default();
    let t = ticket(&mut index, 1);
    index.add(t, c(3, 4));
    index.remove(t, c(3, 4));
    assert_eq!(holds(&index, t, c(3, 4)), (false, false));
    assert!(index.get_tickets(&c(3, 4)).unwrap().is_empty());
    assert!(index.get_coords(&t).unwrap().is_empty());
}

#[test]
fn remove_of_what_was_never_added_changes_nothing() {
    let mut index = TicketManager::default();
    let t = ticket(&mut index, 1);
    let u = ticket(&mut index, 2);
    index.add(t, c(1, 1));
    index.remove(u, c(1, 1));
    index.remove(t, c(2, 2));
    index.remove(u, c(9, 9));
    assert_eq!(holds(&index, t, c(1, 1)), (true, true));
    assert!(index.get_coords(&u).is_none());
    assert!(index.get_tickets(&c(2, 2)).is_none());
    assert!(index.get_tickets(&c(9, 9)).is_none());
    assert_eq!(index.get_tickets(&c(1, 1)).unwrap().len(), 1);
}

#[test]
fn the_two_directions_agree_after_any_adds_and_removes() {
    let mut index = TicketManager::default();
    let tickets: Vec<Ticket> = (0..4).map(|n| ticket(&mut index, n)).collect();
    let coords: Vec<ChunkCoord> = vec![c(0, 0), c(1, 0), c(0, 1), c(5, 5)];
    let mut state: u32 = 12345;
    for _ in 0..400 {
        state = state.wrapping_mul(1103515245).wrapping_add(12345);
        let t = tickets[(state >> 16) as usize % 4];
        let at = coords[(state >> 20) as usize % 4];
        if (state >> 24) % 2 == 0 {
            index.add(t, at);
        } else {
            index.remove(t, at);
        }
        for &t in &tickets {
            for &at in &coords {
                let (by_chunk, by_ticket) = holds(&index, t, at);
                assert_eq!(by_chunk, by_ticket);
            }
        }
    }
}

#[test]
fn remove_chunk_hands_back_the_tickets() {
    let mut index = TicketManager::default();
    let t = ticket(&mut index, 1);
    let u = ticket(&mut index, 2);
    index.add(t, c(1, 1));
    index.add(u, c(1, 1));
    let gone = index.remove_chunk(&c(1, 1)).unwrap();
    assert_eq!(gone.len(), 2);
    assert!(gone.contains(&t));
    assert!(gone.contains(&u));
    assert!(index.get_tickets(&c(1, 1)).is_none());
    assert!(index.get_coords(&t).unwrap().contains(&c(1, 1)));
    assert!(index.remove_chunk(&c(1, 1)).is_none());
}

#[test]
fn set_coords_overwrites_the_tickets_side_only() {
    let mut index = TicketManager::default();
    let t = ticket(&mut index, 1);
    index.add(t, c(1, 1));
    let mut wanted = CoordSet::new();
    wanted.insert(c(2, 2));
    wanted.insert(c(3, 3));
    index.set_coords(t, wanted);
    let now = index.get_coords(&t).unwrap();
    assert_eq!(now.len(), 2);
    assert!(now.contains(&c(2, 2)));
    assert!(now.contains(&c(3, 3)));
    assert!(!now.contains(&c(1, 1)));
    assert!(index.get_tickets(&c(1, 1)).unwrap().contains(&t));
    assert!(index.get_tickets(&c(2, 2)).is_none());
}

#[test]
fn coord_set_behaves_as_a_set() {
    let mut set = CoordSet::new();
    assert!(set.is_empty());
    assert_eq!(set.len(), 0);
    assert!(set.insert(c(1, 2)));
    assert!(!set.insert(c(1, 2)));
    assert!(set.insert(c(2, 1)));
    assert_eq!(set.len(), 2);
    assert!(set.contains(&c(1, 2)));
    assert!(set.contains(&c(2, 1)));
    assert!(!set.contains(&c(1, 1)));
    assert!(!set.is_empty());
    assert!(set.remove(&c(1, 2)));
    assert!(!set.remove(&c(1, 2)));
    assert!(!set.contains(&c(1, 2)));
    assert_eq!(set.len(), 1);
}

#[test]
fn coord_set_difference_lists_what_the_other_lacks() {
    let mut a = CoordSet::new();
    let mut b = CoordSet::new();
    for x in 0..5 {
        a.insert(c(x, 0));
    }
    for x in 3..8 {
        b.insert(c(x, 0));
    }
    let mut only_a = a.difference(&b);
    only_a.sort_by_key(|p| p.x);
    assert_eq!(only_a, vec![c(0, 0), c(1, 0), c(2, 0)]);
    let mut only_b = b.difference(&a);
    only_b.sort_by_key(|p| p.x);
    assert_eq!(only_b, vec![c(5, 0), c(6, 0), c(7, 0)]);
    assert!(a.difference(&a).is_empty());
    assert_eq!(a.difference(&CoordSet::new()).len(), 5);
}

#[test]
fn ticket_set_behaves_as_a_set() {
    let mut index = TicketManager::default();
    let t = ticket(&mut index, 1);
    let u = ticket(&mut index, 2);
    let mut set = TicketSet::new();
    assert!(set.is_empty());
    assert!(set.insert(t));
    assert!(!set.insert(t));
    assert!(set.contains(&t));
    assert!(!set.contains(&u));
    assert_eq!(set.len(), 1);
    assert!(set.insert(u));
    assert_eq!(set.len(), 2);
    assert!(set.remove(&t));
    assert!(!set.remove(&t));
    assert!(!set.contains(&t));
    assert!(set.contains(&u));
    assert!(!set.is_empty());
}
