use sw_core::world::area::QuadArea;
use sw_core::world::chunk::ChunkCoord;

fn coords(pairs: &[(usize, usize)]) -> Vec<ChunkCoord> {
    pairs.iter().map(|&(x, y)| ChunkCoord::new(x, y)).collect()
}

#[test]
fn radius_zero_is_the_centre_alone() {
    let area = QuadArea::new(ChunkCoord::new(7, 9), 0);
    assert_eq!(area.to_vec(), coords(&[(7, 9)]));
}

#[test]
fn radius_one_goes_row_by_row() {
    let area = QuadArea::new(ChunkCoord::new(5, 5), 1);
    assert_eq!(
        area.to_vec(),
        coords(&[(4, 4), (5, 4), (6, 4), (4, 5), (5, 5), (6, 5), (4, 6), (5, 6), (6, 6)])
    );
}

#[test]
fn next_hands_out_one_at_a_time_and_then_stops() {
    let mut area = QuadArea::new(ChunkCoord::new(1, 1), 1);
    let mut seen = Vec::new();
    while let Some(c) = area.next() {
        seen.push(c);
    }
    assert_eq!(seen.len(), 9);
    assert_eq!(seen[0], ChunkCoord::new(0, 0));
    assert_eq!(seen[8], ChunkCoord::new(2, 2));
    assert_eq!(area.next(), None);
    assert_eq!(area.next(), None);
}

#[test]
fn full_square_has_side_squared_distinct_coordinates_in_range() {
    for r in 0..6usize {
        let center = ChunkCoord::new(10, 20);
        let all = QuadArea::new(center, r).to_vec();
        assert_eq!(all.len(), (2 * r + 1) * (2 * r + 1));
        for (i, a) in all.iter().enumerate() {
            assert!(center.x - r <= a.x && a.x <= center.x + r);
            assert!(center.y - r <= a.y && a.y <= center.y + r);
            for b in &all[i + 1..] {
                assert_ne!(a, b);
            }
        }
    }
}

#[test]
fn square_is_cut_off_at_zero() {
    let all = QuadArea::new(ChunkCoord::new(0, 0), 2).to_vec();
    assert_eq!(all.len(), 9);
    assert_eq!(all[0], ChunkCoord::new(0, 0));
    assert_eq!(all[8], ChunkCoord::new(2, 2));

    let all = QuadArea::new(ChunkCoord::new(1, 5), 3).to_vec();
    assert_eq!(all.len(), 5 * 7);
    assert_eq!(all[0], ChunkCoord::new(0, 2));
    assert_eq!(all[34], ChunkCoord::new(4, 8));
}

#[test]
fn square_is_cut_off_at_the_largest_x() {
    let all = QuadArea::new(ChunkCoord::new(usize::MAX, 3), 1).to_vec();
    assert_eq!(all.len(), 2 * 3);
    assert_eq!(all[0], ChunkCoord::new(usize::MAX - 1, 2));
    assert_eq!(all[1], ChunkCoord::new(usize::MAX, 2));
    assert_eq!(all[5], ChunkCoord::new(usize::MAX, 4));
}

#[test]
fn square_next_to_the_largest_y() {
    let all = QuadArea::new(ChunkCoord::new(0, usize::MAX - 2), 1).to_vec();
    assert_eq!(all.len(), 2 * 3);
    assert_eq!(all[0], ChunkCoord::new(0, usize::MAX - 3));
    assert_eq!(all[5], ChunkCoord::new(1, usize::MAX - 1));
}

#[test]
fn square_is_cut_off_at_the_largest_y() {
    let mut area = QuadArea::new(ChunkCoord::new(0, usize::MAX), 1);
    let mut seen = Vec::new();
    while let Some(c) = area.next() {
        seen.push(c);
    }
    assert_eq!(
        seen,
        vec![
            ChunkCoord::new(0, usize::MAX - 1),
            ChunkCoord::new(1, usize::MAX - 1),
            ChunkCoord::new(0, usize::MAX),
            ChunkCoord::new(1, usize::MAX),
        ]
    );
    assert_eq!(area.next(), None);
    assert_eq!(area.next(), None);
}

#[test]
fn square_in_the_far_corner_of_the_grid() {
    let corner = ChunkCoord::new(usize::MAX, usize::MAX);
    let all = QuadArea::new(corner, 2).to_vec();
    assert_eq!(all.len(), 9);
    assert_eq!(all[0], ChunkCoord::new(usize::MAX - 2, usize::MAX - 2));
    assert_eq!(all[8], corner);
    assert_eq!(QuadArea::new(corner, 0).to_vec(), vec![corner]);
    assert_eq!(QuadArea::new(corner, 3).collect().len(), 16);
}

#[test]
fn collect_gives_the_same_coordinates_as_a_set() {
    let set = QuadArea::new(ChunkCoord::new(3, 3), 2).collect();
    assert_eq!(set.len(), 25);
    for c in QuadArea::new(ChunkCoord::new(3, 3), 2).to_vec() {
        assert!(set.contains(&c));
    }
    assert!(!set.contains(&ChunkCoord::new(6, 3)));
    assert!(!set.contains(&ChunkCoord::new(0, 0)));
}

#[test]
fn a_started_area_collects_only_what_is_left() {
    let mut area = QuadArea::new(ChunkCoord::new(1, 1), 1);
    assert_eq!(area.next(), Some(ChunkCoord::new(0, 0)));
    assert_eq!(area.next(), Some(ChunkCoord::new(1, 0)));
    let rest = area.to_vec();
    assert_eq!(rest.len(), 7);
    assert_eq!(rest[0], ChunkCoord::new(2, 0));
}
