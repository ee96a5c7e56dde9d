use blobwar::positions::{BoardPosition, Position, Positions};

#[test]
fn single_contains_only_its_position() {
    let p = Positions::single(5);
    assert!(p.contains(5));
    for i in 0..64u8 {
        if i != 5 {
            assert!(!p.contains(i));
        }
    }
}

#[test]
fn union_and_intersection() {
    let a = Positions::single(3).union_with(Positions::single(10));
    let b = Positions::single(10).union_with(Positions::single(20));
    let i = a.intersection_with(b);
    assert!(i.contains(10));
    assert!(!i.contains(3));
    assert!(!i.contains(20));
    let u = a.union_with(b);
    assert!(u.contains(3) && u.contains(10) && u.contains(20));
}

#[test]
fn add_and_remove_in_place() {
    let mut p = Positions::default();
    assert!(p.is_empty());
    p.add(Positions::single(7));
    p.add(Positions::single(63));
    assert!(p.contains(7) && p.contains(63));
    assert_eq!(p.len(), 2);
    p.remove(Positions::single(7));
    assert!(!p.contains(7));
    assert!(p.contains(63));
    assert_eq!(p.len(), 1);
}

#[test]
fn invert_flips_membership() {
    let p = Positions::single(0);
    let q = p.invert();
    assert!(!q.contains(0));
    for i in 1..64u8 {
        assert!(q.contains(i));
    }
    assert!(p.union_with(q).is_all());
}

#[test]
fn len_counts_bits() {
    assert_eq!(Positions(0).len(), 0);
    assert_eq!(Positions(u64::MAX).len(), 64);
    assert_eq!(Positions(0b1011).len(), 3);
}

#[test]
fn positions_lists_members_ascending() {
    let p = Positions::single(2).union_with(Positions::single(40)).union_with(
        Positions::single(63),
    );
    assert_eq!(p.positions(), vec![2, 40, 63]);
    assert_eq!(Positions(0).positions(), Vec::<Position>::new());
}

#[test]
fn is_all_only_on_full_mask() {
    assert!(Positions(u64::MAX).is_all());
    assert!(!Positions(u64::MAX - 1).is_all());
}

#[test]
fn full_bits_has_64_entries() {
    let p = Positions::single(1);
    let bits = p.full_bits();
    assert_eq!(bits.len(), 64);
    assert!(bits[1]);
    assert!(!bits[0]);
    assert!(!bits[63]);
}

#[test]
fn bit_iterator_stops_after_highest_bit() {
    let p = Positions(0b101);
    let mut it = p.bits();
    assert_eq!(it.next(), Some(true));
    assert_eq!(it.next(), Some(false));
    assert_eq!(it.next(), Some(true));
    assert_eq!(it.next(), None);
}

#[test]
fn coordinates_round_trip() {
    for p in 0..64u8 {
        let (x, y) = p.to_2d();
        assert_eq!(Position::from_2d(x, y), p);
    }
}

#[test]
fn chebyshev_distances() {
    let corner = Position::from_2d(0, 0);
    assert_eq!(corner.distance_to(Position::from_2d(1, 1)), 1);
    assert_eq!(corner.distance_to(Position::from_2d(2, 1)), 2);
    assert_eq!(corner.distance_to(Position::from_2d(7, 7)), 7);
    assert_eq!(corner.distance_to(corner), 0);
}
