use ld65::range::NonemptyRange;

#[test]
fn range_from_start_len_gives_bounds() {
    let r = NonemptyRange::from_start_len(0x8000, 0x10);
    assert_eq!(r.min(), 0x8000);
    assert_eq!(r.max(), 0x800F);
    assert_eq!(r.len(), 0x10);
}

#[test]
fn range_tells_what_it_holds() {
    let r = NonemptyRange::from_min_max(10, 20);
    assert_eq!(r.len(), 11);
    assert!(r.contains(10));
    assert!(r.contains(20));
    assert!(!r.contains(9));
    assert!(!r.contains(21));
    assert!(r.intersects(NonemptyRange::from_min_max(20, 30)));
    assert!(r.intersects(NonemptyRange::from_min_max(0, 10)));
    assert!(r.intersects(NonemptyRange::from_min_max(12, 13)));
    assert!(!r.intersects(NonemptyRange::from_min_max(21, 30)));
    assert!(!r.intersects(NonemptyRange::from_min_max(0, 9)));
    assert!(r.contains_range(NonemptyRange::from_min_max(10, 20)));
    assert!(r.contains_range(NonemptyRange::from_min_max(12, 13)));
    assert!(!r.contains_range(NonemptyRange::from_min_max(9, 13)));
    assert!(!r.contains_range(NonemptyRange::from_min_max(12, 21)));
    assert_eq!(NonemptyRange::from_start_len(5, 1), NonemptyRange::from_min_max(5, 5));
}
