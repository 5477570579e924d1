use collatz::pending::{PendingStore, Strategy};

#[test]
fn store_insert_contains_remove() {
    for strategy in [Strategy::FixedSlots, Strategy::Hashed, Strategy::List, Strategy::MinOrdered] {
        let mut s = PendingStore::new(strategy, 2);
        assert_eq!(s.size(), 0);
        assert!(!s.contains(9));
        s.insert(9);
        s.insert(3);
        s.insert(6);
        assert_eq!(s.size(), 3);
        assert!(s.contains(3) && s.contains(6) && s.contains(9));
        assert!(!s.contains(4));
        assert!(s.try_remove(6));
        assert!(!s.try_remove(6));
        assert!(!s.contains(6));
        assert_eq!(s.size(), 2);
        assert!(s.try_remove(3));
        assert!(s.try_remove(9));
        assert_eq!(s.size(), 0);
    }
}
