use velox_server::table::{Slot, Table};

#[test]
fn allocations_count_up_from_zero() {
    let mut t: Table<u32> = Table::new();
    for n in 0..10u16 {
        assert_eq!(t.fit_in(u32::from(n) * 7), n);
    }
    assert_eq!(t.len(), 10);
    assert!(!t.is_empty());
    assert!(!t.is_full());
}

#[test]
fn released_identifier_is_reused_first() {
    let mut t: Table<u32> = Table::new();
    for n in 0..6u32 {
        t.fit_in(n);
    }
    assert_eq!(t.remove(3), Some(3));
    assert_eq!(t.remove(1), Some(1));
    assert_eq!(t.fit_in(100), 1);
    assert_eq!(t.fit_in(101), 3);
    assert_eq!(t.fit_in(102), 6);
    assert_eq!(t.get(1), Some(100));
    assert_eq!(t.get(3), Some(101));
    assert_eq!(t.get(7), None);
}

#[test]
fn slots_stay_in_order_of_identifier() {
    let mut t: Table<u8> = Table::new();
    t.fit_in(10);
    t.fit_in(11);
    t.fit_in(12);
    t.remove(0);
    t.fit_in(13);
    let ids: Vec<u16> = t.slots.iter().map(|s| s.id).collect();
    assert_eq!(ids, vec![0, 1, 2]);
    assert_eq!(t.slots[0], Slot { id: 0, item: 13 });
    assert_eq!(t.position(2), Some(2));
    assert_eq!(t.position(9), None);
}

#[test]
fn removing_an_absent_identifier_changes_nothing() {
    let mut t: Table<u8> = Table::new();
    t.fit_in(1);
    assert_eq!(t.remove(5), None);
    assert_eq!(t.len(), 1);
    assert!(t.contains_key(0));
    assert!(!t.contains_key(5));
}

#[test]
fn replace_touches_one_entry_only() {
    let mut t: Table<u8> = Table::new();
    t.fit_in(1);
    t.fit_in(2);
    assert!(t.replace(1, 9));
    assert!(!t.replace(4, 9));
    assert_eq!(t.get(0), Some(1));
    assert_eq!(t.get(1), Some(9));
    assert_eq!(t.len(), 2);
}

#[test]
fn closing_a_gap_lowers_the_identifiers_above_it() {
    let mut t: Table<u8> = Table::new();
    for n in 0..5u8 {
        t.fit_in(n);
    }
    t.remove(2);
    t.close_gap(2);
    let got: Vec<(u16, u8)> = t.slots.iter().map(|s| (s.id, s.item)).collect();
    assert_eq!(got, vec![(0, 0), (1, 1), (2, 3), (3, 4)]);
}

#[test]
fn new_table_is_empty() {
    let t: Table<u8> = Table::new();
    assert!(t.is_empty());
    assert_eq!(t.len(), 0);
    assert_eq!(t.get(0), None);
}

#[test]
fn order_is_checked() {
    let mut t: Table<u8> = Table::new();
    assert!(t.is_wf());
    t.fit_in(1);
    t.fit_in(2);
    t.insert(9, 3);
    assert!(t.is_wf());
    let unordered = Table { slots: vec![Slot { id: 2, item: 0u8 }, Slot { id: 1, item: 0 }] };
    assert!(!unordered.is_wf());
    let twice = Table { slots: vec![Slot { id: 0, item: 0u8 }, Slot { id: 4, item: 0 }, Slot { id: 4, item: 1 }] };
    assert!(!twice.is_wf());
}
