use std::collections::HashSet;
use winlane::inventory::{closed_windows, Inventory, PendingWindow, PublishedWindow, WindowRecord};

fn record(id: Option<i64>, pid: Option<i64>, normal_surface: bool) -> WindowRecord {
    WindowRecord { id, pid, normal_surface }
}

fn listing() -> Vec<WindowRecord> {
    vec![
        record(Some(5), Some(10), true),
        record(Some(6), Some(10), false),
        record(Some(7), None, true),
        record(None, Some(10), true),
        record(Some(-1), Some(10), true),
        record(Some(1 << 33), Some(10), true),
        record(Some(8), Some(1 << 40), true),
        record(Some(9), Some(11), true),
    ]
}

#[test]
fn known_windows_are_those_with_valid_numbers() {
    let inventory = Inventory::read(Some(&listing()));
    for id in [5, 6, 7, 8, 9] {
        assert!(inventory.contains(id), "{id}");
    }
    assert!(!inventory.contains(4));
    assert!(!inventory.contains(u32::MAX));
}

#[test]
fn normal_windows_are_grouped_by_process() {
    let inventory = Inventory::read(Some(&listing()));
    let own = inventory.normal.get(&10).unwrap();
    assert!(own.contains(&5));
    assert!(!own.contains(&6));
    assert_eq!(own.len(), 1);
    assert!(inventory.normal.get(&11).unwrap().contains(&9));
    assert_eq!(inventory.normal.len(), 2);
}

#[test]
fn rejects_known_windows_that_are_not_normal_for_the_process() {
    let inventory = Inventory::read(Some(&listing()));
    assert!(!inventory.rejects(10, 5));
    assert!(inventory.rejects(10, 6));
    assert!(inventory.rejects(11, 5));
    assert!(inventory.rejects(10, 7));
    assert!(!inventory.rejects(10, 42));
    assert!(!inventory.rejects(11, 9));
}

#[test]
fn missing_listing() {
    assert!(Inventory::try_read(None).is_none());
    let empty = Inventory::read(None);
    assert!(!empty.contains(5));
    assert!(!empty.rejects(10, 5));
    assert!(empty.normal.is_empty());
    assert!(Inventory::try_read(Some(&[])).is_some());
}

#[test]
fn adding_records_one_by_one() {
    let mut inventory = Inventory::default();
    inventory.add(&record(Some(3), Some(2), true));
    assert!(inventory.contains(3));
    assert!(!inventory.rejects(2, 3));
    inventory.add(&record(Some(4), Some(2), false));
    assert!(inventory.rejects(2, 4));
}

#[test]
fn pending_windows_that_disappeared_are_closed() {
    let inventory = Inventory::read(Some(&listing()));
    let pending = [
        PendingWindow { id: 1, server_id: Some(5) },
        PendingWindow { id: 2, server_id: Some(4) },
        PendingWindow { id: 3, server_id: None },
        PendingWindow { id: 4, server_id: Some(100) },
    ];
    assert_eq!(closed_windows(&inventory, &pending), vec![2, 4]);
    assert_eq!(closed_windows(&inventory, &[]), Vec::<u64>::new());
}

fn published(server_id: Option<u32>, minimized: bool) -> PublishedWindow {
    PublishedWindow { server_id, minimized }
}

#[test]
fn published_windows_are_checked_against_the_inventory() {
    let inventory = Inventory::read(Some(&listing()));
    let windows = [
        published(Some(5), false),
        published(None, false),
        published(Some(6), false),
        published(Some(6), true),
        published(Some(5), false),
        published(Some(42), false),
    ];
    let completion = inventory.complete(10, &windows);
    assert_eq!(completion.kept, vec![0, 1, 3, 5]);
    assert!(completion.missing.is_empty());
}

#[test]
fn normal_windows_nobody_published_are_missing() {
    let inventory = Inventory::read(Some(&listing()));
    let completion = inventory.complete(11, &[published(Some(7), false)]);
    assert_eq!(completion.kept, Vec::<usize>::new());
    assert_eq!(completion.missing, HashSet::from([9]));
    let none = inventory.complete(12, &[]);
    assert!(none.kept.is_empty() && none.missing.is_empty());
}

#[test]
fn normal_windows_are_always_known() {
    let inventory = Inventory::read(Some(&listing()));
    for (pid, ids) in &inventory.normal {
        for id in ids {
            assert!(inventory.contains(*id));
            assert!(!inventory.rejects(*pid, *id));
        }
    }
}

#[test]
fn known_numbers_are_exactly_the_listed_ones() {
    let inventory = Inventory::read(Some(&listing()));
    let mut known: Vec<u32> = inventory.known.iter().copied().collect();
    known.sort();
    assert_eq!(known, vec![5, 6, 7, 8, 9]);
    assert!(inventory.normal.values().all(|ids| !ids.is_empty()));
}
