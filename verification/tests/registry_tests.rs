//! Handle registry behavior: counts, ordering, deferred removal.

use render_core::registry::ResourceRegistry;

#[test]
fn count_tracks_inserts_and_sweeps() {
    let mut reg: ResourceRegistry<u32> = ResourceRegistry::new();
    assert_eq!(reg.count(), 0);
    let a = reg.allocate();
    let b = reg.allocate();
    let c = reg.allocate();
    // Allocation alone creates no entry.
    assert_eq!(reg.count(), 0);
    assert!(!reg.contains_entry(a));
    reg.insert(a, 10);
    reg.insert(b, 20);
    reg.insert(c, 30);
    assert_eq!(reg.count(), 3);
    assert_eq!(reg.values().len(), reg.count());
    // Marking removed keeps the entry until the sweep.
    reg.mark_removed(b);
    assert_eq!(reg.count(), 3);
    assert_eq!(reg.values().len(), 3);
    let removed = reg.remove_all_dead();
    assert_eq!(removed, vec![20]);
    assert_eq!(reg.count(), 2);
    assert_eq!(reg.values().len(), reg.count());
}

#[test]
fn sweep_drops_removed_handles() {
    let mut reg: ResourceRegistry<i64> = ResourceRegistry::new();
    let a = reg.allocate();
    let b = reg.allocate();
    reg.insert(a, -1);
    reg.insert(b, -2);
    reg.mark_removed(a);
    // Still visible before the sweep.
    assert!(reg.contains_entry(a));
    assert!(!reg.contains_live(a));
    let removed = reg.remove_all_dead();
    assert_eq!(removed, vec![-1]);
    // Gone afterwards: the existence check that guards get now fails.
    assert!(!reg.contains_entry(a));
    assert!(!reg.contains_live(a));
    assert!(reg.contains_live(b));
    assert_eq!(*reg.get(b), -2);
}

#[test]
fn values_keep_insertion_order() {
    let mut reg: ResourceRegistry<u8> = ResourceRegistry::new();
    let a = reg.allocate();
    let b = reg.allocate();
    let c = reg.allocate();
    reg.insert(c, 3);
    reg.insert(a, 1);
    reg.insert(b, 2);
    assert_eq!(reg.values().clone(), vec![3, 1, 2]);
    reg.mark_removed(a);
    reg.remove_all_dead();
    assert_eq!(reg.values().clone(), vec![3, 2]);
}

#[test]
fn insert_overwrites_in_place() {
    let mut reg: ResourceRegistry<u32> = ResourceRegistry::new();
    let a = reg.allocate();
    let b = reg.allocate();
    reg.insert(a, 5);
    reg.insert(b, 6);
    reg.insert(a, 50);
    assert_eq!(reg.count(), 2);
    assert_eq!(reg.values().clone(), vec![50, 6]);
    assert_eq!(*reg.get(a), 50);
}

#[test]
fn handles_are_not_reused_while_live() {
    let mut reg: ResourceRegistry<u32> = ResourceRegistry::new();
    let a = reg.allocate();
    let b = reg.allocate();
    assert_ne!(a, b);
    reg.insert(a, 1);
    reg.insert(b, 2);
    reg.mark_removed(a);
    reg.remove_all_dead();
    let c = reg.allocate();
    assert_ne!(c, a);
    assert_ne!(c, b);
}
