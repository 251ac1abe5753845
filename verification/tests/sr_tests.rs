use lib::sr::{Sr, SrStore};

#[test]
fn new_handle_reads_its_value() {
    let mut store: SrStore<u32> = SrStore::new();
    let h = Sr::new(7, &mut store);
    assert_eq!(*h.get_immut(&store), 7);
    assert_eq!(store.count(&h), 1);
    assert_eq!(store.len(), 1);
}

#[test]
fn write_through_clone_is_seen_by_original() {
    let mut store: SrStore<u32> = SrStore::new();
    let a = Sr::new(1, &mut store);
    let b = a.clone(&mut store);
    *b.get_mut(&mut store) = 42;
    assert_eq!(*a.get_immut(&store), 42);
    assert_eq!(store.count(&a), 2);
}

#[test]
fn clone_then_drop_restores_count() {
    let mut store: SrStore<u32> = SrStore::new();
    let a = Sr::new(5, &mut store);
    let b = a.clone(&mut store);
    assert_eq!(store.count(&a), 2);
    b.drop(&mut store);
    assert_eq!(store.count(&a), 1);
    assert!(store.is_live(&a));
    assert_eq!(*a.get_immut(&store), 5);
}

#[test]
fn freed_slot_is_not_live() {
    let mut store: SrStore<u32> = SrStore::new();
    let a = Sr::new(3, &mut store);
    let keep = Sr::new(4, &mut store);
    let watcher = a.clone(&mut store);
    a.drop(&mut store);
    watcher.drop(&mut store);
    assert_eq!(store.len(), 2);
    assert!(store.is_live(&keep));
    assert_eq!(store.count(&keep), 1);
}

#[test]
fn handles_to_different_values_are_independent() {
    let mut store: SrStore<u32> = SrStore::new();
    let a = Sr::new(1, &mut store);
    let b = Sr::new(2, &mut store);
    *a.get_mut(&mut store) = 10;
    let c = b.clone(&mut store);
    assert_eq!(*b.get_immut(&store), 2);
    assert_eq!(*c.get_immut(&store), 2);
    assert_eq!(*a.get_immut(&store), 10);
    assert_eq!(store.count(&a), 1);
    assert_eq!(store.count(&b), 2);
}
