use exo_engine::pool::{Entry, Handle, Metadata, Pool};

#[test]
fn pool_add_get_remove() {
    let mut pool: Pool<u32> = Pool::new();
    let a = pool.add(10);
    let b = pool.add(20);
    let c = pool.add(30);
    assert_eq!(*pool.get(a), 10);
    assert_eq!(*pool.get(b), 20);
    assert_eq!(*pool.get(c), 30);
    assert_eq!(pool.len(), 3);
    pool.remove(b);
    assert!(!pool.is_live(b));
    assert!(pool.is_live(a));
    assert!(pool.is_live(c));
    assert_eq!(pool.len(), 2);
}

#[test]
fn pool_growth_skips_first_new_slot() {
    let mut pool: Pool<u32> = Pool::new();
    assert_eq!(pool.capacity(), 0);
    let a = pool.add(1);
    assert_eq!(a.index(), 1);
    assert_eq!(pool.capacity(), 2);
    let b = pool.add(2);
    assert_eq!(b.index(), 3);
    assert_eq!(pool.capacity(), 4);
    let c = pool.add(3);
    assert_eq!(c.index(), 5);
    assert_eq!(pool.capacity(), 8);
    let d = pool.add(4);
    assert_eq!(d.index(), 6);
    assert_eq!(pool.capacity(), 8);
}

#[test]
fn pool_removed_slot_is_reused_with_new_generation() {
    let mut pool: Pool<u32> = Pool::new();
    let a = pool.add(1);
    assert_eq!(a.generation(), 0);
    pool.remove(a);
    let b = pool.add(2);
    assert_eq!(b.index(), a.index());
    assert_eq!(b.generation(), 1);
    assert!(!pool.is_live(a));
    assert!(pool.is_live(b));
    assert_eq!(*pool.get(b), 2);
}

#[test]
fn pool_get_mut_writes() {
    let mut pool: Pool<u32> = Pool::new();
    let a = pool.add(1);
    *pool.get_mut(a) = 42;
    assert_eq!(*pool.get(a), 42);
}

#[test]
fn pool_invalid_handle_is_never_live() {
    let mut pool: Pool<u32> = Pool::default();
    let _ = pool.add(1);
    let invalid: Handle<u32> = Handle::invalid();
    assert!(!pool.is_live(invalid));
    let a = pool.add(2);
    let a2 = a.clone();
    assert!(a.same(&a2));
    assert!(!a.same(&invalid));
}

#[test]
fn metadata_flags() {
    let mut m = Metadata { flags: 0 };
    assert!(!m.get_is_occupied());
    m.set_is_occupied(true);
    assert!(m.get_is_occupied());
    assert_eq!(m.flags, 0x8000_0000);
    m.set_generation(0xFFFF_FFFF);
    assert_eq!(m.get_generation(), 0x7FFF_FFFF);
    assert!(m.get_is_occupied());
    m.set_is_occupied(false);
    assert_eq!(m.flags, 0x7FFF_FFFF);
}

#[test]
fn entry_accessors() {
    let mut e: Entry<u32> = Entry::Filled(3);
    assert_eq!(e.as_empty(), None);
    assert_eq!(e.as_filled(), Some(&3));
    *e.as_filled_mut().unwrap() = 4;
    assert_eq!(e.as_filled(), Some(&4));
    let f: Entry<u32> = Entry::Empty(Some(7));
    assert_eq!(f.as_empty(), Some(Some(7)));
    assert_eq!(f.as_filled(), None);
}

#[test]
fn pool_add_indices_follow_free_list() {
    let mut pool: Pool<u32> = Pool::new();
    // Growing from empty skips slot 0: the first value goes to slot 1.
    let a = pool.add(1);
    assert_eq!(a.index(), 1);
    // Full again: growing to 4 slots skips slot 2.
    let b = pool.add(2);
    assert_eq!(b.index(), 3);
    // A removed slot is the next one handed out, with a new generation.
    pool.remove(a);
    assert!(!pool.is_live(a));
    let c = pool.add(3);
    assert_eq!(c.index(), 1);
    assert_ne!(c.generation(), a.generation());
    assert!(!pool.is_live(a));
    assert_ne!(c.index(), b.index());
    assert_eq!(*pool.get(b), 2);
}
