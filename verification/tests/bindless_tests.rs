use exo_engine::bindless::BindlessSet;
use exo_engine::pool::Pool;

#[test]
fn fresh_set_holds_no_resources() {
    let set: BindlessSet<u8, u16> = BindlessSet::new(3, 2, 2);
    for i in 0..3 {
        assert!(!set.get_sampler_image(i).is_valid());
    }
}

#[test]
fn unbound_slot_is_bound_next() {
    let mut images: Pool<u8> = Pool::new();
    let a = images.add(1);
    let b = images.add(2);
    let mut set: BindlessSet<u8, u16> = BindlessSet::new(3, 1, 1);
    set.unbind_sampler_image(2);
    assert_eq!(set.bind_sampler_image(a), 2);
    assert!(set.get_sampler_image(2).same(&a));
    set.unbind_sampler_image(1);
    assert_eq!(set.bind_sampler_image(b), 1);
    assert!(set.get_sampler_image(1).same(&b));
    assert!(set.get_sampler_image(2).same(&a));
}

#[test]
fn updates_write_binds_and_reset_unbinds() {
    let mut images: Pool<u8> = Pool::new();
    let a = images.add(1);
    let mut set: BindlessSet<u8, u16> = BindlessSet::new(4, 1, 1);
    // Slot 2 is unbound then bound again: one write, no reset.
    set.unbind_sampler_image(2);
    assert_eq!(set.bind_sampler_image(a), 2);
    // Slot 1 is unbound only: one reset.
    set.unbind_sampler_image(1);
    let u = set.take_updates();
    assert_eq!(u.writes, vec![(0, 2)]);
    assert_eq!(u.copies, vec![(0, 1)]);
    // Nothing is pending any more.
    let u = set.take_updates();
    assert!(u.writes.is_empty());
    assert!(u.copies.is_empty());
    // The slot keeps its resource across updates.
    assert!(set.get_sampler_image(2).same(&a));
    assert!(!set.get_sampler_image(1).is_valid());
}
