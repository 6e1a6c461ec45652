use exo_engine::pool::{Handle, Pool};
use exo_engine::resource_registry::{framebuffer_matches, ResourceRegistry};

fn contains<T>(list: &[Handle<T>], h: &Handle<T>) -> bool {
    list.iter().any(|x| x.same(h))
}

#[test]
fn begin_frame_releases_by_age() {
    let mut images: Pool<u8> = Pool::new();
    let a = images.add(1);
    let b = images.add(2);
    let mut descs: Pool<u16> = Pool::new();
    let d = descs.add(7);
    let mut fbs: Pool<u32> = Pool::new();
    let f = fbs.add(0);

    let mut reg: ResourceRegistry<u8, u32, u16> = ResourceRegistry::new();
    reg.update_image_metadata(a, d);
    reg.register_framebuffer(f);

    // Used at frame 0: at frame 2 nothing has been unused for 2 frames.
    let c = reg.begin_frame(2);
    assert!(c.images_to_unbind.is_empty());
    assert!(c.images_to_destroy.is_empty());
    assert!(c.framebuffers_to_destroy.is_empty());

    // At frame 3, `a` (used at 0) leaves the bindless set; the framebuffer
    // and `b` (used at 2) stay.
    reg.update_image_metadata(b, d);
    let c = reg.begin_frame(3);
    assert_eq!(c.images_to_unbind.len(), 1);
    assert!(contains(&c.images_to_unbind, &a));
    assert!(c.framebuffers_to_destroy.is_empty());
    assert!(c.images_to_destroy.is_empty());

    // At frame 4 the framebuffer (0 + 3 < 4) goes.
    let c = reg.begin_frame(4);
    assert_eq!(c.framebuffers_to_destroy.len(), 1);
    assert!(contains(&c.framebuffers_to_destroy, &f));
    assert!(reg.framebuffer_handles().is_empty());
    assert_eq!(c.images_to_unbind.len(), 1);

    // At frame 5, `b` (used at 2) leaves the bindless set as well.
    let c = reg.begin_frame(5);
    assert_eq!(c.images_to_unbind.len(), 2);
    assert!(contains(&c.images_to_unbind, &b));
    assert!(c.images_to_destroy.is_empty());

    // At frame 20, `a` is destroyed; `b` (2 + 19 >= 20) is kept.
    let c = reg.begin_frame(20);
    assert_eq!(c.images_to_destroy.len(), 1);
    assert!(contains(&c.images_to_destroy, &a));
    assert_eq!(c.images_to_unbind.len(), 2);

    // Starting the same frame again releases nothing more for destruction.
    let c = reg.begin_frame(20);
    assert!(c.images_to_destroy.is_empty());
    assert!(c.framebuffers_to_destroy.is_empty());
}

#[test]
fn end_frame_unbinds_descriptions() {
    let mut images: Pool<u8> = Pool::new();
    let a = images.add(1);
    let mut descs: Pool<u16> = Pool::new();
    let d = descs.add(7);
    let mut reg: ResourceRegistry<u8, u32, u16> = ResourceRegistry::new();
    reg.update_image_metadata(a, d);
    assert!(reg.unresolved_images().is_empty());
    reg.end_frame();
    let free = reg.unresolved_images();
    assert_eq!(free.len(), 1);
    assert!(free[0].same(&a));
    // A known image keeps its (now invalid) description when used again.
    reg.update_image_metadata(a, d);
    assert_eq!(reg.unresolved_images().len(), 1);
}

#[test]
fn remove_image_forgets_it() {
    let mut images: Pool<u8> = Pool::new();
    let a = images.add(1);
    let b = images.add(2);
    let mut descs: Pool<u16> = Pool::new();
    let d = descs.add(7);
    let mut reg: ResourceRegistry<u8, u32, u16> = ResourceRegistry::new();
    reg.update_image_metadata(a, d);
    reg.update_image_metadata(b, d);
    reg.end_frame();
    reg.remove_image(a);
    let free = reg.unresolved_images();
    assert_eq!(free.len(), 1);
    assert!(free[0].same(&b));
    let c = reg.begin_frame(30);
    assert_eq!(c.images_to_destroy.len(), 1);
    assert!(contains(&c.images_to_destroy, &b));
}

#[test]
fn touched_framebuffer_survives() {
    let mut fbs: Pool<u32> = Pool::new();
    let f = fbs.add(0);
    let g = fbs.add(1);
    let mut reg: ResourceRegistry<u8, u32, u16> = ResourceRegistry::new();
    reg.register_framebuffer(f);
    reg.register_framebuffer(g);
    let list = reg.framebuffer_handles();
    assert_eq!(list.len(), 2);
    assert!(list[0].same(&f) && list[1].same(&g));
    let _ = reg.begin_frame(3);
    reg.touch_framebuffer(g);
    let c = reg.begin_frame(6);
    assert_eq!(c.framebuffers_to_destroy.len(), 1);
    assert!(contains(&c.framebuffers_to_destroy, &f));
    let list = reg.framebuffer_handles();
    assert_eq!(list.len(), 1);
    assert!(list[0].same(&g));
}

#[test]
fn reuse_framebuffer_takes_first_match() {
    let mut fbs: Pool<u32> = Pool::new();
    let f = fbs.add(0);
    let g = fbs.add(1);
    let mut reg: ResourceRegistry<u8, u32, u16> = ResourceRegistry::new();
    reg.register_framebuffer(f);
    reg.register_framebuffer(g);
    assert!(reg.reuse_framebuffer(&[false, false]).is_none());
    let _ = reg.begin_frame(3);
    let r = reg.reuse_framebuffer(&[false, true]).unwrap();
    assert!(r.same(&g));
    // `g` was used at frame 3 and survives frame 6; `f` does not.
    let c = reg.begin_frame(6);
    assert_eq!(c.framebuffers_to_destroy.len(), 1);
    assert!(contains(&c.framebuffers_to_destroy, &f));
    let r = reg.reuse_framebuffer(&[true]).unwrap();
    assert!(r.same(&g));
}

#[test]
fn framebuffer_matches_compares_attachments_and_size() {
    let mut images: Pool<u8> = Pool::new();
    let a = images.add(1);
    let b = images.add(2);
    let depth = images.add(3);
    let none: Handle<u8> = Handle::invalid();
    assert!(framebuffer_matches(&[a, b], depth, [4, 4, 1], &[a, b], depth, [4, 4, 1]));
    assert!(!framebuffer_matches(&[a, b], depth, [4, 4, 1], &[b, a], depth, [4, 4, 1]));
    assert!(!framebuffer_matches(&[a, b], depth, [4, 4, 1], &[a], depth, [4, 4, 1]));
    assert!(!framebuffer_matches(&[a, b], depth, [4, 4, 1], &[a, b], none, [4, 4, 1]));
    assert!(!framebuffer_matches(&[a, b], depth, [4, 4, 1], &[a, b], depth, [4, 8, 1]));
    assert!(framebuffer_matches(&[], depth, [2, 2, 1], &[], depth, [2, 2, 1]));
}
