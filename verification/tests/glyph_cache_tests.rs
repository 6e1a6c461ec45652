use exo_engine::glyph_cache::{GlyphCache, GlyphEvent};

#[test]
fn glyph_cache_miss_then_hit() {
    let mut cache: GlyphCache<Vec<u8>> = GlyphCache::new([64, 64]);
    assert_eq!(cache.get_size(), [64, 64]);
    assert!(cache.lookup_glyph(1, 65).is_none());
    let rect = cache.insert_glyph(1, 65, 16, 16, vec![1, 2, 3]).unwrap();
    assert_eq!(rect.max_x - rect.min_x, 16);
    assert!(rect.max_y - rect.min_y >= 16);
    assert_eq!(cache.lookup_glyph(1, 65), Some(rect));
    assert!(cache.lookup_glyph(2, 65).is_none());
}

#[test]
fn glyph_cache_events_carry_images() {
    let mut cache: GlyphCache<Vec<u8>> = GlyphCache::new([64, 64]);
    let rect = cache.insert_glyph(7, 3, 8, 8, vec![9, 9]).unwrap();
    assert!(cache.can_process_events());
    let seen = std::cell::RefCell::new(Vec::new());
    cache.process_events(|event, image| {
        seen.borrow_mut().push((*event, image.cloned()));
    });
    let seen = seen.into_inner();
    assert_eq!(seen.len(), 1);
    assert_eq!(seen[0].0, GlyphEvent::New(7, 3, rect));
    assert_eq!(seen[0].1, Some(vec![9, 9]));
    let count = std::cell::Cell::new(0);
    cache.process_events(|_, _| count.set(count.get() + 1));
    assert_eq!(count.get(), 0);
}

#[test]
fn glyph_cache_evicts_least_recently_used() {
    let mut cache: GlyphCache<u8> = GlyphCache::new([32, 32]);
    let first = cache.insert_glyph(1, 1, 32, 32, 1).unwrap();
    cache.process_events(|_, _| {});
    let second = cache.insert_glyph(1, 2, 32, 32, 2).unwrap();
    assert!(cache.lookup_glyph(1, 1).is_none());
    assert_eq!(cache.lookup_glyph(1, 2), Some(second));
    let mut events = Vec::new();
    let log = std::cell::RefCell::new(&mut events);
    cache.process_events(|event, _| log.borrow_mut().push(*event));
    assert_eq!(
        events,
        vec![
            GlyphEvent::Evicted(first),
            GlyphEvent::New(1, 2, second)
        ]
    );
}

#[test]
fn glyph_cache_too_large_glyph_empties_cache() {
    let mut cache: GlyphCache<u8> = GlyphCache::new([16, 16]);
    cache.insert_glyph(1, 1, 8, 8, 1).unwrap();
    assert!(cache.insert_glyph(1, 2, 64, 64, 2).is_none());
    assert!(cache.lookup_glyph(1, 1).is_none());
    // The new glyph of the first insertion was evicted before its event was
    // processed: processing the events now would find no image.
    assert!(!cache.can_process_events());
}

#[test]
fn glyph_cache_gives_back_images() {
    let mut cache: GlyphCache<Vec<u8>> = GlyphCache::new([64, 64]);
    assert!(cache.glyph_image(1, 65).is_none());
    cache.insert_glyph(1, 65, 16, 16, vec![1, 2, 3]).unwrap();
    cache.insert_glyph(1, 66, 8, 8, vec![4]).unwrap();
    assert_eq!(cache.glyph_image(1, 65), Some(&vec![1, 2, 3]));
    assert_eq!(cache.glyph_image(1, 66), Some(&vec![4]));
    assert!(cache.glyph_image(2, 65).is_none());
    // A glyph as large as the atlas evicts both; only its image is left.
    let big = cache.insert_glyph(2, 1, 64, 64, vec![5]);
    assert!(big.is_some());
    assert!(cache.glyph_image(1, 65).is_none());
    assert!(cache.glyph_image(1, 66).is_none());
    assert_eq!(cache.glyph_image(2, 1), Some(&vec![5]));
}

#[test]
fn glyph_cache_rectangles_hold_the_glyph() {
    let mut cache: GlyphCache<u8> = GlyphCache::new([128, 128]);
    let a = cache.insert_glyph(1, 1, 10, 7, 0).unwrap();
    assert_eq!(a.max_x - a.min_x, 10);
    assert!(a.max_y - a.min_y >= 7);
    let b = cache.insert_glyph(1, 2, 33, 40, 0).unwrap();
    assert_eq!(b.max_x - b.min_x, 33);
    assert!(b.max_y - b.min_y >= 40);
}

#[test]
fn glyph_cache_empty_glyph_never_fits() {
    let mut cache: GlyphCache<u8> = GlyphCache::new([64, 64]);
    cache.insert_glyph(1, 1, 8, 8, 0).unwrap();
    // An empty glyph gets no room, however much is evicted.
    assert!(cache.insert_glyph(1, 32, 0, 12, 0).is_none());
    assert!(cache.lookup_glyph(1, 1).is_none());
    assert!(cache.lookup_glyph(1, 32).is_none());
}

#[test]
fn glyph_cache_rectangles_inside_and_apart() {
    let mut cache: GlyphCache<u8> = GlyphCache::new([128, 96]);
    let sizes = [(10, 7), (33, 40), (5, 5), (64, 12), (20, 30), (7, 50)];
    let mut rects = Vec::new();
    for (n, (w, h)) in sizes.iter().enumerate() {
        let r = cache.insert_glyph(1, n as u16, *w, *h, 0).unwrap();
        assert!(0 <= r.min_x && r.min_x <= r.max_x && r.max_x <= 128);
        assert!(0 <= r.min_y && r.min_y <= r.max_y && r.max_y <= 96);
        rects.push(r);
    }
    // Whatever is still cached shares no texel with another cached glyph.
    let live: Vec<_> = (0..sizes.len())
        .filter_map(|n| cache.lookup_glyph(1, n as u16))
        .collect();
    for (a, ra) in live.iter().enumerate() {
        for rb in live.iter().skip(a + 1) {
            assert!(
                ra.max_x <= rb.min_x || rb.max_x <= ra.min_x || ra.max_y <= rb.min_y || rb.max_y <= ra.min_y
            );
        }
    }
    assert!(!rects.is_empty());
}
