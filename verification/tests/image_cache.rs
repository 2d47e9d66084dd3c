use vello::image_cache::{AtlasImage, ImageCache, EVICT_AFTER_GENERATIONS};

fn image(id_byte: u8, width: u32, height: u32) -> AtlasImage {
    AtlasImage { id: u64::from(id_byte), width, height }
}

#[test]
fn atlas_size_persists_after_growth() {
    let mut cache = ImageCache::new_with_sizes(16, 64);
    assert_eq!(cache.atlas_size().0, 16);
    assert!(cache.bump_size());
    assert_eq!(cache.atlas_size().0, 32);
    cache.begin_resolve();
    assert_eq!(cache.atlas_size().0, 32);
}

/// The atlas gives its memory back once every image is gone.
#[test]
fn atlas_returns_to_the_floor_once_the_cache_drains() {
    let mut cache = ImageCache::new_with_sizes(16, 256);
    let big = image(1, 96, 96);

    cache.begin_resolve();
    while cache.get_or_insert(&big).is_none() {
        assert!(cache.bump_size(), "the atlas should reach a size that fits");
    }
    let grown = cache.atlas_size().0;
    assert!(grown >= 96, "a 96px image needs at least a 96px atlas");
    cache.finish_resolve();

    // Frames that draw nothing, which is what lets the big image go stale.
    for _ in 0..=EVICT_AFTER_GENERATIONS {
        cache.begin_resolve();
        cache.evict_stale_entries();
        cache.finish_resolve();
    }
    cache.shrink_to_fit();

    assert!(cache.resident_count() == 0, "the cache should have drained");
    assert_eq!(
        cache.atlas_size().0,
        16,
        "a drained cache should give the atlas back to the floor"
    );
}

/// Shrinking may move residents, but must never drop one.
#[test]
fn shrinking_keeps_every_resident_image() {
    let mut cache = ImageCache::new_with_sizes(16, 256);
    let big = image(1, 64, 64);

    cache.begin_resolve();
    while cache.get_or_insert(&big).is_none() {
        assert!(cache.bump_size());
    }
    cache.get_or_insert(&big).unwrap();
    cache.shrink_to_fit();

    assert!(
        cache.resident(big.id).is_some(),
        "a resident image was dropped by the shrink"
    );
    assert!(
        cache.atlas_size().0 >= 64,
        "the atlas shrank below what its resident image needs"
    );
    // Moved or not, it must be re-uploaded before it is sampled again.
    assert!(
        cache.resident(big.id).unwrap().dirty,
        "a moved image must be marked for re-upload"
    );
}

/// A steady scene must not churn: nothing to give back means no work.
#[test]
fn shrinking_is_a_no_op_at_the_initial_size() {
    let mut cache = ImageCache::new_with_sizes(32, 256);
    let small = image(3, 8, 8);

    cache.begin_resolve();
    let before = cache.get_or_insert(&small).unwrap();
    cache.shrink_to_fit();

    assert_eq!(cache.atlas_size().0, 32);
    assert_eq!(
        cache.get_or_insert(&small).unwrap(),
        before,
        "a no-op shrink must not move a resident image"
    );
}

#[test]
fn resident_entries_are_reused_across_resolves() {
    let mut cache = ImageCache::new_with_sizes(32, 64);
    let image = image(7, 8, 8);

    cache.begin_resolve();
    let first = cache.get_or_insert(&image).unwrap();
    assert_eq!(cache.images().images.len(), 1);
    cache.finish_resolve();

    cache.begin_resolve();
    let second = cache.get_or_insert(&image).unwrap();
    assert_eq!(first, second);
    assert_eq!(cache.images().images.len(), 0);
    assert_eq!(cache.resident_count(), 1);
}

#[test]
fn marked_dirty_resident_entries_are_uploaded_again() {
    let mut cache = ImageCache::new_with_sizes(32, 64);
    let image = image(7, 8, 8);

    cache.begin_resolve();
    let first = cache.get_or_insert(&image).unwrap();
    cache.finish_resolve();

    cache.mark_dirty(&image);
    cache.begin_resolve();
    let second = cache.get_or_insert(&image).unwrap();
    assert_eq!(first, second);
    let images = cache.images();
    assert_eq!(images.images.len(), 1);
    assert_eq!(images.images[0].0.id, image.id);
    assert_eq!((images.images[0].1, images.images[0].2), first);
    cache.finish_resolve();

    cache.begin_resolve();
    assert_eq!(cache.get_or_insert(&image), Some(first));
    assert_eq!(cache.images().images.len(), 0);
}

#[test]
fn marked_dirty_unused_entries_stay_dirty() {
    let mut cache = ImageCache::new_with_sizes(32, 64);
    let image = image(7, 8, 8);

    cache.begin_resolve();
    let xy = cache.get_or_insert(&image).unwrap();
    cache.finish_resolve();

    cache.mark_dirty(&image);
    cache.begin_resolve();
    cache.finish_resolve();

    cache.begin_resolve();
    assert_eq!(cache.get_or_insert(&image), Some(xy));
    assert_eq!(cache.images().images.len(), 1);
}

#[test]
fn stale_entries_can_be_evicted_under_pressure() {
    let mut cache = ImageCache::new_with_sizes(16, 16);
    let image_a = image(1, 10, 10);
    let image_b = image(2, 10, 10);

    cache.begin_resolve();
    assert!(cache.get_or_insert(&image_a).is_some());

    cache.begin_resolve();

    cache.begin_resolve();
    cache.begin_resolve();
    assert!(cache.get_or_insert(&image_b).is_none());
    assert!(cache.evict_stale_entries());
    assert!(cache.get_or_insert(&image_b).is_some());
    assert!(cache.resident(image_a.id).is_none());
}

#[test]
fn stale_entries_are_evicted_at_most_once_per_resolve() {
    let mut cache = ImageCache::new_with_sizes(32, 32);
    let image_a = image(1, 8, 8);
    let image_b = image(2, 8, 8);

    cache.begin_resolve();
    assert!(cache.get_or_insert(&image_a).is_some());
    cache.finish_resolve();

    cache.begin_resolve();
    assert!(cache.get_or_insert(&image_b).is_some());
    cache.finish_resolve();

    cache.begin_resolve();
    cache.begin_resolve();
    cache.begin_resolve();

    assert!(cache.evict_stale_entries());
    assert!(!cache.evict_stale_entries());
}

#[test]
fn failed_repack_leaves_existing_residency_unchanged() {
    let mut cache = ImageCache::new_with_sizes(16, 16);
    let image = image(1, 12, 12);

    cache.begin_resolve();
    let xy = cache.get_or_insert(&image).unwrap();

    assert!(!cache.repack_to_size(8));
    assert_eq!(cache.atlas_size().0, 16);
    assert_eq!(cache.get_or_insert(&image), Some(xy));
    assert_eq!(cache.resident_count(), 1);
}

#[test]
fn the_default_cache_starts_at_the_default_size() {
    let cache = ImageCache::default();
    assert_eq!(cache.atlas_size(), (1024, 1024));
    let images = cache.images();
    assert_eq!((images.width, images.height, images.evicted), (1024, 1024, 0));
    assert!(images.images.is_empty());
    assert_eq!(ImageCache::new().atlas_size(), (1024, 1024));
}

#[test]
fn an_image_larger_than_the_atlas_is_refused() {
    let mut cache = ImageCache::new_with_sizes(16, 64);
    cache.begin_resolve();
    let wide = image(1, 17, 4);
    assert!(!cache.can_fit_image(&wide));
    assert_eq!(cache.get_or_insert(&wide), None);
    assert_eq!(cache.resident_count(), 0);
    assert!(cache.images().images.is_empty());
}

#[test]
fn an_empty_or_oversized_image_is_refused() {
    let mut cache = ImageCache::new_with_sizes(16, 64);
    cache.begin_resolve();
    assert_eq!(cache.get_or_insert(&image(1, 0, 4)), None);
    assert_eq!(cache.get_or_insert(&image(2, 4, 0)), None);
    assert_eq!(cache.get_or_insert(&image(3, u32::MAX, 4)), None);
    assert_eq!(cache.resident_count(), 0);
}

#[test]
fn can_fit_image_compares_each_side() {
    let cache = ImageCache::new_with_sizes(16, 64);
    assert!(cache.can_fit_image(&image(1, 16, 16)));
    assert!(!cache.can_fit_image(&image(1, 16, 17)));
}

#[test]
fn new_images_get_distinct_places_inside_the_atlas() {
    let mut cache = ImageCache::new_with_sizes(16, 64);
    cache.begin_resolve();
    let a = cache.get_or_insert(&image(1, 8, 8)).unwrap();
    let b = cache.get_or_insert(&image(2, 8, 8)).unwrap();
    assert_ne!(a, b);
    assert!(a.0 + 8 <= 16 && a.1 + 8 <= 16);
    assert!(b.0 + 8 <= 16 && b.1 + 8 <= 16);
    let uploads = cache.images();
    assert_eq!(uploads.images.len(), 2);
    assert_eq!((uploads.images[1].0, uploads.images[1].1, uploads.images[1].2), (image(2, 8, 8), b.0, b.1));
}

#[test]
fn restarting_a_pass_uploads_its_images_again() {
    let mut cache = ImageCache::new_with_sizes(32, 64);
    let image = image(5, 8, 8);
    cache.begin_resolve();
    let xy = cache.get_or_insert(&image).unwrap();
    assert_eq!(cache.images().images.len(), 1);
    cache.restart_resolve_pass();
    assert!(cache.images().images.is_empty());
    assert_eq!(cache.get_or_insert(&image), Some(xy));
    assert_eq!(cache.images().images.len(), 1);
}

#[test]
fn finishing_a_pass_keeps_unused_images_dirty() {
    let mut cache = ImageCache::new_with_sizes(32, 64);
    let a = image(1, 8, 8);
    let b = image(2, 8, 8);
    cache.begin_resolve();
    cache.get_or_insert(&a).unwrap();
    cache.get_or_insert(&b).unwrap();
    cache.finish_resolve();
    cache.begin_resolve();
    cache.get_or_insert(&a).unwrap();
    cache.mark_dirty(&b);
    cache.finish_resolve();
    assert!(!cache.resident(a.id).unwrap().dirty);
    assert!(cache.resident(b.id).unwrap().dirty);
    assert_eq!(cache.resident(a.id).unwrap().last_used_generation, 2);
    assert_eq!(cache.resident(b.id).unwrap().last_used_generation, 1);
}

#[test]
fn nothing_is_evicted_before_two_generations() {
    let mut cache = ImageCache::new_with_sizes(32, 64);
    cache.begin_resolve();
    cache.get_or_insert(&image(1, 8, 8)).unwrap();
    assert!(!cache.evict_stale_entries());
    cache.begin_resolve();
    assert!(!cache.evict_stale_entries());
    assert_eq!(cache.resident_count(), 1);
    assert_eq!(cache.images().evicted, 0);
}

#[test]
fn eviction_is_counted_for_the_pass() {
    let mut cache = ImageCache::new_with_sizes(32, 64);
    cache.begin_resolve();
    cache.get_or_insert(&image(1, 8, 8)).unwrap();
    cache.get_or_insert(&image(2, 8, 8)).unwrap();
    cache.begin_resolve();
    cache.begin_resolve();
    cache.begin_resolve();
    cache.get_or_insert(&image(3, 8, 8)).unwrap();
    assert!(cache.evict_stale_entries());
    assert_eq!(cache.images().evicted, 2);
    assert_eq!(cache.resident_count(), 1);
    cache.begin_resolve();
    assert_eq!(cache.images().evicted, 0);
}

#[test]
fn growth_doubles_the_shorter_side_and_stops_at_the_maximum() {
    let mut cache = ImageCache::new_with_sizes(16, 32);
    assert!(cache.bump_size());
    assert_eq!(cache.atlas_size(), (32, 16));
    assert!(cache.bump_size());
    assert_eq!(cache.atlas_size(), (32, 32));
    assert!(!cache.bump_size());
    assert_eq!(cache.atlas_size(), (32, 32));
}

#[test]
fn growth_moves_residents_and_clears_the_uploads() {
    let mut cache = ImageCache::new_with_sizes(16, 64);
    cache.begin_resolve();
    let a = image(1, 16, 16);
    cache.get_or_insert(&a).unwrap();
    cache.finish_resolve();
    assert!(!cache.resident(a.id).unwrap().dirty);
    cache.begin_resolve();
    assert!(cache.get_or_insert(&image(2, 16, 16)).is_none());
    assert!(cache.bump_size());
    assert!(cache.images().images.is_empty());
    assert!(cache.resident(a.id).unwrap().dirty);
    assert!(cache.get_or_insert(&image(2, 16, 16)).is_some());
}

#[test]
fn shrinking_halves_the_longer_side_first() {
    let mut cache = ImageCache::new_with_sizes(16, 64);
    assert!(cache.bump_size());
    assert!(cache.bump_size());
    assert!(cache.bump_size());
    assert_eq!(cache.atlas_size(), (64, 32));
    cache.begin_resolve();
    cache.get_or_insert(&image(1, 20, 8)).unwrap();
    cache.shrink_to_fit();
    // 64x32 halves its width to 32x32; 16x32 would not hold a 20 wide image.
    assert_eq!(cache.atlas_size(), (32, 32));
    assert!(cache.images().images.is_empty());
    assert!(cache.resident(1).is_some());
}

#[test]
fn queued_uploads_name_the_places_residents_hold() {
    let mut cache = ImageCache::new_with_sizes(32, 64);
    cache.begin_resolve();
    for id in 1..=4u8 {
        cache.get_or_insert(&image(id, 10, 10)).unwrap();
    }
    let images = cache.images();
    assert_eq!(images.images.len(), 4);
    for (queued, x, y) in images.images {
        let resident = cache.resident(queued.id).unwrap();
        assert_eq!((resident.image, resident.x, resident.y), (*queued, *x, *y));
        assert_eq!(resident.last_used_generation, 1);
    }
}

#[test]
fn the_first_image_of_a_fresh_atlas_lands_in_the_corner() {
    let mut cache = ImageCache::new_with_sizes(16, 64);
    cache.begin_resolve();
    assert_eq!(cache.get_or_insert(&image(9, 16, 16)), Some((0, 0)));
}

#[test]
fn overlapping_images_are_never_both_placed() {
    let mut cache = ImageCache::new_with_sizes(16, 16);
    cache.begin_resolve();
    assert!(cache.get_or_insert(&image(1, 10, 10)).is_some());
    assert_eq!(cache.get_or_insert(&image(2, 10, 10)), None);
    assert_eq!(cache.resident_count(), 1);
}

#[test]
fn a_successful_square_repack_clears_the_uploads() {
    let mut cache = ImageCache::new_with_sizes(16, 64);
    cache.begin_resolve();
    let a = image(1, 12, 12);
    cache.get_or_insert(&a).unwrap();
    assert_eq!(cache.images().images.len(), 1);
    assert!(cache.repack_to_size(32));
    assert_eq!(cache.atlas_size(), (32, 32));
    assert!(cache.images().images.is_empty());
    assert!(cache.resident(a.id).unwrap().dirty);
}

#[test]
fn growth_with_one_resident_stops_at_the_first_size_that_holds_it() {
    let mut cache = ImageCache::new_with_sizes(16, 256);
    cache.begin_resolve();
    let wide = image(1, 40, 8);
    assert_eq!(cache.get_or_insert(&wide), None);
    // 32x16 cannot hold a 40 wide image; 32x32 neither; 64x32 can.
    while cache.get_or_insert(&wide).is_none() {
        assert!(cache.bump_size());
    }
    assert_eq!(cache.atlas_size(), (64, 32));
    // With the image resident, growth goes straight to the first size that holds it again.
    assert!(cache.repack_to_size(16) == false);
    assert!(cache.bump_size());
    assert_eq!(cache.atlas_size(), (64, 64));
}

#[test]
fn freed_space_takes_the_next_image_at_the_corner() {
    let mut cache = ImageCache::new_with_sizes(16, 16);
    cache.begin_resolve();
    assert!(cache.get_or_insert(&image(1, 10, 10)).is_some());
    for _ in 0..=EVICT_AFTER_GENERATIONS {
        cache.begin_resolve();
    }
    assert!(cache.evict_stale_entries());
    assert_eq!(cache.resident_count(), 0);
    assert_eq!(cache.get_or_insert(&image(2, 12, 12)), Some((0, 0)));
}

#[test]
fn growth_with_two_residents_stops_at_the_first_size_that_holds_both() {
    let mut cache = ImageCache::new_with_sizes(16, 256);
    cache.begin_resolve();
    let a = image(1, 16, 16);
    let b = image(2, 16, 16);
    assert!(cache.get_or_insert(&a).is_some());
    assert_eq!(cache.get_or_insert(&b), None);
    assert!(cache.bump_size());
    assert_eq!(cache.atlas_size(), (32, 16));
    assert!(cache.get_or_insert(&b).is_some());
    // Both residents already fill 32x16, so the next size that holds them is 32x32.
    assert!(cache.bump_size());
    assert_eq!(cache.atlas_size(), (32, 32));
    assert_eq!(cache.resident_count(), 2);
    assert!(cache.resident(a.id).unwrap().dirty);
    assert!(cache.resident(b.id).unwrap().dirty);
    assert!(cache.images().images.is_empty());
}

#[test]
fn a_repack_places_every_resident_or_changes_nothing() {
    let mut cache = ImageCache::new_with_sizes(32, 64);
    cache.begin_resolve();
    let a = image(1, 16, 16);
    let b = image(2, 16, 16);
    cache.get_or_insert(&a).unwrap();
    cache.get_or_insert(&b).unwrap();
    let before_a = cache.resident(a.id).unwrap();
    let before_b = cache.resident(b.id).unwrap();
    // Two 16x16 images cannot share a 16x16 atlas.
    assert!(!cache.repack_to_size(16));
    assert_eq!(cache.atlas_size(), (32, 32));
    assert_eq!(cache.resident(a.id), Some(before_a));
    assert_eq!(cache.resident(b.id), Some(before_b));
    assert!(cache.repack_to_size(64));
    assert_eq!(cache.atlas_size(), (64, 64));
    let moved_a = cache.resident(a.id).unwrap();
    let moved_b = cache.resident(b.id).unwrap();
    assert!(moved_a.x + 16 <= moved_b.x || moved_b.x + 16 <= moved_a.x
        || moved_a.y + 16 <= moved_b.y || moved_b.y + 16 <= moved_a.y);
}

#[test]
fn shrinking_with_two_residents_stops_before_they_no_longer_fit() {
    let mut cache = ImageCache::new_with_sizes(16, 256);
    cache.begin_resolve();
    let a = image(1, 16, 16);
    let b = image(2, 16, 16);
    assert!(cache.repack_to_size(64));
    cache.get_or_insert(&a).unwrap();
    cache.get_or_insert(&b).unwrap();
    cache.shrink_to_fit();
    // 64x64, 32x64, 32x32 and 16x32 each hold both; 16x16 does not.
    assert_eq!(cache.atlas_size(), (16, 32));
    assert_eq!(cache.resident_count(), 2);
}

#[test]
fn the_node_bound_follows_placements_and_repacks() {
    let mut cache = ImageCache::new_with_sizes(64, 64);
    assert_eq!(cache.atlas_node_bound(), 1);
    cache.begin_resolve();
    cache.get_or_insert(&image(1, 8, 8)).unwrap();
    assert_eq!(cache.atlas_node_bound(), 5);
    cache.get_or_insert(&image(1, 8, 8)).unwrap();
    assert_eq!(cache.atlas_node_bound(), 5);
    cache.get_or_insert(&image(2, 8, 8)).unwrap();
    assert_eq!(cache.atlas_node_bound(), 9);
    assert!(cache.repack_to_size(32));
    assert_eq!(cache.atlas_node_bound(), 9);
    assert!(cache.repack_to_size(64));
    assert_eq!(cache.atlas_node_bound(), 9);
}
