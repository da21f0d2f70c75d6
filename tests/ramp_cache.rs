use ramp_cache::{ColorStop, RampCache, Rgba, N_SAMPLES, RETAINED_COUNT};

fn rgba(r: f32, g: f32, b: f32, a: f32) -> Rgba {
    Rgba { r: r.to_bits(), g: g.to_bits(), b: b.to_bits(), a: a.to_bits() }
}

/// A two-stop gradient from a gray of level `n / 1000` to white.
fn gradient(n: u32) -> Vec<ColorStop> {
    let level = n as f32 / 1000.0;
    vec![
        ColorStop { offset: 0.0f32.to_bits(), color: rgba(level, level, level, 1.0) },
        ColorStop { offset: 1.0f32.to_bits(), color: rgba(1.0, 1.0, 1.0, 1.0) },
    ]
}

/// A ramp whose every sample carries `tag`, so that chunks can be told apart.
fn ramp_of(tag: u32) -> Vec<Rgba> {
    vec![Rgba { r: tag, g: tag, b: tag, a: tag }; N_SAMPLES]
}

fn chunk(cache: &RampCache, slot: u32) -> Vec<Rgba> {
    let start = slot as usize * N_SAMPLES;
    cache.ramps().data[start..start + N_SAMPLES].to_vec()
}

fn check_dimensions(cache: &RampCache) {
    let r = cache.ramps();
    assert_eq!(r.width, 512);
    assert_eq!(r.data.len(), r.width as usize * r.height as usize);
}

#[test]
fn scenario_two_gradients_then_repeat() {
    let mut cache = RampCache::new();
    assert_eq!(cache.ramps().data.len(), 0);
    assert_eq!(cache.add(&gradient(1), || ramp_of(1)), 0);
    assert_eq!(cache.ramps().data.len(), 512);
    assert_eq!(cache.add(&gradient(2), || ramp_of(2)), 1);
    assert_eq!(cache.ramps().data.len(), 1024);
    assert_eq!(cache.add(&gradient(1), || ramp_of(3)), 0);
    assert_eq!(cache.ramps().data.len(), 1024);
    assert_eq!(cache.ramps().height, 2);
}

#[test]
fn second_add_is_a_hit_and_leaves_buffer() {
    let mut cache = RampCache::new();
    let first = cache.add(&gradient(7), || ramp_of(7));
    let before = cache.ramps().data.to_vec();
    let second = cache.add(&gradient(7), || panic!("a hit must not sample the gradient"));
    assert_eq!(first, second);
    assert_eq!(cache.ramps().data.to_vec(), before);
}

#[test]
fn equal_stops_built_apart_share_a_slot() {
    let mut cache = RampCache::new();
    let a = cache.add(&gradient(5), || ramp_of(5));
    let copy: Vec<ColorStop> = gradient(5).iter().copied().collect();
    assert_eq!(cache.add(&copy, || ramp_of(6)), a);
    assert_eq!(cache.ramps().height, 1);
}

#[test]
fn nearby_offsets_are_distinct_gradients() {
    let mut cache = RampCache::new();
    let mut near = gradient(5);
    near[1].offset = (1.0f32 - f32::EPSILON).to_bits();
    assert_eq!(cache.add(&gradient(5), || ramp_of(5)), 0);
    assert_eq!(cache.add(&near, || ramp_of(6)), 1);
}

#[test]
fn miss_stores_the_sampled_ramp_in_its_slot() {
    let mut cache = RampCache::new();
    cache.add(&gradient(1), || ramp_of(11));
    let id = cache.add(&gradient(2), || ramp_of(22));
    assert_eq!(chunk(&cache, id), ramp_of(22));
    assert_eq!(chunk(&cache, 0), ramp_of(11));
}

#[test]
fn steady_rotation_stays_at_retained_count() {
    let mut cache = RampCache::new();
    for round in 0..10u32 {
        for n in 0..RETAINED_COUNT as u32 {
            let id = cache.add(&gradient(n), || ramp_of(n));
            assert!((id as usize) < RETAINED_COUNT);
            if round > 0 {
                assert_eq!(id, n);
            }
        }
        cache.maintain();
        check_dimensions(&cache);
    }
    assert_eq!(cache.ramps().data.len(), RETAINED_COUNT * N_SAMPLES);
}

#[test]
fn full_cache_in_use_grows_instead_of_evicting() {
    let mut cache = RampCache::new();
    for n in 0..RETAINED_COUNT as u32 {
        assert_eq!(cache.add(&gradient(n), || ramp_of(n)), n);
    }
    let id = cache.add(&gradient(500), || ramp_of(500));
    assert_eq!(id, RETAINED_COUNT as u32);
    assert_eq!(cache.ramps().data.len(), (RETAINED_COUNT + 1) * N_SAMPLES);
    for n in 0..RETAINED_COUNT as u32 {
        assert_eq!(cache.add(&gradient(n), || panic!("evicted")), n);
    }
}

#[test]
fn entry_idle_for_one_epoch_is_not_reclaimed() {
    let mut cache = RampCache::new();
    for n in 0..RETAINED_COUNT as u32 {
        cache.add(&gradient(n), || ramp_of(n));
    }
    cache.maintain();
    let id = cache.add(&gradient(500), || ramp_of(500));
    assert_eq!(id, RETAINED_COUNT as u32);
    assert_eq!(cache.ramps().height, RETAINED_COUNT as u32 + 1);
}

#[test]
fn stale_entry_is_reclaimed_in_place() {
    let mut cache = RampCache::new();
    for n in 0..RETAINED_COUNT as u32 {
        cache.add(&gradient(n), || ramp_of(n));
    }
    cache.maintain();
    cache.maintain();
    for n in 0..RETAINED_COUNT as u32 {
        if n != 5 {
            cache.add(&gradient(n), || panic!("held"));
        }
    }
    let id = cache.add(&gradient(500), || ramp_of(500));
    assert_eq!(id, 5);
    assert_eq!(cache.ramps().data.len(), RETAINED_COUNT * N_SAMPLES);
    assert_eq!(chunk(&cache, 5), ramp_of(500));
    assert_eq!(chunk(&cache, 4), ramp_of(4));
    assert_eq!(cache.add(&gradient(5), || ramp_of(5)), RETAINED_COUNT as u32);
}

#[test]
fn least_recently_used_stale_entry_goes_first() {
    let mut cache = RampCache::new();
    for n in 0..RETAINED_COUNT as u32 {
        cache.add(&gradient(n), || ramp_of(n));
    }
    cache.maintain();
    for n in 0..RETAINED_COUNT as u32 {
        if n != 9 {
            cache.add(&gradient(n), || panic!("held"));
        }
    }
    cache.maintain();
    cache.maintain();
    cache.maintain();
    assert_eq!(cache.add(&gradient(500), || ramp_of(500)), 9);
    assert_eq!(cache.add(&gradient(501), || ramp_of(501)), 0);
}

#[test]
fn maintain_advances_the_epoch() {
    let mut cache = RampCache::default();
    assert_eq!(cache.epoch(), 0);
    cache.maintain();
    cache.maintain();
    assert_eq!(cache.epoch(), 2);
}

#[test]
fn maintain_keeps_overrun_slots_used_in_the_ending_epoch() {
    let mut cache = RampCache::new();
    for n in 0..=RETAINED_COUNT as u32 {
        cache.add(&gradient(n), || ramp_of(n));
    }
    cache.maintain();
    assert_eq!(cache.ramps().height, RETAINED_COUNT as u32 + 1);
    assert_eq!(cache.add(&gradient(RETAINED_COUNT as u32), || panic!("held")), 64);
}

#[test]
fn maintain_trims_idle_overrun_slots() {
    let mut cache = RampCache::new();
    for n in 0..=RETAINED_COUNT as u32 {
        cache.add(&gradient(n), || ramp_of(n));
    }
    cache.maintain();
    cache.maintain();
    assert_eq!(cache.ramps().height, RETAINED_COUNT as u32);
    assert_eq!(cache.ramps().data.len(), RETAINED_COUNT * N_SAMPLES);
    check_dimensions(&cache);
    assert_eq!(cache.add(&gradient(3), || panic!("held")), 3);
}

#[test]
fn maintain_below_capacity_changes_nothing_but_the_epoch() {
    let mut cache = RampCache::new();
    cache.add(&gradient(1), || ramp_of(1));
    let before = cache.ramps().data.to_vec();
    cache.maintain();
    assert_eq!(cache.ramps().data.to_vec(), before);
    assert_eq!(cache.add(&gradient(1), || panic!("held")), 0);
}

#[test]
fn dimensions_hold_after_mixed_operations() {
    let mut cache = RampCache::new();
    check_dimensions(&cache);
    for step in 0..300u32 {
        cache.add(&gradient(step % 97), || ramp_of(step));
        check_dimensions(&cache);
        if step % 7 == 0 {
            cache.maintain();
            check_dimensions(&cache);
        }
    }
}

#[test]
fn same_stops_compares_bits() {
    assert!(ramp_cache::color::same_stops(&gradient(3), &gradient(3)));
    assert!(!ramp_cache::color::same_stops(&gradient(3), &gradient(4)));
    assert!(!ramp_cache::color::same_stops(&gradient(3), &gradient(3)[..1]));
    assert!(ramp_cache::color::same_stops(&[], &[]));
}

#[test]
fn copy_stops_keeps_every_stop() {
    assert_eq!(ramp_cache::color::copy_stops(&gradient(8)), gradient(8));
}
