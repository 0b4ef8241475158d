use symbios_ground::{derive_tile_seed, TileCache};

fn make(coord: (i32, i32), seed: u64) -> ((i32, i32), u64) {
    (coord, seed)
}

#[test]
fn tile_cache_only_allocates_requested_tiles() {
    let mut cache: TileCache<((i32, i32), u64)> = TileCache::new(42);
    assert_eq!(cache.loaded_count(), 0);
    let _ = cache.tile((0, 0), &make);
    assert_eq!(cache.loaded_count(), 1);
    let _ = cache.tile((0, 0), &make);
    assert_eq!(cache.loaded_count(), 1);
    let _ = cache.tile((-3, 7), &make);
    assert_eq!(cache.loaded_count(), 2);
}

#[test]
fn tile_cache_per_tile_seeds_do_not_depend_on_request_order() {
    let mut a: TileCache<((i32, i32), u64)> = TileCache::new(17);
    let mut b: TileCache<((i32, i32), u64)> = TileCache::new(17);
    let _ = a.tile((1, 1), &make);
    let _ = a.tile((0, 0), &make);
    let _ = b.tile((0, 0), &make);
    let _ = b.tile((1, 1), &make);
    for coord in [(0, 0), (1, 1)] {
        assert_eq!(a.loaded_tile(coord), b.loaded_tile(coord));
        assert_eq!(a.loaded_tile(coord).unwrap().1, derive_tile_seed(17, coord.0, coord.1));
    }
}

#[test]
fn tile_cache_hands_each_tile_its_own_coordinate_and_seed() {
    let mut cache: TileCache<((i32, i32), u64)> = TileCache::new(5);
    let t = *cache.tile((1, 0), &make);
    assert_eq!(t, ((1, 0), derive_tile_seed(5, 1, 0)));
    let u = *cache.tile((0, 0), &make);
    assert_ne!(t.1, u.1);
}

#[test]
fn tile_cache_keeps_a_held_tile() {
    let mut cache: TileCache<u32> = TileCache::new(0);
    cache.ensure_tile((2, 3), &|_c: (i32, i32), _s: u64| 1u32);
    cache.ensure_tile((2, 3), &|_c: (i32, i32), _s: u64| 2u32);
    assert_eq!(cache.loaded_tile((2, 3)), Some(&1));
    assert!(cache.contains((2, 3)));
    assert!(!cache.contains((3, 2)));
    assert_eq!(cache.loaded_tile((3, 2)), None);
}

#[test]
fn tile_cache_evict_outside_drops_far_tiles() {
    let mut cache: TileCache<((i32, i32), u64)> = TileCache::new(0);
    cache.ensure_radius((0, 0), 3, &make);
    assert_eq!(cache.loaded_count(), 49);
    let evicted = cache.evict_outside((0, 0), 1);
    assert_eq!(evicted, 40);
    assert_eq!(cache.loaded_count(), 9);
    let mut coords = cache.coords();
    coords.sort();
    let mut expected = Vec::new();
    for x in -1..=1 {
        for z in -1..=1 {
            expected.push((x, z));
        }
    }
    assert_eq!(coords, expected);
}

#[test]
fn tile_cache_ensure_radius_keeps_existing_tiles() {
    let mut cache: TileCache<u8> = TileCache::new(9);
    cache.ensure_tile((0, 0), &|_c: (i32, i32), _s: u64| 7u8);
    cache.ensure_radius((0, 0), 1, &|_c: (i32, i32), _s: u64| 1u8);
    assert_eq!(cache.loaded_count(), 9);
    assert_eq!(cache.loaded_tile((0, 0)), Some(&7));
    assert_eq!(cache.loaded_tile((1, -1)), Some(&1));
    let tiles = cache.loaded_tiles();
    assert_eq!(tiles.len(), 9);
    assert_eq!(tiles.iter().filter(|t| ***t == 7).count(), 1);
}

#[test]
fn tile_cache_negative_radius_evicts_everything() {
    let mut cache: TileCache<u8> = TileCache::new(1);
    cache.ensure_radius((4, -4), 0, &|_c: (i32, i32), _s: u64| 0u8);
    assert_eq!(cache.loaded_count(), 1);
    cache.ensure_radius((4, -4), -2, &|_c: (i32, i32), _s: u64| 0u8);
    assert_eq!(cache.loaded_count(), 1);
    assert_eq!(cache.evict_outside((4, -4), -1), 1);
    assert_eq!(cache.loaded_count(), 0);
    assert_eq!(cache.base_seed(), 1);
}

#[test]
fn tile_cache_tile_adds_one_only_for_a_new_coordinate() {
    let mut cache: TileCache<u64> = TileCache::new(5);
    cache.ensure_radius((2, 2), 1, &|_c: (i32, i32), s: u64| s);
    let n = cache.loaded_count();
    let held = *cache.tile((2, 3), &|_c: (i32, i32), _s: u64| 0u64);
    assert_eq!(cache.loaded_count(), n);
    assert_eq!(held, derive_tile_seed(5, 2, 3));
    let fresh = *cache.tile((-7, 40), &|_c: (i32, i32), s: u64| s);
    assert_eq!(cache.loaded_count(), n + 1);
    assert_eq!(fresh, derive_tile_seed(5, -7, 40));
}
