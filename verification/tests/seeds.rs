use symbios_ground::{derive_tile_seed, splitmix64};

#[test]
fn derive_tile_seed_is_deterministic_and_distinct() {
    assert_eq!(derive_tile_seed(42, 0, 0), derive_tile_seed(42, 0, 0));
    assert_ne!(derive_tile_seed(42, 0, 0), derive_tile_seed(42, 1, 0));
    assert_ne!(derive_tile_seed(42, 0, 0), derive_tile_seed(42, 0, 1));
    assert_ne!(derive_tile_seed(42, 1, 0), derive_tile_seed(42, 0, 1));
    assert_ne!(derive_tile_seed(42, 0, 0), derive_tile_seed(43, 0, 0));
}

#[test]
fn splitmix64_matches_reference_outputs() {
    assert_eq!(splitmix64(0), 16294208416658607535);
    assert_eq!(splitmix64(1), 10451216379200822465);
    assert_eq!(splitmix64(0x1234567), 4194204079749860293);
}

#[test]
fn derive_tile_seed_exact_values() {
    assert_eq!(derive_tile_seed(42, 0, 0), 18326628216722335332);
    assert_eq!(derive_tile_seed(42, 1, 0), 1870925357127839124);
    assert_eq!(derive_tile_seed(42, 0, 1), 9129838320742759465);
    assert_eq!(derive_tile_seed(42, -3, 7), 1209435851683141228);
    assert_eq!(derive_tile_seed(0, 0, 0), 12035550249420947055);
}

#[test]
fn derive_tile_seed_distinct_over_a_block_of_tiles() {
    let mut seen = Vec::new();
    for x in -8..8 {
        for z in -8..8 {
            let s = derive_tile_seed(7, x, z);
            assert!(!seen.contains(&s), "seed collision at ({x}, {z})");
            seen.push(s);
        }
    }
    assert_eq!(seen.len(), 256);
}

#[test]
fn splitmix64_gives_distinct_outputs_for_distinct_inputs() {
    let mut outs: Vec<u64> = (0..2000u64).map(|x| splitmix64(x.wrapping_mul(0x1_0000_0001))).collect();
    outs.sort();
    outs.dedup();
    assert_eq!(outs.len(), 2000);
}
