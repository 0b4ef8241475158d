use symbios_ground::{required_size, NoiseLattice, VoronoiTerracing, WeightMap};

#[test]
fn required_size_is_smallest_covering_power_of_two_plus_one() {
    assert_eq!(required_size(1), 2);
    assert_eq!(required_size(2), 2);
    assert_eq!(required_size(3), 3);
    assert_eq!(required_size(4), 5);
    assert_eq!(required_size(5), 5);
    assert_eq!(required_size(6), 9);
    assert_eq!(required_size(33), 33);
    assert_eq!(required_size(64), 65);
    assert_eq!(required_size(100), 129);
    assert_eq!(required_size(129), 129);
    assert_eq!(required_size(130), 257);
    assert_eq!(required_size(200), 257);
}

#[test]
fn voronoi_new_keeps_its_parameters() {
    let v = VoronoiTerracing::new(5, 20, 5);
    assert_eq!(v.seed, 5);
    assert_eq!(v.num_seeds, 20);
    assert_eq!(v.num_terraces, 5);
}

#[test]
fn voronoi_grid_size_is_ceiling_square_root() {
    let side = |n: usize| VoronoiTerracing { seed: 0, num_seeds: n, num_terraces: 1 }.grid_size();
    assert_eq!(side(0), 1);
    assert_eq!(side(1), 1);
    assert_eq!(side(2), 2);
    assert_eq!(side(4), 2);
    assert_eq!(side(5), 3);
    assert_eq!(side(12), 4);
    assert_eq!(side(16), 4);
    assert_eq!(side(17), 5);
    assert_eq!(side(20), 5);
    assert_eq!(side(50), 8);
    assert_eq!(side(1_000_000), 1000);
    assert_eq!(side(1_000_001), 1001);
}

#[test]
fn weight_map_new_puts_all_weight_in_red() {
    let wm = WeightMap::new(16, 24);
    assert_eq!(wm.width, 16);
    assert_eq!(wm.height, 24);
    assert_eq!(wm.data.len(), 16 * 24);
    for px in &wm.data {
        assert_eq!(*px, [255, 0, 0, 0]);
        let total: u16 = px.iter().map(|&b| b as u16).sum();
        assert_eq!(total, 255);
    }
}

#[test]
fn noise_lattice_is_a_doubled_permutation() {
    let lattice = NoiseLattice::new(7);
    let mut seen = [false; 256];
    for ix in 0..256 {
        let s = lattice.slot(ix, 0);
        assert!(s < 256);
        assert!(!seen[s], "slot {s} repeats");
        seen[s] = true;
    }
    for ix in -300..300 {
        for iz in [-257, -1, 0, 3, 255, 256, 1000] {
            assert_eq!(lattice.slot(ix, iz), lattice.slot(ix.rem_euclid(256), iz.rem_euclid(256)));
        }
    }
    for s in 0..256 {
        assert!(lattice.mantissa(s) < (1 << 23));
    }
}

#[test]
fn noise_lattice_is_shuffled_and_seeded() {
    let a = NoiseLattice::new(7);
    let b = NoiseLattice::new(7);
    let c = NoiseLattice::new(8);
    let row = |l: &NoiseLattice| (0..256).map(|ix| l.slot(ix, 0)).collect::<Vec<usize>>();
    let ms = |l: &NoiseLattice| (0..256).map(|s| l.mantissa(s)).collect::<Vec<u32>>();
    assert_eq!(row(&a), row(&b));
    assert_eq!(ms(&a), ms(&b));
    assert_ne!(row(&a), row(&c));
    let identity: Vec<usize> = (0..256).collect();
    assert_ne!(row(&a), identity);
    assert!(ms(&a).iter().any(|&m| m != 0));
}

#[test]
fn noise_lattice_from_draws_doubles_the_table_and_keeps_upper_bits() {
    let shuffled: Vec<u8> = (0..=255u8).rev().collect();
    let words: Vec<u32> = (0..256u32).map(|s| (s << 9) | 0x1ff).collect();
    let lattice = NoiseLattice::from_draws(shuffled, words);
    for ix in 0..256 {
        assert_eq!(lattice.slot(ix, 0), ix as usize);
    }
    assert_eq!(lattice.slot(0, 1), 255);
    assert_eq!(lattice.slot(10, 3), 7);
    assert_eq!(lattice.slot(-1, 0), 255);
    assert_eq!(lattice.slot(256, 0), 0);
    for s in 0..256 {
        assert_eq!(lattice.mantissa(s), s as u32);
    }
}
