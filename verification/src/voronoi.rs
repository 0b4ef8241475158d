//! Parameters of Voronoi terracing and the side of its acceleration grid.

use vstd::prelude::*;

verus! {

/// Voronoi-based terracing: seed points placed at random across the map, each
/// cell taking a quantised height from its nearest seed point, give stepped
/// plateaus. Nearest-seed queries are accelerated by a uniform grid of about
/// one seed point per grid cell.
#[derive(Clone, Copy, Debug)]
pub struct VoronoiTerracing {
    /// Seed of the random placement of seed points.
    pub seed: u64,
    /// Number of Voronoi seed points.
    pub num_seeds: usize,
    /// Number of discrete terrace height levels.
    pub num_terraces: usize,
}

/// `g` is the side of the acceleration grid for `n` seed points: the
/// smallest positive `g` with `g * g >= n`.
pub open spec fn is_grid_side(g: int, n: int) -> bool {
    &&& g >= 1
    &&& g * g >= n
    &&& (g == 1 || (g - 1) * (g - 1) < n)
}

impl VoronoiTerracing {
    /// A Voronoi terracing generator with `num_seeds` seed points placed from
    /// `seed` and `num_terraces` height levels; both counts must be positive.
    pub fn new(seed: u64, num_seeds: usize, num_terraces: usize) -> (v: Self)
        requires
            num_seeds > 0,
            num_terraces > 0,
        ensures
            v.seed == seed,
            v.num_seeds == num_seeds,
            v.num_terraces == num_terraces,
    {
        VoronoiTerracing { seed, num_seeds, num_terraces }
    }

    /// Side of the square acceleration grid: `ceil(sqrt(num_seeds))`, at
    /// least 1.
    pub fn grid_size(&self) -> (g: usize)
        ensures
            is_grid_side(g as int, self.num_seeds as int),
    {
        let n = self.num_seeds;
        if n <= 1 {
            return 1;
        }
        let n128: u128 = n as u128;
        let mut lo: u128 = 1;
        let mut hi: u128 = n128;
        assert(hi * hi >= n128) by (nonlinear_arith)
            requires
                hi == n128,
                n128 >= 1,
        ;
        while hi - lo > 1
            invariant
                2 <= n128 <= usize::MAX,
                1 <= lo < hi <= n128,
                lo * lo < n128,
                hi * hi >= n128,
            decreases hi - lo,
        {
            let mid: u128 = lo + (hi - lo) / 2;
            assert(mid * mid <= n128 * n128) by (nonlinear_arith)
                requires
                    mid <= n128,
            ;
            assert(n128 * n128 <= u128::MAX) by (nonlinear_arith)
                requires
                    n128 <= usize::MAX,
                    usize::MAX <= u64::MAX,
            ;
            if mid * mid >= n128 {
                hi = mid;
            } else {
                lo = mid;
            }
        }
        assert(hi >= 2);
        hi as usize
    }
}

} // verus!
