//! The on-demand tile cache behind a streamed, unbounded world.
//!
//! Tiles are addressed by integer `(x, z)` coordinates. A tile is made only
//! when it is first requested, from a seed derived from the cache's base seed
//! and the tile's coordinates alone, so the same coordinate always receives
//! the same seed whatever the order of requests. Tiles far from a viewer can
//! be dropped again. The tiles are kept in a hash map keyed by the packed
//! coordinate, which is one-to-one.

use std::collections::HashMap;

use vstd::prelude::*;

use crate::seeds::{
    derive_tile_seed, lemma_pack_coords_injective, lemma_tile_seed_base_injective,
    lemma_tile_seed_injective, pack_coords, pack_key, spec_tile_seed,
};

verus! {

broadcast use vstd::std_specs::hash::group_hash_axioms;

/// `c` lies within Chebyshev distance `radius` of `centre`.
pub open spec fn within_radius(c: (i32, i32), centre: (i32, i32), radius: i32) -> bool {
    &&& -radius <= c.0 - centre.0 <= radius
    &&& -radius <= c.1 - centre.1 <= radius
}

/// The coordinates within Chebyshev distance `radius` of `centre`.
pub open spec fn radius_set(centre: (i32, i32), radius: i32) -> Set<(i32, i32)> {
    Set::new(|c: (i32, i32)| within_radius(c, centre, radius))
}

/// The seed that tile `c` is made from under `base_seed`.
pub open spec fn seed_of(base_seed: u64, c: (i32, i32)) -> u64 {
    spec_tile_seed(base_seed, c.0, c.1)
}

/// Within one cache, distinct tiles are made from distinct seeds, and the
/// same tile under distinct base seeds is made from distinct seeds.
pub proof fn lemma_seed_of_injective(b1: u64, b2: u64, c1: (i32, i32), c2: (i32, i32))
    ensures
        seed_of(b1, c1) == seed_of(b1, c2) ==> c1 == c2,
        seed_of(b1, c1) == seed_of(b2, c1) ==> b1 == b2,
{
    lemma_tile_seed_injective(b1, c1.0, c1.1, c2.0, c2.1);
    lemma_tile_seed_base_injective(b1, b2, c1.0, c1.1);
}

/// The map key of coordinate `c`.
spec fn key(c: (i32, i32)) -> u64 {
    pack_coords(c.0, c.1)
}

struct Entry<T> {
    coord: (i32, i32),
    tile: T,
}

/// Every entry is stored under the key of its own coordinate.
spec fn keyed<T>(m: Map<u64, Entry<T>>) -> bool {
    forall|k: u64| #[trigger] m.contains_key(k) ==> k == key(m[k].coord)
}

/// The tiles of a keyed map, by coordinate.
spec fn view_of<T>(m: Map<u64, Entry<T>>) -> Map<(i32, i32), T> {
    Map::new(|c: (i32, i32)| m.contains_key(key(c)), |c: (i32, i32)| m[key(c)].tile)
}

proof fn lemma_key_injective(a: (i32, i32), b: (i32, i32))
    ensures
        key(a) == key(b) ==> a == b,
{
    lemma_pack_coords_injective(a.0, a.1, b.0, b.1);
}

/// The entry under key `k` is the tile of its coordinate.
proof fn lemma_view_at<T>(m: Map<u64, Entry<T>>, k: u64)
    requires
        keyed(m),
        m.contains_key(k),
    ensures
        k == key(m[k].coord),
        view_of(m).dom().contains(m[k].coord),
        view_of(m)[m[k].coord] == m[k].tile,
{
}

/// A held coordinate's entry carries that coordinate.
proof fn lemma_coord_of_key<T>(m: Map<u64, Entry<T>>, c: (i32, i32))
    requires
        keyed(m),
        m.contains_key(key(c)),
    ensures
        m[key(c)].coord == c,
{
    lemma_key_injective(m[key(c)].coord, c);
}

proof fn lemma_view_len<T>(m: Map<u64, Entry<T>>)
    requires
        keyed(m),
        m.dom().finite(),
    ensures
        view_of(m).dom().finite(),
        view_of(m).dom().len() == m.dom().len(),
{
    let f = |k: u64| m[k].coord;
    assert forall|a: u64, b: u64| m.dom().contains(a) && m.dom().contains(b) && #[trigger] f(a)
        == #[trigger] f(b) implies a == b by {}
    assert(vstd::relations::injective_on(f, m.dom()));
    assert forall|c: (i32, i32)| #[trigger] m.dom().map(f).contains(c) <==> view_of(m).dom().contains(c) by {
        if view_of(m).dom().contains(c) {
            lemma_coord_of_key(m, c);
            assert(f(key(c)) == c);
        }
        if m.dom().map(f).contains(c) {
            let k = choose|k: u64| m.dom().contains(k) && f(k) == c;
            lemma_view_at(m, k);
        }
    }
    assert(m.dom().map(f) =~= view_of(m).dom());
    vstd::set_lib::lemma_map_size(m.dom(), view_of(m).dom(), f);
}

proof fn lemma_view_insert<T>(m: Map<u64, Entry<T>>, e: Entry<T>)
    requires
        keyed(m),
    ensures
        keyed(m.insert(key(e.coord), e)),
        view_of(m.insert(key(e.coord), e)) =~= view_of(m).insert(e.coord, e.tile),
{
    let n = m.insert(key(e.coord), e);
    assert forall|c: (i32, i32)| #[trigger] view_of(n).dom().contains(c) implies view_of(n)[c]
        == view_of(m).insert(e.coord, e.tile)[c] by {
        lemma_key_injective(c, e.coord);
    }
    assert forall|c: (i32, i32)| #[trigger] view_of(n).dom().contains(c) <==> view_of(m).insert(
        e.coord,
        e.tile,
    ).dom().contains(c) by {
        lemma_key_injective(c, e.coord);
    }
}

proof fn lemma_view_remove<T>(m: Map<u64, Entry<T>>, k: u64)
    requires
        keyed(m),
        m.contains_key(k),
    ensures
        keyed(m.remove(k)),
        view_of(m.remove(k)) =~= view_of(m).remove(m[k].coord),
{
    let c0 = m[k].coord;
    assert forall|c: (i32, i32)| #[trigger] view_of(m.remove(k)).dom().contains(c) <==> view_of(
        m,
    ).remove(c0).dom().contains(c) by {
        lemma_key_injective(c, c0);
    }
}

/// A cache of tiles of type `T`, keyed by tile coordinate, each made on
/// first request from its coordinate and its derived seed.
pub struct TileCache<T> {
    base_seed: u64,
    tiles: HashMap<u64, Entry<T>>,
}

impl<T> View for TileCache<T> {
    type V = Map<(i32, i32), T>;

    /// The cached tiles, by coordinate.
    closed spec fn view(&self) -> Map<(i32, i32), T> {
        view_of(self.tiles@)
    }
}

impl<T> TileCache<T> {
    /// The root seed that every tile's seed is derived from.
    pub closed spec fn base(&self) -> u64 {
        self.base_seed
    }

    /// Each tile is stored under the key of its own coordinate.
    pub closed spec fn keyed_by_coords(&self) -> bool {
        keyed(self.tiles@)
    }

    /// Well-formed: each tile is stored under its own coordinate, and
    /// finitely many tiles are held.
    pub open spec fn wf(&self) -> bool {
        &&& self.keyed_by_coords()
        &&& self@.dom().finite()
    }

    /// An empty cache whose tiles will be seeded from `base_seed`.
    pub fn new(base_seed: u64) -> (cache: Self)
        ensures
            cache.wf(),
            cache.base() == base_seed,
            cache@ == Map::<(i32, i32), T>::empty(),
    {
        let cache = TileCache { base_seed, tiles: HashMap::new() };
        assert(cache@ =~= Map::<(i32, i32), T>::empty());
        cache
    }

    /// The root seed.
    pub fn base_seed(&self) -> (s: u64)
        ensures
            s == self.base(),
    {
        self.base_seed
    }

    /// Number of tiles currently held.
    pub fn loaded_count(&self) -> (n: usize)
        requires
            self.wf(),
        ensures
            n == self@.dom().len(),
    {
        proof {
            lemma_view_len(self.tiles@);
        }
        self.tiles.len()
    }

    /// The keys of the held tiles, each once.
    fn keys(&self) -> (ks: Vec<u64>)
        ensures
            ks@.to_set() == self.tiles@.dom(),
            ks@.no_duplicates(),
            ks@.len() == self.tiles@.dom().len(),
    {
        let ghost keys = vstd::std_specs::iter::IteratorSpec::remaining(
            &vstd::std_specs::hash::spec_keys_iter(&self.tiles),
        );
        let mut ks: Vec<u64> = Vec::new();
        for k in it: self.tiles.keys()
            invariant
                it.seq() == keys,
                ks@.len() == it.index(),
                forall|j: int| 0 <= j < it.index() ==> ks@[j] == *#[trigger] keys[j],
        {
            ks.push(*k);
        }
        proof {
            assert(ks@.len() == keys.len());
            assert(ks@ =~= keys.unref());
            assert forall|a: int, b: int|
                0 <= a < ks@.len() && 0 <= b < ks@.len() && a != b implies ks@[a] != ks@[b] by {
                assert(keys[a] != keys[b]);
            }
        }
        ks
    }

    /// Whether tile `coord` is held.
    pub fn contains(&self, coord: (i32, i32)) -> (b: bool)
        requires
            self.wf(),
        ensures
            b == self@.dom().contains(coord),
    {
        self.tiles.contains_key(&pack_key(coord.0, coord.1))
    }

    /// The held tile at `coord`, without making it; `None` if it was never
    /// requested or has been evicted.
    pub fn loaded_tile(&self, coord: (i32, i32)) -> (r: Option<&T>)
        requires
            self.wf(),
        ensures
            r is Some <==> self@.dom().contains(coord),
            r matches Some(t) ==> *t == self@[coord],
    {
        match self.tiles.get(&pack_key(coord.0, coord.1)) {
            Some(e) => Some(&e.tile),
            None => None,
        }
    }

    /// The coordinates of the held tiles, in the order the map lists them.
    pub fn coords(&self) -> (cs: Vec<(i32, i32)>)
        requires
            self.wf(),
        ensures
            cs@.len() == self@.dom().len(),
            forall|c: (i32, i32)| cs@.contains(c) <==> self@.dom().contains(c),
    {
        let ks = self.keys();
        let mut cs: Vec<(i32, i32)> = Vec::new();
        let mut i: usize = 0;
        while i < ks.len()
            invariant
                self.wf(),
                ks@.to_set() == self.tiles@.dom(),
                i <= ks.len(),
                cs@.len() == i,
                forall|j: int| 0 <= j < i ==> #[trigger] cs@[j] == self.tiles@[ks@[j]].coord,
            decreases ks.len() - i,
        {
            assert(ks@.to_set().contains(ks@[i as int]));
            let e = self.tiles.get(&ks[i]).unwrap();
            cs.push(e.coord);
            i += 1;
        }
        proof {
            lemma_view_len(self.tiles@);
            assert forall|c: (i32, i32)| cs@.contains(c) <==> self@.dom().contains(c) by {
                if cs@.contains(c) {
                    let j = choose|j: int| 0 <= j < cs@.len() && cs@[j] == c;
                    assert(ks@.to_set().contains(ks@[j]));
                    lemma_view_at(self.tiles@, ks@[j]);
                }
                if self@.dom().contains(c) {
                    assert(ks@.to_set().contains(key(c)));
                    let j = choose|j: int| 0 <= j < ks@.len() && ks@[j] == key(c);
                    lemma_coord_of_key(self.tiles@, c);
                    assert(cs@[j] == c);
                }
            }
        }
        cs
    }

    /// The held tiles, in the order the map lists them.
    pub fn loaded_tiles(&self) -> (ts: Vec<&T>)
        requires
            self.wf(),
        ensures
            ts@.len() == self@.dom().len(),
            forall|k: int| 0 <= k < ts@.len() ==> self@.contains_value(*#[trigger] ts@[k]),
            forall|c: (i32, i32)|
                #[trigger] self@.dom().contains(c) ==> exists|k: int|
                    0 <= k < ts@.len() && *ts@[k] == self@[c],
    {
        let ks = self.keys();
        let mut ts: Vec<&T> = Vec::new();
        let mut i: usize = 0;
        while i < ks.len()
            invariant
                self.wf(),
                ks@.to_set() == self.tiles@.dom(),
                i <= ks.len(),
                ts@.len() == i,
                forall|j: int| 0 <= j < i ==> *#[trigger] ts@[j] == self.tiles@[ks@[j]].tile,
            decreases ks.len() - i,
        {
            assert(ks@.to_set().contains(ks@[i as int]));
            let e = self.tiles.get(&ks[i]).unwrap();
            ts.push(&e.tile);
            i += 1;
        }
        proof {
            lemma_view_len(self.tiles@);
            assert forall|j: int| 0 <= j < ts@.len() implies self@.contains_value(*#[trigger] ts@[j]) by {
                assert(ks@.to_set().contains(ks@[j]));
                lemma_view_at(self.tiles@, ks@[j]);
                let c = self.tiles@[ks@[j]].coord;
                assert(self@.dom().contains(c) && *ts@[j] == self@[c]);
            }
            assert forall|c: (i32, i32)| #[trigger] self@.dom().contains(c) implies exists|j: int|
                0 <= j < ts@.len() && *ts@[j] == self@[c] by {
                assert(ks@.to_set().contains(key(c)));
                let j = choose|j: int| 0 <= j < ks@.len() && ks@[j] == key(c);
                assert(*ts@[j] == self@[c]);
            }
        }
        ts
    }
}

impl<T> TileCache<T> {
    /// Make tile `coord` if it is not held yet: it is made by `make` from the
    /// coordinate and the seed derived from the base seed and the coordinate.
    /// A held tile is left as it is.
    pub fn ensure_tile<F: Fn((i32, i32), u64) -> T>(&mut self, coord: (i32, i32), make: &F)
        requires
            old(self).wf(),
            !old(self)@.dom().contains(coord) ==> make.requires(
                (coord, seed_of(old(self).base(), coord)),
            ),
        ensures
            final(self).wf(),
            final(self).base() == old(self).base(),
            final(self)@.dom() == old(self)@.dom().insert(coord),
            forall|c: (i32, i32)| #[trigger]
                old(self)@.dom().contains(c) ==> final(self)@[c] == old(self)@[c],
            !old(self)@.dom().contains(coord) ==> make.ensures(
                (coord, seed_of(old(self).base(), coord)),
                final(self)@[coord],
            ),
    {
        let k = pack_key(coord.0, coord.1);
        if self.tiles.contains_key(&k) {
            assert(self@.dom().insert(coord) =~= self@.dom());
        } else {
            let seed = derive_tile_seed(self.base_seed, coord.0, coord.1);
            let tile = make(coord, seed);
            let entry = Entry { coord, tile };
            proof {
                lemma_view_insert(self.tiles@, entry);
            }
            self.tiles.insert(k, entry);
            proof {
                lemma_view_len(self.tiles@);
            }
        }
    }

    /// The tile at `coord`, made first if it is not held yet (as by
    /// [`TileCache::ensure_tile`]).
    pub fn tile<F: Fn((i32, i32), u64) -> T>(&mut self, coord: (i32, i32), make: &F) -> (t: &T)
        requires
            old(self).wf(),
            !old(self)@.dom().contains(coord) ==> make.requires(
                (coord, seed_of(old(self).base(), coord)),
            ),
        ensures
            final(self).wf(),
            final(self).base() == old(self).base(),
            final(self)@.dom() == old(self)@.dom().insert(coord),
            forall|c: (i32, i32)| #[trigger]
                old(self)@.dom().contains(c) ==> final(self)@[c] == old(self)@[c],
            !old(self)@.dom().contains(coord) ==> make.ensures(
                (coord, seed_of(old(self).base(), coord)),
                final(self)@[coord],
            ),
            *t == final(self)@[coord],
    {
        self.ensure_tile(coord, make);
        let k = pack_key(coord.0, coord.1);
        assert(self@.dom().contains(coord));
        assert(self.tiles@.contains_key(key(coord)));
        let e = self.tiles.get(&k).unwrap();
        &e.tile
    }
}

impl<T> TileCache<T> {
    /// Make every tile within Chebyshev distance `radius` of `centre` that
    /// is not held yet, row by row; held tiles are left as they are. A
    /// negative radius makes nothing.
    pub fn ensure_radius<F: Fn((i32, i32), u64) -> T>(
        &mut self,
        centre: (i32, i32),
        radius: i32,
        make: &F,
    )
        requires
            old(self).wf(),
            radius > i32::MIN,
            radius >= 0 ==> i32::MIN <= centre.0 - radius && centre.0 + radius <= i32::MAX,
            radius >= 0 ==> i32::MIN <= centre.1 - radius && centre.1 + radius <= i32::MAX,
            forall|c: (i32, i32)| #[trigger]
                within_radius(c, centre, radius) && !old(self)@.dom().contains(c)
                    ==> make.requires((c, seed_of(old(self).base(), c))),
        ensures
            final(self).wf(),
            final(self).base() == old(self).base(),
            final(self)@.dom() == old(self)@.dom() + radius_set(centre, radius),
            forall|c: (i32, i32)| #[trigger]
                old(self)@.dom().contains(c) ==> final(self)@[c] == old(self)@[c],
            forall|c: (i32, i32)| #[trigger]
                final(self)@.dom().contains(c) && !old(self)@.dom().contains(c) ==> make.ensures(
                    (c, seed_of(old(self).base(), c)),
                    final(self)@[c],
                ),
    {
        let ghost old_map = self@;
        let ghost base = self.base();
        if radius < 0 {
            assert(self@.dom() =~= old_map.dom() + radius_set(centre, radius));
            return;
        }
        let mut dz: i64 = -(radius as i64);
        while dz <= radius as i64
            invariant
                self.wf(),
                self.base() == base,
                0 <= radius,
                i32::MIN <= centre.0 - radius && centre.0 + radius <= i32::MAX,
                i32::MIN <= centre.1 - radius && centre.1 + radius <= i32::MAX,
                -radius <= dz <= radius + 1,
                forall|c: (i32, i32)| #[trigger]
                    within_radius(c, centre, radius) && !old_map.dom().contains(c)
                        ==> make.requires((c, seed_of(base, c))),
                forall|c: (i32, i32)|
                    #[trigger] self@.dom().contains(c) <==> (old_map.dom().contains(c) || (
                    within_radius(c, centre, radius) && c.1 - centre.1 < dz)),
                forall|c: (i32, i32)| #[trigger]
                    old_map.dom().contains(c) ==> self@[c] == old_map[c],
                forall|c: (i32, i32)| #[trigger]
                    self@.dom().contains(c) && !old_map.dom().contains(c) ==> make.ensures(
                        (c, seed_of(base, c)),
                        self@[c],
                    ),
            decreases radius + 1 - dz,
        {
            let mut dx: i64 = -(radius as i64);
            while dx <= radius as i64
                invariant
                    self.wf(),
                    self.base() == base,
                    0 <= radius,
                    i32::MIN <= centre.0 - radius && centre.0 + radius <= i32::MAX,
                    i32::MIN <= centre.1 - radius && centre.1 + radius <= i32::MAX,
                    -radius <= dz <= radius,
                    -radius <= dx <= radius + 1,
                    forall|c: (i32, i32)| #[trigger]
                        within_radius(c, centre, radius) && !old_map.dom().contains(c)
                            ==> make.requires((c, seed_of(base, c))),
                    forall|c: (i32, i32)|
                        #[trigger] self@.dom().contains(c) <==> (old_map.dom().contains(c) || (
                        within_radius(c, centre, radius) && (c.1 - centre.1 < dz || (c.1
                            - centre.1 == dz && c.0 - centre.0 < dx)))),
                    forall|c: (i32, i32)| #[trigger]
                        old_map.dom().contains(c) ==> self@[c] == old_map[c],
                    forall|c: (i32, i32)| #[trigger]
                        self@.dom().contains(c) && !old_map.dom().contains(c) ==> make.ensures(
                            (c, seed_of(base, c)),
                            self@[c],
                        ),
                decreases radius + 1 - dx,
            {
                let coord: (i32, i32) = (centre.0 + dx as i32, centre.1 + dz as i32);
                assert(within_radius(coord, centre, radius));
                let ghost before = self@;
                self.ensure_tile(coord, make);
                proof {
                    assert forall|c: (i32, i32)| #[trigger]
                        old_map.dom().contains(c) implies self@[c] == old_map[c] by {
                        assert(before.dom().contains(c));
                    }
                    assert forall|c: (i32, i32)| #[trigger]
                        self@.dom().contains(c) && !old_map.dom().contains(c) implies make.ensures(
                        (c, seed_of(base, c)),
                        self@[c],
                    ) by {
                        if c != coord {
                            assert(before.dom().contains(c));
                        }
                    }
                }
                dx = dx + 1;
            }
            dz = dz + 1;
        }
        assert(self@.dom() =~= old_map.dom() + radius_set(centre, radius));
    }

    /// Drop every held tile farther than Chebyshev distance `radius` from
    /// `centre`; returns how many were dropped.
    pub fn evict_outside(&mut self, centre: (i32, i32), radius: i32) -> (n: usize)
        requires
            old(self).wf(),
            forall|c: (i32, i32)| #[trigger]
                old(self)@.dom().contains(c) ==> -i32::MAX <= c.0 - centre.0 <= i32::MAX && -i32::MAX
                    <= c.1 - centre.1 <= i32::MAX,
        ensures
            final(self).wf(),
            final(self).base() == old(self).base(),
            final(self)@ == old(self)@.restrict(radius_set(centre, radius)),
            n == old(self)@.dom().len() - final(self)@.dom().len(),
    {
        let ghost orig = self.tiles@;
        let ghost mut gone: Set<u64> = Set::empty();
        let before = self.tiles.len();
        let ks = self.keys();
        proof {
            assert(orig.remove_keys(gone) =~= orig);
        }
        let mut i: usize = 0;
        while i < ks.len()
            invariant
                self.base() == old(self).base(),
                orig == old(self).tiles@,
                keyed(orig),
                orig.dom().finite(),
                ks@.to_set() == orig.dom(),
                ks@.no_duplicates(),
                forall|c: (i32, i32)| #[trigger]
                    view_of(orig).dom().contains(c) ==> -i32::MAX <= c.0 - centre.0 <= i32::MAX
                        && -i32::MAX <= c.1 - centre.1 <= i32::MAX,
                i <= ks.len(),
                self.tiles@ == orig.remove_keys(gone),
                forall|k: u64| #[trigger] gone.contains(k) ==> orig.contains_key(k) && !within_radius(
                    orig[k].coord,
                    centre,
                    radius,
                ),
                forall|k: u64| #[trigger]
                    gone.contains(k) ==> exists|j: int| 0 <= j < i && ks@[j] == k,
                forall|j: int|
                    0 <= j < i && !gone.contains(#[trigger] ks@[j]) ==> within_radius(
                        orig[ks@[j]].coord,
                        centre,
                        radius,
                    ),
            decreases ks.len() - i,
        {
            let k = ks[i];
            proof {
                assert(ks@.to_set().contains(k));
                if gone.contains(k) {
                    let j = choose|j: int| 0 <= j < i && ks@[j] == k;
                    assert(ks@[j] == ks@[i as int]);
                }
                assert(self.tiles@.contains_key(k));
                lemma_view_at(orig, k);
            }
            let c = self.tiles.get(&k).unwrap().coord;
            let dxs: i32 = c.0 - centre.0;
            let dzs: i32 = c.1 - centre.1;
            let adx: i32 = if dxs < 0 { -dxs } else { dxs };
            let adz: i32 = if dzs < 0 { -dzs } else { dzs };
            if !(adx <= radius && adz <= radius) {
                self.tiles.remove(&k);
                proof {
                    gone = gone.insert(k);
                    assert(self.tiles@ =~= orig.remove_keys(gone));
                }
            }
            i += 1;
        }
        proof {
            assert(gone.subset_of(orig.dom()));
            assert forall|k: u64| #[trigger] self.tiles@.contains_key(k) implies k == key(
                self.tiles@[k].coord,
            ) by {
                lemma_view_at(orig, k);
            }
            lemma_view_len(self.tiles@);
            lemma_view_len(orig);
            vstd::set_lib::lemma_len_subset(self.tiles@.dom(), orig.dom());
            assert forall|c: (i32, i32)| #[trigger] self@.dom().contains(c) <==> old(self)@.restrict(
                radius_set(centre, radius),
            ).dom().contains(c) by {
                if orig.contains_key(key(c)) {
                    lemma_coord_of_key(orig, c);
                    assert(ks@.to_set().contains(key(c)));
                    let j = choose|j: int| 0 <= j < ks@.len() && ks@[j] == key(c);
                    assert(!gone.contains(ks@[j]) ==> within_radius(orig[ks@[j]].coord, centre, radius));
                }
            }
            assert(self@ =~= old(self)@.restrict(radius_set(centre, radius)));
        }
        let after = self.tiles.len();
        before - after
    }
}

} // verus!
