//! Correctness of the Diamond-Square subdivision order: every cell of the
//! square other than its four corners is assigned exactly once, and every
//! assignment reads only cells that are corners or were assigned before it.

use vstd::prelude::*;
use vstd::arithmetic::power2::{lemma_pow2_adds, lemma_pow2_pos, lemma_pow2_unfold, pow2};
use vstd::arithmetic::div_mod::{
    lemma_div_multiples_vanish_fancy, lemma_fundamental_div_mod, lemma_mod_multiples_vanish,
    lemma_small_mod,
};

use crate::diamond::{
    cell, diamond_row, diamond_rows, diamond_step, level_steps, square_row, square_rows,
    square_sources, square_step,
};

verus! {

/// `c * s + r` splits into quotient `c` and remainder `r` by `s`.
proof fn lemma_split(c: int, r: int, s: int)
    requires
        s > 0,
        0 <= r < s,
    ensures
        (c * s + r) % s == r,
        (c * s + r) / s == c,
{
    assert(c * s == s * c) by (nonlinear_arith);
    lemma_mod_multiples_vanish(c, r, s);
    lemma_small_mod(r as nat, s as nat);
    lemma_div_multiples_vanish_fancy(c, r, s);
}

/// The diamond step of square `(c, row)` of side `s`.
spec fn diamond_at(size: int, s: int, c: int, row: int) -> (int, Seq<int>) {
    diamond_step(size, s, c * s, row * s)
}

/// Position `row * n + c`.
spec fn grid_pos(n: int, row: int, c: int) -> int {
    row * n + c
}

/// The `c`-th square step of row `j`.
spec fn square_at(size: int, s: int, n: int, j: nat, c: int) -> (int, Seq<int>) {
    square_row(size, s, n, j as int)[c]
}

/// Position of the first square step of row `j`.
spec fn row_start(size: int, s: int, n: int, j: nat) -> int {
    square_rows(size, s, n, j).len() as int
}

/// Row and offset of position `q` among the diamond steps of the first `r`
/// rows of `n` squares.
spec fn diamond_locate(n: int, r: nat, q: int) -> (int, int)
    decreases r,
{
    if r == 0 {
        (0, 0)
    } else if q < (r - 1) * n {
        diamond_locate(n, (r - 1) as nat, q)
    } else {
        ((r - 1) as int, q - (r - 1) * n)
    }
}

/// The diamond steps of the first `r` rows: `n` per row, the step of square
/// `(c, row)` at position `row * n + c`.
/// The first `r` rows of diamond steps hold `r * n` steps.
pub(crate) proof fn lemma_diamond_rows_len(size: int, s: int, n: int, r: nat)
    requires
        n >= 0,
    ensures
        diamond_rows(size, s, n, r).len() == r * n,
{
    lemma_diamond_rows(size, s, n, r);
}

proof fn lemma_diamond_rows(size: int, s: int, n: int, r: nat)
    requires
        n >= 0,
    ensures
        diamond_rows(size, s, n, r).len() == r * n,
        forall|row: int, c: int|
            0 <= row < r && 0 <= c < n ==> diamond_rows(size, s, n, r)[#[trigger] grid_pos(n, row, c)]
                == diamond_at(size, s, c, row),
        forall|q: int|
            0 <= q < r * n ==> {
                let (row, c) = #[trigger] diamond_locate(n, r, q);
                &&& 0 <= row < r
                &&& 0 <= c < n
                &&& q == grid_pos(n, row, c)
                &&& diamond_rows(size, s, n, r)[q] == diamond_at(size, s, c, row)
            },
    decreases r,
{
    if r > 0 {
        let r1 = (r - 1) as nat;
        lemma_diamond_rows(size, s, n, r1);
        let prev = diamond_rows(size, s, n, r1);
        let row_seq = diamond_row(size, s, n, r1 * s);
        let all = diamond_rows(size, s, n, r);
        assert(all == prev + row_seq);
        assert(r * n == r1 * n + n) by (nonlinear_arith)
            requires
                r1 == r - 1,
        ;
        assert forall|row: int, c: int| 0 <= row < r && 0 <= c < n implies all[#[trigger] grid_pos(n, row, c)] == diamond_at(size, s, c, row) by {
            if row < r1 {
                assert(prev[grid_pos(n, row, c)] == diamond_at(size, s, c, row));
                assert(row * n + c < r1 * n) by (nonlinear_arith)
                    requires
                        0 <= row < r1,
                        0 <= c < n,
                ;
            } else {
                assert(row * n == r1 * n);
            }
        }
        assert forall|q: int| 0 <= q < r * n implies {
            let (row, c) = #[trigger] diamond_locate(n, r, q);
            &&& 0 <= row < r
            &&& 0 <= c < n
            &&& q == grid_pos(n, row, c)
            &&& all[q] == diamond_at(size, s, c, row)
        } by {
            if q < r1 * n {
                assert(diamond_locate(n, r, q) == diamond_locate(n, r1, q));
                assert(prev[q] == all[q]);
            } else {
                let c = q - r1 * n;
                assert(all[q] == row_seq[c]);
            }
        }
    } else {
        assert(r * n == 0) by (nonlinear_arith)
            requires
                r == 0,
        ;
    }
}

/// Number of square steps of row `j`.
pub open spec fn square_row_len(n: int, j: int) -> int {
    if j % 2 == 0 { n } else { n + 1 }
}

/// Row and offset of position `q` among the square steps of the first `r`
/// rows.
spec fn square_locate(size: int, s: int, n: int, r: nat, q: int) -> (nat, int)
    decreases r,
{
    if r == 0 {
        (0, 0)
    } else if q < row_start(size, s, n, (r - 1) as nat) {
        square_locate(size, s, n, (r - 1) as nat, q)
    } else {
        ((r - 1) as nat, q - row_start(size, s, n, (r - 1) as nat))
    }
}

/// The square steps of the first `r` rows: the step at offset `c` of row
/// `j` stands at `square_rows(.., j).len() + c`.
proof fn lemma_square_rows(size: int, s: int, n: int, r: nat)
    requires
        n >= 0,
    ensures
        forall|j: nat| j <= r ==> (#[trigger] square_rows(size, s, n, j)).len() <= square_rows(size, s, n, r).len(),
        forall|j: nat, c: int|
            j < r && 0 <= c < square_row_len(n, j as int) ==> square_rows(size, s, n, r)[row_start(
                size,
                s,
                n,
                j,
            ) + c] == #[trigger] square_at(size, s, n, j, c),
        forall|q: int|
            0 <= q < square_rows(size, s, n, r).len() ==> {
                let (j, c) = #[trigger] square_locate(size, s, n, r, q);
                &&& j < r
                &&& 0 <= c < square_row_len(n, j as int)
                &&& q == row_start(size, s, n, j) + c
                &&& square_rows(size, s, n, r)[q] == square_at(size, s, n, j, c)
            },
        square_rows(size, s, n, r).len() == square_rows(size, s, n, (r - 1) as nat).len()
            + square_row_len(n, r - 1) || r == 0,
    decreases r,
{
    if r > 0 {
        let r1 = (r - 1) as nat;
        lemma_square_rows(size, s, n, r1);
        let prev = square_rows(size, s, n, r1);
        let row_seq = square_row(size, s, n, r1 as int);
        let all = square_rows(size, s, n, r);
        assert(all == prev + row_seq);
        assert(row_seq.len() == square_row_len(n, r1 as int));
        assert forall|j: nat| j <= r implies (#[trigger] square_rows(size, s, n, j)).len() <= all.len() by {
            if j < r {
                assert(square_rows(size, s, n, j).len() <= prev.len());
            }
        }
        assert forall|j: nat, c: int|
            j < r && 0 <= c < square_row_len(n, j as int) implies all[row_start(
            size,
            s,
            n,
            j,
        ) + c] == #[trigger] square_at(size, s, n, j, c) by {
            if j < r1 {
                assert(prev[row_start(size, s, n, j) + c] == square_at(size, s, n, j, c));
                lemma_square_rows_prefix(size, s, n, j + 1, r1);
                assert(square_rows(size, s, n, j + 1) == square_rows(size, s, n, j) + square_row(size, s, n, j as int));
                assert(square_rows(size, s, n, j).len() + c < prev.len());
            }
        }
        assert forall|q: int| 0 <= q < all.len() implies {
            let (j, c) = #[trigger] square_locate(size, s, n, r, q);
            &&& j < r
            &&& 0 <= c < square_row_len(n, j as int)
            &&& q == row_start(size, s, n, j) + c
            &&& all[q] == square_at(size, s, n, j, c)
        } by {
            if q < prev.len() {
                assert(square_locate(size, s, n, r, q) == square_locate(size, s, n, r1, q));
                assert(prev[q] == all[q]);
            } else {
                let c = q - prev.len();
                assert(all[q] == row_seq[c]);
            }
        }
    }
}

/// Later prefixes of the square rows are at least as long.
proof fn lemma_square_rows_prefix(size: int, s: int, n: int, j: nat, r: nat)
    requires
        n >= 0,
        j <= r,
    ensures
        square_rows(size, s, n, j).len() <= square_rows(size, s, n, r).len(),
    decreases r,
{
    if j < r {
        lemma_square_rows_prefix(size, s, n, j, (r - 1) as nat);
        assert(square_rows(size, s, n, r) == square_rows(size, s, n, (r - 1) as nat) + square_row(
            size,
            s,
            n,
            r - 1,
        ));
    }
}

/// Column of cell `t` on a square of side `size`.
pub open spec fn col_of(size: int, t: int) -> int {
    t % size
}

/// Row of cell `t` on a square of side `size`.
pub open spec fn row_of(size: int, t: int) -> int {
    t / size
}

/// `t` is a cell of the square of side `size`.
pub open spec fn in_grid(size: int, t: int) -> bool {
    0 <= t < size * size
}

/// Both coordinates of cell `t` are multiples of `s`.
pub open spec fn on_lattice(size: int, s: int, t: int) -> bool {
    col_of(size, t) % s == 0 && row_of(size, t) % s == 0
}

/// Cell `t` is the centre of a square of side `s` of the lattice.
pub open spec fn is_centre(size: int, s: int, t: int) -> bool {
    col_of(size, t) % s == s / 2 && row_of(size, t) % s == s / 2
}

/// Cell `t` is assigned by the level with square side `s`: both coordinates
/// are multiples of `s / 2`, not both multiples of `s`.
pub open spec fn level_target(size: int, s: int, t: int) -> bool {
    &&& in_grid(size, t)
    &&& col_of(size, t) % (s / 2) == 0
    &&& row_of(size, t) % (s / 2) == 0
    &&& !on_lattice(size, s, t)
}

/// The level with side `s` has `n` squares per row on a square of side `size`.
pub open spec fn level_ok(size: int, s: int, n: int) -> bool {
    &&& n >= 1
    &&& s >= 2
    &&& s % 2 == 0
    &&& size - 1 == n * s
}

/// Column and row of `cell(size, x, z)`.
proof fn lemma_cell_coords(size: int, x: int, z: int)
    requires
        size > 0,
        0 <= x < size,
        0 <= z < size,
    ensures
        col_of(size, cell(size, x, z)) == x,
        row_of(size, cell(size, x, z)) == z,
        in_grid(size, cell(size, x, z)),
{
    lemma_split(z, x, size);
    assert(z * size + x < size * size) by (nonlinear_arith)
        requires
            0 <= x < size,
            0 <= z < size,
    ;
    assert(z * size + x >= 0) by (nonlinear_arith)
        requires
            0 <= x,
            0 <= z,
            size > 0,
    ;
}

/// A cell is rebuilt from its column and row.
proof fn lemma_coords_cell(size: int, t: int)
    requires
        size > 0,
        in_grid(size, t),
    ensures
        0 <= col_of(size, t) < size,
        0 <= row_of(size, t) < size,
        cell(size, col_of(size, t), row_of(size, t)) == t,
{
    lemma_fundamental_div_mod(t, size);
    assert(size * (t / size) == (t / size) * size) by (nonlinear_arith);
    assert(t / size < size) by (nonlinear_arith)
        requires
            0 <= t < size * size,
            size > 0,
            t == size * (t / size) + t % size,
            0 <= t % size < size,
    ;
    assert(t / size >= 0) by (nonlinear_arith)
        requires
            0 <= t,
            size > 0,
            t == size * (t / size) + t % size,
            t % size < size,
    ;
}

/// A multiple of `h` is, modulo `2 * h`, either 0 or `h`.
proof fn lemma_half_multiple(x: int, h: int)
    requires
        h > 0,
        x >= 0,
        x % h == 0,
    ensures
        x % (2 * h) == 0 || x % (2 * h) == h,
        x % (2 * h) == 0 ==> x == (x / (2 * h)) * (2 * h),
        x % (2 * h) == h ==> x == (x / (2 * h)) * (2 * h) + h,
{
    let s = 2 * h;
    lemma_fundamental_div_mod(x, h);
    let m = x / h;
    assert(x == m * h) by (nonlinear_arith)
        requires
            x == h * m + x % h,
            x % h == 0,
    ;
    lemma_fundamental_div_mod(m, 2);
    let a = m / 2;
    if m % 2 == 0 {
        assert(x == a * s) by (nonlinear_arith)
            requires
                x == m * h,
                m == 2 * a + m % 2,
                m % 2 == 0,
                s == 2 * h,
        ;
        lemma_split(a, 0, s);
    } else {
        assert(x == a * s + h) by (nonlinear_arith)
            requires
                x == m * h,
                m == 2 * a + m % 2,
                m % 2 == 1,
                s == 2 * h,
        ;
        lemma_split(a, h, s);
    }
}

/// `m * s + off`, with `off` either 0 or `s / 2`, leaves remainder `off` by
/// `s` and is a multiple of `s / 2`.
proof fn lemma_lattice_coord(s: int, m: int, off: int)
    requires
        s >= 2,
        s % 2 == 0,
        m >= 0,
        off == 0 || off == s / 2,
    ensures
        (m * s + off) % s == off,
        (m * s + off) % (s / 2) == 0,
        m * s + off >= 0,
{
    let h = s / 2;
    lemma_split(m, off, s);
    if off == 0 {
        assert(m * s + off == (2 * m) * h) by (nonlinear_arith)
            requires
                s == 2 * h,
                off == 0,
        ;
        lemma_split(2 * m, 0, h);
    } else {
        assert(m * s + off == (2 * m + 1) * h) by (nonlinear_arith)
            requires
                s == 2 * h,
                off == h,
        ;
        lemma_split(2 * m + 1, 0, h);
    }
    assert(m * s >= 0) by (nonlinear_arith)
        requires
            m >= 0,
            s >= 0,
    ;
}

/// Every source of a step lies on the square, on the lattice of side `s` or
/// on a centre of it.
spec fn good_sources(size: int, s: int, v: Seq<int>) -> bool {
    forall|i: int|
        0 <= i < v.len() ==> in_grid(size, #[trigger] v[i]) && (on_lattice(size, s, v[i])
            || is_centre(size, s, v[i]))
}

/// The cell `(x, z)` with `x ≡ ox`, `z ≡ oz` modulo `s` (each 0 or `s / 2`)
/// is on the square and on the lattice or a centre of it.
proof fn lemma_class_cell(size: int, s: int, x: int, z: int, ox: int, oz: int)
    requires
        s >= 2,
        s % 2 == 0,
        0 <= x < size,
        0 <= z < size,
        ox == 0 || ox == s / 2,
        oz == 0 || oz == s / 2,
        x % s == ox,
        z % s == oz,
        ox == oz,
    ensures
        good_sources(size, s, seq![cell(size, x, z)]),
{
    lemma_cell_coords(size, x, z);
}

/// The sources of a square step of a level are good.
proof fn lemma_square_sources_good(size: int, s: int, n: int, x: int, z: int)
    requires
        level_ok(size, s, n),
        0 <= x < size,
        0 <= z < size,
        x % (s / 2) == 0,
        z % (s / 2) == 0,
        (x % s == s / 2 && z % s == 0) || (x % s == 0 && z % s == s / 2),
    ensures
        good_sources(size, s, square_sources(size, s / 2, x, z)),
{
    let h = s / 2;
    lemma_fundamental_div_mod(x, s);
    lemma_fundamental_div_mod(z, s);
    let mx = x / s;
    let mz = z / s;
    assert(x == mx * s + x % s) by (nonlinear_arith)
        requires
            x == s * (x / s) + x % s,
            mx == x / s,
    ;
    assert(z == mz * s + z % s) by (nonlinear_arith)
        requires
            z == s * (z / s) + z % s,
            mz == z / s,
    ;
    assert(mx >= 0 && mz >= 0) by (nonlinear_arith)
        requires
            x == mx * s + x % s,
            z == mz * s + z % s,
            0 <= x,
            0 <= z,
            x % s < s,
            z % s < s,
            s > 0,
    ;
    let a = if z >= h { seq![cell(size, x, z - h)] } else { Seq::<int>::empty() };
    let b = if z + h < size { seq![cell(size, x, z + h)] } else { Seq::<int>::empty() };
    let c = if x >= h { seq![cell(size, x - h, z)] } else { Seq::<int>::empty() };
    let d = if x + h < size { seq![cell(size, x + h, z)] } else { Seq::<int>::empty() };
    assert(square_sources(size, h, x, z) == a + b + c + d);
    let xs = x % s;
    let zs = z % s;
    // Each neighbour differs from (x, z) by h in one coordinate.
    if z >= h {
        if zs == 0 {
            assert(mz >= 1) by (nonlinear_arith)
                requires
                    z == mz * s,
                    z >= h,
                    h > 0,
                    s == 2 * h,
                    mz >= 0,
            ;
            assert(z - h == (mz - 1) * s + h) by (nonlinear_arith)
                requires
                    z == mz * s,
                    s == 2 * h,
            ;
            lemma_lattice_coord(s, mz - 1, h);
            lemma_class_cell(size, s, x, z - h, xs, h);
        } else {
            lemma_lattice_coord(s, mz, 0);
            lemma_class_cell(size, s, x, z - h, xs, 0);
        }
    }
    if z + h < size {
        if zs == 0 {
            lemma_lattice_coord(s, mz, h);
            lemma_class_cell(size, s, x, z + h, xs, h);
        } else {
            assert(z + h == (mz + 1) * s) by (nonlinear_arith)
                requires
                    z == mz * s + h,
                    s == 2 * h,
            ;
            lemma_lattice_coord(s, mz + 1, 0);
            lemma_class_cell(size, s, x, z + h, xs, 0);
        }
    }
    if x >= h {
        if xs == 0 {
            assert(mx >= 1) by (nonlinear_arith)
                requires
                    x == mx * s,
                    x >= h,
                    h > 0,
                    s == 2 * h,
                    mx >= 0,
            ;
            assert(x - h == (mx - 1) * s + h) by (nonlinear_arith)
                requires
                    x == mx * s,
                    s == 2 * h,
            ;
            lemma_lattice_coord(s, mx - 1, h);
            lemma_class_cell(size, s, x - h, z, h, zs);
        } else {
            lemma_lattice_coord(s, mx, 0);
            lemma_class_cell(size, s, x - h, z, 0, zs);
        }
    }
    if x + h < size {
        if xs == 0 {
            lemma_lattice_coord(s, mx, h);
            lemma_class_cell(size, s, x + h, z, h, zs);
        } else {
            assert(x + h == (mx + 1) * s) by (nonlinear_arith)
                requires
                    x == mx * s + h,
                    s == 2 * h,
            ;
            lemma_lattice_coord(s, mx + 1, 0);
            lemma_class_cell(size, s, x + h, z, 0, zs);
        }
    }
    assert(good_sources(size, s, a + b + c + d));
}

/// `v` is the cell at distance `h` from `(x, z)` along one axis (`-z`, `+z`,
/// `-x` or `+x`) that lies on the square of side `size`.
pub open spec fn axis_neighbour(size: int, h: int, x: int, z: int, v: int) -> bool {
    ||| z >= h && v == (z - h) * size + x
    ||| z + h < size && v == (z + h) * size + x
    ||| x >= h && v == z * size + (x - h)
    ||| x + h < size && v == z * size + (x + h)
}

/// The sources of a square step are its in-square axis neighbours at
/// distance `h`, each once.
proof fn lemma_square_sources_neighbours(size: int, h: int, x: int, z: int)
    requires
        size > 0,
        h > 0,
        0 <= x < size,
        0 <= z < size,
    ensures
        square_sources(size, h, x, z).no_duplicates(),
        forall|i: int|
            0 <= i < square_sources(size, h, x, z).len() ==> axis_neighbour(
                size,
                h,
                x,
                z,
                #[trigger] square_sources(size, h, x, z)[i],
            ),
        z >= h ==> square_sources(size, h, x, z).contains((z - h) * size + x),
        z + h < size ==> square_sources(size, h, x, z).contains((z + h) * size + x),
        x >= h ==> square_sources(size, h, x, z).contains(z * size + (x - h)),
        x + h < size ==> square_sources(size, h, x, z).contains(z * size + (x + h)),
{
    let a = if z >= h { seq![cell(size, x, z - h)] } else { Seq::<int>::empty() };
    let b = if z + h < size { seq![cell(size, x, z + h)] } else { Seq::<int>::empty() };
    let c = if x >= h { seq![cell(size, x - h, z)] } else { Seq::<int>::empty() };
    let d = if x + h < size { seq![cell(size, x + h, z)] } else { Seq::<int>::empty() };
    let srcs = a + b + c + d;
    assert(square_sources(size, h, x, z) == srcs);
    let la = a.len() as int;
    let lb = b.len() as int;
    let lc = c.len() as int;
    let ld = d.len() as int;
    assert(srcs.len() == la + lb + lc + ld);
    if z >= h {
        lemma_cell_coords(size, x, z - h);
        assert(srcs[0] == (z - h) * size + x);
    }
    if z + h < size {
        lemma_cell_coords(size, x, z + h);
        assert(srcs[la] == (z + h) * size + x);
    }
    if x >= h {
        lemma_cell_coords(size, x - h, z);
        assert(srcs[la + lb] == z * size + (x - h));
    }
    if x + h < size {
        lemma_cell_coords(size, x + h, z);
        assert(srcs[la + lb + lc] == z * size + (x + h));
    }
    assert forall|i: int| 0 <= i < srcs.len() implies axis_neighbour(size, h, x, z, #[trigger] srcs[i]) by {
        if i < la {
            assert(srcs[i] == a[i]);
        } else if i < la + lb {
            assert(srcs[i] == b[i - la]);
        } else if i < la + lb + lc {
            assert(srcs[i] == c[i - la - lb]);
        } else {
            assert(srcs[i] == d[i - la - lb - lc]);
        }
    }
    assert forall|i: int, j: int| 0 <= i < srcs.len() && 0 <= j < srcs.len() && i != j implies srcs[i]
        != srcs[j] by {
        let bi: int = if i < la { 0 } else if i < la + lb { 1 } else if i < la + lb + lc { 2 } else { 3 };
        let bj: int = if j < la { 0 } else if j < la + lb { 1 } else if j < la + lb + lc { 2 } else { 3 };
        assert(bi != bj);
        let ci = col_of(size, srcs[i]);
        let cj = col_of(size, srcs[j]);
        let ri = row_of(size, srcs[i]);
        let rj = row_of(size, srcs[j]);
        assert(bi == 0 ==> ci == x && ri == z - h);
        assert(bi == 1 ==> ci == x && ri == z + h);
        assert(bi == 2 ==> ci == x - h && ri == z);
        assert(bi == 3 ==> ci == x + h && ri == z);
        assert(bj == 0 ==> cj == x && rj == z - h);
        assert(bj == 1 ==> cj == x && rj == z + h);
        assert(bj == 2 ==> cj == x - h && rj == z);
        assert(bj == 3 ==> cj == x + h && rj == z);
    }
}

/// Number of diamond steps of a level: one per square.
spec fn diamond_count(n: int) -> int {
    n * n
}

/// Steps of the level are well placed: each assigns a cell of the level,
/// diamond steps (which come first) exactly the centres, and each reads
/// lattice cells, or (square steps only) centres.
proof fn lemma_level_step(size: int, s: int, n: int, q: int)
    requires
        level_ok(size, s, n),
        0 <= q < level_steps(size, s, n).len(),
    ensures
        level_target(size, s, level_steps(size, s, n)[q].0),
        (q < diamond_count(n)) == is_centre(size, s, level_steps(size, s, n)[q].0),
        good_sources(size, s, level_steps(size, s, n)[q].1),
        q < diamond_count(n) ==> forall|i: int|
            0 <= i < level_steps(size, s, n)[q].1.len() ==> on_lattice(
                size,
                s,
                #[trigger] level_steps(size, s, n)[q].1[i],
            ),
        q < diamond_count(n) ==> ({
            let t = level_steps(size, s, n)[q].0;
            let x = col_of(size, t);
            let z = row_of(size, t);
            let h = s / 2;
            &&& h <= x && x + h < size
            &&& h <= z && z + h < size
            &&& level_steps(size, s, n)[q].1 == seq![
                (z - h) * size + (x - h),
                (z - h) * size + (x + h),
                (z + h) * size + (x - h),
                (z + h) * size + (x + h),
            ]
        }),
        q >= diamond_count(n) ==> ({
            let t = level_steps(size, s, n)[q].0;
            let srcs = level_steps(size, s, n)[q].1;
            let x = col_of(size, t);
            let z = row_of(size, t);
            let h = s / 2;
            &&& srcs.no_duplicates()
            &&& forall|i: int| 0 <= i < srcs.len() ==> axis_neighbour(size, h, x, z, #[trigger] srcs[i])
            &&& (z >= h ==> srcs.contains((z - h) * size + x))
            &&& (z + h < size ==> srcs.contains((z + h) * size + x))
            &&& (x >= h ==> srcs.contains(z * size + (x - h)))
            &&& (x + h < size ==> srcs.contains(z * size + (x + h)))
        }),
{
    let h = s / 2;
    let d = diamond_rows(size, s, n, n as nat);
    let sq = square_rows(size, s, n, (2 * n + 1) as nat);
    let l = level_steps(size, s, n);
    lemma_diamond_rows(size, s, n, n as nat);
    lemma_square_rows(size, s, n, (2 * n + 1) as nat);
    assert(l == d + sq);
    assert(size > 0) by (nonlinear_arith)
        requires
            size - 1 == n * s,
            n >= 1,
            s >= 2,
    ;
    if q < diamond_count(n) {
        let (row, c) = diamond_locate(n, n as nat, q);
        assert(l[q] == d[q]);
        assert(l[q] == diamond_step(size, s, c * s, row * s));
        let x = c * s + h;
        let z = row * s + h;
        lemma_lattice_coord(s, c, h);
        lemma_lattice_coord(s, row, h);
        assert(c * s + s <= n * s && row * s + s <= n * s) by (nonlinear_arith)
            requires
                0 <= c < n,
                0 <= row < n,
                s > 0,
        ;
        lemma_cell_coords(size, x, z);
        lemma_lattice_coord(s, c, 0);
        lemma_lattice_coord(s, row, 0);
        lemma_lattice_coord(s, c + 1, 0);
        lemma_lattice_coord(s, row + 1, 0);
        assert((c + 1) * s == c * s + s && (row + 1) * s == row * s + s) by (nonlinear_arith);
        lemma_cell_coords(size, c * s, row * s);
        lemma_cell_coords(size, c * s + s, row * s);
        lemma_cell_coords(size, c * s, row * s + s);
        lemma_cell_coords(size, c * s + s, row * s + s);
        let srcs = l[q].1;
        assert(srcs == seq![
            cell(size, c * s, row * s),
            cell(size, c * s + s, row * s),
            cell(size, c * s, row * s + s),
            cell(size, c * s + s, row * s + s),
        ]);
        assert(x - h == c * s && x + h == c * s + s);
        assert(z - h == row * s && z + h == row * s + s);
        assert(srcs =~= seq![
            (z - h) * size + (x - h),
            (z - h) * size + (x + h),
            (z + h) * size + (x - h),
            (z + h) * size + (x + h),
        ]);
    } else {
        let q2 = q - diamond_count(n);
        let (j, c) = square_locate(size, s, n, (2 * n + 1) as nat, q2);
        assert(l[q] == sq[q2]);
        assert(l[q] == square_at(size, s, n, j, c));
        assert(j <= 2 * n);
        lemma_fundamental_div_mod(j as int, 2);
        let m = j as int / 2;
        assert(j * h == m * s + (j as int % 2) * h) by (nonlinear_arith)
            requires
                j == 2 * m + j as int % 2,
                s == 2 * h,
        ;
        assert(m <= n) by (nonlinear_arith)
            requires
                j <= 2 * n,
                j == 2 * m + j as int % 2,
                0 <= j as int % 2,
        ;
        if j as int % 2 == 0 {
            let x = h + c * s;
            let z = j * h;
            assert(l[q] == square_step(size, h, x, z));
            assert(0 <= c < n);
            assert(c * s + h < n * s) by (nonlinear_arith)
                requires
                    0 <= c < n,
                    s == 2 * h,
                    h > 0,
            ;
            assert(m * s <= n * s) by (nonlinear_arith)
                requires
                    m <= n,
                    s > 0,
            ;
            lemma_lattice_coord(s, c, h);
            lemma_lattice_coord(s, m, 0);
            assert(x == c * s + h);
            assert(z == m * s) by (nonlinear_arith)
                requires
                    z == j * h,
                    j * h == m * s + (j as int % 2) * h,
                    j as int % 2 == 0,
            ;
            lemma_cell_coords(size, x, z);
            lemma_square_sources_good(size, s, n, x, z);
            lemma_square_sources_neighbours(size, h, x, z);
        } else {
            let x = c * s;
            let z = j * h;
            assert(l[q] == square_step(size, h, x, z));
            assert(0 <= c <= n);
            assert(m < n) by (nonlinear_arith)
                requires
                    j <= 2 * n,
                    j == 2 * m + 1,
            ;
            assert(c * s <= n * s && m * s + h < n * s) by (nonlinear_arith)
                requires
                    0 <= c <= n,
                    0 <= m < n,
                    s == 2 * h,
                    h > 0,
            ;
            lemma_lattice_coord(s, c, 0);
            lemma_lattice_coord(s, m, h);
            assert(z == m * s + h) by (nonlinear_arith)
                requires
                    z == j * h,
                    j * h == m * s + (j as int % 2) * h,
                    j as int % 2 == 1,
            ;
            lemma_cell_coords(size, x, z);
            lemma_square_sources_good(size, s, n, x, z);
            lemma_square_sources_neighbours(size, h, x, z);
        }
    }
}

/// Position, within its level, of the step that assigns cell `t`.
spec fn level_position(size: int, s: int, n: int, t: int) -> int {
    let h = s / 2;
    let x = col_of(size, t);
    let z = row_of(size, t);
    if x % s == h && z % s == h {
        grid_pos(n, z / s, x / s)
    } else if z % s == 0 {
        diamond_count(n) + row_start(size, s, n, (2 * (z / s)) as nat) + x / s
    } else {
        diamond_count(n) + row_start(size, s, n, (2 * (z / s) + 1) as nat) + x / s
    }
}

/// The square steps of rows `0..=j` fit in the square steps of a level.
proof fn lemma_row_fits(size: int, s: int, n: int, j: nat)
    requires
        n >= 0,
        j < 2 * n + 1,
    ensures
        row_start(size, s, n, j) + square_row_len(n, j as int) <= square_rows(
            size,
            s,
            n,
            (2 * n + 1) as nat,
        ).len(),
{
    lemma_square_rows(size, s, n, j + 1);
    lemma_square_rows(size, s, n, (2 * n + 1) as nat);
    assert(((j + 1) - 1) as nat == j);
    assert(square_rows(size, s, n, j + 1).len() <= square_rows(size, s, n, (2 * n + 1) as nat).len());
}

/// Multiplication by a positive factor keeps strict order.
proof fn lemma_mul_lt_cancel(a: int, b: int, s: int)
    requires
        s > 0,
        a * s < b * s,
    ensures
        a < b,
{
    if a >= b {
        assert(a * s >= b * s) by (nonlinear_arith)
            requires
                a >= b,
                s > 0,
        ;
    }
}

/// Every cell of a level is assigned by the step at its position.
proof fn lemma_level_complete(size: int, s: int, n: int, t: int)
    requires
        level_ok(size, s, n),
        level_target(size, s, t),
    ensures
        0 <= level_position(size, s, n, t) < level_steps(size, s, n).len(),
        level_steps(size, s, n)[level_position(size, s, n, t)].0 == t,
{
    let h = s / 2;
    let d = diamond_rows(size, s, n, n as nat);
    let sq = square_rows(size, s, n, (2 * n + 1) as nat);
    let l = level_steps(size, s, n);
    lemma_diamond_rows(size, s, n, n as nat);
    lemma_square_rows(size, s, n, (2 * n + 1) as nat);
    assert(l == d + sq);
    assert(size > 0) by (nonlinear_arith)
        requires
            size - 1 == n * s,
            n >= 1,
            s >= 2,
    ;
    lemma_coords_cell(size, t);
    let x = col_of(size, t);
    let z = row_of(size, t);
    lemma_half_multiple(x, h);
    lemma_half_multiple(z, h);
    let cx = x / s;
    let mz = z / s;
    assert(s == 2 * h);
    assert(cx >= 0 && mz >= 0) by (nonlinear_arith)
        requires
            x == cx * s + x % s || x == cx * s,
            z == mz * s + z % s || z == mz * s,
            x >= 0,
            z >= 0,
            0 <= x % s < s,
            0 <= z % s < s,
            s > 0,
    ;
    if x % s == h && z % s == h {
        lemma_mul_lt_cancel(cx, n, s);
        lemma_mul_lt_cancel(mz, n, s);
        assert(grid_pos(n, mz, cx) < n * n) by (nonlinear_arith)
            requires
                0 <= mz < n,
                0 <= cx < n,
        ;
        assert(grid_pos(n, mz, cx) >= 0) by (nonlinear_arith)
            requires
                0 <= mz,
                0 <= cx,
                n >= 1,
        ;
        assert(l[grid_pos(n, mz, cx)] == d[grid_pos(n, mz, cx)]);
        assert(d[grid_pos(n, mz, cx)] == diamond_at(size, s, cx, mz));
    } else if z % s == 0 {
        let j = (2 * mz) as nat;
        assert(x % s == h);
        lemma_mul_lt_cancel(cx, n, s);
        assert(mz <= n) by (nonlinear_arith)
            requires
                z == mz * s,
                z < size,
                size - 1 == n * s,
                s > 0,
        ;
        assert(j as int % 2 == 0);
        lemma_row_fits(size, s, n, j);
        assert(sq[row_start(size, s, n, j) + cx] == square_at(size, s, n, j, cx));
        assert(j * h == z) by (nonlinear_arith)
            requires
                j == 2 * mz,
                z == mz * s,
                s == 2 * h,
        ;
        assert(h + cx * s == x);
        assert(square_at(size, s, n, j, cx) == square_step(size, h, h + cx * s, j * h));
        let p = diamond_count(n) + row_start(size, s, n, j) + cx;
        assert(l[p] == sq[row_start(size, s, n, j) + cx]);
    } else {
        let j = (2 * mz + 1) as nat;
        assert(x % s == 0);
        assert(z % s == h);
        assert(cx <= n) by (nonlinear_arith)
            requires
                x == cx * s,
                x < size,
                size - 1 == n * s,
                s > 0,
        ;
        lemma_mul_lt_cancel(mz, n, s);
        assert(j as int % 2 == 1);
        lemma_row_fits(size, s, n, j);
        assert(sq[row_start(size, s, n, j) + cx] == square_at(size, s, n, j, cx));
        assert(j * h == z) by (nonlinear_arith)
            requires
                j == 2 * mz + 1,
                z == mz * s + h,
                s == 2 * h,
        ;
        assert(square_at(size, s, n, j, cx) == square_step(size, h, cx * s, j * h));
        let p = diamond_count(n) + row_start(size, s, n, j) + cx;
        assert(l[p] == sq[row_start(size, s, n, j) + cx]);
    }
}

/// The step at position `q` of a level is the step at the position of its
/// own cell: no two steps of a level assign the same cell.
proof fn lemma_level_position_inverse(size: int, s: int, n: int, q: int)
    requires
        level_ok(size, s, n),
        0 <= q < level_steps(size, s, n).len(),
    ensures
        level_position(size, s, n, level_steps(size, s, n)[q].0) == q,
{
    let h = s / 2;
    let d = diamond_rows(size, s, n, n as nat);
    let sq = square_rows(size, s, n, (2 * n + 1) as nat);
    let l = level_steps(size, s, n);
    lemma_diamond_rows(size, s, n, n as nat);
    lemma_square_rows(size, s, n, (2 * n + 1) as nat);
    assert(l == d + sq);
    assert(size > 0) by (nonlinear_arith)
        requires
            size - 1 == n * s,
            n >= 1,
            s >= 2,
    ;
    lemma_level_step(size, s, n, q);
    if q < diamond_count(n) {
        let (row, c) = diamond_locate(n, n as nat, q);
        assert(l[q] == d[q]);
        assert(c * s + s <= n * s && row * s + s <= n * s) by (nonlinear_arith)
            requires
                0 <= c < n,
                0 <= row < n,
                s > 0,
        ;
        lemma_lattice_coord(s, c, h);
        lemma_lattice_coord(s, row, h);
        lemma_cell_coords(size, c * s + h, row * s + h);
        lemma_split(c, h, s);
        lemma_split(row, h, s);
    } else {
        let q2 = q - diamond_count(n);
        let (j, c) = square_locate(size, s, n, (2 * n + 1) as nat, q2);
        assert(l[q] == sq[q2]);
        lemma_fundamental_div_mod(j as int, 2);
        let m = j as int / 2;
        assert(j * h == m * s + (j as int % 2) * h) by (nonlinear_arith)
            requires
                j == 2 * m + j as int % 2,
                s == 2 * h,
        ;
        assert(m <= n) by (nonlinear_arith)
            requires
                j <= 2 * n,
                j == 2 * m + j as int % 2,
                0 <= j as int % 2,
        ;
        if j as int % 2 == 0 {
            let x = h + c * s;
            let z = j * h;
            assert(z == m * s) by (nonlinear_arith)
                requires
                    z == j * h,
                    j * h == m * s + (j as int % 2) * h,
                    j as int % 2 == 0,
            ;
            assert(c * s + h < n * s && m * s <= n * s) by (nonlinear_arith)
                requires
                    0 <= c < n,
                    m <= n,
                    s == 2 * h,
                    h > 0,
            ;
            lemma_lattice_coord(s, c, h);
            lemma_lattice_coord(s, m, 0);
            lemma_cell_coords(size, x, z);
            lemma_split(c, h, s);
            lemma_split(m, 0, s);
            assert(2 * m == j);
        } else {
            let x = c * s;
            let z = j * h;
            assert(z == m * s + h) by (nonlinear_arith)
                requires
                    z == j * h,
                    j * h == m * s + (j as int % 2) * h,
                    j as int % 2 == 1,
            ;
            assert(m < n) by (nonlinear_arith)
                requires
                    j <= 2 * n,
                    j == 2 * m + 1,
            ;
            assert(c * s <= n * s && m * s + h < n * s) by (nonlinear_arith)
                requires
                    0 <= c <= n,
                    0 <= m < n,
                    s == 2 * h,
                    h > 0,
            ;
            lemma_lattice_coord(s, c, 0);
            lemma_lattice_coord(s, m, h);
            lemma_cell_coords(size, x, z);
            lemma_split(c, 0, s);
            lemma_split(m, h, s);
            assert(2 * m + 1 == j);
        }
    }
}

/// The steps of level `j` of the subdivision of a square of side
/// `size == 2^k + 1`, as listed by `subdivision_schedule`.
pub open spec fn schedule_level(size: int, k: nat, j: int) -> Seq<(int, Seq<int>)> {
    level_steps(size, pow2((k - j) as nat) as int, pow2(j as nat) as int)
}

/// Cell `t` is one of the four corners of the square of side `size`.
pub open spec fn is_corner(size: int, t: int) -> bool {
    &&& in_grid(size, t)
    &&& (col_of(size, t) == 0 || col_of(size, t) == size - 1)
    &&& (row_of(size, t) == 0 || row_of(size, t) == size - 1)
}

/// Square side of level `j`.
spec fn side_at(k: nat, j: int) -> int {
    pow2((k - j) as nat) as int
}

/// Level `j < k` is a well-formed level whose half side is the side of
/// level `j + 1`.
proof fn lemma_level_params(size: int, k: nat, j: int)
    requires
        size == pow2(k) + 1,
        0 <= j < k,
    ensures
        level_ok(size, side_at(k, j), pow2(j as nat) as int),
        side_at(k, j) / 2 == side_at(k, j + 1),
{
    let e = (k - j) as nat;
    lemma_pow2_unfold(e);
    lemma_pow2_pos((e - 1) as nat);
    lemma_pow2_pos(j as nat);
    lemma_pow2_adds(j as nat, e);
    assert(j as nat + e == k);
    assert((k - (j + 1)) as nat == (e - 1) as nat);
    assert(pow2(j as nat) * pow2(e) == pow2(e) * pow2(j as nat)) by (nonlinear_arith);
}

/// A multiple of `2^e1` is a multiple of `2^e2` for `e2 <= e1`.
proof fn lemma_pow2_multiple(x: int, e1: nat, e2: nat)
    requires
        e2 <= e1,
        x % (pow2(e1) as int) == 0,
    ensures
        x % (pow2(e2) as int) == 0,
{
    let p1 = pow2(e1) as int;
    let p2 = pow2(e2) as int;
    let r = pow2((e1 - e2) as nat) as int;
    lemma_pow2_pos(e1);
    lemma_pow2_pos(e2);
    lemma_pow2_adds(e2, (e1 - e2) as nat);
    assert(e2 + (e1 - e2) as nat == e1);
    lemma_fundamental_div_mod(x, p1);
    let m = x / p1;
    assert(x == (m * r) * p2) by (nonlinear_arith)
        requires
            x == p1 * m + x % p1,
            x % p1 == 0,
            p1 == p2 * r,
    ;
    lemma_split(m * r, 0, p2);
}

/// Lattices of later levels are finer.
proof fn lemma_lattice_finer(size: int, k: nat, a: int, b: int, t: int)
    requires
        0 <= a <= b <= k,
        on_lattice(size, side_at(k, a), t),
    ensures
        on_lattice(size, side_at(k, b), t),
{
    lemma_pow2_multiple(col_of(size, t), (k - a) as nat, (k - b) as nat);
    lemma_pow2_multiple(row_of(size, t), (k - a) as nat, (k - b) as nat);
}

/// The cells of level `i` lie on the lattice of every later level.
proof fn lemma_target_on_later_lattice(size: int, k: nat, i: int, j: int, t: int)
    requires
        size == pow2(k) + 1,
        0 <= i < j <= k,
        level_target(size, side_at(k, i), t),
    ensures
        on_lattice(size, side_at(k, j), t),
{
    lemma_level_params(size, k, i);
    lemma_lattice_finer(size, k, i + 1, j, t);
}

/// Corners lie on the lattice of every level.
proof fn lemma_corner_on_lattice(size: int, k: nat, j: int, t: int)
    requires
        size == pow2(k) + 1,
        0 <= j <= k,
        is_corner(size, t),
    ensures
        on_lattice(size, side_at(k, j), t),
{
    let s = side_at(k, j);
    lemma_pow2_pos((k - j) as nat);
    lemma_pow2_adds(j as nat, (k - j) as nat);
    assert(j as nat + (k - j) as nat == k);
    let n = pow2(j as nat) as int;
    assert(size - 1 == n * s);
    lemma_split(0, 0, s);
    lemma_split(n, 0, s);
}

/// The level that assigns a non-corner cell of the lattice of level `j`.
spec fn assigning_level(size: int, k: nat, j: int, t: int) -> int
    decreases j,
{
    if j <= 0 {
        0
    } else if on_lattice(size, side_at(k, j - 1), t) {
        assigning_level(size, k, j - 1, t)
    } else {
        j - 1
    }
}

/// A non-corner cell on the lattice of level `j` is assigned by an earlier
/// level.
proof fn lemma_assigning_level(size: int, k: nat, j: int, t: int)
    requires
        size == pow2(k) + 1,
        0 <= j <= k,
        in_grid(size, t),
        on_lattice(size, side_at(k, j), t),
        !is_corner(size, t),
    ensures
        0 <= assigning_level(size, k, j, t) < j,
        level_target(size, side_at(k, assigning_level(size, k, j, t)), t),
    decreases j,
{
    lemma_pow2_pos(k);
    assert(size > 0);
    lemma_coords_cell(size, t);
    if j == 0 {
        let p = size - 1;
        assert(side_at(k, 0) == p);
        let x = col_of(size, t);
        let z = row_of(size, t);
        lemma_fundamental_div_mod(x, p);
        lemma_fundamental_div_mod(z, p);
        assert(x == 0 || x == p) by (nonlinear_arith)
            requires
                x == p * (x / p) + x % p,
                x % p == 0,
                0 <= x <= p,
                p > 0,
        ;
        assert(z == 0 || z == p) by (nonlinear_arith)
            requires
                z == p * (z / p) + z % p,
                z % p == 0,
                0 <= z <= p,
                p > 0,
        ;
    } else {
        lemma_level_params(size, k, j - 1);
        if on_lattice(size, side_at(k, j - 1), t) {
            lemma_assigning_level(size, k, j - 1, t);
        }
    }
}

/// The cell a step assigns belongs to its level only: the same cell is never
/// a cell of two levels, and never a corner.
proof fn lemma_target_level_unique(size: int, k: nat, i: int, j: int, t: int)
    requires
        size == pow2(k) + 1,
        0 <= i < k,
        0 <= j < k,
        level_target(size, side_at(k, i), t),
        level_target(size, side_at(k, j), t),
    ensures
        i == j,
{
    if i < j {
        lemma_target_on_later_lattice(size, k, i, j, t);
    } else if j < i {
        lemma_target_on_later_lattice(size, k, j, i, t);
    }
}

/// Every cell of the square other than its four corners is assigned by some
/// step of the Diamond-Square subdivision.
pub proof fn lemma_subdivision_covers(size: int, k: nat, t: int)
    requires
        size == pow2(k) + 1,
        in_grid(size, t),
        !is_corner(size, t),
    ensures
        exists|j: int, q: int|
            0 <= j < k && 0 <= q < schedule_level(size, k, j).len() && #[trigger] schedule_level(
                size,
                k,
                j,
            )[q].0 == t,
{
    lemma_pow2_pos(k);
    lemma_coords_cell(size, t);
    assert(side_at(k, k as int) == 1) by {
        vstd::arithmetic::power2::lemma2_to64();
        assert((k - k) as nat == 0);
    }
    lemma_split(col_of(size, t), 0, 1);
    lemma_split(row_of(size, t), 0, 1);
    lemma_assigning_level(size, k, k as int, t);
    let i = assigning_level(size, k, k as int, t);
    lemma_level_params(size, k, i);
    let s = side_at(k, i);
    let n = pow2(i as nat) as int;
    lemma_level_complete(size, s, n, t);
    let q = level_position(size, s, n, t);
    assert(schedule_level(size, k, i)[q].0 == t);
}

/// No cell is assigned by two steps of the subdivision, and no corner is
/// assigned at all.
pub proof fn lemma_subdivision_assigns_once(size: int, k: nat, j1: int, q1: int, j2: int, q2: int)
    requires
        size == pow2(k) + 1,
        0 <= j1 < k,
        0 <= j2 < k,
        0 <= q1 < schedule_level(size, k, j1).len(),
        0 <= q2 < schedule_level(size, k, j2).len(),
    ensures
        !is_corner(size, schedule_level(size, k, j1)[q1].0),
        schedule_level(size, k, j1)[q1].0 == schedule_level(size, k, j2)[q2].0 ==> j1 == j2 && q1
            == q2,
{
    let s1 = side_at(k, j1);
    let s2 = side_at(k, j2);
    let n1 = pow2(j1 as nat) as int;
    let n2 = pow2(j2 as nat) as int;
    lemma_level_params(size, k, j1);
    lemma_level_params(size, k, j2);
    lemma_level_step(size, s1, n1, q1);
    lemma_level_step(size, s2, n2, q2);
    let t = schedule_level(size, k, j1)[q1].0;
    if is_corner(size, t) {
        lemma_corner_on_lattice(size, k, j1, t);
    }
    if t == schedule_level(size, k, j2)[q2].0 {
        lemma_target_level_unique(size, k, j1, j2, t);
        lemma_level_position_inverse(size, s1, n1, q1);
        lemma_level_position_inverse(size, s2, n2, q2);
    }
}

/// Every step of the subdivision reads only corners and cells that an
/// earlier step assigned.
pub proof fn lemma_subdivision_reads_assigned(size: int, k: nat, j: int, q: int, i: int)
    requires
        size == pow2(k) + 1,
        0 <= j < k,
        0 <= q < schedule_level(size, k, j).len(),
        0 <= i < schedule_level(size, k, j)[q].1.len(),
    ensures
        is_corner(size, schedule_level(size, k, j)[q].1[i]) || exists|j2: int, q2: int|
            0 <= j2 && 0 <= q2 < schedule_level(size, k, j2).len() && (j2 < j || (j2 == j && q2 < q))
                && #[trigger] schedule_level(size, k, j2)[q2].0 == schedule_level(size, k, j)[q].1[i],
{
    let s = side_at(k, j);
    let n = pow2(j as nat) as int;
    let h = s / 2;
    lemma_level_params(size, k, j);
    lemma_level_step(size, s, n, q);
    let src = schedule_level(size, k, j)[q].1[i];
    assert(in_grid(size, src) && (on_lattice(size, s, src) || is_centre(size, s, src)));
    if !is_corner(size, src) {
        if on_lattice(size, s, src) {
            lemma_assigning_level(size, k, j, src);
            let a = assigning_level(size, k, j, src);
            lemma_level_params(size, k, a);
            let sa = side_at(k, a);
            let na = pow2(a as nat) as int;
            lemma_level_complete(size, sa, na, src);
            let p = level_position(size, sa, na, src);
            assert(schedule_level(size, k, a)[p].0 == src);
        } else {
            assert(is_centre(size, s, src));
            assert(q >= diamond_count(n));
            let x = col_of(size, src);
            let z = row_of(size, src);
            lemma_fundamental_div_mod(x, s);
            lemma_fundamental_div_mod(z, s);
            assert(x == (x / s) * s + h) by (nonlinear_arith)
                requires
                    x == s * (x / s) + x % s,
                    x % s == h,
            ;
            assert(z == (z / s) * s + h) by (nonlinear_arith)
                requires
                    z == s * (z / s) + z % s,
                    z % s == h,
            ;
            lemma_pow2_pos(k);
            lemma_coords_cell(size, src);
            assert(x / s >= 0 && z / s >= 0) by (nonlinear_arith)
                requires
                    x == (x / s) * s + h,
                    z == (z / s) * s + h,
                    x >= 0,
                    z >= 0,
                    h < s,
                    s > 0,
            ;
            lemma_lattice_coord(s, x / s, h);
            lemma_lattice_coord(s, z / s, h);
            assert(level_target(size, s, src));
            lemma_level_complete(size, s, n, src);
            let p = level_position(size, s, n, src);
            lemma_level_step(size, s, n, p);
            assert(p < diamond_count(n));
            assert(schedule_level(size, k, j)[p].0 == src);
        }
    }
}

/// Each diamond step of the subdivision (the first `4^j` steps of level
/// `j`) fills the centre of a square of side `2^(k - j)` from exactly the
/// four corners of that square, which all lie on the grid: with the target
/// at column `x`, row `z` and half side `h`, the sources are `(x - h, z - h)`,
/// `(x + h, z - h)`, `(x - h, z + h)` and `(x + h, z + h)`.
pub proof fn lemma_diamond_step_reads_corners(size: int, k: nat, j: int, q: int)
    requires
        size == pow2(k) + 1,
        0 <= j < k,
        0 <= q < schedule_level(size, k, j).len(),
        q < pow2(j as nat) * pow2(j as nat),
    ensures
        ({
            let t = schedule_level(size, k, j)[q].0;
            let x = t % size;
            let z = t / size;
            let h = pow2((k - j) as nat) as int / 2;
            &&& h >= 1
            &&& h <= x && x + h < size
            &&& h <= z && z + h < size
            &&& schedule_level(size, k, j)[q].1 == seq![
                (z - h) * size + (x - h),
                (z - h) * size + (x + h),
                (z + h) * size + (x - h),
                (z + h) * size + (x + h),
            ]
        }),
{
    lemma_level_params(size, k, j);
    lemma_level_step(size, side_at(k, j), pow2(j as nat) as int, q);
}

/// Each square step of the subdivision (every step of level `j` after its
/// `4^j` diamond steps) reads exactly the cells at distance `h = 2^(k-j-1)`
/// from its target along the four axes that lie on the square, each once:
/// every source is such a neighbour, and every such neighbour is a source.
pub proof fn lemma_square_step_reads_neighbours(size: int, k: nat, j: int, q: int)
    requires
        size == pow2(k) + 1,
        0 <= j < k,
        pow2(j as nat) * pow2(j as nat) <= q < schedule_level(size, k, j).len(),
    ensures
        ({
            let t = schedule_level(size, k, j)[q].0;
            let srcs = schedule_level(size, k, j)[q].1;
            let x = t % size;
            let z = t / size;
            let h = pow2((k - j) as nat) as int / 2;
            &&& h >= 1
            &&& srcs.no_duplicates()
            &&& forall|i: int| 0 <= i < srcs.len() ==> axis_neighbour(size, h, x, z, #[trigger] srcs[i])
            &&& (z >= h ==> srcs.contains((z - h) * size + x))
            &&& (z + h < size ==> srcs.contains((z + h) * size + x))
            &&& (x >= h ==> srcs.contains(z * size + (x - h)))
            &&& (x + h < size ==> srcs.contains(z * size + (x + h)))
        }),
{
    lemma_level_params(size, k, j);
    lemma_level_step(size, side_at(k, j), pow2(j as nat) as int, q);
}

} // verus!
