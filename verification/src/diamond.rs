//! Working size and assignment order of the Diamond-Square subdivision.
//!
//! Diamond-Square subdivides a square whose side is one more than a power of
//! two. A map of any size is generated on the smallest such square that
//! covers it and then resampled. Level by level, each square's centre takes
//! the mean of its corners (diamond steps), then each edge midpoint takes the
//! mean of its neighbours at half the square's side (square steps).

use vstd::prelude::*;
use vstd::arithmetic::power2::{pow2, lemma_pow2_unfold};

use crate::grid::{Direction, GridShape};
use crate::subdivision::{lemma_diamond_rows_len, schedule_level};

verus! {

/// `s` is a side that Diamond-Square can subdivide, `2^k + 1` with
/// `k >= 1`, such that `2^(k - 1) + 1` would not cover `n`.
pub open spec fn is_minimal_working_side(s: int, n: int) -> bool {
    exists|k: nat| k >= 1 && s == #[trigger] pow2(k) + 1 && n <= s && pow2((k - 1) as nat) + 1 < n
}

/// The side of the smallest square `2^k + 1` (with `k >= 1`) that covers a
/// side of `n` cells; `2` when `n <= 2`.
pub fn required_size(n: usize) -> (s: usize)
    requires
        n <= usize::MAX / 2 + 2,
    ensures
        n <= 2 ==> s == 2,
        n > 2 ==> is_minimal_working_side(s as int, n as int),
        n <= s,
{
    if n <= 2 {
        return 2;
    }
    let mut power: usize = 1;
    let ghost mut k: nat = 0;
    assert(pow2(0) == 1) by {
        vstd::arithmetic::power2::lemma2_to64();
    }
    while power + 1 < n
        invariant
            2 < n <= usize::MAX / 2 + 2,
            power == pow2(k),
            1 <= power < usize::MAX,
            k >= 1 ==> pow2((k - 1) as nat) + 1 < n,
            k == 0 ==> power == 1,
        decreases usize::MAX - power,
    {
        proof {
            lemma_pow2_unfold(k + 1);
            assert(((k + 1) - 1) as nat == k);
        }
        power = power * 2;
        proof {
            k = k + 1;
        }
    }
    proof {
        if k == 0 {
            assert(power + 1 == 2);
        }
        assert(k >= 1 && power + 1 == pow2(k) + 1 && n <= power + 1 && pow2((k - 1) as nat) + 1 < n);
    }
    power + 1
}

/// One midpoint assignment of the subdivision: the cell at `target` takes
/// the mean of the cells at `sources` (plus a random offset).
#[derive(Clone, Debug)]
pub struct MidpointStep {
    /// Row-major position of the cell that is assigned.
    pub target: usize,
    /// Row-major positions of the cells that are averaged, in order.
    pub sources: Vec<usize>,
}

/// A step as plain numbers.
pub open spec fn step_view(m: MidpointStep) -> (int, Seq<int>) {
    (m.target as int, m.sources@.map_values(|i: usize| i as int))
}

/// A sequence of steps as plain numbers.
pub open spec fn steps_view(v: Seq<MidpointStep>) -> Seq<(int, Seq<int>)> {
    v.map_values(|m: MidpointStep| step_view(m))
}

/// Row-major position of `(x, z)` on a square of side `size`.
pub open spec fn cell(size: int, x: int, z: int) -> int {
    z * size + x
}

/// The diamond step of the square with lower corner `(x, z)` and side `s`:
/// its centre takes the mean of its four corners.
pub open spec fn diamond_step(size: int, s: int, x: int, z: int) -> (int, Seq<int>) {
    let h = s / 2;
    (
        cell(size, x + h, z + h),
        seq![cell(size, x, z), cell(size, x + s, z), cell(size, x, z + s), cell(size, x + s, z + s)],
    )
}

/// The cells at distance `h` from `(x, z)` that lie on the square, in the
/// order `-z`, `+z`, `-x`, `+x`.
pub open spec fn square_sources(size: int, h: int, x: int, z: int) -> Seq<int> {
    let a = if z >= h { seq![cell(size, x, z - h)] } else { Seq::empty() };
    let b = if z + h < size { seq![cell(size, x, z + h)] } else { Seq::empty() };
    let c = if x >= h { seq![cell(size, x - h, z)] } else { Seq::empty() };
    let d = if x + h < size { seq![cell(size, x + h, z)] } else { Seq::empty() };
    a + b + c + d
}

/// The square step at `(x, z)` with half-step `h`: the cell takes the mean
/// of its neighbours at distance `h`.
pub open spec fn square_step(size: int, h: int, x: int, z: int) -> (int, Seq<int>) {
    (cell(size, x, z), square_sources(size, h, x, z))
}

/// Diamond steps of row `z` of squares of side `s` (`n` squares per row).
pub open spec fn diamond_row(size: int, s: int, n: int, z: int) -> Seq<(int, Seq<int>)> {
    Seq::new(n as nat, |c: int| diamond_step(size, s, c * s, z))
}

/// Diamond steps of the first `r` rows of squares, row after row.
pub open spec fn diamond_rows(size: int, s: int, n: int, r: nat) -> Seq<(int, Seq<int>)>
    decreases r,
{
    if r == 0 {
        Seq::empty()
    } else {
        diamond_rows(size, s, n, (r - 1) as nat) + diamond_row(size, s, n, (r - 1) * s)
    }
}

/// Square steps of row `j` (at `z = j * s / 2`): even rows start at `x = s / 2`,
/// odd rows at `x = 0`, and both advance by `s`.
pub open spec fn square_row(size: int, s: int, n: int, j: int) -> Seq<(int, Seq<int>)> {
    let h = s / 2;
    if j % 2 == 0 {
        Seq::new(n as nat, |c: int| square_step(size, h, h + c * s, j * h))
    } else {
        Seq::new((n + 1) as nat, |c: int| square_step(size, h, c * s, j * h))
    }
}

/// Square steps of the first `r` rows, row after row.
pub open spec fn square_rows(size: int, s: int, n: int, r: nat) -> Seq<(int, Seq<int>)>
    decreases r,
{
    if r == 0 {
        Seq::empty()
    } else {
        square_rows(size, s, n, (r - 1) as nat) + square_row(size, s, n, r - 1)
    }
}

/// All steps of the subdivision level with square side `s`, where
/// `size - 1 == n * s`: the diamond steps, then the square steps.
pub open spec fn level_steps(size: int, s: int, n: int) -> Seq<(int, Seq<int>)> {
    diamond_rows(size, s, n, n as nat) + square_rows(size, s, n, (2 * n + 1) as nat)
}

proof fn lemma_step_view_push(v: Seq<MidpointStep>, m: MidpointStep)
    ensures
        steps_view(v.push(m)) == steps_view(v).push(step_view(m)),
{
    assert(steps_view(v.push(m)) =~= steps_view(v).push(step_view(m)));
}

/// The diamond steps of one level, row after row of squares.
fn diamond_phase(shape: &GridShape, size: usize, s: usize, n: usize) -> (steps: Vec<MidpointStep>)
    requires
        shape.wf(),
        shape.cols() == size,
        shape.rows() == size,
        n >= 1,
        s >= 2,
        s % 2 == 0,
        size - 1 == n * s,
    ensures
        steps_view(steps@) == diamond_rows(size as int, s as int, n as int, n as nat),
{
    let h = s / 2;
    let mut steps: Vec<MidpointStep> = Vec::new();
    let mut z: usize = 0;
    let ghost mut r: nat = 0;
    while z < size - 1
        invariant
            shape.wf(),
            shape.cols() == size,
            shape.rows() == size,
            n >= 1,
            s >= 2,
            h == s / 2,
            size - 1 == n * s,
            r <= n,
            z == r * s,
            steps_view(steps@) == diamond_rows(size as int, s as int, n as int, r),
        decreases size - z,
    {
        proof {
            assert(r < n) by (nonlinear_arith)
                requires
                    z == r * s,
                    z < size - 1,
                    size - 1 == n * s,
                    s > 0,
            ;
            assert((r + 1) * s <= n * s) by (nonlinear_arith)
                requires
                    r < n,
                    s > 0,
            ;
            assert((r + 1) * s == r * s + s) by (nonlinear_arith);
        }
        let ghost base = steps@;
        let mut x: usize = 0;
        let ghost mut c: nat = 0;
        while x < size - 1
            invariant
                shape.wf(),
                shape.cols() == size,
                shape.rows() == size,
                n >= 1,
                s >= 2,
                h == s / 2,
                size - 1 == n * s,
                r < n,
                z == r * s,
                z + s <= size - 1,
                c <= n,
                x == c * s,
                steps_view(steps@) == steps_view(base) + Seq::new(
                    c,
                    |cc: int| diamond_step(size as int, s as int, cc * s, z as int),
                ),
            decreases size - x,
        {
            proof {
                assert(c < n) by (nonlinear_arith)
                    requires
                        x == c * s,
                        x < size - 1,
                        size - 1 == n * s,
                        s > 0,
                ;
                assert((c + 1) * s <= n * s) by (nonlinear_arith)
                    requires
                        c < n,
                        s > 0,
                ;
                assert((c + 1) * s == c * s + s) by (nonlinear_arith);
            }
            let target = shape.index(x + h, z + h);
            let a = shape.index(x, z);
            let b = shape.index(x + s, z);
            let cc = shape.index(x, z + s);
            let d = shape.index(x + s, z + s);
            let sources = vec![a, b, cc, d];
            let m = MidpointStep { target, sources };
            proof {
                lemma_step_view_push(steps@, m);
                assert(step_view(m).1 =~= diamond_step(size as int, s as int, x as int, z as int).1);
                assert(Seq::new(
                    c,
                    |cc: int| diamond_step(size as int, s as int, cc * s, z as int),
                ).push(diamond_step(size as int, s as int, x as int, z as int)) =~= Seq::new(
                    c + 1,
                    |cc: int| diamond_step(size as int, s as int, cc * s, z as int),
                ));
            }
            steps.push(m);
            x = x + s;
            proof {
                c = c + 1;
            }
        }
        proof {
            assert(c == n) by (nonlinear_arith)
                requires
                    x == c * s,
                    x >= size - 1,
                    size - 1 == n * s,
                    c <= n,
                    s > 0,
            ;
            assert(steps_view(steps@) =~= diamond_rows(size as int, s as int, n as int, r + 1));
            r = r + 1;
        }
        z = z + s;
    }
    proof {
        assert(r == n) by (nonlinear_arith)
            requires
                z == r * s,
                z >= size - 1,
                size - 1 == n * s,
                r <= n,
                s > 0,
        ;
    }
    steps
}

/// The neighbours at distance `h` of `(x, z)`, as in [`square_sources`].
fn square_neighbours(shape: &GridShape, size: usize, h: usize, x: usize, z: usize) -> (v: Vec<usize>)
    requires
        shape.wf(),
        shape.cols() == size,
        shape.rows() == size,
        x < size,
        z < size,
    ensures
        v@.map_values(|i: usize| i as int) == square_sources(size as int, h as int, x as int, z as int),
{
    let ghost sz = size as int;
    let ghost hh = h as int;
    let ghost xx = x as int;
    let ghost zz = z as int;
    let mut v: Vec<usize> = Vec::new();
    if let Some(i) = shape.step(x, z, Direction::NegZ, h) {
        v.push(i);
    }
    let ghost a = if zz >= hh { seq![cell(sz, xx, zz - hh)] } else { Seq::<int>::empty() };
    assert(v@.map_values(|i: usize| i as int) =~= a);
    if let Some(i) = shape.step(x, z, Direction::PosZ, h) {
        v.push(i);
    }
    let ghost b = if zz + hh < sz { seq![cell(sz, xx, zz + hh)] } else { Seq::<int>::empty() };
    assert(v@.map_values(|i: usize| i as int) =~= a + b);
    if let Some(i) = shape.step(x, z, Direction::NegX, h) {
        v.push(i);
    }
    let ghost c = if xx >= hh { seq![cell(sz, xx - hh, zz)] } else { Seq::<int>::empty() };
    assert(v@.map_values(|i: usize| i as int) =~= a + b + c);
    if let Some(i) = shape.step(x, z, Direction::PosX, h) {
        v.push(i);
    }
    let ghost d = if xx + hh < sz { seq![cell(sz, xx + hh, zz)] } else { Seq::<int>::empty() };
    assert(v@.map_values(|i: usize| i as int) =~= a + b + c + d);
    v
}

/// The square steps of one level, row after row.
fn square_phase(shape: &GridShape, size: usize, s: usize, n: usize) -> (steps: Vec<MidpointStep>)
    requires
        shape.wf(),
        shape.cols() == size,
        shape.rows() == size,
        n >= 1,
        s >= 2,
        s % 2 == 0,
        size - 1 == n * s,
    ensures
        steps_view(steps@) == square_rows(size as int, s as int, n as int, (2 * n + 1) as nat),
{
    let h = s / 2;
    let mut steps: Vec<MidpointStep> = Vec::new();
    let mut z: usize = 0;
    let mut even = true;
    let ghost mut j: nat = 0;
    assert(size - 1 == 2 * n * h) by (nonlinear_arith)
        requires
            size - 1 == n * s,
            s == 2 * h,
    ;
    assert(n * s >= s) by (nonlinear_arith)
        requires
            n >= 1,
            s >= 2,
    ;
    assert(2 * size <= usize::MAX) by (nonlinear_arith)
        requires
            size * size <= usize::MAX,
            size >= 2,
    ;
    while z < size
        invariant
            2 * size <= usize::MAX,
            shape.wf(),
            shape.cols() == size,
            shape.rows() == size,
            n >= 1,
            s >= 2,
            s == 2 * h,
            size - 1 == n * s,
            size - 1 == 2 * n * h,
            j <= 2 * n + 1,
            z == j * h,
            z <= size + h,
            s <= size,
            even == (j % 2 == 0),
            steps_view(steps@) == square_rows(size as int, s as int, n as int, j),
        decreases size + h - z,
    {
        proof {
            assert(j <= 2 * n) by (nonlinear_arith)
                requires
                    z == j * h,
                    z < size,
                    size - 1 == 2 * n * h,
                    h > 0,
            ;
            assert((j + 1) * h == j * h + h) by (nonlinear_arith);
        }
        let x_start: usize = if even { h } else { 0 };
        let ghost row_len: nat = if even { n as nat } else { (n + 1) as nat };
        let ghost base = steps@;
        let mut x: usize = x_start;
        let ghost mut c: nat = 0;
        while x < size
            invariant
                2 * size <= usize::MAX,
                h <= s,
                s <= size,
                shape.wf(),
                shape.cols() == size,
                shape.rows() == size,
                n >= 1,
                s == 2 * h,
                h >= 1,
                size - 1 == 2 * n * h,
                z < size,
                x_start == if even { h } else { 0 },
                row_len == if even { n as nat } else { (n + 1) as nat },
                c <= row_len,
                x == x_start + c * s,
                x <= size + s,
                steps_view(steps@) == steps_view(base) + Seq::new(
                    c,
                    |cc: int| square_step(size as int, h as int, x_start + cc * s, z as int),
                ),
            decreases size + s - x,
        {
            proof {
                assert(c < row_len) by (nonlinear_arith)
                    requires
                        x == x_start + c * s,
                        x < size,
                        size - 1 == 2 * n * h,
                        s == 2 * h,
                        h >= 1,
                        x_start == if even { h } else { 0 },
                        row_len == if even { n as nat } else { (n + 1) as nat },
                ;
                assert((c + 1) * s == c * s + s) by (nonlinear_arith);
            }
            let sources = square_neighbours(shape, size, h, x, z);
            let target = shape.index(x, z);
            let m = MidpointStep { target, sources };
            proof {
                lemma_step_view_push(steps@, m);
                assert(Seq::new(
                    c,
                    |cc: int| square_step(size as int, h as int, x_start + cc * s, z as int),
                ).push(square_step(size as int, h as int, x as int, z as int)) =~= Seq::new(
                    c + 1,
                    |cc: int| square_step(size as int, h as int, x_start + cc * s, z as int),
                ));
            }
            steps.push(m);
            proof {
                c = c + 1;
            }
            x = x + s;
        }
        proof {
            assert(c == row_len) by (nonlinear_arith)
                requires
                    x == x_start + c * s,
                    x >= size,
                    c <= row_len,
                    size - 1 == 2 * n * h,
                    s == 2 * h,
                    h >= 1,
                    x_start == if even { h } else { 0 },
                    row_len == if even { n as nat } else { (n + 1) as nat },
            ;
            assert(steps_view(steps@) =~= square_rows(size as int, s as int, n as int, j + 1));
            j = j + 1;
        }
        z = z + h;
        even = !even;
    }
    proof {
        assert(j == 2 * n + 1) by (nonlinear_arith)
            requires
                z == j * h,
                z >= size,
                size - 1 == 2 * n * h,
                j <= 2 * n + 1,
                h >= 1,
        ;
    }
    steps
}

/// The exponent `k` of a working side `size == 2^k + 1`.
pub open spec fn side_exponent(size: int) -> nat {
    choose|k: nat| size == #[trigger] pow2(k) + 1
}

/// Number of diamond steps that open level `level` of the subdivision of a
/// square of side `size == 2^k + 1`: one per square of the level, `4^level`
/// of them; the rest of the level are square steps.
pub fn diamond_step_count(size: usize, level: usize) -> (r: usize)
    requires
        exists|k: nat| size == #[trigger] pow2(k) + 1,
        size * size <= usize::MAX,
        level < side_exponent(size as int),
    ensures
        r == pow2(level as nat) * pow2(level as nat),
        r == diamond_rows(
            size as int,
            pow2((side_exponent(size as int) - level) as nat) as int,
            pow2(level as nat) as int,
            pow2(level as nat),
        ).len(),
{
    let ghost k = side_exponent(size as int);
    proof {
        vstd::arithmetic::power2::lemma_pow2_strictly_increases(level as nat, k);
        vstd::arithmetic::power2::lemma_pow2_pos(level as nat);
        lemma_diamond_rows_len(
            size as int,
            pow2((k - level) as nat) as int,
            pow2(level as nat) as int,
            pow2(level as nat),
        );
    }
    let mut n: usize = 1;
    let mut i: usize = 0;
    assert(pow2(0) == 1) by {
        vstd::arithmetic::power2::lemma2_to64();
    }
    while i < level
        invariant
            i <= level,
            level < k,
            size == pow2(k) + 1,
            n == pow2(i as nat),
            pow2(level as nat) < pow2(k),
            size <= usize::MAX,
        decreases level - i,
    {
        proof {
            lemma_pow2_unfold((i + 1) as nat);
            if i + 1 < level {
                vstd::arithmetic::power2::lemma_pow2_strictly_increases((i + 1) as nat, level as nat);
            }
        }
        n = n * 2;
        i += 1;
    }
    assert(n * n <= size * size) by (nonlinear_arith)
        requires
            n < size,
    ;
    n * n
}

/// The whole subdivision of a square of side `size == 2^k + 1`, level by
/// level: level `j` works on squares of side `s = 2^(k - j)`, `n = 2^j` of
/// them per row, and lists its diamond steps row by row, then its square
/// steps row by row. A side of 2 has nothing to subdivide.
pub fn subdivision_schedule(size: usize) -> (levels: Vec<Vec<MidpointStep>>)
    requires
        exists|k: nat| size == #[trigger] pow2(k) + 1,
        size * size <= usize::MAX,
    ensures
        levels@.len() == side_exponent(size as int),
        forall|j: int|
            0 <= j < levels@.len() ==> steps_view(#[trigger] levels@[j]@) == schedule_level(
                size as int,
                levels@.len(),
                j,
            ),
{
    let ghost k = side_exponent(size as int);
    proof {
        vstd::arithmetic::power2::lemma2_to64();
        vstd::arithmetic::power2::lemma_pow2_pos(k);
    }
    let shape = GridShape::new(size, size);
    let mut levels: Vec<Vec<MidpointStep>> = Vec::new();
    let mut s: usize = size - 1;
    let mut n: usize = 1;
    let ghost mut j: nat = 0;
    assert(s == pow2((k - j) as nat));
    while s >= 2
        invariant
            shape.wf(),
            shape.cols() == size,
            shape.rows() == size,
            size == pow2(k) + 1,
            pow2(0) == 1,
            j <= k,
            s == pow2((k - j) as nat),
            n == pow2(j),
            n >= 1,
            n * s == size - 1,
            levels@.len() == j,
            forall|i: int|
                0 <= i < j ==> steps_view(#[trigger] levels@[i]@) == level_steps(
                    size as int,
                    pow2((k - i) as nat) as int,
                    pow2(i as nat) as int,
                ),
        decreases s,
    {
        proof {
            if j == k {
                assert((k - j) as nat == 0);
            }
            lemma_pow2_unfold((k - j) as nat);
            lemma_pow2_unfold(j + 1);
            assert((j + 1 - 1) as nat == j);
            assert(((k - j) - 1) as nat == (k - (j + 1)) as nat);
        }
        let mut level = diamond_phase(&shape, size, s, n);
        let mut squares = square_phase(&shape, size, s, n);
        let ghost d = level@;
        let ghost q = squares@;
        level.append(&mut squares);
        proof {
            assert(steps_view(level@) =~= steps_view(d) + steps_view(q));
        }
        levels.push(level);
        proof {
            assert(n * 2 <= n * s) by (nonlinear_arith)
                requires
                    s >= 2,
                    n >= 1,
            ;
            assert((n * 2) * (s / 2) == n * s) by (nonlinear_arith)
                requires
                    s % 2 == 0,
            ;
        }
        s = s / 2;
        n = n * 2;
        proof {
            j = j + 1;
        }
    }
    proof {
        if j < k {
            vstd::arithmetic::power2::lemma_pow2_strictly_increases(0, (k - j) as nat);
        }
    }
    levels
}

} // verus!
