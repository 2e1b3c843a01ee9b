//! What a rule means on the unbounded grid: the next generation of a grid,
//! and that a cell's state after `n` generations depends only on the cells
//! within `n` steps of it.

use vstd::prelude::*;

verus! {

/// A grid: which cells are alive.
pub type Grid = spec_fn(int, int) -> bool;

/// One for a live cell, zero for a dead one.
pub open spec fn one(alive: bool) -> int {
    if alive {
        1
    } else {
        0
    }
}

/// The 3x3 neighbourhood of the cell at `(x, y)` as a number of 9 bits: the
/// rows from the top, each from the left, the most significant bit first.
pub open spec fn neighborhood(g: Grid, x: int, y: int) -> int {
    256 * one(g(x - 1, y - 1)) + 128 * one(g(x, y - 1)) + 64 * one(g(x + 1, y - 1)) + 32 * one(
        g(x - 1, y),
    ) + 16 * one(g(x, y)) + 8 * one(g(x + 1, y)) + 4 * one(g(x - 1, y + 1)) + 2 * one(g(x, y + 1))
        + one(g(x + 1, y + 1))
}

/// The next generation of a grid under the rule whose table over 3x3
/// neighbourhoods is `r`.
pub open spec fn next(r: Seq<bool>, g: Grid) -> Grid {
    |x: int, y: int| r[neighborhood(g, x, y)]
}

/// The grid after `n` generations.
pub open spec fn evolve(r: Seq<bool>, g: Grid, n: nat) -> Grid
    decreases n,
{
    if n == 0 {
        g
    } else {
        next(r, evolve(r, g, (n - 1) as nat))
    }
}

/// Whether `g` around `(x, y)` looks like `h` around `(x + dx, y + dy)`, as
/// far as `n` cells in each direction.
pub open spec fn alike(g: Grid, h: Grid, n: int, x: int, y: int, dx: int, dy: int) -> bool {
    forall|u: int, v: int|
        x - n <= u <= x + n && y - n <= v <= y + n ==> #[trigger] g(u, v) == h(u + dx, v + dy)
}

/// Two grids that are alike around a cell as far as one cell give that cell
/// the same next state.
pub proof fn lemma_next_alike(r: Seq<bool>, g: Grid, h: Grid, x: int, y: int, dx: int, dy: int)
    requires
        alike(g, h, 1, x, y, dx, dy),
    ensures
        next(r, g)(x, y) == next(r, h)(x + dx, y + dy),
{
    assert(g(x - 1, y - 1) == h(x - 1 + dx, y - 1 + dy));
    assert(g(x, y - 1) == h(x + dx, y - 1 + dy));
    assert(g(x + 1, y - 1) == h(x + 1 + dx, y - 1 + dy));
    assert(g(x - 1, y) == h(x - 1 + dx, y + dy));
    assert(g(x, y) == h(x + dx, y + dy));
    assert(g(x + 1, y) == h(x + 1 + dx, y + dy));
    assert(g(x - 1, y + 1) == h(x - 1 + dx, y + 1 + dy));
    assert(g(x, y + 1) == h(x + dx, y + 1 + dy));
    assert(g(x + 1, y + 1) == h(x + 1 + dx, y + 1 + dy));
}

/// The state of a cell after `n` generations depends only on the cells
/// within `n` steps of it, and not on where the pattern lies: two grids
/// that are alike around a cell as far as `n` cells give that cell the same
/// state after `n` generations.
pub proof fn lemma_evolve_alike(
    r: Seq<bool>,
    g: Grid,
    h: Grid,
    n: nat,
    x: int,
    y: int,
    dx: int,
    dy: int,
)
    requires
        alike(g, h, n as int, x, y, dx, dy),
    ensures
        evolve(r, g, n)(x, y) == evolve(r, h, n)(x + dx, y + dy),
    decreases n,
{
    if n == 0 {
        assert(g(x, y) == h(x + dx, y + dy));
    } else {
        let m = (n - 1) as nat;
        let g1 = evolve(r, g, m);
        let h1 = evolve(r, h, m);
        assert forall|u: int, v: int|
            x - 1 <= u <= x + 1 && y - 1 <= v <= y + 1 implies #[trigger] g1(u, v) == h1(
            u + dx,
            v + dy,
        ) by {
            assert forall|a: int, b: int|
                u - m <= a <= u + m && v - m <= b <= v + m implies #[trigger] g(a, b) == h(
                a + dx,
                b + dy,
            ) by {}
            lemma_evolve_alike(r, g, h, m, u, v, dx, dy);
        }
        lemma_next_alike(r, g1, h1, x, y, dx, dy);
    }
}

/// Evolving for `a` generations and then for `b` is evolving for `a + b`.
pub proof fn lemma_evolve_add(r: Seq<bool>, g: Grid, a: nat, b: nat, x: int, y: int)
    ensures
        evolve(r, g, a + b)(x, y) == evolve(r, evolve(r, g, a), b)(x, y),
    decreases b,
{
    if b > 0 {
        let m = (b - 1) as nat;
        let p = evolve(r, g, a + m);
        let q = evolve(r, evolve(r, g, a), m);
        assert forall|u: int, v: int|
            x - 1 <= u <= x + 1 && y - 1 <= v <= y + 1 implies #[trigger] p(u, v) == q(
            u + 0,
            v + 0,
        ) by {
            lemma_evolve_add(r, g, a, m, u, v);
        }
        lemma_next_alike(r, p, q, x, y, 0, 0);
        assert((a + b - 1) as nat == a + m);
    }
}

/// Whether every live cell of `g` lies in the square of side `2 * m` around
/// the origin.
pub open spec fn dead_outside(g: Grid, m: int) -> bool {
    forall|x: int, y: int| #[trigger] g(x, y) ==> -m <= x < m && -m <= y < m
}

/// Under a rule without birth in an empty neighbourhood, a pattern grows by
/// at most one cell in each direction in each generation.
pub proof fn lemma_dead_zone(r: Seq<bool>, g: Grid, m: int, n: nat)
    requires
        !r[0],
        dead_outside(g, m),
    ensures
        dead_outside(evolve(r, g, n), m + n),
    decreases n,
{
    if n > 0 {
        let p = evolve(r, g, (n - 1) as nat);
        lemma_dead_zone(r, g, m, (n - 1) as nat);
        let b = m + n - 1;
        assert forall|x: int, y: int| #[trigger] evolve(r, g, n)(x, y) implies -(m + n) <= x < m
            + n && -(m + n) <= y < m + n by {
            if !(-(m + n) <= x < m + n && -(m + n) <= y < m + n) {
                assert(!p(x - 1, y - 1));
                assert(!p(x, y - 1));
                assert(!p(x + 1, y - 1));
                assert(!p(x - 1, y));
                assert(!p(x, y));
                assert(!p(x + 1, y));
                assert(!p(x - 1, y + 1));
                assert(!p(x, y + 1));
                assert(!p(x + 1, y + 1));
                assert(neighborhood(p, x, y) == 0);
            }
        }
    }
}

/// Grids with the same cells have the same cells after `n` generations.
pub proof fn lemma_evolve_same(r: Seq<bool>, g: Grid, h: Grid, n: nat, x: int, y: int)
    requires
        forall|u: int, v: int| #[trigger] g(u, v) == h(u, v),
    ensures
        evolve(r, g, n)(x, y) == evolve(r, h, n)(x, y),
{
    assert forall|u: int, v: int|
        x - n <= u <= x + n && y - n <= v <= y + n implies #[trigger] g(u, v) == h(
        u + 0,
        v + 0,
    ) by {}
    lemma_evolve_alike(r, g, h, n, x, y, 0, 0);
}

} // verus!
