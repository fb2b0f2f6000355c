use vstd::prelude::*;
use vstd::arithmetic::div_mod::{
    lemma_fundamental_div_mod,
    lemma_fundamental_div_mod_converse,
    lemma_mod_pos_bound,
    lemma_div_pos_is_pos,
    lemma_multiply_divide_lt,
};
use crate::raster::flat;

verus! {

// A grid `w` cells wide is stored row by row; cell `i` lies in column
// `i % w` and row `i / w`.

pub open spec fn col(w: int, i: int) -> int {
    i % w
}

pub open spec fn row(w: int, i: int) -> int {
    i / w
}

/// Two distinct cells are 8-adjacent: they differ by at most one on each axis.
pub open spec fn adjacent(w: int, i: int, j: int) -> bool {
    &&& i != j
    &&& -1 <= col(w, i) - col(w, j) <= 1
    &&& -1 <= row(w, i) - row(w, j) <= 1
}

pub proof fn lemma_col_row(w: int, h: int, i: int)
    requires
        0 < w,
        0 <= i < w * h,
    ensures
        0 <= col(w, i) < w,
        0 <= row(w, i) < h,
        flat(w, col(w, i), row(w, i)) == i,
{
    lemma_fundamental_div_mod(i, w);
    lemma_mod_pos_bound(i, w);
    lemma_div_pos_is_pos(i, w);
    assert(w * h == h * w) by (nonlinear_arith);
    lemma_multiply_divide_lt(i, w, h);
    assert(w * (i / w) == (i / w) * w) by (nonlinear_arith);
}

pub proof fn lemma_flat_col_row(w: int, x: int, y: int)
    requires
        0 <= x < w,
        0 <= y,
    ensures
        col(w, flat(w, x, y)) == x,
        row(w, flat(w, x, y)) == y,
{
    lemma_fundamental_div_mod_converse(flat(w, x, y), w, y, x);
}

/// The eight neighbour directions in visiting order: north-west, north,
/// north-east, west, east, south-west, south, south-east.
pub open spec fn dir_pos(d: int) -> int {
    if d < 4 {
        d
    } else {
        d + 1
    }
}

pub open spec fn dir_dx(d: int) -> int {
    dir_pos(d) % 3 - 1
}

pub open spec fn dir_dy(d: int) -> int {
    dir_pos(d) / 3 - 1
}

/// The cell one step from `i` in direction `d`, when it lies on the grid.
pub open spec fn neighbour_at(w: int, h: int, i: int, d: int) -> Option<int> {
    let x = col(w, i) + dir_dx(d);
    let y = row(w, i) + dir_dy(d);
    if 0 <= x < w && 0 <= y < h {
        Some(flat(w, x, y))
    } else {
        None
    }
}

/// The direction that leads from `i` to an adjacent cell `j`.
pub open spec fn dir_to(w: int, i: int, j: int) -> int {
    let pos = (row(w, j) - row(w, i) + 1) * 3 + (col(w, j) - col(w, i) + 1);
    if pos < 4 {
        pos
    } else {
        pos - 1
    }
}

/// Every cell adjacent to `i` is its neighbour in one of the eight directions.
pub proof fn lemma_adjacent_is_neighbour(w: int, h: int, i: int, j: int)
    requires
        0 < w,
        0 <= i < w * h,
        0 <= j < w * h,
        adjacent(w, i, j),
    ensures
        0 <= dir_to(w, i, j) < 8,
        neighbour_at(w, h, i, dir_to(w, i, j)) == Some(j),
{
    lemma_col_row(w, h, i);
    lemma_col_row(w, h, j);
    let dx = col(w, j) - col(w, i);
    let dy = row(w, j) - row(w, i);
    if dx == 0 && dy == 0 {
        assert(j == i);
    }
}

/// A neighbour on the grid is adjacent.
pub proof fn lemma_neighbour_adjacent(w: int, h: int, i: int, d: int)
    requires
        0 < w,
        0 <= i < w * h,
        0 <= d < 8,
        neighbour_at(w, h, i, d) is Some,
    ensures
        0 <= neighbour_at(w, h, i, d)->0 < w * h,
        adjacent(w, i, neighbour_at(w, h, i, d)->0),
{
    lemma_col_row(w, h, i);
    let x = col(w, i) + dir_dx(d);
    let y = row(w, i) + dir_dy(d);
    crate::raster::lemma_flat_in_bounds(w, h, x, y);
    lemma_flat_col_row(w, x, y);
}

/// The cell one step from `i` in direction `d` of a `w` x `h` grid, if any.
pub fn neighbour(w: u32, h: u32, i: usize, d: usize) -> (r: Option<usize>)
    requires
        0 < w,
        i < w * h,
        w * h <= usize::MAX,
        d < 8,
    ensures
        r == (match neighbour_at(w as int, h as int, i as int, d as int) {
            Some(j) => Some(j as usize),
            None => None::<usize>,
        }),
        r matches Some(j) ==> j < w * h && adjacent(w as int, i as int, j as int)
            && neighbour_at(w as int, h as int, i as int, d as int) == Some(j as int),
{
    proof {
        lemma_col_row(w as int, h as int, i as int);
    }
    let x = (i % (w as usize)) as i64;
    let y = (i / (w as usize)) as i64;
    let pos: i64 = if d < 4 {
        d as i64
    } else {
        d as i64 + 1
    };
    let nx = x + pos % 3 - 1;
    let ny = y + pos / 3 - 1;
    if 0 <= nx && nx < w as i64 && 0 <= ny && ny < h as i64 {
        proof {
            lemma_neighbour_adjacent(w as int, h as int, i as int, d as int);
            crate::raster::lemma_flat_in_bounds(w as int, h as int, nx as int, ny as int);
            assert(ny * w <= flat(w as int, nx as int, ny as int));
        }
        Some(ny as usize * w as usize + nx as usize)
    } else {
        None
    }
}

/// `s` is closed under stepping from any of its cells to an adjacent cell of
/// `allowed`, within the first `n` cells.
pub open spec fn closed_in(w: int, n: int, allowed: Set<int>, s: Set<int>) -> bool {
    forall|i: int, j: int|
        #![trigger s.contains(i), allowed.contains(j), adjacent(w, i, j)]
        s.contains(i) && 0 <= j < n && allowed.contains(j) && adjacent(w, i, j) ==> s.contains(j)
}

/// Cell `i` is reachable from `seeds` through chains of 8-adjacent cells of
/// `allowed`: it belongs to every set that holds the seeds and is closed
/// under such steps.
pub open spec fn reachable(w: int, n: int, allowed: Set<int>, seeds: Set<int>, i: int) -> bool {
    forall|s: Set<int>| #[trigger] closed_in(w, n, allowed, s) && seeds.subset_of(s) ==> s.contains(i)
}


/// A reachable cell is a seed or an allowed cell.
pub proof fn lemma_reach_within(w: int, n: int, allowed: Set<int>, seeds: Set<int>, i: int)
    requires
        reachable(w, n, allowed, seeds, i),
    ensures
        allowed.contains(i) || seeds.contains(i),
{
    let s = Set::new(|k: int| allowed.contains(k) || seeds.contains(k));
    assert(closed_in(w, n, allowed, s));
    assert(seeds.subset_of(s));
}

/// The reachable cells form a closed set.
pub proof fn lemma_reach_closed(w: int, n: int, allowed: Set<int>, seeds: Set<int>)
    ensures
        closed_in(w, n, allowed, Set::new(|k: int| reachable(w, n, allowed, seeds, k))),
{
    let r = Set::new(|k: int| reachable(w, n, allowed, seeds, k));
    assert forall|i: int, j: int|
        r.contains(i) && 0 <= j < n && allowed.contains(j) && adjacent(w, i, j) implies r.contains(j) by {
        assert forall|s: Set<int>| #[trigger] closed_in(w, n, allowed, s) && seeds.subset_of(s) implies s.contains(j) by {
            assert(s.contains(i));
        }
    }
}

/// Removing from `big` a closed set of cells that does not hold the seed
/// leaves the seed's component as it was.
pub proof fn lemma_component_kept(w: int, n: int, big: Set<int>, small: Set<int>, seed: int)
    requires
        small.subset_of(big),
        forall|k: int| big.contains(k) ==> 0 <= k < n,
        closed_in(w, n, big, big.difference(small)),
        small.contains(seed),
    ensures
        forall|i: int|
            reachable(w, n, small, set![seed], i) <==> reachable(w, n, big, set![seed], i),
{
    let seeds = set![seed];
    assert forall|i: int| reachable(w, n, small, seeds, i) implies reachable(w, n, big, seeds, i) by {
        assert forall|s: Set<int>| #[trigger] closed_in(w, n, big, s) && seeds.subset_of(s) implies s.contains(i) by {
            assert(closed_in(w, n, small, s));
        }
    }
    let r = Set::new(|k: int| reachable(w, n, small, seeds, k));
    lemma_reach_closed(w, n, small, seeds);
    assert(closed_in(w, n, big, r)) by {
        assert forall|i: int, j: int|
            r.contains(i) && 0 <= j < n && big.contains(j) && adjacent(w, i, j) implies r.contains(j) by {
            lemma_reach_within(w, n, small, seeds, i);
            if !small.contains(j) {
                assert(big.difference(small).contains(j));
                assert(adjacent(w, j, i));
                assert(small.contains(i));
                assert(big.contains(i));
                assert(big.difference(small).contains(i));
            }
        }
    }
    assert(seeds.subset_of(r)) by {
        assert forall|s: Set<int>| #[trigger] closed_in(w, n, small, s) && seeds.subset_of(s) implies s.contains(seed) by {
            assert(seeds.contains(seed));
        }
    }
    assert forall|i: int| reachable(w, n, big, seeds, i) implies reachable(w, n, small, seeds, i) by {
        assert(r.contains(i));
    }
}


/// Reachability between allowed cells is symmetric: `i` reached from `s`
/// reaches `s` back.
pub proof fn lemma_reach_symmetric(w: int, n: int, allowed: Set<int>, s: int, i: int)
    requires
        allowed.contains(s),
        forall|k: int| allowed.contains(k) ==> 0 <= k < n,
        reachable(w, n, allowed, set![s], i),
    ensures
        reachable(w, n, allowed, set![i], s),
{
    let y = Set::new(|j: int| allowed.contains(j) && reachable(w, n, allowed, set![j], s));
    assert(y.contains(s)) by {
        assert forall|t: Set<int>| #[trigger] closed_in(w, n, allowed, t) && set![s].subset_of(t) implies t.contains(s) by {
            assert(set![s].contains(s));
        }
    }
    assert(closed_in(w, n, allowed, y)) by {
        assert forall|j: int, k: int|
            y.contains(j) && 0 <= k < n && allowed.contains(k) && adjacent(w, j, k) implies y.contains(k) by {
            assert forall|t: Set<int>| #[trigger] closed_in(w, n, allowed, t) && set![k].subset_of(t) implies t.contains(s) by {
                assert(set![k].contains(k));
                assert(t.contains(k));
                assert(adjacent(w, k, j));
                assert(t.contains(j));
                assert(set![j].subset_of(t));
            }
        }
    }
    assert(set![s].subset_of(y));
    assert(y.contains(i));
}

/// Two allowed cells that reach each other have the same component.
pub proof fn lemma_same_component(w: int, n: int, allowed: Set<int>, s: int, i: int)
    requires
        allowed.contains(s),
        forall|k: int| allowed.contains(k) ==> 0 <= k < n,
        reachable(w, n, allowed, set![s], i),
    ensures
        forall|k: int| reachable(w, n, allowed, set![i], k) <==> reachable(w, n, allowed, set![s], k),
{
    lemma_reach_symmetric(w, n, allowed, s, i);
    lemma_reach_closed(w, n, allowed, set![s]);
    lemma_reach_closed(w, n, allowed, set![i]);
    let rs = Set::new(|k: int| reachable(w, n, allowed, set![s], k));
    let ri = Set::new(|k: int| reachable(w, n, allowed, set![i], k));
    assert(set![i].subset_of(rs));
    assert(set![s].subset_of(ri));
    assert forall|k: int| reachable(w, n, allowed, set![i], k) implies reachable(w, n, allowed, set![s], k) by {
        assert(rs.contains(k));
    }
    assert forall|k: int| reachable(w, n, allowed, set![s], k) implies reachable(w, n, allowed, set![i], k) by {
        assert(ri.contains(k));
    }
}

} // verus!

verus! {

/// Stepping in direction `d` leads to a cell whose direction from `i` is `d`.
pub proof fn lemma_neighbour_dir(w: int, h: int, i: int, d: int)
    requires
        0 < w,
        0 <= i < w * h,
        0 <= d < 8,
        neighbour_at(w, h, i, d) is Some,
    ensures
        dir_to(w, i, neighbour_at(w, h, i, d)->0) == d,
{
    lemma_col_row(w, h, i);
    let x = col(w, i) + dir_dx(d);
    let y = row(w, i) + dir_dy(d);
    lemma_flat_col_row(w, x, y);
    assert(d == 0 || d == 1 || d == 2 || d == 3 || d == 4 || d == 5 || d == 6 || d == 7);
}

} // verus!
