use vstd::prelude::*;
use crate::raster::{Image, Rgba, flat, lemma_flat_in_bounds};
use crate::grid::{
    col,
    row,
    adjacent,
    closed_in,
    reachable,
    neighbour,
    neighbour_at,
    dir_to,
    lemma_col_row,
    lemma_flat_col_row,
    lemma_adjacent_is_neighbour,
    lemma_reach_within,
    lemma_reach_closed,
    lemma_component_kept,
    lemma_same_component,
};

verus! {

/// A dense boolean grid stored row by row like `Image`; `true` marks a
/// foreground pixel not yet claimed by a chain.
pub struct Mask {
    pub width: u32,
    pub height: u32,
    pub cells: Vec<bool>,
}

/// Chain coordinates are `i32`, so a traced grid is at most this wide and high.
pub const MAX_SIDE: u32 = 0x7fff_ffff;

impl Mask {
    pub open spec fn wf(&self) -> bool {
        &&& self.cells@.len() == self.width as int * self.height as int
        &&& self.width <= MAX_SIDE
        &&& self.height <= MAX_SIDE
    }

    /// The foreground cells.
    pub open spec fn fg(&self) -> Set<int> {
        Set::new(|i: int| 0 <= i < self.cells@.len() && self.cells@[i])
    }
}

/// The cell of a point `(x, y)` in a grid `w` wide.
pub open spec fn cell_of(w: int, p: (i32, i32)) -> int {
    flat(w, p.0 as int, p.1 as int)
}

/// The point `(x, y)` of cell `c`.
pub open spec fn point_of(w: int, c: int) -> (i32, i32) {
    (col(w, c) as i32, row(w, c) as i32)
}

/// The cells of a sequence of points.
pub open spec fn cells_of(w: int, pts: Seq<(i32, i32)>) -> Seq<int> {
    pts.map_values(|p: (i32, i32)| cell_of(w, p))
}

/// Consecutive cells are 8-adjacent.
pub open spec fn is_walk(w: int, cs: Seq<int>) -> bool {
    forall|t: int| 0 <= t < cs.len() - 1 ==> #[trigger] adjacent(w, cs[t], cs[t + 1])
}

/// The points lie on a `w` x `h` grid.
pub open spec fn on_grid(w: int, h: int, pts: Seq<(i32, i32)>) -> bool {
    forall|t: int| 0 <= t < pts.len() ==> 0 <= (#[trigger] pts[t]).0 < w && 0 <= pts[t].1 < h
}

/// The state of a depth-first trace: the mask left, the stack of cells with
/// the next direction each will try, the cells backtracked through since the
/// last step forward, and the cells emitted so far.
pub type TraceState = (Seq<bool>, Seq<(usize, usize)>, Seq<usize>, Seq<int>);

/// One step of the trace. The top cell `c` tries its next direction `d`
/// (north-west, north, north-east, west, east, south-west, south,
/// south-east). When that neighbour is on the grid and still set, the
/// backtracked cells are emitted, then the neighbour, which is cleared and
/// pushed. When all eight directions are tried, `c` is popped and the cell
/// below it is noted as backtracked through.
pub open spec fn trace_step(w: int, h: int, st: TraceState) -> TraceState {
    let (mask, stack, pending, out) = st;
    let top = stack.len() - 1;
    let c = stack[top].0;
    let d = stack[top].1;
    if d >= 8 {
        let rest = stack.drop_last();
        (mask, rest, if rest.len() > 0 { pending.push(rest.last().0) } else { pending }, out)
    } else {
        let advanced = stack.update(top, (c, (d + 1) as usize));
        match neighbour_at(w, h, c as int, d as int) {
            Some(q) => if mask[q] {
                (mask.update(q, false), advanced.push((q as usize, 0usize)), Seq::empty(), out + ints(pending) + seq![q])
            } else {
                (mask, advanced, pending, out)
            },
            None => (mask, advanced, pending, out),
        }
    }
}

/// Steps the trace until its stack is empty, or `fuel` steps are taken.
pub open spec fn trace_run(w: int, h: int, st: TraceState, fuel: nat) -> TraceState
    decreases fuel,
{
    if fuel == 0 || st.1.len() == 0 {
        st
    } else {
        trace_run(w, h, trace_step(w, h, st), (fuel - 1) as nat)
    }
}

/// The cells, in order, that depth-first tracing from `seed` emits on a
/// `w` x `h` mask: the seed is cleared and emitted, then the trace runs to
/// the end (`9 * (n + 1)` steps always suffice).
pub open spec fn trace_from(w: int, h: int, mask: Seq<bool>, seed: int) -> Seq<int> {
    let start: TraceState = (mask.update(seed, false), seq![(seed as usize, 0usize)], Seq::empty(), seq![seed]);
    trace_run(w, h, start, (9 * mask.len() + 9) as nat).3
}

proof fn lemma_count_true_len(s: Seq<bool>)
    ensures
        count_true(s) <= s.len(),
    decreases s.len(),
{
    if s.len() > 0 {
        lemma_count_true_len(s.drop_last());
    }
}

/// `chain` is what depth-first tracing from `seed` claims out of mask `m`,
/// leaving mask `m2`: its cells are exactly `trace_from`; it starts at the
/// seed, steps between 8-adjacent cells, covers exactly the seed's
/// 8-connected foreground component, and exactly the cells it covers are
/// cleared.
pub open spec fn traced(m: Mask, seed: int, chain: Seq<(i32, i32)>, m2: Mask) -> bool {
    let w = m.width as int;
    let n = m.cells@.len() as int;
    let cs = cells_of(w, chain);
    &&& m2.wf()
    &&& m2.width == m.width
    &&& m2.height == m.height
    &&& chain.len() >= 1
    &&& cs[0] == seed
    &&& on_grid(w, m.height as int, chain)
    &&& is_walk(w, cs)
    &&& forall|i: int| 0 <= i < n ==> #[trigger] m2.cells@[i] == (m.cells@[i] && !cs.contains(i))
    &&& forall|i: int| 0 <= i < n ==> (cs.contains(i) <==> reachable(w, n, m.fg(), set![seed], i))
    &&& cs == trace_from(w, m.height as int, m.cells@, seed)
}

pub open spec fn on_stack(st: Seq<(usize, usize)>, c: int) -> bool {
    exists|t: int| 0 <= t < st.len() && st[t].0 == c
}

/// Every foreground neighbour of `c` in the directions before `d` is in `cs`.
pub open spec fn explored(w: int, h: int, fg: Set<int>, cs: Seq<int>, c: int, d: int) -> bool {
    forall|e: int|
        0 <= e < d ==> (#[trigger] neighbour_at(w, h, c, e) matches Some(j) ==> fg.contains(j)
            ==> cs.contains(j))
}

pub open spec fn count_true(s: Seq<bool>) -> nat
    decreases s.len(),
{
    if s.len() == 0 {
        0
    } else {
        count_true(s.drop_last()) + if s.last() {
            1nat
        } else {
            0nat
        }
    }
}

proof fn lemma_count_true_clear(s: Seq<bool>, j: int)
    requires
        0 <= j < s.len(),
        s[j],
    ensures
        count_true(s.update(j, false)) + 1 == count_true(s),
    decreases s.len(),
{
    let t = s.update(j, false);
    if j == s.len() - 1 {
        assert(t.drop_last() =~= s.drop_last());
    } else {
        assert(t.drop_last() =~= s.drop_last().update(j, false));
        lemma_count_true_clear(s.drop_last(), j);
    }
}

/// What is left to explore on the stack: nine for each entry, less its
/// next direction.
pub open spec fn stack_weight(st: Seq<(usize, usize)>) -> nat
    decreases st.len(),
{
    if st.len() == 0 {
        0
    } else {
        stack_weight(st.drop_last()) + (9 - st.last().1) as nat
    }
}

fn point(w: u32, h: u32, c: usize) -> (p: (i32, i32))
    requires
        0 < w <= MAX_SIDE,
        h <= MAX_SIDE,
        c < w * h,
    ensures
        p == point_of(w as int, c as int),
        cell_of(w as int, p) == c,
        0 <= p.0 < w,
        0 <= p.1 < h,
{
    proof {
        lemma_col_row(w as int, h as int, c as int);
    }
    ((c % w as usize) as i32, (c / w as usize) as i32)
}

pub open spec fn ints(v: Seq<usize>) -> Seq<int> {
    v.map_values(|c: usize| c as int)
}

pub open spec fn points_of(w: int, cs: Seq<int>) -> Seq<(i32, i32)> {
    cs.map_values(|c: int| point_of(w, c))
}

proof fn lemma_explored_grow(w: int, h: int, fg: Set<int>, cs: Seq<int>, cs2: Seq<int>, c: int, d: int)
    requires
        explored(w, h, fg, cs, c, d),
        forall|j: int| cs.contains(j) ==> #[trigger] cs2.contains(j),
    ensures
        explored(w, h, fg, cs2, c, d),
{
    assert forall|e: int| 0 <= e < d implies (#[trigger] neighbour_at(w, h, c, e) matches Some(j)
        ==> fg.contains(j) ==> cs2.contains(j)) by {
        if let Some(j) = neighbour_at(w, h, c, e) {
            if fg.contains(j) {
                assert(cs.contains(j));
            }
        }
    }
}

proof fn lemma_append_contains(a: Seq<int>, b: Seq<int>)
    ensures
        forall|j: int| a.contains(j) ==> #[trigger] (a + b).contains(j),
        forall|j: int| (a + b).contains(j) ==> a.contains(j) || b.contains(j),
{
    assert forall|j: int| a.contains(j) implies #[trigger] (a + b).contains(j) by {
        let t = choose|t: int| 0 <= t < a.len() && a[t] == j;
        assert((a + b)[t] == j);
    }
    assert forall|j: int| (a + b).contains(j) implies a.contains(j) || b.contains(j) by {
        let t = choose|t: int| 0 <= t < (a + b).len() && (a + b)[t] == j;
        if t < a.len() {
            assert(a[t] == j);
        } else {
            assert(b[t - a.len()] == j);
        }
    }
}

/// Depth-first tracing from `(x, y)` with an explicit, heap-allocated stack.
///
/// When `(x, y)` is a set cell of `mask`, the cells of its 8-connected
/// foreground component are claimed (cleared) and appended to `path` in
/// depth-first order, neighbours visited north-west, north, north-east,
/// west, east, south-west, south, south-east. Each cell is appended when it
/// is first entered; when the search backtracks and then leaves from an
/// earlier cell, the cells it backtracked through are appended again, so
/// consecutive points of the path stay 8-adjacent. Otherwise nothing changes.
pub fn dfs(x: i32, y: i32, mask: &mut Mask, path: &mut Vec<(i32, i32)>)
    requires
        old(mask).wf(),
    ensures
        final(mask).wf(),
        final(mask).width == old(mask).width,
        final(mask).height == old(mask).height,
        old(path)@.len() <= final(path)@.len(),
        final(path)@.subrange(0, old(path)@.len() as int) == old(path)@,
        ({
            let seeded = 0 <= x < old(mask).width && 0 <= y < old(mask).height
                && old(mask).cells@[flat(old(mask).width as int, x as int, y as int)];
            &&& seeded ==> traced(
                *old(mask),
                flat(old(mask).width as int, x as int, y as int),
                final(path)@.subrange(old(path)@.len() as int, final(path)@.len() as int),
                *final(mask),
            )
            &&& !seeded ==> final(path)@ == old(path)@ && final(mask).cells@ == old(mask).cells@
        }),
{
    let w = mask.width;
    let h = mask.height;
    if x < 0 || y < 0 || x as u32 >= w || y as u32 >= h {
        return ;
    }
    let ghost wi = w as int;
    let ghost hi = h as int;
    let n = mask.cells.len();
    let ghost ni = n as int;
    proof {
        lemma_flat_in_bounds(wi, hi, x as int, y as int);
        lemma_flat_col_row(wi, x as int, y as int);
        assert(y as int * wi <= flat(wi, x as int, y as int));
    }
    let s = y as usize * w as usize + x as usize;
    if !mask.cells[s] {
        return ;
    }
    let ghost m0 = *mask;
    let ghost path_before = path@;
    let ghost fg = m0.fg();
    let ghost seeds = set![s as int];
    let ghost mut cs: Seq<int> = seq![s as int];
    mask.cells.set(s, false);
    path.push(point(w, h, s));
    assert(path@ =~= path_before + points_of(wi, cs));
    let mut stack: Vec<(usize, usize)> = Vec::new();
    stack.push((s, 0));
    let mut pending: Vec<usize> = Vec::new();
    assert(cs + ints(pending@) =~= cs);
    assert(cs[0] == s);
    assert forall|i: int| 0 <= i < n implies #[trigger] mask.cells@[i] == (m0.cells@[i] && !cs.contains(i)) by {
        if cs.contains(i) {
            assert(i == s);
        }
    }
    assert(stack@[0].0 == s);
    assert(on_stack(stack@, s as int));
    let ghost big: nat = (9 * n + 9) as nat;
    let ghost mut fuel: nat = big;
    let ghost start: TraceState = (m0.cells@.update(s as int, false), seq![(s, 0usize)], Seq::empty(), seq![s as int]);
    proof {
        assert(mask.cells@ =~= m0.cells@.update(s as int, false));
        assert(stack@ =~= seq![(s, 0usize)]);
        assert(pending@ =~= Seq::<usize>::empty());
        lemma_count_true_clear(m0.cells@, s as int);
        lemma_count_true_len(m0.cells@);
        assert(stack@.drop_last() =~= Seq::<(usize, usize)>::empty());
        assert(stack_weight(stack@.drop_last()) == 0);
        assert(stack_weight(stack@) == 9);
    }
    while stack.len() > 0
        invariant
            trace_run(wi, hi, (mask.cells@, stack@, pending@, cs), fuel) == trace_run(wi, hi, start, big),
            9 * count_true(mask.cells@) + stack_weight(stack@) <= fuel,
            m0.wf(),
            wi == w as int,
            hi == h as int,
            ni == n as int,
            w == m0.width,
            h == m0.height,
            n == m0.cells@.len(),
            fg == m0.fg(),
            seeds == set![s as int],
            s < n,
            mask.width == w,
            mask.height == h,
            mask.cells@.len() == n,
            path@ == path_before + points_of(wi, cs),
            cs.len() >= 1,
            cs[0] == s,
            forall|t: int| 0 <= t < cs.len() ==> 0 <= #[trigger] cs[t] < n,
            forall|i: int| 0 <= i < n ==> #[trigger] mask.cells@[i] == (m0.cells@[i] && !cs.contains(i)),
            forall|i: int| 0 <= i < n && #[trigger] cs.contains(i) ==> reachable(wi, ni, fg, seeds, i),
            is_walk(wi, cs + ints(pending@)),
            stack@.len() > 0 ==> (cs + ints(pending@)).last() == stack@.last().0,
            forall|t: int| 0 <= t < pending@.len() ==> #[trigger] cs.contains(pending@[t] as int),
            forall|t: int| 0 <= t < pending@.len() ==> #[trigger] pending@[t] < n,
            forall|t: int|
                0 <= t < stack@.len() ==> {
                    &&& (#[trigger] stack@[t]).0 < n
                    &&& cs.contains(stack@[t].0 as int)
                    &&& stack@[t].1 <= 8
                    &&& explored(wi, hi, fg, cs, stack@[t].0 as int, stack@[t].1 as int)
                },
            forall|t: int|
                0 <= t < stack@.len() - 1 ==> #[trigger] adjacent(
                    wi,
                    stack@[t].0 as int,
                    stack@[t + 1].0 as int,
                ),
            forall|c: int|
                0 <= c < n && #[trigger] cs.contains(c) && !on_stack(stack@, c) ==> explored(
                    wi,
                    hi,
                    fg,
                    cs,
                    c,
                    8,
                ),
        decreases 9 * count_true(mask.cells@) + stack_weight(stack@),
    {
        let top = stack.len() - 1;
        let (c, d) = stack[top];
        let ghost measure0 = 9 * count_true(mask.cells@) + stack_weight(stack@);
        let ghost state0: TraceState = (mask.cells@, stack@, pending@, cs);
        proof {
            let sd = stack@.drop_last();
            assert(stack@[top as int].1 <= 8);
            assert(stack_weight(stack@) == stack_weight(sd) + (9 - stack@.last().1) as nat);
            assert(fuel >= 1);
            assert(trace_run(wi, hi, state0, fuel) == trace_run(wi, hi, trace_step(wi, hi, state0), (fuel - 1) as nat));
        }
        if d == 8 {
            let ghost st0 = stack@;
            stack.pop();
            assert(st0.drop_last() =~= stack@);
            assert(stack_weight(st0) == stack_weight(stack@) + 1);
            proof {
                assert forall|c2: int|
                    0 <= c2 < n && #[trigger] cs.contains(c2) && !on_stack(stack@, c2) implies explored(
                    wi,
                    hi,
                    fg,
                    cs,
                    c2,
                    8,
                ) by {
                    if c2 != c as int && on_stack(st0, c2) {
                        let t = choose|t: int| 0 <= t < st0.len() && st0[t].0 == c2;
                        assert(stack@[t].0 == c2);
                    }
                }
            }
            if stack.len() > 0 {
                let q = stack[stack.len() - 1].0;
                let ghost w0 = cs + ints(pending@);
                pending.push(q);
                assert(cs + ints(pending@) =~= w0.push(q as int));
                let ghost t2 = st0.len() - 2;
                assert(adjacent(wi, st0[t2].0 as int, st0[t2 + 1].0 as int));
                assert forall|t: int|
                    0 <= t < pending@.len() implies #[trigger] cs.contains(pending@[t] as int) by {
                    if t == pending@.len() - 1 {
                        assert(stack@[stack@.len() - 1].0 == q);
                    }
                }
            }
        } else {
            let ghost st0 = stack@;
            stack.set(top, (c, d + 1));
            assert(stack@.drop_last() =~= st0.drop_last());
            assert(stack_weight(stack@) + 1 == stack_weight(st0));
            let nb = neighbour(w, h, c, d);
            match nb {
                Some(q) => {
                    if mask.cells[q] {
                        let ghost cs0 = cs;
                        let ghost st1 = stack@;
                        let ghost pend0 = pending@;
                        let ghost w0 = cs + ints(pending@);
                        let mut k: usize = 0;
                        while k < pending.len()
                            invariant
                                0 < w <= MAX_SIDE,
                                h <= MAX_SIDE,
                                wi == w as int,
                                n == w * h,
                                k <= pending@.len(),
                                forall|t: int| 0 <= t < pending@.len() ==> 0 <= #[trigger] pending@[t] < n,
                                path@ == path_before + points_of(wi, cs0 + ints(pending@.subrange(0, k as int))),
                            decreases pending@.len() - k,
                        {
                            let ghost before = cs0 + ints(pending@.subrange(0, k as int));
                            path.push(point(w, h, pending[k]));
                            k += 1;
                            assert(cs0 + ints(pending@.subrange(0, k as int)) =~= before.push(
                                pending@[k - 1] as int,
                            ));
                            assert(points_of(wi, before.push(pending@[k - 1] as int)) =~= points_of(
                                wi,
                                before,
                            ).push(point_of(wi, pending@[k - 1] as int)));
                        }
                        assert(pending@.subrange(0, k as int) =~= pending@);
                        proof {
                            cs = cs0 + ints(pending@);
                            lemma_append_contains(cs0, ints(pending@));
                        }
                        pending.clear();
                        let ghost mc = mask.cells@;
                        mask.cells.set(q, false);
                        let ghost cs1 = cs;
                        path.push(point(w, h, q));
                        proof {
                            lemma_count_true_clear(mc, q as int);
                            cs = cs.push(q as int);
                            lemma_append_contains(cs1, seq![q as int]);
                            assert(cs =~= cs1 + seq![q as int]);
                        }
                        assert(points_of(wi, cs) =~= points_of(wi, cs1).push(point_of(wi, q as int)));
                        stack.push((q, 0));
                        assert(stack@.drop_last() =~= st1);
                        assert(stack_weight(stack@) == stack_weight(st1) + 9);
                        assert(count_true(mask.cells@) + 1 == count_true(mc));
                        assert(9 * count_true(mask.cells@) + stack_weight(stack@) < measure0);
                        proof {
                            assert(cs + ints(pending@) =~= cs);
                            assert(cs.last() == q);
                            // everything in cs0 stays in cs
                            assert forall|j: int| cs0.contains(j) implies #[trigger] cs.contains(j) by {
                                assert(cs1.contains(j));
                            }
                            assert forall|j: int| #[trigger] cs.contains(j) implies cs0.contains(j) || j == q by {
                                if cs1.contains(j) {
                                    if !cs0.contains(j) {
                                        let t = choose|t: int| 0 <= t < ints(pend0).len() && ints(pend0)[t] == j;
                                        assert(cs0.contains(pend0[t] as int));
                                    }
                                } else {
                                    assert(seq![q as int].contains(j));
                                }
                            }
                            assert(reachable(wi, ni, fg, seeds, c as int));
                            assert forall|ss: Set<int>| #[trigger] closed_in(wi, ni, fg, ss) && seeds.subset_of(ss)
                                implies ss.contains(q as int) by {
                                assert(ss.contains(c as int));
                                assert(fg.contains(q as int));
                            }
                            assert forall|i: int| 0 <= i < n implies #[trigger] mask.cells@[i] == (m0.cells@[i] && !cs.contains(i)) by {
                                if i != q {
                                    assert(cs.contains(i) == cs0.contains(i));
                                }
                            }
                            assert(is_walk(wi, cs)) by {
                                assert forall|t: int| 0 <= t < cs.len() - 1 implies #[trigger] adjacent(wi, cs[t], cs[t + 1]) by {
                                    if t < cs.len() - 2 {
                                        assert(cs[t] == w0[t] && cs[t + 1] == w0[t + 1]);
                                    } else {
                                        assert(cs[t] == c);
                                    }
                                }
                            }
                            assert forall|t: int| 0 <= t < stack@.len() implies {
                                &&& (#[trigger] stack@[t]).0 < n
                                &&& cs.contains(stack@[t].0 as int)
                                &&& stack@[t].1 <= 8
                                &&& explored(wi, hi, fg, cs, stack@[t].0 as int, stack@[t].1 as int)
                            } by {
                                if t < top {
                                    assert(stack@[t] == st0[t]);
                                    lemma_explored_grow(wi, hi, fg, cs0, cs, st0[t].0 as int, st0[t].1 as int);
                                } else if t == top {
                                    lemma_explored_grow(wi, hi, fg, cs0, cs, c as int, d as int);
                                    assert(neighbour_at(wi, hi, c as int, d as int) == Some(q as int));
                                } else {
                                    assert(stack@[t] == (q, 0usize));
                                }
                            }
                            assert forall|t: int| 0 <= t < stack@.len() - 1 implies #[trigger] adjacent(
                                wi,
                                stack@[t].0 as int,
                                stack@[t + 1].0 as int,
                            ) by {
                                if t < top {
                                    assert(stack@[t] == st0[t] && stack@[t + 1].0 == st0[t + 1].0);
                                }
                            }
                            assert forall|c2: int|
                                0 <= c2 < n && #[trigger] cs.contains(c2) && !on_stack(stack@, c2) implies explored(
                                wi,
                                hi,
                                fg,
                                cs,
                                c2,
                                8,
                            ) by {
                                if c2 == q {
                                    assert(stack@[stack@.len() - 1].0 == q);
                                }
                                assert(cs0.contains(c2));
                                if on_stack(st0, c2) {
                                    let t = choose|t: int| 0 <= t < st0.len() && st0[t].0 == c2;
                                    assert(stack@[t].0 == c2);
                                }
                                lemma_explored_grow(wi, hi, fg, cs0, cs, c2, 8);
                            }
                        }
                    } else {
                        proof {
                            stay_put(wi, hi, ni, fg, cs, c as int, d as int, st0, stack@, top as int);
                        }
                    }
                },
                None => {
                    proof {
                        stay_put(wi, hi, ni, fg, cs, c as int, d as int, st0, stack@, top as int);
                    }
                },
            }
        }
        proof {
            let next = trace_step(wi, hi, state0);
            assert(mask.cells@ =~= next.0);
            assert(stack@ =~= next.1);
            assert(pending@ =~= next.2);
            assert(cs =~= next.3);
            assert((mask.cells@, stack@, pending@, cs) == next);
            fuel = (fuel - 1) as nat;
        }
    }
    assert(cs == trace_run(wi, hi, start, big).3);
    let ghost chain = path@.subrange(path_before.len() as int, path@.len() as int);
    assert(chain =~= points_of(wi, cs));
    proof {
        assert(cells_of(wi, chain) =~= cs) by {
            assert forall|t: int| 0 <= t < cs.len() implies #[trigger] cells_of(wi, chain)[t] == cs[t] by {
                lemma_col_row(wi, hi, cs[t]);
            }
        }
        assert forall|t: int| 0 <= t < chain.len() implies 0 <= (#[trigger] chain[t]).0 < wi && 0 <= chain[t].1 < hi by {
            lemma_col_row(wi, hi, cs[t]);
        }
        assert(is_walk(wi, cs)) by {
            assert forall|t: int| 0 <= t < cs.len() - 1 implies #[trigger] adjacent(wi, cs[t], cs[t + 1]) by {
                assert((cs + ints(pending@))[t] == cs[t]);
                assert((cs + ints(pending@))[t + 1] == cs[t + 1]);
            }
        }
        let set_cs = Set::new(|k: int| 0 <= k < ni && cs.contains(k));
        assert(seeds.subset_of(set_cs)) by {
            assert(cs[0] == s);
        }
        assert(closed_in(wi, ni, fg, set_cs)) by {
            assert forall|i: int, j: int|
                set_cs.contains(i) && 0 <= j < ni && fg.contains(j) && adjacent(wi, i, j) implies set_cs.contains(j) by {
                assert(!on_stack(stack@, i));
                lemma_adjacent_is_neighbour(wi, hi, i, j);
                let e = dir_to(wi, i, j);
                assert(neighbour_at(wi, hi, i, e) == Some(j));
            }
        }
    }
    assert(path@.subrange(0, path_before.len() as int) =~= path_before);
}

/// A step that claims nothing: the top entry's direction advances past a
/// neighbour that is off the grid, background, or already claimed.
proof fn stay_put(
    wi: int,
    hi: int,
    ni: int,
    fg: Set<int>,
    cs: Seq<int>,
    c: int,
    d: int,
    st0: Seq<(usize, usize)>,
    st: Seq<(usize, usize)>,
    top: int,
)
    requires
        0 <= d < 8,
        top == st0.len() - 1,
        st0.len() > 0,
        st0[top].0 == c,
        st0[top].1 == d,
        st == st0.update(top, (c as usize, (d + 1) as usize)),
        explored(wi, hi, fg, cs, c, d),
        neighbour_at(wi, hi, c, d) matches Some(q) ==> fg.contains(q) ==> cs.contains(q),
        forall|t: int|
            0 <= t < st0.len() ==> explored(wi, hi, fg, cs, (#[trigger] st0[t]).0 as int, st0[t].1 as int),
        forall|c2: int|
            0 <= c2 < ni && #[trigger] cs.contains(c2) && !on_stack(st0, c2) ==> explored(wi, hi, fg, cs, c2, 8),
    ensures
        explored(wi, hi, fg, cs, c, d + 1),
        forall|t: int|
            0 <= t < st.len() ==> explored(wi, hi, fg, cs, (#[trigger] st[t]).0 as int, st[t].1 as int),
        forall|c2: int|
            0 <= c2 < ni && #[trigger] cs.contains(c2) && !on_stack(st, c2) ==> explored(wi, hi, fg, cs, c2, 8),
{
    assert forall|c2: int| 0 <= c2 < ni && #[trigger] cs.contains(c2) && !on_stack(st, c2) implies explored(wi, hi, fg, cs, c2, 8) by {
        if on_stack(st0, c2) {
            let t = choose|t: int| 0 <= t < st0.len() && st0[t].0 == c2;
            assert(st[t].0 == c2);
        }
    }
}

/// Chains of at most this many points are dropped as noise.
pub const MIN_CHAIN_LEN: usize = 16;

/// The 8-connected component of cell `p` within `fg`.
pub open spec fn component(w: int, n: int, fg: Set<int>, p: int) -> Set<int> {
    Set::new(|k: int| reachable(w, n, fg, set![p], k))
}

/// `line` is a kept chain over the foreground `fg` of a `w` x `h` grid: longer
/// than the minimum, on the grid, a walk of 8-adjacent cells, covering
/// exactly the component of its first cell, which comes first in its
/// component in row-major order.
pub open spec fn chain_of(w: int, h: int, fg: Set<int>, line: Seq<(i32, i32)>) -> bool {
    let cs = cells_of(w, line);
    &&& line.len() > MIN_CHAIN_LEN
    &&& fg.contains(cs[0])
    &&& on_grid(w, h, line)
    &&& is_walk(w, cs)
    &&& forall|i: int| 0 <= i < w * h ==> (#[trigger] cs.contains(i) <==> reachable(w, w * h, fg, set![cs[0]], i))
    &&& forall|t: int| 0 <= t < cs.len() ==> cs[0] <= #[trigger] cs[t]
    &&& cs == trace_from(w, h, fg_mask(w * h, fg), cs[0])
}

/// The mask of the first `n` cells that holds exactly the cells of `fg`.
pub open spec fn fg_mask(n: int, fg: Set<int>) -> Seq<bool> {
    Seq::new(n as nat, |i: int| fg.contains(i))
}

/// Two trace states that differ only in their masks, and only on the cells of
/// `cl`, which the first has cleared; the stacks hold allowed cells outside `cl`.
pub open spec fn trace_sim(n: int, a: Set<int>, cl: Set<int>, s1: TraceState, s0: TraceState) -> bool {
    &&& s1.1 == s0.1
    &&& s1.2 == s0.2
    &&& s1.3 == s0.3
    &&& n <= usize::MAX
    &&& s1.0.len() == n
    &&& s0.0.len() == n
    &&& forall|i: int| 0 <= i < n ==> if cl.contains(i) { !s1.0[i] } else { #[trigger] s1.0[i] == s0.0[i] }
    &&& forall|i: int| 0 <= i < n && #[trigger] s1.0[i] ==> a.contains(i)
    &&& forall|t: int|
        0 <= t < s1.1.len() ==> a.contains((#[trigger] s1.1[t]).0 as int) && !cl.contains(s1.1[t].0 as int)
            && s1.1[t].0 < n && s1.1[t].1 <= 8
}

/// Cells cleared in a closed set of allowed cells are never reached from
/// outside it, so the trace emits the same cells with or without them.
proof fn lemma_trace_sim(w: int, h: int, a: Set<int>, cl: Set<int>, s1: TraceState, s0: TraceState, fuel: nat)
    requires
        0 < w,
        0 <= h,
        closed_in(w, w * h, a, cl),
        trace_sim(w * h, a, cl, s1, s0),
    ensures
        trace_run(w, h, s1, fuel).3 == trace_run(w, h, s0, fuel).3,
    decreases fuel,
{
    if fuel == 0 || s1.1.len() == 0 {
    } else {
        let n = w * h;
        let stack = s1.1;
        let top = stack.len() - 1;
        let c = stack[top].0 as int;
        let d = stack[top].1 as int;
        let n1 = trace_step(w, h, s1);
        let n0 = trace_step(w, h, s0);
        if d < 8 {
            lemma_col_row(w, h, c);
            if let Some(q) = neighbour_at(w, h, c, d) {
                crate::grid::lemma_neighbour_adjacent(w, h, c, d);
                if cl.contains(q) {
                    assert(adjacent(w, q, c));
                    assert(cl.contains(c));
                }
                assert(s1.0[q] == s0.0[q]);
                if s1.0[q] {
                    assert(a.contains(q));
                    assert(!cl.contains(q));
                    assert(0 <= q < n);
                    assert forall|t: int| 0 <= t < n1.1.len() implies a.contains((#[trigger] n1.1[t]).0 as int)
                        && !cl.contains(n1.1[t].0 as int) && n1.1[t].0 < n && n1.1[t].1 <= 8 by {
                        if t < top {
                            assert(n1.1[t] == stack[t]);
                        } else if t == top {
                            assert(n1.1[t] == (c as usize, (d + 1) as usize));
                        } else {
                            assert(n1.1[t] == (q as usize, 0usize));
                        }
                    }
                    assert forall|i: int| 0 <= i < n implies if cl.contains(i) { !n1.0[i] } else { #[trigger] n1.0[i] == n0.0[i] } by {}
                } else {
                    assert forall|t: int| 0 <= t < n1.1.len() implies a.contains((#[trigger] n1.1[t]).0 as int)
                        && !cl.contains(n1.1[t].0 as int) && n1.1[t].0 < n && n1.1[t].1 <= 8 by {
                        if t < top {
                            assert(n1.1[t] == stack[t]);
                        }
                    }
                }
            } else {
                assert forall|t: int| 0 <= t < n1.1.len() implies a.contains((#[trigger] n1.1[t]).0 as int)
                    && !cl.contains(n1.1[t].0 as int) && n1.1[t].0 < n && n1.1[t].1 <= 8 by {
                    if t < top {
                        assert(n1.1[t] == stack[t]);
                    }
                }
            }
        } else {
            assert forall|t: int| 0 <= t < n1.1.len() implies a.contains((#[trigger] n1.1[t]).0 as int)
                && !cl.contains(n1.1[t].0 as int) && n1.1[t].0 < n && n1.1[t].1 <= 8 by {
                assert(n1.1[t] == stack[t]);
            }
        }
        assert(trace_sim(n, a, cl, n1, n0));
        lemma_trace_sim(w, h, a, cl, n1, n0, (fuel - 1) as nat);
    }
}

/// Row-major scan order on a grid `w` wide: `p` lies on an earlier row
/// than `q`, or on the same row further left; its cell index is smaller.
pub open spec fn scan_before(w: int, p: (i32, i32), q: (i32, i32)) -> bool {
    cell_of(w, p) < cell_of(w, q)
}

pub open spec fn in_lines(w: int, lines: Seq<Seq<(i32, i32)>>, p: int) -> bool {
    exists|a: int| 0 <= a < lines.len() && #[trigger] cells_of(w, lines[a]).contains(p)
}

/// The chains of `lines` are kept chains in discovery order, no cell lies in
/// two of them, and the foreground cells outside all of them lie in
/// components of at most `MIN_CHAIN_LEN` cells.
pub open spec fn traced_lines(w: int, h: int, fg: Set<int>, lines: Seq<Seq<(i32, i32)>>) -> bool {
    &&& forall|a: int| 0 <= a < lines.len() ==> chain_of(w, h, fg, #[trigger] lines[a])
    &&& forall|a: int, b: int|
        0 <= a < b < lines.len() ==> scan_before(w, #[trigger] lines[a][0], #[trigger] lines[b][0])
    &&& forall|a: int, b: int, i: int|
        0 <= a < lines.len() && 0 <= b < lines.len() && a != b ==> !(#[trigger] cells_of(w, lines[a]).contains(i)
            && #[trigger] cells_of(w, lines[b]).contains(i))
    &&& forall|p: int|
        0 <= p < w * h && fg.contains(p) && !in_lines(w, lines, p) ==> (#[trigger] component(w, w * h, fg, p)).len()
            <= MIN_CHAIN_LEN
}

/// The state of the scan: `m` is the mask left so far, `lines` the chains kept.
pub open spec fn scan_inv(w: int, h: int, fg: Set<int>, m: Seq<bool>, lines: Seq<Seq<(i32, i32)>>) -> bool {
    let n = w * h;
    &&& m.len() == n
    &&& forall|k: int| fg.contains(k) ==> 0 <= k < n
    &&& forall|i: int| 0 <= i < n && #[trigger] m[i] ==> fg.contains(i)
    &&& closed_in(w, n, fg, Set::new(|i: int| fg.contains(i) && !m[i]))
    &&& forall|a: int| 0 <= a < lines.len() ==> chain_of(w, h, fg, #[trigger] lines[a])
    &&& forall|a: int, b: int|
        0 <= a < b < lines.len() ==> scan_before(w, #[trigger] lines[a][0], #[trigger] lines[b][0])
    &&& forall|a: int, b: int, i: int|
        0 <= a < lines.len() && 0 <= b < lines.len() && a != b ==> !(#[trigger] cells_of(w, lines[a]).contains(i)
            && #[trigger] cells_of(w, lines[b]).contains(i))
    &&& forall|a: int, i: int| 0 <= a < lines.len() && #[trigger] cells_of(w, lines[a]).contains(i) ==> 0 <= i < n && !m[i]
    &&& forall|p: int|
        0 <= p < n && fg.contains(p) && !m[p] && !in_lines(w, lines, p) ==> (#[trigger] component(w, n, fg, p)).len()
            <= MIN_CHAIN_LEN
}

/// One traced chain keeps the scan's state, whether it is kept or dropped.
proof fn lemma_trace_step(
    fg: Set<int>,
    mk: Mask,
    lines: Seq<Seq<(i32, i32)>>,
    s: int,
    chain: Seq<(i32, i32)>,
    mk2: Mask,
)
    requires
        mk.wf(),
        mk.width > 0,
        scan_inv(mk.width as int, mk.height as int, fg, mk.cells@, lines),
        0 <= s < mk.cells@.len(),
        mk.cells@[s],
        mk.cells@.len() <= usize::MAX,
        traced(mk, s, chain, mk2),
        forall|a: int| 0 <= a < lines.len() ==> scan_before(mk.width as int, #[trigger] lines[a][0], chain[0]),
        forall|c: int| 0 <= c < s ==> !(#[trigger] mk.cells@[c]),
    ensures
        scan_inv(
            mk.width as int,
            mk.height as int,
            fg,
            mk2.cells@,
            if chain.len() > MIN_CHAIN_LEN { lines.push(chain) } else { lines },
        ),
        forall|i: int| 0 <= i < mk.cells@.len() && #[trigger] mk2.cells@[i] ==> mk.cells@[i],
        !mk2.cells@[s],
{
    let w = mk.width as int;
    let h = mk.height as int;
    let n = w * h;
    let m = mk.cells@;
    let m2 = mk2.cells@;
    let cs = cells_of(w, chain);
    let b = mk.fg();
    // the chain is the one traced on the full foreground mask
    let cl = Set::new(|i: int| fg.contains(i) && !m[i]);
    let m0 = fg_mask(n, fg);
    let st1: TraceState = (m.update(s, false), seq![(s as usize, 0usize)], Seq::empty(), seq![s]);
    let st0: TraceState = (m0.update(s, false), seq![(s as usize, 0usize)], Seq::empty(), seq![s]);
    assert forall|i: int| 0 <= i < n implies if cl.contains(i) { !st1.0[i] } else { #[trigger] st1.0[i] == st0.0[i] } by {
        if i != s && !cl.contains(i) {
            if m[i] {
                assert(fg.contains(i));
            }
        }
    }
    assert(st1.1[0] == (s as usize, 0usize));
    assert(trace_sim(n, fg, cl, st1, st0));
    lemma_trace_sim(w, h, fg, cl, st1, st0, (9 * m.len() + 9) as nat);
    assert(cs == trace_from(w, h, m0, s));
    assert(b.subset_of(fg));
    assert(fg.difference(b) =~= Set::new(|i: int| fg.contains(i) && !m[i]));
    lemma_component_kept(w, n, fg, b, s);
    assert(cs.contains(s)) by {
        assert(cs[0] == s);
    }
    // the chain covers the component of `s` in `fg`
    assert forall|i: int| 0 <= i < n implies (cs.contains(i) <==> reachable(w, n, fg, set![s], i)) by {}
    assert forall|i: int| #[trigger] cs.contains(i) implies 0 <= i < n && m[i] by {
        let t = choose|t: int| 0 <= t < cs.len() && cs[t] == i;
        assert(0 <= chain[t].0 < w && 0 <= chain[t].1 < h);
        crate::raster::lemma_flat_in_bounds(w, h, chain[t].0 as int, chain[t].1 as int);
        lemma_reach_within(w, n, b, set![s], i);
    }
    let comp = component(w, n, fg, s);
    lemma_reach_closed(w, n, fg, set![s]);
    let cleared = Set::new(|i: int| fg.contains(i) && !m[i]);
    // no cell of the component comes before the seed
    assert forall|t: int| 0 <= t < cs.len() implies cs[0] <= #[trigger] cs[t] by {
        let i = cs[t];
        assert(cs.contains(i));
        if i < s {
            lemma_reach_within(w, n, fg, set![s], i);
            assert(cleared.contains(i));
            crate::grid::lemma_reach_symmetric(w, n, fg, s, i);
            assert(set![i].subset_of(cleared));
            assert(cleared.contains(s));
        }
    }
    // the cleared cells stay closed
    let cleared2 = Set::new(|i: int| fg.contains(i) && !m2[i]);
    assert(closed_in(w, n, fg, cleared2)) by {
        assert forall|i: int, j: int|
            cleared2.contains(i) && 0 <= j < n && fg.contains(j) && adjacent(w, i, j) implies cleared2.contains(j) by {
            if cleared.contains(i) {
                assert(cleared.contains(j));
            } else {
                assert(cs.contains(i));
                assert(comp.contains(i));
                assert(comp.contains(j));
            }
        }
    }
    let lines2 = if chain.len() > MIN_CHAIN_LEN { lines.push(chain) } else { lines };
    assert forall|a: int, i: int| 0 <= a < lines2.len() && #[trigger] cells_of(w, lines2[a]).contains(i) implies 0 <= i < n && !m2[i] by {
        if a < lines.len() {
            assert(lines2[a] == lines[a]);
        }
    }
    assert forall|a: int, bb: int, i: int|
        0 <= a < lines2.len() && 0 <= bb < lines2.len() && a != bb implies !(#[trigger] cells_of(w, lines2[a]).contains(i)
            && #[trigger] cells_of(w, lines2[bb]).contains(i)) by {
        if a < lines.len() && bb < lines.len() {
            assert(lines2[a] == lines[a] && lines2[bb] == lines[bb]);
        } else if a < lines.len() {
            assert(lines2[a] == lines[a]);
            if cells_of(w, lines[a]).contains(i) {
                assert(!m[i]);
            }
        } else {
            assert(lines2[bb] == lines[bb]);
            if cells_of(w, lines[bb]).contains(i) {
                assert(!m[i]);
            }
        }
    }
    assert forall|a: int| 0 <= a < lines2.len() implies chain_of(w, h, fg, #[trigger] lines2[a]) by {
        if a < lines.len() {
            assert(lines2[a] == lines[a]);
        }
    }
    assert forall|a: int, bb: int| 0 <= a < bb < lines2.len() implies scan_before(w, #[trigger] lines2[a][0], #[trigger] lines2[bb][0]) by {
        if bb < lines.len() {
            assert(lines2[a] == lines[a] && lines2[bb] == lines[bb]);
        } else {
            assert(lines2[a] == lines[a]);
        }
    }
    // every newly cleared cell is in the kept chain or in a small component
    assert forall|p: int|
        0 <= p < n && fg.contains(p) && !m2[p] && !in_lines(w, lines2, p) implies (#[trigger] component(w, n, fg, p)).len()
            <= MIN_CHAIN_LEN by {
        if !m[p] {
            if in_lines(w, lines, p) {
                let a = choose|a: int| 0 <= a < lines.len() && #[trigger] cells_of(w, lines[a]).contains(p);
                assert(lines2[a] == lines[a]);
            }
        } else {
            assert(cs.contains(p));
            if chain.len() > MIN_CHAIN_LEN {
                assert(lines2[lines.len() as int] == chain);
                assert(cells_of(w, lines2[lines.len() as int]).contains(p));
            }
            lemma_same_component(w, n, fg, s, p);
            assert(component(w, n, fg, p) =~= comp);
            assert(comp.subset_of(cs.to_set())) by {
                assert forall|k: int| comp.contains(k) implies cs.to_set().contains(k) by {
                    lemma_reach_within(w, n, fg, set![s], k);
                }
            }
            vstd::seq_lib::seq_to_set_is_finite(cs);
            vstd::set_lib::lemma_len_subset(comp, cs.to_set());
            cs.lemma_cardinality_of_set();
        }
    }
}

/// The cells of `img` whose pixel equals `colour`.
pub open spec fn colour_set(img: Image, colour: Rgba) -> Set<int> {
    Set::new(|i: int| 0 <= i < img.pixels@.len() && img.pixels@[i] == colour)
}

/// The mask of the pixels of `img` equal to `colour`.
pub fn img_to_bool(img: &Image, colour: Rgba) -> (m: Mask)
    requires
        img.wf(),
        img.width <= MAX_SIDE,
        img.height <= MAX_SIDE,
    ensures
        m.wf(),
        m.width == img.width,
        m.height == img.height,
        forall|i: int| 0 <= i < m.cells@.len() ==> #[trigger] m.cells@[i] == (img.pixels@[i] == colour),
{
    let n = img.pixels.len();
    let mut cells: Vec<bool> = Vec::with_capacity(n);
    let mut i: usize = 0;
    while i < n
        invariant
            n == img.pixels@.len(),
            i <= n,
            cells@.len() == i,
            forall|k: int| 0 <= k < i ==> #[trigger] cells@[k] == (img.pixels@[k] == colour),
        decreases n - i,
    {
        cells.push(img.pixels[i] == colour);
        i += 1;
    }
    Mask { width: img.width, height: img.height, cells }
}

pub open spec fn views(lines: Seq<Vec<(i32, i32)>>) -> Seq<Seq<(i32, i32)>> {
    lines.map_values(|v: Vec<(i32, i32)>| v@)
}

/// Traces the pixels of `img` equal to `colour` into chains.
///
/// Pixels are scanned in row-major order; each pixel not yet claimed starts
/// a depth-first trace (see `dfs`) that claims its whole 8-connected
/// component. Chains of more than `MIN_CHAIN_LEN` points are returned in the
/// order they were found; shorter ones are dropped.
pub fn edges_to_lines(img: &Image, colour: Rgba) -> (lines: Vec<Vec<(i32, i32)>>)
    requires
        img.wf(),
        img.width <= MAX_SIDE,
        img.height <= MAX_SIDE,
    ensures
        traced_lines(img.width as int, img.height as int, colour_set(*img, colour), views(lines@)),
{
    let mut mask = img_to_bool(img, colour);
    let w = img.width;
    let h = img.height;
    let ghost wi = w as int;
    let ghost hi = h as int;
    let ghost fg = colour_set(*img, colour);
    assert(mask.fg() =~= fg);
    let n = mask.cells.len();
    let mut lines: Vec<Vec<(i32, i32)>> = Vec::new();
    assert(Set::new(|i: int| fg.contains(i) && !mask.cells@[i]) =~= Set::<int>::empty());
    assert(views(lines@) =~= Seq::<Seq<(i32, i32)>>::empty());
    let mut idx: usize = 0;
    while idx < n
        invariant
            mask.wf(),
            mask.width == w,
            mask.height == h,
            wi == w as int,
            hi == h as int,
            n == wi * hi,
            idx <= n,
            scan_inv(wi, hi, fg, mask.cells@, views(lines@)),
            forall|c: int| 0 <= c < idx ==> !(#[trigger] mask.cells@[c]),
            forall|a: int| 0 <= a < lines@.len() ==> cell_of(wi, (#[trigger] views(lines@)[a])[0]) < idx,
        decreases n - idx,
    {
        let ghost m_before = mask;
        let ghost lines_before = views(lines@);
        if mask.cells[idx] {
            let (x, y) = point(w, h, idx);
            let mut path: Vec<(i32, i32)> = Vec::new();
            dfs(x, y, &mut mask, &mut path);
            assert(path@.subrange(0, path@.len() as int) =~= path@);
            proof {
                let start = path@[0];
                assert(cells_of(wi, path@)[0] == cell_of(wi, start));
                lemma_trace_step(fg, m_before, lines_before, idx as int, path@, mask);
            }
            if path.len() > MIN_CHAIN_LEN {
                lines.push(path);
                assert(views(lines@) =~= lines_before.push(path@));
            }
        }
        idx += 1;
    }
    lines
}

/// The chains of the white pixels.
pub fn edges_to_lines_w(img: &Image) -> (lines: Vec<Vec<(i32, i32)>>)
    requires
        img.wf(),
        img.width <= MAX_SIDE,
        img.height <= MAX_SIDE,
    ensures
        traced_lines(img.width as int, img.height as int, colour_set(*img, Rgba::grey_spec(255)), views(lines@)),
{
    edges_to_lines(img, Rgba::white())
}

/// The chains of the black pixels.
pub fn edges_to_lines_b(img: &Image) -> (lines: Vec<Vec<(i32, i32)>>)
    requires
        img.wf(),
        img.width <= MAX_SIDE,
        img.height <= MAX_SIDE,
    ensures
        traced_lines(img.width as int, img.height as int, colour_set(*img, Rgba::grey_spec(0)), views(lines@)),
{
    edges_to_lines(img, Rgba::black())
}

/// A foreground pixel with no foreground 8-neighbour lies in no kept chain:
/// the chain traced from it is the single point, which is too short.
pub proof fn lemma_isolated_pixel_dropped(w: int, h: int, fg: Set<int>, lines: Seq<Seq<(i32, i32)>>, p: int)
    requires
        traced_lines(w, h, fg, lines),
        forall|k: int| fg.contains(k) ==> 0 <= k < w * h,
        fg.contains(p),
        forall|j: int| fg.contains(j) ==> !adjacent(w, p, j),
    ensures
        !in_lines(w, lines, p),
{
    if in_lines(w, lines, p) {
        let a = choose|a: int| 0 <= a < lines.len() && #[trigger] cells_of(w, lines[a]).contains(p);
        let line = lines[a];
        assert(chain_of(w, h, fg, line));
        let cs = cells_of(w, line);
        let s = cs[0];
        assert(reachable(w, w * h, fg, set![s], p));
        crate::grid::lemma_same_component(w, w * h, fg, s, p);
        let single = set![p];
        assert(closed_in(w, w * h, fg, single));
        assert(cs.contains(cs[1]));
        assert(0 <= line[1].0 < w && 0 <= line[1].1 < h);
        assert(0 <= line[0].0 < w && 0 <= line[0].1 < h);
        lemma_flat_in_bounds(w, h, line[1].0 as int, line[1].1 as int);
        lemma_flat_in_bounds(w, h, line[0].0 as int, line[0].1 as int);
        assert(reachable(w, w * h, fg, set![p], cs[1]));
        assert(single.contains(cs[1]));
        assert(reachable(w, w * h, fg, set![p], cs[0])) by {
            assert(cs.contains(cs[0]));
        }
        assert(single.contains(cs[0]));
        let z: int = 0;
        assert(adjacent(w, cs[z], cs[z + 1]));
    }
}

} // verus!

verus! {

/// The `i`-th cell of the horizontal run starting at `(x0, y0)`.
pub open spec fn run_cell(w: int, x0: int, y0: int, i: int) -> int {
    flat(w, x0 + i, y0)
}

/// Cell `j` lies on the run of `len` cells starting at `(x0, y0)`.
pub open spec fn on_run(w: int, x0: int, y0: int, len: int, j: int) -> bool {
    0 <= col(w, j) - x0 < len && row(w, j) == y0
}

/// The trace state once the first `k + 1` cells of the run are emitted and
/// the `k`-th is about to try its first direction.
pub open spec fn run_state(w: int, n: int, x0: int, y0: int, len: int, k: int) -> TraceState {
    (
        Seq::new(n as nat, |j: int| on_run(w, x0, y0, len, j) && col(w, j) > x0 + k),
        Seq::new(
            (k + 1) as nat,
            |i: int|
                if i < k {
                    (run_cell(w, x0, y0, i) as usize, 5usize)
                } else {
                    (run_cell(w, x0, y0, k) as usize, 0usize)
                },
        ),
        Seq::empty(),
        Seq::new((k + 1) as nat, |i: int| run_cell(w, x0, y0, i)),
    )
}

proof fn lemma_neighbour_coords(w: int, h: int, c: int, d: int)
    requires
        0 < w,
        0 <= c < w * h,
        0 <= d < 8,
    ensures
        neighbour_at(w, h, c, d) matches Some(q) ==> 0 <= q < w * h && col(w, q) == col(w, c)
            + crate::grid::dir_dx(d) && row(w, q) == row(w, c) + crate::grid::dir_dy(d),
{
    lemma_col_row(w, h, c);
    if let Some(q) = neighbour_at(w, h, c, d) {
        crate::grid::lemma_neighbour_adjacent(w, h, c, d);
        lemma_flat_col_row(w, col(w, c) + crate::grid::dir_dx(d), row(w, c) + crate::grid::dir_dy(d));
    }
}

/// On an empty mask the trace emits nothing more.
proof fn lemma_trace_empty_mask(w: int, h: int, st: TraceState, fuel: nat)
    requires
        0 < w,
        0 <= h,
        st.0.len() == w * h,
        forall|j: int| 0 <= j < w * h ==> !#[trigger] st.0[j],
    ensures
        trace_run(w, h, st, fuel).3 == st.3,
        trace_run(w, h, st, fuel).0 == st.0,
    decreases fuel,
{
    if fuel > 0 && st.1.len() > 0 {
        let top = st.1.len() - 1;
        let c = st.1[top].0 as int;
        let d = st.1[top].1 as int;
        if d < 8 {
            if let Some(q) = neighbour_at(w, h, c, d) {
                lemma_flat_in_bounds(w, h, col(w, c) + crate::grid::dir_dx(d), row(w, c) + crate::grid::dir_dy(d));
            }
        }
        lemma_trace_empty_mask(w, h, trace_step(w, h, st), (fuel - 1) as nat);
    }
}

/// From the `k`-th cell of the run, five steps try north-west, north,
/// north-east and west, all empty, then step east onto the next cell.
proof fn lemma_run_forward(w: int, h: int, x0: int, y0: int, len: int, k: int, fuel: nat)
    requires
        0 <= x0,
        x0 + len <= w,
        0 <= y0 < h,
        w * h <= usize::MAX,
        0 <= k < len - 1,
        fuel >= 5,
    ensures
        trace_run(w, h, run_state(w, w * h, x0, y0, len, k), fuel) == trace_run(
            w,
            h,
            run_state(w, w * h, x0, y0, len, k + 1),
            (fuel - 5) as nat,
        ),
{
    let n = w * h;
    let c = run_cell(w, x0, y0, k);
    lemma_flat_in_bounds(w, h, x0 + k, y0);
    lemma_flat_col_row(w, x0 + k, y0);
    let s0 = run_state(w, n, x0, y0, len, k);
    let mask = s0.0;
    assert(s0.1[k] == (c as usize, 0usize));
    lemma_neighbour_coords(w, h, c, 0);
    lemma_neighbour_coords(w, h, c, 1);
    lemma_neighbour_coords(w, h, c, 2);
    lemma_neighbour_coords(w, h, c, 3);
    lemma_neighbour_coords(w, h, c, 4);
    let s1 = trace_step(w, h, s0);
    assert(s1 == (mask, s0.1.update(k, (c as usize, 1usize)), s0.2, s0.3));
    let s2 = trace_step(w, h, s1);
    assert(s2 == (mask, s0.1.update(k, (c as usize, 2usize)), s0.2, s0.3)) by {
        assert(s1.1.update(k, (c as usize, 2usize)) =~= s0.1.update(k, (c as usize, 2usize)));
    }
    let s3 = trace_step(w, h, s2);
    assert(s3 == (mask, s0.1.update(k, (c as usize, 3usize)), s0.2, s0.3)) by {
        assert(s2.1.update(k, (c as usize, 3usize)) =~= s0.1.update(k, (c as usize, 3usize)));
    }
    let s4 = trace_step(w, h, s3);
    assert(s4 == (mask, s0.1.update(k, (c as usize, 4usize)), s0.2, s0.3)) by {
        assert(s3.1.update(k, (c as usize, 4usize)) =~= s0.1.update(k, (c as usize, 4usize)));
    }
    let q = run_cell(w, x0, y0, k + 1);
    lemma_flat_in_bounds(w, h, x0 + k + 1, y0);
    lemma_flat_col_row(w, x0 + k + 1, y0);
    assert(neighbour_at(w, h, c, 4) == Some(q));
    assert(mask[q]);
    let s5 = trace_step(w, h, s4);
    let next = run_state(w, n, x0, y0, len, k + 1);
    assert(s5.0 =~= next.0) by {
        assert forall|j: int| 0 <= j < n implies #[trigger] s5.0[j] == next.0[j] by {
            if j != q && on_run(w, x0, y0, len, j) && col(w, j) == x0 + k + 1 {
                lemma_col_row(w, h, j);
            }
        }
    }
    assert(s5.1 =~= next.1);
    assert(s5.2 =~= next.2);
    assert(s5.3 =~= next.3);
    assert(s5 == next);
    let f = fuel as int;
    assert(trace_run(w, h, s0, fuel) == trace_run(w, h, s1, (f - 1) as nat));
    assert(trace_run(w, h, s1, (f - 1) as nat) == trace_run(w, h, s2, (f - 2) as nat));
    assert(trace_run(w, h, s2, (f - 2) as nat) == trace_run(w, h, s3, (f - 3) as nat));
    assert(trace_run(w, h, s3, (f - 3) as nat) == trace_run(w, h, s4, (f - 4) as nat));
    assert(trace_run(w, h, s4, (f - 4) as nat) == trace_run(w, h, s5, (f - 5) as nat));
}

/// Tracing a horizontal run of `len` cells, with nothing else set, from its
/// left end emits exactly the run, left to right, once each.
pub proof fn lemma_trace_run_row(w: int, h: int, mask: Seq<bool>, x0: int, y0: int, len: int)
    requires
        0 <= x0,
        1 <= len,
        x0 + len <= w,
        0 <= y0 < h,
        w * h <= usize::MAX,
        mask.len() == w * h,
        forall|j: int| 0 <= j < w * h ==> #[trigger] mask[j] == on_run(w, x0, y0, len, j),
    ensures
        trace_from(w, h, mask, run_cell(w, x0, y0, 0)) == Seq::new(len as nat, |i: int| run_cell(w, x0, y0, i)),
{
    let n = w * h;
    let s = run_cell(w, x0, y0, 0);
    lemma_flat_in_bounds(w, h, x0, y0);
    lemma_flat_col_row(w, x0, y0);
    let big = (9 * mask.len() + 9) as nat;
    let start: TraceState = (mask.update(s, false), seq![(s as usize, 0usize)], Seq::empty(), seq![s]);
    let s0 = run_state(w, n, x0, y0, len, 0);
    assert(start.0 =~= s0.0) by {
        assert forall|j: int| 0 <= j < n implies #[trigger] start.0[j] == s0.0[j] by {
            if j != s && on_run(w, x0, y0, len, j) && col(w, j) == x0 {
                lemma_col_row(w, h, j);
            }
        }
    }
    assert(start.1 =~= s0.1);
    assert(start.3 =~= s0.3);
    assert(start == s0);
    assert(len <= w);
    assert(w <= n) by (nonlinear_arith)
        requires 0 <= y0 < h, 0 < w, n == w * h;
    lemma_run_prefix(w, h, x0, y0, len, len - 1, big);
    let last = run_state(w, n, x0, y0, len, len - 1);
    lemma_trace_empty_mask(w, h, last, (big - 5 * (len - 1)) as nat);
    assert(last.3 =~= Seq::new(len as nat, |i: int| run_cell(w, x0, y0, i)));
}

proof fn lemma_run_prefix(w: int, h: int, x0: int, y0: int, len: int, k: int, fuel: nat)
    requires
        0 <= x0,
        x0 + len <= w,
        0 <= y0 < h,
        w * h <= usize::MAX,
        0 <= k < len,
        fuel >= 5 * k,
    ensures
        trace_run(w, h, run_state(w, w * h, x0, y0, len, 0), fuel) == trace_run(
            w,
            h,
            run_state(w, w * h, x0, y0, len, k),
            (fuel - 5 * k) as nat,
        ),
    decreases k,
{
    if k > 0 {
        lemma_run_prefix(w, h, x0, y0, len, k - 1, fuel);
        lemma_run_forward(w, h, x0, y0, len, k - 1, (fuel - 5 * (k - 1)) as nat);
    }
}

proof fn lemma_run_cells(w: int, h: int, x0: int, y0: int, len: int, i: int)
    requires
        0 <= x0,
        x0 + len <= w,
        0 <= y0 < h,
        0 <= i < len,
    ensures
        0 <= run_cell(w, x0, y0, i) < w * h,
        col(w, run_cell(w, x0, y0, i)) == x0 + i,
        row(w, run_cell(w, x0, y0, i)) == y0,
{
    lemma_flat_in_bounds(w, h, x0 + i, y0);
    lemma_flat_col_row(w, x0 + i, y0);
}

/// A closed set over the run that holds one of its cells holds all of them.
proof fn lemma_run_connected(w: int, h: int, fg: Set<int>, x0: int, y0: int, len: int, s: Set<int>, i0: int)
    requires
        0 <= x0,
        x0 + len <= w,
        0 <= y0 < h,
        0 <= i0 < len,
        forall|i: int| 0 <= i < len ==> fg.contains(#[trigger] run_cell(w, x0, y0, i)),
        closed_in(w, w * h, fg, s),
        s.contains(run_cell(w, x0, y0, i0)),
    ensures
        forall|i: int| 0 <= i < len ==> s.contains(#[trigger] run_cell(w, x0, y0, i)),
{
    assert forall|i: int| 0 <= i < len implies s.contains(#[trigger] run_cell(w, x0, y0, i)) by {
        lemma_run_reach(w, h, fg, x0, y0, len, s, i0, i);
    }
}

proof fn lemma_run_reach(w: int, h: int, fg: Set<int>, x0: int, y0: int, len: int, s: Set<int>, i0: int, i: int)
    requires
        0 <= x0,
        x0 + len <= w,
        0 <= y0 < h,
        0 <= i0 < len,
        0 <= i < len,
        forall|k: int| 0 <= k < len ==> fg.contains(#[trigger] run_cell(w, x0, y0, k)),
        closed_in(w, w * h, fg, s),
        s.contains(run_cell(w, x0, y0, i0)),
    ensures
        s.contains(run_cell(w, x0, y0, i)),
    decreases if i > i0 { i - i0 } else { i0 - i },
{
    if i != i0 {
        let k = if i > i0 { i - 1 } else { i + 1 };
        lemma_run_reach(w, h, fg, x0, y0, len, s, i0, k);
        lemma_run_cells(w, h, x0, y0, len, i);
        lemma_run_cells(w, h, x0, y0, len, k);
        assert(adjacent(w, run_cell(w, x0, y0, k), run_cell(w, x0, y0, i)));
        assert(fg.contains(run_cell(w, x0, y0, i)));
    }
}

/// A foreground that is exactly one horizontal run of more than
/// `MIN_CHAIN_LEN` pixels is traced into exactly one chain: the run's
/// points, left to right, each once.
pub proof fn lemma_single_run_one_chain(
    w: int,
    h: int,
    fg: Set<int>,
    lines: Seq<Seq<(i32, i32)>>,
    x0: int,
    y0: int,
    len: int,
)
    requires
        traced_lines(w, h, fg, lines),
        0 <= x0,
        x0 + len <= w,
        0 <= y0 < h,
        w * h <= usize::MAX,
        len > MIN_CHAIN_LEN,
        forall|j: int| fg.contains(j) <==> 0 <= j < w * h && on_run(w, x0, y0, len, j),
    ensures
        lines.len() == 1,
        lines[0] == Seq::new(len as nat, |i: int| ((x0 + i) as i32, y0 as i32)),
{
    let n = w * h;
    let run = Seq::new(len as nat, |i: int| run_cell(w, x0, y0, i));
    assert forall|i: int| 0 <= i < len implies fg.contains(#[trigger] run_cell(w, x0, y0, i)) by {
        lemma_run_cells(w, h, x0, y0, len, i);
    }
    let m0 = fg_mask(n, fg);
    assert forall|j: int| 0 <= j < n implies #[trigger] m0[j] == on_run(w, x0, y0, len, j) by {}
    lemma_trace_run_row(w, h, m0, x0, y0, len);
    let first = run_cell(w, x0, y0, 0);
    lemma_run_cells(w, h, x0, y0, len, 0);
    // every line is the run
    assert forall|a: int| 0 <= a < lines.len() implies cells_of(w, #[trigger] lines[a]) == run by {
        let line = lines[a];
        assert(chain_of(w, h, fg, line));
        let cs = cells_of(w, line);
        let s = cs[0];
        let i0 = col(w, s) - x0;
        assert(fg.contains(s));
        lemma_col_row(w, h, s);
        assert(s == run_cell(w, x0, y0, i0));
        assert(reachable(w, n, fg, set![s], first)) by {
            assert forall|t: Set<int>| #[trigger] closed_in(w, n, fg, t) && set![s].subset_of(t) implies t.contains(first) by {
                assert(set![s].contains(s));
                lemma_run_connected(w, h, fg, x0, y0, len, t, i0);
            }
        }
        assert(cs.contains(first));
        let t = choose|t: int| 0 <= t < cs.len() && cs[t] == first;
        assert(cs[0] <= cs[t]);
        lemma_flat_col_row(w, x0, y0);
        assert(s == first);
    }
    // at least one line: the run's component is too large to drop
    if !in_lines(w, lines, first) {
        let comp = component(w, n, fg, first);
        let rs = run.to_set();
        assert(comp =~= rs) by {
            assert forall|k: int| comp.contains(k) implies rs.contains(k) by {
                lemma_reach_within(w, n, fg, set![first], k);
                lemma_col_row(w, h, k);
                let i = col(w, k) - x0;
                assert(run[i] == k);
            }
            assert forall|k: int| rs.contains(k) implies comp.contains(k) by {
                let i = choose|i: int| 0 <= i < run.len() && run[i] == k;
                assert forall|t: Set<int>| #[trigger] closed_in(w, n, fg, t) && set![first].subset_of(t) implies t.contains(k) by {
                    assert(set![first].contains(first));
                    lemma_run_connected(w, h, fg, x0, y0, len, t, 0);
                    assert(t.contains(run_cell(w, x0, y0, i)));
                }
            }
        }
        assert(run.no_duplicates()) by {
            assert forall|i: int, j: int| 0 <= i < run.len() && 0 <= j < run.len() && i != j implies run[i] != run[j] by {
                lemma_run_cells(w, h, x0, y0, len, i);
                lemma_run_cells(w, h, x0, y0, len, j);
            }
        }
        run.unique_seq_to_set();
        assert(comp.len() <= MIN_CHAIN_LEN);
    }
    assert(lines.len() >= 1);
    // at most one: two lines would share the run's first cell
    if lines.len() > 1 {
        assert(cells_of(w, lines[0]) == run);
        assert(cells_of(w, lines[1]) == run);
        assert(run[0] == first);
        assert(cells_of(w, lines[0]).contains(first));
        assert(cells_of(w, lines[1]).contains(first));
    }
    // the points follow from the cells
    let line = lines[0];
    assert(chain_of(w, h, fg, line));
    assert(line =~= Seq::new(len as nat, |i: int| ((x0 + i) as i32, y0 as i32))) by {
        assert(cells_of(w, line).len() == run.len());
        assert forall|t: int| 0 <= t < len implies line[t] == ((x0 + t) as i32, y0 as i32) by {
            assert(cells_of(w, line)[t] == run[t]);
            lemma_flat_col_row(w, line[t].0 as int, line[t].1 as int);
            lemma_run_cells(w, h, x0, y0, len, t);
        }
    }
}

} // verus!
