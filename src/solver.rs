use rayon::iter::{IntoParallelIterator, ParallelIterator};
use vstd::prelude::*;

use crate::cell::Cell;
use crate::grid::{Sudoku, holds_digit, is_solved};
use crate::zones::{CELLS, ZoneIndex, is_neighbor, neighbor_list};

verus! {

/// Digit `d` may go into cell `p`: no neighbour of `p` holds it.
pub open spec fn is_candidate(s: Seq<Cell>, p: int, d: int) -> bool {
    &&& 1 <= d <= 9
    &&& forall|q: int| 0 <= q < 81 && is_neighbor(p, q) ==> #[trigger] s[q].value != Some(d as u8)
}

/// The candidates of cell `p` among the digits `1..=n`, in increasing order.
pub open spec fn candidates_upto(s: Seq<Cell>, p: int, n: int) -> Seq<u8>
    decreases n,
{
    if n <= 0 {
        Seq::empty()
    } else if is_candidate(s, p, n) {
        candidates_upto(s, p, n - 1).push(n as u8)
    } else {
        candidates_upto(s, p, n - 1)
    }
}

/// The legal digits of cell `p`, in increasing order.
pub open spec fn candidates(s: Seq<Cell>, p: int) -> Seq<u8> {
    candidates_upto(s, p, 9)
}

/// Number of empty cells.
pub open spec fn empty_count(s: Seq<Cell>) -> nat
    decreases s.len(),
{
    if s.len() == 0 {
        0
    } else {
        empty_count(s.drop_last()) + if s.last().value is None {
            1nat
        } else {
            0nat
        }
    }
}

/// `s` keeps every digit that `b` holds.
pub open spec fn agrees(b: Seq<Cell>, s: Seq<Cell>) -> bool {
    forall|p: int| 0 <= p < 81 && (#[trigger] b[p]).value is Some ==> s[p].value == b[p].value
}

/// `a` is `b` with some of its empty cells filled in: the cells that held a
/// digit are unchanged, and no cell changed whether it is a given.
pub open spec fn extends(b: Seq<Cell>, a: Seq<Cell>) -> bool {
    &&& a.len() == b.len()
    &&& forall|p: int|
        0 <= p < b.len() ==> ((#[trigger] b[p]).value is Some ==> a[p] == b[p]) && a[p].fixed
            == b[p].fixed
}

/// No solved grid keeps the digits of `b`.
pub open spec fn unsolvable(b: Seq<Cell>) -> bool {
    forall|s: Seq<Cell>| is_solved(s) ==> !#[trigger] agrees(b, s)
}

/// What a search that began on `b` and left `a` behind, with result `r`,
/// guarantees: on success `a` is a solution that extends `b`; on failure the
/// grid is unchanged and `b` has no solution.
pub open spec fn solve_outcome(b: Seq<Cell>, a: Seq<Cell>, r: bool) -> bool {
    &&& r ==> is_solved(a) && extends(b, a)
    &&& !r ==> a == b && unsolvable(b)
}

/// A digit is among the first `n` candidates exactly when it is at most `n`
/// and a candidate.
pub proof fn lemma_candidates_upto(s: Seq<Cell>, p: int, n: int)
    requires
        0 <= n <= 9,
    ensures
        forall|d: u8| #[trigger]
            candidates_upto(s, p, n).contains(d) <==> (d <= n && is_candidate(s, p, d as int)),
        candidates_upto(s, p, n).len() <= n,
    decreases n,
{
    if n > 0 {
        lemma_candidates_upto(s, p, n - 1);
        let prev = candidates_upto(s, p, n - 1);
        if is_candidate(s, p, n) {
            assert forall|d: u8| #[trigger]
                candidates_upto(s, p, n).contains(d) <==> (d <= n && is_candidate(
                    s,
                    p,
                    d as int,
                )) by {
                let next = prev.push(n as u8);
                assert(candidates_upto(s, p, n) == next);
                if d == n as u8 {
                    assert(next[prev.len() as int] == d);
                } else {
                    if next.contains(d) {
                        let i = choose|i: int| 0 <= i < next.len() && #[trigger] next[i] == d;
                        assert(prev[i] == d);
                        assert(prev.contains(d));
                    }
                    if prev.contains(d) {
                        let i = choose|i: int| 0 <= i < prev.len() && #[trigger] prev[i] == d;
                        assert(next[i] == d);
                    }
                }
            }
        }
    }
}

/// The `k`-th of `n` slots, counted from slot `start` and wrapping round.
pub open spec fn rotated(start: int, k: int, n: int) -> int {
    if start + k < n {
        start + k
    } else {
        start + k - n
    }
}

/// Advances the pseudo-random state `rng` (a linear congruential step) and
/// returns its upper half.
fn next_random(rng: &mut u64) -> (r: u64)
    ensures
        *final(rng) == (*old(rng)).wrapping_mul(6364136223846793005).wrapping_add(
            1442695040888963407,
        ),
        r == *final(rng) >> 32u64,
{
    *rng = rng.wrapping_mul(6364136223846793005).wrapping_add(1442695040888963407);
    *rng >> 32u64
}

/// A digit that a solution agreeing with `b` puts in an empty cell of `b`
/// is a candidate there.
pub proof fn lemma_solution_digit_is_candidate(b: Seq<Cell>, s: Seq<Cell>, p: int)
    requires
        b.len() == 81,
        0 <= p < 81,
        is_solved(s),
        agrees(b, s),
    ensures
        is_candidate(b, p, s[p].value->0 as int),
        candidates(b, p).contains(s[p].value->0),
{
    assert(holds_digit(s[p]));
    let d = s[p].value->0;
    assert forall|q: int| 0 <= q < 81 && is_neighbor(p, q) implies #[trigger] b[q].value != Some(
        d,
    ) by {
        assert(s[p].value != s[q].value);
        if b[q].value is Some {
            assert(s[q].value == b[q].value);
        }
    }
    lemma_candidates_upto(b, p, 9);
}

proof fn lemma_fill_count(s: Seq<Cell>, p: int, c: Cell)
    requires
        0 <= p < s.len(),
        s[p].value is None,
        c.value is Some,
    ensures
        empty_count(s.update(p, c)) + 1 == empty_count(s),
    decreases s.len(),
{
    let t = s.update(p, c);
    if p == s.len() - 1 {
        assert(t.drop_last() =~= s.drop_last());
    } else {
        assert(t.drop_last() =~= s.drop_last().update(p, c));
        lemma_fill_count(s.drop_last(), p, c);
    }
}

/// A grid without empty cells that is not solved has no solution.
proof fn lemma_full_unsolved(b: Seq<Cell>)
    requires
        b.len() == 81,
        forall|q: int| 0 <= q < 81 ==> (#[trigger] b[q]).value is Some,
        !is_solved(b),
    ensures
        unsolvable(b),
{
    assert forall|s: Seq<Cell>| is_solved(s) implies !#[trigger] agrees(b, s) by {
        if agrees(b, s) {
            assert forall|q: int| 0 <= q < 81 implies #[trigger] b[q].value == s[q].value by {
                assert(b[q].value is Some);
            }
            assert forall|q: int| 0 <= q < 81 implies holds_digit(#[trigger] b[q]) by {
                assert(holds_digit(s[q]));
            }
        }
    }
}

/// When no candidate of the empty cell `p` leads to a solution, the grid has
/// none.
proof fn lemma_candidates_exhausted(b: Seq<Cell>, p: int, vals: Seq<u8>)
    requires
        b.len() == 81,
        0 <= p < 81,
        vals == candidates(b, p),
        forall|k: int|
            0 <= k < vals.len() ==> unsolvable(
                #[trigger] b.update(p, Cell { value: Some(vals[k]), fixed: false }),
            ),
    ensures
        unsolvable(b),
{
    assert forall|s: Seq<Cell>| is_solved(s) implies !#[trigger] agrees(b, s) by {
        if agrees(b, s) {
            lemma_solution_digit_is_candidate(b, s, p);
            let w = s[p].value->0;
            let k = choose|k: int| 0 <= k < vals.len() && vals[k] == w;
            let bk = b.update(p, Cell { value: Some(vals[k]), fixed: false });
            assert(unsolvable(bk));
            assert(agrees(bk, s));
        }
    }
}

/// Filling the empty cell `p` and then extending the result extends the
/// grid itself.
proof fn lemma_extends_after_fill(b: Seq<Cell>, p: int, c: Cell, a: Seq<Cell>)
    requires
        0 <= p < b.len(),
        b[p].value is None,
        b[p].wf(),
        !c.fixed,
        extends(b.update(p, c), a),
    ensures
        extends(b, a),
{
    let bc = b.update(p, c);
    assert forall|q: int| 0 <= q < b.len() implies ((#[trigger] b[q]).value is Some ==> a[q]
        == b[q]) && a[q].fixed == b[q].fixed by {
        assert(bc[q].fixed == b[q].fixed);
        if q != p {
            assert(bc[q] == b[q]);
        }
    }
}

/// What a branch that tries digit `v` in cell `p` of `b` hands back: a grid
/// that solves `b` with `v` in `p`, or nothing when none exists.
pub open spec fn branch_outcome(b: Seq<Cell>, p: int, v: u8, r: Option<Sudoku>) -> bool {
    let start = b.update(p, Cell { value: Some(v), fixed: false });
    match r {
        Some(h) => h.wf() && is_solved(h@) && extends(start, h@),
        None => unsolvable(start),
    }
}

/// Relies on rayon's `ParallelIterator::find_map_any` over the parallel
/// iterator of a `Vec<u8>`: the result is `Some` of a value that the closure
/// returned for one of the elements, and `None` only when the closure
/// returned `None` for every element; once one has returned `Some`, no
/// further element is started. The closure is the verified `branch`, whose
/// `requires` hold for every element by this function's `requires`, so what
/// it returns meets `branch_outcome`.
#[verifier::external_body]
fn first_solved_branch(g: &Sudoku, idx: &ZoneIndex, p: usize, values: Vec<u8>) -> (r: Option<
    Sudoku,
>)
    requires
        g.wf(),
        idx.wf(),
        p < 81,
        g@[p as int].value is None,
        forall|k: int| 0 <= k < values@.len() ==> 1 <= #[trigger] values@[k] <= 9,
    ensures
        r is Some ==> exists|k: int|
            0 <= k < values@.len() && branch_outcome(g@, p as int, #[trigger] values@[k], r),
        r is None ==> forall|k: int|
            0 <= k < values@.len() ==> branch_outcome(g@, p as int, #[trigger] values@[k], r),
{
    values.into_par_iter().find_map_any(|v| g.branch(idx, p, v))
}

impl Sudoku {
    /// The legal digits of the empty cell `p`: those that none of its
    /// neighbours holds, in increasing order.
    pub fn get_available_values(&self, idx: &ZoneIndex, p: usize) -> (r: Vec<u8>)
        requires
            self.wf(),
            idx.wf(),
            p < 81,
        ensures
            r@ == candidates(self@, p as int),
    {
        let ghost s = self@;
        let list = idx.neighbors_of(p);
        let mut used: Vec<bool> = vec![false; 10];
        let mut i: usize = 0;
        while i < list.len()
            invariant
                self.wf(),
                s == self@,
                neighbor_list(p as int, list@),
                used@.len() == 10,
                i <= list@.len(),
                forall|j: int|
                    0 <= j < i && (#[trigger] s[list@[j] as int]).value is Some ==> used@[s[list@[j] as int].value->0 as int],
                forall|d: int|
                    0 <= d < 10 && #[trigger] used@[d] ==> exists|j: int|
                        0 <= j < i && s[list@[j] as int].value == Some(d as u8),
            decreases list@.len() - i,
        {
            let q = list[i];
            if let Some(v) = self.cell(q).value {
                used.set(v as usize, true);
                proof {
                    assert forall|d: int|
                        0 <= d < 10 && #[trigger] used@[d] implies exists|j: int|
                            0 <= j < i + 1 && s[list@[j] as int].value == Some(d as u8) by {
                        if d == v as int {
                            assert(s[list@[i as int] as int].value == Some(d as u8));
                        }
                    }
                }
            }
            i += 1;
        }
        let mut r: Vec<u8> = Vec::new();
        let mut d: u8 = 1;
        while d <= 9
            invariant
                self.wf(),
                s == self@,
                p < 81,
                neighbor_list(p as int, list@),
                used@.len() == 10,
                1 <= d <= 10,
                forall|j: int|
                    0 <= j < list@.len() && (#[trigger] s[list@[j] as int]).value is Some ==> used@[s[list@[j] as int].value->0 as int],
                forall|e: int|
                    0 <= e < 10 && #[trigger] used@[e] ==> exists|j: int|
                        0 <= j < list@.len() && s[list@[j] as int].value == Some(e as u8),
                r@ == candidates_upto(s, p as int, d - 1),
            decreases 10 - d,
        {
            proof {
                if used@[d as int] {
                    let j = choose|j: int|
                        0 <= j < list@.len() && s[list@[j] as int].value == Some(d);
                    assert(is_neighbor(p as int, list@[j] as int));
                    assert(!is_candidate(s, p as int, d as int));
                } else {
                    assert forall|q: int| 0 <= q < 81 && is_neighbor(p as int, q) implies #[trigger] s[q].value
                        != Some(d) by {
                        assert(list@.contains(q as usize));
                        let j = choose|j: int| 0 <= j < list@.len() && list@[j] == q as usize;
                        assert(s[list@[j] as int] == s[q]);
                    }
                }
            }
            if !used[d as usize] {
                r.push(d);
            }
            d += 1;
        }
        r
    }

    /// The empty cell to branch on next, with its legal digits: the first
    /// cell, in row-major order, that has exactly one; failing that, the
    /// first of those with the fewest. `None` when no cell is empty.
    pub fn find_best_position(&self, idx: &ZoneIndex) -> (r: Option<(usize, Vec<u8>)>)
        requires
            self.wf(),
            idx.wf(),
        ensures
            match r {
                None => forall|q: int| 0 <= q < 81 ==> (#[trigger] self@[q]).value is Some,
                Some((p, vals)) => {
                    &&& p < 81
                    &&& self@[p as int].value is None
                    &&& vals@ == candidates(self@, p as int)
                    &&& is_best_choice(self@, p as int)
                },
            },
    {
        let ghost s = self@;
        let mut found = false;
        let mut best_pos: usize = 0;
        let mut best_vals: Vec<u8> = Vec::new();
        let mut p: usize = 0;
        while p < CELLS
            invariant
                self.wf(),
                idx.wf(),
                s == self@,
                p <= 81,
                forall|q: int|
                    0 <= q < p && (#[trigger] s[q]).value is None ==> candidates(s, q).len() != 1,
                !found ==> forall|q: int| 0 <= q < p ==> (#[trigger] s[q]).value is Some,
                found ==> {
                    &&& best_pos < p
                    &&& s[best_pos as int].value is None
                    &&& best_vals@ == candidates(s, best_pos as int)
                    &&& forall|q: int|
                        0 <= q < p && (#[trigger] s[q]).value is None ==> candidates(s, q).len()
                            >= best_vals@.len()
                    &&& forall|q: int|
                        0 <= q < best_pos && (#[trigger] s[q]).value is None ==> candidates(
                            s,
                            q,
                        ).len() > best_vals@.len()
                },
            decreases 81 - p,
        {
            if self.cell(p).value.is_none() {
                let values = self.get_available_values(idx, p);
                if values.len() == 1 {
                    return Some((p, values));
                }
                if !found || values.len() < best_vals.len() {
                    found = true;
                    best_pos = p;
                    best_vals = values;
                }
            }
            p += 1;
        }
        if found {
            Some((best_pos, best_vals))
        } else {
            None
        }
    }

    /// Searches depth-first for a solution that keeps every digit of the
    /// grid, using the zones and neighbour lists of `idx`. At a cell with
    /// several candidates, `rng` picks the candidate to try first; the others
    /// follow in increasing order, wrapping round. On success the grid holds
    /// the solution found; on failure it is left as it was, and no solution
    /// exists. When several solutions exist, which one is found is left open.
    pub fn solve_with(&mut self, idx: &ZoneIndex, rng: &mut u64) -> (r: bool)
        requires
            old(self).wf(),
            idx.wf(),
        ensures
            final(self).wf(),
            solve_outcome(old(self)@, final(self)@, r),
        decreases empty_count(old(self)@),
    {
        let ghost b = self@;
        match self.find_best_position(idx) {
            None => {
                let ok = self.is_complete_and_valid(idx);
                proof {
                    if !ok {
                        lemma_full_unsolved(b);
                    }
                }
                ok
            },
            Some((p, vals)) => {
                if vals.len() == 0 {
                    proof {
                        lemma_candidates_exhausted(b, p as int, vals@);
                    }
                    return false;
                }
                if vals.len() >= 2 {
                    self.count_try();
                }
                proof {
                    lemma_candidates_upto(b, p as int, 9);
                }
                let n = vals.len();
                let start = (next_random(rng) % (n as u64)) as usize;
                let mut i: usize = 0;
                while i < n
                    invariant
                        self.wf(),
                        idx.wf(),
                        self@ == b,
                        b.len() == 81,
                        b == old(self)@,
                        p < 81,
                        b[p as int].value is None,
                        vals@ == candidates(b, p as int),
                        forall|d: u8| #[trigger]
                            candidates(b, p as int).contains(d) <==> (d <= 9 && is_candidate(
                                b,
                                p as int,
                                d as int,
                            )),
                        n == vals@.len(),
                        n <= 9,
                        start < n,
                        i <= n,
                        forall|k: int|
                            0 <= k < i ==> unsolvable(
                                #[trigger] b.update(
                                    p as int,
                                    Cell { value: Some(vals@[rotated(start as int, k, n as int)]), fixed: false },
                                ),
                            ),
                    decreases n - i,
                {
                    let j = if start + i < n {
                        start + i
                    } else {
                        start + i - n
                    };
                    let v = vals[j];
                    let c = Cell { value: Some(v), fixed: false };
                    proof {
                        assert(vals@.contains(v));
                        lemma_fill_count(b, p as int, c);
                        assert(b[p as int].wf());
                    }
                    self.put(p, c);
                    if self.solve_with(idx, rng) {
                        proof {
                            lemma_extends_after_fill(b, p as int, c, self@);
                        }
                        return true;
                    }
                    self.put(p, Cell::empty());
                    assert(self@ =~= b);
                    assert(j == rotated(start as int, i as int, n as int));
                    i += 1;
                }
                proof {
                    assert forall|k: int| 0 <= k < n implies unsolvable(
                        #[trigger] b.update(p as int, Cell { value: Some(vals@[k]), fixed: false }),
                    ) by {
                        let t = if k >= start {
                            k - start
                        } else {
                            k + n - start
                        };
                        assert(rotated(start as int, t, n as int) == k);
                        assert(unsolvable(
                            b.update(
                                p as int,
                                Cell { value: Some(vals@[rotated(start as int, t, n as int)]), fixed: false },
                            ),
                        ));
                    }
                    lemma_candidates_exhausted(b, p as int, vals@);
                }
                false
            },
        }
    }

    /// Tries digit `v` in the empty cell `p` on a copy of the grid, and
    /// hands back the solved copy, if there is one.
    pub(crate) fn branch(&self, idx: &ZoneIndex, p: usize, v: u8) -> (r: Option<Sudoku>)
        requires
            self.wf(),
            idx.wf(),
            p < 81,
            self@[p as int].value is None,
            1 <= v <= 9,
        ensures
            branch_outcome(self@, p as int, v, r),
    {
        let mut g = self.copy_grid();
        g.put(p, Cell { value: Some(v), fixed: false });
        if g.solve_parallel(idx) {
            Some(g)
        } else {
            None
        }
    }

    /// The same search as `solve_with`, but the digits of a cell with two or
    /// more candidates are tried at once, each on its own copy of the grid;
    /// the first copy found solved is adopted and the other branches are
    /// abandoned.
    pub fn solve_parallel(&mut self, idx: &ZoneIndex) -> (r: bool)
        requires
            old(self).wf(),
            idx.wf(),
        ensures
            final(self).wf(),
            solve_outcome(old(self)@, final(self)@, r),
    {
        let ghost b = self@;
        match self.find_best_position(idx) {
            None => {
                let ok = self.is_complete_and_valid(idx);
                proof {
                    if !ok {
                        lemma_full_unsolved(b);
                    }
                }
                ok
            },
            Some((p, vals)) => {
                proof {
                    lemma_candidates_upto(b, p as int, 9);
                    assert forall|k: int| 0 <= k < vals@.len() implies 1 <= #[trigger] vals@[k]
                        <= 9 by {
                        assert(vals@.contains(vals@[k]));
                    }
                }
                if vals.len() == 0 {
                    proof {
                        lemma_candidates_exhausted(b, p as int, vals@);
                    }
                    return false;
                }
                if vals.len() >= 2 {
                    self.count_try();
                }
                let ghost tried = vals@;
                match first_solved_branch(self, idx, p, vals) {
                    Some(h) => {
                        proof {
                            let k = choose|k: int|
                                0 <= k < tried.len() && branch_outcome(
                                    b,
                                    p as int,
                                    #[trigger] tried[k],
                                    Some(h),
                                );
                            assert(b[p as int].wf());
                            lemma_extends_after_fill(
                                b,
                                p as int,
                                Cell { value: Some(tried[k]), fixed: false },
                                h@,
                            );
                        }
                        *self = h;
                        true
                    },
                    None => {
                        proof {
                            assert forall|k: int| 0 <= k < tried.len() implies unsolvable(
                                #[trigger] b.update(
                                    p as int,
                                    Cell { value: Some(tried[k]), fixed: false },
                                ),
                            ) by {
                                assert(branch_outcome(b, p as int, tried[k], None));
                            }
                            lemma_candidates_exhausted(b, p as int, tried);
                        }
                        false
                    },
                }
            },
        }
    }

    /// Solves the grid in place, exploring the branches in parallel; see
    /// `solve_parallel`.
    pub fn solve(&mut self) -> (r: bool)
        requires
            old(self).wf(),
        ensures
            final(self).wf(),
            solve_outcome(old(self)@, final(self)@, r),
    {
        let idx = ZoneIndex::new();
        self.solve_parallel(&idx)
    }
}

/// The choice of cell `p` follows the fewest-candidates rule: either `p` is
/// the first empty cell with a single candidate, or no empty cell has fewer
/// candidates than `p` and none before it has as few.
pub open spec fn is_best_choice(s: Seq<Cell>, p: int) -> bool {
    let n = candidates(s, p).len();
    ||| n == 1 && forall|q: int|
        0 <= q < p && (#[trigger] s[q]).value is None ==> candidates(s, q).len() != 1
    ||| {
        &&& forall|q: int|
            0 <= q < 81 && (#[trigger] s[q]).value is None ==> candidates(s, q).len() >= n
        &&& forall|q: int| 0 <= q < p && (#[trigger] s[q]).value is None ==> candidates(s, q).len() > n
    }
}

} // verus!
