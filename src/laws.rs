use vstd::prelude::*;

use crate::cell::Cell;
use crate::grid::{holds_digit, is_solved, lemma_solved_iff_zones, zone_is_permutation};
use crate::solver::{
    agrees, candidates, extends, is_candidate, lemma_candidates_upto,
    lemma_solution_digit_is_candidate, solve_outcome, unsolvable,
};
use crate::zones::{is_neighbor, row_of};

verus! {

/// When the search succeeds, every one of the 27 zones of its result holds a
/// permutation of the digits `1..=9`.
pub proof fn lemma_solved_result_zones(b: Seq<Cell>, a: Seq<Cell>)
    requires
        solve_outcome(b, a, true),
    ensures
        forall|z: int| 0 <= z < 27 ==> #[trigger] zone_is_permutation(a, z),
{
    lemma_solved_iff_zones(a);
}

/// Whatever the search returns, every given cell keeps its digit.
pub proof fn lemma_givens_kept(b: Seq<Cell>, a: Seq<Cell>, r: bool, p: int)
    requires
        b.len() == 81,
        forall|q: int| 0 <= q < 81 ==> (#[trigger] b[q]).wf(),
        solve_outcome(b, a, r),
        0 <= p < 81,
        b[p].fixed,
    ensures
        a[p] == b[p],
{
    assert(b[p].wf());
}

/// A row that holds the same digit twice makes the search fail: the grid has
/// no solution.
pub proof fn lemma_duplicate_in_row_fails(b: Seq<Cell>, a: Seq<Cell>, r: bool, p: int, q: int)
    requires
        b.len() == 81,
        solve_outcome(b, a, r),
        0 <= p < 81,
        0 <= q < 81,
        p != q,
        row_of(p) == row_of(q),
        b[p].value is Some,
        b[p].value == b[q].value,
    ensures
        !r,
        unsolvable(b),
{
    assert forall|s: Seq<Cell>| is_solved(s) implies !#[trigger] agrees(b, s) by {
        if agrees(b, s) {
            assert(is_neighbor(p, q));
            assert(s[p].value != s[q].value);
        }
    }
}

/// On a grid that is already solved the search succeeds and changes nothing.
pub proof fn lemma_solved_input_unchanged(b: Seq<Cell>, a: Seq<Cell>, r: bool)
    requires
        is_solved(b),
        solve_outcome(b, a, r),
    ensures
        r,
        a == b,
{
    assert(agrees(b, b));
    assert forall|p: int| 0 <= p < 81 implies (#[trigger] b[p]).value is Some by {
        assert(holds_digit(b[p]));
    }
    assert(a =~= b);
}

/// A grid with a single empty cell whose only candidate is `k`, and whose
/// other digits do not clash, is solved by writing `k` into that cell.
pub proof fn lemma_single_gap_filled(b: Seq<Cell>, a: Seq<Cell>, r: bool, p: int, k: u8)
    requires
        b.len() == 81,
        forall|q: int| 0 <= q < 81 ==> (#[trigger] b[q]).wf(),
        0 <= p < 81,
        b[p].value is None,
        forall|q: int| 0 <= q < 81 && q != p ==> (#[trigger] b[q]).value is Some,
        forall|q1: int, q2: int|
            0 <= q1 < 81 && 0 <= q2 < 81 && q1 != p && q2 != p && is_neighbor(q1, q2)
                ==> #[trigger] b[q1].value != #[trigger] b[q2].value,
        candidates(b, p) == seq![k],
        solve_outcome(b, a, r),
    ensures
        r,
        a == b.update(p, Cell { value: Some(k), fixed: false }),
{
    let c = Cell { value: Some(k), fixed: false };
    let s = b.update(p, c);
    lemma_candidates_upto(b, p, 9);
    assert(candidates(b, p).contains(k)) by {
        assert(seq![k][0] == k);
    }
    assert(is_candidate(b, p, k as int));
    assert forall|q: int| 0 <= q < 81 implies holds_digit(#[trigger] s[q]) by {
        if q != p {
            assert(b[q].wf());
        }
    }
    assert forall|q1: int, q2: int|
        0 <= q1 < 81 && 0 <= q2 < 81 && is_neighbor(q1, q2) implies #[trigger] s[q1].value
            != #[trigger] s[q2].value by {
        if q1 == p {
            assert(b[q2].value != Some(k));
        } else if q2 == p {
            assert(is_neighbor(q2, q1));
            assert(b[q1].value != Some(k));
        } else {
            assert(b[q1].value != b[q2].value);
        }
    }
    assert(is_solved(s));
    assert(agrees(b, s));
    assert(r);
    assert(agrees(b, a));
    lemma_solution_digit_is_candidate(b, a, p);
    let w = a[p].value->0;
    assert(seq![k].contains(w));
    assert(a[p].fixed == b[p].fixed);
    assert(b[p].wf());
    assert forall|q: int| 0 <= q < 81 implies #[trigger] a[q] == s[q] by {
        if q != p {
            assert(b[q].value is Some);
        }
    }
    assert(a =~= s);
}

/// The validator (`is_complete_and_valid`, which returns `is_solved`)
/// accepts every grid that a successful search leaves behind.
pub proof fn lemma_solved_result_validates(b: Seq<Cell>, a: Seq<Cell>)
    requires
        solve_outcome(b, a, true),
    ensures
        is_solved(a),
{
}

} // verus!
