//! What it means for a board to have a solution, and the facts the search
//! relies on.
use vstd::prelude::*;
use vstd::set_lib::{lemma_int_range, lemma_len_subset, lemma_subset_equality, set_int_range};

use crate::grid::{
    is_peer, is_solution, lemma_peer_share, lemma_unit_cell, lemma_unit_peers,
    lemma_unit_pos, unit_cell, unit_pos,
};
use crate::mask::{
    holds, lemma_count_mono, lemma_count_bit, lemma_count_zero, lemma_has_bit, lemma_has_clear,
    lemma_not_single, lemma_single_digit, popcount, sole_digit, within_digits,
};
use crate::sudoku::place;

verus! {

/// Every cell of the grid `g` is among the candidates of its cell.
pub open spec fn consistent(g: Seq<int>, cells: Seq<u16>) -> bool {
    forall|i: int| 0 <= i < 81 ==> holds(#[trigger] cells[i], g[i])
}

/// Some completed grid agrees with every candidate mask.
pub open spec fn solvable(cells: Seq<u16>) -> bool {
    exists|g: Seq<int>| is_solution(g) && consistent(g, cells)
}

/// A contradiction that shows at once: a cell without candidates, or a unit
/// in which some digit has no place.
pub open spec fn immediate_contradiction(cells: Seq<u16>) -> bool {
    ||| exists|i: int| 0 <= i < 81 && #[trigger] cells[i] == 0
    ||| exists|u: int, d: int|
        0 <= u < 27 && 1 <= d <= 9 && #[trigger] digit_missing(cells, u, d)
}

/// No cell of unit `u` has `d` among its candidates.
pub open spec fn digit_missing(cells: Seq<u16>, u: int, d: int) -> bool {
    forall|k: int| 0 <= k < 9 ==> !holds(#[trigger] cells[unit_cell(u, k)], d)
}

/// The number of candidates left on the first `n` cells.
pub open spec fn total_from(cells: Seq<u16>, n: int) -> nat
    decreases n,
{
    if n <= 0 {
        0
    } else {
        total_from(cells, n - 1) + popcount(cells[n - 1])
    }
}

/// The number of candidates left on the board.
pub open spec fn total_candidates(cells: Seq<u16>) -> nat {
    total_from(cells, 81)
}

/// The digits of unit `u` in the grid `g`.
pub open spec fn unit_values(g: Seq<int>, u: int) -> Seq<int> {
    Seq::new(9, |k: int| g[unit_cell(u, k)])
}

/// Nine distinct digits between 1 and 9 cover every digit.
proof fn lemma_distinct_covers(s: Seq<int>)
    requires
        s.len() == 9,
        forall|k: int| 0 <= k < 9 ==> 1 <= #[trigger] s[k] <= 9,
        s.no_duplicates(),
    ensures
        forall|d: int| 1 <= d <= 9 ==> #[trigger] s.contains(d),
{
    s.unique_seq_to_set();
    lemma_int_range(1, 10);
    assert(s.to_set().subset_of(set_int_range(1, 10)));
    lemma_subset_equality(s.to_set(), set_int_range(1, 10));
    assert forall|d: int| 1 <= d <= 9 implies #[trigger] s.contains(d) by {
        assert(set_int_range(1, 10).contains(d));
        assert(s.to_set().contains(d));
    }
}

/// Nine digits that cover 1 to 9 are distinct.
proof fn lemma_covers_distinct(s: Seq<int>)
    requires
        s.len() == 9,
        forall|d: int| 1 <= d <= 9 ==> #[trigger] s.contains(d),
    ensures
        s.no_duplicates(),
{
    lemma_int_range(1, 10);
    assert forall|d: int| set_int_range(1, 10).contains(d) implies #[trigger] s.to_set().contains(
        d,
    ) by {
        assert(s.contains(d));
    }
    lemma_len_subset(set_int_range(1, 10), s.to_set());
    s.lemma_cardinality_of_set();
    s.lemma_no_dup_set_cardinality();
}

/// In a solution every unit holds every digit.
pub proof fn lemma_solution_unit_covers(g: Seq<int>, u: int, d: int)
    requires
        is_solution(g),
        0 <= u < 27,
        1 <= d <= 9,
    ensures
        exists|k: int| 0 <= k < 9 && g[unit_cell(u, k)] == d,
{
    let s = unit_values(g, u);
    assert forall|k: int| 0 <= k < 9 implies 1 <= #[trigger] s[k] <= 9 by {
        lemma_unit_cell(u, k);
    }
    assert forall|a: int, b: int| 0 <= a < s.len() && 0 <= b < s.len() && a != b implies s[a]
        != s[b] by {
        lemma_unit_cell(u, a);
        lemma_unit_cell(u, b);
        lemma_unit_peers(u, unit_cell(u, a), unit_cell(u, b));
    }
    lemma_distinct_covers(s);
    assert(s.contains(d));
    let k = choose|k: int| 0 <= k < s.len() && s[k] == d;
    assert(g[unit_cell(u, k)] == d);
}

/// A board with an immediate contradiction has no solution.
pub proof fn lemma_contradiction_unsolvable(cells: Seq<u16>)
    requires
        cells.len() == 81,
        immediate_contradiction(cells),
    ensures
        !solvable(cells),
{
    if solvable(cells) {
        let g = choose|g: Seq<int>| is_solution(g) && consistent(g, cells);
        if exists|i: int| 0 <= i < 81 && #[trigger] cells[i] == 0 {
            let i = choose|i: int| 0 <= i < 81 && #[trigger] cells[i] == 0;
            lemma_count_zero(cells[i]);
            assert(holds(cells[i], g[i]));
            crate::mask::lemma_zero_iff_empty(cells[i]);
        } else {
            let (u, d) = choose|u: int, d: int|
                0 <= u < 27 && 1 <= d <= 9 && #[trigger] digit_missing(cells, u, d);
            lemma_solution_unit_covers(g, u, d);
            let k = choose|k: int| 0 <= k < 9 && g[unit_cell(u, k)] == d;
            lemma_unit_cell(u, k);
            assert(holds(cells[unit_cell(u, k)], g[unit_cell(u, k)]));
        }
    }
}

/// A board whose cells are all single, with no immediate contradiction, is
/// solved by reading off its digits.
pub proof fn lemma_all_single_solvable(cells: Seq<u16>)
    requires
        cells.len() == 81,
        forall|i: int| 0 <= i < 81 ==> within_digits(#[trigger] cells[i]),
        forall|i: int| 0 <= i < 81 ==> popcount(#[trigger] cells[i]) == 1,
        !immediate_contradiction(cells),
    ensures
        solvable(cells),
{
    let g = Seq::new(81, |i: int| sole_digit(cells[i]));
    assert forall|i: int| 0 <= i < 81 implies 1 <= #[trigger] g[i] <= 9 && holds(cells[i], g[i])
        && forall|d: int| #[trigger] holds(cells[i], d) <==> d == g[i] by {
        lemma_single_digit(cells[i]);
    }
    assert forall|i: int, j: int| #[trigger] is_peer(i, j) implies g[i] != g[j] by {
        let u = lemma_peer_share(i, j);
        let s = unit_values(g, u);
        assert forall|d: int| 1 <= d <= 9 implies #[trigger] s.contains(d) by {
            assert(!digit_missing(cells, u, d));
            let k = choose|k: int| 0 <= k < 9 && holds(#[trigger] cells[unit_cell(u, k)], d);
            lemma_unit_cell(u, k);
            assert(s[k] == d);
        }
        lemma_covers_distinct(s);
        lemma_unit_pos(u, i);
        lemma_unit_pos(u, j);
        assert(s[unit_pos(u, i)] == g[i]);
        assert(s[unit_pos(u, j)] == g[j]);
    }
    assert(is_solution(g));
    assert(consistent(g, cells));
}

/// Placing a digit only narrows the candidates, so a solution of the placed
/// board solves the board.
pub proof fn lemma_place_narrows(cells: Seq<u16>, i: int, d: int)
    requires
        cells.len() == 81,
        0 <= i < 81,
        1 <= d <= 9,
        holds(cells[i], d),
        solvable(place(cells, i, d)),
    ensures
        solvable(cells),
{
    let g = choose|g: Seq<int>| is_solution(g) && consistent(g, place(cells, i, d));
    lemma_has_bit(d as u16);
    assert forall|j: int| 0 <= j < 81 implies holds(#[trigger] cells[j], g[j]) by {
        assert(holds(place(cells, i, d)[j], g[j]));
        lemma_has_clear(cells[j], d as u16);
    }
    assert(consistent(g, cells));
}

/// A solution that puts `g[i]` in cell `i` survives placing that digit.
pub proof fn lemma_place_keeps(cells: Seq<u16>, g: Seq<int>, i: int)
    requires
        cells.len() == 81,
        0 <= i < 81,
        is_solution(g),
        consistent(g, cells),
    ensures
        consistent(g, place(cells, i, g[i])),
        solvable(place(cells, i, g[i])),
{
    let d = g[i];
    assert(1 <= d <= 9);
    lemma_has_bit(d as u16);
    assert forall|j: int| 0 <= j < 81 implies holds(#[trigger] place(cells, i, d)[j], g[j]) by {
        assert(holds(cells[j], g[j]));
        lemma_has_clear(cells[j], d as u16);
        if is_peer(i, j) {
            assert(g[i] != g[j]);
        }
    }
}

/// The total is monotone in each cell's count, strictly so where one cell
/// loses a candidate.
proof fn lemma_total_mono(a: Seq<u16>, b: Seq<u16>, n: int, i: int)
    requires
        forall|j: int| 0 <= j < n ==> popcount(#[trigger] a[j]) <= popcount(b[j]),
        0 <= i < n,
        popcount(a[i]) < popcount(b[i]),
    ensures
        total_from(a, n) < total_from(b, n),
    decreases n,
{
    if i < n - 1 {
        lemma_total_mono(a, b, n - 1, i);
    } else {
        lemma_total_le(a, b, n - 1);
    }
}

pub proof fn lemma_total_le(a: Seq<u16>, b: Seq<u16>, n: int)
    requires
        forall|j: int| 0 <= j < n ==> popcount(#[trigger] a[j]) <= popcount(b[j]),
    ensures
        total_from(a, n) <= total_from(b, n),
    decreases n,
{
    if n > 0 {
        lemma_total_le(a, b, n - 1);
    }
}

/// The candidates of a cell never grow when a digit is placed.
pub proof fn lemma_place_counts(cells: Seq<u16>, i: int, d: int)
    requires
        cells.len() == 81,
        0 <= i < 81,
        1 <= d <= 9,
        holds(cells[i], d),
    ensures
        forall|j: int|
            0 <= j < 81 && j != i ==> popcount(#[trigger] place(cells, i, d)[j]) <= popcount(
                cells[j],
            ),
        popcount(place(cells, i, d)[i]) == 1,
{
    lemma_count_bit(d as u16);
    assert forall|j: int| 0 <= j < 81 && j != i implies popcount(
        #[trigger] place(cells, i, d)[j],
    ) <= popcount(cells[j]) by {
        lemma_has_clear(cells[j], d as u16);
        lemma_count_mono(place(cells, i, d)[j], cells[j], 16);
    }
}

/// Placing a digit on a cell with two or more candidates lowers the total.
pub proof fn lemma_place_decreases(cells: Seq<u16>, i: int, d: int)
    requires
        cells.len() == 81,
        0 <= i < 81,
        1 <= d <= 9,
        holds(cells[i], d),
        popcount(cells[i]) >= 2,
    ensures
        total_candidates(place(cells, i, d)) < total_candidates(cells),
{
    lemma_place_counts(cells, i, d);
    lemma_total_mono(place(cells, i, d), cells, 81, i);
}

/// A cell that holds a digit and is not single has at least two candidates.
pub proof fn lemma_two_or_more(m: u16, d: int)
    requires
        holds(m, d),
        popcount(m) != 1,
    ensures
        popcount(m) >= 2,
{
    lemma_not_single(m, d);
}

} // verus!
