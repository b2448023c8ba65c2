//! The engine: techniques tried in order, a backtracking search for
//! solvability, and the diagnostics built on it.
use vstd::prelude::*;

use crate::grid::{is_solution, lemma_unit_cell, unit_cell, unit_seq};
use crate::mask::{holds, lemma_count_zero, lemma_single_digit, lemma_zero_iff_empty, lemma_test_bit, popcount, sole_digit};
use crate::solution::{
    consistent, digit_missing, lemma_solution_unit_covers, immediate_contradiction, lemma_all_single_solvable,
    lemma_contradiction_unsolvable, lemma_place_decreases, lemma_place_keeps, lemma_place_narrows,
    lemma_place_counts, lemma_total_le, lemma_two_or_more, solvable, total_candidates,
};
use crate::strategies::hidden_single::{can_hold, hidden_hints, hidden_source, holders, HiddenSingle};
use crate::strategies::naked_single::{naked_hints, naked_source, NakedSingle};
use crate::strategy::{
    apply_hint, assign_moves, flat_elims, hint_ok, bit, count_ones, first_hint, hint_views, is_single, opt_hint_view, Hint, HintLevel, HintView,
    Strategy,
};
use crate::sudoku::{lemma_place_within, place, BoardState, Sudoku};

verus! {

/// The techniques the engine knows.
#[derive(Clone, Copy, Debug, PartialEq, Eq, Structural)]
pub enum Technique {
    NakedSingle,
    HiddenSingle,
}

/// A hint engine: its techniques, tried in order.
pub struct Engine {
    strategies: Vec<Technique>,
}

impl View for Engine {
    type V = Seq<Technique>;

    closed spec fn view(&self) -> Seq<Technique> {
        self.strategies@
    }
}


/// The name of a technique.
pub open spec fn technique_name(t: Technique) -> Seq<char> {
    match t {
        Technique::NakedSingle => "Naked Single"@,
        Technique::HiddenSingle => "Hidden Single"@,
    }
}

/// The hints a technique finds on a board.
pub open spec fn technique_hints(t: Technique, s: BoardState, level: HintLevel) -> Seq<HintView> {
    match t {
        Technique::NakedSingle => naked_hints(s, level),
        Technique::HiddenSingle => hidden_hints(s, level),
    }
}

/// The first technique of `ts` that finds a hint, with that hint.
pub open spec fn first_found(ts: Seq<Technique>, s: BoardState, level: HintLevel) -> Option<
    (Technique, HintView),
>
    decreases ts.len(),
{
    if ts.len() == 0 {
        None
    } else if technique_hints(ts[0], s, level).len() > 0 {
        Some((ts[0], technique_hints(ts[0], s, level)[0]))
    } else {
        first_found(ts.drop_first(), s, level)
    }
}

/// The hint of `first_found`.
pub open spec fn found_hint(ts: Seq<Technique>, s: BoardState, level: HintLevel) -> Option<
    HintView,
> {
    match first_found(ts, s, level) {
        Some(p) => Some(p.1),
        None => None,
    }
}

/// The hint of `first_found`, with the name of its technique.
pub open spec fn found_named(ts: Seq<Technique>, s: BoardState, level: HintLevel) -> Option<
    (Seq<char>, HintView),
> {
    match first_found(ts, s, level) {
        Some(p) => Some((technique_name(p.0), p.1)),
        None => None,
    }
}

/// What a named hint means.
pub open spec fn named_view(r: Option<(String, Hint)>) -> Option<(Seq<char>, HintView)> {
    match r {
        Some(p) => Some((p.0@, p.1@)),
        None => None,
    }
}

/// The named hints of a list.
pub open spec fn named_views(v: Seq<(String, Hint)>) -> Seq<(Seq<char>, HintView)> {
    v.map_values(|p: (String, Hint)| (p.0@, p.1@))
}

/// `apply_next` on the board `s`: the next full hint is applied; it is
/// returned with its technique's name unless a cell was left empty.
pub open spec fn next_step(ts: Seq<Technique>, s: BoardState) -> (
    Option<(Seq<char>, HintView)>,
    BoardState,
) {
    match first_found(ts, s, HintLevel::Full) {
        None => (None, s),
        Some(p) => {
            let (ok, t) = apply_hint(s, p.1);
            (
                if ok {
                    Some((technique_name(p.0), p.1))
                } else {
                    None
                },
                t,
            )
        },
    }
}

/// Up to `n` steps of `apply_next`, stopping at the first that gives
/// nothing: the hints applied and the board reached.
pub open spec fn run_steps(ts: Seq<Technique>, s: BoardState, n: nat) -> (
    Seq<(Seq<char>, HintView)>,
    BoardState,
)
    decreases n,
{
    if n == 0 {
        (Seq::empty(), s)
    } else {
        let (r, t) = next_step(ts, s);
        match r {
            None => (Seq::empty(), t),
            Some(p) => {
                let (rest, u) = run_steps(ts, t, (n - 1) as nat);
                (seq![p] + rest, u)
            },
        }
    }
}

/// Each technique of `ts` with its hints, leaving out those without any.
pub open spec fn all_found(ts: Seq<Technique>, s: BoardState) -> Seq<(Seq<char>, Seq<HintView>)>
    decreases ts.len(),
{
    if ts.len() == 0 {
        Seq::empty()
    } else {
        let t = ts.last();
        let hs = technique_hints(t, s, HintLevel::Full);
        all_found(ts.drop_last(), s) + if hs.len() > 0 {
            seq![(technique_name(t), hs)]
        } else {
            Seq::empty()
        }
    }
}

/// The group a technique of `ts` contributes: its name and all its hints.
pub open spec fn group_of(ts: Seq<Technique>, s: BoardState, i: int) -> (Seq<char>, Seq<HintView>) {
    (technique_name(ts[i]), technique_hints(ts[i], s, HintLevel::Full))
}

/// `x` is the group of the technique at position `i` of `ts`, which finds a
/// hint.
pub open spec fn group_from(
    ts: Seq<Technique>,
    s: BoardState,
    x: (Seq<char>, Seq<HintView>),
    i: int,
) -> bool {
    &&& 0 <= i < ts.len()
    &&& technique_hints(ts[i], s, HintLevel::Full).len() > 0
    &&& x == group_of(ts, s, i)
}

/// `x` is the group of some technique of `ts` that finds a hint.
pub open spec fn group_of_some(ts: Seq<Technique>, s: BoardState, x: (Seq<char>, Seq<HintView>)) -> bool {
    exists|i: int| #[trigger] group_from(ts, s, x, i)
}

/// `x` and `y` are the groups of two techniques that find hints, the one of
/// `x` coming first in `ts`.
pub open spec fn groups_in_order(
    ts: Seq<Technique>,
    s: BoardState,
    x: (Seq<char>, Seq<HintView>),
    y: (Seq<char>, Seq<HintView>),
) -> bool {
    exists|i: int, j: int| i < j && #[trigger] group_from(ts, s, x, i) && #[trigger] group_from(ts, s, y, j)
}

/// All the hints, grouped: every technique that finds a hint contributes its
/// group, each group is that of a technique finding a hint, and the groups
/// keep the engine's order.
pub proof fn lemma_all_found_exact(ts: Seq<Technique>, s: BoardState)
    ensures
        forall|i: int|
            0 <= i < ts.len() && technique_hints(#[trigger] ts[i], s, HintLevel::Full).len() > 0
                ==> all_found(ts, s).contains(group_of(ts, s, i)),
        forall|k: int|
            0 <= k < all_found(ts, s).len() ==> #[trigger] group_of_some(ts, s, all_found(ts, s)[k]),
        forall|a: int, b: int|
            0 <= a < b < all_found(ts, s).len() ==> #[trigger] groups_in_order(
                ts,
                s,
                all_found(ts, s)[a],
                all_found(ts, s)[b],
            ),
    decreases ts.len(),
{
    if ts.len() > 0 {
        let pre = ts.drop_last();
        let n = ts.len() - 1;
        lemma_all_found_exact(pre, s);
        let prev = all_found(pre, s);
        let cur = all_found(ts, s);
        let hs = technique_hints(ts[n], s, HintLevel::Full);
        if hs.len() > 0 {
            assert(cur == prev.push(group_of(ts, s, n)));
        } else {
            assert(cur =~= prev);
        }
        assert forall|k: int| 0 <= k < prev.len() implies cur[k] == prev[k] by {}
        assert forall|x: (Seq<char>, Seq<HintView>), i: int|
            #[trigger] group_from(pre, s, x, i) implies group_from(ts, s, x, i) by {
            assert(pre[i] == ts[i]);
        }
        assert forall|i: int|
            0 <= i < ts.len() && technique_hints(#[trigger] ts[i], s, HintLevel::Full).len() > 0
                implies cur.contains(group_of(ts, s, i)) by {
            if i < n {
                assert(pre[i] == ts[i]);
                assert(group_of(pre, s, i) == group_of(ts, s, i));
                assert(prev.contains(group_of(pre, s, i)));
                let k = choose|k: int| 0 <= k < prev.len() && prev[k] == group_of(pre, s, i);
                assert(cur[k] == prev[k]);
            } else {
                assert(cur[prev.len() as int] == group_of(ts, s, n));
            }
        }
        assert forall|k: int| 0 <= k < cur.len() implies #[trigger] group_of_some(ts, s, cur[k]) by {
            if k < prev.len() {
                assert(group_of_some(pre, s, prev[k]));
                let i = choose|i: int| #[trigger] group_from(pre, s, prev[k], i);
                assert(group_from(ts, s, cur[k], i));
            } else {
                assert(group_from(ts, s, cur[k], n));
            }
        }
        assert forall|a: int, b: int| 0 <= a < b < cur.len() implies #[trigger] groups_in_order(
            ts,
            s,
            cur[a],
            cur[b],
        ) by {
            if b < prev.len() {
                assert(groups_in_order(pre, s, prev[a], prev[b]));
                let (i, j) = choose|i: int, j: int|
                    i < j && #[trigger] group_from(pre, s, prev[a], i) && #[trigger] group_from(pre, s, prev[b], j);
                assert(group_from(ts, s, cur[a], i));
                assert(group_from(ts, s, cur[b], j));
            } else {
                assert(group_of_some(pre, s, prev[a]));
                let i = choose|i: int| #[trigger] group_from(pre, s, prev[a], i);
                assert(group_from(ts, s, cur[a], i));
                assert(group_from(ts, s, cur[b], n));
            }
        }
    }
}

/// What a list of named hint lists means.
pub open spec fn group_views(v: Seq<(String, Vec<Hint>)>) -> Seq<(Seq<char>, Seq<HintView>)> {
    v.map_values(|p: (String, Vec<Hint>)| (p.0@, hint_views(p.1@)))
}

/// The number of cells not yet confirmed among the first `n`.
pub open spec fn unconfirmed_from(c: Seq<bool>, n: int) -> nat
    decreases n,
{
    if n <= 0 {
        0
    } else {
        unconfirmed_from(c, n - 1) + if c[n - 1] {
            0nat
        } else {
            1nat
        }
    }
}

/// What every applied hint lowers: candidates left plus cells not confirmed.
pub open spec fn progress_measure(s: BoardState) -> nat {
    total_candidates(s.cells) + unconfirmed_from(s.confirmed, 81)
}

/// `steps` hints were applied from `s0` and the board is now `cur`: every
/// longer run from `s0` continues from `cur`.
pub open spec fn run_continues(
    ts: Seq<Technique>,
    s0: BoardState,
    steps: Seq<(Seq<char>, HintView)>,
    cur: BoardState,
) -> bool {
    forall|n: nat|
        #![trigger run_steps(ts, cur, n)]
        run_steps(ts, s0, (steps.len() + n) as nat) == (
            steps + run_steps(ts, cur, n).0,
            run_steps(ts, cur, n).1,
        )
}

pub proof fn lemma_unconfirmed_update(c: Seq<bool>, i: int, n: int)
    requires
        0 <= i < c.len(),
        n <= c.len(),
    ensures
        unconfirmed_from(c.update(i, true), n) <= unconfirmed_from(c, n),
        0 <= i < n && !c[i] ==> unconfirmed_from(c.update(i, true), n) < unconfirmed_from(c, n),
    decreases n,
{
    if n > 0 {
        lemma_unconfirmed_update(c, i, n - 1);
    }
}

/// The hint of `first_found` is the first hint of its technique.
proof fn lemma_first_found(ts: Seq<Technique>, s: BoardState, level: HintLevel)
    ensures
        first_found(ts, s, level) matches Some(p) ==> technique_hints(p.0, s, level).len() > 0
            && p.1 == technique_hints(p.0, s, level)[0],
    decreases ts.len(),
{
    if ts.len() > 0 && technique_hints(ts[0], s, level).len() == 0 {
        lemma_first_found(ts.drop_first(), s, level);
    }
}

/// Applying the full hint of one cell and one digit, when the cell holds the
/// digit.
proof fn lemma_apply_single(s: BoardState, h: HintView, c: int, d: int)
    requires
        s.wf(),
        0 <= c < 81,
        1 <= d <= 9,
        holds(s.cells[c], d),
        h.assignments == seq![(c as usize, d as u8)],
        h.eliminations == Seq::<(usize, Seq<u8>)>::empty(),
    ensures
        hint_ok(h),
        apply_hint(s, h) == (true, s.assign(c, d)),
        s.assign(c, d).wf(),
        total_candidates(s.assign(c, d).cells) <= total_candidates(s.cells),
        popcount(s.cells[c]) >= 2 ==> total_candidates(s.assign(c, d).cells) < total_candidates(
            s.cells,
        ),
        !s.confirmed[c] ==> unconfirmed_from(s.assign(c, d).confirmed, 81) < unconfirmed_from(
            s.confirmed,
            81,
        ),
        unconfirmed_from(s.assign(c, d).confirmed, 81) <= unconfirmed_from(s.confirmed, 81),
{
    assert(seq![(c as usize, d as u8)].drop_first() =~= Seq::<(usize, u8)>::empty());
    let t = s.assign(c, d);
    assert(h.assignments[0] == (c as usize, d as u8));
    assert(assign_moves(t, Seq::<(usize, u8)>::empty()) == t);
    assert(assign_moves(s, h.assignments) == t);
    assert(flat_elims(h.eliminations) =~= Seq::<(usize, u8)>::empty());
    lemma_place_within(s.cells, c, d);
    lemma_place_counts(s.cells, c, d);
    lemma_zero_iff_empty(s.cells[c]);
    lemma_count_zero(s.cells[c]);
    assert forall|j: int| 0 <= j < 81 implies popcount(#[trigger] s.assign(c, d).cells[j])
        <= popcount(s.cells[j]) by {}
    lemma_total_le(s.assign(c, d).cells, s.cells, 81);
    if popcount(s.cells[c]) >= 2 {
        lemma_place_decreases(s.cells, c, d);
    }
    lemma_unconfirmed_update(s.confirmed, c, 81);
}

/// Every hint of a technique can be applied; a full hint goes through and
/// lowers the progress measure.
pub proof fn lemma_technique_hint(t: Technique, s: BoardState, level: HintLevel, k: int)
    requires
        s.wf(),
        0 <= k < technique_hints(t, s, level).len(),
    ensures
        hint_ok(technique_hints(t, s, level)[k]),
        level == HintLevel::Full ==> apply_hint(s, technique_hints(t, s, level)[k]).0,
        level == HintLevel::Full ==> apply_hint(s, technique_hints(t, s, level)[k]).1.wf(),
        level == HintLevel::Full ==> progress_measure(
            apply_hint(s, technique_hints(t, s, level)[k]).1,
        ) < progress_measure(s),
{
    let h = technique_hints(t, s, level)[k];
    match t {
        Technique::NakedSingle => {
            let i = naked_source(s, 81, level, k);
            let d = sole_digit(s.cells[i]);
            if level == HintLevel::Full {
                lemma_apply_single(s, h, i, d);
            } else {
                assert(hint_ok(h));
            }
        },
        Technique::HiddenSingle => {
            let (u, d) = hidden_source(s, 243, level, k);
            let c = holders(s, u, d)[0] as int;
            if level == HintLevel::Full {
                lemma_two_or_more(s.cells[c], d);
                lemma_apply_single(s, h, c, d);
            } else {
                assert(hint_ok(h));
            }
        },
    }
}

/// A step of `apply_next` that gives a hint lowers the progress measure.
pub proof fn lemma_next_step(ts: Seq<Technique>, s: BoardState)
    requires
        s.wf(),
    ensures
        next_step(ts, s).1.wf(),
        next_step(ts, s).0 is Some ==> progress_measure(next_step(ts, s).1) < progress_measure(s),
{
    lemma_first_found(ts, s, HintLevel::Full);
    if let Some(p) = first_found(ts, s, HintLevel::Full) {
        lemma_technique_hint(p.0, s, HintLevel::Full, 0);
    }
}

/// Soundness of the techniques: the digit a full hint writes is the digit
/// of that cell in every solution that agrees with the board.
pub proof fn lemma_hint_sound(t: Technique, s: BoardState, k: int, g: Seq<int>)
    requires
        s.wf(),
        0 <= k < technique_hints(t, s, HintLevel::Full).len(),
        is_solution(g),
        consistent(g, s.cells),
    ensures
        technique_hints(t, s, HintLevel::Full)[k].assignments.len() == 1,
        g[technique_hints(t, s, HintLevel::Full)[k].assignments[0].0 as int]
            == technique_hints(t, s, HintLevel::Full)[k].assignments[0].1,
{
    match t {
        Technique::NakedSingle => {
            let i = naked_source(s, 81, HintLevel::Full, k);
            lemma_single_digit(s.cells[i]);
            assert(holds(s.cells[i], g[i]));
        },
        Technique::HiddenSingle => {
            let (u, d) = hidden_source(s, 243, HintLevel::Full, k);
            let h = holders(s, u, d);
            lemma_solution_unit_covers(g, u, d);
            let x = choose|x: int| 0 <= x < 9 && g[unit_cell(u, x)] == d;
            lemma_unit_cell(u, x);
            let c = unit_cell(u, x);
            assert(holds(s.cells[c], d));
            assert(unit_seq(u)[x] == c as usize);
            unit_seq(u).lemma_filter_contains(can_hold(s, d), x);
            assert(h.contains(c as usize));
        },
    }
}

/// Applying the next hint keeps every solution of the board.
pub proof fn lemma_step_keeps_solutions(ts: Seq<Technique>, s: BoardState, g: Seq<int>)
    requires
        s.wf(),
        is_solution(g),
        consistent(g, s.cells),
    ensures
        consistent(g, next_step(ts, s).1.cells),
{
    lemma_first_found(ts, s, HintLevel::Full);
    if let Some(p) = first_found(ts, s, HintLevel::Full) {
        lemma_hint_sound(p.0, s, 0, g);
        let h = p.1;
        let c = h.assignments[0].0 as int;
        let d = h.assignments[0].1 as int;
        lemma_technique_hint(p.0, s, HintLevel::Full, 0);
        match p.0 {
            Technique::NakedSingle => {
                let i = naked_source(s, 81, HintLevel::Full, 0);
                lemma_single_digit(s.cells[i]);
                lemma_apply_single(s, h, c, d);
            },
            Technique::HiddenSingle => {
                let (u, dd) = hidden_source(s, 243, HintLevel::Full, 0);
                lemma_two_or_more(s.cells[holders(s, u, dd)[0] as int], dd);
                lemma_apply_single(s, h, c, d);
            },
        }
        lemma_place_keeps(s.cells, g, c);
    }
}

/// Solving step by step keeps every solution of the board: the hints of
/// the techniques never rule out a solution.
pub proof fn lemma_run_keeps_solutions(ts: Seq<Technique>, s: BoardState, n: nat, g: Seq<int>)
    requires
        s.wf(),
        is_solution(g),
        consistent(g, s.cells),
    ensures
        consistent(g, run_steps(ts, s, n).1.cells),
    decreases n,
{
    if n > 0 {
        lemma_step_keeps_solutions(ts, s, g);
        lemma_next_step(ts, s);
        let t = next_step(ts, s).1;
        if next_step(ts, s).0 is Some {
            lemma_run_keeps_solutions(ts, t, (n - 1) as nat, g);
        }
    }
}

/// A step of `apply_next` that gives nothing leaves the board as it was, and
/// so do all later steps.
proof fn lemma_stuck(ts: Seq<Technique>, s: BoardState)
    requires
        s.wf(),
        next_step(ts, s).0 is None,
    ensures
        next_step(ts, s).1 == s,
        forall|n: nat| #[trigger] run_steps(ts, s, n) == (Seq::<(Seq<char>, HintView)>::empty(), s),
{
    lemma_first_found(ts, s, HintLevel::Full);
    if let Some(p) = first_found(ts, s, HintLevel::Full) {
        lemma_technique_hint(p.0, s, HintLevel::Full, 0);
    }
    assert forall|n: nat| #[trigger] run_steps(ts, s, n) == (
        Seq::<(Seq<char>, HintView)>::empty(),
        s,
    ) by {}
}

/// Running `a` steps and then `b` more is running `a + b` steps.
pub proof fn lemma_run_split(ts: Seq<Technique>, s: BoardState, a: nat, b: nat)
    requires
        s.wf(),
    ensures
        run_steps(ts, s, a + b) == (
            run_steps(ts, s, a).0 + run_steps(ts, run_steps(ts, s, a).1, b).0,
            run_steps(ts, run_steps(ts, s, a).1, b).1,
        ),
    decreases a,
{
    if a == 0 {
        assert(Seq::<(Seq<char>, HintView)>::empty() + run_steps(ts, s, b).0 =~= run_steps(
            ts,
            s,
            b,
        ).0);
    } else {
        lemma_next_step(ts, s);
        let (r, t) = next_step(ts, s);
        match r {
            None => {
                lemma_stuck(ts, s);
                assert(run_steps(ts, s, b) == (Seq::<(Seq<char>, HintView)>::empty(), s));
                assert(Seq::<(Seq<char>, HintView)>::empty() + Seq::<(Seq<char>, HintView)>::empty()
                    =~= Seq::<(Seq<char>, HintView)>::empty());
            },
            Some(p) => {
                lemma_run_split(ts, t, (a - 1) as nat, b);
                assert((a + b - 1) as nat == ((a - 1) as nat + b) as nat);
                let r1 = run_steps(ts, t, (a - 1) as nat);
                let r2 = run_steps(ts, r1.1, b);
                assert(seq![p] + (r1.0 + r2.0) =~= (seq![p] + r1.0) + r2.0);
            },
        }
    }
}

/// Solving with a step limit and then without one gives exactly what solving
/// without a limit gives: the same hints, in order, and the same board.
pub proof fn lemma_stepwise_resume(
    ts: Seq<Technique>,
    s: BoardState,
    k: nat,
    r1: Seq<(Seq<char>, HintView)>,
    x1: BoardState,
    r2: Seq<(Seq<char>, HintView)>,
    x2: BoardState,
)
    requires
        s.wf(),
        run_steps(ts, s, k) == (r1, x1),
        forall|n: nat| n > r2.len() ==> #[trigger] run_steps(ts, x1, n) == (r2, x2),
    ensures
        forall|n: nat| n > k + r2.len() ==> #[trigger] run_steps(ts, s, n) == (r1 + r2, x2),
{
    assert forall|n: nat| n > k + r2.len() implies #[trigger] run_steps(ts, s, n) == (
        r1 + r2,
        x2,
    ) by {
        let m = (n - k) as nat;
        lemma_run_split(ts, s, k, m);
        assert(n == k + m);
        assert(run_steps(ts, x1, m) == (r2, x2));
    }
}

proof fn lemma_first_found_index(ts: Seq<Technique>, s: BoardState, level: HintLevel)
    ensures
        forall|i: int|
            0 <= i < ts.len() && technique_hints(#[trigger] ts[i], s, level).len() > 0 && (forall|j: int|
                0 <= j < i ==> technique_hints(ts[j], s, level).len() == 0) ==> first_found(ts, s, level)
                == Some((ts[i], technique_hints(ts[i], s, level)[0])),
        (forall|j: int| 0 <= j < ts.len() ==> technique_hints(#[trigger] ts[j], s, level).len() == 0)
            ==> first_found(ts, s, level) is None,
    decreases ts.len(),
{
    if ts.len() > 0 {
        let rest = ts.drop_first();
        lemma_first_found_index(rest, s, level);
        assert forall|i: int|
            0 <= i < ts.len() && technique_hints(#[trigger] ts[i], s, level).len() > 0 && (forall|j: int|
                0 <= j < i ==> technique_hints(ts[j], s, level).len() == 0) implies first_found(
            ts,
            s,
            level,
        ) == Some((ts[i], technique_hints(ts[i], s, level)[0])) by {
            if i > 0 {
                assert(technique_hints(ts[0], s, level).len() == 0);
                assert(rest[i - 1] == ts[i]);
                assert forall|j: int| 0 <= j < i - 1 implies technique_hints(rest[j], s, level).len()
                    == 0 by {
                    assert(rest[j] == ts[j + 1]);
                }
            }
        }
        if forall|j: int| 0 <= j < ts.len() ==> technique_hints(#[trigger] ts[j], s, level).len() == 0 {
            assert(technique_hints(ts[0], s, level).len() == 0);
            assert forall|j: int| 0 <= j < rest.len() implies technique_hints(#[trigger] rest[j], s, level).len()
                == 0 by {
                assert(rest[j] == ts[j + 1]);
            }
        }
    }
}

/// The engine's next hint is the first hint of the first technique, in the
/// engine's order, that finds any hint; there is one exactly when some
/// technique finds a hint. The named form pairs it with that technique's
/// name.
pub proof fn lemma_next_hint_first(ts: Seq<Technique>, s: BoardState, level: HintLevel)
    ensures
        found_hint(ts, s, level) is Some <==> exists|i: int|
            0 <= i < ts.len() && technique_hints(#[trigger] ts[i], s, level).len() > 0,
        forall|i: int|
            0 <= i < ts.len() && technique_hints(#[trigger] ts[i], s, level).len() > 0 && (forall|j: int|
                0 <= j < i ==> technique_hints(ts[j], s, level).len() == 0) ==> found_hint(ts, s, level)
                == Some(technique_hints(ts[i], s, level)[0]) && found_named(ts, s, level) == Some(
                (technique_name(ts[i]), technique_hints(ts[i], s, level)[0]),
            ),
{
    lemma_first_found_index(ts, s, level);
    if exists|i: int| 0 <= i < ts.len() && technique_hints(#[trigger] ts[i], s, level).len() > 0 {
        let i = choose|i: int| 0 <= i < ts.len() && technique_hints(#[trigger] ts[i], s, level).len() > 0;
        lemma_least_nonempty(ts, s, level, i);
    }
}

/// Some technique at or before `i` is the first to find a hint.
proof fn lemma_least_nonempty(ts: Seq<Technique>, s: BoardState, level: HintLevel, i: int)
    requires
        0 <= i < ts.len(),
        technique_hints(ts[i], s, level).len() > 0,
    ensures
        exists|m: int|
            0 <= m <= i && technique_hints(#[trigger] ts[m], s, level).len() > 0 && (forall|j: int|
                0 <= j < m ==> technique_hints(ts[j], s, level).len() == 0),
    decreases i,
{
    if exists|j: int| 0 <= j < i && technique_hints(#[trigger] ts[j], s, level).len() > 0 {
        let j = choose|j: int| 0 <= j < i && technique_hints(#[trigger] ts[j], s, level).len() > 0;
        lemma_least_nonempty(ts, s, level, j);
    } else {
        assert(forall|j: int| 0 <= j < i ==> technique_hints(ts[j], s, level).len() == 0);
    }
}

/// The technique's name.
fn technique_str(t: Technique) -> (r: &'static str)
    ensures
        r@ == technique_name(t),
{
    match t {
        Technique::NakedSingle => NakedSingle.name(),
        Technique::HiddenSingle => HiddenSingle.name(),
    }
}

/// The first hint of one technique.
fn technique_find(t: Technique, sdk: &Sudoku, level: HintLevel) -> (r: Option<Hint>)
    requires
        sdk.wf(),
    ensures
        opt_hint_view(r) == first_hint(technique_hints(t, sdk@, level)),
{
    match t {
        Technique::NakedSingle => NakedSingle.find_with_level(sdk, level),
        Technique::HiddenSingle => HiddenSingle.find_with_level(sdk, level),
    }
}

/// All hints of one technique.
fn technique_find_all(t: Technique, sdk: &Sudoku) -> (r: Vec<Hint>)
    requires
        sdk.wf(),
    ensures
        hint_views(r@) == technique_hints(t, sdk@, HintLevel::Full),
{
    match t {
        Technique::NakedSingle => NakedSingle.find_all(sdk),
        Technique::HiddenSingle => HiddenSingle.find_all(sdk),
    }
}

impl Engine {
    /// The basic engine: Naked Single first, then Hidden Single.
    pub fn basic() -> (r: Self)
        ensures
            r@ == seq![Technique::NakedSingle, Technique::HiddenSingle],
    {
        let strategies = vec![Technique::NakedSingle, Technique::HiddenSingle];
        Engine { strategies }
    }

    /// The first technique, in order, that finds a hint, with that hint.
    fn search(&self, sdk: &Sudoku, level: HintLevel) -> (r: Option<(Technique, Hint)>)
        requires
            sdk.wf(),
        ensures
            match first_found(self@, sdk@, level) {
                Some(p) => r matches Some(q) && q.0 == p.0 && q.1@ == p.1,
                None => r is None,
            },
    {
        let mut i: usize = 0;
        assert(self@.skip(0) =~= self@);
        while i < self.strategies.len()
            invariant
                0 <= i <= self@.len(),
                sdk.wf(),
                first_found(self@, sdk@, level) == first_found(self@.skip(i as int), sdk@, level),
            decreases self@.len() - i,
        {
            let t = self.strategies[i];
            assert(self@.skip(i as int)[0] == t);
            assert(self@.skip(i as int).drop_first() =~= self@.skip(i + 1));
            if let Some(h) = technique_find(t, sdk, level) {
                return Some((t, h));
            }
            i += 1;
        }
        None
    }

    /// The next hint: the first found by the techniques in order.
    pub fn next_hint(&self, sdk: &Sudoku) -> (r: Option<Hint>)
        requires
            sdk.wf(),
        ensures
            opt_hint_view(r) == found_hint(self@, sdk@, HintLevel::Full),
    {
        match self.search(sdk, HintLevel::Full) {
            Some((_, h)) => Some(h),
            None => None,
        }
    }

    /// The next hint with the name of the technique that found it.
    pub fn next_hint_with_name(&self, sdk: &Sudoku) -> (r: Option<(String, Hint)>)
        requires
            sdk.wf(),
        ensures
            named_view(r) == found_named(self@, sdk@, HintLevel::Full),
    {
        match self.search(sdk, HintLevel::Full) {
            Some((t, h)) => Some((technique_str(t).to_owned(), h)),
            None => None,
        }
    }

    /// The next hint at the given level.
    pub fn next_hint_with_level(&self, sdk: &Sudoku, level: HintLevel) -> (r: Option<Hint>)
        requires
            sdk.wf(),
        ensures
            opt_hint_view(r) == found_hint(self@, sdk@, level),
    {
        match self.search(sdk, level) {
            Some((_, h)) => Some(h),
            None => None,
        }
    }

    /// The next hint at the given level, with the name of its technique.
    pub fn next_hint_with_name_and_level(&self, sdk: &Sudoku, level: HintLevel) -> (r: Option<
        (String, Hint),
    >)
        requires
            sdk.wf(),
        ensures
            named_view(r) == found_named(self@, sdk@, level),
    {
        match self.search(sdk, level) {
            Some((t, h)) => Some((technique_str(t).to_owned(), h)),
            None => None,
        }
    }


    /// Applies the next hint. Returns it with its technique's name, or
    /// `None` when there is no hint or applying it left a cell empty.
    pub fn apply_next(&self, sdk: &mut Sudoku) -> (r: Option<(String, Hint)>)
        requires
            old(sdk).wf(),
        ensures
            final(sdk).wf(),
            named_view(r) == next_step(self@, old(sdk)@).0,
            final(sdk)@ == next_step(self@, old(sdk)@).1,
    {
        proof {
            sdk.lemma_wf();
            lemma_first_found(self@, sdk@, HintLevel::Full);
        }
        let (name, hint) = match self.next_hint_with_name(sdk) {
            Some(p) => p,
            None => return None,
        };
        proof {
            let p = first_found(self@, sdk@, HintLevel::Full)->0;
            lemma_technique_hint(p.0, sdk@, HintLevel::Full, 0);
        }
        match hint.apply_to(sdk) {
            Ok(()) => Some((name, hint)),
            Err(()) => None,
        }
    }

    /// Applies hints one after another until none is found, or until
    /// `max_steps` were applied. Returns the applied hints in order.
    pub fn solve_stepwise(&self, sdk: &mut Sudoku, max_steps: Option<usize>) -> (r: Vec<
        (String, Hint),
    >)
        requires
            old(sdk).wf(),
        ensures
            final(sdk).wf(),
            max_steps matches Some(m) ==> run_steps(self@, old(sdk)@, m as nat) == (
                named_views(r@),
                final(sdk)@,
            ),
            max_steps is None ==> forall|n: nat|
                n > r@.len() ==> #[trigger] run_steps(self@, old(sdk)@, n) == (
                    named_views(r@),
                    final(sdk)@,
                ),
    {
        let ghost ts = self@;
        let ghost s0 = sdk@;
        let mut applied: Vec<(String, Hint)> = Vec::new();
        proof {
            sdk.lemma_wf();
            assert forall|n: nat| #![trigger run_steps(ts, s0, n)] run_steps(
                ts,
                s0,
                (named_views(applied@).len() + n) as nat,
            ) == (named_views(applied@) + run_steps(ts, s0, n).0, run_steps(ts, s0, n).1) by {
                assert(named_views(applied@) + run_steps(ts, s0, n).0 =~= run_steps(ts, s0, n).0);
            }
        }
        loop
            invariant_except_break
                run_continues(ts, s0, named_views(applied@), sdk@),
            invariant
                sdk.wf(),
                sdk@.wf(),
                ts == self@,
                max_steps matches Some(m) ==> applied@.len() <= m,
            ensures
                sdk.wf(),
                max_steps matches Some(m) ==> run_steps(ts, s0, m as nat) == (
                    named_views(applied@),
                    sdk@,
                ),
                max_steps is None ==> forall|n: nat|
                    n > applied@.len() ==> #[trigger] run_steps(ts, s0, n) == (
                        named_views(applied@),
                        sdk@,
                    ),
            decreases progress_measure(sdk@),
        {
            let go = match max_steps {
                Some(m) => applied.len() < m,
                None => true,
            };
            if !go {
                proof {
                    let m = max_steps->0;
                    assert(run_steps(ts, sdk@, 0) == (Seq::<(Seq<char>, HintView)>::empty(), sdk@));
                    assert(named_views(applied@) + Seq::<(Seq<char>, HintView)>::empty()
                        =~= named_views(applied@));
                    assert(m as nat == (named_views(applied@).len() + 0) as nat);
                }
                break ;
            }
            let ghost cur = sdk@;
            proof {
                lemma_next_step(ts, cur);
            }
            match self.apply_next(sdk) {
                Some(p) => {
                    let ghost prev = applied@;
                    applied.push(p);
                    proof {
                        let step = (p.0@, p.1@);
                        assert(named_views(applied@) =~= named_views(prev).push(step));
                        assert forall|n: nat| #![trigger run_steps(ts, sdk@, n)] run_steps(
                            ts,
                            s0,
                            (named_views(applied@).len() + n) as nat,
                        ) == (
                            named_views(applied@) + run_steps(ts, sdk@, n).0,
                            run_steps(ts, sdk@, n).1,
                        ) by {
                            assert(run_steps(ts, cur, n + 1) == (
                                seq![step] + run_steps(ts, sdk@, n).0,
                                run_steps(ts, sdk@, n).1,
                            ));
                            assert((named_views(prev).len() + (n + 1)) as nat == (named_views(
                                applied@,
                            ).len() + n) as nat);
                            assert(named_views(prev) + (seq![step] + run_steps(ts, sdk@, n).0)
                                =~= named_views(applied@) + run_steps(ts, sdk@, n).0);
                        }
                    }
                },
                None => {
                    proof {
                        assert forall|n: nat| n > applied@.len() implies #[trigger] run_steps(
                            ts,
                            s0,
                            n,
                        ) == (named_views(applied@), sdk@) by {
                            let k = (n - named_views(applied@).len()) as nat;
                            assert(run_steps(ts, cur, k) == (
                                Seq::<(Seq<char>, HintView)>::empty(),
                                sdk@,
                            ));
                            assert(named_views(applied@) + Seq::<(Seq<char>, HintView)>::empty()
                                =~= named_views(applied@));
                        }
                    }
                    break ;
                },
            }
        }
        applied
    }

    /// Every technique with all its hints, leaving out those that find none.
    pub fn all_hints(&self, sdk: &Sudoku) -> (r: Vec<(String, Vec<Hint>)>)
        requires
            sdk.wf(),
        ensures
            group_views(r@) == all_found(self@, sdk@),
    {
        let mut out: Vec<(String, Vec<Hint>)> = Vec::new();
        let mut i: usize = 0;
        while i < self.strategies.len()
            invariant
                0 <= i <= self@.len(),
                sdk.wf(),
                group_views(out@) == all_found(self@.take(i as int), sdk@),
            decreases self@.len() - i,
        {
            let t = self.strategies[i];
            let hints = technique_find_all(t, sdk);
            proof {
                assert(self@.take(i + 1).drop_last() =~= self@.take(i as int));
                assert(self@.take(i + 1).last() == t);
            }
            if hints.len() > 0 {
                let name = technique_str(t).to_owned();
                let ghost prev = out@;
                out.push((name, hints));
                proof {
                    assert(group_views(out@) =~= group_views(prev).push(
                        (technique_name(t), technique_hints(t, sdk@, HintLevel::Full)),
                    ));
                }
            }
            i += 1;
        }
        proof {
            assert(self@.take(self@.len() as int) =~= self@);
        }
        out
    }
}

impl Engine {
    /// Whether some completed grid agrees with every candidate of `sdk`
    /// (backtracking over the cell with the fewest candidates).
    pub fn has_solution(sdk: &Sudoku) -> (r: bool)
        requires
            sdk.wf(),
        ensures
            r == solvable(sdk@.cells),
        decreases total_candidates(sdk@.cells),
    {
        proof {
            sdk.lemma_wf();
        }
        let ghost cells = sdk@.cells;
        if Self::has_immediate_contradiction(sdk) {
            proof {
                lemma_contradiction_unsolvable(cells);
            }
            return false;
        }
        let mut all_single = true;
        let mut j: usize = 0;
        while j < 81
            invariant
                0 <= j <= 81,
                sdk.wf(),
                cells == sdk@.cells,
                cells.len() == 81,
                all_single == forall|x: int| 0 <= x < j ==> popcount(#[trigger] cells[x]) == 1,
            decreases 81 - j,
        {
            if !is_single(sdk.cell_mask(j)) {
                all_single = false;
            }
            j += 1;
        }
        if all_single {
            proof {
                lemma_all_single_solvable(cells);
            }
            return true;
        }
        let mut best_i: Option<usize> = None;
        let mut best_cnt: u32 = u32::MAX;
        let mut i: usize = 0;
        while i < 81
            invariant
                0 <= i <= 81,
                sdk.wf(),
                cells == sdk@.cells,
                cells.len() == 81,
                best_i matches Some(b) ==> b < 81 && popcount(cells[b as int]) >= 2,
                best_i is None ==> best_cnt == u32::MAX,
                best_i is None ==> forall|x: int| 0 <= x < i ==> popcount(#[trigger] cells[x]) < 2,
            ensures
                best_i matches Some(b) ==> b < 81 && popcount(cells[b as int]) >= 2,
                best_i is None ==> forall|x: int| 0 <= x < 81 ==> popcount(#[trigger] cells[x]) < 2,
            decreases 81 - i,
        {
            let mask = sdk.cell_mask(i);
            let cnt = count_ones(mask);
            if cnt >= 2 && cnt < best_cnt {
                best_cnt = cnt;
                best_i = Some(i);
                if cnt == 2 {
                    break;
                }
            }
            i += 1;
        }
        let i = match best_i {
            Some(i) => i,
            None => {
                proof {
                    let x = choose|x: int| 0 <= x < 81 && popcount(#[trigger] cells[x]) != 1;
                    lemma_count_zero(cells[x]);
                    assert(cells[x] != 0);
                }
                return true;
            },
        };
        let mask = sdk.cell_mask(i);
        let mut d: u8 = 1;
        while d <= 9
            invariant
                1 <= d <= 10,
                i < 81,
                sdk.wf(),
                cells == sdk@.cells,
                cells.len() == 81,
                mask == cells[i as int],
                popcount(mask) >= 2,
                forall|x: int|
                    1 <= x < d && holds(mask, x) ==> !#[trigger] solvable(
                        place(cells, i as int, x),
                    ),
            decreases 10 - d,
        {
            proof {
                lemma_test_bit(mask, d as u16);
            }
            if mask & bit(d) != 0 {
                let mut next = sdk.duplicate();
                let assigned = next.assign(i, d);
                proof {
                    lemma_place_decreases(cells, i as int, d as int);
                    assert(next@.cells == place(cells, i as int, d as int));
                }
                if assigned.is_ok() {
                    if Self::has_solution(&next) {
                        proof {
                            lemma_place_narrows(cells, i as int, d as int);
                        }
                        return true;
                    }
                }
            }
            d += 1;
        }
        proof {
            if solvable(cells) {
                let g = choose|g: Seq<int>| crate::grid::is_solution(g) && consistent(g, cells);
                lemma_place_keeps(cells, g, i as int);
                assert(holds(mask, g[i as int]));
            }
        }
        false
    }

    /// Whether a cell has no candidate, or some unit has no place for some
    /// digit.
    fn has_immediate_contradiction(sdk: &Sudoku) -> (r: bool)
        requires
            sdk.wf(),
        ensures
            r == immediate_contradiction(sdk@.cells),
    {
        proof {
            sdk.lemma_wf();
        }
        let ghost cells = sdk@.cells;
        let mut i: usize = 0;
        while i < 81
            invariant
                0 <= i <= 81,
                sdk.wf(),
                cells == sdk@.cells,
                cells.len() == 81,
                forall|x: int| 0 <= x < i ==> #[trigger] cells[x] != 0,
            decreases 81 - i,
        {
            if sdk.cell_mask(i) == 0 {
                return true;
            }
            i += 1;
        }
        let units = sdk.units();
        let mut u: usize = 0;
        while u < 27
            invariant
                0 <= u <= 27,
                sdk.wf(),
                cells == sdk@.cells,
                cells.len() == 81,
                units@.len() == 27,
                forall|v: int| 0 <= v < 27 ==> #[trigger] units@[v]@ == crate::grid::unit_seq(v),
                forall|x: int| 0 <= x < 81 ==> #[trigger] cells[x] != 0,
                forall|v: int, x: int|
                    0 <= v < u && 1 <= x <= 9 ==> !#[trigger] digit_missing(cells, v, x),
            decreases 27 - u,
        {
            let unit = &units[u];
            let mut d: u8 = 1;
            while d <= 9
                invariant
                    1 <= d <= 10,
                    u < 27,
                    sdk.wf(),
                    cells == sdk@.cells,
                cells.len() == 81,
                    unit@ == crate::grid::unit_seq(u as int),
                    forall|x: int| 1 <= x < d ==> !#[trigger] digit_missing(cells, u as int, x),
                decreases 10 - d,
            {
                let m = bit(d);
                let mut found = false;
                let mut k: usize = 0;
                while k < 9
                    invariant
                        0 <= k <= 9,
                        1 <= d <= 9,
                        u < 27,
                        sdk.wf(),
                        cells == sdk@.cells,
                cells.len() == 81,
                        m == 1u16 << d,
                        unit@ == crate::grid::unit_seq(u as int),
                        found == exists|y: int|
                            0 <= y < k && holds(#[trigger] cells[unit_cell(u as int, y)], d as int),
                    decreases 9 - k,
                {
                    let c = unit[k];
                    proof {
                        lemma_unit_cell(u as int, k as int);
                        lemma_test_bit(cells[c as int], d as u16);
                        assert(c as int == unit_cell(u as int, k as int));
                    }
                    if sdk.cell_mask(c) & m != 0 {
                        found = true;
                    }
                    k += 1;
                }
                if !found {
                    proof {
                        assert(digit_missing(cells, u as int, d as int));
                    }
                    return true;
                }
                d += 1;
            }
            u += 1;
        }
        false
    }
}

} // verus!
