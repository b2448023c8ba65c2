//! Naked Single: a cell with exactly one candidate left takes that digit.
use vstd::prelude::*;

use crate::mask::{holds, lemma_single_digit, popcount, sole_digit};
use crate::strategy::{
    hint_views, is_single, single_digit, take_first, Hint, HintLevel,
    HintView, Strategy,
};
use crate::sudoku::{BoardState, Sudoku};
use crate::text::{digit_str, digit_text};

verus! {

/// Finds the cells, not yet confirmed, with a single candidate.
pub struct NakedSingle;

/// "Cell (r,c) has a single candidate d, so it is settled."
pub open spec fn naked_full_text(i: int, d: int) -> Seq<char> {
    "セル("@ + digit_text(i / 9 + 1) + ","@ + digit_text(i % 9 + 1) + ") は候補が1つ "@
        + digit_text(d) + " なので確定（Naked Single）"@
}

/// "Look at cell (r,c)."
pub open spec fn naked_weak_text(i: int) -> Seq<char> {
    "セル("@ + digit_text(i / 9 + 1) + ","@ + digit_text(i % 9 + 1) + ") に注目（Naked Single）"@
}

/// The hint for cell `i` with its sole digit `d`: at full level the cell
/// and the digit to write; at weak level only the cell to look at.
pub open spec fn naked_hint(i: int, d: int, level: HintLevel) -> HintView {
    match level {
        HintLevel::Full => HintView {
            description: naked_full_text(i, d),
            assignments: seq![(i as usize, d as u8)],
            eliminations: Seq::empty(),
        },
        HintLevel::Weak => HintView {
            description: naked_weak_text(i),
            assignments: Seq::empty(),
            eliminations: Seq::empty(),
        },
    }
}

/// The hints for the first `n` cells: each cell not confirmed whose mask
/// has exactly one bit.
pub open spec fn naked_hints_upto(s: BoardState, n: int, level: HintLevel) -> Seq<HintView>
    decreases n,
{
    if n <= 0 {
        Seq::empty()
    } else {
        naked_hints_upto(s, n - 1, level) + if !s.confirmed[n - 1] && popcount(s.cells[n - 1])
            == 1 {
            seq![naked_hint(n - 1, sole_digit(s.cells[n - 1]), level)]
        } else {
            Seq::empty()
        }
    }
}

/// The Naked Single hints of a board, in cell order.
pub open spec fn naked_hints(s: BoardState, level: HintLevel) -> Seq<HintView> {
    naked_hints_upto(s, 81, level)
}


/// Where a Naked Single hint comes from: a cell not confirmed with exactly one
/// candidate, and that candidate.
pub proof fn naked_source(s: BoardState, n: int, level: HintLevel, k: int) -> (i: int)
    requires
        s.wf(),
        0 <= n <= 81,
        0 <= k < naked_hints_upto(s, n, level).len(),
    ensures
        0 <= i < n,
        !s.confirmed[i],
        popcount(s.cells[i]) == 1,
        1 <= sole_digit(s.cells[i]) <= 9,
        holds(s.cells[i], sole_digit(s.cells[i])),
        naked_hints_upto(s, n, level)[k] == naked_hint(i, sole_digit(s.cells[i]), level),
    decreases n,
{
    let prev = naked_hints_upto(s, n - 1, level);
    if k < prev.len() {
        naked_source(s, n - 1, level, k)
    } else {
        lemma_single_digit(s.cells[n - 1]);
        n - 1
    }
}


/// An assigned cell is confirmed, so Naked Single never proposes it again.
pub proof fn lemma_assigned_not_proposed(s: BoardState, c: int, d: int, k: int)
    requires
        s.wf(),
        s.assign(c, d).wf(),
        0 <= c < 81,
        0 <= k < naked_hints(s.assign(c, d), HintLevel::Full).len(),
    ensures
        naked_hints(s.assign(c, d), HintLevel::Full)[k].assignments[0].0 != c,
{
    let t = s.assign(c, d);
    assert(t.confirmed == s.confirmed.update(c, true));
    assert(t.confirmed[c]);
    let i = naked_source(t, 81, HintLevel::Full, k);
    assert(i != c);
}


/// The Naked Single hints of the first `n` cells, read against the board
/// alone: one hint per cell not confirmed with exactly one candidate, that
/// writes the candidate there, cells in increasing order.
proof fn lemma_naked_upto_exact(s: BoardState, n: int)
    requires
        s.wf(),
        0 <= n <= 81,
    ensures
        ({
            let hs = naked_hints_upto(s, n, HintLevel::Full);
            &&& forall|i: int|
                0 <= i < n && !s.confirmed[i] && popcount(s.cells[i]) == 1 ==> exists|k: int|
                    0 <= k < hs.len() && #[trigger] hs[k].assignments == seq![
                        (i as usize, sole_digit(s.cells[i]) as u8),
                    ]
            &&& forall|k: int|
                #![trigger hs[k]]
                0 <= k < hs.len() ==> hs[k].assignments.len() == 1 && 0 <= hs[k].assignments[0].0 < n
            &&& forall|a: int, b: int|
                0 <= a < b < hs.len() ==> #[trigger] hs[a].assignments[0].0 < #[trigger] hs[b].assignments[0].0
        }),
    decreases n,
{
    if n > 0 {
        lemma_naked_upto_exact(s, n - 1);
        let prev = naked_hints_upto(s, n - 1, HintLevel::Full);
        let hs = naked_hints_upto(s, n, HintLevel::Full);
        if !s.confirmed[n - 1] && popcount(s.cells[n - 1]) == 1 {
            let h = naked_hint(n - 1, sole_digit(s.cells[n - 1]), HintLevel::Full);
            assert(hs == prev.push(h));
            assert(h.assignments == seq![((n - 1) as usize, sole_digit(s.cells[n - 1]) as u8)]);
            assert(h.assignments.len() == 1);
            assert(h.assignments[0].0 as int == n - 1);
            assert forall|i: int|
                0 <= i < n && !s.confirmed[i] && popcount(s.cells[i]) == 1 implies exists|k: int|
                    0 <= k < hs.len() && #[trigger] hs[k].assignments == seq![
                        (i as usize, sole_digit(s.cells[i]) as u8),
                    ] by {
                if i == n - 1 {
                    assert(hs[prev.len() as int] == h);
                    assert(hs[prev.len() as int].assignments == seq![
                        (i as usize, sole_digit(s.cells[i]) as u8),
                    ]);
                } else {
                    let k = choose|k: int|
                        0 <= k < prev.len() && #[trigger] prev[k].assignments == seq![
                            (i as usize, sole_digit(s.cells[i]) as u8),
                        ];
                    assert(hs[k] == prev[k]);
                }
            }
            assert forall|k: int| 0 <= k < hs.len() implies #[trigger] hs[k].assignments.len() == 1 && 0
                <= hs[k].assignments[0].0 < n by {
                if k < prev.len() {
                    assert(hs[k] == prev[k]);
                    assert(0 <= prev[k].assignments[0].0 < n - 1);
                } else {
                    assert(hs[k] == h);
                }
            }
            assert forall|a: int, b: int| 0 <= a < b < hs.len() implies #[trigger] hs[a].assignments[0].0
                < #[trigger] hs[b].assignments[0].0 by {
                assert(hs[a] == prev[a]);
                assert(0 <= prev[a].assignments[0].0 < n - 1);
                if b < prev.len() {
                    assert(hs[b] == prev[b]);
                    assert(prev[a].assignments[0].0 < prev[b].assignments[0].0);
                } else {
                    assert(hs[b] == h);
                }
            }
        } else {
            assert(hs =~= prev);
            assert forall|i: int|
                0 <= i < n && !s.confirmed[i] && popcount(s.cells[i]) == 1 implies exists|k: int|
                    0 <= k < hs.len() && #[trigger] hs[k].assignments == seq![
                        (i as usize, sole_digit(s.cells[i]) as u8),
                    ] by {
                assert(i < n - 1);
            }
            assert forall|k: int| 0 <= k < hs.len() implies #[trigger] hs[k].assignments.len() == 1 && 0
                <= hs[k].assignments[0].0 < n by {
                assert(0 <= prev[k].assignments[0].0 < n - 1);
            }
            assert forall|a: int, b: int| 0 <= a < b < hs.len() implies #[trigger] hs[a].assignments[0].0
                < #[trigger] hs[b].assignments[0].0 by {
                assert(prev[a].assignments[0].0 < prev[b].assignments[0].0);
            }
        }
    }
}

/// Naked Single finds exactly the cells not confirmed with one candidate:
/// each such cell gets a hint writing its candidate there, every hint is for
/// such a cell, and the hints come in increasing cell order, one per cell.
pub proof fn lemma_naked_exact(s: BoardState)
    requires
        s.wf(),
    ensures
        ({
            let hs = naked_hints(s, HintLevel::Full);
            &&& forall|i: int|
                0 <= i < 81 && !s.confirmed[i] && popcount(s.cells[i]) == 1 ==> exists|k: int|
                    0 <= k < hs.len() && #[trigger] hs[k].assignments == seq![
                        (i as usize, sole_digit(s.cells[i]) as u8),
                    ]
            &&& forall|k: int|
                0 <= k < hs.len() ==> {
                    let i = #[trigger] hs[k].assignments[0].0 as int;
                    &&& hs[k].assignments == seq![(i as usize, sole_digit(s.cells[i]) as u8)]
                    &&& 0 <= i < 81
                    &&& !s.confirmed[i]
                    &&& popcount(s.cells[i]) == 1
                }
            &&& forall|a: int, b: int|
                0 <= a < b < hs.len() ==> #[trigger] hs[a].assignments[0].0 < #[trigger] hs[b].assignments[0].0
        }),
{
    lemma_naked_upto_exact(s, 81);
    let hs = naked_hints(s, HintLevel::Full);
    assert forall|k: int| 0 <= k < hs.len() implies {
        let i = #[trigger] hs[k].assignments[0].0 as int;
        &&& hs[k].assignments == seq![(i as usize, sole_digit(s.cells[i]) as u8)]
        &&& 0 <= i < 81
        &&& !s.confirmed[i]
        &&& popcount(s.cells[i]) == 1
    } by {
        let i = naked_source(s, 81, HintLevel::Full, k);
        assert(hs[k] == naked_hint(i, sole_digit(s.cells[i]), HintLevel::Full));
        assert(hs[k].assignments[0].0 as int == i);
    }
}

proof fn lemma_naked_levels_upto(s: BoardState, n: int, level: HintLevel)
    requires
        s.wf(),
        0 <= n <= 81,
    ensures
        naked_hints_upto(s, n, level).len() == naked_hints_upto(s, n, HintLevel::Full).len(),
        forall|k: int|
            0 <= k < naked_hints_upto(s, n, level).len() ==> #[trigger] naked_hints_upto(s, n, level)[k]
                == naked_hint(
                naked_hints_upto(s, n, HintLevel::Full)[k].assignments[0].0 as int,
                naked_hints_upto(s, n, HintLevel::Full)[k].assignments[0].1 as int,
                level,
            ),
    decreases n,
{
    if n > 0 {
        lemma_naked_levels_upto(s, n - 1, level);
        let i = n - 1;
        let prev = naked_hints_upto(s, n - 1, level);
        let prevf = naked_hints_upto(s, n - 1, HintLevel::Full);
        let cur = naked_hints_upto(s, n, level);
        let curf = naked_hints_upto(s, n, HintLevel::Full);
        if !s.confirmed[i] && popcount(s.cells[i]) == 1 {
            let d = sole_digit(s.cells[i]);
            lemma_single_digit(s.cells[i]);
            assert(cur == prev.push(naked_hint(i, d, level)));
            assert(curf == prevf.push(naked_hint(i, d, HintLevel::Full)));
        } else {
            assert(cur =~= prev);
            assert(curf =~= prevf);
        }
        assert forall|k: int| 0 <= k < cur.len() implies #[trigger] cur[k] == naked_hint(
            curf[k].assignments[0].0 as int,
            curf[k].assignments[0].1 as int,
            level,
        ) by {
            if k < prev.len() {
                assert(cur[k] == prev[k] && curf[k] == prevf[k]);
            }
        }
    }
}

/// A Naked Single hint at any level is the hint of the same cell and digit
/// as the full hint at its place: both levels find the same cells, in the
/// same order.
pub proof fn lemma_naked_levels(s: BoardState, level: HintLevel)
    requires
        s.wf(),
    ensures
        naked_hints(s, level).len() == naked_hints(s, HintLevel::Full).len(),
        forall|k: int|
            0 <= k < naked_hints(s, level).len() ==> #[trigger] naked_hints(s, level)[k] == naked_hint(
                naked_hints(s, HintLevel::Full)[k].assignments[0].0 as int,
                naked_hints(s, HintLevel::Full)[k].assignments[0].1 as int,
                level,
            ),
{
    lemma_naked_levels_upto(s, 81, level);
}

impl NakedSingle {
    /// The description of the hint for `cell` with digit `d`.
    fn describe(cell: usize, d: u8, level: HintLevel) -> (r: String)
        requires
            cell < 81,
            1 <= d <= 9,
        ensures
            r@ == naked_hint(cell as int, d as int, level).description,
    {
        let mut t = String::new();
        t.append("セル(");
        t.append(digit_str(cell / 9 + 1));
        t.append(",");
        t.append(digit_str(cell % 9 + 1));
        match level {
            HintLevel::Full => {
                t.append(") は候補が1つ ");
                t.append(digit_str(d as usize));
                t.append(" なので確定（Naked Single）");
            },
            HintLevel::Weak => {
                t.append(") に注目（Naked Single）");
            },
        }
        t
    }
}

impl Strategy for NakedSingle {
    open spec fn spec_name(&self) -> Seq<char> {
        "Naked Single"@
    }

    open spec fn spec_hints(&self, s: BoardState, level: HintLevel) -> Seq<HintView> {
        naked_hints(s, level)
    }

    fn name(&self) -> (r: &'static str) {
        "Naked Single"
    }

    fn find(&self, sdk: &Sudoku) -> (r: Option<Hint>) {
        take_first(self.find_all(sdk))
    }

    fn find_all(&self, sdk: &Sudoku) -> (r: Vec<Hint>) {
        self.find_all_with_level(sdk, HintLevel::Full)
    }

    fn find_with_level(&self, sdk: &Sudoku, level: HintLevel) -> (r: Option<Hint>) {
        take_first(self.find_all_with_level(sdk, level))
    }

    fn find_all_with_level(&self, sdk: &Sudoku, level: HintLevel) -> (r: Vec<Hint>) {
        proof {
            sdk.lemma_wf();
        }
        let ghost s = sdk@;
        let mut hints: Vec<Hint> = Vec::new();
        let mut i: usize = 0;
        while i < 81
            invariant
                0 <= i <= 81,
                sdk.wf(),
                s == sdk@,
                s.wf(),
                hint_views(hints@) == naked_hints_upto(s, i as int, level),
            decreases 81 - i,
        {
            if !sdk.is_confirmed(i) && is_single(sdk.cell_mask(i)) {
                proof {
                    lemma_single_digit(s.cells[i as int]);
                }
                let d = single_digit(sdk.cell_mask(i)).unwrap();
                let description = Self::describe(i, d, level);
                let h = match level {
                    HintLevel::Full => Hint {
                        description,
                        assignments: vec![(i, d)],
                        eliminations: Vec::new(),
                    },
                    HintLevel::Weak => Hint {
                        description,
                        assignments: Vec::new(),
                        eliminations: Vec::new(),
                    },
                };
                proof {
                    assert(h@ =~= naked_hint(i as int, d as int, level));
                }
                let ghost prev = hints@;
                hints.push(h);
                proof {
                    assert(hint_views(hints@) =~= hint_views(prev).push(h@));
                }
            }
            i += 1;
        }
        hints
    }
}

} // verus!
