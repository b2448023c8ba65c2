//! Hidden Single: a digit with one place left in a unit goes there.
use vstd::prelude::*;

use crate::grid::{lemma_unit_cell, unit_cell, unit_seq};
use crate::mask::{holds, lemma_test_bit, popcount};
use crate::strategy::{
    bit, hint_views, is_single, take_first, Hint, HintLevel, HintView,
    Strategy,
};
use crate::sudoku::{BoardState, Sudoku};
use crate::text::{digit_str, digit_text};

verus! {

/// Finds the digits that have a single place left in a row, column or box.
pub struct HiddenSingle;

/// The name of unit `u`: "row n", "column n" or "block (r, c)".
pub open spec fn unit_text(u: int) -> Seq<char> {
    if u < 9 {
        "行 "@ + digit_text(u + 1)
    } else if u < 18 {
        "列 "@ + digit_text(u - 9 + 1)
    } else {
        "ブロック("@ + digit_text((u - 18) / 3 + 1) + ", "@ + digit_text((u - 18) % 3 + 1) + ")"@
    }
}

/// "In unit u, digit d fits only in cell (r,c)."
pub open spec fn hidden_full_text(u: int, d: int, c: int) -> Seq<char> {
    unit_text(u) + " で数字 "@ + digit_text(d) + " を置けるのはセル("@ + digit_text(c / 9 + 1)
        + ","@ + digit_text(c % 9 + 1) + ") だけ（Hidden Single）"@
}

/// "Look at digit d in unit u."
pub open spec fn hidden_weak_text(u: int, d: int) -> Seq<char> {
    unit_text(u) + " の数字 "@ + digit_text(d) + " に注目（Hidden Single）"@
}

/// The hint that digit `d` goes to cell `c` of unit `u`: at full level the
/// cell and the digit; at weak level only the digit and the unit.
pub open spec fn hidden_hint(u: int, d: int, c: int, level: HintLevel) -> HintView {
    match level {
        HintLevel::Full => HintView {
            description: hidden_full_text(u, d, c),
            assignments: seq![(c as usize, d as u8)],
            eliminations: Seq::empty(),
        },
        HintLevel::Weak => HintView {
            description: hidden_weak_text(u, d),
            assignments: Seq::empty(),
            eliminations: Seq::empty(),
        },
    }
}

/// Cells whose candidates include `d`.
pub open spec fn can_hold(s: BoardState, d: int) -> spec_fn(usize) -> bool {
    |c: usize| holds(s.cells[c as int], d)
}

/// The cells of unit `u` that can still hold `d`, in unit order.
pub open spec fn holders(s: BoardState, u: int, d: int) -> Seq<usize> {
    unit_seq(u).filter(can_hold(s, d))
}

/// The hint for unit `u` and digit `d`: when exactly one cell of the unit can
/// hold `d` and that cell does not have a single bit.
pub open spec fn hidden_at(s: BoardState, u: int, d: int, level: HintLevel) -> Seq<HintView> {
    let h = holders(s, u, d);
    if h.len() == 1 && popcount(s.cells[h[0] as int]) != 1 {
        seq![hidden_hint(u, d, h[0] as int, level)]
    } else {
        Seq::empty()
    }
}

/// The hints of the first `n` (unit, digit) pairs, units in order and digits
/// 1 to 9 within each unit.
pub open spec fn hidden_hints_upto(s: BoardState, n: int, level: HintLevel) -> Seq<HintView>
    decreases n,
{
    if n <= 0 {
        Seq::empty()
    } else {
        hidden_hints_upto(s, n - 1, level) + hidden_at(s, (n - 1) / 9, (n - 1) % 9 + 1, level)
    }
}

/// The Hidden Single hints of a board.
pub open spec fn hidden_hints(s: BoardState, level: HintLevel) -> Seq<HintView> {
    hidden_hints_upto(s, 243, level)
}


/// Where a Hidden Single hint comes from: a unit and a digit with a single
/// cell of the unit that can hold the digit, that cell not being single.
pub proof fn hidden_source(s: BoardState, n: int, level: HintLevel, k: int) -> (r: (int, int))
    requires
        s.wf(),
        0 <= n <= 243,
        0 <= k < hidden_hints_upto(s, n, level).len(),
    ensures
        0 <= r.0 < 27,
        1 <= r.1 <= 9,
        holders(s, r.0, r.1).len() == 1,
        holders(s, r.0, r.1)[0] < 81,
        holds(s.cells[holders(s, r.0, r.1)[0] as int], r.1),
        popcount(s.cells[holders(s, r.0, r.1)[0] as int]) != 1,
        hidden_hints_upto(s, n, level)[k] == hidden_hint(
            r.0,
            r.1,
            holders(s, r.0, r.1)[0] as int,
            level,
        ),
    decreases n,
{
    let prev = hidden_hints_upto(s, n - 1, level);
    if k < prev.len() {
        hidden_source(s, n - 1, level, k)
    } else {
        let u = (n - 1) / 9;
        let d = (n - 1) % 9 + 1;
        let h = holders(s, u, d);
        let p = can_hold(s, d);
        unit_seq(u).lemma_filter_pred(p, 0);
        assert(h.contains(h[0]));
        unit_seq(u).lemma_filter_contains_rev(p, h[0]);
        let x = choose|x: int| 0 <= x < unit_seq(u).len() && unit_seq(u)[x] == h[0];
        lemma_unit_cell(u, x);
        (u, d)
    }
}


proof fn lemma_filter_none(v: Seq<usize>, p: spec_fn(usize) -> bool)
    requires
        forall|j: int| 0 <= j < v.len() ==> !p(#[trigger] v[j]),
    ensures
        v.filter(p) =~= Seq::<usize>::empty(),
    decreases v.len(),
{
    if v.len() > 0 {
        let b = v.drop_last();
        assert(v =~= b.push(v.last()));
        b.lemma_filter_push(v.last(), p);
        assert forall|j: int| 0 <= j < b.len() implies !p(#[trigger] b[j]) by {
            assert(b[j] == v[j]);
        }
        lemma_filter_none(b, p);
    }
}

/// Filtering a sequence in which exactly one entry passes keeps that entry.
proof fn lemma_filter_single(v: Seq<usize>, p: spec_fn(usize) -> bool, k: int)
    requires
        0 <= k < v.len(),
        p(v[k]),
        forall|j: int| 0 <= j < v.len() && j != k ==> !p(#[trigger] v[j]),
    ensures
        v.filter(p) =~= seq![v[k]],
    decreases v.len(),
{
    let b = v.drop_last();
    assert(v =~= b.push(v.last()));
    b.lemma_filter_push(v.last(), p);
    if k == v.len() - 1 {
        assert forall|j: int| 0 <= j < b.len() implies !p(#[trigger] b[j]) by {
            assert(b[j] == v[j]);
        }
        lemma_filter_none(b, p);
    } else {
        assert(b[k] == v[k]);
        assert forall|j: int| 0 <= j < b.len() && j != k implies !p(#[trigger] b[j]) by {
            assert(b[j] == v[j]);
        }
        lemma_filter_single(b, p, k);
    }
}

/// The hints of the first `n` pairs come first among those of the first `m`.
proof fn lemma_hidden_prefix(s: BoardState, n: int, m: int, level: HintLevel)
    requires
        0 <= n <= m,
    ensures
        hidden_hints_upto(s, n, level).len() <= hidden_hints_upto(s, m, level).len(),
        forall|k: int|
            0 <= k < hidden_hints_upto(s, n, level).len() ==> #[trigger] hidden_hints_upto(
                s,
                m,
                level,
            )[k] == hidden_hints_upto(s, n, level)[k],
    decreases m,
{
    if m > n {
        lemma_hidden_prefix(s, n, m - 1, level);
    }
}

/// Completeness of Hidden Single: when exactly one cell of unit `u` can hold
/// the digit `d`, and that cell has more than one candidate, the hints
/// include the one that writes `d` there.
pub proof fn lemma_hidden_complete(s: BoardState, u: int, d: int, x: int, level: HintLevel)
    requires
        s.wf(),
        0 <= u < 27,
        1 <= d <= 9,
        0 <= x < 9,
        holds(s.cells[unit_cell(u, x)], d),
        forall|y: int| 0 <= y < 9 && y != x ==> !holds(#[trigger] s.cells[unit_cell(u, y)], d),
        popcount(s.cells[unit_cell(u, x)]) != 1,
    ensures
        exists|k: int|
            0 <= k < hidden_hints(s, level).len() && #[trigger] hidden_hints(s, level)[k]
                == hidden_hint(u, d, unit_cell(u, x), level),
        level == HintLevel::Full ==> exists|k: int|
            0 <= k < hidden_hints(s, level).len() && #[trigger] hidden_hints(s, level)[k].assignments
                == seq![(unit_cell(u, x) as usize, d as u8)],
{
    let c = unit_cell(u, x);
    let v = unit_seq(u);
    let p = can_hold(s, d);
    lemma_unit_cell(u, x);
    assert(v[x] == c as usize);
    assert forall|y: int| 0 <= y < v.len() && y != x implies !p(#[trigger] v[y]) by {
        lemma_unit_cell(u, y);
        assert(v[y] == unit_cell(u, y) as usize);
        assert(!holds(s.cells[unit_cell(u, y)], d));
    }
    lemma_filter_single(v, p, x);
    assert(holders(s, u, d) =~= seq![c as usize]);
    let n0 = u * 9 + d - 1;
    assert(n0 / 9 == u && n0 % 9 + 1 == d);
    let h = hidden_hint(u, d, c, level);
    assert(hidden_at(s, u, d, level) =~= seq![h]);
    let pre = hidden_hints_upto(s, n0, level);
    assert(hidden_hints_upto(s, n0 + 1, level) == pre + seq![h]);
    assert(hidden_hints_upto(s, n0 + 1, level)[pre.len() as int] == h);
    lemma_hidden_prefix(s, n0 + 1, 243, level);
    let k = pre.len() as int;
    assert(hidden_hints(s, level)[k] == h);
    if level == HintLevel::Full {
        assert(hidden_hints(s, level)[k].assignments == seq![(c as usize, d as u8)]);
    }
}

/// `h` is the hint for unit `u` and digit `d`: exactly one cell of the unit
/// can hold `d`, and that cell does not have a single bit.
pub open spec fn hidden_from(s: BoardState, level: HintLevel, h: HintView, u: int, d: int) -> bool {
    &&& 0 <= u < 27
    &&& 1 <= d <= 9
    &&& holders(s, u, d).len() == 1
    &&& popcount(s.cells[holders(s, u, d)[0] as int]) != 1
    &&& h == hidden_hint(u, d, holders(s, u, d)[0] as int, level)
}

/// `h` is the hint of a (unit, digit) pair among the first `n`.
pub open spec fn hidden_below(s: BoardState, level: HintLevel, h: HintView, n: int) -> bool {
    exists|u: int, d: int| #[trigger] hidden_from(s, level, h, u, d) && u * 9 + d - 1 < n
}

/// `h1` and `h2` are the hints of two (unit, digit) pairs, the one of `h1`
/// first: a unit before, or the same unit and a smaller digit.
pub open spec fn hidden_in_order(s: BoardState, level: HintLevel, h1: HintView, h2: HintView) -> bool {
    exists|u1: int, d1: int, u2: int, d2: int|
        #[trigger] hidden_from(s, level, h1, u1, d1) && #[trigger] hidden_from(s, level, h2, u2, d2) && (u1
            < u2 || (u1 == u2 && d1 < d2))
}

proof fn lemma_hidden_upto_order(s: BoardState, n: int, level: HintLevel)
    requires
        0 <= n <= 243,
    ensures
        forall|k: int|
            0 <= k < hidden_hints_upto(s, n, level).len() ==> #[trigger] hidden_below(
                s,
                level,
                hidden_hints_upto(s, n, level)[k],
                n,
            ),
        forall|a: int, b: int|
            0 <= a < b < hidden_hints_upto(s, n, level).len() ==> #[trigger] hidden_in_order(
                s,
                level,
                hidden_hints_upto(s, n, level)[a],
                hidden_hints_upto(s, n, level)[b],
            ),
    decreases n,
{
    if n > 0 {
        lemma_hidden_upto_order(s, n - 1, level);
        let prev = hidden_hints_upto(s, n - 1, level);
        let cur = hidden_hints_upto(s, n, level);
        let u0 = (n - 1) / 9;
        let d0 = (n - 1) % 9 + 1;
        let at = hidden_at(s, u0, d0, level);
        assert(cur == prev + at);
        assert(u0 * 9 + d0 - 1 == n - 1);
        assert forall|k: int| 0 <= k < prev.len() implies cur[k] == prev[k] by {}
        if at.len() > 0 {
            let h = holders(s, u0, d0);
            assert(cur[prev.len() as int] == hidden_hint(u0, d0, h[0] as int, level));
            assert(hidden_from(s, level, cur[prev.len() as int], u0, d0));
        }
        assert forall|k: int| 0 <= k < cur.len() implies #[trigger] hidden_below(s, level, cur[k], n) by {
            if k < prev.len() {
                assert(hidden_below(s, level, prev[k], n - 1));
                let (u, d) = choose|u: int, d: int| #[trigger] hidden_from(s, level, prev[k], u, d) && u * 9 + d - 1 < n - 1;
                assert(hidden_from(s, level, cur[k], u, d));
            } else {
                assert(k == prev.len());
                assert(hidden_from(s, level, cur[k], u0, d0));
            }
        }
        assert forall|a: int, b: int| 0 <= a < b < cur.len() implies #[trigger] hidden_in_order(
            s,
            level,
            cur[a],
            cur[b],
        ) by {
            if b < prev.len() {
                assert(hidden_in_order(s, level, prev[a], prev[b]));
            } else {
                assert(b == prev.len());
                assert(hidden_below(s, level, prev[a], n - 1));
                let (u, d) = choose|u: int, d: int| #[trigger] hidden_from(s, level, prev[a], u, d) && u * 9 + d - 1 < n - 1;
                assert(hidden_from(s, level, cur[a], u, d));
                assert(hidden_from(s, level, cur[b], u0, d0));
                assert(u < u0 || (u == u0 && d < d0));
            }
        }
    }
}

/// Hidden Single lists its hints by unit, then by digit: each hint is the
/// one of a (unit, digit) pair whose digit has a single place in the unit,
/// and a hint of an earlier pair comes first.
pub proof fn lemma_hidden_ordered(s: BoardState, level: HintLevel)
    ensures
        forall|k: int|
            0 <= k < hidden_hints(s, level).len() ==> #[trigger] hidden_below(
                s,
                level,
                hidden_hints(s, level)[k],
                243,
            ),
        forall|a: int, b: int|
            0 <= a < b < hidden_hints(s, level).len() ==> #[trigger] hidden_in_order(
                s,
                level,
                hidden_hints(s, level)[a],
                hidden_hints(s, level)[b],
            ),
{
    lemma_hidden_upto_order(s, 243, level);
}

impl HiddenSingle {
    /// The cells of `unit` whose candidates include `digit`.
    fn find_cells_that_can_hold_digit(&self, unit: &[usize; 9], digit: u8, sdk: &Sudoku) -> (r:
        Vec<usize>)
        requires
            sdk.wf(),
            forall|k: int| 0 <= k < 9 ==> #[trigger] unit@[k] < 81,
            digit < 16,
        ensures
            r@ == unit@.filter(can_hold(sdk@, digit as int)),
    {
        let digit_mask = bit(digit);
        let mut possible_cells: Vec<usize> = Vec::new();
        let ghost p = can_hold(sdk@, digit as int);
        let mut k: usize = 0;
        while k < 9
            invariant
                0 <= k <= 9,
                sdk.wf(),
                digit < 16,
                digit_mask == 1u16 << digit,
                p == can_hold(sdk@, digit as int),
                forall|x: int| 0 <= x < 9 ==> #[trigger] unit@[x] < 81,
                possible_cells@ == unit@.take(k as int).filter(p),
            decreases 9 - k,
        {
            let cell_index = unit[k];
            proof {
                lemma_test_bit(sdk@.cells[cell_index as int], digit as u16);
                assert(unit@.take(k + 1) =~= unit@.take(k as int).push(cell_index));
                unit@.take(k as int).lemma_filter_push(cell_index, p);
            }
            if sdk.cell_mask(cell_index) & digit_mask != 0 {
                possible_cells.push(cell_index);
            }
            k += 1;
        }
        proof {
            assert(unit@.take(9) =~= unit@);
        }
        possible_cells
    }

    /// The name of unit `unit_index`.
    fn describe_unit(&self, unit_index: usize) -> (r: String)
        requires
            unit_index < 27,
        ensures
            r@ == unit_text(unit_index as int),
    {
        let mut t = String::new();
        if unit_index <= 8 {
            t.append("行 ");
            t.append(digit_str(unit_index + 1));
        } else if unit_index <= 17 {
            t.append("列 ");
            t.append(digit_str(unit_index - 9 + 1));
        } else {
            let block_index = unit_index - 18;
            t.append("ブロック(");
            t.append(digit_str(block_index / 3 + 1));
            t.append(", ");
            t.append(digit_str(block_index % 3 + 1));
            t.append(")");
        }
        t
    }

    /// The description of the hint that `digit` goes to `cell` in unit `u`.
    fn describe(&self, u: usize, digit: u8, cell: usize, level: HintLevel) -> (r: String)
        requires
            u < 27,
            1 <= digit <= 9,
            cell < 81,
        ensures
            r@ == hidden_hint(u as int, digit as int, cell as int, level).description,
    {
        let mut t = self.describe_unit(u);
        match level {
            HintLevel::Full => {
                t.append(" で数字 ");
                t.append(digit_str(digit as usize));
                t.append(" を置けるのはセル(");
                t.append(digit_str(cell / 9 + 1));
                t.append(",");
                t.append(digit_str(cell % 9 + 1));
                t.append(") だけ（Hidden Single）");
            },
            HintLevel::Weak => {
                t.append(" の数字 ");
                t.append(digit_str(digit as usize));
                t.append(" に注目（Hidden Single）");
            },
        }
        t
    }
}

impl Strategy for HiddenSingle {
    open spec fn spec_name(&self) -> Seq<char> {
        "Hidden Single"@
    }

    open spec fn spec_hints(&self, s: BoardState, level: HintLevel) -> Seq<HintView> {
        hidden_hints(s, level)
    }

    fn name(&self) -> (r: &'static str) {
        "Hidden Single"
    }

    fn find(&self, sdk: &Sudoku) -> (r: Option<Hint>) {
        take_first(self.find_all(sdk))
    }

    fn find_all(&self, sdk: &Sudoku) -> (r: Vec<Hint>) {
        self.find_all_with_level(sdk, HintLevel::Full)
    }

    fn find_with_level(&self, sdk: &Sudoku, level: HintLevel) -> (r: Option<Hint>) {
        take_first(self.find_all_with_level(sdk, level))
    }

    fn find_all_with_level(&self, sdk: &Sudoku, level: HintLevel) -> (r: Vec<Hint>) {
        proof {
            sdk.lemma_wf();
        }
        let ghost s = sdk@;
        let units = sdk.units();
        let mut hints: Vec<Hint> = Vec::new();
        let mut u: usize = 0;
        while u < 27
            invariant
                0 <= u <= 27,
                sdk.wf(),
                s == sdk@,
                s.wf(),
                units@.len() == 27,
                forall|v: int| 0 <= v < 27 ==> #[trigger] units@[v]@ == unit_seq(v),
                hint_views(hints@) == hidden_hints_upto(s, u * 9, level),
            decreases 27 - u,
        {
            let unit = &units[u];
            proof {
                assert forall|k: int| 0 <= k < 9 implies #[trigger] unit@[k] < 81 by {
                    lemma_unit_cell(u as int, k);
                }
            }
            let mut digit: u8 = 1;
            while digit <= 9
                invariant
                    1 <= digit <= 10,
                    u < 27,
                    sdk.wf(),
                    s == sdk@,
                    s.wf(),
                    unit@ == unit_seq(u as int),
                    forall|k: int| 0 <= k < 9 ==> #[trigger] unit@[k] < 81,
                    hint_views(hints@) == hidden_hints_upto(s, u * 9 + digit - 1, level),
                decreases 10 - digit,
            {
                let possible_cells = self.find_cells_that_can_hold_digit(unit, digit, sdk);
                let ghost n = u * 9 + digit - 1;
                proof {
                    assert(n / 9 == u as int && n % 9 + 1 == digit as int);
                    assert(possible_cells@ == holders(s, u as int, digit as int));
                }
                if possible_cells.len() == 1 {
                    let target_cell = possible_cells[0];
                    proof {
                        assert(possible_cells@.contains(target_cell));
                        unit@.lemma_filter_contains_rev(can_hold(s, digit as int), target_cell);
                        let k = choose|k: int| 0 <= k < 9 && unit@[k] == target_cell;
                        assert(target_cell < 81);
                    }
                    if !is_single(sdk.cell_mask(target_cell)) {
                        let description = self.describe(u, digit, target_cell, level);
                        let h = match level {
                            HintLevel::Full => Hint {
                                description,
                                assignments: vec![(target_cell, digit)],
                                eliminations: Vec::new(),
                            },
                            HintLevel::Weak => Hint {
                                description,
                                assignments: Vec::new(),
                                eliminations: Vec::new(),
                            },
                        };
                        proof {
                            assert(h@ =~= hidden_hint(
                                u as int,
                                digit as int,
                                target_cell as int,
                                level,
                            ));
                        }
                        let ghost prev = hints@;
                        hints.push(h);
                        proof {
                            assert(hint_views(hints@) =~= hint_views(prev).push(h@));
                        }
                    }
                }
                digit += 1;
            }
            u += 1;
        }
        hints
    }
}

} // verus!
