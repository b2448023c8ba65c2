//! The common shape of a solving technique and of the hints it gives.
use vstd::prelude::*;

use crate::mask::{
    count_below, holds, lemma_single_unique, lemma_test_bit, popcount, sole_digit,
};
use crate::sudoku::{BoardState, Sudoku};

verus! {

/// A set of candidate digits: bit `d` stands for the digit `d`.
pub type Mask = u16;

/// The number of set bits of `mask`.
pub(crate) fn count_ones(mask: Mask) -> (r: u32)
    ensures
        r == popcount(mask),
        r <= 16,
{
    let mut c: u32 = 0;
    let mut i: u16 = 0;
    while i < 16
        invariant
            0 <= i <= 16,
            c == count_below(mask, i as int),
            c <= i,
        decreases 16 - i,
    {
        if (mask >> i) & 1u16 == 1u16 {
            c += 1;
        }
        i += 1;
    }
    c
}

/// Whether exactly one bit of `mask` is set.
pub fn is_single(mask: Mask) -> (r: bool)
    ensures
        r == (popcount(mask) == 1),
{
    count_ones(mask) == 1
}

/// The digit of a mask with exactly one bit, when that bit is a digit 1 to 9.
pub fn single_digit(mask: Mask) -> (r: Option<u8>)
    ensures
        r is Some <==> (popcount(mask) == 1 && exists|d: int| 1 <= d <= 9 && #[trigger] holds(
            mask,
            d,
        )),
        r matches Some(d) ==> 1 <= d <= 9 && holds(mask, d as int) && d == sole_digit(mask),
{
    if !is_single(mask) {
        return None;
    }
    let mut d: u8 = 1;
    while d <= 9
        invariant
            1 <= d <= 10,
            popcount(mask) == 1,
            forall|x: int| 1 <= x < d ==> !#[trigger] holds(mask, x),
        decreases 10 - d,
    {
        proof {
            lemma_test_bit(mask, d as u16);
        }
        if mask & bit(d) != 0 {
            proof {
                let s = sole_digit(mask);
                assert(1 <= s <= 9 && holds(mask, s));
                lemma_single_unique(mask, s, d as int);
            }
            return Some(d);
        }
        d += 1;
    }
    None
}


/// How much a hint gives away.
#[derive(Clone, Copy, Debug, PartialEq, Eq, Structural)]
pub enum HintLevel {
    /// Only what to look at: the cell, or the digit and the unit.
    Weak,
    /// The cell and the digit to write there.
    Full,
}

/// A hint: its text, the cells to fix to a digit, and the digits to remove.
#[derive(Clone, Debug)]
pub struct Hint {
    pub description: String,
    pub assignments: Vec<(usize, u8)>,
    pub eliminations: Vec<(usize, Vec<u8>)>,
}

/// What a hint means.
#[verifier::ext_equal]
pub struct HintView {
    pub description: Seq<char>,
    pub assignments: Seq<(usize, u8)>,
    pub eliminations: Seq<(usize, Seq<u8>)>,
}

impl View for Hint {
    type V = HintView;

    open spec fn view(&self) -> HintView {
        HintView {
            description: self.description@,
            assignments: self.assignments@,
            eliminations: self.eliminations@.map_values(|p: (usize, Vec<u8>)| (p.0, p.1@)),
        }
    }
}

/// The meaning of each hint of a list.
pub open spec fn hint_views(v: Seq<Hint>) -> Seq<HintView> {
    v.map_values(|h: Hint| h@)
}

/// The meaning of an optional hint.
pub open spec fn opt_hint_view(r: Option<Hint>) -> Option<HintView> {
    match r {
        Some(h) => Some(h@),
        None => None,
    }
}

/// The first hint of a list, if any.
pub open spec fn first_hint(hs: Seq<HintView>) -> Option<HintView> {
    if hs.len() == 0 {
        None
    } else {
        Some(hs[0])
    }
}

/// Each move names a cell of the board and a digit 1 to 9.
pub open spec fn moves_ok(m: Seq<(usize, u8)>) -> bool {
    forall|i: int| 0 <= i < m.len() ==> #[trigger] m[i].0 < 81 && 1 <= m[i].1 <= 9
}

/// A hint that can be applied: its moves are valid and each removed digit
/// has a bit in a mask.
pub open spec fn hint_ok(h: HintView) -> bool {
    &&& moves_ok(h.assignments)
    &&& forall|i: int| 0 <= i < h.eliminations.len() ==> #[trigger] h.eliminations[i].0 < 81
    &&& forall|i: int, k: int|
        0 <= i < h.eliminations.len() && 0 <= k < h.eliminations[i].1.len()
            ==> #[trigger] h.eliminations[i].1[k] < 16
}

/// The board after assigning the moves `m` in order.
pub open spec fn assign_moves(s: BoardState, m: Seq<(usize, u8)>) -> BoardState
    decreases m.len(),
{
    if m.len() == 0 {
        s
    } else {
        assign_moves(s.assign(m[0].0 as int, m[0].1 as int), m.drop_first())
    }
}

/// The pairs (cell, digit) of one elimination entry.
pub open spec fn elim_pairs(c: usize, ds: Seq<u8>) -> Seq<(usize, u8)> {
    ds.map_values(|d: u8| (c, d))
}

/// All eliminations of a hint, in order.
pub open spec fn flat_elims(e: Seq<(usize, Seq<u8>)>) -> Seq<(usize, u8)>
    decreases e.len(),
{
    if e.len() == 0 {
        Seq::empty()
    } else {
        elim_pairs(e[0].0, e[0].1) + flat_elims(e.drop_first())
    }
}

/// Eliminations done in order, stopping at the first cell left empty:
/// whether all went through, and the board reached.
pub open spec fn eliminate_seq(s: BoardState, es: Seq<(usize, u8)>) -> (bool, BoardState)
    decreases es.len(),
{
    if es.len() == 0 {
        (true, s)
    } else {
        let t = s.eliminate(es[0].0 as int, es[0].1 as int);
        if t.cells[es[0].0 as int] == 0 {
            (false, t)
        } else {
            eliminate_seq(t, es.drop_first())
        }
    }
}

/// Applying a hint: its assignments, then its eliminations.
pub open spec fn apply_hint(s: BoardState, h: HintView) -> (bool, BoardState) {
    eliminate_seq(assign_moves(s, h.assignments), flat_elims(h.eliminations))
}


/// A solving technique: it reads the board and proposes hints, at a chosen
/// level of detail.
pub trait Strategy {
    /// The technique's name.
    spec fn spec_name(&self) -> Seq<char>;

    /// Every hint the technique finds on a board, in order.
    spec fn spec_hints(&self, s: BoardState, level: HintLevel) -> Seq<HintView>;

    fn name(&self) -> (r: &'static str)
        ensures
            r@ == self.spec_name(),
    ;

    /// The first hint found, with full detail.
    fn find(&self, sdk: &Sudoku) -> (r: Option<Hint>)
        requires
            sdk.wf(),
        ensures
            opt_hint_view(r) == first_hint(self.spec_hints(sdk@, HintLevel::Full)),
    ;

    /// Every hint found, with full detail.
    fn find_all(&self, sdk: &Sudoku) -> (r: Vec<Hint>)
        requires
            sdk.wf(),
        ensures
            hint_views(r@) == self.spec_hints(sdk@, HintLevel::Full),
    ;

    /// The first hint found, at the given level.
    fn find_with_level(&self, sdk: &Sudoku, level: HintLevel) -> (r: Option<Hint>)
        requires
            sdk.wf(),
        ensures
            opt_hint_view(r) == first_hint(self.spec_hints(sdk@, level)),
    ;

    /// Every hint found, at the given level.
    fn find_all_with_level(&self, sdk: &Sudoku, level: HintLevel) -> (r: Vec<Hint>)
        requires
            sdk.wf(),
        ensures
            hint_views(r@) == self.spec_hints(sdk@, level),
    ;
}

/// The first hint of a list, taken out of it.
pub(crate) fn take_first(all: Vec<Hint>) -> (r: Option<Hint>)
    ensures
        opt_hint_view(r) == first_hint(hint_views(all@)),
{
    let mut all = all;
    if all.len() == 0 {
        None
    } else {
        let h = all.remove(0);
        Some(h)
    }
}

/// Assigns the moves `m` to `sdk` in order.
pub(crate) fn assign_all(sdk: &mut Sudoku, m: &[(usize, u8)])
    requires
        old(sdk).wf(),
        moves_ok(m@),
    ensures
        final(sdk).wf(),
        final(sdk)@ == assign_moves(old(sdk)@, m@),
{
    let mut i: usize = 0;
    assert(m@.skip(0) =~= m@);
    while i < m.len()
        invariant
            0 <= i <= m@.len(),
            sdk.wf(),
            moves_ok(m@),
            assign_moves(old(sdk)@, m@) == assign_moves(sdk@, m@.skip(i as int)),
        decreases m@.len() - i,
    {
        let (c, d) = m[i];
        assert(m@.skip(i as int).drop_first() =~= m@.skip(i + 1));
        assert(m@.skip(i as int)[0] == m@[i as int]);
        let _ = sdk.assign(c, d);
        i += 1;
    }
    assert(m@.skip(m@.len() as int) =~= Seq::<(usize, u8)>::empty());
}

impl Hint {
    /// Applies the hint to the board: each assignment, then each
    /// elimination; `Err` as soon as a cell is left without candidates.
    pub fn apply(self, sdk: &mut Sudoku) -> (r: Result<(), ()>)
        requires
            old(sdk).wf(),
            hint_ok(self@),
        ensures
            final(sdk).wf(),
            r is Ok == apply_hint(old(sdk)@, self@).0,
            final(sdk)@ == apply_hint(old(sdk)@, self@).1,
    {
        self.apply_to(sdk)
    }

    /// Applies the hint without giving it up.
    pub(crate) fn apply_to(&self, sdk: &mut Sudoku) -> (r: Result<(), ()>)
        requires
            old(sdk).wf(),
            hint_ok(self@),
        ensures
            final(sdk).wf(),
            r is Ok == apply_hint(old(sdk)@, self@).0,
            final(sdk)@ == apply_hint(old(sdk)@, self@).1,
    {
        assign_all(sdk, self.assignments.as_slice());
        let ghost e = self@.eliminations;
        let ghost target = apply_hint(old(sdk)@, self@);
        let mut i: usize = 0;
        assert(e.skip(0) =~= e);
        while i < self.eliminations.len()
            invariant
                0 <= i <= e.len(),
                e == self@.eliminations,
                e.len() == self.eliminations@.len(),
                hint_ok(self@),
                sdk.wf(),
                target == apply_hint(old(sdk)@, self@),
                target == eliminate_seq(sdk@, flat_elims(e.skip(i as int))),
            decreases e.len() - i,
        {
            let c = self.eliminations[i].0;
            let ds = &self.eliminations[i].1;
            assert(e[i as int] == (c, ds@));
            assert(e.skip(i as int)[0] == e[i as int]);
            assert(e.skip(i as int).drop_first() =~= e.skip(i + 1));
            assert(flat_elims(e.skip(i as int)) == elim_pairs(c, ds@) + flat_elims(e.skip(i + 1)));
            assert(ds@.skip(0) =~= ds@);
            assert(c < 81);
            let mut j: usize = 0;
            while j < ds.len()
                invariant
                    0 <= j <= ds@.len(),
                    0 <= i < e.len(),
                    c < 81,
                    e[i as int] == (c, ds@),
                    hint_ok(self@),
                    e == self@.eliminations,
                    sdk.wf(),
                    target == apply_hint(old(sdk)@, self@),
                    target == eliminate_seq(
                        sdk@,
                        elim_pairs(c, ds@.skip(j as int)) + flat_elims(e.skip(i + 1)),
                    ),
                decreases ds@.len() - j,
            {
                let d = ds[j];
                assert(e[i as int].1[j as int] == d);
                let ghost rest = elim_pairs(c, ds@.skip(j + 1)) + flat_elims(e.skip(i + 1));
                assert(elim_pairs(c, ds@.skip(j as int)) + flat_elims(e.skip(i + 1)) =~= seq![
                    (c, d),
                ] + rest);
                assert((seq![(c, d)] + rest).drop_first() =~= rest);
                let ghost before = sdk@;
                let r = sdk.eliminate(c, d);
                assert(eliminate_seq(before, seq![(c, d)] + rest) == if sdk@.cells[c as int] == 0 {
                    (false, sdk@)
                } else {
                    eliminate_seq(sdk@, rest)
                });
                if r.is_err() {
                    return Err(());
                }
                j += 1;
            }
            assert(elim_pairs(c, ds@.skip(ds@.len() as int)) =~= Seq::<(usize, u8)>::empty());
            assert(elim_pairs(c, ds@.skip(ds@.len() as int)) + flat_elims(e.skip(i + 1))
                =~= flat_elims(e.skip(i + 1)));
            i += 1;
        }
        assert(e.skip(e.len() as int) =~= Seq::<(usize, Seq<u8>)>::empty());
        Ok(())
    }
}

/// The mask of one digit.
pub fn bit(digit: u8) -> (r: Mask)
    requires
        digit < 16,
    ensures
        r == 1u16 << digit,
{
    1u16 << digit
}

} // verus!
