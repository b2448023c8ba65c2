//! The board: one candidate mask per cell, the precomputed units and peers,
//! and which cells were given or confirmed.
use vstd::prelude::*;
use vstd::string::StringSliceAdditionalSpecFns;

use crate::grid::{
    box_unit, col_unit, in_unit, is_peer, lemma_peer_units, lemma_unit_cell, lemma_unit_pos,
    row_unit, unit_cell, unit_pos, unit_seq,
};
pub use crate::mask::ALL;
use crate::mask::{
    holds, lemma_clear_idem, lemma_has_all, lemma_has_bit, lemma_has_clear, lemma_has_zero,
    lemma_count_bit, lemma_count_mono, lemma_mask_ext, lemma_single_unique, lemma_test_bit, lemma_zero_iff_empty, popcount,
    sole_digit, within_digits,
};
use crate::strategy::{count_ones, Mask};
use crate::text::{digit_text, candidates_text, digit_list, digit_str, lemma_digit_text_len};

verus! {

/// What a board means: the candidate mask of each cell, which cells were
/// given by the puzzle, and which cells are confirmed.
#[verifier::ext_equal]
pub struct BoardState {
    pub cells: Seq<u16>,
    pub given: Seq<bool>,
    pub confirmed: Seq<bool>,
}

/// The mask of the single digit `d`.
pub open spec fn digit_bit(d: int) -> u16 {
    1u16 << (d as u16)
}

/// Cell `cell` fixed to digit `d`, and `d` removed from each of its peers.
pub open spec fn place(cells: Seq<u16>, cell: int, d: int) -> Seq<u16> {
    Seq::new(
        81,
        |j: int|
            if j == cell {
                digit_bit(d)
            } else if is_peer(cell, j) {
                cells[j] & !digit_bit(d)
            } else {
                cells[j]
            },
    )
}

impl BoardState {
    /// 81 cells, each holding only digits 1 to 9; a confirmed cell has at
    /// most one candidate left, and a given cell is confirmed.
    pub open spec fn wf(self) -> bool {
        &&& self.cells.len() == 81
        &&& self.given.len() == 81
        &&& self.confirmed.len() == 81
        &&& forall|i: int| 0 <= i < 81 ==> within_digits(#[trigger] self.cells[i])
        &&& forall|i: int| 0 <= i < 81 && #[trigger] self.confirmed[i] ==> popcount(self.cells[i]) <= 1
        &&& forall|i: int| 0 <= i < 81 && #[trigger] self.given[i] ==> self.confirmed[i]
    }

    /// The board after `set_value(cell, d)`.
    pub open spec fn set_value(self, cell: int, d: int) -> BoardState {
        BoardState { cells: place(self.cells, cell, d), ..self }
    }

    /// The board after `assign(cell, d)`: placed, and the cell confirmed.
    pub open spec fn assign(self, cell: int, d: int) -> BoardState {
        BoardState {
            cells: place(self.cells, cell, d),
            confirmed: self.confirmed.update(cell, true),
            ..self
        }
    }

    /// The board after `eliminate(cell, d)`: `d` cleared from the cell.
    pub open spec fn eliminate(self, cell: int, d: int) -> BoardState {
        BoardState { cells: self.cells.update(cell, self.cells[cell] & !digit_bit(d)), ..self }
    }
}

/// `s` lists the peers of cell `i`, each once, in increasing order.
pub open spec fn peer_list(i: int, s: Seq<usize>) -> bool {
    &&& forall|a: int, b: int| 0 <= a < b < s.len() ==> s[a] < s[b]
    &&& forall|a: int| 0 <= a < s.len() ==> is_peer(i, #[trigger] s[a] as int)
    &&& forall|j: int| #[trigger] is_peer(i, j) ==> s.contains(j as usize)
}

/// Placing a digit keeps every mask within the digits.
pub proof fn lemma_place_within(cells: Seq<u16>, cell: int, d: int)
    requires
        cells.len() == 81,
        forall|i: int| 0 <= i < 81 ==> within_digits(#[trigger] cells[i]),
        0 <= cell < 81,
        1 <= d <= 9,
    ensures
        forall|i: int| 0 <= i < 81 ==> within_digits(#[trigger] place(cells, cell, d)[i]),
{
    lemma_has_bit(d as u16);
    assert forall|i: int| 0 <= i < 81 implies within_digits(
        #[trigger] place(cells, cell, d)[i],
    ) by {
        lemma_has_clear(cells[i], d as u16);
    }
}


/// The bytes that `u8::is_ascii_whitespace` accepts: space, tab, line feed,
/// form feed and carriage return.
pub open spec fn is_ascii_ws(b: u8) -> bool {
    b == 0x20 || b == 0x09 || b == 0x0A || b == 0x0C || b == 0x0D
}

/// The bytes of a board text once whitespace is left out.
pub open spec fn board_bytes(s: Seq<u8>) -> Seq<u8> {
    s.filter(|b: u8| !is_ascii_ws(b))
}

/// A byte `'1'` to `'9'` gives its digit; any other byte leaves the cell open.
pub open spec fn is_given(b: u8) -> bool {
    0x31 <= b <= 0x39
}

pub open spec fn given_digit(b: u8) -> int {
    b - 0x30
}

/// Some peer `j < k` of cell `i` is given the digit `d`.
pub open spec fn peer_given(g: Seq<u8>, k: int, i: int, d: int) -> bool {
    exists|j: int| 0 <= j < k && #[trigger] is_peer(i, j) && is_given(g[j]) && given_digit(g[j]) == d
}

/// Some peer `j` with `i < j < k` is given the same byte as cell `i`.
pub open spec fn later_clash(g: Seq<u8>, k: int, i: int) -> bool {
    exists|j: int| i < j < k && #[trigger] is_peer(i, j) && is_given(g[j]) && g[j] == g[i]
}

/// The candidates of cell `i` once the givens among the first `k` cells are
/// placed in order: a placed cell keeps its digit unless a later peer is given
/// the same digit (then it is left empty); any other cell keeps the digits 1
/// to 9 that no placed peer was given.
pub open spec fn loaded_cell(g: Seq<u8>, k: int, i: int, m: u16) -> bool {
    if i < k && is_given(g[i]) {
        m == if later_clash(g, k, i) {
            0u16
        } else {
            digit_bit(given_digit(g[i]))
        }
    } else {
        forall|d: int| #[trigger] holds(m, d) <==> (1 <= d <= 9 && !peer_given(g, k, i, d))
    }
}

/// The board that the 81 puzzle bytes `g` describe.
pub open spec fn is_puzzle_board(g: Seq<u8>, b: BoardState) -> bool {
    &&& b.cells.len() == 81
    &&& b.given.len() == 81
    &&& b.confirmed.len() == 81
    &&& forall|i: int| 0 <= i < 81 ==> loaded_cell(g, 81, i, #[trigger] b.cells[i])
    &&& forall|i: int| 0 <= i < 81 ==> #[trigger] b.given[i] == is_given(g[i])
    &&& forall|i: int| 0 <= i < 81 ==> #[trigger] b.confirmed[i] == is_given(g[i])
}

/// One more byte of the puzzle read: a given byte is placed, any other byte
/// changes nothing.
proof fn lemma_load_step(g: Seq<u8>, k: int, cells: Seq<u16>)
    requires
        g.len() == 81,
        0 <= k < 81,
        cells.len() == 81,
        forall|i: int| 0 <= i < 81 ==> loaded_cell(g, k, i, #[trigger] cells[i]),
    ensures
        is_given(g[k]) ==> forall|i: int|
            0 <= i < 81 ==> loaded_cell(
                g,
                k + 1,
                i,
                #[trigger] place(cells, k, given_digit(g[k]))[i],
            ),
        !is_given(g[k]) ==> forall|i: int|
            0 <= i < 81 ==> loaded_cell(g, k + 1, i, #[trigger] cells[i]),
{
    lemma_has_zero();
    if is_given(g[k]) {
        let e = given_digit(g[k]);
        lemma_has_bit(e as u16);
        assert forall|i: int| 0 <= i < 81 implies loaded_cell(
            g,
            k + 1,
            i,
            #[trigger] place(cells, k, e)[i],
        ) by {
            let m = cells[i];
            let n = place(cells, k, e)[i];
            assert(loaded_cell(g, k, i, m));
            if i == k {
                assert(!later_clash(g, k + 1, i));
            } else if is_peer(k, i) {
                lemma_has_clear(m, e as u16);
                assert(is_peer(i, k));
                if i < k && is_given(g[i]) {
                    let di = given_digit(g[i]);
                    lemma_has_bit(di as u16);
                    if later_clash(g, k, i) {
                        assert(later_clash(g, k + 1, i));
                        lemma_zero_iff_empty(n);
                    } else if g[k] == g[i] {
                        assert(later_clash(g, k + 1, i));
                        lemma_zero_iff_empty(n);
                    } else {
                        assert(!later_clash(g, k + 1, i));
                        lemma_mask_ext(n, digit_bit(di));
                    }
                } else {
                    assert forall|d: int| #[trigger] holds(n, d) <==> (1 <= d <= 9 && !peer_given(
                        g,
                        k + 1,
                        i,
                        d,
                    )) by {
                        if peer_given(g, k + 1, i, d) && !peer_given(g, k, i, d) {
                            let j = choose|j: int|
                                0 <= j < k + 1 && #[trigger] is_peer(i, j) && is_given(g[j])
                                    && given_digit(g[j]) == d;
                            assert(j == k);
                        }
                        if d == e {
                            assert(peer_given(g, k + 1, i, d));
                        }
                    }
                }
            } else {
                assert(!is_peer(i, k));
                if i < k && is_given(g[i]) {
                    assert(later_clash(g, k + 1, i) == later_clash(g, k, i));
                } else {
                    assert forall|d: int| peer_given(g, k + 1, i, d) == peer_given(g, k, i, d) by {
                        if peer_given(g, k + 1, i, d) {
                            let j = choose|j: int|
                                0 <= j < k + 1 && #[trigger] is_peer(i, j) && is_given(g[j])
                                    && given_digit(g[j]) == d;
                            assert(j != k);
                        }
                    }
                }
            }
        }
    } else {
        assert forall|i: int| 0 <= i < 81 implies loaded_cell(g, k + 1, i, #[trigger] cells[i]) by {
            assert(loaded_cell(g, k, i, cells[i]));
            if i < k && is_given(g[i]) {
                assert(later_clash(g, k + 1, i) == later_clash(g, k, i));
            } else {
                assert forall|d: int| peer_given(g, k + 1, i, d) == peer_given(g, k, i, d) by {
                    if peer_given(g, k + 1, i, d) {
                        let j = choose|j: int|
                            0 <= j < k + 1 && #[trigger] is_peer(i, j) && is_given(g[j])
                                && given_digit(g[j]) == d;
                        assert(j != k);
                    }
                }
            }
        }
    }
}

/// The bytes of `s` without whitespace.
fn board_chars(s: &str) -> (r: Vec<u8>)
    ensures
        r@ == board_bytes(s.spec_bytes()),
{
    let bytes = s.as_bytes();
    let mut out: Vec<u8> = Vec::new();
    let mut i: usize = 0;
    while i < bytes.len()
        invariant
            0 <= i <= bytes@.len(),
            bytes@ == s.spec_bytes(),
            out@ == board_bytes(bytes@.take(i as int)),
        decreases bytes@.len() - i,
    {
        let b = bytes[i];
        proof {
            assert(bytes@.take(i + 1) =~= bytes@.take(i as int).push(b));
            bytes@.take(i as int).lemma_filter_push(b, |b: u8| !is_ascii_ws(b));
        }
        if !(b == 0x20 || b == 0x09 || b == 0x0A || b == 0x0C || b == 0x0D) {
            out.push(b);
        }
        i += 1;
    }
    proof {
        assert(bytes@.take(bytes@.len() as int) =~= bytes@);
    }
    out
}

/// Reads a board text into 81 cells: `'1'` to `'9'` is a given digit, any
/// other byte an open cell; whitespace is left out.
pub fn parse_board(s: &str) -> (r: Vec<Option<u8>>)
    requires
        board_bytes(s.spec_bytes()).len() == 81,
    ensures
        r@.len() == 81,
        forall|i: int|
            0 <= i < 81 ==> #[trigger] r@[i] == if is_given(board_bytes(s.spec_bytes())[i]) {
                Some((board_bytes(s.spec_bytes())[i] - 0x30) as u8)
            } else {
                None
            },
{
    let bytes = board_chars(s);
    let mut out: Vec<Option<u8>> = Vec::new();
    let mut i: usize = 0;
    while i < 81
        invariant
            0 <= i <= 81,
            bytes@ == board_bytes(s.spec_bytes()),
            bytes@.len() == 81,
            out@.len() == i,
            forall|x: int|
                0 <= x < i ==> #[trigger] out@[x] == if is_given(bytes@[x]) {
                    Some((bytes@[x] - 0x30) as u8)
                } else {
                    None
                },
        decreases 81 - i,
    {
        let b = bytes[i];
        if b >= 0x31 && b <= 0x39 {
            out.push(Some(b - 0x30));
        } else {
            out.push(None);
        }
        i += 1;
    }
    out
}

/// Placing a digit keeps a board well formed, and so does assigning it or
/// removing a candidate.
pub proof fn lemma_transitions_wf(s: BoardState, c: int, d: int)
    requires
        s.wf(),
        0 <= c < 81,
    ensures
        1 <= d <= 9 ==> s.set_value(c, d).wf(),
        1 <= d <= 9 ==> s.assign(c, d).wf(),
        0 <= d < 16 ==> s.eliminate(c, d).wf(),
{
    if 1 <= d <= 9 {
        lemma_place_within(s.cells, c, d);
        lemma_count_bit(d as u16);
        assert forall|i: int| 0 <= i < 81 && i != c implies popcount(#[trigger] place(s.cells, c, d)[i])
            <= popcount(s.cells[i]) by {
            lemma_has_clear(s.cells[i], d as u16);
            lemma_count_mono(place(s.cells, c, d)[i], s.cells[i], 16);
        }
    }
    if 0 <= d < 16 {
        let t = s.eliminate(c, d);
        lemma_has_clear(s.cells[c], d as u16);
        lemma_count_mono(t.cells[c], s.cells[c], 16);
    }
}

#[derive(Clone)]
pub struct Sudoku {
    cells: [Mask; 81],
    peers: Vec<Vec<usize>>,
    units: Vec<[usize; 9]>,
    initially_given: [bool; 81],
    confirmed: [bool; 81],
}

impl View for Sudoku {
    type V = BoardState;

    closed spec fn view(&self) -> BoardState {
        BoardState { cells: self.cells@, given: self.initially_given@, confirmed: self.confirmed@ }
    }
}

impl Sudoku {
    /// The board is well formed: its units and peers are those of the grid,
    /// and every mask holds only digits 1 to 9.
    pub closed spec fn wf(&self) -> bool {
        &&& self@.wf()
        &&& self.peers@.len() == 81
        &&& forall|i: int| 0 <= i < 81 ==> peer_list(i, #[trigger] self.peers@[i]@)
        &&& self.units@.len() == 27
        &&& forall|u: int| 0 <= u < 27 ==> #[trigger] self.units@[u]@ == unit_seq(u)
    }

    /// What a well-formed board shows of itself: 81 cells holding only
    /// digits 1 to 9, a confirmed cell with at most one candidate, a given
    /// cell confirmed.
    pub proof fn lemma_wf(&self)
        requires
            self.wf(),
        ensures
            self@.wf(),
    {
    }

    /// An empty board: every cell has all nine candidates.
    pub fn new() -> (r: Self)
        ensures
            r.wf(),
            forall|i: int| 0 <= i < 81 ==> #[trigger] r@.cells[i] == ALL,
            forall|i: int| 0 <= i < 81 ==> !#[trigger] r@.given[i],
            forall|i: int| 0 <= i < 81 ==> !#[trigger] r@.confirmed[i],
            r@.cells.len() == 81,
            r@.given.len() == 81,
            r@.confirmed.len() == 81,
    {
        let (peers, units) = precompute();
        let r = Sudoku {
            cells: [ALL; 81],
            peers,
            units,
            initially_given: [false; 81],
            confirmed: [false; 81],
        };
        proof {
            lemma_has_all();
        }
        r
    }

    /// Fixes `cell` to `value` and removes `value` from every peer of `cell`.
    pub fn set_value(&mut self, cell: usize, value: usize)
        requires
            old(self).wf(),
            cell < 81,
            1 <= value <= 9,
        ensures
            final(self).wf(),
            final(self)@ == old(self)@.set_value(cell as int, value as int),
    {
        let mask: Mask = 1u16 << (value as u16);
        self.cells[cell] = mask;
        let n = self.peers[cell].len();
        let ghost c0 = old(self)@.cells;
        let ghost pl = self.peers@[cell as int]@;
        let mut t: usize = 0;
        while t < n
            invariant
                0 <= t <= n,
                n == pl.len(),
                cell < 81,
                mask == digit_bit(value as int),
                old(self).wf(),
                c0 == old(self)@.cells,
                self.peers == old(self).peers,
                self.units == old(self).units,
                self.initially_given == old(self).initially_given,
                self.confirmed == old(self).confirmed,
                pl == self.peers@[cell as int]@,
                peer_list(cell as int, pl),
                self.cells@.len() == 81,
                forall|j: int|
                    0 <= j < 81 ==> #[trigger] self.cells@[j] == if j == cell as int {
                        mask
                    } else if pl.take(t as int).contains(j as usize) {
                        c0[j] & !mask
                    } else {
                        c0[j]
                    },
            decreases n - t,
        {
            let peer = self.peers[cell][t];
            assert(is_peer(cell as int, peer as int));
            let ghost before = self.cells@;
            self.cells[peer] = self.cells[peer] & !mask;
            proof {
                assert(pl.take(t + 1) =~= pl.take(t as int).push(peer));
                lemma_clear_idem(c0[peer as int], mask);
                assert forall|j: int| 0 <= j < 81 implies #[trigger] self.cells@[j] == if j
                    == cell as int {
                    mask
                } else if pl.take(t + 1).contains(j as usize) {
                    c0[j] & !mask
                } else {
                    c0[j]
                } by {
                    if j == peer as int {
                        assert(pl.take(t + 1)[t as int] == peer);
                        assert(pl.take(t + 1).contains(j as usize));
                    } else {
                        assert(self.cells@[j] == before[j]);
                        assert(pl.take(t + 1).contains(j as usize) == pl.take(t as int).contains(
                            j as usize,
                        ));
                    }
                }
            }
            t += 1;
        }
        proof {
            assert(pl.take(n as int) =~= pl);
            assert(self.cells@ =~= place(c0, cell as int, value as int)) by {
                assert forall|j: int| 0 <= j < 81 implies #[trigger] self.cells@[j] == place(
                    c0,
                    cell as int,
                    value as int,
                )[j] by {
                    if j != cell as int && pl.contains(j as usize) {
                        let a = choose|a: int| 0 <= a < pl.len() && pl[a] == j as usize;
                        assert(is_peer(cell as int, pl[a] as int));
                    }
                    if is_peer(cell as int, j) {
                        assert(pl.contains(j as usize));
                    }
                }
            }
            assert(self@ =~= old(self)@.set_value(cell as int, value as int));
            lemma_transitions_wf(old(self)@, cell as int, value as int);
        }
    }

    /// Assigns `digit` to `cell` and marks the cell confirmed. Always `Ok`.
    pub fn assign(&mut self, cell: usize, digit: u8) -> (r: Result<(), ()>)
        requires
            old(self).wf(),
            cell < 81,
            1 <= digit <= 9,
        ensures
            final(self).wf(),
            final(self)@ == old(self)@.assign(cell as int, digit as int),
            r is Ok,
    {
        self.set_value(cell, digit as usize);
        proof {
            lemma_transitions_wf(old(self)@, cell as int, digit as int);
            lemma_count_bit(digit as u16);
        }
        self.confirmed[cell] = true;
        proof {
            assert(self@ =~= old(self)@.assign(cell as int, digit as int));
        }
        Ok(())
    }

    /// Removes `digit` from the candidates of `cell`; `Err` when none is left.
    pub fn eliminate(&mut self, cell: usize, digit: u8) -> (r: Result<(), ()>)
        requires
            old(self).wf(),
            cell < 81,
            digit < 16,
        ensures
            final(self).wf(),
            final(self)@ == old(self)@.eliminate(cell as int, digit as int),
            r is Err <==> final(self)@.cells[cell as int] == 0,
    {
        let mask: Mask = 1u16 << digit;
        self.cells[cell] = self.cells[cell] & !mask;
        proof {
            assert(self@ =~= old(self)@.eliminate(cell as int, digit as int));
            lemma_transitions_wf(old(self)@, cell as int, digit as int);
        }
        if self.cells[cell] == 0 {
            return Err(());
        }
        Ok(())
    }


    /// The board that the text `s` describes: 81 cells once whitespace is
    /// left out, `'1'` to `'9'` a given digit placed in reading order, any
    /// other byte an open cell.
    pub fn from_string(s: &str) -> (r: Self)
        requires
            board_bytes(s.spec_bytes()).len() == 81,
        ensures
            r.wf(),
            is_puzzle_board(board_bytes(s.spec_bytes()), r@),
    {
        let mut sdk = Sudoku::new();
        let bytes = board_chars(s);
        let ghost g = bytes@;
        proof {
            lemma_has_all();
            assert forall|i: int| 0 <= i < 81 implies loaded_cell(g, 0, i, #[trigger] sdk@.cells[i])
                by {
                assert forall|d: int| #[trigger] holds(sdk@.cells[i], d) <==> (1 <= d <= 9
                    && !peer_given(g, 0, i, d)) by {}
            }
        }
        let mut i: usize = 0;
        while i < 81
            invariant
                0 <= i <= 81,
                sdk.wf(),
                g == bytes@,
                g.len() == 81,
                sdk@.cells.len() == 81,
                sdk@.given.len() == 81,
                sdk@.confirmed.len() == 81,
                forall|x: int| 0 <= x < 81 ==> loaded_cell(g, i as int, x, #[trigger] sdk@.cells[x]),
                forall|x: int| 0 <= x < 81 ==> #[trigger] sdk@.given[x] == (x < i && is_given(g[x])),
                forall|x: int|
                    0 <= x < 81 ==> #[trigger] sdk@.confirmed[x] == (x < i && is_given(g[x])),
            decreases 81 - i,
        {
            let byte = bytes[i];
            proof {
                lemma_load_step(g, i as int, sdk@.cells);
            }
            let ghost before = sdk@.cells;
            if byte >= 0x31 && byte <= 0x39 {
                let digit = (byte - 0x30) as usize;
                sdk.set_value(i, digit);
                proof {
                    assert(digit as int == given_digit(g[i as int]));
                    assert(sdk@.cells == place(before, i as int, given_digit(g[i as int])));
                    lemma_count_bit(digit as u16);
                }
                sdk.confirmed[i] = true;
                sdk.initially_given[i] = true;
            }
            i += 1;
        }
        sdk
    }

    /// The cell shown as text: `"7"` for a single digit, `"[2,4,9]"` for
    /// several candidates.
    pub fn candidates_string(&self, cell: usize) -> (r: String)
        requires
            cell < 81,
            self.wf(),
        ensures
            r@ == candidates_text(self@.cells[cell as int]),
    {
        let mask = self.cells[cell];
        if count_ones(mask) == 1 {
            let mut digit: u8 = 1;
            while digit <= 9
                invariant
                    1 <= digit <= 10,
                    popcount(mask) == 1,
                    cell < 81,
                    self.wf(),
                    mask == self@.cells[cell as int],
                    forall|x: int| 1 <= x < digit ==> !#[trigger] holds(mask, x),
                decreases 10 - digit,
            {
                proof {
                    lemma_test_bit(mask, digit as u16);
                }
                if mask & (1u16 << digit) != 0 {
                    proof {
                        let s = sole_digit(mask);
                        assert(1 <= s <= 9 && holds(mask, s));
                        lemma_single_unique(mask, s, digit as int);
                        assert(mask == self@.cells[cell as int]);
                    }
                    let r = digit_str(digit as usize).to_owned();
                    assert(r@ == digit_text(digit as int));
                    return r;
                }
                digit += 1;
            }
        }
        let mut list = String::new();
        let mut any = false;
        let mut digit: u8 = 1;
        while digit <= 9
            invariant
                1 <= digit <= 10,
                cell < 81,
                self.wf(),
                mask == self@.cells[cell as int],
                list@ == digit_list(mask, digit as int),
                any == (list@.len() != 0),
            decreases 10 - digit,
        {
            proof {
                lemma_test_bit(mask, digit as u16);
                lemma_digit_text_len(digit as int);
            }
            if mask & (1u16 << digit) != 0 {
                if any {
                    list.append(",");
                }
                list.append(digit_str(digit as usize));
                any = true;
            }
            digit += 1;
        }
        let mut out = String::new();
        out.append("[");
        out.append(list.as_str());
        out.append("]");
        out
    }

    /// The candidate mask of `cell`.
    pub fn cell_mask(&self, cell: usize) -> (r: Mask)
        requires
            cell < 81,
            self.wf(),
        ensures
            r == self@.cells[cell as int],
    {
        self.cells[cell]
    }

    /// The 27 units, each as its nine cells.
    pub fn units(&self) -> (r: &Vec<[usize; 9]>)
        requires
            self.wf(),
        ensures
            r@.len() == 27,
            forall|u: int| 0 <= u < 27 ==> #[trigger] r@[u]@ == unit_seq(u),
    {
        &self.units
    }

    /// Whether `cell` was given by the puzzle.
    pub fn initially_given(&self, cell: usize) -> (r: bool)
        requires
            cell < 81,
            self.wf(),
        ensures
            r == self@.given[cell as int],
    {
        self.initially_given[cell]
    }

    /// Whether `cell` is confirmed, given or assigned.
    pub fn is_confirmed(&self, cell: usize) -> (r: bool)
        requires
            cell < 81,
            self.wf(),
        ensures
            r == self@.confirmed[cell as int],
    {
        self.confirmed[cell]
    }

    /// A copy of the board, with units and peers copied element by element.
    pub(crate) fn duplicate(&self) -> (r: Sudoku)
        requires
            self.wf(),
        ensures
            r.wf(),
            r@ == self@,
    {
        let mut peers: Vec<Vec<usize>> = Vec::new();
        let mut i: usize = 0;
        while i < 81
            invariant
                0 <= i <= 81,
                self.wf(),
                peers@.len() == i,
                forall|a: int| 0 <= a < i ==> #[trigger] peers@[a]@ == self.peers@[a]@,
            decreases 81 - i,
        {
            let src = &self.peers[i];
            let mut v: Vec<usize> = Vec::new();
            let mut k: usize = 0;
            while k < src.len()
                invariant
                    0 <= k <= src.len(),
                    v@ == src@.take(k as int),
                decreases src.len() - k,
            {
                v.push(src[k]);
                proof {
                    assert(src@.take(k + 1) =~= src@.take(k as int).push(src@[k as int]));
                }
                k += 1;
            }
            proof {
                assert(src@.take(src@.len() as int) =~= src@);
            }
            peers.push(v);
            i += 1;
        }
        let mut units: Vec<[usize; 9]> = Vec::new();
        let mut u: usize = 0;
        while u < 27
            invariant
                0 <= u <= 27,
                self.wf(),
                units@.len() == u,
                forall|a: int| 0 <= a < u ==> #[trigger] units@[a]@ == unit_seq(a),
            decreases 27 - u,
        {
            units.push(self.units[u]);
            u += 1;
        }
        let r = Sudoku {
            cells: self.cells,
            peers,
            units,
            initially_given: self.initially_given,
            confirmed: self.confirmed,
        };
        r
    }
}

/// The units of the grid (rows, columns, boxes) and the peers of each cell in
/// increasing order.
fn precompute() -> (r: (Vec<Vec<usize>>, Vec<[usize; 9]>))
    ensures
        r.0@.len() == 81,
        forall|i: int| 0 <= i < 81 ==> peer_list(i, #[trigger] r.0@[i]@),
        r.1@.len() == 27,
        forall|u: int| 0 <= u < 27 ==> #[trigger] r.1@[u]@ == unit_seq(u),
{
    let mut units: Vec<[usize; 9]> = Vec::with_capacity(27);
    let mut r: usize = 0;
    while r < 9
        invariant
            0 <= r <= 9,
            units@.len() == r,
            forall|a: int| 0 <= a < r ==> #[trigger] units@[a]@ == unit_seq(a),
        decreases 9 - r,
    {
        let mut u = [0usize; 9];
        let mut c: usize = 0;
        while c < 9
            invariant
                0 <= c <= 9,
                r < 9,
                forall|k: int| 0 <= k < c ==> #[trigger] u@[k] == unit_cell(r as int, k) as usize,
            decreases 9 - c,
        {
            u[c] = r * 9 + c;
            c += 1;
        }
        assert(u@ =~= unit_seq(r as int));
        units.push(u);
        r += 1;
    }
    let mut c: usize = 0;
    while c < 9
        invariant
            0 <= c <= 9,
            units@.len() == 9 + c,
            forall|a: int| 0 <= a < 9 + c ==> #[trigger] units@[a]@ == unit_seq(a),
        decreases 9 - c,
    {
        let mut u = [0usize; 9];
        let mut r: usize = 0;
        while r < 9
            invariant
                0 <= r <= 9,
                c < 9,
                forall|k: int| 0 <= k < r ==> #[trigger] u@[k] == unit_cell(9 + c, k) as usize,
            decreases 9 - r,
        {
            u[r] = r * 9 + c;
            r += 1;
        }
        assert(u@ =~= unit_seq(9 + c));
        units.push(u);
        c += 1;
    }
    let mut br: usize = 0;
    while br < 3
        invariant
            0 <= br <= 3,
            units@.len() == 18 + br * 3,
            forall|a: int| 0 <= a < 18 + br * 3 ==> #[trigger] units@[a]@ == unit_seq(a),
        decreases 3 - br,
    {
        let mut bc: usize = 0;
        while bc < 3
            invariant
                0 <= bc <= 3,
                br < 3,
                units@.len() == 18 + br * 3 + bc,
                forall|a: int| 0 <= a < 18 + br * 3 + bc ==> #[trigger] units@[a]@ == unit_seq(a),
            decreases 3 - bc,
        {
            let mut u = [0usize; 9];
            let mut k: usize = 0;
            let mut dr: usize = 0;
            while dr < 3
                invariant
                    0 <= dr <= 3,
                    br < 3,
                    bc < 3,
                    k == dr * 3,
                    forall|x: int|
                        0 <= x < k ==> #[trigger] u@[x] == unit_cell(
                            18 + br * 3 + bc,
                            x,
                        ) as usize,
                decreases 3 - dr,
            {
                let mut dc: usize = 0;
                while dc < 3
                    invariant
                        0 <= dc <= 3,
                        0 <= dr < 3,
                        br < 3,
                        bc < 3,
                        k == dr * 3 + dc,
                        forall|x: int|
                            0 <= x < k ==> #[trigger] u@[x] == unit_cell(
                                18 + br * 3 + bc,
                                x,
                            ) as usize,
                    decreases 3 - dc,
                {
                    let r = br * 3 + dr;
                    let c = bc * 3 + dc;
                    u[k] = r * 9 + c;
                    k += 1;
                    dc += 1;
                }
                dr += 1;
            }
            assert(u@ =~= unit_seq(18 + br * 3 + bc));
            units.push(u);
            bc += 1;
        }
        br += 1;
    }
    let mut peers: Vec<Vec<usize>> = Vec::with_capacity(81);
    let mut i: usize = 0;
    while i < 81
        invariant
            0 <= i <= 81,
            units@.len() == 27,
            forall|u: int| 0 <= u < 27 ==> #[trigger] units@[u]@ == unit_seq(u),
            peers@.len() == i,
            forall|a: int| 0 <= a < i ==> peer_list(a, #[trigger] peers@[a]@),
        decreases 81 - i,
    {
        let mut mark = [false; 81];
        let r = i / 9;
        let c = i % 9;
        let row_ui = r;
        let col_ui = 9 + c;
        let block_ui = 18 + (r / 3) * 3 + (c / 3);
        proof {
            lemma_peer_units(i as int, 0);
            assert(row_ui == row_unit(i as int) && col_ui == col_unit(i as int) && block_ui
                == box_unit(i as int));
        }
        let three = [row_ui, col_ui, block_ui];
        let mut w: usize = 0;
        while w < 3
            invariant
                0 <= w <= 3,
                i < 81,
                three@ == seq![row_unit(i as int) as usize, col_unit(i as int) as usize, box_unit(i as int) as usize],
                units@.len() == 27,
                forall|u: int| 0 <= u < 27 ==> #[trigger] units@[u]@ == unit_seq(u),
                forall|j: int|
                    0 <= j < 81 ==> #[trigger] mark@[j] == (j != i && exists|x: int|
                        0 <= x < w && in_unit(three@[x] as int, j)),
            decreases 3 - w,
        {
            let ui = three[w];
            proof {
                lemma_peer_units(i as int, 0);
            }
            let ghost prev = mark@;
            let mut k: usize = 0;
            while k < 9
                invariant
                    0 <= k <= 9,
                    i < 81,
                    0 <= ui < 27,
                    units@.len() == 27,
                    forall|u: int| 0 <= u < 27 ==> #[trigger] units@[u]@ == unit_seq(u),
                    forall|j: int|
                        0 <= j < 81 ==> #[trigger] mark@[j] == (prev[j] || (j != i && in_unit(
                            ui as int,
                            j,
                        ) && unit_pos(ui as int, j) < k)),
                decreases 9 - k,
            {
                let cell = units[ui][k];
                proof {
                    lemma_unit_cell(ui as int, k as int);
                    assert(cell as int == unit_cell(ui as int, k as int));
                }
                if cell != i {
                    mark[cell] = true;
                }
                proof {
                    assert forall|j: int| 0 <= j < 81 implies #[trigger] mark@[j] == (prev[j] || (j
                        != i && in_unit(ui as int, j) && unit_pos(ui as int, j) < k + 1)) by {
                        if in_unit(ui as int, j) {
                            lemma_unit_pos(ui as int, j);
                        }
                    }
                }
                k += 1;
            }
            proof {
                assert forall|j: int| 0 <= j < 81 implies #[trigger] mark@[j] == (j != i && exists|
                    x: int,
                | 0 <= x < w + 1 && in_unit(three@[x] as int, j)) by {
                    if in_unit(ui as int, j) {
                        lemma_unit_pos(ui as int, j);
                        assert(in_unit(three@[w as int] as int, j));
                    }
                    if exists|x: int| 0 <= x < w + 1 && in_unit(three@[x] as int, j) {
                        let x = choose|x: int| 0 <= x < w + 1 && in_unit(three@[x] as int, j);
                        if x < w {
                            assert(exists|x: int| 0 <= x < w && in_unit(three@[x] as int, j));
                        } else {
                            lemma_unit_pos(ui as int, j);
                        }
                    }
                }
            }
            w += 1;
        }
        proof {
            assert forall|j: int| 0 <= j < 81 implies #[trigger] mark@[j] == is_peer(i as int, j) by {
                lemma_peer_units(i as int, j);
                if in_unit(row_unit(i as int), j) {
                    assert(in_unit(three@[0] as int, j));
                }
                if in_unit(col_unit(i as int), j) {
                    assert(in_unit(three@[1] as int, j));
                }
                if in_unit(box_unit(i as int), j) {
                    assert(in_unit(three@[2] as int, j));
                }
            }
        }
        let mut v: Vec<usize> = Vec::with_capacity(20);
        let mut idx: usize = 0;
        while idx < 81
            invariant
                0 <= idx <= 81,
                i < 81,
                forall|j: int| 0 <= j < 81 ==> #[trigger] mark@[j] == is_peer(i as int, j),
                forall|a: int, b: int| 0 <= a < b < v@.len() ==> v@[a] < v@[b],
                forall|a: int| 0 <= a < v@.len() ==> is_peer(i as int, #[trigger] v@[a] as int),
                forall|a: int| 0 <= a < v@.len() ==> #[trigger] v@[a] < idx,
                forall|j: int| 0 <= j < idx && #[trigger] is_peer(i as int, j) ==> v@.contains(
                    j as usize,
                ),
            decreases 81 - idx,
        {
            if mark[idx] {
                let ghost old_v = v@;
                v.push(idx);
                proof {
                    assert forall|j: int| 0 <= j < idx + 1 && #[trigger] is_peer(i as int, j)
                        implies v@.contains(j as usize) by {
                        if j < idx {
                            let a = choose|a: int| 0 <= a < old_v.len() && old_v[a] == j as usize;
                            assert(v@[a] == j as usize);
                        } else {
                            assert(v@[v@.len() - 1] == j as usize);
                        }
                    }
                }
            }
            idx += 1;
        }
        peers.push(v);
        i += 1;
    }
    (peers, units)
}

} // verus!
