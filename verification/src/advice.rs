//! Reading a player's board against the puzzle: checking the given cells,
//! placing the player's digits, listing the player's moves, and the board
//! with the premature moves taken out.
use vstd::prelude::*;

use crate::diagnosis::{contains_move, lemma_assign_moves_push};
use crate::strategy::assign_moves;
use crate::grid::is_peer;
use crate::mask::{holds, lemma_has_clear, popcount, sole_digit};
use crate::strategy::single_digit;
use crate::sudoku::{BoardState, Sudoku};

verus! {

/// A problem found when the player's board is read against the puzzle.
#[derive(Clone, Copy, Debug, PartialEq, Eq, Structural)]
pub enum BoardIssue {
    /// A given cell where the player wrote another digit.
    GivenMismatch { cell: usize, given: u8, user: u8 },
    /// A given cell whose mask no longer holds a single digit.
    GivenNotSingle { cell: usize },
    /// A player's digit whose assignment failed.
    Conflict { cell: usize, digit: u8 },
}

/// The digit of a mask with exactly one bit, when that bit is a digit 1 to 9.
pub open spec fn single_digit_of(m: u16) -> Option<int> {
    if popcount(m) == 1 && exists|d: int| 1 <= d <= 9 && #[trigger] holds(m, d) {
        Some(sole_digit(m))
    } else {
        None
    }
}

/// A player's board: 81 cells, each empty or a digit 1 to 9.
pub open spec fn user_board_ok(user: Seq<Option<u8>>) -> bool {
    &&& user.len() == 81
    &&& forall|i: int| 0 <= i < 81 ==> (#[trigger] user[i] matches Some(d) ==> 1 <= d <= 9)
}

/// The first `n` cells of the player's board read in order: a digit on a
/// given cell is compared with the given digit; a digit on any other cell is
/// assigned. The issues found and the board reached.
pub open spec fn review_upto(s: BoardState, user: Seq<Option<u8>>, n: int) -> (
    Seq<BoardIssue>,
    BoardState,
)
    decreases n,
{
    if n <= 0 {
        (Seq::empty(), s)
    } else {
        let (issues, b) = review_upto(s, user, n - 1);
        let i = n - 1;
        match user[i] {
            None => (issues, b),
            Some(d) => if b.given[i] {
                match single_digit_of(b.cells[i]) {
                    Some(g) => if g == d {
                        (issues, b)
                    } else {
                        (
                            issues.push(
                                BoardIssue::GivenMismatch { cell: i as usize, given: g as u8, user: d },
                            ),
                            b,
                        )
                    },
                    None => (issues.push(BoardIssue::GivenNotSingle { cell: i as usize }), b),
                }
            } else {
                (issues, b.assign(i, d as int))
            },
        }
    }
}

/// The player's moves among the first `n` cells: each digit on a cell that
/// was not given, in cell order.
pub open spec fn user_moves_upto(s: BoardState, user: Seq<Option<u8>>, n: int) -> Seq<(usize, u8)>
    decreases n,
{
    if n <= 0 {
        Seq::empty()
    } else {
        let i = n - 1;
        user_moves_upto(s, user, n - 1) + match user[i] {
            Some(d) => if !s.given[i] {
                seq![(i as usize, d)]
            } else {
                Seq::empty()
            },
            None => Seq::empty(),
        }
    }
}

/// The player's board without the premature moves: a digit stays where the
/// cell was given or the move is not premature.
pub open spec fn corrected(s: BoardState, user: Seq<Option<u8>>, premature: Seq<(usize, u8)>) -> Seq<
    Option<u8>,
> {
    Seq::new(
        81,
        |i: int|
            match user[i] {
                Some(d) => if s.given[i] || !premature.contains((i as usize, d)) {
                    Some(d)
                } else {
                    None
                },
                None => None,
            },
    )
}


proof fn lemma_review_upto(s: BoardState, user: Seq<Option<u8>>, n: int)
    requires
        s.wf(),
        user_board_ok(user),
        0 <= n <= 81,
    ensures
        review_upto(s, user, n).1 == assign_moves(s, user_moves_upto(s, user, n)),
        review_upto(s, user, n).1.given == s.given,
        review_upto(s, user, n).1.confirmed.len() == 81,
        forall|i: int|
            0 <= i < 81 ==> #[trigger] review_upto(s, user, n).1.confirmed[i] == (s.confirmed[i] || (i
                < n && user[i] is Some && !s.given[i])),
    decreases n,
{
    if n > 0 {
        lemma_review_upto(s, user, n - 1);
        let i = n - 1;
        let b = review_upto(s, user, n - 1).1;
        let m = user_moves_upto(s, user, n - 1);
        match user[i] {
            Some(d) => {
                if !s.given[i] {
                    assert(user_moves_upto(s, user, n) == m + seq![(i as usize, d)]);
                    assert(m + seq![(i as usize, d)] =~= m.push((i as usize, d)));
                    lemma_assign_moves_push(s, m, (i as usize, d));
                } else {
                    assert(user_moves_upto(s, user, n) =~= m);
                }
            },
            None => {
                assert(user_moves_upto(s, user, n) =~= m);
            },
        }
    }
}

/// Reviewing the player's board places the player's moves: the board
/// reached is the board after assigning, in cell order, every player's digit
/// on a cell that was not given, whatever that cell's candidates were; those
/// cells end confirmed, no other cell changes its flags.
pub proof fn lemma_review_places_moves(s: BoardState, user: Seq<Option<u8>>)
    requires
        s.wf(),
        user_board_ok(user),
    ensures
        review_upto(s, user, 81).1 == assign_moves(s, user_moves_upto(s, user, 81)),
        review_upto(s, user, 81).1.given == s.given,
        forall|i: int|
            0 <= i < 81 ==> #[trigger] review_upto(s, user, 81).1.confirmed[i] == (s.confirmed[i] || (
            user[i] is Some && !s.given[i])),
{
    lemma_review_upto(s, user, 81);
}

/// The cell an issue is about.
pub open spec fn issue_cell(x: BoardIssue) -> int {
    match x {
        BoardIssue::GivenMismatch { cell, .. } => cell as int,
        BoardIssue::GivenNotSingle { cell } => cell as int,
        BoardIssue::Conflict { cell, .. } => cell as int,
    }
}

/// Reading the player's board only narrows the candidates of given cells.
proof fn lemma_review_narrows(s: BoardState, user: Seq<Option<u8>>, n: int)
    requires
        s.wf(),
        user_board_ok(user),
        0 <= n <= 81,
    ensures
        review_upto(s, user, n).1.cells.len() == 81,
        forall|j: int, d: int|
            0 <= j < 81 && s.given[j] && #[trigger] holds(review_upto(s, user, n).1.cells[j], d) ==> holds(
                s.cells[j],
                d,
            ),
    decreases n,
{
    if n > 0 {
        lemma_review_narrows(s, user, n - 1);
        lemma_review_upto(s, user, n - 1);
        let i = n - 1;
        let b = review_upto(s, user, n - 1).1;
        if let Some(d) = user[i] {
            if !b.given[i] {
                let b2 = b.assign(i, d as int);
                assert(b2.cells.len() == 81);
                lemma_has_clear_all(b.cells, d as u16);
                assert forall|j: int, e: int|
                    0 <= j < 81 && s.given[j] && #[trigger] holds(b2.cells[j], e) implies holds(
                    s.cells[j],
                    e,
                ) by {
                    assert(j != i);
                    if is_peer(i, j) {
                        assert(b2.cells[j] == b.cells[j] & !(1u16 << (d as u16)));
                        assert(holds(b.cells[j], e));
                    } else {
                        assert(b2.cells[j] == b.cells[j]);
                    }
                }
            }
        }
    }
}

/// Clearing one bit keeps the other bits, for every cell.
proof fn lemma_has_clear_all(cells: Seq<u16>, e: u16)
    requires
        e < 16,
    ensures
        forall|j: int, d: int|
            #[trigger] holds(cells[j] & !(1u16 << e), d) ==> holds(cells[j], d),
{
    assert forall|j: int, d: int| #[trigger] holds(cells[j] & !(1u16 << e), d) implies holds(
        cells[j],
        d,
    ) by {
        lemma_has_clear(cells[j], e);
    }
}

/// The issues of the first `n` cells: each is about a given cell where the
/// player wrote a digit, in cell order, one per cell, never a failed
/// assignment; a reported mismatch names a digit the given cell holds and
/// the player's other digit; and a player's digit that the given cell does
/// not hold is always reported.
proof fn lemma_review_issues_upto(s: BoardState, user: Seq<Option<u8>>, n: int)
    requires
        s.wf(),
        user_board_ok(user),
        0 <= n <= 81,
    ensures
        ({
            let issues = review_upto(s, user, n).0;
            &&& forall|k: int|
                0 <= k < issues.len() ==> {
                    let c = #[trigger] issue_cell(issues[k]);
                    &&& 0 <= c < n
                    &&& s.given[c]
                    &&& user[c] is Some
                    &&& issues[k] !is Conflict
                    &&& (issues[k] matches BoardIssue::GivenMismatch { cell, given, user: u } ==> user[c]
                        == Some(u) && given != u && holds(s.cells[c], given as int))
                }
            &&& forall|a: int, b: int|
                0 <= a < b < issues.len() ==> #[trigger] issue_cell(issues[a]) < #[trigger] issue_cell(
                    issues[b],
                )
            &&& forall|i: int|
                0 <= i < n && s.given[i] && #[trigger] user[i] is Some && !holds(s.cells[i], user[i]->0 as int)
                    ==> exists|k: int| 0 <= k < issues.len() && #[trigger] issue_cell(issues[k]) == i
        }),
    decreases n,
{
    if n > 0 {
        lemma_review_issues_upto(s, user, n - 1);
        lemma_review_upto(s, user, n - 1);
        lemma_review_narrows(s, user, n - 1);
        let i = n - 1;
        let (issues, b) = review_upto(s, user, n - 1);
        let out = review_upto(s, user, n).0;
        if let Some(d) = user[i] {
            if b.given[i] {
                let m = b.cells[i];
                let x = match single_digit_of(m) {
                    Some(g) => BoardIssue::GivenMismatch { cell: i as usize, given: g as u8, user: d },
                    None => BoardIssue::GivenNotSingle { cell: i as usize },
                };
                if let Some(g) = single_digit_of(m) {
                    let w = choose|w: int| 1 <= w <= 9 && #[trigger] holds(m, w);
                    assert(holds(m, g));
                    assert(holds(s.cells[i], g));
                    if g != d {
                        assert(out == issues.push(x));
                    } else {
                        assert(out == issues);
                    }
                } else {
                    assert(out == issues.push(x));
                }
                assert forall|j: int|
                    0 <= j < n && s.given[j] && #[trigger] user[j] is Some && !holds(s.cells[j], user[j]->0 as int)
                        implies exists|k: int| 0 <= k < out.len() && #[trigger] issue_cell(out[k]) == j by {
                    if j < i {
                        let k = choose|k: int| 0 <= k < issues.len() && #[trigger] issue_cell(issues[k]) == j;
                        assert(out[k] == issues[k]);
                    } else {
                        assert(out.len() == issues.len() + 1);
                        assert(out[issues.len() as int] == x);
                        assert(issue_cell(out[issues.len() as int]) == j);
                    }
                }
                assert forall|k: int| 0 <= k < out.len() implies #[trigger] issue_cell(out[k]) < n by {
                    if k < issues.len() {
                        assert(out[k] == issues[k]);
                    }
                }
            } else {
                assert(out == issues);
            }
        } else {
            assert(out == issues);
        }
    }
}

/// What the review reports: each issue is about a given cell where the
/// player wrote a digit, in cell order and once per cell, and no assignment
/// fails; a mismatch names a digit the given cell holds and the player's
/// other digit; a player's digit that a given cell does not hold is always
/// reported.
pub proof fn lemma_review_issues(s: BoardState, user: Seq<Option<u8>>)
    requires
        s.wf(),
        user_board_ok(user),
    ensures
        ({
            let issues = review_upto(s, user, 81).0;
            &&& forall|k: int|
                0 <= k < issues.len() ==> {
                    let c = #[trigger] issue_cell(issues[k]);
                    &&& 0 <= c < 81
                    &&& s.given[c]
                    &&& user[c] is Some
                    &&& issues[k] !is Conflict
                    &&& (issues[k] matches BoardIssue::GivenMismatch { cell, given, user: u } ==> user[c]
                        == Some(u) && given != u && holds(s.cells[c], given as int))
                }
            &&& forall|a: int, b: int|
                0 <= a < b < issues.len() ==> #[trigger] issue_cell(issues[a]) < #[trigger] issue_cell(
                    issues[b],
                )
            &&& forall|i: int|
                0 <= i < 81 && s.given[i] && #[trigger] user[i] is Some && !holds(s.cells[i], user[i]->0 as int)
                    ==> exists|k: int| 0 <= k < issues.len() && #[trigger] issue_cell(issues[k]) == i
        }),
{
    lemma_review_issues_upto(s, user, 81);
}

/// The player's moves are the player's digits on cells that were not given,
/// in cell order.
pub proof fn lemma_user_moves_exact(s: BoardState, user: Seq<Option<u8>>, n: int)
    requires
        user.len() == 81,
        0 <= n <= 81,
    ensures
        forall|k: int|
            0 <= k < user_moves_upto(s, user, n).len() ==> {
                let p = #[trigger] user_moves_upto(s, user, n)[k];
                &&& 0 <= p.0 < n
                &&& user[p.0 as int] == Some(p.1)
                &&& !s.given[p.0 as int]
            },
        forall|i: int|
            0 <= i < n && user[i] is Some && !s.given[i] ==> #[trigger] user_moves_upto(
                s,
                user,
                n,
            ).contains((i as usize, user[i]->0)),
        forall|a: int, b: int|
            0 <= a < b < user_moves_upto(s, user, n).len() ==> #[trigger] user_moves_upto(s, user, n)[a].0
                < #[trigger] user_moves_upto(s, user, n)[b].0,
    decreases n,
{
    if n > 0 {
        lemma_user_moves_exact(s, user, n - 1);
        let m = user_moves_upto(s, user, n - 1);
        let i = n - 1;
        let cur = user_moves_upto(s, user, n);
        if user[i] is Some && !s.given[i] {
            let x = (i as usize, user[i]->0);
            assert(cur == m + seq![x]);
            assert(cur[m.len() as int] == x);
            assert forall|k: int| 0 <= k < cur.len() implies {
                let p = #[trigger] cur[k];
                &&& 0 <= p.0 < n
                &&& user[p.0 as int] == Some(p.1)
                &&& !s.given[p.0 as int]
            } by {
                if k < m.len() {
                    assert(cur[k] == m[k]);
                }
            }
            assert forall|j: int| 0 <= j < n && user[j] is Some && !s.given[j] implies #[trigger] cur.contains(
                (j as usize, user[j]->0),
            ) by {
                if j < i {
                    assert(m.contains((j as usize, user[j]->0)));
                    let k = choose|k: int| 0 <= k < m.len() && m[k] == (j as usize, user[j]->0);
                    assert(cur[k] == m[k]);
                } else {
                    assert(cur[m.len() as int] == x);
                }
            }
            assert forall|a: int, b: int| 0 <= a < b < cur.len() implies #[trigger] cur[a].0 < #[trigger] cur[b].0 by {
                assert(cur[a] == m[a]);
                if b < m.len() {
                    assert(cur[b] == m[b]);
                    assert(m[a].0 < m[b].0);
                } else {
                    assert(m[a].0 < n - 1);
                }
            }
        } else {
            assert(cur =~= m);
            assert forall|j: int| 0 <= j < n && user[j] is Some && !s.given[j] implies #[trigger] cur.contains(
                (j as usize, user[j]->0),
            ) by {
                assert(j < i);
            }
            assert forall|k: int| 0 <= k < cur.len() implies {
                let p = #[trigger] cur[k];
                &&& 0 <= p.0 < n
                &&& user[p.0 as int] == Some(p.1)
                &&& !s.given[p.0 as int]
            } by {
                assert(cur[k] == m[k]);
            }
            assert forall|a: int, b: int| 0 <= a < b < cur.len() implies #[trigger] cur[a].0 < #[trigger] cur[b].0 by {
                assert(m[a].0 < m[b].0);
            }
        }
    }
}

/// Reads the player's board against `base`: checks the digits on given
/// cells and assigns the others to `base`, in cell order.
pub fn review_user_board(base: &mut Sudoku, user: &[Option<u8>]) -> (r: Vec<BoardIssue>)
    requires
        old(base).wf(),
        user_board_ok(user@),
    ensures
        final(base).wf(),
        r@ == review_upto(old(base)@, user@, 81).0,
        final(base)@ == review_upto(old(base)@, user@, 81).1,
{
    let ghost s0 = old(base)@;
    let mut errors: Vec<BoardIssue> = Vec::new();
    let mut i: usize = 0;
    while i < 81
        invariant
            0 <= i <= 81,
            base.wf(),
            user_board_ok(user@),
            s0 == old(base)@,
            errors@ == review_upto(s0, user@, i as int).0,
            base@ == review_upto(s0, user@, i as int).1,
        decreases 81 - i,
    {
        proof {
            base.lemma_wf();
        }
        if let Some(d) = user[i] {
            if base.initially_given(i) {
                match single_digit(base.cell_mask(i)) {
                    Some(g) => {
                        if g != d {
                            errors.push(BoardIssue::GivenMismatch { cell: i, given: g, user: d });
                        }
                    },
                    None => {
                        errors.push(BoardIssue::GivenNotSingle { cell: i });
                    },
                }
            } else {
                if base.assign(i, d).is_err() {
                    errors.push(BoardIssue::Conflict { cell: i, digit: d });
                }
            }
        }
        i += 1;
    }
    errors
}

/// The player's moves: each digit on a cell that was not given, in cell
/// order.
pub fn collect_user_moves(base: &Sudoku, user: &[Option<u8>]) -> (r: Vec<(usize, u8)>)
    requires
        base.wf(),
        user@.len() == 81,
    ensures
        r@ == user_moves_upto(base@, user@, 81),
{
    let mut moves: Vec<(usize, u8)> = Vec::new();
    let mut i: usize = 0;
    while i < 81
        invariant
            0 <= i <= 81,
            base.wf(),
            user@.len() == 81,
            moves@ == user_moves_upto(base@, user@, i as int),
        decreases 81 - i,
    {
        proof {
            base.lemma_wf();
        }
        if let Some(d) = user[i] {
            if !base.initially_given(i) {
                moves.push((i, d));
            }
        }
        proof {
            assert(moves@ =~= user_moves_upto(base@, user@, i + 1));
        }
        i += 1;
    }
    moves
}

/// The player's board with the premature moves taken out; given cells stay.
pub fn corrected_board(base: &Sudoku, user: &[Option<u8>], premature: &[(usize, u8)]) -> (r: Vec<
    Option<u8>,
>)
    requires
        base.wf(),
        user@.len() == 81,
    ensures
        r@ == corrected(base@, user@, premature@),
{
    let mut out: Vec<Option<u8>> = Vec::new();
    let mut i: usize = 0;
    while i < 81
        invariant
            0 <= i <= 81,
            base.wf(),
            user@.len() == 81,
            out@.len() == i,
            forall|x: int| 0 <= x < i ==> #[trigger] out@[x] == corrected(base@, user@, premature@)[x],
        decreases 81 - i,
    {
        proof {
            base.lemma_wf();
        }
        let cell = match user[i] {
            Some(d) => if base.initially_given(i) || !contains_move(premature, (i, d)) {
                Some(d)
            } else {
                None
            },
            None => None,
        };
        out.push(cell);
        i += 1;
    }
    proof {
        assert(out@ =~= corrected(base@, user@, premature@));
    }
    out
}

} // verus!
