//! Diagnosing a player's moves: which are possible, which subsets
//! contradict, and which moves or pairs of moves to suspect.
use vstd::prelude::*;

use crate::engine::{
    all_found, group_views, lemma_hint_sound, lemma_technique_hint, lemma_unconfirmed_update,
    technique_hints, technique_name, unconfirmed_from, Engine, Technique,
};
use crate::grid::is_solution;
use crate::solution::{consistent, lemma_place_keeps, solvable};
use crate::strategy::{assign_all, assign_moves, hint_views, moves_ok, Hint, HintLevel, HintView};
use crate::sudoku::{lemma_transitions_wf, BoardState, Sudoku};

verus! {

/// Some solution agrees with the board after the moves `m`.
pub open spec fn solvable_after(s: BoardState, m: Seq<(usize, u8)>) -> bool {
    solvable(assign_moves(s, m).cells)
}


/// Some cell has no candidate left.
pub open spec fn has_empty_cell(b: BoardState) -> bool {
    exists|i: int| 0 <= i < 81 && #[trigger] b.cells[i] == 0
}

/// Some assignment along the moves leaves a cell without candidates.
pub open spec fn empties_along(s: BoardState, m: Seq<(usize, u8)>) -> bool {
    exists|k: int| 1 <= k <= m.len() && #[trigger] has_empty_cell(assign_moves(s, m.take(k)))
}

/// The moves are acceptable: no assignment along them leaves a cell without
/// candidates, and the board after them has a solution.
pub open spec fn moves_acceptable(s: BoardState, m: Seq<(usize, u8)>) -> bool {
    !empties_along(s, m) && solvable_after(s, m)
}

/// `f` picks, in increasing order, the positions of `b` that make up `a`.
pub open spec fn subseq_witness(a: Seq<(usize, u8)>, b: Seq<(usize, u8)>, f: Seq<int>) -> bool {
    &&& f.len() == a.len()
    &&& forall|k: int| 0 <= k < f.len() ==> 0 <= #[trigger] f[k] < b.len() && a[k] == b[f[k]]
    &&& forall|k1: int, k2: int| 0 <= k1 < k2 < f.len() ==> #[trigger] f[k1] < #[trigger] f[k2]
}

/// `a` is `b` with some entries left out, the rest in their order.
pub open spec fn is_subseq(a: Seq<(usize, u8)>, b: Seq<(usize, u8)>) -> bool {
    exists|f: Seq<int>| #[trigger] subseq_witness(a, b, f)
}

proof fn lemma_subseq_refl(a: Seq<(usize, u8)>)
    ensures
        is_subseq(a, a),
{
    let f = Seq::new(a.len(), |k: int| k);
    assert(subseq_witness(a, a, f));
}

proof fn lemma_subseq_remove(a: Seq<(usize, u8)>, i: int)
    requires
        0 <= i < a.len(),
    ensures
        is_subseq(a.remove(i), a),
{
    let f = Seq::new((a.len() - 1) as nat, |k: int| if k < i { k } else { k + 1 });
    assert(subseq_witness(a.remove(i), a, f));
}

proof fn lemma_subseq_trans(a: Seq<(usize, u8)>, b: Seq<(usize, u8)>, c: Seq<(usize, u8)>)
    requires
        is_subseq(a, b),
        is_subseq(b, c),
    ensures
        is_subseq(a, c),
{
    let f = choose|f: Seq<int>| subseq_witness(a, b, f);
    let g = choose|g: Seq<int>| subseq_witness(b, c, g);
    let h = Seq::new(a.len(), |k: int| g[f[k]]);
    assert forall|k1: int, k2: int| 0 <= k1 < k2 < h.len() implies #[trigger] h[k1] < #[trigger] h[k2] by {
        assert(f[k1] < f[k2]);
    }
    assert(subseq_witness(a, c, h));
}

proof fn lemma_subseq_ok(a: Seq<(usize, u8)>, b: Seq<(usize, u8)>)
    requires
        is_subseq(a, b),
        moves_ok(b),
    ensures
        moves_ok(a),
{
    let f = choose|f: Seq<int>| subseq_witness(a, b, f);
    assert forall|k: int| 0 <= k < a.len() implies #[trigger] a[k].0 < 81 && 1 <= a[k].1 <= 9 by {
        assert(a[k] == b[f[k]]);
    }
}

/// Assigning one more move continues from the board after the others.
pub proof fn lemma_assign_moves_push(s: BoardState, a: Seq<(usize, u8)>, x: (usize, u8))
    ensures
        assign_moves(s, a.push(x)) == assign_moves(s, a).assign(x.0 as int, x.1 as int),
    decreases a.len(),
{
    if a.len() == 0 {
        assert(a.push(x).drop_first() =~= Seq::<(usize, u8)>::empty());
        assert(a.push(x)[0] == x);
        let t = s.assign(x.0 as int, x.1 as int);
        assert(assign_moves(t, Seq::<(usize, u8)>::empty()) == t);
        assert(assign_moves(s, a) == s);
    } else {
        assert(a.push(x).drop_first() =~= a.drop_first().push(x));
        assert(a.push(x)[0] == a[0]);
        lemma_assign_moves_push(s.assign(a[0].0 as int, a[0].1 as int), a.drop_first(), x);
    }
}

/// One pass of the shrinking: from position `i` on, drop each move whose
/// removal leaves the moves unsolvable, and move past the others.
pub open spec fn sweep(s: BoardState, m: Seq<(usize, u8)>, i: int) -> Seq<(usize, u8)>
    decreases m.len() - i,
{
    if i < 0 || i >= m.len() {
        m
    } else if !moves_acceptable(s, m.remove(i)) {
        sweep(s, m.remove(i), i)
    } else {
        sweep(s, m, i + 1)
    }
}

/// Passes of `sweep` repeated until one drops nothing.
pub open spec fn shrink(s: BoardState, m: Seq<(usize, u8)>) -> Seq<(usize, u8)>
    decreases m.len(),
{
    let m2 = sweep(s, m, 0);
    if m2.len() < m.len() {
        shrink(s, m2)
    } else {
        m
    }
}

/// The moves of `m` whose removal alone makes the rest solvable, in order.
pub open spec fn single_suspects(s: BoardState, m: Seq<(usize, u8)>, n: int) -> Seq<(usize, u8)>
    decreases n,
{
    if n <= 0 {
        Seq::empty()
    } else {
        single_suspects(s, m, n - 1) + if solvable_after(s, m.remove(n - 1)) {
            seq![m[n - 1]]
        } else {
            Seq::empty()
        }
    }
}

/// The pairs `(a, b)` with `b` from `a + 1` to `n - 1`.
pub open spec fn pair_block(a: int, n: int) -> Seq<(int, int)> {
    Seq::new((n - a - 1) as nat, |k: int| (a, a + 1 + k))
}

/// The pairs `(a, b)` with `a < b < n` and `a` below `k`, in the order
/// `a` first, then `b`.
pub open spec fn pairs_upto(k: int, n: int) -> Seq<(int, int)>
    decreases k,
{
    if k <= 0 {
        Seq::empty()
    } else {
        pairs_upto(k - 1, n) + pair_block(k - 1, n)
    }
}

/// Leaving out the moves at `p.0` and `p.1` makes the rest solvable.
pub open spec fn pair_fixes(s: BoardState, m: Seq<(usize, u8)>, p: (int, int)) -> bool {
    solvable_after(s, m.remove(p.1).remove(p.0))
}


/// The moves proposed by a list of hints, in order.
pub open spec fn hint_moves(hs: Seq<HintView>) -> Seq<(usize, u8)>
    decreases hs.len(),
{
    if hs.len() == 0 {
        Seq::empty()
    } else {
        hint_moves(hs.drop_last()) + hs.last().assignments
    }
}

/// The moves proposed by lists of hints, list after list.
pub open spec fn group_moves(gs: Seq<(Seq<char>, Seq<HintView>)>) -> Seq<(usize, u8)>
    decreases gs.len(),
{
    if gs.len() == 0 {
        Seq::empty()
    } else {
        group_moves(gs.drop_last()) + hint_moves(gs.last().1)
    }
}

/// The moves the basic engine proposes on board `s`.
pub open spec fn basic_moves(s: BoardState) -> Seq<(usize, u8)> {
    group_moves(all_found(seq![Technique::NakedSingle, Technique::HiddenSingle], s))
}

/// The move `p` can be justified now: the basic engine proposes it, the
/// player made it, and its cell is not confirmed.
pub open spec fn justified_now(s: BoardState, user: Seq<(usize, u8)>) -> spec_fn((usize, u8)) -> bool {
    |p: (usize, u8)| basic_moves(s).contains(p) && user.contains(p) && !s.confirmed[p.0 as int]
}

/// The move at position `k` of the board order: cell `k / 9`, digit
/// `k % 9 + 1`.
pub open spec fn grid_move(k: int) -> (usize, u8) {
    ((k / 9) as usize, (k % 9 + 1) as u8)
}

/// All 729 moves in the order (cell, digit).
pub open spec fn grid_moves() -> Seq<(usize, u8)> {
    Seq::new(729, |k: int| grid_move(k))
}

/// The moves applied in one round, sorted by (cell, digit) without repeats.
pub open spec fn round_moves(s: BoardState, user: Seq<(usize, u8)>) -> Seq<(usize, u8)> {
    grid_moves().filter(justified_now(s, user))
}

/// One round: each move of `list` whose cell is still not confirmed is
/// assigned and recorded as justified.
pub open spec fn apply_round(s: BoardState, list: Seq<(usize, u8)>, just: Seq<(usize, u8)>) -> (
    BoardState,
    Seq<(usize, u8)>,
)
    decreases list.len(),
{
    if list.len() == 0 {
        (s, just)
    } else {
        let p = list[0];
        if !s.confirmed[p.0 as int] {
            apply_round(s.assign(p.0 as int, p.1 as int), list.drop_first(), just.push(p))
        } else {
            apply_round(s, list.drop_first(), just)
        }
    }
}

/// Rounds repeated while they assign something: the moves justified in the
/// end.
pub open spec fn justified_moves(s: BoardState, user: Seq<(usize, u8)>, just: Seq<(usize, u8)>) -> Seq<
    (usize, u8),
>
    decreases unconfirmed_from(s.confirmed, 81),
    when s.confirmed.len() == 81
{
    let list = round_moves(s, user);
    if list.len() == 0 {
        just
    } else {
        let (s2, j2) = apply_round(s, list, just);
        if j2.len() == just.len() {
            just
        } else {
            proof {
                lemma_round_moves_cells(s, user);
                lemma_apply_round(s, list, just);
            }
            justified_moves(s2, user, j2)
        }
    }
}

/// The moves of the player that the rounds did not justify, in the player's
/// order.
pub open spec fn premature(s: BoardState, user: Seq<(usize, u8)>) -> Seq<(usize, u8)> {
    user.filter(|p: (usize, u8)| !justified_moves(s, user, Seq::empty()).contains(p))
}

pub proof fn lemma_round_moves_cells(s: BoardState, user: Seq<(usize, u8)>)
    ensures
        forall|k: int| 0 <= k < round_moves(s, user).len() ==> #[trigger] round_moves(s, user)[k].0 < 81
            && 1 <= round_moves(s, user)[k].1 <= 9,
{
    assert forall|k: int| 0 <= k < round_moves(s, user).len() implies #[trigger] round_moves(
        s,
        user,
    )[k].0 < 81 && 1 <= round_moves(s, user)[k].1 <= 9 by {
        let p = round_moves(s, user)[k];
        assert(round_moves(s, user).contains(p));
        grid_moves().lemma_filter_contains_rev(justified_now(s, user), p);
        let x = choose|x: int| 0 <= x < 729 && grid_moves()[x] == p;
    }
}

/// A round assigns only cells that were not confirmed, each one once.
pub proof fn lemma_apply_round(s: BoardState, list: Seq<(usize, u8)>, just: Seq<(usize, u8)>)
    requires
        s.confirmed.len() == 81,
        forall|k: int| 0 <= k < list.len() ==> #[trigger] list[k].0 < 81,
    ensures
        apply_round(s, list, just).0.confirmed.len() == 81,
        apply_round(s, list, just).1.len() >= just.len(),
        unconfirmed_from(apply_round(s, list, just).0.confirmed, 81) + (apply_round(
            s,
            list,
            just,
        ).1.len() - just.len()) <= unconfirmed_from(s.confirmed, 81),
    decreases list.len(),
{
    if list.len() > 0 {
        let p = list[0];
        assert forall|k: int| 0 <= k < list.drop_first().len() implies #[trigger] list.drop_first()[k].0
            < 81 by {
            assert(list.drop_first()[k] == list[k + 1]);
        }
        if !s.confirmed[p.0 as int] {
            let t = s.assign(p.0 as int, p.1 as int);
            lemma_unconfirmed_update(s.confirmed, p.0 as int, 81);
            lemma_apply_round(t, list.drop_first(), just.push(p));
        } else {
            lemma_apply_round(s, list.drop_first(), just);
        }
    }
}

/// Whether `p` occurs in `v`.
pub(crate) fn contains_move(v: &[(usize, u8)], p: (usize, u8)) -> (r: bool)
    ensures
        r == v@.contains(p),
{
    let mut k: usize = 0;
    while k < v.len()
        invariant
            0 <= k <= v@.len(),
            forall|x: int| 0 <= x < k ==> #[trigger] v@[x] != p,
        decreases v@.len() - k,
    {
        if v[k].0 == p.0 && v[k].1 == p.1 {
            assert(v@[k as int] == p);
            return true;
        }
        k += 1;
    }
    false
}

/// The moves that lists of hints propose, in order.
fn moves_of_groups(groups: &Vec<(String, Vec<Hint>)>) -> (r: Vec<(usize, u8)>)
    ensures
        r@ == group_moves(group_views(groups@)),
{
    let ghost gv = group_views(groups@);
    let mut out: Vec<(usize, u8)> = Vec::new();
    let mut i: usize = 0;
    while i < groups.len()
        invariant
            0 <= i <= groups@.len(),
            gv == group_views(groups@),
            out@ == group_moves(gv.take(i as int)),
        decreases groups@.len() - i,
    {
        let hints = &groups[i].1;
        let ghost hv = hint_views(hints@);
        assert(gv[i as int].1 == hv);
        let mut j: usize = 0;
        while j < hints.len()
            invariant
                0 <= j <= hints@.len(),
                0 <= i < groups@.len(),
                hv == hint_views(hints@),
                gv == group_views(groups@),
                out@ == group_moves(gv.take(i as int)) + hint_moves(hv.take(j as int)),
            decreases hints@.len() - j,
        {
            let a = &hints[j].assignments;
            let ghost base = out@;
            assert(hv[j as int].assignments == a@);
            let mut k: usize = 0;
            while k < a.len()
                invariant
                    0 <= k <= a@.len(),
                    out@ == base + a@.take(k as int),
                decreases a@.len() - k,
            {
                out.push(a[k]);
                assert(a@.take(k + 1) =~= a@.take(k as int).push(a@[k as int]));
                assert(out@ =~= base + a@.take(k + 1));
                k += 1;
            }
            assert(hv.take(j + 1).drop_last() =~= hv.take(j as int));
            assert(a@.take(a@.len() as int) =~= a@);
            assert(out@ =~= group_moves(gv.take(i as int)) + hint_moves(hv.take(j + 1)));
            j += 1;
        }
        assert(hv.take(hv.len() as int) =~= hv);
        assert(gv.take(i + 1).drop_last() =~= gv.take(i as int));
        assert(out@ =~= group_moves(gv.take(i + 1)));
        i += 1;
    }
    assert(gv.take(gv.len() as int) =~= gv);
    out
}


/// A move proposed by a list of hints is an assignment of one of them.
proof fn lemma_hint_moves_member(hs: Seq<HintView>, p: (usize, u8))
    requires
        hint_moves(hs).contains(p),
    ensures
        exists|k: int| 0 <= k < hs.len() && #[trigger] hs[k].assignments.contains(p),
    decreases hs.len(),
{
    if hs.len() > 0 {
        let a = hint_moves(hs.drop_last());
        let b = hs.last().assignments;
        let i = choose|i: int| 0 <= i < (a + b).len() && (a + b)[i] == p;
        if i < a.len() {
            assert(a[i] == p);
            lemma_hint_moves_member(hs.drop_last(), p);
            let k = choose|k: int| 0 <= k < hs.drop_last().len() && #[trigger] hs.drop_last()[k].assignments.contains(p);
            assert(hs[k] == hs.drop_last()[k]);
        } else {
            assert(b[i - a.len()] == p);
            assert(hs[hs.len() - 1].assignments.contains(p));
        }
    }
}

/// A move the techniques `ts` propose is an assignment of one of their
/// full hints.
proof fn lemma_found_moves_member(ts: Seq<Technique>, s: BoardState, p: (usize, u8))
    requires
        group_moves(all_found(ts, s)).contains(p),
    ensures
        exists|t: Technique, k: int|
            0 <= k < technique_hints(t, s, HintLevel::Full).len() && #[trigger] technique_hints(
                t,
                s,
                HintLevel::Full,
            )[k].assignments.contains(p),
    decreases ts.len(),
{
    if ts.len() > 0 {
        let t = ts.last();
        let hs = technique_hints(t, s, HintLevel::Full);
        let prev = all_found(ts.drop_last(), s);
        if hs.len() > 0 {
            let gs = prev + seq![(technique_name(t), hs)];
            assert(gs.drop_last() =~= prev);
            let a = group_moves(prev);
            let b = hint_moves(hs);
            let i = choose|i: int| 0 <= i < (a + b).len() && (a + b)[i] == p;
            if i < a.len() {
                assert(a[i] == p);
                lemma_found_moves_member(ts.drop_last(), s, p);
            } else {
                assert(b[i - a.len()] == p);
                lemma_hint_moves_member(hs, p);
            }
        } else {
            assert(prev + Seq::<(Seq<char>, Seq<HintView>)>::empty() =~= prev);
            lemma_found_moves_member(ts.drop_last(), s, p);
        }
    }
}

/// Every move the basic engine proposes holds in every solution that agrees
/// with the board.
pub proof fn lemma_basic_move_sound(r: BoardState, p: (usize, u8), g: Seq<int>)
    requires
        r.wf(),
        basic_moves(r).contains(p),
        is_solution(g),
        consistent(g, r.cells),
    ensures
        p.0 < 81,
        1 <= p.1 <= 9,
        g[p.0 as int] == p.1,
{
    lemma_found_moves_member(seq![Technique::NakedSingle, Technique::HiddenSingle], r, p);
    let (t, k) = choose|t: Technique, k: int|
        0 <= k < technique_hints(t, r, HintLevel::Full).len() && #[trigger] technique_hints(
            t,
            r,
            HintLevel::Full,
        )[k].assignments.contains(p);
    lemma_hint_sound(t, r, k, g);
    lemma_technique_hint(t, r, HintLevel::Full, k);
    let h = technique_hints(t, r, HintLevel::Full)[k];
    assert(h.assignments[0] == p);
}

/// What holds of the moves justified so far, from the board `s0`: each is a
/// move of the player on a cell not confirmed in `s0` and confirmed now, no
/// two share a cell, and each agrees with every solution of `s0`.
pub open spec fn justified_inv(
    s0: BoardState,
    user: Seq<(usize, u8)>,
    cur: BoardState,
    just: Seq<(usize, u8)>,
) -> bool {
    &&& cur.wf()
    &&& forall|i: int| 0 <= i < 81 && #[trigger] s0.confirmed[i] ==> cur.confirmed[i]
    &&& forall|k: int|
        0 <= k < just.len() ==> {
            &&& #[trigger] just[k].0 < 81
            &&& 1 <= just[k].1 <= 9
            &&& user.contains(just[k])
            &&& !s0.confirmed[just[k].0 as int]
            &&& cur.confirmed[just[k].0 as int]
        }
    &&& forall|a: int, b: int| 0 <= a < b < just.len() ==> #[trigger] just[a].0 != #[trigger] just[b].0
    &&& forall|g: Seq<int>|
        is_solution(g) && consistent(g, s0.cells) ==> {
            &&& consistent(g, cur.cells)
            &&& forall|k: int| 0 <= k < just.len() ==> g[#[trigger] just[k].0 as int] == just[k].1
        }
}

proof fn lemma_round_inv(
    s0: BoardState,
    user: Seq<(usize, u8)>,
    r0: BoardState,
    cur: BoardState,
    list: Seq<(usize, u8)>,
    just: Seq<(usize, u8)>,
)
    requires
        justified_inv(s0, user, cur, just),
        r0.wf(),
        forall|g: Seq<int>| is_solution(g) && consistent(g, s0.cells) ==> consistent(g, r0.cells),
        forall|k: int| 0 <= k < list.len() ==> #[trigger] justified_now(r0, user)(list[k]),
        forall|k: int| 0 <= k < list.len() ==> #[trigger] list[k].0 < 81 && 1 <= list[k].1 <= 9,
        s0.wf(),
    ensures
        justified_inv(s0, user, apply_round(cur, list, just).0, apply_round(cur, list, just).1),
    decreases list.len(),
{
    if list.len() > 0 {
        let p = list[0];
        assert(justified_now(r0, user)(list[0]));
        assert forall|k: int| 0 <= k < list.drop_first().len() implies #[trigger] justified_now(
            r0,
            user,
        )(list.drop_first()[k]) by {
            assert(list.drop_first()[k] == list[k + 1]);
            assert(justified_now(r0, user)(list[k + 1]));
        }
        assert forall|k: int| 0 <= k < list.drop_first().len() implies #[trigger] list.drop_first()[k].0
            < 81 && 1 <= list.drop_first()[k].1 <= 9 by {
            assert(list.drop_first()[k] == list[k + 1]);
        }
        assert(p.0 < 81 && 1 <= p.1 <= 9);
        assert(basic_moves(r0).contains(p));
        if !cur.confirmed[p.0 as int] {
            let c = p.0 as int;
            let d = p.1 as int;
            assert forall|g: Seq<int>| is_solution(g) && consistent(g, s0.cells) implies g[c] == d by {
                lemma_basic_move_sound(r0, p, g);
            }
            if exists|g: Seq<int>| is_solution(g) && consistent(g, s0.cells) {
                let g = choose|g: Seq<int>| is_solution(g) && consistent(g, s0.cells);
                lemma_basic_move_sound(r0, p, g);
            }
            // the move is on the board and holds a digit
            lemma_round_move_valid(r0, user, p);
            let nxt = cur.assign(c, d);
            lemma_transitions_wf(cur, c, d);
            let j2 = just.push(p);
            assert forall|g: Seq<int>| is_solution(g) && consistent(g, s0.cells) implies consistent(
                g,
                nxt.cells,
            ) by {
                lemma_place_keeps(cur.cells, g, c);
            }
            assert forall|k: int| 0 <= k < j2.len() implies {
                &&& #[trigger] j2[k].0 < 81
                &&& 1 <= j2[k].1 <= 9
                &&& user.contains(j2[k])
                &&& !s0.confirmed[j2[k].0 as int]
                &&& nxt.confirmed[j2[k].0 as int]
            } by {
                if k == just.len() {
                    assert(j2[k] == p);
                    assert(nxt.confirmed == cur.confirmed.update(c, true));
                    assert(nxt.confirmed[c]);
                    if s0.confirmed[c] {
                        assert(cur.confirmed[c]);
                    }
                } else {
                    assert(j2[k] == just[k]);
                    assert(cur.confirmed[just[k].0 as int]);
                    assert(nxt.confirmed == cur.confirmed.update(c, true));
                }
            }
            assert forall|a: int, b: int| 0 <= a < b < j2.len() implies #[trigger] j2[a].0
                != #[trigger] j2[b].0 by {
                if b == just.len() {
                    assert(j2[a] == just[a]);
                    assert(cur.confirmed[just[a].0 as int]);
                } else {
                    assert(j2[a] == just[a] && j2[b] == just[b]);
                }
            }
            assert forall|g: Seq<int>| is_solution(g) && consistent(g, s0.cells) implies forall|k: int|
                0 <= k < j2.len() ==> g[#[trigger] j2[k].0 as int] == j2[k].1 by {
                assert forall|k: int| 0 <= k < j2.len() implies g[#[trigger] j2[k].0 as int]
                    == j2[k].1 by {
                    if k == just.len() {
                        assert(j2[k] == p);
                    } else {
                        assert(j2[k] == just[k]);
                    }
                }
            }
            assert(justified_inv(s0, user, nxt, j2));
            lemma_round_inv(s0, user, r0, nxt, list.drop_first(), j2);
        } else {
            lemma_round_inv(s0, user, r0, cur, list.drop_first(), just);
        }
    }
}

proof fn lemma_round_move_valid(r0: BoardState, user: Seq<(usize, u8)>, p: (usize, u8))
    requires
        justified_now(r0, user)(p),
    ensures
        user.contains(p),
        !r0.confirmed[p.0 as int],
{
}

/// What holds of a list of justified moves from `s0`: each is a move of the
/// player, on a cell not confirmed in `s0`; no two share a cell; each agrees
/// with every solution of `s0`.
pub open spec fn justified_ok(s0: BoardState, user: Seq<(usize, u8)>, j: Seq<(usize, u8)>) -> bool {
    &&& forall|k: int|
        0 <= k < j.len() ==> {
            &&& #[trigger] j[k].0 < 81
            &&& 1 <= j[k].1 <= 9
            &&& user.contains(j[k])
            &&& !s0.confirmed[j[k].0 as int]
        }
    &&& forall|a: int, b: int| 0 <= a < b < j.len() ==> #[trigger] j[a].0 != #[trigger] j[b].0
    &&& forall|g: Seq<int>, k: int|
        #![trigger consistent(g, s0.cells), j[k]]
        is_solution(g) && consistent(g, s0.cells) && 0 <= k < j.len() ==> g[j[k].0 as int] == j[k].1
}

/// The rounds keep the invariant of the justified moves.
proof fn lemma_justified_inv(
    s0: BoardState,
    user: Seq<(usize, u8)>,
    s: BoardState,
    just: Seq<(usize, u8)>,
)
    requires
        justified_inv(s0, user, s, just),
        s0.wf(),
    ensures
        justified_ok(s0, user, justified_moves(s, user, just)),
    decreases unconfirmed_from(s.confirmed, 81),
{
    assert(justified_ok(s0, user, just)) by {
        assert forall|g: Seq<int>, k: int|
            #![trigger consistent(g, s0.cells), just[k]]
            is_solution(g) && consistent(g, s0.cells) && 0 <= k < just.len() implies g[just[k].0 as int]
                == just[k].1 by {
            assert(g[just[k].0 as int] == just[k].1);
        }
    }
    let list = round_moves(s, user);
    if list.len() > 0 {
        let (s2, j2) = apply_round(s, list, just);
        if j2.len() != just.len() {
            assert forall|k: int| 0 <= k < list.len() implies #[trigger] justified_now(s, user)(
                list[k],
            ) by {
                grid_moves().lemma_filter_pred(justified_now(s, user), k);
            }
            lemma_round_moves_cells(s, user);
            lemma_round_inv(s0, user, s, s, list, just);
            lemma_apply_round(s, list, just);
            lemma_justified_inv(s0, user, s2, j2);
        }
    }
}

/// The moves found too early, from the board `s`: each justified move is a
/// move of the player, on a cell not confirmed in `s`, no two on one cell,
/// and it holds in every solution that agrees with `s`; the result is the
/// player's moves, in their order, without the justified ones.
pub proof fn lemma_premature_sound(s: BoardState, user: Seq<(usize, u8)>)
    requires
        s.wf(),
    ensures
        justified_ok(s, user, justified_moves(s, user, Seq::empty())),
        premature(s, user) == user.filter(
            |p: (usize, u8)| !justified_moves(s, user, Seq::empty()).contains(p),
        ),
{
    assert(justified_inv(s, user, s, Seq::empty()));
    lemma_justified_inv(s, user, s, Seq::empty());
}

/// A move the basic engine proposes is on the board and holds a digit.
proof fn lemma_basic_move_cell(r: BoardState, p: (usize, u8))
    requires
        r.wf(),
        basic_moves(r).contains(p),
    ensures
        p.0 < 81,
        1 <= p.1 <= 9,
{
    lemma_found_moves_member(seq![Technique::NakedSingle, Technique::HiddenSingle], r, p);
    let (t, k) = choose|t: Technique, k: int|
        0 <= k < technique_hints(t, r, HintLevel::Full).len() && #[trigger] technique_hints(
            t,
            r,
            HintLevel::Full,
        )[k].assignments.contains(p);
    lemma_technique_hint(t, r, HintLevel::Full, k);
    let a = technique_hints(t, r, HintLevel::Full)[k].assignments;
    let i = choose|i: int| 0 <= i < a.len() && a[i] == p;
    assert(a[i].0 < 81 && 1 <= a[i].1 <= 9);
}

/// A round continues the board of the moves justified so far: after it,
/// the board is the start board with all justified moves assigned in order.
proof fn lemma_apply_round_moves(
    s0: BoardState,
    cur: BoardState,
    list: Seq<(usize, u8)>,
    just: Seq<(usize, u8)>,
)
    requires
        cur == assign_moves(s0, just),
    ensures
        apply_round(cur, list, just).0 == assign_moves(s0, apply_round(cur, list, just).1),
    decreases list.len(),
{
    if list.len() > 0 {
        let p = list[0];
        if !cur.confirmed[p.0 as int] {
            lemma_assign_moves_push(s0, just, p);
            lemma_apply_round_moves(s0, cur.assign(p.0 as int, p.1 as int), list.drop_first(), just.push(p));
        } else {
            lemma_apply_round_moves(s0, cur, list.drop_first(), just);
        }
    }
}

/// When the rounds stop, no move of the player on a cell still open is
/// proposed by the basic engine on the board of the justified moves.
proof fn lemma_justified_closed(
    s0: BoardState,
    user: Seq<(usize, u8)>,
    s: BoardState,
    just: Seq<(usize, u8)>,
    p: (usize, u8),
)
    requires
        s0.wf(),
        justified_inv(s0, user, s, just),
        s == assign_moves(s0, just),
    ensures
        assign_moves(s0, justified_moves(s, user, just)).wf(),
        !justified_now(assign_moves(s0, justified_moves(s, user, just)), user)(p),
    decreases unconfirmed_from(s.confirmed, 81),
{
    let list = round_moves(s, user);
    lemma_round_moves_cells(s, user);
    assert forall|k: int| 0 <= k < list.len() implies #[trigger] justified_now(s, user)(list[k]) by {
        grid_moves().lemma_filter_pred(justified_now(s, user), k);
    }
    if list.len() == 0 {
        if justified_now(s, user)(p) {
            lemma_basic_move_cell(s, p);
            let k = p.0 * 9 + p.1 - 1;
            assert(grid_moves()[k] == p);
            grid_moves().lemma_filter_contains(justified_now(s, user), k);
        }
    } else {
        let (s2, j2) = apply_round(s, list, just);
        let q = list[0];
        assert(justified_now(s, user)(q));
        let t = s.assign(q.0 as int, q.1 as int);
        assert forall|k: int| 0 <= k < list.drop_first().len() implies #[trigger] list.drop_first()[k].0
            < 81 by {
            assert(list.drop_first()[k] == list[k + 1]);
        }
        lemma_apply_round(t, list.drop_first(), just.push(q));
        assert(j2.len() > just.len());
        lemma_round_inv(s0, user, s, s, list, just);
        lemma_apply_round(s, list, just);
        lemma_apply_round_moves(s0, s, list, just);
        lemma_justified_closed(s0, user, s2, j2, p);
    }
}

/// The rounds run to the end: on the board with the justified moves
/// assigned, the basic engine proposes no move of the player on a cell that
/// is still open. A move that becomes deducible only after earlier
/// justified moves is therefore justified too, and never reported as
/// premature.
pub proof fn lemma_justified_fixpoint(s: BoardState, user: Seq<(usize, u8)>, p: (usize, u8))
    requires
        s.wf(),
        user.contains(p),
        !assign_moves(s, justified_moves(s, user, Seq::empty())).confirmed[p.0 as int],
    ensures
        !basic_moves(assign_moves(s, justified_moves(s, user, Seq::empty()))).contains(p),
{
    assert(justified_inv(s, user, s, Seq::empty()));
    lemma_justified_closed(s, user, s, Seq::empty(), p);
}

/// The move at position `k` of `j` was proposed by the basic engine on the
/// board `s0` with some of the moves before it in `j` assigned.
pub open spec fn proposed_before(s0: BoardState, j: Seq<(usize, u8)>, k: int) -> bool {
    exists|i: int| 0 <= i <= k && #[trigger] basic_moves(assign_moves(s0, j.take(i))).contains(j[k])
}

/// Each move of `j` was proposed in its turn.
pub open spec fn deduced_in_turn(s0: BoardState, j: Seq<(usize, u8)>) -> bool {
    forall|k: int| 0 <= k < j.len() ==> #[trigger] proposed_before(s0, j, k)
}

/// A round only adds moves of its list behind the justified ones.
proof fn lemma_apply_round_prefix(cur: BoardState, list: Seq<(usize, u8)>, just: Seq<(usize, u8)>)
    ensures
        apply_round(cur, list, just).1.len() >= just.len(),
        apply_round(cur, list, just).1.take(just.len() as int) == just,
        forall|k: int|
            just.len() <= k < apply_round(cur, list, just).1.len() ==> list.contains(
                #[trigger] apply_round(cur, list, just).1[k],
            ),
    decreases list.len(),
{
    if list.len() > 0 {
        let p = list[0];
        let rest = list.drop_first();
        if !cur.confirmed[p.0 as int] {
            let j1 = just.push(p);
            lemma_apply_round_prefix(cur.assign(p.0 as int, p.1 as int), rest, j1);
            let r = apply_round(cur, list, just).1;
            assert(r.take(j1.len() as int) == j1);
            assert(r.take(just.len() as int) =~= j1.take(just.len() as int));
            assert(j1.take(just.len() as int) =~= just);
            assert forall|k: int| just.len() <= k < r.len() implies list.contains(#[trigger] r[k]) by {
                if k == just.len() {
                    assert(r[k] == r.take(j1.len() as int)[k]);
                    assert(list[0] == p);
                } else {
                    let i = choose|i: int| 0 <= i < rest.len() && rest[i] == r[k];
                    assert(list[i + 1] == r[k]);
                }
            }
        } else {
            lemma_apply_round_prefix(cur, rest, just);
            let r = apply_round(cur, list, just).1;
            assert forall|k: int| just.len() <= k < r.len() implies list.contains(#[trigger] r[k]) by {
                let i = choose|i: int| 0 <= i < rest.len() && rest[i] == r[k];
                assert(list[i + 1] == r[k]);
            }
        }
    }
}

/// The rounds keep the moves justified so far in front.
proof fn lemma_justified_prefix(s: BoardState, user: Seq<(usize, u8)>, just: Seq<(usize, u8)>)
    requires
        s.confirmed.len() == 81,
    ensures
        justified_moves(s, user, just).len() >= just.len(),
        justified_moves(s, user, just).take(just.len() as int) == just,
    decreases unconfirmed_from(s.confirmed, 81),
{
    let list = round_moves(s, user);
    if list.len() == 0 {
        assert(just.take(just.len() as int) =~= just);
    } else {
        let (s2, j2) = apply_round(s, list, just);
        if j2.len() == just.len() {
            assert(just.take(just.len() as int) =~= just);
        } else {
            lemma_round_moves_cells(s, user);
            lemma_apply_round(s, list, just);
            lemma_apply_round_prefix(s, list, just);
            lemma_justified_prefix(s2, user, j2);
            let r = justified_moves(s, user, just);
            assert(r.take(just.len() as int) =~= r.take(j2.len() as int).take(just.len() as int));
        }
    }
}

/// The rounds justify a move only when the basic engine proposes it on the
/// board with the moves justified in earlier rounds assigned.
proof fn lemma_justified_in_turn(
    s0: BoardState,
    user: Seq<(usize, u8)>,
    s: BoardState,
    just: Seq<(usize, u8)>,
)
    requires
        s.confirmed.len() == 81,
        s == assign_moves(s0, just),
        deduced_in_turn(s0, just),
    ensures
        deduced_in_turn(s0, justified_moves(s, user, just)),
    decreases unconfirmed_from(s.confirmed, 81),
{
    let list = round_moves(s, user);
    if list.len() > 0 {
        let (s2, j2) = apply_round(s, list, just);
        if j2.len() != just.len() {
            lemma_round_moves_cells(s, user);
            lemma_apply_round(s, list, just);
            lemma_apply_round_prefix(s, list, just);
            lemma_apply_round_moves(s0, s, list, just);
            let n = just.len() as int;
            assert forall|k: int| 0 <= k < j2.len() implies #[trigger] proposed_before(s0, j2, k) by {
                if k < n {
                    assert(j2[k] == j2.take(n)[k]);
                    assert(j2[k] == just[k]);
                    assert(proposed_before(s0, just, k));
                    let i = choose|i: int|
                        0 <= i <= k && #[trigger] basic_moves(assign_moves(s0, just.take(i))).contains(
                            just[k],
                        );
                    assert(j2.take(i) =~= j2.take(n).take(i));
                    assert(basic_moves(assign_moves(s0, j2.take(i))).contains(j2[k]));
                } else {
                    let p = j2[k];
                    assert(list.contains(p));
                    let x = choose|x: int| 0 <= x < list.len() && list[x] == p;
                    grid_moves().lemma_filter_pred(justified_now(s, user), x);
                    assert(j2.take(n) == just);
                    assert(basic_moves(assign_moves(s0, j2.take(n))).contains(j2[k]));
                }
            }
            lemma_justified_in_turn(s0, user, s2, j2);
        }
    }
}

/// Only deduced moves are justified: each justified move was proposed by the
/// basic engine on the start board with some of the justified moves before
/// it assigned.
pub proof fn lemma_justified_deduced(s: BoardState, user: Seq<(usize, u8)>)
    requires
        s.wf(),
    ensures
        deduced_in_turn(s, justified_moves(s, user, Seq::empty())),
{
    assert(assign_moves(s, Seq::<(usize, u8)>::empty()) == s);
    lemma_justified_in_turn(s, user, s, Seq::empty());
}


/// Which moves are justified depends only on which moves the player made,
/// not on their order or repeats.
pub proof fn lemma_justified_same_moves(
    s: BoardState,
    u1: Seq<(usize, u8)>,
    u2: Seq<(usize, u8)>,
    just: Seq<(usize, u8)>,
)
    requires
        s.confirmed.len() == 81,
        forall|p: (usize, u8)| u1.contains(p) == u2.contains(p),
    ensures
        justified_moves(s, u1, just) == justified_moves(s, u2, just),
    decreases unconfirmed_from(s.confirmed, 81),
{
    assert(justified_now(s, u1) =~= justified_now(s, u2));
    assert(round_moves(s, u1) == round_moves(s, u2));
    let list = round_moves(s, u1);
    if list.len() > 0 {
        let (s2, j2) = apply_round(s, list, just);
        if j2.len() != just.len() {
            lemma_round_moves_cells(s, u1);
            lemma_apply_round(s, list, just);
            lemma_justified_same_moves(s2, u1, u2, j2);
        }
    }
}

/// Keeping the entries that pass a test keeps their counts.
proof fn lemma_filter_counts(a: Seq<(usize, u8)>, q: spec_fn((usize, u8)) -> bool)
    ensures
        a.filter(q).to_multiset() =~= a.to_multiset().filter(q),
    decreases a.len(),
{
    broadcast use vstd::multiset::group_multiset_axioms, vstd::seq_lib::group_seq_properties;

    if a.len() == 0 {
        assert(a.filter(q) =~= Seq::<(usize, u8)>::empty());
    } else {
        let b = a.drop_last();
        let x = a.last();
        assert(b.push(x) =~= a);
        b.lemma_filter_push(x, q);
        lemma_filter_counts(b, q);
    }
}

/// Listing the player's moves in another order lists the premature moves in
/// another order: the same moves, each as often.
pub proof fn lemma_premature_permutation(s: BoardState, u1: Seq<(usize, u8)>, u2: Seq<(usize, u8)>)
    requires
        s.wf(),
        u1.to_multiset() == u2.to_multiset(),
    ensures
        premature(s, u1).to_multiset() == premature(s, u2).to_multiset(),
{
    broadcast use vstd::seq_lib::group_seq_properties;

    u1.to_multiset_ensures();
    u2.to_multiset_ensures();
    assert forall|p: (usize, u8)| u1.contains(p) == u2.contains(p) by {
        assert(u1.to_multiset().count(p) == u2.to_multiset().count(p));
        assert(u1.contains(p) <==> u1.to_multiset().count(p) > 0);
        assert(u2.contains(p) <==> u2.to_multiset().count(p) > 0);
    }
    lemma_justified_same_moves(s, u1, u2, Seq::empty());
    let j = justified_moves(s, u1, Seq::empty());
    let q = |p: (usize, u8)| !j.contains(p);
    assert(premature(s, u1) == u1.filter(q));
    assert(premature(s, u2) == u2.filter(q));
    lemma_filter_counts(u1, q);
    lemma_filter_counts(u2, q);
}

/// `m` without the entry at `i`.
fn without(m: &[(usize, u8)], i: usize) -> (r: Vec<(usize, u8)>)
    requires
        i < m@.len(),
    ensures
        r@ == m@.remove(i as int),
{
    let mut out: Vec<(usize, u8)> = Vec::new();
    let mut k: usize = 0;
    while k < m.len()
        invariant
            0 <= k <= m@.len(),
            i < m@.len(),
            out@ == if k <= i {
                m@.take(k as int)
            } else {
                m@.take(k as int).remove(i as int)
            },
        decreases m@.len() - k,
    {
        if k != i {
            out.push(m[k]);
        }
        proof {
            if k < i {
                assert(m@.take(k + 1) =~= m@.take(k as int).push(m@[k as int]));
            } else if k == i {
                assert(m@.take(k + 1).remove(i as int) =~= m@.take(k as int));
            } else {
                assert(m@.take(k + 1).remove(i as int) =~= m@.take(k as int).remove(i as int).push(
                    m@[k as int],
                ));
            }
        }
        k += 1;
    }
    proof {
        assert(m@.take(m@.len() as int) =~= m@);
    }
    out
}

proof fn lemma_remove_ok(m: Seq<(usize, u8)>, i: int)
    requires
        moves_ok(m),
        0 <= i < m.len(),
    ensures
        moves_ok(m.remove(i)),
{
    assert forall|j: int| 0 <= j < m.remove(i).len() implies #[trigger] m.remove(i)[j].0 < 81
        && 1 <= m.remove(i)[j].1 <= 9 by {
        if j < i {
            assert(m.remove(i)[j] == m[j]);
        } else {
            assert(m.remove(i)[j] == m[j + 1]);
        }
    }
}

/// A pass never grows the moves, and one that drops nothing leaves every
/// later removal solvable.
proof fn lemma_sweep(s: BoardState, m: Seq<(usize, u8)>, i: int)
    requires
        0 <= i <= m.len(),
    ensures
        sweep(s, m, i).len() <= m.len(),
        sweep(s, m, i).len() == m.len() ==> sweep(s, m, i) == m && forall|j: int|
            i <= j < m.len() ==> #[trigger] moves_acceptable(s, m.remove(j)),
        sweep(s, m, i).len() < m.len() ==> !moves_acceptable(s, sweep(s, m, i)),
        !moves_acceptable(s, m) ==> !moves_acceptable(s, sweep(s, m, i)),
        is_subseq(sweep(s, m, i), m),
    decreases m.len() - i,
{
    if i < m.len() {
        if !moves_acceptable(s, m.remove(i)) {
            lemma_sweep(s, m.remove(i), i);
            lemma_subseq_remove(m, i);
            lemma_subseq_trans(sweep(s, m.remove(i), i), m.remove(i), m);
        } else {
            lemma_sweep(s, m, i + 1);
        }
    } else {
        lemma_subseq_refl(m);
    }
}

/// The shrunk moves: no larger than the input, unsolvable when the input is
/// or when anything was dropped, and solvable without any one of them.
proof fn lemma_shrink(s: BoardState, m: Seq<(usize, u8)>)
    ensures
        shrink(s, m).len() <= m.len(),
        forall|j: int|
            0 <= j < shrink(s, m).len() ==> #[trigger] moves_acceptable(s, shrink(s, m).remove(j)),
        !moves_acceptable(s, m) ==> !moves_acceptable(s, shrink(s, m)),
        shrink(s, m).len() < m.len() ==> !moves_acceptable(s, shrink(s, m)),
        is_subseq(shrink(s, m), m),
    decreases m.len(),
{
    lemma_sweep(s, m, 0);
    let m2 = sweep(s, m, 0);
    if m2.len() < m.len() {
        lemma_shrink(s, m2);
        lemma_subseq_trans(shrink(s, m2), m2, m);
    } else {
        lemma_subseq_refl(m);
    }
}

/// The pairs below `k` come first among the pairs below any larger bound.
proof fn lemma_pairs_prefix(k: int, k2: int, n: int)
    requires
        0 <= k <= k2,
        k2 <= n,
    ensures
        pairs_upto(k, n).len() <= pairs_upto(k2, n).len(),
        forall|j: int|
            0 <= j < pairs_upto(k, n).len() ==> #[trigger] pairs_upto(k2, n)[j] == pairs_upto(
                k,
                n,
            )[j],
    decreases k2,
{
    if k2 > k {
        lemma_pairs_prefix(k, k2 - 1, n);
    }
}

/// Where the pair `(a, b)` stands in the order.
proof fn lemma_pair_index(a: int, b: int, n: int)
    requires
        0 <= a < b < n,
    ensures
        pairs_upto(a, n).len() + (b - a - 1) < pairs_upto(n, n).len(),
        pairs_upto(n, n)[pairs_upto(a, n).len() + (b - a - 1)] == (a, b),
{
    lemma_pairs_prefix(a + 1, n, n);
    let j = pairs_upto(a, n).len() + (b - a - 1);
    assert(pairs_upto(a + 1, n)[j] == (a, b));
}

/// Pair `p` comes before pair `q` in the order `a` first, then `b`.
pub open spec fn pair_before(p: (int, int), q: (int, int)) -> bool {
    p.0 < q.0 || (p.0 == q.0 && p.1 < q.1)
}

/// The pairs with `a` below `k` are pairs `a < b < n`, strictly in order.
proof fn lemma_pairs_sorted(k: int, n: int)
    requires
        0 <= k <= n,
    ensures
        forall|j: int|
            0 <= j < pairs_upto(k, n).len() ==> 0 <= #[trigger] pairs_upto(k, n)[j].0 < k
                && pairs_upto(k, n)[j].0 < pairs_upto(k, n)[j].1 < n,
        forall|i: int, j: int|
            0 <= i < j < pairs_upto(k, n).len() ==> pair_before(
                #[trigger] pairs_upto(k, n)[i],
                #[trigger] pairs_upto(k, n)[j],
            ),
    decreases k,
{
    if k > 0 {
        lemma_pairs_sorted(k - 1, n);
        let prev = pairs_upto(k - 1, n);
        let blk = pair_block(k - 1, n);
        let cur = pairs_upto(k, n);
        assert(cur == prev + blk);
        assert forall|j: int| 0 <= j < cur.len() implies 0 <= #[trigger] cur[j].0 < k && cur[j].0 < cur[j].1
            < n by {
            if j >= prev.len() {
                assert(cur[j] == blk[j - prev.len()]);
            }
        }
        assert forall|i: int, j: int| 0 <= i < j < cur.len() implies pair_before(
            #[trigger] cur[i],
            #[trigger] cur[j],
        ) by {
            if j < prev.len() {
                assert(cur[i] == prev[i] && cur[j] == prev[j]);
            } else if i < prev.len() {
                assert(cur[i] == prev[i]);
                assert(prev[i].0 < k - 1);
                assert(cur[j] == blk[j - prev.len()]);
            } else {
                assert(cur[i] == blk[i - prev.len()]);
                assert(cur[j] == blk[j - prev.len()]);
            }
        }
    }
}

/// The pairs of positions tried for a pair of wrong moves: every pair
/// `a < b < n` once, in the order `a` first, then `b`.
pub proof fn lemma_pairs_order(n: int)
    requires
        0 <= n,
    ensures
        forall|a: int, b: int| 0 <= a < b < n ==> #[trigger] pairs_upto(n, n).contains((a, b)),
        forall|j: int|
            0 <= j < pairs_upto(n, n).len() ==> 0 <= #[trigger] pairs_upto(n, n)[j].0 < pairs_upto(
                n,
                n,
            )[j].1 < n,
        forall|i: int, j: int|
            0 <= i < j < pairs_upto(n, n).len() ==> pair_before(
                #[trigger] pairs_upto(n, n)[i],
                #[trigger] pairs_upto(n, n)[j],
            ),
{
    lemma_pairs_sorted(n, n);
    assert forall|a: int, b: int| 0 <= a < b < n implies #[trigger] pairs_upto(n, n).contains((a, b)) by {
        lemma_pair_index(a, b, n);
        let j = pairs_upto(a, n).len() + (b - a - 1);
        assert(pairs_upto(n, n)[j] == (a, b));
    }
}

/// The single suspects are exactly the moves whose removal alone leaves the
/// rest solvable, in the order of the moves.
pub proof fn lemma_single_suspects_exact(s: BoardState, m: Seq<(usize, u8)>, n: int)
    requires
        0 <= n <= m.len(),
    ensures
        forall|i: int|
            0 <= i < n && solvable_after(s, m.remove(i)) ==> #[trigger] single_suspects(s, m, n).contains(
                m[i],
            ),
        forall|k: int|
            0 <= k < single_suspects(s, m, n).len() ==> #[trigger] suspect_at(s, m, n, single_suspects(s, m, n)[k]),
    decreases n,
{
    if n > 0 {
        lemma_single_suspects_exact(s, m, n - 1);
        let prev = single_suspects(s, m, n - 1);
        let cur = single_suspects(s, m, n);
        if solvable_after(s, m.remove(n - 1)) {
            assert(cur == prev.push(m[n - 1]));
        } else {
            assert(cur =~= prev);
        }
        assert forall|i: int|
            0 <= i < n && solvable_after(s, m.remove(i)) implies #[trigger] cur.contains(m[i]) by {
            if i < n - 1 {
                assert(prev.contains(m[i]));
                let k = choose|k: int| 0 <= k < prev.len() && prev[k] == m[i];
                assert(cur[k] == prev[k]);
            } else {
                assert(cur[prev.len() as int] == m[i]);
            }
        }
        assert forall|k: int| 0 <= k < cur.len() implies #[trigger] suspect_at(s, m, n, cur[k]) by {
            if k < prev.len() {
                assert(cur[k] == prev[k]);
                assert(suspect_at(s, m, n - 1, prev[k]));
                let i = choose|i: int| 0 <= i < n - 1 && solvable_after(s, m.remove(i)) && m[i] == prev[k];
            } else {
                assert(cur[k] == m[n - 1]);
            }
        }
    }
}

/// `x` is one of the first `n` moves of `m` whose removal leaves the rest
/// solvable.
pub open spec fn suspect_at(s: BoardState, m: Seq<(usize, u8)>, n: int, x: (usize, u8)) -> bool {
    exists|i: int| 0 <= i < n && solvable_after(s, m.remove(i)) && m[i] == x
}

impl Engine {
    /// The board after the moves, one after another; `None` as soon as an
    /// assignment leaves a cell without candidates.
    fn apply_moves(initial: &Sudoku, moves: &[(usize, u8)]) -> (r: Option<Sudoku>)
        requires
            initial.wf(),
            moves_ok(moves@),
        ensures
            r is None <==> empties_along(initial@, moves@),
            r matches Some(b) ==> b.wf() && b@ == assign_moves(initial@, moves@),
    {
        let ghost s = initial@;
        let ghost m = moves@;
        let mut sdk = initial.duplicate();
        let mut i: usize = 0;
        assert(m.take(0) =~= Seq::<(usize, u8)>::empty());
        while i < moves.len()
            invariant
                0 <= i <= m.len(),
                m == moves@,
                s == initial@,
                sdk.wf(),
                moves_ok(m),
                sdk@ == assign_moves(s, m.take(i as int)),
                forall|k: int| 1 <= k <= i ==> !#[trigger] has_empty_cell(assign_moves(s, m.take(k))),
            decreases m.len() - i,
        {
            let (c, d) = moves[i];
            proof {
                assert(m.take(i + 1) =~= m.take(i as int).push((c, d)));
                lemma_assign_moves_push(s, m.take(i as int), (c, d));
            }
            if sdk.assign(c, d).is_err() {
                return None;
            }
            if Self::any_empty_cell(&sdk) {
                return None;
            }
            i += 1;
        }
        assert(m.take(m.len() as int) =~= m);
        Some(sdk)
    }

    /// Whether some cell has no candidate left.
    fn any_empty_cell(sdk: &Sudoku) -> (r: bool)
        requires
            sdk.wf(),
        ensures
            r == has_empty_cell(sdk@),
    {
        let mut i: usize = 0;
        while i < 81
            invariant
                0 <= i <= 81,
                sdk.wf(),
                forall|x: int| 0 <= x < i ==> #[trigger] sdk@.cells[x] != 0,
            decreases 81 - i,
        {
            if sdk.cell_mask(i) == 0 {
                return true;
            }
            i += 1;
        }
        false
    }

    /// Whether the moves are acceptable: no assignment along them leaves a
    /// cell without candidates, and the board after them has a solution.
    pub fn has_solution_with_moves(initial: &Sudoku, moves: &[(usize, u8)]) -> (r: bool)
        requires
            initial.wf(),
            moves_ok(moves@),
        ensures
            r == moves_acceptable(initial@, moves@),
    {
        match Self::apply_moves(initial, moves) {
            Some(sdk) => Self::has_solution(&sdk),
            None => false,
        }
    }

    /// Whether the single move `mv` is acceptable on the board: it leaves no
    /// cell without candidates and the board still has a solution.
    pub fn is_move_possible(initial: &Sudoku, mv: (usize, u8)) -> (r: bool)
        requires
            initial.wf(),
            mv.0 < 81,
            1 <= mv.1 <= 9,
        ensures
            r == moves_acceptable(initial@, seq![mv]),
    {
        let one = [mv];
        assert(one@ =~= seq![mv]);
        Self::has_solution_with_moves(initial, one.as_slice())
    }

    /// A locally minimal unsolvable subset of the moves: moves are dropped
    /// while the rest stays unsolvable, until dropping any one more would
    /// make it solvable.
    pub fn minimal_unsat_subset(initial: &Sudoku, moves: Vec<(usize, u8)>) -> (r: Vec<(usize, u8)>)
        requires
            initial.wf(),
            moves_ok(moves@),
        ensures
            r@ == shrink(initial@, moves@),
            r@.len() <= moves@.len(),
            is_subseq(r@, moves@),
            moves_ok(r@),
            !moves_acceptable(initial@, moves@) ==> !moves_acceptable(initial@, r@),
            r@.len() < moves@.len() ==> !moves_acceptable(initial@, r@),
            forall|j: int|
                0 <= j < r@.len() ==> #[trigger] moves_acceptable(initial@, r@.remove(j)),
    {
        let ghost s = initial@;
        let ghost m0 = moves@;
        let mut moves = moves;
        let mut changed = true;
        while changed
            invariant
                initial.wf(),
                s == initial@,
                moves_ok(moves@),
                changed ==> shrink(s, m0) == shrink(s, moves@),
                !changed ==> shrink(s, m0) == moves@,
            decreases moves@.len() + if changed {
                1int
            } else {
                0int
            },
        {
            changed = false;
            let ghost start = moves@;
            let mut i: usize = 0;
            while i < moves.len()
                invariant
                    initial.wf(),
                    s == initial@,
                    moves_ok(moves@),
                    0 <= i <= moves@.len(),
                    moves@.len() <= start.len(),
                    sweep(s, start, 0) == sweep(s, moves@, i as int),
                    changed == (moves@.len() < start.len()),
                decreases moves@.len() - i,
            {
                let tmp = without(moves.as_slice(), i);
                proof {
                    lemma_remove_ok(moves@, i as int);
                }
                if !Self::has_solution_with_moves(initial, tmp.as_slice()) {
                    moves = tmp;
                    changed = true;
                } else {
                    i += 1;
                }
            }
            proof {
                lemma_sweep(s, start, 0);
                if !changed {
                    assert(moves@.len() == start.len());
                }
            }
        }
        proof {
            lemma_shrink(s, m0);
            lemma_subseq_ok(shrink(s, m0), m0);
        }
        moves
    }


    /// The moves of the player made too early: those that repeated rounds
    /// of the basic techniques, applying only moves the player made, never
    /// justify.
    pub fn find_premature_moves(initial: &Sudoku, user_moves: &[(usize, u8)]) -> (r: Vec<
        (usize, u8),
    >)
        requires
            initial.wf(),
        ensures
            r@ == premature(initial@, user_moves@),
    {
        let ghost user = user_moves@;
        let ghost s0 = initial@;
        let engine = Self::basic();
        let mut current = initial.duplicate();
        let mut justified: Vec<(usize, u8)> = Vec::new();
        proof {
            initial.lemma_wf();
        }
        loop
            invariant_except_break
                justified_moves(s0, user, Seq::empty()) == justified_moves(
                    current@,
                    user,
                    justified@,
                ),
            invariant
                current.wf(),
                current@.wf(),
                s0 == initial@,
                s0.wf(),
                user == user_moves@,
                engine@ == seq![Technique::NakedSingle, Technique::HiddenSingle],
            ensures
                justified_moves(s0, user, Seq::empty()) == justified@,
            decreases unconfirmed_from(current@.confirmed, 81),
        {
            let ghost cur = current@;
            let hints = engine.all_hints(&current);
            let found = moves_of_groups(&hints);
            let ghost pred = justified_now(cur, user);
            let mut to_apply: Vec<(usize, u8)> = Vec::new();
            let mut c: usize = 0;
            while c < 81
                invariant
                    0 <= c <= 81,
                    current.wf(),
                    current@ == cur,
                    cur.wf(),
                    user == user_moves@,
                    found@ == basic_moves(cur),
                    pred == justified_now(cur, user),
                    to_apply@ == grid_moves().take(c * 9).filter(pred),
                decreases 81 - c,
            {
                let mut d: u8 = 1;
                while d <= 9
                    invariant
                        1 <= d <= 10,
                        0 <= c < 81,
                        current.wf(),
                        current@ == cur,
                        cur.wf(),
                        user == user_moves@,
                        found@ == basic_moves(cur),
                        pred == justified_now(cur, user),
                        to_apply@ == grid_moves().take(c * 9 + d - 1).filter(pred),
                    decreases 10 - d,
                {
                    let p = (c, d);
                    let ghost k = c * 9 + d - 1;
                    proof {
                        assert(grid_move(k) == p);
                        assert(grid_moves().take(k + 1) =~= grid_moves().take(k).push(p));
                        grid_moves().take(k).lemma_filter_push(p, pred);
                    }
                    if contains_move(found.as_slice(), p) && contains_move(user_moves, p)
                        && !current.is_confirmed(c) {
                        to_apply.push(p);
                    }
                    d += 1;
                }
                c += 1;
            }
            proof {
                assert(grid_moves().take(729) =~= grid_moves());
                lemma_round_moves_cells(cur, user);
            }
            if to_apply.len() == 0 {
                break ;
            }
            let ghost j0 = justified@;
            let ghost target = apply_round(cur, to_apply@, j0);
            let mut progressed = false;
            let mut k: usize = 0;
            assert(to_apply@.skip(0) =~= to_apply@);
            while k < to_apply.len()
                invariant
                    0 <= k <= to_apply@.len(),
                    current.wf(),
                    current@.wf(),
                    to_apply@ == round_moves(cur, user),
                    forall|x: int| 0 <= x < to_apply@.len() ==> #[trigger] to_apply@[x].0 < 81
                        && 1 <= to_apply@[x].1 <= 9,
                    target == apply_round(current@, to_apply@.skip(k as int), justified@),
                    justified@.len() >= j0.len(),
                    progressed == (justified@.len() > j0.len()),
                    !progressed ==> justified@ == j0,
                decreases to_apply@.len() - k,
            {
                let (cell, digit) = to_apply[k];
                assert(to_apply@.skip(k as int)[0] == (cell, digit));
                assert(to_apply@.skip(k as int).drop_first() =~= to_apply@.skip(k + 1));
                if !current.is_confirmed(cell) {
                    if current.assign(cell, digit).is_ok() {
                        proof {
                            current.lemma_wf();
                        }
                        justified.push((cell, digit));
                        progressed = true;
                    }
                }
                k += 1;
            }
            assert(to_apply@.skip(to_apply@.len() as int) =~= Seq::<(usize, u8)>::empty());
            proof {
                lemma_apply_round(cur, to_apply@, j0);
            }
            if !progressed {
                break ;
            }
        }
        let ghost just = justified@;
        let mut out: Vec<(usize, u8)> = Vec::new();
        let ghost keep = |p: (usize, u8)| !just.contains(p);
        let mut i: usize = 0;
        while i < user_moves.len()
            invariant
                0 <= i <= user_moves@.len(),
                just == justified@,
                keep == (|p: (usize, u8)| !just.contains(p)),
                out@ == user_moves@.take(i as int).filter(keep),
            decreases user_moves@.len() - i,
        {
            let p = user_moves[i];
            proof {
                assert(user_moves@.take(i + 1) =~= user_moves@.take(i as int).push(p));
                user_moves@.take(i as int).lemma_filter_push(p, keep);
            }
            if !contains_move(justified.as_slice(), p) {
                out.push(p);
            }
            i += 1;
        }
        proof {
            assert(user_moves@.take(user_moves@.len() as int) =~= user_moves@);
        }
        out
    }

    /// The moves whose removal alone leaves the other moves solvable.
    pub fn suspect_single_moves(initial: &Sudoku, user_moves: &[(usize, u8)]) -> (r: Vec<
        (usize, u8),
    >)
        requires
            initial.wf(),
            moves_ok(user_moves@),
        ensures
            r@ == single_suspects(initial@, user_moves@, user_moves@.len() as int),
    {
        let mut suspects: Vec<(usize, u8)> = Vec::new();
        let mut idx: usize = 0;
        while idx < user_moves.len()
            invariant
                0 <= idx <= user_moves@.len(),
                initial.wf(),
                moves_ok(user_moves@),
                suspects@ == single_suspects(initial@, user_moves@, idx as int),
            decreases user_moves@.len() - idx,
        {
            let rest = without(user_moves, idx);
            proof {
                lemma_remove_ok(user_moves@, idx as int);
            }
            let mut sdk = initial.duplicate();
            assign_all(&mut sdk, rest.as_slice());
            if Self::has_solution(&sdk) {
                suspects.push(user_moves[idx]);
            }
            idx += 1;
        }
        suspects
    }

    /// The first pair of moves, in order, whose removal leaves the other
    /// moves solvable, trying at most `max_pairs` pairs.
    pub fn suspect_pair_move(initial: &Sudoku, user_moves: &[(usize, u8)], max_pairs: usize) -> (r:
        Option<((usize, u8), (usize, u8))>)
        requires
            initial.wf(),
            moves_ok(user_moves@),
        ensures
            ({
                let ps = pairs_upto(user_moves@.len() as int, user_moves@.len() as int);
                let cap = if max_pairs < ps.len() {
                    max_pairs as int
                } else {
                    ps.len() as int
                };
                &&& r is None <==> forall|j: int|
                    0 <= j < cap ==> !#[trigger] pair_fixes(initial@, user_moves@, ps[j])
                &&& r matches Some(q) ==> exists|j: int|
                    0 <= j < cap && pair_fixes(initial@, user_moves@, #[trigger] ps[j]) && (forall|
                        x: int,
                    | 0 <= x < j ==> !#[trigger] pair_fixes(initial@, user_moves@, ps[x])) && q == (
                        user_moves@[ps[j].0],
                        user_moves@[ps[j].1],
                    )
            }),
    {
        let n = user_moves.len();
        let ghost m = user_moves@;
        let ghost s = initial@;
        let ghost ps = pairs_upto(n as int, n as int);
        let mut tested: usize = 0;
        let mut a: usize = 0;
        while a < n
            invariant
                0 <= a <= n,
                n == m.len(),
                m == user_moves@,
                s == initial@,
                initial.wf(),
                moves_ok(m),
                ps == pairs_upto(n as int, n as int),
                tested == pairs_upto(a as int, n as int).len(),
                tested <= max_pairs,
                forall|j: int| 0 <= j < tested ==> !#[trigger] pair_fixes(s, m, ps[j]),
            decreases n - a,
        {
            proof {
                lemma_pairs_prefix(a as int, n as int, n as int);
                lemma_pairs_prefix(a as int, a + 1, n as int);
            }
            let mut b: usize = a + 1;
            while b < n
                invariant
                    0 <= a < n,
                    a + 1 <= b <= n,
                    n == m.len(),
                    m == user_moves@,
                    s == initial@,
                    initial.wf(),
                    moves_ok(m),
                    ps == pairs_upto(n as int, n as int),
                    tested == pairs_upto(a as int, n as int).len() + (b - a - 1),
                    tested <= max_pairs,
                    forall|j: int| 0 <= j < tested ==> !#[trigger] pair_fixes(s, m, ps[j]),
                decreases n - b,
            {
                proof {
                    lemma_pair_index(a as int, b as int, n as int);
                }
                if tested >= max_pairs {
                    return None;
                }
                tested += 1;
                let without_b = without(user_moves, b);
                proof {
                    lemma_remove_ok(m, b as int);
                }
                let rest = without(without_b.as_slice(), a);
                proof {
                    lemma_remove_ok(m.remove(b as int), a as int);
                }
                let mut sdk = initial.duplicate();
                assign_all(&mut sdk, rest.as_slice());
                if Self::has_solution(&sdk) {
                    proof {
                        let j = tested - 1;
                        assert(ps[j] == (a as int, b as int));
                        assert(pair_fixes(s, m, ps[j]));
                    }
                    return Some((user_moves[a], user_moves[b]));
                }
                b += 1;
            }
            proof {
                assert(pairs_upto(a + 1, n as int) == pairs_upto(a as int, n as int) + pair_block(
                    a as int,
                    n as int,
                ));
            }
            a += 1;
        }
        None
    }
}

} // verus!
