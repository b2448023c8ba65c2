//! The geometry of the 9x9 board: cells `r * 9 + c`, the 27 units
//! (rows 0..9, columns 9..18, boxes 18..27) and the peer relation.
use vstd::prelude::*;

verus! {

pub open spec fn row_of(i: int) -> int {
    i / 9
}

pub open spec fn col_of(i: int) -> int {
    i % 9
}

pub open spec fn box_of(i: int) -> int {
    (row_of(i) / 3) * 3 + col_of(i) / 3
}

/// Cells `i` and `j` are distinct cells of one row, column or box.
pub open spec fn is_peer(i: int, j: int) -> bool {
    &&& 0 <= i < 81
    &&& 0 <= j < 81
    &&& i != j
    &&& (row_of(i) == row_of(j) || col_of(i) == col_of(j) || box_of(i) == box_of(j))
}

/// The `k`-th cell of unit `u`: rows first, then columns, then boxes, each
/// read left to right and top to bottom.
pub open spec fn unit_cell(u: int, k: int) -> int {
    if u < 9 {
        u * 9 + k
    } else if u < 18 {
        k * 9 + (u - 9)
    } else {
        (((u - 18) / 3) * 3 + k / 3) * 9 + ((u - 18) % 3) * 3 + k % 3
    }
}

/// Cell `j` belongs to unit `u`.
pub open spec fn in_unit(u: int, j: int) -> bool {
    &&& 0 <= j < 81
    &&& if u < 9 {
        row_of(j) == u
    } else if u < 18 {
        col_of(j) == u - 9
    } else {
        box_of(j) == u - 18
    }
}

/// The position of cell `j` inside unit `u`.
pub open spec fn unit_pos(u: int, j: int) -> int {
    if u < 9 {
        col_of(j)
    } else if u < 18 {
        row_of(j)
    } else {
        (row_of(j) % 3) * 3 + col_of(j) % 3
    }
}

/// The cells of unit `u`, in order.
pub open spec fn unit_seq(u: int) -> Seq<usize> {
    Seq::new(9, |k: int| unit_cell(u, k) as usize)
}

/// A completed grid: 81 digits from 1 to 9, no two peers alike.
pub open spec fn is_solution(g: Seq<int>) -> bool {
    &&& g.len() == 81
    &&& forall|i: int| 0 <= i < 81 ==> 1 <= #[trigger] g[i] <= 9
    &&& forall|i: int, j: int| #[trigger] is_peer(i, j) ==> g[i] != g[j]
}

/// The `k`-th cell of a unit lies in that unit, at position `k`.
pub proof fn lemma_unit_cell(u: int, k: int)
    requires
        0 <= u < 27,
        0 <= k < 9,
    ensures
        0 <= unit_cell(u, k) < 81,
        in_unit(u, unit_cell(u, k)),
        unit_pos(u, unit_cell(u, k)) == k,
{
    let c = unit_cell(u, k);
    if u < 9 {
        assert(row_of(c) == u && col_of(c) == k);
    } else if u < 18 {
        assert(row_of(c) == k && col_of(c) == u - 9);
    } else {
        let b = u - 18;
        let r = (b / 3) * 3 + k / 3;
        let cc = (b % 3) * 3 + k % 3;
        assert(0 <= r < 9 && 0 <= cc < 9);
        assert(c == r * 9 + cc);
        assert(row_of(c) == r && col_of(c) == cc);
        assert(r / 3 == b / 3 && r % 3 == k / 3);
        assert(cc / 3 == b % 3 && cc % 3 == k % 3);
    }
}

/// A cell of a unit is the unit's cell at its position.
pub proof fn lemma_unit_pos(u: int, j: int)
    requires
        0 <= u < 27,
        in_unit(u, j),
    ensures
        0 <= unit_pos(u, j) < 9,
        unit_cell(u, unit_pos(u, j)) == j,
{
    let r = row_of(j);
    let c = col_of(j);
    assert(j == r * 9 + c && 0 <= r < 9 && 0 <= c < 9);
    if u >= 18 {
        let b = u - 18;
        let k = (r % 3) * 3 + c % 3;
        assert(k / 3 == r % 3 && k % 3 == c % 3);
        assert(b / 3 == r / 3 && b % 3 == c / 3);
        assert((b / 3) * 3 + k / 3 == r);
        assert((b % 3) * 3 + k % 3 == c);
    }
}

/// The three units of a cell: its row, its column and its box.
pub open spec fn row_unit(i: int) -> int {
    row_of(i)
}

pub open spec fn col_unit(i: int) -> int {
    9 + col_of(i)
}

pub open spec fn box_unit(i: int) -> int {
    18 + box_of(i)
}

/// The peers of a cell are the other cells of its three units.
pub proof fn lemma_peer_units(i: int, j: int)
    requires
        0 <= i < 81,
    ensures
        0 <= row_unit(i) < 9,
        9 <= col_unit(i) < 18,
        18 <= box_unit(i) < 27,
        in_unit(row_unit(i), i),
        in_unit(col_unit(i), i),
        in_unit(box_unit(i), i),
        is_peer(i, j) <==> (j != i && (in_unit(row_unit(i), j) || in_unit(col_unit(i), j)
            || in_unit(box_unit(i), j))),
{
    assert(0 <= box_of(i) < 9);
}

/// Two distinct cells of one unit are peers.
pub proof fn lemma_unit_peers(u: int, a: int, b: int)
    requires
        0 <= u < 27,
        in_unit(u, a),
        in_unit(u, b),
        a != b,
    ensures
        is_peer(a, b),
{
}

/// Two peers share a unit.
pub proof fn lemma_peer_share(i: int, j: int) -> (u: int)
    requires
        is_peer(i, j),
    ensures
        0 <= u < 27,
        in_unit(u, i),
        in_unit(u, j),
{
    lemma_peer_units(i, j);
    if in_unit(row_unit(i), j) {
        row_unit(i)
    } else if in_unit(col_unit(i), j) {
        col_unit(i)
    } else {
        box_unit(i)
    }
}

} // verus!
