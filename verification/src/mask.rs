//! The mathematical reading of a candidate mask: bit `d` of a `u16` is set
//! exactly when the digit `d` is still a candidate of the cell.
use vstd::prelude::*;

verus! {

/// Every digit 1 to 9 is a candidate: bits 1..=9.
pub const ALL: u16 = 0x3FE;

/// Digit `d` is recorded in the mask `m` (bit `d` is set).
pub open spec fn holds(m: u16, d: int) -> bool {
    0 <= d < 16 && (m >> (d as u16)) & 1u16 == 1u16
}

/// The mask holds no bit outside the digits 1 to 9.
pub open spec fn within_digits(m: u16) -> bool {
    forall|d: int| #[trigger] holds(m, d) ==> 1 <= d <= 9
}

/// Number of set bits of `m` among the bits below `n`.
pub open spec fn count_below(m: u16, n: int) -> nat
    decreases n,
{
    if n <= 0 {
        0
    } else {
        count_below(m, n - 1) + if holds(m, n - 1) {
            1nat
        } else {
            0nat
        }
    }
}

/// Number of set bits of `m` (what `u16::count_ones` returns).
pub open spec fn popcount(m: u16) -> nat {
    count_below(m, 16)
}

/// The digit of a mask that holds exactly one digit between 1 and 9.
pub open spec fn sole_digit(m: u16) -> int {
    choose|d: int| 1 <= d <= 9 && holds(m, d)
}

proof fn bv_single(e: u16, d: u16)
    by (bit_vector)
    requires
        e < 16,
        d < 16,
    ensures
        ((1u16 << e) >> d) & 1u16 == 1u16 <==> d == e,
{
}

proof fn bv_clear(m: u16, e: u16, d: u16)
    by (bit_vector)
    requires
        e < 16,
        d < 16,
    ensures
        ((m & !(1u16 << e)) >> d) & 1u16 == 1u16 <==> ((m >> d) & 1u16 == 1u16 && d != e),
{
}

proof fn bv_test(m: u16, e: u16)
    by (bit_vector)
    requires
        e < 16,
    ensures
        (m & (1u16 << e) != 0u16) <==> ((m >> e) & 1u16 == 1u16),
{
}

proof fn bv_all(d: u16)
    by (bit_vector)
    requires
        d < 16,
    ensures
        (0x3FEu16 >> d) & 1u16 == 1u16 <==> (1 <= d && d <= 9),
{
}

proof fn bv_zero(d: u16)
    by (bit_vector)
    requires
        d < 16,
    ensures
        (0u16 >> d) & 1u16 != 1u16,
{
}

proof fn bv_idem(m: u16, x: u16)
    by (bit_vector)
    ensures
        (m & !x) & !x == m & !x,
{
}

proof fn bv_ext(a: u16, b: u16)
    by (bit_vector)
    requires
        (a >> 0u16) & 1u16 == (b >> 0u16) & 1u16,
        (a >> 1u16) & 1u16 == (b >> 1u16) & 1u16,
        (a >> 2u16) & 1u16 == (b >> 2u16) & 1u16,
        (a >> 3u16) & 1u16 == (b >> 3u16) & 1u16,
        (a >> 4u16) & 1u16 == (b >> 4u16) & 1u16,
        (a >> 5u16) & 1u16 == (b >> 5u16) & 1u16,
        (a >> 6u16) & 1u16 == (b >> 6u16) & 1u16,
        (a >> 7u16) & 1u16 == (b >> 7u16) & 1u16,
        (a >> 8u16) & 1u16 == (b >> 8u16) & 1u16,
        (a >> 9u16) & 1u16 == (b >> 9u16) & 1u16,
        (a >> 10u16) & 1u16 == (b >> 10u16) & 1u16,
        (a >> 11u16) & 1u16 == (b >> 11u16) & 1u16,
        (a >> 12u16) & 1u16 == (b >> 12u16) & 1u16,
        (a >> 13u16) & 1u16 == (b >> 13u16) & 1u16,
        (a >> 14u16) & 1u16 == (b >> 14u16) & 1u16,
        (a >> 15u16) & 1u16 == (b >> 15u16) & 1u16,
    ensures
        a == b,
{
}

proof fn bv_bit01(m: u16, d: u16)
    by (bit_vector)
    ensures
        (m >> d) & 1u16 == 0u16 || (m >> d) & 1u16 == 1u16,
{
}

/// The mask of the single digit `e` holds `e` and nothing else.
pub proof fn lemma_has_bit(e: u16)
    requires
        e < 16,
    ensures
        forall|d: int| #[trigger] holds(1u16 << e, d) <==> d == e,
{
    assert forall|d: int| #[trigger] holds(1u16 << e, d) <==> d == e by {
        if 0 <= d < 16 {
            bv_single(e, d as u16);
        }
    }
}

/// Clearing bit `e` removes exactly the digit `e`.
pub proof fn lemma_has_clear(m: u16, e: u16)
    requires
        e < 16,
    ensures
        forall|d: int| #[trigger] holds(m & !(1u16 << e), d) <==> (holds(m, d) && d != e),
{
    assert forall|d: int| #[trigger] holds(m & !(1u16 << e), d) <==> (holds(m, d) && d != e) by {
        if 0 <= d < 16 {
            bv_clear(m, e, d as u16);
        }
    }
}

/// Testing with `m & (1 << e) != 0` reads the candidate `e`.
pub proof fn lemma_test_bit(m: u16, e: u16)
    requires
        e < 16,
    ensures
        (m & (1u16 << e) != 0) <==> holds(m, e as int),
{
    bv_test(m, e);
}

/// `ALL` holds exactly the digits 1 to 9.
pub proof fn lemma_has_all()
    ensures
        forall|d: int| #[trigger] holds(ALL, d) <==> 1 <= d <= 9,
{
    assert forall|d: int| #[trigger] holds(ALL, d) <==> 1 <= d <= 9 by {
        if 0 <= d < 16 {
            bv_all(d as u16);
        }
    }
}

/// The empty mask holds no digit.
pub proof fn lemma_has_zero()
    ensures
        forall|d: int| !#[trigger] holds(0u16, d),
{
    assert forall|d: int| !#[trigger] holds(0u16, d) by {
        if 0 <= d < 16 {
            bv_zero(d as u16);
        }
    }
}

/// Clearing the same bit twice is clearing it once.
pub proof fn lemma_clear_idem(m: u16, x: u16)
    ensures
        (m & !x) & !x == m & !x,
{
    bv_idem(m, x);
}

/// Two masks with the same digits are equal.
pub proof fn lemma_mask_ext(a: u16, b: u16)
    requires
        forall|d: int| 0 <= d < 16 ==> holds(a, d) == holds(b, d),
    ensures
        a == b,
{
    assert forall|d: u16| d < 16 implies (a >> d) & 1u16 == (b >> d) & 1u16 by {
        bv_bit01(a, d);
        bv_bit01(b, d);
        assert(holds(a, d as int) == holds(b, d as int));
    }
    bv_ext(a, b);
}

/// A mask is zero exactly when it holds no digit.
pub proof fn lemma_zero_iff_empty(m: u16)
    ensures
        m == 0 <==> (forall|d: int| !#[trigger] holds(m, d)),
{
    lemma_has_zero();
    if forall|d: int| !#[trigger] holds(m, d) {
        lemma_mask_ext(m, 0u16);
    }
}

/// Counting bits is monotone in the set of digits, and strictly so when a
/// digit below `n` is lost.
pub proof fn lemma_count_mono(a: u16, b: u16, n: int)
    requires
        forall|d: int| holds(a, d) ==> holds(b, d),
    ensures
        count_below(a, n) <= count_below(b, n),
        (exists|d: int| 0 <= d < n && holds(b, d) && !holds(a, d)) ==> count_below(a, n) < count_below(
            b,
            n,
        ),
    decreases n,
{
    if n > 0 {
        lemma_count_mono(a, b, n - 1);
        if exists|d: int| 0 <= d < n && holds(b, d) && !holds(a, d) {
            let d = choose|d: int| 0 <= d < n && holds(b, d) && !holds(a, d);
            if d < n - 1 {
                assert(exists|d: int| 0 <= d < n - 1 && holds(b, d) && !holds(a, d));
            }
        }
    }
}

/// Two distinct digits below `n` give at least two counted bits.
proof fn lemma_count_two(m: u16, a: int, b: int, n: int)
    requires
        holds(m, a),
        holds(m, b),
        a < b < n,
    ensures
        count_below(m, n) >= 2,
    decreases n,
{
    if b < n - 1 {
        lemma_count_two(m, a, b, n - 1);
    } else {
        lemma_count_one(m, a, n - 1);
    }
}

/// One digit below `n` gives at least one counted bit.
proof fn lemma_count_one(m: u16, a: int, n: int)
    requires
        holds(m, a),
        a < n,
    ensures
        count_below(m, n) >= 1,
    decreases n,
{
    if a < n - 1 {
        lemma_count_one(m, a, n - 1);
    }
}

/// A positive count below `n` comes from some digit below `n`.
proof fn lemma_count_pos(m: u16, n: int)
    requires
        count_below(m, n) > 0,
    ensures
        exists|d: int| 0 <= d < n && holds(m, d),
    decreases n,
{
    if n > 0 && !holds(m, n - 1) {
        lemma_count_pos(m, n - 1);
    }
}

/// A mask with exactly one bit holds exactly one digit.
pub proof fn lemma_single_unique(m: u16, a: int, b: int)
    requires
        popcount(m) == 1,
        holds(m, a),
        holds(m, b),
    ensures
        a == b,
{
    if a < b {
        lemma_count_two(m, a, b, 16);
    } else if b < a {
        lemma_count_two(m, b, a, 16);
    }
}

/// A mask with one bit, that holds only digits 1 to 9, has its sole digit set.
pub proof fn lemma_single_digit(m: u16)
    requires
        popcount(m) == 1,
        within_digits(m),
    ensures
        1 <= sole_digit(m) <= 9,
        holds(m, sole_digit(m)),
        forall|d: int| #[trigger] holds(m, d) <==> d == sole_digit(m),
{
    lemma_count_pos(m, 16);
    let d = choose|d: int| 0 <= d < 16 && holds(m, d);
    assert(1 <= d <= 9 && holds(m, d));
    let s = sole_digit(m);
    assert forall|x: int| #[trigger] holds(m, x) <==> x == s by {
        if holds(m, x) {
            lemma_single_unique(m, x, s);
        }
    }
}

/// A mask that holds a digit but is not single holds at least two bits.
pub proof fn lemma_not_single(m: u16, d: int)
    requires
        holds(m, d),
        popcount(m) != 1,
    ensures
        popcount(m) >= 2,
{
    lemma_count_one(m, d, 16);
}

/// A mask holds no digit exactly when its count is zero.
pub proof fn lemma_count_zero(m: u16)
    ensures
        popcount(m) == 0 <==> m == 0,
{
    lemma_zero_iff_empty(m);
    if popcount(m) > 0 {
        lemma_count_pos(m, 16);
    }
    if m != 0 {
        let d = choose|d: int| #[trigger] holds(m, d);
        lemma_count_one(m, d, 16);
    }
}

/// The mask of one digit counts one bit.
pub proof fn lemma_count_bit(e: u16)
    requires
        e < 16,
    ensures
        popcount(1u16 << e) == 1,
{
    lemma_has_bit(e);
    lemma_count_one(1u16 << e, e as int, 16);
    if popcount(1u16 << e) >= 2 {
        lemma_count_ge_two(1u16 << e, 16);
    }
}

/// A count of two or more comes from two distinct digits.
proof fn lemma_count_ge_two(m: u16, n: int)
    requires
        count_below(m, n) >= 2,
    ensures
        exists|a: int, b: int| 0 <= a < b < n && holds(m, a) && holds(m, b),
    decreases n,
{
    if n > 0 {
        if holds(m, n - 1) {
            lemma_count_pos(m, n - 1);
            let a = choose|a: int| 0 <= a < n - 1 && holds(m, a);
            assert(0 <= a < n - 1 < n && holds(m, a) && holds(m, n - 1));
        } else {
            lemma_count_ge_two(m, n - 1);
            let (a, b) = choose|a: int, b: int| 0 <= a < b < n - 1 && holds(m, a) && holds(m, b);
            assert(0 <= a < b < n && holds(m, a) && holds(m, b));
        }
    }
}

} // verus!
