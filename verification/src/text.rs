//! Text shown to the user: digits, candidate lists and hint descriptions.
use vstd::prelude::*;

use crate::mask::{holds, popcount, sole_digit};

verus! {

/// The decimal text of a number from 1 to 9.
pub open spec fn digit_text(n: int) -> Seq<char> {
    if n == 1 {
        "1"@
    } else if n == 2 {
        "2"@
    } else if n == 3 {
        "3"@
    } else if n == 4 {
        "4"@
    } else if n == 5 {
        "5"@
    } else if n == 6 {
        "6"@
    } else if n == 7 {
        "7"@
    } else if n == 8 {
        "8"@
    } else {
        "9"@
    }
}

/// The decimal text of a number from 1 to 9.
pub fn digit_str(n: usize) -> (r: &'static str)
    requires
        1 <= n <= 9,
    ensures
        r@ == digit_text(n as int),
{
    if n == 1 {
        "1"
    } else if n == 2 {
        "2"
    } else if n == 3 {
        "3"
    } else if n == 4 {
        "4"
    } else if n == 5 {
        "5"
    } else if n == 6 {
        "6"
    } else if n == 7 {
        "7"
    } else if n == 8 {
        "8"
    } else {
        "9"
    }
}

/// Each digit text is one character long.
pub proof fn lemma_digit_text_len(n: int)
    ensures
        digit_text(n).len() == 1,
{
    reveal_strlit("1");
    reveal_strlit("2");
    reveal_strlit("3");
    reveal_strlit("4");
    reveal_strlit("5");
    reveal_strlit("6");
    reveal_strlit("7");
    reveal_strlit("8");
    reveal_strlit("9");
}

/// The candidates of `m` among the digits below `d`, comma separated.
pub open spec fn digit_list(m: u16, d: int) -> Seq<char>
    decreases d,
{
    if d <= 1 {
        Seq::empty()
    } else {
        let prev = digit_list(m, d - 1);
        if holds(m, d - 1) {
            if prev.len() == 0 {
                digit_text(d - 1)
            } else {
                prev + ","@ + digit_text(d - 1)
            }
        } else {
            prev
        }
    }
}

/// How a cell is shown: its digit when exactly one digit 1 to 9 is left,
/// otherwise the bracketed list of its candidates, such as `[2,4,9]`.
pub open spec fn candidates_text(m: u16) -> Seq<char> {
    if popcount(m) == 1 && exists|d: int| 1 <= d <= 9 && #[trigger] holds(m, d) {
        digit_text(sole_digit(m))
    } else {
        "["@ + digit_list(m, 10) + "]"@
    }
}

} // verus!
