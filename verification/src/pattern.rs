//! Full boards written down by a formula. They show that a board with a
//! single digit can always be completed, and that a board without any digit
//! can be completed in more than one way.

use crate::board::{
    blank, blocked, cell_valid, digit_count, digits_upto, flat, has_unique_completion, in_grid,
    is_board, is_completion, is_full, is_only_completion, is_unsolvable, is_valid, peers, put,
    Board,
};
use vstd::prelude::*;

verus! {

/// The digit at `(x, y)` of the pattern shifted by `shift`: each row is the
/// row above it moved on by three, and by one more from one band of three
/// rows to the next.
pub open spec fn pattern_digit(x: int, y: int, shift: int) -> u8 {
    ((3 * (y % 3) + y / 3 + x + shift) % 9 + 1) as u8
}

/// The full board of the pattern shifted by `shift`.
pub open spec fn pattern(shift: int) -> Board {
    Seq::new(9, |y: int| Seq::new(9, |x: int| Some(pattern_digit(x, y, shift))))
}

/// The shift that puts digit `d` at `(x, y)`.
pub open spec fn shift_for(x: int, y: int, d: u8) -> int {
    (d - 1 + 18 - (3 * (y % 3) + y / 3 + x)) % 9
}

/// Peers hold different digits in the pattern.
pub proof fn lemma_pattern_peers(x1: int, y1: int, x2: int, y2: int, shift: int)
    requires
        in_grid(x1, y1),
        peers(x1, y1, x2, y2),
        0 <= shift < 9,
    ensures
        pattern_digit(x1, y1, shift) != pattern_digit(x2, y2, shift),
{
    let a = 3 * (y1 % 3) + y1 / 3 + x1;
    let b = 3 * (y2 % 3) + y2 / 3 + x2;
    assert(0 <= a <= 16 && 0 <= b <= 16);
    assert(a != b && a != b + 9 && b != a + 9);
    assert((a + shift) % 9 != (b + shift) % 9);
}

/// The pattern is a full valid board, whatever the shift.
pub proof fn lemma_pattern_valid(shift: int)
    requires
        0 <= shift < 9,
    ensures
        is_board(pattern(shift)),
        is_full(pattern(shift)),
        is_valid(pattern(shift)),
        forall|x: int, y: int|
            in_grid(x, y) ==> #[trigger] pattern(shift)[y][x] == Some(pattern_digit(x, y, shift)),
{
    let p = pattern(shift);
    assert forall|x: int, y: int| in_grid(x, y) implies #[trigger] cell_valid(p, x, y) by {
        let d = pattern_digit(x, y, shift);
        assert(p[y][x] == Some(d));
        if blocked(p, x, y, d) {
            let (px, py) = choose|px: int, py: int| #[trigger]
                peers(x, y, px, py) && p[py][px] == Some(d);
            lemma_pattern_peers(x, y, px, py, shift);
        }
    }
}

/// A board that holds one digit in `1..=9` and nothing else has a completion.
pub proof fn lemma_seeded_solvable(x: int, y: int, d: u8)
    requires
        in_grid(x, y),
        1 <= d <= 9,
    ensures
        !is_unsolvable(put(blank(), x, y, Some(d))),
        is_valid(put(blank(), x, y, Some(d))),
{
    let seeded = put(blank(), x, y, Some(d));
    let shift = shift_for(x, y, d);
    let p = pattern(shift);
    lemma_pattern_valid(shift);
    assert(pattern_digit(x, y, shift) == d);
    assert forall|cx: int, cy: int|
        in_grid(cx, cy) && (#[trigger] seeded[cy][cx]).is_some() implies p[cy][cx]
        == seeded[cy][cx] by {
        assert(cx == x && cy == y);
    }
    assert(is_completion(seeded, p));
    assert forall|cx: int, cy: int| in_grid(cx, cy) implies #[trigger] cell_valid(
        seeded,
        cx,
        cy,
    ) by {
        if cx == x && cy == y {
            if blocked(seeded, x, y, d) {
                let (px, py) = choose|px: int, py: int| #[trigger]
                    peers(x, y, px, py) && seeded[py][px] == Some(d);
                assert(seeded[py][px].is_none());
            }
        }
    }
}

/// A board without any digit has more than one completion.
pub proof fn lemma_blank_ambiguous(b: Board)
    requires
        is_board(b),
        forall|x: int, y: int| in_grid(x, y) ==> (#[trigger] b[y][x]).is_none(),
    ensures
        !has_unique_completion(b),
        !is_unsolvable(b),
{
    lemma_pattern_valid(0);
    lemma_pattern_valid(1);
    assert(pattern(0)[0][0] == Some(1u8));
    assert(pattern(1)[0][0] == Some(2u8));
    assert(is_completion(b, pattern(0)));
    assert(is_completion(b, pattern(1)));
    if has_unique_completion(b) {
        let only = choose|only: Board| is_only_completion(b, only);
        assert(pattern(0) == only);
        assert(pattern(1) == only);
    }
}

/// A board on which no position counts as holding a digit holds none.
pub proof fn lemma_no_digits(b: Board, k: int)
    requires
        0 <= k <= 81,
        digits_upto(b, k) == 0,
    ensures
        forall|i: int| 0 <= i < k ==> (#[trigger] flat(b, i)).is_none(),
    decreases k,
{
    if k > 0 {
        lemma_no_digits(b, k - 1);
    }
}

/// A board with exactly one completion holds at least one digit.
pub proof fn lemma_digits_left(b: Board)
    requires
        is_board(b),
        has_unique_completion(b),
    ensures
        digit_count(b) > 0,
{
    if digit_count(b) == 0 {
        lemma_no_digits(b, 81);
        assert forall|x: int, y: int| in_grid(x, y) implies (#[trigger] b[y][x]).is_none() by {
            let i = 9 * y + x;
            assert(i / 9 == y && i % 9 == x);
            assert(flat(b, i).is_none());
        }
        lemma_blank_ambiguous(b);
    }
}

/// The count of digits goes down by one where a digit is taken off.
pub proof fn lemma_count_without(b: Board, x: int, y: int, k: int)
    requires
        is_board(b),
        in_grid(x, y),
        b[y][x].is_some(),
        0 <= k <= 81,
    ensures
        digits_upto(put(b, x, y, None), k) == digits_upto(b, k) - if k > 9 * y + x {
            1int
        } else {
            0int
        },
    decreases k,
{
    if k > 0 {
        lemma_count_without(b, x, y, k - 1);
        let i = k - 1;
        assert(in_grid(i % 9, i / 9));
        if i == 9 * y + x {
            assert(i / 9 == y && i % 9 == x);
        } else {
            assert(!(i % 9 == x && i / 9 == y));
            assert(put(b, x, y, None)[i / 9][i % 9] == b[i / 9][i % 9]);
        }
    }
}

} // verus!
