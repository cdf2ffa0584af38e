//! Facts about completions of a board: what the solver's search rests on.

use crate::board::{
    blocked, cell_valid, digits_in_range, first_gap, flat, in_grid, is_board, is_completion,
    is_full, is_unsolvable, is_valid, peers, put, Board,
};
use vstd::prelude::*;

verus! {

/// `put` changes one position of a board and nothing else.
pub proof fn lemma_put(b: Board, x: int, y: int, v: Option<u8>)
    requires
        is_board(b),
        in_grid(x, y),
    ensures
        is_board(put(b, x, y, v)),
        put(b, x, y, v)[y][x] == v,
        forall|cx: int, cy: int|
            in_grid(cx, cy) && !(cx == x && cy == y) ==> #[trigger] put(b, x, y, v)[cy][cx]
                == b[cy][cx],
{
}

/// A full valid board completes itself, and nothing else completes it.
pub proof fn lemma_full_completion(b: Board)
    requires
        is_valid(b),
        is_full(b),
    ensures
        is_completion(b, b),
        forall|c: Board| #[trigger] is_completion(b, c) ==> c == b,
{
    assert forall|c: Board| #[trigger] is_completion(b, c) implies c == b by {
        assert forall|y: int| 0 <= y < 9 implies #[trigger] c[y] =~= b[y] by {
            assert forall|x: int| 0 <= x < 9 implies #[trigger] c[y][x] == b[y][x] by {
                assert(b[y][x].is_some());
            }
        }
        assert(c =~= b);
    }
}

/// A completion of a board also completes the board with one more of the
/// completion's digits written in.
pub proof fn lemma_completion_narrow(base: Board, b: Board, x: int, y: int, d: u8)
    requires
        is_board(base),
        in_grid(x, y),
        is_completion(base, b),
        b[y][x] == Some(d),
    ensures
        is_completion(put(base, x, y, Some(d)), b),
{
    let wider = put(base, x, y, Some(d));
    assert forall|cx: int, cy: int|
        in_grid(cx, cy) && (#[trigger] wider[cy][cx]).is_some() implies b[cy][cx]
        == wider[cy][cx] by {
        if !(cx == x && cy == y) {
            assert(base[cy][cx].is_some());
        }
    }
}

/// Every completion of a board with a digit written in at an empty position
/// completes the board itself, and holds that digit there.
pub proof fn lemma_completion_widen(base: Board, b: Board, x: int, y: int, d: u8)
    requires
        is_board(base),
        in_grid(x, y),
        base[y][x] is None,
        is_completion(put(base, x, y, Some(d)), b),
    ensures
        is_completion(base, b),
        b[y][x] == Some(d),
{
    let wider = put(base, x, y, Some(d));
    assert(wider[y][x].is_some());
    assert forall|cx: int, cy: int|
        in_grid(cx, cy) && (#[trigger] base[cy][cx]).is_some() implies b[cy][cx]
        == base[cy][cx] by {
        assert(wider[cy][cx] == base[cy][cx]);
    }
}

/// No completion writes a digit at an empty position where a peer already
/// holds that digit.
pub proof fn lemma_blocked_excludes(base: Board, b: Board, x: int, y: int, d: u8)
    requires
        in_grid(x, y),
        base[y][x] is None,
        blocked(base, x, y, d),
        is_completion(base, b),
    ensures
        b[y][x] != Some(d),
{
    let (px, py) = choose|px: int, py: int| #[trigger]
        peers(x, y, px, py) && base[py][px] == Some(d);
    assert(base[py][px].is_some());
    assert(cell_valid(b, x, y));
    assert(peers(x, y, px, py) && b[py][px] == Some(d));
}

/// Only a valid board has a completion.
pub proof fn lemma_completed_is_valid(base: Board, b: Board)
    requires
        is_board(base),
        is_completion(base, b),
    ensures
        is_valid(base),
{
    assert forall|x: int, y: int| in_grid(x, y) implies #[trigger] cell_valid(base, x, y) by {
        if let Some(d) = base[y][x] {
            assert(base[y][x].is_some());
            assert(cell_valid(b, x, y));
            if blocked(base, x, y, d) {
                let (px, py) = choose|px: int, py: int| #[trigger]
                    peers(x, y, px, py) && base[py][px] == Some(d);
                assert(base[py][px].is_some());
                assert(peers(x, y, px, py) && b[py][px] == Some(d));
            }
        }
    }
}

/// A board that breaks the rules has no completion.
pub proof fn lemma_broken_is_unsolvable(base: Board)
    requires
        is_board(base),
        !is_valid(base),
    ensures
        is_unsolvable(base),
{
    assert forall|b: Board| !is_completion(base, b) by {
        if is_completion(base, b) {
            lemma_completed_is_valid(base, b);
        }
    }
}

/// Writing a digit in `1..=9` at an empty position of a valid board, where
/// no peer holds that digit, leaves a valid board.
pub proof fn lemma_valid_with(b: Board, x: int, y: int, d: u8)
    requires
        is_valid(b),
        in_grid(x, y),
        b[y][x] is None,
        1 <= d <= 9,
        !blocked(b, x, y, d),
    ensures
        is_valid(put(b, x, y, Some(d))),
{
    let more = put(b, x, y, Some(d));
    assert forall|cx: int, cy: int| in_grid(cx, cy) implies #[trigger] cell_valid(more, cx, cy) by {
        assert(cell_valid(b, cx, cy));
        if let Some(e) = more[cy][cx] {
            if blocked(more, cx, cy, e) {
                let (px, py) = choose|px: int, py: int| #[trigger]
                    peers(cx, cy, px, py) && more[py][px] == Some(e);
                if px == x && py == y {
                    assert(peers(x, y, cx, cy) && b[cy][cx] == Some(d));
                } else if cx == x && cy == y {
                    assert(peers(x, y, px, py) && b[py][px] == Some(d));
                } else {
                    assert(peers(cx, cy, px, py) && b[py][px] == Some(e));
                }
            }
        }
    }
}

/// The digits of a valid board are in `1..=9`.
pub proof fn lemma_valid_in_range(b: Board)
    requires
        is_valid(b),
    ensures
        digits_in_range(b),
{
    assert forall|x: int, y: int| in_grid(x, y) implies ((#[trigger] b[y][x]) matches Some(d)
        ==> 1 <= d <= 9) by {
        assert(cell_valid(b, x, y));
    }
}

/// Taking a digit off a valid board leaves a valid board.
pub proof fn lemma_valid_without(b: Board, x: int, y: int)
    requires
        is_valid(b),
        in_grid(x, y),
    ensures
        is_valid(put(b, x, y, None)),
{
    let less = put(b, x, y, None);
    assert forall|cx: int, cy: int| in_grid(cx, cy) implies #[trigger] cell_valid(less, cx, cy) by {
        assert(cell_valid(b, cx, cy));
        if let Some(d) = less[cy][cx] {
            if blocked(less, cx, cy, d) {
                let (px, py) = choose|px: int, py: int| #[trigger]
                    peers(cx, cy, px, py) && less[py][px] == Some(d);
                assert(peers(cx, cy, px, py) && b[py][px] == Some(d));
            }
        }
    }
}

/// From `j` on, `first_gap` names the first empty position, with only
/// digits before it.
pub proof fn lemma_first_gap(b: Board, j: int)
    requires
        0 <= j <= 81,
    ensures
        j <= first_gap(b, j) <= 81,
        forall|i: int| j <= i < first_gap(b, j) ==> (#[trigger] flat(b, i)).is_some(),
        first_gap(b, j) < 81 ==> flat(b, first_gap(b, j)).is_none(),
    decreases 81 - j,
{
    if j < 81 && flat(b, j).is_some() {
        lemma_first_gap(b, j + 1);
    }
}

/// Where the positions from `j` up to `k` all hold digits, the first empty
/// position from `j` on is not before `k`.
pub proof fn lemma_first_gap_lower(b: Board, j: int, k: int)
    requires
        0 <= j <= k <= 81,
        forall|i: int| j <= i < k ==> (#[trigger] flat(b, i)).is_some(),
    ensures
        first_gap(b, j) >= k,
    decreases k - j,
{
    if j < k {
        assert(flat(b, j).is_some());
        lemma_first_gap_lower(b, j + 1, k);
    } else {
        lemma_first_gap(b, j);
    }
}

/// Writing a digit at the first empty position moves the first empty
/// position on.
pub proof fn lemma_gap_advances(b: Board, x: int, y: int, d: u8)
    requires
        is_board(b),
        in_grid(x, y),
        first_gap(b, 0) == 9 * y + x,
    ensures
        first_gap(put(b, x, y, Some(d)), 0) > 9 * y + x,
{
    let more = put(b, x, y, Some(d));
    let k = 9 * y + x;
    lemma_first_gap(b, 0);
    assert forall|i: int| 0 <= i < k + 1 implies (#[trigger] flat(more, i)).is_some() by {
        if i < k {
            assert(flat(b, i).is_some());
            assert(in_grid(i % 9, i / 9));
            assert(more[i / 9][i % 9] == b[i / 9][i % 9]);
        } else {
            assert(i / 9 == y && i % 9 == x);
        }
    }
    lemma_first_gap_lower(more, 0, k + 1);
}

/// A board is full exactly when it has no first empty position.
pub proof fn lemma_full_has_no_gap(b: Board)
    ensures
        is_full(b) <==> first_gap(b, 0) == 81,
{
    lemma_first_gap(b, 0);
    if is_full(b) {
        if first_gap(b, 0) < 81 {
            let k = first_gap(b, 0);
            assert(in_grid(k % 9, k / 9));
            assert(b[k / 9][k % 9].is_some());
        }
    } else {
        if first_gap(b, 0) == 81 {
            assert forall|x: int, y: int| in_grid(x, y) implies (#[trigger] b[y][x]).is_some() by {
                let k = 9 * y + x;
                assert(k / 9 == y && k % 9 == x);
                assert(flat(b, k).is_some());
            }
        }
    }
}

} // verus!
