//! The mathematical model of a grid: which digit, if any, each of the 81
//! positions holds, and the Sudoku rules stated over that model.

use vstd::prelude::*;

verus! {

/// Nine rows of nine positions; `b[y][x]` is the digit in column `x` of row `y`.
pub type Board = Seq<Seq<Option<u8>>>;

/// Whether `(x, y)` names a position of the grid.
pub open spec fn in_grid(x: int, y: int) -> bool {
    0 <= x < 9 && 0 <= y < 9
}

/// Whether `b` has the shape of a grid.
pub open spec fn is_board(b: Board) -> bool {
    b.len() == 9 && forall|y: int| 0 <= y < 9 ==> (#[trigger] b[y]).len() == 9
}

/// Whether two positions lie in the same row, the same column or the same
/// 3×3 box. A position is related to itself.
pub open spec fn related(x1: int, y1: int, x2: int, y2: int) -> bool {
    y1 == y2 || x1 == x2 || (x1 / 3 == x2 / 3 && y1 / 3 == y2 / 3)
}

/// Whether `(x2, y2)` is a position of the grid other than `(x1, y1)` that
/// shares a row, a column or a box with it.
pub open spec fn peers(x1: int, y1: int, x2: int, y2: int) -> bool {
    in_grid(x2, y2) && !(x1 == x2 && y1 == y2) && related(x1, y1, x2, y2)
}

/// Whether some peer of `(x, y)` holds digit `d`.
pub open spec fn blocked(b: Board, x: int, y: int, d: u8) -> bool {
    exists|px: int, py: int| #[trigger] peers(x, y, px, py) && b[py][px] == Some(d)
}

/// The position with row-major index `k`.
pub open spec fn flat(b: Board, k: int) -> Option<u8> {
    b[k / 9][k % 9]
}

/// The board that agrees with `b` everywhere but at `(x, y)`, where it holds `v`.
pub open spec fn put(b: Board, x: int, y: int, v: Option<u8>) -> Board {
    b.update(y, b[y].update(x, v))
}

/// The board without any digit.
pub open spec fn blank() -> Board {
    Seq::new(9, |y: int| Seq::new(9, |x: int| None::<u8>))
}

/// Whether every position holds a digit.
pub open spec fn is_full(b: Board) -> bool {
    forall|x: int, y: int| in_grid(x, y) ==> (#[trigger] b[y][x]).is_some()
}

/// Whether the digit at `(x, y)`, if there is one, is in `1..=9` and is held
/// by no peer.
pub open spec fn cell_valid(b: Board, x: int, y: int) -> bool {
    match b[y][x] {
        Some(d) => 1 <= d <= 9 && !blocked(b, x, y, d),
        None => true,
    }
}

/// Whether `b` is a legal, possibly partial, Sudoku state: every digit is in
/// `1..=9` and no row, column or box holds a digit twice.
pub open spec fn is_valid(b: Board) -> bool {
    is_board(b) && forall|x: int, y: int| in_grid(x, y) ==> #[trigger] cell_valid(b, x, y)
}

/// Whether every digit on the board is in `1..=9`.
pub open spec fn digits_in_range(b: Board) -> bool {
    forall|x: int, y: int|
        in_grid(x, y) ==> ((#[trigger] b[y][x]) matches Some(d) ==> 1 <= d <= 9)
}

/// Whether `b` holds every digit of `base` where `base` holds it.
pub open spec fn keeps_digits(base: Board, b: Board) -> bool {
    forall|x: int, y: int|
        in_grid(x, y) && (#[trigger] base[y][x]).is_some() ==> b[y][x] == base[y][x]
}

/// Whether `b` completes `base`: it is full, it is valid as a whole, and it
/// keeps every digit of `base`. A board that breaks the rules itself, by a
/// digit outside `1..=9` or by a digit held twice in a row, a column or a
/// box, has no completion.
pub open spec fn is_completion(base: Board, b: Board) -> bool {
    is_valid(b) && is_full(b) && keeps_digits(base, b)
}

/// Whether `base` has no completion.
pub open spec fn is_unsolvable(base: Board) -> bool {
    forall|b: Board| !is_completion(base, b)
}

/// Whether `base` has exactly one completion.
pub open spec fn has_unique_completion(base: Board) -> bool {
    exists|b: Board| is_only_completion(base, b)
}

/// Whether `b` is the one completion of `base`.
pub open spec fn is_only_completion(base: Board, b: Board) -> bool {
    is_completion(base, b) && forall|c: Board| #[trigger] is_completion(base, c) ==> c == b
}

/// The `k`-th position that a conflict scan around `(x, y)` visits: the row
/// from left to right, then the column from top to bottom, then the box,
/// column by column.
pub open spec fn scan_cell(x: int, y: int, k: int) -> (int, int) {
    if k < 9 {
        (k, y)
    } else if k < 18 {
        (x, k - 9)
    } else {
        (x / 3 * 3 + (k - 18) / 3, y / 3 * 3 + (k - 18) % 3)
    }
}

/// Whether the `k`-th position of the scan around `(x, y)` is another
/// position and holds `d`.
pub open spec fn scan_hit(b: Board, x: int, y: int, d: u8, k: int) -> bool {
    let c = scan_cell(x, y, k);
    c != (x, y) && b[c.1][c.0] == Some(d)
}

/// The first position from step `k` of the scan on that conflicts with `d`
/// at `(x, y)`.
pub open spec fn first_conflict_from(b: Board, x: int, y: int, d: u8, k: int) -> Option<(int, int)>
    decreases 27 - k,
{
    if k >= 27 {
        None
    } else if scan_hit(b, x, y, d, k) {
        Some(scan_cell(x, y, k))
    } else {
        first_conflict_from(b, x, y, d, k + 1)
    }
}

/// The first position in scan order that conflicts with `d` at `(x, y)`.
pub open spec fn first_conflict(b: Board, x: int, y: int, d: u8) -> Option<(int, int)> {
    first_conflict_from(b, x, y, d, 0)
}

/// The row-major index of the first empty position from `k` on, 81 if there
/// is none.
pub open spec fn first_gap(b: Board, k: int) -> int
    decreases 81 - k,
{
    if k >= 81 {
        81
    } else if flat(b, k).is_none() {
        k
    } else {
        first_gap(b, k + 1)
    }
}

/// How many of the first `k` positions in row-major order hold a digit.
pub open spec fn digits_upto(b: Board, k: int) -> nat
    decreases k,
{
    if k <= 0 {
        0
    } else {
        digits_upto(b, k - 1) + if flat(b, k - 1).is_some() {
            1nat
        } else {
            0nat
        }
    }
}

/// How many positions hold a digit.
pub open spec fn digit_count(b: Board) -> nat {
    digits_upto(b, 81)
}

} // verus!

verus! {

/// From step `k` on, the scan reports its first hit, and nothing if there is
/// none.
pub proof fn lemma_scan_from(b: Board, x: int, y: int, d: u8, k: int)
    requires
        0 <= k <= 27,
    ensures
        first_conflict_from(b, x, y, d, k) is None <==> forall|j: int|
            k <= j < 27 ==> !#[trigger] scan_hit(b, x, y, d, j),
        first_conflict_from(b, x, y, d, k) matches Some(c) ==> exists|j: int|
            k <= j < 27 && #[trigger] scan_hit(b, x, y, d, j) && c == scan_cell(x, y, j),
    decreases 27 - k,
{
    if k < 27 {
        lemma_scan_from(b, x, y, d, k + 1);
        if scan_hit(b, x, y, d, k) {
        } else {
            assert forall|j: int|
                k <= j < 27 && (forall|i: int|
                    k + 1 <= i < 27 ==> !#[trigger] scan_hit(b, x, y, d, i))
                implies !#[trigger] scan_hit(b, x, y, d, j) by {
                if j > k {
                    assert(!scan_hit(b, x, y, d, j));
                }
            }
        }
    }
}

/// The scan around a position visits its peers and no position that is not
/// the position itself or a peer.
pub proof fn lemma_scan_covers_peers(x: int, y: int)
    requires
        in_grid(x, y),
    ensures
        forall|k: int|
            0 <= k < 27 && #[trigger] scan_cell(x, y, k) != (x, y) ==> peers(
                x,
                y,
                scan_cell(x, y, k).0,
                scan_cell(x, y, k).1,
            ),
        forall|px: int, py: int| #[trigger]
            peers(x, y, px, py) ==> exists|k: int|
                0 <= k < 27 && #[trigger] scan_cell(x, y, k) == (px, py),
{
    assert forall|px: int, py: int| #[trigger] peers(x, y, px, py) implies exists|k: int|
        0 <= k < 27 && #[trigger] scan_cell(x, y, k) == (px, py) by {
        if py == y {
            assert(scan_cell(x, y, px) == (px, py));
        } else if px == x {
            assert(scan_cell(x, y, 9 + py) == (px, py));
        } else {
            let k = 18 + (px - x / 3 * 3) * 3 + (py - y / 3 * 3);
            assert(scan_cell(x, y, k) == (px, py));
        }
    }
}

/// A conflict is reported exactly when some peer holds the digit, and the
/// position reported is such a peer.
pub proof fn lemma_first_conflict(b: Board, x: int, y: int, d: u8)
    requires
        in_grid(x, y),
    ensures
        first_conflict(b, x, y, d) is None <==> !blocked(b, x, y, d),
        first_conflict(b, x, y, d) matches Some(c) ==> peers(x, y, c.0, c.1) && b[c.1][c.0]
            == Some(d),
{
    lemma_scan_from(b, x, y, d, 0);
    lemma_scan_covers_peers(x, y);
    if blocked(b, x, y, d) {
        let (px, py) = choose|px: int, py: int| #[trigger]
            peers(x, y, px, py) && b[py][px] == Some(d);
        let k = choose|k: int| 0 <= k < 27 && #[trigger] scan_cell(x, y, k) == (px, py);
        assert(scan_hit(b, x, y, d, k));
    }
    if first_conflict(b, x, y, d) is Some {
        let c = first_conflict(b, x, y, d)->0;
        let j = choose|j: int|
            0 <= j < 27 && #[trigger] scan_hit(b, x, y, d, j) && c == scan_cell(x, y, j);
        assert(scan_cell(x, y, j) != (x, y));
        assert(peers(x, y, c.0, c.1));
    }
}

} // verus!
