//! Board dimensions, the game's mode, and the order in which compaction
//! visits the board.

use vstd::prelude::*;

verus! {

/// Whether a game is under way, lost, or won.
#[derive(Clone, Copy, Debug, PartialEq, Eq, Structural)]
pub enum Mode {
    Playing,
    GameOver,
    /// The game was won; the flag is set when the score beat the high score.
    UserWon(bool),
}

/// The board's dimensions in cells.
#[derive(Clone, Copy, Debug, PartialEq, Eq, Structural)]
pub struct Size {
    pub columns: i32,
    pub rows: i32,
}

impl Size {
    pub fn new(columns: i32, rows: i32) -> (r: Self)
        ensures
            r.columns == columns,
            r.rows == rows,
    {
        Self { columns, rows }
    }
}

/// The width and height of one tile on a board drawn `width` by `height`
/// pixels: each is the floor of the pixel extent over the cell count.
pub fn get_tile_size(columns: i32, rows: i32, width: i32, height: i32) -> (r: (i32, i32))
    requires
        columns > 0,
        rows > 0,
        width >= 0,
        height >= 0,
    ensures
        r.0 == width / columns,
        r.1 == height / rows,
{
    let tile_width = width / columns;
    let tile_height = height / rows;
    (tile_width, tile_height)
}

/// The `k`-th index visited by [`ripple`] over `n` indices: the middle
/// first, then alternately one below and one above, moving outwards; when
/// `n` is odd the last index comes last.
pub open spec fn ripple_at(n: int, k: int) -> int {
    if k < 2 * (n / 2) {
        if k % 2 == 0 {
            n / 2 + k / 2
        } else {
            n / 2 - 1 - k / 2
        }
    } else {
        n - 1
    }
}

/// Every index below `n` in middle-out order (see [`ripple_at`]).
pub fn ripple(n: usize) -> (r: Vec<usize>)
    ensures
        r@.len() == n,
        forall|k: int| 0 <= k < n ==> r@[k] == ripple_at(n as int, k),
        forall|k: int| 0 <= k < n ==> #[trigger] r@[k] < n,
        forall|i: usize| i < n ==> #[trigger] r@.contains(i),
{
    let mut ripple: Vec<usize> = Vec::with_capacity(n);
    let middle: usize = n / 2;
    let mut i: usize = 0;
    while i < middle
        invariant
            middle == n / 2,
            i <= middle,
            ripple@.len() == 2 * i,
            forall|k: int| 0 <= k < 2 * i ==> ripple@[k] == ripple_at(n as int, k),
        decreases middle - i,
    {
        ripple.push(middle + i);
        ripple.push(middle - 1 - i);
        i = i + 1;
    }
    if n % 2 != 0 {
        ripple.push(n - 1);
    }
    proof {
        assert forall|k: int| 0 <= k < n implies ripple@[k] == ripple_at(n as int, k) by {}
        assert forall|k: int| 0 <= k < n implies #[trigger] ripple@[k] < n by {
            assert(ripple@[k] == ripple_at(n as int, k));
        }
        assert forall|j: usize| j < n implies #[trigger] ripple@.contains(j) by {
            let m = (n / 2) as int;
            if j >= m && j < 2 * m {
                let k = 2 * (j - m);
                assert(ripple@[k] == ripple_at(n as int, k));
            } else if j < m {
                let k = 2 * (m - 1 - j) + 1;
                assert(ripple@[k] == ripple_at(n as int, k));
            } else {
                let k = n - 1;
                assert(ripple@[k] == ripple_at(n as int, k));
            }
        }
    }
    ripple
}

} // verus!
