//! The rules of the game stated over the board's mathematical value: regions
//! of one color, legal selections, scoring, the pull of tiles towards the
//! middle, and the end of a game. The laws that tie them together are proved
//! here.

use crate::board_util::{Mode, Size};
use crate::grid::{in_bounds, lemma_total_put, put, shaped, total, Color};
use crate::util::Pos;
use vstd::prelude::*;

verus! {

/// The value of a board: `g[x][y]` is the cell at column `x`, row `y`.
pub type Grid = Seq<Seq<Option<Color>>>;

/// `p` lies on the board.
pub open spec fn on_board(s: Size, p: Pos) -> bool {
    in_bounds(s.columns as int, s.rows as int, p.x as int, p.y as int)
}

/// The cell at `p`; off the board every cell is empty.
pub open spec fn tile_at(g: Grid, s: Size, p: Pos) -> Option<Color> {
    if on_board(s, p) {
        g[p.x as int][p.y as int]
    } else {
        None
    }
}

/// `p` and `q` share an edge.
pub open spec fn adjacent(p: Pos, q: Pos) -> bool {
    ||| p.x == q.x && (p.y == q.y + 1 || q.y == p.y + 1)
    ||| p.y == q.y && (p.x == q.x + 1 || q.x == p.x + 1)
}

/// A walk over tiles of color `c` from edge to shared edge.
pub open spec fn is_path(g: Grid, s: Size, c: Color, path: Seq<Pos>) -> bool {
    &&& path.len() >= 1
    &&& forall|i: int| 0 <= i < path.len() ==> tile_at(g, s, #[trigger] path[i]) == Some(c)
    &&& forall|i: int| 0 <= i < path.len() - 1 ==> adjacent(#[trigger] path[i], path[i + 1])
}

/// `to` can be reached from `from` over tiles of color `c` only.
pub open spec fn reachable(g: Grid, s: Size, c: Color, from: Pos, to: Pos) -> bool {
    exists|path: Seq<Pos>| is_path(g, s, c, path) && path[0] == from && path.last() == to
}

/// `r` lists, once each, the cells that can be reached from `start` over
/// tiles of color `c`: empty when `start` does not hold `c`.
pub open spec fn is_region(g: Grid, s: Size, c: Color, start: Pos, r: Seq<Pos>) -> bool {
    &&& r.no_duplicates()
    &&& forall|q: Pos| #[trigger] r.contains(q) <==> reachable(g, s, c, start, q)
}

/// A selection of `p` is legal: it holds a tile, and a tile of the same
/// color shares an edge with it.
pub open spec fn legal_at(g: Grid, s: Size, p: Pos) -> bool {
    &&& tile_at(g, s, p) is Some
    &&& exists|q: Pos| adjacent(p, q) && #[trigger] tile_at(g, s, q) == tile_at(g, s, p)
}

/// Some cell of the board is a legal selection.
pub open spec fn any_legal(g: Grid, s: Size) -> bool {
    exists|p: Pos| #[trigger] legal_at(g, s, p)
}

/// No cell of the board holds a tile.
pub open spec fn board_empty(g: Grid, s: Size) -> bool {
    forall|p: Pos| #[trigger] tile_at(g, s, p) is None
}

/// The mode a game is in once the tiles have settled: won when the board is
/// empty, lost when no selection is legal, and still playing otherwise.
pub open spec fn outcome(g: Grid, s: Size, score: u16, highscore: u16) -> Mode {
    if board_empty(g, s) {
        Mode::UserWon(score > highscore)
    } else if !any_legal(g, s) {
        Mode::GameOver
    } else {
        Mode::Playing
    }
}

/// One for each tile.
pub open spec fn tile_weight() -> spec_fn(int, int, Option<Color>) -> nat {
    |x: int, y: int, v: Option<Color>| if v is Some { 1nat } else { 0nat }
}

/// One for each tile of color `c`.
pub open spec fn color_weight(c: Color) -> spec_fn(int, int, Option<Color>) -> nat {
    |x: int, y: int, v: Option<Color>| if v == Some(c) { 1nat } else { 0nat }
}

/// The squared distance to the middle of each tile.
pub open spec fn distance_weight(s: Size) -> spec_fn(int, int, Option<Color>) -> nat {
    |x: int, y: int, v: Option<Color>| if v is Some { dist2(s, x, y) as nat } else { 0nat }
}

/// The number of tiles on the board.
pub open spec fn occupied_count(g: Grid) -> nat {
    total(g, tile_weight())
}

/// The number of tiles of color `c` on the board.
pub open spec fn color_count(g: Grid, c: Color) -> nat {
    total(g, color_weight(c))
}

/// `b` to the power `e`.
pub open spec fn power(b: nat, e: nat) -> nat
    decreases e,
{
    if e == 0 {
        1
    } else {
        b * power(b, (e - 1) as nat)
    }
}

/// What removing a region of `n` tiles adds to the score: `n` to the power
/// `maxcolors - 2`, held at the largest score there is.
pub open spec fn score_delta(n: nat, maxcolors: nat) -> nat {
    let p = power(n, (maxcolors - 2) as nat);
    if p > u16::MAX {
        u16::MAX as nat
    } else {
        p
    }
}

/// `a + b`, held at the largest score there is.
pub open spec fn add_score(a: nat, b: nat) -> nat {
    if a + b > u16::MAX {
        u16::MAX as nat
    } else {
        a + b
    }
}

/// The square of the distance from column `x`, row `y` to the middle cell.
pub open spec fn dist2(s: Size, x: int, y: int) -> int {
    let dx = s.columns / 2 - x;
    let dy = s.rows / 2 - y;
    dx * dx + dy * dy
}

pub open spec fn dist2_at(s: Size, p: Pos) -> int {
    dist2(s, p.x as int, p.y as int)
}

/// The empty cell `n` shares an edge with a tile other than the one at
/// `from`: a tile moving from `from` to `n` stays in touch with another.
pub open spec fn anchored(g: Grid, s: Size, n: Pos, from: Pos) -> bool {
    exists|q: Pos| adjacent(n, q) && q != from && #[trigger] tile_at(g, s, q) is Some
}

/// The cell `n` shares an edge with a tile of color `c` other than the one
/// at `from`.
pub open spec fn near_color(g: Grid, s: Size, n: Pos, from: Pos, c: Color) -> bool {
    exists|q: Pos| adjacent(n, q) && q != from && #[trigger] tile_at(g, s, q) == Some(c)
}

/// The tile at `p` may move to `n`: an empty, anchored cell beside it.
pub open spec fn candidate(g: Grid, s: Size, p: Pos, n: Pos) -> bool {
    &&& adjacent(p, n)
    &&& on_board(s, n)
    &&& tile_at(g, s, n) is None
    &&& anchored(g, s, n, p)
}

/// How strongly the tile at `p` prefers `n`: smaller is better. Nearness to
/// the middle decides; between cells equally near, one beside a tile of the
/// moving tile's color wins.
pub open spec fn preference(g: Grid, s: Size, p: Pos, n: Pos) -> int {
    2 * dist2_at(s, n) - (if near_color(g, s, n, p, tile_at(g, s, p)->0) { 1int } else { 0int })
}

/// The tile at `p`, if any, has no candidate cell nearer the middle.
pub open spec fn stuck(g: Grid, s: Size, p: Pos) -> bool {
    tile_at(g, s, p) is None || forall|n: Pos| #[trigger] candidate(g, s, p, n) ==> dist2_at(s, n) >= dist2_at(s, p)
}

/// No tile can move nearer the middle: compaction has reached its fixed
/// point.
pub open spec fn settled(g: Grid, s: Size) -> bool {
    forall|p: Pos| on_board(s, p) ==> #[trigger] stuck(g, s, p)
}

/// `g` after the tile at `p` moves to `n`.
pub open spec fn after_move(g: Grid, p: Pos, n: Pos) -> Grid {
    put(put(g, n.x as int, n.y as int, g[p.x as int][p.y as int]), p.x as int, p.y as int, None)
}

/// The board `g` after the moves of `moves`, one after another, each taking
/// the tile at its first cell to its second.
pub open spec fn apply_moves(g: Grid, moves: Seq<(Pos, Pos)>) -> Grid
    decreases moves.len(),
{
    if moves.len() == 0 {
        g
    } else {
        after_move(apply_moves(g, moves.drop_last()), moves.last().0, moves.last().1)
    }
}

/// On board `g`, the move `m` takes a tile to a candidate cell beside it that
/// is strictly nearer the middle.
pub open spec fn step_ok(g: Grid, s: Size, m: (Pos, Pos)) -> bool {
    &&& tile_at(g, s, m.0) is Some
    &&& candidate(g, s, m.0, m.1)
    &&& dist2_at(s, m.1) < dist2_at(s, m.0)
}

/// Each move of `moves` takes a tile to a candidate cell strictly nearer the
/// middle, on the board as the moves before it left `g`: no tile ever moves
/// away from the middle.
pub open spec fn valid_chain(g: Grid, s: Size, moves: Seq<(Pos, Pos)>) -> bool {
    forall|i: int| 0 <= i < moves.len() ==> step_ok(apply_moves(g, moves.take(i)), s, #[trigger] moves[i])
}

/// The sum, over the tiles, of their squared distances to the middle.
pub open spec fn potential(g: Grid, s: Size) -> nat {
    total(g, distance_weight(s))
}

// ---------------------------------------------------------------- laws

/// A selection is legal exactly when the region it would remove holds at
/// least two tiles.
pub proof fn lemma_legal_iff_region_size(g: Grid, s: Size, start: Pos, r: Seq<Pos>)
    requires
        tile_at(g, s, start) is Some,
        is_region(g, s, tile_at(g, s, start)->0, start, r),
    ensures
        legal_at(g, s, start) <==> r.len() >= 2,
{
    let c = tile_at(g, s, start)->0;
    let single = seq![start];
    assert(is_path(g, s, c, single));
    assert(single[0] == start && single.last() == start);
    assert(r.contains(start));
    if legal_at(g, s, start) {
        let q = choose|q: Pos| adjacent(start, q) && #[trigger] tile_at(g, s, q) == tile_at(g, s, start);
        let two = seq![start, q];
        assert(is_path(g, s, c, two));
        assert(two.last() == q);
        assert(r.contains(q));
        if r.len() < 2 {
            let i = choose|i: int| 0 <= i < r.len() && r[i] == q;
            let j = choose|j: int| 0 <= j < r.len() && r[j] == start;
            assert(i == 0 && j == 0);
        }
    }
    if r.len() >= 2 {
        let q = if r[0] == start { r[1] } else { r[0] };
        assert(r.contains(q));
        assert(q != start) by {
            if r[0] == start {
                assert(r[1] != r[0]);
            }
        }
        let path = choose|path: Seq<Pos>| is_path(g, s, c, path) && path[0] == start && path.last() == q;
        assert(path.len() >= 2);
        assert(adjacent(path[0], path[1]));
        assert(tile_at(g, s, path[1]) == Some(c));
    }
}

proof fn lemma_power_positive(b: nat, e: nat)
    requires
        b >= 1,
    ensures
        power(b, e) >= 1,
    decreases e,
{
    if e > 0 {
        lemma_power_positive(b, (e - 1) as nat);
        assert(b * power(b, (e - 1) as nat) >= 1) by (nonlinear_arith)
            requires
                b >= 1,
                power(b, (e - 1) as nat) >= 1,
        ;
    }
}

proof fn lemma_power_increases(a: nat, b: nat, e: nat)
    requires
        a < b,
        e >= 1,
    ensures
        power(a, e) < power(b, e),
    decreases e,
{
    if e == 1 {
        assert(power(a, 0) == 1 && power(b, 0) == 1);
        assert(power(a, 1) == a * power(a, 0));
        assert(power(b, 1) == b * power(b, 0));
    } else {
        let e1 = (e - 1) as nat;
        lemma_power_increases(a, b, e1);
        lemma_power_positive(b, e1);
        let pa = power(a, e1);
        let pb = power(b, e1);
        assert(power(a, e) == a * pa && power(b, e) == b * pb);
        assert(a * pa < b * pb) by (nonlinear_arith)
            requires
                a < b,
                pa < pb,
                pb >= 1,
        ;
    }
}

/// The score a region earns grows strictly with the region's size, for a
/// fixed number of colors, until it reaches the largest score there is.
pub proof fn lemma_score_delta_increases(n1: nat, n2: nat, maxcolors: nat)
    requires
        n1 < n2,
        maxcolors >= 3,
        power(n2, (maxcolors - 2) as nat) <= u16::MAX,
    ensures
        score_delta(n1, maxcolors) < score_delta(n2, maxcolors),
{
    lemma_power_increases(n1, n2, (maxcolors - 2) as nat);
}

/// A score only grows when a region's points are added to it.
pub proof fn lemma_score_never_falls(score: nat, n: nat, maxcolors: nat)
    requires
        score <= u16::MAX,
    ensures
        add_score(score, score_delta(n, maxcolors)) >= score,
{
}

proof fn lemma_total_positive(g: Grid, x: int, y: int, w: spec_fn(int, int, Option<Color>) -> nat)
    requires
        0 <= x < g.len(),
        0 <= y < g[x].len(),
        w(x, y, None) == 0,
    ensures
        total(g, w) >= w(x, y, g[x][y]),
{
    lemma_total_put(g, x, y, None, w);
}

/// A board that holds tiles, no two of one color, offers no legal selection,
/// and so is lost; an empty board is won.
pub proof fn lemma_endgame(g: Grid, s: Size, score: u16, highscore: u16)
    requires
        g.len() == s.columns,
        forall|x: int| 0 <= x < s.columns ==> (#[trigger] g[x]).len() == s.rows,
    ensures
        (exists|p: Pos| #[trigger] tile_at(g, s, p) is Some) && (forall|c: Color| color_count(g, c) <= 1)
            ==> outcome(g, s, score, highscore) == Mode::GameOver,
        board_empty(g, s) ==> outcome(g, s, score, highscore) == Mode::UserWon(score > highscore),
{
    if (exists|p: Pos| #[trigger] tile_at(g, s, p) is Some) && (forall|c: Color| color_count(g, c) <= 1) {
        let p0 = choose|p: Pos| #[trigger] tile_at(g, s, p) is Some;
        assert(!board_empty(g, s));
        if any_legal(g, s) {
            let p = choose|p: Pos| #[trigger] legal_at(g, s, p);
            let q = choose|q: Pos| adjacent(p, q) && #[trigger] tile_at(g, s, q) == tile_at(g, s, p);
            let c = tile_at(g, s, p)->0;
            let w = color_weight(c);
            let (px, py, qx, qy) = (p.x as int, p.y as int, q.x as int, q.y as int);
            assert(on_board(s, p) && on_board(s, q));
            let h = put(g, px, py, None);
            lemma_total_put(g, px, py, None, w);
            assert(h[qx][qy] == g[qx][qy]);
            lemma_total_positive(h, qx, qy, w);
            assert(color_count(g, c) >= 2);
        }
    }
}

/// Moving one tile to an empty cell keeps the number of tiles of each
/// color, and changes the sum of squared distances by the difference of the
/// two cells' distances.
pub proof fn lemma_move_tallies(g: Grid, s: Size, p: Pos, n: Pos)
    requires
        shaped(g, s.columns as int, s.rows as int),
        on_board(s, p),
        on_board(s, n),
        p != n,
        g[p.x as int][p.y as int] is Some,
        g[n.x as int][n.y as int] is None,
    ensures
        shaped(after_move(g, p, n), s.columns as int, s.rows as int),
        occupied_count(after_move(g, p, n)) == occupied_count(g),
        forall|c: Color| #[trigger] color_count(after_move(g, p, n), c) == color_count(g, c),
        potential(after_move(g, p, n), s) + dist2_at(s, p) == potential(g, s) + dist2_at(s, n),
{
    let (px, py, nx, ny) = (p.x as int, p.y as int, n.x as int, n.y as int);
    let v = g[px][py];
    let h = put(g, nx, ny, v);
    assert(h[px][py] == v) by {
        if px == nx {
            assert(py != ny);
        }
    }
    lemma_total_put(g, nx, ny, v, tile_weight());
    lemma_total_put(h, px, py, None, tile_weight());
    assert forall|c: Color| #[trigger] color_count(after_move(g, p, n), c) == color_count(g, c) by {
        lemma_total_put(g, nx, ny, v, color_weight(c));
        lemma_total_put(h, px, py, None, color_weight(c));
    }
    lemma_dist2_nonneg(s, px, py);
    lemma_dist2_nonneg(s, nx, ny);
    lemma_total_put(g, nx, ny, v, distance_weight(s));
    lemma_total_put(h, px, py, None, distance_weight(s));
    assert forall|x: int| 0 <= x < s.columns implies (#[trigger] after_move(g, p, n)[x]).len() == s.rows by {
        assert(g[x].len() == s.rows);
    }
}

pub proof fn lemma_dist2_nonneg(s: Size, x: int, y: int)
    ensures
        dist2(s, x, y) >= 0,
{
    let dx = s.columns / 2 - x;
    let dy = s.rows / 2 - y;
    assert(dx * dx >= 0 && dy * dy >= 0) by (nonlinear_arith);
}

} // verus!
