//! The game controller: it owns one game's board, score, cursor and mode,
//! and runs the rules in the order the host's events and timers call for.
//!
//! The host delivers events (a click, a key, a timer that ran out) by
//! calling the methods below; each method answers with the requests the host
//! should carry out, such as redrawing the board or calling back after a
//! delay.

use crate::board_util::{get_tile_size, ripple, Mode, Size};
use crate::fixed::{Action, Arrow, COLORS_MIN};
use crate::grid::{in_bounds, lemma_total_ones, lemma_total_put, put, set_cell, shaped, total, view2, Color, Tiles};
use crate::palette::{get_colors, valid_palette};
use crate::random::choose_color;
use crate::rules::{
    add_score, adjacent, after_move, anchored, any_legal, board_empty, candidate, color_count, dist2_at,
    is_path, is_region, legal_at, lemma_move_tallies, near_color, occupied_count, on_board, outcome,
    potential, power, preference, reachable, score_delta, settled, stuck, tile_at, tile_weight, Grid,
    apply_moves, step_ok, valid_chain,
};
use crate::util::Pos;
use vstd::prelude::*;

verus! {

/// Where the controller stands within the removal of one region.
#[derive(Clone, Copy, Debug, PartialEq, Eq, Structural)]
pub enum Phase {
    /// Waiting for the player.
    Idle,
    /// A region has been chosen and scored and is shown dimmed.
    Dimming,
    /// The region's tiles are gone; the rest have yet to move.
    Removing,
}

/// Something the host should do: deliver `action` back to the engine, or
/// act on it, after `delay_ms` milliseconds (at once when zero).
#[derive(Clone, Copy, Debug, PartialEq, Eq, Structural)]
pub struct Request {
    pub action: Action,
    pub delay_ms: u32,
}

/// The value of a [`Board`].
pub struct BoardView {
    pub grid: Grid,
    pub size: Size,
    pub mode: Mode,
    pub phase: Phase,
    pub selected: Option<Pos>,
    pub score: u16,
    pub maxcolors: u8,
    pub delay_ms: u16,
    pub adjoining: Seq<Pos>,
    pub colors: Seq<Color>,
}

/// One game: the board, the score, the keyboard cursor and the mode.
pub struct Board {
    mode: Mode,
    phase: Phase,
    selected: Option<Pos>,
    tiles: Tiles,
    size: Size,
    colors: Vec<Color>,
    maxcolors: u8,
    delay_ms: u16,
    score: u16,
    adjoining: Vec<Pos>,
}

impl View for Board {
    type V = BoardView;

    closed spec fn view(&self) -> BoardView {
        BoardView {
            grid: view2(self.tiles@),
            size: self.size,
            mode: self.mode,
            phase: self.phase,
            selected: self.selected,
            score: self.score,
            maxcolors: self.maxcolors,
            delay_ms: self.delay_ms,
            adjoining: self.adjoining@,
            colors: self.colors@,
        }
    }
}

/// The board of `v` holds a tile at every cell.
pub open spec fn full(v: BoardView) -> bool {
    forall|p: Pos| on_board(v.size, p) ==> #[trigger] tile_at(v.grid, v.size, p) is Some
}

/// Every tile of `v` has a color of its palette.
pub open spec fn drawn_from_palette(v: BoardView) -> bool {
    forall|p: Pos| #[trigger] tile_at(v.grid, v.size, p) matches Some(c) ==> v.colors.contains(c)
}

/// `v` with nothing changed but its mode, phase, score, cursor and region.
pub open spec fn same_board(a: BoardView, b: BoardView) -> bool {
    &&& a.grid == b.grid
    &&& a.size == b.size
    &&& a.maxcolors == b.maxcolors
    &&& a.delay_ms == b.delay_ms
    &&& a.colors == b.colors
}

/// What selecting `pos` does to a board `a` that is ready for it, giving
/// `b` and the requests `r`: when a game is in play, the controller is idle
/// and the selection is legal, the region of `pos` is found, scored and shown
/// dimmed, and removal is asked for after the delay; otherwise nothing
/// happens.
pub open spec fn selects(a: BoardView, b: BoardView, pos: Pos, r: Seq<Request>) -> bool {
    if a.mode is Playing && a.phase is Idle && legal_at(a.grid, a.size, pos) {
        &&& same_board(a, b)
        &&& is_region(a.grid, a.size, tile_at(a.grid, a.size, pos)->0, pos, b.adjoining)
        &&& b.score == add_score(a.score as nat, score_delta(b.adjoining.len(), a.maxcolors as nat))
        &&& b.phase == Phase::Dimming
        &&& b.mode == a.mode
        &&& b.selected == a.selected
        &&& r == seq![
            Request { action: Action::Redraw, delay_ms: 0 },
            Request { action: Action::DeleteAdjoining, delay_ms: a.delay_ms as u32 },
        ]
    } else {
        b == a && r.len() == 0
    }
}

/// Selecting a cell that holds no tile changes nothing, scores nothing and
/// asks for nothing, however often it is done.
pub proof fn lemma_empty_selection_inert(
    a: BoardView,
    b: BoardView,
    c: BoardView,
    pos: Pos,
    r1: Seq<Request>,
    r2: Seq<Request>,
)
    requires
        tile_at(a.grid, a.size, pos) is None,
        selects(a, b, pos, r1),
        selects(b, c, pos, r2),
    ensures
        b == a,
        c == a,
        c.score == a.score,
        r1.len() == 0,
        r2.len() == 0,
{
}

/// The cell one step from `p` in the direction of `arrow`.
pub open spec fn step(p: Pos, arrow: Arrow) -> Pos {
    match arrow {
        Arrow::Left => Pos { x: (p.x - 1) as i32, y: p.y },
        Arrow::Right => Pos { x: (p.x + 1) as i32, y: p.y },
        Arrow::Up => Pos { x: p.x, y: (p.y - 1) as i32 },
        Arrow::Down => Pos { x: p.x, y: (p.y + 1) as i32 },
    }
}

/// The requests that end the evaluation of a settled board in mode `m` with
/// score `score`: the end of the game if it is over, then the score, then a
/// redraw.
pub open spec fn evaluation_requests(m: Mode, score: u16) -> Seq<Request> {
    let tail = seq![
        Request { action: Action::UpdatedScore(score), delay_ms: 0 },
        Request { action: Action::Redraw, delay_ms: 0 },
    ];
    if m is Playing {
        tail
    } else {
        seq![Request { action: Action::GameOver, delay_ms: 0 }] + tail
    }
}

impl Board {
    /// The board's invariant: the cells form a `columns` by `rows` array, a
    /// game in play has at least one cell, and the cursor and the region lie
    /// on the board.
    pub open spec fn wf(&self) -> bool {
        let v = self@;
        &&& 0 <= v.size.columns <= 255
        &&& 0 <= v.size.rows <= 255
        &&& shaped(v.grid, v.size.columns as int, v.size.rows as int)
        &&& v.maxcolors >= 3
        &&& v.mode is Playing ==> v.size.columns >= 1 && v.size.rows >= 1
        &&& v.selected matches Some(p) ==> on_board(v.size, p)
        &&& v.adjoining.no_duplicates()
        &&& forall|i: int| 0 <= i < v.adjoining.len() ==> on_board(v.size, #[trigger] v.adjoining[i])
        &&& v.phase is Dimming ==> forall|i: int| 0 <= i < v.adjoining.len() ==> #[trigger] tile_at(v.grid, v.size, v.adjoining[i]) is Some
    }

    proof fn lemma_view(&self)
        ensures
            self@.grid.len() == self.tiles@.len(),
            forall|x: int| 0 <= x < self.tiles@.len() ==> #[trigger] self@.grid[x] == self.tiles@[x]@,
            self@.size == self.size,
            self@.adjoining == self.adjoining@,
            self@.colors == self.colors@,
            self@.mode == self.mode,
            self@.phase == self.phase,
            self@.selected == self.selected,
            self@.score == self.score,
            self@.maxcolors == self.maxcolors,
            self@.delay_ms == self.delay_ms,
    {
    }

    /// A board with no cells, waiting for its first game.
    pub fn new() -> (r: Self)
        ensures
            r.wf(),
            r@.mode == Mode::GameOver,
            r@.phase == Phase::Idle,
            r@.size.columns == 0 && r@.size.rows == 0,
            r@.score == 0,
            r@.selected is None,
            r@.adjoining.len() == 0,
    {
        let r = Board {
            mode: Mode::GameOver,
            phase: Phase::Idle,
            selected: None,
            tiles: Vec::new(),
            size: Size::new(0, 0),
            colors: Vec::new(),
            maxcolors: COLORS_MIN,
            delay_ms: 0,
            score: 0,
            adjoining: Vec::new(),
        };
        assert(r@.grid =~= Seq::<Seq<Option<Color>>>::empty());
        r
    }

    /// The cell at `p`, or `None` off the board.
    pub fn cell(&self, p: Pos) -> (r: Option<Color>)
        requires
            self.wf(),
        ensures
            r == tile_at(self@.grid, self@.size, p),
    {
        proof {
            self.lemma_view();
        }
        if 0 <= p.x && p.x < self.size.columns && 0 <= p.y && p.y < self.size.rows {
            let x = p.x as usize;
            let y = p.y as usize;
            proof {
                assert(self.tiles@[x as int]@.len() == self.size.rows);
            }
            self.tiles[x][y]
        } else {
            None
        }
    }

    /// The number of tiles on the board.
    pub fn count_occupied(&self) -> (r: usize)
        requires
            self.wf(),
        ensures
            r == occupied_count(self@.grid),
    {
        proof {
            self.lemma_view();
        }
        let ghost w = tile_weight();
        let columns = self.size.columns as usize;
        let rows = self.size.rows as usize;
        let mut n: usize = 0;
        let mut x: usize = 0;
        proof {
            assert(columns * rows <= 65025) by (nonlinear_arith)
                requires
                    columns <= 255,
                    rows <= 255,
            ;
            assert(self@.grid.subrange(0, 0) =~= Seq::<Seq<Option<Color>>>::empty());
        }
        while x < columns
            invariant
                self.wf(),
                columns == self@.size.columns,
                rows == self@.size.rows,
                w == tile_weight(),
                x <= columns,
                n == total(self@.grid.subrange(0, x as int), w),
                n <= x * rows,
                x * rows <= columns * rows,
                columns * rows <= 65025,
            decreases columns - x,
        {
            let mut y: usize = 0;
            let ghost base = n;
            proof {
                assert(self@.grid[x as int].subrange(0, 0) =~= Seq::<Option<Color>>::empty());
            }
            while y < rows
                invariant
                    self.wf(),
                    columns == self@.size.columns,
                    rows == self@.size.rows,
                    w == tile_weight(),
                    x < columns,
                    y <= rows,
                    base == total(self@.grid.subrange(0, x as int), w),
                    base <= x * rows,
                    x * rows <= columns * rows,
                    columns * rows <= 65025,
                    n == base + crate::grid::column_total(self@.grid[x as int].subrange(0, y as int), x as int, w),
                    n <= base + y,
                decreases rows - y,
            {
                proof {
                    self.lemma_view();
                    let c = self@.grid[x as int];
                    let d = c.subrange(0, y + 1);
                    assert(d.drop_last() =~= c.subrange(0, y as int));
                    assert(d.last() == c[y as int]);
                    assert(crate::grid::column_total(d, x as int, w) == crate::grid::column_total(
                        d.drop_last(),
                        x as int,
                        w,
                    ) + w(x as int, y as int, c[y as int]));
                }
                let t = self.tiles[x][y];
                proof {
                    assert(t == self@.grid[x as int][y as int]);
                    assert(w(x as int, y as int, t) == if t is Some { 1nat } else { 0nat });
                }
                if t.is_some() {
                    n = n + 1;
                }
                y = y + 1;
            }
            proof {
                let g = self@.grid;
                assert(g[x as int].subrange(0, rows as int) =~= g[x as int]);
                assert(g.subrange(0, x + 1).drop_last() =~= g.subrange(0, x as int));
                assert(x * rows + rows == (x + 1) * rows) by (nonlinear_arith);
                assert((x + 1) * rows <= columns * rows) by (nonlinear_arith)
                    requires
                        x < columns,
                ;
                let d = g.subrange(0, x + 1);
                assert(d.last() == g[x as int]);
            }
            x = x + 1;
        }
        proof {
            assert(self@.grid.subrange(0, columns as int) =~= self@.grid);
        }
        n
    }

    /// The four cells that share an edge with `p`: left, right, above, below.
    fn around(p: Pos) -> (r: Vec<Pos>)
        requires
            -1000 <= p.x <= 1000,
            -1000 <= p.y <= 1000,
        ensures
            r@.len() == 4,
            r@.no_duplicates(),
            forall|i: int| 0 <= i < 4 ==> adjacent(p, #[trigger] r@[i]),
            forall|q: Pos| adjacent(p, q) ==> #[trigger] r@.contains(q),
    {
        let r = vec![
            Pos::new(p.x - 1, p.y),
            Pos::new(p.x + 1, p.y),
            Pos::new(p.x, p.y - 1),
            Pos::new(p.x, p.y + 1),
        ];
        proof {
            assert forall|q: Pos| adjacent(p, q) implies #[trigger] r@.contains(q) by {
                if q.x == p.x - 1 {
                    assert(r@[0] == q);
                } else if q.x == p.x + 1 {
                    assert(r@[1] == q);
                } else if q.y == p.y - 1 {
                    assert(r@[2] == q);
                } else {
                    assert(r@[3] == q);
                }
            }
        }
        r
    }

    /// Whether a tile of `color` shares an edge with `pos`. A selection of a
    /// tile of `color` at `pos` is legal exactly when this holds.
    pub fn is_legal(&self, pos: &Pos, color: Color) -> (r: bool)
        requires
            self.wf(),
            on_board(self@.size, *pos),
        ensures
            r == exists|q: Pos| adjacent(*pos, q) && #[trigger] tile_at(self@.grid, self@.size, q) == Some(color),
            tile_at(self@.grid, self@.size, *pos) == Some(color) ==> (r == legal_at(self@.grid, self@.size, *pos)),
    {
        let ns = Board::around(*pos);
        let mut i: usize = 0;
        while i < 4
            invariant
                self.wf(),
                ns@.len() == 4,
                forall|j: int| 0 <= j < 4 ==> adjacent(*pos, #[trigger] ns@[j]),
                forall|q: Pos| adjacent(*pos, q) ==> #[trigger] ns@.contains(q),
                i <= 4,
                forall|j: int| 0 <= j < i ==> tile_at(self@.grid, self@.size, #[trigger] ns@[j]) != Some(color),
            decreases 4 - i,
        {
            if self.cell(ns[i]) == Some(color) {
                return true;
            }
            i = i + 1;
        }
        proof {
            assert forall|q: Pos| adjacent(*pos, q) implies #[trigger] tile_at(self@.grid, self@.size, q) != Some(color) by {
                assert(ns@.contains(q));
            }
        }
        false
    }

    /// Puts in `adjoining` every cell that can be reached from `pos` over
    /// tiles of `color`, each once; none when `pos` does not hold `color`.
    /// Works with an explicit stack, visiting each cell at most once.
    pub fn populate_adjoining(&mut self, pos: Pos, color: Color)
        requires
            old(self).wf(),
            old(self)@.adjoining.len() == 0,
        ensures
            final(self).wf(),
            is_region(old(self)@.grid, old(self)@.size, color, pos, final(self)@.adjoining),
            final(self)@.grid == old(self)@.grid,
            final(self)@.size == old(self)@.size,
            final(self)@.mode == old(self)@.mode,
            final(self)@.phase == old(self)@.phase,
            final(self)@.selected == old(self)@.selected,
            final(self)@.score == old(self)@.score,
            final(self)@.maxcolors == old(self)@.maxcolors,
            final(self)@.delay_ms == old(self)@.delay_ms,
            final(self)@.colors == old(self)@.colors,
    {
        let ghost g = self@.grid;
        let ghost s = self@.size;
        let columns = self.size.columns as usize;
        let rows = self.size.rows as usize;
        let mut visited: Vec<Vec<bool>> = Vec::new();
        let mut x: usize = 0;
        while x < columns
            invariant
                x <= columns,
                columns == s.columns,
                rows == s.rows,
                visited@.len() == x,
                forall|i: int| 0 <= i < x ==> (#[trigger] visited@[i])@.len() == rows,
                forall|i: int, j: int| 0 <= i < x && 0 <= j < rows ==> !visited@[i]@[j],
            decreases columns - x,
        {
            let mut column: Vec<bool> = Vec::new();
            let mut y: usize = 0;
            while y < rows
                invariant
                    y <= rows,
                    column@.len() == y,
                    forall|j: int| 0 <= j < y ==> !column@[j],
                decreases rows - y,
            {
                column.push(false);
                y = y + 1;
            }
            visited.push(column);
            x = x + 1;
        }
        let mut found: Vec<Pos> = Vec::new();
        let mut stack: Vec<Pos> = Vec::new();
        if self.cell(pos) == Some(color) {
            set_cell(&mut visited, pos.x as usize, pos.y as usize, true);
            found.push(pos);
            stack.push(pos);
            proof {
                let single = seq![pos];
                assert(is_path(g, s, color, single));
                assert(single[0] == pos && single.last() == pos);
            }
        }
        proof {
            assert forall|q: Pos| on_board(s, q) implies (view2(visited@)[q.x as int][q.y as int] <==> #[trigger] found@.contains(q)) by {
                if found@.contains(q) {
                    assert(found@[0] == q);
                }
            }
        }
        while stack.len() > 0
            invariant
                self.wf(),
                self@.grid == g,
                self@.size == s,
                columns == s.columns,
                rows == s.rows,
                shaped(view2(visited@), columns as int, rows as int),
                forall|q: Pos| on_board(s, q) ==> (view2(visited@)[q.x as int][q.y as int] <==> #[trigger] found@.contains(q)),
                found@.no_duplicates(),
                forall|q: Pos| #[trigger] found@.contains(q) ==> reachable(g, s, color, pos, q),
                forall|q: Pos| #[trigger] stack@.contains(q) ==> found@.contains(q),
                forall|q: Pos, n: Pos|
                    found@.contains(q) && !stack@.contains(q) && #[trigger] adjacent(q, n) && tile_at(g, s, n) == Some(color)
                        ==> found@.contains(n),
                tile_at(g, s, pos) == Some(color) ==> found@.contains(pos),
                self@.adjoining.len() == 0,
            decreases total(view2(visited@), Board::unvisited()), stack@.len(),
        {
            let ghost full_stack = stack@;
            let p = stack.pop().unwrap();
            let ghost stack_rest = stack@;
            let ghost before = total(view2(visited@), Board::unvisited());
            proof {
                assert(full_stack[full_stack.len() - 1] == p);
                assert(full_stack.contains(p));
                assert(full_stack =~= stack_rest.push(p));
                assert forall|q: Pos| #[trigger] full_stack.contains(q) && q != p implies stack_rest.contains(q) by {
                    let j = choose|j: int| 0 <= j < full_stack.len() && full_stack[j] == q;
                    assert(j < stack_rest.len());
                    assert(stack_rest[j] == q);
                }
                assert forall|q: Pos| #[trigger] stack_rest.contains(q) implies full_stack.contains(q) by {
                    let j = choose|j: int| 0 <= j < stack_rest.len() && stack_rest[j] == q;
                    assert(full_stack[j] == q);
                }
                Board::lemma_found_on_board(g, s, color, pos, p);
            }
            let ns = Board::around(p);
            let mut i: usize = 0;
            while i < 4
                invariant
                    self.wf(),
                    self@.grid == g,
                    self@.size == s,
                    columns == s.columns,
                    rows == s.rows,
                    ns@.len() == 4,
                    forall|j: int| 0 <= j < 4 ==> adjacent(p, #[trigger] ns@[j]),
                    forall|q: Pos| adjacent(p, q) ==> #[trigger] ns@.contains(q),
                    i <= 4,
                    found@.contains(p),
                    shaped(view2(visited@), columns as int, rows as int),
                    forall|q: Pos| on_board(s, q) ==> (view2(visited@)[q.x as int][q.y as int] <==> #[trigger] found@.contains(q)),
                    found@.no_duplicates(),
                    forall|q: Pos| #[trigger] found@.contains(q) ==> reachable(g, s, color, pos, q),
                    forall|q: Pos| #[trigger] stack@.contains(q) ==> found@.contains(q),
                    stack@.len() >= stack_rest.len(),
                    stack@.subrange(0, stack_rest.len() as int) == stack_rest,
                    forall|q: Pos, n: Pos|
                        found@.contains(q) && !stack@.contains(q) && q != p && #[trigger] adjacent(q, n) && tile_at(g, s, n) == Some(color)
                            ==> found@.contains(n),
                    forall|j: int| 0 <= j < i && tile_at(g, s, #[trigger] ns@[j]) == Some(color) ==> found@.contains(ns@[j]),
                    tile_at(g, s, pos) == Some(color) ==> found@.contains(pos),
                    total(view2(visited@), Board::unvisited()) + (stack@.len() - stack_rest.len()) == before,
                    self@.adjoining.len() == 0,
                decreases 4 - i,
            {
                let n = ns[i];
                if self.cell(n) == Some(color) {
                    let nx = n.x as usize;
                    let ny = n.y as usize;
                    proof {
                        assert(view2(visited@)[nx as int] == visited@[nx as int]@);
                    }
                    if !visited[nx][ny] {
                        proof {
                            assert(view2(visited@)[nx as int][ny as int] == visited@[nx as int]@[ny as int]);
                            let path = choose|path: Seq<Pos>| is_path(g, s, color, path) && path[0] == pos && path.last() == p;
                            let longer = path.push(n);
                            assert(longer[longer.len() - 2] == p);
                            assert(is_path(g, s, color, longer));
                            assert(longer[0] == pos && longer.last() == n);
                            lemma_total_put(view2(visited@), nx as int, ny as int, true, Board::unvisited());
                            assert(on_board(s, n));
                            assert(!found@.contains(n));
                        }
                        let ghost old_found = found@;
                        let ghost old_stack = stack@;
                        set_cell(&mut visited, nx, ny, true);
                        found.push(n);
                        stack.push(n);
                        proof {
                            assert(found@ == old_found.push(n));
                            assert forall|q: Pos| q != n implies (#[trigger] found@.contains(q) <==> old_found.contains(q)) by {
                                if old_found.contains(q) {
                                    let k = choose|k: int| 0 <= k < old_found.len() && old_found[k] == q;
                                    assert(found@[k] == q);
                                }
                                if found@.contains(q) {
                                    let k = choose|k: int| 0 <= k < found@.len() && found@[k] == q;
                                    assert(k < old_found.len());
                                    assert(old_found[k] == q);
                                }
                            }
                            assert(found@.no_duplicates()) by {
                                assert forall|a: int, b: int| 0 <= a < found@.len() && 0 <= b < found@.len() && a != b implies found@[a] != found@[b] by {
                                    if a < old_found.len() && b < old_found.len() {
                                        assert(old_found[a] != old_found[b]);
                                    } else if a < old_found.len() {
                                        assert(old_found.contains(old_found[a]));
                                    } else if b < old_found.len() {
                                        assert(old_found.contains(old_found[b]));
                                    }
                                }
                            }
                            assert forall|q: Pos| #[trigger] found@.contains(q) implies reachable(g, s, color, pos, q) by {
                                if q != n {
                                    assert(old_found.contains(q));
                                }
                            }
                            assert(stack@ == old_stack.push(n));
                            assert forall|q: Pos| #[trigger] stack@.contains(q) implies found@.contains(q) by {
                                assert(found@.last() == n);
                                assert(found@[found@.len() - 1] == n);
                                if q != n {
                                    let j = choose|j: int| 0 <= j < stack@.len() && stack@[j] == q;
                                    assert(old_stack[j] == q);
                                    assert(old_stack.contains(q));
                                    assert(old_found.contains(q));
                                    let k = choose|k: int| 0 <= k < old_found.len() && old_found[k] == q;
                                    assert(found@[k] == q);
                                }
                            }
                            assert forall|q: Pos| on_board(s, q) implies (view2(visited@)[q.x as int][q.y as int] <==> #[trigger] found@.contains(q)) by {
                                if q != n {
                                    assert(found@.contains(q) <==> old_found.contains(q));
                                } else {
                                    assert(found@.last() == n);
                                }
                            }
                            assert(stack@.subrange(0, stack_rest.len() as int) =~= old_stack.subrange(0, stack_rest.len() as int));
                            assert forall|q: Pos| #[trigger] old_stack.contains(q) implies stack@.contains(q) by {
                                let j = choose|j: int| 0 <= j < old_stack.len() && old_stack[j] == q;
                                assert(stack@[j] == q);
                            }
                            assert(stack@[stack@.len() - 1] == n);
                            assert(found@.last() == n);
                            assert(found@.contains(p));
                        }
                    }
                }
                i = i + 1;
            }
            proof {
                assert forall|q: Pos| #[trigger] stack@.contains(q) implies found@.contains(q) by {}
                assert forall|q: Pos, n: Pos|
                    found@.contains(q) && !stack@.contains(q) && #[trigger] adjacent(q, n) && tile_at(g, s, n) == Some(color)
                        implies found@.contains(n) by {
                    if q == p {
                        assert(ns@.contains(n));
                        let j = choose|j: int| 0 <= j < 4 && ns@[j] == n;
                        assert(tile_at(g, s, ns@[j]) == Some(color));
                    }
                }
            }
        }
        proof {
            assert forall|q: Pos| reachable(g, s, color, pos, q) implies #[trigger] found@.contains(q) by {
                let path = choose|path: Seq<Pos>| is_path(g, s, color, path) && path[0] == pos && path.last() == q;
                Board::lemma_path_found(g, s, color, path, found@, path.len() - 1);
            }
        }
        self.adjoining = found;
        proof {
            assert forall|i: int| 0 <= i < self@.adjoining.len() implies on_board(self@.size, #[trigger] self@.adjoining[i])
                && tile_at(self@.grid, self@.size, self@.adjoining[i]) is Some by {
                let q = self@.adjoining[i];
                assert(found@.contains(q));
                Board::lemma_found_on_board(g, s, color, pos, q);
            }
        }
    }

    /// One for each cell not yet visited.
    spec fn unvisited() -> spec_fn(int, int, bool) -> nat {
        |x: int, y: int, b: bool| if b { 0nat } else { 1nat }
    }

    proof fn lemma_found_on_board(g: Grid, s: Size, c: Color, from: Pos, q: Pos)
        requires
            reachable(g, s, c, from, q),
        ensures
            on_board(s, q),
            tile_at(g, s, q) == Some(c),
    {
        let path = choose|path: Seq<Pos>| is_path(g, s, c, path) && path[0] == from && path.last() == q;
        assert(tile_at(g, s, path[path.len() - 1]) == Some(c));
    }

    proof fn lemma_path_found(g: Grid, s: Size, c: Color, path: Seq<Pos>, found: Seq<Pos>, i: int)
        requires
            is_path(g, s, c, path),
            0 <= i < path.len(),
            found.contains(path[0]),
            forall|q: Pos, n: Pos|
                found.contains(q) && #[trigger] adjacent(q, n) && tile_at(g, s, n) == Some(c) ==> found.contains(n),
        ensures
            found.contains(path[i]),
            i == path.len() - 1 ==> found.contains(path.last()),
        decreases i,
    {
        if i > 0 {
            Board::lemma_path_found(g, s, c, path, found, i - 1);
            assert(adjacent(path[i - 1], path[i]));
            assert(tile_at(g, s, path[i]) == Some(c));
        }
    }

    /// The empty cells of the board that share an edge with `pos`.
    pub fn get_empty_neighbours(&self, pos: Pos) -> (r: Vec<Pos>)
        requires
            self.wf(),
            on_board(self@.size, pos),
        ensures
            forall|n: Pos| #[trigger] r@.contains(n) <==> (adjacent(pos, n) && on_board(self@.size, n) && tile_at(self@.grid, self@.size, n) is None),
            forall|i: int| 0 <= i < r@.len() ==> adjacent(pos, #[trigger] r@[i]) && on_board(self@.size, r@[i]) && tile_at(self@.grid, self@.size, r@[i]) is None,
            r@.no_duplicates(),
            r@.len() <= 4,
    {
        let ns = Board::around(pos);
        let mut r: Vec<Pos> = Vec::new();
        let mut i: usize = 0;
        while i < 4
            invariant
                self.wf(),
                ns@.len() == 4,
                forall|j: int| 0 <= j < 4 ==> adjacent(pos, #[trigger] ns@[j]),
                forall|q: Pos| adjacent(pos, q) ==> #[trigger] ns@.contains(q),
                i <= 4,
                forall|j: int| 0 <= j < r@.len() ==> adjacent(pos, #[trigger] r@[j]) && on_board(self@.size, r@[j]) && tile_at(self@.grid, self@.size, r@[j]) is None,
                forall|j: int| 0 <= j < i && on_board(self@.size, #[trigger] ns@[j]) && tile_at(self@.grid, self@.size, ns@[j]) is None ==> r@.contains(ns@[j]),
                ns@.no_duplicates(),
                r@.no_duplicates(),
                r@.len() <= i,
                forall|j: int| 0 <= j < r@.len() ==> ns@.subrange(0, i as int).contains(#[trigger] r@[j]),
            decreases 4 - i,
        {
            let n = ns[i];
            proof {
                assert(!ns@.subrange(0, i as int).contains(n)) by {
                    if ns@.subrange(0, i as int).contains(n) {
                        let k = choose|k: int| 0 <= k < i && ns@.subrange(0, i as int)[k] == n;
                        assert(ns@[k] == ns@[i as int]);
                    }
                }
                assert forall|x: Pos| ns@.subrange(0, i as int).contains(x) implies #[trigger] ns@.subrange(0, i + 1).contains(x) by {
                    let k = choose|k: int| 0 <= k < i && ns@.subrange(0, i as int)[k] == x;
                    assert(ns@.subrange(0, i + 1)[k] == x);
                }
                assert(ns@.subrange(0, i + 1)[i as int] == n);
            }
            if 0 <= n.x && n.x < self.size.columns && 0 <= n.y && n.y < self.size.rows && self.cell(n).is_none() {
                let ghost before = r@;
                r.push(n);
                proof {
                    assert(r@[r@.len() - 1] == n);
                    assert forall|j: int| 0 <= j < r@.len() implies ns@.subrange(0, i + 1).contains(#[trigger] r@[j]) by {
                        if j < before.len() {
                            assert(before[j] == r@[j]);
                            assert(ns@.subrange(0, i as int).contains(before[j]));
                        }
                    }
                    assert forall|a: int, b: int| 0 <= a < r@.len() && 0 <= b < r@.len() && a != b implies r@[a] != r@[b] by {
                        if a < before.len() && b < before.len() {
                            assert(before[a] != before[b]);
                        } else if a < before.len() {
                            assert(ns@.subrange(0, i as int).contains(before[a]));
                        } else if b < before.len() {
                            assert(ns@.subrange(0, i as int).contains(before[b]));
                        }
                    }
                    assert forall|j: int| 0 <= j < i && on_board(self@.size, #[trigger] ns@[j]) && tile_at(self@.grid, self@.size, ns@[j]) is None implies r@.contains(ns@[j]) by {
                        let k = choose|k: int| 0 <= k < before.len() && before[k] == ns@[j];
                        assert(r@[k] == ns@[j]);
                    }
                }
            }
            i = i + 1;
        }
        proof {
            assert forall|n: Pos| (adjacent(pos, n) && on_board(self@.size, n) && tile_at(self@.grid, self@.size, n) is None) implies #[trigger] r@.contains(n) by {
                assert(ns@.contains(n));
                let j = choose|j: int| 0 <= j < 4 && ns@[j] == n;
            }
        }
        r
    }

    /// Whether a tile other than the one at `from` shares an edge with `pos`:
    /// a tile moving from `from` to `pos` would not be left on its own.
    pub fn is_square(&self, pos: &Pos, from: &Pos) -> (r: bool)
        requires
            self.wf(),
            on_board(self@.size, *pos),
        ensures
            r == anchored(self@.grid, self@.size, *pos, *from),
    {
        let ns = Board::around(*pos);
        let mut i: usize = 0;
        while i < 4
            invariant
                self.wf(),
                ns@.len() == 4,
                forall|j: int| 0 <= j < 4 ==> adjacent(*pos, #[trigger] ns@[j]),
                forall|q: Pos| adjacent(*pos, q) ==> #[trigger] ns@.contains(q),
                i <= 4,
                forall|j: int| 0 <= j < i ==> #[trigger] ns@[j] == *from || tile_at(self@.grid, self@.size, ns@[j]) is None,
            decreases 4 - i,
        {
            let n = ns[i];
            if n != *from && self.cell(n).is_some() {
                return true;
            }
            i = i + 1;
        }
        proof {
            assert forall|q: Pos| adjacent(*pos, q) && q != *from implies #[trigger] tile_at(self@.grid, self@.size, q) is None by {
                assert(ns@.contains(q));
            }
        }
        false
    }

    /// Whether a tile of `color` other than the one at `from` shares an edge
    /// with `pos`.
    pub fn touches_color(&self, pos: &Pos, from: &Pos, color: Color) -> (r: bool)
        requires
            self.wf(),
            on_board(self@.size, *pos),
        ensures
            r == near_color(self@.grid, self@.size, *pos, *from, color),
    {
        let ns = Board::around(*pos);
        let mut i: usize = 0;
        while i < 4
            invariant
                self.wf(),
                ns@.len() == 4,
                forall|j: int| 0 <= j < 4 ==> adjacent(*pos, #[trigger] ns@[j]),
                forall|q: Pos| adjacent(*pos, q) ==> #[trigger] ns@.contains(q),
                i <= 4,
                forall|j: int| 0 <= j < i ==> #[trigger] ns@[j] == *from || tile_at(self@.grid, self@.size, ns@[j]) != Some(color),
            decreases 4 - i,
        {
            let n = ns[i];
            if n != *from && self.cell(n) == Some(color) {
                return true;
            }
            i = i + 1;
        }
        proof {
            assert forall|q: Pos| adjacent(*pos, q) && q != *from implies #[trigger] tile_at(self@.grid, self@.size, q) != Some(color) by {
                assert(ns@.contains(q));
            }
        }
        false
    }

    /// The squared distance from `p` to the middle cell.
    fn distance2(&self, p: Pos) -> (r: i64)
        requires
            self.wf(),
            on_board(self@.size, p),
        ensures
            r == dist2_at(self@.size, p),
            0 <= r <= 130050,
    {
        let dx = (self.size.columns / 2 - p.x) as i64;
        let dy = (self.size.rows / 2 - p.y) as i64;
        proof {
            assert(0 <= dx * dx <= 65025 && 0 <= dy * dy <= 65025) by (nonlinear_arith)
                requires
                    -255 <= dx <= 255,
                    -255 <= dy <= 255,
            ;
        }
        dx * dx + dy * dy
    }

    /// Of `empties`, the cell the tile at `pos` prefers to move to (see
    /// [`preference`]), among those that would not leave it on its own. The
    /// flag says whether that cell is nearer the middle than `pos`; when it is
    /// not, or there is no such cell, the answer is `(false, pos)`.
    pub fn nearest_to_middle(&self, pos: Pos, empties: &Vec<Pos>) -> (r: (bool, Pos))
        requires
            self.wf(),
            on_board(self@.size, pos),
            tile_at(self@.grid, self@.size, pos) is Some,
            forall|i: int| 0 <= i < empties@.len() ==> adjacent(pos, #[trigger] empties@[i]) && on_board(self@.size, empties@[i]) && tile_at(self@.grid, self@.size, empties@[i]) is None,
        ensures
            r.0 <==> exists|i: int| 0 <= i < empties@.len() && candidate(self@.grid, self@.size, pos, #[trigger] empties@[i])
                && dist2_at(self@.size, empties@[i]) < dist2_at(self@.size, pos),
            r.0 ==> candidate(self@.grid, self@.size, pos, r.1) && empties@.contains(r.1)
                && dist2_at(self@.size, r.1) < dist2_at(self@.size, pos)
                && forall|i: int| 0 <= i < empties@.len() && candidate(self@.grid, self@.size, pos, #[trigger] empties@[i])
                    ==> preference(self@.grid, self@.size, pos, r.1) <= preference(self@.grid, self@.size, pos, empties@[i]),
            !r.0 ==> r.1 == pos,
    {
        let ghost g = self@.grid;
        let ghost s = self@.size;
        let color = self.cell(pos).unwrap();
        let old_radius = self.distance2(pos);
        let mut best: Option<(Pos, i64)> = None;
        let mut i: usize = 0;
        while i < empties.len()
            invariant
                self.wf(),
                g == self@.grid,
                s == self@.size,
                tile_at(g, s, pos) == Some(color),
                old_radius == dist2_at(s, pos),
                forall|k: int| 0 <= k < empties@.len() ==> adjacent(pos, #[trigger] empties@[k]) && on_board(s, empties@[k]) && tile_at(g, s, empties@[k]) is None,
                i <= empties@.len(),
                best matches Some(b) ==> candidate(g, s, pos, b.0) && empties@.subrange(0, i as int).contains(b.0)
                    && b.1 == preference(g, s, pos, b.0)
                    && forall|k: int| 0 <= k < i && candidate(g, s, pos, #[trigger] empties@[k]) ==> b.1 <= preference(g, s, pos, empties@[k]),
                best is None ==> forall|k: int| 0 <= k < i ==> !candidate(g, s, pos, #[trigger] empties@[k]),
                best matches Some(b) ==> -1 <= b.1 <= 260100,
            decreases empties@.len() - i,
        {
            let new_pos = empties[i];
            if self.is_square(&new_pos, &pos) {
                let mut radius = 2 * self.distance2(new_pos);
                if self.touches_color(&new_pos, &pos, color) {
                    radius = radius - 1;
                }
                let better = match best {
                    None => true,
                    Some(b) => radius < b.1,
                };
                let ghost prev = best;
                if better {
                    best = Some((new_pos, radius));
                }
                proof {
                    let sub = empties@.subrange(0, i + 1);
                    assert(sub[i as int] == new_pos);
                    if let Some(b) = prev {
                        assert forall|x: Pos| empties@.subrange(0, i as int).contains(x) implies sub.contains(x) by {
                            let k = choose|k: int| 0 <= k < i && empties@.subrange(0, i as int)[k] == x;
                            assert(sub[k] == x);
                        }
                    }
                }
            } else {
                proof {
                    let sub = empties@.subrange(0, i + 1);
                    if let Some(b) = best {
                        let k = choose|k: int| 0 <= k < i && empties@.subrange(0, i as int)[k] == b.0;
                        assert(sub[k] == b.0);
                    }
                }
            }
            i = i + 1;
        }
        proof {
            assert(empties@.subrange(0, empties@.len() as int) =~= empties@);
        }
        match best {
            Some(b) => {
                if self.distance2(b.0) < old_radius {
                    (true, b.0)
                } else {
                    proof {
                        assert forall|k: int| 0 <= k < empties@.len() && candidate(g, s, pos, #[trigger] empties@[k])
                            implies dist2_at(s, empties@[k]) >= dist2_at(s, pos) by {
                            assert(b.1 <= preference(g, s, pos, empties@[k]));
                        }
                    }
                    (false, pos)
                }
            },
            None => (false, pos),
        }
    }

    /// Writes `value` into the cell at `p`. Off the board, and while a region
    /// is shown dimmed, the call does nothing.
    pub fn put_tile(&mut self, p: Pos, value: Option<Color>)
        requires
            old(self).wf(),
        ensures
            final(self).wf(),
            Board::same_but_cells(final(self)@, old(self)@),
            final(self)@.grid == if on_board(old(self)@.size, p) && !(old(self)@.phase is Dimming) {
                put(old(self)@.grid, p.x as int, p.y as int, value)
            } else {
                old(self)@.grid
            },
    {
        if 0 <= p.x && p.x < self.size.columns && 0 <= p.y && p.y < self.size.rows && self.phase != Phase::Dimming {
            self.set_tile(p, value);
        }
    }

    /// Records of the moves made so far, by destination: each tile that
    /// arrived at a cell came from a cell farther from the middle.
    pub open spec fn moves_ok(cf: Seq<Seq<Option<Pos>>>, s: Size) -> bool {
        &&& shaped(cf, s.columns as int, s.rows as int)
        &&& forall|p: Pos| on_board(s, p) ==> match #[trigger] cf[p.x as int][p.y as int] {
            Some(src) => dist2_at(s, p) < dist2_at(s, src),
            None => true,
        }
    }

    /// `a` and `b` differ in their cells at most.
    pub open spec fn same_but_cells(a: BoardView, b: BoardView) -> bool {
        &&& a.size == b.size
        &&& a.mode == b.mode
        &&& a.phase == b.phase
        &&& a.selected == b.selected
        &&& a.score == b.score
        &&& a.maxcolors == b.maxcolors
        &&& a.delay_ms == b.delay_ms
        &&& a.adjoining == b.adjoining
        &&& a.colors == b.colors
    }

    fn set_tile(&mut self, p: Pos, v: Option<Color>)
        requires
            old(self).wf(),
            !(old(self)@.phase is Dimming),
            on_board(old(self)@.size, p),
        ensures
            final(self).wf(),
            final(self)@.grid == put(old(self)@.grid, p.x as int, p.y as int, v),
            Board::same_but_cells(final(self)@, old(self)@),
    {
        proof {
            self.lemma_view();
            assert(self@.grid[p.x as int].len() == self.size.rows);
            assert(self@.grid[p.x as int] == self.tiles@[p.x as int]@);
        }
        set_cell(&mut self.tiles, p.x as usize, p.y as usize, v);
        proof {
            let g = self@.grid;
            assert forall|x: int| 0 <= x < self@.size.columns implies (#[trigger] g[x]).len() == self@.size.rows by {
                assert(old(self)@.grid[x].len() == self@.size.rows);
            }
        }
    }

    /// Moves the tile at `pos` one cell towards the middle if it can: to the
    /// empty cell beside it that it prefers (see [`preference`]) among those
    /// that keep it in touch with another tile, provided that cell is nearer
    /// the middle. A move that would undo one already made, back to the cell
    /// the tile at `pos` came from, is refused. Returns whether it moved.
    pub fn move_if_possible(&mut self, pos: Pos, already_moved: &mut Vec<Vec<Option<Pos>>>) -> (r: bool)
        requires
            old(self).wf(),
            on_board(old(self)@.size, pos),
            tile_at(old(self)@.grid, old(self)@.size, pos) is Some,
            !(old(self)@.phase is Dimming),
            Board::moves_ok(view2(old(already_moved)@), old(self)@.size),
        ensures
            final(self).wf(),
            Board::same_but_cells(final(self)@, old(self)@),
            Board::moves_ok(view2(final(already_moved)@), old(self)@.size),
            r ==> exists|n: Pos| #[trigger] candidate(old(self)@.grid, old(self)@.size, pos, n)
                && dist2_at(old(self)@.size, n) < dist2_at(old(self)@.size, pos)
                && (forall|m: Pos| #[trigger] candidate(old(self)@.grid, old(self)@.size, pos, m)
                    ==> preference(old(self)@.grid, old(self)@.size, pos, n) <= preference(old(self)@.grid, old(self)@.size, pos, m))
                && final(self)@.grid == after_move(old(self)@.grid, pos, n)
                && view2(final(already_moved)@) == put(view2(old(already_moved)@), n.x as int, n.y as int, Some(pos)),
            !r ==> final(self)@.grid == old(self)@.grid && stuck(old(self)@.grid, old(self)@.size, pos)
                && final(already_moved)@ == old(already_moved)@,
    {
        let ghost g = self@.grid;
        let ghost s = self@.size;
        let empties = self.get_empty_neighbours(pos);
        let (do_move, new_pos) = self.nearest_to_middle(pos, &empties);
        proof {
            assert forall|n: Pos| #[trigger] candidate(g, s, pos, n) implies empties@.contains(n) by {}
        }
        if !do_move {
            proof {
                assert forall|n: Pos| #[trigger] candidate(g, s, pos, n) implies dist2_at(s, n) >= dist2_at(s, pos) by {
                    assert(empties@.contains(n));
                    let k = choose|k: int| 0 <= k < empties@.len() && empties@[k] == n;
                    assert(candidate(g, s, pos, empties@[k]));
                }
            }
            return false;
        }
        proof {
            assert(view2(already_moved@)[pos.x as int] == already_moved@[pos.x as int]@);
        }
        if already_moved[pos.x as usize][pos.y as usize] == Some(new_pos) {
            proof {
                assert(view2(already_moved@)[pos.x as int][pos.y as int] == Some(new_pos));
                assert(false);
            }
            return false;
        }
        let tile = self.cell(pos);
        self.set_tile(new_pos, tile);
        proof {
            assert(self@.grid[pos.x as int] == g[pos.x as int] || pos.x == new_pos.x);
        }
        self.set_tile(pos, None);
        proof {
            assert(view2(already_moved@)[new_pos.x as int] == already_moved@[new_pos.x as int]@);
        }
        set_cell(already_moved, new_pos.x as usize, new_pos.y as usize, Some(pos));
        proof {
            let cf = view2(already_moved@);
            assert forall|x: int| 0 <= x < s.columns implies (#[trigger] cf[x]).len() == s.rows by {
                assert(view2(old(already_moved)@)[x].len() == s.rows);
            }
            assert forall|m: Pos| #[trigger] candidate(g, s, pos, m) implies preference(g, s, pos, new_pos) <= preference(g, s, pos, m) by {
                assert(empties@.contains(m));
                let k = choose|k: int| 0 <= k < empties@.len() && empties@[k] == m;
                assert(candidate(g, s, pos, empties@[k]));
            }
            assert(candidate(g, s, pos, new_pos));
        }
        true
    }

    /// Moves tiles towards the middle until none can move: sweeps over the
    /// board from the middle outwards (see [`ripple`]), moving the first tile
    /// of each column that can move, and repeats while any tile moved.
    /// Every move brings a tile strictly nearer the middle, so the sweeps
    /// come to an end.
    pub fn move_tiles(&mut self)
        requires
            old(self).wf(),
            !(old(self)@.phase is Dimming),
        ensures
            final(self).wf(),
            Board::same_but_cells(final(self)@, old(self)@),
            settled(final(self)@.grid, final(self)@.size),
            occupied_count(final(self)@.grid) == occupied_count(old(self)@.grid),
            forall|c: Color| #[trigger] color_count(final(self)@.grid, c) == color_count(old(self)@.grid, c),
            potential(final(self)@.grid, final(self)@.size) <= potential(old(self)@.grid, old(self)@.size),
            exists|moves: Seq<(Pos, Pos)>| #[trigger] valid_chain(old(self)@.grid, old(self)@.size, moves)
                && final(self)@.grid == apply_moves(old(self)@.grid, moves),
    {
        let ghost g0 = self@.grid;
        let ghost mut chain: Seq<(Pos, Pos)> = Seq::empty();
        let ghost v0 = self@;
        let ghost s = self@.size;
        let columns = self.size.columns as usize;
        let rows = self.size.rows as usize;
        let mut already_moved: Vec<Vec<Option<Pos>>> = Vec::new();
        let mut x: usize = 0;
        while x < columns
            invariant
                x <= columns,
                columns == s.columns,
                rows == s.rows,
                already_moved@.len() == x,
                forall|i: int| 0 <= i < x ==> (#[trigger] already_moved@[i])@.len() == rows,
                forall|i: int, j: int| 0 <= i < x && 0 <= j < rows ==> already_moved@[i]@[j] is None,
            decreases columns - x,
        {
            let mut column: Vec<Option<Pos>> = Vec::new();
            let mut y: usize = 0;
            while y < rows
                invariant
                    y <= rows,
                    column@.len() == y,
                    forall|j: int| 0 <= j < y ==> column@[j] is None,
                decreases rows - y,
            {
                column.push(None);
                y = y + 1;
            }
            already_moved.push(column);
            x = x + 1;
        }
        let xs = ripple(columns);
        let ys = ripple(rows);
        let mut moved = true;
        while moved
            invariant
                self.wf(),
                self@.size == s,
                Board::same_but_cells(self@, v0),
                !(self@.phase is Dimming),
                columns == s.columns,
                rows == s.rows,
                xs@.len() == columns,
                ys@.len() == rows,
                forall|i: usize| i < columns ==> #[trigger] xs@.contains(i),
                forall|i: usize| i < rows ==> #[trigger] ys@.contains(i),
                forall|k: int| 0 <= k < columns ==> #[trigger] xs@[k] < columns,
                forall|k: int| 0 <= k < rows ==> #[trigger] ys@[k] < rows,
                Board::moves_ok(view2(already_moved@), s),
                valid_chain(g0, s, chain),
                self@.grid == apply_moves(g0, chain),
                occupied_count(self@.grid) == occupied_count(g0),
                forall|c: Color| #[trigger] color_count(self@.grid, c) == color_count(g0, c),
                potential(self@.grid, s) <= potential(g0, s),
                !moved ==> settled(self@.grid, s),
            decreases potential(self@.grid, s), if moved { 1int } else { 0int },
        {
            let ghost start = self@.grid;
            moved = false;
            let mut i: usize = 0;
            while i < columns
                invariant
                    self.wf(),
                    self@.size == s,
                    Board::same_but_cells(self@, v0),
                    !(self@.phase is Dimming),
                    columns == s.columns,
                    rows == s.rows,
                    xs@.len() == columns,
                    ys@.len() == rows,
                    forall|i: usize| i < rows ==> #[trigger] ys@.contains(i),
                    forall|k: int| 0 <= k < columns ==> #[trigger] xs@[k] < columns,
                    forall|k: int| 0 <= k < rows ==> #[trigger] ys@[k] < rows,
                    Board::moves_ok(view2(already_moved@), s),
                    valid_chain(g0, s, chain),
                    self@.grid == apply_moves(g0, chain),
                valid_chain(g0, s, chain),
                self@.grid == apply_moves(g0, chain),
                    occupied_count(self@.grid) == occupied_count(g0),
                    forall|c: Color| #[trigger] color_count(self@.grid, c) == color_count(g0, c),
                    i <= columns,
                    moved ==> potential(self@.grid, s) < potential(start, s),
                    !moved ==> self@.grid == start,
                    !moved ==> forall|p: Pos| on_board(s, p) && xs@.subrange(0, i as int).contains(p.x as usize)
                        ==> #[trigger] stuck(start, s, p),
                    potential(start, s) <= potential(g0, s),
                decreases columns - i,
            {
                let x = xs[i];
                let mut j: usize = 0;
                let mut done = false;
                while j < rows && !done
                    invariant
                        self.wf(),
                        self@.size == s,
                        Board::same_but_cells(self@, v0),
                        !(self@.phase is Dimming),
                        columns == s.columns,
                        rows == s.rows,
                        ys@.len() == rows,
                        forall|k: int| 0 <= k < rows ==> #[trigger] ys@[k] < rows,
                        x < columns,
                        i < columns,
                        xs@.len() == columns,
                        Board::moves_ok(view2(already_moved@), s),
                        valid_chain(g0, s, chain),
                        self@.grid == apply_moves(g0, chain),
                    valid_chain(g0, s, chain),
                    self@.grid == apply_moves(g0, chain),
                valid_chain(g0, s, chain),
                self@.grid == apply_moves(g0, chain),
                        occupied_count(self@.grid) == occupied_count(g0),
                        forall|c: Color| #[trigger] color_count(self@.grid, c) == color_count(g0, c),
                        j <= rows,
                        done ==> moved,
                        moved ==> potential(self@.grid, s) < potential(start, s),
                        !moved ==> self@.grid == start,
                        !moved ==> forall|p: Pos| on_board(s, p) && xs@.subrange(0, i as int).contains(p.x as usize)
                            ==> #[trigger] stuck(start, s, p),
                        !moved ==> forall|p: Pos| on_board(s, p) && p.x == x && ys@.subrange(0, j as int).contains(p.y as usize)
                            ==> #[trigger] stuck(start, s, p),
                    decreases rows - j,
                {
                    let y = ys[j];
                    let pos = Pos::new(x as i32, y as i32);
                    let ghost before = self@.grid;
                    let ghost was_moved = moved;
                    if self.cell(pos).is_some() {
                        if self.move_if_possible(pos, &mut already_moved) {
                            proof {
                                let n = choose|n: Pos| #[trigger] candidate(before, s, pos, n)
                                    && dist2_at(s, n) < dist2_at(s, pos)
                                    && (forall|m: Pos| #[trigger] candidate(before, s, pos, m)
                                        ==> preference(before, s, pos, n) <= preference(before, s, pos, m))
                                    && self@.grid == after_move(before, pos, n);
                                lemma_move_tallies(before, s, pos, n);
                                let next = chain.push((pos, n));
                                assert(next.drop_last() =~= chain);
                                assert forall|i: int| 0 <= i < next.len() implies step_ok(
                                    apply_moves(g0, next.take(i)),
                                    s,
                                    #[trigger] next[i],
                                ) by {
                                    if i < chain.len() {
                                        assert(next.take(i) =~= chain.take(i));
                                        assert(next[i] == chain[i]);
                                    } else {
                                        assert(next.take(i) =~= chain);
                                    }
                                }
                                chain = next;
                            }
                            moved = true;
                            done = true;
                        }
                    }
                    proof {
                        if !moved {
                            assert forall|p: Pos| on_board(s, p) && p.x == x && ys@.subrange(0, j + 1).contains(p.y as usize)
                                implies #[trigger] stuck(start, s, p) by {
                                let sub = ys@.subrange(0, j + 1);
                                let k = choose|k: int| 0 <= k < sub.len() && sub[k] == p.y as usize;
                                if k < j {
                                    assert(ys@.subrange(0, j as int)[k] == p.y as usize);
                                } else {
                                    assert(p == pos);
                                }
                            }
                        }
                    }
                    j = j + 1;
                }
                proof {
                    if !moved {
                        assert(ys@.subrange(0, rows as int) =~= ys@);
                        assert forall|p: Pos| on_board(s, p) && xs@.subrange(0, i + 1).contains(p.x as usize)
                            implies #[trigger] stuck(start, s, p) by {
                            let sub = xs@.subrange(0, i + 1);
                            let k = choose|k: int| 0 <= k < sub.len() && sub[k] == p.x as usize;
                            if k < i {
                                assert(xs@.subrange(0, i as int)[k] == p.x as usize);
                            } else {
                                assert(ys@.contains(p.y as usize));
                            }
                        }
                    }
                }
                i = i + 1;
            }
            proof {
                if !moved {
                    assert(xs@.subrange(0, columns as int) =~= xs@);
                    assert forall|p: Pos| on_board(s, p) implies #[trigger] stuck(start, s, p) by {
                        assert(xs@.contains(p.x as usize));
                    }
                }
            }
        }
        proof {
            assert(valid_chain(g0, s, chain));
        }
    }

    /// The points for removing a region of `count` tiles when the game has
    /// `maxcolors` colors: `count` to the power `maxcolors - 2`, held at the
    /// largest score there is. No bonus for the board's size is added: the
    /// points depend on the region and the number of colors alone.
    pub fn region_score(count: usize, maxcolors: u8) -> (r: u16)
        requires
            maxcolors >= 2,
        ensures
            r == score_delta(count as nat, maxcolors as nat),
    {
        let e: u8 = maxcolors - 2;
        let mut r: u64 = 1;
        let mut i: u8 = 0;
        while i < e
            invariant
                i <= e,
                e == maxcolors - 2,
                r == if power(count as nat, i as nat) > u16::MAX { u16::MAX as nat } else { power(count as nat, i as nat) },
            decreases e - i,
        {
            let ghost p = power(count as nat, i as nat);
            let n: u64 = if count > 65535 { 65536 } else { count as u64 };
            proof {
                assert(power(count as nat, (i + 1) as nat) == count * p);
                Board::lemma_capped_product(p, count as nat, n as nat);
            }
            r = r * n;
            if r > 65535 {
                r = 65535;
            }
            i = i + 1;
        }
        r as u16
    }

    proof fn lemma_capped_product(p: nat, count: nat, n: nat)
        requires
            n == if count > 65535 { 65536 } else { count },
        ensures
            ({
                let capped = if p > 65535 { 65535 } else { p };
                let q = capped * n;
                (if q > 65535 { 65535 } else { q }) == (if count * p > 65535 { 65535 } else { count * p })
            }),
            (if p > 65535 { 65535 } else { p }) * n <= 65535 * 65536,
    {
        let capped = if p > 65535 { 65535 } else { p };
        assert(capped * n <= 65535 * 65536) by (nonlinear_arith)
            requires
                capped <= 65535,
                n <= 65536,
        ;
        if count == 0 || p == 0 {
            assert(count * p == 0) by (nonlinear_arith)
                requires
                    count == 0 || p == 0,
            ;
            assert(capped * n == 0) by (nonlinear_arith)
                requires
                    n == 0 || capped == 0,
            ;
        } else if p > 65535 {
            assert(count * p > 65535) by (nonlinear_arith)
                requires
                    count >= 1,
                    p > 65535,
            ;
            assert(capped * n >= 65535) by (nonlinear_arith)
                requires
                    capped == 65535,
                    n >= 1,
            ;
        } else if count > 65535 {
            assert(count * p > 65535) by (nonlinear_arith)
                requires
                    count > 65535,
                    p >= 1,
            ;
            assert(capped * n > 65535) by (nonlinear_arith)
                requires
                    capped >= 1,
                    n == 65536,
            ;
        } else {
            assert(capped * n == count * p) by (nonlinear_arith)
                requires
                    capped == p,
                    n == count,
            ;
        }
    }

    /// Adds the points for a region of `count` tiles to the score, holding
    /// it at the largest score there is.
    pub fn update_score(&mut self, count: usize)
        requires
            old(self).wf(),
        ensures
            final(self).wf(),
            final(self)@ == (BoardView {
                score: add_score(old(self)@.score as nat, score_delta(count as nat, old(self)@.maxcolors as nat)) as u16,
                ..old(self)@
            }),
            final(self)@.score >= old(self)@.score,
    {
        let delta = Board::region_score(count, self.maxcolors);
        self.score = self.score.saturating_add(delta);
    }

    /// Finds the region of `pos`, scores it and shows it dimmed, then asks
    /// for its removal after the configured delay.
    fn dim_adjoining(&mut self, pos: &Pos, color: &Color) -> (r: Vec<Request>)
        requires
            old(self).wf(),
            old(self)@.mode is Playing,
            old(self)@.phase is Idle,
            legal_at(old(self)@.grid, old(self)@.size, *pos),
            tile_at(old(self)@.grid, old(self)@.size, *pos) == Some(*color),
        ensures
            final(self).wf(),
            selects(old(self)@, final(self)@, *pos, r@),
    {
        self.adjoining = Vec::new();
        self.populate_adjoining(*pos, *color);
        let count = self.adjoining.len();
        self.update_score(count);
        self.phase = Phase::Dimming;
        proof {
            let v = self@;
            assert forall|i: int| 0 <= i < v.adjoining.len() implies #[trigger] tile_at(v.grid, v.size, v.adjoining[i]) is Some by {
                assert(v.adjoining.contains(v.adjoining[i]));
                Board::lemma_found_on_board(v.grid, v.size, *color, *pos, v.adjoining[i]);
            }
        }
        let r = vec![
            Request { action: Action::Redraw, delay_ms: 0 },
            Request { action: Action::DeleteAdjoining, delay_ms: self.delay_ms as u32 },
        ];
        proof {
            assert(r@ =~= seq![
                Request { action: Action::Redraw, delay_ms: 0 },
                Request { action: Action::DeleteAdjoining, delay_ms: old(self)@.delay_ms as u32 },
            ]);
        }
        r
    }

    /// Selects the cell at `pos`, as a click or the space key does. Nothing
    /// happens unless a game is in play, the controller is idle and the
    /// selection is legal: off the board, on an empty cell, or on a tile with
    /// no neighbour of its color, the call is ignored.
    pub fn delete_tile(&mut self, pos: Pos) -> (r: Vec<Request>)
        requires
            old(self).wf(),
        ensures
            final(self).wf(),
            selects(old(self)@, final(self)@, pos, r@),
            final(self)@.score >= old(self)@.score,
    {
        if self.mode != Mode::Playing || self.phase != Phase::Idle {
            return Vec::new();
        }
        match self.cell(pos) {
            None => Vec::new(),
            Some(color) => {
                if self.is_legal(&pos, color) {
                    self.dim_adjoining(&pos, &color)
                } else {
                    Vec::new()
                }
            },
        }
    }

    /// Removes the dimmed region's tiles and asks for the rest to move after
    /// the configured delay. Only acts while a region is shown dimmed.
    pub fn delete_adjoining(&mut self) -> (r: Vec<Request>)
        requires
            old(self).wf(),
        ensures
            final(self).wf(),
            old(self)@.phase is Dimming ==> {
                &&& forall|p: Pos| #[trigger] tile_at(final(self)@.grid, final(self)@.size, p)
                    == if old(self)@.adjoining.contains(p) { None } else { tile_at(old(self)@.grid, old(self)@.size, p) }
                &&& occupied_count(final(self)@.grid) + old(self)@.adjoining.len() == occupied_count(old(self)@.grid)
                &&& final(self)@.adjoining.len() == 0
                &&& final(self)@.phase == Phase::Removing
                &&& final(self)@.size == old(self)@.size
                &&& final(self)@.mode == old(self)@.mode
                &&& final(self)@.selected == old(self)@.selected
                &&& final(self)@.score == old(self)@.score
                &&& final(self)@.maxcolors == old(self)@.maxcolors
                &&& final(self)@.delay_ms == old(self)@.delay_ms
                &&& final(self)@.colors == old(self)@.colors
                &&& r@ == seq![
                    Request { action: Action::Redraw, delay_ms: 0 },
                    Request { action: Action::CloseUp, delay_ms: old(self)@.delay_ms as u32 },
                ]
            },
            !(old(self)@.phase is Dimming) ==> final(self)@ == old(self)@ && r@.len() == 0,
    {
        if self.phase != Phase::Dimming {
            return Vec::new();
        }
        let ghost v0 = self@;
        self.phase = Phase::Removing;
        let mut i: usize = 0;
        while i < self.adjoining.len()
            invariant
                self.wf(),
                self@.phase is Removing,
                self@.size == v0.size,
                self@.adjoining == v0.adjoining,
                self@.mode == v0.mode,
                self@.selected == v0.selected,
                self@.score == v0.score,
                self@.maxcolors == v0.maxcolors,
                self@.delay_ms == v0.delay_ms,
                self@.colors == v0.colors,
                i <= v0.adjoining.len(),
                forall|p: Pos| #[trigger] tile_at(self@.grid, self@.size, p)
                    == if v0.adjoining.subrange(0, i as int).contains(p) { None } else { tile_at(v0.grid, v0.size, p) },
                occupied_count(self@.grid) + i == occupied_count(v0.grid),
                v0.adjoining.no_duplicates(),
                forall|k: int| 0 <= k < v0.adjoining.len() ==> #[trigger] tile_at(v0.grid, v0.size, v0.adjoining[k]) is Some,
                forall|k: int| 0 <= k < v0.adjoining.len() ==> on_board(v0.size, #[trigger] v0.adjoining[k]),
            decreases v0.adjoining.len() - i,
        {
            proof {
                self.lemma_view();
            }
            let p = self.adjoining[i];
            let ghost before = self@.grid;
            proof {
                assert(v0.adjoining[i as int] == p);
                assert(!v0.adjoining.subrange(0, i as int).contains(p)) by {
                    if v0.adjoining.subrange(0, i as int).contains(p) {
                        let k = choose|k: int| 0 <= k < i && v0.adjoining.subrange(0, i as int)[k] == p;
                        assert(v0.adjoining[k] == v0.adjoining[i as int]);
                    }
                }
                assert(tile_at(v0.grid, v0.size, v0.adjoining[i as int]) is Some);
                assert(tile_at(before, v0.size, p) is Some);
                assert(before[p.x as int][p.y as int] is Some);
                lemma_total_put(before, p.x as int, p.y as int, None, tile_weight());
            }
            self.set_tile(p, None);
            proof {
                let sub = v0.adjoining.subrange(0, i + 1);
                assert forall|q: Pos| #[trigger] tile_at(self@.grid, self@.size, q)
                    == if sub.contains(q) { None } else { tile_at(v0.grid, v0.size, q) } by {
                    if sub.contains(q) && q != p {
                        let k = choose|k: int| 0 <= k < sub.len() && sub[k] == q;
                        assert(v0.adjoining.subrange(0, i as int)[k] == q);
                    }
                    if v0.adjoining.subrange(0, i as int).contains(q) {
                        let k = choose|k: int| 0 <= k < i && v0.adjoining.subrange(0, i as int)[k] == q;
                        assert(sub[k] == q);
                    }
                    if q == p {
                        assert(sub[i as int] == p);
                    }
                    assert(tile_at(self@.grid, self@.size, q) == if q == p { None } else { tile_at(before, v0.size, q) });
                }
            }
            i = i + 1;
        }
        proof {
            assert(v0.adjoining.subrange(0, v0.adjoining.len() as int) =~= v0.adjoining);
        }
        self.adjoining = Vec::new();
        let r = vec![
            Request { action: Action::Redraw, delay_ms: 0 },
            Request { action: Action::CloseUp, delay_ms: self.delay_ms as u32 },
        ];
        proof {
            assert(r@ =~= seq![
                Request { action: Action::Redraw, delay_ms: 0 },
                Request { action: Action::CloseUp, delay_ms: v0.delay_ms as u32 },
            ]);
        }
        r
    }

    /// Whether the board is empty, and whether any selection on it is legal.
    pub fn check_tiles(&self) -> (r: (bool, bool))
        requires
            self.wf(),
        ensures
            r.0 == board_empty(self@.grid, self@.size),
            r.1 == any_legal(self@.grid, self@.size),
    {
        let ghost g = self@.grid;
        let ghost s = self@.size;
        let mut user_won = true;
        let mut can_move = false;
        let mut column: i32 = 0;
        while column < self.size.columns
            invariant
                self.wf(),
                g == self@.grid,
                s == self@.size,
                0 <= column <= s.columns,
                user_won == forall|p: Pos| on_board(s, p) && p.x < column ==> #[trigger] tile_at(g, s, p) is None,
                can_move == exists|p: Pos| on_board(s, p) && p.x < column && #[trigger] legal_at(g, s, p),
            decreases s.columns - column,
        {
            let mut row: i32 = 0;
            while row < self.size.rows
                invariant
                    self.wf(),
                    g == self@.grid,
                    s == self@.size,
                    0 <= column < s.columns,
                    0 <= row <= s.rows,
                    user_won == forall|p: Pos| on_board(s, p) && (p.x < column || (p.x == column && p.y < row))
                        ==> #[trigger] tile_at(g, s, p) is None,
                    can_move == exists|p: Pos| on_board(s, p) && (p.x < column || (p.x == column && p.y < row))
                        && #[trigger] legal_at(g, s, p),
                decreases s.rows - row,
            {
                let pos = Pos::new(column, row);
                let ghost was_won = user_won;
                let ghost could_move = can_move;
                if let Some(color) = self.cell(pos) {
                    user_won = false;
                    if self.is_legal(&pos, color) {
                        can_move = true;
                    }
                }
                proof {
                    assert(user_won == forall|p: Pos| on_board(s, p) && (p.x < column || (p.x == column && p.y < row + 1))
                        ==> #[trigger] tile_at(g, s, p) is None) by {
                        if !was_won && user_won {
                            let p = choose|p: Pos| !(on_board(s, p) && (p.x < column || (p.x == column && p.y < row))
                                ==> #[trigger] tile_at(g, s, p) is None);
                            assert(tile_at(g, s, p) is None);
                        }
                        if tile_at(g, s, pos) is Some {
                            assert(!(on_board(s, pos) && (pos.x < column || (pos.x == column && pos.y < row + 1))
                                ==> tile_at(g, s, pos) is None));
                        }
                    }
                    assert(can_move == exists|p: Pos| on_board(s, p) && (p.x < column || (p.x == column && p.y < row + 1))
                        && #[trigger] legal_at(g, s, p)) by {
                        if can_move && !could_move {
                            assert(legal_at(g, s, pos));
                        }
                        if !can_move {
                            assert forall|p: Pos| on_board(s, p) && (p.x < column || (p.x == column && p.y < row + 1))
                                implies !#[trigger] legal_at(g, s, p) by {
                                if p == pos {
                                } else {
                                    assert(p.x < column || (p.x == column && p.y < row));
                                }
                            }
                        }
                    }
                }
                row = row + 1;
            }
            column = column + 1;
        }
        proof {
            assert(user_won == board_empty(g, s)) by {
                if user_won {
                    assert forall|p: Pos| #[trigger] tile_at(g, s, p) is None by {
                        if on_board(s, p) {
                            assert(p.x < column);
                        }
                    }
                }
            }
            assert(can_move == any_legal(g, s)) by {
                if any_legal(g, s) {
                    let p = choose|p: Pos| #[trigger] legal_at(g, s, p);
                    assert(on_board(s, p));
                    assert(p.x < column);
                }
            }
        }
        (user_won, can_move)
    }

    /// Decides how the game stands once the tiles have settled: won if the
    /// board is empty, lost if no selection is legal, still in play
    /// otherwise. Reports the end of the game, if any, and the score.
    /// `highscore` is the best score so far; a win that beats it is marked.
    pub fn check_game_over(&mut self, highscore: u16) -> (r: Vec<Request>)
        requires
            old(self).wf(),
            !(old(self)@.phase is Dimming),
        ensures
            final(self).wf(),
            final(self)@ == (BoardView { mode: outcome(old(self)@.grid, old(self)@.size, old(self)@.score, highscore), ..old(self)@ }),
            r@ == evaluation_requests(final(self)@.mode, old(self)@.score),
    {
        let score = self.score;
        let (user_won, can_move) = self.check_tiles();
        self.mode = if user_won {
            Mode::UserWon(score > highscore)
        } else if can_move {
            Mode::Playing
        } else {
            Mode::GameOver
        };
        proof {
            if self.mode is Playing {
                assert(!board_empty(self@.grid, self@.size));
                let p = choose|p: Pos| #[trigger] legal_at(self@.grid, self@.size, p);
                assert(on_board(self@.size, p));
            }
        }
        let mut r: Vec<Request> = Vec::new();
        if self.mode != Mode::Playing {
            r.push(Request { action: Action::GameOver, delay_ms: 0 });
        }
        r.push(Request { action: Action::UpdatedScore(score), delay_ms: 0 });
        r.push(Request { action: Action::Redraw, delay_ms: 0 });
        proof {
            assert(r@ =~= evaluation_requests(self@.mode, score));
        }
        r
    }

    /// Moves the remaining tiles towards the middle once a region is gone,
    /// drops the cursor if its cell is now empty, and decides how the game
    /// stands. Only acts after a region's removal.
    pub fn close_up(&mut self, highscore: u16) -> (r: Vec<Request>)
        requires
            old(self).wf(),
        ensures
            final(self).wf(),
            old(self)@.phase is Removing ==> {
                &&& settled(final(self)@.grid, final(self)@.size)
                &&& occupied_count(final(self)@.grid) == occupied_count(old(self)@.grid)
                &&& forall|c: Color| #[trigger] color_count(final(self)@.grid, c) == color_count(old(self)@.grid, c)
                &&& potential(final(self)@.grid, final(self)@.size) <= potential(old(self)@.grid, old(self)@.size)
                &&& exists|moves: Seq<(Pos, Pos)>| #[trigger] valid_chain(old(self)@.grid, old(self)@.size, moves)
                    && final(self)@.grid == apply_moves(old(self)@.grid, moves)
                &&& final(self)@.mode == outcome(final(self)@.grid, final(self)@.size, old(self)@.score, highscore)
                &&& final(self)@.phase == Phase::Idle
                &&& final(self)@.selected == match old(self)@.selected {
                    Some(p) => if tile_at(final(self)@.grid, final(self)@.size, p) is None { None } else { Some(p) },
                    None => None,
                }
                &&& final(self)@.size == old(self)@.size
                &&& final(self)@.score == old(self)@.score
                &&& final(self)@.maxcolors == old(self)@.maxcolors
                &&& final(self)@.delay_ms == old(self)@.delay_ms
                &&& final(self)@.colors == old(self)@.colors
                &&& final(self)@.adjoining == old(self)@.adjoining
                &&& r@ == evaluation_requests(final(self)@.mode, old(self)@.score)
            },
            !(old(self)@.phase is Removing) ==> final(self)@ == old(self)@ && r@.len() == 0,
    {
        if self.phase != Phase::Removing {
            return Vec::new();
        }
        self.move_tiles();
        if let Some(selected) = self.selected {
            if self.cell(selected).is_none() {
                self.selected = None;
            }
        }
        self.phase = Phase::Idle;
        self.check_game_over(highscore)
    }

    /// Moves the keyboard cursor one cell in the direction of `arrow`, onto a
    /// tile only; the first press puts it in the middle of the board. Ignored
    /// unless a game is in play and the controller is idle.
    pub fn on_arrow(&mut self, arrow: Arrow) -> (r: Vec<Request>)
        requires
            old(self).wf(),
        ensures
            final(self).wf(),
            old(self)@.mode is Playing && old(self)@.phase is Idle ==> {
                &&& final(self)@ == (BoardView {
                    selected: match old(self)@.selected {
                        None => Some(Pos { x: (old(self)@.size.columns / 2) as i32, y: (old(self)@.size.rows / 2) as i32 }),
                        Some(p) => if tile_at(old(self)@.grid, old(self)@.size, step(p, arrow)) is Some {
                            Some(step(p, arrow))
                        } else {
                            Some(p)
                        },
                    },
                    ..old(self)@
                })
                &&& r@ == seq![Request { action: Action::Redraw, delay_ms: 0 }]
            },
            !(old(self)@.mode is Playing && old(self)@.phase is Idle) ==> final(self)@ == old(self)@ && r@.len() == 0,
    {
        if self.mode != Mode::Playing || self.phase != Phase::Idle {
            return Vec::new();
        }
        match self.selected {
            None => {
                self.selected = Some(Pos::new(self.size.columns / 2, self.size.rows / 2));
            },
            Some(p) => {
                let q = match arrow {
                    Arrow::Left => Pos::new(p.x - 1, p.y),
                    Arrow::Right => Pos::new(p.x + 1, p.y),
                    Arrow::Up => Pos::new(p.x, p.y - 1),
                    Arrow::Down => Pos::new(p.x, p.y + 1),
                };
                if self.cell(q).is_some() {
                    self.selected = Some(q);
                }
            },
        }
        let r = vec![Request { action: Action::Redraw, delay_ms: 0 }];
        proof {
            assert(r@ =~= seq![Request { action: Action::Redraw, delay_ms: 0 }]);
        }
        r
    }

    /// Selects the cell under the keyboard cursor, if there is one (see
    /// [`Board::delete_tile`]).
    pub fn on_press_tile(&mut self) -> (r: Vec<Request>)
        requires
            old(self).wf(),
        ensures
            final(self).wf(),
            match old(self)@.selected {
                Some(p) => selects(old(self)@, final(self)@, p, r@),
                None => final(self)@ == old(self)@ && r@.len() == 0,
            },
    {
        match self.selected {
            Some(pos) => self.delete_tile(pos),
            None => Vec::new(),
        }
    }

    /// Selects the cell under a click at (`x`, `y`) pixels from the top left
    /// of a board drawn `width` by `height` pixels, clearing the keyboard
    /// cursor. Tiles are `width / columns` by `height / rows` pixels; a click
    /// outside them is ignored. Ignored unless a game is in play and the
    /// controller is idle.
    pub fn on_click_tile(&mut self, x: i32, y: i32, width: i32, height: i32) -> (r: Vec<Request>)
        requires
            old(self).wf(),
            width >= 0,
            height >= 0,
        ensures
            final(self).wf(),
            old(self)@.mode is Playing && old(self)@.phase is Idle ==> {
                let cleared = BoardView { selected: None, ..old(self)@ };
                let tw: int = width / old(self)@.size.columns;
                let th: int = height / old(self)@.size.rows;
                if x >= 0 && y >= 0 && tw > 0 && th > 0 {
                    selects(cleared, final(self)@, Pos { x: (x as int / tw) as i32, y: (y as int / th) as i32 }, r@)
                } else {
                    final(self)@ == cleared && r@.len() == 0
                }
            },
            !(old(self)@.mode is Playing && old(self)@.phase is Idle) ==> final(self)@ == old(self)@ && r@.len() == 0,
    {
        if self.mode != Mode::Playing || self.phase != Phase::Idle {
            return Vec::new();
        }
        let (tile_width, tile_height) = get_tile_size(self.size.columns, self.size.rows, width, height);
        self.selected = None;
        if x < 0 || y < 0 || tile_width <= 0 || tile_height <= 0 {
            return Vec::new();
        }
        self.delete_tile(Pos::new(x / tile_width, y / tile_height))
    }

    /// A board of `size` filled with tiles whose colors are drawn at random
    /// from `colors`.
    fn get_tiles(size: Size, colors: &Vec<Color>) -> (r: Tiles)
        requires
            0 <= size.columns <= 255,
            0 <= size.rows <= 255,
            colors@.len() > 0,
        ensures
            shaped(view2(r@), size.columns as int, size.rows as int),
            forall|x: int, y: int| in_bounds(size.columns as int, size.rows as int, x, y)
                ==> ((#[trigger] view2(r@)[x][y]) matches Some(c) && colors@.contains(c)),
    {
        let columns = size.columns as usize;
        let rows = size.rows as usize;
        let mut tiles: Tiles = Vec::with_capacity(columns);
        let mut x: usize = 0;
        while x < columns
            invariant
                x <= columns,
                columns == size.columns,
                rows == size.rows,
                colors@.len() > 0,
                tiles@.len() == x,
                forall|i: int| 0 <= i < x ==> (#[trigger] tiles@[i])@.len() == rows,
                forall|i: int, j: int| 0 <= i < x && 0 <= j < rows ==> ((#[trigger] tiles@[i]@[j]) matches Some(c) && colors@.contains(c)),
            decreases columns - x,
        {
            let mut column: Vec<Option<Color>> = Vec::with_capacity(rows);
            let mut y: usize = 0;
            while y < rows
                invariant
                    y <= rows,
                    colors@.len() > 0,
                    column@.len() == y,
                    forall|j: int| 0 <= j < y ==> ((#[trigger] column@[j]) matches Some(c) && colors@.contains(c)),
                decreases rows - y,
            {
                let color = choose_color(colors);
                column.push(color);
                y = y + 1;
            }
            tiles.push(column);
            x = x + 1;
        }
        proof {
            let g = view2(tiles@);
            assert forall|i: int| 0 <= i < columns implies (#[trigger] g[i]).len() == rows by {}
            assert forall|i: int, j: int| in_bounds(size.columns as int, size.rows as int, i, j)
                implies ((#[trigger] g[i][j]) matches Some(c) && colors@.contains(c)) by {
                assert(g[i] == tiles@[i]@);
            }
        }
        tiles
    }

    /// Starts a new game on a board of `columns` by `rows` cells, with a
    /// fresh random palette of `maxcolors` colors (19 at most) that are easy
    /// to tell apart (see [`get_colors`]), and every cell holding a tile of a
    /// random palette color. The score, the cursor and the mode start afresh.
    pub fn new_game(&mut self, columns: u8, rows: u8, maxcolors: u8, delay_ms: u16) -> (r: Vec<Request>)
        requires
            columns >= 1,
            rows >= 1,
            maxcolors >= 3,
        ensures
            final(self).wf(),
            final(self)@.mode == Mode::Playing,
            final(self)@.phase == Phase::Idle,
            final(self)@.selected is None,
            final(self)@.score == 0,
            final(self)@.size.columns == columns,
            final(self)@.size.rows == rows,
            final(self)@.maxcolors == maxcolors,
            final(self)@.delay_ms == delay_ms,
            final(self)@.adjoining.len() == 0,
            valid_palette(final(self)@.colors, maxcolors as int),
            full(final(self)@),
            drawn_from_palette(final(self)@),
            occupied_count(final(self)@.grid) == columns * rows,
            r@ == seq![
                Request { action: Action::UpdatedScore(0), delay_ms: 0 },
                Request { action: Action::Redraw, delay_ms: 0 },
            ],
    {
        self.mode = Mode::Playing;
        self.phase = Phase::Idle;
        self.selected = None;
        self.score = 0;
        self.size = Size::new(columns as i32, rows as i32);
        self.maxcolors = maxcolors;
        self.delay_ms = delay_ms;
        self.adjoining = Vec::new();
        self.colors = get_colors(maxcolors);
        self.tiles = Board::get_tiles(self.size, &self.colors);
        proof {
            let v = self@;
            assert forall|p: Pos| on_board(v.size, p) implies #[trigger] tile_at(v.grid, v.size, p) is Some by {
                assert(view2(self.tiles@)[p.x as int][p.y as int] is Some);
            }
            assert forall|p: Pos| #[trigger] tile_at(v.grid, v.size, p) matches Some(c) ==> v.colors.contains(c) by {
                if on_board(v.size, p) {
                    assert(view2(self.tiles@)[p.x as int][p.y as int] is Some);
                }
            }
            lemma_total_ones(v.grid, columns as int, rows as int, tile_weight());
        }
        let r = vec![
            Request { action: Action::UpdatedScore(0), delay_ms: 0 },
            Request { action: Action::Redraw, delay_ms: 0 },
        ];
        proof {
            assert(r@ =~= seq![
                Request { action: Action::UpdatedScore(0), delay_ms: 0 },
                Request { action: Action::Redraw, delay_ms: 0 },
            ]);
        }
        r
    }

    /// A game in play on the given cells, with no palette of its own: for a
    /// host that restores a board, or for laying out a position by hand.
    /// `None` unless the cells form `columns` by `rows` columns of equal
    /// length, with 1 to 255 of each, and `maxcolors` is at least 3.
    pub fn with_tiles(tiles: Tiles, maxcolors: u8, delay_ms: u16) -> (r: Option<Board>)
        ensures
            r is Some <==> (1 <= tiles@.len() <= 255 && 1 <= tiles@[0]@.len() <= 255
                && shaped(view2(tiles@), tiles@.len() as int, tiles@[0]@.len() as int) && maxcolors >= 3),
            r matches Some(b) ==> {
                &&& b.wf()
                &&& b@.grid == view2(tiles@)
                &&& b@.size.columns == tiles@.len()
                &&& b@.size.rows == tiles@[0]@.len()
                &&& b@.mode == Mode::Playing
                &&& b@.phase == Phase::Idle
                &&& b@.selected is None
                &&& b@.score == 0
                &&& b@.maxcolors == maxcolors
                &&& b@.delay_ms == delay_ms
                &&& b@.adjoining.len() == 0
                &&& b@.colors.len() == 0
            },
    {
        if tiles.len() < 1 || tiles.len() > 255 || maxcolors < 3 {
            return None;
        }
        let rows = tiles[0].len();
        if rows < 1 || rows > 255 {
            return None;
        }
        let mut x: usize = 0;
        while x < tiles.len()
            invariant
                1 <= tiles@.len() <= 255,
                rows == tiles@[0]@.len(),
                x <= tiles@.len(),
                forall|i: int| 0 <= i < x ==> (#[trigger] tiles@[i])@.len() == rows,
            decreases tiles@.len() - x,
        {
            if tiles[x].len() != rows {
                proof {
                    assert(view2(tiles@)[x as int].len() != rows);
                }
                return None;
            }
            x = x + 1;
        }
        let columns = tiles.len();
        let b = Board {
            mode: Mode::Playing,
            phase: Phase::Idle,
            selected: None,
            tiles,
            size: Size::new(columns as i32, rows as i32),
            colors: Vec::new(),
            maxcolors,
            delay_ms,
            score: 0,
            adjoining: Vec::new(),
        };
        proof {
            let g = b@.grid;
            assert forall|i: int| 0 <= i < columns implies (#[trigger] g[i]).len() == rows by {
                assert(g[i] == b.tiles@[i]@);
            }
        }
        Some(b)
    }

    pub fn mode(&self) -> (r: Mode)
        ensures
            r == self@.mode,
    {
        self.mode
    }

    pub fn phase(&self) -> (r: Phase)
        ensures
            r == self@.phase,
    {
        self.phase
    }

    pub fn score(&self) -> (r: u16)
        ensures
            r == self@.score,
    {
        self.score
    }

    pub fn size(&self) -> (r: Size)
        ensures
            r == self@.size,
    {
        self.size
    }

    pub fn selected(&self) -> (r: Option<Pos>)
        ensures
            r == self@.selected,
    {
        self.selected
    }

    pub fn maxcolors(&self) -> (r: u8)
        ensures
            r == self@.maxcolors,
    {
        self.maxcolors
    }

    pub fn delay_ms(&self) -> (r: u16)
        ensures
            r == self@.delay_ms,
    {
        self.delay_ms
    }

    /// The game's palette.
    pub fn colors(&self) -> (r: Vec<Color>)
        ensures
            r@ == self@.colors,
    {
        let mut r: Vec<Color> = Vec::new();
        let mut i: usize = 0;
        while i < self.colors.len()
            invariant
                i <= self.colors@.len(),
                r@ == self.colors@.subrange(0, i as int),
            decreases self.colors@.len() - i,
        {
            r.push(self.colors[i]);
            i = i + 1;
            proof {
                assert(r@ =~= self.colors@.subrange(0, i as int));
            }
        }
        proof {
            assert(self.colors@.subrange(0, self.colors@.len() as int) =~= self.colors@);
        }
        r
    }

    /// The cells of the region chosen by the last selection.
    pub fn adjoining(&self) -> (r: Vec<Pos>)
        ensures
            r@ == self@.adjoining,
    {
        let mut r: Vec<Pos> = Vec::new();
        let mut i: usize = 0;
        while i < self.adjoining.len()
            invariant
                i <= self.adjoining@.len(),
                r@ == self.adjoining@.subrange(0, i as int),
            decreases self.adjoining@.len() - i,
        {
            r.push(self.adjoining[i]);
            i = i + 1;
            proof {
                assert(r@ =~= self.adjoining@.subrange(0, i as int));
            }
        }
        proof {
            assert(self.adjoining@.subrange(0, self.adjoining@.len() as int) =~= self.adjoining@);
        }
        r
    }

    /// Whether the tile at `p` is drawn darker: the tiles of the region about
    /// to be removed, and every tile once the game is lost.
    pub fn is_dimmed(&self, p: Pos) -> (r: bool)
        requires
            self.wf(),
        ensures
            r == (tile_at(self@.grid, self@.size, p) is Some && (self@.mode == Mode::GameOver
                || (self@.phase == Phase::Dimming && self@.adjoining.contains(p)))),
    {
        if self.cell(p).is_none() {
            return false;
        }
        if self.mode == Mode::GameOver {
            return true;
        }
        if self.phase != Phase::Dimming {
            return false;
        }
        let mut i: usize = 0;
        while i < self.adjoining.len()
            invariant
                i <= self.adjoining@.len(),
                tile_at(self@.grid, self@.size, p) is Some,
                self@.phase == Phase::Dimming,
                forall|k: int| 0 <= k < i ==> self.adjoining@[k] != p,
            decreases self.adjoining@.len() - i,
        {
            if self.adjoining[i] == p {
                proof {
                    assert(self@.adjoining[i as int] == p);
                }
                return true;
            }
            i = i + 1;
        }
        false
    }
}

} // verus!
