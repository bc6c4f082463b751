//! The board's cells as a column-major array, and the arithmetic over it
//! that the rules rely on: tallies of cells and their update by one write.

use vstd::prelude::*;

verus! {

/// A tile's color, as a 24-bit RGB value.
pub type Color = u32;

/// The cells, column by column: `tiles[x][y]` is the cell at column `x`,
/// row `y`; `None` is an empty cell.
pub type Tiles = Vec<Vec<Option<Color>>>;

/// The mathematical value of a two-dimensional array.
pub open spec fn view2<T>(t: Seq<Vec<T>>) -> Seq<Seq<T>> {
    Seq::new(t.len(), |i: int| t[i]@)
}

/// `g` has `cols` columns of `rows` cells each.
pub open spec fn shaped<T>(g: Seq<Seq<T>>, cols: int, rows: int) -> bool {
    &&& g.len() == cols
    &&& forall|x: int| 0 <= x < cols ==> (#[trigger] g[x]).len() == rows
}

pub open spec fn in_bounds(cols: int, rows: int, x: int, y: int) -> bool {
    0 <= x < cols && 0 <= y < rows
}

/// `g` with the cell at (`x`, `y`) replaced by `v`.
pub open spec fn put<T>(g: Seq<Seq<T>>, x: int, y: int, v: T) -> Seq<Seq<T>> {
    g.update(x, g[x].update(y, v))
}

/// The sum of `w` over the cells of one column, the column being `x`.
pub open spec fn column_total<T>(c: Seq<T>, x: int, w: spec_fn(int, int, T) -> nat) -> nat
    decreases c.len(),
{
    if c.len() == 0 {
        0
    } else {
        column_total(c.drop_last(), x, w) + w(x, c.len() - 1, c.last())
    }
}

/// The sum of `w(x, y, cell)` over every cell of `g`.
pub open spec fn total<T>(g: Seq<Seq<T>>, w: spec_fn(int, int, T) -> nat) -> nat
    decreases g.len(),
{
    if g.len() == 0 {
        0
    } else {
        total(g.drop_last(), w) + column_total(g.last(), g.len() - 1, w)
    }
}

proof fn lemma_column_total_put<T>(c: Seq<T>, x: int, y: int, v: T, w: spec_fn(int, int, T) -> nat)
    requires
        0 <= y < c.len(),
    ensures
        column_total(c.update(y, v), x, w) + w(x, y, c[y]) == column_total(c, x, w) + w(x, y, v),
    decreases c.len(),
{
    let d = c.update(y, v);
    if y < c.len() - 1 {
        lemma_column_total_put(c.drop_last(), x, y, v, w);
        assert(d.drop_last() =~= c.drop_last().update(y, v));
    } else {
        assert(d.drop_last() =~= c.drop_last());
    }
}

/// Writing one cell changes the total by the difference of that cell's
/// weights.
pub proof fn lemma_total_put<T>(g: Seq<Seq<T>>, x: int, y: int, v: T, w: spec_fn(int, int, T) -> nat)
    requires
        0 <= x < g.len(),
        0 <= y < g[x].len(),
    ensures
        total(put(g, x, y, v), w) + w(x, y, g[x][y]) == total(g, w) + w(x, y, v),
    decreases g.len(),
{
    let h = put(g, x, y, v);
    if x < g.len() - 1 {
        lemma_total_put(g.drop_last(), x, y, v, w);
        assert(h.drop_last() =~= put(g.drop_last(), x, y, v));
    } else {
        assert(h.drop_last() =~= g.drop_last());
        lemma_column_total_put(g[x], x, y, v, w);
    }
}

proof fn lemma_column_total_ones<T>(c: Seq<T>, x: int, w: spec_fn(int, int, T) -> nat)
    requires
        forall|y: int| 0 <= y < c.len() ==> w(x, y, c[y]) == 1,
    ensures
        column_total(c, x, w) == c.len(),
    decreases c.len(),
{
    if c.len() > 0 {
        lemma_column_total_ones(c.drop_last(), x, w);
    }
}

/// Where every cell weighs one, the total is the number of cells.
pub proof fn lemma_total_ones<T>(g: Seq<Seq<T>>, cols: int, rows: int, w: spec_fn(int, int, T) -> nat)
    requires
        shaped(g, cols, rows),
        rows >= 0,
        forall|x: int, y: int| in_bounds(cols, rows, x, y) ==> w(x, y, g[x][y]) == 1,
    ensures
        total(g, w) == cols * rows,
    decreases g.len(),
{
    if g.len() > 0 {
        let x = cols - 1;
        let h = g.drop_last();
        assert(shaped(h, cols - 1, rows));
        assert forall|i: int, j: int| in_bounds(cols - 1, rows, i, j) implies w(i, j, h[i][j]) == 1 by {
            assert(in_bounds(cols, rows, i, j));
            assert(h[i] == g[i]);
        }
        lemma_total_ones(h, cols - 1, rows, w);
        assert(g.last() == g[x]);
        assert forall|j: int| 0 <= j < g.last().len() implies w(x, j, g.last()[j]) == 1 by {
            assert(in_bounds(cols, rows, x, j));
        }
        lemma_column_total_ones(g.last(), x, w);
        assert(g[x].len() == rows);
        assert(total(g, w) == total(h, w) + column_total(g.last(), x, w));
        assert((cols - 1) * rows + rows == cols * rows) by (nonlinear_arith);
    } else {
        assert(cols * rows == 0) by (nonlinear_arith)
            requires
                cols == 0,
        ;
    }
}

/// Sets one cell of a two-dimensional array.
pub fn set_cell<T>(t: &mut Vec<Vec<T>>, x: usize, y: usize, v: T)
    requires
        x < old(t)@.len(),
        y < old(t)@[x as int]@.len(),
    ensures
        view2(final(t)@) == put(view2(old(t)@), x as int, y as int, v),
{
    t[x].set(y, v);
    assert(view2(t@) =~= put(view2(old(t)@), x as int, y as int, v));
}

} // verus!
