//! Edits of a grid of cell rows, stated over the rows' contents.

use vstd::prelude::*;

use crate::terminal::cells::{cell_display_width, Cell};
use crate::terminal::screen::{
    deleted_chars, display_col_from, fill_span, glyph_cell, glyph_cont, glyph_row, inserted_chars, min_int, next_tab,
    normalized_x, target_col_from,
    trailer_cleared,
};
use crate::terminal::layout::{blank_row, make_blank_row, row_views};

verus! {

/// A grid of `rows` rows of `cols` cells each.
#[verifier::opaque]
pub open spec fn grid_ok(cells: Seq<Seq<Cell>>, rows: int, cols: int) -> bool {
    &&& cells.len() == rows
    &&& forall|r: int| 0 <= r < rows ==> (#[trigger] cells[r]).len() == cols
}

/// Moving one row within a grid, or replacing one, keeps its shape.
pub proof fn lemma_grid_remove_insert(g: Seq<Seq<Cell>>, rows: int, cols: int, i: int, j: int, row: Seq<Cell>)
    requires
        grid_ok(g, rows, cols),
        0 <= i < rows,
        0 <= j < rows,
        row.len() == cols,
    ensures
        grid_ok(g.remove(i).insert(j, row), rows, cols),
{
    reveal(grid_ok);
    let g1 = g.remove(i);
    let g2 = g1.insert(j, row);
    assert forall|r: int| 0 <= r < rows implies (#[trigger] g2[r]).len() == cols by {
        if r < j {
            assert(g2[r] == g1[r]);
            if r < i {
                assert(g1[r] == g[r]);
            } else {
                assert(g1[r] == g[r + 1]);
            }
        } else if r > j {
            assert(g2[r] == g1[r - 1]);
            if r - 1 < i {
                assert(g1[r - 1] == g[r - 1]);
            } else {
                assert(g1[r - 1] == g[r]);
            }
        }
    }
}

pub proof fn lemma_grid_update(g: Seq<Seq<Cell>>, rows: int, cols: int, i: int, row: Seq<Cell>)
    requires
        grid_ok(g, rows, cols),
        0 <= i < rows,
        row.len() == cols,
    ensures
        grid_ok(g.update(i, row), rows, cols),
{
    reveal(grid_ok);
}

/// The rows of a grid have `cols` cells each.
pub proof fn lemma_grid_row(g: Seq<Seq<Cell>>, rows: int, cols: int, i: int)
    requires
        grid_ok(g, rows, cols),
        0 <= i < rows,
    ensures
        g[i].len() == cols,
        g.len() == rows,
{
    reveal(grid_ok);
}

/// A grid all of whose rows are `cols` wide.
pub proof fn lemma_grid_intro(g: Seq<Seq<Cell>>, cols: int)
    requires
        forall|r: int| 0 <= r < g.len() ==> (#[trigger] g[r]).len() == cols,
    ensures
        grid_ok(g, g.len() as int, cols),
{
    reveal(grid_ok);
}

/// Take row `i` out of the grid and put `row` in at position `j` (of the
/// shortened grid); gives back the row taken out.
pub fn remove_insert_row(cells: &mut Vec<Vec<Cell>>, i: usize, j: usize, row: Vec<Cell>) -> (removed: Vec<Cell>)
    requires
        i < old(cells)@.len(),
        j < old(cells)@.len(),
    ensures
        removed@ == old(cells)@[i as int]@,
        row_views(final(cells)@) == row_views(old(cells)@).remove(i as int).insert(j as int, row@),
{
    let ghost o = cells@;
    let removed = cells.remove(i);
    let ghost mid = cells@;
    cells.insert(j, row);
    proof {
        assert(row_views(mid) =~= row_views(o).remove(i as int));
        assert(row_views(cells@) =~= row_views(mid).insert(j as int, row@));
    }
    removed
}

/// Take flag `i` out and put `f` in at position `j` (of the shortened list).
pub fn remove_insert_flag(flags: &mut Vec<bool>, i: usize, j: usize, f: bool) -> (removed: bool)
    requires
        i < old(flags)@.len(),
        j < old(flags)@.len(),
    ensures
        removed == old(flags)@[i as int],
        final(flags)@ == old(flags)@.remove(i as int).insert(j as int, f),
{
    let removed = flags.remove(i);
    flags.insert(j, f);
    removed
}

/// Overwrite one cell of the grid.
pub fn set_cell(cells: &mut Vec<Vec<Cell>>, r: usize, c: usize, cell: Cell)
    requires
        r < old(cells)@.len(),
        c < old(cells)@[r as int]@.len(),
    ensures
        row_views(final(cells)@) == row_views(old(cells)@).update(r as int, old(cells)@[r as int]@.update(c as int, cell)),
{
    cells[r][c] = cell;
    proof {
        assert(row_views(cells@) =~= row_views(old(cells)@).update(r as int, old(cells)@[r as int]@.update(c as int, cell)));
    }
}

/// Fill columns `x_start..x_end` (those inside the row's `cols` cells) of row `y` with `blank`.
pub fn fill_cells(cells: &mut Vec<Vec<Cell>>, y: usize, x_start: usize, x_end: usize, blank: Cell)
    requires
        y < old(cells)@.len(),
    ensures
        row_views(final(cells)@) == row_views(old(cells)@).update(
            y as int,
            fill_span(old(cells)@[y as int]@, x_start as int, x_end - x_start, old(cells)@[y as int]@.len() as int, blank),
        ),
{
    let ghost row0 = cells@[y as int]@;
    let n = cells[y].len();
    let end = if x_end < n { x_end } else { n };
    let mut i = x_start;
    proof {
        assert(fill_span(row0, x_start as int, 0, n as int, blank) =~= row0);
        assert(row_views(cells@).update(y as int, row0) =~= row_views(cells@));
    }
    while i < end
        invariant
            y < cells@.len(),
            cells@.len() == old(cells)@.len(),
            n == row0.len(),
            end <= n,
            end == (if x_end < n { x_end } else { n }),
            x_start <= i,
            i <= end || i == x_start,
            row_views(cells@) == row_views(old(cells)@).update(
                y as int,
                fill_span(row0, x_start as int, i - x_start, n as int, blank),
            ),
        decreases end - i,
    {
        let ghost before = cells@;
        let ghost cur = fill_span(row0, x_start as int, i - x_start, n as int, blank);
        proof {
            assert(row_views(cells@)[y as int] == cells@[y as int]@);
            assert(row_views(old(cells)@).update(y as int, cur)[y as int] == cur);
            assert(cells@[y as int]@ == cur);
            assert(cur.len() == n);
        }
        set_cell(cells, y, i, blank);
        proof {
            let next = fill_span(row0, x_start as int, i + 1 - x_start, n as int, blank);
            assert(next =~= cur.update(i as int, blank));
            assert(row_views(cells@) =~= row_views(before).update(y as int, cur.update(i as int, blank)));
            assert(row_views(before) == row_views(old(cells)@).update(y as int, cur));
            assert(row_views(cells@) =~= row_views(old(cells)@).update(y as int, next));
        }
        i = i + 1;
    }
    proof {
        assert(fill_span(row0, x_start as int, i - x_start, n as int, blank) =~= fill_span(row0, x_start as int, x_end - x_start, n as int, blank));
    }
}

/// The display column of the cursor at `cursor_x` on a row of `cols` cells.
pub fn display_col_in_row(row: &[Cell], cursor_x: usize, cols: usize) -> (dc: usize)
    requires
        row@.len() == cols,
    ensures
        dc == display_col_from(row@, min_int(cursor_x as int, cols as int), 0, 0),
{
    let limit = if cursor_x < cols { cursor_x } else { cols };
    let mut dc: usize = 0;
    let mut col: usize = 0;
    while col < limit
        invariant
            limit <= cols,
            row@.len() == cols,
            dc <= col,
            col <= limit + 1,
            col <= cols,
            display_col_from(row@, limit as int, col as int, dc as int) == display_col_from(row@, limit as int, 0, 0),
        decreases limit + 1 - col,
    {
        if row[col].wide_continuation {
            col += 1;
            continue;
        }
        let w0 = cell_display_width(row, col);
        let w = if w0 > 1 { w0 } else { 1 };
        dc += w;
        col += w;
    }
    dc
}

/// The column at which display column `target` falls on a row of `cols` cells.
pub fn target_col_in_row(row: &[Cell], cols: usize, target: usize) -> (x: usize)
    requires
        row@.len() == cols,
    ensures
        x == target_col_from(row@, cols as int, target as int, 0, 0),
        x < cols || x == 0,
{
    let mut dc: usize = 0;
    let mut col: usize = 0;
    while col < cols
        invariant
            row@.len() == cols,
            dc <= col,
            col <= cols,
            target_col_from(row@, cols as int, target as int, col as int, dc as int) == target_col_from(row@, cols as int, target as int, 0, 0),
        decreases cols - col,
    {
        if row[col].wide_continuation {
            col += 1;
            continue;
        }
        let w0 = cell_display_width(row, col);
        let w = if w0 > 1 { w0 } else { 1 };
        if dc + w > target {
            return col;
        }
        dc += w;
        col += w;
    }
    if cols > 0 { cols - 1 } else { 0 }
}

/// A column moved off a continuation slot.
pub fn normalized_col(row: &[Cell], x: usize, cols: usize) -> (r: usize)
    requires
        row@.len() == cols,
    ensures
        r == normalized_x(row@, x as int, cols as int),
        x < cols ==> r < cols,
{
    if x < cols && row[x].wide_continuation {
        if x + 1 < cols - 1 { x + 1 } else { cols - 1 }
    } else {
        x
    }
}

/// The next tab stop at or after column `from`, or the last column.
pub fn next_tab_stop(tabs: &Vec<bool>, from: usize, cols: usize) -> (x: usize)
    requires
        tabs@.len() == cols,
    ensures
        x == next_tab(tabs@, from as int, cols as int),
        x < cols || x == 0,
{
    let mut i = from;
    while i < cols
        invariant
            tabs@.len() == cols,
            from <= i,
            next_tab(tabs@, i as int, cols as int) == next_tab(tabs@, from as int, cols as int),
        decreases cols - i,
    {
        if tabs[i] {
            return i;
        }
        i += 1;
    }
    if cols > 0 { cols - 1 } else { 0 }
}

/// `row` with the cells from `x` on moved `w` columns to the right inside the
/// first `cols` columns (the cells pushed past `cols` are lost; the `w` cells
/// at `x` keep their old content).
pub open spec fn shifted_right(row: Seq<Cell>, x: int, w: int, cols: int) -> Seq<Cell> {
    Seq::new(row.len(), |j: int| if x + w <= j < cols { row[j - w] } else { row[j] })
}

/// Insert mode: shift the cells of row `y` from column `x` right by `w`.
pub fn shift_cells_right(cells: &mut Vec<Vec<Cell>>, y: usize, x: usize, w: usize, cols: usize)
    requires
        y < old(cells)@.len(),
        old(cells)@[y as int]@.len() == cols,
        w <= cols,
    ensures
        row_views(final(cells)@) == row_views(old(cells)@).update(
            y as int,
            shifted_right(old(cells)@[y as int]@, x as int, w as int, cols as int),
        ),
{
    let ghost row0 = cells@[y as int]@;
    let lo = x;
    let mut i = cols - w;
    // Cells are moved from the right end down to `x`, so every read sees the old content.
    proof {
        let init = Seq::new(cols as nat, |j: int| if i + w <= j < cols { row0[j - w] } else { row0[j] });
        assert(init =~= row0);
        assert(row_views(cells@) =~= row_views(old(cells)@).update(y as int, init));
    }
    while i > lo
        invariant
            y < cells@.len(),
            cells@.len() == old(cells)@.len(),
            row0.len() == cols,
            w <= cols,
            i <= cols - w,
            lo == x,
            i >= lo || i == cols - w,
            row_views(cells@) == row_views(old(cells)@).update(
                y as int,
                Seq::new(cols as nat, |j: int| if i + w <= j < cols { row0[j - w] } else { row0[j] }),
            ),
        decreases i,
    {
        let ghost cur = Seq::new(cols as nat, |j: int| if i + w <= j < cols { row0[j - w] } else { row0[j] });
        proof {
            assert(row_views(cells@)[y as int] == cells@[y as int]@);
            assert(row_views(old(cells)@).update(y as int, cur)[y as int] == cur);
        }
        let c = cells[y][i - 1];
        let ghost before = cells@;
        set_cell(cells, y, i - 1 + w, c);
        proof {
            let next = Seq::new(cols as nat, |j: int| if i - 1 + w <= j < cols { row0[j - w] } else { row0[j] });
            assert(c == row0[i - 1]);
            assert(next =~= cur.update(i - 1 + w, c));
            assert(row_views(cells@) =~= row_views(old(cells)@).update(y as int, next));
        }
        i = i - 1;
    }
    proof {
        let fin = Seq::new(cols as nat, |j: int| if i + w <= j < cols { row0[j - w] } else { row0[j] });
        assert(fin =~= shifted_right(row0, x as int, w as int, cols as int));
    }
}

/// A bare vector of `n` cleared flags.
pub fn make_flags(n: usize) -> (v: Vec<bool>)
    ensures
        v@ == Seq::new(n as nat, |i: int| false),
{
    let mut v: Vec<bool> = Vec::new();
    let mut i: usize = 0;
    while i < n
        invariant
            i <= n,
            v@ == Seq::new(i as nat, |k: int| false),
        decreases n - i,
    {
        v.push(false);
        assert(v@ =~= Seq::new((i + 1) as nat, |k: int| false));
        i = i + 1;
    }
    v
}

/// A grid of `rows` blank rows, `cols` cells each.
pub fn make_blank_grid(rows: usize, cols: usize) -> (g: Vec<Vec<Cell>>)
    ensures
        row_views(g@) == Seq::new(rows as nat, |r: int| blank_row(cols as nat)),
        grid_ok(row_views(g@), rows as int, cols as int),
{
    let mut g: Vec<Vec<Cell>> = Vec::new();
    let mut r: usize = 0;
    while r < rows
        invariant
            r <= rows,
            row_views(g@) == Seq::new(r as nat, |i: int| blank_row(cols as nat)),
        decreases rows - r,
    {
        let ghost before = g@;
        g.push(make_blank_row(cols));
        assert(row_views(g@) =~= row_views(before).push(blank_row(cols as nat)));
        assert(row_views(g@) =~= Seq::new((r + 1) as nat, |i: int| blank_row(cols as nat)));
        r = r + 1;
    }
    proof {
        lemma_grid_intro(row_views(g@), cols as int);
    }
    g
}

/// Write a glyph into row `y` at column `x` (see `glyph_row`).
pub fn write_glyph(cells: &mut Vec<Vec<Cell>>, y: usize, x: usize, w: usize, cols: usize, insert: bool, attrs: Cell, c: char)
    requires
        y < old(cells)@.len(),
        old(cells)@[y as int]@.len() == cols,
        1 <= w <= 2,
        x + w <= cols,
    ensures
        row_views(final(cells)@) == row_views(old(cells)@).update(
            y as int,
            glyph_row(old(cells)@[y as int]@, x as int, w as int, cols as int, insert, attrs, c),
        ),
{
    let ghost o = row_views(cells@);
    let ghost row0 = cells@[y as int]@;
    let ghost row1 = if insert { shifted_right(row0, x as int, w as int, cols as int) } else { row0 };
    if insert {
        shift_cells_right(cells, y, x, w, cols);
    } else {
        proof {
            assert(o.update(y as int, row0) =~= o);
        }
    }
    proof {
        assert(row_views(cells@).len() == o.len());
        assert(cells@.len() == o.len());
        assert(row_views(cells@)[y as int] == cells@[y as int]@);
        assert(o.update(y as int, row1)[y as int] == row1);
    }
    let ghost row1b = trailer_cleared(row1, x as int, cols as int);
    if x + 1 < cols && cells[y][x + 1].wide_continuation {
        set_cell(cells, y, x + 1, Cell::default());
    }
    proof {
        assert(row_views(cells@) =~= o.update(y as int, row1b));
        assert(row_views(cells@)[y as int] == cells@[y as int]@);
    }
    set_cell(cells, y, x, Cell { ch: c, wide_continuation: false, ..attrs });
    let ghost row2 = row1b.update(x as int, glyph_cell(attrs, c));
    proof {
        assert(row_views(cells@) =~= o.update(y as int, row2));
        assert(row_views(cells@)[y as int] == cells@[y as int]@);
    }
    if w == 2 {
        set_cell(cells, y, x + 1, Cell { ch: ' ', wide_continuation: true, ..attrs });
    }
    proof {
        let row3 = if w == 2 { row2.update(x + 1, glyph_cont(attrs)) } else { row2 };
        assert(row_views(cells@) =~= o.update(y as int, row3));
    }
}

/// DCH on row `y`: `n` times, the cell at `x` drops out and a blank enters at the end.
pub fn delete_chars_in_row(cells: &mut Vec<Vec<Cell>>, y: usize, x: usize, n: usize)
    requires
        y < old(cells)@.len(),
        x < old(cells)@[y as int]@.len(),
    ensures
        row_views(final(cells)@) == row_views(old(cells)@).update(y as int, deleted_chars(old(cells)@[y as int]@, x as int, n as nat)),
{
    let ghost o = row_views(cells@);
    let ghost row0 = cells@[y as int]@;
    let mut row: Vec<Cell> = Vec::new();
    std::mem::swap(&mut row, &mut cells[y]);
    proof {
        assert(row@ == row0);
    }
    let mut i: usize = 0;
    while i < n
        invariant
            i <= n,
            x < row0.len(),
            row@.len() == row0.len(),
            row@ == deleted_chars(row0, x as int, i as nat),
        decreases n - i,
    {
        row.remove(x);
        row.push(Cell::default());
        i = i + 1;
    }
    let ghost mid = cells@;
    cells.set(y, row);
    proof {
        assert(row_views(cells@) =~= o.update(y as int, deleted_chars(row0, x as int, n as nat))) by {
            assert forall|k: int| 0 <= k < cells@.len() && k != y implies #[trigger] cells@[k]@ == o[k] by {
                assert(cells@[k] == mid[k]);
            }
        }
    }
}

/// ICH on row `y`: `n` times, a blank enters at `x` and the last cell drops out.
pub fn insert_chars_in_row(cells: &mut Vec<Vec<Cell>>, y: usize, x: usize, n: usize)
    requires
        y < old(cells)@.len(),
        x < old(cells)@[y as int]@.len(),
    ensures
        row_views(final(cells)@) == row_views(old(cells)@).update(y as int, inserted_chars(old(cells)@[y as int]@, x as int, n as nat)),
{
    let ghost o = row_views(cells@);
    let ghost row0 = cells@[y as int]@;
    let mut row: Vec<Cell> = Vec::new();
    std::mem::swap(&mut row, &mut cells[y]);
    proof {
        assert(row@ == row0);
    }
    let mut i: usize = 0;
    while i < n
        invariant
            i <= n,
            x < row0.len(),
            row@.len() == row0.len(),
            row@ == inserted_chars(row0, x as int, i as nat),
        decreases n - i,
    {
        row.insert(x, Cell::default());
        let _last = row.pop();
        i = i + 1;
    }
    let ghost mid = cells@;
    cells.set(y, row);
    proof {
        assert(row_views(cells@) =~= o.update(y as int, inserted_chars(row0, x as int, n as nat))) by {
            assert forall|k: int| 0 <= k < cells@.len() && k != y implies #[trigger] cells@[k]@ == o[k] by {
                assert(cells@[k] == mid[k]);
            }
        }
    }
}

} // verus!
