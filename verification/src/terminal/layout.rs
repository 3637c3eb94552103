//! Laying logical lines out into visual rows of a given width, and mapping
//! between display columns and logical cell offsets.

use vstd::prelude::*;

use crate::terminal::cells::{
    cell_display_width, cell_width_at, blank_cell, is_padding, logical_end, logical_from, logical_of, row_logical, trim_end,
    widths_ok, Cell, LogicalCell, LogicalLine, Seg, VisualSegment,
};

verus! {

/// The leading cell that shows a logical cell.
pub open spec fn lead_cell(lc: LogicalCell) -> Cell {
    Cell {
        ch: lc.ch,
        fg: lc.fg,
        bg: lc.bg,
        bold: lc.bold,
        italic: lc.italic,
        underline: lc.underline,
        blink: lc.blink,
        reverse: lc.reverse,
        dim: lc.dim,
        strikethrough: lc.strikethrough,
        wide_continuation: false,
    }
}

/// The continuation slot after a wide logical cell.
pub open spec fn cont_cell(lc: LogicalCell) -> Cell {
    Cell { ch: ' ', wide_continuation: true, ..lead_cell(lc) }
}

/// A row of blank cells.
pub open spec fn blank_row(cols: nat) -> Seq<Cell> {
    Seq::new(cols, |i: int| blank_cell())
}

/// `cols` blank cells.
pub fn make_blank_row(cols: usize) -> (row: Vec<Cell>)
    ensures
        row@ == blank_row(cols as nat),
{
    let mut row: Vec<Cell> = Vec::new();
    let mut i: usize = 0;
    while i < cols
        invariant
            i <= cols,
            row@ == blank_row(i as nat),
        decreases cols - i,
    {
        row.push(Cell::default());
        assert(row@ =~= blank_row((i + 1) as nat));
        i = i + 1;
    }
    row
}

/// Layout state after some prefix of a logical line.
pub struct LayoutAcc {
    pub segs: Seq<Seg>,
    pub row: Seq<Cell>,
    pub x: int,
    pub start: int,
    pub first: bool,
}

/// Whether a segment continues the previous visual row: the first one inherits
/// the caller's flag, every later one is a soft wrap.
pub open spec fn seg_wrapped(first: bool, first_wrapped: bool) -> bool {
    if first {
        first_wrapped
    } else {
        true
    }
}

/// Place logical cell `i` (`lc`): start a new row when it does not fit after
/// something already on the current row, then write its leader (and the
/// continuation slot of a wide cell when there is room for it).
pub open spec fn layout_step(acc: LayoutAcc, i: int, lc: LogicalCell, cols: nat, fw: bool) -> LayoutAcc {
    if lc.width == 0 {
        acc
    } else {
        let a = if acc.x > 0 && acc.x + lc.width > cols {
            LayoutAcc {
                segs: acc.segs.push(
                    Seg { row: acc.row, start: acc.start, end: i, wrapped: seg_wrapped(acc.first, fw) },
                ),
                row: blank_row(cols),
                x: 0,
                start: i,
                first: false,
            }
        } else {
            acc
        };
        let row = a.row.update(a.x, lead_cell(lc));
        if lc.width == 2 && a.x + 1 < cols {
            LayoutAcc { row: row.update(a.x + 1, cont_cell(lc)), x: a.x + 2, ..a }
        } else {
            LayoutAcc { row: row, x: a.x + 1, ..a }
        }
    }
}

pub open spec fn layout_prefix(line: Seq<LogicalCell>, cols: nat, fw: bool, k: int) -> LayoutAcc
    decreases k,
{
    if k <= 0 {
        LayoutAcc { segs: seq![], row: blank_row(cols), x: 0, start: 0, first: true }
    } else {
        layout_step(layout_prefix(line, cols, fw, k - 1), k - 1, line[k - 1], cols, fw)
    }
}

/// The visual segments of a logical line laid out `cols` wide; `fw` is whether
/// the first segment continues the row above it.
pub open spec fn layout_segments(line: Seq<LogicalCell>, cols: nat, fw: bool) -> Seq<Seg> {
    if cols == 0 {
        seq![Seg { row: seq![], start: 0, end: 0, wrapped: fw }]
    } else if line.len() == 0 {
        seq![Seg { row: blank_row(cols), start: 0, end: 0, wrapped: fw }]
    } else {
        let acc = layout_prefix(line, cols, fw, line.len() as int);
        acc.segs.push(
            Seg { row: acc.row, start: acc.start, end: line.len() as int, wrapped: seg_wrapped(acc.first, fw) },
        )
    }
}

/// The state of a layout part way through a line keeps rows `cols` wide and
/// segment ranges inside the cells placed so far.
pub open spec fn layout_acc_ok(acc: LayoutAcc, cols: nat, k: int) -> bool {
    &&& acc.row.len() == cols
    &&& 0 <= acc.x <= cols
    &&& 0 <= acc.start <= k
    &&& forall|j: int| 0 <= j < acc.segs.len() ==> (#[trigger] acc.segs[j]).row.len() == cols
        && 0 <= acc.segs[j].start <= acc.segs[j].end <= k
}

pub proof fn lemma_layout_prefix_ok(line: Seq<LogicalCell>, cols: nat, fw: bool, k: int)
    requires
        widths_ok(line),
        cols >= 1,
        0 <= k <= line.len(),
    ensures
        layout_acc_ok(layout_prefix(line, cols, fw, k), cols, k),
    decreases k,
{
    if k > 0 {
        lemma_layout_prefix_ok(line, cols, fw, k - 1);
        let acc = layout_prefix(line, cols, fw, k - 1);
        let lc = line[k - 1];
        assert(1 <= lc.width <= 2);
        let nxt = layout_prefix(line, cols, fw, k);
        assert(nxt == layout_step(acc, k - 1, lc, cols, fw));
        assert forall|j: int| 0 <= j < nxt.segs.len() implies (#[trigger] nxt.segs[j]).row.len() == cols
            && 0 <= nxt.segs[j].start <= nxt.segs[j].end <= k by {
            if j < acc.segs.len() {
                assert(nxt.segs[j] == acc.segs[j]);
            }
        }
    }
}

/// Every segment of a laid-out line is a row `cols` wide showing a range of
/// the line's cells.
pub proof fn lemma_layout_segments_ok(line: Seq<LogicalCell>, cols: nat, fw: bool)
    requires
        widths_ok(line),
    ensures
        layout_segments(line, cols, fw).len() >= 1,
        forall|j: int| 0 <= j < layout_segments(line, cols, fw).len() ==>
            (#[trigger] layout_segments(line, cols, fw)[j]).row.len() == cols
            && 0 <= layout_segments(line, cols, fw)[j].start <= layout_segments(line, cols, fw)[j].end <= line.len(),
{
    if cols >= 1 && line.len() > 0 {
        lemma_layout_prefix_ok(line, cols, fw, line.len() as int);
        let acc = layout_prefix(line, cols, fw, line.len() as int);
        let out = layout_segments(line, cols, fw);
        assert forall|j: int| 0 <= j < out.len() implies (#[trigger] out[j]).row.len() == cols
            && 0 <= out[j].start <= out[j].end <= line.len() by {
            if j < acc.segs.len() {
                assert(out[j] == acc.segs[j]);
            }
        }
    }
}

/// The cells the segments show, in order.
pub open spec fn parts_of(line: Seq<LogicalCell>, segs: Seq<Seg>) -> Seq<LogicalCell>
    decreases segs.len(),
{
    if segs.len() == 0 {
        seq![]
    } else {
        parts_of(line, segs.drop_last()) + line.subrange(segs.last().start, segs.last().end)
    }
}

proof fn lemma_layout_prefix_parts(line: Seq<LogicalCell>, cols: nat, fw: bool, k: int)
    requires
        widths_ok(line),
        cols >= 1,
        0 <= k <= line.len(),
    ensures
        ({
            let acc = layout_prefix(line, cols, fw, k);
            &&& parts_of(line, acc.segs) == line.subrange(0, acc.start)
            &&& acc.first == (acc.segs.len() == 0)
            &&& forall|j: int| 0 <= j < acc.segs.len() ==> (#[trigger] acc.segs[j]).wrapped == (if j == 0 { fw } else { true })
        }),
    decreases k,
{
    if k == 0 {
        assert(line.subrange(0, 0) =~= seq![]);
    } else {
        lemma_layout_prefix_parts(line, cols, fw, k - 1);
        lemma_layout_prefix_ok(line, cols, fw, k - 1);
        let acc = layout_prefix(line, cols, fw, k - 1);
        let lc = line[k - 1];
        assert(1 <= lc.width <= 2);
        let nxt = layout_prefix(line, cols, fw, k);
        assert(nxt == layout_step(acc, k - 1, lc, cols, fw));
        if acc.x > 0 && acc.x + lc.width > cols {
            let seg = Seg { row: acc.row, start: acc.start, end: k - 1, wrapped: seg_wrapped(acc.first, fw) };
            assert(nxt.segs == acc.segs.push(seg));
            assert(nxt.segs.drop_last() =~= acc.segs);
            assert(line.subrange(0, acc.start) + line.subrange(acc.start, k - 1) =~= line.subrange(0, k - 1));
            assert forall|j: int| 0 <= j < nxt.segs.len() implies (#[trigger] nxt.segs[j]).wrapped == (if j == 0 { fw } else { true }) by {
                if j < acc.segs.len() {
                    assert(nxt.segs[j] == acc.segs[j]);
                }
            }
        } else {
            assert(nxt.segs == acc.segs);
        }
    }
}

/// Laying a line out loses and repeats nothing: its visual rows show its
/// cells in order, each exactly once; the first row continues the row above
/// it only when asked to, and every further row is a soft wrap.
pub proof fn lemma_layout_covers(line: Seq<LogicalCell>, cols: nat, fw: bool)
    requires
        widths_ok(line),
        cols >= 1,
    ensures
        ({
            let segs = layout_segments(line, cols, fw);
            &&& parts_of(line, segs) == line
            &&& forall|j: int| 0 <= j < segs.len() ==> (#[trigger] segs[j]).wrapped == (if j == 0 { fw } else { true })
        }),
{
    let segs = layout_segments(line, cols, fw);
    assert(parts_of(line, segs) == parts_of(line, segs.drop_last()) + line.subrange(segs.last().start, segs.last().end));
    if line.len() == 0 {
        assert(segs.drop_last() =~= seq![]);
        assert(parts_of(line, segs.drop_last()) == Seq::<LogicalCell>::empty());
        assert(line.subrange(0, 0) =~= line);
        assert(parts_of(line, segs) =~= line);
    } else {
        lemma_layout_prefix_parts(line, cols, fw, line.len() as int);
        lemma_layout_prefix_ok(line, cols, fw, line.len() as int);
        let acc = layout_prefix(line, cols, fw, line.len() as int);
        assert(segs.drop_last() =~= acc.segs);
        assert(line.subrange(0, acc.start) + line.subrange(acc.start, line.len() as int) =~= line);
        assert(segs.last() == Seg { row: acc.row, start: acc.start, end: line.len() as int, wrapped: seg_wrapped(acc.first, fw) });
        assert(parts_of(line, segs) =~= line);
        assert forall|j: int| 0 <= j < segs.len() implies (#[trigger] segs[j]).wrapped == (if j == 0 { fw } else { true }) by {
            if j < acc.segs.len() {
                assert(segs[j] == acc.segs[j]);
            }
        }
    }
}

pub open spec fn seg_views(s: Seq<VisualSegment>) -> Seq<Seg> {
    s.map_values(|v: VisualSegment| v@)
}

fn lead_of(lc: &LogicalCell) -> (c: Cell)
    ensures
        c == lead_cell(*lc),
{
    Cell {
        ch: lc.ch,
        fg: lc.fg,
        bg: lc.bg,
        bold: lc.bold,
        italic: lc.italic,
        underline: lc.underline,
        blink: lc.blink,
        reverse: lc.reverse,
        dim: lc.dim,
        strikethrough: lc.strikethrough,
        wide_continuation: false,
    }
}

fn cont_of(lc: &LogicalCell) -> (c: Cell)
    ensures
        c == cont_cell(*lc),
{
    Cell {
        ch: ' ',
        fg: lc.fg,
        bg: lc.bg,
        bold: lc.bold,
        italic: lc.italic,
        underline: lc.underline,
        blink: lc.blink,
        reverse: lc.reverse,
        dim: lc.dim,
        strikethrough: lc.strikethrough,
        wide_continuation: true,
    }
}

fn push_seg(segs: &mut Vec<VisualSegment>, s: VisualSegment)
    ensures
        seg_views(final(segs)@) == seg_views(old(segs)@).push(s@),
{
    segs.push(s);
    assert(seg_views(segs@) =~= seg_views(old(segs)@).push(s@));
}

/// Layout a logical line into visual rows, keeping for each row the range of
/// logical cells it shows, so a resize can split the visible grid without
/// losing data.
pub fn layout_logical_line_segments(line: &LogicalLine, cols: usize, first_row_is_wrapped: bool) -> (segs: Vec<VisualSegment>)
    ensures
        seg_views(segs@) == layout_segments(line.cells@, cols as nat, first_row_is_wrapped),
{
    let mut rows: Vec<VisualSegment> = Vec::new();
    if cols == 0 {
        push_seg(&mut rows, VisualSegment { row: Vec::new(), start: 0, end: 0, wrapped: first_row_is_wrapped });
        assert(seg_views(rows@) =~= layout_segments(line.cells@, cols as nat, first_row_is_wrapped));
        return rows;
    }
    if line.cells.len() == 0 {
        push_seg(&mut rows, VisualSegment { row: make_blank_row(cols), start: 0, end: 0, wrapped: first_row_is_wrapped });
        assert(seg_views(rows@) =~= layout_segments(line.cells@, cols as nat, first_row_is_wrapped));
        return rows;
    }
    let ghost cells = line.cells@;
    let ghost fw = first_row_is_wrapped;
    let mut row = make_blank_row(cols);
    let mut x: usize = 0;
    let mut start: usize = 0;
    let mut first = true;
    let mut i: usize = 0;
    while i < line.cells.len()
        invariant
            cols > 0,
            cells == line.cells@,
            fw == first_row_is_wrapped,
            i <= cells.len(),
            row@.len() == cols,
            x <= cols,
            start <= i,
            ({
                let acc = layout_prefix(cells, cols as nat, fw, i as int);
                &&& seg_views(rows@) == acc.segs
                &&& row@ == acc.row
                &&& x == acc.x
                &&& start == acc.start
                &&& first == acc.first
            }),
        decreases cells.len() - i,
    {
        let lc = line.cells[i];
        if lc.width != 0 {
            if x > 0 && lc.width > cols - x {
                let done = VisualSegment { row, start, end: i, wrapped: if first { first_row_is_wrapped } else { true } };
                push_seg(&mut rows, done);
                row = make_blank_row(cols);
                x = 0;
                start = i;
                first = false;
            }
            row.set(x, lead_of(&lc));
            if lc.width == 2 && x + 1 < cols {
                row.set(x + 1, cont_of(&lc));
                x = x + 2;
            } else {
                x = x + 1;
            }
        }
        i = i + 1;
    }
    let last = VisualSegment { row, start, end: line.cells.len(), wrapped: if first { first_row_is_wrapped } else { true } };
    push_seg(&mut rows, last);
    rows
}

/// The rows-only layout used for painting (older variant): a cell that does not
/// fit wraps to a fresh row even at column 0.
pub open spec fn plain_layout_step(acc: LayoutAcc, lc: LogicalCell, cols: nat) -> LayoutAcc {
    if lc.width == 0 {
        acc
    } else {
        let a = if acc.x + lc.width > cols {
            LayoutAcc { segs: acc.segs.push(Seg { row: acc.row, start: 0, end: 0, wrapped: false }), row: blank_row(cols), x: 0, ..acc }
        } else {
            acc
        };
        let b = if a.x >= cols {
            LayoutAcc { segs: a.segs.push(Seg { row: a.row, start: 0, end: 0, wrapped: false }), row: blank_row(cols), x: 0, ..a }
        } else {
            a
        };
        let row = b.row.update(b.x, lead_cell(lc));
        let row2 = if lc.width == 2 && b.x + 1 < cols {
            row.update(b.x + 1, cont_cell(lc))
        } else {
            row
        };
        LayoutAcc { row: row2, x: b.x + lc.width, ..b }
    }
}

pub open spec fn plain_layout_prefix(line: Seq<LogicalCell>, cols: nat, k: int) -> LayoutAcc
    decreases k,
{
    if k <= 0 {
        LayoutAcc { segs: seq![], row: blank_row(cols), x: 0, start: 0, first: true }
    } else {
        plain_layout_step(plain_layout_prefix(line, cols, k - 1), line[k - 1], cols)
    }
}

/// The visual rows of a logical line laid out `cols` wide by the painting layout.
pub open spec fn plain_layout(line: Seq<LogicalCell>, cols: nat) -> Seq<Seq<Cell>> {
    if cols == 0 {
        seq![seq![]]
    } else {
        let acc = plain_layout_prefix(line, cols, line.len() as int);
        acc.segs.push(Seg { row: acc.row, start: 0, end: 0, wrapped: false }).map_values(|s: Seg| s.row)
    }
}

pub open spec fn row_views(rows: Seq<Vec<Cell>>) -> Seq<Seq<Cell>> {
    rows.map_values(|r: Vec<Cell>| r@)
}

/// Layout a logical line into visual screen rows for the given terminal width,
/// marking the second column of wide characters as continuation slots.
pub fn layout_logical_line(line: &LogicalLine, cols: usize) -> (rows: Vec<Vec<Cell>>)
    requires
        widths_ok(line.cells@),
    ensures
        row_views(rows@) == plain_layout(line.cells@, cols as nat),
{
    if cols == 0 {
        let rows: Vec<Vec<Cell>> = vec![Vec::new()];
        assert(row_views(rows@) =~= plain_layout(line.cells@, cols as nat));
        return rows;
    }
    let ghost cells = line.cells@;
    let mut rows: Vec<Vec<Cell>> = Vec::new();
    let mut row = make_blank_row(cols);
    let mut x: usize = 0;
    let mut i: usize = 0;
    while i < line.cells.len()
        invariant
            cols > 0,
            cells == line.cells@,
            widths_ok(cells),
            i <= cells.len(),
            row@.len() == cols,
            x <= cols + 1,
            ({
                let acc = plain_layout_prefix(cells, cols as nat, i as int);
                &&& row_views(rows@) == acc.segs.map_values(|s: Seg| s.row)
                &&& row@ == acc.row
                &&& x == acc.x
            }),
        decreases cells.len() - i,
    {
        let lc = line.cells[i];
        assert(1 <= cells[i as int].width <= 2);
        if lc.width != 0 {
            let ghost acc0 = plain_layout_prefix(cells, cols as nat, i as int);
            if x > cols || lc.width > cols - x {
                let ghost before = rows@;
                rows.push(row);
                assert(row_views(rows@) =~= row_views(before).push(acc0.row));
                row = make_blank_row(cols);
                x = 0;
            }
            if x >= cols {
                let ghost before = rows@;
                let ghost r = row@;
                rows.push(row);
                assert(row_views(rows@) =~= row_views(before).push(r));
                row = make_blank_row(cols);
                x = 0;
            }
            row.set(x, lead_of(&lc));
            if lc.width == 2 && x + 1 < cols {
                row.set(x + 1, cont_of(&lc));
            }
            x = x + lc.width;
        }
        i = i + 1;
    }
    let ghost before = rows@;
    let ghost r = row@;
    rows.push(row);
    assert(row_views(rows@) =~= row_views(before).push(r));
    proof {
        let acc = plain_layout_prefix(cells, cols as nat, cells.len() as int);
        assert(acc.segs.push(Seg { row: acc.row, start: 0, end: 0, wrapped: false }).map_values(|s: Seg| s.row)
            =~= acc.segs.map_values(|s: Seg| s.row).push(acc.row));
    }
    rows
}

} // verus!

verus! {

/// Logical cells consumed while walking `row` from slot `x` (having covered
/// `dc` display columns) until `target` display columns are covered.
pub open spec fn offset_walk(row: Seq<Cell>, target: int, x: int, dc: int) -> int
    decreases row.len() - x,
{
    if x >= row.len() || x < 0 || dc >= target {
        0
    } else if row[x].wide_continuation {
        offset_walk(row, target, x + 1, dc)
    } else {
        let w = cell_width_at(row, x) as int;
        let w1 = if w < 1 { 1 } else { w };
        1 + offset_walk(row, target, x + w1, dc + w1)
    }
}

proof fn lemma_offset_walk_bound(row: Seq<Cell>, target: int, x: int, dc: int)
    requires
        0 <= x,
    ensures
        0 <= offset_walk(row, target, x, dc) <= if x < row.len() { row.len() - x } else { 0 },
    decreases row.len() - x,
{
    if x >= row.len() || dc >= target {
    } else if row[x].wide_continuation {
        lemma_offset_walk_bound(row, target, x + 1, dc);
    } else {
        let w = cell_width_at(row, x) as int;
        let w1 = if w < 1 { 1 } else { w };
        lemma_offset_walk_bound(row, target, x + w1, dc + w1);
    }
}

/// Logical-cell offset corresponding to a display column inside a physical row.
pub fn row_logical_offset_for_display_col(row: &[Cell], target_col: usize) -> (n: usize)
    ensures
        n == offset_walk(row@, target_col as int, 0, 0),
        n <= row@.len(),
{
    let mut display_col: usize = 0;
    let mut x: usize = 0;
    let mut logical: usize = 0;
    proof {
        lemma_offset_walk_bound(row@, target_col as int, 0, 0);
    }
    while x < row.len() && display_col < target_col
        invariant
            x <= row.len(),
            display_col <= x,
            logical <= x,
            logical + offset_walk(row@, target_col as int, x as int, display_col as int)
                == offset_walk(row@, target_col as int, 0, 0),
        decreases row.len() - x,
    {
        if row[x].wide_continuation {
            x += 1;
            continue;
        }
        let w = cell_display_width(row, x);
        let width = if w < 1 { 1 } else { w };
        display_col += width;
        x += width;
        logical += 1;
    }
    proof {
        lemma_offset_walk_bound(row@, target_col as int, 0, 0);
    }
    logical
}

/// Display columns taken by a run of logical cells (each at least one column).
pub open spec fn width_sum(cells: Seq<LogicalCell>) -> int
    decreases cells.len(),
{
    if cells.len() == 0 {
        0
    } else {
        let w = cells.last().width as int;
        width_sum(cells.drop_last()) + if w < 1 { 1 } else { w }
    }
}

/// Every cell counts at least one column, so a width sum is never negative.
pub proof fn lemma_width_sum_nonneg(cells: Seq<LogicalCell>)
    ensures
        0 <= width_sum(cells),
    decreases cells.len(),
{
    if cells.len() > 0 {
        lemma_width_sum_nonneg(cells.drop_last());
    }
}

pub open spec fn clamp_to(v: int, n: int) -> int {
    if v < n {
        v
    } else {
        n
    }
}

/// Display column at which logical cell `end` starts, counting from cell
/// `start` (saturating at the largest `usize`).
pub fn logical_display_col(cells: &[LogicalCell], start: usize, end: usize) -> (n: usize)
    requires
        clamp_to(start as int, cells@.len() as int) <= clamp_to(end as int, cells@.len() as int),
    ensures
        n == clamp_to(
            width_sum(
                cells@.subrange(
                    clamp_to(start as int, cells@.len() as int),
                    clamp_to(end as int, cells@.len() as int),
                ),
            ),
            usize::MAX as int,
        ),
{
    let s = if start < cells.len() { start } else { cells.len() };
    let e = if end < cells.len() { end } else { cells.len() };
    let mut i = s;
    let mut total: usize = 0;
    proof {
        assert(cells@.subrange(s as int, s as int) =~= Seq::<LogicalCell>::empty());
    }
    while i < e
        invariant
            s <= i <= e,
            e <= cells@.len(),
            total == clamp_to(width_sum(cells@.subrange(s as int, i as int)), usize::MAX as int),
            width_sum(cells@.subrange(s as int, i as int)) >= 0,
        decreases e - i,
    {
        assert(cells@.subrange(s as int, i + 1).drop_last() =~= cells@.subrange(s as int, i as int));
        let w = cells[i].width;
        let step = if w < 1 { 1 } else { w };
        total = total.saturating_add(step);
        i = i + 1;
    }
    total
}

/// The column at which cell `j` of a line starts when the line is laid out
/// on one row: the widths of the cells before it.
#[verifier::opaque]
pub open spec fn col_at(line: Seq<LogicalCell>, j: int) -> int {
    width_sum(line.take(j))
}

proof fn lemma_col_step(line: Seq<LogicalCell>, k: int)
    requires
        widths_ok(line),
        0 <= k < line.len(),
    ensures
        col_at(line, k + 1) == col_at(line, k) + line[k].width,
{
    reveal(col_at);
    assert(line.take(k + 1).drop_last() =~= line.take(k));
    assert(line.take(k + 1).last() == line[k]);
    assert(1 <= line[k].width <= 2);
}

proof fn lemma_col_mono(line: Seq<LogicalCell>, j: int, k: int)
    requires
        widths_ok(line),
        0 <= j <= k <= line.len(),
    ensures
        col_at(line, j) <= col_at(line, k),
        0 <= col_at(line, j),
    decreases k - j,
{
    if j < k {
        lemma_col_mono(line, j, k - 1);
        lemma_col_step(line, k - 1);
    } else {
        reveal(col_at);
        lemma_width_sum_nonneg(line.take(j));
    }
}

proof fn lemma_col_ends(line: Seq<LogicalCell>)
    ensures
        col_at(line, 0) == 0,
        col_at(line, line.len() as int) == width_sum(line),
{
    reveal(col_at);
    assert(line.take(0) =~= Seq::<LogicalCell>::empty());
    assert(line.take(line.len() as int) =~= line);
}

/// Cell `j` of the line shows at its column of `row`.
pub open spec fn shows_at(line: Seq<LogicalCell>, row: Seq<Cell>, j: int) -> bool {
    &&& row[col_at(line, j)] == lead_cell(line[j])
    &&& (line[j].width == 2 ==> row[col_at(line, j) + 1] == cont_cell(line[j]))
}

/// What laying out the first `k` cells of a line that fits on one row
/// gives: one row so far, each cell at its column, blanks after them.
pub open spec fn fits_prefix(line: Seq<LogicalCell>, cols: nat, acc: LayoutAcc, k: int) -> bool {
    &&& acc.segs.len() == 0
    &&& acc.x == col_at(line, k)
    &&& acc.row.len() == cols
    &&& forall|j: int| 0 <= j < k ==> #[trigger] shows_at(line, acc.row, j)
    &&& forall|p: int| acc.x <= p < cols ==> #[trigger] acc.row[p] == blank_cell()
}

#[verifier::rlimit(30)]
proof fn lemma_fits_prefix(line: Seq<LogicalCell>, cols: nat, k: int)
    requires
        widths_ok(line),
        width_sum(line) <= cols,
        0 <= k <= line.len(),
    ensures
        fits_prefix(line, cols, plain_layout_prefix(line, cols, k), k),
    decreases k,
{
    if k == 0 {
        lemma_col_ends(line);
    } else {
        lemma_fits_prefix(line, cols, k - 1);
        let acc = plain_layout_prefix(line, cols, k - 1);
        assert(fits_prefix(line, cols, acc, k - 1));
        let lc = line[k - 1];
        assert(1 <= lc.width <= 2);
        lemma_col_step(line, k - 1);
        lemma_col_mono(line, k - 1, k);
        lemma_col_mono(line, k, line.len() as int);
        lemma_col_ends(line);
        let x = acc.x;
        assert(0 <= x && x + lc.width <= cols);
        assert(acc.row.len() == cols);
        let nxt = plain_layout_prefix(line, cols, k);
        let row = acc.row.update(x, lead_cell(lc));
        let row2 = if lc.width == 2 { row.update(x + 1, cont_cell(lc)) } else { row };
        assert(nxt == LayoutAcc { row: row2, x: x + lc.width, ..acc });
        assert(row2.len() == cols);
        assert(row2[x] == lead_cell(lc));
        assert(lc.width == 2 ==> row2[x + 1] == cont_cell(lc));
        assert forall|i: int| 0 <= i < x implies #[trigger] row2[i] == acc.row[i] by {}
        assert forall|i: int| x + lc.width <= i < cols implies #[trigger] row2[i] == acc.row[i] by {}
        assert forall|j: int| 0 <= j < k implies #[trigger] shows_at(line, nxt.row, j) by {
            if j < k - 1 {
                assert(shows_at(line, acc.row, j));
                assert(1 <= line[j].width <= 2);
                lemma_col_step(line, j);
                lemma_col_mono(line, j + 1, k - 1);
                lemma_col_mono(line, j, k - 1);
                assert(row2[col_at(line, j)] == acc.row[col_at(line, j)]);
                if line[j].width == 2 {
                    assert(row2[col_at(line, j) + 1] == acc.row[col_at(line, j) + 1]);
                }
            }
        }
        assert forall|p: int| nxt.x <= p < cols implies #[trigger] nxt.row[p] == blank_cell() by {
            assert(row2[p] == acc.row[p]);
            assert(acc.row[p] == blank_cell());
        }
    }
}

proof fn lemma_trim_blank_tail(row: Seq<Cell>, x: int, e: int)
    requires
        0 <= x <= e <= row.len(),
        forall|p: int| x <= p < row.len() ==> #[trigger] row[p] == blank_cell(),
        x > 0 ==> !is_padding(row[x - 1]),
    ensures
        trim_end(row, e) == x,
    decreases e,
{
    if e > x {
        assert(row[e - 1] == blank_cell());
        lemma_trim_blank_tail(row, x, e - 1);
    }
}

#[verifier::rlimit(30)]
proof fn lemma_fits_logical(line: Seq<LogicalCell>, row: Seq<Cell>, end: int, j: int)
    requires
        widths_ok(line),
        0 <= j <= line.len(),
        end == col_at(line, line.len() as int),
        end <= row.len(),
        forall|i: int| 0 <= i < line.len() ==> #[trigger] shows_at(line, row, i),
    ensures
        logical_from(row, end, col_at(line, j)) == line.subrange(j, line.len() as int),
    decreases line.len() - j,
{
    let x = col_at(line, j);
    lemma_col_mono(line, j, line.len() as int);
    if j == line.len() {
        assert(line.subrange(j, line.len() as int) =~= Seq::<LogicalCell>::empty());
    } else {
        let lc = line[j];
        assert(1 <= lc.width <= 2);
        lemma_col_step(line, j);
        lemma_col_mono(line, j + 1, line.len() as int);
        lemma_fits_logical(line, row, end, j + 1);
        assert(shows_at(line, row, j));
        assert(row[x] == lead_cell(lc));
        if lc.width == 2 {
            assert(row[x + 1] == cont_cell(lc));
            assert(logical_of(row[x], 2) == lc);
            assert(logical_from(row, end, x) == seq![logical_of(row[x], 2)] + logical_from(row, end, x + 2));
        } else {
            if j + 1 < line.len() {
                assert(shows_at(line, row, j + 1));
                assert(row[x + 1] == lead_cell(line[j + 1]));
            }
            assert(logical_of(row[x], 1) == lc);
            assert(logical_from(row, end, x) == seq![logical_of(row[x], 1)] + logical_from(row, end, x + 1));
        }
        assert(line.subrange(j, line.len() as int) =~= seq![lc] + line.subrange(j + 1, line.len() as int));
    }
}

/// A line that fits on one row is laid out as one row, and reading that
/// row back (dropping its trailing padding) gives the line again, cell for
/// cell, when its last cell is not a space.
pub proof fn lemma_fitting_line_round_trip(line: Seq<LogicalCell>, cols: nat)
    requires
        widths_ok(line),
        line.len() > 0,
        width_sum(line) <= cols,
        line.last().ch != ' ',
    ensures
        plain_layout(line, cols).len() == 1,
        row_logical(plain_layout(line, cols)[0], true) == line,
{
    let n = line.len() as int;
    lemma_col_ends(line);
    lemma_col_step(line, n - 1);
    lemma_col_mono(line, n - 1, n);
    assert(cols >= 1);
    lemma_fits_prefix(line, cols, n);
    let acc = plain_layout_prefix(line, cols, n);
    let row = acc.row;
    assert(plain_layout(line, cols) =~= seq![row]);
    let x = width_sum(line);
    let last = line[n - 1];
    let lx = col_at(line, n - 1);
    assert(1 <= last.width <= 2);
    assert(shows_at(line, row, n - 1));
    assert(row[lx] == lead_cell(last));
    assert(!is_padding(row[x - 1])) by {
        if last.width == 2 {
            assert(row[lx + 1] == cont_cell(last));
        }
    }
    lemma_trim_blank_tail(row, x, cols as int);
    assert(logical_end(row, true) == x);
    lemma_fits_logical(line, row, x, 0);
    assert(line.subrange(0, n) =~= line);
}

} // verus!
