//! Reflow of the main screen on a width change: its rows are joined back into
//! logical lines (soft-wrapped rows continue the line above) and laid out
//! again at the new width.

use vstd::prelude::*;

use crate::terminal::cells::{
    blank_cell, lemma_logical_from_widths, logical_end, row_logical, row_to_logical_cells_with_trim, widths_ok, Cell, LogicalCell,
    LogicalLine, Seg, VisualSegment,
};
use crate::terminal::layout::{
    clamp_to, logical_display_col, make_blank_row, offset_walk, row_logical_offset_for_display_col, width_sum, blank_row, layout_logical_line_segments, layout_prefix, layout_segments, layout_step, row_views, seg_views,
    seg_wrapped, LayoutAcc, lemma_layout_segments_ok, lemma_width_sum_nonneg, lemma_layout_covers, parts_of,
};
use crate::terminal::visual::{extended_scrollback, lemma_lines_index, lemma_lines_push, line_views, lines_ok, trim_front};
use crate::terminal::grid::{grid_ok, lemma_grid_intro};

verus! {

/// Whether row `r + 1` continues row `r`.
pub open spec fn next_continues(wrapped: Seq<bool>, r: int) -> bool {
    r + 1 < wrapped.len() && wrapped[r + 1]
}

/// The logical lines of the first `n` rows of a grid: each row's logical
/// cells (trailing padding kept where the next row continues it), with a
/// continuation row appended to the line before it.
pub open spec fn grid_lines_upto(cells: Seq<Seq<Cell>>, wrapped: Seq<bool>, n: int) -> Seq<Seq<LogicalCell>>
    decreases n,
{
    if n <= 0 {
        seq![]
    } else {
        let ls = grid_lines_upto(cells, wrapped, n - 1);
        let r = n - 1;
        let lc = row_logical(cells[r], !next_continues(wrapped, r));
        if wrapped[r] && ls.len() > 0 {
            ls.drop_last().push(ls.last() + lc)
        } else {
            ls.push(lc)
        }
    }
}

/// The line that row `r` belongs to.
pub open spec fn row_line(cells: Seq<Seq<Cell>>, wrapped: Seq<bool>, r: int) -> int {
    grid_lines_upto(cells, wrapped, r + 1).len() - 1
}

/// Where in its line row `r`'s cells begin.
pub open spec fn row_base(cells: Seq<Seq<Cell>>, wrapped: Seq<bool>, r: int) -> int {
    let ls = grid_lines_upto(cells, wrapped, r);
    if wrapped[r] && ls.len() > 0 {
        ls.last().len() as int
    } else {
        0
    }
}

pub proof fn lemma_grid_lines_len(cells: Seq<Seq<Cell>>, wrapped: Seq<bool>, n: int)
    requires
        0 <= n,
    ensures
        grid_lines_upto(cells, wrapped, n).len() <= n,
        n > 0 ==> grid_lines_upto(cells, wrapped, n).len() >= 1,
    decreases n,
{
    if n > 0 {
        lemma_grid_lines_len(cells, wrapped, n - 1);
    }
}

/// Every grid line has cells one or two columns wide.
pub proof fn lemma_grid_lines_widths(cells: Seq<Seq<Cell>>, wrapped: Seq<bool>, n: int)
    ensures
        lines_ok(grid_lines_upto(cells, wrapped, n)),
    decreases n,
{
    reveal(lines_ok);
    if n > 0 {
        lemma_grid_lines_widths(cells, wrapped, n - 1);
        let ls = grid_lines_upto(cells, wrapped, n - 1);
        let r = n - 1;
        let lc = row_logical(cells[r], !next_continues(wrapped, r));
        lemma_logical_from_widths(cells[r], logical_end(cells[r], !next_continues(wrapped, r)), 0);
        let out = grid_lines_upto(cells, wrapped, n);
        assert forall|i: int| 0 <= i < out.len() implies widths_ok(#[trigger] out[i]) by {
            if wrapped[r] && ls.len() > 0 {
                if i < ls.len() - 1 {
                    assert(out[i] == ls[i]);
                } else {
                    let l = ls.last() + lc;
                    assert(out[i] == l);
                    assert(widths_ok(ls[ls.len() - 1]));
                    assert forall|j: int| 0 <= j < l.len() implies 1 <= #[trigger] l[j].width <= 2 by {
                        if j < ls.last().len() {
                            assert(l[j] == ls.last()[j]);
                        } else {
                            assert(l[j] == lc[j - ls.last().len()]);
                        }
                    }
                }
            } else if i < ls.len() {
                assert(out[i] == ls[i]);
            }
        }
    }
}

/// Append `src` to `dst`.
pub fn append_cells(dst: &mut Vec<LogicalCell>, src: &Vec<LogicalCell>)
    ensures
        final(dst)@ == old(dst)@ + src@,
{
    let mut i: usize = 0;
    while i < src.len()
        invariant
            i <= src@.len(),
            dst@ == old(dst)@ + src@.subrange(0, i as int),
        decreases src@.len() - i,
    {
        dst.push(src[i]);
        assert(old(dst)@ + src@.subrange(0, i + 1) =~= (old(dst)@ + src@.subrange(0, i as int)).push(src@[i as int]));
        i = i + 1;
    }
    assert(src@.subrange(0, src@.len() as int) =~= src@);
}

/// The grid's rows joined into logical lines, with each row's line and the
/// offset of its first cell in that line.
pub fn grid_logical_lines(cells: &Vec<Vec<Cell>>, wrapped: &Vec<bool>) -> (r: (Vec<LogicalLine>, Vec<usize>, Vec<usize>))
    requires
        wrapped@.len() == cells@.len(),
    ensures
        line_views(r.0@) == grid_lines_upto(row_views(cells@), wrapped@, cells@.len() as int),
        r.1@.len() == cells@.len(),
        r.2@.len() == cells@.len(),
        forall|k: int| 0 <= k < cells@.len() ==> #[trigger] r.1@[k] == row_line(row_views(cells@), wrapped@, k),
        forall|k: int| 0 <= k < cells@.len() ==> #[trigger] r.2@[k] == row_base(row_views(cells@), wrapped@, k),
{
    let ghost g = row_views(cells@);
    let n = cells.len();
    let mut lines: Vec<LogicalLine> = Vec::new();
    let mut row_line_of: Vec<usize> = Vec::new();
    let mut row_base_of: Vec<usize> = Vec::new();
    let mut r: usize = 0;
    while r < n
        invariant
            n == cells@.len(),
            wrapped@.len() == n,
            g == row_views(cells@),
            r <= n,
            line_views(lines@) == grid_lines_upto(g, wrapped@, r as int),
            row_line_of@.len() == r,
            row_base_of@.len() == r,
            forall|k: int| 0 <= k < r ==> #[trigger] row_line_of@[k] == row_line(g, wrapped@, k),
            forall|k: int| 0 <= k < r ==> #[trigger] row_base_of@[k] == row_base(g, wrapped@, k),
        decreases n - r,
    {
        let is_cont = wrapped[r];
        let next_is_cont = r + 1 < n && wrapped[r + 1];
        // When the next row continues this one, this row is an interior segment
        // of the line: its trailing spaces are content and are kept.
        let row_cells = row_to_logical_cells_with_trim(&cells[r], !next_is_cont);
        let ghost before = line_views(lines@);
        proof {
            assert(g[r as int] == cells@[r as int]@);
            lemma_grid_lines_len(g, wrapped@, r as int);
        }
        if is_cont && lines.len() > 0 {
            let li = lines.len() - 1;
            let mut last = lines.pop().unwrap();
            let base = last.cells.len();
            append_cells(&mut last.cells, &row_cells);
            let ghost last_cells = last.cells@;
            lines.push(last);
            row_line_of.push(li);
            row_base_of.push(base);
            proof {
                assert(line_views(lines@) =~= before.drop_last().push(last_cells));
            }
        } else {
            let li = lines.len();
            let ghost rc = row_cells@;
            lines.push(LogicalLine { cells: row_cells });
            row_line_of.push(li);
            row_base_of.push(0);
            proof {
                assert(line_views(lines@) =~= before.push(rc));
            }
        }
        r = r + 1;
    }
    (lines, row_line_of, row_base_of)
}

/// The segments of all lines laid out `cols` wide, in order (the first line's
/// first segment continues the row above when `fw`).
pub open spec fn stream_segs(lines: Seq<Seq<LogicalCell>>, fw: bool, cols: nat, n: int) -> Seq<Seg>
    decreases n,
{
    if n <= 0 {
        seq![]
    } else {
        stream_segs(lines, fw, cols, n - 1) + layout_segments(lines[n - 1], cols, n - 1 == 0 && fw)
    }
}

/// For each segment of the stream, the line it comes from.
pub open spec fn stream_owner(lines: Seq<Seq<LogicalCell>>, fw: bool, cols: nat, n: int) -> Seq<int>
    decreases n,
{
    if n <= 0 {
        seq![]
    } else {
        stream_owner(lines, fw, cols, n - 1) + Seq::new(layout_segments(lines[n - 1], cols, n - 1 == 0 && fw).len(), |j: int| n - 1)
    }
}

pub proof fn lemma_stream_len(lines: Seq<Seq<LogicalCell>>, fw: bool, cols: nat, n: int)
    ensures
        stream_owner(lines, fw, cols, n).len() == stream_segs(lines, fw, cols, n).len(),
        forall|i: int| 0 <= i < stream_owner(lines, fw, cols, n).len() ==> 0 <= #[trigger] stream_owner(lines, fw, cols, n)[i] < n,
    decreases n,
{
    if n > 0 {
        lemma_stream_len(lines, fw, cols, n - 1);
        let o = stream_owner(lines, fw, cols, n);
        let p = stream_owner(lines, fw, cols, n - 1);
        assert forall|i: int| 0 <= i < o.len() implies 0 <= #[trigger] o[i] < n by {
            if i < p.len() {
                assert(o[i] == p[i]);
            }
        }
    }
}

/// All lines laid out: the segments and, for each, the index of its line.
pub fn build_stream(lines: &Vec<LogicalLine>, fw: bool, cols: usize) -> (r: (Vec<usize>, Vec<VisualSegment>))
    ensures
        r.0@.len() == r.1@.len(),
        seg_views(r.1@) == stream_segs(line_views(lines@), fw, cols as nat, lines@.len() as int),
        forall|i: int| 0 <= i < r.0@.len() ==> #[trigger] r.0@[i] == stream_owner(line_views(lines@), fw, cols as nat, lines@.len() as int)[i],
{
    let ghost ls = line_views(lines@);
    let mut owner: Vec<usize> = Vec::new();
    let mut segs: Vec<VisualSegment> = Vec::new();
    let mut li: usize = 0;
    while li < lines.len()
        invariant
            li <= lines@.len(),
            ls == line_views(lines@),
            owner@.len() == segs@.len(),
            seg_views(segs@) == stream_segs(ls, fw, cols as nat, li as int),
            stream_owner(ls, fw, cols as nat, li as int).len() == owner@.len(),
            forall|i: int| 0 <= i < owner@.len() ==> #[trigger] owner@[i] == stream_owner(ls, fw, cols as nat, li as int)[i],
        decreases lines@.len() - li,
    {
        let mut line_segs = layout_logical_line_segments(&lines[li], cols, li == 0 && fw);
        proof {
            assert(lines@[li as int].cells@ == ls[li as int]);
        }
        let ghost old_owner = owner@;
        let ghost old_segs = seg_views(segs@);
        let ghost new_part = seg_views(line_segs@);
        let ghost total = line_segs@.len();
        assert(line_segs@.len() == line_segs.len());
        let mut k: usize = 0;
        while line_segs.len() > 0
            invariant
                total == new_part.len(),
                total <= usize::MAX,
                k + line_segs@.len() == total,
                seg_views(line_segs@) == new_part.subrange(k as int, total as int),
                owner@ == old_owner + Seq::new(k as nat, |j: int| li),
                seg_views(segs@) == old_segs + new_part.subrange(0, k as int),
            decreases line_segs@.len(),
        {
            let ghost before_line = line_segs@;
            assert(seg_views(before_line)[0] == before_line[0]@);
            assert(new_part.subrange(k as int, total as int)[0] == new_part[k as int]);
            let seg = line_segs.remove(0);
            let ghost before = segs@;
            segs.push(seg);
            owner.push(li);
            proof {
                assert(seg_views(segs@) =~= seg_views(before).push(new_part[k as int]));
                assert(old_segs + new_part.subrange(0, k + 1) =~= (old_segs + new_part.subrange(0, k as int)).push(new_part[k as int]));
                assert(owner@ =~= old_owner + Seq::new((k + 1) as nat, |j: int| li));
                assert forall|j: int| 0 <= j < line_segs@.len() implies #[trigger] seg_views(line_segs@)[j] == new_part.subrange(k + 1, total as int)[j] by {
                    assert(line_segs@[j] == before_line[j + 1]);
                    assert(seg_views(before_line)[j + 1] == before_line[j + 1]@);
                }
                assert(seg_views(line_segs@) =~= new_part.subrange(k + 1, total as int));
            }
            k = k + 1;
        }
        proof {
            assert(new_part.subrange(0, k as int) =~= new_part);
            let so = stream_owner(ls, fw, cols as nat, li + 1);
            assert(so =~= stream_owner(ls, fw, cols as nat, li as int) + Seq::new(new_part.len(), |j: int| li as int));
            assert forall|i: int| 0 <= i < owner@.len() implies #[trigger] owner@[i] == so[i] by {
                if i < old_owner.len() {
                    assert(owner@[i] == old_owner[i]);
                } else {
                    assert(owner@[i] == li as int);
                }
            }
        }
        li = li + 1;
    }
    (owner, segs)
}

/// The line the first row continues, when it is taken back from the
/// scrollback to be reflowed with the grid.
pub open spec fn joined_prefix(wrapped: Seq<bool>, sb: Seq<Seq<LogicalCell>>) -> Option<Seq<LogicalCell>> {
    if wrapped.len() > 0 && wrapped[0] && sb.len() > 0 {
        Some(sb.last())
    } else {
        None
    }
}

/// Whether the first line still continues something above it (nothing to join it to).
pub open spec fn first_continues(wrapped: Seq<bool>, pre: Option<Seq<LogicalCell>>) -> bool {
    wrapped.len() > 0 && wrapped[0] && pre is None
}

/// The logical lines to lay out again.
pub open spec fn reflow_lines(cells: Seq<Seq<Cell>>, wrapped: Seq<bool>, pre: Option<Seq<LogicalCell>>) -> Seq<Seq<LogicalCell>> {
    let ls = grid_lines_upto(cells, wrapped, cells.len() as int);
    match pre {
        Some(p) => if ls.len() > 0 { ls.update(0, p + ls[0]) } else { ls.push(p) },
        None => ls,
    }
}

/// The reflowed lines' visual rows at the new width.
pub open spec fn reflow_segs(cells: Seq<Seq<Cell>>, wrapped: Seq<bool>, pre: Option<Seq<LogicalCell>>, cols: nat) -> Seq<Seg> {
    let ls = reflow_lines(cells, wrapped, pre);
    stream_segs(ls, first_continues(wrapped, pre), cols, ls.len() as int)
}

pub open spec fn reflow_owner(cells: Seq<Seq<Cell>>, wrapped: Seq<bool>, pre: Option<Seq<LogicalCell>>, cols: nat) -> Seq<int> {
    let ls = reflow_lines(cells, wrapped, pre);
    stream_owner(ls, first_continues(wrapped, pre), cols, ls.len() as int)
}

/// The first visual row that stays on the screen: those above it go to the scrollback.
pub open spec fn visible_start(n: int, rows: nat) -> int {
    if n > rows {
        n - rows
    } else {
        0
    }
}

pub open spec fn clamp_len(v: int, n: int) -> int {
    if v < n {
        v
    } else {
        n
    }
}

/// The cells a visual row shows, cut from its line.
pub open spec fn seg_part(line: Seq<LogicalCell>, s: Seg) -> Seq<LogicalCell> {
    line.subrange(clamp_len(s.start, line.len() as int), clamp_len(s.end, line.len() as int))
}

/// The scrollback after the first `k` visual rows move into it (a
/// continuation row extends the newest line).
pub open spec fn pushed_scrollback(
    sb: Seq<Seq<LogicalCell>>,
    lines: Seq<Seq<LogicalCell>>,
    owner: Seq<int>,
    segs: Seq<Seg>,
    k: int,
) -> Seq<Seq<LogicalCell>>
    decreases k,
{
    if k <= 0 {
        sb
    } else {
        let s0 = pushed_scrollback(sb, lines, owner, segs, k - 1);
        let part = seg_part(lines[owner[k - 1]], segs[k - 1]);
        if segs[k - 1].wrapped {
            extended_scrollback(s0, part)
        } else {
            s0.push(part)
        }
    }
}

/// Which visual rows went into the scrollback depends only on those rows.
proof fn lemma_pushed_prefix(
    sb: Seq<Seq<LogicalCell>>,
    lines: Seq<Seq<LogicalCell>>,
    o1: Seq<int>,
    s1: Seq<Seg>,
    o2: Seq<int>,
    s2: Seq<Seg>,
    k: int,
)
    requires
        0 <= k <= o1.len(),
        k <= o2.len(),
        k <= s1.len(),
        k <= s2.len(),
        forall|i: int| 0 <= i < k ==> o1[i] == o2[i] && s1[i] == s2[i],
    ensures
        pushed_scrollback(sb, lines, o1, s1, k) == pushed_scrollback(sb, lines, o2, s2, k),
    decreases k,
{
    if k > 0 {
        lemma_pushed_prefix(sb, lines, o1, s1, o2, s2, k - 1);
        assert(o1[k - 1] == o2[k - 1] && s1[k - 1] == s2[k - 1]);
    }
}

/// The scrollback after the first `j` visual rows of line `n - 1` follow
/// the rows of the lines before it.
proof fn lemma_pushed_line_rows(
    sb: Seq<Seq<LogicalCell>>,
    lines: Seq<Seq<LogicalCell>>,
    fw: bool,
    cols: nat,
    n: int,
    j: int,
)
    requires
        lines_ok(lines),
        cols >= 1,
        1 <= n <= lines.len(),
        0 <= j <= layout_segments(lines[n - 1], cols, n - 1 == 0 && fw).len(),
    ensures
        ({
            let prev_segs = stream_segs(lines, fw, cols, n - 1);
            let prev = pushed_scrollback(sb, lines, stream_owner(lines, fw, cols, n - 1), prev_segs, prev_segs.len() as int);
            let ls = layout_segments(lines[n - 1], cols, n - 1 == 0 && fw);
            let part = parts_of(lines[n - 1], ls.subrange(0, j));
            pushed_scrollback(sb, lines, stream_owner(lines, fw, cols, n), stream_segs(lines, fw, cols, n), prev_segs.len() + j)
                == if j == 0 {
                prev
            } else if n - 1 == 0 && fw {
                extended_scrollback(prev, part)
            } else {
                prev.push(part)
            }
        }),
    decreases j,
{
    let f = n - 1 == 0 && fw;
    let line = lines[n - 1];
    let prev_segs = stream_segs(lines, fw, cols, n - 1);
    let prev_owner = stream_owner(lines, fw, cols, n - 1);
    let segs = stream_segs(lines, fw, cols, n);
    let owner = stream_owner(lines, fw, cols, n);
    let ls = layout_segments(line, cols, f);
    let m = prev_segs.len() as int;
    lemma_stream_len(lines, fw, cols, n - 1);
    lemma_stream_len(lines, fw, cols, n);
    assert(segs == prev_segs + ls);
    assert(owner.len() == m + ls.len());
    if j == 0 {
        lemma_pushed_prefix(sb, lines, owner, segs, prev_owner, prev_segs, m);
    } else {
        lemma_pushed_line_rows(sb, lines, fw, cols, n, j - 1);
        lemma_lines_index(lines, n - 1);
        lemma_layout_segments_ok(line, cols, f);
        lemma_layout_covers(line, cols, f);
        let seg = ls[j - 1];
        assert(segs[m + j - 1] == seg);
        assert(owner[m + j - 1] == n - 1);
        assert(seg_part(line, seg) == line.subrange(seg.start, seg.end));
        let before = parts_of(line, ls.subrange(0, j - 1));
        assert(ls.subrange(0, j).drop_last() =~= ls.subrange(0, j - 1));
        assert(parts_of(line, ls.subrange(0, j)) == before + line.subrange(seg.start, seg.end));
        let prev = pushed_scrollback(sb, lines, prev_owner, prev_segs, m);
        if j - 1 == 0 {
            assert(ls.subrange(0, 0) =~= Seq::<Seg>::empty());
            assert(before =~= Seq::<LogicalCell>::empty());
            assert(Seq::<LogicalCell>::empty() + line.subrange(seg.start, seg.end) =~= line.subrange(seg.start, seg.end));
        } else {
            let mid = if f { extended_scrollback(prev, before) } else { prev.push(before) };
            assert(mid.len() > 0);
            assert(mid.drop_last().push(mid.last() + line.subrange(seg.start, seg.end))
                =~= if f {
                extended_scrollback(prev, before + line.subrange(seg.start, seg.end))
            } else {
                prev.push(before + line.subrange(seg.start, seg.end))
            }) by {
                if f && prev.len() > 0 {
                    assert(prev.last() + before + line.subrange(seg.start, seg.end)
                        =~= prev.last() + (before + line.subrange(seg.start, seg.end)));
                }
            }
        }
    }
}

/// A reflow loses, repeats and reorders nothing: pushing every visual row of
/// the reflowed lines into the scrollback, as a resize pushes those that no
/// longer fit on the screen, gives back exactly the scrollback followed by
/// those lines. (`fw` is whether the first row continues a line that is not
/// in the scrollback, which happens only when the scrollback is empty.)
pub proof fn lemma_reflow_keeps_lines(sb: Seq<Seq<LogicalCell>>, lines: Seq<Seq<LogicalCell>>, fw: bool, cols: nat, n: int)
    requires
        lines_ok(lines),
        cols >= 1,
        0 <= n <= lines.len(),
        fw ==> sb.len() == 0,
    ensures
        pushed_scrollback(sb, lines, stream_owner(lines, fw, cols, n), stream_segs(lines, fw, cols, n),
            stream_segs(lines, fw, cols, n).len() as int) == sb + lines.subrange(0, n),
    decreases n,
{
    if n == 0 {
        assert(sb + lines.subrange(0, 0) =~= sb);
    } else {
        lemma_reflow_keeps_lines(sb, lines, fw, cols, n - 1);
        let f = n - 1 == 0 && fw;
        let line = lines[n - 1];
        let ls = layout_segments(line, cols, f);
        lemma_lines_index(lines, n - 1);
        lemma_layout_segments_ok(line, cols, f);
        lemma_layout_covers(line, cols, f);
        lemma_pushed_line_rows(sb, lines, fw, cols, n, ls.len() as int);
        assert(ls.subrange(0, ls.len() as int) =~= ls);
        lemma_stream_len(lines, fw, cols, n - 1);
        assert(stream_segs(lines, fw, cols, n).len() == stream_segs(lines, fw, cols, n - 1).len() + ls.len());
        if f {
            assert(n - 1 == 0);
            assert(stream_segs(lines, fw, cols, 0).len() == 0);
            assert(sb + lines.subrange(0, 0) =~= sb);
            assert(extended_scrollback(sb, line) =~= sb + lines.subrange(0, n));
        } else {
            assert((sb + lines.subrange(0, n - 1)).push(line) =~= sb + lines.subrange(0, n));
        }
    }
}

/// Resizing the main screen keeps its content: the rows the reflow lays out,
/// pushed in full after the scrollback the reflow starts from, give back that
/// scrollback followed by the screen's logical lines (the first one joined to
/// the scrollback line it continues). A resize moves the first of these rows
/// into the scrollback and keeps the rest on the screen.
pub proof fn lemma_resize_keeps_content(cells: Seq<Seq<Cell>>, wrapped: Seq<bool>, sb: Seq<Seq<LogicalCell>>, cols: nat)
    requires
        lines_ok(sb),
        cols >= 1,
    ensures
        ({
            let pre = joined_prefix(wrapped, sb);
            let base = if pre is Some { sb.drop_last() } else { sb };
            let ls = reflow_lines(cells, wrapped, pre);
            let segs = reflow_segs(cells, wrapped, pre, cols);
            pushed_scrollback(base, ls, reflow_owner(cells, wrapped, pre, cols), segs, segs.len() as int) == base + ls
        }),
{
    let pre = joined_prefix(wrapped, sb);
    if pre is Some {
        lemma_lines_index(sb, sb.len() - 1);
    }
    lemma_reflow_lines_ok(cells, wrapped, pre);
    let ls = reflow_lines(cells, wrapped, pre);
    let base = if pre is Some { sb.drop_last() } else { sb };
    lemma_reflow_keeps_lines(base, ls, first_continues(wrapped, pre), cols, ls.len() as int);
    assert(ls.subrange(0, ls.len() as int) =~= ls);
}

/// Whether a visual row holds the logical offset `off`.
pub open spec fn seg_has(s: Seg, off: int) -> bool {
    if s.start == s.end {
        off == s.start
    } else {
        s.start <= off <= s.end
    }
}

/// The first visual row from `g` on that belongs to line `li` and holds `off`.
pub open spec fn first_match(owner: Seq<int>, segs: Seq<Seg>, li: int, off: int, g: int) -> Option<int>
    decreases segs.len() - g,
{
    if g < 0 || g >= segs.len() {
        None
    } else if owner[g] == li && seg_has(segs[g], off) {
        Some(g)
    } else {
        first_match(owner, segs, li, off, g + 1)
    }
}

/// Where the cursor's cell sits among the reflowed lines: its line and its offset there.
pub open spec fn cursor_target(cells: Seq<Seq<Cell>>, wrapped: Seq<bool>, pre: Option<Seq<LogicalCell>>, cx: usize, cy: usize) -> Option<(int, int)> {
    if cy < cells.len() {
        let ls = reflow_lines(cells, wrapped, pre);
        let li = row_line(cells, wrapped, cy as int);
        let extra = match pre {
            Some(p) => if li == 0 { p.len() as int } else { 0 },
            None => 0,
        };
        let off = row_base(cells, wrapped, cy as int) + extra + offset_walk(cells[cy as int], cx as int, 0, 0);
        Some((li, clamp_len(off, ls[li].len() as int)))
    } else {
        None
    }
}

/// The reflowed screen rows: the last `rows` visual rows, padded with blank rows.
pub open spec fn reflow_grid(segs: Seq<Seg>, rows: nat, cols: nat) -> Seq<Seq<Cell>> {
    let vs = visible_start(segs.len() as int, rows);
    Seq::new(rows, |r: int| if vs + r < segs.len() { segs[vs + r].row } else { blank_row(cols) })
}

pub open spec fn reflow_flags(segs: Seq<Seg>, rows: nat) -> Seq<bool> {
    let vs = visible_start(segs.len() as int, rows);
    Seq::new(rows, |r: int| if vs + r < segs.len() { segs[vs + r].wrapped } else { false })
}

/// The cursor (x, y) after the reflow: on the visual row that holds its cell,
/// at that cell's display column; at the top-left when that row went into the
/// scrollback, and at the start of the last row when the cell is not found.
pub open spec fn reflow_cursor(
    lines: Seq<Seq<LogicalCell>>,
    owner: Seq<int>,
    segs: Seq<Seg>,
    target: Option<(int, int)>,
    rows: usize,
    cols: usize,
) -> (usize, usize) {
    let vs = visible_start(segs.len() as int, rows as nat);
    let last_row = if rows > 0 { rows - 1 } else { 0 };
    let last_col = if cols > 0 { cols - 1 } else { 0 };
    let found: Option<int> = match target {
        Some(t) => first_match(owner, segs, t.0, t.1, 0),
        None => None,
    };
    match found {
        None => (0, last_row as usize),
        Some(g) => if g >= vs {
            let s = segs[g];
            let line = lines[target.unwrap().0];
            let end = clamp_len(target.unwrap().1, s.end);
            let x = clamp_to(width_sum(line.subrange(clamp_len(s.start, line.len() as int), clamp_len(end, line.len() as int))), usize::MAX as int);
            (clamp_len(x, last_col) as usize, clamp_len(g - vs, last_row) as usize)
        } else {
            (0, 0)
        },
    }
}

/// The reflowed cursor lies on the new grid.
pub proof fn lemma_reflow_cursor_range(
    lines: Seq<Seq<LogicalCell>>,
    owner: Seq<int>,
    segs: Seq<Seg>,
    target: Option<(int, int)>,
    rows: usize,
    cols: usize,
)
    ensures
        ({
            let c = reflow_cursor(lines, owner, segs, target, rows, cols);
            &&& c.0 < cols || c.0 == 0
            &&& c.1 < rows || c.1 == 0
        }),
{
    let vs = visible_start(segs.len() as int, rows as nat);
    let found: Option<int> = match target {
        Some(t) => first_match(owner, segs, t.0, t.1, 0),
        None => None,
    };
    if let Some(g) = found {
        if g >= vs {
            let s = segs[g];
            let line = lines[target.unwrap().0];
            let end = clamp_len(target.unwrap().1, s.end);
            lemma_width_sum_nonneg(line.subrange(clamp_len(s.start, line.len() as int), clamp_len(end, line.len() as int)));
        }
    }
}

pub proof fn lemma_grid_lines_mono(cells: Seq<Seq<Cell>>, wrapped: Seq<bool>, k: int, n: int)
    requires
        0 <= k <= n,
    ensures
        grid_lines_upto(cells, wrapped, k).len() <= grid_lines_upto(cells, wrapped, n).len(),
    decreases n - k,
{
    if k < n {
        lemma_grid_lines_mono(cells, wrapped, k, n - 1);
        lemma_grid_lines_len(cells, wrapped, n - 1);
    }
}

/// Every visual row of the stream is `cols` wide and shows a range of its own line's cells.
pub open spec fn stream_ok(lines: Seq<Seq<LogicalCell>>, owner: Seq<int>, segs: Seq<Seg>, cols: nat, n: int) -> bool {
    &&& owner.len() == segs.len()
    &&& forall|i: int| 0 <= i < segs.len() ==> 0 <= #[trigger] owner[i] < n
    &&& forall|i: int| 0 <= i < segs.len() ==> (#[trigger] segs[i]).row.len() == cols
        && 0 <= segs[i].start <= segs[i].end <= lines[owner[i]].len()
}

pub proof fn lemma_stream_ok(lines: Seq<Seq<LogicalCell>>, fw: bool, cols: nat, n: int)
    requires
        lines_ok(lines),
        0 <= n <= lines.len(),
    ensures
        stream_ok(lines, stream_owner(lines, fw, cols, n), stream_segs(lines, fw, cols, n), cols, n),
    decreases n,
{
    lemma_stream_len(lines, fw, cols, n);
    if n > 0 {
        lemma_stream_ok(lines, fw, cols, n - 1);
        reveal(lines_ok);
        let line = lines[n - 1];
        assert(widths_ok(line));
        lemma_layout_segments_ok(line, cols, n - 1 == 0 && fw);
        let o = stream_owner(lines, fw, cols, n);
        let sg = stream_segs(lines, fw, cols, n);
        let po = stream_owner(lines, fw, cols, n - 1);
        let ps = stream_segs(lines, fw, cols, n - 1);
        let part = layout_segments(line, cols, n - 1 == 0 && fw);
        assert forall|i: int| 0 <= i < sg.len() implies (#[trigger] sg[i]).row.len() == cols
            && 0 <= sg[i].start <= sg[i].end <= lines[o[i]].len() by {
            if i < ps.len() {
                assert(sg[i] == ps[i]);
                assert(o[i] == po[i]);
            } else {
                assert(sg[i] == part[i - ps.len()]);
                assert(o[i] == n - 1);
            }
        }
    }
}

/// The reflowed lines keep cells one or two columns wide.
pub proof fn lemma_reflow_lines_ok(cells: Seq<Seq<Cell>>, wrapped: Seq<bool>, pre: Option<Seq<LogicalCell>>)
    requires
        pre matches Some(p) ==> widths_ok(p),
    ensures
        lines_ok(reflow_lines(cells, wrapped, pre)),
{
    lemma_grid_lines_widths(cells, wrapped, cells.len() as int);
    let ls = grid_lines_upto(cells, wrapped, cells.len() as int);
    reveal(lines_ok);
    match pre {
        Some(p) => {
            let out = reflow_lines(cells, wrapped, pre);
            if ls.len() > 0 {
                let l = p + ls[0];
                assert(widths_ok(ls[0]));
                assert forall|j: int| 0 <= j < l.len() implies 1 <= #[trigger] l[j].width <= 2 by {
                    if j < p.len() {
                        assert(l[j] == p[j]);
                    } else {
                        assert(l[j] == ls[0][j - p.len()]);
                    }
                }
                assert forall|i: int| 0 <= i < out.len() implies widths_ok(#[trigger] out[i]) by {
                    if i > 0 {
                        assert(out[i] == ls[i]);
                    }
                }
            } else {
                assert forall|i: int| 0 <= i < out.len() implies widths_ok(#[trigger] out[i]) by {
                    assert(out[i] == p);
                }
            }
        },
        None => {},
    }
}

/// The reflow's results apart from the scrollback: the lines, their visual
/// rows (and owners), the first visible row, the new grid and the cursor.
pub struct ReflowPlan {
    pub lines: Vec<LogicalLine>,
    pub owner: Vec<usize>,
    pub segs: Vec<VisualSegment>,
    pub visible_start: usize,
    pub cells: Vec<Vec<Cell>>,
    pub wrapped: Vec<bool>,
    pub cursor_x: usize,
    pub cursor_y: usize,
}

pub open spec fn owner_ints(o: Seq<usize>) -> Seq<int> {
    o.map_values(|u: usize| u as int)
}

pub open spec fn prefix_view(prefix: Option<LogicalLine>) -> Option<Seq<LogicalCell>> {
    match prefix {
        Some(l) => Some(l.cells@),
        None => None,
    }
}

/// Copy a row of cells.
pub fn copy_row(row: &Vec<Cell>) -> (r: Vec<Cell>)
    ensures
        r@ == row@,
{
    let mut out: Vec<Cell> = Vec::new();
    let mut i: usize = 0;
    while i < row.len()
        invariant
            i <= row@.len(),
            out@ == row@.subrange(0, i as int),
        decreases row@.len() - i,
    {
        out.push(row[i]);
        assert(row@.subrange(0, i + 1) =~= row@.subrange(0, i as int).push(row@[i as int]));
        i = i + 1;
    }
    assert(row@.subrange(0, row@.len() as int) =~= row@);
    out
}

pub proof fn lemma_first_match(owner: Seq<int>, segs: Seq<Seg>, li: int, off: int, g: int)
    ensures
        first_match(owner, segs, li, off, g) matches Some(x) ==> g <= x < segs.len() && owner[x] == li && seg_has(segs[x], off),
    decreases segs.len() - g,
{
    if 0 <= g < segs.len() && !(owner[g] == li && seg_has(segs[g], off)) {
        lemma_first_match(owner, segs, li, off, g + 1);
    }
}

/// No visual row before the one `first_match` finds holds the offset.
proof fn lemma_first_match_first(owner: Seq<int>, segs: Seq<Seg>, li: int, off: int, g: int)
    requires
        0 <= g,
    ensures
        first_match(owner, segs, li, off, g) matches Some(x) ==> forall|h: int|
            g <= h < x ==> !(owner[h] == li && #[trigger] seg_has(segs[h], off)),
    decreases segs.len() - g,
{
    if 0 <= g < segs.len() && !(owner[g] == li && seg_has(segs[g], off)) {
        lemma_first_match_first(owner, segs, li, off, g + 1);
    }
}

/// A prefix of a run of cells is never wider than the run.
proof fn lemma_width_sum_take(cells: Seq<LogicalCell>, k: int)
    requires
        0 <= k <= cells.len(),
    ensures
        0 <= width_sum(cells.take(k)) <= width_sum(cells),
    decreases cells.len(),
{
    if k == cells.len() {
        assert(cells.take(k) =~= cells);
        lemma_width_sum_nonneg(cells);
    } else {
        lemma_width_sum_take(cells.drop_last(), k);
        assert(cells.drop_last().take(k) =~= cells.take(k));
    }
}

/// After a reflow the cursor stands on the first visual row of its line that
/// holds its cell, at the display width of the cells that row shows before
/// the cell (capped at the last column); that column never passes the width
/// of what the row shows. A row that went into the scrollback puts the cursor
/// at the top-left; a cell found on no row puts it at the start of the last row.
pub proof fn lemma_reflow_cursor_on_its_cell(
    lines: Seq<Seq<LogicalCell>>,
    owner: Seq<int>,
    segs: Seq<Seg>,
    li: int,
    off: int,
    rows: usize,
    cols: usize,
)
    requires
        stream_ok(lines, owner, segs, cols as nat, lines.len() as int),
        0 <= li < lines.len(),
        rows >= 1,
        cols >= 1,
    ensures
        ({
            let c = reflow_cursor(lines, owner, segs, Some((li, off)), rows, cols);
            let vs = visible_start(segs.len() as int, rows as nat);
            match first_match(owner, segs, li, off, 0) {
                Some(g) => {
                    let s = segs[g];
                    let shown = seg_part(lines[li], s);
                    let before = width_sum(shown.take(off - s.start));
                    &&& owner[g] == li && s.start <= off <= s.end
                    &&& forall|h: int| 0 <= h < g ==> !(owner[h] == li && #[trigger] seg_has(segs[h], off))
                    &&& 0 <= before <= width_sum(shown)
                    &&& g >= vs ==> c == ((if before < cols - 1 { before } else { cols - 1 }) as usize, (g - vs) as usize)
                    &&& g >= vs ==> g - vs < rows
                    &&& g < vs ==> c == (0usize, 0usize)
                },
                None => c == (0usize, (rows - 1) as usize),
            }
        }),
{
    lemma_first_match(owner, segs, li, off, 0);
    lemma_first_match_first(owner, segs, li, off, 0);
    if let Some(g) = first_match(owner, segs, li, off, 0) {
        let s = segs[g];
        let line = lines[li];
        assert(0 <= s.start <= s.end <= line.len());
        assert(s.start <= off <= s.end) by {
            if s.start == s.end {
                assert(off == s.start);
            }
        }
        let shown = seg_part(line, s);
        assert(shown =~= line.subrange(s.start, s.end));
        assert(shown.take(off - s.start) =~= line.subrange(s.start, off));
        lemma_width_sum_take(shown, off - s.start);
    }
}

/// The first visual row of line `li` that holds offset `off`.
pub fn find_segment(owner: &Vec<usize>, segs: &Vec<VisualSegment>, li: usize, off: usize) -> (r: Option<usize>)
    requires
        owner@.len() == segs@.len(),
    ensures
        match r {
            Some(g) => first_match(owner_ints(owner@), seg_views(segs@), li as int, off as int, 0) == Some(g as int),
            None => first_match(owner_ints(owner@), seg_views(segs@), li as int, off as int, 0) is None,
        },
{
    let ghost o = owner_ints(owner@);
    let ghost sv = seg_views(segs@);
    let mut g: usize = 0;
    while g < segs.len()
        invariant
            owner@.len() == segs@.len(),
            o == owner_ints(owner@),
            sv == seg_views(segs@),
            g <= segs@.len(),
            first_match(o, sv, li as int, off as int, 0) == first_match(o, sv, li as int, off as int, g as int),
        decreases segs@.len() - g,
    {
        proof {
            assert(o[g as int] == owner@[g as int] as int);
            assert(sv[g as int] == segs@[g as int]@);
        }
        let s = &segs[g];
        let has = if s.start == s.end { off == s.start } else { s.start <= off && off <= s.end };
        if owner[g] == li && has {
            return Some(g);
        }
        g = g + 1;
    }
    None
}

/// The grid's lines, joined after `prefix`; with each row's line and offset,
/// and the prefix's length.
pub fn joined_lines(old_cells: &Vec<Vec<Cell>>, old_wrapped: &Vec<bool>, prefix: Option<LogicalLine>)
    -> (r: (Vec<LogicalLine>, Vec<usize>, Vec<usize>, usize))
    requires
        old_wrapped@.len() == old_cells@.len(),
    ensures
        line_views(r.0@) == reflow_lines(row_views(old_cells@), old_wrapped@, prefix_view(prefix)),
        r.1@.len() == old_cells@.len(),
        r.2@.len() == old_cells@.len(),
        forall|k: int| 0 <= k < old_cells@.len() ==> #[trigger] r.1@[k] == row_line(row_views(old_cells@), old_wrapped@, k),
        forall|k: int| 0 <= k < old_cells@.len() ==> #[trigger] r.2@[k] == row_base(row_views(old_cells@), old_wrapped@, k),
        prefix matches Some(l) ==> r.3 == l.cells@.len(),
{
    let ghost g = row_views(old_cells@);
    let ghost w = old_wrapped@;
    let ghost n = old_cells@.len() as int;
    let ghost gl = grid_lines_upto(g, w, n);
    let (mut lines, row_line_of, row_base_of) = grid_logical_lines(old_cells, old_wrapped);
    let mut prefix_len: usize = 0;
    match prefix {
        Some(p) => {
            prefix_len = p.cells.len();
            if lines.len() > 0 {
                let first = lines.remove(0);
                let mut comb = p.cells;
                append_cells(&mut comb, &first.cells);
                let ghost cv = comb@;
                lines.insert(0, LogicalLine { cells: comb });
                proof {
                    assert(line_views(lines@) =~= gl.update(0, cv));
                }
            } else {
                let ghost pc = p.cells@;
                lines.push(p);
                proof {
                    assert(line_views(lines@) =~= gl.push(pc));
                }
            }
        },
        None => {},
    }
    (lines, row_line_of, row_base_of, prefix_len)
}

/// The cursor's line and offset among the reflowed lines.
pub fn cursor_target_of(
    old_cells: &Vec<Vec<Cell>>,
    old_wrapped: &Vec<bool>,
    prefix: &Option<LogicalLine>,
    lines: &Vec<LogicalLine>,
    row_line_of: &Vec<usize>,
    row_base_of: &Vec<usize>,
    prefix_len: usize,
    cx: usize,
    cy: usize,
) -> (r: Option<(usize, usize)>)
    requires
        old_wrapped@.len() == old_cells@.len(),
        line_views(lines@) == reflow_lines(row_views(old_cells@), old_wrapped@, prefix_view(*prefix)),
        row_line_of@.len() == old_cells@.len(),
        row_base_of@.len() == old_cells@.len(),
        forall|k: int| 0 <= k < old_cells@.len() ==> #[trigger] row_line_of@[k] == row_line(row_views(old_cells@), old_wrapped@, k),
        forall|k: int| 0 <= k < old_cells@.len() ==> #[trigger] row_base_of@[k] == row_base(row_views(old_cells@), old_wrapped@, k),
        prefix matches Some(l) ==> prefix_len == l.cells@.len(),
    ensures
        match r {
            Some(t) => cursor_target(row_views(old_cells@), old_wrapped@, prefix_view(*prefix), cx, cy) == Some((t.0 as int, t.1 as int))
                && (t.0 as int) < lines@.len(),
            None => cursor_target(row_views(old_cells@), old_wrapped@, prefix_view(*prefix), cx, cy) is None,
        },
{
    let ghost g = row_views(old_cells@);
    let ghost w = old_wrapped@;
    let ghost n = old_cells@.len() as int;
    let ghost pre = prefix_view(*prefix);
    let ghost ls = reflow_lines(g, w, pre);
    if cy >= old_cells.len() {
        return None;
    }
    proof {
        lemma_grid_lines_mono(g, w, cy + 1, n);
        lemma_grid_lines_len(g, w, cy + 1);
        lemma_grid_lines_len(g, w, n);
        assert(g[cy as int] == old_cells@[cy as int]@);
    }
    let li = row_line_of[cy];
    let joined = prefix.is_some();
    let extra = if joined && li == 0 { prefix_len } else { 0 };
    let walked = row_logical_offset_for_display_col(&old_cells[cy], cx);
    let off = row_base_of[cy].saturating_add(extra).saturating_add(walked);
    proof {
        let gl = grid_lines_upto(g, w, n);
        assert(li as int == grid_lines_upto(g, w, cy + 1).len() - 1);
        assert(ls.len() >= gl.len()) by {
            match pre {
                Some(pp) => {},
                None => {},
            }
        }
        assert(line_views(lines@).len() == lines@.len());
        assert(lines@[li as int].cells@ == ls[li as int]);
    }
    let len = lines[li].cells.len();
    Some((li, if off < len { off } else { len }))
}

/// The screen rows of a reflow: the last `rows` visual rows, padded with blank rows.
pub fn reflow_rows(segs: &Vec<VisualSegment>, rows: usize, cols: usize) -> (r: (Vec<Vec<Cell>>, Vec<bool>))
    ensures
        row_views(r.0@) == reflow_grid(seg_views(segs@), rows as nat, cols as nat),
        r.1@ == reflow_flags(seg_views(segs@), rows as nat),
{
    let ghost sv = seg_views(segs@);
    let total = segs.len();
    let vs = total.saturating_sub(rows);
    let mut new_cells: Vec<Vec<Cell>> = Vec::new();
    let mut new_wrapped: Vec<bool> = Vec::new();
    let ghost grid = reflow_grid(sv, rows as nat, cols as nat);
    let ghost flags = reflow_flags(sv, rows as nat);
    let mut r: usize = 0;
    while r < rows
        invariant
            r <= rows,
            total == sv.len(),
            sv == seg_views(segs@),
            vs == visible_start(sv.len() as int, rows as nat),
            grid == reflow_grid(sv, rows as nat, cols as nat),
            flags == reflow_flags(sv, rows as nat),
            row_views(new_cells@) == grid.take(r as int),
            new_wrapped@ == flags.take(r as int),
        decreases rows - r,
    {
        let ghost bc = new_cells@;
        if r < total - vs {
            proof {
                assert(sv[vs + r] == segs@[vs + r]@);
            }
            let row = copy_row(&segs[vs + r].row);
            assert(row@ == grid[r as int]);
            new_cells.push(row);
            new_wrapped.push(segs[vs + r].wrapped);
        } else {
            let row = make_blank_row(cols);
            assert(row@ == grid[r as int]);
            new_cells.push(row);
            new_wrapped.push(false);
        }
        proof {
            assert(row_views(new_cells@) =~= row_views(bc).push(grid[r as int]));
            assert(row_views(new_cells@) =~= grid.take(r + 1));
            assert(new_wrapped@ =~= flags.take(r + 1));
        }
        r = r + 1;
    }
    proof {
        assert(grid.take(rows as int) =~= grid);
        assert(flags.take(rows as int) =~= flags);
    }
    (new_cells, new_wrapped)
}

/// The cursor's place after the reflow (see `reflow_cursor`).
pub fn reflow_cursor_of(
    lines: &Vec<LogicalLine>,
    owner: &Vec<usize>,
    segs: &Vec<VisualSegment>,
    target: Option<(usize, usize)>,
    rows: usize,
    cols: usize,
) -> (r: (usize, usize))
    requires
        owner@.len() == segs@.len(),
        stream_ok(line_views(lines@), owner_ints(owner@), seg_views(segs@), cols as nat, lines@.len() as int),
        target matches Some(t) ==> (t.0 as int) < lines@.len(),
    ensures
        r == reflow_cursor(line_views(lines@), owner_ints(owner@), seg_views(segs@),
            match target { Some(t) => Some((t.0 as int, t.1 as int)), None => None }, rows, cols),
{
    let ghost ls = line_views(lines@);
    let ghost sv = seg_views(segs@);
    let ghost ov = owner_ints(owner@);
    let vs = segs.len().saturating_sub(rows);
    let last_col = if cols > 0 { cols - 1 } else { 0 };
    let last_row = if rows > 0 { rows - 1 } else { 0 };
    match target {
        None => (0, last_row),
        Some(t) => {
            let (t_line, t_off) = t;
            match find_segment(owner, segs, t_line, t_off) {
                None => (0, last_row),
                Some(gi) => {
                    proof {
                        lemma_first_match(ov, sv, t_line as int, t_off as int, 0);
                    }
                    if gi >= vs {
                        proof {
                            assert(sv[gi as int] == segs@[gi as int]@);
                            assert(lines@[t_line as int].cells@ == ls[t_line as int]);
                        }
                        let s_start = segs[gi].start;
                        let s_end = segs[gi].end;
                        let end = if t_off < s_end { t_off } else { s_end };
                        let x = logical_display_col(&lines[t_line].cells, s_start, end);
                        (if x < last_col { x } else { last_col }, if gi - vs < last_row { gi - vs } else { last_row })
                    } else {
                        (0, 0)
                    }
                },
            }
        },
    }
}

/// Lay the grid (joined after `prefix`, the line its first row continues)
/// out again `cols` wide, keep the last `rows` visual rows on the screen and
/// find the cursor's new place.
pub fn reflow_layout(
    old_cells: &Vec<Vec<Cell>>,
    old_wrapped: &Vec<bool>,
    prefix: Option<LogicalLine>,
    cx: usize,
    cy: usize,
    rows: usize,
    cols: usize,
) -> (p: ReflowPlan)
    requires
        old_wrapped@.len() == old_cells@.len(),
        prefix matches Some(l) ==> widths_ok(l.cells@),
    ensures
        ({
            let g = row_views(old_cells@);
            let w = old_wrapped@;
            let pre = prefix_view(prefix);
            let ls = reflow_lines(g, w, pre);
            let segs = reflow_segs(g, w, pre, cols as nat);
            let owner = reflow_owner(g, w, pre, cols as nat);
            &&& line_views(p.lines@) == ls
            &&& owner_ints(p.owner@) == owner
            &&& seg_views(p.segs@) == segs
            &&& p.visible_start == visible_start(segs.len() as int, rows as nat)
            &&& row_views(p.cells@) == reflow_grid(segs, rows as nat, cols as nat)
            &&& p.wrapped@ == reflow_flags(segs, rows as nat)
            &&& (p.cursor_x, p.cursor_y) == reflow_cursor(ls, owner, segs, cursor_target(g, w, pre, cx, cy), rows, cols)
            &&& lines_ok(ls)
            &&& stream_ok(ls, owner, segs, cols as nat, ls.len() as int)
        }),
{
    let ghost g = row_views(old_cells@);
    let ghost w = old_wrapped@;
    let ghost pre = prefix_view(prefix);
    let ghost ls = reflow_lines(g, w, pre);
    let fw = old_wrapped.len() > 0 && old_wrapped[0] && prefix.is_none();
    let joined_prefix = match &prefix {
        Some(l) => Some(LogicalLine { cells: copy_cells(&l.cells) }),
        None => None,
    };
    let (lines, row_line_of, row_base_of, prefix_len) = joined_lines(old_cells, old_wrapped, prefix);
    proof {
        lemma_reflow_lines_ok(g, w, pre);
    }
    let target = cursor_target_of(old_cells, old_wrapped, &joined_prefix, &lines, &row_line_of, &row_base_of, prefix_len, cx, cy);
    let (owner, segs) = build_stream(&lines, fw, cols);
    proof {
        assert(fw == first_continues(w, pre));
        lemma_stream_ok(ls, fw, cols as nat, ls.len() as int);
        lemma_stream_len(ls, fw, cols as nat, ls.len() as int);
        assert(owner_ints(owner@) =~= reflow_owner(g, w, pre, cols as nat));
    }
    let vs = segs.len().saturating_sub(rows);
    let (new_cells, new_wrapped) = reflow_rows(&segs, rows, cols);
    let (cur_x, cur_y) = reflow_cursor_of(&lines, &owner, &segs, target, rows, cols);
    ReflowPlan {
        lines,
        owner,
        segs,
        visible_start: vs,
        cells: new_cells,
        wrapped: new_wrapped,
        cursor_x: cur_x,
        cursor_y: cur_y,
    }
}

/// Copy a run of logical cells.
pub fn copy_cells(src: &Vec<LogicalCell>) -> (r: Vec<LogicalCell>)
    ensures
        r@ == src@,
{
    let mut out: Vec<LogicalCell> = Vec::new();
    append_cells(&mut out, src);
    assert(out@ =~= src@);
    out
}

/// A grid reflowed at a new size, with the scrollback it leaves and the cursor.
pub struct MainReflow {
    pub cells: Seq<Seq<Cell>>,
    pub wrapped: Seq<bool>,
    pub scrollback: Seq<Seq<LogicalCell>>,
    pub cursor_x: usize,
    pub cursor_y: usize,
}

/// Reflow a main-screen grid to `rows` x `cols`: its rows become logical lines
/// again (joined to the newest scrollback line when the first row continues
/// it), are laid out at the new width, and the visual rows above the last
/// `rows` go to the scrollback (trimmed to `limit` lines when any were added).
pub open spec fn reflow_main(
    cells: Seq<Seq<Cell>>,
    wrapped: Seq<bool>,
    sb: Seq<Seq<LogicalCell>>,
    limit: usize,
    cx: usize,
    cy: usize,
    rows: usize,
    cols: usize,
) -> MainReflow {
    let pre = joined_prefix(wrapped, sb);
    let base = if pre is Some { sb.drop_last() } else { sb };
    let ls = reflow_lines(cells, wrapped, pre);
    let segs = reflow_segs(cells, wrapped, pre, cols as nat);
    let owner = reflow_owner(cells, wrapped, pre, cols as nat);
    let vs = visible_start(segs.len() as int, rows as nat);
    let pushed = pushed_scrollback(base, ls, owner, segs, vs);
    let cur = reflow_cursor(ls, owner, segs, cursor_target(cells, wrapped, pre, cx, cy), rows, cols);
    MainReflow {
        cells: reflow_grid(segs, rows as nat, cols as nat),
        wrapped: reflow_flags(segs, rows as nat),
        scrollback: if vs > 0 { trim_front(pushed, limit) } else { pushed },
        cursor_x: cur.0,
        cursor_y: cur.1,
    }
}

/// Moving visual rows into the scrollback keeps its lines well formed.
pub proof fn lemma_pushed_ok(sb: Seq<Seq<LogicalCell>>, lines: Seq<Seq<LogicalCell>>, owner: Seq<int>, segs: Seq<Seg>, k: int)
    requires
        lines_ok(sb),
        lines_ok(lines),
        k <= segs.len(),
        owner.len() == segs.len(),
        forall|i: int| 0 <= i < segs.len() ==> 0 <= #[trigger] owner[i] < lines.len(),
        forall|i: int| 0 <= i < segs.len() ==> 0 <= (#[trigger] segs[i]).start <= segs[i].end,
    ensures
        lines_ok(pushed_scrollback(sb, lines, owner, segs, k)),
    decreases k,
{
    if k > 0 {
        lemma_pushed_ok(sb, lines, owner, segs, k - 1);
        let s0 = pushed_scrollback(sb, lines, owner, segs, k - 1);
        let line = lines[owner[k - 1]];
        let part = seg_part(line, segs[k - 1]);
        lemma_lines_index(lines, owner[k - 1]);
        let a = clamp_len(segs[k - 1].start, line.len() as int);
        let b = clamp_len(segs[k - 1].end, line.len() as int);
        assert(0 <= a <= b <= line.len());
        assert(widths_ok(part)) by {
            assert forall|j: int| 0 <= j < part.len() implies 1 <= #[trigger] part[j].width <= 2 by {
                assert(part[j] == line[a + j]);
            }
        }
        lemma_lines_push(s0, part);
    }
}

/// The grid's rows are all `cols` wide after a reflow.
pub proof fn lemma_reflow_grid_ok(segs: Seq<Seg>, rows: nat, cols: nat)
    requires
        forall|i: int| 0 <= i < segs.len() ==> (#[trigger] segs[i]).row.len() == cols,
    ensures
        grid_ok(reflow_grid(segs, rows, cols), rows as int, cols as int),
        reflow_flags(segs, rows).len() == rows,
{
    let gr = reflow_grid(segs, rows, cols);
    let vs = visible_start(segs.len() as int, rows);
    assert forall|r: int| 0 <= r < gr.len() implies (#[trigger] gr[r]).len() == cols by {
        if vs + r < segs.len() {
            assert(gr[r] == segs[vs + r].row);
        }
    }
    lemma_grid_intro(gr, cols as int);
}

/// The cells of a visual row, cut from its line.
pub fn seg_part_of(line: &Vec<LogicalCell>, start: usize, end: usize) -> (r: Vec<LogicalCell>)
    requires
        start <= end,
    ensures
        r@ == line@.subrange(clamp_len(start as int, line@.len() as int), clamp_len(end as int, line@.len() as int)),
{
    let n = line.len();
    let s = if start < n { start } else { n };
    let e = if end < n { end } else { n };
    let mut out: Vec<LogicalCell> = Vec::new();
    let mut i = s;
    while i < e
        invariant
            s <= i <= e,
            e <= line@.len(),
            out@ == line@.subrange(s as int, i as int),
        decreases e - i,
    {
        out.push(line[i]);
        assert(line@.subrange(s as int, i + 1) =~= line@.subrange(s as int, i as int).push(line@[i as int]));
        i = i + 1;
    }
    out
}

/// A row cut or padded to exactly `cols` cells (for the alternate screen,
/// which its program repaints after a resize). A wide character cut in half
/// at the new edge is blanked, and so is a continuation slot left at the start.
pub open spec fn exact_row(src: Seq<Cell>, cols: nat) -> Seq<Cell> {
    let n = if cols < src.len() { cols as int } else { src.len() as int };
    let r1 = Seq::new(cols, |i: int| if i < n { src[i] } else { blank_cell() });
    let r2 = if n < src.len() && n > 0 && src[n].wide_continuation { r1.update(n - 1, blank_cell()) } else { r1 };
    if cols > 0 && r2[0].wide_continuation {
        r2.update(0, blank_cell())
    } else {
        r2
    }
}

/// The alternate screen at a new size: old rows cut or padded, new rows blank.
pub open spec fn exact_grid(cells: Seq<Seq<Cell>>, old_rows: nat, rows: nat, cols: nat) -> Seq<Seq<Cell>> {
    Seq::new(rows, |r: int| if r < old_rows { exact_row(cells[r], cols) } else { blank_row(cols) })
}

/// Wrap flags kept for the rows that stay, cleared for new rows.
pub open spec fn resized_flags(w: Seq<bool>, rows: nat) -> Seq<bool> {
    Seq::new(rows, |r: int| if r < w.len() { w[r] } else { false })
}

/// Resize a row to exactly `cols` cells, keeping wide characters whole.
pub fn resize_row_exact_preserving_wide(src: &[Cell], cols: usize) -> (row: Vec<Cell>)
    ensures
        row@ == exact_row(src@, cols as nat),
{
    let mut row = make_blank_row(cols);
    if cols == 0 {
        proof {
            assert(row@ =~= exact_row(src@, cols as nat));
        }
        return row;
    }
    let copy_len = if cols < src.len() { cols } else { src.len() };
    let mut i: usize = 0;
    while i < copy_len
        invariant
            i <= copy_len,
            copy_len <= cols,
            copy_len <= src@.len(),
            row@ == Seq::new(cols as nat, |j: int| if j < i { src@[j] } else { blank_cell() }),
        decreases copy_len - i,
    {
        row.set(i, src[i]);
        assert(row@ =~= Seq::new(cols as nat, |j: int| if j < i + 1 { src@[j] } else { blank_cell() }));
        i = i + 1;
    }
    // A wide character cut between its leader and its continuation slot:
    // drop the dangling leader so that columns do not drift.
    if copy_len < src.len() && copy_len > 0 && src[copy_len].wide_continuation {
        row.set(copy_len - 1, Cell::default());
    }
    if row[0].wide_continuation {
        row.set(0, Cell::default());
    }
    row
}

/// The alternate screen's grid at a new size.
pub fn resize_grid_exact(cells: &Vec<Vec<Cell>>, old_rows: usize, rows: usize, cols: usize) -> (g: Vec<Vec<Cell>>)
    requires
        old_rows <= cells@.len(),
    ensures
        row_views(g@) == exact_grid(row_views(cells@), old_rows as nat, rows as nat, cols as nat),
        grid_ok(row_views(g@), rows as int, cols as int),
{
    let ghost target = exact_grid(row_views(cells@), old_rows as nat, rows as nat, cols as nat);
    let mut g: Vec<Vec<Cell>> = Vec::new();
    let mut r: usize = 0;
    while r < rows
        invariant
            r <= rows,
            old_rows <= cells@.len(),
            target == exact_grid(row_views(cells@), old_rows as nat, rows as nat, cols as nat),
            row_views(g@) == target.take(r as int),
        decreases rows - r,
    {
        let ghost before = g@;
        let row = if r < old_rows {
            resize_row_exact_preserving_wide(cells[r].as_slice(), cols)
        } else {
            make_blank_row(cols)
        };
        assert(row@ == target[r as int]);
        g.push(row);
        assert(row_views(g@) =~= row_views(before).push(target[r as int]));
        assert(row_views(g@) =~= target.take(r + 1));
        r = r + 1;
    }
    assert(target.take(rows as int) =~= target);
    proof {
        assert forall|k: int| 0 <= k < target.len() implies (#[trigger] target[k]).len() == cols by {}
        lemma_grid_intro(target, cols as int);
    }
    g
}

/// Wrap flags for `rows` rows: those kept stay, new ones are cleared.
pub fn resize_flags(w: &Vec<bool>, rows: usize) -> (r: Vec<bool>)
    ensures
        r@ == resized_flags(w@, rows as nat),
{
    let mut out: Vec<bool> = Vec::new();
    let mut i: usize = 0;
    while i < rows
        invariant
            i <= rows,
            out@ == resized_flags(w@, rows as nat).take(i as int),
        decreases rows - i,
    {
        out.push(if i < w.len() { w[i] } else { false });
        assert(out@ =~= resized_flags(w@, rows as nat).take(i + 1));
        i = i + 1;
    }
    assert(resized_flags(w@, rows as nat).take(rows as int) =~= resized_flags(w@, rows as nat));
    out
}

} // verus!
