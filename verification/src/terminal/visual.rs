//! The visual layout of the scrollback: every logical line laid out at the
//! terminal width, one after another.

use vstd::prelude::*;

use crate::terminal::cells::{widths_ok, Cell, LogicalCell, LogicalLine, Seg, VisualSegment};
use crate::terminal::layout::{layout_logical_line_segments, layout_segments, lemma_layout_segments_ok, row_views, seg_views};

verus! {

/// The logical lines of a scrollback buffer.
pub open spec fn line_views(sb: Seq<LogicalLine>) -> Seq<Seq<LogicalCell>> {
    sb.map_values(|l: LogicalLine| l.cells@)
}

pub open spec fn seg_rows(s: Seq<Seg>) -> Seq<Seq<Cell>> {
    s.map_values(|g: Seg| g.row)
}

pub open spec fn seg_flags(s: Seq<Seg>) -> Seq<bool> {
    s.map_values(|g: Seg| g.wrapped)
}

/// The scrollback with `cells` added to its last line (or as a first line).
pub open spec fn extended_scrollback(sb: Seq<Seq<LogicalCell>>, cells: Seq<LogicalCell>) -> Seq<Seq<LogicalCell>> {
    if sb.len() == 0 {
        sb.push(cells)
    } else {
        sb.drop_last().push(sb.last() + cells)
    }
}

/// The scrollback after dropping its oldest lines beyond `limit`.
pub open spec fn trim_front(sb: Seq<Seq<LogicalCell>>, limit: usize) -> Seq<Seq<LogicalCell>> {
    if sb.len() > limit {
        sb.subrange(sb.len() - limit, sb.len() as int)
    } else {
        sb
    }
}

/// Every cell of every line is one or two columns wide.
#[verifier::opaque]
pub open spec fn lines_ok(sb: Seq<Seq<LogicalCell>>) -> bool {
    forall|i: int| 0 <= i < sb.len() ==> widths_ok(#[trigger] sb[i])
}

pub proof fn lemma_lines_empty()
    ensures
        lines_ok(seq![]),
{
    reveal(lines_ok);
}

pub proof fn lemma_lines_push(sb: Seq<Seq<LogicalCell>>, l: Seq<LogicalCell>)
    requires
        lines_ok(sb),
        widths_ok(l),
    ensures
        lines_ok(sb.push(l)),
        lines_ok(extended_scrollback(sb, l)),
{
    reveal(lines_ok);
    assert forall|i: int| 0 <= i < sb.push(l).len() implies widths_ok(#[trigger] sb.push(l)[i]) by {
        if i < sb.len() {
            assert(sb.push(l)[i] == sb[i]);
        }
    }
    if sb.len() > 0 {
        let e = extended_scrollback(sb, l);
        let last = sb.last() + l;
        assert(widths_ok(sb[sb.len() - 1]));
        assert forall|j: int| 0 <= j < last.len() implies 1 <= #[trigger] last[j].width <= 2 by {
            if j < sb.last().len() {
                assert(last[j] == sb.last()[j]);
            } else {
                assert(last[j] == l[j - sb.last().len()]);
            }
        }
        assert forall|i: int| 0 <= i < e.len() implies widths_ok(#[trigger] e[i]) by {
            if i < sb.len() - 1 {
                assert(e[i] == sb[i]);
            } else {
                assert(e[i] == last);
            }
        }
    }
}

pub proof fn lemma_lines_subrange(sb: Seq<Seq<LogicalCell>>, i: int, j: int)
    requires
        lines_ok(sb),
        0 <= i <= j <= sb.len(),
    ensures
        lines_ok(sb.subrange(i, j)),
{
    reveal(lines_ok);
    assert forall|k: int| 0 <= k < sb.subrange(i, j).len() implies widths_ok(#[trigger] sb.subrange(i, j)[k]) by {
        assert(sb.subrange(i, j)[k] == sb[i + k]);
    }
}

pub proof fn lemma_lines_trim(sb: Seq<Seq<LogicalCell>>, limit: usize)
    requires
        lines_ok(sb),
    ensures
        lines_ok(trim_front(sb, limit)),
{
    reveal(lines_ok);
    let t = trim_front(sb, limit);
    assert forall|k: int| 0 <= k < t.len() implies widths_ok(#[trigger] t[k]) by {
        if sb.len() > limit {
            assert(t[k] == sb[k + sb.len() - limit]);
        }
    }
}

pub proof fn lemma_lines_index(sb: Seq<Seq<LogicalCell>>, i: int)
    requires
        lines_ok(sb),
        0 <= i < sb.len(),
    ensures
        widths_ok(sb[i]),
{
    reveal(lines_ok);
}

/// The visual rows of one logical scrollback line at width `cols`.
pub open spec fn line_rows(line: Seq<LogicalCell>, cols: nat) -> Seq<Seq<Cell>> {
    seg_rows(layout_segments(line, cols, false))
}

pub open spec fn line_flags(line: Seq<LogicalCell>, cols: nat) -> Seq<bool> {
    seg_flags(layout_segments(line, cols, false))
}

/// All visual rows of a scrollback at width `cols`, oldest first.
pub open spec fn all_rows(lines: Seq<Seq<LogicalCell>>, cols: nat) -> Seq<Seq<Cell>>
    decreases lines.len(),
{
    if lines.len() == 0 {
        seq![]
    } else {
        all_rows(lines.drop_last(), cols) + line_rows(lines.last(), cols)
    }
}

pub open spec fn all_flags(lines: Seq<Seq<LogicalCell>>, cols: nat) -> Seq<bool>
    decreases lines.len(),
{
    if lines.len() == 0 {
        seq![]
    } else {
        all_flags(lines.drop_last(), cols) + line_flags(lines.last(), cols)
    }
}



pub proof fn lemma_all_rows_push(lines: Seq<Seq<LogicalCell>>, l: Seq<LogicalCell>, cols: nat)
    ensures
        all_rows(lines.push(l), cols) == all_rows(lines, cols) + line_rows(l, cols),
        all_flags(lines.push(l), cols) == all_flags(lines, cols) + line_flags(l, cols),
{
    assert(lines.push(l).drop_last() =~= lines);
}

/// The visual rows of a scrollback are those of its first line followed by those of the rest.
pub proof fn lemma_all_rows_front(lines: Seq<Seq<LogicalCell>>, cols: nat)
    requires
        lines.len() > 0,
    ensures
        all_rows(lines, cols) == line_rows(lines[0], cols) + all_rows(lines.drop_first(), cols),
        all_flags(lines, cols) == line_flags(lines[0], cols) + all_flags(lines.drop_first(), cols),
    decreases lines.len(),
{
    if lines.len() == 1 {
        let e: Seq<Seq<LogicalCell>> = seq![];
        assert(lines.drop_last() =~= e);
        assert(lines.drop_first() =~= e);
        assert(all_rows(e, cols) =~= seq![]);
        assert(all_flags(e, cols) =~= seq![]);
        assert(lines.last() == lines[0]);
        assert(all_rows(lines, cols) == all_rows(e, cols) + line_rows(lines[0], cols));
        assert(all_flags(lines, cols) == all_flags(e, cols) + line_flags(lines[0], cols));
        assert(all_rows(lines, cols) =~= line_rows(lines[0], cols) + all_rows(e, cols));
        assert(all_flags(lines, cols) =~= line_flags(lines[0], cols) + all_flags(e, cols));
    } else {
        lemma_all_rows_front(lines.drop_last(), cols);
        assert(lines.drop_last().drop_first() =~= lines.drop_first().drop_last());
        assert(lines.drop_first().last() == lines.last());
        assert(lines.drop_last()[0] == lines[0]);
        assert(all_rows(lines, cols) =~= line_rows(lines[0], cols) + all_rows(lines.drop_first(), cols));
        assert(all_flags(lines, cols) =~= line_flags(lines[0], cols) + all_flags(lines.drop_first(), cols));
    }
}

/// Every visual row of a scrollback is `cols` cells wide.
pub proof fn lemma_all_rows_width(lines: Seq<Seq<LogicalCell>>, cols: nat)
    requires
        lines_ok(lines),
    ensures
        forall|i: int| 0 <= i < all_rows(lines, cols).len() ==> (#[trigger] all_rows(lines, cols)[i]).len() == cols,
    decreases lines.len(),
{
    if lines.len() > 0 {
        reveal(lines_ok);
        let init = lines.drop_last();
        assert(lines_ok(init)) by {
            assert forall|i: int| 0 <= i < init.len() implies widths_ok(#[trigger] init[i]) by {
                assert(init[i] == lines[i]);
            }
        }
        lemma_all_rows_width(init, cols);
        assert(widths_ok(lines[lines.len() - 1]));
        lemma_layout_segments_ok(lines.last(), cols, false);
        let a = all_rows(init, cols);
        let b = line_rows(lines.last(), cols);
        assert(all_rows(lines, cols) == a + b);
        assert forall|i: int| 0 <= i < all_rows(lines, cols).len() implies (#[trigger] all_rows(lines, cols)[i]).len() == cols by {
            if i < a.len() {
                assert(all_rows(lines, cols)[i] == a[i]);
            } else {
                assert(all_rows(lines, cols)[i] == b[i - a.len()]);
                assert(b[i - a.len()] == layout_segments(lines.last(), cols, false)[i - a.len()].row);
            }
        }
    }
}

pub open spec fn flags_len_match(lines: Seq<Seq<LogicalCell>>, cols: nat) -> bool {
    all_rows(lines, cols).len() == all_flags(lines, cols).len()
}

pub proof fn lemma_flags_len(lines: Seq<Seq<LogicalCell>>, cols: nat)
    ensures
        flags_len_match(lines, cols),
    decreases lines.len(),
{
    if lines.len() > 0 {
        lemma_flags_len(lines.drop_last(), cols);
    }
}

/// Move the segments' rows and wrap flags to the end of the cache.
pub fn append_segments(cache: &mut Vec<Vec<Cell>>, flags: &mut Vec<bool>, segs: Vec<crate::terminal::cells::VisualSegment>)
    ensures
        row_views(final(cache)@) == row_views(old(cache)@) + seg_rows(seg_views(segs@)),
        final(flags)@ == old(flags)@ + seg_flags(seg_views(segs@)),
{
    let mut segs = segs;
    let ghost all = seg_views(segs@);
    let ghost n = segs@.len();
    assert(n == segs.len());
    let mut k: usize = 0;
    while segs.len() > 0
        invariant
            n <= usize::MAX,
            all.len() == n,
            k + segs@.len() == n,
            seg_views(segs@) == all.subrange(k as int, n as int),
            row_views(cache@) == row_views(old(cache)@) + seg_rows(all.subrange(0, k as int)),
            flags@ == old(flags)@ + seg_flags(all.subrange(0, k as int)),
        decreases segs@.len(),
    {
        let ghost before_segs = segs@;
        assert(seg_views(before_segs)[0] == before_segs[0]@);
        assert(all.subrange(k as int, n as int)[0] == all[k as int]);
        let seg = segs.remove(0);
        let ghost bc = cache@;
        let ghost bf = flags@;
        assert(seg@ == all[k as int]);
        assert(segs@ =~= before_segs.subrange(1, before_segs.len() as int));
        cache.push(seg.row);
        flags.push(seg.wrapped);
        proof {
            assert forall|j: int| 0 <= j < segs@.len() implies #[trigger] seg_views(segs@)[j] == all.subrange(k + 1, n as int)[j] by {
                assert(segs@[j] == before_segs[j + 1]);
                assert(seg_views(before_segs)[j + 1] == before_segs[j + 1]@);
            }
            assert(seg_views(segs@) =~= all.subrange(k + 1, n as int));
            assert(all.subrange(0, k + 1) =~= all.subrange(0, k as int).push(all[k as int]));
            assert(row_views(cache@) =~= row_views(bc).push(seg@.row));
            assert(seg_rows(all.subrange(0, k + 1)) =~= seg_rows(all.subrange(0, k as int)).push(all[k as int].row));
            assert(seg_flags(all.subrange(0, k + 1)) =~= seg_flags(all.subrange(0, k as int)).push(all[k as int].wrapped));
        }
        k = k + 1;
    }
    assert(all.subrange(0, n as int) =~= all);
}

/// A visual cache (rows, line starts, wrap flags) that matches a scrollback at width `cols`.
#[verifier::opaque]
pub open spec fn cache_matches(cache: Seq<Vec<Cell>>, starts: Seq<usize>, flags: Seq<bool>, sb: Seq<LogicalLine>, cols: nat) -> bool {
    &&& row_views(cache) == all_rows(line_views(sb), cols)
    &&& flags == all_flags(line_views(sb), cols)
    &&& starts.len() == sb.len()
    &&& forall|k: int| 0 <= k < sb.len() ==> #[trigger] starts[k] == all_rows(line_views(sb).take(k), cols).len()
}

/// The visual cache of a scrollback at width `cols`: its rows, where each
/// line's rows start, and the rows' wrap flags.
pub fn build_cache(sb: &std::collections::VecDeque<LogicalLine>, cols: usize) -> (r: (Vec<Vec<Cell>>, Vec<usize>, Vec<bool>))
    ensures
        cache_matches(r.0@, r.1@, r.2@, sb@, cols as nat),
{
    let ghost lines = line_views(sb@);
    let ghost c = cols as nat;
    let mut cache: Vec<Vec<Cell>> = Vec::new();
    let mut starts: Vec<usize> = Vec::new();
    let mut flags: Vec<bool> = Vec::new();
    let n = sb.len();
    let mut i: usize = 0;
    assert(row_views(cache@) =~= all_rows(lines.take(0), c));
    assert(flags@ =~= all_flags(lines.take(0), c));
    while i < n
        invariant
            n == lines.len(),
            lines == line_views(sb@),
            c == cols as nat,
            i <= n,
            row_views(cache@) == all_rows(lines.take(i as int), c),
            flags@ == all_flags(lines.take(i as int), c),
            starts@.len() == i,
            forall|k: int| 0 <= k < i ==> #[trigger] starts@[k] == all_rows(lines.take(k), c).len(),
        decreases n - i,
    {
        let ghost bs = starts@;
        starts.push(cache.len());
        let segs = layout_logical_line_segments(&sb[i], cols, false);
        append_segments(&mut cache, &mut flags, segs);
        proof {
            assert(sb@[i as int].cells@ == lines[i as int]);
            lemma_all_rows_push(lines.take(i as int), lines[i as int], c);
            assert(lines.take(i + 1) =~= lines.take(i as int).push(lines[i as int]));
            assert forall|k: int| 0 <= k < i + 1 implies #[trigger] starts@[k] == all_rows(lines.take(k), c).len() by {
                if k < i {
                    assert(starts@[k] == bs[k]);
                }
            }
        }
        i = i + 1;
    }
    assert(lines.take(n as int) =~= lines);
    assert(starts@.len() == sb@.len());
    proof {
        reveal(cache_matches);
    }
    (cache, starts, flags)
}


/// Add the layout of one more line to a cache.
pub fn cache_push_line(
    cache: &mut Vec<Vec<Cell>>,
    starts: &mut Vec<usize>,
    flags: &mut Vec<bool>,
    Ghost(sb): Ghost<Seq<LogicalLine>>,
    line: &LogicalLine,
    cols: usize,
)
    requires
        cache_matches(old(cache)@, old(starts)@, old(flags)@, sb, cols as nat),
    ensures
        cache_matches(final(cache)@, final(starts)@, final(flags)@, sb.push(*line), cols as nat),
{
    proof {
        reveal(cache_matches);
    }
    let ghost lines = line_views(sb);
    let ghost c = cols as nat;
    let ghost bs = starts@;
    starts.push(cache.len());
    let segs = layout_logical_line_segments(line, cols, false);
    append_segments(cache, flags, segs);
    proof {
        let nl = line_views(sb.push(*line));
        assert(nl =~= lines.push(line.cells@));
        lemma_all_rows_push(lines, line.cells@, c);
        assert forall|i: int| 0 <= i < nl.len() implies #[trigger] starts@[i] == all_rows(nl.take(i), c).len() by {
            if i < lines.len() {
                assert(nl.take(i) =~= lines.take(i));
                assert(starts@[i] == bs[i]);
            } else {
                assert(nl.take(i) =~= lines);
            }
        }
        reveal(cache_matches);
    }
}

/// Remove the layout of the last line from a cache.
pub fn cache_pop_line(
    cache: &mut Vec<Vec<Cell>>,
    starts: &mut Vec<usize>,
    flags: &mut Vec<bool>,
    Ghost(sb): Ghost<Seq<LogicalLine>>,
    cols: usize,
)
    requires
        cache_matches(old(cache)@, old(starts)@, old(flags)@, sb, cols as nat),
        sb.len() > 0,
    ensures
        cache_matches(final(cache)@, final(starts)@, final(flags)@, sb.drop_last(), cols as nat),
{
    proof {
        reveal(cache_matches);
    }
    let ghost lines = line_views(sb);
    let ghost c = cols as nat;
    let ghost nl = lines.drop_last();
    let ghost old_cache = cache@;
    let ghost old_flags = flags@;
    proof {
        assert(nl =~= lines.take(lines.len() - 1));
        assert(line_views(sb.drop_last()) =~= nl);
        lemma_flags_len(nl, c);
        assert(all_rows(lines, c) == all_rows(nl, c) + line_rows(lines.last(), c));
        assert(all_flags(lines, c) == all_flags(nl, c) + line_flags(lines.last(), c));
        assert(row_views(old_cache).len() == old_cache.len());
    }
    let start = starts.pop().unwrap();
    proof {
        assert(start == all_rows(nl, c).len());
    }
    cache.truncate(start);
    flags.truncate(start);
    proof {
        assert(row_views(cache@) =~= row_views(old_cache).subrange(0, start as int));
        assert(row_views(cache@) =~= all_rows(nl, c));
        assert(flags@ =~= all_flags(nl, c));
        assert forall|i: int| 0 <= i < nl.len() implies #[trigger] starts@[i] == all_rows(nl.take(i), c).len() by {
            assert(nl.take(i) =~= lines.take(i));
        }
        reveal(cache_matches);
    }
}

/// The rows of the first `k` lines (k >= 1) are those of the first line
/// followed by those of the next `k - 1`.
pub proof fn lemma_take_rows_front(lines: Seq<Seq<LogicalCell>>, k: int, cols: nat)
    requires
        1 <= k <= lines.len(),
    ensures
        all_rows(lines.take(k), cols) == line_rows(lines[0], cols) + all_rows(lines.drop_first().take(k - 1), cols),
{
    lemma_all_rows_front(lines.take(k), cols);
    assert(lines.take(k).drop_first() =~= lines.drop_first().take(k - 1));
}

/// Remove the layout of the first line from a cache.
pub fn cache_pop_front(
    cache: &mut Vec<Vec<Cell>>,
    starts: &mut Vec<usize>,
    flags: &mut Vec<bool>,
    Ghost(sb): Ghost<Seq<LogicalLine>>,
    cols: usize,
)
    requires
        cache_matches(old(cache)@, old(starts)@, old(flags)@, sb, cols as nat),
        sb.len() > 0,
    ensures
        cache_matches(final(cache)@, final(starts)@, final(flags)@, sb.drop_first(), cols as nat),
{
    proof {
        reveal(cache_matches);
    }
    let ghost lines = line_views(sb);
    let ghost c = cols as nat;
    let ghost rest = lines.drop_first();
    let ghost first_len = line_rows(lines[0], c).len();
    proof {
        assert(line_views(sb.drop_first()) =~= rest);
        lemma_all_rows_front(lines, c);
        lemma_flags_len(lines, c);
        lemma_flags_len(rest, c);
        assert(seg_rows(layout_segments(lines[0], c, false)).len() == seg_flags(layout_segments(lines[0], c, false)).len());
        assert(row_views(cache@).len() == cache@.len());
        if starts@.len() > 1 {
            lemma_take_rows_front(lines, 1, c);
            assert(rest.take(0) =~= seq![]);
            assert(all_rows(rest.take(0), c) =~= seq![]);
            assert(all_rows(lines.take(1), c) =~= line_rows(lines[0], c));
        }
    }
    let _first = starts.remove(0);
    let end = if starts.len() > 0 { starts[0] } else { cache.len() };
    proof {
        if starts@.len() == 0 {
            assert(rest.len() == 0);
            assert(all_rows(rest, c) =~= seq![]);
        }
        assert(end == first_len);
    }
    let ghost old_cache = cache@;
    let ghost old_flags = flags@;
    let tail_rows = cache.split_off(end);
    let tail_flags = flags.split_off(end);
    *cache = tail_rows;
    *flags = tail_flags;
    let ghost mid_starts = starts@;
    proof {
        assert forall|k: int| 0 <= k < mid_starts.len() implies #[trigger] mid_starts[k] == first_len + all_rows(rest.take(k), c).len() by {
            lemma_take_rows_front(lines, k + 1, c);
        }
    }
    let mut i: usize = 0;
    while i < starts.len()
        invariant
            i <= starts@.len(),
            starts@.len() == mid_starts.len(),
            mid_starts.len() == rest.len(),
            forall|k: int| 0 <= k < mid_starts.len() ==> #[trigger] mid_starts[k] == first_len + all_rows(rest.take(k), c).len(),
            forall|k: int| 0 <= k < i ==> #[trigger] starts@[k] == all_rows(rest.take(k), c).len(),
            forall|k: int| i <= k < starts@.len() ==> #[trigger] starts@[k] == mid_starts[k],
            end == first_len,
        decreases starts@.len() - i,
    {
        let s = starts[i];
        starts.set(i, s - end);
        i = i + 1;
    }
    proof {
        assert(row_views(cache@) =~= row_views(old_cache).subrange(first_len as int, old_cache.len() as int));
        assert(row_views(cache@) =~= all_rows(rest, c));
        assert(flags@ =~= all_flags(rest, c));
        reveal(cache_matches);
    }
}

} // verus!
