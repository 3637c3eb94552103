//! Cells, colours, display widths, and the conversion between physical screen
//! rows and logical (unwrapped) lines.

use vstd::prelude::*;

verus! {

/// What `UnicodeWidthChar::width` (unicode-width) gives for a character.
pub uninterp spec fn unicode_char_width(c: char) -> Option<usize>;

/// `unicode_width::UnicodeWidthChar::width`.
///
/// Trusted: the result is the width the name `unicode_char_width` gives; as the
/// crate's lookup code shows, printable ASCII is one column wide, the C0 and C1
/// control ranges have no width, and every character from U+00A0 on has one.
#[verifier::external_body]
fn unicode_width_of(c: char) -> (w: Option<usize>)
    ensures
        w == unicode_char_width(c),
        (' ' <= c && c < '\u{7f}') ==> w == Some(1usize),
        (c < ' ' || ('\u{7f}' <= c && c < '\u{a0}')) ==> w is None,
        '\u{a0}' <= c ==> w is Some,
{
    unicode_width::UnicodeWidthChar::width(c)
}

#[derive(Clone, Copy, PartialEq, Eq, Structural, Debug)]
pub enum Color {
    Default,
    Indexed(u8),
    Rgb(u8, u8, u8),
}

#[derive(Clone, Copy, PartialEq, Eq, Structural, Debug)]
pub struct Cell {
    pub ch: char,
    pub fg: Color,
    pub bg: Color,
    pub bold: bool,
    pub italic: bool,
    pub underline: bool,
    pub blink: bool,
    pub reverse: bool,
    pub dim: bool,
    pub strikethrough: bool,
    /// Second column of a wcwidth=2 character (do not paint separately).
    pub wide_continuation: bool,
}

/// The blank cell: a space in the default colours with no attributes.
pub open spec fn blank_cell() -> Cell {
    Cell {
        ch: ' ',
        fg: Color::Default,
        bg: Color::Default,
        bold: false,
        italic: false,
        underline: false,
        blink: false,
        reverse: false,
        dim: false,
        strikethrough: false,
        wide_continuation: false,
    }
}

impl Default for Cell {
    fn default() -> (c: Self)
        ensures
            c == blank_cell(),
    {
        Cell {
            ch: ' ',
            fg: Color::Default,
            bg: Color::Default,
            bold: false,
            italic: false,
            underline: false,
            blink: false,
            reverse: false,
            dim: false,
            strikethrough: false,
            wide_continuation: false,
        }
    }
}

/// A logical character stored in the scrollback (without screen layout info).
#[derive(Clone, Copy, PartialEq, Eq, Structural, Debug)]
pub struct LogicalCell {
    pub ch: char,
    pub fg: Color,
    pub bg: Color,
    pub bold: bool,
    pub italic: bool,
    pub underline: bool,
    pub blink: bool,
    pub reverse: bool,
    pub dim: bool,
    pub strikethrough: bool,
    /// Display width (1 or 2 columns)
    pub width: usize,
}

/// A logical line stored in the scrollback buffer (one application output line,
/// which may be wider than the terminal and is wrapped to visual rows for display).
pub struct LogicalLine {
    pub cells: Vec<LogicalCell>,
}

/// One visual row produced by laying out a logical line at a given width.
/// `start..end` is the range of logical cells represented by this row.
pub struct VisualSegment {
    pub row: Vec<Cell>,
    pub start: usize,
    pub end: usize,
    pub wrapped: bool,
}

/// The mathematical content of a visual segment.
pub struct Seg {
    pub row: Seq<Cell>,
    pub start: int,
    pub end: int,
    pub wrapped: bool,
}

impl View for VisualSegment {
    type V = Seg;

    open spec fn view(&self) -> Seg {
        Seg { row: self.row@, start: self.start as int, end: self.end as int, wrapped: self.wrapped }
    }
}

/// Terminal display width of a character: none, one or two columns; characters
/// the width table has no width for (controls) take one column.
pub open spec fn display_width(c: char) -> usize {
    match unicode_char_width(c) {
        Some(w) => if w < 2 {
            w
        } else {
            2
        },
        None => 1,
    }
}

/// Terminal display width (0–2 columns).
pub fn char_display_width(c: char) -> (w: usize)
    ensures
        w == display_width(c),
        w <= 2,
        (' ' <= c && c < '\u{7f}') ==> w == 1,
{
    match unicode_width_of(c) {
        Some(0) => 0,
        Some(w) => if w < 2 {
            w
        } else {
            2
        },
        None => 1,
    }
}

/// Columns a cell occupies when painted: 0 for a continuation slot, 2 for the
/// leader of a wide character, 1 otherwise (and 1 past the end of the row).
pub open spec fn cell_width_at(cells: Seq<Cell>, col: int) -> usize {
    if col >= cells.len() {
        1
    } else if cells[col].wide_continuation {
        0
    } else if col + 1 < cells.len() && cells[col + 1].wide_continuation {
        2
    } else {
        1
    }
}

/// How many columns this cell occupies when painted (0 if continuation slot).
pub fn cell_display_width(cells: &[Cell], col: usize) -> (w: usize)
    ensures
        w == cell_width_at(cells@, col as int),
{
    if col >= cells.len() {
        return 1;
    }
    if cells[col].wide_continuation {
        return 0;
    }
    if col + 1 < cells.len() && cells[col + 1].wide_continuation {
        return 2;
    }
    1
}

/// Number of cells in `cells[0..n]` that are not continuation slots.
pub open spec fn count_leaders(cells: Seq<Cell>, n: int) -> nat
    decreases n,
{
    if n <= 0 {
        0
    } else if cells[n - 1].wide_continuation {
        count_leaders(cells, n - 1)
    } else {
        count_leaders(cells, n - 1) + 1
    }
}

/// Number of cells in a row, counting wide characters as 1 (the logical
/// length ignoring continuation slots).
pub fn count_cells_in_row(cells: &[Cell]) -> (n: usize)
    ensures
        n == count_leaders(cells@, cells@.len() as int),
{
    let mut n: usize = 0;
    let mut i: usize = 0;
    while i < cells.len()
        invariant
            i <= cells.len(),
            n == count_leaders(cells@, i as int),
            n <= i,
        decreases cells.len() - i,
    {
        if !cells[i].wide_continuation {
            n = n + 1;
        }
        i = i + 1;
    }
    n
}

/// A padding cell: a space that is not part of a wide character.
pub open spec fn is_padding(c: Cell) -> bool {
    c.ch == ' ' && !c.wide_continuation
}

/// Length of `row[0..end]` once trailing padding is dropped.
pub open spec fn trim_end(row: Seq<Cell>, end: int) -> int
    decreases end,
{
    if end <= 0 {
        0
    } else if is_padding(row[end - 1]) {
        trim_end(row, end - 1)
    } else {
        end
    }
}

pub proof fn lemma_trim_end_bounds(row: Seq<Cell>, end: int)
    requires
        0 <= end,
    ensures
        0 <= trim_end(row, end) <= end,
        forall|k: int| trim_end(row, end) <= k < end ==> #[trigger] is_padding(row[k]),
        trim_end(row, end) > 0 ==> !is_padding(row[trim_end(row, end) - 1]),
    decreases end,
{
    if end > 0 && is_padding(row[end - 1]) {
        lemma_trim_end_bounds(row, end - 1);
    }
}

fn is_padding_cell(c: &Cell) -> (b: bool)
    ensures
        b == is_padding(*c),
{
    c.ch == ' ' && !c.wide_continuation
}

/// Visible content length of a terminal row: trailing blank padding cells,
/// which exist only because terminal rows are fixed-width, are not counted.
pub fn trimmed_row_len(cells: &[Cell]) -> (n: usize)
    ensures
        n == trim_end(cells@, cells@.len() as int),
{
    let mut end = cells.len();
    while end > 0 && is_padding_cell(&cells[end - 1])
        invariant
            end <= cells.len(),
            trim_end(cells@, end as int) == trim_end(cells@, cells@.len() as int),
        decreases end,
    {
        end -= 1;
    }
    end
}

/// The logical cell for a leader cell of the given width.
pub open spec fn logical_of(c: Cell, width: usize) -> LogicalCell {
    LogicalCell {
        ch: c.ch,
        fg: c.fg,
        bg: c.bg,
        bold: c.bold,
        italic: c.italic,
        underline: c.underline,
        blink: c.blink,
        reverse: c.reverse,
        dim: c.dim,
        strikethrough: c.strikethrough,
        width,
    }
}

/// Logical cells of `row[x..end]`: continuation slots are skipped, and a leader
/// followed (within `end`) by a continuation slot counts two columns.
pub open spec fn logical_from(row: Seq<Cell>, end: int, x: int) -> Seq<LogicalCell>
    decreases end - x,
{
    if x >= end || x < 0 {
        seq![]
    } else if row[x].wide_continuation {
        logical_from(row, end, x + 1)
    } else if x + 1 < end && row[x + 1].wide_continuation {
        seq![logical_of(row[x], 2)] + logical_from(row, end, x + 2)
    } else {
        seq![logical_of(row[x], 1)] + logical_from(row, end, x + 1)
    }
}

/// Where a row's logical content ends: after trailing padding (when trimming),
/// and never just after the leader of a wide character that the cut separates
/// from its continuation slot.
pub open spec fn logical_end(row: Seq<Cell>, trim: bool) -> int {
    let e = if trim {
        trim_end(row, row.len() as int)
    } else {
        row.len() as int
    };
    if e < row.len() && e > 0 && row[e].wide_continuation {
        e - 1
    } else {
        e
    }
}

/// The logical cells a physical row holds.
pub open spec fn row_logical(row: Seq<Cell>, trim: bool) -> Seq<LogicalCell> {
    logical_from(row, logical_end(row, trim), 0)
}

/// Every logical cell is one or two columns wide.
pub open spec fn widths_ok(cells: Seq<LogicalCell>) -> bool {
    forall|i: int| 0 <= i < cells.len() ==> 1 <= #[trigger] cells[i].width <= 2
}

pub proof fn lemma_logical_from_widths(row: Seq<Cell>, end: int, x: int)
    ensures
        widths_ok(logical_from(row, end, x)),
    decreases end - x,
{
    if x >= end || x < 0 {
    } else if row[x].wide_continuation {
        lemma_logical_from_widths(row, end, x + 1);
    } else if x + 1 < end && row[x + 1].wide_continuation {
        lemma_logical_from_widths(row, end, x + 2);
        let rest = logical_from(row, end, x + 2);
        assert forall|i: int| 0 <= i < (seq![logical_of(row[x], 2)] + rest).len() implies 1 <= #[trigger] (seq![logical_of(row[x], 2)] + rest)[i].width <= 2 by {
            if i > 0 {
                assert((seq![logical_of(row[x], 2)] + rest)[i] == rest[i - 1]);
            }
        }
    } else {
        lemma_logical_from_widths(row, end, x + 1);
        let rest = logical_from(row, end, x + 1);
        assert forall|i: int| 0 <= i < (seq![logical_of(row[x], 1)] + rest).len() implies 1 <= #[trigger] (seq![logical_of(row[x], 1)] + rest)[i].width <= 2 by {
            if i > 0 {
                assert((seq![logical_of(row[x], 1)] + rest)[i] == rest[i - 1]);
            }
        }
    }
}

pub proof fn lemma_logical_from_len(row: Seq<Cell>, end: int, x: int)
    ensures
        logical_from(row, end, x).len() <= if x < end && x >= 0 { end - x } else { 0 },
    decreases end - x,
{
    if x >= end || x < 0 {
    } else if row[x].wide_continuation {
        lemma_logical_from_len(row, end, x + 1);
    } else if x + 1 < end && row[x + 1].wide_continuation {
        lemma_logical_from_len(row, end, x + 2);
    } else {
        lemma_logical_from_len(row, end, x + 1);
    }
}

/// Convert a physical row to logical cells, optionally dropping trailing padding.
///
/// When the next physical row continues this one (soft wrap), the spaces at the
/// end are content, not padding, and must be kept so that reflow reconstructs
/// the exact text stream.
pub fn row_to_logical_cells_with_trim(row: &[Cell], trim_trailing_spaces: bool) -> (out: Vec<
    LogicalCell,
>)
    ensures
        out@ == row_logical(row@, trim_trailing_spaces),
        widths_ok(out@),
        out@.len() <= row@.len(),
{
    let mut out: Vec<LogicalCell> = Vec::new();
    let mut end = row.len();
    if trim_trailing_spaces {
        end = trimmed_row_len(row);
        proof {
            lemma_trim_end_bounds(row@, row@.len() as int);
        }
    }
    if end < row.len() && end > 0 && row[end].wide_continuation {
        end -= 1;
    }
    assert(end as int == logical_end(row@, trim_trailing_spaces));
    let mut x: usize = 0;
    while x < end
        invariant
            end <= row.len(),
            x <= end + 1,
            out@ + logical_from(row@, end as int, x as int) == logical_from(row@, end as int, 0),
        decreases end - x,
    {
        let c = row[x];
        if c.wide_continuation {
            x += 1;
            continue;
        }
        let width: usize = if x + 1 < end && row[x + 1].wide_continuation {
            2
        } else {
            1
        };
        let lc = LogicalCell {
            ch: c.ch,
            fg: c.fg,
            bg: c.bg,
            bold: c.bold,
            italic: c.italic,
            underline: c.underline,
            blink: c.blink,
            reverse: c.reverse,
            dim: c.dim,
            strikethrough: c.strikethrough,
            width,
        };
        let ghost before = out@;
        out.push(lc);
        assert(out@ == before + seq![lc]);
        assert(out@ + logical_from(row@, end as int, (x + width) as int) =~= before + (seq![lc]
            + logical_from(row@, end as int, (x + width) as int)));
        x += width;
    }
    assert(out@ =~= out@ + logical_from(row@, end as int, x as int));
    proof {
        lemma_logical_from_widths(row@, end as int, 0);
        lemma_logical_from_len(row@, end as int, 0);
    }
    out
}

/// Convert a physical screen row (with continuation slots) to logical cells,
/// dropping trailing padding.
pub fn row_to_logical_cells(row: &[Cell]) -> (out: Vec<LogicalCell>)
    ensures
        out@ == row_logical(row@, true),
        widths_ok(out@),
{
    row_to_logical_cells_with_trim(row, true)
}

} // verus!
