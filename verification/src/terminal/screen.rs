//! The terminal screen: the visible grid, cursor and modes, the logical-line
//! scrollback with its cached visual layout, and the alternate screen.

use std::collections::VecDeque;

use vstd::prelude::*;
use vstd::utf8::encode_utf8;

use crate::terminal::cells::{
    blank_cell, cell_width_at, lemma_logical_from_widths, logical_end, row_logical, row_to_logical_cells_with_trim,
    cell_display_width, char_display_width, display_width, widths_ok, Cell, Color,
    LogicalCell, LogicalLine,
};
use crate::terminal::layout::{blank_row, make_blank_row, row_views, seg_views};
use crate::terminal::visual::{
    all_flags, all_rows, build_cache, cache_matches, cache_pop_front, cache_pop_line, cache_push_line, extended_scrollback,
    lemma_flags_len, lemma_lines_empty, lemma_lines_index, lemma_lines_push, lemma_lines_subrange, lemma_lines_trim,
    line_views, lines_ok, trim_front,
};
use crate::terminal::layout::layout_logical_line_segments;
use crate::terminal::parser::{handled_all, ActionView, EventView, TermEvent, TermHandler};
use crate::text::{chars_to_string, str_chars};
use crate::terminal::reflow::{
    exact_grid, first_continues, joined_prefix, lemma_pushed_ok, lemma_reflow_grid_ok, lemma_stream_len, owner_ints,
    prefix_view, pushed_scrollback, reflow_layout, reflow_lines, reflow_main, reflow_owner, reflow_segs, resize_flags,
    resize_grid_exact, resized_flags, seg_part_of, stream_ok, MainReflow, ReflowPlan, cursor_target,
    lemma_reflow_cursor_range,
};
use crate::terminal::grid::{
    display_col_in_row, fill_cells, grid_ok, lemma_grid_intro, lemma_grid_remove_insert, lemma_grid_row, lemma_grid_update,
    make_blank_grid, make_flags, next_tab_stop, normalized_col, shift_cells_right, shifted_right, target_col_in_row,
    delete_chars_in_row, insert_chars_in_row, write_glyph, remove_insert_flag, remove_insert_row, set_cell};


verus! {

/// Tab stops are preset every this many columns.
pub const TAB_STOPS_EVERY: usize = 8;

/// Upper bound on the configurable scrollback length (in logical lines).
pub const MAX_SCROLLBACK: usize = 100_000;

/// Scrollback length (in logical lines) a new screen starts with.
pub const DEFAULT_SCROLLBACK: usize = 5000;

#[derive(Clone, Copy, PartialEq, Eq, Structural, Debug)]
pub enum Charset {
    UsAscii,
    DecGraphics,
}


/// Modes and character sets selected by escape sequences.
#[derive(Clone, Copy, PartialEq, Eq, Structural, Debug)]
pub struct Modes {
    /// Active character set designator (0 = G0, 1 = G1).
    pub charset: u8,
    pub g0_charset: Charset,
    pub g1_charset: Charset,
    /// Auto-wrap mode
    pub auto_wrap: bool,
    /// Insert/replace mode
    pub insert_mode: bool,
    /// Application cursor keys
    pub app_cursor_keys: bool,
    /// Application keypad
    pub app_keypad: bool,
    /// Bracketed paste
    pub bracketed_paste: bool,
    /// DECSET ?1000 — report mouse click/release.
    pub mouse_report_clicks: bool,
    /// DECSET ?1002 — report mouse drag with button down.
    pub mouse_report_drag: bool,
    /// DECSET ?1003 — report all mouse motion.
    pub mouse_report_motion: bool,
    /// DECSET ?1006 — SGR extended mouse coordinates.
    pub mouse_sgr_encoding: bool,
}

pub open spec fn initial_modes() -> Modes {
    Modes {
        charset: 0,
        g0_charset: Charset::UsAscii,
        g1_charset: Charset::UsAscii,
        auto_wrap: true,
        insert_mode: false,
        app_cursor_keys: false,
        app_keypad: false,
        bracketed_paste: false,
        mouse_report_clicks: false,
        mouse_report_drag: false,
        mouse_report_motion: false,
        mouse_sgr_encoding: false,
    }
}

impl Modes {
    pub fn initial() -> (m: Modes)
        ensures
            m == initial_modes(),
    {
        Modes {
            charset: 0,
            g0_charset: Charset::UsAscii,
            g1_charset: Charset::UsAscii,
            auto_wrap: true,
            insert_mode: false,
            app_cursor_keys: false,
            app_keypad: false,
            bracketed_paste: false,
            mouse_report_clicks: false,
            mouse_report_drag: false,
            mouse_report_motion: false,
            mouse_sgr_encoding: false,
        }
    }
}

/// State of the heuristics for shell output (zsh prompt redraws).
#[derive(Clone, Copy, PartialEq, Eq, Structural, Debug)]
pub struct ShellState {
    /// Deferred `\r` (applied on next output unless followed immediately by `\n`).
    pub pending_cr: bool,
    /// Skip the LF in a second consecutive `\r\n` (zsh: `\r\n\r\n` is one line break).
    pub suppress_extra_crlf_newline: bool,
    /// Absorbing zsh `%` + space padding before the prompt (do not wrap past EOL).
    pub in_zsh_line_pad: bool,
    /// zsh POSTDISPLAY: the first padding space is painted but does not advance the cursor.
    pub postdisplay_leading_space: bool,
}

pub open spec fn initial_shell() -> ShellState {
    ShellState {
        pending_cr: false,
        suppress_extra_crlf_newline: false,
        in_zsh_line_pad: false,
        postdisplay_leading_space: false,
    }
}

impl ShellState {
    pub fn initial() -> (s: ShellState)
        ensures
            s == initial_shell(),
    {
        ShellState {
            pending_cr: false,
            suppress_extra_crlf_newline: false,
            in_zsh_line_pad: false,
            postdisplay_leading_space: false,
        }
    }
}

/// The main screen, kept aside while the alternate screen is shown.
pub struct MainScreenState {
    cells: Vec<Vec<Cell>>,
    wrapped: Vec<bool>,
    cursor_x: usize,
    cursor_y: usize,
    current_attrs: Cell,
    saved_cursor_x: usize,
    saved_cursor_y: usize,
    scroll_top: usize,
    scroll_bottom: usize,
    origin_mode: bool,
    pending_wrap: bool,
}

pub struct Screen {
    /// Visible screen rows (row-major, index 0 = top line)
    pub cells: Vec<Vec<Cell>>,
    pub rows: usize,
    pub cols: usize,
    pub cursor_x: usize,
    pub cursor_y: usize,
    saved_cursor_x: usize,
    saved_cursor_y: usize,
    scroll_top: usize,
    scroll_bottom: usize,
    current_attrs: Cell,
    default_attrs: Cell,
    /// Tab stops per column
    tab_stops: Vec<bool>,
    /// Scrollback buffer (newer lines at end) as logical lines
    scrollback: VecDeque<LogicalLine>,
    scrollback_limit: usize,
    /// Visual layout of the scrollback at the current width.
    visual_cache: Vec<Vec<Cell>>,
    /// Index in `visual_cache` where each logical line's visual rows begin.
    visual_starts: Vec<usize>,
    /// Whether each row in `visual_cache` is a soft-wrap continuation.
    visual_wrapped: Vec<bool>,
    /// Whether cursor is visible
    pub cursor_visible: bool,
    /// Whether each visible row is a soft-wrapped continuation of the row above it.
    wrapped: Vec<bool>,
    /// Main screen saved while the alternate screen (vim, less, ...) is active.
    saved_main: Option<MainScreenState>,
    /// Pending outgoing events (e.g. device reports)
    outgoing: Vec<TermEvent>,
    /// Origin mode (DECOM)
    origin_mode: bool,
    /// Delayed auto-wrap: after printing in the last column the cursor stays
    /// there and wraps only before the next printable cell.
    pending_wrap: bool,
    /// Title
    pub title: String,
    /// Modes set by escape sequences.
    modes: Modes,
    /// State of the shell-output heuristics.
    shell: ShellState,
    /// Reused empty row for scrolling.
    scroll_scratch: Vec<Cell>,
}

/// The mathematical content of a saved main screen.
pub struct MainView {
    pub cells: Seq<Seq<Cell>>,
    pub wrapped: Seq<bool>,
    pub cursor_x: usize,
    pub cursor_y: usize,
    pub current_attrs: Cell,
    pub saved_cursor_x: usize,
    pub saved_cursor_y: usize,
    pub scroll_top: usize,
    pub scroll_bottom: usize,
    pub origin_mode: bool,
    pub pending_wrap: bool,
}

/// The mathematical content of a screen. The visual layout of the scrollback is
/// not part of it: it is determined by `scrollback` and `cols` (`visual_rows`).
pub struct ScreenView {
    pub cells: Seq<Seq<Cell>>,
    pub rows: usize,
    pub cols: usize,
    pub cursor_x: usize,
    pub cursor_y: usize,
    pub saved_cursor_x: usize,
    pub saved_cursor_y: usize,
    pub scroll_top: usize,
    pub scroll_bottom: usize,
    pub current_attrs: Cell,
    pub default_attrs: Cell,
    pub tab_stops: Seq<bool>,
    pub scrollback: Seq<Seq<LogicalCell>>,
    pub scrollback_limit: usize,
    pub cursor_visible: bool,
    pub wrapped: Seq<bool>,
    pub saved_main: Option<MainView>,
    pub outgoing: Seq<EventView>,
    pub origin_mode: bool,
    pub pending_wrap: bool,
    pub title: Seq<char>,
    pub modes: Modes,
    pub shell: ShellState,
}

impl View for MainScreenState {
    type V = MainView;

    closed spec fn view(&self) -> MainView {
        MainView {
            cells: row_views(self.cells@),
            wrapped: self.wrapped@,
            cursor_x: self.cursor_x,
            cursor_y: self.cursor_y,
            current_attrs: self.current_attrs,
            saved_cursor_x: self.saved_cursor_x,
            saved_cursor_y: self.saved_cursor_y,
            scroll_top: self.scroll_top,
            scroll_bottom: self.scroll_bottom,
            origin_mode: self.origin_mode,
            pending_wrap: self.pending_wrap,
        }
    }
}

pub open spec fn event_views(e: Seq<TermEvent>) -> Seq<EventView> {
    e.map_values(|t: TermEvent| t@)
}

impl View for Screen {
    type V = ScreenView;

    closed spec fn view(&self) -> ScreenView {
        ScreenView {
            cells: row_views(self.cells@),
            rows: self.rows,
            cols: self.cols,
            cursor_x: self.cursor_x,
            cursor_y: self.cursor_y,
            saved_cursor_x: self.saved_cursor_x,
            saved_cursor_y: self.saved_cursor_y,
            scroll_top: self.scroll_top,
            scroll_bottom: self.scroll_bottom,
            current_attrs: self.current_attrs,
            default_attrs: self.default_attrs,
            tab_stops: self.tab_stops@,
            scrollback: line_views(self.scrollback@),
            scrollback_limit: self.scrollback_limit,
            cursor_visible: self.cursor_visible,
            wrapped: self.wrapped@,
            saved_main: match self.saved_main {
                Some(m) => Some(m@),
                None => None,
            },
            outgoing: event_views(self.outgoing@),
            origin_mode: self.origin_mode,
            pending_wrap: self.pending_wrap,
            title: self.title@,
            modes: self.modes,
            shell: self.shell,
        }
    }
}

/// The screen with another scrollback.
pub open spec fn with_scrollback(v: ScreenView, sb: Seq<Seq<LogicalCell>>) -> ScreenView {
    ScreenView { scrollback: sb, ..v }
}

/// `prefix` followed by `cells`.
fn concat_cells(prefix: Vec<LogicalCell>, cells: &Vec<LogicalCell>) -> (r: Vec<LogicalCell>)
    ensures
        r@ == prefix@ + cells@,
{
    let mut line = prefix;
    let mut i: usize = 0;
    while i < cells.len()
        invariant
            i <= cells.len(),
            line@ == prefix@ + cells@.subrange(0, i as int),
        decreases cells.len() - i,
    {
        line.push(cells[i]);
        assert(prefix@ + cells@.subrange(0, i + 1) =~= (prefix@ + cells@.subrange(0, i as int)).push(cells@[i as int]));
        i = i + 1;
    }
    assert(cells@.subrange(0, cells.len() as int) =~= cells@);
    line
}

/// An index that is inside `0..n`, or 0 when `n` is 0.
pub open spec fn in_range(i: usize, n: usize) -> bool {
    i < n || i == 0
}

pub open spec fn main_ok(m: MainView, rows: usize, cols: usize) -> bool {
    &&& grid_ok(m.cells, rows as int, cols as int)
    &&& m.wrapped.len() == rows
    &&& in_range(m.cursor_x, cols)
    &&& in_range(m.cursor_y, rows)
    &&& in_range(m.scroll_top, rows)
    &&& in_range(m.scroll_bottom, rows)
}

/// A saved main screen, if any, has the screen's size.
pub open spec fn saved_ok(sm: Option<MainView>, rows: usize, cols: usize) -> bool {
    sm matches Some(m) ==> main_ok(m, rows, cols)
}

/// The shape every screen keeps: a `rows` x `cols` grid with one wrap flag per
/// row and one tab stop per column, cursor and scroll margins inside it, and a
/// saved main screen (if any) of the same size.
#[verifier::opaque]
pub open spec fn model_ok(v: ScreenView) -> bool {
    &&& grid_ok(v.cells, v.rows as int, v.cols as int)
    &&& v.wrapped.len() == v.rows
    &&& v.tab_stops.len() == v.cols
    &&& in_range(v.cursor_x, v.cols)
    &&& in_range(v.cursor_y, v.rows)
    &&& in_range(v.scroll_top, v.rows)
    &&& in_range(v.scroll_bottom, v.rows)
    &&& lines_ok(v.scrollback)
    &&& saved_ok(v.saved_main, v.rows, v.cols)
}

pub proof fn lemma_model_elim(v: ScreenView)
    requires
        model_ok(v),
    ensures
        grid_ok(v.cells, v.rows as int, v.cols as int),
        v.cells.len() == v.rows,
        v.wrapped.len() == v.rows,
        v.tab_stops.len() == v.cols,
        in_range(v.cursor_x, v.cols),
        in_range(v.cursor_y, v.rows),
        in_range(v.scroll_top, v.rows),
        in_range(v.scroll_bottom, v.rows),
        lines_ok(v.scrollback),
        saved_ok(v.saved_main, v.rows, v.cols),
{
    reveal(model_ok);
    reveal(grid_ok);
}

pub proof fn lemma_model_intro(v: ScreenView)
    requires
        grid_ok(v.cells, v.rows as int, v.cols as int),
        v.wrapped.len() == v.rows,
        v.tab_stops.len() == v.cols,
        in_range(v.cursor_x, v.cols),
        in_range(v.cursor_y, v.rows),
        in_range(v.scroll_top, v.rows),
        in_range(v.scroll_bottom, v.rows),
        lines_ok(v.scrollback),
        saved_ok(v.saved_main, v.rows, v.cols),
    ensures
        model_ok(v),
{
    reveal(model_ok);
}

/// The scrollback as the viewer sees it: its visual rows at the current width.
pub open spec fn visual_rows(v: ScreenView) -> Seq<Seq<Cell>> {
    all_rows(v.scrollback, v.cols as nat)
}

pub open spec fn visual_flags(v: ScreenView) -> Seq<bool> {
    all_flags(v.scrollback, v.cols as nat)
}

/// Tab stops every eight columns.
pub open spec fn default_tab_stops(cols: nat) -> Seq<bool> {
    Seq::new(cols, |i: int| i % 8 == 0)
}

/// A freshly reset screen of the given size.
pub open spec fn fresh_screen(rows: usize, cols: usize) -> ScreenView {
    ScreenView {
        cells: Seq::new(rows as nat, |r: int| blank_row(cols as nat)),
        rows,
        cols,
        cursor_x: 0,
        cursor_y: 0,
        saved_cursor_x: 0,
        saved_cursor_y: 0,
        scroll_top: 0,
        scroll_bottom: if rows > 0 { (rows - 1) as usize } else { 0 },
        current_attrs: blank_cell(),
        default_attrs: blank_cell(),
        tab_stops: default_tab_stops(cols as nat),
        scrollback: seq![],
        scrollback_limit: DEFAULT_SCROLLBACK,
        cursor_visible: true,
        wrapped: Seq::new(rows as nat, |r: int| false),
        saved_main: None,
        outgoing: seq![],
        origin_mode: false,
        pending_wrap: false,
        title: seq![],
        modes: initial_modes(),
        shell: initial_shell(),
    }
}

/// `n - 1`, or 0 for 0 (`saturating_sub(1)`).
pub open spec fn last_index(n: usize) -> usize {
    if n > 0 {
        (n - 1) as usize
    } else {
        0
    }
}


/// The scrollback after the physical row `row` leaves the top of the screen: a
/// continuation row extends the newest line, any other row starts a new line,
/// and the oldest lines beyond the limit are dropped. Trailing padding is kept
/// when the next row continues this one.
pub open spec fn scrollback_after(
    sb: Seq<Seq<LogicalCell>>,
    row: Seq<Cell>,
    was_wrapped: bool,
    next_wrapped: bool,
    limit: usize,
) -> Seq<Seq<LogicalCell>> {
    let lc = row_logical(row, !next_wrapped);
    trim_front(if was_wrapped { extended_scrollback(sb, lc) } else { sb.push(lc) }, limit)
}

/// The number of rows a scroll of the region `top..=bottom` may move: its
/// height; an inverted region (top below bottom) scrolls nothing.
pub open spec fn region_count(top: usize, bottom: usize) -> int {
    if top <= bottom {
        bottom - top + 1
    } else {
        0
    }
}

pub open spec fn min_int(a: int, b: int) -> int {
    if a < b {
        a
    } else {
        b
    }
}

/// One scroll-up step of the scroll region: its top row leaves (into the
/// scrollback on the main screen) and a blank row enters at its bottom.
pub open spec fn scrolled_up_once(v: ScreenView) -> ScreenView {
    let top = v.scroll_top as int;
    let next_wrapped = top + 1 < v.wrapped.len() && v.wrapped[top + 1];
    ScreenView {
        cells: v.cells.remove(top).insert(v.scroll_bottom as int, blank_row(v.cols as nat)),
        wrapped: v.wrapped.remove(top).insert(v.scroll_bottom as int, false),
        scrollback: if v.saved_main is None {
            scrollback_after(v.scrollback, v.cells[top], v.wrapped[top], next_wrapped, v.scrollback_limit)
        } else {
            v.scrollback
        },
        ..v
    }
}

pub open spec fn scrolled_up(v: ScreenView, n: nat) -> ScreenView
    decreases n,
{
    if n == 0 {
        v
    } else {
        scrolled_up_once(scrolled_up(v, (n - 1) as nat))
    }
}

/// One scroll-down step: the region's bottom row is dropped and a blank row
/// enters at its top.
pub open spec fn scrolled_down_once(v: ScreenView) -> ScreenView {
    ScreenView {
        cells: v.cells.remove(v.scroll_bottom as int).insert(v.scroll_top as int, blank_row(v.cols as nat)),
        wrapped: v.wrapped.remove(v.scroll_bottom as int).insert(v.scroll_top as int, false),
        ..v
    }
}

pub open spec fn scrolled_down(v: ScreenView, n: nat) -> ScreenView
    decreases n,
{
    if n == 0 {
        v
    } else {
        scrolled_down_once(scrolled_down(v, (n - 1) as nat))
    }
}

/// The screen after a line feed: at the bottom margin the region scrolls up
/// one row, elsewhere the cursor moves down (not past the last row); the
/// cursor returns to column 0 and its new row is marked as a soft-wrap
/// continuation exactly when `wrapped`.
pub open spec fn after_newline(v: ScreenView, wrapped: bool) -> ScreenView {
    if v.cursor_y == v.scroll_bottom {
        let s = scrolled_up(v, min_int(1, region_count(v.scroll_top, v.scroll_bottom)) as nat);
        ScreenView {
            pending_wrap: false,
            cursor_x: 0,
            wrapped: if s.cursor_y < s.rows { s.wrapped.update(s.cursor_y as int, wrapped) } else { s.wrapped },
            ..s
        }
    } else {
        let y = min_int(v.cursor_y + 1, v.rows - 1) as usize;
        ScreenView {
            pending_wrap: false,
            cursor_x: 0,
            cursor_y: y,
            wrapped: if y < v.rows { v.wrapped.update(y as int, wrapped) } else { v.wrapped },
            ..v
        }
    }
}

/// Where the cursor lands after a backspace: one column left, and one more
/// when that column is a wide character's continuation slot (never past 0).
pub open spec fn backspace_col(row: Seq<Cell>, x: usize) -> usize {
    if x == 0 {
        0
    } else {
        let x1 = (x - 1) as usize;
        if x1 > 0 && row[x1 as int].wide_continuation {
            (x1 - 1) as usize
        } else {
            x1
        }
    }
}

pub open spec fn after_backspace(v: ScreenView) -> ScreenView {
    ScreenView { pending_wrap: false, cursor_x: backspace_col(v.cells[v.cursor_y as int], v.cursor_x), ..v }
}

/// `row` with the cells in `x..x + w` that are inside the first `cols` columns
/// replaced by `blank`.
pub open spec fn fill_span(row: Seq<Cell>, x: int, w: int, cols: int, blank: Cell) -> Seq<Cell> {
    Seq::new(row.len(), |i: int| if x <= i < x + w && i < cols { blank } else { row[i] })
}

/// DEL: back over the previous character and blank the cell(s) it occupied.
pub open spec fn after_erase_left(v: ScreenView) -> ScreenView {
    if v.cursor_x == 0 {
        v
    } else {
        let b = after_backspace(v);
        let y = b.cursor_y as int;
        let x = b.cursor_x as int;
        ScreenView {
            cells: b.cells.update(y, fill_span(b.cells[y], x, cell_width_at(b.cells[y], x) as int, b.cols as int, blank_cell())),
            ..b
        }
    }
}

pub open spec fn max_int(a: int, b: int) -> int {
    if a < b {
        b
    } else {
        a
    }
}

/// The display column of the cell at `limit` on a row: display widths summed
/// over the cells before it (continuation slots add nothing).
pub open spec fn display_col_from(row: Seq<Cell>, limit: int, col: int, dc: int) -> int
    decreases limit + 2 - col,
{
    if col >= limit || col < 0 {
        dc
    } else if row[col].wide_continuation {
        display_col_from(row, limit, col + 1, dc)
    } else {
        let w = max_int(cell_width_at(row, col) as int, 1);
        display_col_from(row, limit, col + w, dc + w)
    }
}

/// The first cell of a row whose span covers display column `target`, or the
/// last column when the row ends first.
pub open spec fn target_col_from(row: Seq<Cell>, cols: int, target: int, col: int, dc: int) -> int
    decreases cols + 2 - col,
{
    if col >= cols || col < 0 {
        if cols > 0 {
            cols - 1
        } else {
            0
        }
    } else if row[col].wide_continuation {
        target_col_from(row, cols, target, col + 1, dc)
    } else {
        let w = max_int(cell_width_at(row, col) as int, 1);
        if dc + w > target {
            col
        } else {
            target_col_from(row, cols, target, col + w, dc + w)
        }
    }
}

/// A cursor column moved off a continuation slot (to the next column, within the row).
pub open spec fn normalized_x(row: Seq<Cell>, x: int, cols: int) -> int {
    if x < cols && row[x].wide_continuation {
        min_int(x + 1, cols - 1)
    } else {
        x
    }
}

/// The cursor placed at display column `target` of its row.
pub open spec fn at_display_col(v: ScreenView, target: int) -> ScreenView {
    let row = v.cells[v.cursor_y as int];
    ScreenView {
        pending_wrap: false,
        cursor_x: normalized_x(row, target_col_from(row, v.cols as int, target, 0, 0), v.cols as int) as usize,
        ..v
    }
}

pub open spec fn cursor_display_col_of(v: ScreenView) -> int {
    display_col_from(v.cells[v.cursor_y as int], min_int(v.cursor_x as int, v.cols as int), 0, 0)
}

/// The next tab stop after column `i - 1`, or the last column.
pub open spec fn next_tab(tabs: Seq<bool>, i: int, cols: int) -> int
    decreases cols - i,
{
    if i >= cols || i < 0 {
        if cols > 0 {
            cols - 1
        } else {
            0
        }
    } else if tabs[i] {
        i
    } else {
        next_tab(tabs, i + 1, cols)
    }
}

pub open spec fn after_tab(v: ScreenView) -> ScreenView {
    ScreenView { pending_wrap: false, cursor_x: next_tab(v.tab_stops, v.cursor_x + 1, v.cols as int) as usize, ..v }
}

/// The cursor moved to (`row`, `col`), relative to the scroll region's top in
/// origin mode, clamped to the screen (or region), and off continuation slots.
pub open spec fn at_position(v: ScreenView, row: usize, col: usize) -> ScreenView {
    let y = if v.origin_mode {
        min_int(v.scroll_top + row, v.scroll_bottom as int)
    } else {
        min_int(row as int, last_index(v.rows) as int)
    };
    let x = min_int(col as int, last_index(v.cols) as int);
    ScreenView {
        cursor_y: y as usize,
        cursor_x: normalized_x(v.cells[y], x, v.cols as int) as usize,
        pending_wrap: false,
        ..v
    }
}

/// A cell erased with the attributes `attrs` (a space, not a continuation slot).
pub open spec fn erased(attrs: Cell) -> Cell {
    Cell { ch: ' ', wide_continuation: false, ..attrs }
}

/// Columns `x_start..x_end` of row `y` erased; erasing the whole row also ends
/// any soft-wrap chain into it.
pub open spec fn erased_in_row(v: ScreenView, y: int, x_start: usize, x_end: usize, use_default: bool) -> ScreenView {
    let blank = erased(if use_default { v.default_attrs } else { v.current_attrs });
    ScreenView {
        cells: v.cells.update(y, fill_span(v.cells[y], x_start as int, x_end - x_start, v.cols as int, blank)),
        wrapped: if x_start == 0 && x_end >= v.cols { v.wrapped.update(y, false) } else { v.wrapped },
        ..v
    }
}

pub open spec fn cleared_row(v: ScreenView, y: int) -> ScreenView {
    ScreenView { cells: v.cells.update(y, blank_row(v.cols as nat)), wrapped: v.wrapped.update(y, false), ..v }
}

/// Every cell of the row is a plain space.
pub open spec fn row_blank(row: Seq<Cell>) -> bool {
    forall|i: int| 0 <= i < row.len() ==> (#[trigger] row[i]).ch == ' ' && !row[i].wide_continuation
}

/// zsh's pre-prompt line: `%` followed only by plain spaces.
pub open spec fn row_zsh_pad(row: Seq<Cell>) -> bool {
    &&& row.len() > 0
    &&& row[0].ch == '%'
    &&& forall|i: int| 1 <= i < row.len() ==> (#[trigger] row[i]).ch == ' ' && !row[i].wide_continuation
}

/// zsh's autosuggestion colours (dim, or grey foreground): the next padding
/// space is painted without advancing the cursor.
pub open spec fn suggest_attrs(c: Cell) -> bool {
    c.dim || match c.fg {
        Color::Indexed(i) => i == 8 || 232 <= i,
        _ => false,
    }
}

/// A deferred carriage return carried out: the cursor's row is cleared (a
/// zsh pre-prompt line always; any row on the main screen, where progress bars
/// redraw after `\r`), and the cursor returns to column 0.
pub open spec fn after_flush_cr(v: ScreenView) -> ScreenView {
    if !v.shell.pending_cr {
        v
    } else {
        let y = v.cursor_y as int;
        let zsh = v.shell.in_zsh_line_pad || row_zsh_pad(v.cells[y]);
        let v1 = if zsh || v.saved_main is None { cleared_row(v, y) } else { v };
        ScreenView {
            cursor_x: 0,
            pending_wrap: false,
            shell: ShellState { pending_cr: false, in_zsh_line_pad: false, ..v.shell },
            ..v1
        }
    }
}

pub open spec fn with_suppress(v: ScreenView, b: bool) -> ScreenView {
    ScreenView { shell: ShellState { suppress_extra_crlf_newline: b, ..v.shell }, ..v }
}

/// A line feed from the output (`cr`: it ended a `\r\n`). On the main screen
/// a second `\r\n` in a row, or a `\r\n` on an empty line, moves nothing
/// (zsh prints `\r\n\r\n` for one line break).
#[verifier::opaque]
pub open spec fn after_lf(v: ScreenView, cr: bool) -> ScreenView {
    if v.saved_main is Some {
        after_newline(v, false)
    } else if cr {
        if v.shell.suppress_extra_crlf_newline {
            with_suppress(v, false)
        } else if v.cursor_x == 0 && row_blank(v.cells[v.cursor_y as int]) {
            v
        } else {
            with_suppress(after_newline(v, false), true)
        }
    } else {
        with_suppress(after_newline(v, false), false)
    }
}

/// IND / NEL: a plain newline, which also drops a deferred carriage return.
#[verifier::opaque]
pub open spec fn after_index(v: ScreenView) -> ScreenView {
    let v0 = ScreenView { shell: ShellState { pending_cr: false, ..v.shell }, ..v };
    if v.saved_main is Some {
        after_newline(v0, false)
    } else {
        with_suppress(after_newline(v0, false), false)
    }
}

pub open spec fn blank_grid(rows: usize, cols: usize) -> Seq<Seq<Cell>> {
    Seq::new(rows as nat, |r: int| blank_row(cols as nat))
}

pub open spec fn no_flags(n: usize) -> Seq<bool> {
    Seq::new(n as nat, |i: int| false)
}

/// What the main screen keeps while the alternate screen is shown.
pub open spec fn main_of(v: ScreenView) -> MainView {
    MainView {
        cells: v.cells,
        wrapped: v.wrapped,
        cursor_x: v.cursor_x,
        cursor_y: v.cursor_y,
        current_attrs: v.current_attrs,
        saved_cursor_x: v.saved_cursor_x,
        saved_cursor_y: v.saved_cursor_y,
        scroll_top: v.scroll_top,
        scroll_bottom: v.scroll_bottom,
        origin_mode: v.origin_mode,
        pending_wrap: v.pending_wrap,
    }
}

/// A blank alternate buffer with the cursor home and default settings.
pub open spec fn fresh_alternate(v: ScreenView) -> ScreenView {
    ScreenView {
        cells: blank_grid(v.rows, v.cols),
        wrapped: no_flags(v.rows),
        cursor_x: 0,
        cursor_y: 0,
        scroll_top: 0,
        scroll_bottom: last_index(v.rows),
        origin_mode: false,
        current_attrs: v.default_attrs,
        pending_wrap: false,
        shell: ShellState { pending_cr: false, suppress_extra_crlf_newline: false, in_zsh_line_pad: false, ..v.shell },
        ..v
    }
}

/// Switch to the alternate screen (smcup), saving the main screen; when
/// already there, the alternate buffer is cleared again.
pub open spec fn after_enter_alt(v: ScreenView, save_cursor: bool) -> ScreenView {
    if v.saved_main is Some {
        fresh_alternate(v)
    } else {
        ScreenView {
            saved_main: Some(main_of(v)),
            saved_cursor_x: if save_cursor { v.cursor_x } else { v.saved_cursor_x },
            saved_cursor_y: if save_cursor { v.cursor_y } else { v.saved_cursor_y },
            ..fresh_alternate(v)
        }
    }
}

/// Back to the main screen (rmcup), restoring it; the cursor too when asked.
pub open spec fn after_leave_alt(v: ScreenView, restore_cursor: bool) -> ScreenView {
    match v.saved_main {
        None => v,
        Some(m) => ScreenView {
            saved_main: None,
            cells: m.cells,
            wrapped: m.wrapped,
            current_attrs: m.current_attrs,
            scroll_top: m.scroll_top,
            scroll_bottom: m.scroll_bottom,
            origin_mode: m.origin_mode,
            pending_wrap: m.pending_wrap,
            cursor_x: if restore_cursor { m.cursor_x } else { v.cursor_x },
            cursor_y: if restore_cursor { m.cursor_y } else { v.cursor_y },
            saved_cursor_x: if restore_cursor { m.saved_cursor_x } else { v.saved_cursor_x },
            saved_cursor_y: if restore_cursor { m.saved_cursor_y } else { v.saved_cursor_y },
            shell: ShellState { pending_cr: false, suppress_extra_crlf_newline: false, in_zsh_line_pad: false, ..v.shell },
            ..v
        },
    }
}

/// Delayed auto-wrap carried out before the next printable cell.
pub open spec fn apply_pending_wrap(v: ScreenView) -> ScreenView {
    if !v.pending_wrap {
        v
    } else if v.modes.auto_wrap {
        after_newline(v, true)
    } else {
        ScreenView { pending_wrap: false, ..v }
    }
}

/// Make room for a glyph `w` columns wide: wrap to the next line when it does
/// not fit and auto-wrap is on. The flag says whether it fits now.
pub open spec fn fit_glyph(v: ScreenView, w: usize) -> (ScreenView, bool) {
    if w == 0 || w > v.cols {
        (v, false)
    } else if v.cursor_x + w <= v.cols {
        (v, true)
    } else if v.modes.auto_wrap {
        (after_newline(v, true), w <= v.cols)
    } else {
        (v, false)
    }
}

/// The row with the continuation slot after column `col` (if any) blanked,
/// so that no half of a wide character is left behind.
pub open spec fn trailer_cleared(row: Seq<Cell>, col: int, cols: int) -> Seq<Cell> {
    if col + 1 < cols && row[col + 1].wide_continuation {
        row.update(col + 1, blank_cell())
    } else {
        row
    }
}

pub open spec fn glyph_cell(attrs: Cell, c: char) -> Cell {
    Cell { ch: c, wide_continuation: false, ..attrs }
}

pub open spec fn glyph_cont(attrs: Cell) -> Cell {
    Cell { ch: ' ', wide_continuation: true, ..attrs }
}

/// Row `row` with the glyph `c` (`w` columns, attributes `attrs`) written at
/// column `x`: in insert mode the rest of the row first shifts right, and a
/// wide character's stray continuation slot after `x` is blanked.
pub open spec fn glyph_row(row: Seq<Cell>, x: int, w: int, cols: int, insert: bool, attrs: Cell, c: char) -> Seq<Cell> {
    let row1 = if insert { shifted_right(row, x, w, cols) } else { row };
    let row2 = trailer_cleared(row1, x, cols).update(x, glyph_cell(attrs, c));
    if w == 2 {
        row2.update(x + 1, glyph_cont(attrs))
    } else {
        row2
    }
}

/// The glyph `c` (`w` columns) written at the cursor in the current
/// attributes; the cursor advances past it, or stays in the last column with
/// a wrap pending.
pub open spec fn placed_glyph(v: ScreenView, c: char, w: usize) -> ScreenView {
    let y = v.cursor_y as int;
    let x = v.cursor_x as int;
    ScreenView {
        cells: v.cells.update(y, glyph_row(v.cells[y], x, w as int, v.cols as int, v.modes.insert_mode, v.current_attrs, c)),
        cursor_x: if x + w >= v.cols { last_index(v.cols) } else { (x + w) as usize },
        pending_wrap: if x + w >= v.cols { v.modes.auto_wrap } else { false },
        ..v
    }
}

/// zsh's POSTDISPLAY padding space: painted, without advancing the cursor.
pub open spec fn painted_space(v: ScreenView) -> ScreenView {
    let y = v.cursor_y as int;
    let x = v.cursor_x as int;
    let v3 = ScreenView { shell: ShellState { postdisplay_leading_space: false, ..v.shell }, ..v };
    if v3.cursor_x >= v3.cols {
        v3
    } else {
        ScreenView {
            cells: v3.cells.update(
                y,
                trailer_cleared(v3.cells[y], x, v3.cols as int).update(x, glyph_cell(v3.current_attrs, ' ')),
            ),
            pending_wrap: false,
            ..v3
        }
    }
}

/// A visible character `w` columns wide printed: a pending wrap happens
/// first, then the glyph is placed if it fits.
#[verifier::opaque]
pub open spec fn printed_glyph(v1: ScreenView, c: char, w: usize) -> ScreenView {
    let v2 = apply_pending_wrap(v1);
    if v2.shell.postdisplay_leading_space && c == ' ' && w == 1 {
        painted_space(v2)
    } else {
        let f = fit_glyph(v2, w);
        if !f.1 {
            f.0
        } else {
            placed_glyph(f.0, c, w)
        }
    }
}

/// Printing one character at the cursor.
#[verifier::opaque]
pub open spec fn after_put_char(v: ScreenView, c: char) -> ScreenView {
    let w = display_width(c);
    if w == 0 || v.cols == 0 || v.rows == 0 {
        v
    } else {
        let v1 = if c == '%' && v.cursor_x == 0 {
            ScreenView { shell: ShellState { in_zsh_line_pad: true, ..v.shell }, ..v }
        } else {
            v
        };
        if v1.shell.in_zsh_line_pad && c == ' ' && v1.cursor_x >= v1.cols - 1 {
            // zsh pads the line to the right edge before a CR: those spaces
            // must not consume the delayed wrap and scroll the screen.
            v1
        } else {
            printed_glyph(v1, c, w)
        }
    }
}

/// The index of the last row (among the first `n`) that is not blank, or -1.
pub open spec fn last_content_row(cells: Seq<Seq<Cell>>, n: int) -> int
    decreases n,
{
    if n <= 0 {
        -1
    } else if !row_blank(cells[n - 1]) {
        n - 1
    } else {
        last_content_row(cells, n - 1)
    }
}

pub proof fn lemma_last_content_row_bound(cells: Seq<Seq<Cell>>, n: int)
    ensures
        -1 <= last_content_row(cells, n) < if n > 0 { n } else { 0 },
    decreases n,
{
    if n > 0 {
        lemma_last_content_row_bound(cells, n - 1);
    }
}

/// The rows of the main screen that belong to the live tail: down to the
/// cursor or the last row with content, whichever is lower.
pub open spec fn active_rows(v: ScreenView) -> int {
    if v.saved_main is Some {
        v.rows as int
    } else if v.rows == 0 {
        0
    } else {
        min_int(max_int(v.cursor_y as int, last_content_row(v.cells, v.rows as int)) + 1, v.rows as int)
    }
}

/// First virtual line of the live tail in a viewport of `viewport_rows` rows
/// (virtual lines: the scrollback's visual rows, then the screen's rows).
pub open spec fn live_start(v: ScreenView, viewport_rows: usize) -> int {
    if v.saved_main is Some {
        0
    } else {
        max_int(min_int(visual_rows(v).len() + active_rows(v), usize::MAX as int) - viewport_rows, 0)
    }
}

pub open spec fn viewport_start(v: ScreenView, viewport_rows: usize, scroll_offset: usize) -> int {
    live_start(v, viewport_rows) - min_int(scroll_offset as int, live_start(v, viewport_rows))
}

/// The viewport row the cursor shows on, if it is visible at all.
pub open spec fn cursor_row_in_viewport(v: ScreenView, viewport_rows: usize, scroll_offset: usize) -> Option<usize> {
    if v.saved_main is Some {
        if v.cursor_y < viewport_rows { Some(v.cursor_y) } else { None }
    } else if scroll_offset != 0 {
        None
    } else {
        let line = min_int(visual_rows(v).len() + v.cursor_y, usize::MAX as int);
        let start = viewport_start(v, viewport_rows, scroll_offset);
        if start <= line < start + viewport_rows { Some((line - start) as usize) } else { None }
    }
}

/// On the main screen the live tail always reaches the cursor's row, and no
/// further than the last row with content below it. At the live tail (scroll
/// offset 0) the cursor shows in any viewport tall enough for the rows from the
/// cursor's down to the tail's end: on the row that many rows above the
/// viewport's bottom, or lower when history is too short to fill the viewport.
/// With nothing below the cursor that is every viewport of at least one row.
pub proof fn lemma_live_tail_holds_cursor(v: ScreenView, viewport_rows: usize)
    requires
        model_ok(v),
        v.saved_main is None,
        v.rows >= 1,
        visual_rows(v).len() + v.rows <= usize::MAX,
    ensures
        v.cursor_y < active_rows(v) <= v.rows,
        active_rows(v) == max_int(v.cursor_y as int, last_content_row(v.cells, v.rows as int)) + 1,
        last_content_row(v.cells, v.rows as int) <= v.cursor_y ==> active_rows(v) == v.cursor_y + 1,
        viewport_rows + v.cursor_y >= active_rows(v) ==> {
            let below = active_rows(v) - v.cursor_y;
            let hist = visual_rows(v).len() + v.cursor_y;
            cursor_row_in_viewport(v, viewport_rows, 0) == Some(
                (if hist + below >= viewport_rows { viewport_rows - below } else { hist }) as usize,
            )
        },
        viewport_rows + v.cursor_y < active_rows(v) ==> cursor_row_in_viewport(v, viewport_rows, 0)
            is None,
{
    lemma_model_elim(v);
    lemma_last_content_row_bound(v.cells, v.rows as int);
}

/// Scrolling back moves the viewport toward older history one line per unit
/// of offset and stops at the oldest line: the start never passes the live
/// tail's start nor goes below line 0, and a larger offset never shows newer
/// lines than a smaller one.
pub proof fn lemma_scroll_offset_moves_back(v: ScreenView, viewport_rows: usize, a: usize, b: usize)
    requires
        a <= b,
    ensures
        0 <= viewport_start(v, viewport_rows, b) <= viewport_start(v, viewport_rows, a)
            <= live_start(v, viewport_rows),
        viewport_start(v, viewport_rows, 0) == live_start(v, viewport_rows),
        b <= live_start(v, viewport_rows) ==> viewport_start(v, viewport_rows, b) == live_start(v, viewport_rows) - b,
        b >= live_start(v, viewport_rows) ==> viewport_start(v, viewport_rows, b) == 0,
{
}

/// The row at a virtual line: on the main screen the scrollback's visual rows
/// come first, then the screen's rows; the alternate screen has no history.
pub open spec fn row_at_virtual(v: ScreenView, i: int) -> Option<Seq<Cell>> {
    if v.saved_main is Some {
        if 0 <= i < v.cells.len() { Some(v.cells[i]) } else { None }
    } else if 0 <= i < visual_rows(v).len() {
        Some(visual_rows(v)[i])
    } else if 0 <= i - visual_rows(v).len() < v.rows && i - visual_rows(v).len() < v.cells.len() {
        Some(v.cells[i - visual_rows(v).len()])
    } else {
        None
    }
}

/// Whether a virtual line is a soft-wrap continuation.
pub open spec fn virtual_wrapped(v: ScreenView, i: int) -> bool {
    if v.saved_main is Some {
        0 <= i < v.wrapped.len() && v.wrapped[i]
    } else if 0 <= i < visual_rows(v).len() {
        visual_flags(v)[i]
    } else {
        0 <= i - visual_rows(v).len() < v.wrapped.len() && v.wrapped[i - visual_rows(v).len()]
    }
}

/// CSI parameter `i`, with `d` standing for a missing or zero parameter.
pub open spec fn param_or(params: Seq<i64>, i: int, d: i64) -> i64 {
    if 0 <= i < params.len() {
        if params[i] == 0 {
            d
        } else {
            params[i]
        }
    } else {
        d
    }
}

/// `a - b`, or 0 when `b` is larger (`saturating_sub`).
pub open spec fn sat_sub(a: int, b: int) -> int {
    if a > b {
        a - b
    } else {
        0
    }
}

pub open spec fn with_cursor(v: ScreenView, x: usize, y: usize) -> ScreenView {
    ScreenView { cursor_x: x, cursor_y: y, pending_wrap: false, ..v }
}

/// CUU / CUD / CNL / CPL / CHA: cursor moves clamped to the screen.
pub open spec fn cursor_up(v: ScreenView, n: usize) -> ScreenView {
    with_cursor(v, v.cursor_x, sat_sub(v.cursor_y as int, n as int) as usize)
}

pub open spec fn cursor_down(v: ScreenView, n: usize) -> ScreenView {
    with_cursor(v, v.cursor_x, min_int(v.cursor_y + n, last_index(v.rows) as int) as usize)
}

pub open spec fn next_line(v: ScreenView, n: usize) -> ScreenView {
    with_cursor(v, 0, min_int(v.cursor_y + n, last_index(v.rows) as int) as usize)
}

pub open spec fn previous_line(v: ScreenView, n: usize) -> ScreenView {
    with_cursor(v, 0, sat_sub(v.cursor_y as int, n as int) as usize)
}

pub open spec fn column_absolute(v: ScreenView, n: usize) -> ScreenView {
    with_cursor(v, min_int(sat_sub(n as int, 1), last_index(v.cols) as int) as usize, v.cursor_y)
}

/// The cursor column moved off a continuation slot.
pub open spec fn normalized(v: ScreenView) -> ScreenView {
    ScreenView { cursor_x: normalized_x(v.cells[v.cursor_y as int], v.cursor_x as int, v.cols as int) as usize, ..v }
}

/// CUF: buffer columns on the alternate screen, display columns on the main
/// screen (zsh counts display columns).
pub open spec fn cursor_forward(v: ScreenView, n: usize) -> ScreenView {
    if v.saved_main is Some {
        normalized(with_cursor(v, min_int(v.cursor_x + n, last_index(v.cols) as int) as usize, v.cursor_y))
    } else {
        normalized(at_display_col(v, min_int(cursor_display_col_of(v) + n, usize::MAX as int)))
    }
}

/// CUB, likewise.
pub open spec fn cursor_back(v: ScreenView, n: usize) -> ScreenView {
    if v.saved_main is Some {
        normalized(with_cursor(v, sat_sub(v.cursor_x as int, n as int) as usize, v.cursor_y))
    } else {
        at_display_col(v, max_int(cursor_display_col_of(v) - n, 0))
    }
}

/// Rows `from..to` erased whole.
pub open spec fn erased_rows(v: ScreenView, from: int, to: int, use_default: bool) -> ScreenView
    decreases to - from,
{
    if from >= to {
        v
    } else {
        erased_rows(erased_in_row(v, from, 0, v.cols, use_default), from + 1, to, use_default)
    }
}

/// ED: erase below (0), above (1), or all (2, 3; in the default rendition).
#[verifier::opaque]
pub open spec fn erase_display(v: ScreenView, mode: i64) -> ScreenView {
    if mode == 0 {
        erased_rows(erased_in_row(v, v.cursor_y as int, v.cursor_x, v.cols, false), v.cursor_y + 1, v.rows as int, false)
    } else if mode == 1 {
        erased_in_row(erased_rows(v, 0, v.cursor_y as int, false), v.cursor_y as int, 0,
            min_int(v.cursor_x + 1, usize::MAX as int) as usize, false)
    } else if mode == 2 || mode == 3 {
        erased_rows(v, 0, v.rows as int, true)
    } else {
        v
    }
}

/// EL: erase to the right (0), to the left (1), or the whole line (2).
#[verifier::opaque]
pub open spec fn erase_line(v: ScreenView, mode: i64) -> ScreenView {
    let y = v.cursor_y as int;
    if mode == 0 {
        erased_in_row(v, y, v.cursor_x, v.cols, false)
    } else if mode == 1 {
        erased_in_row(v, y, 0, min_int(v.cursor_x + 1, usize::MAX as int) as usize, false)
    } else if mode == 2 {
        erased_in_row(v, y, 0, v.cols, false)
    } else {
        v
    }
}

/// IL, `n` times: the region's bottom row drops out and a blank row opens at the cursor.
pub open spec fn inserted_lines(v: ScreenView, n: nat) -> ScreenView
    decreases n,
{
    if n == 0 {
        v
    } else {
        let w = inserted_lines(v, (n - 1) as nat);
        ScreenView {
            cells: w.cells.remove(w.scroll_bottom as int).insert(w.cursor_y as int, blank_row(w.cols as nat)),
            wrapped: w.wrapped.remove(w.scroll_bottom as int).insert(w.cursor_y as int, false),
            ..w
        }
    }
}

/// DL, `n` times: the cursor's row drops out and a blank row opens at the region's bottom.
pub open spec fn deleted_lines(v: ScreenView, n: nat) -> ScreenView
    decreases n,
{
    if n == 0 {
        v
    } else {
        let w = deleted_lines(v, (n - 1) as nat);
        ScreenView {
            cells: w.cells.remove(w.cursor_y as int).insert(w.scroll_bottom as int, blank_row(w.cols as nat)),
            wrapped: w.wrapped.remove(w.cursor_y as int).insert(w.scroll_bottom as int, false),
            ..w
        }
    }
}

/// DCH, `n` times on a row: the cell at `x` drops out and a blank enters at the end.
pub open spec fn deleted_chars(row: Seq<Cell>, x: int, n: nat) -> Seq<Cell>
    decreases n,
{
    if n == 0 {
        row
    } else {
        deleted_chars(row, x, (n - 1) as nat).remove(x).push(blank_cell())
    }
}

/// ICH, `n` times on a row: a blank enters at `x` and the last cell drops out.
pub open spec fn inserted_chars(row: Seq<Cell>, x: int, n: nat) -> Seq<Cell>
    decreases n,
{
    if n == 0 {
        row
    } else {
        inserted_chars(row, x, (n - 1) as nat).insert(x, blank_cell()).drop_last()
    }
}

pub open spec fn with_row(v: ScreenView, y: int, row: Seq<Cell>) -> ScreenView {
    ScreenView { cells: v.cells.update(y, row), ..v }
}

/// An SGR attribute parameter below 30 (0 resets to the default rendition).
pub open spec fn sgr_attr_step(a: Cell, pd: bool, d: Cell, p: i64) -> (Cell, bool) {
    if p == 0 {
        (d, false)
    } else if p == 1 {
        (Cell { bold: true, ..a }, pd)
    } else if p == 2 {
        let a2 = Cell { dim: true, ..a };
        (a2, suggest_attrs(a2))
    } else if p == 3 {
        (Cell { italic: true, ..a }, pd)
    } else if p == 4 {
        (Cell { underline: true, ..a }, pd)
    } else if p == 5 || p == 6 {
        (Cell { blink: true, ..a }, pd)
    } else if p == 7 {
        (Cell { reverse: true, ..a }, pd)
    } else if p == 9 {
        (Cell { strikethrough: true, ..a }, pd)
    } else if p == 22 {
        (Cell { bold: false, dim: false, ..a }, pd)
    } else if p == 23 {
        (Cell { italic: false, ..a }, pd)
    } else if p == 24 {
        (Cell { underline: false, ..a }, pd)
    } else if p == 25 {
        (Cell { blink: false, ..a }, pd)
    } else if p == 27 {
        (Cell { reverse: false, ..a }, pd)
    } else if p == 29 {
        (Cell { strikethrough: false, ..a }, pd)
    } else {
        (a, pd)
    }
}

/// An SGR colour parameter (30 and up) at `i`; 38 and 48 take their
/// 256-colour (`;5;n`) or RGB (`;2;r;g;b`) arguments.
pub open spec fn sgr_color_step(a: Cell, pd: bool, params: Seq<i64>, i: int) -> (Cell, bool, int) {
    let p = params[i];
    let n = params.len();
    if 30 <= p <= 37 {
        (Cell { fg: Color::Indexed((p - 30) as u8), ..a }, pd, i + 1)
    } else if p == 38 {
        if i + 2 < n && params[i + 1] == 5 {
            let a2 = Cell { fg: Color::Indexed(params[i + 2] as u8), ..a };
            (a2, suggest_attrs(a2), i + 3)
        } else if i + 4 < n && params[i + 1] == 2 {
            (Cell { fg: Color::Rgb(params[i + 2] as u8, params[i + 3] as u8, params[i + 4] as u8), ..a }, pd, i + 5)
        } else {
            (a, pd, i + 1)
        }
    } else if p == 39 {
        (Cell { fg: Color::Default, ..a }, false, i + 1)
    } else if 40 <= p <= 47 {
        (Cell { bg: Color::Indexed((p - 40) as u8), ..a }, pd, i + 1)
    } else if p == 48 {
        if i + 2 < n && params[i + 1] == 5 {
            (Cell { bg: Color::Indexed(params[i + 2] as u8), ..a }, pd, i + 3)
        } else if i + 4 < n && params[i + 1] == 2 {
            (Cell { bg: Color::Rgb(params[i + 2] as u8, params[i + 3] as u8, params[i + 4] as u8), ..a }, pd, i + 5)
        } else {
            (a, pd, i + 1)
        }
    } else if p == 49 {
        (Cell { bg: Color::Default, ..a }, pd, i + 1)
    } else if 90 <= p <= 97 {
        (Cell { fg: Color::Indexed((p - 90 + 8) as u8), ..a }, pd, i + 1)
    } else if 100 <= p <= 107 {
        (Cell { bg: Color::Indexed((p - 100 + 8) as u8), ..a }, pd, i + 1)
    } else {
        (a, pd, i + 1)
    }
}

/// One SGR parameter at `i` applied to (attributes, suggestion flag); gives
/// the index of the next parameter.
pub open spec fn sgr_step(a: Cell, pd: bool, d: Cell, params: Seq<i64>, i: int) -> (Cell, bool, int) {
    if params[i] < 30 {
        let r = sgr_attr_step(a, pd, d, params[i]);
        (r.0, r.1, i + 1)
    } else {
        sgr_color_step(a, pd, params, i)
    }
}

/// The SGR parameters from `i` on applied in order.
pub open spec fn sgr_from(a: Cell, pd: bool, d: Cell, params: Seq<i64>, i: int) -> (Cell, bool)
    decreases params.len() - i,
{
    if i < 0 || i >= params.len() {
        (a, pd)
    } else {
        let st = sgr_step(a, pd, d, params, i);
        if st.2 <= i {
            (a, pd)
        } else {
            sgr_from(st.0, st.1, d, params, st.2)
        }
    }
}

/// SGR: select graphic rendition (no parameters: reset).
pub open spec fn after_sgr(v: ScreenView, params: Seq<i64>) -> ScreenView {
    let r = if params.len() == 0 {
        (v.default_attrs, false)
    } else {
        sgr_from(v.current_attrs, v.shell.postdisplay_leading_space, v.default_attrs, params, 0)
    };
    ScreenView {
        current_attrs: r.0,
        shell: ShellState { postdisplay_leading_space: r.1, ..v.shell },
        ..v
    }
}

/// DECSTBM: the scroll region (1-based, clamped to the screen); the cursor
/// goes to the region's top margin. A region whose top lies below its
/// bottom is refused.
pub open spec fn after_set_region(v: ScreenView, params: Seq<i64>) -> ScreenView {
    let top = param_or(params, 0, 1) as usize;
    let bot = param_or(params, 1, v.rows as i64) as usize;
    let t = min_int(sat_sub(top as int, 1), last_index(v.rows) as int) as usize;
    let b = min_int(sat_sub(bot as int, 1), last_index(v.rows) as int) as usize;
    if t > b {
        // An inverted region is refused: nothing changes.
        v
    } else {
        ScreenView { scroll_top: t, scroll_bottom: b, cursor_x: 0, cursor_y: t, pending_wrap: false, ..v }
    }
}

pub open spec fn with_modes(v: ScreenView, m: Modes) -> ScreenView {
    ScreenView { modes: m, ..v }
}

/// What a DEC private mode (other than the alternate screen) sets: the modes,
/// origin mode, the pending wrap and cursor visibility.
pub open spec fn private_mode_fields(m: Modes, origin: bool, pending: bool, visible: bool, in_alt: bool, p: i64, set: bool) -> (Modes, bool, bool, bool) {
    if p == 1 {
        (Modes { app_cursor_keys: set, ..m }, origin, pending, visible)
    } else if p == 6 {
        // DECOM on the alternate screen breaks full-screen TUIs: CUP 1;1
        // must reach screen row 0 there.
        (m, set && !in_alt, pending, visible)
    } else if p == 7 {
        (Modes { auto_wrap: set, ..m }, origin, if set { pending } else { false }, visible)
    } else if p == 25 {
        (m, origin, pending, set)
    } else if p == 2004 {
        (Modes { bracketed_paste: set, ..m }, origin, pending, visible)
    } else if p == 1000 {
        (Modes { mouse_report_clicks: set, ..m }, origin, pending, visible)
    } else if p == 1002 {
        (Modes { mouse_report_drag: set, ..m }, origin, pending, visible)
    } else if p == 1003 {
        (Modes {
            mouse_report_motion: set,
            mouse_report_drag: if set { true } else { m.mouse_report_drag },
            mouse_report_clicks: if set { true } else { m.mouse_report_clicks },
            ..m
        }, origin, pending, visible)
    } else if p == 1006 {
        (Modes { mouse_sgr_encoding: set, ..m }, origin, pending, visible)
    } else {
        (m, origin, pending, visible)
    }
}

/// A DEC private mode other than the alternate screen.
pub open spec fn private_mode_step(v: ScreenView, p: i64, set: bool) -> ScreenView {
    let r = private_mode_fields(v.modes, v.origin_mode, v.pending_wrap, v.cursor_visible, v.saved_main is Some, p, set);
    ScreenView { modes: r.0, origin_mode: r.1, pending_wrap: r.2, cursor_visible: r.3, ..v }
}

/// One DECSET/DECRST (or SM/RM) parameter.
#[verifier::opaque]
pub open spec fn mode_step(v: ScreenView, p: i64, set: bool, private: bool) -> ScreenView {
    if p == 47 || p == 1047 {
        if set { after_enter_alt(v, false) } else { after_leave_alt(v, false) }
    } else if p == 1049 {
        if set { after_enter_alt(v, true) } else { after_leave_alt(v, true) }
    } else if private {
        private_mode_step(v, p, set)
    } else if p == 25 {
        ScreenView { cursor_visible: set, ..v }
    } else {
        v
    }
}

pub open spec fn modes_from(v: ScreenView, params: Seq<i64>, set: bool, private: bool, i: int) -> ScreenView
    decreases params.len() - i,
{
    if i < 0 || i >= params.len() {
        v
    } else {
        modes_from(mode_step(v, params[i], set, private), params, set, private, i + 1)
    }
}

/// The decimal digits of `n`.
pub open spec fn decimal(n: nat) -> Seq<u8>
    decreases n,
{
    if n < 10 {
        seq![(48 + n) as u8]
    } else {
        decimal(n / 10).push((48 + n % 10) as u8)
    }
}

pub open spec fn with_response(v: ScreenView, bytes: Seq<u8>) -> ScreenView {
    ScreenView { outgoing: v.outgoing.push(EventView::Response(bytes)), ..v }
}

/// DSR answers: 5 reports OK, 6 the cursor position (1-based).
pub open spec fn after_status_report(v: ScreenView, n: i64) -> ScreenView {
    if n == 5 {
        with_response(v, seq![0x1bu8, 0x5bu8, 0x30u8, 0x6eu8])
    } else if n == 6 {
        with_response(v, seq![0x1bu8, 0x5bu8] + decimal((v.cursor_y + 1) as nat) + seq![0x3bu8]
            + decimal((v.cursor_x + 1) as nat) + seq![0x52u8])
    } else {
        v
    }
}

/// Window reports: 14 the size in pixels (16 x 8 per cell), 18 in cells.
pub open spec fn after_window_op(v: ScreenView, ps: i64) -> ScreenView {
    if ps == 14 {
        with_response(v, seq![0x1bu8, 0x5bu8, 0x34u8, 0x3bu8] + decimal(max_int(min_int(v.rows * 16, usize::MAX as int), 1) as nat)
            + seq![0x3bu8] + decimal(max_int(min_int(v.cols * 8, usize::MAX as int), 1) as nat) + seq![0x74u8])
    } else if ps == 18 {
        with_response(v, seq![0x1bu8, 0x5bu8, 0x38u8, 0x3bu8] + decimal(v.rows as nat) + seq![0x3bu8]
            + decimal(v.cols as nat) + seq![0x74u8])
    } else {
        v
    }
}

/// CSI cursor motion: CUU CUD CUF CUB CNL CPL CHA CUP HVP VPA.
#[verifier::opaque]
pub open spec fn csi_motion(v: ScreenView, params: Seq<i64>, f: u8) -> ScreenView {
    let n1 = param_or(params, 0, 1) as usize;
    if f == 0x41 {
        cursor_up(v, n1)
    } else if f == 0x42 {
        cursor_down(v, n1)
    } else if f == 0x43 {
        cursor_forward(v, n1)
    } else if f == 0x44 {
        cursor_back(v, n1)
    } else if f == 0x45 {
        next_line(v, n1)
    } else if f == 0x46 {
        previous_line(v, n1)
    } else if f == 0x47 {
        column_absolute(v, n1)
    } else if f == 0x48 || f == 0x66 {
        at_position(v, sat_sub(n1 as int, 1) as usize, sat_sub(param_or(params, 1, 1) as usize as int, 1) as usize)
    } else if f == 0x64 {
        at_position(v, sat_sub(n1 as int, 1) as usize, v.cursor_x)
    } else {
        v
    }
}

/// CSI editing: ED EL IL DL DCH ICH SU SD ECH.
#[verifier::opaque]
pub open spec fn csi_edit(v: ScreenView, params: Seq<i64>, f: u8) -> ScreenView {
    let n1 = param_or(params, 0, 1) as usize;
    let nmin = if n1 >= 1 { n1 } else { 1usize };
    if f == 0x4a {
        erase_display(v, param_or(params, 0, 0))
    } else if f == 0x4b {
        erase_line(v, param_or(params, 0, 0))
    } else if f == 0x4c {
        inserted_lines(v, nmin as nat)
    } else if f == 0x4d {
        deleted_lines(v, nmin as nat)
    } else if f == 0x50 {
        with_row(v, v.cursor_y as int, deleted_chars(v.cells[v.cursor_y as int], v.cursor_x as int, nmin as nat))
    } else if f == 0x40 {
        with_row(v, v.cursor_y as int, inserted_chars(v.cells[v.cursor_y as int], v.cursor_x as int, nmin as nat))
    } else if f == 0x53 {
        scrolled_up(v, min_int(nmin as int, region_count(v.scroll_top, v.scroll_bottom)) as nat)
    } else if f == 0x54 {
        scrolled_down(v, min_int(nmin as int, region_count(v.scroll_top, v.scroll_bottom)) as nat)
    } else if f == 0x58 {
        erased_in_row(v, v.cursor_y as int, v.cursor_x, min_int(v.cursor_x + nmin, v.cols as int) as usize, false)
    } else {
        v
    }
}

/// CSI settings and reports: SGR DSR DECSTBM SM RM DA SCOSC SCORC XTWINOPS.
#[verifier::opaque]
pub open spec fn csi_settings(v: ScreenView, params: Seq<i64>, intermediates: Seq<u8>, f: u8) -> ScreenView {
    if f == 0x6d {
        after_sgr(v, params)
    } else if f == 0x6e {
        after_status_report(v, param_or(params, 0, 0))
    } else if f == 0x72 {
        after_set_region(v, params)
    } else if f == 0x68 || f == 0x6c {
        modes_from(v, params, f == 0x68, intermediates.contains(0x3fu8), 0)
    } else if f == 0x63 {
        if param_or(params, 0, 0) == 0 { with_response(v, seq![0x1bu8, 0x5bu8, 0x3fu8, 0x31u8, 0x3bu8, 0x32u8, 0x63u8]) } else { v }
    } else if f == 0x73 {
        ScreenView { saved_cursor_x: v.cursor_x, saved_cursor_y: v.cursor_y, ..v }
    } else if f == 0x75 {
        with_cursor(v, min_int(v.saved_cursor_x as int, last_index(v.cols) as int) as usize,
            min_int(v.saved_cursor_y as int, last_index(v.rows) as int) as usize)
    } else if f == 0x74 {
        after_window_op(v, param_or(params, 0, 0))
    } else {
        v
    }
}

pub open spec fn is_motion_final(f: u8) -> bool {
    (0x41 <= f <= 0x48) || f == 0x66 || f == 0x64
}

pub open spec fn is_edit_final(f: u8) -> bool {
    f == 0x4a || f == 0x4b || f == 0x4c || f == 0x4d || f == 0x50 || f == 0x40 || f == 0x53 || f == 0x54 || f == 0x58
}

/// A CSI sequence's effect (its deferred carriage return already carried out).
#[verifier::opaque]
pub open spec fn csi_effect(v: ScreenView, params: Seq<i64>, intermediates: Seq<u8>, f: u8) -> ScreenView {
    if is_motion_final(f) {
        csi_motion(v, params, f)
    } else if is_edit_final(f) {
        csi_edit(v, params, f)
    } else {
        csi_settings(v, params, intermediates, f)
    }
}

/// The DEC special graphics set (line drawing), looked up by the low byte.
pub open spec fn dec_graphics_char(c: char) -> char {
    let b = c as u8;
    if b == 0x2b { '\u{2192}' }
    else if b == 0x2c { '\u{2190}' }
    else if b == 0x2d { '\u{2191}' }
    else if b == 0x2e { '\u{2193}' }
    else if b == 0x30 { '\u{2588}' }
    else if b == 0x60 { '\u{25C6}' }
    else if b == 0x61 { '\u{2592}' }
    else if b == 0x66 { '\u{00B0}' }
    else if b == 0x67 { '\u{00B1}' }
    else if b == 0x68 { '\u{2424}' }
    else if b == 0x6a { '\u{2518}' }
    else if b == 0x6b { '\u{2510}' }
    else if b == 0x6c { '\u{250C}' }
    else if b == 0x6d { '\u{2514}' }
    else if b == 0x6e { '\u{253C}' }
    else if b == 0x6f { '\u{23BA}' }
    else if b == 0x70 { '\u{23BB}' }
    else if b == 0x71 { '\u{2500}' }
    else if b == 0x72 { '\u{23BC}' }
    else if b == 0x73 { '\u{23BD}' }
    else if b == 0x74 { '\u{251C}' }
    else if b == 0x75 { '\u{2524}' }
    else if b == 0x76 { '\u{2534}' }
    else if b == 0x77 { '\u{252C}' }
    else if b == 0x78 { '\u{2502}' }
    else if b == 0x79 { '\u{2264}' }
    else if b == 0x7a { '\u{2265}' }
    else if b == 0x7e { '\u{00B7}' }
    else { c }
}

/// A character through the active character set (G0 or G1).
pub open spec fn translated(m: Modes, c: char) -> char {
    let set = if m.charset == 0 { m.g0_charset } else if m.charset == 1 { m.g1_charset } else { Charset::UsAscii };
    if set == Charset::DecGraphics { dec_graphics_char(c) } else { c }
}

/// Output of a printable character.
#[verifier::opaque]
pub open spec fn after_print(v: ScreenView, c: char) -> ScreenView {
    let v1 = after_flush_cr(v);
    let v2 = ScreenView {
        shell: ShellState {
            suppress_extra_crlf_newline: false,
            in_zsh_line_pad: if v1.shell.in_zsh_line_pad && c != ' ' { false } else { v1.shell.in_zsh_line_pad },
            ..v1.shell
        },
        ..v1
    };
    after_put_char(v2, translated(v2.modes, c))
}

/// BS, DEL and HT (after the deferred carriage return).
#[verifier::opaque]
pub open spec fn after_edit_control(v: ScreenView, b: u8) -> ScreenView {
    if b == 0x08 {
        after_backspace(after_flush_cr(v))
    } else if b == 0x7f {
        after_erase_left(after_flush_cr(v))
    } else {
        after_tab(after_flush_cr(v))
    }
}

/// LF/VT/FF, CR, SO and SI.
#[verifier::opaque]
pub open spec fn after_line_control(v: ScreenView, b: u8) -> ScreenView {
    if b == 0x0a || b == 0x0b || b == 0x0c {
        after_lf(ScreenView { pending_wrap: false, shell: ShellState { pending_cr: false, ..v.shell }, ..v }, v.shell.pending_cr)
    } else if b == 0x0d {
        // The carriage return waits: a following `\n` may make it part of `\r\n`.
        ScreenView { pending_wrap: false, shell: ShellState { pending_cr: true, ..v.shell }, ..v }
    } else if b == 0x0e {
        let w = after_flush_cr(v);
        with_modes(w, Modes { charset: 1, ..w.modes })
    } else if b == 0x0f {
        let w = after_flush_cr(v);
        with_modes(w, Modes { charset: 0, ..w.modes })
    } else {
        v
    }
}

/// A C0 control (BEL and the controls not listed are ignored).
#[verifier::opaque]
pub open spec fn after_execute(v: ScreenView, b: u8) -> ScreenView {
    if b == 0x08 || b == 0x7f || b == 0x09 {
        after_edit_control(v, b)
    } else {
        after_line_control(v, b)
    }
}

/// The character set an SCS sequence names by its final byte: `0` the DEC
/// special graphics, anything else (`B` among them) US-ASCII.
pub open spec fn designated(f: u8) -> Charset {
    if f == 0x30 { Charset::DecGraphics } else { Charset::UsAscii }
}

/// Whether an ESC sequence is an SCS designation: its first intermediate is
/// `(` (G0) or `)` (G1).
pub open spec fn is_designation(intermediates: Seq<u8>) -> bool {
    intermediates.len() > 0 && (intermediates[0] == 0x28 || intermediates[0] == 0x29)
}

/// G0 (or G1) designated by `ESC ( f` (or `ESC ) f`).
pub open spec fn designated_modes(m: Modes, f: u8, g1: bool) -> Modes {
    if g1 {
        Modes { g1_charset: designated(f), ..m }
    } else {
        Modes { g0_charset: designated(f), ..m }
    }
}

/// An ESC sequence's effect (its deferred carriage return already carried out).
#[verifier::opaque]
pub open spec fn esc_effect(v: ScreenView, intermediates: Seq<u8>, f: u8) -> ScreenView {
    if intermediates.len() == 1 && intermediates[0] == 0x4f && 0x41 <= f <= 0x44 {
        // SS3 cursor keys: the same motion as CSI.
        csi_effect(after_flush_cr(v), seq![1i64], seq![], f)
    } else if is_designation(intermediates) {
        // SCS: designate G0 (`ESC ( f`) or G1 (`ESC ) f`).
        with_modes(v, designated_modes(v.modes, f, intermediates[0] == 0x29))
    } else if f == 0x44 {
        after_index(v)
    } else if f == 0x45 {
        after_index(ScreenView { cursor_x: 0, ..v })
    } else if f == 0x48 {
        if v.cursor_x < v.cols { ScreenView { tab_stops: v.tab_stops.update(v.cursor_x as int, true), ..v } } else { v }
    } else if f == 0x4d {
        if v.cursor_y == v.scroll_top {
            scrolled_down(v, min_int(1, region_count(v.scroll_top, v.scroll_bottom)) as nat)
        } else {
            ScreenView { cursor_y: sat_sub(v.cursor_y as int, 1) as usize, ..v }
        }
    } else if f == 0x37 {
        ScreenView { saved_cursor_x: v.cursor_x, saved_cursor_y: v.cursor_y, ..v }
    } else if f == 0x38 {
        with_cursor(v, min_int(v.saved_cursor_x as int, last_index(v.cols) as int) as usize,
            min_int(v.saved_cursor_y as int, last_index(v.rows) as int) as usize)
    } else if f == 0x3d {
        with_modes(v, Modes { app_keypad: true, ..v.modes })
    } else if f == 0x3e {
        with_modes(v, Modes { app_keypad: false, ..v.modes })
    } else if f == 0x63 {
        fresh_screen(v.rows, v.cols)
    } else {
        v
    }
}

/// The window title an OSC string sets (`0;title` or `2;title`; a bare `0`
/// clears it).
pub open spec fn osc_title(data: Seq<char>, title: Seq<char>) -> Seq<char> {
    if data.len() >= 2 && (data[0] == '0' || data[0] == '2') && data[1] == ';' {
        data.subrange(2, data.len() as int)
    } else if data == seq!['0'] {
        seq![]
    } else {
        title
    }
}

pub proof fn lemma_shift_chars_len(row: Seq<Cell>, x: int, n: nat)
    requires
        0 <= x < row.len(),
    ensures
        deleted_chars(row, x, n).len() == row.len(),
        inserted_chars(row, x, n).len() == row.len(),
    decreases n,
{
    if n > 0 {
        lemma_shift_chars_len(row, x, (n - 1) as nat);
    }
}

/// The value of an ASCII hex digit.
pub open spec fn hex_val(c: char) -> Option<u8> {
    if '0' <= c && c <= '9' {
        Some((c as u32 - 48) as u8)
    } else if 'a' <= c && c <= 'f' {
        Some((c as u32 - 87) as u8)
    } else if 'A' <= c && c <= 'F' {
        Some((c as u32 - 55) as u8)
    } else {
        None
    }
}

/// A byte written as two hex digits, the way `u8::from_str_radix(_, 16)`
/// reads it: two digits, or a `+` sign and one digit.
pub open spec fn hex_pair(a: char, b: char) -> Option<u8> {
    if hex_val(a) is Some && hex_val(b) is Some {
        Some((hex_val(a).unwrap() * 16 + hex_val(b).unwrap()) as u8)
    } else if a == '+' && hex_val(b) is Some {
        hex_val(b)
    } else {
        None
    }
}

/// A hex-encoded name decoded from position `i` on, byte by byte (each byte
/// becomes the character with that code); odd lengths and non-digits fail.
pub open spec fn hex_decoded_from(s: Seq<char>, i: int) -> Option<Seq<char>>
    decreases s.len() - i,
{
    if i < 0 || i >= s.len() {
        Some(seq![])
    } else if i + 1 == s.len() {
        None
    } else {
        match hex_pair(s[i], s[i + 1]) {
            Some(b) => match hex_decoded_from(s, i + 2) {
                Some(r) => Some(seq![b as char] + r),
                None => None,
            },
            None => None,
        }
    }
}

/// The `;`-separated, non-empty pieces of `s` (with `cur` the piece begun so far).
pub open spec fn tokens_acc(s: Seq<char>, cur: Seq<char>) -> Seq<Seq<char>>
    decreases s.len(),
{
    if s.len() == 0 {
        if cur.len() > 0 { seq![cur] } else { seq![] }
    } else if s[0] == ';' {
        (if cur.len() > 0 { seq![cur] } else { seq![] }) + tokens_acc(s.drop_first(), seq![])
    } else {
        tokens_acc(s.drop_first(), cur.push(s[0]))
    }
}

/// The termcap/terminfo values this terminal reports.
pub open spec fn cap_value(cap: Seq<char>) -> Option<Seq<char>> {
    if cap == seq!['C', 'o'] || cap == seq!['c', 'o', 'l', 'o', 'r', 's'] {
        Some(seq!['2', '5', '6'])
    } else if cap == seq!['R', 'G', 'B'] || cap == seq!['T', 'c'] {
        Some(seq!['1'])
    } else if cap == seq!['T', 'N'] || cap == seq!['n', 'a', 'm', 'e'] {
        Some(seq!['x', 't', 'e', 'r', 'm', '-', '2', '5', '6', 'c', 'o', 'l', 'o', 'r'])
    } else if cap == seq!['a', 'm'] || cap == seq!['x', 'n'] || cap == seq!['k', 'm'] || cap == seq!['c', 'c']
        || cap == seq!['m', 'i'] || cap == seq!['d', 'a'] || cap == seq!['h', 's'] {
        Some(seq!['1'])
    } else {
        None
    }
}

/// A hex digit (lower case) for a value below 16.
pub open spec fn hex_digit(d: u8) -> u8 {
    if d < 10 {
        (48 + d) as u8
    } else {
        (87 + d) as u8
    }
}

/// Bytes written as lower-case hex, two digits each.
pub open spec fn hex_bytes(b: Seq<u8>) -> Seq<u8>
    decreases b.len(),
{
    if b.len() == 0 {
        seq![]
    } else {
        hex_bytes(b.drop_last()) + seq![hex_digit(b.last() / 16), hex_digit(b.last() % 16)]
    }
}

/// The answer part for one queried capability: `1+r<name>=<value>` when
/// known, `0+r<name>` otherwise (names and values hex-encoded UTF-8).
pub open spec fn token_reply(tok: Seq<char>) -> Seq<u8> {
    let cap = match hex_decoded_from(tok, 0) {
        Some(c) => c,
        None => tok,
    };
    match cap_value(cap) {
        Some(v) => seq![0x31u8, 0x2bu8, 0x72u8] + hex_bytes(encode_utf8(cap)) + seq![0x3du8] + hex_bytes(encode_utf8(v)),
        None => seq![0x30u8, 0x2bu8, 0x72u8] + hex_bytes(encode_utf8(cap)),
    }
}

pub open spec fn replies(toks: Seq<Seq<char>>) -> Seq<u8>
    decreases toks.len(),
{
    if toks.len() == 0 {
        seq![]
    } else {
        replies(toks.drop_last()) + token_reply(toks.last())
    }
}

pub open spec fn strip_char(s: Seq<char>, c: char) -> Seq<char> {
    if s.len() > 0 && s[0] == c {
        s.drop_first()
    } else {
        s
    }
}

/// XTGETTCAP (`DCS + q <hex names> ST`): the DCS answer, `ESC P ... ESC \`.
pub open spec fn xtgettcap_reply(data: Seq<char>) -> Seq<u8> {
    let q = strip_char(strip_char(strip_char(data, '+'), '$'), 'q');
    if q.len() == 0 {
        seq![0x1bu8, 0x50u8, 0x30u8, 0x2bu8, 0x72u8, 0x30u8, 0x1bu8, 0x5cu8]
    } else {
        let toks = tokens_acc(q, seq![]);
        seq![0x1bu8, 0x50u8] + replies(toks) + (if toks.len() == 0 { seq![0x30u8, 0x2bu8, 0x72u8, 0x30u8] } else { seq![] })
            + seq![0x1bu8, 0x5cu8]
    }
}

pub open spec fn char_rows(v: Seq<Vec<char>>) -> Seq<Seq<char>> {
    v.map_values(|r: Vec<char>| r@)
}

/// The saved main screen after a resize while the alternate screen is shown:
/// its grid reflowed like the live main screen's, margins reset.
pub open spec fn resized_main(m: MainView, r: MainReflow, rows: usize, cols: usize) -> MainView {
    MainView {
        cells: r.cells,
        wrapped: r.wrapped,
        cursor_x: min_int(r.cursor_x as int, last_index(cols) as int) as usize,
        cursor_y: min_int(r.cursor_y as int, last_index(rows) as int) as usize,
        current_attrs: m.current_attrs,
        saved_cursor_x: min_int(m.saved_cursor_x as int, last_index(cols) as int) as usize,
        saved_cursor_y: min_int(m.saved_cursor_y as int, last_index(rows) as int) as usize,
        scroll_top: 0,
        scroll_bottom: last_index(rows),
        origin_mode: false,
        pending_wrap: false,
    }
}

/// The screen at a new size. On the main screen the rows are reflowed (see
/// `reflow_main`); on the alternate screen its grid is cut or padded to the
/// new size and the saved main screen is reflowed instead. The cursor stays
/// inside, the scroll region becomes the whole screen, tab stops are reset.
pub open spec fn resized(v: ScreenView, rows: usize, cols: usize) -> ScreenView {
    if rows == v.rows && cols == v.cols {
        v
    } else {
        let v1 = match v.saved_main {
            Some(m) => {
                let r = reflow_main(m.cells, m.wrapped, v.scrollback, v.scrollback_limit, m.cursor_x, m.cursor_y, rows, cols);
                ScreenView {
                    saved_main: Some(resized_main(m, r, rows, cols)),
                    scrollback: r.scrollback,
                    cells: exact_grid(v.cells, v.rows as nat, rows as nat, cols as nat),
                    wrapped: resized_flags(v.wrapped, rows as nat),
                    origin_mode: false,
                    ..v
                }
            },
            None => {
                let r = reflow_main(v.cells, v.wrapped, v.scrollback, v.scrollback_limit, v.cursor_x, v.cursor_y, rows, cols);
                ScreenView {
                    cells: r.cells,
                    wrapped: r.wrapped,
                    scrollback: r.scrollback,
                    cursor_x: r.cursor_x,
                    cursor_y: r.cursor_y,
                    ..v
                }
            },
        };
        ScreenView {
            rows,
            cols,
            cursor_x: min_int(v1.cursor_x as int, last_index(cols) as int) as usize,
            cursor_y: min_int(v1.cursor_y as int, last_index(rows) as int) as usize,
            scroll_top: 0,
            scroll_bottom: last_index(rows),
            tab_stops: default_tab_stops(cols as nat),
            pending_wrap: false,
            ..v1
        }
    }
}

pub proof fn lemma_tab_stops_len(cols: nat)
    ensures
        default_tab_stops(cols).len() == cols,
{
}

impl Screen {
    /// The scrollback's visual cache matches its layout at width `cols`.
    pub closed spec fn cache_ok(&self, cols: nat) -> bool {
        cache_matches(self.visual_cache@, self.visual_starts@, self.visual_wrapped@, self.scrollback@, cols)
    }

    /// Well-formedness: the model's shape, and a visual cache that matches the
    /// scrollback at the current width.
    pub closed spec fn wf(&self) -> bool {
        &&& model_ok(self@)
        &&& self.cache_ok(self.cols as nat)
    }

    /// A screen that terminal output can be fed to.
    pub open spec fn ready(&self) -> bool {
        &&& self.wf()
        &&& self@.rows >= 1
        &&& self@.cols >= 1
    }

    /// The view of a well-formed screen keeps the model's invariants.
    pub proof fn lemma_wf_model(&self)
        requires
            self.wf(),
        ensures
            model_ok(self@),
    {
    }

    pub fn new(rows: usize, cols: usize) -> (s: Self)
        ensures
            s.wf(),
            s@ == fresh_screen(rows, cols),
    {
        let mut cells: Vec<Vec<Cell>> = Vec::new();
        let mut wrapped: Vec<bool> = Vec::new();
        let mut r: usize = 0;
        while r < rows
            invariant
                r <= rows,
                row_views(cells@) == Seq::new(r as nat, |i: int| blank_row(cols as nat)),
                wrapped@ == Seq::new(r as nat, |i: int| false),
            decreases rows - r,
        {
            let ghost before = cells@;
            cells.push(make_blank_row(cols));
            wrapped.push(false);
            assert(row_views(cells@) =~= row_views(before).push(blank_row(cols as nat)));
            assert(row_views(cells@) =~= Seq::new((r + 1) as nat, |i: int| blank_row(cols as nat)));
            assert(wrapped@ =~= Seq::new((r + 1) as nat, |i: int| false));
            r = r + 1;
        }
        let mut tab_stops: Vec<bool> = Vec::new();
        let mut t: usize = 0;
        while t < cols
            invariant
                t <= cols,
                tab_stops@ == default_tab_stops(t as nat),
            decreases cols - t,
        {
            tab_stops.push(t % TAB_STOPS_EVERY == 0);
            assert(tab_stops@ =~= default_tab_stops((t + 1) as nat));
            t = t + 1;
        }
        let s = Screen {
            rows,
            cols,
            cells,
            cursor_x: 0,
            cursor_y: 0,
            saved_cursor_x: 0,
            saved_cursor_y: 0,
            scroll_top: 0,
            scroll_bottom: if rows > 0 { rows - 1 } else { 0 },
            current_attrs: Cell::default(),
            default_attrs: Cell::default(),
            tab_stops,
            scrollback: VecDeque::with_capacity(DEFAULT_SCROLLBACK),
            scrollback_limit: DEFAULT_SCROLLBACK,
            visual_cache: Vec::new(),
            visual_starts: Vec::new(),
            visual_wrapped: Vec::new(),
            cursor_visible: true,
            saved_main: None,
            wrapped,
            outgoing: Vec::new(),
            origin_mode: false,
            pending_wrap: false,
            title: String::new(),
            modes: Modes::initial(),
            shell: ShellState::initial(),
            scroll_scratch: Vec::new(),
        };
        assert(s@.scrollback =~= seq![]);
        assert(s@.outgoing =~= seq![]);
        assert(s@ =~= fresh_screen(rows, cols));
        proof {
            reveal(cache_matches);
            lemma_lines_empty();
            lemma_grid_intro(s@.cells, cols as int);
            lemma_model_intro(s@);
            assert(row_views(s.visual_cache@) =~= seq![]);
            assert(line_views(s.scrollback@) =~= seq![]);
        }
        s
    }

    pub fn in_alternate_screen(&self) -> (b: bool)
        ensures
            b == self@.saved_main is Some,
    {
        self.saved_main.is_some()
    }

    /// Set the scrollback length limit (capped at `MAX_SCROLLBACK`); it takes
    /// effect the next time a line enters the scrollback.
    pub fn set_scrollback_limit(&mut self, limit: usize)
        requires
            old(self).wf(),
        ensures
            final(self).wf(),
            final(self)@ == (ScreenView {
                scrollback_limit: if limit < MAX_SCROLLBACK { limit } else { MAX_SCROLLBACK },
                ..old(self)@
            }),
    {
        proof {
            lemma_model_elim(self@);
        }
        self.scrollback_limit = if limit < MAX_SCROLLBACK { limit } else { MAX_SCROLLBACK };
        proof {
            lemma_model_intro(self@);
        }
    }

    pub fn bracketed_paste_enabled(&self) -> (b: bool)
        ensures
            b == self@.modes.bracketed_paste,
    {
        self.modes.bracketed_paste
    }

    pub fn mouse_tracking_active(&self) -> (b: bool)
        ensures
            b == (self@.modes.mouse_report_clicks || self@.modes.mouse_report_drag
                || self@.modes.mouse_report_motion),
    {
        self.modes.mouse_report_clicks || self.modes.mouse_report_drag || self.modes.mouse_report_motion
    }

    pub fn mouse_report_clicks(&self) -> (b: bool)
        ensures
            b == self@.modes.mouse_report_clicks,
    {
        self.modes.mouse_report_clicks
    }

    pub fn mouse_report_drag(&self) -> (b: bool)
        ensures
            b == self@.modes.mouse_report_drag,
    {
        self.modes.mouse_report_drag
    }

    pub fn mouse_report_motion(&self) -> (b: bool)
        ensures
            b == self@.modes.mouse_report_motion,
    {
        self.modes.mouse_report_motion
    }

    pub fn mouse_sgr_encoding(&self) -> (b: bool)
        ensures
            b == self@.modes.mouse_sgr_encoding,
    {
        self.modes.mouse_sgr_encoding
    }

    pub fn application_cursor_keys(&self) -> (b: bool)
        ensures
            b == self@.modes.app_cursor_keys,
    {
        self.modes.app_cursor_keys
    }

    /// Hand over the pending device reports, oldest first, leaving none.
    pub fn drain_outgoing(&mut self) -> (events: Vec<TermEvent>)
        ensures
            event_views(events@) == old(self)@.outgoing,
            final(self)@ == (ScreenView { outgoing: seq![], ..old(self)@ }),
    {
        let mut events: Vec<TermEvent> = Vec::new();
        std::mem::swap(&mut events, &mut self.outgoing);
        proof {
            assert(event_views(self.outgoing@) =~= seq![]);
            assert(self@.cells == old(self)@.cells);
            assert(self@.scrollback == old(self)@.scrollback);
            assert(self@.saved_main == old(self)@.saved_main);
            assert(self@.title == old(self)@.title);
            assert(self@.outgoing == Seq::<EventView>::empty());
        }
        events
    }
}

impl Screen {
    /// Rebuild the visual cache from all logical lines in the scrollback at the
    /// current width (after the width changes).
    fn rebuild_visual_cache(&mut self)
        ensures
            final(self)@ == old(self)@,
            final(self).cache_ok(final(self).cols as nat),
    {
        let (cache, starts, flags) = build_cache(&self.scrollback, self.cols);
        self.visual_cache = cache;
        self.visual_starts = starts;
        self.visual_wrapped = flags;
        proof {
            assert(self@.cells == old(self)@.cells);
            assert(self@.scrollback == old(self)@.scrollback);
            assert(self@.saved_main == old(self)@.saved_main);
            assert(self@.title == old(self)@.title);
            assert(self@.outgoing == old(self)@.outgoing);
            assert(self@.tab_stops == old(self)@.tab_stops);
            assert(self@.wrapped == old(self)@.wrapped);
        }
    }

    /// Append a new logical line to the scrollback and its visual rows to the cache.
    fn append_logical_with_visuals(&mut self, cells: Vec<LogicalCell>)
        requires
            old(self).cache_ok(old(self)@.cols as nat),
        ensures
            final(self).cache_ok(final(self)@.cols as nat),
            final(self)@ == (ScreenView { scrollback: old(self)@.scrollback.push(cells@), ..old(self)@ }),
    {
        let line = LogicalLine { cells };
        let ghost sb = self.scrollback@;
        cache_push_line(&mut self.visual_cache, &mut self.visual_starts, &mut self.visual_wrapped, Ghost(sb), &line, self.cols);
        self.scrollback.push_back(line);
        proof {
            assert(self.scrollback@ == sb.push(line));
            assert(line_views(self.scrollback@) =~= line_views(sb).push(line.cells@));
            assert(self@.scrollback =~= old(self)@.scrollback.push(line.cells@));
            assert(self@.cells == old(self)@.cells);
            assert(self@.saved_main == old(self)@.saved_main);
            assert(self@.title == old(self)@.title);
            assert(self@.outgoing == old(self)@.outgoing);
        }
    }

    /// Pop the newest logical scrollback line and remove its cached visual rows.
    fn pop_last_logical_with_visuals(&mut self) -> (line: Option<LogicalLine>)
        requires
            old(self).cache_ok(old(self)@.cols as nat),
        ensures
            final(self).cache_ok(final(self)@.cols as nat),
            old(self)@.scrollback.len() == 0 ==> line is None && final(self)@ == old(self)@,
            old(self)@.scrollback.len() > 0 ==> (line matches Some(l) && l.cells@ == old(self)@.scrollback.last()
                && final(self)@ == (ScreenView { scrollback: old(self)@.scrollback.drop_last(), ..old(self)@ })),
    {
        if self.scrollback.len() == 0 {
            return None;
        }
        let ghost sb = self.scrollback@;
        cache_pop_line(&mut self.visual_cache, &mut self.visual_starts, &mut self.visual_wrapped, Ghost(sb), self.cols);
        let line = self.scrollback.pop_back();
        proof {
            assert(self.scrollback@ == sb.drop_last());
            assert(line_views(self.scrollback@) =~= line_views(sb).drop_last());
            assert(self@.scrollback =~= old(self)@.scrollback.drop_last());
            assert(self@.cells == old(self)@.cells);
            assert(self@.saved_main == old(self)@.saved_main);
            assert(self@.title == old(self)@.title);
            assert(self@.outgoing == old(self)@.outgoing);
        }
        line
    }

    /// Extend the last logical line's cells and recompute its visual rows in the cache.
    /// With no line to extend, the cells become a new line.
        fn extend_last_logical_with_visuals(&mut self, cells: Vec<LogicalCell>)
        requires
            old(self).cache_ok(old(self)@.cols as nat),
        ensures
            final(self).cache_ok(final(self)@.cols as nat),
            final(self)@ == with_scrollback(old(self)@, extended_scrollback(old(self)@.scrollback, cells@)),
    {
        if self.scrollback.len() == 0 {
            assert(old(self)@.scrollback.len() == 0);
            assert(extended_scrollback(old(self)@.scrollback, cells@) == old(self)@.scrollback.push(cells@));
            self.append_logical_with_visuals(cells);
            return;
        }
        self.extend_nonempty(cells);
    }

    fn extend_nonempty(&mut self, cells: Vec<LogicalCell>)
        requires
            old(self).cache_ok(old(self)@.cols as nat),
            old(self)@.scrollback.len() > 0,
        ensures
            final(self).cache_ok(final(self)@.cols as nat),
            final(self)@ == with_scrollback(old(self)@, old(self)@.scrollback.drop_last().push(old(self)@.scrollback.last() + cells@)),
    {
        let ghost sb = self.scrollback@;
        cache_pop_line(&mut self.visual_cache, &mut self.visual_starts, &mut self.visual_wrapped, Ghost(sb), self.cols);
        let last = self.scrollback.pop_back();
        let old_line = last.unwrap();
        let line = LogicalLine { cells: concat_cells(old_line.cells, &cells) };
        cache_push_line(&mut self.visual_cache, &mut self.visual_starts, &mut self.visual_wrapped, Ghost(sb.drop_last()), &line, self.cols);
        self.scrollback.push_back(line);
        proof {
            let o = old(self)@;
            assert(self.scrollback@ == sb.drop_last().push(line));
            assert(line_views(self.scrollback@) =~= line_views(sb).drop_last().push(line.cells@));
            assert(self@.scrollback =~= o.scrollback.drop_last().push(o.scrollback.last() + cells@));
            assert(self.cells == old(self).cells);
            assert(self@.cells == o.cells);
            assert(self@.saved_main == o.saved_main);
            assert(self@.title == o.title);
            assert(self@.outgoing == o.outgoing);
            assert(self@.tab_stops == o.tab_stops);
            assert(self@.wrapped == o.wrapped);
            assert(self@.current_attrs == o.current_attrs);
        }
    }
}

impl Screen {
    /// Drop the oldest scrollback line and its cached visual rows.
    fn pop_front_logical_with_visuals(&mut self)
        requires
            old(self).cache_ok(old(self)@.cols as nat),
            old(self)@.scrollback.len() > 0,
        ensures
            final(self).cache_ok(final(self)@.cols as nat),
            final(self)@ == with_scrollback(old(self)@, old(self)@.scrollback.drop_first()),
    {
        let ghost sb = self.scrollback@;
        cache_pop_front(&mut self.visual_cache, &mut self.visual_starts, &mut self.visual_wrapped, Ghost(sb), self.cols);
        let _line = self.scrollback.pop_front();
        proof {
            assert(self.scrollback@ =~= sb.drop_first());
            assert(line_views(self.scrollback@) =~= line_views(sb).drop_first());
            assert(self@.scrollback =~= old(self)@.scrollback.drop_first());
            assert(self@.cells == old(self)@.cells);
            assert(self@.saved_main == old(self)@.saved_main);
            assert(self@.title == old(self)@.title);
            assert(self@.outgoing == old(self)@.outgoing);
        }
    }

    /// Trim the scrollback (and its visual cache) to the newest
    /// `scrollback_limit` lines.
    fn trim_scrollback_front(&mut self)
        requires
            old(self).cache_ok(old(self)@.cols as nat),
        ensures
            final(self).cache_ok(final(self)@.cols as nat),
            final(self)@ == with_scrollback(old(self)@, trim_front(old(self)@.scrollback, old(self)@.scrollback_limit)),
    {
        let ghost o = self@;
        let excess = self.scrollback.len().saturating_sub(self.scrollback_limit);
        let mut k: usize = 0;
        assert(o.scrollback.subrange(0, o.scrollback.len() as int) =~= o.scrollback);
        while k < excess
            invariant
                self.cache_ok(self@.cols as nat),
                k <= excess,
                excess == (if o.scrollback.len() > o.scrollback_limit { o.scrollback.len() - o.scrollback_limit } else { 0 }),
                self@ == with_scrollback(o, o.scrollback.subrange(k as int, o.scrollback.len() as int)),
            decreases excess - k,
        {
            self.pop_front_logical_with_visuals();
            assert(o.scrollback.subrange(k as int, o.scrollback.len() as int).drop_first() =~= o.scrollback.subrange(k + 1, o.scrollback.len() as int));
            k = k + 1;
        }
    }

    /// A blank row as wide as the screen.
    fn blank_scroll_row(&mut self) -> (row: Vec<Cell>)
        ensures
            row@ == blank_row(old(self)@.cols as nat),
            final(self)@ == old(self)@,
            old(self).cache_ok(old(self)@.cols as nat) ==> final(self).cache_ok(final(self)@.cols as nat),
    {
        self.scroll_scratch.clear();
        proof {
            assert(self@.cells == old(self)@.cells);
            assert(self@.scrollback == old(self)@.scrollback);
            assert(self@.saved_main == old(self)@.saved_main);
            assert(self@.title == old(self)@.title);
            assert(self@.outgoing == old(self)@.outgoing);
            assert(self@.tab_stops == old(self)@.tab_stops);
            assert(self@.wrapped == old(self)@.wrapped);
        }
        make_blank_row(self.cols)
    }

    /// Take the region's top row off the screen (into the scrollback on the
    /// main screen) and open a blank row at the region's bottom.
    fn scroll_up_once(&mut self)
        requires
            old(self).wf(),
            old(self)@.rows >= 1,
        ensures
            final(self).wf(),
            final(self)@ == scrolled_up_once(old(self)@),
    {
        let ghost o = self@;
        proof {
            lemma_model_elim(o);
        }
        let start = self.scroll_top;
        let bottom = self.scroll_bottom;
        let next_is_wrapped = if start + 1 < self.wrapped.len() { self.wrapped[start + 1] } else { false };
        let blank = self.blank_scroll_row();
        let removed = remove_insert_row(&mut self.cells, start, bottom, blank);
        let was_wrapped = remove_insert_flag(&mut self.wrapped, start, bottom, false);
        if self.saved_main.is_none() {
            let logical_cells = row_to_logical_cells_with_trim(&removed, !next_is_wrapped);
            if was_wrapped {
                self.extend_last_logical_with_visuals(logical_cells);
            } else {
                self.append_logical_with_visuals(logical_cells);
            }
            self.trim_scrollback_front();
        }
        proof {
            let t = scrolled_up_once(o);
            assert(self@ == t);
            self.lemma_scrollback_widths(o);
        }
    }

    /// Scrolling one row keeps the screen's shape.
    proof fn lemma_scrollback_widths(&self, o: ScreenView)
        requires
            model_ok(o),
            o.rows >= 1,
            self@ == scrolled_up_once(o),
        ensures
            model_ok(self@),
    {
        lemma_model_elim(o);
        let top = o.scroll_top as int;
        let next_wrapped = top + 1 < o.wrapped.len() && o.wrapped[top + 1];
        let lc = row_logical(o.cells[top], !next_wrapped);
        lemma_logical_from_widths(o.cells[top], logical_end(o.cells[top], !next_wrapped), 0);
        lemma_lines_push(o.scrollback, lc);
        let sb1 = if o.wrapped[top] { extended_scrollback(o.scrollback, lc) } else { o.scrollback.push(lc) };
        lemma_lines_trim(sb1, o.scrollback_limit);
        lemma_grid_remove_insert(o.cells, o.rows as int, o.cols as int, top, o.scroll_bottom as int, blank_row(o.cols as nat));
        lemma_model_intro(self@);
    }

    /// Scroll the region up `n` rows (at most its height).
    fn scroll_up(&mut self, n: usize)
        requires
            old(self).wf(),
            old(self)@.rows >= 1,
        ensures
            final(self).wf(),
            final(self)@ == scrolled_up(old(self)@, min_int(n as int, region_count(old(self)@.scroll_top, old(self)@.scroll_bottom)) as nat),
            final(self)@.rows == old(self)@.rows,
            final(self)@.cols == old(self)@.cols,
    {
        let ghost o = self@;
        proof {
            lemma_model_elim(o);
        }
        let region: usize = if self.scroll_top <= self.scroll_bottom {
            self.scroll_bottom - self.scroll_top + 1
        } else {
            0
        };
        let n = if n < region { n } else { region };
        let mut i: usize = 0;
        while i < n
            invariant
                i <= n,
                self.wf(),
                o.rows >= 1,
                self@.rows == o.rows,
                self@.cols == o.cols,
                self@ == scrolled_up(o, i as nat),
            decreases n - i,
        {
            self.scroll_up_once();
            i = i + 1;
        }
    }

    /// Drop the region's bottom row and open a blank row at its top.
    fn scroll_down_once(&mut self)
        requires
            old(self).wf(),
            old(self)@.rows >= 1,
        ensures
            final(self).wf(),
            final(self)@ == scrolled_down_once(old(self)@),
    {
        let ghost o = self@;
        proof {
            lemma_model_elim(o);
        }
        let bottom = self.scroll_bottom;
        let top = self.scroll_top;
        let blank = make_blank_row(self.cols);
        let _removed = remove_insert_row(&mut self.cells, bottom, top, blank);
        let _w = remove_insert_flag(&mut self.wrapped, bottom, top, false);
        proof {
            let t = scrolled_down_once(o);
            assert(self@ == t);
            lemma_grid_remove_insert(o.cells, o.rows as int, o.cols as int, bottom as int, top as int, blank_row(o.cols as nat));
            lemma_model_intro(self@);
        }
    }

    /// Scroll the region down `n` rows (at most its height).
    fn scroll_down(&mut self, n: usize)
        requires
            old(self).wf(),
            old(self)@.rows >= 1,
        ensures
            final(self).wf(),
            final(self)@ == scrolled_down(old(self)@, min_int(n as int, region_count(old(self)@.scroll_top, old(self)@.scroll_bottom)) as nat),
            final(self)@.rows == old(self)@.rows,
            final(self)@.cols == old(self)@.cols,
    {
        let ghost o = self@;
        proof {
            lemma_model_elim(o);
        }
        let region: usize = if self.scroll_top <= self.scroll_bottom {
            self.scroll_bottom - self.scroll_top + 1
        } else {
            0
        };
        let n = if n < region { n } else { region };
        let mut i: usize = 0;
        while i < n
            invariant
                i <= n,
                self.wf(),
                o.rows >= 1,
                self@.rows == o.rows,
                self@.cols == o.cols,
                self@ == scrolled_down(o, i as nat),
            decreases n - i,
        {
            self.scroll_down_once();
            i = i + 1;
        }
    }

    /// Move the cursor to the next line; `wrapped` marks a soft wrap (a
    /// printable character overflowed the right margin). A hard newline clears
    /// the destination row's wrap flag.
    fn newline_with_wrap(&mut self, wrapped: bool)
        requires
            old(self).wf(),
            old(self)@.rows >= 1,
        ensures
            final(self).wf(),
            final(self)@ == after_newline(old(self)@, wrapped),
            final(self)@.rows == old(self)@.rows,
            final(self)@.cols == old(self)@.cols,
    {
        if self.cursor_y == self.scroll_bottom {
            self.scroll_up(1);
            proof {
                lemma_model_elim(self@);
            }
            self.finish_newline(wrapped);
        } else {
            self.newline_within(wrapped);
        }
    }

    /// After a scroll: cursor to column 0 and its row's wrap flag set.
    fn finish_newline(&mut self, wrapped: bool)
        requires
            old(self).wf(),
            old(self)@.rows >= 1,
        ensures
            final(self).wf(),
            final(self)@ == (ScreenView {
                pending_wrap: false,
                cursor_x: 0,
                wrapped: old(self)@.wrapped.update(old(self)@.cursor_y as int, wrapped),
                ..old(self)@
            }),
    {
        proof {
            lemma_model_elim(self@);
        }
        self.cursor_x = 0;
        let y = self.cursor_y;
        self.wrapped.set(y, wrapped);
        self.pending_wrap = false;
        proof {
            lemma_model_intro(self@);
        }
    }

    /// Newline away from the bottom margin: the cursor moves down a row.
    fn newline_within(&mut self, wrapped: bool)
        requires
            old(self).wf(),
            old(self)@.rows >= 1,
            old(self)@.cursor_y != old(self)@.scroll_bottom,
        ensures
            final(self).wf(),
            final(self)@ == after_newline(old(self)@, wrapped),
    {
        proof {
            lemma_model_elim(self@);
        }
        let limit = self.rows - 1;
        let y = if self.cursor_y + 1 < limit { self.cursor_y + 1 } else { limit };
        self.cursor_y = y;
        self.cursor_x = 0;
        self.wrapped.set(y, wrapped);
        self.pending_wrap = false;
        proof {
            lemma_model_intro(self@);
        }
    }

    /// Line feed: the cursor moves to the start of the next line, scrolling at
    /// the bottom margin.
    pub fn newline(&mut self)
        requires
            old(self).ready(),
        ensures
            final(self).ready(),
            final(self)@ == after_newline(old(self)@, false),
    {
        self.newline_with_wrap(false);
    }
}

impl Screen {
    /// The rows of the grid, with their lengths.
    proof fn lemma_rows(&self)
        requires
            model_ok(self@),
        ensures
            self.cells@.len() == self@.rows,
            forall|y: int| 0 <= y < self@.rows ==> (#[trigger] self.cells@[y])@.len() == self@.cols && self.cells@[y]@ == self@.cells[y],
    {
        lemma_model_elim(self@);
        assert forall|y: int| 0 <= y < self@.rows implies (#[trigger] self.cells@[y])@.len() == self@.cols && self.cells@[y]@ == self@.cells[y] by {
            lemma_grid_row(self@.cells, self@.rows as int, self@.cols as int, y);
        }
    }

    /// BS (0x08): move the cursor left without erasing (zsh redraws lines this way).
    pub fn backspace(&mut self)
        requires
            old(self).ready(),
        ensures
            final(self).ready(),
            final(self)@ == after_backspace(old(self)@),
    {
        proof {
            lemma_model_elim(self@);
            self.lemma_rows();
        }
        self.pending_wrap = false;
        if self.cursor_x == 0 {
            proof {
                lemma_model_intro(self@);
            }
            return;
        }
        let x = self.cursor_x - 1;
        let y = self.cursor_y;
        let nx = if x > 0 && self.cells[y][x].wide_continuation { x - 1 } else { x };
        self.cursor_x = nx;
        proof {
            lemma_model_intro(self@);
        }
    }

    /// DEL (0x7f): erase the cell before the cursor.
    pub fn erase_left(&mut self)
        requires
            old(self).ready(),
        ensures
            final(self).ready(),
            final(self)@ == after_erase_left(old(self)@),
    {
        if self.cursor_x == 0 {
            return;
        }
        self.backspace();
        proof {
            lemma_model_elim(self@);
            self.lemma_rows();
        }
        let y = self.cursor_y;
        let x = self.cursor_x;
        let erase_w = cell_display_width(&self.cells[y], x);
        let ghost mid = self@;
        fill_cells(&mut self.cells, y, x, x + erase_w, Cell::default());
        proof {
            lemma_grid_update(mid.cells, mid.rows as int, mid.cols as int, y as int,
                fill_span(mid.cells[y as int], x as int, erase_w as int, mid.cols as int, blank_cell()));
            lemma_model_intro(self@);
        }
    }

    /// Display column of the cursor (for CUB/CUF).
    fn cursor_display_col(&self) -> (dc: usize)
        requires
            self.ready(),
        ensures
            dc == cursor_display_col_of(self@),
    {
        proof {
            lemma_model_elim(self@);
            self.lemma_rows();
        }
        display_col_in_row(&self.cells[self.cursor_y], self.cursor_x, self.cols)
    }

    /// Put the cursor at display column `target` of its row.
    fn set_cursor_display_col(&mut self, target: usize)
        requires
            old(self).ready(),
        ensures
            final(self).ready(),
            final(self)@ == at_display_col(old(self)@, target as int),
    {
        proof {
            lemma_model_elim(self@);
            self.lemma_rows();
        }
        let y = self.cursor_y;
        let x = target_col_in_row(&self.cells[y], self.cols, target);
        let nx = normalized_col(&self.cells[y], x, self.cols);
        self.pending_wrap = false;
        self.cursor_x = nx;
        proof {
            lemma_model_intro(self@);
        }
    }

    fn cursor_step_left(&mut self, n: usize)
        requires
            old(self).ready(),
        ensures
            final(self).ready(),
            final(self)@ == at_display_col(old(self)@, max_int(cursor_display_col_of(old(self)@) - n, 0)),
    {
        let dc = self.cursor_display_col();
        let target = dc.saturating_sub(n);
        self.set_cursor_display_col(target);
    }

    fn cursor_step_right(&mut self, n: usize)
        requires
            old(self).ready(),
        ensures
            final(self).ready(),
            final(self)@ == at_display_col(old(self)@, min_int(cursor_display_col_of(old(self)@) + n, usize::MAX as int)),
    {
        let dc = self.cursor_display_col();
        let target = dc.saturating_add(n);
        self.set_cursor_display_col(target);
    }

    /// Move the cursor off a wide character's continuation slot.
    fn normalize_cursor_x(&mut self)
        requires
            old(self).ready(),
        ensures
            final(self).ready(),
            final(self)@ == (ScreenView {
                cursor_x: normalized_x(old(self)@.cells[old(self)@.cursor_y as int], old(self)@.cursor_x as int, old(self)@.cols as int) as usize,
                ..old(self)@
            }),
    {
        proof {
            lemma_model_elim(self@);
            self.lemma_rows();
        }
        let nx = normalized_col(&self.cells[self.cursor_y], self.cursor_x, self.cols);
        self.cursor_x = nx;
        proof {
            lemma_model_intro(self@);
        }
    }

    /// HT: move to the next tab stop (or the last column).
    pub fn advance_tabs(&mut self)
        requires
            old(self).ready(),
        ensures
            final(self).ready(),
            final(self)@ == after_tab(old(self)@),
    {
        proof {
            lemma_model_elim(self@);
        }
        self.pending_wrap = false;
        let x = next_tab_stop(&self.tab_stops, self.cursor_x + 1, self.cols);
        self.cursor_x = x;
        proof {
            lemma_model_intro(self@);
        }
    }

    /// Move the cursor to (`row`, `col`), relative to the region in origin mode.
    fn set_cursor(&mut self, row: usize, col: usize)
        requires
            old(self).ready(),
        ensures
            final(self).ready(),
            final(self)@ == at_position(old(self)@, row, col),
    {
        proof {
            lemma_model_elim(self@);
            self.lemma_rows();
        }
        let y = if self.origin_mode {
            let t = self.scroll_top.saturating_add(row);
            if t < self.scroll_bottom { t } else { self.scroll_bottom }
        } else {
            let last = self.rows - 1;
            if row < last { row } else { last }
        };
        let last_col = self.cols - 1;
        let x = if col < last_col { col } else { last_col };
        let nx = normalized_col(&self.cells[y], x, self.cols);
        self.cursor_y = y;
        self.cursor_x = nx;
        self.pending_wrap = false;
        proof {
            lemma_model_intro(self@);
        }
    }

    /// A space carrying the given attributes (what EL/ED leave behind).
    fn erased_cell_from(&self, attrs: Cell) -> (c: Cell)
        ensures
            c == erased(attrs),
    {
        Cell { ch: ' ', wide_continuation: false, ..attrs }
    }

    /// Erase columns `x_start..x_end` of row `y` with the current (or default)
    /// attributes; a whole-row erase also ends any soft-wrap chain.
    fn erase_cells_in_row(&mut self, y: usize, x_start: usize, x_end: usize, use_default: bool)
        requires
            old(self).ready(),
            y < old(self)@.rows,
        ensures
            final(self).ready(),
            final(self)@ == erased_in_row(old(self)@, y as int, x_start, x_end, use_default),
    {
        proof {
            lemma_model_elim(self@);
            self.lemma_rows();
        }
        let ghost o = self@;
        let blank = if use_default {
            self.erased_cell_from(self.default_attrs)
        } else {
            self.erased_cell_from(self.current_attrs)
        };
        fill_cells(&mut self.cells, y, x_start, x_end, blank);
        if x_start == 0 && x_end >= self.cols {
            self.wrapped.set(y, false);
        }
        proof {
            lemma_grid_update(o.cells, o.rows as int, o.cols as int, y as int,
                fill_span(o.cells[y as int], x_start as int, x_end - x_start, o.cols as int, blank));
            lemma_model_intro(self@);
        }
    }

    /// Blank row `y` entirely (an explicit clear, not a resize) and end any
    /// soft-wrap chain into it.
    fn clear_row(&mut self, y: usize)
        requires
            old(self).ready(),
            y < old(self)@.rows,
        ensures
            final(self).ready(),
            final(self)@ == cleared_row(old(self)@, y as int),
    {
        proof {
            lemma_model_elim(self@);
            self.lemma_rows();
        }
        let ghost o = self@;
        let cols = self.cols;
        fill_cells(&mut self.cells, y, 0, cols, Cell::default());
        self.wrapped.set(y, false);
        proof {
            assert(fill_span(o.cells[y as int], 0, cols as int, cols as int, blank_cell()) =~= blank_row(cols as nat));
            lemma_grid_update(o.cells, o.rows as int, o.cols as int, y as int, blank_row(cols as nat));
            lemma_model_intro(self@);
        }
    }

    /// Whether row `y` holds only plain spaces.
    fn row_is_blank(&self, y: usize) -> (b: bool)
        requires
            self.wf(),
            y < self@.rows,
        ensures
            b == row_blank(self@.cells[y as int]),
    {
        proof {
            self.lemma_rows();
        }
        let row = &self.cells[y];
        let mut i: usize = 0;
        while i < row.len()
            invariant
                i <= row@.len(),
                row@ == self@.cells[y as int],
                forall|k: int| 0 <= k < i ==> (#[trigger] row@[k]).ch == ' ' && !row@[k].wide_continuation,
            decreases row@.len() - i,
        {
            if row[i].ch != ' ' || row[i].wide_continuation {
                return false;
            }
            i += 1;
        }
        true
    }

    /// zsh's pre-prompt line: `%` and then only spaces (it clears the line
    /// before drawing the prompt).
    fn row_is_zsh_clear_pad(&self, y: usize) -> (b: bool)
        requires
            self.wf(),
            y < self@.rows,
        ensures
            b == row_zsh_pad(self@.cells[y as int]),
    {
        proof {
            self.lemma_rows();
        }
        let row = &self.cells[y];
        if row.len() == 0 || row[0].ch != '%' {
            return false;
        }
        let mut i: usize = 1;
        while i < row.len()
            invariant
                1 <= i <= row@.len(),
                row@ == self@.cells[y as int],
                forall|k: int| 1 <= k < i ==> (#[trigger] row@[k]).ch == ' ' && !row@[k].wide_continuation,
            decreases row@.len() - i,
        {
            if row[i].ch != ' ' || row[i].wide_continuation {
                return false;
            }
            i += 1;
        }
        true
    }
}

impl Screen {
    /// Replace the shell-heuristics state.
    fn set_shell(&mut self, sh: ShellState)
        requires
            old(self).wf(),
        ensures
            final(self).wf(),
            final(self)@ == (ScreenView { shell: sh, ..old(self)@ }),
    {
        proof {
            lemma_model_elim(self@);
        }
        self.shell = sh;
        proof {
            lemma_model_intro(self@);
        }
    }

    fn set_pending_wrap(&mut self, b: bool)
        requires
            old(self).wf(),
        ensures
            final(self).wf(),
            final(self)@ == (ScreenView { pending_wrap: b, ..old(self)@ }),
    {
        proof {
            lemma_model_elim(self@);
        }
        self.pending_wrap = b;
        proof {
            lemma_model_intro(self@);
        }
    }

    fn set_suppress(&mut self, b: bool)
        requires
            old(self).wf(),
        ensures
            final(self).wf(),
            final(self)@ == with_suppress(old(self)@, b),
    {
        let mut sh = self.shell;
        sh.suppress_extra_crlf_newline = b;
        self.set_shell(sh);
    }

    /// Carry out a deferred carriage return.
    fn flush_pending_cr(&mut self)
        requires
            old(self).ready(),
        ensures
            final(self).ready(),
            final(self)@ == after_flush_cr(old(self)@),
    {
        if !self.shell.pending_cr {
            return;
        }
        proof {
            lemma_model_elim(self@);
        }
        let y = self.cursor_y;
        let zsh = self.shell.in_zsh_line_pad || self.row_is_zsh_clear_pad(y);
        if zsh || self.saved_main.is_none() {
            // zsh pre-prompt lines, and main-screen progress bars (apt, wget),
            // are overwritten whole after '\r'. Alternate-screen apps patch
            // columns after '\r', so their rows stay.
            self.clear_row(y);
        }
        proof {
            lemma_model_elim(self@);
        }
        self.cursor_x = 0;
        self.shell.pending_cr = false;
        self.shell.in_zsh_line_pad = false;
        self.pending_wrap = false;
        proof {
            lemma_model_intro(self@);
        }
    }

    /// LF from the output, or the `\n` of a `\r\n`: only `\r\n\r\n`
    /// collapses to one line break; a bare `\n` always moves.
    fn newline_from_lf(&mut self, preceded_by_cr: bool)
        requires
            old(self).ready(),
        ensures
            final(self).ready(),
            final(self)@ == after_lf(old(self)@, preceded_by_cr),
    {
        proof {
            reveal(after_lf);
        }
        proof {
            lemma_model_elim(self@);
        }
        if self.saved_main.is_some() {
            self.newline();
            return;
        }
        if preceded_by_cr {
            if self.shell.suppress_extra_crlf_newline {
                self.set_suppress(false);
                return;
            }
            // zsh's pre-prompt is `\r\n%<spaces>\r<prompt>`: skip its `\r\n`
            // when the output already ended on a fresh blank line.
            if self.cursor_x == 0 && self.row_is_blank(self.cursor_y) {
                return;
            }
            self.newline();
            self.set_suppress(true);
        } else {
            self.newline();
            self.set_suppress(false);
        }
    }

    /// IND / NEL and the like (not part of zsh's double `\r\n`).
    fn maybe_newline(&mut self)
        requires
            old(self).ready(),
        ensures
            final(self).ready(),
            final(self)@ == after_index(old(self)@),
    {
        proof {
            reveal(after_index);
        }
        let mut sh = self.shell;
        sh.pending_cr = false;
        self.set_shell(sh);
        if self.saved_main.is_some() {
            self.newline();
            return;
        }
        self.newline();
        self.set_suppress(false);
    }

    /// Blank alternate buffer, cursor home, default rendition.
    fn reset_to_fresh_alternate(&mut self)
        requires
            old(self).wf(),
            saved_ok(old(self)@.saved_main, old(self)@.rows, old(self)@.cols),
        ensures
            final(self).wf(),
            final(self)@ == fresh_alternate(old(self)@),
    {
        proof {
            lemma_model_elim(self@);
        }
        self.cells = make_blank_grid(self.rows, self.cols);
        self.wrapped = make_flags(self.rows);
        self.cursor_x = 0;
        self.cursor_y = 0;
        self.scroll_top = 0;
        self.scroll_bottom = if self.rows > 0 { self.rows - 1 } else { 0 };
        self.origin_mode = false;
        self.current_attrs = self.default_attrs;
        self.pending_wrap = false;
        self.shell.pending_cr = false;
        self.shell.suppress_extra_crlf_newline = false;
        self.shell.in_zsh_line_pad = false;
        proof {
            lemma_model_intro(self@);
        }
    }

    fn enter_alternate_screen(&mut self, save_cursor: bool)
        requires
            old(self).wf(),
        ensures
            final(self).wf(),
            final(self)@ == after_enter_alt(old(self)@, save_cursor),
            final(self)@.rows == old(self)@.rows,
            final(self)@.cols == old(self)@.cols,
    {
        proof {
            lemma_model_elim(self@);
        }
        if self.saved_main.is_some() {
            // Nested smcup, or recovery: clear the alternate buffer again.
            self.reset_to_fresh_alternate();
            return;
        }
        let ghost o = self@;
        let mut main_cells = make_blank_grid(self.rows, self.cols);
        std::mem::swap(&mut main_cells, &mut self.cells);
        let mut main_wrapped = make_flags(self.rows);
        std::mem::swap(&mut main_wrapped, &mut self.wrapped);
        let snapshot = MainScreenState {
            cells: main_cells,
            wrapped: main_wrapped,
            cursor_x: self.cursor_x,
            cursor_y: self.cursor_y,
            current_attrs: self.current_attrs,
            saved_cursor_x: self.saved_cursor_x,
            saved_cursor_y: self.saved_cursor_y,
            scroll_top: self.scroll_top,
            scroll_bottom: self.scroll_bottom,
            origin_mode: self.origin_mode,
            pending_wrap: self.pending_wrap,
        };
        if save_cursor {
            self.saved_cursor_x = snapshot.cursor_x;
            self.saved_cursor_y = snapshot.cursor_y;
        }
        self.saved_main = Some(snapshot);
        self.cursor_x = 0;
        self.cursor_y = 0;
        self.scroll_top = 0;
        self.scroll_bottom = if self.rows > 0 { self.rows - 1 } else { 0 };
        self.origin_mode = false;
        self.current_attrs = self.default_attrs;
        self.pending_wrap = false;
        self.shell.pending_cr = false;
        self.shell.suppress_extra_crlf_newline = false;
        self.shell.in_zsh_line_pad = false;
        proof {
            assert(snapshot@ == main_of(o));
            assert(self@ == after_enter_alt(o, save_cursor));
            lemma_model_intro(self@);
        }
    }

    fn leave_alternate_screen(&mut self, restore_cursor: bool)
        requires
            old(self).wf(),
        ensures
            final(self).wf(),
            final(self)@ == after_leave_alt(old(self)@, restore_cursor),
            final(self)@.rows == old(self)@.rows,
            final(self)@.cols == old(self)@.cols,
    {
        proof {
            lemma_model_elim(self@);
        }
        let mut saved: Option<MainScreenState> = None;
        std::mem::swap(&mut saved, &mut self.saved_main);
        match saved {
            None => {
                proof {
                    assert(self@ == old(self)@);
                }
            },
            Some(main) => {
                let ghost m = main@;
                self.cells = main.cells;
                self.wrapped = main.wrapped;
                self.current_attrs = main.current_attrs;
                self.scroll_top = main.scroll_top;
                self.scroll_bottom = main.scroll_bottom;
                self.origin_mode = main.origin_mode;
                self.pending_wrap = main.pending_wrap;
                if restore_cursor {
                    self.cursor_x = main.cursor_x;
                    self.cursor_y = main.cursor_y;
                    self.saved_cursor_x = main.saved_cursor_x;
                    self.saved_cursor_y = main.saved_cursor_y;
                }
                self.shell.pending_cr = false;
                self.shell.suppress_extra_crlf_newline = false;
                self.shell.in_zsh_line_pad = false;
                proof {
                    assert(self@ == after_leave_alt(old(self)@, restore_cursor));
                    lemma_model_intro(self@);
                }
            },
        }
    }

    /// Wrap now if a wrap is pending (before a printable cell).
    fn apply_pending_wrap_before_print(&mut self)
        requires
            old(self).ready(),
        ensures
            final(self).ready(),
            final(self)@ == apply_pending_wrap(old(self)@),
    {
        if self.pending_wrap {
            if self.modes.auto_wrap {
                self.newline_with_wrap(true);
            } else {
                self.set_pending_wrap(false);
            }
        }
    }

    /// Make room for a glyph `width` columns wide; false when it cannot be placed.
    fn ensure_cursor_fits(&mut self, width: usize) -> (b: bool)
        requires
            old(self).ready(),
        ensures
            final(self).ready(),
            final(self)@ == fit_glyph(old(self)@, width).0,
            b == fit_glyph(old(self)@, width).1,
            b ==> final(self)@.cursor_x + width <= final(self)@.cols,
    {
        proof {
            lemma_model_elim(self@);
        }
        if width == 0 || width > self.cols {
            return false;
        }
        if width <= self.cols - self.cursor_x {
            return true;
        }
        if self.modes.auto_wrap {
            self.newline_with_wrap(true);
            width <= self.cols
        } else {
            false
        }
    }

    /// Blank the continuation slot after (`row`, `col`), if there is one.
    fn clear_wide_trailer(&mut self, row: usize, col: usize)
        requires
            old(self).ready(),
            row < old(self)@.rows,
            col < old(self)@.cols,
        ensures
            final(self).ready(),
            final(self)@ == (ScreenView {
                cells: old(self)@.cells.update(row as int, trailer_cleared(old(self)@.cells[row as int], col as int, old(self)@.cols as int)),
                ..old(self)@
            }),
    {
        proof {
            lemma_model_elim(self@);
            self.lemma_rows();
        }
        let ghost o = self@;
        if col + 1 < self.cols && self.cells[row][col + 1].wide_continuation {
            set_cell(&mut self.cells, row, col + 1, Cell::default());
        } else {
            proof {
                assert(o.cells.update(row as int, o.cells[row as int]) =~= o.cells);
            }
        }
        proof {
            lemma_grid_update(o.cells, o.rows as int, o.cols as int, row as int, trailer_cleared(o.cells[row as int], col as int, o.cols as int));
            lemma_model_intro(self@);
        }
    }

    /// Write a glyph that fits at the cursor and advance.
    fn place_glyph(&mut self, c: char, width: usize)
        requires
            old(self).ready(),
            1 <= width <= 2,
            old(self)@.cursor_x + width <= old(self)@.cols,
        ensures
            final(self).ready(),
            final(self)@ == placed_glyph(old(self)@, c, width),
    {
        proof {
            lemma_model_elim(self@);
            self.lemma_rows();
        }
        let ghost o = self@;
        let row = self.cursor_y;
        let col = self.cursor_x;
        let cols = self.cols;
        let insert = self.modes.insert_mode;
        let attrs = self.current_attrs;
        write_glyph(&mut self.cells, row, col, width, cols, insert, attrs, c);
        if width >= cols - col {
            self.cursor_x = cols - 1;
            self.pending_wrap = self.modes.auto_wrap;
        } else {
            self.cursor_x = col + width;
            self.pending_wrap = false;
        }
        proof {
            lemma_grid_update(o.cells, o.rows as int, o.cols as int, row as int,
                glyph_row(o.cells[row as int], col as int, width as int, cols as int, insert, attrs, c));
            lemma_model_intro(self@);
        }
    }

    /// zsh's POSTDISPLAY padding space: paint it without advancing.
    fn paint_postdisplay_space(&mut self)
        requires
            old(self).ready(),
        ensures
            final(self).ready(),
            final(self)@ == painted_space(old(self)@),
    {
        let attrs = self.current_attrs;
        let mut sh = self.shell;
        sh.postdisplay_leading_space = false;
        self.set_shell(sh);
        if self.cursor_x >= self.cols {
            return;
        }
        let row = self.cursor_y;
        let col = self.cursor_x;
        proof {
            lemma_model_elim(self@);
        }
        let ghost v3 = self@;
        self.clear_wide_trailer(row, col);
        let ghost v4 = self@;
        self.write_cell(row, col, Cell { ch: ' ', wide_continuation: false, ..attrs });
        self.set_pending_wrap(false);
        proof {
            let t = trailer_cleared(v3.cells[row as int], col as int, v3.cols as int);
            assert(v4.cells[row as int] == t);
            assert(self@.cells =~= v3.cells.update(row as int, t.update(col as int, glyph_cell(attrs, ' '))));
        }
    }

    /// Print a visible character `width` columns wide.
    fn print_glyph(&mut self, c: char, width: usize)
        requires
            old(self).ready(),
            1 <= width <= 2,
        ensures
            final(self).ready(),
            final(self)@ == printed_glyph(old(self)@, c, width),
    {
        proof {
            reveal(printed_glyph);
        }
        self.apply_pending_wrap_before_print();
        if self.shell.postdisplay_leading_space && c == ' ' && width == 1 {
            self.paint_postdisplay_space();
            return;
        }
        if !self.ensure_cursor_fits(width) {
            return;
        }
        proof {
            lemma_model_elim(self@);
        }
        self.place_glyph(c, width);
    }

    /// Write one cell (used for zsh's painted-but-not-advanced padding space).
    fn write_cell(&mut self, row: usize, col: usize, cell: Cell)
        requires
            old(self).ready(),
            row < old(self)@.rows,
            col < old(self)@.cols,
        ensures
            final(self).ready(),
            final(self)@ == (ScreenView {
                cells: old(self)@.cells.update(row as int, old(self)@.cells[row as int].update(col as int, cell)),
                ..old(self)@
            }),
    {
        proof {
            lemma_model_elim(self@);
            self.lemma_rows();
        }
        let ghost o = self@;
        set_cell(&mut self.cells, row, col, cell);
        proof {
            lemma_grid_update(o.cells, o.rows as int, o.cols as int, row as int, o.cells[row as int].update(col as int, cell));
            lemma_model_intro(self@);
        }
    }

    /// Print one character at the cursor (after charset translation).
    pub fn put_char(&mut self, c: char)
        requires
            old(self).ready(),
        ensures
            final(self).ready(),
            final(self)@ == after_put_char(old(self)@, c),
    {
        proof {
            reveal(after_put_char);
        }
        let width = char_display_width(c);
        if width == 0 || self.cols == 0 || self.rows == 0 {
            return;
        }
        if c == '%' && self.cursor_x == 0 {
            let mut sh = self.shell;
            sh.in_zsh_line_pad = true;
            self.set_shell(sh);
        }
        if self.shell.in_zsh_line_pad && c == ' ' && self.cursor_x >= self.cols - 1 {
            return;
        }
        self.print_glyph(c, width);
    }
}

impl Screen {
    /// The visual cache holds the scrollback's visual rows and their wrap flags.
    proof fn lemma_cache(&self)
        requires
            self.cache_ok(self@.cols as nat),
        ensures
            row_views(self.visual_cache@) == visual_rows(self@),
            self.visual_wrapped@ == visual_flags(self@),
            self.visual_cache@.len() == visual_rows(self@).len(),
            self.visual_wrapped@.len() == visual_rows(self@).len(),
    {
        reveal(cache_matches);
        lemma_flags_len(self@.scrollback, self@.cols as nat);
    }

    /// Number of visual rows in the scrollback (its logical lines laid out at
    /// the current width).
    pub fn scrollback_lines(&self) -> (n: usize)
        requires
            self.wf(),
        ensures
            n == visual_rows(self@).len(),
    {
        proof {
            self.lemma_cache();
        }
        self.visual_cache.len()
    }

    /// The scrollback's visual row `index` (0 = oldest).
    pub fn scrollback_row(&self, index: usize) -> (r: Option<&[Cell]>)
        requires
            self.wf(),
        ensures
            index < visual_rows(self@).len() ==> (r matches Some(row) && row@ == visual_rows(self@)[index as int]),
            index >= visual_rows(self@).len() ==> r is None,
    {
        proof {
            self.lemma_cache();
        }
        if index < self.visual_cache.len() {
            Some(self.visual_cache[index].as_slice())
        } else {
            None
        }
    }

    /// Whether the scrollback's visual row `index` is a soft-wrap continuation.
    pub fn scrollback_row_wrapped(&self, index: usize) -> (r: Option<bool>)
        requires
            self.wf(),
        ensures
            index < visual_rows(self@).len() ==> r == Some(visual_flags(self@)[index as int]),
            index >= visual_rows(self@).len() ==> r is None,
    {
        proof {
            self.lemma_cache();
        }
        if index < self.visual_wrapped.len() {
            Some(self.visual_wrapped[index])
        } else {
            None
        }
    }

    /// Whether the visible row `y` was soft-wrapped from the row above it.
    pub fn row_wrapped(&self, y: usize) -> (b: bool)
        ensures
            b == (y < self@.wrapped.len() && self@.wrapped[y as int]),
    {
        if y < self.wrapped.len() {
            self.wrapped[y]
        } else {
            false
        }
    }

    /// Number of main-screen rows in the live tail: rows below both the cursor
    /// and the last row with content are blank space and left out.
    pub fn active_main_rows(&self) -> (n: usize)
        requires
            self.wf(),
        ensures
            n == active_rows(self@),
    {
        proof {
            lemma_model_elim(self@);
            self.lemma_rows();
        }
        if self.saved_main.is_some() {
            return self.rows;
        }
        if self.rows == 0 || self.cells.len() == 0 {
            return 0;
        }
        let visible_rows = self.rows;
        let mut last = self.cursor_y;
        let mut y: usize = 0;
        while y < visible_rows
            invariant
                visible_rows == self@.rows,
                self.cells@.len() == self@.rows,
                y <= visible_rows,
                self.wf(),
                self@.cursor_y < visible_rows,
                last < visible_rows,
                last == max_int(self@.cursor_y as int, last_content_row(self@.cells, y as int)),
            decreases visible_rows - y,
        {
            proof {
                lemma_last_content_row_bound(self@.cells, y as int);
            }
            if !self.row_is_blank(y) && y > last {
                last = y;
            }
            y += 1;
        }
        if last + 1 < visible_rows { last + 1 } else { visible_rows }
    }

    /// First virtual line to paint for the live tail: blank rows below the
    /// cursor are ignored, so a taller window pulls history into view above
    /// the prompt instead of leaving a gap.
    pub fn live_virtual_start(&self, viewport_rows: usize) -> (n: usize)
        requires
            self.wf(),
        ensures
            n == live_start(self@, viewport_rows),
    {
        if self.saved_main.is_some() {
            0
        } else {
            let total = self.scrollback_lines().saturating_add(self.active_main_rows());
            total.saturating_sub(viewport_rows)
        }
    }

    /// Largest scroll offset for a viewport of `viewport_rows` rows.
    pub fn max_scroll_offset(&self, viewport_rows: usize) -> (n: usize)
        requires
            self.wf(),
        ensures
            n == live_start(self@, viewport_rows),
    {
        self.live_virtual_start(viewport_rows)
    }

    /// Viewport start after a user scroll offset (0 = live tail; larger
    /// offsets move toward older history, up to the oldest).
    pub fn viewport_virtual_start(&self, viewport_rows: usize, scroll_offset: usize) -> (n: usize)
        requires
            self.wf(),
        ensures
            n == viewport_start(self@, viewport_rows, scroll_offset),
    {
        let live = self.live_virtual_start(viewport_rows);
        let max = self.max_scroll_offset(viewport_rows);
        let off = if scroll_offset < max { scroll_offset } else { max };
        live - off
    }

    /// Which viewport row the cursor occupies, if it is visible.
    pub fn cursor_viewport_row(&self, viewport_rows: usize, scroll_offset: usize) -> (r: Option<usize>)
        requires
            self.wf(),
        ensures
            r == cursor_row_in_viewport(self@, viewport_rows, scroll_offset),
    {
        if self.saved_main.is_some() {
            return if self.cursor_y < viewport_rows { Some(self.cursor_y) } else { None };
        }
        if scroll_offset != 0 {
            return None;
        }
        let cursor_line = self.scrollback_lines().saturating_add(self.cursor_y);
        let start = self.viewport_virtual_start(viewport_rows, scroll_offset);
        if cursor_line >= start && cursor_line - start < viewport_rows {
            Some(cursor_line - start)
        } else {
            None
        }
    }

    /// Whether a virtual line (scrollback, then screen) is a soft-wrap
    /// continuation; copy and selection follow the same model as painting.
    pub fn virtual_line_wrapped(&self, virtual_line: usize) -> (b: bool)
        requires
            self.wf(),
        ensures
            b == virtual_wrapped(self@, virtual_line as int),
    {
        proof {
            self.lemma_cache();
        }
        if self.saved_main.is_some() {
            return self.row_wrapped(virtual_line);
        }
        let sb = self.visual_cache.len();
        if virtual_line < sb {
            self.visual_wrapped[virtual_line]
        } else {
            self.row_wrapped(virtual_line - sb)
        }
    }

    /// The row at a virtual line (scrollback rows, then screen rows), for
    /// selection and copy.
    pub fn line_at_virtual(&self, virtual_line: usize) -> (r: Option<&[Cell]>)
        requires
            self.wf(),
        ensures
            r matches Some(row) ==> row_at_virtual(self@, virtual_line as int) == Some(row@),
            r is None ==> row_at_virtual(self@, virtual_line as int) is None,
    {
        proof {
            self.lemma_cache();
            lemma_model_elim(self@);
            self.lemma_rows();
        }
        if self.saved_main.is_some() {
            return if virtual_line < self.cells.len() { Some(self.cells[virtual_line].as_slice()) } else { None };
        }
        let sb = self.visual_cache.len();
        if virtual_line < sb {
            Some(self.visual_cache[virtual_line].as_slice())
        } else if virtual_line - sb < self.rows && virtual_line - sb < self.cells.len() {
            Some(self.cells[virtual_line - sb].as_slice())
        } else {
            None
        }
    }
}

/// CSI parameter `i`, with `d` standing for a missing or zero parameter.
pub fn param_or_default(params: &[i64], i: usize, d: i64) -> (r: i64)
    ensures
        r == param_or(params@, i as int, d),
{
    if i < params.len() {
        if params[i] == 0 {
            d
        } else {
            params[i]
        }
    } else {
        d
    }
}

/// Append the decimal digits of `n`.
pub fn push_decimal(out: &mut Vec<u8>, n: usize)
    ensures
        final(out)@ == old(out)@ + decimal(n as nat),
    decreases n,
{
    if n < 10 {
        out.push(48u8 + n as u8);
        assert(decimal(n as nat) =~= seq![(48 + n) as u8]);
    } else {
        push_decimal(out, n / 10);
        out.push(48u8 + (n % 10) as u8);
        assert(decimal(n as nat) == decimal((n / 10) as nat).push((48 + n % 10) as u8));
    }
}

/// Whether `bytes` holds `b`.
fn contains_byte(bytes: &[u8], b: u8) -> (r: bool)
    ensures
        r == bytes@.contains(b),
{
    let mut i: usize = 0;
    while i < bytes.len()
        invariant
            i <= bytes@.len(),
            forall|k: int| 0 <= k < i ==> bytes@[k] != b,
        decreases bytes@.len() - i,
    {
        if bytes[i] == b {
            return true;
        }
        i += 1;
    }
    false
}

fn suggest_of(c: Cell) -> (b: bool)
    ensures
        b == suggest_attrs(c),
{
    c.dim || match c.fg {
        Color::Indexed(k) => k == 8 || 232 <= k,
        _ => false,
    }
}

fn sgr_attr_apply(a: Cell, pd: bool, d: Cell, p: i64) -> (r: (Cell, bool))
    ensures
        r == sgr_attr_step(a, pd, d, p),
{
    if p == 0 {
        (d, false)
    } else if p == 1 {
        (Cell { bold: true, ..a }, pd)
    } else if p == 2 {
        let a2 = Cell { dim: true, ..a };
        (a2, suggest_of(a2))
    } else if p == 3 {
        (Cell { italic: true, ..a }, pd)
    } else if p == 4 {
        (Cell { underline: true, ..a }, pd)
    } else if p == 5 || p == 6 {
        (Cell { blink: true, ..a }, pd)
    } else if p == 7 {
        (Cell { reverse: true, ..a }, pd)
    } else if p == 9 {
        (Cell { strikethrough: true, ..a }, pd)
    } else if p == 22 {
        (Cell { bold: false, dim: false, ..a }, pd)
    } else if p == 23 {
        (Cell { italic: false, ..a }, pd)
    } else if p == 24 {
        (Cell { underline: false, ..a }, pd)
    } else if p == 25 {
        (Cell { blink: false, ..a }, pd)
    } else if p == 27 {
        (Cell { reverse: false, ..a }, pd)
    } else if p == 29 {
        (Cell { strikethrough: false, ..a }, pd)
    } else {
        (a, pd)
    }
}

fn sgr_color_apply(a: Cell, pd: bool, params: &[i64], i: usize) -> (r: (Cell, bool, usize))
    requires
        i < params@.len(),
    ensures
        r.0 == sgr_color_step(a, pd, params@, i as int).0,
        r.1 == sgr_color_step(a, pd, params@, i as int).1,
        r.2 == sgr_color_step(a, pd, params@, i as int).2,
        i < r.2 <= params@.len(),
{
    let p = params[i];
    let n = params.len();
    if 30 <= p && p <= 37 {
        (Cell { fg: Color::Indexed((p - 30) as u8), ..a }, pd, i + 1)
    } else if p == 38 {
        if n - i > 2 && params[i + 1] == 5 {
            let a2 = Cell { fg: Color::Indexed(params[i + 2] as u8), ..a };
            (a2, suggest_of(a2), i + 3)
        } else if n - i > 4 && params[i + 1] == 2 {
            (Cell { fg: Color::Rgb(params[i + 2] as u8, params[i + 3] as u8, params[i + 4] as u8), ..a }, pd, i + 5)
        } else {
            (a, pd, i + 1)
        }
    } else if p == 39 {
        (Cell { fg: Color::Default, ..a }, false, i + 1)
    } else if 40 <= p && p <= 47 {
        (Cell { bg: Color::Indexed((p - 40) as u8), ..a }, pd, i + 1)
    } else if p == 48 {
        if n - i > 2 && params[i + 1] == 5 {
            (Cell { bg: Color::Indexed(params[i + 2] as u8), ..a }, pd, i + 3)
        } else if n - i > 4 && params[i + 1] == 2 {
            (Cell { bg: Color::Rgb(params[i + 2] as u8, params[i + 3] as u8, params[i + 4] as u8), ..a }, pd, i + 5)
        } else {
            (a, pd, i + 1)
        }
    } else if p == 49 {
        (Cell { bg: Color::Default, ..a }, pd, i + 1)
    } else if 90 <= p && p <= 97 {
        (Cell { fg: Color::Indexed((p - 90 + 8) as u8), ..a }, pd, i + 1)
    } else if 100 <= p && p <= 107 {
        (Cell { bg: Color::Indexed((p - 100 + 8) as u8), ..a }, pd, i + 1)
    } else {
        (a, pd, i + 1)
    }
}

/// One SGR parameter applied (see `sgr_step`).
fn sgr_apply(a: Cell, pd: bool, d: Cell, params: &[i64], i: usize) -> (r: (Cell, bool, usize))
    requires
        i < params@.len(),
    ensures
        r.0 == sgr_step(a, pd, d, params@, i as int).0,
        r.1 == sgr_step(a, pd, d, params@, i as int).1,
        r.2 == sgr_step(a, pd, d, params@, i as int).2,
        i < r.2 <= params@.len(),
{
    if params[i] < 30 {
        let r = sgr_attr_apply(a, pd, d, params[i]);
        (r.0, r.1, i + 1)
    } else {
        sgr_color_apply(a, pd, params, i)
    }
}

/// The mouse-reporting modes of `private_mode_fields`.
fn mouse_mode_value(m: Modes, p: i64, set: bool) -> (r: Modes)
    requires
        p == 1000 || p == 1002 || p == 1003 || p == 1006,
    ensures
        r == private_mode_fields(m, false, false, false, false, p, set).0,
{
    let mut m = m;
    if p == 1000 {
        m.mouse_report_clicks = set;
    } else if p == 1002 {
        m.mouse_report_drag = set;
    } else if p == 1003 {
        m.mouse_report_motion = set;
        if set {
            m.mouse_report_drag = true;
            m.mouse_report_clicks = true;
        }
    } else {
        m.mouse_sgr_encoding = set;
    }
    m
}

/// See `private_mode_fields`.
fn private_mode_values(m: Modes, origin: bool, pending: bool, visible: bool, in_alt: bool, p: i64, set: bool) -> (r: (Modes, bool, bool, bool))
    ensures
        r == private_mode_fields(m, origin, pending, visible, in_alt, p, set),
{
    if p == 1000 || p == 1002 || p == 1003 || p == 1006 {
        return (mouse_mode_value(m, p, set), origin, pending, visible);
    }
    let mut m = m;
    if p == 1 {
        m.app_cursor_keys = set;
        (m, origin, pending, visible)
    } else if p == 6 {
        (m, set && !in_alt, pending, visible)
    } else if p == 7 {
        m.auto_wrap = set;
        (m, origin, if set { pending } else { false }, visible)
    } else if p == 25 {
        (m, origin, pending, set)
    } else if p == 2004 {
        m.bracketed_paste = set;
        (m, origin, pending, visible)
    } else {
        // 12 (cursor blink) and 2026 (synchronized updates) are ignored: the
        // live buffer is always painted.
        (m, origin, pending, visible)
    }
}

impl Screen {
    fn push_response(&mut self, bytes: Vec<u8>)
        requires
            old(self).wf(),
        ensures
            final(self).wf(),
            final(self)@ == with_response(old(self)@, bytes@),
    {
        proof {
            lemma_model_elim(self@);
        }
        let ghost o = self.outgoing@;
        let ghost b = bytes@;
        self.outgoing.push(TermEvent::Response(bytes));
        proof {
            assert(event_views(self.outgoing@) =~= event_views(o).push(EventView::Response(b)));
            lemma_model_intro(self@);
        }
    }

    fn move_cursor_to(&mut self, x: usize, y: usize)
        requires
            old(self).ready(),
            x < old(self)@.cols,
            y < old(self)@.rows,
        ensures
            final(self).ready(),
            final(self)@ == with_cursor(old(self)@, x, y),
    {
        proof {
            lemma_model_elim(self@);
        }
        self.cursor_x = x;
        self.cursor_y = y;
        self.pending_wrap = false;
        proof {
            lemma_model_intro(self@);
        }
    }

    fn csi_cursor_forward(&mut self, n: usize)
        requires
            old(self).ready(),
        ensures
            final(self).ready(),
            final(self)@ == cursor_forward(old(self)@, n),
    {
        proof {
            lemma_model_elim(self@);
        }
        if self.saved_main.is_some() {
            let t = self.cursor_x.saturating_add(n);
            let last = self.cols - 1;
            self.move_cursor_to(if t < last { t } else { last }, self.cursor_y);
            self.normalize_cursor_x();
        } else {
            self.cursor_step_right(n);
            self.normalize_cursor_x();
        }
    }

    fn csi_cursor_back(&mut self, n: usize)
        requires
            old(self).ready(),
        ensures
            final(self).ready(),
            final(self)@ == cursor_back(old(self)@, n),
    {
        proof {
            lemma_model_elim(self@);
        }
        if self.saved_main.is_some() {
            self.move_cursor_to(self.cursor_x.saturating_sub(n), self.cursor_y);
            self.normalize_cursor_x();
        } else {
            self.cursor_step_left(n);
        }
    }

    /// Erase rows `from..to` whole.
    fn erase_rows(&mut self, from: usize, to: usize, use_default: bool)
        requires
            old(self).ready(),
            to <= old(self)@.rows,
        ensures
            final(self).ready(),
            final(self)@ == erased_rows(old(self)@, from as int, to as int, use_default),
            final(self)@.rows == old(self)@.rows,
            final(self)@.cursor_x == old(self)@.cursor_x,
            final(self)@.cursor_y == old(self)@.cursor_y,
    {
        let ghost o = self@;
        let mut y = from;
        while y < to
            invariant
                self.ready(),
                self@.rows == o.rows,
                self@.cursor_x == o.cursor_x,
                self@.cursor_y == o.cursor_y,
                to <= o.rows,
                erased_rows(self@, y as int, to as int, use_default) == erased_rows(o, from as int, to as int, use_default),
            decreases to - y,
        {
            let cols = self.cols;
            self.erase_cells_in_row(y, 0, cols, use_default);
            y += 1;
        }
    }

    fn erase_display(&mut self, mode: i64)
        requires
            old(self).ready(),
        ensures
            final(self).ready(),
            final(self)@ == erase_display(old(self)@, mode),
    {
        proof {
            reveal(erase_display);
        }
        proof {
            lemma_model_elim(self@);
        }
        let cols = self.cols;
        let rows = self.rows;
        if mode == 0 {
            let y = self.cursor_y;
            let x = self.cursor_x;
            self.erase_cells_in_row(y, x, cols, false);
            self.erase_rows(y + 1, rows, false);
        } else if mode == 1 {
            let y = self.cursor_y;
            let x = self.cursor_x;
            self.erase_rows(0, y, false);
            self.erase_cells_in_row(y, 0, x.saturating_add(1), false);
        } else if mode == 2 || mode == 3 {
            self.erase_rows(0, rows, true);
        }
    }

    fn erase_line(&mut self, mode: i64)
        requires
            old(self).ready(),
        ensures
            final(self).ready(),
            final(self)@ == erase_line(old(self)@, mode),
    {
        proof {
            reveal(erase_line);
        }
        proof {
            lemma_model_elim(self@);
        }
        let y = self.cursor_y;
        let x = self.cursor_x;
        let cols = self.cols;
        if mode == 0 {
            self.erase_cells_in_row(y, x, cols, false);
        } else if mode == 1 {
            self.erase_cells_in_row(y, 0, x.saturating_add(1), false);
        } else if mode == 2 {
            self.erase_cells_in_row(y, 0, cols, false);
        }
    }

    fn insert_line_once(&mut self)
        requires
            old(self).ready(),
        ensures
            final(self).ready(),
            final(self)@ == (ScreenView {
                cells: old(self)@.cells.remove(old(self)@.scroll_bottom as int).insert(old(self)@.cursor_y as int, blank_row(old(self)@.cols as nat)),
                wrapped: old(self)@.wrapped.remove(old(self)@.scroll_bottom as int).insert(old(self)@.cursor_y as int, false),
                ..old(self)@
            }),
    {
        let ghost o = self@;
        proof {
            lemma_model_elim(o);
        }
        let blank = self.blank_scroll_row();
        let bottom = self.scroll_bottom;
        let y = self.cursor_y;
        let _removed = remove_insert_row(&mut self.cells, bottom, y, blank);
        let _w = remove_insert_flag(&mut self.wrapped, bottom, y, false);
        proof {
            lemma_grid_remove_insert(o.cells, o.rows as int, o.cols as int, bottom as int, y as int, blank_row(o.cols as nat));
            lemma_model_intro(self@);
        }
    }

    fn delete_line_once(&mut self)
        requires
            old(self).ready(),
        ensures
            final(self).ready(),
            final(self)@ == (ScreenView {
                cells: old(self)@.cells.remove(old(self)@.cursor_y as int).insert(old(self)@.scroll_bottom as int, blank_row(old(self)@.cols as nat)),
                wrapped: old(self)@.wrapped.remove(old(self)@.cursor_y as int).insert(old(self)@.scroll_bottom as int, false),
                ..old(self)@
            }),
    {
        let ghost o = self@;
        proof {
            lemma_model_elim(o);
        }
        let blank = make_blank_row(self.cols);
        let bottom = self.scroll_bottom;
        let y = self.cursor_y;
        let _removed = remove_insert_row(&mut self.cells, y, bottom, blank);
        let _w = remove_insert_flag(&mut self.wrapped, y, bottom, false);
        proof {
            lemma_grid_remove_insert(o.cells, o.rows as int, o.cols as int, y as int, bottom as int, blank_row(o.cols as nat));
            lemma_model_intro(self@);
        }
    }

    /// IL: insert `n` blank lines at the cursor.
    fn insert_lines(&mut self, n: usize)
        requires
            old(self).ready(),
        ensures
            final(self).ready(),
            final(self)@ == inserted_lines(old(self)@, n as nat),
    {
        let ghost o = self@;
        let mut i: usize = 0;
        while i < n
            invariant
                i <= n,
                self.ready(),
                self@ == inserted_lines(o, i as nat),
            decreases n - i,
        {
            self.insert_line_once();
            i += 1;
        }
    }

    /// DL: delete `n` lines at the cursor.
    fn delete_lines(&mut self, n: usize)
        requires
            old(self).ready(),
        ensures
            final(self).ready(),
            final(self)@ == deleted_lines(old(self)@, n as nat),
    {
        let ghost o = self@;
        let mut i: usize = 0;
        while i < n
            invariant
                i <= n,
                self.ready(),
                self@ == deleted_lines(o, i as nat),
            decreases n - i,
        {
            self.delete_line_once();
            i += 1;
        }
    }

    /// DCH / ICH: delete or insert `n` characters at the cursor.
    fn shift_chars(&mut self, n: usize, delete: bool)
        requires
            old(self).ready(),
        ensures
            final(self).ready(),
            delete ==> final(self)@ == with_row(old(self)@, old(self)@.cursor_y as int,
                deleted_chars(old(self)@.cells[old(self)@.cursor_y as int], old(self)@.cursor_x as int, n as nat)),
            !delete ==> final(self)@ == with_row(old(self)@, old(self)@.cursor_y as int,
                inserted_chars(old(self)@.cells[old(self)@.cursor_y as int], old(self)@.cursor_x as int, n as nat)),
    {
        proof {
            lemma_model_elim(self@);
            self.lemma_rows();
        }
        let ghost o = self@;
        let y = self.cursor_y;
        let x = self.cursor_x;
        if delete {
            delete_chars_in_row(&mut self.cells, y, x, n);
        } else {
            insert_chars_in_row(&mut self.cells, y, x, n);
        }
        proof {
            let row = if delete { deleted_chars(o.cells[y as int], x as int, n as nat) } else { inserted_chars(o.cells[y as int], x as int, n as nat) };
            lemma_shift_chars_len(o.cells[y as int], x as int, n as nat);
            lemma_grid_update(o.cells, o.rows as int, o.cols as int, y as int, row);
            lemma_model_intro(self@);
        }
    }

    /// SGR: select graphic rendition.
    fn select_graphic_rendition(&mut self, params: &[i64])
        requires
            old(self).wf(),
        ensures
            final(self).wf(),
            final(self)@ == after_sgr(old(self)@, params@),
    {
        proof {
            lemma_model_elim(self@);
        }
        if params.len() == 0 {
            self.current_attrs = self.default_attrs;
            self.shell.postdisplay_leading_space = false;
            proof {
                lemma_model_intro(self@);
            }
            return;
        }
        let d = self.default_attrs;
        let ghost a0 = self.current_attrs;
        let ghost pd0 = self.shell.postdisplay_leading_space;
        let mut a = self.current_attrs;
        let mut pd = self.shell.postdisplay_leading_space;
        let mut i: usize = 0;
        while i < params.len()
            invariant
                i <= params@.len(),
                sgr_from(a, pd, d, params@, i as int) == sgr_from(a0, pd0, d, params@, 0),
            decreases params@.len() - i,
        {
            let r = sgr_apply(a, pd, d, params, i);
            a = r.0;
            pd = r.1;
            i = r.2;
        }
        self.current_attrs = a;
        self.shell.postdisplay_leading_space = pd;
        proof {
            lemma_model_intro(self@);
        }
    }

    /// DSR: device status report.
    fn status_report(&mut self, n: i64)
        requires
            old(self).ready(),
        ensures
            final(self).ready(),
            final(self)@ == after_status_report(old(self)@, n),
    {
        proof {
            lemma_model_elim(self@);
        }
        if n == 5 {
            self.push_response(vec![0x1bu8, 0x5bu8, 0x30u8, 0x6eu8]);
        } else if n == 6 {
            let mut out: Vec<u8> = vec![0x1bu8, 0x5bu8];
            push_decimal(&mut out, self.cursor_y + 1);
            out.push(0x3bu8);
            push_decimal(&mut out, self.cursor_x + 1);
            out.push(0x52u8);
            proof {
                assert(out@ =~= seq![0x1bu8, 0x5bu8] + decimal((self@.cursor_y + 1) as nat) + seq![0x3bu8]
                    + decimal((self@.cursor_x + 1) as nat) + seq![0x52u8]);
            }
            self.push_response(out);
        }
    }

    /// XTWINOPS reports.
    fn window_op(&mut self, ps: i64)
        requires
            old(self).ready(),
        ensures
            final(self).ready(),
            final(self)@ == after_window_op(old(self)@, ps),
    {
        if ps == 14 {
            let h = if self.rows <= usize::MAX / 16 { self.rows * 16 } else { usize::MAX };
            let w = if self.cols <= usize::MAX / 8 { self.cols * 8 } else { usize::MAX };
            let mut out: Vec<u8> = vec![0x1bu8, 0x5bu8, 0x34u8, 0x3bu8];
            push_decimal(&mut out, if h > 1 { h } else { 1 });
            out.push(0x3bu8);
            push_decimal(&mut out, if w > 1 { w } else { 1 });
            out.push(0x74u8);
            proof {
                assert(out@ =~= seq![0x1bu8, 0x5bu8, 0x34u8, 0x3bu8] + decimal(max_int(min_int(self@.rows * 16, usize::MAX as int), 1) as nat)
                    + seq![0x3bu8] + decimal(max_int(min_int(self@.cols * 8, usize::MAX as int), 1) as nat) + seq![0x74u8]);
            }
            self.push_response(out);
        } else if ps == 18 {
            let mut out: Vec<u8> = vec![0x1bu8, 0x5bu8, 0x38u8, 0x3bu8];
            push_decimal(&mut out, self.rows);
            out.push(0x3bu8);
            push_decimal(&mut out, self.cols);
            out.push(0x74u8);
            proof {
                assert(out@ =~= seq![0x1bu8, 0x5bu8, 0x38u8, 0x3bu8] + decimal(self@.rows as nat) + seq![0x3bu8]
                    + decimal(self@.cols as nat) + seq![0x74u8]);
            }
            self.push_response(out);
        }
    }

    /// DECSTBM: set the scroll region.
    fn set_scroll_region(&mut self, params: &[i64])
        requires
            old(self).ready(),
        ensures
            final(self).ready(),
            final(self)@ == after_set_region(old(self)@, params@),
    {
        proof {
            lemma_model_elim(self@);
        }
        let top = param_or_default(params, 0, 1) as usize;
        let bot = param_or_default(params, 1, self.rows as i64) as usize;
        let last = self.rows - 1;
        let t0 = top.saturating_sub(1);
        let b0 = bot.saturating_sub(1);
        let t = if t0 < last { t0 } else { last };
        let b = if b0 < last { b0 } else { last };
        if t > b {
            // An inverted region is refused: nothing changes.
            return;
        }
        self.scroll_top = t;
        self.scroll_bottom = b;
        self.cursor_x = 0;
        self.pending_wrap = false;
        // Home is the region's top margin (xterm DECSTBM).
        self.cursor_y = self.scroll_top;
        proof {
            lemma_model_intro(self@);
        }
    }

    fn set_modes_flags(&mut self, m: Modes)
        requires
            old(self).wf(),
        ensures
            final(self).wf(),
            final(self)@ == with_modes(old(self)@, m),
    {
        proof {
            lemma_model_elim(self@);
        }
        self.modes = m;
        proof {
            lemma_model_intro(self@);
        }
    }

    /// One DECSET/DECRST (SM/RM) parameter.
    fn apply_mode(&mut self, p: i64, set: bool, private: bool)
        requires
            old(self).wf(),
        ensures
            final(self).wf(),
            final(self)@ == mode_step(old(self)@, p, set, private),
            final(self)@.rows == old(self)@.rows,
            final(self)@.cols == old(self)@.cols,
    {
        proof {
            reveal(mode_step);
        }
        if p == 47 || p == 1047 {
            if set { self.enter_alternate_screen(false) } else { self.leave_alternate_screen(false) }
        } else if p == 1049 {
            if set { self.enter_alternate_screen(true) } else { self.leave_alternate_screen(true) }
        } else if private {
            self.apply_private_mode(p, set);
        } else if p == 25 {
            self.set_cursor_visible(set);
        }
        proof {
            assert(self@.rows == old(self)@.rows);
            assert(self@.cols == old(self)@.cols);
        }
    }

    fn set_cursor_visible(&mut self, b: bool)
        requires
            old(self).wf(),
        ensures
            final(self).wf(),
            final(self)@ == (ScreenView { cursor_visible: b, ..old(self)@ }),
    {
        proof {
            lemma_model_elim(self@);
        }
        self.cursor_visible = b;
        proof {
            lemma_model_intro(self@);
        }
    }

    fn set_mode_fields(&mut self, m: Modes, origin: bool, pending: bool, visible: bool)
        requires
            old(self).wf(),
        ensures
            final(self).wf(),
            final(self)@ == (ScreenView { modes: m, origin_mode: origin, pending_wrap: pending, cursor_visible: visible, ..old(self)@ }),
    {
        proof {
            lemma_model_elim(self@);
        }
        self.modes = m;
        self.origin_mode = origin;
        self.pending_wrap = pending;
        self.cursor_visible = visible;
        proof {
            lemma_model_intro(self@);
        }
    }

    /// A DEC private mode (other than the alternate screen).
    fn apply_private_mode(&mut self, p: i64, set: bool)
        requires
            old(self).wf(),
        ensures
            final(self).wf(),
            final(self)@ == private_mode_step(old(self)@, p, set),
            final(self)@.rows == old(self)@.rows,
            final(self)@.cols == old(self)@.cols,
    {
        let r = private_mode_values(self.modes, self.origin_mode, self.pending_wrap, self.cursor_visible,
            self.saved_main.is_some(), p, set);
        self.set_mode_fields(r.0, r.1, r.2, r.3);
    }

    /// SM/RM, DECSET/DECRST: every parameter in order.
    fn set_modes(&mut self, params: &[i64], set: bool, private: bool)
        requires
            old(self).ready(),
        ensures
            final(self).ready(),
            final(self)@ == modes_from(old(self)@, params@, set, private, 0),
    {
        let ghost o = self@;
        let mut i: usize = 0;
        while i < params.len()
            invariant
                i <= params@.len(),
                self.wf(),
                self@.rows == o.rows,
                self@.cols == o.cols,
                o.rows >= 1,
                o.cols >= 1,
                modes_from(self@, params@, set, private, i as int) == modes_from(o, params@, set, private, 0),
            decreases params@.len() - i,
        {
            self.apply_mode(params[i], set, private);
            i += 1;
        }
    }
}

fn designation(m: Modes, f: u8, g1: bool) -> (r: Modes)
    ensures
        r == designated_modes(m, f, g1),
{
    let set = if f == 0x30 { Charset::DecGraphics } else { Charset::UsAscii };
    if g1 {
        Modes { g1_charset: set, ..m }
    } else {
        Modes { g0_charset: set, ..m }
    }
}

/// The DEC special graphics set (line drawing), looked up by the low byte.
fn dec_graphics(c: char) -> (r: char)
    ensures
        r == dec_graphics_char(c),
{
    let b = c as u8;
    if b == 0x2b { '\u{2192}' }
    else if b == 0x2c { '\u{2190}' }
    else if b == 0x2d { '\u{2191}' }
    else if b == 0x2e { '\u{2193}' }
    else if b == 0x30 { '\u{2588}' }
    else if b == 0x60 { '\u{25C6}' }
    else if b == 0x61 { '\u{2592}' }
    else if b == 0x66 { '\u{00B0}' }
    else if b == 0x67 { '\u{00B1}' }
    else if b == 0x68 { '\u{2424}' }
    else if b == 0x6a { '\u{2518}' }
    else if b == 0x6b { '\u{2510}' }
    else if b == 0x6c { '\u{250C}' }
    else if b == 0x6d { '\u{2514}' }
    else if b == 0x6e { '\u{253C}' }
    else if b == 0x6f { '\u{23BA}' }
    else if b == 0x70 { '\u{23BB}' }
    else if b == 0x71 { '\u{2500}' }
    else if b == 0x72 { '\u{23BC}' }
    else if b == 0x73 { '\u{23BD}' }
    else if b == 0x74 { '\u{251C}' }
    else if b == 0x75 { '\u{2524}' }
    else if b == 0x76 { '\u{2534}' }
    else if b == 0x77 { '\u{252C}' }
    else if b == 0x78 { '\u{2502}' }
    else if b == 0x79 { '\u{2264}' }
    else if b == 0x7a { '\u{2265}' }
    else if b == 0x7e { '\u{00B7}' }
    else { c }
}

impl Screen {
    fn save_cursor(&mut self)
        requires
            old(self).wf(),
        ensures
            final(self).wf(),
            final(self)@ == (ScreenView { saved_cursor_x: old(self)@.cursor_x, saved_cursor_y: old(self)@.cursor_y, ..old(self)@ }),
    {
        proof {
            lemma_model_elim(self@);
        }
        self.saved_cursor_x = self.cursor_x;
        self.saved_cursor_y = self.cursor_y;
        proof {
            lemma_model_intro(self@);
        }
    }

    /// Move the cursor back to the saved position (clamped to the screen).
    fn restore_cursor(&mut self)
        requires
            old(self).ready(),
        ensures
            final(self).ready(),
            final(self)@ == with_cursor(old(self)@, min_int(old(self)@.saved_cursor_x as int, last_index(old(self)@.cols) as int) as usize,
                min_int(old(self)@.saved_cursor_y as int, last_index(old(self)@.rows) as int) as usize),
    {
        let lx = self.cols - 1;
        let ly = self.rows - 1;
        let x = if self.saved_cursor_x < lx { self.saved_cursor_x } else { lx };
        let y = if self.saved_cursor_y < ly { self.saved_cursor_y } else { ly };
        self.move_cursor_to(x, y);
    }

    fn csi_motion_exec(&mut self, params: &[i64], f: u8)
        requires
            old(self).ready(),
        ensures
            final(self).ready(),
            final(self)@ == csi_motion(old(self)@, params@, f),
    {
        proof {
            reveal(csi_motion);
        }
        proof {
            lemma_model_elim(self@);
        }
        let n1 = param_or_default(params, 0, 1) as usize;
        let lx = self.cols - 1;
        let ly = self.rows - 1;
        if f == 0x41 {
            self.move_cursor_to(self.cursor_x, self.cursor_y.saturating_sub(n1));
        } else if f == 0x42 {
            let t = self.cursor_y.saturating_add(n1);
            self.move_cursor_to(self.cursor_x, if t < ly { t } else { ly });
        } else if f == 0x43 {
            self.csi_cursor_forward(n1);
        } else if f == 0x44 {
            self.csi_cursor_back(n1);
        } else if f == 0x45 {
            let t = self.cursor_y.saturating_add(n1);
            self.move_cursor_to(0, if t < ly { t } else { ly });
        } else if f == 0x46 {
            self.move_cursor_to(0, self.cursor_y.saturating_sub(n1));
        } else if f == 0x47 {
            let t = n1.saturating_sub(1);
            self.move_cursor_to(if t < lx { t } else { lx }, self.cursor_y);
        } else if f == 0x48 || f == 0x66 {
            let col = param_or_default(params, 1, 1) as usize;
            self.set_cursor(n1.saturating_sub(1), col.saturating_sub(1));
        } else if f == 0x64 {
            let x = self.cursor_x;
            self.set_cursor(n1.saturating_sub(1), x);
        }
    }

    fn csi_edit_exec(&mut self, params: &[i64], f: u8)
        requires
            old(self).ready(),
        ensures
            final(self).ready(),
            final(self)@ == csi_edit(old(self)@, params@, f),
    {
        proof {
            reveal(csi_edit);
        }
        proof {
            lemma_model_elim(self@);
        }
        let n1 = param_or_default(params, 0, 1) as usize;
        let nmin = if n1 >= 1 { n1 } else { 1 };
        if f == 0x4a {
            self.erase_display(param_or_default(params, 0, 0));
        } else if f == 0x4b {
            self.erase_line(param_or_default(params, 0, 0));
        } else if f == 0x4c {
            self.insert_lines(nmin);
        } else if f == 0x4d {
            self.delete_lines(nmin);
        } else if f == 0x50 {
            self.shift_chars(nmin, true);
        } else if f == 0x40 {
            self.shift_chars(nmin, false);
        } else if f == 0x53 {
            self.scroll_up(nmin);
        } else if f == 0x54 {
            self.scroll_down(nmin);
        } else if f == 0x58 {
            let t = self.cursor_x.saturating_add(nmin);
            let end = if t < self.cols { t } else { self.cols };
            let y = self.cursor_y;
            let x = self.cursor_x;
            self.erase_cells_in_row(y, x, end, false);
        }
    }

    fn csi_settings_exec(&mut self, params: &[i64], intermediates: &[u8], f: u8)
        requires
            old(self).ready(),
        ensures
            final(self).ready(),
            final(self)@ == csi_settings(old(self)@, params@, intermediates@, f),
    {
        proof {
            reveal(csi_settings);
        }
        if f == 0x6d {
            self.select_graphic_rendition(params);
        } else if f == 0x6e {
            self.status_report(param_or_default(params, 0, 0));
        } else if f == 0x72 {
            self.set_scroll_region(params);
        } else if f == 0x68 || f == 0x6c {
            let private = contains_byte(intermediates, 0x3f);
            self.set_modes(params, f == 0x68, private);
        } else if f == 0x63 {
            if param_or_default(params, 0, 0) == 0 {
                self.push_response(vec![0x1bu8, 0x5bu8, 0x3fu8, 0x31u8, 0x3bu8, 0x32u8, 0x63u8]);
            }
        } else if f == 0x73 {
            self.save_cursor();
        } else if f == 0x75 {
            self.restore_cursor();
        } else if f == 0x74 {
            // 8 (resize the window) is not honoured: the window's geometry is
            // the terminal's own, and size changes reach the program via SIGWINCH.
            self.window_op(param_or_default(params, 0, 0));
        }
    }

    fn set_tab_stop_here(&mut self)
        requires
            old(self).wf(),
        ensures
            final(self).wf(),
            final(self)@ == (if old(self)@.cursor_x < old(self)@.cols {
                ScreenView { tab_stops: old(self)@.tab_stops.update(old(self)@.cursor_x as int, true), ..old(self)@ }
            } else {
                old(self)@
            }),
    {
        proof {
            lemma_model_elim(self@);
        }
        if self.cursor_x < self.cols {
            let x = self.cursor_x;
            self.tab_stops.set(x, true);
        }
        proof {
            lemma_model_intro(self@);
        }
    }

    fn reverse_index(&mut self)
        requires
            old(self).ready(),
        ensures
            final(self).ready(),
            final(self)@ == (if old(self)@.cursor_y == old(self)@.scroll_top {
                scrolled_down(old(self)@, min_int(1, region_count(old(self)@.scroll_top, old(self)@.scroll_bottom)) as nat)
            } else {
                ScreenView { cursor_y: sat_sub(old(self)@.cursor_y as int, 1) as usize, ..old(self)@ }
            }),
    {
        proof {
            lemma_model_elim(self@);
        }
        if self.cursor_y == self.scroll_top {
            self.scroll_down(1);
        } else {
            self.cursor_y = self.cursor_y.saturating_sub(1);
            proof {
                lemma_model_intro(self@);
            }
        }
    }

    fn set_cursor_x(&mut self, x: usize)
        requires
            old(self).ready(),
            x < old(self)@.cols,
        ensures
            final(self).ready(),
            final(self)@ == (ScreenView { cursor_x: x, ..old(self)@ }),
    {
        proof {
            lemma_model_elim(self@);
        }
        self.cursor_x = x;
        proof {
            lemma_model_intro(self@);
        }
    }

    fn set_title(&mut self, title: String)
        requires
            old(self).wf(),
        ensures
            final(self).wf(),
            final(self)@ == (ScreenView { title: title@, ..old(self)@ }),
    {
        proof {
            lemma_model_elim(self@);
        }
        self.title = title;
        proof {
            lemma_model_intro(self@);
        }
    }

    fn esc_effect_exec(&mut self, intermediates: &[u8], final_byte: u8)
        requires
            old(self).ready(),
        ensures
            final(self).ready(),
            final(self)@ == esc_effect(old(self)@, intermediates@, final_byte),
    {
        proof {
            reveal(esc_effect);
        }
        if intermediates.len() == 1 && intermediates[0] == 0x4f && 0x41 <= final_byte && final_byte <= 0x44 {
            let one: Vec<i64> = vec![1i64];
            let none: Vec<u8> = Vec::new();
            proof {
                assert(one@ == seq![1i64]);
                assert(none@ == Seq::<u8>::empty());
            }
            self.csi_dispatch(one.as_slice(), none.as_slice(), final_byte);
            return;
        }
        if intermediates.len() > 0 && (intermediates[0] == 0x28 || intermediates[0] == 0x29) {
            self.designate_charset(final_byte, intermediates[0] == 0x29);
            return;
        }
        if final_byte == 0x44 {
            self.maybe_newline();
        } else if final_byte == 0x45 {
            self.set_cursor_x(0);
            self.maybe_newline();
        } else if final_byte == 0x48 {
            self.set_tab_stop_here();
        } else if final_byte == 0x4d {
            self.reverse_index();
        } else {
            self.esc_settings_exec(intermediates, final_byte);
        }
    }
}

fn hex_value(c: char) -> (r: Option<u8>)
    ensures
        r == hex_val(c),
{
    if '0' <= c && c <= '9' {
        Some((c as u32 - 48) as u8)
    } else if 'a' <= c && c <= 'f' {
        Some((c as u32 - 87) as u8)
    } else if 'A' <= c && c <= 'F' {
        Some((c as u32 - 55) as u8)
    } else {
        None
    }
}

fn hex_pair_value(a: char, b: char) -> (r: Option<u8>)
    ensures
        r == hex_pair(a, b),
{
    let x = hex_value(a);
    let y = hex_value(b);
    match (x, y) {
        (Some(x), Some(y)) => Some(x * 16 + y),
        (None, Some(y)) => if a == '+' { Some(y) } else { None },
        _ => None,
    }
}

/// Decode a hex-encoded capability name.
fn hex_decode_chars(s: &[char]) -> (r: Option<Vec<char>>)
    ensures
        match r {
            Some(v) => hex_decoded_from(s@, 0) == Some(v@),
            None => hex_decoded_from(s@, 0) is None,
        },
{
    let n = s.len();
    let mut out: Vec<char> = Vec::new();
    let mut i: usize = 0;
    while i < n
        invariant
            n == s@.len(),
            i <= n,
            i % 2 == 0,
            hex_decoded_from(s@, 0) == match hex_decoded_from(s@, i as int) {
                Some(rest) => Some(out@ + rest),
                None => None::<Seq<char>>,
            },
        decreases n - i,
    {
        if i + 1 == n {
            return None;
        }
        match hex_pair_value(s[i], s[i + 1]) {
            Some(b) => {
                let ghost before = out@;
                out.push(b as char);
                proof {
                    match hex_decoded_from(s@, i + 2) {
                        Some(rest) => {
                            assert(before + (seq![b as char] + rest) =~= out@ + rest);
                        },
                        None => {},
                    }
                }
                i = i + 2;
            },
            None => {
                return None;
            },
        }
    }
    proof {
        assert(out@ + Seq::<char>::empty() =~= out@);
    }
    Some(out)
}

fn chars_equal(a: &[char], b: &[char]) -> (r: bool)
    ensures
        r == (a@ == b@),
{
    if a.len() != b.len() {
        return false;
    }
    let mut i: usize = 0;
    while i < a.len()
        invariant
            a@.len() == b@.len(),
            i <= a@.len(),
            forall|k: int| 0 <= k < i ==> a@[k] == b@[k],
        decreases a@.len() - i,
    {
        if a[i] != b[i] {
            return false;
        }
        i += 1;
    }
    assert(a@ =~= b@);
    true
}

/// The reported value of a capability, if any.
fn cap_value_of(cap: &[char]) -> (r: Option<Vec<char>>)
    ensures
        match r {
            Some(v) => cap_value(cap@) == Some(v@),
            None => cap_value(cap@) is None,
        },
{
    if chars_equal(cap, &['C', 'o']) || chars_equal(cap, &['c', 'o', 'l', 'o', 'r', 's']) {
        Some(vec!['2', '5', '6'])
    } else if chars_equal(cap, &['R', 'G', 'B']) || chars_equal(cap, &['T', 'c']) {
        Some(vec!['1'])
    } else if chars_equal(cap, &['T', 'N']) || chars_equal(cap, &['n', 'a', 'm', 'e']) {
        Some(vec!['x', 't', 'e', 'r', 'm', '-', '2', '5', '6', 'c', 'o', 'l', 'o', 'r'])
    } else if chars_equal(cap, &['a', 'm']) || chars_equal(cap, &['x', 'n']) || chars_equal(cap, &['k', 'm'])
        || chars_equal(cap, &['c', 'c']) || chars_equal(cap, &['m', 'i']) || chars_equal(cap, &['d', 'a'])
        || chars_equal(cap, &['h', 's']) {
        Some(vec!['1'])
    } else {
        // "cols" included: the window size report answers that.
        None
    }
}

fn hex_digit_of(d: u8) -> (r: u8)
    requires
        d < 16,
    ensures
        r == hex_digit(d),
{
    if d < 10 {
        48 + d
    } else {
        87 + d
    }
}

/// Append the bytes in lower-case hex.
fn push_hex(out: &mut Vec<u8>, bytes: &[u8])
    ensures
        final(out)@ == old(out)@ + hex_bytes(bytes@),
{
    let mut i: usize = 0;
    while i < bytes.len()
        invariant
            i <= bytes@.len(),
            out@ == old(out)@ + hex_bytes(bytes@.subrange(0, i as int)),
        decreases bytes@.len() - i,
    {
        let b = bytes[i];
        out.push(hex_digit_of(b / 16));
        out.push(hex_digit_of(b % 16));
        proof {
            let t = bytes@.subrange(0, i + 1);
            assert(t.drop_last() =~= bytes@.subrange(0, i as int));
            assert(out@ =~= old(out)@ + hex_bytes(t));
        }
        i += 1;
    }
    assert(bytes@.subrange(0, bytes@.len() as int) =~= bytes@);
}

/// Append the UTF-8 encoding of the characters in lower-case hex.
fn push_hex_utf8(out: &mut Vec<u8>, chars: &[char])
    ensures
        final(out)@ == old(out)@ + hex_bytes(encode_utf8(chars@)),
{
    let s = chars_to_string(chars);
    let bytes = s.as_str().as_bytes();
    push_hex(out, bytes);
}

/// The `;`-separated non-empty pieces of `q`.
fn split_caps(q: &[char]) -> (r: Vec<Vec<char>>)
    ensures
        char_rows(r@) == tokens_acc(q@, seq![]),
{
    let n = q.len();
    let mut toks: Vec<Vec<char>> = Vec::new();
    let mut cur: Vec<char> = Vec::new();
    let mut i: usize = 0;
    assert(q@.subrange(0, n as int) =~= q@);
    while i < n
        invariant
            n == q@.len(),
            i <= n,
            char_rows(toks@) + tokens_acc(q@.subrange(i as int, n as int), cur@) == tokens_acc(q@, seq![]),
        decreases n - i,
    {
        let ghost rest = q@.subrange(i as int, n as int);
        proof {
            assert(rest.drop_first() =~= q@.subrange(i + 1, n as int));
        }
        let c = q[i];
        if c == ';' {
            if cur.len() > 0 {
                let ghost bt = toks@;
                toks.push(cur);
                proof {
                    assert(char_rows(toks@) =~= char_rows(bt) + seq![cur@]);
                }
            }
            cur = Vec::new();
            proof {
                assert(cur@ =~= Seq::<char>::empty());
            }
        } else {
            cur.push(c);
        }
        i += 1;
    }
    proof {
        assert(q@.subrange(n as int, n as int) =~= Seq::<char>::empty());
    }
    if cur.len() > 0 {
        let ghost bt = toks@;
        toks.push(cur);
        proof {
            assert(char_rows(toks@) =~= char_rows(bt) + seq![cur@]);
        }
    } else {
        assert(char_rows(toks@) + Seq::<Seq<char>>::empty() =~= char_rows(toks@));
    }
    toks
}

/// Drop a leading `c`.
fn strip_leading(v: Vec<char>, c: char) -> (r: Vec<char>)
    ensures
        r@ == strip_char(v@, c),
{
    if v.len() > 0 && v[0] == c {
        let mut out: Vec<char> = Vec::new();
        let mut i: usize = 1;
        while i < v.len()
            invariant
                1 <= i <= v@.len(),
                out@ == v@.subrange(1, i as int),
            decreases v@.len() - i,
        {
            out.push(v[i]);
            i += 1;
        }
        out
    } else {
        v
    }
}

/// The reply bytes for one capability.
fn token_reply_bytes(out: &mut Vec<u8>, tok: &Vec<char>)
    ensures
        final(out)@ == old(out)@ + token_reply(tok@),
{
    let cap = match hex_decode_chars(tok.as_slice()) {
        Some(c) => c,
        None => tok.clone(),
    };
    proof {
        assert(cap@ == match hex_decoded_from(tok@, 0) { Some(c) => c, None => tok@ });
    }
    match cap_value_of(cap.as_slice()) {
        Some(value) => {
            out.push(0x31u8);
            out.push(0x2bu8);
            out.push(0x72u8);
            push_hex_utf8(out, cap.as_slice());
            out.push(0x3du8);
            push_hex_utf8(out, value.as_slice());
        },
        None => {
            out.push(0x30u8);
            out.push(0x2bu8);
            out.push(0x72u8);
            push_hex_utf8(out, cap.as_slice());
        },
    }
    proof {
        assert(out@ =~= old(out)@ + token_reply(tok@));
    }
}

impl Screen {
    /// XTGETTCAP: ncurses and vim query termcap/terminfo values via DCS.
    fn handle_xtgettcap(&mut self, data: &str)
        requires
            old(self).wf(),
        ensures
            final(self).wf(),
            final(self)@ == with_response(old(self)@, xtgettcap_reply(data@)),
    {
        let chars = str_chars(data);
        let q = strip_leading(strip_leading(strip_leading(chars, '+'), '$'), 'q');
        if q.len() == 0 {
            self.push_response(vec![0x1bu8, 0x50u8, 0x30u8, 0x2bu8, 0x72u8, 0x30u8, 0x1bu8, 0x5cu8]);
            return;
        }
        let toks = split_caps(q.as_slice());
        let mut reply: Vec<u8> = vec![0x1bu8, 0x50u8];
        let mut i: usize = 0;
        while i < toks.len()
            invariant
                i <= toks@.len(),
                reply@ == seq![0x1bu8, 0x50u8] + replies(char_rows(toks@).take(i as int)),
            decreases toks@.len() - i,
        {
            token_reply_bytes(&mut reply, &toks[i]);
            proof {
                let t = char_rows(toks@).take(i + 1);
                assert(t.drop_last() =~= char_rows(toks@).take(i as int));
                assert(t.last() == toks@[i as int]@);
                assert(reply@ =~= seq![0x1bu8, 0x50u8] + replies(t));
            }
            i += 1;
        }
        proof {
            assert(char_rows(toks@).take(toks@.len() as int) =~= char_rows(toks@));
        }
        if toks.len() == 0 {
            reply.push(0x30u8);
            reply.push(0x2bu8);
            reply.push(0x72u8);
            reply.push(0x30u8);
        }
        reply.push(0x1bu8);
        reply.push(0x5cu8);
        proof {
            assert(reply@ =~= xtgettcap_reply(data@));
        }
        self.push_response(reply);
    }
}

impl Screen {
    fn edit_control(&mut self, byte: u8)
        requires
            old(self).ready(),
            byte == 0x08 || byte == 0x7f || byte == 0x09,
        ensures
            final(self).ready(),
            final(self)@ == after_edit_control(old(self)@, byte),
    {
        proof {
            reveal(after_edit_control);
        }
        self.flush_pending_cr();
        if byte == 0x08 {
            self.backspace();
        } else if byte == 0x7f {
            self.erase_left();
        } else {
            self.advance_tabs();
        }
    }

    /// LF, VT, FF.
    fn line_feed(&mut self)
        requires
            old(self).ready(),
        ensures
            final(self).ready(),
            final(self)@ == after_lf(
                ScreenView { pending_wrap: false, shell: ShellState { pending_cr: false, ..old(self)@.shell }, ..old(self)@ },
                old(self)@.shell.pending_cr,
            ),
    {
        let preceded_by_cr = self.shell.pending_cr;
        let mut sh = self.shell;
        sh.pending_cr = false;
        self.set_shell(sh);
        self.set_pending_wrap(false);
        self.newline_from_lf(preceded_by_cr);
    }

    /// RIS: a full reset (the alternate screen and the scrollback go too).
    fn reset(&mut self)
        requires
            old(self).ready(),
        ensures
            final(self).ready(),
            final(self)@ == fresh_screen(old(self)@.rows, old(self)@.cols),
    {
        *self = Screen::new(self.rows, self.cols);
    }

    fn designate_charset(&mut self, f: u8, g1: bool)
        requires
            old(self).wf(),
        ensures
            final(self).wf(),
            final(self)@ == with_modes(old(self)@, designated_modes(old(self)@.modes, f, g1)),
    {
        let m = designation(self.modes, f, g1);
        self.set_modes_flags(m);
    }

    fn carriage_return(&mut self)
        requires
            old(self).ready(),
        ensures
            final(self).ready(),
            final(self)@ == (ScreenView { pending_wrap: false, shell: ShellState { pending_cr: true, ..old(self)@.shell }, ..old(self)@ }),
    {
        self.set_pending_wrap(false);
        let mut sh = self.shell;
        sh.pending_cr = true;
        self.set_shell(sh);
    }

    /// SO / SI: switch to G1 / G0.
    fn shift_charset(&mut self, g1: bool)
        requires
            old(self).ready(),
        ensures
            final(self).ready(),
            final(self)@ == with_modes(after_flush_cr(old(self)@), Modes { charset: if g1 { 1u8 } else { 0u8 }, ..after_flush_cr(old(self)@).modes }),
    {
        self.flush_pending_cr();
        let mut m = self.modes;
        m.charset = if g1 { 1 } else { 0 };
        self.set_modes_flags(m);
    }

    fn line_control(&mut self, byte: u8)
        requires
            old(self).ready(),
        ensures
            final(self).ready(),
            final(self)@ == after_line_control(old(self)@, byte),
    {
        proof {
            reveal(after_line_control);
        }
        if byte == 0x0a || byte == 0x0b || byte == 0x0c {
            self.line_feed();
        } else if byte == 0x0d {
            self.carriage_return();
        } else if byte == 0x0e || byte == 0x0f {
            self.shift_charset(byte == 0x0e);
        }
    }

    /// ESC sequences that set modes, charsets or the saved cursor.
    fn esc_settings_exec(&mut self, intermediates: &[u8], final_byte: u8)
        requires
            old(self).ready(),
            !(intermediates@.len() == 1 && intermediates@[0] == 0x4f && 0x41 <= final_byte <= 0x44),
            !is_designation(intermediates@),
            final_byte != 0x44 && final_byte != 0x45 && final_byte != 0x48 && final_byte != 0x4d,
        ensures
            final(self).ready(),
            final(self)@ == esc_effect(old(self)@, intermediates@, final_byte),
    {
        proof {
            reveal(esc_effect);
        }
        if final_byte == 0x37 {
            self.save_cursor();
        } else if final_byte == 0x38 {
            self.restore_cursor();
        } else if final_byte == 0x3d || final_byte == 0x3e {
            let mut m = self.modes;
            m.app_keypad = final_byte == 0x3d;
            self.set_modes_flags(m);
        } else if final_byte == 0x63 {
            self.reset();
        }
    }
}

/// Tab stops every eight columns.
fn make_tab_stops(cols: usize) -> (t: Vec<bool>)
    ensures
        t@ == default_tab_stops(cols as nat),
{
    let mut tab_stops: Vec<bool> = Vec::new();
    let mut t: usize = 0;
    while t < cols
        invariant
            t <= cols,
            tab_stops@ == default_tab_stops(t as nat),
        decreases cols - t,
    {
        tab_stops.push(t % TAB_STOPS_EVERY == 0);
        assert(tab_stops@ =~= default_tab_stops((t + 1) as nat));
        t = t + 1;
    }
    tab_stops
}

impl Screen {
    /// Move the reflowed visual rows above the new screen into the
    /// scrollback, then trim it to its limit when any were moved.
    fn push_reflowed_rows(&mut self, plan: &ReflowPlan, Ghost(cols): Ghost<nat>)
        requires
            old(self).cache_ok(old(self)@.cols as nat),
            lines_ok(old(self)@.scrollback),
            lines_ok(line_views(plan.lines@)),
            plan.visible_start <= plan.segs@.len(),
            stream_ok(line_views(plan.lines@), owner_ints(plan.owner@), seg_views(plan.segs@), cols,
                line_views(plan.lines@).len() as int),
        ensures
            final(self).cache_ok(final(self)@.cols as nat),
            ({
                let pushed = pushed_scrollback(old(self)@.scrollback, line_views(plan.lines@), owner_ints(plan.owner@),
                    seg_views(plan.segs@), plan.visible_start as int);
                final(self)@ == with_scrollback(old(self)@,
                    if plan.visible_start > 0 { trim_front(pushed, old(self)@.scrollback_limit) } else { pushed })
            }),
            lines_ok(final(self)@.scrollback),
    {
        let ghost mid = self@;
        let ghost base = mid.scrollback;
        let ghost ls = line_views(plan.lines@);
        let ghost ow = owner_ints(plan.owner@);
        let ghost sg = seg_views(plan.segs@);
        let vs = plan.visible_start;
        let mut i: usize = 0;
        while i < vs
            invariant
                i <= vs,
                vs == plan.visible_start,
                vs <= sg.len(),
                ls == line_views(plan.lines@),
                ow == owner_ints(plan.owner@),
                sg == seg_views(plan.segs@),
                stream_ok(ls, ow, sg, cols, ls.len() as int),
                self.cache_ok(self@.cols as nat),
                self@ == with_scrollback(mid, pushed_scrollback(base, ls, ow, sg, i as int)),
            decreases vs - i,
        {
            proof {
                assert(ow[i as int] == plan.owner@[i as int] as int);
                assert(sg[i as int] == plan.segs@[i as int]@);
                assert(plan.lines@[plan.owner@[i as int] as int].cells@ == ls[ow[i as int]]);
            }
            let li = plan.owner[i];
            let part = seg_part_of(&plan.lines[li].cells, plan.segs[i].start, plan.segs[i].end);
            if plan.segs[i].wrapped {
                self.extend_last_logical_with_visuals(part);
            } else {
                self.append_logical_with_visuals(part);
            }
            i = i + 1;
        }
        if vs > 0 {
            self.trim_scrollback_front();
        }
        proof {
            assert forall|k: int| 0 <= k < sg.len() implies 0 <= #[trigger] ow[k] < ls.len() by {}
            assert forall|k: int| 0 <= k < sg.len() implies 0 <= (#[trigger] sg[k]).start <= sg[k].end by {}
            lemma_pushed_ok(base, ls, ow, sg, vs as int);
            lemma_lines_trim(pushed_scrollback(base, ls, ow, sg, vs as int), mid.scrollback_limit);
        }
    }

    /// Reflow a main-screen grid (cursor at `cx`, `cy`) to `rows` x `cols`;
    /// the visual rows that no longer fit move into the scrollback.
    fn reflow_into_scrollback(&mut self, cells: Vec<Vec<Cell>>, wrapped: Vec<bool>, cx: usize, cy: usize, rows: usize, cols: usize)
        -> (r: (Vec<Vec<Cell>>, Vec<bool>, usize, usize))
        requires
            old(self).cache_ok(old(self)@.cols as nat),
            lines_ok(old(self)@.scrollback),
            wrapped@.len() == cells@.len(),
        ensures
            final(self).cache_ok(final(self)@.cols as nat),
            ({
                let m = reflow_main(row_views(cells@), wrapped@, old(self)@.scrollback, old(self)@.scrollback_limit, cx, cy, rows, cols);
                &&& final(self)@ == with_scrollback(old(self)@, m.scrollback)
                &&& row_views(r.0@) == m.cells
                &&& r.1@ == m.wrapped
                &&& r.2 == m.cursor_x
                &&& r.3 == m.cursor_y
            }),
            lines_ok(final(self)@.scrollback),
            grid_ok(row_views(r.0@), rows as int, cols as int),
            r.1@.len() == rows,
            in_range(r.2, cols),
            in_range(r.3, rows),
    {
        let ghost o = self@;
        let ghost g = row_views(cells@);
        let ghost w = wrapped@;
        let prefix = if wrapped.len() > 0 && wrapped[0] {
            self.pop_last_logical_with_visuals()
        } else {
            None
        };
        proof {
            assert(prefix_view(prefix) == joined_prefix(w, o.scrollback));
            if prefix is Some {
                lemma_lines_index(o.scrollback, o.scrollback.len() - 1);
                lemma_lines_subrange(o.scrollback, 0, o.scrollback.len() - 1);
                assert(o.scrollback.drop_last() =~= o.scrollback.subrange(0, o.scrollback.len() - 1));
            }
        }
        let plan = reflow_layout(&cells, &wrapped, prefix, cx, cy, rows, cols);
        let ghost pre = joined_prefix(w, o.scrollback);
        let ghost ls = reflow_lines(g, w, pre);
        let ghost sg = reflow_segs(g, w, pre, cols as nat);
        let ghost ow = reflow_owner(g, w, pre, cols as nat);
        proof {
            lemma_stream_len(ls, first_continues(w, pre), cols as nat, ls.len() as int);
            lemma_reflow_grid_ok(sg, rows as nat, cols as nat);
            lemma_reflow_cursor_range(ls, ow, sg, cursor_target(g, w, pre, cx, cy), rows, cols);
        }
        self.push_reflowed_rows(&plan, Ghost(cols as nat));
        (plan.cells, plan.wrapped, plan.cursor_x, plan.cursor_y)
    }

    /// Reflow the main screen's own grid to `rows` x `cols`.
    fn reflow_visible_main_grid(&mut self, rows: usize, cols: usize)
        requires
            old(self).wf(),
        ensures
            final(self).cache_ok(final(self)@.cols as nat),
            ({
                let o = old(self)@;
                let m = reflow_main(o.cells, o.wrapped, o.scrollback, o.scrollback_limit, o.cursor_x, o.cursor_y, rows, cols);
                final(self)@ == (ScreenView { cells: m.cells, wrapped: m.wrapped, scrollback: m.scrollback, cursor_x: m.cursor_x, cursor_y: m.cursor_y, ..o })
            }),
            lines_ok(final(self)@.scrollback),
            grid_ok(final(self)@.cells, rows as int, cols as int),
            final(self)@.wrapped.len() == rows,
            in_range(final(self)@.cursor_x, cols),
            in_range(final(self)@.cursor_y, rows),
    {
        proof {
            lemma_model_elim(self@);
        }
        let mut cells: Vec<Vec<Cell>> = Vec::new();
        std::mem::swap(&mut cells, &mut self.cells);
        let mut wrapped: Vec<bool> = Vec::new();
        std::mem::swap(&mut wrapped, &mut self.wrapped);
        let cx = self.cursor_x;
        let cy = self.cursor_y;
        let (c, w, x, y) = self.reflow_into_scrollback(cells, wrapped, cx, cy, rows, cols);
        self.cells = c;
        self.wrapped = w;
        self.cursor_x = x;
        self.cursor_y = y;
    }

    /// Reflow the saved main screen while the alternate screen is shown: it is
    /// shell history, and must come back at the new size.
    fn reflow_saved_main_for_resize(&mut self, main: MainScreenState, rows: usize, cols: usize) -> (m: MainScreenState)
        requires
            old(self).cache_ok(old(self)@.cols as nat),
            lines_ok(old(self)@.scrollback),
            main@.wrapped.len() == main@.cells.len(),
        ensures
            final(self).cache_ok(final(self)@.cols as nat),
            ({
                let r = reflow_main(main@.cells, main@.wrapped, old(self)@.scrollback, old(self)@.scrollback_limit, main@.cursor_x, main@.cursor_y, rows, cols);
                &&& final(self)@ == with_scrollback(old(self)@, r.scrollback)
                &&& m@ == resized_main(main@, r, rows, cols)
            }),
            lines_ok(final(self)@.scrollback),
            main_ok(m@, rows, cols),
    {
        let last_col = if cols > 0 { cols - 1 } else { 0 };
        let last_row = if rows > 0 { rows - 1 } else { 0 };
        let (c, w, x, y) = self.reflow_into_scrollback(main.cells, main.wrapped, main.cursor_x, main.cursor_y, rows, cols);
        MainScreenState {
            cells: c,
            wrapped: w,
            cursor_x: if x < last_col { x } else { last_col },
            cursor_y: if y < last_row { y } else { last_row },
            current_attrs: main.current_attrs,
            saved_cursor_x: if main.saved_cursor_x < last_col { main.saved_cursor_x } else { last_col },
            saved_cursor_y: if main.saved_cursor_y < last_row { main.saved_cursor_y } else { last_row },
            scroll_top: 0,
            scroll_bottom: last_row,
            origin_mode: false,
            pending_wrap: false,
        }
    }

    /// The size-dependent settings after a resize: cursor clamped, the scroll
    /// region the whole screen, tab stops reset.
    fn finish_resize(&mut self, rows: usize, cols: usize)
        ensures
            final(self)@ == (ScreenView {
                rows,
                cols,
                cursor_x: min_int(old(self)@.cursor_x as int, last_index(cols) as int) as usize,
                cursor_y: min_int(old(self)@.cursor_y as int, last_index(rows) as int) as usize,
                scroll_top: 0,
                scroll_bottom: last_index(rows),
                tab_stops: default_tab_stops(cols as nat),
                pending_wrap: false,
                ..old(self)@
            }),
            final(self).visual_cache == old(self).visual_cache,
            final(self).visual_starts == old(self).visual_starts,
            final(self).visual_wrapped == old(self).visual_wrapped,
            final(self).scrollback == old(self).scrollback,
    {
        let last_col = if cols > 0 { cols - 1 } else { 0 };
        let last_row = if rows > 0 { rows - 1 } else { 0 };
        self.rows = rows;
        self.cols = cols;
        self.cursor_y = if self.cursor_y < last_row { self.cursor_y } else { last_row };
        self.cursor_x = if self.cursor_x < last_col { self.cursor_x } else { last_col };
        self.scroll_top = 0;
        self.scroll_bottom = last_row;
        self.tab_stops = make_tab_stops(cols);
        self.scroll_scratch.clear();
        self.pending_wrap = false;
    }

    /// Resize the screen to `rows` x `cols`. The main screen is reflowed:
    /// soft-wrapped rows are joined and wrapped again at the new width, and
    /// rows that no longer fit go to the scrollback, so that shrinking does
    /// not destroy content. The alternate screen is cut to the new size
    /// (its program repaints it) and the saved main screen is reflowed.
    pub fn resize(&mut self, rows: usize, cols: usize)
        requires
            old(self).wf(),
        ensures
            final(self).wf(),
            final(self)@ == resized(old(self)@, rows, cols),
    {
        if rows == self.rows && cols == self.cols {
            return;
        }
        proof {
            lemma_model_elim(self@);
        }
        let ghost o = self@;
        let old_rows = self.rows;
        let col_changed = cols != self.cols;
        if self.saved_main.is_some() {
            self.resize_alternate(rows, cols);
        } else {
            self.reflow_visible_main_grid(rows, cols);
        }
        let ghost v1 = self@;
        self.finish_resize(rows, cols);
        if col_changed {
            self.rebuild_visual_cache();
        }
        proof {
            assert(self@ == resized(o, rows, cols));
            lemma_tab_stops_len(cols as nat);
            lemma_model_intro(self@);
        }
    }

    /// The alternate screen's part of a resize.
    fn resize_alternate(&mut self, rows: usize, cols: usize)
        requires
            old(self).wf(),
            old(self)@.saved_main is Some,
        ensures
            final(self).cache_ok(final(self)@.cols as nat),
            ({
                let o = old(self)@;
                let m = o.saved_main.unwrap();
                let r = reflow_main(m.cells, m.wrapped, o.scrollback, o.scrollback_limit, m.cursor_x, m.cursor_y, rows, cols);
                final(self)@ == (ScreenView {
                    saved_main: Some(resized_main(m, r, rows, cols)),
                    scrollback: r.scrollback,
                    cells: exact_grid(o.cells, o.rows as nat, rows as nat, cols as nat),
                    wrapped: resized_flags(o.wrapped, rows as nat),
                    origin_mode: false,
                    ..o
                })
            }),
            lines_ok(final(self)@.scrollback),
            grid_ok(final(self)@.cells, rows as int, cols as int),
            final(self)@.wrapped.len() == rows,
            saved_ok(final(self)@.saved_main, rows, cols),
    {
        proof {
            lemma_model_elim(self@);
        }
        let mut saved: Option<MainScreenState> = None;
        std::mem::swap(&mut saved, &mut self.saved_main);
        let main = saved.unwrap();
        proof {
            reveal(grid_ok);
            assert(main@.wrapped.len() == main@.cells.len());
        }
        let m2 = self.reflow_saved_main_for_resize(main, rows, cols);
        self.saved_main = Some(m2);
        let old_rows = self.rows;
        proof {
            self.lemma_rows_len();
        }
        // Alternate-screen programs repaint after SIGWINCH: keep the grid
        // exactly the new size, with no hidden tails.
        self.cells = resize_grid_exact(&self.cells, old_rows, rows, cols);
        self.wrapped = resize_flags(&self.wrapped, rows);
        self.origin_mode = false;
    }

    proof fn lemma_rows_len(&self)
        requires
            grid_ok(self@.cells, self@.rows as int, self@.cols as int),
        ensures
            self@.rows <= self.cells@.len(),
    {
        reveal(grid_ok);
    }
}

/// The glyph that `c` stands for in the active character set.
fn translate_char(m: Modes, c: char) -> (ch: char)
    ensures
        ch == translated(m, c),
{
    let set = if m.charset == 0 {
        m.g0_charset
    } else if m.charset == 1 {
        m.g1_charset
    } else {
        Charset::UsAscii
    };
    match set {
        Charset::DecGraphics => dec_graphics(c),
        Charset::UsAscii => c,
    }
}

impl Screen {
    /// A printed character ends the shell's line-padding and CR/LF tracking.
    fn note_printed(&mut self, c: char)
        requires
            old(self).ready(),
        ensures
            final(self).ready(),
            final(self)@ == (ScreenView {
                shell: ShellState {
                    suppress_extra_crlf_newline: false,
                    in_zsh_line_pad: if old(self)@.shell.in_zsh_line_pad && c != ' ' { false } else { old(self)@.shell.in_zsh_line_pad },
                    ..old(self)@.shell
                },
                ..old(self)@
            }),
    {
        let mut sh = self.shell;
        sh.suppress_extra_crlf_newline = false;
        if sh.in_zsh_line_pad && c != ' ' {
            sh.in_zsh_line_pad = false;
        }
        self.set_shell(sh);
    }
}

/// The scrollback, as shown, is a list of rows as wide as the screen, with
/// one soft-wrap flag for each.
pub proof fn lemma_scrollback_rows_width(v: ScreenView)
    requires
        model_ok(v),
    ensures
        visual_flags(v).len() == visual_rows(v).len(),
        forall|i: int| 0 <= i < visual_rows(v).len() ==> (#[trigger] visual_rows(v)[i]).len() == v.cols,
{
    lemma_model_elim(v);
    crate::terminal::visual::lemma_flags_len(v.scrollback, v.cols as nat);
    crate::terminal::visual::lemma_all_rows_width(v.scrollback, v.cols as nat);
}

proof fn lemma_scrolls_keep_size(v: ScreenView, n: nat)
    ensures
        scrolled_up(v, n).rows == v.rows && scrolled_up(v, n).cols == v.cols,
        scrolled_down(v, n).rows == v.rows && scrolled_down(v, n).cols == v.cols,
        inserted_lines(v, n).rows == v.rows && inserted_lines(v, n).cols == v.cols,
        deleted_lines(v, n).rows == v.rows && deleted_lines(v, n).cols == v.cols,
    decreases n,
{
    if n > 0 {
        lemma_scrolls_keep_size(v, (n - 1) as nat);
    }
}

proof fn lemma_erased_rows_keep_size(v: ScreenView, from: int, to: int, d: bool)
    ensures
        erased_rows(v, from, to, d).rows == v.rows && erased_rows(v, from, to, d).cols == v.cols,
    decreases to - from,
{
    if from < to {
        lemma_erased_rows_keep_size(erased_in_row(v, from, 0, v.cols, d), from + 1, to, d);
    }
}

proof fn lemma_modes_keep_size(v: ScreenView, params: Seq<i64>, set: bool, private: bool, i: int)
    ensures
        modes_from(v, params, set, private, i).rows == v.rows,
        modes_from(v, params, set, private, i).cols == v.cols,
    decreases params.len() - i,
{
    if 0 <= i < params.len() {
        reveal(mode_step);
        let w = mode_step(v, params[i], set, private);
        assert(w.rows == v.rows && w.cols == v.cols);
        lemma_modes_keep_size(w, params, set, private, i + 1);
    }
}

/// A CSI sequence keeps the screen's size.
pub proof fn lemma_csi_keeps_size(v: ScreenView, params: Seq<i64>, intermediates: Seq<u8>, f: u8)
    ensures
        csi_effect(v, params, intermediates, f).rows == v.rows,
        csi_effect(v, params, intermediates, f).cols == v.cols,
{
    reveal(csi_effect);
    reveal(csi_motion);
    reveal(csi_edit);
    reveal(csi_settings);
    reveal(erase_display);
    reveal(erase_line);
    let n1 = param_or(params, 0, 1) as usize;
    let nmin = if n1 >= 1 { n1 } else { 1usize };
    lemma_scrolls_keep_size(v, nmin as nat);
    lemma_scrolls_keep_size(v, min_int(nmin as int, region_count(v.scroll_top, v.scroll_bottom)) as nat);
    lemma_erased_rows_keep_size(erased_in_row(v, v.cursor_y as int, v.cursor_x, v.cols, false), v.cursor_y + 1, v.rows as int, false);
    lemma_erased_rows_keep_size(v, 0, v.cursor_y as int, false);
    lemma_erased_rows_keep_size(v, 0, v.rows as int, true);
    lemma_modes_keep_size(v, params, f == 0x68, intermediates.contains(0x3fu8), 0);
}

/// The screen after a run of CSI sequences (parameters, intermediates,
/// final byte), each carried out as `csi_dispatch` does.
pub open spec fn csi_run(v: ScreenView, calls: Seq<(Seq<i64>, Seq<u8>, u8)>) -> ScreenView
    decreases calls.len(),
{
    if calls.len() == 0 {
        v
    } else {
        csi_run(csi_effect(after_flush_cr(v), calls[0].0, calls[0].1, calls[0].2), calls.drop_first())
    }
}

/// Any run of CSI sequences keeps the screen's size.
pub proof fn lemma_csi_run_keeps_size(v: ScreenView, calls: Seq<(Seq<i64>, Seq<u8>, u8)>)
    ensures
        csi_run(v, calls).rows == v.rows,
        csi_run(v, calls).cols == v.cols,
    decreases calls.len(),
{
    if calls.len() > 0 {
        let w = after_flush_cr(v);
        lemma_csi_keeps_size(w, calls[0].0, calls[0].1, calls[0].2);
        lemma_csi_run_keeps_size(csi_effect(w, calls[0].0, calls[0].1, calls[0].2), calls.drop_first());
    }
}

/// `w` keeps `v`'s saved main screen and scrollback.
pub open spec fn keeps_main(v: ScreenView, w: ScreenView) -> bool {
    w.saved_main == v.saved_main && w.scrollback == v.scrollback
}

proof fn lemma_scrolls_keep_main(v: ScreenView, n: nat)
    requires
        v.saved_main is Some,
    ensures
        keeps_main(v, scrolled_up(v, n)),
        keeps_main(v, scrolled_down(v, n)),
        keeps_main(v, inserted_lines(v, n)),
        keeps_main(v, deleted_lines(v, n)),
    decreases n,
{
    if n > 0 {
        lemma_scrolls_keep_main(v, (n - 1) as nat);
    }
}

proof fn lemma_erased_rows_keep_main(v: ScreenView, from: int, to: int, d: bool)
    ensures
        keeps_main(v, erased_rows(v, from, to, d)),
    decreases to - from,
{
    if from < to {
        lemma_erased_rows_keep_main(erased_in_row(v, from, 0, v.cols, d), from + 1, to, d);
    }
}

/// Whether a mode parameter switches between the main and the alternate screen.
pub open spec fn switches_screen(p: i64) -> bool {
    p == 47 || p == 1047 || p == 1049
}

proof fn lemma_modes_keep_main(v: ScreenView, params: Seq<i64>, set: bool, private: bool, i: int)
    requires
        forall|k: int| 0 <= k < params.len() ==> !switches_screen(#[trigger] params[k]),
    ensures
        keeps_main(v, modes_from(v, params, set, private, i)),
    decreases params.len() - i,
{
    if 0 <= i < params.len() {
        reveal(mode_step);
        assert(!switches_screen(params[i]));
        let w = mode_step(v, params[i], set, private);
        lemma_modes_keep_main(w, params, set, private, i + 1);
    }
}

/// None of the mode parameters switches between the screens.
pub open spec fn no_switch(p: Seq<i64>) -> bool {
    forall|k: int| 0 <= k < p.len() ==> !switches_screen(#[trigger] p[k])
}

/// Whether a handler call leaves the screen in use as it is: any call but
/// a switch between the screens (modes 47, 1047, 1049) and a full reset.
pub open spec fn stays_on_screen(a: ActionView) -> bool {
    match a {
        ActionView::Csi(p, _, f) => !(f == 0x68 || f == 0x6c) || no_switch(p),
        ActionView::Esc(i, f) => !(f == 0x63 && !is_designation(i)),
        _ => true,
    }
}

proof fn lemma_newline_keeps_main(w: ScreenView, wr: bool)
    requires
        w.saved_main is Some,
    ensures
        keeps_main(w, after_newline(w, wr)),
        keeps_main(w, apply_pending_wrap(w)),
        keeps_main(w, fit_glyph(w, 1).0),
        keeps_main(w, fit_glyph(w, 2).0),
{
    lemma_scrolls_keep_main(w, min_int(1, region_count(w.scroll_top, w.scroll_bottom)) as nat);
    lemma_scrolls_keep_main(w, 1);
    lemma_scrolls_keep_main(w, 0);
}

proof fn lemma_glyph_keeps_main(u: ScreenView, ch: char, wd: usize)
    requires
        u.saved_main is Some,
        1 <= wd <= 2,
    ensures
        keeps_main(u, printed_glyph(u, ch, wd)),
{
    reveal(printed_glyph);
    lemma_newline_keeps_main(u, true);
    let a2 = apply_pending_wrap(u);
    lemma_newline_keeps_main(a2, true);
    let f = fit_glyph(a2, wd);
    assert(keeps_main(u, f.0));
    assert(keeps_main(u, painted_space(a2)));
    assert(keeps_main(u, placed_glyph(f.0, ch, wd)));
}

proof fn lemma_alt_print_keeps_main(v: ScreenView, c: char)
    requires
        v.saved_main is Some,
    ensures
        keeps_main(v, after_print(v, c)),
        keeps_main(v, screen_handled(v, ActionView::Print(c))),
{
    reveal(after_print);
    reveal(after_put_char);
    let v1 = after_flush_cr(v);
    assert(keeps_main(v, v1));
    let v2 = ScreenView {
        shell: ShellState {
            suppress_extra_crlf_newline: false,
            in_zsh_line_pad: if v1.shell.in_zsh_line_pad && c != ' ' { false } else { v1.shell.in_zsh_line_pad },
            ..v1.shell
        },
        ..v1
    };
    let ch = translated(v2.modes, c);
    let wd = display_width(ch);
    if !(wd == 0 || v2.cols == 0 || v2.rows == 0) {
        let u = if ch == '%' && v2.cursor_x == 0 {
            ScreenView { shell: ShellState { in_zsh_line_pad: true, ..v2.shell }, ..v2 }
        } else {
            v2
        };
        assert(1 <= wd <= 2);
        lemma_glyph_keeps_main(u, ch, wd);
    }
    assert(after_print(v, c) == after_put_char(v2, ch));
}

proof fn lemma_alt_execute_keeps_main(v: ScreenView, b: u8)
    requires
        v.saved_main is Some,
    ensures
        keeps_main(v, after_execute(v, b)),
{
    reveal(after_execute);
    reveal(after_edit_control);
    reveal(after_line_control);
    reveal(after_lf);
    let w = ScreenView { pending_wrap: false, shell: ShellState { pending_cr: false, ..v.shell }, ..v };
    lemma_newline_keeps_main(w, false);
    assert(keeps_main(v, after_flush_cr(v)));
}

proof fn lemma_motion_keeps_main(v: ScreenView, p: Seq<i64>, f: u8)
    ensures
        keeps_main(v, csi_motion(v, p, f)),
{
    reveal(csi_motion);
}

#[verifier::rlimit(30)]
proof fn lemma_alt_esc_keeps_main(v: ScreenView, i: Seq<u8>, f: u8)
    requires
        v.saved_main is Some,
        !(f == 0x63 && !is_designation(i)),
    ensures
        keeps_main(v, esc_effect(v, i, f)),
{
    if i.len() == 1 && i[0] == 0x4f && 0x41 <= f <= 0x44 {
        let w = after_flush_cr(v);
        assert(esc_effect(v, i, f) == csi_effect(w, seq![1i64], seq![], f)) by {
            reveal(esc_effect);
        }
        assert(keeps_main(v, w));
        lemma_motion_keeps_main(w, seq![1i64], f);
        assert(csi_effect(w, seq![1i64], seq![], f) == csi_motion(w, seq![1i64], f)) by {
            reveal(csi_effect);
        }
    } else if is_designation(i) {
        assert(esc_effect(v, i, f) == with_modes(v, designated_modes(v.modes, f, i[0] == 0x29))) by {
            reveal(esc_effect);
        }
    } else if f == 0x44 || f == 0x45 {
        let u = if f == 0x44 { v } else { ScreenView { cursor_x: 0, ..v } };
        assert(esc_effect(v, i, f) == after_index(u)) by {
            reveal(esc_effect);
        }
        reveal(after_index);
        let v0 = ScreenView { shell: ShellState { pending_cr: false, ..u.shell }, ..u };
        lemma_newline_keeps_main(v0, false);
    } else if f == 0x4d {
        let n = min_int(1, region_count(v.scroll_top, v.scroll_bottom)) as nat;
        lemma_scrolls_keep_main(v, n);
        let r = if v.cursor_y == v.scroll_top {
            scrolled_down(v, n)
        } else {
            ScreenView { cursor_y: sat_sub(v.cursor_y as int, 1) as usize, ..v }
        };
        assert(esc_effect(v, i, f) == r) by {
            reveal(esc_effect);
        }
    } else if f == 0x48 {
        let r = if v.cursor_x < v.cols { ScreenView { tab_stops: v.tab_stops.update(v.cursor_x as int, true), ..v } } else { v };
        assert(esc_effect(v, i, f) == r) by {
            reveal(esc_effect);
        }
    } else if f == 0x37 {
        assert(esc_effect(v, i, f) == ScreenView { saved_cursor_x: v.cursor_x, saved_cursor_y: v.cursor_y, ..v }) by {
            reveal(esc_effect);
        }
    } else if f == 0x38 {
        assert(esc_effect(v, i, f) == with_cursor(v, min_int(v.saved_cursor_x as int, last_index(v.cols) as int) as usize,
            min_int(v.saved_cursor_y as int, last_index(v.rows) as int) as usize)) by {
            reveal(esc_effect);
        }
    } else if f == 0x3d || f == 0x3e {
        assert(esc_effect(v, i, f) == with_modes(v, Modes { app_keypad: f == 0x3d, ..v.modes })) by {
            reveal(esc_effect);
        }
    } else {
        assert(esc_effect(v, i, f) == v) by {
            reveal(esc_effect);
        }
    }
}

#[verifier::rlimit(40)]
proof fn lemma_alt_edit_keeps_main(v: ScreenView, p: Seq<i64>, f: u8)
    requires
        v.saved_main is Some,
    ensures
        keeps_main(v, csi_edit(v, p, f)),
{
    reveal(csi_edit);
    let n1 = param_or(p, 0, 1) as usize;
    let nmin = if n1 >= 1 { n1 } else { 1usize };
    if f == 0x4a {
        reveal(erase_display);
        lemma_erased_rows_keep_main(erased_in_row(v, v.cursor_y as int, v.cursor_x, v.cols, false), v.cursor_y + 1, v.rows as int, false);
        lemma_erased_rows_keep_main(v, 0, v.cursor_y as int, false);
        lemma_erased_rows_keep_main(v, 0, v.rows as int, true);
    } else if f == 0x4b {
        reveal(erase_line);
    } else if f == 0x4c || f == 0x4d {
        lemma_scrolls_keep_main(v, nmin as nat);
    } else if f == 0x53 || f == 0x54 {
        lemma_scrolls_keep_main(v, min_int(nmin as int, region_count(v.scroll_top, v.scroll_bottom)) as nat);
    }
}

#[verifier::rlimit(40)]
proof fn lemma_alt_settings_keeps_main(v: ScreenView, p: Seq<i64>, i: Seq<u8>, f: u8)
    requires
        v.saved_main is Some,
        stays_on_screen(ActionView::Csi(p, i, f)),
    ensures
        keeps_main(v, csi_settings(v, p, i, f)),
{
    reveal(csi_settings);
    if f == 0x68 || f == 0x6c {
        lemma_modes_keep_main(v, p, f == 0x68, i.contains(0x3fu8), 0);
    }
}

proof fn lemma_alt_csi_keeps_main(v: ScreenView, p: Seq<i64>, i: Seq<u8>, f: u8)
    requires
        v.saved_main is Some,
        stays_on_screen(ActionView::Csi(p, i, f)),
    ensures
        keeps_main(v, csi_effect(v, p, i, f)),
{
    reveal(csi_effect);
    if is_motion_final(f) {
        lemma_motion_keeps_main(v, p, f);
    } else if is_edit_final(f) {
        lemma_alt_edit_keeps_main(v, p, f);
    } else {
        lemma_alt_settings_keeps_main(v, p, i, f);
    }
}

/// On the alternate screen, a call that stays on it leaves the saved main
/// screen and the scrollback as they were.
pub proof fn lemma_alt_call_keeps_main(v: ScreenView, a: ActionView)
    requires
        v.saved_main is Some,
        stays_on_screen(a),
    ensures
        keeps_main(v, screen_handled(v, a)),
{
    let w = after_flush_cr(v);
    assert(keeps_main(v, w));
    match a {
        ActionView::Print(c) => {
            lemma_alt_print_keeps_main(v, c);
        },
        ActionView::Execute(b) => {
            lemma_alt_execute_keeps_main(v, b);
        },
        ActionView::Esc(i, f) => {
            lemma_alt_esc_keeps_main(w, i, f);
        },
        ActionView::Csi(p, i, f) => {
            lemma_alt_csi_keeps_main(w, p, i, f);
        },
        _ => {},
    }
}

/// While the alternate screen is shown, calls that stay on it never touch
/// the saved main screen or the scrollback.
pub proof fn lemma_alt_calls_keep_main(v: ScreenView, acts: Seq<ActionView>)
    requires
        v.saved_main is Some,
        forall|k: int| 0 <= k < acts.len() ==> stays_on_screen(#[trigger] acts[k]),
    ensures
        keeps_main(v, handled_all::<Screen>(v, acts)),
    decreases acts.len(),
{
    if acts.len() > 0 {
        let init = acts.drop_last();
        assert forall|k: int| 0 <= k < init.len() implies stays_on_screen(#[trigger] init[k]) by {
            assert(init[k] == acts[k]);
        }
        lemma_alt_calls_keep_main(v, init);
        let w = handled_all::<Screen>(v, init);
        assert(stays_on_screen(acts[acts.len() - 1]));
        lemma_alt_call_keeps_main(w, acts.last());
    }
}

/// Output on the alternate screen never reaches the main screen: entering
/// it with mode 1049 (with no carriage return pending), running any calls
/// that stay on it, and leaving it with mode 1049 gives back the main
/// screen's rows, its cursor and its scrollback as they were.
pub proof fn lemma_alt_screen_round_trip(v: ScreenView, acts: Seq<ActionView>)
    requires
        v.saved_main is None,
        !v.shell.pending_cr,
        forall|k: int| 0 <= k < acts.len() ==> stays_on_screen(#[trigger] acts[k]),
    ensures
        ({
            let w0 = screen_handled(v, ActionView::Csi(seq![1049i64], seq![0x3fu8], 0x68));
            let w1 = handled_all::<Screen>(w0, acts);
            let w2 = screen_handled(w1, ActionView::Csi(seq![1049i64], seq![0x3fu8], 0x6c));
            &&& w2.saved_main is None
            &&& w2.cells == v.cells
            &&& w2.wrapped == v.wrapped
            &&& w2.cursor_x == v.cursor_x
            &&& w2.cursor_y == v.cursor_y
            &&& w2.scrollback == v.scrollback
        }),
{
    reveal(csi_effect);
    reveal(csi_settings);
    reveal(mode_step);
    let p = seq![1049i64];
    let q = seq![0x3fu8];
    assert(q.contains(0x3fu8)) by {
        assert(q[0] == 0x3fu8);
    }
    assert(after_flush_cr(v) == v);
    let w0 = screen_handled(v, ActionView::Csi(p, q, 0x68));
    assert(p[0] == 1049i64);
    let e = mode_step(v, 1049, true, true);
    assert(modes_from(e, p, true, true, 1) == e);
    assert(modes_from(v, p, true, true, 0) == e);
    assert(w0 == after_enter_alt(v, true));
    assert(w0.saved_main == Some(main_of(v)));
    lemma_alt_calls_keep_main(w0, acts);
    let w1 = handled_all::<Screen>(w0, acts);
    let u = after_flush_cr(w1);
    assert(keeps_main(w1, u));
    let l = mode_step(u, 1049, false, true);
    assert(modes_from(l, p, false, true, 1) == l);
    assert(modes_from(u, p, false, true, 0) == l);
    let w2 = screen_handled(w1, ActionView::Csi(p, q, 0x6c));
    assert(w2 == after_leave_alt(u, true));
}

/// Resizing the main screen keeps its content, stated of `resized` itself:
/// the new scrollback is the old one (without the line the screen's first
/// row continues) followed by the reflowed rows that no longer fit, the new
/// screen shows the reflowed rows after them, and pushing those on-screen
/// rows too gives back exactly the old scrollback's lines followed by the
/// old screen's logical lines. (Here nothing is dropped for the scrollback
/// limit.)
pub proof fn lemma_resize_keeps_all(v: ScreenView, rows: usize, cols: usize)
    requires
        model_ok(v),
        v.saved_main is None,
        rows >= 1,
        cols >= 1,
        rows != v.rows || cols != v.cols,
        ({
            let pre = joined_prefix(v.wrapped, v.scrollback);
            let base = if pre is Some { v.scrollback.drop_last() } else { v.scrollback };
            let segs = reflow_segs(v.cells, v.wrapped, pre, cols as nat);
            let vs = crate::terminal::reflow::visible_start(segs.len() as int, rows as nat);
            pushed_scrollback(base, reflow_lines(v.cells, v.wrapped, pre), reflow_owner(v.cells, v.wrapped, pre, cols as nat), segs, vs).len()
                <= v.scrollback_limit
        }),
    ensures
        ({
            let w = resized(v, rows, cols);
            let pre = joined_prefix(v.wrapped, v.scrollback);
            let base = if pre is Some { v.scrollback.drop_last() } else { v.scrollback };
            let ls = reflow_lines(v.cells, v.wrapped, pre);
            let segs = reflow_segs(v.cells, v.wrapped, pre, cols as nat);
            let owner = reflow_owner(v.cells, v.wrapped, pre, cols as nat);
            let vs = crate::terminal::reflow::visible_start(segs.len() as int, rows as nat);
            &&& w.rows == rows && w.cols == cols
            &&& w.scrollback == pushed_scrollback(base, ls, owner, segs, vs)
            &&& forall|r: int| 0 <= r < rows ==> #[trigger] w.cells[r] == (if vs + r < segs.len() { segs[vs + r].row } else { blank_row(cols as nat) })
            &&& pushed_scrollback(base, ls, owner, segs, segs.len() as int) == base + ls
        }),
{
    lemma_model_elim(v);
    crate::terminal::reflow::lemma_resize_keeps_content(v.cells, v.wrapped, v.scrollback, cols as nat);
}

/// SGR `38;2;r;g;b` sets the foreground, and `48;2;r;g;b` the background,
/// to the 24-bit colour whose red, green and blue are the parameters in
/// that order; the other attributes stay as they were.
pub proof fn lemma_sgr_truecolor(v: ScreenView, r: i64, g: i64, b: i64)
    requires
        0 <= r <= 255,
        0 <= g <= 255,
        0 <= b <= 255,
    ensures
        screen_handled(v, ActionView::Csi(seq![38i64, 2, r, g, b], seq![], 0x6d)).current_attrs
            == (Cell { fg: Color::Rgb(r as u8, g as u8, b as u8), ..v.current_attrs }),
        screen_handled(v, ActionView::Csi(seq![48i64, 2, r, g, b], seq![], 0x6d)).current_attrs
            == (Cell { bg: Color::Rgb(r as u8, g as u8, b as u8), ..v.current_attrs }),
{
    reveal(csi_effect);
    reveal(csi_settings);
    let w = after_flush_cr(v);
    assert(w.current_attrs == v.current_attrs);
    let pf = seq![38i64, 2, r, g, b];
    let pb = seq![48i64, 2, r, g, b];
    let st = sgr_step(w.current_attrs, w.shell.postdisplay_leading_space, w.default_attrs, pf, 0);
    assert(st.2 == 5);
    assert(sgr_from(st.0, st.1, w.default_attrs, pf, 5) == (st.0, st.1));
    let sb = sgr_step(w.current_attrs, w.shell.postdisplay_leading_space, w.default_attrs, pb, 0);
    assert(sb.2 == 5);
    assert(sgr_from(sb.0, sb.1, w.default_attrs, pb, 5) == (sb.0, sb.1));
}

/// Erasing rows `from..to` blanks every column of those rows with the chosen
/// attributes and leaves all else as it was (but the soft-wrap flags).
proof fn lemma_erased_rows_cells(v: ScreenView, from: int, to: int, d: bool)
    requires
        0 <= from,
        to <= v.cells.len(),
    ensures
        ({
            let w = erased_rows(v, from, to, d);
            let blank = erased(if d { v.default_attrs } else { v.current_attrs });
            &&& w == ScreenView { cells: w.cells, wrapped: w.wrapped, ..v }
            &&& w.cells.len() == v.cells.len()
            &&& forall|y: int| 0 <= y < v.cells.len() ==> #[trigger] w.cells[y] == (if from <= y < to {
                fill_span(v.cells[y], 0, v.cols as int, v.cols as int, blank)
            } else {
                v.cells[y]
            })
        }),
    decreases to - from,
{
    if from < to {
        let v1 = erased_in_row(v, from, 0, v.cols, d);
        lemma_erased_rows_cells(v1, from + 1, to, d);
    }
}

/// ED 0 (erase below): from the cursor (after any deferred carriage return)
/// to the end of its row, and every row below it, become spaces in the
/// current attributes; the rows above and the cells left of the cursor stay,
/// and the cursor does not move.
pub proof fn lemma_erase_below(v: ScreenView, p: Seq<i64>, i: Seq<u8>)
    requires
        model_ok(v),
        v.rows >= 1,
        param_or(p, 0, 0) == 0,
    ensures
        ({
            let u = after_flush_cr(v);
            let w = screen_handled(v, ActionView::Csi(p, i, 0x4a));
            let y0 = v.cursor_y as int;
            &&& w.cursor_x == u.cursor_x && w.cursor_y == v.cursor_y
            &&& w.rows == v.rows && w.cols == v.cols
            &&& w.cells.len() == v.cells.len()
            &&& forall|y: int, x: int| y0 < y < v.rows && 0 <= x < v.cols ==> #[trigger] w.cells[y][x]
                == erased(v.current_attrs)
            &&& forall|x: int| u.cursor_x <= x < v.cols ==> #[trigger] w.cells[y0][x] == erased(v.current_attrs)
            &&& forall|x: int| 0 <= x < u.cursor_x ==> #[trigger] w.cells[y0][x] == u.cells[y0][x]
            &&& forall|y: int| 0 <= y < y0 ==> #[trigger] w.cells[y] == v.cells[y]
        }),
{
    reveal(csi_effect);
    reveal(csi_edit);
    reveal(erase_display);
    lemma_model_elim(v);
    reveal(grid_ok);
    let u = after_flush_cr(v);
    let y0 = v.cursor_y as int;
    assert(u.cells.len() == v.cells.len());
    assert(forall|y: int| 0 <= y < v.cells.len() && y != y0 ==> #[trigger] u.cells[y] == v.cells[y]);
    assert(u.cells[y0].len() == v.cols);
    assert(u.current_attrs == v.current_attrs && u.cursor_y == v.cursor_y && u.cols == v.cols);
    let e1 = erased_in_row(u, y0, u.cursor_x, u.cols, false);
    lemma_erased_rows_cells(e1, y0 + 1, v.rows as int, false);
    let w = erased_rows(e1, y0 + 1, v.rows as int, false);
    assert(erase_display(u, param_or(p, 0, 0)) == w);
    assert(screen_handled(v, ActionView::Csi(p, i, 0x4a)) == w);
    assert forall|y: int, x: int| y0 < y < v.rows && 0 <= x < v.cols implies #[trigger] w.cells[y][x]
        == erased(v.current_attrs) by {
        assert(w.cells[y] == fill_span(e1.cells[y], 0, v.cols as int, v.cols as int, erased(v.current_attrs)));
        assert(e1.cells[y] == v.cells[y]);
    }
    assert(w.cells[y0] == e1.cells[y0]);
}

/// ED 1 (erase above) blanks every row above the cursor and its own row up to
/// and including the cursor's cell in the current attributes; ED 2 and 3
/// blank the whole screen in the default attributes. Neither moves the
/// cursor; ED 1 leaves the rows below the cursor as they were.
pub proof fn lemma_erase_above_and_all(v: ScreenView, p: Seq<i64>, i: Seq<u8>)
    requires
        model_ok(v),
        v.rows >= 1,
    ensures
        ({
            let u = after_flush_cr(v);
            let w = screen_handled(v, ActionView::Csi(p, i, 0x4a));
            let m = param_or(p, 0, 0);
            let y0 = v.cursor_y as int;
            &&& w.cursor_x == u.cursor_x && w.cursor_y == v.cursor_y
            &&& w.cells.len() == v.cells.len()
            &&& m == 1 ==> {
                &&& forall|y: int, x: int| 0 <= y < y0 && 0 <= x < v.cols ==> #[trigger] w.cells[y][x]
                    == erased(v.current_attrs)
                &&& forall|x: int| 0 <= x < v.cols ==> #[trigger] w.cells[y0][x] == (if x <= u.cursor_x {
                    erased(v.current_attrs)
                } else {
                    u.cells[y0][x]
                })
                &&& forall|y: int| y0 < y < v.rows ==> #[trigger] w.cells[y] == v.cells[y]
            }
            &&& (m == 2 || m == 3) ==> forall|y: int, x: int| 0 <= y < v.rows && 0 <= x < v.cols
                ==> #[trigger] w.cells[y][x] == erased(v.default_attrs)
        }),
{
    reveal(csi_effect);
    reveal(csi_edit);
    reveal(erase_display);
    lemma_model_elim(v);
    reveal(grid_ok);
    let u = after_flush_cr(v);
    let y0 = v.cursor_y as int;
    let m = param_or(p, 0, 0);
    assert(u.cells.len() == v.cells.len());
    assert(forall|y: int| 0 <= y < v.cells.len() && y != y0 ==> #[trigger] u.cells[y] == v.cells[y]);
    assert(u.cells[y0].len() == v.cols);
    assert(u.current_attrs == v.current_attrs && u.default_attrs == v.default_attrs);
    assert(u.cursor_y == v.cursor_y && u.cols == v.cols && u.rows == v.rows);
    if m == 1 {
        lemma_erased_rows_cells(u, 0, y0, false);
        let e1 = erased_rows(u, 0, y0, false);
        let w = erased_in_row(e1, y0, 0, min_int(u.cursor_x + 1, usize::MAX as int) as usize, false);
        assert(erase_display(u, m) == w);
        assert(screen_handled(v, ActionView::Csi(p, i, 0x4a)) == w);
        assert(e1.cells[y0] == u.cells[y0]);
        assert forall|y: int, x: int| 0 <= y < y0 && 0 <= x < v.cols implies #[trigger] w.cells[y][x]
            == erased(v.current_attrs) by {
            assert(w.cells[y] == e1.cells[y]);
            assert(e1.cells[y] == fill_span(u.cells[y], 0, v.cols as int, v.cols as int, erased(v.current_attrs)));
        }
        assert forall|y: int| y0 < y < v.rows implies #[trigger] w.cells[y] == v.cells[y] by {
            assert(w.cells[y] == e1.cells[y]);
        }
    } else if m == 2 || m == 3 {
        lemma_erased_rows_cells(u, 0, v.rows as int, true);
        let w = erased_rows(u, 0, v.rows as int, true);
        assert(erase_display(u, m) == w);
        assert(screen_handled(v, ActionView::Csi(p, i, 0x4a)) == w);
        assert forall|y: int, x: int| 0 <= y < v.rows && 0 <= x < v.cols implies #[trigger] w.cells[y][x]
            == erased(v.default_attrs) by {
            assert(w.cells[y] == fill_span(u.cells[y], 0, v.cols as int, v.cols as int, erased(v.default_attrs)));
            assert(u.cells[y].len() == v.cols);
        }
    } else if m == 0 {
        lemma_erase_below(v, p, i);
    } else {
        assert(erase_display(u, m) == u);
    }
}

/// EL erases within the cursor's row only: mode 0 from the cursor to the
/// end, mode 1 from the start through the cursor's cell, mode 2 the whole
/// row, in the current attributes. Other rows and the cursor stay.
pub proof fn lemma_erase_line(v: ScreenView, p: Seq<i64>, i: Seq<u8>)
    requires
        model_ok(v),
        v.rows >= 1,
    ensures
        ({
            let u = after_flush_cr(v);
            let w = screen_handled(v, ActionView::Csi(p, i, 0x4b));
            let m = param_or(p, 0, 0);
            let y0 = v.cursor_y as int;
            &&& w.cursor_x == u.cursor_x && w.cursor_y == v.cursor_y
            &&& w.cells.len() == v.cells.len()
            &&& forall|y: int| 0 <= y < v.rows && y != y0 ==> #[trigger] w.cells[y] == v.cells[y]
            &&& forall|x: int| 0 <= x < v.cols ==> #[trigger] w.cells[y0][x] == (if (m == 0 && u.cursor_x <= x) || (
            m == 1 && x <= u.cursor_x) || m == 2 {
                erased(v.current_attrs)
            } else {
                u.cells[y0][x]
            })
        }),
{
    reveal(csi_effect);
    reveal(csi_edit);
    reveal(erase_line);
    lemma_model_elim(v);
    reveal(grid_ok);
    let u = after_flush_cr(v);
    let y0 = v.cursor_y as int;
    assert(u.cells.len() == v.cells.len());
    assert(forall|y: int| 0 <= y < v.cells.len() && y != y0 ==> #[trigger] u.cells[y] == v.cells[y]);
    assert(u.cells[y0].len() == v.cols);
    assert(u.current_attrs == v.current_attrs && u.cursor_y == v.cursor_y && u.cols == v.cols);
}

/// CUP / HVP `r;c` (1-based) puts the cursor on row `r` and column `c`,
/// clamped to the screen (outside origin mode); only a landing on the second
/// half of a wide character moves it one column on. The cells stay.
pub proof fn lemma_cursor_position(v: ScreenView, r: i64, c: i64, i: Seq<u8>, f: u8)
    requires
        model_ok(v),
        v.rows >= 1,
        v.cols >= 1,
        !v.origin_mode,
        f == 0x48 || f == 0x66,
        1 <= r <= usize::MAX,
        1 <= c <= usize::MAX,
    ensures
        ({
            let u = after_flush_cr(v);
            let w = screen_handled(v, ActionView::Csi(seq![r, c], i, f));
            let y = min_int(r - 1, v.rows - 1);
            let x = min_int(c - 1, v.cols - 1);
            &&& w.cursor_y == y
            &&& !u.cells[y][x].wide_continuation ==> w.cursor_x == x
            &&& u.cells[y][x].wide_continuation ==> w.cursor_x == min_int(x + 1, v.cols - 1)
            &&& !w.pending_wrap
            &&& w.cells == u.cells
        }),
{
    reveal(csi_effect);
    reveal(csi_motion);
    lemma_model_elim(v);
    let p = seq![r, c];
    assert(param_or(p, 0, 1) == r);
    assert(param_or(p, 1, 1) == c);
}

/// CUU, CUD, CNL, CPL and CHA with a count `n` move the cursor within the
/// screen, stopping at its edges: up or down `n` rows (CNL and CPL also to
/// column 0), or to column `n` (1-based). The cells stay.
pub proof fn lemma_cursor_moves(v: ScreenView, p: Seq<i64>, i: Seq<u8>, f: u8)
    requires
        model_ok(v),
        v.rows >= 1,
        v.cols >= 1,
        1 <= param_or(p, 0, 1) <= usize::MAX,
        0x41 <= f <= 0x42 || 0x45 <= f <= 0x47,
    ensures
        ({
            let u = after_flush_cr(v);
            let w = screen_handled(v, ActionView::Csi(p, i, f));
            let n = param_or(p, 0, 1) as int;
            let up = if v.cursor_y >= n { v.cursor_y - n } else { 0 };
            let down = min_int(v.cursor_y + n, v.rows - 1);
            &&& w.cells == u.cells
            &&& !w.pending_wrap
            &&& f == 0x41 ==> w.cursor_y == up && w.cursor_x == u.cursor_x
            &&& f == 0x42 ==> w.cursor_y == down && w.cursor_x == u.cursor_x
            &&& f == 0x45 ==> w.cursor_y == down && w.cursor_x == 0
            &&& f == 0x46 ==> w.cursor_y == up && w.cursor_x == 0
            &&& f == 0x47 ==> w.cursor_y == v.cursor_y && w.cursor_x == min_int(n - 1, v.cols - 1)
        }),
{
    reveal(csi_effect);
    reveal(csi_motion);
    lemma_model_elim(v);
    let u = after_flush_cr(v);
    assert(u.cursor_y == v.cursor_y && u.rows == v.rows && u.cols == v.cols);
    assert((param_or(p, 0, 1) as usize) as int == param_or(p, 0, 1));
}

/// One SGR parameter: 0 (or none at all) restores the default rendition;
/// 30-37 and 90-97 pick the foreground from the 16 basic colours, 40-47 and
/// 100-107 the background; 39 and 49 return to the default colour; 1, 3,
/// 4, 7 turn bold, italic, underline and reverse on, 22, 23, 24, 27 off.
/// Everything else about the rendition stays.
pub proof fn lemma_sgr_single(v: ScreenView, p: i64)
    ensures
        screen_handled(v, ActionView::Csi(seq![], seq![], 0x6d)).current_attrs == v.default_attrs,
        sgr_single_effect(v.current_attrs, v.default_attrs, p,
            screen_handled(v, ActionView::Csi(seq![p], seq![], 0x6d)).current_attrs),
{
    let u = after_flush_cr(v);
    assert(u.current_attrs == v.current_attrs && u.default_attrs == v.default_attrs);
    let ps = seq![p];
    assert(screen_handled(v, ActionView::Csi(seq![], seq![], 0x6d)) == after_sgr(u, seq![])) by {
        reveal(csi_effect);
        reveal(csi_settings);
    }
    assert(screen_handled(v, ActionView::Csi(ps, seq![], 0x6d)) == after_sgr(u, ps)) by {
        reveal(csi_effect);
        reveal(csi_settings);
    }
    lemma_sgr_from_single(u.current_attrs, u.shell.postdisplay_leading_space, u.default_attrs, p);
    lemma_sgr_step_single(u.current_attrs, u.shell.postdisplay_leading_space, u.default_attrs, p);
}

proof fn lemma_sgr_from_single(a: Cell, pd: bool, d: Cell, p: i64)
    ensures
        sgr_from(a, pd, d, seq![p], 0).0 == sgr_step(a, pd, d, seq![p], 0).0,
{
    let ps = seq![p];
    let st = sgr_step(a, pd, d, ps, 0);
    assert(st.2 == 1);
    assert(sgr_from(st.0, st.1, d, ps, 1) == (st.0, st.1));
}

/// What one SGR parameter `p` makes of the rendition `a` (default `d`), for
/// the parameters whose meaning is fixed.
pub open spec fn sgr_single_effect(a: Cell, d: Cell, p: i64, w: Cell) -> bool {
    &&& p == 0 ==> w == d
    &&& 30 <= p <= 37 ==> w == (Cell { fg: Color::Indexed((p - 30) as u8), ..a })
    &&& 90 <= p <= 97 ==> w == (Cell { fg: Color::Indexed((p - 82) as u8), ..a })
    &&& 40 <= p <= 47 ==> w == (Cell { bg: Color::Indexed((p - 40) as u8), ..a })
    &&& 100 <= p <= 107 ==> w == (Cell { bg: Color::Indexed((p - 92) as u8), ..a })
    &&& p == 39 ==> w == (Cell { fg: Color::Default, ..a })
    &&& p == 49 ==> w == (Cell { bg: Color::Default, ..a })
    &&& p == 1 ==> w == (Cell { bold: true, ..a })
    &&& p == 3 ==> w == (Cell { italic: true, ..a })
    &&& p == 4 ==> w == (Cell { underline: true, ..a })
    &&& p == 7 ==> w == (Cell { reverse: true, ..a })
    &&& p == 22 ==> w == (Cell { bold: false, dim: false, ..a })
    &&& p == 23 ==> w == (Cell { italic: false, ..a })
    &&& p == 24 ==> w == (Cell { underline: false, ..a })
    &&& p == 27 ==> w == (Cell { reverse: false, ..a })
}

proof fn lemma_sgr_step_single(a: Cell, pd: bool, d: Cell, p: i64)
    ensures
        sgr_single_effect(a, d, p, sgr_step(a, pd, d, seq![p], 0).0),
{
    let ps = seq![p];
    assert(ps[0] == p);
    if p < 30 {
        assert(sgr_step(a, pd, d, ps, 0).0 == sgr_attr_step(a, pd, d, p).0);
    } else {
        assert(sgr_step(a, pd, d, ps, 0) == sgr_color_step(a, pd, ps, 0));
    }
}

/// `38;5;n` and `48;5;n` pick the foreground or background from the
/// 256-colour palette; the rest of the rendition stays.
pub proof fn lemma_sgr_palette(v: ScreenView, n: i64)
    requires
        0 <= n <= 255,
    ensures
        screen_handled(v, ActionView::Csi(seq![38i64, 5, n], seq![], 0x6d)).current_attrs
            == (Cell { fg: Color::Indexed(n as u8), ..v.current_attrs }),
        screen_handled(v, ActionView::Csi(seq![48i64, 5, n], seq![], 0x6d)).current_attrs
            == (Cell { bg: Color::Indexed(n as u8), ..v.current_attrs }),
{
    reveal(csi_effect);
    reveal(csi_settings);
    let u = after_flush_cr(v);
    assert(u.current_attrs == v.current_attrs && u.default_attrs == v.default_attrs);
    let pf = seq![38i64, 5, n];
    let sf = sgr_step(u.current_attrs, u.shell.postdisplay_leading_space, u.default_attrs, pf, 0);
    assert(sf.2 == 3);
    assert(sgr_from(sf.0, sf.1, u.default_attrs, pf, 3) == (sf.0, sf.1));
    let pb = seq![48i64, 5, n];
    let sb = sgr_step(u.current_attrs, u.shell.postdisplay_leading_space, u.default_attrs, pb, 0);
    assert(sb.2 == 3);
    assert(sgr_from(sb.0, sb.1, u.default_attrs, pb, 3) == (sb.0, sb.1));
}

/// Deleting `n` cells at `x` shifts the rest of the row `n` to the left and
/// fills its end with blanks; the cells before `x` stay.
pub proof fn lemma_deleted_chars_at(row: Seq<Cell>, x: int, n: nat)
    requires
        0 <= x < row.len(),
    ensures
        deleted_chars(row, x, n).len() == row.len(),
        forall|i: int| 0 <= i < row.len() ==> #[trigger] deleted_chars(row, x, n)[i] == (if i < x {
            row[i]
        } else if i + n < row.len() {
            row[i + n]
        } else {
            blank_cell()
        }),
    decreases n,
{
    if n > 0 {
        lemma_deleted_chars_at(row, x, (n - 1) as nat);
        let d = deleted_chars(row, x, (n - 1) as nat);
        assert forall|i: int| 0 <= i < row.len() implies #[trigger] deleted_chars(row, x, n)[i] == (if i < x {
            row[i]
        } else if i + n < row.len() {
            row[i + n]
        } else {
            blank_cell()
        }) by {
            if i < row.len() - 1 {
                if i >= x {
                    assert(d[i + 1] == (if i + 1 + (n - 1) < row.len() { row[i + 1 + (n - 1)] } else { blank_cell() }));
                }
            }
        }
    }
}

/// Inserting `n` blanks at `x` shifts the rest of the row `n` to the right,
/// the cells pushed past its end dropping out; the cells before `x` stay.
pub proof fn lemma_inserted_chars_at(row: Seq<Cell>, x: int, n: nat)
    requires
        0 <= x <= row.len(),
    ensures
        inserted_chars(row, x, n).len() == row.len(),
        forall|i: int| 0 <= i < row.len() ==> #[trigger] inserted_chars(row, x, n)[i] == (if i < x {
            row[i]
        } else if i < x + n {
            blank_cell()
        } else {
            row[i - n]
        }),
    decreases n,
{
    if n > 0 {
        lemma_inserted_chars_at(row, x, (n - 1) as nat);
        let d = inserted_chars(row, x, (n - 1) as nat);
        assert forall|i: int| 0 <= i < row.len() implies #[trigger] inserted_chars(row, x, n)[i] == (if i < x {
            row[i]
        } else if i < x + n {
            blank_cell()
        } else {
            row[i - n]
        }) by {
            if i > x {
                assert(d[i - 1] == (if i - 1 < x + (n - 1) { blank_cell() } else { row[i - 1 - (n - 1)] }));
            }
        }
    }
}

/// DCH, ICH and ECH with a count `n` act on the cursor's row only: DCH pulls
/// the cells right of the cursor `n` to the left and blanks the end, ICH
/// opens `n` blanks at the cursor and pushes the rest right, ECH blanks `n`
/// cells from the cursor (in the current attributes) without moving any.
/// The cursor and the other rows stay.
pub proof fn lemma_char_edits(v: ScreenView, p: Seq<i64>, i: Seq<u8>, f: u8)
    requires
        model_ok(v),
        v.rows >= 1,
        v.cols >= 1,
        1 <= param_or(p, 0, 1) <= usize::MAX,
        f == 0x50 || f == 0x40 || f == 0x58,
    ensures
        ({
            let u = after_flush_cr(v);
            let w = screen_handled(v, ActionView::Csi(p, i, f));
            let n = param_or(p, 0, 1) as int;
            let y0 = v.cursor_y as int;
            let cx = u.cursor_x as int;
            &&& w.cursor_x == u.cursor_x && w.cursor_y == v.cursor_y
            &&& w.cells.len() == v.cells.len()
            &&& forall|y: int| 0 <= y < v.rows && y != y0 ==> #[trigger] w.cells[y] == v.cells[y]
            &&& f == 0x50 ==> forall|x: int| 0 <= x < v.cols ==> #[trigger] w.cells[y0][x] == (if x < cx {
                u.cells[y0][x]
            } else if x + n < v.cols {
                u.cells[y0][x + n]
            } else {
                blank_cell()
            })
            &&& f == 0x40 ==> forall|x: int| 0 <= x < v.cols ==> #[trigger] w.cells[y0][x] == (if x < cx {
                u.cells[y0][x]
            } else if x < cx + n {
                blank_cell()
            } else {
                u.cells[y0][x - n]
            })
            &&& f == 0x58 ==> forall|x: int| 0 <= x < v.cols ==> #[trigger] w.cells[y0][x] == (if cx <= x < cx + n {
                erased(v.current_attrs)
            } else {
                u.cells[y0][x]
            })
        }),
{
    reveal(csi_effect);
    reveal(csi_edit);
    lemma_model_elim(v);
    reveal(grid_ok);
    let u = after_flush_cr(v);
    let y0 = v.cursor_y as int;
    let n = param_or(p, 0, 1) as usize;
    assert(u.cells.len() == v.cells.len());
    assert(forall|y: int| 0 <= y < v.cells.len() && y != y0 ==> #[trigger] u.cells[y] == v.cells[y]);
    assert(u.cells[y0].len() == v.cols);
    assert(u.current_attrs == v.current_attrs && u.cursor_y == v.cursor_y && u.cols == v.cols);
    assert(u.cursor_x < v.cols);
    assert(n as int == param_or(p, 0, 1));
    if f == 0x50 {
        lemma_deleted_chars_at(u.cells[y0], u.cursor_x as int, n as nat);
    } else if f == 0x40 {
        lemma_inserted_chars_at(u.cells[y0], u.cursor_x as int, n as nat);
    }
}

/// IL `n` times, with the cursor inside the scroll region: `n` blank rows
/// open at the cursor's row, the region's rows below move down `n`, and
/// those pushed past the region's bottom drop out; rows outside the region
/// stay.
pub proof fn lemma_inserted_lines_at(v: ScreenView, n: nat)
    requires
        v.cursor_y <= v.scroll_bottom < v.cells.len(),
    ensures
        inserted_lines(v, n) == (ScreenView { cells: inserted_lines(v, n).cells, wrapped: inserted_lines(v, n).wrapped, ..v }),
        inserted_lines(v, n).cells.len() == v.cells.len(),
        forall|y: int| 0 <= y < v.cells.len() ==> #[trigger] inserted_lines(v, n).cells[y] == (if y < v.cursor_y
            || y > v.scroll_bottom {
            v.cells[y]
        } else if y < v.cursor_y + n {
            blank_row(v.cols as nat)
        } else {
            v.cells[y - n]
        }),
    decreases n,
{
    if n > 0 {
        lemma_inserted_lines_at(v, (n - 1) as nat);
        let w = inserted_lines(v, (n - 1) as nat);
        let cy = v.cursor_y as int;
        let b = v.scroll_bottom as int;
        let r = w.cells.remove(b);
        assert forall|y: int| 0 <= y < v.cells.len() implies #[trigger] inserted_lines(v, n).cells[y] == (if y < cy
            || y > b {
            v.cells[y]
        } else if y < cy + n {
            blank_row(v.cols as nat)
        } else {
            v.cells[y - n]
        }) by {
            if y > cy && y <= b {
                assert(inserted_lines(v, n).cells[y] == w.cells[y - 1]);
            } else if y > b {
                assert(inserted_lines(v, n).cells[y] == w.cells[y]);
            }
        }
    }
}

/// DL `n` times, with the cursor inside the scroll region: the cursor's row
/// and the `n - 1` below it drop out, the region's rows below move up `n`,
/// and blank rows fill its bottom; rows outside the region stay.
pub proof fn lemma_deleted_lines_at(v: ScreenView, n: nat)
    requires
        v.cursor_y <= v.scroll_bottom < v.cells.len(),
    ensures
        deleted_lines(v, n) == (ScreenView { cells: deleted_lines(v, n).cells, wrapped: deleted_lines(v, n).wrapped, ..v }),
        deleted_lines(v, n).cells.len() == v.cells.len(),
        forall|y: int| 0 <= y < v.cells.len() ==> #[trigger] deleted_lines(v, n).cells[y] == (if y < v.cursor_y
            || y > v.scroll_bottom {
            v.cells[y]
        } else if y + n <= v.scroll_bottom {
            v.cells[y + n]
        } else {
            blank_row(v.cols as nat)
        }),
    decreases n,
{
    if n > 0 {
        lemma_deleted_lines_at(v, (n - 1) as nat);
        let w = deleted_lines(v, (n - 1) as nat);
        let cy = v.cursor_y as int;
        let b = v.scroll_bottom as int;
        assert forall|y: int| 0 <= y < v.cells.len() implies #[trigger] deleted_lines(v, n).cells[y] == (if y < cy
            || y > b {
            v.cells[y]
        } else if y + n <= b {
            v.cells[y + n]
        } else {
            blank_row(v.cols as nat)
        }) by {
            if cy <= y < b {
                assert(deleted_lines(v, n).cells[y] == w.cells[y + 1]);
            } else if y > b {
                assert(deleted_lines(v, n).cells[y] == w.cells[y]);
            }
        }
    }
}

/// IL and DL with a count `n`, the cursor inside the scroll region: IL opens
/// `n` blank rows at the cursor's row and pushes the region's rows below it
/// down, DL removes `n` rows from the cursor's down and pulls the rest of the
/// region up, blank rows filling its bottom. Rows outside the region and the
/// cursor stay.
pub proof fn lemma_line_edits(v: ScreenView, p: Seq<i64>, i: Seq<u8>, f: u8)
    requires
        model_ok(v),
        v.rows >= 1,
        1 <= param_or(p, 0, 1) <= usize::MAX,
        v.scroll_top <= v.cursor_y <= v.scroll_bottom,
        f == 0x4c || f == 0x4d,
    ensures
        ({
            let u = after_flush_cr(v);
            let w = screen_handled(v, ActionView::Csi(p, i, f));
            let n = param_or(p, 0, 1) as int;
            let y0 = v.cursor_y as int;
            let b = v.scroll_bottom as int;
            &&& w.cursor_x == u.cursor_x && w.cursor_y == v.cursor_y
            &&& w.cells.len() == v.cells.len()
            &&& forall|y: int| 0 <= y < v.rows && (y < y0 || y > b) ==> #[trigger] w.cells[y] == u.cells[y]
            &&& f == 0x4c ==> forall|y: int| y0 <= y <= b ==> #[trigger] w.cells[y] == (if y < y0 + n {
                blank_row(v.cols as nat)
            } else {
                u.cells[y - n]
            })
            &&& f == 0x4d ==> forall|y: int| y0 <= y <= b ==> #[trigger] w.cells[y] == (if y + n <= b {
                u.cells[y + n]
            } else {
                blank_row(v.cols as nat)
            })
        }),
{
    reveal(csi_effect);
    reveal(csi_edit);
    lemma_model_elim(v);
    let u = after_flush_cr(v);
    let n = param_or(p, 0, 1) as usize;
    assert(u.cells.len() == v.cells.len());
    assert(u.cursor_y == v.cursor_y && u.scroll_bottom == v.scroll_bottom && u.cols == v.cols);
    assert(n as int == param_or(p, 0, 1));
    if f == 0x4c {
        lemma_inserted_lines_at(u, n as nat);
    } else {
        lemma_deleted_lines_at(u, n as nat);
    }
}

/// Resizing to the current size changes nothing.
pub proof fn lemma_resize_same_size(v: ScreenView)
    ensures
        resized(v, v.rows, v.cols) == v,
{
}

/// The virtual lines used for painting and selection are the scrollback's
/// visual rows (at the current width), oldest first, followed by the rows of
/// the screen.
pub proof fn lemma_virtual_lines(v: ScreenView, i: int)
    requires
        model_ok(v),
        v.saved_main is None,
    ensures
        0 <= i < visual_rows(v).len() ==> row_at_virtual(v, i) == Some(visual_rows(v)[i]),
        0 <= i < v.rows ==> row_at_virtual(v, visual_rows(v).len() + i) == Some(v.cells[i]),
{
    lemma_model_elim(v);
}

/// A line feed from program output (not ending a `\r\n`) always moves to the
/// next line on the main screen: only a `\r\n` can be collapsed.
pub proof fn lemma_bare_lf_not_swallowed(v: ScreenView)
    requires
        v.saved_main is None,
    ensures
        after_lf(v, false) == with_suppress(after_newline(v, false), false),
{
    reveal(after_lf);
}

proof fn lemma_scrolled_up_shape(v: ScreenView, n: nat)
    requires
        v.scroll_top < v.wrapped.len(),
        v.scroll_bottom < v.wrapped.len(),
    ensures
        scrolled_up(v, n).wrapped.len() == v.wrapped.len(),
        scrolled_up(v, n).rows == v.rows,
        scrolled_up(v, n).cursor_y == v.cursor_y,
        scrolled_up(v, n).scroll_top == v.scroll_top,
        scrolled_up(v, n).scroll_bottom == v.scroll_bottom,
    decreases n,
{
    if n > 0 {
        lemma_scrolled_up_shape(v, (n - 1) as nat);
    }
}

/// After a line feed the cursor's new row is marked a soft-wrap continuation
/// exactly when the feed was a soft wrap: a hard newline clears the flag, so
/// reflow never joins it to the row above.
pub proof fn lemma_newline_marks_row(v: ScreenView, wrapped: bool)
    requires
        model_ok(v),
        v.rows > 0,
    ensures
        ({
            let w = after_newline(v, wrapped);
            w.cursor_x == 0 && w.cursor_y < w.wrapped.len() && w.wrapped[w.cursor_y as int] == wrapped
        }),
{
    lemma_model_elim(v);
    lemma_scrolled_up_shape(v, min_int(1, region_count(v.scroll_top, v.scroll_bottom)) as nat);
}

/// A row that scrolls off the top of the main screen goes into the
/// scrollback, which then holds at most `scrollback_limit` lines, the newest
/// being that row's logical cells (alone, or appended to the line it
/// continues).
pub proof fn lemma_scrollback_bounded(
    sb: Seq<Seq<LogicalCell>>,
    row: Seq<Cell>,
    was_wrapped: bool,
    next_wrapped: bool,
    limit: usize,
)
    requires
        limit > 0,
    ensures
        ({
            let out = scrollback_after(sb, row, was_wrapped, next_wrapped, limit);
            let lc = row_logical(row, !next_wrapped);
            &&& out.len() <= limit
            &&& out.len() > 0
            &&& out.last() == if was_wrapped && sb.len() > 0 { sb.last() + lc } else { lc }
        }),
{
    let lc = row_logical(row, !next_wrapped);
    let grown = if was_wrapped { extended_scrollback(sb, lc) } else { sb.push(lc) };
    assert(grown.len() > 0);
    let out = trim_front(grown, limit);
    if grown.len() > limit {
        assert(out.last() == grown.last());
    }
}

proof fn lemma_scrolled_up_keeps(v: ScreenView, n: nat)
    ensures
        scrolled_up(v, n).cols == v.cols,
        scrolled_up(v, n).rows == v.rows,
        scrolled_up(v, n).saved_main == v.saved_main,
        scrolled_up(v, n).shell == v.shell,
        scrolled_up(v, n).modes == v.modes,
        scrolled_up(v, n).cursor_y == v.cursor_y,
    decreases n,
{
    if n > 0 {
        lemma_scrolled_up_keeps(v, (n - 1) as nat);
    }
}

/// A character that fits on the cursor's row (no wrap pending, not in insert
/// mode) is written at the cursor in the current attributes, a wide one
/// taking the next cell as its second half; a narrow one overwriting the
/// first half of a wide character blanks the orphaned second half. Cells
/// before the cursor, after the glyph and on other rows stay. The cursor
/// moves past the glyph, or stays in the last column with a wrap pending
/// exactly when auto-wrap is on.
pub proof fn lemma_print_places_glyph(v: ScreenView, c: char)
    requires
        model_ok(v),
        v.rows >= 1,
        !v.pending_wrap,
        !v.modes.insert_mode,
        display_width(c) == 1 || display_width(c) == 2,
        v.cursor_x + display_width(c) <= v.cols,
        c != ' ' || (!v.shell.in_zsh_line_pad && !v.shell.postdisplay_leading_space),
    ensures
        ({
            let r = after_put_char(v, c);
            let w = display_width(c) as int;
            let y = v.cursor_y as int;
            let x = v.cursor_x as int;
            &&& r.cells.len() == v.cells.len()
            &&& forall|k: int| 0 <= k < v.rows && k != y ==> #[trigger] r.cells[k] == v.cells[k]
            &&& r.cells[y].len() == v.cols
            &&& r.cells[y][x] == glyph_cell(v.current_attrs, c)
            &&& w == 2 ==> r.cells[y][x + 1] == glyph_cont(v.current_attrs)
            &&& w == 1 && x + 1 < v.cols ==> r.cells[y][x + 1] == (if v.cells[y][x + 1].wide_continuation {
                blank_cell()
            } else {
                v.cells[y][x + 1]
            })
            &&& forall|j: int| 0 <= j < v.cols && (j < x || j >= x + 2) ==> #[trigger] r.cells[y][j] == v.cells[y][j]
            &&& r.cursor_y == v.cursor_y
            &&& x + w < v.cols ==> r.cursor_x == x + w && !r.pending_wrap
            &&& x + w == v.cols ==> r.cursor_x == v.cols - 1 && r.pending_wrap == v.modes.auto_wrap
        }),
{
    reveal(after_put_char);
    reveal(printed_glyph);
    lemma_model_elim(v);
    reveal(grid_ok);
    let y = v.cursor_y as int;
    assert(v.cells[y].len() == v.cols);
}

/// Delayed auto-wrap, first half: a character printed in the last column
/// leaves the cursor there, and with auto-wrap on only marks a wrap as
/// pending.
pub proof fn lemma_last_column_defers_wrap(v: ScreenView, c: char)
    requires
        v.cols > 0,
        v.rows > 0,
        v.cursor_x == v.cols - 1,
        !v.pending_wrap,
        display_width(c) == 1,
        c != ' ',
        c != '%',
    ensures
        after_put_char(v, c).cursor_x == v.cursor_x,
        after_put_char(v, c).cursor_y == v.cursor_y,
        after_put_char(v, c).pending_wrap == v.modes.auto_wrap,
{
    reveal(after_put_char);
    reveal(printed_glyph);
}

/// Delayed auto-wrap, second half: the next printed character first moves to
/// the start of the next line, marked as a soft-wrap continuation, and is
/// placed there.
pub proof fn lemma_pending_wrap_wraps_first(v: ScreenView, c: char)
    requires
        v.cols > 0,
        v.rows > 0,
        v.pending_wrap,
        v.modes.auto_wrap,
        display_width(c) == 1,
        c != ' ',
        c != '%',
    ensures
        after_put_char(v, c) == placed_glyph(after_newline(v, true), c, 1),
{
    reveal(after_put_char);
    reveal(printed_glyph);
    lemma_scrolled_up_keeps(v, min_int(1, region_count(v.scroll_top, v.scroll_bottom)) as nat);
}

/// Only a `\r\n` right after a `\r\n` line break collapses: the first one
/// (on a line with content) moves to the next line, the second moves nothing.
pub proof fn lemma_double_crlf_collapses(v: ScreenView)
    requires
        v.saved_main is None,
        !v.shell.suppress_extra_crlf_newline,
        v.cursor_x != 0,
    ensures
        after_lf(v, true) == with_suppress(after_newline(v, false), true),
        after_lf(after_lf(v, true), true) == with_suppress(after_lf(v, true), false),
{
    reveal(after_lf);
    lemma_scrolled_up_keeps(v, min_int(1, region_count(v.scroll_top, v.scroll_bottom)) as nat);
}

/// The screen after one handler call.
pub open spec fn screen_handled(v: ScreenView, a: ActionView) -> ScreenView {
    match a {
        ActionView::Print(c) => after_print(v, c),
        ActionView::Execute(b) => after_execute(v, b),
        ActionView::Esc(i, f) => esc_effect(after_flush_cr(v), i, f),
        ActionView::Csi(p, i, f) => csi_effect(after_flush_cr(v), p, i, f),
        ActionView::Osc(d) => ScreenView { title: osc_title(d, after_flush_cr(v).title), ..after_flush_cr(v) },
        ActionView::Dcs(d) => with_response(after_flush_cr(v), xtgettcap_reply(d)),
    }
}

impl TermHandler for Screen {
    type Model = ScreenView;

    open spec fn model(&self) -> ScreenView {
        self@
    }

    open spec fn handled(m: ScreenView, a: ActionView) -> ScreenView {
        screen_handled(m, a)
    }

    open spec fn handler_ready(&self) -> bool {
        self.ready()
    }

    fn print(&mut self, c: char)
        ensures
            final(self)@ == after_print(old(self)@, c),
    {
        proof {
            reveal(after_print);
        }
        self.flush_pending_cr();
        self.note_printed(c);
        let ch = translate_char(self.modes, c);
        self.put_char(ch);
    }

    fn execute(&mut self, byte: u8)
        ensures
            final(self)@ == after_execute(old(self)@, byte),
    {
        proof {
            reveal(after_execute);
        }
        if byte == 0x08 || byte == 0x7f || byte == 0x09 {
            self.edit_control(byte);
        } else {
            self.line_control(byte);
        }
    }

    fn esc_dispatch(&mut self, intermediates: &[u8], final_byte: u8)
        ensures
            final(self)@ == esc_effect(after_flush_cr(old(self)@), intermediates@, final_byte),
    {
        self.flush_pending_cr();
        self.esc_effect_exec(intermediates, final_byte);
    }

    fn csi_dispatch(&mut self, params: &[i64], intermediates: &[u8], final_byte: u8)
        ensures
            final(self)@ == csi_effect(after_flush_cr(old(self)@), params@, intermediates@, final_byte),
            final(self)@.rows == old(self)@.rows,
            final(self)@.cols == old(self)@.cols,
    {
        proof {
            lemma_csi_keeps_size(after_flush_cr(old(self)@), params@, intermediates@, final_byte);
        }
        proof {
            reveal(csi_effect);
        }
        self.flush_pending_cr();
        if (0x41 <= final_byte && final_byte <= 0x48) || final_byte == 0x66 || final_byte == 0x64 {
            self.csi_motion_exec(params, final_byte);
        } else if final_byte == 0x4a || final_byte == 0x4b || final_byte == 0x4c || final_byte == 0x4d || final_byte == 0x50
            || final_byte == 0x40 || final_byte == 0x53 || final_byte == 0x54 || final_byte == 0x58 {
            self.csi_edit_exec(params, final_byte);
        } else {
            self.csi_settings_exec(params, intermediates, final_byte);
        }
    }

    fn osc_dispatch(&mut self, data: &str)
        ensures
            final(self)@ == (ScreenView { title: osc_title(data@, after_flush_cr(old(self)@).title), ..after_flush_cr(old(self)@) }),
    {
        self.flush_pending_cr();
        let chars = str_chars(data);
        let n = chars.len();
        if n >= 2 && (chars[0] == '0' || chars[0] == '2') && chars[1] == ';' {
            let mut rest: Vec<char> = Vec::new();
            let mut i: usize = 2;
            while i < n
                invariant
                    2 <= i <= n,
                    n == chars@.len(),
                    rest@ == chars@.subrange(2, i as int),
                decreases n - i,
            {
                rest.push(chars[i]);
                i += 1;
            }
            let title = chars_to_string(rest.as_slice());
            self.set_title(title);
        } else if n == 1 && chars[0] == '0' {
            proof {
                assert(data@ =~= seq!['0']);
            }
            self.set_title(String::new());
        } else {
            proof {
                assert(data@ != seq!['0']);
                assert(self@ == (ScreenView { title: osc_title(data@, self@.title), ..self@ }));
            }
        }
    }

    fn dcs_dispatch(&mut self, data: &str)
        ensures
            final(self)@ == with_response(after_flush_cr(old(self)@), xtgettcap_reply(data@)),
    {
        self.flush_pending_cr();
        self.handle_xtgettcap(data);
    }
}

} // verus!
