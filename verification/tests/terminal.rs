use rsterminal::terminal::cells::{
    cell_display_width, char_display_width, row_to_logical_cells_with_trim, Cell, Color, LogicalCell, LogicalLine,
};
use rsterminal::terminal::layout::layout_logical_line;
use rsterminal::terminal::parser::{Parser, TermAction, TermEvent, TermHandler};
use rsterminal::terminal::screen::Screen;

fn feed(screen: &mut Screen, parser: &mut Parser, bytes: &[u8]) {
    parser.process(bytes, screen);
}

fn screen_with(rows: usize, cols: usize, bytes: &[u8]) -> Screen {
    let mut s = Screen::new(rows, cols);
    let mut p = Parser::new();
    feed(&mut s, &mut p, bytes);
    s
}

fn row_text(row: &[Cell]) -> String {
    row.iter().filter(|c| !c.wide_continuation).map(|c| c.ch).collect::<String>().trim_end().to_string()
}

fn responses(screen: &mut Screen) -> Vec<Vec<u8>> {
    screen
        .drain_outgoing()
        .into_iter()
        .filter_map(|e| match e {
            TermEvent::Response(b) => Some(b),
            _ => None,
        })
        .collect()
}

#[test]
fn prints_text_and_moves_cursor() {
    let s = screen_with(4, 10, b"hi");
    assert_eq!(s.cells[0][0].ch, 'h');
    assert_eq!(s.cells[0][1].ch, 'i');
    assert_eq!(s.cursor_x, 2);
    assert_eq!(s.cursor_y, 0);
}

#[test]
fn crlf_starts_next_line() {
    let s = screen_with(4, 10, b"ab\r\ncd");
    assert_eq!(row_text(&s.cells[0]), "ab");
    assert_eq!(row_text(&s.cells[1]), "cd");
    assert_eq!((s.cursor_x, s.cursor_y), (2, 1));
}

#[test]
fn bare_lf_is_never_swallowed() {
    let s = screen_with(5, 10, b"a\n\nb");
    assert_eq!(s.cursor_y, 2);
    assert_eq!(s.cells[2][0].ch, 'b');
}

#[test]
fn status_report_answers_ok() {
    let mut s = screen_with(4, 10, b"\x1b[5n");
    assert_eq!(responses(&mut s), vec![b"\x1b[0n".to_vec()]);
    assert!(responses(&mut s).is_empty());
}

#[test]
fn cursor_position_report_is_one_based() {
    let mut s = screen_with(10, 20, b"\x1b[3;5H\x1b[6n");
    assert_eq!(responses(&mut s), vec![b"\x1b[3;5R".to_vec()]);
}

#[test]
fn long_line_wraps_softly() {
    let s = screen_with(4, 5, b"abcdefg");
    assert_eq!(row_text(&s.cells[0]), "abcde");
    assert_eq!(row_text(&s.cells[1]), "fg");
    assert!(s.row_wrapped(1));
    assert!(!s.row_wrapped(0));
}

#[test]
fn hard_newline_is_not_a_continuation() {
    let s = screen_with(4, 5, b"abc\r\ndef");
    assert!(!s.row_wrapped(1));
}

#[test]
fn scrolled_lines_go_to_scrollback() {
    let s = screen_with(2, 10, b"one\r\ntwo\r\nthree");
    assert_eq!(s.scrollback_lines(), 1);
    assert_eq!(row_text(s.line_at_virtual(0).unwrap()), "one");
    assert_eq!(row_text(s.line_at_virtual(1).unwrap()), "two");
    assert_eq!(row_text(s.line_at_virtual(2).unwrap()), "three");
    assert!(s.line_at_virtual(3).is_none());
    assert_eq!(row_text(s.scrollback_row(0).unwrap()), "one");
}

#[test]
fn scrollback_limit_is_kept() {
    let mut s = Screen::new(2, 10);
    s.set_scrollback_limit(3);
    let mut p = Parser::new();
    for i in 0..10u8 {
        feed(&mut s, &mut p, &[b'0' + i, b'\r', b'\n']);
    }
    assert_eq!(s.scrollback_lines(), 3);
    assert_eq!(row_text(s.scrollback_row(0).unwrap()), "6");
}

#[test]
fn resize_narrower_keeps_text() {
    let mut s = screen_with(3, 10, b"abcdefgh");
    s.resize(3, 4);
    assert_eq!((s.rows, s.cols), (3, 4));
    let mut text = String::new();
    let total = s.scrollback_lines() + 3;
    for i in 0..total {
        if let Some(row) = s.line_at_virtual(i) {
            text.push_str(&row_text(row));
        }
    }
    assert_eq!(text, "abcdefgh");
}

#[test]
fn resize_wider_joins_wrapped_rows() {
    let mut s = screen_with(3, 4, b"abcdef");
    assert!(s.row_wrapped(1));
    s.resize(3, 10);
    assert_eq!(row_text(&s.cells[0]), "abcdef");
    assert!(!s.row_wrapped(1));
}

#[test]
fn resize_to_same_size_changes_nothing() {
    let mut s = screen_with(3, 4, b"abcdef");
    let before: Vec<String> = s.cells.iter().map(|r| row_text(r)).collect();
    s.resize(3, 4);
    let after: Vec<String> = s.cells.iter().map(|r| row_text(r)).collect();
    assert_eq!(before, after);
    assert_eq!((s.cursor_x, s.cursor_y), (2, 1));
}

#[test]
fn alternate_screen_restores_main() {
    let mut s = screen_with(3, 10, b"shell");
    let mut p = Parser::new();
    feed(&mut s, &mut p, b"\x1b[?1049h");
    assert!(s.in_alternate_screen());
    feed(&mut s, &mut p, b"vim");
    feed(&mut s, &mut p, b"\x1b[?1049l");
    assert!(!s.in_alternate_screen());
    assert_eq!(row_text(&s.cells[0]), "shell");
}

#[test]
fn osc_sets_title() {
    let s = screen_with(3, 10, b"\x1b]0;my title\x07");
    assert_eq!(s.title, "my title");
}

#[test]
fn chunked_input_gives_same_screen() {
    let data: &[u8] = b"ab\x1b[2;3Hxy\x1b[1mz\r\nq";
    let whole = screen_with(4, 10, data);
    for cut in 0..data.len() {
        let mut s = Screen::new(4, 10);
        let mut p = Parser::new();
        feed(&mut s, &mut p, &data[..cut]);
        feed(&mut s, &mut p, &data[cut..]);
        assert_eq!(s.cells, whole.cells);
        assert_eq!((s.cursor_x, s.cursor_y), (whole.cursor_x, whole.cursor_y));
    }
}

#[test]
fn utf8_split_across_reads() {
    let mut s = Screen::new(2, 10);
    let mut p = Parser::new();
    let bytes = "é".as_bytes();
    feed(&mut s, &mut p, &bytes[..1]);
    feed(&mut s, &mut p, &bytes[1..]);
    assert_eq!(s.cells[0][0].ch, 'é');
    assert_eq!(s.cursor_x, 1);
}

#[test]
fn wide_character_takes_two_cells() {
    let s = screen_with(2, 10, "中a".as_bytes());
    assert_eq!(s.cells[0][0].ch, '中');
    assert!(s.cells[0][1].wide_continuation);
    assert_eq!(s.cells[0][2].ch, 'a');
    assert_eq!(s.cursor_x, 3);
}

#[test]
fn display_widths() {
    assert_eq!(char_display_width('a'), 1);
    assert_eq!(char_display_width('中'), 2);
    let s = screen_with(2, 10, "中a".as_bytes());
    assert_eq!(cell_display_width(&s.cells[0], 0), 2);
    assert_eq!(cell_display_width(&s.cells[0], 1), 0);
    assert_eq!(cell_display_width(&s.cells[0], 2), 1);
    assert_eq!(cell_display_width(&s.cells[0], 99), 1);
    let blank = Cell::default();
    assert_eq!(blank.ch, ' ');
}

#[test]
fn private_modes_toggle() {
    let mut s = screen_with(2, 10, b"\x1b[?2004h\x1b[?1000h\x1b[?1006h\x1b[?1h");
    assert!(s.bracketed_paste_enabled());
    assert!(s.mouse_report_clicks());
    assert!(s.mouse_tracking_active());
    assert!(s.mouse_sgr_encoding());
    assert!(s.application_cursor_keys());
    let mut p = Parser::new();
    feed(&mut s, &mut p, b"\x1b[?2004l\x1b[?1000l");
    assert!(!s.bracketed_paste_enabled());
    assert!(!s.mouse_report_clicks());
}

#[test]
fn sgr_sets_colors() {
    let s = screen_with(2, 10, b"\x1b[31;1mR\x1b[0mN\x1b[38;5;200mX");
    assert_eq!(s.cells[0][0].fg, Color::Indexed(1));
    assert!(s.cells[0][0].bold);
    assert_eq!(s.cells[0][1].fg, Color::Default);
    assert!(!s.cells[0][1].bold);
    assert_eq!(s.cells[0][2].fg, Color::Indexed(200));
}

#[test]
fn erase_line_clears_to_end() {
    let s = screen_with(2, 10, b"abcdef\x1b[3G\x1b[K");
    assert_eq!(row_text(&s.cells[0]), "ab");
}

#[test]
fn xtgettcap_answers_known_capability() {
    // "Co" hex-encoded is 436f; its value "256" is 323536.
    let mut s = screen_with(2, 10, b"\x1bP+q436f\x1b\\");
    assert_eq!(responses(&mut s), vec![b"\x1bP1+r436f=323536\x1b\\".to_vec()]);
}

#[test]
fn xtgettcap_refuses_unknown_capability() {
    let mut s = screen_with(2, 10, b"\x1bP+q7a7a\x1b\\");
    assert_eq!(responses(&mut s), vec![b"\x1bP0+r7a7a\x1b\\".to_vec()]);
}

#[test]
fn backspace_and_erase_left() {
    let mut s = screen_with(2, 10, b"abc");
    s.backspace();
    assert_eq!(s.cursor_x, 2);
    s.erase_left();
    assert_eq!(s.cursor_x, 1);
    assert_eq!(s.cells[0][1].ch, ' ');
}

#[test]
fn tabs_advance_to_stops() {
    let mut s = screen_with(2, 20, b"a\t");
    assert_eq!(s.cursor_x, 8);
    s.advance_tabs();
    assert_eq!(s.cursor_x, 16);
}

#[test]
fn viewport_follows_live_tail() {
    let s = screen_with(2, 10, b"1\r\n2\r\n3\r\n4");
    assert_eq!(s.scrollback_lines(), 2);
    assert_eq!(s.max_scroll_offset(2), 2);
    assert_eq!(s.viewport_virtual_start(2, 0), 2);
    assert_eq!(s.cursor_viewport_row(2, 0), Some(1));
    assert_eq!(s.viewport_virtual_start(2, 2), 0);
}

#[test]
fn charset_designation_selects_line_drawing() {
    // `ESC ( 0` designates the DEC special graphics into G0, `ESC ( B`
    // designates US-ASCII again.
    let s = screen_with(2, 10, b"\x1b(0qx\x1b(Bq");
    assert_eq!(s.cells[0][0].ch, '\u{2500}');
    assert_eq!(s.cells[0][1].ch, '\u{2502}');
    assert_eq!(s.cells[0][2].ch, 'q');
    let mut t = Screen::new(1, 4);
    t.esc_dispatch(&[b'('], b'0');
    t.print('q');
    assert_eq!(t.cells[0][0].ch, '\u{2500}');
}

#[test]
fn g1_designation_with_shift_out() {
    // `ESC ) 0` puts the line drawing into G1; SO switches to it, SI back.
    let s = screen_with(2, 10, b"\x1b)0q\x0eq\x0fq");
    assert_eq!(s.cells[0][0].ch, 'q');
    assert_eq!(s.cells[0][1].ch, '\u{2500}');
    assert_eq!(s.cells[0][2].ch, 'q');
}

#[test]
fn broken_utf8_prints_replacement() {
    let s = screen_with(2, 10, b"\xc3(");
    assert_eq!(s.cells[0][0].ch, '\u{fffd}');
    assert_eq!(s.cells[0][1].ch, '(');
}

#[test]
fn last_column_waits_to_wrap() {
    let mut s = screen_with(3, 5, b"abcde");
    assert_eq!((s.cursor_x, s.cursor_y), (4, 0));
    let mut p = Parser::new();
    feed(&mut s, &mut p, b"f");
    assert_eq!((s.cursor_x, s.cursor_y), (1, 1));
    assert!(s.row_wrapped(1));
}

#[test]
fn second_crlf_is_collapsed() {
    let s = screen_with(5, 10, b"a\r\n\r\nb");
    assert_eq!(s.cursor_y, 1);
    assert_eq!(s.cells[1][0].ch, 'b');
}

#[test]
fn parser_advance_lists_calls() {
    let mut p = Parser::new();
    let actions = p.advance(b"a\x1b[2J\x07");
    assert_eq!(actions.len(), 3);
    assert!(matches!(actions[0], TermAction::Print('a')));
    assert!(matches!(actions[1], TermAction::CsiDispatch { final_byte: b'J', .. }));
    assert!(matches!(actions[2], TermAction::Execute(7)));
}

#[test]
fn inverted_scroll_region_is_refused() {
    // Region rows 2..3, then an inverted request 4;2 changes nothing.
    let mut s = screen_with(4, 5, b"a\r\nb\r\nc\r\nd\x1b[2;3r");
    let before = (s.cursor_x, s.cursor_y);
    let mut p = Parser::new();
    feed(&mut s, &mut p, b"\x1b[4;2r");
    assert_eq!((s.cursor_x, s.cursor_y), before);
    // A line feed at the region's bottom scrolls only rows 2..3.
    feed(&mut s, &mut p, b"\x1b[3;1H\n");
    assert_eq!(s.cells[0][0].ch, 'a');
    assert_eq!(s.cells[1][0].ch, 'c');
    assert_eq!(s.cells[2][0].ch, ' ');
    assert_eq!(s.cells[3][0].ch, 'd');
}

#[test]
fn alternate_screen_output_never_reaches_main() {
    let mut s = screen_with(3, 6, b"a\r\nb\r\nc\r\nd\r\ne");
    let cells = s.cells.clone();
    let (x, y) = (s.cursor_x, s.cursor_y);
    let n = s.scrollback_lines();
    let mut p = Parser::new();
    feed(&mut s, &mut p, b"\x1b[?1049h");
    feed(&mut s, &mut p, b"1\n2\n3\n4\n5\n6\x1b[2J\x1b[5;1H\x1bM\x1b[3L\x1b[S");
    feed(&mut s, &mut p, b"\x1b[?1049l");
    assert!(!s.in_alternate_screen());
    assert!(s.cells == cells);
    assert_eq!((s.cursor_x, s.cursor_y), (x, y));
    assert_eq!(s.scrollback_lines(), n);
}

#[test]
fn csi_sequences_keep_the_size() {
    let mut s = Screen::new(4, 7);
    let mut p = Parser::new();
    feed(&mut s, &mut p, b"\x1b[99;99H\x1b[9999C\x1b[50L\x1b[50M\x1b[2;3r\x1b[9S\x1b[9T\x1b[?1049h\x1b[2J");
    assert_eq!((s.rows, s.cols), (4, 7));
    assert_eq!(s.cells.len(), 4);
    assert!(s.cells.iter().all(|r| r.len() == 7));
    assert!(s.cursor_x < 7 && s.cursor_y < 4);
}

#[test]
fn scrollback_rows_are_screen_wide() {
    let s = screen_with(2, 5, b"abcdefghijkl\r\nxy\r\nz\r\n12345678");
    assert!(s.scrollback_lines() > 0);
    let mut i = 0;
    while let Some(row) = s.scrollback_row(i) {
        assert_eq!(row.len(), 5);
        assert!(s.scrollback_row_wrapped(i).is_some());
        i += 1;
    }
    assert!(s.scrollback_row_wrapped(i).is_none());
}

#[test]
fn fitting_line_reads_back() {
    let lc = |ch: char, width: usize| LogicalCell {
        ch,
        fg: Color::Default,
        bg: Color::Default,
        bold: false,
        italic: false,
        underline: false,
        blink: false,
        reverse: false,
        dim: false,
        strikethrough: false,
        width,
    };
    let line = LogicalLine { cells: vec![lc('a', 1), lc(' ', 1), lc('\u{4e2d}', 2), lc('b', 1)] };
    let rows = layout_logical_line(&line, 8);
    assert_eq!(rows.len(), 1);
    assert!(row_to_logical_cells_with_trim(&rows[0], true) == line.cells);
}
