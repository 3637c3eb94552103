//! VT/xterm escape-sequence parser: a byte-at-a-time state machine whose
//! transitions are stated in full by `spec_step`.

use vstd::prelude::*;
use vstd::utf8::*;

use crate::text::{lossy_string, strict_string, chars_to_string, utf8_lossy};

verus! {

/// Events the screen hands back to the connection (device reports).
pub enum TermEvent {
    /// Send response string to host (e.g. answer to `CSI 18 t`).
    Response(Vec<u8>),
    /// Reserved: application `CSI 8` window resize (not used; the terminal owns geometry).
    PtyResize { rows: usize, cols: usize },
}

/// The mathematical content of an event.
pub enum EventView {
    Response(Seq<u8>),
    PtyResize(usize, usize),
}

impl View for TermEvent {
    type V = EventView;

    open spec fn view(&self) -> EventView {
        match self {
            TermEvent::Response(b) => EventView::Response(b@),
            TermEvent::PtyResize { rows, cols } => EventView::PtyResize(*rows, *cols),
        }
    }
}

/// The states of the escape-sequence recogniser.
#[derive(Clone, Copy, PartialEq, Eq, Structural, Debug)]
pub enum State {
    Ground,
    Escape,
    EscapeIntermediate,
    CsiEntry,
    CsiParam,
    CsiIntermediate,
    CsiIgnore,
    OscString,
    OscEsc,
    DcsEntry,
    DcsParam,
    DcsIntermediate,
    DcsPassthrough,
    DcsEsc,
    DcsIgnore,
    SosPmApcString,
}

pub struct Parser {
    state: State,
    params: Vec<i64>,
    intermediates: Vec<u8>,
    current_param: i64,
    osc_buf: Vec<u8>,
    dcs_buf: Vec<u8>,
    ignore_flag: bool,
    utf8_pending: Vec<u8>,
}

/// The mathematical content of a parser.
pub struct ParserView {
    pub state: State,
    pub params: Seq<i64>,
    pub intermediates: Seq<u8>,
    pub current_param: i64,
    pub osc_buf: Seq<u8>,
    pub dcs_buf: Seq<u8>,
    pub ignore_flag: bool,
    pub utf8_pending: Seq<u8>,
}

/// One handler call the parser makes, as a value.
pub enum TermAction {
    Print(char),
    Execute(u8),
    EscDispatch { intermediates: Vec<u8>, final_byte: u8 },
    CsiDispatch { params: Vec<i64>, intermediates: Vec<u8>, final_byte: u8 },
    OscDispatch(String),
    DcsDispatch(String),
}

/// The mathematical content of a handler call.
pub enum ActionView {
    Print(char),
    Execute(u8),
    Esc(Seq<u8>, u8),
    Csi(Seq<i64>, Seq<u8>, u8),
    Osc(Seq<char>),
    Dcs(Seq<char>),
}

impl View for TermAction {
    type V = ActionView;

    open spec fn view(&self) -> ActionView {
        match self {
            TermAction::Print(c) => ActionView::Print(*c),
            TermAction::Execute(b) => ActionView::Execute(*b),
            TermAction::EscDispatch { intermediates, final_byte } => ActionView::Esc(
                intermediates@,
                *final_byte,
            ),
            TermAction::CsiDispatch { params, intermediates, final_byte } => ActionView::Csi(
                params@,
                intermediates@,
                *final_byte,
            ),
            TermAction::OscDispatch(s) => ActionView::Osc(s@),
            TermAction::DcsDispatch(s) => ActionView::Dcs(s@),
        }
    }
}

impl View for Parser {
    type V = ParserView;

    closed spec fn view(&self) -> ParserView {
        ParserView {
            state: self.state,
            params: self.params@,
            intermediates: self.intermediates@,
            current_param: self.current_param,
            osc_buf: self.osc_buf@,
            dcs_buf: self.dcs_buf@,
            ignore_flag: self.ignore_flag,
            utf8_pending: self.utf8_pending@,
        }
    }
}

/// The views of a sequence of handler calls.
pub open spec fn action_views(s: Seq<TermAction>) -> Seq<ActionView> {
    s.map_values(|a: TermAction| a@)
}

/// One `Print` per character.
pub open spec fn prints(cs: Seq<char>) -> Seq<ActionView> {
    cs.map_values(|c: char| print_action(c))
}

pub open spec fn print_action(c: char) -> ActionView {
    ActionView::Print(c)
}

/// C0 controls that are executed in (almost) every state.
pub open spec fn c0_executes(b: u8) -> bool {
    b <= 0x17 || b == 0x19 || (0x1c <= b && b <= 0x1f)
}

/// C0 controls executed inside OSC and DCS strings (BEL terminates there instead).
pub open spec fn c0_executes_in_string(b: u8) -> bool {
    c0_executes(b) && b != 0x07
}

/// `(c * 10) + d` with the saturating `i64` arithmetic of `saturating_mul` / `saturating_add`.
pub open spec fn clamp_i64(v: int) -> i64 {
    if v > i64::MAX {
        i64::MAX
    } else if v < i64::MIN {
        i64::MIN
    } else {
        v as i64
    }
}

pub open spec fn accumulate_digit(c: i64, d: u8) -> i64 {
    clamp_i64(clamp_i64(c * 10) + (d - 0x30))
}

pub open spec fn initial_parser() -> ParserView {
    ParserView {
        state: State::Ground,
        params: seq![],
        intermediates: seq![],
        current_param: 0,
        osc_buf: seq![],
        dcs_buf: seq![],
        ignore_flag: false,
        utf8_pending: seq![],
    }
}

/// Print whatever UTF-8 bytes are pending (lossily) and forget them.
pub open spec fn spec_flush(p: ParserView) -> (ParserView, Seq<ActionView>) {
    if p.utf8_pending.len() == 0 {
        (p, seq![])
    } else {
        (ParserView { utf8_pending: seq![], ..p }, prints(utf8_lossy(p.utf8_pending)))
    }
}

/// Add a non-ASCII byte to the pending UTF-8 sequence; print it once it decodes,
/// or lossily once four bytes have gathered without decoding.
pub open spec fn spec_push_utf8(p: ParserView, b: u8) -> (ParserView, Seq<ActionView>) {
    let pending = p.utf8_pending.push(b);
    if valid_utf8(pending) {
        (ParserView { utf8_pending: seq![], ..p }, prints(decode_utf8(pending)))
    } else if pending.len() >= 4 {
        (ParserView { utf8_pending: seq![], ..p }, prints(utf8_lossy(pending)))
    } else {
        (ParserView { utf8_pending: pending, ..p }, seq![])
    }
}

pub open spec fn reset_csi(p: ParserView) -> ParserView {
    ParserView { params: seq![], intermediates: seq![], current_param: 0, ..p }
}

pub open spec fn spec_finish_csi(p: ParserView, b: u8) -> (ParserView, Seq<ActionView>) {
    let params = p.params.push(p.current_param);
    (
        ParserView { state: State::Ground, ..reset_csi(p) },
        seq![ActionView::Csi(params, p.intermediates, b)],
    )
}

/// Intermediate bytes read as characters.
pub open spec fn bytes_as_chars(bs: Seq<u8>) -> Seq<char> {
    bs.map_values(|b: u8| b as char)
}

pub open spec fn spec_finish_dcs(p: ParserView) -> (ParserView, Seq<ActionView>) {
    let data = bytes_as_chars(p.intermediates) + utf8_lossy(p.dcs_buf);
    (
        ParserView {
            state: State::Ground,
            dcs_buf: seq![],
            intermediates: seq![],
            params: seq![],
            current_param: 0,
            ..p
        },
        seq![ActionView::Dcs(data)],
    )
}

/// CAN/SUB abort and ESC restart inside CSI sequences; other bytes are dropped.
pub open spec fn spec_anywhere(p: ParserView, b: u8) -> (ParserView, Seq<ActionView>) {
    if b == 0x18 || b == 0x1a {
        (
            ParserView { state: State::Ground, dcs_buf: seq![], ..reset_csi(p) },
            seq![ActionView::Execute(b)],
        )
    } else if b == 0x1b {
        (ParserView { state: State::Escape, dcs_buf: seq![], ..reset_csi(p) }, seq![])
    } else {
        (p, seq![])
    }
}

pub open spec fn exec_only(p: ParserView, b: u8) -> (ParserView, Seq<ActionView>) {
    (p, seq![ActionView::Execute(b)])
}

pub open spec fn to_state(p: ParserView, s: State) -> (ParserView, Seq<ActionView>) {
    (ParserView { state: s, ..p }, seq![])
}

pub open spec fn spec_ground(p: ParserView, b: u8) -> (ParserView, Seq<ActionView>) {
    if c0_executes(b) || b == 0x18 || b == 0x1a || b == 0x7f {
        let (q, a) = spec_flush(p);
        (q, a.push(ActionView::Execute(b)))
    } else if b == 0x1b {
        let (q, a) = spec_flush(p);
        (ParserView { state: State::Escape, intermediates: seq![], ..q }, a)
    } else if 0x20 <= b && b <= 0x7e {
        let (q, a) = spec_flush(p);
        (q, a.push(ActionView::Print(b as char)))
    } else if 0x80 <= b && b <= 0xf4 {
        spec_push_utf8(p, b)
    } else {
        (p, seq![])
    }
}

pub open spec fn esc_dispatch_here(p: ParserView, b: u8) -> Seq<ActionView> {
    seq![ActionView::Esc(p.intermediates, b)]
}

pub open spec fn spec_escape(p: ParserView, b: u8) -> (ParserView, Seq<ActionView>) {
    if c0_executes(b) || b == 0x7f {
        exec_only(p, b)
    } else if 0x20 <= b && b <= 0x2f {
        (
            ParserView {
                state: State::EscapeIntermediate,
                intermediates: p.intermediates.push(b),
                ..p
            },
            seq![],
        )
    } else if 0x30 <= b && b <= 0x4f {
        if b == 0x4f {
            (
                ParserView {
                    state: State::EscapeIntermediate,
                    intermediates: p.intermediates.push(b),
                    ..p
                },
                seq![],
            )
        } else {
            (ParserView { state: State::Ground, ..p }, esc_dispatch_here(p, b))
        }
    } else if b == 0x50 {
        (ParserView { state: State::DcsEntry, params: seq![], current_param: 0, ..p }, seq![])
    } else if (0x51 <= b && b <= 0x57) || b == 0x5e || b == 0x5f {
        to_state(p, State::SosPmApcString)
    } else if b == 0x5b {
        (ParserView { state: State::CsiEntry, ..reset_csi(p) }, seq![])
    } else if b == 0x5d {
        (ParserView { state: State::OscString, osc_buf: seq![], ..p }, seq![])
    } else if b == 0x58 || b == 0x5a || b == 0x5c || (0x60 <= b && b <= 0x7e) {
        (p, esc_dispatch_here(p, b))
    } else {
        (p, seq![])
    }
}

pub open spec fn spec_escape_intermediate(p: ParserView, b: u8) -> (ParserView, Seq<ActionView>) {
    if c0_executes(b) || b == 0x7f {
        exec_only(p, b)
    } else if 0x20 <= b && b <= 0x2f {
        (ParserView { intermediates: p.intermediates.push(b), ..p }, seq![])
    } else if 0x30 <= b && b <= 0x7e {
        (ParserView { state: State::Ground, ..p }, esc_dispatch_here(p, b))
    } else {
        (p, seq![])
    }
}

pub open spec fn spec_csi_entry(p: ParserView, b: u8) -> (ParserView, Seq<ActionView>) {
    if c0_executes(b) || b == 0x7f {
        exec_only(p, b)
    } else if 0x20 <= b && b <= 0x2f {
        (
            ParserView {
                state: State::CsiIntermediate,
                intermediates: p.intermediates.push(b),
                ..p
            },
            seq![],
        )
    } else if b == 0x3a {
        to_state(p, State::CsiIgnore)
    } else if 0x30 <= b && b <= 0x39 {
        (ParserView { state: State::CsiParam, current_param: (b - 0x30) as i64, ..p }, seq![])
    } else if b == 0x3b {
        (
            ParserView {
                state: State::CsiParam,
                params: p.params.push(p.current_param),
                current_param: 0,
                ..p
            },
            seq![],
        )
    } else if 0x3c <= b && b <= 0x3f {
        (ParserView { state: State::CsiParam, intermediates: p.intermediates.push(b), ..p }, seq![])
    } else if 0x40 <= b && b <= 0x7e {
        spec_finish_csi(p, b)
    } else {
        spec_anywhere(p, b)
    }
}

pub open spec fn spec_csi_param(p: ParserView, b: u8) -> (ParserView, Seq<ActionView>) {
    if c0_executes(b) || b == 0x7f {
        exec_only(p, b)
    } else if 0x20 <= b && b <= 0x2f {
        (
            ParserView {
                state: State::CsiIntermediate,
                intermediates: p.intermediates.push(b),
                ..p
            },
            seq![],
        )
    } else if 0x30 <= b && b <= 0x39 {
        (ParserView { current_param: accumulate_digit(p.current_param, b), ..p }, seq![])
    } else if b == 0x3b {
        (ParserView { params: p.params.push(p.current_param), current_param: 0, ..p }, seq![])
    } else if b == 0x3a {
        to_state(p, State::CsiIgnore)
    } else if 0x3c <= b && b <= 0x3f {
        (ParserView { intermediates: p.intermediates.push(b), ..p }, seq![])
    } else if 0x40 <= b && b <= 0x7e {
        spec_finish_csi(p, b)
    } else {
        spec_anywhere(p, b)
    }
}

pub open spec fn spec_csi_intermediate(p: ParserView, b: u8) -> (ParserView, Seq<ActionView>) {
    if c0_executes(b) || b == 0x7f {
        exec_only(p, b)
    } else if 0x20 <= b && b <= 0x2f {
        (ParserView { intermediates: p.intermediates.push(b), ..p }, seq![])
    } else if 0x30 <= b && b <= 0x3f {
        to_state(p, State::CsiIgnore)
    } else if 0x40 <= b && b <= 0x7e {
        spec_finish_csi(p, b)
    } else {
        spec_anywhere(p, b)
    }
}

pub open spec fn spec_csi_ignore(p: ParserView, b: u8) -> (ParserView, Seq<ActionView>) {
    if c0_executes(b) || b == 0x7f {
        exec_only(p, b)
    } else if 0x20 <= b && b <= 0x3f {
        (p, seq![])
    } else if 0x40 <= b && b <= 0x7e {
        (ParserView { state: State::Ground, ..reset_csi(p) }, seq![])
    } else {
        spec_anywhere(p, b)
    }
}

pub open spec fn spec_osc_string(p: ParserView, b: u8) -> (ParserView, Seq<ActionView>) {
    if c0_executes_in_string(b) || b == 0x7f {
        exec_only(p, b)
    } else if b == 0x07 || b == 0x9c {
        (ParserView { state: State::Ground, ..p }, seq![ActionView::Osc(utf8_lossy(p.osc_buf))])
    } else if b == 0x1b {
        to_state(p, State::OscEsc)
    } else if b == 0x18 || b == 0x1a {
        (ParserView { state: State::Ground, osc_buf: seq![], ..p }, seq![ActionView::Execute(b)])
    } else {
        (ParserView { osc_buf: p.osc_buf.push(b), ..p }, seq![])
    }
}

pub open spec fn spec_osc_esc(p: ParserView, b: u8) -> (ParserView, Seq<ActionView>) {
    if b == 0x5c {
        (
            ParserView { state: State::Ground, osc_buf: seq![], ..p },
            seq![ActionView::Osc(utf8_lossy(p.osc_buf))],
        )
    } else {
        (
            ParserView { state: State::OscString, osc_buf: p.osc_buf.push(0x1b).push(b), ..p },
            seq![],
        )
    }
}

pub open spec fn spec_dcs_entry(p: ParserView, b: u8) -> (ParserView, Seq<ActionView>) {
    if c0_executes(b) {
        exec_only(p, b)
    } else if 0x20 <= b && b <= 0x2f {
        (
            ParserView {
                state: State::DcsIntermediate,
                intermediates: p.intermediates.push(b),
                ..p
            },
            seq![],
        )
    } else if b == 0x3a {
        to_state(p, State::DcsIgnore)
    } else if 0x30 <= b && b <= 0x39 {
        (ParserView { state: State::DcsParam, current_param: (b - 0x30) as i64, ..p }, seq![])
    } else if b == 0x3b {
        (
            ParserView {
                state: State::DcsParam,
                params: p.params.push(p.current_param),
                current_param: 0,
                ..p
            },
            seq![],
        )
    } else if 0x3c <= b && b <= 0x3f {
        (ParserView { state: State::DcsParam, intermediates: p.intermediates.push(b), ..p }, seq![])
    } else if 0x40 <= b && b <= 0x7e {
        to_state(p, State::DcsIgnore)
    } else {
        (p, seq![])
    }
}

pub open spec fn spec_dcs_param(p: ParserView, b: u8) -> (ParserView, Seq<ActionView>) {
    if c0_executes(b) {
        exec_only(p, b)
    } else if 0x20 <= b && b <= 0x2f {
        (
            ParserView {
                state: State::DcsIntermediate,
                intermediates: p.intermediates.push(b),
                ..p
            },
            seq![],
        )
    } else if 0x30 <= b && b <= 0x39 {
        (ParserView { current_param: accumulate_digit(p.current_param, b), ..p }, seq![])
    } else if b == 0x3b {
        (ParserView { params: p.params.push(p.current_param), current_param: 0, ..p }, seq![])
    } else if b == 0x3a || (0x3c <= b && b <= 0x3f) {
        (ParserView { intermediates: p.intermediates.push(b), ..p }, seq![])
    } else if 0x40 <= b && b <= 0x7e {
        to_state(p, State::DcsIgnore)
    } else {
        (p, seq![])
    }
}

pub open spec fn spec_dcs_intermediate(p: ParserView, b: u8) -> (ParserView, Seq<ActionView>) {
    if c0_executes(b) {
        exec_only(p, b)
    } else if 0x30 <= b && b <= 0x3f {
        to_state(p, State::DcsIgnore)
    } else if 0x40 <= b && b <= 0x7e {
        (ParserView { state: State::DcsPassthrough, dcs_buf: seq![], ..p }, seq![])
    } else {
        (p, seq![])
    }
}

/// Abandon a DCS string without dispatching it.
pub open spec fn drop_dcs(p: ParserView) -> ParserView {
    ParserView { state: State::Ground, dcs_buf: seq![], intermediates: seq![], ..p }
}

pub open spec fn spec_dcs_passthrough(p: ParserView, b: u8) -> (ParserView, Seq<ActionView>) {
    if c0_executes_in_string(b) || b == 0x7f {
        exec_only(p, b)
    } else if b == 0x1b {
        to_state(p, State::DcsEsc)
    } else if b == 0x18 || b == 0x1a {
        (drop_dcs(p), seq![ActionView::Execute(b)])
    } else if b == 0x9c {
        spec_finish_dcs(p)
    } else if b == 0x07 {
        (drop_dcs(p), seq![])
    } else {
        (ParserView { dcs_buf: p.dcs_buf.push(b), ..p }, seq![])
    }
}

pub open spec fn spec_dcs_esc(p: ParserView, b: u8) -> (ParserView, Seq<ActionView>) {
    if b == 0x5c {
        spec_finish_dcs(p)
    } else {
        (
            ParserView { state: State::DcsPassthrough, dcs_buf: p.dcs_buf.push(0x1b).push(b), ..p },
            seq![],
        )
    }
}

pub open spec fn spec_dcs_ignore(p: ParserView, b: u8) -> (ParserView, Seq<ActionView>) {
    if c0_executes(b) || b == 0x7f {
        exec_only(p, b)
    } else if b == 0x1b {
        to_state(p, State::DcsEsc)
    } else if b == 0x9c {
        (drop_dcs(p), seq![])
    } else if b == 0x18 || b == 0x1a {
        (drop_dcs(p), seq![ActionView::Execute(b)])
    } else {
        (p, seq![])
    }
}

pub open spec fn spec_sos_pm_apc(p: ParserView, b: u8) -> (ParserView, Seq<ActionView>) {
    if c0_executes(b) || b == 0x7f {
        exec_only(p, b)
    } else if b == 0x1b {
        to_state(p, State::Escape)
    } else if b == 0x9c {
        to_state(p, State::Ground)
    } else if b == 0x18 || b == 0x1a {
        (ParserView { state: State::Ground, ..p }, seq![ActionView::Execute(b)])
    } else {
        (p, seq![])
    }
}

/// The parser's transition on one byte: the next parser and the handler calls made.
pub open spec fn spec_step(p: ParserView, b: u8) -> (ParserView, Seq<ActionView>) {
    match p.state {
        State::Ground => spec_ground(p, b),
        State::Escape => spec_escape(p, b),
        State::EscapeIntermediate => spec_escape_intermediate(p, b),
        State::CsiEntry => spec_csi_entry(p, b),
        State::CsiParam => spec_csi_param(p, b),
        State::CsiIntermediate => spec_csi_intermediate(p, b),
        State::CsiIgnore => spec_csi_ignore(p, b),
        State::OscString => spec_osc_string(p, b),
        State::OscEsc => spec_osc_esc(p, b),
        State::DcsEntry => spec_dcs_entry(p, b),
        State::DcsParam => spec_dcs_param(p, b),
        State::DcsIntermediate => spec_dcs_intermediate(p, b),
        State::DcsPassthrough => spec_dcs_passthrough(p, b),
        State::DcsEsc => spec_dcs_esc(p, b),
        State::DcsIgnore => spec_dcs_ignore(p, b),
        State::SosPmApcString => spec_sos_pm_apc(p, b),
    }
}

/// The parser after a byte sequence, and all handler calls made on the way.
pub open spec fn spec_run(p: ParserView, data: Seq<u8>) -> (ParserView, Seq<ActionView>)
    decreases data.len(),
{
    if data.len() == 0 {
        (p, seq![])
    } else {
        let (q, a) = spec_run(p, data.drop_last());
        let (r, b) = spec_step(q, data.last());
        (r, a + b)
    }
}

/// The parser does not depend on how its input is cut into reads: running
/// `a` and then `b` gives the state and the handler calls of running `a + b`.
pub proof fn lemma_run_chunks(p: ParserView, a: Seq<u8>, b: Seq<u8>)
    ensures
        spec_run(p, a + b) == (
            spec_run(spec_run(p, a).0, b).0,
            spec_run(p, a).1 + spec_run(spec_run(p, a).0, b).1,
        ),
    decreases b.len(),
{
    if b.len() == 0 {
        assert(a + b =~= a);
        assert(spec_run(p, a).1 + seq![] =~= spec_run(p, a).1);
    } else {
        assert((a + b).drop_last() =~= a + b.drop_last());
        assert((a + b).last() == b.last());
        lemma_run_chunks(p, a, b.drop_last());
        let q = spec_run(p, a);
        let r = spec_run(q.0, b.drop_last());
        let t = spec_step(r.0, b.last());
        assert(q.1 + r.1 + t.1 =~= q.1 + (r.1 + t.1));
    }
}

/// Printable ASCII text reaching the parser in its ground state, with no
/// partial UTF-8 sequence pending, is printed character for character and
/// leaves the parser as it was.
pub proof fn lemma_ascii_text(p: ParserView, data: Seq<u8>)
    requires
        p.state == State::Ground,
        p.utf8_pending.len() == 0,
        forall|i: int| 0 <= i < data.len() ==> 0x20 <= #[trigger] data[i] <= 0x7e,
    ensures
        spec_run(p, data) == (p, prints(bytes_as_chars(data))),
    decreases data.len(),
{
    if data.len() > 0 {
        lemma_ascii_text(p, data.drop_last());
        assert(0x20 <= data[data.len() - 1] <= 0x7e);
        assert(prints(bytes_as_chars(data)) =~= prints(bytes_as_chars(data.drop_last())).push(
            ActionView::Print(data.last() as char),
        ));
    } else {
        assert(prints(bytes_as_chars(data)) =~= seq![]);
    }
}

/// A byte that an OSC string simply collects (no control, DEL or 8-bit ST).
pub open spec fn osc_text_byte(b: u8) -> bool {
    0x20 <= b && b != 0x7f && b != 0x9c
}

proof fn lemma_osc_body(q: ParserView, d: Seq<u8>)
    requires
        q.state == State::OscString,
        forall|i: int| 0 <= i < d.len() ==> osc_text_byte(#[trigger] d[i]),
    ensures
        spec_run(q, d) == (ParserView { osc_buf: q.osc_buf + d, ..q }, Seq::<ActionView>::empty()),
    decreases d.len(),
{
    if d.len() == 0 {
        assert(q.osc_buf + d =~= q.osc_buf);
    } else {
        lemma_osc_body(q, d.drop_last());
        assert(osc_text_byte(d[d.len() - 1]));
        assert(q.osc_buf + d.drop_last() + seq![d.last()] =~= q.osc_buf + d);
        assert((q.osc_buf + d.drop_last()).push(d.last()) =~= q.osc_buf + d);
        assert(Seq::<ActionView>::empty() + Seq::<ActionView>::empty() =~= Seq::<ActionView>::empty());
    }
}

/// An OSC string (`ESC ] d`) reaching the parser in its ground state ends
/// the same way whether it is terminated by ST (`ESC \`) or by BEL: both
/// hand the handler the string's text as one OSC call, after whatever the
/// `ESC` flushed, and leave the parser in the ground state.
pub proof fn lemma_osc_terminators(p: ParserView, d: Seq<u8>)
    requires
        p.state == State::Ground,
        forall|i: int| 0 <= i < d.len() ==> osc_text_byte(#[trigger] d[i]),
    ensures
        ({
            let intro = seq![0x1bu8, 0x5du8] + d;
            let flushed = spec_flush(p).1;
            &&& spec_run(p, intro + seq![0x1bu8, 0x5cu8]).1 == flushed.push(ActionView::Osc(utf8_lossy(d)))
            &&& spec_run(p, intro + seq![0x07u8]).1 == flushed.push(ActionView::Osc(utf8_lossy(d)))
            &&& spec_run(p, intro + seq![0x1bu8, 0x5cu8]).0.state == State::Ground
            &&& spec_run(p, intro + seq![0x07u8]).0.state == State::Ground
        }),
{
    let e = seq![0x1bu8, 0x5du8];
    let intro = e + d;
    // ESC ] from the ground state opens an empty OSC string.
    assert(e.drop_last() =~= seq![0x1bu8]);
    assert(seq![0x1bu8].drop_last() =~= Seq::<u8>::empty());
    let r1 = spec_run(p, seq![0x1bu8]);
    assert(r1 == spec_step(p, 0x1bu8)) by {
        assert(spec_run(p, Seq::<u8>::empty()) == (p, Seq::<ActionView>::empty()));
        assert(Seq::<ActionView>::empty() + spec_step(p, 0x1bu8).1 =~= spec_step(p, 0x1bu8).1);
    }
    assert(r1.0.state == State::Escape);
    assert(r1.1 == spec_flush(p).1);
    let r2 = spec_run(p, e);
    assert(r2.0.state == State::OscString);
    assert(r2.0.osc_buf == Seq::<u8>::empty());
    assert(r2.1 =~= spec_flush(p).1);
    lemma_run_chunks(p, e, d);
    lemma_osc_body(r2.0, d);
    let q = spec_run(p, intro);
    assert(q.0.osc_buf =~= d);
    assert(q.0.state == State::OscString);
    assert(q.1 =~= spec_flush(p).1);
    // ST
    let st = seq![0x1bu8, 0x5cu8];
    lemma_run_chunks(p, intro, st);
    assert(st.drop_last() =~= seq![0x1bu8]);
    assert(seq![0x1bu8].drop_last() =~= Seq::<u8>::empty());
    let s1 = spec_run(q.0, seq![0x1bu8]);
    assert(s1 == spec_step(q.0, 0x1bu8)) by {
        assert(spec_run(q.0, Seq::<u8>::empty()) == (q.0, Seq::<ActionView>::empty()));
        assert(Seq::<ActionView>::empty() + spec_step(q.0, 0x1bu8).1 =~= spec_step(q.0, 0x1bu8).1);
    }
    assert(s1.0.state == State::OscEsc && s1.0.osc_buf == d && s1.1 == Seq::<ActionView>::empty());
    assert(spec_run(q.0, st).1 =~= seq![ActionView::Osc(utf8_lossy(d))]);
    // BEL
    let bel = seq![0x07u8];
    lemma_run_chunks(p, intro, bel);
    assert(bel.drop_last() =~= Seq::<u8>::empty());
    assert(spec_run(q.0, bel) == spec_step(q.0, 0x07u8)) by {
        assert(spec_run(q.0, Seq::<u8>::empty()) == (q.0, Seq::<ActionView>::empty()));
        assert(Seq::<ActionView>::empty() + spec_step(q.0, 0x07u8).1 =~= spec_step(q.0, 0x07u8).1);
    }
    assert(spec_run(q.0, bel).1 =~= seq![ActionView::Osc(utf8_lossy(d))]);
    assert(spec_flush(p).1 + seq![ActionView::Osc(utf8_lossy(d))] =~= spec_flush(p).1.push(ActionView::Osc(utf8_lossy(d))));
}

/// The number `c` extended by the decimal digits `ds` (saturating at the
/// bounds of `i64`).
pub open spec fn digits_value(c: i64, ds: Seq<u8>) -> i64
    decreases ds.len(),
{
    if ds.len() == 0 {
        c
    } else {
        accumulate_digit(digits_value(c, ds.drop_last()), ds.last())
    }
}

/// CSI parameters written out: the groups of digits joined by `;`.
pub open spec fn csi_param_bytes(groups: Seq<Seq<u8>>) -> Seq<u8>
    decreases groups.len(),
{
    if groups.len() <= 1 {
        if groups.len() == 1 { groups[0] } else { seq![] }
    } else {
        csi_param_bytes(groups.drop_last()) + seq![0x3bu8] + groups.last()
    }
}

pub open spec fn all_digits(ds: Seq<u8>) -> bool {
    forall|i: int| 0 <= i < ds.len() ==> 0x30 <= #[trigger] ds[i] <= 0x39
}

/// The value of each group of digits (an empty group counts 0).
pub open spec fn group_values(groups: Seq<Seq<u8>>) -> Seq<i64> {
    groups.map_values(|g: Seq<u8>| digits_value(0, g))
}

/// Collecting CSI parameters: just after `ESC [`, or inside the parameters.
spec fn collecting(q: ParserView) -> bool {
    ||| q.state == State::CsiEntry && q.current_param == 0
    ||| q.state == State::CsiParam
}

proof fn lemma_csi_digits(q: ParserView, ds: Seq<u8>)
    requires
        collecting(q),
        all_digits(ds),
    ensures
        ({
            let r = spec_run(q, ds);
            &&& r.1 == Seq::<ActionView>::empty()
            &&& collecting(r.0)
            &&& r.0 == ParserView { state: r.0.state, current_param: r.0.current_param, ..q }
            &&& r.0.current_param == digits_value(q.current_param, ds)
        }),
    decreases ds.len(),
{
    if ds.len() > 0 {
        lemma_csi_digits(q, ds.drop_last());
        let b = ds.last();
        assert(0x30 <= ds[ds.len() - 1] <= 0x39);
        let r = spec_run(q, ds.drop_last());
        assert(accumulate_digit(0, b) == (b - 0x30) as i64);
        assert(Seq::<ActionView>::empty() + Seq::<ActionView>::empty() =~= Seq::<ActionView>::empty());
        assert(spec_step(r.0, b).1 =~= Seq::<ActionView>::empty());
    }
}

proof fn lemma_csi_groups(q: ParserView, groups: Seq<Seq<u8>>)
    requires
        collecting(q),
        q.current_param == 0,
        groups.len() >= 1,
        forall|k: int| 0 <= k < groups.len() ==> all_digits(#[trigger] groups[k]),
    ensures
        ({
            let r = spec_run(q, csi_param_bytes(groups));
            &&& r.1 == Seq::<ActionView>::empty()
            &&& collecting(r.0)
            &&& r.0 == ParserView {
                state: r.0.state,
                current_param: r.0.current_param,
                params: r.0.params,
                ..q
            }
            &&& r.0.params == q.params + group_values(groups.drop_last())
            &&& r.0.current_param == digits_value(0, groups.last())
        }),
    decreases groups.len(),
{
    if groups.len() == 1 {
        assert(all_digits(groups[0]));
        lemma_csi_digits(q, groups[0]);
        assert(group_values(groups.drop_last()) =~= Seq::<i64>::empty());
        assert(q.params + Seq::<i64>::empty() =~= q.params);
    } else {
        let front = groups.drop_last();
        assert forall|k: int| 0 <= k < front.len() implies all_digits(#[trigger] front[k]) by {
            assert(front[k] == groups[k]);
        }
        lemma_csi_groups(q, front);
        let r1 = spec_run(q, csi_param_bytes(front));
        let semi = seq![0x3bu8];
        lemma_run_chunks(q, csi_param_bytes(front), semi);
        assert(semi.drop_last() =~= Seq::<u8>::empty());
        assert(spec_run(r1.0, semi) == spec_step(r1.0, 0x3bu8)) by {
            assert(spec_run(r1.0, Seq::<u8>::empty()) == (r1.0, Seq::<ActionView>::empty()));
            assert(Seq::<ActionView>::empty() + spec_step(r1.0, 0x3bu8).1 =~= spec_step(r1.0, 0x3bu8).1);
        }
        let r2 = spec_run(r1.0, semi);
        assert(r2.1 =~= Seq::<ActionView>::empty());
        assert(r2.0.state == State::CsiParam && r2.0.current_param == 0);
        assert(r2.0.params == r1.0.params.push(r1.0.current_param));
        let last = groups.last();
        assert(all_digits(groups[groups.len() - 1]));
        lemma_csi_digits(r2.0, last);
        lemma_run_chunks(q, csi_param_bytes(front) + semi, last);
        assert(csi_param_bytes(groups) == csi_param_bytes(front) + semi + last);
        assert(group_values(groups.drop_last()) =~= group_values(front.drop_last()).push(digits_value(0, front.last())));
        assert(q.params + group_values(groups.drop_last()) =~= (q.params + group_values(front.drop_last())).push(
            digits_value(0, front.last()),
        ));
        assert(Seq::<ActionView>::empty() + Seq::<ActionView>::empty() =~= Seq::<ActionView>::empty());
    }
}

/// A CSI sequence `ESC [ n1 ; n2 ; ... F` reaching the parser in its ground
/// state, its parameters plain decimal numbers, hands the handler one CSI
/// call with those numbers in order (an empty one counting 0), no
/// intermediates and the final byte `F`, after whatever the `ESC` flushed;
/// the parser is back in its ground state.
pub proof fn lemma_csi_sequence(p: ParserView, groups: Seq<Seq<u8>>, f: u8)
    requires
        p.state == State::Ground,
        groups.len() >= 1,
        forall|k: int| 0 <= k < groups.len() ==> all_digits(#[trigger] groups[k]),
        0x40 <= f <= 0x7e,
    ensures
        ({
            let r = spec_run(p, seq![0x1bu8, 0x5bu8] + csi_param_bytes(groups) + seq![f]);
            &&& r.1 == spec_flush(p).1.push(ActionView::Csi(group_values(groups), seq![], f))
            &&& r.0.state == State::Ground
        }),
{
    let e = seq![0x1bu8, 0x5bu8];
    assert(e.drop_last() =~= seq![0x1bu8]);
    assert(seq![0x1bu8].drop_last() =~= Seq::<u8>::empty());
    let r1 = spec_run(p, seq![0x1bu8]);
    assert(r1 == spec_step(p, 0x1bu8)) by {
        assert(spec_run(p, Seq::<u8>::empty()) == (p, Seq::<ActionView>::empty()));
        assert(Seq::<ActionView>::empty() + spec_step(p, 0x1bu8).1 =~= spec_step(p, 0x1bu8).1);
    }
    assert(r1.0.state == State::Escape && r1.0.intermediates == Seq::<u8>::empty());
    let r2 = spec_run(p, e);
    assert(r2.0.state == State::CsiEntry);
    assert(r2.0.params == Seq::<i64>::empty() && r2.0.current_param == 0);
    assert(r2.0.intermediates == Seq::<u8>::empty());
    assert(r2.1 =~= spec_flush(p).1);
    let body = csi_param_bytes(groups);
    lemma_csi_groups(r2.0, groups);
    lemma_run_chunks(p, e, body);
    let r3 = spec_run(p, e + body);
    let last = seq![f];
    lemma_run_chunks(p, e + body, last);
    assert(last.drop_last() =~= Seq::<u8>::empty());
    assert(spec_run(r3.0, last) == spec_step(r3.0, f)) by {
        assert(spec_run(r3.0, Seq::<u8>::empty()) == (r3.0, Seq::<ActionView>::empty()));
        assert(Seq::<ActionView>::empty() + spec_step(r3.0, f).1 =~= spec_step(r3.0, f).1);
    }
    assert(Seq::<i64>::empty() + group_values(groups.drop_last()) =~= group_values(groups.drop_last()));
    assert(group_values(groups.drop_last()).push(digits_value(0, groups.last())) =~= group_values(groups));
    assert(spec_step(r3.0, f).1 =~= seq![ActionView::Csi(group_values(groups), seq![], f)]);
    assert(r3.1 =~= spec_flush(p).1);
    assert(spec_flush(p).1 + seq![ActionView::Csi(group_values(groups), seq![], f)] =~= spec_flush(p).1.push(
        ActionView::Csi(group_values(groups), seq![], f),
    ));
}

proof fn lemma_utf8_byte_ranges(s: u32)
    ensures
        0x80 <= s <= 0x7ff ==> 0xc2 <= leading_byte_width_2(s) <= 0xdf,
        0x800 <= s <= 0xffff ==> 0xe0 <= leading_byte_width_3(s) <= 0xef,
        0x10000 <= s <= 0x10ffff ==> 0xf0 <= leading_byte_width_4(s) <= 0xf4,
        0x80 <= last_continuation_byte(s) <= 0xbf,
        0x80 <= second_last_continuation_byte(s) <= 0xbf,
        0x80 <= third_last_continuation_byte(s) <= 0xbf,
        s <= 0x7f ==> leading_byte_width_1(s) as u32 == s,
{
    assert(0x80 <= s <= 0x7ff ==> 0xc2 <= (0xC0u8 | ((s >> 6u32) & 0x1Fu32) as u8) <= 0xdf) by (bit_vector);
    assert(0x800 <= s <= 0xffff ==> 0xe0 <= (0xE0u8 | ((s >> 12u32) & 0x0Fu32) as u8) <= 0xef) by (bit_vector);
    assert(0x10000 <= s <= 0x10ffff ==> 0xf0 <= (0xF0u8 | ((s >> 18u32) & 0x7u32) as u8) <= 0xf4) by (bit_vector);
    assert(0x80 <= (0x80u8 | (s & 0x3Fu32) as u8) <= 0xbf) by (bit_vector);
    assert(0x80 <= (0x80u8 | ((s >> 6u32) & 0x3Fu32) as u8) <= 0xbf) by (bit_vector);
    assert(0x80 <= (0x80u8 | ((s >> 12u32) & 0x3Fu32) as u8) <= 0xbf) by (bit_vector);
    assert(s <= 0x7f ==> ((s & 0x7Fu32) as u8) as u32 == s) by (bit_vector);
}

/// A byte of a multi-byte UTF-8 sequence, in the ground state, joins the
/// pending bytes.
proof fn lemma_ground_high_byte(p: ParserView, b: u8)
    requires
        p.state == State::Ground,
        0x80 <= b <= 0xf4,
    ensures
        spec_step(p, b) == spec_push_utf8(p, b),
{
}

/// One character's UTF-8 encoding, arriving in the ground state with
/// nothing pending, prints that character and leaves the parser as it was.
pub proof fn lemma_utf8_char(p: ParserView, c: char)
    requires
        p.state == State::Ground,
        p.utf8_pending.len() == 0,
        c as u32 >= 0x80 || (0x20 <= c as u32 <= 0x7e),
    ensures
        spec_run(p, encode_scalar(c as u32)) == (p, seq![ActionView::Print(c)]),
{
    let s = c as u32;
    assert(p.utf8_pending =~= Seq::<u8>::empty());
    lemma_utf8_byte_ranges(s);
    let e = encode_scalar(s);
    broadcast use char_is_scalar;
    assert(is_scalar(s));
    encode_utf8_valid_utf8(seq![c]);
    encode_utf8_decode_utf8(seq![c]);
    assert(encode_utf8(seq![c]) =~= e) by {
        assert(seq![c].drop_first() =~= Seq::<char>::empty());
        assert(encode_scalar(seq![c][0] as u32) + encode_utf8(Seq::<char>::empty()) =~= e);
    }
    assert(valid_utf8(e));
    assert(decode_utf8(e) == seq![c]);
    let p0 = spec_run(p, e.subrange(0, 0));
    assert(e.subrange(0, 0) =~= Seq::<u8>::empty());
    if s <= 0x7f {
        assert(e.len() == 1);
        assert(e.drop_last() =~= Seq::<u8>::empty());
        let b = e[0];
        assert(b as u32 == s);
        assert((b as char) == c);
        assert(spec_run(p, e) == spec_step(p, b));
    } else {
        let q0 = ParserView { utf8_pending: seq![e[0]], ..p };
        lemma_ground_high_byte(p, e[0]);
        assert(!valid_utf8(seq![e[0]]));
        assert(p.utf8_pending.push(e[0]) =~= seq![e[0]]);
        assert(spec_step(p, e[0]) == (q0, Seq::<ActionView>::empty()));
        assert(e.subrange(0, 1) =~= seq![e[0]]);
        assert(e.subrange(0, 1).drop_last() =~= Seq::<u8>::empty());
        assert(spec_run(p, e.subrange(0, 1)) == (q0, Seq::<ActionView>::empty()));
        if s <= 0x7ff {
            assert(e.len() == 2);
            lemma_ground_high_byte(q0, e[1]);
            assert(q0.utf8_pending.push(e[1]) =~= e);
            assert(e.drop_last() =~= e.subrange(0, 1));
            assert(ParserView { utf8_pending: seq![], ..q0 } == p);
            assert(prints(seq![c]) =~= seq![ActionView::Print(c)]);
        } else {
            let q1 = ParserView { utf8_pending: seq![e[0], e[1]], ..p };
            lemma_ground_high_byte(q0, e[1]);
            assert(q0.utf8_pending.push(e[1]) =~= seq![e[0], e[1]]);
            assert(!valid_utf8(seq![e[0], e[1]]));
            assert(e.subrange(0, 2).drop_last() =~= e.subrange(0, 1));
            assert(spec_run(p, e.subrange(0, 2)) == (q1, Seq::<ActionView>::empty()));
            if s <= 0xffff {
                assert(e.len() == 3);
                lemma_ground_high_byte(q1, e[2]);
                assert(q1.utf8_pending.push(e[2]) =~= e);
                assert(e.drop_last() =~= e.subrange(0, 2));
                assert(ParserView { utf8_pending: seq![], ..q1 } == p);
                assert(prints(seq![c]) =~= seq![ActionView::Print(c)]);
            } else {
                assert(e.len() == 4);
                let q2 = ParserView { utf8_pending: seq![e[0], e[1], e[2]], ..p };
                lemma_ground_high_byte(q1, e[2]);
                assert(q1.utf8_pending.push(e[2]) =~= seq![e[0], e[1], e[2]]);
                assert(!valid_utf8(seq![e[0], e[1], e[2]]));
                assert(e.subrange(0, 3).drop_last() =~= e.subrange(0, 2));
                assert(spec_run(p, e.subrange(0, 3)) == (q2, Seq::<ActionView>::empty()));
                lemma_ground_high_byte(q2, e[3]);
                assert(q2.utf8_pending.push(e[3]) =~= e);
                assert(e.drop_last() =~= e.subrange(0, 3));
                assert(ParserView { utf8_pending: seq![], ..q2 } == p);
                assert(prints(seq![c]) =~= seq![ActionView::Print(c)]);
            }
        }
    }
}

proof fn lemma_prints_cons(c: char, rest: Seq<char>)
    ensures
        prints(seq![c] + rest) == seq![ActionView::Print(c)] + prints(rest),
{
    let lhs = prints(seq![c] + rest);
    let rhs = seq![ActionView::Print(c)] + prints(rest);
    assert forall|i: int| 0 <= i < lhs.len() implies #[trigger] lhs[i] == rhs[i] by {
        if i > 0 {
            assert((seq![c] + rest)[i] == rest[i - 1]);
        }
    }
    assert(lhs =~= rhs);
}

/// UTF-8 text without control characters, arriving in the ground state with
/// nothing pending, is printed character for character, and the parser ends
/// as it began, however the bytes are cut into reads.
pub proof fn lemma_utf8_text(p: ParserView, chars: Seq<char>)
    requires
        p.state == State::Ground,
        p.utf8_pending.len() == 0,
        forall|i: int| 0 <= i < chars.len() ==> #[trigger] chars[i] as u32 >= 0x80 || (0x20 <= chars[i] as u32 <= 0x7e),
    ensures
        spec_run(p, encode_utf8(chars)) == (p, prints(chars)),
    decreases chars.len(),
{
    if chars.len() == 0 {
        assert(encode_utf8(chars) =~= Seq::<u8>::empty());
        assert(prints(chars) =~= Seq::<ActionView>::empty());
    } else {
        let c = chars[0];
        let rest = chars.drop_first();
        assert(c as u32 >= 0x80 || (0x20 <= c as u32 <= 0x7e));
        lemma_utf8_char(p, c);
        assert forall|i: int| 0 <= i < rest.len() implies #[trigger] rest[i] as u32 >= 0x80 || (0x20 <= rest[i] as u32 <= 0x7e) by {
            assert(rest[i] == chars[i + 1]);
        }
        lemma_utf8_text(p, rest);
        lemma_run_chunks(p, encode_scalar(c as u32), encode_utf8(rest));
        assert(chars =~= seq![c] + rest);
        lemma_prints_cons(c, rest);
    }
}

/// Handler trait for terminal events. Each call moves the handler's model
/// as `handled` says for the matching action.
pub trait TermHandler {
    /// What the handler's state means.
    type Model;

    spec fn model(&self) -> Self::Model;

    /// The model after one handler call.
    spec fn handled(m: Self::Model, a: ActionView) -> Self::Model;

    /// The condition under which the handler accepts calls.
    spec fn handler_ready(&self) -> bool;

    fn print(&mut self, c: char)
        requires
            old(self).handler_ready(),
        ensures
            final(self).handler_ready(),
            final(self).model() == Self::handled(old(self).model(), ActionView::Print(c)),
    ;

    fn execute(&mut self, byte: u8)
        requires
            old(self).handler_ready(),
        ensures
            final(self).handler_ready(),
            final(self).model() == Self::handled(old(self).model(), ActionView::Execute(byte)),
    ;

    fn esc_dispatch(&mut self, intermediates: &[u8], final_byte: u8)
        requires
            old(self).handler_ready(),
        ensures
            final(self).handler_ready(),
            final(self).model() == Self::handled(old(self).model(), ActionView::Esc(intermediates@, final_byte)),
    ;

    fn csi_dispatch(&mut self, params: &[i64], intermediates: &[u8], final_byte: u8)
        requires
            old(self).handler_ready(),
        ensures
            final(self).handler_ready(),
            final(self).model() == Self::handled(old(self).model(), ActionView::Csi(params@, intermediates@, final_byte)),
    ;

    fn osc_dispatch(&mut self, data: &str)
        requires
            old(self).handler_ready(),
        ensures
            final(self).handler_ready(),
            final(self).model() == Self::handled(old(self).model(), ActionView::Osc(data@)),
    ;

    fn dcs_dispatch(&mut self, data: &str)
        requires
            old(self).handler_ready(),
        ensures
            final(self).handler_ready(),
            final(self).model() == Self::handled(old(self).model(), ActionView::Dcs(data@)),
    ;
}

/// A handler's model after a sequence of calls, made in order.
pub open spec fn handled_all<H: TermHandler>(m: H::Model, acts: Seq<ActionView>) -> H::Model
    decreases acts.len(),
{
    if acts.len() == 0 {
        m
    } else {
        H::handled(handled_all::<H>(m, acts.drop_last()), acts.last())
    }
}

/// Make one handler call.
pub fn dispatch<H: TermHandler>(handler: &mut H, action: &TermAction)
    requires
        old(handler).handler_ready(),
    ensures
        final(handler).handler_ready(),
        final(handler).model() == H::handled(old(handler).model(), action@),
{
    match action {
        TermAction::Print(c) => handler.print(*c),
        TermAction::Execute(b) => handler.execute(*b),
        TermAction::EscDispatch { intermediates, final_byte } => handler.esc_dispatch(
            intermediates.as_slice(),
            *final_byte,
        ),
        TermAction::CsiDispatch { params, intermediates, final_byte } => handler.csi_dispatch(
            params.as_slice(),
            intermediates.as_slice(),
            *final_byte,
        ),
        TermAction::OscDispatch(s) => handler.osc_dispatch(s.as_str()),
        TermAction::DcsDispatch(s) => handler.dcs_dispatch(s.as_str()),
    }
}

fn copy_bytes(v: &Vec<u8>) -> (r: Vec<u8>)
    ensures
        r@ == v@,
{
    let mut r: Vec<u8> = Vec::new();
    let mut i: usize = 0;
    while i < v.len()
        invariant
            i <= v.len(),
            r@ == v@.subrange(0, i as int),
        decreases v.len() - i,
    {
        r.push(v[i]);
        i = i + 1;
    }
    assert(r@ =~= v@);
    r
}

fn copy_params(v: &Vec<i64>) -> (r: Vec<i64>)
    ensures
        r@ == v@,
{
    let mut r: Vec<i64> = Vec::new();
    let mut i: usize = 0;
    while i < v.len()
        invariant
            i <= v.len(),
            r@ == v@.subrange(0, i as int),
        decreases v.len() - i,
    {
        r.push(v[i]);
        i = i + 1;
    }
    assert(r@ =~= v@);
    r
}

/// Append one `Print` per character of `s`.
fn push_prints(s: &str, out: &mut Vec<TermAction>)
    ensures
        action_views(final(out)@) == action_views(old(out)@) + prints(s@),
{
    let n = s.unicode_len();
    let mut i: usize = 0;
    assert(prints(s@.subrange(0, 0)).len() == 0);
    assert(out@ == old(out)@);
    assert(action_views(out@) =~= action_views(old(out)@) + prints(s@.subrange(0, 0)));
    while i < n
        invariant
            n == s@.len(),
            i <= n,
            action_views(out@) == action_views(old(out)@) + prints(s@.subrange(0, i as int)),
        decreases n - i,
    {
        let ghost before = out@;
        out.push(TermAction::Print(s.get_char(i)));
        proof {
            assert(action_views(out@) =~= action_views(before).push(ActionView::Print(s@[i as int])));
            assert(s@.subrange(0, i + 1) =~= s@.subrange(0, i as int).push(s@[i as int]));
            assert(prints(s@.subrange(0, i + 1)) =~= prints(s@.subrange(0, i as int)).push(
                ActionView::Print(s@[i as int]),
            ));
        }
        i = i + 1;
    }
    assert(s@.subrange(0, n as int) =~= s@);
}

/// Push one action, keeping the views in step.
fn emit(out: &mut Vec<TermAction>, a: TermAction)
    ensures
        action_views(final(out)@) == action_views(old(out)@).push(a@),
{
    out.push(a);
    assert(action_views(out@) =~= action_views(old(out)@).push(a@));
}

/// `(c * 10) + d` clamped to `i64`, as `saturating_mul(10).saturating_add(d)` computes it.
fn saturating_digit(c: i64, d: u8) -> (r: i64)
    requires
        0x30 <= d <= 0x39,
    ensures
        r == accumulate_digit(c, d),
{
    let m: i128 = (c as i128) * 10;
    let m2: i128 = if m > i64::MAX as i128 {
        i64::MAX as i128
    } else if m < i64::MIN as i128 {
        i64::MIN as i128
    } else {
        m
    };
    let s: i128 = m2 + ((d - 0x30) as i128);
    if s > i64::MAX as i128 {
        i64::MAX
    } else if s < i64::MIN as i128 {
        i64::MIN
    } else {
        s as i64
    }
}

impl Parser {
    pub fn new() -> (p: Self)
        ensures
            p@ == initial_parser(),
    {
        let p = Parser {
            state: State::Ground,
            params: Vec::with_capacity(16),
            intermediates: Vec::new(),
            current_param: 0,
            osc_buf: Vec::new(),
            dcs_buf: Vec::new(),
            ignore_flag: false,
            utf8_pending: Vec::new(),
        };
        assert(p@ =~= initial_parser());
        p
    }

    fn flush_utf8(&mut self, out: &mut Vec<TermAction>)
        ensures
            final(self)@ == spec_flush(old(self)@).0,
            action_views(final(out)@) == action_views(old(out)@) + spec_flush(old(self)@).1,
    {
        if self.utf8_pending.len() == 0 {
            assert(action_views(out@) =~= action_views(out@) + seq![]);
            return;
        }
        let text = lossy_string(self.utf8_pending.as_slice());
        self.utf8_pending = Vec::new();
        push_prints(text.as_str(), out);
        assert(self@ =~= spec_flush(old(self)@).0);
    }

    fn push_utf8(&mut self, byte: u8, out: &mut Vec<TermAction>)
        ensures
            final(self)@ == spec_push_utf8(old(self)@, byte).0,
            action_views(final(out)@) == action_views(old(out)@) + spec_push_utf8(
                old(self)@,
                byte,
            ).1,
    {
        self.utf8_pending.push(byte);
        match strict_string(self.utf8_pending.as_slice()) {
            Some(text) => {
                push_prints(text.as_str(), out);
                self.utf8_pending = Vec::new();
                assert(self@ =~= spec_push_utf8(old(self)@, byte).0);
            },
            None => {
                if self.utf8_pending.len() >= 4 {
                    let text = lossy_string(self.utf8_pending.as_slice());
                    self.utf8_pending = Vec::new();
                    push_prints(text.as_str(), out);
                    assert(self@ =~= spec_push_utf8(old(self)@, byte).0);
                } else {
                    assert(action_views(out@) =~= action_views(out@) + seq![]);
                    assert(self@ =~= spec_push_utf8(old(self)@, byte).0);
                }
            },
        }
    }

    /// The handler calls for a block of input, in order; the parser moves on accordingly.
    pub fn advance(&mut self, data: &[u8]) -> (actions: Vec<TermAction>)
        ensures
            final(self)@ == spec_run(old(self)@, data@).0,
            action_views(actions@) == spec_run(old(self)@, data@).1,
    {
        let mut out: Vec<TermAction> = Vec::new();
        let mut i: usize = 0;
        while i < data.len()
            invariant
                i <= data.len(),
                self@ == spec_run(old(self)@, data@.subrange(0, i as int)).0,
                action_views(out@) == spec_run(old(self)@, data@.subrange(0, i as int)).1,
            decreases data.len() - i,
        {
            self.process_byte(data[i], &mut out);
            assert(data@.subrange(0, i + 1).drop_last() =~= data@.subrange(0, i as int));
            i = i + 1;
        }
        assert(data@.subrange(0, data.len() as int) =~= data@);
        out
    }

    /// Feed a block of input; every handler call happens in the order `advance` lists it.
    /// Feed a block of input: the handler gets every call the bytes amount
    /// to, in order.
    pub fn process<H: TermHandler>(&mut self, data: &[u8], handler: &mut H)
        requires
            old(handler).handler_ready(),
        ensures
            final(self)@ == spec_run(old(self)@, data@).0,
            final(handler).handler_ready(),
            final(handler).model() == handled_all::<H>(old(handler).model(), spec_run(old(self)@, data@).1),
    {
        let actions = self.advance(data);
        let ghost acts = action_views(actions@);
        let ghost m0 = handler.model();
        let mut i: usize = 0;
        assert(acts.subrange(0, 0) =~= Seq::<ActionView>::empty());
        while i < actions.len()
            invariant
                i <= actions.len(),
                acts == action_views(actions@),
                handler.handler_ready(),
                handler.model() == handled_all::<H>(m0, acts.subrange(0, i as int)),
            decreases actions.len() - i,
        {
            dispatch(handler, &actions[i]);
            proof {
                assert(acts.subrange(0, i + 1).drop_last() =~= acts.subrange(0, i as int));
                assert(acts[i as int] == actions@[i as int]@);
            }
            i = i + 1;
        }
        assert(acts.subrange(0, actions@.len() as int) =~= acts);
    }

    fn reset_csi(&mut self)
        ensures
            final(self)@ == reset_csi(old(self)@),
    {
        self.params.clear();
        self.intermediates.clear();
        self.current_param = 0;
        assert(self@ =~= reset_csi(old(self)@));
    }

    fn finish_csi(&mut self, out: &mut Vec<TermAction>, final_byte: u8)
        ensures
            final(self)@ == spec_finish_csi(old(self)@, final_byte).0,
            action_views(final(out)@) == action_views(old(out)@) + spec_finish_csi(
                old(self)@,
                final_byte,
            ).1,
    {
        self.params.push(self.current_param);
        let params = copy_params(&self.params);
        let intermediates = copy_bytes(&self.intermediates);
        emit(out, TermAction::CsiDispatch { params, intermediates, final_byte });
        self.reset_csi();
        self.state = State::Ground;
        assert(self@ =~= spec_finish_csi(old(self)@, final_byte).0);
    }

    fn finish_dcs(&mut self, out: &mut Vec<TermAction>)
        ensures
            final(self)@ == spec_finish_dcs(old(self)@).0,
            action_views(final(out)@) == action_views(old(out)@) + spec_finish_dcs(old(self)@).1,
    {
        let mut chars: Vec<char> = Vec::new();
        let mut i: usize = 0;
        while i < self.intermediates.len()
            invariant
                i <= self.intermediates.len(),
                chars@ == bytes_as_chars(self.intermediates@.subrange(0, i as int)),
            decreases self.intermediates.len() - i,
        {
            chars.push(self.intermediates[i] as char);
            assert(bytes_as_chars(self.intermediates@.subrange(0, i + 1)) =~= bytes_as_chars(
                self.intermediates@.subrange(0, i as int),
            ).push(self.intermediates@[i as int] as char));
            i = i + 1;
        }
        assert(self.intermediates@.subrange(0, self.intermediates.len() as int)
            =~= self.intermediates@);
        let body = lossy_string(self.dcs_buf.as_slice());
        let body_chars = crate::text::str_chars(body.as_str());
        let mut j: usize = 0;
        let ghost prefix = chars@;
        while j < body_chars.len()
            invariant
                j <= body_chars.len(),
                chars@ == prefix + body_chars@.subrange(0, j as int),
            decreases body_chars.len() - j,
        {
            chars.push(body_chars[j]);
            assert(prefix + body_chars@.subrange(0, j + 1) =~= (prefix + body_chars@.subrange(
                0,
                j as int,
            )).push(body_chars@[j as int]));
            j = j + 1;
        }
        assert(body_chars@.subrange(0, body_chars.len() as int) =~= body_chars@);
        let data = chars_to_string(chars.as_slice());
        emit(out, TermAction::DcsDispatch(data));
        self.dcs_buf.clear();
        self.intermediates.clear();
        self.params.clear();
        self.current_param = 0;
        self.state = State::Ground;
        assert(self@ =~= spec_finish_dcs(old(self)@).0);
        assert(action_views(out@) =~= action_views(old(out)@) + spec_finish_dcs(old(self)@).1);
    }

    /// ESC/CAN/SUB while inside CSI — abort the current sequence and restart.
    fn anywhere(&mut self, byte: u8, out: &mut Vec<TermAction>)
        ensures
            final(self)@ == spec_anywhere(old(self)@, byte).0,
            action_views(final(out)@) == action_views(old(out)@) + spec_anywhere(
                old(self)@,
                byte,
            ).1,
    {
        if byte == 0x18 || byte == 0x1a {
            self.reset_csi();
            self.dcs_buf.clear();
            self.intermediates.clear();
            emit(out, TermAction::Execute(byte));
            self.state = State::Ground;
        } else if byte == 0x1b {
            self.reset_csi();
            self.dcs_buf.clear();
            self.intermediates.clear();
            self.state = State::Escape;
        }
        assert(self@ =~= spec_anywhere(old(self)@, byte).0);
        assert(action_views(out@) =~= action_views(old(out)@) + spec_anywhere(old(self)@, byte).1);
    }

    fn process_byte(&mut self, byte: u8, out: &mut Vec<TermAction>)
        ensures
            final(self)@ == spec_step(old(self)@, byte).0,
            action_views(final(out)@) == action_views(old(out)@) + spec_step(old(self)@, byte).1,
    {
        match self.state {
            State::Ground => self.ground(byte, out),
            State::Escape => self.escape(byte, out),
            State::EscapeIntermediate => self.escape_intermediate(byte, out),
            State::CsiEntry => self.csi_entry(byte, out),
            State::CsiParam => self.csi_param(byte, out),
            State::CsiIntermediate => self.csi_intermediate(byte, out),
            State::CsiIgnore => self.csi_ignore(byte, out),
            State::OscString => self.osc_string(byte, out),
            State::OscEsc => self.osc_esc(byte, out),
            State::DcsEntry => self.dcs_entry(byte, out),
            State::DcsParam => self.dcs_param(byte, out),
            State::DcsIntermediate => self.dcs_intermediate(byte, out),
            State::DcsPassthrough => self.dcs_passthrough(byte, out),
            State::DcsEsc => self.dcs_esc(byte, out),
            State::DcsIgnore => self.dcs_ignore(byte, out),
            State::SosPmApcString => self.sos_pm_apc_string(byte, out),
        }
    }

    fn ground(&mut self, byte: u8, out: &mut Vec<TermAction>)
        requires
            old(self)@.state == State::Ground,
        ensures
            final(self)@ == spec_ground(old(self)@, byte).0,
            action_views(final(out)@) == action_views(old(out)@) + spec_ground(old(self)@, byte).1,
    {
        let ghost o = out@;
        if byte <= 0x1f || byte == 0x7f {
            if byte == 0x1b {
                self.flush_utf8(out);
                self.state = State::Escape;
                self.intermediates.clear();
                assert(self@ =~= spec_ground(old(self)@, byte).0);
            } else {
                self.flush_utf8(out);
                let ghost mid = out@;
                emit(out, TermAction::Execute(byte));
                assert(action_views(out@) =~= action_views(o) + spec_ground(old(self)@, byte).1);
            }
        } else if byte <= 0x7e {
            self.flush_utf8(out);
            emit(out, TermAction::Print(byte as char));
            assert(action_views(out@) =~= action_views(o) + spec_ground(old(self)@, byte).1);
        } else if 0x80 <= byte && byte <= 0xf4 {
            self.push_utf8(byte, out);
        } else {
            assert(action_views(out@) =~= action_views(o) + seq![]);
        }
    }

    fn escape(&mut self, byte: u8, out: &mut Vec<TermAction>)
        requires
            old(self)@.state == State::Escape,
        ensures
            final(self)@ == spec_escape(old(self)@, byte).0,
            action_views(final(out)@) == action_views(old(out)@) + spec_escape(old(self)@, byte).1,
    {
        let ghost o = out@;
        if (byte <= 0x17 || byte == 0x19 || (0x1c <= byte && byte <= 0x1f)) || byte == 0x7f {
            emit(out, TermAction::Execute(byte));
        } else if 0x20 <= byte && byte <= 0x2f {
            self.intermediates.push(byte);
            self.state = State::EscapeIntermediate;
        } else if 0x30 <= byte && byte <= 0x4f {
            if byte == 0x4f {
                self.intermediates.push(byte);
                self.state = State::EscapeIntermediate;
            } else {
                let intermediates = copy_bytes(&self.intermediates);
                emit(out, TermAction::EscDispatch { intermediates, final_byte: byte });
                self.state = State::Ground;
            }
        } else if byte == 0x50 {
            self.state = State::DcsEntry;
            self.params.clear();
            self.current_param = 0;
        } else if (0x51 <= byte && byte <= 0x57) || byte == 0x5e || byte == 0x5f {
            self.state = State::SosPmApcString;
        } else if byte == 0x5b {
            self.reset_csi();
            self.state = State::CsiEntry;
        } else if byte == 0x5d {
            self.state = State::OscString;
            self.osc_buf.clear();
        } else if byte == 0x58 || byte == 0x5a || byte == 0x5c || (0x60 <= byte && byte <= 0x7e) {
            let intermediates = copy_bytes(&self.intermediates);
            emit(out, TermAction::EscDispatch { intermediates, final_byte: byte });
        }
        assert(self@ =~= spec_escape(old(self)@, byte).0);
        assert(action_views(out@) =~= action_views(o) + spec_escape(old(self)@, byte).1);
    }

    fn escape_intermediate(&mut self, byte: u8, out: &mut Vec<TermAction>)
        requires
            old(self)@.state == State::EscapeIntermediate,
        ensures
            final(self)@ == spec_escape_intermediate(old(self)@, byte).0,
            action_views(final(out)@) == action_views(old(out)@) + spec_escape_intermediate(
                old(self)@,
                byte,
            ).1,
    {
        let ghost o = out@;
        if (byte <= 0x17 || byte == 0x19 || (0x1c <= byte && byte <= 0x1f)) || byte == 0x7f {
            emit(out, TermAction::Execute(byte));
        } else if 0x20 <= byte && byte <= 0x2f {
            self.intermediates.push(byte);
        } else if 0x30 <= byte && byte <= 0x7e {
            let intermediates = copy_bytes(&self.intermediates);
            emit(out, TermAction::EscDispatch { intermediates, final_byte: byte });
            self.state = State::Ground;
        }
        assert(self@ =~= spec_escape_intermediate(old(self)@, byte).0);
        assert(action_views(out@) =~= action_views(o) + spec_escape_intermediate(old(self)@, byte).1);
    }

    fn csi_entry(&mut self, byte: u8, out: &mut Vec<TermAction>)
        requires
            old(self)@.state == State::CsiEntry,
        ensures
            final(self)@ == spec_csi_entry(old(self)@, byte).0,
            action_views(final(out)@) == action_views(old(out)@) + spec_csi_entry(
                old(self)@,
                byte,
            ).1,
    {
        let ghost o = out@;
        if (byte <= 0x17 || byte == 0x19 || (0x1c <= byte && byte <= 0x1f)) || byte == 0x7f {
            emit(out, TermAction::Execute(byte));
        } else if 0x20 <= byte && byte <= 0x2f {
            self.intermediates.push(byte);
            self.state = State::CsiIntermediate;
        } else if byte == 0x3a {
            self.state = State::CsiIgnore;
        } else if 0x30 <= byte && byte <= 0x39 {
            self.current_param = (byte - 0x30) as i64;
            self.state = State::CsiParam;
        } else if byte == 0x3b {
            self.params.push(self.current_param);
            self.current_param = 0;
            self.state = State::CsiParam;
        } else if 0x3c <= byte && byte <= 0x3f {
            self.intermediates.push(byte);
            self.state = State::CsiParam;
        } else if 0x40 <= byte && byte <= 0x7e {
            self.finish_csi(out, byte);
            return;
        } else {
            self.anywhere(byte, out);
            return;
        }
        assert(self@ =~= spec_csi_entry(old(self)@, byte).0);
        assert(action_views(out@) =~= action_views(o) + spec_csi_entry(old(self)@, byte).1);
    }

    fn csi_param(&mut self, byte: u8, out: &mut Vec<TermAction>)
        requires
            old(self)@.state == State::CsiParam,
        ensures
            final(self)@ == spec_csi_param(old(self)@, byte).0,
            action_views(final(out)@) == action_views(old(out)@) + spec_csi_param(
                old(self)@,
                byte,
            ).1,
    {
        let ghost o = out@;
        if (byte <= 0x17 || byte == 0x19 || (0x1c <= byte && byte <= 0x1f)) || byte == 0x7f {
            emit(out, TermAction::Execute(byte));
        } else if 0x20 <= byte && byte <= 0x2f {
            self.intermediates.push(byte);
            self.state = State::CsiIntermediate;
        } else if 0x30 <= byte && byte <= 0x39 {
            self.current_param = saturating_digit(self.current_param, byte);
        } else if byte == 0x3b {
            self.params.push(self.current_param);
            self.current_param = 0;
        } else if byte == 0x3a {
            self.state = State::CsiIgnore;
        } else if 0x3c <= byte && byte <= 0x3f {
            self.intermediates.push(byte);
        } else if 0x40 <= byte && byte <= 0x7e {
            self.finish_csi(out, byte);
            return;
        } else {
            self.anywhere(byte, out);
            return;
        }
        assert(self@ =~= spec_csi_param(old(self)@, byte).0);
        assert(action_views(out@) =~= action_views(o) + spec_csi_param(old(self)@, byte).1);
    }

    fn csi_intermediate(&mut self, byte: u8, out: &mut Vec<TermAction>)
        requires
            old(self)@.state == State::CsiIntermediate,
        ensures
            final(self)@ == spec_csi_intermediate(old(self)@, byte).0,
            action_views(final(out)@) == action_views(old(out)@) + spec_csi_intermediate(
                old(self)@,
                byte,
            ).1,
    {
        let ghost o = out@;
        if (byte <= 0x17 || byte == 0x19 || (0x1c <= byte && byte <= 0x1f)) || byte == 0x7f {
            emit(out, TermAction::Execute(byte));
        } else if 0x20 <= byte && byte <= 0x2f {
            self.intermediates.push(byte);
        } else if 0x30 <= byte && byte <= 0x3f {
            self.state = State::CsiIgnore;
        } else if 0x40 <= byte && byte <= 0x7e {
            self.finish_csi(out, byte);
            return;
        } else {
            self.anywhere(byte, out);
            return;
        }
        assert(self@ =~= spec_csi_intermediate(old(self)@, byte).0);
        assert(action_views(out@) =~= action_views(o) + spec_csi_intermediate(old(self)@, byte).1);
    }

    fn csi_ignore(&mut self, byte: u8, out: &mut Vec<TermAction>)
        requires
            old(self)@.state == State::CsiIgnore,
        ensures
            final(self)@ == spec_csi_ignore(old(self)@, byte).0,
            action_views(final(out)@) == action_views(old(out)@) + spec_csi_ignore(
                old(self)@,
                byte,
            ).1,
    {
        let ghost o = out@;
        if (byte <= 0x17 || byte == 0x19 || (0x1c <= byte && byte <= 0x1f)) || byte == 0x7f {
            emit(out, TermAction::Execute(byte));
        } else if 0x20 <= byte && byte <= 0x3f {
        } else if 0x40 <= byte && byte <= 0x7e {
            self.reset_csi();
            self.state = State::Ground;
        } else {
            self.anywhere(byte, out);
            return;
        }
        assert(self@ =~= spec_csi_ignore(old(self)@, byte).0);
        assert(action_views(out@) =~= action_views(o) + spec_csi_ignore(old(self)@, byte).1);
    }

    fn osc_string(&mut self, byte: u8, out: &mut Vec<TermAction>)
        requires
            old(self)@.state == State::OscString,
        ensures
            final(self)@ == spec_osc_string(old(self)@, byte).0,
            action_views(final(out)@) == action_views(old(out)@) + spec_osc_string(
                old(self)@,
                byte,
            ).1,
    {
        let ghost o = out@;
        if (byte <= 0x06 || (0x08 <= byte && byte <= 0x17) || byte == 0x19 || (0x1c <= byte
            && byte <= 0x1f)) || byte == 0x7f {
            emit(out, TermAction::Execute(byte));
        } else if byte == 0x07 || byte == 0x9c {
            let s = lossy_string(self.osc_buf.as_slice());
            emit(out, TermAction::OscDispatch(s));
            self.state = State::Ground;
        } else if byte == 0x1b {
            self.state = State::OscEsc;
        } else if byte == 0x18 || byte == 0x1a {
            emit(out, TermAction::Execute(byte));
            self.state = State::Ground;
            self.osc_buf.clear();
        } else {
            self.osc_buf.push(byte);
        }
        assert(self@ =~= spec_osc_string(old(self)@, byte).0);
        assert(action_views(out@) =~= action_views(o) + spec_osc_string(old(self)@, byte).1);
    }

    fn osc_esc(&mut self, byte: u8, out: &mut Vec<TermAction>)
        requires
            old(self)@.state == State::OscEsc,
        ensures
            final(self)@ == spec_osc_esc(old(self)@, byte).0,
            action_views(final(out)@) == action_views(old(out)@) + spec_osc_esc(old(self)@, byte).1,
    {
        let ghost o = out@;
        if byte == 0x5c {
            let s = lossy_string(self.osc_buf.as_slice());
            emit(out, TermAction::OscDispatch(s));
            self.osc_buf.clear();
            self.state = State::Ground;
        } else {
            self.osc_buf.push(0x1b);
            self.osc_buf.push(byte);
            self.state = State::OscString;
        }
        assert(self@ =~= spec_osc_esc(old(self)@, byte).0);
        assert(action_views(out@) =~= action_views(o) + spec_osc_esc(old(self)@, byte).1);
    }

    fn dcs_entry(&mut self, byte: u8, out: &mut Vec<TermAction>)
        requires
            old(self)@.state == State::DcsEntry,
        ensures
            final(self)@ == spec_dcs_entry(old(self)@, byte).0,
            action_views(final(out)@) == action_views(old(out)@) + spec_dcs_entry(
                old(self)@,
                byte,
            ).1,
    {
        let ghost o = out@;
        if byte <= 0x17 || byte == 0x19 || (0x1c <= byte && byte <= 0x1f) {
            emit(out, TermAction::Execute(byte));
        } else if 0x20 <= byte && byte <= 0x2f {
            self.intermediates.push(byte);
            self.state = State::DcsIntermediate;
        } else if byte == 0x3a {
            self.state = State::DcsIgnore;
        } else if 0x30 <= byte && byte <= 0x39 {
            self.current_param = (byte - 0x30) as i64;
            self.state = State::DcsParam;
        } else if byte == 0x3b {
            self.params.push(self.current_param);
            self.current_param = 0;
            self.state = State::DcsParam;
        } else if 0x3c <= byte && byte <= 0x3f {
            self.intermediates.push(byte);
            self.state = State::DcsParam;
        } else if 0x40 <= byte && byte <= 0x7e {
            self.state = State::DcsIgnore;
        }
        assert(self@ =~= spec_dcs_entry(old(self)@, byte).0);
        assert(action_views(out@) =~= action_views(o) + spec_dcs_entry(old(self)@, byte).1);
    }

    fn dcs_param(&mut self, byte: u8, out: &mut Vec<TermAction>)
        requires
            old(self)@.state == State::DcsParam,
        ensures
            final(self)@ == spec_dcs_param(old(self)@, byte).0,
            action_views(final(out)@) == action_views(old(out)@) + spec_dcs_param(
                old(self)@,
                byte,
            ).1,
    {
        let ghost o = out@;
        if byte <= 0x17 || byte == 0x19 || (0x1c <= byte && byte <= 0x1f) {
            emit(out, TermAction::Execute(byte));
        } else if 0x20 <= byte && byte <= 0x2f {
            self.intermediates.push(byte);
            self.state = State::DcsIntermediate;
        } else if 0x30 <= byte && byte <= 0x39 {
            self.current_param = saturating_digit(self.current_param, byte);
        } else if byte == 0x3b {
            self.params.push(self.current_param);
            self.current_param = 0;
        } else if byte == 0x3a || (0x3c <= byte && byte <= 0x3f) {
            self.intermediates.push(byte);
        } else if 0x40 <= byte && byte <= 0x7e {
            self.state = State::DcsIgnore;
        }
        assert(self@ =~= spec_dcs_param(old(self)@, byte).0);
        assert(action_views(out@) =~= action_views(o) + spec_dcs_param(old(self)@, byte).1);
    }

    fn dcs_intermediate(&mut self, byte: u8, out: &mut Vec<TermAction>)
        requires
            old(self)@.state == State::DcsIntermediate,
        ensures
            final(self)@ == spec_dcs_intermediate(old(self)@, byte).0,
            action_views(final(out)@) == action_views(old(out)@) + spec_dcs_intermediate(
                old(self)@,
                byte,
            ).1,
    {
        let ghost o = out@;
        if byte <= 0x17 || byte == 0x19 || (0x1c <= byte && byte <= 0x1f) {
            emit(out, TermAction::Execute(byte));
        } else if 0x30 <= byte && byte <= 0x3f {
            self.state = State::DcsIgnore;
        } else if 0x40 <= byte && byte <= 0x7e {
            self.state = State::DcsPassthrough;
            self.dcs_buf.clear();
        }
        assert(self@ =~= spec_dcs_intermediate(old(self)@, byte).0);
        assert(action_views(out@) =~= action_views(o) + spec_dcs_intermediate(old(self)@, byte).1);
    }

    fn dcs_passthrough(&mut self, byte: u8, out: &mut Vec<TermAction>)
        requires
            old(self)@.state == State::DcsPassthrough,
        ensures
            final(self)@ == spec_dcs_passthrough(old(self)@, byte).0,
            action_views(final(out)@) == action_views(old(out)@) + spec_dcs_passthrough(
                old(self)@,
                byte,
            ).1,
    {
        let ghost o = out@;
        if (byte <= 0x06 || (0x08 <= byte && byte <= 0x17) || byte == 0x19 || (0x1c <= byte
            && byte <= 0x1f)) || byte == 0x7f {
            emit(out, TermAction::Execute(byte));
        } else if byte == 0x1b {
            self.state = State::DcsEsc;
        } else if byte == 0x18 || byte == 0x1a {
            emit(out, TermAction::Execute(byte));
            self.dcs_buf.clear();
            self.intermediates.clear();
            self.state = State::Ground;
        } else if byte == 0x9c {
            self.finish_dcs(out);
            return;
        } else if byte == 0x07 {
            self.dcs_buf.clear();
            self.intermediates.clear();
            self.state = State::Ground;
        } else {
            self.dcs_buf.push(byte);
        }
        assert(self@ =~= spec_dcs_passthrough(old(self)@, byte).0);
        assert(action_views(out@) =~= action_views(o) + spec_dcs_passthrough(old(self)@, byte).1);
    }

    fn dcs_esc(&mut self, byte: u8, out: &mut Vec<TermAction>)
        requires
            old(self)@.state == State::DcsEsc,
        ensures
            final(self)@ == spec_dcs_esc(old(self)@, byte).0,
            action_views(final(out)@) == action_views(old(out)@) + spec_dcs_esc(old(self)@, byte).1,
    {
        if byte == 0x5c {
            self.finish_dcs(out);
        } else {
            self.dcs_buf.push(0x1b);
            self.dcs_buf.push(byte);
            self.state = State::DcsPassthrough;
            assert(self@ =~= spec_dcs_esc(old(self)@, byte).0);
            assert(action_views(out@) =~= action_views(old(out)@) + spec_dcs_esc(old(self)@, byte).1);
        }
    }

    fn dcs_ignore(&mut self, byte: u8, out: &mut Vec<TermAction>)
        requires
            old(self)@.state == State::DcsIgnore,
        ensures
            final(self)@ == spec_dcs_ignore(old(self)@, byte).0,
            action_views(final(out)@) == action_views(old(out)@) + spec_dcs_ignore(
                old(self)@,
                byte,
            ).1,
    {
        let ghost o = out@;
        if (byte <= 0x17 || byte == 0x19 || (0x1c <= byte && byte <= 0x1f)) || byte == 0x7f {
            emit(out, TermAction::Execute(byte));
        } else if byte == 0x1b {
            self.state = State::DcsEsc;
        } else if byte == 0x9c {
            self.dcs_buf.clear();
            self.intermediates.clear();
            self.state = State::Ground;
        } else if byte == 0x18 || byte == 0x1a {
            emit(out, TermAction::Execute(byte));
            self.dcs_buf.clear();
            self.intermediates.clear();
            self.state = State::Ground;
        }
        assert(self@ =~= spec_dcs_ignore(old(self)@, byte).0);
        assert(action_views(out@) =~= action_views(o) + spec_dcs_ignore(old(self)@, byte).1);
    }

    fn sos_pm_apc_string(&mut self, byte: u8, out: &mut Vec<TermAction>)
        requires
            old(self)@.state == State::SosPmApcString,
        ensures
            final(self)@ == spec_sos_pm_apc(old(self)@, byte).0,
            action_views(final(out)@) == action_views(old(out)@) + spec_sos_pm_apc(
                old(self)@,
                byte,
            ).1,
    {
        let ghost o = out@;
        if (byte <= 0x17 || byte == 0x19 || (0x1c <= byte && byte <= 0x1f)) || byte == 0x7f {
            emit(out, TermAction::Execute(byte));
        } else if byte == 0x1b {
            self.state = State::Escape;
        } else if byte == 0x9c {
            self.state = State::Ground;
        } else if byte == 0x18 || byte == 0x1a {
            emit(out, TermAction::Execute(byte));
            self.state = State::Ground;
        }
        assert(self@ =~= spec_sos_pm_apc(old(self)@, byte).0);
        assert(action_views(out@) =~= action_views(o) + spec_sos_pm_apc(old(self)@, byte).1);
    }
}

} // verus!
