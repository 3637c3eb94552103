//! Connection-layer data: the state of a transport, the messages exchanged
//! with the UI, and the framing of the multiplexed BLE byte stream.

use vstd::prelude::*;

verus! {

/// The lifecycle of one connection.
#[derive(Debug, Clone)]
pub enum ConnectionState {
    Connecting,
    Connected,
    Disconnected,
    Error(String),
}

impl ConnectionState {
    /// The status line for a state.
    pub open spec fn status_view(&self) -> Seq<char> {
        match self {
            ConnectionState::Connecting => "Connecting..."@,
            ConnectionState::Connected => "Connected"@,
            ConnectionState::Disconnected => "Disconnected"@,
            ConnectionState::Error(e) => "Error: "@ + e@,
        }
    }

    /// The status line shown for the connection.
    pub fn status_text(&self) -> (s: String)
        ensures
            s@ == self.status_view(),
    {
        match self {
            ConnectionState::Connecting => String::from_str("Connecting..."),
            ConnectionState::Connected => String::from_str("Connected"),
            ConnectionState::Disconnected => String::from_str("Disconnected"),
            ConnectionState::Error(e) => String::from_str("Error: ").concat(e.as_str()),
        }
    }
}

/// A message from a transport to the UI.
#[derive(Debug, Clone)]
pub enum ConnIn {
    Data(Vec<u8>),
    StateChanged(ConnectionState),
}

/// A request from the UI to a transport.
#[derive(Debug, Clone)]
pub enum ConnOut {
    Data(Vec<u8>),
    Resize(u16, u16),
    /// Deliver SIGWINCH again without changing the window size.
    Winch,
    Close,
}

/// The frame type that carries terminal data.
pub const MUX_FRAME_DATA: u8 = 0x01;

/// The largest payload one frame can carry (its length field is a `u16`).
pub const MUX_MAX_PAYLOAD: usize = 65535;

/// A decoded frame: logical port, frame type, payload.
pub type MuxFrameView = (u8, u8, Seq<u8>);

/// The payload length a frame header announces (little-endian `u16` in bytes 2 and 3).
pub open spec fn header_len(b: Seq<u8>) -> int {
    b[2] as int + 256 * (b[3] as int)
}

/// Whether `b` starts with a complete frame.
pub open spec fn has_frame(b: Seq<u8>) -> bool {
    b.len() >= 4 && b.len() >= 4 + header_len(b)
}

/// Split a byte stream into the complete frames at its front and the bytes
/// left over (an incomplete frame, kept for the next read).
pub open spec fn decode_frames(b: Seq<u8>) -> (Seq<MuxFrameView>, Seq<u8>)
    decreases b.len(),
{
    if has_frame(b) {
        let n = 4 + header_len(b);
        let rest = decode_frames(b.subrange(n, b.len() as int));
        (seq![(b[0], b[1], b.subrange(4, n))] + rest.0, rest.1)
    } else {
        (Seq::empty(), b)
    }
}

/// The bytes of one frame; payloads longer than a frame can hold are cut.
pub open spec fn frame_bytes(port: u8, frame_type: u8, payload: Seq<u8>) -> Seq<u8> {
    let len = if payload.len() < MUX_MAX_PAYLOAD { payload.len() as int } else { MUX_MAX_PAYLOAD as int };
    seq![port, frame_type, (len % 256) as u8, (len / 256) as u8] + payload.subrange(0, len)
}

pub open spec fn frames_view(v: Seq<(u8, u8, Vec<u8>)>) -> Seq<MuxFrameView> {
    v.map_values(|f: (u8, u8, Vec<u8>)| (f.0, f.1, f.2@))
}

/// Reassembles frames from notification chunks of the multiplexed stream.
pub struct MuxDecoder {
    buffer: Vec<u8>,
}

impl View for MuxDecoder {
    type V = Seq<u8>;

    /// The bytes received but not yet part of a complete frame.
    closed spec fn view(&self) -> Seq<u8> {
        self.buffer@
    }
}

impl Default for MuxDecoder {
    fn default() -> (d: Self)
        ensures
            d@ == Seq::<u8>::empty(),
    {
        MuxDecoder { buffer: Vec::new() }
    }
}

/// A copy of `b[from..to]`.
fn copy_range(b: &Vec<u8>, from: usize, to: usize) -> (r: Vec<u8>)
    requires
        from <= to <= b@.len(),
    ensures
        r@ == b@.subrange(from as int, to as int),
{
    let mut r: Vec<u8> = Vec::new();
    let mut i = from;
    while i < to
        invariant
            from <= i <= to <= b@.len(),
            r@ == b@.subrange(from as int, i as int),
        decreases to - i,
    {
        r.push(b[i]);
        i = i + 1;
    }
    r
}

impl MuxDecoder {
    pub fn new() -> (d: Self)
        ensures
            d@ == Seq::<u8>::empty(),
    {
        MuxDecoder { buffer: Vec::new() }
    }

    /// Append received bytes and take out every complete frame, in order;
    /// an incomplete frame at the end stays buffered.
    pub fn push(&mut self, bytes: &[u8]) -> (frames: Vec<(u8, u8, Vec<u8>)>)
        ensures
            frames_view(frames@) == decode_frames(old(self)@ + bytes@).0,
            final(self)@ == decode_frames(old(self)@ + bytes@).1,
    {
        self.buffer.extend_from_slice(bytes);
        let ghost all = old(self)@ + bytes@;
        assert(self.buffer@ =~= all);
        let mut frames: Vec<(u8, u8, Vec<u8>)> = Vec::new();
        let mut pos: usize = 0;
        let n = self.buffer.len();
        assert(all.subrange(0, n as int) =~= all);
        assert(frames_view(frames@) + decode_frames(all).0 =~= decode_frames(all).0);
        loop
            invariant
                n == self.buffer@.len(),
                self.buffer@ == all,
                pos <= n,
                decode_frames(all) == (frames_view(frames@) + decode_frames(all.subrange(pos as int, n as int)).0,
                    decode_frames(all.subrange(pos as int, n as int)).1),
            ensures
                pos <= n,
                decode_frames(all.subrange(pos as int, n as int)).0 == Seq::<MuxFrameView>::empty(),
                decode_frames(all.subrange(pos as int, n as int)).1 == all.subrange(pos as int, n as int),
            decreases n - pos,
        {
            let ghost s = all.subrange(pos as int, n as int);
            if n - pos < 4 {
                break;
            }
            let len = self.buffer[pos + 2] as usize + 256 * (self.buffer[pos + 3] as usize);
            proof {
                assert(s[2] == self.buffer@[pos + 2] && s[3] == self.buffer@[pos + 3]);
                assert(len == header_len(s));
            }
            if n - pos - 4 < len {
                break;
            }
            let payload = copy_range(&self.buffer, pos + 4, pos + 4 + len);
            let frame = (self.buffer[pos], self.buffer[pos + 1], payload);
            let ghost before = frames@;
            frames.push(frame);
            proof {
                let m = 4 + len;
                assert(has_frame(s));
                assert(s.subrange(m as int, s.len() as int) =~= all.subrange(pos + m, n as int));
                assert(s.subrange(4, m as int) =~= all.subrange(pos + 4, pos + m));
                assert(frames_view(frames@) =~= frames_view(before).push((s[0], s[1], s.subrange(4, m as int))));
                let rest = decode_frames(all.subrange(pos + m, n as int));
                assert(decode_frames(s).0 =~= seq![(s[0], s[1], s.subrange(4, m as int))] + rest.0);
                assert(frames_view(before) + decode_frames(s).0 =~= frames_view(frames@) + rest.0);
            }
            pos = pos + 4 + len;
        }
        let rest = copy_range(&self.buffer, pos, n);
        self.buffer = rest;
        assert(frames_view(frames@) + Seq::<MuxFrameView>::empty() =~= frames_view(frames@));
        frames
    }
}

/// The bytes of one frame carrying `payload` (cut to the largest payload a
/// frame can hold) to logical port `port`.
pub fn encode_mux_frame(port: u8, frame_type: u8, payload: &[u8]) -> (out: Vec<u8>)
    ensures
        out@ == frame_bytes(port, frame_type, payload@),
{
    let len: usize = if payload.len() < MUX_MAX_PAYLOAD { payload.len() } else { MUX_MAX_PAYLOAD };
    let mut out: Vec<u8> = Vec::new();
    out.push(port);
    out.push(frame_type);
    out.push((len % 256) as u8);
    out.push((len / 256) as u8);
    let mut i: usize = 0;
    while i < len
        invariant
            i <= len <= payload@.len(),
            len <= MUX_MAX_PAYLOAD,
            out@ == seq![port, frame_type, (len % 256) as u8, (len / 256) as u8] + payload@.subrange(0, i as int),
        decreases len - i,
    {
        out.push(payload[i]);
        i = i + 1;
    }
    out
}

/// `data` cut into pieces of `c` bytes (the last one shorter), as
/// `slice::chunks` cuts it.
pub open spec fn chunks_of(data: Seq<u8>, c: nat) -> Seq<Seq<u8>>
    decreases data.len(),
{
    if data.len() == 0 || c == 0 {
        Seq::empty()
    } else if data.len() <= c {
        seq![data]
    } else {
        seq![data.subrange(0, c as int)] + chunks_of(data.subrange(c as int, data.len() as int), c)
    }
}

/// The payload size of one data frame when a write may carry
/// `max_payload_len` bytes: the room left after the 4-byte header, at least 1.
pub open spec fn frame_payload_size(max_payload_len: usize) -> nat {
    if max_payload_len > 5 { (max_payload_len - 4) as nat } else { 1 }
}

/// The data frames that carry `data` to logical port `port`.
pub open spec fn data_frames(port: u8, data: Seq<u8>, c: nat) -> Seq<Seq<u8>> {
    chunks_of(data, c).map_values(|p: Seq<u8>| frame_bytes(port, MUX_FRAME_DATA, p))
}

pub open spec fn byte_views(v: Seq<Vec<u8>>) -> Seq<Seq<u8>> {
    v.map_values(|b: Vec<u8>| b@)
}

/// Frame `data` for logical port `logical_port` of the multiplexed stream,
/// each frame small enough for one write of `max_payload_len` bytes.
pub fn mux_data_frames(logical_port: u8, data: &[u8], max_payload_len: usize) -> (frames: Vec<Vec<u8>>)
    ensures
        byte_views(frames@) == data_frames(logical_port, data@, frame_payload_size(max_payload_len)),
{
    let c: usize = if max_payload_len > 5 { max_payload_len - 4 } else { 1 };
    let ghost cn = c as nat;
    let mut frames: Vec<Vec<u8>> = Vec::new();
    let mut pos: usize = 0;
    let n = data.len();
    assert(data@.subrange(0, n as int) =~= data@);
    while pos < n
        invariant
            c >= 1,
            cn == c as nat,
            pos <= n == data@.len(),
            byte_views(frames@) + data_frames(logical_port, data@.subrange(pos as int, n as int), cn)
                == data_frames(logical_port, data@, cn),
        decreases n - pos,
    {
        let end = if n - pos > c { pos + c } else { n };
        let mut chunk: Vec<u8> = Vec::new();
        let mut i = pos;
        while i < end
            invariant
                pos <= i <= end <= n == data@.len(),
                chunk@ == data@.subrange(pos as int, i as int),
            decreases end - i,
        {
            chunk.push(data[i]);
            i = i + 1;
        }
        let frame = encode_mux_frame(logical_port, MUX_FRAME_DATA, chunk.as_slice());
        let ghost before = frames@;
        frames.push(frame);
        proof {
            let rest = data@.subrange(pos as int, n as int);
            let tail = data@.subrange(end as int, n as int);
            assert(byte_views(frames@) =~= byte_views(before).push(frame_bytes(logical_port, MUX_FRAME_DATA, chunk@)));
            if rest.len() <= cn {
                assert(end == n);
                assert(chunk@ =~= rest);
                assert(chunks_of(rest, cn) == seq![rest]);
                assert(tail =~= Seq::<u8>::empty());
                assert(chunks_of(tail, cn) =~= Seq::<Seq<u8>>::empty());
            } else {
                assert(rest.subrange(0, cn as int) =~= chunk@);
                assert(rest.subrange(cn as int, rest.len() as int) =~= tail);
                assert(chunks_of(rest, cn) == seq![chunk@] + chunks_of(tail, cn));
            }
            assert(data_frames(logical_port, rest, cn)
                =~= seq![frame_bytes(logical_port, MUX_FRAME_DATA, chunk@)] + data_frames(logical_port, tail, cn));
            assert(byte_views(frames@) + data_frames(logical_port, tail, cn)
                =~= byte_views(before) + data_frames(logical_port, rest, cn));
        }
        pos = end;
    }
    assert(data@.subrange(n as int, n as int) =~= Seq::<u8>::empty());
    assert(chunks_of(Seq::<u8>::empty(), cn) =~= Seq::<Seq<u8>>::empty());
    assert(byte_views(frames@) + Seq::<Seq<u8>>::empty() =~= byte_views(frames@));
    frames
}

/// The concatenation of byte strings.
pub open spec fn joined(v: Seq<Seq<u8>>) -> Seq<u8>
    decreases v.len(),
{
    if v.len() == 0 {
        Seq::empty()
    } else {
        v[0] + joined(v.drop_first())
    }
}

/// What a writer sends, a reader gets back: the data frames for `data`,
/// received in any cuts, decode to data frames on the same port whose
/// payloads put together are `data`, with nothing left over.
pub proof fn lemma_mux_data_round_trip(port: u8, data: Seq<u8>, c: nat)
    requires
        1 <= c <= MUX_MAX_PAYLOAD,
    ensures
        ({
            let d = decode_frames(joined(data_frames(port, data, c)));
            &&& d.1 == Seq::<u8>::empty()
            &&& d.0 == chunks_of(data, c).map_values(|p: Seq<u8>| (port, MUX_FRAME_DATA, p))
            &&& joined(chunks_of(data, c)) == data
        }),
    decreases data.len(),
{
    if data.len() == 0 {
        assert(chunks_of(data, c) =~= Seq::<Seq<u8>>::empty());
        assert(data_frames(port, data, c) =~= Seq::<Seq<u8>>::empty());
        assert(!has_frame(Seq::<u8>::empty()));
        assert(data =~= Seq::<u8>::empty());
        assert(chunks_of(data, c).map_values(|p: Seq<u8>| (port, MUX_FRAME_DATA, p)) =~= Seq::<MuxFrameView>::empty());
    } else {
        let first = if data.len() <= c { data } else { data.subrange(0, c as int) };
        let rest = if data.len() <= c { Seq::<u8>::empty() } else { data.subrange(c as int, data.len() as int) };
        assert(chunks_of(data, c) =~= seq![first] + chunks_of(rest, c)) by {
            if data.len() <= c {
                assert(chunks_of(rest, c) =~= Seq::<Seq<u8>>::empty());
            }
        }
        lemma_mux_data_round_trip(port, rest, c);
        let fs = data_frames(port, data, c);
        assert(fs =~= seq![frame_bytes(port, MUX_FRAME_DATA, first)] + data_frames(port, rest, c));
        assert(fs.drop_first() =~= data_frames(port, rest, c));
        assert(joined(fs) == frame_bytes(port, MUX_FRAME_DATA, first) + joined(data_frames(port, rest, c)));
        assert(first.subrange(0, first.len() as int) =~= first);
        assert(frame_bytes(port, MUX_FRAME_DATA, first) == seq![port, MUX_FRAME_DATA, (first.len() % 256) as u8, (first.len() / 256) as u8] + first);
        lemma_mux_round_trip(port, MUX_FRAME_DATA, first, joined(data_frames(port, rest, c)));
        let ch = chunks_of(data, c);
        assert(ch.drop_first() =~= chunks_of(rest, c));
        assert(ch.map_values(|p: Seq<u8>| (port, MUX_FRAME_DATA, p))
            =~= seq![(port, MUX_FRAME_DATA, first)] + chunks_of(rest, c).map_values(|p: Seq<u8>| (port, MUX_FRAME_DATA, p)));
        assert(joined(ch) == first + joined(chunks_of(rest, c)));
        if data.len() <= c {
            assert(joined(chunks_of(rest, c)) =~= Seq::<u8>::empty());
            assert(first + Seq::<u8>::empty() =~= data);
        } else {
            assert(first + rest =~= data);
        }
    }
}

/// A frame followed by more bytes decodes to that frame, then to whatever
/// the rest decodes to: what the writer encodes, the reader gives back.
pub proof fn lemma_mux_round_trip(port: u8, frame_type: u8, payload: Seq<u8>, rest: Seq<u8>)
    requires
        payload.len() <= MUX_MAX_PAYLOAD,
    ensures
        decode_frames(frame_bytes(port, frame_type, payload) + rest)
            == (seq![(port, frame_type, payload)] + decode_frames(rest).0, decode_frames(rest).1),
{
    let len = payload.len() as int;
    let b = frame_bytes(port, frame_type, payload) + rest;
    assert(len % 256 + 256 * (len / 256) == len) by (nonlinear_arith);
    assert(0 <= len / 256 < 256) by (nonlinear_arith)
        requires
            0 <= len <= 65535,
    ;
    assert(b[2] == (len % 256) as u8 && b[3] == (len / 256) as u8);
    assert(header_len(b) == len);
    assert(has_frame(b));
    assert(b.subrange(4, 4 + len) =~= payload);
    assert(b.subrange(4 + len, b.len() as int) =~= rest);
}

/// Decoding does not depend on how the stream was cut into reads: decoding
/// `p` and then the leftover followed by `s` gives the frames of `p + s`.
pub proof fn lemma_mux_chunking(p: Seq<u8>, s: Seq<u8>)
    ensures
        decode_frames(p).0 + decode_frames(decode_frames(p).1 + s).0 == decode_frames(p + s).0,
        decode_frames(decode_frames(p).1 + s).1 == decode_frames(p + s).1,
    decreases p.len(),
{
    if has_frame(p) {
        let n = 4 + header_len(p);
        let q = p.subrange(n, p.len() as int);
        let ps = p + s;
        assert(ps[2] == p[2] && ps[3] == p[3] && ps[0] == p[0] && ps[1] == p[1]);
        assert(has_frame(ps));
        assert(ps.subrange(4, n) =~= p.subrange(4, n));
        assert(ps.subrange(n, ps.len() as int) =~= q + s);
        lemma_mux_chunking(q, s);
        assert(decode_frames(p).0 + decode_frames(decode_frames(p).1 + s).0
            =~= seq![(p[0], p[1], p.subrange(4, n))] + (decode_frames(q).0 + decode_frames(decode_frames(q).1 + s).0));
    } else {
        assert(decode_frames(p).1 + s =~= p + s);
    }
}

/// What a decoder holding `buf` gives for the reads `cs`, pushed one after
/// another (as `MuxDecoder::push` does): the frames, in order, and the bytes
/// it holds at the end.
pub open spec fn pushes(buf: Seq<u8>, cs: Seq<Seq<u8>>) -> (Seq<MuxFrameView>, Seq<u8>)
    decreases cs.len(),
{
    if cs.len() == 0 {
        (Seq::empty(), buf)
    } else {
        let d = decode_frames(buf + cs[0]);
        let r = pushes(d.1, cs.drop_first());
        (d.0 + r.0, r.1)
    }
}

/// The bytes of each frame.
pub open spec fn encoded(fs: Seq<MuxFrameView>) -> Seq<Seq<u8>>
    decreases fs.len(),
{
    if fs.len() == 0 {
        Seq::empty()
    } else {
        seq![frame_bytes(fs[0].0, fs[0].1, fs[0].2)] + encoded(fs.drop_first())
    }
}

/// What decoding leaves over never starts with a complete frame.
proof fn lemma_leftover_incomplete(b: Seq<u8>)
    ensures
        !has_frame(decode_frames(b).1),
    decreases b.len(),
{
    if has_frame(b) {
        lemma_leftover_incomplete(b.subrange(4 + header_len(b), b.len() as int));
    }
}

/// Reads pushed one by one into a decoder (holding an incomplete frame, as
/// a decoder does) give the frames of all their bytes at once, whatever the
/// number of reads and wherever the stream is cut.
pub proof fn lemma_pushes_any_cuts(buf: Seq<u8>, cs: Seq<Seq<u8>>)
    requires
        !has_frame(buf),
    ensures
        pushes(buf, cs) == decode_frames(buf + joined(cs)),
    decreases cs.len(),
{
    if cs.len() == 0 {
        assert(buf + joined(cs) =~= buf);
    } else {
        let p = buf + cs[0];
        let s = joined(cs.drop_first());
        lemma_leftover_incomplete(p);
        lemma_pushes_any_cuts(decode_frames(p).1, cs.drop_first());
        lemma_mux_chunking(p, s);
        assert(buf + joined(cs) =~= p + s);
    }
}

/// Frames written one after another decode back to those frames, with
/// nothing left over.
pub proof fn lemma_frames_round_trip(fs: Seq<MuxFrameView>)
    requires
        forall|i: int| 0 <= i < fs.len() ==> (#[trigger] fs[i]).2.len() <= MUX_MAX_PAYLOAD,
    ensures
        decode_frames(joined(encoded(fs))) == (fs, Seq::<u8>::empty()),
    decreases fs.len(),
{
    if fs.len() == 0 {
        assert(!has_frame(Seq::<u8>::empty()));
        assert(joined(encoded(fs)) =~= Seq::<u8>::empty());
        assert(fs =~= Seq::<MuxFrameView>::empty());
    } else {
        let rest = fs.drop_first();
        assert forall|i: int| 0 <= i < rest.len() implies (#[trigger] rest[i]).2.len() <= MUX_MAX_PAYLOAD by {
            assert(rest[i] == fs[i + 1]);
        }
        lemma_frames_round_trip(rest);
        let e = encoded(fs);
        assert(e.drop_first() =~= encoded(rest));
        assert(joined(e) == frame_bytes(fs[0].0, fs[0].1, fs[0].2) + joined(encoded(rest)));
        assert(fs[0].2.len() <= MUX_MAX_PAYLOAD);
        lemma_mux_round_trip(fs[0].0, fs[0].1, fs[0].2, joined(encoded(rest)));
        assert(seq![(fs[0].0, fs[0].1, fs[0].2)] + rest =~= fs);
    }
}

/// What a writer sends, a reader gets back, however it is received: frames
/// encoded one after another and cut into any number of reads, pushed in
/// order into a fresh decoder, give back exactly those frames in order,
/// with nothing held back.
pub proof fn lemma_mux_stream_round_trip(fs: Seq<MuxFrameView>, cs: Seq<Seq<u8>>)
    requires
        forall|i: int| 0 <= i < fs.len() ==> (#[trigger] fs[i]).2.len() <= MUX_MAX_PAYLOAD,
        joined(cs) == joined(encoded(fs)),
    ensures
        pushes(Seq::empty(), cs) == (fs, Seq::<u8>::empty()),
{
    assert(!has_frame(Seq::<u8>::empty()));
    lemma_pushes_any_cuts(Seq::empty(), cs);
    assert(Seq::<u8>::empty() + joined(cs) =~= joined(cs));
    lemma_frames_round_trip(fs);
}

/// How long a burst of PTY output is gathered at most, in microseconds.
pub const BURST_MAX_WAIT_US: u64 = 3000;

/// How long the PTY must stay quiet to end a burst, in microseconds.
pub const BURST_QUIET_US: u64 = 500;

/// What to do next while gathering a burst of PTY output.
#[derive(Debug, Clone, Copy, PartialEq, Eq, Structural)]
pub enum BurstStep {
    /// Read what is waiting.
    Read,
    /// Pause briefly, then look again.
    Sleep,
    /// The burst is over.
    Stop,
}

/// The next step of gathering a burst, `elapsed_us` after it began and
/// `since_data_us` after the last data came: stop once the deadline has
/// passed; read while data is waiting; stop once the PTY has been quiet
/// long enough; else pause.
pub fn burst_step(elapsed_us: u64, since_data_us: u64, readable: bool) -> (step: BurstStep)
    ensures
        step == (if elapsed_us >= BURST_MAX_WAIT_US {
            BurstStep::Stop
        } else if readable {
            BurstStep::Read
        } else if since_data_us >= BURST_QUIET_US {
            BurstStep::Stop
        } else {
            BurstStep::Sleep
        }),
{
    if elapsed_us >= BURST_MAX_WAIT_US {
        BurstStep::Stop
    } else if readable {
        BurstStep::Read
    } else if since_data_us >= BURST_QUIET_US {
        BurstStep::Stop
    } else {
        BurstStep::Sleep
    }
}

/// The processes told that the terminal size changed, in order: the PTY's
/// foreground process group (`-pgid`) where there is one, else the shell;
/// then on Linux also the shell's foreground process, if known, and the
/// shell itself.
pub open spec fn winch_pids(pgid: i32, shell_pid: Option<u32>, foreground: Option<u32>, linux: bool) -> Seq<i32> {
    let first: Seq<i32> = if pgid > 0 {
        seq![-pgid as i32]
    } else {
        match shell_pid {
            Some(s) => seq![s as i32],
            None => Seq::empty(),
        }
    };
    if linux {
        match shell_pid {
            Some(s) => match foreground {
                Some(f) => first + seq![f as i32, s as i32],
                None => first + seq![s as i32],
            },
            None => first,
        }
    } else {
        first
    }
}

/// The process ids to send `SIGWINCH` to (see `winch_pids`).
pub fn winch_targets(pgid: i32, shell_pid: Option<u32>, foreground: Option<u32>, linux: bool) -> (r: Vec<i32>)
    ensures
        r@ == winch_pids(pgid, shell_pid, foreground, linux),
{
    let mut r: Vec<i32> = Vec::new();
    if pgid > 0 {
        r.push(-pgid);
    } else {
        match shell_pid {
            Some(s) => r.push(s as i32),
            None => {},
        }
    }
    if linux {
        match shell_pid {
            Some(s) => {
                match foreground {
                    Some(f) => r.push(f as i32),
                    None => {},
                }
                r.push(s as i32);
            },
            None => {},
        }
    }
    assert(r@ =~= winch_pids(pgid, shell_pid, foreground, linux));
    r
}

/// The size of a local PTY window: rows and columns of at least 1, and a
/// nominal pixel size of 8 by 16 pixels per cell (saturating).
#[derive(Debug, Clone, Copy, PartialEq, Eq, Structural)]
pub struct PtyDims {
    pub rows: u16,
    pub cols: u16,
    pub pixel_width: u16,
    pub pixel_height: u16,
}

pub fn pty_dims(rows: u16, cols: u16) -> (d: PtyDims)
    ensures
        d.rows == (if rows == 0 { 1 } else { rows }),
        d.cols == (if cols == 0 { 1 } else { cols }),
        d.pixel_width == (if d.cols * 8 > u16::MAX { u16::MAX as int } else { d.cols * 8 }),
        d.pixel_height == (if d.rows * 16 > u16::MAX { u16::MAX as int } else { d.rows * 16 }),
{
    let r: u16 = if rows == 0 { 1 } else { rows };
    let c: u16 = if cols == 0 { 1 } else { cols };
    let pw: u16 = if c > 8191 { u16::MAX } else { c * 8 };
    let ph: u16 = if r > 4095 { u16::MAX } else { r * 16 };
    PtyDims { rows: r, cols: c, pixel_width: pw, pixel_height: ph }
}

} // verus!
