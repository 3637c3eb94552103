//! Host and process labels for terminal tab titles.

use vstd::prelude::*;

use crate::text::{chars_to_string, has_prefix, has_suffix, is_space, is_whitespace, lossy_string, str_chars, trim_chars, trim_str, trimmed, utf8_lossy};

verus! {

/// `user@host`.
pub fn ssh_user_at_host(user: &str, host: &str) -> (s: String)
    ensures
        s@ == user@ + "@"@ + host@,
{
    String::from_str(user).concat("@").concat(host)
}

/// The label shown for `s`: trimmed, and when longer than `max_chars`
/// characters cut to `max_chars - 1` of them followed by an ellipsis.
pub open spec fn truncated(s: Seq<char>, max_chars: usize) -> Seq<char> {
    let t = trimmed(s);
    if t.len() <= max_chars {
        t
    } else {
        t.subrange(0, if max_chars > 0 { max_chars - 1 } else { 0 }) + seq!['\u{2026}']
    }
}

pub fn truncate_label(s: &str, max_chars: usize) -> (r: String)
    ensures
        r@ == truncated(s@, max_chars),
{
    let chars = str_chars(s);
    let t = trim_chars(chars.as_slice());
    if t.len() <= max_chars {
        return chars_to_string(t.as_slice());
    }
    let keep = max_chars.saturating_sub(1);
    let mut out: Vec<char> = Vec::new();
    let mut i: usize = 0;
    while i < keep
        invariant
            keep < t@.len(),
            i <= keep,
            out@ == t@.subrange(0, i as int),
        decreases keep - i,
    {
        out.push(t[i]);
        i = i + 1;
    }
    out.push('\u{2026}');
    chars_to_string(out.as_slice())
}

/// Whether an OSC title only names the host (an idle shell) rather than a
/// running program: it is empty, equal to `user_at_host`, or that followed by
/// `:` or a space.
pub open spec fn idle_host_title(title: Seq<char>, user_at_host: Seq<char>) -> bool {
    let t = trimmed(title);
    ||| t.len() == 0
    ||| t == user_at_host
    ||| (user_at_host + seq![':']).is_prefix_of(t)
    ||| (user_at_host + seq![' ']).is_prefix_of(t)
}

pub fn title_is_idle_host(title: &str, user_at_host: &str) -> (b: bool)
    ensures
        b == idle_host_title(title@, user_at_host@),
{
    let tc = str_chars(title);
    let t = trim_chars(tc.as_slice());
    if t.len() == 0 {
        return true;
    }
    let mut host = str_chars(user_at_host);
    if t.len() == host.len() && has_prefix(t.as_slice(), host.as_slice()) {
        proof {
            assert(t@.subrange(0, host@.len() as int) =~= t@);
        }
        return true;
    }
    let ghost h = host@;
    host.push(':');
    let colon = has_prefix(t.as_slice(), host.as_slice());
    host.pop();
    host.push(' ');
    let space = has_prefix(t.as_slice(), host.as_slice());
    proof {
        assert(host@ =~= h + seq![' ']);
        if t@ == h {
            assert(t@.subrange(0, h.len() as int) =~= t@);
        }
    }
    colon || space
}

/// The part of `s` after its last `/` (all of `s` when it has none).
pub open spec fn after_last_slash(s: Seq<char>) -> Seq<char>
    decreases s.len(),
{
    if s.len() == 0 {
        s
    } else if s.last() == '/' {
        Seq::empty()
    } else {
        after_last_slash(s.drop_last()).push(s.last())
    }
}

fn base_name(s: &[char]) -> (r: Vec<char>)
    ensures
        r@ == after_last_slash(s@),
{
    let mut start: usize = s.len();
    while start > 0 && s[start - 1] != '/'
        invariant
            start <= s@.len(),
            forall|k: int| start <= k < s@.len() ==> s@[k] != '/',
        decreases start,
    {
        start = start - 1;
    }
    let mut r: Vec<char> = Vec::new();
    let mut i = start;
    while i < s.len()
        invariant
            start <= i <= s@.len(),
            r@ == s@.subrange(start as int, i as int),
        decreases s.len() - i,
    {
        r.push(s[i]);
        i = i + 1;
    }
    proof {
        lemma_after_last_slash(s@, start as int);
    }
    r
}

proof fn lemma_after_last_slash(s: Seq<char>, start: int)
    requires
        0 <= start <= s.len(),
        start == 0 || s[start - 1] == '/',
        forall|k: int| start <= k < s.len() ==> s[k] != '/',
    ensures
        after_last_slash(s) == s.subrange(start, s.len() as int),
    decreases s.len(),
{
    if s.len() == 0 {
        assert(s.subrange(start, s.len() as int) =~= s);
    } else if start == s.len() {
        assert(s.subrange(start, s.len() as int) =~= Seq::<char>::empty());
    } else {
        lemma_after_last_slash(s.drop_last(), start);
        assert(s.subrange(start, s.len() as int) =~= s.drop_last().subrange(start, s.len() - 1).push(s.last()));
    }
}

/// The basenames of `args`, joined by spaces.
pub open spec fn joined_base_names(args: Seq<Seq<char>>) -> Seq<char>
    decreases args.len(),
{
    if args.len() == 0 {
        Seq::empty()
    } else if args.len() == 1 {
        after_last_slash(args[0])
    } else {
        joined_base_names(args.drop_last()) + seq![' '] + after_last_slash(args.last())
    }
}

pub open spec fn string_views(v: Seq<String>) -> Seq<Seq<char>> {
    v.map_values(|s: String| s@)
}

/// A short form of a command line: the program's basename and its one
/// argument's, or the program's basename and an ellipsis when there are more.
pub open spec fn short_cmdline(args: Seq<Seq<char>>) -> Seq<char> {
    if args.len() <= 2 {
        joined_base_names(args)
    } else {
        after_last_slash(args[0]) + seq![' ', '\u{2026}']
    }
}

pub fn format_cmdline(args: &[String]) -> (r: String)
    requires
        args@.len() > 0,
    ensures
        r@ == short_cmdline(string_views(args@)),
{
    let ghost a = string_views(args@);
    if args.len() <= 2 {
        let first = str_chars(args[0].as_str());
        let mut out = base_name(first.as_slice());
        proof {
            assert(a.subrange(0, 1).len() == 1);
            assert(joined_base_names(a.subrange(0, 1)) == after_last_slash(a[0]));
        }
        if args.len() == 2 {
            let second = str_chars(args[1].as_str());
            let b = base_name(second.as_slice());
            out.push(' ');
            let mut i: usize = 0;
            let ghost pre = out@;
            while i < b.len()
                invariant
                    i <= b@.len(),
                    out@ == pre + b@.subrange(0, i as int),
                decreases b.len() - i,
            {
                out.push(b[i]);
                i = i + 1;
            }
            proof {
                assert(a.drop_last() =~= a.subrange(0, 1));
                assert(out@ =~= joined_base_names(a.drop_last()) + seq![' '] + after_last_slash(a.last()));
            }
        } else {
            assert(a =~= a.subrange(0, 1));
        }
        chars_to_string(out.as_slice())
    } else {
        let first = str_chars(args[0].as_str());
        let mut out = base_name(first.as_slice());
        out.push(' ');
        out.push('\u{2026}');
        proof {
            assert(out@ =~= after_last_slash(a[0]) + seq![' ', '\u{2026}']);
        }
        chars_to_string(out.as_slice())
    }
}

/// The names taken for an interactive shell (not a foreground program).
pub open spec fn interactive_shell(name: Seq<char>) -> bool {
    ||| name == "sh"@
    ||| name == "bash"@
    ||| name == "zsh"@
    ||| name == "fish"@
    ||| name == "dash"@
    ||| name == "ksh"@
    ||| name == "tcsh"@
    ||| name == "nu"@
    ||| "/sh"@.is_suffix_of(name)
    ||| "/bash"@.is_suffix_of(name)
    ||| "/zsh"@.is_suffix_of(name)
    ||| "/fish"@.is_suffix_of(name)
}

fn same_chars(a: &[char], b: &str) -> (r: bool)
    ensures
        r == (a@ == b@),
{
    let bc = str_chars(b);
    if a.len() != bc.len() {
        return false;
    }
    let r = has_prefix(a, bc.as_slice());
    proof {
        if r {
            assert(a@.subrange(0, bc@.len() as int) =~= a@);
        }
    }
    r
}

fn ends_with_str(a: &[char], b: &str) -> (r: bool)
    ensures
        r == b@.is_suffix_of(a@),
{
    let bc = str_chars(b);
    has_suffix(a, bc.as_slice())
}

pub fn is_interactive_shell(name: &str) -> (b: bool)
    ensures
        b == interactive_shell(name@),
{
    let n = str_chars(name);
    let s = n.as_slice();
    same_chars(s, "sh") || same_chars(s, "bash") || same_chars(s, "zsh") || same_chars(s, "fish")
        || same_chars(s, "dash") || same_chars(s, "ksh") || same_chars(s, "tcsh") || same_chars(s, "nu")
        || ends_with_str(s, "/sh") || ends_with_str(s, "/bash") || ends_with_str(s, "/zsh")
        || ends_with_str(s, "/fish")
}

/// The foreground program among the first `k` children of a shell, searched
/// from the newest: a child whose command line could not be read ends the
/// search with nothing, the shell itself and interactive shells are skipped.
pub open spec fn foreground_among(
    shell_pid: u32,
    children: Seq<u32>,
    cmdlines: Seq<Option<Seq<Seq<char>>>>,
    k: int,
) -> Option<Seq<char>>
    decreases k,
{
    if k <= 0 {
        None
    } else {
        let i = k - 1;
        if children[i] == shell_pid {
            foreground_among(shell_pid, children, cmdlines, i)
        } else {
            match cmdlines[i] {
                None => None,
                Some(args) => {
                    let short = short_cmdline(args);
                    if short.len() > 0 && !interactive_shell(short) {
                        Some(short)
                    } else {
                        foreground_among(shell_pid, children, cmdlines, i)
                    }
                },
            }
        }
    }
}

pub open spec fn cmdline_views(v: Seq<Option<Vec<String>>>) -> Seq<Option<Seq<Seq<char>>>> {
    v.map_values(|o: Option<Vec<String>>| match o {
        Some(a) => Some(string_views(a@)),
        None => None,
    })
}

/// The name of the foreground job of a shell, from its child process ids
/// (oldest first) and the command line read for each child (`None` where it
/// could not be read; a command line read is never empty).
pub fn foreground_command_for_pid(shell_pid: u32, children: &[u32], cmdlines: &[Option<Vec<String>>]) -> (r: Option<String>)
    requires
        children@.len() == cmdlines@.len(),
        forall|i: int| 0 <= i < cmdlines@.len() ==> (#[trigger] cmdlines@[i] matches Some(a) ==> a@.len() > 0),
    ensures
        r matches Some(s) ==> foreground_among(shell_pid, children@, cmdline_views(cmdlines@), children@.len() as int) == Some(s@),
        r is None ==> foreground_among(shell_pid, children@, cmdline_views(cmdlines@), children@.len() as int) is None,
{
    let ghost cv = cmdline_views(cmdlines@);
    let mut k: usize = children.len();
    while k > 0
        invariant
            k <= children@.len() == cmdlines@.len(),
            cv == cmdline_views(cmdlines@),
            forall|i: int| 0 <= i < cmdlines@.len() ==> (#[trigger] cmdlines@[i] matches Some(a) ==> a@.len() > 0),
            foreground_among(shell_pid, children@, cv, children@.len() as int)
                == foreground_among(shell_pid, children@, cv, k as int),
        decreases k,
    {
        let i = k - 1;
        if children[i] != shell_pid {
            match &cmdlines[i] {
                None => {
                    return None;
                },
                Some(args) => {
                    assert(cv[i as int] == Some(string_views(args@)));
                    let short = format_cmdline(args.as_slice());
                    let sc = str_chars(short.as_str());
                    if sc.len() > 0 && !is_interactive_shell(short.as_str()) {
                        return Some(short);
                    }
                },
            }
        }
        k = i;
    }
    None
}

/// The white-space separated words of `s` from position `i` on, `cur`
/// being the word begun before `i` and `acc` the words before it
/// (`str::split_whitespace`).
pub open spec fn words_from(s: Seq<char>, i: int, cur: Seq<char>, acc: Seq<Seq<char>>) -> Seq<Seq<char>>
    decreases s.len() - i,
{
    if i < 0 || i >= s.len() {
        if cur.len() > 0 { acc.push(cur) } else { acc }
    } else if is_space(s[i]) {
        words_from(s, i + 1, Seq::empty(), if cur.len() > 0 { acc.push(cur) } else { acc })
    } else {
        words_from(s, i + 1, cur.push(s[i]), acc)
    }
}

pub open spec fn words(s: Seq<char>) -> Seq<Seq<char>> {
    words_from(s, 0, Seq::empty(), Seq::empty())
}

pub open spec fn char_views(v: Seq<Vec<char>>) -> Seq<Seq<char>> {
    v.map_values(|w: Vec<char>| w@)
}

fn split_words(s: &str) -> (r: Vec<Vec<char>>)
    ensures
        char_views(r@) == words(s@),
{
    let chars = str_chars(s);
    let mut ws: Vec<Vec<char>> = Vec::new();
    let mut cur: Vec<char> = Vec::new();
    let mut i: usize = 0;
    assert(char_views(ws@) =~= Seq::<Seq<char>>::empty());
    assert(cur@ =~= Seq::<char>::empty());
    while i < chars.len()
        invariant
            i <= chars@.len(),
            chars@ == s@,
            words(s@) == words_from(s@, i as int, cur@, char_views(ws@)),
        decreases chars.len() - i,
    {
        let c = chars[i];
        let ghost old_cur = cur@;
        let ghost old_acc = char_views(ws@);
        if is_whitespace(c) {
            if cur.len() > 0 {
                let ghost before = ws@;
                let done = cur;
                let ghost w = done@;
                ws.push(done);
                assert(char_views(ws@) =~= char_views(before).push(w));
                cur = Vec::new();
            }
            assert(cur@ =~= Seq::<char>::empty());
            assert(words_from(s@, i as int, old_cur, old_acc) == words_from(s@, i + 1, cur@, char_views(ws@)));
        } else {
            cur.push(c);
            assert(words_from(s@, i as int, old_cur, old_acc) == words_from(s@, i + 1, cur@, char_views(ws@)));
        }
        i = i + 1;
    }
    if cur.len() > 0 {
        let ghost before = ws@;
        let ghost w = cur@;
        ws.push(cur);
        assert(char_views(ws@) =~= char_views(before).push(w));
    }
    ws
}

pub open spec fn is_digit(c: char) -> bool {
    '0' <= c && c <= '9'
}

/// The value of decimal digits.
pub open spec fn dec_value(d: Seq<char>) -> nat
    decreases d.len(),
{
    if d.len() == 0 {
        0
    } else {
        dec_value(d.drop_last()) * 10 + (d.last() as nat - '0' as nat) as nat
    }
}

/// `u32::from_str`: an optional `+`, then one or more ASCII digits whose
/// value fits in 32 bits.
pub open spec fn parse_u32(w: Seq<char>) -> Option<u32> {
    digits_u32(if w.len() > 0 && w[0] == '+' { w.drop_first() } else { w })
}

/// One or more ASCII digits whose value fits in 32 bits.
pub open spec fn digits_u32(d: Seq<char>) -> Option<u32> {
    if d.len() > 0 && (forall|k: int| 0 <= k < d.len() ==> #[trigger] is_digit(d[k])) && dec_value(d) <= u32::MAX {
        Some(dec_value(d) as u32)
    } else {
        None
    }
}

proof fn lemma_dec_push(p: Seq<char>, c: char)
    ensures
        dec_value(p.push(c)) == dec_value(p) * 10 + (c as nat - '0' as nat) as nat,
{
    assert(p.push(c).drop_last() =~= p);
}

proof fn lemma_not_digits(d: Seq<char>, k: int)
    requires
        0 <= k < d.len(),
        !is_digit(d[k]),
    ensures
        digits_u32(d) is None,
{
}

fn parse_u32_chars(w: &Vec<char>) -> (r: Option<u32>)
    ensures
        r == parse_u32(w@),
{
    let start: usize = if w.len() > 0 && w[0] == '+' { 1 } else { 0 };
    let ghost d = w@.subrange(start as int, w@.len() as int);
    assert(d =~= (if w@.len() > 0 && w@[0] == '+' { w@.drop_first() } else { w@ }));
    if start >= w.len() {
        return None;
    }
    let mut acc: u64 = 0;
    let mut j: usize = start;
    assert(d.take(0) =~= Seq::<char>::empty());
    while j < w.len()
        invariant
            start <= j <= w@.len(),
            d == w@.subrange(start as int, w@.len() as int),
            parse_u32(w@) == digits_u32(d),
            forall|k: int| 0 <= k < j - start ==> #[trigger] is_digit(d[k]),
            acc <= 0xFFFF_FFFFu64 ==> acc == dec_value(d.take(j - start)),
            acc > 0xFFFF_FFFFu64 ==> dec_value(d.take(j - start)) > 0xFFFF_FFFF,
            acc <= 0xFFFF_FFFFu64 * 10 + 9,
        decreases w.len() - j,
    {
        let c = w[j];
        assert(d[j - start] == c);
        if !('0' <= c && c <= '9') {
            proof {
                lemma_not_digits(d, j - start);
            }
            return None;
        }
        let dv: u64 = ((c as u32) - 48) as u64;
        proof {
            assert(d.take(j - start + 1) =~= d.take(j - start).push(c));
            lemma_dec_push(d.take(j - start), c);
        }
        if acc <= 0xFFFF_FFFF {
            acc = acc * 10 + dv;
        }
        j = j + 1;
    }
    assert(d.take(d.len() as int) =~= d);
    if acc <= 0xFFFF_FFFF {
        Some(acc as u32)
    } else {
        None
    }
}

/// The words that read as 32-bit numbers, in order.
pub open spec fn parsed_ids(ws: Seq<Seq<char>>) -> Seq<u32>
    decreases ws.len(),
{
    if ws.len() == 0 {
        Seq::empty()
    } else {
        let prev = parsed_ids(ws.drop_last());
        match parse_u32(ws.last()) {
            Some(v) => prev.push(v),
            None => prev,
        }
    }
}

/// The child process ids listed in a `/proc/<pid>/task/<pid>/children`
/// file: its words that read as numbers; `None` where there are none.
pub open spec fn children_ids(text: Seq<char>) -> Option<Seq<u32>> {
    let ids = parsed_ids(words(text));
    if ids.len() == 0 { None } else { Some(ids) }
}

/// Read the child process ids from the text of a `children` file.
pub fn parse_children(text: &str) -> (r: Option<Vec<u32>>)
    ensures
        match r {
            Some(v) => children_ids(text@) == Some(v@),
            None => children_ids(text@) is None,
        },
{
    let ws = split_words(text);
    let ghost wv = char_views(ws@);
    let mut ids: Vec<u32> = Vec::new();
    let mut k: usize = 0;
    assert(wv.take(0) =~= Seq::<Seq<char>>::empty());
    while k < ws.len()
        invariant
            k <= ws@.len(),
            wv == char_views(ws@),
            ids@ == parsed_ids(wv.take(k as int)),
        decreases ws.len() - k,
    {
        let v = parse_u32_chars(&ws[k]);
        proof {
            assert(wv.take(k + 1).drop_last() =~= wv.take(k as int));
            assert(wv.take(k + 1).last() == ws@[k as int]@);
        }
        match v {
            Some(x) => ids.push(x),
            None => {},
        }
        k = k + 1;
    }
    assert(wv.take(wv.len() as int) =~= wv);
    if ids.len() == 0 {
        None
    } else {
        Some(ids)
    }
}

/// The non-empty pieces of `data` between 0 bytes from position `i` on,
/// `cur` being the piece begun before `i` and `acc` the pieces before it.
pub open spec fn nul_fields_from(data: Seq<u8>, i: int, cur: Seq<u8>, acc: Seq<Seq<u8>>) -> Seq<Seq<u8>>
    decreases data.len() - i,
{
    if i < 0 || i >= data.len() {
        if cur.len() > 0 { acc.push(cur) } else { acc }
    } else if data[i] == 0 {
        nul_fields_from(data, i + 1, Seq::empty(), if cur.len() > 0 { acc.push(cur) } else { acc })
    } else {
        nul_fields_from(data, i + 1, cur.push(data[i]), acc)
    }
}

/// The arguments in a `/proc/<pid>/cmdline` file: its non-empty pieces
/// between 0 bytes, each decoded as UTF-8 with invalid parts replaced;
/// `None` where there are none.
pub open spec fn cmdline_args(data: Seq<u8>) -> Option<Seq<Seq<char>>> {
    let fields = nul_fields_from(data, 0, Seq::empty(), Seq::empty());
    if fields.len() == 0 {
        None
    } else {
        Some(fields.map_values(|f: Seq<u8>| utf8_lossy(f)))
    }
}

/// Read the arguments of a process from the bytes of its `cmdline` file.
pub fn parse_cmdline(data: &[u8]) -> (r: Option<Vec<String>>)
    ensures
        match r {
            Some(v) => cmdline_args(data@) == Some(string_views(v@)),
            None => cmdline_args(data@) is None,
        },
{
    let ghost target = nul_fields_from(data@, 0, Seq::empty(), Seq::empty());
    let mut args: Vec<String> = Vec::new();
    let ghost mut fields: Seq<Seq<u8>> = Seq::empty();
    let mut cur: Vec<u8> = Vec::new();
    let mut i: usize = 0;
    assert(cur@ =~= Seq::<u8>::empty());
    assert(string_views(args@) =~= fields.map_values(|f: Seq<u8>| utf8_lossy(f)));
    while i < data.len()
        invariant
            i <= data@.len(),
            target == nul_fields_from(data@, i as int, cur@, fields),
            string_views(args@) == fields.map_values(|f: Seq<u8>| utf8_lossy(f)),
        decreases data.len() - i,
    {
        let b = data[i];
        let ghost old_cur = cur@;
        let ghost old_fields = fields;
        if b == 0 {
            if cur.len() > 0 {
                let ghost before = args@;
                let a = lossy_string(cur.as_slice());
                args.push(a);
                proof {
                    assert(string_views(args@) =~= string_views(before).push(a@));
                    assert(fields.push(cur@).map_values(|f: Seq<u8>| utf8_lossy(f)) =~= fields.map_values(|f: Seq<u8>| utf8_lossy(f)).push(utf8_lossy(cur@)));
                    fields = fields.push(cur@);
                }
                cur = Vec::new();
            }
            assert(cur@ =~= Seq::<u8>::empty());
            assert(nul_fields_from(data@, i as int, old_cur, old_fields) == nul_fields_from(data@, i + 1, cur@, fields));
        } else {
            cur.push(b);
            assert(nul_fields_from(data@, i as int, old_cur, old_fields) == nul_fields_from(data@, i + 1, cur@, fields));
        }
        i = i + 1;
    }
    if cur.len() > 0 {
        let ghost before = args@;
        let a = lossy_string(cur.as_slice());
        args.push(a);
        proof {
            assert(string_views(args@) =~= string_views(before).push(a@));
            assert(fields.push(cur@).map_values(|f: Seq<u8>| utf8_lossy(f)) =~= fields.map_values(|f: Seq<u8>| utf8_lossy(f)).push(utf8_lossy(cur@)));
            fields = fields.push(cur@);
        }
    }
    if args.len() == 0 {
        None
    } else {
        Some(args)
    }
}

/// The position of the first 0 byte from `j` on, or the length.
pub open spec fn first_nul(b: Seq<u8>, j: int) -> int
    decreases b.len() - j,
{
    if j < 0 || j >= b.len() {
        b.len() as int
    } else if b[j] == 0 {
        j
    } else {
        first_nul(b, j + 1)
    }
}

/// The host name in the buffer `gethostname` filled: the bytes before the
/// first 0, decoded with invalid parts replaced and trimmed; `localhost`
/// where that is empty.
pub open spec fn host_name(buf: Seq<u8>) -> Seq<char> {
    let t = trimmed(utf8_lossy(buf.take(first_nul(buf, 0))));
    if t.len() == 0 { "localhost"@ } else { t }
}

pub fn hostname_from(buf: &[u8]) -> (s: String)
    ensures
        s@ == host_name(buf@),
{
    let mut end: usize = 0;
    while end < buf.len() && buf[end] != 0
        invariant
            end <= buf@.len(),
            first_nul(buf@, 0) == first_nul(buf@, end as int),
        decreases buf.len() - end,
    {
        end = end + 1;
    }
    assert(first_nul(buf@, 0) == end);
    let mut bytes: Vec<u8> = Vec::new();
    let mut k: usize = 0;
    while k < end
        invariant
            k <= end <= buf@.len(),
            bytes@ == buf@.take(k as int),
        decreases end - k,
    {
        bytes.push(buf[k]);
        assert(buf@.take(k + 1) =~= buf@.take(k as int).push(buf@[k as int]));
        k = k + 1;
    }
    let raw = lossy_string(bytes.as_slice());
    let name = trim_str(raw.as_str());
    if name.as_str().unicode_len() == 0 {
        String::from_str("localhost")
    } else {
        name
    }
}

} // verus!
