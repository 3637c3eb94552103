//! File-manager data and the text it shows: entries and their order,
//! permission bits, UTC time stamps, remote paths and rename checks.

use vstd::prelude::*;
use vstd::string::StringExecFns;

use crate::text::{
    chars_to_string, key_sorted, lowercase, sort_by_text_key, stable_reorder, str_chars, to_lower, trim_chars, trimmed,
    TextKey,
};

verus! {

/// One directory entry. Its modification time, where known, is counted in
/// whole seconds since 1970-01-01 00:00 UTC, rounded down (negative before
/// 1970).
#[derive(Debug, Clone)]
pub struct FileEntry {
    pub name: String,
    pub is_dir: bool,
    pub size: u64,
    pub modified: Option<i64>,
}

impl FileEntry {
    /// The order of a listing: folders first, then by lowercase name.
    pub fn sort_key(&self) -> (k: (u8, String))
        ensures
            k.0 == (if self.is_dir { 0u8 } else { 1u8 }),
            k.1@ == lowercase(self.name@),
    {
        (if self.is_dir { 0 } else { 1 }, to_lower(self.name.as_str()))
    }
}

/// A listing is ordered folders first, then by lowercase name: the key is
/// `0` for a folder or `1` for a file, followed by the lowercase name, which
/// orders exactly as `sort_key` does.
impl TextKey for FileEntry {
    open spec fn key_view(&self) -> Seq<char> {
        seq![if self.is_dir { '0' } else { '1' }] + lowercase(self.name@)
    }

    fn key_chars(&self) -> (k: Vec<char>) {
        let (_, name) = self.sort_key();
        let mut k: Vec<char> = Vec::new();
        k.push(if self.is_dir { '0' } else { '1' });
        let n = str_chars(name.as_str());
        let mut i: usize = 0;
        while i < n.len()
            invariant
                i <= n@.len(),
                n@ == lowercase(self.name@),
                k@ == seq![if self.is_dir { '0' } else { '1' }] + n@.subrange(0, i as int),
            decreases n.len() - i,
        {
            k.push(n[i]);
            i = i + 1;
        }
        assert(n@.subrange(0, n@.len() as int) =~= n@);
        k
    }
}

/// A directory listing in display order: folders first, then by lowercase
/// name; entries with the same key keep their order.
pub fn sort_entries(entries: Vec<FileEntry>) -> (r: Vec<FileEntry>)
    ensures
        r@.to_multiset() == entries@.to_multiset(),
        key_sorted(r@),
        exists|idx: Seq<int>| stable_reorder(entries@, r@, idx),
{
    sort_by_text_key(entries)
}

/// One item of a remote directory listing as the server reports it: its
/// name, whether it is a folder, its size and modification time (seconds
/// since 1970), where known.
#[derive(Debug, Clone)]
pub struct RemoteItem {
    pub name: String,
    pub is_dir: bool,
    pub size: Option<u64>,
    pub mtime: Option<u64>,
}

/// Items other than the `.` and `..` links are listed.
pub open spec fn listed(it: RemoteItem) -> bool {
    it.name@ != seq!['.'] && it.name@ != seq!['.', '.']
}

/// The time an entry shows for a server's modification time: the same
/// seconds, where the time type (signed 64-bit seconds) can hold them.
pub open spec fn remote_time(mtime: Option<u64>) -> Option<i64> {
    match mtime {
        Some(t) => if t <= i64::MAX { Some(t as i64) } else { None },
        None => None,
    }
}

/// `e` is the entry shown for item `it`: same name and kind, size 0 where
/// unknown, and its modification time (see `remote_time`).
pub open spec fn entry_for(it: RemoteItem, e: FileEntry) -> bool {
    &&& e.name@ == it.name@
    &&& e.is_dir == it.is_dir
    &&& e.size == match it.size { Some(n) => n, None => 0 }
    &&& e.modified == remote_time(it.mtime)
}

/// The entries of a remote directory in display order: `.` and `..` left
/// out, the others ordered as `sort_entries` orders.
pub fn remote_entries(items: &[RemoteItem]) -> (r: Vec<FileEntry>)
    ensures
        exists|built: Seq<FileEntry>, idx: Seq<int>| {
            &&& built.len() == items@.filter(|it: RemoteItem| listed(it)).len()
            &&& forall|k: int| 0 <= k < built.len() ==> entry_for(items@.filter(|it: RemoteItem| listed(it))[k], #[trigger] built[k])
            &&& #[trigger] stable_reorder(built, r@, idx)
            &&& key_sorted(r@)
        },
{
    let ghost pred = |it: RemoteItem| listed(it);
    let mut built: Vec<FileEntry> = Vec::new();
    let mut i: usize = 0;
    proof {
        reveal(Seq::filter);
    }
    assert(items@.subrange(0, 0) =~= Seq::<RemoteItem>::empty());
    while i < items.len()
        invariant
            i <= items@.len(),
            pred == (|it: RemoteItem| listed(it)),
            built@.len() == items@.subrange(0, i as int).filter(pred).len(),
            forall|k: int| 0 <= k < built@.len() ==> entry_for(items@.subrange(0, i as int).filter(pred)[k], #[trigger] built@[k]),
        decreases items.len() - i,
    {
        let it = &items[i];
        proof {
            assert(items@.subrange(0, i + 1) =~= items@.subrange(0, i as int).push(*it));
            items@.subrange(0, i as int).lemma_filter_push(*it, pred);
        }
        let n = str_chars(it.name.as_str());
        let dot = n.len() == 1 && n[0] == '.';
        let dotdot = n.len() == 2 && n[0] == '.' && n[1] == '.';
        proof {
            if !dot {
                assert(n@ != seq!['.']) by {
                    if n@ == seq!['.'] {
                        assert(n@.len() == 1 && n@[0] == '.');
                    }
                }
            }
            if !dotdot {
                assert(n@ != seq!['.', '.']) by {
                    if n@ == seq!['.', '.'] {
                        assert(n@.len() == 2 && n@[0] == '.' && n@[1] == '.');
                    }
                }
            }
            if dot {
                assert(n@ =~= seq!['.']);
            }
            if dotdot {
                assert(n@ =~= seq!['.', '.']);
            }
        }
        if !dot && !dotdot {
            let modified: Option<i64> = match it.mtime {
                Some(t) => if t <= 0x7fff_ffff_ffff_ffff { Some(t as i64) } else { None },
                None => None,
            };
            let size = match it.size {
                Some(v) => v,
                None => 0,
            };
            let e = FileEntry { name: String::from_str(it.name.as_str()), is_dir: it.is_dir, size, modified };
            built.push(e);
        }
        i = i + 1;
    }
    assert(items@.subrange(0, items@.len() as int) =~= items@);
    let ghost b = built@;
    let r = sort_by_text_key(built);
    proof {
        let idx = choose|idx: Seq<int>| stable_reorder(b, r@, idx);
        assert(stable_reorder(b, r@, idx));
    }
    r
}

/// The properties shown for one file or folder.
#[derive(Debug, Clone)]
pub struct EntryInfo {
    pub path: String,
    pub name: String,
    pub kind: String,
    pub size: u64,
    pub permissions: String,
    pub modified: String,
}

/// One `rwx` position: its letter when the bit is set, `-` otherwise.
pub open spec fn perm_char(mode: u32, bit: u32, c: char) -> char {
    if mode & bit != 0 { c } else { '-' }
}

/// The nine `rwxrwxrwx` characters of a Unix mode.
pub open spec fn perm_chars(mode: u32) -> Seq<char> {
    seq![
        perm_char(mode, 0o400, 'r'), perm_char(mode, 0o200, 'w'), perm_char(mode, 0o100, 'x'),
        perm_char(mode, 0o040, 'r'), perm_char(mode, 0o020, 'w'), perm_char(mode, 0o010, 'x'),
        perm_char(mode, 0o004, 'r'), perm_char(mode, 0o002, 'w'), perm_char(mode, 0o001, 'x'),
    ]
}

pub open spec fn digit_char(d: int) -> char {
    (48 + d) as char
}

/// The digits of `n` in base `b` (2 to 10), most significant first.
pub open spec fn digits(n: nat, b: nat) -> Seq<char>
    decreases n,
{
    if n < b || b < 2 {
        seq![digit_char(n as int)]
    } else {
        proof {
            lemma_div_smaller(n as int, b as int);
        }
        digits(n / b, b).push(digit_char((n % b) as int))
    }
}

pub proof fn lemma_div_smaller(n: int, b: int)
    requires
        n >= b >= 2,
    ensures
        0 <= n / b < n,
{
    assert(0 <= n / b < n) by (nonlinear_arith)
        requires
            n >= b >= 2,
    ;
}

pub(crate) fn push_digits(out: &mut Vec<char>, n: u64, b: u64)
    requires
        2 <= b <= 10,
    ensures
        final(out)@ == old(out)@ + digits(n as nat, b as nat),
    decreases n,
{
    if n < b {
        out.push(char_digit(n));
        assert(digits(n as nat, b as nat) =~= seq![digit_char(n as int)]);
    } else {
        proof {
            lemma_div_smaller(n as int, b as int);
        }
        push_digits(out, n / b, b);
        out.push(char_digit(n % b));
        assert(digits(n as nat, b as nat) == digits((n / b) as nat, b as nat).push(digit_char((n % b) as int)));
    }
}

fn char_digit(d: u64) -> (c: char)
    requires
        d < 10,
    ensures
        c == digit_char(d as int),
{
    if d == 0 { '0' }
    else if d == 1 { '1' }
    else if d == 2 { '2' }
    else if d == 3 { '3' }
    else if d == 4 { '4' }
    else if d == 5 { '5' }
    else if d == 6 { '6' }
    else if d == 7 { '7' }
    else if d == 8 { '8' }
    else { '9' }
}

/// `rwxr-xr-x (755)`: the permission letters and the mode in octal.
pub open spec fn mode_text(mode: u32) -> Seq<char> {
    perm_chars(mode) + seq![' ', '('] + digits(mode as nat, 8) + seq![')']
}

pub fn format_unix_mode(mode: u32) -> (s: String)
    ensures
        s@ == mode_text(mode),
{
    let bits: [u32; 9] = [0o400, 0o200, 0o100, 0o040, 0o020, 0o010, 0o004, 0o002, 0o001];
    let letters: [char; 9] = ['r', 'w', 'x', 'r', 'w', 'x', 'r', 'w', 'x'];
    let mut out: Vec<char> = Vec::new();
    let mut i: usize = 0;
    while i < 9
        invariant
            i <= 9,
            bits@ == seq![0o400u32, 0o200, 0o100, 0o040, 0o020, 0o010, 0o004, 0o002, 0o001],
            letters@ == seq!['r', 'w', 'x', 'r', 'w', 'x', 'r', 'w', 'x'],
            out@ == perm_chars(mode).subrange(0, i as int),
        decreases 9 - i,
    {
        let c = if mode & bits[i] != 0 { letters[i] } else { '-' };
        out.push(c);
        assert(out@ =~= perm_chars(mode).subrange(0, i + 1));
        i = i + 1;
    }
    out.push(' ');
    out.push('(');
    push_digits(&mut out, mode as u64, 8);
    out.push(')');
    assert(out@ =~= mode_text(mode));
    chars_to_string(out.as_slice())
}

/// `n` in decimal, with leading zeros up to `width` digits.
pub open spec fn padded(n: nat, width: nat) -> Seq<char> {
    let d = digits(n, 10);
    Seq::new(if d.len() < width { (width - d.len()) as nat } else { 0 }, |i: int| '0') + d
}

fn push_padded(out: &mut Vec<char>, n: u64, width: usize)
    ensures
        final(out)@ == old(out)@ + padded(n as nat, width as nat),
{
    let mut d: Vec<char> = Vec::new();
    push_digits(&mut d, n, 10);
    assert(d@ =~= digits(n as nat, 10));
    let ghost start = out@;
    let zeros: usize = if d.len() < width { width - d.len() } else { 0 };
    let mut i: usize = 0;
    while i < zeros
        invariant
            i <= zeros,
            out@ == start + Seq::new(i as nat, |k: int| '0'),
        decreases zeros - i,
    {
        out.push('0');
        assert(out@ =~= start + Seq::new((i + 1) as nat, |k: int| '0'));
        i = i + 1;
    }
    let ghost mid = out@;
    let mut j: usize = 0;
    while j < d.len()
        invariant
            j <= d@.len(),
            out@ == mid + d@.subrange(0, j as int),
        decreases d.len() - j,
    {
        out.push(d[j]);
        j = j + 1;
    }
    assert(out@ =~= start + padded(n as nat, width as nat));
}

/// The civil (proleptic Gregorian) date of a day count since 1970-01-01, as
/// (year, month, day).
pub open spec fn civil_from_days(days: int) -> (int, int, int) {
    let z = days + 719468;
    let era = z / 146097;
    let doe = z % 146097;
    let yoe = (doe - doe / 1460 + doe / 36524 - doe / 146096) / 365;
    let y = yoe + era * 400;
    let doy = doe - (365 * yoe + yoe / 4 - yoe / 100);
    let mp = (5 * doy + 2) / 153;
    let d = doy - (153 * mp + 2) / 5 + 1;
    let mo = if mp < 10 { mp + 3 } else { mp - 9 };
    (if mp < 10 { y } else { y + 1 }, mo, d)
}

/// The day count since 1970-01-01 of a civil date (the inverse of
/// `civil_from_days`).
pub open spec fn days_from_civil(y: int, m: int, d: int) -> int {
    let y1 = if m <= 2 { y - 1 } else { y };
    let era = y1 / 400;
    let yoe = y1 - era * 400;
    let mp = if m > 2 { m - 3 } else { m + 9 };
    let doy = (153 * mp + 2) / 5 + d - 1;
    let doe = yoe * 365 + yoe / 4 - yoe / 100 + doy;
    era * 146097 + doe - 719468
}

/// The date shown for a day is that day: converting it back to a day count
/// gives the count it was computed from, and its month and day are in range.
pub proof fn lemma_civil_round_trip(days: int)
    requires
        days >= 0,
    ensures
        ({
            let c = civil_from_days(days);
            &&& days_from_civil(c.0, c.1, c.2) == days
            &&& 1 <= c.1 <= 12
            &&& 1 <= c.2 <= 31
        }),
{
    let z = days + 719468;
    let era = z / 146097;
    let doe = z % 146097;
    lemma_civil_bounds(doe);
    let yoe = (doe - doe / 1460 + doe / 36524 - doe / 146096) / 365;
    let doy = doe - (365 * yoe + yoe / 4 - yoe / 100);
    let mp = (5 * doy + 2) / 153;
    assert(0 <= mp <= 11);
    let d = doy - (153 * mp + 2) / 5 + 1;
    assert(1 <= d <= 31);
    let y = yoe + era * 400;
    let c = civil_from_days(days);
    assert(era >= 0);
    assert((yoe + era * 400) / 400 == era) by (nonlinear_arith)
        requires
            0 <= yoe <= 399,
            era >= 0,
    ;
    assert(era * 146097 + doe == z);
}

proof fn lemma_civil_bounds(doe: int)
    requires
        0 <= doe < 146097,
    ensures
        ({
            let yoe = (doe - doe / 1460 + doe / 36524 - doe / 146096) / 365;
            let doy = doe - (365 * yoe + yoe / 4 - yoe / 100);
            &&& 0 <= yoe <= 399
            &&& 0 <= doy <= 365
        }),
{
    let yoe = (doe - doe / 1460 + doe / 36524 - doe / 146096) / 365;
    assert(0 <= yoe <= 399);
    let doy = doe - (365 * yoe + yoe / 4 - yoe / 100);
    assert(0 <= doy <= 365);
}

fn epoch_days_to_ymd(days: u64) -> (r: (u64, u64, u64))
    requires
        days <= u64::MAX - 719468,
    ensures
        (r.0 as int, r.1 as int, r.2 as int) == civil_from_days(days as int),
        1 <= r.1 <= 12,
        1 <= r.2 <= 31,
{
    let z = days + 719468;
    let era = z / 146097;
    let doe = z % 146097;
    proof {
        lemma_civil_bounds(doe as int);
        assert(era * 146097 <= z);
    }
    let yoe = (doe - doe / 1460 + doe / 36524 - doe / 146096) / 365;
    let y = yoe + era * 400;
    let doy = doe - (365 * yoe + yoe / 4 - yoe / 100);
    let mp = (5 * doy + 2) / 153;
    let d = doy - (153 * mp + 2) / 5 + 1;
    let mo = if mp < 10 { mp + 3 } else { mp - 9 };
    let y = if mp < 10 { y } else { y + 1 };
    (y, mo, d)
}

/// `YYYY-MM-DD hh:mm:ss UTC` for a count of seconds since the Unix epoch.
pub open spec fn utc_text(secs: u64) -> Seq<char> {
    let days = secs / 86400;
    let time = secs % 86400;
    let ymd = civil_from_days(days as int);
    date_text(ymd.0 as u64, ymd.1 as u64, ymd.2 as u64) + seq![' '] + clock_text(time) + seq![' ', 'U', 'T', 'C']
}

/// The dash shown where no time is known.
pub open spec fn no_time_text() -> Seq<char> {
    seq!['\u{2014}']
}

pub open spec fn date_text(y: u64, mo: u64, d: u64) -> Seq<char> {
    padded(y as nat, 4) + seq!['-'] + padded(mo as nat, 2) + seq!['-'] + padded(d as nat, 2)
}

pub open spec fn clock_text(time: u64) -> Seq<char> {
    padded((time / 3600) as nat, 2) + seq![':'] + padded(((time % 3600) / 60) as nat, 2) + seq![':']
        + padded((time % 60) as nat, 2)
}

fn push_date(out: &mut Vec<char>, y: u64, mo: u64, d: u64)
    ensures
        final(out)@ == old(out)@ + date_text(y, mo, d),
{
    push_padded(out, y, 4);
    out.push('-');
    push_padded(out, mo, 2);
    out.push('-');
    push_padded(out, d, 2);
    assert(out@ =~= old(out)@ + date_text(y, mo, d));
}

fn push_clock(out: &mut Vec<char>, time: u64)
    ensures
        final(out)@ == old(out)@ + clock_text(time),
{
    push_padded(out, time / 3600, 2);
    out.push(':');
    push_padded(out, (time % 3600) / 60, 2);
    out.push(':');
    push_padded(out, time % 60, 2);
    assert(out@ =~= old(out)@ + clock_text(time));
}

/// The time stamp text for a count of seconds since the Unix epoch.
pub fn format_unix_time(secs: u64) -> (s: String)
    ensures
        s@ == utc_text(secs),
{
    let days = secs / 86400;
    let time = secs % 86400;
    let (y, mo, d) = epoch_days_to_ymd(days);
    let mut out: Vec<char> = Vec::new();
    push_date(&mut out, y, mo, d);
    out.push(' ');
    push_clock(&mut out, time);
    out.push(' ');
    out.push('U');
    out.push('T');
    out.push('C');
    proof {
        let ymd = civil_from_days(days as int);
        assert(date_text(y, mo, d) == padded(ymd.0 as nat, 4) + seq!['-'] + padded(ymd.1 as nat, 2) + seq!['-']
            + padded(ymd.2 as nat, 2));
        assert(out@ =~= date_text(y, mo, d) + seq![' '] + clock_text(time) + seq![' ', 'U', 'T', 'C']);
    }
    chars_to_string(out.as_slice())
}

fn no_time() -> (s: String)
    ensures
        s@ == no_time_text(),
{
    let v: Vec<char> = vec!['\u{2014}'];
    assert(v@ =~= no_time_text());
    chars_to_string(v.as_slice())
}

/// The text shown for a modification time (whole seconds since 1970, see
/// `FileEntry`).
pub open spec fn time_text(t: Option<i64>) -> Seq<char> {
    match t {
        Some(secs) => if secs >= 0 { utc_text(secs as u64) } else { no_time_text() },
        None => no_time_text(),
    }
}

/// The modification time of an entry as UTC text, or a dash when it is
/// unknown or before 1970.
pub fn format_time(t: Option<i64>) -> (s: String)
    ensures
        s@ == time_text(t),
{
    match t {
        None => no_time(),
        Some(secs) => if secs >= 0 { format_unix_time(secs as u64) } else { no_time() },
    }
}

/// `base/name` for a remote (SFTP) path, with no doubled `/`.
pub open spec fn remote_join(base: Seq<char>, name: Seq<char>) -> Seq<char> {
    if base.len() > 0 && base.last() == '/' {
        base + name
    } else {
        base + seq!['/'] + name
    }
}

pub fn join_remote(base: &str, name: &str) -> (s: String)
    ensures
        s@ == remote_join(base@, name@),
{
    let bc = str_chars(base);
    if bc.len() > 0 && bc[bc.len() - 1] == '/' {
        String::from_str(base).concat(name)
    } else {
        proof {
            reveal_strlit("/");
        }
        let r = String::from_str(base).concat("/").concat(name);
        assert(r@ =~= remote_join(base@, name@));
        r
    }
}

/// What renaming `old_name` to `new_name` amounts to: an error message for a
/// name that is empty or not a plain file name, nothing when the name does
/// not change, else the (trimmed) new name.
pub open spec fn rename_target(old_name: Seq<char>, new_name: Seq<char>) -> Result<Option<Seq<char>>, Seq<char>> {
    let n = trimmed(new_name);
    if n.len() == 0 {
        Err("Name cannot be empty"@)
    } else if n.contains('/') || n.contains('\\') || n == seq!['.'] || n == seq!['.', '.'] {
        Err("Invalid name"@)
    } else if old_name == n {
        Ok(None)
    } else {
        Ok(Some(n))
    }
}

pub open spec fn rename_view(r: Result<Option<String>, String>) -> Result<Option<Seq<char>>, Seq<char>> {
    match r {
        Ok(Some(s)) => Ok(Some(s@)),
        Ok(None) => Ok(None),
        Err(e) => Err(e@),
    }
}

fn contains_char(s: &[char], c: char) -> (b: bool)
    ensures
        b == s@.contains(c),
{
    let mut i: usize = 0;
    while i < s.len()
        invariant
            i <= s@.len(),
            forall|k: int| 0 <= k < i ==> s@[k] != c,
        decreases s.len() - i,
    {
        if s[i] == c {
            return true;
        }
        i = i + 1;
    }
    false
}

/// Check a rename request before touching the file system (see
/// `rename_target`).
pub fn check_rename(old_name: &str, new_name: &str) -> (r: Result<Option<String>, String>)
    ensures
        rename_view(r) == rename_target(old_name@, new_name@),
{
    let nc = str_chars(new_name);
    let n = trim_chars(nc.as_slice());
    if n.len() == 0 {
        return Err(String::from_str("Name cannot be empty"));
    }
    let dots = (n.len() == 1 && n[0] == '.') || (n.len() == 2 && n[0] == '.' && n[1] == '.');
    proof {
        if n@.len() == 1 && n@[0] == '.' {
            assert(n@ =~= seq!['.']);
        }
        if n@.len() == 2 && n@[0] == '.' && n@[1] == '.' {
            assert(n@ =~= seq!['.', '.']);
        }
    }
    if contains_char(n.as_slice(), '/') || contains_char(n.as_slice(), '\\') || dots {
        return Err(String::from_str("Invalid name"));
    }
    let oc = str_chars(old_name);
    let mut same = oc.len() == n.len();
    let mut i: usize = 0;
    while i < n.len() && same
        invariant
            i <= n@.len(),
            same ==> oc@.len() == n@.len(),
            same == (oc@.len() == n@.len() && forall|k: int| 0 <= k < i ==> oc@[k] == n@[k]),
        decreases n.len() - i,
    {
        if oc[i] != n[i] {
            same = false;
        }
        i = i + 1;
    }
    proof {
        if same {
            assert(oc@ =~= n@);
        }
        if oc@ == n@ {
            assert(same);
        }
    }
    if same {
        Ok(None)
    } else {
        Ok(Some(chars_to_string(n.as_slice())))
    }
}

} // verus!
