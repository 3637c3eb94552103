//! Text conversions from the standard library that the terminal logic relies on.

use vstd::prelude::*;
use vstd::multiset::Multiset;
use vstd::utf8::*;

verus! {

/// What `String::from_utf8_lossy` yields for a byte sequence: the decoded
/// characters, with each invalid part replaced by U+FFFD.
pub uninterp spec fn utf8_lossy(bytes: Seq<u8>) -> Seq<char>;

/// `String::from_utf8_lossy(bytes).into_owned()`.
///
/// Trusted: the result is what the name `utf8_lossy` gives for the bytes, and
/// (as the standard library documents) valid UTF-8 is decoded unchanged.
#[verifier::external_body]
pub(crate) fn lossy_string(bytes: &[u8]) -> (s: String)
    ensures
        s@ == utf8_lossy(bytes@),
        valid_utf8(bytes@) ==> s@ == decode_utf8(bytes@),
{
    String::from_utf8_lossy(bytes).into_owned()
}

/// `std::str::from_utf8`, giving the decoded text when the bytes are valid UTF-8.
///
/// Trusted: the call succeeds exactly on valid UTF-8, and then the text is the
/// decoding of the bytes.
#[verifier::external_body]
pub(crate) fn strict_string(bytes: &[u8]) -> (r: Option<String>)
    ensures
        r is Some <==> valid_utf8(bytes@),
        r matches Some(s) ==> s@ == decode_utf8(bytes@),
{
    match std::str::from_utf8(bytes) {
        Ok(s) => Some(s.to_string()),
        Err(_) => None,
    }
}

/// Collects characters into a `String` (`FromIterator<char>`).
///
/// Trusted: the string holds exactly the given characters.
#[verifier::external_body]
pub(crate) fn chars_to_string(chars: &[char]) -> (s: String)
    ensures
        s@ == chars@,
{
    chars.iter().collect()
}

/// What `str::to_lowercase` gives for a string (Unicode lowercase mapping).
pub uninterp spec fn lowercase(s: Seq<char>) -> Seq<char>;

/// `str::to_lowercase`.
///
/// Trusted: the result is the Unicode lowercase mapping of `s`, named
/// `lowercase`; the mapping itself is not written out here.
#[verifier::external_body]
pub(crate) fn to_lower(s: &str) -> (r: String)
    ensures
        r@ == lowercase(s@),
{
    s.to_lowercase()
}

/// The characters of a string slice, in order.
pub fn str_chars(s: &str) -> (v: Vec<char>)
    ensures
        v@ == s@,
{
    let n = s.unicode_len();
    let mut v: Vec<char> = Vec::new();
    let mut i: usize = 0;
    while i < n
        invariant
            n == s@.len(),
            i <= n,
            v@ == s@.subrange(0, i as int),
        decreases n - i,
    {
        v.push(s.get_char(i));
        i = i + 1;
    }
    assert(v@ =~= s@);
    v
}

/// The `White_Space` characters of Unicode, which `char::is_whitespace`
/// (and so `str::trim`) recognises.
pub open spec fn is_space(c: char) -> bool {
    ||| ('\u{9}' <= c && c <= '\u{d}')
    ||| c == ' '
    ||| c == '\u{85}'
    ||| c == '\u{a0}'
    ||| c == '\u{1680}'
    ||| ('\u{2000}' <= c && c <= '\u{200a}')
    ||| c == '\u{2028}'
    ||| c == '\u{2029}'
    ||| c == '\u{202f}'
    ||| c == '\u{205f}'
    ||| c == '\u{3000}'
}

/// `char::is_whitespace`.
pub fn is_whitespace(c: char) -> (b: bool)
    ensures
        b == is_space(c),
{
    ('\u{9}' <= c && c <= '\u{d}') || c == ' ' || c == '\u{85}' || c == '\u{a0}' || c == '\u{1680}'
        || ('\u{2000}' <= c && c <= '\u{200a}') || c == '\u{2028}' || c == '\u{2029}' || c == '\u{202f}'
        || c == '\u{205f}' || c == '\u{3000}'
}

/// `s` without its leading white space.
pub open spec fn trim_start(s: Seq<char>) -> Seq<char>
    decreases s.len(),
{
    if s.len() > 0 && is_space(s[0]) {
        trim_start(s.drop_first())
    } else {
        s
    }
}

/// `s` without its trailing white space.
pub open spec fn trim_end(s: Seq<char>) -> Seq<char>
    decreases s.len(),
{
    if s.len() > 0 && is_space(s.last()) {
        trim_end(s.drop_last())
    } else {
        s
    }
}

/// `str::trim`: `s` without leading and trailing white space.
pub open spec fn trimmed(s: Seq<char>) -> Seq<char> {
    trim_end(trim_start(s))
}

proof fn lemma_trim_start_skip(s: Seq<char>, i: int)
    requires
        0 <= i <= s.len(),
        forall|k: int| 0 <= k < i ==> is_space(#[trigger] s[k]),
    ensures
        trim_start(s) == trim_start(s.subrange(i, s.len() as int)),
    decreases i,
{
    if i > 0 {
        assert(is_space(s[0]));
        assert(s.drop_first().subrange(i - 1, s.drop_first().len() as int) =~= s.subrange(i, s.len() as int));
        lemma_trim_start_skip(s.drop_first(), i - 1);
    } else {
        assert(s.subrange(0, s.len() as int) =~= s);
    }
}

proof fn lemma_trim_end_skip(s: Seq<char>, j: int)
    requires
        0 <= j <= s.len(),
        forall|k: int| j <= k < s.len() ==> is_space(#[trigger] s[k]),
    ensures
        trim_end(s) == trim_end(s.subrange(0, j)),
    decreases s.len() - j,
{
    if j < s.len() {
        assert(s.drop_last().subrange(0, j) =~= s.subrange(0, j));
        lemma_trim_end_skip(s.drop_last(), j);
    } else {
        assert(s.subrange(0, j) =~= s);
    }
}

/// `str::trim`, on characters.
pub fn trim_chars(s: &[char]) -> (t: Vec<char>)
    ensures
        t@ == trimmed(s@),
{
    let n = s.len();
    let mut i: usize = 0;
    while i < n && is_whitespace(s[i])
        invariant
            i <= n == s@.len(),
            forall|k: int| 0 <= k < i ==> is_space(#[trigger] s@[k]),
        decreases n - i,
    {
        i = i + 1;
    }
    let ghost mid = s@.subrange(i as int, n as int);
    proof {
        lemma_trim_start_skip(s@, i as int);
        if i < n {
            assert(mid[0] == s@[i as int]);
        }
        assert(trim_start(s@) == mid);
    }
    let mut j: usize = n;
    while j > i && is_whitespace(s[j - 1])
        invariant
            i <= j <= n == s@.len(),
            forall|k: int| j <= k < n ==> is_space(#[trigger] s@[k]),
        decreases j,
    {
        j = j - 1;
    }
    let mut t: Vec<char> = Vec::new();
    let mut k: usize = i;
    while k < j
        invariant
            i <= k <= j <= n == s@.len(),
            t@ == s@.subrange(i as int, k as int),
        decreases j - k,
    {
        t.push(s[k]);
        k = k + 1;
    }
    proof {
        assert forall|q: int| (j - i) <= q < mid.len() implies is_space(#[trigger] mid[q]) by {
            assert(mid[q] == s@[i + q]);
        }
        lemma_trim_end_skip(mid, j - i);
        assert(mid.subrange(0, j - i) =~= t@);
        if j > i {
            assert(t@.last() == s@[j - 1]);
        }
    }
    t
}

/// `str::trim`, as an owned string.
pub fn trim_str(s: &str) -> (t: String)
    ensures
        t@ == trimmed(s@),
{
    let v = str_chars(s);
    let t = trim_chars(v.as_slice());
    chars_to_string(t.as_slice())
}

/// `str::starts_with` on characters.
pub fn has_prefix(s: &[char], p: &[char]) -> (b: bool)
    ensures
        b == p@.is_prefix_of(s@),
{
    if p.len() > s.len() {
        return false;
    }
    let mut i: usize = 0;
    while i < p.len()
        invariant
            p@.len() <= s@.len(),
            i <= p@.len(),
            forall|k: int| 0 <= k < i ==> s@[k] == p@[k],
        decreases p.len() - i,
    {
        if s[i] != p[i] {
            return false;
        }
        i = i + 1;
    }
    assert(s@.subrange(0, p@.len() as int) =~= p@);
    true
}

/// `str::ends_with` on characters.
pub fn has_suffix(s: &[char], p: &[char]) -> (b: bool)
    ensures
        b == p@.is_suffix_of(s@),
{
    if p.len() > s.len() {
        return false;
    }
    let off = s.len() - p.len();
    let mut i: usize = 0;
    while i < p.len()
        invariant
            p@.len() <= s@.len(),
            off + p@.len() == s@.len(),
            s@.len() == s.len(),
            p@.len() == p.len(),
            i <= p@.len(),
            forall|k: int| 0 <= k < i ==> s@[off + k] == p@[k],
        decreases p.len() - i,
    {
        if s[off + i] != p[i] {
            assert(s@.subrange(off as int, s@.len() as int)[i as int] != p@[i as int]);
            return false;
        }
        i = i + 1;
    }
    assert(s@.subrange(off as int, s@.len() as int) =~= p@);
    true
}

/// Whether `p` occurs in `s` at position `i`.
pub open spec fn occurs_at(s: Seq<char>, p: Seq<char>, i: int) -> bool {
    0 <= i && i + p.len() <= s.len() && s.subrange(i, i + p.len()) == p
}

/// `str::contains` with a string pattern.
pub open spec fn contains_text(s: Seq<char>, p: Seq<char>) -> bool {
    exists|i: int| occurs_at(s, p, i)
}

/// `str::contains` on characters.
pub fn has_infix(s: &[char], p: &[char]) -> (b: bool)
    ensures
        b == contains_text(s@, p@),
{
    if p.len() > s.len() {
        assert forall|i: int| !occurs_at(s@, p@, i) by {}
        return false;
    }
    if p.len() == 0 {
        assert(s@.subrange(0, 0) =~= p@);
        assert(occurs_at(s@, p@, 0));
        return true;
    }
    let end = s.len() - p.len() + 1;
    let mut i: usize = 0;
    while i < end
        invariant
            end + p@.len() == s@.len() + 1,
            s@.len() == s.len(),
            p@.len() == p.len(),
            p@.len() > 0,
            i <= end,
            forall|k: int| 0 <= k < i ==> !occurs_at(s@, p@, k),
        decreases end - i,
    {
        let mut j: usize = 0;
        let mut same = true;
        while j < p.len()
            invariant
                i < end,
                end + p@.len() == s@.len() + 1,
                s@.len() == s.len(),
                p@.len() == p.len(),
                j <= p@.len(),
                same == forall|k: int| 0 <= k < j ==> s@[i + k] == p@[k],
            decreases p.len() - j,
        {
            if s[i + j] != p[j] {
                same = false;
            }
            j = j + 1;
        }
        if same {
            assert(s@.subrange(i as int, i + p@.len()) =~= p@);
            assert(occurs_at(s@, p@, i as int));
            return true;
        }
        assert(!occurs_at(s@, p@, i as int)) by {
            let k = choose|k: int| 0 <= k < p@.len() && s@[i + k] != p@[k];
            assert(s@.subrange(i as int, i + p@.len())[k] != p@[k]);
        }
        i = i + 1;
    }
    false
}

/// The order of `str` and `String`: lexicographic by character (which is
/// the order of their UTF-8 bytes).
pub open spec fn text_le(a: Seq<char>, b: Seq<char>) -> bool
    decreases a.len(),
{
    if a.len() == 0 {
        true
    } else if b.len() == 0 {
        false
    } else if a[0] != b[0] {
        a[0] < b[0]
    } else {
        text_le(a.drop_first(), b.drop_first())
    }
}

pub proof fn lemma_text_le_total(a: Seq<char>, b: Seq<char>)
    ensures
        text_le(a, b) || text_le(b, a),
    decreases a.len(),
{
    if a.len() > 0 && b.len() > 0 && a[0] == b[0] {
        lemma_text_le_total(a.drop_first(), b.drop_first());
    }
}

pub proof fn lemma_text_le_refl(a: Seq<char>)
    ensures
        text_le(a, a),
    decreases a.len(),
{
    if a.len() > 0 {
        lemma_text_le_refl(a.drop_first());
    }
}

pub proof fn lemma_text_le_trans(a: Seq<char>, b: Seq<char>, c: Seq<char>)
    requires
        text_le(a, b),
        text_le(b, c),
    ensures
        text_le(a, c),
    decreases a.len(),
{
    if a.len() > 0 && b.len() > 0 && c.len() > 0 && a[0] == b[0] && b[0] == c[0] {
        lemma_text_le_trans(a.drop_first(), b.drop_first(), c.drop_first());
    }
}

proof fn lemma_text_le_step(a: Seq<char>, b: Seq<char>, i: int)
    requires
        0 <= i < a.len(),
        i < b.len(),
        a[i] == b[i],
    ensures
        text_le(a.subrange(i, a.len() as int), b.subrange(i, b.len() as int))
            == text_le(a.subrange(i + 1, a.len() as int), b.subrange(i + 1, b.len() as int)),
{
    assert(a.subrange(i, a.len() as int).drop_first() =~= a.subrange(i + 1, a.len() as int));
    assert(b.subrange(i, b.len() as int).drop_first() =~= b.subrange(i + 1, b.len() as int));
}

/// `a <= b` for strings given by their characters.
pub fn text_le_exec(a: &[char], b: &[char]) -> (r: bool)
    ensures
        r == text_le(a@, b@),
{
    let mut i: usize = 0;
    assert(a@.subrange(0, a@.len() as int) =~= a@);
    assert(b@.subrange(0, b@.len() as int) =~= b@);
    while i < a.len() && i < b.len()
        invariant
            i <= a@.len(),
            i <= b@.len(),
            text_le(a@, b@) == text_le(a@.subrange(i as int, a@.len() as int), b@.subrange(i as int, b@.len() as int)),
        decreases a.len() - i,
    {
        if a[i] != b[i] {
            assert(a@.subrange(i as int, a@.len() as int)[0] == a@[i as int]);
            assert(b@.subrange(i as int, b@.len() as int)[0] == b@[i as int]);
            return a[i] < b[i];
        }
        proof {
            lemma_text_le_step(a@, b@, i as int);
        }
        i = i + 1;
    }
    i == a.len()
}

/// A value listed in the order of a text key.
pub trait TextKey {
    spec fn key_view(&self) -> Seq<char>;

    fn key_chars(&self) -> (k: Vec<char>)
        ensures
            k@ == self.key_view();
}

pub open spec fn key_sorted<T: TextKey>(v: Seq<T>) -> bool {
    forall|i: int, j: int| 0 <= i < j < v.len() ==> text_le((#[trigger] v[i]).key_view(), (#[trigger] v[j]).key_view())
}

/// `out` is `input` reordered, `idx` giving each item's position in
/// `input`, with items of equal keys kept in their input order.
pub open spec fn stable_reorder<T: TextKey>(input: Seq<T>, out: Seq<T>, idx: Seq<int>) -> bool {
    &&& idx.len() == out.len()
    &&& out.len() == input.len()
    &&& forall|k: int| 0 <= k < out.len() ==> 0 <= #[trigger] idx[k] < input.len() && out[k] == input[idx[k]]
    &&& forall|k: int, l: int| 0 <= k < l < out.len() ==> #[trigger] idx[k] != #[trigger] idx[l]
    &&& forall|k: int, l: int| 0 <= k < l < out.len() && (#[trigger] out[k]).key_view() == (#[trigger] out[l]).key_view() ==> idx[k] < idx[l]
}

/// Sort items by their text key (an insertion sort that keeps equal keys in
/// their original order).
pub fn sort_by_text_key<T: TextKey>(items: Vec<T>) -> (r: Vec<T>)
    ensures
        r@.to_multiset() == items@.to_multiset(),
        key_sorted(r@),
        exists|idx: Seq<int>| stable_reorder(items@, r@, idx),
{
    broadcast use vstd::seq_lib::group_to_multiset_ensures;
    let ghost orig = items@;
    let mut rest = items;
    let mut r: Vec<T> = Vec::new();
    let ghost mut idx: Seq<int> = Seq::empty();
    assert(r@.to_multiset().add(rest@.to_multiset()) =~= orig.to_multiset());
    assert(orig.subrange(0, orig.len() as int) =~= orig);
    while rest.len() > 0
        invariant
            r@.to_multiset().add(rest@.to_multiset()) == orig.to_multiset(),
            key_sorted(r@),
            rest@.len() <= orig.len(),
            rest@ == orig.subrange(orig.len() - rest@.len(), orig.len() as int),
            idx.len() == r@.len(),
            r@.len() == orig.len() - rest@.len(),
            forall|k: int| 0 <= k < r@.len() ==> 0 <= #[trigger] idx[k] < r@.len() && r@[k] == orig[idx[k]],
            forall|k: int, l: int| 0 <= k < l < r@.len() ==> #[trigger] idx[k] != #[trigger] idx[l],
            forall|k: int, l: int| 0 <= k < l < r@.len() && (#[trigger] r@[k]).key_view() == (#[trigger] r@[l]).key_view() ==> idx[k] < idx[l],
        decreases rest.len(),
    {
        let ghost before = rest@;
        let ghost t = r@.len() as int;
        let x = rest.remove(0);
        assert(x == orig[t]);
        proof {
            vstd::seq_lib::to_multiset_remove(before, 0);
        }
        let xk = x.key_chars();
        let mut j: usize = r.len();
        while j > 0 && !text_le_exec(r[j - 1].key_chars().as_slice(), xk.as_slice())
            invariant
                j <= r@.len(),
                key_sorted(r@),
                xk@ == x.key_view(),
                forall|k: int| j <= k < r@.len() ==> !text_le((#[trigger] r@[k]).key_view(), x.key_view()),
            decreases j,
        {
            j = j - 1;
        }
        let ghost old_r = r@;
        proof {
            assert forall|k: int| 0 <= k < j implies text_le((#[trigger] old_r[k]).key_view(), x.key_view()) by {
                if k < j - 1 {
                    lemma_text_le_trans(old_r[k].key_view(), old_r[j - 1].key_view(), x.key_view());
                }
            }
            assert forall|k: int| j <= k < old_r.len() implies text_le(x.key_view(), (#[trigger] old_r[k]).key_view()) by {
                lemma_text_le_total(x.key_view(), old_r[k].key_view());
            }
        }
        let ghost old_idx = idx;
        r.insert(j, x);
        proof {
            idx = old_idx.insert(j as int, t);
            assert(r@ == old_r.insert(j as int, x));
            assert forall|k: int| 0 <= k < r@.len() implies 0 <= #[trigger] idx[k] < r@.len() && r@[k] == orig[idx[k]] by {
                if k > j {
                    assert(idx[k] == old_idx[k - 1] && r@[k] == old_r[k - 1]);
                } else if k < j {
                    assert(idx[k] == old_idx[k] && r@[k] == old_r[k]);
                }
            }
            assert forall|k: int, l: int| 0 <= k < l < r@.len() implies #[trigger] idx[k] != #[trigger] idx[l] by {
                if k < j && l > j {
                    assert(idx[k] == old_idx[k] && idx[l] == old_idx[l - 1]);
                } else if k > j {
                    assert(idx[k] == old_idx[k - 1] && idx[l] == old_idx[l - 1]);
                } else if l < j {
                    assert(idx[k] == old_idx[k] && idx[l] == old_idx[l]);
                } else if k == j {
                    assert(idx[l] == old_idx[l - 1]);
                } else {
                    assert(idx[k] == old_idx[k]);
                }
            }
            assert forall|k: int, l: int| 0 <= k < l < r@.len() && (#[trigger] r@[k]).key_view() == (#[trigger] r@[l]).key_view() implies idx[k] < idx[l] by {
                if k < j && l > j {
                    assert(idx[k] == old_idx[k] && idx[l] == old_idx[l - 1]);
                    assert(r@[k] == old_r[k] && r@[l] == old_r[l - 1]);
                } else if k > j {
                    assert(idx[k] == old_idx[k - 1] && idx[l] == old_idx[l - 1]);
                    assert(r@[k] == old_r[k - 1] && r@[l] == old_r[l - 1]);
                } else if l < j {
                    assert(idx[k] == old_idx[k] && idx[l] == old_idx[l]);
                    assert(r@[k] == old_r[k] && r@[l] == old_r[l]);
                } else if k == j {
                    assert(r@[l] == old_r[l - 1]);
                    lemma_text_le_refl(x.key_view());
                    assert(!text_le(old_r[l - 1].key_view(), x.key_view()));
                } else {
                    assert(idx[k] == old_idx[k]);
                }
            }
            assert(rest@ =~= orig.subrange(orig.len() - rest@.len(), orig.len() as int));
            assert forall|a: int, b: int| 0 <= a < b < r@.len() implies text_le((#[trigger] r@[a]).key_view(), (#[trigger] r@[b]).key_view()) by {
                if a < j && b > j {
                    assert(r@[b] == old_r[b - 1]);
                    assert(text_le(old_r[a].key_view(), old_r[b - 1].key_view()));
                } else if a == j {
                    assert(r@[b] == old_r[b - 1]);
                } else if a > j {
                    assert(r@[a] == old_r[a - 1] && r@[b] == old_r[b - 1]);
                }
            }
            vstd::seq_lib::to_multiset_insert(old_r, j as int, x);
            assert(rest@ == before.remove(0));
            assert(before[0] == x);
            assert(before.contains(x));
            vstd::seq_lib::to_multiset_contains(before, x);
            broadcast use vstd::multiset::group_multiset_axioms;
            assert(r@.to_multiset().add(rest@.to_multiset()) =~= orig.to_multiset());
        }
    }
    assert(rest@.to_multiset() =~= Multiset::empty());
    assert(r@.to_multiset().add(Multiset::empty()) =~= r@.to_multiset());
    assert(stable_reorder(orig, r@, idx));
    r
}

} // verus!
