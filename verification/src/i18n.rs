//! UI language and UI theme choices.

use vstd::prelude::*;

use crate::text::{has_infix, has_prefix, str_chars, trim_chars, trimmed, contains_text};

verus! {

/// Supported languages for the UI.
#[derive(Debug, Clone, Copy, PartialEq, Eq, Structural)]
pub enum Language {
    /// Follow the system locale.
    System,
    /// Simplified Chinese.
    ZhCN,
    /// English.
    En,
}

impl Default for Language {
    fn default() -> (l: Self)
        ensures
            l == Language::System,
    {
        Language::System
    }
}

/// The system locale (for example `zh-CN` or `en-US`), if it can be found.
///
/// Trusted: calls `sys_locale::get_locale`. Its result depends on the
/// environment of the process, so nothing is stated of it.
#[verifier::external_body]
fn system_locale() -> (r: Option<String>) {
    sys_locale::get_locale()
}

/// The UI locale for a detected system locale: Chinese for any `zh` locale,
/// English otherwise (also when none was found).
pub open spec fn locale_for(detected: Option<Seq<char>>) -> Seq<char> {
    match detected {
        Some(l) => if "zh"@.is_prefix_of(l) { "zh-CN"@ } else { "en"@ },
        None => "en"@,
    }
}

/// The UI locale for a detected system locale.
pub fn locale_for_system(detected: Option<String>) -> (code: &'static str)
    ensures
        code@ == locale_for(match detected { Some(s) => Some(s@), None => None }),
{
    match detected {
        Some(l) => {
            let lc = str_chars(l.as_str());
            let zh = str_chars("zh");
            if has_prefix(lc.as_slice(), zh.as_slice()) {
                "zh-CN"
            } else {
                "en"
            }
        },
        None => "en",
    }
}

impl Language {
    /// The locale code of the UI translations for this setting; for `System`
    /// it follows the system locale.
    pub fn locale_code(self) -> (code: &'static str)
        ensures
            self == Language::ZhCN ==> code@ == "zh-CN"@,
            self == Language::En ==> code@ == "en"@,
            self == Language::System ==> code@ == "zh-CN"@ || code@ == "en"@,
    {
        match self {
            Language::System => locale_for_system(system_locale()),
            Language::ZhCN => "zh-CN",
            Language::En => "en",
        }
    }
}

/// UI appearance theme (separate from terminal themes).
#[derive(Debug, Clone, Copy, PartialEq, Eq, Structural)]
pub enum UiTheme {
    System,
    Light,
    Dark,
}

impl Default for UiTheme {
    fn default() -> (t: Self)
        ensures
            t == UiTheme::System,
    {
        UiTheme::System
    }
}

/// The part of `s` after its last `;` (all of `s` when it has none).
pub open spec fn after_last_semicolon(s: Seq<char>) -> Seq<char>
    decreases s.len(),
{
    if s.len() == 0 {
        s
    } else if s.last() == ';' {
        Seq::empty()
    } else {
        after_last_semicolon(s.drop_last()).push(s.last())
    }
}

/// Whether the desktop asks for a dark theme: `COLORFGBG` ends in a
/// background colour of 0, or `GTK_THEME` names a dark theme.
pub open spec fn desktop_prefers_dark(colorfgbg: Option<Seq<char>>, gtk_theme: Option<Seq<char>>) -> bool {
    ||| (colorfgbg matches Some(v) && trimmed(after_last_semicolon(v)) == "0"@)
    ||| (gtk_theme matches Some(t) && (contains_text(t, "dark"@) || contains_text(t, "Dark"@)))
}

proof fn lemma_after_last_semicolon(s: Seq<char>, start: int)
    requires
        0 <= start <= s.len(),
        start == 0 || s[start - 1] == ';',
        forall|k: int| start <= k < s.len() ==> s[k] != ';',
    ensures
        after_last_semicolon(s) == s.subrange(start, s.len() as int),
    decreases s.len(),
{
    if s.len() == 0 {
        assert(s.subrange(start, s.len() as int) =~= s);
    } else if start == s.len() {
        assert(s.subrange(start, s.len() as int) =~= Seq::<char>::empty());
    } else {
        lemma_after_last_semicolon(s.drop_last(), start);
        assert(s.subrange(start, s.len() as int) =~= s.drop_last().subrange(start, s.len() - 1).push(s.last()));
    }
}

fn last_field(s: &[char]) -> (r: Vec<char>)
    ensures
        r@ == after_last_semicolon(s@),
{
    let mut start: usize = s.len();
    while start > 0 && s[start - 1] != ';'
        invariant
            start <= s@.len(),
            forall|k: int| start <= k < s@.len() ==> s@[k] != ';',
        decreases start,
    {
        start = start - 1;
    }
    let mut r: Vec<char> = Vec::new();
    let mut i = start;
    while i < s.len()
        invariant
            start <= i <= s@.len(),
            r@ == s@.subrange(start as int, i as int),
        decreases s.len() - i,
    {
        r.push(s[i]);
        i = i + 1;
    }
    proof {
        lemma_after_last_semicolon(s@, start as int);
    }
    r
}

/// Whether the `System` UI theme resolves to dark, from the values of the
/// `COLORFGBG` and `GTK_THEME` environment variables.
pub fn prefers_dark(colorfgbg: Option<&str>, gtk_theme: Option<&str>) -> (dark: bool)
    ensures
        dark == desktop_prefers_dark(
            match colorfgbg { Some(s) => Some(s@), None => None },
            match gtk_theme { Some(s) => Some(s@), None => None },
        ),
{
    let fg_dark = match colorfgbg {
        Some(v) => {
            let vc = str_chars(v);
            let field = last_field(vc.as_slice());
            let t = trim_chars(field.as_slice());
            proof {
                reveal_strlit("0");
                if t@.len() == 1 && t@[0] == '0' {
                    assert(t@ =~= "0"@);
                }
            }
            t.len() == 1 && t[0] == '0'
        },
        None => false,
    };
    proof {
        if colorfgbg is Some {
            reveal_strlit("0");
        }
    }
    if fg_dark {
        return true;
    }
    match gtk_theme {
        Some(t) => {
            let tc = str_chars(t);
            let d1 = str_chars("dark");
            let d2 = str_chars("Dark");
            has_infix(tc.as_slice(), d1.as_slice()) || has_infix(tc.as_slice(), d2.as_slice())
        },
        None => false,
    }
}

} // verus!
