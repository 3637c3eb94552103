//! Terminal font choices: which glyphs need the Braille fallback face, the
//! order of the monospace font stack, and the catalogue of system monospace
//! fonts that is scanned once in the background.

use std::sync::Arc;

use vstd::prelude::*;

verus! {

/// Braille patterns (U+2800 to U+28FF) are drawn with a dedicated face.
pub fn needs_braille_font(ch: char) -> (b: bool)
    ensures
        b == ('\u{2800}' <= ch && ch <= '\u{28ff}'),
{
    '\u{2800}' <= ch && ch <= '\u{28ff}'
}

/// The font families the monospace stack is built from.
#[derive(Debug, Clone, Copy, PartialEq, Eq, Structural)]
pub enum MonoFamily {
    /// The user's font, or the first system monospace font found.
    UserMono,
    /// The bundled Latin fallback.
    FallbackLatin,
    /// A CJK font, when one is installed.
    Cjk,
}

/// The monospace stack, in the order glyphs are looked up.
pub open spec fn mono_stack(has_user: bool, has_cjk: bool) -> Seq<MonoFamily> {
    (if has_user { seq![MonoFamily::UserMono] } else { Seq::empty() })
        + seq![MonoFamily::FallbackLatin]
        + (if has_cjk { seq![MonoFamily::Cjk] } else { Seq::empty() })
}

/// The monospace font stack: the user/system monospace font when one was
/// loaded, the bundled Latin font, then a CJK font when one was found.
pub fn monospace_stack(has_user: bool, has_cjk: bool) -> (v: Vec<MonoFamily>)
    ensures
        v@ == mono_stack(has_user, has_cjk),
{
    let mut v: Vec<MonoFamily> = Vec::new();
    if has_user {
        v.push(MonoFamily::UserMono);
    }
    v.push(MonoFamily::FallbackLatin);
    if has_cjk {
        v.push(MonoFamily::Cjk);
    }
    assert(v@ =~= mono_stack(has_user, has_cjk));
    v
}

/// One selectable monospace font: its file and the name shown for it.
#[derive(Clone, Debug, PartialEq, Eq)]
pub struct MonospaceFontEntry {
    pub path: String,
    pub label: String,
}

/// What a settings page sees of the font catalogue.
pub enum MonospaceCatalogStatus {
    Loading,
    Ready(Arc<Vec<MonospaceFontEntry>>),
}

/// The font catalogue: not scanned yet, being scanned, or scanned.
pub enum MonospaceCatalog {
    Idle,
    Loading,
    Ready(Arc<Vec<MonospaceFontEntry>>),
}

/// Another handle on a shared list (`Arc::clone`).
///
/// Trusted: the handle refers to the same list.
#[verifier::external_body]
fn share(a: &Arc<Vec<MonospaceFontEntry>>) -> (r: Arc<Vec<MonospaceFontEntry>>)
    ensures
        r == *a,
{
    Arc::clone(a)
}

impl MonospaceCatalog {
    /// Start the scan unless it was started before; true when the caller must
    /// now run it (and then call `finish`).
    pub fn preload(&mut self) -> (start: bool)
        ensures
            start == (*old(self) is Idle),
            *old(self) is Idle ==> *final(self) is Loading,
            !(*old(self) is Idle) ==> *final(self) == *old(self),
    {
        match self {
            MonospaceCatalog::Idle => {
                *self = MonospaceCatalog::Loading;
                true
            },
            _ => false,
        }
    }

    /// Store the scanned list.
    pub fn finish(&mut self, entries: Vec<MonospaceFontEntry>)
        ensures
            *final(self) matches MonospaceCatalog::Ready(a) && *a == entries,
    {
        *self = MonospaceCatalog::Ready(Arc::new(entries));
    }

    /// The catalogue as a settings page sees it.
    pub fn status(&self) -> (s: MonospaceCatalogStatus)
        ensures
            (*self is Ready) <==> (s is Ready),
            s matches MonospaceCatalogStatus::Ready(a) ==> (*self matches MonospaceCatalog::Ready(b) && a == b),
    {
        match self {
            MonospaceCatalog::Ready(entries) => MonospaceCatalogStatus::Ready(share(entries)),
            _ => MonospaceCatalogStatus::Loading,
        }
    }
}

/// Start the scan if needed, then report the catalogue: the status and
/// whether the caller must now run the scan.
pub fn monospace_catalog_status(catalog: &mut MonospaceCatalog) -> (r: (MonospaceCatalogStatus, bool))
    ensures
        r.1 == (*old(catalog) is Idle),
        *old(catalog) is Idle ==> *final(catalog) is Loading,
        !(*old(catalog) is Idle) ==> *final(catalog) == *old(catalog),
        (*final(catalog) is Ready) <==> (r.0 is Ready),
        r.0 matches MonospaceCatalogStatus::Ready(a) ==> (*final(catalog) matches MonospaceCatalog::Ready(b) && a == b),
{
    let start = catalog.preload();
    (catalog.status(), start)
}

} // verus!
