//! File-manager session state: panes, clipboard, and the rename and
//! properties dialogs.

use std::collections::HashSet;
use std::path::PathBuf;

use vstd::prelude::*;

use crate::files::{EntryInfo, FileEntry};
use crate::text::{has_prefix, str_chars, chars_to_string};

verus! {

#[verifier::external_type_specification]
#[verifier::external_body]
pub struct ExPathBuf(PathBuf);

#[derive(Debug, Clone, Copy, PartialEq, Eq, Structural)]
pub enum PaneSide {
    Left,
    Right,
}

#[derive(Debug, Clone, Copy, PartialEq, Eq, Structural)]
pub enum FileClipboardMode {
    Copy,
    Cut,
}

/// Paths copied or cut in one pane, to be pasted in another.
#[derive(Debug, Clone)]
pub struct FileClipboard {
    pub mode: FileClipboardMode,
    pub from_remote: bool,
    pub paths: Vec<String>,
}

#[derive(Debug, Clone, Copy, PartialEq, Eq, Structural)]
pub enum FileManagerMode {
    /// SSH: left remote SFTP, right local disk.
    SshSftp,
    /// Local: both panes use the local file system.
    LocalDual,
}

#[derive(Debug, Clone, Copy, PartialEq, Eq, Structural)]
pub enum FileActivePane {
    Right,
    Remote,
    LeftLocal,
}

impl Default for FileActivePane {
    fn default() -> (p: Self)
        ensures
            p == FileActivePane::Right,
    {
        FileActivePane::Right
    }
}

/// One local file pane.
pub struct PaneState {
    pub cwd: PathBuf,
    pub entries: Vec<FileEntry>,
    pub selected: HashSet<usize>,
    pub select_mode: bool,
    pub focus_index: Option<usize>,
    pub error: Option<String>,
    pub loading: bool,
}

impl PaneState {
    /// A pane at `start`, empty and waiting for its first listing.
    pub fn new_local(start: PathBuf) -> (p: Self)
        ensures
            p.cwd == start,
            p.entries@.len() == 0,
            p.selected@ == Set::<usize>::empty(),
            !p.select_mode,
            p.focus_index is None,
            p.error is None,
            p.loading,
    {
        PaneState {
            cwd: start,
            entries: Vec::new(),
            selected: HashSet::new(),
            select_mode: false,
            focus_index: None,
            error: None,
            loading: true,
        }
    }
}

/// The rename dialog: which pane it renames in, the name being edited and
/// the name it started from.
pub struct RenameDialog {
    pub open: bool,
    pub pane: FileActivePane,
    pub new_name: String,
    old_name: String,
}

/// What a rename dialog holds.
pub struct RenameView {
    pub open: bool,
    pub pane: FileActivePane,
    pub new_name: Seq<char>,
    pub old_name: Seq<char>,
}

impl View for RenameDialog {
    type V = RenameView;

    closed spec fn view(&self) -> RenameView {
        RenameView { open: self.open, pane: self.pane, new_name: self.new_name@, old_name: self.old_name@ }
    }
}

impl RenameDialog {
    /// Open the dialog to rename `name` in `pane`; editing starts from the
    /// current name.
    pub fn open_for(&mut self, pane: FileActivePane, name: &str)
        ensures
            final(self)@ == (RenameView { open: true, pane, new_name: name@, old_name: name@ }),
    {
        self.open = true;
        self.pane = pane;
        self.old_name = String::from_str(name);
        self.new_name = String::from_str(name);
    }

    /// The name the dialog was opened for.
    pub fn old_name(&self) -> (s: &str)
        ensures
            s@ == self@.old_name,
    {
        self.old_name.as_str()
    }
}

impl Default for RenameDialog {
    fn default() -> (d: Self)
        ensures
            d@ == (RenameView { open: false, pane: FileActivePane::Right, new_name: Seq::empty(), old_name: Seq::empty() }),
    {
        RenameDialog { open: false, pane: FileActivePane::Right, new_name: String::new(), old_name: String::new() }
    }
}

/// One row of the properties dialog: a caption and its value.
#[derive(Debug, Clone)]
pub struct InfoLine(pub String, pub String);

/// The properties dialog.
pub struct InfoDialog {
    pub open: bool,
    pub lines: Vec<InfoLine>,
}

impl Default for InfoDialog {
    fn default() -> (d: Self)
        ensures
            !d.open,
            d.lines@.len() == 0,
    {
        InfoDialog { open: false, lines: Vec::new() }
    }
}

pub open spec fn line_views(v: Seq<InfoLine>) -> Seq<(Seq<char>, Seq<char>)> {
    v.map_values(|l: InfoLine| (l.0@, l.1@))
}

impl InfoDialog {
    /// Open the dialog on `info`; `size_text` is its size in words
    /// (`format_bytes` of `info.size`).
    pub fn show(&mut self, info: EntryInfo, size_text: String)
        ensures
            final(self).open,
            line_views(final(self).lines@) == seq![
                ("Name"@, info.name@),
                ("Type"@, info.kind@),
                ("Size"@, size_text@),
                ("Permissions"@, info.permissions@),
                ("Modified"@, info.modified@),
                ("Path"@, info.path@),
            ],
    {
        self.open = true;
        let mut lines: Vec<InfoLine> = Vec::new();
        lines.push(InfoLine(String::from_str("Name"), info.name));
        lines.push(InfoLine(String::from_str("Type"), info.kind));
        lines.push(InfoLine(String::from_str("Size"), size_text));
        lines.push(InfoLine(String::from_str("Permissions"), info.permissions));
        lines.push(InfoLine(String::from_str("Modified"), info.modified));
        lines.push(InfoLine(String::from_str("Path"), info.path));
        self.lines = lines;
        assert(line_views(self.lines@) =~= seq![
            ("Name"@, info.name@),
            ("Type"@, info.kind@),
            ("Size"@, size_text@),
            ("Permissions"@, info.permissions@),
            ("Modified"@, info.modified@),
            ("Path"@, info.path@),
        ]);
    }
}

/// The sidebar label of a file-manager session: for SFTP the host (the
/// title without its `Remote: ` prefix) and the remote directory, else the
/// title; for two local panes the left pane's directory, else `File Manager`.
pub open spec fn tab_label_view(mode: FileManagerMode, title: Seq<char>, remote_cwd: Option<Seq<char>>, left_cwd: Option<Seq<char>>) -> Seq<char> {
    match mode {
        FileManagerMode::SshSftp => match remote_cwd {
            Some(cwd) => {
                let host = if "Remote: "@.is_prefix_of(title) { title.subrange(8, title.len() as int) } else { title };
                host + seq![':'] + cwd
            },
            None => title,
        },
        FileManagerMode::LocalDual => match left_cwd {
            Some(cwd) => cwd,
            None => "File Manager"@,
        },
    }
}

/// The sidebar label of a file-manager session (see `tab_label_view`);
/// `left_cwd` is the left pane's directory as displayed.
pub fn tab_label(mode: FileManagerMode, title: &str, remote_cwd: Option<&str>, left_cwd: Option<String>) -> (s: String)
    ensures
        s@ == tab_label_view(
            mode,
            title@,
            match remote_cwd { Some(c) => Some(c@), None => None },
            match left_cwd { Some(c) => Some(c@), None => None },
        ),
{
    match mode {
        FileManagerMode::SshSftp => match remote_cwd {
            Some(cwd) => {
                let t = str_chars(title);
                let pre = str_chars("Remote: ");
                proof {
                    reveal_strlit("Remote: ");
                }
                let skip: usize = if has_prefix(t.as_slice(), pre.as_slice()) { 8 } else { 0 };
                let mut out: Vec<char> = Vec::new();
                let mut i = skip;
                while i < t.len()
                    invariant
                        skip <= i <= t@.len(),
                        skip <= t@.len(),
                        out@ == t@.subrange(skip as int, i as int),
                    decreases t.len() - i,
                {
                    out.push(t[i]);
                    i = i + 1;
                }
                proof {
                    if skip == 0 {
                        assert(t@.subrange(0, t@.len() as int) =~= t@);
                    }
                }
                out.push(':');
                let c = str_chars(cwd);
                let ghost mid = out@;
                let mut j: usize = 0;
                while j < c.len()
                    invariant
                        j <= c@.len(),
                        out@ == mid + c@.subrange(0, j as int),
                    decreases c.len() - j,
                {
                    out.push(c[j]);
                    j = j + 1;
                }
                assert(c@.subrange(0, c@.len() as int) =~= c@);
                chars_to_string(out.as_slice())
            },
            None => String::from_str(title),
        },
        FileManagerMode::LocalDual => match left_cwd {
            Some(cwd) => cwd,
            None => String::from_str("File Manager"),
        },
    }
}

} // verus!
