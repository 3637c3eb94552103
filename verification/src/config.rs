//! Terminal appearance settings: cursor style and the colour theme with the
//! xterm 256-colour palette.

use vstd::prelude::*;
use vstd::string::StringExecFns;

verus! {

/// Terminal cursor appearance.
#[derive(Debug, Clone, Copy, PartialEq, Eq, Structural)]
pub enum CursorStyle {
    /// Thin vertical bar at the left of the cell.
    Bar,
    /// Inverted full cell.
    Block,
    /// Horizontal line at the bottom of the cell.
    Underline,
}

impl Default for CursorStyle {
    fn default() -> (s: Self)
        ensures
            s == CursorStyle::Bar,
    {
        CursorStyle::Bar
    }
}

impl CursorStyle {
    /// Every style, in the order the settings list them.
    pub fn all() -> (v: [CursorStyle; 3])
        ensures
            v@ == seq![CursorStyle::Bar, CursorStyle::Block, CursorStyle::Underline],
    {
        [CursorStyle::Bar, CursorStyle::Block, CursorStyle::Underline]
    }
}

/// A colour as premultiplied red, green, blue and alpha bytes.
#[derive(Debug, Clone, Copy, PartialEq, Eq, Structural)]
pub struct Rgba {
    pub r: u8,
    pub g: u8,
    pub b: u8,
    pub a: u8,
}

impl Rgba {
    /// An opaque colour.
    pub open spec fn spec_rgb(r: u8, g: u8, b: u8) -> Rgba {
        Rgba { r, g, b, a: 255 }
    }

    pub fn rgb(r: u8, g: u8, b: u8) -> (c: Rgba)
        ensures
            c == Rgba::spec_rgb(r, g, b),
    {
        Rgba { r, g, b, a: 255 }
    }
}

/// The colours of a terminal: background, foreground, cursor, selection and
/// the sixteen ANSI colours.
#[derive(Debug, Clone, Copy, PartialEq, Eq, Structural)]
pub struct TerminalTheme {
    pub bg: Rgba,
    pub fg: Rgba,
    pub cursor: Rgba,
    pub selection: Rgba,
    pub black: Rgba,
    pub red: Rgba,
    pub green: Rgba,
    pub yellow: Rgba,
    pub blue: Rgba,
    pub magenta: Rgba,
    pub cyan: Rgba,
    pub white: Rgba,
    pub bright_black: Rgba,
    pub bright_red: Rgba,
    pub bright_green: Rgba,
    pub bright_yellow: Rgba,
    pub bright_blue: Rgba,
    pub bright_magenta: Rgba,
    pub bright_cyan: Rgba,
    pub bright_white: Rgba,
}

/// The default dark theme.
pub open spec fn default_theme() -> TerminalTheme {
    TerminalTheme {
        bg: Rgba::spec_rgb(30, 30, 30),
        fg: Rgba::spec_rgb(220, 220, 220),
        cursor: Rgba::spec_rgb(255, 255, 255),
        selection: Rgba { r: 100, g: 100, b: 255, a: 128 },
        black: Rgba::spec_rgb(0, 0, 0),
        red: Rgba::spec_rgb(205, 49, 49),
        green: Rgba::spec_rgb(13, 188, 121),
        yellow: Rgba::spec_rgb(229, 229, 16),
        blue: Rgba::spec_rgb(36, 114, 200),
        magenta: Rgba::spec_rgb(188, 63, 188),
        cyan: Rgba::spec_rgb(17, 168, 205),
        white: Rgba::spec_rgb(220, 220, 220),
        bright_black: Rgba::spec_rgb(102, 102, 102),
        bright_red: Rgba::spec_rgb(241, 76, 76),
        bright_green: Rgba::spec_rgb(35, 209, 139),
        bright_yellow: Rgba::spec_rgb(245, 245, 67),
        bright_blue: Rgba::spec_rgb(59, 142, 234),
        bright_magenta: Rgba::spec_rgb(214, 112, 214),
        bright_cyan: Rgba::spec_rgb(41, 184, 219),
        bright_white: Rgba::spec_rgb(255, 255, 255),
    }
}

impl Default for TerminalTheme {
    fn default() -> (t: Self)
        ensures
            t == default_theme(),
    {
        TerminalTheme {
            bg: Rgba::rgb(30, 30, 30),
            fg: Rgba::rgb(220, 220, 220),
            cursor: Rgba::rgb(255, 255, 255),
            selection: Rgba { r: 100, g: 100, b: 255, a: 128 },
            black: Rgba::rgb(0, 0, 0),
            red: Rgba::rgb(205, 49, 49),
            green: Rgba::rgb(13, 188, 121),
            yellow: Rgba::rgb(229, 229, 16),
            blue: Rgba::rgb(36, 114, 200),
            magenta: Rgba::rgb(188, 63, 188),
            cyan: Rgba::rgb(17, 168, 205),
            white: Rgba::rgb(220, 220, 220),
            bright_black: Rgba::rgb(102, 102, 102),
            bright_red: Rgba::rgb(241, 76, 76),
            bright_green: Rgba::rgb(35, 209, 139),
            bright_yellow: Rgba::rgb(245, 245, 67),
            bright_blue: Rgba::rgb(59, 142, 234),
            bright_magenta: Rgba::rgb(214, 112, 214),
            bright_cyan: Rgba::rgb(41, 184, 219),
            bright_white: Rgba::rgb(255, 255, 255),
        }
    }
}

/// The intensity of one step (0 to 5) of the xterm colour cube: 0, 95,
/// 135, 175, 215, 255.
pub open spec fn cube_level(c: int) -> int {
    if c == 0 {
        0
    } else {
        55 + c * 40
    }
}

impl TerminalTheme {
    /// One of the sixteen theme colours (`idx` below 16).
    pub open spec fn base_color(self, idx: u8) -> Rgba {
        if idx == 0 { self.black }
        else if idx == 1 { self.red }
        else if idx == 2 { self.green }
        else if idx == 3 { self.yellow }
        else if idx == 4 { self.blue }
        else if idx == 5 { self.magenta }
        else if idx == 6 { self.cyan }
        else if idx == 7 { self.white }
        else if idx == 8 { self.bright_black }
        else if idx == 9 { self.bright_red }
        else if idx == 10 { self.bright_green }
        else if idx == 11 { self.bright_yellow }
        else if idx == 12 { self.bright_blue }
        else if idx == 13 { self.bright_magenta }
        else if idx == 14 { self.bright_cyan }
        else { self.bright_white }
    }

    /// The xterm 256-colour palette: the theme's sixteen colours, then the
    /// 6x6x6 colour cube (16 to 231), then 24 grays (232 to 255).
    pub open spec fn palette(self, idx: u8) -> Rgba {
        if idx < 16 {
            self.base_color(idx)
        } else if idx < 232 {
            let i = idx - 16;
            Rgba::spec_rgb(cube_level((i / 36) % 6) as u8, cube_level((i / 6) % 6) as u8, cube_level(i % 6) as u8)
        } else {
            let level = 8 + (idx - 232) * 10;
            Rgba::spec_rgb(level as u8, level as u8, level as u8)
        }
    }

    pub fn ansi_color(&self, idx: u8) -> (c: Rgba)
        ensures
            c == self.palette(idx),
    {
        match idx {
            0 => self.black,
            1 => self.red,
            2 => self.green,
            3 => self.yellow,
            4 => self.blue,
            5 => self.magenta,
            6 => self.cyan,
            7 => self.white,
            8 => self.bright_black,
            9 => self.bright_red,
            10 => self.bright_green,
            11 => self.bright_yellow,
            12 => self.bright_blue,
            13 => self.bright_magenta,
            14 => self.bright_cyan,
            15 => self.bright_white,
            _ => self.indexed_color(idx),
        }
    }

    /// xterm 256-colour palette entry `idx`.
    pub fn indexed_color(&self, idx: u8) -> (c: Rgba)
        ensures
            c == self.palette(idx),
    {
        if idx < 16 {
            return self.ansi_color_low(idx);
        }
        if idx < 232 {
            let i = idx - 16;
            let r = cube_step((i / 36) % 6);
            let g = cube_step((i / 6) % 6);
            let b = cube_step(i % 6);
            Rgba::rgb(r, g, b)
        } else {
            let level = 8 + (idx - 232) * 10;
            Rgba::rgb(level, level, level)
        }
    }

    fn ansi_color_low(&self, idx: u8) -> (c: Rgba)
        requires
            idx < 16,
        ensures
            c == self.base_color(idx),
    {
        match idx {
            0 => self.black,
            1 => self.red,
            2 => self.green,
            3 => self.yellow,
            4 => self.blue,
            5 => self.magenta,
            6 => self.cyan,
            7 => self.white,
            8 => self.bright_black,
            9 => self.bright_red,
            10 => self.bright_green,
            11 => self.bright_yellow,
            12 => self.bright_blue,
            13 => self.bright_magenta,
            14 => self.bright_cyan,
            _ => self.bright_white,
        }
    }
}

fn cube_step(c: u8) -> (l: u8)
    requires
        c < 6,
    ensures
        l == cube_level(c as int),
{
    if c == 0 {
        0
    } else {
        55 + c * 40
    }
}

/// The position of the first profile (from `j` on) named `name`.
pub open spec fn first_named(names: Seq<Seq<char>>, name: Seq<char>, j: int) -> Option<int>
    decreases names.len() - j,
{
    if j < 0 || j >= names.len() {
        None
    } else if names[j] == name {
        Some(j)
    } else {
        first_named(names, name, j + 1)
    }
}

pub open spec fn names_of(v: Seq<String>) -> Seq<Seq<char>> {
    v.map_values(|s: String| s@)
}

/// Find a profile by name: the position of the first with that name.
pub fn find_profile(names: &[String], name: &str) -> (r: Option<usize>)
    ensures
        match r {
            Some(k) => first_named(names_of(names@), name@, 0) == Some(k as int),
            None => first_named(names_of(names@), name@, 0) is None,
        },
{
    let ghost ns = names_of(names@);
    let target = String::from_str(name);
    let mut j: usize = 0;
    while j < names.len()
        invariant
            j <= names@.len(),
            target@ == name@,
            ns == names_of(names@),
            first_named(ns, name@, 0) == first_named(ns, name@, j as int),
        decreases names.len() - j,
    {
        assert(ns[j as int] == names@[j as int]@);
        if names[j] == target {
            return Some(j);
        }
        j = j + 1;
    }
    None
}

/// The default profile: the first named `default_name`, else the first.
pub fn default_profile_index(names: &[String], default_name: &str) -> (k: usize)
    requires
        names@.len() > 0,
    ensures
        k == match first_named(names_of(names@), default_name@, 0) {
            Some(i) => i,
            None => 0,
        },
{
    match find_profile(names, default_name) {
        Some(k) => k,
        None => 0,
    }
}

} // verus!
