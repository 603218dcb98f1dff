//! Terminal colors: the semantic buckets values are painted in, and the
//! escape sequences for each color tier.
use crate::text::push_str;
use vstd::prelude::*;

verus! {

/// A semantic bucket that a piece of output text is painted in.
#[derive(Debug, Clone, Copy, PartialEq, Eq)]
pub enum Color {
    Key,
    Str,
    Number,
    Bool,
    Null,
    Structure,
}

/// The color tier a renderer uses for one run.
#[derive(Debug, Clone, Copy, PartialEq, Eq)]
pub enum ColorMode {
    Off,
    Ansi16,
    Truecolor,
}

pub open spec fn reset_code() -> Seq<char> {
    "\x1b[0m"@
}

pub open spec fn ansi16_code(color: Color) -> Seq<char> {
    match color {
        Color::Key => "\x1b[36m"@,
        Color::Str => "\x1b[32m"@,
        Color::Number => "\x1b[33m"@,
        Color::Bool => "\x1b[35m"@,
        Color::Null => "\x1b[90m"@,
        Color::Structure => "\x1b[2m"@,
    }
}

pub open spec fn truecolor_code(color: Color) -> Seq<char> {
    match color {
        Color::Key => "\x1b[38;2;86;182;194m"@,
        Color::Str => "\x1b[38;2;152;195;121m"@,
        Color::Number => "\x1b[38;2;229;192;123m"@,
        Color::Bool => "\x1b[38;2;198;120;221m"@,
        Color::Null => "\x1b[38;2;128;128;128m"@,
        Color::Structure => "\x1b[2m"@,
    }
}

/// The escape sequence that starts `color` in `mode` (empty when color is off).
pub open spec fn color_code(color: Color, mode: ColorMode) -> Seq<char> {
    match mode {
        ColorMode::Off => ""@,
        ColorMode::Ansi16 => ansi16_code(color),
        ColorMode::Truecolor => truecolor_code(color),
    }
}

pub open spec fn mode_enabled(mode: ColorMode) -> bool {
    mode != ColorMode::Off
}

/// `text` wrapped in `color`'s escape sequence and a reset, or `text` itself
/// when color is off.
pub open spec fn painted(text: Seq<char>, color: Color, mode: ColorMode) -> Seq<char> {
    if mode_enabled(mode) {
        color_code(color, mode) + text + reset_code()
    } else {
        text
    }
}

/// Number of distinct guide-line tints; depth `d` uses tint `d % DEPTH_TINT_COUNT`.
pub const DEPTH_TINT_COUNT: usize = 6;

pub open spec fn depth_tint(i: int) -> Seq<char> {
    if i == 0 {
        "\x1b[2m"@
    } else if i == 1 {
        "\x1b[2;34m"@
    } else if i == 2 {
        "\x1b[2;36m"@
    } else if i == 3 {
        "\x1b[2;32m"@
    } else if i == 4 {
        "\x1b[2;35m"@
    } else {
        "\x1b[2;33m"@
    }
}

/// A guide-line prefix tinted by nesting depth, or plain when color is off.
pub open spec fn painted_depth(text: Seq<char>, depth: nat, enabled: bool) -> Seq<char> {
    if enabled {
        depth_tint((depth % 6) as int) + text + reset_code()
    } else {
        text
    }
}

fn code_ansi16(color: Color) -> (r: &'static str)
    ensures
        r@ == ansi16_code(color),
{
    match color {
        Color::Key => "\x1b[36m",
        Color::Str => "\x1b[32m",
        Color::Number => "\x1b[33m",
        Color::Bool => "\x1b[35m",
        Color::Null => "\x1b[90m",
        Color::Structure => "\x1b[2m",
    }
}

fn code_truecolor(color: Color) -> (r: &'static str)
    ensures
        r@ == truecolor_code(color),
{
    match color {
        Color::Key => "\x1b[38;2;86;182;194m",
        Color::Str => "\x1b[38;2;152;195;121m",
        Color::Number => "\x1b[38;2;229;192;123m",
        Color::Bool => "\x1b[38;2;198;120;221m",
        Color::Null => "\x1b[38;2;128;128;128m",
        Color::Structure => "\x1b[2m",
    }
}

impl ColorMode {
    /// Whether any color is emitted at all.
    pub fn enabled(self) -> (r: bool)
        ensures
            r == mode_enabled(self),
    {
        match self {
            ColorMode::Off => false,
            _ => true,
        }
    }

    /// `enabled` is the caller's on/off decision (a terminal, and `NO_COLOR`
    /// unset); `truecolor` is whether the terminal advertises 24-bit color
    /// (`COLORTERM=truecolor|24bit`). Only picks a tier within "on".
    pub fn detect(enabled: bool, truecolor: bool) -> (r: ColorMode)
        ensures
            !enabled ==> r == ColorMode::Off,
            enabled && truecolor ==> r == ColorMode::Truecolor,
            enabled && !truecolor ==> r == ColorMode::Ansi16,
    {
        if !enabled {
            ColorMode::Off
        } else if truecolor {
            ColorMode::Truecolor
        } else {
            ColorMode::Ansi16
        }
    }
}

/// The escape sequence that starts `color` in `mode`.
pub fn code_for(color: Color, mode: ColorMode) -> (r: &'static str)
    ensures
        r@ == color_code(color, mode),
{
    match mode {
        ColorMode::Off => "",
        ColorMode::Ansi16 => code_ansi16(color),
        ColorMode::Truecolor => code_truecolor(color),
    }
}

/// Appends `text` painted in `color` to `out`.
pub fn push_painted(out: &mut String, text: &str, color: Color, mode: ColorMode)
    ensures
        final(out)@ == old(out)@ + painted(text@, color, mode),
{
    if mode.enabled() {
        push_str(out, code_for(color, mode));
        push_str(out, text);
        push_str(out, "\x1b[0m");
    } else {
        push_str(out, text);
    }
}

pub fn paint(text: &str, color: Color, mode: ColorMode) -> (r: String)
    ensures
        r@ == painted(text@, color, mode),
{
    let mut out = String::new();
    push_painted(&mut out, text, color, mode);
    out
}

fn depth_tint_code(depth: usize) -> (r: &'static str)
    ensures
        r@ == depth_tint((depth % 6) as int),
{
    let i = depth % DEPTH_TINT_COUNT;
    if i == 0 {
        "\x1b[2m"
    } else if i == 1 {
        "\x1b[2;34m"
    } else if i == 2 {
        "\x1b[2;36m"
    } else if i == 3 {
        "\x1b[2;32m"
    } else if i == 4 {
        "\x1b[2;35m"
    } else {
        "\x1b[2;33m"
    }
}

/// Appends a guide-line prefix tinted by `depth` to `out`.
pub fn push_painted_depth(out: &mut String, text: &str, depth: usize, enabled: bool)
    ensures
        final(out)@ == old(out)@ + painted_depth(text@, depth as nat, enabled),
{
    if enabled {
        push_str(out, depth_tint_code(depth));
        push_str(out, text);
        push_str(out, "\x1b[0m");
    } else {
        push_str(out, text);
    }
}

pub fn paint_depth(text: &str, depth: usize, enabled: bool) -> (r: String)
    ensures
        r@ == painted_depth(text@, depth as nat, enabled),
{
    let mut out = String::new();
    push_painted_depth(&mut out, text, depth, enabled);
    out
}

} // verus!
