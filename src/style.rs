//! Colors and style descriptors, and the ANSI escape sequence that
//! termcolor writes for each of them.
use termcolor::{Ansi, Color as TermColor, ColorSpec, WriteColor};
use vstd::prelude::*;

verus! {

/// A foreground color: one of the eight base colors or a 256-color index.
#[derive(Clone, Copy, Debug, PartialEq, Eq, Structural)]
pub enum Color {
    Black,
    Red,
    Green,
    Yellow,
    Blue,
    Magenta,
    Cyan,
    White,
    Ansi256(u8),
}

/// What a terminal is told before a run of text: an optional foreground
/// color, four font flags, and whether to reset everything first.
#[derive(Clone, Copy, Debug, PartialEq, Eq, Structural)]
pub struct StyleSpec {
    pub fg: Option<Color>,
    pub bold: bool,
    pub italic: bool,
    pub underline: bool,
    pub dimmed: bool,
    pub reset: bool,
}

/// The style a fresh specification has: no color, no flag, and a reset.
pub open spec fn plain_style() -> StyleSpec {
    StyleSpec {
        fg: None,
        bold: false,
        italic: false,
        underline: false,
        dimmed: false,
        reset: true,
    }
}

impl StyleSpec {
    /// No color and no flag; styles are written after a reset.
    pub fn new() -> (r: StyleSpec)
        ensures
            r == plain_style(),
    {
        StyleSpec {
            fg: None,
            bold: false,
            italic: false,
            underline: false,
            dimmed: false,
            reset: true,
        }
    }

    /// The same style with the given foreground color.
    pub fn with_fg(self, fg: Option<Color>) -> (r: StyleSpec)
        ensures
            r == (StyleSpec { fg, ..self }),
    {
        StyleSpec { fg, ..self }
    }
}

/// `ESC [ <code> m`, a select-graphic-rendition sequence.
pub open spec fn sgr(code: Seq<u8>) -> Seq<u8> {
    seq![0x1Bu8, 0x5Bu8] + code + seq![0x6Du8]
}

/// The digit of a base color in the codes `3x`.
pub open spec fn base_index(c: Color) -> u8 {
    match c {
        Color::Black => 0,
        Color::Red => 1,
        Color::Green => 2,
        Color::Yellow => 3,
        Color::Blue => 4,
        Color::Magenta => 5,
        Color::Cyan => 6,
        Color::White => 7,
        Color::Ansi256(n) => n,
    }
}

/// The ASCII digit of a value below ten.
pub open spec fn digit(d: u8) -> u8 {
    (0x30 + d % 10) as u8
}

/// The decimal digits of a byte, without leading zeros.
pub open spec fn decimal(n: u8) -> Seq<u8> {
    if n >= 100 {
        seq![digit(n / 100), digit(n / 10), digit(n)]
    } else if n >= 10 {
        seq![digit(n / 10), digit(n)]
    } else {
        seq![digit(n)]
    }
}

/// The sequence that selects a foreground color.
pub open spec fn fg_escape(c: Color) -> Seq<u8> {
    match c {
        Color::Ansi256(n) => sgr(seq![0x33u8, 0x38u8, 0x3Bu8, 0x35u8, 0x3Bu8] + decimal(n)),
        _ => sgr(seq![0x33u8, digit(base_index(c))]),
    }
}

/// The bytes an ANSI terminal writer emits to switch to a style: a reset,
/// then bold (1), dimmed (2), italic (3), underline (4), then the color.
pub open spec fn ansi_escape(s: StyleSpec) -> Seq<u8> {
    (if s.reset { sgr(seq![0x30u8]) } else { Seq::empty() })
    + (if s.bold { sgr(seq![0x31u8]) } else { Seq::empty() })
    + (if s.dimmed { sgr(seq![0x32u8]) } else { Seq::empty() })
    + (if s.italic { sgr(seq![0x33u8]) } else { Seq::empty() })
    + (if s.underline { sgr(seq![0x34u8]) } else { Seq::empty() })
    + match s.fg {
        Some(c) => fg_escape(c),
        None => Seq::empty(),
    }
}

/// Relies on termcolor's `Ansi::set_color`: the escape bytes it writes for a
/// color specification (reset, bold, dimmed, italic, underline, then the
/// foreground as `3x` or `38;5;n`). Writing into a `Vec` cannot fail.
#[verifier::external_body]
pub(crate) fn escape_bytes(style: &StyleSpec) -> (r: Vec<u8>)
    ensures
        r@ == ansi_escape(*style),
{
    let fg = style.fg.map(|c| match c {
        Color::Black => TermColor::Black, Color::Red => TermColor::Red,
        Color::Green => TermColor::Green, Color::Yellow => TermColor::Yellow,
        Color::Blue => TermColor::Blue, Color::Magenta => TermColor::Magenta,
        Color::Cyan => TermColor::Cyan, Color::White => TermColor::White,
        Color::Ansi256(n) => TermColor::Ansi256(n),
    });
    let mut spec = ColorSpec::new();
    spec.set_fg(fg).set_bold(style.bold).set_italic(style.italic);
    spec.set_underline(style.underline).set_dimmed(style.dimmed).set_reset(style.reset);
    let mut out = Ansi::new(Vec::new());
    let _ = out.set_color(&spec);
    out.into_inner()
}

} // verus!
