//! Syntax categories and the style each one gets at each level.
use crate::level::HighlightLevel;
use crate::style::{Color, StyleSpec, plain_style};
use vstd::prelude::*;

verus! {

/// The syntax category of a node, as the parser reports it.
#[derive(Clone, Copy, Debug, PartialEq, Eq, Structural)]
pub enum Tag {
    Comment,
    Punctuation,
    Escape,
    Strong,
    Emph,
    Link,
    Raw,
    Label,
    Ref,
    Heading,
    ListMarker,
    ListTerm,
    MathDelimiter,
    MathOperator,
    Keyword,
    Operator,
    Number,
    String,
    Function,
    Interpolated,
    Error,
}

/// The plain style with a foreground color.
pub open spec fn colored(c: Color) -> StyleSpec {
    StyleSpec { fg: Some(c), ..plain_style() }
}

/// The style of a tag at a level. Colors of tags with a minimum level are
/// dropped below it; bold, italic and underline need `WithStyles`.
pub open spec fn style_for(tag: Tag, level: HighlightLevel, discord: bool) -> StyleSpec {
    let l1 = level.rank() >= 1;
    let l2 = level.rank() >= 2;
    let l3 = level.rank() >= 3;
    let styles = level.rank() >= 4;
    match tag {
        Tag::Comment => if !l1 {
            plain_style()
        } else if discord {
            colored(Color::Black)
        } else {
            StyleSpec { dimmed: true, ..plain_style() }
        },
        Tag::Punctuation => plain_style(),
        Tag::Escape => colored(Color::Cyan),
        Tag::Strong => if l1 {
            StyleSpec { bold: styles, ..colored(Color::Yellow) }
        } else {
            plain_style()
        },
        Tag::Emph => if l1 {
            StyleSpec { italic: styles, ..colored(Color::Yellow) }
        } else {
            plain_style()
        },
        Tag::Link | Tag::Label | Tag::Ref => if l1 {
            StyleSpec { underline: styles, ..colored(Color::Blue) }
        } else {
            plain_style()
        },
        Tag::Raw => colored(Color::White),
        Tag::Heading => if l1 {
            StyleSpec { bold: styles, ..colored(Color::Cyan) }
        } else {
            plain_style()
        },
        Tag::ListMarker | Tag::ListTerm | Tag::MathOperator => colored(Color::Cyan),
        Tag::MathDelimiter | Tag::Operator => if l2 {
            colored(Color::Cyan)
        } else {
            plain_style()
        },
        Tag::Keyword => colored(Color::Magenta),
        Tag::Number => colored(Color::Yellow),
        Tag::String => colored(Color::Green),
        Tag::Function => if l3 {
            StyleSpec { italic: styles, ..colored(Color::Blue) }
        } else {
            plain_style()
        },
        Tag::Interpolated => if l3 {
            colored(Color::White)
        } else {
            plain_style()
        },
        Tag::Error => colored(Color::Red),
    }
}

/// The style of `tag` at `level`, with Discord's muted comment color when
/// `discord` is set.
pub fn tag_to_color(discord: bool, level: HighlightLevel, tag: Tag) -> (r: StyleSpec)
    ensures
        r == style_for(tag, level, discord),
{
    let l1 = level.at_least(HighlightLevel::L1);
    let l2 = level.at_least(HighlightLevel::L2);
    let l3 = level.at_least(HighlightLevel::WithRaw);
    let styles = level.at_least(HighlightLevel::WithStyles);
    let mut color = StyleSpec::new();
    match tag {
        Tag::Comment => {
            if l1 {
                if discord {
                    color.fg = Some(Color::Black);
                } else {
                    color.dimmed = true;
                }
            }
        },
        Tag::Punctuation => {
            if l2 {
                color.fg = None;
            }
        },
        Tag::Escape => color.fg = Some(Color::Cyan),
        Tag::Strong => {
            if l1 {
                color.fg = Some(Color::Yellow);
                color.bold = styles;
            }
        },
        Tag::Emph => {
            if l1 {
                color.fg = Some(Color::Yellow);
                color.italic = styles;
            }
        },
        Tag::Link | Tag::Label | Tag::Ref => {
            if l1 {
                color.fg = Some(Color::Blue);
                color.underline = styles;
            }
        },
        Tag::Raw => color.fg = Some(Color::White),
        Tag::Heading => {
            if l1 {
                color.fg = Some(Color::Cyan);
                color.bold = styles;
            }
        },
        Tag::ListMarker | Tag::ListTerm | Tag::MathOperator => color.fg = Some(Color::Cyan),
        Tag::MathDelimiter | Tag::Operator => {
            if l2 {
                color.fg = Some(Color::Cyan);
            }
        },
        Tag::Keyword => color.fg = Some(Color::Magenta),
        Tag::Number => color.fg = Some(Color::Yellow),
        Tag::String => color.fg = Some(Color::Green),
        Tag::Function => {
            if l3 {
                color.fg = Some(Color::Blue);
                color.italic = styles;
            }
        },
        Tag::Interpolated => {
            if l3 {
                color.fg = Some(Color::White);
            }
        },
        Tag::Error => color.fg = Some(Color::Red),
    }
    color
}

} // verus!
