use typst_ansi_hl::embedded::{convert_rgb_to_ansi_color, style_of_fragment, write_fragments};
use typst_ansi_hl::fence::{fence_text, leading_backticks};
use typst_ansi_hl::tags::tag_to_color;
use typst_ansi_hl::{
    Color, DeferredWriter, Fragment, HighlightLevel, Highlighter, StyleSpec, SyntaxMode, Tag,
};

fn colored(c: Color) -> StyleSpec {
    StyleSpec::new().with_fg(Some(c))
}

#[test]
fn restrict_walks_down_to_off() {
    let mut level = HighlightLevel::All;
    let mut seen = vec![level];
    for _ in 0..6 {
        level = level.restrict();
        seen.push(level);
    }
    assert_eq!(
        seen,
        vec![
            HighlightLevel::All,
            HighlightLevel::WithStyles,
            HighlightLevel::WithRaw,
            HighlightLevel::L2,
            HighlightLevel::L1,
            HighlightLevel::Off,
            HighlightLevel::Off,
        ]
    );
}

#[test]
fn tag_styles_follow_the_level_table() {
    let mut strong = colored(Color::Yellow);
    strong.bold = true;
    assert_eq!(tag_to_color(false, HighlightLevel::All, Tag::Strong), strong);
    assert_eq!(tag_to_color(false, HighlightLevel::WithRaw, Tag::Strong), colored(Color::Yellow));
    assert_eq!(tag_to_color(false, HighlightLevel::Off, Tag::Strong), StyleSpec::new());
    assert_eq!(tag_to_color(false, HighlightLevel::Off, Tag::Keyword), colored(Color::Magenta));
    assert_eq!(tag_to_color(false, HighlightLevel::L1, Tag::Operator), StyleSpec::new());
    assert_eq!(tag_to_color(false, HighlightLevel::L2, Tag::Operator), colored(Color::Cyan));
    assert_eq!(tag_to_color(false, HighlightLevel::L2, Tag::Function), StyleSpec::new());
    let mut function = colored(Color::Blue);
    function.italic = true;
    assert_eq!(tag_to_color(false, HighlightLevel::All, Tag::Function), function);
    assert_eq!(tag_to_color(false, HighlightLevel::Off, Tag::Raw), colored(Color::White));
    assert_eq!(tag_to_color(false, HighlightLevel::All, Tag::Punctuation), StyleSpec::new());
}

#[test]
fn comments_are_dimmed_or_black_for_discord() {
    let mut dimmed = StyleSpec::new();
    dimmed.dimmed = true;
    assert_eq!(tag_to_color(false, HighlightLevel::All, Tag::Comment), dimmed);
    assert_eq!(tag_to_color(true, HighlightLevel::All, Tag::Comment), colored(Color::Black));
    assert_eq!(tag_to_color(true, HighlightLevel::Off, Tag::Comment), StyleSpec::new());
}

#[test]
fn writer_emits_termcolor_escapes() {
    let mut style = colored(Color::Yellow);
    style.italic = true;
    let mut w = DeferredWriter::new();
    w.set_style(&style);
    w.write("x");
    w.set_style(&colored(Color::Ansi256(123)));
    w.write("y");
    let mut all = colored(Color::Red);
    all.bold = true;
    all.dimmed = true;
    all.underline = true;
    all.reset = false;
    w.set_style(&all);
    w.write("z");
    assert_eq!(
        w.into_bytes(),
        b"\x1B[0m\x1B[3m\x1B[33mx\x1B[0m\x1B[38;5;123my\x1B[1m\x1B[2m\x1B[4m\x1B[31mz".to_vec()
    );
}

#[test]
fn writer_drops_styles_without_text() {
    let mut w = DeferredWriter::new();
    w.set_style(&colored(Color::Red));
    w.set_style(&colored(Color::Green));
    w.write("");
    assert_eq!(w.len(), 0);
    w.set_style(&StyleSpec::new());
    w.write("plain");
    assert_eq!(w.into_bytes(), b"plain".to_vec());
}

#[test]
fn writer_never_repeats_a_style() {
    let mut w = DeferredWriter::new();
    w.set_style(&colored(Color::Red));
    w.write("a");
    w.set_style(&colored(Color::Green));
    w.set_style(&colored(Color::Red));
    w.write("b");
    w.reset();
    w.write("c");
    w.reset();
    w.write("d");
    assert_eq!(w.into_bytes(), b"\x1B[0m\x1B[31mab\x1B[0mcd".to_vec());
}

#[test]
fn short_fences_are_not_escaped() {
    assert_eq!(fence_text(1, true), "`");
    assert_eq!(fence_text(2, true), fence_text(2, false));
    assert_eq!(fence_text(0, true), "");
}

#[test]
fn long_fences_get_joiners_for_discord() {
    let fence = fence_text(3, true);
    assert_eq!(fence, "`\u{200D}`\u{200D}`");
    assert_eq!(fence.replace('\u{200D}', ""), "```");
    assert_eq!(fence_text(5, true).replace('\u{200D}', ""), "`````");
    assert_eq!(fence_text(5, true).chars().count(), 9);
    assert_eq!(fence_text(3, false), "```");
}

#[test]
fn backtick_runs_are_counted() {
    assert_eq!(leading_backticks("```rust x```"), 3);
    assert_eq!(leading_backticks("`a`"), 1);
    assert_eq!(leading_backticks("abc"), 0);
    assert_eq!(leading_backticks(""), 0);
    assert_eq!(leading_backticks("````"), 4);
}

#[test]
fn theme_colors_convert_by_alpha() {
    assert_eq!(convert_rgb_to_ansi_color(0, 9, 9, 0), Some(Color::Black));
    assert_eq!(convert_rgb_to_ansi_color(3, 0, 0, 0), Some(Color::Yellow));
    assert_eq!(convert_rgb_to_ansi_color(7, 0, 0, 0), Some(Color::White));
    assert_eq!(convert_rgb_to_ansi_color(8, 0, 0, 0), Some(Color::Ansi256(8)));
    assert_eq!(convert_rgb_to_ansi_color(200, 0, 0, 0), Some(Color::Ansi256(200)));
    assert_eq!(convert_rgb_to_ansi_color(12, 34, 56, 1), None);
    assert_eq!(convert_rgb_to_ansi_color(175, 0, 215, 255), Some(Color::Ansi256(128)));
    assert_eq!(convert_rgb_to_ansi_color(255, 255, 255, 255), Some(Color::Ansi256(231)));
    assert_eq!(convert_rgb_to_ansi_color(0, 0, 0, 2), Some(Color::Ansi256(16)));
}

#[test]
fn fragments_carry_font_style_bits() {
    let f = Fragment { r: 2, g: 0, b: 0, a: 0, font_style: 1 | 4, text: "fn".to_string() };
    let s = style_of_fragment(&f);
    assert_eq!(s.fg, Some(Color::Green));
    assert!(s.bold && s.italic && !s.underline && !s.dimmed && s.reset);
    let g = Fragment { r: 0, g: 0, b: 0, a: 1, font_style: 2, text: " main".to_string() };
    let t = style_of_fragment(&g);
    assert_eq!(t.fg, None);
    assert!(!t.bold && !t.italic && t.underline);
    let mut w = DeferredWriter::new();
    write_fragments(&mut w, &vec![f, g]);
    assert_eq!(w.into_bytes(), b"\x1B[0m\x1B[1m\x1B[3m\x1B[32mfn\x1B[0m\x1B[4m main".to_vec());
}

#[test]
fn builders_set_their_option() {
    let h = Highlighter::default();
    assert!(!h.discord());
    assert_eq!(h.syntax_mode(), SyntaxMode::Markup);
    assert_eq!(h.soft_limit(), None);
    let mut h = Highlighter::default();
    h.for_discord().with_soft_limit(2000).with_syntax_mode(SyntaxMode::Math);
    assert!(h.discord());
    assert_eq!(h.soft_limit(), Some(2000));
    assert_eq!(h.syntax_mode(), SyntaxMode::Math);
}
