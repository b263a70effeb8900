//! Code in raw blocks, highlighted by syntect with the two-face syntaxes
//! and the Base16 theme.
use crate::error::Error;
use crate::style::{Color, StyleSpec};
use crate::writer::{DeferredWriter, Op};
use syntect::Error as SyntectError;
use syntect::easy::HighlightLines;
use syntect::highlighting::Theme;
use syntect::parsing::{SyntaxReference, SyntaxSet};
use syntect::util::LinesWithEndings;
use two_face::theme::EmbeddedThemeName;
use vstd::prelude::*;

verus! {

#[verifier::external_type_specification]
#[verifier::external_body]
pub struct ExSyntaxSet(SyntaxSet);

#[verifier::external_type_specification]
#[verifier::external_body]
pub struct ExSyntaxReference(SyntaxReference);

#[verifier::external_type_specification]
#[verifier::external_body]
pub struct ExTheme(Theme);

#[verifier::external_type_specification]
#[verifier::external_body]
pub struct ExHighlightLines<'a>(HighlightLines<'a>);

/// The syntax definitions and the color theme for embedded code.
///
/// Every value holds the same data: two-face's syntax set with newlines and
/// its Base16 theme, so what is looked up in it depends on the key alone.
pub struct Syntaxes {
    set: SyntaxSet,
    theme: Theme,
}

/// Relies on `two_face::syntax::extra_newlines`: the bundled syntax set.
#[verifier::external_body]
fn bundled_syntaxes() -> SyntaxSet {
    two_face::syntax::extra_newlines()
}

/// Relies on `two_face::theme::extra` and `EmbeddedLazyThemeSet::get`: the
/// bundled Base16 theme, whose colors use the alpha channel to mark the
/// terminal's own palette.
#[verifier::external_body]
fn base16_theme() -> Theme {
    two_face::theme::extra().get(EmbeddedThemeName::Base16).clone()
}

impl Syntaxes {
    /// Loads the bundled syntaxes and theme.
    pub fn new() -> Syntaxes {
        Syntaxes { set: bundled_syntaxes(), theme: base16_theme() }
    }
}

/// Whether the bundled syntax set has a syntax for a language token, by
/// file extension or by name.
pub uninterp spec fn syntax_known(token: Seq<char>) -> bool;

/// What syntect makes of a line of code in the language of `token`, after
/// the lines `before`: `None` for a failure, else styled pieces as red,
/// green, blue, alpha, font-style bits and text. The syntaxes and theme are
/// always the bundled ones, so this depends on the arguments alone.
pub uninterp spec fn line_result(token: Seq<char>, before: Seq<Seq<char>>, line: Seq<char>) -> Option<
    Seq<(u8, u8, u8, u8, u8, Seq<char>)>,
>;

/// A syntect highlighter for one piece of code, with the language token it
/// was made for and the lines it has been given.
struct LineHighlighter<'a> {
    lines: HighlightLines<'a>,
    token: Ghost<Seq<char>>,
    fed: Ghost<Seq<Seq<char>>>,
}

/// Relies on `SyntaxSet::find_syntax_by_token` (a syntax whose extension is
/// the token or whose name equals it ignoring ASCII case) and
/// `HighlightLines::new` (a highlighter at the start of a text).
#[verifier::external_body]
fn line_highlighter<'a>(syntaxes: &'a Syntaxes, token: &str) -> (r: Option<LineHighlighter<'a>>)
    ensures
        r is Some == syntax_known(token@),
        r matches Some(h) ==> h.token@ == token@ && h.fed@ == Seq::<Seq<char>>::empty(),
{
    match syntaxes.set.find_syntax_by_token(token) {
        Some(syntax) => Some(LineHighlighter {
            lines: HighlightLines::new(syntax, &syntaxes.theme),
            token: Ghost(token@),
            fed: Ghost(Seq::empty()),
        }),
        None => None,
    }
}

/// A run of text with the style the theme gives it: its foreground color
/// as red, green, blue and alpha, and its font-style bits.
pub struct Fragment {
    pub r: u8,
    pub g: u8,
    pub b: u8,
    pub a: u8,
    pub font_style: u8,
    pub text: String,
}

/// A fragment as plain values.
pub open spec fn piece(f: Fragment) -> (u8, u8, u8, u8, u8, Seq<char>) {
    (f.r, f.g, f.b, f.a, f.font_style, f.text@)
}

/// Fragments as plain values.
pub open spec fn pieces(fs: Seq<Fragment>) -> Seq<(u8, u8, u8, u8, u8, Seq<char>)> {
    fs.map_values(|f: Fragment| piece(f))
}

/// The texts of a sequence of pieces, one after another.
pub open spec fn pieces_text(ps: Seq<(u8, u8, u8, u8, u8, Seq<char>)>) -> Seq<char>
    decreases ps.len(),
{
    if ps.len() == 0 {
        Seq::empty()
    } else {
        pieces_text(ps.drop_last()) + ps.last().5
    }
}

/// Relies on `HighlightLines::highlight_line`: its result, named, and on
/// success styled pieces whose texts make up the line, as syntect
/// documents.
#[verifier::external_body]
fn highlight_line(h: &mut LineHighlighter, line: &str, syntaxes: &Syntaxes) -> (r: Result<Vec<Fragment>, SyntectError>)
    ensures
        final(h).token@ == old(h).token@,
        final(h).fed@ == old(h).fed@.push(line@),
        r is Ok == line_result(old(h).token@, old(h).fed@, line@) is Some,
        r matches Ok(fs) ==> Some(pieces(fs@)) == line_result(old(h).token@, old(h).fed@, line@),
        r matches Ok(fs) ==> pieces_text(pieces(fs@)) == line@,
{
    let found = h.lines.highlight_line(line, &syntaxes.set)?;
    Ok(found.into_iter().map(|(s, t)| Fragment {
        r: s.foreground.r, g: s.foreground.g, b: s.foreground.b, a: s.foreground.a,
        font_style: s.font_style.bits(), text: t.to_string(),
    }).collect())
}

/// The length of the first line of a text, its line feed included.
pub open spec fn line_len(s: Seq<char>) -> nat
    decreases s.len(),
{
    if s.len() == 0 {
        0
    } else if s[0] == '\n' {
        1
    } else {
        1 + line_len(s.drop_first())
    }
}

proof fn lemma_line_len(s: Seq<char>)
    ensures
        line_len(s) <= s.len(),
        s.len() > 0 ==> line_len(s) > 0,
    decreases s.len(),
{
    if s.len() > 0 && s[0] != '\n' {
        lemma_line_len(s.drop_first());
    }
}

/// A text cut after each line feed, into non-empty lines that keep their
/// line feed.
pub open spec fn lines_of(s: Seq<char>) -> Seq<Seq<char>>
    decreases s.len(),
{
    if s.len() == 0 {
        Seq::empty()
    } else {
        let k = line_len(s);
        if 0 < k <= s.len() {
            seq![s.subrange(0, k as int)] + lines_of(s.subrange(k as int, s.len() as int))
        } else {
            Seq::empty()
        }
    }
}

/// The views of a sequence of texts.
pub open spec fn views(ls: Seq<&str>) -> Seq<Seq<char>> {
    ls.map_values(|l: &str| l@)
}

/// A sequence of texts, one after another.
pub open spec fn concat(ls: Seq<&str>) -> Seq<char>
    decreases ls.len(),
{
    if ls.len() == 0 {
        Seq::empty()
    } else {
        concat(ls.drop_last()) + ls.last()@
    }
}

/// Relies on `syntect::util::LinesWithEndings`: the text cut after each
/// line feed, into non-empty lines that keep their line feed.
#[verifier::external_body]
fn lines_with_endings<'a>(text: &'a str) -> (r: Vec<&'a str>)
    ensures
        views(r@) == lines_of(text@),
        concat(r@) == text@,
{
    LinesWithEndings::from(text).collect()
}

/// What syntect makes of code, line by line: `None` if a line fails, else
/// the pieces of all lines.
pub open spec fn code_result(token: Seq<char>, lines: Seq<Seq<char>>) -> Option<Seq<(u8, u8, u8, u8, u8, Seq<char>)>>
    decreases lines.len(),
{
    if lines.len() == 0 {
        Some(Seq::empty())
    } else {
        match code_result(token, lines.drop_last()) {
            Some(done) => match line_result(token, lines.drop_last(), lines.last()) {
                Some(more) => Some(done + more),
                None => None,
            },
            None => None,
        }
    }
}

/// What syntect makes of code in the language of `token`.
pub open spec fn code_pieces(token: Seq<char>, code: Seq<char>) -> Option<Seq<(u8, u8, u8, u8, u8, Seq<char>)>> {
    code_result(token, lines_of(code))
}

proof fn lemma_code_result_fails(token: Seq<char>, lines: Seq<Seq<char>>, i: int)
    requires
        0 <= i <= lines.len(),
        code_result(token, lines.subrange(0, i)) is None,
    ensures
        code_result(token, lines) is None,
    decreases lines.len() - i,
{
    if i < lines.len() {
        let next = lines.subrange(0, i + 1);
        assert(next.drop_last() =~= lines.subrange(0, i));
        lemma_code_result_fails(token, lines, i + 1);
    } else {
        assert(lines.subrange(0, i) =~= lines);
    }
}

/// The 256-color index nearest to a color, as ansi_colours computes it.
pub uninterp spec fn ansi256_of(r: u8, g: u8, b: u8) -> u8;

/// Relies on `ansi_colours::ansi256_from_rgb`: the palette index that
/// approximates an sRGB color.
#[verifier::external_body]
fn ansi256_from_rgb(r: u8, g: u8, b: u8) -> (n: u8)
    ensures
        n == ansi256_of(r, g, b),
{
    ansi_colours::ansi256_from_rgb((r, g, b))
}

/// The base color of an index below eight, else the 256-color index.
pub open spec fn base_color(n: u8) -> Color {
    if n == 0 {
        Color::Black
    } else if n == 1 {
        Color::Red
    } else if n == 2 {
        Color::Green
    } else if n == 3 {
        Color::Yellow
    } else if n == 4 {
        Color::Blue
    } else if n == 5 {
        Color::Magenta
    } else if n == 6 {
        Color::Cyan
    } else if n == 7 {
        Color::White
    } else {
        Color::Ansi256(n)
    }
}

/// The terminal color of a theme color. Alpha 0 marks a palette entry held
/// in the red channel, alpha 1 the terminal's default color; any other
/// alpha is a true color, approximated in the 256-color palette.
pub open spec fn rgb_color(r: u8, g: u8, b: u8, a: u8) -> Option<Color> {
    if a == 0 {
        Some(base_color(r))
    } else if a == 1 {
        None
    } else {
        Some(Color::Ansi256(ansi256_of(r, g, b)))
    }
}

/// Converts a theme color to a terminal color.
pub fn convert_rgb_to_ansi_color(r: u8, g: u8, b: u8, a: u8) -> (c: Option<Color>)
    ensures
        c == rgb_color(r, g, b, a),
{
    match a {
        0 => Some(match r {
            0 => Color::Black,
            1 => Color::Red,
            2 => Color::Green,
            3 => Color::Yellow,
            4 => Color::Blue,
            5 => Color::Magenta,
            6 => Color::Cyan,
            7 => Color::White,
            _ => Color::Ansi256(r),
        }),
        1 => None,
        _ => Some(Color::Ansi256(ansi256_from_rgb(r, g, b))),
    }
}

/// The style of a piece: its converted color, and bold (bit 1), underline
/// (bit 2) and italic (bit 4) from its font style.
pub open spec fn piece_style(p: (u8, u8, u8, u8, u8, Seq<char>)) -> StyleSpec {
    StyleSpec {
        fg: rgb_color(p.0, p.1, p.2, p.3),
        bold: p.4 & 1 != 0,
        italic: p.4 & 4 != 0,
        underline: p.4 & 2 != 0,
        dimmed: false,
        reset: true,
    }
}

/// The style of a fragment.
pub open spec fn fragment_style(f: Fragment) -> StyleSpec {
    piece_style(piece(f))
}

/// The writer calls for a sequence of pieces: each one's style, then its
/// text.
pub open spec fn piece_calls(ps: Seq<(u8, u8, u8, u8, u8, Seq<char>)>) -> Seq<Op>
    decreases ps.len(),
{
    if ps.len() == 0 {
        Seq::empty()
    } else {
        piece_calls(ps.drop_last()) + seq![Op::Style(piece_style(ps.last())), Op::Text(ps.last().5)]
    }
}

proof fn lemma_pieces_append(a: Seq<(u8, u8, u8, u8, u8, Seq<char>)>, b: Seq<(u8, u8, u8, u8, u8, Seq<char>)>)
    ensures
        piece_calls(a + b) == piece_calls(a) + piece_calls(b),
        pieces_text(a + b) == pieces_text(a) + pieces_text(b),
    decreases b.len(),
{
    if b.len() == 0 {
        assert(a + b =~= a);
        assert(piece_calls(a) + piece_calls(b) =~= piece_calls(a));
        assert(pieces_text(a) + pieces_text(b) =~= pieces_text(a));
    } else {
        lemma_pieces_append(a, b.drop_last());
        assert((a + b).drop_last() =~= a + b.drop_last());
        assert((a + b).last() == b.last());
        assert(piece_calls(a + b) =~= piece_calls(a) + piece_calls(b));
        assert(pieces_text(a + b) =~= pieces_text(a) + pieces_text(b));
    }
}

/// The style of a fragment.
pub fn style_of_fragment(f: &Fragment) -> (s: StyleSpec)
    ensures
        s == fragment_style(*f),
{
    StyleSpec {
        fg: convert_rgb_to_ansi_color(f.r, f.g, f.b, f.a),
        bold: f.font_style & 1 != 0,
        italic: f.font_style & 4 != 0,
        underline: f.font_style & 2 != 0,
        dimmed: false,
        reset: true,
    }
}

/// Writes highlighted fragments, each under its own style.
pub fn write_fragments(out: &mut DeferredWriter, fs: &Vec<Fragment>)
    requires
        old(out).wf(),
    ensures
        final(out).wf(),
        final(out).calls() == old(out).calls() + piece_calls(pieces(fs@)),
{
    let mut i: usize = 0;
    while i < fs.len()
        invariant
            i <= fs@.len(),
            out.wf(),
            out.calls() == old(out).calls() + piece_calls(pieces(fs@.subrange(0, i as int))),
        decreases fs@.len() - i,
    {
        let style = style_of_fragment(&fs[i]);
        out.set_style(&style);
        out.write(fs[i].text.as_str());
        proof {
            let pre = pieces(fs@.subrange(0, i as int));
            let next = pieces(fs@.subrange(0, i + 1));
            assert(next.drop_last() =~= pre);
            assert(next.last() == piece(fs@[i as int]));
        }
        i = i + 1;
        assert(out.calls() =~= old(out).calls() + piece_calls(pieces(fs@.subrange(0, i as int))));
    }
    assert(fs@.subrange(0, i as int) =~= fs@);
}

/// Writes code in a language: verbatim when the language is unknown, else
/// line by line in the colors of the theme, failing where syntect fails.
pub fn highlight_lang(input: &str, lang: &str, syntaxes: &Syntaxes, out: &mut DeferredWriter) -> (r: Result<(), Error>)
    requires
        old(out).wf(),
    ensures
        final(out).wf(),
        !syntax_known(lang@) ==> r is Ok && final(out).calls() == old(out).calls().push(Op::Text(input@)),
        syntax_known(lang@) ==> (r is Ok <==> code_pieces(lang@, input@) is Some),
        syntax_known(lang@) && r is Ok ==> final(out).calls() == old(out).calls() + piece_calls(
            code_pieces(lang@, input@)->Some_0,
        ) && pieces_text(code_pieces(lang@, input@)->Some_0) == input@,
        r matches Err(e) ==> e is Syntect,
{
    let mut highlighter = match line_highlighter(syntaxes, lang) {
        Some(h) => h,
        None => {
            out.write(input);
            return Ok(());
        },
    };
    let lines = lines_with_endings(input);
    let ghost start = out.calls();
    let ghost mut done: Seq<(u8, u8, u8, u8, u8, Seq<char>)> = Seq::empty();
    proof {
        assert(views(lines@.subrange(0, 0)) =~= Seq::<Seq<char>>::empty());
        assert(start + piece_calls(done) =~= start);
    }
    let mut i: usize = 0;
    while i < lines.len()
        invariant
            i <= lines@.len(),
            out.wf(),
            syntax_known(lang@),
            start == old(out).calls(),
            concat(lines@) == input@,
            views(lines@) == lines_of(input@),
            highlighter.token@ == lang@,
            highlighter.fed@ == views(lines@.subrange(0, i as int)),
            code_result(lang@, views(lines@.subrange(0, i as int))) == Some(done),
            out.calls() == start + piece_calls(done),
            pieces_text(done) == concat(lines@.subrange(0, i as int)),
        decreases lines@.len() - i,
    {
        let ghost before_lines = views(lines@.subrange(0, i as int));
        let ghost next = views(lines@.subrange(0, i + 1));
        proof {
            assert(next.drop_last() =~= before_lines);
            assert(next.last() == lines@[i as int]@);
            assert(lines@.subrange(0, i + 1).drop_last() =~= lines@.subrange(0, i as int));
        }
        let fs = match highlight_line(&mut highlighter, lines[i], syntaxes) {
            Ok(fs) => fs,
            Err(e) => {
                proof {
                    assert(views(lines@).subrange(0, i + 1) =~= next);
                    lemma_code_result_fails(lang@, views(lines@), i + 1);
                }
                return Err(Error::Syntect(e));
            },
        };
        write_fragments(out, &fs);
        proof {
            assert(before_lines.push(lines@[i as int]@) =~= next);
            lemma_pieces_append(done, pieces(fs@));
            assert(start + piece_calls(done) + piece_calls(pieces(fs@)) =~= start + piece_calls(done + pieces(fs@)));
            done = done + pieces(fs@);
        }
        i = i + 1;
    }
    proof {
        assert(lines@.subrange(0, i as int) =~= lines@);
    }
    Ok(())
}

} // verus!
