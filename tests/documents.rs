use typst_ansi_hl::{Highlighter, Node, NodeKind, Syntaxes, Tag};

fn leaf(text: &str, tag: Option<Tag>) -> Node {
    Node { text: text.to_string(), tag, kind: NodeKind::Plain, children: Vec::new() }
}

fn inner(tag: Option<Tag>, children: Vec<Node>) -> Node {
    Node { text: String::new(), tag, kind: NodeKind::Plain, children }
}

fn raw(lang: Option<&str>, parts: &[&str]) -> Node {
    Node {
        text: String::new(),
        tag: Some(Tag::Raw),
        kind: NodeKind::Raw(lang.map(|l| l.to_string())),
        children: parts.iter().map(|p| leaf(p, None)).collect(),
    }
}

/// The tree the Typst parser gives for `This is _emphasis_ text.`.
fn emphasis_document() -> Node {
    inner(
        None,
        vec![
            leaf("This", None),
            leaf(" ", None),
            leaf("is", None),
            leaf(" ", None),
            inner(
                Some(Tag::Emph),
                vec![leaf("_", None), inner(None, vec![leaf("emphasis", None)]), leaf("_", None)],
            ),
            leaf(" ", None),
            leaf("text.", None),
        ],
    )
}

fn render(h: &Highlighter, node: &Node) -> Vec<u8> {
    let syntaxes = Syntaxes::new();
    let mut out = Vec::new();
    assert!(h.highlight_node_to(node, &syntaxes, &mut out).is_ok());
    out
}

fn strip_escapes(bytes: &[u8]) -> String {
    let mut out = Vec::new();
    let mut i = 0;
    while i < bytes.len() {
        if bytes[i] == 0x1B {
            while bytes[i] != b'm' {
                i += 1;
            }
        } else {
            out.push(bytes[i]);
        }
        i += 1;
    }
    String::from_utf8(out).unwrap()
}

#[test]
fn emphasis_is_wrapped_in_its_style() {
    let out = render(&Highlighter::default(), &emphasis_document());
    assert_eq!(out, b"This is \x1B[0m\x1B[3m\x1B[33m_emphasis_\x1B[0m text.".to_vec());
}

#[test]
fn discord_output_is_fenced() {
    let mut h = Highlighter::default();
    h.for_discord();
    let out = render(&h, &emphasis_document());
    assert_eq!(
        out,
        b"```ansi\nThis is \x1B[0m\x1B[3m\x1B[33m_emphasis_\x1B[0m text.\n```\n".to_vec()
    );
}

#[test]
fn discord_keeps_a_final_line_feed() {
    let mut h = Highlighter::default();
    h.for_discord();
    let doc = inner(None, vec![leaf("done", None), leaf("\n", None)]);
    assert_eq!(render(&h, &doc), b"```ansi\ndone\n```\n".to_vec());
}

#[test]
fn nested_styles_are_restored() {
    let doc = inner(
        Some(Tag::Strong),
        vec![leaf("*", None), inner(Some(Tag::Emph), vec![leaf("_a_", None)]), leaf("b*", None)],
    );
    let out = render(&Highlighter::default(), &doc);
    assert_eq!(
        out,
        b"\x1B[0m\x1B[1m\x1B[33m*\x1B[0m\x1B[3m\x1B[33m_a_\x1B[0m\x1B[1m\x1B[33mb*".to_vec()
    );
}

#[test]
fn off_level_writes_plain_text() {
    let mut h = Highlighter::default();
    h.with_soft_limit(0);
    let doc = inner(
        None,
        vec![
            leaf("= ", Some(Tag::Heading)),
            inner(Some(Tag::Strong), vec![leaf("*bold*", None)]),
            leaf(" + ", Some(Tag::Operator)),
            leaf("// note", Some(Tag::Comment)),
        ],
    );
    assert_eq!(render(&h, &doc), b"= *bold* + // note".to_vec());
}

#[test]
fn soft_limit_lowers_the_level() {
    let mut tokens = Vec::new();
    for i in 0..40 {
        tokens.push(leaf(if i % 2 == 0 { "a" } else { "+" }, Some(if i % 2 == 0 { Tag::Strong } else { Tag::Operator })));
    }
    let doc = inner(None, tokens);
    let full = render(&Highlighter::default(), &doc);
    assert!(full.len() > 100);
    let mut h = Highlighter::default();
    h.with_soft_limit(60);
    let limited = render(&h, &doc);
    assert!(limited.len() < 60);
    assert!(limited.len() <= full.len());
    assert_eq!(strip_escapes(&limited), strip_escapes(&full));
    let mut unlimited = Highlighter::default();
    unlimited.with_soft_limit(100_000);
    assert_eq!(render(&unlimited, &doc), full);
}

#[test]
fn oversized_output_is_still_given() {
    let doc = inner(None, vec![leaf("fn", Some(Tag::Keyword)), leaf(" x", None)]);
    let mut h = Highlighter::default();
    h.with_soft_limit(3);
    let out = render(&h, &doc);
    assert_eq!(out, b"\x1B[0m\x1B[35mfn\x1B[0m x".to_vec());
}

#[test]
fn unknown_language_is_verbatim() {
    let doc = inner(None, vec![raw(Some("nosuchlang"), &["```", "nosuchlang", " a <b> c ", "```"])]);
    let out = render(&Highlighter::default(), &doc);
    assert_eq!(out, b"\x1B[0m\x1B[37m```nosuchlang a <b> c ```".to_vec());
}

#[test]
fn known_language_keeps_its_text() {
    let doc = inner(None, vec![raw(Some("rust"), &["```", "rust", "\nfn main() {}\n", "```"])]);
    let out = render(&Highlighter::default(), &doc);
    assert_eq!(strip_escapes(&out), "```rust\nfn main() {}\n```");
    assert!(out.len() > "```rust\nfn main() {}\n```".len() + 20);
}

#[test]
fn raw_code_is_not_highlighted_at_low_levels() {
    let doc = inner(None, vec![raw(Some("rust"), &["```", "rust", " fn x() {} ", "```"])]);
    let mut h = Highlighter::default();
    h.with_soft_limit(0);
    let out = render(&h, &doc);
    assert_eq!(out, b"\x1B[0m\x1B[37m```rust fn x() {} ```".to_vec());
}

#[test]
fn discord_escapes_long_fences() {
    let doc = inner(None, vec![raw(None, &["```", " x ", "```"])]);
    let mut h = Highlighter::default();
    h.for_discord();
    let out = String::from_utf8(render(&h, &doc)).unwrap();
    let fence = "`\u{200D}`\u{200D}`";
    let expected = format!(
        "```ansi\n\x1B[0m\x1B[30m/* when copying, remove and retype these --> */\x1B[0m\x1B[37m{fence} x {fence}\x1B[0m\x1B[30m/* <-- when copying, remove and retype these */\x1B[0m\n```\n"
    );
    assert_eq!(out, expected);
}

#[test]
fn discord_keeps_short_fences() {
    let doc = inner(None, vec![raw(None, &["`", "x", "`"])]);
    let mut h = Highlighter::default();
    h.for_discord();
    let out = render(&h, &doc);
    assert_eq!(out, b"```ansi\n\x1B[0m\x1B[37m`x`\x1B[0m\n```\n".to_vec());
}

#[test]
fn unstyled_fallback_can_outgrow_the_full_render() {
    // At the highest level the delimiters share the operator's color, so
    // one escape covers all three; below `L2` the delimiters lose it.
    let doc = inner(
        None,
        vec![
            leaf("$", Some(Tag::MathDelimiter)),
            leaf("^", Some(Tag::MathOperator)),
            leaf("$", Some(Tag::MathDelimiter)),
        ],
    );
    let full = render(&Highlighter::default(), &doc);
    assert_eq!(full, b"\x1B[0m\x1B[36m$^$".to_vec());
    let mut h = Highlighter::default();
    h.with_soft_limit(5);
    let fallback = render(&h, &doc);
    assert_eq!(fallback, b"$\x1B[0m\x1B[36m^\x1B[0m$".to_vec());
    assert!(fallback.len() > full.len());
}

#[test]
fn every_level_keeps_the_source_text() {
    let doc = inner(
        None,
        vec![
            leaf("= ", Some(Tag::Heading)),
            inner(Some(Tag::Strong), vec![leaf("*x*", None)]),
            leaf(" ", None),
            raw(Some("rust"), &["```", "rust", "\nlet a = 1;\n", "```"]),
            leaf(" // done", Some(Tag::Comment)),
        ],
    );
    let source = "= *x* ```rust\nlet a = 1;\n``` // done";
    for limit in [0, 40, 80, 120, 160, 100_000] {
        let mut h = Highlighter::default();
        h.with_soft_limit(limit);
        assert_eq!(strip_escapes(&render(&h, &doc)), source);
    }
}

#[test]
fn empty_inline_raw_keeps_two_backticks() {
    let doc = inner(None, vec![raw(None, &["`", "`"])]);
    let out = render(&Highlighter::default(), &doc);
    assert_eq!(out, b"\x1B[0m\x1B[37m``".to_vec());
    let mut h = Highlighter::default();
    h.for_discord();
    assert_eq!(render(&h, &doc), b"```ansi\n\x1B[0m\x1B[37m``\x1B[0m\n```\n".to_vec());
}
