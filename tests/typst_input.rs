use typst_ansi_hl::{Highlighter, Node, NodeKind, Syntaxes, Tag};
use typst_syntax::ast::{self, AstNode};
use typst_syntax::LinkedNode;
use typst_syntax::Tag as T;

fn tag_of(tag: typst_syntax::Tag) -> Tag {
    match tag {
        T::Comment => Tag::Comment,
        T::Punctuation => Tag::Punctuation,
        T::Escape => Tag::Escape,
        T::Strong => Tag::Strong,
        T::Emph => Tag::Emph,
        T::Link => Tag::Link,
        T::Raw => Tag::Raw,
        T::Label => Tag::Label,
        T::Ref => Tag::Ref,
        T::Heading => Tag::Heading,
        T::ListMarker => Tag::ListMarker,
        T::ListTerm => Tag::ListTerm,
        T::MathDelimiter => Tag::MathDelimiter,
        T::MathOperator => Tag::MathOperator,
        T::Keyword => Tag::Keyword,
        T::Operator => Tag::Operator,
        T::Number => Tag::Number,
        T::String => Tag::String,
        T::Function => Tag::Function,
        T::Interpolated => Tag::Interpolated,
        T::Error => Tag::Error,
    }
}

fn convert(node: &LinkedNode) -> Node {
    let kind = match ast::Raw::from_untyped(node) {
        Some(raw) => NodeKind::Raw(raw.lang().map(|l| l.get().to_string())),
        None => NodeKind::Plain,
    };
    Node {
        text: node.text().to_string(),
        tag: typst_syntax::highlight(node).map(tag_of),
        kind,
        children: node.children().map(|c| convert(&c)).collect(),
    }
}

fn highlight(h: &Highlighter, input: &str) -> String {
    let parsed = typst_syntax::parse(input);
    let node = convert(&LinkedNode::new(&parsed));
    let mut out = Vec::new();
    assert!(h.highlight_node_to(&node, &Syntaxes::new(), &mut out).is_ok());
    String::from_utf8(out).unwrap()
}

#[test]
fn parsed_emphasis_end_to_end() {
    let out = highlight(&Highlighter::default(), "This is _emphasis_ text.");
    assert_eq!(out, "This is \x1B[0m\x1B[3m\x1B[33m_emphasis_\x1B[0m text.");
    let mut h = Highlighter::default();
    h.for_discord();
    let out = highlight(&h, "This is _emphasis_ text.");
    assert_eq!(out, "```ansi\nThis is \x1B[0m\x1B[3m\x1B[33m_emphasis_\x1B[0m text.\n```\n");
}

#[test]
fn parsed_raw_block_keeps_its_source() {
    let input = "```rust\nfn main() {}\n```";
    let out = highlight(&Highlighter::default(), input);
    let mut plain = String::new();
    let mut chars = out.chars();
    while let Some(c) = chars.next() {
        if c == '\x1B' {
            for d in chars.by_ref() {
                if d == 'm' {
                    break;
                }
            }
        } else {
            plain.push(c);
        }
    }
    assert_eq!(plain, input);
}

#[test]
fn parsed_empty_inline_raw() {
    let out = highlight(&Highlighter::default(), "a `` b");
    assert_eq!(out, "a \x1B[0m\x1B[37m``\x1B[0m b");
}
