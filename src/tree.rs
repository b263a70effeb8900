//! The syntax tree a render reads, and the writer calls a render makes.
use crate::embedded::{code_pieces, pieces_text, piece_calls, syntax_known};
use crate::fence::{escapes, fence, run_len};
use crate::level::HighlightLevel;
use crate::style::{StyleSpec, plain_style};
use crate::tags::{Tag, style_for};
use crate::writer::Op;
use vstd::prelude::*;

verus! {

/// What a node is, as far as rendering cares.
pub enum NodeKind {
    /// Markup, code or math, rendered through its text or its children.
    Plain,
    /// A raw block, with the language token it declares.
    Raw(Option<String>),
}

/// A node of a parsed Typst document.
///
/// A node with empty text is structural and its children carry the text;
/// a node with text is a leaf. `tag` is the syntax category the parser
/// gives the node in its place in the tree.
pub struct Node {
    pub text: String,
    pub tag: Option<Tag>,
    pub kind: NodeKind,
    pub children: Vec<Node>,
}

/// The source text of a sequence of nodes.
pub open spec fn forest_text(ns: Seq<Node>) -> Seq<char>
    decreases ns,
{
    if ns.len() == 0 {
        Seq::empty()
    } else {
        let n = ns.last();
        forest_text(ns.drop_last()) + if n.text@.len() == 0 {
            forest_text(n.children@)
        } else {
            n.text@
        }
    }
}

/// The source text of a node: its own text, or else its children's.
pub open spec fn node_text(n: Node) -> Seq<char> {
    if n.text@.len() == 0 {
        forest_text(n.children@)
    } else {
        n.text@
    }
}

/// One step of a render: a writer call, or code in a language handed to
/// the embedded-code highlighter.
pub enum Step {
    Call(Op),
    Code(Seq<char>, Seq<char>),
}

/// Whether `calls` are what the highlighter writes for code in a language:
/// the calls for the pieces syntect makes of it, when it succeeds.
pub open spec fn code_calls_ok(lang: Seq<char>, code: Seq<char>, calls: Seq<Op>) -> bool {
    &&& code_pieces(lang, code) is Some
    &&& calls == piece_calls(code_pieces(lang, code)->Some_0)
    &&& pieces_text(code_pieces(lang, code)->Some_0) == code
}

/// Whether the highlighter succeeds on every piece of code among the steps.
pub open spec fn steps_ok(s: Seq<Step>) -> bool {
    forall|i: int| 0 <= i < s.len() && #[trigger] s[i] is Code ==> code_pieces(s[i]->Code_0, s[i]->Code_1) is Some
}

/// The note written before an escaped fence.
pub open spec fn open_note() -> Seq<char> {
    "/* when copying, remove and retype these --> */"@
}

/// The note written after an escaped fence.
pub open spec fn close_note() -> Seq<char> {
    "/* <-- when copying, remove and retype these */"@
}

/// The length of a raw block's fence: the backticks it starts with, but
/// no more than half its text, for a run that takes in the closing fence
/// too, as in the empty inline raw block.
pub open spec fn fence_len(text: Seq<char>) -> nat {
    let n = run_len(text);
    if 2 * n <= text.len() {
        n
    } else {
        text.len() / 2
    }
}

/// The text between the fences of a raw block.
pub open spec fn between_fences(text: Seq<char>) -> Seq<char> {
    let n = fence_len(text);
    text.subrange(n as int, text.len() - n)
}

/// The code of a raw block: the text between the fences, less the
/// language token.
pub open spec fn raw_code(text: Seq<char>, lang: Option<Seq<char>>) -> Seq<char> {
    let inner = between_fences(text);
    match lang {
        Some(l) => if inner.len() >= l.len() {
            inner.subrange(l.len() as int, inner.len() as int)
        } else {
            Seq::empty()
        },
        None => inner,
    }
}

/// The steps of a raw block: the escape note for Discord, the fence, the
/// language token, the code (handed to the highlighter when its language
/// is known and the level allows it), the fence, and the closing note.
pub open spec fn raw_steps(text: Seq<char>, lang: Option<Seq<char>>, level: HighlightLevel, discord: bool) -> Seq<Step> {
    let n = fence_len(text);
    let f = fence(n, discord);
    let esc = escapes(n, discord);
    let comment = style_for(Tag::Comment, level, discord);
    let raw = style_for(Tag::Raw, level, discord);
    let code = raw_code(text, lang);
    let notes_before = if esc {
        seq![Step::Call(Op::Style(comment)), Step::Call(Op::Text(open_note()))]
    } else {
        Seq::empty()
    };
    let token = match lang {
        Some(l) => seq![Step::Call(Op::Text(l))],
        None => Seq::empty(),
    };
    let body = match lang {
        Some(l) => if level.rank() >= 3 && syntax_known(l) {
            seq![Step::Code(l, code)]
        } else {
            seq![Step::Call(Op::Text(code))]
        },
        None => seq![Step::Call(Op::Text(code))],
    };
    let notes_after = if esc {
        seq![Step::Call(Op::Style(comment)), Step::Call(Op::Text(close_note()))]
    } else {
        Seq::empty()
    };
    notes_before + seq![Step::Call(Op::Style(raw)), Step::Call(Op::Text(f))] + token + body
        + seq![Step::Call(Op::Style(raw)), Step::Call(Op::Text(f))] + notes_after
}

/// The language token of a node kind, if it is a raw block that has one.
pub open spec fn lang_of(lang: Option<String>) -> Option<Seq<char>> {
    match lang {
        Some(l) => Some(l@),
        None => None,
    }
}

/// The style in force inside a node: its tag's, or else the one around it.
pub open spec fn active_style(n: Node, ambient: StyleSpec, level: HighlightLevel, discord: bool) -> StyleSpec {
    match n.tag {
        Some(t) => style_for(t, level, discord),
        None => ambient,
    }
}

/// The steps of one node, given the steps of its children: its tag's
/// style, its body, then the style around it again.
pub open spec fn node_part(n: Node, ambient: StyleSpec, level: HighlightLevel, discord: bool, inside: Seq<Step>) -> Seq<Step> {
    let open = match n.tag {
        Some(t) => seq![Step::Call(Op::Style(style_for(t, level, discord)))],
        None => Seq::empty(),
    };
    let body = match n.kind {
        NodeKind::Raw(lang) => raw_steps(node_text(n), lang_of(lang), level, discord),
        NodeKind::Plain => if n.text@.len() == 0 {
            inside
        } else {
            seq![Step::Call(Op::Text(n.text@))]
        },
    };
    open + body + seq![Step::Call(Op::Style(ambient))]
}

/// The steps of a sequence of sibling nodes, left to right.
pub open spec fn forest_steps(ns: Seq<Node>, ambient: StyleSpec, level: HighlightLevel, discord: bool) -> Seq<Step>
    decreases ns,
{
    if ns.len() == 0 {
        Seq::empty()
    } else {
        let n = ns.last();
        let inside = forest_steps(n.children@, active_style(n, ambient, level, discord), level, discord);
        forest_steps(ns.drop_last(), ambient, level, discord) + node_part(n, ambient, level, discord, inside)
    }
}

/// The steps of a node.
pub open spec fn node_steps(n: Node, ambient: StyleSpec, level: HighlightLevel, discord: bool) -> Seq<Step> {
    node_part(n, ambient, level, discord, forest_steps(n.children@, active_style(n, ambient, level, discord), level, discord))
}

/// The last leaf of a node, found through last children.
pub open spec fn last_leaf(n: Node) -> Node
    decreases n,
{
    if n.children@.len() == 0 {
        n
    } else {
        last_leaf(n.children@.last())
    }
}

/// Whether a text ends with a line feed.
pub open spec fn ends_with_newline(s: Seq<char>) -> bool {
    s.len() > 0 && s.last() == '\n'
}

/// The steps of a whole document. For Discord it is put in an `ansi` code
/// block, whose closing fence gets a line of its own.
pub open spec fn document_steps(n: Node, level: HighlightLevel, discord: bool) -> Seq<Step> {
    let opening = if discord {
        seq![Step::Call(Op::Text("```ansi\n"@))]
    } else {
        Seq::empty()
    };
    let closing = if discord {
        (if ends_with_newline(last_leaf(n).text@) {
            Seq::empty()
        } else {
            seq![Step::Call(Op::Text("\n"@))]
        }) + seq![Step::Call(Op::Text("```\n"@))]
    } else {
        Seq::empty()
    };
    opening + node_steps(n, plain_style(), level, discord) + closing
}

/// Whether a sequence of writer calls carries out a sequence of steps: each
/// call step is that call, and each code step is the calls for fragments
/// whose texts make up its code.
pub open spec fn realizes(calls: Seq<Op>, steps: Seq<Step>) -> bool
    decreases steps.len(),
{
    if steps.len() == 0 {
        calls.len() == 0
    } else {
        match steps.last() {
            Step::Call(op) => calls.len() > 0 && calls.last() == op && realizes(calls.drop_last(), steps.drop_last()),
            Step::Code(l, t) => exists|k: int|
                0 <= k <= calls.len() && realizes(calls.subrange(0, k), steps.drop_last()) && code_calls_ok(
                    l,
                    t,
                    calls.subrange(k, calls.len() as int),
                ),
        }
    }
}

/// Whether the calls after `start` carry out `steps`.
pub open spec fn extends(calls: Seq<Op>, start: Seq<Op>, steps: Seq<Step>) -> bool {
    &&& start.len() <= calls.len()
    &&& calls.subrange(0, start.len() as int) == start
    &&& realizes(calls.subrange(start.len() as int, calls.len() as int), steps)
}

/// Whether a sequence of nodes holds a raw block in a language the
/// highlighter knows.
pub open spec fn embeds_code(ns: Seq<Node>) -> bool
    decreases ns,
{
    if ns.len() == 0 {
        false
    } else {
        let n = ns.last();
        embeds_code(ns.drop_last()) || match n.kind {
            NodeKind::Raw(Some(l)) => syntax_known(l@),
            _ => n.text@.len() == 0 && embeds_code(n.children@),
        }
    }
}

/// Code succeeds in two sequences of steps together exactly when it
/// succeeds in each.
pub proof fn lemma_steps_ok_append(a: Seq<Step>, b: Seq<Step>)
    ensures
        steps_ok(a + b) <==> steps_ok(a) && steps_ok(b),
{
    if steps_ok(a + b) {
        assert forall|i: int| 0 <= i < a.len() && #[trigger] a[i] is Code implies code_pieces(a[i]->Code_0, a[i]->Code_1) is Some by {
            assert((a + b)[i] == a[i]);
        }
        assert forall|i: int| 0 <= i < b.len() && #[trigger] b[i] is Code implies code_pieces(b[i]->Code_0, b[i]->Code_1) is Some by {
            assert((a + b)[a.len() + i] == b[i]);
        }
    }
    if steps_ok(a) && steps_ok(b) {
        assert forall|i: int| 0 <= i < (a + b).len() && #[trigger] (a + b)[i] is Code implies code_pieces(
            (a + b)[i]->Code_0,
            (a + b)[i]->Code_1,
        ) is Some by {
            if i < a.len() {
                assert((a + b)[i] == a[i]);
            } else {
                assert((a + b)[i] == b[i - a.len()]);
            }
        }
    }
}

/// Code that succeeds in the steps of some siblings succeeds in the steps
/// of the first of them.
pub proof fn lemma_forest_prefix_ok(ns: Seq<Node>, j: int, ambient: StyleSpec, level: HighlightLevel, discord: bool)
    requires
        0 <= j <= ns.len(),
        steps_ok(forest_steps(ns, ambient, level, discord)),
    ensures
        steps_ok(forest_steps(ns.subrange(0, j), ambient, level, discord)),
    decreases ns.len(),
{
    if j == ns.len() {
        assert(ns.subrange(0, j) =~= ns);
    } else {
        let n = ns.last();
        let inside = forest_steps(n.children@, active_style(n, ambient, level, discord), level, discord);
        lemma_steps_ok_append(forest_steps(ns.drop_last(), ambient, level, discord), node_part(n, ambient, level, discord, inside));
        assert(ns.drop_last().subrange(0, j) =~= ns.subrange(0, j));
        lemma_forest_prefix_ok(ns.drop_last(), j, ambient, level, discord);
    }
}

pub proof fn lemma_extends_start(a: Seq<Op>)
    ensures
        extends(a, a, Seq::empty()),
{
    assert(a.subrange(0, a.len() as int) =~= a);
    assert(a.subrange(a.len() as int, a.len() as int) =~= Seq::<Op>::empty());
}

pub proof fn lemma_extends_call(a: Seq<Op>, b: Seq<Op>, s: Seq<Step>, op: Op)
    requires
        extends(b, a, s),
    ensures
        extends(b.push(op), a, s.push(Step::Call(op))),
{
    let c = b.push(op);
    let tail = c.subrange(a.len() as int, c.len() as int);
    assert(c.subrange(0, a.len() as int) =~= b.subrange(0, a.len() as int));
    assert(tail.drop_last() =~= b.subrange(a.len() as int, b.len() as int));
    assert(s.push(Step::Call(op)).drop_last() =~= s);
}

pub proof fn lemma_extends_code(a: Seq<Op>, b: Seq<Op>, c: Seq<Op>, s: Seq<Step>, l: Seq<char>, t: Seq<char>)
    requires
        extends(b, a, s),
        b.len() <= c.len(),
        c.subrange(0, b.len() as int) == b,
        code_calls_ok(l, t, c.subrange(b.len() as int, c.len() as int)),
    ensures
        extends(c, a, s.push(Step::Code(l, t))),
{
    let tail = c.subrange(a.len() as int, c.len() as int);
    let k = b.len() - a.len();
    assert(c.subrange(0, a.len() as int) =~= b.subrange(0, a.len() as int));
    assert(tail.subrange(0, k) =~= b.subrange(a.len() as int, b.len() as int));
    assert(tail.subrange(k, tail.len() as int) =~= c.subrange(b.len() as int, c.len() as int));
    assert(s.push(Step::Code(l, t)).drop_last() =~= s);
}

proof fn lemma_realizes_append(c1: Seq<Op>, s1: Seq<Step>, c2: Seq<Op>, s2: Seq<Step>)
    requires
        realizes(c1, s1),
        realizes(c2, s2),
    ensures
        realizes(c1 + c2, s1 + s2),
    decreases s2.len(),
{
    if s2.len() == 0 {
        assert(c1 + c2 =~= c1);
        assert(s1 + s2 =~= s1);
    } else {
        assert((s1 + s2).drop_last() =~= s1 + s2.drop_last());
        assert((s1 + s2).last() == s2.last());
        match s2.last() {
            Step::Call(op) => {
                lemma_realizes_append(c1, s1, c2.drop_last(), s2.drop_last());
                assert((c1 + c2).drop_last() =~= c1 + c2.drop_last());
            },
            Step::Code(l, t) => {
                let k = choose|k: int|
                    0 <= k <= c2.len() && realizes(c2.subrange(0, k), s2.drop_last()) && code_calls_ok(
                        l,
                        t,
                        c2.subrange(k, c2.len() as int),
                    );
                lemma_realizes_append(c1, s1, c2.subrange(0, k), s2.drop_last());
                let c = c1 + c2;
                let j = c1.len() + k;
                assert(c.subrange(0, j) =~= c1 + c2.subrange(0, k));
                assert(c.subrange(j, c.len() as int) =~= c2.subrange(k, c2.len() as int));
            },
        }
    }
}

pub proof fn lemma_extends_trans(a: Seq<Op>, b: Seq<Op>, c: Seq<Op>, s1: Seq<Step>, s2: Seq<Step>)
    requires
        extends(b, a, s1),
        extends(c, b, s2),
    ensures
        extends(c, a, s1 + s2),
{
    let t1 = b.subrange(a.len() as int, b.len() as int);
    let t2 = c.subrange(b.len() as int, c.len() as int);
    lemma_realizes_append(t1, s1, t2, s2);
    assert(c.subrange(0, a.len() as int) =~= b.subrange(0, a.len() as int));
    assert(c.subrange(a.len() as int, c.len() as int) =~= t1 + t2);
}

} // verus!
