//! Properties that relate several parts of the renderer.
use crate::embedded::syntax_known;
use crate::highlighter::{accepted, renders, too_big};
use crate::level::HighlightLevel;
use crate::style::StyleSpec;
use crate::tree::{
    Node, NodeKind, Step, active_style, document_steps, forest_steps, lang_of,
    node_part, node_steps, raw_code, raw_steps, realizes,
};
use crate::style::plain_style;
use crate::tags::{Tag, style_for};
use crate::tree::{forest_text, node_text};
use crate::embedded::{piece_calls, piece_style, pieces_text};
use crate::fence::{backticks, fence, run_len};
use crate::tree::between_fences;
use crate::writer::{Op, bytes_of, deferred, emitted, lemma_text_preserved, text_of};
use vstd::prelude::*;
use vstd::utf8::encode_utf8;

verus! {

/// Whether a sequence of steps holds only writer calls.
pub open spec fn no_code(s: Seq<Step>) -> bool {
    forall|i: int| 0 <= i < s.len() ==> #[trigger] s[i] is Call
}

proof fn lemma_no_code_append(a: Seq<Step>, b: Seq<Step>)
    requires
        no_code(a),
        no_code(b),
    ensures
        no_code(a + b),
{
    assert forall|i: int| 0 <= i < (a + b).len() implies #[trigger] (a + b)[i] is Call by {
        if i < a.len() {
            assert((a + b)[i] == a[i]);
        } else {
            assert((a + b)[i] == b[i - a.len()]);
        }
    }
}

/// A raw block whose language the highlighter does not know renders as
/// plain writer calls, one of which writes its code unchanged; so no
/// highlighter error can arise from it.
pub proof fn lemma_unknown_language_verbatim(text: Seq<char>, lang: Seq<char>, level: HighlightLevel, discord: bool)
    requires
        !syntax_known(lang),
    ensures
        no_code(raw_steps(text, Some(lang), level, discord)),
        raw_steps(text, Some(lang), level, discord).contains(Step::Call(Op::Text(raw_code(text, Some(lang))))),
{
    let s = raw_steps(text, Some(lang), level, discord);
    let code = Step::Call(Op::Text(raw_code(text, Some(lang))));
    let esc = crate::fence::escapes(crate::tree::fence_len(text), discord);
    let k: int = if esc { 5 } else { 3 };
    assert(s[k] == code);
}

/// A raw block whose fence is shorter than three backticks makes the same
/// steps with and without Discord: no escaping and no note.
pub proof fn lemma_short_fence_same_steps(text: Seq<char>, lang: Option<Seq<char>>, level: HighlightLevel)
    requires
        crate::tree::fence_len(text) < 3,
    ensures
        raw_steps(text, lang, level, true) == raw_steps(text, lang, level, false),
{
    crate::fence::lemma_fence_escaping(crate::tree::fence_len(text));
    assert(style_for(Tag::Raw, level, true) == style_for(Tag::Raw, level, false));
}

/// A raw block whose fence is shorter than three backticks makes the same
/// writer calls with and without Discord.
pub proof fn lemma_short_fence_same_calls(
    text: Seq<char>,
    lang: Option<Seq<char>>,
    level: HighlightLevel,
    with_discord: Seq<Op>,
    without: Seq<Op>,
)
    requires
        crate::tree::fence_len(text) < 3,
        realizes(with_discord, raw_steps(text, lang, level, true)),
        realizes(without, raw_steps(text, lang, level, false)),
    ensures
        with_discord == without,
{
    lemma_short_fence_same_steps(text, lang, level);
    lemma_realizes_unique(with_discord, without, raw_steps(text, lang, level, false));
}

/// The steps of a node are those of the node as a one-element sequence.
proof fn lemma_node_steps_single(n: Node, ambient: StyleSpec, level: HighlightLevel, discord: bool)
    ensures
        forest_steps(seq![n], ambient, level, discord) == node_steps(n, ambient, level, discord),
{
    let s = seq![n];
    assert(s.drop_last() =~= Seq::<Node>::empty());
    assert(s.last() == n);
    assert(forest_steps(Seq::<Node>::empty(), ambient, level, discord) == Seq::<Step>::empty());
    assert(forest_steps(s, ambient, level, discord) =~= node_steps(n, ambient, level, discord));
}

/// Steps are carried out by one sequence of calls at most.
proof fn lemma_realizes_unique(c1: Seq<Op>, c2: Seq<Op>, s: Seq<Step>)
    requires
        realizes(c1, s),
        realizes(c2, s),
    ensures
        c1 == c2,
    decreases s.len(),
{
    if s.len() == 0 {
        assert(c1 =~= c2);
    } else {
        match s.last() {
            Step::Call(op) => {
                lemma_realizes_unique(c1.drop_last(), c2.drop_last(), s.drop_last());
                assert(c1 =~= c1.drop_last().push(c1.last()));
                assert(c2 =~= c2.drop_last().push(c2.last()));
            },
            Step::Code(l, t) => {
                let k1 = choose|k: int|
                    0 <= k <= c1.len() && realizes(c1.subrange(0, k), s.drop_last()) && crate::tree::code_calls_ok(
                        l,
                        t,
                        c1.subrange(k, c1.len() as int),
                    );
                let k2 = choose|k: int|
                    0 <= k <= c2.len() && realizes(c2.subrange(0, k), s.drop_last()) && crate::tree::code_calls_ok(
                        l,
                        t,
                        c2.subrange(k, c2.len() as int),
                    );
                lemma_realizes_unique(c1.subrange(0, k1), c2.subrange(0, k2), s.drop_last());
                assert(c1 =~= c1.subrange(0, k1) + c1.subrange(k1, c1.len() as int));
                assert(c2 =~= c2.subrange(0, k2) + c2.subrange(k2, c2.len() as int));
            },
        }
    }
}

/// A document has exactly one render at each level: every render is the
/// same as a fresh one.
pub proof fn lemma_render_deterministic(n: Node, level: HighlightLevel, discord: bool, b1: Seq<u8>, b2: Seq<u8>)
    requires
        renders(n, level, discord, b1),
        renders(n, level, discord, b2),
    ensures
        b1 == b2,
{
    let s = document_steps(n, level, discord);
    let c1 = choose|c: Seq<Op>| #[trigger] realizes(c, s) && b1 == bytes_of(emitted(c));
    let c2 = choose|c: Seq<Op>| #[trigger] realizes(c, s) && b2 == bytes_of(emitted(c));
    lemma_realizes_unique(c1, c2, s);
}

/// A render that the soft limit accepts under the limit is no longer than
/// the render at the highest level.
pub proof fn lemma_degradation_no_longer(
    n: Node,
    discord: bool,
    limit: usize,
    level: HighlightLevel,
    b: Seq<u8>,
    full: Seq<u8>,
)
    requires
        accepted(Some(limit), n, discord, level, b.len()),
        renders(n, level, discord, b),
        renders(n, HighlightLevel::All, discord, full),
        b.len() < limit,
    ensures
        b.len() <= full.len(),
{
    if level == HighlightLevel::All {
        lemma_render_deterministic(n, level, discord, b, full);
    } else {
        crate::level::lemma_rank_injective(level, HighlightLevel::All);
        assert(HighlightLevel::All.rank() > level.rank());
        let lim_opt: Option<usize> = Some(limit);
        assert(lim_opt matches Some(lim) && lim == limit);
        assert(forall|l: HighlightLevel| l.rank() > level.rank() ==> #[trigger] too_big(n, l, discord, limit));
        assert(too_big(n, HighlightLevel::All, discord, limit));
        let b2 = choose|b2: Seq<u8>| #[trigger] renders(n, HighlightLevel::All, discord, b2) && b2.len() >= limit;
        lemma_render_deterministic(n, HighlightLevel::All, discord, b2, full);
    }
}

/// When the render of a document at level Off fits a soft limit that its render at the highest level
/// reaches, the accepted render is under the limit and shorter than the
/// render at the highest level.
pub proof fn lemma_tight_limit_fits(
    n: Node,
    discord: bool,
    limit: usize,
    level: HighlightLevel,
    b: Seq<u8>,
    off: Seq<u8>,
    full: Seq<u8>,
)
    requires
        accepted(Some(limit), n, discord, level, b.len()),
        renders(n, level, discord, b),
        renders(n, HighlightLevel::Off, discord, off),
        renders(n, HighlightLevel::All, discord, full),
        off.len() < limit,
        limit <= full.len(),
    ensures
        b.len() < limit,
        b.len() < full.len(),
{
    if level == HighlightLevel::Off {
        lemma_render_deterministic(n, level, discord, b, off);
    }
}

/// Whether no node of a sequence is a raw block and every tag in it has no
/// style at level Off outside Discord.
pub open spec fn plain_at_off(ns: Seq<Node>) -> bool
    decreases ns,
{
    if ns.len() == 0 {
        true
    } else {
        let n = ns.last();
        &&& plain_at_off(ns.drop_last())
        &&& n.kind is Plain
        &&& match n.tag {
            Some(t) => style_for(t, HighlightLevel::Off, false) == plain_style(),
            None => true,
        }
        &&& plain_at_off(n.children@)
    }
}

/// The text that a sequence of steps writes.
pub open spec fn steps_text(s: Seq<Step>) -> Seq<char>
    decreases s.len(),
{
    if s.len() == 0 {
        Seq::empty()
    } else {
        steps_text(s.drop_last()) + match s.last() {
            Step::Call(Op::Text(t)) => t,
            Step::Call(Op::Style(_)) => Seq::empty(),
            Step::Code(_, t) => t,
        }
    }
}

/// Whether every step is a write or a request for the plain style.
pub open spec fn plain_calls(s: Seq<Step>) -> bool {
    forall|i: int|
        0 <= i < s.len() ==> #[trigger] s[i] == Step::Call(Op::Style(plain_style())) || (s[i] is Call
            && s[i]->Call_0 is Text)
}

/// Whether every style request in a sequence of calls is the plain style.
pub open spec fn only_plain(c: Seq<Op>) -> bool {
    forall|i: int| 0 <= i < c.len() && #[trigger] c[i] is Style ==> c[i] == Op::Style(plain_style())
}

/// Whether a sequence of operations holds no style.
pub open spec fn no_styles(e: Seq<Op>) -> bool {
    forall|i: int| 0 <= i < e.len() ==> #[trigger] e[i] is Text
}

proof fn lemma_steps_text_append(a: Seq<Step>, b: Seq<Step>)
    ensures
        steps_text(a + b) == steps_text(a) + steps_text(b),
    decreases b.len(),
{
    if b.len() == 0 {
        assert(a + b =~= a);
        assert(steps_text(a) + steps_text(b) =~= steps_text(a));
    } else {
        lemma_steps_text_append(a, b.drop_last());
        assert((a + b).drop_last() =~= a + b.drop_last());
        assert((a + b).last() == b.last());
        assert(steps_text(a + b) =~= steps_text(a) + steps_text(b));
    }
}

proof fn lemma_steps_text_single(st: Step)
    ensures
        steps_text(seq![st]) == match st {
            Step::Call(Op::Text(t)) => t,
            Step::Call(Op::Style(_)) => Seq::<char>::empty(),
            Step::Code(_, t) => t,
        },
{
    let s = seq![st];
    assert(s.drop_last() =~= Seq::<Step>::empty());
    assert(s.last() == st);
    assert(steps_text(Seq::<Step>::empty()) == Seq::<char>::empty());
    assert(steps_text(s) =~= steps_text(Seq::<Step>::empty()) + match st {
        Step::Call(Op::Text(t)) => t,
        Step::Call(Op::Style(_)) => Seq::<char>::empty(),
        Step::Code(_, t) => t,
    });
}

proof fn lemma_plain_calls_append(a: Seq<Step>, b: Seq<Step>)
    requires
        plain_calls(a),
        plain_calls(b),
    ensures
        plain_calls(a + b),
{
    assert forall|i: int| 0 <= i < (a + b).len() implies #[trigger] (a + b)[i] == Step::Call(
        Op::Style(plain_style()),
    ) || ((a + b)[i] is Call && (a + b)[i]->Call_0 is Text) by {
        if i < a.len() {
            assert((a + b)[i] == a[i]);
        } else {
            assert((a + b)[i] == b[i - a.len()]);
        }
    }
}

/// The steps of nodes that are plain at Off request only the plain style
/// and write the nodes' source text.
proof fn lemma_forest_plain(ns: Seq<Node>)
    requires
        plain_at_off(ns),
    ensures
        plain_calls(forest_steps(ns, plain_style(), HighlightLevel::Off, false)),
        steps_text(forest_steps(ns, plain_style(), HighlightLevel::Off, false)) == forest_text(ns),
    decreases ns,
{
    let off = HighlightLevel::Off;
    let plain = plain_style();
    if ns.len() == 0 {
        assert(plain_calls(Seq::empty()));
    } else {
        let n = ns.last();
        lemma_forest_plain(ns.drop_last());
        lemma_forest_plain(n.children@);
        assert(active_style(n, plain, off, false) == plain);
        let inside = forest_steps(n.children@, plain, off, false);
        let open = match n.tag {
            Some(t) => seq![Step::Call(Op::Style(style_for(t, off, false)))],
            None => Seq::<Step>::empty(),
        };
        let body = if n.text@.len() == 0 {
            inside
        } else {
            seq![Step::Call(Op::Text(n.text@))]
        };
        let close = seq![Step::Call(Op::Style(plain))];
        let part = node_part(n, plain, off, false, inside);
        assert(part == open + body + close);
        assert(plain_calls(open));
        assert(plain_calls(body));
        lemma_plain_calls_append(open, body);
        lemma_plain_calls_append(open + body, close);
        lemma_steps_text_append(open, body);
        lemma_steps_text_append(open + body, close);
        lemma_steps_text_single(Step::Call(Op::Style(plain)));
        if let Some(t) = n.tag {
            lemma_steps_text_single(Step::Call(Op::Style(style_for(t, off, false))));
        } else {
            assert(steps_text(open) == Seq::<char>::empty());
        }
        if n.text@.len() > 0 {
            lemma_steps_text_single(Step::Call(Op::Text(n.text@)));
        }
        let prev = forest_steps(ns.drop_last(), plain, off, false);
        lemma_plain_calls_append(prev, part);
        lemma_steps_text_append(prev, part);
        assert(steps_text(part) =~= steps_text(body));
    }
}

/// Calls that carry out steps of writes and plain style requests write the
/// steps' text and request only the plain style.
proof fn lemma_realized_plain(c: Seq<Op>, s: Seq<Step>)
    requires
        realizes(c, s),
        plain_calls(s),
    ensures
        text_of(c) == steps_text(s),
        only_plain(c),
    decreases s.len(),
{
    if s.len() == 0 {
        assert(c.len() == 0);
    } else {
        assert(s[s.len() - 1] == s.last());
        assert(s.last() is Call);
        assert(plain_calls(s.drop_last())) by {
            assert forall|i: int| 0 <= i < s.drop_last().len() implies #[trigger] s.drop_last()[i] == Step::Call(
                Op::Style(plain_style()),
            ) || (s.drop_last()[i] is Call && s.drop_last()[i]->Call_0 is Text) by {
                assert(s.drop_last()[i] == s[i]);
            }
        }
        lemma_realized_plain(c.drop_last(), s.drop_last());
        assert forall|i: int| 0 <= i < c.len() && #[trigger] c[i] is Style implies c[i] == Op::Style(plain_style()) by {
            if i < c.len() - 1 {
                assert(c.drop_last()[i] == c[i]);
            }
        }
    }
}

/// The deferred writer emits no style for calls that request only the
/// plain style.
proof fn lemma_plain_emits_no_style(c: Seq<Op>)
    requires
        only_plain(c),
    ensures
        deferred(c).1 == plain_style(),
        deferred(c).2 == None::<StyleSpec>,
        no_styles(deferred(c).0),
    decreases c.len(),
{
    if c.len() > 0 {
        assert(only_plain(c.drop_last())) by {
            assert forall|i: int| 0 <= i < c.drop_last().len() && #[trigger] c.drop_last()[i] is Style implies c.drop_last()[i]
                == Op::Style(plain_style()) by {
                assert(c.drop_last()[i] == c[i]);
            }
        }
        lemma_plain_emits_no_style(c.drop_last());
        assert(c[c.len() - 1] == c.last());
        let e0 = deferred(c.drop_last()).0;
        let e = deferred(c).0;
        if let Op::Text(t) = c.last() {
            if t.len() > 0 {
                assert forall|i: int| 0 <= i < e.len() implies #[trigger] e[i] is Text by {
                    if i < e0.len() {
                        assert(e[i] == e0[i]);
                    }
                }
            }
        }
    }
}

proof fn lemma_encode_append(a: Seq<char>, b: Seq<char>)
    ensures
        encode_utf8(a + b) == encode_utf8(a) + encode_utf8(b),
    decreases a.len(),
{
    if a.len() == 0 {
        assert(a + b =~= b);
        assert(encode_utf8(a) + encode_utf8(b) =~= encode_utf8(b));
    } else {
        lemma_encode_append(a.drop_first(), b);
        assert((a + b).drop_first() =~= a.drop_first() + b);
        assert((a + b)[0] == a[0]);
        assert(encode_utf8(a + b) =~= encode_utf8(a) + encode_utf8(b));
    }
}

/// Operations without styles write the UTF-8 encoding of their text.
proof fn lemma_text_bytes(e: Seq<Op>)
    requires
        no_styles(e),
    ensures
        bytes_of(e) == encode_utf8(text_of(e)),
    decreases e.len(),
{
    if e.len() > 0 {
        assert(no_styles(e.drop_last())) by {
            assert forall|i: int| 0 <= i < e.drop_last().len() implies #[trigger] e.drop_last()[i] is Text by {
                assert(e.drop_last()[i] == e[i]);
            }
        }
        lemma_text_bytes(e.drop_last());
        assert(e[e.len() - 1] == e.last());
        let t = e.last()->Text_0;
        lemma_encode_append(text_of(e.drop_last()), t);
    } else {
        assert(encode_utf8(Seq::<char>::empty()) =~= Seq::<u8>::empty());
    }
}

/// At level Off and outside Discord, a document without raw blocks, whose
/// tags all have no style at that level, renders as exactly its source
/// text, with no escape sequence.
pub proof fn lemma_off_renders_source(n: Node, b: Seq<u8>)
    requires
        plain_at_off(seq![n]),
        renders(n, HighlightLevel::Off, false, b),
    ensures
        b == encode_utf8(node_text(n)),
{
    let off = HighlightLevel::Off;
    let s = document_steps(n, off, false);
    lemma_node_steps_single(n, plain_style(), off, false);
    assert(s =~= forest_steps(seq![n], plain_style(), off, false));
    lemma_forest_plain(seq![n]);
    let one = seq![n];
    assert(one.drop_last() =~= Seq::<Node>::empty());
    assert(one.last() == n);
    assert(forest_text(Seq::<Node>::empty()) == Seq::<char>::empty());
    assert(forest_text(one) =~= node_text(n));
    let c = choose|c: Seq<Op>| #[trigger] realizes(c, s) && b == bytes_of(emitted(c));
    lemma_realized_plain(c, s);
    lemma_plain_emits_no_style(c);
    lemma_text_preserved(c);
    lemma_text_bytes(emitted(c));
}

/// Whether a raw block's text is its fence, its language token, its code
/// and its fence again, as the parser gives it.
pub open spec fn raw_well_formed(text: Seq<char>, lang: Option<Seq<char>>) -> bool {
    let n = crate::tree::fence_len(text);
    let l = match lang {
        Some(l) => l,
        None => Seq::empty(),
    };
    &&& text.len() >= 2 * n + l.len()
    &&& text.subrange(text.len() - n, text.len() as int) == backticks(n)
    &&& text.subrange(n as int, (n + l.len()) as int) == l
}

/// Whether every raw block among some nodes is well formed.
pub open spec fn raws_well_formed(ns: Seq<Node>) -> bool
    decreases ns,
{
    if ns.len() == 0 {
        true
    } else {
        let n = ns.last();
        &&& raws_well_formed(ns.drop_last())
        &&& match n.kind {
            NodeKind::Raw(lang) => raw_well_formed(node_text(n), lang_of(lang)),
            NodeKind::Plain => true,
        }
        &&& raws_well_formed(n.children@)
    }
}

proof fn lemma_text_of_append(a: Seq<Op>, b: Seq<Op>)
    ensures
        text_of(a + b) == text_of(a) + text_of(b),
    decreases b.len(),
{
    if b.len() == 0 {
        assert(a + b =~= a);
        assert(text_of(a) + text_of(b) =~= text_of(a));
    } else {
        lemma_text_of_append(a, b.drop_last());
        assert((a + b).drop_last() =~= a + b.drop_last());
        assert((a + b).last() == b.last());
        assert(text_of(a + b) =~= text_of(a) + text_of(b));
    }
}

proof fn lemma_piece_text(ps: Seq<(u8, u8, u8, u8, u8, Seq<char>)>)
    ensures
        text_of(piece_calls(ps)) == pieces_text(ps),
    decreases ps.len(),
{
    if ps.len() > 0 {
        lemma_piece_text(ps.drop_last());
        let p = ps.last();
        let one = seq![Op::Style(piece_style(p))];
        let pair = one.push(Op::Text(p.5));
        assert(seq![Op::Style(piece_style(p)), Op::Text(p.5)] =~= pair);
        lemma_text_of_append(piece_calls(ps.drop_last()), pair);
        assert(one.drop_last() =~= Seq::<Op>::empty());
        assert(text_of(Seq::<Op>::empty()) == Seq::<char>::empty());
        assert(text_of(one) == text_of(one.drop_last()) + Seq::<char>::empty());
        assert(text_of(one) =~= Seq::<char>::empty());
        assert(pair.drop_last() =~= one);
        assert(text_of(pair) =~= p.5);
    }
}

/// Calls that carry out steps write the steps' text.
proof fn lemma_realized_text(c: Seq<Op>, s: Seq<Step>)
    requires
        realizes(c, s),
    ensures
        text_of(c) == steps_text(s),
    decreases s.len(),
{
    if s.len() == 0 {
        assert(c.len() == 0);
    } else {
        match s.last() {
            Step::Call(op) => {
                lemma_realized_text(c.drop_last(), s.drop_last());
            },
            Step::Code(l, t) => {
                let k = choose|k: int|
                    0 <= k <= c.len() && realizes(c.subrange(0, k), s.drop_last()) && crate::tree::code_calls_ok(
                        l,
                        t,
                        c.subrange(k, c.len() as int),
                    );
                lemma_realized_text(c.subrange(0, k), s.drop_last());
                let tail = c.subrange(k, c.len() as int);
                lemma_piece_text(crate::embedded::code_pieces(l, t)->Some_0);
                assert(c =~= c.subrange(0, k) + tail);
                lemma_text_of_append(c.subrange(0, k), tail);
            },
        }
    }
}

/// The first `run_len(s)` characters of `s` are backticks.
proof fn lemma_run_is_backticks(s: Seq<char>)
    ensures
        run_len(s) <= s.len(),
        s.subrange(0, run_len(s) as int) == backticks(run_len(s)),
    decreases s.len(),
{
    if s.len() > 0 && s[0] == '`' {
        lemma_run_is_backticks(s.drop_first());
        let k = run_len(s);
        assert forall|j: int| 0 <= j < k implies s.subrange(0, k as int)[j] == '`' by {
            if j > 0 {
                assert(s.subrange(0, k as int)[j] == s.drop_first().subrange(0, k - 1)[j - 1]);
            }
        }
        assert(s.subrange(0, k as int) =~= backticks(k));
    } else {
        assert(s.subrange(0, 0) =~= backticks(0));
    }
}

/// Outside Discord, a well-formed raw block writes its own text.
proof fn lemma_raw_text(text: Seq<char>, lang: Option<Seq<char>>, level: HighlightLevel)
    requires
        raw_well_formed(text, lang),
    ensures
        steps_text(raw_steps(text, lang, level, false)) == text,
{
    let n = crate::tree::fence_len(text);
    let f = fence(n, false);
    lemma_run_is_backticks(text);
    let r = run_len(text);
    assert(n <= r);
    assert(text.subrange(0, n as int) =~= text.subrange(0, r as int).subrange(0, n as int));
    assert(text.subrange(0, n as int) =~= backticks(n));
    let raw = style_for(Tag::Raw, level, false);
    let code = raw_code(text, lang);
    let head = seq![Step::Call(Op::Style(raw)), Step::Call(Op::Text(f))];
    let token = match lang {
        Some(l) => seq![Step::Call(Op::Text(l))],
        None => Seq::<Step>::empty(),
    };
    let body = match lang {
        Some(l) => if level.rank() >= 3 && syntax_known(l) {
            seq![Step::Code(l, code)]
        } else {
            seq![Step::Call(Op::Text(code))]
        },
        None => seq![Step::Call(Op::Text(code))],
    };
    let empty = Seq::<Step>::empty();
    assert(raw_steps(text, lang, level, false) == empty + head + token + body + head + empty);
    let l = match lang {
        Some(l) => l,
        None => Seq::<char>::empty(),
    };
    // The text of each part.
    lemma_steps_text_single(Step::Call(Op::Style(raw)));
    lemma_steps_text_single(Step::Call(Op::Text(f)));
    lemma_steps_text_append(seq![Step::Call(Op::Style(raw))], seq![Step::Call(Op::Text(f))]);
    assert(seq![Step::Call(Op::Style(raw))] + seq![Step::Call(Op::Text(f))] =~= head);
    assert(steps_text(head) =~= f);
    assert(steps_text(token) == l) by {
        if let Some(t) = lang {
            lemma_steps_text_single(Step::Call(Op::Text(t)));
        }
    }
    assert(steps_text(body) == code) by {
        match lang {
            Some(t) => {
                if level.rank() >= 3 && syntax_known(t) {
                    lemma_steps_text_single(Step::Code(t, code));
                } else {
                    lemma_steps_text_single(Step::Call(Op::Text(code)));
                }
            },
            None => lemma_steps_text_single(Step::Call(Op::Text(code))),
        }
    }
    assert(steps_text(empty) == Seq::<char>::empty());
    lemma_steps_text_append(empty, head);
    lemma_steps_text_append(empty + head, token);
    lemma_steps_text_append(empty + head + token, body);
    lemma_steps_text_append(empty + head + token + body, head);
    lemma_steps_text_append(empty + head + token + body + head, empty);
    // The text of the block, piece by piece.
    let len = text.len();
    let inner = between_fences(text);
    assert(inner == text.subrange(n as int, len - n));
    assert(code =~= inner.subrange(l.len() as int, inner.len() as int));
    assert(inner.subrange(0, l.len() as int) =~= text.subrange(n as int, (n + l.len()) as int));
    assert(f == backticks(n));
    assert(text =~= text.subrange(0, n as int) + inner + text.subrange(len - n, len as int));
    assert(inner =~= l + code);
    assert(steps_text(raw_steps(text, lang, level, false)) =~= f + l + code + f);
}

/// Outside Discord, the steps of nodes with well-formed raw blocks write
/// the nodes' source text.
proof fn lemma_forest_text(ns: Seq<Node>, ambient: StyleSpec, level: HighlightLevel)
    requires
        raws_well_formed(ns),
    ensures
        steps_text(forest_steps(ns, ambient, level, false)) == forest_text(ns),
    decreases ns,
{
    if ns.len() == 0 {
        assert(steps_text(Seq::<Step>::empty()) == Seq::<char>::empty());
    } else {
        let n = ns.last();
        let active = active_style(n, ambient, level, false);
        lemma_forest_text(ns.drop_last(), ambient, level);
        lemma_forest_text(n.children@, active, level);
        let inside = forest_steps(n.children@, active, level, false);
        let open = match n.tag {
            Some(t) => seq![Step::Call(Op::Style(style_for(t, level, false)))],
            None => Seq::<Step>::empty(),
        };
        let body = match n.kind {
            NodeKind::Raw(lang) => raw_steps(node_text(n), lang_of(lang), level, false),
            NodeKind::Plain => if n.text@.len() == 0 {
                inside
            } else {
                seq![Step::Call(Op::Text(n.text@))]
            },
        };
        let close = seq![Step::Call(Op::Style(ambient))];
        let part = node_part(n, ambient, level, false, inside);
        assert(part == open + body + close);
        lemma_steps_text_single(Step::Call(Op::Style(ambient)));
        if let Some(t) = n.tag {
            lemma_steps_text_single(Step::Call(Op::Style(style_for(t, level, false))));
        } else {
            assert(steps_text(open) == Seq::<char>::empty());
        }
        match n.kind {
            NodeKind::Raw(lang) => {
                lemma_raw_text(node_text(n), lang_of(lang), level);
            },
            NodeKind::Plain => {
                if n.text@.len() > 0 {
                    lemma_steps_text_single(Step::Call(Op::Text(n.text@)));
                }
            },
        }
        lemma_steps_text_append(open, body);
        lemma_steps_text_append(open + body, close);
        let prev = forest_steps(ns.drop_last(), ambient, level, false);
        lemma_steps_text_append(prev, part);
        assert(steps_text(body) == node_text(n));
        assert(steps_text(part) =~= node_text(n));
    }
}

/// Outside Discord, whatever the level, the text that a render of a
/// document writes, escape sequences aside, is the document's source text,
/// as long as its raw blocks are well formed.
pub proof fn lemma_render_keeps_text(n: Node, level: HighlightLevel, calls: Seq<Op>)
    requires
        raws_well_formed(seq![n]),
        realizes(calls, document_steps(n, level, false)),
    ensures
        text_of(emitted(calls)) == node_text(n),
{
    let s = document_steps(n, level, false);
    lemma_node_steps_single(n, plain_style(), level, false);
    assert(s =~= forest_steps(seq![n], plain_style(), level, false));
    lemma_forest_text(seq![n], plain_style(), level);
    let one = seq![n];
    assert(one.drop_last() =~= Seq::<Node>::empty());
    assert(one.last() == n);
    assert(forest_text(Seq::<Node>::empty()) == Seq::<char>::empty());
    assert(forest_text(one) =~= node_text(n));
    lemma_realized_text(calls, s);
    lemma_text_preserved(calls);
}

} // verus!
