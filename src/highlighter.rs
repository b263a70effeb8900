//! The renderer: builders, the tree walk, raw blocks, and the loop that
//! lowers the highlight level until the output fits a soft limit.
use crate::embedded::{Syntaxes, code_pieces, highlight_lang, piece_calls, syntax_known};
use crate::error::Error;
use crate::fence::{fence_text, leading_backticks};
use crate::level::HighlightLevel;
use crate::style::StyleSpec;
use crate::tags::{Tag, tag_to_color};
use crate::tree::{
    Node, NodeKind, Step, steps_ok, lemma_steps_ok_append, lemma_forest_prefix_ok, document_steps, embeds_code, ends_with_newline, extends, forest_steps,
    forest_text, lang_of, last_leaf, realizes,
    lemma_extends_call, lemma_extends_code, lemma_extends_start, lemma_extends_trans, node_steps,
    node_text, raw_steps,
};
use crate::writer::{DeferredWriter, Op, append_bytes, bytes_of, emitted};
use vstd::prelude::*;
use vstd::string::*;

verus! {

/// How the input is parsed.
#[derive(Clone, Copy, Debug, PartialEq, Eq, Structural)]
pub enum SyntaxMode {
    Code,
    Markup,
    Math,
}

/// Rendering options: Discord output, the syntax mode, and a soft limit on
/// the output's size in bytes.
#[derive(Clone, Copy, Debug)]
pub struct Highlighter {
    discord: bool,
    syntax_mode: SyntaxMode,
    soft_limit: Option<usize>,
}

impl Default for Highlighter {
    fn default() -> (r: Highlighter)
        ensures
            !r.is_discord(),
            r.mode() == SyntaxMode::Markup,
            r.limit() == None::<usize>,
    {
        Highlighter { discord: false, syntax_mode: SyntaxMode::Markup, soft_limit: None }
    }
}

/// Records a style request as the next step.
fn put_style(out: &mut DeferredWriter, s: &StyleSpec, Ghost(start): Ghost<Seq<Op>>, Ghost(steps): Ghost<Seq<Step>>)
    requires
        old(out).wf(),
        extends(old(out).calls(), start, steps),
    ensures
        final(out).wf(),
        extends(final(out).calls(), start, steps.push(Step::Call(Op::Style(*s)))),
{
    let ghost before = out.calls();
    out.set_style(s);
    proof {
        lemma_extends_call(start, before, steps, Op::Style(*s));
    }
}

/// Records a write as the next step.
fn put_text(out: &mut DeferredWriter, text: &str, Ghost(start): Ghost<Seq<Op>>, Ghost(steps): Ghost<Seq<Step>>)
    requires
        old(out).wf(),
        extends(old(out).calls(), start, steps),
    ensures
        final(out).wf(),
        extends(final(out).calls(), start, steps.push(Step::Call(Op::Text(text@)))),
{
    let ghost before = out.calls();
    out.write(text);
    proof {
        lemma_extends_call(start, before, steps, Op::Text(text@));
    }
}

/// Appends the source text of a node.
fn collect_text(node: &Node, out: &mut String)
    ensures
        final(out)@ == old(out)@ + node_text(*node),
    decreases node,
{
    if node.text.as_str().is_empty() {
        let mut i: usize = 0;
        while i < node.children.len()
            invariant
                i <= node.children@.len(),
                out@ == old(out)@ + forest_text(node.children@.subrange(0, i as int)),
            decreases node.children@.len() - i,
        {
            collect_text(&node.children[i], out);
            proof {
                let next = node.children@.subrange(0, i + 1);
                assert(next.drop_last() =~= node.children@.subrange(0, i as int));
                assert(next.last() == node.children@[i as int]);
            }
            i = i + 1;
            assert(out@ =~= old(out)@ + forest_text(node.children@.subrange(0, i as int)));
        }
        assert(node.children@.subrange(0, i as int) =~= node.children@);
    } else {
        out.append(node.text.as_str());
    }
}

/// Whether `bytes` is a render of a document at a level: the bytes that
/// the deferred writer emits for calls that carry out its steps.
pub open spec fn renders(n: Node, level: HighlightLevel, discord: bool, bytes: Seq<u8>) -> bool {
    exists|calls: Seq<Op>| #[trigger] realizes(calls, document_steps(n, level, discord)) && bytes == bytes_of(emitted(calls))
}

/// Whether some render of a document at a level reaches the limit.
pub open spec fn too_big(n: Node, level: HighlightLevel, discord: bool, limit: usize) -> bool {
    exists|bytes: Seq<u8>| #[trigger] renders(n, level, discord, bytes) && bytes.len() >= limit
}

/// Whether the degradation loop accepts a render of `len` bytes at
/// `level`: without a limit, only the highest level is rendered; with one,
/// the render is under it or the level is the lowest, and every higher
/// level was tried and reached the limit.
pub open spec fn accepted(limit: Option<usize>, n: Node, discord: bool, level: HighlightLevel, len: nat) -> bool {
    match limit {
        None => level == HighlightLevel::All,
        Some(lim) => {
            &&& (len < lim || level == HighlightLevel::Off)
            &&& forall|l: HighlightLevel| l.rank() > level.rank() ==> #[trigger] too_big(n, l, discord, lim)
        },
    }
}

/// The last leaf of a node.
fn find_last_leaf(node: &Node) -> (r: &Node)
    ensures
        *r == last_leaf(*node),
    decreases node,
{
    if node.children.len() == 0 {
        node
    } else {
        find_last_leaf(&node.children[node.children.len() - 1])
    }
}

/// Whether a text ends with a line feed.
fn ends_with_line_feed(text: &str) -> (r: bool)
    ensures
        r == ends_with_newline(text@),
{
    let len = text.unicode_len();
    len > 0 && text.get_char(len - 1) == '\n'
}

/// A child of a node that embeds code makes the node embed code.
proof fn lemma_embeds_member(ns: Seq<Node>, i: int)
    requires
        0 <= i < ns.len(),
        embeds_code(seq![ns[i]]),
    ensures
        embeds_code(ns),
    decreases ns.len(),
{
    assert(seq![ns[i]].drop_last() =~= Seq::<Node>::empty());
    assert(seq![ns[i]].last() == ns[i]);
    assert(ns.len() > 0);
    assert(!embeds_code(Seq::<Node>::empty()));
    if i == ns.len() - 1 {
        assert(ns.last() == ns[i]);
    } else {
        assert(ns.drop_last()[i] == ns[i]);
        lemma_embeds_member(ns.drop_last(), i);
    }
}

impl Highlighter {
    /// Whether output is made for Discord.
    pub closed spec fn is_discord(&self) -> bool {
        self.discord
    }

    /// How the input is parsed.
    pub closed spec fn mode(&self) -> SyntaxMode {
        self.syntax_mode
    }

    /// The soft limit on the output's size, if any.
    pub closed spec fn limit(&self) -> Option<usize> {
        self.soft_limit
    }

    /// Enables output for Discord: the output is put in an `ansi` code
    /// block, and fences of raw blocks inside it are escaped.
    pub fn for_discord(&mut self) -> (r: &mut Self)
        ensures
            r.is_discord(),
            r.mode() == old(self).mode(),
            r.limit() == old(self).limit(),
            *final(self) == *final(r),
    {
        self.discord = true;
        self
    }

    /// Sets how the input is parsed.
    pub fn with_syntax_mode(&mut self, mode: SyntaxMode) -> (r: &mut Self)
        ensures
            r.is_discord() == old(self).is_discord(),
            r.mode() == mode,
            r.limit() == old(self).limit(),
            *final(self) == *final(r),
    {
        self.syntax_mode = mode;
        self
    }

    /// Sets a soft limit on the output's size in bytes: past it, fewer
    /// styles are used, and if even no styling does not fit, the output is
    /// given anyway.
    pub fn with_soft_limit(&mut self, soft_limit: usize) -> (r: &mut Self)
        ensures
            r.is_discord() == old(self).is_discord(),
            r.mode() == old(self).mode(),
            r.limit() == Some(soft_limit),
            *final(self) == *final(r),
    {
        self.soft_limit = Some(soft_limit);
        self
    }

    /// Whether output is made for Discord.
    pub fn discord(&self) -> (r: bool)
        ensures
            r == self.is_discord(),
    {
        self.discord
    }

    /// How the input is parsed.
    pub fn syntax_mode(&self) -> (r: SyntaxMode)
        ensures
            r == self.mode(),
    {
        self.syntax_mode
    }

    /// The soft limit on the output's size, if any.
    pub fn soft_limit(&self) -> (r: Option<usize>)
        ensures
            r == self.limit(),
    {
        self.soft_limit
    }

    /// Renders a whole document at one level into a fresh buffer.
    pub fn highlight_at(&self, node: &Node, level: HighlightLevel, syntaxes: &Syntaxes) -> (r: Result<Vec<u8>, Error>)
        ensures
            r matches Ok(b) ==> renders(*node, level, self.is_discord(), b@),
            !embeds_code(seq![*node]) ==> r is Ok,
            level.rank() < 3 ==> r is Ok,
            r is Err ==> !steps_ok(document_steps(*node, level, self.is_discord())),
            r matches Err(e) ==> e is Syntect,
    {
        let mut out = DeferredWriter::new();
        let ghost start = out.calls();
        let ghost mut steps: Seq<Step> = Seq::empty();
        proof {
            lemma_extends_start(start);
        }
        if self.discord {
            put_text(&mut out, "```ansi\n", Ghost(start), Ghost(steps));
            proof { steps = steps.push(Step::Call(Op::Text("```ansi\n"@))); }
        }
        let plain = StyleSpec::new();
        let ghost before = out.calls();
        match self.highlight_node(level, node, &plain, syntaxes, &mut out) {
            Ok(()) => {},
            Err(e) => {
                proof {
                    let body = node_steps(*node, plain, level, self.discord);
                    let closing = if self.discord {
                        (if ends_with_newline(last_leaf(*node).text@) {
                            Seq::empty()
                        } else {
                            seq![Step::Call(Op::Text("\n"@))]
                        }) + seq![Step::Call(Op::Text("```\n"@))]
                    } else {
                        Seq::empty()
                    };
                    assert(document_steps(*node, level, self.discord) == steps + body + closing);
                    lemma_steps_ok_append(steps, body);
                    lemma_steps_ok_append(steps + body, closing);
                }
                return Err(e);
            },
        }
        proof {
            let body = node_steps(*node, plain, level, self.discord);
            lemma_extends_trans(start, before, out.calls(), steps, body);
            steps = steps + body;
        }
        if self.discord {
            // The closing fence must stand on a line of its own.
            let leaf = find_last_leaf(node);
            if !ends_with_line_feed(leaf.text.as_str()) {
                put_text(&mut out, "\n", Ghost(start), Ghost(steps));
                proof { steps = steps.push(Step::Call(Op::Text("\n"@))); }
            }
            put_text(&mut out, "```\n", Ghost(start), Ghost(steps));
            proof { steps = steps.push(Step::Call(Op::Text("```\n"@))); }
        }
        proof {
            assert(steps =~= document_steps(*node, level, self.discord));
            assert(out.calls().subrange(0, 0) =~= Seq::<Op>::empty());
            assert(out.calls().subrange(0, out.calls().len() as int) =~= out.calls());
        }
        let ghost calls = out.calls();
        let bytes = out.into_bytes();
        proof {
            assert(realizes(calls, document_steps(*node, level, self.discord)) && bytes@ == bytes_of(emitted(calls)));
        }
        Ok(bytes)
    }

    /// Renders a document and appends it to `out`. With a soft limit the
    /// document is rendered from the highest level down, and the first
    /// render under the limit, or else the one at the lowest level, is kept.
    pub fn highlight_node_to(&self, node: &Node, syntaxes: &Syntaxes, out: &mut Vec<u8>) -> (r: Result<(), Error>)
        ensures
            r is Ok ==> exists|level: HighlightLevel, b: Seq<u8>|
                #![trigger renders(*node, level, self.is_discord(), b)]
                final(out)@ == old(out)@ + b && renders(*node, level, self.is_discord(), b)
                && accepted(self.limit(), *node, self.is_discord(), level, b.len()),
            r is Err ==> final(out)@ == old(out)@,
            r matches Err(e) ==> e is Syntect,
            r is Err ==> exists|l: HighlightLevel| !#[trigger] steps_ok(document_steps(*node, l, self.is_discord())),
            !embeds_code(seq![*node]) ==> r is Ok,
    {
        match self.soft_limit {
            None => {
                let b = match self.highlight_at(node, HighlightLevel::All, syntaxes) {
                    Ok(b) => b,
                    Err(e) => return Err(e),
                };
                append_bytes(out, b.as_slice());
                proof {
                    assert(accepted(self.limit(), *node, self.discord, HighlightLevel::All, b@.len()));
                }
                Ok(())
            },
            Some(limit) => {
                let mut level = HighlightLevel::All;
                loop
                    invariant
                        self.limit() == Some(limit),
                        *out == *old(out),
                        forall|l: HighlightLevel| l.rank() > level.rank() ==> #[trigger] too_big(*node, l, self.discord, limit),
                    decreases level.rank(),
                {
                    let b = match self.highlight_at(node, level, syntaxes) {
                        Ok(b) => b,
                        Err(e) => return Err(e),
                    };
                    if b.len() < limit || level == HighlightLevel::Off {
                        append_bytes(out, b.as_slice());
                        proof {
                            assert(accepted(self.limit(), *node, self.discord, level, b@.len()));
                        }
                        return Ok(());
                    }
                    proof {
                        assert(too_big(*node, level, self.discord, limit));
                    }
                    let lower = level.restrict();
                    proof {
                        assert forall|l: HighlightLevel| l.rank() > lower.rank() implies #[trigger] too_big(*node, l, self.discord, limit) by {
                            if l.rank() == level.rank() {
                                crate::level::lemma_rank_injective(l, level);
                            }
                        }
                    }
                    level = lower;
                }
            },
        }
    }

    /// Renders a raw block: its fences (escaped for Discord), its language
    /// token, and its code, highlighted when the level allows.
    #[verifier::rlimit(60)]
    pub fn highlight_raw(
        &self,
        level: HighlightLevel,
        node: &Node,
        lang: &Option<String>,
        syntaxes: &Syntaxes,
        out: &mut DeferredWriter,
    ) -> (r: Result<(), Error>)
        requires
            old(out).wf(),
        ensures
            final(out).wf(),
            r is Ok ==> extends(final(out).calls(), old(out).calls(),
                raw_steps(node_text(*node), lang_of(*lang), level, self.is_discord())),
            r is Err ==> level.rank() >= 3 && (*lang matches Some(l) && syntax_known(l@)),
            r is Err ==> !steps_ok(raw_steps(node_text(*node), lang_of(*lang), level, self.is_discord())),
            r matches Err(e) ==> e is Syntect,
    {
        let ghost start = out.calls();
        let ghost mut steps: Seq<Step> = Seq::empty();
        proof {
            lemma_extends_start(start);
            reveal_strlit("");
        }
        let mut text = String::new();
        collect_text(node, &mut text);
        let run = leading_backticks(text.as_str());
        let len = text.unicode_len();
        // A run longer than half the text holds the closing fence too.
        let n = if len - run >= run {
            run
        } else {
            len / 2
        };
        let fence = fence_text(n, self.discord);
        let escaped = self.discord && n >= 3;
        let comment = tag_to_color(self.discord, level, Tag::Comment);
        let raw = tag_to_color(self.discord, level, Tag::Raw);

        // Opening fence.
        if escaped {
            put_style(out, &comment, Ghost(start), Ghost(steps));
            proof { steps = steps.push(Step::Call(Op::Style(comment))); }
            put_text(out, "/* when copying, remove and retype these --> */", Ghost(start), Ghost(steps));
            proof { steps = steps.push(Step::Call(Op::Text("/* when copying, remove and retype these --> */"@))); }
        }
        put_style(out, &raw, Ghost(start), Ghost(steps));
        proof { steps = steps.push(Step::Call(Op::Style(raw))); }
        put_text(out, fence.as_str(), Ghost(start), Ghost(steps));
        proof { steps = steps.push(Step::Call(Op::Text(fence@))); }
        let ghost after_fence = steps;
        if let Some(l) = lang {
            put_text(out, l.as_str(), Ghost(start), Ghost(steps));
            proof { steps = steps.push(Step::Call(Op::Text(l@))); }
        }

        // The code between the fences, without the language token.
        let inner: &str = text.as_str().substring_char(n, len - n);
        let code: &str = match lang {
            Some(l) => {
                let token_len = l.unicode_len();
                let inner_len = inner.unicode_len();
                if inner_len >= token_len {
                    inner.substring_char(token_len, inner_len)
                } else {
                    ""
                }
            },
            None => inner,
        };
        match lang {
            Some(l) => {
                if level.at_least(HighlightLevel::WithRaw) {
                    let ghost before = out.calls();
                    match highlight_lang(code, l.as_str(), syntaxes, out) {
                        Ok(()) => {},
                        Err(e) => {
                            proof {
                                let t = node_text(*node);
                                assert(text@ == t);
                                assert(inner@ == crate::tree::between_fences(t));
                                assert(code@ == crate::tree::raw_code(t, lang_of(*lang)));
                                let rs = raw_steps(t, lang_of(*lang), level, self.discord);
                                let k: int = if escaped { 5 } else { 3 };
                                assert(rs[k] == Step::Code(l@, code@));
                            }
                            return Err(e);
                        },
                    }
                    proof {
                        if syntax_known(l@) {
                            let after = out.calls();
                            assert(after.subrange(0, before.len() as int) =~= before);
                            assert(after.subrange(before.len() as int, after.len() as int)
                                =~= piece_calls(code_pieces(l@, code@)->Some_0));
                            lemma_extends_code(start, before, after, steps, l@, code@);
                            steps = steps.push(Step::Code(l@, code@));
                        } else {
                            lemma_extends_call(start, before, steps, Op::Text(code@));
                            steps = steps.push(Step::Call(Op::Text(code@)));
                        }
                    }
                } else {
                    put_text(out, code, Ghost(start), Ghost(steps));
                    proof { steps = steps.push(Step::Call(Op::Text(code@))); }
                }
            },
            None => {
                put_text(out, code, Ghost(start), Ghost(steps));
                proof { steps = steps.push(Step::Call(Op::Text(code@))); }
            },
        }

        // Closing fence.
        put_style(out, &raw, Ghost(start), Ghost(steps));
        proof { steps = steps.push(Step::Call(Op::Style(raw))); }
        put_text(out, fence.as_str(), Ghost(start), Ghost(steps));
        proof { steps = steps.push(Step::Call(Op::Text(fence@))); }
        if escaped {
            put_style(out, &comment, Ghost(start), Ghost(steps));
            proof { steps = steps.push(Step::Call(Op::Style(comment))); }
            put_text(out, "/* <-- when copying, remove and retype these */", Ghost(start), Ghost(steps));
            proof { steps = steps.push(Step::Call(Op::Text("/* <-- when copying, remove and retype these */"@))); }
        }
        proof {
            let t = node_text(*node);
            assert(text@ == t);
            assert(n == crate::tree::fence_len(t));
            assert(escaped == crate::fence::escapes(n as nat, self.discord));
            assert(inner@ == crate::tree::between_fences(t));
            assert(code@ == crate::tree::raw_code(t, lang_of(*lang)));
            assert(steps =~= raw_steps(node_text(*node), lang_of(*lang), level, self.discord));
        }
        Ok(())
    }

    /// Renders a node under the style `ambient`: sets its tag's style,
    /// renders a raw block, its children, or its text, then sets `ambient`
    /// again.
    pub fn highlight_node(
        &self,
        level: HighlightLevel,
        node: &Node,
        ambient: &StyleSpec,
        syntaxes: &Syntaxes,
        out: &mut DeferredWriter,
    ) -> (r: Result<(), Error>)
        requires
            old(out).wf(),
        ensures
            final(out).wf(),
            r is Ok ==> extends(final(out).calls(), old(out).calls(),
                node_steps(*node, *ambient, level, self.is_discord())),
            !embeds_code(seq![*node]) ==> r is Ok,
            level.rank() < 3 ==> r is Ok,
            r is Err ==> !steps_ok(node_steps(*node, *ambient, level, self.is_discord())),
            r matches Err(e) ==> e is Syntect,
        decreases node,
    {
        let ghost start = out.calls();
        let ghost mut steps: Seq<Step> = Seq::empty();
        proof {
            lemma_extends_start(start);
            assert(seq![*node].drop_last() =~= Seq::<Node>::empty());
        }
        let mut active = *ambient;
        if let Some(tag) = node.tag {
            active = tag_to_color(self.discord, level, tag);
            put_style(out, &active, Ghost(start), Ghost(steps));
            proof { steps = steps.push(Step::Call(Op::Style(active))); }
        }
        let ghost opened = steps;
        match &node.kind {
            NodeKind::Raw(lang) => {
                let ghost before = out.calls();
                match self.highlight_raw(level, node, lang, syntaxes, out) {
                    Ok(()) => {},
                    Err(e) => {
                        proof {
                            let body = raw_steps(node_text(*node), lang_of(*lang), level, self.discord);
                            let close = seq![Step::Call(Op::Style(*ambient))];
                            assert(node_steps(*node, *ambient, level, self.discord) == opened + body + close);
                            lemma_steps_ok_append(opened, body);
                            lemma_steps_ok_append(opened + body, close);
                        }
                        return Err(e);
                    },
                }
                proof {
                    let body = raw_steps(node_text(*node), lang_of(*lang), level, self.discord);
                    lemma_extends_trans(start, before, out.calls(), steps, body);
                    steps = steps + body;
                }
            },
            NodeKind::Plain => {
                if node.text.as_str().is_empty() {
                    let ghost children = node.children@;
                    let mut i: usize = 0;
                    while i < node.children.len()
                        invariant
                            i <= children.len(),
                            children == node.children@,
                            out.wf(),
                            active == crate::tree::active_style(*node, *ambient, level, self.discord),
                            extends(out.calls(), start,
                                opened + forest_steps(children.subrange(0, i as int), active, level, self.discord)),
                            !embeds_code(seq![*node]) ==> !embeds_code(children),
                            node.text@.len() == 0,
                            node.kind is Plain,
                            opened == match node.tag {
                                Some(t) => seq![Step::Call(Op::Style(crate::tags::style_for(t, level, self.discord)))],
                                None => Seq::<Step>::empty(),
                            },
                        decreases children.len() - i,
                    {
                        let ghost before = out.calls();
                        let ghost done = forest_steps(children.subrange(0, i as int), active, level, self.discord);
                        match self.highlight_node(level, &node.children[i], &active, syntaxes, out) {
                            Ok(()) => {},
                            Err(e) => {
                                proof {
                                    lemma_embeds_member(children, i as int);
                                    let child = children[i as int];
                                    let part = node_steps(child, active, level, self.discord);
                                    let next = children.subrange(0, i + 1);
                                    assert(next.drop_last() =~= children.subrange(0, i as int));
                                    assert(next.last() == child);
                                    assert(forest_steps(next, active, level, self.discord) == done + part);
                                    lemma_steps_ok_append(done, part);
                                    if steps_ok(forest_steps(children, active, level, self.discord)) {
                                        lemma_forest_prefix_ok(children, i + 1, active, level, self.discord);
                                    }
                                    let all = forest_steps(children, active, level, self.discord);
                                    let close = seq![Step::Call(Op::Style(*ambient))];
                                    assert(node_steps(*node, *ambient, level, self.discord) == opened + all + close);
                                    lemma_steps_ok_append(opened, all);
                                    lemma_steps_ok_append(opened + all, close);
                                }
                                return Err(e);
                            },
                        }
                        proof {
                            let child = children[i as int];
                            let part = node_steps(child, active, level, self.discord);
                            lemma_extends_trans(start, before, out.calls(), opened + done, part);
                            let next = children.subrange(0, i + 1);
                            assert(next.drop_last() =~= children.subrange(0, i as int));
                            assert(next.last() == child);
                            assert(forest_steps(next, active, level, self.discord) == done + part);
                            assert(opened + done + part =~= opened + (done + part));
                        }
                        i = i + 1;
                    }
                    proof {
                        assert(children.subrange(0, i as int) =~= children);
                        steps = opened + forest_steps(children, active, level, self.discord);
                    }
                } else {
                    put_text(out, node.text.as_str(), Ghost(start), Ghost(steps));
                    proof { steps = steps.push(Step::Call(Op::Text(node.text@))); }
                }
            },
        }
        put_style(out, ambient, Ghost(start), Ghost(steps));
        proof {
            steps = steps.push(Step::Call(Op::Style(*ambient)));
            assert(steps =~= node_steps(*node, *ambient, level, self.discord));
        }
        Ok(())
    }
}

} // verus!
