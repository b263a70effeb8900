//! A writer that sets a style only once something is written under it.
use crate::style::{StyleSpec, ansi_escape, escape_bytes, plain_style};
use vstd::prelude::*;
use vstd::utf8::encode_utf8;

verus! {

/// One operation on a styled output: switch to a style, or write text.
pub enum Op {
    Style(StyleSpec),
    Text(Seq<char>),
}

/// What a deferred writer has emitted after a sequence of calls, with the
/// style last emitted and the style still waiting for text.
///
/// A style request is dropped when it equals the style last emitted and
/// otherwise replaces the waiting one; a non-empty write first emits the
/// waiting style. An empty write does nothing.
pub open spec fn deferred(calls: Seq<Op>) -> (Seq<Op>, StyleSpec, Option<StyleSpec>)
    decreases calls.len(),
{
    if calls.len() == 0 {
        (Seq::empty(), plain_style(), None)
    } else {
        let (emitted, current, pending) = deferred(calls.drop_last());
        match calls.last() {
            Op::Style(s) => (emitted, current, if s == current { None } else { Some(s) }),
            Op::Text(t) => if t.len() == 0 {
                (emitted, current, pending)
            } else {
                match pending {
                    Some(s) => (emitted.push(Op::Style(s)).push(Op::Text(t)), s, None),
                    None => (emitted.push(Op::Text(t)), current, None),
                }
            },
        }
    }
}

/// The operations a deferred writer passes on for a sequence of calls.
pub open spec fn emitted(calls: Seq<Op>) -> Seq<Op> {
    deferred(calls).0
}

/// The bytes of one operation on an ANSI terminal.
pub open spec fn op_bytes(op: Op) -> Seq<u8> {
    match op {
        Op::Style(s) => ansi_escape(s),
        Op::Text(t) => encode_utf8(t),
    }
}

/// The bytes of a sequence of operations.
pub open spec fn bytes_of(ops: Seq<Op>) -> Seq<u8>
    decreases ops.len(),
{
    if ops.len() == 0 {
        Seq::empty()
    } else {
        bytes_of(ops.drop_last()) + op_bytes(ops.last())
    }
}

/// The text written by a sequence of operations.
pub open spec fn text_of(ops: Seq<Op>) -> Seq<char>
    decreases ops.len(),
{
    if ops.len() == 0 {
        Seq::empty()
    } else {
        text_of(ops.drop_last()) + match ops.last() {
            Op::Text(t) => t,
            Op::Style(_) => Seq::empty(),
        }
    }
}

/// The styles in force one after another: the plain style, then each
/// style operation in turn.
pub open spec fn style_run(ops: Seq<Op>) -> Seq<StyleSpec>
    decreases ops.len(),
{
    if ops.len() == 0 {
        seq![plain_style()]
    } else {
        match ops.last() {
            Op::Style(s) => style_run(ops.drop_last()).push(s),
            Op::Text(_) => style_run(ops.drop_last()),
        }
    }
}

/// No style follows an equal one.
pub open spec fn no_repeats(run: Seq<StyleSpec>) -> bool {
    forall|i: int| 0 <= i < run.len() - 1 ==> #[trigger] run[i] != run[i + 1]
}

/// Every style operation is followed at once by a non-empty write.
pub open spec fn styles_followed_by_text(ops: Seq<Op>) -> bool {
    forall|i: int|
        0 <= i < ops.len() && #[trigger] ops[i] is Style ==> i + 1 < ops.len() && ops[i + 1] is Text
            && ops[i + 1]->Text_0.len() > 0
}

/// Whether a sequence of calls holds no non-empty write.
pub open spec fn writes_nothing(calls: Seq<Op>) -> bool {
    forall|i: int| 0 <= i < calls.len() && #[trigger] calls[i] is Text ==> calls[i]->Text_0.len() == 0
}

/// A style sink over an in-memory ANSI byte buffer that defers each style
/// change until text is written under it.
pub struct DeferredWriter {
    out: Vec<u8>,
    current: StyleSpec,
    next: Option<StyleSpec>,
    log: Ghost<Seq<Op>>,
}

impl DeferredWriter {
    /// Every call made on this writer, in order.
    pub closed spec fn calls(&self) -> Seq<Op> {
        self.log@
    }

    /// The buffer holds what the calls emitted, and the writer's state is
    /// the one they lead to.
    pub closed spec fn wf(&self) -> bool {
        let (e, current, pending) = deferred(self.log@);
        &&& self.current == current
        &&& self.next == pending
        &&& self.out@ == bytes_of(e)
    }

    /// An empty buffer with the plain style in force.
    pub fn new() -> (r: DeferredWriter)
        ensures
            r.wf(),
            r.calls() == Seq::<Op>::empty(),
    {
        DeferredWriter { out: Vec::new(), current: StyleSpec::new(), next: None, log: Ghost(Seq::empty()) }
    }

    /// Requests a style for the text written next.
    pub fn set_style(&mut self, spec: &StyleSpec)
        requires
            old(self).wf(),
        ensures
            final(self).wf(),
            final(self).calls() == old(self).calls().push(Op::Style(*spec)),
    {
        let ghost calls = self.log@.push(Op::Style(*spec));
        if self.current == *spec {
            self.next = None;
        } else {
            self.next = Some(*spec);
        }
        self.log = Ghost(calls);
        assert(calls.drop_last() =~= old(self).log@);
    }

    /// Requests the plain style, which resets every attribute.
    pub fn reset(&mut self)
        requires
            old(self).wf(),
        ensures
            final(self).wf(),
            final(self).calls() == old(self).calls().push(Op::Style(plain_style())),
    {
        let plain = StyleSpec::new();
        self.set_style(&plain);
    }

    /// Writes text, after the waiting style if there is one.
    pub fn write(&mut self, text: &str)
        requires
            old(self).wf(),
        ensures
            final(self).wf(),
            final(self).calls() == old(self).calls().push(Op::Text(text@)),
    {
        let ghost calls = self.log@.push(Op::Text(text@));
        let ghost e0 = deferred(self.log@).0;
        proof {
            assert(calls.drop_last() =~= self.log@);
        }
        if text.is_empty() {
            self.log = Ghost(calls);
            return;
        }
        match self.next {
            Some(s) => {
                let esc = escape_bytes(&s);
                append_bytes(&mut self.out, esc.as_slice());
                self.current = s;
                self.next = None;
                proof {
                    let e1 = e0.push(Op::Style(s));
                    assert(e1.drop_last() =~= e0);
                    assert(e1.push(Op::Text(text@)).drop_last() =~= e1);
                    assert(bytes_of(e1) == bytes_of(e0) + ansi_escape(s));
                    assert(deferred(calls).0 == e1.push(Op::Text(text@)));
                }
            },
            None => {
                proof {
                    assert(e0.push(Op::Text(text@)).drop_last() =~= e0);
                    assert(deferred(calls).0 == e0.push(Op::Text(text@)));
                }
            },
        }
        append_bytes(&mut self.out, text.as_bytes());
        self.log = Ghost(calls);
    }

    /// The number of bytes written so far.
    pub fn len(&self) -> (r: usize)
        requires
            self.wf(),
        ensures
            r == bytes_of(emitted(self.calls())).len(),
    {
        self.out.len()
    }

    /// The bytes written, escape sequences included.
    pub fn into_bytes(self) -> (r: Vec<u8>)
        requires
            self.wf(),
        ensures
            r@ == bytes_of(emitted(self.calls())),
    {
        self.out
    }
}

/// Appends a slice of bytes to a buffer.
pub(crate) fn append_bytes(out: &mut Vec<u8>, bytes: &[u8])
    ensures
        final(out)@ == old(out)@ + bytes@,
{
    let mut i: usize = 0;
    while i < bytes.len()
        invariant
            0 <= i <= bytes@.len(),
            out@ == old(out)@ + bytes@.subrange(0, i as int),
        decreases bytes@.len() - i,
    {
        out.push(bytes[i]);
        i = i + 1;
        assert(out@ =~= old(out)@ + bytes@.subrange(0, i as int));
    }
    assert(bytes@.subrange(0, i as int) =~= bytes@);
}

/// The style last emitted closes the run of emitted styles, no style in
/// the run repeats the one before it, and a waiting style differs from the
/// style last emitted.
proof fn lemma_run_shape(calls: Seq<Op>)
    ensures
        ({
            let (e, current, pending) = deferred(calls);
            &&& style_run(e).len() > 0
            &&& style_run(e).last() == current
            &&& no_repeats(style_run(e))
            &&& pending matches Some(s) ==> s != current
        }),
    decreases calls.len(),
{
    if calls.len() == 0 {
        assert(no_repeats(seq![plain_style()]));
    } else {
        let prev = calls.drop_last();
        lemma_run_shape(prev);
        let (e0, c0, p0) = deferred(prev);
        let e = deferred(calls).0;
        if let Op::Text(t) = calls.last() {
            if t.len() > 0 {
                if let Some(s) = p0 {
                    let e1 = e0.push(Op::Style(s));
                    assert(e1.drop_last() =~= e0);
                    assert(e.drop_last() =~= e1);
                    let r0 = style_run(e0);
                    let r = style_run(e);
                    assert(style_run(e) == style_run(e1));
                    assert(style_run(e1) == r0.push(s));
                    assert forall|i: int| 0 <= i < r.len() - 1 implies #[trigger] r[i] != r[i + 1] by {
                        if i < r0.len() - 1 {
                            assert(r[i] == r0[i] && r[i + 1] == r0[i + 1]);
                        } else {
                            assert(r[i] == r0.last());
                        }
                    }
                } else {
                    assert(e.drop_last() =~= e0);
                }
            }
        }
    }
}

/// Every emitted style is followed by a non-empty write, and the emitted
/// operations end with a write.
proof fn lemma_followed_shape(calls: Seq<Op>)
    ensures
        styles_followed_by_text(emitted(calls)),
        emitted(calls).len() > 0 ==> emitted(calls).last() is Text,
    decreases calls.len(),
{
    if calls.len() > 0 {
        let prev = calls.drop_last();
        lemma_followed_shape(prev);
        let (e0, c0, p0) = deferred(prev);
        let e = emitted(calls);
        if let Op::Text(t) = calls.last() {
            if t.len() > 0 {
                assert forall|i: int| 0 <= i < e.len() && #[trigger] e[i] is Style implies i + 1 < e.len()
                    && e[i + 1] is Text && e[i + 1]->Text_0.len() > 0 by {
                    if i < e0.len() {
                        assert(e[i] == e0[i]);
                        if i + 1 < e0.len() {
                            assert(e[i + 1] == e0[i + 1]);
                        }
                    }
                }
            }
        }
    }
}

/// Emission keeps the written text.
proof fn lemma_text_shape(calls: Seq<Op>)
    ensures
        text_of(emitted(calls)) == text_of(calls),
    decreases calls.len(),
{
    if calls.len() > 0 {
        let prev = calls.drop_last();
        lemma_text_shape(prev);
        let (e0, c0, p0) = deferred(prev);
        let e = emitted(calls);
        match calls.last() {
            Op::Style(_) => {
                assert(text_of(calls) =~= text_of(prev));
            },
            Op::Text(t) => {
                if t.len() == 0 {
                    assert(text_of(calls) =~= text_of(prev));
                } else if let Some(s) = p0 {
                    let e1 = e0.push(Op::Style(s));
                    assert(e1.drop_last() =~= e0);
                    assert(e.drop_last() =~= e1);
                    assert(text_of(e1) =~= text_of(e0));
                } else {
                    assert(e.drop_last() =~= e0);
                }
            },
        }
    }
}

/// Without a non-empty write nothing is emitted.
proof fn lemma_silent_shape(calls: Seq<Op>)
    ensures
        writes_nothing(calls) ==> emitted(calls).len() == 0,
    decreases calls.len(),
{
    if calls.len() > 0 {
        let prev = calls.drop_last();
        lemma_silent_shape(prev);
        if writes_nothing(calls) {
            assert forall|i: int| 0 <= i < prev.len() && #[trigger] prev[i] is Text implies prev[i]->Text_0.len() == 0 by {
                assert(calls[i] == prev[i]);
            }
            assert(calls[calls.len() - 1] == calls.last());
        }
    }
}

/// The deferred writer never emits a style equal to the one in force
/// before it (the plain style at the start), so no two style emissions in
/// a row are identical.
pub proof fn lemma_no_repeated_styles(calls: Seq<Op>)
    ensures
        no_repeats(style_run(emitted(calls))),
{
    lemma_run_shape(calls);
}

/// Each style the deferred writer emits is followed at once by written
/// text; when no non-empty text is ever written, it emits nothing at all.
pub proof fn lemma_styles_only_before_text(calls: Seq<Op>)
    ensures
        styles_followed_by_text(emitted(calls)),
        writes_nothing(calls) ==> emitted(calls).len() == 0,
{
    lemma_followed_shape(calls);
    lemma_silent_shape(calls);
}

/// The deferred writer passes on every written character, in order.
pub proof fn lemma_text_preserved(calls: Seq<Op>)
    ensures
        text_of(emitted(calls)) == text_of(calls),
{
    lemma_text_shape(calls);
}

} // verus!
