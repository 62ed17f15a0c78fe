use vstd::prelude::*;

use crate::lossy::{lemma_lossy_no_line_break, lossy_bytes, no_line_break, LossyChunk, LossyUtf8};
use crate::markup::{
    attr_of, begin_markup, closes, cr_markup, end_markup, html_escape, html_escape_spec, opens,
    push_all, push_begin, push_end, Highlight,
};

verus! {

/// Largest output buffer, in bytes, kept allocated across a reset.
pub const BUFFER_HTML_RESERVE_CAPACITY: usize = 10 * 1024;

/// Largest line index, in entries, kept allocated across a reset.
pub const BUFFER_LINES_RESERVE_CAPACITY: usize = 1000;

/// One element of the stream that the highlighting engine produces.
#[derive(Clone, Copy, Debug, PartialEq, Eq)]
pub enum HighlightEvent {
    /// The source bytes `start..end`, to be rendered as text.
    Source { start: usize, end: usize },
    /// A scope opens.
    HighlightStart(Highlight),
    /// The innermost open scope closes.
    HighlightEnd,
}

/// Why a render stopped.
#[derive(Clone, Copy, Debug, PartialEq, Eq)]
pub enum RenderError {
    /// The engine's cancellation flag was tripped.
    Cancelled,
    /// The engine found the language configuration unusable.
    InvalidLanguage,
    /// The engine failed for another reason.
    Unknown,
    /// A scope was closed with none open, or a span lay outside the source.
    MalformedEventStream,
}

/// Output buffer, line index and whether a carriage return is pending.
pub type TextState = (Seq<u8>, Seq<usize>, bool);

/// Renders one decoded byte.
pub open spec fn step_byte(
    st: TextState,
    c: u8,
    stack: Seq<Highlight>,
    attrs: Seq<Vec<u8>>,
    cr: Option<Highlight>,
) -> TextState {
    let (html, offs, pending) = st;
    if c == 13 {
        (html, offs, true)
    } else {
        let h1 = if pending && c != 10 { html + cr_markup(cr, attrs) } else { html };
        if c == 10 {
            let h2 = h1 + closes(stack, attrs) + seq![10u8];
            (h2 + opens(stack, attrs), offs.push(h2.len() as usize), false)
        } else {
            match html_escape_spec(c) {
                Some(e) => (h1 + e, offs, false),
                None => (h1.push(c), offs, false),
            }
        }
    }
}

/// Renders decoded bytes one after another.
pub open spec fn text_fold(
    st: TextState,
    bytes: Seq<u8>,
    stack: Seq<Highlight>,
    attrs: Seq<Vec<u8>>,
    cr: Option<Highlight>,
) -> TextState
    decreases bytes.len(),
{
    if bytes.len() == 0 {
        st
    } else {
        step_byte(text_fold(st, bytes.drop_last(), stack, attrs, cr), bytes.last(), stack, attrs, cr)
    }
}

/// Output buffer, line index and carriage-return scope of a renderer.
pub type RendererState = (Seq<u8>, Seq<usize>, Option<Highlight>);

/// What a reset leaves: an empty buffer, the line index `[0]`, and the
/// carriage-return scope as it was.
pub open spec fn reset_state(s: RendererState) -> RendererState {
    (Seq::empty(), seq![0usize], s.2)
}

/// Resetting twice leaves the same state as resetting once.
pub proof fn lemma_reset_idempotent(s: RendererState)
    ensures
        reset_state(reset_state(s)) == reset_state(s),
{
}

/// A lone carriage return renders as the zero-width carriage-return span in
/// front of the byte after it; one before a line feed renders as nothing.
pub proof fn lemma_lone_carriage_return(
    st: TextState,
    c: u8,
    stack: Seq<Highlight>,
    attrs: Seq<Vec<u8>>,
    cr: Option<Highlight>,
)
    requires
        !st.2,
        c != 10,
        c != 13,
    ensures
        text_fold(st, seq![13u8, c], stack, attrs, cr) == text_fold(
            (st.0 + cr_markup(cr, attrs), st.1, false),
            seq![c],
            stack,
            attrs,
            cr,
        ),
        text_fold(st, seq![13u8, 10u8], stack, attrs, cr) == text_fold(st, seq![10u8], stack, attrs, cr),
{
    let a = seq![13u8, c];
    let b = seq![13u8, 10u8];
    let one = seq![13u8];
    assert(a.drop_last() =~= one);
    assert(b.drop_last() =~= one);
    assert(one.drop_last() =~= Seq::<u8>::empty());
    assert(seq![c].drop_last() =~= Seq::<u8>::empty());
    assert(seq![10u8].drop_last() =~= Seq::<u8>::empty());
    assert(st == (st.0, st.1, false));
    let q = (st.0 + cr_markup(cr, attrs), st.1, false);
    assert(one.last() == 13u8);
    assert(seq![c].last() == c);
    assert(text_fold(st, one.drop_last(), stack, attrs, cr) == st);
    assert(text_fold(q, seq![c].drop_last(), stack, attrs, cr) == q);
    let p = text_fold(st, one, stack, attrs, cr);
    assert(p == (st.0, st.1, true));
    assert(text_fold(st, a, stack, attrs, cr) == step_byte(p, c, stack, attrs, cr));
    assert(text_fold(st, b, stack, attrs, cr) == step_byte(p, 10u8, stack, attrs, cr));
    assert(text_fold(st, seq![10u8], stack, attrs, cr) == step_byte(st, 10u8, stack, attrs, cr));
    assert(text_fold((st.0 + cr_markup(cr, attrs), st.1, false), seq![c], stack, attrs, cr) == step_byte(
        (st.0 + cr_markup(cr, attrs), st.1, false),
        c,
        stack,
        attrs,
        cr,
    ));
}

/// Output buffer, line index and the stack of open scopes.
pub type RenderState = (Seq<u8>, Seq<usize>, Seq<Highlight>);

/// Renders one event.
pub open spec fn step_event(
    s: RenderState,
    ev: Result<HighlightEvent, RenderError>,
    source: Seq<u8>,
    attrs: Seq<Vec<u8>>,
    cr: Option<Highlight>,
) -> Result<RenderState, RenderError> {
    let (html, offs, stack) = s;
    match ev {
        Err(e) => Err(e),
        Ok(HighlightEvent::HighlightStart(h)) => Ok(
            (html + begin_markup(attr_of(attrs, h)), offs, stack.push(h)),
        ),
        Ok(HighlightEvent::HighlightEnd) => if stack.len() == 0 {
            Err(RenderError::MalformedEventStream)
        } else {
            Ok((html + end_markup(attr_of(attrs, stack.last())), offs, stack.drop_last()))
        },
        Ok(HighlightEvent::Source { start, end }) => if start <= end && end <= source.len() {
            let t = text_fold(
                (html, offs, false),
                lossy_bytes(source.subrange(start as int, end as int)),
                stack,
                attrs,
                cr,
            );
            Ok((t.0, t.1, stack))
        } else {
            Err(RenderError::MalformedEventStream)
        },
    }
}

/// Renders events one after another, stopping at the first error.
pub open spec fn events_fold(
    s: RenderState,
    events: Seq<Result<HighlightEvent, RenderError>>,
    source: Seq<u8>,
    attrs: Seq<Vec<u8>>,
    cr: Option<Highlight>,
) -> Result<RenderState, RenderError>
    decreases events.len(),
{
    if events.len() == 0 {
        Ok(s)
    } else {
        match events_fold(s, events.drop_last(), source, attrs, cr) {
            Err(e) => Err(e),
            Ok(s2) => step_event(s2, events.last(), source, attrs, cr),
        }
    }
}

/// What a completed render leaves: a final line break, and no index entry for
/// an empty trailing line.
pub open spec fn finish(html: Seq<u8>, offs: Seq<usize>) -> (Seq<u8>, Seq<usize>) {
    let h = if html.len() > 0 && html.last() == 10 { html } else { html.push(10u8) };
    let o = if offs.len() > 0 && offs.last() == h.len() { offs.drop_last() } else { offs };
    (h, o)
}

/// The line index starts at 0, strictly increases, and stays within the buffer.
pub open spec fn offsets_wf(html: Seq<u8>, offs: Seq<usize>) -> bool {
    &&& offs.len() >= 1
    &&& offs[0] == 0
    &&& forall|i: int, j: int| 0 <= i < j < offs.len() ==> offs[i] < offs[j]
    &&& forall|i: int| 0 <= i < offs.len() ==> offs[i] <= html.len()
}

/// Line `i`: from its offset to the next one, or to the end of the buffer.
pub open spec fn line_spec(html: Seq<u8>, offs: Seq<usize>, i: int) -> Seq<u8> {
    let end = if i + 1 < offs.len() { offs[i + 1] as int } else { html.len() as int };
    html.subrange(offs[i] as int, end)
}

/// All the lines, in order.
pub open spec fn lines_spec(html: Seq<u8>, offs: Seq<usize>) -> Seq<Seq<u8>> {
    Seq::new(offs.len(), |i: int| line_spec(html, offs, i))
}

/// Decodes `src` lossily into one buffer.
pub fn decode_lossy(src: &[u8]) -> (r: Vec<u8>)
    ensures
        r@ == lossy_bytes(src@),
{
    let mut it = LossyUtf8::new(src);
    let mut out: Vec<u8> = Vec::new();
    loop
        invariant
            it.wf(),
            out@ + it.remaining().flatten() == lossy_bytes(src@),
        decreases it.remaining().len(),
    {
        let ghost rem = it.remaining();
        match it.next() {
            None => {
                assert(out@ + rem.flatten() =~= out@);
                return out;
            },
            Some(chunk) => {
                assert(rem.flatten() == rem[0] + rem.drop_first().flatten());
                match chunk {
                    LossyChunk::Valid(s) => push_all(&mut out, s),
                    LossyChunk::Replacement => {
                        let rep = chunk.to_vec();
                        push_all(&mut out, rep.as_slice());
                    },
                }
                assert(out@ + it.remaining().flatten() =~= lossy_bytes(src@));
            },
        }
    }
}

/// Converts a stream of highlight events into lines of color-tag markup.
pub struct ColorTagRenderer {
    pub html: Vec<u8>,
    pub line_offsets: Vec<usize>,
    pub carriage_return_highlight: Option<Highlight>,
}

impl ColorTagRenderer {
    /// The line index is well formed over the buffer.
    pub open spec fn wf(&self) -> bool {
        offsets_wf(self.html@, self.line_offsets@)
    }

    /// The scope that styles lone carriage returns, if any.
    pub open spec fn cr(&self) -> Option<Highlight> {
        self.carriage_return_highlight
    }

    /// Buffer, line index and carriage-return scope.
    pub open spec fn state(&self) -> RendererState {
        (self.html@, self.line_offsets@, self.carriage_return_highlight)
    }

    /// An empty renderer: no output, the line index `[0]`, no carriage-return scope.
    pub fn new() -> (r: Self)
        ensures
            r.wf(),
            r.html@ == Seq::<u8>::empty(),
            r.line_offsets@ == seq![0usize],
            r.cr() == None::<Highlight>,
    {
        let mut result = ColorTagRenderer {
            html: Vec::with_capacity(BUFFER_HTML_RESERVE_CAPACITY),
            line_offsets: Vec::with_capacity(BUFFER_LINES_RESERVE_CAPACITY),
            carriage_return_highlight: None,
        };
        result.line_offsets.push(0);
        assert(result.line_offsets@ =~= seq![0usize]);
        result
    }

    /// Chooses the scope that styles lone carriage returns.
    pub fn set_carriage_return_highlight(&mut self, highlight: Option<Highlight>)
        ensures
            final(self).cr() == highlight,
            final(self).html == old(self).html,
            final(self).line_offsets == old(self).line_offsets,
    {
        self.carriage_return_highlight = highlight;
    }

    /// Empties the buffer and the line index for the next render, giving back
    /// memory held beyond the reserve capacities.
    pub fn reset(&mut self)
        ensures
            final(self).wf(),
            final(self).state() == reset_state(old(self).state()),
    {
        shrink_and_clear(&mut self.html, BUFFER_HTML_RESERVE_CAPACITY);
        shrink_and_clear(&mut self.line_offsets, BUFFER_LINES_RESERVE_CAPACITY);
        self.line_offsets.push(0);
        assert(self.line_offsets@ =~= seq![0usize]);
    }

    fn start_highlight(&mut self, h: Highlight, attrs: &Vec<Vec<u8>>)
        ensures
            final(self).html@ == old(self).html@ + begin_markup(attr_of(attrs@, h)),
            final(self).line_offsets == old(self).line_offsets,
            final(self).carriage_return_highlight == old(self).carriage_return_highlight,
    {
        if h.0 < attrs.len() {
            push_begin(&mut self.html, &attrs[h.0]);
        } else {
            assert(old(self).html@ + begin_markup(attr_of(attrs@, h)) =~= old(self).html@);
        }
    }

    fn end_highlight(&mut self, h: Highlight, attrs: &Vec<Vec<u8>>)
        ensures
            final(self).html@ == old(self).html@ + end_markup(attr_of(attrs@, h)),
            final(self).line_offsets == old(self).line_offsets,
            final(self).carriage_return_highlight == old(self).carriage_return_highlight,
    {
        if h.0 < attrs.len() {
            push_end(&mut self.html, &attrs[h.0]);
        } else {
            assert(old(self).html@ + end_markup(attr_of(attrs@, h)) =~= old(self).html@);
        }
    }

    fn add_carriage_return(&mut self, attrs: &Vec<Vec<u8>>)
        ensures
            final(self).html@ == old(self).html@ + cr_markup(old(self).carriage_return_highlight, attrs@),
            final(self).line_offsets == old(self).line_offsets,
            final(self).carriage_return_highlight == old(self).carriage_return_highlight,
    {
        match self.carriage_return_highlight {
            Some(h) => {
                self.start_highlight(h, attrs);
                self.end_highlight(h, attrs);
                assert(self.html@ =~= old(self).html@ + cr_markup(old(self).carriage_return_highlight, attrs@));
            },
            None => {
                assert(old(self).html@ + cr_markup(None, attrs@) =~= old(self).html@);
            },
        }
    }

    /// Closes every open scope, innermost first.
    fn close_all(&mut self, stack: &Vec<Highlight>, attrs: &Vec<Vec<u8>>)
        ensures
            final(self).html@ == old(self).html@ + closes(stack@, attrs@),
            final(self).line_offsets == old(self).line_offsets,
            final(self).carriage_return_highlight == old(self).carriage_return_highlight,
    {
        let mut i: usize = stack.len();
        assert(stack@.take(i as int) =~= stack@);
        while i > 0
            invariant
                i <= stack@.len(),
                self.html@ + closes(stack@.take(i as int), attrs@) == old(self).html@ + closes(stack@, attrs@),
                self.line_offsets == old(self).line_offsets,
                self.carriage_return_highlight == old(self).carriage_return_highlight,
            decreases i,
        {
            let ghost t = stack@.take(i as int);
            assert(t.drop_last() =~= stack@.take(i - 1));
            assert(t.last() == stack@[i - 1]);
            let ghost before = self.html@;
            self.end_highlight(stack[i - 1], attrs);
            i = i - 1;
            assert(closes(t, attrs@) == end_markup(attr_of(attrs@, stack@[i as int])) + closes(stack@.take(i as int), attrs@));
            assert(before + closes(t, attrs@) =~= self.html@ + closes(stack@.take(i as int), attrs@));
        }
        assert(stack@.take(0) =~= Seq::<Highlight>::empty());
        assert(self.html@ =~= old(self).html@ + closes(stack@, attrs@));
    }

    /// Reopens every open scope, outermost first.
    fn open_all(&mut self, stack: &Vec<Highlight>, attrs: &Vec<Vec<u8>>)
        ensures
            final(self).html@ == old(self).html@ + opens(stack@, attrs@),
            final(self).line_offsets == old(self).line_offsets,
            final(self).carriage_return_highlight == old(self).carriage_return_highlight,
    {
        let mut i: usize = 0;
        assert(stack@.take(0) =~= Seq::<Highlight>::empty());
        assert(old(self).html@ + opens(stack@.take(0), attrs@) =~= old(self).html@);
        while i < stack.len()
            invariant
                i <= stack@.len(),
                self.html@ == old(self).html@ + opens(stack@.take(i as int), attrs@),
                self.line_offsets == old(self).line_offsets,
                self.carriage_return_highlight == old(self).carriage_return_highlight,
            decreases stack@.len() - i,
        {
            let ghost t = stack@.take(i + 1);
            assert(t.drop_last() =~= stack@.take(i as int));
            assert(t.last() == stack@[i as int]);
            self.start_highlight(stack[i], attrs);
            i = i + 1;
            assert(self.html@ =~= old(self).html@ + opens(stack@.take(i as int), attrs@));
        }
        assert(stack@.take(i as int) =~= stack@);
    }

    /// Renders the span `src`, decoded lossily, inside the open scopes `stack`.
    fn add_text(&mut self, src: &[u8], stack: &Vec<Highlight>, attrs: &Vec<Vec<u8>>)
        requires
            old(self).wf(),
        ensures
            final(self).wf(),
            final(self).carriage_return_highlight == old(self).carriage_return_highlight,
            ({
                let t = text_fold(
                    (old(self).html@, old(self).line_offsets@, false),
                    lossy_bytes(src@),
                    stack@,
                    attrs@,
                    old(self).carriage_return_highlight,
                );
                final(self).html@ == t.0 && final(self).line_offsets@ == t.1
            }),
    {
        let text = decode_lossy(src);
        let ghost st0: TextState = (self.html@, self.line_offsets@, false);
        let ghost cr = self.carriage_return_highlight;
        let mut last_char_was_cr = false;
        let mut i: usize = 0;
        assert(text@.take(0) =~= Seq::<u8>::empty());
        while i < text.len()
            invariant
                i <= text@.len(),
                self.wf(),
                self.carriage_return_highlight == cr,
                text_fold(st0, text@.take(i as int), stack@, attrs@, cr) == (
                    self.html@,
                    self.line_offsets@,
                    last_char_was_cr,
                ),
            decreases text@.len() - i,
        {
            let c = text[i];
            let ghost prev: TextState = (self.html@, self.line_offsets@, last_char_was_cr);
            assert(text@.take(i + 1).drop_last() =~= text@.take(i as int));
            assert(text@.take(i + 1).last() == c);
            if c == 13 {
                last_char_was_cr = true;
            } else {
                if last_char_was_cr && c != 10 {
                    self.add_carriage_return(attrs);
                }
                let ghost h1 = self.html@;
                assert(h1 == if prev.2 && c != 10 { prev.0 + cr_markup(cr, attrs@) } else { prev.0 });
                last_char_was_cr = false;
                if c == 10 {
                    self.close_all(stack, attrs);
                    self.html.push(10u8);
                    let n = self.html.len();
                    let ghost h2 = self.html@;
                    assert(h2 =~= h1 + closes(stack@, attrs@) + seq![10u8]);
                    assert(forall|k: int| 0 <= k < prev.1.len() ==> prev.1[k] < n);
                    self.line_offsets.push(n);
                    self.open_all(stack, attrs);
                    assert(offsets_wf(self.html@, self.line_offsets@)) by {
                        let o = self.line_offsets@;
                        assert(forall|k: int| 0 <= k < prev.1.len() ==> o[k] == prev.1[k]);
                    }
                } else {
                    match html_escape(c) {
                        Some(e) => push_all(&mut self.html, e),
                        None => self.html.push(c),
                    }
                }
            }
            i = i + 1;
        }
        assert(text@.take(i as int) =~= text@);
    }

    /// Renders `events` over `source`, appending to the buffer and the line
    /// index; `attrs` gives each scope its attribute text.
    pub fn render(
        &mut self,
        events: &Vec<Result<HighlightEvent, RenderError>>,
        source: &[u8],
        attrs: &Vec<Vec<u8>>,
    ) -> (r: Result<(), RenderError>)
        requires
            old(self).wf(),
        ensures
            final(self).wf(),
            final(self).carriage_return_highlight == old(self).carriage_return_highlight,
            match events_fold(
                (old(self).html@, old(self).line_offsets@, Seq::empty()),
                events@,
                source@,
                attrs@,
                old(self).carriage_return_highlight,
            ) {
                Err(e) => r == Err::<(), RenderError>(e),
                Ok(s) => r is Ok && (final(self).html@, final(self).line_offsets@) == finish(s.0, s.1),
            },
    {
        let ghost s0: RenderState = (self.html@, self.line_offsets@, Seq::empty());
        let ghost cr = self.carriage_return_highlight;
        let mut highlights: Vec<Highlight> = Vec::new();
        let mut i: usize = 0;
        assert(events@.take(0) =~= Seq::<Result<HighlightEvent, RenderError>>::empty());
        while i < events.len()
            invariant
                i <= events@.len(),
                self.wf(),
                self.carriage_return_highlight == cr,
                cr == old(self).carriage_return_highlight,
                s0 == (old(self).html@, old(self).line_offsets@, Seq::<Highlight>::empty()),
                events_fold(s0, events@.take(i as int), source@, attrs@, cr) == Ok::<RenderState, RenderError>(
                    (self.html@, self.line_offsets@, highlights@),
                ),
            decreases events@.len() - i,
        {
            assert(events@.take(i + 1).drop_last() =~= events@.take(i as int));
            assert(events@.take(i + 1).last() == events@[i as int]);
            let ev = events[i];
            match ev {
                Err(e) => {
                    proof { lemma_fold_stays_err(s0, events@, i + 1, source@, attrs@, cr); }
                    return Err(e);
                },
                Ok(HighlightEvent::HighlightStart(h)) => {
                    highlights.push(h);
                    self.start_highlight(h, attrs);
                },
                Ok(HighlightEvent::HighlightEnd) => {
                    if highlights.len() == 0 {
                        proof { lemma_fold_stays_err(s0, events@, i + 1, source@, attrs@, cr); }
                        return Err(RenderError::MalformedEventStream);
                    }
                    let top = highlights[highlights.len() - 1];
                    highlights.pop();
                    self.end_highlight(top, attrs);
                },
                Ok(HighlightEvent::Source { start, end }) => {
                    if start > end || end > source.len() {
                        proof { lemma_fold_stays_err(s0, events@, i + 1, source@, attrs@, cr); }
                        return Err(RenderError::MalformedEventStream);
                    }
                    let span = vstd::slice::slice_subrange(source, start, end);
                    self.add_text(span, &highlights, attrs);
                },
            }
            i = i + 1;
        }
        assert(events@.take(i as int) =~= events@);
        let ghost h0 = self.html@;
        let ghost o0 = self.line_offsets@;
        let n = self.html.len();
        if n == 0 || self.html[n - 1] != 10 {
            self.html.push(10u8);
        }
        let m = self.line_offsets.len();
        if self.line_offsets[m - 1] == self.html.len() {
            self.line_offsets.pop();
        }
        assert((self.html@, self.line_offsets@) =~= finish(h0, o0));
        Ok(())
    }

    /// The rendered lines, in order: line `i` runs from its offset to the next
    /// line's offset, or to the end of the buffer.
    pub fn lines(&self) -> (r: Vec<Vec<u8>>)
        requires
            self.wf(),
        ensures
            r@.len() == self.line_offsets@.len(),
            forall|i: int|
                0 <= i < r@.len() ==> #[trigger] r@[i]@ == line_spec(self.html@, self.line_offsets@, i),
    {
        let mut out: Vec<Vec<u8>> = Vec::new();
        let n = self.line_offsets.len();
        let mut i: usize = 0;
        while i < n
            invariant
                n == self.line_offsets@.len(),
                self.wf(),
                i <= n,
                out@.len() == i,
                forall|k: int| 0 <= k < i ==> #[trigger] out@[k]@ == line_spec(self.html@, self.line_offsets@, k),
            decreases n - i,
        {
            let start = self.line_offsets[i];
            let end = if i + 1 == n { self.html.len() } else { self.line_offsets[i + 1] };
            let line = vstd::slice::slice_to_vec(vstd::slice::slice_subrange(self.html.as_slice(), start, end));
            out.push(line);
            i = i + 1;
        }
        out
    }
}

/// Concatenating the lines, in order, gives back the whole buffer.
pub proof fn lemma_lines_round_trip(html: Seq<u8>, offs: Seq<usize>)
    requires
        offsets_wf(html, offs),
    ensures
        lines_spec(html, offs).flatten() == html,
{
    lemma_lines_from(html, offs, 0);
    assert(lines_spec(html, offs).skip(0) =~= lines_spec(html, offs));
    assert(html.subrange(0, html.len() as int) =~= html);
}

/// The lines from `k` on concatenate to the buffer from line `k`'s offset on.
proof fn lemma_lines_from(html: Seq<u8>, offs: Seq<usize>, k: int)
    requires
        offsets_wf(html, offs),
        0 <= k < offs.len(),
    ensures
        lines_spec(html, offs).skip(k).flatten() == html.subrange(offs[k] as int, html.len() as int),
    decreases offs.len() - k,
{
    let ls = lines_spec(html, offs).skip(k);
    assert(ls.flatten() == ls[0] + ls.drop_first().flatten());
    if k + 1 < offs.len() {
        lemma_lines_from(html, offs, k + 1);
        assert(ls.drop_first() =~= lines_spec(html, offs).skip(k + 1));
        assert(offs[k] < offs[k + 1]);
        assert(ls.flatten() =~= html.subrange(offs[k] as int, html.len() as int));
    } else {
        assert(ls.drop_first() =~= Seq::<Seq<u8>>::empty());
        assert(ls.flatten() =~= html.subrange(offs[k] as int, html.len() as int));
    }
}

/// A byte as it stands in markup: its escape sequence, or itself.
pub open spec fn escaped_byte(c: u8) -> Seq<u8> {
    match html_escape_spec(c) {
        Some(e) => e,
        None => seq![c],
    }
}

/// Bytes as they stand in markup, each escaped where markup reserves it.
pub open spec fn escaped(b: Seq<u8>) -> Seq<u8>
    decreases b.len(),
{
    if b.len() == 0 {
        Seq::empty()
    } else {
        escaped(b.drop_last()) + escaped_byte(b.last())
    }
}

/// Text without line breaks or carriage returns is appended escaped, with no
/// markup and no new line.
proof fn lemma_plain_text(
    st: TextState,
    b: Seq<u8>,
    stack: Seq<Highlight>,
    attrs: Seq<Vec<u8>>,
    cr: Option<Highlight>,
)
    requires
        !st.2,
        forall|i: int| 0 <= i < b.len() ==> b[i] != 10 && b[i] != 13,
    ensures
        text_fold(st, b, stack, attrs, cr) == (st.0 + escaped(b), st.1, false),
    decreases b.len(),
{
    if b.len() == 0 {
        assert(st.0 + escaped(b) =~= st.0);
    } else {
        lemma_plain_text(st, b.drop_last(), stack, attrs, cr);
        assert(st.0 + escaped(b.drop_last()) + escaped_byte(b.last()) =~= st.0 + escaped(b));
        assert(b.last() == b[b.len() - 1]);
    }
}

/// One scope around the whole of a one-line input renders as its begin-markup,
/// the escaped text, its end-markup and a line break, on a single line.
pub proof fn lemma_single_span(src: Seq<u8>, h: Highlight, attrs: Seq<Vec<u8>>, cr: Option<Highlight>)
    requires
        src.len() <= usize::MAX,
        no_line_break(src),
    ensures
        ({
            let events = seq![
                Ok(HighlightEvent::HighlightStart(h)),
                Ok(HighlightEvent::Source { start: 0, end: src.len() as usize }),
                Ok(HighlightEvent::HighlightEnd),
            ];
            let a = attr_of(attrs, h);
            match events_fold((Seq::empty(), seq![0usize], Seq::empty()), events, src, attrs, cr) {
                Ok(s) => finish(s.0, s.1) == (
                    begin_markup(a) + escaped(lossy_bytes(src)) + end_markup(a) + seq![10u8],
                    seq![0usize],
                ),
                Err(_) => false,
            }
        }),
{
    lemma_lossy_no_line_break(src);
    let e0: Result<HighlightEvent, RenderError> = Ok(HighlightEvent::HighlightStart(h));
    let e1: Result<HighlightEvent, RenderError> = Ok(HighlightEvent::Source { start: 0, end: src.len() as usize });
    let e2: Result<HighlightEvent, RenderError> = Ok(HighlightEvent::HighlightEnd);
    let events = seq![e0, e1, e2];
    let a = attr_of(attrs, h);
    let s0: RenderState = (Seq::empty(), seq![0usize], Seq::empty());
    assert(events.drop_last() =~= seq![e0, e1]);
    assert(seq![e0, e1].drop_last() =~= seq![e0]);
    assert(seq![e0].drop_last() =~= Seq::<Result<HighlightEvent, RenderError>>::empty());
    let s1: RenderState = (begin_markup(a), seq![0usize], seq![h]);
    assert(Seq::<u8>::empty() + begin_markup(a) =~= begin_markup(a));
    assert(Seq::<Highlight>::empty().push(h) =~= seq![h]);
    assert(events_fold(s0, seq![e0].drop_last(), src, attrs, cr) == Ok::<RenderState, RenderError>(s0));
    assert(seq![e0].last() == e0);
    assert(events_fold(s0, seq![e0], src, attrs, cr) == Ok::<RenderState, RenderError>(s1));
    assert(src.subrange(0, src.len() as int) =~= src);
    lemma_plain_text((begin_markup(a), seq![0usize], false), lossy_bytes(src), seq![h], attrs, cr);
    let s2: RenderState = (begin_markup(a) + escaped(lossy_bytes(src)), seq![0usize], seq![h]);
    assert(events_fold(s0, seq![e0, e1], src, attrs, cr) == Ok::<RenderState, RenderError>(s2));
    assert(seq![h].drop_last() =~= Seq::<Highlight>::empty());
    let html = begin_markup(a) + escaped(lossy_bytes(src)) + end_markup(a);
    assert(events_fold(s0, events, src, attrs, cr) == Ok::<RenderState, RenderError>(
        (html, seq![0usize], Seq::empty()),
    ));
    if html.len() > 0 && html.last() == 10 {
        assert(false) by { lemma_no_line_feed_at_end(lossy_bytes(src), a); }
    }
}

/// Markup around escaped one-line text never ends in a line feed.
proof fn lemma_no_line_feed_at_end(b: Seq<u8>, a: Seq<u8>)
    requires
        forall|i: int| 0 <= i < b.len() ==> b[i] != 10 && b[i] != 13,
    ensures
        !((begin_markup(a) + escaped(b) + end_markup(a)).len() > 0 && (begin_markup(a) + escaped(b)
            + end_markup(a)).last() == 10),
{
    let html = begin_markup(a) + escaped(b) + end_markup(a);
    if a.len() > 0 {
        assert(html.last() == 0x3eu8);
    } else if b.len() > 0 {
        assert(html =~= escaped(b));
        let c = b.last();
        assert(c == b[b.len() - 1]);
        assert(escaped(b).last() == escaped_byte(c).last());
    } else {
        assert(html =~= Seq::<u8>::empty());
    }
}

/// Once rendering has failed on a prefix of the events, it fails with the same
/// error on the whole stream.
proof fn lemma_fold_stays_err(
    s: RenderState,
    events: Seq<Result<HighlightEvent, RenderError>>,
    k: int,
    source: Seq<u8>,
    attrs: Seq<Vec<u8>>,
    cr: Option<Highlight>,
)
    requires
        0 <= k <= events.len(),
        events_fold(s, events.take(k), source, attrs, cr) is Err,
    ensures
        events_fold(s, events, source, attrs, cr) == events_fold(s, events.take(k), source, attrs, cr),
    decreases events.len() - k,
{
    if k < events.len() {
        assert(events.take(k + 1).drop_last() =~= events.take(k));
        lemma_fold_stays_err(s, events, k + 1, source, attrs, cr);
    } else {
        assert(events.take(k) =~= events);
    }
}

/// Empties `vec`, first giving back the memory it holds beyond `capacity`
/// elements when it has grown past that many.
pub fn shrink_and_clear<T>(vec: &mut Vec<T>, capacity: usize)
    ensures
        final(vec)@ == Seq::<T>::empty(),
{
    if vec.len() > capacity {
        vec.truncate(capacity);
        shrink_to_fit(vec);
    }
    vec.clear();
}

/// Relies on `Vec::shrink_to_fit`: it gives back spare capacity and keeps the
/// elements as they are.
#[verifier::external_body]
fn shrink_to_fit<T>(vec: &mut Vec<T>)
    ensures
        final(vec)@ == old(vec)@,
{
    vec.shrink_to_fit()
}

} // verus!
