use vstd::prelude::*;

use crate::lossy::lossy_bytes;
use crate::markup::{attr_of, Highlight};
use crate::renderer::{events_fold, HighlightEvent, RenderError, RenderState};

verus! {

/// One markup emission of the renderer: a begin tag, an end tag, or a line break.
pub enum Mark {
    Begin,
    End,
    Break,
}

/// The marks of a scope's begin-markup: none when its attribute text is empty.
pub open spec fn begin_marks(a: Seq<u8>) -> Seq<Mark> {
    if a.len() == 0 { Seq::empty() } else { seq![Mark::Begin] }
}

/// The marks of a scope's end-markup: none when its attribute text is empty.
pub open spec fn end_marks(a: Seq<u8>) -> Seq<Mark> {
    if a.len() == 0 { Seq::empty() } else { seq![Mark::End] }
}

/// End tags for the open scopes, innermost first.
pub open spec fn close_marks(stack: Seq<Highlight>, attrs: Seq<Vec<u8>>) -> Seq<Mark>
    decreases stack.len(),
{
    if stack.len() == 0 {
        Seq::empty()
    } else {
        end_marks(attr_of(attrs, stack.last())) + close_marks(stack.drop_last(), attrs)
    }
}

/// Begin tags for the open scopes, outermost first.
pub open spec fn open_marks(stack: Seq<Highlight>, attrs: Seq<Vec<u8>>) -> Seq<Mark>
    decreases stack.len(),
{
    if stack.len() == 0 {
        Seq::empty()
    } else {
        open_marks(stack.drop_last(), attrs) + begin_marks(attr_of(attrs, stack.last()))
    }
}

/// The zero-width span of a lone carriage return.
pub open spec fn cr_marks(cr: Option<Highlight>, attrs: Seq<Vec<u8>>) -> Seq<Mark> {
    match cr {
        None => Seq::empty(),
        Some(h) => begin_marks(attr_of(attrs, h)) + end_marks(attr_of(attrs, h)),
    }
}

/// The marks emitted for byte `c`, with `pending` telling whether a carriage
/// return came just before it.
pub open spec fn byte_marks(
    pending: bool,
    c: u8,
    stack: Seq<Highlight>,
    attrs: Seq<Vec<u8>>,
    cr: Option<Highlight>,
) -> Seq<Mark> {
    if c == 13 {
        Seq::empty()
    } else {
        let lone = if pending && c != 10 { cr_marks(cr, attrs) } else { Seq::empty() };
        if c == 10 {
            lone + close_marks(stack, attrs) + seq![Mark::Break] + open_marks(stack, attrs)
        } else {
            lone
        }
    }
}

/// The marks emitted for the decoded bytes of one span.
pub open spec fn text_marks(
    b: Seq<u8>,
    stack: Seq<Highlight>,
    attrs: Seq<Vec<u8>>,
    cr: Option<Highlight>,
) -> Seq<Mark>
    decreases b.len(),
{
    if b.len() == 0 {
        Seq::empty()
    } else {
        let pending = b.len() >= 2 && b[b.len() - 2] == 13;
        text_marks(b.drop_last(), stack, attrs, cr) + byte_marks(pending, b.last(), stack, attrs, cr)
    }
}

/// The marks emitted for a stream of events, with the scopes left open.
pub open spec fn marks_fold(
    events: Seq<Result<HighlightEvent, RenderError>>,
    source: Seq<u8>,
    attrs: Seq<Vec<u8>>,
    cr: Option<Highlight>,
) -> (Seq<Mark>, Seq<Highlight>)
    decreases events.len(),
{
    if events.len() == 0 {
        (Seq::empty(), Seq::empty())
    } else {
        let (t, s) = marks_fold(events.drop_last(), source, attrs, cr);
        match events.last() {
            Ok(HighlightEvent::HighlightStart(h)) => (t + begin_marks(attr_of(attrs, h)), s.push(h)),
            Ok(HighlightEvent::HighlightEnd) => if s.len() == 0 {
                (t, s)
            } else {
                (t + end_marks(attr_of(attrs, s.last())), s.drop_last())
            },
            Ok(HighlightEvent::Source { start, end }) => if start <= end && end <= source.len() {
                (t + text_marks(lossy_bytes(source.subrange(start as int, end as int)), s, attrs, cr), s)
            } else {
                (t, s)
            },
            Err(_) => (t, s),
        }
    }
}

/// Scopes opened minus scopes closed.
pub open spec fn nesting(events: Seq<Result<HighlightEvent, RenderError>>) -> int
    decreases events.len(),
{
    if events.len() == 0 {
        0
    } else {
        nesting(events.drop_last()) + match events.last() {
            Ok(HighlightEvent::HighlightStart(_)) => 1int,
            Ok(HighlightEvent::HighlightEnd) => -1int,
            _ => 0int,
        }
    }
}

/// Events only, spans inside the source, no scope closed before it opens, and
/// every scope closed by the end.
pub open spec fn well_nested(events: Seq<Result<HighlightEvent, RenderError>>, source_len: nat) -> bool {
    &&& forall|i: int| 0 <= i < events.len() ==> (#[trigger] events[i]) is Ok
    &&& forall|i: int|
        0 <= i < events.len() ==> match #[trigger] events[i] {
            Ok(HighlightEvent::Source { start, end }) => start <= end && end <= source_len,
            _ => true,
        }
    &&& forall|k: int| 0 <= k <= events.len() ==> nesting(#[trigger] events.take(k)) >= 0
    &&& nesting(events) == 0
}

/// Begin tags minus end tags since the last line break.
pub open spec fn line_depth(t: Seq<Mark>) -> int
    decreases t.len(),
{
    if t.len() == 0 {
        0
    } else {
        match t.last() {
            Mark::Begin => line_depth(t.drop_last()) + 1,
            Mark::End => line_depth(t.drop_last()) - 1,
            Mark::Break => 0,
        }
    }
}

/// No line closes more tags than it opened so far, and every line break comes
/// with all tags of its line closed.
pub open spec fn never_unbalanced(t: Seq<Mark>) -> bool {
    &&& forall|k: int| 0 <= k <= t.len() ==> line_depth(#[trigger] t.take(k)) >= 0
    &&& forall|k: int| 0 <= k < t.len() && (#[trigger] t[k]) is Break ==> line_depth(t.take(k)) == 0
}

/// Every line of `t`, the last one included, has its tags balanced.
pub open spec fn lines_balanced(t: Seq<Mark>) -> bool {
    never_unbalanced(t) && line_depth(t) == 0
}

/// Number of open scopes whose markup is not empty.
pub open spec fn marked(stack: Seq<Highlight>, attrs: Seq<Vec<u8>>) -> int
    decreases stack.len(),
{
    if stack.len() == 0 {
        0
    } else {
        marked(stack.drop_last(), attrs) + if attr_of(attrs, stack.last()).len() == 0 { 0int } else { 1int }
    }
}

proof fn lemma_push(t: Seq<Mark>, m: Mark)
    requires
        never_unbalanced(t),
        m is End ==> line_depth(t) >= 1,
        m is Break ==> line_depth(t) == 0,
    ensures
        never_unbalanced(t.push(m)),
        line_depth(t.push(m)) == match m {
            Mark::Begin => line_depth(t) + 1,
            Mark::End => line_depth(t) - 1,
            Mark::Break => 0,
        },
{
    let u = t.push(m);
    assert(u.drop_last() =~= t);
    assert(t.take(t.len() as int) =~= t);
    assert(line_depth(t) >= 0);
    assert forall|k: int| 0 <= k <= u.len() implies line_depth(#[trigger] u.take(k)) >= 0 by {
        if k <= t.len() {
            assert(u.take(k) =~= t.take(k));
        } else {
            assert(u.take(k) =~= u);
        }
    }
    assert forall|k: int| 0 <= k < u.len() && (#[trigger] u[k]) is Break implies line_depth(u.take(k)) == 0 by {
        if k < t.len() {
            assert(u.take(k) =~= t.take(k));
        } else {
            assert(u.take(k) =~= t);
        }
    }
}

proof fn lemma_append_single(t: Seq<Mark>, u: Seq<Mark>)
    requires
        never_unbalanced(t),
        u.len() <= 1,
        u.len() == 1 && u[0] is End ==> line_depth(t) >= 1,
        u.len() == 1 && u[0] is Break ==> line_depth(t) == 0,
    ensures
        never_unbalanced(t + u),
        line_depth(t + u) == if u.len() == 0 {
            line_depth(t)
        } else {
            match u[0] {
                Mark::Begin => line_depth(t) + 1,
                Mark::End => line_depth(t) - 1,
                Mark::Break => 0,
            }
        },
{
    if u.len() == 0 {
        assert(t + u =~= t);
    } else {
        assert(t + u =~= t.push(u[0]));
        lemma_push(t, u[0]);
    }
}

proof fn lemma_close_marks(t: Seq<Mark>, stack: Seq<Highlight>, attrs: Seq<Vec<u8>>, r: int)
    requires
        never_unbalanced(t),
        r >= 0,
        line_depth(t) == marked(stack, attrs) + r,
    ensures
        never_unbalanced(t + close_marks(stack, attrs)),
        line_depth(t + close_marks(stack, attrs)) == r,
    decreases stack.len(),
{
    if stack.len() == 0 {
        assert(t + close_marks(stack, attrs) =~= t);
    } else {
        lemma_marked_nonneg(stack.drop_last(), attrs);
        let e = end_marks(attr_of(attrs, stack.last()));
        lemma_append_single(t, e);
        lemma_close_marks(t + e, stack.drop_last(), attrs, r);
        assert(t + e + close_marks(stack.drop_last(), attrs) =~= t + close_marks(stack, attrs));
    }
}

proof fn lemma_open_marks(t: Seq<Mark>, stack: Seq<Highlight>, attrs: Seq<Vec<u8>>)
    requires
        never_unbalanced(t),
        line_depth(t) >= 0,
    ensures
        never_unbalanced(t + open_marks(stack, attrs)),
        line_depth(t + open_marks(stack, attrs)) == line_depth(t) + marked(stack, attrs),
    decreases stack.len(),
{
    if stack.len() == 0 {
        assert(t + open_marks(stack, attrs) =~= t);
    } else {
        lemma_open_marks(t, stack.drop_last(), attrs);
        let b = begin_marks(attr_of(attrs, stack.last()));
        let t1 = t + open_marks(stack.drop_last(), attrs);
        lemma_append_single(t1, b);
        assert(t1 + b =~= t + open_marks(stack, attrs));
    }
}

proof fn lemma_marked_nonneg(stack: Seq<Highlight>, attrs: Seq<Vec<u8>>)
    ensures
        marked(stack, attrs) >= 0,
    decreases stack.len(),
{
    if stack.len() > 0 {
        lemma_marked_nonneg(stack.drop_last(), attrs);
    }
}

proof fn lemma_byte_marks(
    t: Seq<Mark>,
    pending: bool,
    c: u8,
    stack: Seq<Highlight>,
    attrs: Seq<Vec<u8>>,
    cr: Option<Highlight>,
)
    requires
        never_unbalanced(t),
        line_depth(t) == marked(stack, attrs),
    ensures
        never_unbalanced(t + byte_marks(pending, c, stack, attrs, cr)),
        line_depth(t + byte_marks(pending, c, stack, attrs, cr)) == marked(stack, attrs),
{
    lemma_marked_nonneg(stack, attrs);
    let lone = if pending && c != 10 { cr_marks(cr, attrs) } else { Seq::empty() };
    let t1 = t + lone;
    if c == 13 {
        assert(t + byte_marks(pending, c, stack, attrs, cr) =~= t);
    } else {
        match cr {
            Some(h) if pending && c != 10 => {
                let b = begin_marks(attr_of(attrs, h));
                let e = end_marks(attr_of(attrs, h));
                lemma_append_single(t, b);
                lemma_append_single(t + b, e);
                assert(t + b + e =~= t1);
            },
            _ => {
                assert(t1 =~= t);
            },
        }
        if c == 10 {
            lemma_close_marks(t1, stack, attrs, 0);
            let t2 = t1 + close_marks(stack, attrs);
            lemma_append_single(t2, seq![Mark::Break]);
            let t3 = t2 + seq![Mark::Break];
            lemma_open_marks(t3, stack, attrs);
            assert(t3 + open_marks(stack, attrs) =~= t + byte_marks(pending, c, stack, attrs, cr));
        } else {
            assert(t1 =~= t + byte_marks(pending, c, stack, attrs, cr));
        }
    }
}

proof fn lemma_text_marks(
    t: Seq<Mark>,
    b: Seq<u8>,
    stack: Seq<Highlight>,
    attrs: Seq<Vec<u8>>,
    cr: Option<Highlight>,
)
    requires
        never_unbalanced(t),
        line_depth(t) == marked(stack, attrs),
    ensures
        never_unbalanced(t + text_marks(b, stack, attrs, cr)),
        line_depth(t + text_marks(b, stack, attrs, cr)) == marked(stack, attrs),
    decreases b.len(),
{
    if b.len() == 0 {
        assert(t + text_marks(b, stack, attrs, cr) =~= t);
    } else {
        lemma_text_marks(t, b.drop_last(), stack, attrs, cr);
        let t1 = t + text_marks(b.drop_last(), stack, attrs, cr);
        let pending = b.len() >= 2 && b[b.len() - 2] == 13;
        lemma_byte_marks(t1, pending, b.last(), stack, attrs, cr);
        assert(t1 + byte_marks(pending, b.last(), stack, attrs, cr) =~= t + text_marks(b, stack, attrs, cr));
    }
}

proof fn lemma_marks_fold(
    events: Seq<Result<HighlightEvent, RenderError>>,
    source: Seq<u8>,
    attrs: Seq<Vec<u8>>,
    cr: Option<Highlight>,
)
    requires
        forall|k: int| 0 <= k <= events.len() ==> nesting(#[trigger] events.take(k)) >= 0,
    ensures
        never_unbalanced(marks_fold(events, source, attrs, cr).0),
        line_depth(marks_fold(events, source, attrs, cr).0) == marked(marks_fold(events, source, attrs, cr).1, attrs),
        marks_fold(events, source, attrs, cr).1.len() == nesting(events),
    decreases events.len(),
{
    if events.len() == 0 {
        assert(never_unbalanced(Seq::<Mark>::empty())) by {
            assert forall|k: int| 0 <= k <= 0 implies line_depth(#[trigger] Seq::<Mark>::empty().take(k)) >= 0 by {
                assert(Seq::<Mark>::empty().take(k) =~= Seq::<Mark>::empty());
            }
        }
    } else {
        let p = events.drop_last();
        assert forall|k: int| 0 <= k <= p.len() implies nesting(#[trigger] p.take(k)) >= 0 by {
            assert(p.take(k) =~= events.take(k));
        }
        lemma_marks_fold(p, source, attrs, cr);
        assert(events.take(events.len() as int) =~= events);
        let (t, s) = marks_fold(p, source, attrs, cr);
        match events.last() {
            Ok(HighlightEvent::HighlightStart(h)) => {
                lemma_append_single(t, begin_marks(attr_of(attrs, h)));
                assert(s.push(h).drop_last() =~= s);
            },
            Ok(HighlightEvent::HighlightEnd) => {
                lemma_marked_nonneg(s.drop_last(), attrs);
                lemma_append_single(t, end_marks(attr_of(attrs, s.last())));
            },
            Ok(HighlightEvent::Source { start, end }) => {
                if start <= end && end <= source.len() {
                    lemma_text_marks(t, lossy_bytes(source.subrange(start as int, end as int)), s, attrs, cr);
                }
            },
            Err(_) => {},
        }
    }
}

/// The marks follow the same open scopes as the renderer, as long as it has
/// not failed.
pub proof fn lemma_marks_follow_render(
    s0: RenderState,
    events: Seq<Result<HighlightEvent, RenderError>>,
    source: Seq<u8>,
    attrs: Seq<Vec<u8>>,
    cr: Option<Highlight>,
)
    requires
        s0.2.len() == 0,
        events_fold(s0, events, source, attrs, cr) is Ok,
    ensures
        marks_fold(events, source, attrs, cr).1 == events_fold(s0, events, source, attrs, cr)->Ok_0.2,
    decreases events.len(),
{
    if events.len() == 0 {
        assert(s0.2 =~= Seq::<Highlight>::empty());
    } else {
        lemma_marks_follow_render(s0, events.drop_last(), source, attrs, cr);
    }
}

/// In the markup that a well-nested event stream renders to, every line opens
/// as many tags as it closes, and closes none before opening it.
pub proof fn lemma_lines_balanced(
    events: Seq<Result<HighlightEvent, RenderError>>,
    source: Seq<u8>,
    attrs: Seq<Vec<u8>>,
    cr: Option<Highlight>,
)
    requires
        well_nested(events, source.len()),
    ensures
        lines_balanced(marks_fold(events, source, attrs, cr).0),
{
    lemma_marks_fold(events, source, attrs, cr);
    let s = marks_fold(events, source, attrs, cr).1;
    assert(s.len() == 0);
    assert(s =~= Seq::<Highlight>::empty());
}

} // verus!
