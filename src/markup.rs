use vstd::prelude::*;

verus! {

/// A highlight scope: an index into the table of attribute strings.
#[derive(Clone, Copy, Debug, PartialEq, Eq)]
pub struct Highlight(pub usize);

/// The attribute text of scope `h`: its entry in `attrs`, or empty when the
/// table has none.
pub open spec fn attr_of(attrs: Seq<Vec<u8>>, h: Highlight) -> Seq<u8> {
    if h.0 < attrs.len() {
        attrs[h.0 as int]@
    } else {
        Seq::empty()
    }
}

/// `<color=#`
pub open spec fn open_prefix() -> Seq<u8> {
    seq![0x3cu8, 0x63u8, 0x6fu8, 0x6cu8, 0x6fu8, 0x72u8, 0x3du8, 0x23u8]
}

/// `</color>`
pub open spec fn close_tag() -> Seq<u8> {
    seq![0x3cu8, 0x2fu8, 0x63u8, 0x6fu8, 0x6cu8, 0x6fu8, 0x72u8, 0x3eu8]
}

/// The begin-markup for a scope with attribute text `a`: nothing when `a` is empty.
pub open spec fn begin_markup(a: Seq<u8>) -> Seq<u8> {
    if a.len() == 0 {
        Seq::empty()
    } else {
        open_prefix() + a + seq![0x3eu8]
    }
}

/// The end-markup for a scope with attribute text `a`: nothing when `a` is empty.
pub open spec fn end_markup(a: Seq<u8>) -> Seq<u8> {
    if a.len() == 0 {
        Seq::empty()
    } else {
        close_tag()
    }
}

/// End-markup for every open scope, innermost first.
pub open spec fn closes(stack: Seq<Highlight>, attrs: Seq<Vec<u8>>) -> Seq<u8>
    decreases stack.len(),
{
    if stack.len() == 0 {
        Seq::empty()
    } else {
        end_markup(attr_of(attrs, stack.last())) + closes(stack.drop_last(), attrs)
    }
}

/// Begin-markup for every open scope, outermost first.
pub open spec fn opens(stack: Seq<Highlight>, attrs: Seq<Vec<u8>>) -> Seq<u8>
    decreases stack.len(),
{
    if stack.len() == 0 {
        Seq::empty()
    } else {
        opens(stack.drop_last(), attrs) + begin_markup(attr_of(attrs, stack.last()))
    }
}

/// The zero-width span that marks a lone carriage return.
pub open spec fn cr_markup(cr: Option<Highlight>, attrs: Seq<Vec<u8>>) -> Seq<u8> {
    match cr {
        None => Seq::empty(),
        Some(h) => begin_markup(attr_of(attrs, h)) + end_markup(attr_of(attrs, h)),
    }
}

/// The escape sequence for a byte that markup reserves.
pub open spec fn html_escape_spec(c: u8) -> Option<Seq<u8>> {
    if c == 0x3e {
        Some(seq![0x26u8, 0x67u8, 0x74u8, 0x3bu8])
    } else if c == 0x3c {
        Some(seq![0x26u8, 0x6cu8, 0x74u8, 0x3bu8])
    } else if c == 0x26 {
        Some(seq![0x26u8, 0x61u8, 0x6du8, 0x70u8, 0x3bu8])
    } else if c == 0x27 {
        Some(seq![0x26u8, 0x23u8, 0x33u8, 0x39u8, 0x3bu8])
    } else if c == 0x22 {
        Some(seq![0x26u8, 0x71u8, 0x75u8, 0x6fu8, 0x74u8, 0x3bu8])
    } else {
        None
    }
}

/// Relies on `tree_sitter_highlight::util::html_escape`: `&gt;`, `&lt;`, `&amp;`,
/// `&#39;` and `&quot;` for the five reserved bytes, none for any other.
#[verifier::external_body]
pub(crate) fn html_escape(c: u8) -> (r: Option<&'static [u8]>)
    ensures
        match r {
            None => html_escape_spec(c) is None,
            Some(e) => html_escape_spec(c) == Some(e@),
        },
{
    tree_sitter_highlight::util::html_escape(c)
}

/// Appends the bytes of `s` to `out`.
pub fn push_all(out: &mut Vec<u8>, s: &[u8])
    ensures
        final(out)@ == old(out)@ + s@,
{
    let mut i: usize = 0;
    while i < s.len()
        invariant
            i <= s@.len(),
            out@ == old(out)@ + s@.take(i as int),
        decreases s@.len() - i,
    {
        out.push(s[i]);
        i = i + 1;
        assert(s@.take(i as int) =~= s@.take(i - 1) .push(s@[i - 1]));
    }
    assert(s@.take(i as int) =~= s@);
}

/// Appends the begin-markup for attribute text `a`.
pub fn push_begin(out: &mut Vec<u8>, a: &Vec<u8>)
    ensures
        final(out)@ == old(out)@ + begin_markup(a@),
{
    if a.len() > 0 {
        let prefix: Vec<u8> = vec![0x3cu8, 0x63u8, 0x6fu8, 0x6cu8, 0x6fu8, 0x72u8, 0x3du8, 0x23u8];
        push_all(out, prefix.as_slice());
        push_all(out, a.as_slice());
        out.push(0x3eu8);
        assert(out@ =~= old(out)@ + begin_markup(a@));
    } else {
        assert(old(out)@ + begin_markup(a@) =~= old(out)@);
    }
}

/// Appends the end-markup for attribute text `a`.
pub fn push_end(out: &mut Vec<u8>, a: &Vec<u8>)
    ensures
        final(out)@ == old(out)@ + end_markup(a@),
{
    if a.len() > 0 {
        let tag: Vec<u8> = vec![0x3cu8, 0x2fu8, 0x63u8, 0x6fu8, 0x6cu8, 0x6fu8, 0x72u8, 0x3eu8];
        push_all(out, tag.as_slice());
        assert(out@ =~= old(out)@ + end_markup(a@));
    } else {
        assert(old(out)@ + end_markup(a@) =~= old(out)@);
    }
}

} // verus!
