use vstd::prelude::*;

verus! {

/// What `std::str::from_utf8` reports on `b`: `None` when every byte is valid,
/// else the length of the valid prefix and the length of the invalid sequence
/// after it (`None` when the input ends inside a sequence).
pub uninterp spec fn utf8_error(b: Seq<u8>) -> Option<(nat, Option<nat>)>;

/// Relies on `std::str::from_utf8`, `Utf8Error::valid_up_to` and
/// `Utf8Error::error_len`: an error lies inside the input, after the valid
/// prefix, and an invalid sequence is at least one byte long.
#[verifier::external_body]
fn check_utf8(b: &[u8]) -> (r: Option<(usize, Option<usize>)>)
    ensures
        match r {
            None => utf8_error(b@) == None::<(nat, Option<nat>)>,
            Some((v, None)) => utf8_error(b@) == Some((v as nat, None::<nat>)) && v < b@.len(),
            Some((v, Some(n))) => utf8_error(b@) == Some((v as nat, Some(n as nat))) && v
                < b@.len() && 1 <= n && v + n <= b@.len(),
        },
{
    match std::str::from_utf8(b) {
        Ok(_) => None,
        Err(e) => Some((e.valid_up_to(), e.error_len())),
    }
}

/// The UTF-8 encoding of U+FFFD, the replacement character.
pub open spec fn replacement() -> Seq<u8> {
    seq![0xEFu8, 0xBFu8, 0xBDu8]
}

/// Number of bytes skipped past an invalid sequence: its reported length, or
/// one byte when no length is reported.
pub open spec fn skip_len(el: Option<nat>) -> nat {
    match el {
        None => 1,
        Some(n) => n,
    }
}

/// The chunks that lossy decoding of `b` yields, in order: each maximal valid
/// run whole, and one replacement chunk for each invalid sequence.
pub open spec fn lossy_chunks(b: Seq<u8>) -> Seq<Seq<u8>>
    decreases b.len(),
{
    if b.len() == 0 {
        seq![]
    } else {
        match utf8_error(b) {
            None => seq![b],
            Some((v, el)) => {
                let n = skip_len(el);
                if v < b.len() && 1 <= n && v + n <= b.len() {
                    let valid = if v > 0 { seq![b.take(v as int)] } else { seq![] };
                    valid + seq![replacement()] + lossy_chunks(b.skip((v + n) as int))
                } else {
                    seq![]
                }
            },
        }
    }
}

/// All the bytes that lossy decoding of `b` yields, chunk after chunk.
pub open spec fn lossy_bytes(b: Seq<u8>) -> Seq<u8> {
    lossy_chunks(b).flatten()
}

/// No byte of `s` is a line feed or a carriage return.
pub open spec fn no_line_break(s: Seq<u8>) -> bool {
    forall|i: int| 0 <= i < s.len() ==> s[i] != 10 && s[i] != 13
}

proof fn lemma_single_flatten(x: Seq<u8>)
    ensures
        seq![x].flatten() == x,
{
    assert(seq![x].drop_first() =~= Seq::<Seq<u8>>::empty());
    assert(seq![x].flatten() == x + Seq::<Seq<u8>>::empty().flatten());
    assert(x + Seq::<u8>::empty() =~= x);
}

/// Lossy decoding brings in no line break that the input lacks.
pub proof fn lemma_lossy_no_line_break(b: Seq<u8>)
    requires
        no_line_break(b),
    ensures
        no_line_break(lossy_bytes(b)),
    decreases b.len(),
{
    if b.len() == 0 {
        assert(lossy_chunks(b) =~= Seq::<Seq<u8>>::empty());
    } else {
        match utf8_error(b) {
            None => {
                lemma_single_flatten(b);
            },
            Some((v, el)) => {
                let n = skip_len(el);
                if v < b.len() && 1 <= n && v + n <= b.len() {
                    let rest = b.skip((v + n) as int);
                    assert(no_line_break(rest)) by {
                        assert forall|i: int| 0 <= i < rest.len() implies rest[i] != 10 && rest[i] != 13 by {
                            assert(rest[i] == b[i + v + n]);
                        }
                    }
                    lemma_lossy_no_line_break(rest);
                    let valid: Seq<Seq<u8>> = if v > 0 { seq![b.take(v as int)] } else { seq![] };
                    let r: Seq<Seq<u8>> = seq![replacement()];
                    vstd::seq_lib::lemma_flatten_concat(valid + r, lossy_chunks(rest));
                    vstd::seq_lib::lemma_flatten_concat(valid, r);
                    lemma_single_flatten(replacement());
                    if v > 0 {
                        lemma_single_flatten(b.take(v as int));
                    } else {
                        assert(valid.flatten() =~= Seq::<u8>::empty());
                    }
                    let out = valid.flatten() + replacement() + lossy_bytes(rest);
                    assert(lossy_bytes(b) == out);
                    assert forall|i: int| 0 <= i < out.len() implies out[i] != 10 && out[i] != 13 by {
                        if i < valid.flatten().len() {
                            assert(out[i] == b[i]);
                        } else if i < valid.flatten().len() + 3 {
                        } else {
                            assert(out[i] == lossy_bytes(rest)[i - valid.flatten().len() - 3]);
                        }
                    }
                } else {
                    assert(lossy_chunks(b) =~= Seq::<Seq<u8>>::empty());
                }
            },
        }
    }
}

/// One piece of lossily decoded text.
pub enum LossyChunk<'a> {
    /// A run of bytes that is valid UTF-8, borrowed from the input.
    Valid(&'a [u8]),
    /// One replacement character, standing for an invalid sequence.
    Replacement,
}

impl<'a> LossyChunk<'a> {
    pub open spec fn spec_bytes(&self) -> Seq<u8> {
        match self {
            LossyChunk::Valid(s) => s@,
            LossyChunk::Replacement => replacement(),
        }
    }

    /// The bytes of the chunk, as UTF-8.
    pub fn to_vec(&self) -> (r: Vec<u8>)
        ensures
            r@ == self.spec_bytes(),
    {
        match self {
            LossyChunk::Valid(s) => vstd::slice::slice_to_vec(s),
            LossyChunk::Replacement => vec![0xEFu8, 0xBFu8, 0xBDu8],
        }
    }
}

/// Decodes a byte slice into valid UTF-8 chunks, one at a time, never failing.
pub struct LossyUtf8<'a> {
    bytes: &'a [u8],
    pos: usize,
    in_replacement: bool,
}

impl<'a> LossyUtf8<'a> {
    pub closed spec fn wf(&self) -> bool {
        self.pos <= self.bytes@.len()
    }

    /// The chunks still to come.
    pub closed spec fn remaining(&self) -> Seq<Seq<u8>> {
        let pending = if self.in_replacement { seq![replacement()] } else { seq![] };
        pending + lossy_chunks(self.bytes@.skip(self.pos as int))
    }

    pub fn new(bytes: &'a [u8]) -> (r: Self)
        ensures
            r.wf(),
            r.remaining() == lossy_chunks(bytes@),
    {
        let r = LossyUtf8 { bytes, pos: 0, in_replacement: false };
        assert(bytes@.skip(0) == bytes@);
        r
    }

    /// Yields the next chunk, or `None` once the input is used up.
    pub fn next(&mut self) -> (r: Option<LossyChunk<'a>>)
        requires
            old(self).wf(),
        ensures
            final(self).wf(),
            old(self).remaining().len() == 0 ==> r.is_none(),
            old(self).remaining().len() > 0 ==> r.is_some() && r.unwrap().spec_bytes()
                == old(self).remaining()[0] && final(self).remaining()
                == old(self).remaining().drop_first(),
    {
        let ghost rest = self.bytes@.skip(self.pos as int);
        if self.in_replacement {
            self.in_replacement = false;
            assert(old(self).remaining().drop_first() =~= self.remaining());
            return Some(LossyChunk::Replacement);
        }
        assert(old(self).remaining() =~= lossy_chunks(rest));
        let len = self.bytes.len();
        if self.pos == len {
            return None;
        }
        let tail = vstd::slice::slice_subrange(self.bytes, self.pos, len);
        assert(tail@ =~= rest);
        match check_utf8(tail) {
            None => {
                self.pos = len;
                assert(self.bytes@.skip(len as int) =~= Seq::<u8>::empty());
                Some(LossyChunk::Valid(tail))
            },
            Some((v, el)) => {
                let n: usize = match el {
                    None => 1,
                    Some(n) => n,
                };
                let start = self.pos;
                self.pos = start + v + n;
                assert(self.bytes@.skip(self.pos as int) =~= rest.skip((v + n) as int));
                if v > 0 {
                    self.in_replacement = true;
                    let valid = vstd::slice::slice_subrange(self.bytes, start, start + v);
                    assert(valid@ =~= rest.take(v as int));
                    assert(old(self).remaining().drop_first() =~= self.remaining());
                    Some(LossyChunk::Valid(valid))
                } else {
                    assert(old(self).remaining().drop_first() =~= self.remaining());
                    Some(LossyChunk::Replacement)
                }
            },
        }
    }
}

} // verus!
