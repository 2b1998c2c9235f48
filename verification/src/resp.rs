//! The RESP codec: an encoder that writes the canonical wire form of any
//! object into a byte buffer, and a streaming decoder that reads objects one
//! at a time from a pull source of bytes without owning it.
//!
//! The wire grammar, at the specification level, is given by [`parse_obj`]:
//! an object is a bulk string (`$`), an array (`*`) or an integer (`:`).
//! The encoder's output is described by [`spec_encode`]. The two agree:
//! [`lemma_parse_of_encode`] shows that decoding an encoding yields the
//! original object and consumes exactly its encoding.

use vstd::prelude::*;

use crate::object::{obj_model, seq_model, ObjModel, Object};

verus! {

/// Carriage return.
pub const CR: u8 = 13;

/// Line feed.
pub const LF: u8 = 10;

/// Whether a byte is an ASCII digit.
pub open spec fn spec_is_digit(b: u8) -> bool {
    48 <= b <= 57
}

/// Returns whether a byte is an ASCII digit.
pub fn is_digit(b: u8) -> (r: bool)
    ensures
        r == spec_is_digit(b),
{
    48 <= b && b <= 57
}

/// Whether every byte of `s` is an ASCII digit.
pub open spec fn all_digits(s: Seq<u8>) -> bool {
    forall|i: int| 0 <= i < s.len() ==> spec_is_digit(#[trigger] s[i])
}

/// The length of the longest ASCII-digit prefix of `s`.
pub open spec fn digits_len(s: Seq<u8>) -> nat
    decreases s.len(),
{
    if s.len() == 0 || !spec_is_digit(s[0]) {
        0
    } else {
        1 + digits_len(s.skip(1))
    }
}

/// The value of a sequence of ASCII digits, read left to right.
pub open spec fn digits_val(s: Seq<u8>) -> int
    decreases s.len(),
{
    if s.len() == 0 {
        0
    } else {
        10 * digits_val(s.drop_last()) + (s.last() - 48)
    }
}

/// The ASCII-decimal representation of `n`, most significant digit first.
pub open spec fn dec_rep(n: nat) -> Seq<u8>
    decreases n,
{
    if n < 10 {
        seq![(n + 48) as u8]
    } else {
        dec_rep(n / 10).push((n % 10 + 48) as u8)
    }
}

/// The ASCII-decimal representation of a signed value.
pub open spec fn int_rep(i: int) -> Seq<u8> {
    if i < 0 {
        seq![45u8] + dec_rep((-i) as nat)
    } else {
        dec_rep(i as nat)
    }
}

/// The two-byte line terminator.
pub open spec fn crlf() -> Seq<u8> {
    seq![CR, LF]
}

/// The canonical wire form of an object.
pub open spec fn spec_encode(o: ObjModel) -> Seq<u8>
    decreases o,
{
    match o {
        ObjModel::SimpleString(s) => seq![43u8] + s + crlf(),
        ObjModel::Error(s) => seq![45u8] + s + crlf(),
        ObjModel::Integer(i) => seq![58u8] + int_rep(i as int) + crlf(),
        ObjModel::BulkString(None) => seq![36u8, 45u8, 49u8] + crlf(),
        ObjModel::BulkString(Some(s)) => seq![36u8] + dec_rep(s.len()) + crlf() + s + crlf(),
        ObjModel::Array(es) => seq![42u8] + dec_rep(es.len()) + crlf() + encode_seq(es),
    }
}

/// The concatenated wire forms of a sequence of objects.
pub open spec fn encode_seq(es: Seq<ObjModel>) -> Seq<u8>
    decreases es,
{
    if es.len() == 0 {
        Seq::empty()
    } else {
        spec_encode(es.first()) + encode_seq(es.drop_first())
    }
}

/// Parse one object from the front of `s`. Returns the object and the number
/// of bytes consumed, or `None` when no object can be read (a malformed or
/// truncated input).
pub open spec fn parse_obj(s: Seq<u8>) -> Option<(ObjModel, int)>
    decreases s.len(), 0int, 1int,
{
    if s.len() == 0 {
        None
    } else if s[0] == 36 {
        parse_bulk(s)
    } else if s[0] == 42 {
        parse_arr(s)
    } else if s[0] == 58 {
        parse_int(s)
    } else {
        None
    }
}

/// Parse an integer object; defined for `s` starting with `:`.
pub open spec fn parse_int(s: Seq<u8>) -> Option<(ObjModel, int)> {
    let t = s.skip(1);
    let has_sign = t.len() > 0 && (t[0] == 43 || t[0] == 45);
    let neg = t.len() > 0 && t[0] == 45;
    let u = if has_sign {
        t.skip(1)
    } else {
        t
    };
    let d = digits_len(u) as int;
    if d == 0 {
        None
    } else if u.len() < d + 2 || u[d] != CR || u[d + 1] != LF {
        None
    } else {
        let m = digits_val(u.take(d));
        if m > i64::MAX {
            None
        } else {
            let v: int = if neg {
                -m
            } else {
                m
            };
            Some((ObjModel::Integer(v as i64), 1 + (if has_sign { 1int } else { 0int }) + d + 2))
        }
    }
}

/// Parse a bulk string object; defined for `s` starting with `$`.
pub open spec fn parse_bulk(s: Seq<u8>) -> Option<(ObjModel, int)> {
    let t = s.skip(1);
    if t.len() >= 4 && t[0] == 45 && t[1] == 49 && t[2] == CR && t[3] == LF {
        Some((ObjModel::BulkString(None), 5))
    } else {
        let d = digits_len(t) as int;
        if d == 0 {
            None
        } else if t.len() < d + 2 || t[d] != CR || t[d + 1] != LF {
            None
        } else {
            let n = digits_val(t.take(d));
            if n > u32::MAX {
                None
            } else if t.len() < d + 2 + n + 2 {
                None
            } else if t[d + 2 + n] != CR || t[d + 2 + n + 1] != LF {
                None
            } else {
                Some((ObjModel::BulkString(Some(t.subrange(d + 2, d + 2 + n))), 1 + d + 2 + n + 2))
            }
        }
    }
}

/// Parse an array object; defined for `s` starting with `*`.
pub open spec fn parse_arr(s: Seq<u8>) -> Option<(ObjModel, int)>
    decreases s.len(), 0int, 0int,
{
    if s.len() == 0 {
        None
    } else {
        let t = s.skip(1);
        let d = digits_len(t) as int;
        if d == 0 {
            None
        } else if t.len() < d + 2 || t[d] != CR || t[d + 1] != LF {
            None
        } else {
            let n = digits_val(t.take(d));
            if n > u32::MAX {
                None
            } else {
                match parse_elems(s.skip(1 + d + 2), n) {
                    Some((es, k)) => Some((ObjModel::Array(es), 1 + d + 2 + k)),
                    None => None,
                }
            }
        }
    }
}

/// Parse `n` consecutive objects from the front of `s`.
pub open spec fn parse_elems(s: Seq<u8>, n: int) -> Option<(Seq<ObjModel>, int)>
    decreases s.len(), n, 2int,
{
    if n <= 0 {
        Some((Seq::empty(), 0))
    } else {
        match parse_obj(s) {
            None => None,
            Some((o, k)) => if 1 <= k <= s.len() {
                match parse_elems(s.skip(k), n - 1) {
                    None => None,
                    Some((rest, k2)) => Some((seq![o] + rest, k + k2)),
                }
            } else {
                None
            },
        }
    }
}

/// The objects that the wire grammar can carry: bulk strings, arrays whose
/// elements it can carry, and integers above the smallest one (whose
/// magnitude has no in-range representation on the wire).
pub open spec fn wire_wf(o: ObjModel) -> bool
    decreases o,
{
    match o {
        ObjModel::Integer(i) => i != i64::MIN,
        ObjModel::BulkString(None) => true,
        ObjModel::BulkString(Some(s)) => s.len() <= u32::MAX,
        ObjModel::Array(es) => es.len() <= u32::MAX && forall|i: int|
            0 <= i < es.len() ==> wire_wf(#[trigger] es[i]),
        ObjModel::SimpleString(_) => false,
        ObjModel::Error(_) => false,
    }
}

/// The digit prefix is no longer than the sequence.
pub proof fn lemma_digits_len_le(s: Seq<u8>)
    ensures
        digits_len(s) <= s.len(),
    decreases s.len(),
{
    if s.len() > 0 && spec_is_digit(s[0]) {
        lemma_digits_len_le(s.skip(1));
    }
}

/// Every byte of the digit prefix is a digit, and the prefix is maximal.
pub proof fn lemma_digits_prefix(s: Seq<u8>)
    ensures
        digits_len(s) <= s.len(),
        forall|i: int| 0 <= i < digits_len(s) ==> spec_is_digit(#[trigger] s[i]),
        digits_len(s) == s.len() || !spec_is_digit(s[digits_len(s) as int]),
    decreases s.len(),
{
    if s.len() > 0 && spec_is_digit(s[0]) {
        lemma_digits_prefix(s.skip(1));
        assert forall|i: int| 1 <= i < digits_len(s) implies spec_is_digit(#[trigger] s[i]) by {
            assert(s.skip(1)[i - 1] == s[i]);
        }
    }
}

/// The digit prefix of an all-digit block followed by a non-digit (or by
/// nothing) is exactly the block.
pub proof fn lemma_digits_len_concat(d: Seq<u8>, r: Seq<u8>)
    requires
        forall|i: int| 0 <= i < d.len() ==> spec_is_digit(#[trigger] d[i]),
        r.len() == 0 || !spec_is_digit(r[0]),
    ensures
        digits_len(d + r) == d.len(),
    decreases d.len(),
{
    if d.len() == 0 {
        assert(d + r =~= r);
    } else {
        assert((d + r)[0] == d[0]);
        lemma_digits_len_concat(d.skip(1), r);
        assert((d + r).skip(1) =~= d.skip(1) + r);
    }
}

/// The value of an all-digit sequence is not negative.
pub proof fn lemma_digits_val_nonneg(s: Seq<u8>)
    requires
        forall|i: int| 0 <= i < s.len() ==> spec_is_digit(#[trigger] s[i]),
    ensures
        digits_val(s) >= 0,
    decreases s.len(),
{
    if s.len() > 0 {
        lemma_digits_val_nonneg(s.drop_last());
    }
}

/// The value of an all-digit sequence is at least the value of any prefix.
pub proof fn lemma_digits_val_prefix_le(s: Seq<u8>, j: int)
    requires
        forall|i: int| 0 <= i < s.len() ==> spec_is_digit(#[trigger] s[i]),
        0 <= j <= s.len(),
    ensures
        digits_val(s.take(j)) <= digits_val(s),
    decreases s.len(),
{
    if j == s.len() {
        assert(s.take(j) =~= s);
    } else {
        lemma_digits_val_nonneg(s.drop_last());
        assert(s.drop_last().take(j) =~= s.take(j));
        lemma_digits_val_prefix_le(s.drop_last(), j);
    }
}

/// The decimal representation is a non-empty block of digits with the
/// represented value.
pub proof fn lemma_dec_rep(n: nat)
    ensures
        dec_rep(n).len() >= 1,
        forall|i: int| 0 <= i < dec_rep(n).len() ==> spec_is_digit(#[trigger] dec_rep(n)[i]),
        digits_val(dec_rep(n)) == n,
    decreases n,
{
    if n < 10 {
        let s = dec_rep(n);
        assert(s.drop_last() =~= Seq::<u8>::empty());
        assert(digits_val(s) == 10 * digits_val(s.drop_last()) + (s.last() - 48));
    } else {
        lemma_dec_rep(n / 10);
        let p = dec_rep(n / 10);
        let s = dec_rep(n);
        assert(s == p.push((n % 10 + 48) as u8));
        assert(s.drop_last() =~= p);
        assert(s.last() == (n % 10 + 48) as u8);
        assert(digits_val(s) == 10 * (n / 10) + n % 10);
    }
}

/// Decoding an encoding yields the original object and consumes exactly its
/// encoding, whatever bytes follow. This is the codec round trip in both
/// directions at once: the decoder returns the encoded object, and the bytes
/// it consumes are byte-identical to the canonical wire form.
#[verifier::rlimit(50)]
pub proof fn lemma_parse_of_encode(o: ObjModel, rest: Seq<u8>)
    requires
        wire_wf(o),
    ensures
        parse_obj(spec_encode(o) + rest) == Some((o, spec_encode(o).len() as int)),
    decreases o, 0int,
{
    let e = spec_encode(o);
    let s = e + rest;
    match o {
        ObjModel::Integer(i) => {
            assert(s[0] == 58);
            let t = s.skip(1);
            if i >= 0 {
                let p = dec_rep(i as nat);
                lemma_dec_rep(i as nat);
                assert(t =~= p + (crlf() + rest));
                lemma_digits_len_concat(p, crlf() + rest);
                let d = digits_len(t) as int;
                assert(d == p.len());
                assert(t[0] == p[0]);
                assert(t[d] == CR && t[d + 1] == LF);
                assert(t.take(d) =~= p);
                assert(parse_int(s) == Some((ObjModel::Integer(i), 1 + d + 2)));
                assert(e.len() == 1 + d + 2);
            } else {
                let p = dec_rep((-i) as nat);
                lemma_dec_rep((-i) as nat);
                assert(t =~= seq![45u8] + (p + (crlf() + rest)));
                assert(t[0] == 45);
                let u = t.skip(1);
                assert(u =~= p + (crlf() + rest));
                lemma_digits_len_concat(p, crlf() + rest);
                let d = digits_len(u) as int;
                assert(d == p.len());
                assert(u[d] == CR && u[d + 1] == LF);
                assert(u.take(d) =~= p);
                assert(digits_val(u.take(d)) == -i);
                assert(parse_int(s) == Some((ObjModel::Integer(i), 1 + 1 + d + 2)));
                assert(e.len() == 1 + 1 + d + 2);
            }
        },
        ObjModel::BulkString(None) => {
            assert(s[0] == 36);
            let t = s.skip(1);
            assert(t =~= seq![45u8, 49u8, CR, LF] + rest);
            assert(t[0] == 45 && t[1] == 49 && t[2] == CR && t[3] == LF);
            assert(parse_bulk(s) == Some((ObjModel::BulkString(None::<Seq<u8>>), 5int)));
            assert(e.len() == 5);
        },
        ObjModel::BulkString(Some(b)) => {
            assert(s[0] == 36);
            let t = s.skip(1);
            let p = dec_rep(b.len());
            lemma_dec_rep(b.len());
            assert(t =~= p + (crlf() + b + crlf() + rest));
            lemma_digits_len_concat(p, crlf() + b + crlf() + rest);
            let d = digits_len(t) as int;
            assert(d == p.len());
            assert(t[0] == p[0]);
            assert(!(t[0] == 45));
            assert(t[d] == CR && t[d + 1] == LF);
            assert(t.take(d) =~= p);
            let n = digits_val(t.take(d));
            assert(n == b.len());
            assert(t.len() == d + 2 + n + 2 + rest.len());
            assert(t[d + 2 + n] == CR && t[d + 2 + n + 1] == LF);
            assert(t.subrange(d + 2, d + 2 + n) =~= b);
            assert(parse_bulk(s) == Some((ObjModel::BulkString(Some(b)), 1 + d + 2 + n + 2)));
            assert(e.len() == 1 + d + 2 + n + 2);
        },
        ObjModel::Array(es) => {
            assert(s[0] == 42);
            let t = s.skip(1);
            let p = dec_rep(es.len());
            lemma_dec_rep(es.len());
            assert(t =~= p + (crlf() + encode_seq(es) + rest));
            lemma_digits_len_concat(p, crlf() + encode_seq(es) + rest);
            let d = digits_len(t) as int;
            assert(d == p.len());
            assert(t[d] == CR && t[d + 1] == LF);
            assert(t.take(d) =~= p);
            let n = digits_val(t.take(d));
            assert(n == es.len());
            assert(s.skip(1 + d + 2) =~= encode_seq(es) + rest);
            lemma_parse_elems_of_encode(es, rest);
            assert(parse_arr(s) == Some((ObjModel::Array(es), 1 + d + 2 + encode_seq(es).len())));
            assert(e.len() == 1 + d + 2 + encode_seq(es).len());
        },
        ObjModel::SimpleString(_) => {},
        ObjModel::Error(_) => {},
    }
}

/// Decoding the concatenated encodings of `n` objects yields those objects
/// and consumes exactly the concatenation.
pub proof fn lemma_parse_elems_of_encode(es: Seq<ObjModel>, rest: Seq<u8>)
    requires
        forall|i: int| 0 <= i < es.len() ==> wire_wf(#[trigger] es[i]),
    ensures
        parse_elems(encode_seq(es) + rest, es.len() as int) == Some(
            (es, encode_seq(es).len() as int),
        ),
    decreases es, 1int,
{
    if es.len() == 0 {
        assert(encode_seq(es) + rest =~= rest);
        assert(es =~= Seq::<ObjModel>::empty());
    } else {
        let e0 = spec_encode(es.first());
        let etail = encode_seq(es.drop_first());
        assert(encode_seq(es) == e0 + etail);
        let s = encode_seq(es) + rest;
        assert(s =~= e0 + (etail + rest));
        lemma_parse_of_encode(es.first(), etail + rest);
        lemma_encode_len_min(es.first());
        let k = e0.len() as int;
        assert(parse_obj(s) == Some((es.first(), k)));
        assert(1 <= k <= s.len());
        assert(s.skip(k) =~= etail + rest);
        assert(forall|i: int|
            0 <= i < es.drop_first().len() ==> wire_wf(#[trigger] es.drop_first()[i]));
        lemma_parse_elems_of_encode(es.drop_first(), rest);
        assert(parse_elems(s.skip(k), es.len() - 1) == Some((es.drop_first(), etail.len() as int)));
        assert(seq![es.first()] + es.drop_first() =~= es);
        assert(parse_elems(s, es.len() as int) == Some((es, (k + etail.len()) as int)));
    }
}

/// Every wire form is at least one byte long.
pub proof fn lemma_encode_len_min(o: ObjModel)
    ensures
        spec_encode(o).len() >= 3,
{
    match o {
        ObjModel::Integer(i) => {
            if i < 0 {
                lemma_dec_rep((-i) as nat);
            } else {
                lemma_dec_rep(i as nat);
            }
        },
        ObjModel::BulkString(Some(s)) => {
            lemma_dec_rep(s.len());
        },
        ObjModel::Array(es) => {
            lemma_dec_rep(es.len());
        },
        _ => {},
    }
}

/// A pull source of bytes. The specification value [`ByteSource::pending`]
/// is the sequence of bytes the source will deliver before the end of the
/// stream; a blocking socket read and an in-memory buffer both fit it.
pub trait ByteSource {
    /// The bytes not yet delivered. An implementation outside the verified
    /// world may leave this unstated; nothing is then known of what its
    /// reads return, which costs its callers nothing unless they carry
    /// proofs themselves.
    open spec fn pending(&self) -> Seq<u8> {
        Seq::empty()
    }

    /// Deliver the next chunk: a non-empty prefix of the pending bytes, or
    /// nothing exactly when the stream has ended.
    fn read_some(&mut self) -> (r: Vec<u8>)
        ensures
            r@.len() <= old(self).pending().len(),
            r@ == old(self).pending().take(r@.len() as int),
            final(self).pending() == old(self).pending().skip(r@.len() as int),
            (r@.len() == 0) == (old(self).pending().len() == 0),
    ;
}

/// An in-memory byte source that delivers at most `chunk` bytes per read;
/// a chunk of zero acts as one. Feeding a decoder through a small chunk
/// exercises its streaming: any splitting of the input must decode alike.
pub struct BufferSource {
    /// The whole input.
    pub data: Vec<u8>,
    /// How many bytes were already delivered.
    pub pos: usize,
    /// The most bytes one read delivers.
    pub chunk: usize,
}

impl BufferSource {
    /// A source that will deliver `data`, at most `chunk` bytes at a time.
    pub fn new(data: Vec<u8>, chunk: usize) -> (r: Self)
        ensures
            r.pending() == data@,
    {
        BufferSource { data, pos: 0, chunk }
    }
}

impl ByteSource for BufferSource {
    open spec fn pending(&self) -> Seq<u8> {
        if self.pos <= self.data@.len() {
            self.data@.skip(self.pos as int)
        } else {
            Seq::empty()
        }
    }

    #[verifier::loop_isolation(false)]
    fn read_some(&mut self) -> (r: Vec<u8>) {
        if self.pos >= self.data.len() {
            let r: Vec<u8> = Vec::new();
            proof {
                assert(old(self).pending() =~= Seq::<u8>::empty());
                assert(r@ =~= old(self).pending().take(0));
                assert(self.pending() =~= old(self).pending().skip(0));
            }
            r
        } else {
            let avail = self.data.len() - self.pos;
            let step: usize = if self.chunk == 0 {
                1
            } else {
                self.chunk
            };
            let take: usize = if step < avail {
                step
            } else {
                avail
            };
            let mut r: Vec<u8> = Vec::new();
            let mut i: usize = 0;
            while i < take
                invariant
                    i <= take,
                    *self == *old(self),
                    r@.len() == i,
                    forall|j: int| 0 <= j < i ==> r@[j] == self.data@[self.pos + j],
                decreases take - i,
            {
                r.push(self.data[self.pos + i]);
                i += 1;
            }
            self.pos = self.pos + take;
            proof {
                assert(r@ =~= old(self).pending().take(take as int));
                assert(self.pending() =~= old(self).pending().skip(take as int));
            }
            r
        }
    }
}

/// Holds a buffered read of a stream, so that the bytes of a stream can be
/// walked one at a time without taking ownership of the stream: the same
/// stream can be written to between objects.
pub struct ReadState {
    /// Bytes that have been read and not yet consumed, from `offset` on.
    pub buffer: Vec<u8>,
    /// Offset in `buffer` of the current byte.
    pub offset: usize,
    /// Whether the source may still deliver bytes; set to false once a read
    /// returns nothing.
    pub can_read_more: bool,
}

impl ReadState {
    /// The buffer is consistent.
    pub open spec fn wf(&self) -> bool {
        self.offset <= self.buffer@.len()
    }

    /// The buffered bytes not yet consumed.
    pub open spec fn buffered(&self) -> Seq<u8> {
        self.buffer@.skip(self.offset as int)
    }

    /// Create a new `ReadState` with nothing buffered.
    pub fn new() -> (r: Self)
        ensures
            r.wf(),
            r.buffered() == Seq::<u8>::empty(),
            r.can_read_more,
    {
        let r = ReadState { buffer: Vec::new(), offset: 0, can_read_more: true };
        proof {
            assert(r.buffered() =~= Seq::<u8>::empty());
        }
        r
    }

    /// Advance past the current byte; meaningful only when one is buffered.
    pub fn advance(&mut self)
        requires
            old(self).wf(),
            old(self).offset < old(self).buffer@.len(),
        ensures
            final(self).wf(),
            final(self).buffer == old(self).buffer,
            final(self).can_read_more == old(self).can_read_more,
            final(self).buffered() == old(self).buffered().skip(1),
    {
        if self.offset < self.buffer.len() {
            self.offset += 1;
        }
        proof {
            assert(self.buffered() =~= old(self).buffered().skip(1));
        }
    }

    /// Get the current byte, if there is one. This may read from the stream
    /// when the buffer is exhausted. If a read returns no bytes the stream
    /// is marked closed, no further reads happen, and `current` returns
    /// `None`.
    pub fn current<S: ByteSource>(&mut self, stream: &mut S) -> (r: Option<u8>)
        requires
            linked(*old(self), *old(stream)),
        ensures
            linked(*final(self), *final(stream)),
            stream_rem(*final(self), *final(stream)) == stream_rem(*old(self), *old(stream)),
            r == (if stream_rem(*old(self), *old(stream)).len() > 0 {
                Some(stream_rem(*old(self), *old(stream))[0])
            } else {
                None::<u8>
            }),
            r is Some ==> final(self).offset < final(self).buffer@.len(),
    {
        if self.offset < self.buffer.len() {
            let b = self.buffer[self.offset];
            proof {
                assert(self.buffered()[0] == b);
                assert(stream_rem(*self, *stream)[0] == b);
            }
            Some(b)
        } else if self.can_read_more {
            proof {
                assert(old(self).buffered() =~= Seq::<u8>::empty());
            }
            let chunk = stream.read_some();
            let got = chunk.len();
            self.buffer = chunk;
            self.offset = 0;
            self.can_read_more = got > 0;
            proof {
                assert(self.buffered() =~= self.buffer@);
                assert(old(stream).pending().take(got as int) + old(stream).pending().skip(
                    got as int,
                ) =~= old(stream).pending());
                assert(stream_rem(*self, *stream) =~= stream_rem(*old(self), *old(stream)));
            }
            if self.buffer.len() > 0 {
                let b = self.buffer[0];
                proof {
                    assert(stream_rem(*old(self), *old(stream))[0] == b);
                }
                Some(b)
            } else {
                None
            }
        } else {
            proof {
                assert(old(self).buffered() =~= Seq::<u8>::empty());
                assert(stream_rem(*old(self), *old(stream)).len() == 0);
            }
            None
        }
    }
}

/// The bytes still to be decoded: what is buffered, then what the source
/// will deliver.
pub open spec fn stream_rem<S: ByteSource>(state: ReadState, src: S) -> Seq<u8> {
    state.buffered() + src.pending()
}

/// A read state fits a source: the buffer is consistent, and a source that
/// was seen to end delivers nothing more.
pub open spec fn linked<S: ByteSource>(state: ReadState, src: S) -> bool {
    state.wf() && (state.can_read_more || src.pending().len() == 0)
}

/// Codec round trip: decoding the canonical wire form of a well-formed
/// object yields that object back and consumes the form whole, so encoding
/// what was decoded gives the input bytes again.
pub proof fn lemma_round_trip(o: ObjModel)
    requires
        wire_wf(o),
    ensures
        parse_obj(spec_encode(o)) == Some((o, spec_encode(o).len() as int)),
{
    lemma_parse_of_encode(o, Seq::empty());
    assert(spec_encode(o) + Seq::<u8>::empty() =~= spec_encode(o));
}

/// Decoder framing: on the concatenation of two encodings the decoder
/// returns the first object, stops exactly at the boundary, and then returns
/// the second. The decoder's contract is stated over the remaining byte
/// sequence alone, so this holds however the bytes are split into read
/// chunks.
pub proof fn lemma_framing(a: ObjModel, b: ObjModel)
    requires
        wire_wf(a),
        wire_wf(b),
    ensures
        parse_obj(spec_encode(a) + spec_encode(b)) == Some((a, spec_encode(a).len() as int)),
        (spec_encode(a) + spec_encode(b)).skip(spec_encode(a).len() as int) == spec_encode(b),
        parse_obj(spec_encode(b)) == Some((b, spec_encode(b).len() as int)),
{
    lemma_parse_of_encode(a, spec_encode(b));
    assert((spec_encode(a) + spec_encode(b)).skip(spec_encode(a).len() as int) =~= spec_encode(
        b,
    ));
    lemma_round_trip(b);
}

/// A lowercase hexadecimal digit.
pub open spec fn hex_digit(d: u8) -> u8 {
    if d < 10 {
        (48 + d) as u8
    } else {
        (87 + d) as u8
    }
}

/// The shortest lowercase hexadecimal form of a byte.
pub open spec fn hex_rep(b: u8) -> Seq<u8> {
    if b < 16 {
        seq![hex_digit(b)]
    } else {
        seq![hex_digit(b / 16), hex_digit(b % 16)]
    }
}

/// The printable form of one byte: `\n` and `\r` written out, other control
/// bytes in hexadecimal, the rest as the character it is (in its eight-bit
/// text encoding).
pub open spec fn escape_byte(b: u8) -> Seq<u8> {
    if b == LF {
        seq![92u8, 110u8]
    } else if b == CR {
        seq![92u8, 114u8]
    } else if b < 32 {
        hex_rep(b)
    } else if b < 128 {
        seq![b]
    } else {
        seq![(192 + b / 64) as u8, (128 + b % 64) as u8]
    }
}

/// The printable form of a byte sequence.
pub open spec fn escape_bytes(s: Seq<u8>) -> Seq<u8>
    decreases s.len(),
{
    if s.len() == 0 {
        Seq::empty()
    } else {
        escape_bytes(s.drop_last()) + escape_byte(s.last())
    }
}

/// The printable form of a byte slice, for logging what went over the wire.
#[verifier::loop_isolation(false)]
pub fn display_byte_slice(bs: &[u8]) -> (r: Vec<u8>)
    ensures
        r@ == escape_bytes(bs@),
{
    let mut r: Vec<u8> = Vec::new();
    proof {
        assert(r@ =~= escape_bytes(bs@.take(0)));
    }
    let n = bs.len();
    let mut i: usize = 0;
    while i < n
        invariant
            i <= bs@.len(),
            n == bs@.len(),
            r@ == escape_bytes(bs@.take(i as int)),
        decreases bs@.len() - i,
    {
        let b = *vstd::slice::slice_index_get(bs, i);
        let ghost before = r@;
        if b == LF {
            r.push(92);
            r.push(110);
        } else if b == CR {
            r.push(92);
            r.push(114);
        } else if b < 32 {
            if b < 16 {
                r.push(if b < 10 {
                    48 + b
                } else {
                    87 + b
                });
            } else {
                let hi = b / 16;
                let lo = b % 16;
                r.push(if hi < 10 {
                    48 + hi
                } else {
                    87 + hi
                });
                r.push(if lo < 10 {
                    48 + lo
                } else {
                    87 + lo
                });
            }
        } else if b < 128 {
            r.push(b);
        } else {
            r.push(192 + b / 64);
            r.push(128 + b % 64);
        }
        proof {
            assert(r@ =~= before + escape_byte(b));
            assert(bs@.take(i + 1).drop_last() =~= bs@.take(i as int));
            assert(bs@.take(i + 1).last() == bs@[i as int]);
        }
        i += 1;
    }
    proof {
        assert(bs@.take(bs@.len() as int) =~= bs@);
    }
    r
}

/// Appending one object's wire form extends the encoding of a sequence.
pub proof fn lemma_encode_seq_snoc(es: Seq<ObjModel>, x: ObjModel)
    ensures
        encode_seq(es.push(x)) == encode_seq(es) + spec_encode(x),
    decreases es.len(),
{
    if es.len() == 0 {
        assert(es.push(x).first() == x);
        assert(es.push(x).drop_first() =~= Seq::<ObjModel>::empty());
        assert(encode_seq(es.push(x)) == spec_encode(x) + encode_seq(
            Seq::<ObjModel>::empty(),
        ));
        assert(spec_encode(x) + Seq::<u8>::empty() =~= Seq::<u8>::empty() + spec_encode(x));
    } else {
        assert(es.push(x).first() == es.first());
        assert(es.push(x).drop_first() =~= es.drop_first().push(x));
        lemma_encode_seq_snoc(es.drop_first(), x);
        assert(spec_encode(es.first()) + (encode_seq(es.drop_first()) + spec_encode(x)) =~= (
        spec_encode(es.first()) + encode_seq(es.drop_first())) + spec_encode(x));
    }
}

/// Append the decimal digits of `n`.
fn push_decimal(out: &mut Vec<u8>, n: u64)
    ensures
        final(out)@ == old(out)@ + dec_rep(n as nat),
    decreases n,
{
    if n < 10 {
        out.push((n as u8) + 48);
        proof {
            assert(out@ =~= old(out)@ + dec_rep(n as nat));
        }
    } else {
        push_decimal(out, n / 10);
        out.push(((n % 10) as u8) + 48);
        proof {
            assert(out@ =~= old(out)@ + dec_rep(n as nat));
        }
    }
}

/// Append all bytes of `v`.
#[verifier::loop_isolation(false)]
fn push_bytes(out: &mut Vec<u8>, v: &Vec<u8>)
    ensures
        final(out)@ == old(out)@ + v@,
{
    let mut i: usize = 0;
    while i < v.len()
        invariant
            i <= v@.len(),
            out@ == old(out)@ + v@.take(i as int),
        decreases v@.len() - i,
    {
        out.push(v[i]);
        proof {
            assert(old(out)@ + v@.take(i + 1) =~= (old(out)@ + v@.take(i as int)).push(
                v@[i as int],
            ));
        }
        i += 1;
    }
    proof {
        assert(v@.take(v@.len() as int) =~= v@);
    }
}

/// Serializes an object and appends its canonical wire form to `out`.
#[verifier::loop_isolation(false)]
pub fn serialize(out: &mut Vec<u8>, object: &Object)
    ensures
        final(out)@ == old(out)@ + spec_encode(obj_model(*object)),
    decreases object,
{
    broadcast use crate::object::lemma_obj_model_array;

    match object {
        Object::Array(elements) => {
            out.push(42);
            push_decimal(out, elements.items.len() as u64);
            out.push(CR);
            out.push(LF);
            let ghost es = seq_model(elements.items@);
            let ghost header = out@;
            proof {
                assert(encode_seq(es.take(0)) == Seq::<u8>::empty());
                assert(out@ =~= header + encode_seq(es.take(0)));
            }
            let mut i: usize = 0;
            while i < elements.items.len()
                invariant
                    i <= elements.items@.len(),
                    *object == Object::Array(*elements),
                    es == seq_model(elements.items@),
                    out@ == header + encode_seq(es.take(i as int)),
                decreases elements.items@.len() - i,
            {
                proof {
                    let oa = (*object)->Array_0;
                    assert(decreases_to!(*object => oa));
                    assert(decreases_to!(oa => oa.items));
                    assert(decreases_to!(oa.items => oa.items@[i as int]));
                    assert(oa.items@[i as int] == elements.items@[i as int]);
                }
                serialize(out, &elements.items[i]);
                proof {
                    assert(es.take(i + 1) =~= es.take(i as int).push(es[i as int]));
                    lemma_encode_seq_snoc(es.take(i as int), es[i as int]);
                    assert(out@ =~= header + encode_seq(es.take(i + 1)));
                }
                i += 1;
            }
            proof {
                assert(es.take(es.len() as int) =~= es);
                assert(out@ =~= old(out)@ + spec_encode(obj_model(*object)));
            }
        },
        Object::Integer(i) => {
            out.push(58);
            let v = *i;
            let m: u64 = if v >= 0 {
                v as u64
            } else {
                ((-(v + 1)) as u64) + 1
            };
            if v < 0 {
                out.push(45);
            }
            push_decimal(out, m);
            out.push(CR);
            out.push(LF);
            proof {
                assert(m as int == (if v < 0 {
                    -(v as int)
                } else {
                    v as int
                }));
                assert(out@ =~= old(out)@ + spec_encode(obj_model(*object)));
            }
        },
        Object::BulkString(Some(string)) => {
            out.push(36);
            push_decimal(out, string.len() as u64);
            out.push(CR);
            out.push(LF);
            push_bytes(out, string);
            out.push(CR);
            out.push(LF);
            proof {
                assert(out@ =~= old(out)@ + spec_encode(obj_model(*object)));
            }
        },
        Object::BulkString(None) => {
            out.push(36);
            out.push(45);
            out.push(49);
            out.push(CR);
            out.push(LF);
            proof {
                assert(out@ =~= old(out)@ + spec_encode(obj_model(*object)));
            }
        },
        Object::Error(message) => {
            out.push(45);
            push_bytes(out, message);
            out.push(CR);
            out.push(LF);
            proof {
                assert(out@ =~= old(out)@ + spec_encode(obj_model(*object)));
            }
        },
        Object::SimpleString(string) => {
            out.push(43);
            push_bytes(out, string);
            out.push(CR);
            out.push(LF);
            proof {
                assert(out@ =~= old(out)@ + spec_encode(obj_model(*object)));
            }
        },
    }
}

/// How a partial element parse extends to the whole: `prefix` elements were
/// already read using `used` bytes, and the rest is `tail`.
pub open spec fn compose_elems(
    prefix: Seq<ObjModel>,
    used: int,
    tail: Option<(Seq<ObjModel>, int)>,
) -> Option<(Seq<ObjModel>, int)> {
    match tail {
        None => None,
        Some((es, k)) => Some((prefix + es, used + k)),
    }
}

/// Deserializes an object read from a given stream.
pub fn deserialize_object<S: ByteSource>(state: &mut ReadState, stream: &mut S) -> (r: Result<
    Object,
    DecodeError,
>)
    requires
        linked(*old(state), *old(stream)),
    ensures
        linked(*final(state), *final(stream)),
        r is Ok ==> ({
            let rem0 = stream_rem(*old(state), *old(stream));
            parse_obj(rem0) matches Some(p) && obj_model(r->Ok_0) == p.0 && 1 <= p.1 <= rem0.len()
                && stream_rem(*final(state), *final(stream)) == rem0.skip(p.1)
        }),
        r is Err ==> parse_obj(stream_rem(*old(state), *old(stream))) is None,
        stream_rem(*old(state), *old(stream)).len() == 0 ==> r == Err::<Object, DecodeError>(
            DecodeError::UnexpectedEnd,
        ),
        ({
            let rem0 = stream_rem(*old(state), *old(stream));
            rem0.len() > 0 && rem0[0] != 36 && rem0[0] != 42 && rem0[0] != 58 ==> r == Err::<
                Object,
                DecodeError,
            >(DecodeError::UnknownTag(rem0[0]))
        }),
    decreases stream_rem(*old(state), *old(stream)).len(), 1int,
{
    let c = state.current(stream);
    match c {
        Some(b) => {
            if b == 36 {
                deserialize_bulk_string(state, stream)
            } else if b == 42 {
                deserialize_array(state, stream)
            } else if b == 58 {
                deserialize_integer(state, stream)
            } else {
                Err(DecodeError::UnknownTag(b))
            }
        },
        None => Err(DecodeError::UnexpectedEnd),
    }
}

/// One step of reading consecutive elements: consuming one more parsed
/// object extends the composition.
proof fn lemma_elems_step(
    r0: Seq<u8>,
    n: int,
    prefix: Seq<ObjModel>,
    used: int,
    j: int,
    m: ObjModel,
    k: int,
)
    requires
        0 <= j < n,
        0 <= used,
        used + k <= r0.len(),
        1 <= k,
        parse_obj(r0.skip(used)) == Some((m, k)),
        parse_elems(r0, n) == compose_elems(prefix, used, parse_elems(r0.skip(used), n - j)),
    ensures
        parse_elems(r0, n) == compose_elems(
            prefix + seq![m],
            used + k,
            parse_elems(r0.skip(used + k), n - j - 1),
        ),
{
    let cur = r0.skip(used);
    assert(cur.skip(k) =~= r0.skip(used + k));
    match parse_elems(r0.skip(used + k), n - j - 1) {
        None => {
            assert(parse_elems(cur, n - j) is None);
        },
        Some((rest, k2)) => {
            assert(parse_elems(cur, n - j) == Some((seq![m] + rest, k + k2)));
            assert(prefix + (seq![m] + rest) =~= (prefix + seq![m]) + rest);
        },
    }
}

/// Reads `n` consecutive objects from the input.
#[verifier::loop_isolation(false)]
fn read_elements<S: ByteSource>(state: &mut ReadState, stream: &mut S, n: u32) -> (r: Result<
    Vec<Object>,
    DecodeError,
>)
    requires
        linked(*old(state), *old(stream)),
    ensures
        linked(*final(state), *final(stream)),
        r is Ok ==> ({
            let rem0 = stream_rem(*old(state), *old(stream));
            parse_elems(rem0, n as int) matches Some(p) && seq_model(r->Ok_0@) == p.0 && 0 <= p.1
                <= rem0.len() && stream_rem(*final(state), *final(stream)) == rem0.skip(p.1)
        }),
        r is Err ==> parse_elems(stream_rem(*old(state), *old(stream)), n as int) is None,
    decreases stream_rem(*old(state), *old(stream)).len(), 2int,
{
    let ghost r0 = stream_rem(*old(state), *old(stream));
    let ghost nn = n as int;
    let mut items: Vec<Object> = Vec::new();
    let ghost mut used: int = 0;
    proof {
        assert(r0.skip(0) =~= r0);
        if parse_elems(r0, nn) is Some {
            assert(seq_model(items@) + parse_elems(r0, nn).unwrap().0 =~= parse_elems(
                r0,
                nn,
            ).unwrap().0);
        }
        assert(parse_elems(r0, nn) == compose_elems(seq_model(items@), 0, parse_elems(r0, nn)));
    }
    let count = n as usize;
    let mut j: usize = 0;
    while j < count
        invariant
            linked(*state, *stream),
            j <= count,
            nn == count,
            items@.len() == j,
            0 <= used <= r0.len(),
            stream_rem(*state, *stream) == r0.skip(used),
            parse_elems(r0, nn) == compose_elems(
                seq_model(items@),
                used,
                parse_elems(r0.skip(used), nn - j),
            ),
        decreases count - j,
    {
        let ghost cur = stream_rem(*state, *stream);
        let ghost prev_items = items@;
        let ghost prev_used = used;
        let el = match deserialize_object(state, stream) {
            Ok(o) => o,
            Err(e) => {
                proof {
                    assert(parse_elems(cur, nn - j) is None);
                }
                return Err(e);
            },
        };
        items.push(el);
        proof {
            let (m, k) = parse_obj(cur).unwrap();
            assert(obj_model(el) == m);
            assert(seq_model(items@) =~= seq_model(prev_items) + seq![m]);
            lemma_elems_step(r0, nn, seq_model(prev_items), prev_used, j as int, m, k);
            used = prev_used + k;
        }
        j += 1;
    }
    proof {
        assert(parse_elems(r0.skip(used), 0) == Some((Seq::<ObjModel>::empty(), 0int)));
        assert(seq_model(items@) + Seq::<ObjModel>::empty() =~= seq_model(items@));
        assert(parse_elems(r0, nn) == Some((seq_model(items@), used)));
    }
    Ok(items)
}

/// Deserializes an array object; the input must start with `*`.
#[verifier::rlimit(30)]
pub fn deserialize_array<S: ByteSource>(state: &mut ReadState, stream: &mut S) -> (r: Result<
    Object,
    DecodeError,
>)
    requires
        linked(*old(state), *old(stream)),
        stream_rem(*old(state), *old(stream)).len() > 0,
        stream_rem(*old(state), *old(stream))[0] == 42,
    ensures
        linked(*final(state), *final(stream)),
        r is Ok ==> ({
            let rem0 = stream_rem(*old(state), *old(stream));
            parse_arr(rem0) matches Some(p) && obj_model(r->Ok_0) == p.0 && 1 <= p.1 <= rem0.len()
                && stream_rem(*final(state), *final(stream)) == rem0.skip(p.1)
        }),
        r is Err ==> parse_arr(stream_rem(*old(state), *old(stream))) is None,
    decreases stream_rem(*old(state), *old(stream)).len(), 0int,
{
    let ghost rem0 = stream_rem(*old(state), *old(stream));
    let _tag = state.current(stream);
    state.advance();
    proof {
        assert(stream_rem(*state, *stream) =~= rem0.skip(1));
    }
    let ghost t = rem0.skip(1);
    let ghost d = digits_len(t) as int;
    proof {
        lemma_digits_len_le(t);
        lemma_digits_prefix(t);
    }
    let digits = read_digits(state, stream);
    proof {
        assert(digits@ == t.take(d));
        assert(forall|i: int| 0 <= i < d ==> #[trigger] digits@[i] == t[i]);
    }
    let n = match parse_u32(&digits) {
        Some(n) => n,
        None => {
            proof {
                assert(all_digits(digits@));
                if digits@.len() != 0 {
                    assert(digits_val(t.take(d)) > u32::MAX);
                }
            }
            return Err(DecodeError::InvalidNumber);
        },
    };
    let del = expect_delimiter(state, stream);
    proof {
        if del is Ok {
            assert(t.skip(d)[0] == t[d]);
            assert(t.skip(d)[1] == t[d + 1]);
        } else {
            if t.len() >= d + 2 {
                assert(t.skip(d)[0] == t[d]);
                assert(t.skip(d)[1] == t[d + 1]);
            }
        }
    }
    if let Err(e) = del {
        return Err(e);
    }
    proof {
        assert(t.skip(d).skip(2) =~= t.skip(d + 2));
    }
    let ghost r0 = t.skip(d + 2);
    proof {
        assert(r0 =~= rem0.skip(1 + d + 2));
    }
    let elements = read_elements(state, stream, n);
    match elements {
        Ok(items) => {
            proof {
                let (es, k) = parse_elems(r0, n as int).unwrap();
                assert(parse_arr(rem0) == Some((ObjModel::Array(es), 1 + d + 2 + k)));
                assert(r0.skip(k) =~= rem0.skip(1 + d + 2 + k));
            }
            Ok(Object::new_array(items))
        },
        Err(e) => {
            proof {
                assert(parse_elems(rem0.skip(1 + d + 2), n as int) is None);
            }
            Err(e)
        },
    }
}

/// Deserializes an integer object; the input must start with `:`.
pub fn deserialize_integer<S: ByteSource>(state: &mut ReadState, stream: &mut S) -> (r: Result<
    Object,
    DecodeError,
>)
    requires
        linked(*old(state), *old(stream)),
        stream_rem(*old(state), *old(stream)).len() > 0,
        stream_rem(*old(state), *old(stream))[0] == 58,
    ensures
        linked(*final(state), *final(stream)),
        r is Ok ==> ({
            let rem0 = stream_rem(*old(state), *old(stream));
            parse_int(rem0) matches Some(p) && obj_model(r->Ok_0) == p.0 && 1 <= p.1 <= rem0.len()
                && stream_rem(*final(state), *final(stream)) == rem0.skip(p.1)
        }),
        r is Err ==> parse_int(stream_rem(*old(state), *old(stream))) is None,
{
    let ghost rem0 = stream_rem(*old(state), *old(stream));
    let _tag = state.current(stream);
    state.advance();
    proof {
        assert(stream_rem(*state, *stream) =~= rem0.skip(1));
    }
    let ghost t = rem0.skip(1);
    let mut sign: Option<u8> = None;
    let peek = state.current(stream);
    match peek {
        Some(b) => {
            if b == 43 || b == 45 {
                state.advance();
                sign = Some(b);
                proof {
                    assert(stream_rem(*state, *stream) =~= t.skip(1));
                }
            }
        },
        None => {},
    }
    let ghost u = if sign is Some {
        t.skip(1)
    } else {
        t
    };
    let ghost d = digits_len(u) as int;
    proof {
        assert(stream_rem(*state, *stream) == u);
        lemma_digits_len_le(u);
        lemma_digits_prefix(u);
    }
    let digits = read_digits(state, stream);
    proof {
        assert(digits@ == u.take(d));
        assert(forall|i: int| 0 <= i < d ==> #[trigger] digits@[i] == u[i]);
    }
    let del = expect_delimiter(state, stream);
    proof {
        if del is Ok {
            if d < u.len() {
                assert(u.skip(d)[0] == u[d]);
            }
            assert(u.skip(d).len() >= 2);
            assert(u.skip(d)[1] == u[d + 1]);
        } else {
            if u.len() >= d + 2 {
                assert(u.skip(d)[0] == u[d]);
                assert(u.skip(d)[1] == u[d + 1]);
            }
        }
    }
    if let Err(e) = del {
        return Err(e);
    }
    let parsed = parse_i64(&digits);
    match parsed {
        None => {
            proof {
                assert(all_digits(digits@));
                if digits@.len() != 0 {
                    assert(digits_val(u.take(d)) > i64::MAX);
                }
            }
            Err(DecodeError::InvalidNumber)
        },
        Some(v) => {
            let value: i64 = match sign {
                Some(45) => -v,
                _ => v,
            };
            proof {
                let consumed = 1 + (if sign is Some {
                    1int
                } else {
                    0int
                }) + d + 2;
                assert(u.skip(d).skip(2) =~= u.skip(d + 2));
                assert(u.skip(d + 2) =~= rem0.skip(consumed));
                assert(parse_int(rem0) == Some((ObjModel::Integer(value), consumed)));
            }
            Ok(Object::Integer(value))
        },
    }
}

/// Deserializes a bulk string object; the input must start with `$`. The
/// null bulk string `$-1\r\n` decodes to a `BulkString` holding nothing.
#[verifier::loop_isolation(false)]
#[verifier::rlimit(30)]
pub fn deserialize_bulk_string<S: ByteSource>(state: &mut ReadState, stream: &mut S) -> (r: Result<
    Object,
    DecodeError,
>)
    requires
        linked(*old(state), *old(stream)),
        stream_rem(*old(state), *old(stream)).len() > 0,
        stream_rem(*old(state), *old(stream))[0] == 36,
    ensures
        linked(*final(state), *final(stream)),
        r is Ok ==> ({
            let rem0 = stream_rem(*old(state), *old(stream));
            parse_bulk(rem0) matches Some(p) && obj_model(r->Ok_0) == p.0 && 1 <= p.1 <= rem0.len()
                && stream_rem(*final(state), *final(stream)) == rem0.skip(p.1)
        }),
        r is Err ==> parse_bulk(stream_rem(*old(state), *old(stream))) is None,
{
    let ghost rem0 = stream_rem(*old(state), *old(stream));
    let _tag = state.current(stream);
    state.advance();
    proof {
        assert(stream_rem(*state, *stream) =~= rem0.skip(1));
    }
    let ghost t = rem0.skip(1);
    let peek = state.current(stream);
    if peek == Some(45) {
        state.advance();
        proof {
            assert(stream_rem(*state, *stream) =~= t.skip(1));
        }
        let r1 = expect(state, stream, 49);
        proof {
            if t.len() >= 2 {
                assert(t.skip(1)[0] == t[1]);
            }
        }
        if let Err(e) = r1 {
            return Err(e);
        }
        proof {
            assert(t.skip(1).skip(1) =~= t.skip(2));
        }
        let r2 = expect_delimiter(state, stream);
        proof {
            if t.len() >= 4 {
                assert(t.skip(2)[0] == t[2]);
                assert(t.skip(2)[1] == t[3]);
            }
            assert(t.skip(2).len() == t.len() - 2);
        }
        if let Err(e) = r2 {
            return Err(e);
        }
        proof {
            assert(t.skip(2).skip(2) =~= rem0.skip(5));
            assert(parse_bulk(rem0) == Some((ObjModel::BulkString(None::<Seq<u8>>), 5int)));
        }
        return Ok(Object::BulkString(None));
    }
    let ghost d = digits_len(t) as int;
    proof {
        lemma_digits_len_le(t);
        lemma_digits_prefix(t);
        if t.len() > 0 {
            assert(t[0] != 45);
        }
    }
    let digits = read_digits(state, stream);
    proof {
        assert(digits@ == t.take(d));
        assert(forall|i: int| 0 <= i < d ==> #[trigger] digits@[i] == t[i]);
    }
    let n = match parse_u32(&digits) {
        Some(n) => n,
        None => {
            proof {
                assert(all_digits(digits@));
                if digits@.len() != 0 {
                    assert(digits_val(t.take(d)) > u32::MAX);
                }
            }
            return Err(DecodeError::InvalidNumber);
        },
    };
    proof {
        assert(d > 0);
        assert(spec_is_digit(t[0]));
    }
    let del = expect_delimiter(state, stream);
    proof {
        if del is Ok {
            assert(t.skip(d)[0] == t[d]);
            assert(t.skip(d)[1] == t[d + 1]);
        } else {
            if t.len() >= d + 2 {
                assert(t.skip(d)[0] == t[d]);
                assert(t.skip(d)[1] == t[d + 1]);
            }
        }
    }
    if let Err(e) = del {
        return Err(e);
    }
    proof {
        assert(t.skip(d).skip(2) =~= t.skip(d + 2));
    }
    let ghost tb = t.skip(d + 2);
    let mut string: Vec<u8> = Vec::new();
    proof {
        assert(string@ =~= tb.take(0));
    }
    let count = n as usize;
    let mut i: usize = 0;
    while i < count
        invariant
            linked(*state, *stream),
            i <= count,
            i <= tb.len(),
            string@.len() == i,
            string@ == tb.take(i as int),
            stream_rem(*state, *stream) == tb.skip(i as int),
        decreases count - i,
    {
        let c = state.current(stream);
        match c {
            Some(b) => {
                let ghost snap = *state;
                state.advance();
                string.push(b);
                proof {
                    assert(tb.skip(i as int)[0] == tb[i as int]);
                    assert(stream_rem(*state, *stream) =~= stream_rem(snap, *stream).skip(1));
                    assert(tb.skip(i as int).skip(1) =~= tb.skip(i + 1));
                    assert(string@ =~= tb.take(i + 1));
                }
            },
            None => {
                proof {
                    assert(tb.skip(i as int).len() == 0);
                    assert(t.len() == d + 2 + tb.len());
                    assert(t.len() < d + 2 + n + 2);
                }
                return Err(DecodeError::UnexpectedEnd);
            },
        }
        i += 1;
    }
    let fin = expect_delimiter(state, stream);
    proof {
        let after = tb.skip(n as int);
        assert(after.len() == tb.len() - n);
        if fin is Ok {
            assert(after[0] == t[d + 2 + n]);
            assert(after[1] == t[d + 2 + n + 1]);
        } else {
            if t.len() >= d + 2 + n + 2 {
                assert(after[0] == t[d + 2 + n]);
                assert(after[1] == t[d + 2 + n + 1]);
            }
        }
    }
    if let Err(e) = fin {
        return Err(e);
    }
    proof {
        let consumed = 1 + d + 2 + n + 2;
        assert(string@ =~= t.subrange(d + 2, d + 2 + n));
        assert(tb.skip(n as int).skip(2) =~= rem0.skip(consumed));
        assert(parse_bulk(rem0) == Some(
            (ObjModel::BulkString(Some(t.subrange(d + 2, d + 2 + n))), consumed),
        ));
        assert(obj_model(Object::BulkString(Some(string))) == ObjModel::BulkString(
            Some(string@),
        ));
    }
    Ok(Object::BulkString(Some(string)))
}

/// Advances the input if the current byte equals the expected byte. When the
/// bytes are unequal, or the input ended, an error is returned and nothing
/// is consumed.
pub fn expect<S: ByteSource>(state: &mut ReadState, stream: &mut S, expected: u8) -> (r: Result<
    (),
    DecodeError,
>)
    requires
        linked(*old(state), *old(stream)),
    ensures
        linked(*final(state), *final(stream)),
        ({
            let rem0 = stream_rem(*old(state), *old(stream));
            let rem1 = stream_rem(*final(state), *final(stream));
            match r {
                Ok(_) => rem0.len() > 0 && rem0[0] == expected && rem1 == rem0.skip(1),
                Err(_) => (rem0.len() == 0 || rem0[0] != expected) && rem1 == rem0,
            }
        }),
{
    let c = state.current(stream);
    match c {
        Some(b) => {
            if b == expected {
                state.advance();
                proof {
                    assert(stream_rem(*state, *stream) =~= stream_rem(
                        *old(state),
                        *old(stream),
                    ).skip(1));
                }
                Ok(())
            } else {
                Err(DecodeError::Unexpected { expected, found: b })
            }
        },
        None => Err(DecodeError::UnexpectedEnd),
    }
}

/// Advances the input past `\r\n`. Otherwise an error is returned.
pub fn expect_delimiter<S: ByteSource>(state: &mut ReadState, stream: &mut S) -> (r: Result<
    (),
    DecodeError,
>)
    requires
        linked(*old(state), *old(stream)),
    ensures
        linked(*final(state), *final(stream)),
        ({
            let rem0 = stream_rem(*old(state), *old(stream));
            let rem1 = stream_rem(*final(state), *final(stream));
            match r {
                Ok(_) => rem0.len() >= 2 && rem0[0] == CR && rem0[1] == LF && rem1 == rem0.skip(2),
                Err(_) => !(rem0.len() >= 2 && rem0[0] == CR && rem0[1] == LF),
            }
        }),
{
    let ghost rem0 = stream_rem(*old(state), *old(stream));
    expect(state, stream, CR)?;
    proof {
        assert(stream_rem(*state, *stream) == rem0.skip(1));
        assert(rem0.skip(1).len() == rem0.len() - 1);
    }
    let r = expect(state, stream, LF);
    proof {
        if r is Ok {
            assert(rem0.skip(1)[0] == rem0[1]);
            assert(rem0.skip(1).skip(1) =~= rem0.skip(2));
        } else {
            assert(rem0.len() >= 2 ==> rem0.skip(1)[0] == rem0[1]);
        }
    }
    r
}

/// Read the ASCII digits at the front of the input; consumes exactly the
/// digit prefix and returns it.
#[verifier::loop_isolation(false)]
pub fn read_digits<S: ByteSource>(state: &mut ReadState, stream: &mut S) -> (r: Vec<u8>)
    requires
        linked(*old(state), *old(stream)),
    ensures
        linked(*final(state), *final(stream)),
        ({
            let rem0 = stream_rem(*old(state), *old(stream));
            let rem1 = stream_rem(*final(state), *final(stream));
            r@ == rem0.take(digits_len(rem0) as int) && rem1 == rem0.skip(
                digits_len(rem0) as int,
            )
        }),
{
    let ghost rem0 = stream_rem(*old(state), *old(stream));
    let mut result: Vec<u8> = Vec::new();
    proof {
        assert(result@ =~= rem0.take(0));
    }
    loop
        invariant
            linked(*state, *stream),
            result@.len() <= rem0.len(),
            result@ == rem0.take(result@.len() as int),
            stream_rem(*state, *stream) == rem0.skip(result@.len() as int),
            digits_len(rem0) == result@.len() + digits_len(stream_rem(*state, *stream)),
            forall|j: int| 0 <= j < result@.len() ==> spec_is_digit(#[trigger] result@[j]),
        decreases rem0.len() - result@.len(),
    {
        let ghost cur = stream_rem(*state, *stream);
        let c = state.current(stream);
        match c {
            Some(b) => {
                if is_digit(b) {
                    state.advance();
                    result.push(b);
                    proof {
                        assert(cur[0] == b && spec_is_digit(b));
                        assert(digits_len(cur) == 1 + digits_len(cur.skip(1)));
                        assert(stream_rem(*state, *stream) =~= cur.skip(1));
                        assert(cur.skip(1) =~= rem0.skip(result@.len() as int));
                        assert(result@ =~= rem0.take(result@.len() as int));
                    }
                } else {
                    proof {
                        assert(digits_len(cur) == 0);
                    }
                    break ;
                }
            },
            None => {
                proof {
                    assert(cur.len() == 0);
                    assert(digits_len(cur) == 0);
                }
                break ;
            },
        }
    }
    result
}

/// Parse a byte vector of ASCII digits as a `u32`. `None` when the vector is
/// empty, holds a non-digit, or the value does not fit.
#[verifier::loop_isolation(false)]
pub fn parse_u32(s: &Vec<u8>) -> (r: Option<u32>)
    ensures
        match r {
            Some(n) => s@.len() > 0 && all_digits(s@) && digits_val(s@) == n,
            None => s@.len() == 0 || !all_digits(s@) || digits_val(s@) > u32::MAX,
        },
{
    if s.len() == 0 {
        return None;
    }
    let mut i: usize = 0;
    while i < s.len()
        invariant
            i <= s@.len(),
            forall|j: int| 0 <= j < i ==> spec_is_digit(#[trigger] s@[j]),
        decreases s@.len() - i,
    {
        if !is_digit(s[i]) {
            proof {
                assert(!spec_is_digit(s@[i as int]));
            }
            return None;
        }
        i += 1;
    }
    proof {
        assert(all_digits(s@));
    }
    let mut acc: u64 = 0;
    let mut i: usize = 0;
    while i < s.len()
        invariant
            i <= s@.len(),
            forall|j: int| 0 <= j < s@.len() ==> spec_is_digit(#[trigger] s@[j]),
            acc == digits_val(s@.take(i as int)),
            acc <= u32::MAX,
        decreases s@.len() - i,
    {
        let d = (s[i] - 48) as u64;
        proof {
            assert(s@.take(i + 1).drop_last() =~= s@.take(i as int));
            assert(s@.take(i + 1).last() == s@[i as int]);
            assert(digits_val(s@.take(i + 1)) == 10 * acc + d);
        }
        if acc > (u32::MAX as u64) / 10 {
            proof {
                lemma_digits_val_prefix_le(s@, i + 1);
            }
            return None;
        }
        acc = acc * 10 + d;
        if acc > u32::MAX as u64 {
            proof {
                lemma_digits_val_prefix_le(s@, i + 1);
            }
            return None;
        }
        i += 1;
    }
    proof {
        assert(s@.take(s@.len() as int) =~= s@);
    }
    Some(acc as u32)
}

/// Parse a byte vector of ASCII digits as a non-negative `i64`. `None` when
/// the vector is empty, holds a non-digit, or the value does not fit.
#[verifier::loop_isolation(false)]
pub fn parse_i64(s: &Vec<u8>) -> (r: Option<i64>)
    ensures
        match r {
            Some(n) => s@.len() > 0 && all_digits(s@) && digits_val(s@) == n && n >= 0,
            None => s@.len() == 0 || !all_digits(s@) || digits_val(s@) > i64::MAX,
        },
{
    if s.len() == 0 {
        return None;
    }
    let mut i: usize = 0;
    while i < s.len()
        invariant
            i <= s@.len(),
            forall|j: int| 0 <= j < i ==> spec_is_digit(#[trigger] s@[j]),
        decreases s@.len() - i,
    {
        if !is_digit(s[i]) {
            proof {
                assert(!spec_is_digit(s@[i as int]));
            }
            return None;
        }
        i += 1;
    }
    proof {
        assert(all_digits(s@));
    }
    let mut acc: u64 = 0;
    let mut i: usize = 0;
    while i < s.len()
        invariant
            i <= s@.len(),
            forall|j: int| 0 <= j < s@.len() ==> spec_is_digit(#[trigger] s@[j]),
            acc == digits_val(s@.take(i as int)),
            acc <= i64::MAX,
        decreases s@.len() - i,
    {
        let d = (s[i] - 48) as u64;
        proof {
            assert(s@.take(i + 1).drop_last() =~= s@.take(i as int));
            assert(s@.take(i + 1).last() == s@[i as int]);
            assert(digits_val(s@.take(i + 1)) == 10 * acc + d);
        }
        if acc > (i64::MAX as u64) / 10 {
            proof {
                lemma_digits_val_prefix_le(s@, i + 1);
            }
            return None;
        }
        acc = acc * 10 + d;
        if acc > i64::MAX as u64 {
            proof {
                lemma_digits_val_prefix_le(s@, i + 1);
            }
            return None;
        }
        i += 1;
    }
    proof {
        assert(s@.take(s@.len() as int) =~= s@);
    }
    Some(acc as i64)
}

/// Why a decode failed.
#[derive(Clone, Copy, Debug, PartialEq, Eq)]
pub enum DecodeError {
    /// The input ended where a byte was needed.
    UnexpectedEnd,
    /// The byte at the front begins no object.
    UnknownTag(u8),
    /// A byte differed from the one the grammar requires here.
    Unexpected { expected: u8, found: u8 },
    /// A length, count or integer did not parse as the declared number.
    InvalidNumber,
}

} // verus!
