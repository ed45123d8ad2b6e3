use vstd::prelude::*;
use vstd::utf8::encode_utf8;
use crate::frame::{
    frame_view, frames_view, keys_view, lemma_frames_view_len, lemma_values_view_len, values_view,
    BulkString, FrameV, RespArray, RespFrame, RespMap, RespNull, RespNullArray,
    RespNullBulkString, RespSet, SimpleError, SimpleString,
};

verus! {

/// The line terminator of the protocol.
pub open spec fn crlf() -> Seq<u8> {
    seq![13u8, 10u8]
}

/// The decimal digits of `n`, most significant first, without a sign.
pub open spec fn nat_digits(n: nat) -> Seq<u8>
    decreases n,
{
    if n < 10 {
        seq![(48 + n) as u8]
    } else {
        nat_digits(n / 10).push((48 + n % 10) as u8)
    }
}

/// A signed decimal with an explicit sign, as integers are written.
pub open spec fn signed_digits(i: int) -> Seq<u8> {
    if i < 0 {
        seq![45u8] + nat_digits((-i) as nat)
    } else {
        seq![43u8] + nat_digits(i as nat)
    }
}

/// A frame header: prefix byte, decimal count, terminator.
pub open spec fn header(prefix: u8, n: nat) -> Seq<u8> {
    seq![prefix] + nat_digits(n) + crlf()
}

/// A simple line: prefix byte, text, terminator.
pub open spec fn line(prefix: u8, text: Seq<u8>) -> Seq<u8> {
    seq![prefix] + text + crlf()
}

pub open spec fn null_bulk_bytes() -> Seq<u8> {
    seq![36u8, 45u8, 49u8, 13u8, 10u8]
}

pub open spec fn null_array_bytes() -> Seq<u8> {
    seq![42u8, 45u8, 49u8, 13u8, 10u8]
}

pub open spec fn null_bytes() -> Seq<u8> {
    seq![95u8, 13u8, 10u8]
}

pub open spec fn bool_bytes(b: bool) -> Seq<u8> {
    seq![35u8, if b { 116u8 } else { 102u8 }, 13u8, 10u8]
}

/// The exact bytes that stand for a frame on the wire.
pub open spec fn encoding(f: FrameV) -> Seq<u8>
    decreases f, 0int,
{
    match f {
        FrameV::SimpleString(s) => line(43u8, encode_utf8(s)),
        FrameV::Error(s) => line(45u8, encode_utf8(s)),
        FrameV::Integer(i) => line(58u8, signed_digits(i)),
        FrameV::BulkString(b) => match b {
            None => null_bulk_bytes(),
            Some(b) => header(36u8, b.len()) + b + crlf(),
        },
        FrameV::Array(a) => match a {
            None => null_array_bytes(),
            Some(s) => header(42u8, s.len()) + encodings(s),
        },
        FrameV::Null => null_bytes(),
        FrameV::Boolean(b) => bool_bytes(b),
        FrameV::Double(d) => line(44u8, d),
        FrameV::RespMap(ks, vs) => header(37u8, vs.len()) + entries_encoding(ks, vs),
        FrameV::RespSet(s) => header(126u8, s.len()) + encodings(s),
    }
}

/// The frames of `s`, encoded one after the other.
pub open spec fn encodings(s: Seq<FrameV>) -> Seq<u8>
    decreases s, 1int,
{
    if s.len() == 0 {
        Seq::empty()
    } else {
        encodings(s.drop_last()) + encoding(s.last())
    }
}

/// Map entries: each key as a simple string, then its value.
pub open spec fn entries_encoding(ks: Seq<Seq<char>>, vs: Seq<FrameV>) -> Seq<u8>
    decreases vs, 1int,
{
    if vs.len() == 0 {
        Seq::empty()
    } else {
        entries_encoding(ks.drop_last(), vs.drop_last()) + line(43u8, encode_utf8(ks.last()))
            + encoding(vs.last())
    }
}

/// Turning a value into its wire bytes.
pub trait RespEncode: Sized {
    /// The bytes that `encode` writes.
    spec fn spec_encoding(&self) -> Seq<u8>;

    fn encode(self) -> (r: Vec<u8>)
        ensures
            r@ == self.spec_encoding(),
    ;
}

fn push_crlf(out: &mut Vec<u8>)
    ensures
        final(out)@ == old(out)@ + crlf(),
{
    out.push(13u8);
    out.push(10u8);
    assert(final(out)@ =~= old(out)@ + crlf());
}

/// Appends the decimal digits of `n`.
fn push_decimal(out: &mut Vec<u8>, n: u64)
    ensures
        final(out)@ == old(out)@ + nat_digits(n as nat),
    decreases n,
{
    if n >= 10 {
        push_decimal(out, n / 10);
    }
    out.push(48u8 + (n % 10) as u8);
    assert(final(out)@ =~= old(out)@ + nat_digits(n as nat));
}

fn push_header(out: &mut Vec<u8>, prefix: u8, n: usize)
    ensures
        final(out)@ == old(out)@ + header(prefix, n as nat),
{
    out.push(prefix);
    push_decimal(out, n as u64);
    push_crlf(out);
    assert(final(out)@ =~= old(out)@ + header(prefix, n as nat));
}

fn push_bytes(out: &mut Vec<u8>, b: &[u8])
    ensures
        final(out)@ == old(out)@ + b@,
{
    out.extend_from_slice(b);
}

fn push_line(out: &mut Vec<u8>, prefix: u8, text: &[u8])
    ensures
        final(out)@ == old(out)@ + line(prefix, text@),
{
    out.push(prefix);
    push_bytes(out, text);
    push_crlf(out);
    assert(final(out)@ =~= old(out)@ + line(prefix, text@));
}

fn push_text_line(out: &mut Vec<u8>, prefix: u8, text: &String)
    ensures
        final(out)@ == old(out)@ + line(prefix, encode_utf8(text@)),
{
    let b = text.as_str().as_bytes();
    push_line(out, prefix, b);
}

fn push_integer(out: &mut Vec<u8>, i: i64)
    ensures
        final(out)@ == old(out)@ + line(58u8, signed_digits(i as int)),
{
    out.push(58u8);
    if i < 0 {
        out.push(45u8);
        let m: u64 = (-(i as i128)) as u64;
        push_decimal(out, m);
    } else {
        out.push(43u8);
        push_decimal(out, i as u64);
    }
    push_crlf(out);
    assert(final(out)@ =~= old(out)@ + line(58u8, signed_digits(i as int)));
}

fn push_frames(out: &mut Vec<u8>, frames: &Vec<RespFrame>)
    ensures
        final(out)@ == old(out)@ + encodings(frames_view(frames@)),
    decreases frames, 0int,
{
    let mut i: usize = 0;
    while i < frames.len()
        invariant
            i <= frames.len(),
            out@ == old(out)@ + encodings(frames_view(frames@.subrange(0, i as int))),
        decreases frames.len() - i,
    {
        proof {
            assert(decreases_to!(frames => frames@[i as int]));
        }
        frames[i].encode_into(out);
        proof {
            let s = frames@.subrange(0, i as int + 1);
            assert(s.drop_last() =~= frames@.subrange(0, i as int));
            assert(frames_view(s).drop_last() =~= frames_view(s.drop_last()));
        }
        i = i + 1;
    }
    assert(frames@.subrange(0, i as int) =~= frames@);
}

impl RespFrame {
    /// Appends the encoding of this frame to `out`.
    pub fn encode_into(&self, out: &mut Vec<u8>)
        ensures
            final(out)@ == old(out)@ + encoding(self@),
        decreases self, 1int,
    {
        match self {
            RespFrame::SimpleString(s) => push_text_line(out, 43u8, &s.0),
            RespFrame::Error(s) => push_text_line(out, 45u8, &s.0),
            RespFrame::Integer(i) => push_integer(out, *i),
            RespFrame::BulkString(b) => match &b.0 {
                None => {
                    out.push(36u8);
                    out.push(45u8);
                    out.push(49u8);
                    push_crlf(out);
                    assert(final(out)@ =~= old(out)@ + encoding(self@));
                },
                Some(v) => {
                    push_header(out, 36u8, v.len());
                    push_bytes(out, v.as_slice());
                    push_crlf(out);
                    assert(final(out)@ =~= old(out)@ + encoding(self@));
                },
            },
            RespFrame::Array(a) => match &a.0 {
                None => {
                    out.push(42u8);
                    out.push(45u8);
                    out.push(49u8);
                    push_crlf(out);
                    assert(final(out)@ =~= old(out)@ + encoding(self@));
                },
                Some(v) => {
                    push_header(out, 42u8, v.len());
                    push_frames(out, v);
                    proof {
                        lemma_frames_view_len(v@);
                    }
                    assert(final(out)@ =~= old(out)@ + encoding(self@));
                },
            },
            RespFrame::Null(_) => {
                out.push(95u8);
                push_crlf(out);
                assert(final(out)@ =~= old(out)@ + encoding(self@));
            },
            RespFrame::Boolean(b) => {
                out.push(35u8);
                out.push(if *b { 116u8 } else { 102u8 });
                push_crlf(out);
                assert(final(out)@ =~= old(out)@ + encoding(self@));
            },
            RespFrame::Double(d) => push_line(out, 44u8, d.as_slice()),
            RespFrame::RespMap(m) => {
                push_header(out, 37u8, m.entries.len());
                push_entries(out, m);
                proof {
                    lemma_values_view_len(m.entries@);
                }
                assert(final(out)@ =~= old(out)@ + encoding(self@));
            },
            RespFrame::RespSet(s) => {
                push_header(out, 126u8, s.0.len());
                push_frames(out, &s.0);
                proof {
                    lemma_frames_view_len(s.0@);
                }
                assert(final(out)@ =~= old(out)@ + encoding(self@));
            },
        }
    }
}

fn push_entries(out: &mut Vec<u8>, m: &RespMap)
    ensures
        final(out)@ == old(out)@ + entries_encoding(keys_view(m.entries@), values_view(m.entries@)),
    decreases m, 0int,
{
    let mut i: usize = 0;
    while i < m.entries.len()
        invariant
            i <= m.entries.len(),
            out@ == old(out)@ + entries_encoding(
                keys_view(m.entries@.subrange(0, i as int)),
                values_view(m.entries@.subrange(0, i as int)),
            ),
        decreases m.entries.len() - i,
    {
        proof {
            assert(decreases_to!(m => m.entries));
            assert(decreases_to!(m.entries => m.entries@[i as int]));
            assert(decreases_to!(m.entries@[i as int] => m.entries@[i as int].value));
        }
        push_text_line(out, 43u8, &m.entries[i].key);
        m.entries[i].value.encode_into(out);
        proof {
            let es = m.entries@.subrange(0, i as int + 1);
            assert(es.drop_last() =~= m.entries@.subrange(0, i as int));
            assert(keys_view(es).drop_last() =~= keys_view(es.drop_last()));
            assert(values_view(es).drop_last() =~= values_view(es.drop_last()));
            lemma_values_view_len(es);
        }
        i = i + 1;
    }
    assert(m.entries@.subrange(0, i as int) =~= m.entries@);
}

impl RespEncode for RespFrame {
    open spec fn spec_encoding(&self) -> Seq<u8> {
        encoding(self@)
    }

    fn encode(self) -> (r: Vec<u8>) {
        let mut out: Vec<u8> = Vec::new();
        self.encode_into(&mut out);
        assert(out@ =~= encoding(self@));
        out
    }
}

impl RespEncode for SimpleString {
    open spec fn spec_encoding(&self) -> Seq<u8> {
        encoding(FrameV::SimpleString(self.0@))
    }

    fn encode(self) -> (r: Vec<u8>) {
        let mut out: Vec<u8> = Vec::new();
        push_text_line(&mut out, 43u8, &self.0);
        assert(out@ =~= encoding(FrameV::SimpleString(self.0@)));
        out
    }
}

impl RespEncode for SimpleError {
    open spec fn spec_encoding(&self) -> Seq<u8> {
        encoding(FrameV::Error(self.0@))
    }

    fn encode(self) -> (r: Vec<u8>) {
        let mut out: Vec<u8> = Vec::new();
        push_text_line(&mut out, 45u8, &self.0);
        assert(out@ =~= encoding(FrameV::Error(self.0@)));
        out
    }
}

impl RespEncode for i64 {
    open spec fn spec_encoding(&self) -> Seq<u8> {
        encoding(FrameV::Integer(*self as int))
    }

    fn encode(self) -> (r: Vec<u8>) {
        let mut out: Vec<u8> = Vec::new();
        push_integer(&mut out, self);
        assert(out@ =~= encoding(FrameV::Integer(self as int)));
        out
    }
}

impl RespEncode for bool {
    open spec fn spec_encoding(&self) -> Seq<u8> {
        bool_bytes(*self)
    }

    fn encode(self) -> (r: Vec<u8>) {
        let mut out: Vec<u8> = Vec::new();
        RespFrame::Boolean(self).encode_into(&mut out);
        assert(out@ =~= bool_bytes(self));
        out
    }
}

impl RespEncode for BulkString {
    open spec fn spec_encoding(&self) -> Seq<u8> {
        encoding(frame_view(RespFrame::BulkString(*self)))
    }

    fn encode(self) -> (r: Vec<u8>) {
        let mut out: Vec<u8> = Vec::new();
        RespFrame::BulkString(self).encode_into(&mut out);
        assert(out@ =~= encoding(frame_view(RespFrame::BulkString(self))));
        out
    }
}

impl RespEncode for RespArray {
    open spec fn spec_encoding(&self) -> Seq<u8> {
        encoding(frame_view(RespFrame::Array(*self)))
    }

    fn encode(self) -> (r: Vec<u8>) {
        let mut out: Vec<u8> = Vec::new();
        RespFrame::Array(self).encode_into(&mut out);
        assert(out@ =~= encoding(frame_view(RespFrame::Array(self))));
        out
    }
}

impl RespEncode for RespMap {
    open spec fn spec_encoding(&self) -> Seq<u8> {
        encoding(frame_view(RespFrame::RespMap(*self)))
    }

    fn encode(self) -> (r: Vec<u8>) {
        let mut out: Vec<u8> = Vec::new();
        RespFrame::RespMap(self).encode_into(&mut out);
        assert(out@ =~= encoding(frame_view(RespFrame::RespMap(self))));
        out
    }
}

impl RespEncode for RespSet {
    open spec fn spec_encoding(&self) -> Seq<u8> {
        encoding(frame_view(RespFrame::RespSet(*self)))
    }

    fn encode(self) -> (r: Vec<u8>) {
        let mut out: Vec<u8> = Vec::new();
        RespFrame::RespSet(self).encode_into(&mut out);
        assert(out@ =~= encoding(frame_view(RespFrame::RespSet(self))));
        out
    }
}

impl RespEncode for RespNull {
    open spec fn spec_encoding(&self) -> Seq<u8> {
        null_bytes()
    }

    fn encode(self) -> (r: Vec<u8>) {
        let mut out: Vec<u8> = Vec::new();
        RespFrame::Null(self).encode_into(&mut out);
        assert(out@ =~= null_bytes());
        out
    }
}

impl RespEncode for RespNullBulkString {
    open spec fn spec_encoding(&self) -> Seq<u8> {
        null_bulk_bytes()
    }

    fn encode(self) -> (r: Vec<u8>) {
        let mut out: Vec<u8> = Vec::new();
        RespFrame::BulkString(BulkString(None)).encode_into(&mut out);
        assert(out@ =~= null_bulk_bytes());
        out
    }
}

impl RespEncode for RespNullArray {
    open spec fn spec_encoding(&self) -> Seq<u8> {
        null_array_bytes()
    }

    fn encode(self) -> (r: Vec<u8>) {
        let mut out: Vec<u8> = Vec::new();
        RespFrame::Array(RespArray(None)).encode_into(&mut out);
        assert(out@ =~= null_array_bytes());
        out
    }
}

} // verus!
