use vstd::prelude::*;
use vstd::utf8::{encode_utf8, encode_utf8_decode_utf8, encode_utf8_valid_utf8};
use crate::decode::{
    has_line_break, is_null_form, spec_calc_total_length, spec_decode, spec_decode_entries, spec_decode_many,
    spec_expect_length, spec_line_end, spec_parse_length, spec_probe_many, spec_text_line, suffix,
};
use crate::encode::{
    bool_bytes, crlf, encoding, encodings, entries_encoding, header, line, nat_digits, null_bytes,
    null_array_bytes, null_bulk_bytes, signed_digits,
};
use crate::frame::{insert_pos, key_lt, keys_sorted, map_insert, FrameV, RespError};
use crate::backend::{set_or_empty, Backend};
use crate::cmd::{
    added_count, executed, get_name, hget_name, is_named, spec_parse_array, texts_set, CommandV,
};
use crate::scan::{
    digits_value, first_crlf, is_digit, is_digits, is_double_text, nth_crlf_from, spec_parse_i64,
};

verus! {

/// The decimal digits of `n` are digits, and read back as `n`.
pub proof fn lemma_nat_digits(n: nat)
    ensures
        is_digits(nat_digits(n)),
        digits_value(nat_digits(n)) == n,
    decreases n,
{
    if n >= 10 {
        lemma_nat_digits(n / 10);
        let d = nat_digits(n);
        assert(d.drop_last() =~= nat_digits(n / 10));
        assert forall|i: int| 0 <= i < d.len() implies is_digit(#[trigger] d[i]) by {
            if i < d.len() - 1 {
                assert(d[i] == nat_digits(n / 10)[i]);
            }
        }
        assert((n / 10) * 10 + n % 10 == n) by (nonlinear_arith);
        assert(d.last() == (48 + n % 10) as u8);
        assert(((48 + n % 10) as u8) as int == 48 + n % 10);
        assert(digits_value(d) == digits_value(nat_digits(n / 10)) * 10 + (n % 10));
    } else {
        let d = nat_digits(n);
        assert(d.drop_last() =~= Seq::<u8>::empty());
        assert(d.last() == (48 + n) as u8);
        assert(((48 + n) as u8) as int == 48 + n);
        assert(digits_value(d) == digits_value(d.drop_last()) * 10 + (d.last() - 48) as nat);
    }
}

/// The first `\r\n` from `i` on, when the bytes before it hold no `\r`.
pub proof fn lemma_crlf_at(s: Seq<u8>, i: int, e: int)
    requires
        1 <= i <= e,
        e + 2 <= s.len(),
        s[e] == 13u8,
        s[e + 1] == 10u8,
        forall|j: int| i <= j < e ==> s[j] != 13u8,
    ensures
        nth_crlf_from(s, i, 1) == Some(e),
    decreases e - i,
{
    if i < e {
        lemma_crlf_at(s, i + 1, e);
    }
}

pub open spec fn no_line_break(t: Seq<u8>) -> bool {
    forall|j: int| 0 <= j < t.len() ==> t[j] != 13u8 && t[j] != 10u8
}

/// A line `<prefix><text>\r\n`, followed by anything, ends right after the text.
pub proof fn lemma_line_end(p: u8, t: Seq<u8>, rest: Seq<u8>)
    requires
        no_line_break(t),
    ensures
        ({
            let s = line(p, t) + rest;
            &&& s.len() >= 3
            &&& s[0] == p
            &&& first_crlf(s) == Some(1 + t.len() as int)
            &&& s.subrange(1, 1 + t.len() as int) == t
            &&& suffix(s, 3 + t.len() as int) == rest
            &&& spec_line_end(s, p) == Ok::<int, RespError>(1 + t.len() as int)
        }),
{
    let s = line(p, t) + rest;
    assert(s[1 + t.len() as int] == 13u8);
    assert(s[2 + t.len() as int] == 10u8);
    assert forall|j: int| 1 <= j < 1 + t.len() as int implies s[j] != 13u8 by {
        assert(s[j] == t[j - 1]);
    }
    lemma_crlf_at(s, 1, 1 + t.len() as int);
    assert(s.subrange(1, 1 + t.len() as int) =~= t);
    assert(suffix(s, 3 + t.len() as int) =~= rest);
}

/// A header `<prefix><count>\r\n`, followed by anything, reads back as the count.
pub proof fn lemma_header(p: u8, n: nat, rest: Seq<u8>)
    requires
        n <= usize::MAX,
    ensures
        ({
            let s = header(p, n) + rest;
            let e = 1 + nat_digits(n).len() as int;
            &&& spec_parse_length(s, p) == Ok::<(int, nat), RespError>((e, n))
            &&& !is_null_form(s, p)
            &&& suffix(s, e + 2) == rest
            &&& s[0] == p
        }),
{
    lemma_nat_digits(n);
    let t = nat_digits(n);
    assert forall|j: int| 0 <= j < t.len() implies t[j] != 13u8 && t[j] != 10u8 by {
        assert(is_digit(t[j]));
    }
    assert(header(p, n) =~= line(p, t));
    lemma_line_end(p, t, rest);
    let s = header(p, n) + rest;
    if is_null_form(s, p) {
        assert(s.subrange(0, 5)[1] == 45u8);
        assert(s[1] == t[0]);
        assert(is_digit(t[0]));
    }
}

/// A frame that the encoder and decoder agree on: text and double payloads
/// hold no line break, integers fit `i64`, lengths fit `usize`, map keys are
/// sorted and unique, and every element is itself well formed.
pub open spec fn wf(f: FrameV) -> bool
    decreases f, 0int,
{
    match f {
        FrameV::SimpleString(t) => no_line_break(encode_utf8(t)),
        FrameV::Error(t) => no_line_break(encode_utf8(t)),
        FrameV::Integer(i) => i64::MIN <= i <= i64::MAX,
        FrameV::BulkString(b) => match b {
            Some(b) => b.len() <= usize::MAX,
            None => true,
        },
        FrameV::Array(a) => match a {
            Some(fs) => fs.len() <= usize::MAX && all_wf(fs),
            None => true,
        },
        FrameV::Null => true,
        FrameV::Boolean(_) => true,
        FrameV::Double(d) => is_double_text(d) && no_line_break(d),
        FrameV::RespMap(ks, vs) => ks.len() == vs.len() && vs.len() <= usize::MAX && keys_sorted(ks)
            && keys_plain(ks) && all_wf(vs),
        FrameV::RespSet(fs) => fs.len() <= usize::MAX && all_wf(fs),
    }
}

pub open spec fn all_wf(fs: Seq<FrameV>) -> bool
    decreases fs, 1int,
{
    if fs.len() == 0 {
        true
    } else {
        all_wf(fs.drop_last()) && wf(fs.last())
    }
}

/// Map keys hold no line break.
pub open spec fn keys_plain(ks: Seq<Seq<char>>) -> bool {
    forall|i: int| 0 <= i < ks.len() ==> no_line_break(encode_utf8(#[trigger] ks[i]))
}

proof fn lemma_all_wf_front(fs: Seq<FrameV>)
    requires
        all_wf(fs),
        fs.len() > 0,
    ensures
        wf(fs[0]),
        all_wf(fs.drop_first()),
    decreases fs.len(),
{
    if fs.len() > 1 {
        lemma_all_wf_front(fs.drop_last());
        assert(fs.drop_first().drop_last() =~= fs.drop_last().drop_first());
        assert(fs.drop_last()[0] == fs[0]);
    } else {
        assert(fs.drop_last().len() == 0);
        assert(fs.last() == fs[0]);
    }
}

proof fn lemma_encodings_front(fs: Seq<FrameV>)
    requires
        fs.len() > 0,
    ensures
        encodings(fs) == encoding(fs[0]) + encodings(fs.drop_first()),
    decreases fs.len(),
{
    if fs.len() == 1 {
        assert(encodings(fs.drop_last()) == Seq::<u8>::empty());
        assert(encodings(fs.drop_first()) == Seq::<u8>::empty());
        assert(fs.last() == fs[0]);
        assert(encodings(fs) =~= encoding(fs[0]) + encodings(fs.drop_first()));
    } else {
        lemma_encodings_front(fs.drop_last());
        let dl = fs.drop_last();
        let df = fs.drop_first();
        assert(df.drop_last() =~= dl.drop_first());
        assert(dl[0] == fs[0]);
        assert(df.last() == fs.last());
        assert(encodings(fs) == encodings(dl) + encoding(fs.last()));
        assert(encodings(df) == encodings(df.drop_last()) + encoding(df.last()));
        assert(encodings(dl) == encoding(fs[0]) + encodings(dl.drop_first()));
        assert(encodings(fs) =~= encoding(fs[0]) + encodings(df));
    }
}

proof fn lemma_entries_front(ks: Seq<Seq<char>>, vs: Seq<FrameV>)
    requires
        vs.len() > 0,
        ks.len() == vs.len(),
    ensures
        entries_encoding(ks, vs) == line(43u8, encode_utf8(ks[0])) + encoding(vs[0]) + entries_encoding(
            ks.drop_first(),
            vs.drop_first(),
        ),
    decreases vs.len(),
{
    if vs.len() == 1 {
        assert(entries_encoding(ks.drop_last(), vs.drop_last()) == Seq::<u8>::empty());
        assert(entries_encoding(ks.drop_first(), vs.drop_first()) == Seq::<u8>::empty());
        assert(ks.last() == ks[0] && vs.last() == vs[0]);
        assert(entries_encoding(ks, vs) =~= line(43u8, encode_utf8(ks[0])) + encoding(vs[0])
            + entries_encoding(ks.drop_first(), vs.drop_first()));
    } else {
        lemma_entries_front(ks.drop_last(), vs.drop_last());
        let kl = ks.drop_last();
        let vl = vs.drop_last();
        let kf = ks.drop_first();
        let vf = vs.drop_first();
        assert(kf.drop_last() =~= kl.drop_first());
        assert(vf.drop_last() =~= vl.drop_first());
        assert(kl[0] == ks[0] && vl[0] == vs[0]);
        assert(kf.last() == ks.last() && vf.last() == vs.last());
        assert(entries_encoding(ks, vs) == entries_encoding(kl, vl) + line(43u8, encode_utf8(ks.last()))
            + encoding(vs.last()));
        assert(entries_encoding(kf, vf) == entries_encoding(kf.drop_last(), vf.drop_last()) + line(
            43u8,
            encode_utf8(kf.last()),
        ) + encoding(vf.last()));
        assert(entries_encoding(ks, vs) =~= line(43u8, encode_utf8(ks[0])) + encoding(vs[0])
            + entries_encoding(kf, vf));
    }
}

/// A key above every key of a map goes at its end.
proof fn lemma_insert_at_end(ks: Seq<Seq<char>>, k: Seq<char>, i: int)
    requires
        0 <= i <= ks.len(),
        forall|j: int| 0 <= j < ks.len() ==> key_lt(#[trigger] ks[j], k),
    ensures
        insert_pos(ks, k, i) == ks.len(),
    decreases ks.len() - i,
{
    if i < ks.len() {
        lemma_insert_at_end(ks, k, i + 1);
    }
}

/// A text line with no line break decodes to its text.
proof fn lemma_text_round_trip(p: u8, t: Seq<char>, rest: Seq<u8>)
    requires
        no_line_break(encode_utf8(t)),
    ensures
        spec_text_line(line(p, encode_utf8(t)) + rest, p) == Ok::<(Seq<char>, nat), RespError>(
            (t, line(p, encode_utf8(t)).len()),
        ),
        spec_line_end(line(p, encode_utf8(t)) + rest, p) == Ok::<int, RespError>(1 + encode_utf8(t).len() as int),
{
    let b = encode_utf8(t);
    lemma_line_end(p, b, rest);
    encode_utf8_valid_utf8(t);
    encode_utf8_decode_utf8(t);
    let s = line(p, b) + rest;
    assert(!has_line_break(s.subrange(1, 1 + b.len() as int)));
}

/// What the encoder writes, the decoder reads back, whatever follows it; the
/// length probe finds exactly its length.
#[verifier::spinoff_prover]
pub proof fn lemma_frame_round_trip(f: FrameV, rest: Seq<u8>)
    requires
        wf(f),
    ensures
        spec_expect_length(encoding(f) + rest) == Ok::<nat, RespError>(encoding(f).len()),
        spec_decode(encoding(f) + rest) == Ok::<(FrameV, nat), RespError>((f, encoding(f).len())),
    decreases f, 2int,
{
    match f {
        FrameV::SimpleString(t) => lemma_text_round_trip(43u8, t, rest),
        FrameV::Error(t) => lemma_text_round_trip(45u8, t, rest),
        FrameV::Integer(i) => lemma_integer_round_trip(i, rest),
        FrameV::BulkString(b) => lemma_bulk_round_trip(b, rest),
        FrameV::Array(a) => match a {
            None => {
                let s = encoding(f) + rest;
                assert(s.subrange(0, 5) =~= seq![42u8, 45u8, 49u8, 13u8, 10u8]);
            },
            Some(fs) => lemma_aggregate_round_trip(f, rest),
        },
        FrameV::Null => {
            let s = encoding(f) + rest;
            assert(s.subrange(0, 3) =~= null_bytes());
        },
        FrameV::Boolean(v) => {
            let s = encoding(f) + rest;
            lemma_line_end(35u8, seq![if v { 116u8 } else { 102u8 }], rest);
            assert(bool_bytes(v) =~= line(35u8, seq![if v { 116u8 } else { 102u8 }]));
            assert(s.subrange(1, 2) =~= seq![if v { 116u8 } else { 102u8 }]);
        },
        FrameV::Double(d) => {
            lemma_line_end(44u8, d, rest);
        },
        FrameV::RespMap(ks, vs) => lemma_map_round_trip(ks, vs, rest),
        FrameV::RespSet(fs) => lemma_aggregate_round_trip(f, rest),
    }
}

#[verifier::spinoff_prover]
proof fn lemma_integer_round_trip(i: int, rest: Seq<u8>)
    requires
        i64::MIN <= i <= i64::MAX,
    ensures
        spec_expect_length(encoding(FrameV::Integer(i)) + rest) == Ok::<nat, RespError>(
            encoding(FrameV::Integer(i)).len(),
        ),
        spec_decode(encoding(FrameV::Integer(i)) + rest) == Ok::<(FrameV, nat), RespError>(
            (FrameV::Integer(i), encoding(FrameV::Integer(i)).len()),
        ),
{
    let d = signed_digits(i);
    let m: nat = if i < 0 { (-i) as nat } else { i as nat };
    lemma_nat_digits(m);
    assert(d[0] == 43u8 || d[0] == 45u8);
    assert forall|j: int| 0 <= j < d.len() implies d[j] != 13u8 && d[j] != 10u8 by {
        if j > 0 {
            assert(d[j] == nat_digits(m)[j - 1]);
            assert(is_digit(nat_digits(m)[j - 1]));
        }
    }
    lemma_line_end(58u8, d, rest);
    assert(d.subrange(1, d.len() as int) =~= nat_digits(m));
    assert(spec_parse_i64(d) == Some(i));
}

#[verifier::spinoff_prover]
proof fn lemma_bulk_round_trip(b: Option<Seq<u8>>, rest: Seq<u8>)
    requires
        wf(FrameV::BulkString(b)),
    ensures
        spec_expect_length(encoding(FrameV::BulkString(b)) + rest) == Ok::<nat, RespError>(
            encoding(FrameV::BulkString(b)).len(),
        ),
        spec_decode(encoding(FrameV::BulkString(b)) + rest) == Ok::<(FrameV, nat), RespError>(
            (FrameV::BulkString(b), encoding(FrameV::BulkString(b)).len()),
        ),
{
    let s = encoding(FrameV::BulkString(b)) + rest;
    match b {
        None => {
            assert(s.subrange(0, 5) =~= seq![36u8, 45u8, 49u8, 13u8, 10u8]);
        },
        Some(b) => {
            let n = b.len();
            lemma_header(36u8, n, b + crlf() + rest);
            let e = 1 + nat_digits(n).len() as int;
            assert(s =~= header(36u8, n) + (b + crlf() + rest));
            assert(s.subrange(e + 2 + n, e + 4 + n) =~= crlf());
            assert(s.subrange(e + 2, e + 2 + n) =~= b);
        },
    }
}

#[verifier::spinoff_prover]
proof fn lemma_aggregate_round_trip(f: FrameV, rest: Seq<u8>)
    requires
        wf(f),
        f matches FrameV::Array(Some(_)) || f is RespSet,
    ensures
        spec_expect_length(encoding(f) + rest) == Ok::<nat, RespError>(encoding(f).len()),
        spec_decode(encoding(f) + rest) == Ok::<(FrameV, nat), RespError>((f, encoding(f).len())),
    decreases f, 1int,
{
    let (p, fs) = match f {
        FrameV::Array(Some(fs)) => (42u8, fs),
        FrameV::RespSet(fs) => (126u8, fs),
        _ => (0u8, Seq::empty()),
    };
    let s = encoding(f) + rest;
    let n = fs.len();
    lemma_header(p, n, encodings(fs) + rest);
    assert(s =~= header(p, n) + (encodings(fs) + rest));
    lemma_many_probe(fs, rest);
    lemma_many_round_trip(fs, rest, Seq::empty());
    assert(Seq::<FrameV>::empty() + fs =~= fs);
}

#[verifier::spinoff_prover]
proof fn lemma_map_round_trip(ks: Seq<Seq<char>>, vs: Seq<FrameV>, rest: Seq<u8>)
    requires
        wf(FrameV::RespMap(ks, vs)),
    ensures
        spec_expect_length(encoding(FrameV::RespMap(ks, vs)) + rest) == Ok::<nat, RespError>(
            encoding(FrameV::RespMap(ks, vs)).len(),
        ),
        spec_decode(encoding(FrameV::RespMap(ks, vs)) + rest) == Ok::<(FrameV, nat), RespError>(
            (FrameV::RespMap(ks, vs), encoding(FrameV::RespMap(ks, vs)).len()),
        ),
    decreases vs, 1int,
{
    let f = FrameV::RespMap(ks, vs);
    let s = encoding(f) + rest;
    let n = vs.len();
    lemma_header(37u8, n, entries_encoding(ks, vs) + rest);
    assert(s =~= header(37u8, n) + (entries_encoding(ks, vs) + rest));
    assert(Seq::<Seq<char>>::empty() + ks =~= ks);
    lemma_entries_probe(ks, vs, rest);
    lemma_entries_round_trip(ks, vs, rest, Seq::empty(), Seq::empty());
    assert(Seq::<FrameV>::empty() + vs =~= vs);
}

/// The first frame of a run, and what follows it.
#[verifier::spinoff_prover]
proof fn lemma_many_split(fs: Seq<FrameV>, rest: Seq<u8>)
    requires
        all_wf(fs),
        fs.len() > 0,
    ensures
        ({
            let s = encodings(fs) + rest;
            let after = encodings(fs.drop_first()) + rest;
            let k = encoding(fs[0]).len();
            &&& spec_expect_length(s) == Ok::<nat, RespError>(k)
            &&& spec_decode(s) == Ok::<(FrameV, nat), RespError>((fs[0], k))
            &&& 0 < k <= s.len()
            &&& suffix(s, k as int) == after
            &&& encodings(fs).len() == k + encodings(fs.drop_first()).len()
            &&& all_wf(fs.drop_first())
        }),
    decreases fs, 0int,
{
    lemma_all_wf_front(fs);
    lemma_encodings_front(fs);
    let after = encodings(fs.drop_first()) + rest;
    let s = encodings(fs) + rest;
    assert(s =~= encoding(fs[0]) + after);
    lemma_frame_round_trip(fs[0], after);
    assert(suffix(s, encoding(fs[0]).len() as int) =~= after);
    lemma_encoding_nonempty(fs[0]);
}

proof fn lemma_encoding_nonempty(f: FrameV)
    ensures
        encoding(f).len() >= 3,
{
}

/// Frames written one after the other are probed in order.
pub proof fn lemma_many_probe(fs: Seq<FrameV>, rest: Seq<u8>)
    requires
        all_wf(fs),
    ensures
        spec_probe_many(encodings(fs) + rest, fs.len(), false) == Ok::<nat, RespError>(encodings(fs).len()),
    decreases fs, 1int,
{
    if fs.len() > 0 {
        lemma_many_split(fs, rest);
        lemma_many_probe(fs.drop_first(), rest);
    }
}

/// Frames written one after the other are read back in order.
pub proof fn lemma_many_round_trip(fs: Seq<FrameV>, rest: Seq<u8>, acc: Seq<FrameV>)
    requires
        all_wf(fs),
    ensures
        spec_decode_many(encodings(fs) + rest, fs.len(), acc) == Ok::<(Seq<FrameV>, nat), RespError>(
            (acc + fs, encodings(fs).len()),
        ),
    decreases fs, 1int,
{
    if fs.len() == 0 {
        assert(acc + fs =~= acc);
    } else {
        lemma_many_split(fs, rest);
        lemma_many_round_trip(fs.drop_first(), rest, acc.push(fs[0]));
        assert(acc.push(fs[0]) + fs.drop_first() =~= acc + fs);
    }
}

/// A key above every key of a map is appended to it.
proof fn lemma_map_insert_append(ks0: Seq<Seq<char>>, vs0: Seq<FrameV>, k: Seq<char>, v: FrameV)
    requires
        ks0.len() == vs0.len(),
        forall|j: int| 0 <= j < ks0.len() ==> key_lt(#[trigger] ks0[j], k),
    ensures
        map_insert(ks0, vs0, k, v) == (ks0.push(k), vs0.push(v)),
{
    lemma_insert_at_end(ks0, k, 0);
    assert(ks0.insert(ks0.len() as int, k) =~= ks0.push(k));
    assert(vs0.insert(ks0.len() as int, v) =~= vs0.push(v));
}

/// The first entry of a map encoding, and what follows it.
#[verifier::spinoff_prover]
proof fn lemma_entry_split(ks: Seq<Seq<char>>, vs: Seq<FrameV>, rest: Seq<u8>)
    requires
        ks.len() == vs.len(),
        vs.len() > 0,
        keys_plain(ks),
        all_wf(vs),
    ensures
        ({
            let s = entries_encoding(ks, vs) + rest;
            let a = line(43u8, encode_utf8(ks[0])).len();
            let b = encoding(vs[0]).len();
            let after = entries_encoding(ks.drop_first(), vs.drop_first()) + rest;
            &&& spec_text_line(s, 43u8) == Ok::<(Seq<char>, nat), RespError>((ks[0], a))
            &&& spec_line_end(s, 43u8) == Ok::<int, RespError>(a - 2)
            &&& suffix(s, a as int) == encoding(vs[0]) + after
            &&& suffix(s, (a + b) as int) == after
            &&& entries_encoding(ks, vs).len() == a + b + entries_encoding(ks.drop_first(), vs.drop_first()).len()
            &&& wf(vs[0])
            &&& all_wf(vs.drop_first())
            &&& keys_plain(ks.drop_first())
        }),
{
    lemma_all_wf_front(vs);
    lemma_entries_front(ks, vs);
    let kt = ks.drop_first();
    let vt = vs.drop_first();
    let kl = line(43u8, encode_utf8(ks[0]));
    let after = entries_encoding(kt, vt) + rest;
    let s = entries_encoding(ks, vs) + rest;
    assert(s =~= kl + (encoding(vs[0]) + after));
    assert(no_line_break(encode_utf8(ks[0])));
    lemma_text_round_trip(43u8, ks[0], encoding(vs[0]) + after);
    let a = kl.len();
    let b = encoding(vs[0]).len();
    assert(suffix(s, a as int) =~= encoding(vs[0]) + after);
    assert(suffix(s, (a + b) as int) =~= after);
    assert forall|j: int| 0 <= j < kt.len() implies no_line_break(encode_utf8(#[trigger] kt[j])) by {
        assert(kt[j] == ks[j + 1]);
    }
}

/// Map entries written one after the other are probed as pairs.
pub proof fn lemma_entries_probe(ks: Seq<Seq<char>>, vs: Seq<FrameV>, rest: Seq<u8>)
    requires
        ks.len() == vs.len(),
        keys_plain(ks),
        all_wf(vs),
    ensures
        spec_probe_many(entries_encoding(ks, vs) + rest, vs.len(), true) == Ok::<nat, RespError>(
            entries_encoding(ks, vs).len(),
        ),
    decreases vs, 0int,
{
    if vs.len() > 0 {
        lemma_entry_split(ks, vs, rest);
        let after = entries_encoding(ks.drop_first(), vs.drop_first()) + rest;
        lemma_frame_round_trip(vs[0], after);
        lemma_entries_probe(ks.drop_first(), vs.drop_first(), rest);
    }
}

/// Sorted map entries written one after the other are read back, each key
/// landing after the ones already read.
#[verifier::spinoff_prover]
pub proof fn lemma_entries_round_trip(
    ks: Seq<Seq<char>>,
    vs: Seq<FrameV>,
    rest: Seq<u8>,
    ks0: Seq<Seq<char>>,
    vs0: Seq<FrameV>,
)
    requires
        ks.len() == vs.len(),
        ks0.len() == vs0.len(),
        keys_sorted(ks0 + ks),
        keys_plain(ks),
        all_wf(vs),
    ensures
        spec_decode_entries(entries_encoding(ks, vs) + rest, vs.len(), ks0, vs0) == Ok::<
            ((Seq<Seq<char>>, Seq<FrameV>), nat),
            RespError,
        >(((ks0 + ks, vs0 + vs), entries_encoding(ks, vs).len())),
    decreases vs, 0int,
{
    if vs.len() == 0 {
        assert(ks0 + ks =~= ks0);
        assert(vs0 + vs =~= vs0);
    } else {
        lemma_entry_split(ks, vs, rest);
        let kt = ks.drop_first();
        let vt = vs.drop_first();
        let after = entries_encoding(kt, vt) + rest;
        lemma_frame_round_trip(vs[0], after);
        assert forall|j: int| 0 <= j < ks0.len() implies key_lt(#[trigger] ks0[j], ks[0]) by {
            assert((ks0 + ks)[j] == ks0[j]);
            assert((ks0 + ks)[ks0.len() as int] == ks[0]);
        }
        lemma_map_insert_append(ks0, vs0, ks[0], vs[0]);
        assert(ks0.push(ks[0]) + kt =~= ks0 + ks);
        assert(vs0.push(vs[0]) + vt =~= vs0 + vs);
        lemma_entries_round_trip(kt, vt, rest, ks0.push(ks[0]), vs0.push(vs[0]));
    }
}

/// Round trip: a well-formed frame, encoded, decodes to itself and takes
/// exactly its encoding; the length probe agrees.
pub proof fn law_round_trip(f: FrameV)
    requires
        wf(f),
    ensures
        spec_decode(encoding(f)) == Ok::<(FrameV, nat), RespError>((f, encoding(f).len())),
        spec_expect_length(encoding(f)) == Ok::<nat, RespError>(encoding(f).len()),
{
    lemma_frame_round_trip(f, Seq::empty());
    assert(encoding(f) + Seq::<u8>::empty() =~= encoding(f));
}

/// No `\r` from `i` on (before the last byte): no line end there.
proof fn lemma_no_crlf(s: Seq<u8>, i: int)
    requires
        i >= 1,
        forall|j: int| i <= j && j + 1 < s.len() ==> s[j] != 13u8,
    ensures
        nth_crlf_from(s, i, 1) is None,
    decreases s.len() - i,
{
    if i + 1 < s.len() {
        lemma_no_crlf(s, i + 1);
    }
}

/// A strict prefix of a line `<prefix><text>\r\n` holds no line end.
proof fn lemma_line_prefix(p: u8, t: Seq<u8>, k: int)
    requires
        no_line_break(t),
        0 < k < line(p, t).len(),
    ensures
        spec_line_end(line(p, t).subrange(0, k), p) == Err::<int, RespError>(RespError::NotComplete),
{
    let s = line(p, t).subrange(0, k);
    assert forall|j: int| 1 <= j && j + 1 < s.len() implies s[j] != 13u8 by {
        assert(s[j] == t[j - 1]);
    }
    lemma_no_crlf(s, 1);
}

proof fn lemma_signed_digits_plain(i: int)
    ensures
        no_line_break(signed_digits(i)),
{
    let d = signed_digits(i);
    let m: nat = if i < 0 { (-i) as nat } else { i as nat };
    lemma_nat_digits(m);
    assert forall|j: int| 0 <= j < d.len() implies d[j] != 13u8 && d[j] != 10u8 by {
        if j > 0 {
            assert(d[j] == nat_digits(m)[j - 1]);
            assert(is_digit(nat_digits(m)[j - 1]));
        }
    }
}

/// A strict prefix of a header: no line end yet, and no legacy null.
proof fn lemma_header_prefix(p: u8, n: nat, k: int)
    requires
        0 < k < header(p, n).len(),
    ensures
        spec_parse_length(header(p, n).subrange(0, k), p) == Err::<(int, nat), RespError>(
            RespError::NotComplete,
        ),
        !is_null_form(header(p, n).subrange(0, k), p),
{
    let t = nat_digits(n);
    lemma_nat_digits(n);
    assert forall|j: int| 0 <= j < t.len() implies t[j] != 13u8 && t[j] != 10u8 by {
        assert(is_digit(t[j]));
    }
    assert(header(p, n) =~= line(p, t));
    lemma_line_prefix(p, t, k);
    let s = header(p, n).subrange(0, k);
    if is_null_form(s, p) {
        assert(s.subrange(0, 5)[1] == 45u8);
        assert(s[1] == t[0]);
        assert(is_digit(t[0]));
    }
}

/// A strict prefix of a frame's encoding is incomplete: both the probe and
/// the decoder say `NotComplete`.
#[verifier::spinoff_prover]
pub proof fn lemma_frame_prefix(f: FrameV, k: int)
    requires
        wf(f),
        0 < k < encoding(f).len(),
    ensures
        spec_expect_length(encoding(f).subrange(0, k)) == Err::<nat, RespError>(RespError::NotComplete),
        spec_decode(encoding(f).subrange(0, k)) == Err::<(FrameV, nat), RespError>(RespError::NotComplete),
    decreases f, 2int,
{
    match f {
        FrameV::SimpleString(t) => lemma_line_prefix(43u8, encode_utf8(t), k),
        FrameV::Error(t) => lemma_line_prefix(45u8, encode_utf8(t), k),
        FrameV::Integer(i) => {
            lemma_signed_digits_plain(i);
            lemma_line_prefix(58u8, signed_digits(i), k);
        },
        FrameV::Double(d) => lemma_line_prefix(44u8, d, k),
        FrameV::Boolean(v) => {
            let t = seq![if v { 116u8 } else { 102u8 }];
            assert(bool_bytes(v) =~= line(35u8, t));
            lemma_line_prefix(35u8, t, k);
        },
        FrameV::Null => {},
        FrameV::BulkString(b) => lemma_bulk_prefix(b, k),
        FrameV::Array(a) => match a {
            None => {
                let t = seq![45u8, 49u8];
                assert(null_array_bytes() =~= line(42u8, t));
                lemma_line_prefix(42u8, t, k);
            },
            Some(fs) => lemma_aggregate_prefix(f, k),
        },
        FrameV::RespSet(fs) => lemma_aggregate_prefix(f, k),
        FrameV::RespMap(ks, vs) => lemma_map_prefix(ks, vs, k),
    }
}

#[verifier::spinoff_prover]
proof fn lemma_bulk_prefix(b: Option<Seq<u8>>, k: int)
    requires
        wf(FrameV::BulkString(b)),
        0 < k < encoding(FrameV::BulkString(b)).len(),
    ensures
        spec_expect_length(encoding(FrameV::BulkString(b)).subrange(0, k)) == Err::<nat, RespError>(
            RespError::NotComplete,
        ),
        spec_decode(encoding(FrameV::BulkString(b)).subrange(0, k)) == Err::<(FrameV, nat), RespError>(
            RespError::NotComplete,
        ),
{
    let s = encoding(FrameV::BulkString(b)).subrange(0, k);
    match b {
        None => {
            let t = seq![45u8, 49u8];
            assert(null_bulk_bytes() =~= line(36u8, t));
            lemma_line_prefix(36u8, t, k);
        },
        Some(b) => {
            let n = b.len();
            let h = header(36u8, n);
            if k < h.len() {
                assert(s =~= h.subrange(0, k));
                lemma_header_prefix(36u8, n, k);
            } else {
                let r = (b + crlf()).subrange(0, k - h.len());
                assert(s =~= h + r);
                lemma_header(36u8, n, r);
            }
        },
    }
}

#[verifier::spinoff_prover]
proof fn lemma_aggregate_prefix(f: FrameV, k: int)
    requires
        wf(f),
        f matches FrameV::Array(Some(_)) || f is RespSet,
        0 < k < encoding(f).len(),
    ensures
        spec_expect_length(encoding(f).subrange(0, k)) == Err::<nat, RespError>(RespError::NotComplete),
        spec_decode(encoding(f).subrange(0, k)) == Err::<(FrameV, nat), RespError>(RespError::NotComplete),
    decreases f, 1int,
{
    let (p, fs) = match f {
        FrameV::Array(Some(fs)) => (42u8, fs),
        FrameV::RespSet(fs) => (126u8, fs),
        _ => (0u8, Seq::empty()),
    };
    let s = encoding(f).subrange(0, k);
    let n = fs.len();
    let h = header(p, n);
    if k < h.len() {
        assert(s =~= h.subrange(0, k));
        lemma_header_prefix(p, n, k);
    } else {
        let r = encodings(fs).subrange(0, k - h.len());
        assert(s =~= h + r);
        lemma_header(p, n, r);
        lemma_many_prefix(fs, k - h.len());
    }
}

#[verifier::spinoff_prover]
proof fn lemma_map_prefix(ks: Seq<Seq<char>>, vs: Seq<FrameV>, k: int)
    requires
        wf(FrameV::RespMap(ks, vs)),
        0 < k < encoding(FrameV::RespMap(ks, vs)).len(),
    ensures
        spec_expect_length(encoding(FrameV::RespMap(ks, vs)).subrange(0, k)) == Err::<nat, RespError>(
            RespError::NotComplete,
        ),
        spec_decode(encoding(FrameV::RespMap(ks, vs)).subrange(0, k)) == Err::<(FrameV, nat), RespError>(
            RespError::NotComplete,
        ),
    decreases vs, 1int,
{
    let s = encoding(FrameV::RespMap(ks, vs)).subrange(0, k);
    let n = vs.len();
    let h = header(37u8, n);
    if k < h.len() {
        assert(s =~= h.subrange(0, k));
        lemma_header_prefix(37u8, n, k);
    } else {
        let r = entries_encoding(ks, vs).subrange(0, k - h.len());
        assert(s =~= h + r);
        lemma_header(37u8, n, r);
        lemma_entries_prefix(ks, vs, k - h.len());
    }
}

/// A strict prefix of frames written one after the other probes as incomplete.
#[verifier::spinoff_prover]
proof fn lemma_many_prefix(fs: Seq<FrameV>, k: int)
    requires
        all_wf(fs),
        0 <= k < encodings(fs).len(),
    ensures
        spec_probe_many(encodings(fs).subrange(0, k), fs.len(), false) == Err::<nat, RespError>(
            RespError::NotComplete,
        ),
    decreases fs, 0int,
{
    if fs.len() == 0 {
        assert(encodings(fs).len() == 0);
    } else {
        lemma_all_wf_front(fs);
        lemma_encodings_front(fs);
        let e0 = encoding(fs[0]);
        let tail = fs.drop_first();
        let s = encodings(fs).subrange(0, k);
        if k == 0 {
            assert(s.len() == 0);
        } else if k < e0.len() {
            assert(s =~= e0.subrange(0, k));
            lemma_frame_prefix(fs[0], k);
        } else {
            let r = encodings(tail).subrange(0, k - e0.len());
            assert(s =~= e0 + r);
            lemma_frame_round_trip(fs[0], r);
            assert(suffix(s, e0.len() as int) =~= r);
            lemma_many_prefix(tail, k - e0.len());
        }
    }
}

/// A strict prefix of map entries written one after the other probes as incomplete.
#[verifier::spinoff_prover]
proof fn lemma_entries_prefix(ks: Seq<Seq<char>>, vs: Seq<FrameV>, k: int)
    requires
        ks.len() == vs.len(),
        keys_plain(ks),
        all_wf(vs),
        0 <= k < entries_encoding(ks, vs).len(),
    ensures
        spec_probe_many(entries_encoding(ks, vs).subrange(0, k), vs.len(), true) == Err::<
            nat,
            RespError,
        >(RespError::NotComplete),
    decreases vs, 0int,
{
    if vs.len() == 0 {
        assert(entries_encoding(ks, vs).len() == 0);
    } else {
        lemma_entry_split(ks, vs, Seq::empty());
        lemma_entries_front(ks, vs);
        let kl = line(43u8, encode_utf8(ks[0]));
        let e0 = encoding(vs[0]);
        let rest_enc = entries_encoding(ks.drop_first(), vs.drop_first());
        let s = entries_encoding(ks, vs).subrange(0, k);
        assert(no_line_break(encode_utf8(ks[0])));
        if k == 0 {
            assert(s.len() == 0);
        } else if k < kl.len() {
            assert(s =~= kl.subrange(0, k));
            lemma_line_prefix(43u8, encode_utf8(ks[0]), k);
        } else if k < kl.len() + e0.len() {
            let r = e0.subrange(0, k - kl.len());
            assert(s =~= kl + r);
            lemma_line_end(43u8, encode_utf8(ks[0]), r);
            assert(suffix(s, kl.len() as int) =~= r);
            if k > kl.len() {
                lemma_frame_prefix(vs[0], k - kl.len());
            }
        } else {
            let r = rest_enc.subrange(0, k - kl.len() - e0.len());
            assert(s =~= kl + (e0 + r));
            lemma_line_end(43u8, encode_utf8(ks[0]), e0 + r);
            assert(suffix(s, kl.len() as int) =~= e0 + r);
            lemma_frame_round_trip(vs[0], r);
            assert(suffix(s, (kl.len() + e0.len()) as int) =~= r);
            lemma_entries_prefix(ks.drop_first(), vs.drop_first(), k - kl.len() - e0.len());
        }
    }
}

/// Partial-buffer safety: a strict prefix of a well-formed frame's encoding
/// is `NotComplete` for the decoder and for the length probe (and on any
/// error `RespDecode::decode` leaves its buffer as it was); once the rest is
/// appended, the frame decodes whole and takes every byte.
pub proof fn law_partial_buffer(f: FrameV, k: int)
    requires
        wf(f),
        0 < k < encoding(f).len(),
    ensures
        spec_decode(encoding(f).subrange(0, k)) == Err::<(FrameV, nat), RespError>(RespError::NotComplete),
        spec_expect_length(encoding(f).subrange(0, k)) == Err::<nat, RespError>(RespError::NotComplete),
        spec_decode(encoding(f).subrange(0, k) + encoding(f).subrange(k, encoding(f).len() as int)) == Ok::<
            (FrameV, nat),
            RespError,
        >((f, encoding(f).len())),
        suffix(encoding(f), encoding(f).len() as int).len() == 0,
{
    lemma_frame_prefix(f, k);
    law_round_trip(f);
    assert(encoding(f).subrange(0, k) + encoding(f).subrange(k, encoding(f).len() as int) =~= encoding(f));
}

/// Adding members that a set already holds adds nothing: after `SADD k ms`,
/// `SADD k ms2` with every member of `ms2` among `ms` replies 0.
pub proof fn law_sadd_again(
    k: Seq<char>,
    ms: Seq<Seq<char>>,
    ms2: Seq<Seq<char>>,
    s0: Backend,
    s1: Backend,
    s2: Backend,
    r1: FrameV,
    r2: FrameV,
)
    requires
        ms.len() > 0,
        texts_set(ms2).subset_of(texts_set(ms)),
        executed(CommandV::SAdd(k, ms), s0, s1, r1),
        executed(CommandV::SAdd(k, ms2), s1, s2, r2),
    ensures
        r2 == FrameV::Integer(0),
{
    let before = set_or_empty(s0.sets(), k);
    let now = set_or_empty(s1.sets(), k);
    assert(now == before.union(texts_set(ms)));
    assert(now.union(texts_set(ms2)) =~= now);
    assert(added_count(now, ms2) == 0);
}

/// The legacy null bulk string `$-1\r\n` and the null `_\r\n` both decode
/// to a value-less frame, and as an argument of `GET` or `HGET` one stands
/// where the other does with the same outcome.
pub proof fn law_null_forms(a: Seq<FrameV>, i: int)
    requires
        1 <= i < a.len(),
        is_named(a, get_name()) || is_named(a, hget_name()),
    ensures
        spec_decode(seq![36u8, 45u8, 49u8, 13u8, 10u8]) == Ok::<(FrameV, nat), RespError>(
            (FrameV::BulkString(None), 5),
        ),
        spec_decode(seq![95u8, 13u8, 10u8]) == Ok::<(FrameV, nat), RespError>((FrameV::Null, 3)),
        spec_parse_array(a.update(i, FrameV::BulkString(None))) == spec_parse_array(
            a.update(i, FrameV::Null),
        ),
{
    let legacy = seq![36u8, 45u8, 49u8, 13u8, 10u8];
    assert(legacy.subrange(0, 5) =~= legacy);
    let modern = seq![95u8, 13u8, 10u8];
    assert(modern.subrange(0, 3) =~= null_bytes());
    let x = a.update(i, FrameV::BulkString(None));
    let y = a.update(i, FrameV::Null);
    assert(x[0] == a[0] && y[0] == a[0]);
    assert(x[i] == FrameV::BulkString(None) && y[i] == FrameV::Null);
}

/// An array, set or map: a header, then its elements.
pub open spec fn is_aggregate(f: FrameV) -> bool {
    f matches FrameV::Array(Some(_)) || f is RespSet || f is RespMap
}

/// The aggregate probe, at `calc_total_length`: after the header of a
/// well-formed array, set or map is parsed, probing its elements gives the
/// frame's exact length when the whole frame is there (whatever follows it),
/// and `NotComplete` on every strict prefix that holds the header. The probe
/// reads a shared slice, so it never changes the buffer.
pub proof fn law_aggregate_probe(f: FrameV, rest: Seq<u8>, k: int)
    requires
        wf(f),
        is_aggregate(f),
    ensures
        ({
            let s = encoding(f);
            let p = s[0];
            spec_parse_length(s + rest, p) matches Ok((e, n)) && spec_calc_total_length(
                s + rest,
                e,
                n,
                p,
            ) == Ok::<nat, RespError>(s.len()) && (e + 2 <= k < s.len() ==> spec_parse_length(
                s.subrange(0, k),
                p,
            ) == Ok::<(int, nat), RespError>((e, n)) && spec_calc_total_length(
                s.subrange(0, k),
                e,
                n,
                p,
            ) == Err::<nat, RespError>(RespError::NotComplete))
        }),
{
    let s = encoding(f);
    let (p, n, body) = match f {
        FrameV::Array(Some(fs)) => (42u8, fs.len(), encodings(fs)),
        FrameV::RespSet(fs) => (126u8, fs.len(), encodings(fs)),
        FrameV::RespMap(ks, vs) => (37u8, vs.len(), entries_encoding(ks, vs)),
        _ => (0u8, 0nat, Seq::empty()),
    };
    let h = header(p, n);
    assert(s =~= h + body);
    assert(s + rest =~= h + (body + rest));
    lemma_header(p, n, body + rest);
    let e = 1 + nat_digits(n).len() as int;
    match f {
        FrameV::Array(Some(fs)) => lemma_many_probe(fs, rest),
        FrameV::RespSet(fs) => lemma_many_probe(fs, rest),
        FrameV::RespMap(ks, vs) => lemma_entries_probe(ks, vs, rest),
        _ => {},
    }
    if e + 2 <= k < s.len() {
        let cut = body.subrange(0, k - (e + 2));
        assert(s.subrange(0, k) =~= h + cut);
        lemma_header(p, n, cut);
        match f {
            FrameV::Array(Some(fs)) => lemma_many_prefix(fs, k - (e + 2)),
            FrameV::RespSet(fs) => lemma_many_prefix(fs, k - (e + 2)),
            FrameV::RespMap(ks, vs) => lemma_entries_prefix(ks, vs, k - (e + 2)),
            _ => {},
        }
    }
}

} // verus!
