use vstd::prelude::*;
use vstd::slice::{slice_subrange, slice_to_vec};
use vstd::utf8::{decode_utf8, valid_utf8};
use crate::encode::{crlf, null_bytes};
use crate::frame::{
    frames_view, map_insert, BulkString, FrameV, RespArray, RespError, RespFrame, RespMap,
    RespNull, RespSet, SimpleError, SimpleString,
};
use crate::scan::{
    check_double_text, find_crlf, first_crlf, is_double_text, parse_decimal, parse_i64,
    spec_parse_decimal, spec_parse_i64,
};

verus! {

pub const SIMPLE_STRING_PREFIX: u8 = 43;
pub const SIMPLE_ERROR_PREFIX: u8 = 45;
pub const INTEGER_PREFIX: u8 = 58;
pub const BULK_STRING_PREFIX: u8 = 36;
pub const ARRAY_PREFIX: u8 = 42;
pub const NULL_PREFIX: u8 = 95;
pub const BOOLEAN_PREFIX: u8 = 35;
pub const DOUBLE_PREFIX: u8 = 44;
pub const MAP_PREFIX: u8 = 37;
pub const SET_PREFIX: u8 = 126;

/// `s` from index `k` on.
pub open spec fn suffix(s: Seq<u8>, k: int) -> Seq<u8> {
    s.subrange(k, s.len() as int)
}

/// Where the first line of a frame with the given prefix ends (the index of its `\r\n`).
pub open spec fn spec_line_end(s: Seq<u8>, prefix: u8) -> Result<int, RespError> {
    if s.len() < 3 {
        Err(RespError::NotComplete)
    } else if s[0] != prefix {
        Err(RespError::InvalidFrameType)
    } else {
        match first_crlf(s) {
            None => Err(RespError::NotComplete),
            Some(e) => Ok(e),
        }
    }
}

pub open spec fn has_line_break(t: Seq<u8>) -> bool {
    exists|i: int| 0 <= i < t.len() && (t[i] == 13u8 || t[i] == 10u8)
}

/// The text of a simple string or simple error, and the bytes its line takes.
pub open spec fn spec_text_line(s: Seq<u8>, prefix: u8) -> Result<(Seq<char>, nat), RespError> {
    match spec_line_end(s, prefix) {
        Err(x) => Err(x),
        Ok(e) => {
            let t = s.subrange(1, e);
            if has_line_break(t) {
                Err(RespError::InvalidFrame)
            } else if !valid_utf8(t) {
                Err(RespError::Utf8Error)
            } else {
                Ok((decode_utf8(t), (e + 2) as nat))
            }
        },
    }
}

/// A count or length header: where its line ends, and the number it holds.
pub open spec fn spec_parse_length(s: Seq<u8>, prefix: u8) -> Result<(int, nat), RespError> {
    match spec_line_end(s, prefix) {
        Err(x) => Err(x),
        Ok(e) => match spec_parse_decimal(s.subrange(1, e), usize::MAX as nat) {
            Some(n) => Ok((e, n)),
            None => Err(RespError::InvalidFrameLength),
        },
    }
}

/// The five-byte legacy null `<prefix>-1\r\n`.
pub open spec fn is_null_form(s: Seq<u8>, prefix: u8) -> bool {
    s.len() >= 5 && s.subrange(0, 5) == seq![prefix, 45u8, 49u8, 13u8, 10u8]
}

pub open spec fn is_aggregate_prefix(c: u8) -> bool {
    c == ARRAY_PREFIX || c == SET_PREFIX || c == MAP_PREFIX
}

pub open spec fn is_line_prefix(c: u8) -> bool {
    c == SIMPLE_STRING_PREFIX || c == SIMPLE_ERROR_PREFIX || c == INTEGER_PREFIX || c
        == BOOLEAN_PREFIX || c == DOUBLE_PREFIX
}

/// How many bytes the frame at the start of `s` takes, found without
/// building it. `NotComplete` when `s` ends before the frame does.
pub open spec fn spec_expect_length(s: Seq<u8>) -> Result<nat, RespError>
    decreases s.len(), 2int, 0int,
{
    if s.len() == 0 {
        Err(RespError::NotComplete)
    } else {
        let c = s[0];
        if is_line_prefix(c) {
            match spec_line_end(s, c) {
                Ok(e) => Ok((e + 2) as nat),
                Err(x) => Err(x),
            }
        } else if c == NULL_PREFIX {
            if s.len() < 3 {
                Err(RespError::NotComplete)
            } else if s.subrange(0, 3) == null_bytes() {
                Ok(3)
            } else {
                Err(RespError::InvalidFrameType)
            }
        } else if c == BULK_STRING_PREFIX {
            if is_null_form(s, c) {
                Ok(5)
            } else {
                match spec_parse_length(s, c) {
                    Err(x) => Err(x),
                    Ok((e, n)) => if e + 4 + n <= s.len() {
                        Ok((e + 4 + n) as nat)
                    } else {
                        Err(RespError::NotComplete)
                    },
                }
            }
        } else if is_aggregate_prefix(c) {
            if c == ARRAY_PREFIX && is_null_form(s, c) {
                Ok(5)
            } else {
                match spec_parse_length(s, c) {
                    Err(x) => Err(x),
                    Ok((e, n)) => spec_calc_total_length(s, e, n, c),
                }
            }
        } else {
            Err(RespError::InvalidFrameType)
        }
    }
}

/// The bytes an aggregate takes: its header line (ending at `end`) and `n`
/// elements (pairs, for a map), each probed in turn.
pub open spec fn spec_calc_total_length(s: Seq<u8>, end: int, n: nat, prefix: u8) -> Result<
    nat,
    RespError,
>
    decreases s.len(), 1int, 0int,
{
    if 0 <= end && end + 2 <= s.len() {
        match spec_probe_many(suffix(s, end + 2), n, prefix == MAP_PREFIX) {
            Ok(k) => Ok((end + 2 + k) as nat),
            Err(x) => Err(x),
        }
    } else {
        Err(RespError::InvalidFrame)
    }
}

/// The bytes that `n` consecutive frames (key/value pairs when `pairs`) take.
pub open spec fn spec_probe_many(s: Seq<u8>, n: nat, pairs: bool) -> Result<nat, RespError>
    decreases s.len(), 3int, n,
{
    if n == 0 {
        Ok(0)
    } else {
        let first: Result<nat, RespError> = if pairs {
            match spec_line_end(s, SIMPLE_STRING_PREFIX) {
                Err(x) => Err(x),
                Ok(e) => {
                    let a = e + 2;
                    if 0 < a <= s.len() {
                        match spec_expect_length(suffix(s, a)) {
                            Err(x) => Err(x),
                            Ok(b) => Ok((a + b) as nat),
                        }
                    } else {
                        Err(RespError::InvalidFrame)
                    }
                },
            }
        } else {
            spec_expect_length(s)
        };
        match first {
            Err(x) => Err(x),
            Ok(k) => if 0 < k <= s.len() {
                match spec_probe_many(suffix(s, k as int), (n - 1) as nat, pairs) {
                    Ok(r) => Ok(k + r),
                    Err(x) => Err(x),
                }
            } else {
                Err(RespError::InvalidFrame)
            },
        }
    }
}

/// Adds `k` consumed bytes to a result.
pub open spec fn shift<T>(k: int, r: Result<(T, nat), RespError>) -> Result<(T, nat), RespError> {
    match r {
        Ok((v, n)) => Ok((v, (k + n) as nat)),
        Err(x) => Err(x),
    }
}

/// The frame at the start of `s` and the number of bytes it takes.
pub open spec fn spec_decode(s: Seq<u8>) -> Result<(FrameV, nat), RespError>
    decreases s.len(), 0int, 0int,
{
    if s.len() == 0 {
        Err(RespError::NotComplete)
    } else {
        let c = s[0];
        if c == SIMPLE_STRING_PREFIX || c == SIMPLE_ERROR_PREFIX {
            match spec_text_line(s, c) {
                Err(x) => Err(x),
                Ok((t, k)) => Ok(
                    (
                        if c == SIMPLE_STRING_PREFIX {
                            FrameV::SimpleString(t)
                        } else {
                            FrameV::Error(t)
                        },
                        k,
                    ),
                ),
            }
        } else if c == INTEGER_PREFIX || c == BOOLEAN_PREFIX || c == DOUBLE_PREFIX {
            match spec_line_end(s, c) {
                Err(x) => Err(x),
                Ok(e) => {
                    let t = s.subrange(1, e);
                    let k = (e + 2) as nat;
                    if c == INTEGER_PREFIX {
                        match spec_parse_i64(t) {
                            Some(v) => Ok((FrameV::Integer(v), k)),
                            None => Err(RespError::ParseIntError),
                        }
                    } else if c == BOOLEAN_PREFIX {
                        if t == seq![116u8] {
                            Ok((FrameV::Boolean(true), k))
                        } else if t == seq![102u8] {
                            Ok((FrameV::Boolean(false), k))
                        } else {
                            Err(RespError::InvalidFrameType)
                        }
                    } else {
                        if is_double_text(t) {
                            Ok((FrameV::Double(t), k))
                        } else {
                            Err(RespError::ParseFloatError)
                        }
                    }
                },
            }
        } else if c == NULL_PREFIX {
            if s.len() < 3 {
                Err(RespError::NotComplete)
            } else if s.subrange(0, 3) == null_bytes() {
                Ok((FrameV::Null, 3))
            } else {
                Err(RespError::InvalidFrameType)
            }
        } else if c == BULK_STRING_PREFIX {
            if is_null_form(s, c) {
                Ok((FrameV::BulkString(None), 5))
            } else {
                match spec_parse_length(s, c) {
                    Err(x) => Err(x),
                    Ok((e, n)) => if e + 4 + n > s.len() {
                        Err(RespError::NotComplete)
                    } else if s.subrange(e + 2 + n, e + 4 + n) != crlf() {
                        Err(RespError::InvalidFrame)
                    } else {
                        Ok((FrameV::BulkString(Some(s.subrange(e + 2, e + 2 + n))), (e + 4 + n) as nat))
                    },
                }
            }
        } else if is_aggregate_prefix(c) {
            if c == ARRAY_PREFIX && is_null_form(s, c) {
                Ok((FrameV::Array(None), 5))
            } else {
                match spec_parse_length(s, c) {
                    Err(x) => Err(x),
                    Ok((e, n)) => match spec_calc_total_length(s, e, n, c) {
                        Err(x) => Err(x),
                        Ok(_) => if 0 <= e && e + 2 <= s.len() {
                            if c == MAP_PREFIX {
                                match spec_decode_entries(suffix(s, e + 2), n, Seq::empty(), Seq::empty()) {
                                    Err(x) => Err(x),
                                    Ok((kv, k)) => Ok((FrameV::RespMap(kv.0, kv.1), (e + 2 + k) as nat)),
                                }
                            } else {
                                match spec_decode_many(suffix(s, e + 2), n, Seq::empty()) {
                                    Err(x) => Err(x),
                                    Ok((fs, k)) => Ok(
                                        (
                                            if c == ARRAY_PREFIX {
                                                FrameV::Array(Some(fs))
                                            } else {
                                                FrameV::RespSet(fs)
                                            },
                                            (e + 2 + k) as nat,
                                        ),
                                    ),
                                }
                            }
                        } else {
                            Err(RespError::InvalidFrame)
                        },
                    },
                }
            }
        } else {
            Err(RespError::InvalidFrameType)
        }
    }
}

/// `n` frames decoded one after the other, appended to `acc`.
pub open spec fn spec_decode_many(s: Seq<u8>, n: nat, acc: Seq<FrameV>) -> Result<
    (Seq<FrameV>, nat),
    RespError,
>
    decreases s.len(), 1int, n,
{
    if n == 0 {
        Ok((acc, 0))
    } else {
        match spec_decode(s) {
            Err(x) => Err(x),
            Ok((f, k)) => if 0 < k <= s.len() {
                shift(k as int, spec_decode_many(suffix(s, k as int), (n - 1) as nat, acc.push(f)))
            } else {
                Err(RespError::InvalidFrame)
            },
        }
    }
}

/// `n` key/value pairs decoded one after the other, inserted into the map `(ks, vs)`.
pub open spec fn spec_decode_entries(
    s: Seq<u8>,
    n: nat,
    ks: Seq<Seq<char>>,
    vs: Seq<FrameV>,
) -> Result<((Seq<Seq<char>>, Seq<FrameV>), nat), RespError>
    decreases s.len(), 1int, n,
{
    if n == 0 {
        Ok(((ks, vs), 0))
    } else {
        match spec_text_line(s, SIMPLE_STRING_PREFIX) {
            Err(x) => Err(x),
            Ok((key, a)) => if 0 < a <= s.len() {
                match spec_decode(suffix(s, a as int)) {
                    Err(x) => Err(x),
                    Ok((v, b)) => if 0 < b <= s.len() - a {
                        let m = map_insert(ks, vs, key, v);
                        shift(
                            (a + b) as int,
                            spec_decode_entries(suffix(s, (a + b) as int), (n - 1) as nat, m.0, m.1),
                        )
                    } else {
                        Err(RespError::InvalidFrame)
                    },
                }
            } else {
                Err(RespError::InvalidFrame)
            },
        }
    }
}

} // verus!

verus! {

pub open spec fn usize_result(r: Result<usize, RespError>) -> Result<nat, RespError> {
    match r {
        Ok(k) => Ok(k as nat),
        Err(x) => Err(x),
    }
}

pub open spec fn add_len(k: int, r: Result<nat, RespError>) -> Result<nat, RespError> {
    match r {
        Ok(n) => Ok((k + n) as nat),
        Err(x) => Err(x),
    }
}

/// The view of what the decoder hands back: the frame's value and the bytes it took.
pub open spec fn decoded_view(r: Result<(RespFrame, usize), RespError>) -> Result<
    (FrameV, nat),
    RespError,
> {
    match r {
        Ok((f, k)) => Ok((f@, k as nat)),
        Err(x) => Err(x),
    }
}

pub proof fn lemma_nth_crlf_bounds(s: Seq<u8>, i: int, nth: nat)
    ensures
        nth_crlf_from_some_in_bounds(s, i, nth),
    decreases s.len() - i,
{
    if !(nth == 0 || i < 0 || i + 1 >= s.len()) {
        lemma_nth_crlf_bounds(s, i + 1, (nth - 1) as nat);
        lemma_nth_crlf_bounds(s, i + 1, nth);
    }
}

pub open spec fn nth_crlf_from_some_in_bounds(s: Seq<u8>, i: int, nth: nat) -> bool {
    match crate::scan::nth_crlf_from(s, i, nth) {
        Some(j) => i <= j && j + 2 <= s.len() && s[j] == 13u8 && s[j + 1] == 10u8,
        None => true,
    }
}

/// Where the first line of a frame with this prefix ends: the index of its `\r\n`.
pub fn extract_simple_frame_data(buf: &[u8], prefix: u8) -> (r: Result<usize, RespError>)
    ensures
        r matches Ok(e) ==> spec_line_end(buf@, prefix) == Ok::<int, RespError>(e as int) && 1 <= e
            && e + 2 <= buf@.len() <= usize::MAX,
        r matches Err(x) ==> spec_line_end(buf@, prefix) == Err::<int, RespError>(x),
{
    if buf.len() < 3 {
        return Err(RespError::NotComplete);
    }
    if buf[0] != prefix {
        return Err(RespError::InvalidFrameType);
    }
    proof {
        lemma_nth_crlf_bounds(buf@, 1, 1);
    }
    match find_crlf(buf, 1) {
        None => Err(RespError::NotComplete),
        Some(e) => Ok(e),
    }
}

/// A count or length header: where its line ends and the number it holds.
pub fn parse_length(buf: &[u8], prefix: u8) -> (r: Result<(usize, usize), RespError>)
    ensures
        r matches Ok((e, n)) ==> spec_parse_length(buf@, prefix) == Ok::<(int, nat), RespError>(
            (e as int, n as nat),
        ) && 1 <= e && e + 2 <= buf@.len(),
        r matches Err(x) ==> spec_parse_length(buf@, prefix) == Err::<(int, nat), RespError>(x),
{
    let e = match extract_simple_frame_data(buf, prefix) {
        Ok(e) => e,
        Err(x) => return Err(x),
    };
    match parse_decimal(slice_subrange(buf, 1, e), usize::MAX as u64) {
        Some(n) => Ok((e, n as usize)),
        None => Err(RespError::InvalidFrameLength),
    }
}

/// Whether `buf` starts with `<prefix>-1\r\n`.
fn check_null_form(buf: &[u8], prefix: u8) -> (r: bool)
    ensures
        r == is_null_form(buf@, prefix),
{
    let r = buf.len() >= 5 && buf[0] == prefix && buf[1] == 45u8 && buf[2] == 49u8 && buf[3] == 13u8
        && buf[4] == 10u8;
    proof {
        if r {
            assert(buf@.subrange(0, 5) =~= seq![prefix, 45u8, 49u8, 13u8, 10u8]);
        }
        if is_null_form(buf@, prefix) {
            let t = buf@.subrange(0, 5);
            assert(t[0] == buf@[0] && t[1] == buf@[1] && t[2] == buf@[2] && t[3] == buf@[3] && t[4]
                == buf@[4]);
        }
    }
    r
}

/// Whether `buf` starts with `_\r\n` (it holds at least three bytes).
fn check_null(buf: &[u8]) -> (r: bool)
    requires
        buf@.len() >= 3,
    ensures
        r == (buf@.subrange(0, 3) == null_bytes()),
{
    let r = buf[0] == 95u8 && buf[1] == 13u8 && buf[2] == 10u8;
    proof {
        if r {
            assert(buf@.subrange(0, 3) =~= null_bytes());
        }
        let t = buf@.subrange(0, 3);
        if t == null_bytes() {
            assert(t[0] == buf@[0] && t[1] == buf@[1] && t[2] == buf@[2]);
        }
    }
    r
}

/// Whether `t` holds a `\r` or a `\n`.
fn contains_line_break(t: &[u8]) -> (r: bool)
    ensures
        r == has_line_break(t@),
{
    let mut i: usize = 0;
    while i < t.len()
        invariant
            i <= t@.len(),
            forall|j: int| 0 <= j < i ==> t@[j] != 13u8 && t@[j] != 10u8,
        decreases t.len() - i,
    {
        if t[i] == 13u8 || t[i] == 10u8 {
            assert(t@[i as int] == 13u8 || t@[i as int] == 10u8);
            return true;
        }
        i = i + 1;
    }
    false
}

/// The text of a simple string or simple error line and the bytes the line takes.
fn decode_text_line(buf: &[u8], prefix: u8) -> (r: Result<(String, usize), RespError>)
    ensures
        r matches Ok((t, k)) ==> spec_text_line(buf@, prefix) == Ok::<(Seq<char>, nat), RespError>(
            (t@, k as nat),
        ),
        r matches Err(x) ==> spec_text_line(buf@, prefix) == Err::<(Seq<char>, nat), RespError>(x),
        r matches Ok((t, k)) ==> 0 < k <= buf@.len(),
{
    let e = match extract_simple_frame_data(buf, prefix) {
        Ok(e) => e,
        Err(x) => return Err(x),
    };
    let k = e + 2;
    let t = slice_subrange(buf, 1, e);
    if contains_line_break(t) {
        return Err(RespError::InvalidFrame);
    }
    match crate::wrappers::utf8_to_string(slice_to_vec(t)) {
        None => Err(RespError::Utf8Error),
        Some(s) => Ok((s, k)),
    }
}

/// How many bytes the frame at the start of `buf` takes, found without
/// building the frame and without consuming anything.
#[verifier::spinoff_prover]
pub fn expect_frame_length(buf: &[u8]) -> (r: Result<usize, RespError>)
    ensures
        usize_result(r) == spec_expect_length(buf@),
    decreases buf@.len(), 2int,
{
    if buf.len() == 0 {
        return Err(RespError::NotComplete);
    }
    let c = buf[0];
    if c == SIMPLE_STRING_PREFIX || c == SIMPLE_ERROR_PREFIX || c == INTEGER_PREFIX || c
        == BOOLEAN_PREFIX || c == DOUBLE_PREFIX {
        match extract_simple_frame_data(buf, c) {
            Ok(e) => Ok(e + 2),
            Err(x) => Err(x),
        }
    } else if c == NULL_PREFIX {
        if buf.len() < 3 {
            Err(RespError::NotComplete)
        } else if check_null(buf) {
            Ok(3)
        } else {
            Err(RespError::InvalidFrameType)
        }
    } else if c == BULK_STRING_PREFIX {
        if check_null_form(buf, c) {
            return Ok(5);
        }
        match parse_length(buf, c) {
            Err(x) => Err(x),
            Ok((e, n)) => if buf.len() >= 4 && e <= buf.len() - 4 && n <= buf.len() - 4 - e {
                Ok(e + 4 + n)
            } else {
                Err(RespError::NotComplete)
            },
        }
    } else if c == ARRAY_PREFIX || c == SET_PREFIX || c == MAP_PREFIX {
        if c == ARRAY_PREFIX && check_null_form(buf, c) {
            return Ok(5);
        }
        match parse_length(buf, c) {
            Err(x) => Err(x),
            Ok((e, n)) => calc_total_length(buf, e, n, c),
        }
    } else {
        Err(RespError::InvalidFrameType)
    }
}

/// The bytes an aggregate takes: its header line (ending at `end`) and `len`
/// elements (pairs, for a map), each probed in turn. Reads only.
#[verifier::spinoff_prover]
pub fn calc_total_length(buf: &[u8], end: usize, len: usize, prefix: u8) -> (r: Result<
    usize,
    RespError,
>)
    ensures
        usize_result(r) == spec_calc_total_length(buf@, end as int, len as nat, prefix),
    decreases buf@.len(), 1int,
{
    if buf.len() < 2 || end > buf.len() - 2 {
        return Err(RespError::InvalidFrame);
    }
    let h = end + 2;
    let pairs = prefix == MAP_PREFIX;
    let ghost s0 = suffix(buf@, h as int);
    let mut pos: usize = h;
    let mut i: usize = 0;
    while i < len
        invariant
            h <= pos <= buf@.len(),
            i <= len,
            h >= 2,
            s0 == suffix(buf@, h as int),
            h == end + 2,
            pairs == (prefix == MAP_PREFIX),
            spec_calc_total_length(buf@, end as int, len as nat, prefix) == add_len(
                h as int,
                spec_probe_many(s0, len as nat, pairs),
            ),
            spec_probe_many(s0, len as nat, pairs) == add_len(
                pos - h,
                spec_probe_many(suffix(buf@, pos as int), (len - i) as nat, pairs),
            ),
        decreases len - i,
    {
        let rest = slice_subrange(buf, pos, buf.len());
        let k: usize = if pairs {
            match extract_simple_frame_data(rest, SIMPLE_STRING_PREFIX) {
                Err(x) => return Err(x),
                Ok(e) => {
                    let a = e + 2;
                    let value = slice_subrange(rest, a, rest.len());
                    match expect_frame_length(value) {
                        Err(x) => return Err(x),
                        Ok(b) => {
                            if b > rest.len() - a {
                                return Err(RespError::InvalidFrame);
                            }
                            a + b
                        },
                    }
                },
            }
        } else {
            match expect_frame_length(rest) {
                Err(x) => return Err(x),
                Ok(k) => k,
            }
        };
        if k == 0 || k > rest.len() {
            return Err(RespError::InvalidFrame);
        }
        proof {
            assert(suffix(rest@, k as int) =~= suffix(buf@, pos + k));
        }
        pos = pos + k;
        i = i + 1;
    }
    Ok(pos)
}

/// Decodes the frame at the start of `buf`: the frame and the number of
/// bytes it takes. Reads only; `NotComplete` when `buf` ends too early.
#[verifier::spinoff_prover]
pub fn decode_frame(buf: &[u8]) -> (r: Result<(RespFrame, usize), RespError>)
    ensures
        decoded_view(r) == spec_decode(buf@),
        r matches Ok((f, k)) ==> 0 < k <= buf@.len(),
    decreases buf@.len(), 2int,
{
    let n = buf.len();
    if n == 0 {
        return Err(RespError::NotComplete);
    }
    let c = buf[0];
    if c == SIMPLE_STRING_PREFIX || c == SIMPLE_ERROR_PREFIX {
        match decode_text_line(buf, c) {
            Err(x) => Err(x),
            Ok((t, k)) => if c == SIMPLE_STRING_PREFIX {
                Ok((RespFrame::SimpleString(SimpleString(t)), k))
            } else {
                Ok((RespFrame::Error(SimpleError(t)), k))
            },
        }
    } else if c == INTEGER_PREFIX || c == BOOLEAN_PREFIX || c == DOUBLE_PREFIX {
        decode_scalar_line(buf)
    } else if c == NULL_PREFIX {
        if n < 3 {
            Err(RespError::NotComplete)
        } else if check_null(buf) {
            Ok((RespFrame::Null(RespNull), 3))
        } else {
            Err(RespError::InvalidFrameType)
        }
    } else if c == BULK_STRING_PREFIX {
        decode_bulk(buf)
    } else if c == ARRAY_PREFIX || c == SET_PREFIX || c == MAP_PREFIX {
        decode_aggregate(buf)
    } else {
        Err(RespError::InvalidFrameType)
    }
}

/// An integer, boolean or double line.
#[verifier::spinoff_prover]
fn decode_scalar_line(buf: &[u8]) -> (r: Result<(RespFrame, usize), RespError>)
    requires
        buf@.len() > 0,
        buf@[0] == INTEGER_PREFIX || buf@[0] == BOOLEAN_PREFIX || buf@[0] == DOUBLE_PREFIX,
    ensures
        decoded_view(r) == spec_decode(buf@),
        r matches Ok((f, k)) ==> 0 < k <= buf@.len(),
{
    let c = buf[0];
    let e = match extract_simple_frame_data(buf, c) {
        Ok(e) => e,
        Err(x) => return Err(x),
    };
    let t = slice_subrange(buf, 1, e);
    let k = e + 2;
    if c == INTEGER_PREFIX {
        match parse_i64(t) {
            Some(v) => Ok((RespFrame::Integer(v), k)),
            None => Err(RespError::ParseIntError),
        }
    } else if c == BOOLEAN_PREFIX {
        if t.len() == 1 && t[0] == 116u8 {
            assert(t@ =~= seq![116u8]);
            Ok((RespFrame::Boolean(true), k))
        } else if t.len() == 1 && t[0] == 102u8 {
            assert(t@ =~= seq![102u8]);
            Ok((RespFrame::Boolean(false), k))
        } else {
            proof {
                if t@ == seq![116u8] || t@ == seq![102u8] {
                    assert(t@.len() == 1 && t@[0] == seq![116u8][0] || t@[0] == seq![102u8][0]);
                }
            }
            Err(RespError::InvalidFrameType)
        }
    } else {
        if check_double_text(t) {
            Ok((RespFrame::Double(slice_to_vec(t)), k))
        } else {
            Err(RespError::ParseFloatError)
        }
    }
}

/// A bulk string, or its legacy null form.
#[verifier::spinoff_prover]
fn decode_bulk(buf: &[u8]) -> (r: Result<(RespFrame, usize), RespError>)
    requires
        buf@.len() > 0,
        buf@[0] == BULK_STRING_PREFIX,
    ensures
        decoded_view(r) == spec_decode(buf@),
        r matches Ok((f, k)) ==> 0 < k <= buf@.len(),
{
    let n = buf.len();
    let c = buf[0];
    if check_null_form(buf, c) {
        return Ok((RespFrame::BulkString(BulkString(None)), 5));
    }
    let (e, len) = match parse_length(buf, c) {
        Ok(p) => p,
        Err(x) => return Err(x),
    };
    if n < 4 || e > n - 4 || len > n - 4 - e {
        return Err(RespError::NotComplete);
    }
    let start = e + 2;
    let stop = start + len;
    if buf[stop] != 13u8 || buf[stop + 1] != 10u8 {
        proof {
            let tail = buf@.subrange(stop as int, stop + 2);
            assert(tail[0] == buf@[stop as int] && tail[1] == buf@[stop + 1]);
            assert(tail != crlf());
        }
        return Err(RespError::InvalidFrame);
    }
    assert(buf@.subrange(stop as int, stop + 2) =~= crlf());
    let data = slice_to_vec(slice_subrange(buf, start, stop));
    Ok((RespFrame::BulkString(BulkString(Some(data))), stop + 2))
}

/// An array, set or map: probed whole first, then decoded element by element.
#[verifier::spinoff_prover]
fn decode_aggregate(buf: &[u8]) -> (r: Result<(RespFrame, usize), RespError>)
    requires
        buf@.len() > 0,
        is_aggregate_prefix(buf@[0]),
    ensures
        decoded_view(r) == spec_decode(buf@),
        r matches Ok((f, k)) ==> 0 < k <= buf@.len(),
    decreases buf@.len(), 1int,
{
    let c = buf[0];
    if c == ARRAY_PREFIX && check_null_form(buf, c) {
        return Ok((RespFrame::Array(RespArray(None)), 5));
    }
    let (e, len) = match parse_length(buf, c) {
        Ok(p) => p,
        Err(x) => return Err(x),
    };
    match calc_total_length(buf, e, len, c) {
        Err(x) => return Err(x),
        Ok(_) => {},
    }
    if c == MAP_PREFIX {
        match decode_entries(buf, e + 2, len) {
            Err(x) => Err(x),
            Ok((m, k)) => Ok((RespFrame::RespMap(m), k)),
        }
    } else {
        match decode_many(buf, e + 2, len) {
            Err(x) => Err(x),
            Ok((v, k)) => if c == ARRAY_PREFIX {
                Ok((RespFrame::Array(RespArray(Some(v))), k))
            } else {
                Ok((RespFrame::RespSet(RespSet(v)), k))
            },
        }
    }
}

/// Decodes `count` frames that start at `h`; hands back the frames and where they end.
#[verifier::spinoff_prover]
fn decode_many(buf: &[u8], h: usize, count: usize) -> (r: Result<(Vec<RespFrame>, usize), RespError>)
    requires
        3 <= h <= buf@.len(),
    ensures
        match r {
            Ok((v, k)) => shift(h as int, spec_decode_many(suffix(buf@, h as int), count as nat, Seq::empty()))
                == Ok::<(Seq<FrameV>, nat), RespError>((frames_view(v@), k as nat)),
            Err(x) => spec_decode_many(suffix(buf@, h as int), count as nat, Seq::empty()) == Err::<
                (Seq<FrameV>, nat),
                RespError,
            >(x),
        },
        r matches Ok((v, k)) ==> h <= k <= buf@.len(),
    decreases buf@.len(), 0int,
{
    let ghost s0 = suffix(buf@, h as int);
    let mut v: Vec<RespFrame> = Vec::new();
    let mut pos: usize = h;
    let mut i: usize = 0;
    while i < count
        invariant
            h <= pos <= buf@.len(),
            h >= 3,
            i <= count,
            s0 == suffix(buf@, h as int),
            spec_decode_many(s0, count as nat, Seq::empty()) == shift(
                pos - h,
                spec_decode_many(suffix(buf@, pos as int), (count - i) as nat, frames_view(v@)),
            ),
        decreases count - i,
    {
        let rest = slice_subrange(buf, pos, buf.len());
        let (f, k) = match decode_frame(rest) {
            Ok(p) => p,
            Err(x) => return Err(x),
        };
        if k == 0 || k > rest.len() {
            return Err(RespError::InvalidFrame);
        }
        proof {
            assert(suffix(rest@, k as int) =~= suffix(buf@, pos + k));
            let old_v = v@;
            assert(old_v.push(f).drop_last() =~= old_v);
        }
        v.push(f);
        pos = pos + k;
        i = i + 1;
    }
    Ok((v, pos))
}

/// Decodes `count` key/value pairs that start at `h` into a map; hands back
/// the map and where the pairs end.
#[verifier::spinoff_prover]
fn decode_entries(buf: &[u8], h: usize, count: usize) -> (r: Result<(RespMap, usize), RespError>)
    requires
        3 <= h <= buf@.len(),
    ensures
        match r {
            Ok((m, k)) => shift(
                h as int,
                spec_decode_entries(suffix(buf@, h as int), count as nat, Seq::empty(), Seq::empty()),
            ) == Ok::<((Seq<Seq<char>>, Seq<FrameV>), nat), RespError>(
                ((m.keys_spec(), m.values_spec()), k as nat),
            ),
            Err(x) => spec_decode_entries(suffix(buf@, h as int), count as nat, Seq::empty(), Seq::empty())
                == Err::<((Seq<Seq<char>>, Seq<FrameV>), nat), RespError>(x),
        },
        r matches Ok((m, k)) ==> h <= k <= buf@.len(),
    decreases buf@.len(), 0int,
{
    let ghost s0 = suffix(buf@, h as int);
    let mut m = RespMap::new();
    proof {
        assert(m.keys_spec() =~= Seq::<Seq<char>>::empty());
        assert(m.values_spec() =~= Seq::<FrameV>::empty());
    }
    let mut pos: usize = h;
    let mut i: usize = 0;
    while i < count
        invariant
            h <= pos <= buf@.len(),
            h >= 3,
            i <= count,
            s0 == suffix(buf@, h as int),
            spec_decode_entries(s0, count as nat, Seq::empty(), Seq::empty()) == shift(
                pos - h,
                spec_decode_entries(suffix(buf@, pos as int), (count - i) as nat, m.keys_spec(), m.values_spec()),
            ),
        decreases count - i,
    {
        let rest = slice_subrange(buf, pos, buf.len());
        let (key, a) = match decode_text_line(rest, SIMPLE_STRING_PREFIX) {
            Ok(p) => p,
            Err(x) => return Err(x),
        };
        if a == 0 || a > rest.len() {
            return Err(RespError::InvalidFrame);
        }
        let (value, b) = match decode_frame(slice_subrange(rest, a, rest.len())) {
            Ok(p) => p,
            Err(x) => return Err(x),
        };
        if b == 0 || b > rest.len() - a {
            return Err(RespError::InvalidFrame);
        }
        proof {
            assert(suffix(rest@, (a + b) as int) =~= suffix(buf@, pos + a + b));
        }
        m.insert(key, value);
        pos = pos + a + b;
        i = i + 1;
    }
    Ok((m, pos))
}

} // verus!
