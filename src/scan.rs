use vstd::prelude::*;

verus! {

/// Whether the two bytes at `i` are `\r\n`.
pub open spec fn is_crlf_at(s: Seq<u8>, i: int) -> bool {
    0 <= i && i + 1 < s.len() && s[i] == 13u8 && s[i + 1] == 10u8
}

/// The `nth` `\r\n` (counting from one) at or after `i`.
pub open spec fn nth_crlf_from(s: Seq<u8>, i: int, nth: nat) -> Option<int>
    decreases s.len() - i,
{
    if nth == 0 || i < 0 || i + 1 >= s.len() {
        None
    } else if is_crlf_at(s, i) {
        if nth == 1 {
            Some(i)
        } else {
            nth_crlf_from(s, i + 1, (nth - 1) as nat)
        }
    } else {
        nth_crlf_from(s, i + 1, nth)
    }
}

/// The end of a line: the first `\r\n` after the prefix byte.
pub open spec fn first_crlf(s: Seq<u8>) -> Option<int> {
    nth_crlf_from(s, 1, 1)
}

pub open spec fn is_digit(b: u8) -> bool {
    48u8 <= b && b <= 57u8
}

/// A non-empty run of decimal digits.
pub open spec fn is_digits(t: Seq<u8>) -> bool {
    t.len() > 0 && forall|i: int| 0 <= i < t.len() ==> is_digit(#[trigger] t[i])
}

/// The number that a run of decimal digits stands for.
pub open spec fn digits_value(t: Seq<u8>) -> nat
    decreases t.len(),
{
    if t.len() == 0 {
        0
    } else {
        digits_value(t.drop_last()) * 10 + (t.last() - 48) as nat
    }
}

/// A decimal number without sign that is at most `limit`.
pub open spec fn spec_parse_decimal(t: Seq<u8>, limit: nat) -> Option<nat> {
    if is_digits(t) && digits_value(t) <= limit {
        Some(digits_value(t))
    } else {
        None
    }
}

/// An `i64` written as an optional sign and decimal digits.
pub open spec fn spec_parse_i64(t: Seq<u8>) -> Option<int> {
    if t.len() > 0 && t[0] == 45u8 {
        match spec_parse_decimal(t.subrange(1, t.len() as int), 0x8000_0000_0000_0000) {
            Some(v) => Some(-(v as int)),
            None => None,
        }
    } else {
        let body = if t.len() > 0 && t[0] == 43u8 {
            t.subrange(1, t.len() as int)
        } else {
            t
        };
        match spec_parse_decimal(body, 0x7fff_ffff_ffff_ffff) {
            Some(v) => Some(v as int),
            None => None,
        }
    }
}

/// The number of decimal digits in `t` from `i` on, before the first other byte.
pub open spec fn digit_run(t: Seq<u8>, i: int) -> nat
    decreases t.len() - i,
{
    if 0 <= i < t.len() && is_digit(t[i]) {
        1 + digit_run(t, i + 1)
    } else {
        0
    }
}

/// Where an optional fraction `.<digits>` that starts at `p` ends; `None` if it is malformed.
pub open spec fn after_fraction(t: Seq<u8>, p: int) -> Option<int> {
    if p < t.len() && t[p] == 46u8 {
        let d = digit_run(t, p + 1);
        if d == 0 {
            None
        } else {
            Some(p + 1 + d)
        }
    } else {
        Some(p)
    }
}

/// Where an optional exponent `e[sign]<digits>` that starts at `p` ends; `None` if it is malformed.
pub open spec fn after_exponent(t: Seq<u8>, p: int) -> Option<int> {
    if p < t.len() && (t[p] == 101u8 || t[p] == 69u8) {
        let q = if p + 1 < t.len() && (t[p + 1] == 43u8 || t[p + 1] == 45u8) {
            p + 2
        } else {
            p + 1
        };
        let d = digit_run(t, q);
        if d == 0 {
            None
        } else {
            Some(q + d)
        }
    } else {
        Some(p)
    }
}

/// The text of a double: `[+|-]` then `inf`, `nan`, or
/// `<digits>[.<digits>][(e|E)[+|-]<digits>]`.
pub open spec fn is_double_text(t: Seq<u8>) -> bool {
    let s = if t.len() > 0 && (t[0] == 43u8 || t[0] == 45u8) {
        1int
    } else {
        0int
    };
    let body = t.subrange(s, t.len() as int);
    if body =~= seq![105u8, 110u8, 102u8] || body =~= seq![110u8, 97u8, 110u8] {
        true
    } else {
        let d = digit_run(t, s);
        d > 0 && match after_fraction(t, s + d) {
            None => false,
            Some(p) => match after_exponent(t, p) {
                None => false,
                Some(q) => q == t.len(),
            },
        }
    }
}

/// Index of the `nth` `\r\n` in `buf`, counting from one and looking from
/// index 1 on (index 0 holds a frame's prefix byte).
pub fn find_crlf(buf: &[u8], nth: usize) -> (r: Option<usize>)
    ensures
        r matches Some(i) ==> Some(i as int) == nth_crlf_from(buf@, 1, nth as nat),
        r is None ==> nth_crlf_from(buf@, 1, nth as nat) is None,
{
    if nth == 0 {
        return None;
    }
    if buf.len() < 2 {
        return None;
    }
    let mut count: usize = 0;
    let mut i: usize = 1;
    while i < buf.len() - 1
        invariant
            1 <= i,
            buf@.len() >= 2,
            count < nth,
            nth_crlf_from(buf@, 1, nth as nat) == nth_crlf_from(buf@, i as int, (nth - count) as nat),
        decreases buf.len() - i,
    {
        if buf[i] == 13u8 && buf[i + 1] == 10u8 {
            count = count + 1;
            if count == nth {
                return Some(i);
            }
        }
        i = i + 1;
    }
    None
}

/// Where a run of digits that starts at `i` ends.
pub fn skip_digits(t: &[u8], i: usize) -> (r: usize)
    requires
        i <= t@.len(),
    ensures
        r == i + digit_run(t@, i as int),
        r <= t@.len(),
{
    let mut j: usize = i;
    while j < t.len() && t[j] >= 48u8 && t[j] <= 57u8
        invariant
            i <= j <= t@.len(),
            digit_run(t@, i as int) == (j - i) + digit_run(t@, j as int),
        decreases t.len() - j,
    {
        j = j + 1;
    }
    j
}

/// Parses unsigned decimal digits whose value is at most `limit`.
pub fn parse_decimal(t: &[u8], limit: u64) -> (r: Option<u64>)
    ensures
        r matches Some(v) ==> spec_parse_decimal(t@, limit as nat) == Some(v as nat),
        r is None ==> spec_parse_decimal(t@, limit as nat) is None,
{
    if t.len() == 0 {
        return None;
    }
    let mut v: u64 = 0;
    let mut i: usize = 0;
    while i < t.len()
        invariant
            i <= t@.len(),
            t@.len() > 0,
            v as nat == digits_value(t@.subrange(0, i as int)),
            v <= limit,
            forall|j: int| 0 <= j < i ==> is_digit(#[trigger] t@[j]),
        decreases t.len() - i,
    {
        let b = t[i];
        proof {
            let p = t@.subrange(0, i as int + 1);
            assert(p.drop_last() =~= t@.subrange(0, i as int));
        }
        if b < 48u8 || b > 57u8 {
            return None;
        }
        let d: u64 = (b - 48u8) as u64;
        if d > limit || v > (limit - d) / 10 {
            proof {
                assert(v * 10 + d > limit) by (nonlinear_arith)
                    requires
                        d > limit || v > (limit - d) / 10,
                        d <= 9,
                        v >= 0,
                ;
                lemma_digits_value_monotone(t@, i as int + 1);
            }
            return None;
        }
        proof {
            assert(v * 10 + d <= limit) by (nonlinear_arith)
                requires
                    v <= (limit - d) / 10,
                    d <= limit,
            ;
        }
        v = v * 10 + d;
        i = i + 1;
    }
    assert(t@.subrange(0, i as int) =~= t@);
    Some(v)
}

/// A prefix's value never exceeds the whole's, for runs of digits.
proof fn lemma_digits_value_monotone(t: Seq<u8>, k: int)
    requires
        0 <= k <= t.len(),
    ensures
        digits_value(t.subrange(0, k)) <= digits_value(t),
    decreases t.len() - k,
{
    if k < t.len() {
        lemma_digits_value_monotone(t, k + 1);
        let p = t.subrange(0, k + 1);
        assert(p.drop_last() =~= t.subrange(0, k));
        let a = digits_value(t.subrange(0, k));
        assert(digits_value(p) == a * 10 + (p.last() - 48) as nat);
        assert(a * 10 >= a) by (nonlinear_arith)
            requires
                a >= 0,
        ;
    } else {
        assert(t.subrange(0, k) =~= t);
    }
}

/// Parses an `i64` written as an optional sign and decimal digits.
pub fn parse_i64(t: &[u8]) -> (r: Option<i64>)
    ensures
        r matches Some(v) ==> spec_parse_i64(t@) == Some(v as int),
        r is None ==> spec_parse_i64(t@) is None,
{
    if t.len() > 0 && t[0] == 45u8 {
        let body = vstd::slice::slice_subrange(t, 1, t.len());
        match parse_decimal(body, 0x8000_0000_0000_0000u64) {
            Some(v) => {
                let n: i128 = -(v as i128);
                Some(n as i64)
            },
            None => None,
        }
    } else {
        let body = if t.len() > 0 && t[0] == 43u8 {
            vstd::slice::slice_subrange(t, 1, t.len())
        } else {
            t
        };
        match parse_decimal(body, 0x7fff_ffff_ffff_ffffu64) {
            Some(v) => Some(v as i64),
            None => None,
        }
    }
}

/// Whether `t` is the text of a double (see `is_double_text`).
pub fn check_double_text(t: &[u8]) -> (r: bool)
    ensures
        r == is_double_text(t@),
{
    let s: usize = if t.len() > 0 && (t[0] == 43u8 || t[0] == 45u8) {
        1
    } else {
        0
    };
    let n = t.len();
    if n - s == 3 && ((t[s] == 105u8 && t[s + 1] == 110u8 && t[s + 2] == 102u8) || (t[s] == 110u8
        && t[s + 1] == 97u8 && t[s + 2] == 110u8)) {
        proof {
            let body = t@.subrange(s as int, n as int);
            assert(body =~= seq![105u8, 110u8, 102u8] || body =~= seq![110u8, 97u8, 110u8]);
        }
        return true;
    }
    proof {
        let body = t@.subrange(s as int, n as int);
        if body =~= seq![105u8, 110u8, 102u8] || body =~= seq![110u8, 97u8, 110u8] {
            assert(body.len() == 3);
            assert(body[0] == t@[s as int] && body[1] == t@[s + 1] && body[2] == t@[s + 2]);
        }
    }
    let int_end = skip_digits(t, s);
    if int_end == s {
        return false;
    }
    let mut p: usize = int_end;
    if p < n && t[p] == 46u8 {
        let q = skip_digits(t, p + 1);
        if q == p + 1 {
            return false;
        }
        p = q;
    }
    if p < n && (t[p] == 101u8 || t[p] == 69u8) {
        let mut q: usize = p + 1;
        if q < n && (t[q] == 43u8 || t[q] == 45u8) {
            q = q + 1;
        }
        let e = skip_digits(t, q);
        if e == q {
            return false;
        }
        p = e;
    }
    p == n
}

} // verus!
