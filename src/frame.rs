use vstd::prelude::*;
use vstd::utf8::encode_utf8;

verus! {

/// The mathematical value of a frame: what the encoder writes and the decoder reads.
pub enum FrameV {
    SimpleString(Seq<char>),
    Error(Seq<char>),
    Integer(int),
    BulkString(Option<Seq<u8>>),
    Array(Option<Seq<FrameV>>),
    Null,
    Boolean(bool),
    Double(Seq<u8>),
    RespMap(Seq<Seq<char>>, Seq<FrameV>),
    RespSet(Seq<FrameV>),
}

/// Errors of the frame decoder.
#[derive(Debug, Clone, Copy, PartialEq, Eq, Structural)]
pub enum RespError {
    /// The bytes are not a well-formed frame (missing terminator, bad payload).
    InvalidFrame,
    /// The leading byte or a literal token does not match any frame type.
    InvalidFrameType,
    /// A length or count header is not a decimal number.
    InvalidFrameLength,
    /// More bytes are needed before a frame can be decoded.
    NotComplete,
    /// An integer payload is not a decimal number in the range of `i64`.
    ParseIntError,
    /// A double payload is not a decimal or exponential number.
    ParseFloatError,
    /// A text payload is not valid UTF-8.
    Utf8Error,
}

/// `+<text>\r\n`
#[derive(Debug, Clone, PartialEq, Eq)]
pub struct SimpleString(pub String);

/// `-<text>\r\n`
#[derive(Debug, Clone, PartialEq, Eq)]
pub struct SimpleError(pub String);

/// `$<len>\r\n<bytes>\r\n`, or the null form `$-1\r\n` when the payload is `None`.
#[derive(Debug, Clone, PartialEq, Eq)]
pub struct BulkString(pub Option<Vec<u8>>);

/// `*<count>\r\n<frames>`, or the null form `*-1\r\n` when the payload is `None`.
#[derive(Debug, PartialEq, Eq)]
pub struct RespArray(pub Option<Vec<RespFrame>>);

/// `_\r\n`
#[derive(Debug, Clone, Copy, PartialEq, Eq)]
pub struct RespNull;

/// The legacy null bulk string `$-1\r\n`.
#[derive(Debug, Clone, Copy, PartialEq, Eq)]
pub struct RespNullBulkString;

/// The legacy null array `*-1\r\n`.
#[derive(Debug, Clone, Copy, PartialEq, Eq)]
pub struct RespNullArray;

/// `%<count>\r\n` followed by key/value pairs; keys are simple strings kept
/// unique and sorted by their UTF-8 bytes.
#[derive(Debug, PartialEq, Eq)]
pub struct RespMap {
    pub entries: Vec<MapEntry>,
}

/// One key/value pair of a map frame.
#[derive(Debug, PartialEq, Eq)]
pub struct MapEntry {
    pub key: String,
    pub value: RespFrame,
}

/// `~<count>\r\n<frames>`
#[derive(Debug, PartialEq, Eq)]
pub struct RespSet(pub Vec<RespFrame>);

/// One value of the protocol.
#[derive(Debug, PartialEq, Eq)]
pub enum RespFrame {
    SimpleString(SimpleString),
    Error(SimpleError),
    Integer(i64),
    BulkString(BulkString),
    Array(RespArray),
    Null(RespNull),
    Boolean(bool),
    /// The decimal text of a double, such as `1.5` or `-2e10`.
    Double(Vec<u8>),
    RespMap(RespMap),
    RespSet(RespSet),
}

pub open spec fn frame_view(f: RespFrame) -> FrameV
    decreases f, 0int,
{
    match f {
        RespFrame::SimpleString(s) => FrameV::SimpleString(s.0@),
        RespFrame::Error(s) => FrameV::Error(s.0@),
        RespFrame::Integer(i) => FrameV::Integer(i as int),
        RespFrame::BulkString(b) => FrameV::BulkString(
            match b.0 {
                Some(v) => Some(v@),
                None => None,
            },
        ),
        RespFrame::Array(a) => FrameV::Array(
            match a.0 {
                Some(v) => Some(frames_view(v@)),
                None => None,
            },
        ),
        RespFrame::Null(_) => FrameV::Null,
        RespFrame::Boolean(b) => FrameV::Boolean(b),
        RespFrame::Double(d) => FrameV::Double(d@),
        RespFrame::RespMap(m) => FrameV::RespMap(keys_view(m.entries@), values_view(m.entries@)),
        RespFrame::RespSet(s) => FrameV::RespSet(frames_view(s.0@)),
    }
}

pub open spec fn frames_view(s: Seq<RespFrame>) -> Seq<FrameV>
    decreases s, 1int,
{
    if s.len() == 0 {
        Seq::empty()
    } else {
        frames_view(s.drop_last()).push(frame_view(s.last()))
    }
}

pub open spec fn values_view(s: Seq<MapEntry>) -> Seq<FrameV>
    decreases s, 1int,
{
    if s.len() == 0 {
        Seq::empty()
    } else {
        values_view(s.drop_last()).push(frame_view(s.last().value))
    }
}

pub open spec fn keys_view(s: Seq<MapEntry>) -> Seq<Seq<char>> {
    Seq::new(s.len(), |i: int| s[i].key@)
}

pub proof fn lemma_frames_view_len(s: Seq<RespFrame>)
    ensures
        frames_view(s).len() == s.len(),
    decreases s.len(),
{
    if s.len() > 0 {
        lemma_frames_view_len(s.drop_last());
    }
}

pub proof fn lemma_values_view_len(s: Seq<MapEntry>)
    ensures
        values_view(s).len() == s.len(),
    decreases s.len(),
{
    if s.len() > 0 {
        lemma_values_view_len(s.drop_last());
    }
}

pub proof fn lemma_frames_view_index(s: Seq<RespFrame>)
    ensures
        frames_view(s).len() == s.len(),
        forall|j: int| 0 <= j < s.len() ==> #[trigger] frames_view(s)[j] == frame_view(s[j]),
    decreases s.len(),
{
    if s.len() > 0 {
        lemma_frames_view_index(s.drop_last());
    }
}

pub proof fn lemma_values_view_index(s: Seq<MapEntry>)
    ensures
        values_view(s).len() == s.len(),
        forall|j: int| 0 <= j < s.len() ==> #[trigger] values_view(s)[j] == frame_view(s[j].value),
    decreases s.len(),
{
    if s.len() > 0 {
        lemma_values_view_index(s.drop_last());
    }
}

/// Lexicographic order on byte strings; a proper prefix comes first.
pub open spec fn bytes_lt(a: Seq<u8>, b: Seq<u8>) -> bool
    decreases a.len(),
{
    if a.len() == 0 {
        b.len() > 0
    } else if b.len() == 0 {
        false
    } else if a[0] != b[0] {
        a[0] < b[0]
    } else {
        bytes_lt(a.drop_first(), b.drop_first())
    }
}

/// Map keys are ordered by their UTF-8 bytes.
pub open spec fn key_lt(a: Seq<char>, b: Seq<char>) -> bool {
    bytes_lt(encode_utf8(a), encode_utf8(b))
}

/// The first index from `i` on whose key is not below `k`.
pub open spec fn insert_pos(ks: Seq<Seq<char>>, k: Seq<char>, i: int) -> int
    decreases ks.len() - i,
{
    if i < 0 || i >= ks.len() || !key_lt(ks[i], k) {
        i
    } else {
        insert_pos(ks, k, i + 1)
    }
}

/// Setting key `k` to `v` in a map kept as parallel key and value sequences:
/// an existing key has its value replaced, a new one goes before the first
/// key that is not below it.
pub open spec fn map_insert(ks: Seq<Seq<char>>, vs: Seq<FrameV>, k: Seq<char>, v: FrameV) -> (
    Seq<Seq<char>>,
    Seq<FrameV>,
) {
    let i = insert_pos(ks, k, 0);
    if i < ks.len() && ks[i] == k {
        (ks, vs.update(i, v))
    } else {
        (ks.insert(i, k), vs.insert(i, v))
    }
}

/// Keys strictly ascending, hence unique.
pub open spec fn keys_sorted(ks: Seq<Seq<char>>) -> bool {
    forall|i: int, j: int| 0 <= i < j < ks.len() ==> key_lt(#[trigger] ks[i], #[trigger] ks[j])
}

proof fn lemma_bytes_lt_trans(a: Seq<u8>, b: Seq<u8>, c: Seq<u8>)
    requires
        bytes_lt(a, b),
        bytes_lt(b, c),
    ensures
        bytes_lt(a, c),
    decreases a.len(),
{
    if a.len() > 0 && b.len() > 0 && c.len() > 0 && a[0] == b[0] && b[0] == c[0] {
        lemma_bytes_lt_trans(a.drop_first(), b.drop_first(), c.drop_first());
    }
}

proof fn lemma_bytes_lt_total(a: Seq<u8>, b: Seq<u8>)
    ensures
        a == b || bytes_lt(a, b) || bytes_lt(b, a),
    decreases a.len(),
{
    if a.len() > 0 && b.len() > 0 && a[0] == b[0] {
        lemma_bytes_lt_total(a.drop_first(), b.drop_first());
        if a.drop_first() == b.drop_first() {
            assert(a =~= seq![a[0]] + a.drop_first());
            assert(b =~= seq![b[0]] + b.drop_first());
        }
    } else if a.len() == 0 && b.len() == 0 {
        assert(a =~= b);
    }
}

proof fn lemma_bytes_lt_irreflexive(a: Seq<u8>)
    ensures
        !bytes_lt(a, a),
    decreases a.len(),
{
    if a.len() > 0 {
        lemma_bytes_lt_irreflexive(a.drop_first());
    }
}

/// Map keys are totally and strictly ordered.
proof fn lemma_key_order(a: Seq<char>, b: Seq<char>, c: Seq<char>)
    ensures
        key_lt(a, b) && key_lt(b, c) ==> key_lt(a, c),
        a == b || key_lt(a, b) || key_lt(b, a),
        !key_lt(a, a),
{
    if key_lt(a, b) && key_lt(b, c) {
        lemma_bytes_lt_trans(encode_utf8(a), encode_utf8(b), encode_utf8(c));
    }
    lemma_bytes_lt_total(encode_utf8(a), encode_utf8(b));
    vstd::utf8::encode_utf8_decode_utf8(a);
    vstd::utf8::encode_utf8_decode_utf8(b);
    lemma_bytes_lt_irreflexive(encode_utf8(a));
}

/// Keys before the insertion point are below the new key.
pub proof fn lemma_insert_pos_below(ks: Seq<Seq<char>>, k: Seq<char>, i: int)
    requires
        0 <= i <= ks.len(),
    ensures
        i <= insert_pos(ks, k, i) <= ks.len(),
        forall|j: int| i <= j < insert_pos(ks, k, i) ==> key_lt(#[trigger] ks[j], k),
        insert_pos(ks, k, i) < ks.len() ==> !key_lt(ks[insert_pos(ks, k, i)], k),
    decreases ks.len() - i,
{
    if i < ks.len() && key_lt(ks[i], k) {
        lemma_insert_pos_below(ks, k, i + 1);
    }
}

/// Inserting into a sorted map keeps it sorted.
pub proof fn lemma_map_insert_sorted(ks: Seq<Seq<char>>, vs: Seq<FrameV>, k: Seq<char>, v: FrameV)
    requires
        keys_sorted(ks),
    ensures
        keys_sorted(map_insert(ks, vs, k, v).0),
{
    let p = insert_pos(ks, k, 0);
    lemma_insert_pos_below(ks, k, 0);
    if !(p < ks.len() && ks[p] == k) {
        let ks2 = ks.insert(p, k);
        if p < ks.len() {
            lemma_key_order(ks[p], k, k);
        }
        assert forall|a: int, b: int| 0 <= a < b < ks2.len() implies key_lt(#[trigger] ks2[a], #[trigger] ks2[b]) by {
            if b < p {
                assert(ks2[a] == ks[a] && ks2[b] == ks[b]);
            } else if b == p {
                assert(ks2[a] == ks[a]);
            } else if a < p {
                assert(ks2[a] == ks[a] && ks2[b] == ks[b - 1]);
                lemma_key_order(ks[a], k, ks[p]);
                if b - 1 > p {
                    lemma_key_order(ks[a], ks[p], ks[b - 1]);
                }
                lemma_key_order(ks[a], k, ks[b - 1]);
                lemma_key_order(k, ks[p], ks[b - 1]);
            } else if a == p {
                assert(ks2[b] == ks[b - 1]);
                if b - 1 > p {
                    lemma_key_order(k, ks[p], ks[b - 1]);
                }
            } else {
                assert(ks2[a] == ks[a - 1] && ks2[b] == ks[b - 1]);
            }
        }
    }
}

/// Whether `a` sorts before `b`, byte by byte.
pub fn bytes_less(a: &[u8], b: &[u8]) -> (r: bool)
    ensures
        r == bytes_lt(a@, b@),
{
    let mut i: usize = 0;
    assert(a@.subrange(0, a@.len() as int) =~= a@);
    assert(b@.subrange(0, b@.len() as int) =~= b@);
    while i < a.len() && i < b.len() && a[i] == b[i]
        invariant
            i <= a@.len(),
            i <= b@.len(),
            bytes_lt(a@, b@) == bytes_lt(
                a@.subrange(i as int, a@.len() as int),
                b@.subrange(i as int, b@.len() as int),
            ),
        decreases a.len() - i,
    {
        proof {
            let x = a@.subrange(i as int, a@.len() as int);
            let y = b@.subrange(i as int, b@.len() as int);
            assert(x.drop_first() =~= a@.subrange(i + 1, a@.len() as int));
            assert(y.drop_first() =~= b@.subrange(i + 1, b@.len() as int));
        }
        i = i + 1;
    }
    if i == a.len() {
        i < b.len()
    } else if i == b.len() {
        false
    } else {
        a[i] < b[i]
    }
}

impl RespMap {
    pub open spec fn keys_spec(&self) -> Seq<Seq<char>> {
        keys_view(self.entries@)
    }

    pub open spec fn values_spec(&self) -> Seq<FrameV> {
        values_view(self.entries@)
    }

    /// An empty map.
    pub fn new() -> (r: RespMap)
        ensures
            r.entries@.len() == 0,
    {
        RespMap { entries: Vec::new() }
    }

    /// The number of entries.
    pub fn len(&self) -> (r: usize)
        ensures
            r == self.entries@.len(),
    {
        self.entries.len()
    }

    /// Sets `key` to `value`, keeping keys sorted and unique.
    #[verifier::spinoff_prover]
    pub fn insert(&mut self, key: String, value: RespFrame)
        ensures
            (final(self).keys_spec(), final(self).values_spec()) == map_insert(
                old(self).keys_spec(),
                old(self).values_spec(),
                key@,
                value@,
            ),
            keys_sorted(old(self).keys_spec()) ==> keys_sorted(final(self).keys_spec()),
    {
        let ghost ks = old(self).keys_spec();
        let ghost kv = key@;
        let mut i: usize = 0;
        while i < self.entries.len() && bytes_less(
            self.entries[i].key.as_str().as_bytes(),
            key.as_str().as_bytes(),
        )
            invariant
                self.entries@ == old(self).entries@,
                ks == keys_view(self.entries@),
                kv == key@,
                i <= self.entries@.len(),
                insert_pos(ks, kv, 0) == insert_pos(ks, kv, i as int),
            decreases self.entries.len() - i,
        {
            i = i + 1;
        }
        proof {
            lemma_values_view_index(old(self).entries@);
            if keys_sorted(ks) {
                lemma_map_insert_sorted(ks, old(self).values_spec(), kv, value@);
            }
        }
        if i < self.entries.len() && self.entries[i].key == key {
            self.entries.set(i, MapEntry { key, value });
            proof {
                lemma_values_view_index(self.entries@);
                assert(keys_view(self.entries@) =~= ks);
                assert(values_view(self.entries@) =~= old(self).values_spec().update(i as int, value@));
            }
        } else {
            self.entries.insert(i, MapEntry { key, value });
            proof {
                lemma_values_view_index(self.entries@);
                assert(keys_view(self.entries@) =~= ks.insert(i as int, kv));
                assert(values_view(self.entries@) =~= old(self).values_spec().insert(i as int, value@));
            }
        }
    }
}

/// The frames of `v`, copied one by one.
fn duplicate_frames(v: &Vec<RespFrame>) -> (r: Vec<RespFrame>)
    ensures
        frames_view(r@) == frames_view(v@),
    decreases v, 0int,
{
    let mut out: Vec<RespFrame> = Vec::new();
    let mut i: usize = 0;
    while i < v.len()
        invariant
            i <= v@.len(),
            frames_view(out@) == frames_view(v@.subrange(0, i as int)),
        decreases v.len() - i,
    {
        proof {
            assert(decreases_to!(v => v@[i as int]));
        }
        let f = v[i].duplicate();
        proof {
            let o = out@;
            assert(o.push(f).drop_last() =~= o);
            let p = v@.subrange(0, i as int + 1);
            assert(p.drop_last() =~= v@.subrange(0, i as int));
        }
        out.push(f);
        i = i + 1;
    }
    assert(v@.subrange(0, i as int) =~= v@);
    out
}

/// The entries of `m`, copied one by one.
fn duplicate_map(m: &RespMap) -> (r: RespMap)
    ensures
        keys_view(r.entries@) == keys_view(m.entries@),
        values_view(r.entries@) == values_view(m.entries@),
    decreases m, 0int,
{
    let mut out: Vec<MapEntry> = Vec::new();
    let mut i: usize = 0;
    while i < m.entries.len()
        invariant
            i <= m.entries@.len(),
            out@.len() == i,
            keys_view(out@) == keys_view(m.entries@.subrange(0, i as int)),
            values_view(out@) == values_view(m.entries@.subrange(0, i as int)),
        decreases m.entries.len() - i,
    {
        proof {
            assert(decreases_to!(m => m.entries));
            assert(decreases_to!(m.entries => m.entries@[i as int]));
            assert(decreases_to!(m.entries@[i as int] => m.entries@[i as int].value));
        }
        let e = MapEntry { key: m.entries[i].key.clone(), value: m.entries[i].value.duplicate() };
        proof {
            let o = out@;
            assert(o.push(e).drop_last() =~= o);
            let p = m.entries@.subrange(0, i as int + 1);
            assert(p.drop_last() =~= m.entries@.subrange(0, i as int));
            assert forall|j: int| 0 <= j < i + 1 implies keys_view(o.push(e))[j] == keys_view(p)[j] by {
                if j < i {
                    assert(keys_view(o)[j] == keys_view(m.entries@.subrange(0, i as int))[j]);
                }
            }
            assert(keys_view(o.push(e)) =~= keys_view(p));
        }
        out.push(e);
        i = i + 1;
    }
    assert(m.entries@.subrange(0, i as int) =~= m.entries@);
    RespMap { entries: out }
}

impl RespFrame {
    /// A copy of this frame, with the same value.
    pub fn duplicate(&self) -> (r: RespFrame)
        ensures
            r@ == self@,
        decreases self, 1int,
    {
        match self {
            RespFrame::SimpleString(s) => RespFrame::SimpleString(SimpleString(s.0.clone())),
            RespFrame::Error(s) => RespFrame::Error(SimpleError(s.0.clone())),
            RespFrame::Integer(i) => RespFrame::Integer(*i),
            RespFrame::BulkString(b) => match &b.0 {
                Some(v) => RespFrame::BulkString(BulkString(Some(vstd::slice::slice_to_vec(v.as_slice())))),
                None => RespFrame::BulkString(BulkString(None)),
            },
            RespFrame::Array(a) => match &a.0 {
                Some(v) => RespFrame::Array(RespArray(Some(duplicate_frames(v)))),
                None => RespFrame::Array(RespArray(None)),
            },
            RespFrame::Null(_) => RespFrame::Null(RespNull),
            RespFrame::Boolean(b) => RespFrame::Boolean(*b),
            RespFrame::Double(d) => RespFrame::Double(vstd::slice::slice_to_vec(d.as_slice())),
            RespFrame::RespMap(m) => RespFrame::RespMap(duplicate_map(m)),
            RespFrame::RespSet(s) => RespFrame::RespSet(RespSet(duplicate_frames(&s.0))),
        }
    }
}

impl Clone for RespFrame {
    fn clone(&self) -> Self {
        self.duplicate()
    }
}

impl SimpleString {
    pub fn new(s: String) -> (r: SimpleString)
        ensures
            r.0@ == s@,
    {
        SimpleString(s)
    }
}

impl SimpleError {
    pub fn new(s: String) -> (r: SimpleError)
        ensures
            r.0@ == s@,
    {
        SimpleError(s)
    }
}

impl BulkString {
    pub fn new(s: Vec<u8>) -> (r: BulkString)
        ensures
            r.0 == Some(s),
    {
        BulkString(Some(s))
    }
}

impl RespArray {
    pub fn new(v: Vec<RespFrame>) -> (r: RespArray)
        ensures
            r.0 == Some(v),
    {
        RespArray(Some(v))
    }
}

impl RespSet {
    /// An empty set.
    pub fn new() -> (r: RespSet)
        ensures
            r.0@.len() == 0,
    {
        RespSet(Vec::new())
    }

    /// Appends a frame.
    pub fn push(&mut self, f: RespFrame)
        ensures
            final(self).0@ == old(self).0@.push(f),
    {
        self.0.push(f);
    }
}

impl View for RespFrame {
    type V = FrameV;

    open spec fn view(&self) -> FrameV {
        frame_view(*self)
    }
}

} // verus!
