use vstd::prelude::*;
use vstd::slice::slice_to_vec;
use vstd::utf8::{decode_utf8, valid_utf8};
use crate::backend::{entries_match, hash_or_empty, members_of, set_or_empty, Backend};
use crate::frame::{
    frame_view, frames_view, keys_sorted, BulkString, FrameV, RespArray, RespFrame, RespMap,
    RespNull, SimpleString,
};
use crate::wrappers::utf8_to_string;

verus! {

/// Errors of the command grammar.
#[derive(Debug, Clone, Copy, PartialEq, Eq, Structural)]
pub enum CommandError {
    /// The request is not an array whose first element is a bulk string.
    InvalidCommand,
    /// Wrong number of arguments, an argument of the wrong type, or text that is not UTF-8.
    InvalidArgument,
}

/// `GET key`
pub struct Get {
    pub key: String,
}

/// `SET key value`
pub struct SetCmd {
    pub key: String,
    pub value: RespFrame,
}

/// `HGET key field`
pub struct HGet {
    pub key: String,
    pub field: String,
}

/// `HSET key field value`
pub struct HSet {
    pub key: String,
    pub field: String,
    pub value: RespFrame,
}

/// `HGETALL key`
pub struct HGetAll {
    pub key: String,
}

/// `HMGET key field [field ...]`
pub struct HMGet {
    pub key: String,
    pub fields: Vec<String>,
}

/// `SADD key member [member ...]`
pub struct SAdd {
    pub key: String,
    pub members: Vec<String>,
}

/// `SISMEMBER key member`
pub struct SIsMember {
    pub key: String,
    pub member: String,
}

/// `ECHO value`
pub struct Echo {
    pub value: BulkString,
}

/// Any command name this server does not know; it does nothing.
pub struct Unrecognized;

/// A request, checked and with its text arguments decoded.
pub enum Command {
    Get(Get),
    SetCmd(SetCmd),
    HGet(HGet),
    HSet(HSet),
    HGetAll(HGetAll),
    HMGet(HMGet),
    SAdd(SAdd),
    SIsMember(SIsMember),
    Echo(Echo),
    Unrecognized(Unrecognized),
}

/// The value of a command.
pub enum CommandV {
    Get(Seq<char>),
    SetCmd(Seq<char>, FrameV),
    HGet(Seq<char>, Seq<char>),
    HSet(Seq<char>, Seq<char>, FrameV),
    HGetAll(Seq<char>),
    HMGet(Seq<char>, Seq<Seq<char>>),
    SAdd(Seq<char>, Seq<Seq<char>>),
    SIsMember(Seq<char>, Seq<char>),
    Echo(Option<Seq<u8>>),
    Unrecognized,
}

pub open spec fn texts_view(v: Seq<String>) -> Seq<Seq<char>> {
    Seq::new(v.len(), |i: int| v[i]@)
}

impl View for Command {
    type V = CommandV;

    open spec fn view(&self) -> CommandV {
        match self {
            Command::Get(c) => CommandV::Get(c.key@),
            Command::SetCmd(c) => CommandV::SetCmd(c.key@, c.value@),
            Command::HGet(c) => CommandV::HGet(c.key@, c.field@),
            Command::HSet(c) => CommandV::HSet(c.key@, c.field@, c.value@),
            Command::HGetAll(c) => CommandV::HGetAll(c.key@),
            Command::HMGet(c) => CommandV::HMGet(c.key@, texts_view(c.fields@)),
            Command::SAdd(c) => CommandV::SAdd(c.key@, texts_view(c.members@)),
            Command::SIsMember(c) => CommandV::SIsMember(c.key@, c.member@),
            Command::Echo(c) => CommandV::Echo(
                match c.value.0 {
                    Some(b) => Some(b@),
                    None => None,
                },
            ),
            Command::Unrecognized(_) => CommandV::Unrecognized,
        }
    }
}

pub open spec fn ascii_lower(b: u8) -> u8 {
    if 65u8 <= b && b <= 90u8 {
        (b + 32) as u8
    } else {
        b
    }
}

/// `b` spells the lower-case name `lit`, ignoring ASCII case.
pub open spec fn name_is(b: Seq<u8>, lit: Seq<u8>) -> bool {
    b.len() == lit.len() && forall|i: int| 0 <= i < b.len() ==> ascii_lower(#[trigger] b[i]) == lit[i]
}

pub open spec fn get_name() -> Seq<u8> {
    seq![103u8, 101u8, 116u8]
}

pub open spec fn set_name() -> Seq<u8> {
    seq![115u8, 101u8, 116u8]
}

pub open spec fn hget_name() -> Seq<u8> {
    seq![104u8, 103u8, 101u8, 116u8]
}

pub open spec fn hset_name() -> Seq<u8> {
    seq![104u8, 115u8, 101u8, 116u8]
}

pub open spec fn hgetall_name() -> Seq<u8> {
    seq![104u8, 103u8, 101u8, 116u8, 97u8, 108u8, 108u8]
}

pub open spec fn hmget_name() -> Seq<u8> {
    seq![104u8, 109u8, 103u8, 101u8, 116u8]
}

pub open spec fn sadd_name() -> Seq<u8> {
    seq![115u8, 97u8, 100u8, 100u8]
}

pub open spec fn sismember_name() -> Seq<u8> {
    seq![115u8, 105u8, 115u8, 109u8, 101u8, 109u8, 98u8, 101u8, 114u8]
}

pub open spec fn echo_name() -> Seq<u8> {
    seq![101u8, 99u8, 104u8, 111u8]
}

/// The text of a text argument: a non-null bulk string holding UTF-8.
pub open spec fn text_of(f: FrameV) -> Option<Seq<char>> {
    match f {
        FrameV::BulkString(Some(b)) => if valid_utf8(b) {
            Some(decode_utf8(b))
        } else {
            None
        },
        _ => None,
    }
}

/// The texts of a run of text arguments, if each one is.
pub open spec fn texts_of(s: Seq<FrameV>) -> Option<Seq<Seq<char>>>
    decreases s.len(),
{
    if s.len() == 0 {
        Some(Seq::empty())
    } else {
        match texts_of(s.drop_last()) {
            Some(a) => match text_of(s.last()) {
                Some(t) => Some(a.push(t)),
                None => None,
            },
            None => None,
        }
    }
}

/// The command that a request array stands for.
pub open spec fn spec_parse_array(a: Seq<FrameV>) -> Result<CommandV, CommandError> {
    if a.len() == 0 {
        Err(CommandError::InvalidCommand)
    } else {
        match a[0] {
            FrameV::BulkString(Some(name)) => if name_is(name, get_name()) {
                if a.len() != 2 {
                    Err(CommandError::InvalidArgument)
                } else {
                    match text_of(a[1]) {
                        Some(k) => Ok(CommandV::Get(k)),
                        None => Err(CommandError::InvalidArgument),
                    }
                }
            } else if name_is(name, set_name()) {
                if a.len() != 3 {
                    Err(CommandError::InvalidArgument)
                } else {
                    match text_of(a[1]) {
                        Some(k) => Ok(CommandV::SetCmd(k, a[2])),
                        None => Err(CommandError::InvalidArgument),
                    }
                }
            } else if name_is(name, hget_name()) {
                if a.len() != 3 {
                    Err(CommandError::InvalidArgument)
                } else {
                    match (text_of(a[1]), text_of(a[2])) {
                        (Some(k), Some(f)) => Ok(CommandV::HGet(k, f)),
                        _ => Err(CommandError::InvalidArgument),
                    }
                }
            } else if name_is(name, hset_name()) {
                if a.len() != 4 {
                    Err(CommandError::InvalidArgument)
                } else {
                    match (text_of(a[1]), text_of(a[2])) {
                        (Some(k), Some(f)) => Ok(CommandV::HSet(k, f, a[3])),
                        _ => Err(CommandError::InvalidArgument),
                    }
                }
            } else if name_is(name, hgetall_name()) {
                if a.len() != 2 {
                    Err(CommandError::InvalidArgument)
                } else {
                    match text_of(a[1]) {
                        Some(k) => Ok(CommandV::HGetAll(k)),
                        None => Err(CommandError::InvalidArgument),
                    }
                }
            } else if name_is(name, hmget_name()) || name_is(name, sadd_name()) {
                if a.len() < 3 {
                    Err(CommandError::InvalidArgument)
                } else {
                    match (text_of(a[1]), texts_of(a.subrange(2, a.len() as int))) {
                        (Some(k), Some(fs)) => Ok(
                            if name_is(name, hmget_name()) {
                                CommandV::HMGet(k, fs)
                            } else {
                                CommandV::SAdd(k, fs)
                            },
                        ),
                        _ => Err(CommandError::InvalidArgument),
                    }
                }
            } else if name_is(name, sismember_name()) {
                if a.len() != 3 {
                    Err(CommandError::InvalidArgument)
                } else {
                    match (text_of(a[1]), text_of(a[2])) {
                        (Some(k), Some(m)) => Ok(CommandV::SIsMember(k, m)),
                        _ => Err(CommandError::InvalidArgument),
                    }
                }
            } else if name_is(name, echo_name()) {
                if a.len() != 2 {
                    Err(CommandError::InvalidArgument)
                } else {
                    match a[1] {
                        FrameV::BulkString(b) => Ok(CommandV::Echo(b)),
                        _ => Err(CommandError::InvalidArgument),
                    }
                }
            } else {
                Ok(CommandV::Unrecognized)
            },
            _ => Err(CommandError::InvalidCommand),
        }
    }
}

/// The command that a request frame stands for: it must be a non-null array.
pub open spec fn spec_parse_command(f: FrameV) -> Result<CommandV, CommandError> {
    match f {
        FrameV::Array(Some(a)) => spec_parse_array(a),
        _ => Err(CommandError::InvalidCommand),
    }
}

pub open spec fn command_result_view(r: Result<Command, CommandError>) -> Result<CommandV, CommandError> {
    match r {
        Ok(c) => Ok(c@),
        Err(x) => Err(x),
    }
}

/// Whether `b` spells `lit` (lower case), ignoring ASCII case.
fn name_matches(b: &[u8], lit: &[u8]) -> (r: bool)
    ensures
        r == name_is(b@, lit@),
{
    if b.len() != lit.len() {
        return false;
    }
    let mut i: usize = 0;
    while i < b.len()
        invariant
            i <= b@.len(),
            b@.len() == lit@.len(),
            forall|j: int| 0 <= j < i ==> ascii_lower(#[trigger] b@[j]) == lit@[j],
        decreases b.len() - i,
    {
        let c = b[i];
        let low = if c >= 65u8 && c <= 90u8 {
            c + 32
        } else {
            c
        };
        if low != lit[i] {
            return false;
        }
        i = i + 1;
    }
    true
}

/// The text of a text argument.
fn text_arg(f: &RespFrame) -> (r: Option<String>)
    ensures
        r matches Some(s) ==> text_of(f@) == Some(s@),
        r is None ==> text_of(f@) is None,
{
    match f {
        RespFrame::BulkString(b) => match &b.0 {
            Some(v) => utf8_to_string(slice_to_vec(v.as_slice())),
            None => None,
        },
        _ => None,
    }
}

/// The texts of the arguments from `start` on.
fn text_args(v: &Vec<RespFrame>, start: usize) -> (r: Option<Vec<String>>)
    requires
        start <= v@.len(),
    ensures
        r matches Some(t) ==> texts_of(frames_view(v@).subrange(start as int, v@.len() as int))
            == Some(texts_view(t@)),
        r is None ==> texts_of(frames_view(v@).subrange(start as int, v@.len() as int)) is None,
{
    let ghost fv = frames_view(v@);
    proof {
        crate::frame::lemma_frames_view_index(v@);
    }
    let mut out: Vec<String> = Vec::new();
    let mut i: usize = start;
    proof {
        assert(fv.subrange(start as int, start as int) =~= Seq::<FrameV>::empty());
        assert(texts_view(out@) =~= Seq::<Seq<char>>::empty());
    }
    while i < v.len()
        invariant
            start <= i <= v@.len(),
            fv == frames_view(v@),
            fv.len() == v@.len(),
            forall|j: int| 0 <= j < v@.len() ==> #[trigger] fv[j] == frame_view(v@[j]),
            texts_of(fv.subrange(start as int, i as int)) == Some(texts_view(out@)),
        decreases v.len() - i,
    {
        let t = text_arg(&v[i]);
        proof {
            let p = fv.subrange(start as int, i as int + 1);
            assert(p.drop_last() =~= fv.subrange(start as int, i as int));
            assert(p.last() == fv[i as int]);
        }
        match t {
            Some(s) => {
                proof {
                    assert(texts_view(out@.push(s)) =~= texts_view(out@).push(s@));
                }
                out.push(s);
            },
            None => {
                proof {
                    lemma_texts_none_extends(fv, start as int, i as int + 1, v@.len() as int);
                }
                return None;
            },
        }
        i = i + 1;
    }
    Some(out)
}

/// Once a prefix of a run is not all text, no longer run is.
proof fn lemma_texts_none_extends(s: Seq<FrameV>, a: int, b: int, c: int)
    requires
        0 <= a <= b <= c <= s.len(),
        texts_of(s.subrange(a, b)) is None,
    ensures
        texts_of(s.subrange(a, c)) is None,
    decreases c - b,
{
    if b < c {
        let p = s.subrange(a, b + 1);
        assert(p.drop_last() =~= s.subrange(a, b));
        lemma_texts_none_extends(s, a, b + 1, c);
    }
}

/// A request array that starts with the bulk string `lit` (any ASCII case).
pub open spec fn is_named(a: Seq<FrameV>, lit: Seq<u8>) -> bool {
    a.len() > 0 && match a[0] {
        FrameV::BulkString(Some(n)) => name_is(n, lit),
        _ => false,
    }
}

/// The grammar for one command name, whose requests hold exactly `len`
/// elements (at least `len`, when `at_least`). The element count is checked
/// first: a request of the wrong size is `InvalidArgument`, whatever its name;
/// one of the right size with another name is `InvalidCommand`.
pub open spec fn spec_parse_as(a: Seq<FrameV>, lit: Seq<u8>, len: nat, at_least: bool) -> Result<
    CommandV,
    CommandError,
> {
    if (at_least && a.len() < len) || (!at_least && a.len() != len) {
        Err(CommandError::InvalidArgument)
    } else if !is_named(a, lit) {
        Err(CommandError::InvalidCommand)
    } else {
        spec_parse_array(a)
    }
}

pub open spec fn result_view<T: View<V = CommandV>>(r: Result<T, CommandError>) -> Result<
    CommandV,
    CommandError,
> {
    match r {
        Ok(c) => Ok(c@),
        Err(x) => Err(x),
    }
}

fn get_literal() -> (r: Vec<u8>)
    ensures
        r@ == get_name(),
{
    let r = vec![103u8, 101u8, 116u8];
    assert(r@ =~= get_name());
    r
}

fn set_literal() -> (r: Vec<u8>)
    ensures
        r@ == set_name(),
{
    let r = vec![115u8, 101u8, 116u8];
    assert(r@ =~= set_name());
    r
}

fn hget_literal() -> (r: Vec<u8>)
    ensures
        r@ == hget_name(),
{
    let r = vec![104u8, 103u8, 101u8, 116u8];
    assert(r@ =~= hget_name());
    r
}

fn hset_literal() -> (r: Vec<u8>)
    ensures
        r@ == hset_name(),
{
    let r = vec![104u8, 115u8, 101u8, 116u8];
    assert(r@ =~= hset_name());
    r
}

fn hgetall_literal() -> (r: Vec<u8>)
    ensures
        r@ == hgetall_name(),
{
    let r = vec![104u8, 103u8, 101u8, 116u8, 97u8, 108u8, 108u8];
    assert(r@ =~= hgetall_name());
    r
}

fn hmget_literal() -> (r: Vec<u8>)
    ensures
        r@ == hmget_name(),
{
    let r = vec![104u8, 109u8, 103u8, 101u8, 116u8];
    assert(r@ =~= hmget_name());
    r
}

fn sadd_literal() -> (r: Vec<u8>)
    ensures
        r@ == sadd_name(),
{
    let r = vec![115u8, 97u8, 100u8, 100u8];
    assert(r@ =~= sadd_name());
    r
}

fn sismember_literal() -> (r: Vec<u8>)
    ensures
        r@ == sismember_name(),
{
    let r = vec![115u8, 105u8, 115u8, 109u8, 101u8, 109u8, 98u8, 101u8, 114u8];
    assert(r@ =~= sismember_name());
    r
}

fn echo_literal() -> (r: Vec<u8>)
    ensures
        r@ == echo_name(),
{
    let r = vec![101u8, 99u8, 104u8, 111u8];
    assert(r@ =~= echo_name());
    r
}

/// A named request's first bytes, case folded, are those of the name.
proof fn lemma_named_at(a: Seq<FrameV>, lit: Seq<u8>, i: int)
    requires
        is_named(a, lit),
        0 <= i < lit.len(),
    ensures
        a[0] matches FrameV::BulkString(Some(n)) && ascii_lower(n[i]) == lit[i],
{
}

/// Whether the request starts with the bulk string `lit`, ignoring ASCII case.
fn check_name(v: &Vec<RespFrame>, lit: &Vec<u8>) -> (r: bool)
    ensures
        r == is_named(frames_view(v@), lit@),
{
    proof {
        crate::frame::lemma_frames_view_index(v@);
    }
    if v.len() == 0 {
        return false;
    }
    match &v[0] {
        RespFrame::BulkString(b) => match &b.0 {
            Some(n) => name_matches(n.as_slice(), lit.as_slice()),
            None => false,
        },
        _ => false,
    }
}

impl View for Get {
    type V = CommandV;

    open spec fn view(&self) -> CommandV {
        CommandV::Get(self.key@)
    }
}

impl View for SetCmd {
    type V = CommandV;

    open spec fn view(&self) -> CommandV {
        CommandV::SetCmd(self.key@, self.value@)
    }
}

impl View for HGet {
    type V = CommandV;

    open spec fn view(&self) -> CommandV {
        CommandV::HGet(self.key@, self.field@)
    }
}

impl View for HSet {
    type V = CommandV;

    open spec fn view(&self) -> CommandV {
        CommandV::HSet(self.key@, self.field@, self.value@)
    }
}

impl View for HGetAll {
    type V = CommandV;

    open spec fn view(&self) -> CommandV {
        CommandV::HGetAll(self.key@)
    }
}

impl View for HMGet {
    type V = CommandV;

    open spec fn view(&self) -> CommandV {
        CommandV::HMGet(self.key@, texts_view(self.fields@))
    }
}

impl View for SAdd {
    type V = CommandV;

    open spec fn view(&self) -> CommandV {
        CommandV::SAdd(self.key@, texts_view(self.members@))
    }
}

impl View for SIsMember {
    type V = CommandV;

    open spec fn view(&self) -> CommandV {
        CommandV::SIsMember(self.key@, self.member@)
    }
}

impl View for Echo {
    type V = CommandV;

    open spec fn view(&self) -> CommandV {
        CommandV::Echo(
            match self.value.0 {
                Some(b) => Some(b@),
                None => None,
            },
        )
    }
}

impl Get {
    /// `GET key`: exactly one text argument.
    pub fn from_frames(v: &Vec<RespFrame>) -> (r: Result<Get, CommandError>)
        ensures
            result_view(r) == spec_parse_as(frames_view(v@), get_name(), 2, false),
    {
        proof {
            crate::frame::lemma_frames_view_index(v@);
        }
        if v.len() != 2 {
            return Err(CommandError::InvalidArgument);
        }
        if !check_name(v, &get_literal()) {
            return Err(CommandError::InvalidCommand);
        }
        proof {
            lemma_named_at(frames_view(v@), get_name(), 0);
            lemma_named_at(frames_view(v@), get_name(), 1);
        }
        match text_arg(&v[1]) {
            Some(key) => Ok(Get { key }),
            None => Err(CommandError::InvalidArgument),
        }
    }
}

impl SetCmd {
    /// `SET key value`: a text key and a value of any frame type.
    pub fn from_frames(v: &Vec<RespFrame>) -> (r: Result<SetCmd, CommandError>)
        ensures
            result_view(r) == spec_parse_as(frames_view(v@), set_name(), 3, false),
    {
        proof {
            crate::frame::lemma_frames_view_index(v@);
        }
        if v.len() != 3 {
            return Err(CommandError::InvalidArgument);
        }
        if !check_name(v, &set_literal()) {
            return Err(CommandError::InvalidCommand);
        }
        proof {
            lemma_named_at(frames_view(v@), set_name(), 0);
            lemma_named_at(frames_view(v@), set_name(), 1);
        }
        match text_arg(&v[1]) {
            Some(key) => Ok(SetCmd { key, value: v[2].duplicate() }),
            None => Err(CommandError::InvalidArgument),
        }
    }
}

impl HGet {
    /// `HGET key field`: two text arguments.
    pub fn from_frames(v: &Vec<RespFrame>) -> (r: Result<HGet, CommandError>)
        ensures
            result_view(r) == spec_parse_as(frames_view(v@), hget_name(), 3, false),
    {
        proof {
            crate::frame::lemma_frames_view_index(v@);
        }
        if v.len() != 3 {
            return Err(CommandError::InvalidArgument);
        }
        if !check_name(v, &hget_literal()) {
            return Err(CommandError::InvalidCommand);
        }
        proof {
            lemma_named_at(frames_view(v@), hget_name(), 0);
            lemma_named_at(frames_view(v@), hget_name(), 1);
        }
        match (text_arg(&v[1]), text_arg(&v[2])) {
            (Some(key), Some(field)) => Ok(HGet { key, field }),
            _ => Err(CommandError::InvalidArgument),
        }
    }
}

impl HSet {
    /// `HSET key field value`: two text arguments and a value of any frame type.
    pub fn from_frames(v: &Vec<RespFrame>) -> (r: Result<HSet, CommandError>)
        ensures
            result_view(r) == spec_parse_as(frames_view(v@), hset_name(), 4, false),
    {
        proof {
            crate::frame::lemma_frames_view_index(v@);
        }
        if v.len() != 4 {
            return Err(CommandError::InvalidArgument);
        }
        if !check_name(v, &hset_literal()) {
            return Err(CommandError::InvalidCommand);
        }
        proof {
            lemma_named_at(frames_view(v@), hset_name(), 0);
            lemma_named_at(frames_view(v@), hset_name(), 1);
        }
        match (text_arg(&v[1]), text_arg(&v[2])) {
            (Some(key), Some(field)) => Ok(HSet { key, field, value: v[3].duplicate() }),
            _ => Err(CommandError::InvalidArgument),
        }
    }
}

impl HGetAll {
    /// `HGETALL key`: exactly one text argument.
    pub fn from_frames(v: &Vec<RespFrame>) -> (r: Result<HGetAll, CommandError>)
        ensures
            result_view(r) == spec_parse_as(frames_view(v@), hgetall_name(), 2, false),
    {
        proof {
            crate::frame::lemma_frames_view_index(v@);
        }
        if v.len() != 2 {
            return Err(CommandError::InvalidArgument);
        }
        if !check_name(v, &hgetall_literal()) {
            return Err(CommandError::InvalidCommand);
        }
        proof {
            lemma_named_at(frames_view(v@), hgetall_name(), 0);
            lemma_named_at(frames_view(v@), hgetall_name(), 1);
        }
        match text_arg(&v[1]) {
            Some(key) => Ok(HGetAll { key }),
            None => Err(CommandError::InvalidArgument),
        }
    }
}

impl HMGet {
    /// `HMGET key field [field ...]`: a text key and at least one text field.
    pub fn from_frames(v: &Vec<RespFrame>) -> (r: Result<HMGet, CommandError>)
        ensures
            result_view(r) == spec_parse_as(frames_view(v@), hmget_name(), 3, true),
    {
        proof {
            crate::frame::lemma_frames_view_index(v@);
        }
        if v.len() < 3 {
            return Err(CommandError::InvalidArgument);
        }
        if !check_name(v, &hmget_literal()) {
            return Err(CommandError::InvalidCommand);
        }
        proof {
            lemma_named_at(frames_view(v@), hmget_name(), 0);
            lemma_named_at(frames_view(v@), hmget_name(), 1);
        }
        match (text_arg(&v[1]), text_args(v, 2)) {
            (Some(key), Some(fields)) => Ok(HMGet { key, fields }),
            _ => Err(CommandError::InvalidArgument),
        }
    }
}

impl SAdd {
    /// `SADD key member [member ...]`: a text key and at least one text member.
    pub fn from_frames(v: &Vec<RespFrame>) -> (r: Result<SAdd, CommandError>)
        ensures
            result_view(r) == spec_parse_as(frames_view(v@), sadd_name(), 3, true),
    {
        proof {
            crate::frame::lemma_frames_view_index(v@);
        }
        if v.len() < 3 {
            return Err(CommandError::InvalidArgument);
        }
        if !check_name(v, &sadd_literal()) {
            return Err(CommandError::InvalidCommand);
        }
        proof {
            lemma_named_at(frames_view(v@), sadd_name(), 0);
            lemma_named_at(frames_view(v@), sadd_name(), 1);
        }
        match (text_arg(&v[1]), text_args(v, 2)) {
            (Some(key), Some(members)) => Ok(SAdd { key, members }),
            _ => Err(CommandError::InvalidArgument),
        }
    }
}

impl SIsMember {
    /// `SISMEMBER key member`: two text arguments.
    pub fn from_frames(v: &Vec<RespFrame>) -> (r: Result<SIsMember, CommandError>)
        ensures
            result_view(r) == spec_parse_as(frames_view(v@), sismember_name(), 3, false),
    {
        proof {
            crate::frame::lemma_frames_view_index(v@);
        }
        if v.len() != 3 {
            return Err(CommandError::InvalidArgument);
        }
        if !check_name(v, &sismember_literal()) {
            return Err(CommandError::InvalidCommand);
        }
        proof {
            lemma_named_at(frames_view(v@), sismember_name(), 0);
            lemma_named_at(frames_view(v@), sismember_name(), 1);
        }
        match (text_arg(&v[1]), text_arg(&v[2])) {
            (Some(key), Some(member)) => Ok(SIsMember { key, member }),
            _ => Err(CommandError::InvalidArgument),
        }
    }
}

impl Echo {
    /// `ECHO value`: one bulk string, null or not.
    pub fn from_frames(v: &Vec<RespFrame>) -> (r: Result<Echo, CommandError>)
        ensures
            result_view(r) == spec_parse_as(frames_view(v@), echo_name(), 2, false),
    {
        proof {
            crate::frame::lemma_frames_view_index(v@);
        }
        if v.len() != 2 {
            return Err(CommandError::InvalidArgument);
        }
        if !check_name(v, &echo_literal()) {
            return Err(CommandError::InvalidCommand);
        }
        proof {
            lemma_named_at(frames_view(v@), echo_name(), 0);
            lemma_named_at(frames_view(v@), echo_name(), 1);
        }
        match &v[1] {
            RespFrame::BulkString(b) => match &b.0 {
                Some(data) => Ok(Echo { value: BulkString(Some(slice_to_vec(data.as_slice()))) }),
                None => Ok(Echo { value: BulkString(None) }),
            },
            _ => Err(CommandError::InvalidArgument),
        }
    }
}

/// The reply of commands that only store: the simple string `OK`.
pub open spec fn ok_view() -> FrameV {
    FrameV::SimpleString(seq!['O', 'K'])
}

/// The simple string `OK`.
pub fn ok_frame() -> (r: RespFrame)
    ensures
        r@ == ok_view(),
{
    let s = "OK".to_owned();
    proof {
        reveal_strlit("OK");
        assert(s@ =~= seq!['O', 'K']);
    }
    RespFrame::SimpleString(SimpleString(s))
}

/// A stored value, or `Null` when there is none.
pub open spec fn value_or_null(m: Map<Seq<char>, FrameV>, k: Seq<char>) -> FrameV {
    if m.contains_key(k) {
        m[k]
    } else {
        FrameV::Null
    }
}

/// A field's value in the hash under `k`, or `Null`.
pub open spec fn field_or_null(h: Map<Seq<char>, Map<Seq<char>, FrameV>>, k: Seq<char>, f: Seq<char>) -> FrameV {
    if h.contains_key(k) {
        value_or_null(h[k], f)
    } else {
        FrameV::Null
    }
}

/// Keys and values that list the hash `h` exactly: each field once, with its value.
pub open spec fn lists_hash(ks: Seq<Seq<char>>, vs: Seq<FrameV>, h: Map<Seq<char>, FrameV>) -> bool {
    &&& ks.len() == vs.len()
    &&& ks.len() == h.dom().len()
    &&& forall|j: int| 0 <= j < ks.len() ==> h.contains_key(#[trigger] ks[j]) && h[ks[j]] == vs[j]
    &&& forall|a: int, b: int| 0 <= a < b < ks.len() ==> #[trigger] ks[a] != #[trigger] ks[b]
}

/// The members a command names, as a set.
pub open spec fn texts_set(ts: Seq<Seq<char>>) -> Set<Seq<char>> {
    Set::new(|t: Seq<char>| exists|i: int| 0 <= i < ts.len() && ts[i] == t)
}

/// How many members `SADD` adds to `before`, as its integer reply (capped at `i64::MAX`).
pub open spec fn added_count(before: Set<Seq<char>>, ts: Seq<Seq<char>>) -> int {
    let n = before.union(texts_set(ts)).len() - before.len();
    if n > i64::MAX {
        i64::MAX as int
    } else {
        n
    }
}

impl Command {
    /// The command that a request array stands for.
    pub fn from_frames(v: &Vec<RespFrame>) -> (r: Result<Command, CommandError>)
        ensures
            command_result_view(r) == spec_parse_array(frames_view(v@)),
    {
        proof {
            crate::frame::lemma_frames_view_index(v@);
        }
        if v.len() == 0 {
            return Err(CommandError::InvalidCommand);
        }
        match &v[0] {
            RespFrame::BulkString(b) => match &b.0 {
                Some(_) => {},
                None => return Err(CommandError::InvalidCommand),
            },
            _ => return Err(CommandError::InvalidCommand),
        }
        if check_name(v, &get_literal()) {
            match Get::from_frames(v) {
                Ok(c) => Ok(Command::Get(c)),
                Err(x) => Err(x),
            }
        } else if check_name(v, &set_literal()) {
            match SetCmd::from_frames(v) {
                Ok(c) => Ok(Command::SetCmd(c)),
                Err(x) => Err(x),
            }
        } else if check_name(v, &hget_literal()) {
            match HGet::from_frames(v) {
                Ok(c) => Ok(Command::HGet(c)),
                Err(x) => Err(x),
            }
        } else if check_name(v, &hset_literal()) {
            match HSet::from_frames(v) {
                Ok(c) => Ok(Command::HSet(c)),
                Err(x) => Err(x),
            }
        } else if check_name(v, &hgetall_literal()) {
            match HGetAll::from_frames(v) {
                Ok(c) => Ok(Command::HGetAll(c)),
                Err(x) => Err(x),
            }
        } else if check_name(v, &hmget_literal()) {
            match HMGet::from_frames(v) {
                Ok(c) => Ok(Command::HMGet(c)),
                Err(x) => Err(x),
            }
        } else if check_name(v, &sadd_literal()) {
            match SAdd::from_frames(v) {
                Ok(c) => Ok(Command::SAdd(c)),
                Err(x) => Err(x),
            }
        } else if check_name(v, &sismember_literal()) {
            match SIsMember::from_frames(v) {
                Ok(c) => Ok(Command::SIsMember(c)),
                Err(x) => Err(x),
            }
        } else if check_name(v, &echo_literal()) {
            match Echo::from_frames(v) {
                Ok(c) => Ok(Command::Echo(c)),
                Err(x) => Err(x),
            }
        } else {
            Ok(Command::Unrecognized(Unrecognized))
        }
    }

    /// The command that a request frame stands for; it must be a non-null array.
    pub fn from_frame(f: &RespFrame) -> (r: Result<Command, CommandError>)
        ensures
            command_result_view(r) == spec_parse_command(f@),
    {
        match f {
            RespFrame::Array(a) => match &a.0 {
                Some(v) => Command::from_frames(v),
                None => Err(CommandError::InvalidCommand),
            },
            _ => Err(CommandError::InvalidCommand),
        }
    }
}

/// The store is left as it was.
pub open spec fn unchanged(s0: Backend, s1: Backend) -> bool {
    s1.strings() == s0.strings() && s1.hashes() == s0.hashes() && s1.sets() == s0.sets()
}

/// What running command `c` on store `s0` does: `s1` is the store after and
/// `r` the reply.
pub open spec fn executed(c: CommandV, s0: Backend, s1: Backend, r: FrameV) -> bool {
    match c {
        CommandV::Get(k) => unchanged(s0, s1) && r == value_or_null(s0.strings(), k),
        CommandV::SetCmd(k, v) => r == ok_view() && s1.strings() == s0.strings().insert(k, v)
            && s1.hashes() == s0.hashes() && s1.sets() == s0.sets(),
        CommandV::HGet(k, f) => unchanged(s0, s1) && r == field_or_null(s0.hashes(), k, f),
        CommandV::HSet(k, f, v) => r == ok_view() && s1.hashes() == s0.hashes().insert(
            k,
            hash_or_empty(s0.hashes(), k).insert(f, v),
        ) && s1.strings() == s0.strings() && s1.sets() == s0.sets(),
        CommandV::HGetAll(k) => unchanged(s0, s1) && if s0.hashes().contains_key(k) {
            r matches FrameV::RespMap(ks, vs) && lists_hash(ks, vs, s0.hashes()[k]) && keys_sorted(ks)
        } else {
            r == FrameV::Null
        },
        CommandV::HMGet(k, fs) => unchanged(s0, s1) && r == FrameV::Array(
            Some(Seq::new(fs.len(), |i: int| field_or_null(s0.hashes(), k, fs[i]))),
        ),
        CommandV::SAdd(k, ms) => r == FrameV::Integer(added_count(set_or_empty(s0.sets(), k), ms))
            && s1.strings() == s0.strings() && s1.hashes() == s0.hashes() && if ms.len() > 0 {
            s1.sets() == s0.sets().insert(k, set_or_empty(s0.sets(), k).union(texts_set(ms)))
        } else {
            s1.sets() == s0.sets()
        },
        CommandV::SIsMember(k, m) => unchanged(s0, s1) && r == FrameV::Integer(
            if set_or_empty(s0.sets(), k).contains(m) {
                1
            } else {
                0
            },
        ),
        CommandV::Echo(b) => unchanged(s0, s1) && r == FrameV::BulkString(b),
        CommandV::Unrecognized => unchanged(s0, s1) && r == ok_view(),
    }
}

proof fn lemma_members_texts(m: Seq<String>)
    ensures
        members_of(m) == texts_set(texts_view(m)),
{
    let t = texts_view(m);
    assert forall|c: Seq<char>| #[trigger] members_of(m).contains(c) <==> texts_set(t).contains(c) by {
        if members_of(m).contains(c) {
            let i = choose|i: int| 0 <= i < m.len() && m[i]@ == c;
            assert(t[i] == c);
        }
        if texts_set(t).contains(c) {
            let i = choose|i: int| 0 <= i < t.len() && t[i] == c;
            assert(m[i]@ == c);
        }
    }
    assert(members_of(m) =~= texts_set(t));
}

/// Running a command against the store.
pub trait CommandExecutor: View<V = CommandV> + Sized {
    /// Runs the command and gives the reply; `executed` says what it does.
    fn execute(self, backend: &mut Backend) -> (r: RespFrame)
        ensures
            executed(self@, *old(backend), *final(backend), r@),
    ;
}

impl CommandExecutor for Get {
    fn execute(self, backend: &mut Backend) -> (r: RespFrame) {
        match backend.get(self.key.as_str()) {
            Some(v) => v,
            None => RespFrame::Null(RespNull),
        }
    }
}

impl CommandExecutor for SetCmd {
    fn execute(self, backend: &mut Backend) -> (r: RespFrame) {
        backend.set(self.key, self.value);
        ok_frame()
    }
}

impl CommandExecutor for HGet {
    fn execute(self, backend: &mut Backend) -> (r: RespFrame) {
        match backend.hget(self.key.as_str(), self.field.as_str()) {
            Some(v) => v,
            None => RespFrame::Null(RespNull),
        }
    }
}

impl CommandExecutor for HSet {
    fn execute(self, backend: &mut Backend) -> (r: RespFrame) {
        backend.hset(self.key, self.field, self.value);
        ok_frame()
    }
}

impl CommandExecutor for HGetAll {
    #[verifier::spinoff_prover]
    fn execute(self, backend: &mut Backend) -> (r: RespFrame) {
        let entries = match backend.hgetall(self.key.as_str()) {
            Some(e) => e,
            None => return RespFrame::Null(RespNull),
        };
        let ghost h = backend.hashes()[self.key@];
        let mut m = RespMap::new();
        let mut i: usize = 0;
        proof {
            assert(m.keys_spec() =~= Seq::<Seq<char>>::empty());
            assert(m.values_spec() =~= Seq::<FrameV>::empty());
        }
        while i < entries.len()
            invariant
                i <= entries@.len(),
                entries_match(entries@, h),
                m.keys_spec().len() == i,
                m.values_spec().len() == i,
                keys_sorted(m.keys_spec()),
                forall|j: int| 0 <= j < i ==> h.contains_key(#[trigger] m.keys_spec()[j]) && h[m.keys_spec()[j]]
                    == m.values_spec()[j],
                forall|a: int, b: int| 0 <= a < b < i ==> #[trigger] m.keys_spec()[a] != #[trigger] m.keys_spec()[b],
                forall|a: int| 0 <= a < i ==> exists|j: int| 0 <= j < i && #[trigger] m.keys_spec()[a] == entries@[j].0@,
            decreases entries.len() - i,
        {
            let ghost ks = m.keys_spec();
            let ghost vs = m.values_spec();
            let ghost k = entries@[i as int].0@;
            let key = entries[i].0.clone();
            let value = entries[i].1.duplicate();
            proof {
                crate::frame::lemma_insert_pos_below(ks, k, 0);
                assert forall|a: int| 0 <= a < i implies ks[a] != k by {
                    let j = choose|j: int| 0 <= j < i && ks[a] == entries@[j].0@;
                    assert(entries@[j].0@ != entries@[i as int].0@);
                }
            }
            m.insert(key, value);
            proof {
                let p = crate::frame::insert_pos(ks, k, 0);
                let ks2 = m.keys_spec();
                let vs2 = m.values_spec();
                assert(ks2 == ks.insert(p, k));
                assert(vs2 == vs.insert(p, value@));
                assert forall|j: int| 0 <= j < i + 1 implies h.contains_key(#[trigger] ks2[j]) && h[ks2[j]] == vs2[j] by {
                    if j < p {
                        assert(ks2[j] == ks[j] && vs2[j] == vs[j]);
                    } else if j > p {
                        assert(ks2[j] == ks[j - 1] && vs2[j] == vs[j - 1]);
                    }
                }
                assert forall|a: int, b: int| 0 <= a < b < i + 1 implies #[trigger] ks2[a] != #[trigger] ks2[b] by {
                    let a0 = if a < p { a } else { a - 1 };
                    let b0 = if b < p { b } else { b - 1 };
                    if a != p && b != p {
                        assert(ks2[a] == ks[a0] && ks2[b] == ks[b0]);
                    } else if a == p {
                        assert(ks2[b] == ks[b0]);
                    } else {
                        assert(ks2[a] == ks[a0]);
                    }
                }
                assert forall|a: int| 0 <= a < i + 1 implies exists|j: int| 0 <= j < i + 1 && #[trigger] ks2[a] == entries@[j].0@ by {
                    if a == p {
                        assert(ks2[a] == entries@[i as int].0@);
                    } else {
                        let a0 = if a < p { a } else { a - 1 };
                        assert(ks2[a] == ks[a0]);
                        let j = choose|j: int| 0 <= j < i && ks[a0] == entries@[j].0@;
                        assert(ks2[a] == entries@[j].0@);
                    }
                }
            }
            i = i + 1;
        }
        RespFrame::RespMap(m)
    }
}

impl CommandExecutor for HMGet {
    fn execute(self, backend: &mut Backend) -> (r: RespFrame) {
        let values = backend.hmget(self.key.as_str(), &self.fields);
        let mut out: Vec<RespFrame> = Vec::new();
        let mut i: usize = 0;
        while i < values.len()
            invariant
                i <= values@.len(),
                values@.len() == self.fields@.len(),
                out@.len() == i,
                forall|j: int| 0 <= j < i ==> frame_view(#[trigger] out@[j]) == field_or_null(
                    backend.hashes(),
                    self.key@,
                    self.fields@[j]@,
                ),
                forall|j: int| 0 <= j < self.fields@.len() ==> match #[trigger] values@[j] {
                    Some(v) => backend.hashes().contains_key(self.key@) && backend.hashes()[self.key@].contains_key(
                        self.fields@[j]@,
                    ) && v@ == backend.hashes()[self.key@][self.fields@[j]@],
                    None => !(backend.hashes().contains_key(self.key@) && backend.hashes()[self.key@].contains_key(
                        self.fields@[j]@,
                    )),
                },
            decreases values.len() - i,
        {
            let f = match &values[i] {
                Some(v) => v.duplicate(),
                None => RespFrame::Null(RespNull),
            };
            out.push(f);
            i = i + 1;
        }
        proof {
            crate::frame::lemma_frames_view_index(out@);
            let t = texts_view(self.fields@);
            assert(frames_view(out@) =~= Seq::new(
                t.len(),
                |j: int| field_or_null(backend.hashes(), self.key@, t[j]),
            ));
        }
        RespFrame::Array(RespArray(Some(out)))
    }
}

impl CommandExecutor for SAdd {
    fn execute(self, backend: &mut Backend) -> (r: RespFrame) {
        proof {
            lemma_members_texts(self.members@);
        }
        let n = backend.sadd(self.key, self.members);
        let wide: u64 = n as u64;
        let count: i64 = if wide > 0x7fff_ffff_ffff_ffffu64 {
            0x7fff_ffff_ffff_ffff
        } else {
            wide as i64
        };
        RespFrame::Integer(count)
    }
}

impl CommandExecutor for SIsMember {
    fn execute(self, backend: &mut Backend) -> (r: RespFrame) {
        if backend.sismember(self.key.as_str(), self.member.as_str()) {
            RespFrame::Integer(1)
        } else {
            RespFrame::Integer(0)
        }
    }
}

impl CommandExecutor for Echo {
    fn execute(self, backend: &mut Backend) -> (r: RespFrame) {
        RespFrame::BulkString(self.value)
    }
}

impl View for Unrecognized {
    type V = CommandV;

    open spec fn view(&self) -> CommandV {
        CommandV::Unrecognized
    }
}

impl CommandExecutor for Unrecognized {
    fn execute(self, backend: &mut Backend) -> (r: RespFrame) {
        ok_frame()
    }
}

impl CommandExecutor for Command {
    fn execute(self, backend: &mut Backend) -> (r: RespFrame) {
        match self {
            Command::Get(c) => c.execute(backend),
            Command::SetCmd(c) => c.execute(backend),
            Command::HGet(c) => c.execute(backend),
            Command::HSet(c) => c.execute(backend),
            Command::HGetAll(c) => c.execute(backend),
            Command::HMGet(c) => c.execute(backend),
            Command::SAdd(c) => c.execute(backend),
            Command::SIsMember(c) => c.execute(backend),
            Command::Echo(c) => c.execute(backend),
            Command::Unrecognized(c) => c.execute(backend),
        }
    }
}

} // verus!
