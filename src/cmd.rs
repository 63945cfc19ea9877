use vstd::prelude::*;
use vstd::utf8::{decode_utf8, encode_utf8, valid_utf8};

use crate::backend::{add_all, hash_put, lists, members_of, texts, Backend};
use crate::decode::{lemma_frames_push, lower_matches};
use crate::error::CommandError;
use crate::frame::{
    copy_frame, frame_value, frames_value, lemma_frames_value, lemma_pairs_value, pairs_value,
    BulkString, RespArray, RespFrame, RespNull, SimpleError, SimpleString, Value,
};
use crate::grammar::{lossy, lossy_text, lower_eq};

verus! {

broadcast use vstd::seq::group_seq_axioms, vstd::map::group_map_axioms;

/// What a command asks for, with its arguments as text and values.
pub enum Request {
    Get(Seq<char>),
    Put(Seq<char>, Value),
    HGet(Seq<char>, Seq<char>),
    HPut(Seq<char>, Seq<char>, Value),
    HGetAll(Seq<char>),
    HMGet(Seq<char>, Seq<Seq<char>>),
    SAdd(Seq<char>, Seq<Seq<char>>),
    SIsMember(Seq<char>, Seq<char>),
    Echo(Seq<char>),
    Other,
}

/// Which kind of error a malformed command array gives.
pub enum CommandFault {
    Command,
    Argument,
}

/// Whether `t` is the text of bulk string `v` when its bytes are valid UTF-8.
pub open spec fn plain_text(v: Value, t: Seq<char>) -> bool {
    v matches Value::Bulk(b) && (valid_utf8(b) ==> t == decode_utf8(b))
}

/// The text of a bulk-string argument.
pub open spec fn text_arg(v: Value) -> Option<Seq<char>> {
    match v {
        Value::Bulk(b) => Some(lossy_text(b)),
        _ => None,
    }
}

/// The texts of bulk-string arguments; `None` when one is not a bulk string.
pub open spec fn text_args(vs: Seq<Value>) -> Option<Seq<Seq<char>>>
    decreases vs.len(),
{
    if vs.len() == 0 {
        Some(Seq::empty())
    } else {
        match (text_args(vs.drop_last()), text_arg(vs.last())) {
            (Some(ts), Some(t)) => Some(ts.push(t)),
            _ => None,
        }
    }
}

pub open spec fn name_get() -> Seq<u8> {
    seq![103u8, 101, 116]
}

pub open spec fn name_set() -> Seq<u8> {
    seq![115u8, 101, 116]
}

pub open spec fn name_hget() -> Seq<u8> {
    seq![104u8, 103, 101, 116]
}

pub open spec fn name_hset() -> Seq<u8> {
    seq![104u8, 115, 101, 116]
}

pub open spec fn name_hgetall() -> Seq<u8> {
    seq![104u8, 103, 101, 116, 97, 108, 108]
}

pub open spec fn name_hmget() -> Seq<u8> {
    seq![104u8, 109, 103, 101, 116]
}

pub open spec fn name_sadd() -> Seq<u8> {
    seq![115u8, 97, 100, 100]
}

pub open spec fn name_sismember() -> Seq<u8> {
    seq![115u8, 105, 115, 109, 101, 109, 98, 101, 114]
}

pub open spec fn name_echo() -> Seq<u8> {
    seq![101u8, 99, 104, 111]
}

/// A command with one text argument.
pub open spec fn one_text(items: Seq<Value>, mk: spec_fn(Seq<char>) -> Request) -> Result<Request, CommandFault> {
    if items.len() != 2 {
        Err(CommandFault::Argument)
    } else {
        match text_arg(items[1]) {
            Some(a) => Ok(mk(a)),
            None => Err(CommandFault::Argument),
        }
    }
}

/// A command with two text arguments.
pub open spec fn two_texts(items: Seq<Value>, mk: spec_fn(Seq<char>, Seq<char>) -> Request) -> Result<
    Request,
    CommandFault,
> {
    if items.len() != 3 {
        Err(CommandFault::Argument)
    } else {
        match (text_arg(items[1]), text_arg(items[2])) {
            (Some(a), Some(b)) => Ok(mk(a, b)),
            _ => Err(CommandFault::Argument),
        }
    }
}

/// A command with a text key and one or more text arguments after it.
pub open spec fn key_and_texts(items: Seq<Value>, mk: spec_fn(Seq<char>, Seq<Seq<char>>) -> Request) -> Result<
    Request,
    CommandFault,
> {
    if items.len() < 3 {
        Err(CommandFault::Argument)
    } else {
        match (text_arg(items[1]), text_args(items.subrange(2, items.len() as int))) {
            (Some(k), Some(ts)) => Ok(mk(k, ts)),
            _ => Err(CommandFault::Argument),
        }
    }
}

/// The shape check of a command whose array must have `len` elements and
/// whose first names `name`: a wrong length first, then a wrong name.
pub open spec fn check_of(items: Seq<Value>, name: Seq<u8>, len: int) -> Option<CommandFault> {
    if items.len() != len {
        Some(CommandFault::Argument)
    } else if !(items[0] is Bulk) || !lower_eq(items[0]->Bulk_0, name) {
        Some(CommandFault::Command)
    } else {
        None
    }
}

/// The expected array length of `HMGET` and `SADD`: as given when over 3, else 3.
pub open spec fn variadic_len(items: Seq<Value>) -> int {
    if items.len() > 3 {
        items.len() as int
    } else {
        3
    }
}

pub open spec fn checked_then(c: Option<CommandFault>, r: Result<Request, CommandFault>) -> Result<
    Request,
    CommandFault,
> {
    match c {
        Some(f) => Err(f),
        None => r,
    }
}

pub open spec fn get_of(items: Seq<Value>) -> Result<Request, CommandFault> {
    checked_then(check_of(items, name_get(), 2), one_text(items, |k| Request::Get(k)))
}

pub open spec fn set_of(items: Seq<Value>) -> Result<Request, CommandFault> {
    checked_then(
        check_of(items, name_set(), 3),
        match text_arg(items[1]) {
            Some(k) => Ok(Request::Put(k, items[2])),
            None => Err(CommandFault::Argument),
        },
    )
}

pub open spec fn hget_of(items: Seq<Value>) -> Result<Request, CommandFault> {
    checked_then(check_of(items, name_hget(), 3), two_texts(items, |k, f| Request::HGet(k, f)))
}

pub open spec fn hset_of(items: Seq<Value>) -> Result<Request, CommandFault> {
    checked_then(
        check_of(items, name_hset(), 4),
        match (text_arg(items[1]), text_arg(items[2])) {
            (Some(k), Some(f)) => Ok(Request::HPut(k, f, items[3])),
            _ => Err(CommandFault::Argument),
        },
    )
}

pub open spec fn hgetall_of(items: Seq<Value>) -> Result<Request, CommandFault> {
    checked_then(check_of(items, name_hgetall(), 2), one_text(items, |k| Request::HGetAll(k)))
}

pub open spec fn echo_of(items: Seq<Value>) -> Result<Request, CommandFault> {
    checked_then(check_of(items, name_echo(), 2), one_text(items, |m| Request::Echo(m)))
}

pub open spec fn hmget_of(items: Seq<Value>) -> Result<Request, CommandFault> {
    checked_then(
        check_of(items, name_hmget(), variadic_len(items)),
        key_and_texts(items, |k, fs| Request::HMGet(k, fs)),
    )
}

pub open spec fn sadd_of(items: Seq<Value>) -> Result<Request, CommandFault> {
    checked_then(
        check_of(items, name_sadd(), variadic_len(items)),
        key_and_texts(items, |k, ms| Request::SAdd(k, ms)),
    )
}

pub open spec fn sismember_of(items: Seq<Value>) -> Result<Request, CommandFault> {
    checked_then(check_of(items, name_sismember(), 3), two_texts(items, |k, m| Request::SIsMember(k, m)))
}

/// The command that the elements of an array ask for: the first, a bulk
/// string, names it in any case; the rest are its arguments.
pub open spec fn request_of(items: Seq<Value>) -> Result<Request, CommandFault> {
    if items.len() == 0 || !(items[0] is Bulk) {
        Err(CommandFault::Command)
    } else {
        let name = items[0]->Bulk_0;
        if lower_eq(name, name_get()) {
            get_of(items)
        } else if lower_eq(name, name_set()) {
            set_of(items)
        } else if lower_eq(name, name_hget()) {
            hget_of(items)
        } else if lower_eq(name, name_hset()) {
            hset_of(items)
        } else if lower_eq(name, name_hgetall()) {
            hgetall_of(items)
        } else if lower_eq(name, name_echo()) {
            echo_of(items)
        } else if lower_eq(name, name_hmget()) {
            hmget_of(items)
        } else if lower_eq(name, name_sadd()) {
            sadd_of(items)
        } else if lower_eq(name, name_sismember()) {
            sismember_of(items)
        } else {
            Ok(Request::Other)
        }
    }
}

/// The command a frame asks for: only an array is a command.
pub open spec fn request_of_frame(v: Value) -> Result<Request, CommandFault> {
    match v {
        Value::List(items) => request_of(items),
        _ => Err(CommandFault::Command),
    }
}

/// Whether a command error is of the given kind.
pub open spec fn is_fault(e: CommandError, f: CommandFault) -> bool {
    match f {
        CommandFault::Command => e is InvalidCommand,
        CommandFault::Argument => e is InvalidArgument,
    }
}

pub open spec fn ok_reply() -> Value {
    Value::Text("OK"@)
}

/// The reply to `HGETALL`: each field as a bulk string, then its value.
pub open spec fn field_value_items(ps: Seq<(Seq<char>, Value)>) -> Seq<Value>
    decreases ps.len(),
{
    if ps.len() == 0 {
        Seq::empty()
    } else {
        field_value_items(ps.drop_last()) + seq![Value::Bulk(encode_utf8(ps.last().0)), ps.last().1]
    }
}

/// The reply to `HMGET`: each field's value, or the text `(nil)`.
pub open spec fn hmget_items(h: Map<Seq<char>, Map<Seq<char>, Value>>, k: Seq<char>, fs: Seq<Seq<char>>) -> Seq<
    Value,
> {
    Seq::new(
        fs.len(),
        |i: int|
            if h.contains_key(k) && h[k].contains_key(fs[i]) {
                h[k][fs[i]]
            } else {
                Value::Text("(nil)"@)
            },
    )
}

/// Whether running `q` on store `b0` may leave store `b1` and reply `reply`.
pub open spec fn executes(q: Request, b0: Backend, b1: Backend, reply: Value) -> bool {
    match q {
        Request::Get(k) => b1 == b0 && reply == (if b0.flat().contains_key(k) {
            b0.flat()[k]
        } else {
            Value::Nil
        }),
        Request::Put(k, v) => b1.flat() == b0.flat().insert(k, v) && b1.hashes() == b0.hashes()
            && b1.sets() == b0.sets() && reply == ok_reply(),
        Request::HGet(k, f) => b1 == b0 && reply == (if b0.hashes().contains_key(k)
            && b0.hashes()[k].contains_key(f) {
            b0.hashes()[k][f]
        } else {
            Value::Nil
        }),
        Request::HPut(k, f, v) => b1.hashes() == hash_put(b0.hashes(), k, f, v) && b1.flat()
            == b0.flat() && b1.sets() == b0.sets() && reply == ok_reply(),
        Request::HGetAll(k) => b1 == b0 && if b0.hashes().contains_key(k) {
            exists|ps: Seq<(Seq<char>, Value)>|
                lists(ps, b0.hashes()[k]) && reply == Value::List(field_value_items(ps))
        } else {
            reply == Value::Nil
        },
        Request::HMGet(k, fs) => b1 == b0 && reply == Value::List(hmget_items(b0.hashes(), k, fs)),
        Request::SAdd(k, ms) => {
            let before = members_of(b0.sets(), k);
            let after = add_all(before, ms);
            &&& b1.sets() == b0.sets().insert(k, after)
            &&& b1.flat() == b0.flat()
            &&& b1.hashes() == b0.hashes()
            &&& reply == Value::Int(vstd::math::min(after.len() - before.len(), i64::MAX as int))
        },
        Request::SIsMember(k, m) => b1 == b0 && reply == Value::Int(
            if members_of(b0.sets(), k).contains(m) {
                1
            } else {
                0
            },
        ),
        Request::Echo(m) => b1 == b0 && reply == Value::Bulk(encode_utf8(m)),
        Request::Other => b1 == b0 && reply == ok_reply(),
    }
}


/// Running a parsed command against the store.
pub trait CommandExcetor {
    /// What the command asks for.
    spec fn request(&self) -> Request;

    /// Runs the command on the store and gives the reply.
    fn execute(&self, backend: &mut Backend) -> (r: RespFrame)
        ensures
            executes(self.request(), *old(backend), *final(backend), r@),
            old(backend).wf() ==> final(backend).wf(),
    ;
}

/// `GET key`
#[derive(Debug)]
pub struct Get {
    pub key: String,
}

/// `SET key value`
#[derive(Debug)]
pub struct SetCommand {
    pub key: String,
    pub value: RespFrame,
}

/// `HGET key field`
#[derive(Debug)]
pub struct HGet {
    pub key: String,
    pub field: String,
}

/// `HSET key field value`
#[derive(Debug)]
pub struct HSet {
    pub key: String,
    pub field: String,
    pub value: RespFrame,
}

/// `HGETALL key`
#[derive(Debug)]
pub struct HGetAll {
    pub key: String,
}

/// `HMGET key field...`
#[derive(Debug)]
pub struct HMget {
    pub key: String,
    pub fields: Vec<String>,
}

/// `SADD key member...`
#[derive(Debug)]
pub struct Sadd {
    pub key: String,
    pub members: Vec<String>,
}

/// `SISMEMBER key member`
#[derive(Debug)]
pub struct Sismember {
    pub key: String,
    pub member: String,
}

/// `ECHO message`
#[derive(Debug)]
pub struct Echo {
    pub message: String,
}

/// Any other command name.
#[derive(Debug)]
pub struct Unrecognized;

#[derive(Debug)]
pub enum Command {
    Get(Get),
    SetCommand(SetCommand),
    HGet(HGet),
    Hset(HSet),
    HgetAll(HGetAll),
    Unrecognized(Unrecognized),
    Echo(Echo),
    HMget(HMget),
    Sadd(Sadd),
    Sismember(Sismember),
}

impl View for Command {
    type V = Request;

    open spec fn view(&self) -> Request {
        match self {
            Command::Get(c) => Request::Get(c.key@),
            Command::SetCommand(c) => Request::Put(c.key@, c.value@),
            Command::HGet(c) => Request::HGet(c.key@, c.field@),
            Command::Hset(c) => Request::HPut(c.key@, c.field@, c.value@),
            Command::HgetAll(c) => Request::HGetAll(c.key@),
            Command::Unrecognized(_) => Request::Other,
            Command::Echo(c) => Request::Echo(c.message@),
            Command::HMget(c) => Request::HMGet(c.key@, texts(c.fields@)),
            Command::Sadd(c) => Request::SAdd(c.key@, texts(c.members@)),
            Command::Sismember(c) => Request::SIsMember(c.key@, c.member@),
        }
    }
}

/// Whether a parser's result is the request `q` (by `view`) or its fault.
pub open spec fn parsed_as<T>(r: Result<T, CommandError>, q: Result<Request, CommandFault>, view: spec_fn(T) -> Request) -> bool {
    match q {
        Ok(req) => r matches Ok(c) && view(c) == req,
        Err(f) => r matches Err(e) && is_fault(e, f),
    }
}

/// Checks that `value` has `len` elements and that the first is a bulk
/// string naming `name` in any case.
fn validate_command(value: &RespArray, name: &[u8], len: usize) -> (r: Result<(), CommandError>)
    requires
        len >= 1,
    ensures
        match check_of(frames_value(value.0@), name@, len as int) {
            Some(f) => r matches Err(e) && is_fault(e, f),
            None => r is Ok,
        },
{
    proof {
        lemma_frames_value(value.0@);
    }
    if value.0.len() != len {
        return Err(CommandError::InvalidArgument("wrong number of arguments".to_owned()));
    }
    match &value.0[0] {
        RespFrame::BulkString(b) => {
            if lower_matches(b.0.as_slice(), name) {
                Ok(())
            } else {
                Err(CommandError::InvalidCommand("unexpected command name".to_owned()))
            }
        },
        _ => Err(CommandError::InvalidCommand("command name is not a bulk string".to_owned())),
    }
}

/// The text of a bulk-string argument.
fn arg_text(f: &RespFrame) -> (r: Result<String, CommandError>)
    ensures
        match text_arg(f@) {
            Some(t) => r matches Ok(s) && s@ == t,
            None => r matches Err(e) && e is InvalidArgument,
        },
        r matches Ok(s) ==> plain_text(f@, s@),
{
    match f {
        RespFrame::BulkString(b) => Ok(lossy(b.0.as_slice())),
        _ => Err(CommandError::InvalidArgument("argument is not a bulk string".to_owned())),
    }
}

proof fn lemma_text_args_none(vs: Seq<Value>, j: int)
    requires
        0 <= j <= vs.len(),
        text_args(vs.subrange(0, j)) is None,
    ensures
        text_args(vs) is None,
    decreases vs.len() - j,
{
    if j == vs.len() {
        assert(vs.subrange(0, j) == vs);
    } else {
        assert(vs.subrange(0, j + 1).drop_last() == vs.subrange(0, j));
        lemma_text_args_none(vs, j + 1);
    }
}

/// The texts of the bulk-string arguments from index `from` on.
fn arg_texts(frames: &Vec<RespFrame>, from: usize) -> (r: Result<Vec<String>, CommandError>)
    requires
        from <= frames@.len(),
    ensures
        match text_args(frames_value(frames@).subrange(from as int, frames@.len() as int)) {
            Some(ts) => r matches Ok(v) && texts(v@) == ts,
            None => r matches Err(e) && e is InvalidArgument,
        },
{
    proof {
        lemma_frames_value(frames@);
    }
    let ghost vs = frames_value(frames@).subrange(from as int, frames@.len() as int);
    let mut out: Vec<String> = Vec::new();
    let mut i: usize = from;
    assert(vs.subrange(0, 0) == Seq::<Value>::empty());
    assert(texts(out@) =~= Seq::<Seq<char>>::empty());
    while i < frames.len()
        invariant
            from <= i <= frames@.len(),
            vs == frames_value(frames@).subrange(from as int, frames@.len() as int),
            frames_value(frames@).len() == frames@.len(),
            forall|j: int| 0 <= j < frames@.len() ==> #[trigger] frames_value(frames@)[j] == frame_value(frames@[j]),
            text_args(vs.subrange(0, i - from)) == Some(texts(out@)),
        decreases frames@.len() - i,
    {
        let ghost pre = vs.subrange(0, i - from + 1);
        assert(pre.drop_last() == vs.subrange(0, i - from));
        assert(pre.last() == frame_value(frames@[i as int]));
        match arg_text(&frames[i]) {
            Ok(t) => {
                let ghost before = out@;
                out.push(t);
                assert(texts(out@) =~= texts(before).push(t@));
            },
            Err(e) => {
                proof {
                    lemma_text_args_none(vs, i - from + 1);
                }
                return Err(e);
            },
        }
        i += 1;
    }
    assert(vs.subrange(0, i - from) == vs);
    Ok(out)
}

impl Get {
    pub fn try_from(value: RespArray) -> (r: Result<Get, CommandError>)
        ensures
            parsed_as(r, get_of(frames_value(value.0@)), |c: Get| Request::Get(c.key@)),
            r matches Ok(c) ==> plain_text(frames_value(value.0@)[1], c.key@),
    {
        let name = vec![103u8, 101, 116];
        match validate_command(&value, name.as_slice(), 2) {
            Ok(()) => {},
            Err(e) => return Err(e),
        }
        proof {
            lemma_frames_value(value.0@);
        }
        match arg_text(&value.0[1]) {
            Ok(key) => Ok(Get { key }),
            Err(e) => Err(e),
        }
    }
}

impl CommandExcetor for Get {
    open spec fn request(&self) -> Request {
        Request::Get(self.key@)
    }

    fn execute(&self, backend: &mut Backend) -> (r: RespFrame) {
        match backend.get(self.key.as_str()) {
            Some(v) => v,
            None => RespFrame::Null(RespNull),
        }
    }
}

impl SetCommand {
    pub fn try_from(value: RespArray) -> (r: Result<SetCommand, CommandError>)
        ensures
            parsed_as(r, set_of(frames_value(value.0@)), |c: SetCommand| Request::Put(c.key@, c.value@)),
            r matches Ok(c) ==> plain_text(frames_value(value.0@)[1], c.key@),
    {
        let name = vec![115u8, 101, 116];
        match validate_command(&value, name.as_slice(), 3) {
            Ok(()) => {},
            Err(e) => return Err(e),
        }
        proof {
            lemma_frames_value(value.0@);
        }
        match arg_text(&value.0[1]) {
            Ok(key) => Ok(SetCommand { key, value: copy_frame(&value.0[2]) }),
            Err(e) => Err(e),
        }
    }
}

impl CommandExcetor for SetCommand {
    open spec fn request(&self) -> Request {
        Request::Put(self.key@, self.value@)
    }

    fn execute(&self, backend: &mut Backend) -> (r: RespFrame) {
        backend.set(self.key.clone(), copy_frame(&self.value));
        RespFrame::SimpleString(SimpleString("OK".to_owned()))
    }
}

impl HGet {
    pub fn try_from(value: RespArray) -> (r: Result<HGet, CommandError>)
        ensures
            parsed_as(r, hget_of(frames_value(value.0@)), |c: HGet| Request::HGet(c.key@, c.field@)),
            r matches Ok(c) ==> plain_text(frames_value(value.0@)[1], c.key@) && plain_text(frames_value(value.0@)[2], c.field@),
    {
        let name = vec![104u8, 103, 101, 116];
        match validate_command(&value, name.as_slice(), 3) {
            Ok(()) => {},
            Err(e) => return Err(e),
        }
        proof {
            lemma_frames_value(value.0@);
        }
        let key = match arg_text(&value.0[1]) {
            Ok(k) => k,
            Err(e) => return Err(e),
        };
        match arg_text(&value.0[2]) {
            Ok(field) => Ok(HGet { key, field }),
            Err(e) => Err(e),
        }
    }
}

impl CommandExcetor for HGet {
    open spec fn request(&self) -> Request {
        Request::HGet(self.key@, self.field@)
    }

    fn execute(&self, backend: &mut Backend) -> (r: RespFrame) {
        match backend.hget(self.key.as_str(), self.field.as_str()) {
            Some(v) => v,
            None => RespFrame::Null(RespNull),
        }
    }
}

impl HSet {
    pub fn try_from(value: RespArray) -> (r: Result<HSet, CommandError>)
        ensures
            parsed_as(
                r,
                hset_of(frames_value(value.0@)),
                |c: HSet| Request::HPut(c.key@, c.field@, c.value@),
            ),
            r matches Ok(c) ==> plain_text(frames_value(value.0@)[1], c.key@) && plain_text(frames_value(value.0@)[2], c.field@),
    {
        let name = vec![104u8, 115, 101, 116];
        match validate_command(&value, name.as_slice(), 4) {
            Ok(()) => {},
            Err(e) => return Err(e),
        }
        proof {
            lemma_frames_value(value.0@);
        }
        let key = match arg_text(&value.0[1]) {
            Ok(k) => k,
            Err(e) => return Err(e),
        };
        match arg_text(&value.0[2]) {
            Ok(field) => Ok(HSet { key, field, value: copy_frame(&value.0[3]) }),
            Err(e) => Err(e),
        }
    }
}

impl CommandExcetor for HSet {
    open spec fn request(&self) -> Request {
        Request::HPut(self.key@, self.field@, self.value@)
    }

    fn execute(&self, backend: &mut Backend) -> (r: RespFrame) {
        backend.hset(self.key.clone(), self.field.clone(), copy_frame(&self.value));
        RespFrame::SimpleString(SimpleString("OK".to_owned()))
    }
}

impl HGetAll {
    pub fn try_from(value: RespArray) -> (r: Result<HGetAll, CommandError>)
        ensures
            parsed_as(r, hgetall_of(frames_value(value.0@)), |c: HGetAll| Request::HGetAll(c.key@)),
            r matches Ok(c) ==> plain_text(frames_value(value.0@)[1], c.key@),
    {
        let name = vec![104u8, 103, 101, 116, 97, 108, 108];
        match validate_command(&value, name.as_slice(), 2) {
            Ok(()) => {},
            Err(e) => return Err(e),
        }
        proof {
            lemma_frames_value(value.0@);
        }
        match arg_text(&value.0[1]) {
            Ok(key) => Ok(HGetAll { key }),
            Err(e) => Err(e),
        }
    }
}

impl CommandExcetor for HGetAll {
    open spec fn request(&self) -> Request {
        Request::HGetAll(self.key@)
    }

    fn execute(&self, backend: &mut Backend) -> (r: RespFrame) {
        match backend.hgetall(self.key.as_str()) {
            Some(ps) => {
                let ghost pv = pairs_value(ps@);
                proof {
                    lemma_pairs_value(ps@);
                }
                let mut out: Vec<RespFrame> = Vec::new();
                let mut i: usize = 0;
                assert(pv.subrange(0, 0) == Seq::<(Seq<char>, Value)>::empty());
                assert(frames_value(out@) =~= Seq::<Value>::empty());
                while i < ps.len()
                    invariant
                        i <= ps@.len(),
                        pv == pairs_value(ps@),
                        pv.len() == ps@.len(),
                        forall|j: int| 0 <= j < ps@.len() ==> #[trigger] pv[j] == (ps@[j].0@, frame_value(ps@[j].1)),
                        frames_value(out@) == field_value_items(pv.subrange(0, i as int)),
                    decreases ps@.len() - i,
                {
                    let ghost pre = pv.subrange(0, i + 1);
                    assert(pre.drop_last() == pv.subrange(0, i as int));
                    let kf = RespFrame::BulkString(
                        BulkString(vstd::slice::slice_to_vec(ps[i].0.as_str().as_bytes())),
                    );
                    let v = copy_frame(&ps[i].1);
                    let ghost before = out@;
                    proof {
                        lemma_frames_push(before, kf);
                        lemma_frames_push(before.push(kf), v);
                        assert(frames_value(before).push(kf@).push(v@) =~= frames_value(before) + seq![kf@, v@]);
                    }
                    out.push(kf);
                    out.push(v);
                    i += 1;
                }
                assert(pv.subrange(0, ps@.len() as int) == pv);
                RespFrame::Array(RespArray(out))
            },
            None => RespFrame::Null(RespNull),
        }
    }
}

impl Echo {
    pub fn try_from(value: RespArray) -> (r: Result<Echo, CommandError>)
        ensures
            parsed_as(r, echo_of(frames_value(value.0@)), |c: Echo| Request::Echo(c.message@)),
            r matches Ok(c) ==> plain_text(frames_value(value.0@)[1], c.message@),
    {
        let name = vec![101u8, 99, 104, 111];
        match validate_command(&value, name.as_slice(), 2) {
            Ok(()) => {},
            Err(e) => return Err(e),
        }
        proof {
            lemma_frames_value(value.0@);
        }
        match arg_text(&value.0[1]) {
            Ok(message) => Ok(Echo { message }),
            Err(e) => Err(e),
        }
    }
}

impl CommandExcetor for Echo {
    open spec fn request(&self) -> Request {
        Request::Echo(self.message@)
    }

    fn execute(&self, backend: &mut Backend) -> (r: RespFrame) {
        RespFrame::BulkString(BulkString(vstd::slice::slice_to_vec(self.message.as_str().as_bytes())))
    }
}

impl Sismember {
    pub fn try_from(value: RespArray) -> (r: Result<Sismember, CommandError>)
        ensures
            parsed_as(
                r,
                sismember_of(frames_value(value.0@)),
                |c: Sismember| Request::SIsMember(c.key@, c.member@),
            ),
            r matches Ok(c) ==> plain_text(frames_value(value.0@)[1], c.key@) && plain_text(frames_value(value.0@)[2], c.member@),
    {
        let name = vec![115u8, 105, 115, 109, 101, 109, 98, 101, 114];
        match validate_command(&value, name.as_slice(), 3) {
            Ok(()) => {},
            Err(e) => return Err(e),
        }
        proof {
            lemma_frames_value(value.0@);
        }
        let key = match arg_text(&value.0[1]) {
            Ok(k) => k,
            Err(e) => return Err(e),
        };
        match arg_text(&value.0[2]) {
            Ok(member) => Ok(Sismember { key, member }),
            Err(e) => Err(e),
        }
    }
}

impl CommandExcetor for Sismember {
    open spec fn request(&self) -> Request {
        Request::SIsMember(self.key@, self.member@)
    }

    fn execute(&self, backend: &mut Backend) -> (r: RespFrame) {
        RespFrame::Integer(backend.sismember(self.key.clone(), self.member.clone()))
    }
}

impl HMget {
    pub fn try_from(value: RespArray) -> (r: Result<HMget, CommandError>)
        ensures
            parsed_as(
                r,
                hmget_of(frames_value(value.0@)),
                |c: HMget| Request::HMGet(c.key@, texts(c.fields@)),
            ),
    {
        let name = vec![104u8, 109, 103, 101, 116];
        proof {
            lemma_frames_value(value.0@);
        }
        let n = value.0.len();
        let expected: usize = if n > 3 {
            n
        } else {
            3
        };
        match validate_command(&value, name.as_slice(), expected) {
            Ok(()) => {},
            Err(e) => return Err(e),
        }
        proof {
            lemma_frames_value(value.0@);
        }
        let key = match arg_text(&value.0[1]) {
            Ok(k) => k,
            Err(e) => return Err(e),
        };
        match arg_texts(&value.0, 2) {
            Ok(fields) => Ok(HMget { key, fields }),
            Err(e) => Err(e),
        }
    }
}

impl CommandExcetor for HMget {
    open spec fn request(&self) -> Request {
        Request::HMGet(self.key@, texts(self.fields@))
    }

    fn execute(&self, backend: &mut Backend) -> (r: RespFrame) {
        let ghost fs = texts(self.fields@);
        let mut out: Vec<RespFrame> = Vec::new();
        let mut i: usize = 0;
        while i < self.fields.len()
            invariant
                i <= self.fields@.len(),
                fs == texts(self.fields@),
                out@.len() == i,
                forall|j: int| 0 <= j < i ==> frame_value(#[trigger] out@[j]) == hmget_items(backend.hashes(), self.key@, fs)[j],
            decreases self.fields@.len() - i,
        {
            let v = match backend.hget(self.key.as_str(), self.fields[i].as_str()) {
                Some(v) => v,
                None => RespFrame::SimpleString(SimpleString("(nil)".to_owned())),
            };
            out.push(v);
            i += 1;
        }
        proof {
            lemma_frames_value(out@);
            assert(frames_value(out@) =~= hmget_items(backend.hashes(), self.key@, fs));
        }
        RespFrame::Array(RespArray(out))
    }
}

impl Sadd {
    pub fn try_from(value: RespArray) -> (r: Result<Sadd, CommandError>)
        ensures
            parsed_as(
                r,
                sadd_of(frames_value(value.0@)),
                |c: Sadd| Request::SAdd(c.key@, texts(c.members@)),
            ),
    {
        let name = vec![115u8, 97, 100, 100];
        proof {
            lemma_frames_value(value.0@);
        }
        let n = value.0.len();
        let expected: usize = if n > 3 {
            n
        } else {
            3
        };
        match validate_command(&value, name.as_slice(), expected) {
            Ok(()) => {},
            Err(e) => return Err(e),
        }
        proof {
            lemma_frames_value(value.0@);
        }
        let key = match arg_text(&value.0[1]) {
            Ok(k) => k,
            Err(e) => return Err(e),
        };
        match arg_texts(&value.0, 2) {
            Ok(members) => Ok(Sadd { key, members }),
            Err(e) => Err(e),
        }
    }
}

impl CommandExcetor for Sadd {
    open spec fn request(&self) -> Request {
        Request::SAdd(self.key@, texts(self.members@))
    }

    fn execute(&self, backend: &mut Backend) -> (r: RespFrame) {
        RespFrame::Integer(backend.sadd(self.key.clone(), &self.members))
    }
}

impl CommandExcetor for Unrecognized {
    open spec fn request(&self) -> Request {
        Request::Other
    }

    fn execute(&self, backend: &mut Backend) -> (r: RespFrame) {
        RespFrame::SimpleString(SimpleString("OK".to_owned()))
    }
}

impl Command {
    /// The command that a frame asks for: an array whose first element, a
    /// bulk string, names it in any case.
    pub fn try_from(frame: RespFrame) -> (r: Result<Command, CommandError>)
        ensures
            parsed_as(r, request_of_frame(frame@), |c: Command| c@),
    {
        match frame {
            RespFrame::Array(value) => Command::try_from_array(value),
            _ => Err(CommandError::InvalidCommand("a command is an array".to_owned())),
        }
    }

    pub fn try_from_array(value: RespArray) -> (r: Result<Command, CommandError>)
        ensures
            parsed_as(r, request_of(frames_value(value.0@)), |c: Command| c@),
    {
        proof {
            lemma_frames_value(value.0@);
        }
        if value.0.len() == 0 {
            return Err(CommandError::InvalidCommand("empty command".to_owned()));
        }
        let name: Vec<u8> = match &value.0[0] {
            RespFrame::BulkString(b) => vstd::slice::slice_to_vec(b.0.as_slice()),
            _ => {
                return Err(
                    CommandError::InvalidCommand("command name is not a bulk string".to_owned()),
                )
            },
        };
        let n = name.as_slice();
        if lower_matches(n, vec![103u8, 101, 116].as_slice()) {
            match Get::try_from(value) {
                Ok(c) => Ok(Command::Get(c)),
                Err(e) => Err(e),
            }
        } else if lower_matches(n, vec![115u8, 101, 116].as_slice()) {
            match SetCommand::try_from(value) {
                Ok(c) => Ok(Command::SetCommand(c)),
                Err(e) => Err(e),
            }
        } else if lower_matches(n, vec![104u8, 103, 101, 116].as_slice()) {
            match HGet::try_from(value) {
                Ok(c) => Ok(Command::HGet(c)),
                Err(e) => Err(e),
            }
        } else if lower_matches(n, vec![104u8, 115, 101, 116].as_slice()) {
            match HSet::try_from(value) {
                Ok(c) => Ok(Command::Hset(c)),
                Err(e) => Err(e),
            }
        } else if lower_matches(n, vec![104u8, 103, 101, 116, 97, 108, 108].as_slice()) {
            match HGetAll::try_from(value) {
                Ok(c) => Ok(Command::HgetAll(c)),
                Err(e) => Err(e),
            }
        } else if lower_matches(n, vec![101u8, 99, 104, 111].as_slice()) {
            match Echo::try_from(value) {
                Ok(c) => Ok(Command::Echo(c)),
                Err(e) => Err(e),
            }
        } else if lower_matches(n, vec![104u8, 109, 103, 101, 116].as_slice()) {
            match HMget::try_from(value) {
                Ok(c) => Ok(Command::HMget(c)),
                Err(e) => Err(e),
            }
        } else if lower_matches(n, vec![115u8, 97, 100, 100].as_slice()) {
            match Sadd::try_from(value) {
                Ok(c) => Ok(Command::Sadd(c)),
                Err(e) => Err(e),
            }
        } else if lower_matches(n, vec![115u8, 105, 115, 109, 101, 109, 98, 101, 114].as_slice()) {
            match Sismember::try_from(value) {
                Ok(c) => Ok(Command::Sismember(c)),
                Err(e) => Err(e),
            }
        } else {
            Ok(Command::Unrecognized(Unrecognized))
        }
    }

}

impl CommandExcetor for Command {
    open spec fn request(&self) -> Request {
        self@
    }

    fn execute(&self, backend: &mut Backend) -> (r: RespFrame) {
        match self {
            Command::Get(c) => c.execute(backend),
            Command::SetCommand(c) => c.execute(backend),
            Command::HGet(c) => c.execute(backend),
            Command::Hset(c) => c.execute(backend),
            Command::HgetAll(c) => c.execute(backend),
            Command::Unrecognized(c) => c.execute(backend),
            Command::Echo(c) => c.execute(backend),
            Command::HMget(c) => c.execute(backend),
            Command::Sadd(c) => c.execute(backend),
            Command::Sismember(c) => c.execute(backend),
        }
    }
}

/// The text of the error reply to a malformed command.
pub open spec fn fault_text(f: CommandFault) -> Seq<char> {
    match f {
        CommandFault::Command => "ERR invalid command"@,
        CommandFault::Argument => "ERR invalid argument"@,
    }
}

/// Whether answering request frame `v` on store `b0` may leave `b1` and
/// reply `reply`: the command's effect, or an error reply and no change when
/// the frame is not a well-formed command.
pub open spec fn responds(v: Value, b0: Backend, b1: Backend, reply: Value) -> bool {
    match request_of_frame(v) {
        Ok(q) => executes(q, b0, b1, reply),
        Err(f) => b1 == b0 && reply == Value::Fault(fault_text(f)),
    }
}

/// The reply to one request frame.
pub fn respond(frame: RespFrame, backend: &mut Backend) -> (r: RespFrame)
    ensures
        responds(frame@, *old(backend), *final(backend), r@),
        old(backend).wf() ==> final(backend).wf(),
{
    match Command::try_from(frame) {
        Ok(cmd) => cmd.execute(backend),
        Err(CommandError::InvalidArgument(_)) => RespFrame::Error(
            SimpleError("ERR invalid argument".to_owned()),
        ),
        Err(_) => RespFrame::Error(SimpleError("ERR invalid command".to_owned())),
    }
}

} // verus!
