use vstd::prelude::*;
use vstd::utf8::encode_utf8;

use crate::frame::{
    frame_value, frames_value, lemma_frames_value, lemma_pairs_value, pairs_value, BulkString,
    RespArray, RespDouble, RespFrame, RespMap, RespNull, RespNullArray, RespNullBulkString, RespSet,
    SimpleError, SimpleString, Value,
};

verus! {

broadcast use vstd::std_specs::vec::group_vec_axioms, vstd::seq::group_seq_axioms;

/// The two bytes that end every header and every line.
pub open spec fn crlf() -> Seq<u8> {
    seq![13u8, 10u8]
}

/// Decimal digits of a natural number, most significant first, no leading zero.
pub open spec fn digits_of(n: nat) -> Seq<u8>
    decreases n,
{
    if n < 10 {
        seq![(48 + n) as u8]
    } else {
        digits_of(n / 10).push((48 + n % 10) as u8)
    }
}

/// Decimal text of an integer, with `-` before a negative one.
pub open spec fn int_text(i: int) -> Seq<u8> {
    if i < 0 {
        seq![45u8] + digits_of((-i) as nat)
    } else {
        digits_of(i as nat)
    }
}

/// A one-byte prefix, a line of text, and the line's end.
pub open spec fn line(prefix: u8, body: Seq<u8>) -> Seq<u8> {
    seq![prefix] + body + crlf()
}

/// The bytes that encode a value.
pub open spec fn wire(v: Value) -> Seq<u8>
    decreases v,
{
    match v {
        Value::Text(s) => line(43u8, encode_utf8(s)),
        Value::Fault(s) => line(45u8, encode_utf8(s)),
        Value::Int(i) => line(58u8, int_text(i)),
        Value::Bulk(b) => line(36u8, int_text(b.len() as int)) + b + crlf(),
        Value::NullBulk => line(36u8, seq![45u8, 49u8]),
        Value::List(items) => line(42u8, int_text(items.len() as int)) + wire_all(items),
        Value::NullList => line(42u8, seq![45u8, 49u8]),
        Value::Nil => line(95u8, Seq::empty()),
        Value::Flag(b) => line(35u8, if b { seq![116u8] } else { seq![102u8] }),
        Value::Real(t) => line(44u8, t),
        Value::Dict(pairs) => line(37u8, int_text(pairs.len() as int)) + wire_pairs(pairs),
        Value::Group(items) => line(126u8, int_text(items.len() as int)) + wire_all(items),
    }
}

/// The encodings of a sequence of values, one after another.
pub open spec fn wire_all(s: Seq<Value>) -> Seq<u8>
    decreases s,
{
    if s.len() == 0 {
        Seq::empty()
    } else {
        wire_all(s.subrange(0, s.len() - 1)) + wire(s[s.len() - 1])
    }
}

/// The encodings of map entries: each key as a simple string, then its value.
pub open spec fn wire_pairs(s: Seq<(Seq<char>, Value)>) -> Seq<u8>
    decreases s,
{
    if s.len() == 0 {
        Seq::empty()
    } else {
        wire_pairs(s.subrange(0, s.len() - 1)) + line(43u8, encode_utf8(s[s.len() - 1].0)) + wire(
            s[s.len() - 1].1,
        )
    }
}

fn append_bytes(buf: &mut Vec<u8>, b: &[u8])
    ensures
        final(buf)@ == old(buf)@ + b@,
{
    let mut i: usize = 0;
    while i < b.len()
        invariant
            i <= b@.len(),
            buf@ == old(buf)@ + b@.subrange(0, i as int),
        decreases b@.len() - i,
    {
        buf.push(b[i]);
        i += 1;
        assert(b@.subrange(0, i as int) == b@.subrange(0, i - 1).push(b@[i - 1]));
    }
    assert(b@.subrange(0, b@.len() as int) == b@);
}

fn append_line(buf: &mut Vec<u8>, prefix: u8, body: &[u8])
    ensures
        final(buf)@ == old(buf)@ + line(prefix, body@),
{
    buf.push(prefix);
    append_bytes(buf, body);
    append_crlf(buf);
}

fn append_crlf(buf: &mut Vec<u8>)
    ensures
        final(buf)@ == old(buf)@ + crlf(),
{
    buf.push(13u8);
    buf.push(10u8);
}

fn append_digits(buf: &mut Vec<u8>, n: u64)
    ensures
        final(buf)@ == old(buf)@ + digits_of(n as nat),
    decreases n,
{
    if n < 10 {
        buf.push(48u8 + n as u8);
    } else {
        append_digits(buf, n / 10);
        buf.push(48u8 + (n % 10) as u8);
    }
}

fn append_int(buf: &mut Vec<u8>, i: i64)
    ensures
        final(buf)@ == old(buf)@ + int_text(i as int),
{
    if i < 0 {
        buf.push(45u8);
        let m: u64 = ((-(i + 1)) as u64) + 1;
        append_digits(buf, m);
    } else {
        append_digits(buf, i as u64);
    }
}

fn append_line_header(buf: &mut Vec<u8>, prefix: u8, n: usize)
    ensures
        final(buf)@ == old(buf)@ + line(prefix, int_text(n as int)),
{
    buf.push(prefix);
    append_digits(buf, n as u64);
    append_crlf(buf);
}

proof fn lemma_frames_value_step(s: Seq<RespFrame>, i: int)
    requires
        0 <= i < s.len(),
    ensures
        frames_value(s.subrange(0, i + 1)) == frames_value(s.subrange(0, i)).push(
            frame_value(s[i]),
        ),
        wire_all(frames_value(s.subrange(0, i + 1))) == wire_all(frames_value(s.subrange(0, i)))
            + wire(frame_value(s[i])),
{
    let t = s.subrange(0, i + 1);
    assert(t.subrange(0, t.len() - 1) == s.subrange(0, i));
    let x = frames_value(s.subrange(0, i)).push(frame_value(s[i]));
    assert(x.subrange(0, x.len() - 1) == frames_value(s.subrange(0, i)));
}

proof fn lemma_pairs_value_step(s: Seq<(String, RespFrame)>, i: int)
    requires
        0 <= i < s.len(),
    ensures
        pairs_value(s.subrange(0, i + 1)) == pairs_value(s.subrange(0, i)).push(
            (s[i].0@, frame_value(s[i].1)),
        ),
        wire_pairs(pairs_value(s.subrange(0, i + 1))) == wire_pairs(pairs_value(s.subrange(0, i)))
            + line(43u8, encode_utf8(s[i].0@)) + wire(frame_value(s[i].1)),
{
    let t = s.subrange(0, i + 1);
    assert(t.subrange(0, t.len() - 1) == s.subrange(0, i));
    let x = pairs_value(s.subrange(0, i)).push((s[i].0@, frame_value(s[i].1)));
    assert(x.subrange(0, x.len() - 1) == pairs_value(s.subrange(0, i)));
}

/// Appends the encoding of `f` to `buf`.
pub fn append_frame(buf: &mut Vec<u8>, f: &RespFrame)
    ensures
        final(buf)@ == old(buf)@ + wire(f@),
    decreases f, 1nat,
{
    match f {
        RespFrame::SimpleString(s) => {
            append_line(buf, 43u8, s.0.as_str().as_bytes());
        },
        RespFrame::Error(s) => {
            append_line(buf, 45u8, s.0.as_str().as_bytes());
        },
        RespFrame::Integer(i) => {
            buf.push(58u8);
            append_int(buf, *i);
            append_crlf(buf);
        },
        RespFrame::BulkString(b) => {
            append_line_header(buf, 36u8, b.0.len());
            append_bytes(buf, b.0.as_slice());
            append_crlf(buf);
        },
        RespFrame::NullBulkString(_) => {
            buf.push(36u8);
            buf.push(45u8);
            buf.push(49u8);
            append_crlf(buf);
        },
        RespFrame::Array(a) => {
            append_list(buf, 42u8, &a.0);
        },
        RespFrame::NullArray(_) => {
            buf.push(42u8);
            buf.push(45u8);
            buf.push(49u8);
            append_crlf(buf);
        },
        RespFrame::Null(_) => {
            buf.push(95u8);
            append_crlf(buf);
        },
        RespFrame::Boolean(b) => {
            buf.push(35u8);
            if *b {
                buf.push(116u8);
            } else {
                buf.push(102u8);
            }
            append_crlf(buf);
        },
        RespFrame::Double(d) => {
            append_line(buf, 44u8, d.0.as_slice());
        },
        RespFrame::Mapping(m) => {
            append_map(buf, &m.0);
        },
        RespFrame::UniqueSet(s) => {
            append_list(buf, 126u8, &s.0);
        },
    }
}


/// A count header with `prefix`, then the frames.
fn append_list(buf: &mut Vec<u8>, prefix: u8, frames: &Vec<RespFrame>)
    ensures
        final(buf)@ == old(buf)@ + line(prefix, int_text(frames_value(frames@).len() as int)) + wire_all(
            frames_value(frames@),
        ),
    decreases frames, 1nat,
{
    proof {
        lemma_frames_value(frames@);
    }
    append_line_header(buf, prefix, frames.len());
    append_items(buf, frames);
}

/// A map's count header, then its entries.
fn append_map(buf: &mut Vec<u8>, pairs: &Vec<(String, RespFrame)>)
    ensures
        final(buf)@ == old(buf)@ + line(37u8, int_text(pairs_value(pairs@).len() as int)) + wire_pairs(
            pairs_value(pairs@),
        ),
    decreases pairs, 1nat,
{
    proof {
        lemma_pairs_value(pairs@);
    }
    append_line_header(buf, 37u8, pairs.len());
    append_entries(buf, pairs);
}

fn append_items(buf: &mut Vec<u8>, frames: &Vec<RespFrame>)
    ensures
        final(buf)@ == old(buf)@ + wire_all(frames_value(frames@)),
    decreases frames, 0nat,
{
    let mut i: usize = 0;
    assert(frames@.subrange(0, 0) == Seq::<RespFrame>::empty());
    while i < frames.len()
        invariant
            i <= frames@.len(),
            buf@ == old(buf)@ + wire_all(frames_value(frames@.subrange(0, i as int))),
        decreases frames@.len() - i,
    {
        proof {
            lemma_frames_value_step(frames@, i as int);
        }
        append_frame(buf, &frames[i]);
        i += 1;
    }
    assert(frames@.subrange(0, frames@.len() as int) == frames@);
}

fn append_entries(buf: &mut Vec<u8>, pairs: &Vec<(String, RespFrame)>)
    ensures
        final(buf)@ == old(buf)@ + wire_pairs(pairs_value(pairs@)),
    decreases pairs, 0nat,
{
    let mut i: usize = 0;
    assert(pairs@.subrange(0, 0) == Seq::<(String, RespFrame)>::empty());
    while i < pairs.len()
        invariant
            i <= pairs@.len(),
            buf@ == old(buf)@ + wire_pairs(pairs_value(pairs@.subrange(0, i as int))),
        decreases pairs@.len() - i,
    {
        proof {
            lemma_pairs_value_step(pairs@, i as int);
        }
        let entry = &pairs[i];
        append_line(buf, 43u8, entry.0.as_str().as_bytes());
        append_frame(buf, &entry.1);
        i += 1;
    }
    assert(pairs@.subrange(0, pairs@.len() as int) == pairs@);
}

/// Writing a value in its wire form.
pub trait RespEncoder {
    /// The bytes that encode this value.
    spec fn wire_of(&self) -> Seq<u8>;

    fn encode(&self) -> (r: Vec<u8>)
        ensures
            r@ == self.wire_of(),
    ;
}

impl RespEncoder for RespFrame {
    open spec fn wire_of(&self) -> Seq<u8> {
        wire(self@)
    }

    fn encode(&self) -> (r: Vec<u8>) {
        let mut buf = Vec::new();
        append_frame(&mut buf, self);
        buf
    }
}

impl RespEncoder for SimpleString {
    open spec fn wire_of(&self) -> Seq<u8> {
        wire(Value::Text(self.0@))
    }

    fn encode(&self) -> (r: Vec<u8>) {
        self.0.encode()
    }
}

impl RespEncoder for String {
    open spec fn wire_of(&self) -> Seq<u8> {
        wire(Value::Text(self@))
    }

    fn encode(&self) -> (r: Vec<u8>) {
        let mut buf = Vec::new();
        append_line(&mut buf, 43u8, self.as_str().as_bytes());
        buf
    }
}

impl RespEncoder for SimpleError {
    open spec fn wire_of(&self) -> Seq<u8> {
        wire(Value::Fault(self.0@))
    }

    fn encode(&self) -> (r: Vec<u8>) {
        let mut buf = Vec::new();
        append_line(&mut buf, 45u8, self.0.as_str().as_bytes());
        buf
    }
}

impl RespEncoder for i64 {
    open spec fn wire_of(&self) -> Seq<u8> {
        wire(Value::Int(*self as int))
    }

    fn encode(&self) -> (r: Vec<u8>) {
        let mut buf = Vec::new();
        buf.push(58u8);
        append_int(&mut buf, *self);
        append_crlf(&mut buf);
        buf
    }
}

impl RespEncoder for bool {
    open spec fn wire_of(&self) -> Seq<u8> {
        wire(Value::Flag(*self))
    }

    fn encode(&self) -> (r: Vec<u8>) {
        let mut buf = Vec::new();
        buf.push(35u8);
        buf.push(if *self { 116u8 } else { 102u8 });
        append_crlf(&mut buf);
        buf
    }
}

impl RespEncoder for BulkString {
    open spec fn wire_of(&self) -> Seq<u8> {
        wire(Value::Bulk(self.0@))
    }

    fn encode(&self) -> (r: Vec<u8>) {
        let mut buf = Vec::new();
        append_line_header(&mut buf, 36u8, self.0.len());
        append_bytes(&mut buf, self.0.as_slice());
        append_crlf(&mut buf);
        buf
    }
}

impl RespEncoder for RespNullBulkString {
    open spec fn wire_of(&self) -> Seq<u8> {
        wire(Value::NullBulk)
    }

    fn encode(&self) -> (r: Vec<u8>) {
        vec![36u8, 45, 49, 13, 10]
    }
}

impl RespEncoder for RespNull {
    open spec fn wire_of(&self) -> Seq<u8> {
        wire(Value::Nil)
    }

    fn encode(&self) -> (r: Vec<u8>) {
        vec![95u8, 13, 10]
    }
}

impl RespEncoder for RespNullArray {
    open spec fn wire_of(&self) -> Seq<u8> {
        wire(Value::NullList)
    }

    fn encode(&self) -> (r: Vec<u8>) {
        vec![42u8, 45, 49, 13, 10]
    }
}

impl RespEncoder for RespDouble {
    open spec fn wire_of(&self) -> Seq<u8> {
        wire(Value::Real(self.0@))
    }

    fn encode(&self) -> (r: Vec<u8>) {
        let mut buf = Vec::new();
        append_line(&mut buf, 44u8, self.0.as_slice());
        buf
    }
}

impl RespEncoder for RespArray {
    open spec fn wire_of(&self) -> Seq<u8> {
        wire(Value::List(frames_value(self.0@)))
    }

    fn encode(&self) -> (r: Vec<u8>) {
        let mut buf = Vec::new();
        append_list(&mut buf, 42u8, &self.0);
        buf
    }
}

impl RespEncoder for RespSet {
    open spec fn wire_of(&self) -> Seq<u8> {
        wire(Value::Group(self.members()))
    }

    fn encode(&self) -> (r: Vec<u8>) {
        let mut buf = Vec::new();
        append_list(&mut buf, 126u8, &self.0);
        buf
    }
}

impl RespEncoder for RespMap {
    open spec fn wire_of(&self) -> Seq<u8> {
        wire(Value::Dict(self.entries()))
    }

    fn encode(&self) -> (r: Vec<u8>) {
        let mut buf = Vec::new();
        append_map(&mut buf, &self.0);
        buf
    }
}

} // verus!
