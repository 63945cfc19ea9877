use vstd::prelude::*;

use crate::grammar::{bytes_lt, dict_put, group_put, key_lt};
use crate::invariants::{keys_ascending, lemma_dict_put_ascending, lemma_group_put_distinct};

verus! {

broadcast use vstd::std_specs::vec::group_vec_axioms, vstd::seq::group_seq_axioms;

/// The mathematical value of a frame: what the wire carries, with strings as
/// character or byte sequences and numbers as integers.
pub enum Value {
    Text(Seq<char>),
    Fault(Seq<char>),
    Int(int),
    Bulk(Seq<u8>),
    NullBulk,
    List(Seq<Value>),
    NullList,
    Nil,
    Flag(bool),
    Real(Seq<u8>),
    Dict(Seq<(Seq<char>, Value)>),
    Group(Seq<Value>),
}

/// `+<text>\r\n`
#[derive(Debug, Clone, PartialEq)]
pub struct SimpleString(pub String);

/// `-<text>\r\n`
#[derive(Debug, Clone, PartialEq)]
pub struct SimpleError(pub String);

/// `$<length>\r\n<bytes>\r\n`
#[derive(Debug, Clone, PartialEq)]
pub struct BulkString(pub Vec<u8>);

/// `$-1\r\n`
#[derive(Debug, Clone, PartialEq)]
pub struct RespNullBulkString;

/// `*<count>\r\n<frame>...`
#[derive(Debug, PartialEq)]
pub struct RespArray(pub Vec<RespFrame>);

/// `*-1\r\n`
#[derive(Debug, Clone, PartialEq)]
pub struct RespNullArray;

/// `_\r\n`
#[derive(Debug, Clone, PartialEq)]
pub struct RespNull;

/// `,<decimal text>\r\n`: a double held as the text that the wire carries.
#[derive(Debug, Clone, PartialEq)]
pub struct RespDouble(pub Vec<u8>);

/// `%<count>\r\n<key><value>...`: pairs kept in ascending byte order of
/// their keys, each key once.
#[derive(Debug, PartialEq)]
pub struct RespMap(pub Vec<(String, RespFrame)>);

/// `~<count>\r\n<frame>...`: distinct frames in order of first insertion.
#[derive(Debug, PartialEq)]
pub struct RespSet(pub Vec<RespFrame>);

#[derive(Debug, PartialEq)]
pub enum RespFrame {
    SimpleString(SimpleString),
    Error(SimpleError),
    Integer(i64),
    BulkString(BulkString),
    NullBulkString(RespNullBulkString),
    Array(RespArray),
    NullArray(RespNullArray),
    Null(RespNull),
    Boolean(bool),
    Double(RespDouble),
    Mapping(RespMap),
    UniqueSet(RespSet),
}

pub open spec fn frame_value(f: RespFrame) -> Value
    decreases f,
{
    match f {
        RespFrame::SimpleString(s) => Value::Text(s.0@),
        RespFrame::Error(s) => Value::Fault(s.0@),
        RespFrame::Integer(i) => Value::Int(i as int),
        RespFrame::BulkString(b) => Value::Bulk(b.0@),
        RespFrame::NullBulkString(_) => Value::NullBulk,
        RespFrame::Array(a) => Value::List(frames_value(a.0@)),
        RespFrame::NullArray(_) => Value::NullList,
        RespFrame::Null(_) => Value::Nil,
        RespFrame::Boolean(b) => Value::Flag(b),
        RespFrame::Double(d) => Value::Real(d.0@),
        RespFrame::Mapping(m) => Value::Dict(pairs_value(m.0@)),
        RespFrame::UniqueSet(s) => Value::Group(frames_value(s.0@)),
    }
}

pub open spec fn frames_value(s: Seq<RespFrame>) -> Seq<Value>
    decreases s,
{
    if s.len() == 0 {
        Seq::empty()
    } else {
        frames_value(s.subrange(0, s.len() - 1)).push(frame_value(s[s.len() - 1]))
    }
}

pub open spec fn pairs_value(s: Seq<(String, RespFrame)>) -> Seq<(Seq<char>, Value)>
    decreases s,
{
    if s.len() == 0 {
        Seq::empty()
    } else {
        pairs_value(s.subrange(0, s.len() - 1)).push(
            (s[s.len() - 1].0@, frame_value(s[s.len() - 1].1)),
        )
    }
}

impl View for RespFrame {
    type V = Value;

    open spec fn view(&self) -> Value {
        frame_value(*self)
    }
}


pub proof fn lemma_frames_value(s: Seq<RespFrame>)
    ensures
        frames_value(s).len() == s.len(),
        forall|i: int| 0 <= i < s.len() ==> #[trigger] frames_value(s)[i] == frame_value(s[i]),
    decreases s.len(),
{
    if s.len() > 0 {
        let t = s.subrange(0, s.len() - 1);
        lemma_frames_value(t);
        assert forall|i: int| 0 <= i < s.len() implies #[trigger] frames_value(s)[i] == frame_value(
            s[i],
        ) by {
            if i < s.len() - 1 {
                assert(t[i] == s[i]);
            }
        }
    }
}

pub proof fn lemma_pairs_value(s: Seq<(String, RespFrame)>)
    ensures
        pairs_value(s).len() == s.len(),
        forall|i: int|
            0 <= i < s.len() ==> #[trigger] pairs_value(s)[i] == (s[i].0@, frame_value(s[i].1)),
    decreases s.len(),
{
    if s.len() > 0 {
        let t = s.subrange(0, s.len() - 1);
        lemma_pairs_value(t);
        assert forall|i: int| 0 <= i < s.len() implies #[trigger] pairs_value(s)[i] == (
            s[i].0@,
            frame_value(s[i].1),
        ) by {
            if i < s.len() - 1 {
                assert(t[i] == s[i]);
            }
        }
    }
}

/// Whether two byte strings are equal.
pub fn bytes_equal(a: &[u8], b: &[u8]) -> (r: bool)
    ensures
        r == (a@ == b@),
{
    if a.len() != b.len() {
        return false;
    }
    let mut i: usize = 0;
    while i < a.len()
        invariant
            a@.len() == b@.len(),
            i <= a@.len(),
            forall|j: int| 0 <= j < i ==> a@[j] == b@[j],
        decreases a@.len() - i,
    {
        if a[i] != b[i] {
            return false;
        }
        i += 1;
    }
    assert(a@ =~= b@);
    true
}

/// Whether `a` comes before `b` in byte order.
pub fn bytes_less(a: &[u8], b: &[u8]) -> (r: bool)
    ensures
        r == bytes_lt(a@, b@),
{
    let mut i: usize = 0;
    assert(a@.subrange(0, a@.len() as int) == a@);
    assert(b@.subrange(0, b@.len() as int) == b@);
    while i < a.len() && i < b.len()
        invariant
            i <= a@.len(),
            i <= b@.len(),
            bytes_lt(a@, b@) == bytes_lt(
                a@.subrange(i as int, a@.len() as int),
                b@.subrange(i as int, b@.len() as int),
            ),
        decreases a@.len() - i,
    {
        let ghost sa = a@.subrange(i as int, a@.len() as int);
        let ghost sb = b@.subrange(i as int, b@.len() as int);
        if a[i] != b[i] {
            assert(sa[0] == a@[i as int] && sb[0] == b@[i as int]);
            return a[i] < b[i];
        }
        assert(sa.drop_first() == a@.subrange(i + 1, a@.len() as int));
        assert(sb.drop_first() == b@.subrange(i + 1, b@.len() as int));
        i += 1;
    }
    assert(a@.subrange(i as int, a@.len() as int).len() == a@.len() - i);
    assert(b@.subrange(i as int, b@.len() as int).len() == b@.len() - i);
    i == a.len() && i < b.len()
}

fn frames_equal(x: &Vec<RespFrame>, y: &Vec<RespFrame>, outer: &RespFrame) -> (r: bool)
    requires
        decreases_to!(*outer => *x),
    ensures
        r == (frames_value(x@) == frames_value(y@)),
    decreases outer, 0nat,
{
    proof {
        lemma_frames_value(x@);
        lemma_frames_value(y@);
    }
    if x.len() != y.len() {
        return false;
    }
    let mut i: usize = 0;
    while i < x.len()
        invariant
            x@.len() == y@.len(),
            i <= x@.len(),
            decreases_to!(*outer => *x),
            frames_value(x@).len() == x@.len(),
            frames_value(y@).len() == y@.len(),
            forall|j: int| 0 <= j < x@.len() ==> #[trigger] frames_value(x@)[j] == frame_value(x@[j]),
            forall|j: int| 0 <= j < y@.len() ==> #[trigger] frames_value(y@)[j] == frame_value(y@[j]),
            forall|j: int| 0 <= j < i ==> frame_value(#[trigger] x@[j]) == frame_value(y@[j]),
        decreases x@.len() - i,
    {
        if !frame_equal(&x[i], &y[i]) {
            assert(frames_value(x@)[i as int] != frames_value(y@)[i as int]);
            return false;
        }
        i += 1;
    }
    assert(frames_value(x@) =~= frames_value(y@));
    true
}

fn pairs_equal(x: &Vec<(String, RespFrame)>, y: &Vec<(String, RespFrame)>, outer: &RespFrame) -> (r:
    bool)
    requires
        decreases_to!(*outer => *x),
    ensures
        r == (pairs_value(x@) == pairs_value(y@)),
    decreases outer, 0nat,
{
    proof {
        lemma_pairs_value(x@);
        lemma_pairs_value(y@);
    }
    if x.len() != y.len() {
        return false;
    }
    let mut i: usize = 0;
    while i < x.len()
        invariant
            x@.len() == y@.len(),
            i <= x@.len(),
            decreases_to!(*outer => *x),
            pairs_value(x@).len() == x@.len(),
            pairs_value(y@).len() == y@.len(),
            forall|j: int|
                0 <= j < x@.len() ==> #[trigger] pairs_value(x@)[j] == (x@[j].0@, frame_value(x@[j].1)),
            forall|j: int|
                0 <= j < y@.len() ==> #[trigger] pairs_value(y@)[j] == (y@[j].0@, frame_value(y@[j].1)),
            forall|j: int|
                0 <= j < i ==> (#[trigger] x@[j]).0@ == y@[j].0@ && frame_value(x@[j].1)
                    == frame_value(y@[j].1),
        decreases x@.len() - i,
    {
        if x[i].0 != y[i].0 {
            assert(pairs_value(x@)[i as int] != pairs_value(y@)[i as int]);
            return false;
        }
        if !frame_equal(&x[i].1, &y[i].1) {
            assert(pairs_value(x@)[i as int] != pairs_value(y@)[i as int]);
            return false;
        }
        i += 1;
    }
    assert(pairs_value(x@) =~= pairs_value(y@));
    true
}

/// Whether two frames carry the same value.
pub fn frame_equal(a: &RespFrame, b: &RespFrame) -> (r: bool)
    ensures
        r == (a@ == b@),
    decreases a, 1nat,
{
    match (a, b) {
        (RespFrame::SimpleString(x), RespFrame::SimpleString(y)) => x.0 == y.0,
        (RespFrame::Error(x), RespFrame::Error(y)) => x.0 == y.0,
        (RespFrame::Integer(x), RespFrame::Integer(y)) => *x == *y,
        (RespFrame::BulkString(x), RespFrame::BulkString(y)) => bytes_equal(x.0.as_slice(), y.0.as_slice()),
        (RespFrame::NullBulkString(_), RespFrame::NullBulkString(_)) => true,
        (RespFrame::Array(x), RespFrame::Array(y)) => frames_equal(&x.0, &y.0, a),
        (RespFrame::NullArray(_), RespFrame::NullArray(_)) => true,
        (RespFrame::Null(_), RespFrame::Null(_)) => true,
        (RespFrame::Boolean(x), RespFrame::Boolean(y)) => *x == *y,
        (RespFrame::Double(x), RespFrame::Double(y)) => bytes_equal(x.0.as_slice(), y.0.as_slice()),
        (RespFrame::Mapping(x), RespFrame::Mapping(y)) => pairs_equal(&x.0, &y.0, a),
        (RespFrame::UniqueSet(x), RespFrame::UniqueSet(y)) => frames_equal(&x.0, &y.0, a),
        _ => false,
    }
}

/// Whether key `a` comes before key `b` in the byte order of their UTF-8 text.
pub fn key_less(a: &String, b: &String) -> (r: bool)
    ensures
        r == key_lt(a@, b@),
{
    bytes_less(a.as_str().as_bytes(), b.as_str().as_bytes())
}

impl RespMap {
    pub open spec fn entries(&self) -> Seq<(Seq<char>, Value)> {
        pairs_value(self.0@)
    }

    /// Keys strictly ascending in byte order, so each key once.
    pub open spec fn wf(&self) -> bool {
        keys_ascending(self.entries())
    }

    pub fn new() -> (r: Self)
        ensures
            r.entries() == Seq::<(Seq<char>, Value)>::empty(),
            r.wf(),
    {
        RespMap(Vec::new())
    }

    /// Sets `key` to `value`: in place when the key is there, else as a new
    /// entry before the first greater key.
    pub fn insert(&mut self, key: String, value: RespFrame)
        ensures
            final(self).entries() == dict_put(old(self).entries(), key@, value@),
            old(self).wf() ==> final(self).wf(),
    {
        let ghost m = self.entries();
        let ghost k = key@;
        let ghost v = value@;
        proof {
            if old(self).wf() {
                lemma_dict_put_ascending(m, k, v);
            }
        }
        proof {
            lemma_pairs_value(self.0@);
        }
        let mut i: usize = 0;
        assert(m.subrange(0, 0) + m.subrange(0, m.len() as int) == m);
        while i < self.0.len()
            invariant
                self.0@ == old(self).0@,
                m == pairs_value(self.0@),
                m.len() == self.0@.len(),
                i <= m.len(),
                forall|j: int|
                    0 <= j < self.0@.len() ==> #[trigger] m[j] == (
                        self.0@[j].0@,
                        frame_value(self.0@[j].1),
                    ),
                dict_put(m, k, v) == m.subrange(0, i as int) + dict_put(
                    m.subrange(i as int, m.len() as int),
                    k,
                    v,
                ),
                k == key@,
                v == value@,
                old(self).wf() ==> keys_ascending(dict_put(m, k, v)),
            decreases m.len() - i,
        {
            let ghost rest = m.subrange(i as int, m.len() as int);
            assert(rest[0] == m[i as int]);
            if self.0[i].0 == key {
                self.0.remove(i);
                self.0.insert(i, (key, value));
                proof {
                    lemma_pairs_value(self.0@);
                    assert(pairs_value(self.0@) =~= m.subrange(0, i as int) + rest.update(0, (k, v)));
                }
                return;
            }
            if key_less(&key, &self.0[i].0) {
                self.0.insert(i, (key, value));
                proof {
                    lemma_pairs_value(self.0@);
                    assert(pairs_value(self.0@) =~= m.subrange(0, i as int) + (seq![(k, v)] + rest));
                }
                return;
            }
            assert(rest.drop_first() == m.subrange(i + 1, m.len() as int));
            assert(m.subrange(0, i as int) + (seq![rest[0]] + rest.drop_first()) == m.subrange(
                0,
                i + 1,
            ) + rest.drop_first());
            i += 1;
        }
        self.0.push((key, value));
        proof {
            lemma_pairs_value(self.0@);
            assert(m.subrange(m.len() as int, m.len() as int) == Seq::<(Seq<char>, Value)>::empty());
            assert(m.subrange(0, m.len() as int) == m);
            assert(pairs_value(self.0@) =~= m + seq![(k, v)]);
        }
    }
}

impl RespSet {
    pub open spec fn members(&self) -> Seq<Value> {
        frames_value(self.0@)
    }

    /// Each value once.
    pub open spec fn wf(&self) -> bool {
        self.members().no_duplicates()
    }

    pub fn new() -> (r: Self)
        ensures
            r.members() == Seq::<Value>::empty(),
            r.wf(),
    {
        RespSet(Vec::new())
    }

    /// Adds `value` unless an equal frame is already a member.
    pub fn insert(&mut self, value: RespFrame)
        ensures
            final(self).members() == group_put(old(self).members(), value@),
            old(self).wf() ==> final(self).wf(),
    {
        proof {
            lemma_frames_value(self.0@);
        }
        let mut i: usize = 0;
        while i < self.0.len()
            invariant
                self.0@ == old(self).0@,
                i <= self.0@.len(),
                frames_value(self.0@).len() == self.0@.len(),
                forall|j: int|
                    0 <= j < self.0@.len() ==> #[trigger] frames_value(self.0@)[j] == frame_value(
                        self.0@[j],
                    ),
                forall|j: int| 0 <= j < i ==> frame_value(#[trigger] self.0@[j]) != value@,
            decreases self.0@.len() - i,
        {
            if frame_equal(&self.0[i], &value) {
                assert(frames_value(self.0@)[i as int] == value@);
                return;
            }
            i += 1;
        }
        assert(!frames_value(self.0@).contains(value@));
        let ghost before = frames_value(self.0@);
        self.0.push(value);
        proof {
            lemma_frames_value(self.0@);
            assert(frames_value(self.0@) =~= before.push(value@));
            if before.no_duplicates() {
                lemma_group_put_distinct(before, value@);
            }
        }
    }
}


fn copy_frames(x: &Vec<RespFrame>, outer: &RespFrame) -> (r: Vec<RespFrame>)
    requires
        decreases_to!(*outer => *x),
    ensures
        frames_value(r@) == frames_value(x@),
    decreases outer, 0nat,
{
    let mut out: Vec<RespFrame> = Vec::new();
    let mut i: usize = 0;
    proof {
        lemma_frames_value(x@);
    }
    while i < x.len()
        invariant
            i <= x@.len(),
            out@.len() == i,
            decreases_to!(*outer => *x),
            forall|j: int| 0 <= j < i ==> frame_value(#[trigger] out@[j]) == frame_value(x@[j]),
        decreases x@.len() - i,
    {
        let f = copy_frame(&x[i]);
        out.push(f);
        i += 1;
    }
    proof {
        lemma_frames_value(x@);
        lemma_frames_value(out@);
        assert(frames_value(out@) =~= frames_value(x@));
    }
    out
}

fn copy_pairs(x: &Vec<(String, RespFrame)>, outer: &RespFrame) -> (r: Vec<(String, RespFrame)>)
    requires
        decreases_to!(*outer => *x),
    ensures
        pairs_value(r@) == pairs_value(x@),
    decreases outer, 0nat,
{
    let mut out: Vec<(String, RespFrame)> = Vec::new();
    let mut i: usize = 0;
    while i < x.len()
        invariant
            i <= x@.len(),
            out@.len() == i,
            decreases_to!(*outer => *x),
            forall|j: int|
                0 <= j < i ==> (#[trigger] out@[j]).0@ == x@[j].0@ && frame_value(out@[j].1)
                    == frame_value(x@[j].1),
        decreases x@.len() - i,
    {
        let k = x[i].0.clone();
        let f = copy_frame(&x[i].1);
        out.push((k, f));
        i += 1;
    }
    proof {
        lemma_pairs_value(x@);
        lemma_pairs_value(out@);
        assert(pairs_value(out@) =~= pairs_value(x@));
    }
    out
}

/// A frame that carries the same value as `f`.
pub fn copy_frame(f: &RespFrame) -> (r: RespFrame)
    ensures
        r@ == f@,
    decreases f, 1nat,
{
    match f {
        RespFrame::SimpleString(x) => RespFrame::SimpleString(SimpleString(x.0.clone())),
        RespFrame::Error(x) => RespFrame::Error(SimpleError(x.0.clone())),
        RespFrame::Integer(x) => RespFrame::Integer(*x),
        RespFrame::BulkString(x) => RespFrame::BulkString(
            BulkString(vstd::slice::slice_to_vec(x.0.as_slice())),
        ),
        RespFrame::NullBulkString(_) => RespFrame::NullBulkString(RespNullBulkString),
        RespFrame::Array(x) => RespFrame::Array(RespArray(copy_frames(&x.0, f))),
        RespFrame::NullArray(_) => RespFrame::NullArray(RespNullArray),
        RespFrame::Null(_) => RespFrame::Null(RespNull),
        RespFrame::Boolean(x) => RespFrame::Boolean(*x),
        RespFrame::Double(x) => RespFrame::Double(RespDouble(vstd::slice::slice_to_vec(x.0.as_slice()))),
        RespFrame::Mapping(x) => RespFrame::Mapping(RespMap(copy_pairs(&x.0, f))),
        RespFrame::UniqueSet(x) => RespFrame::UniqueSet(RespSet(copy_frames(&x.0, f))),
    }
}

impl Clone for RespFrame {
    fn clone(&self) -> (r: Self)
        ensures
            r@ == self@,
    {
        copy_frame(self)
    }
}


impl SimpleString {
    pub fn new(s: &str) -> (r: Self)
        ensures
            r.0@ == s@,
    {
        SimpleString(s.to_owned())
    }
}

impl SimpleError {
    pub fn new(s: &str) -> (r: Self)
        ensures
            r.0@ == s@,
    {
        SimpleError(s.to_owned())
    }
}

impl BulkString {
    pub fn new(s: &[u8]) -> (r: Self)
        ensures
            r.0@ == s@,
    {
        BulkString(vstd::slice::slice_to_vec(s))
    }
}

impl RespNull {
    pub fn new() -> (r: Self) {
        RespNull
    }
}

impl RespArray {
    pub fn new(frames: Vec<RespFrame>) -> (r: Self)
        ensures
            r.0@ == frames@,
    {
        RespArray(frames)
    }
}

} // verus!
