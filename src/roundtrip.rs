use vstd::prelude::*;
use vstd::utf8::encode_utf8;

use crate::encode::{crlf, digits_of, int_text, line, wire, wire_all, wire_pairs};
use crate::frame::Value;
use crate::grammar::{
    all_digits, crlf_from, digits_value, dict_of, group_of, int_of, is_digit, is_real_text,
    line_end, literal, lossy_text, null_marker, parse, parse_entries, parse_items,
};
use crate::stream::lemma_parse_extends;

verus! {

broadcast use vstd::seq::group_seq_axioms;

/// No CR/LF pair inside `b`.
pub open spec fn no_crlf(b: Seq<u8>) -> bool {
    forall|i: int| 0 <= i && i + 1 < b.len() ==> !(#[trigger] b[i] == 13 && b[i + 1] == 10)
}

proof fn lemma_digits_of(n: nat)
    ensures
        all_digits(digits_of(n)),
        digits_value(digits_of(n)) == n,
        digits_of(n).len() >= 1,
    decreases n,
{
    if n >= 10 {
        lemma_digits_of(n / 10);
        let d = digits_of(n / 10);
        let e = d.push((48 + n % 10) as u8);
        assert(e.drop_last() == d);
        assert(e == digits_of(n));
        assert(e.last() == (48 + n % 10) as u8);
        assert(((48 + n % 10) as u8) as int == 48 + n % 10);
        assert(digits_value(e) == digits_value(d) * 10 + (n % 10));
        assert(n == (n / 10) * 10 + n % 10);
        assert(digits_value(digits_of(n)) == n);
        assert forall|i: int| 0 <= i < e.len() implies is_digit(#[trigger] e[i]) by {
            if i < d.len() {
                assert(e[i] == d[i]);
            }
        }
    } else {
        assert(digits_of(n).drop_last() == Seq::<u8>::empty());
        assert(digits_value(Seq::<u8>::empty()) == 0);
        assert(digits_of(n).last() == (48 + n) as u8);
        assert(((48 + n) as u8) as int == 48 + n);
        assert(digits_value(digits_of(n)) == n);
    }
}

proof fn lemma_int_text(i: int)
    requires
        i64::MIN <= i <= i64::MAX,
    ensures
        int_of(int_text(i)) == Some(i),
        no_crlf(int_text(i)),
        int_text(i).len() >= 1,
        int_text(i)[0] != 45u8 || i < 0,
        int_text(i)[0] != 43u8,
{
    if i < 0 {
        lemma_digits_of((-i) as nat);
        let t = int_text(i);
        assert(t.subrange(1, t.len() as int) == digits_of((-i) as nat));
        assert forall|j: int| 0 <= j && j + 1 < t.len() implies !(#[trigger] t[j] == 13 && t[j + 1]
            == 10) by {
            assert(is_digit(t.subrange(1, t.len() as int)[j]));
        }
    } else {
        lemma_digits_of(i as nat);
        let t = int_text(i);
        assert(is_digit(t[0]));
        assert forall|j: int| 0 <= j && j + 1 < t.len() implies !(#[trigger] t[j] == 13 && t[j + 1]
            == 10) by {
            assert(is_digit(t[j]));
        }
    }
}

proof fn lemma_line_scan(p: u8, b: Seq<u8>, i: int)
    requires
        no_crlf(b),
        1 <= i <= b.len() + 1,
    ensures
        crlf_from(line(p, b), i) == Some(b.len() as int + 1),
    decreases b.len() + 1 - i,
{
    let l = line(p, b);
    assert(l.len() == b.len() + 3);
    if i == b.len() + 1 {
        assert(l[i] == 13 && l[i + 1] == 10);
    } else {
        assert(l[i] == b[i - 1]);
        if i < b.len() {
            assert(l[i + 1] == b[i]);
        } else {
            assert(l[i + 1] == 13);
        }
        lemma_line_scan(p, b, i + 1);
    }
}

/// The line of a line frame ends where the body ends.
proof fn lemma_line(p: u8, b: Seq<u8>, t: Seq<u8>)
    requires
        no_crlf(b),
    ensures
        line_end(line(p, b) + t, p) == Ok::<int, crate::grammar::Fault>(b.len() as int + 1),
        (line(p, b) + t).subrange(1, b.len() as int + 1) == b,
        (line(p, b) + t).subrange(b.len() as int + 3, (line(p, b) + t).len() as int) == t,
{
    lemma_line_scan(p, b, 1);
    let l = line(p, b);
    crate::stream::lemma_crlf_extends(l, t, 1);
    assert((l + t)[0] == p);
    assert((l + t).subrange(1, b.len() as int + 1) =~= b);
    assert((l + t).subrange(b.len() as int + 3, (l + t).len() as int) =~= t);
}


/// Values that the encoder writes in a form that reads back: texts without
/// CR/LF pairs, doubles in the decimal grammar, counts and integers that fit
/// in 64 bits.
pub open spec fn encodable(v: Value) -> bool
    decreases v,
{
    match v {
        Value::Text(s) => no_crlf(encode_utf8(s)),
        Value::Fault(s) => no_crlf(encode_utf8(s)),
        Value::Int(i) => i64::MIN <= i <= i64::MAX,
        Value::Bulk(b) => b.len() <= i64::MAX,
        Value::Real(t) => is_real_text(t) && no_crlf(t),
        Value::List(items) => items.len() <= i64::MAX && all_encodable(items),
        Value::Group(items) => items.len() <= i64::MAX && all_encodable(items),
        Value::Dict(ps) => ps.len() <= i64::MAX && pairs_encodable(ps),
        _ => true,
    }
}

pub open spec fn all_encodable(s: Seq<Value>) -> bool
    decreases s,
{
    s.len() == 0 || (encodable(s[0]) && all_encodable(s.subrange(1, s.len() as int)))
}

pub open spec fn pairs_encodable(ps: Seq<(Seq<char>, Value)>) -> bool
    decreases ps,
{
    ps.len() == 0 || (no_crlf(encode_utf8(ps[0].0)) && encodable(ps[0].1) && pairs_encodable(
        ps.subrange(1, ps.len() as int),
    ))
}

/// What reading a value's encoding gives back: texts pass through
/// `from_utf8_lossy` of their own UTF-8, maps are key-ordered with the last
/// value of a key kept, sets keep first occurrences; the rest is unchanged.
pub open spec fn canonical(v: Value) -> Value
    decreases v,
{
    match v {
        Value::Text(s) => Value::Text(lossy_text(encode_utf8(s))),
        Value::Fault(s) => Value::Fault(lossy_text(encode_utf8(s))),
        Value::List(items) => Value::List(canon_all(items)),
        Value::Group(items) => Value::Group(group_of(canon_all(items))),
        Value::Dict(ps) => Value::Dict(dict_of(canon_pairs(ps))),
        _ => v,
    }
}

pub open spec fn canon_all(s: Seq<Value>) -> Seq<Value>
    decreases s,
{
    if s.len() == 0 {
        Seq::empty()
    } else {
        seq![canonical(s[0])] + canon_all(s.subrange(1, s.len() as int))
    }
}

pub open spec fn canon_pairs(ps: Seq<(Seq<char>, Value)>) -> Seq<(Seq<char>, Value)>
    decreases ps,
{
    if ps.len() == 0 {
        Seq::empty()
    } else {
        seq![(lossy_text(encode_utf8(ps[0].0)), canonical(ps[0].1))] + canon_pairs(
            ps.subrange(1, ps.len() as int),
        )
    }
}

proof fn lemma_wire_all_front(s: Seq<Value>)
    requires
        s.len() > 0,
    ensures
        wire_all(s) == wire(s[0]) + wire_all(s.subrange(1, s.len() as int)),
    decreases s.len(),
{
    let n = s.len() as int;
    if n == 1 {
        assert(s.subrange(0, 0) == Seq::<Value>::empty());
        assert(s.subrange(1, 1) == Seq::<Value>::empty());
        assert(wire_all(Seq::<Value>::empty()) == Seq::<u8>::empty());
        assert(wire(s[0]) + Seq::<u8>::empty() == wire(s[0]));
    } else {
        let p = s.subrange(0, n - 1);
        lemma_wire_all_front(p);
        assert(p[0] == s[0]);
        assert(p.subrange(1, p.len() as int) == s.subrange(1, n - 1));
        let r = s.subrange(1, n);
        assert(r.subrange(0, r.len() - 1) == s.subrange(1, n - 1));
        assert(r[r.len() - 1] == s[n - 1]);
        assert(wire_all(s) == wire_all(p) + wire(s[n - 1]));
        assert(wire_all(r) == wire_all(s.subrange(1, n - 1)) + wire(s[n - 1]));
        assert(wire(s[0]) + wire_all(s.subrange(1, n - 1)) + wire(s[n - 1]) == wire(s[0]) + (wire_all(
            s.subrange(1, n - 1),
        ) + wire(s[n - 1])));
    }
}

proof fn lemma_wire_pairs_front(s: Seq<(Seq<char>, Value)>)
    requires
        s.len() > 0,
    ensures
        wire_pairs(s) == line(43u8, encode_utf8(s[0].0)) + wire(s[0].1) + wire_pairs(
            s.subrange(1, s.len() as int),
        ),
    decreases s.len(),
{
    let n = s.len() as int;
    let head = line(43u8, encode_utf8(s[0].0)) + wire(s[0].1);
    if n == 1 {
        assert(s.subrange(0, 0) == Seq::<(Seq<char>, Value)>::empty());
        assert(s.subrange(1, 1) == Seq::<(Seq<char>, Value)>::empty());
        assert(wire_pairs(Seq::<(Seq<char>, Value)>::empty()) == Seq::<u8>::empty());
        assert(Seq::<u8>::empty() + line(43u8, encode_utf8(s[0].0)) + wire(s[0].1) == head);
        assert(head + Seq::<u8>::empty() == head);
    } else {
        let p = s.subrange(0, n - 1);
        lemma_wire_pairs_front(p);
        assert(p[0] == s[0]);
        assert(p.subrange(1, p.len() as int) == s.subrange(1, n - 1));
        let r = s.subrange(1, n);
        assert(r.subrange(0, r.len() - 1) == s.subrange(1, n - 1));
        assert(r[r.len() - 1] == s[n - 1]);
        let last = line(43u8, encode_utf8(s[n - 1].0)) + wire(s[n - 1].1);
        let mid = wire_pairs(s.subrange(1, n - 1));
        assert(wire_pairs(s) == wire_pairs(p) + line(43u8, encode_utf8(s[n - 1].0)) + wire(s[n - 1].1));
        assert(wire_pairs(r) == mid + line(43u8, encode_utf8(s[n - 1].0)) + wire(s[n - 1].1));
        assert(head + mid + line(43u8, encode_utf8(s[n - 1].0)) + wire(s[n - 1].1) == head + (mid
            + line(43u8, encode_utf8(s[n - 1].0)) + wire(s[n - 1].1)));
    }
}

proof fn lemma_not_null(s: Seq<u8>, lit: Seq<u8>)
    requires
        s.len() >= 2,
        lit.len() == 5,
        s[1] != lit[1],
    ensures
        null_marker(s, lit) is None,
{
    if s.len() >= 5 {
        assert(s.subrange(0, 5)[1] != lit[1]);
    } else {
        assert(lit.subrange(0, s.len() as int)[1] == lit[1]);
    }
}

proof fn lemma_rt_line(v: Value)
    requires
        encodable(v),
        v is Text || v is Fault || v is Int || v is Real,
    ensures
        parse(wire(v)) == Ok::<(Value, nat), crate::grammar::Fault>((canonical(v), wire(v).len())),
{
    let w = wire(v);
    assert(w + Seq::<u8>::empty() == w);
    match v {
        Value::Text(s) => lemma_line(43u8, encode_utf8(s), Seq::empty()),
        Value::Fault(s) => lemma_line(45u8, encode_utf8(s), Seq::empty()),
        Value::Int(i) => {
            lemma_int_text(i);
            lemma_line(58u8, int_text(i), Seq::empty());
        },
        Value::Real(t) => lemma_line(44u8, t, Seq::empty()),
        _ => {},
    }
}

proof fn lemma_rt_bulk(b: Seq<u8>)
    requires
        b.len() <= i64::MAX,
    ensures
        parse(wire(Value::Bulk(b))) == Ok::<(Value, nat), crate::grammar::Fault>(
            (Value::Bulk(b), wire(Value::Bulk(b)).len()),
        ),
{
    let w = wire(Value::Bulk(b));
    let n = b.len() as int;
    lemma_int_text(n);
    let h = int_text(n);
    lemma_line(36u8, h, b + crlf());
    assert(w == line(36u8, h) + (b + crlf()));
    assert(w[1] == h[0]);
    lemma_not_null(w, seq![36u8, 45, 49, 13, 10]);
    let start = h.len() + 3;
    assert(w.subrange(start as int, start + n) =~= b);
}

proof fn lemma_rt_fixed(v: Value)
    requires
        v is Flag || v is Nil || v is NullBulk || v is NullList,
    ensures
        parse(wire(v)) == Ok::<(Value, nat), crate::grammar::Fault>((canonical(v), wire(v).len())),
{
    let w = wire(v);
    match v {
        Value::Flag(b) => {
            if b {
                assert(w =~= seq![35u8, 116, 13, 10]);
                assert(w.subrange(0, 4) == w);
                assert(parse(w) == literal(w, seq![35u8, 116, 13, 10], Value::Flag(true)));
            } else {
                assert(w =~= seq![35u8, 102, 13, 10]);
                assert(w.subrange(0, 4) == w);
                assert(parse(w) == literal(w, seq![35u8, 102, 13, 10], Value::Flag(false)));
            }
        },
        Value::Nil => {
            assert(w =~= seq![95u8, 13, 10]);
            assert(w.subrange(0, 3) == w);
        },
        Value::NullBulk => {
            assert(w =~= seq![36u8, 45, 49, 13, 10]);
            assert(w.subrange(0, 5) == w);
        },
        Value::NullList => {
            assert(w =~= seq![42u8, 45, 49, 13, 10]);
            assert(w.subrange(0, 5) == w);
        },
        _ => {},
    }
}

proof fn lemma_rt_list(items: Seq<Value>)
    requires
        items.len() <= i64::MAX,
        all_encodable(items),
    ensures
        parse(wire(Value::List(items))) == Ok::<(Value, nat), crate::grammar::Fault>(
            (Value::List(canon_all(items)), wire(Value::List(items)).len()),
        ),
    decreases items, 2nat,
{
    let w = wire(Value::List(items));
    let n = items.len() as int;
    lemma_int_text(n);
    let h = int_text(n);
    lemma_line(42u8, h, wire_all(items));
    assert(w[1] == h[0]);
    lemma_not_null(w, seq![42u8, 45, 49, 13, 10]);
    lemma_items_roundtrip(items);
}

proof fn lemma_rt_group(items: Seq<Value>)
    requires
        items.len() <= i64::MAX,
        all_encodable(items),
    ensures
        parse(wire(Value::Group(items))) == Ok::<(Value, nat), crate::grammar::Fault>(
            (Value::Group(group_of(canon_all(items))), wire(Value::Group(items)).len()),
        ),
    decreases items, 2nat,
{
    let n = items.len() as int;
    lemma_int_text(n);
    lemma_line(126u8, int_text(n), wire_all(items));
    lemma_items_roundtrip(items);
}

proof fn lemma_rt_dict(ps: Seq<(Seq<char>, Value)>)
    requires
        ps.len() <= i64::MAX,
        pairs_encodable(ps),
    ensures
        parse(wire(Value::Dict(ps))) == Ok::<(Value, nat), crate::grammar::Fault>(
            (Value::Dict(dict_of(canon_pairs(ps))), wire(Value::Dict(ps)).len()),
        ),
    decreases ps, 2nat,
{
    let n = ps.len() as int;
    lemma_int_text(n);
    lemma_line(37u8, int_text(n), wire_pairs(ps));
    lemma_pairs_roundtrip(ps);
}

/// Reading back the encoding of an encodable value gives its canonical form
/// and takes exactly the encoding's bytes.
pub proof fn lemma_roundtrip(v: Value)
    requires
        encodable(v),
    ensures
        parse(wire(v)) == Ok::<(Value, nat), crate::grammar::Fault>((canonical(v), wire(v).len())),
    decreases v, 1nat,
{
    match v {
        Value::List(items) => lemma_rt_list(items),
        Value::Group(items) => lemma_rt_group(items),
        Value::Dict(ps) => lemma_rt_dict(ps),
        Value::Bulk(b) => lemma_rt_bulk(b),
        Value::Text(_) | Value::Fault(_) | Value::Int(_) | Value::Real(_) => lemma_rt_line(v),
        _ => lemma_rt_fixed(v),
    }
}

proof fn lemma_items_roundtrip(s: Seq<Value>)
    requires
        all_encodable(s),
    ensures
        parse_items(wire_all(s), s.len()) == Ok::<(Seq<Value>, nat), crate::grammar::Fault>(
            (canon_all(s), wire_all(s).len()),
        ),
    decreases s, 0nat,
{
    if s.len() == 0 {
        assert(wire_all(s) == Seq::<u8>::empty());
    } else {
        let rest = s.subrange(1, s.len() as int);
        lemma_wire_all_front(s);
        lemma_roundtrip(s[0]);
        let w0 = wire(s[0]);
        let wr = wire_all(rest);
        lemma_parse_extends(w0, wr);
        assert((w0 + wr).subrange(w0.len() as int, (w0 + wr).len() as int) =~= wr);
        lemma_items_roundtrip(rest);
    }
}

proof fn lemma_pairs_roundtrip(ps: Seq<(Seq<char>, Value)>)
    requires
        pairs_encodable(ps),
    ensures
        parse_entries(wire_pairs(ps), ps.len()) == Ok::<
            (Seq<(Seq<char>, Value)>, nat),
            crate::grammar::Fault,
        >((canon_pairs(ps), wire_pairs(ps).len())),
    decreases ps, 0nat,
{
    if ps.len() == 0 {
        assert(wire_pairs(ps) == Seq::<u8>::empty());
    } else {
        let rest = ps.subrange(1, ps.len() as int);
        lemma_wire_pairs_front(ps);
        let k = encode_utf8(ps[0].0);
        let w0 = wire(ps[0].1);
        let wr = wire_pairs(rest);
        lemma_line(43u8, k, w0 + wr);
        assert(wire_pairs(ps) == line(43u8, k) + (w0 + wr));
        lemma_roundtrip(ps[0].1);
        lemma_parse_extends(w0, wr);
        assert((w0 + wr).subrange(w0.len() as int, (w0 + wr).len() as int) =~= wr);
        lemma_pairs_roundtrip(rest);
    }
}

/// Encoding then decoding gives the frame back, up to canonical form (see
/// `canonical`), and the decoder takes exactly the encoded bytes, whatever
/// follows them.
pub proof fn decode_encode_roundtrip(v: Value, rest: Seq<u8>)
    requires
        encodable(v),
    ensures
        parse(wire(v) + rest) == Ok::<(Value, nat), crate::grammar::Fault>(
            (canonical(v), wire(v).len()),
        ),
{
    lemma_roundtrip(v);
    lemma_parse_extends(wire(v), rest);
}

} // verus!
