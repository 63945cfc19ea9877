use vstd::prelude::*;

use crate::frame::Value;
use crate::grammar::{
    crlf_from, header, line_end, literal, null_array_lit, null_bulk_lit, null_marker, parse,
    parse_entries, parse_items, Fault,
};

verus! {

broadcast use vstd::seq::group_seq_axioms;

pub(crate) proof fn lemma_crlf_extends(s: Seq<u8>, t: Seq<u8>, i: int)
    requires
        crlf_from(s, i) is Some,
    ensures
        crlf_from(s + t, i) == crlf_from(s, i),
        i <= crlf_from(s, i)->Some_0,
        crlf_from(s, i)->Some_0 + 1 < s.len(),
    decreases s.len() - i,
{
    let u = s + t;
    if i < 0 || i + 1 >= s.len() {
    } else {
        assert(u[i] == s[i] && u[i + 1] == s[i + 1]);
        if !(s[i] == 13 && s[i + 1] == 10) {
            lemma_crlf_extends(s, t, i + 1);
        }
    }
}

proof fn lemma_line_end_extends(s: Seq<u8>, t: Seq<u8>, p: u8)
    requires
        line_end(s, p) is Ok,
    ensures
        line_end(s + t, p) == line_end(s, p),
        1 <= line_end(s, p)->Ok_0,
        line_end(s, p)->Ok_0 + 2 <= s.len(),
{
    lemma_crlf_extends(s, t, 1);
    assert((s + t)[0] == s[0]);
}

proof fn lemma_subrange_extends(s: Seq<u8>, t: Seq<u8>, a: int, b: int)
    requires
        0 <= a <= b <= s.len(),
    ensures
        (s + t).subrange(a, b) == s.subrange(a, b),
{
    assert((s + t).subrange(a, b) =~= s.subrange(a, b));
}

proof fn lemma_tail_extends(s: Seq<u8>, t: Seq<u8>, a: int)
    requires
        0 <= a <= s.len(),
    ensures
        (s + t).subrange(a, (s + t).len() as int) == s.subrange(a, s.len() as int) + t,
{
    assert((s + t).subrange(a, (s + t).len() as int) =~= s.subrange(a, s.len() as int) + t);
}

proof fn lemma_literal_extends(s: Seq<u8>, t: Seq<u8>, lit: Seq<u8>, v: Value)
    requires
        literal(s, lit, v) is Ok,
    ensures
        literal(s + t, lit, v) == literal(s, lit, v),
{
    lemma_subrange_extends(s, t, 0, lit.len() as int);
}

proof fn lemma_null_marker_extends(s: Seq<u8>, t: Seq<u8>, lit: Seq<u8>)
    requires
        null_marker(s, lit) != Some(false),
    ensures
        null_marker(s + t, lit) == null_marker(s, lit),
{
    let u = s + t;
    if s.len() >= lit.len() {
        lemma_subrange_extends(s, t, 0, lit.len() as int);
    } else {
        assert(exists|j: int| 0 <= j < s.len() && s[j] != lit[j]) by {
            if forall|j: int| 0 <= j < s.len() ==> s[j] == lit[j] {
                assert(s =~= lit.subrange(0, s.len() as int));
            }
        }
        let j = choose|j: int| 0 <= j < s.len() && s[j] != lit[j];
        assert(u[j] == s[j]);
        if u.len() >= lit.len() {
            assert(u.subrange(0, lit.len() as int)[j] != lit[j]);
        } else {
            assert(u.subrange(0, u.len() as int) == u);
            assert(lit.subrange(0, u.len() as int)[j] == lit[j]);
        }
    }
}

proof fn lemma_header_extends(s: Seq<u8>, t: Seq<u8>, p: u8)
    requires
        header(s, p) is Ok,
    ensures
        header(s + t, p) == header(s, p),
        3 <= header(s, p)->Ok_0.1 <= s.len(),
{
    lemma_line_end_extends(s, t, p);
    let e = line_end(s, p)->Ok_0;
    lemma_subrange_extends(s, t, 1, e);
}

/// A frame at the front of a buffer parses the same, and takes the same
/// bytes, whatever bytes follow it.
pub proof fn lemma_parse_extends(s: Seq<u8>, t: Seq<u8>)
    requires
        parse(s) is Ok,
    ensures
        parse(s + t) == parse(s),
        parse(s)->Ok_0.1 <= s.len(),
    decreases s.len(), 0nat,
{
    let u = s + t;
    assert(u[0] == s[0]);
    let c = s[0];
    if c == 43 || c == 45 || c == 58 || c == 44 {
        lemma_line_end_extends(s, t, c);
        let e = line_end(s, c)->Ok_0;
        lemma_subrange_extends(s, t, 1, e);
    } else if c == 35 {
        assert(s.len() >= 2);
        assert(u[1] == s[1]);
        if s[1] == 102 {
            lemma_literal_extends(s, t, seq![35u8, 102, 13, 10], Value::Flag(false));
        } else {
            lemma_literal_extends(s, t, seq![35u8, 116, 13, 10], Value::Flag(true));
        }
    } else if c == 95 {
        lemma_literal_extends(s, t, seq![95u8, 13, 10], Value::Nil);
    } else if c == 36 {
        lemma_null_marker_extends(s, t, seq![36u8, 45, 49, 13, 10]);
        if null_marker(s, seq![36u8, 45, 49, 13, 10]) is None {
            lemma_header_extends(s, t, c);
            let (n, start) = header(s, c)->Ok_0;
            assert(s.len() - start >= n + 2);
            lemma_subrange_extends(s, t, start, start + n);
        }
    } else if c == 42 || c == 126 {
        if c == 42 {
            lemma_null_marker_extends(s, t, seq![42u8, 45, 49, 13, 10]);
        }
        if !(c == 42 && null_marker(s, seq![42u8, 45, 49, 13, 10]) is Some) {
            lemma_header_extends(s, t, c);
            let (n, start) = header(s, c)->Ok_0;
            let rest = s.subrange(start, s.len() as int);
            lemma_tail_extends(s, t, start);
            lemma_items_extend(rest, t, n);
        }
    } else if c == 37 {
        lemma_header_extends(s, t, c);
        let (n, start) = header(s, c)->Ok_0;
        let rest = s.subrange(start, s.len() as int);
        lemma_tail_extends(s, t, start);
        lemma_entries_extend(rest, t, n);
    }
}

pub proof fn lemma_items_extend(s: Seq<u8>, t: Seq<u8>, n: nat)
    requires
        parse_items(s, n) is Ok,
    ensures
        parse_items(s + t, n) == parse_items(s, n),
        parse_items(s, n)->Ok_0.1 <= s.len(),
    decreases s.len(), n,
{
    if n > 0 {
        lemma_parse_extends(s, t);
        let k = parse(s)->Ok_0.1;
        let rest = s.subrange(k as int, s.len() as int);
        lemma_tail_extends(s, t, k as int);
        lemma_items_extend(rest, t, (n - 1) as nat);
    }
}

pub proof fn lemma_entries_extend(s: Seq<u8>, t: Seq<u8>, n: nat)
    requires
        parse_entries(s, n) is Ok,
    ensures
        parse_entries(s + t, n) == parse_entries(s, n),
        parse_entries(s, n)->Ok_0.1 <= s.len(),
    decreases s.len(), n,
{
    if n > 0 {
        lemma_line_end_extends(s, t, 43u8);
        let e = line_end(s, 43u8)->Ok_0;
        lemma_subrange_extends(s, t, 1, e);
        let rest = s.subrange(e + 2, s.len() as int);
        lemma_tail_extends(s, t, e + 2);
        lemma_parse_extends(rest, t);
        let k = parse(rest)->Ok_0.1;
        let rest2 = rest.subrange(k as int, rest.len() as int);
        lemma_tail_extends(rest, t, k as int);
        lemma_entries_extend(rest2, t, (n - 1) as nat);
    }
}

proof fn lemma_line_end_prefix(s: Seq<u8>, t: Seq<u8>, p: u8)
    requires
        line_end(s + t, p) is Ok,
    ensures
        line_end(s, p) is Ok ==> line_end(s, p) == line_end(s + t, p),
        line_end(s, p) is Ok || line_end(s, p) matches Err(Fault::Incomplete),
{
    if s.len() >= 3 {
        assert((s + t)[0] == s[0]);
        if crlf_from(s, 1) is Some {
            lemma_crlf_extends(s, t, 1);
        }
    }
}

proof fn lemma_header_prefix(s: Seq<u8>, t: Seq<u8>, p: u8)
    requires
        header(s + t, p) is Ok,
    ensures
        header(s, p) is Ok ==> header(s, p) == header(s + t, p),
        header(s, p) is Ok || header(s, p) matches Err(Fault::Incomplete),
{
    lemma_line_end_prefix(s, t, p);
    if line_end(s, p) is Ok {
        lemma_line_end_extends(s, t, p);
        lemma_subrange_extends(s, t, 1, line_end(s, p)->Ok_0);
    }
}

/// A strict prefix of a buffer that starts with a frame is never fatal: it
/// gives that frame too, or `NotComplete`.
pub proof fn lemma_parse_prefix(s: Seq<u8>, t: Seq<u8>)
    requires
        parse(s + t) is Ok,
    ensures
        parse(s) is Ok || parse(s) matches Err(Fault::Incomplete),
    decreases s.len(), 0nat,
{
    let u = s + t;
    if s.len() == 0 {
        return;
    }
    assert(u[0] == s[0]);
    let c = s[0];
    if c == 43 || c == 45 || c == 58 || c == 44 {
        lemma_line_end_prefix(s, t, c);
        if line_end(s, c) is Ok {
            lemma_line_end_extends(s, t, c);
            lemma_subrange_extends(s, t, 1, line_end(s, c)->Ok_0);
        }
    } else if c == 35 || c == 95 {
        if c == 35 && s.len() >= 2 {
            assert(u[1] == s[1]);
        }
        let n: int = if c == 35 { 4 } else { 3 };
        if s.len() >= n {
            lemma_subrange_extends(s, t, 0, n);
        }
    } else if c == 36 || c == 42 || c == 126 || c == 37 {
        let lit = if c == 36 { null_bulk_lit() } else { null_array_lit() };
        if (c == 36 || c == 42) && null_marker(s, lit) != Some(false) {
            lemma_null_marker_extends(s, t, lit);
        }
        if !((c == 36 || c == 42) && null_marker(s, lit) is Some) {
            lemma_header_prefix(s, t, c);
            if header(s, c) is Ok {
                lemma_header_extends(s, t, c);
                let (n, start) = header(s, c)->Ok_0;
                let rest = s.subrange(start, s.len() as int);
                lemma_tail_extends(s, t, start);
                if c == 42 || c == 126 {
                    lemma_items_prefix(rest, t, n);
                } else if c == 37 {
                    lemma_entries_prefix(rest, t, n);
                }
            }
        }
    }
}

proof fn lemma_items_prefix(s: Seq<u8>, t: Seq<u8>, n: nat)
    requires
        parse_items(s + t, n) is Ok,
    ensures
        parse_items(s, n) is Ok || parse_items(s, n) matches Err(Fault::Incomplete),
    decreases s.len(), n,
{
    if n > 0 {
        lemma_parse_prefix(s, t);
        if parse(s) is Ok {
            lemma_parse_extends(s, t);
            let k = parse(s)->Ok_0.1;
            lemma_tail_extends(s, t, k as int);
            lemma_items_prefix(s.subrange(k as int, s.len() as int), t, (n - 1) as nat);
        }
    }
}

proof fn lemma_entries_prefix(s: Seq<u8>, t: Seq<u8>, n: nat)
    requires
        parse_entries(s + t, n) is Ok,
    ensures
        parse_entries(s, n) is Ok || parse_entries(s, n) matches Err(Fault::Incomplete),
    decreases s.len(), n,
{
    if n > 0 {
        lemma_line_end_prefix(s, t, 43u8);
        if line_end(s, 43u8) is Ok {
            lemma_line_end_extends(s, t, 43u8);
            let e = line_end(s, 43u8)->Ok_0;
            lemma_subrange_extends(s, t, 1, e);
            let rest = s.subrange(e + 2, s.len() as int);
            lemma_tail_extends(s, t, e + 2);
            lemma_parse_prefix(rest, t);
            if parse(rest) is Ok {
                lemma_parse_extends(rest, t);
                let k = parse(rest)->Ok_0.1;
                lemma_tail_extends(rest, t, k as int);
                lemma_entries_prefix(rest.subrange(k as int, rest.len() as int), t, (n - 1) as nat);
            }
        }
    }
}

/// Decoding is incremental: for a stream split into `b1` and `b2`, a frame
/// decoded from `b1` alone is a prefix of `b1`, and it is the same frame,
/// taking the same bytes, that decoding `b1 + b2` gives. When `b1 + b2`
/// starts with a frame, `b1` alone never gives a fatal error: it gives that
/// frame or `NotComplete`, and then nothing is taken.
pub proof fn decode_is_incremental(b1: Seq<u8>, b2: Seq<u8>)
    ensures
        parse(b1) matches Ok((v, n)) ==> n <= b1.len() && parse(b1 + b2) == parse(b1),
        parse(b1 + b2) is Ok ==> (parse(b1) is Ok || parse(b1) matches Err(Fault::Incomplete)),
{
    if parse(b1) is Ok {
        lemma_parse_extends(b1, b2);
    }
    if parse(b1 + b2) is Ok {
        lemma_parse_prefix(b1, b2);
    }
}

} // verus!
