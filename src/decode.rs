use bytes::BytesMut;
use vstd::prelude::*;

use crate::buffer::{advance, buffered, held};
use crate::error::{reports, RespError};
use crate::frame::{
    frame_value, frames_value, BulkString, RespArray, RespDouble, RespFrame, RespMap, RespNull,
    RespNullArray, RespNullBulkString, RespSet, SimpleError, SimpleString, Value,
};
use crate::grammar::{
    all_digits, ascii_lower, crlf_from, decimal_of, dict_of, digits_end, digits_value, group_of, header,
    int_of, is_decimal, is_digit, is_exponent, is_real_text, line_end, literal, lossy, lower_eq,
    null_marker, parse, parse_entries, parse_items, Fault, Parsed,
};

verus! {

broadcast use vstd::seq::group_seq_axioms;

/// Index of the first CR/LF pair at or after `from`.
pub fn find_crlf(buf: &[u8], from: usize) -> (r: Option<usize>)
    ensures
        match crlf_from(buf@, from as int) {
            Some(e) => r matches Some(x) && x as int == e && from <= e && e + 1 < buf@.len(),
            None => r is None,
        },
{
    let mut i = from;
    while i < buf.len() && i + 1 < buf.len()
        invariant
            from <= i,
            crlf_from(buf@, i as int) == crlf_from(buf@, from as int),
        decreases buf@.len() - i,
    {
        if buf[i] == 13u8 && buf[i + 1] == 10u8 {
            return Some(i);
        }
        i += 1;
    }
    None
}

/// Where the line of a line frame with `prefix` ends: the index of its CR.
pub fn extract_simple_frame_data(buf: &[u8], prefix: u8) -> (r: Result<usize, RespError>)
    ensures
        match line_end(buf@, prefix) {
            Ok(e) => r matches Ok(x) && x as int == e && 1 <= e && e + 1 < buf@.len(),
            Err(f) => r matches Err(x) && reports(x, f),
        },
{
    if buf.len() < 3 {
        return Err(RespError::NotComplete);
    }
    if buf[0] != prefix {
        return Err(RespError::InvalidFrameType("unexpected frame type".to_owned()));
    }
    match find_crlf(buf, 1) {
        Some(e) => Ok(e),
        None => Err(RespError::NotComplete),
    }
}

proof fn lemma_digits_step(t: Seq<u8>, start: int, i: int)
    requires
        0 <= start <= i < t.len(),
    ensures
        digits_value(t.subrange(start, i + 1)) == digits_value(t.subrange(start, i)) * 10 + (t[i]
            - 48) as nat,
{
    let u = t.subrange(start, i + 1);
    assert(u.drop_last() == t.subrange(start, i));
}

proof fn lemma_digits_prefix_le(b: Seq<u8>, j: int)
    requires
        all_digits(b),
        0 <= j <= b.len(),
    ensures
        digits_value(b.subrange(0, j)) <= digits_value(b),
    decreases b.len() - j,
{
    if j == b.len() {
        assert(b.subrange(0, j) == b);
    } else {
        lemma_digits_prefix_le(b, j + 1);
        lemma_digits_step(b, 0, j);
    }
}

/// A signed 64-bit decimal, as `str::parse::<i64>` reads one.
pub fn parse_int(t: &[u8]) -> (r: Option<i64>)
    ensures
        match int_of(t@) {
            Some(v) => r == Some(v as i64),
            None => r is None,
        },
{
    let n = t.len();
    if n == 0 {
        return None;
    }
    let neg = t[0] == 45u8;
    let start: usize = if t[0] == 45u8 || t[0] == 43u8 {
        1
    } else {
        0
    };
    let ghost body = t@.subrange(start as int, n as int);
    assert(start == 0 ==> body == t@);
    if start == n {
        assert(body.len() == 0);
        return None;
    }
    let limit: u64 = if neg {
        9223372036854775808u64
    } else {
        9223372036854775807u64
    };
    let mut acc: u64 = 0;
    let mut i: usize = start;
    assert(t@.subrange(start as int, start as int).len() == 0);
    while i < n
        invariant
            n == t@.len(),
            start <= i <= n,
            body == t@.subrange(start as int, n as int),
            acc as nat == digits_value(t@.subrange(start as int, i as int)),
            acc <= limit,
            limit >= 9,
            neg == (t@[0] == 45),
            limit == (if neg { 9223372036854775808u64 } else { 9223372036854775807u64 }),
            t@.len() > 0,
            body == (if t@[0] == 45 || t@[0] == 43 { t@.subrange(1, t@.len() as int) } else { t@ }),
            forall|j: int| start <= j < i ==> is_digit(#[trigger] t@[j]),
        decreases n - i,
    {
        let c = t[i];
        if c < 48u8 || c > 57u8 {
            assert(!is_digit(body[i - start]));
            return None;
        }
        let d = (c - 48u8) as u64;
        assert(d <= 9);
        proof {
            lemma_digits_step(t@, start as int, i as int);
        }
        if acc > (limit - d) / 10 {
            assert(acc * 10 + d > limit) by (nonlinear_arith)
                requires
                    acc > (limit - d) / 10,
                    d <= 9,
                    limit >= 9,
            ;
            proof {
                if all_digits(body) {
                    assert(body.subrange(0, i + 1 - start) == t@.subrange(start as int, i + 1));
                    lemma_digits_prefix_le(body, i + 1 - start);
                }
            }
            return None;
        }
        assert(acc * 10 + d <= limit) by (nonlinear_arith)
            requires
                acc <= (limit - d) / 10,
                d <= 9,
                limit >= 9,
        ;
        acc = acc * 10 + d;
        i += 1;
    }
    assert(t@.subrange(start as int, i as int) == body);
    assert(all_digits(body)) by {
        assert forall|j: int| 0 <= j < body.len() implies is_digit(#[trigger] body[j]) by {
            assert(body[j] == t@[j + start]);
        }
    }
    if neg {
        if acc == 9223372036854775808u64 {
            Some(i64::MIN)
        } else {
            Some(-(acc as i64))
        }
    } else {
        Some(acc as i64)
    }
}

/// Whether `t` is a decimal of any size: an optional sign, then digits.
fn is_decimal_text(t: &[u8]) -> (r: bool)
    ensures
        r == (decimal_of(t@) is Some),
{
    if t.len() == 0 {
        return false;
    }
    let start: usize = if t[0] == 45u8 || t[0] == 43u8 {
        1
    } else {
        0
    };
    let ghost body = t@.subrange(start as int, t@.len() as int);
    assert(start == 0 ==> body == t@);
    if start == t.len() {
        return false;
    }
    let mut i: usize = start;
    while i < t.len()
        invariant
            start <= i <= t@.len(),
            body == t@.subrange(start as int, t@.len() as int),
            t@.len() > 0,
            body == (if t@[0] == 45 || t@[0] == 43 { t@.subrange(1, t@.len() as int) } else { t@ }),
            forall|j: int| start <= j < i ==> is_digit(#[trigger] t@[j]),
        decreases t@.len() - i,
    {
        if t[i] < 48u8 || t[i] > 57u8 {
            assert(!is_digit(body[i - start]));
            return false;
        }
        i += 1;
    }
    assert(all_digits(body)) by {
        assert forall|j: int| 0 <= j < body.len() implies is_digit(#[trigger] body[j]) by {
            assert(body[j] == t@[j + start]);
        }
    }
    true
}

/// Index of the first non-digit at or after `from` (or the end).
fn skip_digits(t: &[u8], from: usize) -> (r: usize)
    requires
        from <= t@.len(),
    ensures
        r as int == digits_end(t@, from as int),
        from <= r <= t@.len(),
{
    let mut i = from;
    while i < t.len() && 48u8 <= t[i] && t[i] <= 57u8
        invariant
            from <= i <= t@.len(),
            digits_end(t@, i as int) == digits_end(t@, from as int),
        decreases t@.len() - i,
    {
        i += 1;
    }
    i
}

fn exponent_ok(t: &[u8], i: usize) -> (r: bool)
    requires
        i <= t@.len(),
    ensures
        r == is_exponent(t@, i as int),
{
    if i == t.len() {
        return true;
    }
    if t[i] != 101u8 && t[i] != 69u8 {
        return false;
    }
    let j = if i + 1 < t.len() && (t[i + 1] == 43u8 || t[i + 1] == 45u8) {
        i + 2
    } else {
        i + 1
    };
    j < t.len() && skip_digits(t, j) == t.len()
}

pub(crate) fn lower_matches(t: &[u8], word: &[u8]) -> (r: bool)
    ensures
        r == lower_eq(t@, word@),
{
    if t.len() != word.len() {
        return false;
    }
    let mut i: usize = 0;
    while i < t.len()
        invariant
            t@.len() == word@.len(),
            i <= t@.len(),
            forall|j: int| 0 <= j < i ==> ascii_lower(#[trigger] t@[j]) == word@[j],
        decreases t@.len() - i,
    {
        let c = t[i];
        let l = if 65u8 <= c && c <= 90u8 {
            c + 32
        } else {
            c
        };
        if l != word[i] {
            return false;
        }
        i += 1;
    }
    true
}

/// Whether `t` is a double in the grammar of `str::parse::<f64>`.
pub fn is_real(t: &[u8]) -> (r: bool)
    ensures
        r == is_real_text(t@),
{
    let start: usize = if t.len() > 0 && (t[0] == 43u8 || t[0] == 45u8) {
        1
    } else {
        0
    };
    let body = &t[start..t.len()];
    let d = skip_digits(body, 0);
    let decimal = if d < body.len() && body[d] == 46u8 {
        let f = skip_digits(body, d + 1);
        f > 1 && exponent_ok(body, f)
    } else {
        d > 0 && exponent_ok(body, d)
    };
    assert(decimal == is_decimal(body@));
    if decimal {
        return true;
    }
    let inf = vec![105u8, 110, 102];
    let infinity = vec![105u8, 110, 102, 105, 110, 105, 116, 121];
    let nan = vec![110u8, 97, 110];
    lower_matches(body, inf.as_slice()) || lower_matches(body, infinity.as_slice()) || lower_matches(
        body,
        nan.as_slice(),
    )
}


impl RespDouble {
    /// A double from its decimal text, when the text is in the grammar.
    pub fn from_text(t: &[u8]) -> (r: Option<RespDouble>)
        ensures
            r is Some == is_real_text(t@),
            r matches Some(d) ==> d.0@ == t@,
    {
        if is_real(t) {
            Some(RespDouble(vstd::slice::slice_to_vec(t)))
        } else {
            None
        }
    }
}

/// Whether a decoder's result is the parse `p`.
pub open spec fn decoded_as(r: Result<(RespFrame, usize), RespError>, p: Parsed) -> bool {
    match p {
        Ok((v, n)) => r matches Ok((f, k)) && f@ == v && k == n,
        Err(flt) => r matches Err(e) && reports(e, flt),
    }
}

/// Whether `s` starts with `lit`.
fn starts_with(s: &[u8], lit: &[u8]) -> (r: bool)
    ensures
        r == (s@.len() >= lit@.len() && s@.subrange(0, lit@.len() as int) == lit@),
{
    if s.len() < lit.len() {
        return false;
    }
    let mut i: usize = 0;
    while i < lit.len()
        invariant
            s@.len() >= lit@.len(),
            i <= lit@.len(),
            forall|j: int| 0 <= j < i ==> s@[j] == lit@[j],
        decreases lit@.len() - i,
    {
        if s[i] != lit[i] {
            assert(s@.subrange(0, lit@.len() as int)[i as int] != lit@[i as int]);
            return false;
        }
        i += 1;
    }
    assert(s@.subrange(0, lit@.len() as int) =~= lit@);
    true
}

/// Whether `s` is a strict prefix of `lit`.
fn is_strict_prefix(s: &[u8], lit: &[u8]) -> (r: bool)
    ensures
        r == (s@.len() < lit@.len() && s@ == lit@.subrange(0, s@.len() as int)),
{
    if s.len() >= lit.len() {
        return false;
    }
    let mut i: usize = 0;
    while i < s.len()
        invariant
            s@.len() < lit@.len(),
            i <= s@.len(),
            forall|j: int| 0 <= j < i ==> s@[j] == lit@[j],
        decreases s@.len() - i,
    {
        if s[i] != lit[i] {
            assert(lit@.subrange(0, s@.len() as int)[i as int] != s@[i as int]);
            return false;
        }
        i += 1;
    }
    assert(s@ =~= lit@.subrange(0, s@.len() as int));
    true
}

fn null_state(s: &[u8], lit: &[u8]) -> (r: Option<bool>)
    ensures
        r == null_marker(s@, lit@),
{
    if starts_with(s, lit) {
        Some(true)
    } else if is_strict_prefix(s, lit) {
        Some(false)
    } else {
        None
    }
}

/// A fixed literal at the start of `s`: `Some(n)` bytes matched, `None` for
/// a strict prefix of it, or an error for another byte.
fn fixed(s: &[u8], lit: &[u8]) -> (r: Result<usize, RespError>)
    ensures
        match literal(s@, lit@, Value::Nil) {
            Ok((_, n)) => r == Ok::<usize, RespError>(n as usize),
            Err(f) => r matches Err(e) && reports(e, f),
        },
{
    if s.len() < lit.len() {
        Err(RespError::NotComplete)
    } else if starts_with(s, lit) {
        Ok(lit.len())
    } else {
        Err(RespError::InvalidFrameType("unexpected literal".to_owned()))
    }
}

/// The header of a length-prefixed frame: where its line ends, and the count.
pub fn parse_length(buf: &[u8], prefix: u8) -> (r: Result<(usize, u64), RespError>)
    ensures
        match header(buf@, prefix) {
            Ok((n, start)) => r matches Ok((e, len)) && e + 2 == start && len == n && 1 <= e && e
                + 2 <= buf@.len() && n <= i64::MAX,
            Err(f) => r matches Err(x) && reports(x, f),
        },
{
    let e = match extract_simple_frame_data(buf, prefix) {
        Ok(e) => e,
        Err(x) => return Err(x),
    };
    let text = &buf[1..e];
    match parse_int(text) {
        Some(n) => if n < 0 {
            Err(RespError::InvalidFrameLength(n))
        } else {
            Ok((e, n as u64))
        },
        None => if is_decimal_text(text) {
            Err(RespError::InvalidFrameLength(if text[0] == 45u8 { i64::MIN } else { i64::MAX }))
        } else {
            Err(RespError::ParseIntError)
        },
    }
}

spec fn join_items(vs: Seq<Value>, p: int, r: Result<(Seq<Value>, nat), Fault>) -> Result<(Seq<Value>, nat), Fault> {
    match r {
        Ok((ws, m)) => Ok((vs + ws, (p + m) as nat)),
        Err(f) => Err(f),
    }
}

spec fn join_entries(
    es: Seq<(Seq<char>, Value)>,
    p: int,
    r: Result<(Seq<(Seq<char>, Value)>, nat), Fault>,
) -> Result<(Seq<(Seq<char>, Value)>, nat), Fault> {
    match r {
        Ok((ws, m)) => Ok((es + ws, (p + m) as nat)),
        Err(f) => Err(f),
    }
}

pub(crate) proof fn lemma_frames_push(s: Seq<RespFrame>, f: RespFrame)
    ensures
        frames_value(s.push(f)) == frames_value(s).push(frame_value(f)),
{
    assert(s.push(f).subrange(0, s.len() as int) == s);
}

/// The total length of a container frame whose header line ends at `end`
/// and which holds `len` frames (`*`, `~`) or `len` entries (`%`).
pub fn calc_total_length(buf: &[u8], len: u64, end: usize, prefix: u8) -> (r: Result<usize, RespError>)
    requires
        1 <= end,
        end + 2 <= buf@.len(),
    ensures
        prefix == 37 ==> match parse_entries(buf@.subrange(end + 2, buf@.len() as int), len as nat) {
            Ok((_, k)) => r == Ok::<usize, RespError>((end + 2 + k) as usize),
            Err(f) => r matches Err(e) && reports(e, f),
        },
        prefix != 37 ==> match parse_items(buf@.subrange(end + 2, buf@.len() as int), len as nat) {
            Ok((_, k)) => r == Ok::<usize, RespError>((end + 2 + k) as usize),
            Err(f) => r matches Err(e) && reports(e, f),
        },
{
    let l = buf.len();
    let rest = &buf[end + 2..l];
    if prefix == 37u8 {
        match decode_entries(rest, len) {
            Ok((_, k)) => Ok(end + 2 + k),
            Err(e) => Err(e),
        }
    } else {
        match decode_items(rest, len) {
            Ok((_, k)) => Ok(end + 2 + k),
            Err(e) => Err(e),
        }
    }
}

fn decode_items(buf: &[u8], n: u64) -> (r: Result<(Vec<RespFrame>, usize), RespError>)
    ensures
        match parse_items(buf@, n as nat) {
            Ok((vs, k)) => r matches Ok((out, m)) && frames_value(out@) == vs && m == k && k <= buf@.len(),
            Err(f) => r matches Err(e) && reports(e, f),
        },
    decreases buf@.len(), 1nat,
{
    let mut out: Vec<RespFrame> = Vec::new();
    let mut pos: usize = 0;
    let mut i: u64 = 0;
    assert(buf@.subrange(0, buf@.len() as int) == buf@);
    assert(frames_value(out@) =~= Seq::<Value>::empty());
    while i < n
        invariant
            pos <= buf@.len(),
            i <= n,
            parse_items(buf@, n as nat) == join_items(
                frames_value(out@),
                pos as int,
                parse_items(buf@.subrange(pos as int, buf@.len() as int), (n - i) as nat),
            ),
        decreases n - i,
    {
        let rest = &buf[pos..buf.len()];
        match decode_slice(rest) {
            Ok((f, k)) => {
                if k > rest.len() {
                    return Err(RespError::InvalidFrameType("frame overruns buffer".to_owned()));
                }
                proof {
                    let tail = rest@.subrange(k as int, rest@.len() as int);
                    assert(tail == buf@.subrange(pos + k, buf@.len() as int));
                    lemma_frames_push(out@, f);
                    let pv = frames_value(out@);
                    match parse_items(tail, (n - i - 1) as nat) {
                        Ok((ws, m)) => {
                            assert(pv + (seq![f@] + ws) == pv.push(f@) + ws);
                        },
                        Err(_) => {},
                    }
                }
                out.push(f);
                pos = pos + k;
                i = i + 1;
            },
            Err(e) => {
                return Err(e);
            },
        }
    }
    assert(frames_value(out@) + Seq::<Value>::empty() == frames_value(out@));
    Ok((out, pos))
}

fn decode_entries(buf: &[u8], n: u64) -> (r: Result<(RespMap, usize), RespError>)
    ensures
        match parse_entries(buf@, n as nat) {
            Ok((raw, k)) => r matches Ok((m, c)) && m.entries() == dict_of(raw) && c == k && k <= buf@.len(),
            Err(f) => r matches Err(e) && reports(e, f),
        },
    decreases buf@.len(), 1nat,
{
    let mut map = RespMap::new();
    let mut pos: usize = 0;
    let mut i: u64 = 0;
    let ghost mut raw: Seq<(Seq<char>, Value)> = Seq::empty();
    assert(buf@.subrange(0, buf@.len() as int) == buf@);
    while i < n
        invariant
            pos <= buf@.len(),
            i <= n,
            map.entries() == dict_of(raw),
            parse_entries(buf@, n as nat) == join_entries(
                raw,
                pos as int,
                parse_entries(buf@.subrange(pos as int, buf@.len() as int), (n - i) as nat),
            ),
        decreases n - i,
    {
        let cur = &buf[pos..buf.len()];
        let e = match extract_simple_frame_data(cur, 43u8) {
            Ok(e) => e,
            Err(x) => return Err(x),
        };
        let key = lossy(&cur[1..e]);
        let rest = &cur[e + 2..cur.len()];
        match decode_slice(rest) {
            Ok((f, k)) => {
                if k > rest.len() {
                    return Err(RespError::InvalidFrameType("frame overruns buffer".to_owned()));
                }
                proof {
                    let tail = rest@.subrange(k as int, rest@.len() as int);
                    assert(tail == buf@.subrange(pos + e + 2 + k, buf@.len() as int));
                    let entry = (key@, f@);
                    let raw2 = raw.push(entry);
                    assert(raw2.drop_last() == raw);
                    match parse_entries(tail, (n - i - 1) as nat) {
                        Ok((ws, m)) => {
                            assert(raw + (seq![entry] + ws) == raw2 + ws);
                        },
                        Err(_) => {},
                    }
                }
                map.insert(key, f);
                proof {
                    raw = raw.push((key@, f@));
                }
                pos = pos + e + 2 + k;
                i = i + 1;
            },
            Err(x) => {
                return Err(x);
            },
        }
    }
    assert(raw + Seq::<(Seq<char>, Value)>::empty() == raw);
    Ok((map, pos))
}

fn set_from(items: Vec<RespFrame>) -> (r: RespSet)
    ensures
        r.members() == group_of(frames_value(items@)),
{
    let ghost all = items@;
    let mut items = items;
    let mut set = RespSet::new();
    let ghost mut taken: Seq<RespFrame> = Seq::empty();
    assert(taken + items@ == all);
    while items.len() > 0
        invariant
            taken + items@ == all,
            set.members() == group_of(frames_value(taken)),
        decreases items@.len(),
    {
        let f = items.remove(0);
        proof {
            lemma_frames_push(taken, f);
            let t2 = frames_value(taken).push(frame_value(f));
            assert(t2.drop_last() == frames_value(taken));
            taken = taken.push(f);
            assert(taken + items@ =~= all);
        }
        set.insert(f);
    }
    assert(taken == all);
    set
}

/// The frame at the start of `buf`, and how many bytes it takes.
pub fn decode_slice(buf: &[u8]) -> (r: Result<(RespFrame, usize), RespError>)
    ensures
        decoded_as(r, parse(buf@)),
        r matches Ok((_, k)) ==> k <= buf@.len(),
    decreases buf@.len(), 0nat,
{
    if buf.len() == 0 {
        return Err(RespError::NotComplete);
    }
    let c = buf[0];
    if c == 43u8 || c == 45u8 {
        let e = match extract_simple_frame_data(buf, c) {
            Ok(e) => e,
            Err(x) => return Err(x),
        };
        let text = lossy(&buf[1..e]);
        let f = if c == 43u8 {
            RespFrame::SimpleString(SimpleString(text))
        } else {
            RespFrame::Error(SimpleError(text))
        };
        Ok((f, e + 2))
    } else if c == 58u8 {
        let e = match extract_simple_frame_data(buf, c) {
            Ok(e) => e,
            Err(x) => return Err(x),
        };
        match parse_int(&buf[1..e]) {
            Some(i) => Ok((RespFrame::Integer(i), e + 2)),
            None => Err(RespError::ParseIntError),
        }
    } else if c == 44u8 {
        let e = match extract_simple_frame_data(buf, c) {
            Ok(e) => e,
            Err(x) => return Err(x),
        };
        let text = &buf[1..e];
        if is_real(text) {
            Ok((RespFrame::Double(RespDouble(vstd::slice::slice_to_vec(text))), e + 2))
        } else {
            Err(RespError::ParseFloatError)
        }
    } else if c == 35u8 {
        if buf.len() >= 2 && buf[1] == 102u8 {
            let lit = vec![35u8, 102, 13, 10];
            match fixed(buf, lit.as_slice()) {
                Ok(n) => Ok((RespFrame::Boolean(false), n)),
                Err(x) => Err(x),
            }
        } else {
            let lit = vec![35u8, 116, 13, 10];
            match fixed(buf, lit.as_slice()) {
                Ok(n) => Ok((RespFrame::Boolean(true), n)),
                Err(x) => Err(x),
            }
        }
    } else if c == 95u8 {
        let lit = vec![95u8, 13, 10];
        match fixed(buf, lit.as_slice()) {
            Ok(n) => Ok((RespFrame::Null(RespNull), n)),
            Err(x) => Err(x),
        }
    } else if c == 36u8 {
        let lit = vec![36u8, 45, 49, 13, 10];
        match null_state(buf, lit.as_slice()) {
            Some(true) => return Ok((RespFrame::NullBulkString(RespNullBulkString), 5)),
            Some(false) => return Err(RespError::NotComplete),
            None => {},
        }
        let (e, n) = match parse_length(buf, c) {
            Ok(h) => h,
            Err(x) => return Err(x),
        };
        let start = e + 2;
        let avail = (buf.len() - start) as u64;
        if avail < 2 || avail - 2 < n {
            return Err(RespError::NotComplete);
        }
        let stop = start + n as usize;
        let data = vstd::slice::slice_to_vec(&buf[start..stop]);
        Ok((RespFrame::BulkString(BulkString(data)), stop + 2))
    } else if c == 42u8 || c == 126u8 {
        if c == 42u8 {
            let lit = vec![42u8, 45, 49, 13, 10];
            match null_state(buf, lit.as_slice()) {
                Some(true) => return Ok((RespFrame::NullArray(RespNullArray), 5)),
                Some(false) => return Err(RespError::NotComplete),
                None => {},
            }
        }
        let (e, n) = match parse_length(buf, c) {
            Ok(h) => h,
            Err(x) => return Err(x),
        };
        let start = e + 2;
        match decode_items(&buf[start..buf.len()], n) {
            Ok((items, k)) => {
                let f = if c == 42u8 {
                    RespFrame::Array(RespArray(items))
                } else {
                    RespFrame::UniqueSet(set_from(items))
                };
                Ok((f, start + k))
            },
            Err(x) => Err(x),
        }
    } else if c == 37u8 {
        let (e, n) = match parse_length(buf, c) {
            Ok(h) => h,
            Err(x) => return Err(x),
        };
        let start = e + 2;
        match decode_entries(&buf[start..buf.len()], n) {
            Ok((m, k)) => Ok((RespFrame::Mapping(m), start + k)),
            Err(x) => Err(x),
        }
    } else {
        Err(RespError::InvalidFrameType("unknown frame type".to_owned()))
    }
}


/// What a typed decoder owes for a buffer that held `before` and now holds
/// `after`: the frame at the front when it is of the type, taken off the
/// buffer; otherwise an error and the buffer as it was.
pub open spec fn decode_outcome<T>(
    before: Seq<u8>,
    after: Seq<u8>,
    r: Result<T, RespError>,
    accepts: spec_fn(Value) -> bool,
    value_of: spec_fn(T) -> Value,
) -> bool {
    match parse(before) {
        Ok((v, n)) => if accepts(v) {
            r matches Ok(x) && value_of(x) == v && after == before.subrange(n as int, before.len() as int)
        } else {
            r matches Err(e) && e is InvalidFrameType && after == before
        },
        Err(f) => r matches Err(e) && reports(e, f) && after == before,
    }
}

/// Reading one frame of a given type from the front of a growing buffer.
pub trait RespDecoder: Sized {
    /// Whether a frame's value is of this type.
    spec fn accepts(v: Value) -> bool;

    /// The value that `x` carries.
    spec fn value_of(x: Self) -> Value;

    /// The payload of `f` when it is of this type.
    fn from_frame(f: RespFrame) -> (r: Option<Self>)
        ensures
            Self::accepts(f@) ==> (r matches Some(x) && Self::value_of(x) == f@),
            !Self::accepts(f@) ==> r is None,
    ;

    /// Takes the frame at the front of `data` off it. On any error `data` is
    /// left as it was; `NotComplete` means that more bytes are needed.
    fn decode(data: &mut BytesMut) -> (r: Result<Self, RespError>)
        ensures
            decode_outcome(
                buffered(*old(data)),
                buffered(*final(data)),
                r,
                |v: Value| Self::accepts(v),
                |x: Self| Self::value_of(x),
            ),
    {
        let (f, n) = match decode_slice(held(data)) {
            Ok(p) => p,
            Err(e) => return Err(e),
        };
        match Self::from_frame(f) {
            Some(x) => {
                advance(data, n);
                Ok(x)
            },
            None => Err(RespError::InvalidFrameType("unexpected frame type".to_owned())),
        }
    }

    /// The byte length of the complete frame at the front of `buf`, without
    /// taking anything off it.
    fn expect_length(buf: &[u8]) -> (r: Result<usize, RespError>)
        ensures
            match parse(buf@) {
                Ok((_, n)) => r matches Ok(k) && k as int == n,
                Err(f) => r matches Err(e) && reports(e, f),
            },
    {
        match decode_slice(buf) {
            Ok((_, n)) => Ok(n),
            Err(e) => Err(e),
        }
    }
}

impl RespDecoder for RespFrame {
    open spec fn accepts(v: Value) -> bool {
        true
    }

    open spec fn value_of(x: Self) -> Value {
        x@
    }

    fn from_frame(f: RespFrame) -> (r: Option<Self>) {
        Some(f)
    }
}

impl RespDecoder for SimpleString {
    open spec fn accepts(v: Value) -> bool {
        v is Text
    }

    open spec fn value_of(x: Self) -> Value {
        Value::Text(x.0@)
    }

    fn from_frame(f: RespFrame) -> (r: Option<Self>) {
        match f {
            RespFrame::SimpleString(x) => Some(x),
            _ => None,
        }
    }
}

impl RespDecoder for SimpleError {
    open spec fn accepts(v: Value) -> bool {
        v is Fault
    }

    open spec fn value_of(x: Self) -> Value {
        Value::Fault(x.0@)
    }

    fn from_frame(f: RespFrame) -> (r: Option<Self>) {
        match f {
            RespFrame::Error(x) => Some(x),
            _ => None,
        }
    }
}

impl RespDecoder for i64 {
    open spec fn accepts(v: Value) -> bool {
        v is Int
    }

    open spec fn value_of(x: Self) -> Value {
        Value::Int(x as int)
    }

    fn from_frame(f: RespFrame) -> (r: Option<Self>) {
        match f {
            RespFrame::Integer(x) => Some(x),
            _ => None,
        }
    }
}

impl RespDecoder for bool {
    open spec fn accepts(v: Value) -> bool {
        v is Flag
    }

    open spec fn value_of(x: Self) -> Value {
        Value::Flag(x)
    }

    fn from_frame(f: RespFrame) -> (r: Option<Self>) {
        match f {
            RespFrame::Boolean(x) => Some(x),
            _ => None,
        }
    }
}

impl RespDecoder for BulkString {
    open spec fn accepts(v: Value) -> bool {
        v is Bulk
    }

    open spec fn value_of(x: Self) -> Value {
        Value::Bulk(x.0@)
    }

    fn from_frame(f: RespFrame) -> (r: Option<Self>) {
        match f {
            RespFrame::BulkString(x) => Some(x),
            _ => None,
        }
    }
}

impl RespDecoder for RespNullBulkString {
    open spec fn accepts(v: Value) -> bool {
        v is NullBulk
    }

    open spec fn value_of(x: Self) -> Value {
        Value::NullBulk
    }

    fn from_frame(f: RespFrame) -> (r: Option<Self>) {
        match f {
            RespFrame::NullBulkString(x) => Some(x),
            _ => None,
        }
    }
}

impl RespDecoder for RespArray {
    open spec fn accepts(v: Value) -> bool {
        v is List
    }

    open spec fn value_of(x: Self) -> Value {
        Value::List(frames_value(x.0@))
    }

    fn from_frame(f: RespFrame) -> (r: Option<Self>) {
        match f {
            RespFrame::Array(x) => Some(x),
            _ => None,
        }
    }
}

impl RespDecoder for RespNullArray {
    open spec fn accepts(v: Value) -> bool {
        v is NullList
    }

    open spec fn value_of(x: Self) -> Value {
        Value::NullList
    }

    fn from_frame(f: RespFrame) -> (r: Option<Self>) {
        match f {
            RespFrame::NullArray(x) => Some(x),
            _ => None,
        }
    }
}

impl RespDecoder for RespNull {
    open spec fn accepts(v: Value) -> bool {
        v is Nil
    }

    open spec fn value_of(x: Self) -> Value {
        Value::Nil
    }

    fn from_frame(f: RespFrame) -> (r: Option<Self>) {
        match f {
            RespFrame::Null(x) => Some(x),
            _ => None,
        }
    }
}

impl RespDecoder for RespDouble {
    open spec fn accepts(v: Value) -> bool {
        v is Real
    }

    open spec fn value_of(x: Self) -> Value {
        Value::Real(x.0@)
    }

    fn from_frame(f: RespFrame) -> (r: Option<Self>) {
        match f {
            RespFrame::Double(x) => Some(x),
            _ => None,
        }
    }
}

impl RespDecoder for RespMap {
    open spec fn accepts(v: Value) -> bool {
        v is Dict
    }

    open spec fn value_of(x: Self) -> Value {
        Value::Dict(x.entries())
    }

    fn from_frame(f: RespFrame) -> (r: Option<Self>) {
        match f {
            RespFrame::Mapping(x) => Some(x),
            _ => None,
        }
    }
}

impl RespDecoder for RespSet {
    open spec fn accepts(v: Value) -> bool {
        v is Group
    }

    open spec fn value_of(x: Self) -> Value {
        Value::Group(x.members())
    }

    fn from_frame(f: RespFrame) -> (r: Option<Self>) {
        match f {
            RespFrame::UniqueSet(x) => Some(x),
            _ => None,
        }
    }
}

} // verus!
