use vstd::prelude::*;
use vstd::utf8::{decode_utf8, encode_utf8, valid_utf8};

use crate::frame::Value;

verus! {

broadcast use vstd::seq::group_seq_axioms;

/// Why a buffer does not start with a frame.
pub enum Fault {
    /// The buffer holds a strict prefix of a frame: wait for more bytes.
    Incomplete,
    /// The first byte names no frame type, or a fixed literal does not match.
    FrameType,
    /// A length field is a decimal that is negative (and not the null
    /// marker) or too large for 64 bits.
    FrameLength(int),
    /// An integer or a length field is not a signed 64-bit decimal.
    Int,
    /// A double is not in the decimal grammar.
    Real,
}

/// What a buffer starts with: a value and the number of bytes it takes.
pub type Parsed = Result<(Value, nat), Fault>;

/// The text that `String::from_utf8_lossy` makes of bytes.
pub uninterp spec fn lossy_text(b: Seq<u8>) -> Seq<char>;

/// Relies on `String::from_utf8_lossy`: the text depends on the bytes alone,
/// and valid UTF-8 comes back as the text it encodes.
#[verifier::external_body]
pub(crate) fn lossy(b: &[u8]) -> (r: String)
    ensures
        r@ == lossy_text(b@),
        valid_utf8(b@) ==> r@ == decode_utf8(b@),
{
    String::from_utf8_lossy(b).into_owned()
}

pub open spec fn is_digit(b: u8) -> bool {
    48 <= b <= 57
}

/// Index of the first CR/LF pair at or after `i`.
pub open spec fn crlf_from(s: Seq<u8>, i: int) -> Option<int>
    decreases s.len() - i,
{
    if i < 0 || i + 1 >= s.len() {
        None
    } else if s[i] == 13 && s[i + 1] == 10 {
        Some(i)
    } else {
        crlf_from(s, i + 1)
    }
}

/// Index of the first non-digit at or after `i` (or the end).
pub open spec fn digits_end(s: Seq<u8>, i: int) -> int
    decreases s.len() - i,
{
    if 0 <= i < s.len() && is_digit(s[i]) {
        digits_end(s, i + 1)
    } else {
        i
    }
}

/// Value of a run of decimal digits.
pub open spec fn digits_value(t: Seq<u8>) -> nat
    decreases t.len(),
{
    if t.len() == 0 {
        0
    } else {
        digits_value(t.drop_last()) * 10 + (t.last() - 48) as nat
    }
}

pub open spec fn all_digits(t: Seq<u8>) -> bool {
    forall|i: int| 0 <= i < t.len() ==> is_digit(#[trigger] t[i])
}

/// A decimal of any size: an optional `+` or `-`, then one or more digits.
pub open spec fn decimal_of(t: Seq<u8>) -> Option<int> {
    let neg = t.len() > 0 && t[0] == 45;
    let signed = t.len() > 0 && (t[0] == 45 || t[0] == 43);
    let body = if signed {
        t.subrange(1, t.len() as int)
    } else {
        t
    };
    if body.len() == 0 || !all_digits(body) {
        None
    } else if neg {
        Some(-digits_value(body))
    } else {
        Some(digits_value(body) as int)
    }
}

/// A signed 64-bit decimal: an optional `+` or `-`, then one or more digits.
pub open spec fn int_of(t: Seq<u8>) -> Option<int> {
    let neg = t.len() > 0 && t[0] == 45;
    let signed = t.len() > 0 && (t[0] == 45 || t[0] == 43);
    let body = if signed {
        t.subrange(1, t.len() as int)
    } else {
        t
    };
    if body.len() == 0 || !all_digits(body) {
        None
    } else {
        let v = if neg {
            -digits_value(body)
        } else {
            digits_value(body) as int
        };
        if i64::MIN <= v <= i64::MAX {
            Some(v)
        } else {
            None
        }
    }
}

pub open spec fn ascii_lower(b: u8) -> u8 {
    if 65 <= b <= 90 {
        (b + 32) as u8
    } else {
        b
    }
}

pub open spec fn lower_eq(t: Seq<u8>, word: Seq<u8>) -> bool {
    t.len() == word.len() && forall|i: int| 0 <= i < t.len() ==> ascii_lower(#[trigger] t[i]) == word[i]
}

/// `inf`, `infinity` or `nan`, in any case.
pub open spec fn is_special_real(t: Seq<u8>) -> bool {
    lower_eq(t, seq![105u8, 110, 102]) || lower_eq(t, seq![105u8, 110, 102, 105, 110, 105, 116, 121])
        || lower_eq(t, seq![110u8, 97, 110])
}

/// An exponent part, from `i` to the end: empty, or `e`/`E`, an optional
/// sign, and one or more digits.
pub open spec fn is_exponent(t: Seq<u8>, i: int) -> bool {
    i == t.len() || (i < t.len() && (t[i] == 101 || t[i] == 69) && {
        let j = if i + 1 < t.len() && (t[i + 1] == 43 || t[i + 1] == 45) {
            i + 2
        } else {
            i + 1
        };
        j < t.len() && digits_end(t, j) == t.len()
    })
}

/// Digits with an optional fraction (at least one digit in all), then an
/// optional exponent.
pub open spec fn is_decimal(t: Seq<u8>) -> bool {
    let d = digits_end(t, 0);
    if d < t.len() && t[d] == 46 {
        let f = digits_end(t, d + 1);
        f > 1 && is_exponent(t, f)
    } else {
        d > 0 && is_exponent(t, d)
    }
}

/// The grammar of a double: an optional sign, then a decimal or a special word.
pub open spec fn is_real_text(t: Seq<u8>) -> bool {
    let start = if t.len() > 0 && (t[0] == 43 || t[0] == 45) {
        1int
    } else {
        0int
    };
    let body = t.subrange(start, t.len() as int);
    is_decimal(body) || is_special_real(body)
}

/// Keys in ascending order of their UTF-8 bytes.
pub open spec fn bytes_lt(a: Seq<u8>, b: Seq<u8>) -> bool
    decreases a.len(),
{
    if a.len() == 0 {
        b.len() > 0
    } else if b.len() == 0 {
        false
    } else if a[0] != b[0] {
        a[0] < b[0]
    } else {
        bytes_lt(a.drop_first(), b.drop_first())
    }
}

pub open spec fn key_lt(a: Seq<char>, b: Seq<char>) -> bool {
    bytes_lt(encode_utf8(a), encode_utf8(b))
}

/// A map's entries after setting `k` to `v`: the entry replaced in place, or
/// a new one before the first greater key.
pub open spec fn dict_put(m: Seq<(Seq<char>, Value)>, k: Seq<char>, v: Value) -> Seq<
    (Seq<char>, Value),
>
    decreases m.len(),
{
    if m.len() == 0 {
        seq![(k, v)]
    } else if m[0].0 == k {
        m.update(0, (k, v))
    } else if key_lt(k, m[0].0) {
        seq![(k, v)] + m
    } else {
        seq![m[0]] + dict_put(m.drop_first(), k, v)
    }
}

/// A map built from entries in wire order: a later duplicate key wins.
pub open spec fn dict_of(raw: Seq<(Seq<char>, Value)>) -> Seq<(Seq<char>, Value)>
    decreases raw.len(),
{
    if raw.len() == 0 {
        Seq::empty()
    } else {
        dict_put(dict_of(raw.drop_last()), raw.last().0, raw.last().1)
    }
}

/// A set's members after adding `v`: unchanged when it is already there.
pub open spec fn group_put(s: Seq<Value>, v: Value) -> Seq<Value> {
    if s.contains(v) {
        s
    } else {
        s.push(v)
    }
}

/// A set built from elements in wire order: first occurrences, in order.
pub open spec fn group_of(raw: Seq<Value>) -> Seq<Value>
    decreases raw.len(),
{
    if raw.len() == 0 {
        Seq::empty()
    } else {
        group_put(group_of(raw.drop_last()), raw.last())
    }
}

/// A line frame: `prefix`, text, CR/LF. Gives the index of the CR.
pub open spec fn line_end(s: Seq<u8>, prefix: u8) -> Result<int, Fault> {
    if s.len() < 3 {
        Err(Fault::Incomplete)
    } else if s[0] != prefix {
        Err(Fault::FrameType)
    } else {
        match crlf_from(s, 1) {
            Some(e) => Ok(e),
            None => Err(Fault::Incomplete),
        }
    }
}

/// A fixed literal at the start of `s`.
pub open spec fn literal(s: Seq<u8>, lit: Seq<u8>, v: Value) -> Parsed {
    if s.len() < lit.len() {
        Err(Fault::Incomplete)
    } else if s.subrange(0, lit.len() as int) == lit {
        Ok((v, lit.len()))
    } else {
        Err(Fault::FrameType)
    }
}

/// The header of a length-prefixed frame: the count, and where its line ends.
pub open spec fn header(s: Seq<u8>, prefix: u8) -> Result<(nat, int), Fault> {
    match line_end(s, prefix) {
        Ok(e) => match int_of(s.subrange(1, e)) {
            Some(n) => if n < 0 {
                Err(Fault::FrameLength(n))
            } else {
                Ok((n as nat, e + 2))
            },
            None => match decimal_of(s.subrange(1, e)) {
                Some(n) => Err(Fault::FrameLength(n)),
                None => Err(Fault::Int),
            },
        },
        Err(f) => Err(f),
    }
}

/// Whether `s` is a strict prefix of `lit`, or starts with it.
pub open spec fn null_marker(s: Seq<u8>, lit: Seq<u8>) -> Option<bool> {
    if s.len() >= lit.len() && s.subrange(0, lit.len() as int) == lit {
        Some(true)
    } else if s.len() < lit.len() && s == lit.subrange(0, s.len() as int) {
        Some(false)
    } else {
        None
    }
}

pub open spec fn null_bulk_lit() -> Seq<u8> {
    seq![36u8, 45, 49, 13, 10]
}

pub open spec fn null_array_lit() -> Seq<u8> {
    seq![42u8, 45, 49, 13, 10]
}

/// The frame at the start of `s`, and how many bytes it takes.
pub open spec fn parse(s: Seq<u8>) -> Parsed
    decreases s.len(), 0nat,
{
    if s.len() == 0 {
        Err(Fault::Incomplete)
    } else {
        let c = s[0];
        if c == 43 || c == 45 {
            match line_end(s, c) {
                Ok(e) => {
                    let text = lossy_text(s.subrange(1, e));
                    Ok((if c == 43 { Value::Text(text) } else { Value::Fault(text) }, (e + 2) as nat))
                },
                Err(f) => Err(f),
            }
        } else if c == 58 {
            match line_end(s, c) {
                Ok(e) => match int_of(s.subrange(1, e)) {
                    Some(i) => Ok((Value::Int(i), (e + 2) as nat)),
                    None => Err(Fault::Int),
                },
                Err(f) => Err(f),
            }
        } else if c == 44 {
            match line_end(s, c) {
                Ok(e) => if is_real_text(s.subrange(1, e)) {
                    Ok((Value::Real(s.subrange(1, e)), (e + 2) as nat))
                } else {
                    Err(Fault::Real)
                },
                Err(f) => Err(f),
            }
        } else if c == 35 {
            if s.len() >= 2 && s[1] == 102 {
                literal(s, seq![35u8, 102, 13, 10], Value::Flag(false))
            } else {
                literal(s, seq![35u8, 116, 13, 10], Value::Flag(true))
            }
        } else if c == 95 {
            literal(s, seq![95u8, 13, 10], Value::Nil)
        } else if c == 36 {
            match null_marker(s, null_bulk_lit()) {
                Some(true) => Ok((Value::NullBulk, 5)),
                Some(false) => Err(Fault::Incomplete),
                None => match header(s, c) {
                    Ok((n, start)) => if s.len() - start < n + 2 {
                        Err(Fault::Incomplete)
                    } else {
                        Ok((Value::Bulk(s.subrange(start, start + n)), (start + n + 2) as nat))
                    },
                    Err(f) => Err(f),
                },
            }
        } else if c == 42 || c == 126 {
            match if c == 42 { null_marker(s, null_array_lit()) } else { None } {
                Some(true) => Ok((Value::NullList, 5)),
                Some(false) => Err(Fault::Incomplete),
                None => match header(s, c) {
                    Ok((n, start)) => if 0 < start <= s.len() {
                        match parse_items(s.subrange(start, s.len() as int), n) {
                            Ok((items, k)) => Ok(
                                (
                                    if c == 42 { Value::List(items) } else { Value::Group(group_of(items)) },
                                    (start + k) as nat,
                                ),
                            ),
                            Err(f) => Err(f),
                        }
                    } else {
                        Err(Fault::FrameType)
                    },
                    Err(f) => Err(f),
                },
            }
        } else if c == 37 {
            match header(s, c) {
                Ok((n, start)) => if 0 < start <= s.len() {
                    match parse_entries(s.subrange(start, s.len() as int), n) {
                        Ok((raw, k)) => Ok((Value::Dict(dict_of(raw)), (start + k) as nat)),
                        Err(f) => Err(f),
                    }
                } else {
                    Err(Fault::FrameType)
                },
                Err(f) => Err(f),
            }
        } else {
            Err(Fault::FrameType)
        }
    }
}

/// `n` frames one after another at the start of `s`.
pub open spec fn parse_items(s: Seq<u8>, n: nat) -> Result<(Seq<Value>, nat), Fault>
    decreases s.len(), n,
{
    if n == 0 {
        Ok((Seq::empty(), 0))
    } else {
        match parse(s) {
            Ok((v, k)) => if k <= s.len() {
                match parse_items(s.subrange(k as int, s.len() as int), (n - 1) as nat) {
                    Ok((vs, m)) => Ok((seq![v] + vs, k + m)),
                    Err(f) => Err(f),
                }
            } else {
                Err(Fault::FrameType)
            },
            Err(f) => Err(f),
        }
    }
}

/// `n` map entries (a simple-string key, then a frame) at the start of `s`.
pub open spec fn parse_entries(s: Seq<u8>, n: nat) -> Result<
    (Seq<(Seq<char>, Value)>, nat),
    Fault,
>
    decreases s.len(), n,
{
    if n == 0 {
        Ok((Seq::empty(), 0))
    } else {
        match line_end(s, 43u8) {
            Ok(e) => if 1 <= e && e + 2 <= s.len() {
                let key = lossy_text(s.subrange(1, e));
                let rest = s.subrange(e + 2, s.len() as int);
                match parse(rest) {
                    Ok((v, k)) => if k <= rest.len() {
                        match parse_entries(rest.subrange(k as int, rest.len() as int), (n - 1) as nat) {
                            Ok((es, m)) => Ok((seq![(key, v)] + es, (e + 2 + k + m) as nat)),
                            Err(f) => Err(f),
                        }
                    } else {
                        Err(Fault::FrameType)
                    },
                    Err(f) => Err(f),
                }
            } else {
                Err(Fault::FrameType)
            },
            Err(f) => Err(f),
        }
    }
}

} // verus!
