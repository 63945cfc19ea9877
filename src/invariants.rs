use vstd::prelude::*;
use vstd::utf8::{encode_utf8, encode_utf8_decode_utf8};

use crate::frame::Value;
use crate::grammar::{bytes_lt, dict_of, dict_put, group_of, group_put, key_lt};

verus! {

broadcast use vstd::seq::group_seq_axioms;

/// Keys strictly ascending in the byte order of their UTF-8 text.
pub open spec fn keys_ascending(m: Seq<(Seq<char>, Value)>) -> bool {
    forall|i: int, j: int| 0 <= i < j < m.len() ==> key_lt(#[trigger] m[i].0, #[trigger] m[j].0)
}

proof fn lemma_bytes_lt_irreflexive(a: Seq<u8>)
    ensures
        !bytes_lt(a, a),
    decreases a.len(),
{
    if a.len() > 0 {
        lemma_bytes_lt_irreflexive(a.drop_first());
    }
}

proof fn lemma_bytes_lt_transitive(a: Seq<u8>, b: Seq<u8>, c: Seq<u8>)
    requires
        bytes_lt(a, b),
        bytes_lt(b, c),
    ensures
        bytes_lt(a, c),
    decreases a.len(),
{
    if a.len() > 0 && b.len() > 0 && c.len() > 0 && a[0] == b[0] && b[0] == c[0] {
        lemma_bytes_lt_transitive(a.drop_first(), b.drop_first(), c.drop_first());
    }
}

proof fn lemma_bytes_lt_total(a: Seq<u8>, b: Seq<u8>)
    requires
        a != b,
    ensures
        bytes_lt(a, b) || bytes_lt(b, a),
    decreases a.len(),
{
    if a.len() == 0 {
        if b.len() == 0 {
            assert(a =~= b);
        }
    } else if b.len() == 0 {
    } else if a[0] == b[0] {
        if a.drop_first() == b.drop_first() {
            assert(a =~= seq![a[0]] + a.drop_first());
            assert(b =~= seq![b[0]] + b.drop_first());
        }
        lemma_bytes_lt_total(a.drop_first(), b.drop_first());
    }
}

proof fn lemma_key_lt_total(a: Seq<char>, b: Seq<char>)
    requires
        a != b,
    ensures
        key_lt(a, b) || key_lt(b, a),
{
    encode_utf8_decode_utf8(a);
    encode_utf8_decode_utf8(b);
    lemma_bytes_lt_total(encode_utf8(a), encode_utf8(b));
}

proof fn lemma_key_lt_irreflexive(a: Seq<char>)
    ensures
        !key_lt(a, a),
{
    lemma_bytes_lt_irreflexive(encode_utf8(a));
}

proof fn lemma_key_lt_transitive(a: Seq<char>, b: Seq<char>, c: Seq<char>)
    requires
        key_lt(a, b),
        key_lt(b, c),
    ensures
        key_lt(a, c),
{
    lemma_bytes_lt_transitive(encode_utf8(a), encode_utf8(b), encode_utf8(c));
}

/// Every key after `dict_put` is the new key or a key that was there.
proof fn lemma_dict_put_keys(m: Seq<(Seq<char>, Value)>, k: Seq<char>, v: Value)
    ensures
        forall|i: int|
            0 <= i < dict_put(m, k, v).len() ==> (#[trigger] dict_put(m, k, v)[i]).0 == k || exists|
                j: int,
            |
                0 <= j < m.len() && m[j].0 == dict_put(m, k, v)[i].0,
    decreases m.len(),
{
    let r = dict_put(m, k, v);
    if m.len() == 0 {
    } else if m[0].0 == k {
        assert forall|i: int| 0 <= i < r.len() implies (#[trigger] r[i]).0 == k || exists|j: int|
            0 <= j < m.len() && m[j].0 == r[i].0 by {
            if i > 0 {
                assert(m[i].0 == r[i].0);
            }
        }
    } else if key_lt(k, m[0].0) {
        assert forall|i: int| 0 <= i < r.len() implies (#[trigger] r[i]).0 == k || exists|j: int|
            0 <= j < m.len() && m[j].0 == r[i].0 by {
            if i > 0 {
                assert(m[i - 1].0 == r[i].0);
            }
        }
    } else {
        let t = m.drop_first();
        lemma_dict_put_keys(t, k, v);
        assert forall|i: int| 0 <= i < r.len() implies (#[trigger] r[i]).0 == k || exists|j: int|
            0 <= j < m.len() && m[j].0 == r[i].0 by {
            if i == 0 {
                assert(m[0].0 == r[0].0);
            } else {
                assert(r[i] == dict_put(t, k, v)[i - 1]);
                if dict_put(t, k, v)[i - 1].0 != k {
                    let j = choose|j: int| 0 <= j < t.len() && t[j].0 == dict_put(t, k, v)[i - 1].0;
                    assert(m[j + 1].0 == r[i].0);
                }
            }
        }
    }
}

/// Setting a key keeps the keys strictly ascending.
pub proof fn lemma_dict_put_ascending(m: Seq<(Seq<char>, Value)>, k: Seq<char>, v: Value)
    requires
        keys_ascending(m),
    ensures
        keys_ascending(dict_put(m, k, v)),
    decreases m.len(),
{
    let r = dict_put(m, k, v);
    if m.len() == 0 {
    } else if m[0].0 == k {
        assert forall|i: int, j: int| 0 <= i < j < r.len() implies key_lt(
            #[trigger] r[i].0,
            #[trigger] r[j].0,
        ) by {
            assert(r[i].0 == m[i].0 && r[j].0 == m[j].0);
        }
    } else if key_lt(k, m[0].0) {
        assert forall|i: int, j: int| 0 <= i < j < r.len() implies key_lt(
            #[trigger] r[i].0,
            #[trigger] r[j].0,
        ) by {
            if i == 0 {
                if j > 1 {
                    lemma_key_lt_transitive(k, m[0].0, m[j - 1].0);
                }
            } else {
                assert(r[i] == m[i - 1] && r[j] == m[j - 1]);
            }
        }
    } else {
        lemma_key_lt_total(k, m[0].0);
        let t = m.drop_first();
        assert(keys_ascending(t)) by {
            assert forall|i: int, j: int| 0 <= i < j < t.len() implies key_lt(
                #[trigger] t[i].0,
                #[trigger] t[j].0,
            ) by {
                assert(t[i] == m[i + 1] && t[j] == m[j + 1]);
            }
        }
        lemma_dict_put_ascending(t, k, v);
        lemma_dict_put_keys(t, k, v);
        let rt = dict_put(t, k, v);
        assert forall|i: int, j: int| 0 <= i < j < r.len() implies key_lt(
            #[trigger] r[i].0,
            #[trigger] r[j].0,
        ) by {
            if i == 0 {
                assert(r[j] == rt[j - 1]);
                if rt[j - 1].0 != k {
                    let q = choose|q: int| 0 <= q < t.len() && t[q].0 == rt[j - 1].0;
                    assert(t[q] == m[q + 1]);
                }
            } else {
                assert(r[i] == rt[i - 1] && r[j] == rt[j - 1]);
            }
        }
    }
}

/// A map read off the wire has strictly ascending keys.
pub proof fn lemma_dict_of_ascending(raw: Seq<(Seq<char>, Value)>)
    ensures
        keys_ascending(dict_of(raw)),
    decreases raw.len(),
{
    if raw.len() > 0 {
        lemma_dict_of_ascending(raw.drop_last());
        lemma_dict_put_ascending(dict_of(raw.drop_last()), raw.last().0, raw.last().1);
    }
}


/// Adding a member keeps the members distinct.
pub proof fn lemma_group_put_distinct(s: Seq<Value>, v: Value)
    requires
        s.no_duplicates(),
    ensures
        group_put(s, v).no_duplicates(),
{
    if !s.contains(v) {
        let after = s.push(v);
        assert forall|i: int, j: int|
            0 <= i < after.len() && 0 <= j < after.len() && i != j implies after[i] != after[j] by {
            if i < s.len() && j < s.len() {
                assert(after[i] == s[i] && after[j] == s[j]);
            } else if i < s.len() {
                assert(after[i] == s[i]);
            } else if j < s.len() {
                assert(after[j] == s[j]);
            }
        }
    }
}

/// A set read off the wire holds each value once.
pub proof fn lemma_group_of_distinct(raw: Seq<Value>)
    ensures
        group_of(raw).no_duplicates(),
    decreases raw.len(),
{
    if raw.len() > 0 {
        lemma_group_of_distinct(raw.drop_last());
        lemma_group_put_distinct(group_of(raw.drop_last()), raw.last());
    }
}

} // verus!
