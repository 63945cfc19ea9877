use dashmap::DashMap;
use vstd::math::min;
use vstd::prelude::*;

use crate::frame::{pairs_value, RespFrame, Value};

verus! {

broadcast use vstd::seq::group_seq_axioms, vstd::map::group_map_axioms;

#[verifier::external_type_specification]
#[verifier::external_body]
#[verifier::reject_recursive_types(K)]
#[verifier::reject_recursive_types(V)]
#[verifier::reject_recursive_types(S)]
pub struct ExDashMap<K, V, S>(DashMap<K, V, S>);

/// What a flat map holds: key to value.
pub uninterp spec fn flat_entries(m: DashMap<String, RespFrame>) -> Map<Seq<char>, Value>;

/// What a map of hashes holds: key to (field to value).
pub uninterp spec fn hash_entries(m: DashMap<String, DashMap<String, RespFrame>>) -> Map<
    Seq<char>,
    Map<Seq<char>, Value>,
>;

/// What a map of sets holds: key to members in order of first insertion.
pub uninterp spec fn set_entries(m: DashMap<String, Vec<String>>) -> Map<Seq<char>, Seq<Seq<char>>>;

pub open spec fn texts(v: Seq<String>) -> Seq<Seq<char>> {
    v.map_values(|s: String| s@)
}

/// Whether `ps` lists the entries of `m`, each key once, in some order.
pub open spec fn lists(ps: Seq<(Seq<char>, Value)>, m: Map<Seq<char>, Value>) -> bool {
    &&& ps.len() == m.dom().len()
    &&& forall|i: int, j: int| 0 <= i < j < ps.len() ==> ps[i].0 != ps[j].0
    &&& forall|i: int|
        0 <= i < ps.len() ==> m.contains_key(#[trigger] ps[i].0) && m[ps[i].0] == ps[i].1
}

/// Relies on `DashMap::new`: the three maps of a store, each with no entries.
#[verifier::external_body]
fn empty_maps() -> (r: (
    DashMap<String, RespFrame>,
    DashMap<String, DashMap<String, RespFrame>>,
    DashMap<String, Vec<String>>,
))
    ensures
        flat_entries(r.0).dom() == Set::<Seq<char>>::empty(),
        hash_entries(r.1).dom() == Set::<Seq<char>>::empty(),
        set_entries(r.2).dom() == Set::<Seq<char>>::empty(),
{
    (DashMap::new(), DashMap::new(), DashMap::new())
}

/// Relies on `DashMap::get`: the value under `key`, if any, cloned out of
/// the read guard.
#[verifier::external_body]
fn flat_get(m: &DashMap<String, RespFrame>, key: &str) -> (r: Option<RespFrame>)
    ensures
        r is Some == flat_entries(*m).contains_key(key@),
        r matches Some(f) ==> f@ == flat_entries(*m)[key@],
{
    m.get(key).map(|v| v.value().clone())
}

/// Relies on `DashMap::insert`: `key` now maps to `value`, the rest is kept.
#[verifier::external_body]
fn flat_insert(m: &mut DashMap<String, RespFrame>, key: String, value: RespFrame)
    ensures
        flat_entries(*final(m)) == flat_entries(*old(m)).insert(key@, value@),
{
    m.insert(key, value);
}

/// Relies on `DashMap::get`, on the outer map and then on the inner one:
/// the value under `field` of the hash under `key`, if both are there.
#[verifier::external_body]
fn hash_get(m: &DashMap<String, DashMap<String, RespFrame>>, key: &str, field: &str) -> (r: Option<
    RespFrame,
>)
    ensures
        r is Some == (hash_entries(*m).contains_key(key@) && hash_entries(*m)[key@].contains_key(
            field@,
        )),
        r matches Some(f) ==> f@ == hash_entries(*m)[key@][field@],
{
    m.get(key).and_then(|inner| inner.get(field).map(|v| v.value().clone()))
}

/// Relies on `DashMap::entry`, `Entry::or_default` and `DashMap::insert`:
/// under one guard, the hash under `key` is made when absent and `field` is
/// set in it.
#[verifier::external_body]
fn hash_insert(
    m: &mut DashMap<String, DashMap<String, RespFrame>>,
    key: String,
    field: String,
    value: RespFrame,
)
    ensures
        hash_entries(*final(m)) == hash_put(hash_entries(*old(m)), key@, field@, value@),
{
    m.entry(key).or_default().insert(field, value);
}

/// Relies on `DashMap::get` and `DashMap::iter`: a copy of every entry of
/// the hash under `key`, each once, in the map's iteration order.
#[verifier::external_body]
fn hash_snapshot(m: &DashMap<String, DashMap<String, RespFrame>>, key: &str) -> (r: Option<
    Vec<(String, RespFrame)>,
>)
    ensures
        r is Some == hash_entries(*m).contains_key(key@),
        r matches Some(ps) ==> lists(pairs_value(ps@), hash_entries(*m)[key@]),
{
    m.get(key).map(|inner| inner.iter().map(|e| (e.key().clone(), e.value().clone())).collect())
}

/// Relies on `DashMap::get`: a clone of the members under `key`, if any.
#[verifier::external_body]
fn set_get(m: &DashMap<String, Vec<String>>, key: &str) -> (r: Option<Vec<String>>)
    ensures
        r is Some == set_entries(*m).contains_key(key@),
        r matches Some(v) ==> texts(v@) == set_entries(*m)[key@],
{
    m.get(key).map(|v| v.value().clone())
}

/// Relies on `DashMap::insert`: `key` now maps to `members`.
#[verifier::external_body]
fn set_insert(m: &mut DashMap<String, Vec<String>>, key: String, members: Vec<String>)
    ensures
        set_entries(*final(m)) == set_entries(*old(m)).insert(key@, texts(members@)),
{
    m.insert(key, members);
}

/// The hashes after setting `field` of the hash under `key` to `v`; a
/// missing hash starts empty.
pub open spec fn hash_put(
    h: Map<Seq<char>, Map<Seq<char>, Value>>,
    key: Seq<char>,
    field: Seq<char>,
    v: Value,
) -> Map<Seq<char>, Map<Seq<char>, Value>> {
    let inner = if h.contains_key(key) {
        h[key]
    } else {
        Map::empty()
    };
    h.insert(key, inner.insert(field, v))
}

/// The members under `key`, none when it is absent.
pub open spec fn members_of(sets: Map<Seq<char>, Seq<Seq<char>>>, key: Seq<char>) -> Seq<Seq<char>> {
    if sets.contains_key(key) {
        sets[key]
    } else {
        Seq::empty()
    }
}

/// `s` after adding each of `ms` in turn, skipping those already there.
pub open spec fn add_all(s: Seq<Seq<char>>, ms: Seq<Seq<char>>) -> Seq<Seq<char>>
    decreases ms.len(),
{
    if ms.len() == 0 {
        s
    } else {
        let t = add_all(s, ms.drop_last());
        if t.contains(ms.last()) {
            t
        } else {
            t.push(ms.last())
        }
    }
}

/// The store: flat values, hashes and sets, each keyed by text.
pub struct Backend {
    map: DashMap<String, RespFrame>,
    hmap: DashMap<String, DashMap<String, RespFrame>>,
    sis: DashMap<String, Vec<String>>,
}

impl Backend {
    pub closed spec fn flat(&self) -> Map<Seq<char>, Value> {
        flat_entries(self.map)
    }

    pub closed spec fn hashes(&self) -> Map<Seq<char>, Map<Seq<char>, Value>> {
        hash_entries(self.hmap)
    }

    pub closed spec fn sets(&self) -> Map<Seq<char>, Seq<Seq<char>>> {
        set_entries(self.sis)
    }

    /// Each set holds each member once.
    pub open spec fn wf(&self) -> bool {
        forall|k: Seq<char>| #[trigger] self.sets().contains_key(k) ==> self.sets()[k].no_duplicates()
    }

    pub fn new() -> (r: Self)
        ensures
            r.wf(),
            r.flat().dom() == Set::<Seq<char>>::empty(),
            r.hashes().dom() == Set::<Seq<char>>::empty(),
            r.sets().dom() == Set::<Seq<char>>::empty(),
    {
        let (map, hmap, sis) = empty_maps();
        Backend { map, hmap, sis }
    }

    pub fn get(&self, key: &str) -> (r: Option<RespFrame>)
        ensures
            self.flat().contains_key(key@) ==> (r matches Some(f) && f@ == self.flat()[key@]),
            !self.flat().contains_key(key@) ==> r is None,
    {
        flat_get(&self.map, key)
    }

    pub fn set(&mut self, key: String, value: RespFrame)
        ensures
            final(self).flat() == old(self).flat().insert(key@, value@),
            final(self).hashes() == old(self).hashes(),
            final(self).sets() == old(self).sets(),
            old(self).wf() ==> final(self).wf(),
    {
        flat_insert(&mut self.map, key, value);
    }

    pub fn hget(&self, key: &str, field: &str) -> (r: Option<RespFrame>)
        ensures
            (self.hashes().contains_key(key@) && self.hashes()[key@].contains_key(field@)) ==> (r matches Some(f)
                && f@ == self.hashes()[key@][field@]),
            !(self.hashes().contains_key(key@) && self.hashes()[key@].contains_key(field@)) ==> r is None,
    {
        hash_get(&self.hmap, key, field)
    }

    pub fn hset(&mut self, key: String, field: String, value: RespFrame)
        ensures
            final(self).hashes() == hash_put(old(self).hashes(), key@, field@, value@),
            final(self).flat() == old(self).flat(),
            final(self).sets() == old(self).sets(),
            old(self).wf() ==> final(self).wf(),
    {
        hash_insert(&mut self.hmap, key, field, value);
    }

    /// A copy of the hash under `key`: each field once, with its value.
    pub fn hgetall(&self, key: &str) -> (r: Option<Vec<(String, RespFrame)>>)
        ensures
            self.hashes().contains_key(key@) ==> (r matches Some(ps) && lists(
                pairs_value(ps@),
                self.hashes()[key@],
            )),
            !self.hashes().contains_key(key@) ==> r is None,
    {
        hash_snapshot(&self.hmap, key)
    }

    /// Adds the members not yet in the set under `key`, in order, and gives
    /// how many were added (at most `i64::MAX`).
    pub fn sadd(&mut self, key: String, members: &Vec<String>) -> (r: i64)
        ensures
            final(self).sets() == old(self).sets().insert(
                key@,
                add_all(members_of(old(self).sets(), key@), texts(members@)),
            ),
            r as int == min(
                add_all(members_of(old(self).sets(), key@), texts(members@)).len() - members_of(
                    old(self).sets(),
                    key@,
                ).len(),
                i64::MAX as int,
            ),
            final(self).flat() == old(self).flat(),
            final(self).hashes() == old(self).hashes(),
            old(self).wf() ==> final(self).wf(),
    {
        let ghost start = members_of(self.sets(), key@);
        proof {
            if old(self).wf() {
                lemma_add_all_distinct(start, texts(members@));
            }
        }
        let mut cur: Vec<String> = match set_get(&self.sis, key.as_str()) {
            Some(v) => v,
            None => Vec::new(),
        };
        assert(texts(cur@) == start);
        let ghost ms = texts(members@);
        let mut added: i64 = 0;
        let mut i: usize = 0;
        assert(ms.subrange(0, 0) == Seq::<Seq<char>>::empty());
        while i < members.len()
            invariant
                i <= members@.len(),
                ms == texts(members@),
                texts(cur@) == add_all(start, ms.subrange(0, i as int)),
                added as int == min(texts(cur@).len() - start.len(), i64::MAX as int),
                texts(cur@).len() >= start.len(),
            decreases members@.len() - i,
        {
            let ghost before = texts(cur@);
            assert(ms.subrange(0, i + 1).drop_last() == ms.subrange(0, i as int));
            assert(ms.subrange(0, i + 1).last() == members@[i as int]@);
            if !contains_text(&cur, &members[i]) {
                let m = members[i].clone();
                cur.push(m);
                assert(texts(cur@) == before.push(members@[i as int]@));
                if added < i64::MAX {
                    added = added + 1;
                }
            }
            i += 1;
        }
        assert(ms.subrange(0, members@.len() as int) == ms);
        set_insert(&mut self.sis, key, cur);
        added
    }

    /// 1 when `member` is in the set under `key`, else 0.
    pub fn sismember(&self, key: String, member: String) -> (r: i64)
        ensures
            r == (if members_of(self.sets(), key@).contains(member@) {
                1i64
            } else {
                0i64
            }),
    {
        match set_get(&self.sis, key.as_str()) {
            Some(v) => if contains_text(&v, &member) {
                1
            } else {
                0
            },
            None => 0,
        }
    }
}

impl Default for Backend {
    fn default() -> (r: Self)
        ensures
            r.wf(),
            r.flat().dom() == Set::<Seq<char>>::empty(),
            r.hashes().dom() == Set::<Seq<char>>::empty(),
            r.sets().dom() == Set::<Seq<char>>::empty(),
    {
        Backend::new()
    }
}

proof fn lemma_push_distinct(s: Seq<Seq<char>>, m: Seq<char>)
    requires
        s.no_duplicates(),
        !s.contains(m),
    ensures
        s.push(m).no_duplicates(),
{
    let after = s.push(m);
    assert forall|i: int, j: int|
        0 <= i < after.len() && 0 <= j < after.len() && i != j implies after[i] != after[j] by {
        if i < s.len() && j < s.len() {
            assert(after[i] == s[i] && after[j] == s[j]);
        } else if i < s.len() {
            assert(after[i] == s[i]);
        } else if j < s.len() {
            assert(after[j] == s[j]);
        }
    }
}

/// Adding members keeps a set's members distinct.
pub proof fn lemma_add_all_distinct(s: Seq<Seq<char>>, ms: Seq<Seq<char>>)
    requires
        s.no_duplicates(),
    ensures
        add_all(s, ms).no_duplicates(),
    decreases ms.len(),
{
    if ms.len() > 0 {
        lemma_add_all_distinct(s, ms.drop_last());
        let t = add_all(s, ms.drop_last());
        if !t.contains(ms.last()) {
            lemma_push_distinct(t, ms.last());
        }
    }
}

/// Setting a key twice to the same value and then reading it gives that
/// value: the second `set` leaves the store as the first one left it.
pub proof fn set_twice_then_get(b0: Backend, b1: Backend, b2: Backend, k: Seq<char>, v: Value)
    requires
        b1.flat() == b0.flat().insert(k, v),
        b2.flat() == b1.flat().insert(k, v),
    ensures
        b2.flat() == b1.flat(),
        b2.flat().contains_key(k),
        b2.flat()[k] == v,
{
    assert(b2.flat() =~= b1.flat());
}

/// Adding the same single member twice: the second `sadd` adds nothing (its
/// count is 0), and the member is then in the set exactly once.
pub proof fn sadd_twice(b0: Backend, b1: Backend, k: Seq<char>, m: Seq<char>)
    requires
        b0.wf(),
        b1.sets() == b0.sets().insert(k, add_all(members_of(b0.sets(), k), seq![m])),
    ensures
        add_all(members_of(b1.sets(), k), seq![m]) == members_of(b1.sets(), k),
        add_all(members_of(b1.sets(), k), seq![m]).len() - members_of(b1.sets(), k).len() == 0,
        members_of(b1.sets(), k).contains(m),
        members_of(b1.sets(), k).no_duplicates(),
        members_of(b1.sets(), k).filter(|x: Seq<char>| x == m).len() == 1,
{
    let one = seq![m];
    assert(one.drop_last() == Seq::<Seq<char>>::empty());
    let s0 = members_of(b0.sets(), k);
    let s1 = add_all(s0, one);
    assert(add_all(s0, one.drop_last()) == s0);
    if !s0.contains(m) {
        assert(s1 == s0.push(m));
        assert(s1[s1.len() - 1] == m);
    }
    assert(s1.contains(m));
    assert(members_of(b1.sets(), k) == s1);
    assert(add_all(s1, one.drop_last()) == s1);
    assert(s0.no_duplicates()) by {
        if b0.sets().contains_key(k) {
            assert(b0.sets()[k].no_duplicates());
        }
    }
    lemma_add_all_distinct(s0, one);
    lemma_once(s1, m);
}

/// A member of a sequence without duplicates occurs in it exactly once.
proof fn lemma_once(s: Seq<Seq<char>>, m: Seq<char>)
    requires
        s.no_duplicates(),
        s.contains(m),
    ensures
        s.filter(|x: Seq<char>| x == m).len() == 1,
    decreases s.len(),
{
    let f = |x: Seq<char>| x == m;
    reveal(Seq::filter);
    let p = s.drop_last();
    assert(p.no_duplicates()) by {
        assert forall|i: int, j: int| 0 <= i < p.len() && 0 <= j < p.len() && i != j implies p[i] != p[j] by {
            assert(p[i] == s[i] && p[j] == s[j]);
        }
    }
    if s.last() == m {
        assert(!p.contains(m)) by {
            if p.contains(m) {
                let i = choose|i: int| 0 <= i < p.len() && p[i] == m;
                assert(s[i] == s[s.len() - 1]);
            }
        }
        lemma_filter_none(p, m);
    } else {
        let i = choose|i: int| 0 <= i < s.len() && s[i] == m;
        assert(p[i] == m);
        lemma_once(p, m);
    }
}

proof fn lemma_filter_none(s: Seq<Seq<char>>, m: Seq<char>)
    requires
        !s.contains(m),
    ensures
        s.filter(|x: Seq<char>| x == m).len() == 0,
    decreases s.len(),
{
    reveal(Seq::filter);
    if s.len() > 0 {
        assert(!s.drop_last().contains(m)) by {
            if s.drop_last().contains(m) {
                let i = choose|i: int| 0 <= i < s.drop_last().len() && s.drop_last()[i] == m;
                assert(s[i] == m);
            }
        }
        assert(s.last() != m);
        lemma_filter_none(s.drop_last(), m);
    }
}

/// Whether `v` holds a string with the text of `s`.
fn contains_text(v: &Vec<String>, s: &String) -> (r: bool)
    ensures
        r == texts(v@).contains(s@),
{
    let mut i: usize = 0;
    while i < v.len()
        invariant
            i <= v@.len(),
            forall|j: int| 0 <= j < i ==> v@[j]@ != s@,
        decreases v@.len() - i,
    {
        if v[i] == *s {
            assert(texts(v@)[i as int] == s@);
            return true;
        }
        i += 1;
    }
    assert(!texts(v@).contains(s@)) by {
        assert forall|j: int| 0 <= j < texts(v@).len() implies texts(v@)[j] != s@ by {
            assert(texts(v@)[j] == v@[j]@);
        }
    }
    false
}

} // verus!
