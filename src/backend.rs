use vstd::prelude::*;
use dashmap::{DashMap, DashSet};
use crate::frame::{FrameV, RespFrame};

verus! {

#[verifier::external_type_specification]
#[verifier::external_body]
#[verifier::reject_recursive_types(K)]
#[verifier::reject_recursive_types(V)]
#[verifier::reject_recursive_types(S)]
pub struct ExDashMap<K, V, S>(DashMap<K, V, S>);

#[verifier::external_type_specification]
#[verifier::external_body]
#[verifier::reject_recursive_types(K)]
#[verifier::reject_recursive_types(S)]
pub struct ExDashSet<K, S>(DashSet<K, S>);

/// Key to value.
pub type StringStore = DashMap<String, RespFrame>;

/// Key to (field to value).
pub type HashStore = DashMap<String, DashMap<String, RespFrame>>;

/// Key to members.
pub type SetStore = DashMap<String, DashSet<String>>;

/// What the string store holds: key to value.
pub uninterp spec fn strings_of(m: DashMap<String, RespFrame>) -> Map<Seq<char>, FrameV>;

/// What the hash store holds: key to (field to value).
pub uninterp spec fn hashes_of(m: DashMap<String, DashMap<String, RespFrame>>) -> Map<
    Seq<char>,
    Map<Seq<char>, FrameV>,
>;

/// What the set store holds: key to members.
pub uninterp spec fn sets_of(m: DashMap<String, DashSet<String>>) -> Map<Seq<char>, Set<Seq<char>>>;

/// Relies on `DashMap::new`: a new map is empty.
#[verifier::external_body]
fn new_string_store() -> (r: StringStore)
    ensures
        strings_of(r).dom() == Set::<Seq<char>>::empty(),
{
    DashMap::new()
}

/// Relies on `DashMap::new`: a new map is empty.
#[verifier::external_body]
fn new_hash_store() -> (r: HashStore)
    ensures
        hashes_of(r).dom() == Set::<Seq<char>>::empty(),
{
    DashMap::new()
}

/// Relies on `DashMap::new`: a new map is empty.
#[verifier::external_body]
fn new_set_store() -> (r: SetStore)
    ensures
        sets_of(r).dom() == Set::<Seq<char>>::empty(),
{
    DashMap::new()
}

/// Relies on `DashMap::get`: the value stored under the key, if any (copied out).
#[verifier::external_body]
fn string_get(m: &DashMap<String, RespFrame>, key: &str) -> (r: Option<RespFrame>)
    ensures
        match r {
            Some(v) => strings_of(*m).contains_key(key@) && v@ == strings_of(*m)[key@],
            None => !strings_of(*m).contains_key(key@),
        },
{
    m.get(key).map(|v| v.duplicate())
}

/// Relies on `DashMap::insert`: the key now maps to the value, the rest is kept.
#[verifier::external_body]
fn string_set(m: &mut DashMap<String, RespFrame>, key: String, value: RespFrame)
    ensures
        strings_of(*final(m)) == strings_of(*old(m)).insert(key@, value@),
{
    m.insert(key, value);
}

/// Relies on `DashMap::get`, on the outer map and then on the key's hash: the
/// field's value, if the key and the field are there.
#[verifier::external_body]
fn hash_get(m: &DashMap<String, DashMap<String, RespFrame>>, key: &str, field: &str) -> (r: Option<
    RespFrame,
>)
    ensures
        match r {
            Some(v) => hashes_of(*m).contains_key(key@) && hashes_of(*m)[key@].contains_key(field@)
                && v@ == hashes_of(*m)[key@][field@],
            None => !(hashes_of(*m).contains_key(key@) && hashes_of(*m)[key@].contains_key(
                field@,
            )),
        },
{
    m.get(key).and_then(|h| h.get(field).map(|v| v.duplicate()))
}

/// Relies on `DashMap::entry(..).or_default()` and `DashMap::insert`: the key's
/// hash is created empty when missing, then the field is set.
#[verifier::external_body]
fn hash_set(
    m: &mut DashMap<String, DashMap<String, RespFrame>>,
    key: String,
    field: String,
    value: RespFrame,
)
    ensures
        hashes_of(*final(m)) == hashes_of(*old(m)).insert(
            key@,
            hash_or_empty(hashes_of(*old(m)), key@).insert(field@, value@),
        ),
{
    m.entry(key).or_default().insert(field, value);
}

/// Relies on `DashMap::get` and `DashMap::iter`: the fields and values of the
/// key's hash, in no particular order, if the key is there.
#[verifier::external_body]
fn hash_entries(m: &DashMap<String, DashMap<String, RespFrame>>, key: &str) -> (r: Option<
    Vec<(String, RespFrame)>,
>)
    ensures
        match r {
            Some(v) => hashes_of(*m).contains_key(key@) && entries_match(
                v@,
                hashes_of(*m)[key@],
            ),
            None => !hashes_of(*m).contains_key(key@),
        },
{
    m.get(key).map(|h| h.iter().map(|e| (e.key().clone(), e.value().duplicate())).collect())
}

/// Relies on `DashMap::entry(..).or_default()` and `DashSet::insert`: the key's
/// set is created empty when missing; `true` when the member was not in it.
#[verifier::external_body]
fn set_add(m: &mut DashMap<String, DashSet<String>>, key: String, member: String) -> (r: bool)
    ensures
        sets_of(*final(m)) == sets_of(*old(m)).insert(
            key@,
            set_or_empty(sets_of(*old(m)), key@).insert(member@),
        ),
        r == !set_or_empty(sets_of(*old(m)), key@).contains(member@),
        set_or_empty(sets_of(*old(m)), key@).finite(),
{
    m.entry(key).or_default().insert(member)
}

/// Relies on `DashMap::get` and `DashSet::contains`: whether the key's set holds the member.
#[verifier::external_body]
fn set_contains(m: &DashMap<String, DashSet<String>>, key: &str, member: &str) -> (r: bool)
    ensures
        r == set_or_empty(sets_of(*m), key@).contains(member@),
{
    m.get(key).map_or(false, |s| s.contains(member))
}

/// Relies on `DashMap::get` and `DashSet::iter`: the members of the key's
/// set, each once, in no particular order, if the key is there.
#[verifier::external_body]
fn set_members(m: &SetStore, key: &str) -> (r: Option<Vec<String>>)
    ensures
        match r {
            Some(v) => sets_of(*m).contains_key(key@) && members_match(v@, sets_of(*m)[key@]),
            None => !sets_of(*m).contains_key(key@),
        },
{
    m.get(key).map(|s| s.iter().map(|e| e.key().clone()).collect())
}

/// The strings are exactly the set's members, each once.
pub open spec fn members_match(v: Seq<String>, s: Set<Seq<char>>) -> bool {
    &&& v.len() == s.len()
    &&& forall|i: int| 0 <= i < v.len() ==> s.contains(#[trigger] v[i]@)
    &&& forall|i: int, j: int| 0 <= i < j < v.len() ==> #[trigger] v[i]@ != #[trigger] v[j]@
}

/// The hash under `key`, or an empty one.
pub open spec fn hash_or_empty(h: Map<Seq<char>, Map<Seq<char>, FrameV>>, key: Seq<char>) -> Map<
    Seq<char>,
    FrameV,
> {
    if h.contains_key(key) {
        h[key]
    } else {
        Map::empty()
    }
}

/// The set under `key`, or an empty one.
pub open spec fn set_or_empty(s: Map<Seq<char>, Set<Seq<char>>>, key: Seq<char>) -> Set<Seq<char>> {
    if s.contains_key(key) {
        s[key]
    } else {
        Set::empty()
    }
}

/// The pairs are exactly the hash's fields, each once, with their values.
pub open spec fn entries_match(v: Seq<(String, RespFrame)>, h: Map<Seq<char>, FrameV>) -> bool {
    &&& v.len() == h.dom().len()
    &&& forall|i: int| 0 <= i < v.len() ==> h.contains_key(#[trigger] v[i].0@) && h[v[i].0@] == v[i].1@
    &&& forall|i: int, j: int| 0 <= i < j < v.len() ==> #[trigger] v[i].0@ != #[trigger] v[j].0@
}

/// The storage that commands run against: strings, hashes and sets, each
/// keyed by name.
pub struct Backend {
    map: DashMap<String, RespFrame>,
    hmap: DashMap<String, DashMap<String, RespFrame>>,
    set: DashMap<String, DashSet<String>>,
}

impl Backend {
    pub closed spec fn strings(&self) -> Map<Seq<char>, FrameV> {
        strings_of(self.map)
    }

    pub closed spec fn hashes(&self) -> Map<Seq<char>, Map<Seq<char>, FrameV>> {
        hashes_of(self.hmap)
    }

    pub closed spec fn sets(&self) -> Map<Seq<char>, Set<Seq<char>>> {
        sets_of(self.set)
    }

    /// An empty store.
    pub fn new() -> (r: Backend)
        ensures
            r.strings().dom() == Set::<Seq<char>>::empty(),
            r.hashes().dom() == Set::<Seq<char>>::empty(),
            r.sets().dom() == Set::<Seq<char>>::empty(),
    {
        Backend { map: new_string_store(), hmap: new_hash_store(), set: new_set_store() }
    }

    /// The value stored under `key`.
    pub fn get(&self, key: &str) -> (r: Option<RespFrame>)
        ensures
            match r {
                Some(v) => self.strings().contains_key(key@) && v@ == self.strings()[key@],
                None => !self.strings().contains_key(key@),
            },
    {
        string_get(&self.map, key)
    }

    /// Stores `value` under `key`, replacing what was there.
    pub fn set(&mut self, key: String, value: RespFrame)
        ensures
            final(self).strings() == old(self).strings().insert(key@, value@),
            final(self).hashes() == old(self).hashes(),
            final(self).sets() == old(self).sets(),
    {
        string_set(&mut self.map, key, value)
    }

    /// The value of `field` in the hash under `key`.
    pub fn hget(&self, key: &str, field: &str) -> (r: Option<RespFrame>)
        ensures
            match r {
                Some(v) => self.hashes().contains_key(key@) && self.hashes()[key@].contains_key(
                    field@,
                ) && v@ == self.hashes()[key@][field@],
                None => !(self.hashes().contains_key(key@) && self.hashes()[key@].contains_key(
                    field@,
                )),
            },
    {
        hash_get(&self.hmap, key, field)
    }

    /// The fields and values of the hash under `key`, in no particular order.
    pub fn hgetall(&self, key: &str) -> (r: Option<Vec<(String, RespFrame)>>)
        ensures
            match r {
                Some(v) => self.hashes().contains_key(key@) && entries_match(
                    v@,
                    self.hashes()[key@],
                ),
                None => !self.hashes().contains_key(key@),
            },
    {
        hash_entries(&self.hmap, key)
    }

    /// Sets `field` to `value` in the hash under `key`, creating the hash if needed.
    pub fn hset(&mut self, key: String, field: String, value: RespFrame)
        ensures
            final(self).hashes() == old(self).hashes().insert(
                key@,
                hash_or_empty(old(self).hashes(), key@).insert(field@, value@),
            ),
            final(self).strings() == old(self).strings(),
            final(self).sets() == old(self).sets(),
    {
        hash_set(&mut self.hmap, key, field, value)
    }

    /// For each field in order, its value in the hash under `key`, if any.
    pub fn hmget(&self, key: &str, fields: &Vec<String>) -> (r: Vec<Option<RespFrame>>)
        ensures
            r@.len() == fields@.len(),
            forall|i: int| 0 <= i < fields@.len() ==> match #[trigger] r@[i] {
                Some(v) => self.hashes().contains_key(key@) && self.hashes()[key@].contains_key(
                    fields@[i]@,
                ) && v@ == self.hashes()[key@][fields@[i]@],
                None => !(self.hashes().contains_key(key@) && self.hashes()[key@].contains_key(
                    fields@[i]@,
                )),
            },
    {
        let mut out: Vec<Option<RespFrame>> = Vec::new();
        let mut i: usize = 0;
        while i < fields.len()
            invariant
                i <= fields@.len(),
                out@.len() == i,
                forall|j: int| 0 <= j < i ==> match #[trigger] out@[j] {
                    Some(v) => self.hashes().contains_key(key@) && self.hashes()[key@].contains_key(
                        fields@[j]@,
                    ) && v@ == self.hashes()[key@][fields@[j]@],
                    None => !(self.hashes().contains_key(key@) && self.hashes()[key@].contains_key(
                        fields@[j]@,
                    )),
                },
            decreases fields.len() - i,
        {
            let v = self.hget(key, fields[i].as_str());
            out.push(v);
            i = i + 1;
        }
        out
    }

    /// Adds each member to the set under `key`, creating the set if needed;
    /// the number of members that were not there before.
    #[verifier::spinoff_prover]
    pub fn sadd(&mut self, key: String, members: Vec<String>) -> (r: usize)
        ensures
            members@.len() > 0 ==> final(self).sets() == old(self).sets().insert(
                key@,
                set_or_empty(old(self).sets(), key@).union(members_of(members@)),
            ),
            members@.len() == 0 ==> final(self).sets() == old(self).sets(),
            r == set_or_empty(old(self).sets(), key@).union(members_of(members@)).len()
                - set_or_empty(old(self).sets(), key@).len(),
            final(self).strings() == old(self).strings(),
            final(self).hashes() == old(self).hashes(),
    {
        let ghost before = set_or_empty(old(self).sets(), key@);
        let ghost k = key@;
        let mut added: usize = 0;
        let mut i: usize = 0;
        proof {
            assert(members_of(members@.subrange(0, 0)) =~= Set::<Seq<char>>::empty());
            assert(before.union(Set::empty()) =~= before);
        }
        let n = members.len();
        let mut rest = members;
        /* the members are taken from the front, one at a time */
        while i < n
            invariant
                i <= n,
                n == members@.len(),
                rest@ == members@.subrange(i as int, n as int),
                k == key@,
                before == set_or_empty(old(self).sets(), k),
                i > 0 ==> before.finite(),
                self.strings() == old(self).strings(),
                self.hashes() == old(self).hashes(),
                i == 0 ==> self.sets() == old(self).sets(),
                i > 0 ==> self.sets() == old(self).sets().insert(
                    k,
                    before.union(members_of(members@.subrange(0, i as int))),
                ),
                added == before.union(members_of(members@.subrange(0, i as int))).len() - before.len(),
                added <= i,
            decreases n - i,
        {
            let m = rest.remove(0);
            let ghost cur = before.union(members_of(members@.subrange(0, i as int)));
            let ghost pre = self.sets();
            proof {
                if i == 0 {
                    assert(members_of(members@.subrange(0, 0)) =~= Set::<Seq<char>>::empty());
                    assert(cur =~= before);
                }
                assert(set_or_empty(pre, k) == cur);
            }
            let fresh = set_add(&mut self.set, key.clone(), m);
            proof {
                assert(members@.subrange(0, i as int + 1) =~= members@.subrange(0, i as int).push(
                    members@[i as int],
                ));
                lemma_members_push(members@.subrange(0, i as int), members@[i as int]);
                assert(cur.insert(members@[i as int]@) =~= before.union(
                    members_of(members@.subrange(0, i as int + 1)),
                ));
                assert(self.sets() =~= old(self).sets().insert(k, cur.insert(members@[i as int]@)));
                vstd::set_lib::lemma_set_union_finite_implies_sets_finite(
                    before,
                    members_of(members@.subrange(0, i as int)),
                );
                if !fresh {
                    assert(cur.insert(members@[i as int]@) =~= cur);
                }
            }
            if fresh {
                added = added + 1;
            }
            i = i + 1;
        }
        proof {
            assert(members@.subrange(0, n as int) =~= members@);
            if n == 0 {
                assert(members_of(members@) =~= Set::<Seq<char>>::empty());
                assert(before.union(Set::empty()) =~= before);
            }
        }
        added
    }

    /// The members of the set under `key`, in no particular order.
    pub fn smembers(&self, key: &str) -> (r: Option<Vec<String>>)
        ensures
            match r {
                Some(v) => self.sets().contains_key(key@) && members_match(v@, self.sets()[key@]),
                None => !self.sets().contains_key(key@),
            },
    {
        set_members(&self.set, key)
    }

    /// Whether the set under `key` holds `member`.
    pub fn sismember(&self, key: &str, member: &str) -> (r: bool)
        ensures
            r == set_or_empty(self.sets(), key@).contains(member@),
    {
        set_contains(&self.set, key, member)
    }
}

/// The texts of a list of strings, as a set.
pub open spec fn members_of(s: Seq<String>) -> Set<Seq<char>> {
    Set::new(|t: Seq<char>| exists|i: int| 0 <= i < s.len() && s[i]@ == t)
}

proof fn lemma_members_push(s: Seq<String>, x: String)
    ensures
        members_of(s.push(x)) == members_of(s).insert(x@),
{
    let t = s.push(x);
    assert forall|c: Seq<char>| #[trigger] members_of(t).contains(c) <==> members_of(s).insert(
        x@,
    ).contains(c) by {
        if members_of(t).contains(c) {
            let i = choose|i: int| 0 <= i < t.len() && t[i]@ == c;
            if i < s.len() {
                assert(s[i]@ == c);
            }
        }
        if members_of(s).contains(c) {
            let i = choose|i: int| 0 <= i < s.len() && s[i]@ == c;
            assert(t[i]@ == c);
        }
        if c == x@ {
            assert(t[s.len() as int]@ == c);
        }
    }
    assert(members_of(t) =~= members_of(s).insert(x@));
}

} // verus!
