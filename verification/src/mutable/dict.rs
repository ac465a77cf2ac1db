//! A mutable Dict: entries sorted by key, each key a shared key's number or a string.
use crate::encoder::encodable::Encodable;
use crate::mutable::array::MutableArray;
use crate::mutable::{share_keys, slot_copies, ValueSlot};
use crate::scope::Scope;
use crate::shared_keys::{kept, SharedKeys};
use crate::value::array::Array;
use crate::value::dict::{
    compare_bytes, lemma_lex_order_antisymmetric, lemma_lex_order_equal, lemma_lex_order_transitive,
    lex_order, Dict,
};
use crate::value::{Value, ValueType};
use std::sync::Arc;
use crate::value::value_type::type_of_byte;
use vstd::prelude::*;
use vstd::string::StringSliceAdditionalSpecFns;
use vstd::utf8::encode_utf8;

verus! {

/// A key as the order of the entries sees it: a shared key's number, or a string's bytes.
pub enum KeyModel {
    Shared(u16),
    Text(Seq<u8>),
}

/// The order of keys: -1, 0 or 1. Shared keys come first, by number; strings after, by their
/// bytes.
pub open spec fn key_order(a: KeyModel, b: KeyModel) -> int {
    match (a, b) {
        (KeyModel::Shared(x), KeyModel::Shared(y)) => if x < y {
            -1
        } else if x == y {
            0
        } else {
            1
        },
        (KeyModel::Shared(_), KeyModel::Text(_)) => -1,
        (KeyModel::Text(_), KeyModel::Shared(_)) => 1,
        (KeyModel::Text(x), KeyModel::Text(y)) => lex_order(x, y),
    }
}

pub open spec fn key_lt(a: KeyModel, b: KeyModel) -> bool {
    key_order(a, b) < 0
}

/// Swapping two keys negates their order; keys in order 0 are the same.
pub proof fn lemma_key_order(a: KeyModel, b: KeyModel)
    ensures
        key_order(a, b) == -key_order(b, a),
        key_order(a, b) == 0 <==> a == b,
        -1 <= key_order(a, b) <= 1,
{
    if let (KeyModel::Text(x), KeyModel::Text(y)) = (a, b) {
        lemma_lex_order_antisymmetric(x, y);
        lemma_lex_order_equal(x, y);
    }
}

/// The order of keys is transitive.
pub proof fn lemma_key_lt_transitive(a: KeyModel, b: KeyModel, c: KeyModel)
    requires
        key_lt(a, b),
        key_lt(b, c),
    ensures
        key_lt(a, c),
{
    if let (KeyModel::Text(x), KeyModel::Text(y), KeyModel::Text(z)) = (a, b, c) {
        lemma_lex_order_transitive(x, y, z);
    }
}

/// The entries' keys rise strictly.
pub open spec fn sorted_keys(s: Seq<(KeyModel, ValueSlot)>) -> bool {
    forall|i: int, j: int| 0 <= i < j < s.len() ==> key_lt(#[trigger] s[i].0, #[trigger] s[j].0)
}

/// The place of an entry of `s` with the key `k`, where there is one.
pub open spec fn key_index(s: Seq<(KeyModel, ValueSlot)>, k: KeyModel) -> int {
    choose|i: int| 0 <= i < s.len() && s[i].0 == k
}

/// The map from the keys of the entries `s` to their slots.
pub open spec fn map_of(s: Seq<(KeyModel, ValueSlot)>) -> Map<KeyModel, ValueSlot> {
    Map::new(|k: KeyModel| exists|i: int| 0 <= i < s.len() && s[i].0 == k, |k: KeyModel| s[key_index(s, k)].1)
}

/// In sorted entries, the key of each entry maps to its slot.
pub proof fn lemma_map_of_entry(s: Seq<(KeyModel, ValueSlot)>, i: int)
    requires
        sorted_keys(s),
        0 <= i < s.len(),
    ensures
        map_of(s).contains_key(s[i].0),
        map_of(s)[s[i].0] == s[i].1,
{
    let k = s[i].0;
    assert(exists|j: int| 0 <= j < s.len() && s[j].0 == k);
    let j = key_index(s, k);
    if j != i {
        if j < i {
            assert(key_lt(s[j].0, s[i].0));
        } else {
            assert(key_lt(s[i].0, s[j].0));
        }
        lemma_key_order(s[i].0, s[j].0);
    }
}

/// A key of the map is the key of some entry.
pub proof fn lemma_map_of_key(s: Seq<(KeyModel, ValueSlot)>, k: KeyModel)
    requires
        map_of(s).contains_key(k),
    ensures
        exists|i: int| 0 <= i < s.len() && s[i].0 == k,
{
}

/// Replacing the slot of an entry maps its key to the new slot.
pub proof fn lemma_map_of_update(s: Seq<(KeyModel, ValueSlot)>, i: int, v: ValueSlot)
    requires
        sorted_keys(s),
        0 <= i < s.len(),
    ensures
        sorted_keys(s.update(i, (s[i].0, v))),
        map_of(s.update(i, (s[i].0, v))) == map_of(s).insert(s[i].0, v),
{
    let t = s.update(i, (s[i].0, v));
    assert forall|a: int, b: int| 0 <= a < b < t.len() implies key_lt(#[trigger] t[a].0, #[trigger] t[b].0) by {
        assert(key_lt(s[a].0, s[b].0));
    }
    let m = map_of(s).insert(s[i].0, v);
    assert forall|k: KeyModel| #[trigger] map_of(t).contains_key(k) <==> m.contains_key(k) by {
        if map_of(t).contains_key(k) {
            let j = choose|j: int| 0 <= j < t.len() && t[j].0 == k;
            lemma_map_of_entry(s, j);
        }
        if m.contains_key(k) && k != s[i].0 {
            lemma_map_of_key(s, k);
            let j = choose|j: int| 0 <= j < s.len() && s[j].0 == k;
            assert(t[j].0 == k);
        }
        if k == s[i].0 {
            assert(t[i].0 == k);
        }
    }
    assert forall|k: KeyModel| #[trigger] map_of(t).contains_key(k) implies map_of(t)[k] == m[k] by {
        let j = choose|j: int| 0 <= j < t.len() && t[j].0 == k;
        lemma_map_of_entry(t, j);
        if j != i {
            lemma_map_of_entry(s, j);
            lemma_key_order(s[i].0, s[j].0);
            if j < i {
                assert(key_lt(s[j].0, s[i].0));
            } else {
                assert(key_lt(s[i].0, s[j].0));
            }
        }
    }
    assert(map_of(t) =~= m);
}

/// An entry inserted where its key goes: the keys still rise, and the key maps to its slot.
pub proof fn lemma_map_of_insert(s: Seq<(KeyModel, ValueSlot)>, p: int, e: (KeyModel, ValueSlot))
    requires
        sorted_keys(s),
        0 <= p <= s.len(),
        forall|i: int| 0 <= i < p ==> key_lt(#[trigger] s[i].0, e.0),
        forall|i: int| p <= i < s.len() ==> key_lt(e.0, #[trigger] s[i].0),
    ensures
        sorted_keys(s.insert(p, e)),
        map_of(s.insert(p, e)) == map_of(s).insert(e.0, e.1),
{
    let t = s.insert(p, e);
    assert forall|a: int, b: int| 0 <= a < b < t.len() implies key_lt(#[trigger] t[a].0, #[trigger] t[b].0) by {
        if a < p && b < p {
            assert(key_lt(s[a].0, s[b].0));
        } else if a < p && b == p {
        } else if a < p {
            assert(key_lt(s[a].0, s[b - 1].0));
        } else if a == p {
            assert(key_lt(e.0, s[b - 1].0));
        } else {
            assert(key_lt(s[a - 1].0, s[b - 1].0));
        }
    }
    let m = map_of(s).insert(e.0, e.1);
    assert forall|k: KeyModel| #[trigger] map_of(t).contains_key(k) <==> m.contains_key(k) by {
        if map_of(t).contains_key(k) {
            let j = choose|j: int| 0 <= j < t.len() && t[j].0 == k;
            if j < p {
                lemma_map_of_entry(s, j);
            } else if j > p {
                lemma_map_of_entry(s, j - 1);
            }
        }
        if m.contains_key(k) && k != e.0 {
            lemma_map_of_key(s, k);
            let j = choose|j: int| 0 <= j < s.len() && s[j].0 == k;
            if j < p {
                assert(t[j].0 == k);
            } else {
                assert(t[j + 1].0 == k);
            }
        }
        if k == e.0 {
            assert(t[p].0 == k);
        }
    }
    assert forall|k: KeyModel| #[trigger] map_of(t).contains_key(k) implies map_of(t)[k] == m[k] by {
        let j = choose|j: int| 0 <= j < t.len() && t[j].0 == k;
        lemma_map_of_entry(t, j);
        if j < p {
            lemma_map_of_entry(s, j);
            lemma_key_order(s[j].0, e.0);
        } else if j > p {
            lemma_map_of_entry(s, j - 1);
            lemma_key_order(e.0, s[j - 1].0);
        }
    }
    assert(map_of(t) =~= m);
}

/// A removed entry takes its key out of the map.
pub proof fn lemma_map_of_remove(s: Seq<(KeyModel, ValueSlot)>, i: int)
    requires
        sorted_keys(s),
        0 <= i < s.len(),
    ensures
        sorted_keys(s.remove(i)),
        map_of(s.remove(i)) == map_of(s).remove(s[i].0),
{
    let t = s.remove(i);
    assert forall|a: int, b: int| 0 <= a < b < t.len() implies key_lt(#[trigger] t[a].0, #[trigger] t[b].0) by {
        let a0 = if a < i { a } else { a + 1 };
        let b0 = if b < i { b } else { b + 1 };
        assert(key_lt(s[a0].0, s[b0].0));
    }
    let m = map_of(s).remove(s[i].0);
    assert forall|k: KeyModel| #[trigger] map_of(t).contains_key(k) <==> m.contains_key(k) by {
        if map_of(t).contains_key(k) {
            let j = choose|j: int| 0 <= j < t.len() && t[j].0 == k;
            let j0 = if j < i { j } else { j + 1 };
            lemma_map_of_entry(s, j0);
            lemma_key_order(s[i].0, s[j0].0);
            if j0 < i {
                assert(key_lt(s[j0].0, s[i].0));
            } else {
                assert(key_lt(s[i].0, s[j0].0));
            }
        }
        if m.contains_key(k) {
            lemma_map_of_key(s, k);
            let j = choose|j: int| 0 <= j < s.len() && s[j].0 == k;
            if j < i {
                assert(t[j].0 == k);
            } else {
                assert(j != i);
                assert(t[j - 1].0 == k);
            }
        }
    }
    assert forall|k: KeyModel| #[trigger] map_of(t).contains_key(k) implies map_of(t)[k] == m[k] by {
        let j = choose|j: int| 0 <= j < t.len() && t[j].0 == k;
        lemma_map_of_entry(t, j);
        let j0 = if j < i { j } else { j + 1 };
        lemma_map_of_entry(s, j0);
    }
    assert(map_of(t) =~= m);
}

/// A key that falls between the entries before `p` and those from `p` on is no key of the
/// map.
pub proof fn lemma_map_of_absent(s: Seq<(KeyModel, ValueSlot)>, p: int, k: KeyModel)
    requires
        0 <= p <= s.len(),
        forall|i: int| 0 <= i < p ==> key_lt(#[trigger] s[i].0, k),
        forall|i: int| p <= i < s.len() ==> key_lt(k, #[trigger] s[i].0),
    ensures
        !map_of(s).contains_key(k),
{
    if map_of(s).contains_key(k) {
        let j = choose|j: int| 0 <= j < s.len() && s[j].0 == k;
        lemma_key_order(k, k);
        if j < p {
            assert(key_lt(s[j].0, k));
        } else {
            assert(key_lt(k, s[j].0));
        }
    }
}

/// A Dict key: a shared key's number, or a string.
pub enum Key {
    Shared(u16),
    String(String),
}

impl Key {
    pub open spec fn model(self) -> KeyModel {
        match self {
            Key::Shared(n) => KeyModel::Shared(n),
            Key::String(s) => KeyModel::Text(encode_utf8(s@)),
        }
    }
}

/// Compare two keys in the order of the entries.
fn compare_keys(a: &Key, b: &Key) -> (r: i8)
    ensures
        r == key_order(a.model(), b.model()),
{
    match (a, b) {
        (Key::Shared(x), Key::Shared(y)) => if *x < *y {
            -1
        } else if *x == *y {
            0
        } else {
            1
        },
        (Key::Shared(_), Key::String(_)) => -1,
        (Key::String(_), Key::Shared(_)) => 1,
        (Key::String(x), Key::String(y)) => compare_bytes(x.as_str().as_bytes(), y.as_str().as_bytes()),
    }
}

/// The key that `text` is stored under, with the shared keys `sk`: the number of its shared
/// key, where it is one, else the string.
pub open spec fn key_for(sk: Option<Arc<SharedKeys>>, text: Seq<u8>) -> KeyModel {
    match sk {
        Some(k) => if (*k)@.contains(kept(text)) {
            KeyModel::Shared((choose|i: int| 0 <= i < (*k)@.len() && (*k)@[i] == kept(text)) as u16)
        } else {
            KeyModel::Text(text)
        },
        None => KeyModel::Text(text),
    }
}

/// Entries sorted by key, and the shared keys that number keys.
pub struct MutableDict {
    entries: Vec<(Key, ValueSlot)>,
    shared_keys: Option<Arc<SharedKeys>>,
}

impl View for MutableDict {
    type V = Map<KeyModel, ValueSlot>;

    closed spec fn view(&self) -> Map<KeyModel, ValueSlot> {
        map_of(self.spec_entries())
    }
}

impl MutableDict {
    /// The entries, in the order of their keys.
    pub closed spec fn spec_entries(&self) -> Seq<(KeyModel, ValueSlot)> {
        self.entries@.map_values(|e: (Key, ValueSlot)| (e.0.model(), e.1))
    }

    pub closed spec fn spec_shared_keys(&self) -> Option<Arc<SharedKeys>> {
        self.shared_keys
    }

    /// The key that `text` is stored under here.
    pub open spec fn key_of(&self, text: Seq<u8>) -> KeyModel {
        key_for(self.spec_shared_keys(), text)
    }

    /// Where `text` is looked up as `key_of` says: without shared keys, or without zero bytes.
    pub open spec fn key_ok(&self, text: Seq<u8>) -> bool {
        self.spec_shared_keys() is None || !text.contains(0u8)
    }

    /// The keys rise strictly, and every slot is well formed.
    pub closed spec fn wf(self) -> bool
        decreases self,
    {
        &&& forall|i: int, j: int|
            0 <= i < j < self.entries@.len() ==> key_lt(
                (#[trigger] self.entries@[i]).0.model(),
                (#[trigger] self.entries@[j]).0.model(),
            )
        &&& forall|i: int| 0 <= i < self.entries@.len() ==> (#[trigger] self.entries@[i]).1.wf()
    }

    /// The view maps the key of each entry to its slot, and has no other keys.
    pub proof fn lemma_view(self)
        requires
            self.wf(),
        ensures
            sorted_keys(self.spec_entries()),
            forall|i: int|
                0 <= i < self.spec_entries().len() ==> (#[trigger] self.spec_entries()[i]).1.wf(),
            forall|i: int|
                0 <= i < self.spec_entries().len() ==> self@.contains_key(
                    (#[trigger] self.spec_entries()[i]).0,
                ) && self@[self.spec_entries()[i].0] == self.spec_entries()[i].1,
            forall|k: KeyModel|
                #[trigger] self@.contains_key(k) ==> exists|i: int|
                    0 <= i < self.spec_entries().len() && self.spec_entries()[i].0 == k,
    {
        let s = self.spec_entries();
        assert forall|i: int, j: int| 0 <= i < j < s.len() implies key_lt(#[trigger] s[i].0, #[trigger] s[j].0) by {
            assert(key_lt(self.entries@[i].0.model(), self.entries@[j].0.model()));
        }
        assert forall|i: int| 0 <= i < s.len() implies (#[trigger] s[i]).1.wf() by {
            assert(self.entries@[i].1.wf());
        }
        assert forall|i: int| 0 <= i < s.len() implies self@.contains_key((#[trigger] s[i]).0)
            && self@[s[i].0] == s[i].1 by {
            lemma_map_of_entry(s, i);
        }
    }
}

impl MutableDict {
    /// An empty Dict, without shared keys.
    pub fn new() -> (d: Self)
        ensures
            d.wf(),
            d@ == Map::<KeyModel, ValueSlot>::empty(),
            d.spec_entries().len() == 0,
            d.spec_shared_keys() is None,
    {
        let d = MutableDict { entries: Vec::new(), shared_keys: None };
        proof {
            assert(d@ =~= Map::<KeyModel, ValueSlot>::empty());
        }
        d
    }

    /// An empty Dict, whose keys `shared_keys` numbers where it can.
    pub fn new_with_shared_keys(shared_keys: Arc<SharedKeys>) -> (d: Self)
        ensures
            d.wf(),
            d@ == Map::<KeyModel, ValueSlot>::empty(),
            d.spec_entries().len() == 0,
            d.spec_shared_keys() == Some(shared_keys),
    {
        let d = MutableDict { entries: Vec::new(), shared_keys: Some(shared_keys) };
        proof {
            assert(d@ =~= Map::<KeyModel, ValueSlot>::empty());
        }
        d
    }

    /// The key `key` is stored under: the number of its shared key where it is one, else
    /// the string.
    fn encode_key(&self, key: &str) -> (k: Key)
        ensures
            self.key_ok(key.spec_bytes()) ==> k.model() == self.key_of(key.spec_bytes()),
    {
        if let Some(sk) = &self.shared_keys {
            if let Some(n) = sk.encode(key) {
                proof {
                    let t = kept(key.spec_bytes());
                    if !key.spec_bytes().contains(0u8) {
                        assert((**sk)@.contains(t));
                        let c = choose|i: int| 0 <= i < (**sk)@.len() && (**sk)@[i] == t;
                        assert(c == n);
                    }
                }
                return Key::Shared(n);
            }
        }
        let s = key.to_owned();
        proof {
            assert(s@ == key@);
        }
        Key::String(s)
    }

    /// Where the key `k` is, or would go: whether an entry has it, and the place of the first
    /// entry whose key is not below it.
    fn find(&self, k: &Key) -> (r: (bool, usize))
        requires
            self.wf(),
        ensures
            r.1 <= self.spec_entries().len(),
            forall|i: int| 0 <= i < r.1 ==> key_lt(#[trigger] self.spec_entries()[i].0, k.model()),
            r.0 ==> r.1 < self.spec_entries().len() && self.spec_entries()[r.1 as int].0 == k.model(),
            !r.0 ==> forall|i: int|
                r.1 <= i < self.spec_entries().len() ==> key_lt(k.model(), #[trigger] self.spec_entries()[i].0),
    {
        proof {
            self.lemma_view();
        }
        let ghost s = self.spec_entries();
        let n = self.entries.len();
        let mut lo: usize = 0;
        let mut hi: usize = n;
        while lo < hi
            invariant
                self.wf(),
                s == self.spec_entries(),
                sorted_keys(s),
                n == s.len(),
                lo <= hi <= n,
                forall|i: int| 0 <= i < lo ==> key_lt(#[trigger] s[i].0, k.model()),
                forall|i: int| hi <= i < n ==> key_lt(k.model(), #[trigger] s[i].0),
            decreases hi - lo,
        {
            let mid = lo + (hi - lo) / 2;
            let c = compare_keys(&self.entries[mid].0, k);
            proof {
                assert(s[mid as int].0 == self.entries@[mid as int].0.model());
                lemma_key_order(s[mid as int].0, k.model());
            }
            if c == 0 {
                return (true, mid);
            }
            if c < 0 {
                proof {
                    assert forall|i: int| 0 <= i < mid + 1 implies key_lt(#[trigger] s[i].0, k.model()) by {
                        if i < mid {
                            assert(key_lt(s[i].0, s[mid as int].0));
                            lemma_key_lt_transitive(s[i].0, s[mid as int].0, k.model());
                        }
                    }
                }
                lo = mid + 1;
            } else {
                proof {
                    assert forall|i: int| mid <= i < n implies key_lt(k.model(), #[trigger] s[i].0) by {
                        if i > mid {
                            assert(key_lt(s[mid as int].0, s[i].0));
                            lemma_key_lt_transitive(k.model(), s[mid as int].0, s[i].0);
                        }
                    }
                }
                hi = mid;
            }
        }
        (false, lo)
    }
}

impl Clone for Key {
    fn clone(&self) -> (c: Self)
        ensures
            c.model() == self.model(),
    {
        match self {
            Key::Shared(n) => Key::Shared(*n),
            Key::String(s) => Key::String(s.clone()),
        }
    }
}

impl MutableDict {
    /// Sorted entries whose slots are well formed make a well-formed Dict.
    proof fn lemma_wf_from(self)
        requires
            sorted_keys(self.spec_entries()),
            forall|i: int| 0 <= i < self.spec_entries().len() ==> (#[trigger] self.spec_entries()[i]).1.wf(),
        ensures
            self.wf(),
    {
        let s = self.spec_entries();
        assert forall|i: int, j: int| 0 <= i < j < self.entries@.len() implies key_lt(
            (#[trigger] self.entries@[i]).0.model(),
            (#[trigger] self.entries@[j]).0.model(),
        ) by {
            assert(key_lt(s[i].0, s[j].0));
        }
        assert forall|i: int| 0 <= i < self.entries@.len() implies (#[trigger] self.entries@[i]).1.wf() by {
            assert(s[i].1.wf());
        }
    }

    /// Put `slot` under `key`: in place of the entry with the same key, or as a new entry
    /// where its key goes.
    fn insert_slot(&mut self, key: Key, slot: ValueSlot)
        requires
            old(self).wf(),
            slot.wf(),
        ensures
            final(self).wf(),
            final(self)@ == old(self)@.insert(key.model(), slot),
            final(self).spec_shared_keys() == old(self).spec_shared_keys(),
    {
        let (found, i) = self.find(&key);
        let ghost s = self.spec_entries();
        let ghost km = key.model();
        proof {
            self.lemma_view();
        }
        if found {
            self.entries.set(i, (key, slot));
            proof {
                assert(self.spec_entries() =~= s.update(i as int, (s[i as int].0, slot)));
                lemma_map_of_update(s, i as int, slot);
                assert forall|j: int| 0 <= j < self.spec_entries().len() implies (#[trigger] self.spec_entries()[j]).1.wf() by {
                    if j != i {
                        assert(s[j].1.wf());
                    }
                }
                self.lemma_wf_from();
            }
        } else {
            self.entries.insert(i, (key, slot));
            proof {
                assert(self.spec_entries() =~= s.insert(i as int, (km, slot)));
                lemma_map_of_insert(s, i as int, (km, slot));
                assert forall|j: int| 0 <= j < self.spec_entries().len() implies (#[trigger] self.spec_entries()[j]).1.wf() by {
                    if j < i {
                        assert(s[j].1.wf());
                    } else if j > i {
                        assert(s[j - 1].1.wf());
                    }
                }
                self.lemma_wf_from();
            }
        }
    }

    /// The number of entries.
    pub fn len(&self) -> (n: usize)
        ensures
            n == self.spec_entries().len(),
    {
        self.entries.len()
    }

    pub fn is_empty(&self) -> (b: bool)
        ensures
            b == (self.spec_entries().len() == 0),
    {
        self.entries.len() == 0
    }

    /// The value under `key`, if there is one there (not a mutable collection).
    pub fn get(&self, key: &str) -> (r: Option<Value<'_>>)
        requires
            self.wf(),
        ensures
            r matches Some(v) ==> v.wf() && v.start == 0 && v.end == v.data@.len(),
            self.key_ok(key.spec_bytes()) ==> (r is Some <==> self@.contains_key(
                self.key_of(key.spec_bytes()),
            ) && self@[self.key_of(key.spec_bytes())].spec_is_value()),
            self.key_ok(key.spec_bytes()) ==> (r matches Some(v) ==> v.data@ == self@[self.key_of(
                key.spec_bytes(),
            )].spec_bytes()),
    {
        let k = self.encode_key(key);
        let (found, i) = self.find(&k);
        proof {
            self.lemma_view();
            if !found {
                lemma_map_of_absent(self.spec_entries(), i as int, k.model());
            }
        }
        if found {
            proof {
                assert(self.entries@[i as int].1.wf());
            }
            self.entries[i].1.value()
        } else {
            None
        }
    }

    /// Whether some entry has `key`.
    pub fn contains_key(&self, key: &str) -> (b: bool)
        requires
            self.wf(),
        ensures
            self.key_ok(key.spec_bytes()) ==> b == self@.contains_key(self.key_of(key.spec_bytes())),
    {
        let k = self.encode_key(key);
        let (found, i) = self.find(&k);
        proof {
            self.lemma_view();
            if !found {
                lemma_map_of_absent(self.spec_entries(), i as int, k.model());
            }
        }
        found
    }

    /// The mutable Array under `key`, if there is one there.
    pub fn get_array(&self, key: &str) -> (r: Option<&MutableArray>)
        requires
            self.wf(),
        ensures
            r matches Some(a) ==> a.wf(),
            self.key_ok(key.spec_bytes()) ==> (r matches Some(a) ==> self@.contains_key(
                self.key_of(key.spec_bytes()),
            ) && self@[self.key_of(key.spec_bytes())] == ValueSlot::MutableArray(Box::new(*a))),
            self.key_ok(key.spec_bytes()) ==> (r is None ==> !(self@.contains_key(
                self.key_of(key.spec_bytes()),
            ) && self@[self.key_of(key.spec_bytes())] is MutableArray)),
    {
        let k = self.encode_key(key);
        let (found, i) = self.find(&k);
        proof {
            self.lemma_view();
            if !found {
                lemma_map_of_absent(self.spec_entries(), i as int, k.model());
            }
        }
        if found {
            proof {
                assert(self.entries@[i as int].1.wf());
            }
            self.entries[i].1.array()
        } else {
            None
        }
    }

    /// The mutable Dict under `key`, if there is one there.
    pub fn get_dict(&self, key: &str) -> (r: Option<&MutableDict>)
        requires
            self.wf(),
        ensures
            r matches Some(d) ==> d.wf(),
            self.key_ok(key.spec_bytes()) ==> (r matches Some(d) ==> self@.contains_key(
                self.key_of(key.spec_bytes()),
            ) && self@[self.key_of(key.spec_bytes())] == ValueSlot::MutableDict(Box::new(*d))),
            self.key_ok(key.spec_bytes()) ==> (r is None ==> !(self@.contains_key(
                self.key_of(key.spec_bytes()),
            ) && self@[self.key_of(key.spec_bytes())] is MutableDict)),
    {
        let k = self.encode_key(key);
        let (found, i) = self.find(&k);
        proof {
            self.lemma_view();
            if !found {
                lemma_map_of_absent(self.spec_entries(), i as int, k.model());
            }
        }
        if found {
            proof {
                assert(self.entries@[i as int].1.wf());
            }
            self.entries[i].1.dict()
        } else {
            None
        }
    }

    /// Set `key` to `value`: inserted where no entry has the key, updated where one has.
    pub fn insert<T: Encodable>(&mut self, key: &str, value: T)
        requires
            old(self).wf(),
            value.spec_fleece(false).len() <= usize::MAX,
        ensures
            final(self).wf(),
            final(self).spec_shared_keys() == old(self).spec_shared_keys(),
            exists|k: KeyModel|
                final(self)@ == old(self)@.insert(k, #[trigger] final(self)@[k])
                    && final(self)@[k].holds(value.spec_fleece(false)),
            old(self).key_ok(key.spec_bytes()) ==> final(self)@ == old(self)@.insert(
                old(self).key_of(key.spec_bytes()),
                final(self)@[old(self).key_of(key.spec_bytes())],
            ) && final(self)@[old(self).key_of(key.spec_bytes())].holds(value.spec_fleece(false)),
    {
        let k = self.encode_key(key);
        let ghost km = k.model();
        let slot = ValueSlot::new(&value);
        self.insert_slot(k, slot);
        proof {
            assert(self@[km] == slot);
        }
    }

    /// Set `key` to the mutable Dict `dict`.
    pub fn insert_dict(&mut self, key: &str, dict: MutableDict)
        requires
            old(self).wf(),
            dict.wf(),
        ensures
            final(self).wf(),
            final(self).spec_shared_keys() == old(self).spec_shared_keys(),
            exists|k: KeyModel|
                #[trigger] old(self)@.insert(k, ValueSlot::MutableDict(Box::new(dict))) == final(self)@,
            old(self).key_ok(key.spec_bytes()) ==> final(self)@ == old(self)@.insert(
                old(self).key_of(key.spec_bytes()),
                ValueSlot::MutableDict(Box::new(dict)),
            ),
    {
        let k = self.encode_key(key);
        let ghost km = k.model();
        self.insert_slot(k, ValueSlot::new_dict(dict));
        proof {
            assert(old(self)@.insert(km, ValueSlot::MutableDict(Box::new(dict))) == self@);
        }
    }

    /// Set `key` to the mutable Array `array`.
    pub fn insert_array(&mut self, key: &str, array: MutableArray)
        requires
            old(self).wf(),
            array.wf(),
        ensures
            final(self).wf(),
            final(self).spec_shared_keys() == old(self).spec_shared_keys(),
            exists|k: KeyModel|
                #[trigger] old(self)@.insert(k, ValueSlot::MutableArray(Box::new(array))) == final(self)@,
            old(self).key_ok(key.spec_bytes()) ==> final(self)@ == old(self)@.insert(
                old(self).key_of(key.spec_bytes()),
                ValueSlot::MutableArray(Box::new(array)),
            ),
    {
        let k = self.encode_key(key);
        let ghost km = k.model();
        self.insert_slot(k, ValueSlot::new_array(array));
        proof {
            assert(old(self)@.insert(km, ValueSlot::MutableArray(Box::new(array))) == self@);
        }
    }

    /// Remove the entry with `key`, if there is one.
    pub fn remove(&mut self, key: &str)
        requires
            old(self).wf(),
        ensures
            final(self).wf(),
            final(self).spec_shared_keys() == old(self).spec_shared_keys(),
            exists|k: KeyModel| #[trigger] old(self)@.remove(k) == final(self)@,
            old(self).key_ok(key.spec_bytes()) ==> final(self)@ == old(self)@.remove(
                old(self).key_of(key.spec_bytes()),
            ),
    {
        let k = self.encode_key(key);
        let (found, i) = self.find(&k);
        let ghost s = self.spec_entries();
        let ghost km = k.model();
        proof {
            self.lemma_view();
        }
        if found {
            self.entries.remove(i);
            proof {
                assert(self.spec_entries() =~= s.remove(i as int));
                lemma_map_of_remove(s, i as int);
                assert forall|j: int| 0 <= j < self.spec_entries().len() implies (#[trigger] self.spec_entries()[j]).1.wf() by {
                    if j < i {
                        assert(s[j].1.wf());
                    } else {
                        assert(s[j + 1].1.wf());
                    }
                }
                self.lemma_wf_from();
            }
        } else {
            proof {
                lemma_map_of_absent(s, i as int, km);
                assert(old(self)@.remove(km) =~= old(self)@);
            }
        }
        proof {
            assert(old(self)@.remove(km) == self@);
        }
    }
}

/// The text of the key of entry `i` of the Fleece Dict `source`: a string's text; a shared
/// key's text from `sk`, where `sk` holds it as UTF-8; `None` where there is none.
pub open spec fn entry_text(source: Dict, sk: Option<Arc<SharedKeys>>, i: int) -> Option<Seq<u8>> {
    match source.spec_key(i) {
        Some(k) => if k.spec_type() == ValueType::Short {
            match sk {
                Some(s) => {
                    let n = k.spec_to_short() as u16;
                    if n < (*s)@.len() && vstd::utf8::valid_utf8((*s)@[n as int]) {
                        Some((*s)@[n as int])
                    } else {
                        None
                    }
                },
                None => None,
            }
        } else {
            Some(k.spec_str_bytes())
        },
        None => None,
    }
}

/// Entry `i` of `source` can be copied: its key has a text, and its value can be read.
pub open spec fn entry_readable(source: Dict, sk: Option<Arc<SharedKeys>>, i: int) -> bool {
    entry_text(source, sk, i) is Some && source.spec_value(i) is Some
}

/// `d` is a copy of the entries `0..m` of `source`: each key (where it is looked up as
/// `key_for` says) is a key of `d`, and each key of `d` comes from one of the entries, whose
/// value its slot copies.
pub open spec fn dict_copies(d: MutableDict, source: Dict, sk: Option<Arc<SharedKeys>>, m: int) -> bool {
    &&& forall|i: int|
        0 <= i < m ==> (sk is None || !(#[trigger] entry_text(source, sk, i))->0.contains(0u8))
            ==> d@.contains_key(key_for(sk, entry_text(source, sk, i)->0))
    &&& forall|k: KeyModel|
        #[trigger] d@.contains_key(k) ==> exists|i: int|
            0 <= i < m && ((sk is None || !entry_text(source, sk, i)->0.contains(0u8)) ==> key_for(
                sk,
                entry_text(source, sk, i)->0,
            ) == k) && slot_copies(d@[k], source.spec_value(i)->0)
}

impl MutableDict {
    /// A copy of the Fleece Dict `source`, entry by entry up to the first whose key has no
    /// text or whose value cannot be read, with the shared keys `shared_keys` (those of the
    /// data `source` lies in): they give the texts of shared keys, and number the keys.
    pub fn clone_from(source: &Dict, shared_keys: &Option<Arc<SharedKeys>>) -> (d: Self)
        requires
            source.wf(),
            source.array.value.data@.len() <= isize::MAX,
        ensures
            d.wf(),
            d.spec_shared_keys() == *shared_keys,
            exists|m: int|
                #![trigger dict_copies(d, *source, *shared_keys, m)]
                0 <= m <= source.spec_len() && (forall|i: int| 0 <= i < m ==> #[trigger] entry_readable(*source, *shared_keys, i))
                    && (m < source.spec_len() ==> !entry_readable(*source, *shared_keys, m))
                    && dict_copies(d, *source, *shared_keys, m),
        decreases source.array.value.end, source.array.value.end - source.array.value.start, 0int,
    {
        let mut this = MutableDict { entries: Vec::new(), shared_keys: share_keys(shared_keys) };
        proof {
            assert(this@ =~= Map::<KeyModel, ValueSlot>::empty());
        }
        let is_wide = source.array.is_wide();
        let n = source.array.len() / 2;
        let mut i: usize = 0;
        while i < n
            invariant
                source.wf(),
                source.array.value.data@.len() <= isize::MAX,
                n == source.spec_len(),
                i <= n,
                this.wf(),
                this.spec_shared_keys() == *shared_keys,
                forall|j: int| 0 <= j < i ==> #[trigger] entry_readable(*source, *shared_keys, j),
                dict_copies(this, *source, *shared_keys, i as int),
            decreases n - i,
        {
            let k = source.array.get(2 * i);
            let v = source.array.get(2 * i + 1);
            let (k, v) = match (k, v) {
                (Some(k), Some(v)) => (k, v),
                _ => {
                    proof {
                        assert(!entry_readable(*source, *shared_keys, i as int));
                        assert(dict_copies(this, *source, *shared_keys, i as int));
                    }
                    return this;
                },
            };
            let text: &str = if k.value_type() == ValueType::Short {
                match shared_keys {
                    Some(sk) => match sk.decode(k.to_unsigned_short()) {
                        Some(t) => t,
                        None => {
                            proof {
                                assert(!entry_readable(*source, *shared_keys, i as int));
                                assert(dict_copies(this, *source, *shared_keys, i as int));
                            }
                            return this;
                        },
                    },
                    None => {
                        proof {
                            assert(!entry_readable(*source, *shared_keys, i as int));
                            assert(dict_copies(this, *source, *shared_keys, i as int));
                        }
                        return this;
                    },
                }
            } else {
                k.to_str()
            };
            proof {
                assert(entry_text(*source, *shared_keys, i as int) == Some(text.spec_bytes()));
                assert(entry_readable(*source, *shared_keys, i as int));
                source.array.lemma_elem_within(2 * i + 1);
            }
            let slot = ValueSlot::new_from_fleece(&v, is_wide, shared_keys);
            let key = this.encode_key(text);
            let ghost old_this = this;
            let ghost km = key.model();
            this.insert_slot(key, slot);
            proof {
                assert forall|j: int|
                    0 <= j < i + 1 && (*shared_keys is None || !(#[trigger] entry_text(*source, *shared_keys, j))->0.contains(0u8))
                    implies this@.contains_key(key_for(*shared_keys, entry_text(*source, *shared_keys, j)->0)) by {
                    if j < i {
                        assert(old_this@.contains_key(key_for(*shared_keys, entry_text(*source, *shared_keys, j)->0)));
                    }
                }
                assert forall|kk: KeyModel| #[trigger] this@.contains_key(kk) implies exists|j: int|
                    0 <= j < i + 1 && ((*shared_keys is None || !entry_text(*source, *shared_keys, j)->0.contains(0u8))
                        ==> key_for(*shared_keys, entry_text(*source, *shared_keys, j)->0) == kk) && slot_copies(
                        this@[kk],
                        source.spec_value(j)->0,
                    ) by {
                    if kk == km {
                        assert(slot_copies(this@[kk], source.spec_value(i as int)->0));
                    } else {
                        assert(old_this@.contains_key(kk));
                        let j = choose|j: int|
                            0 <= j < i && ((*shared_keys is None || !entry_text(*source, *shared_keys, j)->0.contains(0u8))
                                ==> key_for(*shared_keys, entry_text(*source, *shared_keys, j)->0) == kk) && slot_copies(
                                old_this@[kk],
                                source.spec_value(j)->0,
                            );
                        assert(this@[kk] == old_this@[kk]);
                    }
                }
            }
            i = i + 1;
        }
        proof {
            let m = i as int;
            assert(0 <= m <= source.spec_len() && (forall|j: int| 0 <= j < m ==> #[trigger] entry_readable(*source, *shared_keys, j))
                && (m < source.spec_len() ==> !entry_readable(*source, *shared_keys, m))
                && dict_copies(this, *source, *shared_keys, m));
        }
        this
    }
}

impl MutableDict {
    /// A copy: the same keys, in order, each slot copied, and the same shared keys.
    pub fn deep_clone(&self) -> (c: Self)
        ensures
            c.spec_shared_keys() == self.spec_shared_keys(),
            c.spec_entries().len() == self.spec_entries().len(),
            forall|i: int|
                0 <= i < self.spec_entries().len() ==> (#[trigger] c.spec_entries()[i]).0 == self.spec_entries()[i].0
                    && self.spec_entries()[i].1.copied_as(c.spec_entries()[i].1),
            self.wf() ==> c.wf(),
        decreases self,
    {
        let mut entries: Vec<(Key, ValueSlot)> = Vec::new();
        let n = self.entries.len();
        let mut i: usize = 0;
        while i < n
            invariant
                n == self.entries@.len(),
                i <= n,
                entries@.len() == i,
                forall|j: int|
                    0 <= j < i ==> (#[trigger] entries@[j]).0.model() == self.entries@[j].0.model()
                        && self.entries@[j].1.copied_as(entries@[j].1),
            decreases n - i,
        {
            proof {
                assert(decreases_to!(self => self.entries@[i as int].1));
            }
            let k = self.entries[i].0.clone();
            let v = self.entries[i].1.deep_clone();
            entries.push((k, v));
            i = i + 1;
        }
        let c = MutableDict { entries, shared_keys: share_keys(&self.shared_keys) };
        proof {
            if self.wf() {
                assert forall|a: int, b: int| 0 <= a < b < c.entries@.len() implies key_lt(
                    (#[trigger] c.entries@[a]).0.model(),
                    (#[trigger] c.entries@[b]).0.model(),
                ) by {
                    assert(key_lt(self.entries@[a].0.model(), self.entries@[b].0.model()));
                }
                assert forall|a: int| 0 <= a < c.entries@.len() implies (#[trigger] c.entries@[a]).1.wf() by {
                    assert(self.entries@[a].1.wf());
                }
            }
        }
        c
    }

    /// A copy of the root Dict of `scope`, with the shared keys of the scope; `None` where the
    /// scope has no root or the root is no Dict.
    pub fn from_scope(scope: &Scope) -> (r: Option<Self>)
        ensures
            scope.spec_root() is None ==> r is None,
            r is Some <==> (scope.spec_root() matches Some((s, e)) && type_of_byte(
                scope.spec_data()[s as int],
            ) == ValueType::Dict && scope.spec_data().len() <= isize::MAX),
            r matches Some(d) ==> d.wf() && d.spec_shared_keys() == scope.spec_shared_keys()
                && scope.spec_root() is Some,
    {
        let root = scope.root()?;
        let source = root.to_dict()?;
        let dict = source.dict();
        if dict.array.value.data.len() > isize::MAX as usize {
            return None;
        }
        let shared_keys = crate::mutable::share_keys_of(scope);
        Some(Self::clone_from(&dict, &shared_keys))
    }

    /// The mutable Array of entry `i`, to change.
    fn slot_array_mut(&mut self, i: usize) -> (r: Option<&mut MutableArray>)
        requires
            old(self).wf(),
            i < old(self).spec_entries().len(),
            old(self).spec_entries()[i as int].1 is MutableArray,
        ensures
            r matches Some(a) ==> a.wf() && (final(a).wf() ==> final(self).wf())
                && final(self).spec_shared_keys() == old(self).spec_shared_keys()
                && old(self).spec_entries()[i as int].1 == ValueSlot::MutableArray(Box::new(*a))
                && final(self).spec_entries() == old(self).spec_entries().update(
                i as int,
                (old(self).spec_entries()[i as int].0, ValueSlot::MutableArray(Box::new(*final(a)))),
            ),
            r is Some,
    {
        proof {
            assert(self.entries@[i as int].1.wf());
            self.lemma_view();
        }
        let e = &mut self.entries[i];
        e.1.array_mut()
    }

    /// The mutable Array under `key`, to change, if there is one there.
    pub fn get_array_mut(&mut self, key: &str) -> (r: Option<&mut MutableArray>)
        requires
            old(self).wf(),
        ensures
            r matches Some(a) ==> a.wf() && (final(a).wf() ==> final(self).wf())
                && final(self).spec_shared_keys() == old(self).spec_shared_keys(),
            old(self).key_ok(key.spec_bytes()) ==> (r matches Some(a) ==> old(self)@.contains_key(
                old(self).key_of(key.spec_bytes()),
            ) && old(self)@[old(self).key_of(key.spec_bytes())] == ValueSlot::MutableArray(Box::new(*a))
                && final(self)@ == old(self)@.insert(
                old(self).key_of(key.spec_bytes()),
                ValueSlot::MutableArray(Box::new(*final(a))),
            )),
            old(self).key_ok(key.spec_bytes()) ==> (r is None ==> !(old(self)@.contains_key(
                old(self).key_of(key.spec_bytes()),
            ) && old(self)@[old(self).key_of(key.spec_bytes())] is MutableArray)),
            r is None ==> *final(self) == *old(self),
    {
        let k = self.encode_key(key);
        let (found, i) = self.find(&k);
        let ghost s = self.spec_entries();
        proof {
            self.lemma_view();
            if !found {
                lemma_map_of_absent(s, i as int, k.model());
            }
        }
        if found && self.entries[i].1.is_array() {
            proof {
                assert(self.entries@[i as int].1.wf());
            }
            match self.slot_array_mut(i) {
                Some(a) => {
                    proof {
                        lemma_map_of_update(s, i as int, ValueSlot::MutableArray(Box::new(*final(a))));
                    }
                    Some(a)
                },
                None => None,
            }
        } else {
            None
        }
    }
}

impl MutableDict {
    /// The mutable Dict of entry `i`, to change.
    fn slot_dict_mut(&mut self, i: usize) -> (r: Option<&mut MutableDict>)
        requires
            old(self).wf(),
            i < old(self).spec_entries().len(),
            old(self).spec_entries()[i as int].1 is MutableDict,
        ensures
            r matches Some(d) ==> d.wf() && (final(d).wf() ==> final(self).wf())
                && final(self).spec_shared_keys() == old(self).spec_shared_keys()
                && old(self).spec_entries()[i as int].1 == ValueSlot::MutableDict(Box::new(*d))
                && final(self).spec_entries() == old(self).spec_entries().update(
                i as int,
                (old(self).spec_entries()[i as int].0, ValueSlot::MutableDict(Box::new(*final(d)))),
            ),
            r is Some,
    {
        proof {
            assert(self.entries@[i as int].1.wf());
            self.lemma_view();
        }
        let e = &mut self.entries[i];
        e.1.dict_mut()
    }

    /// The mutable Dict under `key`, to change, if there is one there.
    pub fn get_dict_mut(&mut self, key: &str) -> (r: Option<&mut MutableDict>)
        requires
            old(self).wf(),
        ensures
            r matches Some(d) ==> d.wf() && (final(d).wf() ==> final(self).wf())
                && final(self).spec_shared_keys() == old(self).spec_shared_keys(),
            old(self).key_ok(key.spec_bytes()) ==> (r matches Some(d) ==> old(self)@.contains_key(
                old(self).key_of(key.spec_bytes()),
            ) && old(self)@[old(self).key_of(key.spec_bytes())] == ValueSlot::MutableDict(Box::new(*d))
                && final(self)@ == old(self)@.insert(
                old(self).key_of(key.spec_bytes()),
                ValueSlot::MutableDict(Box::new(*final(d))),
            )),
            old(self).key_ok(key.spec_bytes()) ==> (r is None ==> !(old(self)@.contains_key(
                old(self).key_of(key.spec_bytes()),
            ) && old(self)@[old(self).key_of(key.spec_bytes())] is MutableDict)),
            r is None ==> *final(self) == *old(self),
    {
        let k = self.encode_key(key);
        let (found, i) = self.find(&k);
        let ghost s = self.spec_entries();
        proof {
            self.lemma_view();
            if !found {
                lemma_map_of_absent(s, i as int, k.model());
            }
        }
        if found && self.entries[i].1.is_dict() {
            match self.slot_dict_mut(i) {
                Some(d) => {
                    proof {
                        lemma_map_of_update(s, i as int, ValueSlot::MutableDict(Box::new(*final(d))));
                    }
                    Some(d)
                },
                None => None,
            }
        } else {
            None
        }
    }

    /// The text of the key of entry `i`: a string's own, a shared key's from the shared keys.
    pub open spec fn key_text(&self, i: int) -> Option<Seq<u8>> {
        match self.spec_entries()[i].0 {
            KeyModel::Text(t) => Some(t),
            KeyModel::Shared(n) => match self.spec_shared_keys() {
                Some(sk) => if n < (*sk)@.len() && vstd::utf8::valid_utf8((*sk)@[n as int]) {
                    Some((*sk)@[n as int])
                } else {
                    None
                },
                None => None,
            },
        }
    }

    /// The entries in the order of their keys, each with its key's text, up to the first
    /// whose key has no text.
    pub fn iter(&self) -> (r: Vec<(&str, Ref<'_>)>)
        ensures
            r@.len() <= self.spec_entries().len(),
            forall|i: int|
                0 <= i < r@.len() ==> self.key_text(i) == Some((#[trigger] r@[i]).0.spec_bytes())
                    && r@[i].1.spec_slot() == self.spec_entries()[i].1,
            r@.len() < self.spec_entries().len() ==> self.key_text(r@.len() as int) is None,
    {
        let mut out: Vec<(&str, Ref<'_>)> = Vec::new();
        let n = self.entries.len();
        let mut i: usize = 0;
        while i < n
            invariant
                n == self.spec_entries().len(),
                i <= n,
                out@.len() == i,
                forall|j: int|
                    0 <= j < i ==> self.key_text(j) == Some((#[trigger] out@[j]).0.spec_bytes())
                        && out@[j].1.spec_slot() == self.spec_entries()[j].1,
            decreases n - i,
        {
            let text: &str = match &self.entries[i].0 {
                Key::String(s) => s.as_str(),
                Key::Shared(k) => match &self.shared_keys {
                    Some(sk) => match sk.decode(*k) {
                        Some(t) => t,
                        None => {
                            return out;
                        },
                    },
                    None => {
                        return out;
                    },
                },
            };
            out.push((text, Ref { slot: &self.entries[i].1 }));
            i = i + 1;
        }
        out
    }
}

/// An entry of a mutable Dict: a value or a mutable collection.
pub struct Ref<'a> {
    slot: &'a ValueSlot,
}

impl<'a> Ref<'a> {
    pub closed spec fn spec_slot(&self) -> ValueSlot {
        *self.slot
    }

    pub fn is_value(&self) -> (b: bool)
        ensures
            b == self.spec_slot().spec_is_value(),
    {
        self.slot.is_value()
    }

    pub fn is_array(&self) -> (b: bool)
        ensures
            b == self.spec_slot() is MutableArray,
    {
        self.slot.is_array()
    }

    pub fn is_dict(&self) -> (b: bool)
        ensures
            b == self.spec_slot() is MutableDict,
    {
        self.slot.is_dict()
    }

    pub fn value(&self) -> (r: Option<Value<'a>>)
        requires
            self.spec_slot().wf(),
        ensures
            r is Some <==> self.spec_slot().spec_is_value(),
            r matches Some(v) ==> v.wf() && v.data@ == self.spec_slot().spec_bytes() && v.start == 0
                && v.end == v.data@.len(),
    {
        self.slot.value()
    }

    pub fn array(&self) -> (r: Option<&'a MutableArray>)
        ensures
            r matches Some(a) ==> self.spec_slot() == ValueSlot::MutableArray(Box::new(*a)),
            r is None ==> !(self.spec_slot() is MutableArray),
    {
        self.slot.array()
    }

    pub fn dict(&self) -> (r: Option<&'a MutableDict>)
        ensures
            r matches Some(d) ==> self.spec_slot() == ValueSlot::MutableDict(Box::new(*d)),
            r is None ==> !(self.spec_slot() is MutableDict),
    {
        self.slot.dict()
    }
}

impl Default for MutableDict {
    fn default() -> (d: Self)
        ensures
            d.wf(),
            d@ == Map::<KeyModel, ValueSlot>::empty(),
            d.spec_entries().len() == 0,
            d.spec_shared_keys() is None,
    {
        Self::new()
    }
}

impl Clone for MutableDict {
    fn clone(&self) -> (c: Self)
        ensures
            c.spec_shared_keys() == self.spec_shared_keys(),
            c.spec_entries().len() == self.spec_entries().len(),
            forall|i: int|
                0 <= i < self.spec_entries().len() ==> (#[trigger] c.spec_entries()[i]).0 == self.spec_entries()[i].0
                    && self.spec_entries()[i].1.copied_as(c.spec_entries()[i].1),
            self.wf() ==> c.wf(),
    {
        self.deep_clone()
    }
}

/// What `insert` puts under a key is what `get` finds there: the slot under the key holds
/// the value's encoding, and every other key keeps its slot.
pub proof fn law_insert_then_get(d0: MutableDict, d1: MutableDict, text: Seq<u8>, enc: Seq<u8>)
    requires
        d0.key_ok(text),
        d1.spec_shared_keys() == d0.spec_shared_keys(),
        d1@ == d0@.insert(d0.key_of(text), d1@[d0.key_of(text)]),
        d1@[d0.key_of(text)].holds(enc),
    ensures
        d1.key_ok(text),
        d1@.contains_key(d1.key_of(text)),
        d1@[d1.key_of(text)].spec_is_value(),
        d1@[d1.key_of(text)].spec_bytes().subrange(0, enc.len() as int) == enc,
        forall|k: KeyModel|
            k != d1.key_of(text) ==> (#[trigger] d1@.contains_key(k) == d0@.contains_key(k) && (d0@.contains_key(k)
                ==> d1@[k] == d0@[k])),
{
    let k = d0.key_of(text);
    let slot = d1@[k];
    match slot {
        ValueSlot::Inline(b) => {
            assert(b@.subrange(0, enc.len() as int) =~= enc);
        },
        ValueSlot::Pointer(b) => {
            assert(b@.subrange(0, enc.len() as int) =~= enc);
        },
        _ => {},
    }
}

/// After `remove`, the key is no longer there: `contains_key` is false and `get` finds
/// nothing; every other key keeps its slot.
pub proof fn law_remove_then_absent(d0: MutableDict, d1: MutableDict, text: Seq<u8>)
    requires
        d0.key_ok(text),
        d1.spec_shared_keys() == d0.spec_shared_keys(),
        d1@ == d0@.remove(d0.key_of(text)),
    ensures
        !d1@.contains_key(d1.key_of(text)),
        forall|k: KeyModel|
            k != d1.key_of(text) ==> (#[trigger] d1@.contains_key(k) == d0@.contains_key(k) && (d0@.contains_key(k)
                ==> d1@[k] == d0@[k])),
{
}

/// The entries of a well-formed mutable Dict come in the strict order of their keys, and
/// the view holds exactly their keys: a key is there once.
pub proof fn law_entries_sorted(d: MutableDict)
    requires
        d.wf(),
    ensures
        forall|i: int, j: int|
            0 <= i < j < d.spec_entries().len() ==> key_lt(
                #[trigger] d.spec_entries()[i].0,
                #[trigger] d.spec_entries()[j].0,
            ),
        forall|i: int|
            0 <= i < d.spec_entries().len() ==> #[trigger] d@.contains_key(d.spec_entries()[i].0),
        forall|k: KeyModel|
            #[trigger] d@.contains_key(k) ==> exists|i: int| 0 <= i < d.spec_entries().len() && d.spec_entries()[i].0 == k,
{
    d.lemma_view();
}

} // verus!
