//! Shared keys: short Dict keys given numbers, so that a Dict can hold the number in place of
//! the text.
use crate::encoder::error::EncodeError;
use crate::encoder::encodable::{collection_fleece, string_fleece, string_sized};
use crate::encoder::value_stack::Collection;
use crate::encoder::{
    elements_fleece, end_pos, first_pos, needs_wide, padded, placed_all, root_fleece, Encoder,
};
use crate::value::sized::SizedValue;
use crate::value::array::Array;
use crate::value::{spec_from_bytes, Value, ValueType};
use fixedstr::zstr;
use vstd::prelude::*;
use vstd::string::{StrSliceExecFns, StringSliceAdditionalSpecFns};
use vstd::utf8::{
    decode_first_scalar, decode_utf8, encode_scalar, encode_utf8, length_of_first_scalar,
    pop_first_scalar, valid_first_scalar, valid_utf8,
};

verus! {

#[verifier::external_type_specification]
#[verifier::external_body]
pub struct ExZstr<const N: usize>(zstr<N>);

/// The table that numbers the keys: a `folklore::HashMap` from keys to their numbers, which
/// also keeps the keys in the order they were inserted.
#[verifier::external_body]
pub struct KeyTable {
    map: folklore::HashMap<zstr<16>, u16>,
}

/// The text a `zstr<16>` keeps: its first bytes, as many as its stored length.
pub uninterp spec fn zstr_text(z: zstr<16>) -> Seq<u8>;

/// The keys a key table holds, in the order they were inserted, each by its text.
pub uninterp spec fn table_keys(m: KeyTable) -> Seq<Seq<u8>>;

/// The number each key of a key table (by its text) maps to.
pub uninterp spec fn table_map(m: KeyTable) -> Map<Seq<u8>, u16>;

/// The number of entries a key table was made to hold.
pub uninterp spec fn table_capacity(m: KeyTable) -> nat;

/// Whether the character is alphabetic or numeric, as Unicode defines it.
pub uninterp spec fn char_alphanumeric(c: char) -> bool;

/// The bytes `zstr::<16>::make` keeps of the text `s`: at most its first 15 bytes.
pub open spec fn kept(s: Seq<u8>) -> Seq<u8> {
    if s.len() <= 15 {
        s
    } else {
        s.take(15)
    }
}

/// Calls `zstr::<16>::make`: the first (up to) 15 bytes of `s`, padded with zero bytes. Where
/// `s` holds no zero byte, those bytes are its text; of other texts nothing is claimed.
#[verifier::external_body]
fn zstr_make(s: &str) -> (z: zstr<16>)
    ensures
        !s.spec_bytes().contains(0u8) ==> zstr_text(z) == kept(s.spec_bytes()),
{
    zstr::make(s)
}

/// Calls `zstr::as_str_safe`: the text of `z` as a `&str`, where it is valid UTF-8.
#[verifier::external_body]
fn zstr_as_str(z: &zstr<16>) -> (r: Option<&str>)
    ensures
        r matches Some(s) ==> s.spec_bytes() == zstr_text(*z),
        valid_utf8(zstr_text(*z)) ==> r is Some,
{
    z.as_str_safe().ok()
}

/// Calls `folklore::HashMap::with_capacity`: an empty table for `capacity` entries, whose
/// table has room enough that no lookup runs out of free slots.
#[verifier::external_body]
fn table_new(capacity: usize) -> (table: KeyTable)
    requires
        8 <= capacity <= 0x7FFF,
    ensures
        table_keys(table).len() == 0,
        table_map(table).dom().is_empty(),
        table_capacity(table) == capacity,
{
    KeyTable { map: folklore::HashMap::with_capacity(capacity) }
}

/// Calls `folklore::HashMap::len`: the number of entries inserted.
#[verifier::external_body]
fn table_len(m: &KeyTable) -> (n: usize)
    ensures
        n == table_keys(*m).len(),
{
    m.map.len()
}

/// Calls `folklore::HashMap::get`: the number of the key with the text of `k`.
#[verifier::external_body]
fn table_get(m: &KeyTable, k: &zstr<16>) -> (r: Option<u16>)
    ensures
        table_map(*m).dom().contains(zstr_text(*k)) ==> r == Some(table_map(*m)[zstr_text(*k)]),
        !table_map(*m).dom().contains(zstr_text(*k)) ==> r is None,
{
    m.map.get(k)
}

/// Calls `folklore::HashMap::contains_key`: whether a key with the text of `k` is held.
#[verifier::external_body]
fn table_contains(m: &KeyTable, k: &zstr<16>) -> (b: bool)
    ensures
        b == table_map(*m).dom().contains(zstr_text(*k)),
{
    m.map.contains_key(k)
}

/// Calls `folklore::HashMap::insert` (through exclusive access, so that no other insertion
/// runs at the same time): it inserts where the table is not full and holds no key with the
/// same text, and then keeps the key after those inserted before. It does not panic: it
/// returns `false` where it cannot insert.
#[verifier::external_body]
fn table_insert(m: &mut KeyTable, k: zstr<16>, v: u16) -> (b: bool)
    ensures
        b <==> table_keys(*old(m)).len() < table_capacity(*old(m)) && !table_map(
            *old(m),
        ).dom().contains(zstr_text(k)),
        b ==> table_keys(*final(m)) == table_keys(*old(m)).push(zstr_text(k)) && table_map(
            *final(m),
        ) == table_map(*old(m)).insert(zstr_text(k), v) && table_capacity(*final(m))
            == table_capacity(*old(m)),
        !b ==> table_keys(*final(m)) == table_keys(*old(m)) && table_map(*final(m)) == table_map(
            *old(m),
        ) && table_capacity(*final(m)) == table_capacity(*old(m)),
    no_unwind
{
    m.map.insert(k, v)
}

/// Calls `folklore::HashMap::get_key`: the key inserted `index`-th, if there is one.
#[verifier::external_body]
fn table_get_key(m: &KeyTable, index: usize) -> (r: Option<&zstr<16>>)
    requires
        index <= u16::MAX as usize,
    ensures
        r is Some <==> index < table_keys(*m).len(),
        r matches Some(z) ==> zstr_text(*z) == table_keys(*m)[index as int],
{
    m.map.get_key(index)
}

/// Calls `Clone::clone` of `folklore::HashMap`: a table of the same capacity with the same
/// entries, inserted in the same order.
#[verifier::external_body]
fn table_clone(m: &KeyTable) -> (c: KeyTable)
    ensures
        table_keys(c) == table_keys(*m),
        table_map(c) == table_map(*m),
        table_capacity(c) == table_capacity(*m),
{
    KeyTable { map: m.map.clone() }
}

/// Calls `char::is_alphanumeric`. Of ASCII characters, the letters and digits are.
#[verifier::external_body]
fn is_alphanumeric(c: char) -> (b: bool)
    ensures
        b == char_alphanumeric(c),
        (c as u32) < 128 ==> (b <==> ('a' <= c <= 'z' || 'A' <= c <= 'Z' || '0' <= c <= '9')),
{
    c.is_alphanumeric()
}

/// A character a shared key may hold: a letter, a digit, `_` or `-` (among ASCII
/// characters, `a`-`z`, `A`-`Z`, `0`-`9`, `_` and `-`).
pub open spec fn key_char(c: char) -> bool {
    if (c as u32) < 128 {
        'a' <= c <= 'z' || 'A' <= c <= 'Z' || '0' <= c <= '9' || c == '_' || c == '-'
    } else {
        char_alphanumeric(c)
    }
}

/// Whether `key` may be added to a table that holds `n` keys: there is room, the key is at
/// most 16 bytes long, and all its characters are letters, digits, `_` or `-`.
pub open spec fn spec_can_add(n: nat, key: &str) -> bool {
    &&& n < SharedKeys::MAX_KEYS
    &&& key.spec_bytes().len() <= SharedKeys::MAX_KEY_LEN
    &&& forall|i: int| 0 <= i < key@.len() ==> #[trigger] key_char(key@[i])
}

/// The characters of the text `t` are all letters, digits, `_` or `-`.
pub open spec fn key_chars(t: Seq<u8>) -> bool {
    forall|i: int| 0 <= i < decode_utf8(t).len() ==> #[trigger] key_char(decode_utf8(t)[i])
}

/// Whether a key of the bytes `t` may be added to a table that holds `n` keys: as
/// `spec_can_add` of the text with these bytes.
pub open spec fn text_can_add(n: int, t: Seq<u8>) -> bool {
    &&& n < SharedKeys::MAX_KEYS
    &&& t.len() <= SharedKeys::MAX_KEY_LEN
    &&& key_chars(t)
}

/// What the keys of a table are: at most `MAX_KEYS` distinct texts of at most 15 bytes,
/// whose characters, where they are UTF-8, are letters, digits, `_` or `-`.
pub open spec fn keys_ok(keys: Seq<Seq<u8>>) -> bool {
    &&& keys.len() <= SharedKeys::MAX_KEYS
    &&& forall|i: int|
        0 <= i < keys.len() ==> (#[trigger] keys[i]).len() <= 15 && (valid_utf8(keys[i])
            ==> key_chars(keys[i]))
    &&& forall|i: int, j: int| 0 <= i < j < keys.len() ==> keys[i] != keys[j]
}

/// The texts of the elements of the Array `v`, in order.
pub open spec fn state_texts(v: Value) -> Seq<Seq<u8>> {
    Seq::new(v.spec_count() as nat, |i: int| Array { value: v }.spec_get(i)->0.spec_str_bytes())
}

/// The keys of the table made by adding the texts `texts`, one after the other, to an empty
/// table (a text already there gives its number, and the table stays as it is); `None`
/// where one of them cannot be added.
pub open spec fn state_build(texts: Seq<Seq<u8>>) -> Option<Seq<Seq<u8>>>
    decreases texts.len(),
{
    if texts.len() == 0 {
        Some(Seq::empty())
    } else {
        match state_build(texts.drop_last()) {
            None => None,
            Some(keys) => if !text_can_add(keys.len() as int, texts.last()) {
                None
            } else if keys.contains(kept(texts.last())) {
                Some(keys)
            } else {
                Some(keys.push(kept(texts.last())))
            },
        }
    }
}

/// A state from which a table can be made: an Array whose elements can all be read, and
/// whose texts can be added, one after the other, to an empty table.
pub open spec fn state_ok(v: Value) -> bool {
    let t = state_texts(v);
    &&& v.spec_type() == ValueType::Array
    &&& forall|i: int| 0 <= i < t.len() ==> (#[trigger] Array { value: v }.spec_get(i)) is Some
    &&& state_build(t) is Some
}

/// The keys of the table made from the state `v`.
pub open spec fn state_keys(v: Value) -> Seq<Seq<u8>> {
    state_build(state_texts(v))->0
}

/// What the Encoder writes for the keys `keys` as the elements of an Array opened where the
/// output is `len0` long: the Strings it writes out of line, one after the other, and the
/// slots of the elements (a String of at most one byte inline, else a pointer to it).
pub open spec fn keys_written(len0: int, keys: Seq<Seq<u8>>) -> (Seq<u8>, Seq<SizedValue>)
    decreases keys.len(),
{
    if keys.len() == 0 {
        (Seq::empty(), Seq::empty())
    } else {
        let w = keys_written(len0, keys.drop_last());
        let k = keys.last();
        match string_sized(0x40, k) {
            Some(s) => (w.0, w.1.push(s)),
            None => (
                w.0 + padded(string_fleece(0x40, k, false)),
                w.1.push(SizedValue::spec_pointer((len0 + w.0.len()) as u32)),
            ),
        }
    }
}

/// The state of a table of the keys `keys`, written from the start of the Fleece data: the
/// keys' Strings, then the top-level Array of them, then the root pointer to it.
pub open spec fn state_fleece(keys: Seq<Seq<u8>>) -> Seq<u8> {
    let w = keys_written(0, keys);
    let len = w.0.len() as int;
    let n = w.1.len() as int;
    let first = first_pos(len, n);
    let wide = needs_wide(w.1, first);
    w.0 + padded(collection_fleece(0x60, n as usize, wide)) + elements_fleece(
        placed_all(w.1, first, wide),
        wide,
    ) + root_fleece(end_pos(len, n, w.1) - len)
}

/// Keys of at most 15 bytes are written as as many slots, in at most 28 bytes each, and
/// the output stays even.
pub proof fn lemma_keys_written_len(keys: Seq<Seq<u8>>)
    requires
        forall|i: int| 0 <= i < keys.len() ==> (#[trigger] keys[i]).len() <= 15,
    ensures
        keys_written(0, keys).1.len() == keys.len(),
        keys_written(0, keys).0.len() <= 28 * keys.len(),
        keys_written(0, keys).0.len() % 2 == 0,
    decreases keys.len(),
{
    if keys.len() > 0 {
        let t = keys.drop_last();
        assert forall|i: int| 0 <= i < t.len() implies (#[trigger] t[i]).len() <= 15 by {
            assert(t[i] == keys[i]);
        }
        lemma_keys_written_len(t);
        let k = keys.last();
        assert(k == keys[keys.len() - 1]);
        crate::value::varint::lemma_varint_size_bounds(k.len() as u64);
    }
}

/// Where the texts up to `k` cannot all be added, the texts up to any `m` past it cannot.
proof fn lemma_state_build_stops(texts: Seq<Seq<u8>>, k: int, m: int)
    requires
        0 <= k <= m <= texts.len(),
        state_build(texts.take(k)) is None,
    ensures
        state_build(texts.take(m)) is None,
    decreases m - k,
{
    if m > k {
        lemma_state_build_stops(texts, k, m - 1);
        assert(texts.take(m).drop_last() =~= texts.take(m - 1));
    }
}

/// The keys of a table, where they are UTF-8, build that same table again.
pub proof fn lemma_state_build_keys(keys: Seq<Seq<u8>>)
    requires
        keys_ok(keys),
        forall|i: int| 0 <= i < keys.len() ==> valid_utf8(#[trigger] keys[i]),
    ensures
        state_build(keys) == Some(keys),
    decreases keys.len(),
{
    if keys.len() > 0 {
        let t = keys.drop_last();
        assert forall|i: int| 0 <= i < t.len() implies valid_utf8(#[trigger] t[i]) by {
            assert(t[i] == keys[i]);
        }
        assert forall|i: int| 0 <= i < t.len() implies (#[trigger] t[i]).len() <= 15 && (
        valid_utf8(t[i]) ==> key_chars(t[i])) by {
            assert(t[i] == keys[i]);
        }
        assert forall|i: int, j: int| 0 <= i < j < t.len() implies t[i] != t[j] by {
            assert(t[i] == keys[i] && t[j] == keys[j]);
        }
        lemma_state_build_keys(t);
        let k = keys.last();
        assert(k == keys[keys.len() - 1]);
        assert(kept(k) == k);
        if t.contains(k) {
            let j = choose|j: int| 0 <= j < t.len() && t[j] == k;
            assert(keys[j] == k);
        }
        assert(t.push(k) =~= keys);
    }
}

/// A text may be added just where its bytes may.
proof fn lemma_can_add_text(n: nat, key: &str)
    ensures
        spec_can_add(n, key) == text_can_add(n as int, key.spec_bytes()),
{
    vstd::utf8::encode_utf8_decode_utf8(key@);
}

/// Where a text and its first `k` bytes are both UTF-8, the characters of the first `k`
/// bytes begin the characters of the text.
proof fn lemma_prefix_chars(t: Seq<u8>, k: int)
    requires
        valid_utf8(t),
        0 <= k <= t.len(),
        valid_utf8(t.take(k)),
    ensures
        decode_utf8(t.take(k)).len() <= decode_utf8(t).len(),
        forall|j: int|
            0 <= j < decode_utf8(t.take(k)).len() ==> decode_utf8(t.take(k))[j] == decode_utf8(t)[j],
    decreases t.len(),
{
    let p = t.take(k);
    if k > 0 {
        assert(valid_first_scalar(p));
        assert(valid_first_scalar(t));
        let l = length_of_first_scalar(t);
        assert(p[0] == t[0]);
        assert(length_of_first_scalar(p) == l);
        assert(forall|j: int| 0 <= j < k ==> p[j] == t[j]);
        assert(decode_first_scalar(p) == decode_first_scalar(t));
        let tt = pop_first_scalar(t);
        assert(pop_first_scalar(p) =~= tt.take(k - l));
        lemma_prefix_chars(tt, k - l);
        assert(decode_utf8(p) == seq![decode_first_scalar(p) as char] + decode_utf8(pop_first_scalar(p)));
        assert(decode_utf8(t) == seq![decode_first_scalar(t) as char] + decode_utf8(tt));
    }
}

/// The bytes a table keeps of a key it may add are key characters where they are UTF-8.
proof fn lemma_kept_chars(key: &str)
    requires
        forall|i: int| 0 <= i < key@.len() ==> #[trigger] key_char(key@[i]),
    ensures
        kept(key.spec_bytes()).len() <= 15,
        valid_utf8(kept(key.spec_bytes())) ==> key_chars(kept(key.spec_bytes())),
{
    let t = key.spec_bytes();
    vstd::utf8::encode_utf8_decode_utf8(key@);
    vstd::utf8::encode_utf8_valid_utf8(key@);
    assert(decode_utf8(t) == key@);
    if t.len() <= 15 {
        assert(kept(t) == t);
    } else if valid_utf8(t.take(15)) {
        assert(kept(t) == t.take(15));
        lemma_prefix_chars(t, 15);
        assert forall|i: int| 0 <= i < decode_utf8(kept(t)).len() implies #[trigger] key_char(
            decode_utf8(kept(t))[i],
        ) by {
            assert(decode_utf8(kept(t))[i] == key@[i]);
        }
    }
}

/// The UTF-8 bytes of a character other than NUL hold no zero byte.
proof fn lemma_scalar_nonzero(v: u32)
    requires
        1 <= v,
    ensures
        !encode_scalar(v).contains(0u8),
{
    let e = encode_scalar(v);
    assert(1 <= v <= 0x7F ==> (v & 0x7F) as u8 != 0) by (bit_vector);
    assert(forall|x: u8| #![auto] (0xC0u8 | x) != 0 && (0xE0u8 | x) != 0 && (0xF0u8 | x) != 0 && (0x80u8 | x) != 0) by (bit_vector);
    assert forall|j: int| 0 <= j < e.len() implies e[j] != 0 by {}
}

/// Text whose characters are not NUL holds no zero byte.
proof fn lemma_no_zero_byte(cs: Seq<char>)
    requires
        forall|i: int| 0 <= i < cs.len() ==> (#[trigger] cs[i]) as u32 != 0,
    ensures
        !encode_utf8(cs).contains(0u8),
    decreases cs.len(),
{
    if cs.len() > 0 {
        assert((cs[0] as u32) != 0);
        lemma_scalar_nonzero(cs[0] as u32);
        lemma_no_zero_byte(cs.drop_first());
        let a = encode_scalar(cs[0] as u32);
        let b = encode_utf8(cs.drop_first());
        assert forall|j: int| 0 <= j < (a + b).len() implies (a + b)[j] != 0 by {
            if j < a.len() {
                assert(a[j] == (a + b)[j]);
            } else {
                assert(b[j - a.len()] == (a + b)[j]);
            }
        }
    }
}

/// The keys `keys` are distinct and numbered by `map` by their places.
pub open spec fn numbered(keys: Seq<Seq<u8>>, map: Map<Seq<u8>, u16>) -> bool {
    &&& map.dom() == keys.to_set()
    &&& forall|i: int| 0 <= i < keys.len() ==> map[#[trigger] keys[i]] == i
    &&& forall|i: int, j: int| 0 <= i < j < keys.len() ==> keys[i] != keys[j]
}

/// A new key, numbered by the next place, keeps the keys numbered.
proof fn lemma_push_keeps_numbering(keys: Seq<Seq<u8>>, map: Map<Seq<u8>, u16>, t: Seq<u8>, index: u16)
    requires
        numbered(keys, map),
        !map.dom().contains(t),
        index == keys.len(),
    ensures
        numbered(keys.push(t), map.insert(t, index)),
{
    let keys1 = keys.push(t);
    let map1 = map.insert(t, index);
    keys.lemma_push_to_set_commute(t);
    assert(map1.dom() =~= keys1.to_set());
    assert forall|i: int| 0 <= i < keys1.len() implies map1[#[trigger] keys1[i]] == i by {
        if i < keys.len() {
            assert(keys1[i] == keys[i]);
            assert(keys[i] != t) by {
                assert(keys.to_set().contains(keys[i]));
            }
        }
    }
    assert forall|i: int, j: int| 0 <= i < j < keys1.len() implies keys1[i] != keys1[j] by {
        if j == keys.len() {
            assert(keys.to_set().contains(keys[i]));
        }
    }
}

/// A table of up to `MAX_KEYS` shared keys, each numbered by its place in the order of
/// insertion.
pub struct SharedKeys(KeyTable);

impl SharedKeys {
    pub const MAX_KEYS: u16 = 2048;

    pub const MAX_KEY_LEN: u16 = 16;

    /// The keys are distinct texts of key characters, each mapped to its place, and there
    /// are at most `MAX_KEYS` of them.
    #[verifier::type_invariant]
    pub closed spec fn wf(&self) -> bool {
        let keys = table_keys(self.0);
        let map = table_map(self.0);
        &&& table_capacity(self.0) == Self::MAX_KEYS
        &&& keys_ok(keys)
        &&& numbered(keys, map)
    }

    /// The texts of the keys, in the order of their numbers.
    pub closed spec fn view(&self) -> Seq<Seq<u8>> {
        table_keys(self.0)
    }

    pub fn new() -> (s: Self)
        ensures
            s@ == Seq::<Seq<u8>>::empty(),
    {
        let m = table_new(Self::MAX_KEYS as usize);
        proof {
            assert(table_map(m).dom() =~= table_keys(m).to_set());
        }
        SharedKeys(m)
    }

    /// The number of keys.
    pub fn len(&self) -> (n: usize)
        ensures
            n == self@.len(),
    {
        table_len(&self.0)
    }

    /// The number of `string_key`, if it is a shared key. (A text with a zero byte is
    /// looked up by its part before the first zero byte; of it nothing is claimed.)
    pub fn encode(&self, string_key: &str) -> (r: Option<u16>)
        ensures
            !string_key.spec_bytes().contains(0u8) ==> (r is Some <==> self@.contains(
                kept(string_key.spec_bytes()),
            )),
            !string_key.spec_bytes().contains(0u8) ==> (r matches Some(i) ==> i < self@.len()
                && self@[i as int] == kept(string_key.spec_bytes())),
            r matches Some(i) ==> forall|j: int|
                0 <= j < self@.len() && self@[j] == self@[i as int] ==> j == i,
    {
        proof {
            use_type_invariant(self);
        }
        let z = zstr_make(string_key);
        let r = table_get(&self.0, &z);
        proof {
            if !string_key.spec_bytes().contains(0u8) {
                let t = kept(string_key.spec_bytes());
                if self@.contains(t) {
                    let i = choose|i: int| 0 <= i < self@.len() && self@[i] == t;
                    assert(table_map(self.0)[self@[i]] == i);
                    assert(table_keys(self.0).to_set().contains(t));
                }
                if r is Some {
                    assert(table_keys(self.0).to_set().contains(t));
                    let i = choose|i: int| 0 <= i < self@.len() && self@[i] == t;
                    assert(table_map(self.0)[self@[i]] == i);
                }
            }
        }
        r
    }

    /// The number of `key`, where it may be added: the number it has, if it is a shared key
    /// already, else the next number, which it is given.
    pub fn encode_and_insert(&mut self, key: &str) -> (r: Option<u16>)
        ensures
            r is Some <==> spec_can_add(old(self)@.len(), key),
            r is Some && old(self)@.contains(kept(key.spec_bytes())) ==> final(self)@ == old(self)@
                && (r->0) < old(self)@.len() && old(self)@[r->0 as int] == kept(key.spec_bytes()),
            r is Some && !old(self)@.contains(kept(key.spec_bytes())) ==> r->0 == old(self)@.len()
                && final(self)@ == old(self)@.push(kept(key.spec_bytes())),
            r is None ==> final(self)@ == old(self)@,
    {
        proof {
            use_type_invariant(&*self);
        }
        if !self.can_add(key) {
            return None;
        }
        proof {
            lemma_no_zero_byte(key@);
            lemma_kept_chars(key);
        }
        let z = zstr_make(key);
        let ghost t = kept(key.spec_bytes());
        proof {
            if old(self)@.contains(t) {
                let i = choose|i: int| 0 <= i < old(self)@.len() && old(self)@[i] == t;
                assert(table_keys(old(self).0).to_set().contains(t));
                assert(table_map(self.0)[self@[i]] == i);
            }
        }
        match table_get(&self.0, &z) {
            Some(index) => {
                proof {
                    assert(table_keys(self.0).to_set().contains(t));
                    let i = choose|i: int| 0 <= i < self@.len() && self@[i] == t;
                    assert(table_map(self.0)[self@[i]] == i);
                }
                return Some(index);
            },
            None => {},
        }
        let index = table_len(&self.0) as u16;
        proof {
            lemma_push_keeps_numbering(table_keys(self.0), table_map(self.0), t, index);
        }
        let inserted = table_insert(&mut self.0, z, index);
        proof {
            if !inserted {
                assert(false);
            }
        }
        Some(index)
    }

    /// The text of key number `int_key`, where it is valid UTF-8.
    pub fn decode(&self, int_key: u16) -> (r: Option<&str>)
        ensures
            r matches Some(s) ==> int_key < self@.len() && s.spec_bytes() == self@[int_key as int],
            r is Some <==> int_key < self@.len() && valid_utf8(self@[int_key as int]),
    {
        proof {
            use_type_invariant(self);
        }
        let r = match table_get_key(&self.0, int_key as usize) {
            Some(z) => zstr_as_str(z),
            None => None,
        };
        proof {
            if let Some(s) = r {
                vstd::utf8::encode_utf8_valid_utf8(s@);
            }
        }
        r
    }

    /// Whether `key` may be added: there is room, it is at most `MAX_KEY_LEN` bytes long,
    /// and it holds only letters, digits, `_` and `-`.
    pub fn can_add(&self, key: &str) -> (b: bool)
        ensures
            b == spec_can_add(self@.len(), key),
            b ==> forall|i: int| 0 <= i < key@.len() ==> (#[trigger] key@[i]) as u32 != 0,
    {
        let n = self.len();
        if n >= Self::MAX_KEYS as usize {
            return false;
        }
        if key.as_bytes().len() > Self::MAX_KEY_LEN as usize {
            return false;
        }
        Self::can_encode(key)
    }

    /// Whether every character of `key` is a letter, a digit, `_` or `-`.
    fn can_encode(key: &str) -> (b: bool)
        ensures
            b == forall|i: int| 0 <= i < key@.len() ==> #[trigger] key_char(key@[i]),
            b ==> forall|i: int| 0 <= i < key@.len() ==> (#[trigger] key@[i]) as u32 != 0,
    {
        let n = key.unicode_len();
        let mut i: usize = 0;
        while i < n
            invariant
                n == key@.len(),
                i <= n,
                forall|j: int| 0 <= j < i ==> #[trigger] key_char(key@[j]),
                forall|j: int| 0 <= j < i ==> (#[trigger] key@[j]) as u32 != 0,
            decreases n - i,
        {
            let c = key.get_char(i);
            if !(is_alphanumeric(c) || c == '_' || c == '-') {
                assert(!key_char(key@[i as int]));
                return false;
            }
            i = i + 1;
        }
        true
    }
}

impl Clone for SharedKeys {
    /// Another table with the same keys.
    fn clone(&self) -> (c: Self)
        ensures
            c@ == self@,
    {
        proof {
            use_type_invariant(self);
        }
        SharedKeys(table_clone(&self.0))
    }
}

impl SharedKeys {
    /// The table that the state `value`, an Array of the keys' texts in the order of their
    /// numbers, describes; `None` where it is no Array, or an element cannot be read or
    /// added.
    pub fn from_state_value(value: &Value) -> (r: Option<Self>)
        requires
            value.wf(),
        ensures
            r is Some <==> state_ok(*value),
            r matches Some(sk) ==> sk@ == state_keys(*value),
    {
        let state = value.as_array()?;
        let mut shared_keys = Self::new();
        let n = state.len();
        let ghost texts = state_texts(*value);
        proof {
            assert(texts.take(0) =~= Seq::<Seq<u8>>::empty());
        }
        let mut i: usize = 0;
        while i < n
            invariant
                state.value == *value,
                state.wf(),
                value.spec_type() == ValueType::Array,
                n == value.spec_count(),
                texts == state_texts(*value),
                i <= n,
                state_build(texts.take(i as int)) == Some(shared_keys@),
                forall|j: int| 0 <= j < i ==> (#[trigger] state.spec_get(j)) is Some,
            decreases n - i,
        {
            let val = match state.get(i) {
                Some(v) => v,
                None => {
                    return None;
                },
            };
            let key = val.to_str();
            let ghost before = shared_keys@;
            proof {
                lemma_can_add_text(before.len(), key);
                assert(key.spec_bytes() == texts[i as int]);
                assert(texts.take(i + 1).drop_last() =~= texts.take(i as int));
                assert(texts.take(i + 1).last() == texts[i as int]);
            }
            if shared_keys.encode_and_insert(key).is_none() {
                proof {
                    assert(!text_can_add(before.len() as int, texts[i as int]));
                    assert(state_build(texts.take(i + 1)) is None);
                    lemma_state_build_stops(texts, i as int + 1, n as int);
                    assert(texts.take(n as int) =~= texts);
                }
                return None;
            }
            i = i + 1;
        }
        proof {
            assert(texts.take(n as int) =~= texts);
        }
        Some(shared_keys)
    }

    /// The table that the Fleece `data` describes, as `from_state_value` reads it.
    pub fn from_state_bytes(data: &[u8]) -> (r: Option<Self>)
        ensures
            r is Some <==> (spec_from_bytes(data) matches Ok(v) && state_ok(v)),
            r matches Some(sk) ==> sk@ == state_keys(spec_from_bytes(data)->Ok_0),
    {
        match Value::from_bytes(data) {
            Ok(value) => Self::from_state_value(&value),
            Err(_) => None,
        }
    }

    /// Write the state of the table to `encoder`: an Array of the keys' texts, in the order of
    /// their numbers. `None` where the encoder refuses it, or a key's text is not UTF-8.
    pub fn write_state(&self, encoder: &mut Encoder) -> (r: Option<()>)
        requires
            old(encoder).wf(),
        ensures
            final(encoder).wf(),
            final(encoder).spec_out().len() >= old(encoder).spec_out().len(),
            final(encoder).spec_out().subrange(0, old(encoder).spec_out().len() as int)
                == old(encoder).spec_out(),
            !(old(encoder).can_open() && !old(encoder).spec_closed()) ==> r is None
                && final(encoder).same(old(encoder)),
            old(encoder).spec_stack().len() == 0 && !old(encoder).spec_closed()
                && old(encoder).spec_len() == 0 && (forall|i: int|
                0 <= i < self@.len() ==> valid_utf8(#[trigger] self@[i])) ==> r is Some
                && final(encoder).spec_out() == old(encoder).spec_out() + state_fleece(self@)
                && final(encoder).spec_stack().len() == 0,
    {
        proof {
            use_type_invariant(self);
        }
        let n = self.len();
        let ghost out0 = encoder.spec_out();
        let ghost keys = self@;
        let ghost fresh = old(encoder).spec_stack().len() == 0 && !old(encoder).spec_closed()
            && old(encoder).spec_len() == 0 && (forall|i: int|
            0 <= i < keys.len() ==> valid_utf8(#[trigger] keys[i]));
        let opened = encoder.begin_array(n);
        if opened.is_err() {
            assert(encoder.spec_out().subrange(0, out0.len() as int) =~= out0);
            return None;
        }
        assert(encoder.spec_out().subrange(0, out0.len() as int) =~= out0);
        proof {
            assert(keys.take(0) =~= Seq::<Seq<u8>>::empty());
        }
        let mut i: usize = 0;
        while i < n
            invariant
                n == self@.len(),
                keys == self@,
                keys_ok(keys),
                i <= n,
                encoder.wf(),
                out0 == old(encoder).spec_out(),
                old(encoder).can_open() && !old(encoder).spec_closed(),
                encoder.spec_out().len() >= out0.len(),
                encoder.spec_out().subrange(0, out0.len() as int) == out0,
                fresh == (old(encoder).spec_stack().len() == 0 && !old(encoder).spec_closed()
                    && old(encoder).spec_len() == 0 && (forall|j: int|
                    0 <= j < keys.len() ==> valid_utf8(#[trigger] keys[j]))),
                fresh ==> ({
                    let w = keys_written(0, keys.take(i as int));
                    &&& encoder.spec_stack().len() == 1
                    &&& encoder.spec_stack().last() matches Collection::Array(a) && a.values@ == w.1
                    &&& encoder.spec_out() == out0 + w.0
                    &&& encoder.spec_len() == w.0.len()
                    &&& !encoder.spec_closed()
                }),
            decreases n - i,
        {
            let key = match self.decode(i as u16) {
                Some(k) => k,
                None => {
                    return None;
                },
            };
            let ghost out1 = encoder.spec_out();
            if key.as_bytes().len() > usize::MAX - 16 {
                return None;
            }
            proof {
                crate::value::varint::lemma_varint_size_bounds(key.spec_bytes().len() as u64);
                crate::encoder::encodable::lemma_inline_type(0x40);
                crate::encoder::encodable::lemma_inline_type(0x41);
                if fresh {
                    assert(keys[i as int] == keys[i as int]);
                    let pre = keys.take(i as int);
                    assert forall|j: int| 0 <= j < pre.len() implies (#[trigger] pre[j]).len() <= 15 by {
                        assert(pre[j] == keys[j]);
                    }
                    lemma_keys_written_len(pre);
                }
            }
            let ghost e1 = *encoder;
            if encoder.write_value(key).is_err() {
                return None;
            }
            proof {
                assert(encoder.spec_out().subrange(0, out0.len() as int) =~= out1.subrange(
                    0,
                    out0.len() as int,
                ));
                if fresh {
                    let pre = keys.take(i as int);
                    let nxt = keys.take(i as int + 1);
                    assert(nxt.drop_last() =~= pre);
                    assert(nxt.last() == key.spec_bytes());
                    let w0 = keys_written(0, pre);
                    let w1 = keys_written(0, nxt);
                    assert(encoder.spec_out() == out0 + w1.0) by {
                        if string_sized(0x40, key.spec_bytes()) is None {
                            assert(out0 + w0.0 + padded(string_fleece(0x40, key.spec_bytes(), false))
                                =~= out0 + (w0.0 + padded(string_fleece(0x40, key.spec_bytes(), false))));
                        }
                    }
                }
            }
            i = i + 1;
        }
        let ghost out2 = encoder.spec_out();
        proof {
            if fresh {
                assert(keys.take(n as int) =~= keys);
                lemma_keys_written_len(keys);
                let w = keys_written(0, keys);
                let len = w.0.len() as int;
                let cnt = w.1.len() as int;
                let first = first_pos(len, cnt);
                let wide = needs_wide(w.1, first);
                crate::value::varint::lemma_varint_size_bounds(cnt as u64);
                assert(first <= len + 13);
                assert(end_pos(len, cnt, w.1) <= first + 4 * cnt);
                assert forall|j: int| 0 <= j < w.1.len() implies !crate::encoder::reaches_past(
                    #[trigger] w.1[j],
                    first + j * crate::encoder::width(wide),
                    crate::value::pointer::MAX_WIDE as int,
                ) by {
                    assert(j * crate::encoder::width(wide) <= 4 * cnt) by (nonlinear_arith)
                        requires
                            0 <= j < cnt,
                            crate::encoder::width(wide) <= 4,
                    ;
                }
                assert(!crate::encoder::too_large(len, cnt, w.1, false));
            }
        }
        let r = encoder.end_array();
        proof {
            if r is Ok {
                assert(encoder.spec_out().subrange(0, out0.len() as int) =~= out2.subrange(
                    0,
                    out0.len() as int,
                ));
            }
            if fresh {
                let w = keys_written(0, keys);
                let len = w.0.len() as int;
                let cnt = w.1.len() as int;
                let first = first_pos(len, cnt);
                let wide = needs_wide(w.1, first);
                let body = padded(collection_fleece(0x60, cnt as usize, wide)) + elements_fleece(
                    placed_all(w.1, first, wide),
                    wide,
                );
                assert(out0 + w.0 + body + root_fleece(end_pos(len, cnt, w.1) - len) =~= out0
                    + state_fleece(keys));
            }
        }
        match r {
            Ok(()) => Some(()),
            Err(_) => None,
        }
    }

    /// The state of the table as Fleece bytes: an Array of the keys' texts in the order of
    /// their numbers.
    pub fn get_state_bytes(&self) -> (out: Vec<u8>)
        ensures
            keys_ok(self@),
            (forall|i: int| 0 <= i < self@.len() ==> valid_utf8(#[trigger] self@[i])) ==> out@
                == state_fleece(self@),
    {
        proof {
            use_type_invariant(self);
        }
        let mut encoder = Encoder::new();
        let _ = self.write_state(&mut encoder);
        proof {
            assert(Seq::<u8>::empty() + state_fleece(self@) =~= state_fleece(self@));
        }
        encoder.finish()
    }
}

} // verus!
