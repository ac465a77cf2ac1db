use crate::value::array::Array;
use crate::value::{Value, ValueType};
use vstd::prelude::*;
use vstd::string::StringSliceAdditionalSpecFns;

verus! {

/// A Fleece Dict: an Array whose elements alternate key, value.
#[derive(Clone, Copy)]
pub struct Dict<'a> {
    pub array: Array<'a>,
}

/// Lexicographic order of byte strings: -1, 0 or 1 as `a` is below, equal to or above `b`.
pub open spec fn lex_order(a: Seq<u8>, b: Seq<u8>) -> int
    decreases a.len(),
{
    if a.len() == 0 && b.len() == 0 {
        0
    } else if a.len() == 0 {
        -1
    } else if b.len() == 0 {
        1
    } else if a[0] < b[0] {
        -1
    } else if a[0] > b[0] {
        1
    } else {
        lex_order(a.drop_first(), b.drop_first())
    }
}

/// Swapping the byte strings negates their order.
pub proof fn lemma_lex_order_antisymmetric(a: Seq<u8>, b: Seq<u8>)
    ensures
        lex_order(a, b) == -lex_order(b, a),
        -1 <= lex_order(a, b) <= 1,
    decreases a.len(),
{
    if a.len() > 0 && b.len() > 0 && a[0] == b[0] {
        lemma_lex_order_antisymmetric(a.drop_first(), b.drop_first());
    }
}

/// Byte strings that stand equal in the order are the same.
pub proof fn lemma_lex_order_equal(a: Seq<u8>, b: Seq<u8>)
    ensures
        lex_order(a, b) == 0 <==> a == b,
    decreases a.len(),
{
    if a.len() > 0 && b.len() > 0 && a[0] == b[0] {
        lemma_lex_order_equal(a.drop_first(), b.drop_first());
        if a.drop_first() == b.drop_first() {
            assert(a =~= seq![a[0]] + a.drop_first());
            assert(b =~= seq![b[0]] + b.drop_first());
        } else {
            assert(a.drop_first() != b.drop_first() ==> a != b);
        }
    } else if a.len() == 0 && b.len() == 0 {
        assert(a =~= b);
    }
}

/// The order of byte strings is transitive.
pub proof fn lemma_lex_order_transitive(a: Seq<u8>, b: Seq<u8>, c: Seq<u8>)
    requires
        lex_order(a, b) < 0,
        lex_order(b, c) < 0,
    ensures
        lex_order(a, c) < 0,
    decreases a.len(),
{
    if a.len() > 0 && b.len() > 0 && c.len() > 0 && a[0] == b[0] && b[0] == c[0] {
        lemma_lex_order_transitive(a.drop_first(), b.drop_first(), c.drop_first());
    }
}

/// Where a string key `kb` stands against a Dict key: -1, 0 or 1 as it sorts before, equal to
/// or after it. String keys compare by their bytes; keys whose first byte is below a
/// String's (Shorts, the shared keys) sort before every string, the others after; a key that
/// cannot be read sorts after.
pub open spec fn key_order<'a>(kb: Seq<u8>, key: Option<Value<'a>>) -> int {
    match key {
        None => -1,
        Some(k) => if k.spec_type() == ValueType::String {
            lex_order(kb, k.spec_data())
        } else if k.byte(0) < 0x40 {
            1
        } else {
            -1
        },
    }
}

/// Compare two byte strings lexicographically.
pub fn compare_bytes(a: &[u8], b: &[u8]) -> (r: i8)
    ensures
        r == lex_order(a@, b@),
{
    let mut i: usize = 0;
    proof {
        assert(a@.skip(0) =~= a@);
        assert(b@.skip(0) =~= b@);
    }
    while i < a.len() && i < b.len()
        invariant
            i <= a@.len(),
            i <= b@.len(),
            forall|j: int| 0 <= j < i ==> a@[j] == b@[j],
            lex_order(a@, b@) == lex_order(a@.skip(i as int), b@.skip(i as int)),
        decreases a.len() - i,
    {
        if a[i] < b[i] {
            return -1;
        }
        if a[i] > b[i] {
            return 1;
        }
        proof {
            assert(a@.skip(i as int).drop_first() =~= a@.skip(i + 1));
            assert(b@.skip(i as int).drop_first() =~= b@.skip(i + 1));
        }
        i = i + 1;
    }
    if i < a.len() {
        1
    } else if i < b.len() {
        -1
    } else {
        0
    }
}

impl<'a> Value<'a> {
    /// Convert to a Dict, if this is one.
    pub fn as_dict(&self) -> (r: Option<Dict<'a>>)
        requires
            self.wf(),
        ensures
            self.spec_type() == ValueType::Dict <==> r is Some,
            r matches Some(d) ==> d.array.value == *self,
    {
        if self.value_type() == ValueType::Dict {
            Some(Dict { array: Array { value: *self } })
        } else {
            None
        }
    }
}

impl<'a> Dict<'a> {
    pub open spec fn wf(self) -> bool {
        self.array.wf()
    }

    /// The number of key-value pairs.
    pub open spec fn spec_len(self) -> int {
        self.array.value.spec_count() as int / 2
    }

    /// The key of entry `i`.
    pub open spec fn spec_key(self, i: int) -> Option<Value<'a>> {
        self.array.spec_get(2 * i)
    }

    /// The value of entry `i`.
    pub open spec fn spec_value(self, i: int) -> Option<Value<'a>> {
        self.array.spec_get(2 * i + 1)
    }

    /// Where `kb` stands against the key of entry `i`.
    #[verifier::opaque]
    pub open spec fn order_at(self, kb: Seq<u8>, i: int) -> int {
        key_order(kb, self.spec_key(i))
    }

    /// The keys are in order for a search of `kb`: the place of `kb` against them never rises
    /// from one entry to the next, and at most one key equals it.
    pub open spec fn sorted_for(self, kb: Seq<u8>) -> bool {
        forall|i: int, j: int|
            0 <= i < j < self.spec_len() ==> #[trigger] self.order_at(kb, j) <= #[trigger] self.order_at(
                kb,
                i,
            ) && !(self.order_at(kb, i) == 0 && self.order_at(kb, j) == 0)
    }

    /// What a binary search for `kb` among the entries `left` to `right` finds: the value
    /// of the middle entry where its key is `kb`, else the search in the half that `kb`
    /// lies in by that key.
    pub open spec fn search(self, kb: Seq<u8>, left: int, right: int) -> Option<Value<'a>>
        decreases right - left,
    {
        if left >= right {
            None
        } else {
            let mid = left + (right - left) / 2;
            let c = self.order_at(kb, mid);
            if c == 0 {
                self.spec_value(mid)
            } else if c > 0 {
                self.search(kb, mid + 1, right)
            } else {
                self.search(kb, left, mid)
            }
        }
    }

    /// What `get` finds for the key `kb`: the search among all entries.
    pub open spec fn spec_find(self, kb: Seq<u8>) -> Option<Value<'a>> {
        self.search(kb, 0, self.spec_len())
    }

    /// Where the keys are in order for `kb`, the search between `left` and `right` finds
    /// the value of the entry there whose key is `kb`, and nothing where none is.
    pub proof fn lemma_search(self, kb: Seq<u8>, left: int, right: int)
        requires
            self.sorted_for(kb),
            0 <= left <= right <= self.spec_len(),
        ensures
            forall|i: int|
                left <= i < right && #[trigger] self.order_at(kb, i) == 0 ==> self.search(kb, left, right)
                    == self.spec_value(i),
            (forall|i: int| left <= i < right ==> #[trigger] self.order_at(kb, i) != 0) ==> self.search(
                kb,
                left,
                right,
            ) is None,
        decreases right - left,
    {
        if left < right {
            let mid = left + (right - left) / 2;
            let c = self.order_at(kb, mid);
            if c > 0 {
                self.lemma_search(kb, mid + 1, right);
                assert forall|i: int| left <= i <= mid implies #[trigger] self.order_at(kb, i) != 0 by {
                    if i < mid {
                        assert(self.order_at(kb, mid) <= self.order_at(kb, i));
                    }
                }
            } else if c < 0 {
                self.lemma_search(kb, left, mid);
                assert forall|i: int| mid <= i < right implies #[trigger] self.order_at(kb, i) != 0 by {
                    if i > mid {
                        assert(self.order_at(kb, i) <= self.order_at(kb, mid));
                    }
                }
            } else {
                assert forall|i: int| left <= i < right && #[trigger] self.order_at(kb, i) == 0 implies i
                    == mid by {
                    if i < mid {
                        assert(!(self.order_at(kb, i) == 0 && self.order_at(kb, mid) == 0));
                    } else if i > mid {
                        assert(!(self.order_at(kb, mid) == 0 && self.order_at(kb, i) == 0));
                    }
                }
            }
        }
    }

    /// Entry `i` has the String key `kb`.
    pub open spec fn has_key(self, i: int, kb: Seq<u8>) -> bool {
        self.spec_key(i) matches Some(k) && k.spec_type() == ValueType::String && k.spec_data() == kb
    }

    /// In a Dict whose keys are in order for `kb` (as the keys of every Dict the Encoder
    /// writes are, for every `kb`), `get` finds the value of the entry whose String key is
    /// `kb`, and nothing where no entry has that key: so it finds every key `iter` yields,
    /// with the value `iter` pairs it with, and no other.
    pub proof fn law_get_finds_entries(self, kb: Seq<u8>)
        requires
            self.sorted_for(kb),
        ensures
            forall|i: int|
                0 <= i < self.spec_len() && #[trigger] self.has_key(i, kb) ==> self.spec_find(kb)
                    == self.spec_value(i),
            (forall|i: int| 0 <= i < self.spec_len() ==> !#[trigger] self.has_key(i, kb))
                ==> self.spec_find(kb) is None,
    {
        reveal(Dict::order_at);
        assert forall|i: int| 0 <= i < self.spec_len() implies (#[trigger] self.order_at(kb, i) == 0
            <==> self.has_key(i, kb)) by {
            if let Some(k) = self.spec_key(i) {
                lemma_lex_order_equal(kb, k.spec_data());
            }
        }
        self.lemma_search(kb, 0, self.spec_len());
        assert forall|i: int| 0 <= i < self.spec_len() && #[trigger] self.has_key(i, kb) implies self.spec_find(
            kb,
        ) == self.spec_value(i) by {
            assert(self.order_at(kb, i) == 0);
        }
    }

    /// The number of key-value pairs in this dict.
    pub fn len(&self) -> (n: usize)
        requires
            self.wf(),
        ensures
            n == self.spec_len(),
    {
        self.array.len() / 2
    }

    pub fn is_empty(&self) -> (b: bool)
        requires
            self.wf(),
        ensures
            b == (self.array.value.spec_count() == 0),
    {
        self.array.is_empty()
    }

    pub fn is_wide(&self) -> (b: bool)
        requires
            self.wf(),
        ensures
            b == self.array.value.spec_is_wide(),
    {
        self.array.is_wide()
    }

    pub fn width(&self) -> (w: u8)
        requires
            self.wf(),
        ensures
            w == self.array.value.spec_width(),
    {
        self.array.width()
    }

    /// The key and value of entry `i`, where both can be read.
    fn _get_entry(&self, i: usize) -> (r: (Option<Value<'a>>, Option<Value<'a>>))
        requires
            self.wf(),
            i < self.spec_len(),
        ensures
            r.0 == self.spec_key(i as int),
            r.1 == self.spec_value(i as int),
            r.0 matches Some(k) ==> k.wf(),
            r.1 matches Some(v) ==> v.wf(),
    {
        (self.array.get(2 * i), self.array.get(2 * i + 1))
    }

    /// The first key-value pair in the dict.
    pub fn first(&self) -> (r: Option<(Value<'a>, Value<'a>)>)
        requires
            self.wf(),
        ensures
            r matches Some((k, v)) ==> self.spec_len() > 0 && self.spec_key(0) == Some(k)
                && self.spec_value(0) == Some(v),
            r is None ==> self.array.value.spec_count() == 0 || self.spec_len() == 0
                || self.spec_key(0) is None || self.spec_value(0) is None,
    {
        if self.is_empty() || self.len() == 0 {
            return None;
        }
        match self._get_entry(0) {
            (Some(k), Some(v)) => Some((k, v)),
            _ => None,
        }
    }

    /// Where `key` stands against the key of entry `i`.
    fn _order_at(&self, key: &[u8], i: usize) -> (r: i8)
        requires
            self.wf(),
            i < self.spec_len(),
        ensures
            r == self.order_at(key@, i as int),
    {
        reveal(Dict::order_at);
        match self.array.get(2 * i) {
            None => -1,
            Some(k) => {
                if k.value_type() == ValueType::String {
                    compare_bytes(key, k.to_data())
                } else if k.byte_exec(0) < 0x40 {
                    1
                } else {
                    -1
                }
            },
        }
    }

    /// The value of the entry whose key is the string `key`, found by binary search (the keys
    /// of a Dict are sorted). Where the keys are in order for `key`, `None` means that no
    /// entry has it (or that its value cannot be read).
    pub fn get(&self, key: &str) -> (r: Option<Value<'a>>)
        requires
            self.wf(),
        ensures
            r == self.spec_find(key.spec_bytes()),
            r matches Some(v) ==> v.wf() && exists|i: int|
                0 <= i < self.spec_len() && self.order_at(key.spec_bytes(), i) == 0
                    && self.spec_value(i) == Some(v),
            r is None && self.sorted_for(key.spec_bytes()) ==> forall|i: int|
                0 <= i < self.spec_len() && self.order_at(key.spec_bytes(), i) == 0
                    ==> self.spec_value(i) is None,
    {
        let kb = key.as_bytes();
        let n = self.len();
        let mut left: usize = 0;
        let mut right: usize = n;
        while left < right
            invariant
                self.wf(),
                kb@ == key.spec_bytes(),
                n == self.spec_len(),
                0 <= left <= right <= n,
                self.search(kb@, left as int, right as int) == self.spec_find(kb@),
                self.sorted_for(kb@) ==> forall|i: int|
                    0 <= i < left ==> #[trigger] self.order_at(kb@, i) > 0,
                self.sorted_for(kb@) ==> forall|i: int|
                    right <= i < n ==> #[trigger] self.order_at(kb@, i) < 0,
            decreases right - left,
        {
            let mid = left + (right - left) / 2;
            let c = self._order_at(kb, mid);
            if c == 0 {
                let (_, v) = self._get_entry(mid);
                proof {
                    if self.sorted_for(kb@) {
                        assert forall|i: int|
                            0 <= i < self.spec_len() && self.order_at(kb@, i) == 0 implies self.spec_value(i) is None || i == mid by {
                            if i < mid {
                                assert(self.order_at(kb@, mid as int) <= self.order_at(kb@, i));
                            } else if i > mid {
                                assert(self.order_at(kb@, i) <= self.order_at(kb@, mid as int));
                            }
                        }
                    }
                }
                return v;
            }
            proof {
                if self.sorted_for(kb@) {
                    if c > 0 {
                        assert forall|i: int| 0 <= i < mid + 1 implies #[trigger] self.order_at(kb@, i) > 0 by {
                            if i < mid {
                                assert(self.order_at(kb@, mid as int) <= self.order_at(kb@, i));
                            }
                        }
                    } else {
                        assert forall|i: int| mid <= i < n implies #[trigger] self.order_at(kb@, i) < 0 by {
                            if i > mid {
                                assert(self.order_at(kb@, i) <= self.order_at(kb@, mid as int));
                            }
                        }
                    }
                }
            }
            if c > 0 {
                left = mid + 1;
            } else {
                right = mid;
            }
        }
        None
    }

    /// Whether some entry has the string `key`, as `get` finds it.
    pub fn contains_key(&self, key: &str) -> (b: bool)
        requires
            self.wf(),
        ensures
            b == self.spec_find(key.spec_bytes()) is Some,
            b ==> exists|i: int|
                0 <= i < self.spec_len() && self.order_at(key.spec_bytes(), i) == 0
                    && self.spec_value(i) is Some,
            !b && self.sorted_for(key.spec_bytes()) ==> forall|i: int|
                0 <= i < self.spec_len() && self.order_at(key.spec_bytes(), i) == 0
                    ==> self.spec_value(i) is None,
    {
        self.get(key).is_some()
    }

    /// Where the entries, read in order, stop: at the first whose key or value cannot be
    /// read, or whose key is a Short (a shared key, whose text only the shared keys hold).
    pub open spec fn readable_prefix(self, n: int) -> bool {
        forall|i: int|
            0 <= i < n ==> (#[trigger] self.spec_key(i)) is Some && self.spec_value(i) is Some
                && self.spec_key(i)->0.spec_type() != ValueType::Short
    }

    /// The key-value pairs, in order, up to the first that cannot be read or whose key is a
    /// shared key; each key as its text.
    pub fn iter(&self) -> (r: Vec<(&'a str, Value<'a>)>)
        requires
            self.wf(),
        ensures
            r@.len() <= self.spec_len(),
            self.readable_prefix(r@.len() as int),
            r@.len() < self.spec_len() ==> !self.readable_prefix(r@.len() as int + 1),
            forall|i: int|
                0 <= i < r@.len() ==> (#[trigger] r@[i]).0.spec_bytes() == self.spec_key(
                    i,
                )->0.spec_str_bytes() && Some(r@[i].1) == self.spec_value(i),
    {
        let n = self.len();
        let mut out: Vec<(&'a str, Value<'a>)> = Vec::new();
        let mut i: usize = 0;
        while i < n
            invariant
                self.wf(),
                n == self.spec_len(),
                i <= n,
                out@.len() == i,
                self.readable_prefix(i as int),
                forall|j: int|
                    0 <= j < i ==> (#[trigger] out@[j]).0.spec_bytes() == self.spec_key(
                        j,
                    )->0.spec_str_bytes() && Some(out@[j].1) == self.spec_value(j),
            decreases n - i,
        {
            match self._get_entry(i) {
                (Some(k), Some(v)) => {
                    if k.value_type() == ValueType::Short {
                        return out;
                    }
                    out.push((k.to_str(), v));
                },
                _ => {
                    return out;
                },
            }
            i = i + 1;
        }
        out
    }
}

} // verus!
