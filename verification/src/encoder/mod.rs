//! The Encoder: writes values, Arrays and Dicts as Fleece.
pub mod encodable;
pub mod error;
pub mod value_stack;

use crate::encoder::encodable::{
    collection_fleece, pointer_fleece, short_sized, string_fleece, string_sized, Double32Bits,
    Encodable, Float32Bits, Float64Bits, NullValue, UndefinedValue,
};
use crate::alloced::AllocedValue;
use crate::encoder::error::EncodeError;
use crate::value::error::DecodeError;
use crate::encoder::value_stack::{Collection, CollectionStack, DictElement, DictKey};
use crate::value::pointer::{spec_deref, MAX_NARROW, MAX_WIDE};
use crate::value::sized::SizedValue;
use crate::value::dict::{compare_bytes, lex_order, lemma_lex_order_antisymmetric};
use crate::value::array::Array;
use crate::value::dict::Dict;
use crate::value::{constants, pointer, varint, Value, ValueType};
use vstd::string::{StrSliceExecFns, StringSliceAdditionalSpecFns};
use vstd::utf8::encode_utf8;
use vstd::prelude::*;

verus! {

/// The encoding a scalar Fleece value `v` is copied as: the value read back and written
/// again. (Strings as their text, Data as its bytes, Double32 as a 32-bit float marked
/// double.)
pub open spec fn copy_fleece(v: Value) -> Seq<u8> {
    match v.spec_type() {
        ValueType::Null => NullValue.spec_fleece(false),
        ValueType::Undefined => UndefinedValue.spec_fleece(false),
        ValueType::False => false.spec_fleece(false),
        ValueType::True => true.spec_fleece(false),
        ValueType::Short => v.spec_to_short().spec_fleece(false),
        ValueType::Int => v.spec_to_int().spec_fleece(false),
        ValueType::UnsignedInt => (v.spec_to_int() as u64).spec_fleece(false),
        ValueType::Float => Float32Bits(v.f32_bits()).spec_fleece(false),
        ValueType::Double32 => Double32Bits(v.f32_bits()).spec_fleece(false),
        ValueType::Double64 => Float64Bits(v.f64_bits()).spec_fleece(false),
        ValueType::String => string_fleece(0x40, v.spec_str_bytes(), false),
        ValueType::Data => string_fleece(0x50, v.spec_data(), false),
        _ => Seq::empty(),
    }
}

/// The value a pointer `v` (of width `is_wide`) leads to; other values are themselves.
pub open spec fn resolved<'a>(v: Value<'a>, is_wide: bool) -> Value<'a> {
    if v.spec_type() == ValueType::Pointer {
        match spec_deref(v.data@, v.start as int, v.end as int, is_wide) {
            Ok((s, e)) => Value { data: v.data, start: s as usize, end: e as usize },
            Err(_) => v,
        }
    } else {
        v
    }
}

/// The inline slot a scalar Fleece value `v` is copied as, where it fits in one.
pub open spec fn copy_sized(v: Value) -> Option<SizedValue> {
    match v.spec_type() {
        ValueType::Null => NullValue.spec_sized(),
        ValueType::Undefined => UndefinedValue.spec_sized(),
        ValueType::False => false.spec_sized(),
        ValueType::True => true.spec_sized(),
        ValueType::Short => v.spec_to_short().spec_sized(),
        ValueType::Int => v.spec_to_int().spec_sized(),
        ValueType::UnsignedInt => (v.spec_to_int() as u64).spec_sized(),
        ValueType::String => string_sized(0x40, v.spec_str_bytes()),
        ValueType::Data => string_sized(0x50, v.spec_data()),
        _ => None,
    }
}

/// A value that is neither a collection nor a pointer.
pub open spec fn is_scalar(v: Value) -> bool {
    v.spec_type() != ValueType::Array && v.spec_type() != ValueType::Dict && v.spec_type()
        != ValueType::Pointer
}

/// `s`, with a zero byte added where its length is odd: every value starts at an even
/// position.
pub open spec fn padded(s: Seq<u8>) -> Seq<u8> {
    if s.len() % 2 == 1 {
        s.push(0)
    } else {
        s
    }
}

/// A value that holds no temporary pointer past `len`: a temporary pointer holds the
/// (even) position it points to.
pub open spec fn points_back(v: SizedValue, len: int) -> bool {
    v.spec_type() == ValueType::Pointer ==> v.spec_pointer_offset() <= len
        && v.spec_pointer_offset() % 2 == 0
}

/// A Dict key that, where written out of line, lies before `len`.
pub open spec fn key_points_back(k: DictKey, len: int) -> bool {
    match k {
        DictKey::Pointer(_, o) => o <= len && o <= MAX_WIDE && o % 2 == 0,
        DictKey::Inline(v) => v.spec_type() != ValueType::Pointer,
        DictKey::Shared(_) => true,
    }
}

/// A collection whose temporary pointers all lie before `len`.
pub open spec fn collection_points_back(c: Collection, len: int) -> bool {
    match c {
        Collection::Array(a) => forall|i: int|
            0 <= i < a.values@.len() ==> points_back(#[trigger] a.values@[i], len),
        Collection::Dict(d) => (forall|i: int|
            0 <= i < d.values@.len() ==> points_back((#[trigger] d.values@[i]).val, len)
                && key_points_back(d.values@[i].key, len)) && (d.next_key matches Some(k)
            ==> key_points_back(k, len)),
    }
}

/// The open collections point back before `len`, and each that holds another open one is
/// an Array or a Dict whose key waits for it.
pub open spec fn stack_wf(s: Seq<Collection>, len: int) -> bool {
    &&& forall|i: int| 0 <= i < s.len() ==> collection_points_back(#[trigger] s[i], len)
    &&& forall|i: int| 0 <= i < s.len() - 1 ==> !(#[trigger] s[i]).waits_for_key()
}

/// `c1` is `c0` with the value `v` added: as an Array's element, or as the value of a
/// Dict's waiting key.
pub open spec fn value_pushed(c0: Collection, c1: Collection, v: SizedValue) -> bool {
    match (c0, c1) {
        (Collection::Array(a0), Collection::Array(a1)) => a1.values@ == a0.values@.push(v),
        (Collection::Dict(d0), Collection::Dict(d1)) => d0.next_key is Some && d1.next_key is None
            && d1.values@ == d0.values@.push(DictElement { key: d0.next_key->0, val: v }),
        _ => false,
    }
}

/// `c1` is the Dict `c0` with `k` as its waiting key.
pub open spec fn key_pushed(c0: Collection, c1: Collection, k: DictKey) -> bool {
    match (c0, c1) {
        (Collection::Dict(d0), Collection::Dict(d1)) => d1.values@ == d0.values@ && d1.next_key
            == Some(k),
        _ => false,
    }
}

/// `s1` is `s0` with its innermost collection replaced, by one that `p` relates to it.
pub open spec fn top_changed(s0: Seq<Collection>, s1: Seq<Collection>) -> bool {
    s0.len() > 0 && s1.len() == s0.len() && s1.drop_last() == s0.drop_last()
}

/// The width of an element of a narrow or a wide collection.
pub open spec fn width(is_wide: bool) -> int {
    if is_wide {
        4
    } else {
        2
    }
}

/// The value `v` written at `pos`: a temporary pointer becomes the distance back to its
/// target.
pub open spec fn placed(v: SizedValue, pos: int) -> SizedValue {
    if v.spec_type() == ValueType::Pointer {
        SizedValue::spec_pointer((pos - v.spec_pointer_offset()) as u32)
    } else {
        v
    }
}

/// The elements `values` of a collection, written from `first` on.
pub open spec fn placed_all(values: Seq<SizedValue>, first: int, is_wide: bool) -> Seq<SizedValue> {
    Seq::new(values.len(), |i: int| placed(values[i], first + i * width(is_wide)))
}

/// The encodings of `s`, one after the other.
pub open spec fn elements_fleece(s: Seq<SizedValue>, is_wide: bool) -> Seq<u8>
    decreases s.len(),
{
    if s.len() == 0 {
        Seq::empty()
    } else {
        elements_fleece(s.drop_last(), is_wide) + s.last().spec_fleece(is_wide)
    }
}

/// `v`, written at `pos`, is a temporary pointer whose target lies more than `limit` back.
pub open spec fn reaches_past(v: SizedValue, pos: int, limit: int) -> bool {
    v.spec_type() == ValueType::Pointer && pos - v.spec_pointer_offset() > limit
}

/// The elements `values`, written narrow from `first` on, hold a pointer that reaches
/// further back than a narrow pointer can: the collection must be wide.
pub open spec fn needs_wide(values: Seq<SizedValue>, first: int) -> bool {
    exists|i: int| 0 <= i < values.len() && reaches_past(values[i], first + 2 * i, MAX_NARROW as int)
}

/// The elements `values`, written from `first` on, hold a pointer that reaches further back
/// than any pointer can.
pub open spec fn too_far(values: Seq<SizedValue>, first: int, is_wide: bool) -> bool {
    exists|i: int|
        0 <= i < values.len() && reaches_past(values[i], first + i * width(is_wide), MAX_WIDE as int)
}

/// The root that ends the output, `d` bytes after the top-level collection: a narrow
/// pointer back to it; where that is too far for a narrow pointer, a wide one, then a narrow
/// pointer back to that.
pub open spec fn root_fleece(d: int) -> Seq<u8> {
    if d <= MAX_NARROW {
        pointer_fleece(d as u32, false)
    } else {
        pointer_fleece(d as u32, true) + pointer_fleece(4, false)
    }
}

/// The length of a collection header of `n` elements, padded.
pub open spec fn header_len(n: int) -> int {
    padded(collection_fleece(0x60, n as usize, false)).len() as int
}

/// Where the elements of a collection of `n` elements whose header starts at `len` begin.
pub open spec fn first_pos(len: int, n: int) -> int {
    len + header_len(n)
}

/// Where the elements `values` of a collection of `count` elements or entries whose header
/// starts at `len` end.
pub open spec fn end_pos(len: int, count: int, values: Seq<SizedValue>) -> int {
    let first = first_pos(len, count);
    first + width(needs_wide(values, first)) * values.len()
}

/// A collection of `count` elements or entries, whose slots hold `values`, with its header
/// at `len` cannot be written: a pointer among them,
/// or the one to it (from the enclosing collection where `nested`, else from the root),
/// cannot be encoded, or the output would outgrow the machine.
pub open spec fn too_large(len: int, count: int, values: Seq<SizedValue>, nested: bool) -> bool {
    let first = first_pos(len, count);
    let wide = needs_wide(values, first);
    let end = end_pos(len, count, values);
    ||| end + 16 > usize::MAX
    ||| too_far(values, first, wide)
    ||| (nested && len > MAX_WIDE)
    ||| (!nested && end - len > MAX_WIDE)
}

/// What holds of the open collections for the output so far holds after more is written.
pub proof fn lemma_stack_wf_grows(s: Seq<Collection>, l1: int, l2: int)
    requires
        stack_wf(s, l1),
        l1 <= l2,
    ensures
        stack_wf(s, l2),
{
    assert forall|i: int| 0 <= i < s.len() implies collection_points_back(#[trigger] s[i], l2) by {
        assert(collection_points_back(s[i], l1));
    }
}

/// An element placed where its pointer reaches no further back than the collection's width
/// allows takes exactly that width.
pub proof fn lemma_placed_len(v: SizedValue, pos: int, is_wide: bool)
    requires
        points_back(v, pos),
        !reaches_past(v, pos, if is_wide { MAX_WIDE as int } else { MAX_NARROW as int }),
    ensures
        placed(v, pos).spec_fleece(is_wide).len() == width(is_wide),
        placed(v, pos).spec_fleece(false).len() <= 4,
{
    if v.spec_type() == ValueType::Pointer {
        let d = (pos - v.spec_pointer_offset()) as u32;
        SizedValue::lemma_spec_pointer(d);
        encodable::lemma_pointer_fleece_len(d, false);
        encodable::lemma_pointer_fleece_len(d, true);
    }
}

/// A pointer made of an offset that fits is written as the Fleece pointer of that offset.
pub proof fn lemma_pointer_fleece(d: u32)
    requires
        d <= MAX_WIDE,
    ensures
        SizedValue::spec_pointer(d).spec_fleece(false) == pointer_fleece(d, false),
        SizedValue::spec_pointer(d).spec_fleece(true) == pointer_fleece(d, true),
        pointer_fleece(d, true).len() == 4,
        pointer_fleece(d, false).len() == if d > MAX_NARROW { 4int } else { 2int },
{
    SizedValue::lemma_spec_pointer(d);
    encodable::lemma_pointer_fleece_len(d, false);
    encodable::lemma_pointer_fleece_len(d, true);
}

/// The text of a Dict key, by which the entries are sorted: the bytes of a String key.
pub open spec fn key_text(k: DictKey) -> Seq<u8> {
    match k {
        DictKey::Inline(v) => if v.b(0) == 0x41 {
            seq![v.b(1)]
        } else {
            Seq::empty()
        },
        DictKey::Pointer(t, _) => encode_utf8(t@),
        DictKey::Shared(_) => Seq::empty(),
    }
}

/// The slot that holds a Dict key: the inline key, a temporary pointer to one written out
/// of line, or the Short of a shared key.
pub open spec fn key_slot(k: DictKey) -> SizedValue {
    match k {
        DictKey::Inline(v) => v,
        DictKey::Pointer(_, o) => SizedValue::spec_pointer(o),
        DictKey::Shared(n) => short_sized(n as int),
    }
}

/// A Dict entry as it is sorted and written: the text of its key, the slot of its key, and
/// its value.
pub open spec fn entry_view(e: DictElement) -> (Seq<u8>, SizedValue, SizedValue) {
    (key_text(e.key), key_slot(e.key), e.val)
}

/// Entries in the order of the texts of their keys.
pub open spec fn entries_sorted(p: Seq<(Seq<u8>, SizedValue, SizedValue)>) -> bool {
    forall|i: int| 0 <= i < p.len() - 1 ==> lex_order(#[trigger] p[i].0, p[i + 1].0) <= 0
}

/// The slots of the entries `p`: each key, then its value.
pub open spec fn slots(p: Seq<(Seq<u8>, SizedValue, SizedValue)>) -> Seq<SizedValue> {
    Seq::new(
        2 * p.len(),
        |i: int|
            if i % 2 == 0 {
                p[i / 2].1
            } else {
                p[i / 2].2
            },
    )
}

/// The innermost collection of `e0`, a Dict, was closed with its entries arranged as `p`,
/// giving `e1`, with success `ok`: `p` holds the entries sorted by the texts of their keys;
/// it succeeds where the Dict, so laid out, fits; it writes the header and the slots, and
/// points to the Dict from the enclosing collection or from the root.
pub open spec fn dict_closed(
    e0: &Encoder,
    e1: &Encoder,
    ok: bool,
    p: Seq<(Seq<u8>, SizedValue, SizedValue)>,
) -> bool {
    let entries = e0.spec_stack().last()->Dict_0.values@;
    let len = e0.spec_len();
    let n = entries.len() as int;
    let nested = e0.spec_stack().len() > 1;
    let values = slots(p);
    let first = first_pos(len, n);
    let wide = needs_wide(values, first);
    let end = end_pos(len, n, values);
    let body = padded(collection_fleece(0x70, n as usize, wide)) + elements_fleece(
        placed_all(values, first, wide),
        wide,
    );
    &&& p.to_multiset() == entries.map_values(|e: DictElement| entry_view(e)).to_multiset()
    &&& entries_sorted(p)
    &&& (ok <==> !too_large(len, n, values, nested))
    &&& ok && nested ==> e1.spec_out() == e0.spec_out() + body && e1.spec_len() == end
        && !e1.spec_closed() && top_changed(e0.spec_stack().drop_last(), e1.spec_stack())
        && value_pushed(
        e0.spec_stack().drop_last().last(),
        e1.spec_stack().last(),
        SizedValue::spec_pointer(len as u32),
    )
    &&& ok && !nested ==> e1.spec_out() == e0.spec_out() + body + root_fleece(end - len)
        && e1.spec_len() == end + root_fleece(end - len).len() && e1.spec_stack().len() == 0
        && e1.spec_closed()
}

/// `e1` is `e0` with its innermost collection, an Array, written, as `end_array` writes
/// it: the header and the slots of its elements, then a pointer to it in the enclosing
/// collection, or, for the top-level collection, the root.
pub open spec fn array_closed(e0: &Encoder, e1: &Encoder) -> bool {
    let values = e0.spec_stack().last()->Array_0.values@;
    let len = e0.spec_len();
    let first = first_pos(len, values.len() as int);
    let wide = needs_wide(values, first);
    let body = padded(collection_fleece(0x60, values.len() as usize, wide)) + elements_fleece(
        placed_all(values, first, wide),
        wide,
    );
    &&& e0.spec_stack().len() > 1 ==> e1.spec_out() =~= e0.spec_out() + body && e1.spec_len()
        == end_pos(len, values.len() as int, values) && !e1.spec_closed() && top_changed(
        e0.spec_stack().drop_last(),
        e1.spec_stack(),
    ) && value_pushed(
        e0.spec_stack().drop_last().last(),
        e1.spec_stack().last(),
        SizedValue::spec_pointer(len as u32),
    )
    &&& e0.spec_stack().len() == 1 ==> e1.spec_out() =~= e0.spec_out() + body + root_fleece(
        end_pos(len, values.len() as int, values) - len,
    ) && e1.spec_len() == end_pos(len, values.len() as int, values) + root_fleece(
        end_pos(len, values.len() as int, values) - len,
    ).len() && e1.spec_stack().len() == 0 && e1.spec_closed()
}

/// The first `k` elements of the Array `a` can be read, and, where `k` is below its count,
/// the next cannot: a copy of `a` stops after `k` elements.
pub open spec fn readable_elements(a: Array, k: int) -> bool {
    &&& 0 <= k <= a.value.spec_count()
    &&& forall|j: int| 0 <= j < k ==> (#[trigger] a.spec_get(j)) is Some
    &&& k < a.value.spec_count() ==> a.spec_get(k) is None
}

/// The slots `slots` of a copy of the Array `a` hold, for each element that is a scalar
/// copied inline, that element's inline slot.
pub open spec fn inline_copies(a: Array, slots: Seq<SizedValue>) -> bool {
    forall|j: int|
        0 <= j < slots.len() && (#[trigger] a.spec_get(j) matches Some(e) && is_scalar(e)
            && copy_sized(e) is Some) ==> slots[j] == copy_sized(a.spec_get(j)->0)->0
}

/// The entries `elems` of a copy of the Dict `d` hold, each, the text of the key of the
/// entry of `d` at its place, and, where that entry's value is a scalar copied inline, that
/// value's inline slot.
pub open spec fn entry_copies(d: Dict, elems: Seq<DictElement>) -> bool {
    forall|j: int|
        0 <= j < elems.len() ==> key_text((#[trigger] elems[j]).key) == d.spec_key(j)->0.spec_str_bytes()
            && (d.spec_value(j) matches Some(e) && is_scalar(e) && copy_sized(e) is Some ==> elems[j].val
            == copy_sized(d.spec_value(j)->0)->0)
}

/// The first `k` entries of the Dict `d` can be read and have String keys, and, where `k`
/// is below its length, the next cannot or has a shared key: a copy of `d` stops after `k`
/// entries.
pub open spec fn readable_entries(d: Dict, k: int) -> bool {
    &&& 0 <= k <= d.spec_len()
    &&& d.readable_prefix(k)
    &&& k < d.spec_len() ==> !d.readable_prefix(k + 1)
}

/// `e1` is `e0` with one more value written: as a slot added to the innermost open
/// collection, or, where none was open, as the top-level collection, closed.
pub open spec fn one_value_written(e0: &Encoder, e1: &Encoder) -> bool {
    if e0.spec_stack().len() == 0 {
        e1.spec_stack().len() == 0 && e1.spec_closed()
    } else {
        &&& !e1.spec_closed()
        &&& top_changed(e0.spec_stack(), e1.spec_stack())
        &&& exists|v: SizedValue| #[trigger]
            value_pushed(e0.spec_stack().last(), e1.spec_stack().last(), v)
    }
}

/// The innermost open collection of `e` cannot be written: an Array, or a Dict with no key
/// waiting, whose slots make it too large (`end_array` and `end_dict` refuse it).
pub open spec fn cannot_close(e: &Encoder) -> bool {
    &&& e.spec_stack().len() > 0
    &&& match e.spec_stack().last() {
        Collection::Array(a) => too_large(
            e.spec_len(),
            a.values@.len() as int,
            a.values@,
            e.spec_stack().len() > 1,
        ),
        Collection::Dict(d) => d.next_key is None && exists|
            p: Seq<(Seq<u8>, SizedValue, SizedValue)>,
        | #[trigger] dict_closed(e, e, false, p),
    }
}

/// A Dict entry being sorted.
struct SortEntry {
    text: Vec<u8>,
    key: SizedValue,
    val: SizedValue,
}

spec fn sort_view(e: SortEntry) -> (Seq<u8>, SizedValue, SizedValue) {
    (e.text@, e.key, e.val)
}

/// Writes Fleece: values inside Arrays and Dicts, one top-level collection, to bytes.
pub struct Encoder {
    out: Vec<u8>,
    collection_stack: CollectionStack,
    len: usize,
    top_collection_closed: bool,
}

impl Encoder {
    /// All the bytes of the output (those it was made with, then those written).
    pub closed spec fn spec_out(&self) -> Seq<u8> {
        self.out@
    }

    /// The number of bytes written.
    pub closed spec fn spec_len(&self) -> int {
        self.len as int
    }

    /// The open collections, innermost last.
    pub closed spec fn spec_stack(&self) -> Seq<Collection> {
        self.collection_stack@
    }

    /// Whether the top-level collection has been closed.
    pub closed spec fn spec_closed(&self) -> bool {
        self.top_collection_closed
    }

    /// The bytes this Encoder wrote.
    pub open spec fn spec_written(&self) -> Seq<u8> {
        self.spec_out().subrange(self.spec_out().len() - self.spec_len(), self.spec_out().len() as int)
    }

    pub closed spec fn wf(&self) -> bool {
        &&& self.len <= self.out@.len()
        &&& self.len % 2 == 0
        &&& stack_wf(self.collection_stack@, self.len as int)
        &&& self.top_collection_closed ==> self.collection_stack@.len() == 0
    }

    /// Whether a collection may be opened now: none is open, or the innermost is an Array,
    /// or a Dict with a key waiting.
    pub open spec fn can_open(&self) -> bool {
        self.spec_stack().len() == 0 || !self.spec_stack().last().waits_for_key()
    }

    /// The same Encoder, in every part that can be observed.
    pub open spec fn same(&self, other: &Encoder) -> bool {
        &&& self.spec_out() == other.spec_out()
        &&& self.spec_len() == other.spec_len()
        &&& self.spec_stack() == other.spec_stack()
        &&& self.spec_closed() == other.spec_closed()
    }

    pub proof fn lemma_wf_facts(&self)
        requires
            self.wf(),
        ensures
            0 <= self.spec_len() <= self.spec_out().len(),
            self.spec_len() % 2 == 0,
            self.spec_closed() ==> self.spec_stack().len() == 0,
            stack_wf(self.spec_stack(), self.spec_len()),
    {
    }

    /// A new Encoder with an empty output.
    pub fn new() -> (e: Encoder)
        ensures
            e.wf(),
            e.spec_out() == Seq::<u8>::empty(),
            e.spec_len() == 0,
            e.spec_stack().len() == 0,
            !e.spec_closed(),
    {
        Encoder { out: Vec::new(), collection_stack: CollectionStack::new(), len: 0, top_collection_closed: false }
    }

    /// A new Encoder that writes after the bytes `out` already holds.
    pub fn new_to_writer(out: Vec<u8>) -> (e: Encoder)
        ensures
            e.wf(),
            e.spec_out() == out@,
            e.spec_len() == 0,
            e.spec_stack().len() == 0,
            !e.spec_closed(),
    {
        Encoder { out, collection_stack: CollectionStack::new(), len: 0, top_collection_closed: false }
    }

    /// Write `value` (padded to an even length) at the end of the output; its position.
    fn _write<T: Encodable + ?Sized>(&mut self, value: &T, is_wide: bool) -> (offset: usize)
        requires
            old(self).len + value.spec_fleece(false).len() + 4 <= usize::MAX,
            old(self).len + value.spec_fleece(is_wide).len() + 2 <= usize::MAX,
        ensures
            offset == old(self).len,
            final(self).out@ == old(self).out@ + padded(value.spec_fleece(is_wide)),
            final(self).len == old(self).len + padded(value.spec_fleece(is_wide)).len(),
            final(self).collection_stack == old(self).collection_stack,
            final(self).top_collection_closed == old(self).top_collection_closed,
    {
        let offset = self.len;
        let n = value.fleece_size();
        let mut tmp = vec![0u8; n + 2];
        let k = value.write_fleece_to(tmp.as_mut_slice(), is_wide).unwrap();
        tmp.truncate(k);
        if k % 2 == 1 {
            tmp.push(0);
        }
        proof {
            assert(tmp@ =~= padded(value.spec_fleece(is_wide)));
        }
        self.len = self.len + tmp.len();
        self.out.append(&mut tmp);
        offset
    }

    /// Add a fixed-width value to the innermost collection: an Array's next element, or
    /// the value of a Dict's waiting key.
    fn _push(&mut self, value: SizedValue) -> (r: Result<(), EncodeError>)
        requires
            old(self).wf(),
            points_back(value, old(self).len as int),
        ensures
            final(self).wf(),
            final(self).out == old(self).out,
            final(self).len == old(self).len,
            final(self).top_collection_closed == old(self).top_collection_closed,
            old(self).collection_stack@.len() == 0 ==> r == Err::<(), EncodeError>(
                EncodeError::CollectionNotOpen,
            ),
            old(self).collection_stack@.len() > 0 && old(self).collection_stack@.last().waits_for_key()
                ==> r == Err::<(), EncodeError>(EncodeError::DictWaitingForKey),
            r is Ok <==> old(self).collection_stack@.len() > 0
                && !old(self).collection_stack@.last().waits_for_key(),
            r is Err ==> final(self).collection_stack@ == old(self).collection_stack@,
            r is Ok ==> top_changed(old(self).collection_stack@, final(self).collection_stack@)
                && value_pushed(
                old(self).collection_stack@.last(),
                final(self).collection_stack@.last(),
                value,
            ),
    {
        let r = match self.collection_stack.top_mut() {
            None => Err(EncodeError::CollectionNotOpen),
            Some(c) => {
                match c {
                    Collection::Array(arr) => {
                        arr.push(value);
                        Ok(())
                    },
                    Collection::Dict(dict) => match dict.push_value(value) {
                        Some(()) => Ok(()),
                        None => Err(EncodeError::DictWaitingForKey),
                    },
                }
            },
        };
        proof {
            if old(self).collection_stack@.len() > 0 {
                assert(self.collection_stack@.drop_last() =~= old(self).collection_stack@.drop_last());
            }
        }
        r
    }

    /// Open an Array (of about `capacity` elements).
    pub fn begin_array(&mut self, capacity: usize) -> (r: Result<(), EncodeError>)
        requires
            old(self).wf(),
        ensures
            final(self).wf(),
            old(self).spec_closed() ==> r == Err::<(), EncodeError>(
                EncodeError::MultiTopLevelCollection,
            ),
            !old(self).spec_closed() && !old(self).can_open() ==> r == Err::<
                (),
                EncodeError,
            >(EncodeError::DictWaitingForKey),
            r is Ok <==> !old(self).spec_closed() && old(self).can_open(),
            r is Err ==> final(self).same(old(self)),
            r is Ok ==> final(self).spec_out() == old(self).spec_out() && final(self).spec_len()
                == old(self).spec_len() && !final(self).spec_closed() && final(self).spec_stack().len()
                == old(self).spec_stack().len() + 1 && final(self).spec_stack().drop_last()
                == old(self).spec_stack() && (final(self).spec_stack().last() matches Collection::Array(
                a,
            ) && a.values@.len() == 0),
    {
        if self.top_collection_closed {
            return Err(EncodeError::MultiTopLevelCollection);
        }
        let r = self.collection_stack.push_array(capacity);
        proof {
            let s0 = old(self).collection_stack@;
            let s1 = self.collection_stack@;
            if r is Ok {
                assert forall|i: int| 0 <= i < s0.len() implies s1[i] == s0[i] by {
                    assert(s1.drop_last()[i] == s1[i]);
                }
            }
        }
        r
    }

    /// Open a Dict.
    pub fn begin_dict(&mut self) -> (r: Result<(), EncodeError>)
        requires
            old(self).wf(),
        ensures
            final(self).wf(),
            old(self).spec_closed() ==> r == Err::<(), EncodeError>(EncodeError::CollectionNotOpen),
            !old(self).spec_closed() && !old(self).can_open() ==> r == Err::<
                (),
                EncodeError,
            >(EncodeError::DictWaitingForKey),
            r is Ok <==> !old(self).spec_closed() && old(self).can_open(),
            r is Err ==> final(self).same(old(self)),
            r is Ok ==> final(self).spec_out() == old(self).spec_out() && final(self).spec_len()
                == old(self).spec_len() && !final(self).spec_closed() && final(self).spec_stack().len()
                == old(self).spec_stack().len() + 1 && final(self).spec_stack().drop_last()
                == old(self).spec_stack() && (final(self).spec_stack().last() matches Collection::Dict(
                d,
            ) && d.values@.len() == 0 && d.next_key is None),
    {
        if self.top_collection_closed {
            return Err(EncodeError::CollectionNotOpen);
        }
        let r = self.collection_stack.push_dict();
        proof {
            let s0 = old(self).collection_stack@;
            let s1 = self.collection_stack@;
            if r is Ok {
                assert forall|i: int| 0 <= i < s0.len() implies s1[i] == s0[i] by {
                    assert(s1.drop_last()[i] == s1[i]);
                }
            }
        }
        r
    }

    /// Whether the innermost collection is a Dict that has no key waiting.
    fn _top_waits_for_key(&self) -> (b: bool)
        ensures
            b <==> self.collection_stack@.len() > 0 && self.collection_stack@.last().waits_for_key(),
    {
        match self.collection_stack.top() {
            Some(Collection::Dict(d)) => d.next_key.is_none(),
            _ => false,
        }
    }

    /// Whether a value of `n` bytes can be written now and pointed to: it would start at a
    /// position a pointer can hold, and end within the machine's range.
    fn _can_point_to(&self, n: usize) -> (b: bool)
        ensures
            b <==> self.len <= MAX_WIDE && self.len + n + 4 <= usize::MAX,
    {
        self.len <= MAX_WIDE as usize && n <= usize::MAX - 4 - self.len
    }

    /// Write `value` into the innermost collection: inline where it fits in two bytes,
    /// else after the output so far, with a pointer to it in the collection.
    pub fn write_value<T: Encodable + ?Sized>(&mut self, value: &T) -> (r: Result<(), EncodeError>)
        requires
            old(self).wf(),
            value.spec_fleece(false).len() <= usize::MAX,
            value.spec_sized() matches Some(s) ==> points_back(s, old(self).spec_len()),
        ensures
            final(self).wf(),
            old(self).spec_stack().len() == 0 ==> r == Err::<(), EncodeError>(
                EncodeError::CollectionNotOpen,
            ),
            old(self).spec_stack().len() > 0 && old(self).spec_stack().last().waits_for_key() ==> r
                == Err::<(), EncodeError>(EncodeError::DictWaitingForKey),
            old(self).spec_stack().len() > 0 && !old(self).spec_stack().last().waits_for_key()
                && value.spec_sized() is None && !(old(self).spec_len() <= MAX_WIDE
                && old(self).spec_len() + value.spec_fleece(false).len() + 4 <= usize::MAX) ==> r
                == Err::<(), EncodeError>(EncodeError::PointerTooLarge),
            r is Ok <==> old(self).spec_stack().len() > 0 && !old(self).spec_stack().last().waits_for_key()
                && (value.spec_sized() is Some || (old(self).spec_len() <= MAX_WIDE
                && old(self).spec_len() + value.spec_fleece(false).len() + 4 <= usize::MAX)),
            r is Err ==> final(self).same(old(self)),
            r is Ok ==> !final(self).spec_closed() && top_changed(
                old(self).spec_stack(),
                final(self).spec_stack(),
            ),
            r is Ok && value.spec_sized() is Some ==> final(self).spec_out() == old(self).spec_out()
                && final(self).spec_len() == old(self).spec_len() && value_pushed(
                old(self).spec_stack().last(),
                final(self).spec_stack().last(),
                value.spec_sized()->0,
            ),
            r is Ok && value.spec_sized() is None ==> final(self).spec_out() == old(self).spec_out()
                + padded(value.spec_fleece(false)) && final(self).spec_len() == old(self).spec_len()
                + padded(value.spec_fleece(false)).len() && value_pushed(
                old(self).spec_stack().last(),
                final(self).spec_stack().last(),
                SizedValue::spec_pointer(old(self).spec_len() as u32),
            ),
    {
        if self.collection_stack.empty() {
            return Err(EncodeError::CollectionNotOpen);
        }
        if self._top_waits_for_key() {
            return Err(EncodeError::DictWaitingForKey);
        }
        match value.to_sized_value() {
            Some(val) => self._push(val),
            None => {
                let n = value.fleece_size();
                if !self._can_point_to(n) {
                    return Err(EncodeError::PointerTooLarge);
                }
                let offset = self._write(value, false);
                let pointer = SizedValue::new_pointer(offset as u32).unwrap();
                self._push(pointer)
            },
        }
    }

    /// Whether the innermost collection is a Dict, and whether a key waits in it.
    fn _top_dict(&self) -> (r: Option<bool>)
        ensures
            r is Some <==> self.collection_stack@.len() > 0
                && self.collection_stack@.last() is Dict,
            r matches Some(w) ==> (w <==> self.collection_stack@.last().waits_for_value()),
    {
        match self.collection_stack.top() {
            Some(Collection::Dict(d)) => Some(d.next_key.is_some()),
            _ => None,
        }
    }

    /// Set the waiting key of the innermost collection, a Dict without one.
    fn _push_key(&mut self, key: DictKey)
        requires
            old(self).wf(),
            old(self).collection_stack@.len() > 0,
            old(self).collection_stack@.last().waits_for_key(),
            key_points_back(key, old(self).len as int),
        ensures
            final(self).wf(),
            final(self).out == old(self).out,
            final(self).len == old(self).len,
            final(self).top_collection_closed == old(self).top_collection_closed,
            top_changed(old(self).collection_stack@, final(self).collection_stack@),
            key_pushed(old(self).collection_stack@.last(), final(self).collection_stack@.last(), key),
    {
        match self.collection_stack.top_mut() {
            Some(Collection::Dict(dict)) => {
                let _ = dict.push_key(key);
            },
            _ => {},
        }
        proof {
            assert(self.collection_stack@.drop_last() =~= old(self).collection_stack@.drop_last());
        }
    }

    /// Write the key of the next entry of the innermost collection, a Dict: inline where it
    /// fits in two bytes, else after the output so far.
    pub fn write_key(&mut self, key: &str) -> (r: Result<(), EncodeError>)
        requires
            old(self).wf(),
            key.spec_fleece(false).len() <= usize::MAX,
        ensures
            final(self).wf(),
            old(self).spec_stack().len() == 0 || old(self).spec_stack().last() is Array ==> r == Err::<
                (),
                EncodeError,
            >(EncodeError::DictNotOpen),
            old(self).spec_stack().len() > 0 && old(self).spec_stack().last().waits_for_value() ==> r
                == Err::<(), EncodeError>(EncodeError::DictWaitingForValue),
            old(self).spec_stack().len() > 0 && old(self).spec_stack().last().waits_for_key()
                && key.spec_sized() is None && !(old(self).spec_len() <= MAX_WIDE
                && old(self).spec_len() + key.spec_fleece(false).len() + 4 <= usize::MAX) ==> r
                == Err::<(), EncodeError>(EncodeError::PointerTooLarge),
            r is Ok <==> old(self).spec_stack().len() > 0 && old(self).spec_stack().last().waits_for_key()
                && (key.spec_sized() is Some || (old(self).spec_len() <= MAX_WIDE
                && old(self).spec_len() + key.spec_fleece(false).len() + 4 <= usize::MAX)),
            r is Err ==> final(self).same(old(self)),
            r is Ok ==> !final(self).spec_closed() && top_changed(
                old(self).spec_stack(),
                final(self).spec_stack(),
            ),
            r is Ok && key.spec_sized() is Some ==> final(self).spec_out() == old(self).spec_out()
                && final(self).spec_len() == old(self).spec_len() && key_pushed(
                old(self).spec_stack().last(),
                final(self).spec_stack().last(),
                DictKey::Inline(key.spec_sized()->0),
            ),
            r is Ok && key.spec_sized() is None ==> final(self).spec_out() == old(self).spec_out()
                + padded(key.spec_fleece(false)) && final(self).spec_len() == old(self).spec_len()
                + padded(key.spec_fleece(false)).len() && (final(self).spec_stack().last() matches Collection::Dict(d)
                && d.values@ == old(self).spec_stack().last()->Dict_0.values@
                && (d.next_key matches Some(DictKey::Pointer(text, offset)) && text@ == key@
                && offset == old(self).spec_len())),
    {
        match self._top_dict() {
            None => {
                return Err(EncodeError::DictNotOpen);
            },
            Some(true) => {
                return Err(EncodeError::DictWaitingForValue);
            },
            Some(false) => {},
        }
        match key.to_sized_value() {
            Some(val) => {
                proof {
                    encodable::lemma_inline_type(0x40);
                    encodable::lemma_inline_type(0x41);
                }
                self._push_key(DictKey::Inline(val));
                Ok(())
            },
            None => {
                let n = key.fleece_size();
                if !self._can_point_to(n) {
                    return Err(EncodeError::PointerTooLarge);
                }
                let offset = self._write(key, false);
                self._push_key(DictKey::Pointer(key.to_owned(), offset as u32));
                Ok(())
            },
        }
    }

    /// Where `n` elements of width `w` from `first` on end, if the output can grow that far.
    fn _span(first: usize, n: usize, w: usize) -> (r: Option<usize>)
        requires
            first + 16 <= usize::MAX,
            w == 2 || w == 4,
        ensures
            r is Some <==> first + w * n + 16 <= usize::MAX,
            r matches Some(e) ==> e == first + w * n,
    {
        match n.checked_mul(w) {
            None => {
                proof {
                    assert(w * n == n * w) by (nonlinear_arith);
                }
                None
            },
            Some(b) => {
                proof {
                    assert(w * n == n * w) by (nonlinear_arith);
                }
                if b > usize::MAX - 16 - first {
                    None
                } else {
                    Some(first + b)
                }
            },
        }
    }

    /// Whether the elements `values`, written narrow from `first` on, need a wide collection.
    fn _should_be_wide(values: &Vec<SizedValue>, first: usize) -> (b: bool)
        requires
            first + 2 * values@.len() <= usize::MAX,
            forall|i: int|
                0 <= i < values@.len() ==> points_back(#[trigger] values@[i], first as int),
        ensures
            b == needs_wide(values@, first as int),
    {
        let n = values.len();
        let mut i: usize = 0;
        while i < n
            invariant
                n == values@.len(),
                i <= n,
                first + 2 * n <= usize::MAX,
                forall|j: int| 0 <= j < n ==> points_back(#[trigger] values@[j], first as int),
                forall|j: int|
                    0 <= j < i ==> !reaches_past(#[trigger] values@[j], first + 2 * j, MAX_NARROW as int),
            decreases n - i,
        {
            let v = values[i];
            if v.value_type() == ValueType::Pointer {
                let pos = first + 2 * i;
                if pos - v.pointer_offset() as usize > MAX_NARROW as usize {
                    assert(reaches_past(values@[i as int], first + 2 * i, MAX_NARROW as int));
                    return true;
                }
            }
            i = i + 1;
        }
        false
    }

    /// The elements `values`, written from `first` on, with their temporary pointers made
    /// relative; `None` where one reaches too far back.
    fn _fix_pointers(values: &Vec<SizedValue>, first: usize, is_wide: bool) -> (r: Option<Vec<SizedValue>>)
        requires
            first + width(is_wide) * values@.len() <= usize::MAX,
            forall|i: int|
                0 <= i < values@.len() ==> points_back(#[trigger] values@[i], first as int),
        ensures
            r is None <==> too_far(values@, first as int, is_wide),
            r matches Some(f) ==> f@ == placed_all(values@, first as int, is_wide),
    {
        let n = values.len();
        let w: usize = if is_wide { 4 } else { 2 };
        let mut fixed: Vec<SizedValue> = Vec::new();
        let mut i: usize = 0;
        while i < n
            invariant
                n == values@.len(),
                w == width(is_wide),
                i <= n,
                first + w * n <= usize::MAX,
                forall|j: int| 0 <= j < n ==> points_back(#[trigger] values@[j], first as int),
                forall|j: int|
                    0 <= j < i ==> !reaches_past(#[trigger] values@[j], first + j * w, MAX_WIDE as int),
                fixed@ == placed_all(values@, first as int, is_wide).take(i as int),
            decreases n - i,
        {
            proof {
                assert(w * i <= w * n) by (nonlinear_arith)
                    requires
                        i <= n,
                        w >= 0,
                ;
                assert(i * w == w * i) by (nonlinear_arith);
            }
            let v = values[i];
            let pos = first + w * i;
            if v.value_type() == ValueType::Pointer {
                let d = pos - v.pointer_offset() as usize;
                if d > MAX_WIDE as usize {
                    assert(reaches_past(values@[i as int], first + i * w, MAX_WIDE as int));
                    return None;
                }
                let p = SizedValue::new_pointer(d as u32).unwrap();
                fixed.push(p);
            } else {
                fixed.push(v);
            }
            proof {
                assert(fixed@ =~= placed_all(values@, first as int, is_wide).take(i + 1));
            }
            i = i + 1;
        }
        proof {
            assert(fixed@ =~= placed_all(values@, first as int, is_wide));
        }
        Some(fixed)
    }

    /// Write the root, a pointer `d` bytes back to the top-level collection, and close it.
    fn _write_root(&mut self, d: usize)
        requires
            old(self).wf(),
            old(self).collection_stack@.len() == 0,
            d <= MAX_WIDE,
            d % 2 == 0,
            old(self).len + 16 <= usize::MAX,
        ensures
            final(self).wf(),
            final(self).out@ == old(self).out@ + root_fleece(d as int),
            final(self).len == old(self).len + root_fleece(d as int).len(),
            final(self).collection_stack@.len() == 0,
            final(self).top_collection_closed,
    {
        proof {
            lemma_pointer_fleece(d as u32);
            lemma_pointer_fleece(4);
        }
        if d <= MAX_NARROW as usize {
            let root = SizedValue::new_pointer(d as u32).unwrap();
            self._write(&root, false);
        } else {
            let inner = SizedValue::new_pointer(d as u32).unwrap();
            self._write(&inner, true);
            let root = SizedValue::new_pointer(4).unwrap();
            self._write(&root, false);
            proof {
                assert(self.out@ =~= old(self).out@ + root_fleece(d as int));
            }
        }
        self.top_collection_closed = true;
    }

    /// A collection whose header was written at `offset` is complete: the enclosing
    /// collection gets a pointer to it, or, where it is the top-level one, the root is
    /// written.
    fn _finished_collection(&mut self, offset: usize)
        requires
            old(self).wf(),
            !old(self).top_collection_closed,
            offset <= old(self).len,
            offset % 2 == 0,
            old(self).len + 16 <= usize::MAX,
            old(self).collection_stack@.len() > 0 ==> offset <= MAX_WIDE
                && !old(self).collection_stack@.last().waits_for_key(),
            old(self).collection_stack@.len() == 0 ==> old(self).len - offset <= MAX_WIDE,
        ensures
            final(self).wf(),
            old(self).collection_stack@.len() > 0 ==> final(self).out == old(self).out
                && final(self).len == old(self).len && !final(self).top_collection_closed
                && top_changed(old(self).collection_stack@, final(self).collection_stack@)
                && value_pushed(
                old(self).collection_stack@.last(),
                final(self).collection_stack@.last(),
                SizedValue::spec_pointer(offset as u32),
            ),
            old(self).collection_stack@.len() == 0 ==> final(self).out@ == old(self).out@
                + root_fleece(old(self).len - offset) && final(self).len == old(self).len
                + root_fleece(old(self).len - offset).len() && final(self).collection_stack@.len()
                == 0 && final(self).top_collection_closed,
    {
        if self.collection_stack.empty() {
            self._write_root(self.len - offset);
        } else {
            proof {
                SizedValue::lemma_spec_pointer(offset as u32);
            }
            let pointer = SizedValue::new_pointer(offset as u32).unwrap();
            let _ = self._push(pointer);
        }
    }

    /// How a collection of `count` elements or entries, whose slots hold `values` and whose
    /// header of `h` bytes is written now, is laid out: its slots with their pointers made
    /// relative, whether it is wide, and where it ends. The pointer to it comes from the
    /// collection that encloses it, if any is open, or else from the root.
    #[verifier::spinoff_prover]
    fn _layout(&self, values: &Vec<SizedValue>, h: usize, count: Ghost<int>, nested: bool) -> (r: Result<
        (Vec<SizedValue>, bool, usize),
        EncodeError,
    >)
        requires
            self.wf(),
            h == collection_fleece(0x60, count@ as usize, false).len(),
            h <= 12,
            forall|i: int| 0 <= i < values@.len() ==> points_back(#[trigger] values@[i], self.len as int),
        ensures
            ({
                let len = self.len as int;
                let first = first_pos(len, count@);
                &&& r is Err <==> too_large(len, count@, values@, nested)
                &&& r is Err ==> r == Err::<(Vec<SizedValue>, bool, usize), EncodeError>(
                    EncodeError::PointerTooLarge,
                )
                &&& r matches Ok((f, w, end)) ==> {
                    &&& w == needs_wide(values@, first)
                    &&& end == end_pos(len, count@, values@)
                    &&& f@ == placed_all(values@, first, w)
                    &&& forall|j: int|
                        0 <= j < f@.len() ==> (#[trigger] f@[j]).spec_fleece(w).len() == width(w)
                            && f@[j].spec_fleece(false).len() <= 4
                }
            }),
    {
        let len = self.len;
        let ph = h + h % 2;
        if len > usize::MAX - 16 - ph {
            return Err(EncodeError::PointerTooLarge);
        }
        let first = len + ph;
        let n = values.len();
        if Self::_span(first, n, 2).is_none() {
            proof {
                assert(width(needs_wide(values@, first as int)) * n >= 2 * n) by (nonlinear_arith)
                    requires
                        width(needs_wide(values@, first as int)) >= 2,
                ;
            }
            return Err(EncodeError::PointerTooLarge);
        }
        let is_wide = Self::_should_be_wide(values, first);
        let ww: usize = if is_wide { 4 } else { 2 };
        let end = match Self::_span(first, n, ww) {
            None => {
                return Err(EncodeError::PointerTooLarge);
            },
            Some(e) => e,
        };
        let fixed = match Self::_fix_pointers(values, first, is_wide) {
            None => {
                return Err(EncodeError::PointerTooLarge);
            },
            Some(f) => f,
        };
        if nested {
            if len > MAX_WIDE as usize {
                return Err(EncodeError::PointerTooLarge);
            }
        } else if end - len > MAX_WIDE as usize {
            return Err(EncodeError::PointerTooLarge);
        }
        proof {
            assert forall|j: int| 0 <= j < fixed@.len() implies (#[trigger] fixed@[j]).spec_fleece(
                is_wide,
            ).len() == width(is_wide) && fixed@[j].spec_fleece(false).len() <= 4 by {
                assert(first + j * ww >= first) by (nonlinear_arith)
                    requires
                        j >= 0,
                        ww >= 0,
                ;
                if !is_wide {
                    assert(!reaches_past(values@[j], first + 2 * j, MAX_NARROW as int));
                } else {
                    assert(!reaches_past(values@[j], first + j * 4, MAX_WIDE as int));
                }
                lemma_placed_len(values@[j], first + j * ww, is_wide);
            }
        }
        Ok((fixed, is_wide, end))
    }

    /// Write the elements `fixed` of a collection, one after the other.
    fn _write_elements(&mut self, fixed: &Vec<SizedValue>, is_wide: bool)
        requires
            old(self).len + width(is_wide) * fixed@.len() + 16 <= usize::MAX,
            old(self).len % 2 == 0,
            forall|j: int|
                0 <= j < fixed@.len() ==> (#[trigger] fixed@[j]).spec_fleece(is_wide).len() == width(
                    is_wide,
                ) && fixed@[j].spec_fleece(false).len() <= 4,
        ensures
            final(self).out@ == old(self).out@ + elements_fleece(fixed@, is_wide),
            final(self).len == old(self).len + width(is_wide) * fixed@.len(),
            final(self).len % 2 == 0,
            final(self).out@.len() - final(self).len == old(self).out@.len() - old(self).len,
            final(self).collection_stack == old(self).collection_stack,
            final(self).top_collection_closed == old(self).top_collection_closed,
    {
        let ghost out0 = self.out@;
        let ghost len0 = self.len as int;
        let ghost ww = width(is_wide);
        assert(len0 % 2 == 0);
        let n = fixed.len();
        let mut i: usize = 0;
        while i < n
            invariant
                n == fixed@.len(),
                i <= n,
                ww == width(is_wide),
                len0 + ww * n + 16 <= usize::MAX,
                forall|j: int|
                    0 <= j < n ==> (#[trigger] fixed@[j]).spec_fleece(is_wide).len() == ww
                        && fixed@[j].spec_fleece(false).len() <= 4,
                self.len == len0 + ww * i,
                self.len % 2 == 0,
                self.out@.len() - self.len == out0.len() - len0,
                self.out@ == out0 + elements_fleece(fixed@.take(i as int), is_wide),
                self.collection_stack == old(self).collection_stack,
                self.top_collection_closed == old(self).top_collection_closed,
            decreases n - i,
        {
            proof {
                assert(ww * (i + 1) == ww * i + ww) by (nonlinear_arith);
                assert(ww * i + ww <= ww * n) by (nonlinear_arith)
                    requires
                        i < n,
                        ww >= 0,
                ;
            }
            self._write(&fixed[i], is_wide);
            proof {
                assert(fixed@.take(i + 1).drop_last() =~= fixed@.take(i as int));
                assert(self.out@ =~= out0 + elements_fleece(fixed@.take(i + 1), is_wide));
            }
            i = i + 1;
        }
        proof {
            assert(fixed@.take(n as int) =~= fixed@);
        }
    }

    /// Close the innermost collection, an Array: write its header and its elements, then
    /// point to it from the enclosing collection, or from the root.
    #[verifier::rlimit(60)]
    #[verifier::spinoff_prover]
    pub fn end_array(&mut self) -> (r: Result<(), EncodeError>)
        requires
            old(self).wf(),
        ensures
            final(self).wf(),
            !(old(self).spec_stack().len() > 0 && old(self).spec_stack().last() is Array) ==> r
                == Err::<(), EncodeError>(EncodeError::ArrayNotOpen),
            old(self).spec_stack().len() > 0 && old(self).spec_stack().last() is Array && too_large(
                old(self).spec_len(),
                old(self).spec_stack().last()->Array_0.values@.len() as int,
                old(self).spec_stack().last()->Array_0.values@,
                old(self).spec_stack().len() > 1,
            ) ==> r == Err::<(), EncodeError>(EncodeError::PointerTooLarge),
            r is Ok <==> old(self).spec_stack().len() > 0 && old(self).spec_stack().last() is Array
                && !too_large(
                old(self).spec_len(),
                old(self).spec_stack().last()->Array_0.values@.len() as int,
                old(self).spec_stack().last()->Array_0.values@,
                old(self).spec_stack().len() > 1,
            ),
            r is Err ==> final(self).same(old(self)),
            r is Ok ==> array_closed(old(self), final(self)),
    {
        let len = self.len;
        let nested = self.collection_stack.depth() > 1;
        let ghost stack0 = self.collection_stack@;
        let ghost values = stack0.last()->Array_0.values@;
        let (fixed, is_wide, end) = match self.collection_stack.top() {
            Some(Collection::Array(array)) => {
                proof {
                    varint::lemma_varint_size_bounds((values.len() as usize) as u64);
                    assert(collection_points_back(stack0.last(), len as int));
                }
                let h = array.fleece_size();
                match self._layout(&array.values, h, Ghost(values.len() as int), nested) {
                    Ok(layout) => layout,
                    Err(e) => {
                        return Err(e);
                    },
                }
            },
            _ => {
                return Err(EncodeError::ArrayNotOpen);
            },
        };
        let array = match self.collection_stack.pop() {
            Some(Collection::Array(a)) => a,
            _ => {
                return Err(EncodeError::ArrayNotOpen);
            },
        };
        proof {
            let s1 = self.collection_stack@;
            assert(s1 == stack0.drop_last());
            assert forall|i: int| 0 <= i < s1.len() implies collection_points_back(
                #[trigger] s1[i],
                len as int,
            ) by {
                assert(s1[i] == stack0[i]);
            }
            assert forall|i: int| 0 <= i < s1.len() - 1 implies !(#[trigger] s1[i]).waits_for_key() by {
                assert(s1[i] == stack0[i]);
            }
            assert(array.values@ == values);
        }
        let offset = self._write(&array, is_wide);
        self._write_elements(&fixed, is_wide);
        proof {
            lemma_stack_wf_grows(self.collection_stack@, len as int, self.len as int);
            if stack0.len() > 1 {
                assert(!stack0[stack0.len() - 2].waits_for_key());
            }
        }
        self._finished_collection(offset);
        Ok(())
    }

    /// The entry `e` as it is sorted and written.
    fn _sort_entry(e: &DictElement) -> (r: SortEntry)
        requires
            key_points_back(e.key, MAX_WIDE as int),
        ensures
            sort_view(r) == entry_view(*e),
    {
        let (text, key) = match &e.key {
            DictKey::Inline(v) => {
                let mut t: Vec<u8> = Vec::new();
                if v.bytes[0] == 0x41 {
                    t.push(v.bytes[1]);
                }
                proof {
                    assert(t@ =~= key_text(e.key));
                }
                (t, *v)
            },
            DictKey::Pointer(text, offset) => {
                proof {
                    SizedValue::lemma_spec_pointer(*offset);
                }
                (text.as_str().as_bytes_vec(), SizedValue::new_pointer(*offset).unwrap())
            },
            DictKey::Shared(n) => {
                let t: Vec<u8> = Vec::new();
                proof {
                    assert(t@ =~= key_text(e.key));
                }
                (t, SizedValue::new_narrow([(*n / 256 % 16) as u8, (*n % 256) as u8]))
            },
        };
        SortEntry { text, key, val: e.val }
    }

    /// The entries of `dict`, sorted by the texts of their keys.
    fn _sorted_entries(dict: &value_stack::Dict) -> (r: Vec<SortEntry>)
        requires
            forall|i: int|
                0 <= i < dict.values@.len() ==> key_points_back(
                    (#[trigger] dict.values@[i]).key,
                    MAX_WIDE as int,
                ),
        ensures
            r@.map_values(|e: SortEntry| sort_view(e)).to_multiset() == dict.values@.map_values(
                |e: DictElement| entry_view(e),
            ).to_multiset(),
            entries_sorted(r@.map_values(|e: SortEntry| sort_view(e))),
            r@.len() == dict.values@.len(),
    {
        let n = dict.values.len();
        let mut sorted: Vec<SortEntry> = Vec::new();
        let mut i: usize = 0;
        proof {
            assert(sorted@.map_values(|e: SortEntry| sort_view(e)) =~= dict.values@.take(0).map_values(
                |e: DictElement| entry_view(e),
            ));
        }
        while i < n
            invariant
                n == dict.values@.len(),
                i <= n,
                sorted@.len() == i,
                forall|j: int|
                    0 <= j < n ==> key_points_back((#[trigger] dict.values@[j]).key, MAX_WIDE as int),
                sorted@.map_values(|e: SortEntry| sort_view(e)).to_multiset() == dict.values@.take(
                    i as int,
                ).map_values(|e: DictElement| entry_view(e)).to_multiset(),
                entries_sorted(sorted@.map_values(|e: SortEntry| sort_view(e))),
            decreases n - i,
        {
            let e = Self::_sort_entry(&dict.values[i]);
            let mut k: usize = 0;
            while k < sorted.len() && compare_bytes(sorted[k].text.as_slice(), e.text.as_slice()) <= 0
                invariant
                    k <= sorted@.len(),
                    forall|j: int| 0 <= j < k ==> lex_order(#[trigger] sorted@[j].text@, e.text@) <= 0,
                decreases sorted@.len() - k,
            {
                k = k + 1;
            }
            let ghost old_view = sorted@.map_values(|x: SortEntry| sort_view(x));
            let ghost ev = sort_view(e);
            proof {
                if k < sorted@.len() {
                    lemma_lex_order_antisymmetric(sorted@[k as int].text@, e.text@);
                }
            }
            sorted.insert(k, e);
            proof {
                let new_view = sorted@.map_values(|x: SortEntry| sort_view(x));
                assert(new_view =~= old_view.insert(k as int, ev));
                vstd::seq_lib::to_multiset_insert(old_view, k as int, ev);
                let taken = dict.values@.take(i + 1).map_values(|x: DictElement| entry_view(x));
                assert(taken =~= dict.values@.take(i as int).map_values(
                    |x: DictElement| entry_view(x),
                ).push(ev));
                vstd::seq_lib::to_multiset_build(
                    dict.values@.take(i as int).map_values(|x: DictElement| entry_view(x)),
                    ev,
                );
                assert forall|j: int| 0 <= j < new_view.len() - 1 implies lex_order(
                    #[trigger] new_view[j].0,
                    new_view[j + 1].0,
                ) <= 0 by {
                    if j + 1 < k {
                        assert(new_view[j] == old_view[j] && new_view[j + 1] == old_view[j + 1]);
                    } else if j + 1 == k {
                        assert(new_view[j] == old_view[j]);
                    } else if j == k {
                    } else {
                        assert(new_view[j] == old_view[j - 1] && new_view[j + 1] == old_view[j]);
                    }
                }
            }
            i = i + 1;
        }
        proof {
            assert(dict.values@.take(n as int) =~= dict.values@);
        }
        sorted
    }

    /// The slots of the sorted entries: each key, then its value.
    fn _slots(sorted: &Vec<SortEntry>) -> (r: Vec<SizedValue>)
        ensures
            r@ == slots(sorted@.map_values(|e: SortEntry| sort_view(e))),
    {
        let mut r: Vec<SizedValue> = Vec::new();
        let mut i: usize = 0;
        let ghost p = sorted@.map_values(|e: SortEntry| sort_view(e));
        while i < sorted.len()
            invariant
                i <= sorted@.len(),
                p == sorted@.map_values(|e: SortEntry| sort_view(e)),
                r@ == slots(p).take(2 * i),
            decreases sorted@.len() - i,
        {
            r.push(sorted[i].key);
            r.push(sorted[i].val);
            proof {
                assert(r@ =~= slots(p).take(2 * (i + 1)));
            }
            i = i + 1;
        }
        proof {
            assert(r@ =~= slots(p));
        }
        r
    }

    /// Close the innermost collection, a Dict without a waiting key: sort its entries by
    /// their keys, write its header and its entries, then point to it from the enclosing
    /// collection, or from the root.
    #[verifier::rlimit(80)]
    #[verifier::spinoff_prover]
    pub fn end_dict(&mut self) -> (r: Result<(), EncodeError>)
        requires
            old(self).wf(),
        ensures
            final(self).wf(),
            !(old(self).spec_stack().len() > 0 && old(self).spec_stack().last() is Dict) ==> r
                == Err::<(), EncodeError>(EncodeError::DictNotOpen),
            old(self).spec_stack().len() > 0 && old(self).spec_stack().last() is Dict
                && old(self).spec_stack().last().waits_for_value() ==> r == Err::<(), EncodeError>(
                EncodeError::DictWaitingForValue,
            ),
            r is Ok ==> old(self).spec_stack().len() > 0 && old(self).spec_stack().last() is Dict
                && !old(self).spec_stack().last().waits_for_value(),
            r is Err ==> final(self).same(old(self)),
            r is Err && old(self).spec_stack().len() > 0 && old(self).spec_stack().last() is Dict
                && !old(self).spec_stack().last().waits_for_value() ==> r == Err::<(), EncodeError>(
                EncodeError::PointerTooLarge,
            ),
            old(self).spec_stack().len() > 0 && old(self).spec_stack().last() is Dict
                && !old(self).spec_stack().last().waits_for_value() ==> exists|
                p: Seq<(Seq<u8>, SizedValue, SizedValue)>,
            | #[trigger] dict_closed(old(self), final(self), r is Ok, p),
    {
        let len = self.len;
        let nested = self.collection_stack.depth() > 1;
        let ghost stack0 = self.collection_stack@;
        let ghost entries = stack0.last()->Dict_0.values@;
        let ghost mut pw: Seq<(Seq<u8>, SizedValue, SizedValue)> = Seq::empty();
        let (fixed, is_wide, end, count) = match self.collection_stack.top() {
            Some(Collection::Dict(dict)) => {
                if dict.next_key.is_some() {
                    return Err(EncodeError::DictWaitingForValue);
                }
                proof {
                    assert(collection_points_back(stack0.last(), len as int));
                }
                let sorted = Self::_sorted_entries(dict);
                let flat = Self::_slots(&sorted);
                let ghost p = sorted@.map_values(|e: SortEntry| sort_view(e));
                proof {
                    pw = p;
                    varint::lemma_varint_size_bounds((entries.len() as usize) as u64);
                    let ev = entries.map_values(|e: DictElement| entry_view(e));
                    assert forall|x: (Seq<u8>, SizedValue, SizedValue)| #[trigger] p.contains(x) implies points_back(
                        x.1,
                        len as int,
                    ) && points_back(x.2, len as int) by {
                        vstd::seq_lib::to_multiset_contains(p, x);
                        vstd::seq_lib::to_multiset_contains(ev, x);
                        let j = choose|j: int| 0 <= j < ev.len() && ev[j] == x;
                        let e = entries[j];
                        assert(points_back(e.val, len as int) && key_points_back(e.key, len as int));
                        match e.key {
                            DictKey::Pointer(_, o) => {
                                SizedValue::lemma_spec_pointer(o);
                            },
                            DictKey::Inline(_) => {},
                            DictKey::Shared(n) => {
                                encodable::lemma_inline_type(((n as int as u16) / 256 % 16) as u8);
                            },
                        }
                    }
                    assert forall|i: int| 0 <= i < flat@.len() implies points_back(
                        #[trigger] flat@[i],
                        len as int,
                    ) by {
                        assert(p.contains(p[i / 2]));
                    }
                }
                let h = dict.fleece_size();
                let count = dict.values.len();
                match self._layout(&flat, h, Ghost(count as int), nested) {
                    Ok((f, w, e)) => (f, w, e, count),
                    Err(e) => {
                        let r: Result<(), EncodeError> = Err(e);
                        assert(dict_closed(old(self), self, r is Ok, p));
                        return r;
                    },
                }
            },
            _ => {
                return Err(EncodeError::DictNotOpen);
            },
        };
        let dict = match self.collection_stack.pop() {
            Some(Collection::Dict(d)) => d,
            _ => {
                return Err(EncodeError::DictNotOpen);
            },
        };
        proof {
            let s1 = self.collection_stack@;
            assert(s1 == stack0.drop_last());
            assert forall|i: int| 0 <= i < s1.len() implies collection_points_back(
                #[trigger] s1[i],
                len as int,
            ) by {
                assert(s1[i] == stack0[i]);
            }
            assert forall|i: int| 0 <= i < s1.len() - 1 implies !(#[trigger] s1[i]).waits_for_key() by {
                assert(s1[i] == stack0[i]);
            }
            varint::lemma_varint_size_bounds((count as usize) as u64);
            assert(dict.values@ == entries);
        }
        let ghost out0 = self.out@;
        let offset = self._write(&dict, is_wide);
        let ghost out1 = self.out@;
        self._write_elements(&fixed, is_wide);
        let ghost out2 = self.out@;
        proof {
            assert(out1 == out0 + padded(collection_fleece(0x70, entries.len() as usize, is_wide)));
            assert(out2 == out1 + elements_fleece(fixed@, is_wide));
            assert(fixed@ == placed_all(slots(pw), first_pos(len as int, entries.len() as int), is_wide));
            assert(out2 =~= out0 + (padded(collection_fleece(0x70, entries.len() as usize, is_wide))
                + elements_fleece(fixed@, is_wide)));
        }
        proof {
            lemma_stack_wf_grows(self.collection_stack@, len as int, self.len as int);
            if stack0.len() > 1 {
                assert(!stack0[stack0.len() - 2].waits_for_key());
            }
        }
        self._finished_collection(offset);
        let r: Result<(), EncodeError> = Ok(());
        assert(dict_closed(old(self), self, r is Ok, pw));
        r
    }

    /// Drop the key that waits in the innermost collection, a Dict.
    fn _drop_key(&mut self)
        requires
            old(self).wf(),
            old(self).collection_stack@.len() > 0,
        ensures
            final(self).wf(),
            final(self).out == old(self).out,
            final(self).len == old(self).len,
            final(self).top_collection_closed == old(self).top_collection_closed,
            final(self).collection_stack@.len() == old(self).collection_stack@.len(),
            !final(self).collection_stack@.last().waits_for_value(),
            (final(self).collection_stack@.last() is Array) == (old(self).collection_stack@.last() is Array),
    {
        match self.collection_stack.top_mut() {
            Some(Collection::Dict(dict)) => {
                dict.next_key = None;
            },
            _ => {},
        }
        proof {
            let s0 = old(self).collection_stack@;
            let s1 = self.collection_stack@;
            assert(s1.drop_last() =~= s0.drop_last());
            assert forall|i: int| 0 <= i < s1.len() implies collection_points_back(
                #[trigger] s1[i],
                self.len as int,
            ) by {
                if i < s1.len() - 1 {
                    assert(s1[i] == s1.drop_last()[i]);
                    assert(s0[i] == s0.drop_last()[i]);
                }
            }
            assert forall|i: int| 0 <= i < s1.len() - 1 implies !(#[trigger] s1[i]).waits_for_key() by {
                assert(s1[i] == s1.drop_last()[i]);
                assert(s0[i] == s0.drop_last()[i]);
            }
        }
    }

    /// Close every open collection, dropping a key that waits for a value; stop at one that
    /// cannot be written.
    fn _end(&mut self)
        requires
            old(self).wf(),
        ensures
            final(self).wf(),
            final(self).out@.len() >= old(self).out@.len(),
            final(self).out@.subrange(0, old(self).out@.len() as int) == old(self).out@,
            old(self).collection_stack@.len() == 0 ==> final(self).out@ == old(self).out@,
            final(self).spec_stack().len() == 0 || cannot_close(final(self)),
            old(self).spec_stack().len() > 0 && final(self).spec_stack().len() == 0
                ==> final(self).spec_closed(),
    {
        while !self.collection_stack.empty()
            invariant_except_break
                self.wf(),
                self.out@.len() >= old(self).out@.len(),
                self.out@.subrange(0, old(self).out@.len() as int) == old(self).out@,
                old(self).collection_stack@.len() == 0 ==> self.out@ == old(self).out@
                    && self.collection_stack@.len() == 0,
                old(self).spec_stack().len() > 0 && self.spec_stack().len() == 0 ==> self.spec_closed(),
            ensures
                self.wf(),
                self.out@.len() >= old(self).out@.len(),
                self.out@.subrange(0, old(self).out@.len() as int) == old(self).out@,
                old(self).collection_stack@.len() == 0 ==> self.out@ == old(self).out@,
                self.spec_stack().len() == 0 || cannot_close(self),
                old(self).spec_stack().len() > 0 && self.spec_stack().len() == 0 ==> self.spec_closed(),
            decreases self.collection_stack@.len(),
        {
            let ghost out0 = self.out@;
            let is_array = match self.collection_stack.top() {
                Some(Collection::Array(_)) => true,
                _ => false,
            };
            if is_array {
                if self.end_array().is_err() {
                    break;
                }
            } else {
                self._drop_key();
                let ghost e1 = *self;
                if self.end_dict().is_err() {
                    proof {
                        let p = choose|p: Seq<(Seq<u8>, SizedValue, SizedValue)>| #[trigger]
                            dict_closed(&e1, self, false, p);
                        assert(dict_closed(&e1, self, false, p));
                        assert(dict_closed(self, self, false, p));
                    }
                    break;
                }
            }
            proof {
                assert(self.out@.subrange(0, out0.len() as int) == out0);
                assert(self.out@.subrange(0, old(self).out@.len() as int) =~= out0.subrange(
                    0,
                    old(self).out@.len() as int,
                ));
            }
        }
    }

    /// Close every open collection and hand back the output.
    pub fn finish(self) -> (out: Vec<u8>)
        requires
            self.wf(),
        ensures
            out@.len() >= self.spec_out().len(),
            out@.subrange(0, self.spec_out().len() as int) == self.spec_out(),
            self.spec_stack().len() == 0 ==> out@ == self.spec_out(),
    {
        let mut e = self;
        e._end();
        e.out
    }

    /// Close every open collection and read the output back as a value that owns it.
    pub fn finish_value(self) -> (r: Result<AllocedValue, DecodeError>)
        requires
            self.wf(),
        ensures
            r matches Ok(a) ==> a.spec_buf().len() >= self.spec_out().len() && a.spec_buf().subrange(
                0,
                self.spec_out().len() as int,
            ) == self.spec_out(),
            self.spec_stack().len() == 0 ==> forall|s: &[u8]|
                s@ == self.spec_out() ==> match #[trigger] crate::value::spec_from_bytes(s) {
                    Err(e) => r == Err::<AllocedValue, DecodeError>(e),
                    Ok(v) => r matches Ok(a) && a.spec_buf() == s@ && a.spec_start() == v.start
                        && a.spec_end() == v.end,
                },
    {
        let out = self.finish();
        AllocedValue::from_vec(out)
    }

    /// The output so far is kept, and the Encoder stays well-formed.
    pub open spec fn grown_from(&self, old: &Encoder) -> bool {
        &&& self.wf()
        &&& self.spec_out().len() >= old.spec_out().len()
        &&& self.spec_out().subrange(0, old.spec_out().len() as int) == old.spec_out()
    }

    /// Write a Fleece value into the innermost collection, or, for an Array or a Dict, as a
    /// collection of its own: scalars as they read, Arrays and Dicts element by element
    /// (up to the first element or entry that cannot be read, or whose key is a shared key),
    /// pointers followed.
    #[verifier::spinoff_prover]
    pub fn write_fleece(&mut self, value: &Value) -> (r: Result<(), EncodeError>)
        requires
            old(self).wf(),
            value.wf(),
            value.spec_type() == ValueType::Pointer ==> pointer::spec_deref(
                value.data@,
                value.start as int,
                value.end as int,
                false,
            ) is Ok,
        ensures
            final(self).grown_from(old(self)),
            is_scalar(resolved(*value, false)) && old(self).spec_stack().len() == 0 ==> r == Err::<
                (),
                EncodeError,
            >(EncodeError::CollectionNotOpen) && final(self).same(old(self)),
            is_scalar(resolved(*value, false)) && old(self).spec_stack().len() > 0
                && old(self).spec_stack().last().waits_for_key() ==> r == Err::<(), EncodeError>(
                EncodeError::DictWaitingForKey,
            ) && final(self).same(old(self)),
            is_scalar(resolved(*value, false)) && old(self).spec_stack().len() > 0
                && !old(self).spec_stack().last().waits_for_key() && copy_sized(
                resolved(*value, false),
            ) is Some ==> r is Ok,
            is_scalar(resolved(*value, false)) && r is Err ==> final(self).same(old(self)),
            is_scalar(resolved(*value, false)) && r is Ok ==> !final(self).spec_closed() && top_changed(
                old(self).spec_stack(),
                final(self).spec_stack(),
            ) && (copy_sized(resolved(*value, false)) matches Some(sz) ==> final(self).spec_out()
                == old(self).spec_out() && final(self).spec_len() == old(self).spec_len()
                && value_pushed(old(self).spec_stack().last(), final(self).spec_stack().last(), sz))
                && (copy_sized(resolved(*value, false)) is None ==> final(self).spec_out()
                == old(self).spec_out() + padded(copy_fleece(resolved(*value, false)))
                && final(self).spec_len() == old(self).spec_len() + padded(
                copy_fleece(resolved(*value, false)),
            ).len() && value_pushed(
                old(self).spec_stack().last(),
                final(self).spec_stack().last(),
                SizedValue::spec_pointer(old(self).spec_len() as u32),
            )),
            r is Ok ==> one_value_written(old(self), final(self)),
            is_scalar(resolved(*value, false)) && old(self).spec_stack().len() > 0
                && !old(self).spec_stack().last().waits_for_key() && r is Err ==> r == Err::<
                (),
                EncodeError,
            >(EncodeError::PointerTooLarge),
            (resolved(*value, false).spec_type() == ValueType::Array || resolved(
                *value,
                false,
            ).spec_type() == ValueType::Dict) && !old(self).spec_closed() && old(self).can_open()
                && r is Err ==> r == Err::<(), EncodeError>(EncodeError::PointerTooLarge),
            resolved(*value, false).spec_type() == ValueType::Array && r is Ok ==> exists|
                mid: Encoder,
            |
                #![trigger array_closed(&mid, final(self))]
                array_closed(&mid, final(self)) && mid.spec_stack().drop_last() == old(self).spec_stack()
                    && mid.spec_stack().last() is Array && readable_elements(
                    (Array { value: resolved(*value, false) }),
                    mid.spec_stack().last()->Array_0.values@.len() as int,
                ) && inline_copies(
                    (Array { value: resolved(*value, false) }),
                    mid.spec_stack().last()->Array_0.values@,
                ),
            resolved(*value, false).spec_type() == ValueType::Dict && r is Ok ==> exists|
                mid: Encoder,
                p: Seq<(Seq<u8>, SizedValue, SizedValue)>,
            |
                #![trigger dict_closed(&mid, final(self), true, p)]
                dict_closed(&mid, final(self), true, p) && mid.spec_stack().drop_last() == old(self).spec_stack()
                    && mid.spec_stack().last() is Dict && mid.spec_stack().last()->Dict_0.next_key is None
                    && readable_entries(
                    (Dict { array: Array { value: resolved(*value, false) } }),
                    mid.spec_stack().last()->Dict_0.values@.len() as int,
                ) && entry_copies(
                    (Dict { array: Array { value: resolved(*value, false) } }),
                    mid.spec_stack().last()->Dict_0.values@,
                ),
            resolved(*value, false).spec_type() == ValueType::Array && old(self).spec_closed() ==> r
                == Err::<(), EncodeError>(EncodeError::MultiTopLevelCollection) && final(self).same(
                old(self),
            ),
            resolved(*value, false).spec_type() == ValueType::Dict && old(self).spec_closed() ==> r
                == Err::<(), EncodeError>(EncodeError::CollectionNotOpen) && final(self).same(
                old(self),
            ),
            (resolved(*value, false).spec_type() == ValueType::Array || resolved(
                *value,
                false,
            ).spec_type() == ValueType::Dict) && !old(self).spec_closed() && !old(self).can_open()
                ==> r == Err::<(), EncodeError>(EncodeError::DictWaitingForKey) && final(self).same(
                old(self),
            ),
        decreases value.end, value.end - value.start, 1int,
    {
        let t = value.value_type();
        if self.collection_stack.empty() && t != ValueType::Dict && t != ValueType::Array
            && t != ValueType::Pointer {
            assert(self.spec_out().subrange(0, self.spec_out().len() as int) =~= self.spec_out());
            return Err(EncodeError::CollectionNotOpen);
        }
        let ghost out0 = self.spec_out();
        proof {
            crate::encoder::encodable::lemma_inline_type(0x30);
            crate::encoder::encodable::lemma_inline_type(0x34);
            crate::encoder::encodable::lemma_inline_type(0x38);
            crate::encoder::encodable::lemma_inline_type(0x3C);
            crate::encoder::encodable::lemma_inline_type(0x40);
            crate::encoder::encodable::lemma_inline_type(0x41);
            crate::encoder::encodable::lemma_inline_type(0x50);
            crate::encoder::encodable::lemma_inline_type(0x51);
        }
        let r = match t {
            ValueType::True => self._push(SizedValue::new_narrow(constants::TRUE)),
            ValueType::False => self._push(SizedValue::new_narrow(constants::FALSE)),
            ValueType::Null => self._push(SizedValue::new_narrow(constants::NULL)),
            ValueType::Undefined => self._push(SizedValue::new_narrow(constants::UNDEFINED)),
            ValueType::Short => {
                let v = value.to_short();
                proof {
                    let b = (((v as int as i64) as int as u16) / 256 % 16) as u8;
                    crate::encoder::encodable::lemma_inline_type(b);
                    crate::encoder::encodable::lemma_int_count_bounds(v as int, true, 1);
                }
                self.write_value(&v)
            },
            ValueType::UnsignedInt => {
                let v = value.to_unsigned_int();
                proof {
                    let b = (((v as int) as u16) / 256 % 16) as u8;
                    crate::encoder::encodable::lemma_inline_type(b);
                    crate::encoder::encodable::lemma_int_count_bounds(v as int, false, 1);
                }
                self.write_value(&v)
            },
            ValueType::Int => {
                let v = value.to_int();
                proof {
                    let b = (((v as int) as u16) / 256 % 16) as u8;
                    crate::encoder::encodable::lemma_inline_type(b);
                    crate::encoder::encodable::lemma_int_count_bounds(v as int, true, 1);
                }
                self.write_value(&v)
            },
            ValueType::Float => self.write_value(&Float32Bits(value.float32_bits())),
            ValueType::Double32 => self.write_value(&Double32Bits(value.float32_bits())),
            ValueType::Double64 => self.write_value(&Float64Bits(value.float64_bits())),
            ValueType::String => {
                let s = value.to_str();
                if s.as_bytes().len() > usize::MAX - 16 {
                    assert(self.spec_out().subrange(0, out0.len() as int) =~= out0);
                    if self._top_waits_for_key() {
                        return Err(EncodeError::DictWaitingForKey);
                    }
                    return Err(EncodeError::PointerTooLarge);
                }
                proof {
                    varint::lemma_varint_size_bounds(s.spec_bytes().len() as u64);
                }
                self.write_value(s)
            },
            ValueType::Data => {
                let d = value.to_data();
                if d.len() > usize::MAX - 16 {
                    assert(self.spec_out().subrange(0, out0.len() as int) =~= out0);
                    if self._top_waits_for_key() {
                        return Err(EncodeError::DictWaitingForKey);
                    }
                    return Err(EncodeError::PointerTooLarge);
                }
                proof {
                    varint::lemma_varint_size_bounds(d@.len() as u64);
                }
                self.write_value(d)
            },
            ValueType::Array => self._write_fleece_array(value),
            ValueType::Dict => self._write_fleece_dict(value),
            ValueType::Pointer => {
                match pointer::deref_checked(value.data, value.start, value.end, false) {
                    Ok(target) => {
                        proof {
                            pointer::lemma_deref_bounds(value.data@, value.start as int, value.end as int, false);
                            pointer::lemma_deref_target(value.data@, value.start as int, value.end as int, false);
                        }
                        self.write_fleece(&target)
                    },
                    Err(_) => {
                        proof {
                            assert(false);
                        }
                        Err(EncodeError::CollectionNotOpen)
                    },
                }
            },
        };
        assert(self.spec_out().subrange(0, out0.len() as int) =~= out0);
        r
    }

    /// Write the Array `value`, element by element, up to the first that cannot be read.
    fn _write_fleece_array(&mut self, value: &Value) -> (r: Result<(), EncodeError>)
        requires
            old(self).wf(),
            value.wf(),
            value.spec_type() == ValueType::Array,
        ensures
            final(self).grown_from(old(self)),
            old(self).spec_closed() ==> r == Err::<(), EncodeError>(
                EncodeError::MultiTopLevelCollection,
            ) && final(self).same(old(self)),
            !old(self).spec_closed() && !old(self).can_open() ==> r == Err::<(), EncodeError>(
                EncodeError::DictWaitingForKey,
            ) && final(self).same(old(self)),
            r is Ok ==> one_value_written(old(self), final(self)),
            !old(self).spec_closed() && old(self).can_open() && r is Err ==> r == Err::<
                (),
                EncodeError,
            >(EncodeError::PointerTooLarge),
            r is Ok ==> exists|mid: Encoder|
                #![trigger array_closed(&mid, final(self))]
                array_closed(&mid, final(self)) && mid.spec_stack().drop_last() == old(self).spec_stack()
                    && mid.spec_stack().last() is Array && readable_elements(
                    (Array { value: *value }),
                    mid.spec_stack().last()->Array_0.values@.len() as int,
                ) && inline_copies((Array { value: *value }), mid.spec_stack().last()->Array_0.values@),
        decreases value.end, value.end - value.start, 0int,
    {
        let array = Array { value: *value };
        let n = array.len();
        let ghost out0 = self.spec_out();
        match self.begin_array(n) {
            Ok(()) => {},
            Err(e) => {
                assert(self.spec_out().subrange(0, out0.len() as int) =~= out0);
                return Err(e);
            },
        }
        assert(self.spec_out().subrange(0, out0.len() as int) =~= out0);
        let mut i: usize = 0;
        let mut done = false;
        while i < n && !done
            invariant
                done ==> i < n && array.spec_get(i as int) is None,
                array.value == *value,
                value.wf(),
                i <= n,
                out0 == old(self).spec_out(),
                self.grown_from(old(self)),
                self.spec_stack().len() == old(self).spec_stack().len() + 1,
                self.spec_stack().drop_last() == old(self).spec_stack(),
                self.spec_stack().last() is Array,
                self.spec_stack().last()->Array_0.values@.len() == i,
                inline_copies(array, self.spec_stack().last()->Array_0.values@),
                forall|j: int| 0 <= j < i ==> (#[trigger] array.spec_get(j)) is Some,
                n == value.spec_count(),
                !self.spec_closed(),
                !old(self).spec_closed() && old(self).can_open(),
            decreases n - i + (if done { 0int } else { 1int }),
        {
            let ghost out1 = self.spec_out();
            let ghost e1 = *self;
            match array.get(i) {
                Some(v) => {
                    proof {
                        array.lemma_elem_within(i as int);
                    }
                    let r = self.write_fleece(&v);
                    proof {
                        assert(self.spec_out().subrange(0, out0.len() as int) =~= out1.subrange(
                            0,
                            out0.len() as int,
                        ));
                    }
                    if r.is_err() {
                        return r;
                    }
                    proof {
                        let v = choose|v: SizedValue| #[trigger]
                            value_pushed(e1.spec_stack().last(), self.spec_stack().last(), v);
                        assert(value_pushed(e1.spec_stack().last(), self.spec_stack().last(), v));
                        let s0 = e1.spec_stack().last()->Array_0.values@;
                        let s1 = self.spec_stack().last()->Array_0.values@;
                        assert(s1 == s0.push(v));
                        assert forall|j: int|
                            0 <= j < s1.len() && (#[trigger] array.spec_get(j) matches Some(e) && is_scalar(e)
                                && copy_sized(e) is Some) implies s1[j] == copy_sized(array.spec_get(j)->0)->0 by {
                            if j < s0.len() {
                                assert(s1[j] == s0[j]);
                            } else {
                                assert(resolved(array.spec_get(j)->0, false) == array.spec_get(j)->0);
                            }
                        }
                    }
                },
                None => {
                    done = true;
                },
            }
            if !done {
                i = i + 1;
            }
        }
        let ghost out2 = self.spec_out();
        let ghost e2 = *self;
        proof {
            assert(readable_elements(array, e2.spec_stack().last()->Array_0.values@.len() as int));
        }
        let r = self.end_array();
        proof {
            if r is Ok {
                assert(array_closed(&e2, self));
                assert(self.spec_out().subrange(0, out0.len() as int) =~= out2.subrange(
                    0,
                    out0.len() as int,
                ));
                if old(self).spec_stack().len() > 0 {
                    assert(value_pushed(
                        e2.spec_stack().drop_last().last(),
                        self.spec_stack().last(),
                        SizedValue::spec_pointer(e2.spec_len() as u32),
                    ));
                }
            }
        }
        r
    }

    /// Write the Dict `value`, entry by entry, up to the first that cannot be read or whose
    /// key is a shared key.
    fn _write_fleece_dict(&mut self, value: &Value) -> (r: Result<(), EncodeError>)
        requires
            old(self).wf(),
            value.wf(),
            value.spec_type() == ValueType::Dict,
        ensures
            final(self).grown_from(old(self)),
            old(self).spec_closed() ==> r == Err::<(), EncodeError>(EncodeError::CollectionNotOpen)
                && final(self).same(old(self)),
            !old(self).spec_closed() && !old(self).can_open() ==> r == Err::<(), EncodeError>(
                EncodeError::DictWaitingForKey,
            ) && final(self).same(old(self)),
            r is Ok ==> one_value_written(old(self), final(self)),
            !old(self).spec_closed() && old(self).can_open() && r is Err ==> r == Err::<
                (),
                EncodeError,
            >(EncodeError::PointerTooLarge),
            r is Ok ==> exists|mid: Encoder, p: Seq<(Seq<u8>, SizedValue, SizedValue)>|
                #![trigger dict_closed(&mid, final(self), true, p)]
                dict_closed(&mid, final(self), true, p) && mid.spec_stack().drop_last() == old(self).spec_stack()
                    && mid.spec_stack().last() is Dict && mid.spec_stack().last()->Dict_0.next_key is None
                    && readable_entries(
                    (Dict { array: Array { value: *value } }),
                    mid.spec_stack().last()->Dict_0.values@.len() as int,
                ) && entry_copies(
                    (Dict { array: Array { value: *value } }),
                    mid.spec_stack().last()->Dict_0.values@,
                ),
        decreases value.end, value.end - value.start, 0int,
    {
        let dict = Dict { array: Array { value: *value } };
        let entries = dict.iter();
        let ghost out0 = self.spec_out();
        match self.begin_dict() {
            Ok(()) => {},
            Err(e) => {
                assert(self.spec_out().subrange(0, out0.len() as int) =~= out0);
                return Err(e);
            },
        }
        assert(self.spec_out().subrange(0, out0.len() as int) =~= out0);
        let n = entries.len();
        let mut i: usize = 0;
        while i < n
            invariant
                dict.array.value == *value,
                value.wf(),
                n == entries@.len(),
                n <= dict.spec_len(),
                forall|j: int|
                    0 <= j < n ==> Some((#[trigger] entries@[j]).1) == dict.spec_value(j)
                        && entries@[j].0.spec_bytes() == dict.spec_key(j)->0.spec_str_bytes(),
                entry_copies(dict, self.spec_stack().last()->Dict_0.values@),
                i <= n,
                out0 == old(self).spec_out(),
                self.grown_from(old(self)),
                self.spec_stack().len() == old(self).spec_stack().len() + 1,
                self.spec_stack().drop_last() == old(self).spec_stack(),
                self.spec_stack().last() is Dict,
                !self.spec_stack().last().waits_for_value(),
                self.spec_stack().last()->Dict_0.values@.len() == i,
                readable_entries(dict, n as int),
                !self.spec_closed(),
                !old(self).spec_closed() && old(self).can_open(),
            decreases n - i,
        {
            let ghost out1 = self.spec_out();
            let ghost e1 = *self;
            let key = entries[i].0;
            let v = entries[i].1;
            if key.as_bytes().len() > usize::MAX - 16 {
                return Err(EncodeError::PointerTooLarge);
            }
            proof {
                varint::lemma_varint_size_bounds(key.spec_bytes().len() as u64);
            }
            let r = self.write_key(key);
            proof {
                assert(self.spec_out().subrange(0, out0.len() as int) =~= out1.subrange(
                    0,
                    out0.len() as int,
                ));
            }
            if r.is_err() {
                return r;
            }
            let ghost out2 = self.spec_out();
            let ghost e2 = *self;
            proof {
                dict.array.lemma_elem_within(2 * i + 1);
            }
            let r = self.write_fleece(&v);
            proof {
                assert(self.spec_out().subrange(0, out0.len() as int) =~= out2.subrange(
                    0,
                    out0.len() as int,
                ));
            }
            if r.is_err() {
                return r;
            }
            proof {
                let v = choose|v: SizedValue| #[trigger]
                    value_pushed(e2.spec_stack().last(), self.spec_stack().last(), v);
                assert(value_pushed(e2.spec_stack().last(), self.spec_stack().last(), v));
                let s0 = e1.spec_stack().last()->Dict_0.values@;
                let k = e2.spec_stack().last()->Dict_0.next_key->0;
                let s1 = self.spec_stack().last()->Dict_0.values@;
                assert(e2.spec_stack().last()->Dict_0.values@ == s0);
                assert(s1 == s0.push(DictElement { key: k, val: v }));
                assert(key_text(k) == key.spec_bytes()) by {
                    if key.spec_bytes().len() <= 1 {
                        crate::encoder::encodable::lemma_inline_type(0x40);
                        crate::encoder::encodable::lemma_inline_type(0x41);
                        if key.spec_bytes().len() == 1 {
                            assert(seq![key.spec_bytes()[0]] =~= key.spec_bytes());
                        } else {
                            assert(key.spec_bytes() =~= Seq::<u8>::empty());
                        }
                    }
                }
                assert forall|j: int| 0 <= j < s1.len() implies key_text((#[trigger] s1[j]).key)
                    == dict.spec_key(j)->0.spec_str_bytes() && (dict.spec_value(j) matches Some(e)
                    && is_scalar(e) && copy_sized(e) is Some ==> s1[j].val == copy_sized(
                    dict.spec_value(j)->0,
                )->0) by {
                    if j < s0.len() {
                        assert(s1[j] == s0[j]);
                    } else {
                        assert(resolved(dict.spec_value(j)->0, false) == dict.spec_value(j)->0);
                    }
                }
            }
            i = i + 1;
        }
        let ghost out3 = self.spec_out();
        let ghost e3 = *self;
        assert(e3.spec_stack().last()->Dict_0.next_key is None);
        let r = self.end_dict();
        proof {
            if r is Ok {
                assert(self.spec_out().subrange(0, out0.len() as int) =~= out3.subrange(
                    0,
                    out0.len() as int,
                ));
                let p = choose|p: Seq<(Seq<u8>, SizedValue, SizedValue)>| #[trigger]
                    dict_closed(&e3, self, true, p);
                assert(dict_closed(&e3, self, true, p));
                if old(self).spec_stack().len() > 0 {
                    assert(value_pushed(
                        e3.spec_stack().drop_last().last(),
                        self.spec_stack().last(),
                        SizedValue::spec_pointer(e3.spec_len() as u32),
                    ));
                }
            }
        }
        r
    }
}

} // verus!
