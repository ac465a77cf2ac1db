//! A mutable Array: a list of slots, each a Fleece value or a mutable collection.
use crate::encoder::encodable::Encodable;
use crate::mutable::dict::MutableDict;
use crate::mutable::{copyable, resolved, slot_copies, ValueSlot};
use crate::scope::Scope;
use crate::shared_keys::SharedKeys;
use crate::value::array::Array;
use crate::value::{Value, ValueType};
use std::sync::Arc;
use crate::value::value_type::type_of_byte;
use vstd::prelude::*;

verus! {

/// A list of values and mutable collections.
pub struct MutableArray {
    list: Vec<ValueSlot>,
}

impl View for MutableArray {
    type V = Seq<ValueSlot>;

    closed spec fn view(&self) -> Seq<ValueSlot> {
        self.list@
    }
}

/// `a` is a copy of the Fleece Array `source`: one slot for each element, in order, up to the
/// first element that cannot be read.
pub open spec fn array_copies(a: Seq<ValueSlot>, source: Array) -> bool {
    &&& a.len() <= source.value.spec_count()
    &&& forall|i: int|
        0 <= i < a.len() ==> (#[trigger] source.spec_get(i)) is Some && slot_copies(a[i], source.spec_get(i)->0)
    &&& a.len() < source.value.spec_count() ==> source.spec_get(a.len() as int) is None
}

impl MutableArray {
    /// Every slot is well formed.
    pub open spec fn wf(self) -> bool
        decreases self,
    {
        forall|i: int| 0 <= i < self@.len() ==> (#[trigger] self@[i]).wf()
    }

    /// A copy: each slot copied.
    pub fn deep_clone(&self) -> (c: Self)
        ensures
            c@.len() == self@.len(),
            forall|i: int| 0 <= i < self@.len() ==> (#[trigger] self@[i]).copied_as(c@[i]),
            self.wf() ==> c.wf(),
        decreases self,
    {
        let mut list: Vec<ValueSlot> = Vec::new();
        let n = self.list.len();
        let mut i: usize = 0;
        while i < n
            invariant
                n == self@.len(),
                i <= n,
                list@.len() == i,
                forall|j: int| 0 <= j < i ==> (#[trigger] self@[j]).copied_as(list@[j]),
            decreases n - i,
        {
            proof {
                assert(decreases_to!(self => self.list@[i as int]));
            }
            let c = self.list[i].deep_clone();
            list.push(c);
            i = i + 1;
        }
        let c = MutableArray { list };
        proof {
            if self.wf() {
                assert forall|j: int| 0 <= j < c@.len() implies (#[trigger] c@[j]).wf() by {
                    assert(self@[j].copied_as(c@[j]));
                    assert(self@[j].wf());
                }
            }
        }
        c
    }

    pub fn new() -> (a: Self)
        ensures
            a.wf(),
            a@ == Seq::<ValueSlot>::empty(),
    {
        MutableArray { list: Vec::new() }
    }

    /// A copy of the Fleece Array `source`, whose Dicts use `shared_keys` (those of the data
    /// `source` lies in).
    pub fn clone_from(source: &Array, shared_keys: &Option<Arc<SharedKeys>>) -> (a: Self)
        requires
            source.wf(),
            source.value.data@.len() <= isize::MAX,
        ensures
            a.wf(),
            array_copies(a@, *source),
        decreases source.value.end, source.value.end - source.value.start, 0int,
    {
        let mut list: Vec<ValueSlot> = Vec::new();
        let is_wide = source.is_wide();
        let n = source.len();
        let mut i: usize = 0;
        while i < n
            invariant
                source.wf(),
                source.value.data@.len() <= isize::MAX,
                n == source.value.spec_count(),
                i <= n,
                list@.len() == i,
                forall|j: int| 0 <= j < i ==> (#[trigger] list@[j]).wf(),
                forall|j: int|
                    0 <= j < i ==> (#[trigger] source.spec_get(j)) is Some && slot_copies(list@[j], source.spec_get(j)->0),
            decreases n - i,
        {
            match source.get(i) {
                Some(v) => {
                    proof {
                        source.lemma_elem_within(i as int);
                    }
                    let slot = ValueSlot::new_from_fleece(&v, is_wide, shared_keys);
                    list.push(slot);
                },
                None => {
                    return MutableArray { list };
                },
            }
            i = i + 1;
        }
        MutableArray { list }
    }
}

impl MutableArray {
    /// A copy of the root Array of `scope`, whose Dicts use the shared keys of the scope;
    /// `None` where the scope has no root or the root is no Array.
    pub fn from_scope(scope: &Scope) -> (r: Option<Self>)
        ensures
            scope.spec_root() is None ==> r is None,
            r is Some <==> (scope.spec_root() matches Some((s, e)) && type_of_byte(
                scope.spec_data()[s as int],
            ) == ValueType::Array && scope.spec_data().len() <= isize::MAX),
            r matches Some(a) ==> a.wf() && (scope.spec_root() matches Some((s, e)) && forall|d: &[u8]|
                d@ == scope.spec_data() ==> #[trigger] array_copies(
                    a@,
                    Array { value: Value { data: d, start: s, end: e } },
                )),
    {
        let root = scope.root()?;
        let source = root.to_array()?;
        let array = source.array();
        if array.value.data.len() > isize::MAX as usize {
            return None;
        }
        let shared_keys = crate::mutable::share_keys_of(scope);
        let a = Self::clone_from(&array, &shared_keys);
        proof {
            assert forall|d: &[u8]| d@ == scope.spec_data() implies #[trigger] array_copies(
                a@,
                Array { value: Value { data: d, start: array.value.start, end: array.value.end } },
            ) by {
                assert(d == array.value.data);
            }
        }
        Some(a)
    }

    /// The value at `index`, if there is one there (not a mutable collection).
    pub fn get(&self, index: usize) -> (r: Option<Value<'_>>)
        requires
            self.wf(),
        ensures
            r is Some <==> index < self@.len() && self@[index as int].spec_is_value(),
            r matches Some(v) ==> v.wf() && v.data@ == self@[index as int].spec_bytes() && v.start == 0
                && v.end == v.data@.len(),
    {
        if index < self.list.len() {
            proof {
                assert(self@[index as int].wf());
            }
            self.list[index].value()
        } else {
            None
        }
    }

    /// The mutable Array at `index`, if there is one there.
    pub fn get_array(&self, index: usize) -> (r: Option<&MutableArray>)
        requires
            self.wf(),
        ensures
            r matches Some(a) ==> index < self@.len() && self@[index as int] == ValueSlot::MutableArray(
                Box::new(*a),
            ) && a.wf(),
            r is None ==> !(index < self@.len() && self@[index as int] is MutableArray),
    {
        if index < self.list.len() {
            self.list[index].array()
        } else {
            None
        }
    }

    /// The mutable Dict at `index`, if there is one there.
    pub fn get_dict(&self, index: usize) -> (r: Option<&MutableDict>)
        requires
            self.wf(),
        ensures
            r matches Some(d) ==> index < self@.len() && self@[index as int] == ValueSlot::MutableDict(
                Box::new(*d),
            ) && d.wf(),
            r is None ==> !(index < self@.len() && self@[index as int] is MutableDict),
    {
        if index < self.list.len() {
            self.list[index].dict()
        } else {
            None
        }
    }

    /// The mutable Array at `index`, to change, if there is one there.
    pub fn get_array_mut(&mut self, index: usize) -> (r: Option<&mut MutableArray>)
        requires
            old(self).wf(),
        ensures
            r matches Some(a) ==> index < old(self)@.len() && old(self)@[index as int]
                == ValueSlot::MutableArray(Box::new(*a)) && a.wf() && final(self)@ == old(self)@.update(
                index as int,
                ValueSlot::MutableArray(Box::new(*final(a))),
            ),
            r is None ==> !(index < old(self)@.len() && old(self)@[index as int] is MutableArray)
                && final(self)@ == old(self)@,
    {
        if index < self.list.len() && self.list[index].is_array() {
            match &mut self.list[index] {
                ValueSlot::MutableArray(a) => Some(a),
                _ => {
                    proof {
                        assert(false);
                    }
                    None
                },
            }
        } else {
            None
        }
    }

    /// The mutable Dict at `index`, to change, if there is one there.
    pub fn get_dict_mut(&mut self, index: usize) -> (r: Option<&mut MutableDict>)
        requires
            old(self).wf(),
        ensures
            r matches Some(d) ==> index < old(self)@.len() && old(self)@[index as int]
                == ValueSlot::MutableDict(Box::new(*d)) && d.wf() && final(self)@ == old(self)@.update(
                index as int,
                ValueSlot::MutableDict(Box::new(*final(d))),
            ),
            r is None ==> !(index < old(self)@.len() && old(self)@[index as int] is MutableDict)
                && final(self)@ == old(self)@,
    {
        if index < self.list.len() && self.list[index].is_dict() {
            match &mut self.list[index] {
                ValueSlot::MutableDict(d) => Some(d),
                _ => {
                    proof {
                        assert(false);
                    }
                    None
                },
            }
        } else {
            None
        }
    }

    pub fn len(&self) -> (n: usize)
        ensures
            n == self@.len(),
    {
        self.list.len()
    }

    pub fn is_empty(&self) -> (b: bool)
        ensures
            b == (self@.len() == 0),
    {
        self.list.len() == 0
    }

    /// Put `slot` at `index`.
    fn replace(&mut self, index: usize, slot: ValueSlot)
        requires
            index < old(self)@.len(),
            old(self).wf(),
            slot.wf(),
        ensures
            final(self)@ == old(self)@.update(index as int, slot),
            final(self).wf(),
    {
        self.list.set(index, slot);
    }

    /// Set the value at `index` to `value`.
    pub fn set<T: Encodable>(&mut self, index: usize, value: T)
        requires
            old(self).wf(),
            index < old(self)@.len(),
            value.spec_fleece(false).len() <= usize::MAX,
        ensures
            final(self).wf(),
            final(self)@ == old(self)@.update(index as int, final(self)@[index as int]),
            final(self)@[index as int].holds(value.spec_fleece(false)),
    {
        let slot = ValueSlot::new(&value);
        self.replace(index, slot);
    }

    /// Set the entry at `index` to the mutable Array `array`.
    pub fn set_array(&mut self, index: usize, array: MutableArray)
        requires
            old(self).wf(),
            index < old(self)@.len(),
            array.wf(),
        ensures
            final(self).wf(),
            final(self)@ == old(self)@.update(index as int, ValueSlot::MutableArray(Box::new(array))),
    {
        self.replace(index, ValueSlot::new_array(array));
    }

    /// Set the entry at `index` to the mutable Dict `dict`.
    pub fn set_dict(&mut self, index: usize, dict: MutableDict)
        requires
            old(self).wf(),
            index < old(self)@.len(),
            dict.wf(),
        ensures
            final(self).wf(),
            final(self)@ == old(self)@.update(index as int, ValueSlot::MutableDict(Box::new(dict))),
    {
        self.replace(index, ValueSlot::new_dict(dict));
    }

    /// Set the entry at `index` to a copy of the Fleece value `value` (whose Dicts use
    /// `shared_keys`).
    pub fn set_fleece(&mut self, index: usize, value: &Value, shared_keys: &Option<Arc<SharedKeys>>)
        requires
            old(self).wf(),
            index < old(self)@.len(),
            copyable(*value, false),
        ensures
            final(self).wf(),
            final(self)@ == old(self)@.update(index as int, final(self)@[index as int]),
            slot_copies(final(self)@[index as int], resolved(*value, false)),
    {
        let slot = ValueSlot::new_from_fleece(value, false, shared_keys);
        self.replace(index, slot);
    }

    /// Add `value` at the end.
    pub fn push<T: Encodable + ?Sized>(&mut self, value: &T)
        requires
            old(self).wf(),
            value.spec_fleece(false).len() <= usize::MAX,
        ensures
            final(self).wf(),
            final(self)@ == old(self)@.push(final(self)@.last()),
            final(self)@.last().holds(value.spec_fleece(false)),
    {
        let slot = ValueSlot::new(value);
        self.list.push(slot);
        proof {
            assert forall|j: int| 0 <= j < self@.len() implies (#[trigger] self@[j]).wf() by {
                if j < old(self)@.len() {
                    assert(old(self)@[j].wf());
                }
            }
        }
    }

    /// Add a copy of the Fleece value `value` (whose Dicts use `shared_keys`) at the end.
    pub fn push_fleece(&mut self, value: &Value, shared_keys: &Option<Arc<SharedKeys>>)
        requires
            old(self).wf(),
            copyable(*value, false),
        ensures
            final(self).wf(),
            final(self)@ == old(self)@.push(final(self)@.last()),
            slot_copies(final(self)@.last(), resolved(*value, false)),
    {
        let slot = ValueSlot::new_from_fleece(value, false, shared_keys);
        self.list.push(slot);
        proof {
            assert forall|j: int| 0 <= j < self@.len() implies (#[trigger] self@[j]).wf() by {
                if j < old(self)@.len() {
                    assert(old(self)@[j].wf());
                }
            }
        }
    }

    /// Remove the entry at `index`, if there is one.
    pub fn remove(&mut self, index: usize)
        requires
            old(self).wf(),
        ensures
            final(self).wf(),
            index < old(self)@.len() ==> final(self)@ == old(self)@.remove(index as int),
            index >= old(self)@.len() ==> final(self)@ == old(self)@,
    {
        if index >= self.list.len() {
            return;
        }
        self.list.remove(index);
    }

    /// The entries, in order.
    pub fn iter(&self) -> (r: Vec<Ref<'_>>)
        ensures
            r@.len() == self@.len(),
            forall|i: int| 0 <= i < r@.len() ==> (#[trigger] r@[i]).spec_slot() == self@[i],
    {
        let mut out: Vec<Ref<'_>> = Vec::new();
        let n = self.list.len();
        let mut i: usize = 0;
        while i < n
            invariant
                n == self@.len(),
                i <= n,
                out@.len() == i,
                forall|j: int| 0 <= j < i ==> (#[trigger] out@[j]).spec_slot() == self@[j],
            decreases n - i,
        {
            out.push(Ref { slot: &self.list[i] });
            i = i + 1;
        }
        out
    }
}

/// An entry of a mutable Array: a value or a mutable collection.
pub struct Ref<'a> {
    slot: &'a ValueSlot,
}

impl<'a> Ref<'a> {
    pub closed spec fn spec_slot(&self) -> ValueSlot {
        *self.slot
    }

    pub fn is_value(&self) -> (b: bool)
        ensures
            b == self.spec_slot().spec_is_value(),
    {
        self.slot.is_value()
    }

    pub fn is_array(&self) -> (b: bool)
        ensures
            b == self.spec_slot() is MutableArray,
    {
        self.slot.is_array()
    }

    pub fn is_dict(&self) -> (b: bool)
        ensures
            b == self.spec_slot() is MutableDict,
    {
        self.slot.is_dict()
    }

    pub fn value(&self) -> (r: Option<Value<'a>>)
        requires
            self.spec_slot().wf(),
        ensures
            r is Some <==> self.spec_slot().spec_is_value(),
            r matches Some(v) ==> v.wf() && v.data@ == self.spec_slot().spec_bytes() && v.start == 0
                && v.end == v.data@.len(),
    {
        self.slot.value()
    }

    pub fn array(&self) -> (r: Option<&'a MutableArray>)
        ensures
            r matches Some(a) ==> self.spec_slot() == ValueSlot::MutableArray(Box::new(*a)),
            r is None ==> !(self.spec_slot() is MutableArray),
    {
        self.slot.array()
    }

    pub fn dict(&self) -> (r: Option<&'a MutableDict>)
        ensures
            r matches Some(d) ==> self.spec_slot() == ValueSlot::MutableDict(Box::new(*d)),
            r is None ==> !(self.spec_slot() is MutableDict),
    {
        self.slot.dict()
    }
}

impl Default for MutableArray {
    fn default() -> (a: Self)
        ensures
            a.wf(),
            a@ == Seq::<ValueSlot>::empty(),
    {
        Self::new()
    }
}

impl Clone for MutableArray {
    fn clone(&self) -> (c: Self)
        ensures
            c@.len() == self@.len(),
            forall|i: int| 0 <= i < self@.len() ==> (#[trigger] self@[i]).copied_as(c@[i]),
            self.wf() ==> c.wf(),
    {
        self.deep_clone()
    }
}

/// What `push` adds is what `get` finds at the new last place, and the entries before it
/// stay as they were.
pub proof fn law_push_then_get(a0: MutableArray, a1: MutableArray, enc: Seq<u8>)
    requires
        a1@ == a0@.push(a1@.last()),
        a1@.last().holds(enc),
    ensures
        a1@.len() == a0@.len() + 1,
        a1@[a0@.len() as int].spec_is_value(),
        a1@[a0@.len() as int].spec_bytes().subrange(0, enc.len() as int) == enc,
        forall|i: int| 0 <= i < a0@.len() ==> #[trigger] a1@[i] == a0@[i],
{
    let slot = a1@.last();
    assert(a1@[a0@.len() as int] == slot);
    match slot {
        ValueSlot::Inline(b) => {
            assert(b@.subrange(0, enc.len() as int) =~= enc);
        },
        ValueSlot::Pointer(b) => {
            assert(b@.subrange(0, enc.len() as int) =~= enc);
        },
        _ => {},
    }
}

} // verus!
