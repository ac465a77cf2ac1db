//! Mutable Arrays and Dicts: values copied out of Fleece data, or built up one by one, that
//! can be changed in place.
pub mod array;
pub mod dict;

use crate::encoder::encodable::{Double32Bits, Encodable, Float32Bits, Float64Bits, NullValue, UndefinedValue};
use crate::encoder::{copy_fleece, resolved};
use crate::mutable::array::MutableArray;
use crate::mutable::dict::MutableDict;
use crate::scope::Scope;
use crate::shared_keys::SharedKeys;
use crate::value::array::Array;
use crate::value::dict::Dict;
use crate::value::pointer::{deref_checked, lemma_deref_bounds, lemma_deref_target, spec_deref};
use crate::value::{Value, ValueType};
use std::sync::Arc;
use vstd::prelude::*;
use vstd::string::StringSliceAdditionalSpecFns;

verus! {

/// The number of bytes a slot holds a value in, where the value fits.
pub const INLINE_CAPACITY: usize = 15;

/// An element of a mutable Array or Dict: a Fleece value, in a buffer of `INLINE_CAPACITY`
/// bytes where it fits and in one of its own size else; or a mutable Array or Dict.
pub enum ValueSlot {
    Inline(Vec<u8>),
    Pointer(Vec<u8>),
    MutableArray(Box<MutableArray>),
    MutableDict(Box<MutableDict>),
}

/// `enc` followed by zero bytes up to `INLINE_CAPACITY` bytes.
pub open spec fn inline_buffer(enc: Seq<u8>) -> Seq<u8> {
    enc + Seq::new((INLINE_CAPACITY - enc.len()) as nat, |_i: int| 0u8)
}

/// The value `v` can be copied into a slot: a pointer leads somewhere. (The bound on the
/// data is the one on every slice.)
pub open spec fn copyable(v: Value, is_wide: bool) -> bool {
    &&& v.wf()
    &&& v.data@.len() <= isize::MAX
    &&& v.spec_type() == ValueType::Pointer ==> spec_deref(v.data@, v.start as int, v.end as int, is_wide) is Ok
}

/// The slot `s` is a copy of the Fleece value `v`: scalars as `copy_fleece` writes them, an
/// Array as a mutable Array and a Dict as a mutable Dict.
pub open spec fn slot_copies(s: ValueSlot, v: Value) -> bool {
    match v.spec_type() {
        ValueType::Array => s is MutableArray,
        ValueType::Dict => s is MutableDict,
        _ => s.holds(copy_fleece(v)),
    }
}

impl ValueSlot {
    /// A value's buffer has its size, and mutable collections are well formed.
    pub open spec fn wf(self) -> bool
        decreases self,
    {
        match self {
            ValueSlot::Inline(b) => b@.len() == INLINE_CAPACITY,
            ValueSlot::Pointer(b) => b@.len() > INLINE_CAPACITY,
            ValueSlot::MutableArray(a) => a.wf(),
            ValueSlot::MutableDict(d) => d.wf(),
        }
    }

    /// The slot holds the Fleece encoding `enc`, inline where it fits.
    pub open spec fn holds(self, enc: Seq<u8>) -> bool {
        match self {
            ValueSlot::Inline(b) => enc.len() <= INLINE_CAPACITY && b@ == inline_buffer(enc),
            ValueSlot::Pointer(b) => enc.len() > INLINE_CAPACITY && b@ == enc,
            _ => false,
        }
    }

    /// The buffer of a value's slot.
    pub open spec fn spec_bytes(self) -> Seq<u8> {
        match self {
            ValueSlot::Inline(b) => b@,
            ValueSlot::Pointer(b) => b@,
            _ => Seq::empty(),
        }
    }

    pub open spec fn spec_is_value(self) -> bool {
        self is Inline || self is Pointer
    }

    /// A slot that holds the encoding of `value`.
    pub fn new<T: Encodable + ?Sized>(value: &T) -> (s: Self)
        requires
            value.spec_fleece(false).len() <= usize::MAX,
        ensures
            s.wf(),
            s.holds(value.spec_fleece(false)),
    {
        let n = value.fleece_size();
        if n <= INLINE_CAPACITY {
            let mut buf = vec![0u8; INLINE_CAPACITY];
            let ghost buf0 = buf@;
            let _ = value.write_fleece_to(buf.as_mut_slice(), false);
            proof {
                let enc = value.spec_fleece(false);
                assert forall|j: int| 0 <= j < INLINE_CAPACITY implies buf@[j] == #[trigger] inline_buffer(enc)[j] by {
                    if j < enc.len() {
                        assert(buf@.subrange(0, enc.len() as int)[j] == enc[j]);
                    } else {
                        assert(buf@.subrange(enc.len() as int, buf@.len() as int)[j - enc.len()] == buf0.subrange(
                            enc.len() as int,
                            buf0.len() as int,
                        )[j - enc.len()]);
                    }
                }
                assert(buf@ =~= inline_buffer(enc));
            }
            ValueSlot::Inline(buf)
        } else {
            let mut buf = vec![0u8; n];
            let _ = value.write_fleece_to(buf.as_mut_slice(), false);
            proof {
                assert(buf@ =~= value.spec_fleece(false));
            }
            ValueSlot::Pointer(buf)
        }
    }

    /// A copy of the Fleece value `value`: scalars read and written again, Arrays and Dicts
    /// copied element by element (with `shared_keys`, those of the data `value` lies in),
    /// pointers (of width `is_wide`) followed.
    pub fn new_from_fleece(value: &Value, is_wide: bool, shared_keys: &Option<Arc<SharedKeys>>) -> (s: Self)
        requires
            copyable(*value, is_wide),
        ensures
            s.wf(),
            slot_copies(s, resolved(*value, is_wide)),
        decreases value.end, value.end - value.start, 1int,
    {
        let t = value.value_type();
        proof {
            crate::encoder::encodable::lemma_inline_type(0x30);
        }
        match t {
            ValueType::Null => Self::new(&NullValue),
            ValueType::Undefined => Self::new(&UndefinedValue),
            ValueType::False => Self::new(&false),
            ValueType::True => Self::new(&true),
            ValueType::Short => {
                let v = value.to_short();
                proof {
                    crate::encoder::encodable::lemma_int_count_bounds(v as int, true, 1);
                }
                Self::new(&v)
            },
            ValueType::Int => {
                let v = value.to_int();
                proof {
                    crate::encoder::encodable::lemma_int_count_bounds(v as int, true, 1);
                }
                Self::new(&v)
            },
            ValueType::UnsignedInt => {
                let v = value.to_unsigned_int();
                proof {
                    crate::encoder::encodable::lemma_int_count_bounds(v as int, false, 1);
                }
                Self::new(&v)
            },
            ValueType::Float => Self::new(&Float32Bits(value.float32_bits())),
            ValueType::Double32 => Self::new(&Double32Bits(value.float32_bits())),
            ValueType::Double64 => Self::new(&Float64Bits(value.float64_bits())),
            ValueType::String => {
                let s = value.to_str();
                proof {
                    crate::value::varint::lemma_varint_size_bounds(s.spec_bytes().len() as u64);
                }
                Self::new(s)
            },
            ValueType::Data => {
                let d = value.to_data();
                proof {
                    crate::value::varint::lemma_varint_size_bounds(d@.len() as u64);
                }
                Self::new(d)
            },
            ValueType::Array => {
                let array = Array { value: *value };
                Self::new_array(MutableArray::clone_from(&array, shared_keys))
            },
            ValueType::Dict => {
                let dict = Dict { array: Array { value: *value } };
                Self::new_dict(MutableDict::clone_from(&dict, shared_keys))
            },
            ValueType::Pointer => {
                match deref_checked(value.data, value.start, value.end, is_wide) {
                    Ok(target) => {
                        proof {
                            lemma_deref_bounds(value.data@, value.start as int, value.end as int, is_wide);
                            lemma_deref_target(value.data@, value.start as int, value.end as int, is_wide);
                        }
                        Self::new_from_fleece(&target, false, shared_keys)
                    },
                    Err(_) => {
                        proof {
                            assert(false);
                        }
                        Self::new(&NullValue)
                    },
                }
            },
        }
    }

    pub fn new_dict(dict: MutableDict) -> (s: Self)
        ensures
            s == ValueSlot::MutableDict(Box::new(dict)),
    {
        ValueSlot::MutableDict(Box::new(dict))
    }

    pub fn new_array(array: MutableArray) -> (s: Self)
        ensures
            s == ValueSlot::MutableArray(Box::new(array)),
    {
        ValueSlot::MutableArray(Box::new(array))
    }

    pub fn is_value(&self) -> (b: bool)
        ensures
            b == self.spec_is_value(),
    {
        matches!(self, ValueSlot::Inline(_) | ValueSlot::Pointer(_))
    }

    pub fn is_array(&self) -> (b: bool)
        ensures
            b == self is MutableArray,
    {
        matches!(self, ValueSlot::MutableArray(_))
    }

    pub fn is_dict(&self) -> (b: bool)
        ensures
            b == self is MutableDict,
    {
        matches!(self, ValueSlot::MutableDict(_))
    }

    /// The Fleece value the slot holds: its whole buffer.
    pub fn value(&self) -> (r: Option<Value<'_>>)
        requires
            self.wf(),
        ensures
            r is Some <==> self.spec_is_value(),
            r matches Some(v) ==> v.wf() && v.data@ == self.spec_bytes() && v.start == 0 && v.end
                == self.spec_bytes().len(),
    {
        match self {
            ValueSlot::Inline(b) => Some(Value { data: b.as_slice(), start: 0, end: b.len() }),
            ValueSlot::Pointer(b) => Some(Value { data: b.as_slice(), start: 0, end: b.len() }),
            _ => None,
        }
    }

    pub fn array(&self) -> (r: Option<&MutableArray>)
        ensures
            r matches Some(a) ==> *self == ValueSlot::MutableArray(Box::new(*a)),
            r is None ==> !(self is MutableArray),
    {
        match self {
            ValueSlot::MutableArray(a) => Some(a),
            _ => None,
        }
    }

    pub fn dict(&self) -> (r: Option<&MutableDict>)
        ensures
            r matches Some(d) ==> *self == ValueSlot::MutableDict(Box::new(*d)),
            r is None ==> !(self is MutableDict),
    {
        match self {
            ValueSlot::MutableDict(d) => Some(d),
            _ => None,
        }
    }

    pub fn array_mut(&mut self) -> (r: Option<&mut MutableArray>)
        ensures
            r matches Some(a) ==> *old(self) == ValueSlot::MutableArray(Box::new(*a))
                && *final(self) == ValueSlot::MutableArray(Box::new(*final(a))),
            r is None ==> !(*old(self) is MutableArray) && *final(self) == *old(self),
    {
        match self {
            ValueSlot::MutableArray(a) => Some(a),
            _ => None,
        }
    }

    pub fn dict_mut(&mut self) -> (r: Option<&mut MutableDict>)
        ensures
            r matches Some(d) ==> *old(self) == ValueSlot::MutableDict(Box::new(*d))
                && *final(self) == ValueSlot::MutableDict(Box::new(*final(d))),
            r is None ==> !(*old(self) is MutableDict) && *final(self) == *old(self),
    {
        match self {
            ValueSlot::MutableDict(d) => Some(d),
            _ => None,
        }
    }
}

impl ValueSlot {
    /// The slot `c` copies this one: the same kind, the same bytes, and as many entries.
    pub open spec fn copied_as(self, c: ValueSlot) -> bool {
        &&& c.spec_is_value() == self.spec_is_value()
        &&& c.spec_bytes() == self.spec_bytes()
        &&& (c is MutableArray) == (self is MutableArray)
        &&& (c is MutableDict) == (self is MutableDict)
        &&& (self.wf() ==> c.wf())
    }

    /// A copy of the slot, mutable collections copied entry by entry.
    pub fn deep_clone(&self) -> (c: Self)
        ensures
            self.copied_as(c),
        decreases self,
    {
        match self {
            ValueSlot::Inline(b) => {
                let c = b.clone();
                proof {
                    assert(c@ =~= b@);
                }
                ValueSlot::Inline(c)
            },
            ValueSlot::Pointer(b) => {
                let c = b.clone();
                proof {
                    assert(c@ =~= b@);
                }
                ValueSlot::Pointer(c)
            },
            ValueSlot::MutableArray(a) => ValueSlot::MutableArray(Box::new(a.deep_clone())),
            ValueSlot::MutableDict(d) => ValueSlot::MutableDict(Box::new(d.deep_clone())),
        }
    }
}

impl Clone for ValueSlot {
    fn clone(&self) -> (c: Self)
        ensures
            self.copied_as(c),
    {
        self.deep_clone()
    }
}

/// Another handle on the same shared keys, if there are any.
pub(crate) fn share_keys(sk: &Option<Arc<SharedKeys>>) -> (r: Option<Arc<SharedKeys>>)
    ensures
        r == *sk,
{
    match sk {
        Some(a) => Some(crate::alloced::share(a)),
        None => None,
    }
}

/// The shared keys of `scope`, if it has any.
pub(crate) fn share_keys_of(scope: &Scope) -> (r: Option<Arc<SharedKeys>>)
    ensures
        r == scope.spec_shared_keys(),
{
    match scope.shared_keys() {
        Some(k) => Some(crate::alloced::share(k)),
        None => None,
    }
}

} // verus!
