//! Values that own the Fleece bytes they are read from.
use crate::value::array::Array;
use crate::value::dict::Dict;
use crate::value::error::DecodeError;
use crate::value::value_type::type_of_byte;
use crate::value::{spec_from_bytes, tag, Value, ValueType};
use std::sync::Arc;
use vstd::prelude::*;
use vstd::slice::slice_to_vec;

verus! {

/// A Fleece value of kind `T` (`ValueKind`, `ArrayKind` or `DictKind`) together with the
/// shared buffer it lies in: the bytes `buf[start..end]`.
pub struct Alloced<T> {
    buf: Arc<Vec<u8>>,
    start: usize,
    end: usize,
    kind: T,
}

/// Marks an `Alloced` that holds any value.
#[derive(Clone, Copy)]
pub struct ValueKind;

/// Marks an `Alloced` that holds an Array.
#[derive(Clone, Copy)]
pub struct ArrayKind;

/// Marks an `Alloced` that holds a Dict.
#[derive(Clone, Copy)]
pub struct DictKind;

/// A value that manages its own memory.
pub type AllocedValue = Alloced<ValueKind>;

/// An Array that manages its own memory.
pub type AllocedArray = Alloced<ArrayKind>;

/// A Dict that manages its own memory.
pub type AllocedDict = Alloced<DictKind>;

impl<T> Alloced<T> {
    /// The value lies within the buffer and holds at least two bytes.
    #[verifier::type_invariant]
    spec fn inv(self) -> bool {
        self.start + 2 <= self.end <= self.buf@.len()
    }

    /// The bytes of the buffer.
    pub closed spec fn spec_buf(&self) -> Seq<u8> {
        self.buf@
    }

    pub closed spec fn spec_start(&self) -> int {
        self.start as int
    }

    pub closed spec fn spec_end(&self) -> int {
        self.end as int
    }

    /// The type of the value.
    pub open spec fn spec_type(&self) -> ValueType {
        type_of_byte(self.spec_buf()[self.spec_start()])
    }

    /// The shared buffer.
    pub fn buf(&self) -> (b: &Arc<Vec<u8>>)
        ensures
            b@ == self.spec_buf(),
    {
        &self.buf
    }

    /// The value, read from the buffer.
    pub fn value(&self) -> (v: Value<'_>)
        ensures
            v.wf(),
            v.data@ == self.spec_buf(),
            v.start == self.spec_start(),
            v.end == self.spec_end(),
    {
        proof {
            use_type_invariant(self);
        }
        Value { data: self.buf.as_slice(), start: self.start, end: self.end }
    }
}

/// Calls `Arc::clone`: another handle on the same shared value.
#[verifier::external_body]
pub(crate) fn share<T>(a: &Arc<T>) -> (r: Arc<T>)
    ensures
        r == *a,
{
    Arc::clone(a)
}

impl<T: Copy> Clone for Alloced<T> {
    /// Another handle on the same buffer and value.
    fn clone(&self) -> (c: Self)
        ensures
            c.spec_buf() == self.spec_buf(),
            c.spec_start() == self.spec_start(),
            c.spec_end() == self.spec_end(),
    {
        proof {
            use_type_invariant(self);
        }
        Alloced { buf: share(&self.buf), start: self.start, end: self.end, kind: self.kind }
    }
}

impl Alloced<ValueKind> {
    /// The value `buf[start..end]`.
    pub(crate) fn from_parts(buf: Arc<Vec<u8>>, start: usize, end: usize) -> (a: Self)
        requires
            start + 2 <= end <= buf@.len(),
        ensures
            a.spec_buf() == buf@,
            a.spec_start() == start,
            a.spec_end() == end,
    {
        Alloced { buf, start, end, kind: ValueKind }
    }

    /// The same bytes as an Array, if the value is one.
    pub fn to_array(self) -> (r: Option<Alloced<ArrayKind>>)
        ensures
            r is Some <==> self.spec_type() == ValueType::Array,
            r matches Some(a) ==> a.spec_buf() == self.spec_buf() && a.spec_start()
                == self.spec_start() && a.spec_end() == self.spec_end(),
    {
        proof {
            use_type_invariant(&self);
        }
        if self.value().value_type() == ValueType::Array {
            Some(Alloced { buf: self.buf, start: self.start, end: self.end, kind: ArrayKind })
        } else {
            None
        }
    }

    /// The same bytes as a Dict, if the value is one.
    pub fn to_dict(self) -> (r: Option<Alloced<DictKind>>)
        ensures
            r is Some <==> self.spec_type() == ValueType::Dict,
            r matches Some(d) ==> d.spec_buf() == self.spec_buf() && d.spec_start()
                == self.spec_start() && d.spec_end() == self.spec_end(),
    {
        proof {
            use_type_invariant(&self);
        }
        if self.value().value_type() == ValueType::Dict {
            Some(Alloced { buf: self.buf, start: self.start, end: self.end, kind: DictKind })
        } else {
            None
        }
    }
}

impl Alloced<ArrayKind> {
    /// An empty Array.
    pub fn empty() -> (a: Self)
        ensures
            a.spec_buf() == seq![tag::ARRAY, 0u8],
            a.spec_start() == 0,
            a.spec_end() == 2,
    {
        let mut v: Vec<u8> = Vec::new();
        v.push(tag::ARRAY);
        v.push(0);
        Alloced { buf: Arc::new(v), start: 0, end: 2, kind: ArrayKind }
    }

    /// The Array.
    pub fn array(&self) -> (a: Array<'_>)
        ensures
            a.value.wf(),
            a.value.data@ == self.spec_buf(),
            a.value.start == self.spec_start(),
            a.value.end == self.spec_end(),
    {
        Array { value: self.value() }
    }
}

impl Alloced<DictKind> {
    /// An empty Dict.
    pub fn empty() -> (d: Self)
        ensures
            d.spec_buf() == seq![tag::DICT, 0u8],
            d.spec_start() == 0,
            d.spec_end() == 2,
    {
        let mut v: Vec<u8> = Vec::new();
        v.push(tag::DICT);
        v.push(0);
        Alloced { buf: Arc::new(v), start: 0, end: 2, kind: DictKind }
    }

    /// The Dict.
    pub fn dict(&self) -> (d: Dict<'_>)
        ensures
            d.array.value.wf(),
            d.array.value.data@ == self.spec_buf(),
            d.array.value.start == self.spec_start(),
            d.array.value.end == self.spec_end(),
    {
        Dict { array: Array { value: self.value() } }
    }
}

impl<'a> Value<'a> {
    /// Validate Fleece `data` as `from_bytes` does, and copy it into a buffer of its own
    /// that the value owns.
    pub fn clone_from_bytes(data: &[u8]) -> (r: Result<Alloced<ValueKind>, DecodeError>)
        ensures
            match spec_from_bytes(data) {
                Err(e) => r == Err::<Alloced<ValueKind>, DecodeError>(e),
                Ok(v) => r matches Ok(a) && a.spec_buf() == data@ && a.spec_start() == v.start
                    && a.spec_end() == v.end,
            },
    {
        let (start, end) = match Value::from_bytes(data) {
            Ok(v) => (v.start, v.end),
            Err(e) => {
                return Err(e);
            },
        };
        let copy = slice_to_vec(data);
        Ok(Alloced { buf: Arc::new(copy), start, end, kind: ValueKind })
    }
}

impl Alloced<ValueKind> {
    /// Validate the Fleece bytes `data` as `Value::from_bytes` does, and keep them as the
    /// buffer of the value.
    pub fn from_vec(data: Vec<u8>) -> (r: Result<Alloced<ValueKind>, DecodeError>)
        ensures
            r matches Ok(a) ==> a.spec_buf() == data@,
            forall|s: &[u8]|
                s@ == data@ ==> match #[trigger] spec_from_bytes(s) {
                    Err(e) => r == Err::<Alloced<ValueKind>, DecodeError>(e),
                    Ok(v) => r matches Ok(a) && a.spec_buf() == data@ && a.spec_start() == v.start
                        && a.spec_end() == v.end,
                },
    {
        let sl = data.as_slice();
        let (start, end) = match Value::from_bytes(sl) {
            Ok(v) => (v.start, v.end),
            Err(e) => {
                assert forall|s: &[u8]| s@ == data@ implies s == sl by {}
                return Err(e);
            },
        };
        assert forall|s: &[u8]| s@ == data@ implies s == sl by {}
        Ok(Alloced { buf: Arc::new(data), start, end, kind: ValueKind })
    }
}

} // verus!
