use crate::value::pointer::{deref_checked, spec_deref};
use crate::value::varint::{read as varint_read_exec, varint_read};
use crate::value::{Value, ValueType};
use vstd::prelude::*;

verus! {

/// The count that marks that an Array's or Dict's count follows as a varint.
pub const VARINT_COUNT: u16 = 0x07FF;

/// A Fleece Array (or the alternating keys and values of a Dict).
#[derive(Clone, Copy)]
pub struct Array<'a> {
    pub value: Value<'a>,
}

impl<'a> Value<'a> {
    /// The 11-bit count field of an Array or Dict header.
    pub open spec fn count_bits(self) -> int {
        (self.byte(0) & 0x07) as int * 256 + self.byte(1) as int
    }

    /// The varint that follows the header where the count field is `VARINT_COUNT`.
    pub open spec fn count_varint(self) -> (usize, u64) {
        varint_read(self.data@.subrange(self.start + 2, self.end as int))
    }

    pub open spec fn spec_is_wide(self) -> bool {
        self.byte(0) & 0x08 != 0
    }

    pub open spec fn spec_width(self) -> int {
        if self.spec_is_wide() {
            4
        } else {
            2
        }
    }

    /// The number of elements of an Array; for a Dict, twice its number of entries.
    pub open spec fn spec_count(self) -> usize {
        let dict = self.spec_type() == ValueType::Dict;
        if self.count_bits() == 0x7FF {
            let r = self.count_varint();
            if r.0 == 0 {
                0
            } else if dict {
                (r.1 as usize).wrapping_mul(2)
            } else {
                r.1 as usize
            }
        } else if dict {
            (self.count_bits() * 2) as usize
        } else {
            self.count_bits() as usize
        }
    }

    /// Where the first element lies, counted from the start of the Array: after the header
    /// and the varint count, if any, padded to an even position.
    pub open spec fn spec_first_pos(self) -> int {
        if self.count_bits() == 0x7FF {
            let n = self.count_varint().0;
            if n % 2 != 0 {
                2 + n + 1
            } else {
                2 + n
            }
        } else {
            2
        }
    }

    /// Where element `i` of an Array lies in the buffer.
    pub open spec fn elem_pos(self, i: int) -> int {
        self.start + self.spec_first_pos() + i * self.spec_width()
    }

    /// The value of element `i` of an Array, pointers followed: `[start, end)` in the buffer,
    /// or `None` where `i` is out of range, the element lies past the Array's end, or a pointer
    /// in it cannot be followed.
    pub open spec fn spec_elem(self, i: int) -> Option<(int, int)> {
        let w = self.spec_width();
        let q = self.elem_pos(i);
        if i < 0 || i >= self.spec_count() || q + w > self.end {
            None
        } else if crate::value::value_type::type_of_byte(self.data@[q]) == ValueType::Pointer {
            match spec_deref(self.data@, q, q + w, self.spec_is_wide()) {
                Ok(r) => Some(r),
                Err(_) => None,
            }
        } else {
            Some((q, q + w))
        }
    }

    /// Convert to an Array, if this is one.
    pub fn as_array(&self) -> (r: Option<Array<'a>>)
        requires
            self.wf(),
        ensures
            self.spec_type() == ValueType::Array <==> r is Some,
            r matches Some(a) ==> a.value == *self,
    {
        if self.value_type() == ValueType::Array {
            Some(Array { value: *self })
        } else {
            None
        }
    }
}

impl<'a> Array<'a> {
    pub open spec fn wf(self) -> bool {
        self.value.wf()
    }

    /// The value of element `i`, as `get` returns it.
    pub open spec fn spec_get(self, i: int) -> Option<Value<'a>> {
        match self.value.spec_elem(i) {
            Some((s, e)) => Some(Value { data: self.value.data, start: s as usize, end: e as usize }),
            None => None,
        }
    }

    /// The varint count that follows the header, if any.
    fn count_varint(&self) -> (r: (usize, u64))
        requires
            self.wf(),
        ensures
            r == self.value.count_varint(),
    {
        let v = self.value;
        varint_read_exec(&v.data[v.start + 2..v.end])
    }

    /// The 11-bit count field of the header.
    fn count_bits(&self) -> (c: u16)
        requires
            self.wf(),
        ensures
            c == self.value.count_bits(),
            c <= 0x7FF,
    {
        let b0 = self.value.byte_exec(0);
        let b1 = self.value.byte_exec(1);
        proof {
            assert(b0 & 0x07 <= 7) by (bit_vector);
        }
        (b0 & 0x07) as u16 * 256 + b1 as u16
    }

    /// Where the first element lies, counted from the start of the Array.
    pub fn first_pos(&self) -> (p: usize)
        requires
            self.wf(),
        ensures
            p == self.value.spec_first_pos(),
            p <= 13,
    {
        if self.count_bits() == VARINT_COUNT {
            let (read, _) = self.count_varint();
            proof {
                let v = self.value;
                let s = v.data@.subrange(v.start + 2, v.end as int);
                crate::value::varint::lemma_varint_read_len(s);
            }
            if read % 2 != 0 {
                2 + read + 1
            } else {
                2 + read
            }
        } else {
            2
        }
    }

    pub fn is_wide(&self) -> (b: bool)
        requires
            self.wf(),
        ensures
            b == self.value.spec_is_wide(),
    {
        self.value.byte_exec(0) & 0x08 != 0
    }

    pub fn width(&self) -> (w: u8)
        requires
            self.wf(),
        ensures
            w == self.value.spec_width(),
    {
        if self.is_wide() {
            4
        } else {
            2
        }
    }

    /// The number of values in this array (for a Dict, twice the number of entries).
    pub fn len(&self) -> (n: usize)
        requires
            self.wf(),
        ensures
            n == self.value.spec_count(),
    {
        let bits = self.count_bits();
        let dict = self.value.value_type() == ValueType::Dict;
        if bits == VARINT_COUNT {
            let (read, size) = self.count_varint();
            if read == 0 {
                0
            } else if dict {
                (size as usize).wrapping_mul(2)
            } else {
                size as usize
            }
        } else if dict {
            bits as usize * 2
        } else {
            bits as usize
        }
    }

    pub fn is_empty(&self) -> (b: bool)
        requires
            self.wf(),
        ensures
            b == (self.value.spec_count() == 0),
    {
        self.len() == 0
    }

    /// The value at `index`, with pointers followed; `None` where `index` is out of range or the
    /// element cannot be read.
    pub fn get(&self, index: usize) -> (r: Option<Value<'a>>)
        requires
            self.wf(),
        ensures
            r == self.spec_get(index as int),
            r matches Some(v) ==> v.wf(),
    {
        let v = self.value;
        if index >= self.len() {
            return None;
        }
        let w = self.width() as usize;
        let first = self.first_pos();
        let avail = v.end - v.start;
        if first > avail {
            return None;
        }
        if index > (avail - first) / w {
            proof {
                let a = (avail - first) as int;
                assert(index * w > a) by (nonlinear_arith)
                    requires
                        index > a / (w as int),
                        w > 0,
                        a >= 0,
                ;
            }
            return None;
        }
        proof {
            let a = (avail - first) as int;
            assert(index * w <= a) by (nonlinear_arith)
                requires
                    index <= a / (w as int),
                    w > 0,
                    a >= 0,
            ;
        }
        let off = first + index * w;
        if w > avail - off {
            return None;
        }
        let q = v.start + off;
        if ValueType::from_byte(v.data[q]) == ValueType::Pointer {
            match deref_checked(v.data, q, q + w, self.is_wide()) {
                Ok(t) => Some(t),
                Err(_) => None,
            }
        } else {
            Some(Value { data: v.data, start: q, end: q + w })
        }
    }
}

impl<'a> Array<'a> {
    /// An element lies before the Array's end, after its start, or is reached by a pointer
    /// from before its end; it is no pointer.
    pub proof fn lemma_elem_within(self, i: int)
        requires
            self.wf(),
        ensures
            self.spec_get(i) matches Some(v) ==> (v.end < self.value.end || (v.end <= self.value.end
                && v.start > self.value.start)) && v.spec_type() != ValueType::Pointer && v.wf(),
    {
        let w = self.value.spec_width();
        let q = self.value.elem_pos(i);
        if self.value.spec_elem(i) is Some {
            assert(i * w >= 0) by (nonlinear_arith)
                requires
                    i >= 0,
                    w >= 0,
            ;
            if crate::value::value_type::type_of_byte(self.value.data@[q]) == ValueType::Pointer {
                crate::value::pointer::lemma_deref_bounds(self.value.data@, q, q + w, self.value.spec_is_wide());
                crate::value::pointer::lemma_deref_target(self.value.data@, q, q + w, self.value.spec_is_wide());
            }
        }
    }
}

} // verus!
