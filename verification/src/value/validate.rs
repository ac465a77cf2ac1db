use crate::value::error::DecodeError;
use crate::value::pointer::{deref_checked, spec_deref};
use crate::value::array::Array;
use crate::value::{Value, ValueType};
use vstd::prelude::*;

verus! {

impl<'a> Value<'a> {
    /// Whether this value, and all that it refers to, is well-formed Fleece that ends by
    /// `data_end`: arrays and dicts fit with their elements, elements fit in their slot, and
    /// pointers lead back into the data. `wide` is the width of a pointer held here;
    /// `is_elem` marks an array element, whose size its slot already bounds.
    pub open spec fn spec_validate(self, wide: bool, is_elem: bool, data_end: int) -> Result<(), DecodeError>
        decreases data_end, data_end - self.start, 1int, 0int,
    {
        if !(self.wf() && self.start < data_end <= self.data@.len()) {
            Err(DecodeError::ValueOutOfBounds {
                value_type: ValueType::Null,
                required_size: 2,
                available_size: 0,
            })
        } else {
            let t = self.spec_type();
            if t == ValueType::Array || t == ValueType::Dict {
                let w = self.spec_width();
                let count = self.spec_count() as int;
                let first = self.start + self.spec_first_pos();
                if first + count * w > data_end {
                    Err(DecodeError::ArrayOutOfBounds {
                        count: count as usize,
                        width: w as usize,
                        available_size: if data_end >= first {
                            (data_end - first) as usize
                        } else {
                            0
                        },
                    })
                } else {
                    self.spec_validate_elems(first, 0, count, w, data_end)
                }
            } else if t == ValueType::Pointer {
                match spec_deref(self.data@, self.start as int, self.end as int, wide) {
                    Ok((s, e)) => {
                        let target = Value { data: self.data, start: s as usize, end: e as usize };
                        target.spec_validate(wide, false, self.start as int)
                    },
                    Err(err) => Err(err),
                }
            } else if is_elem || self.start + self.spec_required_size() <= data_end {
                Ok(())
            } else {
                Err(DecodeError::ValueOutOfBounds {
                    value_type: t,
                    required_size: self.spec_required_size() as usize,
                    available_size: (data_end - self.start) as usize,
                })
            }
        }
    }

    /// Whether elements `i..count` of this Array, `w` bytes each from `first` on, are valid.
    pub open spec fn spec_validate_elems(self, first: int, i: int, count: int, w: int, data_end: int) -> Result<(), DecodeError>
        decreases data_end, data_end - self.start, 0int, count - i,
    {
        if i < 0 || i >= count || first + count * w > data_end || first < self.start + 2 || w < 2
            || data_end > self.data@.len() || self.start >= data_end || data_end > usize::MAX {
            Ok(())
        } else {
            let cur = first + i * w;
            proof {
                assert(cur + w <= first + count * w) by (nonlinear_arith)
                    requires
                        0 <= i < count,
                        w >= 2,
                        cur == first + i * w,
                ;
                assert(cur >= first) by (nonlinear_arith)
                    requires
                        i >= 0,
                        w >= 2,
                        cur == first + i * w,
                ;
                assert(cur + w <= data_end);
                assert(cur > self.start);
                assert((cur as usize) as int == cur);
                assert(((cur + w) as usize) as int == cur + w);
            }
            let elem = Value { data: self.data, start: cur as usize, end: (cur + w) as usize };
            let req = elem.spec_required_size();
            if req > w {
                Err(DecodeError::ValueOutOfBounds {
                    value_type: elem.spec_type(),
                    required_size: req as usize,
                    available_size: w as usize,
                })
            } else {
                match elem.spec_validate(self.spec_is_wide(), true, cur + w) {
                    Err(err) => Err(err),
                    Ok(()) => self.spec_validate_elems(first, i + 1, count, w, data_end),
                }
            }
        }
    }

    /// Check that this value and all it refers to is well-formed Fleece ending by `data_end`.
    pub fn validate(&self, wide: bool, is_elem: bool, data_end: usize) -> (r: Result<(), DecodeError>)
        requires
            self.wf(),
            self.start < data_end <= self.data@.len(),
        ensures
            r == self.spec_validate(wide, is_elem, data_end as int),
        decreases data_end, data_end - self.start, 1int,
    {
        let t = self.value_type();
        if t == ValueType::Array || t == ValueType::Dict {
            self.validate_array(data_end)
        } else if t == ValueType::Pointer {
            match deref_checked(self.data, self.start, self.end, wide) {
                Ok(target) => {
                    proof {
                        crate::value::pointer::lemma_deref_bounds(self.data@, self.start as int, self.end as int, wide);
                    }
                    target.validate(wide, false, self.start)
                },
                Err(err) => Err(err),
            }
        } else {
            let req = self.required_size();
            if is_elem || req <= data_end - self.start {
                Ok(())
            } else {
                Err(DecodeError::ValueOutOfBounds {
                    value_type: t,
                    required_size: req,
                    available_size: data_end - self.start,
                })
            }
        }
    }
}

impl<'a> Value<'a> {
    /// Check the elements of this Array or Dict.
    fn validate_array(&self, data_end: usize) -> (r: Result<(), DecodeError>)
        requires
            self.wf(),
            self.start < data_end <= self.data@.len(),
            self.spec_type() == ValueType::Array || self.spec_type() == ValueType::Dict,
        ensures
            r == self.spec_validate(false, false, data_end as int),
        decreases data_end, data_end - self.start, 0int,
    {
        let arr = Array { value: *self };
        let is_wide = arr.is_wide();
        let w = arr.width() as usize;
        let count = arr.len();
        let first_pos = arr.first_pos();
        let ghost first_i = self.start + first_pos;
        if first_pos > data_end - self.start || count > (data_end - self.start - first_pos) / w {
            proof {
                if first_pos <= data_end - self.start {
                    let a = (data_end - self.start - first_pos) as int;
                    assert(count * w > a) by (nonlinear_arith)
                        requires
                            count > a / (w as int),
                            w > 0,
                            a >= 0,
                    ;
                }
            }
            return Err(DecodeError::ArrayOutOfBounds {
                count,
                width: w,
                available_size: if first_pos <= data_end - self.start {
                    data_end - self.start - first_pos
                } else {
                    0
                },
            });
        }
        let first = self.start + first_pos;
        proof {
            let a = (data_end - first) as int;
            assert(count * w <= a) by (nonlinear_arith)
                requires
                    count <= a / (w as int),
                    w > 0,
                    a >= 0,
            ;
        }
        let mut i: usize = 0;
        while i < count
            invariant
                self.wf(),
                self.start < data_end <= self.data@.len(),
                first == self.start + self.spec_first_pos(),
                first == self.start + first_pos,
                first_pos >= 2,
                self.spec_type() == ValueType::Array || self.spec_type() == ValueType::Dict,
                w == self.spec_width(),
                w == 2 || w == 4,
                count == self.spec_count(),
                is_wide == self.spec_is_wide(),
                first + count * w <= data_end,
                i <= count,
                self.spec_validate_elems(first as int, 0, count as int, w as int, data_end as int)
                    == self.spec_validate_elems(first as int, i as int, count as int, w as int, data_end as int),
            decreases count - i,
        {
            proof {
                assert(first + i * w + w <= first + count * w) by (nonlinear_arith)
                    requires
                        i < count,
                ;
                assert(i * w >= 0) by (nonlinear_arith)
                    requires
                        i >= 0,
                        w >= 0,
                ;
            }
            let cur = first + i * w;
            let elem = Value { data: self.data, start: cur, end: cur + w };
            let req = elem.required_size();
            if req > w {
                return Err(DecodeError::ValueOutOfBounds {
                    value_type: elem.value_type(),
                    required_size: req,
                    available_size: w,
                });
            }
            match elem.validate(is_wide, true, cur + w) {
                Err(err) => {
                    return Err(err);
                },
                Ok(()) => {},
            }
            i = i + 1;
        }
        Ok(())
    }
}


/// The slot `j` of `v`, from `first` on in slots of `w` bytes, holds a value that validates
/// in it.
pub open spec fn slot_valid<'a>(v: Value<'a>, first: int, w: int, j: int) -> bool {
    (Value { data: v.data, start: (first + j * w) as usize, end: (first + j * w + w) as usize }).spec_validate(
        v.spec_is_wide(),
        true,
        first + j * w + w,
    ) is Ok
}

/// Validated elements from `i` on: each slot up to `count` holds a value that validates in
/// its slot.
proof fn lemma_elems_validated<'a>(v: Value<'a>, first: int, i: int, count: int, w: int, data_end: int)
    requires
        v.spec_validate_elems(first, i, count, w, data_end) is Ok,
        0 <= i,
        first + count * w <= data_end,
        first >= v.start + 2,
        w >= 2,
        data_end <= v.data@.len(),
        v.start < data_end,
        data_end <= usize::MAX,
    ensures
        forall|j: int| i <= j < count ==> #[trigger] slot_valid(v, first, w, j),
    decreases count - i,
{
    if i < count {
        lemma_elems_validated(v, first, i + 1, count, w, data_end);
    }
}

/// The elements of a validated Array whose slots lie within its span can all be read: `get`
/// gives a value for every index below the count, and none from the count on.
pub proof fn law_array_get_in_range<'a>(a: Array<'a>, wide: bool, is_elem: bool, data_end: int)
    requires
        a.value.spec_type() == ValueType::Array,
        a.value.spec_validate(wide, is_elem, data_end) is Ok,
        a.value.data@.len() <= usize::MAX,
        a.value.elem_pos(a.value.spec_count() as int) <= a.value.end,
    ensures
        forall|i: int| 0 <= i < a.value.spec_count() ==> (#[trigger] a.spec_get(i)) is Some,
        forall|i: int| (i < 0 || i >= a.value.spec_count()) ==> (#[trigger] a.spec_get(i)) is None,
{
    let v = a.value;
    let w = v.spec_width();
    let count = v.spec_count() as int;
    let first = v.start + v.spec_first_pos();
    assert(v.spec_first_pos() >= 2);
    lemma_elems_validated(v, first, 0, count, w, data_end);
    assert forall|i: int| 0 <= i < count implies (#[trigger] a.spec_get(i)) is Some by {
        let q = first + i * w;
        assert(i * w >= 0) by (nonlinear_arith)
            requires
                i >= 0,
                w >= 0,
        ;
        assert(i * w + w <= count * w) by (nonlinear_arith)
            requires
                0 <= i < count,
                w >= 0,
        ;
        assert(v.elem_pos(i) == q);
        let e = Value { data: v.data, start: q as usize, end: (q + w) as usize };
        assert(slot_valid(v, first, w, i));
        assert(e.byte(0) == v.data@[q]);
    }
}

} // verus!
