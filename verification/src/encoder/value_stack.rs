//! The collections that the Encoder holds open, innermost last.
use crate::encoder::error::EncodeError;
use crate::value::sized::SizedValue;
use vstd::prelude::*;

verus! {

/// The open collections, the innermost one last.
pub struct CollectionStack {
    collections: Vec<Collection>,
}

/// An open collection.
pub enum Collection {
    Array(Array),
    Dict(Dict),
}

/// An open Array: the inline values and temporary pointers of its elements so far.
pub struct Array {
    pub values: Vec<SizedValue>,
}

/// The key of a Dict entry.
pub enum DictKey {
    /// A key short enough to be an inline value.
    Inline(SizedValue),
    /// A shared key, by its number.
    Shared(u16),
    /// A key written out of line: its text, kept to sort the entries by, and the position it
    /// was written at.
    Pointer(String, u32),
}

/// A Dict entry.
pub struct DictElement {
    pub key: DictKey,
    pub val: SizedValue,
}

/// An open Dict: its entries so far, and the key that waits for its value.
pub struct Dict {
    pub values: Vec<DictElement>,
    pub next_key: Option<DictKey>,
}

impl Collection {
    /// A Dict that has a key waiting for its value.
    pub open spec fn waits_for_value(&self) -> bool {
        match self {
            Collection::Dict(d) => d.next_key is Some,
            Collection::Array(_) => false,
        }
    }

    /// A Dict that has no key waiting.
    pub open spec fn waits_for_key(&self) -> bool {
        match self {
            Collection::Dict(d) => d.next_key is None,
            Collection::Array(_) => false,
        }
    }
}

impl CollectionStack {
    /// The open collections, innermost last.
    pub closed spec fn view(&self) -> Seq<Collection> {
        self.collections@
    }

    /// Whether a collection may be opened now: there is none open, or the innermost is an
    /// Array, or a Dict with a key waiting.
    pub open spec fn can_open(&self) -> bool {
        self@.len() == 0 || !self@.last().waits_for_key()
    }

    pub fn new() -> (s: Self)
        ensures
            s@ == Seq::<Collection>::empty(),
    {
        CollectionStack { collections: Vec::new() }
    }

    /// The innermost open collection.
    pub fn top(&self) -> (r: Option<&Collection>)
        ensures
            self@.len() == 0 <==> r is None,
            r matches Some(c) ==> *c == self@.last(),
    {
        let n = self.collections.len();
        if n == 0 {
            None
        } else {
            Some(&self.collections[n - 1])
        }
    }

    /// The innermost open collection, to change it.
    pub fn top_mut(&mut self) -> (r: Option<&mut Collection>)
        ensures
            old(self)@.len() == 0 <==> r is None,
            r is None ==> final(self)@ == old(self)@,
            r matches Some(c) ==> *c == old(self)@.last() && final(self)@ == old(self)@.update(
                old(self)@.len() - 1,
                *final(c),
            ),
    {
        let n = self.collections.len();
        if n == 0 {
            None
        } else {
            Some(&mut self.collections[n - 1])
        }
    }

    /// The number of open collections.
    pub fn depth(&self) -> (n: usize)
        ensures
            n == self@.len(),
    {
        self.collections.len()
    }

    /// Whether no collection is open.
    pub fn empty(&self) -> (b: bool)
        ensures
            b <==> self@.len() == 0,
    {
        self.collections.len() == 0
    }

    /// Open an Array; where the innermost collection is a Dict, a key must be waiting for it.
    pub fn push_array(&mut self, capacity: usize) -> (r: Result<(), EncodeError>)
        ensures
            r is Ok <==> old(self).can_open(),
            r is Err ==> r == Err::<(), EncodeError>(EncodeError::DictWaitingForKey) && final(self)@
                == old(self)@,
            r is Ok ==> final(self)@.len() == old(self)@.len() + 1 && final(self)@.drop_last()
                == old(self)@ && (final(self)@.last() matches Collection::Array(a)
                && a.values@.len() == 0),
    {
        if let Some(Collection::Dict(dict)) = self.top() {
            if dict.next_key.is_none() {
                return Err(EncodeError::DictWaitingForKey);
            }
        }
        self.collections.push(Collection::Array(Array::with_capacity(capacity)));
        proof {
            assert(self@.drop_last() =~= old(self)@);
        }
        Ok(())
    }

    /// Open a Dict; where the innermost collection is a Dict, a key must be waiting for it.
    pub fn push_dict(&mut self) -> (r: Result<(), EncodeError>)
        ensures
            r is Ok <==> old(self).can_open(),
            r is Err ==> r == Err::<(), EncodeError>(EncodeError::DictWaitingForKey) && final(self)@
                == old(self)@,
            r is Ok ==> final(self)@.len() == old(self)@.len() + 1 && final(self)@.drop_last()
                == old(self)@ && (final(self)@.last() matches Collection::Dict(d)
                && d.values@.len() == 0 && d.next_key is None),
    {
        if let Some(Collection::Dict(dict)) = self.top() {
            if dict.next_key.is_none() {
                return Err(EncodeError::DictWaitingForKey);
            }
        }
        self.collections.push(Collection::Dict(Dict::new()));
        proof {
            assert(self@.drop_last() =~= old(self)@);
        }
        Ok(())
    }

    /// Close the innermost collection and hand it back; not a Dict whose key waits for a value.
    pub fn pop(&mut self) -> (r: Option<Collection>)
        ensures
            r is None <==> old(self)@.len() == 0 || old(self)@.last().waits_for_value(),
            r is None ==> final(self)@ == old(self)@,
            r matches Some(c) ==> c == old(self)@.last() && final(self)@ == old(self)@.drop_last(),
    {
        if let Some(Collection::Dict(dict)) = self.top() {
            if dict.next_key.is_some() {
                return None;
            }
        }
        self.collections.pop()
    }
}

impl Array {
    pub fn with_capacity(capacity: usize) -> (a: Self)
        ensures
            a.values@.len() == 0,
    {
        Array { values: Vec::with_capacity(capacity) }
    }

    pub fn push(&mut self, value: SizedValue)
        ensures
            final(self).values@ == old(self).values@.push(value),
    {
        self.values.push(value);
    }
}

impl Dict {
    pub fn new() -> (d: Self)
        ensures
            d.values@.len() == 0,
            d.next_key is None,
    {
        Dict { values: Vec::new(), next_key: None }
    }

    /// Set the key that waits for a value; `None` (and no change) if one already waits.
    pub fn push_key(&mut self, key: DictKey) -> (r: Option<()>)
        ensures
            r is Some <==> old(self).next_key is None,
            r is Some ==> final(self).next_key == Some(key) && final(self).values@ == old(
                self,
            ).values@,
            r is None ==> *final(self) == *old(self),
    {
        if self.next_key.is_some() {
            return None;
        }
        self.next_key = Some(key);
        Some(())
    }

    /// Add the entry of the waiting key and `value`; `None` (and no change) if no key waits.
    pub fn push_value(&mut self, value: SizedValue) -> (r: Option<()>)
        ensures
            r is Some <==> old(self).next_key is Some,
            r is Some ==> final(self).next_key is None && final(self).values@ == old(
                self,
            ).values@.push(DictElement { key: old(self).next_key->0, val: value }),
            r is None ==> *final(self) == *old(self),
    {
        match self.next_key.take() {
            Some(key) => {
                self.values.push(DictElement { key, val: value });
                Some(())
            },
            None => None,
        }
    }
}

} // verus!
