//! A scope: Fleece data kept together with the shared keys its Dicts use.
use crate::alloced::{share, AllocedValue};
use crate::shared_keys::SharedKeys;
use crate::value::{spec_from_bytes, Value};
use std::sync::Arc;
use vstd::prelude::*;

verus! {

/// Fleece data, the shared keys its Dicts use, and where its root value lies, if it has one.
pub struct Scope {
    shared_keys: Option<Arc<SharedKeys>>,
    data: Arc<Vec<u8>>,
    root: Option<(usize, usize)>,
}

impl Scope {
    /// The root lies within the data.
    #[verifier::type_invariant]
    spec fn inv(self) -> bool {
        self.root matches Some((s, e)) ==> s + 2 <= e <= self.data@.len()
    }

    pub closed spec fn spec_data(&self) -> Seq<u8> {
        self.data@
    }

    /// Where the root value lies, if the data is valid Fleece.
    pub closed spec fn spec_root(&self) -> Option<(usize, usize)> {
        self.root
    }

    pub closed spec fn spec_shared_keys(&self) -> Option<Arc<SharedKeys>> {
        self.shared_keys
    }

    /// A scope for `data`, whose root is the one `Value::from_bytes` finds, where the data is
    /// valid Fleece.
    pub fn new(data: Vec<u8>, shared_keys: Option<Arc<SharedKeys>>) -> (s: Self)
        ensures
            s.spec_data() == data@,
            s.spec_shared_keys() == shared_keys,
            forall|d: &[u8]|
                d@ == data@ ==> match #[trigger] spec_from_bytes(d) {
                    Ok(v) => s.spec_root() == Some((v.start, v.end)),
                    Err(_) => s.spec_root() is None,
                },
    {
        let sl = data.as_slice();
        let root = match Value::from_bytes(sl) {
            Ok(v) => Some((v.start, v.end)),
            Err(_) => None,
        };
        assert forall|d: &[u8]| d@ == data@ implies d == sl by {}
        Scope { shared_keys, data: Arc::new(data), root }
    }

    /// The shared keys of the data, if it has any.
    pub fn shared_keys(&self) -> (r: Option<&Arc<SharedKeys>>)
        ensures
            r is Some <==> self.spec_shared_keys() is Some,
            r matches Some(k) ==> *k == self.spec_shared_keys()->0,
    {
        match &self.shared_keys {
            Some(k) => Some(k),
            None => None,
        }
    }

    /// The data.
    pub fn data(&self) -> (r: Arc<Vec<u8>>)
        ensures
            r@ == self.spec_data(),
    {
        share(&self.data)
    }

    /// The root value, held together with the data, if there is one.
    pub fn root(&self) -> (r: Option<AllocedValue>)
        ensures
            r is Some <==> self.spec_root() is Some,
            r matches Some(a) ==> a.spec_buf() == self.spec_data() && (self.spec_root() matches Some(
                (s, e),
            ) && a.spec_start() == s && a.spec_end() == e),
    {
        proof {
            use_type_invariant(self);
        }
        match self.root {
            Some((start, end)) => Some(AllocedValue::from_parts(share(&self.data), start, end)),
            None => None,
        }
    }
}

} // verus!
