//! A named slot: a stored value plus listener bookkeeping.

use vstd::prelude::*;
use crate::model::{
    field_view, field_wf, val_listener_free, val_listeners, value_view, value_wf, FieldM,
};
use crate::value::{value_data_type, DataType, Value};

verus! {

/// The notification-aware wrapper around one slot's value.
///
/// `own_listeners` holds the identities registered directly on this slot, in
/// registration order and without duplicates.  `child_listener_ct` caches
/// the number of listeners registered anywhere inside `data` (not counting
/// `own_listeners`); the store, not the field, keeps that cache in step with
/// the tree whenever a listener is added or removed below.
#[derive(Debug, PartialEq)]
pub struct Field {
    pub data: Value,
    pub own_listeners: Vec<usize>,
    pub child_listener_ct: usize,
}

impl Field {
    /// A fresh slot around a value that carries no listeners.
    pub fn new(data: Value) -> (r: Field)
        requires
            value_wf(data),
            val_listener_free(value_view(data)),
        ensures
            field_wf(r),
            field_view(r) == (FieldM { data: value_view(data), own: Seq::empty() }),
    {
        Field { data, own_listeners: Vec::new(), child_listener_ct: 0 }
    }

    /// The stored value.
    pub fn get_data(&self) -> (r: &Value)
        ensures
            r == &self.data,
    {
        &self.data
    }

    /// Exclusive access to the stored value, for in-place mutation.  The
    /// caller owes back a value of the same footprint and listener content;
    /// the final clause says that well-formedness survives exactly then.
    pub fn get_data_mut(&mut self) -> (r: &mut Value)
        ensures
            *r == old(self).data,
            final(self).data == *final(r),
            final(self).own_listeners == old(self).own_listeners,
            final(self).child_listener_ct == old(self).child_listener_ct,
    {
        &mut self.data
    }

    /// A deep copy: the copy reflects to the same model field, and copying
    /// preserves well-formedness and the cached count.
    pub fn duplicate(&self) -> (r: Field)
        ensures
            field_view(r) == field_view(*self),
            field_wf(*self) ==> field_wf(r),
            r.child_listener_ct == self.child_listener_ct,
        decreases *self,
    {
        let mut own2: Vec<usize> = Vec::new();
        let n: usize = self.own_listeners.len();
        let mut j: usize = 0;
        while j < n
            invariant
                j <= n,
                n == self.own_listeners@.len(),
                own2@ == self.own_listeners@.subrange(0, j as int),
            decreases n - j,
        {
            own2.push(self.own_listeners[j]);
            proof {
                assert(own2@ =~= self.own_listeners@.subrange(0, j + 1));
            }
            j = j + 1;
        }
        proof {
            assert(own2@ =~= self.own_listeners@);
        }
        let r = Field {
            data: self.data.duplicate(),
            own_listeners: own2,
            child_listener_ct: self.child_listener_ct,
        };
        proof {
            assert(field_view(r) =~= field_view(*self));
        }
        r
    }

    /// The kind of the stored value.
    pub fn data_type(&self) -> (r: DataType)
        ensures
            r == value_data_type(self.data),
    {
        self.data.data_type()
    }

    /// Registers `id` directly on this slot; registering an identity that is
    /// already present changes nothing.
    pub fn add_listener(&mut self, id: usize)
        ensures
            final(self).data == old(self).data,
            final(self).child_listener_ct == old(self).child_listener_ct,
            final(self).own_listeners@ == (if old(self).own_listeners@.contains(id) {
                old(self).own_listeners@
            } else {
                old(self).own_listeners@.push(id)
            }),
    {
        if !self.has_listener(id) {
            self.own_listeners.push(id);
        }
    }

    /// Unregisters `id` from this slot; removing an identity that is not
    /// present changes nothing.
    pub fn remove_listener(&mut self, id: usize)
        requires
            crate::model::no_dups(old(self).own_listeners@),
        ensures
            final(self).data == old(self).data,
            final(self).child_listener_ct == old(self).child_listener_ct,
            final(self).own_listeners@ == crate::model::own_without(old(self).own_listeners@, id),
    {
        let n: usize = self.own_listeners.len();
        let mut j: usize = 0;
        while j < n
            invariant
                j <= n,
                n == self.own_listeners@.len(),
                *self == *old(self),
                crate::model::no_dups(old(self).own_listeners@),
                forall|i: int| 0 <= i < j ==> self.own_listeners@[i] != id,
            decreases n - j,
        {
            if self.own_listeners[j] == id {
                proof {
                    let s = old(self).own_listeners@;
                    assert(s[j as int] == id);
                    assert(s.contains(id));
                    let i0 = choose|i: int| 0 <= i < s.len() && s[i] == id;
                    assert(0 <= i0 < s.len() && s[i0] == id);
                    if i0 < j as int {
                        assert(s[i0] != id);
                    }
                    if i0 > j as int {
                        assert(s[j as int] != s[i0]);
                    }
                    assert(i0 == j as int);
                }
                self.own_listeners.remove(j);
                return ;
            }
            j = j + 1;
        }
        proof {
            let s = old(self).own_listeners@;
            assert forall|i: int| 0 <= i < s.len() implies s[i] != id by {}
            assert(!s.contains(id));
        }
    }

    /// Whether `id` is registered directly on this slot.
    pub fn has_listener(&self, id: usize) -> (r: bool)
        ensures
            r == self.own_listeners@.contains(id),
    {
        let n: usize = self.own_listeners.len();
        let mut j: usize = 0;
        while j < n
            invariant
                j <= n,
                n == self.own_listeners@.len(),
                forall|i: int| 0 <= i < j ==> self.own_listeners@[i] != id,
            decreases n - j,
        {
            if self.own_listeners[j] == id {
                return true;
            }
            j = j + 1;
        }
        false
    }

    /// A copy of the identities registered directly on this slot, in
    /// registration order.
    pub fn own_listeners_vec(&self) -> (r: Vec<usize>)
        ensures
            r@ == self.own_listeners@,
    {
        let n: usize = self.own_listeners.len();
        let mut r: Vec<usize> = Vec::new();
        let mut j: usize = 0;
        while j < n
            invariant
                j <= n,
                n == self.own_listeners@.len(),
                r@ == self.own_listeners@.subrange(0, j as int),
            decreases n - j,
        {
            r.push(self.own_listeners[j]);
            proof {
                assert(r@ =~= self.own_listeners@.subrange(0, j + 1));
            }
            j = j + 1;
        }
        proof {
            assert(r@ =~= self.own_listeners@);
        }
        r
    }

    /// The identities registered directly on this slot (not descendants).
    pub fn own_listeners(&self) -> (r: &Vec<usize>)
        ensures
            r == &self.own_listeners,
    {
        &self.own_listeners
    }

    /// Count of identities registered directly on this slot.
    pub fn own_listener_ct(&self) -> (r: usize)
        ensures
            r as nat == self.own_listeners@.len(),
    {
        self.own_listeners.len()
    }

    /// The cached count of listeners registered anywhere inside the stored
    /// value.
    pub fn child_listener_ct(&self) -> (r: usize)
        ensures
            r == self.child_listener_ct,
    {
        self.child_listener_ct
    }

    /// Replaces the cached descendant-listener count.  The cache summarizes
    /// the stored value's actual listener set, so only that count may be
    /// written.
    pub fn set_child_listener_ct(&mut self, n: usize)
        requires
            n as nat == val_listeners(value_view(old(self).data)),
        ensures
            final(self).data == old(self).data,
            final(self).own_listeners == old(self).own_listeners,
            final(self).child_listener_ct == n,
    {
        self.child_listener_ct = n;
    }
}

} // verus!
