use vstd::prelude::*;

use core::cmp::Ordering;
use std::rc::Rc;

verus! {

/// A queue entry: a totally ordered key paired with an optional payload held
/// under shared ownership. Ordering and equality consult the key alone; the
/// payload is never compared.
#[derive(Debug, Clone)]
pub struct Item<V> {
    pub key: i64,
    pub value: Option<Rc<V>>,
}

/// The payload an optional shared handle points at, if any.
pub open spec fn shared_view<V>(v: Option<Rc<V>>) -> Option<V> {
    match v {
        Option::Some(rc) => Option::Some(*rc),
        Option::None => Option::None,
    }
}

/// An item is abstracted as its key together with the payload the shared
/// handle points at, if any.
impl<V> View for Item<V> {
    type V = (i64, Option<V>);

    open spec fn view(&self) -> (i64, Option<V>) {
        (self.key, shared_view(self.value))
    }
}

impl<V> Item<V> {
    /// What `cmp` returns: the comparison of the keys alone.
    pub open spec fn cmp_spec(&self, other: &Item<V>) -> Ordering {
        if self.key < other.key {
            Ordering::Less
        } else if self.key == other.key {
            Ordering::Equal
        } else {
            Ordering::Greater
        }
    }

    /// Total-order comparison of two items by key; payloads are ignored.
    pub fn cmp(&self, other: &Item<V>) -> (r: Ordering)
        ensures
            r == self.cmp_spec(other),
    {
        if self.key < other.key {
            Ordering::Less
        } else if self.key == other.key {
            Ordering::Equal
        } else {
            Ordering::Greater
        }
    }
}

impl<V> PartialEq for Item<V> {
    /// Two items are equal exactly when their keys are; payloads are ignored.
    fn eq(&self, other: &Item<V>) -> (r: bool) {
        self.key == other.key
    }
}

impl<V> vstd::std_specs::cmp::PartialEqSpecImpl for Item<V> {
    open spec fn obeys_eq_spec() -> bool {
        true
    }

    open spec fn eq_spec(&self, other: &Item<V>) -> bool {
        self.key == other.key
    }
}

impl<V> Eq for Item<V> {}

impl<V> PartialOrd for Item<V> {
    /// Items order by key alone; the order is total.
    fn partial_cmp(&self, other: &Item<V>) -> (r: Option<Ordering>) {
        if self.key < other.key {
            Some(Ordering::Less)
        } else if self.key == other.key {
            Some(Ordering::Equal)
        } else {
            Some(Ordering::Greater)
        }
    }
}

impl<V> vstd::std_specs::cmp::PartialOrdSpecImpl for Item<V> {
    open spec fn obeys_partial_cmp_spec() -> bool {
        true
    }

    open spec fn partial_cmp_spec(&self, other: &Item<V>) -> Option<Ordering> {
        Some(self.cmp_spec(other))
    }
}

} // verus!
