//! Items wrapped so as to be compared by the order of what they wrap, and
//! items mapped to what quantifies them.

use vstd::prelude::*;
use vstd::std_specs::cmp::{PartialEqSpec, PartialEqSpecImpl, PartialOrdSpec, PartialOrdSpecImpl};
use core::cmp::Ordering;

verus! {

/// A value that is compared by the order of the value it wraps.
pub struct Ordered<T>(pub T);

impl<T> Ordered<T> {
    /// The wrapped value.
    pub fn get(&self) -> (r: &T)
        ensures
            *r == self.0,
    {
        &self.0
    }
}

impl<T: PartialOrd> PartialEq for Ordered<T> {
    /// Two wrapped values are equal where neither is below the other.
    fn eq(&self, other: &Self) -> (r: bool) {
        if self.0 < other.0 {
            return false;
        }
        if self.0 > other.0 {
            return false;
        }
        true
    }
}

impl<T: PartialOrd> PartialEqSpecImpl for Ordered<T> {
    open spec fn obeys_eq_spec() -> bool {
        T::obeys_partial_cmp_spec()
    }

    open spec fn eq_spec(&self, other: &Self) -> bool {
        self.0.partial_cmp_spec(&other.0) != Some(Ordering::Less) && self.0.partial_cmp_spec(
            &other.0,
        ) != Some(Ordering::Greater)
    }
}

impl<T: PartialOrd> PartialOrd for Ordered<T> {
    /// `Less` or `Greater` where the wrapped values are so ordered, and
    /// nothing otherwise.
    fn partial_cmp(&self, other: &Self) -> (r: Option<Ordering>) {
        if self.0 < other.0 {
            return Some(Ordering::Less);
        }
        if self.0 > other.0 {
            return Some(Ordering::Greater);
        }
        None
    }
}

impl<T: PartialOrd> PartialOrdSpecImpl for Ordered<T> {
    open spec fn obeys_partial_cmp_spec() -> bool {
        T::obeys_partial_cmp_spec()
    }

    open spec fn partial_cmp_spec(&self, other: &Self) -> Option<Ordering> {
        if self.0.partial_cmp_spec(&other.0) == Some(Ordering::Less) {
            Some(Ordering::Less)
        } else if self.0.partial_cmp_spec(&other.0) == Some(Ordering::Greater) {
            Some(Ordering::Greater)
        } else {
            None
        }
    }
}

impl<T> From<T> for Ordered<T> {
    /// Wraps `f`.
    fn from(f: T) -> (r: Self) {
        Ordered(f)
    }
}

impl<T> vstd::std_specs::convert::FromSpecImpl<T> for Ordered<T> {
    open spec fn obeys_from_spec() -> bool {
        true
    }

    open spec fn from_spec(f: T) -> Self {
        Ordered(f)
    }
}

/// Wraps a reference to each item of `v`, in their order.
pub fn ord_vec<T>(v: &[T]) -> (r: Vec<Ordered<&T>>)
    ensures
        r@.len() == v@.len(),
        forall|i: int| 0 <= i < r@.len() ==> *(#[trigger] r@[i]).0 == v@[i],
{
    let mut r: Vec<Ordered<&T>> = Vec::new();
    let mut i: usize = 0;
    while i < v.len()
        invariant
            i <= v@.len(),
            r@.len() == i,
            forall|j: int| 0 <= j < i ==> *(#[trigger] r@[j]).0 == v@[j],
        decreases v@.len() - i,
    {
        r.push(Ordered(&v[i]));
        i += 1;
    }
    r
}

/// Maps each item of `v` to what `quantify` makes of it, in their order.
pub fn quant_vec<T, U>(v: &[T], quantify: impl Fn(&T) -> U) -> (r: Vec<U>)
    requires
        forall|i: int| 0 <= i < v@.len() ==> call_requires(quantify, (&#[trigger] v@[i],)),
    ensures
        r@.len() == v@.len(),
        forall|i: int| 0 <= i < r@.len() ==> call_ensures(quantify, (&v@[i],), #[trigger] r@[i]),
{
    let mut r: Vec<U> = Vec::new();
    let mut i: usize = 0;
    while i < v.len()
        invariant
            i <= v@.len(),
            r@.len() == i,
            forall|j: int| 0 <= j < v@.len() ==> call_requires(quantify, (&#[trigger] v@[j],)),
            forall|j: int| 0 <= j < i ==> call_ensures(quantify, (&v@[j],), #[trigger] r@[j]),
        decreases v@.len() - i,
    {
        r.push(quantify(&v[i]));
        i += 1;
    }
    r
}

} // verus!
