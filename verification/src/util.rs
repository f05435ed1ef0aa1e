use vstd::prelude::*;

use core::cmp::Ordering;

verus! {

/// A value paired with the comparator closure that orders it, so that ad-hoc
/// orderings can be used without writing a dedicated type for each one.
pub struct Ordered<T, F>(pub T, pub F);

impl<T, F: Fn(&T, &T) -> Ordering> Ordered<T, F> {
    /// The comparator's answer on the two payloads.
    pub fn cmp(&self, other: &Self) -> (r: Ordering)
        requires
            self.1.requires((&self.0, &other.0)),
        ensures
            self.1.ensures((&self.0, &other.0), r),
    {
        (self.1)(&self.0, &other.0)
    }

    /// The comparator's answer, as every comparison is defined.
    pub fn partial_cmp(&self, other: &Self) -> (r: Option<Ordering>)
        requires
            self.1.requires((&self.0, &other.0)),
        ensures
            r matches Some(o) && self.1.ensures((&self.0, &other.0), o),
    {
        Some(self.cmp(other))
    }

    /// Whether the comparator finds the two payloads equal.
    pub fn eq(&self, other: &Self) -> (r: bool)
        requires
            self.1.requires((&self.0, &other.0)),
        ensures
            exists|o: Ordering|
                self.1.ensures((&self.0, &other.0), o) && (r <==> o == Ordering::Equal),
    {
        let o = self.cmp(other);
        match o {
            Ordering::Equal => true,
            _ => false,
        }
    }
}

} // verus!
