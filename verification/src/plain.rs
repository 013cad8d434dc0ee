//! Values that can be copied and compared as what they stand for.

use vstd::prelude::*;

use crate::text::text_eq;

verus! {

/// A value that is copied and compared by its view.
pub trait Plain: View + Sized {
    /// A second value that stands for the same thing.
    fn duplicate(&self) -> (copy: Self)
        ensures
            copy@ == self@,
    ;

    /// Whether two values stand for the same thing.
    fn same(&self, other: &Self) -> (equal: bool)
        ensures
            equal == (self@ == other@),
    ;
}

impl Plain for String {
    fn duplicate(&self) -> (copy: Self) {
        self.clone()
    }

    fn same(&self, other: &Self) -> (equal: bool) {
        text_eq(self.as_str(), other.as_str())
    }
}

impl Plain for u64 {
    fn duplicate(&self) -> (copy: Self) {
        *self
    }

    fn same(&self, other: &Self) -> (equal: bool) {
        *self == *other
    }
}

/// The views of a sequence of values.
pub open spec fn views<T: View>(values: Seq<T>) -> Seq<T::V> {
    values.map_values(|value: T| value@)
}

/// What an optional value stands for.
pub open spec fn opt_view<T: View>(value: Option<T>) -> Option<T::V> {
    match value {
        Some(inner) => Some(inner@),
        None => None,
    }
}

/// Copies each value of a list.
pub fn duplicate_all<T: Plain>(values: &[T]) -> (copies: Vec<T>)
    ensures
        views(copies@) == views(values@),
        copies@.len() == values@.len(),
{
    let mut copies: Vec<T> = Vec::new();
    let mut i: usize = 0;
    while i < values.len()
        invariant
            i <= values.len(),
            views(copies@) == views(values@.take(i as int)),
            copies@.len() == i,
        decreases values.len() - i,
    {
        let copy = values[i].duplicate();
        let ghost before = copies@;
        copies.push(copy);
        i = i + 1;
        proof {
            assert(views(before.push(copy)) =~= views(before).push(copy@));
            assert(values@.take(i as int) =~= values@.take(i - 1).push(values@[i - 1]));
            assert(views(values@.take(i as int)) =~= views(values@.take(i - 1)).push(
                values@[i - 1]@,
            ));
        }
    }
    assert(values@.take(i as int) =~= values@);
    copies
}

/// Whether two lists stand for the same values in the same order.
pub fn same_all<T: Plain>(left: &[T], right: &[T]) -> (equal: bool)
    ensures
        equal == (views(left@) == views(right@)),
{
    if left.len() != right.len() {
        assert(views(left@).len() != views(right@).len());
        return false;
    }
    let mut i: usize = 0;
    while i < left.len()
        invariant
            left.len() == right.len(),
            i <= left.len(),
            forall|j: int| 0 <= j < i ==> views(left@)[j] == views(right@)[j],
        decreases left.len() - i,
    {
        if !left[i].same(&right[i]) {
            assert(views(left@)[i as int] != views(right@)[i as int]);
            return false;
        }
        i = i + 1;
    }
    assert(views(left@) =~= views(right@));
    true
}

/// Copies an optional value.
pub fn duplicate_opt<T: Plain>(value: &Option<T>) -> (copy: Option<T>)
    ensures
        opt_view(copy) == opt_view(*value),
{
    match value {
        Some(inner) => Some(inner.duplicate()),
        None => None,
    }
}

/// Whether two optional values stand for the same thing.
pub fn same_opt<T: Plain>(left: &Option<T>, right: &Option<T>) -> (equal: bool)
    ensures
        equal == (opt_view(*left) == opt_view(*right)),
{
    match (left, right) {
        (Some(a), Some(b)) => a.same(b),
        (None, None) => true,
        _ => false,
    }
}

} // verus!
