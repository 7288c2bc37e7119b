use vstd::prelude::*;
use crate::point::Point;

verus! {

/// Axis-ordered comparison between values of a dataset.
pub trait Sortable<T> {
    /// Total order of `self` against `other` by the coordinate on `axis`.
    fn sort_with_axis(&self, other: &T, axis: usize) -> core::cmp::Ordering;
}

impl Sortable<Point> for Point {
    /// Compares two points by their coordinate on `axis`; a point missing
    /// that axis compares equal.
    fn sort_with_axis(&self, other: &Point, axis: usize) -> (r: core::cmp::Ordering)
        ensures
            axis < self@.len() && axis < other@.len() ==> r == (
                if self@[axis as int] < other@[axis as int] {
                    core::cmp::Ordering::Less
                } else if self@[axis as int] > other@[axis as int] {
                    core::cmp::Ordering::Greater
                } else {
                    core::cmp::Ordering::Equal
                }),
    {
        if axis < self.coords.len() && axis < other.coords.len() {
            let a = self.coords[axis];
            let b = other.coords[axis];
            if a < b {
                core::cmp::Ordering::Less
            } else if a > b {
                core::cmp::Ordering::Greater
            } else {
                core::cmp::Ordering::Equal
            }
        } else {
            core::cmp::Ordering::Equal
        }
    }
}

} // verus!
