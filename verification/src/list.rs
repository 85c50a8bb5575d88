//! A list that hands out its elements front to back.

use std::collections::VecDeque;
use vstd::prelude::*;

verus! {

/// A list, as a wrapper around a double-ended queue.
pub struct List<T>(pub VecDeque<T>);

/// Hands out the elements of a list by value, front to back.
pub struct IntoIter<T> {
    list: VecDeque<T>,
}

impl<T> List<T> {
    /// Turns the list into the walk over its elements.
    pub fn into_iter(self) -> (walk: IntoIter<T>)
        ensures
            walk.upcoming() == self.0@,
    {
        IntoIter { list: self.0 }
    }
}

impl<T> IntoIter<T> {
    /// The elements still to come, in the order in which they come.
    pub closed spec fn upcoming(&self) -> Seq<T> {
        self.list@
    }

    /// The next element, or `None` when all have been handed out.
    pub fn next(&mut self) -> (item: Option<T>)
        ensures
            match item {
                Some(value) => old(self).upcoming().len() > 0 && value == old(self).upcoming()[0]
                    && final(self).upcoming() == old(self).upcoming().skip(1),
                None => old(self).upcoming().len() == 0 && final(self).upcoming().len() == 0,
            },
    {
        let item = self.list.pop_front();
        proof {
            if item.is_some() {
                assert(self.upcoming() =~= old(self).upcoming().skip(1));
            }
        }
        item
    }
}

} // verus!
