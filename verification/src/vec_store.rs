//! A vector as a store for the oblivious sort, and the natural order of the
//! common element types.

use vstd::prelude::*;
use crate::sort::{Access, KeyOrder, Probe};

verus! {

/// The elements of a vector, read and written in place.
pub struct VecAccess<T> {
    pub items: Vec<T>,
    /// The reads and writes so far.
    pub seen: Ghost<Seq<Probe>>,
}

impl<T> VecAccess<T> {
    /// The store of the elements `items`, of which nothing has been read or
    /// written yet.
    pub fn new(items: Vec<T>) -> (r: Self)
        ensures
            r.items == items,
            r.probes() == Seq::<Probe>::empty(),
    {
        VecAccess { items, seen: Ghost(Seq::empty()) }
    }

    /// The reads and writes so far.
    pub open spec fn probes(&self) -> Seq<Probe> {
        self.seen@
    }
}

impl<T: View + Copy> Access<T> for VecAccess<T> {
    type Error = ();

    type Fixed = ();

    open spec fn fixed(&self) -> () {
        ()
    }

    open spec fn reports(e: ()) -> bool {
        false
    }

    open spec fn seen(&self) -> Seq<Probe> {
        self.probes()
    }

    open spec fn items(&self) -> Seq<T::V> {
        self.items@.map_values(|x: T| x@)
    }

    open spec fn valid(&self) -> bool {
        true
    }

    open spec fn steady(&self) -> bool {
        true
    }

    open spec fn accepts(&self, v: T::V) -> bool {
        true
    }

    fn read(&mut self, i: usize) -> (r: Result<T, ()>) {
        self.seen = Ghost(self.seen@.push(Probe { write: false, at: i as int }));
        Ok(self.items[i])
    }

    fn write(&mut self, i: usize, x: &T) -> (r: Result<(), ()>) {
        self.items[i] = *x;
        self.seen = Ghost(self.seen@.push(Probe { write: true, at: i as int }));
        assert(self.items@.map_values(|x: T| x@) =~= old(self).items@.map_values(|x: T| x@).update(
            i as int,
            x@,
        ));
        Ok(())
    }
}

/// The order of numbers by size, and of pairs of numbers by their first
/// part, then by their second.
pub struct Natural;

impl KeyOrder<i32> for Natural {
    open spec fn rank(v: i32) -> int {
        v as int
    }

    fn less(&self, a: &i32, b: &i32) -> (r: bool) {
        *a < *b
    }
}

impl KeyOrder<u32> for Natural {
    open spec fn rank(v: u32) -> int {
        v as int
    }

    fn less(&self, a: &u32, b: &u32) -> (r: bool) {
        *a < *b
    }
}

impl KeyOrder<u64> for Natural {
    open spec fn rank(v: u64) -> int {
        v as int
    }

    fn less(&self, a: &u64, b: &u64) -> (r: bool) {
        *a < *b
    }
}

impl KeyOrder<(i32, i32)> for Natural {
    open spec fn rank(v: (i32, i32)) -> int {
        v.0 * 0x1_0000_0000 + v.1
    }

    fn less(&self, a: &(i32, i32), b: &(i32, i32)) -> (r: bool) {
        (a.0 < b.0) || (a.0 == b.0 && a.1 < b.1)
    }
}

} // verus!
