//! A dense bitmap of fixed logical length.
//!
//! Bit `j` of a run's bitmap is set exactly when entry `j` is live; a cleared
//! bit marks a tombstone. The physical representation is private; the view is
//! the sequence of bits.

use vstd::prelude::*;

verus! {

pub struct Flags {
    bits: Vec<bool>,
}

impl View for Flags {
    type V = Seq<bool>;

    closed spec fn view(&self) -> Seq<bool> {
        self.bits@
    }
}

impl Flags {
    /// A bitmap of `n` zero bits.
    pub fn nulls(n: usize) -> (r: Flags)
        ensures
            r@.len() == n,
            forall|j: int| 0 <= j < n ==> !r@[j],
    {
        let mut bits: Vec<bool> = Vec::new();
        let mut i: usize = 0;
        while i < n
            invariant
                i <= n,
                bits@.len() == i,
                forall|j: int| 0 <= j < i ==> !bits@[j],
            decreases n - i,
        {
            bits.push(false);
            i += 1;
        }
        Flags { bits }
    }

    /// A bitmap of `n` one bits.
    pub fn ones(n: usize) -> (r: Flags)
        ensures
            r@.len() == n,
            forall|j: int| 0 <= j < n ==> r@[j],
    {
        let mut bits: Vec<bool> = Vec::new();
        let mut i: usize = 0;
        while i < n
            invariant
                i <= n,
                bits@.len() == i,
                forall|j: int| 0 <= j < i ==> bits@[j],
            decreases n - i,
        {
            bits.push(true);
            i += 1;
        }
        Flags { bits }
    }

    pub fn len(&self) -> (r: usize)
        ensures
            r == self@.len(),
    {
        self.bits.len()
    }

    pub fn get(&self, i: usize) -> (r: bool)
        requires
            i < self@.len(),
        ensures
            r == self@[i as int],
    {
        self.bits[i]
    }

    /// Clear bit `i`.
    pub fn unset(&mut self, i: usize)
        requires
            i < old(self)@.len(),
        ensures
            final(self)@ == old(self)@.update(i as int, false),
    {
        self.bits.set(i, false);
    }

    /// Clear every bit; the length is kept.
    pub fn set_nulls(&mut self)
        ensures
            final(self)@.len() == old(self)@.len(),
            forall|j: int| 0 <= j < final(self)@.len() ==> !final(self)@[j],
    {
        let n: usize = self.bits.len();
        let mut i: usize = 0;
        while i < n
            invariant
                i <= n,
                self.bits@.len() == n,
                forall|j: int| 0 <= j < i ==> !self.bits@[j],
            decreases n - i,
        {
            self.bits.set(i, false);
            i += 1;
        }
    }

    /// Set the first `n` bits and clear the rest.
    pub fn set_ones(&mut self, n: usize)
        requires
            n <= old(self)@.len(),
        ensures
            final(self)@.len() == old(self)@.len(),
            forall|j: int| 0 <= j < n ==> final(self)@[j],
            forall|j: int| n <= j < final(self)@.len() ==> !final(self)@[j],
    {
        let len: usize = self.bits.len();
        let mut i: usize = 0;
        while i < len
            invariant
                i <= len,
                n <= len,
                self.bits@.len() == len,
                forall|j: int| 0 <= j < i && j < n ==> self.bits@[j],
                forall|j: int| n <= j < i ==> !self.bits@[j],
            decreases len - i,
        {
            self.bits.set(i, i < n);
            i += 1;
        }
    }
}

} // verus!
