//! Double-ended, exact-size cursors over the ordered contents of a map.

use vstd::prelude::*;

verus! {

/// A double-ended cursor over key/value pairs in ascending key order.
pub struct Iter<V> {
    pub(crate) entries: Vec<(u64, V)>,
    pub(crate) pos: usize,
    pub(crate) end: usize,
}

impl<V> Iter<V> {
    #[verifier::type_invariant]
    spec fn wf(self) -> bool {
        self.pos <= self.end <= self.entries@.len()
    }

    /// The pairs not yet yielded from either side.
    pub closed spec fn remaining(self) -> Seq<(u64, V)> {
        self.entries@.subrange(self.pos as int, self.end as int)
    }

    /// Builds a cursor over all given pairs.
    pub(crate) fn new(entries: Vec<(u64, V)>) -> (it: Self)
        ensures
            it@ == entries@,
    {
        let end = entries.len();
        let it = Iter { entries, pos: 0, end };
        proof {
            assert(it.remaining() =~= it.entries@);
        }
        it
    }

    /// The number of pairs still to be yielded.
    pub fn len(&self) -> (n: usize)
        ensures
            n == self@.len(),
    {
        proof {
            use_type_invariant(self);
        }
        self.end - self.pos
    }
}

impl<V> View for Iter<V> {
    type V = Seq<(u64, V)>;

    closed spec fn view(&self) -> Seq<(u64, V)> {
        self.remaining()
    }
}

impl<V: Copy> Iter<V> {
    /// Yields the next pair from the front, in ascending key order.
    pub fn next(&mut self) -> (r: Option<(u64, V)>)
        ensures
            old(self)@.len() == 0 ==> r is None && final(self)@ == old(self)@,
            old(self)@.len() > 0 ==> r == Some(old(self)@[0]) && final(self)@ == old(
                self,
            )@.drop_first(),
    {
        proof {
            use_type_invariant(&*self);
        }
        if self.pos < self.end {
            let p = self.entries[self.pos];
            self.pos = self.pos + 1;
            proof {
                assert(final(self).remaining() =~= old(self).remaining().drop_first());
            }
            Some(p)
        } else {
            None
        }
    }

    /// Yields the next pair from the back, in descending key order.
    pub fn next_back(&mut self) -> (r: Option<(u64, V)>)
        ensures
            old(self)@.len() == 0 ==> r is None && final(self)@ == old(self)@,
            old(self)@.len() > 0 ==> r == Some(old(self)@.last()) && final(self)@ == old(
                self,
            )@.drop_last(),
    {
        proof {
            use_type_invariant(&*self);
        }
        if self.pos < self.end {
            let p = self.entries[self.end - 1];
            self.end = self.end - 1;
            proof {
                assert(final(self).remaining() =~= old(self).remaining().drop_last());
            }
            Some(p)
        } else {
            None
        }
    }
}

/// A double-ended cursor over values only, in ascending order of their keys.
pub struct Values<V> {
    pub(crate) inner: Iter<V>,
}

impl<V> Values<V> {
    /// Builds a value cursor from a pair cursor.
    pub(crate) fn new(inner: Iter<V>) -> (vs: Self)
        ensures
            vs@ == inner@,
    {
        Values { inner }
    }

    /// The number of values still to be yielded.
    pub fn len(&self) -> (n: usize)
        ensures
            n == self@.len(),
    {
        self.inner.len()
    }
}

impl<V> View for Values<V> {
    type V = Seq<(u64, V)>;

    closed spec fn view(&self) -> Seq<(u64, V)> {
        self.inner@
    }
}

impl<V: Copy> Values<V> {
    /// Yields the next value from the front.
    pub fn next(&mut self) -> (r: Option<V>)
        ensures
            old(self)@.len() == 0 ==> r is None && final(self)@ == old(self)@,
            old(self)@.len() > 0 ==> r == Some(old(self)@[0].1) && final(self)@ == old(
                self,
            )@.drop_first(),
    {
        match self.inner.next() {
            Some(p) => Some(p.1),
            None => None,
        }
    }

    /// Yields the next value from the back.
    pub fn next_back(&mut self) -> (r: Option<V>)
        ensures
            old(self)@.len() == 0 ==> r is None && final(self)@ == old(self)@,
            old(self)@.len() > 0 ==> r == Some(old(self)@.last().1) && final(self)@ == old(
                self,
            )@.drop_last(),
    {
        match self.inner.next_back() {
            Some(p) => Some(p.1),
            None => None,
        }
    }
}

} // verus!
