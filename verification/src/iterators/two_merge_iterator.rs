use vstd::prelude::*;

use super::{advance_eq, merged, min_child, min_child_upto, StorageError, StorageIterator};
use crate::key::{compare_keys, key_lt, lemma_key_order, KeyOrder, KvEntry};

verus! {

/// Merges two iterators of different types into one. If the two iterators have the same key, only
/// produce the key once and prefer the entry from A.
pub struct TwoMergeIterator<A: StorageIterator, B: StorageIterator> {
    a: A,
    b: B,
    /// Whether the merged cursor currently reads from A (the newer, tie-winning side).
    use_a: bool,
}

/// The side that leads a merge of two: A while it has an entry and its key is not
/// greater than B's; B otherwise.
pub open spec fn a_leads(ea: Seq<KvEntry>, eb: Seq<KvEntry>) -> bool {
    ea.len() > 0 && (eb.len() == 0 || !key_lt(eb[0].0, ea[0].0))
}

proof fn lemma_two_min(ea: Seq<KvEntry>, eb: Seq<KvEntry>)
    ensures
        min_child(seq![ea, eb]) == (if a_leads(ea, eb) {
            0int
        } else if eb.len() > 0 {
            1int
        } else {
            -1int
        }),
{
    let cs = seq![ea, eb];
    assert(cs[0] == ea);
    assert(cs[1] == eb);
    assert(min_child_upto(cs, 0) == -1);
    assert(min_child_upto(cs, 1) == (if ea.len() > 0 { 0int } else { -1int }));
}

impl<A: StorageIterator, B: StorageIterator> TwoMergeIterator<A, B> {
    /// The two children's remaining entries, A first.
    pub closed spec fn children(&self) -> Seq<Seq<KvEntry>> {
        seq![self.a.entries(), self.b.entries()]
    }

    pub fn create(a: A, b: B) -> (r: Result<Self, StorageError>)
        requires
            a.inv(),
            b.inv(),
        ensures
            r is Ok,
            r matches Ok(it) ==> it.inv() && it.entries() == merged(seq![a.entries(), b.entries()]),
            r matches Ok(it) ==> (a.infallible() && b.infallible() ==> it.infallible()),
            r matches Ok(it) ==> it.active_iterators() == a.active_iterators() + b.active_iterators(),
    {
        let mut iter = Self { a, b, use_a: false };
        iter.recompute_leader();
        Ok(iter)
    }

    /// Moves on: past the current key on the side it came from, and on B too when
    /// B stands on the same key. On an exhausted iterator it does nothing.
    pub fn next(&mut self) -> (r: Result<(), StorageError>)
        requires
            old(self).inv(),
        ensures
            old(self).entries().len() == 0 ==> r is Ok && *final(self) == *old(self),
            old(self).entries().len() > 0 && r is Ok ==> final(self).inv() && final(self).entries()
                == old(self).entries().drop_first(),
            old(self).infallible() ==> r is Ok && final(self).infallible(),
    {
        proof {
            self.lemma_leader();
        }
        let ghost cs = self.children();
        if !self.is_valid() {
            return Ok(());
        }
        if self.use_a {
            // Tie drain: B sits on the same key A is about to emit. B must advance past
            // its stale copy too, or it resurfaces as the merged head once A moves on.
            let drain_b = self.b.is_valid() && compare_keys(self.a.key(), self.b.key())
                == KeyOrder::Equal;
            match self.a.next() {
                Err(e) => return Err(e),
                Ok(()) => {},
            }
            if drain_b {
                match self.b.next() {
                    Err(e) => return Err(e),
                    Ok(()) => {},
                }
            }
            proof {
                let k = cs[0][0].0;
                assert(self.children() =~= advance_eq(cs, k)) by {
                    assert(self.children()[0] == advance_eq(cs, k)[0]);
                    assert(self.children()[1] == advance_eq(cs, k)[1]);
                }
            }
        } else {
            match self.b.next() {
                Err(e) => return Err(e),
                Ok(()) => {},
            }
            proof {
                let k = cs[1][0].0;
                if cs[0].len() > 0 {
                    lemma_key_order(cs[0][0].0, k, k);
                }
                assert(self.children() =~= advance_eq(cs, k)) by {
                    assert(self.children()[0] == advance_eq(cs, k)[0]);
                    assert(self.children()[1] == advance_eq(cs, k)[1]);
                }
            }
        }
        self.recompute_leader();
        Ok(())
    }

    /// A (newer) leads while it is valid and its key is <= B's; ties go to A. When only
    /// one side is valid, that side leads.
    fn recompute_leader(&mut self)
        requires
            old(self).a.inv(),
            old(self).b.inv(),
        ensures
            final(self).a == old(self).a,
            final(self).b == old(self).b,
            final(self).use_a == a_leads(final(self).a.entries(), final(self).b.entries()),
    {
        self.use_a = if !self.a.is_valid() {
            false
        } else if !self.b.is_valid() {
            true
        } else {
            compare_keys(self.a.key(), self.b.key()) != KeyOrder::Greater
        };
    }
}

impl<A: StorageIterator, B: StorageIterator> StorageIterator for TwoMergeIterator<A, B> {
    /// The merge of A's and B's entries.
    closed spec fn entries(&self) -> Seq<KvEntry> {
        merged(self.children())
    }

    /// Neither side ever fails to move on.
    closed spec fn infallible(&self) -> bool {
        self.a.infallible() && self.b.infallible()
    }

    /// The active iterators of both sides.
    closed spec fn active_iterators(&self) -> nat {
        self.a.active_iterators() + self.b.active_iterators()
    }

    closed spec fn inv(&self) -> bool {
        &&& self.a.inv()
        &&& self.b.inv()
        &&& self.use_a == a_leads(self.a.entries(), self.b.entries())
    }

    fn key(&self) -> (r: &[u8]) {
        proof {
            self.lemma_leader();
        }
        if self.use_a {
            self.a.key()
        } else {
            self.b.key()
        }
    }

    fn value(&self) -> (r: &[u8]) {
        proof {
            self.lemma_leader();
        }
        if self.use_a {
            self.a.value()
        } else {
            self.b.value()
        }
    }

    fn is_valid(&self) -> (r: bool) {
        proof {
            self.lemma_leader();
        }
        if self.use_a {
            self.a.is_valid()
        } else {
            self.b.is_valid()
        }
    }

    fn num_active_iterators(&self) -> usize {
        let na = self.a.num_active_iterators();
        let nb = self.b.num_active_iterators();
        if na > usize::MAX - nb {
            usize::MAX
        } else {
            na + nb
        }
    }

    fn next(&mut self) -> (r: Result<(), StorageError>) {
        TwoMergeIterator::next(self)
    }
}

impl<A: StorageIterator, B: StorageIterator> TwoMergeIterator<A, B> {
    /// The merge holds an entry exactly while one of its sides does, and its current
    /// entry is A's while A's key is not greater than B's, B's otherwise.
    pub proof fn lemma_sides(&self)
        requires
            self.inv(),
        ensures
            self.children().len() == 2,
            self.entries() == merged(self.children()),
            self.entries().len() > 0 <==> (self.children()[0].len() > 0 || self.children()[1].len() > 0),
            self.entries().len() > 0 ==> self.entries()[0] == (if a_leads(self.children()[0], self.children()[1]) {
                self.children()[0][0]
            } else {
                self.children()[1][0]
            }),
    {
        self.lemma_leader();
    }

    proof fn lemma_leader(&self)
        requires
            self.inv(),
        ensures
            self.entries().len() > 0 <==> (self.a.entries().len() > 0 || self.b.entries().len() > 0),
            self.use_a ==> self.a.entries().len() > 0,
            !self.use_a && self.entries().len() > 0 ==> self.b.entries().len() > 0,
            self.entries().len() > 0 ==> {
                let c: int = if self.use_a { 0 } else { 1 };
                &&& min_child(self.children()) == c
                &&& self.entries()[0] == self.children()[c][0]
                &&& self.entries().drop_first() == merged(advance_eq(self.children(), self.children()[c][0].0))
            },
    {
        let cs = self.children();
        lemma_two_min(self.a.entries(), self.b.entries());
        let m = min_child(cs);
        if m >= 0 {
            assert(cs[m].len() > 0);
            assert(merged(cs) == seq![cs[m][0]] + merged(advance_eq(cs, cs[m][0].0)));
            assert(merged(cs).drop_first() =~= merged(advance_eq(cs, cs[m][0].0)));
        }
    }
}

} // verus!
