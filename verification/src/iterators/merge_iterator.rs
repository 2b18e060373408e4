use vstd::prelude::*;
use vstd::pervasive::VecAdditionalExecFns;

use super::{
    advance_eq, failed_step, merged, min_child, min_child_upto, StorageError, StorageIterator,
};
use crate::key::{compare_keys, KeyOrder, KvEntry};

verus! {

/// Merge multiple iterators of the same type. If the same key occurs multiple times in some
/// iterators, prefer the one with smaller index.
///
/// The children stay in their construction order; an exhausted child leaves an
/// empty slot. `current` is the slot whose entry comes first: the smallest key,
/// ties broken by the smaller index.
pub struct MergeIterator<I: StorageIterator> {
    iters: Vec<Option<Box<I>>>,
    current: Option<usize>,
}

impl<I: StorageIterator> MergeIterator<I> {
    /// What each child has still to yield, by construction index; an empty slot
    /// yields nothing.
    pub closed spec fn children(&self) -> Seq<Seq<KvEntry>> {
        Seq::new(
            self.iters@.len(),
            |i: int|
                match self.iters@[i] {
                    Some(b) => b.entries(),
                    None => Seq::empty(),
                },
        )
    }

    /// No child left in a slot ever fails to move on.
    pub closed spec fn children_infallible(&self) -> bool {
        forall|i: int|
            0 <= i < self.iters@.len() ==> match #[trigger] self.iters@[i] {
                Some(b) => b.infallible(),
                None => true,
            }
    }

    /// Every occupied slot holds a consistent child with an entry to yield, and
    /// `current` names the child that comes first.
    pub closed spec fn wf(&self) -> bool {
        &&& forall|i: int|
            0 <= i < self.iters@.len() ==> match #[trigger] self.iters@[i] {
                Some(b) => b.inv() && b.entries().len() > 0,
                None => true,
            }
        &&& match self.current {
            None => min_child(self.children()) < 0,
            Some(c) => c as int == min_child(self.children()),
        }
    }

    /// Index of the child that comes first, as the slots stand.
    fn find_min(&self) -> (r: Option<usize>)
        requires
            forall|i: int|
                0 <= i < self.iters@.len() ==> match #[trigger] self.iters@[i] {
                    Some(b) => b.inv() && b.entries().len() > 0,
                    None => true,
                },
        ensures
            match r {
                None => min_child(self.children()) < 0,
                Some(c) => c as int == min_child(self.children()),
            },
    {
        let ghost cs = self.children();
        let mut best: Option<usize> = None;
        let mut i: usize = 0;
        while i < self.iters.len()
            invariant
                i <= self.iters@.len(),
                cs == self.children(),
                forall|j: int|
                    0 <= j < self.iters@.len() ==> match #[trigger] self.iters@[j] {
                        Some(b) => b.inv() && b.entries().len() > 0,
                        None => true,
                    },
                match best {
                    None => min_child_upto(cs, i as nat) < 0,
                    Some(m) => m as int == min_child_upto(cs, i as nat),
                },
                min_child_upto(cs, i as nat) < i,
                min_child_upto(cs, i as nat) >= -1,
            decreases self.iters.len() - i,
        {
            proof {
                super::lemma_min_child_upto(cs, i as nat);
            }
            match &self.iters[i] {
                Some(b) => {
                    assert(cs[i as int] == b.entries());
                    match best {
                        None => {
                            best = Some(i);
                        },
                        Some(m) => {
                            let bm = self.iters[m].as_ref().unwrap();
                            assert(cs[m as int] == bm.entries());
                            if compare_keys(b.key(), bm.key()) == KeyOrder::Less {
                                best = Some(i);
                            }
                        },
                    }
                },
                None => {
                    assert(cs[i as int].len() == 0);
                },
            }
            i = i + 1;
        }
        best
    }

    pub fn create(iters: Vec<Box<I>>) -> (r: Self)
        requires
            forall|i: int| 0 <= i < iters@.len() ==> (#[trigger] iters@[i]).inv(),
        ensures
            r.wf(),
            r.inv(),
            r.entries() == merged(Seq::new(iters@.len(), |i: int| iters@[i].entries())),
            (forall|i: int| 0 <= i < iters@.len() ==> (#[trigger] iters@[i]).infallible()) ==> r.infallible(),
    {
        let ghost input = Seq::new(iters@.len(), |i: int| iters@[i].entries());
        let ghost all_infallible = forall|i: int| 0 <= i < iters@.len() ==> (#[trigger] iters@[i]).infallible();
        let n = iters.len();
        let mut slots: Vec<Option<Box<I>>> = Vec::new();
        while slots.len() < n
            invariant
                slots@.len() <= n,
                forall|j: int| 0 <= j < slots@.len() ==> (#[trigger] slots@[j]) is None,
            decreases n - slots@.len(),
        {
            slots.push(None);
        }
        let mut rest = iters;
        while rest.len() > 0
            invariant
                slots@.len() == n,
                rest@.len() <= n,
                input.len() == n,
                forall|j: int| 0 <= j < rest@.len() ==> (#[trigger] rest@[j]).inv() && rest@[j].entries() == input[j],
                forall|j: int| 0 <= j < rest@.len() ==> (#[trigger] slots@[j]) is None,
                forall|j: int|
                    rest@.len() <= j < n ==> match #[trigger] slots@[j] {
                        Some(b) => b.inv() && b.entries().len() > 0 && b.entries() == input[j],
                        None => input[j].len() == 0,
                    },
                all_infallible ==> forall|j: int| 0 <= j < rest@.len() ==> (#[trigger] rest@[j]).infallible(),
                all_infallible ==> forall|j: int|
                    rest@.len() <= j < n ==> match #[trigger] slots@[j] {
                        Some(b) => b.infallible(),
                        None => true,
                    },
            decreases rest@.len(),
        {
            let it = rest.pop().unwrap();
            let idx = rest.len();
            // Only valid children take part in the merge.
            if it.is_valid() {
                slots.set(idx, Some(it));
            }
        }
        let mut r = MergeIterator { iters: slots, current: None };
        proof {
            assert forall|j: int| 0 <= j < n implies #[trigger] r.children()[j] == input[j] by {
                if r.iters@[j] is None {
                    assert(input[j] =~= Seq::<KvEntry>::empty());
                }
            }
            assert(r.children() =~= input);
        }
        r.current = r.find_min();
        r
    }
}

impl<I: StorageIterator> StorageIterator for MergeIterator<I> {
    /// The merge of the children's entries.
    closed spec fn entries(&self) -> Seq<KvEntry> {
        merged(self.children())
    }

    closed spec fn inv(&self) -> bool {
        self.wf()
    }

    /// No child ever fails to move on.
    closed spec fn infallible(&self) -> bool {
        self.children_infallible()
    }

    /// The merge counts as one iterator.
    open spec fn active_iterators(&self) -> nat {
        1
    }

    fn num_active_iterators(&self) -> (r: usize) {
        1
    }

    fn key(&self) -> (r: &[u8]) {
        proof {
            self.lemma_current();
        }
        let c = self.current.unwrap();
        self.iters[c].as_ref().unwrap().key()
    }

    fn value(&self) -> (r: &[u8]) {
        proof {
            self.lemma_current();
        }
        let c = self.current.unwrap();
        self.iters[c].as_ref().unwrap().value()
    }

    fn is_valid(&self) -> (r: bool) {
        proof {
            super::lemma_min_child_upto(self.children(), self.children().len());
            if self.current is Some {
                self.lemma_current();
            }
        }
        self.current.is_some()
    }

    /// Every other child positioned on the current key moves on, then the current
    /// child; then the child that comes first becomes current. A child other than
    /// the current one that fails leaves the merge; a failing current child stays.
    fn next(&mut self) -> (r: Result<(), StorageError>)
        ensures
            r is Err ==> exists|i: int|
                failed_step(
                    old(self).children(),
                    old(self).entries()[0].0,
                    min_child(old(self).children()),
                    i,
                    final(self).children(),
                ),
    {
        proof {
            self.lemma_current();
        }
        let ghost cs = self.children();
        let c = self.current.unwrap();
        let mut current_key: Vec<u8> = Vec::new();
        current_key.extend_from_slice(self.iters[c].as_ref().unwrap().key());
        let ghost k = current_key@;
        assert(k == old(self).entries()[0].0);
        assert(cs[c as int].len() > 0 && cs[c as int][0].0 == k);
        let n = self.iters.len();
        let mut i: usize = 0;
        while i < n
            invariant
                n == self.iters@.len(),
                cs.len() == n,
                i <= n,
                c < n,
                c as int == min_child(cs),
                cs[c as int].len() > 0,
                cs[c as int][0].0 == k,
                current_key@ == k,
                cs == old(self).children(),
                k == old(self).entries()[0].0,
                forall|j: int|
                    0 <= j < n ==> match #[trigger] self.iters@[j] {
                        Some(b) => b.inv() && b.entries().len() > 0,
                        None => true,
                    },
                forall|j: int| 0 <= j < i && j != c ==> #[trigger] self.children()[j] == advance_eq(cs, k)[j],
                forall|j: int| (i <= j < n || j == c) ==> #[trigger] self.children()[j] == cs[j],
                old(self).infallible() ==> self.children_infallible(),
            decreases n - i,
        {
            if i != c {
                let ghost pre = self.children();
                let ghost pre_iters = self.iters@;
                assert(pre[i as int] == cs[i as int]);
                let mut slot: Option<Box<I>> = None;
                self.iters.set_and_swap(i, &mut slot);
                assert(old(self).infallible() ==> match slot {
                    Some(b) => b.infallible(),
                    None => true,
                });
                match slot {
                    None => {
                        assert(cs[i as int] =~= Seq::<KvEntry>::empty());
                        assert(self.children()[i as int] == advance_eq(cs, k)[i as int]);
                    },
                    Some(mut b) => {
                        assert(cs[i as int] == b.entries());
                        if compare_keys(b.key(), current_key.as_slice()) == KeyOrder::Equal {
                            let ghost bk = b.entries();
                            match b.next() {
                                Err(e) => {
                                    proof {
                                        assert(self.iters@[i as int] is None);
                                        assert(self.children()[i as int].len() == 0);
                                        assert(cs[i as int] == bk && bk[0].0 == k);
                                        assert forall|j: int| (i < j < n || j == c) implies #[trigger] self.children()[j] == cs[j] by {
                                            assert(self.iters@[j] == pre_iters[j]);
                                            assert(pre[j] == cs[j]);
                                        }
                                        assert forall|j: int| 0 <= j < i && j != c implies #[trigger] self.children()[j] == advance_eq(cs, k)[j] by {
                                            assert(self.iters@[j] == pre_iters[j]);
                                            assert(pre[j] == advance_eq(cs, k)[j]);
                                        }
                                        assert(failed_step(cs, k, c as int, i as int, self.children()));
                                    }
                                    return Err(e);
                                },
                                Ok(()) => {},
                            }
                            if b.is_valid() {
                                self.iters.set(i, Some(b));
                            } else {
                                assert(b.entries() =~= Seq::<KvEntry>::empty());
                            }
                            assert(self.children()[i as int] =~= advance_eq(cs, k)[i as int]);
                        } else {
                            self.iters.set(i, Some(b));
                            assert(self.children()[i as int] == advance_eq(cs, k)[i as int]);
                        }
                    },
                }
                proof {
                    assert forall|j: int| 0 <= j < n && j != i implies #[trigger] self.iters@[j] == pre_iters[j] by {}
                    assert forall|j: int| 0 <= j < n && j != i implies #[trigger] self.children()[j] == pre[j] by {
                        assert(self.iters@[j] == pre_iters[j]);
                    }
                    assert forall|j: int| 0 <= j < i + 1 && j != c implies #[trigger] self.children()[j] == advance_eq(cs, k)[j] by {
                        if j < i {
                            assert(pre[j] == advance_eq(cs, k)[j]);
                        }
                    }
                    assert forall|j: int| (i + 1 <= j < n || j == c) implies #[trigger] self.children()[j] == cs[j] by {
                        assert(pre[j] == cs[j]);
                    }
                    assert forall|j: int| 0 <= j < n implies match #[trigger] self.iters@[j] {
                        Some(b) => b.inv() && b.entries().len() > 0,
                        None => true,
                    } by {
                        if j != i {
                            assert(self.iters@[j] == pre_iters[j]);
                        }
                    }
                    if old(self).infallible() {
                        assert forall|j: int| 0 <= j < n implies match #[trigger] self.iters@[j] {
                            Some(b) => b.infallible(),
                            None => true,
                        } by {
                            if j != i {
                                assert(self.iters@[j] == pre_iters[j]);
                            }
                        }
                    }
                }
            }
            i = i + 1;
        }
        // The current child moves on last.
        let ghost pre = self.children();
        let ghost pre_iters = self.iters@;
        assert(pre[c as int] == cs[c as int]);
        let mut slot: Option<Box<I>> = None;
        self.iters.set_and_swap(c, &mut slot);
        assert(slot is Some) by {
            if slot is None {
                assert(pre[c as int] =~= Seq::<KvEntry>::empty());
            }
        }
        let mut b = slot.unwrap();
        assert(cs[c as int] == b.entries());
        assert(old(self).infallible() ==> b.infallible());
        match b.next() {
            Err(e) => {
                self.iters.set(c, Some(b));
                proof {
                    assert forall|j: int| 0 <= j < n && j != c implies #[trigger] self.children()[j] == advance_eq(cs, k)[j] by {
                        assert(self.iters@[j] == pre_iters[j]);
                        assert(pre[j] == advance_eq(cs, k)[j]);
                    }
                    assert(failed_step(cs, k, c as int, c as int, self.children()));
                }
                return Err(e);
            },
            Ok(()) => {},
        }
        if b.is_valid() {
            self.iters.set(c, Some(b));
        } else {
            assert(b.entries() =~= Seq::<KvEntry>::empty());
        }
        proof {
            assert(self.children()[c as int] =~= advance_eq(cs, k)[c as int]);
            assert forall|j: int| 0 <= j < n && j != c implies #[trigger] self.iters@[j] == pre_iters[j] by {}
            assert forall|j: int| 0 <= j < n implies #[trigger] self.children()[j] == advance_eq(cs, k)[j] by {
                if j != c {
                    assert(self.iters@[j] == pre_iters[j]);
                    assert(pre[j] == advance_eq(cs, k)[j]);
                }
            }
            assert(self.children() =~= advance_eq(cs, k));
            assert forall|j: int| 0 <= j < n implies match #[trigger] self.iters@[j] {
                Some(b) => b.inv() && b.entries().len() > 0,
                None => true,
            } by {
                if j != c {
                    assert(self.iters@[j] == pre_iters[j]);
                }
            }
            if old(self).infallible() {
                assert forall|j: int| 0 <= j < n implies match #[trigger] self.iters@[j] {
                    Some(b) => b.infallible(),
                    None => true,
                } by {
                    if j != c {
                        assert(self.iters@[j] == pre_iters[j]);
                    }
                }
            }
        }
        self.current = self.find_min();
        proof {
            assert(old(self).entries().drop_first() == merged(advance_eq(cs, k)));
            assert(self.entries() == merged(advance_eq(cs, k)));
            assert(self.wf());
        }
        Ok(())
    }
}

impl<I: StorageIterator> MergeIterator<I> {
    proof fn lemma_current(&self)
        requires
            self.wf(),
        ensures
            self.current is Some <==> self.entries().len() > 0,
            self.current is Some ==> {
                let c = self.current.unwrap() as int;
                &&& 0 <= c < self.iters@.len()
                &&& self.iters@[c] is Some
                &&& self.children()[c] == self.iters@[c].unwrap().entries()
                &&& self.iters@[c].unwrap().inv()
                &&& self.iters@[c].unwrap().entries().len() > 0
                &&& self.entries()[0] == self.children()[c][0]
                &&& self.entries().drop_first() == merged(advance_eq(self.children(), self.children()[c][0].0))
                &&& min_child(self.children()) == c
            },
    {
        let cs = self.children();
        super::lemma_min_child_upto(cs, cs.len());
        if self.current is Some {
            let c = self.current.unwrap() as int;
            assert(min_child(cs) >= 0);
            assert(c == min_child(cs));
            assert(cs[c].len() > 0);
            assert(self.iters@[c] is Some);
            assert(merged(cs) == seq![cs[c][0]] + merged(advance_eq(cs, cs[c][0].0)));
            assert(merged(cs).drop_first() =~= merged(advance_eq(cs, cs[c][0].0)));
        }
    }
}

} // verus!
