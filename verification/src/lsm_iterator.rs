//! The iterators a scan hands out: `LsmIterator` hides tombstones and stops at the
//! scan's upper bound; `FusedIterator` stays invalid for good once its inner
//! iterator has reported an error.
use vstd::prelude::*;

use bytes::Bytes;

use crate::codec::{bytes_as_slice, bytes_seq};
use crate::iterators::{StorageError, StorageIterator};
use crate::key::{compare_keys, key_le, key_lt, keys_strictly_sorted, lemma_key_order, KeyOrder, KvEntry};

verus! {

/// The upper end of a scan, owning its key.
pub enum EndBound {
    Included(Bytes),
    Excluded(Bytes),
    Unbounded,
}

/// A scan's upper end as the specifications see it: none, or a key and whether
/// the key itself is included.
pub type EndView = Option<(bool, Seq<u8>)>;

impl View for EndBound {
    type V = EndView;

    open spec fn view(&self) -> EndView {
        match self {
            EndBound::Included(k) => Some((true, bytes_seq(*k))),
            EndBound::Excluded(k) => Some((false, bytes_seq(*k))),
            EndBound::Unbounded => None,
        }
    }
}

/// `key` lies at or below the upper end `end`.
pub open spec fn below_end(key: Seq<u8>, end: EndView) -> bool {
    match end {
        Some((included, k)) => if included {
            key_le(key, k)
        } else {
            key_lt(key, k)
        },
        None => true,
    }
}

/// What a scan shows of the entries `es`: the entries before the first one past
/// `end`, without the tombstones (entries with an empty value).
pub open spec fn visible(es: Seq<KvEntry>, end: EndView) -> Seq<KvEntry>
    decreases es.len(),
{
    if es.len() == 0 {
        Seq::empty()
    } else if !below_end(es[0].0, end) {
        Seq::empty()
    } else if es[0].1.len() == 0 {
        visible(es.drop_first(), end)
    } else {
        seq![es[0]] + visible(es.drop_first(), end)
    }
}

/// What an upper end admits: an included end `k` admits exactly the keys that do
/// not sort after `k`; an excluded end `k` exactly the keys that sort before `k`;
/// no end admits every key.
pub proof fn lemma_below_end_admits(key: Seq<u8>, k: Seq<u8>)
    ensures
        below_end(key, Some((true, k))) <==> !key_lt(k, key),
        below_end(key, Some((false, k))) <==> key_lt(key, k),
        below_end(key, None),
{
    lemma_key_order(key, k, k);
    lemma_key_order(k, key, key);
}

/// Keys below a key that lies within the upper end lie within it too.
pub proof fn lemma_below_end_closed(a: Seq<u8>, b: Seq<u8>, end: EndView)
    requires
        key_lt(a, b),
        below_end(b, end),
    ensures
        below_end(a, end),
{
    match end {
        Some((_, k)) => {
            lemma_key_order(a, b, k);
        },
        None => {},
    }
}

/// What a scan shows of strictly sorted entries: live entries within the upper end,
/// each an entry of `es`, in strictly increasing key order; and every live entry of
/// `es` within the upper end is shown.
pub proof fn lemma_visible(es: Seq<KvEntry>, end: EndView)
    requires
        keys_strictly_sorted(es),
    ensures
        keys_strictly_sorted(visible(es, end)),
        forall|p: int|
            0 <= p < visible(es, end).len() ==> {
                &&& es.contains(#[trigger] visible(es, end)[p])
                &&& visible(es, end)[p].1.len() > 0
                &&& below_end(visible(es, end)[p].0, end)
            },
        forall|e: KvEntry|
            #[trigger] es.contains(e) && e.1.len() > 0 && below_end(e.0, end) ==> visible(es, end).contains(e),
    decreases es.len(),
{
    if es.len() > 0 {
        let rest = es.drop_first();
        assert forall|x: int, y: int| 0 <= x < y < rest.len() implies key_lt(
            #[trigger] rest[x].0,
            #[trigger] rest[y].0,
        ) by {
            assert(rest[x] == es[x + 1] && rest[y] == es[y + 1]);
        }
        lemma_visible(rest, end);
        let v = visible(es, end);
        let vr = visible(rest, end);
        assert forall|p: int| 0 <= p < vr.len() implies key_lt(es[0].0, (#[trigger] vr[p]).0) && es.contains(vr[p]) by {
            assert(rest.contains(vr[p]));
            let j = choose|j: int| 0 <= j < rest.len() && rest[j] == vr[p];
            assert(es[j + 1] == vr[p]);
        }
        if below_end(es[0].0, end) && es[0].1.len() > 0 {
            assert(v == seq![es[0]] + vr);
            assert forall|x: int, y: int| 0 <= x < y < v.len() implies key_lt(#[trigger] v[x].0, #[trigger] v[y].0) by {
                assert(v[y] == vr[y - 1]);
                if x > 0 {
                    assert(v[x] == vr[x - 1]);
                }
            }
            assert forall|p: int| 0 <= p < v.len() implies es.contains(#[trigger] v[p]) by {
                if p == 0 {
                    assert(es[0] == v[0]);
                } else {
                    assert(v[p] == vr[p - 1]);
                }
            }
        }
        assert forall|e: KvEntry| #[trigger] es.contains(e) && e.1.len() > 0 && below_end(e.0, end) implies v.contains(e) by {
            let j = choose|j: int| 0 <= j < es.len() && es[j] == e;
            if j == 0 {
                assert(v[0] == e);
            } else {
                assert(rest[j - 1] == e);
                assert(rest.contains(e));
                assert(vr.contains(e));
                assert(key_lt(es[0].0, e.0));
                lemma_below_end_closed(es[0].0, e.0, end);
                let q = choose|q: int| 0 <= q < vr.len() && vr[q] == e;
                if es[0].1.len() > 0 {
                    assert(v[q + 1] == e);
                }
            }
        }
    }
}

/// Whether `key` lies at or below the upper end `end`.
fn within_end(key: &[u8], end: &EndBound) -> (r: bool)
    ensures
        r == below_end(key@, end@),
{
    match end {
        EndBound::Included(k) => compare_keys(key, bytes_as_slice(k)) != KeyOrder::Greater,
        EndBound::Excluded(k) => compare_keys(key, bytes_as_slice(k)) == KeyOrder::Less,
        EndBound::Unbounded => true,
    }
}

/// An iterator over the live entries of a scan: tombstones are skipped, and the
/// iteration ends at the first key past the upper bound.
pub struct LsmIterator<I: StorageIterator> {
    inner: I,
    end_bound: EndBound,
}

impl<I: StorageIterator> LsmIterator<I> {
    /// Wraps `iter`, skipping the tombstones it starts on.
    pub fn new(iter: I, end_bound: EndBound) -> (r: Result<Self, StorageError>)
        requires
            iter.inv(),
        ensures
            r matches Ok(it) ==> it.inv() && it.entries() == visible(iter.entries(), end_bound@),
            iter.infallible() ==> (r matches Ok(it) && it.infallible()),
    {
        let mut it = Self { inner: iter, end_bound };
        match it.skip_tombstones() {
            Ok(()) => Ok(it),
            Err(e) => Err(e),
        }
    }

    /// Moves the inner iterator past tombstones that lie within the upper bound.
    fn skip_tombstones(&mut self) -> (r: Result<(), StorageError>)
        requires
            old(self).inner.inv(),
        ensures
            final(self).end_bound == old(self).end_bound,
            r is Ok ==> final(self).inv(),
            r is Ok ==> visible(final(self).inner.entries(), final(self).end_bound@) == visible(
                old(self).inner.entries(),
                old(self).end_bound@,
            ),
            old(self).inner.infallible() ==> r is Ok && final(self).inner.infallible(),
    {
        let ghost target = visible(self.inner.entries(), self.end_bound@);
        while self.inner.is_valid() && within_end(self.inner.key(), &self.end_bound)
            && self.inner.value().len() == 0
            invariant_except_break
                self.inner.inv(),
                self.end_bound == old(self).end_bound,
                visible(self.inner.entries(), self.end_bound@) == target,
                old(self).inner.infallible() ==> self.inner.infallible(),
            ensures
                self.end_bound == old(self).end_bound,
                self.inner.inv(),
                visible(self.inner.entries(), self.end_bound@) == target,
                old(self).inner.infallible() ==> self.inner.infallible(),
                self.inner.entries().len() > 0 && below_end(self.inner.entries()[0].0, self.end_bound@)
                    ==> self.inner.entries()[0].1.len() > 0,
            decreases self.inner.entries().len(),
        {
            let ghost before = self.inner.entries();
            match self.inner.next() {
                Ok(()) => {},
                Err(e) => {
                    return Err(e);
                },
            }
            assert(before.drop_first() == self.inner.entries());
        }
        Ok(())
    }
}

impl<I: StorageIterator> StorageIterator for LsmIterator<I> {
    /// The live entries of the inner iterator up to the upper bound.
    closed spec fn entries(&self) -> Seq<KvEntry> {
        visible(self.inner.entries(), self.end_bound@)
    }

    /// The inner iterator is consistent and never rests on a tombstone within the bound.
    closed spec fn inv(&self) -> bool {
        &&& self.inner.inv()
        &&& self.inner.entries().len() > 0 && below_end(self.inner.entries()[0].0, self.end_bound@)
            ==> self.inner.entries()[0].1.len() > 0
    }

    /// The inner iterator never fails to move on.
    closed spec fn infallible(&self) -> bool {
        self.inner.infallible()
    }

    /// The inner iterator's active iterators.
    closed spec fn active_iterators(&self) -> nat {
        self.inner.active_iterators()
    }

    fn key(&self) -> (r: &[u8]) {
        self.inner.key()
    }

    fn value(&self) -> (r: &[u8]) {
        self.inner.value()
    }

    fn is_valid(&self) -> (r: bool) {
        self.inner.is_valid() && within_end(self.inner.key(), &self.end_bound)
    }

    /// Moves on, then past the tombstones that follow.
    fn next(&mut self) -> (r: Result<(), StorageError>) {
        let ghost es = self.inner.entries();
        match self.inner.next() {
            Ok(()) => {},
            Err(e) => {
                return Err(e);
            },
        }
        assert(visible(es, self.end_bound@) == seq![es[0]] + visible(es.drop_first(), self.end_bound@));
        assert((seq![es[0]] + visible(es.drop_first(), self.end_bound@)).drop_first() =~= visible(
            es.drop_first(),
            self.end_bound@,
        ));
        self.skip_tombstones()
    }

    fn num_active_iterators(&self) -> usize {
        self.inner.num_active_iterators()
    }
}

/// Wraps an iterator so that it ends for good once the inner iterator has failed:
/// after an error it is invalid and every further `next` fails; on an exhausted
/// iterator `next` does nothing.
pub struct FusedIterator<I: StorageIterator> {
    iter: I,
    has_errored: bool,
}

impl<I: StorageIterator> FusedIterator<I> {
    /// The inner iterator has reported an error.
    pub closed spec fn tainted(&self) -> bool {
        self.has_errored
    }

    pub fn new(iter: I) -> (r: Self)
        requires
            iter.inv(),
        ensures
            r.inv(),
            !r.tainted(),
            r.entries() == iter.entries(),
            iter.infallible() ==> r.infallible(),
            r.active_iterators() == iter.active_iterators(),
    {
        Self { iter, has_errored: false }
    }

    /// Moves on when there is an entry to move from; does nothing on an exhausted
    /// iterator; fails, and stays failed, once the inner iterator has failed.
    pub fn next(&mut self) -> (r: Result<(), StorageError>)
        requires
            old(self).inv(),
        ensures
            final(self).inv(),
            old(self).tainted() ==> r is Err && final(self).tainted(),
            !old(self).tainted() && old(self).entries().len() == 0 ==> r is Ok && final(self).entries()
                == old(self).entries() && !final(self).tainted(),
            !old(self).tainted() && old(self).entries().len() > 0 && r is Ok ==> final(self).entries()
                == old(self).entries().drop_first() && !final(self).tainted(),
            r is Err ==> final(self).tainted() && final(self).entries().len() == 0,
            old(self).infallible() && !old(self).tainted() ==> r is Ok && final(self).infallible(),
    {
        if self.has_errored {
            return Err(StorageError { message: "the iterator is tainted".to_string() });
        }
        if self.iter.is_valid() {
            match self.iter.next() {
                Ok(()) => Ok(()),
                Err(e) => {
                    self.has_errored = true;
                    Err(e)
                },
            }
        } else {
            Ok(())
        }
    }
}

impl<I: StorageIterator> StorageIterator for FusedIterator<I> {
    /// The inner iterator's entries, or none once it has failed.
    closed spec fn entries(&self) -> Seq<KvEntry> {
        if self.has_errored {
            Seq::empty()
        } else {
            self.iter.entries()
        }
    }

    closed spec fn inv(&self) -> bool {
        !self.has_errored ==> self.iter.inv()
    }

    /// The inner iterator never fails to move on.
    closed spec fn infallible(&self) -> bool {
        !self.has_errored && self.iter.infallible()
    }

    /// The inner iterator's active iterators.
    closed spec fn active_iterators(&self) -> nat {
        self.iter.active_iterators()
    }

    fn key(&self) -> (r: &[u8]) {
        self.iter.key()
    }

    fn value(&self) -> (r: &[u8]) {
        self.iter.value()
    }

    fn is_valid(&self) -> (r: bool) {
        !self.has_errored && self.iter.is_valid()
    }

    fn next(&mut self) -> (r: Result<(), StorageError>) {
        FusedIterator::next(self)
    }

    fn num_active_iterators(&self) -> usize {
        self.iter.num_active_iterators()
    }
}

} // verus!
