//! Storage iterators and the merge of several of them.
//!
//! An iterator is seen as the sequence of entries it has still to yield, the
//! current one first. Merging keeps, for every key, only the entry of the
//! child with the smallest index.
pub mod merge_iterator;
pub mod two_merge_iterator;

use vstd::prelude::*;

use crate::key::{key_lt, keys_strictly_sorted, lemma_key_order, KvEntry};

verus! {

/// The error an iterator reports when it cannot move on.
pub struct StorageError {
    pub message: String,
}

/// An iterator over key-value pairs in key order.
pub trait StorageIterator {
    /// The entries still to come, the current one first.
    spec fn entries(&self) -> Seq<KvEntry>;

    /// The iterator's internal consistency.
    spec fn inv(&self) -> bool;

    /// Moving on never fails: nothing underneath can report an error.
    spec fn infallible(&self) -> bool;

    /// Get the current key.
    fn key(&self) -> (r: &[u8])
        requires
            self.inv(),
            self.entries().len() > 0,
        ensures
            r@ == self.entries()[0].0,
    ;

    /// Get the current value.
    fn value(&self) -> (r: &[u8])
        requires
            self.inv(),
            self.entries().len() > 0,
        ensures
            r@ == self.entries()[0].1,
    ;

    /// Check if the current iterator is valid.
    fn is_valid(&self) -> (r: bool)
        requires
            self.inv(),
        ensures
            r == (self.entries().len() > 0),
    ;

    /// Move to the next position.
    fn next(&mut self) -> (r: Result<(), StorageError>)
        requires
            old(self).inv(),
            old(self).entries().len() > 0,
        ensures
            r is Ok ==> final(self).inv() && final(self).entries() == old(self).entries().drop_first(),
            old(self).infallible() ==> r is Ok && final(self).infallible(),
    ;

    /// How many underlying iterators are active: one for a single iterator.
    spec fn active_iterators(&self) -> nat;

    /// Number of underlying active iterators for this iterator (one for a single
    /// iterator), `usize::MAX` when there are more.
    fn num_active_iterators(&self) -> (r: usize)
        ensures
            r == capped_count(self.active_iterators()),
    ;
}

/// `n`, or `usize::MAX` when `n` does not fit a `usize`.
pub open spec fn capped_count(n: nat) -> nat {
    if n <= usize::MAX {
        n
    } else {
        usize::MAX as nat
    }
}

/// The key of the current entry of child `i`.
pub open spec fn head_key(cs: Seq<Seq<KvEntry>>, i: int) -> Seq<u8> {
    cs[i][0].0
}

/// Child `i` comes before child `j` in the merge: its current key is smaller, or the
/// keys are equal and its index is smaller.
pub open spec fn precedes(cs: Seq<Seq<KvEntry>>, i: int, j: int) -> bool {
    key_lt(head_key(cs, i), head_key(cs, j)) || (head_key(cs, i) == head_key(cs, j) && i < j)
}

/// Among the first `n` children, the non-empty one that comes first in the merge,
/// or -1 when all are empty.
pub open spec fn min_child_upto(cs: Seq<Seq<KvEntry>>, n: nat) -> int
    decreases n,
{
    if n == 0 {
        -1
    } else {
        let m = min_child_upto(cs, (n - 1) as nat);
        let j = n - 1;
        if cs[j].len() == 0 {
            m
        } else if m < 0 {
            j
        } else if key_lt(cs[j][0].0, cs[m][0].0) {
            j
        } else {
            m
        }
    }
}

/// The child whose current entry the merge yields, or -1 when all children are empty.
pub open spec fn min_child(cs: Seq<Seq<KvEntry>>) -> int {
    min_child_upto(cs, cs.len())
}

/// Every child whose current key is `k` moves on by one entry.
pub open spec fn advance_eq(cs: Seq<Seq<KvEntry>>, k: Seq<u8>) -> Seq<Seq<KvEntry>> {
    Seq::new(
        cs.len(),
        |i: int|
            if cs[i].len() > 0 && cs[i][0].0 == k {
                cs[i].drop_first()
            } else {
                cs[i]
            },
    )
}

/// A step of the merge on key `k`, whose current entry comes from child `c`, that
/// failed at child `i`. The other children standing on `k` move on first, in index
/// order, and the current child last. When a child other than the current one
/// fails (`i != c`), the other children before it have moved past `k`, it has
/// left the merge, and the rest (the current child among them) are as they were.
/// When the current child fails (`i == c`), every other child has moved past `k`,
/// and the current child stays in the merge.
pub open spec fn failed_step(cs: Seq<Seq<KvEntry>>, k: Seq<u8>, c: int, i: int, now: Seq<Seq<KvEntry>>) -> bool {
    &&& 0 <= i < cs.len()
    &&& 0 <= c < cs.len()
    &&& now.len() == cs.len()
    &&& cs[i].len() > 0
    &&& cs[i][0].0 == k
    &&& i != c ==> {
        &&& forall|j: int| 0 <= j < i && j != c ==> #[trigger] now[j] == advance_eq(cs, k)[j]
        &&& now[i].len() == 0
        &&& forall|j: int| (i < j < cs.len() || j == c) ==> #[trigger] now[j] == cs[j]
    }
    &&& i == c ==> forall|j: int| 0 <= j < cs.len() && j != c ==> #[trigger] now[j] == advance_eq(cs, k)[j]
}

/// The number of entries over all children.
pub open spec fn total_len(cs: Seq<Seq<KvEntry>>) -> nat
    decreases cs.len(),
{
    if cs.len() == 0 {
        0
    } else {
        total_len(cs.drop_last()) + cs.last().len()
    }
}

/// What the merge of `cs` yields: the first entry of the child that comes first,
/// then the merge of the children after every child on that key has moved on.
pub open spec fn merged(cs: Seq<Seq<KvEntry>>) -> Seq<KvEntry>
    decreases total_len(cs),
{
    let m = min_child(cs);
    if 0 <= m < cs.len() && cs[m].len() > 0 {
        proof {
            lemma_advance_shrinks(cs, cs[m][0].0, m);
        }
        seq![cs[m][0]] + merged(advance_eq(cs, cs[m][0].0))
    } else {
        Seq::empty()
    }
}

/// Dropping the entries with key `k` from the heads of the children shrinks
/// them when one child is headed by `k`: this is what makes `merged` terminate.
pub proof fn lemma_advance_shrinks(cs: Seq<Seq<KvEntry>>, k: Seq<u8>, m: int)
    requires
        0 <= m < cs.len(),
        cs[m].len() > 0,
        cs[m][0].0 == k,
    ensures
        total_len(advance_eq(cs, k)) < total_len(cs),
    decreases cs.len(),
{
    lemma_advance_no_growth(cs, k);
    let a = advance_eq(cs, k);
    assert(a.drop_last() =~= advance_eq(cs.drop_last(), k));
    if m < cs.len() - 1 {
        lemma_advance_shrinks(cs.drop_last(), k, m);
    } else {
        lemma_advance_no_growth(cs.drop_last(), k);
    }
}

/// Dropping the entries with key `k` from the heads never adds entries.
pub proof fn lemma_advance_no_growth(cs: Seq<Seq<KvEntry>>, k: Seq<u8>)
    ensures
        total_len(advance_eq(cs, k)) <= total_len(cs),
    decreases cs.len(),
{
    if cs.len() > 0 {
        let a = advance_eq(cs, k);
        assert(a.drop_last() =~= advance_eq(cs.drop_last(), k));
        lemma_advance_no_growth(cs.drop_last(), k);
    }
}

/// `min_child_upto` picks the non-empty child that comes before every other
/// non-empty child among the first `n`, or -1 when they are all empty.
pub proof fn lemma_min_child_upto(cs: Seq<Seq<KvEntry>>, n: nat)
    requires
        n <= cs.len(),
    ensures
        -1 <= min_child_upto(cs, n) < n,
        min_child_upto(cs, n) == -1 <==> (forall|j: int| 0 <= j < n ==> #[trigger] cs[j].len() == 0),
        min_child_upto(cs, n) >= 0 ==> {
            let m = min_child_upto(cs, n);
            &&& cs[m].len() > 0
            &&& forall|j: int|
                0 <= j < n && #[trigger] cs[j].len() > 0 && j != m ==> precedes(cs, m, j)
        },
    decreases n,
{
    if n > 0 {
        lemma_min_child_upto(cs, (n - 1) as nat);
        let m = min_child_upto(cs, (n - 1) as nat);
        let j = n - 1;
        if cs[j].len() > 0 && m >= 0 {
            lemma_key_order(cs[j][0].0, cs[m][0].0, cs[m][0].0);
            if key_lt(cs[j][0].0, cs[m][0].0) {
                assert forall|i: int|
                    0 <= i < n && #[trigger] cs[i].len() > 0 && i != j implies precedes(cs, j, i) by {
                    if i != m {
                        assert(precedes(cs, m, i));
                        lemma_key_order(cs[j][0].0, cs[m][0].0, cs[i][0].0);
                    }
                }
            }
        }
    }
}

/// Every child yields its keys in strictly increasing order.
pub open spec fn all_strictly_sorted(cs: Seq<Seq<KvEntry>>) -> bool {
    forall|i: int| 0 <= i < cs.len() ==> keys_strictly_sorted(#[trigger] cs[i])
}

/// Some entry of `s` has key `k`.
pub open spec fn has_key(s: Seq<KvEntry>, k: Seq<u8>) -> bool {
    exists|j: int| 0 <= j < s.len() && (#[trigger] s[j]).0 == k
}

/// `e` is an entry of child `i`, and no child with a smaller index has its key.
pub open spec fn newest_at(cs: Seq<Seq<KvEntry>>, e: KvEntry, i: int) -> bool {
    &&& 0 <= i < cs.len()
    &&& cs[i].contains(e)
    &&& forall|i2: int| 0 <= i2 < i ==> !has_key(#[trigger] cs[i2], e.0)
}

/// `e` is the entry that the child with the smallest index holding `e`'s key has for it.
pub open spec fn is_newest(cs: Seq<Seq<KvEntry>>, e: KvEntry) -> bool {
    exists|i: int| newest_at(cs, e, i)
}

proof fn lemma_advanced_above(cs: Seq<Seq<KvEntry>>)
    requires
        all_strictly_sorted(cs),
        min_child(cs) >= 0,
    ensures
        ({
            let m = min_child(cs);
            let k = cs[m][0].0;
            let a = advance_eq(cs, k);
            &&& all_strictly_sorted(a)
            &&& forall|i: int, j: int|
                0 <= i < a.len() && 0 <= j < a[i].len() ==> key_lt(k, (#[trigger] a[i][j]).0)
        }),
{
    lemma_min_child_upto(cs, cs.len());
    let m = min_child(cs);
    let k = cs[m][0].0;
    let a = advance_eq(cs, k);
    assert forall|i: int| 0 <= i < a.len() implies keys_strictly_sorted(#[trigger] a[i]) by {
        assert(keys_strictly_sorted(cs[i]));
        if cs[i].len() > 0 && cs[i][0].0 == k {
            assert forall|x: int, y: int| 0 <= x < y < a[i].len() implies key_lt(
                #[trigger] a[i][x].0,
                #[trigger] a[i][y].0,
            ) by {
                assert(a[i][x] == cs[i][x + 1]);
                assert(a[i][y] == cs[i][y + 1]);
            }
        }
    }
    assert forall|i: int, j: int| 0 <= i < a.len() && 0 <= j < a[i].len() implies key_lt(
        k,
        (#[trigger] a[i][j]).0,
    ) by {
        assert(keys_strictly_sorted(cs[i]));
        assert(cs[i].len() > 0);
        if cs[i][0].0 == k {
            assert(a[i][j] == cs[i][j + 1]);
            assert(key_lt(cs[i][0].0, cs[i][j + 1].0));
        } else {
            assert(i != m);
            assert(precedes(cs, m, i));
            assert(key_lt(k, cs[i][0].0));
            assert(a[i][j] == cs[i][j]);
            if j > 0 {
                assert(key_lt(cs[i][0].0, cs[i][j].0));
                lemma_key_order(k, cs[i][0].0, cs[i][j].0);
            }
        }
    }
}

/// The merge laws. When every child yields strictly increasing keys, the merge
/// yields strictly increasing keys; each entry it yields is the entry of the
/// child with the smallest index that holds that key (newer children shadow older
/// ones); and every key that some child holds is yielded.
pub proof fn lemma_merged_laws(cs: Seq<Seq<KvEntry>>)
    requires
        all_strictly_sorted(cs),
    ensures
        keys_strictly_sorted(merged(cs)),
        forall|p: int| 0 <= p < merged(cs).len() ==> is_newest(cs, #[trigger] merged(cs)[p]),
        forall|i: int, j: int|
            0 <= i < cs.len() && 0 <= j < cs[i].len() ==> has_key(merged(cs), (#[trigger] cs[i][j]).0),
    decreases total_len(cs),
{
    lemma_min_child_upto(cs, cs.len());
    let m = min_child(cs);
    if m < 0 {
        assert(merged(cs) =~= Seq::<KvEntry>::empty());
        assert forall|i: int, j: int|
            0 <= i < cs.len() && 0 <= j < cs[i].len() implies has_key(merged(cs), (#[trigger] cs[i][j]).0) by {
            assert(cs[i].len() == 0);
        }
    } else {
        let k = cs[m][0].0;
        let a = advance_eq(cs, k);
        let e = cs[m][0];
        lemma_advance_shrinks(cs, k, m);
        lemma_advanced_above(cs);
        lemma_merged_laws(a);
        let rest = merged(a);
        assert(merged(cs) == seq![e] + rest);
        let out = merged(cs);
        // Every later key comes from the advanced children, so it is above `k`.
        assert forall|p: int| 0 <= p < rest.len() implies key_lt(k, (#[trigger] rest[p]).0) by {
            assert(is_newest(a, rest[p]));
            let i = choose|i: int| newest_at(a, rest[p], i);
            let j = choose|j: int| 0 <= j < a[i].len() && a[i][j] == rest[p];
            assert(key_lt(k, a[i][j].0));
        }
        assert(keys_strictly_sorted(out)) by {
            assert forall|x: int, y: int| 0 <= x < y < out.len() implies key_lt(
                #[trigger] out[x].0,
                #[trigger] out[y].0,
            ) by {
                assert(out[y] == rest[y - 1]);
                if x == 0 {
                    assert(out[x] == e);
                } else {
                    assert(out[x] == rest[x - 1]);
                }
            }
        }
        // The first entry is the newest for its key.
        assert(newest_at(cs, e, m)) by {
            assert(cs[m].contains(e)) by {
                assert(cs[m][0] == e);
            }
            assert forall|i2: int| 0 <= i2 < m implies !has_key(#[trigger] cs[i2], k) by {
                if has_key(cs[i2], k) {
                    let j2 = choose|j2: int| 0 <= j2 < cs[i2].len() && cs[i2][j2].0 == k;
                    assert(cs[i2].len() > 0);
                    assert(precedes(cs, m, i2));
                    assert(keys_strictly_sorted(cs[i2]));
                    if j2 > 0 {
                        assert(key_lt(cs[i2][0].0, cs[i2][j2].0));
                    }
                    lemma_key_order(k, cs[i2][0].0, k);
                }
            }
        }
        assert forall|p: int| 0 <= p < out.len() implies is_newest(cs, #[trigger] out[p]) by {
            if p == 0 {
                assert(out[0] == e);
            } else {
                let r = rest[p - 1];
                assert(out[p] == r);
                assert(is_newest(a, r));
                let i = choose|i: int| newest_at(a, r, i);
                let j = choose|j: int| 0 <= j < a[i].len() && a[i][j] == r;
                assert(key_lt(k, r.0));
                lemma_key_order(k, r.0, r.0);
                assert(cs[i].contains(r)) by {
                    if cs[i].len() > 0 && cs[i][0].0 == k {
                        assert(cs[i][j + 1] == r);
                    } else {
                        assert(cs[i][j] == r);
                    }
                }
                assert forall|i2: int| 0 <= i2 < i implies !has_key(#[trigger] cs[i2], r.0) by {
                    assert(!has_key(a[i2], r.0));
                    if has_key(cs[i2], r.0) {
                        let j2 = choose|j2: int| 0 <= j2 < cs[i2].len() && cs[i2][j2].0 == r.0;
                        if cs[i2].len() > 0 && cs[i2][0].0 == k {
                            assert(j2 != 0);
                            assert(a[i2][j2 - 1] == cs[i2][j2]);
                        } else {
                            assert(a[i2][j2] == cs[i2][j2]);
                        }
                    }
                }
                assert(newest_at(cs, r, i));
            }
        }
        assert forall|i: int, j: int|
            0 <= i < cs.len() && 0 <= j < cs[i].len() implies has_key(out, (#[trigger] cs[i][j]).0) by {
            if cs[i][j].0 == k {
                assert(out[0].0 == k);
            } else {
                let jj = if cs[i].len() > 0 && cs[i][0].0 == k { j - 1 } else { j };
                assert(jj >= 0);
                assert(a[i][jj] == cs[i][j]);
                assert(has_key(rest, a[i][jj].0));
                let p = choose|p: int| 0 <= p < rest.len() && rest[p].0 == a[i][jj].0;
                assert(out[p + 1] == rest[p]);
            }
        }
    }
}

} // verus!
