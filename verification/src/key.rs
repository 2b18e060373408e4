//! Keys are raw byte strings ordered lexicographically, the order in which
//! blocks, tables and iterators keep their entries.
use vstd::prelude::*;

verus! {

/// A key-value pair as the specifications see it.
pub type KvEntry = (Seq<u8>, Seq<u8>);

/// Lexicographic "strictly less" on byte strings, comparing from position `i` on,
/// given that the two strings agree before `i`.
pub open spec fn lex_lt_from(a: Seq<u8>, b: Seq<u8>, i: nat) -> bool
    decreases a.len() - i,
{
    if i >= a.len() {
        i < b.len()
    } else if i >= b.len() {
        false
    } else if a[i as int] < b[i as int] {
        true
    } else if a[i as int] > b[i as int] {
        false
    } else {
        lex_lt_from(a, b, i + 1)
    }
}

/// `a` sorts strictly before `b`.
pub open spec fn key_lt(a: Seq<u8>, b: Seq<u8>) -> bool {
    lex_lt_from(a, b, 0)
}

/// `a` sorts before or equal to `b`.
pub open spec fn key_le(a: Seq<u8>, b: Seq<u8>) -> bool {
    key_lt(a, b) || a == b
}

/// The keys of `es` never decrease.
pub open spec fn keys_sorted(es: Seq<KvEntry>) -> bool {
    forall|i: int, j: int| 0 <= i <= j < es.len() ==> key_le(#[trigger] es[i].0, #[trigger] es[j].0)
}

/// The keys of `es` strictly increase.
pub open spec fn keys_strictly_sorted(es: Seq<KvEntry>) -> bool {
    forall|i: int, j: int| 0 <= i < j < es.len() ==> key_lt(#[trigger] es[i].0, #[trigger] es[j].0)
}

/// `pos` is where a lower-bound search for `key` lands in `es`: every entry before
/// it has a smaller key, none from it on has.
pub open spec fn is_lower_bound(es: Seq<KvEntry>, key: Seq<u8>, pos: int) -> bool {
    &&& 0 <= pos <= es.len()
    &&& forall|i: int| 0 <= i < pos ==> key_lt(#[trigger] es[i].0, key)
    &&& forall|i: int| pos <= i < es.len() ==> !key_lt(#[trigger] es[i].0, key)
}

/// Outcome of comparing two keys.
#[derive(Clone, Copy, Debug, PartialEq, Eq, Structural)]
pub enum KeyOrder {
    Less,
    Equal,
    Greater,
}

proof fn lemma_lex_from_irreflexive(a: Seq<u8>, i: nat)
    ensures
        !lex_lt_from(a, a, i),
    decreases a.len() - i,
{
    if i < a.len() {
        lemma_lex_from_irreflexive(a, i + 1);
    }
}

proof fn lemma_lex_from_total(a: Seq<u8>, b: Seq<u8>, i: nat)
    requires
        i <= a.len(),
        i <= b.len(),
        a.take(i as int) == b.take(i as int),
    ensures
        a == b || lex_lt_from(a, b, i) || lex_lt_from(b, a, i),
    decreases a.len() - i,
{
    if i < a.len() && i < b.len() && a[i as int] == b[i as int] {
        assert(a.take((i + 1) as int) =~= b.take((i + 1) as int)) by {
            assert forall|j: int| 0 <= j < i + 1 implies #[trigger] a.take((i + 1) as int)[j] == b.take((i + 1) as int)[j] by {
                if j < i {
                    assert(a.take(i as int)[j] == b.take(i as int)[j]);
                }
            }
        }
        lemma_lex_from_total(a, b, i + 1);
    } else if i == a.len() && i == b.len() {
        assert(a =~= a.take(i as int));
        assert(b =~= b.take(i as int));
    }
}

proof fn lemma_lex_from_asym(a: Seq<u8>, b: Seq<u8>, i: nat)
    ensures
        !(lex_lt_from(a, b, i) && lex_lt_from(b, a, i)),
    decreases a.len() - i,
{
    if i < a.len() && i < b.len() && a[i as int] == b[i as int] {
        lemma_lex_from_asym(a, b, i + 1);
    }
}

proof fn lemma_lex_from_trans(a: Seq<u8>, b: Seq<u8>, c: Seq<u8>, i: nat)
    requires
        lex_lt_from(a, b, i),
        lex_lt_from(b, c, i),
    ensures
        lex_lt_from(a, c, i),
    decreases a.len() - i,
{
    if i < a.len() && i < b.len() && i < c.len() && a[i as int] == b[i as int] && b[i as int]
        == c[i as int] {
        lemma_lex_from_trans(a, b, c, i + 1);
    }
}

/// `key_lt` is a strict total order on byte strings.
pub proof fn lemma_key_order(a: Seq<u8>, b: Seq<u8>, c: Seq<u8>)
    ensures
        !key_lt(a, a),
        !(key_lt(a, b) && key_lt(b, a)),
        a == b || key_lt(a, b) || key_lt(b, a),
        key_lt(a, b) && key_lt(b, c) ==> key_lt(a, c),
{
    lemma_lex_from_irreflexive(a, 0);
    lemma_lex_from_asym(a, b, 0);
    assert(a.take(0) =~= b.take(0));
    lemma_lex_from_total(a, b, 0);
    if key_lt(a, b) && key_lt(b, c) {
        lemma_lex_from_trans(a, b, c, 0);
    }
}

/// Where `a` and `b` agree before `i`, comparing from `i` on finds `a` smaller
/// exactly when `a` is a proper prefix of `b` or the first differing byte at or
/// after `i` is smaller in `a`.
proof fn lemma_lex_from_bytes(a: Seq<u8>, b: Seq<u8>, i: nat)
    requires
        i <= a.len(),
        i <= b.len(),
        a.take(i as int) == b.take(i as int),
    ensures
        lex_lt_from(a, b, i) <==> ((a.len() < b.len() && a == b.take(a.len() as int)) || exists|j: int|
            i <= j < a.len() && j < b.len() && a.take(j) == b.take(j) && #[trigger] a[j] < b[j]),
    decreases a.len() - i,
{
    let rhs_ex = exists|j: int| i <= j < a.len() && j < b.len() && a.take(j) == b.take(j) && #[trigger] a[j] < b[j];
    if i >= a.len() {
        assert(a =~= a.take(i as int));
        assert(!rhs_ex);
    } else if i >= b.len() {
        assert(!rhs_ex);
        if a.len() < b.len() {
        }
    } else if a[i as int] < b[i as int] {
        assert(a.take(i as int) == b.take(i as int) && a[i as int] < b[i as int]);
    } else if a[i as int] > b[i as int] {
        if a.len() < b.len() && a == b.take(a.len() as int) {
            assert(a[i as int] == b.take(a.len() as int)[i as int]);
        }
        if rhs_ex {
            let j = choose|j: int| i <= j < a.len() && j < b.len() && a.take(j) == b.take(j) && #[trigger] a[j] < b[j];
            if j > i {
                assert(a.take(j)[i as int] == b.take(j)[i as int]);
            }
        }
    } else {
        assert(a.take(i + 1int) =~= b.take(i + 1int)) by {
            assert forall|t: int| 0 <= t < i + 1 implies #[trigger] a.take(i + 1int)[t] == b.take(i + 1int)[t] by {
                if t < i {
                    assert(a.take(i as int)[t] == b.take(i as int)[t]);
                }
            }
        }
        lemma_lex_from_bytes(a, b, i + 1);
        let rhs_next = exists|j: int|
            i + 1 <= j < a.len() && j < b.len() && a.take(j) == b.take(j) && #[trigger] a[j] < b[j];
        if rhs_ex {
            let j = choose|j: int| i <= j < a.len() && j < b.len() && a.take(j) == b.take(j) && #[trigger] a[j] < b[j];
            assert(j != i);
            assert(rhs_next);
        }
        if rhs_next {
            let j = choose|j: int|
                i + 1 <= j < a.len() && j < b.len() && a.take(j) == b.take(j) && #[trigger] a[j] < b[j];
            assert(rhs_ex);
        }
    }
}

/// Keys are ordered byte by byte, each byte as an unsigned value, with a proper
/// prefix before any longer key: `a` sorts before `b` exactly when `a` is a proper
/// prefix of `b`, or at the first position where they differ `a`'s byte is the
/// smaller number.
pub proof fn lemma_key_lt_bytes(a: Seq<u8>, b: Seq<u8>)
    ensures
        key_lt(a, b) <==> ((a.len() < b.len() && a == b.take(a.len() as int)) || exists|j: int|
            0 <= j < a.len() && j < b.len() && a.take(j) == b.take(j) && #[trigger] a[j] < b[j]),
{
    assert(a.take(0) =~= b.take(0));
    lemma_lex_from_bytes(a, b, 0);
}

/// Single bytes compare as unsigned numbers, and a key sorts before every key it
/// is a proper prefix of.
pub proof fn lemma_key_lt_examples(x: u8, y: u8, a: Seq<u8>, b: Seq<u8>)
    ensures
        key_lt(seq![x], seq![y]) <==> x < y,
        a.len() < b.len() && a == b.take(a.len() as int) ==> key_lt(a, b),
{
    lemma_key_lt_bytes(seq![x], seq![y]);
    lemma_key_lt_bytes(a, b);
    if x < y {
        assert(seq![x].take(0) =~= seq![y].take(0));
        assert(seq![x][0] < seq![y][0]);
    }
    if key_lt(seq![x], seq![y]) {
        if seq![x].len() < seq![y].len() {
        } else {
            let j = choose|j: int| 0 <= j < 1 && j < 1 && seq![x].take(j) == seq![y].take(j) && #[trigger] seq![x][j] < seq![y][j];
            assert(j == 0);
        }
    }
}

/// Three-way comparison of two byte strings in lexicographic order.
pub fn compare_keys(a: &[u8], b: &[u8]) -> (r: KeyOrder)
    ensures
        r == KeyOrder::Less <==> key_lt(a@, b@),
        r == KeyOrder::Equal <==> a@ == b@,
        r == KeyOrder::Greater <==> key_lt(b@, a@),
{
    proof {
        lemma_key_order(a@, b@, b@);
    }
    let mut i: usize = 0;
    while i < a.len() && i < b.len()
        invariant
            i <= a@.len(),
            i <= b@.len(),
            a@.take(i as int) == b@.take(i as int),
            key_lt(a@, b@) == lex_lt_from(a@, b@, i as nat),
            key_lt(b@, a@) == lex_lt_from(b@, a@, i as nat),
        decreases a.len() - i,
    {
        if a[i] < b[i] {
            assert(a@[i as int] != b@[i as int]);
            return KeyOrder::Less;
        }
        if a[i] > b[i] {
            assert(a@[i as int] != b@[i as int]);
            return KeyOrder::Greater;
        }
        assert(a@.take(i + 1) =~= b@.take(i + 1)) by {
            assert forall|j: int| 0 <= j < i + 1 implies #[trigger] a@.take(i + 1)[j] == b@.take(i + 1)[j] by {
                if j < i {
                    assert(a@.take(i as int)[j] == b@.take(i as int)[j]);
                }
            }
        }
        i = i + 1;
    }
    if a.len() < b.len() {
        assert(a@.len() != b@.len());
        KeyOrder::Less
    } else if a.len() > b.len() {
        assert(a@.len() != b@.len());
        KeyOrder::Greater
    } else {
        assert(a@ =~= a@.take(i as int));
        assert(b@ =~= b@.take(i as int));
        KeyOrder::Equal
    }
}

} // verus!
