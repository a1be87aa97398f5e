//! What holds of the trie across operations: lookups after inserts, and the
//! digest as a function of the contents alone.
use crate::text::Payload;
use crate::trie_node::{bits, is_binary, lemma_bits_nonempty, on_walk, TrieNode, TrieView};
use vstd::prelude::*;

verus! {

/// The tree that `new` followed by inserting each entry in order builds.
pub open spec fn built<T>(entries: Seq<(u32, T)>) -> TrieView<T>
    decreases entries.len(),
{
    if entries.len() == 0 {
        TrieView::empty()
    } else {
        built(entries.drop_last()).inserted(bits(entries.last().0 as nat), entries.last().1)
    }
}

/// After storing `v` at the end of `p`, a node is there and carries `v`.
pub proof fn lemma_at_inserted<T>(t: TrieView<T>, p: Seq<u8>, v: T)
    ensures
        t.inserted(p, v).at(p) is Some,
        t.inserted(p, v).at(p)->0.data == Some(v),
    decreases p.len(),
{
    if p.len() > 0 {
        let c = match t.child(p[0]) {
            Some(c) => *c,
            None => TrieView::empty(),
        };
        lemma_at_inserted(c, p.drop_first(), v);
    }
}

/// Storing twice at one path is storing the second value once.
pub proof fn lemma_inserted_twice<T>(t: TrieView<T>, p: Seq<u8>, v1: T, v2: T)
    ensures
        t.inserted(p, v1).inserted(p, v2) == t.inserted(p, v2),
    decreases p.len(),
{
    if p.len() > 0 {
        let c = match t.child(p[0]) {
            Some(c) => *c,
            None => TrieView::empty(),
        };
        lemma_inserted_twice(c, p.drop_first(), v1, v2);
    }
}

/// Storing the value that a node already carries changes nothing.
pub proof fn lemma_inserted_present<T>(t: TrieView<T>, p: Seq<u8>, v: T)
    requires
        t.at(p) is Some,
        t.at(p)->0.data == Some(v),
    ensures
        t.inserted(p, v) == t,
    decreases p.len(),
{
    if p.len() > 0 {
        let c = *t.child(p[0])->0;
        lemma_inserted_present(c, p.drop_first(), v);
    }
}

/// Storing at the end of `p` leaves the node at the end of `q` as it was,
/// unless that node lies on the walk to `p` (which may create it).
pub proof fn lemma_at_inserted_other<T>(t: TrieView<T>, p: Seq<u8>, q: Seq<u8>, v: T)
    requires
        is_binary(p),
        is_binary(q),
        !on_walk(q, p),
    ensures
        t.inserted(p, v).at(q) == t.at(q),
    decreases p.len(),
{
    if q.len() == 0 {
        assert(p.subrange(0, 0) =~= q);
    } else if p.len() > 0 && p[0] == q[0] {
        let c = match t.child(p[0]) {
            Some(c) => *c,
            None => TrieView::empty(),
        };
        let (pp, qq) = (p.drop_first(), q.drop_first());
        if on_walk(qq, pp) {
            assert forall|i: int| 0 <= i < q.len() implies p[i] == q[i] by {
                if i > 0 {
                    assert(pp.subrange(0, qq.len() as int)[i - 1] == qq[i - 1]);
                }
            }
            assert(p.subrange(0, q.len() as int) =~= q);
        }
        lemma_at_inserted_other(c, pp, qq, v);
        match t.child(q[0]) {
            Some(tc) => {
                assert(c == *tc);
            },
            None => {
                lemma_at_empty::<T>(qq);
            },
        }
    }
}

/// An empty node has no node at the end of a non-empty path.
pub proof fn lemma_at_empty<T>(q: Seq<u8>)
    ensures
        q.len() > 0 ==> TrieView::<T>::empty().at(q) is None,
{
}

/// After `insert(k, v)`, `find(k)` gives a node that carries `v`.
pub proof fn lemma_find_after_insert<T>(t: TrieView<T>, k: u32, v: T)
    ensures
        t.inserted(bits(k as nat), v).find(k) is Some,
        t.inserted(bits(k as nat), v).find(k)->0.data == Some(v),
{
    lemma_at_inserted(t, bits(k as nat), v);
}

/// Inserting `v1` and then `v2` at one key leaves `v2` there: the second
/// write replaces the first.
pub proof fn lemma_find_after_overwrite<T>(t: TrieView<T>, k: u32, v1: T, v2: T)
    ensures
        t.inserted(bits(k as nat), v1).inserted(bits(k as nat), v2).find(k) is Some,
        t.inserted(bits(k as nat), v1).inserted(bits(k as nat), v2).find(k)->0.data == Some(v2),
{
    lemma_find_after_insert(t.inserted(bits(k as nat), v1), k, v2);
}

/// Inserting at `k1` does not change what `find(k2)` gives when the path of
/// `k2` is not a prefix of the path of `k1` (in particular when `k1 != k2`
/// and neither path is a prefix of the other).
pub proof fn lemma_find_after_insert_elsewhere<T>(t: TrieView<T>, k1: u32, k2: u32, v: T)
    requires
        !on_walk(bits(k2 as nat), bits(k1 as nat)),
    ensures
        t.inserted(bits(k1 as nat), v).find(k2) == t.find(k2),
{
    lemma_bits_nonempty(k1 as nat);
    lemma_bits_nonempty(k2 as nat);
    lemma_at_inserted_other(t, bits(k1 as nat), bits(k2 as nat), v);
}

/// In a tree built by inserts, `find` of a key that was never inserted and
/// whose path is a prefix of no inserted key's path gives `None`.
pub proof fn lemma_find_never_inserted<T>(entries: Seq<(u32, T)>, k: u32)
    requires
        forall|i: int| 0 <= i < entries.len() ==> !on_walk(bits(k as nat), bits(#[trigger] entries[i].0 as nat)),
    ensures
        built(entries).find(k) is None,
    decreases entries.len(),
{
    lemma_bits_nonempty(k as nat);
    if entries.len() == 0 {
        lemma_at_empty::<T>(bits(k as nat));
    } else {
        let rest = entries.drop_last();
        assert forall|i: int| 0 <= i < rest.len() implies !on_walk(bits(k as nat), bits(#[trigger] rest[i].0 as nat)) by {
            assert(rest[i] == entries[i]);
        }
        lemma_find_never_inserted(rest, k);
        let last = entries.last();
        assert(last == entries[entries.len() - 1]);
        lemma_find_after_insert_elsewhere(built(rest), last.0, k, last.1);
    }
}

/// Stores at two different binary paths give the same contents in
/// either order.
pub proof fn lemma_inserted_commute<T>(t: TrieView<T>, p1: Seq<u8>, p2: Seq<u8>, v1: T, v2: T)
    requires
        is_binary(p1),
        is_binary(p2),
        p1 != p2,
    ensures
        t.inserted(p1, v1).inserted(p2, v2) == t.inserted(p2, v2).inserted(p1, v1),
    decreases p1.len(),
{
    if p1.len() > 0 && p2.len() > 0 && p1[0] == p2[0] {
        let c = match t.child(p1[0]) {
            Some(c) => *c,
            None => TrieView::empty(),
        };
        let (q1, q2) = (p1.drop_first(), p2.drop_first());
        if q1 == q2 {
            assert(p1 =~= p2) by {
                assert(p1 =~= seq![p1[0]] + q1);
                assert(p2 =~= seq![p2[0]] + q2);
            }
        }
        lemma_inserted_commute(c, q1, q2, v1, v2);
    } else if p1.len() > 0 && p2.len() > 0 {
        assert(p1[0] <= 1 && p2[0] <= 1);
        let t1 = t.inserted(p1, v1);
        let t2 = t.inserted(p2, v2);
        assert(t1.child(p2[0]) == t.child(p2[0]));
        assert(t2.child(p1[0]) == t.child(p1[0]));
        assert(t1.data == t.data && t2.data == t.data);
    } else if p1.len() == 0 {
        assert(p2.len() > 0) by {
            if p2.len() == 0 {
                assert(p1 =~= p2);
            }
        }
        let t1 = t.inserted(p1, v1);
        assert(t1.child(p2[0]) == t.child(p2[0]));
    } else {
        assert(p2.len() == 0);
        let t2 = t.inserted(p2, v2);
        assert(t2.child(p1[0]) == t.child(p1[0]));
    }
}

/// Different keys have different paths.
pub proof fn lemma_bits_injective(a: nat, b: nat)
    requires
        bits(a) == bits(b),
    ensures
        a == b,
    decreases a,
{
    if a >= 2 && b >= 2 {
        assert(bits(a / 2) =~= bits(a).drop_last());
        assert(bits(b / 2) =~= bits(b).drop_last());
        lemma_bits_injective(a / 2, b / 2);
        assert(bits(a).last() == (a % 2) as u8);
        assert(bits(b).last() == (b % 2) as u8);
        assert(a % 2 == b % 2);
    } else if a >= 2 {
        lemma_bits_nonempty(a / 2);
        assert(bits(a).len() == bits(a / 2).len() + 1);
        assert(bits(b).len() == 1);
    } else if b >= 2 {
        lemma_bits_nonempty(b / 2);
        assert(bits(b).len() == bits(b / 2).len() + 1);
        assert(bits(a).len() == 1);
    } else {
        assert(bits(a)[0] == bits(b)[0]);
        assert(bits(a)[0] == a as u8);
        assert(bits(b)[0] == b as u8);
    }
}

/// Inserts at two different keys give the same contents in either order.
/// Which digests stay memoised is stated by `insert` itself: those off the
/// key's path.
pub proof fn lemma_inserts_commute<T>(t: TrieView<T>, k1: u32, k2: u32, v1: T, v2: T)
    requires
        k1 != k2,
    ensures
        t.inserted(bits(k1 as nat), v1).inserted(bits(k2 as nat), v2)
            == t.inserted(bits(k2 as nat), v2).inserted(bits(k1 as nat), v1),
{
    lemma_bits_nonempty(k1 as nat);
    lemma_bits_nonempty(k2 as nat);
    if bits(k1 as nat) == bits(k2 as nat) {
        lemma_bits_injective(k1 as nat, k2 as nat);
    }
    lemma_inserted_commute(t, bits(k1 as nat), bits(k2 as nat), v1, v2);
}

/// Two calls of `merkle_root` with no insert between them give the same
/// digest: the digest depends on the contents alone, and `merkle_root`
/// leaves the contents as they were.
pub proof fn lemma_merkle_root_repeatable<T: Payload>(first: TrieNode<T>, second: TrieNode<T>)
    requires
        second@ == first@,
    ensures
        second@.digest() == first@.digest(),
{
}

/// Inserting another value at a key and then the key's old value again
/// brings the digest back to what it was.
pub proof fn lemma_digest_restored<T: Payload>(t: TrieView<T>, k: u32, detour: T, v: T)
    requires
        t.find(k) is Some,
        t.find(k)->0.data == Some(v),
    ensures
        t.inserted(bits(k as nat), detour).inserted(bits(k as nat), v).digest() == t.digest(),
{
    lemma_inserted_twice(t, bits(k as nat), detour, v);
    lemma_inserted_present(t, bits(k as nat), v);
}

} // verus!
