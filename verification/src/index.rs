use vstd::prelude::*;
use vstd::seq_lib::group_seq_properties;

verus! {

broadcast use group_seq_properties;

/// One row of the playlist index: which playlist sits under which parent,
/// and where the playlist stood in the original import sequence.
#[derive(Debug, Clone, Copy, PartialEq, Eq, Structural)]
pub struct IndexEntry {
    pub parent: Option<u64>,
    pub order_key: usize,
    pub id: u64,
}

/// Sort rank of a parent reference: records without a parent come first,
/// then parents in increasing id order.
pub open spec fn parent_rank(p: Option<u64>) -> int {
    match p {
        None => -1,
        Some(v) => v as int,
    }
}

/// Weak ordering of index rows: primarily by parent, secondarily by the
/// position the playlist had in the import sequence.
pub open spec fn entry_le(a: IndexEntry, b: IndexEntry) -> bool {
    parent_rank(a.parent) < parent_rank(b.parent) || (parent_rank(a.parent) == parent_rank(b.parent)
        && a.order_key <= b.order_key)
}

/// Strict version of `entry_le`.
pub open spec fn entry_lt(a: IndexEntry, b: IndexEntry) -> bool {
    parent_rank(a.parent) < parent_rank(b.parent) || (parent_rank(a.parent) == parent_rank(b.parent)
        && a.order_key < b.order_key)
}

/// The index is weakly sorted by `entry_le`.
pub open spec fn sorted_entries(s: Seq<IndexEntry>) -> bool {
    forall|i: int, j: int| 0 <= i < j < s.len() ==> entry_le(s[i], s[j])
}

fn entry_le_exec(a: &IndexEntry, b: &IndexEntry) -> (r: bool)
    ensures
        r == entry_le(*a, *b),
{
    match (a.parent, b.parent) {
        (None, None) => a.order_key <= b.order_key,
        (None, Some(_)) => true,
        (Some(_), None) => false,
        (Some(x), Some(y)) => x < y || (x == y && a.order_key <= b.order_key),
    }
}

/// Inserting an element anywhere into a sequence adds exactly that element
/// to its multiset.
proof fn lemma_insert_to_multiset(s: Seq<IndexEntry>, p: int, x: IndexEntry)
    requires
        0 <= p <= s.len(),
    ensures
        s.insert(p, x).to_multiset() =~= s.to_multiset().insert(x),
{
    broadcast use vstd::seq_lib::group_to_multiset_ensures;

    let t = s.insert(p, x);
    assert(t.remove(p) =~= s);
    assert(t[p] == x);
    assert(t.to_multiset().remove(x) =~= s.to_multiset());
    assert(t.contains(x));
    assert(t.to_multiset().count(x) > 0);
    assert(t.to_multiset() =~= t.to_multiset().remove(x).insert(x));
}

/// Sort the index rows by parent, ties broken by import position, keeping
/// exactly the same rows.
pub fn sort_entries(v: &mut Vec<IndexEntry>)
    ensures
        sorted_entries(final(v)@),
        final(v)@.to_multiset() == old(v)@.to_multiset(),
        final(v)@.len() == old(v)@.len(),
{
    broadcast use vstd::seq_lib::group_to_multiset_ensures;

    if v.len() < 2 {
        return ;
    }
    let mut i: usize = 1;
    while i < v.len()
        invariant
            1 <= i <= v@.len(),
            sorted_entries(v@.take(i as int)),
            v@.to_multiset() == old(v)@.to_multiset(),
            v@.len() == old(v)@.len(),
        decreases v@.len() - i,
    {
        let x = v[i];
        let mut p: usize = i;
        while p > 0 && !entry_le_exec(&v[p - 1], &x)
            invariant
                0 <= p <= i < v@.len(),
                sorted_entries(v@.take(i as int)),
                x == v@[i as int],
                forall|k: int| p <= k < i ==> !entry_le(v@[k], x),
            decreases p,
        {
            p -= 1;
        }
        let ghost before = v@;
        let removed = v.remove(i);
        assert(removed == x);
        v.insert(p, removed);
        proof {
            broadcast use vstd::seq_lib::group_to_multiset_ensures;

            let after_rm = before.remove(i as int);
            lemma_insert_to_multiset(after_rm, p as int, x);
            assert(before.contains(x));
            assert(before.to_multiset().count(x) > 0);
            assert(after_rm.to_multiset() =~= before.to_multiset().remove(x));
            assert(v@.to_multiset() =~= before.to_multiset().remove(x).insert(x));
            assert(v@.to_multiset() =~= before.to_multiset());
            let t = before;
            assert forall|k1: int, k2: int| 0 <= k1 < k2 < i implies #[trigger] entry_le(
                t[k1],
                t[k2],
            ) by {
                assert(t.take(i as int)[k1] == t[k1]);
                assert(t.take(i as int)[k2] == t[k2]);
            }
            assert forall|k: int| p <= k < i implies #[trigger] entry_le(x, t[k]) by {}
            assert(p > 0 ==> entry_le(t[p - 1], x));
            assert forall|a: int, b: int| 0 <= a < b < i + 1 implies #[trigger] entry_le(
                v@.take(i + 1)[a],
                v@.take(i + 1)[b],
            ) by {
                let s = v@;
                assert(forall|k: int| 0 <= k < p ==> s[k] == t[k]);
                assert(s[p as int] == x);
                assert(forall|k: int| p < k <= i ==> s[k] == t[k - 1]);
                assert(s.take(i + 1)[a] == s[a]);
                assert(s.take(i + 1)[b] == s[b]);
                if b < p {
                    assert(entry_le(t[a], t[b]));
                } else if b == p {
                    if a < p - 1 {
                        assert(entry_le(t[a], t[p - 1]));
                    }
                } else {
                    if a < p {
                        if a < p - 1 {
                            assert(entry_le(t[a], t[p - 1]));
                        }
                        assert(entry_le(x, t[b - 1]));
                    } else if a == p {
                        assert(entry_le(x, t[b - 1]));
                    } else {
                        assert(entry_le(t[a - 1], t[b - 1]));
                    }
                }
            }
        }
        i += 1;
    }
    proof {
        if v@.len() > 0 {
            assert(v@.take(v@.len() as int) =~= v@);
        }
    }
}

} // verus!
