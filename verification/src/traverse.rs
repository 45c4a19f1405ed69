use vstd::prelude::*;
use crate::index::IndexEntry;

verus! {

/// The rows whose parent field equals `parent`, in index order: the ordered
/// children of that node.
pub open spec fn children_of(index: Seq<IndexEntry>, parent: Option<u64>) -> Seq<IndexEntry>
    decreases index.len(),
{
    if index.len() == 0 {
        Seq::empty()
    } else {
        children_of(index.drop_last(), parent) + (if index.last().parent == parent {
            seq![index.last()]
        } else {
            Seq::empty()
        })
    }
}

/// Every child row is a row of the index and carries the parent it was
/// selected for.
pub proof fn lemma_children_of_props(index: Seq<IndexEntry>, parent: Option<u64>)
    ensures
        forall|c: int|
            0 <= c < children_of(index, parent).len() ==> index.contains(
                #[trigger] children_of(index, parent)[c],
            ) && children_of(index, parent)[c].parent == parent,
    decreases index.len(),
{
    if index.len() > 0 {
        lemma_children_of_props(index.drop_last(), parent);
        assert forall|c: int| 0 <= c < children_of(index, parent).len() implies index.contains(
            #[trigger] children_of(index, parent)[c],
        ) && children_of(index, parent)[c].parent == parent by {
            let kids = children_of(index, parent);
            let prev = children_of(index.drop_last(), parent);
            if c < prev.len() {
                assert(kids[c] == prev[c]);
                assert(index.drop_last().contains(prev[c]));
                let t = choose|t: int|
                    0 <= t < index.drop_last().len() && index.drop_last()[t] == prev[c];
                assert(index[t] == prev[c]);
            } else {
                assert(kids[c] == index.last());
                assert(index[index.len() - 1] == index.last());
            }
        }
    }
}

/// The depth-first visit sequence below one node: nothing once the fuel is
/// exhausted, otherwise the node's children in order, each followed by its
/// own subtree one level deeper.
pub open spec fn traverse_from(
    index: Seq<IndexEntry>,
    parent: Option<u64>,
    depth: int,
    fuel: nat,
) -> Seq<(u64, int)>
    decreases fuel, 0nat,
{
    if fuel == 0 {
        Seq::empty()
    } else {
        traverse_list(index, children_of(index, parent), depth, (fuel - 1) as nat)
    }
}

/// The visit sequence of a run of sibling rows: each sibling, then its
/// subtree, then the remaining siblings.
pub open spec fn traverse_list(
    index: Seq<IndexEntry>,
    kids: Seq<IndexEntry>,
    depth: int,
    fuel: nat,
) -> Seq<(u64, int)>
    decreases fuel, kids.len() + 1,
{
    if kids.len() == 0 {
        Seq::empty()
    } else {
        seq![(kids[0].id, depth)] + traverse_from(index, Some(kids[0].id), depth + 1, fuel)
            + traverse_list(index, kids.drop_first(), depth, fuel)
    }
}

/// The whole traversal: the forest roots at depth zero. One unit of fuel per
/// row suffices for every well-formed forest, since each descent passes a
/// distinct row.
pub open spec fn spec_traversal(index: Seq<IndexEntry>) -> Seq<(u64, int)> {
    traverse_from(index, None, 0, (index.len() + 1) as nat)
}

/// Processing one more sibling extends the visit sequence by that sibling
/// and its subtree.
pub proof fn lemma_traverse_list_split(
    index: Seq<IndexEntry>,
    kids: Seq<IndexEntry>,
    c: int,
    depth: int,
    fuel: nat,
)
    requires
        0 <= c < kids.len(),
    ensures
        traverse_list(index, kids.take(c + 1), depth, fuel) == traverse_list(
            index,
            kids.take(c),
            depth,
            fuel,
        ) + seq![(kids[c].id, depth)] + traverse_from(index, Some(kids[c].id), depth + 1, fuel),
    decreases c,
{
    if c == 0 {
        let k0 = kids[0];
        assert(kids.take(0) =~= Seq::<IndexEntry>::empty());
        assert(kids.take(1).drop_first() =~= Seq::<IndexEntry>::empty());
        assert(kids.take(1)[0] == k0);
        assert(kids.take(1).len() == 1);
        assert(traverse_list(index, Seq::<IndexEntry>::empty(), depth, fuel) == Seq::<
            (u64, int),
        >::empty());
        assert(traverse_list(index, kids.take(1), depth, fuel) == seq![(k0.id, depth)]
            + traverse_from(index, Some(k0.id), depth + 1, fuel) + Seq::<(u64, int)>::empty());
        assert(traverse_list(index, kids.take(1), depth, fuel) =~= traverse_list(
            index,
            kids.take(0),
            depth,
            fuel,
        ) + seq![(k0.id, depth)] + traverse_from(index, Some(k0.id), depth + 1, fuel));
    } else {
        lemma_traverse_list_split(index, kids.drop_first(), c - 1, depth, fuel);
        assert(kids.take(c + 1).drop_first() =~= kids.drop_first().take(c));
        assert(kids.take(c).drop_first() =~= kids.drop_first().take(c - 1));
        assert(kids.take(c + 1)[0] == kids[0]);
        assert(kids.take(c)[0] == kids[0]);
        assert(kids.drop_first()[c - 1] == kids[c]);
        assert(traverse_list(index, kids.take(c + 1), depth, fuel) == seq![(kids[0].id, depth)]
            + traverse_from(index, Some(kids[0].id), depth + 1, fuel) + traverse_list(
            index,
            kids.drop_first().take(c),
            depth,
            fuel,
        ));
        assert(traverse_list(index, kids.take(c), depth, fuel) == seq![(kids[0].id, depth)]
            + traverse_from(index, Some(kids[0].id), depth + 1, fuel) + traverse_list(
            index,
            kids.drop_first().take(c - 1),
            depth,
            fuel,
        ));
    }
}

/// Every visit in a subtree walk names a row of the index, sits at or below
/// the starting depth, and a visit exactly at the starting depth is a child
/// of the starting node.
pub proof fn lemma_traverse_from_ids(
    index: Seq<IndexEntry>,
    parent: Option<u64>,
    depth: int,
    fuel: nat,
)
    ensures
        forall|k: int|
            0 <= k < traverse_from(index, parent, depth, fuel).len() ==> (exists|t: int|
                0 <= t < index.len() && index[t].id == #[trigger] traverse_from(
                    index,
                    parent,
                    depth,
                    fuel,
                )[k].0),
    decreases fuel, 0nat,
{
    if fuel != 0 {
        lemma_children_of_props(index, parent);
        lemma_traverse_list_ids(index, children_of(index, parent), depth, (fuel - 1) as nat);
        let s = traverse_from(index, parent, depth, fuel);
        assert(s == traverse_list(index, children_of(index, parent), depth, (fuel - 1) as nat));
        assert forall|k: int| 0 <= k < s.len() implies (exists|t: int|
            0 <= t < index.len() && index[t].id == #[trigger] s[k].0) by {
            assert(traverse_list(index, children_of(index, parent), depth, (fuel - 1) as nat)[k]
                == s[k]);
        }
    }
}

/// Same statement for a run of siblings taken from the index.
pub proof fn lemma_traverse_list_ids(
    index: Seq<IndexEntry>,
    kids: Seq<IndexEntry>,
    depth: int,
    fuel: nat,
)
    requires
        forall|c: int| 0 <= c < kids.len() ==> index.contains(#[trigger] kids[c]),
    ensures
        forall|k: int|
            0 <= k < traverse_list(index, kids, depth, fuel).len() ==> (exists|t: int|
                0 <= t < index.len() && index[t].id == #[trigger] traverse_list(
                    index,
                    kids,
                    depth,
                    fuel,
                )[k].0),
    decreases fuel, kids.len() + 1,
{
    if kids.len() != 0 {
        lemma_traverse_from_ids(index, Some(kids[0].id), depth + 1, fuel);
        assert(forall|c: int|
            0 <= c < kids.drop_first().len() ==> index.contains(#[trigger] kids.drop_first()[c]));
        lemma_traverse_list_ids(index, kids.drop_first(), depth, fuel);
        let s = traverse_list(index, kids, depth, fuel);
        let a = traverse_from(index, Some(kids[0].id), depth + 1, fuel);
        let b = traverse_list(index, kids.drop_first(), depth, fuel);
        assert forall|k: int| 0 <= k < s.len() implies (exists|t: int|
            0 <= t < index.len() && index[t].id == #[trigger] s[k].0) by {
            if k == 0 {
                assert(index.contains(kids[0]));
                let t = choose|t: int| 0 <= t < index.len() && index[t] == kids[0];
                assert(index[t].id == s[k].0);
            } else if k < 1 + a.len() {
                assert(s[k] == a[k - 1]);
            } else {
                assert(s[k] == b[k - 1 - a.len()]);
            }
        }
    }
}

/// Depth discipline below one node: no visit is shallower than the starting
/// depth; a visit exactly at the starting depth is a child of the starting
/// node; and any deeper visit is preceded by a visit, one level higher, of
/// the node recorded as its parent in the index.
pub proof fn lemma_traverse_from_depths(
    index: Seq<IndexEntry>,
    parent: Option<u64>,
    depth: int,
    fuel: nat,
)
    ensures
        forall|k: int|
            0 <= k < traverse_from(index, parent, depth, fuel).len() ==> #[trigger] traverse_from(
                index,
                parent,
                depth,
                fuel,
            )[k].1 >= depth,
        forall|k: int|
            0 <= k < traverse_from(index, parent, depth, fuel).len() && #[trigger] traverse_from(
                index,
                parent,
                depth,
                fuel,
            )[k].1 == depth ==> (exists|t: int|
                0 <= t < index.len() && index[t].id == traverse_from(index, parent, depth, fuel)[k].0
                    && index[t].parent == parent),
        forall|k: int|
            0 <= k < traverse_from(index, parent, depth, fuel).len() && #[trigger] traverse_from(
                index,
                parent,
                depth,
                fuel,
            )[k].1 > depth ==> (exists|j: int|
                #![trigger traverse_from(index, parent, depth, fuel)[j]]
                {
                    let s = traverse_from(index, parent, depth, fuel);
                    &&& 0 <= j < k
                    &&& s[j].1 == s[k].1 - 1
                    &&& exists|t: int|
                        0 <= t < index.len() && index[t].id == s[k].0 && index[t].parent == Some(
                            s[j].0,
                        )
                }),
    decreases fuel, 0nat,
{
    if fuel != 0 {
        lemma_children_of_props(index, parent);
        lemma_traverse_list_depths(
            index,
            children_of(index, parent),
            parent,
            depth,
            (fuel - 1) as nat,
        );
        let s = traverse_from(index, parent, depth, fuel);
        let l = traverse_list(index, children_of(index, parent), depth, (fuel - 1) as nat);
        assert(s == l);
        assert forall|k: int| 0 <= k < s.len() implies #[trigger] s[k].1 >= depth by {
            assert(l[k] == s[k]);
        }
        assert forall|k: int| 0 <= k < s.len() && #[trigger] s[k].1 == depth implies (exists|t: int|
            0 <= t < index.len() && index[t].id == s[k].0 && index[t].parent == parent) by {
            assert(l[k] == s[k]);
        }
        assert forall|k: int| 0 <= k < s.len() && #[trigger] s[k].1 > depth implies (exists|j: int|
            #![trigger s[j]]
            {
                &&& 0 <= j < k
                &&& s[j].1 == s[k].1 - 1
                &&& exists|t: int|
                    0 <= t < index.len() && index[t].id == s[k].0 && index[t].parent == Some(
                        s[j].0,
                    )
            }) by {
            assert(l[k] == s[k]);
            let j = choose|j: int|
                #![trigger l[j]]
                0 <= j < k && l[j].1 == l[k].1 - 1 && exists|t: int|
                    0 <= t < index.len() && index[t].id == l[k].0 && index[t].parent == Some(
                        l[j].0,
                    );
            assert(s[j] == l[j]);
        }
    }
}

/// The same discipline for a run of siblings taken from the index.
pub proof fn lemma_traverse_list_depths(
    index: Seq<IndexEntry>,
    kids: Seq<IndexEntry>,
    parent: Option<u64>,
    depth: int,
    fuel: nat,
)
    requires
        forall|c: int|
            0 <= c < kids.len() ==> index.contains(#[trigger] kids[c]) && kids[c].parent == parent,
    ensures
        forall|k: int|
            0 <= k < traverse_list(index, kids, depth, fuel).len() ==> #[trigger] traverse_list(
                index,
                kids,
                depth,
                fuel,
            )[k].1 >= depth,
        forall|k: int|
            0 <= k < traverse_list(index, kids, depth, fuel).len() && #[trigger] traverse_list(
                index,
                kids,
                depth,
                fuel,
            )[k].1 == depth ==> (exists|t: int|
                0 <= t < index.len() && index[t].id == traverse_list(index, kids, depth, fuel)[k].0
                    && index[t].parent == parent),
        forall|k: int|
            0 <= k < traverse_list(index, kids, depth, fuel).len() && #[trigger] traverse_list(
                index,
                kids,
                depth,
                fuel,
            )[k].1 > depth ==> (exists|j: int|
                #![trigger traverse_list(index, kids, depth, fuel)[j]]
                {
                    let s = traverse_list(index, kids, depth, fuel);
                    &&& 0 <= j < k
                    &&& s[j].1 == s[k].1 - 1
                    &&& exists|t: int|
                        0 <= t < index.len() && index[t].id == s[k].0 && index[t].parent == Some(
                            s[j].0,
                        )
                }),
    decreases fuel, kids.len() + 1,
{
    if kids.len() != 0 {
        let k0 = kids[0];
        lemma_traverse_from_depths(index, Some(k0.id), depth + 1, fuel);
        assert(forall|c: int|
            0 <= c < kids.drop_first().len() ==> index.contains(#[trigger] kids.drop_first()[c])
                && kids.drop_first()[c].parent == parent);
        lemma_traverse_list_depths(index, kids.drop_first(), parent, depth, fuel);
        let s = traverse_list(index, kids, depth, fuel);
        let a = traverse_from(index, Some(k0.id), depth + 1, fuel);
        let b = traverse_list(index, kids.drop_first(), depth, fuel);
        assert(s[0] == (k0.id, depth));
        assert(index.contains(k0));

        assert forall|k: int| 0 <= k < s.len() implies #[trigger] s[k].1 >= depth by {
            if k == 0 {
            } else if k < 1 + a.len() {
                assert(s[k] == a[k - 1]);
            } else {
                assert(s[k] == b[k - 1 - a.len()]);
            }
        }
        assert forall|k: int| 0 <= k < s.len() && #[trigger] s[k].1 == depth implies (exists|t: int|
            0 <= t < index.len() && index[t].id == s[k].0 && index[t].parent == parent) by {
            if k == 0 {
                let t = choose|t: int| 0 <= t < index.len() && index[t] == k0;
                assert(index[t].id == s[k].0 && index[t].parent == parent);
            } else if k < 1 + a.len() {
                assert(s[k] == a[k - 1]);
                assert(a[k - 1].1 >= depth + 1);
                assert(false);
            } else {
                assert(s[k] == b[k - 1 - a.len()]);
            }
        }
        assert forall|k: int| 0 <= k < s.len() && #[trigger] s[k].1 > depth implies (exists|j: int|
            {
                &&& 0 <= j < k
                &&& s[j].1 == s[k].1 - 1
                &&& exists|t: int|
                    0 <= t < index.len() && index[t].id == s[k].0 && index[t].parent == Some(s[j].0)
            }) by {
            if k == 0 {
                assert(false);
            } else if k < 1 + a.len() {
                assert(s[k] == a[k - 1]);
                if a[k - 1].1 == depth + 1 {
                    let t = choose|t: int|
                        0 <= t < index.len() && index[t].id == a[k - 1].0 && index[t].parent
                            == Some(k0.id);
                    assert(s[0].1 == s[k].1 - 1);
                    assert(index[t].id == s[k].0 && index[t].parent == Some(s[0].0));
                    assert(0 <= 0 < k && s[0].1 == s[k].1 - 1 && exists|t: int|
                        0 <= t < index.len() && index[t].id == s[k].0 && index[t].parent == Some(
                            s[0].0,
                        ));
                } else {
                    assert(a[k - 1].1 > depth + 1);
                    let j0 = choose|j0: int|
                        #![trigger a[j0]]
                        0 <= j0 < k - 1 && a[j0].1 == a[k - 1].1 - 1 && exists|t: int|
                            0 <= t < index.len() && index[t].id == a[k - 1].0 && index[t].parent
                                == Some(a[j0].0);
                    assert(s[j0 + 1] == a[j0]);
                    assert(0 <= j0 + 1 < k && s[j0 + 1].1 == s[k].1 - 1);
                }
            } else {
                assert(s[k] == b[k - 1 - a.len()]);
                let kb = k - 1 - a.len();
                assert(b[kb].1 > depth);
                let j0 = choose|j0: int|
                    #![trigger b[j0]]
                    0 <= j0 < kb && b[j0].1 == b[kb].1 - 1 && exists|t: int|
                        0 <= t < index.len() && index[t].id == b[kb].0 && index[t].parent == Some(
                            b[j0].0,
                        );
                assert(s[j0 + 1 + a.len()] == b[j0]);
                assert(0 <= j0 + 1 + a.len() < k && s[j0 + 1 + a.len()].1 == s[k].1 - 1);
            }
        }
    }
}

} // verus!
