//! General properties of the merge pass, stated and proved over the tree
//! shapes that the executable functions' contracts use.
use vstd::prelude::*;
use crate::tree::{
    TreeShape, leaf_at, has_sub, leaf_above, merge_view, wf_shape, lemma_merge_leaf,
    lemma_merge_subtree, lemma_merge_wf, lemma_has_sub_prefix, ok_key, ok_keys,
};
use crate::flatten::{
    flat_seq, joined_entries, join, split, is_prefix, rebuild_shape, entries_leaf,
    lemma_flat_sound, lemma_flat_complete, lemma_flat_prefix_free, lemma_flat_ok,
    lemma_flat_kids_sound, lemma_split_join, lemma_join_cons, lemma_join_injective, lemma_rebuild,
    lemma_entries_leaf_some,
};
use crate::table::{
    table_spec, merged_trees, alookup, entries_last, lemma_merged_trees_good,
    lemma_entries_last_unique,
};

verus! {

/// Two trees touch disjoint subtrees: no path carries a leaf of one tree
/// while the other tree has anything (leaf or node) at that path.
pub open spec fn disjoint_shapes(a: TreeShape, b: TreeShape) -> bool {
    (forall|p: Seq<Seq<char>>|
        #![trigger leaf_at(a, p), has_sub(b, p)]
        !(leaf_at(a, p) is Some && has_sub(b, p))) && (forall|p: Seq<Seq<char>>|
        #![trigger has_sub(a, p), leaf_at(b, p)]
        !(has_sub(a, p) && leaf_at(b, p) is Some))
}

/// Merge order is irrelevant for sources that touch disjoint subtrees: at
/// every path, merging `a` then `b` leaves the same leaves as merging `b`
/// then `a`.
pub proof fn lemma_merge_disjoint_commutes(a: TreeShape, b: TreeShape)
    requires
        wf_shape(a),
        wf_shape(b),
        disjoint_shapes(a, b),
    ensures
        forall|p: Seq<Seq<char>>| #[trigger] leaf_at(merge_view(a, b), p) == leaf_at(
            merge_view(b, a),
            p,
        ),
{
    assert forall|p: Seq<Seq<char>>| #[trigger] leaf_at(merge_view(a, b), p) == leaf_at(
        merge_view(b, a),
        p,
    ) by {
        lemma_merge_leaf(a, b, p);
        lemma_merge_leaf(b, a, p);
        if leaf_at(b, p) is Some {
            assert(!has_sub(a, p));
            assert(!leaf_above(a, p)) by {
                if leaf_above(a, p) {
                    let i = choose|i: int|
                        0 <= i < p.len() && leaf_at(a, #[trigger] p.take(i)) is Some;
                    lemma_has_sub_prefix(b, p, i);
                }
            }
        } else if leaf_at(a, p) is Some {
            assert(!has_sub(b, p));
            assert(!leaf_above(b, p)) by {
                if leaf_above(b, p) {
                    let i = choose|i: int|
                        0 <= i < p.len() && leaf_at(b, #[trigger] p.take(i)) is Some;
                    lemma_has_sub_prefix(a, p, i);
                }
            }
        }
    }
}

/// Merging is associative at leaf granularity when the two later sources
/// touch disjoint subtrees: folding three such sources in either grouping
/// leaves the same leaf at every path.
///
/// Without that condition associativity fails: when the middle source puts
/// a leaf where the last one puts a node, grouping to the right lets an
/// earlier subtree survive that grouping to the left had discarded.
#[verifier::rlimit(100)]
pub proof fn lemma_merge_associative(a: TreeShape, b: TreeShape, c: TreeShape)
    requires
        wf_shape(a),
        wf_shape(b),
        wf_shape(c),
        disjoint_shapes(b, c),
    ensures
        forall|q: Seq<Seq<char>>| #[trigger] leaf_at(merge_view(merge_view(a, b), c), q) == leaf_at(
            merge_view(a, merge_view(b, c)),
            q,
        ),
{
    lemma_merge_wf(a, b);
    lemma_merge_wf(b, c);
    let ab = merge_view(a, b);
    let bc = merge_view(b, c);
    assert forall|q: Seq<Seq<char>>| #[trigger] leaf_at(merge_view(ab, c), q) == leaf_at(
        merge_view(a, bc),
        q,
    ) by {
        lemma_merge_leaf(ab, c, q);
        lemma_merge_leaf(a, bc, q);
        lemma_merge_subtree(a, b, q);
        lemma_merge_subtree(b, c, q);
        lemma_merge_leaf(a, b, q);
        lemma_merge_leaf(b, c, q);
        assert forall|i: int, i2: int| 0 <= i2 <= i <= q.len() implies #[trigger] q.take(i).take(i2)
            == q.take(i2) by {
            assert(q.take(i).take(i2) =~= q.take(i2));
        }
        assert forall|i: int| 0 <= i < q.len() implies leaf_at(bc, #[trigger] q.take(i)) == (if
        leaf_at(c, q.take(i)) is Some {
            leaf_at(c, q.take(i))
        } else if has_sub(c, q.take(i)) {
            None::<Seq<char>>
        } else if leaf_above(c, q.take(i)) {
            None::<Seq<char>>
        } else {
            leaf_at(b, q.take(i))
        }) by {
            lemma_merge_leaf(b, c, q.take(i));
        }
        if leaf_at(c, q) is Some {
        } else if has_sub(c, q) {
        } else if leaf_above(c, q) {
            let i = choose|i: int| 0 <= i < q.len() && leaf_at(c, #[trigger] q.take(i)) is Some;
            assert(leaf_at(bc, q.take(i)) is Some);
            assert(leaf_above(bc, q));
        } else {
            // the last source is silent on this path
            assert(leaf_at(bc, q) == leaf_at(b, q));
            assert(has_sub(bc, q) == has_sub(b, q));
            if leaf_at(b, q) is Some {
            } else if has_sub(b, q) {
            } else if leaf_above(b, q) {
                let i = choose|i: int| 0 <= i < q.len() && leaf_at(b, #[trigger] q.take(i)) is Some;
                assert(!has_sub(c, q.take(i)));
                assert(!leaf_above(c, q.take(i))) by {
                    if leaf_above(c, q.take(i)) {
                        let i2 = choose|i2: int|
                            0 <= i2 < q.take(i).len() && leaf_at(
                                c,
                                #[trigger] q.take(i).take(i2),
                            ) is Some;
                        assert(leaf_at(c, q.take(i2)) is Some);
                    }
                }
                assert(leaf_at(bc, q.take(i)) == leaf_at(b, q.take(i)));
                assert(leaf_above(bc, q));
            } else {
                assert(!leaf_above(bc, q)) by {
                    if leaf_above(bc, q) {
                        let i = choose|i: int|
                            0 <= i < q.len() && leaf_at(bc, #[trigger] q.take(i)) is Some;
                        assert(leaf_at(c, q.take(i)) is None);
                        assert(leaf_at(b, q.take(i)) is Some ==> leaf_above(b, q));
                    }
                }
            }
        }
    }
}

/// The later source always wins at a leaf: wherever the incoming tree has a
/// leaf, the merged tree has exactly that leaf, whatever stood there before.
pub proof fn lemma_merge_later_leaf_wins(a: TreeShape, b: TreeShape, p: Seq<Seq<char>>)
    requires
        wf_shape(b),
        leaf_at(b, p) is Some,
    ensures
        leaf_at(merge_view(a, b), p) == leaf_at(b, p),
{
    lemma_merge_leaf(a, b, p);
}

/// The flattened paths of a mapping tree split back into exactly the key
/// sequences they were joined from, and rebuilding never mixes two distinct
/// entries.
proof fn lemma_flat_entries_invertible(t: TreeShape)
    requires
        wf_shape(t),
        ok_keys(t),
        t is Node,
    ensures
        forall|i: int|
            0 <= i < joined_entries(t).len() ==> #[trigger] split(joined_entries(t)[i].0)
                == flat_seq(t)[i].0,
        forall|i: int, j: int|
            0 <= i < joined_entries(t).len() && 0 <= j < joined_entries(t).len() && i != j
                ==> !is_prefix(
                split((#[trigger] joined_entries(t)[i]).0),
                split((#[trigger] joined_entries(t)[j]).0),
            ),
{
    let fs = flat_seq(t);
    let es = joined_entries(t);
    lemma_flat_prefix_free(t);
    lemma_flat_ok(t);
    match t {
        TreeShape::Node(kids) => {
            lemma_flat_kids_sound(kids);
        },
        TreeShape::Leaf(_) => {},
    }
    assert forall|i: int| 0 <= i < es.len() implies #[trigger] split(es[i].0) == fs[i].0 by {
        assert(es[i] == (join(fs[i].0), fs[i].1));
        assert(fs[i].0.len() >= 1);
        lemma_split_join(fs[i].0);
    }
}

/// Flattening then rebuilding is the identity at leaf granularity: for any
/// mapping tree whose keys are non-empty and dot-free, splitting the
/// flattened `(path, value)` entries back into a tree restores exactly the
/// original tree's leaves, stringified, at every key sequence.
pub proof fn lemma_flatten_rebuild_round_trip(t: TreeShape)
    requires
        wf_shape(t),
        ok_keys(t),
        t is Node,
    ensures
        forall|q: Seq<Seq<char>>| #[trigger] leaf_at(rebuild_shape(joined_entries(t)), q)
            == leaf_at(t, q),
{
    let fs = flat_seq(t);
    let es = joined_entries(t);
    lemma_flat_entries_invertible(t);
    lemma_flat_sound(t);
    lemma_rebuild(es);
    assert forall|q: Seq<Seq<char>>| #[trigger] leaf_at(rebuild_shape(es), q) == leaf_at(
        t,
        q,
    ) by {
        lemma_entries_leaf_some(es, q);
        if leaf_at(t, q) is Some {
            lemma_flat_complete(t, q);
            let i = choose|i: int|
                0 <= i < fs.len() && #[trigger] fs[i] == (q, leaf_at(t, q)->Some_0);
            assert(split(es[i].0) == q);
            assert(entries_leaf(es, q) is Some);
            let val = entries_leaf(es, q)->Some_0;
            let w = choose|w: int|
                0 <= w < es.len() && split((#[trigger] es[w]).0) == q && es[w].1 == val;
            assert(fs[w].0 == q);
            assert(leaf_at(t, fs[w].0) == Some(fs[w].1));
            assert(es[w] == (join(fs[w].0), fs[w].1));
        } else {
            if entries_leaf(es, q) is Some {
                let w = choose|w: int| 0 <= w < es.len() && split((#[trigger] es[w]).0) == q;
                assert(fs[w].0 == q);
                assert(leaf_at(t, fs[w].0) == Some(fs[w].1));
            }
        }
    }
}

/// Path uniqueness: the same key sequence always joins to the same path
/// string, and two distinct flattened entries of one tree never collapse to
/// the same string (their key sequences differ, and joining is injective on
/// non-empty, dot-free keys).
pub proof fn lemma_path_uniqueness(t: TreeShape)
    requires
        wf_shape(t),
        ok_keys(t),
        t is Node,
    ensures
        forall|i: int, j: int|
            0 <= i < joined_entries(t).len() && 0 <= j < joined_entries(t).len() && i != j ==> (
            #[trigger] joined_entries(t)[i]).0 != (#[trigger] joined_entries(t)[j]).0,
{
    let fs = flat_seq(t);
    let es = joined_entries(t);
    lemma_flat_entries_invertible(t);
    lemma_flat_prefix_free(t);
    assert forall|i: int, j: int|
        0 <= i < es.len() && 0 <= j < es.len() && i != j implies (#[trigger] es[i]).0 != (
        #[trigger] es[j]).0 by {
        if es[i].0 == es[j].0 {
            assert(split(es[i].0) == fs[i].0);
            assert(split(es[j].0) == fs[j].0);
            assert(fs[i].0 == fs[j].0);
            assert(is_prefix(fs[i].0, fs[j].0)) by {
                assert(fs[i].0 =~= fs[j].0.take(fs[i].0.len() as int));
            }
            assert(!is_prefix(flat_seq(t)[i].0, flat_seq(t)[j].0));
        }
    }
}

/// The built table means what the sources say: for any locale and any
/// losslessly joinable key sequence, the table at the dot-joined path holds
/// exactly the leaf of that locale's merged tree — present if and only if
/// the merged tree has a leaf there, with the same stringified value.
pub proof fn lemma_table_serves_merged_leaves(
    files: Seq<(Seq<char>, TreeShape)>,
    locale: Seq<char>,
    q: Seq<Seq<char>>,
)
    requires
        forall|i: int|
            0 <= i < files.len() ==> wf_shape((#[trigger] files[i]).1) && ok_keys(files[i].1)
                && files[i].1 is Node,
        forall|s: int| 0 <= s < q.len() ==> ok_key(#[trigger] q[s]),
    ensures
        table_spec(files, join(q), locale) == (match alookup(merged_trees(files), locale) {
            Some(t) => leaf_at(t, q),
            None => None,
        }),
{
    lemma_merged_trees_good(files);
    crate::table::lemma_akey_index(merged_trees(files), locale);
    if alookup(merged_trees(files), locale) is Some {
        let t = alookup(merged_trees(files), locale)->Some_0;
        let w = crate::table::akey_index(merged_trees(files), locale);
        assert(merged_trees(files)[w].1 == t);
        let fs = flat_seq(t);
        let es = joined_entries(t);
        lemma_flat_entries_invertible(t);
        lemma_path_uniqueness(t);
        lemma_flat_sound(t);
        lemma_entries_last_unique(es, join(q));
        if leaf_at(t, q) is Some {
            lemma_flat_complete(t, q);
            let i = choose|i: int|
                0 <= i < fs.len() && #[trigger] fs[i] == (q, leaf_at(t, q)->Some_0);
            assert(es[i] == (join(fs[i].0), fs[i].1));
            assert(es[i].0 == join(q));
            assert(entries_last(es, join(q)) == Some(es[i].1));
        } else {
            match t {
                TreeShape::Node(kids) => {
                    lemma_flat_kids_sound(kids);
                },
                TreeShape::Leaf(_) => {},
            }
            lemma_flat_ok(t);
            assert forall|i: int| 0 <= i < es.len() implies (#[trigger] es[i]).0 != join(q) by {
                if es[i].0 == join(q) {
                    assert(fs[i].0.len() >= 1);
                    assert(ok_key(fs[i].0[0]));
                    lemma_join_cons(fs[i].0);
                    assert(join(fs[i].0).len() >= 1);
                    if q.len() >= 1 {
                        lemma_split_join(q);
                        assert(split(es[i].0) == fs[i].0);
                        assert(fs[i].0 == q);
                        assert(leaf_at(t, fs[i].0) == Some(fs[i].1));
                    } else {
                        assert(join(q).len() == 0);
                    }
                }
            }
        }
    }
}

} // verus!
