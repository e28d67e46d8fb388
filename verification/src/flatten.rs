//! The flattening pass: walking a tree depth-first and emitting one
//! `(dot-joined path, stringified leaf)` entry per leaf.
use vstd::prelude::*;
use crate::tree::{
    LocaleTree, TreeShape, kids_view, lemma_kids_view, tree_view, leaf_at, has_key, key_index,
    lemma_key_index, lemma_child_cons, child, subtree_at, has_sub, leaf_above, merge_view,
    wf_shape, lemma_merge_leaf, lemma_merge_wf, ok_key, ok_keys,
};
use crate::dispatch::{index_of_char, lemma_index_of_char};

verus! {

/// One flattened entry at the specification level: the key sequence from the
/// root to a leaf, and the leaf's stringified value.
pub type FlatEntry = (Seq<Seq<char>>, Seq<char>);

/// Dot-joins a key sequence into one path string.
pub open spec fn join(p: Seq<Seq<char>>) -> Seq<char>
    decreases p.len(),
{
    if p.len() == 0 {
        Seq::empty()
    } else if p.len() == 1 {
        p[0]
    } else {
        join(p.drop_last()) + seq!['.'] + p.last()
    }
}

/// Every entry of `es`, with key `k` prepended to its key sequence.
pub open spec fn prefix_entries(k: Seq<char>, es: Seq<FlatEntry>) -> Seq<FlatEntry> {
    es.map_values(|e: FlatEntry| (seq![k] + e.0, e.1))
}

/// The flattened entries of a tree, in depth-first child order: a leaf is one
/// entry with an empty key sequence, and a node contributes each child's
/// entries with the child's key prepended.
pub open spec fn flat_seq(t: TreeShape) -> Seq<FlatEntry>
    decreases t,
{
    match t {
        TreeShape::Leaf(v) => seq![(Seq::<Seq<char>>::empty(), v)],
        TreeShape::Node(kids) => flat_kids(kids),
    }
}

/// The flattened entries that a child list contributes.
pub open spec fn flat_kids(kids: Seq<(Seq<char>, TreeShape)>) -> Seq<FlatEntry>
    decreases kids,
{
    if kids.len() == 0 {
        Seq::empty()
    } else {
        prefix_entries(kids.first().0, flat_seq(kids.first().1)) + flat_kids(kids.drop_first())
    }
}

/// The entries of `es` rendered under a prefix string: the prefix stands in
/// front of each path as one more joined segment.
pub open spec fn entries_under(pre: Seq<char>, es: Seq<FlatEntry>) -> Seq<(Seq<char>, Seq<char>)> {
    es.map_values(|e: FlatEntry| (join(seq![pre] + e.0), e.1))
}

/// Joining after a push appends a dot and the new segment.
pub proof fn lemma_join_push(p: Seq<Seq<char>>, k: Seq<char>)
    ensures
        join(p.push(k)) == if p.len() == 0 {
            k
        } else {
            join(p) + seq!['.'] + k
        },
{
    let q = p.push(k);
    assert(q.drop_last() =~= p);
    assert(q.last() == k);
    if p.len() == 0 {
        assert(join(q) == q[0]);
    }
}

/// The first two segments may be joined into one ahead of time.
pub proof fn lemma_join_merge_head(x: Seq<char>, y: Seq<char>, rest: Seq<Seq<char>>)
    ensures
        join(seq![x, y] + rest) == join(seq![x + seq!['.'] + y] + rest),
    decreases rest.len(),
{
    if rest.len() == 0 {
        assert(seq![x, y] + rest =~= seq![x, y]);
        assert(seq![x + seq!['.'] + y] + rest =~= seq![x + seq!['.'] + y]);
        assert((seq![x, y]).drop_last() =~= seq![x]);
        assert(join(seq![x, y]) == join(seq![x]) + seq!['.'] + y);
        assert(join(seq![x]) == x);
        assert(join(seq![x + seq!['.'] + y]) == x + seq!['.'] + y);
    } else {
        let r2 = rest.drop_last();
        let z = rest.last();
        lemma_join_merge_head(x, y, r2);
        assert(seq![x, y] + rest =~= (seq![x, y] + r2).push(z));
        assert(seq![x + seq!['.'] + y] + rest =~= (seq![x + seq!['.'] + y] + r2).push(z));
        lemma_join_push(seq![x, y] + r2, z);
        lemma_join_push(seq![x + seq!['.'] + y] + r2, z);
    }
}

/// Stringifies one leaf; a mapping node yields the empty string (callers
/// never use that case).
fn leaf_text(t: &LocaleTree) -> (r: String)
    requires
        t@ is Leaf,
    ensures
        t@ == TreeShape::Leaf(r@),
{
    match t {
        LocaleTree::Str(s) => s.clone(),
        LocaleTree::Bool(b) => {
            if *b {
                String::from_str("true")
            } else {
                String::from_str("false")
            }
        },
        LocaleTree::Null => String::new(),
        LocaleTree::Num(s) => s.clone(),
        LocaleTree::Arr => String::new(),
        LocaleTree::Node(_) => String::new(),
    }
}

/// Appends the entries of `t`, each path carrying `prefix` in front, to
/// `out`.
#[verifier::loop_isolation(false)]
fn flatten_into(t: &LocaleTree, prefix: &String, out: &mut Vec<(String, String)>)
    ensures
        final(out)@.len() == old(out)@.len() + flat_seq(t@).len(),
        forall|i: int| 0 <= i < old(out)@.len() ==> #[trigger] final(out)@[i] == old(out)@[i],
        forall|i: int|
            0 <= i < flat_seq(t@).len() ==> (#[trigger] final(out)@[old(out)@.len() + i]).0@
                == entries_under(prefix@, flat_seq(t@))[i].0 && final(out)@[old(out)@.len() + i].1@
                == entries_under(prefix@, flat_seq(t@))[i].1,
    decreases *t,
{
    match t {
        LocaleTree::Node(kids) => {
            let ghost kv = kids_view(kids@);
            proof {
                lemma_kids_view(kids@);
            }
            let mut i: usize = 0;
            while i < kids.len()
                invariant
                    i <= kids@.len(),
                    out@.len() == old(out)@.len() + flat_kids(kv.take(i as int)).len(),
                    forall|j: int| 0 <= j < old(out)@.len() ==> #[trigger] out@[j] == old(out)@[j],
                    forall|j: int|
                        0 <= j < flat_kids(kv.take(i as int)).len() ==> (#[trigger] out@[old(out)@.len()
                            + j]).0@ == entries_under(prefix@, flat_kids(kv.take(i as int)))[j].0
                            && out@[old(out)@.len() + j].1@ == entries_under(
                            prefix@,
                            flat_kids(kv.take(i as int)),
                        )[j].1,
                decreases kids@.len() - i,
            {
                let mut cp = prefix.clone();
                cp.append(".");
                cp.append(kids[i].0.as_str());
                proof {
                    reveal_strlit(".");
                    assert(cp@ == prefix@ + seq!['.'] + kids@[i as int].0@);
                }
                let ghost before = out@;
                flatten_into(&kids[i].1, &cp, out);
                proof {
                    let sub = flat_seq(kv[i as int].1);
                    assert(kv[i as int].1 == tree_view(kids@[i as int].1));
                    lemma_flat_kids_take_step(kv, i as int);
                    assert forall|j: int| 0 <= j < sub.len() implies entries_under(cp@, sub)[j]
                        == entries_under(prefix@, prefix_entries(kv[i as int].0, sub))[j] by {
                        lemma_join_merge_head(prefix@, kv[i as int].0, sub[j].0);
                        assert(seq![prefix@] + (seq![kv[i as int].0] + sub[j].0) =~= seq![
                            prefix@,
                            kv[i as int].0,
                        ] + sub[j].0);
                        assert(seq![cp@] + sub[j].0 =~= seq![prefix@ + seq!['.'] + kv[i as int].0]
                            + sub[j].0);
                    }
                    let pre_len = flat_kids(kv.take(i as int)).len();
                    let next = flat_kids(kv.take(i as int + 1));
                    assert(next == flat_kids(kv.take(i as int)) + prefix_entries(
                        kv[i as int].0,
                        sub,
                    ));
                    assert forall|j: int| 0 <= j < next.len() implies (#[trigger] out@[old(
                        out,
                    )@.len() + j]).0@ == entries_under(prefix@, next)[j].0 && out@[old(out)@.len()
                        + j].1@ == entries_under(prefix@, next)[j].1 by {
                        if j < pre_len {
                            assert(out@[old(out)@.len() + j] == before[old(out)@.len() + j]);
                            assert(entries_under(prefix@, next)[j] == entries_under(
                                prefix@,
                                flat_kids(kv.take(i as int)),
                            )[j]);
                        } else {
                            let r = j - pre_len;
                            assert(out@[before.len() + r].0@ == entries_under(cp@, sub)[r].0);
                            assert(out@[before.len() + r].1@ == entries_under(cp@, sub)[r].1);
                            assert(before.len() + r == old(out)@.len() + j);
                            assert(entries_under(prefix@, next)[j] == entries_under(
                                prefix@,
                                prefix_entries(kv[i as int].0, sub),
                            )[r]);
                        }
                    }
                }
                i = i + 1;
            }
            proof {
                assert(kv.take(kids@.len() as int) =~= kv);
            }
        },
        _ => {
            let text = leaf_text(t);
            out.push((prefix.clone(), text));
            proof {
                assert(seq![prefix@] + Seq::<Seq<char>>::empty() =~= seq![prefix@]);
                assert(join(seq![prefix@]) == prefix@);
            }
        },
    }
}

/// Taking one more child appends that child's prefixed entries.
pub proof fn lemma_flat_kids_take_step(kv: Seq<(Seq<char>, TreeShape)>, i: int)
    requires
        0 <= i < kv.len(),
    ensures
        flat_kids(kv.take(i + 1)) == flat_kids(kv.take(i)) + prefix_entries(
            kv[i].0,
            flat_seq(kv[i].1),
        ),
    decreases i,
{
    if i == 0 {
        assert(kv.take(0) =~= Seq::<(Seq<char>, TreeShape)>::empty());
        assert(kv.take(1).first() == kv[0]);
        assert(kv.take(1).drop_first() =~= Seq::<(Seq<char>, TreeShape)>::empty());
        assert(flat_kids(kv.take(1)) == prefix_entries(kv[0].0, flat_seq(kv[0].1)) + flat_kids(
            Seq::<(Seq<char>, TreeShape)>::empty(),
        ));
        assert(flat_kids(kv.take(1)) =~= Seq::<FlatEntry>::empty() + prefix_entries(
            kv[0].0,
            flat_seq(kv[0].1),
        ));
        assert(flat_kids(kv.take(0)) + prefix_entries(kv[0].0, flat_seq(kv[0].1)) =~= prefix_entries(
            kv[0].0,
            flat_seq(kv[0].1),
        ));
        assert(flat_kids(kv.take(1)) =~= flat_kids(kv.take(0)) + prefix_entries(
            kv[0].0,
            flat_seq(kv[0].1),
        ));
    } else {
        lemma_flat_kids_take_step(kv.drop_first(), i - 1);
        assert(kv.take(i + 1).first() == kv[0]);
        assert(kv.take(i).first() == kv[0]);
        assert(kv.take(i + 1).drop_first() =~= kv.drop_first().take(i));
        assert(kv.take(i).drop_first() =~= kv.drop_first().take(i - 1));
        assert(kv.drop_first()[i - 1] == kv[i]);
        assert(flat_kids(kv.take(i + 1)) == prefix_entries(kv[0].0, flat_seq(kv[0].1)) + flat_kids(
            kv.drop_first().take(i),
        ));
        assert(flat_kids(kv.take(i)) == prefix_entries(kv[0].0, flat_seq(kv[0].1)) + flat_kids(
            kv.drop_first().take(i - 1),
        ));
        assert(flat_kids(kv.take(i + 1)) =~= flat_kids(kv.take(i)) + prefix_entries(
            kv[i].0,
            flat_seq(kv[i].1),
        ));
    }
}

/// The flattened entries of a tree with their key sequences dot-joined into
/// path strings, in depth-first child order.
pub open spec fn joined_entries(t: TreeShape) -> Seq<(Seq<char>, Seq<char>)> {
    flat_seq(t).map_values(|e: FlatEntry| (join(e.0), e.1))
}

/// Flattens a tree into `(path, value)` entries; the root's children start
/// the path with no leading dot, and a bare root leaf gets the empty path.
#[verifier::loop_isolation(false)]
pub fn flatten_tree(t: &LocaleTree) -> (out: Vec<(String, String)>)
    ensures
        out@.len() == joined_entries(t@).len(),
        forall|i: int|
            0 <= i < joined_entries(t@).len() ==> (#[trigger] out@[i]).0@ == joined_entries(t@)[i].0
                && out@[i].1@ == joined_entries(t@)[i].1,
{
    let mut out: Vec<(String, String)> = Vec::new();
    match t {
        LocaleTree::Node(kids) => {
            let ghost kv = kids_view(kids@);
            proof {
                lemma_kids_view(kids@);
            }
            let mut i: usize = 0;
            while i < kids.len()
                invariant
                    i <= kids@.len(),
                    out@.len() == flat_kids(kv.take(i as int)).len(),
                    forall|j: int|
                        0 <= j < flat_kids(kv.take(i as int)).len() ==> (#[trigger] out@[j]).0@
                            == join(flat_kids(kv.take(i as int))[j].0) && out@[j].1@ == flat_kids(
                            kv.take(i as int),
                        )[j].1,
                decreases kids@.len() - i,
            {
                let ghost before = out@;
                flatten_into(&kids[i].1, &kids[i].0, &mut out);
                proof {
                    let sub = flat_seq(kv[i as int].1);
                    assert(kv[i as int].1 == tree_view(kids@[i as int].1));
                    lemma_flat_kids_take_step(kv, i as int);
                    let pre_len = flat_kids(kv.take(i as int)).len();
                    let next = flat_kids(kv.take(i as int + 1));
                    assert forall|j: int| 0 <= j < next.len() implies (#[trigger] out@[j]).0@
                        == join(next[j].0) && out@[j].1@ == next[j].1 by {
                        if j < pre_len {
                            assert(out@[j] == before[j]);
                            assert(next[j] == flat_kids(kv.take(i as int))[j]);
                        } else {
                            let r = j - pre_len;
                            assert(out@[before.len() + r].0@ == entries_under(
                                kids@[i as int].0@,
                                sub,
                            )[r].0);
                            assert(out@[before.len() + r].1@ == entries_under(
                                kids@[i as int].0@,
                                sub,
                            )[r].1);
                            assert(next[j] == prefix_entries(kv[i as int].0, sub)[r]);
                        }
                    }
                }
                i = i + 1;
            }
            proof {
                assert(kv.take(kids@.len() as int) =~= kv);
            }
        },
        _ => {
            let text = leaf_text(t);
            out.push((String::new(), text));
            proof {
                assert(join(Seq::<Seq<char>>::empty()) == Seq::<char>::empty());
            }
        },
    }
    out
}

/// `a` is an initial run of `b` (equality included).
pub open spec fn is_prefix(a: Seq<Seq<char>>, b: Seq<Seq<char>>) -> bool {
    a.len() <= b.len() && a == b.take(a.len() as int)
}

/// Every flattened entry of a well-shaped tree reads back as the leaf it
/// came from, and its key sequence starts with one of the root's keys.
pub proof fn lemma_flat_sound(t: TreeShape)
    requires
        crate::tree::wf_shape(t),
    ensures
        forall|i: int|
            0 <= i < flat_seq(t).len() ==> leaf_at(t, (#[trigger] flat_seq(t)[i]).0) == Some(
                flat_seq(t)[i].1,
            ),
    decreases t,
{
    match t {
        TreeShape::Leaf(_) => {
            assert(subtree_at(t, flat_seq(t)[0].0) == Some(t));
        },
        TreeShape::Node(kids) => {
            lemma_flat_kids_sound(kids);
        },
    }
}

/// The child-list form of `lemma_flat_sound`, with the extra fact that each
/// entry's first segment is one of the listed keys.
pub proof fn lemma_flat_kids_sound(kids: Seq<(Seq<char>, TreeShape)>)
    requires
        forall|i: int, j: int|
            0 <= i < j < kids.len() ==> (#[trigger] kids[i].0) != (#[trigger] kids[j].0),
        forall|i: int| 0 <= i < kids.len() ==> crate::tree::wf_shape(#[trigger] kids[i].1),
    ensures
        forall|i: int|
            0 <= i < flat_kids(kids).len() ==> (#[trigger] flat_kids(kids)[i]).0.len() >= 1
                && has_key(kids, flat_kids(kids)[i].0.first()) && leaf_at(
                TreeShape::Node(kids),
                flat_kids(kids)[i].0,
            ) == Some(flat_kids(kids)[i].1),
    decreases kids,
{
    if kids.len() > 0 {
        let k0 = kids.first().0;
        let c0 = kids.first().1;
        let rest = kids.drop_first();
        let block = prefix_entries(k0, flat_seq(c0));
        lemma_flat_sound(c0);
        assert(forall|i: int|
            0 <= i < rest.len() ==> #[trigger] rest[i] == kids[i + 1]);
        lemma_flat_kids_sound(rest);
        assert forall|i: int| 0 <= i < flat_kids(kids).len() implies (#[trigger] flat_kids(
            kids,
        )[i]).0.len() >= 1 && has_key(kids, flat_kids(kids)[i].0.first()) && leaf_at(
            TreeShape::Node(kids),
            flat_kids(kids)[i].0,
        ) == Some(flat_kids(kids)[i].1) by {
            lemma_key_index(kids, flat_kids(kids)[i].0.first());
            if i < block.len() {
                let p = flat_seq(c0)[i].0;
                let v = flat_seq(c0)[i].1;
                assert(flat_kids(kids)[i] == (seq![k0] + p, v));
                assert((seq![k0] + p).first() == k0);
                assert(kids[0].0 == k0);
                assert(has_key(kids, k0));
                assert(child(kids, k0) == Some(c0)) by {
                    lemma_key_index(kids, k0);
                    assert(key_index(kids, k0) == 0);
                }
                assert((seq![k0] + p).drop_first() =~= p);
                assert(leaf_at(c0, p) == Some(v));
                assert(subtree_at(TreeShape::Node(kids), seq![k0] + p) == subtree_at(c0, p));
            } else {
                let r = i - block.len();
                assert(flat_kids(kids)[i] == flat_kids(rest)[r]);
                let path = flat_kids(rest)[r].0;
                assert(has_key(rest, path.first()));
                let w = choose|w: int| 0 <= w < rest.len() && (#[trigger] rest[w].0) == path.first();
                assert(kids[w + 1].0 == path.first());
                assert(has_key(kids, path.first()));
                assert(path.first() != k0) by {
                    if path.first() == k0 {
                        assert(kids[w + 1].0 == kids[0].0);
                    }
                }
                lemma_child_cons(kids, path.first());
                assert(leaf_at(TreeShape::Node(rest), path) == Some(flat_kids(rest)[r].1));
                assert(subtree_at(TreeShape::Node(kids), path) == subtree_at(
                    TreeShape::Node(rest),
                    path,
                ));
            }
        }
    }
}

/// Every leaf of a well-shaped tree appears among its flattened entries.
pub proof fn lemma_flat_complete(t: TreeShape, q: Seq<Seq<char>>)
    requires
        crate::tree::wf_shape(t),
        leaf_at(t, q) is Some,
    ensures
        exists|i: int|
            0 <= i < flat_seq(t).len() && #[trigger] flat_seq(t)[i] == (q, leaf_at(t, q)->Some_0),
    decreases t, q.len(),
{
    match t {
        TreeShape::Leaf(_) => {
            assert(q.len() == 0);
            assert(q =~= Seq::<Seq<char>>::empty());
            assert(flat_seq(t)[0] == (q, leaf_at(t, q)->Some_0));
        },
        TreeShape::Node(kids) => {
            assert(q.len() > 0);
            lemma_flat_kids_complete(kids, q);
            let w = choose|i: int|
                0 <= i < flat_kids(kids).len() && #[trigger] flat_kids(kids)[i] == (
                    q,
                    leaf_at(TreeShape::Node(kids), q)->Some_0,
                );
            assert(flat_seq(t)[w] == (q, leaf_at(t, q)->Some_0));
        },
    }
}

/// The child-list form of `lemma_flat_complete`.
pub proof fn lemma_flat_kids_complete(kids: Seq<(Seq<char>, TreeShape)>, q: Seq<Seq<char>>)
    requires
        forall|i: int, j: int|
            0 <= i < j < kids.len() ==> (#[trigger] kids[i].0) != (#[trigger] kids[j].0),
        forall|i: int| 0 <= i < kids.len() ==> crate::tree::wf_shape(#[trigger] kids[i].1),
        leaf_at(TreeShape::Node(kids), q) is Some,
    ensures
        exists|i: int|
            0 <= i < flat_kids(kids).len() && #[trigger] flat_kids(kids)[i] == (
                q,
                leaf_at(TreeShape::Node(kids), q)->Some_0,
            ),
    decreases kids, q.len(),
{
    assert(q.len() > 0);
    let k = q.first();
    lemma_key_index(kids, k);
    assert(has_key(kids, k));
    let k0 = kids.first().0;
    let c0 = kids.first().1;
    let rest = kids.drop_first();
    let block = prefix_entries(k0, flat_seq(c0));
    if k == k0 {
        assert(key_index(kids, k) == 0);
        assert(child(kids, k) == Some(c0));
        assert(leaf_at(c0, q.drop_first()) is Some);
        lemma_flat_complete(c0, q.drop_first());
        let r = choose|r: int|
            0 <= r < flat_seq(c0).len() && #[trigger] flat_seq(c0)[r] == (
                q.drop_first(),
                leaf_at(c0, q.drop_first())->Some_0,
            );
        assert(flat_kids(kids)[r] == block[r]);
        assert(seq![k0] + q.drop_first() =~= q);
        assert(flat_kids(kids)[r] == (q, leaf_at(TreeShape::Node(kids), q)->Some_0));
    } else {
        lemma_child_cons(kids, k);
        assert(forall|i: int|
            0 <= i < rest.len() ==> #[trigger] rest[i] == kids[i + 1]);
        assert(leaf_at(TreeShape::Node(rest), q) == leaf_at(TreeShape::Node(kids), q));
        lemma_flat_kids_complete(rest, q);
        let r = choose|r: int|
            0 <= r < flat_kids(rest).len() && #[trigger] flat_kids(rest)[r] == (
                q,
                leaf_at(TreeShape::Node(rest), q)->Some_0,
            );
        assert(flat_kids(kids)[block.len() + r] == flat_kids(rest)[r]);
    }
}

/// Distinct flattened entries of a well-shaped tree never stand on one
/// line of descent: neither path is an initial run of the other.
pub proof fn lemma_flat_prefix_free(t: TreeShape)
    requires
        crate::tree::wf_shape(t),
    ensures
        forall|i: int, j: int|
            0 <= i < flat_seq(t).len() && 0 <= j < flat_seq(t).len() && i != j ==> !is_prefix(
                (#[trigger] flat_seq(t)[i]).0,
                (#[trigger] flat_seq(t)[j]).0,
            ),
    decreases t,
{
    match t {
        TreeShape::Leaf(_) => {
            assert(flat_seq(t).len() == 1);
        },
        TreeShape::Node(kids) => {
            lemma_flat_kids_prefix_free(kids);
            assert(flat_seq(t) == flat_kids(kids));
            assert forall|i: int, j: int|
                0 <= i < flat_seq(t).len() && 0 <= j < flat_seq(t).len() && i != j implies !is_prefix(
                (#[trigger] flat_seq(t)[i]).0,
                (#[trigger] flat_seq(t)[j]).0,
            ) by {
                assert(!is_prefix(flat_kids(kids)[i].0, flat_kids(kids)[j].0));
            }
        },
    }
}

/// The child-list form of `lemma_flat_prefix_free`.
pub proof fn lemma_flat_kids_prefix_free(kids: Seq<(Seq<char>, TreeShape)>)
    requires
        forall|i: int, j: int|
            0 <= i < j < kids.len() ==> (#[trigger] kids[i].0) != (#[trigger] kids[j].0),
        forall|i: int| 0 <= i < kids.len() ==> crate::tree::wf_shape(#[trigger] kids[i].1),
    ensures
        forall|i: int, j: int|
            0 <= i < flat_kids(kids).len() && 0 <= j < flat_kids(kids).len() && i != j ==> !is_prefix(
                (#[trigger] flat_kids(kids)[i]).0,
                (#[trigger] flat_kids(kids)[j]).0,
            ),
    decreases kids,
{
    if kids.len() > 0 {
        let k0 = kids.first().0;
        let c0 = kids.first().1;
        let rest = kids.drop_first();
        let block = prefix_entries(k0, flat_seq(c0));
        lemma_flat_prefix_free(c0);
        assert(forall|i: int| 0 <= i < rest.len() ==> #[trigger] rest[i] == kids[i + 1]);
        lemma_flat_kids_prefix_free(rest);
        lemma_flat_kids_sound(rest);
        assert forall|i: int, j: int|
            0 <= i < flat_kids(kids).len() && 0 <= j < flat_kids(kids).len() && i
                != j implies !is_prefix(
            (#[trigger] flat_kids(kids)[i]).0,
            (#[trigger] flat_kids(kids)[j]).0,
        ) by {
            let a = flat_kids(kids)[i].0;
            let b = flat_kids(kids)[j].0;
            if i < block.len() && j < block.len() {
                let pa = flat_seq(c0)[i].0;
                let pb = flat_seq(c0)[j].0;
                assert(a == seq![k0] + pa);
                assert(b == seq![k0] + pb);
                assert(!is_prefix(pa, pb));
                if is_prefix(a, b) {
                    assert(pa.len() <= pb.len());
                    assert forall|t2: int| 0 <= t2 < pa.len() implies pa[t2] == pb.take(
                        pa.len() as int,
                    )[t2] by {
                        assert(a[t2 + 1] == b.take(a.len() as int)[t2 + 1]);
                    }
                    assert(pa =~= pb.take(pa.len() as int));
                }
            } else if i < block.len() && j >= block.len() {
                let pb = flat_kids(rest)[j - block.len()].0;
                assert(b == pb);
                assert(has_key(rest, pb.first()));
                let w = choose|w: int| 0 <= w < rest.len() && (#[trigger] rest[w].0) == pb.first();
                assert(kids[w + 1].0 == pb.first());
                assert(a.first() == k0);
                assert(a.first() != pb.first()) by {
                    if k0 == pb.first() {
                        assert(kids[w + 1].0 == kids[0].0);
                    }
                }
                if is_prefix(a, b) {
                    assert(a[0] == b.take(a.len() as int)[0]);
                }
            } else if i >= block.len() && j < block.len() {
                let pa = flat_kids(rest)[i - block.len()].0;
                assert(a == pa);
                assert(has_key(rest, pa.first()));
                let w = choose|w: int| 0 <= w < rest.len() && (#[trigger] rest[w].0) == pa.first();
                assert(kids[w + 1].0 == pa.first());
                assert(b.first() == k0);
                assert(a.first() != b.first()) by {
                    if pa.first() == k0 {
                        assert(kids[w + 1].0 == kids[0].0);
                    }
                }
                if is_prefix(a, b) {
                    assert(a[0] == b.take(a.len() as int)[0]);
                }
            } else {
                assert(flat_kids(kids)[i] == flat_kids(rest)[i - block.len()]);
                assert(flat_kids(kids)[j] == flat_kids(rest)[j - block.len()]);
            }
        }
    }
}

/// Every segment of every flattened path of a key-well-formed tree is a
/// losslessly joinable key.
pub proof fn lemma_flat_ok(t: TreeShape)
    requires
        ok_keys(t),
    ensures
        forall|i: int, s: int|
            0 <= i < flat_seq(t).len() && 0 <= s < flat_seq(t)[i].0.len() ==> ok_key(
                #[trigger] flat_seq(t)[i].0[s],
            ),
    decreases t,
{
    match t {
        TreeShape::Leaf(_) => {
            assert(flat_seq(t).len() == 1);
            assert(flat_seq(t)[0].0.len() == 0);
        },
        TreeShape::Node(kids) => {
            lemma_flat_kids_ok(kids);
            assert(flat_seq(t) == flat_kids(kids));
            assert forall|i: int, s: int|
                0 <= i < flat_seq(t).len() && 0 <= s < flat_seq(t)[i].0.len() implies ok_key(
                #[trigger] flat_seq(t)[i].0[s],
            ) by {
                assert(ok_key(flat_kids(kids)[i].0[s]));
            }
        },
    }
}

/// The child-list form of `lemma_flat_ok`.
pub proof fn lemma_flat_kids_ok(kids: Seq<(Seq<char>, TreeShape)>)
    requires
        forall|i: int| 0 <= i < kids.len() ==> ok_key((#[trigger] kids[i]).0) && ok_keys(kids[i].1),
    ensures
        forall|i: int, s: int|
            0 <= i < flat_kids(kids).len() && 0 <= s < flat_kids(kids)[i].0.len() ==> ok_key(
                #[trigger] flat_kids(kids)[i].0[s],
            ),
    decreases kids,
{
    if kids.len() > 0 {
        let k0 = kids.first().0;
        let c0 = kids.first().1;
        let rest = kids.drop_first();
        let block = prefix_entries(k0, flat_seq(c0));
        assert(ok_keys(c0)) by {
            assert(kids[0].1 == c0);
        }
        lemma_flat_ok(c0);
        assert(forall|i: int| 0 <= i < rest.len() ==> #[trigger] rest[i] == kids[i + 1]);
        lemma_flat_kids_ok(rest);
        assert forall|i: int, s: int|
            0 <= i < flat_kids(kids).len() && 0 <= s < flat_kids(kids)[i].0.len() implies ok_key(
            #[trigger] flat_kids(kids)[i].0[s],
        ) by {
            if i < block.len() {
                let pa = flat_seq(c0)[i].0;
                assert(flat_kids(kids)[i].0 == seq![k0] + pa);
                if s == 0 {
                    assert(kids[0].0 == k0);
                } else {
                    assert((seq![k0] + pa)[s] == pa[s - 1]);
                }
            } else {
                assert(flat_kids(kids)[i] == flat_kids(rest)[i - block.len()]);
            }
        }
    }
}

/// Splits a path string at every dot.
pub open spec fn split(s: Seq<char>) -> Seq<Seq<char>>
    decreases s.len(),
    via split_decreases
{
    let j = index_of_char(s, '.');
    if j == s.len() {
        seq![s]
    } else {
        seq![s.take(j)] + split(s.skip(j + 1))
    }
}

#[via_fn]
proof fn split_decreases(s: Seq<char>) {
    lemma_index_of_char(s, '.');
}

/// A join read from the front: the first key, a dot, and the joined rest.
pub proof fn lemma_join_cons(p: Seq<Seq<char>>)
    requires
        p.len() >= 1,
    ensures
        join(p) == if p.len() == 1 {
            p[0]
        } else {
            p[0] + seq!['.'] + join(p.drop_first())
        },
    decreases p.len(),
{
    if p.len() >= 2 {
        let dl = p.drop_last();
        lemma_join_cons(dl);
        if dl.len() == 1 {
            assert(p.drop_first() =~= seq![p.last()]);
            assert(join(p.drop_first()) == p.last());
            assert(dl[0] == p[0]);
        } else {
            assert(dl.drop_first() =~= p.drop_first().drop_last());
            assert(p.drop_first().len() >= 2);
            assert(p.drop_first().last() == p.last());
            assert(join(p.drop_first()) == join(p.drop_first().drop_last()) + seq!['.'] + p.last());
            assert(join(p) == (p[0] + seq!['.'] + join(dl.drop_first())) + seq!['.'] + p.last());
            assert((p[0] + seq!['.'] + join(dl.drop_first())) + seq!['.'] + p.last() =~= p[0]
                + seq!['.'] + (join(dl.drop_first()) + seq!['.'] + p.last()));
        }
    }
}

/// Splitting a losslessly joined key sequence recovers the keys.
pub proof fn lemma_split_join(p: Seq<Seq<char>>)
    requires
        p.len() >= 1,
        forall|i: int| 0 <= i < p.len() ==> ok_key(#[trigger] p[i]),
    ensures
        split(join(p)) == p,
    decreases p.len(),
{
    lemma_join_cons(p);
    let s = join(p);
    lemma_index_of_char(s, '.');
    if p.len() == 1 {
        assert(index_of_char(s, '.') == s.len()) by {
            if index_of_char(s, '.') < s.len() {
                assert(s[index_of_char(s, '.')] == '.');
                assert(p[0][index_of_char(s, '.')] != '.');
            }
        }
        assert(split(s) == seq![s]);
        assert(seq![s] =~= p);
    } else {
        let j = p[0].len() as int;
        assert(s[j] == '.');
        assert(index_of_char(s, '.') == j) by {
            if index_of_char(s, '.') < j {
                assert(s[index_of_char(s, '.')] == p[0][index_of_char(s, '.')]);
                assert(p[0][index_of_char(s, '.')] != '.');
                assert(s[index_of_char(s, '.')] == '.');
            }
            if j < index_of_char(s, '.') {
                assert(s[j] != '.');
            }
        }
        assert(s.take(j) =~= p[0]);
        assert(s.skip(j + 1) =~= join(p.drop_first()));
        assert(forall|i: int|
            0 <= i < p.drop_first().len() ==> #[trigger] p.drop_first()[i] == p[i + 1]);
        lemma_split_join(p.drop_first());
        assert(split(s) == seq![p[0]] + p.drop_first());
        assert(seq![p[0]] + p.drop_first() =~= p);
    }
}

/// Joining is injective on losslessly joinable keys: the same path string
/// always names the same key sequence, and distinct key sequences never
/// collapse to one string.
pub proof fn lemma_join_injective(p: Seq<Seq<char>>, q: Seq<Seq<char>>)
    requires
        forall|i: int| 0 <= i < p.len() ==> ok_key(#[trigger] p[i]),
        forall|i: int| 0 <= i < q.len() ==> ok_key(#[trigger] q[i]),
        join(p) == join(q),
    ensures
        p == q,
{
    if p.len() == 0 && q.len() == 0 {
        assert(p =~= q);
    } else if p.len() == 0 {
        lemma_join_cons(q);
        assert(join(q).len() >= 1);
    } else if q.len() == 0 {
        lemma_join_cons(p);
        assert(join(p).len() >= 1);
    } else {
        lemma_split_join(p);
        lemma_split_join(q);
    }
}

/// A single-leaf tree holding `v` at the key sequence `p`.
pub open spec fn singleton_shape(p: Seq<Seq<char>>, v: Seq<char>) -> TreeShape
    decreases p.len(),
{
    if p.len() == 0 {
        TreeShape::Leaf(v)
    } else {
        TreeShape::Node(seq![(p.first(), singleton_shape(p.drop_first(), v))])
    }
}

/// What stands where in a single-leaf tree.
pub proof fn lemma_singleton_sub(p: Seq<Seq<char>>, v: Seq<char>, q: Seq<Seq<char>>)
    ensures
        subtree_at(singleton_shape(p, v), q) == (if is_prefix(q, p) {
            Some(singleton_shape(p.skip(q.len() as int), v))
        } else {
            None::<TreeShape>
        }),
    decreases q.len(),
{
    if q.len() == 0 {
        assert(is_prefix(q, p)) by {
            assert(q =~= p.take(0));
        }
        assert(p.skip(0) =~= p);
    } else {
        if p.len() == 0 {
            assert(!is_prefix(q, p));
        } else {
            let kids = seq![(p.first(), singleton_shape(p.drop_first(), v))];
            lemma_key_index(kids, q.first());
            if q.first() == p.first() {
                assert(kids[0].0 == q.first());
                assert(has_key(kids, q.first()));
                assert(key_index(kids, q.first()) == 0);
                assert(child(kids, q.first()) == Some(singleton_shape(p.drop_first(), v)));
                lemma_singleton_sub(p.drop_first(), v, q.drop_first());
                assert(is_prefix(q, p) <==> is_prefix(q.drop_first(), p.drop_first())) by {
                    if is_prefix(q.drop_first(), p.drop_first()) {
                        assert(q.len() <= p.len());
                        assert forall|t2: int| 0 <= t2 < q.len() implies q[t2] == p.take(
                            q.len() as int,
                        )[t2] by {
                            if t2 > 0 {
                                assert(q.drop_first()[t2 - 1] == p.drop_first().take(
                                    q.len() as int - 1,
                                )[t2 - 1]);
                            }
                        }
                        assert(q =~= p.take(q.len() as int));
                    }
                    if is_prefix(q, p) {
                        assert forall|t2: int| 0 <= t2 < q.len() - 1 implies q.drop_first()[t2]
                            == p.drop_first().take(q.len() as int - 1)[t2] by {
                            assert(q[t2 + 1] == p.take(q.len() as int)[t2 + 1]);
                        }
                        assert(q.drop_first() =~= p.drop_first().take(q.len() as int - 1));
                    }
                }
                if is_prefix(q, p) {
                    assert(p.drop_first().skip(q.len() as int - 1) =~= p.skip(q.len() as int));
                }
            } else {
                assert(child(kids, q.first()) is None) by {
                    if has_key(kids, q.first()) {
                        let w = choose|w: int|
                            0 <= w < kids.len() && (#[trigger] kids[w].0) == q.first();
                        assert(kids[0].0 == p.first());
                    }
                }
                assert(!is_prefix(q, p)) by {
                    if is_prefix(q, p) {
                        assert(q[0] == p.take(q.len() as int)[0]);
                    }
                }
            }
        }
    }
}

/// A single-leaf tree is well-shaped and holds exactly its one leaf.
pub proof fn lemma_singleton_props(p: Seq<Seq<char>>, v: Seq<char>)
    ensures
        wf_shape(singleton_shape(p, v)),
        forall|q: Seq<Seq<char>>| #[trigger] leaf_at(singleton_shape(p, v), q) == (if q == p {
            Some(v)
        } else {
            None::<Seq<char>>
        }),
        forall|q: Seq<Seq<char>>| #[trigger] has_sub(singleton_shape(p, v), q) == is_prefix(q, p),
        forall|q: Seq<Seq<char>>| #[trigger] leaf_above(singleton_shape(p, v), q) == (p.len()
            < q.len() && p == q.take(p.len() as int)),
    decreases p.len(),
{
    if p.len() > 0 {
        lemma_singleton_props(p.drop_first(), v);
    }
    assert forall|q: Seq<Seq<char>>| #[trigger] leaf_at(singleton_shape(p, v), q) == (if q == p {
        Some(v)
    } else {
        None::<Seq<char>>
    }) by {
        lemma_singleton_sub(p, v, q);
        if is_prefix(q, p) {
            if q.len() == p.len() {
                assert(q =~= p.take(q.len() as int));
                assert(p.take(q.len() as int) =~= p);
            } else {
                assert(p.skip(q.len() as int).len() > 0);
            }
        } else {
            if q == p {
                assert(q =~= p.take(q.len() as int));
            }
        }
    }
    assert forall|q: Seq<Seq<char>>| #[trigger] has_sub(singleton_shape(p, v), q) == is_prefix(
        q,
        p,
    ) by {
        lemma_singleton_sub(p, v, q);
    }
    assert forall|q: Seq<Seq<char>>| #[trigger] leaf_above(singleton_shape(p, v), q) == (p.len()
        < q.len() && p == q.take(p.len() as int)) by {
        if leaf_above(singleton_shape(p, v), q) {
            let i = choose|i: int|
                0 <= i < q.len() && leaf_at(singleton_shape(p, v), #[trigger] q.take(i)) is Some;
            assert(q.take(i) == p);
            assert(i == p.len());
        }
        if p.len() < q.len() && p == q.take(p.len() as int) {
            assert(leaf_at(singleton_shape(p, v), q.take(p.len() as int)) is Some);
            assert(leaf_above(singleton_shape(p, v), q));
        }
    }
}

/// Rebuilds a tree from flattened `(path, value)` entries: each path is
/// split at its dots and inserted in order, the later entry winning.
pub open spec fn rebuild_shape(es: Seq<(Seq<char>, Seq<char>)>) -> TreeShape
    decreases es.len(),
{
    if es.len() == 0 {
        TreeShape::Node(Seq::empty())
    } else {
        merge_view(
            rebuild_shape(es.drop_last()),
            singleton_shape(split(es.last().0), es.last().1),
        )
    }
}

/// The value of the last entry whose split path is `q`, if any.
pub open spec fn entries_leaf(es: Seq<(Seq<char>, Seq<char>)>, q: Seq<Seq<char>>) -> Option<
    Seq<char>,
>
    decreases es.len(),
{
    if es.len() == 0 {
        None
    } else if split(es.last().0) == q {
        Some(es.last().1)
    } else {
        entries_leaf(es.drop_last(), q)
    }
}

/// An entry lookup that succeeds names some entry's split path.
pub proof fn lemma_entries_leaf_some(es: Seq<(Seq<char>, Seq<char>)>, q: Seq<Seq<char>>)
    ensures
        entries_leaf(es, q) is Some <==> exists|i: int|
            0 <= i < es.len() && split((#[trigger] es[i]).0) == q,
        entries_leaf(es, q) matches Some(w) ==> exists|i: int|
            0 <= i < es.len() && split((#[trigger] es[i]).0) == q && es[i].1 == w,
    decreases es.len(),
{
    if es.len() > 0 {
        let init = es.drop_last();
        lemma_entries_leaf_some(init, q);
        assert(forall|i: int| 0 <= i < init.len() ==> #[trigger] init[i] == es[i]);
        if split(es.last().0) == q {
            assert(split((es[es.len() - 1]).0) == q);
        } else {
            if entries_leaf(es, q) is Some {
                let w = choose|i: int| 0 <= i < init.len() && split((#[trigger] init[i]).0) == q;
                assert(split((es[w]).0) == q);
            }
            if exists|i: int| 0 <= i < es.len() && split((#[trigger] es[i]).0) == q {
                let w = choose|i: int| 0 <= i < es.len() && split((#[trigger] es[i]).0) == q;
                assert(w < es.len() - 1);
                assert(split((init[w]).0) == q);
                assert(entries_leaf(init, q) is Some);
            }
        }
    }
}

/// Rebuilding prefix-free entries yields a well-shaped tree whose leaves
/// are exactly the entries, the later entry winning per path.
pub proof fn lemma_rebuild(es: Seq<(Seq<char>, Seq<char>)>)
    requires
        forall|i: int, j: int|
            0 <= i < es.len() && 0 <= j < es.len() && i != j ==> !is_prefix(
                split((#[trigger] es[i]).0),
                split((#[trigger] es[j]).0),
            ),
    ensures
        wf_shape(rebuild_shape(es)),
        forall|q: Seq<Seq<char>>| #[trigger] leaf_at(rebuild_shape(es), q) == entries_leaf(es, q),
    decreases es.len(),
{
    if es.len() == 0 {
        assert forall|q: Seq<Seq<char>>| #[trigger] leaf_at(rebuild_shape(es), q) == entries_leaf(
            es,
            q,
        ) by {
            assert(subtree_at(TreeShape::Node(Seq::empty()), q) is Some ==> q.len() == 0);
        }
    } else {
        let init = es.drop_last();
        let pm = split(es.last().0);
        let vm = es.last().1;
        let single = singleton_shape(pm, vm);
        assert(forall|i: int| 0 <= i < init.len() ==> #[trigger] init[i] == es[i]);
        lemma_rebuild(init);
        lemma_singleton_props(pm, vm);
        lemma_merge_wf(rebuild_shape(init), single);
        assert forall|q: Seq<Seq<char>>| #[trigger] leaf_at(rebuild_shape(es), q) == entries_leaf(
            es,
            q,
        ) by {
            lemma_merge_leaf(rebuild_shape(init), single, q);
            lemma_entries_leaf_some(init, q);
            if q == pm {
            } else if has_sub(single, q) {
                // q is a strict initial run of the last entry's path
                if entries_leaf(init, q) is Some {
                    let w = choose|i: int|
                        0 <= i < init.len() && split((#[trigger] init[i]).0) == q;
                    assert(is_prefix(split(es[w].0), split(es[es.len() - 1].0)));
                }
            } else if leaf_above(single, q) {
                // the last entry's path is a strict initial run of q
                if entries_leaf(init, q) is Some {
                    let w = choose|i: int|
                        0 <= i < init.len() && split((#[trigger] init[i]).0) == q;
                    assert(is_prefix(split(es[es.len() - 1].0), split(es[w].0)));
                }
            } else {
            }
        }
    }
}

/// Splits a path string at every dot into its segments.
#[verifier::loop_isolation(false)]
pub fn split_path(s: &str) -> (r: Vec<String>)
    ensures
        r@.len() == split(s@).len(),
        forall|i: int| 0 <= i < r@.len() ==> (#[trigger] r@[i])@ == split(s@)[i],
{
    let n = s.unicode_len();
    let mut out: Vec<String> = Vec::new();
    let mut cur: usize = 0;
    proof {
        assert(s@.skip(0) =~= s@);
    }
    loop
        invariant
            cur <= n,
            n == s@.len(),
            split(s@).len() == out@.len() + split(s@.skip(cur as int)).len(),
            forall|i: int| 0 <= i < out@.len() ==> #[trigger] split(s@)[i] == out@[i]@,
            forall|i: int|
                0 <= i < split(s@.skip(cur as int)).len() ==> #[trigger] split(s@)[out@.len() + i]
                    == split(s@.skip(cur as int))[i],
        decreases n - cur,
    {
        let ghost rem = s@.skip(cur as int);
        let j = crate::dispatch::scan_for(s, cur, '.');
        proof {
            assert(index_of_char(rem, '.') == j - cur);
        }
        if j < n {
            let ghost prevlen = out@.len() as int;
            let seg = s.substring_char(cur, j).to_owned();
            out.push(seg);
            proof {
                assert(rem.take(j - cur) =~= s@.subrange(cur as int, j as int));
                assert(rem.skip(j - cur + 1) =~= s@.skip(j as int + 1));
                assert(split(rem) == seq![rem.take(j - cur)] + split(s@.skip(j as int + 1)));
                assert(out@[out@.len() - 1]@ == rem.take(j - cur));
                assert forall|x: int| 0 <= x < out@.len() implies #[trigger] split(s@)[x]
                    == out@[x]@ by {
                    if x == out@.len() - 1 {
                        assert(split(s@)[prevlen + 0] == split(rem)[0]);
                    }
                }
                assert forall|x: int|
                    0 <= x < split(s@.skip(j as int + 1)).len() implies #[trigger] split(s@)[out@.len()
                    + x] == split(s@.skip(j as int + 1))[x] by {
                    assert(split(s@)[(out@.len() - 1) + (x + 1)] == split(rem)[x + 1]);
                    assert(split(rem)[x + 1] == split(s@.skip(j as int + 1))[x]);
                }
            }
            cur = j + 1;
        } else {
            let ghost prevlen = out@.len() as int;
            let seg = s.substring_char(cur, n).to_owned();
            out.push(seg);
            proof {
                assert(index_of_char(rem, '.') == rem.len());
                assert(split(rem) == seq![rem]);
                assert(rem =~= s@.subrange(cur as int, n as int));
                assert(out@[out@.len() - 1]@ == rem);
                assert forall|x: int| 0 <= x < out@.len() implies #[trigger] split(s@)[x]
                    == out@[x]@ by {
                    if x == out@.len() - 1 {
                        assert(split(s@)[prevlen + 0] == split(rem)[0]);
                    }
                }
            }
            return out;
        }
    }
}

/// Builds the one-leaf tree that holds `v` at the given segments.
#[verifier::loop_isolation(false)]
pub fn singleton_tree(segs: &Vec<String>, v: String) -> (r: LocaleTree)
    ensures
        r@ == singleton_shape(segs@.map_values(|x: String| x@), v@),
{
    let ghost sv = segs@.map_values(|x: String| x@);
    let mut t = LocaleTree::Str(v);
    proof {
        assert(sv.skip(segs@.len() as int) =~= Seq::<Seq<char>>::empty());
    }
    let mut k: usize = segs.len();
    while k > 0
        invariant
            k <= segs@.len(),
            t@ == singleton_shape(sv.skip(k as int), v@),
        decreases k,
    {
        k = k - 1;
        let mut kids: Vec<(String, LocaleTree)> = Vec::new();
        kids.push((segs[k].clone(), t));
        t = LocaleTree::Node(kids);
        proof {
            lemma_kids_view(kids@);
            assert(sv.skip(k as int).first() == sv[k as int]);
            assert(sv.skip(k as int).drop_first() =~= sv.skip(k as int + 1));
            assert(kids_view(kids@) =~= seq![
                (sv[k as int], singleton_shape(sv.skip(k as int + 1), v@)),
            ]);
        }
    }
    proof {
        assert(sv.skip(0) =~= sv);
    }
    t
}

/// Rebuilds a tree from flattened `(path, value)` entries, inserting each
/// in order with the later entry winning.
#[verifier::loop_isolation(false)]
pub fn rebuild(entries: &Vec<(String, String)>) -> (r: LocaleTree)
    ensures
        r@ == rebuild_shape(entries@.map_values(|e: (String, String)| (e.0@, e.1@))),
{
    let ghost ev = entries@.map_values(|e: (String, String)| (e.0@, e.1@));
    let empty_kids: Vec<(String, LocaleTree)> = Vec::new();
    let mut t = LocaleTree::Node(empty_kids);
    proof {
        assert(ev.take(0) =~= Seq::<(Seq<char>, Seq<char>)>::empty());
        assert(kids_view(Seq::<(String, LocaleTree)>::empty()) =~= Seq::<
            (Seq<char>, TreeShape),
        >::empty());
    }
    let mut i: usize = 0;
    while i < entries.len()
        invariant
            i <= entries@.len(),
            t@ == rebuild_shape(ev.take(i as int)),
        decreases entries@.len() - i,
    {
        let segs = split_path(entries[i].0.as_str());
        let single = singleton_tree(&segs, entries[i].1.clone());
        crate::tree::merge_value(&mut t, &single);
        proof {
            assert(segs@.map_values(|x: String| x@) =~= split(ev[i as int].0));
            assert(ev.take(i as int + 1).drop_last() =~= ev.take(i as int));
            assert(ev.take(i as int + 1).last() == ev[i as int]);
        }
        i = i + 1;
    }
    proof {
        assert(ev.take(entries@.len() as int) =~= ev);
    }
    t
}

/// Flattens `trs` with every path standing under `prefix`, exactly as the
/// locale-prefixed flattening pass emits it.
pub fn extract_vars(prefix: &str, trs: &LocaleTree) -> (out: Vec<(String, String)>)
    ensures
        out@.len() == flat_seq(trs@).len(),
        forall|i: int|
            0 <= i < flat_seq(trs@).len() ==> (#[trigger] out@[i]).0@ == entries_under(
                prefix@,
                flat_seq(trs@),
            )[i].0 && out@[i].1@ == entries_under(prefix@, flat_seq(trs@))[i].1,
{
    let mut out: Vec<(String, String)> = Vec::new();
    let p = prefix.to_owned();
    flatten_into(trs, &p, &mut out);
    proof {
        assert forall|i: int| 0 <= i < flat_seq(trs@).len() implies (#[trigger] out@[i]).0@
            == entries_under(prefix@, flat_seq(trs@))[i].0 && out@[i].1@ == entries_under(
            prefix@,
            flat_seq(trs@),
        )[i].1 by {
            assert(out@[0 + i].0@ == entries_under(p@, flat_seq(trs@))[i].0);
            assert(out@[0 + i].1@ == entries_under(p@, flat_seq(trs@))[i].1);
        }
    }
    out
}

} // verus!
