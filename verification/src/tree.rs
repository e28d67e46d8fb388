//! The parsed translation tree and the merge pass.
//!
//! A `LocaleTree` is what one source file contributes for one locale: a
//! recursive value whose leaves are strings (booleans, numbers, nulls and
//! arrays count as stringified leaves) and whose nodes map keys to subtrees.
//! Merging two trees recurses through nodes key by key; anywhere the incoming
//! side is a leaf it replaces the whole existing subtree, so a later file wins
//! at leaf granularity.
use vstd::prelude::*;

verus! {

/// One parsed translation value: a leaf, or a mapping from keys to subtrees.
pub enum LocaleTree {
    /// A string leaf.
    Str(String),
    /// A boolean leaf; it stringifies to `"true"` or `"false"`.
    Bool(bool),
    /// A null leaf; it stringifies to the empty string.
    Null,
    /// A numeric leaf, carried as its canonical decimal text.
    Num(String),
    /// An array; a documented limitation collapses it to an empty leaf.
    Arr,
    /// A mapping node: sibling keys are meant to be distinct (see `wf_shape`).
    Node(Vec<(String, LocaleTree)>),
}

/// The mathematical shape of a tree: every leaf is its stringified text, and
/// a node is the ordered association sequence of its children.
pub enum TreeShape {
    Leaf(Seq<char>),
    Node(Seq<(Seq<char>, TreeShape)>),
}

/// The shape of a node's child list.
pub open spec fn kids_view(kids: Seq<(String, LocaleTree)>) -> Seq<(Seq<char>, TreeShape)>
    decreases kids,
{
    if kids.len() == 0 {
        Seq::empty()
    } else {
        seq![(kids.first().0@, tree_view(kids.first().1))] + kids_view(kids.drop_first())
    }
}

/// The shape of a tree, with every leaf stringified.
pub open spec fn tree_view(t: LocaleTree) -> TreeShape
    decreases t,
{
    match t {
        LocaleTree::Str(s) => TreeShape::Leaf(s@),
        LocaleTree::Bool(b) => TreeShape::Leaf(if b { "true"@ } else { "false"@ }),
        LocaleTree::Null => TreeShape::Leaf(Seq::empty()),
        LocaleTree::Num(s) => TreeShape::Leaf(s@),
        LocaleTree::Arr => TreeShape::Leaf(Seq::empty()),
        LocaleTree::Node(kids) => TreeShape::Node(kids_view(kids@)),
    }
}

impl View for LocaleTree {
    type V = TreeShape;

    open spec fn view(&self) -> TreeShape {
        tree_view(*self)
    }
}

/// `kids_view` acts pointwise.
pub proof fn lemma_kids_view(kids: Seq<(String, LocaleTree)>)
    ensures
        kids_view(kids).len() == kids.len(),
        forall|i: int|
            0 <= i < kids.len() ==> #[trigger] kids_view(kids)[i] == (
            kids[i].0@,
            tree_view(kids[i].1),
            ),
    decreases kids.len(),
{
    if kids.len() > 0 {
        lemma_kids_view(kids.drop_first());
        assert forall|i: int| 0 <= i < kids.len() implies #[trigger] kids_view(kids)[i] == (
            kids[i].0@,
            tree_view(kids[i].1),
        ) by {
            if i > 0 {
                assert(kids_view(kids)[i] == kids_view(kids.drop_first())[i - 1]);
                assert(kids.drop_first()[i - 1] == kids[i]);
            }
        }
    }
}

/// Whether some child carries key `k`.
pub open spec fn has_key(kids: Seq<(Seq<char>, TreeShape)>, k: Seq<char>) -> bool {
    exists|i: int| 0 <= i < kids.len() && (#[trigger] kids[i].0) == k
}

/// The first index whose key is `k`, or the length when no key matches.
pub open spec fn key_index(kids: Seq<(Seq<char>, TreeShape)>, k: Seq<char>) -> int
    decreases kids.len(),
{
    if kids.len() == 0 {
        0
    } else if kids.first().0 == k {
        0
    } else {
        1 + key_index(kids.drop_first(), k)
    }
}

/// `key_index` is the first match, and it is in range exactly when a match
/// exists.
pub proof fn lemma_key_index(kids: Seq<(Seq<char>, TreeShape)>, k: Seq<char>)
    ensures
        0 <= key_index(kids, k) <= kids.len(),
        has_key(kids, k) <==> key_index(kids, k) < kids.len(),
        key_index(kids, k) < kids.len() ==> kids[key_index(kids, k)].0 == k,
        forall|t: int| 0 <= t < key_index(kids, k) ==> (#[trigger] kids[t].0) != k,
    decreases kids.len(),
{
    if kids.len() > 0 && kids.first().0 != k {
        lemma_key_index(kids.drop_first(), k);
        assert(forall|i: int|
            0 <= i < kids.drop_first().len() ==> #[trigger] kids.drop_first()[i] == kids[i + 1]);
        if has_key(kids, k) {
            let w = choose|i: int| 0 <= i < kids.len() && (#[trigger] kids[i].0) == k;
            assert(kids.drop_first()[w - 1].0 == k);
            assert(has_key(kids.drop_first(), k));
        }
        if has_key(kids.drop_first(), k) {
            let w = choose|i: int|
                0 <= i < kids.drop_first().len() && (#[trigger] kids.drop_first()[i].0) == k;
            assert(kids[w + 1].0 == k);
        }
        assert forall|t: int| 0 <= t < key_index(kids, k) implies (#[trigger] kids[t].0) != k by {
            if t > 0 {
                assert(kids.drop_first()[t - 1].0 != k);
            }
        }
    }
}

/// The first child with key `k`, if any.
pub open spec fn child(kids: Seq<(Seq<char>, TreeShape)>, k: Seq<char>) -> Option<TreeShape> {
    if has_key(kids, k) {
        Some(kids[key_index(kids, k)].1)
    } else {
        None
    }
}

/// A well-shaped tree: sibling keys are distinct everywhere.
pub open spec fn wf_shape(t: TreeShape) -> bool
    decreases t,
{
    match t {
        TreeShape::Leaf(_) => true,
        TreeShape::Node(kids) => (forall|i: int, j: int|
            0 <= i < j < kids.len() ==> (#[trigger] kids[i].0) != (#[trigger] kids[j].0))
            && (forall|i: int| 0 <= i < kids.len() ==> wf_shape(#[trigger] kids[i].1)),
    }
}

/// The subtree that the key sequence `p` reaches, if any.
pub open spec fn subtree_at(t: TreeShape, p: Seq<Seq<char>>) -> Option<TreeShape>
    decreases p.len(),
{
    if p.len() == 0 {
        Some(t)
    } else {
        match t {
            TreeShape::Leaf(_) => None,
            TreeShape::Node(kids) => match child(kids, p.first()) {
                Some(c) => subtree_at(c, p.drop_first()),
                None => None,
            },
        }
    }
}

/// The leaf value at key sequence `p`, if `p` reaches a leaf.
pub open spec fn leaf_at(t: TreeShape, p: Seq<Seq<char>>) -> Option<Seq<char>> {
    match subtree_at(t, p) {
        Some(TreeShape::Leaf(v)) => Some(v),
        _ => None,
    }
}

/// `p` reaches anything in `t`, leaf or node.
pub open spec fn has_sub(t: TreeShape, p: Seq<Seq<char>>) -> bool {
    subtree_at(t, p) is Some
}

/// Some strict prefix of `p` reaches a leaf of `t`.
pub open spec fn leaf_above(t: TreeShape, p: Seq<Seq<char>>) -> bool {
    exists|i: int| 0 <= i < p.len() && leaf_at(t, #[trigger] p.take(i)) is Some
}

/// One merge step on child lists: the incoming pair either merges into the
/// existing child with the same key or is appended.
pub open spec fn merge_kids(
    ka: Seq<(Seq<char>, TreeShape)>,
    kb: Seq<(Seq<char>, TreeShape)>,
) -> Seq<(Seq<char>, TreeShape)>
    decreases kb,
{
    if kb.len() == 0 {
        ka
    } else {
        let k = kb.first().0;
        let bv = kb.first().1;
        let i = key_index(ka, k);
        let ka2 = if i < ka.len() {
            ka.update(i, (k, merge_view(ka[i].1, bv)))
        } else {
            ka.push((k, bv))
        };
        merge_kids(ka2, kb.drop_first())
    }
}

/// Merging `b` into `a`: nodes merge key by key, anything else is replaced
/// wholesale by `b`.
pub open spec fn merge_view(a: TreeShape, b: TreeShape) -> TreeShape
    decreases b,
{
    match (a, b) {
        (TreeShape::Node(ka), TreeShape::Node(kb)) => TreeShape::Node(merge_kids(ka, kb)),
        (_, other) => other,
    }
}

impl LocaleTree {
    /// A structural copy whose shape equals this tree's shape.
    #[verifier::loop_isolation(false)]
    pub fn deep_copy(&self) -> (r: LocaleTree)
        ensures
            r@ == self@,
        decreases *self,
    {
        match self {
            LocaleTree::Str(s) => LocaleTree::Str(s.clone()),
            LocaleTree::Bool(b) => LocaleTree::Bool(*b),
            LocaleTree::Null => LocaleTree::Null,
            LocaleTree::Num(s) => LocaleTree::Num(s.clone()),
            LocaleTree::Arr => LocaleTree::Arr,
            LocaleTree::Node(kids) => {
                let mut out: Vec<(String, LocaleTree)> = Vec::new();
                let mut i: usize = 0;
                while i < kids.len()
                    invariant
                        i <= kids.len(),
                        out@.len() == i,
                        forall|j: int|
                            0 <= j < i ==> (#[trigger] out@[j]).0@ == kids@[j].0@ && out@[j].1@
                                == kids@[j].1@,
                    decreases kids.len() - i,
                {
                    let sub = kids[i].1.deep_copy();
                    out.push((kids[i].0.clone(), sub));
                    i = i + 1;
                }
                proof {
                    lemma_kids_view(out@);
                    lemma_kids_view(kids@);
                    assert(kids_view(out@) =~= kids_view(kids@));
                }
                LocaleTree::Node(out)
            },
        }
    }
}

/// The first child index of `kids` whose key equals `k`, or the length.
#[verifier::loop_isolation(false)]
fn find_key(kids: &Vec<(String, LocaleTree)>, k: &String) -> (r: usize)
    ensures
        r as int == key_index(kids_view(kids@), k@),
{
    proof {
        lemma_kids_view(kids@);
        lemma_key_index(kids_view(kids@), k@);
    }
    let mut j: usize = 0;
    while j < kids.len() && kids[j].0 != *k
        invariant
            j <= kids@.len(),
            forall|t: int| 0 <= t < j ==> (#[trigger] kids@[t].0)@ != k@,
        decreases kids@.len() - j,
    {
        j = j + 1;
    }
    proof {
        if j < kids@.len() {
            assert(kids_view(kids@)[j as int].0 == k@);
        }
    }
    j
}

/// Merges `b` into an owned tree and returns the merged tree.
#[verifier::loop_isolation(false)]
fn merge_owned(a: LocaleTree, b: &LocaleTree) -> (r: LocaleTree)
    ensures
        r@ == merge_view(a@, b@),
    decreases *b,
{
    match (a, b) {
        (LocaleTree::Node(mut ka), LocaleTree::Node(kb)) => {
            let ghost ka0 = ka@;
            proof {
                assert(kids_view(kb@).skip(0) =~= kids_view(kb@));
            }
            let mut i: usize = 0;
            while i < kb.len()
                invariant
                    i <= kb@.len(),
                    merge_kids(kids_view(ka@), kids_view(kb@).skip(i as int)) == merge_kids(
                        kids_view(ka0),
                        kids_view(kb@),
                    ),
                decreases kb@.len() - i,
            {
                let ghost kav = kids_view(ka@);
                let ghost kbv = kids_view(kb@);
                proof {
                    lemma_kids_view(ka@);
                    lemma_kids_view(kb@);
                    lemma_key_index(kav, kb@[i as int].0@);
                    assert(kbv.skip(i as int).first() == kbv[i as int]);
                }
                let j = find_key(&ka, &kb[i].0);
                if j < ka.len() {
                    let pair = ka.remove(j);
                    let merged = merge_owned(pair.1, &kb[i].1);
                    proof {
                        assert(pair.1@ == kav[j as int].1);
                    }
                    ka.insert(j, (pair.0, merged));
                } else {
                    let sub = kb[i].1.deep_copy();
                    ka.push((kb[i].0.clone(), sub));
                }
                proof {
                    lemma_kids_view(ka@);
                    let knew = kids_view(ka@);
                    let k = kbv[i as int].0;
                    let bv = kbv[i as int].1;
                    if j < kav.len() {
                        assert(knew =~= kav.update(j as int, (k, merge_view(kav[j as int].1, bv))));
                    } else {
                        assert(knew =~= kav.push((k, bv)));
                    }
                    assert(kbv.skip(i as int).drop_first() =~= kbv.skip(i as int + 1));
                    assert(merge_kids(kav, kbv.skip(i as int)) == merge_kids(
                        knew,
                        kbv.skip(i as int + 1),
                    ));
                }
                i = i + 1;
            }
            proof {
                lemma_kids_view(kb@);
                assert(kids_view(kb@).skip(kb@.len() as int) =~= Seq::<
                    (Seq<char>, TreeShape),
                >::empty());
            }
            LocaleTree::Node(ka)
        },
        (_, other) => other.deep_copy(),
    }
}

/// A key that joins losslessly into a dotted path: non-empty and free of
/// dots.
pub open spec fn ok_key(k: Seq<char>) -> bool {
    k.len() > 0 && forall|i: int| 0 <= i < k.len() ==> k[i] != '.'
}

/// Every key of the tree joins losslessly.
pub open spec fn ok_keys(t: TreeShape) -> bool
    decreases t,
{
    match t {
        TreeShape::Leaf(_) => true,
        TreeShape::Node(kids) => forall|i: int|
            0 <= i < kids.len() ==> ok_key((#[trigger] kids[i]).0) && ok_keys(kids[i].1),
    }
}

/// Looking a key up skips a non-matching head.
pub proof fn lemma_child_cons(kids: Seq<(Seq<char>, TreeShape)>, key: Seq<char>)
    requires
        kids.len() > 0,
        kids.first().0 != key,
    ensures
        child(kids, key) == child(kids.drop_first(), key),
{
    let rest = kids.drop_first();
    lemma_key_index(kids, key);
    lemma_key_index(rest, key);
    if has_key(kids, key) {
        let w = choose|i: int| 0 <= i < kids.len() && (#[trigger] kids[i].0) == key;
        assert(rest[w - 1].0 == key);
        assert(has_key(rest, key));
    }
    if has_key(rest, key) {
        let w = choose|i: int| 0 <= i < rest.len() && (#[trigger] rest[i].0) == key;
        assert(kids[w + 1].0 == key);
        assert(has_key(kids, key));
        let ki = key_index(kids, key);
        let kr = key_index(rest, key);
        assert(rest[ki - 1].0 == key);
        assert(kids[kr + 1].0 == key);
        assert(ki - 1 == kr) by {
            if ki - 1 < kr {
                assert(rest[ki - 1].0 != key);
            }
            if kr < ki - 1 {
                assert(kids[kr + 1].0 != key);
            }
        }
    }
}

/// Updating the first child that carries a key, keeping its key, changes
/// lookups of that key alone.
pub proof fn lemma_child_update(
    kids: Seq<(Seq<char>, TreeShape)>,
    i: int,
    v: TreeShape,
    key: Seq<char>,
)
    requires
        0 <= i < kids.len(),
        i == key_index(kids, kids[i].0),
    ensures
        child(kids.update(i, (kids[i].0, v)), key) == if key == kids[i].0 {
            Some(v)
        } else {
            child(kids, key)
        },
{
    let k0 = kids[i].0;
    let upd = kids.update(i, (k0, v));
    assert(forall|t: int| 0 <= t < kids.len() ==> (#[trigger] upd[t]).0 == kids[t].0);
    lemma_key_index(kids, key);
    lemma_key_index(upd, key);
    if key == k0 {
        assert(upd[i].0 == key);
        assert(has_key(upd, key));
        let ku = key_index(upd, key);
        assert(ku == i) by {
            if ku < i {
                assert(kids[ku].0 != key);
                assert(upd[ku].0 == key);
            }
            if i < ku {
                assert(upd[i].0 != key);
            }
        }
    } else {
        if has_key(kids, key) {
            let ki = key_index(kids, key);
            assert(upd[ki].0 == key);
            assert(has_key(upd, key));
            let ku = key_index(upd, key);
            assert(ku == ki) by {
                if ku < ki {
                    assert(kids[ku].0 != key);
                    assert(upd[ku].0 == key);
                }
                if ki < ku {
                    assert(upd[ki].0 != key);
                }
            }
            assert(ki != i);
        } else {
            if has_key(upd, key) {
                let w = choose|t: int| 0 <= t < upd.len() && (#[trigger] upd[t].0) == key;
                assert(kids[w].0 == key);
            }
        }
    }
}

/// Appending a fresh key changes lookups of that key alone.
pub proof fn lemma_child_push(
    kids: Seq<(Seq<char>, TreeShape)>,
    k: Seq<char>,
    v: TreeShape,
    key: Seq<char>,
)
    requires
        !has_key(kids, k),
    ensures
        child(kids.push((k, v)), key) == if key == k {
            Some(v)
        } else {
            child(kids, key)
        },
{
    let ext = kids.push((k, v));
    lemma_key_index(kids, key);
    lemma_key_index(ext, key);
    assert(forall|t: int| 0 <= t < kids.len() ==> (#[trigger] ext[t]).0 == kids[t].0);
    assert(ext[kids.len() as int].0 == k);
    if key == k {
        assert(has_key(ext, key));
        let ku = key_index(ext, key);
        assert(ku == kids.len()) by {
            if ku < kids.len() {
                assert(kids[ku].0 == key);
                assert(has_key(kids, k));
            }
        }
    } else {
        if has_key(kids, key) {
            let ki = key_index(kids, key);
            assert(ext[ki].0 == key);
            assert(has_key(ext, key));
            let ku = key_index(ext, key);
            assert(ku == ki) by {
                if ku < ki {
                    assert(kids[ku].0 != key);
                    assert(ext[ku].0 == key);
                }
                if ki < ku {
                    assert(ext[ki].0 != key);
                }
            }
        } else {
            if has_key(ext, key) {
                let w = choose|t: int| 0 <= t < ext.len() && (#[trigger] ext[t].0) == key;
                assert(w < kids.len() ==> kids[w].0 == key);
                assert(w == kids.len() ==> ext[w].0 == k);
            }
        }
    }
}

/// What merging does to one key of a child list: values merge where both
/// sides carry the key, and the incoming side wins where only it does.
pub proof fn lemma_merge_kids_child(
    ka: Seq<(Seq<char>, TreeShape)>,
    kb: Seq<(Seq<char>, TreeShape)>,
    key: Seq<char>,
)
    requires
        forall|i: int, j: int|
            0 <= i < j < kb.len() ==> (#[trigger] kb[i].0) != (#[trigger] kb[j].0),
    ensures
        child(merge_kids(ka, kb), key) == (match (child(ka, key), child(kb, key)) {
            (Some(av), Some(bv)) => Some(merge_view(av, bv)),
            (None, Some(bv)) => Some(bv),
            (Some(av), None) => Some(av),
            (None, None) => None::<TreeShape>,
        }),
    decreases kb.len(),
{
    if kb.len() == 0 {
        assert(!has_key(kb, key));
    } else {
        let k = kb.first().0;
        let bv = kb.first().1;
        let rest = kb.drop_first();
        lemma_key_index(ka, k);
        let i = key_index(ka, k);
        let ka2 = if i < ka.len() {
            ka.update(i, (k, merge_view(ka[i].1, bv)))
        } else {
            ka.push((k, bv))
        };
        assert(forall|s: int, t: int|
            0 <= s < t < rest.len() ==> (#[trigger] rest[s].0) != (#[trigger] rest[t].0));
        lemma_merge_kids_child(ka2, rest, key);
        // the head key occurs nowhere in the rest
        assert(!has_key(rest, k)) by {
            if has_key(rest, k) {
                let w = choose|t: int| 0 <= t < rest.len() && (#[trigger] rest[t].0) == k;
                assert(kb[w + 1].0 == k);
                assert(kb[0].0 == k);
            }
        }
        lemma_key_index(rest, k);
        lemma_key_index(kb, key);
        lemma_key_index(rest, key);
        if key == k {
            assert(child(kb, key) == Some(bv));
            assert(child(rest, k) is None);
            if i < ka.len() {
                assert(ka[i].0 == k);
                lemma_child_update(ka, i, merge_view(ka[i].1, bv), key);
                assert(child(ka2, key) == Some(merge_view(ka[i].1, bv)));
                assert(child(ka, key) == Some(ka[i].1));
            } else {
                assert(!has_key(ka, k));
                lemma_child_push(ka, k, bv, key);
                assert(child(ka2, key) == Some(bv));
                assert(child(ka, key) is None);
            }
        } else {
            lemma_child_cons(kb, key);
            if i < ka.len() {
                assert(ka[i].0 == k);
                lemma_child_update(ka, i, merge_view(ka[i].1, bv), key);
            } else {
                assert(!has_key(ka, k));
                lemma_child_push(ka, k, bv, key);
            }
            assert(child(ka2, key) == child(ka, key));
        }
    }
}

/// A path that reaches something still reaches something after truncation.
pub proof fn lemma_has_sub_prefix(t: TreeShape, p: Seq<Seq<char>>, i: int)
    requires
        0 <= i <= p.len(),
        has_sub(t, p),
    ensures
        has_sub(t, p.take(i)),
    decreases p.len(),
{
    if i == 0 {
        assert(p.take(0) =~= Seq::<Seq<char>>::empty());
    } else {
        match t {
            TreeShape::Leaf(_) => {},
            TreeShape::Node(kids) => {
                let c = child(kids, p.first()).unwrap();
                lemma_has_sub_prefix(c, p.drop_first(), i - 1);
                assert(p.take(i).first() == p.first());
                assert(p.take(i).drop_first() =~= p.drop_first().take(i - 1));
            },
        }
    }
}

/// What merging does to every path: the incoming tree's structure wins, and
/// the existing subtree survives exactly where the incoming tree neither
/// reaches it nor cuts it off with a leaf above it.
pub proof fn lemma_merge_subtree(a: TreeShape, b: TreeShape, p: Seq<Seq<char>>)
    requires
        wf_shape(b),
    ensures
        subtree_at(merge_view(a, b), p) == (match (subtree_at(a, p), subtree_at(b, p)) {
            (Some(sa), Some(sb)) => Some(merge_view(sa, sb)),
            (None, Some(sb)) => Some(sb),
            (Some(sa), None) => if leaf_above(b, p) {
                None
            } else {
                Some(sa)
            },
            (None, None) => None::<TreeShape>,
        }),
    decreases p.len(),
{
    if p.len() == 0 {
    } else {
        let k = p.first();
        let rest = p.drop_first();
        match b {
            TreeShape::Leaf(_) => {
                assert(p.take(0) =~= Seq::<Seq<char>>::empty());
                assert(leaf_at(b, p.take(0)) is Some);
                assert(leaf_above(b, p));
            },
            TreeShape::Node(kb) => {
                match a {
                    TreeShape::Leaf(_) => {},
                    TreeShape::Node(ka) => {
                        lemma_merge_kids_child(ka, kb, k);
                        lemma_key_index(kb, k);
                        match (child(ka, k), child(kb, k)) {
                            (Some(ak), Some(bk)) => {
                                assert(wf_shape(bk)) by {
                                    assert(kb[key_index(kb, k)].1 == bk);
                                }
                                lemma_merge_subtree(ak, bk, rest);
                                assert(leaf_above(b, p) <==> leaf_above(bk, rest)) by {
                                    if leaf_above(bk, rest) {
                                        let i = choose|i: int|
                                            0 <= i < rest.len() && leaf_at(
                                                bk,
                                                #[trigger] rest.take(i),
                                            ) is Some;
                                        assert(p.take(i + 1).first() == k);
                                        assert(p.take(i + 1).drop_first() =~= rest.take(i));
                                        assert(leaf_at(b, p.take(i + 1)) is Some);
                                        assert(leaf_above(b, p));
                                    }
                                    if leaf_above(b, p) {
                                        let i = choose|i: int|
                                            0 <= i < p.len() && leaf_at(
                                                b,
                                                #[trigger] p.take(i),
                                            ) is Some;
                                        assert(i > 0) by {
                                            if i == 0 {
                                                assert(p.take(0) =~= Seq::<Seq<char>>::empty());
                                            }
                                        }
                                        assert(p.take(i).first() == k);
                                        assert(p.take(i).drop_first() =~= rest.take(i - 1));
                                        assert(leaf_at(bk, rest.take(i - 1)) is Some);
                                        assert(leaf_above(bk, rest));
                                    }
                                }
                            },
                            (None, Some(bk)) => {},
                            (Some(ak), None) => {
                                assert(!leaf_above(b, p)) by {
                                    if leaf_above(b, p) {
                                        let i = choose|i: int|
                                            0 <= i < p.len() && leaf_at(
                                                b,
                                                #[trigger] p.take(i),
                                            ) is Some;
                                        if i == 0 {
                                            assert(p.take(0) =~= Seq::<Seq<char>>::empty());
                                        } else {
                                            assert(p.take(i).first() == k);
                                        }
                                    }
                                }
                            },
                            (None, None) => {},
                        }
                    },
                }
            },
        }
    }
}

/// What merging does to every leaf: the incoming tree's leaf wins; its
/// structure or a leaf above the path erases the existing leaf; and the
/// existing leaf survives everywhere the incoming tree is absent.
pub proof fn lemma_merge_leaf(a: TreeShape, b: TreeShape, p: Seq<Seq<char>>)
    requires
        wf_shape(b),
    ensures
        leaf_at(merge_view(a, b), p) == (if leaf_at(b, p) is Some {
            leaf_at(b, p)
        } else if has_sub(b, p) {
            None::<Seq<char>>
        } else if leaf_above(b, p) {
            None::<Seq<char>>
        } else {
            leaf_at(a, p)
        }),
{
    lemma_merge_subtree(a, b, p);
}

/// Merging keeps child lists well-shaped: keys stay distinct and every
/// merged child stays well-shaped.
pub proof fn lemma_merge_kids_wf(ka: Seq<(Seq<char>, TreeShape)>, kb: Seq<(Seq<char>, TreeShape)>)
    requires
        forall|i: int, j: int|
            0 <= i < j < ka.len() ==> (#[trigger] ka[i].0) != (#[trigger] ka[j].0),
        forall|i: int, j: int|
            0 <= i < j < kb.len() ==> (#[trigger] kb[i].0) != (#[trigger] kb[j].0),
        forall|i: int| 0 <= i < ka.len() ==> wf_shape(#[trigger] ka[i].1),
        forall|i: int| 0 <= i < kb.len() ==> wf_shape(#[trigger] kb[i].1),
    ensures
        forall|i: int, j: int|
            0 <= i < j < merge_kids(ka, kb).len() ==> (#[trigger] merge_kids(ka, kb)[i].0) != (
            #[trigger] merge_kids(ka, kb)[j].0),
        forall|i: int| 0 <= i < merge_kids(ka, kb).len() ==> wf_shape(
            #[trigger] merge_kids(ka, kb)[i].1,
        ),
    decreases kb,
{
    if kb.len() > 0 {
        let k = kb.first().0;
        let bv = kb.first().1;
        let rest = kb.drop_first();
        lemma_key_index(ka, k);
        let i = key_index(ka, k);
        let ka2 = if i < ka.len() {
            ka.update(i, (k, merge_view(ka[i].1, bv)))
        } else {
            ka.push((k, bv))
        };
        assert(wf_shape(kb[0].1));
        if i < ka.len() {
            lemma_merge_wf(ka[i].1, bv);
            assert(ka[i].0 == k);
            assert(forall|t: int| 0 <= t < ka.len() ==> (#[trigger] ka2[t]).0 == ka[t].0);
        } else {
            assert(!has_key(ka, k));
            assert(forall|s: int, t: int|
                0 <= s < t < ka2.len() ==> (#[trigger] ka2[s].0) != (#[trigger] ka2[t].0)) by {
                assert(forall|t: int| 0 <= t < ka.len() ==> (#[trigger] ka2[t]).0 == ka[t].0);
                assert forall|t: int| 0 <= t < ka.len() implies (#[trigger] ka2[t].0)
                    != ka2[ka.len() as int].0 by {
                    if ka[t].0 == k {
                        assert(has_key(ka, k));
                    }
                }
            }
        }
        assert(forall|s: int, t: int|
            0 <= s < t < rest.len() ==> (#[trigger] rest[s].0) != (#[trigger] rest[t].0));
        lemma_merge_kids_wf(ka2, rest);
        assert(merge_kids(ka, kb) == merge_kids(ka2, rest));
    }
}

/// Merging two well-shaped trees yields a well-shaped tree.
pub proof fn lemma_merge_wf(a: TreeShape, b: TreeShape)
    requires
        wf_shape(a),
        wf_shape(b),
    ensures
        wf_shape(merge_view(a, b)),
    decreases b,
{
    match (a, b) {
        (TreeShape::Node(ka), TreeShape::Node(kb)) => {
            lemma_merge_kids_wf(ka, kb);
            assert(merge_view(a, b) == TreeShape::Node(merge_kids(ka, kb)));
        },
        (_, _) => {},
    }
}

/// Merging keeps keys losslessly joinable: every key of the merged list is
/// a key of one side, and every merged child keeps its keys good.
pub proof fn lemma_merge_kids_ok(ka: Seq<(Seq<char>, TreeShape)>, kb: Seq<(Seq<char>, TreeShape)>)
    requires
        forall|i: int| 0 <= i < ka.len() ==> ok_key((#[trigger] ka[i]).0) && ok_keys(ka[i].1),
        forall|i: int| 0 <= i < kb.len() ==> ok_key((#[trigger] kb[i]).0) && ok_keys(kb[i].1),
    ensures
        forall|i: int|
            0 <= i < merge_kids(ka, kb).len() ==> ok_key((#[trigger] merge_kids(ka, kb)[i]).0)
                && ok_keys(merge_kids(ka, kb)[i].1),
    decreases kb,
{
    if kb.len() > 0 {
        let k = kb.first().0;
        let bv = kb.first().1;
        let rest = kb.drop_first();
        lemma_key_index(ka, k);
        let i = key_index(ka, k);
        let ka2 = if i < ka.len() {
            ka.update(i, (k, merge_view(ka[i].1, bv)))
        } else {
            ka.push((k, bv))
        };
        assert(ok_key(kb[0].0) && ok_keys(kb[0].1));
        if i < ka.len() {
            lemma_merge_ok_keys(ka[i].1, bv);
        }
        assert(forall|t: int|
            0 <= t < rest.len() ==> #[trigger] rest[t] == kb[t + 1]);
        lemma_merge_kids_ok(ka2, rest);
        assert(merge_kids(ka, kb) == merge_kids(ka2, rest));
    }
}

/// Merging two trees with losslessly joinable keys yields one more.
pub proof fn lemma_merge_ok_keys(a: TreeShape, b: TreeShape)
    requires
        ok_keys(a),
        ok_keys(b),
    ensures
        ok_keys(merge_view(a, b)),
    decreases b,
{
    match (a, b) {
        (TreeShape::Node(ka), TreeShape::Node(kb)) => {
            lemma_merge_kids_ok(ka, kb);
            assert(merge_view(a, b) == TreeShape::Node(merge_kids(ka, kb)));
        },
        (_, _) => {},
    }
}

/// Merges `b` into `a` in place.
///
/// When both sides are mapping nodes the merge recurses key by key; anywhere
/// the incoming side is a leaf (or the existing side is), the incoming value
/// replaces the whole existing subtree, so the later source wins at leaf
/// granularity.
pub fn merge_value(a: &mut LocaleTree, b: &LocaleTree)
    ensures
        final(a)@ == merge_view(old(a)@, b@),
{
    let mut tmp = LocaleTree::Null;
    core::mem::swap(a, &mut tmp);
    let merged = merge_owned(tmp, b);
    *a = merged;
}

} // verus!
