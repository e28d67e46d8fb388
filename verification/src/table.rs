//! The resource table: `path -> locale -> template`, built by merging every
//! source file per locale and flattening each merged tree.
use vstd::prelude::*;
use crate::tree::{LocaleTree, TreeShape, merge_view, merge_value};
use crate::flatten::{joined_entries, flatten_tree};

verus! {

/// Whether some pair of `s` carries key `k`.
pub open spec fn ahas_key<V>(s: Seq<(Seq<char>, V)>, k: Seq<char>) -> bool {
    exists|i: int| 0 <= i < s.len() && (#[trigger] s[i].0) == k
}

/// The first index of `s` whose key is `k`, or the length when none is.
pub open spec fn akey_index<V>(s: Seq<(Seq<char>, V)>, k: Seq<char>) -> int
    decreases s.len(),
{
    if s.len() == 0 {
        0
    } else if s.first().0 == k {
        0
    } else {
        1 + akey_index(s.drop_first(), k)
    }
}

/// The value of the first pair carrying key `k`, if any.
pub open spec fn alookup<V>(s: Seq<(Seq<char>, V)>, k: Seq<char>) -> Option<V> {
    if ahas_key(s, k) {
        Some(s[akey_index(s, k)].1)
    } else {
        None
    }
}

/// `akey_index` is the first match, in range exactly when a match exists.
pub proof fn lemma_akey_index<V>(s: Seq<(Seq<char>, V)>, k: Seq<char>)
    ensures
        0 <= akey_index(s, k) <= s.len(),
        ahas_key(s, k) <==> akey_index(s, k) < s.len(),
        akey_index(s, k) < s.len() ==> s[akey_index(s, k)].0 == k,
        forall|t: int| 0 <= t < akey_index(s, k) ==> (#[trigger] s[t].0) != k,
    decreases s.len(),
{
    if s.len() > 0 && s.first().0 != k {
        lemma_akey_index(s.drop_first(), k);
        assert(forall|i: int|
            0 <= i < s.drop_first().len() ==> #[trigger] s.drop_first()[i] == s[i + 1]);
        if ahas_key(s, k) {
            let w = choose|i: int| 0 <= i < s.len() && (#[trigger] s[i].0) == k;
            assert(s.drop_first()[w - 1].0 == k);
            assert(ahas_key(s.drop_first(), k));
        }
        if ahas_key(s.drop_first(), k) {
            let w = choose|i: int|
                0 <= i < s.drop_first().len() && (#[trigger] s.drop_first()[i].0) == k;
            assert(s[w + 1].0 == k);
        }
        assert forall|t: int| 0 <= t < akey_index(s, k) implies (#[trigger] s[t].0) != k by {
            if t > 0 {
                assert(s.drop_first()[t - 1].0 != k);
            }
        }
    }
}

/// Updating the first pair that carries a key, keeping its key, changes
/// lookups of that key alone.
pub proof fn lemma_alookup_update<V>(s: Seq<(Seq<char>, V)>, i: int, v: V, key: Seq<char>)
    requires
        0 <= i < s.len(),
        i == akey_index(s, s[i].0),
    ensures
        alookup(s.update(i, (s[i].0, v)), key) == if key == s[i].0 {
            Some(v)
        } else {
            alookup(s, key)
        },
{
    let k0 = s[i].0;
    let upd = s.update(i, (k0, v));
    assert(forall|t: int| 0 <= t < s.len() ==> (#[trigger] upd[t]).0 == s[t].0);
    lemma_akey_index(s, key);
    lemma_akey_index(upd, key);
    if key == k0 {
        assert(upd[i].0 == key);
        assert(ahas_key(upd, key));
        let ku = akey_index(upd, key);
        assert(ku == i) by {
            if ku < i {
                assert(s[ku].0 != key);
                assert(upd[ku].0 == key);
            }
            if i < ku {
                assert(upd[i].0 != key);
            }
        }
    } else {
        if ahas_key(s, key) {
            let ki = akey_index(s, key);
            assert(upd[ki].0 == key);
            assert(ahas_key(upd, key));
            let ku = akey_index(upd, key);
            assert(ku == ki) by {
                if ku < ki {
                    assert(s[ku].0 != key);
                    assert(upd[ku].0 == key);
                }
                if ki < ku {
                    assert(upd[ki].0 != key);
                }
            }
            assert(ki != i);
        } else {
            if ahas_key(upd, key) {
                let w = choose|t: int| 0 <= t < upd.len() && (#[trigger] upd[t].0) == key;
                assert(s[w].0 == key);
            }
        }
    }
}

/// Appending a pair leaves every earlier key's lookup alone and serves the
/// appended key only where it was absent before.
pub proof fn lemma_alookup_push<V>(s: Seq<(Seq<char>, V)>, x: (Seq<char>, V), key: Seq<char>)
    ensures
        alookup(s.push(x), key) == if ahas_key(s, key) {
            alookup(s, key)
        } else if key == x.0 {
            Some(x.1)
        } else {
            None::<V>
        },
{
    let ext = s.push(x);
    lemma_akey_index(s, key);
    lemma_akey_index(ext, key);
    assert(forall|t: int| 0 <= t < s.len() ==> (#[trigger] ext[t]).0 == s[t].0);
    assert(ext[s.len() as int] == x);
    if ahas_key(s, key) {
        let ki = akey_index(s, key);
        assert(ext[ki].0 == key);
        assert(ahas_key(ext, key));
        let ku = akey_index(ext, key);
        assert(ku == ki) by {
            if ku < ki {
                assert(s[ku].0 != key);
                assert(ext[ku].0 == key);
            }
            if ki < ku {
                assert(ext[ki].0 != key);
            }
        }
    } else if key == x.0 {
        assert(ahas_key(ext, key));
        let ku = akey_index(ext, key);
        assert(ku == s.len()) by {
            if ku < s.len() {
                assert(s[ku].0 == key);
            }
        }
    } else {
        if ahas_key(ext, key) {
            let w = choose|t: int| 0 <= t < ext.len() && (#[trigger] ext[t].0) == key;
            assert(w < s.len() ==> s[w].0 == key);
            assert(w == s.len() ==> ext[w].0 == x.0);
        }
    }
}

/// The deep shape of a `(locale, template)` list.
pub open spec fn pairs_view(s: Seq<(String, String)>) -> Seq<(Seq<char>, Seq<char>)> {
    s.map_values(|p: (String, String)| (p.0@, p.1@))
}

/// The deep shape of a keyed list of trees (source files or merged trees).
pub open spec fn files_view(s: Seq<(String, LocaleTree)>) -> Seq<(Seq<char>, TreeShape)> {
    s.map_values(|f: (String, LocaleTree)| (f.0@, f.1@))
}

/// The canonical compiled artifact: for each resource path, the template
/// that each locale provides for it.
pub struct ResourceTable {
    /// One row per path; each row maps locales to templates. Lookups take
    /// the first match, and the builder never creates duplicate keys.
    pub rows: Vec<(String, Vec<(String, String)>)>,
}

/// The deep shape of the table's rows.
pub open spec fn rows_view(
    s: Seq<(String, Vec<(String, String)>)>,
) -> Seq<(Seq<char>, Seq<(Seq<char>, Seq<char>)>)> {
    s.map_values(|r: (String, Vec<(String, String)>)| (r.0@, pairs_view(r.1@)))
}

impl ResourceTable {
    /// The table's shape: its rows, deeply viewed.
    pub open spec fn view_rows(&self) -> Seq<(Seq<char>, Seq<(Seq<char>, Seq<char>)>)> {
        rows_view(self.rows@)
    }

    /// The template at `(path, locale)`, if any.
    pub open spec fn spec_get(&self, path: Seq<char>, locale: Seq<char>) -> Option<Seq<char>> {
        match alookup(self.view_rows(), path) {
            Some(r) => alookup(r, locale),
            None => None,
        }
    }

    /// Whether the table knows `path` at all.
    pub open spec fn has_path(&self, path: Seq<char>) -> bool {
        ahas_key(self.view_rows(), path)
    }

    /// An empty table.
    pub fn new() -> (r: ResourceTable)
        ensures
            r.view_rows() == Seq::<(Seq<char>, Seq<(Seq<char>, Seq<char>)>)>::empty(),
            forall|p: Seq<char>, l: Seq<char>| #[trigger] r.spec_get(p, l) is None,
            forall|p: Seq<char>| !(#[trigger] r.has_path(p)),
    {
        let rows: Vec<(String, Vec<(String, String)>)> = Vec::new();
        let r = ResourceTable { rows };
        proof {
            assert(r.view_rows() =~= Seq::<(Seq<char>, Seq<(Seq<char>, Seq<char>)>)>::empty());
        }
        r
    }

    /// Sets the template for `(path, locale)`; a later insert for the same
    /// pair wins over an earlier one.
    #[verifier::loop_isolation(false)]
    pub fn insert(&mut self, path: String, locale: String, template: String)
        ensures
            forall|p: Seq<char>, l: Seq<char>| #[trigger] final(self).spec_get(p, l) == if p
                == path@ && l == locale@ {
                Some(template@)
            } else {
                old(self).spec_get(p, l)
            },
            forall|p: Seq<char>| #[trigger] final(self).has_path(p) == (p == path@ || old(
                self,
            ).has_path(p)),
    {
        let ghost rv0 = self.view_rows();
        proof {
            lemma_akey_index(rv0, path@);
        }
        let i = find_row(&self.rows, &path);
        if i < self.rows.len() {
            let mut row = self.rows.remove(i);
            let ghost pv0 = pairs_view(row.1@);
            proof {
                lemma_akey_index(pv0, locale@);
            }
            let j = find_pair(&row.1, &locale);
            if j < row.1.len() {
                row.1.remove(j);
                row.1.insert(j, (locale, template));
            } else {
                row.1.push((locale, template));
            }
            let ghost pv1 = pairs_view(row.1@);
            self.rows.insert(i, row);
            proof {
                if akey_index(pv0, locale@) < pv0.len() {
                    assert(pv1 =~= pv0.update(j as int, (pv0[j as int].0, template@)));
                    assert(pv0[j as int].0 == locale@);
                } else {
                    assert(pv1 =~= pv0.push((locale@, template@)));
                }
                assert(self.view_rows() =~= rv0.update(i as int, (rv0[i as int].0, pv1)));
                assert(rv0[i as int].0 == path@);
                assert forall|p: Seq<char>, l: Seq<char>| #[trigger] self.spec_get(p, l) == if p
                    == path@ && l == locale@ {
                    Some(template@)
                } else {
                    old(self).spec_get(p, l)
                } by {
                    lemma_alookup_update(rv0, i as int, pv1, p);
                    if p == path@ {
                        if j < pv0.len() {
                            lemma_alookup_update(pv0, j as int, template@, l);
                        } else {
                            lemma_alookup_push(pv0, (locale@, template@), l);
                            assert(!ahas_key(pv0, locale@));
                        }
                    }
                }
                assert forall|p: Seq<char>| #[trigger] self.has_path(p) == (p == path@ || old(
                    self,
                ).has_path(p)) by {
                    lemma_alookup_update(rv0, i as int, pv1, p);
                    if p == path@ {
                        assert(ahas_key(rv0, p));
                    }
                }
            }
        } else {
            let mut pairs: Vec<(String, String)> = Vec::new();
            pairs.push((locale, template));
            let ghost pv1 = pairs_view(pairs@);
            self.rows.push((path, pairs));
            proof {
                assert(pv1 =~= seq![(locale@, template@)]);
                assert(self.view_rows() =~= rv0.push((path@, pv1)));
                assert(!ahas_key(rv0, path@));
                assert forall|p: Seq<char>, l: Seq<char>| #[trigger] self.spec_get(p, l) == if p
                    == path@ && l == locale@ {
                    Some(template@)
                } else {
                    old(self).spec_get(p, l)
                } by {
                    lemma_alookup_push(rv0, (path@, pv1), p);
                    if p == path@ {
                        lemma_akey_index(pv1, l);
                        assert(ahas_key(pv1, l) <==> l == locale@) by {
                            if ahas_key(pv1, l) {
                                let w = choose|t: int|
                                    0 <= t < pv1.len() && (#[trigger] pv1[t].0) == l;
                                assert(pv1[w].0 == locale@);
                            }
                            if l == locale@ {
                                assert(pv1[0].0 == l);
                            }
                        }
                    }
                }
                assert forall|p: Seq<char>| #[trigger] self.has_path(p) == (p == path@ || old(
                    self,
                ).has_path(p)) by {
                    lemma_alookup_push(rv0, (path@, pv1), p);
                    if self.has_path(p) {
                        let w = choose|t: int|
                            0 <= t < self.view_rows().len() && (#[trigger] self.view_rows()[t].0)
                                == p;
                        if w < rv0.len() {
                            assert(rv0[w].0 == p);
                        }
                    }
                    if p == path@ || old(self).has_path(p) {
                        if p == path@ {
                            assert(self.view_rows()[rv0.len() as int].0 == p);
                        } else {
                            let w = choose|t: int|
                                0 <= t < rv0.len() && (#[trigger] rv0[t].0) == p;
                            assert(self.view_rows()[w].0 == p);
                        }
                        assert(ahas_key(self.view_rows(), p));
                    }
                }
            }
        }
    }

    /// Every path the table knows, in row order.
    pub fn known_paths(&self) -> (r: Vec<String>)
        ensures
            r@.len() == self.view_rows().len(),
            forall|i: int|
                0 <= i < r@.len() ==> (#[trigger] r@[i])@ == self.view_rows()[i].0,
    {
        let mut out: Vec<String> = Vec::new();
        let mut i: usize = 0;
        while i < self.rows.len()
            invariant
                i <= self.rows@.len(),
                out@.len() == i,
                forall|j: int|
                    0 <= j < i ==> (#[trigger] out@[j])@ == self.view_rows()[j].0,
            decreases self.rows@.len() - i,
        {
            out.push(self.rows[i].0.clone());
            i = i + 1;
        }
        out
    }

    /// The template at `(path, locale)`, if the table holds one.
    pub fn get<'a>(&'a self, path: &str, locale: &str) -> (r: Option<&'a String>)
        ensures
            match r {
                Some(s) => self.spec_get(path@, locale@) == Some(s@),
                None => self.spec_get(path@, locale@) is None,
            },
    {
        let p = path.to_owned();
        let l = locale.to_owned();
        proof {
            lemma_akey_index(self.view_rows(), p@);
        }
        let i = find_row(&self.rows, &p);
        if i < self.rows.len() {
            proof {
                lemma_akey_index(pairs_view(self.rows@[i as int].1@), l@);
            }
            let j = find_pair(&self.rows[i].1, &l);
            if j < self.rows[i].1.len() {
                Some(&self.rows[i].1[j].1)
            } else {
                None
            }
        } else {
            None
        }
    }
}

/// One merged tree per locale, in order of first appearance: each source
/// file merges into its locale's tree, later files over earlier ones.
pub open spec fn merged_trees(files: Seq<(Seq<char>, TreeShape)>) -> Seq<(Seq<char>, TreeShape)>
    decreases files.len(),
{
    if files.len() == 0 {
        Seq::empty()
    } else {
        let m = merged_trees(files.drop_last());
        let l = files.last().0;
        let t = files.last().1;
        if ahas_key(m, l) {
            let i = akey_index(m, l);
            m.update(i, (m[i].0, merge_view(m[i].1, t)))
        } else {
            m.push((l, t))
        }
    }
}

/// The merged locales stay pairwise distinct.
pub proof fn lemma_merged_trees_distinct(files: Seq<(Seq<char>, TreeShape)>)
    ensures
        forall|i: int, j: int|
            0 <= i < j < merged_trees(files).len() ==> (#[trigger] merged_trees(files)[i].0) != (
            #[trigger] merged_trees(files)[j].0),
    decreases files.len(),
{
    if files.len() > 0 {
        lemma_merged_trees_distinct(files.drop_last());
        let m = merged_trees(files.drop_last());
        let l = files.last().0;
        lemma_akey_index(m, l);
        if ahas_key(m, l) {
            let i = akey_index(m, l);
            let upd = m.update(i, (m[i].0, merge_view(m[i].1, files.last().1)));
            assert(forall|t: int| 0 <= t < m.len() ==> (#[trigger] upd[t]).0 == m[t].0);
        } else {
            let ext = m.push((l, files.last().1));
            assert forall|t: int| 0 <= t < m.len() implies (#[trigger] ext[t].0) != ext[m.len() as int].0 by {
                if m[t].0 == l {
                    assert(ahas_key(m, l));
                }
            }
        }
    }
}

/// When every source tree is a well-shaped mapping with losslessly joinable
/// keys, so is every merged tree.
pub proof fn lemma_merged_trees_good(files: Seq<(Seq<char>, TreeShape)>)
    requires
        forall|i: int|
            0 <= i < files.len() ==> crate::tree::wf_shape((#[trigger] files[i]).1)
                && crate::tree::ok_keys(files[i].1) && files[i].1 is Node,
    ensures
        forall|j: int|
            0 <= j < merged_trees(files).len() ==> crate::tree::wf_shape(
                (#[trigger] merged_trees(files)[j]).1,
            ) && crate::tree::ok_keys(merged_trees(files)[j].1) && merged_trees(files)[j].1 is Node,
    decreases files.len(),
{
    if files.len() > 0 {
        let init = files.drop_last();
        assert(forall|i: int| 0 <= i < init.len() ==> #[trigger] init[i] == files[i]);
        lemma_merged_trees_good(init);
        let m = merged_trees(init);
        let l = files.last().0;
        let t = files.last().1;
        assert(files[files.len() - 1].1 == t);
        lemma_akey_index(m, l);
        if ahas_key(m, l) {
            let i = akey_index(m, l);
            crate::tree::lemma_merge_wf(m[i].1, t);
            crate::tree::lemma_merge_ok_keys(m[i].1, t);
        }
    }
}

/// With pairwise distinct paths, the last matching entry is the only one.
pub proof fn lemma_entries_last_unique(es: Seq<(Seq<char>, Seq<char>)>, x: Seq<char>)
    requires
        forall|i: int, j: int|
            0 <= i < j < es.len() ==> (#[trigger] es[i].0) != (#[trigger] es[j].0),
    ensures
        forall|i: int|
            0 <= i < es.len() && (#[trigger] es[i]).0 == x ==> entries_last(es, x) == Some(
                es[i].1,
            ),
        (forall|i: int| 0 <= i < es.len() ==> (#[trigger] es[i]).0 != x) ==> entries_last(
            es,
            x,
        ) is None,
    decreases es.len(),
{
    if es.len() > 0 {
        let init = es.drop_last();
        assert(forall|i: int| 0 <= i < init.len() ==> #[trigger] init[i] == es[i]);
        lemma_entries_last_unique(init, x);
        if es.last().0 == x {
            assert forall|i: int| 0 <= i < es.len() && (#[trigger] es[i]).0 == x implies
                entries_last(es, x) == Some(es[i].1) by {
                if i < es.len() - 1 {
                    assert(es[i].0 != es[es.len() - 1].0);
                }
            }
        } else {
            assert forall|i: int| 0 <= i < es.len() && (#[trigger] es[i]).0 == x implies
                entries_last(es, x) == Some(es[i].1) by {
                assert(i < es.len() - 1);
                assert(init[i].0 == x);
            }
        }
    }
}

/// The value of the last entry whose path is `path`, if any: the later
/// emitted entry wins.
pub open spec fn entries_last(es: Seq<(Seq<char>, Seq<char>)>, path: Seq<char>) -> Option<Seq<char>>
    decreases es.len(),
{
    if es.len() == 0 {
        None
    } else if es.last().0 == path {
        Some(es.last().1)
    } else {
        entries_last(es.drop_last(), path)
    }
}

/// What the built table holds at `(path, locale)`: the last flattened entry
/// for `path` in the locale's merged tree, if that locale contributed one.
pub open spec fn table_spec(
    files: Seq<(Seq<char>, TreeShape)>,
    path: Seq<char>,
    locale: Seq<char>,
) -> Option<Seq<char>> {
    match alookup(merged_trees(files), locale) {
        Some(t) => entries_last(joined_entries(t), path),
        None => None,
    }
}

/// Whether any locale's merged tree contributes an entry for `path`.
pub open spec fn table_knows_path(files: Seq<(Seq<char>, TreeShape)>, path: Seq<char>) -> bool {
    exists|j: int|
        0 <= j < merged_trees(files).len() && entries_last(
            joined_entries(#[trigger] merged_trees(files)[j].1),
            path,
        ) is Some
}

/// Builds the resource table from parsed per-locale trees, one pair per
/// source file in discovery order: trees of the same locale merge, later
/// files winning at leaf granularity, and each merged tree is flattened into
/// the table.
#[verifier::loop_isolation(false)]
pub fn locales_yaml_files_to_translation_map(files: Vec<(String, LocaleTree)>) -> (r: ResourceTable)
    ensures
        forall|p: Seq<char>, l: Seq<char>| #[trigger] r.spec_get(p, l) == table_spec(
            files_view(files@),
            p,
            l,
        ),
        forall|p: Seq<char>| #[trigger] r.has_path(p) == table_knows_path(files_view(files@), p),
{
    let ghost fv = files_view(files@);
    let mut merged: Vec<(String, LocaleTree)> = Vec::new();
    proof {
        assert(files_view(merged@) =~= merged_trees(fv.take(0)));
    }
    let mut i: usize = 0;
    while i < files.len()
        invariant
            i <= files@.len(),
            files_view(merged@) == merged_trees(fv.take(i as int)),
        decreases files@.len() - i,
    {
        let ghost mv = files_view(merged@);
        proof {
            lemma_akey_index(mv, files@[i as int].0@);
        }
        let j = find_locale(&merged, &files[i].0);
        if j < merged.len() {
            let mut row = merged.remove(j);
            merge_value(&mut row.1, &files[i].1);
            merged.insert(j, row);
            proof {
                assert(files_view(merged@) =~= mv.update(
                    j as int,
                    (mv[j as int].0, merge_view(mv[j as int].1, fv[i as int].1)),
                ));
            }
        } else {
            let t = files[i].1.deep_copy();
            merged.push((files[i].0.clone(), t));
            proof {
                assert(files_view(merged@) =~= mv.push((fv[i as int].0, fv[i as int].1)));
            }
        }
        proof {
            assert(fv.take(i as int + 1).drop_last() =~= fv.take(i as int));
            assert(fv.take(i as int + 1).last() == fv[i as int]);
        }
        i = i + 1;
    }
    proof {
        assert(fv.take(files@.len() as int) =~= fv);
        lemma_merged_trees_distinct(fv);
    }
    let ghost mv = files_view(merged@);
    let mut tbl = ResourceTable::new();
    let mut r: usize = 0;
    while r < merged.len()
        invariant
            r <= merged@.len(),
            files_view(merged@) == mv,
            mv == merged_trees(fv),
            forall|p: Seq<char>, l: Seq<char>| #[trigger] tbl.spec_get(p, l) == (match alookup(
                mv.take(r as int),
                l,
            ) {
                Some(t) => entries_last(joined_entries(t), p),
                None => None,
            }),
            forall|p: Seq<char>| #[trigger] tbl.has_path(p) == (exists|j: int|
                0 <= j < r && entries_last(joined_entries(mv[j].1), p) is Some),
        decreases merged@.len() - r,
    {
        let entries = flatten_tree(&merged[r].1);
        let ghost t = mv[r as int].1;
        let ghost lv = mv[r as int].0;
        let ghost je = joined_entries(t);
        proof {
            // this locale is new to the table: it is absent from the prefix
            assert(!ahas_key(mv.take(r as int), lv)) by {
                if ahas_key(mv.take(r as int), lv) {
                    let w = choose|w: int|
                        0 <= w < mv.take(r as int).len() && (#[trigger] mv.take(r as int)[w].0)
                            == lv;
                    assert(mv[w].0 == mv[r as int].0);
                }
            }
            assert(je.take(0) =~= Seq::<(Seq<char>, Seq<char>)>::empty());
        }
        let mut k: usize = 0;
        while k < entries.len()
            invariant
                k <= entries@.len(),
                forall|p: Seq<char>| #[trigger] tbl.spec_get(p, lv) == entries_last(
                    je.take(k as int),
                    p,
                ),
                forall|p: Seq<char>, l: Seq<char>|
                    l != lv ==> #[trigger] tbl.spec_get(p, l) == (match alookup(
                        mv.take(r as int),
                        l,
                    ) {
                        Some(t2) => entries_last(joined_entries(t2), p),
                        None => None,
                    }),
                forall|p: Seq<char>| #[trigger] tbl.has_path(p) == ((exists|j: int|
                    0 <= j < r && entries_last(joined_entries(mv[j].1), p) is Some) || entries_last(
                    je.take(k as int),
                    p,
                ) is Some),
            decreases entries@.len() - k,
        {
            let path = entries[k].0.clone();
            let locale = merged[r].0.clone();
            let template = entries[k].1.clone();
            tbl.insert(path, locale, template);
            proof {
                assert(je.take(k as int + 1).drop_last() =~= je.take(k as int));
                assert(je.take(k as int + 1).last() == je[k as int]);
            }
            k = k + 1;
        }
        proof {
            assert(je.take(entries@.len() as int) =~= je);
            assert(mv.take(r as int + 1).drop_last() =~= mv.take(r as int));
            assert(mv.take(r as int + 1) =~= mv.take(r as int).push(mv[r as int]));
            assert forall|p: Seq<char>, l: Seq<char>| #[trigger] tbl.spec_get(p, l) == (match
                alookup(mv.take(r as int + 1), l) {
                Some(t2) => entries_last(joined_entries(t2), p),
                None => None,
            }) by {
                lemma_alookup_push(mv.take(r as int), mv[r as int], l);
            }
            assert forall|p: Seq<char>| #[trigger] tbl.has_path(p) == (exists|j: int|
                0 <= j < r + 1 && entries_last(joined_entries(mv[j].1), p) is Some) by {
                if tbl.has_path(p) {
                    if entries_last(je, p) is Some {
                        assert(entries_last(joined_entries(mv[r as int].1), p) is Some);
                    }
                }
                if exists|j: int|
                    0 <= j < r + 1 && entries_last(joined_entries(mv[j].1), p) is Some {
                    let w = choose|j: int|
                        0 <= j < r + 1 && entries_last(
                            joined_entries(#[trigger] mv[j].1),
                            p,
                        ) is Some;
                    if w < r {
                        assert(exists|j: int|
                            0 <= j < r && entries_last(
                                joined_entries(#[trigger] mv[j].1),
                                p,
                            ) is Some);
                    } else {
                        assert(entries_last(je, p) is Some);
                    }
                }
            }
        }
        r = r + 1;
    }
    proof {
        assert(mv.take(merged@.len() as int) =~= mv);
    }
    tbl
}

/// The first row index whose path equals `path`, or the row count.
#[verifier::loop_isolation(false)]
fn find_row(rows: &Vec<(String, Vec<(String, String)>)>, path: &String) -> (r: usize)
    ensures
        r as int == akey_index(rows_view(rows@), path@),
{
    proof {
        lemma_akey_index(rows_view(rows@), path@);
    }
    let mut j: usize = 0;
    while j < rows.len() && rows[j].0 != *path
        invariant
            j <= rows@.len(),
            forall|t: int| 0 <= t < j ==> (#[trigger] rows@[t].0)@ != path@,
        decreases rows@.len() - j,
    {
        j = j + 1;
    }
    proof {
        if j < rows@.len() {
            assert(rows_view(rows@)[j as int].0 == path@);
        }
    }
    j
}

/// The first index of a keyed tree list whose locale equals `l`, or the
/// list's length.
#[verifier::loop_isolation(false)]
fn find_locale(rows: &Vec<(String, LocaleTree)>, l: &String) -> (r: usize)
    ensures
        r as int == akey_index(files_view(rows@), l@),
{
    proof {
        lemma_akey_index(files_view(rows@), l@);
    }
    let mut j: usize = 0;
    while j < rows.len() && rows[j].0 != *l
        invariant
            j <= rows@.len(),
            forall|t: int| 0 <= t < j ==> (#[trigger] rows@[t].0)@ != l@,
        decreases rows@.len() - j,
    {
        j = j + 1;
    }
    proof {
        if j < rows@.len() {
            assert(files_view(rows@)[j as int].0 == l@);
        }
    }
    j
}

/// The first pair index whose key equals `k`, or the pair count.
#[verifier::loop_isolation(false)]
pub(crate) fn find_pair(pairs: &Vec<(String, String)>, k: &String) -> (r: usize)
    ensures
        r as int == akey_index(pairs_view(pairs@), k@),
{
    proof {
        lemma_akey_index(pairs_view(pairs@), k@);
    }
    let mut j: usize = 0;
    while j < pairs.len() && pairs[j].0 != *k
        invariant
            j <= pairs@.len(),
            forall|t: int| 0 <= t < j ==> (#[trigger] pairs@[t].0)@ != k@,
        decreases pairs@.len() - j,
    {
        j = j + 1;
    }
    proof {
        if j < pairs@.len() {
            assert(pairs_view(pairs@)[j as int].0 == k@);
        }
    }
    j
}

} // verus!
