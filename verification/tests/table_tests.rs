use rust_i18n::tree::{LocaleTree, merge_value};
use rust_i18n::table::{ResourceTable, locales_yaml_files_to_translation_map};
use rust_i18n::flatten::{extract_vars, flatten_tree, rebuild, split_path};
use rust_i18n::codec::{serialize, deserialize};
use rust_i18n::extract::untranslated;

fn s(x: &str) -> String {
    x.to_string()
}

fn leaf(x: &str) -> LocaleTree {
    LocaleTree::Str(s(x))
}

fn node(kids: Vec<(&str, LocaleTree)>) -> LocaleTree {
    LocaleTree::Node(kids.into_iter().map(|(k, v)| (s(k), v)).collect())
}

fn table(files: Vec<(&str, LocaleTree)>) -> ResourceTable {
    locales_yaml_files_to_translation_map(files.into_iter().map(|(l, t)| (s(l), t)).collect())
}

fn sorted(mut v: Vec<(String, String)>) -> Vec<(String, String)> {
    v.sort();
    v
}

#[test]
fn ser_de_roundtrip() {
    let empty = ResourceTable::new();
    let bytes = serialize(&empty).unwrap();
    let reconstructed = deserialize(bytes.as_slice()).unwrap();
    assert!(reconstructed.rows.is_empty());
}

#[test]
fn trans_map_voodoo_works() {
    let tree = node(vec![
        ("The table below describes some of those behaviours.", leaf("w00t")),
        (
            "Use YAML for mapping localized text, and support mutiple YAML files merging.",
            leaf(""),
        ),
        ("a.very.nested.message", leaf("whatever")),
    ]);
    let trans_map = table(vec![("en", tree)]);
    assert_eq!(
        trans_map.get("The table below describes some of those behaviours.", "en"),
        Some(&s("w00t"))
    );
}

#[test]
fn ser_de_roundtrip_nonempty() {
    let t = table(vec![
        ("en", node(vec![("hello", leaf("Hello, %{name}!")), ("x", leaf("y"))])),
        ("zh-CN", node(vec![("hello", leaf("\u{4f60}\u{597d}")) ])),
    ]);
    let bytes = serialize(&t).unwrap();
    let back = deserialize(bytes.as_slice()).unwrap();
    assert_eq!(back.get("hello", "en"), Some(&s("Hello, %{name}!")));
    assert_eq!(back.get("x", "en"), Some(&s("y")));
    assert_eq!(back.get("hello", "zh-CN"), Some(&s("\u{4f60}\u{597d}")));
    assert_eq!(back.rows, t.rows);
}

#[test]
fn deserialize_rejects_truncated_or_corrupt_input() {
    let t = table(vec![("en", node(vec![("hello", leaf("hi"))]))]);
    let bytes = serialize(&t).unwrap();
    // truncated
    assert!(deserialize(&bytes[..bytes.len() - 1]).is_err());
    // trailing garbage
    let mut longer = bytes.clone();
    longer.push(0);
    assert!(deserialize(longer.as_slice()).is_err());
    // an oversized count
    assert!(deserialize(&[0xff; 8]).is_err());
    assert!(deserialize(&[]).is_err());
}

#[test]
fn merge_disjoint_subtrees_commutes() {
    let a = node(vec![("x", node(vec![("a", leaf("1"))]))]);
    let b = node(vec![("x", node(vec![("b", leaf("2"))])), ("y", leaf("3"))]);
    let mut ab = a.deep_copy();
    merge_value(&mut ab, &b);
    let mut ba = b.deep_copy();
    merge_value(&mut ba, &a);
    assert_eq!(sorted(flatten_tree(&ab)), sorted(flatten_tree(&ba)));
    let expected = sorted(vec![(s("x.a"), s("1")), (s("x.b"), s("2")), (s("y"), s("3"))]);
    assert_eq!(sorted(flatten_tree(&ab)), expected);
}

#[test]
fn merge_later_leaf_wins() {
    let a = node(vec![("k", leaf("old")), ("other", leaf("kept"))]);
    let b = node(vec![("k", leaf("new"))]);
    let mut merged = a.deep_copy();
    merge_value(&mut merged, &b);
    let flat = sorted(flatten_tree(&merged));
    assert_eq!(flat, sorted(vec![(s("k"), s("new")), (s("other"), s("kept"))]));
}

#[test]
fn merge_groups_either_way_for_disjoint_later_sources() {
    let a = node(vec![("x", node(vec![("a", leaf("1"))])), ("w", leaf("0"))]);
    let b = node(vec![("x", node(vec![("a", leaf("2"), )])), ("y", leaf("3"))]);
    let c = node(vec![("x", node(vec![("b", leaf("4"))])), ("z", leaf("5"))]);
    // fold to the left: (a + b) + c
    let mut left = a.deep_copy();
    merge_value(&mut left, &b);
    merge_value(&mut left, &c);
    // fold to the right: a + (b + c)
    let mut later = b.deep_copy();
    merge_value(&mut later, &c);
    let mut right = a.deep_copy();
    merge_value(&mut right, &later);
    assert_eq!(sorted(flatten_tree(&left)), sorted(flatten_tree(&right)));
}

#[test]
fn merge_demotes_a_subtree_to_a_leaf() {
    let t = table(vec![
        ("en", node(vec![("user", node(vec![("title", leaf("User Title"))]))])),
        ("en", node(vec![("user", leaf("flat value"))])),
    ]);
    assert_eq!(t.get("user", "en"), Some(&s("flat value")));
    assert_eq!(t.get("user.title", "en"), None);
}

#[test]
fn flatten_rebuild_round_trip() {
    let t = node(vec![
        ("a", node(vec![("b", leaf("1")), ("c", node(vec![("d", leaf("2"))]))])),
        ("e", leaf("3")),
        ("bools", node(vec![("t", LocaleTree::Bool(true)), ("f", LocaleTree::Bool(false))])),
    ]);
    let flat = flatten_tree(&t);
    let back = rebuild(&flat);
    assert_eq!(sorted(flatten_tree(&back)), sorted(flat));
}

#[test]
fn flatten_emits_distinct_paths() {
    let t = node(vec![
        ("a", node(vec![("b", leaf("1")), ("c", leaf("2"))])),
        ("d", node(vec![("b", leaf("3"))])),
    ]);
    let flat = flatten_tree(&t);
    for i in 0..flat.len() {
        for j in 0..flat.len() {
            if i != j {
                assert_ne!(flat[i].0, flat[j].0);
            }
        }
    }
}

#[test]
fn split_path_splits_at_every_dot() {
    assert_eq!(split_path("a.b.c"), vec![s("a"), s("b"), s("c")]);
    assert_eq!(split_path("plain"), vec![s("plain")]);
    assert_eq!(split_path("a..b"), vec![s("a"), s(""), s("b")]);
}

#[test]
fn extract_vars_prefixes_every_path() {
    let t = node(vec![
        ("hello", leaf("Hello world")),
        ("messages", node(vec![("hello", leaf("Hello, %{name}")) ])),
    ]);
    let vars = sorted(extract_vars("en", &t));
    assert_eq!(
        vars,
        sorted(vec![
            (s("en.hello"), s("Hello world")),
            (s("en.messages.hello"), s("Hello, %{name}")),
        ])
    );
}

#[test]
fn leaves_stringify_by_kind() {
    let t = node(vec![
        ("b", LocaleTree::Bool(true)),
        ("n", LocaleTree::Num(s("42"))),
        ("nothing", LocaleTree::Null),
        ("list", LocaleTree::Arr),
    ]);
    let flat = sorted(flatten_tree(&t));
    assert_eq!(
        flat,
        sorted(vec![
            (s("b"), s("true")),
            (s("n"), s("42")),
            (s("nothing"), s("")),
            (s("list"), s("")),
        ])
    );
}

#[test]
fn untranslated_defaults_to_last_segment() {
    let t = table(vec![("en", node(vec![("done", leaf("finished"))]))]);
    let messages = vec![s("done"), s("menu.file.open"), s("menu.file.open"), s("plain")];
    let new_entries = untranslated(&messages, &t, "en");
    assert_eq!(new_entries, vec![(s("menu.file.open"), s("open")), (s("plain"), s("plain"))]);
    // the same key is untranslated for a locale the table never saw
    let for_de = untranslated(&vec![s("done")], &t, "de");
    assert_eq!(for_de, vec![(s("done"), s("done"))]);
}
