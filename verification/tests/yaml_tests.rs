use std::collections::HashMap;
use rust_i18n::tree::LocaleTree;
use rust_i18n::table::locales_yaml_files_to_translation_map;

/// Converts a parsed JSON-shaped value into the library's tree.
fn json_to_tree(v: &serde_json::Value) -> LocaleTree {
    match v {
        serde_json::Value::String(s) => LocaleTree::Str(s.clone()),
        serde_json::Value::Bool(b) => LocaleTree::Bool(*b),
        serde_json::Value::Null => LocaleTree::Null,
        serde_json::Value::Number(n) => LocaleTree::Num(n.to_string()),
        serde_json::Value::Array(_) => LocaleTree::Arr,
        serde_json::Value::Object(o) => {
            LocaleTree::Node(o.iter().map(|(k, vv)| (k.clone(), json_to_tree(vv))).collect())
        },
    }
}

#[test]
fn yaml_parsing_works() {
    let yaml_content = r###"---
en:
  The table below describes some of those behaviours.: "w00t"
  "Use YAML for mapping localized text, and support mutiple YAML files merging.": ""
  a.very.nested.message: whatever
"###;
    let trs: HashMap<String, serde_json::Value> = serde_yaml::from_str(yaml_content).unwrap();
    let files: Vec<(String, LocaleTree)> =
        trs.iter().map(|(l, v)| (l.clone(), json_to_tree(v))).collect();
    let trans_map = locales_yaml_files_to_translation_map(files);
    assert_eq!(
        trans_map.get("The table below describes some of those behaviours.", "en"),
        Some(&"w00t".to_string())
    );
    assert_eq!(trans_map.get("a.very.nested.message", "en"), Some(&"whatever".to_string()));
    assert_eq!(
        trans_map.get(
            "Use YAML for mapping localized text, and support mutiple YAML files merging.",
            "en"
        ),
        Some(&"".to_string())
    );
}
