use rust_i18n::LocaleState;
use rust_i18n::Error;
use rust_i18n::tree::LocaleTree;
use rust_i18n::table::{ResourceTable, locales_yaml_files_to_translation_map};
use rust_i18n::dispatch::{format_t, hello};

fn s(x: &str) -> String {
    x.to_string()
}

fn leaf(x: &str) -> LocaleTree {
    LocaleTree::Str(s(x))
}

fn node(kids: Vec<(&str, LocaleTree)>) -> LocaleTree {
    LocaleTree::Node(kids.into_iter().map(|(k, v)| (s(k), v)).collect())
}

fn args(pairs: &[(&str, &str)]) -> Vec<(String, String)> {
    pairs.iter().map(|(k, v)| (s(k), s(v))).collect()
}

/// A table from one tree per `(locale, tree)` file.
fn table(files: Vec<(&str, LocaleTree)>) -> ResourceTable {
    locales_yaml_files_to_translation_map(files.into_iter().map(|(l, t)| (s(l), t)).collect())
}

fn fmt(t: &ResourceTable, st: &LocaleState, path: &str, args_v: &Vec<(String, String)>) -> String {
    format_t(t, st, path, None, args_v).unwrap()
}

fn fmt_at(
    t: &ResourceTable,
    st: &LocaleState,
    path: &str,
    locale: &str,
    args_v: &Vec<(String, String)>,
) -> String {
    format_t(t, st, path, Some(locale), args_v).unwrap()
}

#[test]
fn it_foo_title() {
    let t = table(vec![("en", node(vec![("hello", leaf("Foo - Hello, World!"))]))]);
    let st = LocaleState::new();
    assert_eq!(fmt(&t, &st, "hello", &args(&[])), "Foo - Hello, World!");
}

#[test]
fn it_t() {
    let t = table(vec![
        (
            "en",
            node(vec![
                ("hello", leaf("Bar - Hello, World!")),
                (
                    "a",
                    node(vec![(
                        "very",
                        node(vec![(
                            "nested",
                            node(vec![(
                                "message",
                                leaf("Hello, %{name}. Your message is: %{msg}"),
                            )]),
                        )]),
                    )]),
                ),
                ("messages", node(vec![("hello", leaf("Hello, %{name}!"))])),
            ]),
        ),
        ("de", node(vec![("messages", node(vec![("hello", leaf("Hallo, %{name}!"))]))])),
    ]);
    let mut st = LocaleState::new();
    assert_eq!(fmt(&t, &st, "hello", &args(&[])), "Bar - Hello, World!");

    // Vars
    assert_eq!(
        fmt(&t, &st, "a.very.nested.message", &args(&[])),
        "Hello, %{name}. Your message is: %{msg}"
    );
    assert_eq!(
        fmt(&t, &st, "a.very.nested.message", &args(&[("name", "Jason")])),
        "Hello, Jason. Your message is: %{msg}"
    );
    assert_eq!(
        fmt(&t, &st, "a.very.nested.message", &args(&[("name", "Jason"), ("msg", "Bla bla")])),
        "Hello, Jason. Your message is: Bla bla"
    );

    st.set_locale("de");
    assert_eq!(fmt(&t, &st, "messages.hello", &args(&[("name", "world")])), "Hallo, world!");

    st.set_locale("en");
    assert_eq!(fmt(&t, &st, "messages.hello", &args(&[("name", "world")])), "Hello, world!");
}

#[test]
fn it_t_with_locale_and_args() {
    let t = table(vec![
        (
            "en",
            node(vec![
                ("hello", leaf("Bar - Hello, World!")),
                ("messages", node(vec![("hello", leaf("Hello, %{name}!"))])),
            ]),
        ),
        (
            "de",
            node(vec![
                ("hello", leaf("Bar - Hallo Welt!")),
                ("messages", node(vec![("hello", leaf("Hallo, %{name}!"))])),
            ]),
        ),
    ]);
    let mut st = LocaleState::new();
    assert_eq!(fmt_at(&t, &st, "hello", "de", &args(&[])), "Bar - Hallo Welt!");
    assert_eq!(fmt_at(&t, &st, "hello", "en", &args(&[])), "Bar - Hello, World!");

    st.set_locale("en");
    assert_eq!(fmt(&t, &st, "messages.hello", &args(&[("name", "Jason")])), "Hello, Jason!");
    assert_eq!(
        fmt_at(&t, &st, "messages.hello", "en", &args(&[("name", "Jason")])),
        "Hello, Jason!"
    );
    assert_eq!(
        fmt_at(&t, &st, "messages.hello", "en", &args(&[("name", "Jason")])),
        "Hello, Jason!"
    );
    assert_eq!(
        fmt_at(&t, &st, "messages.hello", "de", &args(&[("name", "Jason")])),
        "Hallo, Jason!"
    );
}

#[test]
fn it_with_merge_file() {
    let t = table(vec![
        ("en", node(vec![("user", node(vec![("title", leaf("User Title"))]))])),
        (
            "en",
            node(vec![(
                "messages",
                node(vec![("user", node(vec![("title", leaf("Message User Title"))]))]),
            )]),
        ),
    ]);
    let mut st = LocaleState::new();
    st.set_locale("en");
    assert_eq!(fmt(&t, &st, "user.title", &args(&[])), "User Title");
    assert_eq!(fmt(&t, &st, "messages.user.title", &args(&[])), "Message User Title");
}

#[test]
fn it_support_expr() {
    let t = table(vec![(
        "en",
        node(vec![("messages", node(vec![("hello", leaf("Hello, %{name}!"))]))]),
    )]);
    let mut st = LocaleState::new();
    st.set_locale("en");
    let name = "Jason Lee";
    let locale = "en";

    let key = "messages.hello";

    assert_eq!(fmt(&t, &st, "messages.hello", &args(&[("name", name)])), "Hello, Jason Lee!");
    assert_eq!(fmt(&t, &st, key, &args(&[("name", name)])), "Hello, Jason Lee!");

    assert_eq!(
        fmt(&t, &st, "messages.hello", &vec![(s("name"), name.to_string())]),
        "Hello, Jason Lee!"
    );
    assert_eq!(
        fmt(&t, &st, "messages.hello", &vec![(s("name"), format!("this is {}", name))]),
        "Hello, this is Jason Lee!"
    );

    assert_eq!(fmt_at(&t, &st, "messages.hello", locale, &args(&[])), "Hello, %{name}!");

    assert_eq!(
        fmt_at(&t, &st, "messages.hello", locale, &args(&[("name", name)])),
        "Hello, Jason Lee!"
    );
    assert_eq!(
        fmt_at(&t, &st, "messages.hello", &locale.to_string(), &args(&[("name", name)])),
        "Hello, Jason Lee!"
    );
}

#[test]
fn dispatch_follows_active_locale_and_override() {
    let t = table(vec![
        ("en", node(vec![("hello", leaf("Hello, %{name}!"))])),
        ("fr", node(vec![("hello", leaf("Bonjour, %{name}!"))])),
    ]);
    let mut st = LocaleState::new();
    assert_eq!(fmt(&t, &st, "hello", &args(&[("name", "World")])), "Hello, World!");
    st.set_locale("fr");
    assert_eq!(fmt(&t, &st, "hello", &args(&[("name", "World")])), "Bonjour, World!");
    st.set_locale("en");
    assert_eq!(fmt_at(&t, &st, "hello", "fr", &args(&[("name", "World")])), "Bonjour, World!");
}

#[test]
fn missing_locale_falls_back_to_sentinel() {
    let t = table(vec![("en", node(vec![("x", leaf("present"))]))]);
    let mut st = LocaleState::new();
    st.set_locale("de");
    assert_eq!(fmt(&t, &st, "x", &args(&[])), "<missing translation>");
}

#[test]
fn nested_path_flattens_and_passes_unknown_placeholders_through() {
    let t = table(vec![(
        "en",
        node(vec![(
            "a",
            node(vec![(
                "very",
                node(vec![(
                    "nested",
                    node(vec![("message", leaf("Hello, %{name}. Your message is: %{msg}"))]),
                )]),
            )]),
        )]),
    )]);
    let st = LocaleState::new();
    assert_eq!(
        fmt(&t, &st, "a.very.nested.message", &args(&[("name", "Jason")])),
        "Hello, Jason. Your message is: %{msg}"
    );
}

#[test]
fn unknown_path_is_a_hard_error_with_known_paths() {
    let t = table(vec![("en", node(vec![("hello", leaf("hi"))]))]);
    let st = LocaleState::new();
    match format_t(&t, &st, "absent.path", None, &args(&[])) {
        Err(Error::UnknownPath { path, known }) => {
            assert_eq!(path, "absent.path");
            assert_eq!(known, vec![s("hello")]);
        },
        _ => panic!("expected an unknown-path error"),
    }
}

#[test]
fn emit_generates_one_branch_per_locale() {
    let t = table(vec![
        ("en", node(vec![("hello", leaf("Hello, %{name}!"))])),
        ("de", node(vec![("hello", leaf("Hallo, %{name}!"))])),
    ]);
    let call = rust_i18n::callsite::FormatArgs::parse(r#""hello", name = name"#).unwrap();
    let code = rust_i18n::dispatch::emit_dispatch(&t, &call, "rust_i18n").unwrap();
    let expected = "match rust_i18n::locale() {\n    \"en\" => { ::std::format!(\"Hello, {name}!\", name = name) },\n    \"de\" => { ::std::format!(\"Hallo, {name}!\", name = name) },\n    _ => { \"<missing translation>\".to_owned() },\n}";
    assert_eq!(code, expected);
}

#[test]
fn emit_rejects_an_unknown_path() {
    let t = table(vec![("en", node(vec![("hello", leaf("hi"))]))]);
    let call = rust_i18n::callsite::FormatArgs::parse(r#""nope""#).unwrap();
    match rust_i18n::dispatch::emit_dispatch(&t, &call, "rust_i18n") {
        Err(Error::UnknownPath { path, known }) => {
            assert_eq!(path, "nope");
            assert_eq!(known, vec![s("hello")]);
        },
        _ => panic!("expected an unknown-path error"),
    }
}

#[test]
fn emitted_templates_escape_quotes() {
    let t = table(vec![("en", node(vec![("q", leaf("say \"%{word}\""))]))]);
    let call = rust_i18n::callsite::FormatArgs::parse(r#""q", word = w"#).unwrap();
    let code = rust_i18n::dispatch::emit_dispatch(&t, &call, "crate").unwrap();
    let expected = "match crate::locale() {\n    \"en\" => { ::std::format!(\"say \\\"{word}\\\"\", word = w) },\n    _ => { \"<missing translation>\".to_owned() },\n}";
    assert_eq!(code, expected);
}

#[test]
fn locale_state_defaults_to_en() {
    let mut st = LocaleState::new();
    assert_eq!(st.locale(), "en");
    st.set_locale("zh-CN");
    assert_eq!(st.locale(), "zh-CN");
    let d = LocaleState::default();
    assert_eq!(d.locale(), "en");
}

#[test]
fn hello_walks_the_example_calls() {
    let t = table(vec![(
        "en",
        node(vec![
            ("hello", leaf("Hello world")),
            (
                "views",
                node(vec![(
                    "message",
                    node(vec![
                        ("title", leaf("%{name}'s title")),
                        ("description", leaf("written by %{name}")),
                    ]),
                )]),
            ),
        ]),
    )]);
    let st = LocaleState::new();
    let out = hello(&t, &st);
    assert_eq!(out.len(), 7);
    assert_eq!(out[0], "Hello world");
    assert_eq!(out[1], "Jason's title");
    assert_eq!(out[2], "written by Jason");
    assert_eq!(out[3], "<missing translation>");
    assert_eq!(out[4], "<missing translation>");
    assert_eq!(out[5], "<missing translation>");
    assert_eq!(out[6], "<missing translation>");
}
