use rust_i18n::callsite::{FormatArg, FormatArgs};

fn s(x: &str) -> String {
    x.to_string()
}

#[test]
fn roundtrip_fmtarg_ident_eq_ident() {
    let seed = FormatArg::AliasEqIdent { alias: s("mynameis"), ident: s("alois") };
    let seed_str = seed.describe();
    let ts = seed.to_source();
    let reconstructed = FormatArg::parse(ts.as_str()).expect("Must parse, was ok before");
    assert_eq!(seed_str, reconstructed.describe());
}

#[test]
fn roundtrip_fmtarg_ident_eq_expr() {
    let seed = FormatArg::AliasEqExpr { alias: s("mynameis"), expr: s("{ int_a + int_b }") };
    let seed_str = seed.describe();
    let ts = seed.to_source();
    let reconstructed = FormatArg::parse(ts.as_str()).expect("Must parse, was ok before");
    assert_eq!(seed_str, reconstructed.describe());
}

#[test]
fn roundtrip_fmtargs() {
    let seed = FormatArgs {
        fmt_str: s("foo bar bay"),
        args: vec![
            FormatArg::AliasEqExpr { alias: s("mynameis007"), expr: s("{ int_a + int_b }") },
            FormatArg::AliasEqIdent { alias: s("mynameis7"), ident: s("value") },
        ],
    };
    let seed_str = seed.describe();
    let ts = seed.to_source();
    let reconstructed = FormatArgs::parse(ts.as_str()).expect("Must parse, was ok before");
    assert_eq!(seed_str, reconstructed.describe());
}

#[test]
fn coll_arg_y() {
    FormatArg::parse("a").expect("FormatArg must parse. qed");
    FormatArg::parse(
        "b = {
            let x = foo?;
            x
        }",
    )
    .expect("FormatArg must parse. qed");
    FormatArg::parse("x = y").expect("FormatArg must parse. qed");
}

#[test]
fn coll_args() {
    FormatArgs::parse(r#""f.b.q""#).expect("FormatArgs must parse. qed");
    FormatArgs::parse(r#""f.b.q","#).expect("FormatArgs must parse. qed");
    FormatArgs::parse(r#""f.b.q", x"#).expect("FormatArgs must parse. qed");
    FormatArgs::parse(r#""f.b.q", x,"#).expect("FormatArgs must parse. qed");
    FormatArgs::parse(r#""a.b.c", foo=b, bar"#).expect("FormatArgs must parse. qed");
    FormatArgs::parse(r#""x.y.z", b = { let x = foo?; x }, foo = bar, poo"#)
        .expect("FormatArgs must parse. qed");
}

#[test]
fn parse_classifies_arguments() {
    let fa = FormatArgs::parse(r#""a.b.c", foo = b, bar, baz = f(x, y)"#).unwrap();
    assert_eq!(fa.fmt_str, "a.b.c");
    assert_eq!(fa.args.len(), 3);
    assert!(matches!(&fa.args[0], FormatArg::AliasEqIdent { alias, ident }
        if alias == "foo" && ident == "b"));
    assert!(matches!(&fa.args[1], FormatArg::Ident { ident } if ident == "bar"));
    assert!(matches!(&fa.args[2], FormatArg::AliasEqExpr { alias, expr }
        if alias == "baz" && expr == "f(x, y)"));
}

#[test]
fn parse_tolerates_spacing() {
    let tight = FormatArgs::parse(r#""a.b.c",x=y"#).unwrap();
    let loose = FormatArgs::parse("  \"a.b.c\" ,  x  =  y  ").unwrap();
    assert_eq!(tight.describe(), loose.describe());
    // the path literal itself is never whitespace-normalized
    let spaced = FormatArgs::parse(r#""a  .  b""#).unwrap();
    assert_eq!(spaced.fmt_str, "a  .  b");
}

#[test]
fn parse_errors_carry_a_position() {
    match FormatArgs::parse("no_literal") {
        Err(rust_i18n::Error::Parse { pos }) => assert_eq!(pos, 0),
        other => panic!("expected a parse error, got {:?}", other.is_ok()),
    }
    match FormatArgs::parse(r#""a.b.c", 1bad"#) {
        Err(rust_i18n::Error::Parse { pos }) => assert_eq!(pos, 9),
        other => panic!("expected a parse error, got {:?}", other.is_ok()),
    }
    match FormatArgs::parse(r#""unterminated"#) {
        Err(rust_i18n::Error::Parse { pos }) => assert_eq!(pos, 13),
        other => panic!("expected a parse error, got {:?}", other.is_ok()),
    }
}
