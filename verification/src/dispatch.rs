//! Dispatch: resolving a resource path against the table, selecting a locale
//! and rendering the template with `%{name}`-style substitution.
use vstd::prelude::*;
use crate::LocaleState;
use crate::Error;
use crate::table::{ResourceTable, alookup, akey_index, lemma_akey_index, pairs_view};

verus! {

/// The fixed fallback text rendered when the selected locale has no
/// template for an otherwise known path.
pub open spec fn sentinel() -> Seq<char> {
    "<missing translation>"@
}

/// The first index at which `c` occurs in `s`, or the length when it never
/// does.
pub open spec fn index_of_char(s: Seq<char>, c: char) -> int
    decreases s.len(),
{
    if s.len() == 0 {
        0
    } else if s.first() == c {
        0
    } else {
        1 + index_of_char(s.drop_first(), c)
    }
}

/// `index_of_char` is the first occurrence, in range exactly when `c`
/// occurs.
pub proof fn lemma_index_of_char(s: Seq<char>, c: char)
    ensures
        0 <= index_of_char(s, c) <= s.len(),
        index_of_char(s, c) < s.len() ==> s[index_of_char(s, c)] == c,
        forall|t: int| 0 <= t < index_of_char(s, c) ==> s[t] != c,
    decreases s.len(),
{
    if s.len() > 0 && s.first() != c {
        lemma_index_of_char(s.drop_first(), c);
        assert(forall|i: int|
            0 <= i < s.drop_first().len() ==> #[trigger] s.drop_first()[i] == s[i + 1]);
        assert forall|t: int| 0 <= t < index_of_char(s, c) implies s[t] != c by {
            if t > 0 {
                assert(s.drop_first()[t - 1] != c);
            }
        }
    }
}

/// Substitutes `%{name}` placeholders: a supplied name is replaced by its
/// value, an unsupplied one stays exactly as authored, and everything else
/// passes through unchanged.
pub open spec fn subst(tpl: Seq<char>, args: Seq<(Seq<char>, Seq<char>)>) -> Seq<char>
    decreases tpl.len(),
    via subst_decreases
{
    if tpl.len() == 0 {
        tpl
    } else if tpl.len() >= 2 && tpl[0] == '%' && tpl[1] == '{' {
        let rest = tpl.skip(2);
        let j = index_of_char(rest, '}');
        if j == rest.len() {
            tpl
        } else {
            let name = rest.take(j);
            let tail = rest.skip(j + 1);
            match alookup(args, name) {
                Some(v) => v + subst(tail, args),
                None => seq!['%', '{'] + name + seq!['}'] + subst(tail, args),
            }
        }
    } else {
        seq![tpl[0]] + subst(tpl.drop_first(), args)
    }
}

#[via_fn]
proof fn subst_decreases(tpl: Seq<char>, args: Seq<(Seq<char>, Seq<char>)>) {
    if tpl.len() >= 2 && tpl[0] == '%' && tpl[1] == '{' {
        lemma_index_of_char(tpl.skip(2), '}');
    }
}

/// Relies on String::push: it appends the one character to the string.
#[verifier::external_body]
fn push_char(s: &mut String, c: char)
    ensures
        final(s)@ == old(s)@.push(c),
{
    s.push(c);
}

/// The first index at or after `from` holding `c`, or the length.
#[verifier::loop_isolation(false)]
pub(crate) fn scan_for(tpl: &str, from: usize, c: char) -> (r: usize)
    requires
        from <= tpl@.len() <= usize::MAX,
    ensures
        from <= r <= tpl@.len(),
        r as int - from == index_of_char(tpl@.skip(from as int), c),
{
    let n = tpl.unicode_len();
    let mut j = from;
    while j < n && tpl.get_char(j) != c
        invariant
            from <= j <= n,
            forall|t: int| from <= t < j ==> tpl@[t] != c,
        decreases n - j,
    {
        j = j + 1;
    }
    proof {
        let rest = tpl@.skip(from as int);
        lemma_index_of_char(rest, c);
        assert(forall|t: int| 0 <= t < rest.len() ==> #[trigger] rest[t] == tpl@[from + t]);
        if j < n {
            assert(rest[j - from] == c);
        }
        assert(j - from == index_of_char(rest, c)) by {
            if j - from < index_of_char(rest, c) {
                assert(tpl@[from + (j - from)] == c);
                assert(rest[j - from] == c);
            }
            if index_of_char(rest, c) < j - from {
                assert(rest[index_of_char(rest, c)] == c);
            }
        }
    }
    j
}

/// Renders a template against named argument values, substituting each
/// supplied `%{name}` and leaving unsupplied placeholders as authored.
#[verifier::loop_isolation(false)]
#[verifier::rlimit(60)]
pub fn render_template(tpl: &str, args: &Vec<(String, String)>) -> (r: String)
    ensures
        r@ == subst(tpl@, pairs_view(args@)),
{
    let ghost av = pairs_view(args@);
    let n = tpl.unicode_len();
    let mut out = String::new();
    let mut i: usize = 0;
    proof {
        assert(tpl@.skip(0) =~= tpl@);
        assert(out@ + subst(tpl@, av) =~= subst(tpl@, av));
    }
    while i < n
        invariant
            i <= n,
            out@ + subst(tpl@.skip(i as int), av) == subst(tpl@, av),
        decreases n - i,
    {
        let ghost cur = tpl@.skip(i as int);
        let c = tpl.get_char(i);
        proof {
            assert(cur[0] == tpl@[i as int]);
        }
        if c == '%' && i + 1 < n && tpl.get_char(i + 1) == '{' {
            proof {
                assert(cur[1] == tpl@[i as int + 1]);
            }
            let j = scan_for(tpl, i + 2, '}');
            proof {
                assert(cur.skip(2) =~= tpl@.skip(i as int + 2));
            }
            if j < n {
                let name = tpl.substring_char(i + 2, j).to_owned();
                proof {
                    assert(name@ =~= cur.skip(2).take(j - (i + 2)));
                    lemma_akey_index(av, name@);
                }
                let ghost out0 = out@;
                let idx = crate::table::find_pair(args, &name);
                if idx < args.len() {
                    out.append(args[idx].1.as_str());
                } else {
                    push_char(&mut out, '%');
                    push_char(&mut out, '{');
                    out.append(name.as_str());
                    push_char(&mut out, '}');
                }
                proof {
                    let rest = cur.skip(2);
                    let jj = j - (i + 2);
                    assert(rest =~= tpl@.skip(i as int + 2));
                    assert(index_of_char(rest, '}') == jj);
                    assert(rest.skip(jj + 1) =~= tpl@.skip(j as int + 1));
                    if idx < args@.len() {
                        assert(alookup(av, name@) == Some(av[idx as int].1));
                        assert(out@ == out0 + av[idx as int].1);
                        assert(subst(cur, av) == av[idx as int].1 + subst(
                            tpl@.skip(j as int + 1),
                            av,
                        ));
                    } else {
                        assert(alookup(av, name@) is None);
                        assert(out@ =~= out0 + (seq!['%', '{'] + name@ + seq!['}']));
                        assert(subst(cur, av) == (seq!['%', '{'] + name@ + seq!['}']) + subst(
                            tpl@.skip(j as int + 1),
                            av,
                        ));
                    }
                    assert(out@ + subst(tpl@.skip(j as int + 1), av) =~= out0 + subst(cur, av));
                    assert(out@ + subst(tpl@.skip(j as int + 1), av) == subst(tpl@, av));
                }
                i = j + 1;
            } else {
                // no closing brace: the tail passes through as authored
                let ghost out0 = out@;
                let mut k = i;
                while k < n
                    invariant
                        i <= k <= n,
                        out@ == out0 + tpl@.subrange(i as int, k as int),
                    decreases n - k,
                {
                    let ck = tpl.get_char(k);
                    push_char(&mut out, ck);
                    proof {
                        assert(out@ =~= out0 + tpl@.subrange(i as int, k as int + 1));
                    }
                    k = k + 1;
                }
                proof {
                    assert(index_of_char(cur.skip(2), '}') == cur.skip(2).len());
                    assert(subst(cur, av) == cur);
                    assert(tpl@.subrange(i as int, n as int) =~= cur);
                    assert(tpl@.skip(n as int) =~= Seq::<char>::empty());
                    assert(out@ + subst(tpl@.skip(n as int), av) =~= subst(tpl@, av));
                }
                i = n;
            }
        } else {
            push_char(&mut out, c);
            proof {
                assert(cur.drop_first() =~= tpl@.skip(i as int + 1));
                assert(subst(cur, av) == seq![cur[0]] + subst(cur.drop_first(), av));
                assert(out@ + subst(tpl@.skip(i as int + 1), av) =~= subst(tpl@, av));
            }
            i = i + 1;
        }
    }
    proof {
        assert(tpl@.skip(n as int) =~= Seq::<char>::empty());
        assert(out@ =~= subst(tpl@, av));
    }
    out
}

/// What a dispatch call renders once a locale is selected: the path's
/// template for that locale with the arguments substituted, or the sentinel
/// where the locale has no template for the path.
pub open spec fn rendered(
    table: &ResourceTable,
    locale: Seq<char>,
    path: Seq<char>,
    args: Seq<(Seq<char>, Seq<char>)>,
) -> Seq<char> {
    match table.spec_get(path, locale) {
        Some(tpl) => subst(tpl, args),
        None => sentinel(),
    }
}

/// Resolves one formatting call against the table.
///
/// A path the table does not know is a hard error carrying the known paths;
/// for a known path the call renders the override locale where one is given
/// and the active locale otherwise, falling back to the sentinel when that
/// locale has no template there.
pub fn format_t(
    table: &ResourceTable,
    state: &LocaleState,
    path: &str,
    locale: Option<&str>,
    args: &Vec<(String, String)>,
) -> (r: Result<String, Error>)
    ensures
        r is Ok <==> table.has_path(path@),
        r matches Ok(out) ==> out@ == rendered(
            table,
            (match locale {
                Some(l) => l@,
                None => state@,
            }),
            path@,
            pairs_view(args@),
        ),
        r matches Err(e) ==> (e matches Error::UnknownPath { path: p, known } && p@ == path@
            && known@.len() == table.view_rows().len() && (forall|i: int|
            0 <= i < known@.len() ==> (#[trigger] known@[i])@ == table.view_rows()[i].0)),
{
    let chosen: &str = match locale {
        Some(l) => l,
        None => state.locale(),
    };
    match table.get(path, chosen) {
        Some(tpl) => Ok(render_template(tpl.as_str(), args)),
        None => {
            // the path may be known while the chosen locale is not
            let p = path.to_owned();
            proof {
                lemma_akey_index(table.view_rows(), p@);
            }
            let i = find_row_of(table, &p);
            if i < table.rows.len() {
                Ok(missing_translation())
            } else {
                Err(Error::UnknownPath { path: p, known: table.known_paths() })
            }
        },
    }
}

/// The sentinel rendered for a missing locale.
pub fn missing_translation() -> (r: String)
    ensures
        r@ == sentinel(),
{
    proof {
        reveal_strlit("<missing translation>");
    }
    String::from_str("<missing translation>")
}

/// A template in the host's substitution syntax: each `%{name}` becomes
/// `{name}`, everything else, an unterminated placeholder included, stays
/// as authored.
pub open spec fn host_template(tpl: Seq<char>) -> Seq<char>
    decreases tpl.len(),
    via host_template_decreases
{
    if tpl.len() == 0 {
        tpl
    } else if tpl.len() >= 2 && tpl[0] == '%' && tpl[1] == '{' {
        let rest = tpl.skip(2);
        let j = index_of_char(rest, '}');
        if j == rest.len() {
            tpl
        } else {
            seq!['{'] + rest.take(j) + seq!['}'] + host_template(rest.skip(j + 1))
        }
    } else {
        seq![tpl[0]] + host_template(tpl.drop_first())
    }
}

#[via_fn]
proof fn host_template_decreases(tpl: Seq<char>) {
    if tpl.len() >= 2 && tpl[0] == '%' && tpl[1] == '{' {
        lemma_index_of_char(tpl.skip(2), '}');
    }
}

/// The text inside an emitted string literal: quotes and backslashes are
/// escaped, everything else stays itself.
pub open spec fn escaped(s: Seq<char>) -> Seq<char>
    decreases s.len(),
{
    if s.len() == 0 {
        s
    } else {
        (if s[0] == '"' {
            seq!['\\', '"']
        } else if s[0] == '\\' {
            seq!['\\', '\\']
        } else {
            seq![s[0]]
        }) + escaped(s.drop_first())
    }
}

/// Escaping one more character appends its escaped form.
proof fn lemma_escaped_take_step(s: Seq<char>, i: int)
    requires
        0 <= i < s.len(),
    ensures
        escaped(s.take(i + 1)) == escaped(s.take(i)) + (if s[i] == '"' {
            seq!['\\', '"']
        } else if s[i] == '\\' {
            seq!['\\', '\\']
        } else {
            seq![s[i]]
        }),
    decreases i,
{
    if i == 0 {
        assert(s.take(0) =~= Seq::<char>::empty());
        assert(s.take(1).first() == s[0]);
        assert(s.take(1).drop_first() =~= Seq::<char>::empty());
        assert(escaped(s.take(1)) =~= escaped(s.take(0)) + (if s[0] == '"' {
            seq!['\\', '"']
        } else if s[0] == '\\' {
            seq!['\\', '\\']
        } else {
            seq![s[0]]
        }));
    } else {
        lemma_escaped_take_step(s.drop_first(), i - 1);
        assert(s.take(i + 1).first() == s[0]);
        assert(s.take(i).first() == s[0]);
        assert(s.take(i + 1).drop_first() =~= s.drop_first().take(i));
        assert(s.take(i).drop_first() =~= s.drop_first().take(i - 1));
        assert(s.drop_first()[i - 1] == s[i]);
        assert(escaped(s.take(i + 1)) =~= escaped(s.take(i)) + (if s[i] == '"' {
            seq!['\\', '"']
        } else if s[i] == '\\' {
            seq!['\\', '\\']
        } else {
            seq![s[i]]
        }));
    }
}

/// Escapes text for an emitted string literal.
#[verifier::loop_isolation(false)]
fn escape_text(s: &str) -> (r: String)
    ensures
        r@ == escaped(s@),
{
    let n = s.unicode_len();
    let mut out = String::new();
    let mut i: usize = 0;
    proof {
        assert(s@.take(0) =~= Seq::<char>::empty());
        assert(out@ =~= escaped(s@.take(0)));
    }
    while i < n
        invariant
            i <= n,
            out@ == escaped(s@.take(i as int)),
        decreases n - i,
    {
        let c = s.get_char(i);
        if c == '"' {
            push_char(&mut out, '\\');
            push_char(&mut out, '"');
        } else if c == '\\' {
            push_char(&mut out, '\\');
            push_char(&mut out, '\\');
        } else {
            push_char(&mut out, c);
        }
        proof {
            lemma_escaped_take_step(s@, i as int);
            assert(out@ =~= escaped(s@.take(i as int + 1)));
        }
        i = i + 1;
    }
    proof {
        assert(s@.take(n as int) =~= s@);
    }
    out
}

/// Translates a template into the host's substitution syntax.
#[verifier::loop_isolation(false)]
#[verifier::rlimit(60)]
pub fn to_host_template(tpl: &str) -> (r: String)
    ensures
        r@ == host_template(tpl@),
{
    let n = tpl.unicode_len();
    let mut out = String::new();
    let mut i: usize = 0;
    proof {
        assert(tpl@.skip(0) =~= tpl@);
        assert(out@ + host_template(tpl@) =~= host_template(tpl@));
    }
    while i < n
        invariant
            i <= n,
            out@ + host_template(tpl@.skip(i as int)) == host_template(tpl@),
        decreases n - i,
    {
        let ghost cur = tpl@.skip(i as int);
        let c = tpl.get_char(i);
        proof {
            assert(cur[0] == tpl@[i as int]);
        }
        if c == '%' && i + 1 < n && tpl.get_char(i + 1) == '{' {
            proof {
                assert(cur[1] == tpl@[i as int + 1]);
            }
            let j = scan_for(tpl, i + 2, '}');
            proof {
                assert(cur.skip(2) =~= tpl@.skip(i as int + 2));
            }
            if j < n {
                let ghost out0 = out@;
                push_char(&mut out, '{');
                let name = tpl.substring_char(i + 2, j);
                out.append(name);
                push_char(&mut out, '}');
                proof {
                    let rest = cur.skip(2);
                    let jj = j - (i + 2);
                    assert(index_of_char(rest, '}') == jj);
                    assert(name@ =~= rest.take(jj));
                    assert(rest.skip(jj + 1) =~= tpl@.skip(j as int + 1));
                    assert(host_template(cur) == (seq!['{'] + rest.take(jj) + seq!['}'])
                        + host_template(tpl@.skip(j as int + 1)));
                    assert(out@ =~= out0 + (seq!['{'] + rest.take(jj) + seq!['}']));
                    assert(out@ + host_template(tpl@.skip(j as int + 1)) =~= out0 + host_template(
                        cur,
                    ));
                    assert(out@ + host_template(tpl@.skip(j as int + 1)) == host_template(tpl@));
                }
                i = j + 1;
            } else {
                let ghost out0 = out@;
                let mut k = i;
                while k < n
                    invariant
                        i <= k <= n,
                        out@ == out0 + tpl@.subrange(i as int, k as int),
                    decreases n - k,
                {
                    let ck = tpl.get_char(k);
                    push_char(&mut out, ck);
                    proof {
                        assert(out@ =~= out0 + tpl@.subrange(i as int, k as int + 1));
                    }
                    k = k + 1;
                }
                proof {
                    assert(index_of_char(cur.skip(2), '}') == cur.skip(2).len());
                    assert(host_template(cur) == cur);
                    assert(tpl@.subrange(i as int, n as int) =~= cur);
                    assert(tpl@.skip(n as int) =~= Seq::<char>::empty());
                    assert(out@ + host_template(tpl@.skip(n as int)) =~= host_template(tpl@));
                }
                i = n;
            }
        } else {
            push_char(&mut out, c);
            proof {
                assert(cur.drop_first() =~= tpl@.skip(i as int + 1));
                assert(host_template(cur) == seq![cur[0]] + host_template(cur.drop_first()));
                assert(out@ + host_template(tpl@.skip(i as int + 1)) =~= host_template(tpl@));
            }
            i = i + 1;
        }
    }
    proof {
        assert(tpl@.skip(n as int) =~= Seq::<char>::empty());
        assert(out@ =~= host_template(tpl@));
    }
    out
}

/// One emitted branch: the locale literal selects a host formatting call on
/// the translated template with the call site's arguments.
pub open spec fn emit_arm(locale: Seq<char>, tpl: Seq<char>, args_src: Seq<char>) -> Seq<char> {
    "    \""@ + escaped(locale) + "\" => { ::std::format!(\""@ + escaped(host_template(tpl))
        + "\""@ + args_src + ") },\n"@
}

/// The emitted branches for a path's locales, in table order.
pub open spec fn emit_arms(pairs: Seq<(Seq<char>, Seq<char>)>, args_src: Seq<char>) -> Seq<char>
    decreases pairs.len(),
{
    if pairs.len() == 0 {
        Seq::empty()
    } else {
        emit_arm(pairs.first().0, pairs.first().1, args_src) + emit_arms(
            pairs.drop_first(),
            args_src,
        )
    }
}

/// The whole emitted selection expression: one branch per known locale
/// matched against the active locale, and a catch-all yielding the
/// sentinel.
pub open spec fn emit_code(
    support: Seq<char>,
    pairs: Seq<(Seq<char>, Seq<char>)>,
    args_src: Seq<char>,
) -> Seq<char> {
    "match "@ + support + "::locale() {\n"@ + emit_arms(pairs, args_src)
        + "    _ => { \"<missing translation>\".to_owned() },\n}"@
}

/// Emitting one more branch appends that branch's text.
proof fn lemma_emit_arms_take_step(pairs: Seq<(Seq<char>, Seq<char>)>, args_src: Seq<char>, i: int)
    requires
        0 <= i < pairs.len(),
    ensures
        emit_arms(pairs.take(i + 1), args_src) == emit_arms(pairs.take(i), args_src) + emit_arm(
            pairs[i].0,
            pairs[i].1,
            args_src,
        ),
    decreases i,
{
    if i == 0 {
        assert(pairs.take(0) =~= Seq::<(Seq<char>, Seq<char>)>::empty());
        assert(pairs.take(1).first() == pairs[0]);
        assert(pairs.take(1).drop_first() =~= Seq::<(Seq<char>, Seq<char>)>::empty());
        assert(emit_arms(pairs.take(1), args_src) =~= emit_arms(pairs.take(0), args_src)
            + emit_arm(pairs[0].0, pairs[0].1, args_src));
    } else {
        lemma_emit_arms_take_step(pairs.drop_first(), args_src, i - 1);
        assert(pairs.take(i + 1).first() == pairs[0]);
        assert(pairs.take(i).first() == pairs[0]);
        assert(pairs.take(i + 1).drop_first() =~= pairs.drop_first().take(i));
        assert(pairs.take(i).drop_first() =~= pairs.drop_first().take(i - 1));
        assert(pairs.drop_first()[i - 1] == pairs[i]);
        assert(emit_arms(pairs.take(i + 1), args_src) =~= emit_arms(pairs.take(i), args_src)
            + emit_arm(pairs[i].0, pairs[i].1, args_src));
    }
}

/// Emits the dispatch code for one call site: the selection expression of
/// `emit_code` over the path's `(locale, template)` row, or the hard
/// unknown-path error carrying the known paths.
#[verifier::loop_isolation(false)]
#[verifier::rlimit(60)]
pub fn emit_dispatch(
    table: &ResourceTable,
    call: &crate::callsite::FormatArgs,
    support: &str,
) -> (r: Result<String, Error>)
    ensures
        r is Ok <==> table.has_path(call.fmt_str@),
        r matches Ok(s) ==> s@ == emit_code(
            support@,
            alookup(table.view_rows(), call.fmt_str@)->Some_0,
            crate::callsite::args_source_list(call@.args),
        ),
        r matches Err(e) ==> (e matches Error::UnknownPath { path: p, known } && p@ == call.fmt_str@
            && known@.len() == table.view_rows().len() && (forall|i: int|
            0 <= i < known@.len() ==> (#[trigger] known@[i])@ == table.view_rows()[i].0)),
{
    proof {
        lemma_akey_index(table.view_rows(), call.fmt_str@);
    }
    let row = find_row_of(table, &call.fmt_str);
    if row >= table.rows.len() {
        return Err(
            Error::UnknownPath { path: call.fmt_str.clone(), known: table.known_paths() },
        );
    }
    let ghost pv = pairs_view(table.rows@[row as int].1@);
    let args_src = call.args_source();
    let mut out = String::from_str("match ");
    out.append(support);
    out.append("::locale() {\n");
    proof {
        assert(pv.take(0) =~= Seq::<(Seq<char>, Seq<char>)>::empty());
        assert(out@ =~= "match "@ + support@ + "::locale() {\n"@ + emit_arms(
            pv.take(0),
            args_src@,
        ));
    }
    let ghost head = out@;
    let mut k: usize = 0;
    while k < table.rows[row].1.len()
        invariant
            k <= table.rows@[row as int].1@.len(),
            out@ == head + emit_arms(pv.take(k as int), args_src@),
        decreases table.rows@[row as int].1@.len() - k,
    {
        out.append("    \"");
        let loc = escape_text(table.rows[row].1[k].0.as_str());
        out.append(loc.as_str());
        out.append("\" => { ::std::format!(\"");
        let host = to_host_template(table.rows[row].1[k].1.as_str());
        let body = escape_text(host.as_str());
        out.append(body.as_str());
        out.append("\"");
        out.append(args_src.as_str());
        out.append(") },\n");
        proof {
            lemma_emit_arms_take_step(pv, args_src@, k as int);
            assert(pv[k as int].0 == table.rows@[row as int].1@[k as int].0@);
            assert(pv[k as int].1 == table.rows@[row as int].1@[k as int].1@);
            assert(out@ =~= head + emit_arms(pv.take(k as int + 1), args_src@));
        }
        k = k + 1;
    }
    out.append("    _ => { \"<missing translation>\".to_owned() },\n}");
    proof {
        assert(pv.take(table.rows@[row as int].1@.len() as int) =~= pv);
        assert(alookup(table.view_rows(), call.fmt_str@) == Some(pv));
        assert(out@ =~= emit_code(support@, pv, args_src@));
    }
    Ok(out)
}

/// Renders one call tolerantly: a path or locale the table does not serve
/// yields the sentinel instead of an error.
fn line(table: &ResourceTable, loc: &str, path: &str, args: &Vec<(String, String)>) -> (r: String)
    ensures
        r@ == rendered(table, loc@, path@, pairs_view(args@)),
{
    match table.get(path, loc) {
        Some(tpl) => render_template(tpl.as_str(), args),
        None => missing_translation(),
    }
}

/// A small tour of the formatting surface: a fixed set of lookups rendered
/// against the given table and locale state, in order, each degrading to
/// the sentinel where the table has nothing to offer.
pub fn hello(table: &ResourceTable, state: &LocaleState) -> (r: Vec<String>)
    ensures
        r@.len() == 7,
        r@[0]@ == rendered(table, state@, "hello"@, Seq::empty()),
        r@[1]@ == rendered(
            table,
            "en"@,
            "views.message.title"@,
            seq![("name"@, "Jason"@)],
        ),
        r@[2]@ == rendered(
            table,
            state@,
            "views.message.description"@,
            seq![("name"@, "Jason"@)],
        ),
        r@[3]@ == rendered(
            table,
            state@,
            "Use YAML for mapping localized text, \n            and support mutiple YAML files merging."@,
            Seq::empty(),
        ),
        r@[4]@ == rendered(
            table,
            state@,
            "Use YAML for mapping localized text,\nand support mutiple YAML files merging."@,
            Seq::empty(),
        ),
        r@[5]@ == rendered(
            table,
            state@,
            "The table below describes some of those behaviours."@,
            Seq::empty(),
        ),
        r@[6]@ == rendered(
            table,
            state@,
            "The table     below describes some     of those behaviours."@,
            Seq::empty(),
        ),
{
    let no_args: Vec<(String, String)> = Vec::new();
    let mut jason: Vec<(String, String)> = Vec::new();
    jason.push((String::from_str("name"), String::from_str("Jason")));
    proof {
        assert(pairs_view(no_args@) =~= Seq::<(Seq<char>, Seq<char>)>::empty());
        assert(pairs_view(jason@) =~= seq![("name"@, "Jason"@)]);
    }
    let mut out: Vec<String> = Vec::new();
    out.push(line(table, state.locale(), "hello", &no_args));
    out.push(line(table, "en", "views.message.title", &jason));
    out.push(line(table, state.locale(), "views.message.description", &jason));
    out.push(
        line(
            table,
            state.locale(),
            "Use YAML for mapping localized text, \n            and support mutiple YAML files merging.",
            &no_args,
        ),
    );
    out.push(
        line(
            table,
            state.locale(),
            "Use YAML for mapping localized text,\nand support mutiple YAML files merging.",
            &no_args,
        ),
    );
    out.push(line(table, state.locale(), "The table below describes some of those behaviours.", &no_args));
    out.push(
        line(
            table,
            state.locale(),
            "The table     below describes some     of those behaviours.",
            &no_args,
        ),
    );
    out
}

/// The first row index of the table whose path is `p`, or the row count.
#[verifier::loop_isolation(false)]
fn find_row_of(table: &ResourceTable, p: &String) -> (r: usize)
    ensures
        r as int == akey_index(table.view_rows(), p@),
{
    proof {
        lemma_akey_index(table.view_rows(), p@);
    }
    let mut j: usize = 0;
    while j < table.rows.len()
        invariant
            j <= table.rows@.len(),
            forall|t: int| 0 <= t < j ==> (#[trigger] table.rows@[t].0)@ != p@,
        decreases table.rows@.len() - j,
    {
        if table.rows[j].0 == *p {
            proof {
                assert(table.view_rows()[j as int].0 == p@);
            }
            return j;
        }
        j = j + 1;
    }
    j
}

} // verus!
