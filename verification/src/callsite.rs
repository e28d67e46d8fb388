//! The call-site surface: parsing the text of one formatting invocation
//! into its path literal and its arguments.
//!
//! The grammar is permissive, as the host's own is: a quoted path literal,
//! then comma-separated arguments, each a bare identifier, a
//! `name = identifier`, or a `name = <expression>` whose text runs to the
//! next top-level comma with brackets balanced. Whitespace between tokens
//! never matters; the path literal itself is taken exactly as written.
use vstd::prelude::*;
use crate::Error;

verus! {

/// One argument of a formatting call, as the parser classifies it.
pub enum FormatArg {
    /// A bare identifier, forwarded as both name and value.
    Ident { ident: String },
    /// `name = identifier`.
    AliasEqIdent { alias: String, ident: String },
    /// `name = <expression>`: the expression text is forwarded verbatim.
    AliasEqExpr { alias: String, expr: String },
}

/// The shape of one parsed argument.
pub enum ArgShape {
    Ident { ident: Seq<char> },
    AliasEqIdent { alias: Seq<char>, ident: Seq<char> },
    AliasEqExpr { alias: Seq<char>, expr: Seq<char> },
}

impl View for FormatArg {
    type V = ArgShape;

    open spec fn view(&self) -> ArgShape {
        match self {
            FormatArg::Ident { ident } => ArgShape::Ident { ident: ident@ },
            FormatArg::AliasEqIdent { alias, ident } => ArgShape::AliasEqIdent {
                alias: alias@,
                ident: ident@,
            },
            FormatArg::AliasEqExpr { alias, expr } => ArgShape::AliasEqExpr {
                alias: alias@,
                expr: expr@,
            },
        }
    }
}

/// A whole parsed call: the path literal and the arguments after it.
pub struct FormatArgs {
    pub fmt_str: String,
    pub args: Vec<FormatArg>,
}

/// The shape of a whole parsed call.
pub struct ArgsShape {
    pub fmt_str: Seq<char>,
    pub args: Seq<ArgShape>,
}

impl View for FormatArgs {
    type V = ArgsShape;

    open spec fn view(&self) -> ArgsShape {
        ArgsShape { fmt_str: self.fmt_str@, args: self.args@.map_values(|a: FormatArg| a@) }
    }
}

/// Whitespace between tokens.
pub open spec fn is_ws(c: char) -> bool {
    c == ' ' || c == '\t' || c == '\n' || c == '\r'
}

/// A character that may start an identifier.
pub open spec fn is_ident_start(c: char) -> bool {
    ('a' <= c && c <= 'z') || ('A' <= c && c <= 'Z') || c == '_'
}

/// A character that may continue an identifier.
pub open spec fn is_ident_char(c: char) -> bool {
    is_ident_start(c) || ('0' <= c && c <= '9')
}

/// The first position at or after `i` that is not whitespace.
pub open spec fn spec_skip_ws(s: Seq<char>, i: int) -> int
    decreases s.len() - i,
{
    if 0 <= i < s.len() && is_ws(s[i]) {
        spec_skip_ws(s, i + 1)
    } else {
        i
    }
}

/// The first position at or after `i` that cannot continue an identifier.
pub open spec fn spec_scan_ident(s: Seq<char>, i: int) -> int
    decreases s.len() - i,
{
    if 0 <= i < s.len() && is_ident_char(s[i]) {
        spec_scan_ident(s, i + 1)
    } else {
        i
    }
}

/// The end of an expression starting at `i` under `depth` open brackets:
/// the position of the next top-level comma or the end of input, or the
/// position of a stray closing bracket or unclosed opening as the error.
pub open spec fn spec_scan_expr(s: Seq<char>, i: int, depth: int) -> Result<int, int>
    decreases s.len() - i,
{
    if i < 0 || i >= s.len() {
        if depth == 0 {
            Ok(i)
        } else {
            Err(i)
        }
    } else if depth == 0 && s[i] == ',' {
        Ok(i)
    } else if s[i] == '(' || s[i] == '[' || s[i] == '{' {
        spec_scan_expr(s, i + 1, depth + 1)
    } else if s[i] == ')' || s[i] == ']' || s[i] == '}' {
        if depth == 0 {
            Err(i)
        } else {
            spec_scan_expr(s, i + 1, depth - 1)
        }
    } else {
        spec_scan_expr(s, i + 1, depth)
    }
}

/// The end of the text at `i..to` with trailing whitespace dropped.
pub open spec fn spec_rtrim(s: Seq<char>, from: int, to: int) -> int
    decreases to - from,
{
    if from < to <= s.len() && is_ws(s[to - 1]) {
        spec_rtrim(s, from, to - 1)
    } else {
        to
    }
}

/// Parses the quoted path literal: the text between the first quote pair,
/// exactly as written.
pub open spec fn spec_parse_lit(s: Seq<char>) -> Result<(Seq<char>, int), int> {
    let i0 = spec_skip_ws(s, 0);
    if i0 >= s.len() || s[i0] != '"' {
        Err(i0)
    } else {
        let j = crate::dispatch::index_of_char(s.skip(i0 + 1), '"');
        if j == s.skip(i0 + 1).len() {
            Err(s.len() as int)
        } else {
            Ok((s.subrange(i0 + 1, i0 + 1 + j), i0 + 1 + j + 1))
        }
    }
}

/// Parses one argument at `i`.
pub open spec fn spec_parse_arg(s: Seq<char>, i: int) -> Result<(ArgShape, int), int> {
    let i0 = spec_skip_ws(s, i);
    if i0 >= s.len() || !is_ident_start(s[i0]) {
        Err(i0)
    } else {
        let e = spec_scan_ident(s, i0);
        let name = s.subrange(i0, e);
        let i1 = spec_skip_ws(s, e);
        if i1 < s.len() && s[i1] == '=' {
            let i2 = spec_skip_ws(s, i1 + 1);
            if i2 < s.len() && is_ident_start(s[i2]) && {
                let e2 = spec_scan_ident(s, i2);
                let i3 = spec_skip_ws(s, e2);
                i3 >= s.len() || s[i3] == ','
            } {
                let e2 = spec_scan_ident(s, i2);
                Ok((ArgShape::AliasEqIdent { alias: name, ident: s.subrange(i2, e2) }, e2))
            } else {
                match spec_scan_expr(s, i2, 0) {
                    Ok(end) => {
                        let end2 = spec_rtrim(s, i2, end);
                        if end2 > i2 {
                            Ok((ArgShape::AliasEqExpr { alias: name, expr: s.subrange(i2, end2) }, end))
                        } else {
                            Err(i2)
                        }
                    },
                    Err(p) => Err(p),
                }
            }
        } else {
            Ok((ArgShape::Ident { ident: name }, e))
        }
    }
}

/// Parses the comma-separated argument list at `i` to the end of input.
pub open spec fn spec_parse_args_list(s: Seq<char>, i: int) -> Result<(Seq<ArgShape>, int), int>
    decreases s.len() - i,
{
    let i0 = spec_skip_ws(s, i);
    if i0 >= s.len() {
        Ok((Seq::empty(), i0))
    } else {
        match spec_parse_arg(s, i) {
            Err(p) => Err(p),
            Ok((a, j)) => {
                let j1 = spec_skip_ws(s, j);
                if j1 < s.len() {
                    if s[j1] == ',' && j1 + 1 > i {
                        match spec_parse_args_list(s, j1 + 1) {
                            Ok((rest, j2)) => Ok((seq![a] + rest, j2)),
                            Err(p) => Err(p),
                        }
                    } else {
                        Err(j1)
                    }
                } else {
                    Ok((seq![a], j1))
                }
            },
        }
    }
}

/// Parses a whole call: the path literal, then optionally a comma and the
/// argument list; nothing else may follow.
pub open spec fn spec_parse_format_args(s: Seq<char>) -> Result<ArgsShape, int> {
    match spec_parse_lit(s) {
        Err(p) => Err(p),
        Ok((lit, j)) => {
            let j1 = spec_skip_ws(s, j);
            if j1 >= s.len() {
                Ok(ArgsShape { fmt_str: lit, args: Seq::empty() })
            } else if s[j1] == ',' {
                match spec_parse_args_list(s, j1 + 1) {
                    Ok((args, _)) => Ok(ArgsShape { fmt_str: lit, args }),
                    Err(p) => Err(p),
                }
            } else {
                Err(j1)
            }
        },
    }
}

/// Whether `c` is whitespace, decided exactly as the grammar does.
fn ws_char(c: char) -> (r: bool)
    ensures
        r == is_ws(c),
{
    c == ' ' || c == '\t' || c == '\n' || c == '\r'
}

/// Whether `c` may start an identifier.
fn ident_start_char(c: char) -> (r: bool)
    ensures
        r == is_ident_start(c),
{
    ('a' <= c && c <= 'z') || ('A' <= c && c <= 'Z') || c == '_'
}

/// Whether `c` may continue an identifier.
fn ident_char(c: char) -> (r: bool)
    ensures
        r == is_ident_char(c),
{
    ident_start_char(c) || ('0' <= c && c <= '9')
}

/// The first non-whitespace position at or after `i`.
#[verifier::loop_isolation(false)]
fn skip_ws(s: &str, i: usize, n: usize) -> (r: usize)
    requires
        i <= n,
        n == s@.len(),
    ensures
        i <= r <= n,
        r as int == spec_skip_ws(s@, i as int),
{
    let mut j = i;
    while j < n && ws_char(s.get_char(j))
        invariant
            i <= j <= n,
            spec_skip_ws(s@, i as int) == spec_skip_ws(s@, j as int),
        decreases n - j,
    {
        j = j + 1;
    }
    j
}

/// The first position at or after `i` that cannot continue an identifier.
#[verifier::loop_isolation(false)]
fn scan_ident(s: &str, i: usize, n: usize) -> (r: usize)
    requires
        i <= n,
        n == s@.len(),
    ensures
        i <= r <= n,
        r as int == spec_scan_ident(s@, i as int),
{
    let mut j = i;
    while j < n && ident_char(s.get_char(j))
        invariant
            i <= j <= n,
            spec_scan_ident(s@, i as int) == spec_scan_ident(s@, j as int),
        decreases n - j,
    {
        j = j + 1;
    }
    j
}

/// Scans one expression to the next top-level comma with brackets balanced.
#[verifier::loop_isolation(false)]
fn scan_expr(s: &str, i: usize, n: usize) -> (r: Result<usize, usize>)
    requires
        i <= n,
        n == s@.len(),
    ensures
        match r {
            Ok(e) => spec_scan_expr(s@, i as int, 0) == Ok::<int, int>(e as int) && i <= e <= n,
            Err(p) => spec_scan_expr(s@, i as int, 0) == Err::<int, int>(p as int),
        },
{
    let mut j = i;
    let mut depth: usize = 0;
    while j < n
        invariant
            i <= j <= n,
            depth <= j,
            spec_scan_expr(s@, i as int, 0) == spec_scan_expr(s@, j as int, depth as int),
        decreases n - j,
    {
        let c = s.get_char(j);
        if depth == 0 && c == ',' {
            return Ok(j);
        } else if c == '(' || c == '[' || c == '{' {
            depth = depth + 1;
        } else if c == ')' || c == ']' || c == '}' {
            if depth == 0 {
                return Err(j);
            }
            depth = depth - 1;
        }
        j = j + 1;
    }
    if depth == 0 {
        Ok(j)
    } else {
        Err(j)
    }
}

/// The end of `from..to` with trailing whitespace dropped.
#[verifier::loop_isolation(false)]
fn rtrim(s: &str, from: usize, to: usize) -> (r: usize)
    requires
        from <= to <= s@.len(),
    ensures
        from <= r <= to,
        r as int == spec_rtrim(s@, from as int, to as int),
{
    let mut j = to;
    while j > from && ws_char(s.get_char(j - 1))
        invariant
            from <= j <= to,
            spec_rtrim(s@, from as int, to as int) == spec_rtrim(s@, from as int, j as int),
        decreases j,
    {
        j = j - 1;
    }
    j
}

impl FormatArg {
    /// Parses one argument standing alone: the whole input must be that
    /// argument and nothing more.
    pub fn parse(input: &str) -> (r: Result<FormatArg, Error>)
        ensures
            match r {
                Ok(a) => spec_parse_one_arg(input@) == Ok::<ArgShape, int>(a@),
                Err(e) => e matches Error::Parse { pos } && spec_parse_one_arg(input@)
                    == Err::<ArgShape, int>(pos as int),
            },
    {
        let n = input.unicode_len();
        match parse_arg(input, 0, n) {
            Err(p) => Err(Error::Parse { pos: p }),
            Ok((a, j)) => {
                let j1 = skip_ws(input, j, n);
                if j1 >= n {
                    Ok(a)
                } else {
                    Err(Error::Parse { pos: j1 })
                }
            },
        }
    }

    /// The argument as call-site text, exactly as the parser reads it back.
    pub fn to_source(&self) -> (r: String)
        ensures
            r@ == arg_source(self@),
    {
        match self {
            FormatArg::Ident { ident } => ident.clone(),
            FormatArg::AliasEqIdent { alias, ident } => {
                let mut out = alias.clone();
                out.append(" = ");
                out.append(ident.as_str());
                out
            },
            FormatArg::AliasEqExpr { alias, expr } => {
                let mut out = alias.clone();
                out.append(" = ");
                out.append(expr.as_str());
                out
            },
        }
    }

    /// The argument described for diagnostics: an expression shows as
    /// `<expr>`.
    pub fn describe(&self) -> (r: String)
        ensures
            r@ == arg_described(self@),
    {
        match self {
            FormatArg::Ident { ident } => ident.clone(),
            FormatArg::AliasEqIdent { alias, ident } => {
                let mut out = alias.clone();
                out.append(" = ");
                out.append(ident.as_str());
                out
            },
            FormatArg::AliasEqExpr { alias, expr: _ } => {
                let mut out = alias.clone();
                out.append(" = <expr>");
                out
            },
        }
    }
}

/// One standalone argument: the input must hold it and nothing more.
pub open spec fn spec_parse_one_arg(s: Seq<char>) -> Result<ArgShape, int> {
    match spec_parse_arg(s, 0) {
        Ok((a, j)) => if spec_skip_ws(s, j) >= s.len() {
            Ok(a)
        } else {
            Err(spec_skip_ws(s, j))
        },
        Err(p) => Err(p),
    }
}

/// An argument as call-site text.
pub open spec fn arg_source(a: ArgShape) -> Seq<char> {
    match a {
        ArgShape::Ident { ident } => ident,
        ArgShape::AliasEqIdent { alias, ident } => alias + " = "@ + ident,
        ArgShape::AliasEqExpr { alias, expr } => alias + " = "@ + expr,
    }
}

/// An argument as diagnostic text.
pub open spec fn arg_described(a: ArgShape) -> Seq<char> {
    match a {
        ArgShape::Ident { ident } => ident,
        ArgShape::AliasEqIdent { alias, ident } => alias + " = "@ + ident,
        ArgShape::AliasEqExpr { alias, expr: _ } => alias + " = <expr>"@,
    }
}

/// The arguments as call-site text, each with a leading comma separator.
pub open spec fn args_source_list(args: Seq<ArgShape>) -> Seq<char>
    decreases args.len(),
{
    if args.len() == 0 {
        Seq::empty()
    } else {
        ", "@ + arg_source(args.first()) + args_source_list(args.drop_first())
    }
}

/// A whole call as call-site text: the quoted literal, then each argument
/// after a comma.
pub open spec fn format_args_source(v: ArgsShape) -> Seq<char> {
    seq!['"'] + v.fmt_str + seq!['"'] + args_source_list(v.args)
}

/// The arguments as diagnostic text, each followed by a comma.
pub open spec fn args_described_list(args: Seq<ArgShape>) -> Seq<char>
    decreases args.len(),
{
    if args.len() == 0 {
        Seq::empty()
    } else {
        arg_described(args.first()) + seq![','] + args_described_list(args.drop_first())
    }
}

/// A whole call as diagnostic text: the quoted literal; when arguments
/// follow, a comma and then each argument with a trailing comma.
pub open spec fn format_args_described(v: ArgsShape) -> Seq<char> {
    seq!['"'] + v.fmt_str + seq!['"'] + (if v.args.len() == 0 {
        Seq::<char>::empty()
    } else {
        seq![','] + args_described_list(v.args)
    })
}

/// Taking one more argument extends the source text by that argument.
proof fn lemma_args_source_take_step(args: Seq<ArgShape>, i: int)
    requires
        0 <= i < args.len(),
    ensures
        args_source_list(args.take(i + 1)) == args_source_list(args.take(i)) + (", "@ + arg_source(
            args[i],
        )),
    decreases i,
{
    if i == 0 {
        assert(args.take(0) =~= Seq::<ArgShape>::empty());
        assert(args.take(1).first() == args[0]);
        assert(args.take(1).drop_first() =~= Seq::<ArgShape>::empty());
        assert(args_source_list(args.take(1)) =~= args_source_list(args.take(0)) + (", "@
            + arg_source(args[0])));
    } else {
        lemma_args_source_take_step(args.drop_first(), i - 1);
        assert(args.take(i + 1).first() == args[0]);
        assert(args.take(i).first() == args[0]);
        assert(args.take(i + 1).drop_first() =~= args.drop_first().take(i));
        assert(args.take(i).drop_first() =~= args.drop_first().take(i - 1));
        assert(args.drop_first()[i - 1] == args[i]);
        assert(args_source_list(args.take(i + 1)) =~= args_source_list(args.take(i)) + (", "@
            + arg_source(args[i])));
    }
}

/// Taking one more argument extends the diagnostic text by that argument.
proof fn lemma_args_described_take_step(args: Seq<ArgShape>, i: int)
    requires
        0 <= i < args.len(),
    ensures
        args_described_list(args.take(i + 1)) == args_described_list(args.take(i)) + (arg_described(
            args[i],
        ) + seq![',']),
    decreases i,
{
    if i == 0 {
        assert(args.take(0) =~= Seq::<ArgShape>::empty());
        assert(args.take(1).first() == args[0]);
        assert(args.take(1).drop_first() =~= Seq::<ArgShape>::empty());
        assert(args_described_list(args.take(1)) =~= args_described_list(args.take(0)) + (
        arg_described(args[0]) + seq![',']));
    } else {
        lemma_args_described_take_step(args.drop_first(), i - 1);
        assert(args.take(i + 1).first() == args[0]);
        assert(args.take(i).first() == args[0]);
        assert(args.take(i + 1).drop_first() =~= args.drop_first().take(i));
        assert(args.take(i).drop_first() =~= args.drop_first().take(i - 1));
        assert(args.drop_first()[i - 1] == args[i]);
        assert(args_described_list(args.take(i + 1)) =~= args_described_list(args.take(i)) + (
        arg_described(args[i]) + seq![',']));
    }
}

impl FormatArgs {
    /// Parses a whole call: the quoted path literal, then optionally a
    /// comma and the argument list; nothing else may follow.
    #[verifier::loop_isolation(false)]
    #[verifier::rlimit(60)]
    pub fn parse(input: &str) -> (r: Result<FormatArgs, Error>)
        ensures
            match r {
                Ok(fa) => spec_parse_format_args(input@) == Ok::<ArgsShape, int>(fa@),
                Err(e) => e matches Error::Parse { pos } && spec_parse_format_args(input@)
                    == Err::<ArgsShape, int>(pos as int),
            },
    {
        let n = input.unicode_len();
        let i0 = skip_ws(input, 0, n);
        if i0 >= n {
            return Err(Error::Parse { pos: i0 });
        }
        if input.get_char(i0) != '"' {
            return Err(Error::Parse { pos: i0 });
        }
        let q = crate::dispatch::scan_for(input, i0 + 1, '"');
        if q >= n {
            return Err(Error::Parse { pos: n });
        }
        let lit = input.substring_char(i0 + 1, q).to_owned();
        proof {
            assert(lit@ =~= input@.subrange(i0 as int + 1, i0 as int + 1 + (q - (i0 + 1))));
            assert(spec_parse_lit(input@) == Ok::<(Seq<char>, int), int>((lit@, q as int + 1)));
        }
        let j1 = skip_ws(input, q + 1, n);
        if j1 >= n {
            let args: Vec<FormatArg> = Vec::new();
            let fa = FormatArgs { fmt_str: lit, args };
            proof {
                assert(fa@.args =~= Seq::<ArgShape>::empty());
            }
            return Ok(fa);
        }
        if input.get_char(j1) != ',' {
            return Err(Error::Parse { pos: j1 });
        }
        // the argument list after the comma
        let mut args: Vec<FormatArg> = Vec::new();
        let mut cur: usize = j1 + 1;
        let ghost start = j1 + 1int;
        proof {
            assert(args@.map_values(|a: FormatArg| a@) =~= Seq::<ArgShape>::empty());
        }
        loop
            invariant
                start <= cur <= n,
                n == input@.len(),
                spec_parse_args_list(input@, start) == (match spec_parse_args_list(
                    input@,
                    cur as int,
                ) {
                    Ok((rest, j2)) => Ok::<(Seq<ArgShape>, int), int>(
                        (args@.map_values(|a: FormatArg| a@) + rest, j2),
                    ),
                    Err(p) => Err::<(Seq<ArgShape>, int), int>(p),
                }),
            decreases n - cur,
        {
            let ghost av0 = args@.map_values(|a: FormatArg| a@);
            let c0 = skip_ws(input, cur, n);
            if c0 >= n {
                proof {
                    assert(av0 + Seq::<ArgShape>::empty() =~= av0);
                }
                break ;
            }
            match parse_arg(input, cur, n) {
                Err(p) => {
                    return Err(Error::Parse { pos: p });
                },
                Ok((a, j)) => {
                    let j2 = skip_ws(input, j, n);
                    args.push(a);
                    proof {
                        assert(args@.map_values(|x: FormatArg| x@) =~= av0.push(
                            args@.last()@,
                        ));
                    }
                    if j2 < n {
                        let cj = input.get_char(j2);
                        if cj != ',' {
                            return Err(Error::Parse { pos: j2 });
                        }
                        proof {
                            let pr = spec_parse_args_list(input@, j2 as int + 1);
                            if pr is Ok {
                                let rest = (pr->Ok_0).0;
                                assert(av0 + (seq![args@.last()@] + rest) =~= args@.map_values(
                                    |x: FormatArg| x@,
                                ) + rest);
                            }
                        }
                        cur = j2 + 1;
                    } else {
                        proof {
                            assert(av0 + seq![args@.last()@] =~= args@.map_values(
                                |x: FormatArg| x@,
                            ));
                        }
                        break ;
                    }
                },
            }
        }
        let fa = FormatArgs { fmt_str: lit, args };
        Ok(fa)
    }

    /// The arguments alone as call-site text, each standing after a comma,
    /// ready to follow a format string.
    #[verifier::loop_isolation(false)]
    pub fn args_source(&self) -> (r: String)
        ensures
            r@ == args_source_list(self@.args),
    {
        let mut out = String::new();
        proof {
            assert(self@.args.take(0) =~= Seq::<ArgShape>::empty());
            assert(out@ =~= args_source_list(self@.args.take(0)));
        }
        let ghost head = out@;
        let mut i: usize = 0;
        while i < self.args.len()
            invariant
                i <= self.args@.len(),
                out@ == head + args_source_list(self@.args.take(i as int)),
            decreases self.args@.len() - i,
        {
            out.append(", ");
            let piece = self.args[i].to_source();
            out.append(piece.as_str());
            proof {
                lemma_args_source_take_step(self@.args, i as int);
                assert(self@.args[i as int] == self.args@[i as int]@);
                assert(out@ =~= head + args_source_list(self@.args.take(i as int + 1)));
            }
            i = i + 1;
        }
        proof {
            assert(self@.args.take(self.args@.len() as int) =~= self@.args);
            assert(head + args_source_list(self@.args) =~= args_source_list(self@.args));
        }
        out
    }

    /// The call as call-site text, exactly as the parser reads it back.
    #[verifier::loop_isolation(false)]
    pub fn to_source(&self) -> (r: String)
        ensures
            r@ == format_args_source(self@),
    {
        let mut out = String::from_str("\"");
        out.append(self.fmt_str.as_str());
        out.append("\"");
        proof {
            reveal_strlit("\"");
            assert(out@ =~= seq!['"'] + self@.fmt_str + seq!['"']);
            assert(self@.args.take(0) =~= Seq::<ArgShape>::empty());
        }
        let ghost head = out@;
        let mut i: usize = 0;
        while i < self.args.len()
            invariant
                i <= self.args@.len(),
                out@ == head + args_source_list(self@.args.take(i as int)),
            decreases self.args@.len() - i,
        {
            out.append(", ");
            let piece = self.args[i].to_source();
            out.append(piece.as_str());
            proof {
                lemma_args_source_take_step(self@.args, i as int);
                assert(self@.args[i as int] == self.args@[i as int]@);
                assert(out@ =~= head + args_source_list(self@.args.take(i as int + 1)));
            }
            i = i + 1;
        }
        proof {
            assert(self@.args.take(self.args@.len() as int) =~= self@.args);
        }
        out
    }

    /// The call described for diagnostics, as the host shows it.
    #[verifier::loop_isolation(false)]
    pub fn describe(&self) -> (r: String)
        ensures
            r@ == format_args_described(self@),
    {
        let mut out = String::from_str("\"");
        out.append(self.fmt_str.as_str());
        out.append("\"");
        proof {
            reveal_strlit("\"");
            assert(out@ =~= seq!['"'] + self@.fmt_str + seq!['"']);
        }
        if self.args.len() == 0 {
            proof {
                assert(out@ =~= format_args_described(self@));
            }
            return out;
        }
        out.append(",");
        proof {
            reveal_strlit(",");
            assert(self@.args.take(0) =~= Seq::<ArgShape>::empty());
            assert(out@ =~= seq!['"'] + self@.fmt_str + seq!['"'] + seq![','] + args_described_list(
                self@.args.take(0),
            ));
        }
        let ghost head = out@;
        let mut i: usize = 0;
        while i < self.args.len()
            invariant
                i <= self.args@.len(),
                out@ == head + args_described_list(self@.args.take(i as int)),
            decreases self.args@.len() - i,
        {
            let piece = self.args[i].describe();
            out.append(piece.as_str());
            out.append(",");
            proof {
                reveal_strlit(",");
                lemma_args_described_take_step(self@.args, i as int);
                assert(self@.args[i as int] == self.args@[i as int]@);
                assert(out@ =~= head + args_described_list(self@.args.take(i as int + 1)));
            }
            i = i + 1;
        }
        proof {
            assert(self@.args.take(self.args@.len() as int) =~= self@.args);
        }
        out
    }
}

/// Parses one argument at `i`.
#[verifier::rlimit(60)]
fn parse_arg(s: &str, i: usize, n: usize) -> (r: Result<(FormatArg, usize), usize>)
    requires
        i <= n,
        n == s@.len(),
    ensures
        match r {
            Ok((a, j)) => spec_parse_arg(s@, i as int) == Ok::<(ArgShape, int), int>((a@, j as int))
                && i <= j <= n,
            Err(p) => spec_parse_arg(s@, i as int) == Err::<(ArgShape, int), int>(p as int),
        },
{
    let i0 = skip_ws(s, i, n);
    if i0 >= n || !ident_start_char(s.get_char(i0)) {
        return Err(i0);
    }
    let e = scan_ident(s, i0, n);
    let name = s.substring_char(i0, e).to_owned();
    let i1 = skip_ws(s, e, n);
    if i1 < n && s.get_char(i1) == '=' {
        let i2 = skip_ws(s, i1 + 1, n);
        let mut take_ident = false;
        let mut e2: usize = i2;
        if i2 < n && ident_start_char(s.get_char(i2)) {
            e2 = scan_ident(s, i2, n);
            let i3 = skip_ws(s, e2, n);
            if i3 >= n || s.get_char(i3) == ',' {
                take_ident = true;
            }
        }
        if take_ident {
            let ident = s.substring_char(i2, e2).to_owned();
            Ok((FormatArg::AliasEqIdent { alias: name, ident }, e2))
        } else {
            match scan_expr(s, i2, n) {
                Ok(end) => {
                    let end2 = rtrim(s, i2, end);
                    if end2 > i2 {
                        let expr = s.substring_char(i2, end2).to_owned();
                        Ok((FormatArg::AliasEqExpr { alias: name, expr }, end))
                    } else {
                        Err(i2)
                    }
                },
                Err(p) => Err(p),
            }
        }
    } else {
        Ok((FormatArg::Ident { ident: name }, e))
    }
}

} // verus!
