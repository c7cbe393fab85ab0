use crate::interpreter::{Interpreter, OutputView, exec_stmt, lemma_run_output_determined, run};
use crate::parser::{
    ExprView, ParseError, ParseErrorView, Parser, StmtView, parse_decl, parse_errors_model, parse_expr,
    parse_fold, parse_program, parse_stmt, parse_terminated,
};
use crate::scanner::{
    kept_digits,
    LexErrorView, Scanner, alnum_run, digit_run, digits_value, emit, is_digit, keyword,
    lex_errors_model, literal_number, number_parts, number_step, opt_seq, pow10, scan, step, token_at,
    tokens_model,
};
use crate::environment::Scope;
use crate::number::{ExtRatio, Ratio, fits};
use crate::token::{TokenType, TokenView, Value};
use vstd::prelude::*;

verus! {

/// A report of a lexical or syntax error: the line, where on it, and what.
pub struct Diagnostic {
    pub line: u32,
    pub location: String,
    pub message: String,
}

pub type DiagnosticView = (u32, Seq<char>, Seq<char>);

pub open spec fn diagnostics_model(v: Seq<Diagnostic>) -> Seq<DiagnosticView> {
    v.map_values(|d: Diagnostic| (d.line, d.location@, d.message@))
}

/// The report of a lexical error.
pub open spec fn lex_diagnostic(e: LexErrorView) -> DiagnosticView {
    (e.0, Seq::empty(), e.1)
}

/// Where a syntax error stands: at the end of input, or at a lexeme.
pub open spec fn error_location(t: TokenView) -> Seq<char> {
    if t.token_type == TokenType::Eof {
        "at end"@
    } else {
        "at, "@ + t.lexeme
    }
}

/// The report of a syntax error.
pub open spec fn parse_diagnostic(e: ParseErrorView) -> DiagnosticView {
    (e.0.line, error_location(e.0), e.1)
}

/// The tokens and lexical errors of `source`.
pub open spec fn scanned(source: Seq<char>) -> (Seq<TokenView>, Seq<LexErrorView>) {
    scan(source, 1)
}

/// The statements and syntax errors of `source`.
pub open spec fn parsed(source: Seq<char>) -> (Seq<StmtView>, Seq<ParseErrorView>) {
    parse_program(scanned(source).0, 0, Seq::empty(), Seq::empty())
}

/// The reports that running `source` adds.
pub open spec fn source_diagnostics(source: Seq<char>) -> Seq<DiagnosticView> {
    scanned(source).1.map_values(|e: LexErrorView| lex_diagnostic(e)) + parsed(source).1.map_values(
        |e: ParseErrorView| parse_diagnostic(e),
    )
}

/// A session: one interpreter whose global scope lasts across runs, and the
/// reports of lexical and syntax errors.
pub struct Lox {
    pub interpreter: Interpreter,
    pub had_error: bool,
    pub diagnostics: Vec<Diagnostic>,
}

impl Lox {
    /// A session with nothing defined and nothing reported.
    pub fn new() -> (r: Self)
        ensures
            r.interpreter.scopes().len() == 1,
            r.interpreter.printed().len() == 0,
            !r.had_error,
            r.diagnostics@.len() == 0,
    {
        Lox { interpreter: Interpreter::new(), had_error: false, diagnostics: Vec::new() }
    }

    /// The report of a lexical error on `line`.
    pub fn error(line: u32, message: String) -> (r: Diagnostic)
        ensures
            (r.line, r.location@, r.message@) == lex_diagnostic((line, message@)),
    {
        Diagnostic { line, location: String::new(), message }
    }

    /// The report of a syntax error.
    pub fn parse_error(error: ParseError) -> (r: Diagnostic)
        ensures
            (r.line, r.location@, r.message@) == parse_diagnostic(error@),
    {
        let ParseError(token, message) = error;
        let location = if token.token_type == TokenType::Eof {
            "at end".to_owned()
        } else {
            let mut l = "at, ".to_owned();
            l.append(token.lexeme.as_str());
            l
        };
        Diagnostic { line: token.line, location, message }
    }

    /// Scans, parses and, where neither found an error, runs `source`.
    /// Every lexical and syntax error is reported; run-time errors stay
    /// with the interpreter.
    pub fn run(&mut self, source: String)
        requires
            source@.len() < u32::MAX,
            old(self).interpreter.scopes().len() == 1,
        ensures
            final(self).interpreter.scopes().len() == 1,
            diagnostics_model(final(self).diagnostics@) == diagnostics_model(old(self).diagnostics@)
                + source_diagnostics(source@),
            final(self).had_error == (old(self).had_error || source_diagnostics(source@).len() > 0),
            source_diagnostics(source@).len() == 0 ==> (
                final(self).interpreter.scopes(),
                final(self).interpreter.printed(),
            ) == run(
                old(self).interpreter.scopes(),
                old(self).interpreter.printed(),
                parsed(source@).0,
            ),
            source_diagnostics(source@).len() > 0 ==> final(self).interpreter
                == old(self).interpreter,
    {
        let ghost src = source@;
        let mut scanner = Scanner::new(source);
        let tokens = scanner.scan_tokens();
        let ghost lex = scanner.errors@;
        let ghost before = self.diagnostics@;
        let mut i: usize = 0;
        while i < scanner.errors.len()
            invariant
                self.interpreter == old(self).interpreter,
                self.had_error == old(self).had_error,
                lex == scanner.errors@,
                lex_errors_model(lex) == scanned(src).1,
                i <= lex.len(),
                diagnostics_model(self.diagnostics@) == diagnostics_model(before) + scanned(
                    src,
                ).1.subrange(0, i as int).map_values(|e: LexErrorView| lex_diagnostic(e)),
            decreases lex.len() - i,
        {
            let e = &scanner.errors[i];
            let ghost old_d = self.diagnostics@;
            let d = Lox::error(e.line, e.message.clone());
            self.diagnostics.push(d);
            proof {
                assert(scanned(src).1[i as int] == lex[i as int]@);
                assert(scanned(src).1.subrange(0, i + 1).map_values(|e: LexErrorView| lex_diagnostic(e))
                    =~= scanned(src).1.subrange(0, i as int).map_values(|e: LexErrorView| lex_diagnostic(e)).push(
                    lex_diagnostic(lex[i as int]@),
                ));
                assert(diagnostics_model(self.diagnostics@) =~= diagnostics_model(old_d).push(
                    lex_diagnostic(lex[i as int]@),
                ));
            }
            i = i + 1;
        }
        proof {
            assert(scanned(src).1.subrange(0, i as int) =~= scanned(src).1);
        }
        let ghost toks = tokens_model(tokens@);
        let mut parser = Parser::new(tokens);
        proof {
            assert(parse_errors_model(parser.errors@) =~= Seq::empty());
        }
        let stmts = parser.parse();
        let ghost middle = self.diagnostics@;
        let mut j: usize = 0;
        while j < parser.errors.len()
            invariant
                self.interpreter == old(self).interpreter,
                self.had_error == old(self).had_error,
                parse_errors_model(parser.errors@) == parsed(src).1,
                j <= parser.errors@.len(),
                diagnostics_model(self.diagnostics@) == diagnostics_model(middle) + parsed(
                    src,
                ).1.subrange(0, j as int).map_values(|e: ParseErrorView| parse_diagnostic(e)),
            decreases parser.errors@.len() - j,
        {
            let e = &parser.errors[j];
            let ghost old_d = self.diagnostics@;
            let d = Lox::parse_error(ParseError(e.0.duplicate(), e.1.clone()));
            self.diagnostics.push(d);
            proof {
                assert(parsed(src).1[j as int] == parser.errors@[j as int]@);
                assert(parsed(src).1.subrange(0, j + 1).map_values(|e: ParseErrorView| parse_diagnostic(e))
                    =~= parsed(src).1.subrange(0, j as int).map_values(
                    |e: ParseErrorView| parse_diagnostic(e),
                ).push(parse_diagnostic(parser.errors@[j as int]@)));
                assert(diagnostics_model(self.diagnostics@) =~= diagnostics_model(old_d).push(
                    parse_diagnostic(parser.errors@[j as int]@),
                ));
            }
            j = j + 1;
        }
        proof {
            assert(parsed(src).1.subrange(0, j as int) =~= parsed(src).1);
            assert(diagnostics_model(self.diagnostics@) =~= diagnostics_model(before) + source_diagnostics(src));
        }
        if scanner.errors.len() > 0 || parser.errors.len() > 0 {
            self.had_error = true;
            return;
        }
        self.interpreter.interpret(stmts);
    }
}

/// Running fixed source text is deterministic: in two sessions whose scopes
/// agree, whatever each output before, the text reports the same errors,
/// adds the same output (printed values and run-time errors, in order) and
/// leaves the same scopes.
pub proof fn lemma_pipeline_deterministic(
    source: Seq<char>,
    env: Seq<Scope>,
    out1: Seq<OutputView>,
    out2: Seq<OutputView>,
)
    ensures
        ({
            let r1 = run(env, out1, parsed(source).0);
            let r2 = run(env, out2, parsed(source).0);
            &&& r1.0 == r2.0
            &&& r1.1.subrange(out1.len() as int, r1.1.len() as int) == r2.1.subrange(
                out2.len() as int,
                r2.1.len() as int,
            )
        }),
{
    let ss = parsed(source).0;
    lemma_run_output_determined(env, out1, ss);
    lemma_run_output_determined(env, out2, ss);
    let r = run(env, Seq::empty(), ss);
    assert((out1 + r.1).subrange(out1.len() as int, (out1 + r.1).len() as int) =~= r.1);
    assert((out2 + r.1).subrange(out2.len() as int, (out2 + r.1).len() as int) =~= r.1);
}

/// The value of a decimal literal with digits `whole` before the point and
/// `frac` after it.
pub open spec fn decimal_value(whole: Seq<char>, frac: Seq<char>) -> Ratio {
    Ratio { num: digits_value(whole + frac), den: pow10(frac.len()) }
}

/// The text of a number literal: the fraction, if any, after a point.
pub open spec fn literal_text(whole: Seq<char>, frac: Seq<char>) -> Seq<char> {
    if frac.len() == 0 {
        whole
    } else {
        whole + seq!['.'] + frac
    }
}

pub open spec fn all_digits(s: Seq<char>) -> bool {
    forall|k: int| 0 <= k < s.len() ==> is_digit(#[trigger] s[k])
}

proof fn lemma_digit_run_of(a: Seq<char>, b: Seq<char>)
    requires
        all_digits(a),
        b.len() > 0,
        !is_digit(b[0]),
    ensures
        digit_run(a + b) == a.len(),
    decreases a.len(),
{
    if a.len() == 0 {
        assert(a + b =~= b);
    } else {
        assert((a + b).drop_first() =~= a.drop_first() + b);
        assert(is_digit(a[0]));
        assert(all_digits(a.drop_first())) by {
            assert forall|k: int| 0 <= k < a.drop_first().len() implies is_digit(
                #[trigger] a.drop_first()[k],
            ) by {
                assert(a.drop_first()[k] == a[k + 1]);
            }
        }
        lemma_digit_run_of(a.drop_first(), b);
    }
}

/// The statement `print N;` for a number literal `N`.
pub open spec fn print_source(n: Seq<char>) -> Seq<char> {
    seq!['p', 'r', 'i', 'n', 't', ' '] + n + seq![';']
}

/// `print` is a reserved word.
proof fn lemma_print_keyword()
    ensures
        keyword(seq!['p', 'r', 'i', 'n', 't']) == Some(TokenType::Print),
{
    let word = seq!['p', 'r', 'i', 'n', 't'];
    reveal_strlit("and");
    reveal_strlit("class");
    reveal_strlit("else");
    reveal_strlit("false");
    reveal_strlit("for");
    reveal_strlit("fun");
    reveal_strlit("if");
    reveal_strlit("nil");
    reveal_strlit("or");
    reveal_strlit("print");
    assert(word != "and"@) by { assert(word[0] != "and"@[0]); }
    assert(word != "class"@) by { assert(word[0] != "class"@[0]); }
    assert(word != "else"@) by { assert(word[0] != "else"@[0]); }
    assert(word != "false"@) by { assert(word[0] != "false"@[0]); }
    assert(word != "for"@) by { assert(word.len() != "for"@.len()); }
    assert(word != "fun"@) by { assert(word.len() != "fun"@.len()); }
    assert(word != "if"@) by { assert(word.len() != "if"@.len()); }
    assert(word != "nil"@) by { assert(word.len() != "nil"@.len()); }
    assert(word != "or"@) by { assert(word.len() != "or"@.len()); }
    assert(word =~= "print"@);
}

/// Scanning starts `print N;` with the reserved word.
proof fn lemma_step_print(n: Seq<char>)
    ensures
        step(print_source(n), 1) == emit(print_source(n), 5, TokenType::Print, 1),
{
    let src = print_source(n);
    let d1 = src.drop_first();
    let d2 = d1.drop_first();
    let d3 = d2.drop_first();
    let d4 = d3.drop_first();
    let d5 = d4.drop_first();
    assert(d5[0] == ' ');
    assert(alnum_run(d5) == 0);
    assert(d4[0] == 't');
    assert(alnum_run(d4) == 1);
    assert(alnum_run(d3) == 2);
    assert(alnum_run(d2) == 3);
    assert(alnum_run(d1) == 4);
    assert(src.subrange(0, 5) =~= seq!['p', 'r', 'i', 'n', 't']);
    lemma_print_keyword();
}

/// A number literal followed by `;` scans as the literal's value.
proof fn lemma_number_parts(whole: Seq<char>, frac: Seq<char>)
    requires
        whole.len() > 0,
        all_digits(whole),
        all_digits(frac),
    ensures
        number_parts(literal_text(whole, frac) + seq![';']) == (
            literal_text(whole, frac).len(),
            whole,
            frac,
        ),
{
    let n = literal_text(whole, frac);
    let rest = n + seq![';'];
    if frac.len() == 0 {
        lemma_digit_run_of(whole, seq![';']);
        assert(rest =~= whole + seq![';']);
        assert(rest.subrange(0, whole.len() as int) =~= whole);
        assert(frac =~= Seq::<char>::empty());
    } else {
        let tail = seq!['.'] + frac + seq![';'];
        assert(rest =~= whole + tail);
        lemma_digit_run_of(whole, tail);
        assert(rest[whole.len() as int] == '.');
        assert(rest[whole.len() as int + 1] == frac[0]);
        let after = rest.subrange(whole.len() as int + 1, rest.len() as int);
        assert(after =~= frac + seq![';']);
        lemma_digit_run_of(frac, seq![';']);
        assert(rest.subrange(0, whole.len() as int) =~= whole);
        assert(rest.subrange(whole.len() as int + 1, whole.len() as int + 1 + frac.len() as int)
            =~= frac);
    }
}

/// The tokens of `print N;`.
proof fn lemma_scan_print_literal(whole: Seq<char>, frac: Seq<char>)
    requires
        whole.len() > 0,
        all_digits(whole),
        all_digits(frac),
    ensures
        ({
            let n = literal_text(whole, frac);
            let (tokens, errors) = scan(print_source(n), 1);
            &&& errors.len() == 0
            &&& tokens.len() == 4
            &&& tokens[0].token_type == TokenType::Print
            &&& tokens[1].token_type == TokenType::Number
            &&& tokens[1].literal == Some(Value::Num(literal_number(whole, frac)))
            &&& tokens[2].token_type == TokenType::SemiColon
            &&& tokens[3].token_type == TokenType::Eof
        }),
{
    let n = literal_text(whole, frac);
    let src = print_source(n);
    let q = literal_number(whole, frac);
    lemma_step_print(n);
    let st0 = step(src, 1);
    let rest1 = src.subrange(5, src.len() as int);
    let st1 = step(rest1, 1);
    assert(rest1[0] == ' ');
    assert(st1.len == 1 && st1.token is None && st1.error is None);
    let rest2 = rest1.subrange(1, rest1.len() as int);
    assert(rest2 =~= n + seq![';']);
    lemma_number_parts(whole, frac);
    assert(n.len() > 0 && is_digit(n[0])) by {
        assert(n[0] == whole[0]);
    }
    let st2 = step(rest2, 1);
    assert(st2 == number_step(rest2, 1));
    assert(st2.len == n.len());
    assert(rest2.subrange(0, n.len() as int) =~= n);
    assert(st2.token == Some(token_at(TokenType::Number, n, Value::Num(q), 1)));
    assert(st2.error is None);
    let rest3 = rest2.subrange(n.len() as int, rest2.len() as int);
    assert(rest3 =~= seq![';']);
    let st3 = step(rest3, 1);
    assert(st3.len == 1 && st3.error is None);
    let rest4 = rest3.subrange(1, 1);
    assert(rest4 =~= Seq::<char>::empty());
    let e = scan(rest4, 1);
    let s3 = scan(rest3, 1);
    assert(s3.0 =~= opt_seq(st3.token) + e.0);
    assert(s3.1 =~= Seq::<LexErrorView>::empty());
    let s2 = scan(rest2, 1);
    assert(s2.0 =~= opt_seq(st2.token) + s3.0);
    assert(s2.1 =~= Seq::<LexErrorView>::empty());
    let s1 = scan(rest1, 1);
    assert(s1.0 =~= s2.0);
    assert(s1.1 =~= Seq::<LexErrorView>::empty());
    let s0 = scan(src, 1);
    assert(s0.0 =~= opt_seq(st0.token) + s1.0);
    assert(s0.1 =~= Seq::<LexErrorView>::empty());
}

/// The tokens `print`, a number, `;` parse as one print statement.
proof fn lemma_parse_print_literal(toks: Seq<TokenView>, q: ExtRatio)
    requires
        toks.len() == 4,
        toks[0].token_type == TokenType::Print,
        toks[1].token_type == TokenType::Number,
        toks[1].literal == Some(Value::Num(q)),
        toks[2].token_type == TokenType::SemiColon,
        toks[3].token_type == TokenType::Eof,
    ensures
        parse_program(toks, 0, Seq::empty(), Seq::empty()) == (
            seq![StmtView::Print(ExprView::Literal(Value::Num(q)))],
            Seq::<ParseErrorView>::empty(),
        ),
{
    let lit = ExprView::Literal(Value::Num(q));
    assert(parse_expr(toks, 1, 8) == Ok::<(ExprView, int), (ParseErrorView, int)>((lit, 2)));
    assert(parse_expr(toks, 1, 7) == Ok::<(ExprView, int), (ParseErrorView, int)>((lit, 2)));
    assert(parse_fold(toks, 2, 6, lit) == Ok::<(ExprView, int), (ParseErrorView, int)>((lit, 2)));
    assert(parse_expr(toks, 1, 6) == Ok::<(ExprView, int), (ParseErrorView, int)>((lit, 2)));
    assert(parse_fold(toks, 2, 5, lit) == Ok::<(ExprView, int), (ParseErrorView, int)>((lit, 2)));
    assert(parse_expr(toks, 1, 5) == Ok::<(ExprView, int), (ParseErrorView, int)>((lit, 2)));
    assert(parse_fold(toks, 2, 4, lit) == Ok::<(ExprView, int), (ParseErrorView, int)>((lit, 2)));
    assert(parse_expr(toks, 1, 4) == Ok::<(ExprView, int), (ParseErrorView, int)>((lit, 2)));
    assert(parse_fold(toks, 2, 3, lit) == Ok::<(ExprView, int), (ParseErrorView, int)>((lit, 2)));
    assert(parse_expr(toks, 1, 3) == Ok::<(ExprView, int), (ParseErrorView, int)>((lit, 2)));
    assert(parse_fold(toks, 2, 2, lit) == Ok::<(ExprView, int), (ParseErrorView, int)>((lit, 2)));
    assert(parse_expr(toks, 1, 2) == Ok::<(ExprView, int), (ParseErrorView, int)>((lit, 2)));
    assert(parse_fold(toks, 2, 1, lit) == Ok::<(ExprView, int), (ParseErrorView, int)>((lit, 2)));
    assert(parse_expr(toks, 1, 1) == Ok::<(ExprView, int), (ParseErrorView, int)>((lit, 2)));
    assert(parse_expr(toks, 1, 0) == Ok::<(ExprView, int), (ParseErrorView, int)>((lit, 2)));
    let stmt = StmtView::Print(lit);
    assert(parse_terminated(toks, 1, true, "Expect ';' after value."@) == Ok::<
        (StmtView, int),
        (ParseErrorView, int),
    >((stmt, 3)));
    assert(parse_stmt(toks, 0, Seq::empty()).0 == Ok::<(StmtView, int), (ParseErrorView, int)>(
        (stmt, 3),
    ));
    assert(parse_decl(toks, 0, Seq::empty()) == (Some(stmt), 3int, Seq::<ParseErrorView>::empty()));
    assert(Seq::<StmtView>::empty().push(stmt) =~= seq![stmt]);
    assert(parse_program(toks, 3, seq![stmt], Seq::empty()) == (seq![stmt], Seq::<ParseErrorView>::empty()));
}

/// A number literal, with or without a fraction, survives the pipeline:
/// scanning, parsing and running `print N;` reports nothing and outputs
/// exactly one printed value, the number the literal stands for; that is
/// the literal's exact decimal value wherever it fits.
pub proof fn lemma_number_literal_round_trip(whole: Seq<char>, frac: Seq<char>)
    requires
        whole.len() > 0,
        all_digits(whole),
        all_digits(frac),
    ensures
        source_diagnostics(print_source(literal_text(whole, frac))).len() == 0,
        run(
            seq![Seq::<(Seq<char>, Value)>::empty()],
            Seq::empty(),
            parsed(print_source(literal_text(whole, frac))).0,
        ).1 == seq![OutputView::Printed(Value::Num(literal_number(whole, frac)))],
        fits(decimal_value(whole, frac)) ==> literal_number(whole, frac) == ExtRatio::Finite(
            decimal_value(whole, frac),
        ),
{
    if fits(decimal_value(whole, frac)) {
        lemma_literal_exact(whole, frac);
    }
    let src = print_source(literal_text(whole, frac));
    let q = literal_number(whole, frac);
    lemma_scan_print_literal(whole, frac);
    let toks = scanned(src).0;
    lemma_parse_print_literal(toks, q);
    let stmt = StmtView::Print(ExprView::Literal(Value::Num(q)));
    assert(parsed(src).0 == seq![stmt]);
    assert(parsed(src).1.len() == 0);
    assert(source_diagnostics(src) =~= Seq::<DiagnosticView>::empty());
    let env = seq![Seq::<(Seq<char>, Value)>::empty()];
    let empty_out = Seq::<OutputView>::empty();
    assert(seq![stmt].drop_last() =~= Seq::<StmtView>::empty());
    assert(run(env, empty_out, Seq::<StmtView>::empty()) == (env, empty_out));
    let o = OutputView::Printed(Value::Num(q));
    assert(exec_stmt(env, empty_out, stmt).1 == empty_out.push(o));
    assert(empty_out.push(o) =~= seq![o]);
}

/// A prefix of a digit string has no greater value, and no value is
/// negative.
proof fn lemma_prefix_value(s: Seq<char>, i: int)
    requires
        all_digits(s),
        0 <= i <= s.len(),
    ensures
        0 <= digits_value(s.subrange(0, i)) <= digits_value(s),
    decreases s.len(),
{
    if s.len() > 0 {
        let t = s.drop_last();
        assert(all_digits(t)) by {
            assert forall|k: int| 0 <= k < t.len() implies is_digit(#[trigger] t[k]) by {
                assert(t[k] == s[k]);
            }
        }
        lemma_prefix_value(t, t.len() as int);
        assert(t.subrange(0, t.len() as int) =~= t);
        assert(is_digit(s.last()));
        if i < s.len() {
            lemma_prefix_value(t, i);
            assert(s.subrange(0, i) =~= t.subrange(0, i));
        } else {
            assert(s.subrange(0, i) =~= s);
        }
    } else {
        assert(s.subrange(0, i) =~= s);
    }
}

proof fn lemma_pow10_mono(a: nat, b: nat)
    requires
        a <= b,
    ensures
        1 <= pow10(a) <= pow10(b),
    decreases b,
{
    if a < b {
        lemma_pow10_mono(a, (b - 1) as nat);
    } else if b > 0 {
        lemma_pow10_mono(0, (b - 1) as nat);
    }
}

proof fn lemma_keeps_all(whole: Seq<char>, frac: Seq<char>, k: nat)
    requires
        all_digits(whole + frac),
        k <= frac.len(),
        digits_value(whole + frac) <= i64::MAX,
        pow10(frac.len()) <= i64::MAX,
    ensures
        kept_digits(whole, frac, k) == frac.len(),
    decreases frac.len() - k,
{
    if k < frac.len() {
        let s = whole + frac;
        lemma_prefix_value(s, whole.len() + k as int + 1);
        assert(s.subrange(0, whole.len() + k as int + 1) =~= whole + frac.subrange(0, k as int + 1));
        lemma_pow10_mono(k + 1, frac.len());
        lemma_keeps_all(whole, frac, k + 1);
    }
}

/// A literal whose exact value fits stands for exactly that value.
pub proof fn lemma_literal_exact(whole: Seq<char>, frac: Seq<char>)
    requires
        all_digits(whole),
        all_digits(frac),
        fits(decimal_value(whole, frac)),
    ensures
        literal_number(whole, frac) == ExtRatio::Finite(decimal_value(whole, frac)),
{
    let s = whole + frac;
    assert(all_digits(s)) by {
        assert forall|k: int| 0 <= k < s.len() implies is_digit(#[trigger] s[k]) by {
            if k < whole.len() {
                assert(s[k] == whole[k]);
            } else {
                assert(s[k] == frac[k - whole.len()]);
            }
        }
    }
    lemma_prefix_value(s, whole.len() as int);
    assert(s.subrange(0, whole.len() as int) =~= whole);
    lemma_keeps_all(whole, frac, 0);
    assert(frac.subrange(0, frac.len() as int) =~= frac);
}

} // verus!
