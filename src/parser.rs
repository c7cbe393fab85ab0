use crate::scanner::tokens_model;
use crate::token::{Literal, Token, TokenType, TokenView, Value};
use vstd::prelude::*;

verus! {

/// An expression, as mathematics sees it.
pub enum ExprView {
    Unary(TokenView, Box<ExprView>),
    Binary(Box<ExprView>, TokenView, Box<ExprView>),
    Grouping(Box<ExprView>),
    Literal(Value),
    Var(TokenView),
    Assignment(TokenView, Box<ExprView>),
    Logical(Box<ExprView>, TokenView, Box<ExprView>),
}

/// A statement, as mathematics sees it.
pub enum StmtView {
    Expr(ExprView),
    Print(ExprView),
    Var(TokenView, Option<ExprView>),
    Block(Seq<StmtView>),
    If(ExprView, Box<StmtView>, Option<Box<StmtView>>),
}

/// An expression node.
#[derive(Debug)]
pub enum Expr {
    Unary(Token, Box<Expr>),
    Binary(Box<Expr>, Token, Box<Expr>),
    Grouping(Box<Expr>),
    Literal(Literal),
    Var(Token),
    Assignment(Token, Box<Expr>),
    Logical(Box<Expr>, Token, Box<Expr>),
}

/// A statement node.
#[derive(Debug)]
pub enum Stmt {
    Expr(Box<Expr>),
    Print(Box<Expr>),
    Var(Token, Box<Option<Expr>>),
    Block(Vec<Stmt>),
    If(Box<Expr>, Box<Stmt>, Option<Box<Stmt>>),
}

impl Expr {
    /// The expression as mathematics sees it.
    pub open spec fn model(&self) -> ExprView
        decreases self,
    {
        match self {
            Expr::Unary(t, e) => ExprView::Unary(t@, Box::new(e.model())),
            Expr::Binary(l, t, r) => ExprView::Binary(Box::new(l.model()), t@, Box::new(r.model())),
            Expr::Grouping(e) => ExprView::Grouping(Box::new(e.model())),
            Expr::Literal(l) => ExprView::Literal(l@),
            Expr::Var(t) => ExprView::Var(t@),
            Expr::Assignment(t, e) => ExprView::Assignment(t@, Box::new(e.model())),
            Expr::Logical(l, t, r) => ExprView::Logical(Box::new(l.model()), t@, Box::new(r.model())),
        }
    }
}

impl Stmt {
    /// The statement as mathematics sees it.
    pub open spec fn model(&self) -> StmtView
        decreases self,
    {
        match self {
            Stmt::Expr(e) => StmtView::Expr(e.model()),
            Stmt::Print(e) => StmtView::Print(e.model()),
            Stmt::Var(t, i) => StmtView::Var(
                t@,
                match **i {
                    Some(e) => Some(e.model()),
                    None => None,
                },
            ),
            Stmt::Block(v) => StmtView::Block(stmts_model(v@)),
            Stmt::If(c, t, e) => StmtView::If(
                c.model(),
                Box::new(t.model()),
                match e {
                    Some(s) => Some(Box::new(s.model())),
                    None => None,
                },
            ),
        }
    }
}

/// The views of a sequence of statements.
pub open spec fn stmts_model(v: Seq<Stmt>) -> Seq<StmtView>
    decreases v,
{
    if v.len() == 0 {
        Seq::empty()
    } else {
        stmts_model(v.drop_last()).push(v.last().model())
    }
}

/// A parse error as mathematics sees it: the offending token and a message.
pub type ParseErrorView = (TokenView, Seq<char>);

/// An expression and the position after it, or an error and the position
/// where it arose.
pub type ExprResult = Result<(ExprView, int), (ParseErrorView, int)>;

/// A statement and the position after it, or an error and where it arose;
/// with the errors recorded on the way.
pub type StmtResult = (Result<(StmtView, int), (ParseErrorView, int)>, Seq<ParseErrorView>);

/// A token sequence that the parser can work on: it ends with the end of
/// input.
pub open spec fn tokens_wf(toks: Seq<TokenView>) -> bool {
    toks.len() >= 1 && toks.last().token_type == TokenType::Eof
}

pub open spec fn at_end(toks: Seq<TokenView>, p: int) -> bool {
    toks[p].token_type == TokenType::Eof
}

pub open spec fn check(toks: Seq<TokenView>, p: int, k: TokenType) -> bool {
    !at_end(toks, p) && toks[p].token_type == k
}

/// The position after `p`: the end of input is never passed.
pub open spec fn advance(toks: Seq<TokenView>, p: int) -> int {
    if at_end(toks, p) {
        p
    } else {
        p + 1
    }
}

/// Consumes a token of kind `k`, or fails with `msg` at the current token.
pub open spec fn consume(toks: Seq<TokenView>, p: int, k: TokenType, msg: Seq<char>) -> Result<
    int,
    (ParseErrorView, int),
> {
    if check(toks, p, k) {
        Ok(p + 1)
    } else {
        Err(((toks[p], msg), p))
    }
}

/// Whether `k` is an operator of binary level `level`: 1 `or`, 2 `and`,
/// 3 equality, 4 comparison, 5 terms, 6 factors.
pub open spec fn level_op(level: u8, k: TokenType) -> bool {
    match level {
        1 => k == TokenType::Or,
        2 => k == TokenType::And,
        3 => k == TokenType::BangEqual || k == TokenType::EqualEqual,
        4 => k == TokenType::Greater || k == TokenType::GreaterEqual || k == TokenType::Less || k
            == TokenType::LessEqual,
        5 => k == TokenType::Minus || k == TokenType::Plus,
        6 => k == TokenType::Slash || k == TokenType::Star,
        _ => false,
    }
}

fn is_level_op(level: u8, k: TokenType) -> (r: bool)
    ensures
        r == level_op(level, k),
{
    match level {
        1 => k == TokenType::Or,
        2 => k == TokenType::And,
        3 => k == TokenType::BangEqual || k == TokenType::EqualEqual,
        4 => k == TokenType::Greater || k == TokenType::GreaterEqual || k == TokenType::Less || k
            == TokenType::LessEqual,
        5 => k == TokenType::Minus || k == TokenType::Plus,
        6 => k == TokenType::Slash || k == TokenType::Star,
        _ => false,
    }
}

/// Whether a token of kind `k` starts a statement.
fn is_statement_start(k: TokenType) -> (r: bool)
    ensures
        r == (k == TokenType::Class || k == TokenType::Fun || k == TokenType::Var || k
            == TokenType::For || k == TokenType::If || k == TokenType::While || k == TokenType::Print
            || k == TokenType::Return),
{
    match k {
        TokenType::Class | TokenType::Fun | TokenType::Var | TokenType::For | TokenType::If
        | TokenType::While | TokenType::Print | TokenType::Return => true,
        _ => false,
    }
}

/// The node for an operator of binary level `level`.
pub open spec fn level_node(level: u8, l: ExprView, op: TokenView, r: ExprView) -> ExprView {
    if level <= 2 {
        ExprView::Logical(Box::new(l), op, Box::new(r))
    } else {
        ExprView::Binary(Box::new(l), op, Box::new(r))
    }
}

pub open spec fn expect_expression() -> Seq<char> {
    "Expect expression."@
}

pub open spec fn invalid_target() -> Seq<char> {
    "Invalid assignment target."@
}

/// The expression at `p` of precedence level `level`: 0 assignment, 1 to 6
/// the binary levels, 7 unary, 8 primary.
pub open spec fn parse_expr(toks: Seq<TokenView>, p: int, level: u8) -> ExprResult
    decreases toks.len() - p, 2 * (9 - level) + 1,
{
    if !(0 <= p < toks.len()) || level > 8 {
        Err(((toks[p], expect_expression()), p))
    } else if level == 0 {
        match parse_expr(toks, p, 1) {
            Err(e) => Err(e),
            Ok((target, pos1)) => if p <= pos1 < toks.len() && check(toks, pos1, TokenType::Equal) {
                match parse_expr(toks, pos1 + 1, 0) {
                    Err(e) => Err(e),
                    Ok((value, pos2)) => match target {
                        ExprView::Var(name) => Ok((ExprView::Assignment(name, Box::new(value)), pos2)),
                        _ => Err(((toks[pos1], invalid_target()), pos2)),
                    },
                }
            } else {
                Ok((target, pos1))
            },
        }
    } else if level <= 6 {
        match parse_expr(toks, p, (level + 1) as u8) {
            Err(e) => Err(e),
            Ok((l, pos1)) => if p <= pos1 < toks.len() {
                parse_fold(toks, pos1, level, l)
            } else {
                Ok((l, pos1))
            },
        }
    } else if level == 7 {
        if check(toks, p, TokenType::Bang) || check(toks, p, TokenType::Minus) {
            match parse_expr(toks, p + 1, 7) {
                Err(e) => Err(e),
                Ok((r, pos1)) => Ok((ExprView::Unary(toks[p], Box::new(r)), pos1)),
            }
        } else {
            parse_expr(toks, p, 8)
        }
    } else {
        if check(toks, p, TokenType::False) {
            Ok((ExprView::Literal(Value::Bool(false)), p + 1))
        } else if check(toks, p, TokenType::True) {
            Ok((ExprView::Literal(Value::Bool(true)), p + 1))
        } else if check(toks, p, TokenType::Nil) {
            Ok((ExprView::Literal(Value::Nil), p + 1))
        } else if check(toks, p, TokenType::Number) || check(toks, p, TokenType::String) {
            Ok((ExprView::Literal(literal_value(toks[p])), p + 1))
        } else if check(toks, p, TokenType::Identifier) {
            Ok((ExprView::Var(toks[p]), p + 1))
        } else if check(toks, p, TokenType::LeftParen) {
            match parse_expr(toks, p + 1, 0) {
                Err(e) => Err(e),
                Ok((inner, pos1)) => if 0 <= pos1 < toks.len() {
                    match consume(toks, pos1, TokenType::RightParen, "Expect ')' after expression."@) {
                        Err(e) => Err(e),
                        Ok(pos2) => Ok((ExprView::Grouping(Box::new(inner)), pos2)),
                    }
                } else {
                    Err(((toks[p], expect_expression()), p))
                },
            }
        } else {
            Err(((toks[p], expect_expression()), p))
        }
    }
}

/// The value a literal token carries; none counts as nil.
pub open spec fn literal_value(t: TokenView) -> Value {
    match t.literal {
        Some(v) => v,
        None => Value::Nil,
    }
}

/// Folds the operators of binary level `level` from `p` onwards into `acc`,
/// left-associatively.
pub open spec fn parse_fold(toks: Seq<TokenView>, p: int, level: u8, acc: ExprView) -> ExprResult
    decreases toks.len() - p, 2 * (9 - level),
{
    if !(0 <= p < toks.len()) || level > 8 || level == 0 {
        Ok((acc, p))
    } else if !at_end(toks, p) && level_op(level, toks[p].token_type) {
        match parse_expr(toks, p + 1, (level + 1) as u8) {
            Err(e) => Err(e),
            Ok((r, pos1)) => if p < pos1 < toks.len() {
                parse_fold(toks, pos1, level, level_node(level, acc, toks[p], r))
            } else {
                Ok((level_node(level, acc, toks[p], r), pos1))
            },
        }
    } else {
        Ok((acc, p))
    }
}

/// A variable declaration after `var`.
pub open spec fn parse_var(toks: Seq<TokenView>, p: int) -> Result<(StmtView, int), (ParseErrorView, int)>
    decreases toks.len() - p, 20int,
{
    if !(0 <= p < toks.len()) {
        Err(((toks[p], expect_expression()), p))
    } else {
        match consume(toks, p, TokenType::Identifier, "Expect variable name"@) {
            Err(e) => Err(e),
            Ok(pos1) => {
                let name = toks[p];
                if check(toks, pos1, TokenType::Equal) {
                    match parse_expr(toks, pos1 + 1, 0) {
                        Err(e) => Err(e),
                        Ok((init, pos2)) => if 0 <= pos2 < toks.len() {
                            match consume(toks, pos2, TokenType::SemiColon, "Expect ';' after variable declaration"@) {
                                Err(e) => Err(e),
                                Ok(pos3) => Ok((StmtView::Var(name, Some(init)), pos3)),
                            }
                        } else {
                            Err(((toks[p], expect_expression()), p))
                        },
                    }
                } else {
                    match consume(toks, pos1, TokenType::SemiColon, "Expect ';' after variable declaration"@) {
                        Err(e) => Err(e),
                        Ok(pos3) => Ok((StmtView::Var(name, None), pos3)),
                    }
                }
            },
        }
    }
}

/// An expression followed by `;`: a print statement where `print` holds,
/// else an expression statement.
pub open spec fn parse_terminated(toks: Seq<TokenView>, p: int, print: bool, msg: Seq<char>) -> Result<
    (StmtView, int),
    (ParseErrorView, int),
>
    decreases toks.len() - p, 20int,
{
    if !(0 <= p < toks.len()) {
        Err(((toks[p], expect_expression()), p))
    } else {
        match parse_expr(toks, p, 0) {
            Err(e) => Err(e),
            Ok((e, pos1)) => if 0 <= pos1 < toks.len() {
                match consume(toks, pos1, TokenType::SemiColon, msg) {
                    Err(er) => Err(er),
                    Ok(pos2) => Ok((if print { StmtView::Print(e) } else { StmtView::Expr(e) }, pos2)),
                }
            } else {
                Err(((toks[p], expect_expression()), p))
            },
        }
    }
}

/// A statement at `p`, with the errors `errs` recorded before it.
pub open spec fn parse_stmt(toks: Seq<TokenView>, p: int, errs: Seq<ParseErrorView>) -> StmtResult
    decreases toks.len() - p, 22int,
{
    if !(0 <= p < toks.len()) {
        (Err(((toks[p], expect_expression()), p)), errs)
    } else if check(toks, p, TokenType::Print) {
        (parse_terminated(toks, p + 1, true, "Expect ';' after value."@), errs)
    } else if check(toks, p, TokenType::LeftBrace) {
        parse_block(toks, p + 1, Seq::empty(), errs)
    } else if check(toks, p, TokenType::If) {
        parse_if(toks, p + 1, errs)
    } else {
        (parse_terminated(toks, p, false, "Expect ';' after expression."@), errs)
    }
}

/// The rest of an `if` statement after `if`; the nearest `if` takes an
/// `else`.
pub open spec fn parse_if(toks: Seq<TokenView>, p: int, errs: Seq<ParseErrorView>) -> StmtResult
    decreases toks.len() - p, 21int,
{
    if !(0 <= p < toks.len()) {
        (Err(((toks[p], expect_expression()), p)), errs)
    } else {
        match consume(toks, p, TokenType::LeftParen, "Expect '(' after if"@) {
            Err(e) => (Err(e), errs),
            Ok(pos1) => match parse_expr(toks, pos1, 0) {
                Err(e) => (Err(e), errs),
                Ok((cond, pos2)) => if p < pos2 < toks.len() {
                    match consume(toks, pos2, TokenType::RightParen, "Expect ')' after if condition"@) {
                        Err(e) => (Err(e), errs),
                        Ok(pos3) => {
                            let (then_r, errs1) = parse_stmt(toks, pos3, errs);
                            match then_r {
                                Err(e) => (Err(e), errs1),
                                Ok((then_s, pos4)) => if p < pos4 < toks.len() && check(
                                    toks,
                                    pos4,
                                    TokenType::Else,
                                ) {
                                    let (else_r, errs2) = parse_stmt(toks, pos4 + 1, errs1);
                                    match else_r {
                                        Err(e) => (Err(e), errs2),
                                        Ok((else_s, pos5)) => (
                                            Ok(
                                                (
                                                    StmtView::If(
                                                        cond,
                                                        Box::new(then_s),
                                                        Some(Box::new(else_s)),
                                                    ),
                                                    pos5,
                                                ),
                                            ),
                                            errs2,
                                        ),
                                    }
                                } else {
                                    (Ok((StmtView::If(cond, Box::new(then_s), None), pos4)), errs1)
                                },
                            }
                        },
                    }
                } else {
                    (Err(((toks[p], expect_expression()), p)), errs)
                },
            },
        }
    }
}

/// The declarations of a block from `p`, after those in `acc`, up to and
/// including the closing brace.
pub open spec fn parse_block(
    toks: Seq<TokenView>,
    p: int,
    acc: Seq<StmtView>,
    errs: Seq<ParseErrorView>,
) -> StmtResult
    decreases toks.len() - p, 24int,
{
    if !(0 <= p < toks.len()) {
        (Err(((toks[p], expect_expression()), p)), errs)
    } else if !check(toks, p, TokenType::RightBrace) && !at_end(toks, p) {
        let (d, pos1, errs1) = parse_decl(toks, p, errs);
        if p < pos1 < toks.len() {
            parse_block(
                toks,
                pos1,
                match d {
                    Some(s) => acc.push(s),
                    None => acc,
                },
                errs1,
            )
        } else {
            (Err(((toks[p], expect_expression()), p)), errs1)
        }
    } else {
        match consume(toks, p, TokenType::RightBrace, "Expect '}' after block"@) {
            Err(e) => (Err(e), errs),
            Ok(pos1) => (Ok((StmtView::Block(acc), pos1)), errs),
        }
    }
}

/// The position after discarding tokens from `p` up to a statement
/// boundary: just past a `;`, or at a keyword that starts a statement.
pub open spec fn synchronize_from(toks: Seq<TokenView>, p: int) -> int
    decreases toks.len() - p,
{
    if !(0 < p < toks.len()) || at_end(toks, p) {
        p
    } else if toks[p - 1].token_type == TokenType::SemiColon {
        p
    } else {
        match toks[p].token_type {
            TokenType::Class | TokenType::Fun | TokenType::Var | TokenType::For | TokenType::If
            | TokenType::While | TokenType::Print | TokenType::Return => p,
            _ => synchronize_from(toks, p + 1),
        }
    }
}

/// A declaration at `p`: the statement, if it parsed, the position after it
/// (after recovery, on an error), and the errors recorded.
pub open spec fn parse_decl(toks: Seq<TokenView>, p: int, errs: Seq<ParseErrorView>) -> (
    Option<StmtView>,
    int,
    Seq<ParseErrorView>,
)
    decreases toks.len() - p, 23int,
{
    if !(0 <= p < toks.len()) {
        (None, p, errs)
    } else {
        let (r, errs1) = if check(toks, p, TokenType::Var) {
            (parse_var(toks, p + 1), errs)
        } else {
            parse_stmt(toks, p, errs)
        };
        match r {
            Ok((s, pos1)) => (Some(s), pos1, errs1),
            Err((e, q)) => (None, if 0 <= q < toks.len() {
                synchronize_from(toks, advance(toks, q))
            } else {
                q
            }, errs1.push(e)),
        }
    }
}

/// The declarations from `p` to the end of input, after those in `acc`.
pub open spec fn parse_program(
    toks: Seq<TokenView>,
    p: int,
    acc: Seq<StmtView>,
    errs: Seq<ParseErrorView>,
) -> (Seq<StmtView>, Seq<ParseErrorView>)
    decreases toks.len() - p,
{
    if !(0 <= p < toks.len()) || at_end(toks, p) {
        (acc, errs)
    } else {
        let (d, pos1, errs1) = parse_decl(toks, p, errs);
        let acc1 = match d {
            Some(s) => acc.push(s),
            None => acc,
        };
        if p < pos1 < toks.len() {
            parse_program(toks, pos1, acc1, errs1)
        } else {
            (acc1, errs1)
        }
    }
}

/// A syntax error: the offending token and a message.
#[derive(Debug)]
pub struct ParseError(pub Token, pub String);

impl View for ParseError {
    type V = ParseErrorView;

    open spec fn view(&self) -> ParseErrorView {
        (self.0@, self.1@)
    }
}

pub open spec fn parse_errors_model(v: Seq<ParseError>) -> Seq<ParseErrorView> {
    v.map_values(|e: ParseError| e@)
}

/// The statements of a program, as mathematics sees them.
pub open spec fn program_model(v: Seq<Box<Stmt>>) -> Seq<StmtView> {
    v.map_values(|s: Box<Stmt>| s.model())
}

pub open spec fn expr_result_model(r: Result<(Expr, usize), (ParseError, usize)>) -> ExprResult {
    match r {
        Ok((e, q)) => Ok((e.model(), q as int)),
        Err((e, q)) => Err((e@, q as int)),
    }
}

pub open spec fn stmt_result_model(r: Result<(Stmt, usize), (ParseError, usize)>) -> Result<
    (StmtView, int),
    (ParseErrorView, int),
> {
    match r {
        Ok((s, q)) => Ok((s.model(), q as int)),
        Err((e, q)) => Err((e@, q as int)),
    }
}

/// Where a parse that started at `p` may stop: past `p` on success, not
/// before it on failure, and never past the end of input.
pub open spec fn progress<T>(r: Result<(T, usize), (ParseError, usize)>, p: int, len: int) -> bool {
    match r {
        Ok((_, q)) => p < q < len,
        Err((_, q)) => p <= q < len,
    }
}

/// A recursive-descent parser over a token sequence that ends with the end
/// of input. Syntax errors are collected in `errors`; parsing resumes at the
/// next statement boundary after each.
pub struct Parser {
    pub tokens: Vec<Token>,
    pub current: usize,
    pub errors: Vec<ParseError>,
}

impl Parser {
    /// The tokens as mathematics sees them.
    pub open spec fn toks(&self) -> Seq<TokenView> {
        tokens_model(self.tokens@)
    }

    pub open spec fn wf(&self) -> bool {
        &&& tokens_wf(self.toks())
        &&& self.tokens@.len() == self.toks().len()
    }

    /// A parser at the first of `tokens`.
    pub fn new(tokens: Vec<Token>) -> (r: Self)
        requires
            tokens_wf(tokens_model(tokens@)),
        ensures
            r.wf(),
            r.toks() == tokens_model(tokens@),
            r.current == 0,
            r.errors@.len() == 0,
    {
        Parser { tokens, current: 0, errors: Vec::new() }
    }

    fn at_end(&self, p: usize) -> (r: bool)
        requires
            self.wf(),
            p < self.toks().len(),
        ensures
            r == at_end(self.toks(), p as int),
    {
        self.tokens[p].token_type == TokenType::Eof
    }

    fn check(&self, p: usize, k: TokenType) -> (r: bool)
        requires
            self.wf(),
            p < self.toks().len(),
        ensures
            r == check(self.toks(), p as int, k),
            r ==> p + 1 < self.toks().len() <= usize::MAX,
    {
        let n = self.tokens.len();
        if self.at_end(p) {
            false
        } else {
            self.tokens[p].token_type == k
        }
    }

    /// A copy of the token at `p`.
    fn token(&self, p: usize) -> (r: Token)
        requires
            self.wf(),
            p < self.toks().len(),
        ensures
            r@ == self.toks()[p as int],
    {
        self.tokens[p].duplicate()
    }

    fn consume(&self, p: usize, k: TokenType, message: &str) -> (r: Result<usize, (ParseError, usize)>)
        requires
            self.wf(),
            p < self.toks().len(),
        ensures
            match consume(self.toks(), p as int, k, message@) {
                Ok(q) => r matches Ok(x) && x == q,
                Err((e, q)) => r matches Err((x, y)) && x@ == e && y == q,
            },
            r matches Ok(q) ==> q == p + 1 && q < self.toks().len(),
    {
        if self.check(p, k) {
            let n = self.tokens.len();
            assert(p + 1 < n);
            Ok(p + 1)
        } else {
            Err((ParseError(self.token(p), message.to_owned()), p))
        }
    }

    /// An expression at `p`.
    fn expression(&self, p: usize) -> (r: Result<(Expr, usize), (ParseError, usize)>)
        requires
            self.wf(),
            p < self.toks().len(),
        ensures
            expr_result_model(r) == parse_expr(self.toks(), p as int, 0),
            progress(r, p as int, self.toks().len() as int),
        decreases self.toks().len() - p, 20int,
    {
        self.assignment(p)
    }

    /// An assignment, right-associative, or an expression of lower
    /// precedence. Only a variable can be assigned to.
    fn assignment(&self, p: usize) -> (r: Result<(Expr, usize), (ParseError, usize)>)
        requires
            self.wf(),
            p < self.toks().len(),
        ensures
            expr_result_model(r) == parse_expr(self.toks(), p as int, 0),
            progress(r, p as int, self.toks().len() as int),
        decreases self.toks().len() - p, 19int,
    {
        let (target, pos1) = match self.binary(p, 1) {
            Ok(x) => x,
            Err(e) => return Err(e),
        };
        if self.check(pos1, TokenType::Equal) {
            let (value, pos2) = match self.assignment(pos1 + 1) {
                Ok(x) => x,
                Err(e) => return Err(e),
            };
            match target {
                Expr::Var(name) => Ok((Expr::Assignment(name, Box::new(value)), pos2)),
                _ => Err((ParseError(self.token(pos1), "Invalid assignment target.".to_owned()), pos2)),
            }
        } else {
            Ok((target, pos1))
        }
    }

    /// An expression of binary level `level` (1 `or` to 6 factors), folded
    /// left-associatively.
    fn binary(&self, p: usize, level: u8) -> (r: Result<(Expr, usize), (ParseError, usize)>)
        requires
            self.wf(),
            p < self.toks().len(),
            1 <= level <= 6,
        ensures
            expr_result_model(r) == parse_expr(self.toks(), p as int, level),
            progress(r, p as int, self.toks().len() as int),
        decreases self.toks().len() - p, 2 * (9 - level) + 1,
    {
        let ghost toks = self.toks();
        let (first, pos1) = match self.operand(p, level + 1) {
            Ok(x) => x,
            Err(e) => return Err(e),
        };
        let mut acc = first;
        let mut q = pos1;
        while !self.at_end(q) && is_level_op(level, self.tokens[q].token_type)
            invariant
                self.wf(),
                toks == self.toks(),
                1 <= level <= 6,
                p < q < toks.len(),
                parse_expr(toks, p as int, level) == parse_fold(toks, q as int, level, acc.model()),
            decreases toks.len() - q,
        {
            let op = self.token(q);
            let n = self.tokens.len();
            assert(q + 1 < n);
            let (right, q1) = match self.operand(q + 1, level + 1) {
                Ok(x) => x,
                Err(e) => return Err(e),
            };
            acc = if level <= 2 {
                Expr::Logical(Box::new(acc), op, Box::new(right))
            } else {
                Expr::Binary(Box::new(acc), op, Box::new(right))
            };
            q = q1;
        }
        Ok((acc, q))
    }

    /// An operand of a binary level: the next binary level, or a unary
    /// expression.
    fn operand(&self, p: usize, level: u8) -> (r: Result<(Expr, usize), (ParseError, usize)>)
        requires
            self.wf(),
            p < self.toks().len(),
            2 <= level <= 7,
        ensures
            expr_result_model(r) == parse_expr(self.toks(), p as int, level),
            progress(r, p as int, self.toks().len() as int),
        decreases self.toks().len() - p, 2 * (9 - level) + 2,
    {
        if level <= 6 {
            self.binary(p, level)
        } else {
            self.unary(p)
        }
    }

    /// A prefix `!` or `-` applied to a unary expression, or a primary one.
    fn unary(&self, p: usize) -> (r: Result<(Expr, usize), (ParseError, usize)>)
        requires
            self.wf(),
            p < self.toks().len(),
        ensures
            expr_result_model(r) == parse_expr(self.toks(), p as int, 7),
            progress(r, p as int, self.toks().len() as int),
        decreases self.toks().len() - p, 5int,
    {
        if self.check(p, TokenType::Bang) || self.check(p, TokenType::Minus) {
            let op = self.token(p);
            match self.unary(p + 1) {
                Ok((right, q)) => Ok((Expr::Unary(op, Box::new(right)), q)),
                Err(e) => Err(e),
            }
        } else {
            self.primary(p)
        }
    }

    /// A literal, a variable, or a parenthesized expression.
    fn primary(&self, p: usize) -> (r: Result<(Expr, usize), (ParseError, usize)>)
        requires
            self.wf(),
            p < self.toks().len(),
        ensures
            expr_result_model(r) == parse_expr(self.toks(), p as int, 8),
            progress(r, p as int, self.toks().len() as int),
        decreases self.toks().len() - p, 3int,
    {
        if self.check(p, TokenType::False) {
            return Ok((Expr::Literal(Literal::Bool(false)), p + 1));
        }
        if self.check(p, TokenType::True) {
            return Ok((Expr::Literal(Literal::Bool(true)), p + 1));
        }
        if self.check(p, TokenType::Nil) {
            return Ok((Expr::Literal(Literal::Nil), p + 1));
        }
        if self.check(p, TokenType::Number) || self.check(p, TokenType::String) {
            let value = match &self.tokens[p].literal {
                Some(l) => l.duplicate(),
                None => Literal::Nil,
            };
            return Ok((Expr::Literal(value), p + 1));
        }
        if self.check(p, TokenType::Identifier) {
            return Ok((Expr::Var(self.token(p)), p + 1));
        }
        if self.check(p, TokenType::LeftParen) {
            let (inner, pos1) = match self.expression(p + 1) {
                Ok(x) => x,
                Err(e) => return Err(e),
            };
            return match self.consume(pos1, TokenType::RightParen, "Expect ')' after expression.") {
                Ok(pos2) => Ok((Expr::Grouping(Box::new(inner)), pos2)),
                Err(e) => Err(e),
            };
        }
        Err((ParseError(self.token(p), "Expect expression.".to_owned()), p))
    }

    /// A variable declaration after `var`: a name, an optional initializer,
    /// and `;`.
    fn var_declaration(&self, p: usize) -> (r: Result<(Stmt, usize), (ParseError, usize)>)
        requires
            self.wf(),
            p < self.toks().len(),
        ensures
            stmt_result_model(r) == parse_var(self.toks(), p as int),
            progress(r, p as int, self.toks().len() as int),
        decreases self.toks().len() - p, 20int,
    {
        let pos1 = match self.consume(p, TokenType::Identifier, "Expect variable name") {
            Ok(q) => q,
            Err(e) => return Err(e),
        };
        let name = self.token(p);
        if self.check(pos1, TokenType::Equal) {
            let (init, pos2) = match self.expression(pos1 + 1) {
                Ok(x) => x,
                Err(e) => return Err(e),
            };
            match self.consume(pos2, TokenType::SemiColon, "Expect ';' after variable declaration") {
                Ok(pos3) => Ok((Stmt::Var(name, Box::new(Some(init))), pos3)),
                Err(e) => Err(e),
            }
        } else {
            match self.consume(pos1, TokenType::SemiColon, "Expect ';' after variable declaration") {
                Ok(pos3) => Ok((Stmt::Var(name, Box::new(None)), pos3)),
                Err(e) => Err(e),
            }
        }
    }

    /// An expression followed by `;`: a print statement where `print`
    /// holds, else an expression statement.
    fn terminated(&self, p: usize, print: bool, message: &str) -> (r: Result<
        (Stmt, usize),
        (ParseError, usize),
    >)
        requires
            self.wf(),
            p < self.toks().len(),
        ensures
            stmt_result_model(r) == parse_terminated(self.toks(), p as int, print, message@),
            progress(r, p as int, self.toks().len() as int),
        decreases self.toks().len() - p, 20int,
    {
        let (e, pos1) = match self.expression(p) {
            Ok(x) => x,
            Err(e) => return Err(e),
        };
        match self.consume(pos1, TokenType::SemiColon, message) {
            Ok(pos2) => if print {
                Ok((Stmt::Print(Box::new(e)), pos2))
            } else {
                Ok((Stmt::Expr(Box::new(e)), pos2))
            },
            Err(er) => Err(er),
        }
    }

    /// A statement at `p`; errors inside a block are recorded in `errors`.
    fn statement(&self, p: usize, errors: &mut Vec<ParseError>) -> (r: Result<
        (Stmt, usize),
        (ParseError, usize),
    >)
        requires
            self.wf(),
            p < self.toks().len(),
        ensures
            (stmt_result_model(r), parse_errors_model(final(errors)@)) == parse_stmt(
                self.toks(),
                p as int,
                parse_errors_model(old(errors)@),
            ),
            progress(r, p as int, self.toks().len() as int),
        decreases self.toks().len() - p, 22int,
    {
        if self.check(p, TokenType::Print) {
            self.terminated(p + 1, true, "Expect ';' after value.")
        } else if self.check(p, TokenType::LeftBrace) {
            self.block_statement(p + 1, errors)
        } else if self.check(p, TokenType::If) {
            self.if_statement(p + 1, errors)
        } else {
            self.terminated(p, false, "Expect ';' after expression.")
        }
    }

    /// The rest of an `if` statement after `if`.
    fn if_statement(&self, p: usize, errors: &mut Vec<ParseError>) -> (r: Result<
        (Stmt, usize),
        (ParseError, usize),
    >)
        requires
            self.wf(),
            p < self.toks().len(),
        ensures
            (stmt_result_model(r), parse_errors_model(final(errors)@)) == parse_if(
                self.toks(),
                p as int,
                parse_errors_model(old(errors)@),
            ),
            progress(r, p as int, self.toks().len() as int),
        decreases self.toks().len() - p, 21int,
    {
        let pos1 = match self.consume(p, TokenType::LeftParen, "Expect '(' after if") {
            Ok(q) => q,
            Err(e) => return Err(e),
        };
        let (condition, pos2) = match self.expression(pos1) {
            Ok(x) => x,
            Err(e) => return Err(e),
        };
        let pos3 = match self.consume(pos2, TokenType::RightParen, "Expect ')' after if condition") {
            Ok(q) => q,
            Err(e) => return Err(e),
        };
        let (then_branch, pos4) = match self.statement(pos3, errors) {
            Ok(x) => x,
            Err(e) => return Err(e),
        };
        if self.check(pos4, TokenType::Else) {
            match self.statement(pos4 + 1, errors) {
                Ok((else_branch, pos5)) => Ok(
                    (
                        Stmt::If(Box::new(condition), Box::new(then_branch), Some(Box::new(else_branch))),
                        pos5,
                    ),
                ),
                Err(e) => Err(e),
            }
        } else {
            Ok((Stmt::If(Box::new(condition), Box::new(then_branch), None), pos4))
        }
    }

    /// The declarations of a block, after `{`, up to and including `}`.
    fn block_statement(&self, p: usize, errors: &mut Vec<ParseError>) -> (r: Result<
        (Stmt, usize),
        (ParseError, usize),
    >)
        requires
            self.wf(),
            p < self.toks().len(),
        ensures
            (stmt_result_model(r), parse_errors_model(final(errors)@)) == parse_block(
                self.toks(),
                p as int,
                Seq::empty(),
                parse_errors_model(old(errors)@),
            ),
            progress(r, p as int, self.toks().len() as int),
        decreases self.toks().len() - p, 24int,
    {
        let ghost toks = self.toks();
        let mut statements: Vec<Stmt> = Vec::new();
        let mut q = p;
        proof {
            assert(stmts_model(statements@) =~= Seq::empty());
        }
        while !self.check(q, TokenType::RightBrace) && !self.at_end(q)
            invariant
                self.wf(),
                toks == self.toks(),
                p <= q < toks.len(),
                parse_block(toks, p as int, Seq::empty(), parse_errors_model(old(errors)@))
                    == parse_block(toks, q as int, stmts_model(statements@), parse_errors_model(errors@)),
            decreases toks.len() - q,
        {
            let ghost before = statements@;
            let (d, q1) = self.declaration(q, errors);
            match d {
                Some(s) => {
                    statements.push(s);
                    proof {
                        assert(statements@.drop_last() =~= before);
                    }
                },
                None => {},
            }
            q = q1;
        }
        match self.consume(q, TokenType::RightBrace, "Expect '}' after block") {
            Ok(q1) => Ok((Stmt::Block(statements), q1)),
            Err(e) => Err(e),
        }
    }

    /// The position after skipping from `p` to a statement boundary.
    fn synchronize(&self, p: usize) -> (r: usize)
        requires
            self.wf(),
            p < self.toks().len(),
        ensures
            r == synchronize_from(self.toks(), p as int),
            p <= r < self.toks().len(),
    {
        let ghost toks = self.toks();
        let mut q = p;
        while 0 < q && !self.at_end(q) && self.tokens[q - 1].token_type != TokenType::SemiColon
            && !is_statement_start(self.tokens[q].token_type)
            invariant
                self.wf(),
                toks == self.toks(),
                p <= q < toks.len(),
                synchronize_from(toks, p as int) == synchronize_from(toks, q as int),
            decreases toks.len() - q,
        {
            let n = self.tokens.len();
            assert(q + 1 < n);
            q = q + 1;
        }
        q
    }

    /// A declaration at `p`, which is not the end of input: the statement, if
    /// it parsed, and where parsing goes on. A failed declaration is recorded
    /// in `errors` and skipped up to the next statement boundary.
    fn declaration(&self, p: usize, errors: &mut Vec<ParseError>) -> (r: (Option<Stmt>, usize))
        requires
            self.wf(),
            p < self.toks().len(),
            !at_end(self.toks(), p as int),
        ensures
            ({
                let (d, q, errs) = parse_decl(self.toks(), p as int, parse_errors_model(old(errors)@));
                &&& r.1 == q
                &&& parse_errors_model(final(errors)@) == errs
                &&& match d {
                    Some(s) => r.0 matches Some(x) && x.model() == s,
                    None => r.0 is None,
                }
            }),
            p < r.1 < self.toks().len(),
        decreases self.toks().len() - p, 23int,
    {
        let r = if self.check(p, TokenType::Var) {
            self.var_declaration(p + 1)
        } else {
            self.statement(p, errors)
        };
        match r {
            Ok((s, q)) => (Some(s), q),
            Err((e, q)) => {
                let ghost before = errors@;
                errors.push(e);
                proof {
                    assert(parse_errors_model(errors@) =~= parse_errors_model(before).push(e@));
                }
                let n = self.tokens.len();
                let next = if self.at_end(q) {
                    q
                } else {
                    assert(q + 1 < n);
                    q + 1
                };
                (None, self.synchronize(next))
            },
        }
    }

    /// Parses declarations up to the end of input. Statements that fail to
    /// parse are left out; their errors are recorded in `errors`.
    pub fn parse(&mut self) -> (r: Vec<Box<Stmt>>)
        requires
            old(self).wf(),
            old(self).current < old(self).toks().len(),
        ensures
            final(self).wf(),
            final(self).toks() == old(self).toks(),
            (program_model(r@), parse_errors_model(final(self).errors@)) == parse_program(
                old(self).toks(),
                old(self).current as int,
                Seq::empty(),
                parse_errors_model(old(self).errors@),
            ),
    {
        let ghost toks = self.toks();
        let mut statements: Vec<Box<Stmt>> = Vec::new();
        let mut errors: Vec<ParseError> = Vec::new();
        std::mem::swap(&mut errors, &mut self.errors);
        proof {
            assert(program_model(statements@) =~= Seq::empty());
        }
        while !self.at_end(self.current)
            invariant
                self.wf(),
                toks == self.toks(),
                self.current < toks.len(),
                parse_program(toks, old(self).current as int, Seq::empty(), parse_errors_model(old(self).errors@))
                    == parse_program(toks, self.current as int, program_model(statements@), parse_errors_model(errors@)),
            decreases toks.len() - self.current,
        {
            let ghost before = statements@;
            let (d, q) = self.declaration(self.current, &mut errors);
            match d {
                Some(s) => {
                    statements.push(Box::new(s));
                    proof {
                        assert(program_model(statements@) =~= program_model(before).push(s.model()));
                    }
                },
                None => {},
            }
            self.current = q;
        }
        std::mem::swap(&mut errors, &mut self.errors);
        statements
    }
}

} // verus!
