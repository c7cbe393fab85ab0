use crate::environment::{Environment, Scope, env_assign, env_define, env_lookup, lemma_scopes_last};
use crate::number::{ext_add, ext_div, ext_eq, ext_le, ext_lt, ext_mul, ext_neg, ext_sub};
use crate::parser::{Expr, ExprView, Stmt, StmtView, program_model, stmts_model};
use crate::token::{Literal, Token, TokenType, TokenView, Value};
use vstd::prelude::*;

verus! {

/// An error met while evaluating: the offending token and a message.
#[derive(Debug)]
pub struct RuntimeError(pub Token, pub String);

/// A run-time error as mathematics sees it: the token and the message.
pub type ErrorView = (TokenView, Seq<char>);

impl View for RuntimeError {
    type V = ErrorView;

    open spec fn view(&self) -> ErrorView {
        (self.0@, self.1@)
    }
}

/// The message of an undefined-variable error for `name`.
pub open spec fn undefined_message(name: Seq<char>) -> Seq<char> {
    "Undefined variable "@ + name
}

pub open spec fn operand_message() -> Seq<char> {
    "Operand must be a number"@
}

pub open spec fn operands_message() -> Seq<char> {
    "Operands must be numbers"@
}

/// What a program outputs, as mathematics sees it: a printed value or a
/// run-time error.
pub enum OutputView {
    Printed(Value),
    Failed(ErrorView),
}

/// What a program outputs: a printed value or a run-time error, in the order
/// in which they happened.
#[derive(Debug)]
pub enum Output {
    Printed(Literal),
    Failed(RuntimeError),
}

impl View for Output {
    type V = OutputView;

    open spec fn view(&self) -> OutputView {
        match self {
            Output::Printed(l) => OutputView::Printed(l@),
            Output::Failed(e) => OutputView::Failed(e@),
        }
    }
}

/// Nil and false are falsy; every other value is truthy.
pub open spec fn truthy(v: Value) -> bool {
    match v {
        Value::Nil => false,
        Value::Bool(b) => b,
        _ => true,
    }
}

/// Equality over all values: values of different kinds are never equal, and
/// numbers are equal by value.
pub open spec fn values_equal(a: Value, b: Value) -> bool {
    match (a, b) {
        (Value::Nil, Value::Nil) => true,
        (Value::Num(x), Value::Num(y)) => ext_eq(x, y),
        (Value::Str(x), Value::Str(y)) => x == y,
        (Value::Bool(x), Value::Bool(y)) => x == y,
        _ => false,
    }
}

/// The value of a prefix operator applied to `v`, or the error message.
pub open spec fn unary_value(op: TokenType, v: Value) -> Result<Value, Seq<char>> {
    match op {
        TokenType::Bang => Ok(Value::Bool(!truthy(v))),
        TokenType::Minus => match v {
            Value::Num(q) => Ok(Value::Num(ext_neg(q))),
            _ => Err(operand_message()),
        },
        _ => Ok(Value::Nil),
    }
}

/// The value of an infix operator applied to `l` and `r`, or the error
/// message. Arithmetic on numbers is total (see `ext_add` and its kin): it
/// never fails. `and` and `or` do not short-circuit: both operands
/// have been evaluated, and the result is the boolean conjunction or
/// disjunction of their truthiness.
pub open spec fn binary_value(op: TokenType, l: Value, r: Value) -> Result<Value, Seq<char>> {
    match (l, r) {
        (Value::Num(a), Value::Num(b)) => match op {
            TokenType::Plus => Ok(Value::Num(ext_add(a, b))),
            TokenType::Minus => Ok(Value::Num(ext_sub(a, b))),
            TokenType::Star => Ok(Value::Num(ext_mul(a, b))),
            TokenType::Slash => Ok(Value::Num(ext_div(a, b))),
            TokenType::Greater => Ok(Value::Bool(ext_lt(b, a))),
            TokenType::GreaterEqual => Ok(Value::Bool(ext_le(b, a))),
            TokenType::Less => Ok(Value::Bool(ext_lt(a, b))),
            TokenType::LessEqual => Ok(Value::Bool(ext_le(a, b))),
            _ => other_binary_value(op, l, r),
        },
        (Value::Str(a), Value::Str(b)) => match op {
            TokenType::Plus => Ok(Value::Str(a + b)),
            _ => other_binary_value(op, l, r),
        },
        _ => other_binary_value(op, l, r),
    }
}

/// The operators that take any values, and the type errors of the others.
pub open spec fn other_binary_value(op: TokenType, l: Value, r: Value) -> Result<Value, Seq<char>> {
    match op {
        TokenType::Plus | TokenType::Minus | TokenType::Star | TokenType::Slash
        | TokenType::Greater | TokenType::GreaterEqual | TokenType::Less
        | TokenType::LessEqual => Err(operands_message()),
        TokenType::EqualEqual => Ok(Value::Bool(values_equal(l, r))),
        TokenType::BangEqual => Ok(Value::Bool(!values_equal(l, r))),
        TokenType::And => Ok(Value::Bool(truthy(l) && truthy(r))),
        TokenType::Or => Ok(Value::Bool(truthy(l) || truthy(r))),
        _ => Ok(Value::Nil),
    }
}

/// An operator's outcome, with the operator's token on an error.
pub open spec fn at_token(t: TokenView, r: Result<Value, Seq<char>>) -> Result<Value, ErrorView> {
    match r {
        Ok(v) => Ok(v),
        Err(m) => Err((t, m)),
    }
}

/// Evaluates `e` in the chain of scopes `env`: the chain afterwards, and the
/// value or the error. Operands are evaluated left to right.
pub open spec fn eval(env: Seq<Scope>, e: ExprView) -> (Seq<Scope>, Result<Value, ErrorView>)
    decreases e,
{
    match e {
        ExprView::Literal(v) => (env, Ok(v)),
        ExprView::Grouping(g) => eval(env, *g),
        ExprView::Var(t) => match env_lookup(env, t.lexeme) {
            Some(v) => (env, Ok(v)),
            None => (env, Err((t, undefined_message(t.lexeme)))),
        },
        ExprView::Assignment(t, x) => {
            let (env1, r) = eval(env, *x);
            match r {
                Err(er) => (env1, Err(er)),
                Ok(v) => match env_assign(env1, t.lexeme, v) {
                    Some(env2) => (env2, Ok(v)),
                    None => (env1, Err((t, undefined_message(t.lexeme)))),
                },
            }
        },
        ExprView::Unary(op, x) => {
            let (env1, r) = eval(env, *x);
            match r {
                Err(er) => (env1, Err(er)),
                Ok(v) => (env1, at_token(op, unary_value(op.token_type, v))),
            }
        },
        ExprView::Binary(l, op, r) | ExprView::Logical(l, op, r) => {
            let (env1, rl) = eval(env, *l);
            match rl {
                Err(er) => (env1, Err(er)),
                Ok(a) => {
                    let (env2, rr) = eval(env1, *r);
                    match rr {
                        Err(er) => (env2, Err(er)),
                        Ok(b) => (env2, at_token(op, binary_value(op.token_type, a, b))),
                    }
                },
            }
        },
    }
}

/// Runs statement `s` with the chain of scopes `env`, after the values `out`
/// have been printed: the chain, the printed values and the outcome
/// afterwards. An expression statement yields its value.
pub open spec fn exec_stmt(env: Seq<Scope>, out: Seq<OutputView>, s: StmtView) -> (
    Seq<Scope>,
    Seq<OutputView>,
    Result<Option<Value>, ErrorView>,
)
    decreases s,
{
    match s {
        StmtView::Expr(e) => {
            let (env1, r) = eval(env, e);
            match r {
                Ok(v) => (env1, out, Ok(Some(v))),
                Err(er) => (env1, out, Err(er)),
            }
        },
        StmtView::Print(e) => {
            let (env1, r) = eval(env, e);
            match r {
                Ok(v) => (env1, out.push(OutputView::Printed(v)), Ok(None)),
                Err(er) => (env1, out, Err(er)),
            }
        },
        StmtView::Var(t, init) => match init {
            None => (env_define(env, t.lexeme, Value::Nil), out, Ok(None)),
            Some(e) => {
                let (env1, r) = eval(env, e);
                match r {
                    Ok(v) => (env_define(env1, t.lexeme, v), out, Ok(None)),
                    Err(er) => (env1, out, Err(er)),
                }
            },
        },
        StmtView::Block(ss) => {
            let (env1, out1, r) = exec_block(env.push(Seq::empty()), out, ss);
            match r {
                Ok(_) => (env1.drop_last(), out1, Ok(None)),
                Err(er) => (env1.drop_last(), out1, Err(er)),
            }
        },
        StmtView::If(c, t, e) => {
            let (env1, r) = eval(env, c);
            match r {
                Err(er) => (env1, out, Err(er)),
                Ok(v) => if truthy(v) {
                    exec_stmt(env1, out, *t)
                } else {
                    match e {
                        Some(x) => exec_stmt(env1, out, *x),
                        None => (env1, out, Ok(None)),
                    }
                },
            }
        },
    }
}

/// Runs the statements of a block in order, up to the first error.
pub open spec fn exec_block(env: Seq<Scope>, out: Seq<OutputView>, ss: Seq<StmtView>) -> (
    Seq<Scope>,
    Seq<OutputView>,
    Result<(), ErrorView>,
)
    decreases ss,
{
    if ss.len() == 0 {
        (env, out, Ok(()))
    } else {
        let (env1, out1, r) = exec_block(env, out, ss.drop_last());
        match r {
            Err(er) => (env1, out1, Err(er)),
            Ok(_) => {
                let (env2, out2, r2) = exec_stmt(env1, out1, ss.last());
                match r2 {
                    Ok(_) => (env2, out2, Ok(())),
                    Err(er) => (env2, out2, Err(er)),
                }
            },
        }
    }
}

/// Runs top-level statements in order, after the output `out`: an error
/// ends only its own statement, and is recorded in the output where it
/// arose.
pub open spec fn run(env: Seq<Scope>, out: Seq<OutputView>, ss: Seq<StmtView>) -> (
    Seq<Scope>,
    Seq<OutputView>,
)
    decreases ss.len(),
{
    if ss.len() == 0 {
        (env, out)
    } else {
        let (env1, out1) = run(env, out, ss.drop_last());
        let (env2, out2, r) = exec_stmt(env1, out1, ss.last());
        match r {
            Ok(_) => (env2, out2),
            Err(er) => (env2, out2.push(OutputView::Failed(er))),
        }
    }
}

proof fn lemma_assign_len(env: Seq<Scope>, name: Seq<char>, v: Value)
    ensures
        env_assign(env, name, v) matches Some(e) ==> e.len() == env.len(),
    decreases env.len(),
{
    if env.len() > 0 {
        lemma_assign_len(env.drop_last(), name, v);
    }
}

/// Evaluation keeps the number of scopes.
proof fn lemma_eval_len(env: Seq<Scope>, e: ExprView)
    ensures
        eval(env, e).0.len() == env.len(),
    decreases e,
{
    match e {
        ExprView::Grouping(g) => lemma_eval_len(env, *g),
        ExprView::Assignment(t, x) => {
            lemma_eval_len(env, *x);
            lemma_assign_len(eval(env, *x).0, t.lexeme, eval(env, *x).1->Ok_0);
        },
        ExprView::Unary(_, x) => lemma_eval_len(env, *x),
        ExprView::Binary(l, _, r) | ExprView::Logical(l, _, r) => {
            lemma_eval_len(env, *l);
            lemma_eval_len(eval(env, *l).0, *r);
        },
        _ => {},
    }
}

/// Running statements keeps the number of scopes.
proof fn lemma_exec_len(env: Seq<Scope>, out: Seq<OutputView>, s: StmtView)
    requires
        env.len() >= 1,
    ensures
        exec_stmt(env, out, s).0.len() == env.len(),
    decreases s,
{
    match s {
        StmtView::Expr(e) => lemma_eval_len(env, e),
        StmtView::Print(e) => lemma_eval_len(env, e),
        StmtView::Var(t, init) => match init {
            Some(e) => lemma_eval_len(env, e),
            None => {},
        },
        StmtView::Block(ss) => lemma_block_len(env.push(Seq::empty()), out, ss),
        StmtView::If(c, t, e) => {
            lemma_eval_len(env, c);
            let env1 = eval(env, c).0;
            lemma_exec_len(env1, out, *t);
            match e {
                Some(x) => lemma_exec_len(env1, out, *x),
                None => {},
            }
        },
    }
}

proof fn lemma_block_len(env: Seq<Scope>, out: Seq<OutputView>, ss: Seq<StmtView>)
    requires
        env.len() >= 1,
    ensures
        exec_block(env, out, ss).0.len() == env.len(),
    decreases ss,
{
    if ss.len() > 0 {
        lemma_block_len(env, out, ss.drop_last());
        let (env1, out1, _) = exec_block(env, out, ss.drop_last());
        lemma_exec_len(env1, out1, ss.last());
    }
}

pub open spec fn outputs_model(v: Seq<Output>) -> Seq<OutputView> {
    v.map_values(|o: Output| o@)
}

pub open spec fn result_model(r: Result<Literal, RuntimeError>) -> Result<Value, ErrorView> {
    match r {
        Ok(l) => Ok(l@),
        Err(e) => Err(e@),
    }
}

/// Runs statements against one global scope that lives as long as the
/// interpreter. Printed values and run-time errors are recorded in `output`,
/// in the order in which they happen.
pub struct Interpreter {
    pub environment: Environment,
    pub output: Vec<Output>,
}

impl Interpreter {
    /// The chain of scopes.
    pub open spec fn scopes(&self) -> Seq<Scope> {
        self.environment.scopes()
    }

    /// The output so far.
    pub open spec fn printed(&self) -> Seq<OutputView> {
        outputs_model(self.output@)
    }

    /// An interpreter with an empty global scope, nothing printed and no error.
    pub fn new() -> (r: Self)
        ensures
            r.scopes() == seq![Seq::<(Seq<char>, Value)>::empty()],
            r.printed().len() == 0,
    {
        let r = Interpreter { environment: Environment::new(None), output: Vec::new() };
        proof {
            assert(r.printed() =~= Seq::empty());
        }
        r
    }

    /// Runs each statement in order; a run-time error ends only the statement
    /// in which it arises, and is reported.
    pub fn interpret(&mut self, stmts: Vec<Box<Stmt>>)
        requires
            old(self).scopes().len() == 1,
        ensures
            (final(self).scopes(), final(self).printed()) == run(
                old(self).scopes(),
                old(self).printed(),
                program_model(stmts@),
            ),
            final(self).scopes().len() == 1,
    {
        let ghost ss = program_model(stmts@);
        let mut i: usize = 0;
        while i < stmts.len()
            invariant
                i <= stmts@.len(),
                ss == program_model(stmts@),
                self.scopes().len() == 1,
                (self.scopes(), self.printed()) == run(
                    old(self).scopes(),
                    old(self).printed(),
                    ss.subrange(0, i as int),
                ),
            decreases stmts@.len() - i,
        {
            proof {
                assert(ss.subrange(0, i + 1).drop_last() =~= ss.subrange(0, i as int));
                lemma_exec_len(self.scopes(), self.printed(), stmts@[i as int].model());
            }
            self.interpret_stmt(&stmts[i]);
            i = i + 1;
        }
        proof {
            assert(ss.subrange(0, i as int) =~= ss);
        }
    }

    /// Runs one top-level statement, reporting a run-time error; an
    /// expression statement yields its value.
    pub fn interpret_stmt(&mut self, stmt: &Stmt) -> (r: Option<Literal>)
        requires
            old(self).scopes().len() >= 1,
        ensures
            ({
                let (env, out, res) = exec_stmt(old(self).scopes(), old(self).printed(), stmt.model());
                &&& final(self).scopes() == env
                &&& match res {
                    Ok(v) => final(self).printed() == out && match v {
                        Some(x) => r matches Some(l) && l@ == x,
                        None => r is None,
                    },
                    Err(er) => final(self).printed() == out.push(OutputView::Failed(er)) && r is None,
                }
            }),
    {
        match self.execute(stmt) {
            Ok(v) => v,
            Err(e) => {
                let ghost before = self.output@;
                let ghost ev = e@;
                self.output.push(Output::Failed(e));
                proof {
                    assert(outputs_model(self.output@) =~= outputs_model(before).push(OutputView::Failed(ev)));
                }
                None
            },
        }
    }

    /// Runs a statement; on an error, the statement is abandoned where the
    /// error arose.
    fn execute(&mut self, stmt: &Stmt) -> (r: Result<Option<Literal>, RuntimeError>)
        requires
            old(self).scopes().len() >= 1,
        ensures
            ({
                let (env, out, res) = exec_stmt(old(self).scopes(), old(self).printed(), stmt.model());
                &&& final(self).scopes() == env
                &&& final(self).printed() == out
                &&& match res {
                    Ok(v) => match v {
                        Some(x) => r matches Ok(Some(l)) && l@ == x,
                        None => r matches Ok(None),
                    },
                    Err(er) => r matches Err(e) && e@ == er,
                }
            }),
        decreases stmt,
    {
        match stmt {
            Stmt::Expr(e) => match self.evaluate(e) {
                Ok(v) => Ok(Some(v)),
                Err(er) => Err(er),
            },
            Stmt::Print(e) => {
                let v = match self.evaluate(e) {
                    Ok(v) => v,
                    Err(er) => return Err(er),
                };
                let ghost before = self.output@;
                let ghost vv = v@;
                self.output.push(Output::Printed(v));
                proof {
                    assert(outputs_model(self.output@) =~= outputs_model(before).push(OutputView::Printed(vv)));
                }
                Ok(None)
            },
            Stmt::Var(name, initializer) => {
                let value = match &**initializer {
                    Some(e) => match self.evaluate(e) {
                        Ok(v) => v,
                        Err(er) => return Err(er),
                    },
                    None => Literal::Nil,
                };
                self.environment.define(name.lexeme.clone(), value);
                Ok(None)
            },
            Stmt::Block(stmts) => {
                let mut outer = Environment::new(None);
                std::mem::swap(&mut self.environment, &mut outer);
                self.environment = Environment::new(Some(Box::new(outer)));
                let ghost pushed = self.scopes();
                let r = self.execute_block(stmts);
                proof {
                    lemma_block_len(pushed, old(self).printed(), stmts_model(stmts@));
                }
                let mut inner = Environment::new(None);
                std::mem::swap(&mut self.environment, &mut inner);
                proof {
                    lemma_scopes_last(&inner);
                }
                match inner.enclosing {
                    Some(b) => {
                        self.environment = *b;
                    },
                    None => {},
                }
                match r {
                    Ok(()) => Ok(None),
                    Err(e) => Err(e),
                }
            },
            Stmt::If(condition, then_branch, else_branch) => {
                let c = match self.evaluate(condition) {
                    Ok(v) => v,
                    Err(er) => return Err(er),
                };
                if Interpreter::is_truthy(&c) {
                    self.execute(then_branch)
                } else {
                    match else_branch {
                        Some(s) => self.execute(s),
                        None => Ok(None),
                    }
                }
            },
        }
    }

    /// Runs the statements of a block in order, up to the first error.
    fn execute_block(&mut self, stmts: &Vec<Stmt>) -> (r: Result<(), RuntimeError>)
        requires
            old(self).scopes().len() >= 1,
        ensures
            ({
                let (env, out, res) = exec_block(old(self).scopes(), old(self).printed(), stmts_model(stmts@));
                &&& final(self).scopes() == env
                &&& final(self).printed() == out
                &&& match res {
                    Ok(_) => r is Ok,
                    Err(er) => r matches Err(e) && e@ == er,
                }
            }),
        decreases stmts,
    {
        let ghost ss = stmts_model(stmts@);
        let mut i: usize = 0;
        while i < stmts.len()
            invariant
                i <= stmts@.len(),
                ss == stmts_model(stmts@),
                self.scopes().len() == old(self).scopes().len(),
                exec_block(old(self).scopes(), old(self).printed(), ss.subrange(0, i as int)) == (
                    self.scopes(),
                    self.printed(),
                    Ok::<(), ErrorView>(()),
                ),
            decreases stmts@.len() - i,
        {
            proof {
                lemma_stmts_model_prefix(stmts@, i as int);
                assert(ss.subrange(0, i + 1).drop_last() =~= ss.subrange(0, i as int));
                lemma_exec_len(self.scopes(), self.printed(), stmts@[i as int].model());
            }
            match self.execute(&stmts[i]) {
                Ok(_) => {},
                Err(e) => {
                    proof {
                        lemma_stmts_model_len(stmts@);
                        lemma_block_stops(
                            old(self).scopes(),
                            old(self).printed(),
                            ss,
                            i + 1,
                        );
                    }
                    return Err(e);
                },
            }
            i = i + 1;
        }
        proof {
            lemma_stmts_model_len(stmts@);
            assert(ss.subrange(0, i as int) =~= ss);
        }
        Ok(())
    }

    /// Evaluates an expression, left to right.
    fn evaluate(&mut self, expr: &Expr) -> (r: Result<Literal, RuntimeError>)
        ensures
            final(self).printed() == old(self).printed(),
            (final(self).scopes(), result_model(r)) == eval(old(self).scopes(), expr.model()),
        decreases expr,
    {
        match expr {
            Expr::Literal(l) => Ok(l.duplicate()),
            Expr::Grouping(g) => self.evaluate(g),
            Expr::Var(t) => self.environment.get(t.duplicate()),
            Expr::Assignment(t, e) => {
                let value = self.evaluate(e)?;
                let copy = value.duplicate();
                self.environment.assign(t.duplicate(), copy)?;
                Ok(value)
            },
            Expr::Unary(t, e) => {
                let v = self.evaluate(e)?;
                Interpreter::evaluate_unary(t, v)
            },
            Expr::Binary(l, t, r) | Expr::Logical(l, t, r) => {
                let a = self.evaluate(l)?;
                let b = self.evaluate(r)?;
                Interpreter::evaluate_binary(t, a, b)
            },
        }
    }

    /// Applies a prefix operator to a value.
    fn evaluate_unary(t: &Token, v: Literal) -> (r: Result<Literal, RuntimeError>)
        ensures
            result_model(r) == at_token(t@, unary_value(t.token_type, v@)),
    {
        match t.token_type {
            TokenType::Bang => Ok(Literal::Bool(!Interpreter::is_truthy(&v))),
            TokenType::Minus => match v {
                Literal::Number(n) => Ok(Literal::Number(n.neg())),
                _ => Err(RuntimeError(t.duplicate(), "Operand must be a number".to_owned())),
            },
            _ => Ok(Literal::Nil),
        }
    }

    /// Applies an infix operator to two values.
    fn evaluate_binary(t: &Token, l: Literal, r: Literal) -> (res: Result<Literal, RuntimeError>)
        ensures
            result_model(res) == at_token(t@, binary_value(t.token_type, l@, r@)),
    {
        match (l, r) {
            (Literal::Number(a), Literal::Number(b)) => {
                match t.token_type {
                    TokenType::Plus => Ok(Literal::Number(a.add(&b))),
                    TokenType::Minus => Ok(Literal::Number(a.sub(&b))),
                    TokenType::Star => Ok(Literal::Number(a.mul(&b))),
                    TokenType::Slash => Ok(Literal::Number(a.div(&b))),
                    TokenType::Greater => Ok(Literal::Bool(b.less(&a))),
                    TokenType::GreaterEqual => Ok(Literal::Bool(b.less_equal(&a))),
                    TokenType::Less => Ok(Literal::Bool(a.less(&b))),
                    TokenType::LessEqual => Ok(Literal::Bool(a.less_equal(&b))),
                    _ => Interpreter::evaluate_other(t, &Literal::Number(a), &Literal::Number(b)),
                }
            },
            (Literal::String(a), Literal::String(b)) => match t.token_type {
                TokenType::Plus => {
                    let mut s = a;
                    s.append(b.as_str());
                    Ok(Literal::String(s))
                },
                _ => Interpreter::evaluate_other(t, &Literal::String(a), &Literal::String(b)),
            },
            (l, r) => Interpreter::evaluate_other(t, &l, &r),
        }
    }

    /// The operators that take any values, and the type errors of the others.
    fn evaluate_other(t: &Token, l: &Literal, r: &Literal) -> (res: Result<Literal, RuntimeError>)
        ensures
            result_model(res) == at_token(t@, other_binary_value(t.token_type, l@, r@)),
    {
        match t.token_type {
            TokenType::Plus | TokenType::Minus | TokenType::Star | TokenType::Slash
            | TokenType::Greater | TokenType::GreaterEqual | TokenType::Less
            | TokenType::LessEqual => Err(
                RuntimeError(t.duplicate(), "Operands must be numbers".to_owned()),
            ),
            TokenType::EqualEqual => Ok(Literal::Bool(Interpreter::is_equal(l, r))),
            TokenType::BangEqual => Ok(Literal::Bool(!Interpreter::is_equal(l, r))),
            TokenType::And => Ok(
                Literal::Bool(Interpreter::is_truthy(l) && Interpreter::is_truthy(r)),
            ),
            TokenType::Or => Ok(
                Literal::Bool(Interpreter::is_truthy(l) || Interpreter::is_truthy(r)),
            ),
            _ => Ok(Literal::Nil),
        }
    }

    /// Nil and false are falsy; everything else is truthy.
    pub fn is_truthy(l: &Literal) -> (r: bool)
        ensures
            r == truthy(l@),
    {
        match l {
            Literal::Nil => false,
            Literal::Bool(b) => *b,
            _ => true,
        }
    }

    /// Equality over all values; values of different kinds are never equal.
    pub fn is_equal(l: &Literal, r: &Literal) -> (res: bool)
        ensures
            res == values_equal(l@, r@),
    {
        match (l, r) {
            (Literal::Nil, Literal::Nil) => true,
            (Literal::Number(a), Literal::Number(b)) => a.equals(b),
            (Literal::String(a), Literal::String(b)) => *a == *b,
            (Literal::Bool(a), Literal::Bool(b)) => *a == *b,
            _ => false,
        }
    }
}

/// Once a block has failed, the statements after the failure do not run.
proof fn lemma_block_stops(env: Seq<Scope>, out: Seq<OutputView>, ss: Seq<StmtView>, k: int)
    requires
        0 <= k <= ss.len(),
        exec_block(env, out, ss.subrange(0, k)).2 is Err,
    ensures
        exec_block(env, out, ss) == exec_block(env, out, ss.subrange(0, k)),
    decreases ss.len() - k,
{
    if k < ss.len() {
        assert(ss.subrange(0, k + 1).drop_last() =~= ss.subrange(0, k));
        lemma_block_stops(env, out, ss, k + 1);
    } else {
        assert(ss.subrange(0, k) =~= ss);
    }
}

proof fn lemma_stmts_model_prefix(v: Seq<Stmt>, i: int)
    requires
        0 <= i < v.len(),
    ensures
        stmts_model(v).len() == v.len(),
        stmts_model(v)[i] == v[i].model(),
    decreases v.len(),
{
    if i < v.len() - 1 {
        lemma_stmts_model_prefix(v.drop_last(), i);
    } else {
        lemma_stmts_model_len(v.drop_last());
    }
}

proof fn lemma_stmts_model_len(v: Seq<Stmt>)
    ensures
        stmts_model(v).len() == v.len(),
    decreases v.len(),
{
    if v.len() > 0 {
        lemma_stmts_model_len(v.drop_last());
    }
}


/// Running a statement does not depend on the output before it: its output
/// follows the earlier one.
proof fn lemma_exec_output(env: Seq<Scope>, out: Seq<OutputView>, s: StmtView)
    ensures
        exec_stmt(env, out, s).0 == exec_stmt(env, Seq::empty(), s).0,
        exec_stmt(env, out, s).1 == out + exec_stmt(env, Seq::empty(), s).1,
        exec_stmt(env, out, s).2 == exec_stmt(env, Seq::empty(), s).2,
    decreases s,
{
    let e = Seq::<OutputView>::empty();
    match s {
        StmtView::Expr(_) => {
            assert(out + e =~= out);
        },
        StmtView::Print(x) => {
            let o = OutputView::Printed(eval(env, x).1->Ok_0);
            assert(out.push(o) =~= out + e.push(o));
            assert(out + e =~= out);
        },
        StmtView::Var(_, _) => {
            assert(out + e =~= out);
        },
        StmtView::Block(ss) => {
            lemma_block_output(env.push(Seq::empty()), out, ss);
        },
        StmtView::If(c, t, x) => {
            let env1 = eval(env, c).0;
            lemma_exec_output(env1, out, *t);
            match x {
                Some(y) => lemma_exec_output(env1, out, *y),
                None => {},
            }
            assert(out + e =~= out);
        },
    }
}

proof fn lemma_block_output(env: Seq<Scope>, out: Seq<OutputView>, ss: Seq<StmtView>)
    ensures
        exec_block(env, out, ss).0 == exec_block(env, Seq::empty(), ss).0,
        exec_block(env, out, ss).1 == out + exec_block(env, Seq::empty(), ss).1,
        exec_block(env, out, ss).2 == exec_block(env, Seq::empty(), ss).2,
    decreases ss,
{
    if ss.len() == 0 {
        assert(out + Seq::<OutputView>::empty() =~= out);
    } else {
        lemma_block_output(env, out, ss.drop_last());
        let (env1, out1, _) = exec_block(env, Seq::empty(), ss.drop_last());
        lemma_exec_output(env1, out + out1, ss.last());
        lemma_exec_output(env1, out1, ss.last());
        let o = exec_stmt(env1, Seq::empty(), ss.last()).1;
        assert((out + out1) + o =~= out + (out1 + o));
    }
}

/// A run's effect depends only on the statements and the scopes it starts
/// from: its output, printed values and run-time errors in the order they
/// happen, follows whatever was output before.
pub proof fn lemma_run_output_determined(env: Seq<Scope>, out: Seq<OutputView>, ss: Seq<StmtView>)
    ensures
        run(env, out, ss) == (run(env, Seq::empty(), ss).0, out + run(env, Seq::empty(), ss).1),
    decreases ss.len(),
{
    let eo = Seq::<OutputView>::empty();
    if ss.len() == 0 {
        assert(out + eo =~= out);
    } else {
        lemma_run_output_determined(env, out, ss.drop_last());
        let (env1, out1) = run(env, eo, ss.drop_last());
        lemma_exec_output(env1, out + out1, ss.last());
        lemma_exec_output(env1, out1, ss.last());
        let (_, o, r) = exec_stmt(env1, eo, ss.last());
        assert((out + out1) + o =~= out + (out1 + o));
        match r {
            Ok(_) => {},
            Err(x) => {
                assert((out + (out1 + o)).push(OutputView::Failed(x)) =~= out + (out1 + o).push(
                    OutputView::Failed(x),
                ));
            },
        }
    }
}

} // verus!
