use crate::lexer::Tok;
use crate::lexer::Token;
use vstd::prelude::*;
use vstd::string::StringExecFns;

verus! {

broadcast use vstd::seq::group_seq_axioms, vstd::std_specs::vec::group_vec_axioms;

/// A value-producing syntax tree node: a number, a variable or a binary
/// operation. Subtrees are exclusively owned; the grammar only builds trees.
#[derive(Debug, PartialEq)]
pub enum Expr {
    Number(i64),
    Ident(String),
    Binary { left: Box<Expr>, op: Token, right: Box<Expr> },
}

/// Mathematical model of an expression.
pub ghost enum ExprS {
    Number(i64),
    Ident(Seq<char>),
    Binary { left: Box<ExprS>, op: Tok, right: Box<ExprS> },
}

impl DeepView for Expr {
    type V = ExprS;

    open spec fn deep_view(&self) -> ExprS
        decreases self,
    {
        match self {
            Expr::Number(n) => ExprS::Number(*n),
            Expr::Ident(name) => ExprS::Ident(name@),
            Expr::Binary { left, op, right } => ExprS::Binary {
                left: Box::new((**left).deep_view()),
                op: op@,
                right: Box::new((**right).deep_view()),
            },
        }
    }
}

impl View for Expr {
    type V = ExprS;

    open spec fn view(&self) -> ExprS {
        self.deep_view()
    }
}

/// One executable unit of the language: an assignment, a `print`, an `if`
/// or a `while`. Block bodies are ordered statement sequences owned by the
/// enclosing statement.
#[derive(Debug, PartialEq)]
pub enum Statement {
    Assign(String, Expr),
    Print(Expr),
    If(Expr, Vec<Statement>),
    While(Expr, Vec<Statement>),
}

/// Mathematical model of a statement.
pub ghost enum StmtS {
    Assign(Seq<char>, ExprS),
    Print(ExprS),
    If(ExprS, Seq<StmtS>),
    While(ExprS, Seq<StmtS>),
}

impl DeepView for Statement {
    type V = StmtS;

    open spec fn deep_view(&self) -> StmtS
        decreases self,
    {
        match self {
            Statement::Assign(name, e) => StmtS::Assign(name@, e.deep_view()),
            Statement::Print(e) => StmtS::Print(e.deep_view()),
            Statement::If(c, body) => StmtS::If(c.deep_view(), stmts_view(body@)),
            Statement::While(c, body) => StmtS::While(c.deep_view(), stmts_view(body@)),
        }
    }
}

/// The models of a statement sequence, element by element.
pub open spec fn stmts_view(ss: Seq<Statement>) -> Seq<StmtS>
    decreases ss,
{
    Seq::new(
        ss.len(),
        |i: int|
            if 0 <= i < ss.len() {
                ss[i].deep_view()
            } else {
                StmtS::Print(ExprS::Number(0))
            },
    )
}

impl View for Statement {
    type V = StmtS;

    open spec fn view(&self) -> StmtS {
        self.deep_view()
    }
}

/// A grammar violation found while parsing. Parsing stops at the first one;
/// execution never starts.
#[derive(Debug, PartialEq)]
pub enum SyntaxError {
    /// A variable name was not followed by `=`.
    ExpectedEquals,
    /// A block was still open when the input ended.
    ExpectedEnd,
    /// A parenthesized expression was not closed.
    ExpectedRParen,
    /// The token cannot begin a statement.
    InvalidStatement(Token),
    /// The token cannot stand where a value is expected.
    UnexpectedToken(Token),
}

/// Model of a syntax error.
pub ghost enum SynErr {
    ExpectedEquals,
    ExpectedEnd,
    ExpectedRParen,
    InvalidStatement(Tok),
    UnexpectedToken(Tok),
}

impl View for SyntaxError {
    type V = SynErr;

    open spec fn view(&self) -> SynErr {
        match self {
            SyntaxError::ExpectedEquals => SynErr::ExpectedEquals,
            SyntaxError::ExpectedEnd => SynErr::ExpectedEnd,
            SyntaxError::ExpectedRParen => SynErr::ExpectedRParen,
            SyntaxError::InvalidStatement(t) => SynErr::InvalidStatement(t@),
            SyntaxError::UnexpectedToken(t) => SynErr::UnexpectedToken(t@),
        }
    }
}

/// What a syntax error says when shown.
pub open spec fn syn_message(e: SynErr) -> Seq<char> {
    match e {
        SynErr::ExpectedEquals => "expected '=' after the variable name"@,
        SynErr::ExpectedEnd => "expected 'end' to close the block"@,
        SynErr::ExpectedRParen => "expected ')'"@,
        SynErr::InvalidStatement(t) => "invalid statement at "@ + crate::lexer::tok_text(t),
        SynErr::UnexpectedToken(t) => "unexpected token in expression: "@ + crate::lexer::tok_text(
            t,
        ),
    }
}

impl SyntaxError {
    /// The error as text, describing what was expected or found.
    pub fn message(&self) -> (r: String)
        ensures
            r@ == syn_message(self@),
    {
        match self {
            SyntaxError::ExpectedEquals => String::from_str("expected '=' after the variable name"),
            SyntaxError::ExpectedEnd => String::from_str("expected 'end' to close the block"),
            SyntaxError::ExpectedRParen => String::from_str("expected ')'"),
            SyntaxError::InvalidStatement(t) => {
                let mut s = String::from_str("invalid statement at ");
                s.append(t.describe().as_str());
                s
            },
            SyntaxError::UnexpectedToken(t) => {
                let mut s = String::from_str("unexpected token in expression: ");
                s.append(t.describe().as_str());
                s
            },
        }
    }
}

/// A failure during evaluation. Execution halts at the first one; output
/// already produced is kept.
#[derive(Debug, PartialEq)]
pub enum RuntimeError {
    /// The variable was read before any assignment to it.
    UndefinedVariable(String),
    /// The right operand of `/` was zero.
    DivisionByZero,
    /// A token that is no operator reached evaluation; unreachable through
    /// the parser's grammar.
    InvalidOperator(Token),
}

/// Model of a runtime error.
pub ghost enum RtErr {
    UndefinedVariable(Seq<char>),
    DivisionByZero,
    InvalidOperator(Tok),
}

impl View for RuntimeError {
    type V = RtErr;

    open spec fn view(&self) -> RtErr {
        match self {
            RuntimeError::UndefinedVariable(name) => RtErr::UndefinedVariable(name@),
            RuntimeError::DivisionByZero => RtErr::DivisionByZero,
            RuntimeError::InvalidOperator(t) => RtErr::InvalidOperator(t@),
        }
    }
}

/// What a runtime error says when shown.
pub open spec fn rt_message(e: RtErr) -> Seq<char> {
    match e {
        RtErr::UndefinedVariable(name) => "undefined variable: "@ + name,
        RtErr::DivisionByZero => "division by zero"@,
        RtErr::InvalidOperator(t) => "invalid operator: "@ + crate::lexer::tok_text(t),
    }
}

impl RuntimeError {
    /// The error as text.
    pub fn message(&self) -> (r: String)
        ensures
            r@ == rt_message(self@),
    {
        match self {
            RuntimeError::UndefinedVariable(name) => {
                let mut s = String::from_str("undefined variable: ");
                s.append(name.as_str());
                s
            },
            RuntimeError::DivisionByZero => String::from_str("division by zero"),
            RuntimeError::InvalidOperator(t) => {
                let mut s = String::from_str("invalid operator: ");
                s.append(t.describe().as_str());
                s
            },
        }
    }
}

/// Why execution stopped early: a runtime error of the program itself, or
/// the caller's step budget ran out. Every loop in this crate must provably
/// terminate, so execution meters `while` iterations with an explicit step
/// budget chosen by the caller; the language itself has no iteration cap.
#[derive(Debug, PartialEq)]
pub enum Halt {
    Fault(RuntimeError),
    OutOfSteps,
}

} // verus!
