use interp::eval::run;
use interp::interpretar;
use interp::parse;
use interp::Context;
use interp::Expr;
use interp::Halt;
use interp::Lexer;
use interp::RuntimeError;
use interp::Statement;
use interp::Token;

const STEPS: u64 = 1_000_000;

#[test]
fn lexer_walks_the_tokens() {
    let mut lx = Lexer::new("x = 41 + 1");
    assert_eq!(lx.next_token().token, Token::Ident("x".to_string()));
    assert_eq!(lx.next_token().token, Token::Equals);
    assert_eq!(lx.next_token().token, Token::Number(41));
    assert_eq!(lx.next_token().token, Token::Plus);
    assert_eq!(lx.next_token().token, Token::Number(1));
    assert_eq!(lx.next_token().token, Token::EOF);
}

#[test]
fn lexer_keeps_yielding_eof() {
    let mut lx = Lexer::new("");
    assert_eq!(lx.next_token().token, Token::EOF);
    assert_eq!(lx.next_token().token, Token::EOF);
    assert_eq!(lx.next_token().token, Token::EOF);
}

#[test]
fn lexer_reads_double_equals() {
    let mut lx = Lexer::new("== = ==");
    assert_eq!(lx.next_token().token, Token::DoubleEquals);
    assert_eq!(lx.next_token().token, Token::Equals);
    assert_eq!(lx.next_token().token, Token::DoubleEquals);
}

#[test]
fn lexer_classifies_keywords() {
    let mut lx = Lexer::new("if while end ifx");
    assert_eq!(lx.next_token().token, Token::If);
    assert_eq!(lx.next_token().token, Token::While);
    assert_eq!(lx.next_token().token, Token::End);
    assert_eq!(lx.next_token().token, Token::Ident("ifx".to_string()));
}

#[test]
fn lexer_counts_lines() {
    let mut lx = Lexer::new("a\nb\n# note\nc");
    assert_eq!(lx.next_token().line, 1);
    assert_eq!(lx.next_token().line, 2);
    assert_eq!(lx.next_token().line, 4);
}

#[test]
fn lexer_skips_comment_to_end_of_line() {
    let mut lx = Lexer::new("# print 1\n2");
    assert_eq!(lx.next_token().token, Token::Number(2));
    assert_eq!(lx.next_token().token, Token::EOF);
}

#[test]
fn addition_wraps_at_the_top() {
    let statements = parse("x = 9223372036854775807 print x + 1").expect("parses");
    let mut ctx = Context::new();
    let (out, err) = run(&statements, &mut ctx, STEPS);
    assert_eq!(out, "-9223372036854775808\n");
    assert!(err.is_none());
}

#[test]
fn multiplication_wraps() {
    let statements = parse("x = 9223372036854775807 print x * 2").expect("parses");
    let mut ctx = Context::new();
    let (out, err) = run(&statements, &mut ctx, STEPS);
    assert_eq!(out, "-2\n");
    assert!(err.is_none());
}

#[test]
fn dividing_the_smallest_by_minus_one_wraps() {
    // The magnitude of the smallest value has no positive counterpart, so
    // the quotient wraps back to it.
    let source = "m = 0 - 9223372036854775807 - 1 print m / (0 - 1)";
    let statements = parse(source).expect("parses");
    let mut ctx = Context::new();
    let (out, err) = run(&statements, &mut ctx, STEPS);
    assert_eq!(out, "-9223372036854775808\n");
    assert!(err.is_none());
}

#[test]
fn evaluate_expression_directly() {
    let e = Expr::Binary {
        left: Box::new(Expr::Number(20)),
        op: Token::Star,
        right: Box::new(Expr::Number(2)),
    };
    let ctx = Context::new();
    assert_eq!(e.eval(&ctx), Ok(40));
}

#[test]
fn stray_token_as_operator_is_reported() {
    // The parser can never build this tree; the evaluator still rejects it.
    let e = Expr::Binary {
        left: Box::new(Expr::Number(1)),
        op: Token::LParen,
        right: Box::new(Expr::Number(2)),
    };
    let ctx = Context::new();
    assert_eq!(e.eval(&ctx), Err(RuntimeError::InvalidOperator(Token::LParen)));
}

#[test]
fn execute_one_statement() {
    let statements = parse("y = 8").expect("parses");
    let mut ctx = Context::new();
    let mut output = String::new();
    let mut fuel: u64 = STEPS;
    let res = statements[0].execute(&mut ctx, &mut output, &mut fuel);
    assert_eq!(res, Ok(()));
    assert_eq!(output, "");
    assert_eq!(ctx.get_variable("y"), Some(8));
}

#[test]
fn execute_reports_step_exhaustion() {
    let statements = parse("while 1 x = 1 end").expect("parses");
    let mut ctx = Context::new();
    let mut output = String::new();
    let mut fuel: u64 = 10;
    let res = statements[0].execute(&mut ctx, &mut output, &mut fuel);
    assert_eq!(res, Err(Halt::OutOfSteps));
    assert_eq!(fuel, 0);
}

#[test]
fn context_set_and_get() {
    let mut ctx = Context::new();
    assert_eq!(ctx.get_variable("a"), None);
    ctx.set_variable("a", 1);
    ctx.set_variable("b", 2);
    assert_eq!(ctx.get_variable("a"), Some(1));
    assert_eq!(ctx.get_variable("b"), Some(2));
    ctx.set_variable("a", 3);
    assert_eq!(ctx.get_variable("a"), Some(3));
    assert_eq!(ctx.get_variable("b"), Some(2));
}

#[test]
fn statements_compare_structurally() {
    let a = parse("if x print 1 end").expect("parses");
    let b = parse("if  x  print  1  end").expect("parses");
    assert_eq!(a, b);
    assert!(matches!(a[0], Statement::If(_, _)));
}

#[test]
fn interpretar_reports_output() {
    let (out, failed) = interpretar("print 2 + 2", STEPS);
    assert_eq!(out, "4\n");
    assert!(!failed);
}

#[test]
fn interpretar_reports_syntax_errors() {
    let (out, failed) = interpretar("while 1 print 1", STEPS);
    assert_eq!(out, "syntax error: expected 'end' to close the block");
    assert!(failed);
}

#[test]
fn interpretar_reports_runtime_errors_after_output() {
    let (out, failed) = interpretar("print 1 print y", STEPS);
    assert_eq!(out, "1\nruntime error: undefined variable: y\n");
    assert!(failed);
}

#[test]
fn interpretar_notes_silent_success() {
    let (out, failed) = interpretar("x = 1", STEPS);
    assert_eq!(out, "// execution completed without errors.");
    assert!(!failed);
}

#[test]
fn interpretar_reports_the_step_limit() {
    let (out, failed) = interpretar("while 1 x = 1 end", 3);
    assert_eq!(out, "runtime error: step limit reached\n");
    assert!(failed);
}

#[test]
fn error_messages_name_the_token() {
    let err = parse("print )").expect_err("must fail");
    assert_eq!(err.message(), "unexpected token in expression: )");
    let err = parse("end").expect_err("must fail");
    assert_eq!(err.message(), "invalid statement at end");
}

#[test]
fn runtime_error_messages() {
    assert_eq!(
        RuntimeError::UndefinedVariable("pi".to_string()).message(),
        "undefined variable: pi"
    );
    assert_eq!(RuntimeError::DivisionByZero.message(), "division by zero");
}

#[test]
fn empty_source_is_a_valid_program() {
    let statements = parse("").expect("parses");
    assert!(statements.is_empty());
    let (out, failed) = interpretar("", STEPS);
    assert_eq!(out, "// execution completed without errors.");
    assert!(!failed);
}

#[test]
fn comment_only_source_is_a_valid_program() {
    let statements = parse("# nothing here").expect("parses");
    assert!(statements.is_empty());
}

#[test]
fn diagnostics_render_number_tokens() {
    let err = parse("5 = 1").expect_err("must fail");
    assert_eq!(err.message(), "invalid statement at 5");
}

#[test]
fn tokens_duplicate_exactly() {
    let t = Token::Ident("abc".to_string());
    assert_eq!(t.duplicate(), t);
    assert_eq!(Token::Number(7).duplicate(), Token::Number(7));
}
