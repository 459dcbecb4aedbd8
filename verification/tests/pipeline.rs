use interp::eval::run;
use interp::parse;
use interp::Context;
use interp::Halt;
use interp::RuntimeError;
use interp::SyntaxError;

const STEPS: u64 = 1_000_000;

fn run_source(source: &str) -> (String, Option<Halt>) {
    let statements = parse(source).expect("program should parse");
    let mut ctx = Context::new();
    run(&statements, &mut ctx, STEPS)
}

#[test]
fn print_literal_echoes_it() {
    let (out, err) = run_source("print 42");
    assert_eq!(out, "42\n");
    assert!(err.is_none());
}

#[test]
fn print_zero() {
    let (out, err) = run_source("print 0");
    assert_eq!(out, "0\n");
    assert!(err.is_none());
}

#[test]
fn print_largest_literal() {
    let (out, err) = run_source("print 9223372036854775807");
    assert_eq!(out, "9223372036854775807\n");
    assert!(err.is_none());
}

#[test]
fn division_by_zero_fails_without_output() {
    let (out, err) = run_source("print 4 / 0");
    assert_eq!(out, "");
    assert_eq!(err, Some(Halt::Fault(RuntimeError::DivisionByZero)));
}

#[test]
fn undefined_variable_fails() {
    let (out, err) = run_source("print x");
    assert_eq!(out, "");
    assert_eq!(
        err,
        Some(Halt::Fault(RuntimeError::UndefinedVariable("x".to_string())))
    );
}

#[test]
fn parse_twice_yields_equal_trees() {
    let source = "x = 1 while x < 5 print x * x x = x + 1 end";
    let first = parse(source).expect("parses");
    let second = parse(source).expect("parses");
    assert_eq!(first, second);
}

#[test]
fn run_twice_yields_identical_output() {
    let source = "x = 1 while x < 5 print x * x x = x + 1 end";
    let statements = parse(source).expect("parses");
    let mut ctx1 = Context::new();
    let mut ctx2 = Context::new();
    let (out1, err1) = run(&statements, &mut ctx1, STEPS);
    let (out2, err2) = run(&statements, &mut ctx2, STEPS);
    assert_eq!(out1, out2);
    assert_eq!(err1, err2);
}

#[test]
fn if_zero_prints_nothing() {
    let (out, err) = run_source("if 0 print 1 end");
    assert_eq!(out, "");
    assert!(err.is_none());
}

#[test]
fn if_one_prints() {
    let (out, err) = run_source("if 1 print 1 end");
    assert_eq!(out, "1\n");
    assert!(err.is_none());
}

#[test]
fn while_counts_to_three() {
    let source = "x = 0 while x < 3 print x x = x + 1 end";
    let statements = parse(source).expect("parses");
    let mut ctx = Context::new();
    let (out, err) = run(&statements, &mut ctx, STEPS);
    assert_eq!(out, "0\n1\n2\n");
    assert!(err.is_none());
    assert_eq!(ctx.get_variable("x"), Some(3));
}

#[test]
fn multiplication_binds_tighter_than_addition() {
    let (out, err) = run_source("print 2 + 3 * 4");
    assert_eq!(out, "14\n");
    assert!(err.is_none());
}

#[test]
fn parentheses_override_precedence() {
    let (out, err) = run_source("print (2 + 3) * 4");
    assert_eq!(out, "20\n");
    assert!(err.is_none());
}

#[test]
fn comparisons_chain_left_to_right() {
    // 1 < 2 < 1 reads as (1 < 2) < 1, that is 1 < 1, which is false.
    let (out, err) = run_source("print 1 < 2 < 1");
    assert_eq!(out, "0\n");
    assert!(err.is_none());
}

#[test]
fn unterminated_block_is_a_syntax_error() {
    let res = parse("if 1 print 1");
    assert_eq!(res, Err(SyntaxError::ExpectedEnd));
}

#[test]
fn comment_line_before_statement_changes_nothing() {
    let plain = parse("print 7").expect("parses");
    let commented = parse("# a note\nprint 7").expect("parses");
    assert_eq!(plain, commented);
    let (out, err) = run_source("# a note\nprint 7");
    assert_eq!(out, "7\n");
    assert!(err.is_none());
}

#[test]
fn output_before_failure_is_kept() {
    let statements = parse("print 1 print 2 / 0").expect("parses");
    let mut ctx = Context::new();
    let (out, err) = run(&statements, &mut ctx, STEPS);
    assert_eq!(out, "1\n");
    assert_eq!(err, Some(Halt::Fault(RuntimeError::DivisionByZero)));
}

#[test]
fn step_budget_cuts_an_endless_loop() {
    let statements = parse("while 1 print 1 end").expect("parses");
    let mut ctx = Context::new();
    let (out, err) = run(&statements, &mut ctx, 5);
    assert_eq!(out, "1\n1\n1\n1\n1\n");
    assert_eq!(err, Some(Halt::OutOfSteps));
}

#[test]
fn assignment_then_use() {
    let (out, err) = run_source("a = 6 b = 7 print a * b");
    assert_eq!(out, "42\n");
    assert!(err.is_none());
}

#[test]
fn nested_blocks_share_one_scope() {
    let source = "x = 0 if 1 x = 5 end print x";
    let (out, err) = run_source(source);
    assert_eq!(out, "5\n");
    assert!(err.is_none());
}

#[test]
fn equality_comparison_yields_one_or_zero() {
    let (out, err) = run_source("print 3 == 3 print 3 == 4");
    assert_eq!(out, "1\n0\n");
    assert!(err.is_none());
}

#[test]
fn greater_than_works() {
    let (out, err) = run_source("print 5 > 2 print 2 > 5");
    assert_eq!(out, "1\n0\n");
    assert!(err.is_none());
}

#[test]
fn subtraction_can_go_negative() {
    let (out, err) = run_source("print 2 - 5");
    assert_eq!(out, "-3\n");
    assert!(err.is_none());
}

#[test]
fn division_truncates() {
    let (out, err) = run_source("print 7 / 2 print 0 - 7 / 2");
    // Unary minus does not exist; 0 - 7 / 2 is 0 - (7 / 2).
    assert_eq!(out, "3\n-3\n");
    assert!(err.is_none());
}

#[test]
fn assignment_missing_equals_is_invalid() {
    let res = parse("x 5");
    assert_eq!(res, Err(SyntaxError::ExpectedEquals));
}

#[test]
fn unclosed_parenthesis_is_invalid() {
    let res = parse("print (1 + 2");
    assert_eq!(res, Err(SyntaxError::ExpectedRParen));
}

#[test]
fn statement_cannot_begin_with_operator() {
    assert!(matches!(parse("+ 1"), Err(SyntaxError::InvalidStatement(_))));
}

#[test]
fn operator_needs_a_value_after_it() {
    assert!(matches!(parse("print 1 +"), Err(SyntaxError::UnexpectedToken(_))));
}

#[test]
fn oversized_literal_reads_as_zero() {
    // A digit run too large for a 64-bit signed integer reads as zero.
    let (out, err) = run_source("print 9223372036854775808");
    assert_eq!(out, "0\n");
    assert!(err.is_none());
}

#[test]
fn unrecognized_characters_are_skipped() {
    let (out, err) = run_source("print @ 3 $ + 4");
    assert_eq!(out, "7\n");
    assert!(err.is_none());
}
