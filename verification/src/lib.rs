//! A verified tree-walking interpreter for a minimal imperative language:
//! 64-bit integer arithmetic, variables, comparisons, `print`, `if` and
//! `while`, with `#`-comments.
//!
//! The pipeline is lexer (text to tokens), recursive-descent parser (tokens
//! to syntax trees) and evaluator (trees plus a mutable variable context to
//! printed output). Each stage carries a contract relating it to a
//! mathematical model of the language, stated over character and token
//! sequences.

pub mod ast;
mod chars;
pub mod context;
pub mod decimal;
pub mod eval;
pub mod lexer;
pub mod parser;

pub use ast::Expr;
pub use ast::Halt;
pub use ast::RuntimeError;
pub use ast::Statement;
pub use ast::SyntaxError;
pub use context::Context;
pub use lexer::Lexer;
pub use lexer::Token;
pub use lexer::TokenWithLine;
pub use parser::Parser;

use vstd::prelude::*;
use vstd::string::StringExecFns;

verus! {

/// Turns source text into a statement sequence: the first core entry
/// point, a pure function of the text. Exactly the programs of the grammar
/// parse; the first violation is reported instead.
pub fn parse(source: &str) -> (res: Result<Vec<Statement>, SyntaxError>)
    ensures
        match parser::parse_spec(source@) {
            Ok(ss) => res matches Ok(v) && ast::stmts_view(v@) == ss,
            Err(er) => res matches Err(se) && se@ == er,
        },
{
    let lexer = Lexer::new(source);
    let mut p = Parser::new(lexer);
    p.parse_statements()
}

/// Parses and runs a piece of source text against a fresh context, with a
/// step budget for `while` iterations, and renders the result as the text
/// a caller shows: the program's output, followed by a diagnostic when
/// anything failed, with a flag saying so.
pub fn interpretar(source: &str, max_steps: u64) -> (r: (String, bool))
    ensures
        ({
            match parser::parse_spec(source@) {
                Err(er) => r.0@ == "syntax error: "@ + ast::syn_message(er) && r.1 == true,
                Ok(ss) => {
                    let o = eval::run_block_s(
                        ss,
                        0,
                        eval::EvalState { env: Map::empty(), out: Seq::empty() },
                        max_steps as nat,
                    );
                    match o {
                        eval::StepOutcome::Done(st, _f) => r.1 == false && if st.out.len() == 0 {
                            r.0@ == "// execution completed without errors."@
                        } else {
                            r.0@ == st.out
                        },
                        eval::StepOutcome::Fault(er, st, _f) => r.1 == true && r.0@ == st.out
                            + "runtime error: "@ + ast::rt_message(er) + "\n"@,
                        eval::StepOutcome::OutOfSteps(st) => r.1 == true && r.0@ == st.out
                            + "runtime error: step limit reached"@ + "\n"@,
                    }
                },
            }
        }),
{
    let statements = match parse(source) {
        Ok(ss) => ss,
        Err(e) => {
            let mut msg = String::from_str("syntax error: ");
            let m = e.message();
            msg.append(m.as_str());
            return (msg, true);
        },
    };
    let mut ctx = Context::new();
    let (mut output, halt) = eval::run(&statements, &mut ctx, max_steps);
    match halt {
        None => {
            if output.as_str().is_empty() {
                (String::from_str("// execution completed without errors."), false)
            } else {
                (output, false)
            }
        },
        Some(Halt::Fault(er)) => {
            output.append("runtime error: ");
            let m = er.message();
            output.append(m.as_str());
            output.append("\n");
            (output, true)
        },
        Some(Halt::OutOfSteps) => {
            output.append("runtime error: step limit reached");
            output.append("\n");
            (output, true)
        },
    }
}

/// Printing a decimal literal echoes exactly that literal: for every
/// nonnegative 64-bit value, the text `print` followed by the value's
/// digits parses to a single print statement, and running it, under any
/// step budget, writes those digits and a newline and nothing else. A
/// negative value has no literal: the grammar knows no sign, so only
/// nonnegative numbers can be written down.
pub proof fn lemma_print_literal(n: i64, fuel: nat)
    requires
        0 <= n,
    ensures
        ({
            let text = "print "@ + decimal::dec_digits(n as nat);
            let start = eval::EvalState { env: Map::empty(), out: Seq::empty() };
            &&& parser::parse_spec(text) == Ok::<Seq<ast::StmtS>, ast::SynErr>(
                seq![ast::StmtS::Print(ast::ExprS::Number(n))],
            )
            &&& eval::run_block_s(seq![ast::StmtS::Print(ast::ExprS::Number(n))], 0, start, fuel)
                == eval::StepOutcome::Done(
                eval::EvalState {
                    env: Map::empty(),
                    out: decimal::dec_digits(n as nat) + seq!['\n'],
                },
                fuel,
            )
        }),
{
    reveal_strlit("print ");
    let word = seq!['p', 'r', 'i', 'n', 't'];
    let digits = decimal::dec_digits(n as nat);
    let text = "print "@ + digits;
    decimal::lemma_dec_digits_value(n as nat);
    assert("print "@ =~= word + seq![' ']);
    let rest1 = seq![' '] + digits;
    assert(text =~= word + rest1);

    // One identifier token, one number token, then the end of the input.
    assert forall|i: int| 0 <= i < word.len() implies crate::lexer::is_word_char(
        #[trigger] word[i],
    ) by {
        if i == 0 {
            assert(word[0] == 'p');
        } else if i == 1 {
            assert(word[1] == 'r');
        } else if i == 2 {
            assert(word[2] == 'i');
        } else if i == 3 {
            assert(word[3] == 'n');
        } else {
            assert(word[4] == 't');
        }
    }
    assert(rest1[0] == ' ');
    lexer::lemma_word_run_concat(word, rest1);
    assert(text[0] == 'p');
    assert(lexer::is_token_start(text[0]));
    assert(lexer::scan(text, 0) == (text, 0nat));
    assert(lexer::word_run(text) == (word, rest1));
    assert(word != seq!['i', 'f']);
    assert(word[0] == 'p' && seq!['w', 'h', 'i', 'l', 'e'][0] == 'w');
    assert(word != seq!['w', 'h', 'i', 'l', 'e']);
    assert(word != seq!['e', 'n', 'd']);
    let tok1 = lexer::Tok::Ident(word);
    assert(lexer::next_tok(text) == (tok1, rest1));
    assert(lexer::lex_all(text) == seq![tok1] + lexer::lex_all(rest1));

    assert(rest1.drop_first() =~= digits);
    assert(lexer::scan(rest1, 0) == lexer::scan(digits, 0));
    assert(digits.len() >= 1 && lexer::is_digit_char(digits[0]));
    assert(lexer::scan(digits, 0) == (digits, 0nat));
    lexer::lemma_digit_run_concat(digits, Seq::empty());
    assert(digits + Seq::<char>::empty() =~= digits);
    assert(lexer::digit_run(digits) == (digits, Seq::<char>::empty()));
    assert(lexer::digits_val(digits) == n as nat);
    assert(lexer::number_of_digits(digits) == n);
    let tok2 = lexer::Tok::Number(n);
    assert(lexer::next_tok(digits) == (tok2, Seq::<char>::empty()));
    assert(lexer::lex_all(digits) == seq![tok2] + lexer::lex_all(Seq::<char>::empty()));
    assert(lexer::scan(Seq::<char>::empty(), 0) == (Seq::<char>::empty(), 0nat));
    assert(lexer::lex_all(Seq::<char>::empty()) == seq![lexer::Tok::EOF]);
    assert(lexer::lex_all(rest1) == lexer::lex_all(digits));
    let toks = seq![tok1, tok2, lexer::Tok::EOF];
    assert(lexer::lex_all(text) =~= toks);

    // The tokens parse as one print statement.
    let tse = seq![lexer::Tok::EOF];
    let ts1 = seq![tok2, lexer::Tok::EOF];
    assert(parser::drop1(toks) =~= ts1);
    assert(parser::drop1(ts1) =~= tse);
    let num = ast::ExprS::Number(n);
    assert(parser::parse_primary_s(ts1) == Ok::<(ast::ExprS, Seq<lexer::Tok>), ast::SynErr>(
        (num, tse),
    ));
    assert(parser::peek(tse) == lexer::Tok::EOF);
    assert(parser::parse_factor_more_s(num, tse) == Ok::<
        (ast::ExprS, Seq<lexer::Tok>),
        ast::SynErr,
    >((num, tse)));
    assert(parser::clip(tse, ts1) == tse);
    assert(parser::parse_factor_s(ts1) == Ok::<(ast::ExprS, Seq<lexer::Tok>), ast::SynErr>(
        (num, tse),
    ));
    assert(parser::parse_term_more_s(num, tse) == Ok::<
        (ast::ExprS, Seq<lexer::Tok>),
        ast::SynErr,
    >((num, tse)));
    assert(parser::parse_term_s(ts1) == Ok::<(ast::ExprS, Seq<lexer::Tok>), ast::SynErr>(
        (num, tse),
    ));
    assert(parser::parse_comparison_more_s(num, tse) == Ok::<
        (ast::ExprS, Seq<lexer::Tok>),
        ast::SynErr,
    >((num, tse)));
    assert(parser::parse_expression_s(ts1) == Ok::<(ast::ExprS, Seq<lexer::Tok>), ast::SynErr>(
        (num, tse),
    ));
    let pr = ast::StmtS::Print(num);
    assert(parser::peek(toks) == tok1);
    assert(parser::parse_statement_s(toks) == Ok::<(ast::StmtS, Seq<lexer::Tok>), ast::SynErr>(
        (pr, tse),
    ));
    assert(parser::clip(tse, toks) == tse);
    assert(parser::parse_program_s(tse) == Ok::<Seq<ast::StmtS>, ast::SynErr>(Seq::empty()));
    assert(seq![pr] + Seq::<ast::StmtS>::empty() =~= seq![pr]);
    assert(parser::parse_program_s(toks) == Ok::<Seq<ast::StmtS>, ast::SynErr>(seq![pr]));
    assert(parser::parse_spec(text) == Ok::<Seq<ast::StmtS>, ast::SynErr>(seq![pr]));

    // Running the statement prints the digits and a newline.
    let start = eval::EvalState { env: Map::empty(), out: Seq::empty() };
    assert(eval::eval_expr_s(num, start.env) == Ok::<i64, ast::RtErr>(n));
    assert(decimal::fmt_i64(n) == digits);
    let done = eval::EvalState { env: Map::empty(), out: Seq::empty() + digits + seq!['\n'] };
    assert(eval::run_stmt_s(pr, start, fuel) == eval::StepOutcome::Done(done, fuel));
    assert(seq![pr][0] == pr);
    assert(eval::run_block_s(seq![pr], 1, done, fuel) == eval::StepOutcome::Done(done, fuel));
    assert(eval::run_block_s(seq![pr], 0, start, fuel) == eval::StepOutcome::Done(done, fuel));
    assert(Seq::<char>::empty() + digits + seq!['\n'] =~= digits + seq!['\n']);
}

} // verus!

