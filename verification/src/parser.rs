use crate::ast::Expr;
use crate::ast::ExprS;
use crate::ast::Statement;
use crate::ast::StmtS;
use crate::ast::SynErr;
use crate::ast::SyntaxError;
use crate::ast::stmts_view;
use crate::lexer::Lexer;
use crate::lexer::Tok;
use crate::lexer::Token;
use crate::lexer::lex_all;
use crate::lexer::lemma_scan_line;
use vstd::prelude::*;

verus! {

broadcast use vstd::seq::group_seq_axioms, vstd::std_specs::vec::group_vec_axioms;

// ---------------------------------------------------------------------------
// The grammar, as functions from a token sequence to what a parse yields
// and what tokens are left. Precedence, loosest first: comparison, then
// addition and subtraction, then multiplication and division, then numbers,
// variables and parentheses. Chained comparisons associate to the left.
// ---------------------------------------------------------------------------

/// The token under the cursor; a missing one reads as the end of input.
pub open spec fn peek(ts: Seq<Tok>) -> Tok {
    if ts.len() == 0 {
        Tok::EOF
    } else {
        ts[0]
    }
}

/// The sequence with the token under the cursor consumed.
pub open spec fn drop1(ts: Seq<Tok>) -> Seq<Tok> {
    if ts.len() == 0 {
        ts
    } else {
        ts.drop_first()
    }
}

/// Caps a parser's leftover against the sequence it started from, so that
/// each recursion below visibly shrinks its input. A parse that succeeds
/// always consumes at least one token (`lemma_parse_progress`), so the cap
/// never actually bites.
pub open spec fn clip(ts2: Seq<Tok>, ts: Seq<Tok>) -> Seq<Tok> {
    if ts2.len() < ts.len() {
        ts2
    } else {
        Seq::empty()
    }
}

pub open spec fn parse_primary_s(ts: Seq<Tok>) -> Result<(ExprS, Seq<Tok>), SynErr>
    decreases ts.len(), 0int,
{
    match peek(ts) {
        Tok::Number(n) => Ok((ExprS::Number(n), drop1(ts))),
        Tok::Ident(name) => Ok((ExprS::Ident(name), drop1(ts))),
        Tok::LParen => match parse_expression_s(drop1(ts)) {
            Ok((e, ts2)) => if peek(ts2) is RParen {
                Ok((e, drop1(ts2)))
            } else {
                Err(SynErr::ExpectedRParen)
            },
            Err(er) => Err(er),
        },
        t => Err(SynErr::UnexpectedToken(t)),
    }
}

pub open spec fn parse_factor_more_s(acc: ExprS, ts: Seq<Tok>) -> Result<
    (ExprS, Seq<Tok>),
    SynErr,
>
    decreases ts.len(), 1int,
{
    if peek(ts) is Star || peek(ts) is Slash {
        match parse_primary_s(drop1(ts)) {
            Ok((rhs, ts2)) => parse_factor_more_s(
                ExprS::Binary { left: Box::new(acc), op: peek(ts), right: Box::new(rhs) },
                clip(ts2, ts),
            ),
            Err(er) => Err(er),
        }
    } else {
        Ok((acc, ts))
    }
}

pub open spec fn parse_factor_s(ts: Seq<Tok>) -> Result<(ExprS, Seq<Tok>), SynErr>
    decreases ts.len(), 2int,
{
    match parse_primary_s(ts) {
        Ok((e, ts2)) => parse_factor_more_s(e, clip(ts2, ts)),
        Err(er) => Err(er),
    }
}

pub open spec fn parse_term_more_s(acc: ExprS, ts: Seq<Tok>) -> Result<(ExprS, Seq<Tok>), SynErr>
    decreases ts.len(), 3int,
{
    if peek(ts) is Plus || peek(ts) is Minus {
        match parse_factor_s(drop1(ts)) {
            Ok((rhs, ts2)) => parse_term_more_s(
                ExprS::Binary { left: Box::new(acc), op: peek(ts), right: Box::new(rhs) },
                clip(ts2, ts),
            ),
            Err(er) => Err(er),
        }
    } else {
        Ok((acc, ts))
    }
}

pub open spec fn parse_term_s(ts: Seq<Tok>) -> Result<(ExprS, Seq<Tok>), SynErr>
    decreases ts.len(), 4int,
{
    match parse_factor_s(ts) {
        Ok((e, ts2)) => parse_term_more_s(e, clip(ts2, ts)),
        Err(er) => Err(er),
    }
}

pub open spec fn parse_comparison_more_s(acc: ExprS, ts: Seq<Tok>) -> Result<
    (ExprS, Seq<Tok>),
    SynErr,
>
    decreases ts.len(), 5int,
{
    if peek(ts) is DoubleEquals || peek(ts) is LessThan || peek(ts) is GreaterThan {
        match parse_term_s(drop1(ts)) {
            Ok((rhs, ts2)) => parse_comparison_more_s(
                ExprS::Binary { left: Box::new(acc), op: peek(ts), right: Box::new(rhs) },
                clip(ts2, ts),
            ),
            Err(er) => Err(er),
        }
    } else {
        Ok((acc, ts))
    }
}

pub open spec fn parse_comparison_s(ts: Seq<Tok>) -> Result<(ExprS, Seq<Tok>), SynErr>
    decreases ts.len(), 6int,
{
    match parse_term_s(ts) {
        Ok((e, ts2)) => parse_comparison_more_s(e, clip(ts2, ts)),
        Err(er) => Err(er),
    }
}

pub open spec fn parse_expression_s(ts: Seq<Tok>) -> Result<(ExprS, Seq<Tok>), SynErr>
    decreases ts.len(), 7int,
{
    parse_comparison_s(ts)
}

/// One statement: `print e`, `name = e`, `if e block` or `while e block`.
/// `print` is no keyword: an identifier spelled so begins a print
/// statement, so no variable of that name can be assigned.
pub open spec fn parse_statement_s(ts: Seq<Tok>) -> Result<(StmtS, Seq<Tok>), SynErr>
    decreases ts.len(), 8int,
{
    match peek(ts) {
        Tok::Ident(name) => if name == seq!['p', 'r', 'i', 'n', 't'] {
            match parse_expression_s(drop1(ts)) {
                Ok((e, ts2)) => Ok((StmtS::Print(e), ts2)),
                Err(er) => Err(er),
            }
        } else {
            if peek(drop1(ts)) is Equals {
                match parse_expression_s(drop1(drop1(ts))) {
                    Ok((e, ts2)) => Ok((StmtS::Assign(name, e), ts2)),
                    Err(er) => Err(er),
                }
            } else {
                Err(SynErr::ExpectedEquals)
            }
        },
        Tok::If => match parse_expression_s(drop1(ts)) {
            Ok((c, ts2)) => match parse_block_s(clip(ts2, ts)) {
                Ok((body, ts3)) => Ok((StmtS::If(c, body), ts3)),
                Err(er) => Err(er),
            },
            Err(er) => Err(er),
        },
        Tok::While => match parse_expression_s(drop1(ts)) {
            Ok((c, ts2)) => match parse_block_s(clip(ts2, ts)) {
                Ok((body, ts3)) => Ok((StmtS::While(c, body), ts3)),
                Err(er) => Err(er),
            },
            Err(er) => Err(er),
        },
        t => Err(SynErr::InvalidStatement(t)),
    }
}

/// A block: statements up to the closing `end`. Reaching the end of the
/// input first leaves the block open, which is a syntax error.
pub open spec fn parse_block_s(ts: Seq<Tok>) -> Result<(Seq<StmtS>, Seq<Tok>), SynErr>
    decreases ts.len(), 9int,
{
    if peek(ts) is End {
        Ok((Seq::empty(), drop1(ts)))
    } else if peek(ts) is EOF {
        Err(SynErr::ExpectedEnd)
    } else {
        match parse_statement_s(ts) {
            Ok((s, ts2)) => match parse_block_s(clip(ts2, ts)) {
                Ok((rest, ts3)) => Ok((seq![s] + rest, ts3)),
                Err(er) => Err(er),
            },
            Err(er) => Err(er),
        }
    }
}

/// A whole program: statements up to the end of the input.
pub open spec fn parse_program_s(ts: Seq<Tok>) -> Result<Seq<StmtS>, SynErr>
    decreases ts.len(), 10int,
{
    if peek(ts) is EOF {
        Ok(Seq::empty())
    } else {
        match parse_statement_s(ts) {
            Ok((s, ts2)) => match parse_program_s(clip(ts2, ts)) {
                Ok(rest) => Ok(seq![s] + rest),
                Err(er) => Err(er),
            },
            Err(er) => Err(er),
        }
    }
}

/// What a piece of source text parses to.
pub open spec fn parse_spec(text: Seq<char>) -> Result<Seq<StmtS>, SynErr> {
    parse_program_s(lex_all(text))
}

// ---------------------------------------------------------------------------
// Progress: a parse that succeeds consumes at least one token, so `clip`
// above never changes a value.
// ---------------------------------------------------------------------------

pub proof fn lemma_primary_progress(ts: Seq<Tok>)
    ensures
        parse_primary_s(ts) matches Ok((e, ts2)) ==> ts2.len() < ts.len(),
    decreases ts.len(), 0int,
{
    if peek(ts) is LParen {
        lemma_expression_progress(drop1(ts));
    }
}

pub proof fn lemma_factor_more_progress(acc: ExprS, ts: Seq<Tok>)
    ensures
        parse_factor_more_s(acc, ts) matches Ok((e, ts2)) ==> ts2.len() <= ts.len(),
    decreases ts.len(), 1int,
{
    if peek(ts) is Star || peek(ts) is Slash {
        lemma_primary_progress(drop1(ts));
        match parse_primary_s(drop1(ts)) {
            Ok((rhs, ts2)) => {
                lemma_factor_more_progress(
                    ExprS::Binary { left: Box::new(acc), op: peek(ts), right: Box::new(rhs) },
                    clip(ts2, ts),
                );
            },
            Err(_) => {},
        }
    }
}

pub proof fn lemma_factor_progress(ts: Seq<Tok>)
    ensures
        parse_factor_s(ts) matches Ok((e, ts2)) ==> ts2.len() < ts.len(),
    decreases ts.len(), 2int,
{
    lemma_primary_progress(ts);
    match parse_primary_s(ts) {
        Ok((e, ts2)) => {
            lemma_factor_more_progress(e, clip(ts2, ts));
        },
        Err(_) => {},
    }
}

pub proof fn lemma_term_more_progress(acc: ExprS, ts: Seq<Tok>)
    ensures
        parse_term_more_s(acc, ts) matches Ok((e, ts2)) ==> ts2.len() <= ts.len(),
    decreases ts.len(), 3int,
{
    if peek(ts) is Plus || peek(ts) is Minus {
        lemma_factor_progress(drop1(ts));
        match parse_factor_s(drop1(ts)) {
            Ok((rhs, ts2)) => {
                lemma_term_more_progress(
                    ExprS::Binary { left: Box::new(acc), op: peek(ts), right: Box::new(rhs) },
                    clip(ts2, ts),
                );
            },
            Err(_) => {},
        }
    }
}

pub proof fn lemma_term_progress(ts: Seq<Tok>)
    ensures
        parse_term_s(ts) matches Ok((e, ts2)) ==> ts2.len() < ts.len(),
    decreases ts.len(), 4int,
{
    lemma_factor_progress(ts);
    match parse_factor_s(ts) {
        Ok((e, ts2)) => {
            lemma_term_more_progress(e, clip(ts2, ts));
        },
        Err(_) => {},
    }
}

pub proof fn lemma_comparison_more_progress(acc: ExprS, ts: Seq<Tok>)
    ensures
        parse_comparison_more_s(acc, ts) matches Ok((e, ts2)) ==> ts2.len() <= ts.len(),
    decreases ts.len(), 5int,
{
    if peek(ts) is DoubleEquals || peek(ts) is LessThan || peek(ts) is GreaterThan {
        lemma_term_progress(drop1(ts));
        match parse_term_s(drop1(ts)) {
            Ok((rhs, ts2)) => {
                lemma_comparison_more_progress(
                    ExprS::Binary { left: Box::new(acc), op: peek(ts), right: Box::new(rhs) },
                    clip(ts2, ts),
                );
            },
            Err(_) => {},
        }
    }
}

pub proof fn lemma_expression_progress(ts: Seq<Tok>)
    ensures
        parse_expression_s(ts) matches Ok((e, ts2)) ==> ts2.len() < ts.len(),
    decreases ts.len(), 7int,
{
    lemma_term_progress(ts);
    match parse_term_s(ts) {
        Ok((e, ts2)) => {
            lemma_comparison_more_progress(e, clip(ts2, ts));
        },
        Err(_) => {},
    }
}

pub proof fn lemma_statement_progress(ts: Seq<Tok>)
    ensures
        parse_statement_s(ts) matches Ok((s, ts2)) ==> ts2.len() < ts.len(),
    decreases ts.len(), 8int,
{
    match peek(ts) {
        Tok::Ident(name) => {
            if name == seq!['p', 'r', 'i', 'n', 't'] {
                lemma_expression_progress(drop1(ts));
            } else {
                lemma_expression_progress(drop1(drop1(ts)));
            }
        },
        Tok::If => {
            lemma_expression_progress(drop1(ts));
            match parse_expression_s(drop1(ts)) {
                Ok((c, ts2)) => {
                    lemma_block_progress(clip(ts2, ts));
                },
                Err(_) => {},
            }
        },
        Tok::While => {
            lemma_expression_progress(drop1(ts));
            match parse_expression_s(drop1(ts)) {
                Ok((c, ts2)) => {
                    lemma_block_progress(clip(ts2, ts));
                },
                Err(_) => {},
            }
        },
        _ => {},
    }
}

/// A line holding only a comment adds nothing to a program: source text
/// beginning with `#`, the comment's text and a newline parses to exactly
/// what the text after the newline parses to.
pub proof fn lemma_comment_line_parse(comment: Seq<char>, rest: Seq<char>)
    requires
        forall|i: int| 0 <= i < comment.len() ==> #[trigger] comment[i] != '\n',
    ensures
        parse_spec(seq!['#'] + comment + seq!['\n'] + rest) == parse_spec(rest),
{
    crate::lexer::lemma_comment_line(comment, rest);
}

/// Parsing is a pure function of the source text: any two statement
/// sequences it accounts for on the same text are one and the same.
pub proof fn lemma_parse_deterministic(text: Seq<char>, v1: Seq<StmtS>, v2: Seq<StmtS>)
    requires
        parse_spec(text) == Ok::<Seq<StmtS>, SynErr>(v1),
        parse_spec(text) == Ok::<Seq<StmtS>, SynErr>(v2),
    ensures
        v1 == v2,
{
}

// ---------------------------------------------------------------------------
// The parser itself: one token of lookahead, refilled from the lexer.
// ---------------------------------------------------------------------------

/// Recursive-descent parser: consumes the lexer's token stream and builds
/// the statement sequence.
pub struct Parser {
    lexer: Lexer,
    current_token: Token,
    toks: Ghost<Seq<Tok>>,
}

impl Parser {
    /// The tokens not yet consumed, the one under the cursor first; the
    /// end-of-input token closes the sequence.
    pub closed spec fn rest_toks(&self) -> Seq<Tok> {
        self.toks@
    }

    pub closed spec fn wf(&self) -> bool {
        &&& self.lexer.wf()
        &&& if self.current_token@ is EOF {
            self.toks@ == seq![Tok::EOF]
        } else {
            self.toks@ == seq![self.current_token@] + lex_all(self.lexer.rest())
        }
    }

    /// Makes a parser over the lexer's remaining input.
    pub fn new(lexer: Lexer) -> (r: Parser)
        requires
            lexer.wf(),
        ensures
            r.wf(),
            r.rest_toks() == lex_all(lexer.rest()),
    {
        let mut lx = lexer;
        let ghost rest0 = lx.rest();
        let t = lx.next_token();
        let r = Parser { lexer: lx, current_token: t.token, toks: Ghost(lex_all(rest0)) };
        proof {
            lemma_scan_line(rest0, 0, lexer.cur_line());
            crate::lexer::lemma_scan_len(rest0, 0);
            let at = crate::lexer::scan(rest0, 0).0;
            if at.len() > 0 {
                crate::lexer::lemma_next_tok_not_eof(at);
            }
        }
        r
    }

    /// Moves the lookahead to the next token.
    fn advance(&mut self)
        requires
            old(self).wf(),
            !(old(self).current_token@ is EOF),
        ensures
            final(self).wf(),
            final(self).toks@ == old(self).toks@.drop_first(),
    {
        let ghost rest0 = self.lexer.rest();
        let t = self.lexer.next_token();
        self.current_token = t.token;
        proof {
            self.toks@ = lex_all(rest0);
            lemma_scan_line(rest0, 0, old(self).lexer.cur_line());
            crate::lexer::lemma_scan_len(rest0, 0);
            let at = crate::lexer::scan(rest0, 0).0;
            if at.len() > 0 {
                crate::lexer::lemma_next_tok_not_eof(at);
            }
            assert(old(self).toks@.drop_first() =~= lex_all(rest0));
        }
    }

    #[verifier::loop_isolation(false)]
    fn parse_primary(&mut self) -> (res: Result<Expr, SyntaxError>)
        requires
            old(self).wf(),
        ensures
            final(self).wf(),
            match parse_primary_s(old(self).toks@) {
                Ok((e, ts2)) => res matches Ok(ex) && ex@ == e && final(self).toks@ == ts2,
                Err(er) => res matches Err(se) && se@ == er,
            },
        decreases self.toks@.len(), 0int,
    {
        match &self.current_token {
            Token::Number(n) => {
                let val: i64 = *n;
                self.advance();
                Ok(Expr::Number(val))
            },
            Token::Ident(name) => {
                let id = name.clone();
                self.advance();
                Ok(Expr::Ident(id))
            },
            Token::LParen => {
                self.advance();
                let e = match self.parse_expression() {
                    Ok(e) => e,
                    Err(er) => {
                        return Err(er);
                    },
                };
                match &self.current_token {
                    Token::RParen => {
                        self.advance();
                        Ok(e)
                    },
                    _ => Err(SyntaxError::ExpectedRParen),
                }
            },
            _ => Err(SyntaxError::UnexpectedToken(self.current_token.duplicate())),
        }
    }

    #[verifier::loop_isolation(false)]
    fn parse_factor(&mut self) -> (res: Result<Expr, SyntaxError>)
        requires
            old(self).wf(),
        ensures
            final(self).wf(),
            match parse_factor_s(old(self).toks@) {
                Ok((e, ts2)) => res matches Ok(ex) && ex@ == e && final(self).toks@ == ts2,
                Err(er) => res matches Err(se) && se@ == er,
            },
        decreases self.toks@.len(), 2int,
    {
        let ghost ts0 = self.toks@;
        let mut expr = match self.parse_primary() {
            Ok(e) => e,
            Err(er) => {
                return Err(er);
            },
        };
        proof {
            lemma_primary_progress(ts0);
        }
        loop
            invariant
                self.wf(),
                self.toks@.len() <= ts0.len(),
                parse_factor_s(ts0) == parse_factor_more_s(expr@, self.toks@),
            decreases self.toks@.len(),
        {
            match &self.current_token {
                Token::Star | Token::Slash => {
                    let ghost ts = self.toks@;
                    let op = self.current_token.duplicate();
                    self.advance();
                    proof {
                        lemma_primary_progress(self.toks@);
                    }
                    let rhs = match self.parse_primary() {
                        Ok(e) => e,
                        Err(er) => {
                            return Err(er);
                        },
                    };
                    expr = Expr::Binary { left: Box::new(expr), op, right: Box::new(rhs) };
                },
                _ => {
                    return Ok(expr);
                },
            }
        }
    }

    #[verifier::loop_isolation(false)]
    fn parse_term(&mut self) -> (res: Result<Expr, SyntaxError>)
        requires
            old(self).wf(),
        ensures
            final(self).wf(),
            match parse_term_s(old(self).toks@) {
                Ok((e, ts2)) => res matches Ok(ex) && ex@ == e && final(self).toks@ == ts2,
                Err(er) => res matches Err(se) && se@ == er,
            },
        decreases self.toks@.len(), 4int,
    {
        let ghost ts0 = self.toks@;
        let mut expr = match self.parse_factor() {
            Ok(e) => e,
            Err(er) => {
                return Err(er);
            },
        };
        proof {
            lemma_factor_progress(ts0);
        }
        loop
            invariant
                self.wf(),
                self.toks@.len() <= ts0.len(),
                parse_term_s(ts0) == parse_term_more_s(expr@, self.toks@),
            decreases self.toks@.len(),
        {
            match &self.current_token {
                Token::Plus | Token::Minus => {
                    let op = self.current_token.duplicate();
                    self.advance();
                    proof {
                        lemma_factor_progress(self.toks@);
                    }
                    let rhs = match self.parse_factor() {
                        Ok(e) => e,
                        Err(er) => {
                            return Err(er);
                        },
                    };
                    expr = Expr::Binary { left: Box::new(expr), op, right: Box::new(rhs) };
                },
                _ => {
                    return Ok(expr);
                },
            }
        }
    }

    #[verifier::loop_isolation(false)]
    fn parse_comparison(&mut self) -> (res: Result<Expr, SyntaxError>)
        requires
            old(self).wf(),
        ensures
            final(self).wf(),
            match parse_comparison_s(old(self).toks@) {
                Ok((e, ts2)) => res matches Ok(ex) && ex@ == e && final(self).toks@ == ts2,
                Err(er) => res matches Err(se) && se@ == er,
            },
        decreases self.toks@.len(), 6int,
    {
        let ghost ts0 = self.toks@;
        let mut expr = match self.parse_term() {
            Ok(e) => e,
            Err(er) => {
                return Err(er);
            },
        };
        proof {
            lemma_term_progress(ts0);
        }
        loop
            invariant
                self.wf(),
                self.toks@.len() <= ts0.len(),
                parse_comparison_s(ts0) == parse_comparison_more_s(expr@, self.toks@),
            decreases self.toks@.len(),
        {
            match &self.current_token {
                Token::DoubleEquals | Token::LessThan | Token::GreaterThan => {
                    let op = self.current_token.duplicate();
                    self.advance();
                    proof {
                        lemma_term_progress(self.toks@);
                    }
                    let rhs = match self.parse_term() {
                        Ok(e) => e,
                        Err(er) => {
                            return Err(er);
                        },
                    };
                    expr = Expr::Binary { left: Box::new(expr), op, right: Box::new(rhs) };
                },
                _ => {
                    return Ok(expr);
                },
            }
        }
    }

    fn parse_expression(&mut self) -> (res: Result<Expr, SyntaxError>)
        requires
            old(self).wf(),
        ensures
            final(self).wf(),
            match parse_expression_s(old(self).toks@) {
                Ok((e, ts2)) => res matches Ok(ex) && ex@ == e && final(self).toks@ == ts2,
                Err(er) => res matches Err(se) && se@ == er,
            },
        decreases self.toks@.len(), 7int,
    {
        self.parse_comparison()
    }

    fn parse_statement(&mut self) -> (res: Result<Statement, SyntaxError>)
        requires
            old(self).wf(),
        ensures
            final(self).wf(),
            match parse_statement_s(old(self).toks@) {
                Ok((s, ts2)) => res matches Ok(st) && st@ == s && final(self).toks@ == ts2,
                Err(er) => res matches Err(se) && se@ == er,
            },
        decreases self.toks@.len(), 8int,
    {
        let ghost ts0 = self.toks@;
        match &self.current_token {
            Token::Ident(name) => {
                let kw_print = String::from_str("print");
                proof {
                    reveal_strlit("print");
                    assert("print"@ =~= seq!['p', 'r', 'i', 'n', 't']);
                }
                if *name == kw_print {
                    self.advance();
                    match self.parse_expression() {
                        Ok(e) => Ok(Statement::Print(e)),
                        Err(er) => Err(er),
                    }
                } else {
                    let var = name.clone();
                    self.advance();
                    match &self.current_token {
                        Token::Equals => {
                            self.advance();
                            match self.parse_expression() {
                                Ok(e) => Ok(Statement::Assign(var, e)),
                                Err(er) => Err(er),
                            }
                        },
                        _ => Err(SyntaxError::ExpectedEquals),
                    }
                }
            },
            Token::If => {
                self.advance();
                let cond = match self.parse_expression() {
                    Ok(e) => e,
                    Err(er) => {
                        return Err(er);
                    },
                };
                proof {
                    lemma_expression_progress(drop1(ts0));
                }
                let body = match self.parse_block() {
                    Ok(b) => b,
                    Err(er) => {
                        return Err(er);
                    },
                };
                Ok(Statement::If(cond, body))
            },
            Token::While => {
                self.advance();
                let cond = match self.parse_expression() {
                    Ok(e) => e,
                    Err(er) => {
                        return Err(er);
                    },
                };
                proof {
                    lemma_expression_progress(drop1(ts0));
                }
                let body = match self.parse_block() {
                    Ok(b) => b,
                    Err(er) => {
                        return Err(er);
                    },
                };
                Ok(Statement::While(cond, body))
            },
            _ => Err(SyntaxError::InvalidStatement(self.current_token.duplicate())),
        }
    }

    #[verifier::loop_isolation(false)]
    fn parse_block(&mut self) -> (res: Result<Vec<Statement>, SyntaxError>)
        requires
            old(self).wf(),
        ensures
            final(self).wf(),
            match parse_block_s(old(self).toks@) {
                Ok((ss, ts2)) => res matches Ok(v) && stmts_view(v@) == ss && final(self).toks@
                    == ts2,
                Err(er) => res matches Err(se) && se@ == er,
            },
        decreases self.toks@.len(), 9int,
    {
        let ghost ts0 = self.toks@;
        let mut block: Vec<Statement> = Vec::new();
        proof {
            assert(stmts_view(block@) =~= Seq::<StmtS>::empty());
        }
        loop
            invariant
                self.wf(),
                self.toks@.len() <= ts0.len(),
                match parse_block_s(self.toks@) {
                    Ok((rest, ts3)) => parse_block_s(ts0) == Ok::<(Seq<StmtS>, Seq<Tok>), SynErr>(
                        (stmts_view(block@) + rest, ts3),
                    ),
                    Err(er) => parse_block_s(ts0) == Err::<(Seq<StmtS>, Seq<Tok>), SynErr>(er),
                },
            decreases self.toks@.len(),
        {
            match &self.current_token {
                Token::End => {
                    self.advance();
                    proof {
                        assert(stmts_view(block@) + Seq::<StmtS>::empty() =~= stmts_view(block@));
                    }
                    return Ok(block);
                },
                Token::EOF => {
                    return Err(SyntaxError::ExpectedEnd);
                },
                _ => {
                    let ghost ts = self.toks@;
                    match self.parse_statement() {
                        Ok(s) => {
                            proof {
                                lemma_statement_progress(ts);
                            }
                            let ghost before = block@;
                            block.push(s);
                            proof {
                                assert(stmts_view(block@) =~= stmts_view(before) + seq![
                                    block@.last().deep_view(),
                                ]);
                                match parse_block_s(self.toks@) {
                                    Ok((rest, ts3)) => {
                                        assert((stmts_view(before) + (seq![block@.last().deep_view()]
                                            + rest)) =~= (stmts_view(block@) + rest));
                                    },
                                    Err(_) => {},
                                }
                            }
                        },
                        Err(er) => {
                            return Err(er);
                        },
                    }
                },
            }
        }
    }

    /// Parses the whole program: every statement up to the end of the
    /// input. What comes back is exactly what the grammar assigns to the
    /// lexer's token stream.
    #[verifier::loop_isolation(false)]
    pub fn parse_statements(&mut self) -> (res: Result<Vec<Statement>, SyntaxError>)
        requires
            old(self).wf(),
        ensures
            final(self).wf(),
            match parse_program_s(old(self).rest_toks()) {
                Ok(ss) => res matches Ok(v) && stmts_view(v@) == ss,
                Err(er) => res matches Err(se) && se@ == er,
            },
        decreases self.rest_toks().len(), 10int,
    {
        let ghost ts0 = self.toks@;
        let mut program: Vec<Statement> = Vec::new();
        proof {
            assert(stmts_view(program@) =~= Seq::<StmtS>::empty());
        }
        loop
            invariant
                self.wf(),
                self.toks@.len() <= ts0.len(),
                match parse_program_s(self.toks@) {
                    Ok(rest) => parse_program_s(ts0) == Ok::<Seq<StmtS>, SynErr>(
                        stmts_view(program@) + rest,
                    ),
                    Err(er) => parse_program_s(ts0) == Err::<Seq<StmtS>, SynErr>(er),
                },
            decreases self.toks@.len(),
        {
            match &self.current_token {
                Token::EOF => {
                    proof {
                        assert(stmts_view(program@) + Seq::<StmtS>::empty() =~= stmts_view(
                            program@,
                        ));
                    }
                    return Ok(program);
                },
                _ => {
                    let ghost ts = self.toks@;
                    match self.parse_statement() {
                        Ok(s) => {
                            proof {
                                lemma_statement_progress(ts);
                            }
                            let ghost before = program@;
                            program.push(s);
                            proof {
                                assert(stmts_view(program@) =~= stmts_view(before) + seq![
                                    program@.last().deep_view(),
                                ]);
                                match parse_program_s(self.toks@) {
                                    Ok(rest) => {
                                        assert((stmts_view(before) + (seq![
                                            program@.last().deep_view(),
                                        ] + rest)) =~= (stmts_view(program@) + rest));
                                    },
                                    Err(_) => {},
                                }
                            }
                        },
                        Err(er) => {
                            return Err(er);
                        },
                    }
                },
            }
        }
    }
}

pub proof fn lemma_block_progress(ts: Seq<Tok>)
    ensures
        parse_block_s(ts) matches Ok((ss, ts2)) ==> ts2.len() < ts.len(),
    decreases ts.len(), 9int,
{
    if peek(ts) is End {
    } else if peek(ts) is EOF {
    } else {
        lemma_statement_progress(ts);
        match parse_statement_s(ts) {
            Ok((s, ts2)) => {
                lemma_block_progress(clip(ts2, ts));
            },
            Err(_) => {},
        }
    }
}

} // verus!
