use vstd::prelude::*;
use vstd::string::StringExecFns;

verus! {

/// Every token of the language.
#[derive(Debug, Clone, PartialEq)]
pub enum Token {
    Ident(String),
    Number(i64),
    Plus,
    Minus,
    Star,
    Slash,
    Equals,
    DoubleEquals,
    LessThan,
    GreaterThan,
    LParen,
    RParen,
    If,
    While,
    End,
    EOF,
}

/// Mathematical model of a token: identifier names are character sequences.
pub ghost enum Tok {
    Ident(Seq<char>),
    Number(i64),
    Plus,
    Minus,
    Star,
    Slash,
    Equals,
    DoubleEquals,
    LessThan,
    GreaterThan,
    LParen,
    RParen,
    If,
    While,
    End,
    EOF,
}

impl View for Token {
    type V = Tok;

    open spec fn view(&self) -> Tok {
        match self {
            Token::Ident(name) => Tok::Ident(name@),
            Token::Number(n) => Tok::Number(*n),
            Token::Plus => Tok::Plus,
            Token::Minus => Tok::Minus,
            Token::Star => Tok::Star,
            Token::Slash => Tok::Slash,
            Token::Equals => Tok::Equals,
            Token::DoubleEquals => Tok::DoubleEquals,
            Token::LessThan => Tok::LessThan,
            Token::GreaterThan => Tok::GreaterThan,
            Token::LParen => Tok::LParen,
            Token::RParen => Tok::RParen,
            Token::If => Tok::If,
            Token::While => Tok::While,
            Token::End => Tok::End,
            Token::EOF => Tok::EOF,
        }
    }
}

/// How a token reads in a diagnostic.
pub open spec fn tok_text(t: Tok) -> Seq<char> {
    match t {
        Tok::Ident(name) => name,
        Tok::Number(n) => crate::decimal::fmt_i64(n),
        Tok::Plus => "+"@,
        Tok::Minus => "-"@,
        Tok::Star => "*"@,
        Tok::Slash => "/"@,
        Tok::Equals => "="@,
        Tok::DoubleEquals => "=="@,
        Tok::LessThan => "<"@,
        Tok::GreaterThan => ">"@,
        Tok::LParen => "("@,
        Tok::RParen => ")"@,
        Tok::If => "if"@,
        Tok::While => "while"@,
        Tok::End => "end"@,
        Tok::EOF => "end of input"@,
    }
}

impl Token {
    /// The token's text for a diagnostic.
    pub fn describe(&self) -> (r: String)
        ensures
            r@ == tok_text(self@),
    {
        match self {
            Token::Ident(name) => name.clone(),
            Token::Number(n) => crate::decimal::to_decimal(*n),
            Token::Plus => String::from_str("+"),
            Token::Minus => String::from_str("-"),
            Token::Star => String::from_str("*"),
            Token::Slash => String::from_str("/"),
            Token::Equals => String::from_str("="),
            Token::DoubleEquals => String::from_str("=="),
            Token::LessThan => String::from_str("<"),
            Token::GreaterThan => String::from_str(">"),
            Token::LParen => String::from_str("("),
            Token::RParen => String::from_str(")"),
            Token::If => String::from_str("if"),
            Token::While => String::from_str("while"),
            Token::End => String::from_str("end"),
            Token::EOF => String::from_str("end of input"),
        }
    }

    /// An owned copy of the token. Verus learns nothing from a derived
    /// `Clone`, so the copy is spelled out.
    pub fn duplicate(&self) -> (r: Token)
        ensures
            r@ == self@,
    {
        match self {
            Token::Ident(name) => Token::Ident(name.clone()),
            Token::Number(n) => Token::Number(*n),
            Token::Plus => Token::Plus,
            Token::Minus => Token::Minus,
            Token::Star => Token::Star,
            Token::Slash => Token::Slash,
            Token::Equals => Token::Equals,
            Token::DoubleEquals => Token::DoubleEquals,
            Token::LessThan => Token::LessThan,
            Token::GreaterThan => Token::GreaterThan,
            Token::LParen => Token::LParen,
            Token::RParen => Token::RParen,
            Token::If => Token::If,
            Token::While => Token::While,
            Token::End => Token::End,
            Token::EOF => Token::EOF,
        }
    }
}

/// A token paired with the line on which it starts, for diagnostics.
#[derive(Debug, Clone)]
pub struct TokenWithLine {
    pub token: Token,
    pub line: usize,
}

// ---------------------------------------------------------------------------
// Character classes. The language is ASCII: anything the lexer does not
// recognize is skipped as if it were whitespace.
// ---------------------------------------------------------------------------

pub open spec fn is_digit_char(c: char) -> bool {
    48 <= c as u32 && c as u32 <= 57
}

pub open spec fn is_letter_char(c: char) -> bool {
    (65 <= c as u32 && c as u32 <= 90) || (97 <= c as u32 && c as u32 <= 122)
}

pub open spec fn is_word_char(c: char) -> bool {
    is_digit_char(c) || is_letter_char(c)
}

/// Whitespace other than a newline; newlines are counted separately.
pub open spec fn is_blank_char(c: char) -> bool {
    c == ' ' || c == '\t' || c == '\r'
}

/// Characters that begin a token.
pub open spec fn is_token_start(c: char) -> bool {
    c == '+' || c == '-' || c == '*' || c == '/' || c == '=' || c == '<' || c == '>' || c == '('
        || c == ')' || is_digit_char(c) || is_letter_char(c)
}

pub open spec fn digit_val(c: char) -> nat {
    (c as u32 - 48) as nat
}

// ---------------------------------------------------------------------------
// The scanner, as functions from the remaining input to what is left of it.
// ---------------------------------------------------------------------------

/// Skips whitespace, comments and unrecognized characters, counting the
/// newlines it passes; stops at the start of a token or at the end.
pub open spec fn scan(s: Seq<char>, line: nat) -> (Seq<char>, nat)
    decreases s.len(), 1int,
{
    if s.len() == 0 {
        (s, line)
    } else if s[0] == '\n' {
        scan(s.drop_first(), line + 1)
    } else if is_blank_char(s[0]) {
        scan(s.drop_first(), line)
    } else if s[0] == '#' {
        scan_comment(s.drop_first(), line)
    } else if is_token_start(s[0]) {
        (s, line)
    } else {
        scan(s.drop_first(), line)
    }
}

/// Inside a comment: skip to the newline (which `scan` then counts) or the end.
pub open spec fn scan_comment(s: Seq<char>, line: nat) -> (Seq<char>, nat)
    decreases s.len(), 2int,
{
    if s.len() == 0 {
        (s, line)
    } else if s[0] == '\n' {
        scan(s, line)
    } else {
        scan_comment(s.drop_first(), line)
    }
}

/// Splits a run of decimal digits off the front of the input.
pub open spec fn digit_run(s: Seq<char>) -> (Seq<char>, Seq<char>)
    decreases s.len(),
{
    if s.len() > 0 && is_digit_char(s[0]) {
        let (run, rest) = digit_run(s.drop_first());
        (seq![s[0]] + run, rest)
    } else {
        (Seq::empty(), s)
    }
}

/// Splits a run of letters and digits off the front of the input.
pub open spec fn word_run(s: Seq<char>) -> (Seq<char>, Seq<char>)
    decreases s.len(),
{
    if s.len() > 0 && is_word_char(s[0]) {
        let (run, rest) = word_run(s.drop_first());
        (seq![s[0]] + run, rest)
    } else {
        (Seq::empty(), s)
    }
}

/// The value of a digit string read in base ten.
pub open spec fn digits_val(ds: Seq<char>) -> nat
    decreases ds.len(),
{
    if ds.len() == 0 {
        0
    } else {
        digits_val(ds.drop_last()) * 10 + digit_val(ds.last())
    }
}

/// The number token carried by a digit run: a run too large for a 64-bit
/// signed integer reads as zero.
pub open spec fn number_of_digits(ds: Seq<char>) -> i64 {
    if digits_val(ds) > i64::MAX {
        0
    } else {
        digits_val(ds) as i64
    }
}

/// An alphanumeric word is either one of the three keywords or an identifier.
pub open spec fn word_tok(w: Seq<char>) -> Tok {
    if w == seq!['i', 'f'] {
        Tok::If
    } else if w == seq!['w', 'h', 'i', 'l', 'e'] {
        Tok::While
    } else if w == seq!['e', 'n', 'd'] {
        Tok::End
    } else {
        Tok::Ident(w)
    }
}

/// Reads one token at the front of the input, which must be positioned at a
/// token start (or at the end, where the input is exhausted).
pub open spec fn next_tok(s: Seq<char>) -> (Tok, Seq<char>) {
    if s.len() == 0 {
        (Tok::EOF, s)
    } else if s[0] == '+' {
        (Tok::Plus, s.drop_first())
    } else if s[0] == '-' {
        (Tok::Minus, s.drop_first())
    } else if s[0] == '*' {
        (Tok::Star, s.drop_first())
    } else if s[0] == '/' {
        (Tok::Slash, s.drop_first())
    } else if s[0] == '=' {
        if s.len() >= 2 && s[1] == '=' {
            (Tok::DoubleEquals, s.skip(2))
        } else {
            (Tok::Equals, s.drop_first())
        }
    } else if s[0] == '<' {
        (Tok::LessThan, s.drop_first())
    } else if s[0] == '>' {
        (Tok::GreaterThan, s.drop_first())
    } else if s[0] == '(' {
        (Tok::LParen, s.drop_first())
    } else if s[0] == ')' {
        (Tok::RParen, s.drop_first())
    } else if is_digit_char(s[0]) {
        let (run, rest) = digit_run(s);
        (Tok::Number(number_of_digits(run)), rest)
    } else if is_letter_char(s[0]) {
        let (run, rest) = word_run(s);
        (word_tok(run), rest)
    } else {
        (Tok::EOF, s)
    }
}

/// One step of the lexer: scan past trivia, then read a token.
pub open spec fn spec_next(s: Seq<char>, line: nat) -> (Tok, Seq<char>, nat) {
    let (at, line2) = scan(s, line);
    let (t, rest) = next_tok(at);
    (t, rest, line2)
}

// ---------------------------------------------------------------------------
// Progress lemmas, needed for the termination of `lex_all`.
// ---------------------------------------------------------------------------

pub proof fn lemma_scan_len(s: Seq<char>, line: nat)
    ensures
        scan(s, line).0.len() <= s.len(),
        scan(s, line).0.len() > 0 ==> is_token_start(scan(s, line).0[0]),
    decreases s.len(), 1int,
{
    if s.len() == 0 {
    } else if s[0] == '\n' {
        lemma_scan_len(s.drop_first(), line + 1);
    } else if is_blank_char(s[0]) {
        lemma_scan_len(s.drop_first(), line);
    } else if s[0] == '#' {
        lemma_scan_comment_len(s.drop_first(), line);
    } else if is_token_start(s[0]) {
    } else {
        lemma_scan_len(s.drop_first(), line);
    }
}

pub proof fn lemma_scan_comment_len(s: Seq<char>, line: nat)
    ensures
        scan_comment(s, line).0.len() <= s.len(),
        scan_comment(s, line).0.len() > 0 ==> is_token_start(scan_comment(s, line).0[0]),
    decreases s.len(), 2int,
{
    if s.len() == 0 {
    } else if s[0] == '\n' {
        lemma_scan_len(s, line);
    } else {
        lemma_scan_comment_len(s.drop_first(), line);
    }
}

pub proof fn lemma_digit_run_len(s: Seq<char>)
    ensures
        digit_run(s).0 + digit_run(s).1 == s,
        digit_run(s).1.len() <= s.len(),
        s.len() > 0 && is_digit_char(s[0]) ==> digit_run(s).1.len() < s.len(),
        forall|i: int| 0 <= i < digit_run(s).0.len() ==> is_digit_char(#[trigger] digit_run(s).0[i]),
        digit_run(s).1.len() > 0 ==> !is_digit_char(digit_run(s).1[0]),
    decreases s.len(),
{
    if s.len() > 0 && is_digit_char(s[0]) {
        let s2 = s.drop_first();
        lemma_digit_run_len(s2);
        assert(digit_run(s).0 == seq![s[0]] + digit_run(s2).0);
        assert(digit_run(s).1 == digit_run(s2).1);
        assert((seq![s[0]] + digit_run(s2).0) + digit_run(s2).1 =~= seq![s[0]] + (digit_run(s2).0
            + digit_run(s2).1));
        assert(seq![s[0]] + s2 =~= s);
    } else {
        assert(digit_run(s).0 + digit_run(s).1 =~= Seq::<char>::empty() + s);
        assert(Seq::<char>::empty() + s =~= s);
    }
}

pub proof fn lemma_word_run_len(s: Seq<char>)
    ensures
        word_run(s).0 + word_run(s).1 == s,
        word_run(s).1.len() <= s.len(),
        s.len() > 0 && is_word_char(s[0]) ==> word_run(s).1.len() < s.len(),
        forall|i: int| 0 <= i < word_run(s).0.len() ==> is_word_char(#[trigger] word_run(s).0[i]),
        word_run(s).1.len() > 0 ==> !is_word_char(word_run(s).1[0]),
    decreases s.len(),
{
    if s.len() > 0 && is_word_char(s[0]) {
        let s2 = s.drop_first();
        lemma_word_run_len(s2);
        assert(word_run(s).0 == seq![s[0]] + word_run(s2).0);
        assert(word_run(s).1 == word_run(s2).1);
        assert((seq![s[0]] + word_run(s2).0) + word_run(s2).1 =~= seq![s[0]] + (word_run(s2).0
            + word_run(s2).1));
        assert(seq![s[0]] + s2 =~= s);
    } else {
        assert(word_run(s).0 + word_run(s).1 =~= Seq::<char>::empty() + s);
        assert(Seq::<char>::empty() + s =~= s);
    }
}

pub proof fn lemma_next_tok_len(s: Seq<char>)
    ensures
        next_tok(s).1.len() <= s.len(),
        s.len() > 0 && is_token_start(s[0]) ==> next_tok(s).1.len() < s.len(),
{
    if s.len() > 0 && is_digit_char(s[0]) {
        lemma_digit_run_len(s);
    }
    if s.len() > 0 && is_letter_char(s[0]) {
        lemma_word_run_len(s);
    }
}

// ---------------------------------------------------------------------------
// The whole token stream of an input: the tokens in order, then one EOF.
// ---------------------------------------------------------------------------

pub open spec fn lex_all(s: Seq<char>) -> Seq<Tok>
    decreases s.len(),
        via lex_all_decreases
{
    let (at, _line) = scan(s, 0);
    if at.len() == 0 {
        seq![Tok::EOF]
    } else {
        let (t, rest) = next_tok(at);
        seq![t] + lex_all(rest)
    }
}

#[via_fn]
proof fn lex_all_decreases(s: Seq<char>) {
    lemma_scan_len(s, 0);
    lemma_next_tok_len(scan(s, 0).0);
}

/// Where the scanner stops does not depend on the line count it carries.
pub proof fn lemma_scan_line(s: Seq<char>, l1: nat, l2: nat)
    ensures
        scan(s, l1).0 == scan(s, l2).0,
    decreases s.len(), 1int,
{
    if s.len() == 0 {
    } else if s[0] == '\n' {
        lemma_scan_line(s.drop_first(), l1 + 1, l2 + 1);
    } else if is_blank_char(s[0]) {
        lemma_scan_line(s.drop_first(), l1, l2);
    } else if s[0] == '#' {
        lemma_scan_comment_line(s.drop_first(), l1, l2);
    } else if is_token_start(s[0]) {
    } else {
        lemma_scan_line(s.drop_first(), l1, l2);
    }
}

pub proof fn lemma_scan_comment_line(s: Seq<char>, l1: nat, l2: nat)
    ensures
        scan_comment(s, l1).0 == scan_comment(s, l2).0,
    decreases s.len(), 2int,
{
    if s.len() == 0 {
    } else if s[0] == '\n' {
        lemma_scan_line(s, l1, l2);
    } else {
        lemma_scan_comment_line(s.drop_first(), l1, l2);
    }
}

/// A token read from a real token start is never the end-of-input token.
pub proof fn lemma_next_tok_not_eof(s: Seq<char>)
    requires
        s.len() > 0,
        is_token_start(s[0]),
    ensures
        !(next_tok(s).0 is EOF),
{
}

/// A run of word characters followed by something else splits exactly
/// there.
pub proof fn lemma_word_run_concat(w: Seq<char>, rest: Seq<char>)
    requires
        forall|i: int| 0 <= i < w.len() ==> is_word_char(#[trigger] w[i]),
        rest.len() == 0 || !is_word_char(rest[0]),
    ensures
        word_run(w + rest) == (w, rest),
    decreases w.len(),
{
    if w.len() == 0 {
        assert(w + rest =~= rest);
        assert(word_run(rest).0 =~= w);
    } else {
        let s = w + rest;
        assert(s[0] == w[0]);
        assert(s.drop_first() =~= w.drop_first() + rest);
        lemma_word_run_concat(w.drop_first(), rest);
        assert(word_run(s).0 =~= seq![w[0]] + w.drop_first());
        assert(seq![w[0]] + w.drop_first() =~= w);
    }
}

/// A run of digits followed by something else splits exactly there.
pub proof fn lemma_digit_run_concat(d: Seq<char>, rest: Seq<char>)
    requires
        forall|i: int| 0 <= i < d.len() ==> is_digit_char(#[trigger] d[i]),
        rest.len() == 0 || !is_digit_char(rest[0]),
    ensures
        digit_run(d + rest) == (d, rest),
    decreases d.len(),
{
    if d.len() == 0 {
        assert(d + rest =~= rest);
        assert(digit_run(rest).0 =~= d);
    } else {
        let s = d + rest;
        assert(s[0] == d[0]);
        assert(s.drop_first() =~= d.drop_first() + rest);
        lemma_digit_run_concat(d.drop_first(), rest);
        assert(digit_run(s).0 =~= seq![d[0]] + d.drop_first());
        assert(seq![d[0]] + d.drop_first() =~= d);
    }
}

/// A line that holds only a comment adds nothing to the token stream: the
/// tokens of `# ...` followed by a newline and the rest are the tokens of
/// the rest alone.
pub proof fn lemma_comment_line(comment: Seq<char>, rest: Seq<char>)
    requires
        forall|i: int| 0 <= i < comment.len() ==> #[trigger] comment[i] != '\n',
    ensures
        lex_all(seq!['#'] + comment + seq!['\n'] + rest) == lex_all(rest),
{
    let full = seq!['#'] + comment + seq!['\n'] + rest;
    let tail = seq!['\n'] + rest;
    assert(full[0] == '#');
    assert(full.drop_first() =~= comment + tail);
    lemma_comment_skips(comment, tail, 0);
    assert(tail.drop_first() =~= rest);
    assert(full.len() > 0);
    assert(scan(full, 0) == scan_comment(comment + tail, 0));
    assert(scan_comment(comment + tail, 0) == scan_comment(tail, 0));
    assert(tail[0] == '\n');
    assert(scan_comment(tail, 0) == scan(tail, 0));
    assert(scan(tail, 0) == scan(rest, 1));
    assert(scan(full, 0).0 == scan(rest, 1).0);
    lemma_scan_line(rest, 1, 0);
    assert(scan(full, 0).0 == scan(rest, 0).0);
}

proof fn lemma_comment_skips(c: Seq<char>, tail: Seq<char>, line: nat)
    requires
        forall|i: int| 0 <= i < c.len() ==> #[trigger] c[i] != '\n',
        tail.len() > 0,
        tail[0] == '\n',
    ensures
        scan_comment(c + tail, line) == scan_comment(tail, line),
    decreases c.len(),
{
    if c.len() == 0 {
        assert(c + tail =~= tail);
    } else {
        let s = c + tail;
        assert(s[0] == c[0]);
        assert(s.drop_first() =~= c.drop_first() + tail);
        lemma_comment_skips(c.drop_first(), tail, line);
    }
}

fn is_digit(c: char) -> (r: bool)
    ensures
        r == is_digit_char(c),
{
    48 <= c as u32 && c as u32 <= 57
}

fn is_word(c: char) -> (r: bool)
    ensures
        r == is_word_char(c),
{
    (48 <= c as u32 && c as u32 <= 57) || (65 <= c as u32 && c as u32 <= 90) || (97 <= c as u32 && c
        as u32 <= 122)
}

proof fn lemma_skip_one(s: Seq<char>, i: int)
    requires
        0 <= i < s.len(),
    ensures
        s.skip(i).drop_first() == s.skip(i + 1),
        s.skip(i)[0] == s[i],
{
    assert(s.skip(i).drop_first() =~= s.skip(i + 1));
}

// ---------------------------------------------------------------------------
// The lexer itself: a cursor over the input characters.
// ---------------------------------------------------------------------------

/// Lexical analyzer: turns a piece of source text into a stream of tokens,
/// one call at a time. Once the end is reached every further call yields
/// `Token::EOF`.
pub struct Lexer {
    input: Vec<char>,
    pos: usize,
    line: usize,
}

impl Lexer {
    /// The input not yet consumed.
    pub closed spec fn rest(&self) -> Seq<char> {
        self.input@.skip(self.pos as int)
    }

    /// The line the cursor stands on, starting from one.
    pub closed spec fn cur_line(&self) -> nat {
        self.line as nat
    }

    pub closed spec fn wf(&self) -> bool {
        &&& self.pos <= self.input.len()
        &&& self.input.len() < usize::MAX
        &&& 1 <= self.line
        &&& self.line <= self.pos + 1
    }

    /// Makes a lexer over the given source text, with the cursor at the start.
    pub fn new(input: &str) -> (r: Lexer)
        ensures
            r.wf(),
            r.rest() == input@,
            r.cur_line() == 1,
    {
        let l = Lexer { input: crate::chars::str_chars_vec(input), pos: 0, line: 1 };
        proof {
            assert(l.input@.skip(0) =~= input@);
        }
        l
    }

    /// Moves the cursor past whitespace, comments and unrecognized
    /// characters, counting newlines, so that it stands on a token start or
    /// at the end of the input.
    fn skip_whitespace(&mut self)
        requires
            old(self).wf(),
        ensures
            final(self).wf(),
            final(self).input == old(self).input,
            (final(self).rest(), final(self).cur_line()) == scan(
                old(self).rest(),
                old(self).cur_line(),
            ),
            final(self).rest().len() == 0 || is_token_start(final(self).rest()[0]),
    {
        loop
            invariant
                self.wf(),
                self.input == old(self).input,
                scan(self.rest(), self.cur_line()) == scan(old(self).rest(), old(self).cur_line()),
            ensures
                self.wf(),
                self.input == old(self).input,
                scan(self.rest(), self.cur_line()) == scan(old(self).rest(), old(self).cur_line()),
                self.pos == self.input.len() || (self.rest().len() > 0 && is_token_start(
                    self.rest()[0],
                )),
            decreases self.input.len() - self.pos,
        {
            if self.pos >= self.input.len() {
                break ;
            }
            let c = self.input[self.pos];
            proof {
                lemma_skip_one(self.input@, self.pos as int);
            }
            if c == '\n' {
                self.pos = self.pos + 1;
                self.line = self.line + 1;
            } else if c == ' ' || c == '\t' || c == '\r' {
                self.pos = self.pos + 1;
            } else if c == '#' {
                self.pos = self.pos + 1;
                let ghost entered = self.pos;
                while self.pos < self.input.len() && self.input[self.pos] != '\n'
                    invariant
                        self.wf(),
                        self.input == old(self).input,
                        entered <= self.pos,
                        scan_comment(self.rest(), self.cur_line()) == scan(
                            old(self).rest(),
                            old(self).cur_line(),
                        ),
                    decreases self.input.len() - self.pos,
                {
                    proof {
                        lemma_skip_one(self.input@, self.pos as int);
                    }
                    self.pos = self.pos + 1;
                }
                proof {
                    if self.pos < self.input.len() {
                        lemma_skip_one(self.input@, self.pos as int);
                    }
                }
            } else if c == '+' || c == '-' || c == '*' || c == '/' || c == '=' || c == '<' || c
                == '>' || c == '(' || c == ')' || (48 <= c as u32 && c as u32 <= 57) || (65 <= c
                as u32 && c as u32 <= 90) || (97 <= c as u32 && c as u32 <= 122) {
                break ;
            } else {
                self.pos = self.pos + 1;
            }
        }
        proof {
            if self.pos == self.input.len() {
                assert(self.rest() =~= Seq::<char>::empty());
            }
        }
    }

    /// Reads a whole run of digits as one number token. A run that does not
    /// fit a 64-bit signed integer reads as zero.
    fn read_number(&mut self) -> (t: Token)
        requires
            old(self).wf(),
            old(self).rest().len() > 0,
            is_digit_char(old(self).rest()[0]),
        ensures
            final(self).wf(),
            final(self).input == old(self).input,
            final(self).cur_line() == old(self).cur_line(),
            t@ == Tok::Number(number_of_digits(digit_run(old(self).rest()).0)),
            final(self).rest() == digit_run(old(self).rest()).1,
    {
        let ghost rest0 = self.rest();
        let ghost start = self.pos as int;
        let mut acc: u64 = 0;
        let mut overflow: bool = false;
        let max: u64 = 9223372036854775807;
        while self.pos < self.input.len() && is_digit(self.input[self.pos])
            invariant
                self.wf(),
                self.input == old(self).input,
                self.line == old(self).line,
                start == old(self).pos,
                start <= self.pos <= self.input.len(),
                max == i64::MAX as u64,
                digit_run(rest0).0 == self.input@.subrange(start, self.pos as int) + digit_run(
                    self.rest(),
                ).0,
                digit_run(rest0).1 == digit_run(self.rest()).1,
                !overflow ==> acc as nat == digits_val(
                    self.input@.subrange(start, self.pos as int),
                ) && acc <= max,
                overflow ==> digits_val(self.input@.subrange(start, self.pos as int)) > i64::MAX,
            decreases self.input.len() - self.pos,
        {
            let c = self.input[self.pos];
            let d: u64 = (c as u32 - 48) as u64;
            let ghost prefix = self.input@.subrange(start, self.pos as int);
            proof {
                lemma_skip_one(self.input@, self.pos as int);
                assert(digit_run(self.rest()).0 == seq![c] + digit_run(self.rest().drop_first()).0);
                assert(self.input@.subrange(start, self.pos + 1) =~= prefix.push(c));
                assert(prefix.push(c).drop_last() =~= prefix);
                assert(digits_val(prefix.push(c)) == digits_val(prefix) * 10 + digit_val(c));
                assert(prefix + digit_run(self.rest()).0 =~= (prefix.push(c)) + digit_run(
                    self.rest().drop_first(),
                ).0);
            }
            if !overflow {
                if acc <= (max - d) / 10 {
                    proof {
                        assert(acc * 10 + d <= max) by (nonlinear_arith)
                            requires
                                acc <= (max - d) / 10,
                                d <= max,
                        ;
                    }
                    acc = acc * 10 + d;
                } else {
                    proof {
                        assert(acc * 10 + d > max) by (nonlinear_arith)
                            requires
                                acc > (max - d) / 10,
                                d < 10,
                        ;
                    }
                    overflow = true;
                }
            } else {
                proof {
                    let v = digits_val(prefix);
                    assert(v * 10 + digit_val(c) > i64::MAX);
                }
            }
            self.pos = self.pos + 1;
        }
        proof {
            assert(digit_run(self.rest()).0 =~= Seq::<char>::empty());
            assert(digit_run(rest0).0 =~= self.input@.subrange(start, self.pos as int));
        }
        if overflow {
            Token::Number(0)
        } else {
            Token::Number(acc as i64)
        }
    }

    /// Reads a whole alphanumeric word, starting at a letter.
    fn read_ident(&mut self) -> (name: String)
        requires
            old(self).wf(),
            old(self).rest().len() > 0,
            is_word_char(old(self).rest()[0]),
        ensures
            final(self).wf(),
            final(self).input == old(self).input,
            final(self).cur_line() == old(self).cur_line(),
            name@ == word_run(old(self).rest()).0,
            final(self).rest() == word_run(old(self).rest()).1,
    {
        let ghost rest0 = self.rest();
        let ghost start = self.pos as int;
        let mut name = String::new();
        while self.pos < self.input.len() && is_word(self.input[self.pos])
            invariant
                self.wf(),
                self.input == old(self).input,
                self.line == old(self).line,
                start == old(self).pos,
                start <= self.pos <= self.input.len(),
                name@ == self.input@.subrange(start, self.pos as int),
                word_run(rest0).0 == self.input@.subrange(start, self.pos as int) + word_run(
                    self.rest(),
                ).0,
                word_run(rest0).1 == word_run(self.rest()).1,
            decreases self.input.len() - self.pos,
        {
            let c = self.input[self.pos];
            let ghost prefix = self.input@.subrange(start, self.pos as int);
            proof {
                lemma_skip_one(self.input@, self.pos as int);
                assert(word_run(self.rest()).0 == seq![c] + word_run(self.rest().drop_first()).0);
                assert(self.input@.subrange(start, self.pos + 1) =~= prefix.push(c));
                assert(prefix + word_run(self.rest()).0 =~= (prefix.push(c)) + word_run(
                    self.rest().drop_first(),
                ).0);
            }
            crate::chars::push_char(&mut name, c);
            self.pos = self.pos + 1;
        }
        proof {
            assert(word_run(self.rest()).0 =~= Seq::<char>::empty());
            assert(word_run(rest0).0 =~= self.input@.subrange(start, self.pos as int));
        }
        name
    }

    /// The character after the one under the cursor, left unconsumed.
    fn peek(&self) -> (r: Option<char>)
        requires
            self.wf(),
        ensures
            r == if self.pos + 1 < self.input.len() {
                Some(self.input@[self.pos + 1])
            } else {
                None::<char>
            },
    {
        if self.pos + 1 < self.input.len() {
            Some(self.input[self.pos + 1])
        } else {
            None
        }
    }

    /// Yields the next token together with the line it stands on.
    pub fn next_token(&mut self) -> (r: TokenWithLine)
        requires
            old(self).wf(),
        ensures
            final(self).wf(),
            ({
                let (t, rest2, line2) = spec_next(old(self).rest(), old(self).cur_line());
                &&& r.token@ == t
                &&& r.line == line2
                &&& final(self).rest() == rest2
                &&& final(self).cur_line() == line2
            }),
    {
        self.skip_whitespace();
        let line = self.line;
        if self.pos >= self.input.len() {
            proof {
                assert(self.rest() =~= Seq::<char>::empty());
            }
            return TokenWithLine { token: Token::EOF, line };
        }
        let c = self.input[self.pos];
        proof {
            lemma_skip_one(self.input@, self.pos as int);
        }
        let token = if c == '+' {
            self.pos = self.pos + 1;
            Token::Plus
        } else if c == '-' {
            self.pos = self.pos + 1;
            Token::Minus
        } else if c == '*' {
            self.pos = self.pos + 1;
            Token::Star
        } else if c == '/' {
            self.pos = self.pos + 1;
            Token::Slash
        } else if c == '=' {
            if self.peek() == Some('=') {
                proof {
                    assert(self.rest().skip(2) =~= self.input@.skip(self.pos + 2));
                }
                self.pos = self.pos + 2;
                Token::DoubleEquals
            } else {
                self.pos = self.pos + 1;
                Token::Equals
            }
        } else if c == '<' {
            self.pos = self.pos + 1;
            Token::LessThan
        } else if c == '>' {
            self.pos = self.pos + 1;
            Token::GreaterThan
        } else if c == '(' {
            self.pos = self.pos + 1;
            Token::LParen
        } else if c == ')' {
            self.pos = self.pos + 1;
            Token::RParen
        } else if 48 <= c as u32 && c as u32 <= 57 {
            self.read_number()
        } else {
            // `skip_whitespace` stops only at token starts, so a letter is
            // all that is left.
            let name = self.read_ident();
            let kw_if = String::from_str("if");
            let kw_while = String::from_str("while");
            let kw_end = String::from_str("end");
            proof {
                reveal_strlit("if");
                reveal_strlit("while");
                reveal_strlit("end");
                assert("if"@ =~= seq!['i', 'f']);
                assert("while"@ =~= seq!['w', 'h', 'i', 'l', 'e']);
                assert("end"@ =~= seq!['e', 'n', 'd']);
            }
            if name == kw_if {
                Token::If
            } else if name == kw_while {
                Token::While
            } else if name == kw_end {
                Token::End
            } else {
                Token::Ident(name)
            }
        };
        TokenWithLine { token, line }
    }
}

} // verus!
