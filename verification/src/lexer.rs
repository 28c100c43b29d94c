//! The tokenizer: one forward pass over the characters of the input,
//! producing maximal runs of numeric, word or symbol characters and
//! skipping blanks. An unrecognized character ends the stream early.

use vstd::prelude::*;
use crate::chars::{char_alphabetic, char_numeric, chars_of, string_of_range};

verus! {

/// The mathematical shape of a token: the classification together with
/// the characters of its text.
pub enum Tok {
    Eof,
    Error,
    Number(Seq<char>),
    Word(Seq<char>),
    Symbol(Seq<char>),
}

/// A lexical token. `EOF` marks exhausted input, `Error` an unrecognized
/// character (which ends the stream early); the other variants carry the
/// text of a maximal character run.
#[derive(Debug, Clone)]
pub enum Token {
    EOF,
    Error,
    Number(String),
    Word(String),
    Symbol(String),
}

impl View for Token {
    type V = Tok;

    open spec fn view(&self) -> Tok {
        match self {
            Token::EOF => Tok::Eof,
            Token::Error => Tok::Error,
            Token::Number(s) => Tok::Number(s@),
            Token::Word(s) => Tok::Word(s@),
            Token::Symbol(s) => Tok::Symbol(s@),
        }
    }
}

impl PartialEq for Token {
    fn eq(&self, other: &Token) -> (r: bool) {
        match (self, other) {
            (Token::EOF, Token::EOF) => true,
            (Token::Error, Token::Error) => true,
            (Token::Number(a), Token::Number(b)) => a.eq(b),
            (Token::Word(a), Token::Word(b)) => a.eq(b),
            (Token::Symbol(a), Token::Symbol(b)) => a.eq(b),
            _ => false,
        }
    }
}

impl vstd::std_specs::cmp::PartialEqSpecImpl for Token {
    open spec fn obeys_eq_spec() -> bool {
        true
    }

    open spec fn eq_spec(&self, other: &Token) -> bool {
        self@ == other@
    }
}

/// The blank characters the tokenizer skips between tokens.
pub open spec fn is_blank(c: char) -> bool {
    c == ' ' || c == '\t' || c == '\r' || c == '\n'
}

/// The fixed set of symbol characters.
pub open spec fn is_sym_char(c: char) -> bool {
    ||| c == '!' ||| c == '@' ||| c == '#' ||| c == '$' ||| c == '%' ||| c == '^'
    ||| c == '&' ||| c == '*' ||| c == '(' ||| c == ')' ||| c == '-' ||| c == '_'
    ||| c == '+' ||| c == '=' ||| c == '{' ||| c == '}' ||| c == '[' ||| c == ']'
    ||| c == ':' ||| c == ';' ||| c == '"' ||| c == '\'' ||| c == '<' ||| c == '>'
    ||| c == ',' ||| c == '.' ||| c == '?' ||| c == '/' ||| c == '\\' ||| c == '|'
}

/// A numeric character. The blanks the tokenizer skips are never
/// numeric, which the specification records outright.
pub open spec fn is_num_char(c: char) -> bool {
    char_numeric(c) && !is_blank(c)
}

/// An alphabetic character; never a blank.
pub open spec fn is_alpha_char(c: char) -> bool {
    char_alphabetic(c) && !is_blank(c)
}

/// The characters a word run may continue with: alphanumeric characters
/// plus the literal apostrophe and hyphen.
pub open spec fn is_word_char(c: char) -> bool {
    is_alpha_char(c) || is_num_char(c) || c == '\'' || c == '-'
}

/// How many consecutive blanks start at `i`.
pub open spec fn blank_run(s: Seq<char>, i: int) -> nat
    decreases s.len() - i when 0 <= i <= s.len()
{
    if i < s.len() && is_blank(s[i]) {
        (1 + blank_run(s, i + 1)) as nat
    } else {
        0
    }
}

/// How many consecutive numeric characters start at `i`.
pub open spec fn numeric_run(s: Seq<char>, i: int) -> nat
    decreases s.len() - i when 0 <= i <= s.len()
{
    if i < s.len() && is_num_char(s[i]) {
        (1 + numeric_run(s, i + 1)) as nat
    } else {
        0
    }
}

/// How many consecutive word characters start at `i`.
pub open spec fn word_run(s: Seq<char>, i: int) -> nat
    decreases s.len() - i when 0 <= i <= s.len()
{
    if i < s.len() && is_word_char(s[i]) {
        (1 + word_run(s, i + 1)) as nat
    } else {
        0
    }
}

/// How many consecutive symbol characters start at `i`.
pub open spec fn sym_run(s: Seq<char>, i: int) -> nat
    decreases s.len() - i when 0 <= i <= s.len()
{
    if i < s.len() && is_sym_char(s[i]) {
        (1 + sym_run(s, i + 1)) as nat
    } else {
        0
    }
}

/// The runs never reach past the end of the input.
pub proof fn lemma_runs_bounded(s: Seq<char>, i: int)
    requires
        0 <= i <= s.len(),
    ensures
        i + blank_run(s, i) <= s.len(),
        i + numeric_run(s, i) <= s.len(),
        i + word_run(s, i) <= s.len(),
        i + sym_run(s, i) <= s.len(),
    decreases s.len() - i,
{
    if i < s.len() {
        lemma_runs_bounded(s, i + 1);
    }
}

/// The position after the blanks that start at `i`.
pub open spec fn blank_end(s: Seq<char>, i: int) -> int {
    i + blank_run(s, i)
}

/// Where the token that starts at `i` (after skipping blanks) ends.
pub open spec fn step_end(s: Seq<char>, i: int) -> int {
    let j = blank_end(s, i);
    if j >= s.len() {
        j
    } else if is_num_char(s[j]) {
        j + numeric_run(s, j)
    } else if is_alpha_char(s[j]) {
        j + word_run(s, j)
    } else if is_sym_char(s[j]) {
        j + sym_run(s, j)
    } else {
        j
    }
}

/// The token found at position `i`, after skipping blanks: a maximal
/// numeric run if the first character is numeric, else a word run if it
/// is alphabetic, else a symbol run if it is a symbol character; `Eof`
/// at the end of the input and `Error` on any other character.
pub open spec fn step_tok(s: Seq<char>, i: int) -> Tok {
    let j = blank_end(s, i);
    if j >= s.len() {
        Tok::Eof
    } else if is_num_char(s[j]) {
        Tok::Number(s.subrange(j, step_end(s, i)))
    } else if is_alpha_char(s[j]) {
        Tok::Word(s.subrange(j, step_end(s, i)))
    } else if is_sym_char(s[j]) {
        Tok::Symbol(s.subrange(j, step_end(s, i)))
    } else {
        Tok::Error
    }
}

pub proof fn lemma_step_end_bounds(s: Seq<char>, i: int)
    requires
        0 <= i <= s.len(),
    ensures
        i <= step_end(s, i) <= s.len(),
        !(step_tok(s, i) is Eof) && !(step_tok(s, i) is Error) ==> i < step_end(s, i),
{
    lemma_runs_bounded(s, i);
    let j = blank_end(s, i);
    if j < s.len() {
        lemma_runs_bounded(s, j);
    }
}

/// The tokens of `s` from position `i` on: repeated steps until the end
/// of the input or an unrecognized character.
pub open spec fn tokenize_from(s: Seq<char>, i: int) -> Seq<Tok>
    decreases s.len() - i when 0 <= i <= s.len() via tokenize_from_decreases
{
    match step_tok(s, i) {
        Tok::Eof => Seq::empty(),
        Tok::Error => Seq::empty(),
        t => seq![t] + tokenize_from(s, step_end(s, i)),
    }
}

#[via_fn]
proof fn tokenize_from_decreases(s: Seq<char>, i: int) {
    lemma_step_end_bounds(s, i);
}

/// The tokens of the whole input.
pub open spec fn tokenize_spec(s: Seq<char>) -> Seq<Tok> {
    tokenize_from(s, 0)
}

/// A `Lexer` walks the characters of one input, handing out one token
/// per call of `next_token`.
pub struct Lexer {
    chars: Vec<char>,
    ci: usize,
}

impl Lexer {
    /// The characters of the input being tokenized.
    pub closed spec fn text(&self) -> Seq<char> {
        self.chars@
    }

    /// The current position in the input.
    pub closed spec fn pos(&self) -> int {
        self.ci as int
    }

    pub open spec fn wf(&self) -> bool {
        0 <= self.pos() <= self.text().len()
    }

    pub fn new(input: &str) -> (lex: Lexer)
        ensures
            lex.wf(),
            lex.text() == input@,
            lex.pos() == 0,
    {
        Lexer { chars: chars_of(input), ci: 0 }
    }

    fn is_at_end(&self) -> (r: bool)
        requires
            self.wf(),
        ensures
            r == (self.pos() >= self.text().len()),
    {
        self.ci >= self.chars.len()
    }

    /// Whether `c` belongs to the fixed symbol set.
    pub fn is_symbol(&self, c: char) -> (r: bool)
        ensures
            r == is_sym_char(c),
    {
        match c {
            '!' | '@' | '#' | '$' | '%' | '^' | '&' | '*' | '(' | ')' | '-' | '_' | '+' | '='
            | '{' | '}' | '[' | ']' | ':' | ';' | '"' | '\'' | '<' | '>' | ',' | '.' | '?'
            | '/' | '\\' | '|' => true,
            _ => false,
        }
    }

    fn blank_at(&self, k: usize) -> (r: bool)
        requires
            k < self.text().len(),
        ensures
            r == is_blank(self.text()[k as int]),
    {
        let c = self.chars[k];
        c == ' ' || c == '\t' || c == '\r' || c == '\n'
    }

    fn numeric_at(&self, k: usize) -> (r: bool)
        requires
            k < self.text().len(),
        ensures
            r == is_num_char(self.text()[k as int]),
    {
        self.chars[k].is_numeric()
    }

    fn word_char_at(&self, k: usize) -> (r: bool)
        requires
            k < self.text().len(),
        ensures
            r == is_word_char(self.text()[k as int]),
    {
        let c = self.chars[k];
        c.is_alphanumeric() || c == '\'' || c == '-'
    }

    fn sym_at(&self, k: usize) -> (r: bool)
        requires
            k < self.text().len(),
        ensures
            r == is_sym_char(self.text()[k as int]),
    {
        let c = self.chars[k];
        self.is_symbol(c)
    }

    fn skip_nontokens(&mut self)
        requires
            old(self).wf(),
        ensures
            final(self).wf(),
            final(self).text() == old(self).text(),
            final(self).pos() == blank_end(old(self).text(), old(self).pos()),
            final(self).pos() < final(self).text().len() ==> !is_blank(
                final(self).text()[final(self).pos()],
            ),
    {
        let ghost s = self.chars@;
        let ghost i0 = self.ci as int;
        while self.ci < self.chars.len() && self.blank_at(self.ci)
            invariant
                self.chars@ == s,
                0 <= i0 <= self.ci as int <= s.len(),
                blank_end(s, i0) == blank_end(s, self.ci as int),
            decreases s.len() - self.ci,
        {
            self.ci = self.ci + 1;
        }
    }

    fn scan_number(&mut self) -> (tok: Token)
        requires
            old(self).wf(),
        ensures
            final(self).wf(),
            final(self).text() == old(self).text(),
            final(self).pos() == old(self).pos() + numeric_run(
                old(self).text(),
                old(self).pos(),
            ),
            tok@ == Tok::Number(old(self).text().subrange(old(self).pos(), final(self).pos())),
    {
        let ghost s = self.chars@;
        let startpos = self.ci;
        while self.ci < self.chars.len() && self.numeric_at(self.ci)
            invariant
                self.chars@ == s,
                startpos as int <= self.ci as int <= s.len(),
                numeric_run(s, startpos as int) == (self.ci - startpos) + numeric_run(
                    s,
                    self.ci as int,
                ),
            decreases s.len() - self.ci,
        {
            self.ci = self.ci + 1;
        }
        Token::Number(string_of_range(&self.chars, startpos, self.ci))
    }

    fn scan_word(&mut self) -> (tok: Token)
        requires
            old(self).wf(),
        ensures
            final(self).wf(),
            final(self).text() == old(self).text(),
            final(self).pos() == old(self).pos() + word_run(old(self).text(), old(self).pos()),
            tok@ == Tok::Word(old(self).text().subrange(old(self).pos(), final(self).pos())),
    {
        let ghost s = self.chars@;
        let startpos = self.ci;
        while self.ci < self.chars.len() && self.word_char_at(self.ci)
            invariant
                self.chars@ == s,
                startpos as int <= self.ci as int <= s.len(),
                word_run(s, startpos as int) == (self.ci - startpos) + word_run(
                    s,
                    self.ci as int,
                ),
            decreases s.len() - self.ci,
        {
            self.ci = self.ci + 1;
        }
        Token::Word(string_of_range(&self.chars, startpos, self.ci))
    }

    fn scan_symbol(&mut self) -> (tok: Token)
        requires
            old(self).wf(),
        ensures
            final(self).wf(),
            final(self).text() == old(self).text(),
            final(self).pos() == old(self).pos() + sym_run(old(self).text(), old(self).pos()),
            tok@ == Tok::Symbol(old(self).text().subrange(old(self).pos(), final(self).pos())),
    {
        let ghost s = self.chars@;
        let startpos = self.ci;
        while self.ci < self.chars.len() && self.sym_at(self.ci)
            invariant
                self.chars@ == s,
                startpos as int <= self.ci as int <= s.len(),
                sym_run(s, startpos as int) == (self.ci - startpos) + sym_run(
                    s,
                    self.ci as int,
                ),
            decreases s.len() - self.ci,
        {
            self.ci = self.ci + 1;
        }
        Token::Symbol(string_of_range(&self.chars, startpos, self.ci))
    }

    /// Skip blanks, then hand out the token that starts there: `EOF` at
    /// the end of the input, a maximal numeric, word or symbol run, or
    /// `Error` on a character of no known class.
    pub fn next_token(&mut self) -> (tok: Token)
        requires
            old(self).wf(),
        ensures
            final(self).wf(),
            final(self).text() == old(self).text(),
            tok@ == step_tok(old(self).text(), old(self).pos()),
            final(self).pos() == step_end(old(self).text(), old(self).pos()),
    {
        self.skip_nontokens();
        if self.is_at_end() {
            return Token::EOF;
        }
        let c = self.chars[self.ci];
        if c.is_numeric() {
            return self.scan_number();
        }
        if c.is_alphabetic() {
            return self.scan_word();
        }
        if self.is_symbol(c) {
            return self.scan_symbol();
        }
        Token::Error
    }

    /// All tokens of the remaining input, in order: `next_token` until
    /// `EOF` or `Error`, neither of which is kept.
    pub fn tokenize(&mut self) -> (toks: Vec<Token>)
        requires
            old(self).wf(),
        ensures
            final(self).wf(),
            toks@.map_values(|t: Token| t@) == tokenize_from(old(self).text(), old(self).pos()),
    {
        let ghost s = self.chars@;
        let ghost i0 = self.ci as int;
        let mut toks: Vec<Token> = Vec::new();
        let mut done = false;
        while !done
            invariant
                self.wf(),
                self.chars@ == s,
                tokenize_from(s, i0) == toks@.map_values(|t: Token| t@) + (if done {
                    Seq::<Tok>::empty()
                } else {
                    tokenize_from(s, self.pos())
                }),
            decreases (if done { 0int } else { 1int }), s.len() - self.pos(),
        {
            let ghost i = self.pos();
            proof {
                lemma_step_end_bounds(s, i);
            }
            let ghost prev = toks@.map_values(|t: Token| t@);
            let tok = self.next_token();
            let is_end = match tok {
                Token::EOF => true,
                Token::Error => true,
                _ => false,
            };
            if is_end {
                done = true;
                proof {
                    assert(tokenize_from(s, i) =~= Seq::<Tok>::empty());
                }
            } else {
                proof {
                    assert(tokenize_from(s, i) =~= seq![tok@] + tokenize_from(s, self.pos()));
                }
                toks.push(tok);
                proof {
                    assert(toks@.map_values(|t: Token| t@) =~= prev.push(tok@));
                    assert(prev + (seq![tok@] + tokenize_from(s, self.pos())) =~= toks@.map_values(
                        |t: Token| t@,
                    ) + tokenize_from(s, self.pos()));
                }
            }
        }
        proof {
            assert(toks@.map_values(|t: Token| t@) =~= tokenize_from(s, i0));
        }
        toks
    }
}

/// An input of blanks alone produces no tokens.
pub proof fn lemma_blank_input_no_tokens(s: Seq<char>)
    requires
        forall|i: int| 0 <= i < s.len() ==> is_blank(s[i]),
    ensures
        tokenize_spec(s).len() == 0,
{
    lemma_blank_run_full(s, 0);
}

proof fn lemma_blank_run_full(s: Seq<char>, i: int)
    requires
        0 <= i <= s.len(),
        forall|m: int| 0 <= m < s.len() ==> is_blank(s[m]),
    ensures
        blank_run(s, i) == s.len() - i,
    decreases s.len() - i,
{
    if i < s.len() {
        lemma_blank_run_full(s, i + 1);
    }
}

// ---------------------------------------------------------------------
// Re-tokenizing the produced tokens
// ---------------------------------------------------------------------

/// The text a token carries.
pub open spec fn tok_text(t: Tok) -> Seq<char> {
    match t {
        Tok::Number(s) => s,
        Tok::Word(s) => s,
        Tok::Symbol(s) => s,
        _ => Seq::empty(),
    }
}

/// The texts of the tokens, joined with single blanks.
pub open spec fn join_texts(ts: Seq<Tok>) -> Seq<char>
    decreases ts.len(),
{
    if ts.len() == 0 {
        Seq::empty()
    } else if ts.len() == 1 {
        tok_text(ts[0])
    } else {
        tok_text(ts[0]) + seq![' '] + join_texts(ts.drop_first())
    }
}

/// The shape every produced token has: a nonempty text whose first
/// character selects its scanning branch and whose characters all
/// belong to the branch's class.
pub open spec fn wf_tok(t: Tok) -> bool {
    match t {
        Tok::Number(s) => {
            &&& s.len() >= 1
            &&& is_num_char(s[0])
            &&& forall|m: int| 0 <= m < s.len() ==> is_num_char(#[trigger] s[m])
        },
        Tok::Word(s) => {
            &&& s.len() >= 1
            &&& is_alpha_char(s[0])
            &&& !is_num_char(s[0])
            &&& forall|m: int| 0 <= m < s.len() ==> is_word_char(#[trigger] s[m])
        },
        Tok::Symbol(s) => {
            &&& s.len() >= 1
            &&& is_sym_char(s[0])
            &&& !is_num_char(s[0])
            &&& !is_alpha_char(s[0])
            &&& forall|m: int| 0 <= m < s.len() ==> is_sym_char(#[trigger] s[m])
        },
        _ => false,
    }
}

proof fn lemma_numeric_run_chars(s: Seq<char>, i: int)
    requires
        0 <= i <= s.len(),
    ensures
        forall|m: int| i <= m < i + numeric_run(s, i) ==> is_num_char(#[trigger] s[m]),
    decreases s.len() - i,
{
    if i < s.len() && is_num_char(s[i]) {
        lemma_numeric_run_chars(s, i + 1);
    }
}

proof fn lemma_word_run_chars(s: Seq<char>, i: int)
    requires
        0 <= i <= s.len(),
    ensures
        forall|m: int| i <= m < i + word_run(s, i) ==> is_word_char(#[trigger] s[m]),
    decreases s.len() - i,
{
    if i < s.len() && is_word_char(s[i]) {
        lemma_word_run_chars(s, i + 1);
    }
}

proof fn lemma_sym_run_chars(s: Seq<char>, i: int)
    requires
        0 <= i <= s.len(),
    ensures
        forall|m: int| i <= m < i + sym_run(s, i) ==> is_sym_char(#[trigger] s[m]),
    decreases s.len() - i,
{
    if i < s.len() && is_sym_char(s[i]) {
        lemma_sym_run_chars(s, i + 1);
    }
}

/// Every token the tokenizer produces is well-shaped.
pub proof fn lemma_tokens_wf(s: Seq<char>, i: int)
    requires
        0 <= i <= s.len(),
    ensures
        forall|k: int| 0 <= k < tokenize_from(s, i).len() ==> wf_tok(
            #[trigger] tokenize_from(s, i)[k],
        ),
    decreases s.len() - i,
{
    let ts = tokenize_from(s, i);
    let t = step_tok(s, i);
    let j = blank_end(s, i);
    lemma_step_end_bounds(s, i);
    if !(t is Eof) && !(t is Error) {
        lemma_tokens_wf(s, step_end(s, i));
        if j < s.len() {
            lemma_numeric_run_chars(s, j);
            lemma_word_run_chars(s, j);
            lemma_sym_run_chars(s, j);
        }
        assert(wf_tok(t));
        assert forall|k: int| 0 <= k < ts.len() implies wf_tok(#[trigger] ts[k]) by {
            if k > 0 {
                assert(ts[k] == tokenize_from(s, step_end(s, i))[k - 1]);
            }
        }
    }
}

proof fn lemma_numeric_run_exact(u: Seq<char>, k: int, e: int)
    requires
        0 <= k <= e <= u.len(),
        forall|m: int| k <= m < e ==> is_num_char(#[trigger] u[m]),
        e < u.len() ==> !is_num_char(u[e as int]),
    ensures
        numeric_run(u, k) == e - k,
    decreases e - k,
{
    if k < e {
        lemma_numeric_run_exact(u, k + 1, e);
    }
}

proof fn lemma_word_run_exact(u: Seq<char>, k: int, e: int)
    requires
        0 <= k <= e <= u.len(),
        forall|m: int| k <= m < e ==> is_word_char(#[trigger] u[m]),
        e < u.len() ==> !is_word_char(u[e as int]),
    ensures
        word_run(u, k) == e - k,
    decreases e - k,
{
    if k < e {
        lemma_word_run_exact(u, k + 1, e);
    }
}

proof fn lemma_sym_run_exact(u: Seq<char>, k: int, e: int)
    requires
        0 <= k <= e <= u.len(),
        forall|m: int| k <= m < e ==> is_sym_char(#[trigger] u[m]),
        e < u.len() ==> !is_sym_char(u[e as int]),
    ensures
        sym_run(u, k) == e - k,
    decreases e - k,
{
    if k < e {
        lemma_sym_run_exact(u, k + 1, e);
    }
}

/// A blank is not numeric, not a word character, and not a symbol
/// character.
proof fn lemma_blank_no_class(c: char)
    requires
        is_blank(c),
    ensures
        !is_num_char(c),
        !is_alpha_char(c),
        !is_word_char(c),
        !is_sym_char(c),
{
}

/// A well-shaped token standing at position `i`, followed by the end
/// of the input or by a blank, is scanned back exactly.
proof fn lemma_step_at(u: Seq<char>, i: int, t: Tok)
    requires
        wf_tok(t),
        0 <= i,
        i + tok_text(t).len() <= u.len(),
        forall|m: int| 0 <= m < tok_text(t).len() ==> u[i + m] == #[trigger] tok_text(t)[m],
        i + tok_text(t).len() < u.len() ==> is_blank(u[i + tok_text(t).len()]),
    ensures
        step_tok(u, i) == t,
        step_end(u, i) == i + tok_text(t).len(),
{
    let text = tok_text(t);
    let e = i + text.len();
    assert(u[i] == text[0]);
    assert(!is_blank(u[i])) by {
        if is_blank(u[i]) {
            lemma_blank_no_class(u[i]);
        }
    }
    assert(blank_run(u, i) == 0);
    assert forall|m: int| i <= m < e implies u[m] == text[m - i] by {}
    if e < u.len() {
        lemma_blank_no_class(u[e]);
    }
    match t {
        Tok::Number(s) => {
            lemma_numeric_run_exact(u, i, e);
        },
        Tok::Word(s) => {
            assert forall|m: int| i <= m < e implies is_word_char(#[trigger] u[m]) by {}
            lemma_word_run_exact(u, i, e);
        },
        Tok::Symbol(s) => {
            lemma_sym_run_exact(u, i, e);
        },
        _ => {
            assert(false);
        },
    }
    assert(u.subrange(i, e) =~= text);
}

/// Tokenizing from a position where the joined texts of well-shaped
/// tokens stand yields exactly those tokens.
proof fn lemma_join_at(u: Seq<char>, i: int, ts: Seq<Tok>)
    requires
        0 <= i <= u.len(),
        u.subrange(i, u.len() as int) == join_texts(ts),
        forall|k: int| 0 <= k < ts.len() ==> wf_tok(#[trigger] ts[k]),
    ensures
        tokenize_from(u, i) == ts,
    decreases ts.len(),
{
    if ts.len() == 0 {
        assert(u.len() - i == 0);
        assert(blank_run(u, i) == 0);
        assert(tokenize_from(u, i) =~= ts);
    } else {
        let t = ts[0];
        let text = tok_text(t);
        let e = i + text.len();
        if ts.len() == 1 {
            assert forall|m: int| 0 <= m < text.len() implies u[i + m] == #[trigger] text[m] by {
                assert(u.subrange(i, u.len() as int)[m] == u[i + m]);
            }
            assert(e == u.len());
            lemma_step_at(u, i, t);
            assert(blank_run(u, e) == 0);
            assert(tokenize_from(u, e) =~= Seq::<Tok>::empty());
            assert(tokenize_from(u, i) =~= ts);
        } else {
            let rest = ts.drop_first();
            let jr = join_texts(rest);
            assert(join_texts(ts) == text + seq![' '] + jr);
            assert forall|m: int| 0 <= m < text.len() implies u[i + m] == #[trigger] text[m] by {
                assert(u.subrange(i, u.len() as int)[m] == u[i + m]);
                assert((text + seq![' '] + jr)[m] == text[m]);
            }
            assert(u.subrange(i, u.len() as int)[text.len() as int] == ' ');
            assert(u[e] == ' ');
            lemma_step_at(u, i, t);
            let i2 = e + 1;
            assert(u.subrange(i2, u.len() as int) =~= jr) by {
                assert forall|m: int| 0 <= m < u.len() - i2 implies u.subrange(
                    i2,
                    u.len() as int,
                )[m] == jr[m] by {
                    assert(u.subrange(i, u.len() as int)[m + text.len() + 1] == u[i2 + m]);
                    assert((text + seq![' '] + jr)[m + text.len() + 1] == jr[m]);
                }
            }
            assert forall|k: int| 0 <= k < rest.len() implies wf_tok(#[trigger] rest[k]) by {
                assert(rest[k] == ts[k + 1]);
            }
            lemma_join_at(u, i2, rest);
            // the single blank before the next token is skipped
            assert(wf_tok(rest[0]));
            assert(jr.len() >= 1);
            assert(u[i2] == jr[0]);
            assert(jr[0] == tok_text(rest[0])[0]) by {
                if rest.len() == 1 {
                } else {
                    assert(jr[0] == (tok_text(rest[0]) + seq![' '] + join_texts(
                        rest.drop_first(),
                    ))[0]);
                }
            }
            assert(!is_blank(u[i2])) by {
                if is_blank(u[i2]) {
                    lemma_blank_no_class(u[i2]);
                }
            }
            assert(blank_run(u, i2) == 0);
            assert(blank_run(u, e) == 1 + blank_run(u, i2));
            assert(blank_end(u, e) == blank_end(u, i2));
            assert(step_tok(u, e) == step_tok(u, i2));
            assert(step_end(u, e) == step_end(u, i2));
            assert(tokenize_from(u, e) == tokenize_from(u, i2));
            assert(tokenize_from(u, i) =~= ts);
        }
    }
}

/// Re-tokenizing the texts of the produced tokens, joined with single
/// blanks, reproduces exactly the same tokens.
pub proof fn lemma_tokenize_roundtrip(s: Seq<char>)
    ensures
        tokenize_spec(join_texts(tokenize_spec(s))) == tokenize_spec(s),
{
    lemma_tokens_wf(s, 0);
    let ts = tokenize_spec(s);
    let u = join_texts(ts);
    assert(u.subrange(0, u.len() as int) =~= u);
    lemma_join_at(u, 0, ts);
}

} // verus!
